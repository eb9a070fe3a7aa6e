//! Reading values in the D-Bus wire format.
//!
//! The bytes come from outside and are not trusted: whatever they are, reading
//! them gives a value or an error.

use crate::dbus::bounds::{ends_empty, law_read_within};
use crate::dbus::marshal::pad;
use crate::dbus::signature::{
    alignment, alignment_at, basic, fields_len, is_basic, lemma_fields_len_bounds,
    lemma_type_len_bounds, scan, type_len,
};
use crate::dbus::value::{entry_models, lemma_model_containers, models, Value, ValueView};
use crate::error::{protocol, Error, ErrorView};
use crate::text::{
    chars_of, decimal, decimal_of, left, string_of, text_from_utf8, utf8_complaint,
};
use vstd::prelude::*;
use vstd::slice::slice_subrange;
use vstd::string::*;
use vstd::utf8::*;

verus! {

/// What one reading operation does: how far it moves the position, and what it
/// returns.
pub struct Step<T> {
    pub used: nat,
    pub out: Result<T, ErrorView>,
}

/// The number whose bytes, the lowest first, are `b`.
pub open spec fn le_value(b: Seq<u8>) -> nat
    decreases b.len(),
{
    if b.len() == 0 {
        0
    } else {
        b[0] as nat + 256 * le_value(b.drop_first())
    }
}

/// The number whose bytes, in the given byte order, are `b`.
pub open spec fn number_value(b: Seq<u8>, le: bool) -> nat {
    if le {
        le_value(b)
    } else {
        le_value(b.reverse())
    }
}

/// How far aligning to `n` moves the position. A position cannot be moved past
/// the largest one.
pub open spec fn gap(pos: nat, n: nat) -> nat {
    if pos + pad(pos, n) <= usize::MAX {
        pad(pos, n)
    } else {
        (usize::MAX - pos) as nat
    }
}

/// Too few bytes are left.
#[verifier::opaque]
pub open spec fn short(need: nat, have: nat) -> ErrorView {
    ErrorView::Protocol(
        "数据不足：需要 "@ + decimal(need) + " 字节，只剩 "@ + decimal(have) + " 字节"@,
    )
}

/// Reading a number of `n` bytes.
pub open spec fn number_step(b: Seq<u8>, le: bool, pos: nat, n: nat) -> Step<nat> {
    let p = pos + gap(pos, n);
    if p + n <= b.len() {
        Step {
            used: gap(pos, n) + n,
            out: Ok(number_value(b.subrange(p as int, (p + n) as int), le)),
        }
    } else {
        Step { used: gap(pos, n), out: Err(short(n, left(b.len(), p))) }
    }
}

/// Reading `n` bytes of text and the zero byte behind them.
pub open spec fn text_step(b: Seq<u8>, pos: nat, n: nat, complaint: Seq<char>) -> Step<Seq<char>> {
    let bytes = b.subrange(pos as int, (pos + n) as int);
    if pos + n + 1 > b.len() {
        Step { used: 0, out: Err(short(n + 1, left(b.len(), pos))) }
    } else if valid_utf8(bytes) {
        Step { used: n + 1, out: Ok(decode_utf8(bytes)) }
    } else {
        Step { used: 0, out: Err(ErrorView::Protocol(complaint + utf8_complaint(bytes))) }
    }
}

/// Doing `then` behind what has been used.
pub open spec fn moved<T>(used: nat, then: Step<T>) -> Step<T> {
    Step { used: used + then.used, out: then.out }
}

/// Reading a string.
pub open spec fn string_step(b: Seq<u8>, le: bool, pos: nat) -> Step<Seq<char>> {
    let n = number_step(b, le, pos, 4);
    match n.out {
        Err(e) => Step { used: n.used, out: Err(e) },
        Ok(len) => moved(n.used, text_step(b, pos + n.used, len, "字符串不是合法 UTF-8: "@)),
    }
}

/// Reading a signature.
pub open spec fn signature_step(b: Seq<u8>, pos: nat) -> Step<Seq<char>> {
    if pos < b.len() {
        moved(1, text_step(b, pos + 1, b[pos as int] as nat, "签名不是合法 UTF-8: "@))
    } else {
        Step { used: 0, out: Err(short(1, 0)) }
    }
}

/// What a value is made of the number that was read for it.
pub open spec fn number_made(n: Step<nat>, c: char) -> Step<ValueView> {
    Step {
        used: n.used,
        out: match n.out {
            Err(e) => Err(e),
            Ok(x) => Ok(
                if c == 'y' {
                    ValueView::Byte(x as u8)
                } else if c == 'b' {
                    ValueView::Bool(x != 0)
                } else if c == 'n' {
                    ValueView::Int16(x as u16 as i16)
                } else if c == 'q' {
                    ValueView::Uint16(x as u16)
                } else if c == 'i' {
                    ValueView::Int32(x as u32 as i32)
                } else if c == 'u' {
                    ValueView::Uint32(x as u32)
                } else if c == 'x' {
                    ValueView::Int64(x as u64 as i64)
                } else if c == 't' {
                    ValueView::Uint64(x as u64)
                } else {
                    ValueView::Double(x as u64)
                },
            ),
        },
    }
}

/// What a value is made of the text that was read for it.
pub open spec fn text_made(t: Step<Seq<char>>, c: char) -> Step<ValueView> {
    Step {
        used: t.used,
        out: match t.out {
            Err(e) => Err(e),
            Ok(x) => Ok(
                if c == 's' {
                    ValueView::String(x)
                } else if c == 'o' {
                    ValueView::ObjectPath(x)
                } else {
                    ValueView::Signature(x)
                },
            ),
        },
    }
}

/// How many bytes a number of the type `c` takes.
pub open spec fn number_size(c: char) -> nat {
    if c == 'y' {
        1
    } else if c == 'n' || c == 'q' {
        2
    } else if c == 'b' || c == 'i' || c == 'u' {
        4
    } else {
        8
    }
}

/// The types that are numbers.
pub open spec fn numeric(c: char) -> bool {
    c == 'y' || c == 'b' || c == 'n' || c == 'q' || c == 'i' || c == 'u' || c == 'x' || c == 't'
        || c == 'd'
}

/// The types whose values hold no other values: numbers and texts.
pub open spec fn plain(c: char) -> bool {
    numeric(c) || c == 's' || c == 'o' || c == 'g'
}

/// Reading a number or a text of the type `c`.
#[verifier::opaque]
pub open spec fn plain_step(b: Seq<u8>, le: bool, pos: nat, c: char) -> Step<ValueView> {
    if numeric(c) {
        number_made(number_step(b, le, pos, number_size(c)), c)
    } else if c == 'g' {
        text_made(signature_step(b, pos), c)
    } else {
        text_made(string_step(b, le, pos), c)
    }
}

pub open spec fn unsupported(c: char) -> ErrorView {
    ErrorView::Protocol("不支持的类型 '"@ + seq![c] + "'"@)
}

pub open spec fn array_mismatch() -> ErrorView {
    ErrorView::Protocol("数组元素长度与声明不符"@)
}

pub open spec fn dict_mismatch() -> ErrorView {
    ErrorView::Protocol("字典条目长度与声明不符"@)
}

/// Reading a value of the complete type that starts at `s[i]`.
pub open spec fn value_step(b: Seq<u8>, le: bool, pos: nat, s: Seq<char>, i: nat) -> Step<ValueView>
    decreases left(b.len(), pos), left(s.len(), i), 1nat,
{
    if i >= s.len() {
        Step { used: 0, out: Err(unsupported('\0')) }
    } else if plain(s[i as int]) {
        plain_step(b, le, pos, s[i as int])
    } else if s[i as int] == 'v' {
        variant_step(b, le, pos)
    } else if s[i as int] == '(' {
        struct_step(b, le, pos, s, i)
    } else if s[i as int] == 'a' {
        if i + 1 < s.len() && s[(i + 1) as int] == '{' {
            dict_step(b, le, pos, s, i)
        } else {
            array_step(b, le, pos, s, i)
        }
    } else {
        Step { used: 0, out: Err(unsupported(s[i as int])) }
    }
}

/// Reading a variant.
pub open spec fn variant_step(b: Seq<u8>, le: bool, pos: nat) -> Step<ValueView>
    decreases left(b.len(), pos), 0nat, 0nat,
{
    let t = signature_step(b, pos);
    match t.out {
        Err(e) => Step { used: t.used, out: Err(e) },
        Ok(inner) => match type_len(inner, 0) {
            Err(e) => Step { used: t.used, out: Err(e) },
            Ok(n) => {
                let v = value_step(b, le, pos + t.used, inner, 0);
                Step {
                    used: t.used + v.used,
                    out: match v.out {
                        Err(e) => Err(e),
                        Ok(x) => Ok(ValueView::Variant(Box::new(x))),
                    },
                }
            },
        },
    }
}

/// Reading a structure.
pub open spec fn struct_step(b: Seq<u8>, le: bool, pos: nat, s: Seq<char>, i: nat) -> Step<
    ValueView,
>
    decreases left(b.len(), pos), left(s.len(), i), 0nat,
{
    if i >= s.len() {
        Step { used: 0, out: Err(unsupported('\0')) }
    } else {
        let g = gap(pos, 8);
        let f = fields_step(b, le, pos + g, s, i + 1);
        Step {
            used: g + f.used,
            out: match f.out {
                Err(e) => Err(e),
                Ok(items) => Ok(ValueView::Struct(items)),
            },
        }
    }
}

/// Reading an array.
pub open spec fn array_step(b: Seq<u8>, le: bool, pos: nat, s: Seq<char>, i: nat) -> Step<ValueView>
    decreases left(b.len(), pos), left(s.len(), i), 0nat,
{
    let n = number_step(b, le, pos, 4);
    let p = pos + n.used;
    match n.out {
        Err(e) => Step { used: n.used, out: Err(e) },
        Ok(len) => {
            let elem = s.subrange((i + 1) as int, (i + 1 + type_len(s, i + 1)->Ok_0) as int);
            let g = gap(p, alignment(elem));
            if p + g + len > b.len() {
                Step { used: n.used + g, out: Err(ErrorView::Protocol("数组长度超出缓冲区"@)) }
            } else {
                let f = items_step(b, le, p + g, p + g + len, s, i + 1);
                Step {
                    used: n.used + g + f.used,
                    out: match f.out {
                        Err(e) => Err(e),
                        Ok(items) => Ok(ValueView::Array(elem, items)),
                    },
                }
            }
        },
    }
}

/// Reading a dictionary.
pub open spec fn dict_step(b: Seq<u8>, le: bool, pos: nat, s: Seq<char>, i: nat) -> Step<ValueView>
    decreases left(b.len(), pos), left(s.len(), i), 0nat,
{
    let n = number_step(b, le, pos, 4);
    let p = pos + n.used;
    match n.out {
        Err(e) => Step { used: n.used, out: Err(e) },
        Ok(len) => {
            let j = i + 2 + type_len(s, i + 2)->Ok_0;
            let key = s.subrange((i + 2) as int, j as int);
            let val = s.subrange(j as int, (j + type_len(s, j)->Ok_0) as int);
            let g = gap(p, 8);
            if !basic(key) {
                Step {
                    used: n.used,
                    out: Err(ErrorView::Protocol("字典键必须是基本类型: "@ + key)),
                }
            } else if p + g + len > b.len() {
                Step { used: n.used + g, out: Err(ErrorView::Protocol("字典长度超出缓冲区"@)) }
            } else {
                let f = entries_step(b, le, p + g, p + g + len, s, i + 2, j);
                Step {
                    used: n.used + g + f.used,
                    out: match f.out {
                        Err(e) => Err(e),
                        Ok(entries) => Ok(ValueView::Dict(key, val, entries)),
                    },
                }
            }
        },
    }
}

/// Reading the fields of a structure, from the type at `s[i]` up to the `)`.
pub open spec fn fields_step(
    b: Seq<u8>,
    le: bool,
    pos: nat,
    s: Seq<char>,
    i: nat,
) -> Step<Seq<ValueView>>
    decreases left(b.len(), pos), left(s.len(), i), 2nat,
{
    if i >= s.len() || s[i as int] == ')' {
        Step { used: 0, out: Ok(seq![]) }
    } else {
        let v = value_step(b, le, pos, s, i);
        let n = type_len(s, i)->Ok_0;
        match v.out {
            Err(e) => Step { used: v.used, out: Err(e) },
            Ok(x) => if n == 0 {
                Step { used: v.used, out: Ok(seq![x]) }
            } else {
                let f = fields_step(b, le, pos + v.used, s, i + n);
                Step {
                    used: v.used + f.used,
                    out: match f.out {
                        Err(e) => Err(e),
                        Ok(rest) => Ok(seq![x] + rest),
                    },
                }
            },
        }
    }
}

/// Reading the elements of an array, of the type at `s[i]`, up to position `end`.
/// An element that takes no bytes cannot be part of an array with a length.
pub open spec fn items_step(
    b: Seq<u8>,
    le: bool,
    pos: nat,
    end: nat,
    s: Seq<char>,
    i: nat,
) -> Step<Seq<ValueView>>
    decreases left(b.len(), pos), left(s.len(), i), 2nat,
{
    if pos >= end || end > b.len() {
        Step {
            used: 0,
            out: if pos == end {
                Ok(seq![])
            } else {
                Err(array_mismatch())
            },
        }
    } else {
        let v = value_step(b, le, pos, s, i);
        match v.out {
            Err(e) => Step { used: v.used, out: Err(e) },
            Ok(x) => if v.used == 0 {
                Step { used: 0, out: Err(array_mismatch()) }
            } else {
                let f = items_step(b, le, pos + v.used, end, s, i);
                Step {
                    used: v.used + f.used,
                    out: match f.out {
                        Err(e) => Err(e),
                        Ok(rest) => Ok(seq![x] + rest),
                    },
                }
            },
        }
    }
}

/// Reading the entries of a dictionary, with keys of the type at `s[i]` and values
/// of the type at `s[j]`, up to position `end`.
pub open spec fn entries_step(
    b: Seq<u8>,
    le: bool,
    pos: nat,
    end: nat,
    s: Seq<char>,
    i: nat,
    j: nat,
) -> Step<Seq<(ValueView, ValueView)>>
    decreases left(b.len(), pos), left(s.len(), i) + left(s.len(), j), 3nat,
{
    if pos >= end || end > b.len() {
        Step {
            used: 0,
            out: if pos == end {
                Ok(seq![])
            } else {
                Err(dict_mismatch())
            },
        }
    } else {
        let v = entry_step(b, le, pos, s, i, j);
        match v.out {
            Err(e) => Step { used: v.used, out: Err(e) },
            Ok(x) => if v.used == 0 {
                Step { used: 0, out: Err(dict_mismatch()) }
            } else {
                let f = entries_step(b, le, pos + v.used, end, s, i, j);
                Step {
                    used: v.used + f.used,
                    out: match f.out {
                        Err(e) => Err(e),
                        Ok(rest) => Ok(seq![x] + rest),
                    },
                }
            },
        }
    }
}

/// Reading one entry of a dictionary.
pub open spec fn entry_step(
    b: Seq<u8>,
    le: bool,
    pos: nat,
    s: Seq<char>,
    i: nat,
    j: nat,
) -> Step<(ValueView, ValueView)>
    decreases left(b.len(), pos), left(s.len(), i) + left(s.len(), j), 2nat,
{
    let g = gap(pos, 8);
    let k = value_step(b, le, pos + g, s, i);
    match k.out {
        Err(e) => Step { used: g + k.used, out: Err(e) },
        Ok(x) => {
            let v = value_step(b, le, pos + g + k.used, s, j);
            Step {
                used: g + k.used + v.used,
                out: match v.out {
                    Err(e) => Err(e),
                    Ok(y) => Ok((x, y)),
                },
            }
        },
    }
}

/// Reading a value of the complete type that a signature starts with.
pub open spec fn read_step(b: Seq<u8>, le: bool, pos: nat, sig: Seq<char>) -> Step<ValueView> {
    match type_len(sig, 0) {
        Err(e) => Step { used: 0, out: Err(e) },
        Ok(_) => value_step(b, le, pos, sig, 0),
    }
}

/// 256 to the power of `n`.
pub open spec fn pow256(n: nat) -> nat
    decreases n,
{
    if n == 0 {
        1
    } else {
        256 * pow256((n - 1) as nat)
    }
}

proof fn lemma_le_value_bound(b: Seq<u8>)
    ensures
        le_value(b) < pow256(b.len()),
    decreases b.len(),
{
    if b.len() > 0 {
        lemma_le_value_bound(b.drop_first());
    }
}

proof fn lemma_pow256_monotonic(m: nat, n: nat)
    requires
        m <= n,
    ensures
        0 < pow256(m) <= pow256(n),
    decreases n,
{
    if m < n {
        lemma_pow256_monotonic(m, (n - 1) as nat);
    } else if m > 0 {
        lemma_pow256_monotonic((m - 1) as nat, (m - 1) as nat);
    }
}

/// The number whose bytes, in the given byte order, are `b`.
fn number_from(b: &[u8], le: bool) -> (r: u64)
    requires
        b@.len() <= 8,
    ensures
        r == number_value(b@, le),
        r < pow256(b@.len()),
{
    let ghost low = if le {
        b@
    } else {
        b@.reverse()
    };
    let n: usize = b.len();
    let mut acc: u64 = 0;
    let mut i: usize = n;
    assert(low.skip(n as int) =~= Seq::<u8>::empty());
    while i > 0
        invariant
            i <= n,
            n == b@.len(),
            n <= 8,
            low == if le {
                b@
            } else {
                b@.reverse()
            },
            acc == le_value(low.skip(i as int)),
        decreases i,
    {
        i -= 1;
        let d: u8 = if le { b[i] } else { b[n - 1 - i] };
        proof {
            assert(low.skip(i as int).drop_first() =~= low.skip(i + 1));
            assert(low.skip(i as int)[0] == d);
            lemma_le_value_bound(low.skip(i as int));
            lemma_pow256_monotonic((n - i) as nat, 8);
            reveal_with_fuel(pow256, 9);
        }
        acc = d as u64 + 256 * acc;
    }
    proof {
        assert(low.skip(0) =~= low);
        lemma_le_value_bound(low);
    }
    acc
}

/// A position in a sequence of bytes that moves as values are read.
pub struct Reader<'a> {
    buf: &'a [u8],
    pos: usize,
    le: bool,
}

impl<'a> Reader<'a> {
    /// All the bytes, read or not.
    pub closed spec fn data(&self) -> Seq<u8> {
        self.buf@
    }

    /// Where the next byte is read.
    pub closed spec fn position(&self) -> nat {
        self.pos as nat
    }

    /// Whether numbers are read with the lowest byte first.
    pub closed spec fn little(&self) -> bool {
        self.le
    }

    /// `r` is `self`, moved on by `used` bytes.
    pub open spec fn moved_by(&self, used: nat, r: &Reader) -> bool {
        &&& r.data() == self.data()
        &&& r.little() == self.little()
        &&& r.position() == self.position() + used
    }

    /// A reader at the start of `buf`.
    pub fn new(buf: &'a [u8], le: bool) -> (r: Self)
        ensures
            r.data() == buf@,
            r.little() == le,
            r.position() == 0,
    {
        Reader { buf, pos: 0, le }
    }

    /// Where the next byte is read.
    pub fn pos(&self) -> (r: usize)
        ensures
            r == self.position(),
    {
        self.pos
    }

    /// Moves to the given position, which may lie behind the last byte.
    pub fn set_pos(&mut self, pos: usize)
        ensures
            final(self).position() == pos,
            final(self).data() == old(self).data(),
            final(self).little() == old(self).little(),
    {
        self.pos = pos;
    }

    /// How many bytes have not been read.
    pub fn remaining(&self) -> (r: usize)
        ensures
            r == left(self.data().len(), self.position()),
    {
        if self.pos < self.buf.len() {
            self.buf.len() - self.pos
        } else {
            0
        }
    }

    /// Moves to the next multiple of `n`.
    pub fn align(&mut self, n: usize)
        requires
            n > 0,
        ensures
            old(self).moved_by(gap(old(self).position(), n as nat), final(self)),
    {
        let used: usize = self.pos % n;
        let count: usize = if used == 0 { 0 } else { n - used };
        proof {
            let a = used as int;
            assert((n - a) % (n as int) == count) by (nonlinear_arith)
                requires
                    0 <= a < n,
                    count == if a == 0 { 0int } else { n - a },
            ;
        }
        if count <= usize::MAX - self.pos {
            self.pos += count;
        } else {
            self.pos = usize::MAX;
        }
    }

    fn shortage(&self, need: u64) -> (r: Error)
        ensures
            r@ == short(need as nat, left(self.data().len(), self.position())),
    {
        proof {
            reveal(short);
        }
        let mut m = "数据不足：需要 ".to_string();
        m.append(&decimal_of(need));
        m.append(" 字节，只剩 ");
        m.append(&decimal_of(self.remaining() as u64));
        m.append(" 字节");
        Error::Protocol(m)
    }

    /// Whether fewer than `n` bytes lie between the position and the end.
    fn is_beyond(&self, n: u32) -> (r: bool)
        ensures
            r == (self.position() + n > self.data().len()),
            self.data().len() <= usize::MAX,
    {
        self.pos > self.buf.len() || n as u64 > (self.buf.len() - self.pos) as u64
    }

    /// Reads a number of `n` bytes, aligned to `n`.
    fn number(&mut self, n: usize) -> (r: Result<u64, Error>)
        requires
            0 < n <= 8,
        ensures
            ({
                let s = number_step(old(self).data(), old(self).little(), old(self).position(), n as nat);
                &&& old(self).moved_by(s.used, final(self))
                &&& match r {
                    Ok(v) => s.out == Ok::<nat, ErrorView>(v as nat) && v < pow256(n as nat),
                    Err(e) => s.out == Err::<nat, ErrorView>(e@),
                }
            }),
    {
        self.align(n);
        let total: usize = self.buf.len();
        if self.remaining() < n {
            return Err(self.shortage(n as u64));
        }
        assert(self.pos + n <= total);
        let b = slice_subrange(self.buf, self.pos, self.pos + n);
        self.pos += n;
        Ok(number_from(b, self.le))
    }

    /// Reads one byte.
    pub fn u8(&mut self) -> (r: Result<u8, Error>)
        ensures
            ({
                let s = number_step(old(self).data(), old(self).little(), old(self).position(), 1);
                &&& old(self).moved_by(s.used, final(self))
                &&& match r {
                    Ok(v) => s.out == Ok::<nat, ErrorView>(v as nat),
                    Err(e) => s.out == Err::<nat, ErrorView>(e@),
                }
            }),
    {
        proof {
            reveal_with_fuel(pow256, 2);
        }
        let v: u64 = self.number(1)?;
        Ok(v as u8)
    }

    /// Reads a 16-bit number.
    pub fn u16(&mut self) -> (r: Result<u16, Error>)
        ensures
            ({
                let s = number_step(old(self).data(), old(self).little(), old(self).position(), 2);
                &&& old(self).moved_by(s.used, final(self))
                &&& match r {
                    Ok(v) => s.out == Ok::<nat, ErrorView>(v as nat),
                    Err(e) => s.out == Err::<nat, ErrorView>(e@),
                }
            }),
    {
        proof {
            reveal_with_fuel(pow256, 3);
        }
        let v: u64 = self.number(2)?;
        Ok(v as u16)
    }

    /// Reads a signed 16-bit number.
    pub fn i16(&mut self) -> (r: Result<i16, Error>)
        ensures
            ({
                let s = number_step(old(self).data(), old(self).little(), old(self).position(), 2);
                &&& old(self).moved_by(s.used, final(self))
                &&& match r {
                    Ok(v) => s.out is Ok && v == s.out->Ok_0 as u16 as i16,
                    Err(e) => s.out == Err::<nat, ErrorView>(e@),
                }
            }),
    {
        let v: u16 = self.u16()?;
        Ok(v as i16)
    }

    /// Reads a 32-bit number.
    pub fn u32(&mut self) -> (r: Result<u32, Error>)
        ensures
            ({
                let s = number_step(old(self).data(), old(self).little(), old(self).position(), 4);
                &&& old(self).moved_by(s.used, final(self))
                &&& match r {
                    Ok(v) => s.out == Ok::<nat, ErrorView>(v as nat),
                    Err(e) => s.out == Err::<nat, ErrorView>(e@),
                }
            }),
    {
        proof {
            reveal_with_fuel(pow256, 5);
        }
        let v: u64 = self.number(4)?;
        Ok(v as u32)
    }

    /// Reads a signed 32-bit number.
    pub fn i32(&mut self) -> (r: Result<i32, Error>)
        ensures
            ({
                let s = number_step(old(self).data(), old(self).little(), old(self).position(), 4);
                &&& old(self).moved_by(s.used, final(self))
                &&& match r {
                    Ok(v) => s.out is Ok && v == s.out->Ok_0 as u32 as i32,
                    Err(e) => s.out == Err::<nat, ErrorView>(e@),
                }
            }),
    {
        let v: u32 = self.u32()?;
        Ok(v as i32)
    }

    /// Reads a 64-bit number.
    pub fn u64(&mut self) -> (r: Result<u64, Error>)
        ensures
            ({
                let s = number_step(old(self).data(), old(self).little(), old(self).position(), 8);
                &&& old(self).moved_by(s.used, final(self))
                &&& match r {
                    Ok(v) => s.out == Ok::<nat, ErrorView>(v as nat),
                    Err(e) => s.out == Err::<nat, ErrorView>(e@),
                }
            }),
    {
        self.number(8)
    }

    /// Reads a signed 64-bit number.
    pub fn i64(&mut self) -> (r: Result<i64, Error>)
        ensures
            ({
                let s = number_step(old(self).data(), old(self).little(), old(self).position(), 8);
                &&& old(self).moved_by(s.used, final(self))
                &&& match r {
                    Ok(v) => s.out is Ok && v == s.out->Ok_0 as u64 as i64,
                    Err(e) => s.out == Err::<nat, ErrorView>(e@),
                }
            }),
    {
        let v: u64 = self.u64()?;
        Ok(v as i64)
    }

    /// Reads a floating-point number, as the bits of its IEEE 754 form.
    pub fn double(&mut self) -> (r: Result<u64, Error>)
        ensures
            ({
                let s = number_step(old(self).data(), old(self).little(), old(self).position(), 8);
                &&& old(self).moved_by(s.used, final(self))
                &&& match r {
                    Ok(v) => s.out == Ok::<nat, ErrorView>(v as nat),
                    Err(e) => s.out == Err::<nat, ErrorView>(e@),
                }
            }),
    {
        self.u64()
    }

    /// Reads `n` bytes of text and the zero byte behind them.
    fn text(&mut self, n: u32, complaint: &str) -> (r: Result<String, Error>)
        ensures
            ({
                let s = text_step(old(self).data(), old(self).position(), n as nat, complaint@);
                &&& old(self).moved_by(s.used, final(self))
                &&& match r {
                    Ok(v) => s.out == Ok::<Seq<char>, ErrorView>(v@),
                    Err(e) => s.out == Err::<Seq<char>, ErrorView>(e@),
                }
            }),
    {
        let total: usize = self.buf.len();
        if self.remaining() as u64 <= n as u64 {
            return Err(self.shortage(n as u64 + 1));
        }
        let len: usize = n as usize;
        assert(self.pos + len < total);
        let bytes = slice_subrange(self.buf, self.pos, self.pos + len);
        match text_from_utf8(bytes) {
            Ok(s) => {
                self.pos += len + 1;
                Ok(s)
            },
            Err(m) => Err(Error::Protocol(complaint.to_string().concat(&m))),
        }
    }

    /// Reads a string or an object path.
    pub fn string(&mut self) -> (r: Result<String, Error>)
        ensures
            ({
                let s = string_step(old(self).data(), old(self).little(), old(self).position());
                &&& old(self).moved_by(s.used, final(self))
                &&& match r {
                    Ok(v) => s.out == Ok::<Seq<char>, ErrorView>(v@),
                    Err(e) => s.out == Err::<Seq<char>, ErrorView>(e@),
                }
            }),
    {
        let n: u32 = self.u32()?;
        self.text(n, "字符串不是合法 UTF-8: ")
    }

    /// Reads a signature.
    pub fn signature(&mut self) -> (r: Result<String, Error>)
        ensures
            ({
                let s = signature_step(old(self).data(), old(self).position());
                &&& old(self).moved_by(s.used, final(self))
                &&& match r {
                    Ok(v) => s.out == Ok::<Seq<char>, ErrorView>(v@),
                    Err(e) => s.out == Err::<Seq<char>, ErrorView>(e@),
                }
            }),
    {
        proof {
            let b = self.data();
            let p = self.position();
            if p < b.len() {
                let one = b.subrange(p as int, (p + 1) as int);
                assert(one.reverse() =~= one);
                reveal_with_fuel(le_value, 2);
            }
        }
        let n: u8 = self.u8()?;
        self.text(n as u32, "签名不是合法 UTF-8: ")
    }

    /// Reads a value of the complete type that `sig` starts with.
    pub fn value(&mut self, sig: &str) -> (r: Result<Value, Error>)
        ensures
            ({
                let s = read_step(old(self).data(), old(self).little(), old(self).position(), sig@);
                &&& old(self).moved_by(s.used, final(self))
                &&& match r {
                    Ok(v) => s.out == Ok::<ValueView, ErrorView>(v@),
                    Err(e) => s.out == Err::<ValueView, ErrorView>(e@),
                }
            }),
            match r {
                Ok(v) => !ends_empty(v@) ==> final(self).position() <= final(self).data().len(),
                Err(e) => e@ is Protocol,
            },
    {
        proof {
            law_read_within(self.data(), self.little(), self.position(), sig@);
        }
        let cs = chars_of(sig);
        let _end: usize = scan(&cs, 0)?;
        self.value_at(&cs, 0)
    }

    /// Reads a value of the complete type that starts at `s[i]`.
    #[verifier::rlimit(40)]
    #[verifier::spinoff_prover]
    pub(crate) fn value_at(&mut self, s: &[char], i: usize) -> (r: Result<Value, Error>)
        requires
            type_len(s@, i as nat) is Ok,
        ensures
            ({
                let t = value_step(
                    old(self).data(),
                    old(self).little(),
                    old(self).position(),
                    s@,
                    i as nat,
                );
                &&& old(self).moved_by(t.used, final(self))
                &&& match r {
                    Ok(v) => t.out == Ok::<ValueView, ErrorView>(v@),
                    Err(e) => t.out == Err::<ValueView, ErrorView>(e@),
                }
            }),
        decreases
                left(old(self).data().len(), old(self).position()),
                left(s@.len(), i as nat),
                1nat,
    {
        proof {
            lemma_type_len_bounds(s@, i as nat);
        }
        match s[i] {
            'v' => self.variant_here(),
            '(' => self.struct_at(s, i),
            'a' => if i + 1 < s.len() && s[i + 1] == '{' {
                self.dict_at(s, i)
            } else {
                self.array_at(s, i)
            },
            c => self.plain(c),
        }
    }

    /// Reads a variant.
    #[verifier::rlimit(40)]
    #[verifier::spinoff_prover]
    fn variant_here(&mut self) -> (r: Result<Value, Error>)
        ensures
            ({
                let t = variant_step(old(self).data(), old(self).little(), old(self).position());
                &&& old(self).moved_by(t.used, final(self))
                &&& match r {
                    Ok(v) => t.out == Ok::<ValueView, ErrorView>(v@),
                    Err(e) => t.out == Err::<ValueView, ErrorView>(e@),
                }
            }),
        decreases left(old(self).data().len(), old(self).position()), 0nat, 0nat,
    {
        let inner_sig = self.signature()?;
        let cs = chars_of(&inner_sig);
        let _end: usize = scan(&cs, 0)?;
        let inner = self.value_at(&cs, 0)?;
        let r = Value::Variant(Box::new(inner));
        proof {
            lemma_model_containers(r);
        }
        Ok(r)
    }

    /// Reads a structure whose type starts at `s[i]`.
    #[verifier::rlimit(40)]
    #[verifier::spinoff_prover]
    fn struct_at(&mut self, s: &[char], i: usize) -> (r: Result<Value, Error>)
        requires
            type_len(s@, i as nat) is Ok,
            i < s@.len(),
            s@[i as int] == '(',
        ensures
            ({
                let t = struct_step(
                    old(self).data(),
                    old(self).little(),
                    old(self).position(),
                    s@,
                    i as nat,
                );
                &&& old(self).moved_by(t.used, final(self))
                &&& match r {
                    Ok(v) => t.out == Ok::<ValueView, ErrorView>(v@),
                    Err(e) => t.out == Err::<ValueView, ErrorView>(e@),
                }
            }),
        decreases
                left(old(self).data().len(), old(self).position()),
                left(s@.len(), i as nat),
                0nat,
    {
        self.align(8);
        let total: usize = s.len();
        let items = self.fields_at(s, i + 1)?;
        let r = Value::Struct(items);
        proof {
            lemma_model_containers(r);
        }
        Ok(r)
    }

    /// Reads a number or a text.
    fn plain(&mut self, c: char) -> (r: Result<Value, Error>)
        requires
            plain(c),
        ensures
            ({
                let t = plain_step(old(self).data(), old(self).little(), old(self).position(), c);
                &&& old(self).moved_by(t.used, final(self))
                &&& match r {
                    Ok(v) => t.out == Ok::<ValueView, ErrorView>(v@),
                    Err(e) => t.out == Err::<ValueView, ErrorView>(e@),
                }
            }),
    {
        proof {
            reveal(plain_step);
        }
        match c {
            'y' => Ok(Value::Byte(self.u8()?)),
            'b' => {
                let v: u32 = self.u32()?;
                Ok(Value::Bool(v != 0))
            },
            'n' => Ok(Value::Int16(self.i16()?)),
            'q' => Ok(Value::Uint16(self.u16()?)),
            'i' => Ok(Value::Int32(self.i32()?)),
            'u' => Ok(Value::Uint32(self.u32()?)),
            'x' => Ok(Value::Int64(self.i64()?)),
            't' => Ok(Value::Uint64(self.u64()?)),
            'd' => Ok(Value::Double(self.double()?)),
            's' => Ok(Value::String(self.string()?)),
            'o' => Ok(Value::ObjectPath(self.string()?)),
            _ => Ok(Value::Signature(self.signature()?)),
        }
    }

    /// Reads the fields of a structure whose first field type starts at `s[i]`.
    #[verifier::rlimit(40)]
    #[verifier::spinoff_prover]
    fn fields_at(&mut self, s: &[char], i: usize) -> (r: Result<Vec<Value>, Error>)
        requires
            fields_len(s@, i as nat) is Ok,
        ensures
            ({
                let t = fields_step(
                    old(self).data(),
                    old(self).little(),
                    old(self).position(),
                    s@,
                    i as nat,
                );
                &&& old(self).moved_by(t.used, final(self))
                &&& match r {
                    Ok(v) => t.out == Ok::<Seq<ValueView>, ErrorView>(models(v@)),
                    Err(e) => t.out == Err::<Seq<ValueView>, ErrorView>(e@),
                }
            }),
        decreases
                left(old(self).data().len(), old(self).position()),
                left(s@.len(), i as nat),
                2nat,
    {
        let ghost all = fields_step(self.data(), self.little(), self.position(), s@, i as nat);
        let mut out: Vec<Value> = Vec::new();
        let mut j: usize = i;
        proof {
            lemma_fields_len_bounds(s@, i as nat);
            if let Ok(rest) = all.out {
                assert(models(out@) + rest =~= rest);
            }
        }
        while s[j] != ')'
            invariant
                i <= j < s@.len(),
                fields_len(s@, j as nat) is Ok,
                all == fields_step(
                    old(self).data(),
                    old(self).little(),
                    old(self).position(),
                    s@,
                    i as nat,
                ),
                self.data() == old(self).data(),
                self.little() == old(self).little(),
                self.position() >= old(self).position(),
                ({
                    let t = fields_step(self.data(), self.little(), self.position(), s@, j as nat);
                    &&& all.used + old(self).position() == self.position() + t.used
                    &&& all.out == match t.out {
                        Ok(rest) => Ok(models(out@) + rest),
                        Err(e) => Err(e),
                    }
                }),
            decreases s@.len() - j,
        {
            let ghost t = fields_step(self.data(), self.little(), self.position(), s@, j as nat);
            let ghost before = out@;
            proof {
                lemma_type_len_bounds(s@, j as nat);
            }
            let end: usize = scan(s, j)?;
            let v = self.value_at(s, j)?;
            out.push(v);
            proof {
                lemma_fields_len_bounds(s@, end as nat);
                assert(models(out@) =~= models(before).push(v@));
                if let Ok(rest) = fields_step(
                    self.data(),
                    self.little(),
                    self.position(),
                    s@,
                    end as nat,
                ).out {
                    assert(models(before) + (seq![v@] + rest) =~= models(out@) + rest);
                }
            }
            j = end;
        }
        assert(models(out@) + Seq::<ValueView>::empty() =~= models(out@));
        Ok(out)
    }

    /// Reads an array whose type starts at `s[i]`.
    #[verifier::rlimit(40)]
    #[verifier::spinoff_prover]
    fn array_at(&mut self, s: &[char], i: usize) -> (r: Result<Value, Error>)
        requires
            type_len(s@, i as nat) is Ok,
            i < s@.len(),
            s@[i as int] == 'a',
            i + 1 >= s@.len() || s@[i + 1] != '{',
        ensures
            ({
                let t = array_step(
                    old(self).data(),
                    old(self).little(),
                    old(self).position(),
                    s@,
                    i as nat,
                );
                &&& old(self).moved_by(t.used, final(self))
                &&& match r {
                    Ok(v) => t.out == Ok::<ValueView, ErrorView>(v@),
                    Err(e) => t.out == Err::<ValueView, ErrorView>(e@),
                }
            }),
        decreases
                left(old(self).data().len(), old(self).position()),
                left(s@.len(), i as nat),
                0nat,
    {
        let len: u32 = self.u32()?;
        let total: usize = s.len();
        proof {
            lemma_type_len_bounds(s@, (i + 1) as nat);
        }
        let elem_end: usize = scan(s, i + 1)?;
        let ghost elem = s@.subrange(i + 1, elem_end as int);
        assert(alignment(elem) == alignment(s@.skip(i + 1)));
        let align: usize = alignment_at(s, i + 1);
        self.align(align);
        if self.is_beyond(len) {
            return Err(protocol("数组长度超出缓冲区"));
        }
        let items = self.items_until(self.pos + len as usize, s, i + 1)?;
        let r = Value::Array(string_of(s, i + 1, elem_end), items);
        proof {
            lemma_model_containers(r);
        }
        Ok(r)
    }

    /// Reads array elements of the type at `s[i]` up to position `end`.
    #[verifier::rlimit(40)]
    #[verifier::spinoff_prover]
    fn items_until(&mut self, end: usize, s: &[char], i: usize) -> (r: Result<Vec<Value>, Error>)
        requires
            type_len(s@, i as nat) is Ok,
            old(self).position() <= end <= old(self).data().len(),
        ensures
            ({
                let t = items_step(
                    old(self).data(),
                    old(self).little(),
                    old(self).position(),
                    end as nat,
                    s@,
                    i as nat,
                );
                &&& old(self).moved_by(t.used, final(self))
                &&& match r {
                    Ok(v) => t.out == Ok::<Seq<ValueView>, ErrorView>(models(v@)),
                    Err(e) => t.out == Err::<Seq<ValueView>, ErrorView>(e@),
                }
            }),
        decreases
                left(old(self).data().len(), old(self).position()),
                left(s@.len(), i as nat),
                2nat,
    {
        let ghost all = items_step(
            self.data(),
            self.little(),
            self.position(),
            end as nat,
            s@,
            i as nat,
        );
        let mut out: Vec<Value> = Vec::new();
        proof {
            if let Ok(rest) = all.out {
                assert(models(out@) + rest =~= rest);
            }
        }
        while self.pos < end
            invariant
                type_len(s@, i as nat) is Ok,
                end <= old(self).data().len(),
                all == items_step(
                    old(self).data(),
                    old(self).little(),
                    old(self).position(),
                    end as nat,
                    s@,
                    i as nat,
                ),
                self.data() == old(self).data(),
                self.little() == old(self).little(),
                self.position() >= old(self).position(),
                ({
                    let t = items_step(
                        self.data(),
                        self.little(),
                        self.position(),
                        end as nat,
                        s@,
                        i as nat,
                    );
                    &&& all.used + old(self).position() == self.position() + t.used
                    &&& all.out == match t.out {
                        Ok(rest) => Ok(models(out@) + rest),
                        Err(e) => Err(e),
                    }
                }),
            decreases left(self.data().len(), self.position()),
        {
            let ghost before = out@;
            let start: usize = self.pos;
            let v = self.value_at(s, i)?;
            if self.pos == start {
                return Err(protocol("数组元素长度与声明不符"));
            }
            out.push(v);
            proof {
                assert(models(out@) =~= models(before).push(v@));
                if let Ok(rest) = items_step(
                    self.data(),
                    self.little(),
                    self.position(),
                    end as nat,
                    s@,
                    i as nat,
                ).out {
                    assert(models(before) + (seq![v@] + rest) =~= models(out@) + rest);
                }
            }
        }
        if self.pos != end {
            return Err(protocol("数组元素长度与声明不符"));
        }
        assert(models(out@) + Seq::<ValueView>::empty() =~= models(out@));
        Ok(out)
    }

    /// Reads a dictionary whose type starts at `s[i]`.
    #[verifier::rlimit(40)]
    #[verifier::spinoff_prover]
    fn dict_at(&mut self, s: &[char], i: usize) -> (r: Result<Value, Error>)
        requires
            type_len(s@, i as nat) is Ok,
            i + 1 < s@.len(),
            s@[i as int] == 'a',
            s@[i + 1] == '{',
        ensures
            ({
                let t = dict_step(
                    old(self).data(),
                    old(self).little(),
                    old(self).position(),
                    s@,
                    i as nat,
                );
                &&& old(self).moved_by(t.used, final(self))
                &&& match r {
                    Ok(v) => t.out == Ok::<ValueView, ErrorView>(v@),
                    Err(e) => t.out == Err::<ValueView, ErrorView>(e@),
                }
            }),
        decreases
                left(old(self).data().len(), old(self).position()),
                left(s@.len(), i as nat),
                0nat,
    {
        let len: u32 = self.u32()?;
        let total: usize = s.len();
        let key_end: usize = scan(s, i + 2)?;
        let val_end: usize = scan(s, key_end)?;
        let key = string_of(s, i + 2, key_end);
        if key_end != i + 3 || !is_basic(&key) {
            return Err(Error::Protocol("字典键必须是基本类型: ".to_string().concat(&key)));
        }
        self.align(8);
        if self.is_beyond(len) {
            return Err(protocol("字典长度超出缓冲区"));
        }
        let entries = self.entries_until(self.pos + len as usize, s, i + 2, key_end)?;
        let r = Value::Dict(key, string_of(s, key_end, val_end), entries);
        proof {
            lemma_model_containers(r);
        }
        Ok(r)
    }

    /// Reads one entry of a dictionary.
    #[verifier::rlimit(50)]
    #[verifier::spinoff_prover]
    fn entry_at(&mut self, s: &[char], i: usize, j: usize) -> (r: Result<(Value, Value), Error>)
        requires
            type_len(s@, i as nat) is Ok,
            type_len(s@, j as nat) is Ok,
        ensures
            ({
                let t = entry_step(
                    old(self).data(),
                    old(self).little(),
                    old(self).position(),
                    s@,
                    i as nat,
                    j as nat,
                );
                &&& old(self).moved_by(t.used, final(self))
                &&& match r {
                    Ok(v) => t.out == Ok::<(ValueView, ValueView), ErrorView>((v.0@, v.1@)),
                    Err(e) => t.out == Err::<(ValueView, ValueView), ErrorView>(e@),
                }
            }),
        decreases
                left(old(self).data().len(), old(self).position()),
                left(s@.len(), i as nat) + left(s@.len(), j as nat),
                2nat,
    {
        proof {
            lemma_type_len_bounds(s@, i as nat);
            lemma_type_len_bounds(s@, j as nat);
        }
        self.align(8);
        let k = self.value_at(s, i)?;
        let v = self.value_at(s, j)?;
        Ok((k, v))
    }

    /// Reads dictionary entries, with keys of the type at `s[i]` and values of the
    /// type at `s[j]`, up to position `end`.
    #[verifier::rlimit(40)]
    #[verifier::spinoff_prover]
    fn entries_until(&mut self, end: usize, s: &[char], i: usize, j: usize) -> (r: Result<
        Vec<(Value, Value)>,
        Error,
    >)
        requires
            type_len(s@, i as nat) is Ok,
            type_len(s@, j as nat) is Ok,
            old(self).position() <= end <= old(self).data().len(),
        ensures
            ({
                let t = entries_step(
                    old(self).data(),
                    old(self).little(),
                    old(self).position(),
                    end as nat,
                    s@,
                    i as nat,
                    j as nat,
                );
                &&& old(self).moved_by(t.used, final(self))
                &&& match r {
                    Ok(v) => t.out == Ok::<Seq<(ValueView, ValueView)>, ErrorView>(
                        entry_models(v@),
                    ),
                    Err(e) => t.out == Err::<Seq<(ValueView, ValueView)>, ErrorView>(e@),
                }
            }),
        decreases
                left(old(self).data().len(), old(self).position()),
                left(s@.len(), i as nat) + left(s@.len(), j as nat),
                3nat,
    {
        let ghost all = entries_step(
            self.data(),
            self.little(),
            self.position(),
            end as nat,
            s@,
            i as nat,
            j as nat,
        );
        let mut out: Vec<(Value, Value)> = Vec::new();
        proof {
            if let Ok(rest) = all.out {
                assert(entry_models(out@) + rest =~= rest);
            }
        }
        while self.pos < end
            invariant
                type_len(s@, i as nat) is Ok,
                type_len(s@, j as nat) is Ok,
                end <= old(self).data().len(),
                all == entries_step(
                    old(self).data(),
                    old(self).little(),
                    old(self).position(),
                    end as nat,
                    s@,
                    i as nat,
                    j as nat,
                ),
                self.data() == old(self).data(),
                self.little() == old(self).little(),
                self.position() >= old(self).position(),
                ({
                    let t = entries_step(
                        self.data(),
                        self.little(),
                        self.position(),
                        end as nat,
                        s@,
                        i as nat,
                        j as nat,
                    );
                    &&& all.used + old(self).position() == self.position() + t.used
                    &&& all.out == match t.out {
                        Ok(rest) => Ok(entry_models(out@) + rest),
                        Err(e) => Err(e),
                    }
                }),
            decreases left(self.data().len(), self.position()),
        {
            let ghost before = out@;
            let start: usize = self.pos;
            let kv = self.entry_at(s, i, j)?;
            if self.pos == start {
                return Err(protocol("字典条目长度与声明不符"));
            }
            out.push(kv);
            proof {
                assert(entry_models(out@) =~= entry_models(before).push((kv.0@, kv.1@)));
                if let Ok(rest) = entries_step(
                    self.data(),
                    self.little(),
                    self.position(),
                    end as nat,
                    s@,
                    i as nat,
                    j as nat,
                ).out {
                    assert(entry_models(before) + (seq![(kv.0@, kv.1@)] + rest) =~= entry_models(
                        out@,
                    ) + rest);
                }
            }
        }
        if self.pos != end {
            return Err(protocol("字典条目长度与声明不符"));
        }
        assert(entry_models(out@) + Seq::<(ValueView, ValueView)>::empty() =~= entry_models(out@));
        Ok(out)
    }
}

} // verus!
