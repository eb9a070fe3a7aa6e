//! Writing values in the D-Bus wire format.
//!
//! Each value is preceded by as many zero bytes as its alignment asks for,
//! counted from the start of the message part that it stands in. The length of
//! an array does not count the padding before its first element, and a
//! signature has a length of one byte in place of four.

use crate::dbus::signature::{alignment, alignment_of};
use crate::dbus::value::{entry_models, lemma_model_containers, models, sig_of, Value, ValueView};
use vstd::prelude::*;
use vstd::string::*;
use vstd::utf8::*;

verus! {

/// The `n` lowest bytes of `v`, the lowest first.
pub open spec fn le_bytes(v: nat, n: nat) -> Seq<u8>
    decreases n,
{
    if n == 0 {
        seq![]
    } else {
        seq![(v % 256) as u8] + le_bytes(v / 256, (n - 1) as nat)
    }
}

/// The `n` lowest bytes of `v`, in the given byte order.
pub open spec fn number_bytes(v: nat, n: nat, le: bool) -> Seq<u8> {
    if le {
        le_bytes(v, n)
    } else {
        le_bytes(v, n).reverse()
    }
}

/// How many bytes separate `pos` from the next multiple of `n`.
pub open spec fn pad(pos: nat, n: nat) -> nat {
    ((n - pos % n) % n as int) as nat
}

/// Zero bytes up to the next multiple of `n`.
pub open spec fn padding(pos: nat, n: nat) -> Seq<u8> {
    Seq::new(pad(pos, n), |i: int| 0u8)
}

/// A number of `n` bytes, aligned to its size, written at position `pos`.
#[verifier::opaque]
pub open spec fn number_encoding(v: nat, n: nat, le: bool, pos: nat) -> Seq<u8> {
    padding(pos, n) + number_bytes(v, n, le)
}

/// A string or an object path, written at position `pos`.
#[verifier::opaque]
pub open spec fn string_encoding(s: Seq<char>, le: bool, pos: nat) -> Seq<u8> {
    number_encoding(encode_utf8(s).len() as u32 as nat, 4, le, pos) + encode_utf8(s) + seq![0u8]
}

/// A signature.
#[verifier::opaque]
pub open spec fn signature_encoding(s: Seq<char>) -> Seq<u8> {
    seq![encode_utf8(s).len() as u8] + encode_utf8(s) + seq![0u8]
}

/// An array with the given body: the length of the body, then padding up to the
/// alignment of the elements, then the body, which starts at [`body_start`].
#[verifier::opaque]
pub open spec fn array_encoding(body: Seq<u8>, align: nat, le: bool, pos: nat) -> Seq<u8> {
    number_encoding(body.len() as u32 as nat, 4, le, pos) + padding(pos + pad(pos, 4) + 4, align)
        + body
}

/// Where the first element of an array written at `pos` stands.
pub open spec fn body_start(pos: nat, align: nat) -> nat {
    pos + pad(pos, 4) + 4 + pad(pos + pad(pos, 4) + 4, align)
}

/// The bytes of a value written at position `pos`.
pub open spec fn encoding(v: ValueView, le: bool, pos: nat) -> Seq<u8>
    decreases v, 0nat,
{
    match v {
        ValueView::Byte(x) => seq![x],
        ValueView::Bool(b) => number_encoding(if b { 1 } else { 0 }, 4, le, pos),
        ValueView::Int16(x) => number_encoding(x as u16 as nat, 2, le, pos),
        ValueView::Uint16(x) => number_encoding(x as nat, 2, le, pos),
        ValueView::Int32(x) => number_encoding(x as u32 as nat, 4, le, pos),
        ValueView::Uint32(x) => number_encoding(x as nat, 4, le, pos),
        ValueView::Int64(x) => number_encoding(x as u64 as nat, 8, le, pos),
        ValueView::Uint64(x) => number_encoding(x as nat, 8, le, pos),
        ValueView::Double(x) => number_encoding(x as nat, 8, le, pos),
        ValueView::String(s) => string_encoding(s, le, pos),
        ValueView::ObjectPath(s) => string_encoding(s, le, pos),
        ValueView::Signature(s) => signature_encoding(s),
        ValueView::Variant(b) => {
            let sig = signature_encoding(sig_of(*b));
            sig + encoding(*b, le, pos + sig.len())
        },
        ValueView::Struct(items) => padding(pos, 8) + encodings(items, le, pos + pad(pos, 8)),
        ValueView::Array(t, items) => array_encoding(
            encodings(items, le, body_start(pos, alignment(t))),
            alignment(t),
            le,
            pos,
        ),
        ValueView::Dict(_, _, entries) => array_encoding(
            entry_encodings(entries, le, body_start(pos, 8)),
            8,
            le,
            pos,
        ),
    }
}

/// The bytes of a list of values, the first of them written at position `pos`.
pub open spec fn encodings(items: Seq<ValueView>, le: bool, pos: nat) -> Seq<u8>
    decreases items, 0nat,
{
    if items.len() == 0 {
        seq![]
    } else {
        let first = encoding(items[0], le, pos);
        first + encodings(items.drop_first(), le, pos + first.len())
    }
}

/// The bytes of a dictionary entry, which is aligned like a structure.
pub open spec fn entry_encoding(entry: (ValueView, ValueView), le: bool, pos: nat) -> Seq<u8>
    decreases entry, 1nat,
{
    let p = pos + pad(pos, 8);
    let key = encoding(entry.0, le, p);
    padding(pos, 8) + key + encoding(entry.1, le, p + key.len())
}

/// The bytes of dictionary entries, the first of them written at position `pos`.
pub open spec fn entry_encodings(
    entries: Seq<(ValueView, ValueView)>,
    le: bool,
    pos: nat,
) -> Seq<u8>
    decreases entries, 0nat,
{
    if entries.len() == 0 {
        seq![]
    } else {
        let first = entry_encoding(entries[0], le, pos);
        first + entry_encodings(entries.drop_first(), le, pos + first.len())
    }
}

proof fn lemma_le_bytes_len(v: nat, n: nat)
    ensures
        le_bytes(v, n).len() == n,
    decreases n,
{
    if n > 0 {
        lemma_le_bytes_len(v / 256, (n - 1) as nat);
    }
}

/// A number takes as many bytes as asked for.
pub proof fn lemma_number_bytes_len(v: nat, n: nat, le: bool)
    ensures
        number_bytes(v, n, le).len() == n,
{
    lemma_le_bytes_len(v, n);
}

/// Every signature that is written as part of the value is short enough for its
/// length byte.
pub open spec fn signatures_fit(v: ValueView) -> bool
    decreases v,
{
    match v {
        ValueView::Signature(s) => encode_utf8(s).len() <= 255,
        ValueView::Variant(b) => encode_utf8(sig_of(*b)).len() <= 255 && signatures_fit(*b),
        ValueView::Struct(items) => forall|i: int|
            0 <= i < items.len() ==> signatures_fit(#[trigger] items[i]),
        ValueView::Array(_, items) => forall|i: int|
            0 <= i < items.len() ==> signatures_fit(#[trigger] items[i]),
        ValueView::Dict(_, _, entries) => forall|i: int|
            0 <= i < entries.len() ==> {
                &&& signatures_fit((#[trigger] entries[i]).0)
                &&& signatures_fit(entries[i].1)
            },
        _ => true,
    }
}

proof fn lemma_parts_fit(v: Value)
    requires
        signatures_fit(v@),
    ensures
        match v {
            Value::Struct(items) => forall|i: int|
                0 <= i < items@.len() ==> signatures_fit(#[trigger] models(items@)[i]),
            Value::Array(_, items) => forall|i: int|
                0 <= i < items@.len() ==> signatures_fit(#[trigger] models(items@)[i]),
            Value::Dict(_, _, entries) => forall|i: int|
                0 <= i < entries@.len() ==> {
                    &&& signatures_fit((#[trigger] entry_models(entries@)[i]).0)
                    &&& signatures_fit(entry_models(entries@)[i].1)
                },
            _ => true,
        },
{
    lemma_model_containers(v);
    match v {
        Value::Struct(items) => {
            assert forall|i: int| 0 <= i < items@.len() implies signatures_fit(
                #[trigger] models(items@)[i],
            ) by {
                assert(signatures_fit(v@->Struct_0[i]));
            }
        },
        Value::Array(_, items) => {
            assert forall|i: int| 0 <= i < items@.len() implies signatures_fit(
                #[trigger] models(items@)[i],
            ) by {
                assert(signatures_fit(v@->Array_1[i]));
            }
        },
        Value::Dict(_, _, entries) => {
            assert forall|i: int| 0 <= i < entries@.len() implies signatures_fit(
                (#[trigger] entry_models(entries@)[i]).0,
            ) && signatures_fit(entry_models(entries@)[i].1) by {
                assert(signatures_fit(v@->Dict_2[i].0));
            }
        },
        _ => {},
    }
}

/// Whether every signature that is written as part of the value is short enough for
/// its length byte.
pub fn check_signatures(v: &Value) -> (r: bool)
    ensures
        r == signatures_fit(v@),
    decreases v,
{
    proof {
        lemma_model_containers(*v);
        lemma_parts_decide(*v);
    }
    match v {
        Value::Signature(s) => s.as_str().as_bytes().len() <= 255,
        Value::Variant(inner) => inner.signature().as_str().as_bytes().len() <= 255
            && check_signatures(inner),
        Value::Struct(items) => check_all_signatures(items),
        Value::Array(_, items) => check_all_signatures(items),
        Value::Dict(_, _, entries) => {
            let mut i: usize = 0;
            while i < entries.len()
                invariant
                    i <= entries@.len(),
                    forall|k: int|
                        0 <= k < i ==> {
                            &&& signatures_fit((#[trigger] entry_models(entries@)[k]).0)
                            &&& signatures_fit(entry_models(entries@)[k].1)
                        },
                    signatures_fit(v@) == (forall|k: int|
                        0 <= k < entries@.len() ==> {
                            &&& signatures_fit((#[trigger] entry_models(entries@)[k]).0)
                            &&& signatures_fit(entry_models(entries@)[k].1)
                        }),
                    decreases_to!(v => entries@),
                decreases entries@.len() - i,
            {
                assert(entry_models(entries@)[i as int] == (
                    entries@[i as int].0@,
                    entries@[i as int].1@,
                ));
                if !check_signatures(&entries[i].0) || !check_signatures(&entries[i].1) {
                    return false;
                }
                i += 1;
            }
            true
        },
        _ => true,
    }
}

/// Whether every signature in a list of values is short enough.
pub fn check_all_signatures(items: &Vec<Value>) -> (r: bool)
    ensures
        r == (forall|i: int|
            0 <= i < items@.len() ==> signatures_fit(#[trigger] models(items@)[i])),
    decreases items,
{
    let mut i: usize = 0;
    while i < items.len()
        invariant
            i <= items@.len(),
            forall|k: int| 0 <= k < i ==> signatures_fit(#[trigger] models(items@)[k]),
            decreases_to!(items => items@),
        decreases items@.len() - i,
    {
        assert(models(items@)[i as int] == items@[i as int]@);
        if !check_signatures(&items[i]) {
            return false;
        }
        i += 1;
    }
    true
}

/// Whether the signatures in a container are short enough is decided by those in what
/// it holds.
proof fn lemma_parts_decide(v: Value)
    ensures
        match v {
            Value::Struct(items) => signatures_fit(v@) == (forall|i: int|
                0 <= i < items@.len() ==> signatures_fit(#[trigger] models(items@)[i])),
            Value::Array(_, items) => signatures_fit(v@) == (forall|i: int|
                0 <= i < items@.len() ==> signatures_fit(#[trigger] models(items@)[i])),
            Value::Dict(_, _, entries) => signatures_fit(v@) == (forall|i: int|
                0 <= i < entries@.len() ==> {
                    &&& signatures_fit((#[trigger] entry_models(entries@)[i]).0)
                    &&& signatures_fit(entry_models(entries@)[i].1)
                }),
            _ => true,
        },
{
    lemma_model_containers(v);
    match v {
        Value::Struct(items) => {
            let all = models(items@);
            if forall|i: int| 0 <= i < items@.len() ==> signatures_fit(#[trigger] all[i]) {
                assert forall|i: int| 0 <= i < v@->Struct_0.len() implies signatures_fit(
                    #[trigger] v@->Struct_0[i],
                ) by {
                    assert(signatures_fit(all[i]));
                }
                assert(signatures_fit(v@));
            }
            if signatures_fit(v@) {
                lemma_parts_fit(v);
            }
        },
        Value::Array(_, items) => {
            let all = models(items@);
            if forall|i: int| 0 <= i < items@.len() ==> signatures_fit(#[trigger] all[i]) {
                assert forall|i: int| 0 <= i < v@->Array_1.len() implies signatures_fit(
                    #[trigger] v@->Array_1[i],
                ) by {
                    assert(signatures_fit(all[i]));
                }
                assert(signatures_fit(v@));
            }
            if signatures_fit(v@) {
                lemma_parts_fit(v);
            }
        },
        Value::Dict(_, _, entries) => {
            let all = entry_models(entries@);
            if forall|i: int|
                0 <= i < entries@.len() ==> {
                    &&& signatures_fit((#[trigger] all[i]).0)
                    &&& signatures_fit(all[i].1)
                } {
                assert forall|i: int| 0 <= i < v@->Dict_2.len() implies signatures_fit(
                    (#[trigger] v@->Dict_2[i]).0,
                ) && signatures_fit(v@->Dict_2[i].1) by {
                    assert(signatures_fit(all[i].0));
                }
                assert(signatures_fit(v@));
            }
            if signatures_fit(v@) {
                lemma_parts_fit(v);
            }
        },
        _ => {},
    }
}

/// Numbers that are written in either byte order.
pub trait Endian<const N: usize>: Sized {
    /// The number.
    spec fn number(self) -> nat;

    /// Its bytes, the lowest first.
    fn to_le(self) -> (r: [u8; N])
        ensures
            r@ == le_bytes(self.number(), N as nat),
    ;

    /// Its bytes, the highest first.
    fn to_be(self) -> (r: [u8; N])
        ensures
            r@ == le_bytes(self.number(), N as nat).reverse(),
    ;
}

impl Endian<2> for u16 {
    open spec fn number(self) -> nat {
        self as nat
    }

    fn to_le(self) -> (r: [u8; 2]) {
        proof {
            reveal_with_fuel(le_bytes, 3);
        }
        [(self % 256) as u8, (self / 256 % 256) as u8]
    }

    fn to_be(self) -> (r: [u8; 2]) {
        proof {
            reveal_with_fuel(le_bytes, 3);
        }
        [(self / 256 % 256) as u8, (self % 256) as u8]
    }
}

impl Endian<4> for u32 {
    open spec fn number(self) -> nat {
        self as nat
    }

    fn to_le(self) -> (r: [u8; 4]) {
        proof {
            reveal_with_fuel(le_bytes, 5);
        }
        [
            (self % 256) as u8,
            (self / 256 % 256) as u8,
            (self / 256 / 256 % 256) as u8,
            (self / 256 / 256 / 256 % 256) as u8,
        ]
    }

    fn to_be(self) -> (r: [u8; 4]) {
        proof {
            reveal_with_fuel(le_bytes, 5);
        }
        [
            (self / 256 / 256 / 256 % 256) as u8,
            (self / 256 / 256 % 256) as u8,
            (self / 256 % 256) as u8,
            (self % 256) as u8,
        ]
    }
}

impl Endian<8> for u64 {
    open spec fn number(self) -> nat {
        self as nat
    }

    fn to_le(self) -> (r: [u8; 8]) {
        proof {
            reveal_with_fuel(le_bytes, 9);
        }
        [
            (self % 256) as u8,
            (self / 256 % 256) as u8,
            (self / 256 / 256 % 256) as u8,
            (self / 256 / 256 / 256 % 256) as u8,
            (self / 256 / 256 / 256 / 256 % 256) as u8,
            (self / 256 / 256 / 256 / 256 / 256 % 256) as u8,
            (self / 256 / 256 / 256 / 256 / 256 / 256 % 256) as u8,
            (self / 256 / 256 / 256 / 256 / 256 / 256 / 256 % 256) as u8,
        ]
    }

    fn to_be(self) -> (r: [u8; 8]) {
        proof {
            reveal_with_fuel(le_bytes, 9);
        }
        [
            (self / 256 / 256 / 256 / 256 / 256 / 256 / 256 % 256) as u8,
            (self / 256 / 256 / 256 / 256 / 256 / 256 % 256) as u8,
            (self / 256 / 256 / 256 / 256 / 256 % 256) as u8,
            (self / 256 / 256 / 256 / 256 % 256) as u8,
            (self / 256 / 256 / 256 % 256) as u8,
            (self / 256 / 256 % 256) as u8,
            (self / 256 % 256) as u8,
            (self % 256) as u8,
        ]
    }
}

/// Collects the bytes of a message part.
pub struct Writer {
    buf: Vec<u8>,
    le: bool,
}

impl View for Writer {
    type V = Seq<u8>;

    closed spec fn view(&self) -> Seq<u8> {
        self.buf@
    }
}

impl Default for Writer {
    fn default() -> (r: Self)
        ensures
            r@ == Seq::<u8>::empty(),
            r.little(),
    {
        Self::new()
    }
}

impl Writer {
    /// Whether numbers are written with the lowest byte first.
    pub closed spec fn little(&self) -> bool {
        self.le
    }

    /// `w` is `self` with `more` written behind what it holds.
    pub open spec fn followed_by(&self, more: Seq<u8>, w: &Writer) -> bool {
        w@ == self@ + more && w.little() == self.little()
    }

    /// An empty writer that writes the lowest byte of a number first.
    pub fn new() -> (r: Self)
        ensures
            r@ == Seq::<u8>::empty(),
            r.little(),
    {
        Writer { buf: Vec::with_capacity(256), le: true }
    }

    /// An empty writer with the given byte order.
    pub fn with_endian(le: bool) -> (r: Self)
        ensures
            r@ == Seq::<u8>::empty(),
            r.little() == le,
    {
        Writer { buf: Vec::with_capacity(256), le }
    }

    /// The bytes written.
    pub fn into_inner(self) -> (r: Vec<u8>)
        ensures
            r@ == self@,
    {
        self.buf
    }

    /// How many bytes have been written.
    pub fn len(&self) -> (r: usize)
        ensures
            r == self@.len(),
    {
        self.buf.len()
    }

    /// Whether nothing has been written.
    pub fn is_empty(&self) -> (r: bool)
        ensures
            r == (self@.len() == 0),
    {
        self.buf.is_empty()
    }

    /// Writes zero bytes up to the next multiple of `n`.
    pub fn align(&mut self, n: usize)
        requires
            n > 0,
        ensures
            old(self).followed_by(padding(old(self)@.len(), n as nat), final(self)),
    {
        let used: usize = self.buf.len() % n;
        let count: usize = if used == 0 { 0 } else { n - used };
        proof {
            let a = used as int;
            assert((n - a) % (n as int) == count) by (nonlinear_arith)
                requires
                    0 <= a < n,
                    count == if a == 0 { 0int } else { n - a },
            ;
        }
        let ghost start = self.buf@;
        let mut i: usize = 0;
        while i < count
            invariant
                i <= count,
                self.le == old(self).le,
                self.buf@ == start + Seq::new(i as nat, |k: int| 0u8),
            decreases count - i,
        {
            self.buf.push(0);
            i += 1;
            assert(self.buf@ =~= start + Seq::new(i as nat, |k: int| 0u8));
        }
    }

    /// Writes one byte.
    pub fn u8(&mut self, v: u8)
        ensures
            old(self).followed_by(seq![v], final(self)),
    {
        self.buf.push(v);
        assert(self.buf@ =~= old(self).buf@ + seq![v]);
    }

    /// Writes a 16-bit number.
    pub fn u16(&mut self, v: u16)
        ensures
            old(self).followed_by(
                number_encoding(v as nat, 2, old(self).little(), old(self)@.len()),
                final(self),
            ),
    {
        proof {
            reveal(number_encoding);
        }
        self.align(2);
        let b = self.bytes(v);
        self.put(b.as_slice());
        assert(self@ =~= old(self)@ + number_encoding(
            v as nat,
            2,
            old(self).little(),
            old(self)@.len(),
        ));
    }

    /// Writes a signed 16-bit number.
    pub fn i16(&mut self, v: i16)
        ensures
            old(self).followed_by(
                number_encoding(v as u16 as nat, 2, old(self).little(), old(self)@.len()),
                final(self),
            ),
    {
        self.u16(v as u16)
    }

    /// Writes a 32-bit number.
    pub fn u32(&mut self, v: u32)
        ensures
            old(self).followed_by(
                number_encoding(v as nat, 4, old(self).little(), old(self)@.len()),
                final(self),
            ),
    {
        proof {
            reveal(number_encoding);
        }
        self.align(4);
        let b = self.bytes(v);
        self.put(b.as_slice());
        assert(self@ =~= old(self)@ + number_encoding(
            v as nat,
            4,
            old(self).little(),
            old(self)@.len(),
        ));
    }

    /// Writes a signed 32-bit number.
    pub fn i32(&mut self, v: i32)
        ensures
            old(self).followed_by(
                number_encoding(v as u32 as nat, 4, old(self).little(), old(self)@.len()),
                final(self),
            ),
    {
        self.u32(v as u32)
    }

    /// Writes a 64-bit number.
    pub fn u64(&mut self, v: u64)
        ensures
            old(self).followed_by(
                number_encoding(v as nat, 8, old(self).little(), old(self)@.len()),
                final(self),
            ),
    {
        proof {
            reveal(number_encoding);
        }
        self.align(8);
        let b = self.bytes(v);
        self.put(b.as_slice());
        assert(self@ =~= old(self)@ + number_encoding(
            v as nat,
            8,
            old(self).little(),
            old(self)@.len(),
        ));
    }

    /// Writes a signed 64-bit number.
    pub fn i64(&mut self, v: i64)
        ensures
            old(self).followed_by(
                number_encoding(v as u64 as nat, 8, old(self).little(), old(self)@.len()),
                final(self),
            ),
    {
        self.u64(v as u64)
    }

    /// Writes a floating-point number, given by the bits of its IEEE 754 form.
    pub fn double(&mut self, bits: u64)
        ensures
            old(self).followed_by(
                number_encoding(bits as nat, 8, old(self).little(), old(self)@.len()),
                final(self),
            ),
    {
        self.u64(bits)
    }

    /// Writes a string or an object path: its length in bytes as a 32-bit number,
    /// the bytes, and a zero byte.
    pub fn string(&mut self, s: &str)
        ensures
            old(self).followed_by(
                string_encoding(s@, old(self).little(), old(self)@.len()),
                final(self),
            ),
    {
        proof {
            reveal(string_encoding);
        }
        let b = s.as_bytes();
        #[verifier::truncate]
        let n: u32 = b.len() as u32;
        self.u32(n);
        self.put(b);
        self.u8(0);
        assert(self@ =~= old(self)@ + string_encoding(s@, old(self).little(), old(self)@.len()));
    }

    /// Writes a signature: its length as one byte, its bytes, and a zero byte.
    pub fn signature(&mut self, s: &str)
        requires
            encode_utf8(s@).len() <= 255,
        ensures
            old(self).followed_by(signature_encoding(s@), final(self)),
    {
        proof {
            reveal(signature_encoding);
        }
        let b = s.as_bytes();
        self.u8(b.len() as u8);
        self.put(b);
        self.u8(0);
        assert(self@ =~= old(self)@ + signature_encoding(s@));
    }

    /// Writes a value as a variant: its signature, then the value.
    pub fn variant(&mut self, v: &Value)
        requires
            signatures_fit(ValueView::Variant(Box::new(v@))),
        ensures
            old(self).followed_by(
                encoding(ValueView::Variant(Box::new(v@)), old(self).little(), old(self)@.len()),
                final(self),
            ),
        decreases v, 1nat,
    {
        let sig = v.signature();
        self.signature(&sig);
        self.value(v);
        assert(self@ =~= old(self)@ + encoding(
            ValueView::Variant(Box::new(v@)),
            old(self).little(),
            old(self)@.len(),
        ));
    }

    /// Writes a value.
    pub fn value(&mut self, v: &Value)
        requires
            signatures_fit(v@),
        ensures
            old(self).followed_by(
                encoding(v@, old(self).little(), old(self)@.len()),
                final(self),
            ),
        decreases v, 0nat,
    {
        proof {
            lemma_model_containers(*v);
            lemma_parts_fit(*v);
        }
        match v {
            Value::Byte(x) => self.u8(*x),
            Value::Bool(b) => self.u32(if *b { 1 } else { 0 }),
            Value::Int16(x) => self.i16(*x),
            Value::Uint16(x) => self.u16(*x),
            Value::Int32(x) => self.i32(*x),
            Value::Uint32(x) => self.u32(*x),
            Value::Int64(x) => self.i64(*x),
            Value::Uint64(x) => self.u64(*x),
            Value::Double(x) => self.double(*x),
            Value::String(s) => self.string(s),
            Value::ObjectPath(s) => self.string(s),
            Value::Signature(s) => self.signature(s),
            Value::Variant(inner) => self.variant(inner),
            Value::Struct(items) => {
                self.align(8);
                self.values(items);
                assert(self@ =~= old(self)@ + encoding(
                    v@,
                    old(self).little(),
                    old(self)@.len(),
                ));
            },
            Value::Array(elem, items) => self.array(alignment_of(elem), items),
            Value::Dict(_, _, entries) => self.dictionary(entries),
        }
    }

    /// Writes an array of values with the given alignment.
    fn array(&mut self, align: usize, items: &Vec<Value>)
        requires
            align > 0,
            forall|i: int|
                0 <= i < items@.len() ==> signatures_fit(#[trigger] models(items@)[i]),
        ensures
            old(self).followed_by(
                array_encoding(
                    encodings(
                        models(items@),
                        old(self).little(),
                        body_start(old(self)@.len(), align as nat),
                    ),
                    align as nat,
                    old(self).little(),
                    old(self)@.len(),
                ),
                final(self),
            ),
        decreases items, 1nat,
    {
        let len_pos: usize = self.start_array(align);
        let start: usize = self.buf.len();
        let ghost head = self@;
        self.values(items);
        assert(self@.take(start as int) =~= head);
        assert(self@.skip(start as int) =~= encodings(models(items@), self.little(), start as nat));
        self.finish_array(Ghost(*old(self)), Ghost(align as nat), len_pos, start);
    }

    /// Writes a dictionary.
    fn dictionary(&mut self, entries: &Vec<(Value, Value)>)
        requires
            forall|i: int|
                0 <= i < entries@.len() ==> {
                    &&& signatures_fit((#[trigger] entry_models(entries@)[i]).0)
                    &&& signatures_fit(entry_models(entries@)[i].1)
                },
        ensures
            old(self).followed_by(
                array_encoding(
                    entry_encodings(
                        entry_models(entries@),
                        old(self).little(),
                        body_start(old(self)@.len(), 8),
                    ),
                    8,
                    old(self).little(),
                    old(self)@.len(),
                ),
                final(self),
            ),
        decreases entries, 1nat,
    {
        let len_pos: usize = self.start_array(8);
        let start: usize = self.buf.len();
        let ghost head = self@;
        self.entries(entries);
        assert(self@.take(start as int) =~= head);
        assert(self@.skip(start as int) =~= entry_encodings(
            entry_models(entries@),
            self.little(),
            start as nat,
        ));
        self.finish_array(Ghost(*old(self)), Ghost(8), len_pos, start);
    }

    /// Writes what stands before the body of an array, with a length of zero.
    /// Returns where that length stands.
    fn start_array(&mut self, align: usize) -> (len_pos: usize)
        requires
            align > 0,
        ensures
            len_pos == old(self)@.len() + pad(old(self)@.len(), 4),
            old(self).followed_by(
                number_encoding(0, 4, old(self).little(), old(self)@.len()) + padding(
                    (len_pos + 4) as nat,
                    align as nat,
                ),
                final(self),
            ),
            final(self)@.len() == body_start(old(self)@.len(), align as nat),
    {
        proof {
            reveal(number_encoding);
        }
        self.align(4);
        let len_pos: usize = self.buf.len();
        self.u32(0);
        proof {
            lemma_number_bytes_len(0, 4, self.little());
            assert(padding(len_pos as nat, 4) =~= Seq::<u8>::empty());
        }
        self.align(align);
        assert(self@ =~= old(self)@ + (number_encoding(0, 4, self.little(), old(self)@.len())
            + padding((len_pos + 4) as nat, align as nat)));
        len_pos
    }

    /// Writes the values of a list.
    pub(crate) fn values(&mut self, items: &Vec<Value>)
        requires
            forall|i: int|
                0 <= i < items@.len() ==> signatures_fit(#[trigger] models(items@)[i]),
        ensures
            old(self).followed_by(
                encodings(models(items@), old(self).little(), old(self)@.len()),
                final(self),
            ),
        decreases items, 0nat,
    {
        let mut i: usize = 0;
        let ghost le = self.little();
        let ghost all = encodings(models(items@), le, self@.len());
        assert(models(items@).skip(0) =~= models(items@));
        while i < items.len()
            invariant
                i <= items@.len(),
                self.little() == le,
                old(self).little() == le,
                all == encodings(models(items@), le, old(self)@.len()),
                old(self)@ + all == self@ + encodings(
                    models(items@).skip(i as int),
                    le,
                    self@.len(),
                ),
                forall|i: int|
                    0 <= i < items@.len() ==> signatures_fit(#[trigger] models(items@)[i]),
                decreases_to!(items => items@),
            decreases items@.len() - i,
        {
            let ghost before = self@;
            assert(models(items@)[i as int] == items@[i as int]@);
            self.value(&items[i]);
            proof {
                let rest = models(items@).skip(i as int);
                assert(rest.drop_first() =~= models(items@).skip(i + 1));
                let first = encoding(rest[0], le, before.len());
                let tail = encodings(rest.drop_first(), le, before.len() + first.len());
                assert(before + (first + tail) =~= before + first + tail);
            }
            i += 1;
        }
        assert(self@ + Seq::<u8>::empty() =~= self@);
    }

    /// Writes the entries of a dictionary.
    fn entries(&mut self, entries: &Vec<(Value, Value)>)
        requires
            forall|i: int|
                0 <= i < entries@.len() ==> {
                    &&& signatures_fit((#[trigger] entry_models(entries@)[i]).0)
                    &&& signatures_fit(entry_models(entries@)[i].1)
                },
        ensures
            old(self).followed_by(
                entry_encodings(entry_models(entries@), old(self).little(), old(self)@.len()),
                final(self),
            ),
        decreases entries, 0nat,
    {
        let mut i: usize = 0;
        let ghost le = self.little();
        let ghost all = entry_encodings(entry_models(entries@), le, self@.len());
        assert(entry_models(entries@).skip(0) =~= entry_models(entries@));
        while i < entries.len()
            invariant
                i <= entries@.len(),
                self.little() == le,
                old(self).little() == le,
                all == entry_encodings(entry_models(entries@), le, old(self)@.len()),
                old(self)@ + all == self@ + entry_encodings(
                    entry_models(entries@).skip(i as int),
                    le,
                    self@.len(),
                ),
                forall|i: int|
                    0 <= i < entries@.len() ==> {
                        &&& signatures_fit((#[trigger] entry_models(entries@)[i]).0)
                        &&& signatures_fit(entry_models(entries@)[i].1)
                    },
                decreases_to!(entries => entries@),
            decreases entries@.len() - i,
        {
            let ghost before = self@;
            assert(entry_models(entries@)[i as int].0 == entries@[i as int].0@);
            self.align(8);
            self.value(&entries[i].0);
            self.value(&entries[i].1);
            proof {
                let rest = entry_models(entries@).skip(i as int);
                assert(rest.drop_first() =~= entry_models(entries@).skip(i + 1));
                let gap = padding(before.len(), 8);
                let p = before.len() + gap.len();
                let key = encoding(rest[0].0, le, p);
                let val = encoding(rest[0].1, le, p + key.len());
                let first = entry_encoding(rest[0], le, before.len());
                assert(first == gap + key + val);
                let tail = entry_encodings(rest.drop_first(), le, before.len() + first.len());
                assert(before + (first + tail) =~= before + gap + key + val + tail);
            }
            i += 1;
        }
        assert(self@ + Seq::<u8>::empty() =~= self@);
    }

    /// Fills in the length of an array whose body has just been written.
    fn finish_array(&mut self, Ghost(w): Ghost<Writer>, Ghost(align): Ghost<nat>, len_pos: usize, start: usize)
        requires
            w.little() == old(self).little(),
            align > 0,
            len_pos == w@.len() + pad(w@.len(), 4),
            start == body_start(w@.len(), align),
            start <= old(self)@.len(),
            old(self)@.take(start as int) == w@ + (number_encoding(0, 4, w.little(), w@.len())
                + padding((len_pos + 4) as nat, align)),
        ensures
            w.followed_by(
                array_encoding(old(self)@.skip(start as int), align, w.little(), w@.len()),
                final(self),
            ),
    {
        proof {
            reveal(number_encoding);
            reveal(array_encoding);
        }
        #[verifier::truncate]
        let n: u32 = (self.buf.len() - start) as u32;
        let b = self.bytes(n);
        let ghost before = self.buf@;
        self.buf.set(len_pos, b[0]);
        self.buf.set(len_pos + 1, b[1]);
        self.buf.set(len_pos + 2, b[2]);
        self.buf.set(len_pos + 3, b[3]);
        proof {
            let body = before.skip(start as int);
            let out = w@ + array_encoding(body, align, w.little(), w@.len());
            lemma_number_bytes_len(n as nat, 4, w.little());
            lemma_number_bytes_len(0, 4, w.little());
            assert(before =~= before.take(start as int) + body);
            assert(self.buf@.len() == out.len());
            assert(self.buf@ =~= out);
        }
    }

    fn put(&mut self, b: &[u8])
        ensures
            old(self).followed_by(b@, final(self)),
    {
        self.buf.extend_from_slice(b);
        assert(self.buf@ =~= old(self).buf@ + b@);
    }

    fn bytes<const N: usize, T: Endian<N>>(&self, v: T) -> (r: [u8; N])
        ensures
            r@ == number_bytes(v.number(), N as nat, self.little()),
    {
        if self.le {
            v.to_le()
        } else {
            v.to_be()
        }
    }
}

} // verus!
