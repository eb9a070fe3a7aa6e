//! The wire format, byte by byte.

use crate::dbus::marshal::{
    array_encoding, encoding, encodings, entry_encoding, entry_encodings, le_bytes,
    lemma_number_bytes_len, number_bytes, number_encoding, pad, padding, signature_encoding,
    string_encoding,
};
use crate::dbus::signature::{alignment, type_len};
use crate::dbus::unmarshal::{le_value, number_value, plain_step, read_step};
use crate::dbus::value::{sig_of, ValueView};
use crate::error::ErrorView;
use vstd::arithmetic::div_mod::*;
use vstd::arithmetic::power::*;
use vstd::prelude::*;
use vstd::utf8::*;

verus! {

/// The byte of `u` that counts as many times 256 to the power of `k`.
pub open spec fn byte_of(u: nat, k: nat) -> int {
    u as int / pow(256, k) % 256
}

/// The bytes of `b` from `p` on are the `n` bytes of the number `u`: the lowest first in
/// little-endian order, the highest first otherwise.
pub open spec fn number_stands(b: Seq<u8>, p: int, n: nat, u: nat, le: bool) -> bool {
    &&& 0 <= p && p + n <= b.len()
    &&& forall|k: nat|
        k < n ==> b[p + (if le {
            k as int
        } else {
            n - 1 - k
        })] == #[trigger] byte_of(u, k)
}

/// The bytes `e`, written at `pos`, are a number of `n` bytes: zero bytes, fewer than `n`, up to
/// a multiple of `n`, and behind them the number, and nothing else.
pub open spec fn is_number_at(e: Seq<u8>, pos: nat, n: nat, u: nat, le: bool) -> bool {
    let z = e.len() - n;
    &&& 0 <= z < n
    &&& (pos + z) % n as int == 0
    &&& forall|i: int| 0 <= i < z ==> #[trigger] e[i] == 0
    &&& number_stands(e, z, n, u, le)
}

pub proof fn lemma_le_bytes(v: nat, n: nat)
    ensures
        le_bytes(v, n).len() == n,
        forall|k: nat| k < n ==> (#[trigger] le_bytes(v, n)[k as int]) == byte_of(v, k),
    decreases n,
{
    if n > 0 {
        let rest = le_bytes(v / 256, (n - 1) as nat);
        lemma_le_bytes(v / 256, (n - 1) as nat);
        assert forall|k: nat| k < n implies (#[trigger] le_bytes(v, n)[k as int]) == byte_of(
            v,
            k,
        ) by {
            if k == 0 {
                lemma_pow0(256);
            } else {
                let j = (k - 1) as nat;
                assert(le_bytes(v, n)[k as int] == rest[j as int]);
                reveal(pow);
                lemma_pow_positive(256, j);
                lemma_div_denominator(v as int, 256, pow(256, j));
            }
        }
    }
}

proof fn lemma_number_form(u: nat, n: nat, le: bool, pos: nat)
    requires
        n > 0,
    ensures
        is_number_at(number_encoding(u, n, le, pos), pos, n, u, le),
{
    reveal(number_encoding);
    let e = number_encoding(u, n, le, pos);
    let z = pad(pos, n) as int;
    lemma_le_bytes(u, n);
    let m = n as int;
    assert(0 <= pos % n < n) by (nonlinear_arith)
        requires
            n > 0,
    ;
    assert(z == if pos % n == 0 {
        0
    } else {
        n - pos % n
    }) by {
        if pos % n == 0 {
            lemma_mod_self_0(m);
        } else {
            lemma_small_mod((n - pos % n) as nat, n);
        }
    }
    assert((pos + z) % m == 0) by {
        lemma_fundamental_div_mod(pos as int, m);
        let q = pos as int / m;
        if pos % n == 0 {
        } else {
            assert(pos + z == m * (q + 1)) by (nonlinear_arith)
                requires
                    pos == m * q + pos as int % m,
                    z == m - pos as int % m,
            ;
            lemma_mod_multiples_basic(q + 1, m);
            assert((q + 1) * m == m * (q + 1)) by (nonlinear_arith);
        }
    }
    assert forall|k: nat| k < n implies e[z + (if le {
        k as int
    } else {
        n - 1 - k
    })] == #[trigger] byte_of(u, k) by {
        assert(le_bytes(u, n)[k as int] == byte_of(u, k));
    }
}

/// Numbers are written in their own size, aligned to it, in two's complement where they are
/// signed.
#[verifier::spinoff_prover]
#[verifier::rlimit(40)]
pub proof fn law_written_numbers(v: ValueView, le: bool, pos: nat)
    ensures
        ({
            let e = encoding(v, le, pos);
            match v {
                ValueView::Byte(x) => e == seq![x],
                ValueView::Int16(x) => is_number_at(
                    e,
                    pos,
                    2,
                    (if x < 0 {
                        x + 65536
                    } else {
                        x as int
                    }) as nat,
                    le,
                ),
                ValueView::Uint16(x) => is_number_at(e, pos, 2, x as nat, le),
                ValueView::Int32(x) => is_number_at(
                    e,
                    pos,
                    4,
                    (if x < 0 {
                        x + 4294967296
                    } else {
                        x as int
                    }) as nat,
                    le,
                ),
                ValueView::Uint32(x) => is_number_at(e, pos, 4, x as nat, le),
                ValueView::Int64(x) => is_number_at(
                    e,
                    pos,
                    8,
                    (if x < 0 {
                        x + 18446744073709551616
                    } else {
                        x as int
                    }) as nat,
                    le,
                ),
                ValueView::Uint64(x) => is_number_at(e, pos, 8, x as nat, le),
                ValueView::Double(bits) => is_number_at(e, pos, 8, bits as nat, le),
                _ => true,
            }
        }),
{
    match v {
        ValueView::Int16(x) => {
            lemma_number_form(x as u16 as nat, 2, le, pos);
            assert(x as u16 == if x < 0 {
                x + 65536
            } else {
                x as int
            }) by (bit_vector);
        },
        ValueView::Uint16(x) => lemma_number_form(x as nat, 2, le, pos),
        ValueView::Int32(x) => {
            lemma_number_form(x as u32 as nat, 4, le, pos);
            assert(x as u32 == if x < 0 {
                x + 4294967296
            } else {
                x as int
            }) by (bit_vector);
        },
        ValueView::Uint32(x) => lemma_number_form(x as nat, 4, le, pos),
        ValueView::Int64(x) => {
            lemma_number_form(x as u64 as nat, 8, le, pos);
            assert(x as u64 == if x < 0 {
                x + 18446744073709551616
            } else {
                x as int
            }) by (bit_vector);
        },
        ValueView::Uint64(x) => lemma_number_form(x as nat, 8, le, pos),
        ValueView::Double(x) => lemma_number_form(x as nat, 8, le, pos),
        _ => {},
    }
}

/// A truth value is written as the number 1 for true and 0 for false, in four aligned bytes.
pub proof fn law_written_bool(x: bool, le: bool, pos: nat)
    ensures
        ({
            let e = encoding(ValueView::Bool(x), le, pos);
            let z = e.len() - 4;
            &&& 0 <= z < 4 && (pos + z) % 4 == 0
            &&& forall|i: int| 0 <= i < z ==> #[trigger] e[i] == 0
            &&& x && le ==> e.skip(z) == seq![1u8, 0u8, 0u8, 0u8]
            &&& x && !le ==> e.skip(z) == seq![0u8, 0u8, 0u8, 1u8]
            &&& !x ==> e.skip(z) == seq![0u8, 0u8, 0u8, 0u8]
        }),
{
    let u: nat = if x {
        1
    } else {
        0
    };
    let e = encoding(ValueView::Bool(x), le, pos);
    let z = e.len() - 4;
    lemma_number_form(u, 4, le, pos);
    reveal(number_encoding);
    reveal_with_fuel(le_bytes, 5);
    let m = le_bytes(u, 4);
    assert(m =~= seq![u as u8, 0u8, 0u8, 0u8]);
    assert(e =~= padding(pos, 4) + number_bytes(u, 4, le));
    assert(e.skip(z) =~= number_bytes(u, 4, le));
    assert(m.reverse() =~= seq![0u8, 0u8, 0u8, u as u8]);
}

/// The bytes `e`, written at `pos`, are the length of `t` as an aligned number of four bytes,
/// then `t`.
pub open spec fn is_counted(e: Seq<u8>, pos: nat, t: Seq<u8>, le: bool) -> bool {
    let n = e.len() - t.len();
    &&& 0 <= n
    &&& is_number_at(e.take(n), pos, 4, t.len(), le)
    &&& e.skip(n) == t
}

/// Strings and object paths are written as their length in bytes, their UTF-8 form and a zero
/// byte, which the length does not count. A signature has a length of one byte, and is not
/// aligned.
#[verifier::spinoff_prover]
#[verifier::rlimit(40)]
pub proof fn law_written_texts(s: Seq<char>, le: bool, pos: nat)
    ensures
        encode_utf8(s).len() <= u32::MAX ==> ({
            let e = encoding(ValueView::String(s), le, pos);
            &&& e.len() > 0 && e.last() == 0
            &&& is_counted(e.drop_last(), pos, encode_utf8(s), le)
            &&& encoding(ValueView::ObjectPath(s), le, pos) == e
        }),
        encode_utf8(s).len() <= 255 ==> encoding(ValueView::Signature(s), le, pos) == seq![
            encode_utf8(s).len() as u8,
        ] + encode_utf8(s) + seq![0u8],
{
    reveal(string_encoding);
    reveal(signature_encoding);
    let t = encode_utf8(s);
    if t.len() <= u32::MAX {
        let e = encoding(ValueView::String(s), le, pos);
        let n = number_encoding(t.len(), 4, le, pos);
        lemma_number_form(t.len(), 4, le, pos);
        assert(e.drop_last() =~= n + t);
        assert(e.drop_last().take(n.len() as int) =~= n);
        assert(e.drop_last().skip(n.len() as int) =~= t);
    }
}

/// A variant is written as the signature of what it holds, and then that.
pub proof fn law_written_variant(x: ValueView, le: bool, pos: nat)
    requires
        encode_utf8(sig_of(x)).len() <= 255,
    ensures
        ({
            let t = encode_utf8(sig_of(x));
            encoding(ValueView::Variant(Box::new(x)), le, pos) == seq![t.len() as u8] + t
                + seq![0u8] + encoding(x, le, pos + t.len() + 2)
        }),
{
    reveal(signature_encoding);
    let t = encode_utf8(sig_of(x));
    let sig = signature_encoding(sig_of(x));
    assert(sig.len() == t.len() + 2);
}

/// The bytes `e`, written at `pos`, are zero bytes, fewer than `n`, up to a multiple of `n`, and
/// behind them `t`.
pub open spec fn is_aligned(e: Seq<u8>, pos: nat, n: nat, t: Seq<u8>) -> bool {
    let z = e.len() - t.len();
    &&& 0 <= z < n
    &&& (pos + z) % n as int == 0
    &&& forall|i: int| 0 <= i < z ==> #[trigger] e[i] == 0
    &&& e.skip(z) == t
}

pub proof fn lemma_aligned(pos: nat, n: nat, t: Seq<u8>)
    requires
        n > 0,
    ensures
        is_aligned(padding(pos, n) + t, pos, n, t),
        (pos + pad(pos, n)) % n == 0,
        pad(pos, n) < n,
{
    lemma_number_form(0, n, true, pos);
    reveal(number_encoding);
    lemma_number_bytes_len(0, n, true);
    assert((padding(pos, n) + t).skip(pad(pos, n) as int) =~= t);
}

/// A structure is aligned to eight bytes, and its fields follow one after the other.
pub proof fn law_written_struct(items: Seq<ValueView>, le: bool, pos: nat)
    ensures
        ({
            let e = encoding(ValueView::Struct(items), le, pos);
            let z = e.len() - encodings(items, le, pos + (8 - pos % 8) as nat % 8).len();
            &&& z == (8 - pos % 8) % 8
            &&& is_aligned(e, pos, 8, encodings(items, le, (pos + z) as nat))
        }),
{
    let z = pad(pos, 8);
    lemma_aligned(pos, 8, encodings(items, le, pos + z));
    assert(z == (8 - pos % 8) % 8);
}

/// Values in a row are written one behind the other, each where the one before it ends.
pub proof fn law_written_row(items: Seq<ValueView>, x: ValueView, le: bool, pos: nat)
    ensures
        encodings(seq![], le, pos) == Seq::<u8>::empty(),
        encodings(items.push(x), le, pos) == encodings(items, le, pos) + encoding(
            x,
            le,
            pos + encodings(items, le, pos).len(),
        ),
    decreases items.len(),
{
    let all = items.push(x);
    if items.len() == 0 {
        assert(all.drop_first() =~= seq![]);
        reveal_with_fuel(encodings, 2);
        assert(encodings(all, le, pos) =~= encoding(x, le, pos));
        assert(items =~= seq![]);
        assert(encodings(items, le, pos) + encoding(x, le, pos) =~= encoding(x, le, pos));
    } else {
        let first = encoding(items[0], le, pos);
        let rest = items.drop_first();
        assert(all.drop_first() =~= rest.push(x));
        assert(all[0] == items[0]);
        law_written_row(rest, x, le, pos + first.len());
        assert(encodings(all, le, pos) =~= encodings(items, le, pos) + encoding(
            x,
            le,
            pos + encodings(items, le, pos).len(),
        ));
    }
}

/// How the type that starts with the given character is aligned.
pub proof fn law_alignments(s: Seq<char>)
    requires
        s.len() > 0,
    ensures
        s[0] == 'y' || s[0] == 'g' || s[0] == 'v' ==> alignment(s) == 1,
        s[0] == 'n' || s[0] == 'q' ==> alignment(s) == 2,
        s[0] == 'b' || s[0] == 'i' || s[0] == 'u' || s[0] == 's' || s[0] == 'o' || s[0] == 'a'
            ==> alignment(s) == 4,
        s[0] == 'x' || s[0] == 't' || s[0] == 'd' || s[0] == '(' || s[0] == '{' ==> alignment(s)
            == 8,
{
}

/// The bytes `e`, written at `pos`, are an array with the body `t`: the length of the body as a
/// number, zero bytes up to the alignment `n` of the elements, and the body.
pub open spec fn is_array_at(e: Seq<u8>, pos: nat, n: nat, t: Seq<u8>, le: bool) -> bool {
    let z = (4 - pos as int % 4) % 4;
    &&& z + 4 <= e.len()
    &&& is_number_at(e.take(z + 4), pos, 4, t.len(), le)
    &&& is_aligned(e.skip(z + 4), (pos + z + 4) as nat, n, t)
}

proof fn lemma_array_form(body: Seq<u8>, n: nat, le: bool, pos: nat)
    requires
        n > 0,
        body.len() <= u32::MAX,
    ensures
        is_array_at(array_encoding(body, n, le, pos), pos, n, body, le),
{
    reveal(array_encoding);
    let z = pad(pos, 4) as int;
    assert(z == (4 - pos as int % 4) % 4);
    let e = array_encoding(body, n, le, pos);
    let num = number_encoding(body.len(), 4, le, pos);
    lemma_number_form(body.len(), 4, le, pos);
    assert(num.len() == z + 4) by {
        reveal(number_encoding);
        lemma_number_bytes_len(body.len(), 4, le);
    }
    assert(e.take(z + 4) =~= num);
    assert(e.skip(z + 4) =~= padding((pos + z + 4) as nat, n) + body);
    lemma_aligned((pos + z + 4) as nat, n, body);
}

/// An array is written as the length of its elements in bytes, without the padding before the
/// first, and the elements; a dictionary as an array of structures of two.
#[verifier::spinoff_prover]
#[verifier::rlimit(40)]
pub proof fn law_written_arrays(
    t: Seq<char>,
    items: Seq<ValueView>,
    k: Seq<char>,
    entries: Seq<(ValueView, ValueView)>,
    le: bool,
    pos: nat,
)
    requires
        t.len() > 0,
    ensures
        ({
            let e = encoding(ValueView::Array(t, items), le, pos);
            let n = alignment(t);
            let p = (pos + (4 - pos as int % 4) % 4 + 4) as nat;
            let body = encodings(items, le, (p + (n - p % n) % n as int) as nat);
            body.len() <= u32::MAX ==> is_array_at(e, pos, n, body, le)
        }),
        ({
            let e = encoding(ValueView::Dict(k, t, entries), le, pos);
            let p = (pos + (4 - pos as int % 4) % 4 + 4) as nat;
            let q = (p + (8 - p % 8) % 8) as nat;
            let body = encodings(pairs(entries), le, q);
            body.len() <= u32::MAX ==> is_array_at(e, pos, 8, body, le)
        }),
{
    let n = alignment(t);
    let p = (pos + (4 - pos as int % 4) % 4 + 4) as nat;
    let body = encodings(items, le, (p + (n - p % n) % n as int) as nat);
    if body.len() <= u32::MAX {
        lemma_array_form(body, n, le, pos);
    }
    let q = (p + (8 - p % 8) % 8) as nat;
    lemma_pairs(entries, le, q);
    let inner = encodings(pairs(entries), le, q);
    if inner.len() <= u32::MAX {
        lemma_array_form(inner, 8, le, pos);
    }
}

/// Entries as structures of two fields.
pub open spec fn pairs(entries: Seq<(ValueView, ValueView)>) -> Seq<ValueView> {
    Seq::new(entries.len(), |i: int| ValueView::Struct(seq![entries[i].0, entries[i].1]))
}

proof fn lemma_pairs(entries: Seq<(ValueView, ValueView)>, le: bool, pos: nat)
    ensures
        entry_encodings(entries, le, pos) == encodings(pairs(entries), le, pos),
    decreases entries.len(),
{
    if entries.len() > 0 {
        let rest = entries.drop_first();
        let x = entries[0];
        let two = seq![x.0, x.1];
        assert(pairs(entries).drop_first() =~= pairs(rest));
        assert(pairs(entries)[0] == ValueView::Struct(two));
        let p = pos + pad(pos, 8);
        let key = encoding(x.0, le, p);
        reveal_with_fuel(encodings, 3);
        assert(two.drop_first() =~= seq![x.1]);
        assert(two.drop_first().drop_first() =~= seq![]);
        assert(encodings(two, le, p) =~= key + encoding(x.1, le, p + key.len()));
        let first = encoding(ValueView::Struct(two), le, pos);
        assert(first =~= padding(pos, 8) + key + encoding(x.1, le, p + key.len()));
        lemma_pairs(rest, le, pos + first.len());
        assert(entry_encoding(x, le, pos) == first);
        assert(entry_encodings(entries, le, pos) == first + entry_encodings(
            rest,
            le,
            pos + first.len(),
        ));
        assert(encodings(pairs(entries), le, pos) == first + encodings(
            pairs(rest),
            le,
            pos + first.len(),
        ));
    } else {
        assert(pairs(entries) =~= seq![]);
    }
}

proof fn lemma_le_value(b: Seq<u8>)
    ensures
        le_value(b) < pow(256, b.len()),
        forall|k: nat| k < b.len() ==> b[k as int] == #[trigger] byte_of(le_value(b), k),
    decreases b.len(),
{
    reveal(pow);
    if b.len() > 0 {
        let rest = b.drop_first();
        lemma_le_value(rest);
        let v = le_value(b) as int;
        let r = le_value(rest) as int;
        assert(v == b[0] as int + 256 * r);
        assert(v / 256 == r && v % 256 == b[0]);
        assert forall|k: nat| k < b.len() implies b[k as int] == #[trigger] byte_of(
            le_value(b),
            k,
        ) by {
            if k == 0 {
                lemma_pow0(256);
            } else {
                let j = (k - 1) as nat;
                assert(b[k as int] == rest[j as int]);
                assert(rest[j as int] == byte_of(le_value(rest), j));
                lemma_pow_positive(256, j);
                lemma_div_denominator(v, 256, pow(256, j));
            }
        }
    }
}

proof fn lemma_number_stands(b: Seq<u8>, p: int, n: nat, le: bool)
    requires
        0 <= p,
        p + n <= b.len(),
    ensures
        ({
            let u = number_value(b.subrange(p, p + n), le);
            u < pow(256, n) && number_stands(b, p, n, u, le)
        }),
{
    let bs = b.subrange(p, p + n);
    let u = number_value(bs, le);
    if le {
        lemma_le_value(bs);
    } else {
        lemma_le_value(bs.reverse());
    }
    assert forall|k: nat| k < n implies b[p + (if le {
        k as int
    } else {
        n - 1 - k
    })] == #[trigger] byte_of(u, k) by {
        if le {
            assert(bs[k as int] == byte_of(u, k));
        } else {
            assert(bs.reverse()[k as int] == byte_of(u, k));
        }
    }
}

/// The value of the type `c` that the number `u` of its size stands for.
pub open spec fn stands_for(c: char, u: nat, v: ValueView) -> bool {
    match v {
        ValueView::Byte(x) => c == 'y' && x == u,
        ValueView::Bool(x) => c == 'b' && x == (u != 0),
        ValueView::Int16(x) => c == 'n' && x == if u < 32768 {
            u as int
        } else {
            u - 65536
        },
        ValueView::Uint16(x) => c == 'q' && x == u,
        ValueView::Int32(x) => c == 'i' && x == if u < 2147483648 {
            u as int
        } else {
            u - 4294967296
        },
        ValueView::Uint32(x) => c == 'u' && x == u,
        ValueView::Int64(x) => c == 'x' && x == if u < 9223372036854775808 {
            u as int
        } else {
            u - 18446744073709551616
        },
        ValueView::Uint64(x) => c == 't' && x == u,
        ValueView::Double(x) => c == 'd' && x == u,
        _ => false,
    }
}

/// How many bytes a number of the type `c` has; none, if `c` is no type of numbers.
pub open spec fn width(c: char) -> nat {
    match c {
        'y' => 1,
        'n' | 'q' => 2,
        'b' | 'i' | 'u' => 4,
        'x' | 't' | 'd' => 8,
        _ => 0,
    }
}

proof fn lemma_pow256()
    ensures
        pow(256, 1) == 256,
        pow(256, 2) == 65536,
        pow(256, 4) == 4294967296,
        pow(256, 8) == 18446744073709551616,
{
    reveal_with_fuel(pow, 10);
}

/// Reading a number takes its bytes from the next multiple of their number, whatever stands
/// before, and gives the value that they stand for; where bytes are missing, it fails.
#[verifier::spinoff_prover]
#[verifier::rlimit(40)]
pub proof fn law_read_numbers(b: Seq<u8>, le: bool, pos: nat, s: Seq<char>)
    requires
        s.len() > 0,
        width(s[0]) > 0,
        b.len() <= usize::MAX,
        pos <= b.len(),
    ensures
        ({
            let n = width(s[0]);
            let p = pos + (n - pos % n) % n as int;
            let r = read_step(b, le, pos, s);
            if p + n <= b.len() {
                &&& r.out matches Ok(v) && exists|u: nat|
                    #![trigger stands_for(s[0], u, v)]
                    number_stands(b, p, n, u, le) && u < pow(256, n) && stands_for(s[0], u, v)
                &&& pos + r.used == p + n
            } else {
                r.out is Err
            }
        }),
{
    reveal(plain_step);
    let c = s[0];
    let n = width(c);
    assert(type_len(s, 0) is Ok);
    let p = pos + (n - pos % n) % n as int;
    lemma_aligned(pos, n, seq![]);
    if p + n <= b.len() {
        let u = number_value(b.subrange(p, p + n), le);
        lemma_number_stands(b, p, n, le);
        lemma_pow256();
        let r = read_step(b, le, pos, s);
        let x = u as u16;
        let y = u as u32;
        let z = u as u64;
        assert(x as i16 == if x < 32768 {
            x as int
        } else {
            x - 65536
        }) by (bit_vector);
        assert(y as i32 == if y < 2147483648 {
            y as int
        } else {
            y - 4294967296
        }) by (bit_vector);
        assert(z as i64 == if z < 9223372036854775808 {
            z as int
        } else {
            z - 18446744073709551616
        }) by (bit_vector);
        assert(stands_for(c, u, r.out->Ok_0));
    }
}

/// Reading a truth value gives true where the aligned number is 1, or any other than 0, and
/// false where it is 0.
pub proof fn law_read_bool(b: Seq<u8>, le: bool, pos: nat)
    requires
        b.len() <= usize::MAX,
        pos + (4 - pos as int % 4) % 4 + 4 <= b.len(),
    ensures
        ({
            let p = pos + (4 - pos as int % 4) % 4;
            let four = b.subrange(p, p + 4);
            let r = read_step(b, le, pos, seq!['b']);
            &&& four == seq![1u8, 0u8, 0u8, 0u8] || four == seq![0u8, 0u8, 0u8, 1u8] ==> r.out
                == Ok::<ValueView, ErrorView>(ValueView::Bool(true))
            &&& four == seq![0u8, 0u8, 0u8, 0u8] ==> r.out == Ok::<ValueView, ErrorView>(
                ValueView::Bool(false),
            )
            &&& four != seq![0u8, 0u8, 0u8, 0u8] ==> r.out == Ok::<ValueView, ErrorView>(
                ValueView::Bool(true),
            )
            &&& pos + r.used == p + 4
        }),
{
    let p = pos + (4 - pos as int % 4) % 4;
    let four = b.subrange(p, p + 4);
    lemma_truth_read(b, le, pos);
    lemma_four_zeros(four, le);
    assert(seq![1u8, 0u8, 0u8, 0u8][0] != seq![0u8, 0u8, 0u8, 0u8][0]);
    assert(seq![0u8, 0u8, 0u8, 1u8][3] != seq![0u8, 0u8, 0u8, 0u8][3]);
}

#[verifier::spinoff_prover]
proof fn lemma_truth_read(b: Seq<u8>, le: bool, pos: nat)
    requires
        b.len() <= usize::MAX,
        pos + (4 - pos as int % 4) % 4 + 4 <= b.len(),
    ensures
        ({
            let p = pos + (4 - pos as int % 4) % 4;
            let r = read_step(b, le, pos, seq!['b']);
            &&& r.out == Ok::<ValueView, ErrorView>(
                ValueView::Bool(number_value(b.subrange(p, p + 4), le) != 0),
            )
            &&& pos + r.used == p + 4
        }),
{
    reveal(plain_step);
    assert(type_len(seq!['b'], 0) is Ok);
}

#[verifier::spinoff_prover]
proof fn lemma_four_zeros(four: Seq<u8>, le: bool)
    requires
        four.len() == 4,
    ensures
        number_value(four, le) == 0 <==> four == seq![0u8, 0u8, 0u8, 0u8],
{
    let s = if le {
        four
    } else {
        four.reverse()
    };
    let t = s.drop_first();
    let u = t.drop_first();
    let v = u.drop_first();
    assert(le_value(v.drop_first()) == 0);
    assert(le_value(v) == s[3]);
    assert(le_value(u) == s[2] + 256 * s[3]);
    assert(le_value(t) == s[1] + 256 * (s[2] + 256 * s[3]));
    assert(le_value(s) == s[0] + 256 * (s[1] + 256 * (s[2] + 256 * s[3])));
    if le_value(s) == 0 {
        assert(s[0] == 0 && s[1] == 0 && s[2] == 0 && s[3] == 0);
        assert(four =~= seq![0u8, 0u8, 0u8, 0u8]);
    }
}

/// Reading a text takes its length, as a number of four aligned bytes, or of one byte for a
/// signature, then so many bytes as UTF-8, and passes over the byte behind them.
#[verifier::spinoff_prover]
#[verifier::rlimit(40)]
pub proof fn law_read_texts(b: Seq<u8>, le: bool, pos: nat, s: Seq<char>, p: int, n: nat)
    requires
        s.len() > 0,
        b.len() <= usize::MAX,
        s[0] == 's' || s[0] == 'o' || s[0] == 'g',
        if s[0] == 'g' {
            p == pos + 1 && pos < b.len() && n == b[pos as int]
        } else {
            p == pos + (4 - pos as int % 4) % 4 + 4 && p <= b.len() && n < pow(256, 4)
                && number_stands(b, p - 4, 4, n, le)
        },
    ensures
        ({
            let r = read_step(b, le, pos, s);
            let t = b.subrange(p, p + n);
            if p + n + 1 <= b.len() && valid_utf8(t) {
                &&& r.out == Ok::<ValueView, ErrorView>(
                    if s[0] == 's' {
                        ValueView::String(decode_utf8(t))
                    } else if s[0] == 'o' {
                        ValueView::ObjectPath(decode_utf8(t))
                    } else {
                        ValueView::Signature(decode_utf8(t))
                    },
                )
                &&& pos + r.used == p + n + 1
            } else {
                r.out is Err
            }
        }),
{
    reveal(plain_step);
    assert(type_len(s, 0) is Ok);
    if s[0] != 'g' {
        lemma_number_stands(b, p - 4, 4, le);
        lemma_same_number(b, p - 4, 4, n, number_value(b.subrange(p - 4, p), le), le);
    }
}

proof fn lemma_same_number(b: Seq<u8>, p: int, n: nat, u: nat, v: nat, le: bool)
    requires
        number_stands(b, p, n, u, le),
        number_stands(b, p, n, v, le),
        u < pow(256, n),
        v < pow(256, n),
    ensures
        u == v,
{
    assert forall|k: nat| k < n implies byte_of(u, k) == #[trigger] byte_of(v, k) by {
        assert(b[p + (if le {
            k as int
        } else {
            n - 1 - k
        })] == byte_of(u, k));
    }
    lemma_bytes_decide(u, v, n);
}

proof fn lemma_bytes_decide(u: nat, v: nat, n: nat)
    requires
        u < pow(256, n),
        v < pow(256, n),
        forall|k: nat| k < n ==> byte_of(u, k) == #[trigger] byte_of(v, k),
    ensures
        u == v,
    decreases n,
{
    reveal(pow);
    if n > 0 {
        let m = (n - 1) as nat;
        assert forall|k: nat| k < m implies byte_of(u / 256, k) == #[trigger] byte_of(
            v / 256,
            k,
        ) by {
            lemma_pow_positive(256, k);
            lemma_div_denominator(u as int, 256, pow(256, k));
            lemma_div_denominator(v as int, 256, pow(256, k));
            assert(byte_of(u, k + 1) == byte_of(v, k + 1));
        }
        assert(u / 256 < pow(256, m)) by (nonlinear_arith)
            requires
                u < 256 * pow(256, m),
        ;
        assert(v / 256 < pow(256, m)) by (nonlinear_arith)
            requires
                v < 256 * pow(256, m),
        ;
        lemma_bytes_decide(u / 256, v / 256, m);
        assert(byte_of(u, 0) == byte_of(v, 0));
        lemma_pow0(256);
    }
}

} // verus!
