//! What is written is read back.

use crate::dbus::marshal::{
    array_encoding, body_start, encoding, encodings, entry_encoding, entry_encodings,
    le_bytes,
    lemma_number_bytes_len, number_bytes, number_encoding, pad, padding, signature_encoding,
    string_encoding,
};
use crate::dbus::signature::{
    alignment, basic, fields_len, is_type, lemma_type_len_bounds, lemma_type_stands, type_len,
};
use crate::dbus::unmarshal::{
    array_step, dict_step, entries_step, entry_step, fields_step, gap, items_step, le_value,
    number_step, number_value, plain_step, pow256, read_step, signature_step, string_step,
    struct_step, text_step, value_step, variant_step, Step,
};
use crate::dbus::value::{sig_of, sigs_of, ValueView};
use crate::error::ErrorView;
use crate::text::{lemma_stands_char, lemma_stands_split, stands_at};
use vstd::prelude::*;
use vstd::utf8::*;

verus! {

/// A structure that takes no bytes: it holds nothing, or only such structures.
pub open spec fn hollow(v: ValueView) -> bool
    decreases v,
{
    match v {
        ValueView::Struct(items) => all_hollow(items),
        _ => false,
    }
}

/// Structures that take no bytes.
pub open spec fn all_hollow(items: Seq<ValueView>) -> bool
    decreases items,
{
    items.len() == 0 || (hollow(items[0]) && all_hollow(items.drop_first()))
}

/// Whether a value, written at position `pos`, can be read back.
///
/// What an array or a dictionary holds has the types that it names, the keys of a
/// dictionary are basic, lengths fit the numbers that they are written as, and no
/// array holds structures that take no bytes, for these cannot be counted.
pub open spec fn faithful(v: ValueView, le: bool, pos: nat) -> bool
    decreases v, 0nat,
{
    match v {
        ValueView::String(s) => encode_utf8(s).len() <= u32::MAX,
        ValueView::ObjectPath(s) => encode_utf8(s).len() <= u32::MAX,
        ValueView::Signature(s) => encode_utf8(s).len() <= 255,
        ValueView::Variant(b) => {
            &&& encode_utf8(sig_of(*b)).len() <= 255
            &&& faithful(*b, le, pos + signature_encoding(sig_of(*b)).len())
        },
        ValueView::Struct(items) => all_faithful(items, le, pos + pad(pos, 8)),
        ValueView::Array(t, items) => {
            let start = body_start(pos, alignment(t));
            &&& is_type(t)
            &&& encodings(items, le, start).len() <= u32::MAX
            &&& forall|i: int|
                0 <= i < items.len() ==> sig_of(#[trigger] items[i]) == t && !hollow(items[i])
            &&& all_faithful(items, le, start)
        },
        ValueView::Dict(k, t, entries) => {
            let start = body_start(pos, 8);
            &&& basic(k)
            &&& is_type(t)
            &&& entry_encodings(entries, le, start).len() <= u32::MAX
            &&& forall|i: int|
                0 <= i < entries.len() ==> sig_of((#[trigger] entries[i]).0) == k && sig_of(
                    entries[i].1,
                ) == t
            &&& entries_faithful(entries, le, start)
        },
        _ => true,
    }
}

/// Whether values, written one after the other from position `pos` on, can be read back.
pub open spec fn all_faithful(items: Seq<ValueView>, le: bool, pos: nat) -> bool
    decreases items, 0nat,
{
    items.len() == 0 || {
        &&& faithful(items[0], le, pos)
        &&& all_faithful(items.drop_first(), le, pos + encoding(items[0], le, pos).len())
    }
}

/// Whether a dictionary entry, written at position `pos`, can be read back.
pub open spec fn entry_faithful(entry: (ValueView, ValueView), le: bool, pos: nat) -> bool
    decreases entry, 1nat,
{
    let p = pos + pad(pos, 8);
    faithful(entry.0, le, p) && faithful(entry.1, le, p + encoding(entry.0, le, p).len())
}

/// Whether dictionary entries, written from position `pos` on, can be read back.
pub open spec fn entries_faithful(
    entries: Seq<(ValueView, ValueView)>,
    le: bool,
    pos: nat,
) -> bool
    decreases entries, 0nat,
{
    entries.len() == 0 || {
        &&& entry_faithful(entries[0], le, pos)
        &&& entries_faithful(
            entries.drop_first(),
            le,
            pos + entry_encoding(entries[0], le, pos).len(),
        )
    }
}

/// The bytes `e` stand in `b` from position `pos` on.
pub open spec fn holds_at(b: Seq<u8>, pos: nat, e: Seq<u8>) -> bool {
    pos + e.len() <= b.len() && b.subrange(pos as int, (pos + e.len()) as int) == e
}

pub proof fn lemma_holds_split(b: Seq<u8>, pos: nat, x: Seq<u8>, y: Seq<u8>)
    requires
        holds_at(b, pos, x + y),
    ensures
        holds_at(b, pos, x),
        holds_at(b, pos + x.len(), y),
{
    let all = b.subrange(pos as int, (pos + (x + y).len()) as int);
    assert(b.subrange(pos as int, (pos + x.len()) as int) =~= all.take(x.len() as int));
    assert((x + y).take(x.len() as int) =~= x);
    assert(b.subrange((pos + x.len()) as int, (pos + x.len() + y.len()) as int) =~= all.skip(
        x.len() as int,
    ));
    assert((x + y).skip(x.len() as int) =~= y);
}

proof fn lemma_le_round(v: nat, n: nat)
    requires
        v < pow256(n),
    ensures
        le_value(le_bytes(v, n)) == v,
    decreases n,
{
    if n > 0 {
        lemma_le_round(v / 256, (n - 1) as nat);
        let b = le_bytes(v, n);
        assert(b.drop_first() =~= le_bytes(v / 256, (n - 1) as nat));
    }
}

/// A number is the value of its bytes.
pub proof fn law_number_round(v: nat, n: nat, le: bool)
    requires
        v < pow256(n),
    ensures
        number_value(number_bytes(v, n, le), le) == v,
{
    lemma_le_round(v, n);
    assert(le_bytes(v, n).reverse().reverse() =~= le_bytes(v, n));
}

proof fn lemma_number_read(b: Seq<u8>, le: bool, pos: nat, v: nat, n: nat)
    requires
        0 < n,
        v < pow256(n),
        b.len() <= usize::MAX,
        holds_at(b, pos, number_encoding(v, n, le, pos)),
    ensures
        number_step(b, le, pos, n) == (Step {
            used: number_encoding(v, n, le, pos).len(),
            out: Ok::<nat, ErrorView>(v),
        }),
        gap(pos, n) == pad(pos, n),
        number_encoding(v, n, le, pos).len() == pad(pos, n) + n,
{
    reveal(number_encoding);
    lemma_number_bytes_len(v, n, le);
    lemma_holds_split(b, pos, padding(pos, n), number_bytes(v, n, le));
    law_number_round(v, n, le);
}

proof fn lemma_text_read(b: Seq<u8>, pos: nat, s: Seq<char>, complaint: Seq<char>)
    requires
        holds_at(b, pos, encode_utf8(s) + seq![0u8]),
    ensures
        text_step(b, pos, encode_utf8(s).len(), complaint) == (Step {
            used: encode_utf8(s).len() + 1,
            out: Ok::<Seq<char>, ErrorView>(s),
        }),
{
    lemma_holds_split(b, pos, encode_utf8(s), seq![0u8]);
    encode_utf8_valid_utf8(s);
    encode_utf8_decode_utf8(s);
}

proof fn lemma_string_read(b: Seq<u8>, le: bool, pos: nat, s: Seq<char>)
    requires
        encode_utf8(s).len() <= u32::MAX,
        b.len() <= usize::MAX,
        holds_at(b, pos, string_encoding(s, le, pos)),
    ensures
        string_step(b, le, pos) == (Step {
            used: string_encoding(s, le, pos).len(),
            out: Ok::<Seq<char>, ErrorView>(s),
        }),
{
    reveal(string_encoding);
    let n = encode_utf8(s).len();
    reveal_with_fuel(pow256, 5);
    let head = number_encoding(n, 4, le, pos);
    assert(string_encoding(s, le, pos) =~= head + (encode_utf8(s) + seq![0u8]));
    lemma_holds_split(b, pos, head, encode_utf8(s) + seq![0u8]);
    lemma_number_read(b, le, pos, n, 4);
    lemma_text_read(b, pos + head.len(), s, "字符串不是合法 UTF-8: "@);
}

proof fn lemma_signature_read(b: Seq<u8>, pos: nat, s: Seq<char>)
    requires
        encode_utf8(s).len() <= 255,
        b.len() <= usize::MAX,
        holds_at(b, pos, signature_encoding(s)),
    ensures
        signature_step(b, pos) == (Step {
            used: signature_encoding(s).len(),
            out: Ok::<Seq<char>, ErrorView>(s),
        }),
        signature_encoding(s).len() >= 2,
{
    reveal(signature_encoding);
    let n = encode_utf8(s).len();
    let head = seq![n as u8];
    assert(signature_encoding(s) =~= head + (encode_utf8(s) + seq![0u8]));
    lemma_holds_split(b, pos, head, encode_utf8(s) + seq![0u8]);
    assert(b[pos as int] == b.subrange(pos as int, (pos + 1) as int)[0]);
    lemma_text_read(b, pos + 1, s, "签名不是合法 UTF-8: "@);
}

/// The signature of a value that can be read back is one complete type.
pub proof fn law_signature_is_type(v: ValueView, le: bool, pos: nat)
    requires
        faithful(v, le, pos),
    ensures
        is_type(sig_of(v)),
        sig_of(v).len() > 0,
        sig_of(v)[0] != ')',
    decreases v,
{
    let t = sig_of(v);
    match v {
        ValueView::Array(elem, items) => {
            lemma_type_len_bounds(elem, 0);
            assert(t.subrange(1, t.len() as int) =~= elem);
            lemma_type_stands(elem, t, 1);
            assert(t[1] == elem[0]);
            assert(elem[0] != '{');
        },
        ValueView::Dict(k, val, entries) => {
            lemma_type_len_bounds(val, 0);
            assert(type_len(k, 0) == Ok::<nat, ErrorView>(1));
            assert(t.subrange(2, 3) =~= k);
            lemma_type_stands(k, t, 2);
            assert(t.subrange(3, 3 + val.len() as int) =~= val);
            lemma_type_stands(val, t, 3);
        },
        ValueView::Struct(items) => {
            let inner = sigs_of(items) + seq![')'];
            assert(t =~= seq!['('] + inner);
            assert(t.subrange(1, (1 + inner.len()) as int) =~= inner);
            lemma_fields_stand(items, le, pos + pad(pos, 8), t, 1);
        },
        _ => {},
    }
}

/// The fields of a structure are found wherever their types stand.
proof fn lemma_fields_stand(items: Seq<ValueView>, le: bool, pos: nat, s: Seq<char>, i: nat)
    requires
        all_faithful(items, le, pos),
        stands_at(sigs_of(items) + seq![')'], s, i),
    ensures
        fields_len(s, i) == Ok::<nat, ErrorView>(sigs_of(items).len() + 1),
    decreases items,
{
    let inner = sigs_of(items) + seq![')'];
    lemma_stands_char(inner, s, i, 0);
    if items.len() > 0 {
        let first = sig_of(items[0]);
        let rest = items.drop_first();
        law_signature_is_type(items[0], le, pos);
        assert(inner =~= first + (sigs_of(rest) + seq![')']));
        lemma_stands_split(s, i, first, sigs_of(rest) + seq![')']);
        lemma_type_stands(first, s, i);
        lemma_fields_stand(rest, le, pos + encoding(items[0], le, pos).len(), s, i + first.len());
    }
}

/// Only a hollow structure takes no bytes.
pub proof fn lemma_takes_bytes(v: ValueView, le: bool, pos: nat)
    requires
        !hollow(v),
    ensures
        encoding(v, le, pos).len() > 0,
    decreases v,
{
    reveal(number_encoding);
    reveal(string_encoding);
    reveal(signature_encoding);
    reveal(array_encoding);
    match v {
        ValueView::Bool(b) => lemma_number_bytes_len(if b { 1 } else { 0 }, 4, le),
        ValueView::Int16(x) => lemma_number_bytes_len(x as u16 as nat, 2, le),
        ValueView::Uint16(x) => lemma_number_bytes_len(x as nat, 2, le),
        ValueView::Int32(x) => lemma_number_bytes_len(x as u32 as nat, 4, le),
        ValueView::Uint32(x) => lemma_number_bytes_len(x as nat, 4, le),
        ValueView::Int64(x) => lemma_number_bytes_len(x as u64 as nat, 8, le),
        ValueView::Uint64(x) => lemma_number_bytes_len(x as nat, 8, le),
        ValueView::Double(x) => lemma_number_bytes_len(x as nat, 8, le),
        ValueView::Array(t, items) => {
            let body = encodings(items, le, body_start(pos, alignment(t)));
            lemma_number_bytes_len(body.len() as u32 as nat, 4, le);
        },
        ValueView::Dict(_, _, entries) => {
            let body = entry_encodings(entries, le, body_start(pos, 8));
            lemma_number_bytes_len(body.len() as u32 as nat, 4, le);
        },
        ValueView::Struct(items) => {
            lemma_some_takes_bytes(items, le, pos + pad(pos, 8));
        },
        _ => {},
    }
}

proof fn lemma_some_takes_bytes(items: Seq<ValueView>, le: bool, pos: nat)
    requires
        !all_hollow(items),
    ensures
        encodings(items, le, pos).len() > 0,
    decreases items,
{
    if hollow(items[0]) {
        lemma_some_takes_bytes(items.drop_first(), le, pos + encoding(items[0], le, pos).len());
    } else {
        lemma_takes_bytes(items[0], le, pos);
    }
}

pub proof fn lemma_pow256_values()
    ensures
        pow256(1) == 0x100,
        pow256(2) == 0x1_0000,
        pow256(4) == 0x1_0000_0000,
        pow256(8) == 0x1_0000_0000_0000_0000,
{
    reveal_with_fuel(pow256, 9);
}

proof fn lemma_plain_read(v: ValueView, le: bool, pos: nat, b: Seq<u8>)
    requires
        faithful(v, le, pos),
        b.len() <= usize::MAX,
        holds_at(b, pos, encoding(v, le, pos)),
        !(v is Variant || v is Struct || v is Array || v is Dict),
    ensures
        plain_step(b, le, pos, sig_of(v)[0]) == (Step {
            used: encoding(v, le, pos).len(),
            out: Ok::<ValueView, ErrorView>(v),
        }),
{
    match v {
        ValueView::Byte(x) => lemma_byte_read(x, le, pos, b),
        ValueView::String(x) => {
            reveal(plain_step);
            lemma_string_read(b, le, pos, x);
        },
        ValueView::ObjectPath(x) => {
            reveal(plain_step);
            lemma_string_read(b, le, pos, x);
        },
        ValueView::Signature(x) => {
            reveal(plain_step);
            lemma_signature_read(b, pos, x);
        },
        _ => lemma_numeric_read(v, le, pos, b),
    }
}

proof fn lemma_byte_read(x: u8, le: bool, pos: nat, b: Seq<u8>)
    requires
        b.len() <= usize::MAX,
        holds_at(b, pos, seq![x]),
    ensures
        plain_step(b, le, pos, 'y') == (Step {
            used: 1,
            out: Ok::<ValueView, ErrorView>(ValueView::Byte(x)),
        }),
{
    reveal(number_encoding);
    reveal(plain_step);
    lemma_pow256_values();
    reveal_with_fuel(le_bytes, 2);
    assert(le_bytes(x as nat, 1) =~= seq![x]);
    assert(seq![x].reverse() =~= seq![x]);
    assert(number_encoding(x as nat, 1, le, pos) =~= seq![x]);
    lemma_number_read(b, le, pos, x as nat, 1);
}

proof fn lemma_numeric_read(v: ValueView, le: bool, pos: nat, b: Seq<u8>)
    requires
        b.len() <= usize::MAX,
        holds_at(b, pos, encoding(v, le, pos)),
        v is Bool || v is Int16 || v is Uint16 || v is Int32 || v is Uint32 || v is Int64
            || v is Uint64 || v is Double,
    ensures
        plain_step(b, le, pos, sig_of(v)[0]) == (Step {
            used: encoding(v, le, pos).len(),
            out: Ok::<ValueView, ErrorView>(v),
        }),
{
    reveal(plain_step);
    lemma_pow256_values();
    match v {
        ValueView::Bool(x) => lemma_number_read(b, le, pos, if x { 1 } else { 0 }, 4),
        ValueView::Int16(x) => {
            assert(x as u16 as i16 == x) by (bit_vector);
            lemma_number_read(b, le, pos, x as u16 as nat, 2);
        },
        ValueView::Uint16(x) => lemma_number_read(b, le, pos, x as nat, 2),
        ValueView::Int32(x) => {
            assert(x as u32 as i32 == x) by (bit_vector);
            lemma_number_read(b, le, pos, x as u32 as nat, 4);
        },
        ValueView::Uint32(x) => lemma_number_read(b, le, pos, x as nat, 4),
        ValueView::Int64(x) => {
            assert(x as u64 as i64 == x) by (bit_vector);
            lemma_number_read(b, le, pos, x as u64 as nat, 8);
        },
        ValueView::Uint64(x) => lemma_number_read(b, le, pos, x as nat, 8),
        ValueView::Double(x) => lemma_number_read(b, le, pos, x as nat, 8),
        _ => {},
    }
}

/// What stands before the body of an array is read back.
proof fn lemma_array_head_read(body: Seq<u8>, align: nat, le: bool, pos: nat, b: Seq<u8>)
    requires
        align > 0,
        body.len() <= u32::MAX,
        b.len() <= usize::MAX,
        holds_at(b, pos, array_encoding(body, align, le, pos)),
    ensures
        number_step(b, le, pos, 4) == (Step {
            used: pad(pos, 4) + 4,
            out: Ok::<nat, ErrorView>(body.len()),
        }),
        gap(pos + pad(pos, 4) + 4, align) == pad(pos + pad(pos, 4) + 4, align),
        holds_at(b, body_start(pos, align), body),
        array_encoding(body, align, le, pos).len() == body_start(pos, align) - pos + body.len(),
{
    reveal(array_encoding);
    reveal_with_fuel(pow256, 5);
    let head = number_encoding(body.len(), 4, le, pos);
    let fill = padding(pos + pad(pos, 4) + 4, align);
    assert(array_encoding(body, align, le, pos) =~= head + (fill + body));
    lemma_holds_split(b, pos, head, fill + body);
    lemma_number_read(b, le, pos, body.len(), 4);
    lemma_holds_split(b, pos + head.len(), fill, body);
}

/// Reading gives back what was written, and moves just behind it: whatever
/// stands before and after the bytes, wherever the type stands in a signature.
#[verifier::rlimit(40)]
#[verifier::spinoff_prover]
pub proof fn law_value_round(
    v: ValueView,
    le: bool,
    pos: nat,
    b: Seq<u8>,
    s: Seq<char>,
    i: nat,
)
    requires
        faithful(v, le, pos),
        stands_at(sig_of(v), s, i),
        b.len() <= usize::MAX,
        holds_at(b, pos, encoding(v, le, pos)),
    ensures
        value_step(b, le, pos, s, i) == (Step {
            used: encoding(v, le, pos).len(),
            out: Ok::<ValueView, ErrorView>(v),
        }),
    decreases v, 0nat,
{
    law_signature_is_type(v, le, pos);
    lemma_stands_char(sig_of(v), s, i, 0);
    match v {
        ValueView::Variant(x) => lemma_variant_round(*x, le, pos, b),
        ValueView::Struct(items) => lemma_struct_round(items, le, pos, b, s, i),
        ValueView::Array(elem, items) => {
            lemma_type_len_bounds(elem, 0);
            lemma_stands_char(sig_of(v), s, i, 1);
            lemma_array_round(elem, items, le, pos, b, s, i);
        },
        ValueView::Dict(k, val, entries) => {
            lemma_stands_char(sig_of(v), s, i, 1);
            lemma_dict_round(k, val, entries, le, pos, b, s, i);
        },
        _ => lemma_plain_read(v, le, pos, b),
    }
}

/// A value that is written behind some bytes is read back from there with its own
/// signature, whatever follows it.
pub proof fn law_write_then_read(before: Seq<u8>, v: ValueView, le: bool, after: Seq<u8>)
    requires
        faithful(v, le, before.len()),
        (before + encoding(v, le, before.len()) + after).len() <= usize::MAX,
    ensures
        read_step(
            before + encoding(v, le, before.len()) + after,
            le,
            before.len(),
            sig_of(v),
        ) == (Step {
            used: encoding(v, le, before.len()).len(),
            out: Ok::<ValueView, ErrorView>(v),
        }),
{
    let e = encoding(v, le, before.len());
    let b = before + e + after;
    let t = sig_of(v);
    assert(b.subrange(before.len() as int, (before.len() + e.len()) as int) =~= e);
    assert(t.subrange(0, t.len() as int) =~= t);
    law_signature_is_type(v, le, before.len());
    law_value_round(v, le, before.len(), b, t, 0);
}

#[verifier::rlimit(40)]
#[verifier::spinoff_prover]
proof fn lemma_variant_round(x: ValueView, le: bool, pos: nat, b: Seq<u8>)
    requires
        faithful(ValueView::Variant(Box::new(x)), le, pos),
        b.len() <= usize::MAX,
        holds_at(b, pos, encoding(ValueView::Variant(Box::new(x)), le, pos)),
    ensures
        variant_step(b, le, pos) == (Step {
            used: encoding(ValueView::Variant(Box::new(x)), le, pos).len(),
            out: Ok::<ValueView, ErrorView>(ValueView::Variant(Box::new(x))),
        }),
    decreases x, 1nat,
{
    let head = signature_encoding(sig_of(x));
    lemma_holds_split(b, pos, head, encoding(x, le, pos + head.len()));
    lemma_signature_read(b, pos, sig_of(x));
    law_signature_is_type(x, le, pos + head.len());
    assert(sig_of(x).subrange(0, sig_of(x).len() as int) =~= sig_of(x));
    law_value_round(x, le, pos + head.len(), b, sig_of(x), 0);
}

#[verifier::rlimit(40)]
#[verifier::spinoff_prover]
proof fn lemma_struct_round(
    items: Seq<ValueView>,
    le: bool,
    pos: nat,
    b: Seq<u8>,
    s: Seq<char>,
    i: nat,
)
    requires
        all_faithful(items, le, pos + pad(pos, 8)),
        stands_at(seq!['('] + sigs_of(items) + seq![')'], s, i),
        b.len() <= usize::MAX,
        holds_at(b, pos, padding(pos, 8) + encodings(items, le, pos + pad(pos, 8))),
    ensures
        struct_step(b, le, pos, s, i) == (Step {
            used: (padding(pos, 8) + encodings(items, le, pos + pad(pos, 8))).len(),
            out: Ok::<ValueView, ErrorView>(ValueView::Struct(items)),
        }),
    decreases items, 1nat,
{
    let p = pos + pad(pos, 8);
    lemma_holds_split(b, pos, padding(pos, 8), encodings(items, le, p));
    assert(seq!['('] + sigs_of(items) + seq![')'] =~= seq!['('] + (sigs_of(items) + seq![')']));
    lemma_stands_split(s, i, seq!['('], sigs_of(items) + seq![')']);
    lemma_fields_round(items, le, p, b, s, i + 1);
}

#[verifier::rlimit(40)]
#[verifier::spinoff_prover]
proof fn lemma_array_round(
    elem: Seq<char>,
    items: Seq<ValueView>,
    le: bool,
    pos: nat,
    b: Seq<u8>,
    s: Seq<char>,
    i: nat,
)
    requires
        is_type(elem),
        encodings(items, le, body_start(pos, alignment(elem))).len() <= u32::MAX,
        all_faithful(items, le, body_start(pos, alignment(elem))),
        forall|k: int|
            0 <= k < items.len() ==> sig_of(#[trigger] items[k]) == elem && !hollow(items[k]),
        stands_at(seq!['a'] + elem, s, i),
        b.len() <= usize::MAX,
        holds_at(b, pos, encoding(ValueView::Array(elem, items), le, pos)),
    ensures
        array_step(b, le, pos, s, i) == (Step {
            used: encoding(ValueView::Array(elem, items), le, pos).len(),
            out: Ok::<ValueView, ErrorView>(ValueView::Array(elem, items)),
        }),
    decreases items, 1nat,
{
    let start = body_start(pos, alignment(elem));
    let body = encodings(items, le, start);
    lemma_array_head_read(body, alignment(elem), le, pos, b);
    lemma_stands_split(s, i, seq!['a'], elem);
    lemma_type_stands(elem, s, i + 1);
    lemma_items_round(items, elem, le, start, b, s, i + 1);
}

#[verifier::rlimit(40)]
#[verifier::spinoff_prover]
proof fn lemma_dict_round(
    k: Seq<char>,
    val: Seq<char>,
    entries: Seq<(ValueView, ValueView)>,
    le: bool,
    pos: nat,
    b: Seq<u8>,
    s: Seq<char>,
    i: nat,
)
    requires
        basic(k),
        is_type(val),
        entry_encodings(entries, le, body_start(pos, 8)).len() <= u32::MAX,
        entries_faithful(entries, le, body_start(pos, 8)),
        forall|n: int|
            0 <= n < entries.len() ==> sig_of((#[trigger] entries[n]).0) == k && sig_of(
                entries[n].1,
            ) == val,
        stands_at(seq!['a', '{'] + k + val + seq!['}'], s, i),
        b.len() <= usize::MAX,
        holds_at(b, pos, encoding(ValueView::Dict(k, val, entries), le, pos)),
    ensures
        dict_step(b, le, pos, s, i) == (Step {
            used: encoding(ValueView::Dict(k, val, entries), le, pos).len(),
            out: Ok::<ValueView, ErrorView>(ValueView::Dict(k, val, entries)),
        }),
    decreases entries, 1nat,
{
    let start = body_start(pos, 8);
    let body = entry_encodings(entries, le, start);
    lemma_array_head_read(body, 8, le, pos, b);
    assert(seq!['a', '{'] + k + val + seq!['}'] =~= seq!['a', '{'] + (k + (val + seq!['}'])));
    lemma_stands_split(s, i, seq!['a', '{'], k + (val + seq!['}']));
    lemma_stands_split(s, i + 2, k, val + seq!['}']);
    lemma_stands_split(s, i + 3, val, seq!['}']);
    assert(type_len(k, 0) == Ok::<nat, ErrorView>(1));
    lemma_type_stands(k, s, i + 2);
    lemma_type_stands(val, s, i + 3);
    lemma_entries_round(entries, k, val, le, start, b, s, i + 2, i + 3);
}

/// One entry of a dictionary is read back.
#[verifier::rlimit(40)]
#[verifier::spinoff_prover]
proof fn lemma_entry_round(
    entry: (ValueView, ValueView),
    le: bool,
    pos: nat,
    b: Seq<u8>,
    s: Seq<char>,
    i: nat,
    j: nat,
)
    requires
        entry_faithful(entry, le, pos),
        basic(sig_of(entry.0)),
        stands_at(sig_of(entry.0), s, i),
        stands_at(sig_of(entry.1), s, j),
        b.len() <= usize::MAX,
        holds_at(b, pos, entry_encoding(entry, le, pos)),
    ensures
        entry_encoding(entry, le, pos).len() > 0,
        entry_step(b, le, pos, s, i, j) == (Step {
            used: entry_encoding(entry, le, pos).len(),
            out: Ok::<(ValueView, ValueView), ErrorView>(entry),
        }),
    decreases entry, 2nat,
{
    let p = pos + pad(pos, 8);
    let k = encoding(entry.0, le, p);
    let v = encoding(entry.1, le, p + k.len());
    lemma_holds_split(b, pos, padding(pos, 8) + k, v);
    lemma_holds_split(b, pos, padding(pos, 8), k);
    assert(k.len() > 0) by {
        lemma_basic_not_hollow(entry.0);
        lemma_takes_bytes(entry.0, le, p);
    }
    law_value_round(entry.0, le, p, b, s, i);
    law_value_round(entry.1, le, p + k.len(), b, s, j);
    lemma_entry_joins(b, le, pos, s, i, j, k.len(), v.len(), entry);
}

proof fn lemma_basic_not_hollow(v: ValueView)
    requires
        basic(sig_of(v)),
    ensures
        !hollow(v),
{
    if let ValueView::Struct(items) = v {
        assert(sig_of(v)[0] == '(');
    }
}

proof fn lemma_entry_joins(
    b: Seq<u8>,
    le: bool,
    pos: nat,
    s: Seq<char>,
    i: nat,
    j: nat,
    k: nat,
    v: nat,
    entry: (ValueView, ValueView),
)
    requires
        pos + pad(pos, 8) <= usize::MAX,
        value_step(b, le, pos + pad(pos, 8), s, i) == (Step {
            used: k,
            out: Ok::<ValueView, ErrorView>(entry.0),
        }),
        value_step(b, le, pos + pad(pos, 8) + k, s, j) == (Step {
            used: v,
            out: Ok::<ValueView, ErrorView>(entry.1),
        }),
    ensures
        entry_step(b, le, pos, s, i, j) == (Step {
            used: pad(pos, 8) + k + v,
            out: Ok::<(ValueView, ValueView), ErrorView>(entry),
        }),
{
}

#[verifier::rlimit(40)]
#[verifier::spinoff_prover]
proof fn lemma_fields_round(
    items: Seq<ValueView>,
    le: bool,
    pos: nat,
    b: Seq<u8>,
    s: Seq<char>,
    i: nat,
)
    requires
        all_faithful(items, le, pos),
        stands_at(sigs_of(items) + seq![')'], s, i),
        b.len() <= usize::MAX,
        holds_at(b, pos, encodings(items, le, pos)),
    ensures
        fields_step(b, le, pos, s, i) == (Step {
            used: encodings(items, le, pos).len(),
            out: Ok::<Seq<ValueView>, ErrorView>(items),
        }),
    decreases items, 0nat,
{
    let inner = sigs_of(items) + seq![')'];
    lemma_stands_char(inner, s, i, 0);
    if items.len() == 0 {
        assert(items =~= seq![]);
    } else {
        let first = sig_of(items[0]);
        let rest = items.drop_first();
        let e = encoding(items[0], le, pos);
        law_signature_is_type(items[0], le, pos);
        assert(inner =~= first + (sigs_of(rest) + seq![')']));
        lemma_stands_split(s, i, first, sigs_of(rest) + seq![')']);
        lemma_type_stands(first, s, i);
        lemma_holds_split(b, pos, e, encodings(rest, le, pos + e.len()));
        law_value_round(items[0], le, pos, b, s, i);
        lemma_fields_round(rest, le, pos + e.len(), b, s, i + first.len());
        assert(seq![items[0]] + rest =~= items);
    }
}

#[verifier::rlimit(40)]
#[verifier::spinoff_prover]
proof fn lemma_items_round(
    items: Seq<ValueView>,
    t: Seq<char>,
    le: bool,
    pos: nat,
    b: Seq<u8>,
    s: Seq<char>,
    i: nat,
)
    requires
        all_faithful(items, le, pos),
        forall|k: int|
            0 <= k < items.len() ==> sig_of(#[trigger] items[k]) == t && !hollow(items[k]),
        stands_at(t, s, i),
        b.len() <= usize::MAX,
        holds_at(b, pos, encodings(items, le, pos)),
    ensures
        items_step(b, le, pos, pos + encodings(items, le, pos).len(), s, i) == (Step {
            used: encodings(items, le, pos).len(),
            out: Ok::<Seq<ValueView>, ErrorView>(items),
        }),
    decreases items, 0nat,
{
    if items.len() == 0 {
        assert(items =~= seq![]);
    } else {
        let rest = items.drop_first();
        let e = encoding(items[0], le, pos);
        lemma_takes_bytes(items[0], le, pos);
        lemma_holds_split(b, pos, e, encodings(rest, le, pos + e.len()));
        law_value_round(items[0], le, pos, b, s, i);
        assert forall|k: int| 0 <= k < rest.len() implies sig_of(#[trigger] rest[k]) == t
            && !hollow(rest[k]) by {
            assert(rest[k] == items[k + 1]);
        }
        lemma_items_round(rest, t, le, pos + e.len(), b, s, i);
        assert(seq![items[0]] + rest =~= items);
    }
}

#[verifier::rlimit(50)]
#[verifier::spinoff_prover]
proof fn lemma_entries_round(
    entries: Seq<(ValueView, ValueView)>,
    k: Seq<char>,
    t: Seq<char>,
    le: bool,
    pos: nat,
    b: Seq<u8>,
    s: Seq<char>,
    i: nat,
    j: nat,
)
    requires
        entries_faithful(entries, le, pos),
        basic(k),
        forall|n: int|
            0 <= n < entries.len() ==> sig_of((#[trigger] entries[n]).0) == k && sig_of(
                entries[n].1,
            ) == t,
        stands_at(k, s, i),
        stands_at(t, s, j),
        b.len() <= usize::MAX,
        holds_at(b, pos, entry_encodings(entries, le, pos)),
    ensures
        entries_step(b, le, pos, pos + entry_encodings(entries, le, pos).len(), s, i, j) == (Step {
            used: entry_encodings(entries, le, pos).len(),
            out: Ok::<Seq<(ValueView, ValueView)>, ErrorView>(entries),
        }),
    decreases entries, 0nat,
{
    if entries.len() == 0 {
        assert(entries =~= seq![]);
    } else {
        let rest = entries.drop_first();
        let e = entry_encoding(entries[0], le, pos);
        lemma_holds_split(b, pos, e, entry_encodings(rest, le, pos + e.len()));
        lemma_entry_round(entries[0], le, pos, b, s, i, j);
        assert forall|n: int| 0 <= n < rest.len() implies sig_of((#[trigger] rest[n]).0) == k
            && sig_of(rest[n].1) == t by {
            assert(rest[n] == entries[n + 1]);
        }
        lemma_entries_round(rest, k, t, le, pos + e.len(), b, s, i, j);
        assert(seq![entries[0]] + rest =~= entries);
    }
}

} // verus!
