//! Reading stays within the bytes.

use crate::dbus::signature::{alignment, fields_len, type_len};
use crate::dbus::unmarshal::{
    array_step, dict_step, entries_step, entry_step, fields_step, gap, items_step, number_step,
    plain, plain_step, read_step, short, signature_step, struct_step, value_step, variant_step,
    Step,
};
use crate::dbus::value::ValueView;
use crate::text::left;
use vstd::prelude::*;

verus! {

/// A value that ends in a structure without fields. Such a structure takes no bytes, but is
/// aligned all the same.
pub open spec fn ends_empty(v: ValueView) -> bool
    decreases v,
{
    match v {
        ValueView::Struct(items) => items.len() == 0 || ends_empty(items[items.len() - 1]),
        ValueView::Variant(x) => ends_empty(*x),
        _ => false,
    }
}

/// A step that ends within `len` bytes, or fails with a protocol error.
pub open spec fn ends_within<T>(s: Step<T>, pos: nat, len: nat) -> bool {
    match s.out {
        Ok(_) => pos + s.used <= len,
        Err(e) => e is Protocol,
    }
}

/// As [`ends_within`], unless the value ends in a structure without fields.
pub open spec fn value_within(s: Step<ValueView>, pos: nat, len: nat) -> bool {
    match s.out {
        Ok(v) => !ends_empty(v) ==> pos + s.used <= len,
        Err(e) => e is Protocol,
    }
}

/// As [`value_within`], of the last of a list of values.
pub open spec fn values_within(s: Step<Seq<ValueView>>, pos: nat, len: nat) -> bool {
    match s.out {
        Ok(v) => v.len() > 0 && !ends_empty(v[v.len() - 1]) ==> pos + s.used <= len,
        Err(e) => e is Protocol,
    }
}

proof fn lemma_type_errors(s: Seq<char>, i: nat)
    ensures
        type_len(s, i) matches Err(e) ==> e is Protocol,
    decreases left(s.len(), i), 0nat,
{
    if i < s.len() {
        if s[i as int] == 'a' {
            if i + 1 < s.len() && s[(i + 1) as int] == '{' {
                lemma_type_errors(s, i + 2);
                if let Ok(k) = type_len(s, i + 2) {
                    lemma_type_errors(s, i + 2 + k);
                }
            } else {
                lemma_type_errors(s, i + 1);
            }
        } else if s[i as int] == '(' {
            lemma_fields_errors(s, i + 1);
        }
    }
}

proof fn lemma_fields_errors(s: Seq<char>, i: nat)
    ensures
        fields_len(s, i) matches Err(e) ==> e is Protocol,
    decreases left(s.len(), i), 1nat,
{
    if i < s.len() && s[i as int] != ')' {
        lemma_type_errors(s, i);
        if let Ok(n) = type_len(s, i) {
            if n > 0 {
                lemma_fields_errors(s, i + n);
            }
        }
    }
}

proof fn lemma_plain_within(b: Seq<u8>, le: bool, pos: nat, c: char)
    requires
        plain(c),
    ensures
        value_within(plain_step(b, le, pos, c), pos, b.len()),
{
    reveal(plain_step);
    reveal(short);
}

#[verifier::spinoff_prover]
proof fn lemma_value_within(b: Seq<u8>, le: bool, pos: nat, s: Seq<char>, i: nat)
    ensures
        value_within(value_step(b, le, pos, s, i), pos, b.len()),
    decreases left(b.len(), pos), left(s.len(), i), 1nat,
{
    if i < s.len() {
        let c = s[i as int];
        if plain(c) {
            lemma_plain_within(b, le, pos, c);
        } else if c == 'v' {
            lemma_variant_within(b, le, pos);
        } else if c == '(' {
            lemma_struct_within(b, le, pos, s, i);
        } else if c == 'a' {
            if i + 1 < s.len() && s[(i + 1) as int] == '{' {
                lemma_dict_within(b, le, pos, s, i);
            } else {
                lemma_array_within(b, le, pos, s, i);
            }
        }
    }
}

#[verifier::spinoff_prover]
proof fn lemma_variant_within(b: Seq<u8>, le: bool, pos: nat)
    ensures
        value_within(variant_step(b, le, pos), pos, b.len()),
    decreases left(b.len(), pos), 0nat, 0nat,
{
    reveal(short);
    let t = signature_step(b, pos);
    if let Ok(inner) = t.out {
        lemma_type_errors(inner, 0);
        lemma_value_within(b, le, pos + t.used, inner, 0);
    }
}

#[verifier::spinoff_prover]
proof fn lemma_struct_within(b: Seq<u8>, le: bool, pos: nat, s: Seq<char>, i: nat)
    requires
        i < s.len(),
    ensures
        value_within(struct_step(b, le, pos, s, i), pos, b.len()),
    decreases left(b.len(), pos), left(s.len(), i), 0nat,
{
    lemma_fields_within(b, le, pos + gap(pos, 8), s, i + 1);
}

#[verifier::spinoff_prover]
proof fn lemma_fields_within(b: Seq<u8>, le: bool, pos: nat, s: Seq<char>, i: nat)
    ensures
        values_within(fields_step(b, le, pos, s, i), pos, b.len()),
    decreases left(b.len(), pos), left(s.len(), i), 2nat,
{
    if i < s.len() && s[i as int] != ')' {
        let v = value_step(b, le, pos, s, i);
        let n = type_len(s, i)->Ok_0;
        lemma_value_within(b, le, pos, s, i);
        if let Ok(x) = v.out {
            if n > 0 {
                lemma_fields_within(b, le, pos + v.used, s, i + n);
                if let Ok(rest) = fields_step(b, le, pos + v.used, s, i + n).out {
                    let all = seq![x] + rest;
                    if rest.len() > 0 {
                        assert(all[all.len() - 1] == rest[rest.len() - 1]);
                    } else {
                        lemma_no_fields(b, le, pos + v.used, s, i + n);
                        assert(all[all.len() - 1] == x);
                    }
                }
            }
        }
    }
}

/// Where no fields are read, no bytes are.
proof fn lemma_no_fields(b: Seq<u8>, le: bool, pos: nat, s: Seq<char>, i: nat)
    ensures
        fields_step(b, le, pos, s, i).out matches Ok(v) && v.len() == 0 ==> fields_step(
            b,
            le,
            pos,
            s,
            i,
        ).used == 0,
{
}

#[verifier::spinoff_prover]
proof fn lemma_array_within(b: Seq<u8>, le: bool, pos: nat, s: Seq<char>, i: nat)
    requires
        i < s.len(),
    ensures
        value_within(array_step(b, le, pos, s, i), pos, b.len()),
    decreases left(b.len(), pos), left(s.len(), i), 0nat,
{
    reveal(short);
    let n = number_step(b, le, pos, 4);
    let p = pos + n.used;
    if let Ok(len) = n.out {
        let elem = s.subrange((i + 1) as int, (i + 1 + type_len(s, i + 1)->Ok_0) as int);
        let g = gap(p, alignment(elem));
        if p + g + len <= b.len() {
            lemma_items_within(b, le, p + g, p + g + len, s, i + 1);
        }
    }
}

#[verifier::spinoff_prover]
proof fn lemma_items_within(b: Seq<u8>, le: bool, pos: nat, end: nat, s: Seq<char>, i: nat)
    requires
        end <= b.len(),
    ensures
        ends_within(items_step(b, le, pos, end, s, i), pos, b.len()),
    decreases left(b.len(), pos), left(s.len(), i), 2nat,
{
    if pos < end {
        let v = value_step(b, le, pos, s, i);
        lemma_value_within(b, le, pos, s, i);
        if v.out is Ok && v.used > 0 {
            lemma_items_within(b, le, pos + v.used, end, s, i);
        }
    }
}

#[verifier::spinoff_prover]
proof fn lemma_dict_within(b: Seq<u8>, le: bool, pos: nat, s: Seq<char>, i: nat)
    requires
        i + 1 < s.len(),
    ensures
        value_within(dict_step(b, le, pos, s, i), pos, b.len()),
    decreases left(b.len(), pos), left(s.len(), i), 0nat,
{
    reveal(short);
    let n = number_step(b, le, pos, 4);
    let p = pos + n.used;
    if let Ok(len) = n.out {
        let j = i + 2 + type_len(s, i + 2)->Ok_0;
        let g = gap(p, 8);
        if p + g + len <= b.len() {
            lemma_entries_within(b, le, p + g, p + g + len, s, i + 2, j);
        }
    }
}

#[verifier::spinoff_prover]
proof fn lemma_entries_within(
    b: Seq<u8>,
    le: bool,
    pos: nat,
    end: nat,
    s: Seq<char>,
    i: nat,
    j: nat,
)
    requires
        end <= b.len(),
    ensures
        ends_within(entries_step(b, le, pos, end, s, i, j), pos, b.len()),
    decreases left(b.len(), pos), left(s.len(), i) + left(s.len(), j), 3nat,
{
    if pos < end {
        let v = entry_step(b, le, pos, s, i, j);
        lemma_entry_errors(b, le, pos, s, i, j);
        if v.out is Ok && v.used > 0 {
            lemma_entries_within(b, le, pos + v.used, end, s, i, j);
        }
    }
}

#[verifier::spinoff_prover]
proof fn lemma_entry_errors(b: Seq<u8>, le: bool, pos: nat, s: Seq<char>, i: nat, j: nat)
    ensures
        entry_step(b, le, pos, s, i, j).out matches Err(e) ==> e is Protocol,
    decreases left(b.len(), pos), left(s.len(), i) + left(s.len(), j), 2nat,
{
    let g = gap(pos, 8);
    let k = value_step(b, le, pos + g, s, i);
    lemma_value_within(b, le, pos + g, s, i);
    if k.out is Ok {
        lemma_value_within(b, le, pos + g + k.used, s, j);
    }
}

/// Whatever the bytes and the signature, reading a value ends within the bytes or fails with a
/// protocol error. Only a value that ends in a structure without fields, which no bytes stand
/// for, can end behind the bytes, by its alignment.
pub proof fn law_read_within(b: Seq<u8>, le: bool, pos: nat, sig: Seq<char>)
    ensures
        match read_step(b, le, pos, sig).out {
            Ok(v) => !ends_empty(v) ==> pos + read_step(b, le, pos, sig).used <= b.len(),
            Err(e) => e is Protocol,
        },
{
    lemma_type_errors(sig, 0);
    lemma_value_within(b, le, pos, sig, 0);
}

} // verus!
