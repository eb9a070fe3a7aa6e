//! How containers are read: from where to where, and what of.

use crate::dbus::format::lemma_aligned;
use crate::dbus::message_format::{four_at, lemma_four};
use crate::dbus::signature::{alignment, basic, is_type, type_len};
use crate::dbus::unmarshal::{
    array_step, dict_step, entries_step, entry_step, fields_step, gap, items_step, number_step,
    read_step, signature_step, struct_step, value_step, variant_step,
};
use crate::dbus::value::ValueView;
use crate::error::ErrorView;
use vstd::prelude::*;

verus! {

/// The positions `at` part the bytes into values of the type at `s[i]`: each value is read at its
/// position, and ends at the next.
pub open spec fn in_a_row(
    b: Seq<u8>,
    le: bool,
    s: Seq<char>,
    i: nat,
    items: Seq<ValueView>,
    at: Seq<nat>,
) -> bool {
    &&& at.len() == items.len() + 1
    &&& forall|k: int|
        0 <= k < items.len() ==> {
            let v = value_step(b, le, #[trigger] at[k], s, i);
            &&& v.out == Ok::<ValueView, ErrorView>(items[k])
            &&& v.used > 0
            &&& at[k] + v.used == at[k + 1]
        }
}

#[verifier::spinoff_prover]
#[verifier::rlimit(40)]
proof fn lemma_items_row(b: Seq<u8>, le: bool, pos: nat, end: nat, s: Seq<char>, i: nat) -> (at:
    Seq<nat>)
    requires
        items_step(b, le, pos, end, s, i).out is Ok,
    ensures
        ({
            let f = items_step(b, le, pos, end, s, i);
            &&& in_a_row(b, le, s, i, f.out->Ok_0, at)
            &&& at[0] == pos
            &&& at.last() == end
            &&& pos + f.used == end
        }),
    decreases end - pos,
{
    let f = items_step(b, le, pos, end, s, i);
    if pos >= end || end > b.len() {
        seq![pos]
    } else {
        let v = value_step(b, le, pos, s, i);
        let rest = lemma_items_row(b, le, pos + v.used, end, s, i);
        let more = items_step(b, le, pos + v.used, end, s, i).out->Ok_0;
        let at = seq![pos] + rest;
        let items = f.out->Ok_0;
        assert(items =~= seq![v.out->Ok_0] + more);
        assert forall|k: int| 0 <= k < items.len() implies {
            let w = value_step(b, le, #[trigger] at[k], s, i);
            &&& w.out == Ok::<ValueView, ErrorView>(items[k])
            &&& w.used > 0
            &&& at[k] + w.used == at[k + 1]
        } by {
            if k > 0 {
                assert(at[k] == rest[k - 1]);
                assert(items[k] == more[k - 1]);
                assert(at[k + 1] == rest[k]);
            } else {
                assert(at[1] == rest[0]);
            }
        }
        at
    }
}

/// Where a number of four bytes stands, read at `pos`.
pub open spec fn four_from(pos: nat) -> int {
    pos + (4 - pos as int % 4) % 4
}

proof fn lemma_length(b: Seq<u8>, le: bool, pos: nat)
    requires
        b.len() <= usize::MAX,
        pos <= b.len(),
    ensures
        ({
            let n = number_step(b, le, pos, 4);
            let p = four_from(pos);
            if p + 4 <= b.len() {
                n.out == Ok::<nat, ErrorView>(four_at(b, p, le) as nat) && pos + n.used == p + 4
            } else {
                n.out is Err
            }
        }),
{
    lemma_aligned(pos, 4, seq![]);
    let p = four_from(pos);
    if p + 4 <= b.len() {
        lemma_four(b, p, le);
    }
}

/// An array that is read is made of values of its type in a row. The row begins behind the length,
/// aligned for the type, and is as long as the length says. An array whose length goes beyond the
/// bytes is refused.
#[verifier::spinoff_prover]
#[verifier::rlimit(40)]
pub proof fn law_array_read(b: Seq<u8>, le: bool, pos: nat, s: Seq<char>) -> (at: Seq<nat>)
    requires
        b.len() <= usize::MAX,
        pos <= b.len(),
        is_type(s),
        s.len() >= 2,
        s[0] == 'a',
        s[1] != '{',
    ensures
        ({
            let r = read_step(b, le, pos, s);
            let p = four_from(pos);
            let len = four_at(b, p, le);
            &&& p + 4 + len > b.len() ==> r.out is Err
            &&& r.out matches Ok(v) ==> {
                &&& v matches ValueView::Array(t, items) && t == s.skip(1) && in_a_row(
                    b,
                    le,
                    s,
                    1,
                    items,
                    at,
                )
                &&& at[0] == p + 4 + gap((p + 4) as nat, alignment(s.skip(1)))
                &&& at.last() == at[0] + len
                &&& pos + r.used == at.last()
                &&& at.last() <= b.len()
            }
        }),
{
    lemma_length(b, le, pos);
    let p = four_from(pos);
    let n = number_step(b, le, pos, 4);
    let elem = s.subrange(1, (1 + type_len(s, 1)->Ok_0) as int);
    assert(elem =~= s.skip(1));
    assert(read_step(b, le, pos, s) == array_step(b, le, pos, s, 0));
    if p + 4 <= b.len() {
        let len = four_at(b, p, le) as nat;
        lemma_four(b, p, le);
        let q = (p + 4) as nat;
        let g = gap(q, alignment(elem));
        assert(pos + n.used == q);
        if q + g + len <= b.len() && items_step(b, le, q + g, q + g + len, s, 1).out is Ok {
            lemma_items_row(b, le, q + g, q + g + len, s, 1)
        } else {
            seq![]
        }
    } else {
        seq![]
    }
}

/// A variant that is read is the signature of a type, and behind it a value of that type; what
/// follows the first type of the signature does not count.
pub proof fn law_variant_read(b: Seq<u8>, le: bool, pos: nat, s: Seq<char>)
    requires
        s.len() > 0,
        s[0] == 'v',
    ensures
        ({
            let r = read_step(b, le, pos, s);
            let t = signature_step(b, pos);
            match t.out {
                Err(_) => r.out is Err,
                Ok(inner) => {
                    let v = read_step(b, le, pos + t.used, inner);
                    match v.out {
                        Err(_) => r.out is Err,
                        Ok(x) => {
                            &&& r.out == Ok::<ValueView, ErrorView>(ValueView::Variant(Box::new(x)))
                            &&& r.used == t.used + v.used
                        },
                    }
                },
            }
        }),
{
    assert(read_step(b, le, pos, s) == variant_step(b, le, pos));
}

/// The fields of a structure are read one behind the other, the first at a multiple of eight.
pub proof fn law_struct_read(b: Seq<u8>, le: bool, pos: nat, s: Seq<char>)
    requires
        is_type(s),
        s[0] == '(',
    ensures
        ({
            let r = read_step(b, le, pos, s);
            let f = fields_step(b, le, pos + gap(pos, 8), s, 1);
            match f.out {
                Ok(fields) => {
                    &&& r.out == Ok::<ValueView, ErrorView>(ValueView::Struct(fields))
                    &&& r.used == gap(pos, 8) + f.used
                },
                Err(_) => r.out is Err,
            }
        }),
{
    assert(read_step(b, le, pos, s) == struct_step(b, le, pos, s, 0));
}

/// A dictionary is read only where its keys are of a type that may be one; and as an array is, its
/// entries fill the length that is given, from a multiple of eight on.
#[verifier::spinoff_prover]
#[verifier::rlimit(40)]
pub proof fn law_dict_read(b: Seq<u8>, le: bool, pos: nat, s: Seq<char>, k: nat)
    requires
        b.len() <= usize::MAX,
        pos <= b.len(),
        is_type(s),
        s.len() >= 2,
        s[0] == 'a',
        s[1] == '{',
        type_len(s, 2) == Ok::<nat, ErrorView>(k),
    ensures
        ({
            let r = read_step(b, le, pos, s);
            let p = four_from(pos);
            let len = four_at(b, p, le);
            &&& !basic(s.subrange(2, 2 + k as int)) ==> r.out is Err
            &&& p + 4 + len > b.len() ==> r.out is Err
            &&& r.out matches Ok(v) ==> {
                &&& v matches ValueView::Dict(key, val, _) && key == s.subrange(2, 2 + k as int)
                    && val == s.subrange(2 + k as int, s.len() - 1)
                &&& pos + r.used == p + 4 + gap((p + 4) as nat, 8) + len
                &&& pos + r.used <= b.len()
            }
        }),
{
    lemma_length(b, le, pos);
    let p = four_from(pos);
    let j = 2 + k;
    let val = s.subrange(j as int, (j + type_len(s, j)->Ok_0) as int);
    assert(val =~= s.subrange(j as int, s.len() - 1));
    assert(read_step(b, le, pos, s) == dict_step(b, le, pos, s, 0));
    if p + 4 <= b.len() {
        let len = four_at(b, p, le) as nat;
        lemma_four(b, p, le);
        let q = (p + 4) as nat;
        let g = gap(q, 8);
        if q + g + len <= b.len() && entries_step(b, le, q + g, q + g + len, s, 2, j).out is Ok {
            lemma_entries_end(b, le, q + g, q + g + len, s, 2, j);
        }
    }
}

#[verifier::spinoff_prover]
#[verifier::rlimit(40)]
proof fn lemma_entries_end(
    b: Seq<u8>,
    le: bool,
    pos: nat,
    end: nat,
    s: Seq<char>,
    i: nat,
    j: nat,
)
    requires
        entries_step(b, le, pos, end, s, i, j).out is Ok,
    ensures
        pos + entries_step(b, le, pos, end, s, i, j).used == end,
    decreases end - pos,
{
    if pos < end && end <= b.len() {
        let v = entry_step(b, le, pos, s, i, j);
        let f = entries_step(b, le, pos, end, s, i, j);
        assert(v.out is Ok && v.used > 0) by {
            if v.out is Err {
                assert(f.out is Err);
            }
        }
        let rest = entries_step(b, le, pos + v.used, end, s, i, j);
        assert(rest.out is Ok);
        assert(f.used == v.used + rest.used);
        lemma_entries_end(b, le, pos + v.used, end, s, i, j);
    }
}

/// An entry of a dictionary is its key, read at a multiple of eight, and its value behind it.
pub proof fn law_entry_read(b: Seq<u8>, le: bool, pos: nat, s: Seq<char>, i: nat, j: nat)
    ensures
        ({
            let at = pos + gap(pos, 8);
            let k = value_step(b, le, at, s, i);
            let v = value_step(b, le, at + k.used, s, j);
            match (k.out, v.out) {
                (Ok(x), Ok(y)) => {
                    let e = entry_step(b, le, pos, s, i, j);
                    &&& e.out == Ok::<(ValueView, ValueView), ErrorView>((x, y))
                    &&& pos + e.used == at + k.used + v.used
                },
                _ => entry_step(b, le, pos, s, i, j).out is Err,
            }
        }),
{
}

/// Aligning moves to the next multiple.
pub proof fn law_gap(pos: nat, n: nat)
    requires
        n == 1 || n == 2 || n == 4 || n == 8,
        pos + n <= usize::MAX,
    ensures
        gap(pos, n) < n,
        (pos + gap(pos, n)) % n == 0,
{
}

} // verus!
