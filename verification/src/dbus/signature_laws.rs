//! The grammar of signatures.

use crate::dbus::signature::{
    array_elem_of, basic, dict_types_of, fields_len, first_type, is_type, joined,
    lemma_type_len_bounds, lemma_type_stands, single, type_len,
};
use crate::error::ErrorView;
use vstd::prelude::*;

verus! {

/// The thirteen letters that are a type by themselves.
pub open spec fn type_letters() -> Seq<char> {
    seq!['y', 'b', 'n', 'q', 'i', 'u', 'x', 't', 'd', 's', 'o', 'g', 'v']
}

/// One letter is a type where it is one of thirteen; all of these but the variant may be the key
/// of a dictionary, and nothing else may.
pub proof fn law_single_types(c: char, t: Seq<char>)
    ensures
        is_type(seq![c]) <==> type_letters().contains(c),
        basic(t) <==> t.len() == 1 && type_letters().contains(t[0]) && t[0] != 'v',
{
    let l = type_letters();
    assert(l[0] == 'y' && l[1] == 'b' && l[2] == 'n' && l[3] == 'q' && l[4] == 'i');
    assert(l[5] == 'u' && l[6] == 'x' && l[7] == 't' && l[8] == 'd' && l[9] == 's');
    assert(l[10] == 'o' && l[11] == 'g' && l[12] == 'v');
    lemma_letter(c);
    if t.len() == 1 {
        lemma_letter(t[0]);
    }
    reveal_with_fuel(type_len, 2);
    reveal_with_fuel(fields_len, 2);
}

proof fn lemma_letter(c: char)
    ensures
        single(c) <==> type_letters().contains(c),
{
    let l = type_letters();
    assert(l[0] == 'y' && l[1] == 'b' && l[2] == 'n' && l[3] == 'q' && l[4] == 'i');
    assert(l[5] == 'u' && l[6] == 'x' && l[7] == 't' && l[8] == 'd' && l[9] == 's');
    assert(l[10] == 'o' && l[11] == 'g' && l[12] == 'v');
    if l.contains(c) {
        let k = choose|k: int| 0 <= k < l.len() && l[k] == c;
        assert(l[k] == c);
    }
}

proof fn lemma_behind(t: Seq<char>, before: Seq<char>, rest: Seq<char>)
    requires
        is_type(t),
    ensures
        type_len(before + t + rest, before.len()) == Ok::<nat, ErrorView>(t.len()),
{
    let s = before + t + rest;
    assert(s.subrange(before.len() as int, (before.len() + t.len()) as int) =~= t);
    lemma_type_stands(t, s, before.len());
}

/// An `a` before a type makes the type of arrays of it, and the type of the items is got back.
pub proof fn law_array_type(t: Seq<char>)
    requires
        is_type(t),
    ensures
        is_type(seq!['a'] + t),
        array_elem_of(seq!['a'] + t) == Ok::<Seq<char>, ErrorView>(t),
{
    let s = seq!['a'] + t;
    lemma_type_len_bounds(t, 0);
    lemma_behind(t, seq!['a'], seq![]);
    assert(seq!['a'] + t + seq![] =~= s);
    assert(s[1] == t[0]);
    assert(s.skip(1) =~= t);
    assert(t.take(t.len() as int) =~= t);
    assert(t.skip(t.len() as int).len() == 0);
}

/// Two types between `a{` and `}` make the type of dictionaries, and the two are got back where
/// the first may be a key; where it may not, that is refused.
#[verifier::spinoff_prover]
#[verifier::rlimit(40)]
pub proof fn law_dict_type(k: Seq<char>, v: Seq<char>)
    requires
        is_type(k),
        is_type(v),
    ensures
        is_type(seq!['a', '{'] + k + v + seq!['}']),
        basic(k) ==> dict_types_of(seq!['a', '{'] + k + v + seq!['}']) == Ok::<
            (Seq<char>, Seq<char>),
            ErrorView,
        >((k, v)),
        !basic(k) ==> dict_types_of(seq!['a', '{'] + k + v + seq!['}']) is Err,
{
    let s = seq!['a', '{'] + k + v + seq!['}'];
    lemma_type_len_bounds(k, 0);
    lemma_type_len_bounds(v, 0);
    lemma_behind(k, seq!['a', '{'], v + seq!['}']);
    assert(seq!['a', '{'] + k + (v + seq!['}']) =~= s);
    lemma_behind(v, seq!['a', '{'] + k, seq!['}']);
    assert(s[(2 + k.len() + v.len()) as int] == '}');
    let inner = s.subrange(2, s.len() - 1);
    assert(inner =~= k + v);
    lemma_behind(k, seq![], v);
    assert(seq![] + k + v =~= inner);
    assert(inner.take(k.len() as int) =~= k);
    assert(inner.skip(k.len() as int) =~= v);
    assert(v.take(v.len() as int) =~= v);
    assert(v.skip(v.len() as int).len() == 0);
}

#[verifier::spinoff_prover]
#[verifier::rlimit(40)]
proof fn lemma_row(parts: Seq<Seq<char>>, s: Seq<char>, i: nat)
    requires
        forall|k: int| 0 <= k < parts.len() ==> is_type(#[trigger] parts[k]),
        i + joined(parts).len() + 1 == s.len(),
        s.skip(i as int) == joined(parts) + seq![')'],
    ensures
        fields_len(s, i) == Ok::<nat, ErrorView>(joined(parts).len() + 1),
    decreases parts.len(),
{
    let all = joined(parts);
    let tail = s.skip(i as int);
    assert(s[i as int] == tail[0]);
    if parts.len() == 0 {
        assert(tail[0] == ')');
    } else {
        let t = parts[0];
        let rest = parts.drop_first();
        lemma_type_len_bounds(t, 0);
        assert(s.subrange(i as int, (i + t.len()) as int) =~= t) by {
            assert forall|j: int| 0 <= j < t.len() implies s[i + j] == #[trigger] t[j] by {
                assert(s[i + j] == tail[j]);
            }
        }
        lemma_type_stands(t, s, i);
        assert(t[0] == tail[0]);
        lemma_begins(t);
        assert(s.skip((i + t.len()) as int) =~= joined(rest) + seq![')']) by {
            assert forall|j: int| 0 <= j < joined(rest).len() + 1 implies s[i + t.len() + j] == (
            joined(rest) + seq![')'])[j] by {
                assert(s[i + t.len() + j] == tail[t.len() + j]);
            }
        }
        assert forall|k: int| 0 <= k < rest.len() implies is_type(#[trigger] rest[k]) by {
            assert(rest[k] == parts[k + 1]);
        }
        lemma_row(rest, s, i + t.len());
    }
}

proof fn lemma_begins(t: Seq<char>)
    requires
        is_type(t),
    ensures
        t.len() > 0,
        t[0] == 'a' || t[0] == '(' || single(t[0]),
{
    lemma_type_len_bounds(t, 0);
}

/// Types in round brackets, any number of them, make the type of structures.
pub proof fn law_struct_type(parts: Seq<Seq<char>>)
    requires
        forall|k: int| 0 <= k < parts.len() ==> is_type(#[trigger] parts[k]),
    ensures
        is_type(seq!['('] + joined(parts) + seq![')']),
{
    let s = seq!['('] + joined(parts) + seq![')'];
    assert(s.skip(1) =~= joined(parts) + seq![')']);
    lemma_row(parts, s, 1);
}

/// A type begins with `a`, with `(` or with one of the letters, and the empty text is none.
pub proof fn law_type_begins(t: Seq<char>)
    ensures
        is_type(t) ==> t.len() > 0 && (t[0] == 'a' || t[0] == '(' || type_letters().contains(t[0])),
        is_type(t) && t[0] == '(' ==> t.last() == ')',
        is_type(t) && t[0] == 'a' ==> t.len() >= 2,
        is_type(t) && t.len() >= 2 && t[0] == 'a' && t[1] == '{' ==> t.last() == '}',
        first_type(t) matches Ok(pair) ==> pair.0.len() > 0,
{
    lemma_type_len_bounds(t, 0);
    if is_type(t) {
        lemma_begins(t);
        lemma_letter(t[0]);
        if t[0] == '(' {
            crate::dbus::signature::lemma_fields_len_bounds(t, 1);
        } else if t[0] == 'a' {
            lemma_type_len_bounds(t, 1);
        }
    }
}

} // verus!
