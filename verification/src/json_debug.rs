//! JSON values as they are shown in error messages.

use crate::json::{json_models, lemma_json_containers, member_models, Json, JsonView};
use crate::text::{debug_of_text, text_debug};
use vstd::prelude::*;
use vstd::string::*;

verus! {

/// How a value is shown: the name of its kind, and what it holds in brackets. A number is
/// shown by its text.
pub open spec fn json_debug(v: JsonView) -> Seq<char>
    decreases v,
{
    match v {
        JsonView::Null => "Null"@,
        JsonView::Bool(b) => if b {
            "Bool(true)"@
        } else {
            "Bool(false)"@
        },
        JsonView::Number(n) => "Number("@ + n + ")"@,
        JsonView::String(s) => "String("@ + text_debug(s) + ")"@,
        JsonView::Array(items) => "Array(["@ + debug_items(items) + "])"@,
        JsonView::Object(entries) => "Object(["@ + debug_members(entries) + "])"@,
    }
}

/// What stands between two elements.
pub open spec fn comma(more: bool) -> Seq<char> {
    if more {
        ", "@
    } else {
        seq![]
    }
}

/// How the elements of an array are shown.
pub open spec fn debug_items(items: Seq<JsonView>) -> Seq<char>
    decreases items,
{
    if items.len() == 0 {
        seq![]
    } else {
        json_debug(items[0]) + comma(items.len() > 1) + debug_items(items.drop_first())
    }
}

/// How the entries of an object are shown.
pub open spec fn debug_members(entries: Seq<(Seq<char>, JsonView)>) -> Seq<char>
    decreases entries,
{
    if entries.len() == 0 {
        seq![]
    } else {
        "("@ + text_debug(entries[0].0) + ", "@ + json_debug(entries[0].1) + ")"@ + comma(
            entries.len() > 1,
        ) + debug_members(entries.drop_first())
    }
}

/// Shows a value.
#[verifier::rlimit(40)]
#[verifier::spinoff_prover]
fn show(out: &mut String, v: &Json)
    ensures
        final(out)@ == old(out)@ + json_debug(v@),
    decreases v,
{
    proof {
        lemma_json_containers(*v);
    }
    match v {
        Json::Null => out.append("Null"),
        Json::Bool(b) => out.append(
            if *b {
                "Bool(true)"
            } else {
                "Bool(false)"
            },
        ),
        Json::Number(n) => {
            out.append("Number(");
            out.append(n);
            out.append(")");
        },
        Json::String(s) => {
            out.append("String(");
            out.append(&debug_of_text(s));
            out.append(")");
        },
        Json::Array(items) => {
            out.append("Array([");
            show_items(out, items);
            out.append("])");
        },
        Json::Object(entries) => {
            out.append("Object([");
            show_members(out, entries);
            out.append("])");
        },
    }
    assert(out@ =~= old(out)@ + json_debug(v@));
}

fn show_items(out: &mut String, items: &Vec<Json>)
    ensures
        final(out)@ == old(out)@ + debug_items(json_models(items@)),
    decreases items,
{
    let ghost all = json_models(items@);
    let ghost start = out@;
    let mut i: usize = 0;
    assert(all.skip(0) =~= all);
    while i < items.len()
        invariant
            i <= items@.len(),
            all == json_models(items@),
            start + debug_items(all) == out@ + debug_items(all.skip(i as int)),
            decreases_to!(items => items@),
        decreases items@.len() - i,
    {
        let ghost before = out@;
        let ghost rest = all.skip(i as int);
        proof {
            assert(rest.drop_first() =~= all.skip(i + 1));
            assert(rest[0] == items@[i as int]@);
        }
        show(out, &items[i]);
        if items.len() - i > 1 {
            out.append(", ");
        }
        proof {
            let tail = debug_items(rest.drop_first());
            let one = json_debug(rest[0]) + comma(rest.len() > 1);
            assert(out@ =~= before + one);
            assert(before + (one + tail) =~= out@ + tail);
        }
        i += 1;
    }
    assert(out@ + Seq::<char>::empty() =~= out@);
}

fn show_members(out: &mut String, entries: &Vec<(String, Json)>)
    ensures
        final(out)@ == old(out)@ + debug_members(member_models(entries@)),
    decreases entries,
{
    let ghost all = member_models(entries@);
    let ghost start = out@;
    let mut i: usize = 0;
    assert(all.skip(0) =~= all);
    while i < entries.len()
        invariant
            i <= entries@.len(),
            all == member_models(entries@),
            start + debug_members(all) == out@ + debug_members(all.skip(i as int)),
            decreases_to!(entries => entries@),
        decreases entries@.len() - i,
    {
        let ghost before = out@;
        let ghost rest = all.skip(i as int);
        proof {
            assert(rest.drop_first() =~= all.skip(i + 1));
            assert(rest[0] == (entries@[i as int].0@, entries@[i as int].1@));
        }
        out.append("(");
        out.append(&debug_of_text(&entries[i].0));
        out.append(", ");
        show(out, &entries[i].1);
        out.append(")");
        if entries.len() - i > 1 {
            out.append(", ");
        }
        proof {
            let tail = debug_members(rest.drop_first());
            let one = "("@ + text_debug(rest[0].0) + ", "@ + json_debug(rest[0].1) + ")"@ + comma(
                rest.len() > 1,
            );
            assert(out@ =~= before + one);
            assert(before + (one + tail) =~= out@ + tail);
        }
        i += 1;
    }
    assert(out@ + Seq::<char>::empty() =~= out@);
}

/// Shows a value as it stands in error messages.
pub fn debug_form(v: &Json) -> (r: String)
    ensures
        r@ == json_debug(v@),
{
    let mut out = String::new();
    show(&mut out, v);
    assert(out@ =~= json_debug(v@));
    out
}

/// A value is shown as its kind, with what it holds in round brackets; the elements of an array and
/// the entries of an object stand in square brackets within them, with a comma and a blank between
/// each two.
pub proof fn law_value_shown(
    n: Seq<char>,
    s: Seq<char>,
    x: JsonView,
    items: Seq<JsonView>,
    entries: Seq<(Seq<char>, JsonView)>,
)
    ensures
        json_debug(JsonView::Null) == "Null"@,
        json_debug(JsonView::Bool(true)) == "Bool(true)"@,
        json_debug(JsonView::Bool(false)) == "Bool(false)"@,
        json_debug(JsonView::Number(n)) == "Number("@ + n + ")"@,
        json_debug(JsonView::String(s)) == "String("@ + text_debug(s) + ")"@,
        json_debug(JsonView::Array(items)) == "Array(["@ + debug_items(items) + "])"@,
        json_debug(JsonView::Object(entries)) == "Object(["@ + debug_members(entries) + "])"@,
        debug_items(seq![]).len() == 0,
        debug_members(seq![]).len() == 0,
        debug_items(seq![x] + items) == json_debug(x) + (if items.len() > 0 {
            ", "@
        } else {
            seq![]
        }) + debug_items(items),
        debug_members(seq![(s, x)] + entries) == "("@ + text_debug(s) + ", "@ + json_debug(x) + ")"@
            + (if entries.len() > 0 {
            ", "@
        } else {
            seq![]
        }) + debug_members(entries),
{
    let all = seq![x] + items;
    assert(all.drop_first() =~= items);
    assert(all[0] == x);
    let rows = seq![(s, x)] + entries;
    assert(rows.drop_first() =~= entries);
    assert(rows[0] == (s, x));
}

} // verus!
