//! What values give of themselves, and how they are shown.

use crate::dbus::value::{
    shown, shown_entries, shown_list, sig_of, sigs_of, text, text_of, u32_of, unwrapped, PieceView,
    ValueView,
};
use crate::text::{decimal, signed_decimal};
use vstd::prelude::*;
use vstd::string::*;

verus! {

/// Strings, object paths and signatures give their text, and 32-bit unsigned numbers their
/// number; no other value does.
pub proof fn law_texts_and_numbers(v: ValueView)
    ensures
        text_of(v) == match v {
            ValueView::String(s) => Some(s),
            ValueView::ObjectPath(s) => Some(s),
            ValueView::Signature(s) => Some(s),
            _ => None,
        },
        u32_of(v) == match v {
            ValueView::Uint32(n) => Some(n),
            _ => None,
        },
{
}

/// However many variants stand round a value, what is inside is the value, and a value in no
/// variant is itself.
pub proof fn law_variants_open(v: ValueView)
    ensures
        unwrapped(ValueView::Variant(Box::new(v))) == unwrapped(v),
        !(v is Variant) ==> unwrapped(v) == v,
        !(unwrapped(v) is Variant),
    decreases v,
{
    if let ValueView::Variant(inner) = v {
        law_variants_open(*inner);
    }
}

/// Each kind of number and text has a letter of its own; an array is `a` and the type of its
/// items, a dictionary `a{`, the types of its keys and values, and `}`; a structure is the types of
/// its fields in round brackets, in their order; and a variant is `v`, whatever it holds.
pub proof fn law_signature_letters(v: ValueView, items: Seq<ValueView>)
    ensures
        match v {
            ValueView::Byte(_) => sig_of(v) == seq!['y'],
            ValueView::Bool(_) => sig_of(v) == seq!['b'],
            ValueView::Int16(_) => sig_of(v) == seq!['n'],
            ValueView::Uint16(_) => sig_of(v) == seq!['q'],
            ValueView::Int32(_) => sig_of(v) == seq!['i'],
            ValueView::Uint32(_) => sig_of(v) == seq!['u'],
            ValueView::Int64(_) => sig_of(v) == seq!['x'],
            ValueView::Uint64(_) => sig_of(v) == seq!['t'],
            ValueView::Double(_) => sig_of(v) == seq!['d'],
            ValueView::String(_) => sig_of(v) == seq!['s'],
            ValueView::ObjectPath(_) => sig_of(v) == seq!['o'],
            ValueView::Signature(_) => sig_of(v) == seq!['g'],
            ValueView::Array(t, _) => sig_of(v) == seq!['a'] + t,
            ValueView::Struct(fields) => sig_of(v) == seq!['('] + sigs_of(fields) + seq![')'],
            ValueView::Dict(k, t, _) => sig_of(v) == seq!['a', '{'] + k + t + seq!['}'],
            ValueView::Variant(_) => sig_of(v) == seq!['v'],
        },
        sigs_of(seq![]).len() == 0,
        sigs_of(items.push(v)) == sigs_of(items) + sig_of(v),
    decreases items.len(),
{
    if items.len() == 0 {
        assert(items.push(v).drop_first() =~= seq![]);
        assert(items =~= seq![]);
        assert(sigs_of(items.push(v)) == sig_of(v) + sigs_of(seq![]));
        assert(sigs_of(items.push(v)) =~= sigs_of(items) + sig_of(v));
    } else {
        law_signature_letters(v, items.drop_first());
        assert(items.push(v).drop_first() =~= items.drop_first().push(v));
        assert(sigs_of(items.push(v)) =~= sigs_of(items) + sig_of(v));
    }
}

/// Numbers are shown in decimal, truth values as words, texts as they are, and a floating-point
/// number by itself.
pub proof fn law_plain_shown(v: ValueView)
    ensures
        match v {
            ValueView::Byte(x) => shown(v) == text(decimal(x as nat)),
            ValueView::Uint16(x) => shown(v) == text(decimal(x as nat)),
            ValueView::Uint32(x) => shown(v) == text(decimal(x as nat)),
            ValueView::Uint64(x) => shown(v) == text(decimal(x as nat)),
            ValueView::Int16(x) => shown(v) == text(signed_decimal(x as int)),
            ValueView::Int32(x) => shown(v) == text(signed_decimal(x as int)),
            ValueView::Int64(x) => shown(v) == text(signed_decimal(x as int)),
            ValueView::Bool(b) => shown(v) == text(
                if b {
                    seq!['t', 'r', 'u', 'e']
                } else {
                    seq!['f', 'a', 'l', 's', 'e']
                },
            ),
            ValueView::String(s) => shown(v) == text(s),
            ValueView::ObjectPath(s) => shown(v) == text(s),
            ValueView::Signature(s) => shown(v) == text(s),
            ValueView::Double(x) => shown(v) == seq![PieceView::Double(x)],
            _ => true,
        },
        text(seq![]) == seq![PieceView::Text(seq![])],
{
    reveal_strlit("true");
    reveal_strlit("false");
    assert("true"@ =~= seq!['t', 'r', 'u', 'e']);
    assert("false"@ =~= seq!['f', 'a', 'l', 's', 'e']);
}

/// A structure shows its fields in round brackets, an array its items behind `a` and their type
/// in square brackets, a dictionary its entries in curly ones, key and value parted by a colon;
/// a comma and a blank stand between two of them. A variant shows what it holds in round brackets
/// behind `v`.
pub proof fn law_containers_shown(
    t: Seq<char>,
    k: Seq<char>,
    items: Seq<ValueView>,
    entries: Seq<(ValueView, ValueView)>,
    v: ValueView,
    w: ValueView,
)
    ensures
        shown(ValueView::Struct(items)) == text("("@) + shown_list(items) + text(")"@),
        shown(ValueView::Array(t, items)) == text("a"@ + t + "["@) + shown_list(items) + text(
            "]"@,
        ),
        shown(ValueView::Dict(k, t, entries)) == text("{"@) + shown_entries(entries) + text("}"@),
        shown(ValueView::Variant(Box::new(v))) == text("v("@) + shown(v) + text(")"@),
        shown_list(seq![]).len() == 0,
        shown_list(items.push(v)) == (if items.len() == 0 {
            shown(v)
        } else {
            shown_list(items) + text(", "@) + shown(v)
        }),
        shown_entries(seq![]).len() == 0,
        shown_entries(entries.push((v, w))) == (if entries.len() == 0 {
            shown(v) + text(": "@) + shown(w)
        } else {
            shown_entries(entries) + text(", "@) + shown(v) + text(": "@) + shown(w)
        }),
{
    assert(items.push(v).drop_last() =~= items);
    assert(entries.push((v, w)).drop_last() =~= entries);
    if entries.len() > 0 {
        assert(shown_entries(entries.push((v, w))) =~= shown_entries(entries) + text(", "@)
            + shown(v) + text(": "@) + shown(w));
    }
}

} // verus!
