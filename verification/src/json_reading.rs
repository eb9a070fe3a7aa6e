//! Every JSON text that is accepted is laid out as JSON is, and says what the layout says.

use crate::error::ErrorView;
use crate::json::{
    blank, blanks, char_width, chars_at, escape_at, hex_digit_of, hex_digits_value,
    items_at, items_start, json_of, literal_at, member_at, members_at, members_start,
    number_at, number_run, span, string_at, value_at, JsonView, Span,
};
use crate::json_layout::{
    code_means, entries_proper, entries_spelled, entry_meanings, is_gap, is_nibble, item_meanings,
    items_proper, items_spelled, meaning, nibble, piece_means, plus_code_means, proper, row,
    spelled, Entry, Item, Layout, Quoted,
};
use crate::text::left;
use vstd::prelude::*;

verus! {

/// The characters of `s` from `i` on, `n` of them.
pub open spec fn cut(s: Seq<char>, i: nat, n: nat) -> Seq<char> {
    s.subrange(i as int, (i + n) as int)
}

proof fn lemma_cut(s: Seq<char>, i: nat, a: nat, b: nat)
    requires
        i + a + b <= s.len(),
    ensures
        cut(s, i, a + b) == cut(s, i, a) + cut(s, i + a, b),
{
    assert(cut(s, i, a + b) =~= cut(s, i, a) + cut(s, i + a, b));
}

proof fn lemma_cut_one(s: Seq<char>, i: nat)
    requires
        i < s.len(),
    ensures
        cut(s, i, 1) == seq![s[i as int]],
{
    assert(cut(s, i, 1) =~= seq![s[i as int]]);
}

proof fn lemma_blank_gap(s: Seq<char>, i: nat)
    requires
        i <= s.len(),
    ensures
        i + blanks(s, i) <= s.len(),
        is_gap(cut(s, i, blanks(s, i))),
    decreases left(s.len(), i),
{
    if i < s.len() && blank(s[i as int]) {
        lemma_blank_gap(s, i + 1);
        lemma_cut(s, i, 1, blanks(s, i + 1));
        lemma_cut_one(s, i);
        let g = cut(s, i, blanks(s, i));
        let rest = cut(s, i + 1, blanks(s, i + 1));
        assert forall|k: int| 0 <= k < g.len() implies (#[trigger] g[k] == ' ' || g[k] == '\t'
            || g[k] == '\r' || g[k] == '\n') by {
            if k > 0 {
                assert(g[k] == rest[k - 1]);
            }
        }
    }
}

proof fn lemma_span(s: Seq<char>, i: nat, n: nat)
    ensures
        span(s, i, n) matches Span::Chars(k) ==> {
            &&& k <= n
            &&& i <= s.len() ==> i + k <= s.len()
            &&& (forall|j: int| i <= j < i + k ==> char_width(#[trigger] s[j]) == 1) ==> k == n
        },
    decreases left(s.len(), i),
{
    if n > 0 && i < s.len() && char_width(s[i as int]) <= n {
        lemma_span(s, i + 1, (n - char_width(s[i as int])) as nat);
        if let Span::Chars(k) = span(s, i, n) {
            if forall|j: int| i <= j < i + k ==> char_width(#[trigger] s[j]) == 1 {
                assert(char_width(s[i as int]) == 1);
                assert forall|j: int| i + 1 <= j < i + k implies char_width(#[trigger] s[j])
                    == 1 by {}
            }
        }
    }
}

proof fn lemma_hex_chars(d: Seq<char>)
    requires
        hex_digits_value(d) is Some,
    ensures
        forall|j: int| 0 <= j < d.len() ==> is_nibble(#[trigger] d[j]) && char_width(d[j]) == 1,
    decreases d.len(),
{
    if d.len() > 0 {
        lemma_hex_chars(d.drop_last());
        assert forall|j: int| 0 <= j < d.len() implies is_nibble(#[trigger] d[j]) && char_width(
            d[j],
        ) == 1 by {
            if j < d.len() - 1 {
                assert(d[j] == d.drop_last()[j]);
            } else {
                assert(hex_digit_of(d.last()) is Some);
            }
        }
    }
}

proof fn lemma_nibble_value(c: char)
    requires
        is_nibble(c),
    ensures
        hex_digit_of(c) == Some(nibble(c)),
        nibble(c) < 16,
{
}

proof fn lemma_four_digits(a: char, b: char, c: char, d: char)
    requires
        is_nibble(a),
        is_nibble(b),
        is_nibble(c),
        is_nibble(d),
    ensures
        hex_digits_value(seq![a, b, c, d]) == Some(
            4096 * nibble(a) + 256 * nibble(b) + 16 * nibble(c) + nibble(d),
        ),
        hex_digits_value(seq![b, c, d]) == Some(256 * nibble(b) + 16 * nibble(c) + nibble(d)),
{
    lemma_nibble_value(a);
    lemma_nibble_value(b);
    lemma_nibble_value(c);
    lemma_nibble_value(d);
    reveal_with_fuel(hex_digits_value, 5);
    assert(seq![a, b, c, d].drop_last() =~= seq![a, b, c]);
    assert(seq![a, b, c].drop_last() =~= seq![a, b]);
    assert(seq![a, b].drop_last() =~= seq![a]);
    assert(seq![a].drop_last() =~= seq![]);
    assert(seq![b, c, d].drop_last() =~= seq![b, c]);
    assert(seq![b, c].drop_last() =~= seq![b]);
    assert(seq![b].drop_last() =~= seq![]);
}

#[verifier::spinoff_prover]
proof fn lemma_code_piece(s: Seq<char>, i: nat)
    requires
        i + 1 < s.len(),
        s[i as int] == '\\',
        s[(i + 1) as int] == 'u',
        escape_at(s, i + 1) is Ok,
    ensures
        ({
            let p = escape_at(s, i + 1)->Ok_0;
            &&& p.1 == 5
            &&& i + 6 <= s.len()
            &&& piece_means(cut(s, i, 6), p.0)
        }),
{
    let p = escape_at(s, i + 1)->Ok_0;
    lemma_span(s, i + 2, 4);
    let k = span(s, i + 2, 4)->Chars_0;
    let hex = s.subrange((i + 2) as int, (i + 2 + k) as int);
    let plus = hex.len() > 0 && hex[0] == '+';
    let d = if plus {
        hex.drop_first()
    } else {
        hex
    };
    lemma_hex_chars(d);
    assert forall|j: int| i + 2 <= j < i + 2 + k implies char_width(#[trigger] s[j]) == 1 by {
        assert(s[j] == hex[j - i - 2]);
        if plus {
            if j > i + 2 {
                assert(hex[j - i - 2] == d[j - i - 3]);
            }
        } else {
            assert(hex[j - i - 2] == d[j - i - 2]);
        }
    }
    assert(k == 4);
    let raw = cut(s, i, 6);
    assert(raw[0] == '\\' && raw[1] == 'u');
    assert(raw[2] == hex[0] && raw[3] == hex[1] && raw[4] == hex[2] && raw[5] == hex[3]);
    if plus {
        assert(d[0] == raw[3] && d[1] == raw[4] && d[2] == raw[5]);
        lemma_four_digits(raw[3], raw[3], raw[4], raw[5]);
        assert(d =~= seq![raw[3], raw[4], raw[5]]);
        lemma_nibble_value(raw[3]);
        lemma_nibble_value(raw[4]);
        lemma_nibble_value(raw[5]);
        assert(plus_code_means(raw, p.0));
    } else {
        assert(d[0] == raw[2] && d[1] == raw[3] && d[2] == raw[4] && d[3] == raw[5]);
        lemma_four_digits(raw[2], raw[3], raw[4], raw[5]);
        assert(d =~= seq![raw[2], raw[3], raw[4], raw[5]]);
        lemma_nibble_value(raw[2]);
        lemma_nibble_value(raw[3]);
        lemma_nibble_value(raw[4]);
        lemma_nibble_value(raw[5]);
        assert(code_means(raw, p.0));
    }
}

#[verifier::spinoff_prover]
proof fn lemma_escape_piece(s: Seq<char>, i: nat)
    requires
        i < s.len(),
        s[i as int] == '\\',
        escape_at(s, i + 1) is Ok,
    ensures
        ({
            let p = escape_at(s, i + 1)->Ok_0;
            &&& p.1 > 0
            &&& i + 1 + p.1 <= s.len()
            &&& piece_means(cut(s, i, 1 + p.1), p.0)
        }),
{
    if s[(i + 1) as int] == 'u' {
        lemma_code_piece(s, i);
    } else {
        let raw = cut(s, i, 2);
        assert(raw =~= seq!['\\', s[(i + 1) as int]]);
    }
}

#[verifier::spinoff_prover]
proof fn lemma_string_pieces(s: Seq<char>, i: nat) -> (q: Quoted)
    requires
        chars_at(s, i) is Ok,
    ensures
        ({
            let p = chars_at(s, i)->Ok_0;
            &&& i + p.1 <= s.len()
            &&& p.1 > 0
            &&& q.text == p.0
            &&& q.proper()
            &&& cut(s, i, p.1) == row(q.pieces) + seq!['"']
        }),
    decreases left(s.len(), i),
{
    let p = chars_at(s, i)->Ok_0;
    if s[i as int] == '"' {
        lemma_cut_one(s, i);
        let q = Quoted { pieces: seq![], text: seq![] };
        assert(row(q.pieces) + seq!['"'] =~= seq!['"']);
        q
    } else {
        let n: nat = if s[i as int] == '\\' {
            lemma_escape_piece(s, i);
            escape_at(s, i + 1)->Ok_0.1 + 1
        } else {
            1
        };
        let raw = cut(s, i, n);
        let rest = lemma_string_pieces(s, i + n);
        let m = chars_at(s, i + n)->Ok_0.1;
        assert(p.1 == n + m);
        if s[i as int] != '\\' {
            lemma_cut_one(s, i);
        }
        assert(piece_means(raw, p.0[0]));
        let q = Quoted { pieces: seq![raw] + rest.pieces, text: p.0 };
        lemma_cut(s, i, n, m);
        assert(q.pieces.drop_first() =~= rest.pieces);
        assert(row(q.pieces) + seq!['"'] =~= raw + (row(rest.pieces) + seq!['"']));
        assert forall|k: int| 0 <= k < q.text.len() implies piece_means(
            #[trigger] q.pieces[k],
            q.text[k],
        ) by {
            if k > 0 {
                assert(q.pieces[k] == rest.pieces[k - 1]);
                assert(q.text[k] == rest.text[k - 1]);
                assert(piece_means(rest.pieces[k - 1], rest.text[k - 1]));
            }
        }
        q
    }
}

proof fn lemma_quoted_pieces(s: Seq<char>, i: nat) -> (q: Quoted)
    requires
        string_at(s, i) is Ok,
    ensures
        ({
            let p = string_at(s, i)->Ok_0;
            &&& i + p.1 <= s.len()
            &&& p.1 > 0
            &&& q.text == p.0
            &&& q.proper()
            &&& cut(s, i, p.1) == q.spelled()
        }),
{
    reveal_strlit("\"");
    let q = lemma_string_pieces(s, i + 1);
    let n = chars_at(s, i + 1)->Ok_0.1;
    assert(s.skip(i as int).take(1)[0] == s[i as int]);
    assert("\""@[0] == '"');
    lemma_cut(s, i, 1, n);
    lemma_cut_one(s, i);
    q
}

proof fn lemma_word(s: Seq<char>, i: nat, word: Seq<char>)
    requires
        literal_at(s, i, word) is Ok,
    ensures
        i + word.len() <= s.len(),
        cut(s, i, word.len()) == word,
{
    assert(cut(s, i, word.len()) =~= s.skip(i as int).take(word.len() as int));
}

proof fn lemma_number_run(s: Seq<char>, i: nat)
    ensures
        i <= s.len() ==> i + number_run(s, i) <= s.len(),
    decreases left(s.len(), i),
{
    if i < s.len() {
        lemma_number_run(s, i + 1);
    }
}

/// The value at `s[i]` is laid out as `l`, behind the gap `before`.
pub open spec fn laid_out(
    s: Seq<char>,
    i: nat,
    v: JsonView,
    n: nat,
    before: Seq<char>,
    l: Layout,
) -> bool {
    &&& i + n <= s.len()
    &&& is_gap(before)
    &&& proper(l)
    &&& meaning(l) == v
    &&& cut(s, i, n) == before + spelled(l)
}

#[verifier::spinoff_prover]
#[verifier::rlimit(40)]
proof fn lemma_value_laid_out(s: Seq<char>, i: nat) -> (r: (Seq<char>, Layout))
    requires
        value_at(s, i) is Ok,
        i <= s.len(),
    ensures
        laid_out(s, i, value_at(s, i)->Ok_0.0, value_at(s, i)->Ok_0.1, r.0, r.1),
    decreases left(s.len(), i), 1nat,
{
    let w = blanks(s, i);
    let j = i + w;
    lemma_blank_gap(s, i);
    let g = cut(s, i, w);
    let c = s[j as int];
    let n = (value_at(s, i)->Ok_0.1 - w) as nat;
    if c == '{' {
        let l = lemma_record_laid_out(s, j);
        lemma_cut(s, i, w, n);
        (g, l)
    } else if c == '[' {
        let l = lemma_list_laid_out(s, j);
        lemma_cut(s, i, w, n);
        (g, l)
    } else if c == '"' {
        let q = lemma_quoted_pieces(s, j);
        lemma_cut(s, i, w, n);
        (g, Layout::Text(q))
    } else if c == 't' {
        reveal_strlit("true");
        assert("true"@ =~= seq!['t', 'r', 'u', 'e']);
        lemma_word(s, j, "true"@);
        lemma_cut(s, i, w, n);
        (g, Layout::True)
    } else if c == 'f' {
        reveal_strlit("false");
        assert("false"@ =~= seq!['f', 'a', 'l', 's', 'e']);
        lemma_word(s, j, "false"@);
        lemma_cut(s, i, w, n);
        (g, Layout::False)
    } else if c == 'n' {
        reveal_strlit("null");
        assert("null"@ =~= seq!['n', 'u', 'l', 'l']);
        lemma_word(s, j, "null"@);
        lemma_cut(s, i, w, n);
        (g, Layout::Null)
    } else {
        lemma_number_run(s, j);
        let x = number_at(s, j)->Ok_0.0;
        lemma_cut(s, i, w, n);
        (g, Layout::Number(x))
    }
}

#[verifier::spinoff_prover]
proof fn lemma_list_laid_out(s: Seq<char>, i: nat) -> (l: Layout)
    requires
        items_start(s, i) is Ok,
        i < s.len(),
        s[i as int] == '[',
    ensures
        ({
            let p = items_start(s, i)->Ok_0;
            &&& i + p.1 <= s.len()
            &&& proper(l)
            &&& meaning(l) == JsonView::Array(p.0)
            &&& cut(s, i, p.1) == spelled(l)
        }),
    decreases left(s.len(), i), 0nat,
{
    let b = blanks(s, i + 1);
    let w = 1 + b;
    lemma_blank_gap(s, i + 1);
    lemma_cut_one(s, i);
    let open = cut(s, i + 1, b);
    if s[(i + w) as int] == ']' {
        let l = Layout::List(open, seq![]);
        lemma_cut_one(s, i + w);
        lemma_cut(s, i + 1, b, 1);
        lemma_cut(s, i, 1, b + 1);
        assert(item_meanings(seq![]) =~= seq![]);
        assert(items_spelled(seq![]) == seq![']']);
        l
    } else {
        let items = lemma_items_laid_out(s, i + w);
        let n = items_at(s, i + w)->Ok_0.1;
        lemma_cut(s, i + 1, b, n);
        lemma_cut(s, i, 1, b + n);
        Layout::List(open, items)
    }
}

#[verifier::spinoff_prover]
#[verifier::rlimit(40)]
proof fn lemma_items_laid_out(s: Seq<char>, i: nat) -> (items: Seq<Item>)
    requires
        items_at(s, i) is Ok,
        i <= s.len(),
    ensures
        ({
            let p = items_at(s, i)->Ok_0;
            &&& i + p.1 <= s.len()
            &&& items.len() > 0
            &&& items_proper(items)
            &&& item_meanings(items) == p.0
            &&& cut(s, i, p.1) == items_spelled(items)
        }),
    decreases left(s.len(), i), 2nat,
{
    let (before, value) = lemma_value_laid_out(s, i);
    let n = value_at(s, i)->Ok_0.1;
    let b = blanks(s, i + n);
    let m = n + b;
    lemma_blank_gap(s, i + n);
    let behind = cut(s, i + n, b);
    let item = Item { before, value, behind };
    lemma_cut_one(s, i + m);
    lemma_cut(s, i, n, b);
    let head = before + spelled(value);
    if s[(i + m) as int] == ',' {
        let rest = lemma_items_laid_out(s, i + m + 1);
        let k = items_at(s, i + m + 1)->Ok_0.1;
        let items = seq![item] + rest;
        assert(items.drop_first() =~= rest);
        lemma_cut(s, i + m, 1, k);
        lemma_cut(s, i, m, 1 + k);
        assert(items_spelled(items) == before + (spelled(value) + (behind + (seq![',']
            + items_spelled(rest)))));
        assert(items_spelled(items) =~= (head + behind) + (seq![','] + items_spelled(rest)));
        items
    } else {
        let items = seq![item];
        assert(items.drop_first() =~= seq![]);
        lemma_cut(s, i, m, 1);
        reveal_with_fuel(items_proper, 2);
        reveal_with_fuel(item_meanings, 2);
        assert(item_meanings(items) =~= seq![meaning(value)]);
        assert(items_spelled(items) == before + (spelled(value) + (behind + seq![']'])));
        assert(items_spelled(items) =~= (head + behind) + seq![']']);
        items
    }
}

#[verifier::spinoff_prover]
proof fn lemma_record_laid_out(s: Seq<char>, i: nat) -> (l: Layout)
    requires
        members_start(s, i) is Ok,
        i < s.len(),
        s[i as int] == '{',
    ensures
        ({
            let p = members_start(s, i)->Ok_0;
            &&& i + p.1 <= s.len()
            &&& proper(l)
            &&& meaning(l) == JsonView::Object(p.0)
            &&& cut(s, i, p.1) == spelled(l)
        }),
    decreases left(s.len(), i), 0nat,
{
    let b = blanks(s, i + 1);
    let w = 1 + b;
    lemma_blank_gap(s, i + 1);
    lemma_cut_one(s, i);
    let open = cut(s, i + 1, b);
    if s[(i + w) as int] == '}' {
        let l = Layout::Record(open, seq![]);
        lemma_cut_one(s, i + w);
        lemma_cut(s, i + 1, b, 1);
        lemma_cut(s, i, 1, b + 1);
        assert(entry_meanings(seq![]) =~= seq![]);
        assert(entries_spelled(seq![]) == seq!['}']);
        l
    } else {
        let entries = lemma_entries_laid_out(s, i + w);
        let n = members_at(s, i + w)->Ok_0.1;
        lemma_cut(s, i + 1, b, n);
        lemma_cut(s, i, 1, b + n);
        Layout::Record(open, entries)
    }
}

/// The text of an entry up to its value, and with it.
pub open spec fn entry_head(e: Entry) -> Seq<char> {
    e.before + (e.key.spelled() + (e.mid + (seq![':'] + (e.sep + spelled(e.value)))))
}

#[verifier::spinoff_prover]
#[verifier::rlimit(40)]
proof fn lemma_entry_laid_out(s: Seq<char>, i: nat) -> (e: Entry)
    requires
        member_at(s, i) is Ok,
        i <= s.len(),
    ensures
        ({
            let p = member_at(s, i)->Ok_0;
            &&& i + p.1 <= s.len()
            &&& is_gap(e.before)
            &&& e.key.proper()
            &&& is_gap(e.mid)
            &&& is_gap(e.sep)
            &&& proper(e.value)
            &&& e.key.text == p.0.0
            &&& meaning(e.value) == p.0.1
            &&& cut(s, i, p.1) == entry_head(e)
        }),
    decreases left(s.len(), i), 2nat,
{
    let a = blanks(s, i);
    lemma_blank_gap(s, i);
    let before = cut(s, i, a);
    let key = lemma_quoted_pieces(s, i + a);
    let n = string_at(s, i + a)->Ok_0.1;
    let g = blanks(s, i + a + n);
    lemma_blank_gap(s, i + a + n);
    let mid = cut(s, i + a + n, g);
    let b = a + n + g;
    let (sep, value) = lemma_value_laid_out(s, i + b + 1);
    let m = value_at(s, i + b + 1)->Ok_0.1;
    lemma_cut_one(s, i + b);
    lemma_cut(s, i + b, 1, m);
    lemma_cut(s, i + a + n, g, 1 + m);
    lemma_cut(s, i + a, n, g + (1 + m));
    lemma_cut(s, i, a, n + (g + (1 + m)));
    let e = Entry { before, key, mid, sep, value, behind: seq![] };
    assert(cut(s, i, member_at(s, i)->Ok_0.1) =~= entry_head(e));
    e
}

#[verifier::spinoff_prover]
#[verifier::rlimit(60)]
proof fn lemma_entries_laid_out(s: Seq<char>, i: nat) -> (entries: Seq<Entry>)
    requires
        members_at(s, i) is Ok,
        i <= s.len(),
    ensures
        ({
            let p = members_at(s, i)->Ok_0;
            &&& i + p.1 <= s.len()
            &&& entries.len() > 0
            &&& entries_proper(entries)
            &&& entry_meanings(entries) == p.0
            &&& cut(s, i, p.1) == entries_spelled(entries)
        }),
    decreases left(s.len(), i), 3nat,
{
    let e = lemma_entry_laid_out(s, i);
    let n = member_at(s, i)->Ok_0.1;
    let b = blanks(s, i + n);
    let m = n + b;
    lemma_blank_gap(s, i + n);
    let behind = cut(s, i + n, b);
    let entry = Entry { behind, ..e };
    lemma_cut_one(s, i + m);
    lemma_cut(s, i, n, b);
    let head = entry_head(e);
    if s[(i + m) as int] == ',' {
        let rest = lemma_entries_laid_out(s, i + m + 1);
        let k = members_at(s, i + m + 1)->Ok_0.1;
        let entries = seq![entry] + rest;
        assert(entries.drop_first() =~= rest);
        lemma_cut(s, i + m, 1, k);
        lemma_cut(s, i, m, 1 + k);
        lemma_entry_tail(entry, seq![','] + entries_spelled(rest));
        assert(entries_spelled(entries) == head + behind + (seq![','] + entries_spelled(rest)));
        entries
    } else {
        let entries = seq![entry];
        assert(entries.drop_first() =~= seq![]);
        lemma_cut(s, i, m, 1);
        reveal_with_fuel(entries_proper, 2);
        reveal_with_fuel(entry_meanings, 2);
        assert(entry_meanings(entries) =~= seq![(e.key.text, meaning(e.value))]);
        lemma_entry_tail(entry, seq!['}']);
        assert(entries_spelled(entries) == head + behind + seq!['}']);
        entries
    }
}

proof fn lemma_entry_tail(e: Entry, tail: Seq<char>)
    ensures
        e.before + (e.key.spelled() + (e.mid + (seq![':'] + (e.sep + (spelled(e.value) + (e.behind
            + tail)))))) == entry_head(e) + e.behind + tail,
{
    assert(e.before + (e.key.spelled() + (e.mid + (seq![':'] + (e.sep + (spelled(e.value) + (
    e.behind + tail)))))) =~= entry_head(e) + e.behind + tail);
}

/// A text that is accepted is a value laid out as JSON is, with nothing but gaps round it, and it
/// is read as that value. Together with [`law_layout`](crate::json_layout::law_layout) this says
/// which texts are accepted: the layouts, and no others.
pub proof fn law_accepted_text(s: Seq<char>) -> (r: (Seq<char>, Layout, Seq<char>))
    requires
        json_of(s) is Ok,
    ensures
        s == r.0 + (spelled(r.1) + r.2),
        is_gap(r.0),
        proper(r.1),
        is_gap(r.2),
        json_of(s) == Ok::<JsonView, ErrorView>(meaning(r.1)),
{
    let (before, l) = lemma_value_laid_out(s, 0);
    let n = value_at(s, 0)->Ok_0.1;
    lemma_blank_gap(s, n);
    let behind = cut(s, n, blanks(s, n));
    lemma_cut(s, 0, n, blanks(s, n));
    assert(cut(s, 0, s.len()) =~= s);
    assert(s =~= before + (spelled(l) + behind));
    (before, l, behind)
}

} // verus!
