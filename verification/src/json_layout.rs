//! What a JSON text says does not depend on how it is laid out.

use crate::error::ErrorView;
use crate::json::{
    blank, blanks, char_width, char_with, chars_at, escape_at, hex_digit_of, hex_digits_value,
    hex_value, items_at, items_start, json_of, member_at, members_at, members_start,
    number_char, span, string_at, value_at, JsonView, Span,
};
use crate::json_roundtrip::{
    lemma_blanks_run, lemma_literal_read, lemma_number_read, lemma_numeral_chars,
    lemma_value_array, lemma_value_number, lemma_value_object, lemma_value_string, reads,
};
use crate::numeral::is_numeral;
use crate::text::{lemma_stands_char, lemma_stands_split, stands_at};
use vstd::prelude::*;

verus! {

/// Spaces, tabs, carriage returns and line feeds, in any number.
pub open spec fn is_gap(g: Seq<char>) -> bool {
    forall|i: int|
        0 <= i < g.len() ==> (#[trigger] g[i] == ' ' || g[i] == '\t' || g[i] == '\r' || g[i]
            == '\n')
}

/// The value of a hexadecimal digit of either case.
pub open spec fn nibble(c: char) -> nat {
    let n = c as u32;
    if n <= 57 {
        (n - 48) as nat
    } else if n <= 70 {
        (n - 55) as nat
    } else {
        (n - 87) as nat
    }
}

/// A hexadecimal digit of either case.
pub open spec fn is_nibble(c: char) -> bool {
    ('0' <= c <= '9') || ('A' <= c <= 'F') || ('a' <= c <= 'f')
}

/// The characters `raw` within quotes stand for the character `c`: they are that character
/// itself, a backslash with a letter, or a backslash, the letter `u` and the code of the
/// character, which may have a plus sign. A code that belongs to no character stands for the
/// replacement character.
pub open spec fn piece_means(raw: Seq<char>, c: char) -> bool {
    ||| raw == seq![c] && c != '"' && c != '\\'
    ||| raw == seq!['\\', '"'] && c == '"'
    ||| raw == seq!['\\', '\\'] && c == '\\'
    ||| raw == seq!['\\', '/'] && c == '/'
    ||| raw == seq!['\\', 'b'] && c == '\u{8}'
    ||| raw == seq!['\\', 'f'] && c == '\u{c}'
    ||| raw == seq!['\\', 'n'] && c == '\n'
    ||| raw == seq!['\\', 'r'] && c == '\r'
    ||| raw == seq!['\\', 't'] && c == '\t'
    ||| code_means(raw, c)
    ||| plus_code_means(raw, c)
}

/// The characters are a backslash, `u` and four hexadecimal digits for the character `c`.
pub open spec fn code_means(raw: Seq<char>, c: char) -> bool {
    &&& raw.len() == 6
    &&& raw[0] == '\\' && raw[1] == 'u'
    &&& is_nibble(raw[2]) && is_nibble(raw[3]) && is_nibble(raw[4]) && is_nibble(raw[5])
    &&& ({
        let code = 4096 * nibble(raw[2]) + 256 * nibble(raw[3]) + 16 * nibble(raw[4]) + nibble(
            raw[5],
        );
        if 0xD800 <= code <= 0xDFFF {
            c == '\u{FFFD}'
        } else {
            c as u32 == code
        }
    })
}

/// The same with a plus sign in place of the first of the four digits.
pub open spec fn plus_code_means(raw: Seq<char>, c: char) -> bool {
    &&& raw.len() == 6
    &&& raw[0] == '\\' && raw[1] == 'u' && raw[2] == '+'
    &&& is_nibble(raw[3]) && is_nibble(raw[4]) && is_nibble(raw[5])
    &&& c as u32 == 256 * nibble(raw[3]) + 16 * nibble(raw[4]) + nibble(raw[5])
}

/// A string within quotes, piece by piece, and what it stands for.
pub struct Quoted {
    pub pieces: Seq<Seq<char>>,
    pub text: Seq<char>,
}

/// Pieces one behind the other.
pub open spec fn row(pieces: Seq<Seq<char>>) -> Seq<char>
    decreases pieces.len(),
{
    if pieces.len() == 0 {
        seq![]
    } else {
        pieces[0] + row(pieces.drop_first())
    }
}

impl Quoted {
    /// Each piece stands for one character.
    pub open spec fn proper(self) -> bool {
        self.pieces.len() == self.text.len() && forall|i: int|
            0 <= i < self.text.len() ==> piece_means(#[trigger] self.pieces[i], self.text[i])
    }

    /// The characters, with the quotes.
    pub open spec fn spelled(self) -> Seq<char> {
        seq!['"'] + (row(self.pieces) + seq!['"'])
    }
}

/// A JSON value as it is laid out in a text.
pub enum Layout {
    Null,
    True,
    False,
    Number(Seq<char>),
    Text(Quoted),
    /// An array: a gap behind the bracket, and each element with the gaps around it.
    List(Seq<char>, Seq<Item>),
    /// An object: a gap behind the brace, and its entries.
    Record(Seq<char>, Seq<Entry>),
}

/// An element of an array, with the gaps before and behind it.
pub struct Item {
    pub before: Seq<char>,
    pub value: Layout,
    pub behind: Seq<char>,
}

/// An entry of an object, with the gaps before and behind the key, and before and behind the
/// value.
pub struct Entry {
    pub before: Seq<char>,
    pub key: Quoted,
    pub mid: Seq<char>,
    pub sep: Seq<char>,
    pub value: Layout,
    pub behind: Seq<char>,
}

/// The value that is laid out.
pub open spec fn meaning(l: Layout) -> JsonView
    decreases l,
{
    match l {
        Layout::Null => JsonView::Null,
        Layout::True => JsonView::Bool(true),
        Layout::False => JsonView::Bool(false),
        Layout::Number(n) => JsonView::Number(n),
        Layout::Text(q) => JsonView::String(q.text),
        Layout::List(_, items) => JsonView::Array(item_meanings(items)),
        Layout::Record(_, entries) => JsonView::Object(entry_meanings(entries)),
    }
}

pub open spec fn item_meanings(items: Seq<Item>) -> Seq<JsonView>
    decreases items,
{
    if items.len() == 0 {
        seq![]
    } else {
        seq![meaning(items[0].value)] + item_meanings(items.drop_first())
    }
}

pub open spec fn entry_meanings(entries: Seq<Entry>) -> Seq<(Seq<char>, JsonView)>
    decreases entries,
{
    if entries.len() == 0 {
        seq![]
    } else {
        seq![(entries[0].key.text, meaning(entries[0].value))] + entry_meanings(
            entries.drop_first(),
        )
    }
}

/// The gaps are gaps, the strings are proper, and the numbers are numerals.
pub open spec fn proper(l: Layout) -> bool
    decreases l,
{
    match l {
        Layout::Number(n) => is_numeral(n),
        Layout::Text(q) => q.proper(),
        Layout::List(open, items) => is_gap(open) && items_proper(items),
        Layout::Record(open, entries) => is_gap(open) && entries_proper(entries),
        _ => true,
    }
}

pub open spec fn items_proper(items: Seq<Item>) -> bool
    decreases items,
{
    items.len() == 0 || {
        &&& is_gap(items[0].before)
        &&& proper(items[0].value)
        &&& is_gap(items[0].behind)
        &&& items_proper(items.drop_first())
    }
}

pub open spec fn entries_proper(entries: Seq<Entry>) -> bool
    decreases entries,
{
    entries.len() == 0 || {
        &&& is_gap(entries[0].before)
        &&& entries[0].key.proper()
        &&& is_gap(entries[0].mid)
        &&& is_gap(entries[0].sep)
        &&& proper(entries[0].value)
        &&& is_gap(entries[0].behind)
        &&& entries_proper(entries.drop_first())
    }
}

/// The text of a layout.
pub open spec fn spelled(l: Layout) -> Seq<char>
    decreases l,
{
    match l {
        Layout::Null => seq!['n', 'u', 'l', 'l'],
        Layout::True => seq!['t', 'r', 'u', 'e'],
        Layout::False => seq!['f', 'a', 'l', 's', 'e'],
        Layout::Number(n) => n,
        Layout::Text(q) => q.spelled(),
        Layout::List(open, items) => seq!['['] + (open + items_spelled(items)),
        Layout::Record(open, entries) => seq!['{'] + (open + entries_spelled(entries)),
    }
}

/// The elements of an array with their commas, and the bracket that ends it.
pub open spec fn items_spelled(items: Seq<Item>) -> Seq<char>
    decreases items,
{
    if items.len() == 0 {
        seq![']']
    } else {
        items[0].before + (spelled(items[0].value) + (items[0].behind + (if items.len() == 1 {
            seq![']']
        } else {
            seq![','] + items_spelled(items.drop_first())
        })))
    }
}

/// The entries of an object with their commas, and the brace that ends it.
pub open spec fn entries_spelled(entries: Seq<Entry>) -> Seq<char>
    decreases entries,
{
    if entries.len() == 0 {
        seq!['}']
    } else {
        let e = entries[0];
        e.before + (e.key.spelled() + (e.mid + (seq![':'] + (e.sep + (spelled(e.value) + (e.behind
            + (if entries.len() == 1 {
            seq!['}']
        } else {
            seq![','] + entries_spelled(entries.drop_first())
        })))))))
    }
}

proof fn lemma_gap(g: Seq<char>, s: Seq<char>, i: nat)
    requires
        is_gap(g),
        stands_at(g, s, i),
        i + g.len() == s.len() || !blank(s[(i + g.len()) as int]),
    ensures
        blanks(s, i) == g.len(),
{
    assert forall|j: int| i <= j < i + g.len() implies blank(#[trigger] s[j]) by {
        lemma_stands_char(g, s, i, (j - i) as nat);
        assert(g[j - i] == s[j]);
    }
    lemma_blanks_run(s, i, g.len());
}

/// Two gaps one behind the other are one.
proof fn lemma_two_gaps(g: Seq<char>, h: Seq<char>, s: Seq<char>, i: nat)
    requires
        is_gap(g),
        is_gap(h),
        stands_at(g, s, i),
        stands_at(h, s, i + g.len()),
        i + g.len() + h.len() == s.len() || !blank(s[(i + g.len() + h.len()) as int]),
    ensures
        blanks(s, i) == g.len() + h.len(),
{
    assert(is_gap(g + h));
    assert(s.subrange(i as int, (i + g.len() + h.len()) as int) =~= g + h);
    lemma_gap(g + h, s, i);
}

proof fn lemma_nibble(c: char)
    requires
        is_nibble(c),
    ensures
        hex_digit_of(c) == Some(nibble(c)),
        nibble(c) < 16,
        char_width(c) == 1,
        c != '+',
{
}

#[verifier::spinoff_prover]
proof fn lemma_code_read(raw: Seq<char>, c: char, s: Seq<char>, i: nat)
    requires
        code_means(raw, c),
        stands_at(raw, s, i),
    ensures
        escape_at(s, i + 1) == Ok::<(char, nat), ErrorView>((c, 5)),
{
    lemma_stands_char(raw, s, i, 1);
    lemma_stands_char(raw, s, i, 2);
    lemma_stands_char(raw, s, i, 3);
    lemma_stands_char(raw, s, i, 4);
    lemma_stands_char(raw, s, i, 5);
    lemma_nibble(raw[2]);
    lemma_nibble(raw[3]);
    lemma_nibble(raw[4]);
    lemma_nibble(raw[5]);
    reveal_with_fuel(span, 5);
    assert(span(s, i + 2, 4) == Span::Chars(4));
    let hex = s.subrange((i + 2) as int, (i + 6) as int);
    let a = raw[2];
    let b = raw[3];
    let d = raw[4];
    let e = raw[5];
    assert(hex =~= seq![a, b, d, e]);
    assert(hex.drop_last() =~= seq![a, b, d]);
    assert(seq![a, b, d].drop_last() =~= seq![a, b]);
    assert(seq![a, b].drop_last() =~= seq![a]);
    assert(seq![a].drop_last() =~= seq![]);
    reveal_with_fuel(hex_digits_value, 5);
    let code = 4096 * nibble(a) + 256 * nibble(b) + 16 * nibble(d) + nibble(e);
    assert(hex_value(hex) == Some(code));
    assert(char_with(code) == c);
}

#[verifier::spinoff_prover]
proof fn lemma_plus_code_read(raw: Seq<char>, c: char, s: Seq<char>, i: nat)
    requires
        plus_code_means(raw, c),
        stands_at(raw, s, i),
    ensures
        escape_at(s, i + 1) == Ok::<(char, nat), ErrorView>((c, 5)),
{
    lemma_stands_char(raw, s, i, 1);
    lemma_stands_char(raw, s, i, 2);
    lemma_stands_char(raw, s, i, 3);
    lemma_stands_char(raw, s, i, 4);
    lemma_stands_char(raw, s, i, 5);
    lemma_nibble(raw[3]);
    lemma_nibble(raw[4]);
    lemma_nibble(raw[5]);
    reveal_with_fuel(span, 5);
    assert(span(s, i + 2, 4) == Span::Chars(4));
    let hex = s.subrange((i + 2) as int, (i + 6) as int);
    let b = raw[3];
    let d = raw[4];
    let e = raw[5];
    assert(hex[0] == raw[2]);
    assert(hex.drop_first() =~= seq![b, d, e]);
    assert(seq![b, d, e].drop_last() =~= seq![b, d]);
    assert(seq![b, d].drop_last() =~= seq![b]);
    assert(seq![b].drop_last() =~= seq![]);
    reveal_with_fuel(hex_digits_value, 5);
    let code = 256 * nibble(b) + 16 * nibble(d) + nibble(e);
    assert(hex_value(hex) == Some(code));
    assert(char_with(code) == c);
}

proof fn lemma_piece_read(raw: Seq<char>, c: char, s: Seq<char>, i: nat)
    requires
        piece_means(raw, c),
        stands_at(raw, s, i),
    ensures
        raw.len() > 0,
        i < s.len(),
        s[i as int] != '"',
        if s[i as int] == '\\' {
            escape_at(s, i + 1) == Ok::<(char, nat), ErrorView>((c, (raw.len() - 1) as nat))
        } else {
            s[i as int] == c && raw.len() == 1
        },
{
    assert(raw.len() > 0);
    lemma_stands_char(raw, s, i, 0);
    if code_means(raw, c) {
        lemma_code_read(raw, c, s, i);
    } else if plus_code_means(raw, c) {
        lemma_plus_code_read(raw, c, s, i);
    } else if raw.len() == 2 {
        lemma_stands_char(raw, s, i, 1);
    }
}

proof fn lemma_pieces_read(pieces: Seq<Seq<char>>, text: Seq<char>, s: Seq<char>, i: nat)
    requires
        (Quoted { pieces, text }).proper(),
        stands_at(row(pieces) + seq!['"'], s, i),
    ensures
        chars_at(s, i) == Ok::<(Seq<char>, nat), ErrorView>((text, row(pieces).len() + 1)),
    decreases pieces.len(),
{
    if pieces.len() == 0 {
        lemma_stands_char(row(pieces) + seq!['"'], s, i, 0);
        assert(text =~= seq![]);
    } else {
        let more = pieces.drop_first();
        let rest = text.drop_first();
        assert(row(pieces) + seq!['"'] =~= pieces[0] + (row(more) + seq!['"']));
        lemma_stands_split(s, i, pieces[0], row(more) + seq!['"']);
        assert(piece_means(pieces[0], text[0]));
        lemma_piece_read(pieces[0], text[0], s, i);
        assert forall|k: int| 0 <= k < rest.len() implies piece_means(
            #[trigger] more[k],
            rest[k],
        ) by {
            assert(piece_means(pieces[k + 1], text[k + 1]));
        }
        lemma_pieces_read(more, rest, s, i + pieces[0].len());
        assert(seq![text[0]] + rest =~= text);
    }
}

proof fn lemma_quoted_read(q: Quoted, s: Seq<char>, i: nat)
    requires
        q.proper(),
        stands_at(q.spelled(), s, i),
    ensures
        string_at(s, i) == Ok::<(Seq<char>, nat), ErrorView>((q.text, q.spelled().len())),
        i < s.len(),
        s[i as int] == '"',
{
    reveal_strlit("\"");
    lemma_stands_split(s, i, seq!['"'], row(q.pieces) + seq!['"']);
    lemma_stands_char(q.spelled(), s, i, 0);
    lemma_pieces_read(q.pieces, q.text, s, i + 1);
    assert("\""@ =~= seq!['"']);
    lemma_literal_read(seq!['"'], s, i);
}

/// A value starts with no blank and no closing bracket.
proof fn lemma_start(l: Layout)
    requires
        proper(l),
    ensures
        spelled(l).len() > 0,
        !blank(spelled(l)[0]),
        spelled(l)[0] != ']',
        spelled(l)[0] != '}',
{
    match l {
        Layout::Number(n) => {
            lemma_numeral_chars(n);
            assert(number_char(n[0]));
        },
        _ => {},
    }
}

#[verifier::spinoff_prover]
proof fn lemma_word(l: Layout, s: Seq<char>, i: nat, w: nat)
    requires
        l is Null || l is True || l is False,
        blanks(s, i) == w,
        stands_at(spelled(l), s, i + w),
    ensures
        reads(s, i, meaning(l), w + spelled(l).len()),
{
    reveal(reads);
    reveal_strlit("null");
    reveal_strlit("true");
    reveal_strlit("false");
    assert("null"@ =~= seq!['n', 'u', 'l', 'l']);
    assert("true"@ =~= seq!['t', 'r', 'u', 'e']);
    assert("false"@ =~= seq!['f', 'a', 'l', 's', 'e']);
    lemma_stands_char(spelled(l), s, i + w, 0);
    lemma_literal_read(spelled(l), s, i + w);
}

/// Reading gives the value that is laid out behind `w` blanks, where no character follows of
/// which numbers are made.
#[verifier::spinoff_prover]
proof fn lemma_layout_read(l: Layout, s: Seq<char>, i: nat, w: nat)
    requires
        proper(l),
        blanks(s, i) == w,
        stands_at(spelled(l), s, i + w),
        ({
            let end = i + w + spelled(l).len();
            end == s.len() || !number_char(s[end as int])
        }),
    ensures
        reads(s, i, meaning(l), w + spelled(l).len()),
    decreases l, 2nat,
{
    lemma_start(l);
    lemma_stands_char(spelled(l), s, i + w, 0);
    match l {
        Layout::Number(n) => {
            lemma_numeral_chars(n);
            lemma_number_read(n, s, i + w);
            lemma_value_number(s, i, w, n);
        },
        Layout::Text(q) => {
            lemma_quoted_read(q, s, i + w);
            lemma_value_string(s, i, w, q.text, q.spelled().len());
        },
        Layout::List(open, items) => {
            lemma_list_read(open, items, s, i + w);
            lemma_value_array(s, i, w, item_meanings(items), spelled(l).len());
        },
        Layout::Record(open, entries) => {
            lemma_record_read(open, entries, s, i + w);
            lemma_value_object(s, i, w, entry_meanings(entries), spelled(l).len());
        },
        _ => lemma_word(l, s, i, w),
    }
}

#[verifier::spinoff_prover]
#[verifier::rlimit(40)]
proof fn lemma_list_read(open: Seq<char>, items: Seq<Item>, s: Seq<char>, i: nat)
    requires
        is_gap(open),
        items_proper(items),
        stands_at(seq!['['] + (open + items_spelled(items)), s, i),
    ensures
        items_start(s, i) == Ok::<(Seq<JsonView>, nat), ErrorView>(
            (item_meanings(items), (seq!['['] + (open + items_spelled(items))).len()),
        ),
    decreases items, 1nat,
{
    let t = items_spelled(items);
    lemma_stands_split(s, i, seq!['['], open + t);
    lemma_stands_split(s, i + 1, open, t);
    let p = i + 1 + open.len();
    lemma_stands_char(seq!['['], s, i, 0);
    if items.len() == 0 {
        lemma_stands_char(seq![']'], s, p, 0);
        lemma_gap(open, s, i + 1);
    } else {
        let a = items[0];
        let tail = a.behind + (if items.len() == 1 {
            seq![']']
        } else {
            seq![','] + items_spelled(items.drop_first())
        });
        lemma_stands_split(s, p, a.before, spelled(a.value) + tail);
        lemma_stands_split(s, p + a.before.len(), spelled(a.value), tail);
        lemma_start(a.value);
        let q = p + a.before.len();
        lemma_stands_char(spelled(a.value), s, q, 0);
        lemma_two_gaps(open, a.before, s, i + 1);
        assert(s.subrange(q as int, q as int) =~= Seq::<char>::empty());
        lemma_items_read(Seq::empty(), items, s, q);
    }
}

#[verifier::spinoff_prover]
#[verifier::rlimit(40)]
proof fn lemma_items_read(g: Seq<char>, items: Seq<Item>, s: Seq<char>, i: nat)
    requires
        is_gap(g),
        items.len() > 0,
        items_proper(items),
        stands_at(g, s, i),
        stands_at(
            spelled(items[0].value) + (items[0].behind + (if items.len() == 1 {
                seq![']']
            } else {
                seq![','] + items_spelled(items.drop_first())
            })),
            s,
            i + g.len(),
        ),
    ensures
        items_at(s, i) == Ok::<(Seq<JsonView>, nat), ErrorView>(
            (
                item_meanings(items),
                (g.len() + items_spelled(items).len() - items[0].before.len()) as nat,
            ),
        ),
    decreases items, 0nat,
{
    let a = items[0];
    let rest = items.drop_first();
    let x = spelled(a.value);
    let last = if items.len() == 1 {
        seq![']']
    } else {
        seq![','] + items_spelled(rest)
    };
    let p = i + g.len();
    let q = p + x.len();
    let r = q + a.behind.len();
    lemma_stands_split(s, p, x, a.behind + last);
    lemma_stands_split(s, q, a.behind, last);
    lemma_stands_char(last, s, r, 0);
    lemma_start(a.value);
    lemma_stands_char(x, s, p, 0);
    lemma_gap(g, s, i);
    lemma_gap(a.behind, s, q);
    assert(!number_char(s[q as int])) by {
        if a.behind.len() > 0 {
            lemma_stands_char(a.behind, s, q, 0);
            assert(a.behind[0] == s[q as int]);
        }
    }
    lemma_layout_read(a.value, s, i, g.len());
    assert(value_at(s, i) == Ok::<(JsonView, nat), ErrorView>(
        (meaning(a.value), g.len() + x.len()),
    )) by {
        reveal(reads);
    }
    if items.len() == 1 {
        assert(item_meanings(rest) =~= seq![]);
        assert(item_meanings(items) =~= seq![meaning(a.value)]);
    } else {
        let b = rest[0];
        let more = spelled(b.value) + (b.behind + (if rest.len() == 1 {
            seq![']']
        } else {
            seq![','] + items_spelled(rest.drop_first())
        }));
        assert(items_spelled(rest) == b.before + more);
        lemma_stands_split(s, r, seq![','], items_spelled(rest));
        lemma_stands_split(s, r + 1, b.before, more);
        reveal_with_fuel(items_proper, 2);
        lemma_items_read(b.before, rest, s, r + 1);
    }
}

#[verifier::spinoff_prover]
#[verifier::rlimit(40)]
proof fn lemma_record_read(open: Seq<char>, entries: Seq<Entry>, s: Seq<char>, i: nat)
    requires
        is_gap(open),
        entries_proper(entries),
        stands_at(seq!['{'] + (open + entries_spelled(entries)), s, i),
    ensures
        members_start(s, i) == Ok::<(Seq<(Seq<char>, JsonView)>, nat), ErrorView>(
            (entry_meanings(entries), (seq!['{'] + (open + entries_spelled(entries))).len()),
        ),
    decreases entries, 1nat,
{
    let t = entries_spelled(entries);
    lemma_stands_split(s, i, seq!['{'], open + t);
    lemma_stands_split(s, i + 1, open, t);
    let p = i + 1 + open.len();
    lemma_stands_char(seq!['{'], s, i, 0);
    if entries.len() == 0 {
        lemma_stands_char(seq!['}'], s, p, 0);
        lemma_gap(open, s, i + 1);
    } else {
        let a = entries[0];
        let rest = entry_rest(entries);
        assert(t == a.before + rest);
        lemma_stands_split(s, p, a.before, rest);
        let q = p + a.before.len();
        assert(rest[0] == '"');
        lemma_stands_char(rest, s, q, 0);
        lemma_two_gaps(open, a.before, s, i + 1);
        assert(s.subrange(q as int, q as int) =~= Seq::<char>::empty());
        lemma_entries_read(Seq::empty(), entries, s, q);
    }
}

/// The entries of an object from the first key on.
spec fn entry_rest(entries: Seq<Entry>) -> Seq<char>
    recommends
        entries.len() > 0,
{
    let e = entries[0];
    e.key.spelled() + (e.mid + (seq![':'] + (e.sep + (spelled(e.value) + (e.behind + (
    if entries.len() == 1 {
        seq!['}']
    } else {
        seq![','] + entries_spelled(entries.drop_first())
    }))))))
}

#[verifier::spinoff_prover]
#[verifier::rlimit(40)]
proof fn lemma_entry_read(g: Seq<char>, a: Entry, last: Seq<char>, s: Seq<char>, i: nat)
    requires
        is_gap(g),
        a.key.proper(),
        is_gap(a.mid),
        is_gap(a.sep),
        proper(a.value),
        is_gap(a.behind),
        stands_at(g, s, i),
        last.len() > 0,
        last[0] == ',' || last[0] == '}',
        stands_at(
            a.key.spelled() + (a.mid + (seq![':'] + (a.sep + (spelled(a.value) + (a.behind
                + last))))),
            s,
            i + g.len(),
        ),
    ensures
        ({
            let n = g.len() + a.key.spelled().len() + a.mid.len() + 1 + a.sep.len() + spelled(
                a.value,
            ).len();
            &&& member_at(s, i) == Ok::<((Seq<char>, JsonView), nat), ErrorView>(
                ((a.key.text, meaning(a.value)), n),
            )
            &&& blanks(s, i + n) == a.behind.len()
            &&& stands_at(last, s, i + n + a.behind.len())
        }),
    decreases a, 3nat,
{
    let k = a.key.spelled();
    let x = spelled(a.value);
    let p0 = i + g.len();
    let p1 = p0 + k.len();
    let p2 = p1 + a.mid.len();
    let p3 = p2 + 1;
    let p4 = p3 + a.sep.len();
    let p5 = p4 + x.len();
    let p6 = p5 + a.behind.len();
    let t5 = a.behind + last;
    let t4 = x + t5;
    let t3 = a.sep + t4;
    let t2 = seq![':'] + t3;
    let t1 = a.mid + t2;
    lemma_stands_split(s, p0, k, t1);
    lemma_stands_split(s, p1, a.mid, t2);
    lemma_stands_split(s, p2, seq![':'], t3);
    lemma_stands_split(s, p3, a.sep, t4);
    lemma_stands_split(s, p4, x, t5);
    lemma_stands_split(s, p5, a.behind, last);
    lemma_stands_char(last, s, p6, 0);
    lemma_stands_char(seq![':'], s, p2, 0);
    lemma_quoted_read(a.key, s, p0);
    lemma_gap(g, s, i);
    lemma_gap(a.mid, s, p1);
    lemma_start(a.value);
    lemma_stands_char(x, s, p4, 0);
    lemma_gap(a.sep, s, p3);
    lemma_gap(a.behind, s, p5);
    assert(!number_char(s[p5 as int])) by {
        if a.behind.len() > 0 {
            lemma_stands_char(a.behind, s, p5, 0);
            assert(a.behind[0] == s[p5 as int]);
        }
    }
    lemma_layout_read(a.value, s, p3, a.sep.len());
    assert(value_at(s, p3) == Ok::<(JsonView, nat), ErrorView>(
        (meaning(a.value), a.sep.len() + x.len()),
    )) by {
        reveal(reads);
    }
}

#[verifier::spinoff_prover]
#[verifier::rlimit(40)]
proof fn lemma_entries_read(g: Seq<char>, entries: Seq<Entry>, s: Seq<char>, i: nat)
    requires
        is_gap(g),
        entries.len() > 0,
        entries_proper(entries),
        stands_at(g, s, i),
        stands_at(entry_rest(entries), s, i + g.len()),
    ensures
        members_at(s, i) == Ok::<(Seq<(Seq<char>, JsonView)>, nat), ErrorView>(
            (entry_meanings(entries), g.len() + entry_rest(entries).len()),
        ),
    decreases entries, 0nat,
{
    let a = entries[0];
    let rest = entries.drop_first();
    let last = if entries.len() == 1 {
        seq!['}']
    } else {
        seq![','] + entries_spelled(rest)
    };
    assert(last[0] == if entries.len() == 1 {
        '}'
    } else {
        ','
    });
    lemma_entry_read(g, a, last, s, i);
    let n = g.len() + a.key.spelled().len() + a.mid.len() + 1 + a.sep.len() + spelled(
        a.value,
    ).len();
    let r = i + n + a.behind.len();
    lemma_stands_char(last, s, r, 0);
    assert(entry_rest(entries).len() + g.len() == n + a.behind.len() + last.len());
    if entries.len() == 1 {
        assert(entry_meanings(rest) =~= seq![]);
        assert(entry_meanings(entries) =~= seq![(a.key.text, meaning(a.value))]);
    } else {
        let b = rest[0];
        assert(entries_spelled(rest) == b.before + entry_rest(rest));
        lemma_stands_split(s, r, seq![','], entries_spelled(rest));
        lemma_stands_split(s, r + 1, b.before, entry_rest(rest));
        reveal_with_fuel(entries_proper, 2);
        lemma_entries_read(b.before, rest, s, r + 1);
    }
}

/// A JSON text says what it says, whatever spaces, tabs, carriage returns and line feeds stand
/// before and behind its tokens, and whichever way the characters of its strings are written.
pub proof fn law_layout(before: Seq<char>, l: Layout, behind: Seq<char>)
    requires
        is_gap(before),
        proper(l),
        is_gap(behind),
    ensures
        json_of(before + (spelled(l) + behind)) == Ok::<JsonView, ErrorView>(meaning(l)),
{
    let s = before + (spelled(l) + behind);
    let p = before.len();
    let q = p + spelled(l).len();
    assert(s.subrange(0, s.len() as int) =~= s);
    lemma_stands_split(s, 0, before, spelled(l) + behind);
    lemma_stands_split(s, p, spelled(l), behind);
    lemma_start(l);
    lemma_stands_char(spelled(l), s, p, 0);
    lemma_gap(before, s, 0);
    lemma_gap(behind, s, q);
    if behind.len() > 0 {
        lemma_stands_char(behind, s, q, 0);
        assert(behind[0] == s[q as int]);
    }
    lemma_layout_read(l, s, 0, p);
    reveal(reads);
}

} // verus!
