//! A JSON value that is written is read back.

use crate::error::ErrorView;
use crate::json::{
    blank, blanks, char_with, char_width, chars_at, escape_at, escaped, escaped_char, hex_char,
    hex_digit_of, hex_digits_value, hex_value, indent, items_at, items_start, json_of, line_end,
    literal_at, member_at, members_at, members_start, number_at, number_char, number_run,
    quoted, span, string_at, value_at, written, written_items, written_members, JsonView, Span,
};
use crate::numeral::{digit_run, is_numeral, lemma_digit_run_bound, mantissa_end, sign_len};
use crate::text::{is_digit, left, lemma_stands_char, lemma_stands_split, stands_at};
use vstd::prelude::*;

verus! {

/// Every number in the value is a numeral.
pub open spec fn numbers_ok(v: JsonView) -> bool
    decreases v,
{
    match v {
        JsonView::Number(n) => is_numeral(n),
        JsonView::Array(items) => all_numbers_ok(items),
        JsonView::Object(entries) => member_numbers_ok(entries),
        _ => true,
    }
}

/// Every number in a list is a numeral.
pub open spec fn all_numbers_ok(items: Seq<JsonView>) -> bool
    decreases items,
{
    items.len() == 0 || (numbers_ok(items[0]) && all_numbers_ok(items.drop_first()))
}

/// Every number in the entries of an object is a numeral.
pub open spec fn member_numbers_ok(entries: Seq<(Seq<char>, JsonView)>) -> bool
    decreases entries,
{
    entries.len() == 0 || (numbers_ok(entries[0].1) && member_numbers_ok(entries.drop_first()))
}

/// Where the numbers in each entry are numerals, those in all of them are.
pub proof fn lemma_members_ok(entries: Seq<(Seq<char>, JsonView)>)
    requires
        forall|i: int| 0 <= i < entries.len() ==> numbers_ok((#[trigger] entries[i]).1),
    ensures
        member_numbers_ok(entries),
    decreases entries.len(),
{
    if entries.len() > 0 {
        let rest = entries.drop_first();
        assert(numbers_ok(entries[0].1));
        assert forall|i: int| 0 <= i < rest.len() implies numbers_ok((#[trigger] rest[i]).1) by {
            assert(numbers_ok(entries[i + 1].1));
        }
        lemma_members_ok(rest);
    }
}

proof fn lemma_hex_char(d: nat)
    requires
        d < 16,
    ensures
        hex_digit_of(hex_char(d)) == Some(d),
        char_width(hex_char(d)) == 1,
{
}

/// The escape sequence of a control character is read back.
proof fn lemma_control_read(c: char, s: Seq<char>, i: nat)
    requires
        (c as u32) < 0x20,
        stands_at(
            seq!['\\', 'u', '0', '0', hex_char(c as nat / 16), hex_char(c as nat % 16)],
            s,
            i,
        ),
    ensures
        escape_at(s, i + 1) == Ok::<(char, nat), ErrorView>((c, 5)),
{
    let hi = hex_char(c as nat / 16);
    let lo = hex_char(c as nat % 16);
    let e = seq!['\\', 'u', '0', '0', hi, lo];
    lemma_stands_char(e, s, i, 1);
    lemma_stands_char(e, s, i, 2);
    lemma_stands_char(e, s, i, 3);
    lemma_stands_char(e, s, i, 4);
    lemma_stands_char(e, s, i, 5);
    lemma_hex_char(c as nat / 16);
    lemma_hex_char(c as nat % 16);
    reveal_with_fuel(span, 5);
    assert(span(s, i + 2, 4) == Span::Chars(4));
    let hex = s.subrange((i + 2) as int, (i + 6) as int);
    assert(hex =~= seq!['0', '0', hi, lo]);
    assert(hex.drop_last() =~= seq!['0', '0', hi]);
    assert(seq!['0', '0', hi].drop_last() =~= seq!['0', '0']);
    assert(seq!['0', '0'].drop_last() =~= seq!['0']);
    assert(seq!['0'].drop_last() =~= seq![]);
    reveal_with_fuel(hex_digits_value, 5);
    assert(hex_value(hex) == Some(c as nat));
    assert(char_with(c as nat) == c);
}

/// A character is read back.
proof fn lemma_char_read(c: char, s: Seq<char>, i: nat)
    requires
        stands_at(escaped_char(c), s, i),
    ensures
        i < s.len(),
        s[i as int] != '"',
        if s[i as int] == '\\' {
            escape_at(s, i + 1) == Ok::<(char, nat), ErrorView>(
                (c, (escaped_char(c).len() - 1) as nat),
            )
        } else {
            s[i as int] == c && escaped_char(c).len() == 1
        },
        escaped_char(c).len() > 0,
{
    let e = escaped_char(c);
    lemma_stands_char(e, s, i, 0);
    if e.len() == 2 {
        lemma_stands_char(e, s, i, 1);
    } else if e.len() == 6 {
        lemma_control_read(c, s, i);
    }
}

/// The characters of a string are read back.
proof fn lemma_chars_read(x: Seq<char>, s: Seq<char>, i: nat)
    requires
        stands_at(escaped(x) + seq!['"'], s, i),
    ensures
        chars_at(s, i) == Ok::<(Seq<char>, nat), ErrorView>((x, escaped(x).len() + 1)),
    decreases x.len(),
{
    if x.len() == 0 {
        lemma_stands_char(escaped(x) + seq!['"'], s, i, 0);
        assert(x =~= seq![]);
    } else {
        let e = escaped_char(x[0]);
        let rest = x.drop_first();
        assert(escaped(x) + seq!['"'] =~= e + (escaped(rest) + seq!['"']));
        lemma_stands_split(s, i, e, escaped(rest) + seq!['"']);
        lemma_char_read(x[0], s, i);
        lemma_chars_read(rest, s, i + e.len());
        assert(seq![x[0]] + rest =~= x);
    }
}

/// A string is read back.
proof fn lemma_string_read(x: Seq<char>, s: Seq<char>, i: nat)
    requires
        stands_at(quoted(x), s, i),
    ensures
        string_at(s, i) == Ok::<(Seq<char>, nat), ErrorView>((x, quoted(x).len())),
{
    reveal_strlit("\"");
    assert(quoted(x) =~= seq!['"'] + (escaped(x) + seq!['"']));
    lemma_stands_split(s, i, seq!['"'], escaped(x) + seq!['"']);
    lemma_chars_read(x, s, i + 1);
    assert("\""@ =~= seq!['"']);
    lemma_literal_read(seq!['"'], s, i);
}

pub proof fn lemma_literal_read(lit: Seq<char>, s: Seq<char>, i: nat)
    requires
        stands_at(lit, s, i),
    ensures
        literal_at(s, i, lit) == Ok::<nat, ErrorView>(lit.len()),
{
    assert(s.skip(i as int).take(lit.len() as int) =~= s.subrange(
        i as int,
        (i + lit.len()) as int,
    ));
}

/// A row of blanks is skipped to its end.
pub proof fn lemma_blanks_run(s: Seq<char>, i: nat, k: nat)
    requires
        i + k <= s.len(),
        forall|j: int| i <= j < i + k ==> blank(#[trigger] s[j]),
        i + k == s.len() || !blank(s[(i + k) as int]),
    ensures
        blanks(s, i) == k,
    decreases k,
{
    if k > 0 {
        lemma_blanks_run(s, i + 1, (k - 1) as nat);
    }
}

proof fn lemma_indent(n: nat)
    ensures
        indent(n).len() == 2 * n,
        forall|j: int| 0 <= j < indent(n).len() ==> #[trigger] indent(n)[j] == ' ',
    decreases n,
{
    if n > 0 {
        lemma_indent((n - 1) as nat);
    }
}

/// A line break and the indentation behind it are skipped.
proof fn lemma_break_skipped(s: Seq<char>, i: nat, n: nat)
    requires
        stands_at(seq!['\n'] + indent(n), s, i),
        i + 1 + 2 * n == s.len() || !blank(s[(i + 1 + 2 * n) as int]),
    ensures
        blanks(s, i) == 1 + 2 * n,
{
    lemma_indent(n);
    let t = seq!['\n'] + indent(n);
    assert forall|j: int| i <= j < i + t.len() implies blank(#[trigger] s[j]) by {
        lemma_stands_char(t, s, i, (j - i) as nat);
    }
    lemma_blanks_run(s, i, 1 + 2 * n);
}

proof fn lemma_digit_run_chars(s: Seq<char>, i: nat)
    ensures
        forall|j: int| i <= j < i + digit_run(s, i) ==> is_digit(#[trigger] s[j]),
    decreases left(s.len(), i),
{
    if i < s.len() && is_digit(s[i as int]) {
        lemma_digit_run_chars(s, i + 1);
    }
}

/// A numeral is not empty and is made of the characters of which numbers are made.
pub proof fn lemma_numeral_chars(t: Seq<char>)
    requires
        is_numeral(t),
    ensures
        t.len() > 0,
        forall|j: int| 0 <= j < t.len() ==> number_char(#[trigger] t[j]),
        t[0] != '{' && t[0] != '[' && t[0] != '"' && t[0] != 't' && t[0] != 'f' && t[0] != 'n',
        !blank(t[0]),
{
    reveal(is_numeral);
    let i = sign_len(t, 0);
    let a = i + digit_run(t, i);
    let m = mantissa_end(t, i);
    let d = m + 1 + sign_len(t, m + 1);
    lemma_digit_run_chars(t, i);
    lemma_digit_run_chars(t, a + 1);
    lemma_digit_run_chars(t, d);
    lemma_digit_run_bound(t, i);
    lemma_digit_run_bound(t, a + 1);
    assert forall|j: int| 0 <= j < t.len() implies number_char(#[trigger] t[j]) by {
        if j < i {
        } else if j < a {
            assert(is_digit(t[j]));
        } else if j < m {
            if j > a {
                assert(is_digit(t[j]));
            }
        } else if j >= d {
            assert(is_digit(t[j]));
        }
    }
    assert(number_char(t[0]));
}

proof fn lemma_number_run(s: Seq<char>, i: nat, k: nat)
    requires
        i + k <= s.len(),
        forall|j: int| i <= j < i + k ==> number_char(#[trigger] s[j]),
        i + k == s.len() || !number_char(s[(i + k) as int]),
    ensures
        number_run(s, i) == k,
    decreases k,
{
    if k > 0 {
        lemma_number_run(s, i + 1, (k - 1) as nat);
    }
}

/// A number is read back, where no character follows of which numbers are made.
pub proof fn lemma_number_read(t: Seq<char>, s: Seq<char>, i: nat)
    requires
        is_numeral(t),
        stands_at(t, s, i),
        i + t.len() == s.len() || !number_char(s[(i + t.len()) as int]),
    ensures
        number_at(s, i) == Ok::<(Seq<char>, nat), ErrorView>((t, t.len())),
{
    lemma_numeral_chars(t);
    assert forall|j: int| i <= j < i + t.len() implies number_char(#[trigger] s[j]) by {
        lemma_stands_char(t, s, i, (j - i) as nat);
        assert(number_char(t[j - i]));
    }
    lemma_number_run(s, i, t.len());
}

/// What is written of an array from its first element on.
pub open spec fn items_body(items: Seq<JsonView>, depth: nat) -> Seq<char>
    decreases items.len(),
{
    if items.len() == 0 {
        seq![]
    } else if items.len() == 1 {
        written(items[0], depth + 1) + (seq!['\n'] + indent(depth) + seq![']'])
    } else {
        written(items[0], depth + 1) + (seq![','] + (seq!['\n'] + indent(depth + 1) + items_body(
            items.drop_first(),
            depth,
        )))
    }
}

/// What is written of an object from its first entry on.
pub open spec fn members_body(entries: Seq<(Seq<char>, JsonView)>, depth: nat) -> Seq<char>
    decreases entries.len(),
{
    if entries.len() == 0 {
        seq![]
    } else {
        let first = quoted(entries[0].0) + (seq![':', ' '] + written(entries[0].1, depth + 1));
        if entries.len() == 1 {
            first + (seq!['\n'] + indent(depth) + seq!['}'])
        } else {
            first + (seq![','] + (seq!['\n'] + indent(depth + 1) + members_body(
                entries.drop_first(),
                depth,
            )))
        }
    }
}

#[verifier::rlimit(40)]
#[verifier::spinoff_prover]
proof fn lemma_items_body(items: Seq<JsonView>, depth: nat)
    requires
        items.len() > 0,
    ensures
        written_items(items, depth) + indent(depth) + seq![']'] == indent(depth + 1) + items_body(
            items,
            depth,
        ),
    decreases items.len(),
{
    let rest = items.drop_first();
    let w = written(items[0], depth + 1);
    if items.len() == 1 {
        assert(written_items(rest, depth) =~= seq![]);
        assert(written_items(items, depth) + indent(depth) + seq![']'] =~= indent(depth + 1)
            + items_body(items, depth));
    } else {
        lemma_items_body(rest, depth);
        assert(written_items(items, depth) + indent(depth) + seq![']'] =~= indent(depth + 1) + w
            + line_end(true) + (written_items(rest, depth) + indent(depth) + seq![']']));
        assert(indent(depth + 1) + w + line_end(true) + (indent(depth + 1) + items_body(
            rest,
            depth,
        )) =~= indent(depth + 1) + items_body(items, depth));
    }
}

#[verifier::rlimit(40)]
#[verifier::spinoff_prover]
proof fn lemma_members_body(entries: Seq<(Seq<char>, JsonView)>, depth: nat)
    requires
        entries.len() > 0,
    ensures
        written_members(entries, depth) + indent(depth) + seq!['}'] == indent(depth + 1)
            + members_body(entries, depth),
    decreases entries.len(),
{
    let rest = entries.drop_first();
    let q = quoted(entries[0].0);
    let w = written(entries[0].1, depth + 1);
    if entries.len() == 1 {
        assert(written_members(rest, depth) =~= seq![]);
        assert(written_members(entries, depth) + indent(depth) + seq!['}'] =~= indent(depth + 1)
            + members_body(entries, depth));
    } else {
        lemma_members_body(rest, depth);
        assert(written_members(entries, depth) + indent(depth) + seq!['}'] =~= indent(depth + 1) + q
            + seq![':', ' '] + w + line_end(true) + (written_members(rest, depth) + indent(depth)
            + seq!['}']));
        assert(indent(depth + 1) + q + seq![':', ' '] + w + line_end(true) + (indent(depth + 1)
            + members_body(rest, depth)) =~= indent(depth + 1) + members_body(entries, depth));
    }
}

/// What is written of a value starts with no blank and is not empty.
proof fn lemma_written_start(v: JsonView, depth: nat)
    requires
        numbers_ok(v),
    ensures
        written(v, depth).len() > 0,
        !blank(written(v, depth)[0]),
{
    match v {
        JsonView::Null => reveal_strlit("null"),
        JsonView::Bool(b) => {
            reveal_strlit("true");
            reveal_strlit("false");
        },
        JsonView::Number(n) => lemma_numeral_chars(n),
        _ => {},
    }
}

/// Reading at `s[i]` gives the value `v`, and takes `n` characters.
#[verifier::opaque]
pub open spec fn reads(s: Seq<char>, i: nat, v: JsonView, n: nat) -> bool {
    value_at(s, i) == Ok::<(JsonView, nat), ErrorView>((v, n))
}

/// Reading gives back a value that stands behind `w` blanks, where no character
/// follows of which numbers are made, and takes just what was written of it.
#[verifier::spinoff_prover]
proof fn lemma_value_read(v: JsonView, depth: nat, s: Seq<char>, i: nat, w: nat)
    requires
        numbers_ok(v),
        blanks(s, i) == w,
        stands_at(written(v, depth), s, i + w),
        ({
            let end = i + w + written(v, depth).len();
            end == s.len() || !number_char(s[end as int])
        }),
    ensures
        reads(s, i, v, w + written(v, depth).len()),
    decreases v, 1nat,
{
    match v {
        JsonView::String(_) => lemma_string_value(v, depth, s, i, w),
        JsonView::Array(_) => lemma_array_value(v, depth, s, i, w),
        JsonView::Object(_) => lemma_object_value(v, depth, s, i, w),
        JsonView::Number(_) => lemma_number_value(v, depth, s, i, w),
        _ => lemma_word_read(v, depth, s, i, w),
    }
}

#[verifier::rlimit(40)]
#[verifier::spinoff_prover]
proof fn lemma_string_value(v: JsonView, depth: nat, s: Seq<char>, i: nat, w: nat)
    requires
        v is String,
        numbers_ok(v),
        blanks(s, i) == w,
        stands_at(written(v, depth), s, i + w),
        ({
            let end = i + w + written(v, depth).len();
            end == s.len() || !number_char(s[end as int])
        }),
    ensures
        reads(s, i, v, w + written(v, depth).len()),
    decreases v, 0nat,
{
    lemma_written_start(v, depth);
    lemma_stands_char(written(v, depth), s, i + w, 0);
    lemma_string_read(v->String_0, s, i + w);
    lemma_value_string(s, i, w, v->String_0, written(v, depth).len());
}

#[verifier::rlimit(40)]
#[verifier::spinoff_prover]
proof fn lemma_number_value(v: JsonView, depth: nat, s: Seq<char>, i: nat, w: nat)
    requires
        v is Number,
        numbers_ok(v),
        blanks(s, i) == w,
        stands_at(written(v, depth), s, i + w),
        ({
            let end = i + w + written(v, depth).len();
            end == s.len() || !number_char(s[end as int])
        }),
    ensures
        reads(s, i, v, w + written(v, depth).len()),
    decreases v, 0nat,
{
    lemma_written_start(v, depth);
    lemma_stands_char(written(v, depth), s, i + w, 0);
    lemma_numeral_chars(v->Number_0);
    lemma_number_read(v->Number_0, s, i + w);
    lemma_value_number(s, i, w, v->Number_0);
}

#[verifier::rlimit(40)]
#[verifier::spinoff_prover]
proof fn lemma_array_value(v: JsonView, depth: nat, s: Seq<char>, i: nat, w: nat)
    requires
        v is Array,
        numbers_ok(v),
        blanks(s, i) == w,
        stands_at(written(v, depth), s, i + w),
        ({
            let end = i + w + written(v, depth).len();
            end == s.len() || !number_char(s[end as int])
        }),
    ensures
        reads(s, i, v, w + written(v, depth).len()),
    decreases v, 0nat,
{
    lemma_written_start(v, depth);
    lemma_stands_char(written(v, depth), s, i + w, 0);
    lemma_array_read(v->Array_0, depth, s, i + w);
    lemma_value_array(s, i, w, v->Array_0, written(v, depth).len());
}

#[verifier::rlimit(40)]
#[verifier::spinoff_prover]
proof fn lemma_object_value(v: JsonView, depth: nat, s: Seq<char>, i: nat, w: nat)
    requires
        v is Object,
        numbers_ok(v),
        blanks(s, i) == w,
        stands_at(written(v, depth), s, i + w),
        ({
            let end = i + w + written(v, depth).len();
            end == s.len() || !number_char(s[end as int])
        }),
    ensures
        reads(s, i, v, w + written(v, depth).len()),
    decreases v, 0nat,
{
    lemma_written_start(v, depth);
    lemma_stands_char(written(v, depth), s, i + w, 0);
    lemma_object_read(v->Object_0, depth, s, i + w);
    lemma_value_object(s, i, w, v->Object_0, written(v, depth).len());
}

pub proof fn lemma_value_string(s: Seq<char>, i: nat, w: nat, x: Seq<char>, n: nat)
    requires
        blanks(s, i) == w,
        i + w < s.len(),
        s[(i + w) as int] == '"',
        string_at(s, i + w) == Ok::<(Seq<char>, nat), ErrorView>((x, n)),
    ensures
        reads(s, i, JsonView::String(x), w + n),
{
    reveal(reads);
}

pub proof fn lemma_value_number(s: Seq<char>, i: nat, w: nat, x: Seq<char>)
    requires
        blanks(s, i) == w,
        i + w < s.len(),
        is_numeral(x),
        x.len() > 0,
        s[(i + w) as int] == x[0],
        number_at(s, i + w) == Ok::<(Seq<char>, nat), ErrorView>((x, x.len())),
    ensures
        reads(s, i, JsonView::Number(x), w + x.len()),
{
    reveal(reads);
    lemma_numeral_chars(x);
}

pub proof fn lemma_value_array(s: Seq<char>, i: nat, w: nat, x: Seq<JsonView>, n: nat)
    requires
        blanks(s, i) == w,
        i + w < s.len(),
        s[(i + w) as int] == '[',
        items_start(s, i + w) == Ok::<(Seq<JsonView>, nat), ErrorView>((x, n)),
    ensures
        reads(s, i, JsonView::Array(x), w + n),
{
    reveal(reads);
}

pub proof fn lemma_value_object(
    s: Seq<char>,
    i: nat,
    w: nat,
    x: Seq<(Seq<char>, JsonView)>,
    n: nat,
)
    requires
        blanks(s, i) == w,
        i + w < s.len(),
        s[(i + w) as int] == '{',
        members_start(s, i + w) == Ok::<(Seq<(Seq<char>, JsonView)>, nat), ErrorView>((x, n)),
    ensures
        reads(s, i, JsonView::Object(x), w + n),
{
    reveal(reads);
}

/// The values that are written as a word are read back.
proof fn lemma_word_read(v: JsonView, depth: nat, s: Seq<char>, i: nat, w: nat)
    requires
        v is Null || v is Bool,
        blanks(s, i) == w,
        stands_at(written(v, depth), s, i + w),
    ensures
        reads(s, i, v, w + written(v, depth).len()),
{
    reveal(reads);
    let t = written(v, depth);
    reveal_strlit("null");
    reveal_strlit("true");
    reveal_strlit("false");
    lemma_stands_char(t, s, i + w, 0);
    lemma_literal_read(t, s, i + w);
}

/// How what is written of an array is made up.
proof fn lemma_array_text(items: Seq<JsonView>, depth: nat)
    requires
        items.len() > 0,
    ensures
        written(JsonView::Array(items), depth) == seq!['['] + ((seq!['\n'] + indent(depth + 1))
            + items_body(items, depth)),
{
    lemma_items_body(items, depth);
    let x = written_items(items, depth);
    let y = indent(depth);
    let z = x + y + seq![']'];
    assert(written(JsonView::Array(items), depth) =~= seq!['[', '\n'] + z);
    assert(seq!['[', '\n'] + (indent(depth + 1) + items_body(items, depth)) =~= seq!['['] + ((
    seq!['\n'] + indent(depth + 1)) + items_body(items, depth)));
}

/// How what is written of an object is made up.
proof fn lemma_object_text(entries: Seq<(Seq<char>, JsonView)>, depth: nat)
    requires
        entries.len() > 0,
    ensures
        written(JsonView::Object(entries), depth) == seq!['{'] + ((seq!['\n'] + indent(depth + 1))
            + members_body(entries, depth)),
{
    lemma_members_body(entries, depth);
    let x = written_members(entries, depth);
    let y = indent(depth);
    let z = x + y + seq!['}'];
    assert(written(JsonView::Object(entries), depth) =~= seq!['{', '\n'] + z);
    assert(seq!['{', '\n'] + (indent(depth + 1) + members_body(entries, depth)) =~= seq!['{'] + ((
    seq!['\n'] + indent(depth + 1)) + members_body(entries, depth)));
}

#[verifier::rlimit(40)]
#[verifier::spinoff_prover]
proof fn lemma_array_read(items: Seq<JsonView>, depth: nat, s: Seq<char>, i: nat)
    requires
        all_numbers_ok(items),
        stands_at(written(JsonView::Array(items), depth), s, i),
    ensures
        items_start(s, i) == Ok::<(Seq<JsonView>, nat), ErrorView>(
            (items, written(JsonView::Array(items), depth).len()),
        ),
    decreases items, 1nat,
{
    let t = written(JsonView::Array(items), depth);
    lemma_stands_char(t, s, i, 0);
    lemma_stands_char(t, s, i, 1);
    if items.len() == 0 {
        assert(items =~= seq![]);
        assert(blanks(s, i + 1) == 0);
    } else {
        lemma_array_text(items, depth);
        let body = items_body(items, depth);
        let brk = seq!['\n'] + indent(depth + 1);
        lemma_stands_split(s, i, seq!['['], brk + body);
        lemma_stands_split(s, i + 1, brk, body);
        lemma_indent(depth + 1);
        let p = i + 1 + brk.len();
        lemma_written_start(items[0], depth + 1);
        assert(body[0] == written(items[0], depth + 1)[0]);
        lemma_stands_char(body, s, p, 0);
        lemma_break_skipped(s, i + 1, depth + 1);
        assert(written(items[0], depth + 1)[0] != ']') by {
            lemma_no_bracket(items[0], depth + 1);
        }
        assert(blanks(s, p) == 0);
        lemma_items_read(items, depth, s, p, 0);
    }
}

/// What is written of a value starts with no closing bracket or brace.
proof fn lemma_no_bracket(v: JsonView, depth: nat)
    requires
        numbers_ok(v),
    ensures
        written(v, depth).len() > 0,
        written(v, depth)[0] != ']',
        written(v, depth)[0] != '}',
{
    match v {
        JsonView::Null => reveal_strlit("null"),
        JsonView::Bool(b) => {
            reveal_strlit("true");
            reveal_strlit("false");
        },
        JsonView::Number(n) => {
            lemma_numeral_chars(n);
            assert(number_char(n[0]));
        },
        _ => {},
    }
}

#[verifier::rlimit(40)]
#[verifier::spinoff_prover]
proof fn lemma_items_read(items: Seq<JsonView>, depth: nat, s: Seq<char>, i: nat, w: nat)
    requires
        items.len() > 0,
        all_numbers_ok(items),
        blanks(s, i) == w,
        stands_at(items_body(items, depth), s, i + w),
    ensures
        items_at(s, i) == Ok::<(Seq<JsonView>, nat), ErrorView>(
            (items, w + items_body(items, depth).len()),
        ),
    decreases items, 0nat,
{
    let first = written(items[0], depth + 1);
    let p = i + w;
    let q = p + first.len();
    let rest = items.drop_first();
    assert(numbers_ok(items[0]) && all_numbers_ok(rest));
    if items.len() == 1 {
        let brk = seq!['\n'] + indent(depth);
        let tail = brk + seq![']'];
        lemma_stands_split(s, p, first, tail);
        lemma_stands_split(s, q, brk, seq![']']);
        lemma_indent(depth);
        lemma_stands_char(tail, s, q, 0);
        lemma_stands_char(seq![']'], s, q + brk.len(), 0);
        lemma_break_skipped(s, q, depth);
        lemma_value_read(items[0], depth + 1, s, i, w);
        reveal(reads);
        assert(seq![items[0]] =~= items);
    } else {
        let brk = seq!['\n'] + indent(depth + 1);
        let body = items_body(rest, depth);
        let tail = seq![','] + (brk + body);
        assert(items_body(items, depth) == first + tail);
        lemma_stands_split(s, p, first, tail);
        lemma_stands_split(s, q, seq![','], brk + body);
        lemma_stands_split(s, q + 1, brk, body);
        lemma_stands_char(seq![','], s, q, 0);
        lemma_indent(depth + 1);
        lemma_written_start(rest[0], depth + 1);
        assert(body[0] == written(rest[0], depth + 1)[0]);
        lemma_stands_char(body, s, q + 1 + brk.len(), 0);
        lemma_break_skipped(s, q + 1, depth + 1);
        assert(blanks(s, q) == 0);
        lemma_value_read(items[0], depth + 1, s, i, w);
        reveal(reads);
        lemma_items_read(rest, depth, s, q + 1, brk.len());
        assert(seq![items[0]] + rest =~= items);
    }
}

#[verifier::rlimit(40)]
#[verifier::spinoff_prover]
proof fn lemma_object_read(
    entries: Seq<(Seq<char>, JsonView)>,
    depth: nat,
    s: Seq<char>,
    i: nat,
)
    requires
        member_numbers_ok(entries),
        stands_at(written(JsonView::Object(entries), depth), s, i),
    ensures
        members_start(s, i) == Ok::<(Seq<(Seq<char>, JsonView)>, nat), ErrorView>(
            (entries, written(JsonView::Object(entries), depth).len()),
        ),
    decreases entries, 1nat,
{
    let t = written(JsonView::Object(entries), depth);
    lemma_stands_char(t, s, i, 0);
    lemma_stands_char(t, s, i, 1);
    if entries.len() == 0 {
        assert(entries =~= seq![]);
        assert(blanks(s, i + 1) == 0);
    } else {
        lemma_object_text(entries, depth);
        let body = members_body(entries, depth);
        let brk = seq!['\n'] + indent(depth + 1);
        lemma_stands_split(s, i, seq!['{'], brk + body);
        lemma_stands_split(s, i + 1, brk, body);
        lemma_indent(depth + 1);
        let p = i + 1 + brk.len();
        assert(body[0] == '"');
        lemma_stands_char(body, s, p, 0);
        lemma_break_skipped(s, i + 1, depth + 1);
        assert(blanks(s, p) == 0);
        lemma_members_read(entries, depth, s, p, 0);
    }
}

/// An entry of an object is read back.
#[verifier::rlimit(40)]
#[verifier::spinoff_prover]
proof fn lemma_member_read(
    kv: (Seq<char>, JsonView),
    depth: nat,
    s: Seq<char>,
    i: nat,
    w: nat,
)
    requires
        numbers_ok(kv.1),
        blanks(s, i) == w,
        stands_at(quoted(kv.0) + (seq![':', ' '] + written(kv.1, depth)), s, i + w),
        ({
            let end = i + w + quoted(kv.0).len() + 2 + written(kv.1, depth).len();
            end == s.len() || !number_char(s[end as int])
        }),
    ensures
        member_at(s, i) == Ok::<((Seq<char>, JsonView), nat), ErrorView>(
            (kv, w + quoted(kv.0).len() + 2 + written(kv.1, depth).len()),
        ),
    decreases kv, 2nat,
{
    let p = i + w;
    let key = quoted(kv.0);
    let val = written(kv.1, depth);
    let q = p + key.len();
    lemma_stands_split(s, p, key, seq![':', ' '] + val);
    lemma_stands_split(s, q, seq![':', ' '], val);
    lemma_stands_char(seq![':', ' '], s, q, 0);
    lemma_stands_char(seq![':', ' '], s, q, 1);
    lemma_string_read(kv.0, s, p);
    assert(blanks(s, q) == 0);
    lemma_written_start(kv.1, depth);
    lemma_stands_char(val, s, q + 2, 0);
    assert(blanks(s, q + 2) == 0);
    assert(blanks(s, q + 1) == 1);
    lemma_value_read(kv.1, depth, s, q + 1, 1);
    reveal(reads);
}

#[verifier::rlimit(40)]
#[verifier::spinoff_prover]
proof fn lemma_members_read(
    entries: Seq<(Seq<char>, JsonView)>,
    depth: nat,
    s: Seq<char>,
    i: nat,
    w: nat,
)
    requires
        entries.len() > 0,
        member_numbers_ok(entries),
        blanks(s, i) == w,
        stands_at(members_body(entries, depth), s, i + w),
    ensures
        members_at(s, i) == Ok::<(Seq<(Seq<char>, JsonView)>, nat), ErrorView>(
            (entries, w + members_body(entries, depth).len()),
        ),
    decreases entries, 0nat,
{
    let kv = entries[0];
    let first = quoted(kv.0) + (seq![':', ' '] + written(kv.1, depth + 1));
    let p = i + w;
    let q = p + first.len();
    let rest = entries.drop_first();
    assert(numbers_ok(kv.1) && member_numbers_ok(rest));
    if entries.len() == 1 {
        let brk = seq!['\n'] + indent(depth);
        let tail = brk + seq!['}'];
        assert(members_body(entries, depth) == first + tail);
        lemma_stands_split(s, p, first, tail);
        lemma_stands_split(s, q, brk, seq!['}']);
        lemma_indent(depth);
        lemma_stands_char(tail, s, q, 0);
        lemma_stands_char(seq!['}'], s, q + brk.len(), 0);
        lemma_break_skipped(s, q, depth);
        lemma_member_read(kv, depth + 1, s, i, w);
        assert(seq![kv] =~= entries);
    } else {
        let brk = seq!['\n'] + indent(depth + 1);
        let body = members_body(rest, depth);
        let tail = seq![','] + (brk + body);
        assert(members_body(entries, depth) == first + tail);
        lemma_stands_split(s, p, first, tail);
        lemma_stands_split(s, q, seq![','], brk + body);
        lemma_stands_split(s, q + 1, brk, body);
        lemma_stands_char(seq![','], s, q, 0);
        lemma_indent(depth + 1);
        assert(body[0] == '"');
        lemma_stands_char(body, s, q + 1 + brk.len(), 0);
        lemma_break_skipped(s, q + 1, depth + 1);
        assert(blanks(s, q) == 0);
        lemma_member_read(kv, depth + 1, s, i, w);
        lemma_members_read(rest, depth, s, q + 1, brk.len());
        assert(seq![kv] + rest =~= entries);
    }
}

/// Reading the text that is written of a value gives that value back.
pub proof fn law_json_round(v: JsonView)
    requires
        numbers_ok(v),
    ensures
        json_of(written(v, 0)) == Ok::<JsonView, ErrorView>(v),
{
    let s = written(v, 0);
    assert(s.subrange(0, s.len() as int) =~= s);
    lemma_written_start(v, 0);
    assert(blanks(s, 0) == 0);
    lemma_value_read(v, 0, s, 0, 0);
    reveal(reads);
}

/// A line break behind the text changes nothing.
pub proof fn law_json_line_round(v: JsonView)
    requires
        numbers_ok(v),
    ensures
        json_of(written(v, 0) + seq!['\n']) == Ok::<JsonView, ErrorView>(v),
        !blank(written(v, 0)[0]),
        written(v, 0).len() > 0,
{
    let t = written(v, 0);
    let s = t + seq!['\n'];
    assert(s.subrange(0, t.len() as int) =~= t);
    lemma_written_start(v, 0);
    assert(s[0] == t[0]);
    assert(blanks(s, 0) == 0);
    lemma_value_read(v, 0, s, 0, 0);
    reveal(reads);
    assert(blanks(s, t.len() + 1) == 0);
    assert(blanks(s, t.len()) == 1);
}

} // verus!
