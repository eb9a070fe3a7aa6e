//! How JSON is written, character by character.

use crate::json::{
    escaped, escaped_char, indent, line_end, quoted, written, written_items, written_members,
    JsonView,
};
use vstd::prelude::*;
use vstd::string::*;

verus! {

/// The hexadecimal digit for `d`, a small letter from ten on.
pub open spec fn small_hex(c: char, d: int) -> bool {
    ||| 0 <= d < 10 && c as int == 48 + d
    ||| 10 <= d < 16 && c as int == 87 + d
}

/// Quotes and backslashes are written behind a backslash; a line end, a carriage return and a tab
/// by their letters; any other control character by `\u` and its number in four digits; and any
/// other character as it is.
pub proof fn law_escapes(c: char)
    ensures
        escaped_char('"') == seq!['\\', '"'],
        escaped_char('\\') == seq!['\\', '\\'],
        escaped_char('\n') == seq!['\\', 'n'],
        escaped_char('\r') == seq!['\\', 'r'],
        escaped_char('\t') == seq!['\\', 't'],
        (c as u32) < 32 && c != '\n' && c != '\r' && c != '\t' ==> {
            let e = escaped_char(c);
            &&& e.len() == 6
            &&& e.take(4) == seq!['\\', 'u', '0', '0']
            &&& small_hex(e[4], c as int / 16)
            &&& small_hex(e[5], c as int % 16)
        },
        (c as u32) >= 32 && c != '"' && c != '\\' ==> escaped_char(c) == seq![c],
{
    if (c as u32) < 32 && c != '\n' && c != '\r' && c != '\t' {
        assert(escaped_char(c).take(4) =~= seq!['\\', 'u', '0', '0']);
    }
}

/// A string is written between quotes, one character after the other.
pub proof fn law_string_written(s: Seq<char>, c: char)
    ensures
        quoted(s) == seq!['"'] + escaped(s) + seq!['"'],
        escaped(seq![]).len() == 0,
        escaped(s.push(c)) == escaped(s) + escaped_char(c),
    decreases s.len(),
{
    if s.len() == 0 {
        assert(s.push(c).drop_first() =~= seq![]);
        assert(s =~= seq![]);
        assert(escaped(s.push(c)) == escaped_char(c) + escaped(seq![]));
        assert(escaped(s.push(c)) =~= escaped(s) + escaped_char(c));
    } else {
        law_string_written(s.drop_first(), c);
        assert(s.push(c).drop_first() =~= s.drop_first().push(c));
        assert(escaped(s.push(c)) =~= escaped(s) + escaped_char(c));
    }
}

/// The three words and numbers are written as they are, whatever the depth; an array or an object
/// with nothing in it is its two brackets.
pub proof fn law_plain_written(n: Seq<char>, s: Seq<char>, depth: nat)
    ensures
        written(JsonView::Null, depth) == seq!['n', 'u', 'l', 'l'],
        written(JsonView::Bool(true), depth) == seq!['t', 'r', 'u', 'e'],
        written(JsonView::Bool(false), depth) == seq!['f', 'a', 'l', 's', 'e'],
        written(JsonView::Number(n), depth) == n,
        written(JsonView::String(s), depth) == quoted(s),
        written(JsonView::Array(seq![]), depth) == seq!['[', ']'],
        written(JsonView::Object(seq![]), depth) == seq!['{', '}'],
{
    reveal_strlit("null");
    reveal_strlit("true");
    reveal_strlit("false");
    assert("null"@ =~= seq!['n', 'u', 'l', 'l']);
    assert("true"@ =~= seq!['t', 'r', 'u', 'e']);
    assert("false"@ =~= seq!['f', 'a', 'l', 's', 'e']);
}

/// A line begins with two blanks for each level.
pub proof fn law_indent(n: nat)
    ensures
        indent(n).len() == 2 * n,
        forall|i: int| 0 <= i < 2 * n ==> #[trigger] indent(n)[i] == ' ',
    decreases n,
{
    if n > 0 {
        law_indent((n - 1) as nat);
        let rest = indent((n - 1) as nat);
        assert forall|i: int| 0 <= i < 2 * n implies #[trigger] indent(n)[i] == ' ' by {
            if i >= 2 {
                assert(indent(n)[i] == rest[i - 2]);
            }
        }
    }
}

/// The elements of an array stand one on a line, a level deeper than the array, with a comma
/// behind each but the last, and the closing bracket on a line of its own.
pub proof fn law_array_written(x: JsonView, rest: Seq<JsonView>, depth: nat)
    ensures
        written(JsonView::Array(seq![x] + rest), depth) == seq!['[', '\n'] + written_items(
            seq![x] + rest,
            depth,
        ) + indent(depth) + seq![']'],
        written_items(seq![x] + rest, depth) == indent(depth + 1) + written(x, depth + 1) + (
        if rest.len() == 0 {
            seq!['\n']
        } else {
            seq![',', '\n']
        }) + written_items(rest, depth),
        written_items(seq![], depth).len() == 0,
{
    let all = seq![x] + rest;
    assert(all.drop_first() =~= rest);
    assert(all[0] == x);
}

/// The entries of an object stand one on a line, as those of an array do: the key as a string, a
/// colon and a blank, and the value.
pub proof fn law_object_written(
    key: Seq<char>,
    x: JsonView,
    rest: Seq<(Seq<char>, JsonView)>,
    depth: nat,
)
    ensures
        written(JsonView::Object(seq![(key, x)] + rest), depth) == seq!['{', '\n']
            + written_members(seq![(key, x)] + rest, depth) + indent(depth) + seq!['}'],
        written_members(seq![(key, x)] + rest, depth) == indent(depth + 1) + quoted(key) + seq![
            ':',
            ' ',
        ] + written(x, depth + 1) + (if rest.len() == 0 {
            seq!['\n']
        } else {
            seq![',', '\n']
        }) + written_members(rest, depth),
        written_members(seq![], depth).len() == 0,
{
    let all = seq![(key, x)] + rest;
    assert(all.drop_first() =~= rest);
    assert(all[0] == (key, x));
    assert(line_end(false) == seq!['\n']);
}

} // verus!
