//! What addresses of the bus say, and where the user id stands.

use crate::dbus::address::{
    first_path, hex_digit, last_path, path_in, uid_in, unescaped, usual_path,
};
use crate::error::ErrorView;
use crate::text::{decimal, has_prefix, number_in, split_on, trimmed, white};
use crate::text_laws::law_second_word;
use vstd::prelude::*;
use vstd::string::*;

verus! {

/// The byte `x` is the hexadecimal digit for `a`: a decimal digit, or a letter, small or capital.
pub open spec fn is_hex_for(x: u8, a: int) -> bool {
    ||| 0 <= a < 10 && x == 48 + a
    ||| 10 <= a < 16 && (x == 87 + a || x == 55 + a)
}

/// A percent sign and two hexadecimal digits stand for one byte, the first digit counting sixteen
/// times. Any other byte stands for itself, and so does a percent sign with something else behind
/// it.
pub proof fn law_percent_escape(x: u8, y: u8, a: int, b: int, rest: Seq<u8>)
    ensures
        is_hex_for(x, a) && is_hex_for(y, b) ==> unescaped(seq![37u8, x, y] + rest) == seq![
            (16 * a + b) as u8,
        ] + unescaped(rest),
        (forall|k: int| !is_hex_for(x, k)) || (forall|k: int| !is_hex_for(y, k)) ==> unescaped(
            seq![37u8, x, y] + rest,
        ) == seq![37u8] + unescaped(seq![x, y] + rest),
        x != 37 ==> unescaped(seq![x] + rest) == seq![x] + unescaped(rest),
        unescaped(seq![37u8]) == seq![37u8],
        unescaped(seq![37u8, y]) == seq![37u8] + unescaped(seq![y]),
        unescaped(seq![]).len() == 0,
{
    let s = seq![37u8, x, y] + rest;
    assert(s.skip(3) =~= rest);
    assert(s.drop_first() =~= seq![x, y] + rest);
    assert((seq![x] + rest).drop_first() =~= rest);
    assert(seq![37u8].drop_first() =~= seq![]);
    assert(seq![37u8, y].drop_first() =~= seq![y]);
    assert(unescaped(seq![37u8]) =~= seq![37u8]) by {
        assert(unescaped(Seq::<u8>::empty()) =~= Seq::<u8>::empty());
    }
    if let Some(d) = hex_digit(x) {
        assert(is_hex_for(x, d as int));
    }
    if let Some(d) = hex_digit(y) {
        assert(is_hex_for(y, d as int));
    }
}

/// Of the settings of one address the last that begins with `path=` tells the path, which is the
/// rest of it.
pub proof fn law_last_path(settings: Seq<Seq<char>>, setting: Seq<char>, path: Seq<char>)
    ensures
        last_path(settings.push("path="@ + path)) == Some(path),
        !has_prefix(setting, "path="@) ==> last_path(settings.push(setting)) == last_path(settings),
        last_path(seq![]) is None,
{
    reveal_strlit("path=");
    let p = "path="@ + path;
    assert(settings.push(p).drop_last() =~= settings);
    assert(settings.push(setting).drop_last() =~= settings);
    assert(p.take(5) =~= "path="@);
    assert(p.skip(5) =~= path);
}

/// An address names a path only where it begins with `unix:`, and then by its settings, which
/// stand behind that with commas between them. White space round the address does not count.
pub proof fn law_address(address: Seq<char>, settings: Seq<char>)
    ensures
        trimmed(address) == "unix:"@ + settings ==> path_in(address) == last_path(
            split_on(settings, ','),
        ),
        !has_prefix(trimmed(address), "unix:"@) ==> path_in(address) is None,
{
    reveal_strlit("unix:");
    let t = "unix:"@ + settings;
    assert(t.take(5) =~= "unix:"@);
    assert(t.skip(5) =~= settings);
}

/// Of several addresses the first that names a path counts.
pub proof fn law_first_address(address: Seq<char>, others: Seq<Seq<char>>)
    ensures
        path_in(address) is Some ==> first_path(seq![address] + others) == path_in(address),
        path_in(address) is None ==> first_path(seq![address] + others) == first_path(others),
        first_path(seq![]) is None,
{
    assert((seq![address] + others).drop_first() =~= others);
}

/// The user id is the second number on the first line that begins with `Uid:` and has two words
/// behind it; the lines before that make no difference. It is refused where it is no number of 32
/// bits, and where there is no such line.
pub proof fn law_uid_line(
    line: Seq<char>,
    lines: Seq<Seq<char>>,
    gap: Seq<char>,
    first: Seq<char>,
    mid: Seq<char>,
    second: Seq<char>,
    rest: Seq<char>,
)
    requires
        forall|i: int| 0 <= i < gap.len() ==> white(#[trigger] gap[i]),
        forall|i: int| 0 <= i < mid.len() ==> white(#[trigger] mid[i]),
        forall|i: int| 0 <= i < first.len() ==> !white(#[trigger] first[i]),
        forall|i: int| 0 <= i < second.len() ==> !white(#[trigger] second[i]),
        first.len() > 0,
        mid.len() > 0,
        second.len() > 0,
        rest.len() == 0 || white(rest[0]),
    ensures
        uid_in(seq![]) is Err,
        !has_prefix(line, "Uid:"@) ==> uid_in(seq![line] + lines) == uid_in(lines),
        ({
            let l = "Uid:"@ + (gap + (first + (mid + (second + rest))));
            match number_in(second) {
                Some(n) => if n <= 4294967295 {
                    uid_in(seq![l] + lines) == Ok::<u32, ErrorView>(n as u32)
                } else {
                    uid_in(seq![l] + lines) is Err
                },
                None => uid_in(seq![l] + lines) is Err,
            }
        }),
{
    reveal_strlit("Uid:");
    assert((seq![line] + lines).drop_first() =~= lines);
    let tail = gap + (first + (mid + (second + rest)));
    let l = "Uid:"@ + tail;
    assert(l.take(4) =~= "Uid:"@);
    assert(l.skip(4) =~= tail);
    law_second_word(gap, first, mid, second, rest);
}

/// Where no address names a path, the bus is looked for under the user id.
pub proof fn law_usual_path(uid: u32)
    ensures
        usual_path(uid) == "/run/user/"@ + decimal(uid as nat) + "/bus"@,
{
}

} // verus!
