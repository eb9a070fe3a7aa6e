//! What holds of operations on texts.

use crate::text::{
    decimal, digits_value, has_prefix, index_of, is_digit, lead_byte, lower, number_in,
    same_letters, signed_decimal, split_on, trim_back, trim_front, trimmed, white, word_len, words,
};
use vstd::prelude::*;
use vstd::utf8::*;

verus! {

/// A character stands at the place where it is said to be first, and at no place before it; it
/// is said to be at the end only where it is not there.
pub proof fn law_first_place(s: Seq<char>, c: char)
    ensures
        index_of(s, c) <= s.len(),
        index_of(s, c) < s.len() ==> s[index_of(s, c) as int] == c,
        forall|i: int| 0 <= i < index_of(s, c) ==> #[trigger] s[i] != c,
    decreases s.len(),
{
    if s.len() > 0 && s[0] != c {
        let rest = s.drop_first();
        law_first_place(rest, c);
        assert forall|i: int| 0 <= i < index_of(s, c) implies #[trigger] s[i] != c by {
            if i > 0 {
                assert(rest[i - 1] == s[i]);
            }
        }
    }
}

/// Texts with a character between each two of them.
pub open spec fn joined_by(parts: Seq<Seq<char>>, c: char) -> Seq<char>
    decreases parts.len(),
{
    if parts.len() == 0 {
        seq![]
    } else if parts.len() == 1 {
        parts[0]
    } else {
        parts[0] + seq![c] + joined_by(parts.drop_first(), c)
    }
}

/// The parts into which a text is split hold the character at none of their places, and with it
/// between them they are the text.
pub proof fn law_split(s: Seq<char>, c: char)
    ensures
        split_on(s, c).len() > 0,
        joined_by(split_on(s, c), c) == s,
        forall|k: int, i: int|
            0 <= k < split_on(s, c).len() && 0 <= i < split_on(s, c)[k].len()
                ==> #[trigger] split_on(s, c)[k][i] != c,
    decreases s.len(),
{
    let n = index_of(s, c);
    let all = split_on(s, c);
    law_first_place(s, c);
    if n < s.len() {
        let first = s.take(n as int);
        let rest = s.skip((n + 1) as int);
        law_split(rest, c);
        assert(all.drop_first() =~= split_on(rest, c));
        assert(s =~= first + seq![c] + rest);
        assert forall|k: int, i: int|
            0 <= k < all.len() && 0 <= i < all[k].len() implies #[trigger] all[k][i] != c by {
            if k > 0 {
                assert(all[k] == split_on(rest, c)[k - 1]);
            } else {
                assert(all[0] == first);
            }
        }
    }
}

/// White space is what Unicode says it is.
pub proof fn law_white(c: char)
    ensures
        white(c) <==> {
            ||| c == '\t' || c == '\n' || c == '\u{b}' || c == '\u{c}' || c == '\r' || c == ' '
            ||| c == '\u{85}' || c == '\u{a0}' || c == '\u{1680}'
            ||| c == '\u{2000}' || c == '\u{2001}' || c == '\u{2002}' || c == '\u{2003}'
            ||| c == '\u{2004}' || c == '\u{2005}' || c == '\u{2006}' || c == '\u{2007}'
            ||| c == '\u{2008}' || c == '\u{2009}' || c == '\u{200a}'
            ||| c == '\u{2028}' || c == '\u{2029}' || c == '\u{202f}' || c == '\u{205f}'
            ||| c == '\u{3000}'
        },
{
}

proof fn lemma_front(s: Seq<char>) -> (k: int)
    ensures
        0 <= k <= s.len(),
        trim_front(s) == s.skip(k),
        forall|i: int| 0 <= i < k ==> white(#[trigger] s[i]),
        k < s.len() ==> !white(s[k]),
    decreases s.len(),
{
    if s.len() > 0 && white(s[0]) {
        let rest = s.drop_first();
        let k = lemma_front(rest);
        assert forall|i: int| 0 <= i < k + 1 implies white(#[trigger] s[i]) by {
            if i > 0 {
                assert(rest[i - 1] == s[i]);
            }
        }
        assert(rest.skip(k) =~= s.skip(k + 1));
        k + 1
    } else {
        assert(s.skip(0) =~= s);
        0
    }
}

proof fn lemma_back(s: Seq<char>) -> (k: int)
    ensures
        0 <= k <= s.len(),
        trim_back(s) == s.take(k),
        forall|i: int| k <= i < s.len() ==> white(#[trigger] s[i]),
        k > 0 ==> !white(s[k - 1]),
    decreases s.len(),
{
    if s.len() > 0 && white(s.last()) {
        let rest = s.drop_last();
        let k = lemma_back(rest);
        assert forall|i: int| k <= i < s.len() implies white(#[trigger] s[i]) by {
            if i < rest.len() {
                assert(rest[i] == s[i]);
            }
        }
        assert(rest.take(k) =~= s.take(k));
        k
    } else {
        assert(s.take(s.len() as int) =~= s);
        s.len() as int
    }
}

/// Trimming takes off white space at both ends, all of it, and nothing else.
pub proof fn law_trimmed(s: Seq<char>)
    ensures
        exists|a: Seq<char>, b: Seq<char>|
            {
                &&& s == #[trigger] (a + trimmed(s) + b)
                &&& forall|i: int| 0 <= i < a.len() ==> white(#[trigger] a[i])
                &&& forall|i: int| 0 <= i < b.len() ==> white(#[trigger] b[i])
            },
        trimmed(s).len() > 0 ==> !white(trimmed(s)[0]) && !white(trimmed(s).last()),
{
    let k = lemma_front(s);
    let t = trim_front(s);
    let m = lemma_back(t);
    let a = s.take(k);
    let b = t.skip(m);
    assert(s =~= a + trimmed(s) + b);
    assert forall|i: int| 0 <= i < a.len() implies white(#[trigger] a[i]) by {
        assert(a[i] == s[i]);
    }
    assert forall|i: int| 0 <= i < b.len() implies white(#[trigger] b[i]) by {
        assert(b[i] == t[m + i]);
    }
    if trimmed(s).len() > 0 {
        assert(trimmed(s)[0] == s[k]);
        assert(trimmed(s).last() == t[m - 1]);
    }
}

/// What stands before a text and behind it makes no difference to whether it begins so.
pub proof fn law_prefix(s: Seq<char>, p: Seq<char>)
    ensures
        has_prefix(s, p) <==> exists|rest: Seq<char>| s == #[trigger] (p + rest),
{
    if has_prefix(s, p) {
        assert(s =~= p + s.skip(p.len() as int));
    }
    if exists|rest: Seq<char>| s == #[trigger] (p + rest) {
        let rest = choose|rest: Seq<char>| s == #[trigger] (p + rest);
        assert(s.take(p.len() as int) =~= p);
    }
}

/// A decimal numeral is made of digits, has no zero in front, and stands for its number.
pub proof fn law_decimal(n: nat)
    ensures
        decimal(n).len() > 0,
        forall|i: int| 0 <= i < decimal(n).len() ==> '0' <= #[trigger] decimal(n)[i] <= '9',
        decimal(n)[0] == '0' ==> n == 0,
        digits_value(decimal(n)) == n,
        n < 10 ==> decimal(n) == seq![(48 + n) as char],
    decreases n,
{
    if n >= 10 {
        law_decimal(n / 10);
        let d = decimal(n);
        assert(d.drop_last() =~= decimal(n / 10));
    } else {
        let d = decimal(n);
        assert(d.drop_last() =~= Seq::<char>::empty());
        assert(digits_value(d.drop_last()) == 0);
    }
}

/// The numeral of a negative number has a minus sign, that of another has none.
pub proof fn law_signed_decimal(n: int)
    ensures
        n < 0 ==> signed_decimal(n) == seq!['-'] + decimal((-n) as nat),
        n >= 0 ==> signed_decimal(n) == decimal(n as nat),
{
}

/// Each digit counts ten times as much as the one behind it.
pub proof fn law_digits(s: Seq<char>, d: nat)
    requires
        d < 10,
    ensures
        digits_value(s.push((48 + d) as char)) == 10 * digits_value(s) + d,
        digits_value(seq![]) == 0,
{
    let t = s.push((48 + d) as char);
    assert(t.drop_last() =~= s);
}

/// A natural number is read from its digits, with or without a plus sign, and from nothing
/// else.
pub proof fn law_number_read(s: Seq<char>)
    ensures
        s.len() > 0 && (forall|i: int| 0 <= i < s.len() ==> '0' <= #[trigger] s[i] <= '9') ==> {
            &&& number_in(s) == Some(digits_value(s))
            &&& number_in(seq!['+'] + s) == Some(digits_value(s))
        },
        number_in(s) matches Some(n) ==> n == digits_value(
            if s[0] == '+' {
                s.drop_first()
            } else {
                s
            },
        ) && s.len() > 0 && ('0' <= s.last() <= '9'),
{
    if s.len() > 0 && forall|i: int| 0 <= i < s.len() ==> '0' <= #[trigger] s[i] <= '9' {
        assert(s[0] != '+');
        assert forall|i: int| 0 <= i < s.len() implies is_digit(#[trigger] s[i]) by {}
        assert((seq!['+'] + s).drop_first() =~= s);
    }
    if number_in(s) is Some {
        let d = crate::text::unsigned_digits(s);
        assert(is_digit(d[d.len() - 1]));
        assert(d[d.len() - 1] == s.last());
    }
}

/// The letters from A to Z have their small forms, and every other character stays.
pub proof fn law_lower(c: char)
    ensures
        'A' <= c <= 'Z' ==> lower(c) as u32 == c as u32 + 32,
        !('A' <= c <= 'Z') ==> lower(c) == c,
{
}

/// Two texts are the same but for the case of ASCII letters where they are as long, and have at
/// each place the same character, or the capital and the small form of one letter.
pub proof fn law_same_letters(a: Seq<char>, b: Seq<char>)
    ensures
        same_letters(a, b) <==> a.len() == b.len() && forall|i: int|
            0 <= i < a.len() ==> {
                ||| #[trigger] a[i] == b[i]
                ||| 'A' <= a[i] <= 'Z' && b[i] as u32 == a[i] as u32 + 32
                ||| 'A' <= b[i] <= 'Z' && a[i] as u32 == b[i] as u32 + 32
            },
{
    if same_letters(a, b) {
        assert forall|i: int| 0 <= i < a.len() implies {
            ||| #[trigger] a[i] == b[i]
            ||| 'A' <= a[i] <= 'Z' && b[i] as u32 == a[i] as u32 + 32
            ||| 'A' <= b[i] <= 'Z' && a[i] as u32 == b[i] as u32 + 32
        } by {
            lemma_letters(a[i], b[i]);
        }
    }
    if a.len() == b.len() && forall|i: int|
        0 <= i < a.len() ==> {
            ||| #[trigger] a[i] == b[i]
            ||| 'A' <= a[i] <= 'Z' && b[i] as u32 == a[i] as u32 + 32
            ||| 'A' <= b[i] <= 'Z' && a[i] as u32 == b[i] as u32 + 32
        } {
        assert forall|i: int| 0 <= i < a.len() implies lower(a[i]) == lower(b[i]) by {
            assert(a[i] == b[i] || ('A' <= a[i] <= 'Z' && b[i] as u32 == a[i] as u32 + 32) || (
            'A' <= b[i] <= 'Z' && a[i] as u32 == b[i] as u32 + 32));
            lemma_letters(a[i], b[i]);
        }
    }
}

proof fn lemma_letters(c: char, d: char)
    ensures
        lower(c) == lower(d) <==> {
            ||| c == d
            ||| 'A' <= c <= 'Z' && d as u32 == c as u32 + 32
            ||| 'A' <= d <= 'Z' && c as u32 == d as u32 + 32
        },
{
}

/// The second word of a text stands behind the first and some white space.
pub proof fn law_second_word(
    gap: Seq<char>,
    first: Seq<char>,
    mid: Seq<char>,
    second: Seq<char>,
    rest: Seq<char>,
)
    requires
        forall|i: int| 0 <= i < gap.len() ==> white(#[trigger] gap[i]),
        forall|i: int| 0 <= i < mid.len() ==> white(#[trigger] mid[i]),
        forall|i: int| 0 <= i < first.len() ==> !white(#[trigger] first[i]),
        forall|i: int| 0 <= i < second.len() ==> !white(#[trigger] second[i]),
        first.len() > 0,
        mid.len() > 0,
        second.len() > 0,
        rest.len() == 0 || white(rest[0]),
    ensures
        words(gap + (first + (mid + (second + rest)))).len() >= 2,
        words(gap + (first + (mid + (second + rest))))[0] == first,
        words(gap + (first + (mid + (second + rest))))[1] == second,
{
    let tail = mid + (second + rest);
    assert(tail[0] == mid[0]);
    lemma_first_word(gap, first, tail);
    lemma_first_word(mid, second, rest);
    reveal_with_fuel(words, 3);
}

proof fn lemma_word_len(w: Seq<char>, rest: Seq<char>)
    requires
        forall|i: int| 0 <= i < w.len() ==> !white(#[trigger] w[i]),
        rest.len() == 0 || white(rest[0]),
    ensures
        word_len(w + rest) == w.len(),
    decreases w.len(),
{
    let s = w + rest;
    if w.len() > 0 {
        assert(s[0] == w[0]);
        assert(s.drop_first() =~= w.drop_first() + rest);
        assert forall|i: int| 0 <= i < w.drop_first().len() implies !white(
            #[trigger] w.drop_first()[i],
        ) by {
            assert(w.drop_first()[i] == w[i + 1]);
        }
        lemma_word_len(w.drop_first(), rest);
    } else {
        assert(s =~= rest);
    }
}

proof fn lemma_first_word(gap: Seq<char>, w: Seq<char>, rest: Seq<char>)
    requires
        forall|i: int| 0 <= i < gap.len() ==> white(#[trigger] gap[i]),
        forall|i: int| 0 <= i < w.len() ==> !white(#[trigger] w[i]),
        w.len() > 0,
        rest.len() == 0 || white(rest[0]),
    ensures
        words(gap + (w + rest)) == seq![w] + words(rest),
{
    let s = gap + (w + rest);
    let k = lemma_front(s);
    assert(s[gap.len() as int] == w[0]);
    if k < gap.len() {
        assert(s[k] == gap[k]);
    }
    if k > gap.len() {
        assert(white(s[gap.len() as int]));
    }
    assert(trim_front(s) =~= w + rest);
    lemma_word_len(w, rest);
    assert((w + rest).take(w.len() as int) =~= w);
    assert((w + rest).skip(w.len() as int) =~= rest);
}

/// The first byte of a character is the first of its UTF-8 form.
pub proof fn law_lead_byte(c: char)
    ensures
        encode_utf8(seq![c]).len() > 0,
        lead_byte(c) as u32 == encode_utf8(seq![c])[0],
{
    assert(seq![c].drop_first() =~= seq![]);
    reveal_with_fuel(encode_utf8, 2);
    char_is_scalar(c);
    let n = c as u32;
    assert(n < 0x80 ==> (n & 0x7F) as u8 == n) by (bit_vector);
    assert(0x80 <= n < 0x800 ==> 0xC0u8 | ((n >> 6) & 0x1F) as u8 == 0xC0 + n / 0x40)
        by (bit_vector);
    assert(0x800 <= n < 0x10000 ==> 0xE0u8 | ((n >> 12) & 0x0F) as u8 == 0xE0 + n / 0x1000)
        by (bit_vector);
    assert(0x10000 <= n < 0x110000 ==> 0xF0u8 | ((n >> 18) & 0x7) as u8 == 0xF0 + n / 0x40000)
        by (bit_vector);
}

} // verus!
