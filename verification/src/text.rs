//! Strings as sequences of characters.

use vstd::prelude::*;
use vstd::string::*;
use vstd::utf8::*;

verus! {

/// `String::push` appends one character.
pub assume_specification[ std::string::String::push ](s: &mut std::string::String, ch: char)
    ensures
        final(s)@ == old(s)@.push(ch),
;

/// `std::char::from_u32` gives the character with the given code, if there is one:
/// there is none for the codes from D800 to DFFF and above 10FFFF.
pub assume_specification[ std::char::from_u32 ](i: u32) -> (r: Option<char>)
    ensures
        match r {
            Some(c) => c == i as char && (i <= 0xD7FF || 0xE000 <= i <= 0x10FFFF),
            None => !(i <= 0xD7FF || 0xE000 <= i <= 0x10FFFF),
        },
;

/// The characters of a string.
pub fn chars_of(s: &str) -> (r: Vec<char>)
    ensures
        r@ == s@,
{
    let mut v: Vec<char> = Vec::new();
    for c in it: s.chars()
        invariant
            v@ == s@.take(it.index() as int),
            it.seq() == s@,
    {
        v.push(c);
    }
    v
}

/// The string made of the characters `v[from..to]`.
pub fn string_of(v: &[char], from: usize, to: usize) -> (r: String)
    requires
        from <= to <= v@.len(),
    ensures
        r@ == v@.subrange(from as int, to as int),
{
    let mut s = String::new();
    let mut i: usize = from;
    while i < to
        invariant
            from <= i <= to <= v@.len(),
            s@ == v@.subrange(from as int, i as int),
        decreases to - i,
    {
        s.push(v[i]);
        i += 1;
    }
    s
}

/// Whether two strings hold the same characters.
pub fn same(a: &str, b: &str) -> (r: bool)
    ensures
        r == (a@ == b@),
{
    let x = a.as_bytes();
    let y = b.as_bytes();
    proof {
        encode_utf8_decode_utf8(a@);
        encode_utf8_decode_utf8(b@);
    }
    if x.len() != y.len() {
        return false;
    }
    let mut i: usize = 0;
    while i < x.len()
        invariant
            i <= x@.len() == y@.len(),
            x@ == encode_utf8(a@),
            y@ == encode_utf8(b@),
            forall|j: int| 0 <= j < i ==> x@[j] == y@[j],
        decreases x.len() - i,
    {
        if x[i] != y[i] {
            return false;
        }
        i += 1;
    }
    assert(x@ =~= y@);
    true
}

/// The decimal digit `d`.
pub open spec fn digit(d: nat) -> char {
    (48 + d) as char
}

/// The decimal numeral of `n`.
pub open spec fn decimal(n: nat) -> Seq<char>
    decreases n,
{
    if n < 10 {
        seq![digit(n)]
    } else {
        decimal(n / 10).push(digit(n % 10))
    }
}

/// The decimal numeral of `n`, with a sign where it is negative.
pub open spec fn signed_decimal(n: int) -> Seq<char> {
    if n < 0 {
        seq!['-'] + decimal((-n) as nat)
    } else {
        decimal(n as nat)
    }
}

/// Writes a natural number in decimal.
pub fn decimal_of(n: u64) -> (r: String)
    ensures
        r@ == decimal(n as nat),
    decreases n,
{
    let d: char = (48u8 + (n % 10) as u8) as char;
    if n < 10 {
        let mut s = String::new();
        s.push(d);
        s
    } else {
        let mut s = decimal_of(n / 10);
        s.push(d);
        s
    }
}

/// Writes an integer in decimal.
pub fn signed_decimal_of(n: i64) -> (r: String)
    ensures
        r@ == signed_decimal(n as int),
{
    if n < 0 {
        let magnitude: u64 = (-(n as i128)) as u64;
        let mut s = String::new();
        s.push('-');
        s.append(&decimal_of(magnitude));
        s
    } else {
        decimal_of(n as u64)
    }
}

/// What `std::str::Utf8Error` says of bytes that are not UTF-8.
pub uninterp spec fn utf8_complaint(bytes: Seq<u8>) -> Seq<char>;

/// Calls `std::str::from_utf8`, which accepts exactly the valid UTF-8 sequences
/// and gives the characters that they encode. For other bytes it gives an error,
/// whose description depends on those bytes alone.
#[verifier::external_body]
pub(crate) fn text_from_utf8(bytes: &[u8]) -> (r: Result<String, String>)
    ensures
        match r {
            Ok(s) => valid_utf8(bytes@) && s@ == decode_utf8(bytes@),
            Err(m) => !valid_utf8(bytes@) && m@ == utf8_complaint(bytes@),
        },
{
    match std::str::from_utf8(bytes) {
        Ok(s) => Ok(s.to_string()),
        Err(e) => Err(format!("{e}")),
    }
}

/// How the `Debug` form of a character reads.
pub uninterp spec fn char_debug(c: char) -> Seq<char>;

/// Formats a character with `Debug`: in quotes, with an escape sequence in place
/// of a character that does not print. The text depends on the character alone.
#[verifier::external_body]
pub(crate) fn debug_of_char(c: char) -> (r: String)
    ensures
        r@ == char_debug(c),
{
    format!("{c:?}")
}

/// How the `Debug` form of a text reads.
pub uninterp spec fn text_debug(s: Seq<char>) -> Seq<char>;

/// Formats a text with `Debug`: in quotes, with escape sequences in place of characters that
/// do not print. The result depends on the text alone.
#[verifier::external_body]
pub(crate) fn debug_of_text(s: &str) -> (r: String)
    ensures
        r@ == text_debug(s@),
{
    format!("{s:?}")
}

/// A copy of an optional string.
pub(crate) fn opt_clone(o: &Option<String>) -> (r: Option<String>)
    ensures
        opt_text(r) == opt_text(*o),
{
    match o {
        Some(s) => Some(s.clone()),
        None => None,
    }
}

/// The text of an optional string.
pub open spec fn opt_text(o: Option<String>) -> Option<Seq<char>> {
    match o {
        Some(s) => Some(s@),
        None => None,
    }
}

/// The characters with the Unicode property `White_Space`.
pub open spec fn white(c: char) -> bool {
    let n = c as u32;
    ||| 0x9 <= n <= 0xD
    ||| n == 0x20
    ||| n == 0x85
    ||| n == 0xA0
    ||| n == 0x1680
    ||| 0x2000 <= n <= 0x200A
    ||| n == 0x2028
    ||| n == 0x2029
    ||| n == 0x202F
    ||| n == 0x205F
    ||| n == 0x3000
}

/// Whether the character is white space.
pub fn is_white(c: char) -> (r: bool)
    ensures
        r == white(c),
{
    let n: u32 = c as u32;
    (0x9 <= n && n <= 0xD) || n == 0x20 || n == 0x85 || n == 0xA0 || n == 0x1680 || (0x2000 <= n
        && n <= 0x200A) || n == 0x2028 || n == 0x2029 || n == 0x202F || n == 0x205F || n == 0x3000
}

/// `s` without the white space at its start.
pub open spec fn trim_front(s: Seq<char>) -> Seq<char>
    decreases s.len(),
{
    if s.len() > 0 && white(s[0]) {
        trim_front(s.drop_first())
    } else {
        s
    }
}

/// `s` without the white space at its end.
pub open spec fn trim_back(s: Seq<char>) -> Seq<char>
    decreases s.len(),
{
    if s.len() > 0 && white(s.last()) {
        trim_back(s.drop_last())
    } else {
        s
    }
}

/// `s` without the white space at both ends.
pub open spec fn trimmed(s: Seq<char>) -> Seq<char> {
    trim_back(trim_front(s))
}

/// Finds the part of `v[from..to]` that remains without the white space at its ends.
pub(crate) fn trim_range(v: &[char], from: usize, to: usize) -> (r: (usize, usize))
    requires
        from <= to <= v@.len(),
    ensures
        from <= r.0 <= r.1 <= to,
        v@.subrange(r.0 as int, r.1 as int) == trimmed(v@.subrange(from as int, to as int)),
{
    let ghost whole = v@.subrange(from as int, to as int);
    let mut a: usize = from;
    while a < to && is_white(v[a])
        invariant
            from <= a <= to <= v@.len(),
            trim_front(whole) == trim_front(v@.subrange(a as int, to as int)),
        decreases to - a,
    {
        assert(v@.subrange(a as int, to as int).drop_first() =~= v@.subrange(a + 1, to as int));
        a += 1;
    }
    let ghost front = v@.subrange(a as int, to as int);
    assert(trim_front(whole) == front);
    let mut b: usize = to;
    while b > a && is_white(v[b - 1])
        invariant
            from <= a <= b <= to <= v@.len(),
            trim_back(front) == trim_back(v@.subrange(a as int, b as int)),
        decreases b,
    {
        assert(v@.subrange(a as int, b as int).drop_last() =~= v@.subrange(a as int, b - 1));
        b -= 1;
    }
    (a, b)
}

/// A string without the white space at its ends.
pub fn trim(s: &str) -> (r: &str)
    ensures
        r@ == trimmed(s@),
{
    let cs = chars_of(s);
    let (a, b) = trim_range(&cs, 0, cs.len());
    assert(s@.subrange(0, s@.len() as int) =~= s@);
    s.substring_char(a, b)
}

/// `s` starts with `p`.
pub open spec fn has_prefix(s: Seq<char>, p: Seq<char>) -> bool {
    p.len() <= s.len() && s.take(p.len() as int) == p
}

/// Whether the characters `p` stand in `v` from position `from` on, before `to`.
pub(crate) fn matches_at(v: &[char], from: usize, to: usize, p: &[char]) -> (r: bool)
    requires
        from <= to <= v@.len(),
    ensures
        r == has_prefix(v@.subrange(from as int, to as int), p@),
{
    let ghost part = v@.subrange(from as int, to as int);
    if to - from < p.len() {
        return false;
    }
    let mut i: usize = 0;
    while i < p.len()
        invariant
            i <= p@.len() <= to - from,
            from <= to <= v@.len(),
            part == v@.subrange(from as int, to as int),
            forall|k: int| 0 <= k < i ==> part[k] == p@[k],
        decreases p@.len() - i,
    {
        if v[from + i] != p[i] {
            assert(part.take(p@.len() as int)[i as int] != p@[i as int]);
            return false;
        }
        i += 1;
    }
    assert(part.take(p@.len() as int) =~= p@);
    true
}

/// Whether `s` starts with `p`.
pub fn starts_with(s: &str, p: &str) -> (r: bool)
    ensures
        r == has_prefix(s@, p@),
{
    let cs = chars_of(s);
    assert(cs@.subrange(0, cs@.len() as int) =~= cs@);
    matches_at(&cs, 0, cs.len(), &chars_of(p))
}

/// Where `c` first stands in `s`, or the length of `s` where it does not.
pub open spec fn index_of(s: Seq<char>, c: char) -> nat
    decreases s.len(),
{
    if s.len() == 0 || s[0] == c {
        0
    } else {
        1 + index_of(s.drop_first(), c)
    }
}

/// The parts of `s` between the occurrences of `c`.
pub open spec fn split_on(s: Seq<char>, c: char) -> Seq<Seq<char>>
    decreases s.len(),
{
    let n = index_of(s, c);
    if n < s.len() {
        seq![s.take(n as int)] + split_on(s.skip((n + 1) as int), c)
    } else {
        seq![s]
    }
}

/// The first position from `from` on, before `to`, at which `c` stands, or `to`.
pub(crate) fn find_char(v: &[char], from: usize, to: usize, c: char) -> (r: usize)
    requires
        from <= to <= v@.len(),
    ensures
        from <= r <= to,
        r - from == index_of(v@.subrange(from as int, to as int), c),
{
    let ghost whole = v@.subrange(from as int, to as int);
    let mut i: usize = from;
    while i < to && v[i] != c
        invariant
            from <= i <= to <= v@.len(),
            index_of(whole, c) == i - from + index_of(v@.subrange(i as int, to as int), c),
        decreases to - i,
    {
        assert(v@.subrange(i as int, to as int).drop_first() =~= v@.subrange(i + 1, to as int));
        i += 1;
    }
    i
}

/// The words of `s`: its longest parts without white space.
pub open spec fn words(s: Seq<char>) -> Seq<Seq<char>>
    decreases s.len(),
{
    let t = trim_front(s);
    let n = word_len(t);
    if n == 0 || t.len() > s.len() || n > t.len() {
        seq![]
    } else {
        seq![t.take(n as int)] + words(t.skip(n as int))
    }
}

/// How many characters at the start of `s` are no white space.
pub open spec fn word_len(s: Seq<char>) -> nat
    decreases s.len(),
{
    if s.len() == 0 || white(s[0]) {
        0
    } else {
        1 + word_len(s.drop_first())
    }
}

/// Finds the first word of `v[from..to]`; it is empty where there is none.
pub(crate) fn word_range(v: &[char], from: usize, to: usize) -> (r: (usize, usize))
    requires
        from <= to <= v@.len(),
    ensures
        from <= r.0 <= r.1 <= to,
        ({
            let rest = v@.subrange(r.0 as int, to as int);
            &&& rest == trim_front(v@.subrange(from as int, to as int))
            &&& r.1 - r.0 == word_len(rest)
        }),
{
    let ghost whole = v@.subrange(from as int, to as int);
    let mut a: usize = from;
    while a < to && is_white(v[a])
        invariant
            from <= a <= to <= v@.len(),
            trim_front(whole) == trim_front(v@.subrange(a as int, to as int)),
        decreases to - a,
    {
        assert(v@.subrange(a as int, to as int).drop_first() =~= v@.subrange(a + 1, to as int));
        a += 1;
    }
    let ghost rest = v@.subrange(a as int, to as int);
    let mut b: usize = a;
    while b < to && !is_white(v[b])
        invariant
            from <= a <= b <= to <= v@.len(),
            word_len(rest) == b - a + word_len(v@.subrange(b as int, to as int)),
        decreases to - b,
    {
        assert(v@.subrange(b as int, to as int).drop_first() =~= v@.subrange(b + 1, to as int));
        b += 1;
    }
    (a, b)
}

/// Finds the second word of `v[from..to]`.
pub(crate) fn second_word(v: &[char], from: usize, to: usize) -> (r: Option<(usize, usize)>)
    requires
        from <= to <= v@.len(),
    ensures
        ({
            let w = words(v@.subrange(from as int, to as int));
            match r {
                Some(p) => from <= p.0 <= p.1 <= to && w.len() >= 2 && w[1] == v@.subrange(
                    p.0 as int,
                    p.1 as int,
                ),
                None => w.len() < 2,
            }
        }),
{
    let ghost s = v@.subrange(from as int, to as int);
    let (a, b) = word_range(v, from, to);
    if a == b {
        return None;
    }
    let (c, d) = word_range(v, b, to);
    proof {
        let t = v@.subrange(a as int, to as int);
        assert(t.skip(b - a) =~= v@.subrange(b as int, to as int));
        let u = v@.subrange(c as int, to as int);
        assert(u.take(d - c) =~= v@.subrange(c as int, d as int));
        assert(words(s) == seq![t.take(b - a)] + words(t.skip(b - a)));
    }
    if c == d {
        return None;
    }
    Some((c, d))
}

/// A decimal digit.
pub open spec fn is_digit(c: char) -> bool {
    '0' <= c <= '9'
}

/// The number that a row of decimal digits stands for.
pub open spec fn digits_value(s: Seq<char>) -> nat
    decreases s.len(),
{
    if s.len() == 0 {
        0
    } else {
        10 * digits_value(s.drop_last()) + (s.last() as u32 - 48) as nat
    }
}

/// The digits of a natural number that may have a plus sign.
pub open spec fn unsigned_digits(s: Seq<char>) -> Seq<char> {
    if s.len() > 0 && s[0] == '+' {
        s.drop_first()
    } else {
        s
    }
}

/// The natural number that `s` is the numeral of.
pub open spec fn number_in(s: Seq<char>) -> Option<nat> {
    let d = unsigned_digits(s);
    if d.len() > 0 && (forall|i: int| 0 <= i < d.len() ==> is_digit(#[trigger] d[i])) {
        Some(digits_value(d))
    } else {
        None
    }
}

/// A decimal numeral is made of digits.
pub proof fn lemma_decimal_digits(n: nat)
    ensures
        decimal(n).len() > 0,
        forall|i: int| 0 <= i < decimal(n).len() ==> is_digit(#[trigger] decimal(n)[i]),
    decreases n,
{
    if n >= 10 {
        lemma_decimal_digits(n / 10);
    }
}

proof fn lemma_digits_grow(s: Seq<char>, n: int)
    requires
        0 <= n <= s.len(),
        forall|i: int| 0 <= i < s.len() ==> is_digit(#[trigger] s[i]),
    ensures
        digits_value(s.take(n)) <= digits_value(s),
    decreases s.len(),
{
    if n < s.len() {
        assert(s.drop_last().take(n) =~= s.take(n));
        lemma_digits_grow(s.drop_last(), n);
    } else {
        assert(s.take(n) =~= s);
    }
}

/// Reads `v[from..to]` as a natural number of at most `max`.
pub(crate) fn parse_number(v: &[char], from: usize, to: usize, max: u64) -> (r: Option<u64>)
    requires
        from <= to <= v@.len(),
    ensures
        match r {
            Some(n) => n <= max && number_in(v@.subrange(from as int, to as int)) == Some(n as nat),
            None => match number_in(v@.subrange(from as int, to as int)) {
                Some(n) => n > max,
                None => true,
            },
        },
{
    let ghost s = v@.subrange(from as int, to as int);
    let start: usize = if from < to && v[from] == '+' { from + 1 } else { from };
    let ghost d = unsigned_digits(s);
    assert(d =~= v@.subrange(start as int, to as int));
    if start == to {
        return None;
    }
    let mut n: u64 = 0;
    let mut i: usize = start;
    while i < to
        invariant
            from <= start <= i <= to <= v@.len(),
            start < to,
            d == v@.subrange(start as int, to as int),
            d == unsigned_digits(v@.subrange(from as int, to as int)),
            forall|k: int| 0 <= k < i - start ==> is_digit(#[trigger] d[k]),
            n == digits_value(d.take(i - start)),
            n <= max,
        decreases to - i,
    {
        let c = v[i];
        assert(c == d[i - start]);
        if !('0' <= c && c <= '9') {
            return None;
        }
        let x: u64 = (c as u32 - 48) as u64;
        proof {
            assert(d.take(i - start + 1).drop_last() =~= d.take(i - start));
            if forall|k: int| 0 <= k < d.len() ==> is_digit(#[trigger] d[k]) {
                lemma_digits_grow(d, i - start + 1);
            }
        }
        if x > max || n > (max - x) / 10 {
            return None;
        }
        n = 10 * n + x;
        i += 1;
    }
    assert(d.take(to - start) =~= d);
    Some(n)
}

/// The parts of `s` at the given ranges.
pub open spec fn parts(s: Seq<char>, ranges: Seq<(usize, usize)>) -> Seq<Seq<char>> {
    Seq::new(ranges.len(), |k: int| s.subrange(ranges[k].0 as int, ranges[k].1 as int))
}

/// The ranges of the parts of `v[from..to]` between the occurrences of `c`.
pub(crate) fn split_ranges(v: &[char], from: usize, to: usize, c: char) -> (r: Vec<(usize, usize)>)
    requires
        from <= to <= v@.len(),
    ensures
        parts(v@, r@) == split_on(v@.subrange(from as int, to as int), c),
        forall|k: int| 0 <= k < r@.len() ==> from <= (#[trigger] r@[k]).0 <= r@[k].1 <= to,
{
    let ghost all = split_on(v@.subrange(from as int, to as int), c);
    let mut out: Vec<(usize, usize)> = Vec::new();
    let mut i: usize = from;
    let mut n: usize = find_char(v, i, to, c);
    assert(parts(v@, out@) + all =~= all);
    while n < to
        invariant
            from <= i <= n <= to <= v@.len(),
            n - i == index_of(v@.subrange(i as int, to as int), c),
            all == parts(v@, out@) + split_on(v@.subrange(i as int, to as int), c),
            all == split_on(v@.subrange(from as int, to as int), c),
            forall|k: int| 0 <= k < out@.len() ==> from <= (#[trigger] out@[k]).0 <= out@[k].1 <= to,
        decreases to - n,
    {
        let ghost before = out@;
        out.push((i, n));
        proof {
            let s = v@.subrange(i as int, to as int);
            let rest = v@.subrange(n + 1, to as int);
            assert(s.skip(n - i + 1) =~= rest);
            assert(s.take(n - i) =~= v@.subrange(i as int, n as int));
            assert(parts(v@, out@) =~= parts(v@, before).push(v@.subrange(i as int, n as int)));
            assert(parts(v@, before) + (seq![s.take(n - i)] + split_on(rest, c)) =~= parts(v@, out@)
                + split_on(rest, c));
        }
        i = n + 1;
        n = find_char(v, i, to, c);
    }
    let ghost before = out@;
    out.push((i, to));
    proof {
        let s = v@.subrange(i as int, to as int);
        assert(parts(v@, out@) =~= parts(v@, before) + seq![s]);
    }
    out
}

/// What `String::from_utf8_lossy` makes of bytes.
pub uninterp spec fn lossy_text(bytes: Seq<u8>) -> Seq<char>;

/// Calls `String::from_utf8_lossy`: valid UTF-8 is decoded; other bytes are decoded
/// too, with replacement characters in a way that depends on the bytes alone.
#[verifier::external_body]
pub(crate) fn text_from_utf8_lossy(bytes: &[u8]) -> (r: String)
    ensures
        r@ == lossy_text(bytes@),
        valid_utf8(bytes@) ==> r@ == decode_utf8(bytes@),
{
    String::from_utf8_lossy(bytes).into_owned()
}

/// How many of `n` items lie at or after position `i`.
pub open spec fn left(n: nat, i: nat) -> nat {
    if i < n {
        (n - i) as nat
    } else {
        0
    }
}

/// The characters `t` stand in `s` from position `i` on.
pub open spec fn stands_at(t: Seq<char>, s: Seq<char>, i: nat) -> bool {
    i + t.len() <= s.len() && s.subrange(i as int, (i + t.len()) as int) == t
}

/// Where two texts stand one behind the other, each of them stands.
pub proof fn lemma_stands_split(s: Seq<char>, i: nat, x: Seq<char>, y: Seq<char>)
    requires
        stands_at(x + y, s, i),
    ensures
        stands_at(x, s, i),
        stands_at(y, s, i + x.len()),
{
    let all = s.subrange(i as int, (i + (x + y).len()) as int);
    assert(s.subrange(i as int, (i + x.len()) as int) =~= all.take(x.len() as int));
    assert((x + y).take(x.len() as int) =~= x);
    assert(s.subrange((i + x.len()) as int, (i + x.len() + y.len()) as int) =~= all.skip(
        x.len() as int,
    ));
    assert((x + y).skip(x.len() as int) =~= y);
}

/// A character of a text that stands in `s` is found there.
pub proof fn lemma_stands_char(t: Seq<char>, s: Seq<char>, i: nat, k: nat)
    requires
        stands_at(t, s, i),
        k < t.len(),
    ensures
        s[(i + k) as int] == t[k as int],
{
    assert(s.subrange(i as int, (i + t.len()) as int)[k as int] == s[(i + k) as int]);
}

/// The first byte of the UTF-8 form of `c`, as a character.
pub open spec fn lead_byte(c: char) -> char {
    let n = c as u32 as int;
    if n < 0x80 {
        c
    } else if n < 0x800 {
        (0xC0 + n / 0x40) as char
    } else if n < 0x10000 {
        (0xE0 + n / 0x1000) as char
    } else {
        (0xF0 + n / 0x40000) as char
    }
}

/// The first byte of the UTF-8 form of `c`, as a character.
pub(crate) fn lead_byte_of(c: char) -> (r: char)
    ensures
        r == lead_byte(c),
{
    let n: u32 = c as u32;
    if n < 0x80 {
        c
    } else if n < 0x800 {
        ((0xC0 + n / 0x40) as u8) as char
    } else if n < 0x10000 {
        ((0xE0 + n / 0x1000) as u8) as char
    } else {
        ((0xF0 + n / 0x40000) as u8) as char
    }
}

/// A character in lower case, if it is an ASCII letter.
pub open spec fn lower(c: char) -> char {
    if 'A' <= c <= 'Z' {
        (c as u32 + 32) as char
    } else {
        c
    }
}

/// The texts are the same but for the case of ASCII letters.
pub open spec fn same_letters(a: Seq<char>, b: Seq<char>) -> bool {
    a.len() == b.len() && forall|i: int|
        0 <= i < a.len() ==> lower(#[trigger] a[i]) == lower(b[i])
}

/// A character in lower case, if it is an ASCII letter.
pub(crate) fn lower_of(c: char) -> (r: char)
    ensures
        r == lower(c),
{
    if 'A' <= c && c <= 'Z' {
        ((c as u8) + 32) as char
    } else {
        c
    }
}

/// Whether two texts are the same but for the case of ASCII letters.
pub fn eq_ignore_case(a: &str, b: &str) -> (r: bool)
    ensures
        r == same_letters(a@, b@),
{
    let x = chars_of(a);
    let y = chars_of(b);
    if x.len() != y.len() {
        return false;
    }
    let mut i: usize = 0;
    while i < x.len()
        invariant
            i <= x@.len(),
            x@.len() == y@.len(),
            x@ == a@,
            y@ == b@,
            forall|k: int| 0 <= k < i ==> lower(#[trigger] x@[k]) == lower(y@[k]),
        decreases x@.len() - i,
    {
        if lower_of(x[i]) != lower_of(y[i]) {
            return false;
        }
        i += 1;
    }
    true
}

} // verus!
