//! The texts that are read as floating-point numbers.
//!
//! The library carries such numbers as texts. What is here tells which texts are
//! numbers.

use crate::text::{chars_of, is_digit, left, lower, lower_of};
use vstd::prelude::*;

verus! {

/// How many digits stand at `s[i]` and behind it.
pub open spec fn digit_run(s: Seq<char>, i: nat) -> nat
    decreases left(s.len(), i),
{
    if i < s.len() && is_digit(s[i as int]) {
        1 + digit_run(s, i + 1)
    } else {
        0
    }
}

/// How many characters a sign at `s[i]` takes.
pub open spec fn sign_len(s: Seq<char>, i: nat) -> nat {
    if i < s.len() && (s[i as int] == '+' || s[i as int] == '-') {
        1
    } else {
        0
    }
}

/// Where the digits before and after the point end.
pub open spec fn mantissa_end(s: Seq<char>, i: nat) -> nat {
    let a = i + digit_run(s, i);
    if a < s.len() && s[a as int] == '.' {
        a + 1 + digit_run(s, a + 1)
    } else {
        a
    }
}

/// Whether there is a digit before or after the point.
pub open spec fn has_mantissa(s: Seq<char>, i: nat) -> bool {
    let a = i + digit_run(s, i);
    digit_run(s, i) > 0 || (a < s.len() && s[a as int] == '.' && digit_run(s, a + 1) > 0)
}

/// From `s[i]` on there is nothing, or an exponent and nothing behind it.
pub open spec fn ends_in_exponent(s: Seq<char>, i: nat) -> bool {
    i == s.len() || {
        let d = i + 1 + sign_len(s, i + 1);
        &&& i < s.len()
        &&& s[i as int] == 'e' || s[i as int] == 'E'
        &&& digit_run(s, d) > 0
        &&& d + digit_run(s, d) == s.len()
    }
}

/// The numerals: a sign, digits with a point, an exponent. All but the digits may
/// be missing.
#[verifier::opaque]
pub open spec fn is_numeral(s: Seq<char>) -> bool {
    let i = sign_len(s, 0);
    has_mantissa(s, i) && ends_in_exponent(s, mantissa_end(s, i))
}

/// Digits lie within the text.
pub proof fn lemma_digit_run_bound(s: Seq<char>, i: nat)
    ensures
        i <= s.len() ==> i + digit_run(s, i) <= s.len(),
        i >= s.len() ==> digit_run(s, i) == 0,
    decreases left(s.len(), i),
{
    if i < s.len() && is_digit(s[i as int]) {
        lemma_digit_run_bound(s, i + 1);
    }
}

/// Finds where the digits that start at `s[i]` end.
pub(crate) fn digits_end(s: &[char], i: usize) -> (r: usize)
    requires
        i <= s@.len(),
    ensures
        i <= r <= s@.len(),
        r == i + digit_run(s@, i as nat),
{
    let mut j: usize = i;
    while j < s.len() && '0' <= s[j] && s[j] <= '9'
        invariant
            i <= j <= s@.len(),
            digit_run(s@, i as nat) == j - i + digit_run(s@, j as nat),
        decreases s@.len() - j,
    {
        j += 1;
    }
    j
}

/// Skips a sign at `s[i]`.
pub(crate) fn after_sign(s: &[char], i: usize) -> (r: usize)
    requires
        i <= s@.len(),
    ensures
        i <= r <= s@.len(),
        r == i + sign_len(s@, i as nat),
{
    if i < s.len() && (s[i] == '+' || s[i] == '-') {
        i + 1
    } else {
        i
    }
}

/// Whether a text is a numeral.
pub fn check_numeral(s: &[char]) -> (r: bool)
    ensures
        r == is_numeral(s@),
{
    proof {
        reveal(is_numeral);
    }
    let start: usize = after_sign(s, 0);
    let whole_end: usize = digits_end(s, start);
    let mut digits: usize = whole_end - start;
    let mut end: usize = whole_end;
    if whole_end < s.len() && s[whole_end] == '.' {
        end = digits_end(s, whole_end + 1);
        if end > whole_end + 1 {
            digits = 1;
        }
    }
    if digits == 0 {
        return false;
    }
    if end == s.len() {
        return true;
    }
    if s[end] != 'e' && s[end] != 'E' {
        return false;
    }
    let exp: usize = after_sign(s, end + 1);
    let exp_end: usize = digits_end(s, exp);
    exp_end > exp && exp_end == s.len()
}

/// `s` from position `i` on is `word`, in letters of either case.
pub open spec fn spells(s: Seq<char>, i: nat, word: Seq<char>) -> bool {
    s.len() == i + word.len() && forall|k: int|
        0 <= k < word.len() ==> lower(s[i + k]) == #[trigger] word[k]
}

/// The texts that are read as floating-point numbers: numerals, and the names of what
/// is infinite or no number.
pub open spec fn is_number(s: Seq<char>) -> bool {
    let i = sign_len(s, 0);
    ||| is_numeral(s)
    ||| spells(s, i, "inf"@)
    ||| spells(s, i, "infinity"@)
    ||| spells(s, i, "nan"@)
}

pub(crate) fn check_spells(s: &[char], i: usize, word: &str) -> (r: bool)
    requires
        i <= s@.len(),
    ensures
        r == spells(s@, i as nat, word@),
{
    let w = chars_of(word);
    let total: usize = s.len();
    if total - i != w.len() {
        return false;
    }
    let mut k: usize = 0;
    while k < w.len()
        invariant
            total == s@.len(),
            i + w@.len() == total,
            k <= w@.len(),
            w@ == word@,
            forall|j: int| 0 <= j < k ==> lower(s@[i + j]) == #[trigger] word@[j],
        decreases w@.len() - k,
    {
        if lower_of(s[i + k]) != w[k] {
            assert(lower(s@[i + k]) != word@[k as int]);
            return false;
        }
        k += 1;
    }
    true
}

/// Whether a text is read as a floating-point number.
pub fn check_number(s: &[char]) -> (r: bool)
    ensures
        r == is_number(s@),
{
    let i: usize = after_sign(s, 0);
    check_numeral(s) || check_spells(s, i, "inf") || check_spells(s, i, "infinity")
        || check_spells(s, i, "nan")
}

} // verus!
