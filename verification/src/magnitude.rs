//! How the number that a text stands for compares with zero.
//!
//! A floating-point number has a smallest magnitude. A numeral that is not above half
//! of it is read as zero, though it has digits other than zero. This is decided here on
//! the digits, without floating point.

use crate::numeral::{
    after_sign, check_numeral, check_spells, digit_run, digits_end, is_numeral,
    lemma_digit_run_bound, mantissa_end, sign_len, spells,
};
use crate::text::{digits_value, is_digit};
use vstd::arithmetic::power::*;
use vstd::prelude::*;

verus! {

/// The number has a minus sign. A text that stands for no number has none.
pub open spec fn is_minus(s: Seq<char>) -> bool {
    s.len() > 0 && s[0] == '-' && !spells(s, 1, "nan"@)
}

/// A numeral of the number zero: before its exponent there is no digit but `0`.
pub open spec fn is_zero(s: Seq<char>) -> bool {
    is_numeral(s) && forall|i: int|
        0 <= i < mantissa_end(s, sign_len(s, 0)) ==> !('1' <= #[trigger] s[i] <= '9')
}

/// The digits of a numeral behind its point.
pub open spec fn fraction(s: Seq<char>) -> Seq<char> {
    let a = sign_len(s, 0) + digit_run(s, sign_len(s, 0));
    if a < s.len() && s[a as int] == '.' {
        s.subrange((a + 1) as int, mantissa_end(s, sign_len(s, 0)) as int)
    } else {
        seq![]
    }
}

/// The digits of a numeral before and behind its point.
pub open spec fn mantissa(s: Seq<char>) -> Seq<char> {
    let i = sign_len(s, 0);
    s.subrange(i as int, (i + digit_run(s, i)) as int) + fraction(s)
}

/// The exponent of a numeral, or zero.
pub open spec fn exponent(s: Seq<char>) -> int {
    let e = mantissa_end(s, sign_len(s, 0));
    if e < s.len() {
        let n = digits_value(s.skip((e + 1 + sign_len(s, e + 1)) as int)) as int;
        if e + 1 < s.len() && s[(e + 1) as int] == '-' {
            -n
        } else {
            n
        }
    } else {
        0
    }
}

/// How often the mantissa of a numeral is divided by ten.
pub open spec fn scale(s: Seq<char>) -> int {
    fraction(s).len() - exponent(s)
}

/// No numeral with a smaller scale is tiny without being zero.
pub const LEAST_SCALE: u128 = 323;

/// A numeral whose magnitude is at most the 1075th power of one half. That is half of the
/// smallest floating-point magnitude, and is read as zero.
pub open spec fn is_tiny(s: Seq<char>) -> bool {
    &&& is_numeral(s)
    &&& scale(s) > LEAST_SCALE
    &&& digits_value(mantissa(s)) * pow(2, 1075) <= pow(10, scale(s) as nat)
}

/// A numeral that is read as zero.
pub open spec fn reads_as_zero(s: Seq<char>) -> bool {
    is_zero(s) || is_tiny(s)
}

/// A number that is zero or less.
pub open spec fn is_zero_or_less(s: Seq<char>) -> bool {
    is_minus(s) || reads_as_zero(s)
}

/// A number that is less than zero.
pub open spec fn is_negative(s: Seq<char>) -> bool {
    is_minus(s) && !reads_as_zero(s)
}

/// A numeral without an exponent, and not of excessive length, is read as zero only where it
/// has no digit but `0`.
pub proof fn law_plain_numeral(s: Seq<char>)
    requires
        is_numeral(s),
        s.len() <= LEAST_SCALE,
        forall|i: int| 0 <= i < s.len() ==> #[trigger] s[i] != 'e' && s[i] != 'E',
    ensures
        reads_as_zero(s) <==> forall|i: int|
            0 <= i < s.len() ==> !('1' <= #[trigger] s[i] <= '9'),
{
    reveal(is_numeral);
    let i = sign_len(s, 0);
    let a = i + digit_run(s, i);
    lemma_digit_run_bound(s, i);
    lemma_digit_run_bound(s, a + 1);
    assert(mantissa_end(s, i) == s.len());
}

/// The number whose decimal digits, the lowest first, are `v`.
pub open spec fn low_value(v: Seq<u8>) -> nat
    decreases v.len(),
{
    if v.len() == 0 {
        0
    } else {
        v[0] as nat + 10 * low_value(v.drop_first())
    }
}

/// Every element is a decimal digit.
pub open spec fn digits_ok(v: Seq<u8>) -> bool {
    forall|i: int| 0 <= i < v.len() ==> (#[trigger] v[i]) < 10
}

proof fn lemma_low_push(v: Seq<u8>, d: u8)
    ensures
        low_value(v.push(d)) == low_value(v) + pow(10, v.len()) * d,
    decreases v.len(),
{
    reveal(pow);
    let w = v.push(d);
    if v.len() == 0 {
        assert(w.drop_first() =~= Seq::<u8>::empty());
        assert(low_value(w.drop_first()) == 0);
    } else {
        let rest = v.drop_first();
        assert(w.drop_first() =~= rest.push(d));
        lemma_low_push(rest, d);
        let p = pow(10, rest.len());
        let x = d as int;
        assert(10 * (p * x) == (10 * p) * x) by (nonlinear_arith);
    }
}

proof fn lemma_low_bound(v: Seq<u8>)
    requires
        digits_ok(v),
    ensures
        low_value(v) < pow(10, v.len()),
        low_value(v) == 0 <==> forall|i: int| 0 <= i < v.len() ==> (#[trigger] v[i]) == 0,
    decreases v.len(),
{
    reveal(pow);
    if v.len() > 0 {
        let rest = v.drop_first();
        assert forall|i: int| 0 <= i < rest.len() implies (#[trigger] rest[i]) < 10 by {
            assert(rest[i] == v[i + 1]);
        }
        lemma_low_bound(rest);
        assert(v[0] < 10);
        if low_value(v) == 0 {
            assert forall|i: int| 0 <= i < v.len() implies (#[trigger] v[i]) == 0 by {
                if i > 0 {
                    assert(rest[i - 1] == 0);
                }
            }
        }
        if forall|i: int| 0 <= i < v.len() ==> (#[trigger] v[i]) == 0 {
            assert forall|i: int| 0 <= i < rest.len() implies (#[trigger] rest[i]) == 0 by {
                assert(v[i + 1] == 0);
            }
            assert(v[0] == 0);
        }
    }
}

/// Digits in reverse order stand for the same number.
proof fn lemma_low_digits(v: Seq<u8>, t: Seq<char>)
    requires
        v.len() == t.len(),
        forall|i: int| 0 <= i < t.len() ==> is_digit(#[trigger] t[i]),
        forall|i: int| 0 <= i < v.len() ==> (#[trigger] v[i]) == t[t.len() - 1 - i] as u32 - 48,
    ensures
        low_value(v) == digits_value(t),
        digits_ok(v),
    decreases v.len(),
{
    assert forall|i: int| 0 <= i < v.len() implies (#[trigger] v[i]) < 10 by {
        assert(is_digit(t[t.len() - 1 - i]));
    }
    if v.len() > 0 {
        let rest = v.drop_first();
        let front = t.drop_last();
        assert forall|i: int| 0 <= i < rest.len() implies (#[trigger] rest[i]) == front[front.len()
            - 1 - i] as u32 - 48 by {
            assert(rest[i] == v[i + 1]);
        }
        assert(v[0] == t[t.len() - 1] as u32 - 48);
        lemma_low_digits(rest, front);
    }
}

/// Twice a number.
fn double(v: &Vec<u8>) -> (out: Vec<u8>)
    requires
        digits_ok(v@),
    ensures
        digits_ok(out@),
        low_value(out@) == 2 * low_value(v@),
{
    let mut out: Vec<u8> = Vec::new();
    let mut carry: u8 = 0;
    let mut i: usize = 0;
    proof {
        lemma_pow0(10);
        assert(v@.skip(0) =~= v@);
        assert(low_value(out@) == 0);
    }
    while i < v.len()
        invariant
            i <= v@.len(),
            digits_ok(v@),
            digits_ok(out@),
            out@.len() == i,
            carry <= 1,
            low_value(out@) + pow(10, i as nat) * (2 * low_value(v@.skip(i as int)) + carry) == 2
                * low_value(v@),
        decreases v@.len() - i,
    {
        let sum: u8 = 2 * v[i] + carry;
        let digit: u8 = if sum >= 10 { sum - 10 } else { sum };
        let next: u8 = if sum >= 10 { 1 } else { 0 };
        proof {
            let rest = v@.skip(i as int);
            assert(rest[0] == v@[i as int]);
            assert(rest.drop_first() =~= v@.skip(i + 1));
            lemma_low_push(out@, digit);
            let p = pow(10, i as nat);
            let x = low_value(v@.skip(i + 1)) as int;
            let d = digit as int;
            let n = next as int;
            assert(pow(10, (i + 1) as nat) == 10 * p) by {
                reveal(pow);
            }
            assert(p * (d + 10 * n + 20 * x) == p * d + (10 * p) * (2 * x + n)) by (nonlinear_arith);
            assert(2 * low_value(rest) + carry == d + 10 * n + 20 * x);
        }
        out.push(digit);
        carry = next;
        i += 1;
    }
    proof {
        assert(v@.skip(i as int) =~= Seq::<u8>::empty());
        lemma_low_push(out@, carry);
        let p = pow(10, i as nat);
        let c = carry as int;
        assert(p * (2 * 0 + c) == p * c) by (nonlinear_arith);
    }
    if carry > 0 {
        out.push(carry);
    }
    out
}

/// The 1075th power of two times a number.
fn double_all(v: Vec<u8>) -> (out: Vec<u8>)
    requires
        digits_ok(v@),
    ensures
        digits_ok(out@),
        low_value(out@) == low_value(v@) * pow(2, 1075),
{
    let ghost m = low_value(v@) as int;
    let mut out = v;
    let mut i: u32 = 0;
    proof {
        lemma_pow0(2);
    }
    while i < 1075
        invariant
            i <= 1075,
            digits_ok(out@),
            low_value(out@) == m * pow(2, i as nat),
        decreases 1075 - i,
    {
        out = double(&out);
        proof {
            reveal(pow);
            let p = pow(2, i as nat);
            assert(2 * (m * p) == m * (2 * p)) by (nonlinear_arith);
            assert(pow(2, (i + 1) as nat) == 2 * p);
        }
        i += 1;
    }
    out
}

/// More than any length, and so more than any exponent that matters.
const CAP: u128 = 0x1_0000_0000_0000_0000_0000;

/// The number that digits stand for, or the cap, where it is more.
fn capped(s: &[char], from: usize) -> (r: u128)
    requires
        from <= s@.len(),
        forall|i: int| from <= i < s@.len() ==> is_digit(#[trigger] s@[i]),
    ensures
        r == if digits_value(s@.skip(from as int)) < CAP {
            digits_value(s@.skip(from as int))
        } else {
            CAP as nat
        },
{
    let ghost t = s@.skip(from as int);
    let mut n: u128 = 0;
    let mut i: usize = from;
    assert(t.take(0) =~= Seq::<char>::empty());
    while i < s.len()
        invariant
            from <= i <= s@.len(),
            t == s@.skip(from as int),
            forall|i: int| from <= i < s@.len() ==> is_digit(#[trigger] s@[i]),
            n <= CAP,
            n == if digits_value(t.take(i - from)) < CAP {
                digits_value(t.take(i - from))
            } else {
                CAP as nat
            },
        decreases s@.len() - i,
    {
        let c = s[i];
        proof {
            assert(is_digit(s@[i as int]));
            let next = t.take(i - from + 1);
            assert(next.drop_last() =~= t.take(i - from));
            assert(next.last() == c);
        }
        let x: u128 = (c as u32 - 48) as u128;
        let more: u128 = 10 * n + x;
        n = if more < CAP { more } else { CAP };
        i += 1;
    }
    assert(t.take(i - from) =~= t);
    n
}

/// The digits of a numeral lie where they are looked for.
proof fn lemma_run_digits(s: Seq<char>, i: nat)
    ensures
        forall|k: int| i <= k < i + digit_run(s, i) ==> is_digit(#[trigger] s[k]),
    decreases s.len() - i,
{
    if i < s.len() && is_digit(s[i as int]) {
        lemma_run_digits(s, i + 1);
    }
}

/// Appends the digits `s[from..to]`, the last first.
fn push_low(v: &mut Vec<u8>, s: &[char], from: usize, to: usize)
    requires
        from <= to <= s@.len(),
        forall|k: int| from <= k < to ==> is_digit(#[trigger] s@[k]),
    ensures
        final(v)@.len() == old(v)@.len() + (to - from),
        forall|i: int| 0 <= i < old(v)@.len() ==> final(v)@[i] == old(v)@[i],
        forall|i: int|
            0 <= i < to - from ==> (#[trigger] final(v)@[old(v)@.len() + i]) == s@[to - 1 - i] as u32
                - 48,
{
    let ghost n = v@.len() as int;
    let mut j: usize = to;
    while j > from
        invariant
            from <= j <= to <= s@.len(),
            n == old(v)@.len(),
            v@.len() == n + (to - j),
            forall|k: int| from <= k < to ==> is_digit(#[trigger] s@[k]),
            forall|i: int| 0 <= i < n ==> v@[i] == old(v)@[i],
            forall|i: int| n <= i < n + (to - j) ==> (#[trigger] v@[i]) == s@[to - 1 - (i - n)] as u32
                - 48,
        decreases j,
    {
        j -= 1;
        let c = s[j];
        assert(is_digit(s@[j as int]));
        v.push((c as u32 - 48) as u8);
    }
}

/// The mantissa of a numeral times the 1075th power of two, the lowest digit first.
fn doubled_mantissa(s: &[char], start: usize, a: usize, from: usize, end: usize) -> (v: Vec<u8>)
    requires
        start == sign_len(s@, 0),
        a == start + digit_run(s@, start as nat),
        a <= s@.len(),
        from <= end <= s@.len(),
        fraction(s@) == s@.subrange(from as int, end as int),
        forall|k: int| from <= k < end ==> is_digit(#[trigger] s@[k]),
    ensures
        digits_ok(v@),
        low_value(v@) == digits_value(mantissa(s@)) * pow(2, 1075),
{
    let mut v: Vec<u8> = Vec::new();
    proof {
        lemma_run_digits(s@, start as nat);
    }
    push_low(&mut v, s, from, end);
    let ghost low = v@;
    push_low(&mut v, s, start, a);
    proof {
        let t = mantissa(s@);
        let n = t.len() as int;
        let f = end - from;
        assert(t.len() == (a - start) + f);
        assert forall|i: int| 0 <= i < n implies is_digit(#[trigger] t[i]) by {
            if i < a - start {
                assert(is_digit(s@[start + i]));
            } else {
                assert(is_digit(s@[from + (i - (a - start))]));
            }
        }
        assert forall|i: int| 0 <= i < v@.len() implies (#[trigger] v@[i]) == t[n - 1 - i] as u32
            - 48 by {
            if i < f {
                assert(v@[i] == low[i]);
                assert(low[0 + i] == s@[end - 1 - i] as u32 - 48);
            } else {
                assert(v@[f + (i - f)] == s@[a - 1 - (i - f)] as u32 - 48);
            }
        }
        lemma_low_digits(v@, t);
    }
    double_all(v)
}

/// Whether a number is at most a power of ten. From the cap on, the exponent may be less than
/// the true one.
fn at_most_power(v: &Vec<u8>, k: u128, Ghost(power): Ghost<nat>) -> (r: bool)
    requires
        digits_ok(v@),
        k == power || CAP <= k <= power,
    ensures
        r == (low_value(v@) <= pow(10, power)),
{
    let mut n: usize = v.len();
    assert(v@.take(n as int) =~= v@);
    while n > 0 && v[n - 1] == 0
        invariant
            n <= v@.len(),
            low_value(v@.take(n as int)) == low_value(v@),
        decreases n,
    {
        proof {
            let front = v@.take(n - 1);
            assert(v@.take(n as int) =~= front.push(0));
            lemma_low_push(front, 0);
            let p = pow(10, front.len());
            assert(p * 0 == 0) by (nonlinear_arith);
        }
        n -= 1;
    }
    let ghost w = v@.take(n as int);
    proof {
        assert forall|i: int| 0 <= i < w.len() implies (#[trigger] w[i]) < 10 by {
            assert(w[i] == v@[i]);
        }
        lemma_low_bound(w);
    }
    if n as u128 <= k {
        proof {
            lemma_pow_increases(10, n as nat, power);
        }
        return true;
    }
    let top: u8 = v[n - 1];
    let ghost front = v@.take(n - 1);
    let ghost p = pow(10, (n - 1) as nat);
    proof {
        assert(w =~= front.push(top));
        lemma_low_push(front, top);
        assert forall|i: int| 0 <= i < front.len() implies (#[trigger] front[i]) < 10 by {
            assert(front[i] == v@[i]);
        }
        lemma_low_bound(front);
        lemma_pow_positive(10, (n - 1) as nat);
        let d = top as int;
        assert(p * d >= p) by (nonlinear_arith)
            requires
                d >= 1,
                p > 0,
        ;
        assert(d >= 2 ==> p * d >= 2 * p) by (nonlinear_arith)
            requires
                p > 0,
        ;
        assert(d == 1 ==> p * d == p) by (nonlinear_arith);
    }
    if n as u128 > k + 1 {
        proof {
            lemma_pow_strictly_increases(10, power, (n - 1) as nat);
        }
        return false;
    }
    if top != 1 {
        return false;
    }
    let mut i: usize = 0;
    while i < n - 1
        invariant
            1 <= n <= v@.len(),
            i <= n - 1,
            front == v@.take(n - 1),
            forall|j: int| 0 <= j < i ==> (#[trigger] front[j]) == 0,
        ensures
            i <= n - 1,
            i < n - 1 ==> front[i as int] != 0,
            forall|j: int| 0 <= j < i ==> (#[trigger] front[j]) == 0,
        decreases n - i,
    {
        if v[i] != 0 {
            break ;
        }
        i += 1;
    }
    i == n - 1
}

/// Whether a numeral is tiny.
fn check_tiny(s: &[char]) -> (r: bool)
    requires
        is_numeral(s@),
    ensures
        r == is_tiny(s@),
{
    let start: usize = after_sign(s, 0);
    let a: usize = digits_end(s, start);
    let mut from: usize = a;
    let mut end: usize = a;
    if a < s.len() && s[a] == '.' {
        from = a + 1;
        end = digits_end(s, a + 1);
        proof {
            lemma_run_digits(s@, (a + 1) as nat);
        }
    }
    assert(end == mantissa_end(s@, start as nat));
    assert(fraction(s@) =~= s@.subrange(from as int, end as int));
    let mut exp: u128 = 0;
    let mut minus = false;
    if end < s.len() {
        minus = end + 1 < s.len() && s[end + 1] == '-';
        let d: usize = after_sign(s, end + 1);
        proof {
            reveal(is_numeral);
            lemma_run_digits(s@, d as nat);
        }
        exp = capped(s, d);
    }
    let len: u128 = (end - from) as u128;
    let k: u128 = if minus {
        len + exp
    } else if len > exp {
        len - exp
    } else {
        0
    };
    if k <= LEAST_SCALE {
        return false;
    }
    let v = doubled_mantissa(s, start, a, from, end);
    at_most_power(&v, k, Ghost(scale(s@) as nat))
}

/// Whether a text is a numeral of zero.
fn check_zero(s: &[char]) -> (r: bool)
    requires
        is_numeral(s@),
    ensures
        r == is_zero(s@),
{
    let start: usize = after_sign(s, 0);
    let a: usize = digits_end(s, start);
    let end: usize = if a < s.len() && s[a] == '.' {
        digits_end(s, a + 1)
    } else {
        a
    };
    let mut i: usize = 0;
    while i < end
        invariant
            i <= end <= s@.len(),
            is_numeral(s@),
            end == mantissa_end(s@, sign_len(s@, 0)),
            forall|j: int| 0 <= j < i ==> !('1' <= #[trigger] s@[j] <= '9'),
        decreases end - i,
    {
        if '1' <= s[i] && s[i] <= '9' {
            return false;
        }
        i += 1;
    }
    true
}

/// Whether a number is read as zero.
pub fn check_reads_as_zero(s: &[char]) -> (r: bool)
    ensures
        r == reads_as_zero(s@),
{
    check_numeral(s) && (check_zero(s) || check_tiny(s))
}

/// Whether a number has a minus sign.
pub fn check_minus(s: &[char]) -> (r: bool)
    ensures
        r == is_minus(s@),
{
    s.len() > 0 && s[0] == '-' && !check_spells(s, 1, "nan")
}

} // verus!
