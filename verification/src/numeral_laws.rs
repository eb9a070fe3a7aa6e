//! The form of numerals, and what they come to.

use crate::numeral::{
    digit_run, ends_in_exponent, has_mantissa, is_number, is_numeral, lemma_digit_run_bound,
    mantissa_end,
    sign_len, spells,
};
use crate::magnitude::{
    exponent, fraction, is_negative, is_zero, is_zero_or_less, mantissa, reads_as_zero, scale,
};
use crate::text::{digits_value, is_digit, left, lower};
use vstd::arithmetic::power::pow;
use vstd::prelude::*;
use vstd::string::*;

verus! {

/// A text of decimal digits.
pub open spec fn all_digits(s: Seq<char>) -> bool {
    forall|i: int| 0 <= i < s.len() ==> '0' <= #[trigger] s[i] <= '9'
}

/// A sign, or nothing.
pub open spec fn is_sign(s: Seq<char>) -> bool {
    s == Seq::<char>::empty() || s == seq!['+'] || s == seq!['-']
}

/// The digits behind the point, with the point, or nothing.
pub open spec fn is_fraction(s: Seq<char>, b: Seq<char>) -> bool {
    all_digits(b) && (s == seq!['.'] + b || (s.len() == 0 && b.len() == 0))
}

/// An exponent: `e` or `E`, a sign or none, and digits; or nothing.
pub open spec fn is_exponent(s: Seq<char>, sign: Seq<char>, e: Seq<char>) -> bool {
    ||| s.len() == 0
    ||| {
        &&& s == seq!['e'] + sign + e || s == seq!['E'] + sign + e
        &&& is_sign(sign)
        &&& all_digits(e)
        &&& e.len() > 0
    }
}

proof fn lemma_run(s: Seq<char>, i: nat, n: nat)
    requires
        i + n <= s.len(),
        forall|k: int| i <= k < i + n ==> '0' <= #[trigger] s[k] <= '9',
        i + n == s.len() || !('0' <= s[(i + n) as int] <= '9'),
    ensures
        digit_run(s, i) == n,
    decreases n,
{
    if n > 0 {
        assert('0' <= s[i as int] <= '9');
        lemma_run(s, i + 1, (n - 1) as nat);
    }
}

/// A sign or none, digits, perhaps a point and digits behind it, and perhaps an exponent make a
/// numeral, as long as there is a digit before or behind the point.
pub proof fn law_numeral_made(
    sign: Seq<char>,
    a: Seq<char>,
    frac: Seq<char>,
    b: Seq<char>,
    exp: Seq<char>,
    esign: Seq<char>,
    e: Seq<char>,
)
    requires
        is_sign(sign),
        all_digits(a),
        is_fraction(frac, b),
        is_exponent(exp, esign, e),
        a.len() + b.len() > 0,
    ensures
        is_numeral(sign + a + frac + exp),
{
    reveal(is_numeral);
    lemma_places(sign, a, frac, b, exp, esign, e);
}

#[verifier::spinoff_prover]
#[verifier::rlimit(40)]
proof fn lemma_places(
    sign: Seq<char>,
    a: Seq<char>,
    frac: Seq<char>,
    b: Seq<char>,
    exp: Seq<char>,
    esign: Seq<char>,
    e: Seq<char>,
)
    requires
        is_sign(sign),
        all_digits(a),
        is_fraction(frac, b),
        is_exponent(exp, esign, e),
        a.len() + b.len() > 0,
    ensures
        ({
            let s = sign + a + frac + exp;
            let end = sign.len() + a.len() + frac.len();
            &&& sign_len(s, 0) == sign.len()
            &&& digit_run(s, sign.len()) == a.len()
            &&& mantissa_end(s, sign.len()) == end
            &&& has_mantissa(s, sign.len())
            &&& ends_in_exponent(s, end)
            &&& exp.len() > 0 ==> sign_len(s, end + 1) == esign.len()
        }),
{
    let s = sign + a + frac + exp;
    let i = sign.len();
    if sign.len() == 0 {
        if a.len() > 0 {
            assert(s[0] == a[0]);
        } else {
            assert(s[0] == frac[0]);
        }
    } else {
        assert(s[0] == sign[0]);
    }
    assert(sign_len(s, 0) == i);
    let m = i + a.len();
    assert forall|k: int| i <= k < m implies '0' <= #[trigger] s[k] <= '9' by {
        assert(s[k] == a[k - i]);
    }
    if m < s.len() {
        if frac.len() > 0 {
            assert(s[m as int] == frac[0]);
        } else {
            assert(s[m as int] == exp[0]);
        }
    }
    lemma_run(s, i, a.len());
    let end = m + frac.len();
    if frac.len() > 0 {
        assert forall|k: int| m + 1 <= k < end implies '0' <= #[trigger] s[k] <= '9' by {
            assert(s[k] == frac[k - m]);
            assert(frac[k - m] == b[k - m - 1]);
        }
        if end < s.len() {
            assert(s[end as int] == exp[0]);
        }
        lemma_run(s, m + 1, b.len());
    }
    assert(mantissa_end(s, i) == end);
    assert(has_mantissa(s, i));
    if exp.len() > 0 {
        assert(s[end as int] == exp[0]);
        let d = end + 1 + esign.len();
        if esign.len() > 0 {
            assert(s[(end + 1) as int] == exp[1]);
            assert(exp[1] == esign[0]);
        } else {
            assert(s[(end + 1) as int] == exp[1]);
            assert(exp[1] == e[0]);
        }
        assert(sign_len(s, end + 1) == esign.len());
        assert forall|k: int| d <= k < d + e.len() implies '0' <= #[trigger] s[k] <= '9' by {
            assert(s[k] == exp[k - end]);
            assert(exp[k - end] == e[k - d]);
        }
        lemma_run(s, d, e.len());
    }
}

proof fn lemma_digits_of_run(s: Seq<char>, i: nat)
    ensures
        i <= s.len() ==> i + digit_run(s, i) <= s.len() && all_digits(
            s.subrange(i as int, (i + digit_run(s, i)) as int),
        ),
    decreases left(s.len(), i),
{
    lemma_digit_run_bound(s, i);
    if i < s.len() && is_digit(s[i as int]) {
        lemma_digits_of_run(s, i + 1);
        let whole = s.subrange(i as int, (i + digit_run(s, i)) as int);
        let rest = s.subrange(i as int + 1, (i + digit_run(s, i)) as int);
        assert forall|k: int| 0 <= k < whole.len() implies '0' <= #[trigger] whole[k] <= '9' by {
            if k > 0 {
                assert(whole[k] == rest[k - 1]);
            }
        }
    }
}

/// The parts of a numeral.
pub struct Parts {
    pub sign: Seq<char>,
    pub before: Seq<char>,
    pub frac: Seq<char>,
    pub behind: Seq<char>,
    pub exp: Seq<char>,
    pub esign: Seq<char>,
    pub power: Seq<char>,
}

/// Every numeral is made so: a sign or none, digits, perhaps a point and digits, and perhaps an
/// exponent, with a digit before or behind the point.
#[verifier::spinoff_prover]
#[verifier::rlimit(40)]
pub proof fn law_numeral_parts(s: Seq<char>) -> (p: Parts)
    requires
        is_numeral(s),
    ensures
        s == p.sign + p.before + p.frac + p.exp,
        is_sign(p.sign),
        all_digits(p.before),
        is_fraction(p.frac, p.behind),
        is_exponent(p.exp, p.esign, p.power),
        p.before.len() + p.behind.len() > 0,
{
    reveal(is_numeral);
    let i = sign_len(s, 0);
    lemma_digits_of_run(s, i);
    let m = i + digit_run(s, i);
    let end = mantissa_end(s, i);
    let sign = s.take(i as int);
    let before = s.subrange(i as int, m as int);
    lemma_digits_of_run(s, m + 1);
    let frac = s.subrange(m as int, end as int);
    let behind = if end > m {
        s.subrange(m as int + 1, end as int)
    } else {
        seq![]
    };
    let exp = s.skip(end as int);
    let d = end + 1 + sign_len(s, end + 1);
    lemma_digits_of_run(s, d);
    let esign = if exp.len() > 0 {
        s.subrange(end as int + 1, d as int)
    } else {
        seq![]
    };
    let power = if exp.len() > 0 {
        s.skip(d as int)
    } else {
        seq![]
    };
    if i > 0 {
        assert(sign =~= seq![s[0]]);
    } else {
        assert(sign =~= Seq::<char>::empty());
    }
    if end > m {
        assert(frac =~= seq!['.'] + behind);
    }
    if exp.len() > 0 {
        assert(power =~= s.subrange(d as int, (d + digit_run(s, d)) as int));
        if sign_len(s, end + 1) > 0 {
            assert(esign =~= seq![s[(end + 1) as int]]);
        } else {
            assert(esign =~= Seq::<char>::empty());
        }
        assert(exp =~= seq![s[end as int]] + esign + power);
    }
    assert(s =~= sign + before + frac + exp);
    Parts { sign, before, frac, behind, exp, esign, power }
}

/// What the parts of a numeral are for: the digits of both sides of the point make its mantissa,
/// the exponent is negative where its sign is a minus, and each digit behind the point divides by
/// ten.
#[verifier::spinoff_prover]
#[verifier::rlimit(40)]
pub proof fn law_numeral_value(
    sign: Seq<char>,
    a: Seq<char>,
    frac: Seq<char>,
    b: Seq<char>,
    exp: Seq<char>,
    esign: Seq<char>,
    e: Seq<char>,
)
    requires
        is_sign(sign),
        all_digits(a),
        is_fraction(frac, b),
        is_exponent(exp, esign, e),
        a.len() + b.len() > 0,
    ensures
        ({
            let s = sign + a + frac + exp;
            let power = if exp.len() == 0 {
                0
            } else if esign == seq!['-'] {
                -(digits_value(e) as int)
            } else {
                digits_value(e) as int
            };
            &&& mantissa(s) == a + b
            &&& exponent(s) == power
            &&& scale(s) == b.len() - power
        }),
{
    lemma_places(sign, a, frac, b, exp, esign, e);
    let s = sign + a + frac + exp;
    let m = sign.len() + a.len();
    let end = m + frac.len();
    assert(s.subrange(sign.len() as int, m as int) =~= a);
    if frac.len() > 0 {
        assert(s[m as int] == frac[0]);
        assert(s.subrange((m + 1) as int, end as int) =~= b);
    } else {
        if m < s.len() {
            assert(s[m as int] == exp[0]);
        }
        assert(b =~= seq![]);
    }
    assert(fraction(s) == b);
    if exp.len() > 0 {
        assert(s.skip((end + 1 + esign.len()) as int) =~= e);
        assert(s[(end + 1) as int] == exp[1]);
        if esign.len() > 0 {
            assert(exp[1] == esign[0]);
            if esign[0] == '-' {
                assert(esign =~= seq!['-']);
            }
        } else {
            assert(exp[1] == e[0]);
        }
    }
}

/// A numeral is read as zero where no digit but `0` stands before its exponent, and where its
/// magnitude is at most the 1075th power of one half; a minus sign makes it zero or less, and less
/// than zero unless it is read as zero.
#[verifier::spinoff_prover]
#[verifier::rlimit(40)]
pub proof fn law_compared_with_zero(
    sign: Seq<char>,
    a: Seq<char>,
    frac: Seq<char>,
    b: Seq<char>,
    exp: Seq<char>,
    esign: Seq<char>,
    e: Seq<char>,
)
    requires
        is_sign(sign),
        all_digits(a),
        is_fraction(frac, b),
        is_exponent(exp, esign, e),
        a.len() + b.len() > 0,
    ensures
        ({
            let s = sign + a + frac + exp;
            let power = if exp.len() == 0 {
                0
            } else if esign == seq!['-'] {
                -(digits_value(e) as int)
            } else {
                digits_value(e) as int
            };
            let k = b.len() - power;
            let zero = (forall|i: int| 0 <= i < a.len() + b.len() ==> #[trigger] (a + b)[i] == '0')
                || (k > 323 && digits_value(a + b) * pow(2, 1075) <= pow(10, k as nat));
            &&& reads_as_zero(s) <==> zero
            &&& is_zero_or_less(s) <==> zero || sign == seq!['-']
            &&& is_negative(s) <==> !zero && sign == seq!['-']
        }),
{
    law_numeral_made(sign, a, frac, b, exp, esign, e);
    law_numeral_value(sign, a, frac, b, exp, esign, e);
    lemma_places(sign, a, frac, b, exp, esign, e);
    let s = sign + a + frac + exp;
    let i = sign.len();
    let m = i + a.len();
    let end = m + frac.len();
    let both = a + b;
    if is_zero(s) {
        assert forall|k: int| 0 <= k < both.len() implies #[trigger] both[k] == '0' by {
            if k < a.len() {
                assert(both[k] == a[k]);
                assert(s[i + k] == a[k]);
            } else {
                assert(both[k] == b[k - a.len()]);
                assert(frac[k - a.len() + 1] == b[k - a.len()]);
                assert(s[m + (k - a.len() + 1)] == frac[k - a.len() + 1]);
            }
        }
    }
    if forall|k: int| 0 <= k < both.len() ==> #[trigger] both[k] == '0' {
        assert forall|k: int| 0 <= k < end implies !('1' <= #[trigger] s[k] <= '9') by {
            if k < i {
                assert(s[k] == sign[k]);
            } else if k < m {
                assert(s[k] == both[k - i]);
            } else if k == m {
                assert(s[k] == frac[0]);
            } else {
                assert(s[k] == frac[k - m]);
                assert(frac[k - m] == both[a.len() + (k - m - 1)]);
            }
        }
    }
    assert(s[0] == '-' <==> sign == seq!['-']) by {
        if sign.len() > 0 {
            assert(s[0] == sign[0]);
            if sign[0] == '-' {
                assert(sign =~= seq!['-']);
            }
        } else if a.len() > 0 {
            assert(s[0] == a[0]);
        } else {
            assert(s[0] == frac[0]);
        }
    }
    if s[0] == '-' {
        reveal_strlit("nan");
        assert(s[1] != 'n' && s[1] != 'N') by {
            if a.len() > 0 {
                assert(s[1] == a[0]);
            } else {
                assert(s[1] == frac[0]);
            }
        }
        if spells(s, 1, "nan"@) {
            assert("nan"@[0] == 'n');
            assert(lower(s[1]) == "nan"@[0]);
        }
    }
}

/// A text is read as a floating-point number where it is a numeral, or else a sign or none and one
/// of the words `inf`, `infinity` and `nan`, in capitals or not.
pub proof fn law_number_texts(sign: Seq<char>, w: Seq<char>, s: Seq<char>)
    requires
        is_sign(sign),
    ensures
        is_numeral(s) ==> is_number(s),
        is_word(w, "inf"@) || is_word(w, "infinity"@) || is_word(w, "nan"@) ==> is_number(sign + w),
        is_number(s) && !is_numeral(s) ==> {
            let body = if s[0] == '+' || s[0] == '-' {
                s.drop_first()
            } else {
                s
            };
            is_word(body, "inf"@) || is_word(body, "infinity"@) || is_word(body, "nan"@)
        },
{
    reveal_strlit("inf");
    reveal_strlit("infinity");
    reveal_strlit("nan");
    let t = sign + w;
    lemma_word(t, sign.len(), "inf"@);
    lemma_word(t, sign.len(), "infinity"@);
    lemma_word(t, sign.len(), "nan"@);
    assert(t.skip(sign.len() as int) =~= w);
    if is_word(w, "inf"@) || is_word(w, "infinity"@) || is_word(w, "nan"@) {
        if sign.len() > 0 {
            assert(t[0] == sign[0]);
        } else {
            assert(t[0] == w[0]);
            assert(lower(w[0]) == 'i' || lower(w[0]) == 'n');
        }
        assert(sign_len(t, 0) == sign.len());
    }
    let i = sign_len(s, 0);
    lemma_word(s, i, "inf"@);
    lemma_word(s, i, "infinity"@);
    lemma_word(s, i, "nan"@);
    assert(i == 0 ==> s.skip(0) =~= s);
    assert(i == 1 ==> s.skip(1) =~= s.drop_first());
}

/// A word but for the case of letters.
pub open spec fn is_word(s: Seq<char>, word: Seq<char>) -> bool {
    s.len() == word.len() && forall|k: int| 0 <= k < s.len() ==> lower(#[trigger] s[k]) == word[k]
}

proof fn lemma_word(s: Seq<char>, i: nat, word: Seq<char>)
    ensures
        i <= s.len() ==> (spells(s, i, word) <==> is_word(s.skip(i as int), word)),
{
    if i <= s.len() {
        let t = s.skip(i as int);
        if spells(s, i, word) {
            assert forall|k: int| 0 <= k < t.len() implies lower(#[trigger] t[k]) == word[k] by {
                assert(t[k] == s[i + k]);
            }
        }
        if is_word(t, word) {
            assert forall|k: int| 0 <= k < word.len() implies lower(s[i + k])
                == #[trigger] word[k] by {
                assert(t[k] == s[i + k]);
            }
        }
    }
}

} // verus!
