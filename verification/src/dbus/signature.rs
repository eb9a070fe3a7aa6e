//! Type signatures: the strings, such as `a{sv}` or `(yv)`, that name D-Bus types.
//!
//! A complete type is one of
//!
//! ```text
//! y b n q i u x t d s o g v     a basic type or a variant
//! a T                           an array of T
//! a{ K V }                      a dictionary
//! ( T T .. )                    a structure
//! ```

use crate::error::{protocol, Error, ErrorView};
use crate::text::{chars_of, lead_byte, lead_byte_of, left, stands_at};
use vstd::prelude::*;
use vstd::string::*;

verus! {

/// The characters that are a complete type by themselves.
pub open spec fn single(c: char) -> bool {
    c == 'y' || c == 'b' || c == 'n' || c == 'q' || c == 'i' || c == 'u' || c == 'x' || c == 't'
        || c == 'd' || c == 's' || c == 'o' || c == 'g' || c == 'v'
}

/// Whether the byte is a complete type by itself.
pub fn is_single(c: u8) -> (r: bool)
    ensures
        r == single(c as char),
{
    single_char(c as char)
}

fn single_char(c: char) -> (r: bool)
    ensures
        r == single(c),
{
    matches!(c, 'y' | 'b' | 'n' | 'q' | 'i' | 'u' | 'x' | 't' | 'd' | 's' | 'o' | 'g' | 'v')
}

pub open spec fn ends_early() -> ErrorView {
    ErrorView::Protocol("签名意外结束"@)
}

pub open spec fn dict_unclosed() -> ErrorView {
    ErrorView::Protocol("字典签名缺少 '}'"@)
}

pub open spec fn struct_unclosed() -> ErrorView {
    ErrorView::Protocol("结构体签名缺少 ')'"@)
}

pub open spec fn bad_char(c: char) -> ErrorView {
    ErrorView::Protocol("非法签名字符 '"@ + seq![lead_byte(c)] + "'"@)
}

/// How many characters the complete type that starts at `s[i]` takes, or why
/// no complete type starts there.
pub open spec fn type_len(s: Seq<char>, i: nat) -> Result<nat, ErrorView>
    decreases left(s.len(), i), 0nat,
{
    if i >= s.len() {
        Err(ends_early())
    } else if s[i as int] == 'a' {
        if i + 1 < s.len() && s[(i + 1) as int] == '{' {
            match type_len(s, i + 2) {
                Err(e) => Err(e),
                Ok(k) => match type_len(s, i + 2 + k) {
                    Err(e) => Err(e),
                    Ok(v) => if i + 2 + k + v >= s.len() || s[(i + 2 + k + v) as int] != '}' {
                        Err(dict_unclosed())
                    } else {
                        Ok(2 + k + v + 1)
                    },
                },
            }
        } else {
            match type_len(s, i + 1) {
                Err(e) => Err(e),
                Ok(n) => Ok(1 + n),
            }
        }
    } else if s[i as int] == '(' {
        match fields_len(s, i + 1) {
            Err(e) => Err(e),
            Ok(n) => Ok(1 + n),
        }
    } else if single(s[i as int]) {
        Ok(1)
    } else {
        Err(bad_char(s[i as int]))
    }
}

/// How many characters the complete types from `s[i]` on take up to and with
/// the `)` that ends them.
pub open spec fn fields_len(s: Seq<char>, i: nat) -> Result<nat, ErrorView>
    decreases left(s.len(), i), 1nat,
{
    if i >= s.len() {
        Err(struct_unclosed())
    } else if s[i as int] == ')' {
        Ok(1)
    } else {
        match type_len(s, i) {
            Err(e) => Err(e),
            Ok(n) => if n == 0 {
                Ok(0)
            } else {
                match fields_len(s, i + n) {
                    Err(e) => Err(e),
                    Ok(m) => Ok(n + m),
                }
            },
        }
    }
}

/// A string that is exactly one complete type.
pub open spec fn is_type(t: Seq<char>) -> bool {
    type_len(t, 0) == Ok::<nat, ErrorView>(t.len())
}

/// A type found at `s[i]` is not empty and lies within `s`.
pub proof fn lemma_type_len_bounds(s: Seq<char>, i: nat)
    ensures
        type_len(s, i) matches Ok(n) ==> 1 <= n && i + n <= s.len(),
    decreases left(s.len(), i), 0nat,
{
    if i < s.len() {
        if s[i as int] == 'a' {
            if i + 1 < s.len() && s[(i + 1) as int] == '{' {
                lemma_type_len_bounds(s, i + 2);
                if let Ok(k) = type_len(s, i + 2) {
                    lemma_type_len_bounds(s, i + 2 + k);
                }
            } else {
                lemma_type_len_bounds(s, i + 1);
            }
        } else if s[i as int] == '(' {
            lemma_fields_len_bounds(s, i + 1);
        }
    }
}

/// The fields of a structure lie within `s` and end with a `)`.
pub proof fn lemma_fields_len_bounds(s: Seq<char>, i: nat)
    ensures
        fields_len(s, i) matches Ok(n) ==> 1 <= n && i + n <= s.len() && s[i + n - 1] == ')',
    decreases left(s.len(), i), 1nat,
{
    if i < s.len() && s[i as int] != ')' {
        lemma_type_len_bounds(s, i);
        if let Ok(n) = type_len(s, i) {
            lemma_fields_len_bounds(s, i + n);
        }
    }
}

/// Finds where the type that starts at `s[i]` ends.
pub(crate) fn scan(s: &[char], i: usize) -> (r: Result<usize, Error>)
    ensures
        match r {
            Ok(end) => i < end <= s@.len() && type_len(s@, i as nat) == Ok::<nat, ErrorView>(
                (end - i) as nat,
            ),
            Err(e) => type_len(s@, i as nat) == Err::<nat, ErrorView>(e@),
        },
    decreases left(s@.len(), i as nat), 0nat,
{
    proof {
        lemma_type_len_bounds(s@, i as nat);
    }
    if i >= s.len() {
        return Err(protocol("签名意外结束"));
    }
    let c = s[i];
    if c == 'a' {
        if i + 1 < s.len() && s[i + 1] == '{' {
            let key_end: usize = scan(s, i + 2)?;
            let value_end: usize = scan(s, key_end)?;
            if value_end >= s.len() || s[value_end] != '}' {
                return Err(protocol("字典签名缺少 '}'"));
            }
            Ok(value_end + 1)
        } else {
            scan(s, i + 1)
        }
    } else if c == '(' {
        scan_fields(s, i + 1)
    } else if single_char(c) {
        Ok(i + 1)
    } else {
        let mut m = "非法签名字符 '".to_string();
        m.push(lead_byte_of(c));
        assert(m@ =~= "非法签名字符 '"@ + seq![lead_byte(c)]);
        Err(Error::Protocol(m.concat("'")))
    }
}

fn scan_fields(s: &[char], i: usize) -> (r: Result<usize, Error>)
    ensures
        match r {
            Ok(end) => i < end <= s@.len() && fields_len(s@, i as nat) == Ok::<nat, ErrorView>(
                (end - i) as nat,
            ),
            Err(e) => fields_len(s@, i as nat) == Err::<nat, ErrorView>(e@),
        },
    decreases left(s@.len(), i as nat), 1nat,
{
    let mut j: usize = i;
    while j < s.len() && s[j] != ')'
        invariant
            i <= j,
            i < s@.len() ==> j <= s@.len(),
            i >= s@.len() ==> j == i,
            match fields_len(s@, j as nat) {
                Ok(m) => fields_len(s@, i as nat) == Ok::<nat, ErrorView>((j - i + m) as nat),
                Err(e) => fields_len(s@, i as nat) == Err::<nat, ErrorView>(e),
            },
        decreases s@.len() - j,
    {
        j = scan(s, j)?;
    }
    if j >= s.len() {
        return Err(protocol("结构体签名缺少 ')'"));
    }
    Ok(j + 1)
}

/// Whether a type found in one string is found, with the same length, wherever
/// its characters stand in another.
proof fn lemma_type_len_local(s: Seq<char>, i: nat, n: nat, z: Seq<char>, j: nat)
    requires
        type_len(s, i) == Ok::<nat, ErrorView>(n),
        j + n <= z.len(),
        forall|k: int| i <= k < i + n ==> s[k] == z[k - i + j],
    ensures
        type_len(z, j) == Ok::<nat, ErrorView>(n),
    decreases left(s.len(), i), 0nat,
{
    lemma_type_len_bounds(s, i);
    assert(z[j as int] == s[i as int]);
    if s[i as int] == 'a' {
        if i + 1 < s.len() && s[(i + 1) as int] == '{' {
            let k = type_len(s, i + 2)->Ok_0;
            let v = type_len(s, i + 2 + k)->Ok_0;
            lemma_type_len_local(s, i + 2, k, z, j + 2);
            lemma_type_len_local(s, i + 2 + k, v, z, j + 2 + k);
            assert(z[(j + 1) as int] == s[(i + 1) as int]);
            assert(z[(j + 2 + k + v) as int] == s[(i + 2 + k + v) as int]);
        } else {
            lemma_type_len_bounds(s, i + 1);
            assert(z[(j + 1) as int] == s[(i + 1) as int]);
            lemma_type_len_local(s, i + 1, (n - 1) as nat, z, j + 1);
        }
    } else if s[i as int] == '(' {
        lemma_fields_len_local(s, i + 1, (n - 1) as nat, z, j + 1);
    }
}

proof fn lemma_fields_len_local(s: Seq<char>, i: nat, n: nat, z: Seq<char>, j: nat)
    requires
        fields_len(s, i) == Ok::<nat, ErrorView>(n),
        j + n <= z.len(),
        forall|k: int| i <= k < i + n ==> s[k] == z[k - i + j],
    ensures
        fields_len(z, j) == Ok::<nat, ErrorView>(n),
    decreases left(s.len(), i), 1nat,
{
    lemma_fields_len_bounds(s, i);
    assert(z[j as int] == s[i as int]);
    if s[i as int] != ')' {
        lemma_type_len_bounds(s, i);
        let m = type_len(s, i)->Ok_0;
        lemma_fields_len_bounds(s, i + m);
        lemma_type_len_local(s, i, m, z, j);
        lemma_fields_len_local(s, i + m, (n - m) as nat, z, j + m);
    }
}

/// A complete type is found wherever it stands.
pub proof fn lemma_type_stands(t: Seq<char>, s: Seq<char>, i: nat)
    requires
        is_type(t),
        stands_at(t, s, i),
    ensures
        type_len(s, i) == Ok::<nat, ErrorView>(t.len()),
{
    assert forall|k: int| 0 <= k < t.len() implies t[k] == s[k - 0 + i] by {
        assert(s.subrange(i as int, (i + t.len()) as int)[k] == s[i + k]);
    }
    lemma_type_len_local(t, 0, t.len(), s, i);
}

/// What is found at a position, taken by itself, is a complete type.
pub proof fn lemma_found_is_type(s: Seq<char>, i: nat)
    requires
        type_len(s, i) is Ok,
    ensures
        is_type(s.subrange(i as int, (i + type_len(s, i)->Ok_0) as int)),
{
    lemma_type_len_bounds(s, i);
    let n = type_len(s, i)->Ok_0;
    lemma_type_len_local(s, i, n, s.subrange(i as int, (i + n) as int), 0);
}

/// The complete type at the start of `s`, and what follows it.
pub open spec fn first_type(s: Seq<char>) -> Result<(Seq<char>, Seq<char>), ErrorView> {
    match type_len(s, 0) {
        Ok(n) => Ok((s.take(n as int), s.skip(n as int))),
        Err(e) => Err(e),
    }
}

/// The complete types that `s` is made of, from position `i` on.
pub open spec fn types_from(s: Seq<char>, i: nat) -> Result<Seq<Seq<char>>, ErrorView>
    decreases left(s.len(), i),
{
    if i >= s.len() {
        Ok(seq![])
    } else {
        match type_len(s, i) {
            Err(e) => Err(e),
            Ok(n) => if n == 0 {
                Ok(seq![])
            } else {
                match types_from(s, i + n) {
                    Err(e) => Err(e),
                    Ok(rest) => Ok(seq![s.subrange(i as int, (i + n) as int)] + rest),
                }
            },
        }
    }
}

/// What [`dict_types`] returns.
pub open spec fn dict_types_of(t: Seq<char>) -> Result<(Seq<char>, Seq<char>), ErrorView> {
    if t.len() < 4 || t[0] != 'a' || t[1] != '{' || t.last() != '}' {
        Err(ErrorView::Protocol("不是字典签名: "@ + t))
    } else {
        match first_type(t.subrange(2, t.len() - 1)) {
            Err(e) => Err(e),
            Ok((key, rest)) => if !basic(key) {
                Err(ErrorView::Protocol("字典键必须是基本类型: "@ + key))
            } else {
                match first_type(rest) {
                    Err(e) => Err(e),
                    Ok((val, tail)) => if tail.len() > 0 {
                        Err(ErrorView::Protocol("字典签名多余内容: "@ + tail))
                    } else {
                        Ok((key, val))
                    },
                }
            },
        }
    }
}

/// What [`array_elem`] returns.
pub open spec fn array_elem_of(t: Seq<char>) -> Result<Seq<char>, ErrorView> {
    if t.len() == 0 || t[0] != 'a' {
        Err(ErrorView::Protocol("不是数组签名: "@ + t))
    } else {
        match first_type(t.skip(1)) {
            Err(e) => Err(e),
            Ok((elem, rest)) => if rest.len() > 0 {
                Err(ErrorView::Protocol("数组签名多余内容: "@ + rest))
            } else {
                Ok(elem)
            },
        }
    }
}

/// What [`struct_fields`] returns.
pub open spec fn struct_fields_of(t: Seq<char>) -> Result<Seq<Seq<char>>, ErrorView> {
    if t.len() == 0 || t[0] != '(' || t.last() != ')' {
        Err(ErrorView::Protocol("不是结构体签名: "@ + t))
    } else {
        types_from(t.subrange(1, t.len() - 1), 0)
    }
}

/// A type that may be the key of a dictionary: one character, and no variant.
pub open spec fn basic(t: Seq<char>) -> bool {
    t.len() == 1 && single(t[0]) && t[0] != 'v'
}

/// The alignment, in bytes, of a value of the type that `sig` starts with.
pub open spec fn alignment(sig: Seq<char>) -> nat {
    if sig.len() == 0 {
        1
    } else {
        let c = sig[0];
        if c == 'n' || c == 'q' {
            2
        } else if c == 'b' || c == 'i' || c == 'u' || c == 's' || c == 'o' || c == 'a' {
            4
        } else if c == 'x' || c == 't' || c == 'd' || c == '(' || c == '{' {
            8
        } else {
            1
        }
    }
}

/// The texts of a list of strings.
pub open spec fn texts(v: Seq<&str>) -> Seq<Seq<char>> {
    Seq::new(v.len(), |i: int| v[i]@)
}

/// The alignment, in bytes, of a value of the type that `sig` starts with.
pub fn alignment_of(sig: &str) -> (r: usize)
    ensures
        r == alignment(sig@),
{
    let cs = chars_of(sig);
    if cs.len() == 0 {
        1
    } else {
        alignment_at(&cs, 0)
    }
}

/// The alignment of a value of the type that starts at `s[i]`.
pub(crate) fn alignment_at(s: &[char], i: usize) -> (r: usize)
    requires
        i < s@.len(),
    ensures
        r == alignment(s@.skip(i as int)),
        r == 1 || r == 2 || r == 4 || r == 8,
{
    match s[i] {
        'n' | 'q' => 2,
        'b' | 'i' | 'u' | 's' | 'o' | 'a' => 4,
        'x' | 't' | 'd' | '(' | '{' => 8,
        _ => 1,
    }
}

/// Cuts the complete type off the start of a signature.
pub fn read_one(s: &str) -> (r: Result<(&str, &str), Error>)
    ensures
        match r {
            Ok(pair) => first_type(s@) == Ok::<(Seq<char>, Seq<char>), ErrorView>(
                (pair.0@, pair.1@),
            ),
            Err(e) => first_type(s@) == Err::<(Seq<char>, Seq<char>), ErrorView>(e@),
        },
{
    let cs = chars_of(s);
    let n: usize = scan(&cs, 0)?;
    Ok((s.substring_char(0, n), s.substring_char(n, cs.len())))
}

/// Cuts a signature into its complete types.
pub fn split_all(s: &str) -> (r: Result<Vec<&str>, Error>)
    ensures
        match r {
            Ok(v) => types_from(s@, 0) == Ok::<Seq<Seq<char>>, ErrorView>(texts(v@)),
            Err(e) => types_from(s@, 0) == Err::<Seq<Seq<char>>, ErrorView>(e@),
        },
{
    let cs = chars_of(s);
    let mut out: Vec<&str> = Vec::new();
    let mut i: usize = 0;
    assert(match types_from(s@, 0) {
        Ok(rest) => texts(out@) + rest == rest,
        Err(e) => true,
    });
    while i < cs.len()
        invariant
            cs@ == s@,
            i <= cs@.len(),
            match types_from(s@, i as nat) {
                Ok(rest) => types_from(s@, 0) == Ok::<Seq<Seq<char>>, ErrorView>(
                    texts(out@) + rest,
                ),
                Err(e) => types_from(s@, 0) == Err::<Seq<Seq<char>>, ErrorView>(e),
            },
        decreases cs@.len() - i,
    {
        let end: usize = scan(&cs, i)?;
        let one = s.substring_char(i, end);
        let ghost before = out@;
        out.push(one);
        proof {
            if let Ok(rest) = types_from(s@, end as nat) {
                assert(texts(before) + (seq![one@] + rest) =~= texts(out@) + rest);
            }
        }
        i = end;
    }
    assert(texts(out@) + Seq::<Seq<char>>::empty() =~= texts(out@));
    Ok(out)
}

pub(crate) fn is_basic(t: &str) -> (r: bool)
    ensures
        r == basic(t@),
{
    let cs = chars_of(t);
    cs.len() == 1 && single_char(cs[0]) && cs[0] != 'v'
}

/// The key type and the value type of a dictionary type: `a{sv}` gives `s` and `v`.
pub fn dict_types(t: &str) -> (r: Result<(&str, &str), Error>)
    ensures
        match r {
            Ok(pair) => dict_types_of(t@) == Ok::<(Seq<char>, Seq<char>), ErrorView>(
                (pair.0@, pair.1@),
            ),
            Err(e) => dict_types_of(t@) == Err::<(Seq<char>, Seq<char>), ErrorView>(e@),
        },
{
    let cs = chars_of(t);
    let n: usize = cs.len();
    if n < 4 || cs[0] != 'a' || cs[1] != '{' || cs[n - 1] != '}' {
        return Err(Error::Protocol("不是字典签名: ".to_string().concat(t)));
    }
    let (key, rest) = read_one(t.substring_char(2, n - 1))?;
    if !is_basic(key) {
        return Err(Error::Protocol("字典键必须是基本类型: ".to_string().concat(key)));
    }
    let (val, tail) = read_one(rest)?;
    if !tail.is_empty() {
        return Err(Error::Protocol("字典签名多余内容: ".to_string().concat(tail)));
    }
    Ok((key, val))
}

/// The element type of an array type: `as` gives `s`.
pub fn array_elem(t: &str) -> (r: Result<&str, Error>)
    ensures
        match r {
            Ok(elem) => array_elem_of(t@) == Ok::<Seq<char>, ErrorView>(elem@),
            Err(e) => array_elem_of(t@) == Err::<Seq<char>, ErrorView>(e@),
        },
{
    let cs = chars_of(t);
    if cs.len() == 0 || cs[0] != 'a' {
        return Err(Error::Protocol("不是数组签名: ".to_string().concat(t)));
    }
    let (elem, rest) = read_one(t.substring_char(1, cs.len()))?;
    if !rest.is_empty() {
        return Err(Error::Protocol("数组签名多余内容: ".to_string().concat(rest)));
    }
    Ok(elem)
}

/// The field types of a structure type: `(yv)` gives `y` and `v`.
pub fn struct_fields(t: &str) -> (r: Result<Vec<&str>, Error>)
    ensures
        match r {
            Ok(v) => struct_fields_of(t@) == Ok::<Seq<Seq<char>>, ErrorView>(texts(v@)),
            Err(e) => struct_fields_of(t@) == Err::<Seq<Seq<char>>, ErrorView>(e@),
        },
{
    let cs = chars_of(t);
    let n: usize = cs.len();
    if n == 0 || cs[0] != '(' || cs[n - 1] != ')' {
        return Err(Error::Protocol("不是结构体签名: ".to_string().concat(t)));
    }
    split_all(t.substring_char(1, n - 1))
}

/// Cutting a type off loses nothing: the two parts make up the signature, and
/// the first of them is one complete type.
pub proof fn law_first_type_splits(s: Seq<char>)
    ensures
        first_type(s) matches Ok(pair) ==> {
            &&& pair.0 + pair.1 == s
            &&& is_type(pair.0)
        },
{
    if let Ok(n) = type_len(s, 0) {
        lemma_type_len_bounds(s, 0);
        lemma_found_is_type(s, 0);
        assert(s.take(n as int) + s.skip(n as int) =~= s);
    }
}

/// The characters of all the strings of a list, in order.
pub open spec fn joined(parts: Seq<Seq<char>>) -> Seq<char>
    decreases parts.len(),
{
    if parts.len() == 0 {
        seq![]
    } else {
        parts[0] + joined(parts.drop_first())
    }
}

/// Cutting a signature into its types loses nothing: together the parts make up
/// the signature from `i` on, and each of them is one complete type.
pub proof fn law_types_join(s: Seq<char>, i: nat)
    requires
        i <= s.len(),
    ensures
        types_from(s, i) matches Ok(parts) ==> {
            &&& joined(parts) == s.skip(i as int)
            &&& forall|k: int| 0 <= k < parts.len() ==> is_type(#[trigger] parts[k])
        },
    decreases left(s.len(), i),
{
    if i < s.len() {
        lemma_type_len_bounds(s, i);
        if let Ok(n) = type_len(s, i) {
            lemma_found_is_type(s, i);
            law_types_join(s, i + n);
            if let Ok(rest) = types_from(s, i + n) {
                let one = s.subrange(i as int, (i + n) as int);
                let parts = seq![one] + rest;
                assert(parts.drop_first() =~= rest);
                assert(one + s.skip((i + n) as int) =~= s.skip(i as int));
                assert forall|k: int| 0 <= k < parts.len() implies is_type(#[trigger] parts[k]) by {
                    if k > 0 {
                        assert(parts[k] == rest[k - 1]);
                    }
                }
            }
        }
    }
}

} // verus!
