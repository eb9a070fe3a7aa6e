//! A small JSON reader and writer, enough for the configuration file.
//!
//! Objects keep their entries in the order in which they are written. Numbers are
//! kept as the texts that they are written as.

use crate::error::{Error, ErrorView};
use crate::numeral::{check_numeral, is_numeral};
use crate::table::{key_index, lemma_key_index, lookup, with_entry};
use crate::text::{
    chars_of, decimal, decimal_of, has_prefix, lead_byte, lead_byte_of, left, matches_at, same,
    string_of,
};
use vstd::prelude::*;
use vstd::string::*;
use vstd::utf8::*;

verus! {

/// A JSON value.
#[derive(Debug, PartialEq)]
pub enum Json {
    Null,
    Bool(bool),
    /// A number, by its numeral.
    Number(String),
    String(String),
    Array(Vec<Json>),
    Object(Vec<(String, Json)>),
}

/// A [`Json`] value as a mathematical value.
pub enum JsonView {
    Null,
    Bool(bool),
    Number(Seq<char>),
    String(Seq<char>),
    Array(Seq<JsonView>),
    Object(Seq<(Seq<char>, JsonView)>),
}

impl View for Json {
    type V = JsonView;

    open spec fn view(&self) -> JsonView {
        json_model(*self)
    }
}

/// The mathematical value of a [`Json`] value.
pub open spec fn json_model(v: Json) -> JsonView
    decreases v,
{
    match v {
        Json::Null => JsonView::Null,
        Json::Bool(b) => JsonView::Bool(b),
        Json::Number(s) => JsonView::Number(s@),
        Json::String(s) => JsonView::String(s@),
        Json::Array(items) => JsonView::Array(
            Seq::new(
                items@.len(),
                |i: int|
                    if 0 <= i < items@.len() {
                        json_model(items@[i])
                    } else {
                        arbitrary()
                    },
            ),
        ),
        Json::Object(entries) => JsonView::Object(
            Seq::new(
                entries@.len(),
                |i: int|
                    if 0 <= i < entries@.len() {
                        (entries@[i].0@, json_model(entries@[i].1))
                    } else {
                        arbitrary()
                    },
            ),
        ),
    }
}

/// The mathematical values of a list.
pub open spec fn json_models(v: Seq<Json>) -> Seq<JsonView> {
    Seq::new(v.len(), |i: int| v[i]@)
}

/// The mathematical values of the entries of an object.
pub open spec fn member_models(v: Seq<(String, Json)>) -> Seq<(Seq<char>, JsonView)> {
    Seq::new(v.len(), |i: int| (v[i].0@, v[i].1@))
}

/// The view of an array or an object, by the views of what it holds.
pub proof fn lemma_json_containers(v: Json)
    ensures
        v@ == match v {
            Json::Array(items) => JsonView::Array(json_models(items@)),
            Json::Object(entries) => JsonView::Object(member_models(entries@)),
            _ => v@,
        },
{
    match v {
        Json::Array(items) => {
            assert(v@->Array_0 =~= json_models(items@));
        },
        Json::Object(entries) => {
            assert(v@->Object_0 =~= member_models(entries@));
        },
        _ => {},
    }
}

/// The value of the first entry with the given key.
pub open spec fn member(v: JsonView, key: Seq<char>) -> Option<JsonView> {
    match v {
        JsonView::Object(entries) => lookup(entries, key),
        _ => None,
    }
}

impl Json {
    /// The value of the first entry with the given key.
    pub fn get(&self, key: &str) -> (r: Option<&Json>)
        ensures
            match r {
                Some(v) => member(self@, key@) == Some(v@),
                None => member(self@, key@) is None,
            },
    {
        proof {
            lemma_json_containers(*self);
        }
        match self {
            Json::Object(entries) => {
                let i: usize = find_key(entries, key);
                if i < entries.len() {
                    assert(member_models(entries@)[i as int].1 == entries@[i as int].1@);
                    Some(&entries[i].1)
                } else {
                    None
                }
            },
            _ => None,
        }
    }

    /// The text of a string.
    pub fn as_str(&self) -> (r: Option<&str>)
        ensures
            match r {
                Some(s) => self@ == JsonView::String(s@),
                None => !(self@ is String),
            },
    {
        match self {
            Json::String(s) => Some(s.as_str()),
            _ => None,
        }
    }

    /// The numeral of a number.
    pub fn as_f64(&self) -> (r: Option<&str>)
        ensures
            match r {
                Some(s) => self@ == JsonView::Number(s@),
                None => !(self@ is Number),
            },
    {
        match self {
            Json::Number(s) => Some(s.as_str()),
            _ => None,
        }
    }

    /// The truth value of a boolean.
    pub fn as_bool(&self) -> (r: Option<bool>)
        ensures
            match r {
                Some(b) => self@ == JsonView::Bool(b),
                None => !(self@ is Bool),
            },
    {
        match self {
            Json::Bool(b) => Some(*b),
            _ => None,
        }
    }

    /// The entries of an object.
    pub fn as_object(&self) -> (r: Option<&Vec<(String, Json)>>)
        ensures
            match r {
                Some(v) => self@ == JsonView::Object(member_models(v@)),
                None => !(self@ is Object),
            },
    {
        proof {
            lemma_json_containers(*self);
        }
        match self {
            Json::Object(entries) => Some(entries),
            _ => None,
        }
    }

    /// The elements of an array.
    pub fn as_array(&self) -> (r: Option<&Vec<Json>>)
        ensures
            match r {
                Some(v) => self@ == JsonView::Array(json_models(v@)),
                None => !(self@ is Array),
            },
    {
        proof {
            lemma_json_containers(*self);
        }
        match self {
            Json::Array(items) => Some(items),
            _ => None,
        }
    }

    /// An object without entries.
    pub fn object() -> (r: Self)
        ensures
            r@ == JsonView::Object(seq![]),
    {
        let r = Json::Object(Vec::new());
        proof {
            lemma_json_containers(r);
            assert(r@->Object_0 =~= seq![]);
        }
        r
    }

    /// Sets an entry of an object. On another value this does nothing.
    pub fn insert(&mut self, key: &str, value: Json)
        ensures
            final(self)@ == match old(self)@ {
                JsonView::Object(entries) => JsonView::Object(
                    with_entry(entries, key@, value@),
                ),
                other => other,
            },
    {
        proof {
            lemma_json_containers(*self);
        }
        match self {
            Json::Object(entries) => {
                let ghost before = entries@;
                let i: usize = find_key(entries, key);
                if i < entries.len() {
                    let k = entries[i].0.clone();
                    entries.set(i, (k, value));
                    proof {
                        lemma_key_index(member_models(before), key@);
                        assert(member_models(entries@) =~= member_models(before).update(
                            i as int,
                            (key@, value@),
                        ));
                    }
                } else {
                    entries.push((key.to_string(), value));
                    assert(member_models(entries@) =~= member_models(before).push((key@, value@)));
                }
            },
            _ => {},
        }
        proof {
            lemma_json_containers(*self);
        }
    }
}

/// Where an entry with the given key first stands.
fn find_key(entries: &Vec<(String, Json)>, key: &str) -> (r: usize)
    ensures
        r == key_index(member_models(entries@), key@),
        r <= entries@.len(),
{
    let ghost all = member_models(entries@);
    let mut i: usize = 0;
    assert(all.skip(0) =~= all);
    while i < entries.len()
        invariant
            i <= entries@.len(),
            all == member_models(entries@),
            key_index(all, key@) == i + key_index(all.skip(i as int), key@),
        decreases entries@.len() - i,
    {
        assert(all.skip(i as int)[0].0 == entries@[i as int].0@);
        if same(&entries[i].0, key) {
            return i;
        }
        assert(all.skip(i as int).drop_first() =~= all.skip(i + 1));
        i += 1;
    }
    i
}

/// How many bytes the first `i` characters of `s` take.
pub open spec fn byte_pos(s: Seq<char>, i: nat) -> nat {
    encode_utf8(s.take(i as int)).len()
}

/// How many bytes a character takes.
pub open spec fn char_width(c: char) -> nat {
    let n = c as u32;
    if n < 0x80 {
        1
    } else if n < 0x800 {
        2
    } else if n < 0x10000 {
        3
    } else {
        4
    }
}

/// A character that JSON allows between its parts.
pub open spec fn blank(c: char) -> bool {
    c == ' ' || c == '\t' || c == '\r' || c == '\n'
}

/// How many blanks stand at `s[i]` and behind it.
pub open spec fn blanks(s: Seq<char>, i: nat) -> nat
    decreases left(s.len(), i),
{
    if i < s.len() && blank(s[i as int]) {
        1 + blanks(s, i + 1)
    } else {
        0
    }
}

/// A character of which numbers are made.
pub open spec fn number_char(c: char) -> bool {
    ('0' <= c <= '9') || c == '-' || c == '+' || c == '.' || c == 'e' || c == 'E'
}

/// How many characters of which numbers are made stand at `s[i]` and behind it.
pub open spec fn number_run(s: Seq<char>, i: nat) -> nat
    decreases left(s.len(), i),
{
    if i < s.len() && number_char(s[i as int]) {
        1 + number_run(s, i + 1)
    } else {
        0
    }
}

pub open spec fn ended() -> ErrorView {
    ErrorView::Config("JSON 意外结束"@)
}

#[verifier::opaque]
pub open spec fn expected(lit: Seq<char>, pos: nat) -> ErrorView {
    ErrorView::Config("期望 "@ + lit + "，实际位置 "@ + decimal(pos) + " 处内容不符"@)
}

#[verifier::opaque]
pub open spec fn at_position(what: Seq<char>, pos: nat) -> ErrorView {
    ErrorView::Config(what + "（位置 "@ + decimal(pos) + "）"@)
}

/// The value of a hexadecimal digit.
pub open spec fn hex_digit_of(c: char) -> Option<nat> {
    if '0' <= c <= '9' {
        Some((c as u32 - 48) as nat)
    } else if 'a' <= c <= 'f' {
        Some((c as u32 - 87) as nat)
    } else if 'A' <= c <= 'F' {
        Some((c as u32 - 55) as nat)
    } else {
        None
    }
}

/// The number that a row of hexadecimal digits stands for.
pub open spec fn hex_digits_value(s: Seq<char>) -> Option<nat>
    decreases s.len(),
{
    if s.len() == 0 {
        Some(0)
    } else {
        match (hex_digits_value(s.drop_last()), hex_digit_of(s.last())) {
            (Some(a), Some(b)) => Some(16 * a + b),
            _ => None,
        }
    }
}

/// The number that a hexadecimal numeral stands for. It may have a plus sign.
pub open spec fn hex_value(s: Seq<char>) -> Option<nat> {
    let d = if s.len() > 0 && s[0] == '+' {
        s.drop_first()
    } else {
        s
    };
    if d.len() == 0 {
        None
    } else {
        hex_digits_value(d)
    }
}

/// The character with the given code, or the replacement character.
pub open spec fn char_with(code: nat) -> char {
    if code <= 0xD7FF || 0xE000 <= code <= 0x10FFFF {
        code as char
    } else {
        '\u{FFFD}'
    }
}

/// What stands at a position, measured in bytes.
pub enum Span {
    /// Too few bytes are left.
    Short,
    /// The bytes end within a character.
    Broken,
    /// The bytes are those of so many characters.
    Chars(nat),
}

/// The characters from `s[i]` on that take `n` bytes.
pub open spec fn span(s: Seq<char>, i: nat, n: nat) -> Span
    decreases left(s.len(), i),
{
    if n == 0 {
        Span::Chars(0)
    } else if i >= s.len() {
        Span::Short
    } else if char_width(s[i as int]) > n {
        Span::Broken
    } else {
        match span(s, i + 1, (n - char_width(s[i as int])) as nat) {
            Span::Chars(k) => Span::Chars(k + 1),
            other => other,
        }
    }
}

/// What an escape sequence of two characters stands for.
pub open spec fn short_escape(c: char) -> Option<char> {
    if c == '"' || c == '\\' || c == '/' {
        Some(c)
    } else if c == 'b' {
        Some('\u{8}')
    } else if c == 'f' {
        Some('\u{c}')
    } else if c == 'n' {
        Some('\n')
    } else if c == 'r' {
        Some('\r')
    } else if c == 't' {
        Some('\t')
    } else {
        None
    }
}

/// The character that the escape sequence at `s[i]`, behind its backslash, stands
/// for, and how many characters it takes.
pub open spec fn escape_at(s: Seq<char>, i: nat) -> Result<(char, nat), ErrorView> {
    if i >= s.len() {
        Err(ended())
    } else if s[i as int] == 'u' {
        match span(s, i + 1, 4) {
            Span::Short => Err(ErrorView::Config("\\u 转义不完整"@)),
            Span::Broken => Err(ErrorView::Config("\\u 转义非法"@)),
            Span::Chars(k) => {
                let hex = s.subrange((i + 1) as int, (i + 1 + k) as int);
                match hex_value(hex) {
                    Some(code) => Ok((char_with(code), 1 + k)),
                    None => Err(ErrorView::Config("\\u"@ + hex + " 不是十六进制"@)),
                }
            },
        }
    } else {
        match short_escape(s[i as int]) {
            Some(c) => Ok((c, 1)),
            None => Err(ErrorView::Config("非法转义 \\"@ + seq![lead_byte(s[i as int])])),
        }
    }
}

/// The characters of a string from `s[i]` on, and how many characters they and the
/// closing quote take.
pub open spec fn chars_at(s: Seq<char>, i: nat) -> Result<(Seq<char>, nat), ErrorView>
    decreases left(s.len(), i),
{
    if i >= s.len() {
        Err(ended())
    } else if s[i as int] == '"' {
        Ok((seq![], 1))
    } else {
        let first: Result<(char, nat), ErrorView> = if s[i as int] == '\\' {
            match escape_at(s, i + 1) {
                Ok(p) => Ok((p.0, p.1 + 1)),
                Err(e) => Err(e),
            }
        } else {
            Ok((s[i as int], 1))
        };
        match first {
            Err(e) => Err(e),
            Ok((c, n)) => if n == 0 {
                Ok((seq![], 0))
            } else {
                match chars_at(s, i + n) {
                    Err(e) => Err(e),
                    Ok((rest, m)) => Ok((seq![c] + rest, n + m)),
                }
            },
        }
    }
}

/// Takes the fixed text `lit` at `s[i]`.
pub open spec fn literal_at(s: Seq<char>, i: nat, lit: Seq<char>) -> Result<nat, ErrorView> {
    if i <= s.len() && has_prefix(s.skip(i as int), lit) {
        Ok(lit.len())
    } else {
        Err(expected(lit, byte_pos(s, i)))
    }
}

/// The string at `s[i]`.
pub open spec fn string_at(s: Seq<char>, i: nat) -> Result<(Seq<char>, nat), ErrorView> {
    match literal_at(s, i, "\""@) {
        Err(e) => Err(e),
        Ok(_) => match chars_at(s, i + 1) {
            Err(e) => Err(e),
            Ok((x, n)) => Ok((x, 1 + n)),
        },
    }
}

/// The number at `s[i]`.
pub open spec fn number_at(s: Seq<char>, i: nat) -> Result<(Seq<char>, nat), ErrorView> {
    let n = number_run(s, i);
    let text = s.subrange(i as int, (i + n) as int);
    if is_numeral(text) {
        Ok((text, n))
    } else {
        Err(ErrorView::Config("无法解析数字: "@ + text))
    }
}

/// The value at `s[i]`, which may have blanks before it, and how many characters it
/// takes.
pub open spec fn value_at(s: Seq<char>, i: nat) -> Result<(JsonView, nat), ErrorView>
    decreases left(s.len(), i), 1nat,
{
    let w = blanks(s, i);
    let j = i + w;
    if j >= s.len() {
        Err(ended())
    } else {
        let c = s[j as int];
        let out: Result<(JsonView, nat), ErrorView> = if c == '{' {
            match members_start(s, j) {
                Err(e) => Err(e),
                Ok((x, n)) => Ok((JsonView::Object(x), n)),
            }
        } else if c == '[' {
            match items_start(s, j) {
                Err(e) => Err(e),
                Ok((x, n)) => Ok((JsonView::Array(x), n)),
            }
        } else if c == '"' {
            match string_at(s, j) {
                Err(e) => Err(e),
                Ok((x, n)) => Ok((JsonView::String(x), n)),
            }
        } else if c == 't' {
            match literal_at(s, j, "true"@) {
                Err(e) => Err(e),
                Ok(n) => Ok((JsonView::Bool(true), n)),
            }
        } else if c == 'f' {
            match literal_at(s, j, "false"@) {
                Err(e) => Err(e),
                Ok(n) => Ok((JsonView::Bool(false), n)),
            }
        } else if c == 'n' {
            match literal_at(s, j, "null"@) {
                Err(e) => Err(e),
                Ok(n) => Ok((JsonView::Null, n)),
            }
        } else {
            match number_at(s, j) {
                Err(e) => Err(e),
                Ok((x, n)) => Ok((JsonView::Number(x), n)),
            }
        };
        match out {
            Err(e) => Err(e),
            Ok((v, n)) => Ok((v, w + n)),
        }
    }
}

/// The elements of the array whose bracket stands at `s[i]`.
pub open spec fn items_start(s: Seq<char>, i: nat) -> Result<(Seq<JsonView>, nat), ErrorView>
    decreases left(s.len(), i), 0nat,
{
    let w = 1 + blanks(s, i + 1);
    if i >= s.len() || i + w >= s.len() {
        Err(ended())
    } else if s[(i + w) as int] == ']' {
        Ok((seq![], w + 1))
    } else {
        match items_at(s, i + w) {
            Err(e) => Err(e),
            Ok((x, n)) => Ok((x, w + n)),
        }
    }
}

/// The elements of an array from `s[i]` on, and how many characters they and the
/// closing bracket take.
pub open spec fn items_at(s: Seq<char>, i: nat) -> Result<(Seq<JsonView>, nat), ErrorView>
    decreases left(s.len(), i), 2nat,
{
    match value_at(s, i) {
        Err(e) => Err(e),
        Ok((v, n)) => {
            let m = n + blanks(s, i + n);
            if i + m >= s.len() {
                Err(ended())
            } else if s[(i + m) as int] == ',' {
                match items_at(s, i + m + 1) {
                    Err(e) => Err(e),
                    Ok((rest, k)) => Ok((seq![v] + rest, m + 1 + k)),
                }
            } else if s[(i + m) as int] == ']' {
                Ok((seq![v], m + 1))
            } else {
                Err(at_position("数组缺少 ',' 或 ']'"@, byte_pos(s, i + m)))
            }
        },
    }
}

/// The entries of the object whose brace stands at `s[i]`.
pub open spec fn members_start(s: Seq<char>, i: nat) -> Result<
    (Seq<(Seq<char>, JsonView)>, nat),
    ErrorView,
>
    decreases left(s.len(), i), 0nat,
{
    let w = 1 + blanks(s, i + 1);
    if i >= s.len() || i + w >= s.len() {
        Err(ended())
    } else if s[(i + w) as int] == '}' {
        Ok((seq![], w + 1))
    } else {
        match members_at(s, i + w) {
            Err(e) => Err(e),
            Ok((x, n)) => Ok((x, w + n)),
        }
    }
}

/// The entry of an object at `s[i]`: its key, a colon and its value.
pub open spec fn member_at(s: Seq<char>, i: nat) -> Result<((Seq<char>, JsonView), nat), ErrorView>
    decreases left(s.len(), i), 2nat,
{
    let a = blanks(s, i);
    match string_at(s, i + a) {
        Err(e) => Err(e),
        Ok((key, n)) => {
            let b = a + n + blanks(s, i + a + n);
            if i + b >= s.len() {
                Err(ended())
            } else if s[(i + b) as int] != ':' {
                Err(at_position("对象缺少 ':'"@, byte_pos(s, i + b)))
            } else {
                match value_at(s, i + b + 1) {
                    Err(e) => Err(e),
                    Ok((val, m)) => Ok(((key, val), b + 1 + m)),
                }
            }
        },
    }
}

/// The entries of an object from `s[i]` on, and how many characters they and the
/// closing brace take.
pub open spec fn members_at(s: Seq<char>, i: nat) -> Result<
    (Seq<(Seq<char>, JsonView)>, nat),
    ErrorView,
>
    decreases left(s.len(), i), 3nat,
{
    match member_at(s, i) {
        Err(e) => Err(e),
        Ok((kv, n)) => {
            let m = n + blanks(s, i + n);
            if i + m >= s.len() {
                Err(ended())
            } else if s[(i + m) as int] == ',' {
                match members_at(s, i + m + 1) {
                    Err(e) => Err(e),
                    Ok((rest, k)) => Ok((seq![kv] + rest, m + 1 + k)),
                }
            } else if s[(i + m) as int] == '}' {
                Ok((seq![kv], m + 1))
            } else {
                Err(at_position("对象缺少 ',' 或 '}'"@, byte_pos(s, i + m)))
            }
        },
    }
}

/// What [`parse`] returns.
pub open spec fn json_of(s: Seq<char>) -> Result<JsonView, ErrorView> {
    match value_at(s, 0) {
        Err(e) => Err(e),
        Ok((v, n)) => {
            let end = n + blanks(s, n);
            if end == s.len() {
                Ok(v)
            } else {
                Err(at_position("JSON 结尾有多余内容"@, byte_pos(s, end)))
            }
        },
    }
}

/// How many bytes the first `i` characters of `s` take.
fn byte_offset(s: &[char], i: usize) -> (r: u64)
    requires
        i <= s@.len(),
    ensures
        r == byte_pos(s@, i as nat),
{
    let head = string_of(s, 0, i);
    assert(head@ =~= s@.take(i as int));
    head.as_str().as_bytes().len() as u64
}

/// An error with a position, in bytes.
fn error_at(what: &str, s: &[char], i: usize) -> (r: Error)
    requires
        i <= s@.len(),
    ensures
        r@ == at_position(what@, byte_pos(s@, i as nat)),
{
    proof {
        reveal(at_position);
    }
    Error::Config(
        what.to_string().concat("（位置 ").concat(&decimal_of(byte_offset(s, i))).concat("）"),
    )
}

fn end_error() -> (r: Error)
    ensures
        r@ == ended(),
{
    Error::Config("JSON 意外结束".to_string())
}

/// Skips blanks.
fn skip_blanks(s: &[char], i: usize) -> (r: usize)
    requires
        i <= s@.len(),
    ensures
        i <= r <= s@.len(),
        r == i + blanks(s@, i as nat),
{
    let mut j: usize = i;
    while j < s.len() && (s[j] == ' ' || s[j] == '\t' || s[j] == '\r' || s[j] == '\n')
        invariant
            i <= j <= s@.len(),
            blanks(s@, i as nat) == j - i + blanks(s@, j as nat),
        decreases s@.len() - j,
    {
        j += 1;
    }
    j
}

/// Takes the fixed text `lit` at `s[i]`.
fn take_literal(s: &[char], i: usize, lit: &str) -> (r: Result<usize, Error>)
    requires
        i <= s@.len(),
    ensures
        match r {
            Ok(end) => i <= end <= s@.len() && literal_at(s@, i as nat, lit@) == Ok::<
                nat,
                ErrorView,
            >((end - i) as nat),
            Err(e) => literal_at(s@, i as nat, lit@) == Err::<nat, ErrorView>(e@),
        },
{
    let p = chars_of(lit);
    proof {
        reveal(expected);
    }
    assert(s@.subrange(i as int, s@.len() as int) =~= s@.skip(i as int));
    if matches_at(s, i, s.len(), &p) {
        Ok(i + p.len())
    } else {
        Err(
            Error::Config(
                "期望 ".to_string().concat(lit).concat("，实际位置 ").concat(
                    &decimal_of(byte_offset(s, i)),
                ).concat(" 处内容不符"),
            ),
        )
    }
}

/// Reads the number at `s[i]`.
fn take_number(s: &[char], i: usize) -> (r: Result<(String, usize), Error>)
    requires
        i <= s@.len(),
    ensures
        match r {
            Ok(p) => i <= p.1 <= s@.len() && number_at(s@, i as nat) == Ok::<
                (Seq<char>, nat),
                ErrorView,
            >((p.0@, (p.1 - i) as nat)),
            Err(e) => number_at(s@, i as nat) == Err::<(Seq<char>, nat), ErrorView>(e@),
        },
{
    let mut j: usize = i;
    while j < s.len() && (('0' <= s[j] && s[j] <= '9') || s[j] == '-' || s[j] == '+' || s[j] == '.'
        || s[j] == 'e' || s[j] == 'E')
        invariant
            i <= j <= s@.len(),
            number_run(s@, i as nat) == j - i + number_run(s@, j as nat),
        decreases s@.len() - j,
    {
        j += 1;
    }
    let text = string_of(s, i, j);
    if check_numeral(&chars_of(&text)) {
        Ok((text, j))
    } else {
        Err(Error::Config("无法解析数字: ".to_string().concat(&text)))
    }
}

/// The value of a hexadecimal digit.
fn hex_digit(c: char) -> (r: Option<u32>)
    ensures
        match r {
            Some(d) => d < 16 && hex_digit_of(c) == Some(d as nat),
            None => hex_digit_of(c) is None,
        },
{
    if '0' <= c && c <= '9' {
        Some(c as u32 - 48)
    } else if 'a' <= c && c <= 'f' {
        Some(c as u32 - 87)
    } else if 'A' <= c && c <= 'F' {
        Some(c as u32 - 55)
    } else {
        None
    }
}

proof fn lemma_no_hex_prefix(s: Seq<char>, k: int)
    requires
        0 <= k <= s.len(),
        hex_digits_value(s.take(k)) is None,
    ensures
        hex_digits_value(s) is None,
    decreases s.len(),
{
    if k < s.len() {
        assert(s.drop_last().take(k) =~= s.take(k));
        lemma_no_hex_prefix(s.drop_last(), k);
    } else {
        assert(s.take(k) =~= s);
    }
}

/// The number that a hexadecimal numeral of at most four characters stands for.
fn hex_number(s: &[char], from: usize, to: usize) -> (r: Option<u32>)
    requires
        from <= to <= s@.len(),
        to - from <= 4,
    ensures
        match r {
            Some(n) => n < 0x10000 && hex_value(s@.subrange(from as int, to as int)) == Some(
                n as nat,
            ),
            None => hex_value(s@.subrange(from as int, to as int)) is None,
        },
{
    let start: usize = if from < to && s[from] == '+' { from + 1 } else { from };
    let ghost all = s@.subrange(from as int, to as int);
    let ghost d = s@.subrange(start as int, to as int);
    assert(start > from ==> d =~= all.drop_first());
    if start == to {
        return None;
    }
    let mut n: u32 = 0;
    let mut i: usize = start;
    let mut bound: u32 = 1;
    while i < to
        invariant
            from <= start <= i <= to <= s@.len(),
            start < to,
            to - from <= 4,
            d == s@.subrange(start as int, to as int),
            hex_digits_value(d.take(i - start)) == Some(n as nat),
            hex_value(s@.subrange(from as int, to as int)) == hex_digits_value(d),
            n < bound,
            i - start == 0 ==> bound == 1,
            i - start == 1 ==> bound == 16,
            i - start == 2 ==> bound == 256,
            i - start == 3 ==> bound == 4096,
            i - start == 4 ==> bound == 65536,
        decreases to - i,
    {
        proof {
            assert(d.take(i - start + 1).drop_last() =~= d.take(i - start));
            assert(d.take(i - start + 1).last() == s@[i as int]);
        }
        match hex_digit(s[i]) {
            Some(x) => {
                n = 16 * n + x;
                bound = 16 * bound;
            },
            None => {
                proof {
                    lemma_no_hex_prefix(d, i - start + 1);
                }
                return None;
            },
        }
        i += 1;
    }
    assert(d.take(to - start) =~= d);
    Some(n)
}

/// The character with the given code, or the replacement character.
fn char_of(code: u32) -> (r: char)
    ensures
        r == char_with(code as nat),
{
    match std::char::from_u32(code) {
        Some(c) => c,
        None => '\u{FFFD}',
    }
}

fn width_of(c: char) -> (r: usize)
    ensures
        r == char_width(c),
        1 <= r <= 4,
{
    let n: u32 = c as u32;
    if n < 0x80 {
        1
    } else if n < 0x800 {
        2
    } else if n < 0x10000 {
        3
    } else {
        4
    }
}

/// Finds the characters from `s[i]` on that take four bytes: how many they are, or,
/// where there are none, whether too few bytes are left.
fn four_bytes(s: &[char], i: usize) -> (r: Result<usize, bool>)
    requires
        i <= s@.len(),
    ensures
        match r {
            Ok(k) => span(s@, i as nat, 4) == Span::Chars(k as nat) && i + k <= s@.len() && k <= 4,
            Err(short) => span(s@, i as nat, 4) == if short {
                Span::Short
            } else {
                Span::Broken
            },
        },
{
    let total: usize = s.len();
    let mut n: usize = 4;
    let mut k: usize = 0;
    while n > 0
        invariant
            total == s@.len(),
            n <= 4,
            k <= 4 - n,
            i + k <= s@.len(),
            span(s@, i as nat, 4) == match span(s@, (i + k) as nat, n as nat) {
                Span::Chars(m) => Span::Chars(m + k as nat),
                other => other,
            },
        decreases n,
    {
        if i + k >= total {
            return Err(true);
        }
        let w: usize = width_of(s[i + k]);
        if w > n {
            return Err(false);
        }
        n -= w;
        k += 1;
    }
    Ok(k)
}

/// Reads the escape sequence at `s[i]`, behind its backslash.
fn take_escape(s: &[char], i: usize) -> (r: Result<(char, usize), Error>)
    requires
        i <= s@.len(),
    ensures
        match r {
            Ok(p) => i < p.1 <= s@.len() && escape_at(s@, i as nat) == Ok::<(char, nat), ErrorView>(
                (p.0, (p.1 - i) as nat),
            ),
            Err(e) => escape_at(s@, i as nat) == Err::<(char, nat), ErrorView>(e@),
        },
{
    if i >= s.len() {
        return Err(end_error());
    }
    let c = s[i];
    if c == 'u' {
        return match four_bytes(s, i + 1) {
            Err(short) => if short {
                Err(Error::Config("\\u 转义不完整".to_string()))
            } else {
                Err(Error::Config("\\u 转义非法".to_string()))
            },
            Ok(k) => {
                let end: usize = i + 1 + k;
                match hex_number(s, i + 1, end) {
                    Some(code) => Ok((char_of(code), end)),
                    None => Err(
                        Error::Config(
                            "\\u".to_string().concat(&string_of(s, i + 1, end)).concat(
                                " 不是十六进制",
                            ),
                        ),
                    ),
                }
            },
        };
    }
    match c {
        '"' => Ok(('"', i + 1)),
        '\\' => Ok(('\\', i + 1)),
        '/' => Ok(('/', i + 1)),
        'b' => Ok(('\u{8}', i + 1)),
        'f' => Ok(('\u{c}', i + 1)),
        'n' => Ok(('\n', i + 1)),
        'r' => Ok(('\r', i + 1)),
        't' => Ok(('\t', i + 1)),
        _ => {
            let mut m = "非法转义 \\".to_string();
            m.push(lead_byte_of(c));
            assert(m@ =~= "非法转义 \\"@ + seq![lead_byte(c)]);
            Err(Error::Config(m))
        },
    }
}

/// Reads the string at `s[i]`.
fn take_string(s: &[char], i: usize) -> (r: Result<(String, usize), Error>)
    requires
        i <= s@.len(),
    ensures
        match r {
            Ok(p) => i < p.1 <= s@.len() && string_at(s@, i as nat) == Ok::<
                (Seq<char>, nat),
                ErrorView,
            >((p.0@, (p.1 - i) as nat)),
            Err(e) => string_at(s@, i as nat) == Err::<(Seq<char>, nat), ErrorView>(e@),
        },
{
    proof {
        reveal_strlit("\"");
    }
    let mut j: usize = take_literal(s, i, "\"")?;
    let start: usize = j;
    let mut out = String::new();
    proof {
        if let Ok(p) = chars_at(s@, start as nat) {
            assert(out@ + p.0 =~= p.0);
        }
    }
    let total: usize = s.len();
    loop
        invariant
            total == s@.len(),
            start == i + 1,
            start <= j <= s@.len(),
            string_at(s@, i as nat) == match chars_at(s@, start as nat) {
                Ok(p) => Ok::<(Seq<char>, nat), ErrorView>((p.0, 1 + p.1)),
                Err(e) => Err(e),
            },
            chars_at(s@, start as nat) == match chars_at(s@, j as nat) {
                Ok(p) => Ok::<(Seq<char>, nat), ErrorView>(
                    (out@ + p.0, (j - start + p.1) as nat),
                ),
                Err(e) => Err(e),
            },
        ensures
            j < s@.len(),
            s@[j as int] == '"',
        decreases s@.len() - j,
    {
        if j >= total {
            return Err(end_error());
        }
        let c = s[j];
        if c == '"' {
            break ;
        }
        let ghost before = out@;
        if c == '\\' {
            let (x, end) = take_escape(s, j + 1)?;
            out.push(x);
            proof {
                if let Ok(p) = chars_at(s@, end as nat) {
                    assert(before + (seq![x] + p.0) =~= out@ + p.0);
                }
            }
            j = end;
        } else {
            out.push(c);
            proof {
                if let Ok(p) = chars_at(s@, (j + 1) as nat) {
                    assert(before + (seq![c] + p.0) =~= out@ + p.0);
                }
            }
            j += 1;
        }
    }
    assert(out@ + Seq::<char>::empty() =~= out@);
    Ok((out, j + 1))
}

/// Reads the value at `s[i]`.
#[verifier::rlimit(40)]
#[verifier::spinoff_prover]
fn take_value(s: &[char], i: usize) -> (r: Result<(Json, usize), Error>)
    requires
        i <= s@.len(),
    ensures
        match r {
            Ok(p) => i <= p.1 <= s@.len() && value_at(s@, i as nat) == Ok::<
                (JsonView, nat),
                ErrorView,
            >((p.0@, (p.1 - i) as nat)),
            Err(e) => value_at(s@, i as nat) == Err::<(JsonView, nat), ErrorView>(e@),
        },
    decreases left(s@.len(), i as nat), 1nat,
{
    let j: usize = skip_blanks(s, i);
    if j >= s.len() {
        return Err(end_error());
    }
    let c = s[j];
    if c == '{' {
        let (entries, end) = take_members(s, j)?;
        let v = Json::Object(entries);
        proof {
            lemma_json_containers(v);
        }
        Ok((v, end))
    } else if c == '[' {
        let (items, end) = take_items(s, j)?;
        let v = Json::Array(items);
        proof {
            lemma_json_containers(v);
        }
        Ok((v, end))
    } else if c == '"' {
        let (x, end) = take_string(s, j)?;
        Ok((Json::String(x), end))
    } else if c == 't' {
        let end: usize = take_literal(s, j, "true")?;
        Ok((Json::Bool(true), end))
    } else if c == 'f' {
        let end: usize = take_literal(s, j, "false")?;
        Ok((Json::Bool(false), end))
    } else if c == 'n' {
        let end: usize = take_literal(s, j, "null")?;
        Ok((Json::Null, end))
    } else {
        let (x, end) = take_number(s, j)?;
        Ok((Json::Number(x), end))
    }
}

/// Reads the elements of the array whose bracket stands at `s[i]`.
#[verifier::rlimit(40)]
#[verifier::spinoff_prover]
fn take_items(s: &[char], i: usize) -> (r: Result<(Vec<Json>, usize), Error>)
    requires
        i < s@.len(),
    ensures
        match r {
            Ok(p) => i <= p.1 <= s@.len() && items_start(s@, i as nat) == Ok::<
                (Seq<JsonView>, nat),
                ErrorView,
            >((json_models(p.0@), (p.1 - i) as nat)),
            Err(e) => items_start(s@, i as nat) == Err::<(Seq<JsonView>, nat), ErrorView>(e@),
        },
    decreases left(s@.len(), i as nat), 0nat,
{
    let total: usize = s.len();
    let mut items: Vec<Json> = Vec::new();
    let start: usize = skip_blanks(s, i + 1);
    if start >= total {
        return Err(end_error());
    }
    assert(json_models(items@) =~= seq![]);
    if s[start] == ']' {
        return Ok((items, start + 1));
    }
    let mut j: usize = start;
    proof {
        if let Ok(p) = items_at(s@, start as nat) {
            assert(json_models(items@) + p.0 =~= p.0);
        }
    }
    loop
        invariant
            total == s@.len(),
            i < start <= j <= s@.len(),
            items_start(s@, i as nat) == match items_at(s@, start as nat) {
                Ok(p) => Ok::<(Seq<JsonView>, nat), ErrorView>((p.0, (start - i + p.1) as nat)),
                Err(e) => Err(e),
            },
            items_at(s@, start as nat) == match items_at(s@, j as nat) {
                Ok(p) => Ok::<(Seq<JsonView>, nat), ErrorView>(
                    (json_models(items@) + p.0, (j - start + p.1) as nat),
                ),
                Err(e) => Err(e),
            },
        decreases s@.len() - j,
    {
        let ghost before = items@;
        let (v, end) = take_value(s, j)?;
        items.push(v);
        assert(json_models(items@) =~= json_models(before).push(v@));
        let k: usize = skip_blanks(s, end);
        if k >= total {
            return Err(end_error());
        }
        if s[k] == ',' {
            proof {
                if let Ok(p) = items_at(s@, (k + 1) as nat) {
                    assert(json_models(before) + (seq![v@] + p.0) =~= json_models(items@) + p.0);
                }
            }
            j = k + 1;
        } else if s[k] == ']' {
            assert(json_models(before) + seq![v@] =~= json_models(items@));
            return Ok((items, k + 1));
        } else {
            return Err(error_at("数组缺少 ',' 或 ']'", s, k));
        }
    }
}

/// Reads the entry of an object at `s[i]`.
#[verifier::rlimit(40)]
#[verifier::spinoff_prover]
fn take_member(s: &[char], i: usize) -> (r: Result<((String, Json), usize), Error>)
    requires
        i <= s@.len(),
    ensures
        match r {
            Ok(p) => i < p.1 <= s@.len() && member_at(s@, i as nat) == Ok::<
                ((Seq<char>, JsonView), nat),
                ErrorView,
            >(((p.0.0@, p.0.1@), (p.1 - i) as nat)),
            Err(e) => member_at(s@, i as nat) == Err::<((Seq<char>, JsonView), nat), ErrorView>(e@),
        },
    decreases left(s@.len(), i as nat), 2nat,
{
    let total: usize = s.len();
    let a: usize = skip_blanks(s, i);
    let (key, b) = take_string(s, a)?;
    let c: usize = skip_blanks(s, b);
    if c >= total {
        return Err(end_error());
    }
    if s[c] != ':' {
        return Err(error_at("对象缺少 ':'", s, c));
    }
    let (val, end) = take_value(s, c + 1)?;
    Ok(((key, val), end))
}

/// Reads the entries of the object whose brace stands at `s[i]`.
#[verifier::rlimit(40)]
#[verifier::spinoff_prover]
fn take_members(s: &[char], i: usize) -> (r: Result<(Vec<(String, Json)>, usize), Error>)
    requires
        i < s@.len(),
    ensures
        match r {
            Ok(p) => i <= p.1 <= s@.len() && members_start(s@, i as nat) == Ok::<
                (Seq<(Seq<char>, JsonView)>, nat),
                ErrorView,
            >((member_models(p.0@), (p.1 - i) as nat)),
            Err(e) => members_start(s@, i as nat) == Err::<
                (Seq<(Seq<char>, JsonView)>, nat),
                ErrorView,
            >(e@),
        },
    decreases left(s@.len(), i as nat), 0nat,
{
    let total: usize = s.len();
    let mut entries: Vec<(String, Json)> = Vec::new();
    let start: usize = skip_blanks(s, i + 1);
    if start >= total {
        return Err(end_error());
    }
    assert(member_models(entries@) =~= seq![]);
    if s[start] == '}' {
        return Ok((entries, start + 1));
    }
    let mut j: usize = start;
    proof {
        if let Ok(p) = members_at(s@, start as nat) {
            assert(member_models(entries@) + p.0 =~= p.0);
        }
    }
    loop
        invariant
            total == s@.len(),
            i < start <= j <= s@.len(),
            members_start(s@, i as nat) == match members_at(s@, start as nat) {
                Ok(p) => Ok::<(Seq<(Seq<char>, JsonView)>, nat), ErrorView>(
                    (p.0, (start - i + p.1) as nat),
                ),
                Err(e) => Err(e),
            },
            members_at(s@, start as nat) == match members_at(s@, j as nat) {
                Ok(p) => Ok::<(Seq<(Seq<char>, JsonView)>, nat), ErrorView>(
                    (member_models(entries@) + p.0, (j - start + p.1) as nat),
                ),
                Err(e) => Err(e),
            },
        decreases s@.len() - j,
    {
        let ghost before = entries@;
        let (kv, end) = take_member(s, j)?;
        let ghost m = (kv.0@, kv.1@);
        entries.push(kv);
        assert(member_models(entries@) =~= member_models(before).push(m));
        let k: usize = skip_blanks(s, end);
        if k >= total {
            return Err(end_error());
        }
        if s[k] == ',' {
            proof {
                if let Ok(p) = members_at(s@, (k + 1) as nat) {
                    assert(member_models(before) + (seq![m] + p.0) =~= member_models(entries@)
                        + p.0);
                }
            }
            j = k + 1;
        } else if s[k] == '}' {
            assert(member_models(before) + seq![m] =~= member_models(entries@));
            return Ok((entries, k + 1));
        } else {
            return Err(error_at("对象缺少 ',' 或 '}'", s, k));
        }
    }
}

/// Reads a JSON text.
pub fn parse(input: &str) -> (r: Result<Json, Error>)
    ensures
        match r {
            Ok(v) => json_of(input@) == Ok::<JsonView, ErrorView>(v@),
            Err(e) => json_of(input@) == Err::<JsonView, ErrorView>(e@),
        },
{
    let s = chars_of(input);
    let (v, n) = take_value(&s, 0)?;
    let end: usize = skip_blanks(&s, n);
    if end != s.len() {
        return Err(error_at("JSON 结尾有多余内容", &s, end));
    }
    Ok(v)
}

/// A hexadecimal digit, in lower case.
pub open spec fn hex_char(d: nat) -> char {
    if d < 10 {
        (48 + d) as char
    } else {
        (87 + d) as char
    }
}

/// How a character is written within a string.
pub open spec fn escaped_char(c: char) -> Seq<char> {
    if c == '"' {
        seq!['\\', '"']
    } else if c == '\\' {
        seq!['\\', '\\']
    } else if c == '\n' {
        seq!['\\', 'n']
    } else if c == '\r' {
        seq!['\\', 'r']
    } else if c == '\t' {
        seq!['\\', 't']
    } else if (c as u32) < 0x20 {
        seq!['\\', 'u', '0', '0', hex_char(c as nat / 16), hex_char(c as nat % 16)]
    } else {
        seq![c]
    }
}

/// How a string is written between its quotes.
pub open spec fn escaped(s: Seq<char>) -> Seq<char>
    decreases s.len(),
{
    if s.len() == 0 {
        seq![]
    } else {
        escaped_char(s[0]) + escaped(s.drop_first())
    }
}

/// How a string is written.
pub open spec fn quoted(s: Seq<char>) -> Seq<char> {
    seq!['"'] + escaped(s) + seq!['"']
}

/// The blanks before a line of the given depth.
pub open spec fn indent(n: nat) -> Seq<char>
    decreases n,
{
    if n == 0 {
        seq![]
    } else {
        seq![' ', ' '] + indent((n - 1) as nat)
    }
}

/// What follows an element: a comma, unless it is the last.
pub open spec fn line_end(more: bool) -> Seq<char> {
    if more {
        seq![',', '\n']
    } else {
        seq!['\n']
    }
}

/// How a value is written at the given depth.
pub open spec fn written(v: JsonView, depth: nat) -> Seq<char>
    decreases v,
{
    match v {
        JsonView::Null => "null"@,
        JsonView::Bool(b) => if b {
            "true"@
        } else {
            "false"@
        },
        JsonView::Number(n) => n,
        JsonView::String(s) => quoted(s),
        JsonView::Array(items) => if items.len() == 0 {
            seq!['[', ']']
        } else {
            seq!['[', '\n'] + written_items(items, depth) + indent(depth) + seq![']']
        },
        JsonView::Object(entries) => if entries.len() == 0 {
            seq!['{', '}']
        } else {
            seq!['{', '\n'] + written_members(entries, depth) + indent(depth) + seq!['}']
        },
    }
}

/// How the elements of an array at the given depth are written, one on a line.
pub open spec fn written_items(items: Seq<JsonView>, depth: nat) -> Seq<char>
    decreases items,
{
    if items.len() == 0 {
        seq![]
    } else {
        indent(depth + 1) + written(items[0], depth + 1) + line_end(items.len() > 1)
            + written_items(items.drop_first(), depth)
    }
}

/// How the entries of an object at the given depth are written, one on a line.
pub open spec fn written_members(entries: Seq<(Seq<char>, JsonView)>, depth: nat) -> Seq<char>
    decreases entries,
{
    if entries.len() == 0 {
        seq![]
    } else {
        indent(depth + 1) + quoted(entries[0].0) + seq![':', ' '] + written(
            entries[0].1,
            depth + 1,
        ) + line_end(entries.len() > 1) + written_members(entries.drop_first(), depth)
    }
}

fn hex_char_of(d: u32) -> (r: char)
    requires
        d < 16,
    ensures
        r == hex_char(d as nat),
{
    if d < 10 {
        (48 + d as u8) as char
    } else {
        (87 + d as u8) as char
    }
}

/// Writes a character within a string.
fn push_escaped(out: &mut String, c: char)
    ensures
        final(out)@ == old(out)@ + escaped_char(c),
{
    if c == '"' {
        out.push('\\');
        out.push('"');
    } else if c == '\\' {
        out.push('\\');
        out.push('\\');
    } else if c == '\n' {
        out.push('\\');
        out.push('n');
    } else if c == '\r' {
        out.push('\\');
        out.push('r');
    } else if c == '\t' {
        out.push('\\');
        out.push('t');
    } else if (c as u32) < 0x20 {
        out.push('\\');
        out.push('u');
        out.push('0');
        out.push('0');
        out.push(hex_char_of(c as u32 / 16));
        out.push(hex_char_of(c as u32 % 16));
    } else {
        out.push(c);
    }
    assert(out@ =~= old(out)@ + escaped_char(c));
}

/// Writes a string with its quotes.
pub fn quote(s: &str) -> (r: String)
    ensures
        r@ == quoted(s@),
{
    let cs = chars_of(s);
    let mut out = String::new();
    out.push('"');
    let mut i: usize = 0;
    assert(s@.skip(0) =~= s@);
    while i < cs.len()
        invariant
            i <= cs@.len(),
            cs@ == s@,
            seq!['"'] + escaped(s@) == out@ + escaped(s@.skip(i as int)),
        decreases cs@.len() - i,
    {
        let c = cs[i];
        let ghost before = out@;
        proof {
            assert(s@.skip(i as int)[0] == c);
            assert(s@.skip(i as int).drop_first() =~= s@.skip(i + 1));
        }
        push_escaped(&mut out, c);
        proof {
            let tail = escaped(s@.skip(i + 1));
            assert(before + (escaped_char(c) + tail) =~= out@ + tail);
        }
        i += 1;
    }
    assert(out@ + Seq::<char>::empty() =~= out@);
    out.push('"');
    assert(out@ =~= quoted(s@));
    out
}

/// Writes a value. The text `pad` stands before each line of the value's depth.
#[verifier::rlimit(40)]
#[verifier::spinoff_prover]
fn write(out: &mut String, v: &Json, pad: &str, Ghost(depth): Ghost<nat>)
    requires
        pad@ == indent(depth),
    ensures
        final(out)@ == old(out)@ + written(v@, depth),
    decreases v,
{
    proof {
        lemma_json_containers(*v);
    }
    match v {
        Json::Null => out.append("null"),
        Json::Bool(b) => out.append(
            if *b {
                "true"
            } else {
                "false"
            },
        ),
        Json::Number(n) => out.append(n),
        Json::String(s) => out.append(&quote(s)),
        Json::Array(items) => {
            out.push('[');
            if items.len() > 0 {
                out.push('\n');
                write_items(out, items, pad, Ghost(depth));
                out.append(pad);
            }
            out.push(']');
            assert(out@ =~= old(out)@ + written(v@, depth));
        },
        Json::Object(entries) => {
            out.push('{');
            if entries.len() > 0 {
                out.push('\n');
                write_members(out, entries, pad, Ghost(depth));
                out.append(pad);
            }
            out.push('}');
            assert(out@ =~= old(out)@ + written(v@, depth));
        },
    }
}

/// Ends the line of an element.
fn write_line_end(out: &mut String, more: bool)
    ensures
        final(out)@ == old(out)@ + line_end(more),
{
    if more {
        out.push(',');
    }
    out.push('\n');
    assert(out@ =~= old(out)@ + line_end(more));
}

fn write_items(out: &mut String, items: &Vec<Json>, pad: &str, Ghost(depth): Ghost<nat>)
    requires
        pad@ == indent(depth),
    ensures
        final(out)@ == old(out)@ + written_items(json_models(items@), depth),
    decreases items,
{
    let inner = "  ".to_string().concat(pad);
    proof {
        reveal_strlit("  ");
        assert(inner@ =~= indent(depth + 1));
    }
    let ghost all = json_models(items@);
    let ghost start = out@;
    let mut i: usize = 0;
    assert(all.skip(0) =~= all);
    while i < items.len()
        invariant
            i <= items@.len(),
            all == json_models(items@),
            inner@ == indent(depth + 1),
            start + written_items(all, depth) == out@ + written_items(all.skip(i as int), depth),
            decreases_to!(items => items@),
        decreases items@.len() - i,
    {
        let ghost before = out@;
        let ghost rest = all.skip(i as int);
        proof {
            assert(rest.drop_first() =~= all.skip(i + 1));
            assert(rest[0] == items@[i as int]@);
        }
        out.append(&inner);
        write(out, &items[i], &inner, Ghost(depth + 1));
        write_line_end(out, items.len() - i > 1);
        proof {
            let tail = written_items(rest.drop_first(), depth);
            let one = indent(depth + 1) + written(rest[0], depth + 1) + line_end(rest.len() > 1);
            assert(out@ =~= before + one);
            assert(before + (one + tail) =~= out@ + tail);
        }
        i += 1;
    }
    assert(out@ + Seq::<char>::empty() =~= out@);
}

fn write_members(
    out: &mut String,
    entries: &Vec<(String, Json)>,
    pad: &str,
    Ghost(depth): Ghost<nat>,
)
    requires
        pad@ == indent(depth),
    ensures
        final(out)@ == old(out)@ + written_members(member_models(entries@), depth),
    decreases entries,
{
    let inner = "  ".to_string().concat(pad);
    proof {
        reveal_strlit("  ");
        assert(inner@ =~= indent(depth + 1));
    }
    let ghost all = member_models(entries@);
    let ghost start = out@;
    let mut i: usize = 0;
    assert(all.skip(0) =~= all);
    while i < entries.len()
        invariant
            i <= entries@.len(),
            all == member_models(entries@),
            inner@ == indent(depth + 1),
            start + written_members(all, depth) == out@ + written_members(
                all.skip(i as int),
                depth,
            ),
            decreases_to!(entries => entries@),
        decreases entries@.len() - i,
    {
        let ghost before = out@;
        let ghost rest = all.skip(i as int);
        proof {
            assert(rest.drop_first() =~= all.skip(i + 1));
            assert(rest[0] == (entries@[i as int].0@, entries@[i as int].1@));
        }
        out.append(&inner);
        out.append(&quote(&entries[i].0));
        out.push(':');
        out.push(' ');
        write(out, &entries[i].1, &inner, Ghost(depth + 1));
        write_line_end(out, entries.len() - i > 1);
        proof {
            let tail = written_members(rest.drop_first(), depth);
            let one = indent(depth + 1) + quoted(rest[0].0) + seq![':', ' '] + written(
                rest[0].1,
                depth + 1,
            ) + line_end(rest.len() > 1);
            assert(out@ =~= before + one);
            assert(before + (one + tail) =~= out@ + tail);
        }
        i += 1;
    }
    assert(out@ + Seq::<char>::empty() =~= out@);
}

/// Writes a value as JSON text, with two blanks for each level.
pub fn stringify(v: &Json) -> (r: String)
    ensures
        r@ == written(v@, 0),
{
    let mut out = String::new();
    proof {
        reveal_strlit("");
        assert(""@ =~= indent(0));
    }
    write(&mut out, v, "", Ghost(0));
    assert(out@ =~= written(v@, 0));
    out
}

} // verus!
