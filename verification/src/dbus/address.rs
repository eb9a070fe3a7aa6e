//! Where the session bus is found, and who is connecting to it.

use crate::error::{protocol, Error, ErrorView};
use crate::text::{
    chars_of, decimal, decimal_of, has_prefix, lossy_text, matches_at, number_in, parse_number,
    parts, second_word, split_on, split_ranges, string_of, text_from_utf8_lossy, trim_range,
    trimmed, words,
};
use vstd::prelude::*;
use vstd::string::*;
use vstd::utf8::*;

verus! {

/// The value of a hexadecimal digit.
pub open spec fn hex_digit(c: u8) -> Option<u8> {
    if 48 <= c <= 57 {
        Some((c - 48) as u8)
    } else if 97 <= c <= 102 {
        Some((c - 87) as u8)
    } else if 65 <= c <= 70 {
        Some((c - 55) as u8)
    } else {
        None
    }
}

/// The value of a hexadecimal digit.
pub fn hex_val(c: u8) -> (r: Option<u8>)
    ensures
        r == hex_digit(c),
{
    if 48 <= c && c <= 57 {
        Some(c - 48)
    } else if 97 <= c && c <= 102 {
        Some(c - 87)
    } else if 65 <= c && c <= 70 {
        Some(c - 55)
    } else {
        None
    }
}

/// `b` with each `%` and the two hexadecimal digits behind it replaced by the byte
/// that they stand for. A `%` without two such digits stays.
pub open spec fn unescaped(b: Seq<u8>) -> Seq<u8>
    decreases b.len(),
{
    if b.len() == 0 {
        seq![]
    } else if b[0] == 37 && b.len() > 2 && hex_digit(b[1]) is Some && hex_digit(b[2]) is Some {
        seq![(16 * hex_digit(b[1])->0 + hex_digit(b[2])->0) as u8] + unescaped(b.skip(3))
    } else {
        seq![b[0]] + unescaped(b.drop_first())
    }
}

/// Replaces escape sequences by the bytes that they stand for.
pub fn percent_bytes(b: &[u8]) -> (r: Vec<u8>)
    ensures
        r@ == unescaped(b@),
{
    let mut out: Vec<u8> = Vec::with_capacity(b.len());
    let mut i: usize = 0;
    assert(b@.skip(0) =~= b@);
    assert(out@ + unescaped(b@) =~= unescaped(b@));
    while i < b.len()
        invariant
            i <= b@.len(),
            unescaped(b@) == out@ + unescaped(b@.skip(i as int)),
        decreases b@.len() - i,
    {
        let ghost rest = b@.skip(i as int);
        let ghost before = out@;
        if b[i] == 37 && b.len() - i > 2 {
            match (hex_val(b[i + 1]), hex_val(b[i + 2])) {
                (Some(hi), Some(lo)) => {
                    out.push(16 * hi + lo);
                    proof {
                        assert(rest.skip(3) =~= b@.skip(i + 3));
                        assert(before + (seq![out@.last()] + unescaped(rest.skip(3))) =~= out@
                            + unescaped(rest.skip(3)));
                    }
                    i += 3;
                    continue ;
                },
                _ => {},
            }
        }
        out.push(b[i]);
        proof {
            assert(rest.drop_first() =~= b@.skip(i + 1));
            assert(before + (seq![rest[0]] + unescaped(rest.drop_first())) =~= out@ + unescaped(
                rest.drop_first(),
            ));
        }
        i += 1;
    }
    assert(out@ + Seq::<u8>::empty() =~= out@);
    out
}

/// Undoes the escaping of a value in a bus address.
pub fn percent_decode(s: &str) -> (r: String)
    ensures
        r@ == lossy_text(unescaped(encode_utf8(s@))),
        valid_utf8(unescaped(encode_utf8(s@))) ==> r@ == decode_utf8(unescaped(encode_utf8(s@))),
{
    let out = percent_bytes(s.as_bytes());
    text_from_utf8_lossy(&out)
}

/// Bytes without a `%` stay as they are.
pub proof fn law_unescaped_without_percent(b: Seq<u8>)
    requires
        forall|i: int| 0 <= i < b.len() ==> b[i] != 37,
    ensures
        unescaped(b) == b,
    decreases b.len(),
{
    if b.len() > 0 {
        law_unescaped_without_percent(b.drop_first());
        assert(seq![b[0]] + b.drop_first() =~= b);
    } else {
        assert(b =~= seq![]);
    }
}

proof fn lemma_high_bytes(y: u8)
    ensures
        (0xC0u8 | y) >= 0x80,
        (0xE0u8 | y) >= 0x80,
        (0xF0u8 | y) >= 0x80,
        (0x80u8 | y) >= 0x80,
{
    assert((0xC0u8 | y) >= 0x80) by (bit_vector);
    assert((0xE0u8 | y) >= 0x80) by (bit_vector);
    assert((0xF0u8 | y) >= 0x80) by (bit_vector);
    assert((0x80u8 | y) >= 0x80) by (bit_vector);
}

proof fn lemma_percent_scalar(ch: char)
    requires
        ch != '%',
    ensures
        forall|i: int|
            0 <= i < encode_scalar(ch as u32).len() ==> #[trigger] encode_scalar(ch as u32)[i] != 37,
{
    let c = ch as u32;
    assert(c <= 0x7F ==> (c & 0x7F) as u8 == c) by (bit_vector);
    lemma_high_bytes(((c >> 6) & 0x1F) as u8);
    lemma_high_bytes(((c >> 12) & 0x0F) as u8);
    lemma_high_bytes(((c >> 18) & 0x7) as u8);
    lemma_high_bytes((c & 0x3F) as u8);
    lemma_high_bytes(((c >> 6) & 0x3F) as u8);
    lemma_high_bytes(((c >> 12) & 0x3F) as u8);
}

proof fn lemma_percent_byte(s: Seq<char>)
    requires
        forall|i: int| 0 <= i < s.len() ==> s[i] != '%',
    ensures
        forall|i: int| 0 <= i < encode_utf8(s).len() ==> encode_utf8(s)[i] != 37,
    decreases s.len(),
{
    if s.len() > 0 {
        lemma_percent_byte(s.drop_first());
        lemma_percent_scalar(s[0]);
        let e = encode_scalar(s[0] as u32);
        let rest = encode_utf8(s.drop_first());
        assert forall|i: int| 0 <= i < encode_utf8(s).len() implies encode_utf8(s)[i] != 37 by {
            if i >= e.len() {
                assert(rest[i - e.len()] != 37);
            }
        }
    }
}

/// A value without a `%` is the same after its escaping is undone.
pub proof fn law_plain_value_unchanged(s: Seq<char>)
    requires
        forall|i: int| 0 <= i < s.len() ==> s[i] != '%',
    ensures
        valid_utf8(unescaped(encode_utf8(s))),
        decode_utf8(unescaped(encode_utf8(s))) == s,
{
    lemma_percent_byte(s);
    law_unescaped_without_percent(encode_utf8(s));
    encode_utf8_valid_utf8(s);
    encode_utf8_decode_utf8(s);
}

/// The effective user id in the lines of a process status file.
pub open spec fn uid_in(lines: Seq<Seq<char>>) -> Result<u32, ErrorView>
    decreases lines.len(),
{
    if lines.len() == 0 {
        Err(ErrorView::Protocol("/proc/self/status 中找不到 Uid"@))
    } else {
        let w = words(lines[0].skip(4));
        if has_prefix(lines[0], "Uid:"@) && w.len() >= 2 {
            match number_in(w[1]) {
                Some(n) => if n <= u32::MAX {
                    Ok(n as u32)
                } else {
                    Err(ErrorView::Protocol("Uid 字段无法解析"@))
                },
                None => Err(ErrorView::Protocol("Uid 字段无法解析"@)),
            }
        } else {
            uid_in(lines.drop_first())
        }
    }
}

/// The effective user id, out of the text of `/proc/self/status`.
pub fn current_uid(status: &str) -> (r: Result<u32, Error>)
    ensures
        match r {
            Ok(uid) => uid_in(split_on(status@, '\n')) == Ok::<u32, ErrorView>(uid),
            Err(e) => uid_in(split_on(status@, '\n')) == Err::<u32, ErrorView>(e@),
        },
{
    let cs = chars_of(status);
    let ranges = split_ranges(&cs, 0, cs.len(), '\n');
    let prefix = chars_of("Uid:");
    proof {
        reveal_strlit("Uid:");
        assert(cs@.subrange(0, cs@.len() as int) =~= status@);
    }
    let ghost lines = split_on(status@, '\n');
    assert(lines.skip(0) =~= lines);
    let mut i: usize = 0;
    while i < ranges.len()
        invariant
            i <= ranges@.len(),
            prefix@ == "Uid:"@,
            prefix@.len() == 4,
            lines == parts(cs@, ranges@),
            lines == split_on(status@, '\n'),
            forall|k: int|
                0 <= k < ranges@.len() ==> (#[trigger] ranges@[k]).0 <= ranges@[k].1 <= cs@.len(),
            uid_in(lines) == uid_in(lines.skip(i as int)),
        decreases ranges@.len() - i,
    {
        let (a, b) = ranges[i];
        let ghost line = cs@.subrange(a as int, b as int);
        proof {
            assert(lines.skip(i as int)[0] == line);
            assert(lines.skip(i as int).drop_first() =~= lines.skip(i + 1));
        }
        if matches_at(&cs, a, b, &prefix) {
            assert(line.skip(4) =~= cs@.subrange(a + 4, b as int));
            match second_word(&cs, a + 4, b) {
                Some((c, d)) => {
                    return match parse_number(&cs, c, d, u32::MAX as u64) {
                        Some(n) => Ok(n as u32),
                        None => Err(protocol("Uid 字段无法解析")),
                    };
                },
                None => {},
            }
        }
        i += 1;
    }
    Err(protocol("/proc/self/status 中找不到 Uid"))
}

/// The value of the last `path=` among the settings of a bus address.
pub open spec fn last_path(settings: Seq<Seq<char>>) -> Option<Seq<char>>
    decreases settings.len(),
{
    if settings.len() == 0 {
        None
    } else if has_prefix(settings.last(), "path="@) {
        Some(settings.last().skip(5))
    } else {
        last_path(settings.drop_last())
    }
}

/// The escaped socket path in one of the addresses of a list.
pub open spec fn path_in(address: Seq<char>) -> Option<Seq<char>> {
    let t = trimmed(address);
    if has_prefix(t, "unix:"@) {
        last_path(split_on(t.skip(5), ','))
    } else {
        None
    }
}

/// The escaped socket path of the first address in the list that has one.
pub open spec fn first_path(addresses: Seq<Seq<char>>) -> Option<Seq<char>>
    decreases addresses.len(),
{
    if addresses.len() == 0 {
        None
    } else {
        match path_in(addresses[0]) {
            Some(p) => Some(p),
            None => first_path(addresses.drop_first()),
        }
    }
}

/// Finds the escaped socket path in the address `v[from..to]`.
fn find_path(v: &[char], from: usize, to: usize) -> (r: Option<(usize, usize)>)
    requires
        from <= to <= v@.len(),
    ensures
        match r {
            Some(p) => p.0 <= p.1 <= v@.len() && path_in(v@.subrange(from as int, to as int))
                == Some(v@.subrange(p.0 as int, p.1 as int)),
            None => path_in(v@.subrange(from as int, to as int)) is None,
        },
{
    let (a, b) = trim_range(v, from, to);
    proof {
        reveal_strlit("unix:");
        reveal_strlit("path=");
    }
    if !matches_at(v, a, b, &chars_of("unix:")) {
        return None;
    }
    let ghost t = v@.subrange(a as int, b as int);
    assert(t.skip(5) =~= v@.subrange(a + 5, b as int));
    let ranges = split_ranges(v, a + 5, b, ',');
    let prefix = chars_of("path=");
    let ghost settings = split_on(t.skip(5), ',');
    let mut found: Option<(usize, usize)> = None;
    let mut i: usize = 0;
    while i < ranges.len()
        invariant
            i <= ranges@.len(),
            prefix@ == "path="@,
            prefix@.len() == 5,
            settings == parts(v@, ranges@),
            forall|k: int|
                0 <= k < ranges@.len() ==> (#[trigger] ranges@[k]).0 <= ranges@[k].1 <= v@.len(),
            match found {
                Some(p) => p.0 <= p.1 <= v@.len() && last_path(settings.take(i as int)) == Some(
                    v@.subrange(p.0 as int, p.1 as int),
                ),
                None => last_path(settings.take(i as int)) is None,
            },
        decreases ranges@.len() - i,
    {
        let (c, d) = ranges[i];
        proof {
            let next = settings.take(i + 1);
            assert(next.drop_last() =~= settings.take(i as int));
            assert(next.last() == v@.subrange(c as int, d as int));
        }
        if matches_at(v, c, d, &prefix) {
            assert(v@.subrange(c as int, d as int).skip(5) =~= v@.subrange(c + 5, d as int));
            found = Some((c + 5, d));
        }
        i += 1;
    }
    assert(settings.take(i as int) =~= settings);
    found
}

/// The socket path that a list of bus addresses names, where it names one.
pub fn path_of_address(raw: &str) -> (r: Option<String>)
    ensures
        match first_path(split_on(raw@, ';')) {
            Some(p) => r matches Some(s) && s@ == lossy_text(unescaped(encode_utf8(p))) && (
            valid_utf8(unescaped(encode_utf8(p))) ==> s@ == decode_utf8(
                unescaped(encode_utf8(p)),
            )),
            None => r is None,
        },
{
    let cs = chars_of(raw);
    assert(cs@.subrange(0, cs@.len() as int) =~= raw@);
    let ranges = split_ranges(&cs, 0, cs.len(), ';');
    let ghost addresses = split_on(raw@, ';');
    assert(addresses.skip(0) =~= addresses);
    let mut i: usize = 0;
    while i < ranges.len()
        invariant
            i <= ranges@.len(),
            addresses == parts(cs@, ranges@),
            addresses == split_on(raw@, ';'),
            forall|k: int|
                0 <= k < ranges@.len() ==> (#[trigger] ranges@[k]).0 <= ranges@[k].1 <= cs@.len(),
            first_path(addresses) == first_path(addresses.skip(i as int)),
        decreases ranges@.len() - i,
    {
        let (a, b) = ranges[i];
        proof {
            assert(addresses.skip(i as int)[0] == cs@.subrange(a as int, b as int));
            assert(addresses.skip(i as int).drop_first() =~= addresses.skip(i + 1));
        }
        match find_path(&cs, a, b) {
            Some((c, d)) => {
                return Some(percent_decode(&string_of(&cs, c, d)));
            },
            None => {},
        }
        i += 1;
    }
    None
}

/// Where the bus of a user is found by convention.
pub open spec fn usual_path(uid: u32) -> Seq<char> {
    "/run/user/"@ + decimal(uid as nat) + "/bus"@
}

/// Where the bus of a user is found by convention.
pub fn fallback_path(uid: u32) -> (r: String)
    ensures
        r@ == usual_path(uid),
{
    "/run/user/".to_string().concat(&decimal_of(uid as u64)).concat("/bus")
}

/// No address was given.
pub open spec fn no_address() -> ErrorView {
    ErrorView::Config("未设置 DBUS_SESSION_BUS_ADDRESS，可用 --bus 指定套接字路径"@)
}

/// The addresses given name no socket path, and the usual path does not exist.
pub open spec fn no_path(uid: u32) -> ErrorView {
    ErrorView::Config(
        "地址中没有 unix:path=（可能是 abstract 套接字，稳定版 std 无法连接）；请用 --bus 指定，例如 --bus /run/user/"@
            + decimal(uid as nat) + "/bus"@,
    )
}

/// The path of the session bus socket.
///
/// The address is the one given on the command line, or else that of the
/// environment. It is a path itself, or a list of addresses, of which the first
/// that names a socket path counts. Where none does, the bus may be found at the
/// usual path of the user: `uid` is the user's id, or why it is not known, and
/// `fallback_exists` tells whether that path exists.
pub fn session_bus_path(
    bus_override: Option<&str>,
    environment: Option<&str>,
    uid: Result<u32, Error>,
    fallback_exists: bool,
) -> (r: Result<String, Error>)
    ensures
        match (bus_override, environment) {
            (None, None) => r matches Err(e) && e@ == no_address(),
            (given, env) => {
                let raw = match given {
                    Some(s) => s@,
                    None => env->0@,
                };
                if raw.len() > 0 && raw[0] == '/' {
                    r matches Ok(p) && p@ == raw
                } else {
                    match first_path(split_on(raw, ';')) {
                        Some(p) => r matches Ok(s) && s@ == lossy_text(unescaped(encode_utf8(p)))
                            && (valid_utf8(unescaped(encode_utf8(p))) ==> s@ == decode_utf8(
                            unescaped(encode_utf8(p)),
                        )),
                        None => match uid {
                            Err(e) => r matches Err(f) && f@ == e@,
                            Ok(id) => if fallback_exists {
                                r matches Ok(p) && p@ == usual_path(id)
                            } else {
                                r matches Err(e) && e@ == no_path(id)
                            },
                        },
                    }
                }
            },
        },
{
    let raw = match bus_override {
        Some(s) => s,
        None => match environment {
            Some(s) => s,
            None => {
                return Err(
                    Error::Config(
                        "未设置 DBUS_SESSION_BUS_ADDRESS，可用 --bus 指定套接字路径".to_string(),
                    ),
                );
            },
        },
    };
    let cs = chars_of(raw);
    if cs.len() > 0 && cs[0] == '/' {
        return Ok(raw.to_string());
    }
    match path_of_address(raw) {
        Some(p) => Ok(p),
        None => match uid {
            Err(e) => Err(e),
            Ok(id) => if fallback_exists {
                Ok(fallback_path(id))
            } else {
                Err(
                    Error::Config(
                        "地址中没有 unix:path=（可能是 abstract 套接字，稳定版 std 无法连接）；请用 --bus 指定，例如 --bus /run/user/".to_string().concat(
                            &decimal_of(id as u64),
                        ).concat("/bus"),
                    ),
                )
            },
        },
    }
}

} // verus!
