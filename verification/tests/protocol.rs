use kdeconnect_bridge::dbus::marshal::Writer;
use kdeconnect_bridge::dbus::unmarshal::Reader;
use kdeconnect_bridge::dbus::value::{vstr, vvar, Value};
use kdeconnect_bridge::Error;

/// Writes a value, reads it back and compares.
fn there_and_back(v: &Value, sig: &str, le: bool) {
    let mut w = Writer::with_endian(le);
    w.value(v);
    let bytes = w.into_inner();
    let mut r = Reader::new(&bytes, le);
    let got = r.value(sig).expect("unreadable");
    assert_eq!(&got, v, "signature {sig}, little endian: {le}");
    assert_eq!(r.remaining(), 0, "bytes left behind {sig}");
}

fn both_endians(v: &Value, sig: &str) {
    there_and_back(v, sig, true);
    there_and_back(v, sig, false);
}

#[test]
fn scalars() {
    both_endians(&Value::Byte(200), "y");
    both_endians(&Value::Bool(true), "b");
    both_endians(&Value::Bool(false), "b");
    both_endians(&Value::Int16(-300), "n");
    both_endians(&Value::Uint16(60000), "q");
    both_endians(&Value::Int32(-70000), "i");
    both_endians(&Value::Uint32(4_000_000_000), "u");
    both_endians(&Value::Int64(-9_000_000_000), "x");
    both_endians(&Value::Uint64(18_000_000_000), "t");
    both_endians(&Value::Double(std::f64::consts::PI.to_bits()), "d");
    both_endians(&vstr("hello 世界"), "s");
    both_endians(&Value::ObjectPath("/org/freedesktop/DBus".into()), "o");
    both_endians(&Value::Signature("a{sv}".into()), "g");
}

#[test]
fn strings_with_utf8_and_empty() {
    both_endians(&vstr(""), "s");
    both_endians(&vstr("中文 emoji 🎧 混排"), "s");
    both_endians(&vstr("a\nb\tc"), "s");
}

#[test]
fn arrays() {
    both_endians(
        &Value::Array("s".into(), vec![vstr("a"), vstr("bb"), vstr("ccc")]),
        "as",
    );
    both_endians(&Value::Array("s".into(), vec![]), "as");
    both_endians(
        &Value::Array("y".into(), vec![Value::Byte(1), Value::Byte(2)]),
        "ay",
    );
    both_endians(
        &Value::Array(
            "(yv)".into(),
            vec![
                Value::Struct(vec![Value::Byte(1), vvar(vstr("/path"))]),
                Value::Struct(vec![Value::Byte(6), vvar(vstr("dest"))]),
            ],
        ),
        "a(yv)",
    );
}

#[test]
fn dicts() {
    let dict = Value::Dict(
        "s".into(),
        "v".into(),
        vec![
            (vstr("appName"), vvar(vstr("WeChat"))),
            (vstr("hasIcon"), vvar(Value::Bool(true))),
            (vstr("id"), vvar(Value::Int64(-12345))),
            (vstr("tags"), vvar(Value::Array("s".into(), vec![vstr("x")]))),
        ],
    );
    both_endians(&dict, "a{sv}");
    both_endians(&Value::Dict("s".into(), "v".into(), vec![]), "a{sv}");
}

#[test]
fn nested_variants() {
    both_endians(&vvar(vvar(vstr("deep"))), "v");
    both_endians(
        &Value::Struct(vec![Value::Byte(3), vvar(Value::Uint32(9))]),
        "(yv)",
    );
}

#[test]
fn struct_with_mixed_fields() {
    let s = Value::Struct(vec![vstr("abc"), Value::Uint32(7), Value::Bool(false)]);
    both_endians(&s, "(sub)");
}

#[test]
fn malformed_input_errors_instead_of_panicking() {
    let mut w = Writer::new();
    w.string("short");
    let bytes = w.into_inner();
    let mut r = Reader::new(&bytes[..2], true);
    assert!(r.value("s").is_err());

    let mut r2 = Reader::new(&[0u8; 8], true);
    assert!(r2.value("z").is_err());
}

#[test]
fn alignment_is_respected() {
    let mut w = Writer::new();
    w.u8(1);
    w.u32(0x11223344);
    let bytes = w.into_inner();
    assert_eq!(bytes.len(), 8);
    assert_eq!(&bytes[1..4], &[0, 0, 0]);

    let mut w2 = Writer::new();
    w2.u8(0);
    w2.string("abc");
    let b2 = w2.into_inner();
    assert_eq!(&b2[4..8], &[3, 0, 0, 0]);
}

fn message_of(e: Error) -> String {
    e.text()
}

#[test]
fn exact_bytes_of_values() {
    let mut w = Writer::new();
    w.value(&Value::Array("u".into(), vec![Value::Uint32(1), Value::Uint32(2)]));
    assert_eq!(w.into_inner(), [8, 0, 0, 0, 1, 0, 0, 0, 2, 0, 0, 0]);

    // the length of an array does not count the padding before its first element
    let mut w = Writer::with_endian(false);
    w.value(&Value::Array("x".into(), vec![Value::Int64(-2)]));
    assert_eq!(
        w.into_inner(),
        [0, 0, 0, 8, 0, 0, 0, 0, 0xff, 0xff, 0xff, 0xff, 0xff, 0xff, 0xff, 0xfe]
    );

    let mut w = Writer::new();
    w.variant(&Value::Uint16(0x0102));
    assert_eq!(w.into_inner(), [1, b'q', 0, 0, 2, 1]);

    let mut w = Writer::default();
    w.signature("a{sv}");
    assert_eq!(w.into_inner(), [5, b'a', b'{', b's', b'v', b'}', 0]);
}

#[test]
fn writer_numbers() {
    let mut w = Writer::with_endian(false);
    assert!(w.is_empty());
    w.i16(-2);
    w.i32(-3);
    w.i64(-4);
    w.double(1.5f64.to_bits());
    assert_eq!(w.len(), 24);
    let b = w.into_inner();
    let mut r = Reader::new(&b, false);
    assert_eq!(r.i16().unwrap(), -2);
    assert_eq!(r.i32().unwrap(), -3);
    assert_eq!(r.i64().unwrap(), -4);
    assert_eq!(f64::from_bits(r.double().unwrap()), 1.5);
    assert_eq!(r.pos(), 24);
    r.set_pos(100);
    assert_eq!(r.remaining(), 0);
    assert!(r.u8().is_err());
}

#[test]
fn values_round_trip_at_any_position() {
    let v = Value::Struct(vec![
        Value::Byte(7),
        Value::Dict("y".into(), "ai".into(), vec![
            (Value::Byte(1), Value::Array("i".into(), vec![Value::Int32(-1)])),
            (Value::Byte(2), Value::Array("i".into(), vec![])),
        ]),
        vvar(Value::Array("a{sv}".into(), vec![Value::Dict("s".into(), "v".into(), vec![])])),
    ]);
    for le in [true, false] {
        for skip in 0..9 {
            let mut w = Writer::with_endian(le);
            for _ in 0..skip {
                w.u8(0xaa);
            }
            w.value(&v);
            let end = w.len();
            w.u8(0x55);
            let b = w.into_inner();
            let mut r = Reader::new(&b, le);
            r.set_pos(skip);
            assert_eq!(r.value("(ya{yai}v)").unwrap(), v);
            assert_eq!(r.pos(), end);
        }
    }
}

#[test]
fn reading_errors() {
    let mut r = Reader::new(&[1, 2], true);
    assert_eq!(
        message_of(r.u32().unwrap_err()),
        "协议错误: 数据不足：需要 4 字节，只剩 2 字节"
    );
    // a string that is not UTF-8
    let mut r = Reader::new(&[2, 0, 0, 0, 0xff, 0xfe, 0], true);
    let m = message_of(r.string().unwrap_err());
    assert!(m.starts_with("协议错误: 字符串不是合法 UTF-8: "), "{m}");
    assert!(m.len() > "协议错误: 字符串不是合法 UTF-8: ".len());
    let mut r = Reader::new(&[1, 0xff, 0], true);
    let m = message_of(r.signature().unwrap_err());
    assert!(m.starts_with("协议错误: 签名不是合法 UTF-8: "), "{m}");
    // an array that is longer than the data
    let mut r = Reader::new(&[9, 0, 0, 0, 1], true);
    assert_eq!(message_of(r.value("ay").unwrap_err()), "协议错误: 数组长度超出缓冲区");
    let mut r = Reader::new(&[9, 0, 0, 0, 0, 0, 0, 0], true);
    assert_eq!(message_of(r.value("a{ss}").unwrap_err()), "协议错误: 字典长度超出缓冲区");
    // the elements do not end where the array does
    let mut r = Reader::new(&[3, 0, 0, 0, 1, 0, 0, 0], true);
    assert_eq!(message_of(r.value("au").unwrap_err()), "协议错误: 数组元素长度与声明不符");
    let mut r = Reader::new(&[1, 0, 0, 0, 0, 0, 0, 0, 1, 2], true);
    assert_eq!(message_of(r.value("a{yy}").unwrap_err()), "协议错误: 字典条目长度与声明不符");
    // elements that take no bytes
    let mut r = Reader::new(&[8, 0, 0, 0, 0, 0, 0, 0, 0, 0, 0, 0, 0, 0, 0, 0], true);
    assert_eq!(message_of(r.value("a()").unwrap_err()), "协议错误: 数组元素长度与声明不符");
    // a key that is not basic
    let mut r = Reader::new(&[0, 0, 0, 0, 0, 0, 0, 0], true);
    assert_eq!(message_of(r.value("a{vs}").unwrap_err()), "协议错误: 字典键必须是基本类型: v");
    // a variant with a bad signature
    let mut r = Reader::new(&[1, b'z', 0], true);
    assert_eq!(message_of(r.value("v").unwrap_err()), "协议错误: 非法签名字符 'z'");
}

#[test]
fn empty_structures_round_trip_outside_arrays() {
    both_endians(&Value::Struct(vec![]), "()");
    both_endians(&Value::Array("()".into(), vec![]), "a()");
}

#[test]
fn reading_stays_within_the_bytes() {
    let v = Value::Struct(vec![
        vstr("short"),
        Value::Array("x".into(), vec![]),
        Value::Dict("s".into(), "v".into(), vec![(vstr("k"), vvar(Value::Uint64(7)))]),
    ]);
    let mut w = Writer::new();
    w.value(&v);
    let bytes = w.into_inner();
    for n in 0..=bytes.len() {
        let mut r = Reader::new(&bytes[..n], true);
        match r.value("(saxa{sv})") {
            Ok(x) => {
                assert_eq!(n, bytes.len());
                assert_eq!(x, v);
                assert!(r.pos() <= n);
            }
            Err(e) => assert!(matches!(e, Error::Protocol(_))),
        }
    }
    let mut w = Writer::new();
    w.string("short");
    let bytes = w.into_inner();
    assert!(matches!(Reader::new(&bytes[..2], true).value("s"), Err(Error::Protocol(_))));
    assert!(matches!(Reader::new(&[0u8; 8], true).value("z"), Err(Error::Protocol(_))));
}
