use kdeconnect_bridge::dbus::message::{Message, MessageType, METHOD_CALL};
use kdeconnect_bridge::dbus::value::{vstr, vvar, Value};

#[test]
fn method_call_roundtrip() {
    let m = Message::method_call(
        "org.freedesktop.DBus",
        "/org/freedesktop/DBus",
        "org.freedesktop.DBus",
        "Hello",
        vec![],
    );
    let bytes = m.to_bytes(1).unwrap();
    assert_eq!(bytes[0], b'l');
    assert_eq!(bytes[1], METHOD_CALL);
    assert_eq!(bytes[3], 1);
    assert_eq!(&bytes[8..12], &1u32.to_le_bytes());
    assert_eq!(bytes.len() % 8, 0);

    let (parsed, used) = Message::parse(&bytes).unwrap().unwrap();
    assert_eq!(used, bytes.len());
    assert_eq!(parsed.typ, MessageType::MethodCall);
    assert_eq!(parsed.destination.as_deref(), Some("org.freedesktop.DBus"));
    assert_eq!(parsed.path.as_deref(), Some("/org/freedesktop/DBus"));
    assert_eq!(parsed.member.as_deref(), Some("Hello"));
    assert!(parsed.body.is_empty());
}

#[test]
fn method_call_with_body_roundtrip() {
    let m = Message::method_call(
        "dest",
        "/p",
        "iface",
        "Do",
        vec![vstr("hello"), Value::Bool(true)],
    );
    let bytes = m.to_bytes(42).unwrap();
    let (parsed, _) = Message::parse(&bytes).unwrap().unwrap();
    assert_eq!(parsed.serial, 42);
    assert_eq!(parsed.signature.as_deref(), Some("sb"));
    assert_eq!(parsed.body.len(), 2);
    assert_eq!(parsed.body[0].as_str(), Some("hello"));
    assert_eq!(parsed.body[1].as_bool(), Some(true));
}

#[test]
fn dict_body_roundtrip() {
    let hints = Value::Dict(
        "s".into(),
        "v".into(),
        vec![(Value::String("urgency".into()), vvar(Value::Byte(1)))],
    );
    let m = Message::method_call("d", "/p", "i", "M", vec![hints.clone()]);
    let bytes = m.to_bytes(3).unwrap();
    let (parsed, _) = Message::parse(&bytes).unwrap().unwrap();
    assert_eq!(parsed.signature.as_deref(), Some("a{sv}"));
    assert_eq!(parsed.body[0], hints);
}

#[test]
fn incomplete_input_returns_none() {
    let m = Message::method_call("d", "/p", "i", "M", vec![vstr("x")]);
    let bytes = m.to_bytes(1).unwrap();
    assert!(Message::parse(&bytes[..10]).unwrap().is_none());
}

#[test]
fn every_part_of_a_message_waits_for_the_rest() {
    let m = Message::method_call("d", "/p", "i", "M", vec![vstr("x"), Value::Uint64(9)]);
    let bytes = m.to_bytes(1).unwrap();
    for k in 0..bytes.len() {
        assert!(Message::parse(&bytes[..k]).unwrap().is_none(), "{k}");
    }
}

#[test]
fn all_fields_arrive_and_what_follows_stays() {
    let mut m = Message::bare(MessageType::Error, 0);
    m.reply_serial = Some(77);
    m.error_name = Some("org.x.Failed".into());
    m.sender = Some(":1.2".into());
    m.path = Some("/a".into());
    m.body = vec![vstr("why")];
    assert!(m.is_sendable());
    let mut bytes = m.to_bytes(5).unwrap();
    let n = bytes.len();
    bytes.extend_from_slice(b"rest");
    let (p, used) = Message::parse(&bytes).unwrap().unwrap();
    assert_eq!(used, n);
    assert_eq!(p.typ, MessageType::Error);
    assert_eq!(p.serial, 5);
    assert_eq!(p.reply_serial, Some(77));
    assert_eq!(p.error_name.as_deref(), Some("org.x.Failed"));
    assert_eq!(p.sender.as_deref(), Some(":1.2"));
    assert_eq!(p.path.as_deref(), Some("/a"));
    assert_eq!(p.interface, None);
    assert_eq!(p.member, None);
    assert_eq!(p.destination, None);
    assert_eq!(p.signature.as_deref(), Some("s"));
    assert_eq!(p.body, vec![vstr("why")]);
    assert_eq!(m.body_signature(), "s");
}

#[test]
fn exact_bytes_of_a_message() {
    let mut m = Message::default();
    m.member = Some("M".into());
    assert_eq!(
        m.to_bytes(0x0102).unwrap(),
        [
            b'l', 1, 0, 1, 0, 0, 0, 0, 2, 1, 0, 0, 10, 0, 0, 0, // fixed part
            3, 1, b's', 0, 1, 0, 0, 0, b'M', 0, // member
            0, 0, 0, 0, 0, 0, // padding
        ]
    );
}

#[test]
fn message_types() {
    for t in [
        MessageType::MethodCall,
        MessageType::MethodReturn,
        MessageType::Error,
        MessageType::Signal,
    ] {
        assert_eq!(MessageType::from_u8(t.to_u8()), Some(t));
    }
    assert_eq!(MessageType::from_u8(0), None);
    assert_eq!(MessageType::from_u8(5), None);
    assert_eq!(MessageType::default(), MessageType::MethodCall);
}

#[test]
fn refused_messages() {
    let good = Message::method_call("d", "/p", "i", "M", vec![]).to_bytes(1).unwrap();
    let refused = |at: usize, v: u8| {
        let mut b = good.clone();
        b[at] = v;
        Message::parse(&b).unwrap_err().text()
    };
    assert_eq!(refused(0, b'x'), "协议错误: 未知字节序标记 'x'");
    assert_eq!(refused(0, b'\n'), "协议错误: 未知字节序标记 '\\n'");
    assert_eq!(refused(1, 9), "协议错误: 未知消息类型 9");
    assert_eq!(refused(3, 2), "协议错误: 不支持的协议版本 2");
    assert_eq!(refused(7, 0x10), "协议错误: 报文长度异常");
    assert_eq!(refused(15, 0x10), "协议错误: 报文长度异常");
}

#[test]
fn long_signatures_are_not_sendable() {
    let m = Message::method_call("d", "/p", "i", "M", vec![Value::Signature("y".repeat(256))]);
    assert!(!m.is_sendable());
    let m = Message::method_call("d", "/p", "i", "M", vec![Value::Signature("y".repeat(255))]);
    assert!(m.is_sendable());
    let m = Message::method_call("d", "/p", "i", "M", (0..256).map(|_| Value::Byte(1)).collect());
    assert!(!m.is_sendable());
    let wide = Value::Struct((0..300).map(|_| Value::Byte(1)).collect());
    let m = Message::method_call(
        "d",
        "/p",
        "i",
        "M",
        vec![Value::Dict("s".into(), "v".into(), vec![(vstr("k"), vvar(wide))])],
    );
    assert!(!m.is_sendable());
}

#[test]
fn big_endian_messages_are_read() {
    let bytes = [
        b'B', 4, 0, 1, 0, 0, 0, 4, 0, 0, 0, 9, 0, 0, 0, 14, // fixed part
        8, 1, b'g', 0, 1, b'u', 0, 0, // signature
        3, 1, b's', 0, 0, 0, // member: length cut
    ];
    assert!(Message::parse(&bytes[..29]).unwrap().is_none());
    assert_eq!(
        Message::parse(&bytes).unwrap_err().text(),
        "协议错误: 数据不足：需要 4 字节，只剩 2 字节"
    );
    let bytes = [
        b'B', 4, 0, 1, 0, 0, 0, 4, 0, 0, 0, 9, 0, 0, 0, 7, // fixed part
        8, 1, b'g', 0, 1, b'u', 0, 0, // signature, padding
        0, 0, 1, 0, // body
    ];
    let (m, used) = Message::parse(&bytes).unwrap().unwrap();
    assert_eq!(used, 28);
    assert_eq!(m.typ, MessageType::Signal);
    assert_eq!(m.serial, 9);
    assert_eq!(m.body, vec![Value::Uint32(256)]);
}
