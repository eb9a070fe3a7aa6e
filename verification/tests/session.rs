use kdeconnect_bridge::dbus::session::{
    call_timed_out, hex_uid, nothing_arrived, properties_in, reply_line, unique_name_in, CallStep,
    Handshake, Session, SignalWait,
};
use kdeconnect_bridge::dbus::value::{vstr, vvar, Value};
use kdeconnect_bridge::dbus::{Message, MessageType};

fn reply(serial: u32, to: u32, body: Vec<Value>) -> Vec<u8> {
    let mut m = Message::bare(MessageType::MethodReturn, 0);
    m.reply_serial = Some(to);
    m.body = body;
    m.to_bytes(serial).unwrap()
}

fn signal(serial: u32, member: &str) -> Vec<u8> {
    let mut m = Message::bare(MessageType::Signal, 0);
    m.member = Some(member.into());
    m.to_bytes(serial).unwrap()
}

#[test]
fn calls_are_numbered() {
    let mut s = Session::new();
    let m = Message::method_call("d", "/p", "i", "M", vec![]);
    assert_eq!(s.serial(), 0);
    assert_eq!(s.send(&m).unwrap(), m.to_bytes(1).unwrap());
    assert_eq!(s.send(&m).unwrap(), m.to_bytes(2).unwrap());
    assert_eq!(s.serial(), 2);
}

#[test]
fn an_answer_is_found_behind_signals() {
    let mut s = Session::new();
    s.feed(&signal(1, "A"));
    s.feed(&reply(2, 8, vec![vstr("other")]));
    s.feed(&signal(3, "B"));
    s.feed(&reply(4, 7, vec![vstr("mine")]));
    s.feed(&signal(5, "C"));
    assert_eq!(s.take_reply(7).unwrap(), Some(vec![vstr("mine")]));
    assert_eq!(s.take_reply(7).unwrap(), None);
    let names: Vec<String> = (0..3).map(|_| s.pop_signal().unwrap().member.unwrap()).collect();
    assert_eq!(names, vec!["A", "B", "C"]);
    assert!(s.pop_signal().is_none());
}

#[test]
fn bytes_may_arrive_one_by_one() {
    let mut s = Session::new();
    let bytes = reply(2, 7, vec![Value::Uint32(5)]);
    for b in &bytes[..bytes.len() - 1] {
        s.feed(&[*b]);
        assert_eq!(s.take_reply(7).unwrap(), None);
    }
    s.feed(&bytes[bytes.len() - 1..]);
    assert_eq!(s.take_reply(7).unwrap(), Some(vec![Value::Uint32(5)]));
}

#[test]
fn error_answers() {
    let mut s = Session::new();
    let mut m = Message::bare(MessageType::Error, 0);
    m.reply_serial = Some(3);
    m.error_name = Some("org.x.No".into());
    m.body = vec![vstr("why")];
    s.feed(&m.to_bytes(1).unwrap());
    assert_eq!(s.take_reply(3).unwrap_err().text(), "D-Bus 错误 org.x.No: why");
    m.error_name = None;
    m.body = vec![Value::Byte(1)];
    s.feed(&m.to_bytes(1).unwrap());
    assert_eq!(s.take_reply(3).unwrap_err().text(), "D-Bus 错误 : ");
    m.typ = MessageType::MethodCall;
    s.feed(&m.to_bytes(1).unwrap());
    assert_eq!(s.take_reply(3).unwrap_err().text(), "协议错误: 应答类型异常");
}

#[test]
fn only_signals_are_given_out() {
    let mut s = Session::new();
    s.feed(&reply(1, 9, vec![]));
    s.feed(&signal(2, "S"));
    s.feed(&reply(3, 9, vec![]));
    s.feed(&signal(4, "T"));
    assert_eq!(s.take_signal().unwrap().unwrap().member.as_deref(), Some("S"));
    assert!(s.pop_signal().is_none());
    assert_eq!(s.take_signal().unwrap().unwrap().member.as_deref(), Some("T"));
    assert!(s.take_signal().unwrap().is_none());
    assert!(s.pop_signal().is_none());
}

#[test]
fn signals_put_aside_come_first() {
    let mut s = Session::new();
    s.feed(&signal(1, "A"));
    s.feed(&reply(2, 7, vec![]));
    s.feed(&signal(3, "B"));
    assert_eq!(s.take_reply(7).unwrap(), Some(vec![]));
    for name in ["A", "B"] {
        match s.step_signal(0, 0).unwrap() {
            SignalWait::Got(m) => assert_eq!(m.member.as_deref(), Some(name)),
            other => panic!("{other:?}"),
        }
    }
    assert!(matches!(s.step_signal(0, 0), Ok(SignalWait::Over)));
}

#[test]
fn steps_of_a_call() {
    let mut s = Session::new();
    assert!(matches!(s.step_call(1, "i", "M", 10, 30), Ok(CallStep::Read(20))));
    assert_eq!(
        s.step_call(1, "i", "M", 30, 30).unwrap_err().text(),
        "超时: i.M 调用超时"
    );
    s.feed(&reply(2, 1, vec![]));
    // an answer that has arrived counts after the deadline too
    assert!(matches!(s.step_call(1, "i", "M", 99, 30), Ok(CallStep::Answer(_))));
    assert!(matches!(s.step_signal(1, 5), Ok(SignalWait::Read(4))));
    assert!(matches!(s.step_signal(5, 5), Ok(SignalWait::Over)));
    s.feed(&signal(3, "S"));
    assert!(matches!(s.step_signal(9, 5), Ok(SignalWait::Got(_))));
    s.feed(&[0u8; 16]);
    assert!(s.step_call(1, "i", "M", 0, 9).is_err());
    assert!(s.step_signal(0, 9).is_err());
}

#[test]
fn try_parse_takes_one_message() {
    let mut s = Session::new();
    s.feed(&signal(1, "A"));
    s.feed(&signal(2, "B"));
    assert_eq!(s.try_parse().unwrap().unwrap().serial, 1);
    assert_eq!(s.try_parse().unwrap().unwrap().serial, 2);
    assert!(s.try_parse().unwrap().is_none());
}

#[test]
fn authentication() {
    assert_eq!(hex_uid(1000), "31303030");
    assert_eq!(hex_uid(0), "30");
    assert_eq!(Handshake::External.line(1000), "\0AUTH EXTERNAL 31303030\r\n");
    assert_eq!(Handshake::Anonymous.line(1000), "AUTH ANONYMOUS\r\n");
    assert_eq!(Handshake::Begin.line(1000), "BEGIN\r\n");
    assert_eq!(Handshake::External.next("OK 1234").unwrap(), Handshake::Begin);
    assert_eq!(Handshake::External.next("REJECTED").unwrap(), Handshake::Anonymous);
    assert_eq!(Handshake::Anonymous.next("OK").unwrap(), Handshake::Begin);
    assert_eq!(
        Handshake::Anonymous.next("REJECTED x").unwrap_err().text(),
        "认证失败: 服务端拒绝认证: REJECTED x"
    );
    assert_eq!(reply_line(b" OK abc\r"), "OK abc");
    assert_eq!(reply_line(&[0xff]), "\u{fffd}");
}

#[test]
fn answers_to_hello_and_get_all() {
    assert_eq!(unique_name_in(&vec![vstr(":1.5")]), Some(":1.5".to_string()));
    assert_eq!(unique_name_in(&vec![Value::ObjectPath("/x".into())]), None);
    assert_eq!(unique_name_in(&vec![]), None);
    let body = vec![Value::Dict(
        "s".into(),
        "v".into(),
        vec![
            (vstr("a"), vvar(vvar(Value::Bool(true)))),
            (Value::Byte(1), vvar(Value::Byte(2))),
            (vstr("b"), Value::Uint32(3)),
        ],
    )];
    assert_eq!(
        properties_in(&body).unwrap(),
        vec![("a".to_string(), Value::Bool(true)), ("b".to_string(), Value::Uint32(3))]
    );
    assert!(properties_in(&vec![]).is_none());
    assert!(properties_in(&vec![vstr("x")]).is_none());
}

#[test]
fn timeout_texts() {
    assert_eq!(call_timed_out("i", "M").text(), "超时: i.M 调用超时");
    assert_eq!(nothing_arrived("i", "M").text(), "超时: i.M 等待应答时无数据");
}
