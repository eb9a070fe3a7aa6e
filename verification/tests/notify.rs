use kdeconnect_bridge::dbus::value::{vstr, Value};
use kdeconnect_bridge::notify::{
    backend, launch_error, player, run_result, Backend, NativeNotifier, NotifySend, Options,
    Paplay, Player, Popup, Request, Silent, Sounds,
};
use kdeconnect_bridge::Error;

fn options(icon: Option<&str>) -> Options<'_> {
    Options { app_name: "WeChat", timeout_ms: 2500, urgency: "low", icon }
}

#[test]
fn notify_send_arguments() {
    let run = |icon| match NotifySend.show("sum", "body", options(icon)) {
        Request::Run { program, arguments } => (program, arguments.join("|")),
        other => panic!("{other:?}"),
    };
    let base = "--app-name|WeChat|--urgency|low|--expire-time|2500|";
    assert_eq!(run(None), ("notify-send".into(), format!("{base}sum|body")));
    assert_eq!(run(Some("")), ("notify-send".into(), format!("{base}sum|body")));
    assert_eq!(
        run(Some("/i.png")),
        ("notify-send".into(), format!("{base}--icon|/i.png|sum|body"))
    );
}

#[test]
fn native_call() {
    match NativeNotifier.show("sum", "body", options(Some("/i.png"))) {
        Request::Call { destination, path, interface, member, args } => {
            assert_eq!(destination, "org.freedesktop.Notifications");
            assert_eq!(path, "/org/freedesktop/Notifications");
            assert_eq!(interface, "org.freedesktop.Notifications");
            assert_eq!(member, "Notify");
            assert_eq!(
                args,
                vec![
                    vstr("WeChat"),
                    Value::Uint32(0),
                    vstr("/i.png"),
                    vstr("sum"),
                    vstr("body"),
                    Value::Array("s".into(), vec![]),
                    Value::Dict("s".into(), "v".into(), vec![]),
                    Value::Int32(2500),
                ]
            );
        }
        other => panic!("{other:?}"),
    }
}

#[test]
fn players() {
    assert_eq!(
        Paplay.play("/a.ogg"),
        Request::Run { program: "paplay".into(), arguments: vec!["/a.ogg".into()] }
    );
    assert_eq!(Silent.play("/a.ogg"), Request::Nothing);
    assert_eq!(NotifySend.name(), "notify-send");
    assert_eq!(NativeNotifier.name(), "native-dbus");
    assert_eq!(Paplay.name(), "paplay");
    assert_eq!(Silent.name(), "silent");
}

#[test]
fn programs_that_fail() {
    assert!(run_result("paplay", true, Some(0)).is_ok());
    assert_eq!(
        run_result("paplay", false, Some(-1)).unwrap_err().text(),
        "配置错误: paplay 退出码 Some(-1)"
    );
    assert_eq!(
        run_result("notify-send", false, None).unwrap_err().text(),
        "配置错误: notify-send 退出码 None"
    );
    assert_eq!(launch_error("paplay", "gone").text(), "配置错误: 无法执行 paplay: gone");
}

#[test]
fn error_lines() {
    assert_eq!(Error::Io("x".into()).text(), "IO 错误: x");
    assert_eq!(Error::Auth("x".into()).text(), "认证失败: x");
    assert_eq!(
        Error::Dbus { name: "n".into(), message: "m".into() }.text(),
        "D-Bus 错误 n: m"
    );
    assert_eq!(Error::Timeout("x".into()).text(), "超时: x");
    assert_eq!(Error::Config("x".into()).text(), "配置错误: x");
    assert_eq!(Error::Cli("x".into()).text(), "参数错误: x");
}

#[test]
fn choice_of_backends() {
    assert_eq!(backend("native", true), Backend::Native);
    assert_eq!(backend("native", false), Backend::NotifySend);
    assert_eq!(backend("cli", true), Backend::NotifySend);
    assert_eq!(player(true), Sounds::Silent);
    assert_eq!(player(false), Sounds::Paplay);
}
