use kdeconnect_bridge::dbus::address::{
    current_uid, hex_val, path_of_address, percent_bytes, percent_decode, session_bus_path,
};
use kdeconnect_bridge::Error;

/// The bus path for an address given on the command line.
fn path(address: &str) -> String {
    session_bus_path(Some(address), None, Ok(1000), false).unwrap()
}

#[test]
fn uid_is_readable() {
    let status = "Name:\tbridge\nUmask:\t0022\nUid:\t1000\t1001\t1002\t1003\nGid:\t5\t5\t5\t5\n";
    let uid = current_uid(status).unwrap();
    assert!(uid > 0);
    assert_eq!(uid, 1001);
}

#[test]
fn uid_errors() {
    assert_eq!(
        current_uid("Gid:\t5\n").unwrap_err().text(),
        "协议错误: /proc/self/status 中找不到 Uid"
    );
    assert_eq!(
        current_uid("Uid:\t5\tx\n").unwrap_err().text(),
        "协议错误: Uid 字段无法解析"
    );
    assert_eq!(
        current_uid("Uid:\t5\t4294967296\n").unwrap_err().text(),
        "协议错误: Uid 字段无法解析"
    );
    // a line without a second field is passed over
    assert_eq!(current_uid("Uid: 5\nUid:  6\t 7").unwrap(), 7);
    assert_eq!(current_uid("Uid: 0 4294967295").unwrap(), u32::MAX);
}

#[test]
fn parse_address_variants() {
    assert_eq!(path("unix:path=/run/user/1000/bus"), "/run/user/1000/bus");
    assert_eq!(path("/tmp/mybus"), "/tmp/mybus");
    assert_eq!(
        path("unix:path=/a/b,guid=x;unix:abstract=/tmp/c"),
        "/a/b"
    );
}

#[test]
fn percent_decoding() {
    assert_eq!(percent_decode("/run/user/1000/bus"), "/run/user/1000/bus");
    assert_eq!(percent_decode("/tmp/a%20b/bus"), "/tmp/a b/bus");
}

#[test]
fn percent_decoding_edges() {
    assert_eq!(percent_decode("%"), "%");
    assert_eq!(percent_decode("%4"), "%4");
    assert_eq!(percent_decode("%41"), "A");
    assert_eq!(percent_decode("%zz%4A"), "%zzJ");
    assert_eq!(percent_decode("%e4%b8%96界"), "世界");
    // bytes that are not UTF-8 are replaced
    assert_eq!(percent_decode("%ff"), "\u{fffd}");
    assert_eq!(percent_bytes(b"a%25b"), b"a%b");
    assert_eq!(hex_val(b'f'), Some(15));
    assert_eq!(hex_val(b'F'), Some(15));
    assert_eq!(hex_val(b'g'), None);
}

#[test]
fn later_path_settings_win() {
    assert_eq!(path_of_address("unix:path=/a,path=/b"), Some("/b".to_string()));
    assert_eq!(
        path_of_address("tcp:host=x; unix:guid=1 ; unix:path=/c%20d"),
        Some("/c d".to_string())
    );
    assert_eq!(path_of_address("unix:abstract=/tmp/x"), None);
    assert_eq!(path_of_address(""), None);
}

#[test]
fn where_the_bus_is() {
    assert_eq!(
        session_bus_path(None, Some("unix:path=/e"), Ok(1), true).unwrap(),
        "/e"
    );
    assert_eq!(
        session_bus_path(Some("/o"), Some("unix:path=/e"), Ok(1), true).unwrap(),
        "/o"
    );
    assert_eq!(
        session_bus_path(None, None, Ok(1), true).unwrap_err().text(),
        "配置错误: 未设置 DBUS_SESSION_BUS_ADDRESS，可用 --bus 指定套接字路径"
    );
    assert_eq!(
        session_bus_path(None, Some("unix:abstract=x"), Ok(42), true).unwrap(),
        "/run/user/42/bus"
    );
    let e = session_bus_path(None, Some("unix:abstract=x"), Ok(42), false).unwrap_err();
    assert!(e.text().ends_with("请用 --bus 指定，例如 --bus /run/user/42/bus"));
    let e = session_bus_path(None, Some(""), Err(Error::Protocol("no".into())), true).unwrap_err();
    assert_eq!(e.text(), "协议错误: no");
}
