use kdeconnect_bridge::dbus::signature::{
    alignment_of, array_elem, dict_types, is_single, read_one, split_all, struct_fields,
};

#[test]
fn read_one_basic() {
    assert_eq!(read_one("s").unwrap(), ("s", ""));
    assert_eq!(read_one("si").unwrap(), ("s", "i"));
    assert_eq!(read_one("ias").unwrap(), ("i", "as"));
}

#[test]
fn read_one_nested() {
    assert_eq!(read_one("a{sv}").unwrap(), ("a{sv}", ""));
    assert_eq!(read_one("a{sv}s").unwrap(), ("a{sv}", "s"));
    assert_eq!(read_one("(yv)").unwrap(), ("(yv)", ""));
    assert_eq!(read_one("aa{si}u").unwrap(), ("aa{si}", "u"));
    assert_eq!(read_one("(a{sv}(ss))").unwrap(), ("(a{sv}(ss))", ""));
}

#[test]
fn reject_broken_signature() {
    assert!(read_one("a{sv").is_err());
    assert!(read_one("(ss").is_err());
    assert!(read_one("z").is_err());
    assert!(read_one("").is_err());
}

#[test]
fn helpers() {
    assert_eq!(dict_types("a{sv}").unwrap(), ("s", "v"));
    assert_eq!(dict_types("a{sa{sv}}").unwrap().1, "a{sv}");
    assert_eq!(array_elem("as").unwrap(), "s");
    assert_eq!(array_elem("a(yv)").unwrap(), "(yv)");
    assert_eq!(struct_fields("(yv)").unwrap(), vec!["y", "v"]);
    assert!(dict_types("as").is_err());
}

#[test]
fn alignments() {
    assert_eq!(alignment_of("y"), 1);
    assert_eq!(alignment_of("s"), 4);
    assert_eq!(alignment_of("x"), 8);
    assert_eq!(alignment_of("a{sv}"), 4);
    assert_eq!(alignment_of("(yv)"), 8);
}

#[test]
fn more_alignments() {
    assert_eq!(alignment_of(""), 1);
    assert_eq!(alignment_of("n"), 2);
    assert_eq!(alignment_of("g"), 1);
    assert_eq!(alignment_of("v"), 1);
    assert_eq!(alignment_of("{sv}"), 8);
}

#[test]
fn single_types() {
    for c in b"ybnqiuxtdsogv" {
        assert!(is_single(*c));
    }
    assert!(!is_single(b'a'));
    assert!(!is_single(b'('));
    assert!(!is_single(0xff));
}

#[test]
fn signature_error_texts() {
    let text = |s: &str| read_one(s).unwrap_err().text();
    assert_eq!(text(""), "协议错误: 签名意外结束");
    assert_eq!(text("a"), "协议错误: 签名意外结束");
    assert_eq!(text("a{sv"), "协议错误: 字典签名缺少 '}'");
    assert_eq!(text("(s"), "协议错误: 结构体签名缺少 ')'");
    assert_eq!(text("z"), "协议错误: 非法签名字符 'z'");
    // a character beyond ASCII is named by the first byte of its UTF-8 form
    assert_eq!(text("é"), "协议错误: 非法签名字符 'Ã'");
    assert_eq!(text("世"), "协议错误: 非法签名字符 'ä'");
    assert_eq!(text("🎧"), "协议错误: 非法签名字符 'ð'");
}

#[test]
fn split_parts_join_to_the_whole() {
    for s in ["", "s", "a{sv}as(yv)u", "((i)(ai))aay"] {
        let parts = split_all(s).unwrap();
        assert_eq!(parts.concat(), s);
        for p in parts {
            assert_eq!(read_one(p).unwrap(), (p, ""));
        }
    }
    assert!(split_all("sz").is_err());
}

#[test]
fn helper_errors() {
    assert_eq!(dict_types("as").unwrap_err().text(), "协议错误: 不是字典签名: as");
    assert_eq!(dict_types("a{vs}").unwrap_err().text(), "协议错误: 字典键必须是基本类型: v");
    assert_eq!(dict_types("a{ssi}").unwrap_err().text(), "协议错误: 字典签名多余内容: i");
    assert_eq!(array_elem("s").unwrap_err().text(), "协议错误: 不是数组签名: s");
    assert_eq!(array_elem("asi").unwrap_err().text(), "协议错误: 数组签名多余内容: i");
    assert_eq!(struct_fields("(s").unwrap_err().text(), "协议错误: 不是结构体签名: (s");
    assert_eq!(struct_fields("()").unwrap(), Vec::<&str>::new());
}
