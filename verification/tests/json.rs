use kdeconnect_bridge::json;
use kdeconnect_bridge::json::{parse, Json};

#[test]
fn parse_object() {
    let v = parse(r#"{"apps": {"WeChat": "/a/b.ogg"}, "default": ""}"#).unwrap();
    let apps = v.get("apps").unwrap();
    assert_eq!(apps.get("WeChat").unwrap().as_str(), Some("/a/b.ogg"));
    assert_eq!(v.get("default").unwrap().as_str(), Some(""));
}

/// The number that a value stands for.
fn number(v: &Json) -> Option<f64> {
    v.as_f64().map(|s| s.parse().unwrap())
}

#[test]
fn parse_scalars_and_arrays() {
    let v = parse(r#"[1, -2.5, true, false, null, "hi", [], {}]"#).unwrap();
    let items = v.as_array().unwrap();
    assert_eq!(number(&items[0]), Some(1.0));
    assert_eq!(number(&items[1]), Some(-2.5));
    assert_eq!(items[2].as_bool(), Some(true));
    assert_eq!(items[3].as_bool(), Some(false));
    assert!(matches!(items[4], Json::Null));
    assert_eq!(items[5].as_str(), Some("hi"));
}

#[test]
fn parse_escapes() {
    let v = parse(r#"{"a": "line\nbreak \"q\" é"}"#).unwrap();
    assert_eq!(
        v.get("a").unwrap().as_str(),
        Some("line\nbreak \"q\" é")
    );
}

#[test]
fn reject_invalid() {
    assert!(parse(r#"{"a": }"#).is_err());
    assert!(parse(r#"{"a" 1}"#).is_err());
    assert!(parse(r#"{"a": 1,}"#).is_err());
    assert!(parse("").is_err());
}

#[test]
fn roundtrip() {
    let src = r#"{"apps": {"WeChat": "/x.ogg"}, "default": ""}"#;
    let v = parse(src).unwrap();
    let text = json::stringify(&v);
    assert_eq!(parse(&text).unwrap(), v);
}

#[test]
fn written_form() {
    let v = parse(r#"{"a":[1,{"b":null}],"c":[],"d":{},"e":"x"}"#).unwrap();
    assert_eq!(
        json::stringify(&v),
        "{\n  \"a\": [\n    1,\n    {\n      \"b\": null\n    }\n  ],\n  \"c\": [],\n  \"d\": {},\n  \"e\": \"x\"\n}"
    );
    assert_eq!(parse(&json::stringify(&v)).unwrap(), v);
}

#[test]
fn strings_are_quoted_and_read_back() {
    assert_eq!(json::quote("a\"b\\c\n\r\t\u{1}\u{1f}é🎧/"), "\"a\\\"b\\\\c\\n\\r\\t\\u0001\\u001fé🎧/\"");
    let all: String = (0u32..0x300).filter_map(char::from_u32).collect();
    let v = Json::String(all.clone());
    assert_eq!(parse(&json::stringify(&v)).unwrap(), v);
}

fn error(s: &str) -> String {
    parse(s).unwrap_err().text()
}

#[test]
fn error_texts() {
    assert_eq!(error(""), "配置错误: JSON 意外结束");
    assert_eq!(error("[1"), "配置错误: JSON 意外结束");
    assert_eq!(error("{\"a\""), "配置错误: JSON 意外结束");
    assert_eq!(error("\"abc"), "配置错误: JSON 意外结束");
    assert_eq!(error("tru"), "配置错误: 期望 true，实际位置 0 处内容不符");
    assert_eq!(error("1 x"), "配置错误: JSON 结尾有多余内容（位置 2）");
    // positions are counted in bytes
    assert_eq!(error("\"世界\" x"), "配置错误: JSON 结尾有多余内容（位置 9）");
    assert_eq!(error("[1 2]"), "配置错误: 数组缺少 ',' 或 ']'（位置 3）");
    assert_eq!(error("{\"a\" 1}"), "配置错误: 对象缺少 ':'（位置 5）");
    assert_eq!(error("{\"a\":1 2}"), "配置错误: 对象缺少 ',' 或 '}'（位置 7）");
    assert_eq!(error("{a"), "配置错误: 期望 \"，实际位置 1 处内容不符");
    assert_eq!(error("]"), "配置错误: 无法解析数字: ");
    assert_eq!(error("1-2"), "配置错误: 无法解析数字: 1-2");
    assert_eq!(error("\"\\x\""), "配置错误: 非法转义 \\x");
    assert_eq!(error("\"\\é\""), "配置错误: 非法转义 \\Ã");
    assert_eq!(error("\"\\u12"), "配置错误: \\u 转义不完整");
    assert_eq!(error("\"\\u12g4\""), "配置错误: \\u12g4 不是十六进制");
    assert_eq!(error("\"\\u123世\""), "配置错误: \\u 转义非法");
    assert_eq!(error("\"\\u12é\""), "配置错误: \\u12é 不是十六进制");
}

#[test]
fn unicode_escapes() {
    let s = |t: &str| parse(t).unwrap().as_str().unwrap().to_string();
    assert_eq!(s(r#""\u0041\u4e16\u00E9""#), "A世é");
    assert_eq!(s(r#""\u+041""#), "A");
    // half of a pair stands for no character
    assert_eq!(s(r#""\ud83d""#), "\u{fffd}");
    assert_eq!(s(r#""\/\b\f""#), "/\u{8}\u{c}");
}

#[test]
fn numerals() {
    for t in ["0", "-0", "+1", "1.", ".5", "-1.5e3", "1E-2", "007", "1e+5"] {
        let v = parse(t).unwrap();
        assert_eq!(v.as_f64(), Some(t));
        assert!(t.parse::<f64>().is_ok(), "{t}");
    }
    for t in [".", "-", "e5", "1e", "1e+", "--1", "1.2.3", "+-1", ".e1", "1e5.0"] {
        assert!(parse(t).is_err(), "{t}");
        assert!(t.parse::<f64>().is_err(), "{t}");
    }
}

#[test]
fn entries_of_objects() {
    let mut o = Json::object();
    o.insert("a", Json::Bool(true));
    o.insert("b", Json::Null);
    o.insert("a", Json::Bool(false));
    assert_eq!(json::stringify(&o), "{\n  \"a\": false,\n  \"b\": null\n}");
    assert_eq!(o.get("a").unwrap().as_bool(), Some(false));
    assert!(o.get("c").is_none());
    assert_eq!(o.as_object().unwrap().len(), 2);
    let mut n = Json::Null;
    n.insert("a", Json::Null);
    assert_eq!(n, Json::Null);
    assert!(n.get("a").is_none());
    assert!(n.as_object().is_none());
    assert!(n.as_str().is_none() && n.as_f64().is_none() && n.as_bool().is_none());
    assert!(n.as_array().is_none());
    // of two entries with one key the first counts
    let v = parse(r#"{"k": 1, "k": 2}"#).unwrap();
    assert_eq!(v.get("k").unwrap().as_f64(), Some("1"));
}
