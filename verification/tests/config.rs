use kdeconnect_bridge::config::{apply_set_sound, Config, Rule};
use kdeconnect_bridge::json::parse;

/// The seconds in a rule.
fn timeout(r: &Rule) -> Option<f64> {
    r.timeout_s.as_ref().map(|s| s.parse().unwrap())
}

fn with_sound(path: &str) -> Rule {
    Rule {
        sound: Some(path.into()),
        ..Default::default()
    }
}

#[test]
fn legacy_format_compat() {
    let cfg = Config::load(Some(r#"{"apps": {"WeChat": "/snd/mine.ogg"}, "default": ""}"#)).unwrap();
    assert_eq!(
        cfg.rule_for("WeChat").sound.as_deref(),
        Some("/snd/mine.ogg")
    );
    assert_eq!(cfg.rule_for("Telegram").sound, None);
}

#[test]
fn extended_object_format() {
    let cfg = Config::load(Some(
        r#"{"apps":{"WeChat":{"sound":"/a.ogg","timeout":15,"urgency":"critical","enabled":false}},"default":{"sound":"/d.ogg","timeout":5}}"#,
    ))
    .unwrap();
    let r = cfg.rule_for("WeChat");
    assert_eq!(r.sound.as_deref(), Some("/a.ogg"));
    assert_eq!(timeout(&r), Some(15.0));
    assert_eq!(r.urgency.as_deref(), Some("critical"));
    assert!(!r.enabled);
    let d = cfg.rule_for("Other");
    assert_eq!(d.sound.as_deref(), Some("/d.ogg"));
    assert_eq!(timeout(&d), Some(5.0));
}

#[test]
fn case_insensitive_lookup() {
    let mut cfg = Config::default();
    cfg.apps.insert("WeChat".into(), with_sound("/a.ogg"));
    assert_eq!(cfg.rule_for("wechat").sound.as_deref(), Some("/a.ogg"));
    assert_eq!(cfg.rule_for("WECHAT").sound.as_deref(), Some("/a.ogg"));
}

#[test]
fn save_then_load_roundtrip() {
    let mut cfg = Config::default();
    cfg.apps.insert("WeChat".into(), with_sound("/x.ogg"));
    let text = cfg.save();
    let loaded = Config::load(Some(&text)).unwrap();
    assert_eq!(loaded.rule_for("WeChat").sound.as_deref(), Some("/x.ogg"));
    assert!(text.contains("\"WeChat\": \"/x.ogg\""));
}

#[test]
fn missing_file_is_default() {
    let cfg = Config::load(None).unwrap();
    assert!(cfg.apps.is_empty());
    assert_eq!(cfg.default.sound, None);
}

#[test]
fn blank_file_is_default() {
    assert_eq!(Config::load(Some(" \n\u{3000}")).unwrap(), Config::default());
}

#[test]
fn whole_configurations_are_read_back() {
    let mut cfg = Config::default();
    cfg.default.sound = Some("/d.ogg".into());
    cfg.default.timeout_s = Some("2.5".into());
    let mut r = with_sound("/b.ogg");
    r.enabled = false;
    r.urgency = Some("low".into());
    cfg.apps.insert("微信".into(), r);
    cfg.apps.insert("B".into(), with_sound(""));
    cfg.apps.insert("C".into(), Rule::default());
    cfg.apps.insert("a".into(), with_sound("/a.ogg"));
    let text = cfg.save();
    assert_eq!(
        text,
        "{\n  \"apps\": {\n    \"B\": \"\",\n    \"C\": {},\n    \"a\": \"/a.ogg\",\n    \"微信\": {\n      \"sound\": \"/b.ogg\",\n      \"urgency\": \"low\",\n      \"enabled\": false\n    }\n  },\n  \"default\": {\n    \"sound\": \"/d.ogg\",\n    \"timeout\": 2.5\n  }\n}\n"
    );
    let back = Config::load(Some(&text)).unwrap();
    assert_eq!(back.default, cfg.default);
    assert_eq!(back.apps.len(), 4);
    for k in ["微信", "B", "C", "a"] {
        assert_eq!(back.apps.get(k), cfg.apps.get(k));
    }
    // saving again changes nothing
    assert_eq!(back.save(), text);
}

#[test]
fn the_order_of_rules_does_not_matter() {
    let mut a = Config::default();
    let mut b = Config::default();
    for k in ["x", "Y", "é", "微信", "xy"] {
        a.apps.insert(k.into(), with_sound(k));
    }
    for k in ["xy", "微信", "x", "é", "Y"] {
        b.apps.insert(k.into(), with_sound(k));
    }
    assert_eq!(a.save(), b.save());
    assert_eq!(a.display(), b.display());
}

#[test]
fn shown_rules() {
    let mut cfg = Config::default();
    cfg.apps.insert("Z".into(), with_sound("/z.ogg"));
    let mut off = Rule::default();
    off.enabled = false;
    cfg.apps.insert("A".into(), off);
    assert_eq!(
        cfg.display(),
        "当前音效规则：\n  default: (静音)\n  A: (静音)  [已禁用]\n  Z: /z.ogg\n"
    );
}

#[test]
fn app_rule_over_default_rule() {
    let cfg = Config::load(Some(
        r#"{"default": {"sound": "/d", "timeout": 5, "urgency": "low", "enabled": false},
            "apps": {"A": {"timeout": 7}, "a": "/lower"}}"#,
    ))
    .unwrap();
    let r = cfg.rule_for("A");
    assert_eq!(r.sound.as_deref(), Some("/d"));
    assert_eq!(timeout(&r), Some(7.0));
    assert_eq!(r.urgency.as_deref(), Some("low"));
    assert!(r.enabled);
    // the exact name first
    assert_eq!(cfg.rule_for("a").sound.as_deref(), Some("/lower"));
    assert!(!cfg.rule_for("b").enabled);
}

#[test]
fn an_empty_sound_mutes() {
    let cfg = Config::load(Some(r#"{"apps": {"WeChat": "", "T": {"sound": "", "timeout": 3}, "U": {"timeout": 3}}, "default": "/d.ogg"}"#)).unwrap();
    assert_eq!(cfg.rule_for("WeChat").sound, None);
    assert_eq!(cfg.rule_for("wechat").sound, None);
    assert_eq!(cfg.rule_for("T").sound, None);
    assert_eq!(cfg.rule_for("U").sound.as_deref(), Some("/d.ogg"));
    assert_eq!(cfg.rule_for("Other").sound.as_deref(), Some("/d.ogg"));
    assert!(cfg.mutes("WeChat") && cfg.mutes("T"));
    assert!(!cfg.mutes("U") && !cfg.mutes("Other"));
    // and still does after saving
    let back = Config::load(Some(&cfg.save())).unwrap();
    assert_eq!(back.rule_for("WeChat").sound, None);
    assert_eq!(back.rule_for("U").sound.as_deref(), Some("/d.ogg"));
    assert!(!Config::load(Some(r#"{"default": ""}"#)).unwrap().mutes("A"));
}

#[test]
fn refused_configurations() {
    let error = |t: &str| Config::load(Some(t)).unwrap_err().text();
    assert!(error("{ // no comments\n}").starts_with("配置错误: "));
    assert_eq!(error(r#"{"default": null}"#), "配置错误: 规则格式无法识别: Null");
    assert_eq!(
        error(r#"{"apps": {"A": "x", "B": [true, "a\"b", {"k": [], "l": {}}, null]}}"#),
        r#"配置错误: 规则格式无法识别: Array([Bool(true), String("a\"b"), Object([("k", Array([])), ("l", Object([]))]), Null])"#
    );
    assert_eq!(error(r#"{"default": 1.5}"#), "配置错误: 规则格式无法识别: Number(1.5)");
    // what is no object holds no rules
    assert_eq!(Config::load(Some(r#"{"apps": 3}"#)).unwrap(), Config::default());
    // of two rules for one application the last counts
    let cfg = Config::load(Some(r#"{"apps": {"A": "x", "B": "y", "A": "z"}}"#)).unwrap();
    assert_eq!(cfg.rule_for("A").sound.as_deref(), Some("z"));
    assert_eq!(cfg.apps.len(), 2);
}

#[test]
fn rules_and_json() {
    let r = Rule::from_json(&parse(r#"{"sound": 3, "timeout": "x", "enabled": 1}"#).unwrap()).unwrap();
    assert_eq!(r, Rule::default());
    assert_eq!(Rule::from_json(&Rule::default().to_json()).unwrap(), Rule::default());
    let mut r = with_sound("/a");
    r.timeout_s = Some("1e3".into());
    assert_eq!(Rule::from_json(&r.to_json()).unwrap(), r);
    assert_eq!(r.clone(), r);
}

#[test]
fn setting_sounds() {
    let mut cfg = Config::default();
    assert_eq!(apply_set_sound(&mut cfg, " WeChat = /a b.ogg ").unwrap(), "WeChat -> /a b.ogg");
    assert_eq!(cfg.rule_for("WeChat").sound.as_deref(), Some("/a b.ogg"));
    assert_eq!(apply_set_sound(&mut cfg, "Default=/d").unwrap(), "default -> /d");
    assert_eq!(cfg.default.sound.as_deref(), Some("/d"));
    assert_eq!(apply_set_sound(&mut cfg, "default=").unwrap(), "default -> (静音)");
    assert_eq!(cfg.default.sound, None);
    let mut r = Rule::default();
    r.timeout_s = Some("3".into());
    cfg.apps.insert("T".into(), r);
    apply_set_sound(&mut cfg, "T=/t=1").unwrap();
    assert_eq!(cfg.apps.get("T").unwrap().sound.as_deref(), Some("/t=1"));
    assert_eq!(cfg.apps.get("T").unwrap().timeout_s.as_deref(), Some("3"));
    assert_eq!(apply_set_sound(&mut cfg, "WeChat=").unwrap(), "已删除规则: WeChat");
    assert!(cfg.apps.get("WeChat").is_none());
    assert_eq!(cfg.apps.len(), 1);
    assert_eq!(
        apply_set_sound(&mut cfg, "x").unwrap_err().text(),
        "参数错误: --set-sound 需要 App=路径 形式，收到: x"
    );
    assert_eq!(
        apply_set_sound(&mut cfg, " =x").unwrap_err().text(),
        "参数错误: --set-sound 的 App 名不能为空"
    );
}

#[test]
fn configuration_paths() {
    assert_eq!(Config::default_path(Some("/c.json"), Some("/h")), "/c.json");
    assert_eq!(
        Config::default_path(None, Some("/home/u")),
        "/home/u/.config/kdeconnect-popup-bridge/sounds.json"
    );
    assert_eq!(
        Config::default_path(None, Some("/home/u/")),
        "/home/u/.config/kdeconnect-popup-bridge/sounds.json"
    );
    assert_eq!(
        Config::default_path(None, None),
        "/tmp/.config/kdeconnect-popup-bridge/sounds.json"
    );
    assert_eq!(
        Config::default_path(None, Some("")),
        ".config/kdeconnect-popup-bridge/sounds.json"
    );
}
