use kdeconnect_bridge::cli::{Args, Task, HELP};
use kdeconnect_bridge::Error;

fn parse(args: &[&str]) -> Result<Args, Error> {
    Args::parse(args.iter().map(|s| s.to_string()).collect())
}

fn number(s: &str) -> f64 {
    s.parse().unwrap()
}

#[test]
fn defaults() {
    let a = parse(&[]).unwrap();
    assert_eq!(number(&a.interval), 1.0);
    assert_eq!(number(&a.grace), 2.0);
    assert_eq!(number(&a.timeout_s), 10.0);
    assert_eq!(a.notifier, "cli");
    assert!(!a.all);
}

#[test]
fn space_and_equals_forms() {
    let a = parse(&["--app", "WeChat", "--interval=2.5", "--all"]).unwrap();
    assert_eq!(a.app, vec!["WeChat".to_string()]);
    assert_eq!(number(&a.interval), 2.5);
    assert!(a.all);
}

#[test]
fn repeated_flags() {
    let a = parse(&[
        "--app",
        "WeChat",
        "--app",
        "Telegram",
        "--set-sound",
        "WeChat=/a.ogg",
        "--set-sound",
        "default=",
    ])
    .unwrap();
    assert_eq!(a.app.len(), 2);
    assert_eq!(a.set_sound.len(), 2);
}

#[test]
fn validation() {
    assert!(parse(&["--interval", "0"]).is_err());
    assert!(parse(&["--notifier", "x"]).is_err());
    assert!(parse(&["--app"]).is_err());
    assert!(parse(&["--bogus"]).is_err());
    assert!(parse(&["positional"]).is_err());
}

#[test]
fn refusals() {
    let error = |a: &[&str]| parse(a).unwrap_err().text();
    assert_eq!(error(&["--interval", "-1"]), "参数错误: --interval 必须大于 0");
    assert_eq!(error(&["--interval", "1e-400"]), "参数错误: --interval 必须大于 0");
    assert_eq!(error(&["--grace=-0.5"]), "参数错误: --grace 不能为负");
    assert_eq!(error(&["--notifier", "x"]), "参数错误: --notifier 只能是 cli 或 native");
    assert_eq!(error(&["--app"]), "参数错误: --app 缺少取值");
    assert_eq!(error(&["--timeout", "ten"]), "参数错误: --timeout 不是数字: ten");
    assert_eq!(error(&["--bogus=1"]), "参数错误: 未知参数 --bogus");
    assert_eq!(error(&["-x"]), "参数错误: 未知参数 -x");
    assert_eq!(error(&["positional"]), "参数错误: 意外的位置参数 positional");
    assert_eq!(error(&[""]), "参数错误: 意外的位置参数 ");
}

#[test]
fn every_option() {
    let a = parse(&[
        "-h",
        "--no-sound",
        "--list-sounds",
        "--dump",
        "--verbose",
        "--device=d",
        "--sound",
        "--all",
        "--notifier=native",
        "--bus=unix:path=/x",
        "--timeout",
        "inf",
        "--grace=0",
    ])
    .unwrap();
    assert!(a.help && a.no_sound && a.list_sounds && a.dump && a.verbose);
    assert_eq!(a.device, vec!["d".to_string()]);
    // the value of an option may look like an option
    assert_eq!(a.sound.as_deref(), Some("--all"));
    assert!(!a.all);
    assert_eq!(a.notifier, "native");
    assert_eq!(a.bus.as_deref(), Some("unix:path=/x"));
    assert_eq!(a.timeout_s, "inf");
    assert!(parse(&["--help"]).unwrap().help);
}

#[test]
fn a_value_belongs_to_its_own_option() {
    let error = |a: &[&str]| parse(a).unwrap_err().text();
    assert_eq!(error(&["--all=1", "--app"]), "参数错误: --app 缺少取值");
    let a = parse(&["--all=x", "--app", "y"]).unwrap();
    assert!(a.all);
    assert_eq!(a.app, vec!["y".to_string()]);
    assert_eq!(parse(&["--app="]).unwrap().app, vec!["".to_string()]);
    assert_eq!(parse(&["--app", "--all=1"]).unwrap().app, vec!["--all=1".to_string()]);
}

#[test]
fn tasks() {
    let task = |a: &[&str]| parse(a).unwrap().task();
    assert_eq!(task(&[]), Task::Serve);
    assert_eq!(task(&["--dump"]), Task::Dump);
    // listing the sounds saves nothing
    assert_eq!(task(&["--list-sounds", "--dump"]), Task::Sounds { save: false });
    assert_eq!(task(&["--set-sound", "A=/a"]), Task::Sounds { save: true });
    assert_eq!(task(&["--set-sound", "A=/a", "--list-sounds"]), Task::Sounds { save: true });
    assert_eq!(task(&["--help", "--set-sound", "A=/a"]), Task::Help);
}

#[test]
fn the_first_refusal_counts() {
    let error = |a: &[&str]| parse(a).unwrap_err().text();
    let all = ["--notifier=x", "--grace=-1", "--interval=0"];
    assert_eq!(error(&all), "参数错误: --interval 必须大于 0");
    assert_eq!(error(&all[..2]), "参数错误: --grace 不能为负");
    assert_eq!(error(&all[..1]), "参数错误: --notifier 只能是 cli 或 native");
    assert!(parse(&["--notifier=native"]).is_ok());
}

#[test]
fn numbers_compare_with_zero_as_they_are_read() {
    // half of the smallest number above zero, in all its digits, is read as zero
    let mut half = vec![1u8];
    for _ in 0..1075 {
        let mut carry = 0;
        for d in half.iter_mut() {
            let x = *d * 5 + carry;
            *d = x % 10;
            carry = x / 10;
        }
        if carry > 0 {
            half.push(carry);
        }
    }
    let half: String = half.iter().rev().map(|d| (b'0' + d) as char).collect();
    let mut texts: Vec<String> = [
        "0", "-0", "+0", "0.0", ".0", "0.", "000e5", "-0e-9", "0e99999999999999999999999", "1",
        "0.1", "1e-5", "-1e-5", "00.001", "1e-323", "-1e-323", "3e-324", "-3e-324", "2e-324",
        "-2e-324", "2.4703282292062327e-324", "2.4703282292062328e-324", "1e-400", "-1e-400",
        "1e-99999999999999999999999999999999999999999999", "1e99999999999999999999999999",
        "-1e99999999999999999999999999", "inf", "-inf", "-Infinity", "nan", "-nan", "-NaN", "5e-324",
        "100000e-328", "100000e-329", "0.00001e-319", "0.00001e-318",
    ]
    .iter()
    .map(|s| s.to_string())
    .collect();
    for sign in ["", "-"] {
        texts.push(format!("{sign}{half}e-1075"));
        texts.push(format!("{sign}{half}.0e-1075"));
        texts.push(format!("{sign}{half}1e-1076"));
        texts.push(format!("{sign}0.{}{}", "0".repeat(1075 - half.len()), half));
        texts.push(format!("{sign}0.{}1", "0".repeat(322)));
        texts.push(format!("{sign}0.{}1", "0".repeat(323)));
        texts.push(format!("{sign}1{}e-400", "0".repeat(90)));
    }
    for t in &texts {
        let n: f64 = number(t);
        assert_eq!(parse(&["--interval", t]).is_err(), n <= 0.0, "interval {t}");
        assert_eq!(parse(&["--grace", t]).is_err(), n < 0.0, "grace {t}");
    }
}

#[test]
fn both_forms_mean_the_same() {
    for (name, v) in [("--sound", "a=b"), ("--grace", "3"), ("--notifier", "native"), ("--bus", "")] {
        let joined = format!("{name}={v}");
        let one = parse(&["--all", "--app", "x", &joined, "--device", "d"]).unwrap();
        let two = parse(&["--all", "--app", "x", name, v, "--device", "d"]).unwrap();
        assert_eq!(format!("{one:?}"), format!("{two:?}"));
    }
}

#[test]
fn number_texts() {
    for t in ["inf", "-INF", "+Infinity", "NaN", "1e3", ".5"] {
        assert!(Args::parse(vec!["--timeout".into(), t.into()]).is_ok(), "{t}");
        assert!(t.parse::<f64>().is_ok());
    }
    for t in ["", "in", "infinit", "0x1", "1_0", " 1"] {
        assert!(Args::parse(vec!["--timeout".into(), t.into()]).is_err(), "{t}");
        assert!(t.parse::<f64>().is_err());
    }
}

#[test]
fn help_names_the_options() {
    for o in ["--all", "--app", "--device", "--interval", "--grace", "--timeout", "--notifier",
        "--bus", "--verbose", "--help", "--no-sound", "--sound", "--set-sound", "--list-sounds",
        "--dump"] {
        assert!(HELP.contains(o), "{o}");
    }
}
