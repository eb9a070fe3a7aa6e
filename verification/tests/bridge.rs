use kdeconnect_bridge::bridge::devices::{
    device_ids, notification_ids, notification_path, notifications_path,
};
use kdeconnect_bridge::bridge::{
    decide, detect_devices, device_from_path, next_turn, strip_title_prefix, Action, Backoff,
    Bridge, Dedup, DetectWait, Fingerprint, Outcome, Phase, Props, Reason, Report, Round, Settings,
    SignalStep, Sound, Turn, WaitNote, WaitStep, Waiting, DETECT_INTERVAL,
};
use kdeconnect_bridge::config::{Config, Rule};
use kdeconnect_bridge::dbus::value::{vstr, Value};
use kdeconnect_bridge::dbus::{Message, MessageType};
use std::time::Duration;

const SEC: u128 = 1_000_000_000;
const MS: u128 = 1_000_000;

fn secs(n: u64) -> u128 {
    Duration::from_secs(n).as_nanos()
}

fn millis(n: u64) -> u128 {
    Duration::from_millis(n).as_nanos()
}

#[test]
fn detect_wait_parsing() {
    assert_eq!(DetectWait::parse(""), DetectWait::Forever);
    assert_eq!(DetectWait::parse("forever"), DetectWait::Forever);
    assert_eq!(DetectWait::parse("Always"), DetectWait::Forever);
    assert_eq!(DetectWait::parse("-1"), DetectWait::Forever);
    assert_eq!(DetectWait::parse("0"), DetectWait::Once);
    assert_eq!(DetectWait::parse("never"), DetectWait::Once);
    assert_eq!(DetectWait::parse("None"), DetectWait::Once);
    assert_eq!(DetectWait::parse("60"), DetectWait::Limited(secs(60)));
    assert_eq!(DetectWait::parse("abc"), DetectWait::Forever);
}

#[test]
fn posted_without_all_only_sounds() {
    assert_eq!(decide(Reason::Posted, false, 0, secs(2)), Action::SoundOnly);
    assert_eq!(decide(Reason::Posted, true, 0, secs(2)), Action::Popup);
}

#[test]
fn grace_suppresses_first_update() {
    let grace = secs(2);
    assert_eq!(
        decide(Reason::Updated, false, millis(300), grace),
        Action::Skip
    );
    assert_eq!(
        decide(Reason::Updated, false, millis(300), grace),
        Action::Skip
    );
    assert_eq!(
        decide(Reason::PollUpdate, false, secs(3), grace),
        Action::Popup
    );
    assert_eq!(decide(Reason::Updated, true, 0, grace), Action::Skip);
}

fn print_of(ticker: &str, title: &str, text: &str) -> Fingerprint {
    Fingerprint {
        ticker: ticker.into(),
        title: title.into(),
        text: text.into(),
    }
}

#[test]
fn dedup_window() {
    let mut d = Dedup::new(secs(1));
    let k = print_of("a", "b", "c");
    let t0 = secs(100);
    assert!(d.allow(&k, t0));
    assert!(!d.allow(&k, t0));
    let k2 = print_of("x", "b", "c");
    assert!(d.allow(&k2, t0));
}

#[test]
fn dedup_zero_window_always_allows() {
    let mut d = Dedup::new(0);
    let k = print_of("a", "", "");
    let t = secs(5);
    assert!(d.allow(&k, t));
    assert!(d.allow(&k, t));
}

#[test]
fn dedup_allows_again_after_the_window() {
    let mut d = Dedup::new(secs(1));
    let k = print_of("a", "b", "c");
    assert!(d.allow(&k, secs(10)));
    assert!(!d.allow(&k, secs(10) + millis(999)));
    // a refused content does not start a new window
    assert!(d.allow(&k, secs(11)));
    assert!(!d.allow(&k, secs(11)));
    // a time before the last one counts as no time at all
    assert!(!d.allow(&k, secs(3)));
}

#[test]
fn dedup_forgets_old_contents() {
    let mut d = Dedup::new(secs(1000));
    let old = print_of("old", "", "");
    assert!(d.allow(&old, 0));
    for i in 0..255 {
        assert!(d.allow(&print_of(&format!("n{i}"), "", ""), secs(59)));
    }
    assert!(!d.allow(&old, secs(59)));
    assert!(d.allow(&print_of("one more", "", ""), secs(60)));
    // the first content was seen a minute ago and is forgotten now
    assert!(d.allow(&old, secs(60)));
    assert!(!d.allow(&print_of("n3", "", ""), secs(61)));
}

#[test]
fn device_id_from_path() {
    assert_eq!(
        device_from_path("/modules/kdeconnect/devices/abc123/notifications/0"),
        Some("abc123".into())
    );
    assert_eq!(
        device_from_path("/modules/kdeconnect/devices/abc123/notifications"),
        Some("abc123".into())
    );
    assert_eq!(device_from_path("/other/path"), None);
}

#[test]
fn more_device_paths() {
    assert_eq!(device_from_path("/modules/kdeconnect/devices/x"), Some("x".into()));
    assert_eq!(device_from_path("/modules/kdeconnect/devices/"), None);
    assert_eq!(device_from_path("/modules/kdeconnect/devices//n"), None);
    assert_eq!(device_from_path(&notifications_path("dev")), Some("dev".into()));
    assert_eq!(
        notification_path("dev", "7"),
        "/modules/kdeconnect/devices/dev/notifications/7"
    );
    assert_eq!(device_from_path(&notification_path("dev", "7")), Some("dev".into()));
}

#[test]
fn props_body_and_fingerprint() {
    let p = Props::from_entries(vec![
        ("appName".to_string(), Value::String("WeChat".into())),
        ("ticker".to_string(), Value::String("张三: 在吗".into())),
        ("title".to_string(), Value::String("张三".into())),
        ("text".to_string(), Value::String("在吗".into())),
        (
            "internalId".to_string(),
            Value::String("0|com.tencent.mm|-1|null|1000".into()),
        ),
        ("hasIcon".to_string(), Value::Bool(true)),
        ("iconPath".to_string(), Value::String("/tmp/icon.png".into())),
    ]);
    assert_eq!(p.app(), "WeChat");
    assert_eq!(p.summary(), "张三");
    assert_eq!(p.content(), "在吗");
    assert_eq!(p.icon(), Some("/tmp/icon.png"));
    assert_eq!(p.internal_id("fallback"), "0|com.tencent.mm|-1|null|1000");
    assert_eq!(p.fingerprint().ticker, "张三: 在吗");
}

#[test]
fn props_body_combines_ticker_and_text() {
    let p = Props::from_entries(vec![
        ("ticker".to_string(), Value::String("微信".into())),
        ("text".to_string(), Value::String("你有一条新消息".into())),
    ]);
    assert_eq!(p.content(), "微信\n你有一条新消息");
}

#[test]
fn content_recovered_from_ticker_when_text_empty() {
    let p = Props::from_entries(vec![
        ("appName".to_string(), Value::String("东方财富".into())),
        ("title".to_string(), Value::String("您订阅的资讯提醒".into())),
        ("text".to_string(), Value::String("".into())),
        (
            "ticker".to_string(),
            Value::String("您订阅的资讯提醒: 索宝蛋白 [公告] 索宝蛋白:投资者关系活动记录表".into()),
        ),
    ]);
    assert_eq!(p.summary(), "您订阅的资讯提醒");
    assert_eq!(
        p.content(),
        "索宝蛋白 [公告] 索宝蛋白:投资者关系活动记录表"
    );
}

#[test]
fn strip_title_prefix_handles_fullwidth_colon() {
    assert_eq!(strip_title_prefix("标题：正文", "标题"), "正文");
    assert_eq!(strip_title_prefix("标题: 正文", "标题"), "正文");
    assert_eq!(strip_title_prefix("别的: 正文", "标题"), "别的: 正文");
    assert_eq!(strip_title_prefix("正文", ""), "正文");
}

#[test]
fn strip_title_prefix_edges() {
    // one colon is taken off, and white space of any kind
    assert_eq!(strip_title_prefix("T:: x ", "T"), ": x");
    assert_eq!(strip_title_prefix("T\u{3000}x\u{a0}\n", "T"), "x");
    assert_eq!(strip_title_prefix("T", "T"), "");
    assert_eq!(strip_title_prefix(" x ", ""), " x ");
}

#[test]
fn props_defaults() {
    let p = Props::from_entries(vec![
        ("n".to_string(), Value::Uint32(1)),
        ("hasIcon".to_string(), Value::Bool(true)),
        ("ticker".to_string(), vstr("first")),
        ("ticker".to_string(), vstr("second")),
    ]);
    assert_eq!(p.str("n"), "");
    assert_eq!(p.str("missing"), "");
    assert!(!p.bool("n"));
    assert!(!p.bool("missing"));
    assert_eq!(p.icon(), None);
    assert_eq!(p.internal_id("7"), "7");
    assert_eq!(p.summary(), "first");
    assert!(p.get("missing").is_none());
}

#[test]
fn reason_labels() {
    assert_eq!(Reason::Posted.label(), "posted");
    assert_eq!(Reason::Updated.label(), "updated");
    assert_eq!(Reason::PollUpdate.label(), "poll-update");
}

/// A notification with an id.
fn note(app: &str, id: &str, title: &str, text: &str) -> Props {
    Props::from_entries(vec![
        ("appName".to_string(), vstr(app)),
        ("internalId".to_string(), vstr(id)),
        ("title".to_string(), vstr(title)),
        ("text".to_string(), vstr(text)),
        ("ticker".to_string(), vstr(&format!("{title}: {text}"))),
    ])
}

fn bridge(all: bool) -> Bridge {
    let mut s = Settings::default();
    s.all = all;
    s.cli_sound = Some("/cli.ogg".into());
    let mut cfg = Config::default();
    let mut rule = Rule::default();
    rule.sound = Some("/w.ogg".into());
    rule.timeout_s = Some("15".into());
    rule.urgency = Some("critical".into());
    cfg.apps.insert("WeChat".into(), rule);
    let mut off = Rule::default();
    off.enabled = false;
    cfg.apps.insert("Off".into(), off);
    Bridge::new(s, cfg, vec!["dev".into()])
}

/// One poll that finds the given notifications.
fn poll(b: &mut Bridge, found: &[(&str, &Props)], now: u128) -> Vec<Report> {
    let mut round = Round::new();
    let mut out = Vec::new();
    for (nid, p) in found {
        if let Some(r) = b.observe(&mut round, nid, p, now) {
            out.push(r);
        }
    }
    b.finish_poll(round);
    out
}

fn outcomes(r: Vec<Report>) -> Vec<Outcome> {
    r.into_iter().map(|x| x.outcome).collect()
}

fn wechat_popup(summary: &str, content: &str) -> Outcome {
    Outcome::Popup {
        summary: summary.into(),
        content: content.into(),
        timeout_s: "15".into(),
        urgency: "critical".into(),
        icon: None,
        sound: Sound::File("/w.ogg".into()),
    }
}

#[test]
fn first_poll_only_takes_note() {
    let mut b = bridge(true);
    let a = note("WeChat", "1", "A", "one");
    assert!(poll(&mut b, &[("n1", &a)], 0).is_empty());
    // nothing has changed
    assert!(poll(&mut b, &[("n1", &a)], SEC).is_empty());
    // it says something else, within the grace time
    let a2 = note("WeChat", "1", "A", "two");
    let got = poll(&mut b, &[("n1", &a2)], SEC + 500 * MS);
    assert_eq!(got.len(), 1);
    assert_eq!(got[0].app, "WeChat");
    assert_eq!(got[0].reason, Reason::PollUpdate);
    // it was there at the first poll
    assert_eq!(got[0].since, SEC + 500 * MS);
    assert_eq!(got[0].action, Action::Skip);
    assert_eq!(got[0].outcome, Outcome::Suppressed);
    let a3 = note("WeChat", "1", "A", "three");
    assert_eq!(
        outcomes(poll(&mut b, &[("n1", &a3)], 8 * SEC)),
        vec![wechat_popup("A", "three")]
    );
}

#[test]
fn a_change_after_the_first_poll_pops_up() {
    let mut b = bridge(false);
    let a = note("WeChat", "1", "A", "one");
    let other = note("X", "2", "B", "x");
    assert!(poll(&mut b, &[("n1", &a), ("n2", &other)], 0).is_empty());
    assert!(poll(&mut b, &[("n1", &a), ("n2", &other)], SEC).is_empty());
    let a2 = note("WeChat", "1", "A", "two");
    assert_eq!(
        outcomes(poll(&mut b, &[("n1", &a2), ("n2", &other)], 2 * SEC)),
        vec![wechat_popup("A", "two")]
    );
    assert!(poll(&mut b, &[("n1", &a2), ("n2", &other)], 3 * SEC).is_empty());
}

#[test]
fn notifications_without_an_id_of_their_own() {
    let mut b = bridge(true);
    let p = Props::from_entries(vec![
        ("appName".to_string(), vstr("WeChat")),
        ("title".to_string(), vstr("A")),
        ("text".to_string(), vstr("x")),
    ]);
    poll(&mut b, &[], 0);
    assert_eq!(poll(&mut b, &[("7", &p)], SEC).len(), 1);
    // unchanged, it is left alone
    assert!(poll(&mut b, &[("7", &p)], 10 * SEC).is_empty());
    let r = b.dispatch("8", &p, Reason::Updated, 20 * SEC).unwrap();
    assert_eq!(r.since, 0);
    let r = b.dispatch("7", &p, Reason::Updated, 21 * SEC).unwrap();
    assert_eq!(r.since, 20 * SEC);
}

#[test]
fn a_message_and_its_completion_make_one_popup() {
    let mut b = bridge(true);
    poll(&mut b, &[], 0);
    let title = note("WeChat", "1", "A", "");
    assert_eq!(
        outcomes(poll(&mut b, &[("n", &title)], SEC)),
        vec![wechat_popup("A", "")]
    );
    let whole = note("WeChat", "1", "A", "text");
    let r = b.dispatch("n", &whole, Reason::Updated, SEC + 300 * MS).unwrap();
    assert_eq!(r.outcome, Outcome::Suppressed);
    assert_eq!(r.since, 300 * MS);
    let r = b.dispatch("n", &whole, Reason::Updated, 3 * SEC).unwrap();
    assert_eq!(r.outcome, wechat_popup("A", "text"));
    // the same content again, through the other channel
    let r = b.dispatch("n", &whole, Reason::PollUpdate, 3 * SEC + MS).unwrap();
    assert_eq!(r.outcome, Outcome::Repeated);
}

#[test]
fn other_events_do_not_end_the_grace_time() {
    let mut b = bridge(true);
    poll(&mut b, &[], 0);
    let first = note("WeChat", "1", "A", "one");
    let other = note("WeChat", "2", "B", "x");
    let r = b.dispatch("n", &first, Reason::Posted, SEC).unwrap();
    assert_eq!(r.outcome, wechat_popup("A", "one"));
    assert_eq!(
        outcomes(poll(&mut b, &[("n", &first), ("m", &other)], SEC + 200 * MS)),
        vec![wechat_popup("B", "x")]
    );
    let more = note("WeChat", "1", "A", "one and two");
    let r = b.dispatch("n", &more, Reason::Updated, 2 * SEC).unwrap();
    assert_eq!(r.outcome, Outcome::Suppressed);
    // found again by a poll, the update is known by now
    assert!(poll(&mut b, &[("n", &more), ("m", &other)], 2 * SEC + 900 * MS).is_empty());
    let last = note("WeChat", "1", "A", "three");
    assert_eq!(
        outcomes(poll(&mut b, &[("n", &last), ("m", &other)], 3 * SEC)),
        vec![wechat_popup("A", "three")]
    );
    // the same content under another id counts as a repeat for a while
    let again = Props::from_entries(vec![
        ("appName".to_string(), vstr("WeChat")),
        ("internalId".to_string(), vstr("3")),
        ("title".to_string(), vstr("A")),
        ("text".to_string(), vstr("three")),
        ("ticker".to_string(), vstr("A: three")),
    ]);
    let r = b.dispatch("n", &again, Reason::Posted, 4 * SEC).unwrap();
    assert_eq!(r.outcome, Outcome::Repeated);
    let r = b.dispatch("n", &again, Reason::Posted, 4 * SEC + 500 * MS).unwrap();
    assert_eq!(r.outcome, wechat_popup("A", "three"));
}

#[test]
fn new_notifications_are_left_to_kde_connect() {
    let mut b = bridge(false);
    let r = b.dispatch("n", &note("Other", "1", "A", "x"), Reason::Posted, 0).unwrap();
    assert_eq!(r.outcome, Outcome::SoundOnly(Sound::File("/cli.ogg".into())));
    let r = b.dispatch("n", &note("wechat", "2", "A", "y"), Reason::Posted, 0).unwrap();
    assert_eq!(r.outcome, Outcome::SoundOnly(Sound::File("/w.ogg".into())));
    let r = b.dispatch("n", &note("Off", "3", "A", "z"), Reason::Posted, 0).unwrap();
    assert_eq!(r.outcome, Outcome::Disabled);
    // a notification without an application name
    let r = b.dispatch("n", &note("", "4", "A", "q"), Reason::Posted, 0).unwrap();
    assert_eq!(r.app, "手机通知");
}

#[test]
fn sounds_can_be_off_or_missing() {
    let mut s = Settings::default();
    s.no_sound = true;
    s.cli_sound = Some("/c.ogg".into());
    let mut b = Bridge::new(s, Config::default(), vec![]);
    let r = b.dispatch("n", &note("X", "1", "A", "x"), Reason::Posted, 0).unwrap();
    assert_eq!(r.outcome, Outcome::SoundOnly(Sound::Off));
    // a muted application is silent, whatever sound the command line sets
    let mut s = Settings::default();
    s.cli_sound = Some("/c.ogg".into());
    let cfg = Config::load(Some(r#"{"apps": {"M": ""}, "default": ""}"#)).unwrap();
    let mut b = Bridge::new(s, cfg, vec![]);
    let r = b.dispatch("n", &note("M", "1", "A", "x"), Reason::Posted, 0).unwrap();
    assert_eq!(r.outcome, Outcome::SoundOnly(Sound::Unset));
    let r = b.dispatch("n", &note("X", "2", "A", "y"), Reason::Posted, 0).unwrap();
    assert_eq!(r.outcome, Outcome::SoundOnly(Sound::File("/c.ogg".into())));
    let mut b = Bridge::new(Settings::default(), Config::default(), vec![]);
    let r = b.dispatch("n", &note("X", "1", "A", "x"), Reason::Posted, 0).unwrap();
    assert_eq!(r.outcome, Outcome::SoundOnly(Sound::Unset));
    assert_eq!(b.settings().timeout_s, "10.0");
    assert!(b.devices().is_empty());
}

#[test]
fn filtered_applications_leave_no_trace() {
    let mut s = Settings::default();
    s.app_filter = vec!["WeChat".into()];
    let mut b = Bridge::new(s, Config::default(), vec![]);
    poll(&mut b, &[], 0);
    let p = note("Other", "1", "A", "x");
    assert!(b.dispatch("n", &p, Reason::Posted, 0).is_none());
    assert!(poll(&mut b, &[("n", &p)], 0).is_empty());
    let w = note("WeChat", "2", "A", "x");
    assert_eq!(poll(&mut b, &[("n", &p), ("m", &w)], 0).len(), 1);
}

#[test]
fn what_a_poll_misses_is_forgotten() {
    let mut b = bridge(false);
    let a = note("X", "1", "A", "x");
    poll(&mut b, &[("n", &a)], 0);
    poll(&mut b, &[], SEC);
    // it counts as new when it comes back
    let got = poll(&mut b, &[("n", &a)], 100 * SEC);
    assert_eq!(got[0].action, Action::SoundOnly);
    assert_eq!(got[0].since, 0);
}

#[test]
fn a_reset_starts_over() {
    let mut b = bridge(true);
    let a = note("X", "1", "A", "x");
    poll(&mut b, &[], 0);
    b.reset();
    assert!(poll(&mut b, &[("n", &a)], SEC).is_empty());
}

fn signal(member: Option<&str>, path: &str, body: Vec<Value>) -> Message {
    let mut m = Message::bare(MessageType::Signal, 1);
    m.member = member.map(|s| s.to_string());
    m.path = Some(path.to_string());
    m.body = body;
    m
}

#[test]
fn signals() {
    let mut b = bridge(true);
    let path = "/modules/kdeconnect/devices/dev/notifications";
    assert_eq!(
        b.on_signal(&signal(Some("notificationPosted"), path, vec![vstr("7")])),
        SignalStep::Fetch { device: "dev".into(), nid: "7".into(), reason: Reason::Posted }
    );
    assert_eq!(
        b.on_signal(&signal(Some("notificationUpdated"), path, vec![vstr("7")])),
        SignalStep::Fetch { device: "dev".into(), nid: "7".into(), reason: Reason::Updated }
    );
    assert_eq!(b.on_signal(&signal(None, path, vec![])), SignalStep::Ignore);
    assert_eq!(b.on_signal(&signal(Some("other"), path, vec![])), SignalStep::Ignore);
    assert_eq!(
        b.on_signal(&signal(Some("notificationPosted"), path, vec![])),
        SignalStep::Ignore
    );
    assert_eq!(
        b.on_signal(&signal(Some("notificationPosted"), "/x", vec![vstr("7")])),
        SignalStep::Ignore
    );
    let a = note("X", "1", "A", "x");
    poll(&mut b, &[("n", &a)], 0);
    // other devices are left alone
    let elsewhere = "/modules/kdeconnect/devices/B/notifications";
    assert_eq!(
        b.on_signal(&signal(Some("notificationPosted"), elsewhere, vec![vstr("0")])),
        SignalStep::Ignore
    );
    assert_eq!(
        b.on_signal(&signal(Some("allNotificationsRemoved"), elsewhere, vec![])),
        SignalStep::Ignore
    );
    assert!(poll(&mut b, &[("n", &a)], 0).is_empty());
    assert_eq!(
        b.on_signal(&signal(Some("allNotificationsRemoved"), path, vec![])),
        SignalStep::Cleared
    );
    // what was there before counts as new now
    assert_eq!(poll(&mut b, &[("n", &a)], SEC).len(), 1);
}

#[test]
fn detected_devices() {
    assert_eq!(
        device_ids("abc\n  def \r\n\n").unwrap(),
        vec!["abc".to_string(), "def".to_string()]
    );
    assert_eq!(
        device_ids(" \n").unwrap_err().text(),
        "配置错误: 未发现已配对且在线的设备，可用 --device 手动指定"
    );
    assert_eq!(
        detect_devices("手机\n".as_bytes()).unwrap(),
        vec!["手机".to_string()]
    );
    // bytes that are not UTF-8 are replaced
    assert_eq!(detect_devices(&[b'a', 0xff, b'\n']).unwrap(), vec!["a\u{fffd}".to_string()]);
}

#[test]
fn detect_wait_settings() {
    assert_eq!(DetectWait::from_env(None), DetectWait::Forever);
    assert_eq!(DetectWait::from_env(Some(" OFF ")), DetectWait::Once);
    assert_eq!(DetectWait::from_env(Some("+5")), DetectWait::Limited(secs(5)));
    assert_eq!(DetectWait::recognize("18446744073709551616"), None);
    assert_eq!(DetectWait::recognize("-5"), None);
    assert_eq!(
        DetectWait::parse("18446744073709551615"),
        DetectWait::Limited(secs(u64::MAX))
    );
}

/// The sleeps of a waiting in which no device is found.
fn sleeps(w: &mut Waiting) -> Vec<(WaitNote, u128)> {
    let mut out = Vec::new();
    while let WaitStep::Sleep { note, time } = w.failed() {
        out.push((note, time));
        w.slept(time);
    }
    out
}

#[test]
fn waiting_for_devices() {
    let mut w = Waiting::new(DetectWait::Once);
    assert_eq!(w.failed(), WaitStep::GiveUp);
    let mut w = Waiting::new(DetectWait::Limited(secs(3)));
    assert_eq!(
        sleeps(&mut w),
        vec![(WaitNote::Announce, DETECT_INTERVAL), (WaitNote::Quiet, SEC)]
    );
    // no longer than the limit
    assert_eq!(w.waited(), secs(3));
    let mut w = Waiting::new(DetectWait::Limited(secs(0)));
    assert!(sleeps(&mut w).is_empty());
    let mut w = Waiting::new(DetectWait::Limited(secs(92)));
    let beats = sleeps(&mut w).iter().filter(|x| x.0 == WaitNote::Heartbeat).count();
    // at 30, 60 and 90 seconds
    assert_eq!(beats, 3);
    let mut w = Waiting::new(DetectWait::Forever);
    assert_eq!(
        w.failed(),
        WaitStep::Sleep { note: WaitNote::Announce, time: DETECT_INTERVAL }
    );
}

#[test]
fn backoff_doubles_up_to_half_a_minute() {
    let mut b = Backoff::new();
    let mut seen = vec![b.wait()];
    for _ in 0..6 {
        b.failed();
        seen.push(b.wait());
    }
    assert_eq!(seen, vec![1, 2, 4, 8, 16, 30, 30]);
    b.reconnected();
    assert_eq!(b.wait(), 1);
    b.failed();
    assert_eq!(b.wait(), 2);
}

#[test]
fn notification_id_lists() {
    let body = vec![Value::Array("s".into(), vec![vstr("1"), Value::Byte(2), vstr("3")])];
    assert_eq!(notification_ids(&body).unwrap(), vec!["1".to_string(), "3".to_string()]);
    assert_eq!(notification_ids(&vec![]), None);
    assert_eq!(notification_ids(&vec![vstr("1")]), None);
}

#[test]
fn polls_and_signals_take_turns() {
    assert_eq!(next_turn(Phase::Start, 9, 0), Turn::Poll);
    assert_eq!(next_turn(Phase::Polled, 3, 10), Turn::Listen(7));
    assert_eq!(next_turn(Phase::Heard, 9, 10), Turn::Listen(1));
    assert_eq!(next_turn(Phase::Heard, 10, 10), Turn::Drain);
    assert_eq!(next_turn(Phase::Polled, 11, 10), Turn::Drain);
    assert_eq!(next_turn(Phase::Silent, 3, 10), Turn::Drain);
    assert_eq!(next_turn(Phase::Drained, 3, 10), Turn::Drain);
    assert_eq!(next_turn(Phase::Empty, 3, 10), Turn::Poll);
}
