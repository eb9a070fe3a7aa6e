//! The command line.
//!
//! The value of an option is the next argument, or stands behind `=` in the same one.
//! Numbers are kept as texts that are known to be numbers.

use crate::error::{Error, ErrorView};
use crate::magnitude::{
    check_minus, check_reads_as_zero, is_negative, is_zero_or_less, law_plain_numeral,
};
use crate::numeral::{check_number, digit_run, is_number, is_numeral};
use crate::table::string_texts;
use crate::text::{
    chars_of, find_char, has_prefix, index_of, left, opt_text, same, starts_with, string_of,
};
use vstd::prelude::*;
use vstd::string::*;

verus! {

/// The help text.
pub const HELP: &'static str = "\
kdeconnect-popup-bridge —— 让手机通知的每一条都在 KDE 桌面弹窗（纯 Rust / 纯 std 实现）

用法:
  kdeconnect-popup-bridge [选项]

运行:
      --all                 连首条通知也由本程序弹（需先关闭 KDE Connect 自带弹窗）
      --app <名称>          只处理指定 App，可重复传参，例如 --app WeChat
      --device <设备ID>     指定设备，可重复；默认自动探测所有在线设备
      --interval <秒>       轮询间隔，默认 1.0
      --grace <秒>          首条弹窗后 N 秒内不补弹，默认 2.0（避免第一条弹两次）
      --timeout <秒>        弹窗停留秒数，默认 10
      --notifier <后端>     cli（默认，调用 notify-send）或 native（直接发 D-Bus Notify）
      --bus <地址>          覆盖 DBUS_SESSION_BUS_ADDRESS，例如 /run/user/1000/bus
      --verbose             打印调试信息（含 D-Bus 属性原文）
  -h, --help               显示本帮助

声音:
      --no-sound            全部静音
      --sound <文件>        临时音效（优先级低于按 App 的规则）
      --set-sound <App=路径> 写入音效规则，可重复；default= 表示其他 App 静音；
                            App= 表示删除该规则。例：--set-sound WeChat=/a/b.ogg
      --list-sounds         打印当前规则后退出

调试:
      --dump                打印手机上当前的通知后退出（验证协议连通性用）

配置文件:
  ~/.config/kdeconnect-popup-bridge/sounds.json（可用环境变量 KC_BRIDGE_CONFIG 覆盖）
  兼容字符串写法 { \"apps\": { \"WeChat\": \"/a.ogg\" }, \"default\": \"\" }，
  也支持对象写法 { \"sound\": \"...\", \"timeout\": 15, \"urgency\": \"critical\", \"enabled\": false }。
";

/// What the command line asks for.
#[derive(Debug)]
pub struct Args {
    pub help: bool,
    pub all: bool,
    pub app: Vec<String>,
    pub no_sound: bool,
    pub sound: Option<String>,
    pub set_sound: Vec<String>,
    pub list_sounds: bool,
    /// Seconds between polls, as a number text.
    pub interval: String,
    /// Seconds that a popup stays, as a number text.
    pub timeout_s: String,
    /// Seconds without a second popup, as a number text.
    pub grace: String,
    pub device: Vec<String>,
    pub dump: bool,
    pub notifier: String,
    pub bus: Option<String>,
    pub verbose: bool,
}

/// [`Args`] as a mathematical value.
pub struct ArgsView {
    pub help: bool,
    pub all: bool,
    pub app: Seq<Seq<char>>,
    pub no_sound: bool,
    pub sound: Option<Seq<char>>,
    pub set_sound: Seq<Seq<char>>,
    pub list_sounds: bool,
    pub interval: Seq<char>,
    pub timeout_s: Seq<char>,
    pub grace: Seq<char>,
    pub device: Seq<Seq<char>>,
    pub dump: bool,
    pub notifier: Seq<char>,
    pub bus: Option<Seq<char>>,
    pub verbose: bool,
}

impl View for Args {
    type V = ArgsView;

    open spec fn view(&self) -> ArgsView {
        ArgsView {
            help: self.help,
            all: self.all,
            app: string_texts(self.app@),
            no_sound: self.no_sound,
            sound: opt_text(self.sound),
            set_sound: string_texts(self.set_sound@),
            list_sounds: self.list_sounds,
            interval: self.interval@,
            timeout_s: self.timeout_s@,
            grace: self.grace@,
            device: string_texts(self.device@),
            dump: self.dump,
            notifier: self.notifier@,
            bus: opt_text(self.bus),
            verbose: self.verbose,
        }
    }
}

/// What an empty command line asks for.
pub open spec fn default_args() -> ArgsView {
    ArgsView {
        help: false,
        all: false,
        app: seq![],
        no_sound: false,
        sound: None,
        set_sound: seq![],
        list_sounds: false,
        interval: "1.0"@,
        timeout_s: "10.0"@,
        grace: "2.0"@,
        device: seq![],
        dump: false,
        notifier: "cli"@,
        bus: None,
        verbose: false,
    }
}

/// How far the arguments have been read: what they ask for so far, and the position of the
/// next argument.
pub struct Progress {
    pub args: ArgsView,
    pub next: nat,
}

/// Whether an argument holds a value behind `=`.
pub open spec fn has_value(arg: Seq<char>) -> bool {
    has_prefix(arg, "--"@) && index_of(arg, '=') < arg.len()
}

/// The name of the option.
pub open spec fn option_name(arg: Seq<char>) -> Seq<char> {
    if has_value(arg) {
        arg.take(index_of(arg, '=') as int)
    } else {
        arg
    }
}

/// The value that an argument holds itself.
pub open spec fn own_value(arg: Seq<char>) -> Option<Seq<char>> {
    if has_value(arg) {
        Some(arg.skip(index_of(arg, '=') as int + 1))
    } else {
        None
    }
}

/// A value for the option with the given name: its own, or else the next argument.
pub open spec fn value_for(
    name: Seq<char>,
    raw: Seq<Seq<char>>,
    own: Option<Seq<char>>,
    next: nat,
) -> Result<(Seq<char>, nat), ErrorView> {
    match own {
        Some(v) => Ok((v, next)),
        None => if next >= raw.len() {
            Err(ErrorView::Cli(name + " 缺少取值"@))
        } else {
            Ok((raw[next as int], next + 1))
        },
    }
}

/// The options that stand by themselves.
pub open spec fn is_switch(name: Seq<char>) -> bool {
    ||| name == "-h"@
    ||| name == "--help"@
    ||| name == "--all"@
    ||| name == "--no-sound"@
    ||| name == "--list-sounds"@
    ||| name == "--dump"@
    ||| name == "--verbose"@
}

/// What is asked for with one more option that stands by itself.
pub open spec fn switched(a: ArgsView, name: Seq<char>) -> ArgsView {
    if name == "-h"@ || name == "--help"@ {
        ArgsView { help: true, ..a }
    } else if name == "--all"@ {
        ArgsView { all: true, ..a }
    } else if name == "--no-sound"@ {
        ArgsView { no_sound: true, ..a }
    } else if name == "--list-sounds"@ {
        ArgsView { list_sounds: true, ..a }
    } else if name == "--dump"@ {
        ArgsView { dump: true, ..a }
    } else {
        ArgsView { verbose: true, ..a }
    }
}

/// The options that take a number.
pub open spec fn takes_number(name: Seq<char>) -> bool {
    name == "--timeout"@ || name == "--interval"@ || name == "--grace"@
}

/// The options that take a value.
pub open spec fn takes_value(name: Seq<char>) -> bool {
    ||| name == "--app"@
    ||| name == "--set-sound"@
    ||| name == "--device"@
    ||| name == "--sound"@
    ||| name == "--notifier"@
    ||| name == "--bus"@
    ||| takes_number(name)
}

/// What is asked for with one more option and its value.
pub open spec fn valued(a: ArgsView, name: Seq<char>, v: Seq<char>) -> ArgsView {
    if name == "--app"@ {
        ArgsView { app: a.app.push(v), ..a }
    } else if name == "--set-sound"@ {
        ArgsView { set_sound: a.set_sound.push(v), ..a }
    } else if name == "--device"@ {
        ArgsView { device: a.device.push(v), ..a }
    } else if name == "--sound"@ {
        ArgsView { sound: Some(v), ..a }
    } else if name == "--notifier"@ {
        ArgsView { notifier: v, ..a }
    } else if name == "--bus"@ {
        ArgsView { bus: Some(v), ..a }
    } else if name == "--timeout"@ {
        ArgsView { timeout_s: v, ..a }
    } else if name == "--interval"@ {
        ArgsView { interval: v, ..a }
    } else {
        ArgsView { grace: v, ..a }
    }
}

/// Reading the next argument, and the value of its option.
pub open spec fn step(raw: Seq<Seq<char>>, p: Progress) -> Result<Progress, ErrorView> {
    let arg = raw[p.next as int];
    let name = option_name(arg);
    if is_switch(name) {
        Ok(Progress { args: switched(p.args, name), next: p.next + 1 })
    } else if takes_value(name) {
        match value_for(name, raw, own_value(arg), p.next + 1) {
            Err(e) => Err(e),
            Ok((v, next)) => if takes_number(name) && !is_number(v) {
                Err(ErrorView::Cli(name + " 不是数字: "@ + v))
            } else {
                Ok(Progress { args: valued(p.args, name, v), next })
            },
        }
    } else if name.len() > 0 && name[0] == '-' {
        Err(ErrorView::Cli("未知参数 "@ + name))
    } else {
        Err(ErrorView::Cli("意外的位置参数 "@ + name))
    }
}

/// Reading all the arguments from a position on.
pub open spec fn args_from(raw: Seq<Seq<char>>, p: Progress) -> Result<ArgsView, ErrorView>
    decreases left(raw.len(), p.next),
{
    if p.next >= raw.len() {
        Ok(p.args)
    } else {
        match step(raw, p) {
            Err(e) => Err(e),
            Ok(q) => if q.next <= p.next {
                Ok(q.args)
            } else {
                args_from(raw, q)
            },
        }
    }
}

/// The notifiers that there are.
pub open spec fn is_notifier(s: Seq<char>) -> bool {
    s == "cli"@ || s == "native"@
}

/// Why what the arguments ask for is refused, if it is: the interval is not above zero, the
/// grace time is below zero, or the notifier is not known.
pub open spec fn refusal(a: ArgsView) -> Option<ErrorView> {
    if is_zero_or_less(a.interval) {
        Some(ErrorView::Cli("--interval 必须大于 0"@))
    } else if is_negative(a.grace) {
        Some(ErrorView::Cli("--grace 不能为负"@))
    } else if !is_notifier(a.notifier) {
        Some(ErrorView::Cli("--notifier 只能是 cli 或 native"@))
    } else {
        None
    }
}

/// What a command line asks for.
pub open spec fn args_of(raw: Seq<Seq<char>>) -> Result<ArgsView, ErrorView> {
    match args_from(raw, Progress { args: default_args(), next: 0 }) {
        Err(e) => Err(e),
        Ok(a) => match refusal(a) {
            Some(e) => Err(e),
            None => Ok(a),
        },
    }
}

impl Default for Args {
    fn default() -> (r: Self)
        ensures
            r@ == default_args(),
    {
        let r = Args {
            help: false,
            all: false,
            app: Vec::new(),
            no_sound: false,
            sound: None,
            set_sound: Vec::new(),
            list_sounds: false,
            interval: "1.0".to_string(),
            timeout_s: "10.0".to_string(),
            grace: "2.0".to_string(),
            device: Vec::new(),
            dump: false,
            notifier: "cli".to_string(),
            bus: None,
            verbose: false,
        };
        assert(r@.app =~= seq![]);
        assert(r@.set_sound =~= seq![]);
        assert(r@.device =~= seq![]);
        r
    }
}

/// Appends to a list of strings.
fn push_text(list: &mut Vec<String>, s: String)
    ensures
        string_texts(final(list)@) == string_texts(old(list)@).push(s@),
{
    list.push(s);
    assert(string_texts(list@) =~= string_texts(old(list)@).push(s@));
}

fn is_number_option(name: &str) -> (r: bool)
    ensures
        r == takes_number(name@),
{
    same(name, "--timeout") || same(name, "--interval") || same(name, "--grace")
}

fn is_value_option(name: &str) -> (r: bool)
    ensures
        r == takes_value(name@),
{
    same(name, "--app") || same(name, "--set-sound") || same(name, "--device") || same(
        name,
        "--sound",
    ) || same(name, "--notifier") || same(name, "--bus") || is_number_option(name)
}

impl Args {
    /// Takes an option that stands by itself.
    fn switch(&mut self, name: &str) -> (r: bool)
        ensures
            r == is_switch(name@),
            final(self)@ == if r {
                switched(old(self)@, name@)
            } else {
                old(self)@
            },
    {
        if same(name, "-h") || same(name, "--help") {
            self.help = true;
        } else if same(name, "--all") {
            self.all = true;
        } else if same(name, "--no-sound") {
            self.no_sound = true;
        } else if same(name, "--list-sounds") {
            self.list_sounds = true;
        } else if same(name, "--dump") {
            self.dump = true;
        } else if same(name, "--verbose") {
            self.verbose = true;
        } else {
            return false;
        }
        true
    }

    /// Takes an option and its value.
    fn set(&mut self, name: &str, v: String)
        requires
            takes_value(name@),
        ensures
            final(self)@ == valued(old(self)@, name@, v@),
    {
        if same(name, "--app") {
            push_text(&mut self.app, v);
        } else if same(name, "--set-sound") {
            push_text(&mut self.set_sound, v);
        } else if same(name, "--device") {
            push_text(&mut self.device, v);
        } else if same(name, "--sound") {
            self.sound = Some(v);
        } else if same(name, "--notifier") {
            self.notifier = v;
        } else if same(name, "--bus") {
            self.bus = Some(v);
        } else if same(name, "--timeout") {
            self.timeout_s = v;
        } else if same(name, "--interval") {
            self.interval = v;
        } else {
            self.grace = v;
        }
    }

    /// Reads the arguments.
    pub fn parse(raw: Vec<String>) -> (r: Result<Args, Error>)
        ensures
            match r {
                Ok(a) => args_of(string_texts(raw@)) == Ok::<ArgsView, ErrorView>(a@),
                Err(e) => args_of(string_texts(raw@)) == Err::<ArgsView, ErrorView>(e@),
            },
    {
        let ghost texts = string_texts(raw@);
        let mut a = Args::default();
        let mut i: usize = 0;
        while i < raw.len()
            invariant
                i <= raw@.len(),
                texts == string_texts(raw@),
                args_from(texts, Progress { args: default_args(), next: 0 }) == args_from(
                    texts,
                    Progress { args: a@, next: i as nat },
                ),
            decreases raw@.len() - i,
        {
            assert(texts[i as int] == raw@[i as int]@);
            let arg = &raw[i];
            i += 1;
            let cs = chars_of(arg);
            assert(cs@.subrange(0, cs@.len() as int) =~= arg@);
            let k: usize = find_char(&cs, 0, cs.len(), '=');
            let mut name = arg.clone();
            let mut own: Option<String> = None;
            if starts_with(arg, "--") && k < cs.len() {
                name = string_of(&cs, 0, k);
                own = Some(string_of(&cs, k + 1, cs.len()));
                assert(name@ =~= option_name(arg@));
                assert(own->0@ =~= arg@.skip(k + 1));
            }
            assert(name@ == option_name(arg@));
            assert(opt_text(own) == own_value(arg@));
            if a.switch(&name) {
                continue ;
            }
            if is_value_option(&name) {
                let v = match own {
                    Some(v) => v,
                    None => {
                        if i >= raw.len() {
                            return Err(Error::Cli(name.concat(" 缺少取值")));
                        }
                        let v = raw[i].clone();
                        assert(texts[i as int] == v@);
                        i += 1;
                        v
                    },
                };
                if is_number_option(&name) && !check_number(&chars_of(&v)) {
                    return Err(Error::Cli(name.concat(" 不是数字: ").concat(&v)));
                }
                a.set(&name, v);
            } else if starts_with(&name, "-") {
                proof {
                    reveal_strlit("-");
                    assert(name@.take(1)[0] == name@[0]);
                }
                return Err(Error::Cli("未知参数 ".to_string().concat(&name)));
            } else {
                proof {
                    reveal_strlit("-");
                    if name@.len() > 0 && name@[0] == '-' {
                        assert(name@.take(1) =~= "-"@);
                    }
                }
                return Err(Error::Cli("意外的位置参数 ".to_string().concat(&name)));
            }
        }
        let interval = chars_of(&a.interval);
        if check_minus(&interval) || check_reads_as_zero(&interval) {
            return Err(Error::Cli("--interval 必须大于 0".to_string()));
        }
        let grace = chars_of(&a.grace);
        if check_minus(&grace) && !check_reads_as_zero(&grace) {
            return Err(Error::Cli("--grace 不能为负".to_string()));
        }
        if !same(&a.notifier, "cli") && !same(&a.notifier, "native") {
            return Err(Error::Cli("--notifier 只能是 cli 或 native".to_string()));
        }
        Ok(a)
    }

    /// What the program is to do.
    pub fn task(&self) -> (r: Task)
        ensures
            r == task_of(self@),
    {
        if self.help {
            Task::Help
        } else if self.list_sounds || self.set_sound.len() > 0 {
            Task::Sounds { save: self.set_sound.len() > 0 }
        } else if self.dump {
            Task::Dump
        } else {
            Task::Serve
        }
    }
}

/// What the program is to do.
#[derive(Debug, Clone, Copy, PartialEq, Eq, Structural)]
pub enum Task {
    /// Print the help.
    Help,
    /// Set sounds and print the rules; the configuration is saved only where it was changed.
    Sounds { save: bool },
    /// Print the notifications that there are.
    Dump,
    /// Run the bridge.
    Serve,
}

/// What the program is to do.
pub open spec fn task_of(a: ArgsView) -> Task {
    if a.help {
        Task::Help
    } else if a.set_sound.len() > 0 {
        Task::Sounds { save: true }
    } else if a.list_sounds {
        Task::Sounds { save: false }
    } else if a.dump {
        Task::Dump
    } else {
        Task::Serve
    }
}

proof fn lemma_same_rest(
    raw: Seq<Seq<char>>,
    p: Progress,
    other: Seq<Seq<char>>,
    q: Progress,
)
    requires
        p.next <= raw.len(),
        q.next <= other.len(),
        raw.skip(p.next as int) == other.skip(q.next as int),
        p.args == q.args,
    ensures
        args_from(raw, p) == args_from(other, q),
    decreases left(raw.len(), p.next),
{
    let a = raw.skip(p.next as int);
    let b = other.skip(q.next as int);
    assert(a == b);
    assert(raw.len() - p.next == other.len() - q.next) by {
        assert(a.len() == raw.len() - p.next);
        assert(b.len() == other.len() - q.next);
    }
    if p.next < raw.len() {
        assert(a[0] == raw[p.next as int]);
        assert(b[0] == other[q.next as int]);
        if p.next + 1 < raw.len() {
            assert(a[1] == raw[(p.next + 1) as int]);
            assert(b[1] == other[(q.next + 1) as int]);
        }
        match step(raw, p) {
            Ok(p2) => {
                let q2 = step(other, q)->Ok_0;
                let k = p2.next - p.next;
                assert(k == q2.next - q.next);
                assert(raw.skip(p2.next as int) =~= a.skip(k));
                assert(other.skip(q2.next as int) =~= b.skip(k));
                lemma_same_rest(raw, p2, other, q2);
            },
            Err(_) => {},
        }
    }
}

pub proof fn lemma_no_equals(s: Seq<char>, t: Seq<char>)
    requires
        forall|i: int| 0 <= i < s.len() ==> s[i] != '=',
    ensures
        index_of(s + seq!['='] + t, '=') == s.len(),
        index_of(s, '=') == s.len(),
    decreases s.len(),
{
    let all = s + seq!['='] + t;
    if s.len() > 0 {
        let rest = s.drop_first();
        assert forall|i: int| 0 <= i < rest.len() implies rest[i] != '=' by {
            assert(rest[i] == s[i + 1]);
        }
        assert(s[0] != '=');
        lemma_no_equals(rest, t);
        assert(all.drop_first() =~= rest + seq!['='] + t);
    }
}

proof fn lemma_value_names(name: Seq<char>)
    requires
        takes_value(name),
    ensures
        !is_switch(name),
        name.len() >= 2,
        has_prefix(name, "--"@),
        forall|i: int| 0 <= i < name.len() ==> name[i] != '=',
{
    reveal_strlit("--");
    reveal_strlit("-h");
    reveal_strlit("--help");
    reveal_strlit("--all");
    reveal_strlit("--no-sound");
    reveal_strlit("--list-sounds");
    reveal_strlit("--dump");
    reveal_strlit("--verbose");
    reveal_strlit("--app");
    reveal_strlit("--set-sound");
    reveal_strlit("--device");
    reveal_strlit("--sound");
    reveal_strlit("--notifier");
    reveal_strlit("--bus");
    reveal_strlit("--timeout");
    reveal_strlit("--interval");
    reveal_strlit("--grace");
    assert(name.take(2) =~= "--"@);
    let c = name[2];
    let d = name[3];
    assert(name != "-h"@ && name != "--help"@ && name != "--all"@ && name != "--no-sound"@ && name
        != "--list-sounds"@ && name != "--dump"@ && name != "--verbose"@) by {
        assert("--help"@[2] == 'h' && "--all"@[3] == 'l' && "--no-sound"@[3] == 'o'
            && "--no-sound"@.len() == 10 && "--list-sounds"@[2] == 'l' && "--dump"@[3] == 'u'
            && "--verbose"@[2] == 'v' && "-h"@.len() == 2);
        assert("--app"@[3] == 'p' && "--set-sound"@[3] == 'e' && "--device"@[3] == 'e'
            && "--sound"@[2] == 's' && "--notifier"@.len() == 10 && "--notifier"@[4] == 't'
            && "--no-sound"@[4] == '-' && "--bus"@[2] == 'b' && "--timeout"@[2] == 't'
            && "--interval"@[2] == 'i' && "--grace"@[2] == 'g');
    }
}

/// Reading the arguments from a position on uses them all up: no option at their end lacks
/// its value.
pub open spec fn used_up(raw: Seq<Seq<char>>, p: Progress) -> bool
    decreases left(raw.len(), p.next),
{
    if p.next >= raw.len() {
        p.next == raw.len()
    } else {
        let arg = raw[p.next as int];
        &&& takes_value(option_name(arg)) && own_value(arg) is None ==> p.next + 1 < raw.len()
        &&& step(raw, p) matches Ok(q) ==> q.next > p.next && used_up(raw, q)
    }
}

proof fn lemma_forms_agree(
    before: Seq<Seq<char>>,
    args: ArgsView,
    name: Seq<char>,
    v: Seq<char>,
    rest: Seq<Seq<char>>,
)
    requires
        takes_value(name),
    ensures
        ({
            let p = Progress { args, next: before.len() };
            args_from(before + (seq![name + seq!['='] + v] + rest), p) == args_from(
                before + (seq![name, v] + rest),
                p,
            )
        }),
{
    let one = before + (seq![name + seq!['='] + v] + rest);
    let two = before + (seq![name, v] + rest);
    let n = before.len() as int;
    let p = Progress { args, next: before.len() };
    let arg = name + seq!['='] + v;
    lemma_value_names(name);
    lemma_no_equals(name, v);
    assert(arg.take(2) =~= name.take(2));
    reveal_strlit("--");
    assert(has_value(arg));
    assert(arg.take(name.len() as int) =~= name);
    assert(arg.skip(name.len() as int + 1) =~= v);
    assert(!has_value(name));
    assert(one[n] == arg && two[n] == name && two[n + 1] == v);
    match step(one, p) {
        Ok(a) => {
            let b = step(two, p)->Ok_0;
            assert(one.skip(n + 1) =~= rest);
            assert(two.skip(n + 2) =~= rest);
            lemma_same_rest(one, a, two, b);
        },
        Err(_) => {},
    }
}

proof fn lemma_forms_agree_later(
    before: Seq<Seq<char>>,
    p: Progress,
    name: Seq<char>,
    v: Seq<char>,
    rest: Seq<Seq<char>>,
)
    requires
        takes_value(name),
        used_up(before, p),
    ensures
        args_from(before + (seq![name + seq!['='] + v] + rest), p) == args_from(
            before + (seq![name, v] + rest),
            p,
        ),
    decreases left(before.len(), p.next),
{
    if p.next >= before.len() {
        lemma_forms_agree(before, p.args, name, v, rest);
    } else {
        let one = before + (seq![name + seq!['='] + v] + rest);
        let two = before + (seq![name, v] + rest);
        let i = p.next as int;
        assert(one[i] == before[i] && two[i] == before[i]);
        if i + 1 < before.len() {
            assert(one[i + 1] == before[i + 1] && two[i + 1] == before[i + 1]);
        }
        assert(step(one, p) == step(before, p));
        assert(step(two, p) == step(before, p));
        if let Ok(q) = step(before, p) {
            lemma_forms_agree_later(before, q, name, v, rest);
        }
    }
}

/// The two ways to give the value of an option mean the same, wherever the option stands.
pub proof fn law_value_forms_agree(
    before: Seq<Seq<char>>,
    name: Seq<char>,
    v: Seq<char>,
    rest: Seq<Seq<char>>,
)
    requires
        takes_value(name),
        used_up(before, Progress { args: default_args(), next: 0 }),
    ensures
        args_of(before + (seq![name + seq!['='] + v] + rest)) == args_of(
            before + (seq![name, v] + rest),
        ),
{
    let start = Progress { args: default_args(), next: 0 };
    lemma_forms_agree_later(before, start, name, v, rest);
}

/// In a command line that is accepted the interval is above zero, the grace time is not below
/// zero, and the notifier is known.
pub proof fn law_numbers_in_range(raw: Seq<Seq<char>>)
    ensures
        args_of(raw) matches Ok(a) ==> !is_zero_or_less(a.interval) && !is_negative(a.grace)
            && is_notifier(a.notifier),
{
}

/// An empty command line is accepted, and asks for what is usual.
pub proof fn law_usual_arguments()
    ensures
        args_of(seq![]) == Ok::<ArgsView, ErrorView>(default_args()),
{
    let a = "1.0"@;
    let b = "2.0"@;
    reveal_strlit("1.0");
    reveal_strlit("2.0");
    lemma_digit_point_zero(a);
    lemma_digit_point_zero(b);
    assert(a[0] == '1');
    assert(b[0] == '2');
}

proof fn lemma_digit_point_zero(s: Seq<char>)
    requires
        s.len() == 3,
        '1' <= s[0] <= '9',
        s[1] == '.',
        s[2] == '0',
    ensures
        !is_zero_or_less(s),
        !is_negative(s),
{
    reveal(is_numeral);
    reveal_with_fuel(digit_run, 3);
    law_plain_numeral(s);
}

} // verus!
