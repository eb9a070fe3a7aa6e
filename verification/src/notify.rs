//! How popups are shown and sounds are played.
//!
//! A backend says what has to be done: which program is run with which arguments, or
//! which method is called on the bus.

use crate::dbus::value::{lemma_model_containers, models, vstr, Value, ValueView};
use crate::error::{Error, ErrorView};
use crate::table::string_texts;
use crate::text::{same, signed_decimal, signed_decimal_of};
use vstd::prelude::*;
use vstd::string::*;

verus! {

/// How a popup is shown.
pub struct Options<'a> {
    /// The application that it is shown for.
    pub app_name: &'a str,
    /// How many milliseconds it stays.
    pub timeout_ms: i32,
    /// `low`, `normal` or `critical`.
    pub urgency: &'a str,
    /// The path or the name of an icon.
    pub icon: Option<&'a str>,
}

/// [`Options`] as a mathematical value.
pub struct OptionsView {
    pub app_name: Seq<char>,
    pub timeout_ms: i32,
    pub urgency: Seq<char>,
    pub icon: Option<Seq<char>>,
}

impl<'a> View for Options<'a> {
    type V = OptionsView;

    open spec fn view(&self) -> OptionsView {
        OptionsView {
            app_name: self.app_name@,
            timeout_ms: self.timeout_ms,
            urgency: self.urgency@,
            icon: match self.icon {
                Some(s) => Some(s@),
                None => None,
            },
        }
    }
}

/// What a backend asks for.
#[derive(Debug, PartialEq)]
pub enum Request {
    /// Nothing.
    Nothing,
    /// Run a program.
    Run { program: String, arguments: Vec<String> },
    /// Call a method on the bus.
    Call {
        destination: String,
        path: String,
        interface: String,
        member: String,
        args: Vec<Value>,
    },
}

/// A [`Request`] as a mathematical value.
pub enum RequestView {
    Nothing,
    Run { program: Seq<char>, arguments: Seq<Seq<char>> },
    Call {
        destination: Seq<char>,
        path: Seq<char>,
        interface: Seq<char>,
        member: Seq<char>,
        args: Seq<ValueView>,
    },
}

impl View for Request {
    type V = RequestView;

    open spec fn view(&self) -> RequestView {
        match self {
            Request::Nothing => RequestView::Nothing,
            Request::Run { program, arguments } => RequestView::Run {
                program: program@,
                arguments: string_texts(arguments@),
            },
            Request::Call { destination, path, interface, member, args } => RequestView::Call {
                destination: destination@,
                path: path@,
                interface: interface@,
                member: member@,
                args: models(args@),
            },
        }
    }
}

/// A way to show popups.
pub trait Popup {
    /// The name of the backend.
    spec fn label(&self) -> Seq<char>;

    /// What is asked for to show a popup.
    spec fn request(&self, summary: Seq<char>, body: Seq<char>, opt: OptionsView) -> RequestView;

    /// The name of the backend.
    fn name(&self) -> (r: &'static str)
        ensures
            r@ == self.label(),
    ;

    /// What has to be done to show a popup.
    fn show(&self, summary: &str, body: &str, opt: Options<'_>) -> (r: Request)
        ensures
            r@ == self.request(summary@, body@, opt@),
    ;
}

/// Shows popups with the program `notify-send`.
pub struct NotifySend;

/// The arguments for an icon.
pub open spec fn icon_args(icon: Option<Seq<char>>) -> Seq<Seq<char>> {
    match icon {
        Some(s) => if s.len() > 0 {
            seq!["--icon"@, s]
        } else {
            seq![]
        },
        None => seq![],
    }
}

fn push(args: &mut Vec<String>, s: &str)
    ensures
        string_texts(final(args)@) == string_texts(old(args)@).push(s@),
{
    args.push(s.to_string());
    assert(string_texts(args@) =~= string_texts(old(args)@).push(s@));
}

impl Popup for NotifySend {
    open spec fn label(&self) -> Seq<char> {
        "notify-send"@
    }

    open spec fn request(
        &self,
        summary: Seq<char>,
        body: Seq<char>,
        opt: OptionsView,
    ) -> RequestView {
        RequestView::Run {
            program: "notify-send"@,
            arguments: seq![
                "--app-name"@,
                opt.app_name,
                "--urgency"@,
                opt.urgency,
                "--expire-time"@,
                signed_decimal(opt.timeout_ms as int),
            ] + icon_args(opt.icon) + seq![summary, body],
        }
    }

    fn name(&self) -> (r: &'static str) {
        "notify-send"
    }

    fn show(&self, summary: &str, body: &str, opt: Options<'_>) -> (r: Request) {
        let mut args: Vec<String> = Vec::new();
        push(&mut args, "--app-name");
        push(&mut args, opt.app_name);
        push(&mut args, "--urgency");
        push(&mut args, opt.urgency);
        push(&mut args, "--expire-time");
        push(&mut args, &signed_decimal_of(opt.timeout_ms as i64));
        match opt.icon {
            Some(icon) => {
                if !icon.is_empty() {
                    push(&mut args, "--icon");
                    push(&mut args, icon);
                }
            },
            None => {},
        }
        push(&mut args, summary);
        push(&mut args, body);
        assert(string_texts(args@) =~= self.request(summary@, body@, opt@)->arguments);
        Request::Run { program: "notify-send".to_string(), arguments: args }
    }
}

/// Shows popups by calling the notification service on the bus.
pub struct NativeNotifier;

/// The arguments of the method `Notify`.
pub open spec fn notify_args(summary: Seq<char>, body: Seq<char>, opt: OptionsView) -> Seq<
    ValueView,
> {
    seq![
        ValueView::String(opt.app_name),
        ValueView::Uint32(0),
        ValueView::String(
            match opt.icon {
                Some(s) => s,
                None => ""@,
            },
        ),
        ValueView::String(summary),
        ValueView::String(body),
        ValueView::Array("s"@, seq![]),
        ValueView::Dict("s"@, "v"@, seq![]),
        ValueView::Int32(opt.timeout_ms),
    ]
}

impl Popup for NativeNotifier {
    open spec fn label(&self) -> Seq<char> {
        "native-dbus"@
    }

    open spec fn request(
        &self,
        summary: Seq<char>,
        body: Seq<char>,
        opt: OptionsView,
    ) -> RequestView {
        RequestView::Call {
            destination: "org.freedesktop.Notifications"@,
            path: "/org/freedesktop/Notifications"@,
            interface: "org.freedesktop.Notifications"@,
            member: "Notify"@,
            args: notify_args(summary, body, opt),
        }
    }

    fn name(&self) -> (r: &'static str) {
        "native-dbus"
    }

    fn show(&self, summary: &str, body: &str, opt: Options<'_>) -> (r: Request) {
        let icon = match opt.icon {
            Some(s) => s,
            None => "",
        };
        let actions = Value::Array("s".to_string(), Vec::new());
        let hints = Value::Dict("s".to_string(), "v".to_string(), Vec::new());
        proof {
            lemma_model_containers(actions);
            lemma_model_containers(hints);
            assert(actions@->Array_1 =~= seq![]);
            assert(hints@->Dict_2 =~= seq![]);
        }
        let mut args: Vec<Value> = Vec::new();
        args.push(vstr(opt.app_name));
        args.push(Value::Uint32(0));
        args.push(vstr(icon));
        args.push(vstr(summary));
        args.push(vstr(body));
        args.push(actions);
        args.push(hints);
        args.push(Value::Int32(opt.timeout_ms));
        assert(models(args@) =~= notify_args(summary@, body@, opt@));
        Request::Call {
            destination: "org.freedesktop.Notifications".to_string(),
            path: "/org/freedesktop/Notifications".to_string(),
            interface: "org.freedesktop.Notifications".to_string(),
            member: "Notify".to_string(),
            args,
        }
    }
}

/// A way to play sounds.
pub trait Player {
    /// The name of the backend.
    spec fn label(&self) -> Seq<char>;

    /// What is asked for to play a file.
    spec fn request(&self, path: Seq<char>) -> RequestView;

    /// The name of the backend.
    fn name(&self) -> (r: &'static str)
        ensures
            r@ == self.label(),
    ;

    /// What has to be done to play a file.
    fn play(&self, path: &str) -> (r: Request)
        ensures
            r@ == self.request(path@),
    ;
}

/// Plays sounds with the program `paplay`.
pub struct Paplay;

impl Player for Paplay {
    open spec fn label(&self) -> Seq<char> {
        "paplay"@
    }

    open spec fn request(&self, path: Seq<char>) -> RequestView {
        RequestView::Run { program: "paplay"@, arguments: seq![path] }
    }

    fn name(&self) -> (r: &'static str) {
        "paplay"
    }

    fn play(&self, path: &str) -> (r: Request) {
        let mut args: Vec<String> = Vec::new();
        push(&mut args, path);
        assert(string_texts(args@) =~= seq![path@]);
        Request::Run { program: "paplay".to_string(), arguments: args }
    }
}

/// Plays nothing.
pub struct Silent;

impl Player for Silent {
    open spec fn label(&self) -> Seq<char> {
        "silent"@
    }

    open spec fn request(&self, path: Seq<char>) -> RequestView {
        RequestView::Nothing
    }

    fn name(&self) -> (r: &'static str) {
        "silent"
    }

    fn play(&self, path: &str) -> (r: Request) {
        Request::Nothing
    }
}

/// An exit code as it is shown.
pub open spec fn exit_text(code: Option<i32>) -> Seq<char> {
    match code {
        Some(n) => "Some("@ + signed_decimal(n as int) + ")"@,
        None => "None"@,
    }
}

/// What comes of running a program that has ended.
pub fn run_result(program: &str, success: bool, code: Option<i32>) -> (r: Result<(), Error>)
    ensures
        match r {
            Ok(_) => success,
            Err(e) => !success && e@ == ErrorView::Config(
                program@ + " 退出码 "@ + exit_text(code),
            ),
        },
{
    if success {
        return Ok(());
    }
    let shown = match code {
        Some(n) => "Some(".to_string().concat(&signed_decimal_of(n as i64)).concat(")"),
        None => "None".to_string(),
    };
    Err(Error::Config(program.to_string().concat(" 退出码 ").concat(&shown)))
}

/// A program could not be run.
pub fn launch_error(program: &str, reason: &str) -> (r: Error)
    ensures
        r@ == ErrorView::Config("无法执行 "@ + program@ + ": "@ + reason@),
{
    Error::Config("无法执行 ".to_string().concat(program).concat(": ").concat(reason))
}

/// What shows the popups.
#[derive(Debug, Clone, Copy, PartialEq, Eq, Structural)]
pub enum Backend {
    /// The program `notify-send`.
    NotifySend,
    /// A call over a connection of its own.
    Native,
}

/// Chooses what shows the popups: the native notifier where it is asked for and has its
/// connection, and `notify-send` otherwise.
pub fn backend(notifier: &str, connected: bool) -> (r: Backend)
    ensures
        r == if notifier@ == "native"@ && connected {
            Backend::Native
        } else {
            Backend::NotifySend
        },
{
    if connected && same(notifier, "native") {
        Backend::Native
    } else {
        Backend::NotifySend
    }
}

/// What plays the sounds.
#[derive(Debug, Clone, Copy, PartialEq, Eq, Structural)]
pub enum Sounds {
    /// Nothing.
    Silent,
    /// The program `paplay`.
    Paplay,
}

/// Chooses what plays the sounds.
pub fn player(no_sound: bool) -> (r: Sounds)
    ensures
        r == if no_sound {
            Sounds::Silent
        } else {
            Sounds::Paplay
        },
{
    if no_sound {
        Sounds::Silent
    } else {
        Sounds::Paplay
    }
}

} // verus!
