//! What is asked for to show a popup and to play a sound.

use crate::dbus::value::ValueView;
use crate::notify::{
    exit_text, NativeNotifier, NotifySend, OptionsView, Paplay, Player, Popup, RequestView, Silent,
};
use crate::text::signed_decimal;
use vstd::prelude::*;
use vstd::string::*;

verus! {

/// `notify-send` gets the name of the application, the urgency and the time in milliseconds, each
/// behind its option, and an icon only where it is not empty. The last two arguments are always
/// the title and the text.
pub proof fn law_notify_send(n: NotifySend, title: Seq<char>, text: Seq<char>, opt: OptionsView)
    ensures
        n.request(title, text, opt) matches RequestView::Run { program, arguments } && {
            let k = arguments.len() as int;
            let with_icon = opt.icon matches Some(s) && s.len() > 0;
            &&& program == "notify-send"@
            &&& k == if with_icon {
                10int
            } else {
                8int
            }
            &&& arguments[0] == "--app-name"@
            &&& arguments[1] == opt.app_name
            &&& arguments[2] == "--urgency"@
            &&& arguments[3] == opt.urgency
            &&& arguments[4] == "--expire-time"@
            &&& arguments[5] == signed_decimal(opt.timeout_ms as int)
            &&& with_icon ==> arguments[6] == "--icon"@ && Some(arguments[7]) == opt.icon
            &&& arguments[k - 2] == title
            &&& arguments[k - 1] == text
        },
{
}

/// The notification service gets the name of the application, 0 for a popup of its own, the icon,
/// empty where there is none, the title, the text, no actions, no hints and the time in
/// milliseconds, in this order.
pub proof fn law_notify_call(n: NativeNotifier, title: Seq<char>, text: Seq<char>, opt: OptionsView)
    ensures
        n.request(title, text, opt) matches RequestView::Call {
            destination,
            path,
            interface,
            member,
            args,
        } && {
            &&& destination == "org.freedesktop.Notifications"@
            &&& path == "/org/freedesktop/Notifications"@
            &&& interface == "org.freedesktop.Notifications"@
            &&& member == "Notify"@
            &&& args.len() == 8
            &&& args[0] == ValueView::String(opt.app_name)
            &&& args[1] == ValueView::Uint32(0)
            &&& args[2] matches ValueView::String(icon) && match opt.icon {
                Some(s) => icon == s,
                None => icon.len() == 0,
            }
            &&& args[3] == ValueView::String(title)
            &&& args[4] == ValueView::String(text)
            &&& args[5] matches ValueView::Array(t, items) && t == seq!['s'] && items.len() == 0
            &&& args[6] matches ValueView::Dict(k, t, entries) && k == seq!['s'] && t == seq!['v']
                && entries.len() == 0
            &&& args[7] == ValueView::Int32(opt.timeout_ms)
        },
{
    reveal_strlit("");
    reveal_strlit("s");
    reveal_strlit("v");
    assert("s"@ =~= seq!['s']);
    assert("v"@ =~= seq!['v']);
}

/// `paplay` gets the path and nothing else; the silent player asks for nothing.
pub proof fn law_players(p: Paplay, s: Silent, path: Seq<char>)
    ensures
        p.request(path) matches RequestView::Run { program, arguments } && program == "paplay"@
            && arguments.len() == 1 && arguments[0] == path,
        s.request(path) is Nothing,
{
}

/// The names of the backends tell them apart.
pub proof fn law_backend_names(n: NotifySend, d: NativeNotifier, p: Paplay, s: Silent)
    ensures
        n.label() == "notify-send"@,
        d.label() == "native-dbus"@,
        p.label() == "paplay"@,
        s.label() == "silent"@,
{
}

/// An exit code is shown in decimal, between `Some(` and `)`, and none as `None`.
pub proof fn law_exit_shown(n: i32)
    ensures
        exit_text(Some(n)) == "Some("@ + signed_decimal(n as int) + ")"@,
        exit_text(None) == "None"@,
{
}

} // verus!
