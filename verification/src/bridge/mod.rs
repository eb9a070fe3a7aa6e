//! What is done with the notifications of the phone: when a popup is shown, what it
//! says, and which sound is played.
//!
//! Notifications are found by signals and by polling. A notification whose ticker,
//! title or text has changed is a new message, except for a short grace time after
//! it first appeared: applications often post a title first and add the text a
//! moment later. Times and durations are counted in nanoseconds.

pub mod cycle;
pub mod dedup;
pub mod devices;
pub mod devices_laws;
pub mod history;
pub mod machine;
pub mod props;

pub use cycle::{next_turn, Phase, Turn};
pub use dedup::{Dedup, Fingerprint};
pub use devices::{
    detect_devices, Backoff, DetectWait, WaitNote, WaitStep, Waiting, DETECT_HEARTBEAT,
    DETECT_INTERVAL,
};
pub use machine::{device_from_path, Bridge, Outcome, Report, Round, Settings, SignalStep, Sound};
pub use props::{strip_title_prefix, Props};

use vstd::prelude::*;
use vstd::string::*;

verus! {

/// The name of KDE Connect on the bus.
pub const KC_DEST: &'static str = "org.kde.kdeconnect";

/// The interface of the notifications of a device.
pub const NOTIF_IFACE: &'static str = "org.kde.kdeconnect.device.notifications";

/// The interface of one notification.
pub const ITEM_IFACE: &'static str = "org.kde.kdeconnect.device.notifications.notification";

/// The signals that are subscribed to.
pub const MATCH_RULE: &'static str =
    "type='signal',interface='org.kde.kdeconnect.device.notifications'";

/// How a notification came to be looked at.
#[derive(Debug, Clone, Copy, PartialEq, Eq, Structural)]
pub enum Reason {
    /// It appeared.
    Posted,
    /// A signal said that it was updated.
    Updated,
    /// A poll found that it says something else.
    PollUpdate,
}

impl Reason {
    /// The name of the reason in log lines.
    pub fn label(self) -> (r: &'static str)
        ensures
            r@ == match self {
                Reason::Posted => "posted"@,
                Reason::Updated => "updated"@,
                Reason::PollUpdate => "poll-update"@,
            },
    {
        match self {
            Reason::Posted => "posted",
            Reason::Updated => "updated",
            Reason::PollUpdate => "poll-update",
        }
    }
}

/// What is done.
#[derive(Debug, Clone, Copy, PartialEq, Eq, Structural)]
pub enum Action {
    /// Show a popup and play a sound.
    Popup,
    /// Play a sound; KDE Connect shows the popup.
    SoundOnly,
    /// Do nothing.
    Skip,
}

/// What is done with a notification that first appeared `since_first` ago.
pub open spec fn decision(reason: Reason, all: bool, since_first: u128, grace: u128) -> Action {
    match reason {
        Reason::Posted => if all {
            Action::Popup
        } else {
            Action::SoundOnly
        },
        _ => if since_first < grace {
            Action::Skip
        } else {
            Action::Popup
        },
    }
}

/// What is done with a notification that first appeared `since_first` ago. A new one
/// is left to KDE Connect unless `all` are to be shown; an update is skipped within
/// the grace time.
pub fn decide(reason: Reason, all: bool, since_first: u128, grace: u128) -> (r: Action)
    ensures
        r == decision(reason, all, since_first, grace),
{
    match reason {
        Reason::Posted => if all {
            Action::Popup
        } else {
            Action::SoundOnly
        },
        _ => if since_first < grace {
            Action::Skip
        } else {
            Action::Popup
        },
    }
}

/// Within the grace time an update is skipped, whether or not all notifications are
/// to be shown.
pub proof fn law_grace_skips(reason: Reason, all: bool, since_first: u128, grace: u128)
    requires
        reason != Reason::Posted,
        since_first < grace,
    ensures
        decision(reason, all, since_first, grace) == Action::Skip,
{
}

/// A new notification pops up only where all are to be shown, and is otherwise left to KDE
/// Connect, however long ago it appeared; an update pops up once the grace time is over, whether
/// or not all are to be shown.
pub proof fn law_decisions(reason: Reason, all: bool, since_first: u128, grace: u128)
    ensures
        ({
            let d = decision(reason, all, since_first, grace);
            let fresh = reason == Reason::Posted;
            &&& d == Action::SoundOnly <==> fresh && !all
            &&& d == Action::Skip <==> !fresh && since_first < grace
            &&& d == Action::Popup <==> (fresh && all) || (!fresh && since_first >= grace)
        }),
{
}

} // verus!
