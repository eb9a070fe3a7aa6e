//! The state of the bridge, and what it does with each notification.

use crate::bridge::dedup::{
    elapsed, is_repeat, lemma_remembered, remembered, time_since, Dedup, Fingerprint,
    FingerprintView,
};
use crate::bridge::props::{
    body_of, content_key, icon_of, or_else_text, text_prop, Props,
};
use crate::bridge::{decide, decision, Action, Reason};
use crate::config::{
    effective_rule, first_of, is_muted, own_rule, sound_set, Config, ConfigView, Rule,
};
use crate::dbus::message::{Message, MessageView};
use crate::dbus::value::{models, text_of, ValueView};
use crate::table::{
    distinct, holds, law_entry_set, law_only_kept, lookup, only, string_texts, with_entry, Table,
};
use crate::text::{
    chars_of, find_char, has_prefix, index_of, matches_at, opt_clone, opt_text, same, string_of,
};
use vstd::prelude::*;
use vstd::string::*;

verus! {

/// What the command line sets.
#[derive(Debug)]
pub struct Settings {
    /// Show a popup for new notifications too.
    pub all: bool,
    /// The applications that are handled; all of them where there are none.
    pub app_filter: Vec<String>,
    /// Play no sound.
    pub no_sound: bool,
    /// The sound for applications whose rule has none.
    pub cli_sound: Option<String>,
    /// The time between polls.
    pub interval: u128,
    /// The time after the first appearance in which an update is skipped.
    pub grace: u128,
    /// How many seconds a popup stays, as a number text.
    pub timeout_s: String,
    /// Print more.
    pub verbose: bool,
    /// How popups are shown: `cli` or `native`.
    pub notifier: String,
    /// The address of the bus.
    pub bus: Option<String>,
}

/// [`Settings`] as a mathematical value.
pub struct SettingsView {
    pub all: bool,
    pub app_filter: Seq<Seq<char>>,
    pub no_sound: bool,
    pub cli_sound: Option<Seq<char>>,
    pub interval: u128,
    pub grace: u128,
    pub timeout_s: Seq<char>,
    pub verbose: bool,
    pub notifier: Seq<char>,
    pub bus: Option<Seq<char>>,
}

impl View for Settings {
    type V = SettingsView;

    open spec fn view(&self) -> SettingsView {
        SettingsView {
            all: self.all,
            app_filter: string_texts(self.app_filter@),
            no_sound: self.no_sound,
            cli_sound: opt_text(self.cli_sound),
            interval: self.interval,
            grace: self.grace,
            timeout_s: self.timeout_s@,
            verbose: self.verbose,
            notifier: self.notifier@,
            bus: opt_text(self.bus),
        }
    }
}

impl Default for Settings {
    fn default() -> (r: Self)
        ensures
            r@ == (SettingsView {
                all: false,
                app_filter: seq![],
                no_sound: false,
                cli_sound: None,
                interval: 1_000_000_000,
                grace: 2_000_000_000,
                timeout_s: "10.0"@,
                verbose: false,
                notifier: "cli"@,
                bus: None,
            }),
    {
        let r = Settings {
            all: false,
            app_filter: Vec::new(),
            no_sound: false,
            cli_sound: None,
            interval: 1_000_000_000,
            grace: 2_000_000_000,
            timeout_s: "10.0".to_string(),
            verbose: false,
            notifier: "cli".to_string(),
            bus: None,
        };
        assert(r@.app_filter =~= seq![]);
        r
    }
}

/// The sound that goes with a notification.
#[derive(Debug, PartialEq)]
pub enum Sound {
    /// Sounds are turned off.
    Off,
    /// No sound is configured.
    Unset,
    /// This file is played.
    File(String),
}

/// A [`Sound`] as a mathematical value.
pub enum SoundView {
    Off,
    Unset,
    File(Seq<char>),
}

impl View for Sound {
    type V = SoundView;

    open spec fn view(&self) -> SoundView {
        match self {
            Sound::Off => SoundView::Off,
            Sound::Unset => SoundView::Unset,
            Sound::File(s) => SoundView::File(s@),
        }
    }
}

/// What becomes of a notification.
#[derive(Debug, PartialEq)]
pub enum Outcome {
    /// It is an update within the grace time.
    Suppressed,
    /// The same was said just before.
    Repeated,
    /// The rule of the application says to leave it.
    Disabled,
    /// A sound is played; KDE Connect shows the popup.
    SoundOnly(Sound),
    /// A popup is shown and a sound is played.
    Popup {
        summary: String,
        content: String,
        /// How many seconds it stays, as a number text.
        timeout_s: String,
        urgency: String,
        icon: Option<String>,
        sound: Sound,
    },
}

/// An [`Outcome`] as a mathematical value.
pub enum OutcomeView {
    Suppressed,
    Repeated,
    Disabled,
    SoundOnly(SoundView),
    Popup {
        summary: Seq<char>,
        content: Seq<char>,
        timeout_s: Seq<char>,
        urgency: Seq<char>,
        icon: Option<Seq<char>>,
        sound: SoundView,
    },
}

impl View for Outcome {
    type V = OutcomeView;

    open spec fn view(&self) -> OutcomeView {
        match self {
            Outcome::Suppressed => OutcomeView::Suppressed,
            Outcome::Repeated => OutcomeView::Repeated,
            Outcome::Disabled => OutcomeView::Disabled,
            Outcome::SoundOnly(s) => OutcomeView::SoundOnly(s@),
            Outcome::Popup { summary, content, timeout_s, urgency, icon, sound } =>
                OutcomeView::Popup {
                summary: summary@,
                content: content@,
                timeout_s: timeout_s@,
                urgency: urgency@,
                icon: opt_text(*icon),
                sound: sound@,
            },
        }
    }
}

/// What was done with a notification of a handled application.
#[derive(Debug, PartialEq)]
pub struct Report {
    /// The name of the application.
    pub app: String,
    pub reason: Reason,
    /// How long ago the notification first appeared.
    pub since: u128,
    /// What was decided by the reason and that time.
    pub action: Action,
    pub outcome: Outcome,
}

/// A [`Report`] as a mathematical value.
pub struct ReportView {
    pub app: Seq<char>,
    pub reason: Reason,
    pub since: u128,
    pub action: Action,
    pub outcome: OutcomeView,
}

impl View for Report {
    type V = ReportView;

    open spec fn view(&self) -> ReportView {
        ReportView {
            app: self.app@,
            reason: self.reason,
            since: self.since,
            action: self.action,
            outcome: self.outcome@,
        }
    }
}

/// The bridge, without its connections.
pub struct Bridge {
    devices: Vec<String>,
    s: Settings,
    cfg: Config,
    state: Table<Fingerprint>,
    first_seen: Table<u128>,
    dedup: Dedup,
    booted: bool,
}

/// The state of a [`Bridge`].
pub struct BridgeView {
    pub devices: Seq<Seq<char>>,
    pub settings: SettingsView,
    pub config: ConfigView,
    /// What each notification last said, by its id.
    pub state: Seq<(Seq<char>, FingerprintView)>,
    /// When each notification first appeared, by its id.
    pub first_seen: Seq<(Seq<char>, u128)>,
    /// When each content was last handled.
    pub handled: Seq<(FingerprintView, u128)>,
    /// How long a content counts as a repeat.
    pub window: u128,
    /// Whether a poll has been completed.
    pub booted: bool,
}

impl View for Bridge {
    type V = BridgeView;

    closed spec fn view(&self) -> BridgeView {
        BridgeView {
            devices: string_texts(self.devices@),
            settings: self.s@,
            config: self.cfg@,
            state: self.state@,
            first_seen: self.first_seen@,
            handled: self.dedup@,
            window: self.dedup.span(),
            booted: self.booted,
        }
    }
}

impl BridgeView {
    /// No id and no content stands twice.
    pub open spec fn valid(self) -> bool {
        &&& distinct(self.state)
        &&& distinct(self.first_seen)
        &&& distinct(self.handled)
    }
}

/// A content that comes twice within this time is handled once.
pub const REPEAT_WINDOW: u128 = 1_500_000_000;

/// The name of the application of a notification.
pub open spec fn app_of(p: Seq<(Seq<char>, ValueView)>) -> Seq<char> {
    or_else_text(text_prop(p, "appName"@), "手机通知"@)
}

/// Whether an application is handled.
pub open spec fn is_handled(s: SettingsView, app: Seq<char>) -> bool {
    s.app_filter.len() == 0 || s.app_filter.contains(app)
}

/// The sound that goes with a notification of an application: that of the rules, or else that
/// of the command line. Where the rules mute the application, there is none.
pub open spec fn sound_of(s: SettingsView, c: ConfigView, app: Seq<char>) -> SoundView {
    if s.no_sound {
        SoundView::Off
    } else if is_muted(c, app) {
        SoundView::Unset
    } else {
        match first_of(effective_rule(c, app).sound, s.cli_sound) {
            Some(p) => if p.len() > 0 {
                SoundView::File(p)
            } else {
                SoundView::Unset
            },
            None => SoundView::Unset,
        }
    }
}

/// The popup for a notification.
pub open spec fn popup_of(
    s: SettingsView,
    c: ConfigView,
    p: Seq<(Seq<char>, ValueView)>,
) -> OutcomeView {
    let r = effective_rule(c, app_of(p));
    OutcomeView::Popup {
        summary: or_else_text(text_prop(p, "title"@), text_prop(p, "ticker"@)),
        content: body_of(content_key(p)),
        timeout_s: match r.timeout_s {
            Some(t) => t,
            None => s.timeout_s,
        },
        urgency: match r.urgency {
            Some(u) => u,
            None => "normal"@,
        },
        icon: icon_of(p),
        sound: sound_of(s, c, app_of(p)),
    }
}

/// The id under which a notification is taken note of: its own, or else that of the list of
/// notifications.
pub open spec fn note_id(p: Seq<(Seq<char>, ValueView)>, nid: Seq<char>) -> Seq<char> {
    or_else_text(text_prop(p, "internalId"@), nid)
}

/// When the notification with the given id first appeared.
pub open spec fn first_time(b: BridgeView, id: Seq<char>, now: u128) -> u128 {
    match lookup(b.first_seen, id) {
        Some(t) => t,
        None => now,
    }
}

/// The state once a notification has been taken note of.
pub open spec fn noted(
    b: BridgeView,
    p: Seq<(Seq<char>, ValueView)>,
    nid: Seq<char>,
    now: u128,
) -> BridgeView {
    let id = note_id(p, nid);
    BridgeView {
        state: with_entry(b.state, id, content_key(p)),
        first_seen: if lookup(b.first_seen, id) is Some {
            b.first_seen
        } else {
            with_entry(b.first_seen, id, now)
        },
        ..b
    }
}

/// What is decided for a notification by the reason and the time since it first
/// appeared.
pub open spec fn action_for(
    b: BridgeView,
    p: Seq<(Seq<char>, ValueView)>,
    nid: Seq<char>,
    reason: Reason,
    now: u128,
) -> Action {
    let first = first_time(b, note_id(p, nid), now);
    decision(reason, b.settings.all, elapsed(now, first), b.settings.grace)
}

/// What becomes of a notification of a handled application.
pub open spec fn outcome_for(
    b: BridgeView,
    p: Seq<(Seq<char>, ValueView)>,
    nid: Seq<char>,
    reason: Reason,
    now: u128,
) -> OutcomeView {
    let action = action_for(b, p, nid, reason, now);
    let rule = effective_rule(b.config, app_of(p));
    if action == Action::Skip {
        OutcomeView::Suppressed
    } else if is_repeat(b.handled, content_key(p), now, b.window) {
        OutcomeView::Repeated
    } else if !rule.enabled {
        OutcomeView::Disabled
    } else if action == Action::SoundOnly {
        OutcomeView::SoundOnly(sound_of(b.settings, b.config, app_of(p)))
    } else {
        popup_of(b.settings, b.config, p)
    }
}

/// The state once a notification has been dealt with.
pub open spec fn after(
    b: BridgeView,
    p: Seq<(Seq<char>, ValueView)>,
    nid: Seq<char>,
    reason: Reason,
    now: u128,
) -> BridgeView {
    if !is_handled(b.settings, app_of(p)) {
        b
    } else {
        let o = outcome_for(b, p, nid, reason, now);
        if o is Suppressed || o is Repeated {
            noted(b, p, nid, now)
        } else {
            BridgeView {
                handled: remembered(b.handled, content_key(p), now),
                ..noted(b, p, nid, now)
            }
        }
    }
}

/// What is reported of a notification; nothing, where its application is not handled.
pub open spec fn report_for(
    b: BridgeView,
    p: Seq<(Seq<char>, ValueView)>,
    nid: Seq<char>,
    reason: Reason,
    now: u128,
) -> Option<ReportView> {
    if is_handled(b.settings, app_of(p)) {
        Some(
            ReportView {
                app: app_of(p),
                reason,
                since: elapsed(now, first_time(b, note_id(p, nid), now)),
                action: action_for(b, p, nid, reason, now),
                outcome: outcome_for(b, p, nid, reason, now),
            },
        )
    } else {
        None
    }
}

/// The state once the phone has removed all notifications: they are forgotten.
pub open spec fn after_removal(b: BridgeView) -> BridgeView {
    BridgeView { state: seq![], first_seen: seq![], ..b }
}

/// The state after a new connection: the notifications are forgotten, and the next poll
/// is a first poll.
pub open spec fn after_reset(b: BridgeView) -> BridgeView {
    BridgeView { state: seq![], first_seen: seq![], booted: false, ..b }
}

impl Bridge {
    /// A bridge that has seen nothing.
    pub fn new(s: Settings, cfg: Config, devices: Vec<String>) -> (r: Self)
        ensures
            r@ == (BridgeView {
                devices: string_texts(devices@),
                settings: s@,
                config: cfg@,
                state: seq![],
                first_seen: seq![],
                handled: seq![],
                window: REPEAT_WINDOW,
                booted: false,
            }),
            r@.valid(),
    {
        Bridge {
            devices,
            s,
            cfg,
            state: Table::new(),
            first_seen: Table::new(),
            dedup: Dedup::new(REPEAT_WINDOW),
            booted: false,
        }
    }

    /// The devices whose notifications are looked at.
    pub fn devices(&self) -> (r: &Vec<String>)
        ensures
            string_texts(r@) == self@.devices,
    {
        &self.devices
    }

    /// The settings.
    pub fn settings(&self) -> (r: &Settings)
        ensures
            r@ == self@.settings,
    {
        &self.s
    }

    /// Forgets the notifications, as after a new connection: the next poll only takes
    /// note of what is there.
    pub fn reset(&mut self)
        ensures
            final(self)@ == after_reset(old(self)@),
            old(self)@.valid() ==> final(self)@.valid(),
    {
        self.state = Table::new();
        self.first_seen = Table::new();
        self.booted = false;
    }

    /// The sound that goes with a notification.
    fn sound(&self, app: &str, rule: &Rule) -> (r: Sound)
        requires
            rule@ == effective_rule(self@.config, app@),
        ensures
            r@ == sound_of(self@.settings, self@.config, app@),
    {
        if self.s.no_sound {
            return Sound::Off;
        }
        if self.cfg.mutes(app) {
            return Sound::Unset;
        }
        let file = if rule.sound.is_some() {
            opt_clone(&rule.sound)
        } else {
            opt_clone(&self.s.cli_sound)
        };
        match file {
            Some(p) => if p.as_str().is_empty() {
                Sound::Unset
            } else {
                Sound::File(p)
            },
            None => Sound::Unset,
        }
    }

    /// Takes note of what a notification says, and tells when it first appeared.
    fn note(&mut self, nid: &str, props: &Props, now: u128) -> (first: u128)
        ensures
            final(self)@ == noted(old(self)@, props@, nid@, now),
            first == first_time(old(self)@, note_id(props@, nid@), now),
            final(self).s == old(self).s,
            final(self).cfg == old(self).cfg,
            old(self)@.valid() ==> final(self)@.valid(),
    {
        let internal = props.internal_id(nid);
        self.state.insert(internal.clone(), props.fingerprint());
        let seen = match self.first_seen.get(&internal) {
            Some(t) => Some(*t),
            None => None,
        };
        match seen {
            Some(t) => t,
            None => {
                self.first_seen.insert(internal, now);
                now
            },
        }
    }

    /// Deals with a notification.
    pub fn dispatch(&mut self, nid: &str, props: &Props, reason: Reason, now: u128) -> (r: Option<
        Report,
    >)
        ensures
            final(self)@ == after(old(self)@, props@, nid@, reason, now),
            match r {
                Some(x) => report_for(old(self)@, props@, nid@, reason, now) == Some(x@),
                None => report_for(old(self)@, props@, nid@, reason, now) is None,
            },
            old(self)@.valid() ==> final(self)@.valid(),
    {
        let name = props.app();
        let app = if name.is_empty() {
            "手机通知"
        } else {
            name
        };
        if self.s.app_filter.len() > 0 && !holds(&self.s.app_filter, app) {
            return None;
        }
        let first: u128 = self.note(nid, props, now);
        let fp = props.fingerprint();
        let since: u128 = time_since(now, first);
        let action = decide(reason, self.s.all, since, self.s.grace);
        if action == Action::Skip {
            return Some(
                Report { app: app.to_string(), reason, since, action, outcome: Outcome::Suppressed },
            );
        }
        if !self.dedup.allow(&fp, now) {
            return Some(
                Report { app: app.to_string(), reason, since, action, outcome: Outcome::Repeated },
            );
        }
        let rule = self.cfg.rule_for(app);
        if !rule.enabled {
            return Some(
                Report { app: app.to_string(), reason, since, action, outcome: Outcome::Disabled },
            );
        }
        let sound = self.sound(app, &rule);
        if action == Action::SoundOnly {
            return Some(
                Report {
                    app: app.to_string(),
                    reason,
                    since,
                    action,
                    outcome: Outcome::SoundOnly(sound),
                },
            );
        }
        let outcome = Outcome::Popup {
            summary: props.summary().to_string(),
            content: props.content(),
            timeout_s: match rule.timeout_s {
                Some(t) => t,
                None => self.s.timeout_s.clone(),
            },
            urgency: match rule.urgency {
                Some(u) => u,
                None => "normal".to_string(),
            },
            icon: match props.icon() {
                Some(p) => Some(p.to_string()),
                None => None,
            },
            sound,
        };
        Some(Report { app: app.to_string(), reason, since, action, outcome })
    }
}

/// One poll: the ids of the notifications that it has found.
pub struct Round {
    seen: Vec<String>,
}

impl View for Round {
    type V = Seq<Seq<char>>;

    closed spec fn view(&self) -> Seq<Seq<char>> {
        string_texts(self.seen@)
    }
}

impl Round {
    /// A poll that has found nothing yet.
    pub fn new() -> (r: Self)
        ensures
            r@ == Seq::<Seq<char>>::empty(),
    {
        let r = Round { seen: Vec::new() };
        assert(r@ =~= Seq::<Seq<char>>::empty());
        r
    }
}

/// Why a poll deals with a notification, if it does: the notification is new, or it
/// says something else. The first poll deals with none.
pub open spec fn poll_reason(
    b: BridgeView,
    p: Seq<(Seq<char>, ValueView)>,
    nid: Seq<char>,
) -> Option<Reason> {
    if !b.booted {
        None
    } else {
        match lookup(b.state, note_id(p, nid)) {
            None => Some(Reason::Posted),
            Some(f) => if f == content_key(p) {
                None
            } else {
                Some(Reason::PollUpdate)
            },
        }
    }
}

/// The state once a poll has found a notification.
pub open spec fn after_found(
    b: BridgeView,
    p: Seq<(Seq<char>, ValueView)>,
    nid: Seq<char>,
    now: u128,
) -> BridgeView {
    match poll_reason(b, p, nid) {
        Some(reason) => after(b, p, nid, reason, now),
        None => if b.booted {
            b
        } else {
            noted(b, p, nid, now)
        },
    }
}

/// The state once a poll is done: what it has not found is forgotten.
pub open spec fn after_poll(b: BridgeView, seen: Seq<Seq<char>>) -> BridgeView {
    BridgeView {
        state: only(b.state, seen),
        first_seen: only(b.first_seen, seen),
        booted: true,
        ..b
    }
}

impl Bridge {
    /// Takes note of a notification that a poll has found, and deals with it if it is
    /// new or says something else. The first poll only takes note.
    pub fn observe(&mut self, round: &mut Round, nid: &str, props: &Props, now: u128) -> (r: Option<
        Report,
    >)
        ensures
            final(self)@ == after_found(old(self)@, props@, nid@, now),
            final(round)@ == old(round)@.push(note_id(props@, nid@)),
            match poll_reason(old(self)@, props@, nid@) {
                None => r is None,
                Some(reason) => match r {
                    Some(x) => report_for(old(self)@, props@, nid@, reason, now) == Some(x@),
                    None => report_for(old(self)@, props@, nid@, reason, now) is None,
                },
            },
            old(self)@.valid() ==> final(self)@.valid(),
    {
        let internal = props.internal_id(nid);
        let ghost found = round.seen@;
        round.seen.push(internal.clone());
        assert(round@ =~= old(round)@.push(internal@));
        let fp = props.fingerprint();
        if !self.booted {
            self.note(nid, props, now);
            return None;
        }
        let reason = match self.state.get(&internal) {
            None => Reason::Posted,
            Some(f) => {
                if f.matches(&fp) {
                    return None;
                }
                Reason::PollUpdate
            },
        };
        self.dispatch(nid, props, reason, now)
    }

    /// Ends a poll: forgets the notifications that it has not found.
    pub fn finish_poll(&mut self, round: Round)
        ensures
            final(self)@ == after_poll(old(self)@, round@),
            old(self)@.valid() ==> final(self)@.valid(),
    {
        self.state.retain(&round.seen);
        self.first_seen.retain(&round.seen);
        self.booted = true;
    }
}

/// What follows a signal.
#[derive(Debug, PartialEq)]
pub enum SignalStep {
    /// Nothing.
    Ignore,
    /// The properties of a notification are read, and it is dealt with.
    Fetch { device: String, nid: String, reason: Reason },
    /// The notifications have been forgotten.
    Cleared,
}

/// A [`SignalStep`] as a mathematical value.
pub enum SignalView {
    Ignore,
    Fetch { device: Seq<char>, nid: Seq<char>, reason: Reason },
    Cleared,
}

impl View for SignalStep {
    type V = SignalView;

    open spec fn view(&self) -> SignalView {
        match self {
            SignalStep::Ignore => SignalView::Ignore,
            SignalStep::Fetch { device, nid, reason } => SignalView::Fetch {
                device: device@,
                nid: nid@,
                reason: *reason,
            },
            SignalStep::Cleared => SignalView::Cleared,
        }
    }
}

/// The device in the path of an object.
pub open spec fn device_in(path: Seq<char>) -> Option<Seq<char>> {
    let prefix = "/modules/kdeconnect/devices/"@;
    if has_prefix(path, prefix) {
        let rest = path.skip(prefix.len() as int);
        let id = rest.take(index_of(rest, '/') as int);
        if id.len() > 0 {
            Some(id)
        } else {
            None
        }
    } else {
        None
    }
}

/// The device that a signal is about.
pub open spec fn device_of(m: MessageView) -> Option<Seq<char>> {
    device_in(
        match m.path {
            Some(p) => p,
            None => seq![],
        },
    )
}

/// What follows a signal. One about a device that is not looked at is ignored.
pub open spec fn signal_step(b: BridgeView, m: MessageView) -> SignalView {
    if m.member is None || device_of(m) is None || !b.devices.contains(device_of(m)->0) {
        SignalView::Ignore
    } else {
        let member = m.member->0;
        if member == "notificationPosted"@ || member == "notificationUpdated"@ {
            if m.body.len() > 0 && text_of(m.body[0]) is Some {
                SignalView::Fetch {
                    device: device_of(m)->0,
                    nid: text_of(m.body[0])->0,
                    reason: if member == "notificationPosted"@ {
                        Reason::Posted
                    } else {
                        Reason::Updated
                    },
                }
            } else {
                SignalView::Ignore
            }
        } else if member == "allNotificationsRemoved"@ {
            SignalView::Cleared
        } else {
            SignalView::Ignore
        }
    }
}

/// The device in the path of an object: `<id>` in
/// `/modules/kdeconnect/devices/<id>/notifications/..`.
pub fn device_from_path(path: &str) -> (r: Option<String>)
    ensures
        match r {
            Some(s) => device_in(path@) == Some(s@),
            None => device_in(path@) is None,
        },
{
    let cs = chars_of(path);
    let prefix = chars_of("/modules/kdeconnect/devices/");
    let n: usize = cs.len();
    assert(cs@.subrange(0, n as int) =~= path@);
    if !matches_at(&cs, 0, n, &prefix) {
        return None;
    }
    let start: usize = prefix.len();
    let end: usize = find_char(&cs, start, n, '/');
    proof {
        let rest = path@.skip(start as int);
        assert(cs@.subrange(start as int, n as int) =~= rest);
        assert(cs@.subrange(start as int, end as int) =~= rest.take(end - start));
    }
    if start == end {
        None
    } else {
        Some(string_of(&cs, start, end))
    }
}

proof fn lemma_index_of_first(s: Seq<char>, c: char, n: nat)
    requires
        n < s.len(),
        s[n as int] == c,
        forall|i: int| 0 <= i < n ==> s[i] != c,
    ensures
        index_of(s, c) == n,
    decreases n,
{
    if n > 0 {
        let rest = s.drop_first();
        assert forall|i: int| 0 <= i < n - 1 implies rest[i] != c by {
            assert(rest[i] == s[i + 1]);
        }
        assert(s[0] != c);
        lemma_index_of_first(rest, c, (n - 1) as nat);
    }
}

/// The device is found in the path of any object below it.
pub proof fn law_device_in_its_paths(device: Seq<char>, below: Seq<char>)
    requires
        device.len() > 0,
        forall|i: int| 0 <= i < device.len() ==> device[i] != '/',
    ensures
        device_in("/modules/kdeconnect/devices/"@ + device + "/"@ + below) == Some(device),
{
    let prefix = "/modules/kdeconnect/devices/"@;
    reveal_strlit("/");
    let path = prefix + device + "/"@ + below;
    assert(path.take(prefix.len() as int) =~= prefix);
    let rest = path.skip(prefix.len() as int);
    assert(rest =~= device + "/"@ + below);
    lemma_index_of_first(rest, '/', device.len());
    assert(rest.take(device.len() as int) =~= device);
}

impl Bridge {
    /// Takes a signal. Where the phone has removed all notifications, they are forgotten.
    pub fn on_signal(&mut self, msg: &Message) -> (r: SignalStep)
        ensures
            r@ == signal_step(old(self)@, msg@),
            final(self)@ == if signal_step(old(self)@, msg@) is Cleared {
                after_removal(old(self)@)
            } else {
                old(self)@
            },
            old(self)@.valid() ==> final(self)@.valid(),
    {
        let member = match &msg.member {
            Some(m) => m,
            None => {
                return SignalStep::Ignore;
            },
        };
        let path = match &msg.path {
            Some(p) => p.clone(),
            None => String::new(),
        };
        assert(path@ =~= match msg@.path {
            Some(p) => p,
            None => seq![],
        });
        let device = match device_from_path(&path) {
            Some(d) => d,
            None => {
                return SignalStep::Ignore;
            },
        };
        if !holds(&self.devices, &device) {
            return SignalStep::Ignore;
        }
        let posted = same(member, "notificationPosted");
        if posted || same(member, "notificationUpdated") {
            if msg.body.len() == 0 {
                return SignalStep::Ignore;
            }
            assert(models(msg.body@)[0] == msg.body@[0]@);
            match msg.body[0].as_str() {
                Some(nid) => SignalStep::Fetch {
                    device,
                    nid: nid.to_string(),
                    reason: if posted {
                        Reason::Posted
                    } else {
                        Reason::Updated
                    },
                },
                None => SignalStep::Ignore,
            }
        } else if same(member, "allNotificationsRemoved") {
            self.state = Table::new();
            self.first_seen = Table::new();
            SignalStep::Cleared
        } else {
            SignalStep::Ignore
        }
    }
}

/// The first poll deals with no notification; it only takes note of what each says.
pub proof fn law_first_poll_is_silent(
    b: BridgeView,
    p: Seq<(Seq<char>, ValueView)>,
    nid: Seq<char>,
    now: u128,
)
    requires
        !b.booted,
    ensures
        poll_reason(b, p, nid) is None,
        lookup(after_found(b, p, nid, now).state, note_id(p, nid)) == Some(content_key(p)),
        lookup(after_found(b, p, nid, now).first_seen, note_id(p, nid)) == Some(
            first_time(b, note_id(p, nid), now),
        ),
        after_found(b, p, nid, now).handled == b.handled,
        !after_found(b, p, nid, now).booted,
{
    law_entry_set(b.state, note_id(p, nid), content_key(p), note_id(p, nid));
    law_entry_set(b.first_seen, note_id(p, nid), now, note_id(p, nid));
}

/// A notification that says what it said before is left alone, and nothing changes.
pub proof fn law_unchanged_is_silent(
    b: BridgeView,
    p: Seq<(Seq<char>, ValueView)>,
    nid: Seq<char>,
    now: u128,
)
    requires
        b.booted,
        lookup(b.state, note_id(p, nid)) == Some(content_key(p)),
    ensures
        poll_reason(b, p, nid) is None,
        after_found(b, p, nid, now) == b,
{
}

/// From the second poll on, a notification that says something else than before is
/// dealt with as an update, and one that was not there as new.
pub proof fn law_change_is_noticed(
    b: BridgeView,
    p: Seq<(Seq<char>, ValueView)>,
    nid: Seq<char>,
)
    requires
        b.booted,
        lookup(b.state, note_id(p, nid)) != Some(content_key(p)),
    ensures
        poll_reason(b, p, nid) == if lookup(b.state, note_id(p, nid)) is Some {
            Some(Reason::PollUpdate)
        } else {
            Some(Reason::Posted)
        },
{
}

/// What a poll has not found is forgotten, and what it has found is kept.
pub proof fn law_poll_forgets(b: BridgeView, seen: Seq<Seq<char>>, id: Seq<char>)
    ensures
        ({
            let c = after_poll(b, seen);
            &&& c.booted
            &&& !seen.contains(id) ==> lookup(c.state, id) is None && lookup(
                c.first_seen,
                id,
            ) is None
            &&& seen.contains(id) ==> lookup(c.state, id) == lookup(b.state, id) && lookup(
                c.first_seen,
                id,
            ) == lookup(b.first_seen, id)
        }),
{
    law_only_kept(b.state, seen, id);
    law_only_kept(b.first_seen, seen, id);
}

/// After a new connection the next poll is a first poll.
pub proof fn law_reset_starts_over(
    b: BridgeView,
    p: Seq<(Seq<char>, ValueView)>,
    nid: Seq<char>,
)
    ensures
        poll_reason(after_reset(b), p, nid) is None,
{
}

/// An update after the grace time is shown, unless the same was said just before or
/// the rule of the application says to leave it.
pub proof fn law_update_is_shown(
    b: BridgeView,
    p: Seq<(Seq<char>, ValueView)>,
    nid: Seq<char>,
    reason: Reason,
    now: u128,
)
    requires
        is_handled(b.settings, app_of(p)),
        reason != Reason::Posted,
        elapsed(now, first_time(b, note_id(p, nid), now)) >= b.settings.grace,
        !is_repeat(b.handled, content_key(p), now, b.window),
        effective_rule(b.config, app_of(p)).enabled,
    ensures
        report_for(b, p, nid, reason, now) matches Some(r) && r.outcome == popup_of(
            b.settings,
            b.config,
            p,
        ),
{
}

/// A new notification is left to KDE Connect, and only its sound is played, unless all
/// notifications are to be shown.
pub proof fn law_new_notification(
    b: BridgeView,
    p: Seq<(Seq<char>, ValueView)>,
    nid: Seq<char>,
    now: u128,
)
    requires
        is_handled(b.settings, app_of(p)),
        !is_repeat(b.handled, content_key(p), now, b.window),
        effective_rule(b.config, app_of(p)).enabled,
    ensures
        report_for(b, p, nid, Reason::Posted, now) matches Some(r) && r.outcome
            == if b.settings.all {
            popup_of(b.settings, b.config, p)
        } else {
            OutcomeView::SoundOnly(sound_of(b.settings, b.config, app_of(p)))
        },
{
}

/// An application that is disabled is never shown and never heard.
pub proof fn law_disabled_is_silent(
    b: BridgeView,
    p: Seq<(Seq<char>, ValueView)>,
    nid: Seq<char>,
    reason: Reason,
    now: u128,
)
    requires
        !effective_rule(b.config, app_of(p)).enabled,
    ensures
        report_for(b, p, nid, reason, now) matches Some(r) ==> !(r.outcome is Popup)
            && !(r.outcome is SoundOnly),
{
}

/// A notification of an application that is not handled changes nothing.
pub proof fn law_filtered_changes_nothing(
    b: BridgeView,
    p: Seq<(Seq<char>, ValueView)>,
    nid: Seq<char>,
    reason: Reason,
    now: u128,
)
    requires
        b.settings.app_filter.len() > 0,
        !b.settings.app_filter.contains(app_of(p)),
    ensures
        report_for(b, p, nid, reason, now) is None,
        after(b, p, nid, reason, now) == b,
{
}

/// The sound of the rules wins over that of the command line, a muted application has none,
/// and with sounds turned off there is none at all.
pub proof fn law_sound_precedence(s: SettingsView, c: ConfigView, app: Seq<char>)
    ensures
        s.no_sound ==> sound_of(s, c, app) is Off,
        !s.no_sound && is_muted(c, app) ==> sound_of(s, c, app) is Unset,
        !s.no_sound ==> (sound_set(c, app) matches Some(f) ==> f.len() > 0 ==> sound_of(s, c, app)
            == SoundView::File(f)),
        !s.no_sound && sound_set(c, app) is None ==> (s.cli_sound matches Some(f) ==> f.len() > 0
            ==> sound_of(s, c, app) == SoundView::File(f)),
{
}

/// A signal about a device that is not looked at changes nothing, and nothing follows it.
pub proof fn law_other_devices_ignored(b: BridgeView, m: MessageView)
    requires
        device_of(m) matches Some(d) ==> !b.devices.contains(d),
    ensures
        signal_step(b, m) is Ignore,
{
}

/// How long a popup stays is set by the rule of the application, or else by the
/// default rule, or else by the command line.
pub proof fn law_timeout_precedence(b: BridgeView, p: Seq<(Seq<char>, ValueView)>)
    ensures
        ({
            let own = own_rule(b.config, app_of(p));
            let default = b.config.default.timeout_s;
            popup_of(b.settings, b.config, p)->Popup_timeout_s
                == if own matches Some(r) && r.timeout_s is Some {
                own->0.timeout_s->0
            } else if default is Some {
                default->0
            } else {
                b.settings.timeout_s
            }
        }),
{
}

/// The urgency of a popup is set by the rule of the application, or else by the default rule,
/// and else it is `normal`.
pub proof fn law_urgency_precedence(b: BridgeView, p: Seq<(Seq<char>, ValueView)>)
    ensures
        ({
            let own = own_rule(b.config, app_of(p));
            let default = b.config.default.urgency;
            popup_of(b.settings, b.config, p)->Popup_urgency == if own matches Some(r)
                && r.urgency is Some {
                own->0.urgency->0
            } else if default is Some {
                default->0
            } else {
                seq!['n', 'o', 'r', 'm', 'a', 'l']
            }
        }),
{
    reveal_strlit("normal");
    assert("normal"@ =~= seq!['n', 'o', 'r', 'm', 'a', 'l']);
}

/// A notification counts under the name in `appName`, or where that is empty, under a general
/// one; and under the id in `internalId`, or where that is empty, under the id in the list.
pub proof fn law_names_of_notifications(p: Seq<(Seq<char>, ValueView)>, nid: Seq<char>)
    ensures
        ({
            let app = text_prop(p, seq!['a', 'p', 'p', 'N', 'a', 'm', 'e']);
            let id = text_prop(p, seq!['i', 'n', 't', 'e', 'r', 'n', 'a', 'l', 'I', 'd']);
            &&& app.len() > 0 ==> app_of(p) == app
            &&& app.len() == 0 ==> app_of(p) == seq!['手', '机', '通', '知']
            &&& id.len() > 0 ==> note_id(p, nid) == id
            &&& id.len() == 0 ==> note_id(p, nid) == nid
        }),
{
    reveal_strlit("appName");
    reveal_strlit("internalId");
    reveal_strlit("手机通知");
    assert("appName"@ =~= seq!['a', 'p', 'p', 'N', 'a', 'm', 'e']);
    assert("internalId"@ =~= seq!['i', 'n', 't', 'e', 'r', 'n', 'a', 'l', 'I', 'd']);
    assert("手机通知"@ =~= seq!['手', '机', '通', '知']);
}

/// What a popup shows: the title, or without one the ticker, in its first line; the body that
/// the notification has; its icon; and it goes with the sound of the application.
pub proof fn law_popup_parts(
    b: BridgeView,
    p: Seq<(Seq<char>, ValueView)>,
    nid: Seq<char>,
    reason: Reason,
    now: u128,
)
    ensures
        report_for(b, p, nid, reason, now) matches Some(r) ==> {
            &&& r.app == app_of(p)
            &&& r.reason == reason
            &&& r.outcome matches OutcomeView::Popup {
                summary,
                content,
                timeout_s,
                urgency,
                icon,
                sound,
            } ==> {
                &&& content_key(p).title.len() > 0 ==> summary == content_key(p).title
                &&& content_key(p).title.len() == 0 ==> summary == content_key(p).ticker
                &&& content == body_of(content_key(p))
                &&& icon == icon_of(p)
                &&& sound == sound_of(b.settings, b.config, app_of(p))
                &&& timeout_s == popup_of(b.settings, b.config, p)->Popup_timeout_s
                &&& urgency == popup_of(b.settings, b.config, p)->Popup_urgency
            }
            &&& r.outcome matches OutcomeView::SoundOnly(sound) ==> sound == sound_of(
                b.settings,
                b.config,
                app_of(p),
            )
        },
{
}

/// What becomes of a notification, case by case: it is suppressed only as an update within the
/// grace time; a repeat only where the same content was dealt with less than the window ago;
/// disabled only by a rule; it pops up as an update, or where all are shown; and only its sound
/// is played otherwise. How long ago it first appeared is counted from its first appearance.
#[verifier::spinoff_prover]
#[verifier::rlimit(40)]
pub proof fn law_outcomes(
    b: BridgeView,
    p: Seq<(Seq<char>, ValueView)>,
    nid: Seq<char>,
    reason: Reason,
    now: u128,
)
    ensures
        report_for(b, p, nid, reason, now) matches Some(r) ==> {
            let first = lookup(b.first_seen, note_id(p, nid));
            let repeat = lookup(b.handled, content_key(p)) matches Some(t) && now - t < b.window
                && b.window > 0;
            let enabled = effective_rule(b.config, app_of(p)).enabled;
            let update = reason == Reason::Updated || reason == Reason::PollUpdate;
            &&& first is None ==> r.since == 0
            &&& first matches Some(t) ==> (t <= now ==> r.since == now - t) && (t > now ==> r.since
                == 0)
            &&& r.outcome is Suppressed <==> update && r.since < b.settings.grace
            &&& r.outcome is Repeated <==> !(r.outcome is Suppressed) && repeat
            &&& r.outcome is Disabled <==> !(r.outcome is Suppressed) && !repeat && !enabled
            &&& r.outcome is Popup <==> !(r.outcome is Suppressed) && !repeat && enabled && (update
                || b.settings.all)
            &&& r.outcome is SoundOnly <==> !repeat && enabled && !update && !b.settings.all
            &&& r.action == Action::Skip <==> r.outcome is Suppressed
            &&& r.action == Action::SoundOnly <==> !update && !b.settings.all
        },
        report_for(b, p, nid, reason, now) is None <==> b.settings.app_filter.len() > 0
            && !b.settings.app_filter.contains(app_of(p)),
{
}

/// What dealing with a notification changes: what it says and when it first appeared are noted
/// under its id and under no other, and its content is remembered unless it was suppressed or a
/// repeat.
#[verifier::spinoff_prover]
#[verifier::rlimit(40)]
pub proof fn law_what_is_noted(
    b: BridgeView,
    p: Seq<(Seq<char>, ValueView)>,
    nid: Seq<char>,
    reason: Reason,
    now: u128,
    other: Seq<char>,
)
    requires
        b.valid(),
        is_handled(b.settings, app_of(p)),
    ensures
        ({
            let c = after(b, p, nid, reason, now);
            let id = note_id(p, nid);
            let r = report_for(b, p, nid, reason, now)->0;
            &&& lookup(c.state, id) == Some(content_key(p))
            &&& lookup(c.first_seen, id) == match lookup(b.first_seen, id) {
                Some(t) => Some(t),
                None => Some(now),
            }
            &&& other != id ==> lookup(c.state, other) == lookup(b.state, other) && lookup(
                c.first_seen,
                other,
            ) == lookup(b.first_seen, other)
            &&& !(r.outcome is Suppressed || r.outcome is Repeated) ==> lookup(
                c.handled,
                content_key(p),
            ) == Some(now)
            &&& r.outcome is Suppressed || r.outcome is Repeated ==> c.handled == b.handled
            &&& c.booted == b.booted
        }),
{
    let id = note_id(p, nid);
    law_entry_set(b.state, id, content_key(p), other);
    law_entry_set(b.first_seen, id, now, other);
    lemma_remembered(b.handled, content_key(p), now, content_key(p));
}

/// Which signals are dealt with, by their names: a notification that is posted or updated is
/// fetched by the id that the signal carries first, and when all are removed they are forgotten.
pub proof fn law_signals(b: BridgeView, m: MessageView, device: Seq<char>, id: Seq<char>)
    requires
        device_of(m) == Some(device),
        b.devices.contains(device),
    ensures
        m.member == Some("notificationPosted"@) && m.body.len() > 0 && m.body[0]
            == ValueView::String(id) ==> signal_step(b, m) == (SignalView::Fetch {
            device,
            nid: id,
            reason: Reason::Posted,
        }),
        m.member == Some("notificationUpdated"@) && m.body.len() > 0 && m.body[0]
            == ValueView::String(id) ==> signal_step(b, m) == (SignalView::Fetch {
            device,
            nid: id,
            reason: Reason::Updated,
        }),
        m.member == Some("allNotificationsRemoved"@) ==> signal_step(b, m) is Cleared,
        m.member is None ==> signal_step(b, m) is Ignore,
{
    reveal_strlit("notificationPosted");
    reveal_strlit("notificationUpdated");
    reveal_strlit("allNotificationsRemoved");
    assert("notificationPosted"@[12] == 'P' && "notificationUpdated"@[12] == 'U'
        && "allNotificationsRemoved"@[0] == 'a');
}

/// What was handled is handled again, where it says the same, only a second and a half later.
pub proof fn law_repeat_window(
    handled: Seq<(FingerprintView, u128)>,
    key: FingerprintView,
    now: u128,
    later: u128,
)
    requires
        distinct(handled),
    ensures
        is_repeat(remembered(handled, key, now), key, later, REPEAT_WINDOW) <==> later < now
            + 1500000000,
{
    lemma_remembered(handled, key, now, key);
}

/// Once the phone has removed its notifications, and after a new connection, none of them is
/// known and none has a first time; what was handled is still remembered, and so are the settings,
/// the rules and the devices. Only a new connection makes the next poll a first poll.
pub proof fn law_forgotten(b: BridgeView, id: Seq<char>)
    ensures
        lookup(after_removal(b).state, id) is None,
        lookup(after_removal(b).first_seen, id) is None,
        lookup(after_reset(b).state, id) is None,
        lookup(after_reset(b).first_seen, id) is None,
        after_removal(b).booted == b.booted,
        !after_reset(b).booted,
        after_removal(b).handled == b.handled && after_reset(b).handled == b.handled,
        after_removal(b).settings == b.settings && after_reset(b).settings == b.settings,
        after_removal(b).config == b.config && after_reset(b).config == b.config,
        after_removal(b).devices == b.devices && after_reset(b).devices == b.devices,
        after_removal(b).window == b.window && after_reset(b).window == b.window,
{
}

} // verus!
