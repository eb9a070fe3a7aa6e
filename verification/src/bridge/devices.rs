//! Finding the devices, and waiting for them.

use crate::dbus::value::{models, text_of, Value, ValueView};
use crate::error::{Error, ErrorView};
use crate::table::string_texts;
use crate::text::{
    chars_of, lossy_text, lower, lower_of, number_in, parse_number, parts, same, split_on,
    split_ranges, string_of, text_from_utf8_lossy, trim, trim_range, trimmed,
};
use vstd::prelude::*;
use vstd::string::*;
use vstd::utf8::*;

verus! {

/// The time between two attempts to find a device.
pub const DETECT_INTERVAL: u128 = 2_000_000_000;

/// How often it is said that a device is still waited for.
pub const DETECT_HEARTBEAT: u128 = 30_000_000_000;

/// One second.
pub const SECOND: u128 = 1_000_000_000;

/// The lines that are not blank, without the white space at their ends.
pub open spec fn full_lines(lines: Seq<Seq<char>>) -> Seq<Seq<char>>
    decreases lines.len(),
{
    if lines.len() == 0 {
        seq![]
    } else {
        let rest = full_lines(lines.drop_last());
        let t = trimmed(lines.last());
        if t.len() > 0 {
            rest.push(t)
        } else {
            rest
        }
    }
}

/// The device ids in the output of the detection command, one on a line.
pub open spec fn ids_in_output(text: Seq<char>) -> Seq<Seq<char>> {
    full_lines(split_on(text, '\n'))
}

/// No device was found.
pub open spec fn no_device() -> ErrorView {
    ErrorView::Config("未发现已配对且在线的设备，可用 --device 手动指定"@)
}

/// The device ids in the text that the detection command has printed. There must be
/// one at least.
pub fn device_ids(text: &str) -> (r: Result<Vec<String>, Error>)
    ensures
        match r {
            Ok(v) => string_texts(v@) == ids_in_output(text@) && v@.len() > 0,
            Err(e) => ids_in_output(text@).len() == 0 && e@ == no_device(),
        },
{
    let cs = chars_of(text);
    assert(cs@.subrange(0, cs@.len() as int) =~= text@);
    let ranges = split_ranges(&cs, 0, cs.len(), '\n');
    let ghost lines = split_on(text@, '\n');
    let mut out: Vec<String> = Vec::new();
    let mut i: usize = 0;
    assert(string_texts(out@) =~= full_lines(lines.take(0)));
    while i < ranges.len()
        invariant
            i <= ranges@.len(),
            lines == parts(cs@, ranges@),
            forall|k: int|
                0 <= k < ranges@.len() ==> (#[trigger] ranges@[k]).0 <= ranges@[k].1 <= cs@.len(),
            string_texts(out@) == full_lines(lines.take(i as int)),
        decreases ranges@.len() - i,
    {
        let (a, b) = ranges[i];
        let (x, y) = trim_range(&cs, a, b);
        proof {
            let next = lines.take(i + 1);
            assert(next.drop_last() =~= lines.take(i as int));
            assert(next.last() == cs@.subrange(a as int, b as int));
        }
        if x < y {
            let ghost before = out@;
            let id = string_of(&cs, x, y);
            out.push(id);
            assert(string_texts(out@) =~= string_texts(before).push(id@));
        }
        i += 1;
    }
    assert(lines.take(i as int) =~= lines);
    if out.len() == 0 {
        return Err(
            Error::Config("未发现已配对且在线的设备，可用 --device 手动指定".to_string()),
        );
    }
    Ok(out)
}

/// The device ids in the bytes that the detection command has printed.
pub fn detect_devices(output: &[u8]) -> (r: Result<Vec<String>, Error>)
    ensures
        match r {
            Ok(v) => string_texts(v@) == ids_in_output(lossy_text(output@)) && v@.len() > 0,
            Err(e) => ids_in_output(lossy_text(output@)).len() == 0 && e@ == no_device(),
        },
        valid_utf8(output@) ==> lossy_text(output@) == decode_utf8(output@),
{
    let text = text_from_utf8_lossy(output);
    device_ids(&text)
}

/// How long a device is waited for.
#[derive(Debug, Clone, Copy, PartialEq, Eq, Structural)]
pub enum DetectWait {
    /// Until one is found.
    Forever,
    /// Not at all.
    Once,
    /// At most this long.
    Limited(u128),
}

/// A text with its ASCII letters in lower case.
pub open spec fn lowered(s: Seq<char>) -> Seq<char>
    decreases s.len(),
{
    if s.len() == 0 {
        seq![]
    } else {
        lowered(s.drop_last()).push(lower(s.last()))
    }
}

fn to_lower(s: &str) -> (r: String)
    ensures
        r@ == lowered(s@),
{
    let cs = chars_of(s);
    let mut out = String::new();
    let mut i: usize = 0;
    while i < cs.len()
        invariant
            i <= cs@.len(),
            cs@ == s@,
            out@ == lowered(s@.take(i as int)),
        decreases cs@.len() - i,
    {
        assert(s@.take(i + 1).drop_last() =~= s@.take(i as int));
        out.push(lower_of(cs[i]));
        i += 1;
    }
    assert(s@.take(i as int) =~= s@);
    out
}

/// What a setting of the waiting time means, if it means anything.
pub open spec fn wait_in(raw: Seq<char>) -> Option<DetectWait> {
    let s = lowered(raw);
    if s == ""@ || s == "forever"@ || s == "always"@ || s == "infinite"@ || s == "-1"@ {
        Some(DetectWait::Forever)
    } else if s == "0"@ || s == "never"@ || s == "none"@ || s == "off"@ {
        Some(DetectWait::Once)
    } else {
        match number_in(s) {
            Some(n) => if n <= u64::MAX {
                Some(DetectWait::Limited((n * SECOND) as u128))
            } else {
                None
            },
            None => None,
        }
    }
}

impl DetectWait {
    /// Reads a setting of the waiting time: a word, or a number of seconds.
    pub fn recognize(raw: &str) -> (r: Option<DetectWait>)
        ensures
            r == wait_in(raw@),
    {
        let s = to_lower(raw);
        if same(&s, "") || same(&s, "forever") || same(&s, "always") || same(&s, "infinite")
            || same(&s, "-1") {
            return Some(DetectWait::Forever);
        }
        if same(&s, "0") || same(&s, "never") || same(&s, "none") || same(&s, "off") {
            return Some(DetectWait::Once);
        }
        let cs = chars_of(&s);
        assert(cs@.subrange(0, cs@.len() as int) =~= s@);
        match parse_number(&cs, 0, cs.len(), u64::MAX) {
            Some(secs) => Some(DetectWait::Limited(secs as u128 * SECOND)),
            None => None,
        }
    }

    /// Reads a setting of the waiting time. One that means nothing counts as waiting
    /// until a device is found.
    pub fn parse(raw: &str) -> (r: Self)
        ensures
            r == match wait_in(raw@) {
                Some(w) => w,
                None => DetectWait::Forever,
            },
    {
        match DetectWait::recognize(raw) {
            Some(w) => w,
            None => DetectWait::Forever,
        }
    }

    /// The waiting time by the setting in the environment, if there is one.
    pub fn from_env(setting: Option<&str>) -> (r: Self)
        ensures
            r == match setting {
                None => DetectWait::Forever,
                Some(raw) => match wait_in(trimmed(raw@)) {
                    Some(w) => w,
                    None => DetectWait::Forever,
                },
            },
    {
        match setting {
            None => DetectWait::Forever,
            Some(raw) => DetectWait::parse(trim(raw)),
        }
    }
}

/// What is said before the next attempt to find a device.
#[derive(Debug, Clone, Copy, PartialEq, Eq, Structural)]
pub enum WaitNote {
    /// That a device is waited for.
    Announce,
    /// How long it has been.
    Heartbeat,
    /// Nothing.
    Quiet,
}

/// What is done when no device was found.
#[derive(Debug, Clone, Copy, PartialEq, Eq, Structural)]
pub enum WaitStep {
    /// Give up.
    GiveUp,
    /// Say something, then sleep for the given time and try again.
    Sleep { note: WaitNote, time: u128 },
}

/// How long a device has been waited for.
pub struct Waiting {
    wait: DetectWait,
    waited: u128,
    since_log: u128,
}

/// The state of a [`Waiting`].
pub struct WaitingView {
    pub wait: DetectWait,
    /// How long it has been.
    pub waited: u128,
    /// How long it had been when that was last said.
    pub since_log: u128,
}

impl View for Waiting {
    type V = WaitingView;

    closed spec fn view(&self) -> WaitingView {
        WaitingView { wait: self.wait, waited: self.waited, since_log: self.since_log }
    }
}

/// How long to sleep before the next attempt: the usual time, or what is left of the limit.
pub open spec fn pause(w: WaitingView) -> u128 {
    match w.wait {
        DetectWait::Limited(limit) => if limit - w.waited < DETECT_INTERVAL {
            (limit - w.waited) as u128
        } else {
            DETECT_INTERVAL
        },
        _ => DETECT_INTERVAL,
    }
}

/// What is done when no device was found.
pub open spec fn wait_step(w: WaitingView) -> WaitStep {
    if w.wait == DetectWait::Once || (w.wait matches DetectWait::Limited(limit) && w.waited
        >= limit) {
        WaitStep::GiveUp
    } else {
        let note = if w.waited == 0 {
            WaitNote::Announce
        } else if w.waited - w.since_log >= DETECT_HEARTBEAT {
            WaitNote::Heartbeat
        } else {
            WaitNote::Quiet
        };
        WaitStep::Sleep { note, time: pause(w) }
    }
}

/// The state once it has been told what is done when no device was found.
pub open spec fn after_failure(w: WaitingView) -> WaitingView {
    if wait_step(w) matches WaitStep::Sleep { note, .. } && note == WaitNote::Heartbeat {
        WaitingView { since_log: w.waited, ..w }
    } else {
        w
    }
}

/// The state once the given time has been slept.
pub open spec fn after_sleep(w: WaitingView, time: u128) -> WaitingView {
    WaitingView { waited: (w.waited + time) as u128, ..w }
}

impl Waiting {
    /// The waiting begins.
    pub fn new(wait: DetectWait) -> (r: Self)
        ensures
            r@ == (WaitingView { wait, waited: 0, since_log: 0 }),
    {
        Waiting { wait, waited: 0, since_log: 0 }
    }

    /// How long it has been.
    pub fn waited(&self) -> (r: u128)
        ensures
            r == self@.waited,
    {
        self.waited
    }

    /// Tells what is done when no device was found.
    pub fn failed(&mut self) -> (r: WaitStep)
        ensures
            r == wait_step(old(self)@),
            final(self)@ == after_failure(old(self)@),
    {
        let time: u128 = match self.wait {
            DetectWait::Once => {
                return WaitStep::GiveUp;
            },
            DetectWait::Limited(limit) => {
                if self.waited >= limit {
                    return WaitStep::GiveUp;
                }
                if limit - self.waited < DETECT_INTERVAL {
                    limit - self.waited
                } else {
                    DETECT_INTERVAL
                }
            },
            DetectWait::Forever => DETECT_INTERVAL,
        };
        let note = if self.waited == 0 {
            WaitNote::Announce
        } else if self.waited >= self.since_log && self.waited - self.since_log
            >= DETECT_HEARTBEAT {
            self.since_log = self.waited;
            WaitNote::Heartbeat
        } else {
            WaitNote::Quiet
        };
        WaitStep::Sleep { note, time }
    }

    /// Counts the time that was slept between two attempts.
    pub fn slept(&mut self, time: u128)
        requires
            old(self)@.waited + time <= u128::MAX,
        ensures
            final(self)@ == after_sleep(old(self)@, time),
    {
        self.waited = self.waited + time;
    }
}

/// Where no limit is set, the waiting is never given up; with a limit, it is given up
/// as soon as that has been reached; and without waiting, at once.
pub proof fn law_when_given_up(w: WaitingView)
    ensures
        wait_step(w) == WaitStep::GiveUp <==> match w.wait {
            DetectWait::Forever => false,
            DetectWait::Once => true,
            DetectWait::Limited(limit) => w.waited >= limit,
        },
{
}

/// The state after a number of attempts that have failed, each with the sleep behind it, until
/// the waiting is given up.
pub open spec fn after_attempts(wait: DetectWait, attempts: nat) -> WaitingView
    decreases attempts,
{
    if attempts == 0 {
        WaitingView { wait, waited: 0, since_log: 0 }
    } else {
        let w = after_attempts(wait, (attempts - 1) as nat);
        match wait_step(w) {
            WaitStep::GiveUp => w,
            WaitStep::Sleep { time, .. } => after_sleep(after_failure(w), time),
        }
    }
}

/// However many attempts fail, the time slept in all stays within the limit.
pub proof fn law_within_limit(limit: u128, attempts: nat)
    ensures
        after_attempts(DetectWait::Limited(limit), attempts).wait == DetectWait::Limited(limit),
        after_attempts(DetectWait::Limited(limit), attempts).waited <= limit,
    decreases attempts,
{
    if attempts > 0 {
        law_within_limit(limit, (attempts - 1) as nat);
    }
}

/// With a limit, the waiting is given up when all of the limit has been slept, and no earlier;
/// until then every sleep takes some time.
pub proof fn law_limit_is_used(limit: u128, attempts: nat)
    ensures
        ({
            let w = after_attempts(DetectWait::Limited(limit), attempts);
            match wait_step(w) {
                WaitStep::GiveUp => w.waited == limit,
                WaitStep::Sleep { time, .. } => 0 < time <= limit - w.waited,
            }
        }),
{
    law_within_limit(limit, attempts);
}

/// The texts in a list of values, in order.
pub open spec fn texts_in(items: Seq<ValueView>) -> Seq<Seq<char>>
    decreases items.len(),
{
    if items.len() == 0 {
        seq![]
    } else {
        let rest = texts_in(items.drop_last());
        match text_of(items.last()) {
            Some(s) => rest.push(s),
            None => rest,
        }
    }
}

/// The ids of the notifications of a device, out of the answer to
/// `activeNotifications`.
pub fn notification_ids(body: &Vec<Value>) -> (r: Option<Vec<String>>)
    ensures
        match r {
            Some(v) => body@.len() > 0 && body@[0]@ is Array && string_texts(v@) == texts_in(
                body@[0]@->Array_1,
            ),
            None => body@.len() == 0 || !(body@[0]@ is Array),
        },
{
    if body.len() == 0 {
        return None;
    }
    match body[0].as_array() {
        None => None,
        Some(items) => {
            let ghost all = models(items@);
            let mut out: Vec<String> = Vec::new();
            let mut i: usize = 0;
            assert(string_texts(out@) =~= texts_in(all.take(0)));
            while i < items.len()
                invariant
                    i <= items@.len(),
                    all == models(items@),
                    string_texts(out@) == texts_in(all.take(i as int)),
                decreases items@.len() - i,
            {
                proof {
                    let next = all.take(i + 1);
                    assert(next.drop_last() =~= all.take(i as int));
                    assert(next.last() == items@[i as int]@);
                }
                match items[i].as_str() {
                    Some(s) => {
                        let ghost before = out@;
                        out.push(s.to_string());
                        assert(string_texts(out@) =~= string_texts(before).push(s@));
                    },
                    None => {},
                }
                i += 1;
            }
            assert(all.take(i as int) =~= all);
            Some(out)
        },
    }
}

/// The object that holds the notifications of a device.
pub fn notifications_path(device: &str) -> (r: String)
    ensures
        r@ == "/modules/kdeconnect/devices/"@ + device@ + "/notifications"@,
{
    "/modules/kdeconnect/devices/".to_string().concat(device).concat("/notifications")
}

/// The object of one notification of a device.
pub fn notification_path(device: &str, nid: &str) -> (r: String)
    ensures
        r@ == "/modules/kdeconnect/devices/"@ + device@ + "/notifications/"@ + nid@,
{
    "/modules/kdeconnect/devices/".to_string().concat(device).concat("/notifications/").concat(nid)
}

/// How many seconds to wait after the given number of failed attempts in a row.
pub open spec fn backoff_after(failures: nat) -> nat
    decreases failures,
{
    if failures == 0 {
        1
    } else {
        let twice = 2 * backoff_after((failures - 1) as nat);
        if twice < 30 {
            twice
        } else {
            30
        }
    }
}

/// The wait doubles with each failed attempt until it is half a minute, and stays there.
pub proof fn law_backoff(failures: nat)
    ensures
        1 <= backoff_after(failures) <= 30,
        failures <= 4 ==> backoff_after(failures + 1) == if failures < 4 {
            2 * backoff_after(failures)
        } else {
            30
        },
        failures >= 5 ==> backoff_after(failures) == 30,
    decreases failures,
{
    reveal_with_fuel(backoff_after, 7);
    if failures > 0 {
        law_backoff((failures - 1) as nat);
    }
}

/// How long to wait before the next attempt to connect.
pub struct Backoff {
    seconds: u64,
    failures: Ghost<nat>,
}

impl View for Backoff {
    /// The number of attempts in a row that have failed.
    type V = nat;

    closed spec fn view(&self) -> nat {
        self.failures@
    }
}

impl Backoff {
    #[verifier::type_invariant]
    closed spec fn inv(&self) -> bool {
        self.seconds == backoff_after(self.failures@)
    }

    /// No attempt has failed yet.
    pub fn new() -> (r: Self)
        ensures
            r@ == 0,
    {
        Backoff { seconds: 1, failures: Ghost(0) }
    }

    /// How many seconds to wait before the next attempt.
    pub fn wait(&self) -> (r: u64)
        ensures
            r == backoff_after(self@),
    {
        proof {
            use_type_invariant(self);
        }
        self.seconds
    }

    /// Counts an attempt that has failed.
    pub fn failed(&mut self)
        ensures
            final(self)@ == old(self)@ + 1,
    {
        proof {
            use_type_invariant(&*self);
            law_backoff(self@);
        }
        let twice: u64 = 2 * self.seconds;
        let seconds: u64 = if twice < 30 {
            twice
        } else {
            30
        };
        *self = Backoff { seconds, failures: Ghost(self@ + 1) };
    }

    /// Starts over after an attempt that has succeeded.
    pub fn reconnected(&mut self)
        ensures
            final(self)@ == 0,
    {
        *self = Backoff::new();
    }
}

} // verus!
