//! The order of polling and listening.

use vstd::prelude::*;

verus! {

/// What has just happened.
#[derive(Debug, Clone, Copy, PartialEq, Eq, Structural)]
pub enum Phase {
    /// Nothing yet.
    Start,
    /// A poll was made.
    Polled,
    /// A signal was waited for, came, and was dealt with.
    Heard,
    /// No signal came in time.
    Silent,
    /// A signal that was put aside was dealt with.
    Drained,
    /// No signal is put aside.
    Empty,
}

/// What is done next.
#[derive(Debug, Clone, Copy, PartialEq, Eq, Structural)]
pub enum Turn {
    /// Poll. The next poll is due one interval after this one.
    Poll,
    /// Wait for a signal, at most this long.
    Listen(u128),
    /// Take a signal that was put aside.
    Drain,
}

/// What is done next, where the next poll is due at `deadline`: signals are listened to until
/// then, or until none comes; those that were put aside are dealt with; and then comes the
/// poll.
pub open spec fn turn_of(phase: Phase, now: u128, deadline: u128) -> Turn {
    match phase {
        Phase::Start => Turn::Poll,
        Phase::Polled => listen_until(now, deadline),
        Phase::Heard => listen_until(now, deadline),
        Phase::Silent => Turn::Drain,
        Phase::Drained => Turn::Drain,
        Phase::Empty => Turn::Poll,
    }
}

/// Listening, while there is time.
pub open spec fn listen_until(now: u128, deadline: u128) -> Turn {
    if now >= deadline {
        Turn::Drain
    } else {
        Turn::Listen((deadline - now) as u128)
    }
}

/// Tells what is done next.
pub fn next_turn(phase: Phase, now: u128, deadline: u128) -> (r: Turn)
    ensures
        r == turn_of(phase, now, deadline),
{
    match phase {
        Phase::Start => Turn::Poll,
        Phase::Polled | Phase::Heard => {
            if now >= deadline {
                Turn::Drain
            } else {
                Turn::Listen(deadline - now)
            }
        },
        Phase::Silent => Turn::Drain,
        Phase::Drained => Turn::Drain,
        Phase::Empty => Turn::Poll,
    }
}

/// Signals are listened to only before the next poll is due, and no longer than until then; and
/// once it is due, nothing but the signals put aside comes before it.
pub proof fn law_poll_is_due(phase: Phase, now: u128, deadline: u128)
    ensures
        turn_of(phase, now, deadline) matches Turn::Listen(t) ==> 0 < t && now + t == deadline,
        now >= deadline ==> !(turn_of(phase, now, deadline) is Listen),
{
}

/// A poll comes at the start, and then each time that no signal is left; signals put aside are
/// taken until there is none, and then only is there a poll. After a poll, and after a signal
/// that was heard, signals are listened to for as long as the next poll is not due.
pub proof fn law_turns(phase: Phase, now: u128, deadline: u128)
    ensures
        ({
            let t = turn_of(phase, now, deadline);
            let hears = phase == Phase::Polled || phase == Phase::Heard;
            &&& t == Turn::Poll <==> phase == Phase::Start || phase == Phase::Empty
            &&& t is Listen <==> hears && now < deadline
            &&& t == Turn::Drain <==> phase == Phase::Silent || phase == Phase::Drained || (hears
                && now >= deadline)
        }),
{
}

} // verus!
