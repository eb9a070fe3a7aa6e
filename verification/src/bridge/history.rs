//! What holds of the bridge over any number of events.

use crate::bridge::dedup::{elapsed, is_repeat, lemma_remembered, FingerprintView, MINUTE};
use crate::bridge::machine::{
    after, after_found, after_poll, after_removal, after_reset, app_of, is_handled, note_id,
    outcome_for, poll_reason, popup_of, report_for, BridgeView, ReportView,
};
use crate::bridge::props::content_key;
use crate::bridge::Reason;
use crate::config::effective_rule;
use crate::dbus::value::ValueView;
use crate::table::{law_entry_set, law_only_kept, lookup};
use vstd::prelude::*;

verus! {

/// What can happen to a bridge.
pub enum Event {
    /// A notification is dealt with.
    Dealt { p: Seq<(Seq<char>, ValueView)>, nid: Seq<char>, reason: Reason, now: u128 },
    /// A poll finds a notification.
    Found { p: Seq<(Seq<char>, ValueView)>, nid: Seq<char>, now: u128 },
    /// A poll that has found the given ids is done.
    Polled { seen: Seq<Seq<char>> },
    /// The phone removes all notifications.
    Removed,
    /// The connection is made anew.
    Reset,
}

/// The state after an event.
pub open spec fn step(b: BridgeView, e: Event) -> BridgeView {
    match e {
        Event::Dealt { p, nid, reason, now } => after(b, p, nid, reason, now),
        Event::Found { p, nid, now } => after_found(b, p, nid, now),
        Event::Polled { seen } => after_poll(b, seen),
        Event::Removed => after_removal(b),
        Event::Reset => after_reset(b),
    }
}

/// The state after a number of events.
pub open spec fn run(b: BridgeView, events: Seq<Event>) -> BridgeView
    decreases events.len(),
{
    if events.len() == 0 {
        b
    } else {
        step(run(b, events.drop_last()), events.last())
    }
}

/// An event that leaves the notification with the given id in memory.
pub open spec fn keeps(e: Event, id: Seq<char>) -> bool {
    match e {
        Event::Polled { seen } => seen.contains(id),
        Event::Removed => false,
        Event::Reset => false,
        _ => true,
    }
}

/// An event that does not happen outside the given span of time.
pub open spec fn within(e: Event, from: u128, to: u128) -> bool {
    match e {
        Event::Dealt { now, .. } => from <= now <= to,
        Event::Found { now, .. } => from <= now <= to,
        _ => true,
    }
}

/// Where the event is about the notification with the given id, that says what `p` says.
pub open spec fn agrees(e: Event, id: Seq<char>, p: Seq<(Seq<char>, ValueView)>) -> bool {
    match e {
        Event::Dealt { p: q, nid, .. } => note_id(q, nid) == id ==> content_key(q)
            == content_key(p),
        Event::Found { p: q, nid, .. } => note_id(q, nid) == id ==> content_key(q)
            == content_key(p),
        _ => true,
    }
}

proof fn lemma_step(b: BridgeView, e: Event)
    ensures
        step(b, e).settings == b.settings,
        step(b, e).config == b.config,
        step(b, e).devices == b.devices,
        step(b, e).window == b.window,
        b.valid() ==> step(b, e).valid(),
{
    match e {
        Event::Dealt { p, nid, reason, now } => lemma_after(b, p, nid, reason, now),
        Event::Found { p, nid, now } => {
            law_entry_set(b.state, note_id(p, nid), content_key(p), note_id(p, nid));
            law_entry_set(b.first_seen, note_id(p, nid), now, note_id(p, nid));
            if let Some(reason) = poll_reason(b, p, nid) {
                lemma_after(b, p, nid, reason, now);
            }
        },
        Event::Polled { seen } => {
            law_only_kept(b.state, seen, seq![]);
            law_only_kept(b.first_seen, seen, seq![]);
        },
        Event::Removed => {},
        Event::Reset => {},
    }
}

proof fn lemma_after(
    b: BridgeView,
    p: Seq<(Seq<char>, ValueView)>,
    nid: Seq<char>,
    reason: Reason,
    now: u128,
)
    ensures
        after(b, p, nid, reason, now).settings == b.settings,
        after(b, p, nid, reason, now).config == b.config,
        after(b, p, nid, reason, now).devices == b.devices,
        after(b, p, nid, reason, now).window == b.window,
        b.valid() ==> after(b, p, nid, reason, now).valid(),
{
    let id = note_id(p, nid);
    law_entry_set(b.state, id, content_key(p), id);
    law_entry_set(b.first_seen, id, now, id);
    if b.valid() {
        lemma_remembered(b.handled, content_key(p), now, content_key(p));
    }
}

/// Whatever happens, the settings, the rules and the devices stay as they are, and no id and
/// no content comes to stand twice.
pub proof fn law_settings_kept(b: BridgeView, events: Seq<Event>)
    ensures
        run(b, events).settings == b.settings,
        run(b, events).config == b.config,
        run(b, events).devices == b.devices,
        run(b, events).window == b.window,
        b.valid() ==> run(b, events).valid(),
    decreases events.len(),
{
    if events.len() > 0 {
        law_settings_kept(b, events.drop_last());
        lemma_step(run(b, events.drop_last()), events.last());
    }
}

/// When a notification first appeared is remembered until the notification is forgotten.
pub proof fn law_first_time_kept(b: BridgeView, events: Seq<Event>, id: Seq<char>)
    requires
        lookup(b.first_seen, id) is Some,
        forall|i: int| 0 <= i < events.len() ==> keeps(#[trigger] events[i], id),
    ensures
        lookup(run(b, events).first_seen, id) == lookup(b.first_seen, id),
    decreases events.len(),
{
    if events.len() > 0 {
        let front = events.drop_last();
        assert forall|i: int| 0 <= i < front.len() implies keeps(#[trigger] front[i], id) by {
            assert(front[i] == events[i]);
        }
        law_first_time_kept(b, front, id);
        let c = run(b, front);
        assert(keeps(events[events.len() - 1], id));
        match events.last() {
            Event::Dealt { p, nid, now, .. } => law_entry_set(
                c.first_seen,
                note_id(p, nid),
                now,
                id,
            ),
            Event::Found { p, nid, now } => law_entry_set(c.first_seen, note_id(p, nid), now, id),
            Event::Polled { seen } => law_only_kept(c.first_seen, seen, id),
            _ => {},
        }
    }
}

/// One message does not become two popups: when a notification has appeared, every update of
/// it within the grace time is suppressed, whatever it says, however it is found, and whatever
/// else has happened in between, as long as the notification has not gone.
pub proof fn law_one_message_one_popup(
    b: BridgeView,
    p: Seq<(Seq<char>, ValueView)>,
    nid: Seq<char>,
    t: u128,
    events: Seq<Event>,
    q: Seq<(Seq<char>, ValueView)>,
    mid: Seq<char>,
    reason: Reason,
    u: u128,
)
    requires
        is_handled(b.settings, app_of(p)),
        is_handled(b.settings, app_of(q)),
        note_id(q, mid) == note_id(p, nid),
        lookup(b.first_seen, note_id(p, nid)) is None,
        forall|i: int| 0 <= i < events.len() ==> keeps(#[trigger] events[i], note_id(p, nid)),
        reason != Reason::Posted,
        elapsed(u, t) < b.settings.grace,
    ensures
        report_for(run(after(b, p, nid, Reason::Posted, t), events), q, mid, reason, u) matches Some(
            r,
        ) && r.outcome is Suppressed,
{
    let id = note_id(p, nid);
    let c = after(b, p, nid, Reason::Posted, t);
    law_entry_set(b.first_seen, id, t, id);
    law_first_time_kept(c, events, id);
    law_settings_kept(c, events);
    lemma_after(b, p, nid, Reason::Posted, t);
}

proof fn lemma_handled_kept(
    b: BridgeView,
    events: Seq<Event>,
    p: Seq<(Seq<char>, ValueView)>,
    t: u128,
    u: u128,
)
    requires
        b.valid(),
        b.window <= MINUTE,
        elapsed(u, t) < b.window,
        lookup(b.handled, content_key(p)) matches Some(s) && t <= s <= u,
        forall|i: int| 0 <= i < events.len() ==> within(#[trigger] events[i], t, u),
    ensures
        lookup(run(b, events).handled, content_key(p)) matches Some(s) && t <= s <= u,
    decreases events.len(),
{
    if events.len() > 0 {
        let front = events.drop_last();
        assert forall|i: int| 0 <= i < front.len() implies within(#[trigger] front[i], t, u) by {
            assert(front[i] == events[i]);
        }
        lemma_handled_kept(b, front, p, t, u);
        law_settings_kept(b, front);
        let c = run(b, front);
        assert(within(events[events.len() - 1], t, u));
        match events.last() {
            Event::Dealt { p: q, now, .. } => lemma_remembered(
                c.handled,
                content_key(q),
                now,
                content_key(p),
            ),
            Event::Found { p: q, now, .. } => lemma_remembered(
                c.handled,
                content_key(q),
                now,
                content_key(p),
            ),
            _ => {},
        }
    }
}

/// The same content is not dealt with twice within the repeat window, however it is found and
/// whatever else has happened in between: the second time it is a repeat, or is suppressed.
pub proof fn law_content_handled_once(
    b: BridgeView,
    p: Seq<(Seq<char>, ValueView)>,
    nid: Seq<char>,
    first: Reason,
    t: u128,
    events: Seq<Event>,
    q: Seq<(Seq<char>, ValueView)>,
    mid: Seq<char>,
    second: Reason,
    u: u128,
)
    requires
        b.valid(),
        b.window <= MINUTE,
        is_handled(b.settings, app_of(p)),
        is_handled(b.settings, app_of(q)),
        content_key(q) == content_key(p),
        !(outcome_for(b, p, nid, first, t) is Suppressed),
        !(outcome_for(b, p, nid, first, t) is Repeated),
        t <= u,
        elapsed(u, t) < b.window,
        forall|i: int| 0 <= i < events.len() ==> within(#[trigger] events[i], t, u),
    ensures
        report_for(run(after(b, p, nid, first, t), events), q, mid, second, u) matches Some(r) && (
        r.outcome is Suppressed || r.outcome is Repeated),
{
    let c = after(b, p, nid, first, t);
    lemma_remembered(b.handled, content_key(p), t, content_key(p));
    lemma_after(b, p, nid, first, t);
    law_settings_kept(c, events);
    lemma_handled_kept(c, events, p, t, u);
}

/// Once a notification has been dealt with, polls leave it alone for as long as it says the
/// same, whatever becomes of other notifications.
pub proof fn law_seen_is_silent(
    b: BridgeView,
    p: Seq<(Seq<char>, ValueView)>,
    nid: Seq<char>,
    reason: Reason,
    now: u128,
    events: Seq<Event>,
)
    requires
        is_handled(b.settings, app_of(p)),
        forall|i: int| 0 <= i < events.len() ==> keeps(#[trigger] events[i], note_id(p, nid)),
        forall|i: int| 0 <= i < events.len() ==> agrees(#[trigger] events[i], note_id(p, nid), p),
    ensures
        poll_reason(run(after(b, p, nid, reason, now), events), p, nid) is None,
{
    let id = note_id(p, nid);
    law_entry_set(b.state, id, content_key(p), id);
    lemma_state_kept(after(b, p, nid, reason, now), events, id, p);
}

proof fn lemma_state_kept(
    b: BridgeView,
    events: Seq<Event>,
    id: Seq<char>,
    p: Seq<(Seq<char>, ValueView)>,
)
    requires
        lookup(b.state, id) == Some(content_key(p)),
        forall|i: int| 0 <= i < events.len() ==> keeps(#[trigger] events[i], id),
        forall|i: int| 0 <= i < events.len() ==> agrees(#[trigger] events[i], id, p),
    ensures
        lookup(run(b, events).state, id) == Some(content_key(p)),
    decreases events.len(),
{
    if events.len() > 0 {
        let front = events.drop_last();
        assert forall|i: int| 0 <= i < front.len() implies keeps(#[trigger] front[i], id) && agrees(
            front[i],
            id,
            p,
        ) by {
            assert(front[i] == events[i]);
        }
        lemma_state_kept(b, front, id, p);
        let c = run(b, front);
        assert(keeps(events[events.len() - 1], id) && agrees(events[events.len() - 1], id, p));
        match events.last() {
            Event::Dealt { p: q, nid, .. } => law_entry_set(
                c.state,
                note_id(q, nid),
                content_key(q),
                id,
            ),
            Event::Found { p: q, nid, .. } => law_entry_set(
                c.state,
                note_id(q, nid),
                content_key(q),
                id,
            ),
            Event::Polled { seen } => law_only_kept(c.state, seen, id),
            _ => {},
        }
    }
}

/// A notification that a poll has listed and read.
pub struct Listed {
    pub nid: Seq<char>,
    pub p: Seq<(Seq<char>, ValueView)>,
    /// When it was read.
    pub now: u128,
}

impl Listed {
    /// The id under which it is taken note of.
    pub open spec fn id(self) -> Seq<char> {
        note_id(self.p, self.nid)
    }
}

/// The ids of what a poll has listed.
pub open spec fn listed_ids(list: Seq<Listed>) -> Seq<Seq<char>> {
    Seq::new(list.len(), |i: int| list[i].id())
}

/// The state once a poll has found all that it lists.
pub open spec fn after_list(b: BridgeView, list: Seq<Listed>) -> BridgeView
    decreases list.len(),
{
    if list.len() == 0 {
        b
    } else {
        let x = list.last();
        after_found(after_list(b, list.drop_last()), x.p, x.nid, x.now)
    }
}

/// The state after a whole poll.
pub open spec fn after_whole_poll(b: BridgeView, list: Seq<Listed>) -> BridgeView {
    after_poll(after_list(b, list), listed_ids(list))
}

/// What a poll reports of the notification at the given place of its list.
pub open spec fn poll_report(b: BridgeView, list: Seq<Listed>, i: int) -> Option<ReportView> {
    let c = after_list(b, list.take(i));
    match poll_reason(c, list[i].p, list[i].nid) {
        Some(reason) => report_for(c, list[i].p, list[i].nid, reason, list[i].now),
        None => None,
    }
}

/// What a list says last of the notification with the given id.
pub open spec fn last_said(list: Seq<Listed>, id: Seq<char>) -> Option<FingerprintView>
    decreases list.len(),
{
    if list.len() == 0 {
        None
    } else if list.last().id() == id {
        Some(content_key(list.last().p))
    } else {
        last_said(list.drop_last(), id)
    }
}

/// A poll that has nothing to tell: it is the first, or all that it lists says what it said
/// before.
pub open spec fn quiet(b: BridgeView, list: Seq<Listed>) -> bool {
    !b.booted || forall|i: int|
        0 <= i < list.len() ==> lookup(b.state, (#[trigger] list[i]).id()) == Some(
            content_key(list[i].p),
        )
}

proof fn lemma_listed(list: Seq<Listed>, id: Seq<char>)
    ensures
        listed_ids(list).contains(id) <==> last_said(list, id) is Some,
    decreases list.len(),
{
    let ids = listed_ids(list);
    if list.len() > 0 {
        let front = list.drop_last();
        let some = listed_ids(front);
        lemma_listed(front, id);
        if some.contains(id) {
            let k = choose|k: int| 0 <= k < some.len() && some[k] == id;
            assert(ids[k] == id);
        }
        if list.last().id() == id {
            assert(ids[list.len() - 1] == id);
        }
        if ids.contains(id) && list.last().id() != id {
            let k = choose|k: int| 0 <= k < ids.len() && ids[k] == id;
            assert(some[k] == id);
        }
    }
}

proof fn lemma_quiet_list(b: BridgeView, list: Seq<Listed>, id: Seq<char>)
    requires
        quiet(b, list),
    ensures
        after_list(b, list).booted == b.booted,
        after_list(b, list).handled == b.handled,
        b.booted ==> after_list(b, list) == b,
        last_said(list, id) is Some ==> lookup(after_list(b, list).state, id) == last_said(
            list,
            id,
        ),
    decreases list.len(),
{
    if list.len() > 0 {
        let front = list.drop_last();
        let x = list.last();
        if b.booted {
            assert forall|i: int| 0 <= i < front.len() implies lookup(
                b.state,
                (#[trigger] front[i]).id(),
            ) == Some(content_key(front[i].p)) by {
                assert(front[i] == list[i]);
            }
            assert(lookup(b.state, list[list.len() - 1].id()) == Some(content_key(x.p)));
        }
        lemma_quiet_list(b, front, id);
        law_entry_set(after_list(b, front).state, x.id(), content_key(x.p), id);
    }
}

/// A whole poll that is the first, or that finds nothing changed, tells of nothing; and
/// afterwards exactly what it has listed is remembered.
pub proof fn law_quiet_poll(b: BridgeView, list: Seq<Listed>)
    requires
        quiet(b, list),
    ensures
        forall|i: int| 0 <= i < list.len() ==> (#[trigger] poll_report(b, list, i)) is None,
        after_whole_poll(b, list).booted,
        after_whole_poll(b, list).handled == b.handled,
        forall|id: Seq<char>| #[trigger]
            lookup(after_whole_poll(b, list).state, id) == last_said(list, id),
{
    assert forall|i: int| 0 <= i < list.len() implies (#[trigger] poll_report(
        b,
        list,
        i,
    )) is None by {
        let front = list.take(i);
        if b.booted {
            assert forall|k: int| 0 <= k < front.len() implies lookup(
                b.state,
                (#[trigger] front[k]).id(),
            ) == Some(content_key(front[k].p)) by {
                assert(front[k] == list[k]);
            }
            assert(lookup(b.state, list[i].id()) == Some(content_key(list[i].p)));
        }
        lemma_quiet_list(b, front, list[i].id());
    }
    lemma_quiet_list(b, list, seq![]);
    assert forall|id: Seq<char>| #[trigger]
        lookup(after_whole_poll(b, list).state, id) == last_said(list, id) by {
        lemma_listed(list, id);
        lemma_quiet_list(b, list, id);
        law_only_kept(after_list(b, list).state, listed_ids(list), id);
    }
}

proof fn lemma_first_list(b: BridgeView, list: Seq<Listed>, id: Seq<char>)
    requires
        !b.booted,
        lookup(b.first_seen, id) is None,
    ensures
        match lookup(after_list(b, list).first_seen, id) {
            Some(t) => exists|j: int|
                0 <= j < list.len() && (#[trigger] list[j]).id() == id && list[j].now == t,
            None => last_said(list, id) is None,
        },
    decreases list.len(),
{
    if list.len() > 0 {
        let front = list.drop_last();
        let x = list.last();
        let c = after_list(b, front);
        lemma_quiet_list(b, front, id);
        lemma_first_list(b, front, id);
        law_entry_set(c.first_seen, x.id(), x.now, id);
        match lookup(c.first_seen, id) {
            Some(t) => {
                let j = choose|j: int|
                    0 <= j < front.len() && (#[trigger] front[j]).id() == id && front[j].now == t;
                assert(list[j] == front[j]);
            },
            None => {
                assert(list[list.len() - 1] == x);
            },
        }
    }
}

proof fn lemma_booted_kept(b: BridgeView, events: Seq<Event>, id: Seq<char>)
    requires
        b.booted,
        forall|i: int| 0 <= i < events.len() ==> keeps(#[trigger] events[i], id),
    ensures
        run(b, events).booted,
    decreases events.len(),
{
    if events.len() > 0 {
        let front = events.drop_last();
        assert forall|i: int| 0 <= i < front.len() implies keeps(#[trigger] front[i], id) by {
            assert(front[i] == events[i]);
        }
        lemma_booted_kept(b, front, id);
        assert(keeps(events[events.len() - 1], id));
    }
}

/// A notification that was there at the first poll and says something else after the grace
/// time pops up, once: the first poll is when it first appeared.
pub proof fn law_change_pops_up(
    b: BridgeView,
    list: Seq<Listed>,
    p: Seq<(Seq<char>, ValueView)>,
    events: Seq<Event>,
    q: Seq<(Seq<char>, ValueView)>,
    nid: Seq<char>,
    u: u128,
)
    requires
        !b.booted,
        lookup(b.first_seen, note_id(q, nid)) is None,
        last_said(list, note_id(q, nid)) == Some(content_key(p)),
        forall|i: int| 0 <= i < events.len() ==> keeps(#[trigger] events[i], note_id(q, nid)),
        forall|i: int| 0 <= i < events.len() ==> agrees(#[trigger] events[i], note_id(q, nid), p),
        forall|i: int|
            0 <= i < list.len() ==> elapsed(u, (#[trigger] list[i]).now) >= b.settings.grace,
        content_key(q) != content_key(p),
        is_handled(b.settings, app_of(q)),
        effective_rule(b.config, app_of(q)).enabled,
        !is_repeat(
            run(after_whole_poll(b, list), events).handled,
            content_key(q),
            u,
            b.window,
        ),
    ensures
        ({
            let c = run(after_whole_poll(b, list), events);
            &&& poll_reason(c, q, nid) == Some(Reason::PollUpdate)
            &&& report_for(c, q, nid, Reason::PollUpdate, u) matches Some(r) && r.outcome
                == popup_of(b.settings, b.config, q)
            &&& poll_reason(after_found(c, q, nid, u), q, nid) is None
        }),
{
    let id = note_id(q, nid);
    let a = after_list(b, list);
    let d = after_whole_poll(b, list);
    let c = run(d, events);
    law_quiet_poll(b, list);
    lemma_first_list(b, list, id);
    lemma_listed(list, id);
    law_only_kept(a.first_seen, listed_ids(list), id);
    assert(lookup(d.state, id) == last_said(list, id));
    lemma_state_kept(d, events, id, p);
    law_first_time_kept(d, events, id);
    lemma_booted_kept(d, events, id);
    law_settings_kept(d, events);
    lemma_list_settings(b, list);
    law_entry_set(c.state, id, content_key(q), id);
}

proof fn lemma_list_settings(b: BridgeView, list: Seq<Listed>)
    ensures
        after_list(b, list).settings == b.settings,
        after_list(b, list).config == b.config,
        after_list(b, list).devices == b.devices,
        after_list(b, list).window == b.window,
    decreases list.len(),
{
    if list.len() > 0 {
        let x = list.last();
        lemma_list_settings(b, list.drop_last());
        lemma_step(
            after_list(b, list.drop_last()),
            Event::Found { p: x.p, nid: x.nid, now: x.now },
        );
    }
}

} // verus!
