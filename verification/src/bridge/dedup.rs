//! What a notification says, and whether it was said just before.

use crate::table::{
    distinct, key_index, law_entry_set, lemma_key_absent, lemma_key_index, lemma_lookup_push,
    lookup, with_entry,
};
use crate::text::same;
use vstd::prelude::*;
use vstd::seq_lib::*;
use vstd::set_lib::*;
use vstd::string::*;

verus! {

/// What a notification says.
#[derive(Debug, PartialEq, Eq)]
pub struct Fingerprint {
    pub ticker: String,
    pub title: String,
    pub text: String,
}

/// A [`Fingerprint`] as a mathematical value.
pub struct FingerprintView {
    pub ticker: Seq<char>,
    pub title: Seq<char>,
    pub text: Seq<char>,
}

impl View for Fingerprint {
    type V = FingerprintView;

    open spec fn view(&self) -> FingerprintView {
        FingerprintView { ticker: self.ticker@, title: self.title@, text: self.text@ }
    }
}

impl Clone for Fingerprint {
    fn clone(&self) -> (r: Self)
        ensures
            r@ == self@,
    {
        Fingerprint {
            ticker: self.ticker.clone(),
            title: self.title.clone(),
            text: self.text.clone(),
        }
    }
}

impl Fingerprint {
    /// Whether two fingerprints say the same.
    pub fn matches(&self, other: &Fingerprint) -> (r: bool)
        ensures
            r == (self@ == other@),
    {
        same(&self.ticker, &other.ticker) && same(&self.title, &other.title) && same(
            &self.text,
            &other.text,
        )
    }
}

/// How long after `earlier` the time `now` is; nothing, where it is before.
pub open spec fn elapsed(now: u128, earlier: u128) -> u128 {
    if now >= earlier {
        (now - earlier) as u128
    } else {
        0
    }
}

pub(crate) fn time_since(now: u128, earlier: u128) -> (r: u128)
    ensures
        r == elapsed(now, earlier),
{
    if now >= earlier {
        now - earlier
    } else {
        0
    }
}

/// One minute.
pub const MINUTE: u128 = 60_000_000_000;

/// More contents than this are not remembered for longer than a minute.
pub const MANY: usize = 256;

/// The contents seen within the last minute.
pub open spec fn recent(entries: Seq<(FingerprintView, u128)>, now: u128) -> Seq<
    (FingerprintView, u128),
>
    decreases entries.len(),
{
    if entries.len() == 0 {
        seq![]
    } else {
        let rest = recent(entries.drop_last(), now);
        if elapsed(now, entries.last().1) < MINUTE {
            rest.push(entries.last())
        } else {
            rest
        }
    }
}

/// Whether a content was seen less than `window` ago.
pub open spec fn is_repeat(
    entries: Seq<(FingerprintView, u128)>,
    key: FingerprintView,
    now: u128,
    window: u128,
) -> bool {
    lookup(entries, key) matches Some(last) && elapsed(now, last) < window
}

/// The contents remembered once one has been seen.
pub open spec fn remembered(
    entries: Seq<(FingerprintView, u128)>,
    key: FingerprintView,
    now: u128,
) -> Seq<(FingerprintView, u128)> {
    let all = with_entry(entries, key, now);
    if all.len() > MANY {
        recent(all, now)
    } else {
        all
    }
}

/// Remembers contents, so that one that comes twice within a short time is handled
/// once.
pub struct Dedup {
    entries: Vec<(Fingerprint, u128)>,
    window: u128,
}

/// The contents of a list and when they were last seen.
pub open spec fn seen_models(v: Seq<(Fingerprint, u128)>) -> Seq<(FingerprintView, u128)> {
    Seq::new(v.len(), |i: int| (v[i].0@, v[i].1))
}

impl View for Dedup {
    type V = Seq<(FingerprintView, u128)>;

    /// The contents remembered, each with when it was last handled.
    closed spec fn view(&self) -> Seq<(FingerprintView, u128)> {
        seen_models(self.entries@)
    }
}

impl Dedup {
    /// How long a content counts as a repeat.
    pub closed spec fn span(&self) -> u128 {
        self.window
    }

    /// Nothing has been seen yet.
    pub fn new(window: u128) -> (r: Self)
        ensures
            r@ == Seq::<(FingerprintView, u128)>::empty(),
            r.span() == window,
            distinct(r@),
    {
        let r = Dedup { entries: Vec::with_capacity(64), window };
        assert(r@ =~= Seq::<(FingerprintView, u128)>::empty());
        r
    }

    /// Where a content stands among those remembered.
    fn position(&self, key: &Fingerprint) -> (r: usize)
        ensures
            r == key_index(self@, key@),
            r <= self.entries@.len(),
    {
        let ghost all = self@;
        let mut i: usize = 0;
        assert(all.skip(0) =~= all);
        while i < self.entries.len()
            invariant
                i <= self.entries@.len(),
                all == self@,
                all.len() == self.entries@.len(),
                key_index(all, key@) == i + key_index(all.skip(i as int), key@),
            decreases self.entries@.len() - i,
        {
            assert(all.skip(i as int)[0].0 == self.entries@[i as int].0@);
            if self.entries[i].0.matches(key) {
                return i;
            }
            assert(all.skip(i as int).drop_first() =~= all.skip(i + 1));
            i += 1;
        }
        i
    }

    /// Whether a content is to be handled now. If so, it is remembered.
    pub fn allow(&mut self, key: &Fingerprint, now: u128) -> (r: bool)
        ensures
            final(self).span() == old(self).span(),
            r == !is_repeat(old(self)@, key@, now, old(self).span()),
            final(self)@ == if r {
                remembered(old(self)@, key@, now)
            } else {
                old(self)@
            },
            distinct(old(self)@) ==> distinct(final(self)@),
    {
        let i: usize = self.position(key);
        proof {
            lemma_key_index(self@, key@);
            law_entry_set(self@, key@, now, key@);
        }
        if i < self.entries.len() {
            if time_since(now, self.entries[i].1) < self.window {
                return false;
            }
            let k = self.entries[i].0.clone();
            self.entries.set(i, (k, now));
        } else {
            self.entries.push((key.clone(), now));
        }
        assert(self@ =~= with_entry(old(self)@, key@, now));
        if self.entries.len() > MANY {
            self.forget(now);
        }
        true
    }

    /// Forgets what was last seen a minute ago or before.
    fn forget(&mut self, now: u128)
        ensures
            final(self).span() == old(self).span(),
            final(self)@ == recent(old(self)@, now),
            distinct(old(self)@) ==> distinct(final(self)@),
    {
        let ghost all = self@;
        proof {
            lemma_recent(all, now);
        }
        let mut kept: Vec<(Fingerprint, u128)> = Vec::new();
        let mut i: usize = 0;
        assert(seen_models(kept@) =~= recent(all.take(0), now));
        while i < self.entries.len()
            invariant
                i <= self.entries@.len(),
                all == self@,
                *self == *old(self),
                seen_models(kept@) == recent(all.take(i as int), now),
            decreases self.entries@.len() - i,
        {
            proof {
                let next = all.take(i + 1);
                assert(next.drop_last() =~= all.take(i as int));
                assert(next.last() == (self.entries@[i as int].0@, self.entries@[i as int].1));
            }
            if time_since(now, self.entries[i].1) < MINUTE {
                let ghost before = kept@;
                let k = self.entries[i].0.clone();
                let t: u128 = self.entries[i].1;
                kept.push((k, t));
                assert(seen_models(kept@) =~= seen_models(before).push((k@, t)));
            }
            i += 1;
        }
        assert(all.take(i as int) =~= all);
        self.entries = kept;
    }
}

proof fn lemma_recent(entries: Seq<(FingerprintView, u128)>, now: u128)
    ensures
        forall|j: int|
            0 <= j < recent(entries, now).len() ==> entries.contains(
                #[trigger] recent(entries, now)[j],
            ),
        distinct(entries) ==> distinct(recent(entries, now)),
    decreases entries.len(),
{
    if entries.len() > 0 {
        let front = entries.drop_last();
        let rest = recent(front, now);
        lemma_recent(front, now);
        let all = recent(entries, now);
        assert forall|j: int| 0 <= j < all.len() implies entries.contains(#[trigger] all[j]) by {
            if j < rest.len() {
                assert(front.contains(rest[j]));
                let k = choose|k: int| 0 <= k < front.len() && front[k] == rest[j];
                assert(entries[k] == rest[j]);
            } else {
                assert(entries[entries.len() - 1] == all[j]);
            }
        }
        if distinct(entries) {
            assert forall|i: int, j: int| 0 <= i < j < front.len() implies (#[trigger] front[i]).0
                != (#[trigger] front[j]).0 by {
                assert(entries[i].0 != entries[j].0);
            }
            assert forall|i: int, j: int| 0 <= i < j < all.len() implies (#[trigger] all[i]).0 != (
            #[trigger] all[j]).0 by {
                if j < rest.len() {
                    assert(rest[i].0 != rest[j].0);
                } else {
                    assert(front.contains(rest[i]));
                    let k = choose|k: int| 0 <= k < front.len() && front[k] == rest[i];
                    assert(entries[k].0 != entries[entries.len() - 1].0);
                }
            }
        }
    }
}

proof fn lemma_recent_lookup(
    entries: Seq<(FingerprintView, u128)>,
    now: u128,
    key: FingerprintView,
)
    requires
        distinct(entries),
    ensures
        lookup(recent(entries, now), key) == match lookup(entries, key) {
            Some(t) => if elapsed(now, t) < MINUTE {
                Some(t)
            } else {
                None
            },
            None => None,
        },
    decreases entries.len(),
{
    if entries.len() > 0 {
        let front = entries.drop_last();
        let last = entries.last();
        assert forall|i: int, j: int| 0 <= i < j < front.len() implies (#[trigger] front[i]).0 != (
        #[trigger] front[j]).0 by {
            assert(entries[i].0 != entries[j].0);
        }
        lemma_recent_lookup(front, now, key);
        assert(front.push(last) =~= entries);
        lemma_lookup_push(front, last, key);
        lemma_lookup_push(recent(front, now), last, key);
        if last.0 == key {
            assert forall|j: int| 0 <= j < front.len() implies (#[trigger] front[j]).0 != key by {
                assert(entries[j].0 != entries[entries.len() - 1].0);
            }
            lemma_key_absent(front, key);
        }
    }
}

/// What is remembered of a content once one has been seen: that one was seen now, and any
/// other when it was seen before, or nothing, where more than a minute has passed.
pub proof fn lemma_remembered(
    entries: Seq<(FingerprintView, u128)>,
    key: FingerprintView,
    now: u128,
    other: FingerprintView,
)
    requires
        distinct(entries),
    ensures
        distinct(remembered(entries, key, now)),
        lookup(remembered(entries, key, now), key) == Some(now),
        other != key ==> (lookup(entries, other) matches Some(t) ==> elapsed(now, t) < MINUTE
            ==> lookup(remembered(entries, key, now), other) == Some(t)),
{
    let all = with_entry(entries, key, now);
    law_entry_set(entries, key, now, other);
    lemma_recent(all, now);
    lemma_recent_lookup(all, now, key);
    lemma_recent_lookup(all, now, other);
}

/// A content that has been handled is refused until the window has passed, and
/// accepted again from then on.
pub proof fn law_handled_once(
    entries: Seq<(FingerprintView, u128)>,
    key: FingerprintView,
    now: u128,
    later: u128,
    window: u128,
)
    requires
        distinct(entries),
    ensures
        is_repeat(remembered(entries, key, now), key, later, window) <==> elapsed(later, now)
            < window,
{
    lemma_remembered(entries, key, now, key);
}

/// Without a window, no content is ever refused.
pub proof fn law_no_window(entries: Seq<(FingerprintView, u128)>, key: FingerprintView, now: u128)
    ensures
        !is_repeat(entries, key, now, 0),
{
}

/// Handling one content does not make another one a repeat.
pub proof fn law_contents_independent(
    entries: Seq<(FingerprintView, u128)>,
    key: FingerprintView,
    other: FingerprintView,
    now: u128,
    later: u128,
    window: u128,
)
    requires
        distinct(entries),
        other != key,
    ensures
        is_repeat(remembered(entries, key, now), other, later, window) ==> is_repeat(
            entries,
            other,
            later,
            window,
        ),
{
    let all = with_entry(entries, key, now);
    law_entry_set(entries, key, now, other);
    lemma_recent_lookup(all, now, other);
}

/// A call of [`Dedup::allow`].
pub struct Call {
    pub key: FingerprintView,
    pub now: u128,
}

/// What is remembered after a row of calls.
pub open spec fn after_calls(calls: Seq<Call>, window: u128) -> Seq<(FingerprintView, u128)>
    decreases calls.len(),
{
    if calls.len() == 0 {
        seq![]
    } else {
        let e = after_calls(calls.drop_last(), window);
        let c = calls.last();
        if is_repeat(e, c.key, c.now, window) {
            e
        } else {
            remembered(e, c.key, c.now)
        }
    }
}

/// Whether the call at the given place of a row is accepted.
pub open spec fn accepted(calls: Seq<Call>, window: u128, i: int) -> bool {
    !is_repeat(after_calls(calls.take(i), window), calls[i].key, calls[i].now, window)
}

/// The contents that a row of calls is about.
pub open spec fn contents(calls: Seq<Call>) -> Set<FingerprintView> {
    calls.map_values(|c: Call| c.key).to_set()
}

/// When a content was last accepted.
pub open spec fn last_accepted(calls: Seq<Call>, window: u128, key: FingerprintView) -> Option<u128>
    decreases calls.len(),
{
    if calls.len() == 0 {
        None
    } else if calls.last().key == key && accepted(calls, window, calls.len() - 1) {
        Some(calls.last().now)
    } else {
        last_accepted(calls.drop_last(), window, key)
    }
}

/// The calls come one after the other, the last not after `now`.
pub open spec fn in_time(calls: Seq<Call>, now: u128) -> bool {
    &&& forall|i: int, j: int|
        0 <= i < j < calls.len() ==> (#[trigger] calls[i]).now <= (#[trigger] calls[j]).now
    &&& forall|i: int| 0 <= i < calls.len() ==> (#[trigger] calls[i]).now <= now
}

proof fn lemma_few_keys(e: Seq<(FingerprintView, u128)>, keys: Set<FingerprintView>)
    requires
        distinct(e),
        keys.finite(),
        forall|i: int| 0 <= i < e.len() ==> keys.contains((#[trigger] e[i]).0),
    ensures
        e.len() <= keys.len(),
{
    let names = e.map_values(|x: (FingerprintView, u128)| x.0);
    assert forall|i: int, j: int|
        0 <= i < names.len() && 0 <= j < names.len() && i != j implies names[i] != names[j] by {
        if i < j {
            assert(e[i].0 != e[j].0);
        } else {
            assert(e[j].0 != e[i].0);
        }
    }
    names.unique_seq_to_set();
    assert forall|k: FingerprintView| names.to_set().contains(k) implies keys.contains(k) by {
        let i = choose|i: int| 0 <= i < names.len() && names[i] == k;
        assert(keys.contains(e[i].0));
    }
    lemma_len_subset(names.to_set(), keys);
}

proof fn lemma_contents(calls: Seq<Call>)
    ensures
        contents(calls).finite(),
        calls.len() > 0 ==> {
            &&& contents(calls.drop_last()).subset_of(contents(calls))
            &&& contents(calls).contains(calls.last().key)
        },
{
    let keys = calls.map_values(|c: Call| c.key);
    seq_to_set_is_finite(keys);
    if calls.len() > 0 {
        let some = calls.drop_last().map_values(|c: Call| c.key);
        assert forall|k: FingerprintView| some.to_set().contains(k) implies keys.to_set().contains(
            k,
        ) by {
            let i = choose|i: int| 0 <= i < some.len() && some[i] == k;
            assert(keys[i] == k);
        }
        assert(keys[calls.len() - 1] == calls.last().key);
    }
}

/// Only contents of the calls are remembered, and none twice, not even before old ones are
/// forgotten.
proof fn lemma_known_contents(calls: Seq<Call>, window: u128)
    ensures
        distinct(after_calls(calls, window)),
        forall|i: int|
            0 <= i < after_calls(calls, window).len() ==> contents(calls).contains(
                (#[trigger] after_calls(calls, window)[i]).0,
            ),
        calls.len() > 0 ==> with_entry(
            after_calls(calls.drop_last(), window),
            calls.last().key,
            calls.last().now,
        ).len() <= contents(calls).len(),
    decreases calls.len(),
{
    let e = after_calls(calls, window);
    lemma_contents(calls);
    if calls.len() > 0 {
        let front = calls.drop_last();
        let c = calls.last();
        let d = after_calls(front, window);
        let all = with_entry(d, c.key, c.now);
        lemma_known_contents(front, window);
        law_entry_set(d, c.key, c.now, c.key);
        lemma_recent(all, c.now);
        lemma_key_index(d, c.key);
        assert forall|i: int| 0 <= i < d.len() implies contents(calls).contains(
            (#[trigger] d[i]).0,
        ) by {
            assert(contents(front).contains(d[i].0));
        }
        assert forall|i: int| 0 <= i < all.len() implies contents(calls).contains(
            (#[trigger] all[i]).0,
        ) by {
            if i < d.len() {
                assert(contents(calls).contains(d[i].0));
            }
        }
        lemma_few_keys(all, contents(calls));
        assert forall|i: int| 0 <= i < e.len() implies contents(calls).contains(
            (#[trigger] e[i]).0,
        ) by {
            if !is_repeat(d, c.key, c.now, window) && all.len() > MANY {
                assert(all.contains(e[i]));
                let k = choose|k: int| 0 <= k < all.len() && all[k] == e[i];
                assert(contents(calls).contains(all[k].0));
            }
        }
    }
}

proof fn lemma_row(calls: Seq<Call>, window: u128, key: FingerprintView, now: u128)
    requires
        in_time(calls, now),
        window <= MINUTE || contents(calls).len() <= MANY,
    ensures
        match last_accepted(calls, window, key) {
            Some(t) => t <= now && (lookup(after_calls(calls, window), key) == Some(t) || (lookup(
                after_calls(calls, window),
                key,
            ) is None && window <= MINUTE && elapsed(now, t) >= MINUTE)),
            None => lookup(after_calls(calls, window), key) is None,
        },
    decreases calls.len(),
{
    if calls.len() > 0 {
        let front = calls.drop_last();
        let c = calls.last();
        let d = after_calls(front, window);
        assert(forall|i: int| 0 <= i < front.len() ==> front[i] == calls[i]);
        assert forall|i: int| 0 <= i < front.len() implies (#[trigger] front[i]).now <= c.now by {
            assert(calls[i].now <= calls[calls.len() - 1].now);
        }
        assert(c.now <= now) by {
            assert(calls[calls.len() - 1].now <= now);
        }
        lemma_known_contents(calls, window);
        lemma_known_contents(front, window);
        lemma_contents(calls);
        lemma_len_subset(contents(front), contents(calls));
        lemma_row(front, window, key, c.now);
        assert(calls.take(calls.len() - 1) =~= front);
        law_entry_set(d, c.key, c.now, key);
        lemma_recent_lookup(with_entry(d, c.key, c.now), c.now, key);
    }
}

proof fn lemma_last_accepted(calls: Seq<Call>, window: u128, key: FingerprintView, now: u128)
    requires
        in_time(calls, now),
    ensures
        last_accepted(calls, window, key) matches Some(t) ==> exists|i: int|
            0 <= i < calls.len() && (#[trigger] calls[i]).key == key && calls[i].now == t
                && accepted(calls, window, i),
        forall|i: int|
            0 <= i < calls.len() && (#[trigger] calls[i]).key == key && accepted(calls, window, i)
                ==> (last_accepted(calls, window, key) matches Some(t) && calls[i].now <= t),
    decreases calls.len(),
{
    if calls.len() > 0 {
        let front = calls.drop_last();
        let n = calls.len() - 1;
        assert(forall|i: int| 0 <= i < front.len() ==> front[i] == calls[i]);
        lemma_last_accepted(front, window, key, now);
        assert forall|i: int| 0 <= i < n implies #[trigger] accepted(front, window, i) == accepted(
            calls,
            window,
            i,
        ) by {
            assert(front.take(i) =~= calls.take(i));
        }
        if !(calls.last().key == key && accepted(calls, window, n)) {
            if let Some(t) = last_accepted(front, window, key) {
                let i = choose|i: int|
                    0 <= i < front.len() && (#[trigger] front[i]).key == key && front[i].now == t
                        && accepted(front, window, i);
                assert(calls[i].key == key && accepted(calls, window, i));
            }
        } else {
            assert(calls[n].key == key);
        }
        assert forall|i: int|
            0 <= i < calls.len() && (#[trigger] calls[i]).key == key && accepted(
                calls,
                window,
                i,
            ) implies (last_accepted(calls, window, key) matches Some(t) && calls[i].now <= t) by {
            if i < n {
                assert(front[i].key == key && accepted(front, window, i));
                assert(calls[i].now <= calls[n].now);
            }
        }
    }
}

/// Over any row of calls, one after the other, a content is refused exactly where the same
/// content was accepted less than the window ago: calls about other contents do not matter, and
/// a call that was refused does not start the window anew. The window is at most a minute, or
/// there are not many contents.
pub proof fn law_row_of_calls(calls: Seq<Call>, window: u128, key: FingerprintView, now: u128)
    requires
        in_time(calls, now),
        window <= MINUTE || contents(calls).len() <= MANY,
    ensures
        is_repeat(after_calls(calls, window), key, now, window) <==> exists|i: int|
            0 <= i < calls.len() && (#[trigger] calls[i]).key == key && accepted(calls, window, i)
                && now - calls[i].now < window,
{
    lemma_row(calls, window, key, now);
    lemma_last_accepted(calls, window, key, now);
    if is_repeat(after_calls(calls, window), key, now, window) {
        let t = last_accepted(calls, window, key)->0;
        let i = choose|i: int|
            0 <= i < calls.len() && (#[trigger] calls[i]).key == key && calls[i].now == t
                && accepted(calls, window, i);
        assert(calls[i].key == key && accepted(calls, window, i) && now - calls[i].now < window);
    }
}

/// The time since an earlier moment is the difference, and nothing where the moment lies ahead.
pub proof fn law_elapsed(now: u128, earlier: u128)
    ensures
        now >= earlier ==> elapsed(now, earlier) + earlier == now,
        now < earlier ==> elapsed(now, earlier) == 0,
{
}

/// A content that was seen stays in memory, whatever else is seen, as long as no more than 256
/// contents are there; beyond that, those seen a minute ago or earlier are forgotten, and no
/// others. What is seen now is always in memory.
pub proof fn law_memory(
    entries: Seq<(FingerprintView, u128)>,
    key: FingerprintView,
    other: FingerprintView,
    seen: u128,
    now: u128,
)
    requires
        distinct(entries),
        other != key,
        lookup(entries, other) == Some(seen),
    ensures
        lookup(remembered(entries, key, now), key) == Some(now),
        with_entry(entries, key, now).len() <= 256 ==> lookup(
            remembered(entries, key, now),
            other,
        ) == Some(seen),
        with_entry(entries, key, now).len() > 256 ==> lookup(remembered(entries, key, now), other)
            == (if now >= seen + 60000000000 {
            None
        } else {
            Some(seen)
        }),
{
    let all = with_entry(entries, key, now);
    law_entry_set(entries, key, now, other);
    lemma_recent_lookup(all, now, key);
    lemma_recent_lookup(all, now, other);
}

} // verus!
