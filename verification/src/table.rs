//! Tables with text keys.

use crate::text::same;
use vstd::prelude::*;
use vstd::string::*;
use vstd::utf8::*;

verus! {

/// Where an entry with the given key first stands, or the number of entries where
/// there is none.
pub open spec fn key_index<K, V>(entries: Seq<(K, V)>, key: K) -> nat
    decreases entries.len(),
{
    if entries.len() == 0 || entries[0].0 == key {
        0
    } else {
        1 + key_index(entries.drop_first(), key)
    }
}

/// The value under the given key: that of the first entry with it.
pub open spec fn lookup<K, V>(entries: Seq<(K, V)>, key: K) -> Option<V> {
    let i = key_index(entries, key);
    if i < entries.len() {
        Some(entries[i as int].1)
    } else {
        None
    }
}

/// The entries with one of them set: in its place where the key is there, or else at
/// the end.
pub open spec fn with_entry<K, V>(
    entries: Seq<(K, V)>,
    key: K,
    value: V,
) -> Seq<(K, V)> {
    let i = key_index(entries, key);
    if i < entries.len() {
        entries.update(i as int, (key, value))
    } else {
        entries.push((key, value))
    }
}

/// The entries without those with the given key.
pub open spec fn without<K, V>(entries: Seq<(K, V)>, key: K) -> Seq<(K, V)>
    decreases entries.len(),
{
    if entries.len() == 0 {
        seq![]
    } else {
        let rest = without(entries.drop_last(), key);
        if entries.last().0 == key {
            rest
        } else {
            rest.push(entries.last())
        }
    }
}

/// The entries whose keys are in a list.
pub open spec fn only<K, V>(entries: Seq<(K, V)>, keys: Seq<K>) -> Seq<
    (K, V),
>
    decreases entries.len(),
{
    if entries.len() == 0 {
        seq![]
    } else {
        let rest = only(entries.drop_last(), keys);
        if keys.contains(entries.last().0) {
            rest.push(entries.last())
        } else {
            rest
        }
    }
}

/// No key stands twice.
pub open spec fn distinct<K, V>(entries: Seq<(K, V)>) -> bool {
    forall|i: int, j: int|
        0 <= i < j < entries.len() ==> (#[trigger] entries[i]).0 != (#[trigger] entries[j]).0
}

/// What is known of the first entry with a key.
pub proof fn lemma_key_index<K, V>(entries: Seq<(K, V)>, key: K)
    ensures
        key_index(entries, key) <= entries.len(),
        key_index(entries, key) < entries.len() ==> entries[key_index(entries, key) as int].0
            == key,
        forall|j: int| 0 <= j < key_index(entries, key) ==> (#[trigger] entries[j]).0 != key,
    decreases entries.len(),
{
    if entries.len() > 0 && entries[0].0 != key {
        lemma_key_index(entries.drop_first(), key);
        assert forall|j: int| 0 <= j < key_index(entries, key) implies (#[trigger] entries[j]).0
            != key by {
            if j > 0 {
                assert(entries.drop_first()[j - 1] == entries[j]);
            }
        }
    }
}

/// An entry that stands first with its key is the one that is found.
pub proof fn lemma_key_found<K, V>(entries: Seq<(K, V)>, key: K, i: int)
    requires
        0 <= i < entries.len(),
        entries[i].0 == key,
        forall|j: int| 0 <= j < i ==> (#[trigger] entries[j]).0 != key,
    ensures
        key_index(entries, key) == i,
{
    lemma_key_index(entries, key);
    if key_index(entries, key) < i {
        assert(entries[key_index(entries, key) as int].0 != key);
    }
}

/// A key that no entry has is not found.
pub proof fn lemma_key_absent<K, V>(entries: Seq<(K, V)>, key: K)
    requires
        forall|j: int| 0 <= j < entries.len() ==> (#[trigger] entries[j]).0 != key,
    ensures
        key_index(entries, key) == entries.len(),
{
    lemma_key_index(entries, key);
}

/// A value that is set under a key is found there, the values under other keys stay,
/// and no key comes to stand twice.
pub proof fn law_entry_set<K, V>(
    entries: Seq<(K, V)>,
    key: K,
    value: V,
    other: K,
)
    ensures
        lookup(with_entry(entries, key, value), key) == Some(value),
        other != key ==> lookup(with_entry(entries, key, value), other) == lookup(entries, other),
        distinct(entries) ==> distinct(with_entry(entries, key, value)),
{
    let now = with_entry(entries, key, value);
    let i = key_index(entries, key);
    lemma_key_index(entries, key);
    lemma_key_found(now, key, i as int);
    if other != key {
        lemma_key_index(entries, other);
        let k = key_index(entries, other);
        if k < entries.len() {
            assert(now[k as int] == entries[k as int]);
            lemma_key_found(now, other, k as int);
        } else {
            assert forall|j: int| 0 <= j < now.len() implies (#[trigger] now[j]).0 != other by {
                if j < entries.len() {
                    assert(entries[j].0 != other);
                }
            }
            lemma_key_absent(now, other);
        }
    }
}

proof fn lemma_without_source<K, V>(entries: Seq<(K, V)>, key: K)
    ensures
        forall|j: int|
            0 <= j < without(entries, key).len() ==> (#[trigger] without(entries, key)[j]).0 != key,
        forall|j: int|
            0 <= j < without(entries, key).len() ==> entries.contains(
                #[trigger] without(entries, key)[j],
            ),
        distinct(entries) ==> distinct(without(entries, key)),
    decreases entries.len(),
{
    if entries.len() > 0 {
        let front = entries.drop_last();
        let rest = without(front, key);
        lemma_without_source(front, key);
        let now = without(entries, key);
        assert forall|j: int| 0 <= j < now.len() implies entries.contains(#[trigger] now[j]) by {
            if j < rest.len() {
                assert(front.contains(rest[j]));
                let k = choose|k: int| 0 <= k < front.len() && front[k] == rest[j];
                assert(entries[k] == rest[j]);
            } else {
                assert(entries[entries.len() - 1] == now[j]);
            }
        }
        if distinct(entries) {
            assert forall|i: int, j: int| 0 <= i < j < front.len() implies (#[trigger] front[i]).0
                != (#[trigger] front[j]).0 by {
                assert(entries[i].0 != entries[j].0);
            }
            assert forall|i: int, j: int| 0 <= i < j < now.len() implies (#[trigger] now[i]).0 != (
            #[trigger] now[j]).0 by {
                if j < rest.len() {
                    assert(rest[i].0 != rest[j].0);
                } else {
                    assert(front.contains(rest[i]));
                    let k = choose|k: int| 0 <= k < front.len() && front[k] == rest[i];
                    assert(entries[k].0 != entries[entries.len() - 1].0);
                }
            }
        }
    }
}

/// What is found once an entry has been put at the end.
pub proof fn lemma_lookup_push<K, V>(s: Seq<(K, V)>, e: (K, V), key: K)
    ensures
        lookup(s.push(e), key) == match lookup(s, key) {
            Some(v) => Some(v),
            None => if e.0 == key {
                Some(e.1)
            } else {
                None
            },
        },
{
    let now = s.push(e);
    lemma_key_index(s, key);
    let i = key_index(s, key);
    if i < s.len() {
        assert(now[i as int] == s[i as int]);
        assert forall|j: int| 0 <= j < i implies (#[trigger] now[j]).0 != key by {
            assert(s[j].0 != key);
        }
        lemma_key_found(now, key, i as int);
    } else {
        assert forall|j: int| 0 <= j < s.len() implies (#[trigger] now[j]).0 != key by {
            assert(s[j].0 != key);
        }
        if e.0 == key {
            lemma_key_found(now, key, s.len() as int);
        } else {
            lemma_key_absent(now, key);
        }
    }
}

/// Nothing is found under a key that has been taken out, the values under other keys
/// stay, and no key comes to stand twice.
pub proof fn law_entry_removed<K, V>(
    entries: Seq<(K, V)>,
    key: K,
    other: K,
)
    ensures
        lookup(without(entries, key), key) is None,
        other != key ==> lookup(without(entries, key), other) == lookup(entries, other),
        distinct(entries) ==> distinct(without(entries, key)),
    decreases entries.len(),
{
    lemma_without_source(entries, key);
    lemma_key_absent(without(entries, key), key);
    if other != key && entries.len() > 0 {
        law_entry_removed(entries.drop_last(), key, other);
        assert(entries.drop_last().push(entries.last()) =~= entries);
        lemma_lookup_push(entries.drop_last(), entries.last(), other);
        lemma_lookup_push(without(entries.drop_last(), key), entries.last(), other);
    }
}

/// Keeping only some keys keeps the values under them, and leaves nothing under the
/// others.
pub proof fn law_only_kept<K, V>(
    entries: Seq<(K, V)>,
    keys: Seq<K>,
    key: K,
)
    ensures
        lookup(only(entries, keys), key) == if keys.contains(key) {
            lookup(entries, key)
        } else {
            None
        },
        distinct(entries) ==> distinct(only(entries, keys)),
    decreases entries.len(),
{
    lemma_only_distinct(entries, keys);
    if entries.len() > 0 {
        law_only_kept(entries.drop_last(), keys, key);
        assert(entries.drop_last().push(entries.last()) =~= entries);
        lemma_lookup_push(entries.drop_last(), entries.last(), key);
        lemma_lookup_push(only(entries.drop_last(), keys), entries.last(), key);
    }
}

proof fn lemma_only_distinct<K, V>(entries: Seq<(K, V)>, keys: Seq<K>)
    ensures
        forall|j: int|
            0 <= j < only(entries, keys).len() ==> entries.contains(
                #[trigger] only(entries, keys)[j],
            ),
        distinct(entries) ==> distinct(only(entries, keys)),
    decreases entries.len(),
{
    if entries.len() > 0 {
        let front = entries.drop_last();
        let rest = only(front, keys);
        lemma_only_distinct(front, keys);
        let now = only(entries, keys);
        assert forall|j: int| 0 <= j < now.len() implies entries.contains(#[trigger] now[j]) by {
            if j < rest.len() {
                assert(front.contains(rest[j]));
                let k = choose|k: int| 0 <= k < front.len() && front[k] == rest[j];
                assert(entries[k] == rest[j]);
            } else {
                assert(entries[entries.len() - 1] == now[j]);
            }
        }
        if distinct(entries) {
            assert forall|i: int, j: int| 0 <= i < j < front.len() implies (#[trigger] front[i]).0
                != (#[trigger] front[j]).0 by {
                assert(entries[i].0 != entries[j].0);
            }
            assert forall|i: int, j: int| 0 <= i < j < now.len() implies (#[trigger] now[i]).0 != (
            #[trigger] now[j]).0 by {
                if j < rest.len() {
                    assert(rest[i].0 != rest[j].0);
                } else {
                    assert(front.contains(rest[i]));
                    let k = choose|k: int| 0 <= k < front.len() && front[k] == rest[i];
                    assert(entries[k].0 != entries[entries.len() - 1].0);
                }
            }
        }
    }
}

/// The texts of a list of strings.
pub open spec fn string_texts(v: Seq<String>) -> Seq<Seq<char>> {
    Seq::new(v.len(), |i: int| v[i]@)
}

/// Whether a list holds a text.
pub fn holds(list: &Vec<String>, s: &str) -> (r: bool)
    ensures
        r == string_texts(list@).contains(s@),
{
    let ghost all = string_texts(list@);
    let mut i: usize = 0;
    while i < list.len()
        invariant
            i <= list@.len(),
            all == string_texts(list@),
            forall|k: int| 0 <= k < i ==> #[trigger] all[k] != s@,
        decreases list@.len() - i,
    {
        assert(all[i as int] == list@[i as int]@);
        if same(&list[i], s) {
            return true;
        }
        i += 1;
    }
    false
}

/// A table from texts to values, in which no key stands twice.
#[derive(Debug, PartialEq)]
pub struct Table<V> {
    entries: Vec<(String, V)>,
}

impl<V: View> View for Table<V> {
    type V = Seq<(Seq<char>, V::V)>;

    /// The entries, in the order in which their keys were first set.
    closed spec fn view(&self) -> Seq<(Seq<char>, V::V)> {
        Seq::new(self.entries@.len(), |i: int| (self.entries@[i].0@, self.entries@[i].1@))
    }
}

impl<V: View> Table<V> {
    /// An empty table.
    pub fn new() -> (r: Self)
        ensures
            r@ == Seq::<(Seq<char>, V::V)>::empty(),
            distinct(r@),
    {
        let r = Table { entries: Vec::new() };
        assert(r@ =~= Seq::<(Seq<char>, V::V)>::empty());
        r
    }

    /// How many entries there are.
    pub fn len(&self) -> (r: usize)
        ensures
            r == self@.len(),
    {
        self.entries.len()
    }

    /// Whether there are no entries.
    pub fn is_empty(&self) -> (r: bool)
        ensures
            r == (self@.len() == 0),
    {
        self.entries.len() == 0
    }

    /// The entry at the given position.
    pub fn at(&self, i: usize) -> (r: (&str, &V))
        requires
            i < self@.len(),
        ensures
            (r.0@, r.1@) == self@[i as int],
    {
        (self.entries[i].0.as_str(), &self.entries[i].1)
    }

    /// Where an entry with the given key stands.
    fn position(&self, key: &str) -> (r: usize)
        ensures
            r == key_index(self@, key@),
            r <= self@.len(),
    {
        let ghost all = self@;
        let mut i: usize = 0;
        assert(all.skip(0) =~= all);
        while i < self.entries.len()
            invariant
                i <= self.entries@.len(),
                all == self@,
                all.len() == self.entries@.len(),
                key_index(all, key@) == i + key_index(all.skip(i as int), key@),
            decreases self.entries@.len() - i,
        {
            assert(all.skip(i as int)[0].0 == self.entries@[i as int].0@);
            if same(&self.entries[i].0, key) {
                return i;
            }
            assert(all.skip(i as int).drop_first() =~= all.skip(i + 1));
            i += 1;
        }
        i
    }

    /// The value under the given key.
    pub fn get(&self, key: &str) -> (r: Option<&V>)
        ensures
            match r {
                Some(v) => lookup(self@, key@) == Some(v@),
                None => lookup(self@, key@) is None,
            },
    {
        let i: usize = self.position(key);
        if i < self.entries.len() {
            Some(&self.entries[i].1)
        } else {
            None
        }
    }

    /// Sets the value under the given key.
    pub fn insert(&mut self, key: String, value: V)
        ensures
            final(self)@ == with_entry(old(self)@, key@, value@),
            distinct(old(self)@) ==> distinct(final(self)@),
    {
        let i: usize = self.position(&key);
        proof {
            law_entry_set(self@, key@, value@, key@);
            lemma_key_index(self@, key@);
        }
        if i < self.entries.len() {
            let k = self.entries[i].0.clone();
            self.entries.set(i, (k, value));
            assert(self@ =~= with_entry(old(self)@, key@, value@));
        } else {
            self.entries.push((key, value));
            assert(self@ =~= with_entry(old(self)@, key@, value@));
        }
    }

    /// Takes out what stands under the given key.
    pub fn remove(&mut self, key: &str)
        ensures
            final(self)@ == without(old(self)@, key@),
            distinct(old(self)@) ==> distinct(final(self)@),
    {
        let ghost all = self@;
        proof {
            law_entry_removed(all, key@, key@);
            lemma_key_index(all, key@);
        }
        let mut i: usize = 0;
        assert(all.take(0) =~= Seq::<(Seq<char>, V::V)>::empty());
        let ghost mut n: int = 0;
        while i < self.entries.len()
            invariant
                0 <= n <= all.len(),
                i <= self@.len(),
                self@.len() == self.entries@.len(),
                self@.take(i as int) == without(all.take(n), key@),
                self@.skip(i as int) == all.skip(n),
            decreases self.entries@.len() - i,
        {
            let ghost before = self@;
            proof {
                assert(before[i as int] == before.skip(i as int)[0]);
                assert(before.skip(i as int).len() == all.skip(n).len());
                assert(all.skip(n)[0] == all[n]);
                assert(all.take(n + 1).drop_last() =~= all.take(n));
                assert(before[i as int].0 == self.entries@[i as int].0@);
            }
            if same(&self.entries[i].0, key) {
                self.entries.remove(i);
                proof {
                    assert(self@ =~= before.remove(i as int));
                    assert(self@.take(i as int) =~= before.take(i as int));
                    assert(self@.skip(i as int) =~= before.skip(i as int).drop_first());
                    assert(all.skip(n + 1) =~= all.skip(n).drop_first());
                }
            } else {
                proof {
                    assert(before.take(i + 1) =~= before.take(i as int).push(before[i as int]));
                    assert(before.skip(i + 1) =~= before.skip(i as int).drop_first());
                    assert(all.skip(n + 1) =~= all.skip(n).drop_first());
                }
                i += 1;
            }
            proof {
                n = n + 1;
            }
        }
        proof {
            assert(self@.skip(i as int).len() == 0);
            assert(all.skip(n).len() == 0);
            assert(all.take(n) =~= all);
            assert(self@.take(i as int) =~= self@);
        }
    }

    /// Takes out what stands under keys that are not in the list.
    pub fn retain(&mut self, keys: &Vec<String>)
        ensures
            final(self)@ == only(old(self)@, string_texts(keys@)),
            distinct(old(self)@) ==> distinct(final(self)@),
    {
        let ghost all = self@;
        let ghost texts = string_texts(keys@);
        proof {
            lemma_only_distinct(all, texts);
        }
        let mut i: usize = 0;
        let ghost mut n: int = 0;
        assert(all.take(0) =~= Seq::<(Seq<char>, V::V)>::empty());
        while i < self.entries.len()
            invariant
                0 <= n <= all.len(),
                i <= self@.len(),
                texts == string_texts(keys@),
                self@.len() == self.entries@.len(),
                self@.take(i as int) == only(all.take(n), texts),
                self@.skip(i as int) == all.skip(n),
            decreases self.entries@.len() - i,
        {
            let ghost before = self@;
            proof {
                assert(before[i as int] == before.skip(i as int)[0]);
                assert(before.skip(i as int).len() == all.skip(n).len());
                assert(all.skip(n)[0] == all[n]);
                assert(all.take(n + 1).drop_last() =~= all.take(n));
                assert(before[i as int].0 == self.entries@[i as int].0@);
            }
            if holds(keys, &self.entries[i].0) {
                proof {
                    assert(before.take(i + 1) =~= before.take(i as int).push(before[i as int]));
                    assert(before.skip(i + 1) =~= before.skip(i as int).drop_first());
                    assert(all.skip(n + 1) =~= all.skip(n).drop_first());
                }
                i += 1;
            } else {
                self.entries.remove(i);
                proof {
                    assert(self@ =~= before.remove(i as int));
                    assert(self@.take(i as int) =~= before.take(i as int));
                    assert(self@.skip(i as int) =~= before.skip(i as int).drop_first());
                    assert(all.skip(n + 1) =~= all.skip(n).drop_first());
                }
            }
            proof {
                n = n + 1;
            }
        }
        proof {
            assert(self@.skip(i as int).len() == 0);
            assert(all.skip(n).len() == 0);
            assert(all.take(n) =~= all);
            assert(self@.take(i as int) =~= self@);
        }
    }
}

/// The order of byte sequences: by the first byte that differs, and a sequence comes
/// before those that it is the start of.
pub open spec fn bytes_before(a: Seq<u8>, b: Seq<u8>) -> bool
    decreases a.len(),
{
    if b.len() == 0 {
        false
    } else if a.len() == 0 {
        true
    } else if a[0] != b[0] {
        a[0] < b[0]
    } else {
        bytes_before(a.drop_first(), b.drop_first())
    }
}

/// The order of texts: that of their UTF-8 forms.
pub open spec fn text_before(a: Seq<char>, b: Seq<char>) -> bool {
    bytes_before(encode_utf8(a), encode_utf8(b))
}

/// Whether one text comes before another.
pub fn comes_before(a: &str, b: &str) -> (r: bool)
    ensures
        r == text_before(a@, b@),
{
    let x = a.as_bytes();
    let y = b.as_bytes();
    let mut i: usize = 0;
    assert(x@.skip(0) =~= x@);
    assert(y@.skip(0) =~= y@);
    while i < x.len() && i < y.len() && x[i] == y[i]
        invariant
            i <= x@.len(),
            i <= y@.len(),
            bytes_before(x@, y@) == bytes_before(x@.skip(i as int), y@.skip(i as int)),
        decreases x@.len() - i,
    {
        assert(x@.skip(i as int).drop_first() =~= x@.skip(i + 1));
        assert(y@.skip(i as int).drop_first() =~= y@.skip(i + 1));
        i += 1;
    }
    if i >= y.len() {
        false
    } else if i >= x.len() {
        true
    } else {
        x[i] < y[i]
    }
}

/// Where an entry with the given key goes among entries in the order of their keys:
/// behind those that do not come after it.
pub open spec fn place<V>(entries: Seq<(Seq<char>, V)>, key: Seq<char>) -> nat
    decreases entries.len(),
{
    if entries.len() == 0 || text_before(key, entries[0].0) {
        0
    } else {
        1 + place(entries.drop_first(), key)
    }
}

/// The entries in the order of their keys.
pub open spec fn in_order<V>(entries: Seq<(Seq<char>, V)>) -> Seq<(Seq<char>, V)>
    decreases entries.len(),
{
    if entries.len() == 0 {
        seq![]
    } else {
        let rest = in_order(entries.drop_last());
        rest.insert(place(rest, entries.last().0) as int, entries.last())
    }
}

impl<V: View> Table<V> {
    /// The positions of the entries, in the order of their keys.
    pub fn order(&self) -> (r: Vec<usize>)
        ensures
            picked(self@, r@) == in_order(self@),
            forall|i: int| 0 <= i < r@.len() ==> #[trigger] r@[i] < self@.len(),
    {
        let ghost all = self@;
        let mut out: Vec<usize> = Vec::new();
        let mut n: usize = 0;
        assert(picked(all, out@) =~= in_order(all.take(0)));
        while n < self.entries.len()
            invariant
                n <= self.entries@.len(),
                all == self@,
                all.len() == self.entries@.len(),
                picked(all, out@) == in_order(all.take(n as int)),
                forall|i: int| 0 <= i < out@.len() ==> #[trigger] out@[i] < all.len(),
            decreases self.entries@.len() - n,
        {
            let ghost done = picked(all, out@);
            let ghost key = self.entries@[n as int].0@;
            let mut k: usize = 0;
            assert(done.skip(0) =~= done);
            while k < out.len() && !comes_before(&self.entries[n].0, &self.entries[out[k]].0)
                invariant
                    n < self.entries@.len(),
                    k <= out@.len(),
                    all == self@,
                    all.len() == self.entries@.len(),
                    key == self.entries@[n as int].0@,
                    done == picked(all, out@),
                    forall|i: int| 0 <= i < out@.len() ==> #[trigger] out@[i] < all.len(),
                    place(done, key) == k + place(done.skip(k as int), key),
                decreases out@.len() - k,
            {
                assert(done.skip(k as int)[0] == all[out@[k as int] as int]);
                assert(done.skip(k as int).drop_first() =~= done.skip(k + 1));
                k += 1;
            }
            proof {
                if k < out.len() {
                    assert(done.skip(k as int)[0] == all[out@[k as int] as int]);
                }
                assert(all.take(n + 1).drop_last() =~= all.take(n as int));
                assert(all.take(n + 1).last() == all[n as int]);
            }
            let ghost before = out@;
            out.insert(k, n);
            assert(picked(all, out@) =~= done.insert(k as int, all[n as int]));
            n += 1;
        }
        assert(all.take(n as int) =~= all);
        out
    }
}

/// The entries at the given positions.
pub open spec fn picked<V>(entries: Seq<(Seq<char>, V)>, positions: Seq<usize>) -> Seq<
    (Seq<char>, V),
> {
    Seq::new(positions.len(), |i: int| entries[positions[i] as int])
}

proof fn lemma_before_transitive(a: Seq<u8>, b: Seq<u8>, c: Seq<u8>)
    requires
        bytes_before(a, b),
        bytes_before(b, c),
    ensures
        bytes_before(a, c),
    decreases a.len(),
{
    if a.len() > 0 && a[0] == b[0] && b[0] == c[0] {
        lemma_before_transitive(a.drop_first(), b.drop_first(), c.drop_first());
    }
}

proof fn lemma_before_irreflexive(a: Seq<u8>)
    ensures
        !bytes_before(a, a),
    decreases a.len(),
{
    if a.len() > 0 {
        lemma_before_irreflexive(a.drop_first());
    }
}

proof fn lemma_before_total(a: Seq<u8>, b: Seq<u8>)
    requires
        a != b,
    ensures
        bytes_before(a, b) || bytes_before(b, a),
    decreases a.len(),
{
    if a.len() > 0 && b.len() > 0 && a[0] == b[0] {
        let x = a.drop_first();
        let y = b.drop_first();
        if x == y {
            assert(a =~= seq![a[0]] + x);
            assert(b =~= seq![b[0]] + y);
        }
        lemma_before_total(x, y);
    } else if a.len() == 0 && b.len() == 0 {
        assert(a =~= b);
    }
}

/// Of two different texts one comes before the other, and not the other way round.
pub proof fn law_text_order(a: Seq<char>, b: Seq<char>)
    requires
        a != b,
    ensures
        text_before(a, b) != text_before(b, a),
{
    encode_utf8_decode_utf8(a);
    encode_utf8_decode_utf8(b);
    let x = encode_utf8(a);
    let y = encode_utf8(b);
    lemma_before_total(x, y);
    if bytes_before(x, y) && bytes_before(y, x) {
        lemma_before_transitive(x, y, x);
        lemma_before_irreflexive(x);
    }
}

/// Nothing stands behind an entry whose key comes after its own.
pub open spec fn ordered<V>(entries: Seq<(Seq<char>, V)>) -> bool {
    forall|i: int, j: int|
        0 <= i < j < entries.len() ==> !text_before(
            (#[trigger] entries[j]).0,
            (#[trigger] entries[i]).0,
        )
}

proof fn lemma_place<V>(entries: Seq<(Seq<char>, V)>, key: Seq<char>)
    ensures
        place(entries, key) <= entries.len(),
        forall|i: int|
            0 <= i < place(entries, key) ==> !text_before(key, (#[trigger] entries[i]).0),
        place(entries, key) < entries.len() ==> text_before(
            key,
            entries[place(entries, key) as int].0,
        ),
    decreases entries.len(),
{
    if entries.len() > 0 && !text_before(key, entries[0].0) {
        let rest = entries.drop_first();
        lemma_place(rest, key);
        assert forall|i: int| 0 <= i < place(entries, key) implies !text_before(
            key,
            (#[trigger] entries[i]).0,
        ) by {
            if i > 0 {
                assert(rest[i - 1] == entries[i]);
            }
        }
    }
}

proof fn lemma_insert_ordered<V>(s: Seq<(Seq<char>, V)>, e: (Seq<char>, V))
    requires
        ordered(s),
    ensures
        ordered(s.insert(place(s, e.0) as int, e)),
{
    lemma_place(s, e.0);
    let p = place(s, e.0) as int;
    let now = s.insert(p, e);
    assert forall|i: int, j: int| 0 <= i < j < now.len() implies !text_before(
        (#[trigger] now[j]).0,
        (#[trigger] now[i]).0,
    ) by {
        if j < p {
            assert(!text_before(s[j].0, s[i].0));
        } else if j == p {
            assert(!text_before(e.0, s[i].0));
        } else if i < p {
            assert(!text_before(s[j - 1].0, s[i].0));
        } else if i == p {
            // the key comes before that of the entry at its place, and nothing
            // behind that one comes before it
            assert(text_before(e.0, s[p].0));
            if text_before(s[j - 1].0, e.0) {
                lemma_before_transitive(
                    encode_utf8(s[j - 1].0),
                    encode_utf8(e.0),
                    encode_utf8(s[p].0),
                );
                if j - 1 == p {
                    lemma_before_irreflexive(encode_utf8(s[p].0));
                } else {
                    assert(!text_before(s[j - 1].0, s[p].0));
                }
            }
        } else {
            assert(!text_before(s[j - 1].0, s[i - 1].0));
        }
    }
}

/// Entries in order are ordered, and they are the same entries.
pub proof fn law_in_order<V>(entries: Seq<(Seq<char>, V)>)
    ensures
        ordered(in_order(entries)),
        in_order(entries).len() == entries.len(),
        forall|x: (Seq<char>, V)|
            in_order(entries).contains(x) <==> #[trigger] entries.contains(x),
        distinct(entries) ==> distinct(in_order(entries)),
    decreases entries.len(),
{
    if entries.len() > 0 {
        let front = entries.drop_last();
        let e = entries.last();
        let rest = in_order(front);
        law_in_order(front);
        lemma_place(rest, e.0);
        lemma_insert_ordered(rest, e);
        let p = place(rest, e.0) as int;
        let now = rest.insert(p, e);
        assert forall|x: (Seq<char>, V)| now.contains(x) <==> #[trigger] entries.contains(x) by {
            if now.contains(x) {
                let k = choose|k: int| 0 <= k < now.len() && now[k] == x;
                if k == p {
                    assert(entries[entries.len() - 1] == x);
                } else {
                    let m = if k < p {
                        k
                    } else {
                        k - 1
                    };
                    assert(rest[m] == x);
                    assert(rest.contains(x));
                    assert(front.contains(x));
                    let n = choose|n: int| 0 <= n < front.len() && front[n] == x;
                    assert(entries[n] == x);
                }
            }
            if entries.contains(x) {
                let n = choose|n: int| 0 <= n < entries.len() && entries[n] == x;
                if n == entries.len() - 1 {
                    assert(now[p] == x);
                } else {
                    assert(front[n] == x);
                    assert(front.contains(x));
                    assert(rest.contains(x));
                    let m = choose|m: int| 0 <= m < rest.len() && rest[m] == x;
                    if m < p {
                        assert(now[m] == x);
                    } else {
                        assert(now[m + 1] == x);
                    }
                }
            }
        }
        if distinct(entries) {
            assert forall|i: int, j: int| 0 <= i < j < front.len() implies (#[trigger] front[i]).0
                != (#[trigger] front[j]).0 by {
                assert(entries[i].0 != entries[j].0);
            }
            assert forall|m: int| 0 <= m < rest.len() implies (#[trigger] rest[m]).0 != e.0 by {
                assert(rest.contains(rest[m]));
                assert(front.contains(rest[m]));
                let n = choose|n: int| 0 <= n < front.len() && front[n] == rest[m];
                assert(entries[n].0 != entries[entries.len() - 1].0);
            }
            assert forall|i: int, j: int| 0 <= i < j < now.len() implies (#[trigger] now[i]).0 != (
            #[trigger] now[j]).0 by {
                if j < p {
                    assert(rest[i].0 != rest[j].0);
                } else if j == p {
                    assert(rest[i].0 != e.0);
                } else if i < p {
                    assert(rest[i].0 != rest[j - 1].0);
                } else if i == p {
                    assert(rest[j - 1].0 != e.0);
                } else {
                    assert(rest[i - 1].0 != rest[j - 1].0);
                }
            }
        }
    }
}

proof fn lemma_lookup_contains<K, V>(entries: Seq<(K, V)>, key: K)
    requires
        distinct(entries),
    ensures
        forall|v: V| lookup(entries, key) == Some(v) <==> entries.contains((key, v)),
{
    lemma_key_index(entries, key);
    let i = key_index(entries, key);
    assert forall|v: V| lookup(entries, key) == Some(v) <==> entries.contains((key, v)) by {
        if lookup(entries, key) == Some(v) {
            assert(entries[i as int] == (key, v));
        }
        if entries.contains((key, v)) {
            let k = choose|k: int| 0 <= k < entries.len() && entries[k] == (key, v);
            if i < k {
                assert(entries[i as int].0 != entries[k].0);
            } else if k < i {
                assert(entries[k].0 != key);
            }
        }
    }
}

/// Putting entries in order changes nothing of what is found under a key.
pub proof fn law_order_keeps_values<V>(entries: Seq<(Seq<char>, V)>, key: Seq<char>)
    requires
        distinct(entries),
    ensures
        lookup(in_order(entries), key) == lookup(entries, key),
{
    law_in_order(entries);
    lemma_lookup_contains(entries, key);
    lemma_lookup_contains(in_order(entries), key);
    match lookup(entries, key) {
        Some(v) => {
            assert(entries.contains((key, v)));
        },
        None => {
            match lookup(in_order(entries), key) {
                Some(v) => {
                    assert(entries.contains((key, v)));
                },
                None => {},
            }
        },
    }
}

proof fn lemma_ordered_same<V>(s: Seq<(Seq<char>, V)>, t: Seq<(Seq<char>, V)>)
    requires
        ordered(s),
        ordered(t),
        distinct(s),
        distinct(t),
        forall|e: (Seq<char>, V)| s.contains(e) <==> #[trigger] t.contains(e),
    ensures
        s == t,
    decreases s.len(),
{
    if s.len() == 0 {
        if t.len() > 0 {
            assert(t.contains(t[0]));
        }
        assert(s =~= t);
    } else {
        assert(s.contains(s[0]));
        assert(t.contains(s[0]));
        let k = choose|k: int| 0 <= k < t.len() && t[k] == s[0];
        assert(t.contains(t[0]));
        let m = choose|m: int| 0 <= m < s.len() && s[m] == t[0];
        if k > 0 {
            assert(t[0].0 != t[k].0);
            law_text_order(s[0].0, t[0].0);
            assert(!text_before(t[k].0, t[0].0));
            assert(!text_before(s[m].0, s[0].0));
        }
        let x = s.drop_first();
        let y = t.drop_first();
        assert(forall|i: int| 0 <= i < x.len() ==> x[i] == s[i + 1]);
        assert(forall|i: int| 0 <= i < y.len() ==> y[i] == t[i + 1]);
        assert forall|e: (Seq<char>, V)| x.contains(e) <==> #[trigger] y.contains(e) by {
            if x.contains(e) {
                let i = choose|i: int| 0 <= i < x.len() && x[i] == e;
                assert(s[i + 1] == e && s[0].0 != s[i + 1].0);
                assert(t.contains(e));
                let j = choose|j: int| 0 <= j < t.len() && t[j] == e;
                assert(y[j - 1] == e);
            }
            if y.contains(e) {
                let i = choose|i: int| 0 <= i < y.len() && y[i] == e;
                assert(t[i + 1] == e && t[0].0 != t[i + 1].0);
                assert(t.contains(e));
                let j = choose|j: int| 0 <= j < s.len() && s[j] == e;
                assert(x[j - 1] == e);
            }
        }
        assert(ordered(x)) by {
            assert forall|i: int, j: int| 0 <= i < j < x.len() implies !text_before(
                (#[trigger] x[j]).0,
                (#[trigger] x[i]).0,
            ) by {
                assert(!text_before(s[j + 1].0, s[i + 1].0));
            }
        }
        assert(ordered(y)) by {
            assert forall|i: int, j: int| 0 <= i < j < y.len() implies !text_before(
                (#[trigger] y[j]).0,
                (#[trigger] y[i]).0,
            ) by {
                assert(!text_before(t[j + 1].0, t[i + 1].0));
            }
        }
        assert(distinct(x)) by {
            assert forall|i: int, j: int| 0 <= i < j < x.len() implies (#[trigger] x[i]).0 != (
            #[trigger] x[j]).0 by {
                assert(s[i + 1].0 != s[j + 1].0);
            }
        }
        assert(distinct(y)) by {
            assert forall|i: int, j: int| 0 <= i < j < y.len() implies (#[trigger] y[i]).0 != (
            #[trigger] y[j]).0 by {
                assert(t[i + 1].0 != t[j + 1].0);
            }
        }
        lemma_ordered_same(x, y);
        assert(s =~= seq![s[0]] + x);
        assert(t =~= seq![t[0]] + y);
    }
}

/// In the order of their keys, the same entries stand the same way, however they stood before.
pub proof fn law_one_order<V>(a: Seq<(Seq<char>, V)>, b: Seq<(Seq<char>, V)>)
    requires
        distinct(a),
        distinct(b),
        forall|e: (Seq<char>, V)| a.contains(e) <==> #[trigger] b.contains(e),
    ensures
        in_order(a) == in_order(b),
{
    law_in_order(a);
    law_in_order(b);
    assert forall|e: (Seq<char>, V)| in_order(a).contains(e) <==> #[trigger] in_order(b).contains(
        e,
    ) by {
        assert(a.contains(e) <==> b.contains(e));
    }
    lemma_ordered_same(in_order(a), in_order(b));
}

} // verus!
