//! A round-robin map: values filed under keys that take turns.

use std::collections::VecDeque;
use vstd::prelude::*;

verus! {

/// A key that can be compared by value.
pub trait RingKey: Copy {
    /// Whether the two keys are the same.
    fn same(&self, other: &Self) -> (result: bool)
        ensures
            result == (*self == *other),
    ;
}

impl RingKey for usize {
    fn same(&self, other: &Self) -> (result: bool) {
        *self == *other
    }
}

impl RingKey for u64 {
    fn same(&self, other: &Self) -> (result: bool) {
        *self == *other
    }
}

/// `entries[i]` is filed under `key`.
pub open spec fn filed_at<K, V>(entries: Seq<(K, V)>, key: K, i: int) -> bool {
    0 <= i < entries.len() && entries[i].0 == key
}

/// Some entry is filed under `key`.
pub open spec fn has_key<K, V>(entries: Seq<(K, V)>, key: K) -> bool {
    exists|i: int| filed_at(entries, key, i)
}

/// No key occurs twice.
pub open spec fn distinct_keys<K, V>(entries: Seq<(K, V)>) -> bool {
    forall|i: int, j: int|
        #![trigger entries[i], entries[j]]
        0 <= i < entries.len() && 0 <= j < entries.len() && entries[i].0 == entries[j].0 ==> i == j
}

/// The place of `key`, which has one.
pub open spec fn place_of<K, V>(entries: Seq<(K, V)>, key: K) -> int
    recommends
        has_key(entries, key),
{
    choose|i: int| filed_at(entries, key, i)
}

/// What is filed under `key`.
pub open spec fn lookup<K, V>(entries: Seq<(K, V)>, key: K) -> Option<V> {
    if has_key(entries, key) {
        Some(entries[place_of(entries, key)].1)
    } else {
        None
    }
}

/// Files `value` under `key`: in the place that the key has, or behind all others.
pub open spec fn filed<K, V>(entries: Seq<(K, V)>, key: K, value: V) -> Seq<(K, V)> {
    if has_key(entries, key) {
        entries.update(place_of(entries, key), (key, value))
    } else {
        entries.push((key, value))
    }
}

/// With distinct keys, the place of a key is where it stands.
pub proof fn lemma_place_is<K, V>(entries: Seq<(K, V)>, key: K, i: int)
    requires
        distinct_keys(entries),
        filed_at(entries, key, i),
    ensures
        has_key(entries, key),
        place_of(entries, key) == i,
        lookup(entries, key) == Some(entries[i].1),
{
    let p = place_of(entries, key);
    assert(filed_at(entries, key, p));
    assert(entries[p].0 == entries[i].0);
}

/// Filing keeps the keys distinct, and reads back under the key alone.
pub proof fn lemma_filed<K, V>(entries: Seq<(K, V)>, key: K, value: V)
    requires
        distinct_keys(entries),
    ensures
        distinct_keys(filed(entries, key, value)),
        lookup(filed(entries, key, value), key) == Some(value),
        forall|other: K|
            other != key ==> #[trigger] lookup(filed(entries, key, value), other) == lookup(
                entries,
                other,
            ),
{
    let after = filed(entries, key, value);
    if has_key(entries, key) {
        let p = place_of(entries, key);
        assert(filed_at(entries, key, p));
        assert(filed_at(after, key, p));
        lemma_place_is(after, key, p);
        assert forall|other: K| other != key implies #[trigger] lookup(after, other) == lookup(
            entries,
            other,
        ) by {
            if has_key(entries, other) {
                let q = place_of(entries, other);
                assert(filed_at(entries, other, q));
                assert(filed_at(after, other, q));
                lemma_place_is(after, other, q);
            }
            if has_key(after, other) {
                let q = place_of(after, other);
                assert(filed_at(after, other, q));
                assert(filed_at(entries, other, q));
            }
        }
    } else {
        let last = entries.len() as int;
        assert forall|i: int, j: int|
            #![trigger after[i], after[j]]
            0 <= i < after.len() && 0 <= j < after.len() && after[i].0 == after[j].0 implies i
            == j by {
            if i < last && j < last {
                assert(entries[i].0 == entries[j].0);
            } else if i < last {
                assert(filed_at(entries, key, i));
            } else if j < last {
                assert(filed_at(entries, key, j));
            }
        }
        assert(filed_at(after, key, last));
        lemma_place_is(after, key, last);
        assert forall|other: K| other != key implies #[trigger] lookup(after, other) == lookup(
            entries,
            other,
        ) by {
            if has_key(entries, other) {
                let q = place_of(entries, other);
                assert(filed_at(entries, other, q));
                assert(filed_at(after, other, q));
                lemma_place_is(after, other, q);
            }
            if has_key(after, other) {
                let q = place_of(after, other);
                assert(filed_at(after, other, q));
                assert(filed_at(entries, other, q));
            }
        }
    }
}

/// Without the front entry, the front key is gone and every other key reads as before.
pub proof fn lemma_front_taken<K, V>(entries: Seq<(K, V)>)
    requires
        distinct_keys(entries),
        entries.len() > 0,
    ensures
        distinct_keys(entries.skip(1)),
        !has_key(entries.skip(1), entries[0].0),
        lookup(entries, entries[0].0) == Some(entries[0].1),
        forall|other: K|
            other != entries[0].0 ==> #[trigger] lookup(entries.skip(1), other) == lookup(
                entries,
                other,
            ),
{
    let rest = entries.skip(1);
    assert(forall|i: int| 0 <= i < rest.len() ==> rest[i] == entries[i + 1]);
    assert(filed_at(entries, entries[0].0, 0));
    lemma_place_is(entries, entries[0].0, 0);
    assert forall|i: int| !filed_at(rest, entries[0].0, i) by {
        if 0 <= i < rest.len() {
            assert(rest[i] == entries[i + 1]);
        }
    }
    assert forall|other: K| other != entries[0].0 implies #[trigger] lookup(rest, other) == lookup(
        entries,
        other,
    ) by {
        if has_key(entries, other) {
            let q = place_of(entries, other);
            assert(filed_at(entries, other, q));
            assert(filed_at(rest, other, q - 1));
            lemma_place_is(rest, other, q - 1);
        }
        if has_key(rest, other) {
            let q = place_of(rest, other);
            assert(filed_at(rest, other, q));
            assert(filed_at(entries, other, q + 1));
        }
    }
}

/// Filing commutes with a change of the values.
pub proof fn lemma_filed_mapped<K, V, W>(
    entries: Seq<(K, V)>,
    key: K,
    value: V,
    f: spec_fn((K, V)) -> (K, W),
)
    requires
        distinct_keys(entries),
        forall|e: (K, V)| (#[trigger] f(e)).0 == e.0,
    ensures
        distinct_keys(entries.map_values(f)),
        filed(entries, key, value).map_values(f) == filed(
            entries.map_values(f),
            key,
            f((key, value)).1,
        ),
        has_key(entries, key) == has_key(entries.map_values(f), key),
        lookup(entries, key) is Some ==> lookup(entries.map_values(f), key) == Some(
            f((key, lookup(entries, key)->0)).1,
        ),
{
    let mapped = entries.map_values(f);
    assert forall|i: int, j: int|
        #![trigger mapped[i], mapped[j]]
        0 <= i < mapped.len() && 0 <= j < mapped.len() && mapped[i].0 == mapped[j].0 implies i
        == j by {
        assert(entries[i].0 == entries[j].0);
    }
    if has_key(entries, key) {
        let p = place_of(entries, key);
        assert(filed_at(entries, key, p));
        assert(filed_at(mapped, key, p));
        lemma_place_is(mapped, key, p);
        assert(entries[p] == (key, entries[p].1));
    }
    if has_key(mapped, key) {
        let q = place_of(mapped, key);
        assert(filed_at(mapped, key, q));
        assert(filed_at(entries, key, q));
    }
    assert(filed(entries, key, value).map_values(f) =~= filed(mapped, key, f((key, value)).1));
}

/// Values under distinct keys, served in turn: the front entry first, a new key behind
/// all others, a known key where it stands.
pub struct RoundRobin<K, V> {
    entries: VecDeque<(K, V)>,
}

impl<K, V> View for RoundRobin<K, V> {
    type V = Seq<(K, V)>;

    closed spec fn view(&self) -> Seq<(K, V)> {
        self.entries@
    }
}

impl<K, V> Default for RoundRobin<K, V> {
    fn default() -> (result: Self)
        ensures
            result@ == Seq::<(K, V)>::empty(),
    {
        RoundRobin { entries: VecDeque::new() }
    }
}

impl<K, V> RoundRobin<K, V> {
    /// No key occurs twice.
    pub open spec fn wf(&self) -> bool {
        distinct_keys(self@)
    }

    /// Takes the entry whose turn it is.
    pub fn pop(&mut self) -> (result: Option<(K, V)>)
        requires
            old(self).wf(),
        ensures
            final(self).wf(),
            match result {
                Some(entry) => old(self)@.len() > 0 && entry == old(self)@[0] && final(self)@
                    == old(self)@.skip(1),
                None => old(self)@.len() == 0 && final(self)@ == old(self)@,
            },
    {
        let entry = self.entries.pop_front();
        proof {
            if entry is Some {
                assert(self@ =~= old(self)@.skip(1));
                assert(forall|i: int| 0 <= i < self@.len() ==> self@[i] == old(self)@[i + 1]);
            }
        }
        entry
    }

    /// The value whose turn it is.
    pub fn peek(&self) -> (result: Option<&V>)
        ensures
            match result {
                Some(value) => self@.len() > 0 && *value == self@[0].1,
                None => self@.len() == 0,
            },
    {
        if self.entries.len() == 0 {
            None
        } else {
            Some(&self.entries[0].1)
        }
    }

    /// Whether nothing is filed.
    pub fn is_empty(&self) -> (result: bool)
        ensures
            result == (self@.len() == 0),
    {
        self.entries.len() == 0
    }
}

impl<K: RingKey, V> RoundRobin<K, V> {
    /// Where `key` stands, or the number of entries if it does not occur.
    fn find(&self, key: K) -> (result: usize)
        requires
            self.wf(),
        ensures
            result <= self@.len(),
            result < self@.len() ==> filed_at(self@, key, result as int),
            result == self@.len() ==> !has_key(self@, key),
    {
        let mut i: usize = 0;
        while i < self.entries.len()
            invariant
                i <= self@.len(),
                self.entries@ == self@,
                forall|j: int| 0 <= j < i ==> self@[j].0 != key,
            decreases self@.len() - i,
        {
            if self.entries[i].0.same(&key) {
                return i;
            }
            i += 1;
        }
        assert forall|j: int| !filed_at(self@, key, j) by {}
        i
    }

    /// Files `value` under `key`. A key that is new goes to the back; a key that is
    /// known keeps its turn and has its value replaced.
    pub fn insert(self, key: K, value: V) -> (result: Self)
        requires
            self.wf(),
        ensures
            result.wf(),
            result@ == filed(self@, key, value),
    {
        proof {
            lemma_filed(self@, key, value);
        }
        let mut ring = self;
        let i = ring.find(key);
        if i < ring.entries.len() {
            proof {
                lemma_place_is(self@, key, i as int);
            }
            let _ = ring.entries.remove(i);
            ring.entries.insert(i, (key, value));
            assert(ring@ =~= self@.update(i as int, (key, value)));
        } else {
            ring.entries.push_back((key, value));
        }
        ring
    }

    /// Replaces the value under `key` by what `update` makes of it, starting from the
    /// default value where the key is new.
    pub fn update<F: FnOnce(V) -> V>(self, key: K, update: F) -> (result: Self) where V: Default
        requires
            self.wf(),
            match lookup(self@, key) {
                Some(value) => call_requires(update, (value,)),
                None => forall|value: V|
                    call_ensures(V::default, (), value) ==> call_requires(update, (value,)),
            },
        ensures
            result.wf(),
            exists|before: V, after: V|
                {
                    &&& match lookup(self@, key) {
                        Some(value) => before == value,
                        None => call_ensures(V::default, (), before),
                    }
                    &&& #[trigger] call_ensures(update, (before,), after)
                    &&& result@ == filed(self@, key, after)
                },
    {
        let ghost start = self@;
        let mut ring = self;
        let i = ring.find(key);
        if i < ring.entries.len() {
            proof {
                lemma_place_is(start, key, i as int);
            }
            if let Some(entry) = ring.entries.remove(i) {
                let ghost before = entry.1;
                let value = update(entry.1);
                let ghost after = value;
                proof {
                    lemma_filed(start, key, after);
                }
                ring.entries.insert(i, (key, value));
                assert(ring@ =~= start.update(i as int, (key, after)));
                assert(call_ensures(update, (before,), after));
            }
            ring
        } else {
            let value = V::default();
            let ghost before = value;
            let value = update(value);
            let ghost after = value;
            proof {
                lemma_filed(start, key, after);
            }
            ring.entries.push_back((key, value));
            assert(call_ensures(update, (before,), after));
            ring
        }
    }
}

/// Filing a value moves nothing: every key keeps its place, a new one comes last, and only what is
/// filed under the key changes.
pub proof fn law_filing_keeps_places<K, V>(entries: Seq<(K, V)>, key: K, value: V)
    requires
        distinct_keys(entries),
    ensures
        ({
            let after = filed(entries, key, value);
            &&& lookup(after, key) == Some(value)
            &&& forall|i: int|
                0 <= i < entries.len() ==> (#[trigger] after[i]).0 == entries[i].0 && (entries[i].0
                    != key ==> after[i].1 == entries[i].1)
            &&& (exists|i: int| 0 <= i < entries.len() && (#[trigger] entries[i]).0 == key)
                ==> after.len() == entries.len()
            &&& (forall|i: int| 0 <= i < entries.len() ==> (#[trigger] entries[i]).0 != key)
                ==> after.len() == entries.len() + 1 && after.last() == (key, value)
        }),
{
    lemma_filed(entries, key, value);
    if has_key(entries, key) {
        assert(filed_at(entries, key, place_of(entries, key)));
    } else {
        assert forall|i: int| 0 <= i < entries.len() implies (#[trigger] entries[i]).0 != key by {
            assert(!filed_at(entries, key, i));
        }
    }
    if exists|i: int| 0 <= i < entries.len() && (#[trigger] entries[i]).0 == key {
        let i = choose|i: int| 0 <= i < entries.len() && (#[trigger] entries[i]).0 == key;
        assert(filed_at(entries, key, i));
    }
}

/// What is looked up is what is filed under the key, and nothing is found only where nothing is.
pub proof fn law_lookup_finds_what_is_filed<K, V>(entries: Seq<(K, V)>, key: K, i: int)
    requires
        distinct_keys(entries),
        0 <= i < entries.len(),
    ensures
        lookup(entries, entries[i].0) == Some(entries[i].1),
        lookup(entries, key) is None ==> entries[i].0 != key,
        lookup(entries, key) is Some ==> exists|j: int|
            0 <= j < entries.len() && #[trigger] entries[j] == (key, lookup(entries, key)->0),
{
    assert(filed_at(entries, entries[i].0, i));
    lemma_place_is(entries, entries[i].0, i);
    if has_key(entries, key) {
        assert(filed_at(entries, key, place_of(entries, key)));
        assert(entries[place_of(entries, key)] == (key, lookup(entries, key)->0));
    }
}

} // verus!
