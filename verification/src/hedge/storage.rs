//! Keyed storage that hands out a fresh key for every value added.
use core::marker::PhantomData;
use vstd::prelude::*;

use super::keys::{OpaqueKey, INVALID_ID};

verus! {

/// A value that can be kept in a `Storage`, under keys of its own kind.
pub trait Storable: Clone {
    /// The kind of key that names the value.
    type Key: OpaqueKey;
}

/// Values kept under keys. Each value added gets a fresh key, numbered from
/// zero upwards; keys are never reused, also after a removal.
///
/// Since keys are handed out densely, the values sit in a vector of slots
/// indexed by identifier, which Verus reads directly, rather than in a hash
/// table: a table's contents, generic over the value type `S`, could not be
/// given a name for the contracts to speak of.
#[derive(Debug)]
pub struct Storage<T: OpaqueKey, S> {
    slots: Vec<Option<S>>,
    running_id: u64,
    key: PhantomData<T>,
}

/// The identifiers below `n` whose slot holds a value, ascending.
pub open spec fn occupied_upto<S>(slots: Seq<Option<S>>, n: int) -> Seq<u64>
    decreases n,
{
    if n <= 0 {
        Seq::empty()
    } else if slots[n - 1] is Some {
        occupied_upto(slots, n - 1).push((n - 1) as u64)
    } else {
        occupied_upto(slots, n - 1)
    }
}

proof fn lemma_occupied_upto<S>(slots: Seq<Option<S>>, n: int)
    requires
        0 <= n <= slots.len(),
        slots.len() <= u64::MAX,
    ensures
        forall|j: int|
            0 <= j < occupied_upto(slots, n).len() ==> #[trigger] occupied_upto(slots, n)[j] < n,
        forall|i: int, j: int|
            0 <= i < j < occupied_upto(slots, n).len() ==> occupied_upto(slots, n)[i]
                < occupied_upto(slots, n)[j],
        forall|k: u64|
            occupied_upto(slots, n).contains(k) <==> (k < n && (#[trigger] slots[k as int]) is Some),
    decreases n,
{
    if n > 0 {
        lemma_occupied_upto(slots, n - 1);
        let prev = occupied_upto(slots, n - 1);
        let cur = occupied_upto(slots, n);
        if slots[n - 1] is Some {
            assert(cur == prev.push((n - 1) as u64));
            assert forall|i: int, j: int| 0 <= i < j < cur.len() implies cur[i] < cur[j] by {
                if j < prev.len() {
                } else {
                    assert(cur[i] == prev[i]);
                }
            }
            assert forall|k: u64| cur.contains(k) <==> (k < n && (#[trigger] slots[k as int]) is Some) by {
                if k == n - 1 {
                    assert(cur[prev.len() as int] == k);
                } else if cur.contains(k) {
                    let j = choose|j: int| 0 <= j < cur.len() && cur[j] == k;
                    if j < prev.len() {
                        assert(prev[j] == k);
                    }
                } else if k < n && slots[k as int] is Some {
                    assert(prev.contains(k));
                    let j = choose|j: int| 0 <= j < prev.len() && prev[j] == k;
                    assert(cur[j] == k);
                }
            }
        } else {
            assert(cur == prev);
        }
    }
}

proof fn lemma_occupied_same<S>(s1: Seq<Option<S>>, s2: Seq<Option<S>>, n: int)
    requires
        0 <= n <= s1.len(),
        s1.len() == s2.len(),
        forall|i: int| 0 <= i < n ==> ((#[trigger] s1[i]) is Some <==> s2[i] is Some),
    ensures
        occupied_upto(s1, n) == occupied_upto(s2, n),
    decreases n,
{
    if n > 0 {
        lemma_occupied_same(s1, s2, n - 1);
        assert(s1[n - 1] is Some <==> s2[n - 1] is Some);
    }
}

proof fn lemma_occupied_full<S>(slots: Seq<Option<S>>, n: int)
    requires
        0 <= n <= slots.len(),
        slots.len() <= u64::MAX,
        forall|i: int| 0 <= i < n ==> (#[trigger] slots[i]) is Some,
    ensures
        occupied_upto(slots, n) == Seq::new(n as nat, |i: int| i as u64),
    decreases n,
{
    if n > 0 {
        lemma_occupied_full(slots, n - 1);
        assert(slots[n - 1] is Some);
        assert(occupied_upto(slots, n) =~= Seq::new(n as nat, |i: int| i as u64));
    }
}

impl<T: OpaqueKey, S: Clone> Clone for Storage<T, S> {
    fn clone(&self) -> (c: Self) {
        Storage { slots: self.slots.clone(), running_id: self.running_id, key: PhantomData }
    }
}

impl<T: OpaqueKey, S> Storage<T, S> {
    /// The stored values, by key identifier.
    pub closed spec fn map(self) -> Map<u64, S> {
        Map::new(
            |id: u64| id < self.slots.len() && self.slots[id as int] is Some,
            |id: u64| self.slots[id as int]->0,
        )
    }

    /// The identifier that the next added value gets.
    pub closed spec fn next_id(self) -> u64 {
        self.running_id
    }

    /// The identifiers of the stored values, ascending.
    pub closed spec fn key_ids(self) -> Seq<u64> {
        occupied_upto(self.slots@, self.slots.len() as int)
    }

    /// Every stored value has an identifier below the next one.
    pub closed spec fn wf(self) -> bool {
        self.slots.len() == self.running_id
    }

    /// The identifiers of the stored values are exactly the keys of the map,
    /// strictly ascending, and all below the next identifier.
    pub proof fn lemma_key_ids(self)
        requires
            self.wf(),
        ensures
            forall|id: u64| self.key_ids().contains(id) <==> #[trigger] self.map().dom().contains(id),
            forall|i: int, j: int|
                0 <= i < j < self.key_ids().len() ==> self.key_ids()[i] < self.key_ids()[j],
            self.key_ids().no_duplicates(),
            forall|id: u64| #[trigger] self.map().dom().contains(id) ==> id < self.next_id(),
            self.map().dom().finite(),
            self.key_ids().len() == self.map().dom().len(),
    {
        lemma_occupied_upto(self.slots@, self.slots.len() as int);
        assert forall|id: u64| self.key_ids().contains(id) <==> #[trigger] self.map().dom().contains(
            id,
        ) by {
            if self.key_ids().contains(id) {
                assert(self.slots@[id as int] is Some);
            }
        }
        assert(self.map().dom() =~= self.key_ids().to_set());
        vstd::seq_lib::seq_to_set_is_finite(self.key_ids());
        self.key_ids().unique_seq_to_set();
    }

    /// When every identifier below the next one is in use, the identifiers
    /// are exactly `0, 1, 2, ...`.
    pub proof fn lemma_key_ids_full(self)
        requires
            self.wf(),
            forall|id: u64| id < self.next_id() ==> #[trigger] self.map().dom().contains(id),
        ensures
            self.key_ids() == Seq::new(self.next_id() as nat, |i: int| i as u64),
    {
        assert forall|i: int| 0 <= i < self.slots.len() implies (#[trigger] self.slots@[i]) is Some by {
            assert(self.map().dom().contains(i as u64));
        }
        lemma_occupied_full(self.slots@, self.slots.len() as int);
    }

    /// Two storages holding values under the same identifiers list the same
    /// identifiers.
    pub proof fn lemma_same_key_ids(self, other: Self)
        requires
            self.wf(),
            other.wf(),
            self.next_id() == other.next_id(),
            self.map().dom() == other.map().dom(),
        ensures
            self.key_ids() == other.key_ids(),
    {
        assert forall|i: int| 0 <= i < self.slots.len() implies ((#[trigger] self.slots@[i]) is Some
            <==> other.slots@[i] is Some) by {
            let id = i as u64;
            assert(id as int == i);
            assert(self.map().dom().contains(id) == (self.slots@[i] is Some));
            assert(other.map().dom().contains(id) == (other.slots@[i] is Some));
            assert(self.map().dom().contains(id) <==> other.map().dom().contains(id));
        }
        lemma_occupied_same(self.slots@, other.slots@, self.slots.len() as int);
    }

    /// Creates an empty storage.
    pub fn new() -> (s: Self)
        ensures
            s.wf(),
            s.map() == Map::<u64, S>::empty(),
            s.next_id() == 0,
    {
        let s = Self { slots: Vec::new(), running_id: 0, key: PhantomData };
        assert(s.map() =~= Map::<u64, S>::empty());
        s
    }

    /// The identifier that the next added value gets.
    pub fn next_key_id(&self) -> (r: u64)
        ensures
            r == self.next_id(),
    {
        self.running_id
    }

    /// Adds a value under a fresh key and returns the key.
    pub fn add(&mut self, value: S) -> (k: T)
        requires
            old(self).wf(),
            old(self).next_id() < INVALID_ID,
        ensures
            final(self).wf(),
            k.key_id() == old(self).next_id(),
            final(self).next_id() == old(self).next_id() + 1,
            final(self).map() == old(self).map().insert(k.key_id(), value),
    {
        let id = T::new(self.running_id);
        self.running_id = self.running_id + 1;
        self.slots.push(Some(value));
        assert(self.map() =~= old(self).map().insert(id.key_id(), value));
        id
    }

    /// Returns the stored values, ordered by key.
    pub fn iter(&self) -> (r: Vec<&S>)
        requires
            self.wf(),
        ensures
            r.len() == self.key_ids().len(),
            forall|i: int| 0 <= i < r.len() ==> *(#[trigger] r@[i]) == self.map()[self.key_ids()[i]],
    {
        proof {
            lemma_occupied_upto(self.slots@, self.slots.len() as int);
        }
        let mut values: Vec<&S> = Vec::new();
        let mut i: usize = 0;
        while i < self.slots.len()
            invariant
                i <= self.slots.len(),
                values.len() == occupied_upto(self.slots@, i as int).len(),
                forall|j: int|
                    0 <= j < values.len() ==> *(#[trigger] values@[j]) == self.slots@[occupied_upto(
                        self.slots@,
                        i as int,
                    )[j] as int]->0,
            decreases self.slots.len() - i,
        {
            match &self.slots[i] {
                Some(v) => {
                    values.push(v);
                },
                None => {},
            }
            i = i + 1;
        }
        proof {
            assert forall|i: int| 0 <= i < values.len() implies *(#[trigger] values@[i]) == self.map()[self.key_ids()[i]] by {
                lemma_occupied_upto(self.slots@, self.slots.len() as int);
                assert(self.key_ids().contains(self.key_ids()[i]));
            }
        }
        values
    }

    /// Returns the keys of the stored values, ascending.
    pub fn iter_keys(&self) -> (r: Vec<T>)
        requires
            self.wf(),
        ensures
            r.len() == self.key_ids().len(),
            forall|i: int| 0 <= i < r.len() ==> (#[trigger] r@[i]).key_id() == self.key_ids()[i],
    {
        let mut keys: Vec<T> = Vec::new();
        let mut i: usize = 0;
        while i < self.slots.len()
            invariant
                i <= self.slots.len(),
                self.slots.len() == self.running_id,
                keys.len() == occupied_upto(self.slots@, i as int).len(),
                forall|j: int|
                    0 <= j < keys.len() ==> (#[trigger] keys@[j]).key_id() == occupied_upto(
                        self.slots@,
                        i as int,
                    )[j],
            decreases self.slots.len() - i,
        {
            if self.slots[i].is_some() {
                keys.push(T::new(i as u64));
            }
            i = i + 1;
        }
        keys
    }

    /// Returns the value stored under the key, if any.
    pub fn get(&self, key: T) -> (r: Option<&S>)
        ensures
            r is Some <==> self.map().dom().contains(key.key_id()),
            r matches Some(v) ==> *v == self.map()[key.key_id()],
    {
        let id = key.get();
        if id < self.slots.len() as u64 {
            match &self.slots[id as usize] {
                Some(v) => Some(v),
                None => None,
            }
        } else {
            None
        }
    }

    /// Returns the value stored under the key, if any, for in-place changes.
    pub fn get_mut(&mut self, key: T) -> (r: Option<&mut S>)
        requires
            old(self).wf(),
        ensures
            final(self).wf(),
            final(self).next_id() == old(self).next_id(),
            r is Some <==> old(self).map().dom().contains(key.key_id()),
            r matches Some(v) ==> *v == old(self).map()[key.key_id()] && final(self).map() == old(
                self,
            ).map().insert(key.key_id(), *final(v)),
            r is None ==> final(self).map() == old(self).map(),
    {
        let id = key.get();
        if id < self.slots.len() as u64 && self.slots[id as usize].is_some() {
            let slot = &mut self.slots[id as usize];
            slot.as_mut()
        } else {
            None
        }
    }

    /// Whether a value is stored under the key.
    pub fn contains(&self, key: T) -> (b: bool)
        ensures
            b == self.map().dom().contains(key.key_id()),
    {
        let id = key.get();
        id < self.slots.len() as u64 && self.slots[id as usize].is_some()
    }

    /// Replaces the value stored under the key, if there is one; returns
    /// whether there was.
    pub fn set(&mut self, key: T, value: S) -> (b: bool)
        requires
            old(self).wf(),
        ensures
            final(self).wf(),
            final(self).next_id() == old(self).next_id(),
            b == old(self).map().dom().contains(key.key_id()),
            final(self).key_ids() == old(self).key_ids(),
            final(self).map() == if b {
                old(self).map().insert(key.key_id(), value)
            } else {
                old(self).map()
            },
    {
        let id = key.get();
        if id < self.slots.len() as u64 && self.slots[id as usize].is_some() {
            self.slots.set(id as usize, Some(value));
            assert(self.map() =~= old(self).map().insert(key.key_id(), value));
            proof {
                lemma_occupied_same(self.slots@, old(self).slots@, self.slots.len() as int);
            }
            true
        } else {
            false
        }
    }

    /// Removes the value stored under the key, returning it.
    pub fn remove(&mut self, key: T) -> (r: Option<S>)
        requires
            old(self).wf(),
        ensures
            final(self).wf(),
            final(self).next_id() == old(self).next_id(),
            r is Some <==> old(self).map().dom().contains(key.key_id()),
            r matches Some(v) ==> v == old(self).map()[key.key_id()],
            final(self).map() == old(self).map().remove(key.key_id()),
    {
        let id = key.get();
        if id < self.slots.len() as u64 && self.slots[id as usize].is_some() {
            let mut taken: Option<S> = None;
            self.slots.set_and_swap(id as usize, &mut taken);
            assert(self.map() =~= old(self).map().remove(key.key_id()));
            taken
        } else {
            assert(self.map() =~= old(self).map().remove(key.key_id()));
            None
        }
    }

    /// The number of stored values.
    pub fn len(&self) -> (n: usize)
        requires
            self.wf(),
        ensures
            n == self.map().dom().len(),
    {
        let mut n: usize = 0;
        let mut i: usize = 0;
        proof {
            lemma_occupied_upto(self.slots@, self.slots.len() as int);
            self.lemma_key_ids();
            self.key_ids().unique_seq_to_set();
            assert(self.map().dom() =~= self.key_ids().to_set());
        }
        while i < self.slots.len()
            invariant
                i <= self.slots.len(),
                n == occupied_upto(self.slots@, i as int).len(),
                n <= i,
            decreases self.slots.len() - i,
        {
            if self.slots[i].is_some() {
                n = n + 1;
            }
            i = i + 1;
        }
        n
    }

    /// Whether no value is stored.
    pub fn is_empty(&self) -> (b: bool)
        requires
            self.wf(),
        ensures
            b == (self.map().dom().len() == 0),
    {
        self.len() == 0
    }

    /// Keeps exactly the values for which `keep` returns true.
    pub fn retain<F: Fn(&T, &S) -> bool>(&mut self, keep: F)
        requires
            old(self).wf(),
            forall|k: T, v: S| call_requires(keep, (&k, &v)),
        ensures
            final(self).wf(),
            final(self).next_id() == old(self).next_id(),
            final(self).map().dom().subset_of(old(self).map().dom()),
            forall|id: u64| #[trigger]
                final(self).map().dom().contains(id) ==> final(self).map()[id] == old(
                    self,
                ).map()[id] && call_ensures(keep, (&T::from_id(id), &old(self).map()[id]), true),
            forall|id: u64|
                #[trigger] old(self).map().dom().contains(id) && !final(self).map().dom().contains(
                    id,
                ) ==> call_ensures(keep, (&T::from_id(id), &old(self).map()[id]), false),
    {
        let mut i: usize = 0;
        let len = self.slots.len();
        while i < len
            invariant
                i <= len,
                len == self.slots.len(),
                self.slots.len() == self.running_id,
                self.running_id == old(self).running_id,
                forall|k: T, v: S| call_requires(keep, (&k, &v)),
                forall|j: int| i <= j < len ==> self.slots@[j] == old(self).slots@[j],
                forall|j: int|
                    0 <= j < i ==> (#[trigger] self.slots@[j] is Some ==> self.slots@[j]
                        == old(self).slots@[j] && call_ensures(
                        keep,
                        (&T::from_id(j as u64), &old(self).slots@[j]->0),
                        true,
                    )),
                forall|j: int|
                    0 <= j < i ==> (old(self).slots@[j] is Some && #[trigger] self.slots@[j]
                        is None ==> call_ensures(
                        keep,
                        (&T::from_id(j as u64), &old(self).slots@[j]->0),
                        false,
                    )),
            decreases len - i,
        {
            let drop = match &self.slots[i] {
                Some(v) => {
                    let k = T::new(i as u64);
                    !keep(&k, v)
                },
                None => false,
            };
            if drop {
                self.slots.set(i, None);
            }
            i = i + 1;
        }
    }
}

/// A value added under a fresh key is read back under that key, and the
/// other keys keep their values.
pub proof fn lemma_get_after_add<T: OpaqueKey, S>(before: Storage<T, S>, after: Storage<T, S>, k: T, value: S, other: T)
    requires
        before.wf(),
        k.key_id() == before.next_id(),
        after.map() == before.map().insert(k.key_id(), value),
    ensures
        !before.map().dom().contains(k.key_id()),
        after.map().dom().contains(k.key_id()) && after.map()[k.key_id()] == value,
        other.key_id() != k.key_id() ==> (after.map().dom().contains(other.key_id()) == before.map().dom().contains(
            other.key_id(),
        ) && after.map()[other.key_id()] == before.map()[other.key_id()]),
{
    before.lemma_key_ids();
}

/// A removed key is read back as absent, and the other keys keep their
/// values.
pub proof fn lemma_get_after_remove<T: OpaqueKey, S>(before: Storage<T, S>, after: Storage<T, S>, k: T, other: T)
    requires
        after.map() == before.map().remove(k.key_id()),
    ensures
        !after.map().dom().contains(k.key_id()),
        other.key_id() != k.key_id() ==> (after.map().dom().contains(other.key_id()) == before.map().dom().contains(
            other.key_id(),
        ) && after.map()[other.key_id()] == before.map()[other.key_id()]),
{
}

} // verus!
