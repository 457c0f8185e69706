//! Hash sets and maps of integer identifiers, kept in `hashbrown` and
//! `ahash` tables.
//!
//! `hashbrown`'s tables carry an allocator parameter whose trait the crate
//! does not export, so each table is held in a private field of a struct of
//! this crate, and its contents are named by a spec function; the `ahash`
//! set is held the same way.
use vstd::prelude::*;

verus! {

/// A set of identifiers.
#[verifier::external_body]
pub struct IdSet {
    inner: hashbrown::HashSet<u64>,
}

/// The identifiers that an `IdSet` holds.
pub uninterp spec fn id_set_contents(s: IdSet) -> Set<u64>;

/// A map from identifiers to identifiers.
#[verifier::external_body]
pub struct IdMap {
    inner: hashbrown::HashMap<u64, u64>,
}

/// The entries that an `IdMap` holds.
pub uninterp spec fn id_map_contents(m: IdMap) -> Map<u64, u64>;

/// A map from pairs of identifiers to identifiers.
#[verifier::external_body]
pub struct PairMap {
    inner: hashbrown::HashMap<(u64, u64), u64>,
}

/// The entries that a `PairMap` holds.
pub uninterp spec fn pair_map_contents(m: PairMap) -> Map<(u64, u64), u64>;

/// A set of value identifiers, kept in an `ahash` set.
#[verifier::external_body]
pub struct ValueSet {
    inner: ahash::AHashSet<u64>,
}

/// The identifiers that a `ValueSet` holds.
pub uninterp spec fn value_set_contents(s: ValueSet) -> Set<u64>;

impl ValueSet {
    /// `ahash::AHashSet::new`: an empty set.
    #[verifier::external_body]
    pub(crate) fn new() -> (empty: Self)
        ensures
            value_set_contents(empty) == Set::<u64>::empty(),
    {
        ValueSet { inner: ahash::AHashSet::new() }
    }

    /// `HashSet::insert` (through `ahash::AHashSet`'s `DerefMut`): adds the
    /// identifier.
    #[verifier::external_body]
    pub(crate) fn insert(&mut self, id: u64)
        ensures
            value_set_contents(*final(self)) == value_set_contents(*old(self)).insert(id),
    {
        self.inner.insert(id);
    }

    /// `HashSet::len` (through `Deref`): the number of identifiers held.
    #[verifier::external_body]
    pub(crate) fn len(&self) -> (n: usize)
        ensures
            n == value_set_contents(*self).len(),
    {
        self.inner.len()
    }

    /// `HashSet::iter` (through `Deref`), collected: each identifier held,
    /// once, in an order that the table's layout and its randomly seeded
    /// hasher decide, and that is left unsaid.
    #[verifier::external_body]
    pub(crate) fn to_vec(&self) -> (v: Vec<u64>)
        ensures
            v@.no_duplicates(),
            v@.to_set() == value_set_contents(*self),
    {
        self.inner.iter().copied().collect()
    }

    /// The identifiers held, each once, in an order left unsaid.
    pub fn identifiers(&self) -> (v: Vec<u64>)
        ensures
            v@.no_duplicates(),
            v@.to_set() == value_set_contents(*self),
    {
        self.to_vec()
    }

    /// The number of identifiers held.
    pub fn count(&self) -> (n: usize)
        ensures
            n == value_set_contents(*self).len(),
    {
        self.len()
    }

    /// `ahash::AHashSet::clone`: a set holding the same identifiers.
    #[verifier::external_body]
    pub(crate) fn duplicate(&self) -> (c: Self)
        ensures
            value_set_contents(c) == value_set_contents(*self),
    {
        ValueSet { inner: self.inner.clone() }
    }

    /// `ahash::AHashSet::eq`: whether the two sets hold the same identifiers.
    #[verifier::external_body]
    pub(crate) fn same_as(&self, other: &ValueSet) -> (b: bool)
        ensures
            b == (value_set_contents(*self) == value_set_contents(*other)),
    {
        self.inner == other.inner
    }
}

impl IdSet {
    /// `hashbrown::HashSet::new`: an empty set.
    #[verifier::external_body]
    pub(crate) fn new() -> (empty: Self)
        ensures
            id_set_contents(empty) == Set::<u64>::empty(),
    {
        IdSet { inner: hashbrown::HashSet::new() }
    }

    /// `hashbrown::HashSet::insert`: adds the identifier; returns whether it
    /// was absent before.
    #[verifier::external_body]
    pub(crate) fn insert(&mut self, id: u64) -> (fresh: bool)
        ensures
            id_set_contents(*final(self)) == id_set_contents(*old(self)).insert(id),
            fresh == !id_set_contents(*old(self)).contains(id),
    {
        self.inner.insert(id)
    }

    /// `hashbrown::HashSet::remove`: takes the identifier out; returns
    /// whether it was held.
    #[verifier::external_body]
    pub(crate) fn remove(&mut self, id: u64) -> (held: bool)
        ensures
            id_set_contents(*final(self)) == id_set_contents(*old(self)).remove(id),
            held == id_set_contents(*old(self)).contains(id),
    {
        self.inner.remove(&id)
    }

    /// `hashbrown::HashSet::contains`: whether the identifier is held.
    #[verifier::external_body]
    pub(crate) fn contains(&self, id: u64) -> (b: bool)
        ensures
            b == id_set_contents(*self).contains(id),
    {
        self.inner.contains(&id)
    }

    /// `hashbrown::HashSet::len`: the number of identifiers held.
    #[verifier::external_body]
    pub(crate) fn len(&self) -> (n: usize)
        ensures
            n == id_set_contents(*self).len(),
    {
        self.inner.len()
    }

    /// `hashbrown::HashSet::iter`, collected: each identifier held, once, in
    /// an order that the table's layout decides and that is left unsaid.
    #[verifier::external_body]
    pub(crate) fn to_vec(&self) -> (v: Vec<u64>)
        ensures
            v@.no_duplicates(),
            v@.to_set() == id_set_contents(*self),
    {
        self.inner.iter().copied().collect()
    }
}

impl IdMap {
    /// `hashbrown::HashMap::new`: an empty map.
    #[verifier::external_body]
    pub(crate) fn new() -> (empty: Self)
        ensures
            forall|k: u64| !id_map_contents(empty).dom().contains(k),
    {
        IdMap { inner: hashbrown::HashMap::new() }
    }

    /// `hashbrown::HashMap::insert`: maps `key` to `value`, replacing any
    /// earlier entry for `key`.
    #[verifier::external_body]
    pub(crate) fn insert(&mut self, key: u64, value: u64)
        ensures
            id_map_contents(*final(self)) == id_map_contents(*old(self)).insert(key, value),
    {
        self.inner.insert(key, value);
    }

    /// `hashbrown::HashMap::get`, copied: the value mapped from `key`, if any.
    #[verifier::external_body]
    pub(crate) fn get(&self, key: u64) -> (r: Option<u64>)
        ensures
            r is Some <==> id_map_contents(*self).dom().contains(key),
            r matches Some(v) ==> v == id_map_contents(*self)[key],
    {
        self.inner.get(&key).copied()
    }
}

impl PairMap {
    /// `hashbrown::HashMap::new`: an empty map.
    #[verifier::external_body]
    pub(crate) fn new() -> (empty: Self)
        ensures
            forall|k: (u64, u64)| !pair_map_contents(empty).dom().contains(k),
    {
        PairMap { inner: hashbrown::HashMap::new() }
    }

    /// `hashbrown::HashMap::insert`: maps `key` to `value`, replacing any
    /// earlier entry for `key`.
    #[verifier::external_body]
    pub(crate) fn insert(&mut self, key: (u64, u64), value: u64)
        ensures
            pair_map_contents(*final(self)) == pair_map_contents(*old(self)).insert(key, value),
    {
        self.inner.insert(key, value);
    }

    /// `hashbrown::HashMap::get`, copied: the value mapped from `key`, if any.
    #[verifier::external_body]
    pub(crate) fn get(&self, key: (u64, u64)) -> (r: Option<u64>)
        ensures
            r is Some <==> pair_map_contents(*self).dom().contains(key),
            r matches Some(v) ==> v == pair_map_contents(*self)[key],
    {
        self.inner.get(&key).copied()
    }
}

} // verus!
