//! Tests of cell values, for building the constraints between cells.
use vstd::prelude::*;

use super::grid::Grid;
use super::position::Position;
use crate::hash_tables::{value_set_contents, ValueSet};

verus! {

/// A type to help with building adjacency constraints.
///
/// The sampler has methods beginning with `test_` that can be used to build
/// constraints. These methods test the value of one or more cells with a
/// boolean closure. Under the hood, the test is applied to the cell's value
/// if it has a value, or to every possible value if it doesn't. If the
/// condition is true for any possible value in the given cell, the
/// constraint is satisfied.
pub struct Sampler<'a, T> {
    /// The position of the cell being sampled.
    pub here: Position,
    values: &'a Grid<Option<T>>,
    domains: &'a Grid<ValueSet>,
    full: &'a Vec<T>,
}

/// The identifiers still possible at linear index `i`.
pub open spec fn domain_at(domains: Grid<ValueSet>, i: int) -> Set<u64> {
    value_set_contents(domains.elems()[i])
}

/// Whether the value grid and the domain grid have one cell per position of
/// the same extent, and each identifier left in a domain names one of the
/// values of `full`.
pub open spec fn grids_agree<T>(values: Grid<Option<T>>, domains: Grid<ValueSet>, full: Seq<T>) -> bool {
    &&& values.wf()
    &&& domains.wf()
    &&& domains.extent() == values.extent()
    &&& forall|i: int, id: u64|
        0 <= i < domains.elems().len() && #[trigger] domain_at(domains, i).contains(id) ==> id < full.len()
}

/// What testing the cell at `position` with `f` may give: `false` outside
/// the grid; for a cell with a value, what `f` gives on it; for a cell
/// without, `true` when `f` can give `true` on some value of its domain and
/// `false` when it can give `false` on every one.
pub open spec fn test_outcome<T, F: Fn(&T) -> bool>(
    values: Grid<Option<T>>,
    domains: Grid<ValueSet>,
    full: Seq<T>,
    position: Position,
    f: F,
    r: bool,
) -> bool {
    match values.get_spec(position) {
        None => !r,
        Some(Some(v)) => call_ensures(f, (&v,), r),
        Some(None) => {
            let dom = domain_at(domains, position.index_spec(values.extent()));
            &&& r ==> exists|id: u64| #[trigger] dom.contains(id) && call_ensures(f, (&full[id as int],), true)
            &&& !r ==> forall|id: u64| #[trigger] dom.contains(id) ==> call_ensures(f, (&full[id as int],), false)
        },
    }
}

impl<'a, T> Sampler<'a, T> {
    /// The position of the cell being sampled.
    pub closed spec fn here_spec(&self) -> Position {
        self.here
    }

    /// The grid of values the sampler reads.
    pub closed spec fn values_spec(&self) -> Grid<Option<T>> {
        *self.values
    }

    /// The grid of domains the sampler reads.
    pub closed spec fn domains_spec(&self) -> Grid<ValueSet> {
        *self.domains
    }

    /// The values that the domains' identifiers name.
    pub closed spec fn full_spec(&self) -> Seq<T> {
        self.full@
    }

    /// Creates a sampler at `here` over the given grids.
    pub(crate) fn new(here: Position, values: &'a Grid<Option<T>>, domains: &'a Grid<ValueSet>, full: &'a Vec<T>) -> (s: Self)
        ensures
            s.here_spec() == here,
            s.values_spec() == *values,
            s.domains_spec() == *domains,
            s.full_spec() == full@,
    {
        Sampler { here, values, domains, full }
    }

    /// Tests a condition, given by reference, against the cell at `position`.
    fn test_absolute_by_ref<F: Fn(&T) -> bool>(&self, position: Position, f: &F) -> (r: bool)
        requires
            grids_agree(self.values_spec(), self.domains_spec(), self.full_spec()),
            forall|t: &T| f.requires((t,)),
        ensures
            test_outcome(self.values_spec(), self.domains_spec(), self.full_spec(), position, *f, r),
    {
        // abort if we're out of bounds
        let value = match self.values.get(position) {
            Some(value) => value,
            None => {
                return false;
            },
        };
        match value {
            Some(value) => (*f)(value),
            None => {
                proof {
                    super::grid::lemma_valid_index_in_range(position, self.values.extent());
                }
                let domain = match self.domains.get(position) {
                    Some(domain) => domain,
                    None => {
                        return false;
                    },
                };
                let ghost dom = value_set_contents(*domain);
                let ghost i = position.index_spec(self.values.extent());
                assert(dom == domain_at(*self.domains, i));
                let ids = domain.to_vec();
                let mut k: usize = 0;
                while k < ids.len()
                    invariant
                        k <= ids@.len(),
                        ids@.to_set() == dom,
                        grids_agree(self.values_spec(), self.domains_spec(), self.full_spec()),
                        0 <= i < self.domains_spec().elems().len(),
                        i == position.index_spec(self.values_spec().extent()),
                        self.values_spec().get_spec(position) == Some(None::<T>),
                        dom == domain_at(self.domains_spec(), i),
                        forall|t: &T| f.requires((t,)),
                        forall|kk: int| 0 <= kk < k ==> call_ensures(*f, (&self.full@[#[trigger] ids@[kk] as int],), false),
                    decreases ids@.len() - k,
                {
                    let id = ids[k];
                    assert(ids@.to_set().contains(id));
                    assert(id < self.full@.len());
                    let full: &Vec<T> = self.full;
                    let count = full.len();
                    assert(id < count);
                    let idx = id as usize;
                    let item = &full[idx];
                    let b = (*f)(item);
                    if b {
                        assert(domain_at(self.domains_spec(), i).contains(id) && call_ensures(
                            *f,
                            (&self.full@[id as int],),
                            true,
                        ));
                        return true;
                    }
                    k = k + 1;
                }
                assert forall|id: u64| #[trigger] dom.contains(id) implies call_ensures(*f, (&self.full@[id as int],), false) by {
                    assert(ids@.to_set().contains(id));
                    let kk = choose|kk: int| 0 <= kk < ids@.len() && ids@[kk] == id;
                    assert(call_ensures(*f, (&self.full@[ids@[kk] as int],), false));
                }
                false
            },
        }
    }

    /// Tests a condition against the value at the given absolute position
    /// within the grid. If the given position is out of bounds, the test
    /// returns false.
    pub fn test_absolute<F: Fn(&T) -> bool>(&self, position: Position, f: F) -> (r: bool)
        requires
            grids_agree(self.values_spec(), self.domains_spec(), self.full_spec()),
            forall|t: &T| f.requires((t,)),
        ensures
            test_outcome(self.values_spec(), self.domains_spec(), self.full_spec(), position, f, r),
    {
        self.test_absolute_by_ref(position, &f)
    }

    /// Tests a condition against the value at the given position relative to
    /// the current cell. If the given position is out of bounds, the test
    /// returns false.
    pub fn test_relative<F: Fn(&T) -> bool>(&self, x: i32, y: i32, z: i32, f: F) -> (r: bool)
        requires
            grids_agree(self.values_spec(), self.domains_spec(), self.full_spec()),
            forall|t: &T| f.requires((t,)),
        ensures
            match self.here_spec().transform_spec(x, y, z, self.values_spec().extent()) {
                None => !r,
                Some(p) => test_outcome(self.values_spec(), self.domains_spec(), self.full_spec(), p, f, r),
            },
    {
        // abort if we're out of bounds
        let position = match self.here.transform(x, y, z, &self.values.size()) {
            Some(p) => p,
            None => {
                return false;
            },
        };
        self.test_absolute_by_ref(position, &f)
    }

    /// Tests a condition against the cells at `positions`, in order.
    fn test_each<F: Fn(&T) -> bool>(&self, positions: &Vec<Position>, f: &F) -> (r: Vec<bool>)
        requires
            grids_agree(self.values_spec(), self.domains_spec(), self.full_spec()),
            forall|t: &T| f.requires((t,)),
        ensures
            r@.len() == positions@.len(),
            forall|k: int|
                0 <= k < positions@.len() ==> test_outcome(
                    self.values_spec(),
                    self.domains_spec(),
                    self.full_spec(),
                    positions@[k],
                    *f,
                    #[trigger] r@[k],
                ),
    {
        let mut results: Vec<bool> = Vec::new();
        let mut k: usize = 0;
        while k < positions.len()
            invariant
                k <= positions@.len(),
                results@.len() == k,
                grids_agree(self.values_spec(), self.domains_spec(), self.full_spec()),
                forall|t: &T| f.requires((t,)),
                forall|kk: int|
                    0 <= kk < k ==> test_outcome(
                        self.values_spec(),
                        self.domains_spec(),
                        self.full_spec(),
                        positions@[kk],
                        *f,
                        #[trigger] results@[kk],
                    ),
            decreases positions@.len() - k,
        {
            let b = self.test_absolute_by_ref(positions[k], f);
            results.push(b);
            k = k + 1;
        }
        results
    }

    /// Tests a condition against the neighbors of the current cell, one
    /// result per neighbor. This uses the Moore neighborhood, which includes
    /// diagonals.
    ///
    /// Neighbors out of bounds are excluded, so the returned vector may be
    /// shorter than 26 elements. To test a specific neighbor, use
    /// `test_relative` instead.
    pub fn test_neighbors<F: Fn(&T) -> bool>(&self, f: F) -> (r: Vec<bool>)
        requires
            grids_agree(self.values_spec(), self.domains_spec(), self.full_spec()),
            forall|t: &T| f.requires((t,)),
        ensures
            ({
                let ns = self.here_spec().neighbors_spec(self.values_spec().extent(), false);
                &&& r@.len() == ns.len()
                &&& forall|k: int|
                    0 <= k < ns.len() ==> test_outcome(
                        self.values_spec(),
                        self.domains_spec(),
                        self.full_spec(),
                        ns[k],
                        f,
                        #[trigger] r@[k],
                    )
            }),
    {
        let neighbors = self.here.neighbors(&self.values.size());
        self.test_each(&neighbors, &f)
    }

    /// Tests a condition against the direct neighbors of the current cell,
    /// one result per neighbor. This uses the Von Neumann neighborhood, which
    /// excludes diagonals.
    ///
    /// Neighbors out of bounds are excluded, so the returned vector may be
    /// shorter than 6 elements. To test a specific neighbor, use
    /// `test_relative` instead.
    pub fn test_direct_neighbors<F: Fn(&T) -> bool>(&self, f: F) -> (r: Vec<bool>)
        requires
            grids_agree(self.values_spec(), self.domains_spec(), self.full_spec()),
            forall|t: &T| f.requires((t,)),
        ensures
            ({
                let ns = self.here_spec().neighbors_spec(self.values_spec().extent(), true);
                &&& r@.len() == ns.len()
                &&& forall|k: int|
                    0 <= k < ns.len() ==> test_outcome(
                        self.values_spec(),
                        self.domains_spec(),
                        self.full_spec(),
                        ns[k],
                        f,
                        #[trigger] r@[k],
                    )
            }),
    {
        let neighbors = self.here.direct_neighbors(&self.values.size());
        self.test_each(&neighbors, &f)
    }
}

} // verus!
