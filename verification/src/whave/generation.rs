//! A generation of the solver: the values of the cells, and the values each
//! unset cell can still take.
use vstd::prelude::*;

use crate::hedge::mesh::cloned_twice;

use super::grid::Grid;
use super::position::{lemma_from_index_roundtrip, Position};
use super::random::{new_rng, shuffle};
use super::sampler::{domain_at, grids_agree, Sampler};
use super::Element;
use crate::hash_tables::{value_set_contents, ValueSet};

verus! {

/// The values of the cells, and for each cell the identifiers (positions in
/// the list of all values) of the values it can still take.
pub struct Generation<T> {
    values: Grid<Option<T>>,
    domains: Grid<ValueSet>,
    full: Vec<T>,
}

/// Whether the grids agree, each domain is finite, and cells with a value
/// have empty domains.
pub open spec fn consistent<T>(values: Grid<Option<T>>, domains: Grid<ValueSet>, full: Seq<T>) -> bool {
    &&& grids_agree(values, domains, full)
    &&& forall|i: int| 0 <= i < domains.elems().len() ==> (#[trigger] domain_at(domains, i)).finite()
    &&& forall|i: int|
        0 <= i < values.elems().len() && (#[trigger] values.elems()[i]) is Some ==> domain_at(domains, i).is_empty()
}

/// Whether testing the value with identifier `id` against its constraints,
/// with a sampler at the cell with linear index `i` over these grids, can
/// answer `answer`.
pub open spec fn tested<T: Element>(
    values: Grid<Option<T>>,
    domains: Grid<ValueSet>,
    full: Seq<T>,
    i: int,
    id: u64,
    answer: bool,
) -> bool {
    exists|s: Sampler<T>|
        {
            &&& s.here_spec() == Position::from_index_spec(i as usize, values.extent())
            &&& s.values_spec() == values
            &&& s.domains_spec() == domains
            &&& s.full_spec() == full
            &&& call_ensures(T::satisfies, (&full[id as int], &s), answer)
        }
}

/// Whether, at the cell with linear index `i`, each identifier left in the
/// domain names a value that met its constraints, tested with a sampler at
/// that cell over these grids.
pub open spec fn settled_at<T: Element>(values: Grid<Option<T>>, domains: Grid<ValueSet>, full: Seq<T>, i: int) -> bool {
    forall|id: u64| #[trigger] domain_at(domains, i).contains(id) ==> tested(values, domains, full, i, id, true)
}

/// Whether `after` is one pass over `before`: at each cell, of the
/// identifiers in its domain, those whose test, over the grids of `before`,
/// answered `true` are kept and those whose test answered `false` dropped.
pub open spec fn one_pass<T: Element>(
    values: Grid<Option<T>>,
    full: Seq<T>,
    before: Grid<ValueSet>,
    after: Grid<ValueSet>,
) -> bool {
    &&& after.elems().len() == before.elems().len()
    &&& after.extent() == before.extent()
    &&& forall|i: int| 0 <= i < before.elems().len() ==> #[trigger] domain_at(after, i).subset_of(domain_at(before, i))
    &&& forall|i: int, id: u64|
        0 <= i < before.elems().len() && #[trigger] domain_at(before, i).contains(id) ==> if domain_at(after, i).contains(id) {
            tested(values, before, full, i, id, true)
        } else {
            tested(values, before, full, i, id, false)
        }
}

/// The pass that leads to the `j`-th domains of a trace.
pub open spec fn pass_in<T: Element>(values: Grid<Option<T>>, full: Seq<T>, trace: Seq<Grid<ValueSet>>, j: int) -> bool {
    one_pass(values, full, trace[j - 1], trace[j])
}

/// Whether the domains start as every identifier at a cell without a value,
/// and none at a cell with one.
pub open spec fn starting_domains<T>(values: Grid<Option<T>>, full: Seq<T>, domains: Grid<ValueSet>) -> bool {
    &&& domains.elems().len() == values.elems().len()
    &&& domains.extent() == values.extent()
    &&& forall|i: int|
        0 <= i < values.elems().len() ==> #[trigger] domain_at(domains, i) == if values.elems()[i] is Some {
            Set::<u64>::empty()
        } else {
            Set::new(|id: u64| id < full.len())
        }
}

/// Whether the domains are reached from the starting ones, pass after pass.
pub open spec fn reached<T: Element>(values: Grid<Option<T>>, full: Seq<T>, domains: Grid<ValueSet>) -> bool {
    exists|trace: Seq<Grid<ValueSet>>|
        {
            &&& trace.len() > 0
            &&& starting_domains(values, full, trace[0])
            &&& trace.last() == domains
            &&& forall|j: int| 0 < j < trace.len() ==> #[trigger] pass_in(values, full, trace, j)
        }
}

/// Whether the values are those that the element type lists as all its
/// values.
pub open spec fn all_values<T: Element>(full: Seq<T>) -> bool {
    exists|v: Vec<T>| v@ == full && call_ensures(T::full_set, (), v)
}

/// Whether the domains are settled at every cell: a fixpoint of keeping, in
/// each domain, the values that meet their constraints.
pub open spec fn settled<T: Element>(values: Grid<Option<T>>, domains: Grid<ValueSet>, full: Seq<T>) -> bool {
    forall|i: int| 0 <= i < domains.elems().len() ==> #[trigger] settled_at(values, domains, full, i)
}

/// The sum of the sizes of the sets.
pub open spec fn sum_sizes(sets: Seq<Set<u64>>) -> nat
    decreases sets.len(),
{
    if sets.len() == 0 {
        0
    } else {
        sum_sizes(sets.drop_last()) + sets.last().len()
    }
}

/// The contents of the domains, cell by cell.
pub open spec fn domain_sets(domains: Grid<ValueSet>) -> Seq<Set<u64>> {
    domains.elems().map_values(|d: ValueSet| value_set_contents(d))
}

/// Finite sets, each within the matching one of `b`, sum to no more; and
/// to less when one is a proper part.
proof fn lemma_sum_sizes(a: Seq<Set<u64>>, b: Seq<Set<u64>>)
    requires
        a.len() == b.len(),
        forall|i: int| 0 <= i < a.len() ==> (#[trigger] b[i]).finite() && a[i].subset_of(b[i]),
    ensures
        sum_sizes(a) <= sum_sizes(b),
        (exists|i: int| 0 <= i < a.len() && a[i] != b[i]) ==> sum_sizes(a) < sum_sizes(b),
    decreases a.len(),
{
    if a.len() > 0 {
        let n = a.len() - 1;
        lemma_sum_sizes(a.drop_last(), b.drop_last());
        vstd::set_lib::lemma_len_subset(a[n as int], b[n as int]);
        if exists|i: int| 0 <= i < a.len() && a[i] != b[i] {
            let i = choose|i: int| 0 <= i < a.len() && a[i] != b[i];
            if i == n {
                if a[n as int].len() == b[n as int].len() {
                    vstd::set_lib::lemma_subset_equality(a[n as int], b[n as int]);
                }
            } else {
                assert(a.drop_last()[i] != b.drop_last()[i]);
            }
        }
    }
}

/// A cell count above zero makes positions decodable from indices.
proof fn lemma_decodable(extent: Position)
    requires
        extent.count_fits(),
        extent.count_spec() > 0,
    ensures
        extent.decodable(),
{
    let x = extent.sx() as int;
    let y = extent.sy() as int;
    let z = extent.sz() as int;
    assert(x > 0 && y > 0) by (nonlinear_arith)
        requires
            x * y * z > 0,
            x >= 0,
            y >= 0,
            z >= 0,
    ;
}

/// A set of the identifiers `0 .. n`.
fn all_ids(n: usize) -> (r: ValueSet)
    ensures
        value_set_contents(r) == Set::new(|id: u64| id < n),
        value_set_contents(r).finite(),
{
    let mut set = ValueSet::new();
    let mut k: usize = 0;
    while k < n
        invariant
            k <= n,
            value_set_contents(set) == Set::new(|id: u64| id < k),
            value_set_contents(set).finite(),
        decreases n - k,
    {
        set.insert(k as u64);
        k = k + 1;
        assert(value_set_contents(set) =~= Set::new(|id: u64| id < k));
    }
    set
}

/// Whether cell `i` has the first of the smallest non-empty domains.
pub open spec fn first_smallest(domains: Grid<ValueSet>, i: int) -> bool {
    let n = domains.elems().len();
    &&& 0 <= i < n
    &&& domain_at(domains, i).len() > 0
    &&& forall|j: int| 0 <= j < n && domain_at(domains, j).len() > 0 ==> domain_at(domains, i).len() <= #[trigger] domain_at(domains, j).len()
    &&& forall|j: int| 0 <= j < i && domain_at(domains, j).len() > 0 ==> domain_at(domains, i).len() < #[trigger] domain_at(domains, j).len()
}

/// How `collapse` leaves generation `prev`, giving `next` and the grid
/// `diff` of the values it set.
pub open spec fn collapsed<T: Element>(prev: Generation<T>, next: Generation<T>, diff: Grid<Option<T>>) -> bool {
    &&& next.wf()
    &&& diff.wf()
    &&& diff.extent() == prev.values_spec().extent()
    &&& next.values_spec().extent() == prev.values_spec().extent()
    &&& forall|i: int|
        0 <= i < prev.values_spec().elems().len() ==> {
            let d = domain_at(prev.domains_spec(), i);
            let before = prev.values_spec().elems()[i];
            let after = #[trigger] next.values_spec().elems()[i];
            if before is None && d.len() == 1 {
                exists|id: u64|
                    {
                        &&& d == set![id]
                        &&& diff.elems()[i] is Some
                        &&& after is Some
                        &&& cloned(prev.full_spec()[id as int], diff.elems()[i]->0)
                        &&& cloned(diff.elems()[i]->0, after->0)
                    }
            } else {
                &&& diff.elems()[i] is None
                &&& after == before
            }
        }
    &&& (exists|i: int| 0 <= i < diff.elems().len() && (#[trigger] diff.elems()[i]) is Some) ==> {
        &&& settled(next.values_spec(), next.domains_spec(), next.full_spec())
        &&& reached(next.values_spec(), next.full_spec(), next.domains_spec())
        &&& all_values(next.full_spec())
    }
    &&& (forall|i: int| 0 <= i < diff.elems().len() ==> (#[trigger] diff.elems()[i]) is None) ==> {
        &&& next.values_spec() == prev.values_spec()
        &&& next.domains_spec() == prev.domains_spec()
        &&& next.full_spec() == prev.full_spec()
    }
}

/// How `guess` leaves generation `prev`, giving `next` and the grid
/// `diff` of the value it set.
pub open spec fn guessed<T: Element>(prev: Generation<T>, next: Generation<T>, diff: Grid<Option<T>>) -> bool {
    &&& next.wf()
    &&& settled(next.values_spec(), next.domains_spec(), next.full_spec())
    &&& reached(next.values_spec(), next.full_spec(), next.domains_spec())
    &&& all_values(next.full_spec())
    &&& diff.wf()
    &&& diff.extent() == prev.values_spec().extent()
    &&& next.values_spec().extent() == prev.values_spec().extent()
    &&& exists|i: int, id: u64|
        {
            &&& first_smallest(prev.domains_spec(), i)
            &&& #[trigger] domain_at(prev.domains_spec(), i).contains(id)
            &&& diff.elems()[i] is Some
            &&& cloned(prev.full_spec()[id as int], diff.elems()[i]->0)
            &&& forall|j: int| 0 <= j < diff.elems().len() && j != i ==> (#[trigger] diff.elems()[j]) is None
            &&& next.values_spec().elems().len() == prev.values_spec().elems().len()
            &&& next.values_spec().elems()[i] is Some
            &&& cloned(diff.elems()[i]->0, next.values_spec().elems()[i]->0)
            &&& forall|j: int|
                0 <= j < prev.values_spec().elems().len() && j != i ==> #[trigger] next.values_spec().elems()[j]
                    == prev.values_spec().elems()[j]
        }
}

/// Whether generation `copy` is a copy of `orig`: clones of its values,
/// domains with the same identifiers, and clones of the values its
/// identifiers stand for, in the same order.
pub open spec fn duplicated<T: Element>(orig: Generation<T>, copy: Generation<T>) -> bool {
    &&& copy.wf()
    &&& copy.values_spec().extent() == orig.values_spec().extent()
    &&& copy.values_spec().elems().len() == orig.values_spec().elems().len()
    &&& forall|i: int|
        0 <= i < orig.values_spec().elems().len() ==> {
            let before = orig.values_spec().elems()[i];
            let after = #[trigger] copy.values_spec().elems()[i];
            &&& before is None ==> after is None
            &&& before matches Some(v) ==> after is Some && cloned(v, after->0)
        }
    &&& forall|i: int|
        0 <= i < orig.domains_spec().elems().len() ==> #[trigger] domain_at(copy.domains_spec(), i) == domain_at(
            orig.domains_spec(),
            i,
        )
    &&& copy.full_spec().len() == orig.full_spec().len()
    &&& forall|k: int| 0 <= k < orig.full_spec().len() ==> cloned(orig.full_spec()[k], #[trigger] copy.full_spec()[k])
}

impl<T: Element> Generation<T> {
    /// The values of the cells.
    pub closed spec fn values_spec(&self) -> Grid<Option<T>> {
        self.values
    }

    /// The identifiers each cell can still take.
    pub closed spec fn domains_spec(&self) -> Grid<ValueSet> {
        self.domains
    }

    /// The values that the identifiers name.
    pub closed spec fn full_spec(&self) -> Seq<T> {
        self.full@
    }

    /// The grids agree, each domain is finite, and cells with a value have
    /// empty domains.
    pub open spec fn wf(&self) -> bool {
        consistent(self.values_spec(), self.domains_spec(), self.full_spec())
    }

    /// Keeps, of the identifiers in `domain`, those whose values meet their
    /// constraints at the sampler's cell.
    fn retained(sampler: &Sampler<T>, domain: &ValueSet, full: &Vec<T>) -> (r: ValueSet)
        requires
            grids_agree(sampler.values_spec(), sampler.domains_spec(), sampler.full_spec()),
            sampler.full_spec() == full@,
            forall|id: u64| #[trigger] value_set_contents(*domain).contains(id) ==> id < full@.len(),
        ensures
            value_set_contents(r).finite(),
            value_set_contents(r).subset_of(value_set_contents(*domain)),
            forall|id: u64|
                #[trigger] value_set_contents(r).contains(id) ==> call_ensures(T::satisfies, (&full@[id as int], sampler), true),
            forall|id: u64|
                #[trigger] value_set_contents(*domain).contains(id) && !value_set_contents(r).contains(id) ==> call_ensures(
                    T::satisfies,
                    (&full@[id as int], sampler),
                    false,
                ),
    {
        let ids = domain.to_vec();
        let mut kept = ValueSet::new();
        let mut k: usize = 0;
        while k < ids.len()
            invariant
                k <= ids@.len(),
                ids@.to_set() == value_set_contents(*domain),
                grids_agree(sampler.values_spec(), sampler.domains_spec(), sampler.full_spec()),
                forall|id: u64| #[trigger] value_set_contents(*domain).contains(id) ==> id < full@.len(),
                value_set_contents(kept).finite(),
                value_set_contents(kept).subset_of(value_set_contents(*domain)),
                forall|id: u64|
                    #[trigger] value_set_contents(kept).contains(id) ==> call_ensures(T::satisfies, (&full@[id as int], sampler), true),
                ids@.no_duplicates(),
                forall|kk: int|
                    0 <= kk < k && !value_set_contents(kept).contains(#[trigger] ids@[kk]) ==> call_ensures(
                        T::satisfies,
                        (&full@[ids@[kk] as int], sampler),
                        false,
                    ),
            decreases ids@.len() - k,
        {
            let id = ids[k];
            assert(ids@.to_set().contains(id));
            let count = full.len();
            assert(id < count);
            let value = &full[id as usize];
            let ghost before = value_set_contents(kept);
            if T::satisfies(value, sampler) {
                kept.insert(id);
            }
            proof {
                assert forall|kk: int|
                    0 <= kk < k && !value_set_contents(kept).contains(#[trigger] ids@[kk]) implies call_ensures(
                    T::satisfies,
                    (&full@[ids@[kk] as int], sampler),
                    false,
                ) by {
                    assert(ids@[kk] != id);
                    assert(!before.contains(ids@[kk]));
                }
            }
            k = k + 1;
        }
        proof {
            assert forall|id: u64|
                #[trigger] value_set_contents(*domain).contains(id) && !value_set_contents(kept).contains(id) implies call_ensures(
                T::satisfies,
                (&full@[id as int], sampler),
                false,
            ) by {
                assert(ids@.to_set().contains(id));
                let kk = choose|kk: int| 0 <= kk < ids@.len() && ids@[kk] == id;
                assert(!value_set_contents(kept).contains(ids@[kk]));
            }
        }
        kept
    }

    /// Calculates the domain of each cell: every value for an unset cell
    /// (none for a set one), then, pass after pass, only the values that
    /// meet their constraints against the domains of the pass before, until
    /// a pass changes nothing.
    fn calculate_domains(values: &Grid<Option<T>>) -> (r: (Vec<T>, Grid<ValueSet>))
        requires
            values.wf(),
        ensures
            consistent(*values, r.1, r.0@),
            settled(*values, r.1, r.0@),
            reached(*values, r.0@, r.1),
            all_values(r.0@),
    {
        let full = T::full_set();
        let size = values.size();
        let n = size.grid_count();
        let mut cells: Vec<ValueSet> = Vec::new();
        let mut i: usize = 0;
        while i < n
            invariant
                i <= n,
                n == values.elems().len(),
                cells@.len() == i,
                forall|ii: int|
                    0 <= ii < i ==> (#[trigger] value_set_contents(cells@[ii])).finite() && (values.elems()[ii] is Some
                        ==> value_set_contents(cells@[ii]).is_empty()) && forall|id: u64|
                        value_set_contents(cells@[ii]).contains(id) ==> id < full@.len(),
                forall|ii: int|
                    0 <= ii < i ==> #[trigger] value_set_contents(cells@[ii]) == if values.elems()[ii] is Some {
                        Set::<u64>::empty()
                    } else {
                        Set::new(|id: u64| id < full@.len())
                    },
            decreases n - i,
        {
            let cell = if values.get_indexed(i).unwrap().is_some() {
                ValueSet::new()
            } else {
                all_ids(full.len())
            };
            cells.push(cell);
            i = i + 1;
        }
        let mut domains = Grid::new(cells, size);
        let ghost mut trace: Seq<Grid<ValueSet>> = seq![domains];
        proof {
            assert(starting_domains(*values, full@, trace[0]));
        }
        loop
            invariant
                values.wf(),
                n == values.elems().len(),
                size == values.extent(),
                consistent(*values, domains, full@),
                call_ensures(T::full_set, (), full),
                trace.len() > 0,
                starting_domains(*values, full@, trace[0]),
                trace.last() == domains,
                forall|j: int| 0 < j < trace.len() ==> #[trigger] pass_in(*values, full@, trace, j),
            decreases sum_sizes(domain_sets(domains)),
        {
            let mut next: Vec<ValueSet> = Vec::new();
            let mut changed = false;
            let mut i: usize = 0;
            while i < n
                invariant
                    i <= n,
                    values.wf(),
                    n == values.elems().len(),
                    size == values.extent(),
                    consistent(*values, domains, full@),
                    next@.len() == i,
                    forall|ii: int|
                        0 <= ii < i ==> (#[trigger] value_set_contents(next@[ii])).finite() && value_set_contents(next@[ii]).subset_of(
                            domain_at(domains, ii),
                        ),
                    forall|ii: int|
                        0 <= ii < i && value_set_contents(next@[ii]) == domain_at(domains, ii) ==> #[trigger] settled_at(
                            *values,
                            domains,
                            full@,
                            ii,
                        ),
                    !changed ==> forall|ii: int| 0 <= ii < i ==> #[trigger] value_set_contents(next@[ii]) == domain_at(domains, ii),
                    forall|ii: int, id: u64|
                        0 <= ii < i && #[trigger] domain_at(domains, ii).contains(id) ==> if value_set_contents(next@[ii]).contains(id) {
                            tested(*values, domains, full@, ii, id, true)
                        } else {
                            tested(*values, domains, full@, ii, id, false)
                        },
                    changed ==> exists|ii: int| 0 <= ii < i && #[trigger] value_set_contents(next@[ii]) != domain_at(domains, ii),
                decreases n - i,
            {
                let domain = domains.get_indexed(i).unwrap();
                assert(value_set_contents(*domain) == domain_at(domains, i as int));
                let kept = if domain.len() == 0 {
                    proof {
                        vstd::set_lib::lemma_set_empty_equivalency_len(domain_at(domains, i as int));
                        assert(domain_at(domains, i as int) == Set::<u64>::empty());
                    }
                    ValueSet::new()
                } else {
                    proof {
                        lemma_decodable(size);
                    }
                    let here = Position::from_index(i, &size);
                    let sampler = Sampler::new(here, values, &domains, &full);
                    let kept = Self::retained(&sampler, domain, &full);
                    proof {
                        assert forall|id: u64| #[trigger] domain_at(domains, i as int).contains(id) implies if value_set_contents(
                            kept,
                        ).contains(id) {
                            tested(*values, domains, full@, i as int, id, true)
                        } else {
                            tested(*values, domains, full@, i as int, id, false)
                        } by {
                            if value_set_contents(kept).contains(id) {
                                assert(call_ensures(T::satisfies, (&full@[id as int], &sampler), true));
                            } else {
                                assert(call_ensures(T::satisfies, (&full@[id as int], &sampler), false));
                            }
                        }
                    }
                    kept
                };
                proof {
                    if value_set_contents(kept) == domain_at(domains, i as int) {
                        assert forall|id: u64| #[trigger] domain_at(domains, i as int).contains(id) implies tested(
                            *values,
                            domains,
                            full@,
                            i as int,
                            id,
                            true,
                        ) by {
                            assert(value_set_contents(kept).contains(id));
                        }
                        assert(settled_at(*values, domains, full@, i as int));
                    }
                }
                let same = kept.same_as(domain);
                if !same {
                    changed = true;
                }
                let ghost prev_next = next@;
                next.push(kept);
                proof {
                    assert(next@[i as int] == kept);
                    assert forall|ii: int| 0 <= ii < i implies next@[ii] == prev_next[ii] by {}
                    if !same {
                        assert(value_set_contents(next@[i as int]) != domain_at(domains, i as int));
                    }
                }
                i = i + 1;
            }
            if !changed {
                proof {
                    assert forall|ii: int| 0 <= ii < domains.elems().len() implies #[trigger] settled_at(
                        *values,
                        domains,
                        full@,
                        ii,
                    ) by {
                        assert(value_set_contents(next@[ii]) == domain_at(domains, ii));
                    }
                }
                proof {
                    assert(reached(*values, full@, domains));
                    assert(all_values(full@));
                }
                return (full, domains);
            }
            let ghost before = domain_sets(domains);
            let next_domains = Grid::new(next, size);
            proof {
                let after = domain_sets(next_domains);
                assert forall|ii: int| 0 <= ii < after.len() implies (#[trigger] before[ii]).finite() && after[ii].subset_of(before[ii]) by {
                    assert(value_set_contents(next@[ii]).finite());
                }
                let ii = choose|ii: int| 0 <= ii < n && value_set_contents(next@[ii]) != domain_at(domains, ii);
                assert(after[ii] != before[ii]);
                lemma_sum_sizes(after, before);
                assert forall|ii: int, id: u64|
                    0 <= ii < next_domains.elems().len() && #[trigger] domain_at(next_domains, ii).contains(id) implies id < full@.len() by {
                    assert(domain_at(domains, ii).contains(id));
                }
                assert forall|ii: int|
                    0 <= ii < values.elems().len() && (#[trigger] values.elems()[ii]) is Some implies domain_at(next_domains, ii).is_empty() by {
                    assert(domain_at(domains, ii).is_empty());
                    assert(value_set_contents(next@[ii]).subset_of(domain_at(domains, ii)));
                    assert(value_set_contents(next@[ii]) =~= Set::empty());
                }
            }
            proof {
                let tr = trace.push(next_domains);
                assert(one_pass(*values, full@, domains, next_domains)) by {
                    assert forall|ii: int| 0 <= ii < domains.elems().len() implies #[trigger] domain_at(next_domains, ii).subset_of(
                        domain_at(domains, ii),
                    ) by {
                        assert(domain_at(next_domains, ii) == value_set_contents(next@[ii]));
                    }
                    assert forall|ii: int, id: u64|
                        0 <= ii < domains.elems().len() && #[trigger] domain_at(domains, ii).contains(id) implies if domain_at(
                            next_domains,
                            ii,
                        ).contains(id) {
                            tested(*values, domains, full@, ii, id, true)
                        } else {
                            tested(*values, domains, full@, ii, id, false)
                        } by {
                        assert(domain_at(next_domains, ii) == value_set_contents(next@[ii]));
                    }
                }
                assert forall|j: int| 0 < j < tr.len() implies #[trigger] pass_in(*values, full@, tr, j) by {
                    if j < trace.len() {
                        assert(tr[j] == trace[j]);
                        assert(tr[j - 1] == trace[j - 1]);
                        assert(pass_in(*values, full@, trace, j));
                    } else {
                        assert(tr[j - 1] == domains);
                        assert(tr[j] == next_domains);
                    }
                }
                trace = tr;
            }
            domains = next_domains;
        }
    }

    /// Creates a generation from the values of the cells, calculating the
    /// domains.
    pub fn new(values: Grid<Option<T>>) -> (g: Self)
        requires
            values.wf(),
        ensures
            g.wf(),
            g.values_spec() == values,
            settled(g.values_spec(), g.domains_spec(), g.full_spec()),
            reached(g.values_spec(), g.full_spec(), g.domains_spec()),
            all_values(g.full_spec()),
    {
        let (full, domains) = Self::calculate_domains(&values);
        Generation { values, domains, full }
    }

    /// Returns the domains: for each cell, the identifiers (positions in the
    /// list of all values) of the values it can still take.
    pub fn domains(&self) -> (r: &Grid<ValueSet>)
        ensures
            *r == self.domains_spec(),
    {
        &self.domains
    }

    /// Returns the values of the cells.
    pub fn values(&self) -> (r: &Grid<Option<T>>)
        ensures
            *r == self.values_spec(),
    {
        &self.values
    }

    /// Takes the values of the cells.
    pub fn into_values(self) -> (r: Grid<Option<T>>)
        ensures
            r == self.values_spec(),
    {
        self.values
    }

    /// Returns clones of the values that the cell at `position` can still
    /// take, in no particular order; `None` outside the grid.
    pub fn domain(&self, position: Position) -> (r: Option<Vec<T>>)
        requires
            self.wf(),
        ensures
            r is Some <==> position.valid_spec(self.values_spec().extent()),
            r matches Some(vs) ==> exists|ids: Seq<u64>|
                {
                    &&& ids.no_duplicates()
                    &&& ids.to_set() == domain_at(self.domains_spec(), position.index_spec(self.values_spec().extent()))
                    &&& vs@.len() == ids.len()
                    &&& forall|k: int| 0 <= k < ids.len() ==> cloned(self.full_spec()[#[trigger] ids[k] as int], vs@[k])
                },
    {
        let domain = match self.domains.get(position) {
            Some(d) => d,
            None => {
                return None;
            },
        };
        proof {
            super::grid::lemma_valid_index_in_range(position, self.values.extent());
        }
        let ids = domain.to_vec();
        let mut vs: Vec<T> = Vec::new();
        let mut k: usize = 0;
        while k < ids.len()
            invariant
                k <= ids@.len(),
                self.wf(),
                ids@.to_set() == value_set_contents(*domain),
                *domain == self.domains_spec().elems()[position.index_spec(self.values_spec().extent())],
                0 <= position.index_spec(self.values_spec().extent()) < self.domains_spec().elems().len(),
                vs@.len() == k,
                forall|kk: int| 0 <= kk < k ==> cloned(self.full_spec()[#[trigger] ids@[kk] as int], vs@[kk]),
            decreases ids@.len() - k,
        {
            let id = ids[k];
            assert(ids@.to_set().contains(id));
            assert(domain_at(self.domains_spec(), position.index_spec(self.values_spec().extent())).contains(id));
            let count = self.full.len();
            assert(id < count);
            vs.push(self.full[id as usize].clone());
            k = k + 1;
        }
        Some(vs)
    }

    /// A grid of the given extent with no values.
    fn empty_grid(size: Position) -> (g: Grid<Option<T>>)
        requires
            size.count_fits(),
        ensures
            g.wf(),
            g.extent() == size,
            forall|i: int| 0 <= i < g.elems().len() ==> (#[trigger] g.elems()[i]) is None,
    {
        let n = size.grid_count();
        let mut cells: Vec<Option<T>> = Vec::new();
        let mut i: usize = 0;
        while i < n
            invariant
                i <= n,
                cells@.len() == i,
                forall|ii: int| 0 <= ii < i ==> (#[trigger] cells@[ii]) is None,
            decreases n - i,
        {
            cells.push(None);
            i = i + 1;
        }
        Grid::new(cells, size)
    }

    /// Collapses every unset cell with only one possible value to that value;
    /// returns the grid of the values set, `None` elsewhere. When a value was
    /// set, the domains are calculated anew.
    pub fn collapse(&mut self) -> (diff: Grid<Option<T>>)
        requires
            old(self).wf(),
        ensures
            collapsed(*old(self), *final(self), diff),
    {
        let size = self.values.size();
        let n = size.grid_count();
        let mut diff = Self::empty_grid(size);
        let mut changed = false;
        let mut i: usize = 0;
        while i < n
            invariant
                i <= n,
                n == size.count_spec(),
                size == old(self).values_spec().extent(),
                self.values_spec().wf(),
                self.values_spec().extent() == size,
                self.domains_spec() == old(self).domains_spec(),
                self.full_spec() == old(self).full_spec(),
                consistent(old(self).values_spec(), old(self).domains_spec(), old(self).full_spec()),
                diff.wf(),
                diff.extent() == size,
                forall|ii: int| i <= ii < n ==> #[trigger] self.values_spec().elems()[ii] == old(self).values_spec().elems()[ii],
                forall|ii: int| i <= ii < n ==> (#[trigger] diff.elems()[ii]) is None,
                forall|ii: int|
                    0 <= ii < i ==> {
                        let d = domain_at(old(self).domains_spec(), ii);
                        let before = old(self).values_spec().elems()[ii];
                        let after = #[trigger] self.values_spec().elems()[ii];
                        if before is None && d.len() == 1 {
                            exists|id: u64|
                                {
                                    &&& d == set![id]
                                    &&& diff.elems()[ii] is Some
                                    &&& after is Some
                                    &&& cloned(old(self).full_spec()[id as int], diff.elems()[ii]->0)
                                    &&& cloned(diff.elems()[ii]->0, after->0)
                                }
                        } else {
                            &&& diff.elems()[ii] is None
                            &&& after == before
                        }
                    },
                changed <==> exists|ii: int| 0 <= ii < i && (#[trigger] diff.elems()[ii]) is Some,
                !changed ==> self.values_spec() == old(self).values_spec(),
            decreases n - i,
        {
            let unset = self.values.get_indexed(i).unwrap().is_none();
            if unset {
                let domain = self.domains.get_indexed(i).unwrap();
                if domain.len() == 1 {
                    let ids = domain.to_vec();
                    proof {
                        ids@.unique_seq_to_set();
                    }
                    let id = ids[0];
                    let ghost d = domain_at(old(self).domains_spec(), i as int);
                    proof {
                        assert(d.contains(id));
                        assert(d =~= set![id]) by {
                            assert forall|x: u64| d.contains(x) implies x == id by {
                                let k = choose|k: int| 0 <= k < ids@.len() && ids@[k] == x;
                            }
                        }
                    }
                    let count = self.full.len();
                    assert(id < count);
                    let value = self.full[id as usize].clone();
                    proof {
                        super::generation::lemma_decodable(size);
                        lemma_from_index_roundtrip(i, size);
                    }
                    let position = Position::from_index(i, &size);
                    let ghost before_values = self.values_spec().elems();
                    let ghost before_diff = diff.elems();
                    self.values.set(position, Some(value.clone()));
                    diff.set(position, Some(value));
                    changed = true;
                    proof {
                        assert(self.values_spec().elems() == before_values.update(i as int, self.values_spec().elems()[i as int]));
                        assert(diff.elems() == before_diff.update(i as int, diff.elems()[i as int]));
                        assert(diff.elems()[i as int] is Some);
                    }
                }
            }
            i = i + 1;
        }
        if changed {
            let (full, domains) = Self::calculate_domains(&self.values);
            self.full = full;
            self.domains = domains;
        }
        diff
    }

    /// Whether some unset cell has no value left to take.
    pub open spec fn stuck(&self) -> bool {
        exists|i: int|
            0 <= i < self.values_spec().elems().len() && (#[trigger] self.values_spec().elems()[i]) is None
                && domain_at(self.domains_spec(), i).is_empty()
    }

    /// Whether some cell's domain holds between one and `usize::MAX - 1`
    /// values, so that there is a cell to guess.
    pub open spec fn guessable(&self) -> bool {
        exists|i: int|
            0 <= i < self.domains_spec().elems().len() && 0 < (#[trigger] domain_at(self.domains_spec(), i)).len() < usize::MAX
    }

    /// Whether some unset cell has no value left to take.
    pub fn is_unsolvable(&self) -> (r: bool)
        requires
            self.wf(),
        ensures
            r == self.stuck(),
    {
        let n = self.values.size().grid_count();
        let mut i: usize = 0;
        while i < n
            invariant
                i <= n,
                n == self.values_spec().elems().len(),
                self.wf(),
                forall|ii: int|
                    0 <= ii < i ==> !((#[trigger] self.values_spec().elems()[ii]) is None && domain_at(self.domains_spec(), ii).is_empty()),
            decreases n - i,
        {
            if self.values.get_indexed(i).unwrap().is_none() {
                let domain = self.domains.get_indexed(i).unwrap();
                let empty = domain.len() == 0;
                proof {
                    assert(domain_at(self.domains_spec(), i as int).finite());
                    if !empty {
                        assert(domain_at(self.domains_spec(), i as int).len() > 0);
                    } else {
                        assert(domain_at(self.domains_spec(), i as int) =~= Set::empty());
                    }
                }
                if empty {
                    return true;
                }
            }
            i = i + 1;
        }
        false
    }

    /// Whether every cell has a value.
    pub fn is_solved(&self) -> (r: bool)
        requires
            self.wf(),
        ensures
            r == forall|i: int| 0 <= i < self.values_spec().elems().len() ==> (#[trigger] self.values_spec().elems()[i]) is Some,
    {
        let values = self.values.iter_values();
        let mut i: usize = 0;
        while i < values.len()
            invariant
                i <= values@.len(),
                values@ == self.values_spec().elems(),
                forall|ii: int| 0 <= ii < i ==> (#[trigger] values@[ii]) is Some,
            decreases values@.len() - i,
        {
            if values[i].is_none() {
                return false;
            }
            i = i + 1;
        }
        true
    }

    /// Sets the first of the cells with the smallest non-empty domain to a
    /// value picked at random from its domain, calculates the domains anew,
    /// and returns the grid of the value set, `None` elsewhere.
    pub fn guess(&mut self) -> (diff: Grid<Option<T>>)
        requires
            old(self).wf(),
            old(self).guessable(),
        ensures
            guessed(*old(self), *final(self), diff),
    {
        let size = self.values.size();
        let n = size.grid_count();
        // find the position with the smallest domain
        let mut smallest_domain: usize = usize::MAX;
        let mut smallest: Option<usize> = None;
        let mut i: usize = 0;
        while i < n
            invariant
                i <= n,
                n == self.domains_spec().elems().len(),
                self.wf(),
                smallest is None ==> smallest_domain == usize::MAX,
                smallest is None ==> forall|j: int| 0 <= j < i ==> !(0 < #[trigger] domain_at(self.domains_spec(), j).len() < usize::MAX),
                smallest matches Some(k) ==> {
                    &&& k < i
                    &&& domain_at(self.domains_spec(), k as int).len() == smallest_domain
                    &&& smallest_domain > 0
                    &&& forall|j: int| 0 <= j < i && domain_at(self.domains_spec(), j).len() > 0 ==> smallest_domain <= #[trigger] domain_at(self.domains_spec(), j).len()
                    &&& forall|j: int| 0 <= j < k && domain_at(self.domains_spec(), j).len() > 0 ==> smallest_domain < #[trigger] domain_at(self.domains_spec(), j).len()
                },
            decreases n - i,
        {
            let len = self.domains.get_indexed(i).unwrap().len();
            if len > 0 && len < smallest_domain {
                smallest_domain = len;
                smallest = Some(i);
            }
            i = i + 1;
        }
        let index = match smallest {
            Some(k) => k,
            None => {
                proof {
                    let j = choose|j: int|
                        0 <= j < self.domains_spec().elems().len() && 0 < (#[trigger] domain_at(self.domains_spec(), j)).len() < usize::MAX;
                }
                return Self::empty_grid(size);
            },
        };
        proof {
            assert forall|j: int| 0 <= j < n && domain_at(self.domains_spec(), j).len() > 0 implies domain_at(self.domains_spec(), index as int).len() <= #[trigger] domain_at(self.domains_spec(), j).len() by {
            }
            assert(first_smallest(self.domains_spec(), index as int));
        }

        // make a guess
        let domain = self.domains.get_indexed(index).unwrap();
        let mut choices = domain.to_vec();
        let mut rng = new_rng();
        let ghost before_shuffle = choices@;
        shuffle(&mut rng, &mut choices);
        let ghost shuffled = choices@;
        proof {
            before_shuffle.unique_seq_to_set();
            vstd::seq_lib::to_multiset_len(before_shuffle);
            vstd::seq_lib::to_multiset_len(shuffled);
        }
        let id = choices.pop().unwrap();
        proof {
            assert(shuffled[shuffled.len() - 1] == id);
            assert(shuffled.contains(id));
            vstd::seq_lib::to_multiset_contains(shuffled, id);
            vstd::seq_lib::to_multiset_contains(before_shuffle, id);
            assert(before_shuffle.to_set().contains(id));
            assert(domain_at(self.domains_spec(), index as int).contains(id));
        }
        let count = self.full.len();
        assert(id < count);
        let guess_value = self.full[id as usize].clone();
        proof {
            lemma_decodable(size);
            lemma_from_index_roundtrip(index, size);
        }
        let position = Position::from_index(index, &size);
        self.values.set(position, Some(guess_value.clone()));
        let (full, domains) = Self::calculate_domains(&self.values);
        self.full = full;
        self.domains = domains;
        let mut diff = Self::empty_grid(size);
        diff.set(position, Some(guess_value));
        diff
    }

    /// Whether some cell's domain holds between one and `usize::MAX - 1`
    /// values, so that `guess` has a cell to pick.
    pub(crate) fn can_guess(&self) -> (r: bool)
        requires
            self.wf(),
        ensures
            r == self.guessable(),
    {
        let n = self.values.size().grid_count();
        let mut i: usize = 0;
        while i < n
            invariant
                i <= n,
                n == self.domains_spec().elems().len(),
                self.wf(),
                forall|j: int| 0 <= j < i ==> !(0 < #[trigger] domain_at(self.domains_spec(), j).len() < usize::MAX),
            decreases n - i,
        {
            let len = self.domains.get_indexed(i).unwrap().len();
            if len > 0 && len < usize::MAX {
                assert(0 < domain_at(self.domains_spec(), i as int).len() < usize::MAX);
                return true;
            }
            i = i + 1;
        }
        false
    }

    /// A copy of the generation: clones of its values, and domains with the
    /// same identifiers.
    pub fn duplicate(&self) -> (c: Self)
        requires
            self.wf(),
        ensures
            duplicated(*self, c),
    {
        let size = self.values.size();
        let n = size.grid_count();
        let mut values: Vec<Option<T>> = Vec::new();
        let mut domains: Vec<ValueSet> = Vec::new();
        let mut i: usize = 0;
        while i < n
            invariant
                i <= n,
                n == self.values_spec().elems().len(),
                self.wf(),
                values@.len() == i,
                domains@.len() == i,
                forall|ii: int|
                    0 <= ii < i ==> {
                        let before = self.values_spec().elems()[ii];
                        let after = #[trigger] values@[ii];
                        &&& before is None ==> after is None
                        &&& before matches Some(v) ==> after is Some && cloned(v, after->0)
                    },
                forall|ii: int| 0 <= ii < i ==> value_set_contents(#[trigger] domains@[ii]) == domain_at(self.domains_spec(), ii),
            decreases n - i,
        {
            let value = match self.values.get_indexed(i).unwrap() {
                Some(v) => Some(v.clone()),
                None => None,
            };
            values.push(value);
            domains.push(self.domains.get_indexed(i).unwrap().duplicate());
            i = i + 1;
        }
        let mut full: Vec<T> = Vec::new();
        let mut k: usize = 0;
        while k < self.full.len()
            invariant
                k <= self.full@.len(),
                full@.len() == k,
                forall|kk: int| 0 <= kk < k ==> cloned(self.full@[kk], #[trigger] full@[kk]),
            decreases self.full@.len() - k,
        {
            full.push(self.full[k].clone());
            k = k + 1;
        }
        let c = Generation { values: Grid::new(values, size), domains: Grid::new(domains, size), full };
        proof {
            assert forall|i: int| 0 <= i < c.domains_spec().elems().len() implies #[trigger] domain_at(c.domains_spec(), i) == domain_at(
                self.domains_spec(),
                i,
            ) by {
                assert(value_set_contents(domains@[i]) == domain_at(self.domains_spec(), i));
            }
        }
        c
    }
}

/// Collapsing a copy of a generation sets each unset cell left with one
/// possible value to a clone of a clone of the value that the generation
/// lists under that value's identifier.
pub proof fn lemma_copy_collapse_sets_listed<T: Element>(
    g: Generation<T>,
    copy: Generation<T>,
    next: Generation<T>,
    diff: Grid<Option<T>>,
    i: int,
)
    requires
        g.wf(),
        duplicated(g, copy),
        collapsed(copy, next, diff),
        0 <= i < g.values_spec().elems().len(),
        g.values_spec().elems()[i] is None,
        domain_at(g.domains_spec(), i).len() == 1,
    ensures
        exists|id: u64|
            {
                &&& domain_at(g.domains_spec(), i) == set![id]
                &&& id < g.full_spec().len()
                &&& diff.elems()[i] is Some
                &&& next.values_spec().elems()[i] is Some
                &&& cloned(diff.elems()[i]->0, next.values_spec().elems()[i]->0)
                &&& #[trigger] cloned_twice(g.full_spec()[id as int], diff.elems()[i]->0)
            },
{
    assert(copy.values_spec().elems()[i] is None);
    assert(domain_at(copy.domains_spec(), i) == domain_at(g.domains_spec(), i));
    let id = choose|id: u64|
        {
            &&& domain_at(copy.domains_spec(), i) == set![id]
            &&& diff.elems()[i] is Some
            &&& next.values_spec().elems()[i] is Some
            &&& cloned(copy.full_spec()[id as int], diff.elems()[i]->0)
            &&& cloned(diff.elems()[i]->0, next.values_spec().elems()[i]->0)
        };
    assert(domain_at(g.domains_spec(), i).contains(id));
    assert(id < g.full_spec().len());
    assert(cloned(g.full_spec()[id as int], copy.full_spec()[id as int]));
    assert(cloned_twice(g.full_spec()[id as int], diff.elems()[i]->0));
}

} // verus!
