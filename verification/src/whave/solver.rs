//! The solver: collapsing and guessing, generation after generation.
use vstd::prelude::*;

use super::generation::{collapsed, duplicated, first_smallest, guessed, Generation};
use super::grid::Grid;
use super::sampler::domain_at;
use super::Element;

verus! {

/// The number of cells without a value.
pub open spec fn unset_count<T>(cells: Seq<Option<T>>) -> nat
    decreases cells.len(),
{
    if cells.len() == 0 {
        0
    } else {
        unset_count(cells.drop_last()) + if cells.last() is None {
            1nat
        } else {
            0nat
        }
    }
}

/// Giving values to unset cells, and changing no set cell to unset, leaves
/// no more unset cells; fewer when some unset cell gets a value.
proof fn lemma_unset_count<T>(before: Seq<Option<T>>, after: Seq<Option<T>>)
    requires
        before.len() == after.len(),
        forall|i: int| 0 <= i < before.len() && (#[trigger] before[i]) is Some ==> after[i] is Some,
    ensures
        unset_count(after) <= unset_count(before),
        (exists|i: int| 0 <= i < before.len() && (#[trigger] before[i]) is None && after[i] is Some) ==> unset_count(
            after,
        ) < unset_count(before),
    decreases before.len(),
{
    if before.len() > 0 {
        let n = before.len() - 1;
        lemma_unset_count(before.drop_last(), after.drop_last());
        if exists|i: int| 0 <= i < before.len() && (#[trigger] before[i]) is None && after[i] is Some {
            let i = choose|i: int| 0 <= i < before.len() && (#[trigger] before[i]) is None && after[i] is Some;
            if i < n {
                assert(before.drop_last()[i] is None && after.drop_last()[i] is Some);
            }
        }
    }
}

/// Whether two generations have the same cells unset, and the same domains.
pub open spec fn mirrors<T: Element>(a: Generation<T>, b: Generation<T>) -> bool {
    &&& a.values_spec().elems().len() == b.values_spec().elems().len()
    &&& a.domains_spec().elems().len() == b.domains_spec().elems().len()
    &&& forall|i: int|
        0 <= i < a.values_spec().elems().len() ==> ((#[trigger] a.values_spec().elems()[i]) is None
            <==> b.values_spec().elems()[i] is None)
    &&& forall|i: int| 0 <= i < a.domains_spec().elems().len() ==> #[trigger] domain_at(a.domains_spec(), i) == domain_at(b.domains_spec(), i)
}

/// Whether some cell of `diff` holds a value.
pub open spec fn some_set<T>(diff: Grid<Option<T>>) -> bool {
    exists|i: int| 0 <= i < diff.elems().len() && (#[trigger] diff.elems()[i]) is Some
}

/// Whether `next` comes from `prev` by one step of solving, `diff` holding
/// the values set: a collapse that sets some value; or, when a collapse
/// sets none, a guess.
pub open spec fn solve_step<T: Element>(prev: Generation<T>, next: Generation<T>, diff: Grid<Option<T>>) -> bool {
    ||| collapsed(prev, next, diff) && some_set(diff)
    ||| exists|mid: Generation<T>, quiet: Grid<Option<T>>|
        #[trigger] collapsed(prev, mid, quiet) && !some_set(quiet) && guessed(mid, next, diff)
}

/// Whether solving took the stack from `before` to `after` through the
/// generations `work`: the first a copy of the last generation of `before`,
/// each next one a step of solving from the one before it, and a copy of
/// each next one pushed, with the values its step set.
pub open spec fn solve_trace<T: Element>(
    before: Seq<(Generation<T>, Grid<Option<T>>)>,
    after: Seq<(Generation<T>, Grid<Option<T>>)>,
    work: Seq<Generation<T>>,
) -> bool {
    let n = before.len() as int;
    &&& n > 0
    &&& work.len() == after.len() - n + 1
    &&& duplicated(before.last().0, work[0])
    &&& forall|j: int|
        0 <= j < work.len() - 1 ==> #[trigger] solve_step(work[j], work[j + 1], after[n + j].1) && duplicated(
            work[j + 1],
            after[n + j].0,
        )
}

/// Solves grids cell by cell: the stack holds each generation reached,
/// with the values it set.
pub struct Solver<T> {
    stack: Vec<(Generation<T>, Grid<Option<T>>)>,
}

/// Pushing a copy of the next generation of a step extends a trace.
proof fn lemma_trace_push<T: Element>(
    before: Seq<(Generation<T>, Grid<Option<T>>)>,
    after: Seq<(Generation<T>, Grid<Option<T>>)>,
    work: Seq<Generation<T>>,
    next: Generation<T>,
    copy: Generation<T>,
    diff: Grid<Option<T>>,
)
    requires
        solve_trace(before, after, work),
        after.len() >= before.len(),
        solve_step(work.last(), next, diff),
        duplicated(next, copy),
    ensures
        solve_trace(before, after.push((copy, diff)), work.push(next)),
{
    let n = before.len() as int;
    let w2 = work.push(next);
    let a2 = after.push((copy, diff));
    assert(w2[0] == work[0]);
    assert forall|j: int| 0 <= j < w2.len() - 1 implies #[trigger] solve_step(w2[j], w2[j + 1], a2[n + j].1) && duplicated(
        w2[j + 1],
        a2[n + j].0,
    ) by {
        if j < work.len() - 1 {
            assert(w2[j] == work[j] && w2[j + 1] == work[j + 1] && a2[n + j] == after[n + j]);
        } else {
            assert(w2[j] == work.last() && w2[j + 1] == next && a2[n + j] == (copy, diff));
        }
    }
}

impl<T: Element> Solver<T> {
    /// The generations reached, first to last, each with the values it set.
    pub closed spec fn stack_spec(&self) -> Seq<(Generation<T>, Grid<Option<T>>)> {
        self.stack@
    }

    /// Every generation on the stack is well formed.
    pub open spec fn wf(&self) -> bool {
        forall|k: int| 0 <= k < self.stack_spec().len() ==> (#[trigger] self.stack_spec()[k]).0.wf()
    }

    /// Creates a solver starting from the given values.
    pub fn new(initial: Grid<Option<T>>) -> (s: Self)
        requires
            initial.wf(),
        ensures
            s.wf(),
            s.stack_spec().len() == 1,
            s.stack_spec()[0].0.values_spec() == initial,
    {
        let size = initial.size();
        let generation = Generation::new(initial);
        let mut none_cells: Vec<Option<T>> = Vec::new();
        let n = size.grid_count();
        let mut i: usize = 0;
        while i < n
            invariant
                i <= n,
                none_cells@.len() == i,
            decreases n - i,
        {
            none_cells.push(None);
            i = i + 1;
        }
        let mut stack: Vec<(Generation<T>, Grid<Option<T>>)> = Vec::new();
        stack.push((generation, Grid::new(none_cells, size)));
        Solver { stack }
    }

    /// Pushes a generation, with the values it set, onto the stack.
    fn push_generation(&mut self, generation: Generation<T>, diff: Grid<Option<T>>)
        requires
            old(self).wf(),
            generation.wf(),
        ensures
            final(self).wf(),
            final(self).stack_spec() == old(self).stack_spec().push((generation, diff)),
    {
        self.stack.push((generation, diff));
        assert forall|k: int| 0 <= k < self.stack_spec().len() implies (#[trigger] self.stack_spec()[k]).0.wf() by {
            if k < old(self).stack_spec().len() {
                assert(self.stack_spec()[k] == old(self).stack_spec()[k]);
            }
        }
    }

    /// Whether the grid holds some value.
    fn any_set(diff: &Grid<Option<T>>) -> (r: bool)
        ensures
            r == exists|i: int| 0 <= i < diff.elems().len() && (#[trigger] diff.elems()[i]) is Some,
    {
        let cells = diff.iter_values();
        let mut i: usize = 0;
        while i < cells.len()
            invariant
                i <= cells@.len(),
                cells@ == diff.elems(),
                forall|ii: int| 0 <= ii < i ==> (#[trigger] cells@[ii]) is None,
            decreases cells@.len() - i,
        {
            if cells[i].is_some() {
                return true;
            }
            i = i + 1;
        }
        false
    }

    /// Solves from the last generation: collapses while that sets values;
    /// when nothing more collapses, returns the values if every cell has one,
    /// gives up if some unset cell has nothing left to take, and otherwise
    /// guesses a value and goes on. The work goes on in a copy of the last
    /// generation; a copy of each generation reached is pushed on the stack
    /// with the values its step set, and the values returned are those of
    /// the last generation reached.
    pub fn naive_solve(&mut self) -> (r: Option<Grid<T>>)
        requires
            old(self).wf(),
        ensures
            final(self).wf(),
            final(self).stack_spec().len() >= old(self).stack_spec().len(),
            final(self).stack_spec().subrange(0, old(self).stack_spec().len() as int) == old(self).stack_spec(),
            r is None ==> old(self).stack_spec().len() == 0 || {
                let last = final(self).stack_spec().last().0;
                &&& final(self).stack_spec().len() > 0
                &&& last.stuck() || !last.guessable()
                &&& exists|i: int| 0 <= i < last.values_spec().elems().len() && (#[trigger] last.values_spec().elems()[i]) is None
            },
            r is Some ==> {
                let last = final(self).stack_spec().last().0;
                &&& final(self).stack_spec().len() > 0
                &&& forall|i: int| 0 <= i < last.values_spec().elems().len() ==> (#[trigger] last.values_spec().elems()[i]) is Some
            },
            old(self).stack_spec().len() > 0 ==> exists|work: Seq<Generation<T>>|
                {
                    &&& #[trigger] solve_trace(old(self).stack_spec(), final(self).stack_spec(), work)
                    &&& r matches Some(g) ==> g.elems().len() == work.last().values_spec().elems().len() && forall|i: int|
                        0 <= i < g.elems().len() ==> #[trigger] g.elems()[i] == work.last().values_spec().elems()[i]->0
                },
            r matches Some(g) ==> {
                let start = old(self).stack_spec().last().0.values_spec();
                &&& old(self).stack_spec().len() > 0
                &&& g.wf()
                &&& g.extent() == start.extent()
                &&& g.elems().len() == start.elems().len()
                &&& forall|i: int|
                    0 <= i < start.elems().len() && (#[trigger] start.elems()[i]) is Some ==> cloned(
                        start.elems()[i]->0,
                        g.elems()[i],
                    )
            },
    {
        let count = self.stack.len();
        if count == 0 {
            return None;
        }
        let ghost start = self.stack@[count - 1].0.values_spec();
        assert(self.stack@[count - 1].0.wf());
        let mut generation = self.stack[count - 1].0.duplicate();
        let ghost mut work: Seq<Generation<T>> = seq![generation];
        loop
            invariant
                solve_trace(old(self).stack_spec(), self.stack_spec(), work),
                work.last() == generation,
                self.wf(),
                self.stack_spec().len() >= old(self).stack_spec().len(),
                self.stack_spec().subrange(0, old(self).stack_spec().len() as int) == old(self).stack_spec(),
                generation.wf(),
                start == old(self).stack_spec().last().0.values_spec(),
                old(self).stack_spec().len() > 0,
                generation.values_spec().extent() == start.extent(),
                self.stack_spec().len() > 0,
                mirrors(generation, self.stack_spec().last().0),
                generation.values_spec().elems().len() == start.elems().len(),
                forall|i: int|
                    0 <= i < start.elems().len() && (#[trigger] start.elems()[i]) is Some ==> generation.values_spec().elems()[i] is Some
                        && cloned(start.elems()[i]->0, generation.values_spec().elems()[i]->0),
            decreases unset_count(generation.values_spec().elems()),
        {
            let ghost before = generation.values_spec().elems();
            let ghost g0 = generation;
            let diff = generation.collapse();

            // when values were set, push the new generation onto the stack
            if Self::any_set(&diff) {
                proof {
                    let after = generation.values_spec().elems();
                    let i = choose|i: int| 0 <= i < diff.elems().len() && (#[trigger] diff.elems()[i]) is Some;
                    assert(after[i] == generation.values_spec().elems()[i]);
                    assert(before[i] is None);
                    assert forall|j: int| 0 <= j < before.len() && (#[trigger] before[j]) is Some implies after[j] is Some by {
                        assert(after[j] == generation.values_spec().elems()[j]);
                    }
                    lemma_unset_count(before, after);
                }
                let copy = generation.duplicate();
                let ghost pre_stack = self.stack_spec();
                self.push_generation(copy, diff);
                proof {
                    assert(some_set(diff));
                    assert(solve_step(g0, generation, diff));
                    lemma_trace_push(old(self).stack_spec(), pre_stack, work, generation, copy, diff);
                    work = work.push(generation);
                }
                continue;
            }

            // when nothing was set, check if we're done
            if generation.is_solved() {
                proof {
                    let last = self.stack_spec().last().0;
                    assert forall|i: int| 0 <= i < last.values_spec().elems().len() implies (#[trigger] last.values_spec().elems()[i]) is Some by {
                        assert(generation.values_spec().elems()[i] is Some);
                    }
                }
                let values = generation.into_values();
                return Some(values.unwrap_all());
            }
            if generation.is_unsolvable() {
                proof {
                    let last = self.stack_spec().last().0;
                    let i = choose|i: int|
                        0 <= i < generation.values_spec().elems().len() && (#[trigger] generation.values_spec().elems()[i]) is None
                            && domain_at(generation.domains_spec(), i).is_empty();
                    assert(last.values_spec().elems()[i] is None);
                }
                return None;
            }

            // otherwise guess a value
            if !generation.can_guess() {
                proof {
                    let last = self.stack_spec().last().0;
                    if last.guessable() {
                        let i = choose|i: int|
                            0 <= i < last.domains_spec().elems().len() && 0 < (#[trigger] domain_at(last.domains_spec(), i)).len()
                                < usize::MAX;
                        assert(domain_at(generation.domains_spec(), i) == domain_at(last.domains_spec(), i));
                        assert(generation.guessable());
                    }
                    let i = choose|i: int|
                        0 <= i < generation.values_spec().elems().len() && (#[trigger] generation.values_spec().elems()[i]) is None;
                    assert(last.values_spec().elems()[i] is None);
                }
                return None;
            }
            let ghost pre_values = generation.values_spec().elems();
            let ghost pre_domains = generation.domains_spec();
            let ghost mid = generation;
            proof {
                assert(!some_set(diff));
                assert(collapsed(g0, mid, diff));
            }
            let guess = generation.guess();
            proof {
                let i = choose|i: int|
                    {
                        &&& first_smallest(pre_domains, i)
                        &&& generation.values_spec().elems()[i] is Some
                        &&& forall|j: int|
                            0 <= j < pre_values.len() && j != i ==> #[trigger] generation.values_spec().elems()[j] == pre_values[j]
                    };
                assert(domain_at(pre_domains, i).len() > 0);
                assert(pre_values[i] is None);
                assert(generation.values_spec().elems()[i] is Some);
                lemma_unset_count(pre_values, generation.values_spec().elems());
            }
            let copy = generation.duplicate();
            let ghost pre_stack = self.stack_spec();
            self.push_generation(copy, guess);
            proof {
                assert(solve_step(g0, generation, guess));
                lemma_trace_push(old(self).stack_spec(), pre_stack, work, generation, copy, guess);
                work = work.push(generation);
            }
        }
    }
}

} // verus!
