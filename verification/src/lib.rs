use crate::data::{Data, PTS};
use crate::sol::heap::{is_stable_sort, MAX_EJECTIONS};
use crate::sol::{pickups_of, Sol};
use crate::evaluator::Evaluator;
use crate::stats::Stats;
use std::time::Duration;
use vstd::prelude::*;

pub mod chance;
pub mod data;
pub mod eject;
pub mod eval;
pub mod evaluator;
pub mod laws;
pub mod layout;
pub mod mov;
pub mod route;
pub mod scan;
pub mod sol;
pub mod stats;

verus! {

/// Marks a node that is currently not part of any route.
pub const UNSERVED: usize = usize::MAX;

/// Largest number of pairs a single move may eject.
pub const K_MAX: usize = 10;

/// The search for a solution with fewer routes: an evaluator of insertions
/// and the accounting of the search.
pub struct Ges<'a> {
    pub evaluator: Evaluator<'a>,
    pub stats: Stats,
}

/// How talkative the search is.
pub enum Log {
    Quiet,
    Verbose,
    Extra,
}

/// When the search stops and how talkative it is.
pub struct Conf {
    pub max_optimization_time: Duration,
    pub target_routes: usize,
    pub log: Log,
}

/// Number of random changes made after an insertion has failed.
pub const PERTURB_BATCH: usize = 50;

impl<'a> Ges<'a> {
    /// The search can run for `budget` more iterations on `solution`: the
    /// solution is well formed and holds every pickup, in a route or in the
    /// pool, the evaluator works on its instance, and neither the ejection
    /// counts nor the iteration counters can overflow within the budget.
    pub open spec fn ready(&self, solution: &Sol, budget: int) -> bool {
        &&& solution.wf()
        &&& solution.complete()
        &&& self.evaluator.data == solution.data
        &&& self.evaluator.combinations.quiet()
        &&& forall|v: int|
            0 <= v < PTS ==> #[trigger] solution.heap.times()[v] + budget <= MAX_EJECTIONS
        &&& self.stats.iterations.current <= self.stats.iterations.total
        &&& self.stats.iterations.total + 2 * budget < usize::MAX
    }

    /// The first half of a round of the search, for the answer `timed_out`
    /// of the clock: if the solution has more than `target_routes` routes,
    /// iterations are left and the time is not out, a route drawn at random
    /// is dissolved into the pool, the accounting of a new route is started
    /// and one iteration is counted. Otherwise nothing changes. Returns
    /// whether a route was dissolved.
    pub fn open_route(
        &mut self,
        solution: &mut Sol,
        target_routes: usize,
        budget: usize,
        timed_out: bool,
    ) -> (opened: bool)
        requires
            old(self).ready(old(solution), budget as int),
        ensures
            opened == (old(solution)@.count() > target_routes && budget > 0 && !timed_out),
            !opened ==> *final(solution) == *old(solution) && *final(self) == *old(self),
            opened ==> final(self).ready(final(solution), budget - 1),
            opened ==> exists|first: usize|
                old(solution)@.has(first) && final(solution)@ == #[trigger] old(
                    solution)@.without_tour(first) && is_stable_sort(
                    final(solution).heap.pool(),
                    old(solution).heap.pool() + pickups_of(
                        old(solution).data,
                        old(solution)@.tours[first],
                    ),
                    final(solution).heap.times(),
                ),
            opened ==> final(solution)@.count() == old(solution)@.count() - 1,
            opened ==> final(self).stats.iterations.current == 1 && final(self).stats.iterations.total
                == old(self).stats.iterations.total + 1,
            forall|v: usize|
                v < PTS ==> old(solution).heap.times()[v as int] <= #[trigger] final(
                    solution).heap.times()[v as int] <= old(solution).heap.times()[v as int] + 1,
            final(solution).data == old(solution).data,
            final(self).evaluator == old(self).evaluator,
            final(self).stats.time.start == old(self).stats.time.start,
    {
        let routes = solution.routes_number();
        if routes <= target_routes || budget == 0 || timed_out {
            return false;
        }
        let random_route_first = solution.random_route_first();
        proof {
            solution.lemma_route_shape(random_route_first);
            assert forall|i: int|
                0 <= i < solution@.tours[random_route_first].len() implies solution.heap.times()[#[trigger] solution@.tours[random_route_first][i] as int]
                < u64::MAX by {
                let v = solution@.tours[random_route_first][i];
                assert(solution.heap.times()[v as int] + budget <= MAX_EJECTIONS);
            }
        }
        solution.remove_route(random_route_first);
        proof {
            assert forall|v: int| 0 <= v < PTS implies #[trigger] solution.heap.times()[v] + (budget
                - 1) <= MAX_EJECTIONS by {
                assert(old(solution).heap.times()[v] + budget <= MAX_EJECTIONS);
                assert(solution.heap.times()[(v as usize) as int] <= old(solution).heap.times()[v]
                    + 1);
            }
            assert(old(solution)@.without_tour(random_route_first) == solution@);
        }
        self.stats.reset();
        self.stats.add_iteration(solution.heap.size);
        true
    }

    /// The second half of a round, one step of it, for the answer
    /// `timed_out` of the clock: if the pool holds a pickup, iterations are
    /// left and the time is not out, one attempt is made to put the pair of
    /// the pickup on top of the pool back, as [`Ges::reinsert`] does it, and
    /// one iteration is counted. Otherwise nothing changes. Returns whether
    /// the attempt put the pair back, if one was made.
    pub fn refill(&mut self, solution: &mut Sol, budget: usize, timed_out: bool) -> (r: Option<bool>)
        requires
            old(self).ready(old(solution), budget as int),
        ensures
            r is Some <==> old(solution).heap.size > 0 && budget > 0 && !timed_out,
            r is None ==> *final(solution) == *old(solution) && *final(self) == *old(self),
            r is Some ==> final(self).ready(final(solution), budget - 1),
            r matches Some(placed) ==> Self::reinserted(*old(solution), *final(solution), placed),
            r is Some ==> final(self).stats.iterations.current == old(self).stats.iterations.current
                + 1 && final(self).stats.iterations.total == old(self).stats.iterations.total + 1,
            final(solution).data == old(solution).data,
            final(self).evaluator.data == old(self).evaluator.data,
            final(self).stats.time == old(self).stats.time,
    {
        match solution.top() {
            Some(_) => {},
            None => {
                return None;
            },
        }
        if budget == 0 || timed_out {
            return None;
        }
        proof {
            assert forall|v: int| 0 <= v < PTS implies #[trigger] solution.heap.times()[v]
                < MAX_EJECTIONS by {
                assert(solution.heap.times()[v] + budget <= MAX_EJECTIONS);
            }
        }
        let placed = self.reinsert(solution);
        proof {
            assert forall|v: int| 0 <= v < PTS implies #[trigger] solution.heap.times()[v] + (budget
                - 1) <= MAX_EJECTIONS by {
                assert(old(solution).heap.times()[v] + budget <= MAX_EJECTIONS);
                assert(solution.heap.times()[(v as usize) as int] <= old(solution).heap.times()[v]
                    + 1);
            }
        }
        self.stats.add_iteration(solution.heap.size);
        Some(placed)
    }

    /// Guided ejection search: as long as the solution has more than
    /// `conf.target_routes` routes and neither the time nor the budget of
    /// iterations is spent, dissolves a random route into the pool and puts
    /// the pooled pairs back one by one, the most ejected first, where
    /// necessary with ejections; after every failure the ejection count of
    /// the pickup is raised and the solution perturbed. The clock is read
    /// before every step; [`Ges::open_route`] and [`Ges::refill`] say what
    /// the step does for each of its answers. Whenever the search stops, the
    /// solution is well formed, every pickup is in a route or in the pool,
    /// there are no more routes than before, and no ejection count and no
    /// counter of iterations has grown by more than the budget. Nothing
    /// changes when the target is met at the start or no iteration is
    /// granted.
    pub fn ges(&mut self, solution: &mut Sol, conf: Conf, max_iterations: usize)
        requires
            old(self).ready(old(solution), max_iterations as int),
        ensures
            final(solution).wf(),
            final(solution).complete(),
            final(solution).data == old(solution).data,
            final(self).evaluator.data == old(self).evaluator.data,
            final(self).ready(final(solution), 0),
            final(solution)@.count() <= old(solution)@.count(),
            old(solution)@.count() <= conf.target_routes || max_iterations == 0 ==> *final(solution)
                == *old(solution) && *final(self) == *old(self),
            forall|v: int|
                0 <= v < PTS ==> old(solution).heap.times()[v] <= #[trigger] final(
                    solution).heap.times()[v] <= old(solution).heap.times()[v] + max_iterations,
            old(self).stats.iterations.total <= final(self).stats.iterations.total <= old(
                self).stats.iterations.total + max_iterations,
            final(self).stats.time.start == old(self).stats.time.start,
    {
        let mut budget = max_iterations;
        loop
            invariant
                self.ready(solution, budget as int),
                solution.data == old(solution).data,
                self.evaluator.data == old(self).evaluator.data,
                solution@.count() <= old(solution)@.count(),
                budget == max_iterations ==> *solution == *old(solution) && *self == *old(self),
                old(solution)@.count() <= conf.target_routes || max_iterations == 0 ==> budget
                    == max_iterations,
                budget <= max_iterations,
                forall|v: int|
                    0 <= v < PTS ==> old(solution).heap.times()[v] <= #[trigger] solution.heap.times()[v]
                        <= old(solution).heap.times()[v] + (max_iterations - budget),
                old(self).stats.iterations.total <= self.stats.iterations.total <= old(
                    self).stats.iterations.total + (max_iterations - budget),
                self.stats.time.start == old(self).stats.time.start,
            decreases budget,
        {
            let timed_out = self.stats.out_of_time(&conf.max_optimization_time);
            let ghost before = *solution;
            if !self.open_route(solution, conf.target_routes, budget, timed_out) {
                break ;
            }
            budget -= 1;
            proof {
                assert forall|v: int| 0 <= v < PTS implies old(solution).heap.times()[v]
                    <= #[trigger] solution.heap.times()[v] <= old(solution).heap.times()[v] + (
                max_iterations - budget) by {
                    assert(before.heap.times()[(v as usize) as int] <= solution.heap.times()[(
                    v as usize) as int] <= before.heap.times()[(v as usize) as int] + 1);
                }
            }
            let ghost granted = budget;
            loop
                invariant
                    self.ready(solution, budget as int),
                    solution.data == old(solution).data,
                    self.evaluator.data == old(self).evaluator.data,
                    solution@.count() <= old(solution)@.count(),
                    budget <= granted,
                    granted < max_iterations,
                    forall|v: int|
                        0 <= v < PTS ==> old(solution).heap.times()[v]
                            <= #[trigger] solution.heap.times()[v] <= old(solution).heap.times()[v] + (
                        max_iterations - budget),
                    old(self).stats.iterations.total <= self.stats.iterations.total <= old(
                        self).stats.iterations.total + (max_iterations - budget),
                    self.stats.time.start == old(self).stats.time.start,
                decreases budget,
            {
                let timed_out = self.stats.out_of_time(&conf.max_optimization_time);
                let ghost tried = *solution;
                match self.refill(solution, budget, timed_out) {
                    Some(_) => {},
                    None => {
                        break ;
                    },
                }
                budget -= 1;
                proof {
                    assert forall|v: int| 0 <= v < PTS implies old(solution).heap.times()[v]
                        <= #[trigger] solution.heap.times()[v] <= old(solution).heap.times()[v] + (
                    max_iterations - budget) by {
                        assert(tried.heap.times()[(v as usize) as int] <= solution.heap.times()[(
                        v as usize) as int] <= tried.heap.times()[(v as usize) as int] + 1);
                    }
                }
            }
        }
    }

    /// What one attempt to put the pickup on top of the pool of `before`
    /// back leaves in `after`, and whether it put the pair back.
    pub open spec fn reinserted(before: Sol, after: Sol, placed: bool) -> bool {
        let top = before.heap.pool().last();
        &&& after.wf()
        &&& after.complete()
        &&& after.data == before.data
        &&& after@.count() <= before@.count()
        &&& forall|v: usize|
            v < PTS ==> before.heap.times()[v as int] <= #[trigger] after.heap.times()[v as int]
                <= before.heap.times()[v as int] + 1
        &&& placed == after@.served(top)
        &&& before.insertable(top) || before.insertable_with_ejections(top) ==> placed
        &&& before.insertable(top) ==> {
            &&& after.heap.pool() == before.heap.pool().drop_last()
            &&& after.heap.times() == before.heap.times()
            &&& after@.count() == before@.count()
        }
        &&& !placed ==> {
            &&& after.heap.times() == before.heap.times().update(
                top as int,
                (before.heap.times()[top as int] + 1) as u64,
            )
            &&& forall|v: usize| after@.served(v) == before@.served(v)
            &&& forall|v: usize| after.heap.pool().contains(v) <==> before.heap.pool().contains(v)
            &&& after@.count() == before@.count()
        }
    }

    /// One attempt to put the pair of the pickup on top of the pool back
    /// into a route: first without ejections, then with ejections. Where a
    /// place is found the pickup leaves the pool and the pairs that have to
    /// make room join it; where none is found the ejection count of the
    /// pickup is raised and the solution is perturbed, which changes neither
    /// what is served nor the pool. Returns whether the pair was put back:
    /// it is whenever some route has a place that the plain scan accepts or
    /// the search with ejections is bound to find one.
    pub fn reinsert(&mut self, solution: &mut Sol) -> (placed: bool)
        requires
            old(solution).wf(),
            old(solution).complete(),
            old(solution).heap.size > 0,
            old(self).evaluator.data == old(solution).data,
            old(self).evaluator.combinations.quiet(),
            forall|v: int| 0 <= v < PTS ==> #[trigger] old(solution).heap.times()[v] < MAX_EJECTIONS,
        ensures
            Self::reinserted(*old(solution), *final(solution), placed),
            final(self).evaluator.data == old(self).evaluator.data,
            final(self).evaluator.combinations.quiet(),
            final(self).stats == old(self).stats,
    {
        let top = match solution.top() {
            Some(top) => top,
            None => {
                return false;
            },
        };
        proof {
            let pool = solution.heap.pool();
            assert(pool[pool.len() - 1] == top);
            assert(solution.data.customer(pool[pool.len() - 1] as int));
            assert(!solution@.served(pool[pool.len() - 1]));
            assert forall|v: int| 0 <= v < PTS implies #[trigger] solution.heap.times()[v]
                <= MAX_EJECTIONS by {
                assert(solution.heap.times()[v] < MAX_EJECTIONS);
            }
        }
        let maybe = solution.try_insert(top, &mut self.evaluator);
        let ghost tried = *solution;

        match maybe {
            Some(mov) => {
                solution.pop();
                proof {
                    assert(solution.admits(&mov)) by {
                        assert(tried.admits(&mov));
                        assert(solution@ == tried@);
                        assert(solution.heap.times() == tried.heap.times());
                    }
                }
                let ghost popped = *solution;
                solution.make_move(&mov);
                proof {
                    if tried.insertable(top) {
                        assert(solution.heap == popped.heap);
                    }
                }
                true
            },
            None => {
                proof {
                    let pool = solution.heap.pool();
                    assert forall|i: int, j: int|
                        0 <= i <= j < pool.drop_last().len() implies solution.heap.times()[pool.drop_last()[i] as int]
                        <= solution.heap.times()[pool.drop_last()[j] as int] by {
                        assert(pool.drop_last()[i] == pool[i]);
                        assert(pool.drop_last()[j] == pool[j]);
                    }
                    assert(solution.heap.times()[top as int] < MAX_EJECTIONS);
                }
                solution.inc();
                let ghost raised = *solution;
                let mut n: usize = 0;
                while n < PERTURB_BATCH
                    invariant
                        solution.wf(),
                        solution.complete(),
                        solution.data == old(solution).data,
                        self.evaluator.data == old(self).evaluator.data,
                        self.evaluator.data == solution.data,
                        self.evaluator.combinations.quiet(),
                        self.stats == old(self).stats,
                        solution.heap == raised.heap,
                        solution@.count() == raised@.count(),
                        forall|v: usize| solution@.served(v) == raised@.served(v),
                        n <= PERTURB_BATCH,
                    decreases PERTURB_BATCH - n,
                {
                    let ghost was = *solution;
                    solution.perturb(&mut self.evaluator);
                    proof {
                        assert forall|v: usize|
                            solution.data.customer(v as int) && !solution.data.delivers(
                                v as int,
                            ) implies #[trigger] solution@.served(v) || solution.heap.pool().contains(
                            v,
                        ) by {
                            assert(was@.served(v) || was.heap.pool().contains(v));
                        }
                    }
                    n += 1;
                }
                false
            },
        }
    }

    /// A search on the instance `data`, its accounting started now.
    pub fn new(data: &'a Data) -> (r: Self)
        ensures
            r.evaluator.data == data,
            r.evaluator.combinations.quiet(),
            r.stats.iterations.total == 0,
    {
        Self { evaluator: Evaluator::new(data), stats: Stats::new() }
    }
}

} // verus!
