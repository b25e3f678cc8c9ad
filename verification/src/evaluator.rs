use crate::data::{Data, PTS};
use crate::eval::Eval;
use crate::layout::stop_at;
use crate::mov::{Between, Move, Swap};
use crate::route::{eval_at, lemma_eval_within, lemma_proper_len, lemma_within_grows, proper, stop};
use crate::eject::{gone_set, lemma_run, lemma_sift_holds, lemma_tour_coupled, origin_of, run_ok, sane, sift};
use crate::evaluator::comb::{
    agree, comes_before, ids_at, is_subset, leads, lists_all, lists_before, lemma_order_agree, lemma_order_trans,
    info_of, lemma_subset_spread, lemma_total_same, lemma_visited_agree, lemma_visited_subset,
    raised, span, total_from, visited, Combinations,
};
use crate::route::{feasible, lemma_index_of, lfd_at};
use crate::sol::heap::MAX_EJECTIONS;
use crate::sol::{ejected, listed, placed_in};
use crate::layout::Layout;
use crate::scan::{
    accepted, chosen, delivery_gap, examined, found, found_all, found_in_gap, ins_at, inserted,
    lemma_accepted_feasible, lemma_found_in_gap_bound, lemma_found_in_gap_none,
    lemma_found_in_gap_stops, lemma_found_stops, lemma_walk_within, pickup_gap, reached, walk,
};
use crate::sol::{fits_in, mated, Sol};
use crate::{K_MAX, UNSERVED};
use vstd::prelude::*;

pub mod comb;
pub mod count;

verus! {

/// Searches the routes of a solution for places to insert the pair of one
/// pickup.
pub struct Evaluator<'a> {
    pub data: &'a Data,
    pub combinations: Combinations,
    pub pickup_idx: usize,
}

/// `route` is a sequence of distinct customers followed by the depot, and
/// `pickup` is a customer that is not among them.
pub open spec fn scannable(data: &Data, route: Seq<usize>, pickup: usize) -> bool {
    &&& route.len() >= 1
    &&& route.last() == 0
    &&& proper(data, route.drop_last().push(pickup))
}

impl<'a> Evaluator<'a> {
    /// An evaluator for `data`, without a pickup yet.
    pub fn new(data: &'a Data) -> (r: Self)
        ensures
            r.data == data,
            r.pickup_idx == UNSERVED,
            r.combinations.quiet(),
    {
        Self { data, combinations: Combinations::new(), pickup_idx: UNSERVED }
    }

    /// An evaluator for `data` that inserts the pair of `pickup_idx`.
    pub fn with_pickup(data: &'a Data, pickup_idx: usize) -> (r: Self)
        ensures
            r.data == data,
            r.pickup_idx == pickup_idx,
            r.combinations.quiet(),
    {
        let mut evaluator = Self::new(data);
        evaluator.reset(pickup_idx);

        evaluator
    }

    /// Sets the pickup whose pair is to be inserted.
    pub fn reset(&mut self, pickup_idx: usize)
        ensures
            final(self).data == old(self).data,
            final(self).combinations == old(self).combinations,
            final(self).pickup_idx == pickup_idx,
    {
        self.pickup_idx = pickup_idx;
    }

    /// Scans the route that starts at `start` for places to insert the pair
    /// of the evaluator's pickup. The move that comes back holds a
    /// placement that fits the solution; there is none exactly when the scan
    /// accepts no placement.
    pub fn check_add_to_route(&mut self, sol: &Sol, start: usize) -> (r: Option<Move>)
        requires
            sol.wf(),
            old(self).data == sol.data,
            sol@.has(start),
            sol.data.customer(old(self).pickup_idx as int),
            !sol.data.delivers(old(self).pickup_idx as int),
            !sol@.served(old(self).pickup_idx),
        ensures
            *final(self) == *old(self),
            r is Some <==> found_all(
                sol.data,
                sol.latest_feasible_departure@,
                sol@.tours[start],
                old(self).pickup_idx,
            ) > 0,
            r matches Some(m) ==> {
                &&& m.pickup == old(self).pickup_idx
                &&& m.removed@ == Seq::new(K_MAX as nat, |i: int| 0usize)
                &&& m.times == found_all(
                    sol.data,
                    sol.latest_feasible_departure@,
                    sol@.tours[start],
                    old(self).pickup_idx,
                )
                &&& chosen(
                    sol.data,
                    sol.latest_feasible_departure@,
                    sol@.tours[start],
                    old(self).pickup_idx,
                    m.placement(),
                )
                &&& fits_in(sol@, sol.data, &m)
            },
    {
        let ghost l = sol@;
        let ghost data = sol.data;
        let ghost t = l.tours[start];
        let ghost p = self.pickup_idx;
        let ghost d = data.pair(p as int) as usize;
        let ghost lfd = sol.latest_feasible_departure@;
        let iterator = sol.route_iter(start);
        let route = iterator.collect();
        proof {
            sol.lemma_coupled(start);
            assert(l.served(l.tours[start][0]));
            assert(l.slot[l.tours[start][0]] == 0);
            assert(route@ =~= t.push(0));
            assert(route@.drop_last() =~= t);
            assert(data.pair_ok(p as int));
            assert(!l.served(d)) by {
                if l.served(d) {
                    assert(mated(l, data, d));
                }
            }
            let tp = t.push(p);
            assert forall|a: int, b: int|
                0 <= a < tp.len() && 0 <= b < tp.len() && a != b implies tp[a] != tp[b] by {
                if a < t.len() {
                    assert(l.served(l.tours[start][a]));
                }
                if b < t.len() {
                    assert(l.served(l.tours[start][b]));
                }
            }
            assert forall|a: int| 0 <= a < tp.len() implies data.customer(#[trigger] tp[a] as int) by {
                if a < t.len() {
                    assert(data.customer(t[a] as int));
                }
            }
        }
        let mov = self.check_insertions_into_route(self.pickup_idx, &route, sol);
        if mov.is_not_empty() {
            proof {
                let (i, j) = choose|i: int, j: int|
                    #![trigger accepted(data, lfd, t, p, i, j)]
                    accepted(data, lfd, t, p, i, j) && mov.placement() == (
                        pickup_gap(t, i),
                        delivery_gap(t, p, i, j),
                    );
                lemma_gaps_fit(l, data.points as int, start, p, d, i, j);
                assert(lfd[stop(t, j)] == crate::route::lfd_at(data, t, j)) by {
                    if j < t.len() {
                        assert(l.served(l.tours[start][j]));
                        assert(sol.cached_at(t[j]));
                    }
                }
                lemma_accepted_feasible(data, lfd, t, p, i, j);
            }
            Some(mov)
        } else {
            None
        }
    }

    /// Scans the route of the loaded generator without the pairs that its
    /// current subset ejects. A move that comes back with a placement lists
    /// the ejected pickups and can be applied to the solution.
    fn scan_subset(&self, sol: &Sol, route_start: usize) -> (m: Move)
        requires
            sol.wf(),
            self.data == sol.data,
            sol@.has(route_start),
            sol.data.customer(self.pickup_idx as int),
            !sol.data.delivers(self.pickup_idx as int),
            !sol@.served(self.pickup_idx),
            sol.heap.below(MAX_EJECTIONS as int),
            self.combinations.loaded(sol, route_start),
            self.combinations.ordered(),
        ensures
            m.pickup == self.pickup_idx,
            m.times > 0 ==> sol.admits(&m) && self.combinations.listed_in(m.removed@),
            m.times > 0 <==> found_here(sol, route_start, &self.combinations, self.pickup_idx),
            m.times == if left_here(sol, route_start, &self.combinations).len() > 0 {
                found_all(
                    sol.data,
                    sol.latest_feasible_departure@,
                    left_here(sol, route_start, &self.combinations),
                    self.pickup_idx,
                )
            } else {
                0
            },
            m.times > 0 ==> m.removed@ == self.combinations.subset_ids() && chosen(
                sol.data,
                sol.latest_feasible_departure@,
                left_here(sol, route_start, &self.combinations),
                self.pickup_idx,
                m.placement(),
            ),
    {
        let ghost l = sol@;
        let ghost data = sol.data;
        let ghost n = data.points as int;
        let ghost s = l.tours[route_start];
        let ghost p = self.pickup_idx;
        let ghost d = data.pair(p as int) as usize;
        let ghost lfd = sol.latest_feasible_departure@;
        proof {
            self.combinations.lemma_loaded_coherent(sol, route_start);
        }
        let route = self.combinations.r();
        let ids = self.combinations.removed();
        let ghost removed = Seq::new(
            K_MAX as nat,
            |i: int|
                if i < self.combinations.k {
                    ids@[i]
                } else {
                    0usize
                },
        );
        let ghost g = gone_set(data, removed, K_MAX as int);
        let ghost t = sift(s, g);
        let ghost lj = ejected(l, data, removed, K_MAX as int);
        proof {
            assert(removed =~= self.combinations.subset_ids());
            assert(left_here(sol, route_start, &self.combinations) == t) by {
                reveal(left_here);
            }
            self.combinations.lemma_kept_is_sift(sol, route_start, removed);
            assert(route@ == t.push(0));
            assert(route@.drop_last() =~= t);
            sol.lemma_route_shape(route_start);
            lemma_sift_holds(s, g);
            lemma_run(l, data, removed, route_start, K_MAX as int);
            assert(data.pair_ok(p as int));
            assert(!l.served(d)) by {
                if l.served(d) {
                    assert(mated(l, data, d));
                }
            }
            let tp = t.push(p);
            assert forall|a: int| 0 <= a < t.len() implies l.served(#[trigger] t[a]) && data.customer(
                t[a] as int,
            ) by {
                assert(t.contains(t[a]));
                let kk = choose|kk: int| 0 <= kk < s.len() && s[kk] == t[a];
                assert(l.served(l.tours[route_start][kk]));
            }
            assert forall|a: int, b: int|
                0 <= a < tp.len() && 0 <= b < tp.len() && a != b implies tp[a] != tp[b] by {}
            assert forall|a: int| 0 <= a < tp.len() implies data.customer(#[trigger] tp[a] as int) by {
                if a < t.len() {
                    assert(data.customer(t[a] as int));
                }
            }
        }
        if route.len() < 2 {
            return Move::new(self.pickup_idx);
        }
        let mut m = self.check_insertions_into_route(self.pickup_idx, &route, sol);
        if m.is_not_empty() {
            let mut i: usize = 0;
            while i < ids.len()
                invariant
                    0 <= i <= ids@.len(),
                    ids@.len() == self.combinations.k,
                    self.combinations.k <= K_MAX,
                    m.pickup == self.pickup_idx,
                    m.times > 0,
                    m.times == found_all(data, lfd, t, p),
                    chosen(data, lfd, t, p, m.placement()),
                    forall|j: int| 0 <= j < i ==> #[trigger] m.removed@[j] == ids@[j],
                    forall|j: int| i <= j < K_MAX ==> #[trigger] m.removed@[j] == 0,
                decreases ids@.len() - i,
            {
                m.removed[i] = ids[i];
                i += 1;
            }
            proof {
                assert(m.removed@ =~= removed);
                let (i, j) = choose|i: int, j: int|
                    #![trigger accepted(data, lfd, t, p, i, j)]
                    accepted(data, lfd, t, p, i, j) && m.placement() == (
                        pickup_gap(t, i),
                        delivery_gap(t, p, i, j),
                    );
                lemma_reduced_sound(sol, route_start, &m, i, j);
            }
        }
        m
    }

    /// Scans the route of the served pickup `to_remove`, without that pickup
    /// and its delivery, for places to insert the pair of `to_insert`. No
    /// placement is found when nothing is left of the route.
    fn check_remove_and_insert(&mut self, sol: &Sol, to_remove: usize, to_insert: usize) -> (m: Move)
        requires
            sol.wf(),
            old(self).data == sol.data,
            sol@.served(to_remove),
            !sol.data.delivers(to_remove as int),
            sol.data.customer(to_insert as int),
            !sol.on_route(to_insert, sol@.owner[to_remove]),
        ensures
            *final(self) == *old(self),
            m.pickup == to_insert,
            m.removed@ == Seq::new(K_MAX as nat, |i: int| 0usize),
            m.times == if rest_of(sol, to_remove).len() > 0 {
                found_all(
                    sol.data,
                    sol.latest_feasible_departure@,
                    rest_of(sol, to_remove),
                    to_insert,
                )
            } else {
                0
            },
            m.times > 0 <==> rest_of(sol, to_remove).len() > 0 && found_all(
                sol.data,
                sol.latest_feasible_departure@,
                rest_of(sol, to_remove),
                to_insert,
            ) > 0,
            m.times > 0 ==> chosen(
                sol.data,
                sol.latest_feasible_departure@,
                rest_of(sol, to_remove),
                to_insert,
                m.placement(),
            ),
    {
        let ghost l = sol@;
        let ghost data = sol.data;
        let ghost r0 = l.owner[to_remove];
        let ghost s = l.tours[r0];
        let ghost g = gone_set(data, only(to_remove), K_MAX as int);
        proof {
            assert(data.customer(to_remove as int));
            assert(data.pair_ok(to_remove as int));
            assert(sol.cached_at(to_remove));
            assert(l.has(r0));
            assert(l.served(l.tours[r0][0]));
            assert(l.slot[l.tours[r0][0]] == 0);
            sol.lemma_route_shape(r0);
            lemma_only(l, data, to_remove);
        }
        let to_remove_pair = sol.data.pair_of(to_remove);

        let route_of_to_remove = sol.first[to_remove];

        let full = sol.route_iter(route_of_to_remove).collect();
        let mut route: Vec<usize> = Vec::new();
        let mut i: usize = 0;
        proof {
            assert(full@ =~= s.push(0));
        }
        while i < full.len()
            invariant
                full@ == s.push(0),
                0 < s.len() < PTS,
                0 <= i <= s.len() + 1,
                g == Set::<usize>::empty().insert(to_remove_pair).insert(to_remove),
                to_remove != 0,
                to_remove_pair != 0,
                i <= s.len() ==> route@ == sift(s.take(i as int), g),
                i == s.len() + 1 ==> route@ == sift(s, g).push(0),
            decreases s.len() + 1 - i,
        {
            let x = full[i];
            if x != to_remove && x != to_remove_pair {
                route.push(x);
            }
            proof {
                if i < s.len() {
                    assert(s.take(i + 1).drop_last() =~= s.take(i as int));
                    assert(s.take(i + 1).last() == s[i as int]);
                    assert(full@[i as int] == s[i as int]);
                } else {
                    assert(s.take(s.len() as int) =~= s);
                }
            }
            i += 1;
        }
        let ghost t = sift(s, g);
        proof {
            assert(route@.drop_last() =~= t);
            lemma_sift_holds(s, g);
        }
        if route.len() < 2 {
            return Move::new(to_insert);
        }
        proof {
            let tp = t.push(to_insert);
            assert forall|a: int| 0 <= a < t.len() implies l.served(#[trigger] t[a]) && l.owner[t[a]]
                == r0 && data.customer(t[a] as int) by {
                assert(t.contains(t[a]));
                let kk = choose|kk: int| 0 <= kk < s.len() && s[kk] == t[a];
                assert(l.served(l.tours[r0][kk]));
            }
            assert forall|a: int, b: int|
                0 <= a < tp.len() && 0 <= b < tp.len() && a != b implies tp[a] != tp[b] by {}
            assert forall|a: int| 0 <= a < tp.len() implies data.customer(#[trigger] tp[a] as int) by {
                if a < t.len() {
                    assert(data.customer(t[a] as int));
                }
            }
        }
        self.check_insertions_into_route(to_insert, &route, sol)
    }

    /// Looks for a way to exchange the pairs of two served pickups of
    /// different routes: a place for the second pair in the route of the
    /// first without the first pair, and a place for the first pair in the
    /// route of the second without the second pair. The swap that comes
    /// back holds the move of the second pickup first; it can be applied to
    /// the solution. There is none exactly when one of the two scans accepts
    /// no placement or nothing is left of one of the routes. Each move of
    /// the swap counts the placements that its scan accepts, holds one of
    /// them and ejects nothing.
    pub fn check_swap(&mut self, sol: &Sol, a_pickup: usize, b_pickup: usize) -> (r: Option<Swap>)
        requires
            sol.wf(),
            old(self).data == sol.data,
            a_pickup != b_pickup,
            sol@.served(a_pickup),
            sol@.served(b_pickup),
            !sol.data.delivers(a_pickup as int),
            !sol.data.delivers(b_pickup as int),
            sol@.owner[a_pickup] != sol@.owner[b_pickup],
        ensures
            *final(self) == *old(self),
            r is Some <==> {
                &&& rest_of(sol, a_pickup).len() > 0
                &&& rest_of(sol, b_pickup).len() > 0
                &&& found_all(
                    sol.data,
                    sol.latest_feasible_departure@,
                    rest_of(sol, a_pickup),
                    b_pickup,
                ) > 0
                &&& found_all(
                    sol.data,
                    sol.latest_feasible_departure@,
                    rest_of(sol, b_pickup),
                    a_pickup,
                ) > 0
            },
            r matches Some(s) ==> {
                &&& s.a.pickup == b_pickup
                &&& s.b.pickup == a_pickup
                &&& sol.swaps(&s)
                &&& s.a.times == found_all(
                    sol.data,
                    sol.latest_feasible_departure@,
                    rest_of(sol, a_pickup),
                    b_pickup,
                )
                &&& s.b.times == found_all(
                    sol.data,
                    sol.latest_feasible_departure@,
                    rest_of(sol, b_pickup),
                    a_pickup,
                )
                &&& s.a.removed@ == Seq::new(K_MAX as nat, |i: int| 0usize)
                &&& s.b.removed@ == Seq::new(K_MAX as nat, |i: int| 0usize)
                &&& chosen(
                    sol.data,
                    sol.latest_feasible_departure@,
                    rest_of(sol, a_pickup),
                    b_pickup,
                    s.a.placement(),
                )
                &&& chosen(
                    sol.data,
                    sol.latest_feasible_departure@,
                    rest_of(sol, b_pickup),
                    a_pickup,
                    s.b.placement(),
                )
            },
    {
        let ghost data = sol.data;
        let ghost lfd = sol.latest_feasible_departure@;
        proof {
            assert(data.customer(a_pickup as int));
            assert(data.customer(b_pickup as int));
        }
        let mut s = Swap::new(a_pickup, b_pickup);

        let a = self.check_remove_and_insert(sol, a_pickup, b_pickup);
        if a.is_not_empty() {
            let b = self.check_remove_and_insert(sol, b_pickup, a_pickup);
            if b.is_not_empty() {
                s.a = a;
                s.b = b;
                proof {
                    let ta = rest_of(sol, a_pickup);
                    let tb = rest_of(sol, b_pickup);
                    let (i1, j1) = choose|i: int, j: int|
                        #![trigger accepted(data, lfd, ta, b_pickup, i, j)]
                        accepted(data, lfd, ta, b_pickup, i, j) && a.placement() == (
                            pickup_gap(ta, i),
                            delivery_gap(ta, b_pickup, i, j),
                        );
                    let (i2, j2) = choose|i: int, j: int|
                        #![trigger accepted(data, lfd, tb, a_pickup, i, j)]
                        accepted(data, lfd, tb, a_pickup, i, j) && b.placement() == (
                            pickup_gap(tb, i),
                            delivery_gap(tb, a_pickup, i, j),
                        );
                    lemma_swap_sound(sol, &s, i1, j1, i2, j2);
                }
            }
        }

        if s.is_not_empty() {
            Some(s)
        } else {
            None
        }
    }

    /// The evaluator stands ready to scan the subsets of the route `start`:
    /// its generator is loaded with the route and holds a subset, and its
    /// pickup is an unserved pickup of the instance of `sol`.
    pub open spec fn scanning(&self, sol: &Sol, start: usize) -> bool {
        &&& sol.wf()
        &&& self.data == sol.data
        &&& sol@.has(start)
        &&& sol.data.customer(self.pickup_idx as int)
        &&& !sol.data.delivers(self.pickup_idx as int)
        &&& !sol@.served(self.pickup_idx)
        &&& sol.heap.below(MAX_EJECTIONS as int)
        &&& self.combinations.loaded(sol, start)
        &&& self.combinations.ordered()
    }

    /// Scans the current subset, merges what it finds into `mov` and moves
    /// on to the next subset whose total ejection count is below `target`.
    /// Returns whether there is such a subset; the search also ends when the
    /// count of placements would not fit its counter.
    fn visit(&mut self, sol: &Sol, route_start: usize, mov: &mut Move, target: u64) -> (ok: bool)
        requires
            old(self).scanning(sol, route_start),
            old(mov).pickup == old(self).pickup_idx,
            old(mov).times > 0 ==> sol.admits(old(mov)),
            visited(
                old(self).combinations.scores(),
                old(self).combinations.k as int,
                old(self).combinations.held(),
                target as int,
                old(self).combinations.combination_indices2@,
            ),
            old(mov).times > 0 <==> hit_before(
                sol,
                route_start,
                &old(self).combinations,
                target as int,
                old(self).pickup_idx,
            ),
            old(mov).times > 0 ==> drawn(
                sol,
                route_start,
                &old(self).combinations,
                target as int,
                old(self).pickup_idx,
                old(mov),
            ),
            tallied_before(
                sol,
                route_start,
                &old(self).combinations,
                target as int,
                old(self).pickup_idx,
                old(mov).times as int,
            ),
        ensures
            final(mov).times > 0 ==> drawn(
                sol,
                route_start,
                &final(self).combinations,
                target as int,
                old(self).pickup_idx,
                final(mov),
            ),
            ok ==> tallied_before(
                sol,
                route_start,
                &final(self).combinations,
                target as int,
                old(self).pickup_idx,
                final(mov).times as int,
            ),
            !ok ==> tallied(
                sol,
                route_start,
                &final(self).combinations,
                target as int,
                old(self).pickup_idx,
                final(mov).times as int,
            ),
            ok ==> visited(
                final(self).combinations.scores(),
                final(self).combinations.k as int,
                final(self).combinations.held(),
                target as int,
                final(self).combinations.combination_indices2@,
            ),
            ok ==> (final(mov).times > 0 <==> hit_before(
                sol,
                route_start,
                &final(self).combinations,
                target as int,
                old(self).pickup_idx,
            )),
            !ok ==> (final(mov).times > 0 <==> hit_any(
                sol,
                route_start,
                &final(self).combinations,
                target as int,
                old(self).pickup_idx,
            )),
            final(self).scanning(sol, route_start),
            final(self).data == old(self).data,
            final(self).pickup_idx == old(self).pickup_idx,
            final(mov).pickup == old(mov).pickup,
            final(mov).times > 0 ==> sol.admits(final(mov)),
            final(self).combinations.k == old(self).combinations.k,
            final(self).combinations.route_len == old(self).combinations.route_len,
            final(self).combinations.pickups == old(self).combinations.pickups,
            same_catalog(&final(self).combinations, &old(self).combinations),
            final(mov).times >= old(mov).times,
            found_here(sol, route_start, &old(self).combinations, old(self).pickup_idx) ==> final(
                mov).times > 0,
            ok ==> exists|i: int|
                0 <= i < old(self).combinations.k && i < 10 && (
                #[trigger] final(self).combinations.combination_indices2@[i])
                    == old(self).combinations.combination_indices2@[i] + 1 && final(
                    self).combinations.combination_indices2@[i] < old(self).combinations.held()
                    && forall|j: int|
                    0 <= j < i ==> final(self).combinations.combination_indices2@[j] == (
                    #[trigger] old(self).combinations.combination_indices2@[j]),
    {
        let m = self.scan_subset(sol, route_start);
        let ghost before = self.combinations;
        let ghost had = *mov;
        if m.is_not_empty() {
            if m.times <= usize::MAX - mov.times {
                mov.pick(&m);
                proof {
                    if mov.placement() == m.placement() && mov.removed == m.removed {
                        lemma_admits_same(sol, &m, mov);
                        assert(drawn(sol, route_start, &before, target as int, self.pickup_idx, mov)) by {
                            lemma_drawn_here(
                                sol,
                                route_start,
                                &before,
                                target as int,
                                self.pickup_idx,
                                &m,
                            );
                            lemma_drawn_same(
                                sol,
                                route_start,
                                &before,
                                &before,
                                target as int,
                                self.pickup_idx,
                                &m,
                                mov,
                            );
                        }
                    } else {
                        lemma_admits_same(sol, &had, mov);
                        assert(drawn(sol, route_start, &before, target as int, self.pickup_idx, mov)) by {
                            lemma_drawn_same(
                                sol,
                                route_start,
                                &before,
                                &before,
                                target as int,
                                self.pickup_idx,
                                &had,
                                mov,
                            );
                        }
                    }
                }
            } else {
                proof {
                    let x = choose|x: Seq<usize>| #[trigger]
                        hit_by(sol, route_start, &before, target as int, self.pickup_idx, x)
                            && comes_before(x, before.combination_indices2@, before.k as int);
                    assert(hit_by(sol, route_start, &before, target as int, self.pickup_idx, x));
                    lemma_left_here(sol, route_start, &before);
                    lemma_tally_cut(
                        sol,
                        route_start,
                        &before,
                        target as int,
                        self.pickup_idx,
                        had.times as int,
                    );
                }
                return false;
            }
        }
        proof {
            assert(mov.times == had.times + m.times);
        }
        let ok = self.combinations.next_combination_with_lower_score(target);
        proof {
            before.lemma_loaded_same(&self.combinations, sol, route_start);
            if ok {
                before.lemma_progress(&self.combinations);
            }
            Self::lemma_visited_on(sol, route_start, &before, &self.combinations, target, self.pickup_idx, ok);
            lemma_left_here(sol, route_start, &before);
            lemma_tally_on(
                sol,
                route_start,
                &before,
                &self.combinations,
                target as int,
                self.pickup_idx,
                ok,
                had.times as int,
                m.times as int,
            );
            if mov.times > 0 {
                lemma_drawn_same(
                    sol,
                    route_start,
                    &before,
                    &self.combinations,
                    target as int,
                    self.pickup_idx,
                    mov,
                    mov,
                );
            }
        }
        ok
    }

    /// What a step of the search leaves behind: once the subset of `pre`
    /// has been scanned and the generator has tried to move on, the
    /// placements found so far are those of the subsets before the new
    /// subset, or of all the subsets that the search scans if it did not
    /// move.
    proof fn lemma_visited_on(
        sol: &Sol,
        start: usize,
        pre: &Combinations,
        post: &Combinations,
        target: u64,
        p: usize,
        ok: bool,
    )
        requires
            pre.ordered(),
            same_catalog(post, pre),
            visited(pre.scores(), pre.k as int, pre.held(), target as int, pre.combination_indices2@),
            !ok ==> post.combination_indices2 == pre.combination_indices2,
            !ok ==> pre.stuck(0) || exists|i: int|
                0 <= i < pre.k && pre.stuck(i + 1) && (#[trigger] pre.combination_indices2@[i]) + 1
                    != pre.combination_indices2@[i + 1] && total_from(
                    pre.scores(),
                    raised(pre.combination_indices2@, i, pre.k as int),
                    0,
                    pre.k as int,
                ) >= target,
            ok ==> exists|i: int|
                0 <= i < pre.k && pre.stuck(i + 1) && (#[trigger] pre.combination_indices2@[i]) + 1
                    != pre.combination_indices2@[i + 1] && post.combination_indices2@ == raised(
                    pre.combination_indices2@,
                    i,
                    pre.k as int,
                ) && total_from(
                    pre.scores(),
                    raised(pre.combination_indices2@, i, pre.k as int),
                    0,
                    pre.k as int,
                ) < target,
        ensures
            ok ==> visited(
                post.scores(),
                post.k as int,
                post.held(),
                target as int,
                post.combination_indices2@,
            ),
            ok ==> (hit_before(sol, start, post, target as int, p) <==> hit_before(
                sol,
                start,
                pre,
                target as int,
                p,
            ) || found_here(sol, start, pre, p)),
            !ok ==> (hit_any(sol, start, post, target as int, p) <==> hit_before(
                sol,
                start,
                pre,
                target as int,
                p,
            ) || found_here(sol, start, pre, p)),
    {
        if ok {
            let i = choose|i: int|
                0 <= i < pre.k && pre.stuck(i + 1) && (#[trigger] pre.combination_indices2@[i]) + 1
                    != pre.combination_indices2@[i + 1] && post.combination_indices2@ == raised(
                    pre.combination_indices2@,
                    i,
                    pre.k as int,
                ) && total_from(
                    pre.scores(),
                    raised(pre.combination_indices2@, i, pre.k as int),
                    0,
                    pre.k as int,
                ) < target;
            lemma_hit_step(sol, start, pre, post, target as int, p, i);
        } else {
            lemma_hit_same(sol, start, post, pre, target as int, p);
            lemma_hit_end(sol, start, pre, target as int, p);
            lemma_hit_here(sol, start, pre, target as int, p);
        }
    }

    /// The first step of the enumeration: the first subset is visited if its
    /// total ejection count is below `target`; otherwise the enumeration
    /// moves on at once. Returns whether there is a subset to visit next.
    fn begin(&mut self, sol: &Sol, route_start: usize, mov: &mut Move, target: u64) -> (ok: bool)
        requires
            old(self).scanning(sol, route_start),
            old(mov).pickup == old(self).pickup_idx,
            old(mov).times == 0,
            leads(old(self).combinations.combination_indices2@, old(self).combinations.k as int),
        ensures
            final(mov).times > 0 ==> drawn(
                sol,
                route_start,
                &final(self).combinations,
                target as int,
                old(self).pickup_idx,
                final(mov),
            ),
            ok ==> tallied_before(
                sol,
                route_start,
                &final(self).combinations,
                target as int,
                old(self).pickup_idx,
                final(mov).times as int,
            ),
            !ok ==> tallied(
                sol,
                route_start,
                &final(self).combinations,
                target as int,
                old(self).pickup_idx,
                final(mov).times as int,
            ),
            ok ==> visited(
                final(self).combinations.scores(),
                final(self).combinations.k as int,
                final(self).combinations.held(),
                target as int,
                final(self).combinations.combination_indices2@,
            ),
            ok ==> (final(mov).times > 0 <==> hit_before(
                sol,
                route_start,
                &final(self).combinations,
                target as int,
                old(self).pickup_idx,
            )),
            !ok ==> (final(mov).times > 0 <==> hit_any(
                sol,
                route_start,
                &final(self).combinations,
                target as int,
                old(self).pickup_idx,
            )),
            final(self).scanning(sol, route_start),
            final(self).data == old(self).data,
            final(self).pickup_idx == old(self).pickup_idx,
            same_catalog(&final(self).combinations, &old(self).combinations),
            final(mov).pickup == old(mov).pickup,
            final(mov).times > 0 ==> sol.admits(final(mov)),
            (old(self).combinations.cur_removed_times_total < target && found_here(
                sol,
                route_start,
                &old(self).combinations,
                old(self).pickup_idx,
            )) ==> final(mov).times > 0,
    {
        proof {
            lemma_hit_first(sol, route_start, &self.combinations, target as int, self.pickup_idx);
        }
        if self.combinations.cur_removed_times_total >= target {
            self.pass_over(sol, route_start, target)
        } else {
            proof {
                lemma_tally_first(
                    sol,
                    route_start,
                    &self.combinations,
                    target as int,
                    self.pickup_idx,
                );
            }
            self.visit(sol, route_start, mov, target)
        }
    }

    /// What the first step of the search leaves behind when it passes over
    /// the first subset: nothing has been found, and nothing can be found
    /// if the generator did not move.
    proof fn lemma_passed_over(
        sol: &Sol,
        start: usize,
        pre: &Combinations,
        post: &Combinations,
        target: u64,
        p: usize,
        ok: bool,
    )
        requires
            pre.ordered(),
            same_catalog(post, pre),
            leads(pre.combination_indices2@, pre.k as int),
            pre.cur_removed_times_total >= target,
            !ok ==> post.combination_indices2 == pre.combination_indices2,
            !ok ==> pre.stuck(0) || exists|i: int|
                0 <= i < pre.k && pre.stuck(i + 1) && (#[trigger] pre.combination_indices2@[i]) + 1
                    != pre.combination_indices2@[i + 1] && total_from(
                    pre.scores(),
                    raised(pre.combination_indices2@, i, pre.k as int),
                    0,
                    pre.k as int,
                ) >= target,
            ok ==> exists|i: int|
                0 <= i < pre.k && pre.stuck(i + 1) && (#[trigger] pre.combination_indices2@[i]) + 1
                    != pre.combination_indices2@[i + 1] && post.combination_indices2@ == raised(
                    pre.combination_indices2@,
                    i,
                    pre.k as int,
                ) && total_from(
                    pre.scores(),
                    raised(pre.combination_indices2@, i, pre.k as int),
                    0,
                    pre.k as int,
                ) < target,
        ensures
            ok ==> visited(
                post.scores(),
                post.k as int,
                post.held(),
                target as int,
                post.combination_indices2@,
            ),
            ok ==> !hit_before(sol, start, post, target as int, p),
            !ok ==> !hit_any(sol, start, post, target as int, p),
    {
        if ok {
            let i = choose|i: int|
                0 <= i < pre.k && pre.stuck(i + 1) && (#[trigger] pre.combination_indices2@[i]) + 1
                    != pre.combination_indices2@[i + 1] && post.combination_indices2@ == raised(
                    pre.combination_indices2@,
                    i,
                    pre.k as int,
                ) && total_from(
                    pre.scores(),
                    raised(pre.combination_indices2@, i, pre.k as int),
                    0,
                    pre.k as int,
                ) < target;
            lemma_hit_skip(sol, start, pre, post, target as int, p, i);
        } else {
            lemma_hit_same(sol, start, post, pre, target as int, p);
            lemma_hit_end(sol, start, pre, target as int, p);
            lemma_hit_first(sol, start, pre, target as int, p);
        }
    }

    /// The first step of a search whose first subset has a total that is not
    /// below `target`: the subset is passed over and the generator moves on
    /// if it can. Returns whether it did.
    fn pass_over(&mut self, sol: &Sol, route_start: usize, target: u64) -> (ok: bool)
        requires
            old(self).scanning(sol, route_start),
            leads(old(self).combinations.combination_indices2@, old(self).combinations.k as int),
            old(self).combinations.cur_removed_times_total >= target,
        ensures
            final(self).scanning(sol, route_start),
            final(self).data == old(self).data,
            final(self).pickup_idx == old(self).pickup_idx,
            same_catalog(&final(self).combinations, &old(self).combinations),
            ok ==> visited(
                final(self).combinations.scores(),
                final(self).combinations.k as int,
                final(self).combinations.held(),
                target as int,
                final(self).combinations.combination_indices2@,
            ),
            ok ==> !hit_before(
                sol,
                route_start,
                &final(self).combinations,
                target as int,
                old(self).pickup_idx,
            ),
            !ok ==> !hit_any(
                sol,
                route_start,
                &final(self).combinations,
                target as int,
                old(self).pickup_idx,
            ),
            ok ==> tallied_before(
                sol,
                route_start,
                &final(self).combinations,
                target as int,
                old(self).pickup_idx,
                0,
            ),
            !ok ==> tallied(
                sol,
                route_start,
                &final(self).combinations,
                target as int,
                old(self).pickup_idx,
                0,
            ),
    {
        let ghost before = self.combinations;
        let ok = self.combinations.next_combination_with_lower_score(target);
        proof {
            before.lemma_loaded_same(&self.combinations, sol, route_start);
            assert(same_catalog(&self.combinations, &before));
            assert(before.ordered());
            assert(!ok ==> before.stuck(0) || exists|i: int|
                0 <= i < before.k && before.stuck(i + 1) && (#[trigger] before.combination_indices2@[i]) + 1
                    != before.combination_indices2@[i + 1] && total_from(
                    before.scores(),
                    raised(before.combination_indices2@, i, before.k as int),
                    0,
                    before.k as int,
                ) >= target);
            assert(ok ==> exists|i: int|
                0 <= i < before.k && before.stuck(i + 1) && (#[trigger] before.combination_indices2@[i]) + 1
                    != before.combination_indices2@[i + 1] && self.combinations.combination_indices2@ == raised(
                    before.combination_indices2@,
                    i,
                    before.k as int,
                ));
            Self::lemma_passed_over(
                sol,
                route_start,
                &before,
                &self.combinations,
                target,
                self.pickup_idx,
                ok,
            );
            lemma_tally_skip(
                sol,
                route_start,
                &before,
                &self.combinations,
                target as int,
                self.pickup_idx,
                ok,
            );
        }
        ok
    }

    /// Visits subset after subset as long as there is one whose total
    /// ejection count is below `target`.
    fn sweep(&mut self, sol: &Sol, route_start: usize, mov: &mut Move, target: u64, first: bool)
        requires
            old(self).scanning(sol, route_start),
            old(mov).pickup == old(self).pickup_idx,
            old(mov).times > 0 ==> sol.admits(old(mov)),
            first ==> visited(
                old(self).combinations.scores(),
                old(self).combinations.k as int,
                old(self).combinations.held(),
                target as int,
                old(self).combinations.combination_indices2@,
            ),
            first ==> (old(mov).times > 0 <==> hit_before(
                sol,
                route_start,
                &old(self).combinations,
                target as int,
                old(self).pickup_idx,
            )),
            !first ==> (old(mov).times > 0 <==> hit_any(
                sol,
                route_start,
                &old(self).combinations,
                target as int,
                old(self).pickup_idx,
            )),
            old(mov).times > 0 ==> drawn(
                sol,
                route_start,
                &old(self).combinations,
                target as int,
                old(self).pickup_idx,
                old(mov),
            ),
            first ==> tallied_before(
                sol,
                route_start,
                &old(self).combinations,
                target as int,
                old(self).pickup_idx,
                old(mov).times as int,
            ),
            !first ==> tallied(
                sol,
                route_start,
                &old(self).combinations,
                target as int,
                old(self).pickup_idx,
                old(mov).times as int,
            ),
        ensures
            final(mov).times > 0 ==> drawn(
                sol,
                route_start,
                &final(self).combinations,
                target as int,
                old(self).pickup_idx,
                final(mov),
            ),
            tallied(
                sol,
                route_start,
                &final(self).combinations,
                target as int,
                old(self).pickup_idx,
                final(mov).times as int,
            ),
            final(mov).times > 0 <==> hit_any(
                sol,
                route_start,
                &final(self).combinations,
                target as int,
                old(self).pickup_idx,
            ),
            final(self).scanning(sol, route_start),
            final(self).data == old(self).data,
            final(self).pickup_idx == old(self).pickup_idx,
            same_catalog(&final(self).combinations, &old(self).combinations),
            final(mov).pickup == old(mov).pickup,
            final(mov).times >= old(mov).times,
            final(mov).times > 0 ==> sol.admits(final(mov)),
    {
        let mut ok = first;
        while ok
            invariant
                self.scanning(sol, route_start),
                self.data == old(self).data,
                self.pickup_idx == old(self).pickup_idx,
                same_catalog(&self.combinations, &old(self).combinations),
                mov.pickup == old(mov).pickup,
                mov.pickup == self.pickup_idx,
                mov.times >= old(mov).times,
                mov.times > 0 ==> sol.admits(mov),
                ok ==> visited(
                    self.combinations.scores(),
                    self.combinations.k as int,
                    self.combinations.held(),
                    target as int,
                    self.combinations.combination_indices2@,
                ),
                ok ==> (mov.times > 0 <==> hit_before(
                    sol,
                    route_start,
                    &self.combinations,
                    target as int,
                    self.pickup_idx,
                )),
                !ok ==> (mov.times > 0 <==> hit_any(
                    sol,
                    route_start,
                    &self.combinations,
                    target as int,
                    self.pickup_idx,
                )),
                mov.times > 0 ==> drawn(
                    sol,
                    route_start,
                    &self.combinations,
                    target as int,
                    self.pickup_idx,
                    mov,
                ),
                ok ==> tallied_before(
                    sol,
                    route_start,
                    &self.combinations,
                    target as int,
                    self.pickup_idx,
                    mov.times as int,
                ),
                !ok ==> tallied(
                    sol,
                    route_start,
                    &self.combinations,
                    target as int,
                    self.pickup_idx,
                    mov.times as int,
                ),
            decreases
                    if ok {
                        1int
                    } else {
                        0int
                    },
                    self.combinations.held() - self.combinations.combination_indices2@[0],
                    self.combinations.held() - self.combinations.combination_indices2@[1],
                    self.combinations.held() - self.combinations.combination_indices2@[2],
                    self.combinations.held() - self.combinations.combination_indices2@[3],
                    self.combinations.held() - self.combinations.combination_indices2@[4],
                    self.combinations.held() - self.combinations.combination_indices2@[5],
                    self.combinations.held() - self.combinations.combination_indices2@[6],
                    self.combinations.held() - self.combinations.combination_indices2@[7],
                    self.combinations.held() - self.combinations.combination_indices2@[8],
                    self.combinations.held() - self.combinations.combination_indices2@[9],
        {
            ok = self.visit(sol, route_start, mov, target);
        }
    }

    /// Looks for places to insert the pair of the evaluator's pickup into
    /// the route that starts at `route_start` once `k` pairs have left it:
    /// the subsets of `k` pickups of the route are visited in lexicographic
    /// order of the catalog as long as their total ejection count stays
    /// below the count of the pickup to insert, each reduced route is
    /// scanned, and one accepted placement is drawn with equal chances. A
    /// move that comes back can be applied to the solution. There is one
    /// exactly when `k` is less than the number of pickups of the route and
    /// the scan accepts a placement for one of the subsets that the search
    /// scans; in particular whenever the `k` least ejected pickups of the
    /// route, fewer than all, have a total below that count and the scan
    /// accepts a placement once their pairs are gone. The move was found at
    /// one of the scanned subsets: it ejects the `k` pickups of that subset
    /// and nothing else, and its placement is one that the scan accepts in
    /// what is left of the route. Its count is the number of placements
    /// accepted for all scanned subsets together, as far as the counter can
    /// take them.
    pub fn check_add_to_route_with_k_removed(&mut self, sol: &Sol, route_start: usize, k: usize) -> (r:
        Option<Move>)
        requires
            sol.wf(),
            old(self).data == sol.data,
            sol@.has(route_start),
            sol.data.customer(old(self).pickup_idx as int),
            !sol.data.delivers(old(self).pickup_idx as int),
            !sol@.served(old(self).pickup_idx),
            sol.heap.below(MAX_EJECTIONS as int),
            old(self).combinations.quiet(),
            k <= K_MAX,
        ensures
            final(self).data == old(self).data,
            final(self).pickup_idx == old(self).pickup_idx,
            final(self).combinations.quiet(),
            2 * k >= sol@.tours[route_start].len() ==> r is None,
            r matches Some(m) ==> {
                &&& m.pickup == old(self).pickup_idx
                &&& m.times > 0
                &&& sol.admits(&m)
            },
            final(self).combinations.loaded(sol, route_start),
            final(self).combinations.k == k,
            r is Some <==> 2 * k < sol@.tours[route_start].len() && hit_any(
                sol,
                route_start,
                &final(self).combinations,
                sol.heap.times()[old(self).pickup_idx as int] as int,
                old(self).pickup_idx,
            ),
            r matches Some(m) ==> drawn(
                sol,
                route_start,
                &final(self).combinations,
                sol.heap.times()[old(self).pickup_idx as int] as int,
                old(self).pickup_idx,
                &m,
            ),
            r matches Some(m) ==> tallied(
                sol,
                route_start,
                &final(self).combinations,
                sol.heap.times()[old(self).pickup_idx as int] as int,
                old(self).pickup_idx,
                m.times as int,
            ),
            r matches Some(m) ==> {
                &&& forall|i: int|
                    0 <= i < k ==> sol.on_route(#[trigger] m.removed@[i], route_start)
                        && !sol.data.delivers(m.removed@[i] as int)
                &&& forall|i: int, j: int|
                    0 <= i < j < k ==> #[trigger] m.removed@[i] != #[trigger] m.removed@[j]
                &&& forall|i: int| k <= i < K_MAX ==> #[trigger] m.removed@[i] == 0
                &&& total_from(sol.heap.times(), m.removed@, 0, k as int) < sol.heap.times()[old(
                    self).pickup_idx as int]
                &&& chosen(
                    sol.data,
                    sol.latest_feasible_departure@,
                    sift(sol@.tours[route_start], gone_set(sol.data, m.removed@, K_MAX as int)),
                    old(self).pickup_idx,
                    m.placement(),
                )
            },
            (2 * k < sol@.tours[route_start].len() && span(final(self).combinations.scores(), 0, k as int)
                < sol.heap.times()[old(self).pickup_idx as int] && found_first(
                sol,
                route_start,
                &final(self).combinations,
                old(self).pickup_idx,
            )) ==> r is Some,
    {
        let mut mov = Move::new(self.pickup_idx);

        self.combinations.k_combinations_of_route(sol, route_start, k);
        let ghost loaded = self.combinations;

        let pickups_in_route = (self.combinations.route_len - 2) / 2;
        let not_removing_whole_route = k < pickups_in_route;
        if not_removing_whole_route {
            let pickup_removed_times = sol.heap.removed_times[self.pickup_idx];
            proof {
                loaded.lemma_first_subset();
            }
            let ok = self.begin(sol, route_start, &mut mov, pickup_removed_times);
            self.sweep(sol, route_start, &mut mov, pickup_removed_times, ok);
        }
        proof {
            lemma_same_catalog(&self.combinations, &loaded);
            if mov.times > 0 {
                lemma_drawn_ejects(
                    sol,
                    route_start,
                    &self.combinations,
                    sol.heap.times()[self.pickup_idx as int] as int,
                    self.pickup_idx,
                    &mov,
                );
            }
        }
        if mov.is_not_empty() {
            Some(mov)
        } else {
            None
        }
    }

    /// With the pickup in the gap `i`, tries every gap from `i` on for the
    /// delivery, as far as the vehicle stays feasible and is not yet later
    /// than the delivery's due time, and feeds every accepted placement to
    /// `mov`.
    fn check_deliveries(
        &self,
        mov: &mut Move,
        insertion_eval: &mut Eval,
        pickup: usize,
        route: &Vec<usize>,
        i: usize,
        before_pickup: usize,
        sol: &Sol,
    )
        requires
            self.data.wf(),
            scannable(self.data, route@, pickup),
            i < route@.len(),
            old(insertion_eval)@ == ins_at(self.data, route@.drop_last(), pickup, i as int),
            old(insertion_eval)@.feasible(self.data),
            reached(self.data, route@.drop_last(), pickup, i as int),
            before_pickup == stop_at(route@.drop_last(), i - 1),
            old(mov).times <= i * PTS,
            old(mov).times > 0 ==> chosen(
                self.data,
                sol.latest_feasible_departure@,
                route@.drop_last(),
                pickup,
                old(mov).placement(),
            ),
        ensures
            final(mov).times == old(mov).times + found_in_gap(
                self.data,
                sol.latest_feasible_departure@,
                route@.drop_last(),
                pickup,
                i as int,
                route@.len() as int,
            ),
            final(mov).pickup == old(mov).pickup,
            final(mov).removed == old(mov).removed,
            final(mov).times > 0 ==> chosen(
                self.data,
                sol.latest_feasible_departure@,
                route@.drop_last(),
                pickup,
                final(mov).placement(),
            ),
            final(mov).times == old(mov).times ==> final(mov).placement() == old(mov).placement(),
    {
        let ghost t = route@.drop_last();
        let ghost lfd = sol.latest_feasible_departure@;
        let ghost n = t.len() as int;
        let ghost data = self.data;
        proof {
            assert(t.push(pickup).drop_last() =~= t);
            assert(proper(data, t)) by {
                let tp = t.push(pickup);
                assert forall|a: int| 0 <= a < t.len() implies data.customer(#[trigger] t[a] as int) by {
                    assert(tp[a] == t[a]);
                }
                assert forall|a: int, b: int|
                    0 <= a < t.len() && 0 <= b < t.len() && a != b implies t[a] != t[b] by {
                    assert(tp[a] == t[a]);
                    assert(tp[b] == t[b]);
                }
            }
            assert(data.customer(pickup as int)) by {
                assert(t.push(pickup)[n] == pickup);
            }
            lemma_proper_len(data, t.push(pickup));
            assert(data.pair_ok(pickup as int));
        }
        let delivery_idx = self.data.pair_of(pickup);
        let delivery_due = self.data.pts[delivery_idx].due;

        let mut before_delivery = pickup;
        let mut after_delivery = route[i];
        let mut j: usize = i;
        while before_delivery != 0 && insertion_eval.is_feasible(self.data)
            invariant
                data == self.data,
                data.wf(),
                t == route@.drop_last(),
                lfd == sol.latest_feasible_departure@,
                n == t.len(),
                n + 1 == route@.len(),
                route@.last() == 0,
                proper(data, t),
                data.customer(pickup as int),
                n + 1 < data.points,
                delivery_idx == data.pair(pickup as int),
                delivery_idx < data.points,
                delivery_due == data.due_of(delivery_idx as int),
                i <= j <= n + 1,
                i <= n,
                insertion_eval@ == walk(data, t, pickup, i as int, j as int),
                before_delivery == if j == i {
                    pickup as int
                } else {
                    stop(t, j - 1)
                },
                after_delivery == stop(t, j as int),
                reached(data, t, pickup, i as int),
                ins_at(data, t, pickup, i as int).on_time(data),
                forall|k: int|
                    i <= k < j ==> (#[trigger] walk(data, t, pickup, i as int, k)).feasible(data)
                        && walk(data, t, pickup, i as int, k).time <= data.due_of(
                        data.pair(pickup as int),
                    ),
                before_pickup == stop_at(t, i - 1),
                old(mov).times <= i * PTS,
                mov.times == old(mov).times + found_in_gap(data, lfd, t, pickup, i as int, j as int),
                mov.pickup == old(mov).pickup,
                mov.removed == old(mov).removed,
                mov.times > 0 ==> chosen(data, lfd, t, pickup, mov.placement()),
                mov.times == old(mov).times ==> mov.placement() == old(mov).placement(),
                old(mov).times > 0 ==> chosen(data, lfd, t, pickup, old(mov).placement()),
            decreases n + 1 - j,
        {
            proof {
                lemma_walk_within(data, t, pickup, i as int, j as int);
                lemma_within_grows(insertion_eval@, j + 1, PTS as int);
                lemma_found_in_gap_bound(data, lfd, t, pickup, i as int, j as int);
                if j == n + 1 {
                    assert(stop(t, n) == 0);
                }
                assert(j <= n);
                assert(examined(data, t, pickup, i as int, j as int));
                assert(route@[j as int] == stop(t, j as int)) by {
                    if j < n {
                        assert(t[j as int] == route@[j as int]);
                    }
                }
                if i > 0 {
                    assert(t[i - 1] == route@[i - 1]);
                }
            }
            if insertion_eval.can_delivery_be_inserted(
                delivery_idx,
                after_delivery,
                self.data,
                sol.latest_feasible_departure[after_delivery],
            ) {
                proof {
                    assert(accepted(data, lfd, t, pickup, i as int, j as int));
                }
                mov.maybe_switch(
                    &Between(before_pickup, after_pickup_of(route, i)),
                    &Between(before_delivery, after_delivery),
                );
                proof {
                    assert((Between(before_pickup, route@[i as int]), Between(before_delivery, after_delivery))
                        == (pickup_gap(t, i as int), delivery_gap(t, pickup, i as int, j as int))) by {
                        if i < n {
                            assert(t[i as int] == route@[i as int]);
                        }
                        if j > i {
                            assert(t[j - 1] == route@[j - 1]);
                        }
                    }
                }
            }
            proof {
                assert(found_in_gap(data, lfd, t, pickup, i as int, j + 1) == found_in_gap(
                    data,
                    lfd,
                    t,
                    pickup,
                    i as int,
                    j as int,
                ) + if accepted(data, lfd, t, pickup, i as int, j as int) {
                    1nat
                } else {
                    0nat
                });
            }

            let too_late_for_delivery = insertion_eval.time > delivery_due;
            if too_late_for_delivery {
                proof {
                    assert forall|m: int| j + 1 <= m < n + 1 implies !#[trigger] accepted(
                        data,
                        lfd,
                        t,
                        pickup,
                        i as int,
                        m,
                    ) by {
                        if examined(data, t, pickup, i as int, m) {
                            assert(walk(data, t, pickup, i as int, j as int).time <= data.due_of(
                                data.pair(pickup as int),
                            ));
                        }
                    }
                    lemma_found_in_gap_stops(data, lfd, t, pickup, i as int, j + 1, n + 1);
                }
                return ;
            }
            insertion_eval.next(after_delivery, self.data);
            before_delivery = after_delivery;
            j += 1;
            after_delivery = if j < route.len() {
                route[j]
            } else {
                0
            };
            proof {
                if j < n {
                    assert(t[j as int] == route@[j as int]);
                }
            }
        }
        proof {
            if j <= n {
                lemma_walk_within(data, t, pickup, i as int, j as int);
                if j > i {
                    assert(data.customer(t[j - 1] as int));
                }
                assert(!walk(data, t, pickup, i as int, j as int).feasible(data));
                assert forall|m: int| j <= m < n + 1 implies !#[trigger] accepted(
                    data,
                    lfd,
                    t,
                    pickup,
                    i as int,
                    m,
                ) by {
                    if examined(data, t, pickup, i as int, m) {
                        if m > j {
                            assert(walk(data, t, pickup, i as int, j as int).feasible(data));
                        }
                    }
                }
                lemma_found_in_gap_stops(data, lfd, t, pickup, i as int, j as int, n + 1);
            }
        }
    }

    /// Scans `route`, a sequence of customers followed by the depot, for
    /// places to insert the pair of `pickup`: every gap for the pickup until
    /// the pickup would be late, and for each of them every gap for the
    /// delivery. The move that comes back counts the accepted placements and
    /// holds one of them, drawn with equal chances.
    pub fn check_insertions_into_route(&self, pickup: usize, route: &Vec<usize>, sol: &Sol) -> (mov:
        Move)
        requires
            self.data.wf(),
            scannable(self.data, route@, pickup),
        ensures
            mov.pickup == pickup,
            mov.removed@ == Seq::new(K_MAX as nat, |i: int| 0usize),
            mov.times == found_all(
                self.data,
                sol.latest_feasible_departure@,
                route@.drop_last(),
                pickup,
            ),
            mov.times > 0 ==> chosen(
                self.data,
                sol.latest_feasible_departure@,
                route@.drop_last(),
                pickup,
                mov.placement(),
            ),
            mov.times == 0 ==> mov.placement() == (
                Between(UNSERVED, UNSERVED),
                Between(UNSERVED, UNSERVED),
            ),
    {
        let ghost t = route@.drop_last();
        let ghost lfd = sol.latest_feasible_departure@;
        let ghost n = t.len() as int;
        let ghost data = self.data;
        proof {
            assert(t.push(pickup).drop_last() =~= t);
            assert(proper(data, t)) by {
                let tp = t.push(pickup);
                assert forall|a: int| 0 <= a < t.len() implies data.customer(#[trigger] t[a] as int) by {
                    assert(tp[a] == t[a]);
                }
                assert forall|a: int, b: int|
                    0 <= a < t.len() && 0 <= b < t.len() && a != b implies t[a] != t[b] by {
                    assert(tp[a] == t[a]);
                    assert(tp[b] == t[b]);
                }
            }
            assert(data.customer(pickup as int)) by {
                assert(t.push(pickup)[n] == pickup);
            }
            lemma_proper_len(data, t.push(pickup));
            assert(eval_at(data, t, -1) == crate::eval::EvalView::origin());
        }
        let mut mov = Move::new(pickup);

        let mut before_pickup: usize = 0;
        let mut normal_route_eval = Eval::new();
        let mut insertion_eval = Eval::new();

        let mut i: usize = 0;
        while i < route.len()
            invariant
                data == self.data,
                data.wf(),
                scannable(data, route@, pickup),
                t == route@.drop_last(),
                lfd == sol.latest_feasible_departure@,
                n == t.len(),
                n + 1 == route@.len(),
                route@.last() == 0,
                proper(data, t),
                data.customer(pickup as int),
                n + 1 < data.points,
                0 <= i <= n + 1,
                normal_route_eval@ == eval_at(data, t, i - 1),
                before_pickup == stop_at(t, i - 1),
                reached(data, t, pickup, i as int),
                mov.pickup == pickup,
                mov.removed@ == Seq::new(K_MAX as nat, |i: int| 0usize),
                mov.times == found(data, lfd, t, pickup, i as int),
                mov.times <= i * PTS,
                mov.times > 0 ==> chosen(data, lfd, t, pickup, mov.placement()),
                mov.times == 0 ==> mov.placement() == (
                    Between(UNSERVED, UNSERVED),
                    Between(UNSERVED, UNSERVED),
                ),
            decreases n + 1 - i,
        {
            let after_pickup = route[i];
            proof {
                lemma_eval_within(data, t, i - 1);
                lemma_within_grows(normal_route_eval@, i as int, PTS as int);
                assert(after_pickup == stop(t, i as int)) by {
                    if i < n {
                        assert(t[i as int] == route@[i as int]);
                    }
                }
                lemma_eval_within(data, t, i as int);
            }
            insertion_eval.reset_to(&normal_route_eval);
            insertion_eval.next(pickup, self.data);

            if insertion_eval.arrives_too_late(self.data) {
                proof {
                    lemma_found_stops(data, lfd, t, pickup, i as int, n + 1);
                }
                return mov;
            }
            if insertion_eval.is_feasible(self.data) {
                self.check_deliveries(
                    &mut mov,
                    &mut insertion_eval,
                    pickup,
                    route,
                    i,
                    before_pickup,
                    sol,
                );
            } else {
                proof {
                    let g = i as int;
                    assert forall|m: int| !#[trigger] accepted(data, lfd, t, pickup, g, m) by {
                        if examined(data, t, pickup, g, m) {
                            if m > g {
                                assert(walk(data, t, pickup, g, g).feasible(data));
                            }
                        }
                    }
                    lemma_found_in_gap_none(data, lfd, t, pickup, g, n + 1);
                }
            }
            proof {
                lemma_found_in_gap_bound(data, lfd, t, pickup, i as int, n + 1);
                assert((i + 1) * PTS == i * PTS + PTS) by (nonlinear_arith);
                assert forall|k: int| 0 <= k < i + 1 implies (#[trigger] ins_at(
                    data,
                    t,
                    pickup,
                    k,
                )).on_time(data) by {}
            }
            normal_route_eval.next(after_pickup, self.data);
            before_pickup = after_pickup;
            i += 1;
        }
        mov
    }
}

/// The gaps number `i` and `j` of the route `r` take the unserved pair
/// `(p, d)`, and the route is then the old one with the two nodes in these
/// gaps.
pub proof fn lemma_gaps_fit(l: Layout, points: int, r: usize, p: usize, d: usize, i: int, j: int)
    requires
        l.wf(points),
        l.has(r),
        !l.served(p),
        !l.served(d),
        p != d,
        0 < p < points,
        0 < d < points,
        0 <= i <= j <= l.tours[r].len(),
    ensures
        l.takes(
            points,
            p,
            (pickup_gap(l.tours[r], i).0, pickup_gap(l.tours[r], i).1),
            d,
            (delivery_gap(l.tours[r], p, i, j).0, delivery_gap(l.tours[r], p, i, j).1),
        ),
        l.put(
            p,
            (pickup_gap(l.tours[r], i).0, pickup_gap(l.tours[r], i).1),
            d,
            (delivery_gap(l.tours[r], p, i, j).0, delivery_gap(l.tours[r], p, i, j).1),
        ).tour_of(p) == inserted(l.tours[r], p, d, i, j),
{
    let t = l.tours[r];
    let pb = (pickup_gap(t, i).0, pickup_gap(t, i).1);
    let db = (delivery_gap(t, p, i, j).0, delivery_gap(t, p, i, j).1);
    if i > 0 {
        assert(l.served(l.tours[r][i - 1]));
        l.lemma_neighbours(points, t[i - 1]);
    }
    if i < t.len() {
        assert(l.served(l.tours[r][i]));
        assert(l.slot[l.tours[r][i]] == i);
    }
    assert(l.gap(pb.0, pb.1));
    assert(l.gap_owner(pb.0, pb.1) == r) by {
        if i == 0 {
            assert(l.owner[l.tours[r][0]] == r);
        } else {
            assert(l.owner[l.tours[r][i - 1]] == r);
        }
    }
    assert(l.gap_slot(pb.0, pb.1) == i) by {
        if i > 0 {
            assert(l.slot[l.tours[r][i - 1]] == i - 1);
        }
    }
    l.lemma_attach(points, p, pb.0, pb.1);
    let l1 = l.attach(p, pb.0, pb.1);
    let t1 = t.insert(i, p);
    t.insert_ensures(i, p);
    assert(l1.tour_of(p) == t1);
    assert(l1.slot[p] == i);
    if j > i {
        assert(l.served(l.tours[r][j - 1]));
        assert(l.owner[l.tours[r][j - 1]] == r);
        assert(l.slot[l.tours[r][j - 1]] == j - 1);
        l.lemma_neighbours(points, t[j - 1]);
        assert(l1.served(t[j - 1]));
        assert(l1.slot[t[j - 1]] == j);
        assert(l1.succ(t[j - 1]) == stop_at(t, j)) by {
            if i > 0 {
                assert(l.slot[l.tours[r][i - 1]] == i - 1);
            }
        }
        assert(l1.owner[t[j - 1]] == l1.owner[p]);
    }
    assert(l1.gap(db.0, db.1));
    assert(l1.gap_owner(db.0, db.1) == l1.owner[p]);
    assert(l1.gap_slot(db.0, db.1) == j + 1);
    l1.lemma_attach(points, d, db.0, db.1);
    let l2 = l1.attach(d, db.0, db.1);
    assert(l2.tour_of(d) == t1.insert(j + 1, d));
    assert(l2.slot[d] == j + 1);
    assert(l2.slot[p] == i);
    assert(l2.owner[p] == l2.owner[d]);
    assert(l2.tour_of(p) == l2.tour_of(d));
}

/// A placement that the scan accepts in a route without the pairs of some of
/// its pickups makes a move that can be applied: the ejections are possible
/// one after the other, the gaps exist once they are made, and the route
/// that takes the pair is feasible.
pub proof fn lemma_reduced_sound(sol: &Sol, start: usize, m: &Move, i: int, j: int)
    requires
        sol.wf(),
        sol@.has(start),
        sol.data.customer(m.pickup as int),
        !sol.data.delivers(m.pickup as int),
        !sol@.served(m.pickup),
        sol.heap.below(MAX_EJECTIONS as int),
        crate::eject::lists_pickups(sol@, sol.data, m.removed@, start, K_MAX as int),
        sift(sol@.tours[start], gone_set(sol.data, m.removed@, K_MAX as int)).len() > 0,
        accepted(
            sol.data,
            sol.latest_feasible_departure@,
            sift(sol@.tours[start], gone_set(sol.data, m.removed@, K_MAX as int)),
            m.pickup,
            i,
            j,
        ),
        m.placement() == (
            pickup_gap(sift(sol@.tours[start], gone_set(sol.data, m.removed@, K_MAX as int)), i),
            delivery_gap(
                sift(sol@.tours[start], gone_set(sol.data, m.removed@, K_MAX as int)),
                m.pickup,
                i,
                j,
            ),
        ),
    ensures
        sol.admits(m),
{
    let l = sol@;
    let data = sol.data;
    let n = data.points as int;
    let s = l.tours[start];
    let p = m.pickup;
    let d = data.pair(p as int) as usize;
    let lfd = sol.latest_feasible_departure@;
    let removed = m.removed@;
    let g = gone_set(data, removed, K_MAX as int);
    let t = sift(s, g);
    let lj = ejected(l, data, removed, K_MAX as int);
    sol.lemma_route_shape(start);
    lemma_sift_holds(s, g);
    lemma_run(l, data, removed, start, K_MAX as int);
    assert(data.pair_ok(p as int));
    assert(!l.served(d)) by {
        if l.served(d) {
            assert(mated(l, data, d));
        }
    }
    let first = t[0];
    assert(t.contains(t[0]));
    let kk = choose|kk: int| 0 <= kk < s.len() && s[kk] == first;
    assert(l.served(l.tours[start][kk]));
    assert(lj.served(first));
    assert(l.owner[first] == start);
    assert(lj.tour_of(first) == t);
    assert(lj.owner[first] == t[0]);
    assert(lj.has(first));
    assert(!lj.served(p));
    assert(!lj.served(d));
    lemma_gaps_fit(lj, n, first, p, d, i, j);
    lemma_tour_coupled(lj, data, first);
    assert(feasible(data, lj.tours[first]));
    assert(lfd[stop(t, j)] <= lfd_at(data, t, j)) by {
        assert(lfd_at(data, t, j) >= lfd_at(data, s, origin_of(s, t, j)));
        if j < t.len() {
            let x = t[j];
            assert(t.contains(t[j]));
            let k2 = choose|k2: int| 0 <= k2 < s.len() && s[k2] == x;
            assert(l.served(l.tours[start][k2]));
            assert(sol.cached_at(x));
            assert(l.tour_of(x) == s);
            lemma_index_of(s, l.slot[x]);
        }
    }
    lemma_accepted_feasible(data, lfd, t, p, i, j);
    assert(fits_in(lj, data, m));
    assert(!listed(removed, K_MAX as int, p)) by {
        if listed(removed, K_MAX as int, p) {
            let k0 = choose|k0: int| 0 <= k0 < K_MAX && removed[k0] == p;
            assert(l.served(removed[k0]));
        }
    }
    assert forall|k0: int| 0 <= k0 < removed.len() && removed[k0] != 0 implies {
        let v = #[trigger] removed[k0];
        &&& data.customer(v as int)
        &&& !data.delivers(v as int)
        &&& ejected(l, data, removed, k0).served(v)
        &&& sol.heap.times()[v as int] < u64::MAX
    } by {
        assert(l.served(removed[k0]));
        assert(sol.heap.times()[removed[k0] as int] <= MAX_EJECTIONS);
    }
}

/// Two generators hold the same catalog for the same number of ejections.
pub open spec fn same_catalog(a: &Combinations, b: &Combinations) -> bool {
    &&& a.k == b.k
    &&& a.route_len == b.route_len
    &&& a.pickups == b.pickups
}

/// Generators that hold the same catalog agree on what depends on it.
pub proof fn lemma_same_catalog(a: &Combinations, b: &Combinations)
    requires
        same_catalog(a, b),
    ensures
        a.scores() == b.scores(),
        a.first_ids() == b.first_ids(),
        a.held() == b.held(),
{
    assert(a.first_ids() =~= b.first_ids());
}

/// The scan accepts a placement of the pair of `p` in the route `start`
/// without the pairs that the current subset of `comb` ejects, of which
/// something is left.
pub open spec fn found_here(sol: &Sol, start: usize, comb: &Combinations, p: usize) -> bool {
    found_with(sol, start, comb.subset_ids(), p)
}

/// The scan accepts a placement of the pair of `p` in the route `start`
/// without the pairs of the `k` least ejected pickups of the catalog of
/// `comb`, of which something is left.
pub open spec fn found_first(sol: &Sol, start: usize, comb: &Combinations, p: usize) -> bool {
    found_with(sol, start, comb.first_ids(), p)
}

/// The scan accepts a placement of the pair of `p` in the route `start`
/// without the pairs of the pickups listed in `removed`, of which something
/// is left.
pub open spec fn found_with(sol: &Sol, start: usize, removed: Seq<usize>, p: usize) -> bool {
    let t = sift(sol@.tours[start], gone_set(sol.data, removed, K_MAX as int));
    t.len() > 0 && found_all(sol.data, sol.latest_feasible_departure@, t, p) > 0
}

/// The search with the limit `target` scans the subset `x` of the catalog of
/// `comb`, and the scan accepts a placement of the pair of `p` in the route
/// `start` without the pairs that `x` ejects.
#[verifier::opaque]
pub open spec fn hit_by(
    sol: &Sol,
    start: usize,
    comb: &Combinations,
    target: int,
    p: usize,
    x: Seq<usize>,
) -> bool {
    &&& visited(comb.scores(), comb.k as int, comb.held(), target, x)
    &&& found_with(sol, start, ids_at(comb.pickups@, comb.k as int, x), p)
}

/// What is left of the route `start` once the pairs of the pickups of the
/// current subset of `comb` have left it.
#[verifier::opaque]
pub open spec fn left_here(sol: &Sol, start: usize, comb: &Combinations) -> Seq<usize> {
    sift(sol@.tours[start], gone_set(sol.data, comb.subset_ids(), K_MAX as int))
}

/// The current subset of a generator is the subset at its indices.
pub proof fn lemma_left_here(sol: &Sol, start: usize, comb: &Combinations)
    ensures
        comb.subset_ids() == ids_at(comb.pickups@, comb.k as int, comb.combination_indices2@),
        left_here(sol, start, comb) == reduced(sol, start, comb, comb.combination_indices2@),
{
    reveal(left_here);
    assert(comb.subset_ids() =~= ids_at(comb.pickups@, comb.k as int, comb.combination_indices2@));
}

/// What is left of the route `start` once the pairs of the pickups at the
/// catalog positions `x` have left it.
pub open spec fn reduced(sol: &Sol, start: usize, comb: &Combinations, x: Seq<usize>) -> Seq<usize> {
    sift(
        sol@.tours[start],
        gone_set(sol.data, ids_at(comb.pickups@, comb.k as int, x), K_MAX as int),
    )
}

/// Number of placements that the scan accepts for the pair of `p` in the
/// route `start` without the pairs of the pickups at the catalog positions
/// `x`; none when nothing is left of the route.
pub open spec fn found_at(sol: &Sol, start: usize, comb: &Combinations, p: usize, x: Seq<usize>) -> nat {
    if reduced(sol, start, comb, x).len() > 0 {
        found_all(sol.data, sol.latest_feasible_departure@, reduced(sol, start, comb, x), p)
    } else {
        0
    }
}

/// The move `m` was found at the subset `x`: the search with the limit
/// `target` scans `x` and finds a placement there, `m` ejects the pickups at
/// the catalog positions `x` and no others, and its placement is one that
/// the scan accepts in what is left of the route.
pub open spec fn drawn_at(
    sol: &Sol,
    start: usize,
    comb: &Combinations,
    target: int,
    p: usize,
    m: &Move,
    x: Seq<usize>,
) -> bool {
    &&& hit_by(sol, start, comb, target, p, x)
    &&& m.removed@ == ids_at(comb.pickups@, comb.k as int, x)
    &&& chosen(
        sol.data,
        sol.latest_feasible_departure@,
        reduced(sol, start, comb, x),
        p,
        m.placement(),
    )
}

/// The move `m` was found at one of the subsets that the search with the
/// limit `target` scans.
pub open spec fn drawn(
    sol: &Sol,
    start: usize,
    comb: &Combinations,
    target: int,
    p: usize,
    m: &Move,
) -> bool {
    exists|x: Seq<usize>| drawn_at(sol, start, comb, target, p, m, x)
}

/// Number of placements that the scan accepts for the pair of `p` in the
/// route `start` for the subsets listed in `xs`, all together.
pub open spec fn tally(
    sol: &Sol,
    start: usize,
    comb: &Combinations,
    p: usize,
    xs: Seq<Seq<usize>>,
) -> nat
    decreases xs.len(),
{
    if xs.len() == 0 {
        0
    } else {
        tally(sol, start, comb, p, xs.drop_last()) + found_at(sol, start, comb, p, xs.last())
    }
}

/// `count` is the number of placements that the scan accepts for the
/// subsets that the search with the limit `target` scans before it comes to
/// the current subset of `comb`.
#[verifier::opaque]
pub open spec fn tallied_before(
    sol: &Sol,
    start: usize,
    comb: &Combinations,
    target: int,
    p: usize,
    count: int,
) -> bool {
    exists|xs: Seq<Seq<usize>>|
        lists_before(comb.scores(), comb.k as int, comb.held(), target, xs, comb.combination_indices2@)
            && count == #[trigger] tally(sol, start, comb, p, xs)
}

/// `count` is the number of placements that the scan accepts for all the
/// subsets that the search with the limit `target` scans, or, where that
/// number does not fit the counter of a move, for those of them that come
/// before the first subset whose placements the counter cannot take.
#[verifier::opaque]
pub open spec fn tallied(
    sol: &Sol,
    start: usize,
    comb: &Combinations,
    target: int,
    p: usize,
    count: int,
) -> bool {
    exists|xs: Seq<Seq<usize>>|
        count == #[trigger] tally(sol, start, comb, p, xs) && (lists_all(
            comb.scores(),
            comb.k as int,
            comb.held(),
            target,
            xs,
        ) || exists|c: Seq<usize>| #[trigger]
            visited(comb.scores(), comb.k as int, comb.held(), target, c) && lists_before(
                comb.scores(),
                comb.k as int,
                comb.held(),
                target,
                xs,
                c,
            ) && count + found_at(sol, start, comb, p, c) > usize::MAX)
}

/// A tally depends on the catalog, not on the subset at which the generator
/// stands.
pub proof fn lemma_tally_same(
    sol: &Sol,
    start: usize,
    a: &Combinations,
    b: &Combinations,
    p: usize,
    xs: Seq<Seq<usize>>,
)
    requires
        same_catalog(a, b),
    ensures
        tally(sol, start, a, p, xs) == tally(sol, start, b, p, xs),
    decreases xs.len(),
{
    if xs.len() > 0 {
        lemma_tally_same(sol, start, a, b, p, xs.drop_last());
    }
}

/// One more subset adds its placements to the tally.
pub proof fn lemma_tally_push(
    sol: &Sol,
    start: usize,
    comb: &Combinations,
    p: usize,
    xs: Seq<Seq<usize>>,
    c: Seq<usize>,
)
    ensures
        tally(sol, start, comb, p, xs.push(c)) == tally(sol, start, comb, p, xs) + found_at(
            sol,
            start,
            comb,
            p,
            c,
        ),
{
    assert(xs.push(c).drop_last() =~= xs);
    assert(xs.push(c).last() == c);
}

/// Before the first subset nothing has been tallied.
pub proof fn lemma_tally_first(sol: &Sol, start: usize, comb: &Combinations, target: int, p: usize)
    requires
        comb.ordered(),
        leads(comb.combination_indices2@, comb.k as int),
    ensures
        tallied_before(sol, start, comb, target, p, 0),
{
    reveal(tallied_before);
    reveal(tallied);
    comb.lemma_list_first(target);
    assert(tally(sol, start, comb, p, Seq::empty()) == 0);
}

/// What a step of the search leaves of the tally: once the subset of `pre`
/// has been scanned, with `got` placements, and the generator has tried to
/// move on, the tally up to the new subset, or of all that the search scans
/// if the generator did not move, is the old one and `got`.
pub proof fn lemma_tally_on(
    sol: &Sol,
    start: usize,
    pre: &Combinations,
    post: &Combinations,
    target: int,
    p: usize,
    ok: bool,
    count: int,
    got: int,
)
    requires
        pre.ordered(),
        same_catalog(post, pre),
        visited(pre.scores(), pre.k as int, pre.held(), target, pre.combination_indices2@),
        tallied_before(sol, start, pre, target, p, count),
        got == found_at(sol, start, pre, p, pre.combination_indices2@),
        !ok ==> pre.stuck(0) || exists|i: int|
            0 <= i < pre.k && pre.stuck(i + 1) && (#[trigger] pre.combination_indices2@[i]) + 1
                != pre.combination_indices2@[i + 1] && total_from(
                pre.scores(),
                raised(pre.combination_indices2@, i, pre.k as int),
                0,
                pre.k as int,
            ) >= target,
        ok ==> exists|i: int|
            0 <= i < pre.k && pre.stuck(i + 1) && (#[trigger] pre.combination_indices2@[i]) + 1
                != pre.combination_indices2@[i + 1] && post.combination_indices2@ == raised(
                pre.combination_indices2@,
                i,
                pre.k as int,
            ),
    ensures
        ok ==> tallied_before(sol, start, post, target, p, count + got),
        !ok ==> tallied(sol, start, post, target, p, count + got),
{
    reveal(tallied_before);
    reveal(tallied);
    let c = pre.combination_indices2@;
    let xs = choose|xs: Seq<Seq<usize>>|
        lists_before(pre.scores(), pre.k as int, pre.held(), target, xs, c) && count == #[trigger] tally(
            sol,
            start,
            pre,
            p,
            xs,
        );
    let ys = xs.push(c);
    lemma_same_catalog(post, pre);
    lemma_tally_push(sol, start, pre, p, xs, c);
    lemma_tally_same(sol, start, pre, post, p, ys);
    if ok {
        let i = choose|i: int|
            0 <= i < pre.k && pre.stuck(i + 1) && (#[trigger] pre.combination_indices2@[i]) + 1
                != pre.combination_indices2@[i + 1] && post.combination_indices2@ == raised(
                pre.combination_indices2@,
                i,
                pre.k as int,
            );
        pre.lemma_list_next(i, target, xs);
        assert(count + got == tally(sol, start, post, p, ys));
    } else {
        pre.lemma_list_end(target, xs);
        assert(count + got == tally(sol, start, post, p, ys));
    }
}

/// Where the counter of a move cannot take the placements of the current
/// subset, the tally stops before it.
pub proof fn lemma_tally_cut(
    sol: &Sol,
    start: usize,
    comb: &Combinations,
    target: int,
    p: usize,
    count: int,
)
    requires
        visited(comb.scores(), comb.k as int, comb.held(), target, comb.combination_indices2@),
        tallied_before(sol, start, comb, target, p, count),
        count + found_at(sol, start, comb, p, comb.combination_indices2@) > usize::MAX,
    ensures
        tallied(sol, start, comb, target, p, count),
{
    reveal(tallied_before);
    reveal(tallied);
    let c = comb.combination_indices2@;
    let xs = choose|xs: Seq<Seq<usize>>|
        lists_before(comb.scores(), comb.k as int, comb.held(), target, xs, c) && count
            == #[trigger] tally(sol, start, comb, p, xs);
    assert(visited(comb.scores(), comb.k as int, comb.held(), target, c) && lists_before(
        comb.scores(),
        comb.k as int,
        comb.held(),
        target,
        xs,
        c,
    ) && count + found_at(sol, start, comb, p, c) > usize::MAX);
}

/// What the first step of the search leaves of the tally when it passes
/// over the first subset: nothing.
pub proof fn lemma_tally_skip(
    sol: &Sol,
    start: usize,
    pre: &Combinations,
    post: &Combinations,
    target: int,
    p: usize,
    ok: bool,
)
    requires
        pre.ordered(),
        same_catalog(post, pre),
        leads(pre.combination_indices2@, pre.k as int),
        pre.cur_removed_times_total >= target,
        !ok ==> pre.stuck(0) || exists|i: int|
            0 <= i < pre.k && pre.stuck(i + 1) && (#[trigger] pre.combination_indices2@[i]) + 1
                != pre.combination_indices2@[i + 1] && total_from(
                pre.scores(),
                raised(pre.combination_indices2@, i, pre.k as int),
                0,
                pre.k as int,
            ) >= target,
        ok ==> exists|i: int|
            0 <= i < pre.k && pre.stuck(i + 1) && (#[trigger] pre.combination_indices2@[i]) + 1
                != pre.combination_indices2@[i + 1] && post.combination_indices2@ == raised(
                pre.combination_indices2@,
                i,
                pre.k as int,
            ),
    ensures
        ok ==> tallied_before(sol, start, post, target, p, 0),
        !ok ==> tallied(sol, start, post, target, p, 0),
{
    reveal(tallied_before);
    reveal(tallied);
    lemma_same_catalog(post, pre);
    let none = Seq::<Seq<usize>>::empty();
    assert(tally(sol, start, post, p, none) == 0);
    if ok {
        let i = choose|i: int|
            0 <= i < pre.k && pre.stuck(i + 1) && (#[trigger] pre.combination_indices2@[i]) + 1
                != pre.combination_indices2@[i + 1] && post.combination_indices2@ == raised(
                pre.combination_indices2@,
                i,
                pre.k as int,
            );
        pre.lemma_list_skip(i, target);
    } else {
        pre.lemma_list_none(target);
    }
}

/// A move found at the current subset of a generator, which the search
/// scans, was found at one of the subsets that the search scans.
pub proof fn lemma_drawn_here(
    sol: &Sol,
    start: usize,
    comb: &Combinations,
    target: int,
    p: usize,
    m: &Move,
)
    requires
        comb.ordered(),
        visited(comb.scores(), comb.k as int, comb.held(), target, comb.combination_indices2@),
        found_here(sol, start, comb, p),
        m.removed@ == comb.subset_ids(),
        chosen(sol.data, sol.latest_feasible_departure@, left_here(sol, start, comb), p, m.placement()),
    ensures
        drawn(sol, start, comb, target, p, m),
{
    lemma_hit_here(sol, start, comb, target, p);
    lemma_left_here(sol, start, comb);
    assert(drawn_at(sol, start, comb, target, p, m, comb.combination_indices2@));
}

/// Two totals over positions that hold the same values, one by one, are
/// the same.
pub proof fn lemma_total_alike(
    a: Seq<u64>,
    x: Seq<usize>,
    b: Seq<u64>,
    y: Seq<usize>,
    from: int,
    k: int,
)
    requires
        forall|j: int| from <= j < k ==> a[#[trigger] x[j] as int] == b[y[j] as int],
    ensures
        total_from(a, x, from, k) == total_from(b, y, from, k),
    decreases k - from,
{
    if from < k {
        assert(a[x[from] as int] == b[y[from] as int]);
        lemma_total_alike(a, x, b, y, from + 1, k);
    }
}

/// What a move found by the search with the limit `target` ejects: `k`
/// different pickups of the route, whose ejection counts add up to less
/// than the limit, and nothing else; and its placement is one that the scan
/// accepts in what the ejections leave of the route.
pub proof fn lemma_drawn_ejects(
    sol: &Sol,
    start: usize,
    comb: &Combinations,
    target: int,
    p: usize,
    m: &Move,
)
    requires
        sol.wf(),
        sol@.has(start),
        comb.loaded(sol, start),
        comb.k <= comb.held(),
        drawn(sol, start, comb, target, p, m),
    ensures
        forall|i: int|
            0 <= i < comb.k ==> sol.on_route(#[trigger] m.removed@[i], start) && !sol.data.delivers(
                m.removed@[i] as int,
            ),
        forall|i: int, j: int|
            0 <= i < j < comb.k ==> #[trigger] m.removed@[i] != #[trigger] m.removed@[j],
        forall|i: int| comb.k <= i < K_MAX ==> #[trigger] m.removed@[i] == 0,
        total_from(sol.heap.times(), m.removed@, 0, comb.k as int) < target,
        chosen(
            sol.data,
            sol.latest_feasible_departure@,
            sift(sol@.tours[start], gone_set(sol.data, m.removed@, K_MAX as int)),
            p,
            m.placement(),
        ),
{
    let x = choose|x: Seq<usize>| drawn_at(sol, start, comb, target, p, m, x);
    let k = comb.k as int;
    let scores = comb.scores();
    assert(visited(scores, k, comb.held(), target, x)) by {
        reveal(hit_by);
    }
    lemma_visited_subset(scores, k, comb.held(), target, x);
    sol.lemma_route_shape(start);
    assert(m.removed@ == ids_at(comb.pickups@, k, x));
    assert forall|i: int| 0 <= i < k implies sol.on_route(#[trigger] m.removed@[i], start)
        && !sol.data.delivers(m.removed@[i] as int) && sol.heap.times()[m.removed@[i] as int]
        == scores[x[i] as int] by {
        assert(x[i] < comb.held());
        let e = comb.pickups@[x[i] as int];
        assert(e == info_of(sol, e.id));
        assert(m.removed@[i] == ids_at(comb.pickups@, k, x)[i]);
        assert(m.removed@[i] == e.id);
        assert(scores[x[i] as int] == e.removed_times);
    }
    assert forall|i: int, j: int| 0 <= i < j < k implies #[trigger] m.removed@[i]
        != #[trigger] m.removed@[j] by {
        lemma_subset_spread(x, k, comb.held(), i, j);
        assert(x[i] < comb.held() && x[j] < comb.held());
        assert(comb.pickups@[x[i] as int].id != comb.pickups@[x[j] as int].id);
    }
    lemma_total_alike(sol.heap.times(), m.removed@, scores, x, 0, k);
}

/// Where a move was found depends on its placement and its ejections, not
/// on its count, and on the catalog, not on the subset at which the
/// generator stands.
pub proof fn lemma_drawn_same(
    sol: &Sol,
    start: usize,
    a: &Combinations,
    b: &Combinations,
    target: int,
    p: usize,
    m: &Move,
    n: &Move,
)
    requires
        same_catalog(a, b),
        drawn(sol, start, a, target, p, m),
        n.removed == m.removed,
        n.placement() == m.placement(),
    ensures
        drawn(sol, start, b, target, p, n),
{
    let x = choose|x: Seq<usize>| drawn_at(sol, start, a, target, p, m, x);
    lemma_hit_same(sol, start, a, b, target, p);
    assert(hit_by(sol, start, a, target, p, x));
    assert(drawn_at(sol, start, b, target, p, n, x));
}

/// The scan accepts a placement for a subset that the search scans before
/// the current subset of `comb`.
pub open spec fn hit_before(sol: &Sol, start: usize, comb: &Combinations, target: int, p: usize) -> bool {
    exists|x: Seq<usize>| #[trigger]
        hit_by(sol, start, comb, target, p, x) && comes_before(
            x,
            comb.combination_indices2@,
            comb.k as int,
        )
}

/// The scan accepts a placement for one of the subsets that the search with
/// the limit `target` scans.
pub open spec fn hit_any(sol: &Sol, start: usize, comb: &Combinations, target: int, p: usize) -> bool {
    exists|x: Seq<usize>| hit_by(sol, start, comb, target, p, x)
}

/// What the search finds depends on the catalog, not on the subset at which
/// the generator stands.
pub proof fn lemma_hit_same(
    sol: &Sol,
    start: usize,
    a: &Combinations,
    b: &Combinations,
    target: int,
    p: usize,
)
    requires
        same_catalog(a, b),
    ensures
        forall|x: Seq<usize>|
            #[trigger] hit_by(sol, start, a, target, p, x) == hit_by(sol, start, b, target, p, x),
        hit_any(sol, start, a, target, p) == hit_any(sol, start, b, target, p),
        a.combination_indices2 == b.combination_indices2 ==> hit_before(sol, start, a, target, p)
            == hit_before(sol, start, b, target, p),
{
    reveal(hit_by);
    lemma_same_catalog(a, b);
    assert forall|x: Seq<usize>|
        #[trigger] hit_by(sol, start, a, target, p, x) == hit_by(sol, start, b, target, p, x) by {}
    if hit_any(sol, start, a, target, p) {
        let x = choose|x: Seq<usize>| hit_by(sol, start, a, target, p, x);
        assert(hit_by(sol, start, b, target, p, x));
    }
    if hit_any(sol, start, b, target, p) {
        let x = choose|x: Seq<usize>| hit_by(sol, start, b, target, p, x);
        assert(hit_by(sol, start, a, target, p, x));
    }
    if a.combination_indices2 == b.combination_indices2 {
        if hit_before(sol, start, a, target, p) {
            let x = choose|x: Seq<usize>| #[trigger]
                hit_by(sol, start, a, target, p, x) && comes_before(
                    x,
                    a.combination_indices2@,
                    a.k as int,
                );
            assert(hit_by(sol, start, b, target, p, x));
        }
        if hit_before(sol, start, b, target, p) {
            let x = choose|x: Seq<usize>| #[trigger]
                hit_by(sol, start, b, target, p, x) && comes_before(
                    x,
                    b.combination_indices2@,
                    b.k as int,
                );
            assert(hit_by(sol, start, a, target, p, x));
        }
    }
}

/// The current subset of a generator is hit exactly when the search scans it
/// and the scan accepts a placement without the pairs that it ejects.
pub proof fn lemma_hit_here(sol: &Sol, start: usize, comb: &Combinations, target: int, p: usize)
    requires
        comb.ordered(),
    ensures
        hit_by(sol, start, comb, target, p, comb.combination_indices2@) <==> visited(
            comb.scores(),
            comb.k as int,
            comb.held(),
            target,
            comb.combination_indices2@,
        ) && found_here(sol, start, comb, p),
        forall|x: Seq<usize>|
            x.len() >= comb.k && agree(x, comb.combination_indices2@, comb.k as int) ==> (
            #[trigger] hit_by(sol, start, comb, target, p, x) <==> hit_by(
                sol,
                start,
                comb,
                target,
                p,
                comb.combination_indices2@,
            )),
        forall|x: Seq<usize>| #[trigger]
            hit_by(sol, start, comb, target, p, x) ==> is_subset(x, comb.k as int, comb.held())
                && total_from(comb.scores(), x, 0, comb.k as int) < target,
{
    reveal(hit_by);
    let c = comb.combination_indices2@;
    let k = comb.k as int;
    assert forall|x: Seq<usize>| #[trigger] hit_by(sol, start, comb, target, p, x) implies is_subset(
        x,
        comb.k as int,
        comb.held(),
    ) && total_from(comb.scores(), x, 0, comb.k as int) < target by {
        lemma_visited_subset(comb.scores(), k, comb.held(), target, x);
    }
    assert(ids_at(comb.pickups@, k, c) =~= comb.subset_ids());
    assert forall|x: Seq<usize>| x.len() >= comb.k && agree(x, c, k) implies (#[trigger] hit_by(
        sol,
        start,
        comb,
        target,
        p,
        x,
    ) <==> hit_by(sol, start, comb, target, p, c)) by {
        lemma_visited_agree(comb.scores(), comb.pickups@, k, comb.held(), target, x, c);
    }
}

/// One step of the search: once the current subset has been scanned and the
/// generator has moved on to the next one, what was hit before the new
/// subset is what was hit before the old one or at the old one.
pub proof fn lemma_hit_step(
    sol: &Sol,
    start: usize,
    pre: &Combinations,
    post: &Combinations,
    target: int,
    p: usize,
    i: int,
)
    requires
        pre.ordered(),
        same_catalog(post, pre),
        0 <= i < pre.k,
        pre.stuck(i + 1),
        pre.combination_indices2@[i] + 1 != pre.combination_indices2@[i + 1],
        post.combination_indices2@ == raised(pre.combination_indices2@, i, pre.k as int),
        total_from(pre.scores(), raised(pre.combination_indices2@, i, pre.k as int), 0, pre.k as int)
            < target,
        visited(pre.scores(), pre.k as int, pre.held(), target, pre.combination_indices2@),
    ensures
        visited(post.scores(), post.k as int, post.held(), target, post.combination_indices2@),
        hit_before(sol, start, post, target, p) <==> hit_before(sol, start, pre, target, p)
            || found_here(sol, start, pre, p),
{
    let c = pre.combination_indices2@;
    let k = pre.k as int;
    let c2 = raised(c, i, k);
    lemma_same_catalog(post, pre);
    lemma_hit_same(sol, start, post, pre, target, p);
    pre.lemma_visit_next(i, target);
    if hit_before(sol, start, post, target, p) {
        let x = choose|x: Seq<usize>| #[trigger]
            hit_by(sol, start, post, target, p, x) && comes_before(x, c2, k);
        assert(hit_by(sol, start, pre, target, p, x));
        assert(is_subset(x, k, pre.held())) by {
            lemma_hit_here(sol, start, pre, target, p);
        }
        assert(comes_before(x, c, k) || agree(x, c, k)) by {
            pre.lemma_before_next(i, x);
        }
        if agree(x, c, k) {
            assert(found_here(sol, start, pre, p)) by {
                lemma_hit_here(sol, start, pre, target, p);
            }
        }
    }
    if hit_before(sol, start, pre, target, p) {
        let x = choose|x: Seq<usize>| #[trigger]
            hit_by(sol, start, pre, target, p, x) && comes_before(x, c, k);
        assert(is_subset(x, k, pre.held())) by {
            lemma_hit_here(sol, start, pre, target, p);
        }
        assert(comes_before(x, c2, k)) by {
            pre.lemma_before_next(i, x);
        }
        assert(hit_by(sol, start, post, target, p, x));
    }
    if found_here(sol, start, pre, p) {
        assert(hit_by(sol, start, pre, target, p, c)) by {
            lemma_hit_here(sol, start, pre, target, p);
        }
        assert(hit_by(sol, start, post, target, p, c));
        assert(comes_before(c, c2, k)) by {
            pre.lemma_current_subset();
            pre.lemma_next_in_order(i, c);
        }
    }
}

/// The first step of a search that passes over the first subset: nothing
/// was hit before the second subset.
pub proof fn lemma_hit_skip(
    sol: &Sol,
    start: usize,
    pre: &Combinations,
    post: &Combinations,
    target: int,
    p: usize,
    i: int,
)
    requires
        pre.ordered(),
        same_catalog(post, pre),
        leads(pre.combination_indices2@, pre.k as int),
        pre.cur_removed_times_total >= target,
        0 <= i < pre.k,
        pre.stuck(i + 1),
        pre.combination_indices2@[i] + 1 != pre.combination_indices2@[i + 1],
        post.combination_indices2@ == raised(pre.combination_indices2@, i, pre.k as int),
        total_from(pre.scores(), raised(pre.combination_indices2@, i, pre.k as int), 0, pre.k as int)
            < target,
    ensures
        visited(post.scores(), post.k as int, post.held(), target, post.combination_indices2@),
        !hit_before(sol, start, post, target, p),
{
    let c = pre.combination_indices2@;
    let k = pre.k as int;
    let c2 = raised(c, i, k);
    lemma_same_catalog(post, pre);
    lemma_hit_same(sol, start, post, pre, target, p);
    pre.lemma_visit_next(i, target);
    if hit_before(sol, start, post, target, p) {
        let x = choose|x: Seq<usize>| #[trigger]
            hit_by(sol, start, post, target, p, x) && comes_before(x, c2, k);
        assert(hit_by(sol, start, pre, target, p, x));
        assert(is_subset(x, k, pre.held()) && total_from(pre.scores(), x, 0, k) < target) by {
            lemma_hit_here(sol, start, pre, target, p);
        }
        assert(agree(x, c, k)) by {
            pre.lemma_before_next(i, x);
            pre.lemma_visit_first(target);
        }
        assert(pre.cur_removed_times_total == total_from(pre.scores(), c, 0, k)) by {
            pre.lemma_current_subset();
        }
        lemma_total_same(pre.scores(), x, c, 0, k);
    }
}

/// Nothing is hit before the first subset.
pub proof fn lemma_hit_first(sol: &Sol, start: usize, comb: &Combinations, target: int, p: usize)
    requires
        comb.ordered(),
        leads(comb.combination_indices2@, comb.k as int),
    ensures
        !hit_before(sol, start, comb, target, p),
        comb.cur_removed_times_total < target ==> visited(
            comb.scores(),
            comb.k as int,
            comb.held(),
            target,
            comb.combination_indices2@,
        ),
        comb.cur_removed_times_total >= target ==> !hit_by(
            sol,
            start,
            comb,
            target,
            p,
            comb.combination_indices2@,
        ),
{
    let c = comb.combination_indices2@;
    let k = comb.k as int;
    comb.lemma_visit_first(target);
    if hit_before(sol, start, comb, target, p) {
        let x = choose|x: Seq<usize>| #[trigger]
            hit_by(sol, start, comb, target, p, x) && comes_before(x, c, k);
        assert(is_subset(x, k, comb.held())) by {
            lemma_hit_here(sol, start, comb, target, p);
        }
    }
    if hit_by(sol, start, comb, target, p, c) {
        assert(total_from(comb.scores(), c, 0, k) < target) by {
            lemma_hit_here(sol, start, comb, target, p);
        }
        comb.lemma_current_subset();
    }
}

/// The end of the search: where the generator cannot move on, every subset
/// that the search scans is the current one or comes before it.
pub proof fn lemma_hit_end(sol: &Sol, start: usize, comb: &Combinations, target: int, p: usize)
    requires
        comb.ordered(),
        comb.stuck(0) || exists|i: int|
            0 <= i < comb.k && comb.stuck(i + 1) && (#[trigger] comb.combination_indices2@[i]) + 1
                != comb.combination_indices2@[i + 1] && total_from(
                comb.scores(),
                raised(comb.combination_indices2@, i, comb.k as int),
                0,
                comb.k as int,
            ) >= target,
    ensures
        hit_any(sol, start, comb, target, p) <==> hit_before(sol, start, comb, target, p) || hit_by(
            sol,
            start,
            comb,
            target,
            p,
            comb.combination_indices2@,
        ),
{
    let c = comb.combination_indices2@;
    let k = comb.k as int;
    lemma_hit_here(sol, start, comb, target, p);
    if hit_any(sol, start, comb, target, p) {
        let x = choose|x: Seq<usize>| hit_by(sol, start, comb, target, p, x);
        if comb.stuck(0) {
            comb.lemma_visit_last(x);
        } else {
            assert(visited(comb.scores(), k, comb.held(), target, x)) by {
                reveal(hit_by);
            }
            let i = choose|i: int|
                0 <= i < comb.k && comb.stuck(i + 1) && (#[trigger] comb.combination_indices2@[i]) + 1
                    != comb.combination_indices2@[i + 1] && total_from(
                    comb.scores(),
                    raised(comb.combination_indices2@, i, comb.k as int),
                    0,
                    comb.k as int,
                ) >= target;
            comb.lemma_visit_stop(i, target, x);
        }
        if agree(x, c, k) {
            assert(hit_by(sol, start, comb, target, p, c));
        }
    }
}

/// The list that names the pickup `v` alone.
pub open spec fn only(v: usize) -> Seq<usize> {
    Seq::new(
        K_MAX as nat,
        |i: int|
            if i == 0 {
                v
            } else {
                0usize
            },
    )
}

/// The route of the served pickup `v` without `v` and its delivery.
pub open spec fn rest_of(sol: &Sol, v: usize) -> Seq<usize> {
    sift(sol@.tour_of(v), gone_set(sol.data, only(v), K_MAX as int))
}

/// A list that names one pickup names the pickup and its delivery as gone,
/// and its ejection is the departure of that pair.
pub proof fn lemma_only(l: Layout, data: &Data, v: usize)
    requires
        v != 0,
    ensures
        gone_set(data, only(v), K_MAX as int) == Set::<usize>::empty().insert(
            data.pair(v as int) as usize,
        ).insert(v),
        ejected(l, data, only(v), K_MAX as int) == l.detach(v).detach(data.pair(v as int) as usize),
        ejected(l, data, only(v), 0) == l,
{
    let r = only(v);
    crate::eject::lemma_gone_step(data, r, 1);
    assert(gone_set(data, r, 0) =~= Set::<usize>::empty());
    lemma_only_tail(l, data, v, K_MAX as int);
    assert(ejected(l, data, r, 1) == ejected(l, data, r, 0).detach(v).detach(
        data.pair(v as int) as usize,
    ));
}

/// The zeros behind the one pickup change nothing.
pub proof fn lemma_only_tail(l: Layout, data: &Data, v: usize, j: int)
    requires
        v != 0,
        1 <= j <= K_MAX,
    ensures
        gone_set(data, only(v), j) == gone_set(data, only(v), 1),
        ejected(l, data, only(v), j) == ejected(l, data, only(v), 1),
    decreases j,
{
    if j > 1 {
        lemma_only_tail(l, data, v, j - 1);
        crate::eject::lemma_gone_step(data, only(v), j);
    }
}

/// A placement that the scan accepts in a route of a layout fits the layout,
/// provided that the route is feasible, the pair is unserved and the latest
/// feasible departure that the scan used behind the delivery is not later
/// than the true one.
pub proof fn lemma_accepted_fits(
    l: Layout,
    data: &Data,
    lfd: Seq<u64>,
    r: usize,
    m: &Move,
    i: int,
    j: int,
)
    requires
        data.wf(),
        l.wf(data.points as int),
        l.has(r),
        proper(data, l.tours[r]),
        feasible(data, l.tours[r]),
        data.customer(m.pickup as int),
        !data.delivers(m.pickup as int),
        !l.served(m.pickup),
        !l.served(data.pair(m.pickup as int) as usize),
        accepted(data, lfd, l.tours[r], m.pickup, i, j),
        lfd[stop(l.tours[r], j)] <= lfd_at(data, l.tours[r], j),
        m.placement() == (pickup_gap(l.tours[r], i), delivery_gap(l.tours[r], m.pickup, i, j)),
    ensures
        fits_in(l, data, m),
{
    let p = m.pickup;
    let d = data.pair(p as int) as usize;
    assert(data.pair_ok(p as int));
    lemma_gaps_fit(l, data.points as int, r, p, d, i, j);
    lemma_accepted_feasible(data, lfd, l.tours[r], p, i, j);
}

/// Once the pairs of two served pickups `a` and `b` of different routes have
/// left, what is left of each of the two routes is a feasible route of the
/// layout, and the latest feasible departures cached for its nodes are not
/// later than its own.
pub open spec fn parted(sol: &Sol, a: usize, b: usize) -> bool {
    let data = sol.data;
    let l2 = sol@.detach(a).detach(data.pair(a as int) as usize).detach(b).detach(
        data.pair(b as int) as usize,
    );
    &&& l2.wf(data.points as int)
    &&& !l2.served(a)
    &&& !l2.served(b)
    &&& !l2.served(data.pair(a as int) as usize)
    &&& !l2.served(data.pair(b as int) as usize)
    &&& rested(sol, l2, a)
    &&& rested(sol, l2, b)
    &&& l2.owner[rest_of(sol, a)[0]] != l2.owner[rest_of(sol, b)[0]]
}

/// What is left of the route of `v` is a feasible route of the layout `l2`,
/// and the latest feasible departures cached for its nodes are not later
/// than its own.
pub open spec fn rested(sol: &Sol, l2: Layout, v: usize) -> bool {
    let t = rest_of(sol, v);
    &&& t.len() > 0
    &&& l2.has(t[0])
    &&& l2.tours[t[0]] == t
    &&& l2.owner[t[0]] == t[0]
    &&& proper(sol.data, t)
    &&& feasible(sol.data, t)
    &&& forall|q: int|
        0 <= q <= t.len() ==> sol.latest_feasible_departure@[stop(t, q)] <= #[trigger] lfd_at(
            sol.data,
            t,
            q,
        )
}

/// What the departure of the pair of one served pickup `v` leaves: a sane
/// layout without the two nodes, the other routes as they were, and of the
/// route of `v` a feasible route whose latest feasible departures are not
/// earlier than before.
pub open spec fn left_one(l: Layout, data: &Data, v: usize) -> bool {
    let dv = data.pair(v as int) as usize;
    let l1 = l.detach(v).detach(dv);
    let s = l.tour_of(v);
    let t = sift(s, gone_set(data, only(v), K_MAX as int));
    &&& sane(l1, data)
    &&& forall|x: usize| #[trigger] l1.served(x) <==> l.served(x) && x != v && x != dv
    &&& forall|x: usize|
        l.served(x) && l.owner[x] != l.owner[v] ==> {
            &&& #[trigger] l1.owner[x] == l.owner[x]
            &&& l1.slot[x] == l.slot[x]
            &&& l1.tour_of(x) == l.tour_of(x)
        }
    &&& forall|q: int| 0 <= q < t.len() ==> l.served(#[trigger] t[q]) && l.owner[t[q]] == l.owner[v]
    &&& t.len() > 0 ==> {
        &&& l1.has(t[0])
        &&& l1.tours[t[0]] == t
        &&& l1.owner[t[0]] == t[0]
        &&& proper(data, t)
        &&& feasible(data, t)
    }
    &&& forall|q: int| 0 <= q <= t.len() ==> #[trigger] lfd_at(data, t, q) >= lfd_at(data, s, origin_of(s, t, q))
}

/// The pair of a served pickup can leave, and leaves what [`left_one`]
/// describes.
pub proof fn lemma_left_one(l: Layout, data: &Data, v: usize)
    requires
        data.wf(),
        sane(l, data),
        l.served(v),
        !data.delivers(v as int),
    ensures
        left_one(l, data, v),
{
    let n = data.points as int;
    let dv = data.pair(v as int) as usize;
    let r0 = l.owner[v];
    let s = l.tours[r0];
    let g = gone_set(data, only(v), K_MAX as int);
    let t = sift(s, g);
    assert(data.customer(v as int));
    assert(data.pair_ok(v as int));
    assert(mated(l, data, v));
    assert(l.has(r0));
    lemma_only(l, data, v);
    let l1 = l.detach(v).detach(dv);
    assert(crate::eject::lists_pickups(l, data, only(v), r0, K_MAX as int));
    lemma_run(l, data, only(v), r0, K_MAX as int);
    assert(run_ok(l, data, only(v), r0, K_MAX as int));
    l.lemma_tour_distinct(n, r0);
    lemma_sift_holds(s, g);
    assert forall|q: int| 0 <= q < t.len() implies l.served(#[trigger] t[q]) && l.owner[t[q]]
        == r0 by {
        assert(t.contains(t[q]));
        let kk = choose|kk: int| 0 <= kk < s.len() && s[kk] == t[q];
        assert(l.served(l.tours[r0][kk]));
    }
    if t.len() > 0 {
        let f = t[0];
        assert(l.served(t[0]));
        assert(t.contains(t[0]));
        assert(l1.served(f));
        assert(l1.tour_of(f) == t);
        assert(l1.owner[f] == f);
        assert(l1.has(f));
        lemma_tour_coupled(l1, data, f);
        assert(feasible(data, l1.tours[f]));
    }
}

/// The gaps that a served pickup and its delivery leave behind them when
/// they leave their route.
pub open spec fn home(l: Layout, data: &Data, p: usize) -> (Between, Between) {
    let d = data.pair(p as int) as usize;
    let a = l.slot[p];
    let b = l.slot[d];
    let t = l.tour_of(p).remove(b).remove(a);
    (pickup_gap(t, a), delivery_gap(t, p, a, b - 1))
}

/// A pair that has left a route of more than two nodes fits the gaps it
/// left, and putting it back there gives the route as it was.
pub proof fn lemma_home(l: Layout, data: &Data, m: &Move)
    requires
        data.wf(),
        sane(l, data),
        l.served(m.pickup),
        !data.delivers(m.pickup as int),
        l.tour_of(m.pickup).len() > 2,
        m.placement() == home(l, data, m.pickup),
    ensures
        fits_in(l.detach(m.pickup).detach(data.pair(m.pickup as int) as usize), data, m),
        placed_in(
            l.detach(m.pickup).detach(data.pair(m.pickup as int) as usize),
            data,
            m,
        ).tour_of(m.pickup) == l.tour_of(m.pickup),
{
    let n = data.points as int;
    let p = m.pickup;
    let d = data.pair(p as int) as usize;
    let r0 = l.owner[p];
    let s = l.tours[r0];
    let a = l.slot[p];
    let b = l.slot[d];
    let t = s.remove(b).remove(a);
    assert(data.customer(p as int));
    assert(data.pair_ok(p as int));
    assert(mated(l, data, p));
    assert(l.has(r0));
    assert(s[a] == p);
    assert(s[b] == d);
    l.lemma_detach_pair(n, p, d);
    let l2 = l.detach(p).detach(d);
    crate::eject::lemma_sane_off(l, data, p);
    assert(l2.tours == l.pair_gone(p, d));
    assert(t.len() > 0);
    let f = t[0];
    assert(l2.has(f));
    assert(l2.tours[f] == t);
    lemma_gaps_fit(l2, n, f, p, d, a, b - 1);
    assert(inserted(t, p, d, a, b - 1) =~= s) by {
        crate::scan::lemma_inserted_shape(t, p, d, a, b - 1);
    }
    assert(feasible(data, s));
}

/// The latest feasible departures cached for the nodes of what is left of a
/// route are not later than those of what is left.
pub proof fn lemma_cached_bound(sol: &Sol, r0: usize, t: Seq<usize>)
    requires
        sol.wf(),
        sol@.has(r0),
        forall|q: int| 0 <= q < t.len() ==> sol.on_route(#[trigger] t[q], r0),
        forall|q: int|
            0 <= q <= t.len() ==> #[trigger] lfd_at(sol.data, t, q) >= lfd_at(
                sol.data,
                sol@.tours[r0],
                origin_of(sol@.tours[r0], t, q),
            ),
    ensures
        forall|q: int|
            0 <= q <= t.len() ==> sol.latest_feasible_departure@[stop(t, q)] <= #[trigger] lfd_at(
                sol.data,
                t,
                q,
            ),
{
    let l = sol@;
    let data = sol.data;
    let s = l.tours[r0];
    let lfd = sol.latest_feasible_departure@;
    sol.lemma_route_shape(r0);
    assert forall|q: int| 0 <= q <= t.len() implies lfd[stop(t, q)] <= #[trigger] lfd_at(
        data,
        t,
        q,
    ) by {
        assert(lfd_at(data, t, q) >= lfd_at(data, s, origin_of(s, t, q)));
        if q < t.len() {
            let x = t[q];
            assert(sol.on_route(t[q], r0));
            assert(sol.cached_at(x));
            assert(l.tour_of(x) == s);
            lemma_index_of(s, l.slot[x]);
        }
    }
}

/// The pairs of two served pickups of different routes can leave one after
/// the other, and leave what [`parted`] describes.
pub proof fn lemma_parted(sol: &Sol, a: usize, b: usize)
    requires
        sol.wf(),
        sol@.served(a),
        sol@.served(b),
        !sol.data.delivers(a as int),
        !sol.data.delivers(b as int),
        sol@.owner[a] != sol@.owner[b],
        rest_of(sol, a).len() > 0,
        rest_of(sol, b).len() > 0,
    ensures
        parted(sol, a, b),
{
    let l = sol@;
    let data = sol.data;
    let da = data.pair(a as int) as usize;
    let db = data.pair(b as int) as usize;
    let ra = l.owner[a];
    let rb = l.owner[b];
    let ta = rest_of(sol, a);
    let tb = rest_of(sol, b);
    assert(l.has(ra));
    assert(l.has(rb));
    assert(mated(l, data, a));
    assert(mated(l, data, b));
    lemma_left_one(l, data, a);
    let l1 = l.detach(a).detach(da);
    assert(l1.served(b));
    assert(l1.tour_of(b) == l.tour_of(b));
    assert(l1.owner[b] == rb);
    lemma_left_one(l1, data, b);
    let l2 = l1.detach(b).detach(db);
    let fa = ta[0];
    let fb = tb[0];
    assert(l.served(ta[0]));
    assert(l.served(tb[0]));
    assert(l1.owner[fa] == fa);
    assert(l1.owner[fa] != rb) by {
        if fa == rb {
            assert(l.served(l.tours[rb][0]));
            assert(l.owner[l.tours[rb][0]] == rb);
        }
    }
    assert(l2.owner[fa] == fa);
    assert(l2.tour_of(fa) == ta);
    assert(l2.served(fa));
    assert(l2.has(fa));
    assert(l2.owner[fb] == fb);
    assert(fa != fb);
    lemma_cached_bound(sol, ra, ta);
    lemma_cached_bound(sol, rb, tb);
}

/// Two placements that the scan accepts, each for one of two served pickups
/// in the route of the other once both pairs have left, make a swap that can
/// be applied.
pub proof fn lemma_swap_sound(sol: &Sol, swap: &Swap, i1: int, j1: int, i2: int, j2: int)
    requires
        sol.wf(),
        sol@.served(swap.a.pickup),
        sol@.served(swap.b.pickup),
        !sol.data.delivers(swap.a.pickup as int),
        !sol.data.delivers(swap.b.pickup as int),
        sol@.owner[swap.a.pickup] != sol@.owner[swap.b.pickup],
        rest_of(sol, swap.a.pickup).len() > 0,
        rest_of(sol, swap.b.pickup).len() > 0,
        accepted(
            sol.data,
            sol.latest_feasible_departure@,
            rest_of(sol, swap.b.pickup),
            swap.a.pickup,
            i1,
            j1,
        ),
        swap.a.placement() == (
            pickup_gap(rest_of(sol, swap.b.pickup), i1),
            delivery_gap(rest_of(sol, swap.b.pickup), swap.a.pickup, i1, j1),
        ),
        accepted(
            sol.data,
            sol.latest_feasible_departure@,
            rest_of(sol, swap.a.pickup),
            swap.b.pickup,
            i2,
            j2,
        ),
        swap.b.placement() == (
            pickup_gap(rest_of(sol, swap.a.pickup), i2),
            delivery_gap(rest_of(sol, swap.a.pickup), swap.b.pickup, i2, j2),
        ),
    ensures
        sol.swaps(swap),
{
    let l = sol@;
    let data = sol.data;
    let n = data.points as int;
    let lfd = sol.latest_feasible_departure@;
    let a = swap.a.pickup;
    let b = swap.b.pickup;
    let da = data.pair(a as int) as usize;
    let db = data.pair(b as int) as usize;
    lemma_parted(sol, a, b);
    let l2 = sol.both_gone(swap);
    let ta = rest_of(sol, a);
    let tb = rest_of(sol, b);
    let fa = ta[0];
    let fb = tb[0];
    assert(data.customer(a as int));
    assert(data.customer(b as int));
    assert(data.pair_ok(a as int));
    assert(data.pair_ok(b as int));
    assert(a != b);
    lemma_accepted_fits(l2, data, lfd, fb, &swap.a, i1, j1);
    let pa = (swap.a.put_pickup_between.0, swap.a.put_pickup_between.1);
    let qa = (swap.a.put_delivery_between.0, swap.a.put_delivery_between.1);
    l2.lemma_put(n, a, pa, da, qa);
    let l3 = placed_in(l2, data, &swap.a);
    assert(l2.gap_owner(pa.0, pa.1) == fb) by {
        if i1 == 0 {
            assert(pa.1 == tb[0]);
        } else {
            assert(pa.0 == tb[i1 - 1]);
            assert(l2.served(l2.tours[fb][i1 - 1]));
            assert(l2.owner[l2.tours[fb][i1 - 1]] == fb);
        }
    }
    assert(l2.served(l2.tours[fa][0]));
    assert(l3.owner[fa] == fa);
    assert(l3.tour_of(fa) == ta);
    assert(l3.served(fa));
    assert(l3.has(fa));
    assert(!l3.served(b));
    assert(!l3.served(db));
    lemma_accepted_fits(l3, data, lfd, fa, &swap.b, i2, j2);
}

/// Whether a move can be applied depends on its pickup, its placement and
/// its ejections only.
pub proof fn lemma_admits_same(sol: &Sol, a: &Move, b: &Move)
    requires
        sol.admits(a),
        a.pickup == b.pickup,
        a.placement() == b.placement(),
        a.removed == b.removed,
    ensures
        sol.admits(b),
{
}

/// The node after the gap `i` of a route that ends with the depot.
fn after_pickup_of(route: &Vec<usize>, i: usize) -> (r: usize)
    requires
        i < route@.len(),
    ensures
        r == route@[i as int],
{
    route[i]
}

} // verus!
