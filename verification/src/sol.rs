use crate::chance::{adjacent_pairs, choose_one, sorted_ids};
use crate::data::{Data, PTS};
use crate::eval::{Eval, EvalView};
use crate::chance::coin;
use crate::eject::sane;
use crate::eject::{gone_set, sift};
use crate::evaluator::comb::{total_from, Combinations};
use crate::scan::chosen;
use crate::evaluator::{hit_any, home, lemma_admits_same, lemma_home, rest_of, Evaluator};
use crate::sol::heap::MAX_EJECTIONS;
use crate::scan::found_all;
use crate::layout::{stop_at, Layout};
use crate::mov::{Between, Move, Swap};
use crate::route::{
    coupled, coupled_at, eval_at, feasible, lemma_eval_within, lemma_feasible_meets_lfd, lemma_index_of,
    lemma_proper_len, lemma_remove_pair_feasible, lemma_within_grows, lfd_at, proper, stop,
};
use crate::sol::heap::{ascending, is_stable_sort, stable_sort_by, Heap};
use crate::sol::tally::{lemma_sum_any_order, sum_below, sum_over};
use crate::{K_MAX, UNSERVED};
use std::collections::HashSet;
use vstd::prelude::*;
use vstd::std_specs::hash::spec_hash_keys_iter;
use vstd::std_specs::iter::IteratorSpec;

pub mod audit;
pub mod heap;
pub mod tally;

verus! {

broadcast use vstd::std_specs::hash::group_hash_axioms;

/// The solution: all routes as doubly linked chains over the node table,
/// with the cached evaluation of every served node, the set of route ids
/// and the ejection pool.
pub struct Sol<'a> {
    pub data: &'a Data,
    pub next: [usize; PTS],
    pub prev: [usize; PTS],
    pub latest_feasible_departure: [u64; PTS],
    pub evals: Vec<Eval>,
    pub first: [usize; PTS],
    pub routes: HashSet<usize>,
    pub heap: Heap,
    pub layout: Ghost<Layout>,
}

/// The partner of `v` is served in the route of `v`, the pickup ahead of the
/// delivery.
pub open spec fn mated(l: Layout, data: &Data, v: usize) -> bool {
    let w = data.pair(v as int) as usize;
    &&& l.served(w)
    &&& l.owner[w] == l.owner[v]
    &&& !data.delivers(v as int) ==> l.slot[v] < l.slot[w]
    &&& data.delivers(v as int) ==> l.slot[w] < l.slot[v]
}

/// Every served node has its partner in the same route, the pickup ahead of
/// the delivery.
pub open spec fn matched(l: Layout, data: &Data) -> bool {
    forall|v: usize| l.served(v) ==> #[trigger] mated(l, data, v)
}

/// In the layout `l` the gaps of `mov` exist, its pair is unserved, and
/// putting the pair there gives a feasible route with the pickup ahead of the
/// delivery.
pub open spec fn fits_in(l: Layout, data: &Data, mov: &Move) -> bool {
    let p = mov.pickup;
    let d = data.pair(p as int) as usize;
    let pb = (mov.put_pickup_between.0, mov.put_pickup_between.1);
    let db = (mov.put_delivery_between.0, mov.put_delivery_between.1);
    &&& data.customer(p as int)
    &&& !data.delivers(p as int)
    &&& l.takes(data.points as int, p, pb, d, db)
    &&& feasible(data, l.put(p, pb, d, db).tour_of(p))
}

/// The layout `l` once the pair of `mov` has been put into its gaps.
pub open spec fn placed_in(l: Layout, data: &Data, mov: &Move) -> Layout {
    l.put(
        mov.pickup,
        (mov.put_pickup_between.0, mov.put_pickup_between.1),
        data.pair(mov.pickup as int) as usize,
        (mov.put_delivery_between.0, mov.put_delivery_between.1),
    )
}

/// The layout `l` once the pairs of the first `k` pickups listed in
/// `removed` have left their routes; zero entries list nothing.
pub open spec fn ejected(l: Layout, data: &Data, removed: Seq<usize>, k: int) -> Layout
    decreases k,
{
    if k <= 0 {
        l
    } else {
        let before = ejected(l, data, removed, k - 1);
        let v = removed[k - 1];
        if v == 0 {
            before
        } else {
            before.detach(v).detach(data.pair(v as int) as usize)
        }
    }
}

/// The ejection counts `times` once each of the first `k` pickups listed in
/// `removed` has been counted once more.
pub open spec fn bumped(times: Seq<u64>, removed: Seq<usize>, k: int) -> Seq<u64>
    decreases k,
{
    if k <= 0 {
        times
    } else {
        let before = bumped(times, removed, k - 1);
        let v = removed[k - 1];
        if v == 0 {
            before
        } else {
            before.update(v as int, (before[v as int] + 1) as u64)
        }
    }
}

/// `v` is one of the first `k` pickups listed in `removed`.
pub open spec fn listed(removed: Seq<usize>, k: int, v: usize) -> bool {
    v != 0 && exists|j: int| 0 <= j < k && removed[j] == v
}

/// `after` holds what `before` held and the first `k` pickups listed in
/// `removed`.
pub open spec fn grown_by(before: Seq<usize>, after: Seq<usize>, removed: Seq<usize>, k: int) -> bool {
    forall|v: usize|
        #![trigger after.contains(v)]
        #![trigger before.contains(v)]
        #![trigger listed(removed, k, v)]
        after.contains(v) <==> before.contains(v) || listed(removed, k, v)
}

/// The customers of a route that is written with the depot at both ends.
pub open spec fn inner(route: Seq<usize>) -> Seq<usize> {
    route.subrange(1, route.len() - 1)
}

/// The pickups among the first `i` nodes of `s`, in their order.
pub open spec fn pickups_upto(data: &Data, s: Seq<usize>, i: int) -> Seq<usize>
    decreases i,
{
    if i <= 0 {
        Seq::empty()
    } else if data.delivers(s[i - 1] as int) {
        pickups_upto(data, s, i - 1)
    } else {
        pickups_upto(data, s, i - 1).push(s[i - 1])
    }
}

/// The pickups of a route, in their order.
pub open spec fn pickups_of(data: &Data, s: Seq<usize>) -> Seq<usize> {
    pickups_upto(data, s, s.len() as int)
}

/// The pickups among the first `i` nodes are exactly the pickups found
/// there.
pub proof fn lemma_pickups_upto(data: &Data, s: Seq<usize>, i: int)
    requires
        0 <= i <= s.len(),
    ensures
        pickups_upto(data, s, i).len() <= i,
        forall|j: int|
            0 <= j < pickups_upto(data, s, i).len() ==> {
                let v = #[trigger] pickups_upto(data, s, i)[j];
                &&& !data.delivers(v as int)
                &&& exists|k: int| 0 <= k < i && s[k] == v
            },
        forall|k: int|
            0 <= k < i && !data.delivers(s[k] as int) ==> pickups_upto(data, s, i).contains(
                #[trigger] s[k],
            ),
    decreases i,
{
    if i > 0 {
        lemma_pickups_upto(data, s, i - 1);
        let before = pickups_upto(data, s, i - 1);
        let now = pickups_upto(data, s, i);
        assert forall|j: int| 0 <= j < now.len() implies {
            let v = #[trigger] now[j];
            &&& !data.delivers(v as int)
            &&& exists|k: int| 0 <= k < i && s[k] == v
        } by {
            if j < before.len() {
                let v = before[j];
                let k = choose|k: int| 0 <= k < i - 1 && s[k] == v;
                assert(0 <= k < i && s[k] == v);
            } else {
                assert(0 <= i - 1 < i && s[i - 1] == now[j]);
            }
        }
        assert forall|k: int| 0 <= k < i && !data.delivers(s[k] as int) implies now.contains(
            #[trigger] s[k],
        ) by {
            if k < i - 1 {
                assert(before.contains(s[k]));
                let j = choose|j: int| 0 <= j < before.len() && before[j] == s[k];
                assert(now[j] == s[k]);
            } else {
                assert(now[now.len() - 1] == s[k]);
            }
        }
    }
}

/// A stable sort loses nothing: every element of the input is in the output.
pub proof fn lemma_perm_onto(out: Seq<usize>, inp: Seq<usize>, keys: Seq<u64>, j: int)
    requires
        is_stable_sort(out, inp, keys),
        0 <= j < inp.len(),
    ensures
        out.contains(inp[j]),
{
    let perm = choose|perm: Seq<int>| stable_sort_by(out, inp, keys, perm);
    lemma_injective_onto(perm, inp.len() as int, j);
    let i = choose|i: int| 0 <= i < perm.len() && perm[i] == j;
    assert(out[i] == inp[perm[i]]);
}

/// A sequence of `n` different numbers below `n` holds each of them.
pub proof fn lemma_injective_onto(perm: Seq<int>, n: int, j: int)
    requires
        perm.len() == n,
        perm.no_duplicates(),
        forall|i: int| 0 <= i < n ==> 0 <= #[trigger] perm[i] < n,
        0 <= j < n,
    ensures
        exists|i: int| 0 <= i < perm.len() && perm[i] == j,
{
    if !perm.contains(j) {
        perm.unique_seq_to_set();
        let full = vstd::set_lib::set_int_range(0, n);
        vstd::set_lib::lemma_int_range(0, n);
        let less = full.remove(j);
        assert forall|x: int| perm.to_set().contains(x) implies less.contains(x) by {
            let i = choose|i: int| 0 <= i < perm.len() && perm[i] == x;
            assert(0 <= perm[i] < n);
            assert(perm.contains(perm[i]));
        }
        vstd::set_lib::lemma_len_subset(perm.to_set(), less);
        assert(false);
    }
    let i = choose|i: int| 0 <= i < perm.len() && perm[i] == j;
}

/// Listing one more entry adds that entry, unless it is zero.
pub proof fn lemma_listed_step(removed: Seq<usize>, k: int, v: usize)
    requires
        0 <= k,
    ensures
        listed(removed, k + 1, v) <==> listed(removed, k, v) || (v != 0 && removed[k] == v),
{
    if listed(removed, k, v) {
        let j = choose|j: int| 0 <= j < k && removed[j] == v;
        assert(0 <= j < k + 1 && removed[j] == v);
    }
    if listed(removed, k + 1, v) {
        let j = choose|j: int| 0 <= j < k + 1 && removed[j] == v;
        if j < k {
            assert(0 <= j < k && removed[j] == v);
        }
    }
    if v != 0 && removed[k] == v {
        assert(0 <= k < k + 1 && removed[k] == v);
    }
}

/// The chains `next` and `prev` are the routes of the layout `l`: a node is
/// served exactly when it is linked, and its links lead to its neighbours in
/// its route. The depot's own links stay at the depot.
pub open spec fn chained(l: Layout, points: int, next: Seq<usize>, prev: Seq<usize>) -> bool {
    &&& l.wf(points)
    &&& next.len() == PTS
    &&& prev.len() == PTS
    &&& next[0] == 0
    &&& prev[0] == 0
    &&& forall|v: usize|
        #![trigger l.served(v)]
        #![trigger next[v as int]]
        0 < v < PTS ==> (l.served(v) <==> next[v as int] != UNSERVED)
    &&& forall|v: usize|
        #![trigger l.served(v)]
        #![trigger prev[v as int]]
        0 < v < PTS ==> (l.served(v) <==> prev[v as int] != UNSERVED)
    &&& forall|v: usize| #[trigger]
        l.served(v) ==> next[v as int] == l.succ(v) && prev[v as int] == l.pred(v)
}

/// Closing the gap that a served node leaves keeps the chains in line with
/// the layout.
pub proof fn lemma_chain_detach(l: Layout, points: int, next: Seq<usize>, prev: Seq<usize>, x: usize)
    requires
        chained(l, points, next, prev),
        points <= PTS,
        l.served(x),
    ensures
        prev[x as int] < PTS,
        next[x as int] < PTS,
        prev[x as int] != x,
        next[x as int] != x,
        chained(
            l.detach(x),
            points,
            next.update(x as int, UNSERVED).update(prev[x as int] as int, next[x as int]).update(0, 0),
            prev.update(x as int, UNSERVED).update(next[x as int] as int, prev[x as int]).update(0, 0),
        ),
{
    let before = prev[x as int];
    let after = next[x as int];
    let l2 = l.detach(x);
    let nx = next.update(x as int, UNSERVED).update(before as int, after).update(0, 0);
    let pv = prev.update(x as int, UNSERVED).update(after as int, before).update(0, 0);
    l.lemma_neighbours(points, x);
    l.lemma_detach(points, x);
    assert(before == l.pred(x));
    assert(after == l.succ(x));
    if before != 0 {
        assert(l.served(before));
    }
    if after != 0 {
        assert(l.served(after));
    }
    assert forall|v: usize| #[trigger] l2.served(v) implies nx[v as int] == l2.succ(v) && pv[v as int]
        == l2.pred(v) by {
        assert(l.served(v));
        assert(v != x);
        l.lemma_neighbours(points, v);
        assert(next[v as int] == l.succ(v));
        assert(prev[v as int] == l.pred(v));
        assert(l2.succ(v) == if l.succ(v) == x {
            l.succ(x)
        } else {
            l.succ(v)
        });
        assert(l2.pred(v) == if l.pred(v) == x {
            l.pred(x)
        } else {
            l.pred(v)
        });
        if v == before {
            assert(l.succ(v) == x);
        } else {
            assert(l.succ(v) != x) by {
                if l.succ(v) == x {
                    assert(l.pred(x) == v);
                }
            }
        }
        if v == after {
            assert(l.pred(v) == x);
        } else {
            assert(l.pred(v) != x) by {
                if l.pred(v) == x {
                    assert(l.succ(x) == v);
                }
            }
        }
    }
    assert forall|v: usize|
        #![trigger l2.served(v)]
        #![trigger nx[v as int]]
        0 < v < PTS implies (l2.served(v) <==> nx[v as int] != UNSERVED) by {
        if v != x {
            assert(l.served(v) <==> next[v as int] != UNSERVED);
        }
    }
    assert forall|v: usize|
        #![trigger l2.served(v)]
        #![trigger pv[v as int]]
        0 < v < PTS implies (l2.served(v) <==> pv[v as int] != UNSERVED) by {
        if v != x {
            assert(l.served(v) <==> prev[v as int] != UNSERVED);
        }
    }
}

/// Opening a gap for an unserved node keeps the chains in line with the
/// layout.
pub proof fn lemma_chain_attach(
    l: Layout,
    points: int,
    next: Seq<usize>,
    prev: Seq<usize>,
    x: usize,
    before: usize,
    after: usize,
)
    requires
        chained(l, points, next, prev),
        points <= PTS,
        !l.served(x),
        0 < x < points,
        l.gap(before, after),
    ensures
        before < PTS,
        after < PTS,
        before != x,
        after != x,
        chained(
            l.attach(x, before, after),
            points,
            next.update(before as int, x).update(x as int, after).update(0, 0),
            prev.update(after as int, x).update(x as int, before).update(0, 0),
        ),
{
    let l2 = l.attach(x, before, after);
    let nx = next.update(before as int, x).update(x as int, after).update(0, 0);
    let pv = prev.update(after as int, x).update(x as int, before).update(0, 0);
    l.lemma_attach(points, x, before, after);
    if before != 0 {
        l.lemma_neighbours(points, before);
        assert(l.served(before));
    }
    if after != 0 {
        assert(l.served(after));
    }
    assert forall|v: usize| #[trigger] l2.served(v) implies nx[v as int] == l2.succ(v) && pv[v as int]
        == l2.pred(v) by {
        if v != x {
            assert(l.served(v));
            l.lemma_neighbours(points, v);
            assert(next[v as int] == l.succ(v));
            assert(prev[v as int] == l.pred(v));
            assert(l2.succ(v) == if v == before {
                x
            } else {
                l.succ(v)
            });
            assert(l2.pred(v) == if v == after {
                x
            } else {
                l.pred(v)
            });
        } else {
            assert(l2.succ(x) == after);
            assert(l2.pred(x) == before);
        }
    }
    assert forall|v: usize|
        #![trigger l2.served(v)]
        #![trigger nx[v as int]]
        0 < v < PTS implies (l2.served(v) <==> nx[v as int] != UNSERVED) by {
        if v != x {
            assert(l.served(v) <==> next[v as int] != UNSERVED);
        }
    }
    assert forall|v: usize|
        #![trigger l2.served(v)]
        #![trigger pv[v as int]]
        0 < v < PTS implies (l2.served(v) <==> pv[v as int] != UNSERVED) by {
        if v != x {
            assert(l.served(v) <==> prev[v as int] != UNSERVED);
        }
    }
}

impl<'a> View for Sol<'a> {
    type V = Layout;

    open spec fn view(&self) -> Layout {
        self.layout@
    }
}

impl<'a> Sol<'a> {
    /// The chains in `next` and `prev` are the routes of the layout: a node
    /// is served exactly when it is linked, and its links lead to its
    /// neighbours in its route. The depot's own links stay at the depot.
    pub open spec fn linked(&self) -> bool {
        chained(self@, self.data.points as int, self.next@, self.prev@)
    }

    /// `first[v]` names the route of `v`.
    pub open spec fn first_ok(&self, v: usize) -> bool {
        self.first@[v as int] == self@.owner[v]
    }

    /// `evals[v]` is the state of a vehicle that drove the route of `v` up
    /// to `v`.
    pub open spec fn eval_ok(&self, v: usize) -> bool {
        self.evals@[v as int]@ == eval_at(self.data, self@.tour_of(v), self@.slot[v])
    }

    /// `latest_feasible_departure[v]` is the latest start of service at `v`
    /// that misses no due time further down its route.
    pub open spec fn lfd_ok(&self, v: usize) -> bool {
        self.latest_feasible_departure@[v as int] == lfd_at(
            self.data,
            self@.tour_of(v),
            self@.slot[v],
        )
    }

    /// All three cached values of `v` are right.
    pub open spec fn cached_at(&self, v: usize) -> bool {
        &&& self.first_ok(v)
        &&& self.eval_ok(v)
        &&& self.lfd_ok(v)
    }

    /// The pool holds distinct customers, all of them unserved pickups.
    pub open spec fn pooled(&self) -> bool {
        &&& self.heap.bounded()
        &&& self.heap.pool().no_duplicates()
        &&& forall|i: int|
            0 <= i < self.heap.pool().len() ==> {
                let v = #[trigger] self.heap.pool()[i];
                &&& self.data.customer(v as int)
                &&& !self.data.delivers(v as int)
                &&& !self@.served(v)
            }
    }

    /// The tables that do not depend on the routes are in place.
    pub open spec fn grounded(&self) -> bool {
        &&& self.data.wf()
        &&& self.evals@.len() == PTS
        &&& self.evals@[0]@ == EvalView::origin()
        &&& self.latest_feasible_departure@[0] == self.data.due_of(0)
    }

    /// Everything but the order of the pool: the chains are the routes of
    /// the layout, partners travel together, every route is feasible, the
    /// cached values of every served node are right, `routes` holds exactly
    /// the ids of the routes, and the pool holds unserved pickups.
    pub open spec fn settled(&self) -> bool {
        &&& self.grounded()
        &&& self.linked()
        &&& matched(self@, self.data)
        &&& forall|v: usize| self@.served(v) ==> #[trigger] self.cached_at(v)
        &&& forall|r: usize| #[trigger] self@.has(r) ==> feasible(self.data, self@.tours[r])
        &&& forall|v: usize|
            0 < v < PTS && !self@.served(v) ==> #[trigger] self.first@[v as int] == UNSERVED
        &&& self.routes@ == self@.tours.dom()
        &&& self.routes@.finite()
        &&& self.pooled()
    }

    /// The invariant of a solution between two operations.
    pub open spec fn wf(&self) -> bool {
        &&& self.settled()
        &&& ascending(self.heap.pool(), self.heap.times())
    }

    /// Every pickup of the instance but `p` is either served or waits in the
    /// pool.
    pub open spec fn complete_but(&self, p: usize) -> bool {
        forall|v: usize|
            self.data.customer(v as int) && !self.data.delivers(v as int) && v != p
                ==> #[trigger] self@.served(v) || self.heap.pool().contains(v)
    }

    /// Every pickup of the instance is either served or waits in the pool.
    pub open spec fn complete(&self) -> bool {
        forall|v: usize|
            self.data.customer(v as int) && !self.data.delivers(v as int) ==> #[trigger] self@.served(v)
                || self.heap.pool().contains(v)
    }

    /// A solution without routes and with an empty pool: no customer is
    /// linked, and the state cached for every node is that of a vehicle at
    /// the depot.
    pub fn new(data: &'a Data) -> (r: Self)
        requires
            data.wf(),
        ensures
            r.wf(),
            r.data == data,
            r@ == Layout::empty(),
            r.heap.pool() == Seq::<usize>::empty(),
            forall|v: int| 0 <= v < PTS ==> r.heap.times()[v] == 0,
            forall|v: int| 0 <= v < PTS ==> (#[trigger] r.evals@[v])@ == EvalView::origin(),
            forall|v: int| 0 < v < PTS ==> #[trigger] r.latest_feasible_departure@[v] == 0,
            forall|v: int|
                0 < v < PTS ==> #[trigger] r.next@[v] == UNSERVED && r.prev@[v] == UNSERVED
                    && r.first@[v] == UNSERVED,
            r.routes@ == Set::<usize>::empty(),
    {
        let mut next = [UNSERVED;PTS];
        let mut prev = [UNSERVED;PTS];
        next[0] = 0;
        prev[0] = 0;
        let mut latest_feasible_departure = [0;PTS];
        latest_feasible_departure[0] = data.pts[0].due;
        let mut evals: Vec<Eval> = Vec::new();
        let mut i: usize = 0;
        while i < PTS
            invariant
                i <= PTS,
                evals@.len() == i,
                forall|k: int| 0 <= k < i ==> (#[trigger] evals@[k])@ == EvalView::origin(),
            decreases PTS - i,
        {
            evals.push(Eval::new());
            i += 1;
        }
        let r = Sol {
            data,
            next,
            prev,
            latest_feasible_departure,
            heap: Heap::new(),
            evals,
            first: [UNSERVED;PTS],
            routes: HashSet::new(),
            layout: Ghost(Layout::empty()),
        };
        proof {
            assert(r@.tours.dom() =~= Set::<usize>::empty());
            assert(r.routes@ =~= r@.tours.dom());
        }
        r
    }

    /// Whether the customer `point_idx` is currently outside every route;
    /// the depot never is.
    pub fn is_removed(&self, point_idx: usize) -> (r: bool)
        requires
            self.linked(),
            point_idx < PTS,
        ensures
            r == (point_idx != 0 && !self@.served(point_idx)),
    {
        self.next[point_idx] == UNSERVED
    }

    /// Number of routes.
    pub fn routes_number(&self) -> (r: usize)
        requires
            self.routes@ == self@.tours.dom(),
        ensures
            r == self@.tours.dom().len(),
    {
        self.routes.len()
    }

    /// Whether two served nodes share a route.
    pub fn in_same_route(&self, a_pickup: usize, b_pickup: usize) -> (r: bool)
        requires
            self.wf(),
            self@.served(a_pickup),
            self@.served(b_pickup),
        ensures
            r == (self@.owner[a_pickup] == self@.owner[b_pickup]),
    {
        assert(self.cached_at(a_pickup));
        assert(self.cached_at(b_pickup));
        self.first[a_pickup] == self.first[b_pickup]
    }

    /// Takes a served node out of its chain. The cached values of its route
    /// are left as they were.
    fn unlink(&mut self, point_idx: usize)
        requires
            old(self).linked(),
            old(self)@.served(point_idx),
            old(self).data.points <= PTS,
        ensures
            final(self).linked(),
            final(self)@ == old(self)@.detach(point_idx),
            final(self).first@ == old(self).first@.update(point_idx as int, UNSERVED),
            final(self).data == old(self).data,
            final(self).evals == old(self).evals,
            final(self).latest_feasible_departure == old(self).latest_feasible_departure,
            final(self).routes == old(self).routes,
            final(self).heap == old(self).heap,
    {
        let ghost l = self@;
        let ghost n = self.data.points as int;
        proof {
            lemma_chain_detach(l, n, self.next@, self.prev@, point_idx);
        }
        let before = self.prev[point_idx];
        let after = self.next[point_idx];

        self.next[point_idx] = UNSERVED;
        self.prev[point_idx] = UNSERVED;

        self.next[before] = after;
        self.prev[after] = before;

        self.first[point_idx] = UNSERVED;

        self.next[0] = 0;
        self.prev[0] = 0;
        self.layout = Ghost(l.detach(point_idx));
        proof {
            let x = point_idx as int;
            assert(self.next@ =~= old(self).next@.update(x, UNSERVED).update(before as int, after).update(
                0,
                0,
            ));
            assert(self.prev@ =~= old(self).prev@.update(x, UNSERVED).update(after as int, before).update(
                0,
                0,
            ));
        }
    }

    /// Puts an unserved node into a gap of a route. The cached values of the
    /// route are left as they were; the node takes the route id cached at
    /// the node before it.
    fn link(&mut self, point_idx: usize, between: &Between)
        requires
            old(self).linked(),
            !old(self)@.served(point_idx),
            0 < point_idx < old(self).data.points,
            old(self).data.points <= PTS,
            old(self)@.gap(between.0, between.1),
        ensures
            final(self).linked(),
            final(self)@ == old(self)@.attach(point_idx, between.0, between.1),
            final(self).first@ == old(self).first@.update(
                point_idx as int,
                if between.0 == 0 {
                    point_idx
                } else {
                    old(self).first@[between.0 as int]
                },
            ),
            final(self).data == old(self).data,
            final(self).evals == old(self).evals,
            final(self).latest_feasible_departure == old(self).latest_feasible_departure,
            final(self).routes == old(self).routes,
            final(self).heap == old(self).heap,
    {
        let before = between.0;
        let after = between.1;
        let ghost l = self@;
        let ghost n = self.data.points as int;
        proof {
            lemma_chain_attach(l, n, self.next@, self.prev@, point_idx, before, after);
        }
        let first = if before == 0 {
            point_idx
        } else {
            self.first[before]
        };

        self.first[point_idx] = first;

        self.next[before] = point_idx;
        self.next[point_idx] = after;

        self.prev[after] = point_idx;
        self.prev[point_idx] = before;

        self.next[0] = 0;
        self.prev[0] = 0;
        self.layout = Ghost(l.attach(point_idx, before, after));
        proof {
            let x = point_idx as int;
            assert(self.next@ =~= old(self).next@.update(before as int, point_idx).update(x, after).update(
                0,
                0,
            ));
            assert(self.prev@ =~= old(self).prev@.update(after as int, point_idx).update(x, before).update(
                0,
                0,
            ));
        }
    }

    /// The route `r` exists and is feasible, and the chains and fixed tables
    /// are in place: what recomputing the cached values of `r` needs.
    pub open spec fn ready(&self, r: usize) -> bool {
        &&& self.grounded()
        &&& self.linked()
        &&& self@.has(r)
        &&& feasible(self.data, self@.tours[r])
    }

    /// `v` is a node of the route `r`.
    pub open spec fn on_route(&self, v: usize, r: usize) -> bool {
        self@.served(v) && self@.owner[v] == r
    }

    /// The route `r` is a sequence of distinct customers, shorter than the
    /// node table, and each of its nodes knows its place.
    pub proof fn lemma_route_shape(&self, r: usize)
        requires
            self.linked(),
            self.data.sized(),
            self@.has(r),
        ensures
            proper(self.data, self@.tours[r]),
            0 < self@.tours[r].len() < PTS,
            forall|i: int|
                0 <= i < self@.tours[r].len() ==> {
                    let v = #[trigger] self@.tours[r][i];
                    &&& 0 < v < PTS
                    &&& self.on_route(v, r)
                    &&& self@.slot[v] == i
                    &&& self@.tour_of(v) == self@.tours[r]
                },
    {
        let l = self@;
        let s = l.tours[r];
        l.lemma_tour_distinct(self.data.points as int, r);
        lemma_proper_len(self.data, s);
        assert forall|i: int| 0 <= i < s.len() implies {
            let v = #[trigger] l.tours[r][i];
            &&& 0 < v < PTS
            &&& self.on_route(v, r)
            &&& l.slot[v] == i
            &&& l.tour_of(v) == s
        } by {
            let v = l.tours[r][i];
            assert(l.served(v));
        }
    }

    /// The links of the node at position `i` of the route `r` lead to its
    /// neighbours in the route.
    pub proof fn lemma_link_at(&self, r: usize, i: int)
        requires
            self.linked(),
            self.data.sized(),
            self@.has(r),
            0 <= i < self@.tours[r].len(),
        ensures
            self.next@[self@.tours[r][i] as int] == stop(self@.tours[r], i + 1),
            self.prev@[self@.tours[r][i] as int] == stop(self@.tours[r], i - 1),
            stop(self@.tours[r], i + 1) < PTS,
            stop(self@.tours[r], i - 1) < PTS,
    {
        let l = self@;
        let v = l.tours[r][i];
        assert(l.served(v));
        l.lemma_neighbours(self.data.points as int, v);
        self.lemma_route_shape(r);
        if i + 1 < l.tours[r].len() {
            assert(0 < l.tours[r][i + 1] < PTS);
        }
        if i > 0 {
            assert(0 < l.tours[r][i - 1] < PTS);
        }
    }

    /// Recomputes the cached states of the route that starts at `first`.
    fn fix_evals(&mut self, first: usize)
        requires
            old(self).ready(first),
        ensures
            final(self).next == old(self).next,
            final(self).prev == old(self).prev,
            final(self).first == old(self).first,
            final(self).latest_feasible_departure == old(self).latest_feasible_departure,
            final(self).routes == old(self).routes,
            final(self).heap == old(self).heap,
            final(self).data == old(self).data,
            final(self)@ == old(self)@,
            final(self).evals@.len() == PTS,
            forall|v: usize| final(self).on_route(v, first) ==> #[trigger] final(self).eval_ok(v),
            forall|v: usize|
                v < PTS && !old(self).on_route(v, first) ==> #[trigger] final(self).evals@[v as int]
                    == old(self).evals@[v as int],
    {
        let ghost s = self@.tours[first];
        proof {
            self.lemma_route_shape(first);
            self.lemma_link_at(first, 0);
            assert(self@.tours[first][0] == first);
            assert(eval_at(self.data, s, -1) == EvalView::origin());
        }
        let mut ev = Eval::new();
        let prev = self.prev[first];
        ev.reset_to(&self.evals[prev]);

        let mut node = first;
        let ghost mut i: int = 0;
        while node != 0
            invariant
                old(self).ready(first),
                s == old(self)@.tours[first],
                proper(self.data, s),
                0 < s.len() < PTS,
                0 <= i <= s.len(),
                node == stop(s, i),
                ev@ == eval_at(self.data, s, i - 1),
                self.next == old(self).next,
                self.prev == old(self).prev,
                self.first == old(self).first,
                self.latest_feasible_departure == old(self).latest_feasible_departure,
                self.routes == old(self).routes,
                self.heap == old(self).heap,
                self.data == old(self).data,
                self@ == old(self)@,
                self.evals@.len() == PTS,
                forall|k: int|
                    0 <= k < i ==> (#[trigger] self.evals@[s[k] as int])@ == eval_at(self.data, s, k),
                forall|v: usize|
                    v < PTS && !old(self).on_route(v, first) ==> #[trigger] self.evals@[v as int]
                        == old(self).evals@[v as int],
            decreases s.len() - i,
        {
            proof {
                old(self).lemma_route_shape(first);
                old(self).lemma_link_at(first, i);
                lemma_eval_within(self.data, s, i - 1);
                lemma_within_grows(ev@, i, PTS as int);
                assert(s[i] == node);
                assert(old(self).on_route(s[i], first));
            }
            ev.next(node, self.data);
            self.evals[node].reset_to(&ev);
            node = self.next[node];
            proof {
                assert forall|k: int| 0 <= k < i + 1 implies (#[trigger] self.evals@[s[k] as int])@
                    == eval_at(self.data, s, k) by {
                    if k < i {
                        assert(s[k] != s[i]);
                    }
                }
                i = i + 1;
            }
        }
        proof {
            old(self).lemma_route_shape(first);
            assert forall|v: usize| self.on_route(v, first) implies #[trigger] self.eval_ok(v) by {
                let k = self@.slot[v];
                assert(self@.served(v));
                assert(s[k] == v);
            }
        }
    }

    /// Recomputes the latest feasible departures of the route that ends at
    /// `last`, walking back from there.
    fn fix_latest_feasible_departures(&mut self, last: usize)
        requires
            old(self)@.served(last),
            old(self).ready(old(self)@.owner[last]),
            old(self)@.succ(last) == 0,
        ensures
            final(self).next == old(self).next,
            final(self).prev == old(self).prev,
            final(self).first == old(self).first,
            final(self).evals == old(self).evals,
            final(self).routes == old(self).routes,
            final(self).heap == old(self).heap,
            final(self).data == old(self).data,
            final(self)@ == old(self)@,
            forall|v: usize|
                final(self).on_route(v, old(self)@.owner[last]) ==> #[trigger] final(self).lfd_ok(v),
            forall|v: usize|
                v < PTS && !old(self).on_route(v, old(self)@.owner[last])
                    ==> #[trigger] final(self).latest_feasible_departure@[v as int] == old(self).latest_feasible_departure@[v as int],
    {
        let ghost r = self@.owner[last];
        let ghost s = self@.tours[r];
        proof {
            self.lemma_route_shape(r);
            self@.lemma_neighbours(self.data.points as int, last);
        }
        let mut node = last;
        let mut after_node = self.next[node];
        let mut latest_feasible_departure = self.latest_feasible_departure[after_node];
        let ghost mut i: int = s.len() - 1;

        while node != 0
            invariant
                old(self).ready(r),
                s == old(self)@.tours[r],
                proper(self.data, s),
                0 < s.len() < PTS,
                -1 <= i < s.len(),
                node == stop(s, i),
                after_node == stop(s, i + 1),
                latest_feasible_departure == lfd_at(self.data, s, i + 1),
                self.next == old(self).next,
                self.prev == old(self).prev,
                self.first == old(self).first,
                self.evals == old(self).evals,
                self.routes == old(self).routes,
                self.heap == old(self).heap,
                self.data == old(self).data,
                self@ == old(self)@,
                forall|k: int|
                    i < k < s.len() ==> #[trigger] self.latest_feasible_departure@[s[k] as int]
                        == lfd_at(self.data, s, k),
                forall|v: usize|
                    v < PTS && !old(self).on_route(v, r)
                        ==> #[trigger] self.latest_feasible_departure@[v as int] == old(self).latest_feasible_departure@[v as int],
            decreases i + 1,
        {
            proof {
                old(self).lemma_route_shape(r);
                old(self).lemma_link_at(r, i);
                lemma_feasible_meets_lfd(self.data, s, i);
                lemma_feasible_meets_lfd(self.data, s, i + 1);
                assert(s[i] == node);
                assert(old(self).on_route(s[i], r));
            }
            let drive_time = self.data.time_between(node, after_node);
            latest_feasible_departure = latest_feasible_departure - drive_time;
            let due = self.data.pts[node].due;
            if due < latest_feasible_departure {
                latest_feasible_departure = due;
            }
            self.latest_feasible_departure[node] = latest_feasible_departure;
            after_node = node;
            node = self.prev[node];
            proof {
                assert forall|k: int| i - 1 < k < s.len() implies #[trigger] self.latest_feasible_departure@[s[k] as int]
                    == lfd_at(self.data, s, k) by {
                    if k > i {
                        assert(s[k] != s[i]);
                    }
                }
                i = i - 1;
            }
        }
        proof {
            old(self).lemma_route_shape(r);
            assert forall|v: usize| self.on_route(v, r) implies #[trigger] self.lfd_ok(v) by {
                let k = self@.slot[v];
                assert(self@.served(v));
                assert(s[k] == v);
            }
        }
    }

    /// Recomputes all cached values of the route that starts at `first`.
    fn fix_route(&mut self, first: usize)
        requires
            old(self).ready(first),
        ensures
            final(self).next == old(self).next,
            final(self).prev == old(self).prev,
            final(self).routes == old(self).routes,
            final(self).heap == old(self).heap,
            final(self).data == old(self).data,
            final(self)@ == old(self)@,
            final(self).evals@.len() == PTS,
            forall|v: usize| final(self).on_route(v, first) ==> #[trigger] final(self).cached_at(v),
            forall|v: usize|
                #![trigger final(self).evals@[v as int]]
                #![trigger final(self).first@[v as int]]
                #![trigger final(self).latest_feasible_departure@[v as int]]
                v < PTS && !old(self).on_route(v, first) ==> {
                    &&& final(self).evals@[v as int] == old(self).evals@[v as int]
                    &&& final(self).first@[v as int] == old(self).first@[v as int]
                    &&& final(self).latest_feasible_departure@[v as int] == old(self).latest_feasible_departure@[v as int]
                },
    {
        let ghost s = self@.tours[first];
        proof {
            self.lemma_route_shape(first);
            self.lemma_link_at(first, 0);
            assert(self@.tours[first][0] == first);
            assert(eval_at(self.data, s, -1) == EvalView::origin());
        }
        let mut ev = Eval::new();
        let mut prev = self.prev[first];
        ev.reset_to(&self.evals[prev]);

        let mut node = first;
        let ghost mut i: int = 0;
        while node != 0
            invariant
                old(self).ready(first),
                s == old(self)@.tours[first],
                proper(self.data, s),
                0 < s.len() < PTS,
                0 <= i <= s.len(),
                node == stop(s, i),
                prev == stop(s, i - 1),
                ev@ == eval_at(self.data, s, i - 1),
                self.next == old(self).next,
                self.prev == old(self).prev,
                self.latest_feasible_departure == old(self).latest_feasible_departure,
                self.routes == old(self).routes,
                self.heap == old(self).heap,
                self.data == old(self).data,
                self@ == old(self)@,
                self.evals@.len() == PTS,
                forall|k: int|
                    0 <= k < i ==> (#[trigger] self.evals@[s[k] as int])@ == eval_at(self.data, s, k),
                forall|k: int| 0 <= k < i ==> #[trigger] self.first@[s[k] as int] == first,
                forall|v: usize|
                    #![trigger self.evals@[v as int]]
                    #![trigger self.first@[v as int]]
                    v < PTS && !old(self).on_route(v, first) ==> {
                        &&& self.evals@[v as int] == old(self).evals@[v as int]
                        &&& self.first@[v as int] == old(self).first@[v as int]
                    },
            decreases s.len() - i,
        {
            proof {
                old(self).lemma_route_shape(first);
                old(self).lemma_link_at(first, i);
                lemma_eval_within(self.data, s, i - 1);
                lemma_within_grows(ev@, i, PTS as int);
                assert(s[i] == node);
                assert(old(self).on_route(s[i], first));
            }
            self.first[node] = first;
            ev.next(node, self.data);
            self.evals[node].reset_to(&ev);
            prev = node;
            node = self.next[node];
            proof {
                assert forall|k: int| 0 <= k < i + 1 implies (#[trigger] self.evals@[s[k] as int])@
                    == eval_at(self.data, s, k) by {
                    if k < i {
                        assert(s[k] != s[i]);
                    }
                }
                assert forall|k: int| 0 <= k < i + 1 implies #[trigger] self.first@[s[k] as int]
                    == first by {
                    if k < i {
                        assert(s[k] != s[i]);
                    }
                }
                i = i + 1;
            }
        }
        proof {
            old(self).lemma_route_shape(first);
            assert(prev == s[s.len() - 1]);
            assert(self.on_route(prev, first));
            assert(self@.slot[prev] == s.len() - 1);
            self@.lemma_neighbours(self.data.points as int, prev);
        }
        let ghost mid = *self;
        self.fix_latest_feasible_departures(prev);
        proof {
            assert forall|v: usize| self.on_route(v, first) implies #[trigger] self.cached_at(v) by {
                let k = self@.slot[v];
                assert(self@.served(v));
                assert(s[k] == v);
                assert(self.lfd_ok(v));
                assert(mid.first@[s[k] as int] == first);
                assert((mid.evals@[s[k] as int])@ == eval_at(self.data, s, k));
            }
        }
    }
    /// In a solution whose partners travel together, every route holds the
    /// partner of each of its nodes, pickups first.
    pub proof fn lemma_coupled(&self, r: usize)
        requires
            self.linked(),
            self.data.wf(),
            matched(self@, self.data),
            self@.has(r),
        ensures
            proper(self.data, self@.tours[r]),
            coupled(self.data, self@.tours[r]),
    {
        let l = self@;
        let s = l.tours[r];
        self.lemma_route_shape(r);
        assert forall|i: int| 0 <= i < s.len() implies #[trigger] coupled_at(self.data, s, i) by {
            let v = l.tours[r][i];
            assert(l.served(v));
            assert(mated(l, self.data, v));
            let w = self.data.pair(v as int) as usize;
            assert(l.served(w));
            let j = l.slot[w];
            assert(s[j] == w);
            lemma_index_of(s, j);
        }
    }

    /// The node that names the route of `pickup_idx` once the pickup and its
    /// delivery are gone, or 0 when nothing is left of the route.
    fn get_first_after_removal(&self, pickup_idx: usize, delivery_idx: usize) -> (r: usize)
        requires
            self.linked(),
            self.data.wf(),
            matched(self@, self.data),
            self@.served(pickup_idx),
            self.first_ok(pickup_idx),
            !self.data.delivers(pickup_idx as int),
            delivery_idx == self.data.pair(pickup_idx as int),
        ensures
            r == stop(
                self@.tour_of(pickup_idx).remove(self@.slot[delivery_idx]).remove(
                    self@.slot[pickup_idx],
                ),
                0,
            ),
            r < PTS,
    {
        let ghost l = self@;
        let ghost s = l.tour_of(pickup_idx);
        proof {
            assert(mated(l, self.data, pickup_idx));
            assert(l.served(delivery_idx));
            self.lemma_route_shape(l.owner[pickup_idx]);
            l.lemma_neighbours(self.data.points as int, pickup_idx);
            l.lemma_neighbours(self.data.points as int, delivery_idx);
            assert(s[l.slot[pickup_idx]] == pickup_idx);
            assert(s[l.slot[delivery_idx]] == delivery_idx);
            assert(s[0] == l.owner[pickup_idx]);
        }
        let f = self.first[pickup_idx];
        let after_pickup = self.next[pickup_idx];

        if f != pickup_idx {
            f
        } else if after_pickup != delivery_idx {
            after_pickup
        } else {
            self.next[delivery_idx]
        }
    }

    /// What is left to show once a pair has been unlinked and the rest of
    /// its route recomputed: the solution is settled again.
    proof fn lemma_pair_removed(pre: &Sol<'a>, post: &Sol<'a>, p: usize)
        requires
            pre.settled(),
            pre@.served(p),
            !pre.data.delivers(p as int),
            post.data == pre.data,
            post.heap == pre.heap,
            post.linked(),
            post@ == pre@.detach(p).detach(pre.data.pair(p as int) as usize),
            post.routes@ == post@.tours.dom(),
            post.evals@.len() == PTS,
            post.first@[p as int] == UNSERVED,
            post.first@[pre.data.pair(p as int)] == UNSERVED,
            forall|v: usize|
                post@.served(v) && pre@.owner[v] == pre@.owner[p] ==> #[trigger] post.cached_at(v),
            forall|v: usize|
                #![trigger post.evals@[v as int]]
                #![trigger post.latest_feasible_departure@[v as int]]
                v < PTS && !(post@.served(v) && pre@.owner[v] == pre@.owner[p]) ==> {
                    &&& post.evals@[v as int] == pre.evals@[v as int]
                    &&& post.latest_feasible_departure@[v as int]
                        == pre.latest_feasible_departure@[v as int]
                },
            forall|v: usize|
                v < PTS && v != p && v != pre.data.pair(p as int) && !(post@.served(v)
                    && pre@.owner[v] == pre@.owner[p]) ==> #[trigger] post.first@[v as int]
                    == pre.first@[v as int],
        ensures
            post.settled(),
    {
        let l = pre@;
        let l2 = post@;
        let data = pre.data;
        let n = data.points as int;
        let r = l.owner[p];
        let s = l.tours[r];
        let a = l.slot[p];
        let d = data.pair(p as int) as usize;
        let b = l.slot[d];
        let s2 = s.remove(b).remove(a);
        assert(mated(l, data, p));
        assert(l.served(d));
        pre.lemma_route_shape(r);
        pre.lemma_coupled(r);
        assert(s[a] == p);
        assert(s[b] == d);
        lemma_remove_pair_feasible(data, s, a, b);
        l.lemma_detach_pair(n, p, d);
        assert(data.customer(p as int));
        assert(data.pair_ok(p as int));
        assert forall|v: usize| l2.served(v) implies #[trigger] mated(l2, data, v) by {
            assert(l.served(v));
            assert(mated(l, data, v));
            let w = data.pair(v as int) as usize;
            assert(l.served(w));
            assert(data.customer(v as int));
            assert(data.pair_ok(v as int));
            assert(w != p && w != d);
        }
        assert forall|v: usize| l2.served(v) implies #[trigger] post.cached_at(v) by {
            assert(l.served(v));
            assert(pre.cached_at(v));
            if l.owner[v] != r {
                assert(l2.tour_of(v) == l.tour_of(v));
            }
        }
        assert forall|q: usize| #[trigger] l2.has(q) implies feasible(data, l2.tours[q]) by {
            if s2.len() > 0 && q == s2[0] {
            } else {
                assert(l.has(q));
            }
        }
        assert forall|v: usize| 0 < v < PTS && !l2.served(v) implies #[trigger] post.first@[v as int]
            == UNSERVED by {
            if v != p && v != d {
                assert(!l.served(v));
            }
        }
        assert forall|i: int| 0 <= i < post.heap.pool().len() implies {
            let v = #[trigger] post.heap.pool()[i];
            &&& data.customer(v as int)
            &&& !data.delivers(v as int)
            &&& !l2.served(v)
        } by {
            let v = pre.heap.pool()[i];
            assert(!l.served(v));
        }
        assert(!l.served(0));
    }

    /// Takes the pair of `pickup_idx` out of its route and recomputes what
    /// is cached for the rest of the route. The pool is not touched.
    pub fn remove_pair(&mut self, pickup_idx: usize)
        requires
            old(self).settled(),
            old(self)@.served(pickup_idx),
            !old(self).data.delivers(pickup_idx as int),
        ensures
            final(self).settled(),
            final(self)@ == old(self)@.detach(pickup_idx).detach(
                old(self).data.pair(pickup_idx as int) as usize,
            ),
            final(self).heap == old(self).heap,
            final(self).data == old(self).data,
            forall|v: usize|
                #![trigger final(self).evals@[v as int]]
                #![trigger final(self).latest_feasible_departure@[v as int]]
                v < PTS && !(final(self)@.served(v) && old(self)@.owner[v] == old(self)@.owner[pickup_idx])
                    ==> {
                    &&& final(self).evals@[v as int] == old(self).evals@[v as int]
                    &&& final(self).latest_feasible_departure@[v as int] == old(self).latest_feasible_departure@[v as int]
                },
            forall|v: usize|
                #[trigger] final(self)@.served(v) <==> old(self)@.served(v) && v != pickup_idx && v
                    != old(self).data.pair(pickup_idx as int) as usize,
            old(self).complete() ==> final(self).complete_but(pickup_idx),
            final(self)@.count() == old(self)@.count() - if old(self)@.tour_of(pickup_idx).len() == 2 {
                1int
            } else {
                0int
            },
    {
        let ghost l = self@;
        let ghost n = self.data.points as int;
        let ghost r = l.owner[pickup_idx];
        let ghost s = l.tours[r];
        let ghost a = l.slot[pickup_idx];
        let ghost d = self.data.pair(pickup_idx as int) as usize;
        let ghost b = l.slot[d];
        let ghost s2 = s.remove(b).remove(a);
        proof {
            assert(mated(l, self.data, pickup_idx));
            assert(l.served(d));
            assert(self.cached_at(pickup_idx));
            self.lemma_route_shape(r);
            self.lemma_coupled(r);
            assert(s[a] == pickup_idx);
            assert(s[b] == d);
            lemma_remove_pair_feasible(self.data, s, a, b);
            l.lemma_detach_pair(n, pickup_idx, d);
            l.lemma_detach_pair_count(n, pickup_idx, d);
            assert(r == pickup_idx || (s2.len() > 0 && r == s2[0])) by {
                assert(s[0] == r);
                if a > 0 {
                    assert(s2[0] == s[0]);
                }
            }
        }
        self.routes.remove(&pickup_idx);

        let delivery_idx = self.data.pair_of(pickup_idx);

        let first_after_removal = self.get_first_after_removal(pickup_idx, delivery_idx);
        if first_after_removal != 0 {
            self.routes.insert(first_after_removal);
        }
        proof {
            assert(l.has(r));
            assert(first_after_removal == stop(s2, 0));
            if pickup_idx != r {
                if l.has(pickup_idx) {
                    assert(l.tours[pickup_idx][0] == pickup_idx);
                    assert(l.owner[l.tours[pickup_idx][0]] == pickup_idx);
                }
                assert(!l.has(pickup_idx));
                assert(old(self).routes@.remove(pickup_idx) =~= old(self).routes@);
            }
            if s2.len() > 0 {
                assert(old(self).routes@.remove(pickup_idx).insert(s2[0]) =~= l.tours.remove(
                    r,
                ).insert(s2[0], s2).dom());
            } else {
                assert(a == 0);
                assert(old(self).routes@.remove(pickup_idx) =~= l.tours.remove(r).dom());
            }
            assert(self.routes@ =~= l.pair_gone(pickup_idx, d).dom());
        }
        self.unlink(pickup_idx);
        self.unlink(delivery_idx);
        let ghost mid = *self;
        if first_after_removal != 0 {
            proof {
                assert(self@.has(s2[0]));
            }
            self.fix_route(first_after_removal);
        }
        proof {
            let l2 = self@;
            assert forall|v: usize|
                l2.served(v) && l.owner[v] == r implies #[trigger] self.cached_at(v) by {
                assert(self.on_route(v, first_after_removal));
            }
            assert forall|v: usize|
                v < PTS && !(l2.served(v) && l.owner[v] == r) implies !mid.on_route(
                v,
                first_after_removal,
            ) by {
                if l2.served(v) {
                    assert(l.served(v));
                    assert(l.has(l.owner[v]));
                }
            }
            Self::lemma_pair_removed(old(self), self, pickup_idx);
            assert forall|v: usize|
                #[trigger] self@.served(v) <==> l.served(v) && v != pickup_idx && v != d by {}
            if old(self).complete() {
                assert forall|v: usize|
                    self.data.customer(v as int) && !self.data.delivers(v as int) && v
                        != pickup_idx implies #[trigger] self@.served(v) || self.heap.pool().contains(
                    v,
                ) by {
                    assert(l.served(v) || old(self).heap.pool().contains(v));
                    assert(self.data.pair_ok(pickup_idx as int));
                }
            }
        }
    }
    /// The gaps of `mov` exist, its pair is unserved and outside the pool,
    /// and putting the pair there gives a feasible route with the pickup
    /// ahead of the delivery.
    pub open spec fn fits(&self, mov: &Move) -> bool {
        &&& fits_in(self@, self.data, mov)
        &&& !self.heap.pool().contains(mov.pickup)
    }

    /// The layout once the pair of `mov` has been put into its gaps.
    pub open spec fn placed(&self, mov: &Move) -> Layout {
        placed_in(self@, self.data, mov)
    }

    /// What is left to show once a pair has been linked in and its route
    /// recomputed: the solution is settled again.
    proof fn lemma_pair_placed(pre: &Sol<'a>, post: &Sol<'a>, mov: &Move)
        requires
            pre.settled(),
            pre.fits(mov),
            post.data == pre.data,
            post.heap == pre.heap,
            post.linked(),
            post@ == pre.placed(mov),
            post.routes@ == post@.tours.dom(),
            post.evals@.len() == PTS,
            forall|v: usize|
                post@.served(v) && post@.owner[v] == post@.owner[mov.pickup]
                    ==> #[trigger] post.cached_at(v),
            forall|v: usize|
                #![trigger post.evals@[v as int]]
                #![trigger post.latest_feasible_departure@[v as int]]
                #![trigger post.first@[v as int]]
                v < PTS && !(post@.served(v) && post@.owner[v] == post@.owner[mov.pickup]) ==> {
                    &&& post.evals@[v as int] == pre.evals@[v as int]
                    &&& post.latest_feasible_departure@[v as int]
                        == pre.latest_feasible_departure@[v as int]
                    &&& post.first@[v as int] == pre.first@[v as int]
                },
        ensures
            post.settled(),
    {
        let l = pre@;
        let l2 = post@;
        let data = pre.data;
        let n = data.points as int;
        let p = mov.pickup;
        let d = data.pair(p as int) as usize;
        let pb = (mov.put_pickup_between.0, mov.put_pickup_between.1);
        let db = (mov.put_delivery_between.0, mov.put_delivery_between.1);
        let r = l.gap_owner(pb.0, pb.1);
        l.lemma_put(n, p, pb, d, db);
        assert(data.pair_ok(p as int));
        assert forall|v: usize| l2.served(v) implies #[trigger] mated(l2, data, v) by {
            if v == p {
            } else if v == d {
            } else {
                assert(l.served(v));
                assert(mated(l, data, v));
                let w = data.pair(v as int) as usize;
                assert(l.served(w));
                if l.owner[v] == r {
                    assert(l2.owner[v] == l2.owner[p]);
                    assert(l2.owner[w] == l2.owner[p]);
                } else {
                    assert(l2.owner[v] == l.owner[v]);
                    assert(l2.owner[w] == l.owner[w]);
                }
                if l.slot[v] < l.slot[w] {
                    assert(l2.slot[v] < l2.slot[w]);
                } else {
                    assert(l2.slot[w] < l2.slot[v]);
                }
            }
        }
        assert forall|v: usize| l2.served(v) implies #[trigger] post.cached_at(v) by {
            if l2.owner[v] != l2.owner[p] {
                assert(l.served(v));
                assert(pre.cached_at(v));
                assert(l.owner[v] != r);
                assert(l2.tour_of(v) == l.tour_of(v));
            }
        }
        assert forall|q: usize| #[trigger] l2.has(q) implies feasible(data, l2.tours[q]) by {
            if q != l2.owner[p] {
                assert(l.has(q));
            }
        }
        assert forall|v: usize| 0 < v < PTS && !l2.served(v) implies #[trigger] post.first@[v as int]
            == UNSERVED by {
            assert(!l.served(v));
        }
        assert forall|i: int| 0 <= i < post.heap.pool().len() implies {
            let v = #[trigger] post.heap.pool()[i];
            &&& data.customer(v as int)
            &&& !data.delivers(v as int)
            &&& !l2.served(v)
        } by {
            let v = pre.heap.pool()[i];
            assert(!l.served(v));
            assert(pre.heap.pool().contains(v));
        }
        assert(!l2.served(0));
    }

    /// Links the pair of `mov` into its gaps and recomputes what is cached
    /// for the route that took it.
    fn place(&mut self, mov: &Move)
        requires
            old(self).settled(),
            old(self).fits(mov),
        ensures
            final(self).settled(),
            final(self)@ == old(self).placed(mov),
            final(self).heap == old(self).heap,
            final(self).data == old(self).data,
            forall|v: usize|
                #![trigger final(self).evals@[v as int]]
                #![trigger final(self).latest_feasible_departure@[v as int]]
                v < PTS && !(final(self)@.served(v) && final(self)@.owner[v] == final(self)@.owner[mov.pickup]) ==> {
                    &&& final(self).evals@[v as int] == old(self).evals@[v as int]
                    &&& final(self).latest_feasible_departure@[v as int] == old(self).latest_feasible_departure@[v as int]
                },
            forall|v: usize|
                #[trigger] final(self)@.served(v) <==> old(self)@.served(v) || v == mov.pickup || v
                    == old(self).data.pair(mov.pickup as int) as usize,
            final(self)@.count() == old(self)@.count(),
    {
        let ghost l = self@;
        let ghost n = self.data.points as int;
        let ghost p = mov.pickup;
        let ghost d = self.data.pair(p as int) as usize;
        let ghost pb = (mov.put_pickup_between.0, mov.put_pickup_between.1);
        let ghost db = (mov.put_delivery_between.0, mov.put_delivery_between.1);
        let ghost r = l.gap_owner(pb.0, pb.1);
        proof {
            l.lemma_put(n, p, pb, d, db);
            l.lemma_put_count(n, p, pb, d, db);
            if pb.0 != 0 {
                assert(l.served(pb.0));
                assert(self.cached_at(pb.0));
                l.lemma_neighbours(n, pb.0);
                if l.has(pb.0) {
                    assert(l.tours[pb.0][0] == pb.0);
                    assert(l.owner[l.tours[pb.0][0]] == pb.0);
                }
                if pb.1 != 0 && l.has(pb.1) {
                    assert(l.tours[pb.1][0] == pb.1);
                    assert(l.slot[l.tours[pb.1][0]] == 0);
                }
            } else {
                assert(l.served(pb.1));
                l.lemma_neighbours(n, pb.1);
            }
            assert(!l.has(0)) by {
                if l.has(0) {
                    assert(l.served(l.tours[0][0]));
                }
            }
        }
        let pickup_idx = mov.pickup;
        let delivery_idx = self.data.pair_of(pickup_idx);

        self.routes.remove(&mov.put_pickup_between.0);
        self.routes.remove(&mov.put_pickup_between.1);
        let ghost trimmed = self.routes@;
        proof {
            assert(trimmed =~= l.tours.dom().remove(pb.0).remove(pb.1));
            if pb.0 == 0 {
                assert(pb.1 == r);
            } else {
                assert(!l.has(pb.1));
                assert(pb.0 == r || !l.has(pb.0));
            }
        }

        self.link(pickup_idx, &mov.put_pickup_between);
        self.link(delivery_idx, &mov.put_delivery_between);

        let first = self.first[pickup_idx];
        self.routes.insert(first);
        proof {
            assert(first == self@.owner[p]);
            assert(self.routes@ == trimmed.insert(first));
            assert(self@.tours.dom() == l.tours.dom().remove(r).insert(first));
            assert(trimmed.insert(first) =~= l.tours.dom().remove(r).insert(first));
        }
        let ghost mid = *self;
        self.fix_route(first);
        proof {
            assert forall|v: usize|
                self@.served(v) && self@.owner[v] == self@.owner[p] implies #[trigger] self.cached_at(
                v,
            ) by {
                assert(self.on_route(v, first));
            }
            assert forall|v: usize|
                #![trigger self.first@[v as int]]
                v < PTS && !(self@.served(v) && self@.owner[v] == self@.owner[p])
                    implies self.first@[v as int] == old(self).first@[v as int] by {
                assert(!mid.on_route(v, first));
                assert(v != p && v != d);
            }
            Self::lemma_pair_placed(old(self), self, mov);
        }
    }
    /// Every pickup listed in `removed` can be ejected at its turn: it is a
    /// pickup that is still served once the pickups listed before it are
    /// gone, and its ejection count can still grow.
    pub open spec fn ejectable(&self, removed: Seq<usize>) -> bool {
        forall|k: int|
            0 <= k < removed.len() && removed[k] != 0 ==> {
                let v = #[trigger] removed[k];
                &&& self.data.customer(v as int)
                &&& !self.data.delivers(v as int)
                &&& ejected(self@, self.data, removed, k).served(v)
                &&& self.heap.times()[v as int] < u64::MAX
            }
    }

    /// `mov` can be applied: its ejections are possible, and once they are
    /// made its pair, which is not among the ejected, fits its gaps.
    pub open spec fn admits(&self, mov: &Move) -> bool {
        &&& self.ejectable(mov.removed@)
        &&& fits_in(ejected(self@, self.data, mov.removed@, K_MAX as int), self.data, mov)
        &&& !listed(mov.removed@, K_MAX as int, mov.pickup)
    }

    /// Ejects the pair of a served pickup: takes it out of its route, puts
    /// the pickup into the pool and counts the ejection.
    fn eject(&mut self, pickup_idx: usize)
        requires
            old(self).wf(),
            old(self)@.served(pickup_idx),
            !old(self).data.delivers(pickup_idx as int),
            old(self).heap.times()[pickup_idx as int] < u64::MAX,
        ensures
            final(self).wf(),
            final(self)@ == old(self)@.detach(pickup_idx).detach(
                old(self).data.pair(pickup_idx as int) as usize,
            ),
            final(self).data == old(self).data,
            final(self).heap.times() == old(self).heap.times().update(
                pickup_idx as int,
                (old(self).heap.times()[pickup_idx as int] + 1) as u64,
            ),
            forall|v: usize|
                final(self).heap.pool().contains(v) <==> old(self).heap.pool().contains(v) || v
                    == pickup_idx,
            forall|v: usize| final(self)@.served(v) ==> old(self)@.served(v),
            forall|p: usize| old(self).complete_but(p) ==> final(self).complete_but(p),
            final(self)@.count() <= old(self)@.count(),
            forall|v: usize|
                #![trigger final(self).evals@[v as int]]
                #![trigger final(self).latest_feasible_departure@[v as int]]
                v < PTS && !final(self)@.served(v) ==> {
                    &&& final(self).evals@[v as int] == old(self).evals@[v as int]
                    &&& final(self).latest_feasible_departure@[v as int] == old(
                        self).latest_feasible_departure@[v as int]
                },
    {
        proof {
            assert(mated(self@, self.data, pickup_idx));
            self@.lemma_detach_pair(
                self.data.points as int,
                pickup_idx,
                self.data.pair(pickup_idx as int) as usize,
            );
        }
        self.remove_pair(pickup_idx);
        proof {
            let pool = self.heap.pool();
            assert(!pool.contains(pickup_idx)) by {
                if pool.contains(pickup_idx) {
                    let i = choose|i: int| 0 <= i < pool.len() && pool[i] == pickup_idx;
                    assert(!old(self)@.served(pool[i]));
                }
            }
            let grown = pool.push(pickup_idx);
            assert forall|i: int, j: int|
                0 <= i < grown.len() && 0 <= j < grown.len() && i != j implies grown[i]
                != grown[j] by {
                if i < pool.len() {
                    assert(pool.contains(pool[i]));
                }
                if j < pool.len() {
                    assert(pool.contains(pool[j]));
                }
            }
            assert forall|i: int| 0 <= i < grown.len() implies self.data.customer(
                #[trigger] grown[i] as int,
            ) by {
                if i < pool.len() {
                    assert(self.data.customer(pool[i] as int));
                }
            }
            lemma_proper_len(self.data, grown);
        }
        let ghost mid = *self;
        self.heap.push(pickup_idx);
        proof {
            let pool = self.heap.pool();
            assert(pool.drop_last() =~= mid.heap.pool());
            assert forall|i: int| 0 <= i < self.heap.size implies #[trigger] self.heap.removed_idx[i]
                < PTS by {
                assert(pool[i] == self.heap.removed_idx[i]);
                if i < mid.heap.size {
                    assert(mid.heap.pool()[i] == mid.heap.removed_idx[i]);
                }
            }
        }
        self.heap.inc();
        proof {
            let pool = self.heap.pool();
            let grown = mid.heap.pool().push(pickup_idx);
            assert forall|v: usize|
                pool.contains(v) <==> old(self).heap.pool().contains(v) || v == pickup_idx by {
                if grown.contains(v) {
                    let i = choose|i: int| 0 <= i < grown.len() && grown[i] == v;
                    if i < mid.heap.pool().len() {
                        assert(mid.heap.pool()[i] == v);
                    }
                }
                if mid.heap.pool().contains(v) {
                    let i = choose|i: int| 0 <= i < mid.heap.pool().len() && mid.heap.pool()[i] == v;
                    assert(grown[i] == v);
                }
                assert(grown[grown.len() - 1] == pickup_idx);
            }
            assert forall|i: int| 0 <= i < pool.len() implies {
                let v = #[trigger] pool[i];
                &&& self.data.customer(v as int)
                &&& !self.data.delivers(v as int)
                &&& !self@.served(v)
            } by {
                let v = pool[i];
                assert(pool.contains(v));
                if v != pickup_idx {
                    let j = choose|j: int|
                        0 <= j < mid.heap.pool().len() && mid.heap.pool()[j] == v;
                    assert(!mid@.served(mid.heap.pool()[j]));
                }
            }
            assert forall|v: usize| self@.served(v) implies #[trigger] self.cached_at(v) by {
                assert(mid.cached_at(v));
            }
            assert forall|p: usize| old(self).complete_but(p) implies self.complete_but(p) by {
                assert forall|v: usize|
                    self.data.customer(v as int) && !self.data.delivers(v as int) && v != p
                        implies #[trigger] self@.served(v) || self.heap.pool().contains(v) by {
                    assert(old(self)@.served(v) || old(self).heap.pool().contains(v));
                    assert(self.data.pair_ok(pickup_idx as int));
                }
            }
        }
    }

    /// Applies `mov`: ejects the pairs it lists, each with its count raised
    /// and its pickup moved into the pool, then links the pair of the move
    /// into its gaps and recomputes what is cached for the route.
    pub fn make_move(&mut self, mov: &Move)
        requires
            old(self).wf(),
            old(self).admits(mov),
            !old(self).heap.pool().contains(mov.pickup),
        ensures
            final(self).wf(),
            final(self).data == old(self).data,
            final(self)@ == placed_in(
                ejected(old(self)@, old(self).data, mov.removed@, K_MAX as int),
                old(self).data,
                mov,
            ),
            final(self).heap.times() == bumped(old(self).heap.times(), mov.removed@, K_MAX as int),
            grown_by(old(self).heap.pool(), final(self).heap.pool(), mov.removed@, K_MAX as int),
            (forall|i: int| 0 <= i < K_MAX ==> mov.removed@[i] == 0) ==> final(self).heap == old(
                self).heap,
            (forall|i: int| 0 <= i < K_MAX ==> mov.removed@[i] == 0) ==> forall|v: usize|
                #[trigger] final(self)@.served(v) <==> old(self)@.served(v) || v == mov.pickup || v
                    == old(self).data.pair(mov.pickup as int) as usize,
            old(self).complete_but(mov.pickup) ==> final(self).complete(),
            forall|v: usize|
                v < PTS ==> old(self).heap.times()[v as int] <= #[trigger] final(self).heap.times()[v as int]
                    <= old(self).heap.times()[v as int] + 1,
            final(self)@.count() <= old(self)@.count(),
            (forall|i: int| 0 <= i < K_MAX ==> mov.removed@[i] == 0) ==> final(self)@.count() == old(self)@.count(),
            final(self)@.served(mov.pickup),
            forall|v: usize|
                #![trigger final(self).evals@[v as int]]
                #![trigger final(self).latest_feasible_departure@[v as int]]
                v < PTS && !old(self)@.served(v) && !final(self)@.served(v) ==> {
                    &&& final(self).evals@[v as int] == old(self).evals@[v as int]
                    &&& final(self).latest_feasible_departure@[v as int] == old(
                        self).latest_feasible_departure@[v as int]
                },
    {
        let ghost removed = mov.removed@;
        let mut k: usize = 0;
        while k < K_MAX
            invariant
                k <= K_MAX,
                removed == mov.removed@,
                old(self).wf(),
                old(self).ejectable(removed),
                self.wf(),
                self.data == old(self).data,
                self@ == ejected(old(self)@, self.data, removed, k as int),
                self.heap.times() == bumped(old(self).heap.times(), removed, k as int),
                grown_by(old(self).heap.pool(), self.heap.pool(), removed, k as int),
                (forall|i: int| 0 <= i < k ==> removed[i] == 0) ==> self.heap == old(self).heap,
                (forall|i: int| 0 <= i < k ==> removed[i] == 0) ==> self@ == old(self)@,
                old(self).complete_but(mov.pickup) ==> self.complete_but(mov.pickup),
                forall|v: usize|
                    v < PTS ==> old(self).heap.times()[v as int] <= #[trigger] self.heap.times()[v as int]
                        <= old(self).heap.times()[v as int] + 1,
                forall|v: usize| self@.served(v) ==> old(self)@.served(v),
                forall|v: usize| #[trigger]
                    self@.served(v) ==> self.heap.times()[v as int] == old(self).heap.times()[v as int],
                self@.count() <= old(self)@.count(),
                forall|v: usize|
                    #![trigger self.evals@[v as int]]
                    #![trigger self.latest_feasible_departure@[v as int]]
                    v < PTS && !old(self)@.served(v) ==> {
                        &&& self.evals@[v as int] == old(self).evals@[v as int]
                        &&& self.latest_feasible_departure@[v as int] == old(
                            self).latest_feasible_departure@[v as int]
                    },
            decreases K_MAX - k,
        {
            let v = mov.removed[k];
            let ghost mid = *self;
            if v != 0 {
                proof {
                    assert(removed[k as int] == v);
                    assert(self@.served(v));
                }
                self.eject(v);
                proof {
                    assert forall|w: usize| #[trigger] self@.served(w) implies self.heap.times()[w as int]
                        == old(self).heap.times()[w as int] by {
                        assert(mid@.served(w));
                        assert(mated(mid@, mid.data, v));
                        mid@.lemma_detach_pair(
                            mid.data.points as int,
                            v,
                            mid.data.pair(v as int) as usize,
                        );
                    }
                }
            }
            proof {
                let before = old(self).heap.pool();
                let after = self.heap.pool();
                assert forall|w: usize|
                    #![trigger after.contains(w)]
                    #![trigger before.contains(w)]
                    #![trigger listed(removed, k + 1, w)]
                    after.contains(w) <==> before.contains(w) || listed(removed, k + 1, w) by {
                    lemma_listed_step(removed, k as int, w);
                    assert(mid.heap.pool().contains(w) <==> before.contains(w) || listed(
                        removed,
                        k as int,
                        w,
                    ));
                }
            }
            k += 1;
        }
        proof {
            let pool = self.heap.pool();
            assert(old(self).heap.pool().contains(mov.pickup) || listed(
                removed,
                K_MAX as int,
                mov.pickup,
            ) <==> pool.contains(mov.pickup));
        }
        let ghost cleared = *self;
        self.place(mov);
        proof {
            if old(self).complete_but(mov.pickup) {
                assert forall|v: usize|
                    self.data.customer(v as int) && !self.data.delivers(v as int)
                        implies #[trigger] self@.served(v) || self.heap.pool().contains(v) by {
                    if v != mov.pickup {
                        assert(cleared@.served(v) || cleared.heap.pool().contains(v));
                    }
                }
            }
        }
    }

    /// Applies `swap`: takes both pairs out of their routes, then links each
    /// into the gaps that its move names and recomputes the routes.
    pub fn make_swap(&mut self, swap: &Swap)
        requires
            old(self).wf(),
            old(self).swaps(swap),
        ensures
            final(self).wf(),
            final(self).data == old(self).data,
            final(self).heap == old(self).heap,
            final(self)@ == placed_in(
                placed_in(old(self).both_gone(swap), old(self).data, &swap.a),
                old(self).data,
                &swap.b,
            ),
            forall|v: usize| #[trigger] final(self)@.served(v) <==> old(self)@.served(v),
            old(self).complete() ==> final(self).complete(),
            final(self)@.count() == old(self).both_gone(swap).count(),
            final(self)@.count() <= old(self)@.count(),
            forall|v: usize|
                #![trigger final(self).evals@[v as int]]
                #![trigger final(self).latest_feasible_departure@[v as int]]
                v < PTS && !old(self)@.served(v) && !final(self)@.served(v) ==> {
                    &&& final(self).evals@[v as int] == old(self).evals@[v as int]
                    &&& final(self).latest_feasible_departure@[v as int] == old(
                        self).latest_feasible_departure@[v as int]
                },
    {
        let a_pickup_idx = swap.a.pickup;
        let b_pickup_idx = swap.b.pickup;
        proof {
            assert(mated(self@, self.data, a_pickup_idx));
            assert(mated(self@, self.data, b_pickup_idx));
            assert(self.data.pair_ok(a_pickup_idx as int));
            assert(self.data.pair_ok(b_pickup_idx as int));
            self@.lemma_detach_pair(
                self.data.points as int,
                a_pickup_idx,
                self.data.pair(a_pickup_idx as int) as usize,
            );
        }
        self.remove_pair(a_pickup_idx);
        let ghost mid = *self;
        self.remove_pair(b_pickup_idx);
        proof {
            mid@.lemma_detach_pair(
                self.data.points as int,
                b_pickup_idx,
                self.data.pair(b_pickup_idx as int) as usize,
            );
            let pool = self.heap.pool();
            assert(!pool.contains(a_pickup_idx)) by {
                if pool.contains(a_pickup_idx) {
                    let i = choose|i: int| 0 <= i < pool.len() && pool[i] == a_pickup_idx;
                    assert(!old(self)@.served(pool[i]));
                }
            }
            assert(!pool.contains(b_pickup_idx)) by {
                if pool.contains(b_pickup_idx) {
                    let i = choose|i: int| 0 <= i < pool.len() && pool[i] == b_pickup_idx;
                    assert(!old(self)@.served(pool[i]));
                }
            }
        }
        self.place(&swap.a);
        self.place(&swap.b);
        proof {
            assert forall|v: usize| #[trigger] self@.served(v) <==> old(self)@.served(v) by {
                assert(old(self)@.served(self.data.pair(a_pickup_idx as int) as usize));
                assert(old(self)@.served(self.data.pair(b_pickup_idx as int) as usize));
            }
        }
    }

    /// The layout once both pairs of `swap` have left their routes.
    pub open spec fn both_gone(&self, swap: &Swap) -> Layout {
        let a = swap.a.pickup;
        let b = swap.b.pickup;
        self@.detach(a).detach(self.data.pair(a as int) as usize).detach(b).detach(
            self.data.pair(b as int) as usize,
        )
    }

    /// `swap` can be applied: it moves two different served pickups, and
    /// once both pairs are gone each fits the gaps of its move, the second
    /// after the first has been put back.
    pub open spec fn swaps(&self, swap: &Swap) -> bool {
        let a = swap.a.pickup;
        let b = swap.b.pickup;
        &&& a != b
        &&& self@.served(a)
        &&& self@.served(b)
        &&& !self.data.delivers(a as int)
        &&& !self.data.delivers(b as int)
        &&& fits_in(self.both_gone(swap), self.data, &swap.a)
        &&& fits_in(placed_in(self.both_gone(swap), self.data, &swap.a), self.data, &swap.b)
    }

    /// Appends `idx` to the pool; the pool is no longer in order until the
    /// count of `idx` is raised with [`Sol::inc`].
    pub fn push(&mut self, idx: usize)
        requires
            old(self).settled(),
            old(self).data.customer(idx as int),
            !old(self).data.delivers(idx as int),
            !old(self)@.served(idx),
            !old(self).heap.pool().contains(idx),
        ensures
            final(self).settled(),
            final(self)@ == old(self)@,
            final(self).data == old(self).data,
            final(self).heap.pool() == old(self).heap.pool().push(idx),
            final(self).heap.times() == old(self).heap.times(),
    {
        proof {
            let pool = self.heap.pool();
            let grown = pool.push(idx);
            assert forall|i: int, j: int|
                0 <= i < grown.len() && 0 <= j < grown.len() && i != j implies grown[i]
                != grown[j] by {
                if i < pool.len() {
                    assert(pool.contains(pool[i]));
                }
                if j < pool.len() {
                    assert(pool.contains(pool[j]));
                }
            }
            assert forall|i: int| 0 <= i < grown.len() implies self.data.customer(
                #[trigger] grown[i] as int,
            ) by {
                if i < pool.len() {
                    assert(self.data.customer(pool[i] as int));
                }
            }
            lemma_proper_len(self.data, grown);
        }
        self.heap.push(idx);
        proof {
            let pool = self.heap.pool();
            assert forall|i: int| 0 <= i < self.heap.size implies #[trigger] self.heap.removed_idx[i]
                < PTS by {
                assert(pool[i] == self.heap.removed_idx[i]);
                if i < old(self).heap.size {
                    assert(old(self).heap.pool()[i] == old(self).heap.removed_idx[i]);
                }
            }
            assert forall|i: int| 0 <= i < pool.len() implies {
                let v = #[trigger] pool[i];
                &&& self.data.customer(v as int)
                &&& !self.data.delivers(v as int)
                &&& !self@.served(v)
            } by {
                if i < old(self).heap.pool().len() {
                    assert(pool[i] == old(self).heap.pool()[i]);
                }
            }
            assert forall|v: usize| self@.served(v) implies #[trigger] self.cached_at(v) by {
                assert(old(self).cached_at(v));
            }
        }
    }

    /// The most ejected pickup of the pool, if there is one.
    pub fn top(&mut self) -> (r: Option<usize>)
        requires
            old(self).heap.size <= PTS,
        ensures
            *final(self) == *old(self),
            r == if old(self).heap.size == 0 {
                None
            } else {
                Some(old(self).heap.pool().last())
            },
    {
        self.heap.top()
    }

    /// Drops the most ejected pickup from the pool.
    pub fn pop(&mut self)
        requires
            old(self).wf(),
            old(self).heap.size > 0,
        ensures
            final(self).wf(),
            final(self)@ == old(self)@,
            final(self).data == old(self).data,
            final(self).heap.pool() == old(self).heap.pool().drop_last(),
            final(self).heap.times() == old(self).heap.times(),
            !final(self).heap.pool().contains(old(self).heap.pool().last()),
            old(self).complete() ==> final(self).complete_but(old(self).heap.pool().last()),
    {
        self.heap.pop();
        proof {
            let pool = self.heap.pool();
            let before = old(self).heap.pool();
            assert forall|i: int| 0 <= i < self.heap.size implies #[trigger] self.heap.removed_idx[i]
                < PTS by {
                assert(pool[i] == self.heap.removed_idx[i]);
                assert(before[i] == old(self).heap.removed_idx[i]);
                assert(pool[i] == before[i]);
            }
            assert forall|i: int| 0 <= i < pool.len() implies {
                let v = #[trigger] pool[i];
                &&& self.data.customer(v as int)
                &&& !self.data.delivers(v as int)
                &&& !self@.served(v)
            } by {
                assert(pool[i] == before[i]);
            }
            assert forall|i: int, j: int| 0 <= i <= j < pool.len() implies self.heap.times()[pool[i] as int]
                <= self.heap.times()[pool[j] as int] by {
                assert(pool[i] == before[i]);
                assert(pool[j] == before[j]);
            }
            assert(!pool.contains(before.last())) by {
                if pool.contains(before.last()) {
                    let i = choose|i: int| 0 <= i < pool.len() && pool[i] == before.last();
                    assert(before[i] == before[before.len() - 1]);
                }
            }
            if old(self).complete() {
                assert forall|v: usize|
                    self.data.customer(v as int) && !self.data.delivers(v as int) && v
                        != before.last() implies #[trigger] self@.served(v) || pool.contains(v) by {
                    if !self@.served(v) {
                        assert(before.contains(v));
                        let i = choose|i: int| 0 <= i < before.len() && before[i] == v;
                        assert(pool[i] == v);
                    }
                }
            }
            assert forall|v: usize| self@.served(v) implies #[trigger] self.cached_at(v) by {
                assert(old(self).cached_at(v));
            }
        }
    }

    /// Raises the ejection count of the pool's last pickup by one and moves
    /// it to its place in the order.
    pub fn inc(&mut self)
        requires
            old(self).settled(),
            ascending(old(self).heap.pool().drop_last(), old(self).heap.times()),
            old(self).heap.size > 0,
            old(self).heap.times()[old(self).heap.pool().last() as int] < u64::MAX,
        ensures
            final(self).wf(),
            final(self)@ == old(self)@,
            final(self).data == old(self).data,
            final(self).heap.size == old(self).heap.size,
            final(self).heap.times() == old(self).heap.times().update(
                old(self).heap.pool().last() as int,
                (old(self).heap.times()[old(self).heap.pool().last() as int] + 1) as u64,
            ),
            forall|v: usize|
                final(self).heap.pool().contains(v) <==> old(self).heap.pool().contains(v),
            old(self).complete() ==> final(self).complete(),
    {
        self.heap.inc();
        proof {
            let pool = self.heap.pool();
            let before = old(self).heap.pool();
            assert forall|i: int| 0 <= i < pool.len() implies {
                let v = #[trigger] pool[i];
                &&& self.data.customer(v as int)
                &&& !self.data.delivers(v as int)
                &&& !self@.served(v)
            } by {
                let v = pool[i];
                assert(pool.contains(v));
                let j = choose|j: int| 0 <= j < before.len() && before[j] == v;
                assert(!old(self)@.served(before[j]));
            }
            assert forall|v: usize| self@.served(v) implies #[trigger] self.cached_at(v) by {
                assert(old(self).cached_at(v));
            }
        }
    }

    /// Whether the pair of `pickup` is a route of its own.
    pub fn only_pickup_in_route(&self, pickup: usize) -> (r: bool)
        requires
            self.linked(),
            self.data.wf(),
            matched(self@, self.data),
            self.data.customer(pickup as int),
            !self.data.delivers(pickup as int),
        ensures
            r == (self@.served(pickup) && self@.tour_of(pickup).len() == 2),
    {
        let delivery = self.data.pair_of(pickup);
        proof {
            let l = self@;
            let n = self.data.points as int;
            assert(self.data.pair_ok(pickup as int));
            if l.served(pickup) {
                assert(mated(l, self.data, pickup));
                l.lemma_neighbours(n, pickup);
                l.lemma_neighbours(n, delivery);
                self.lemma_route_shape(l.owner[pickup]);
            }
        }
        self.prev[pickup] == 0 && self.prev[delivery] == pickup && self.next[pickup] == delivery
            && self.next[delivery] == 0
    }
    /// `route` can become a route of this solution: it starts and ends at
    /// the depot, and between the two it is a feasible sequence of distinct
    /// customers, partners together and pickups first, none of them served
    /// or in the pool.
    pub open spec fn accepts(&self, route: Seq<usize>) -> bool {
        &&& route.len() >= 3
        &&& route[0] == 0
        &&& route.last() == 0
        &&& proper(self.data, inner(route))
        &&& coupled(self.data, inner(route))
        &&& feasible(self.data, inner(route))
        &&& forall|i: int|
            0 <= i < inner(route).len() ==> !self@.served(#[trigger] inner(route)[i])
                && !self.heap.pool().contains(inner(route)[i])
    }

    /// What is left to show once a route has been linked and its cached
    /// values computed: the solution is settled again.
    proof fn lemma_route_added(pre: &Sol<'a>, post: &Sol<'a>, route: Seq<usize>)
        requires
            pre.settled(),
            pre.accepts(route),
            post.data == pre.data,
            post.heap == pre.heap,
            post.linked(),
            post@ == pre@.with_tour(inner(route)),
            post.routes@ == pre.routes@.insert(route[1]),
            post.evals@.len() == PTS,
            forall|v: usize| inner(route).contains(v) ==> #[trigger] post.cached_at(v),
            forall|v: usize|
                #![trigger post.evals@[v as int]]
                #![trigger post.latest_feasible_departure@[v as int]]
                #![trigger post.first@[v as int]]
                0 < v < PTS && !inner(route).contains(v) ==> {
                    &&& post.evals@[v as int] == pre.evals@[v as int]
                    &&& post.latest_feasible_departure@[v as int]
                        == pre.latest_feasible_departure@[v as int]
                    &&& post.first@[v as int] == pre.first@[v as int]
                },
            post.evals@[0] == pre.evals@[0],
            post.latest_feasible_departure@[0] == pre.latest_feasible_departure@[0],
        ensures
            post.settled(),
    {
        let l = pre@;
        let l2 = post@;
        let data = pre.data;
        let n = data.points as int;
        let s = inner(route);
        l.lemma_with_tour(n, s);
        assert forall|v: usize| l2.served(v) implies #[trigger] mated(l2, data, v) by {
            if s.contains(v) {
                let i = choose|i: int| 0 <= i < s.len() && s[i] == v;
                assert(coupled_at(data, s, i));
                let w = data.pair(v as int) as usize;
                let j = s.index_of(w);
                assert(s.contains(w));
                assert(0 <= j < s.len() && s[j] == w);
                assert(l2.slot[s[j]] == j);
                assert(l2.slot[s[i]] == i);
            } else {
                assert(l.served(v));
                assert(mated(l, data, v));
            }
        }
        assert forall|v: usize| l2.served(v) implies #[trigger] post.cached_at(v) by {
            if !s.contains(v) {
                assert(l.served(v));
                assert(pre.cached_at(v));
            }
        }
        assert forall|q: usize| #[trigger] l2.has(q) implies feasible(data, l2.tours[q]) by {
            if q != s[0] {
                assert(l.has(q));
            }
        }
        assert forall|v: usize| 0 < v < PTS && !l2.served(v) implies #[trigger] post.first@[v as int]
            == UNSERVED by {
            assert(!l.served(v));
        }
        assert forall|i: int| 0 <= i < post.heap.pool().len() implies {
            let v = #[trigger] post.heap.pool()[i];
            &&& data.customer(v as int)
            &&& !data.delivers(v as int)
            &&& !l2.served(v)
        } by {
            let v = pre.heap.pool()[i];
            assert(!l.served(v));
            assert(pre.heap.pool().contains(v));
            if s.contains(v) {
                let k = choose|k: int| 0 <= k < s.len() && s[k] == v;
                assert(!pre.heap.pool().contains(s[k]));
            }
        }
        assert(post.routes@ =~= l2.tours.dom());
    }

    /// Once the nodes of a new route point at their neighbours and nothing
    /// else has changed, the chains are the routes of the layout with that
    /// route.
    proof fn lemma_route_linked(pre: &Sol<'a>, post: &Sol<'a>, inn: Seq<usize>)
        requires
            pre.linked(),
            pre.data.sized(),
            post.data == pre.data,
            proper(pre.data, inn),
            inn.len() > 0,
            forall|i: int| 0 <= i < inn.len() ==> !pre@.served(#[trigger] inn[i]),
            post@ == pre@.with_tour(inn),
            post.next@[0] == 0,
            post.prev@[0] == 0,
            forall|k: int|
                #![trigger post.next@[inn[k] as int]]
                #![trigger post.prev@[inn[k] as int]]
                0 <= k < inn.len() ==> {
                    &&& post.next@[inn[k] as int] == stop_at(inn, k + 1)
                    &&& post.prev@[inn[k] as int] == stop_at(inn, k - 1)
                },
            forall|v: usize|
                #![trigger post.next@[v as int]]
                #![trigger post.prev@[v as int]]
                0 < v < PTS && !inn.contains(v) ==> {
                    &&& post.next@[v as int] == pre.next@[v as int]
                    &&& post.prev@[v as int] == pre.prev@[v as int]
                },
        ensures
            post.linked(),
    {
        let l = pre@;
        let l2 = post@;
        let n = pre.data.points as int;
        assert forall|i: int| 0 <= i < inn.len() implies 0 < #[trigger] inn[i] < n && !l.served(
            inn[i],
        ) by {
            assert(pre.data.customer(inn[i] as int));
        }
        l.lemma_with_tour(n, inn);
        lemma_proper_len(pre.data, inn);
        assert forall|v: usize| #[trigger] l2.served(v) implies post.next@[v as int] == l2.succ(v)
            && post.prev@[v as int] == l2.pred(v) by {
            if inn.contains(v) {
                let k = choose|k: int| 0 <= k < inn.len() && inn[k] == v;
                assert(l2.succ(inn[k]) == stop_at(inn, k + 1));
                assert(post.next@[inn[k] as int] == stop_at(inn, k + 1));
                assert(post.prev@[inn[k] as int] == stop_at(inn, k - 1));
            } else {
                assert(l.served(v));
            }
        }
        assert forall|v: usize|
            #![trigger l2.served(v)]
            #![trigger post.next@[v as int]]
            0 < v < PTS implies (l2.served(v) <==> post.next@[v as int] != UNSERVED) by {
            if inn.contains(v) {
                let k = choose|k: int| 0 <= k < inn.len() && inn[k] == v;
                assert(post.next@[inn[k] as int] == stop_at(inn, k + 1));
                if k + 1 < inn.len() {
                    assert(pre.data.customer(inn[k + 1] as int));
                }
            } else {
                assert(l.served(v) <==> pre.next@[v as int] != UNSERVED);
            }
        }
        assert forall|v: usize|
            #![trigger l2.served(v)]
            #![trigger post.prev@[v as int]]
            0 < v < PTS implies (l2.served(v) <==> post.prev@[v as int] != UNSERVED) by {
            if inn.contains(v) {
                let k = choose|k: int| 0 <= k < inn.len() && inn[k] == v;
                assert(post.prev@[inn[k] as int] == stop_at(inn, k - 1));
                if k > 0 {
                    assert(pre.data.customer(inn[k - 1] as int));
                }
            } else {
                assert(l.served(v) <==> pre.prev@[v as int] != UNSERVED);
            }
        }
    }

    /// Chains the nodes of `route`, written with the depot at both ends, and
    /// names the first of them as their route.
    fn link_route(&mut self, route: &Vec<usize>)
        requires
            old(self).settled(),
            old(self).accepts(route@),
        ensures
            final(self).linked(),
            final(self)@ == old(self)@.with_tour(inner(route@)),
            final(self).heap == old(self).heap,
            final(self).data == old(self).data,
            final(self).evals == old(self).evals,
            final(self).latest_feasible_departure == old(self).latest_feasible_departure,
            final(self).routes == old(self).routes,
            forall|k: int|
                0 <= k < inner(route@).len() ==> final(self).first@[#[trigger] inner(route@)[k] as int]
                    == route@[1],
            forall|v: usize|
                0 < v < PTS && !inner(route@).contains(v) ==> #[trigger] final(self).first@[v as int]
                    == old(self).first@[v as int],
    {
        let ghost l = self@;
        let ghost n = self.data.points as int;
        let ghost s = route@;
        let ghost inn = inner(route@);
        let ghost m = route@.len() as int;
        proof {
            lemma_proper_len(self.data, inn);
            l.lemma_with_tour(n, inn);
            assert forall|j: int| 1 <= j < m - 1 implies 0 < #[trigger] s[j] < PTS && s[j] == inn[j
                - 1] by {
                assert(self.data.customer(inn[j - 1] as int));
            }
        }
        let first_non_depot = route[1];
        let pairs = adjacent_pairs(route);
        let mut i: usize = 0;
        while i < pairs.len()
            invariant
                s == route@,
                m == s.len(),
                m >= 3,
                s[0] == 0,
                s[m - 1] == 0,
                inn == inner(s),
                inn.no_duplicates(),
                first_non_depot == s[1],
                pairs@.len() == m - 1,
                forall|j: int| 0 <= j < m - 1 ==> #[trigger] pairs@[j] == (s[j], s[j + 1]),
                forall|j: int| 1 <= j < m - 1 ==> 0 < #[trigger] s[j] < PTS && s[j] == inn[j - 1],
                0 <= i <= m - 1,
                forall|j: int| 0 <= j < i ==> #[trigger] self.next@[s[j] as int] == s[j + 1],
                forall|j: int| 1 <= j <= i ==> #[trigger] self.prev@[s[j] as int] == s[j - 1],
                forall|j: int| 0 <= j < i ==> #[trigger] self.first@[s[j] as int] == first_non_depot,
                forall|v: usize|
                    #![trigger self.next@[v as int]]
                    #![trigger self.prev@[v as int]]
                    #![trigger self.first@[v as int]]
                    0 < v < PTS && !inn.contains(v) ==> {
                        &&& self.next@[v as int] == old(self).next@[v as int]
                        &&& self.prev@[v as int] == old(self).prev@[v as int]
                        &&& self.first@[v as int] == old(self).first@[v as int]
                    },
                self.evals == old(self).evals,
                self.latest_feasible_departure == old(self).latest_feasible_departure,
                self.routes == old(self).routes,
                self.heap == old(self).heap,
                self.data == old(self).data,
                self@ == old(self)@,
            decreases m - 1 - i,
        {
            let (before, after) = pairs[i];
            proof {
                assert(pairs@[i as int] == (s[i as int], s[i + 1]));
                if i > 0 {
                    assert(inn.contains(s[i as int])) by {
                        assert(inn[i - 1] == s[i as int]);
                    }
                }
                if i + 1 < m - 1 {
                    assert(inn.contains(s[i + 1])) by {
                        assert(inn[i as int] == s[i + 1]);
                    }
                }
            }
            let ghost was = *self;
            self.prev[after] = before;
            self.next[before] = after;
            self.first[before] = first_non_depot;
            proof {
                assert forall|j: int| 0 <= j < i + 1 implies #[trigger] self.next@[s[j] as int]
                    == s[j + 1] by {
                    if j < i {
                        assert(was.next@[s[j] as int] == s[j + 1]);
                        if j > 0 && i > 0 {
                            assert(inn[j - 1] != inn[i - 1]);
                        }
                    }
                }
                assert forall|j: int| 1 <= j <= i + 1 implies #[trigger] self.prev@[s[j] as int]
                    == s[j - 1] by {
                    if j <= i {
                        assert(was.prev@[s[j] as int] == s[j - 1]);
                        if i + 1 < m - 1 {
                            assert(inn[j - 1] != inn[i as int]);
                        }
                    }
                }
                assert forall|j: int| 0 <= j < i + 1 implies #[trigger] self.first@[s[j] as int]
                    == first_non_depot by {
                    if j < i {
                        assert(was.first@[s[j] as int] == first_non_depot);
                    }
                }
            }
            i += 1;
        }
        self.prev[0] = 0;
        self.next[0] = 0;
        self.layout = Ghost(l.with_tour(inn));
        proof {
            assert forall|k: int|
                #![trigger self.next@[inn[k] as int]]
                #![trigger self.prev@[inn[k] as int]]
                0 <= k < inn.len() implies {
                &&& self.next@[inn[k] as int] == stop_at(inn, k + 1)
                &&& self.prev@[inn[k] as int] == stop_at(inn, k - 1)
            } by {
                assert(s[k + 1] == inn[k]);
                assert(self.next@[s[k + 1] as int] == s[k + 2]);
                assert(self.prev@[s[k + 1] as int] == s[k]);
            }
            Self::lemma_route_linked(old(self), self, inn);
            assert forall|k: int| 0 <= k < inn.len() implies self.first@[#[trigger] inn[k] as int]
                == first_non_depot by {
                assert(s[k + 1] == inn[k]);
                assert(self.first@[s[k + 1] as int] == first_non_depot);
            }
        }
    }

    /// Adds `route`, written with the depot at both ends, as a new route and
    /// computes the cached values of its nodes.
    pub fn add_route(&mut self, route: &Vec<usize>)
        requires
            old(self).settled(),
            old(self).accepts(route@),
        ensures
            final(self).settled(),
            final(self)@ == old(self)@.with_tour(inner(route@)),
            final(self).heap == old(self).heap,
            final(self).data == old(self).data,
            final(self)@.count() == old(self)@.count() + 1,
            forall|v: usize|
                #![trigger final(self).evals@[v as int]]
                #![trigger final(self).latest_feasible_departure@[v as int]]
                0 < v < PTS && !inner(route@).contains(v) ==> {
                    &&& final(self).evals@[v as int] == old(self).evals@[v as int]
                    &&& final(self).latest_feasible_departure@[v as int] == old(
                        self).latest_feasible_departure@[v as int]
                },
    {
        let ghost l = self@;
        let ghost n = self.data.points as int;
        let ghost s = route@;
        let ghost inn = inner(route@);
        let first_non_depot = route[1];
        let last_non_depot = route[route.len() - 2];
        self.link_route(route);
        proof {
            assert forall|i: int| 0 <= i < inn.len() implies 0 < #[trigger] inn[i] < n && !l.served(
                inn[i],
            ) by {
                assert(self.data.customer(inn[i] as int));
            }
            l.lemma_with_tour(n, inn);
            assert(inn[inn.len() - 1] == last_non_depot);
            assert(inn[0] == first_non_depot);
            assert(self@.owner[inn[inn.len() - 1]] == inn[0]);
            assert(self@.has(first_non_depot));
            assert(self@.tours[first_non_depot] == inn);
            assert(self@.succ(last_non_depot) == 0);
        }
        let ghost linked_up = *self;
        self.fix_latest_feasible_departures(last_non_depot);
        let ghost timed = *self;
        self.fix_evals(first_non_depot);
        let ghost fixed = *self;

        self.routes.insert(first_non_depot);
        proof {
            let l2 = self@;
            assert forall|v: usize| inn.contains(v) implies #[trigger] self.cached_at(v) by {
                let k = choose|k: int| 0 <= k < inn.len() && inn[k] == v;
                assert(l2.owner[inn[k]] == inn[0]);
                assert(fixed.on_route(v, first_non_depot));
                assert(timed.on_route(v, first_non_depot));
                assert(linked_up.first@[inn[k] as int] == first_non_depot);
                assert(fixed.eval_ok(v));
                assert(timed.lfd_ok(v));
            }
            assert forall|v: usize|
                #![trigger self.evals@[v as int]]
                #![trigger self.latest_feasible_departure@[v as int]]
                #![trigger self.first@[v as int]]
                0 < v < PTS && !inn.contains(v) implies {
                    &&& self.evals@[v as int] == old(self).evals@[v as int]
                    &&& self.latest_feasible_departure@[v as int] == old(
                        self).latest_feasible_departure@[v as int]
                    &&& self.first@[v as int] == old(self).first@[v as int]
                } by {
                assert(!linked_up.on_route(v, first_non_depot));
            }
            assert(!linked_up.on_route(0, first_non_depot));
            Self::lemma_route_added(old(self), self, route@);
        }
    }
    /// What is left to show once a route has been dissolved into the pool
    /// and the pool sorted: the solution is well formed again.
    proof fn lemma_route_removed(pre: &Sol<'a>, post: &Sol<'a>, first: usize)
        requires
            pre.wf(),
            pre@.has(first),
            post.data == pre.data,
            post.linked(),
            post@ == pre@.without_tour(first),
            post.routes@ == pre.routes@.remove(first),
            post.evals == pre.evals,
            post.latest_feasible_departure == pre.latest_feasible_departure,
            forall|v: usize|
                0 < v < PTS ==> #[trigger] post.first@[v as int] == if pre.on_route(v, first) {
                    UNSERVED
                } else {
                    pre.first@[v as int]
                },
            post.heap.bounded(),
            ascending(post.heap.pool(), post.heap.times()),
            is_stable_sort(
                post.heap.pool(),
                pre.heap.pool() + pickups_of(pre.data, pre@.tours[first]),
                post.heap.times(),
            ),
        ensures
            post.wf(),
    {
        let l = pre@;
        let l2 = post@;
        let data = pre.data;
        let n = data.points as int;
        let s = l.tours[first];
        l.lemma_without_tour(n, first);
        pre.lemma_route_shape(first);
        lemma_pickups_upto(data, s, s.len() as int);
        assert forall|v: usize| l2.served(v) implies #[trigger] mated(l2, data, v) by {
            assert(l.served(v));
            assert(mated(l, data, v));
        }
        assert forall|v: usize| l2.served(v) implies #[trigger] post.cached_at(v) by {
            assert(l.served(v));
            assert(pre.cached_at(v));
            assert(post.first@[v as int] == pre.first@[v as int]);
        }
        assert forall|q: usize| #[trigger] l2.has(q) implies feasible(data, l2.tours[q]) by {
            assert(l.has(q));
        }
        assert forall|v: usize| 0 < v < PTS && !l2.served(v) implies #[trigger] post.first@[v as int]
            == UNSERVED by {
            if !pre.on_route(v, first) {
                assert(!l.served(v));
                assert(pre.first@[v as int] == UNSERVED);
            }
        }
        let grown = pre.heap.pool() + pickups_of(data, s);
        let out = post.heap.pool();
        let perm = choose|perm: Seq<int>| stable_sort_by(out, grown, post.heap.times(), perm);
        assert forall|j: int| 0 <= j < grown.len() implies {
            let v = #[trigger] grown[j];
            &&& data.customer(v as int)
            &&& !data.delivers(v as int)
            &&& !l2.served(v)
            &&& (j < pre.heap.pool().len() <==> !l.served(v))
        } by {
            if j < pre.heap.pool().len() {
                let v = pre.heap.pool()[j];
                assert(grown[j] == v);
                assert(!l.served(v));
            } else {
                let v = pickups_of(data, s)[j - pre.heap.pool().len()];
                assert(grown[j] == v);
                let k = choose|k: int| 0 <= k < s.len() && s[k] == v;
                assert(l.tours[first][k] == v);
            }
        }
        assert forall|i: int, j: int|
            0 <= i < grown.len() && 0 <= j < grown.len() && i != j implies grown[i] != grown[j] by {
            let m = pre.heap.pool().len() as int;
            if i < m && j < m {
                assert(pre.heap.pool()[i] != pre.heap.pool()[j]);
            } else if i >= m && j >= m {
                Self::lemma_pickups_distinct(data, s, s.len() as int);
                assert(pickups_of(data, s)[i - m] != pickups_of(data, s)[j - m]);
            } else {
            }
        }
        assert forall|i: int| 0 <= i < out.len() implies {
            let v = #[trigger] out[i];
            &&& data.customer(v as int)
            &&& !data.delivers(v as int)
            &&& !l2.served(v)
        } by {
            assert(out[i] == grown[perm[i]]);
        }
        assert forall|i: int, j: int|
            0 <= i < out.len() && 0 <= j < out.len() && i != j implies out[i] != out[j] by {
            assert(out[i] == grown[perm[i]]);
            assert(out[j] == grown[perm[j]]);
            assert(perm[i] != perm[j]);
        }
        assert(post.routes@ =~= l2.tours.dom());
        assert(!l.served(0));
    }

    /// The pickups of a sequence without repetition do not repeat.
    pub proof fn lemma_pickups_distinct(data: &Data, s: Seq<usize>, i: int)
        requires
            s.no_duplicates(),
            0 <= i <= s.len(),
        ensures
            pickups_upto(data, s, i).no_duplicates(),
        decreases i,
    {
        if i > 0 {
            Self::lemma_pickups_distinct(data, s, i - 1);
            lemma_pickups_upto(data, s, i - 1);
            let before = pickups_upto(data, s, i - 1);
            let now = pickups_upto(data, s, i);
            assert forall|a: int, b: int|
                0 <= a < now.len() && 0 <= b < now.len() && a != b implies now[a] != now[b] by {
                if a < before.len() && b < before.len() {
                } else if a < before.len() {
                    let k = choose|k: int| 0 <= k < i - 1 && s[k] == before[a];
                    assert(s[k] != s[i - 1]);
                } else if b < before.len() {
                    let k = choose|k: int| 0 <= k < i - 1 && s[k] == before[b];
                    assert(s[k] != s[i - 1]);
                }
            }
        }
    }

    /// Dissolves the route that starts at `first`: its nodes become
    /// unserved, its pickups join the pool in the order of the route, each
    /// with its ejection count raised by one, and the pool is sorted again.
    pub fn remove_route(&mut self, first: usize)
        requires
            old(self).wf(),
            old(self)@.has(first),
            forall|i: int|
                0 <= i < old(self)@.tours[first].len() ==> old(self).heap.times()[#[trigger] old(
                    self)@.tours[first][i] as int] < u64::MAX,
        ensures
            final(self).wf(),
            final(self).data == old(self).data,
            final(self)@ == old(self)@.without_tour(first),
            final(self)@.count() == old(self)@.count() - 1,
            final(self).evals == old(self).evals,
            final(self).latest_feasible_departure == old(self).latest_feasible_departure,
            forall|v: usize|
                v < PTS ==> #[trigger] final(self).heap.times()[v as int] == old(self).heap.times()[v as int]
                    + if old(self).on_route(v, first) && !old(self).data.delivers(v as int) {
                    1int
                } else {
                    0int
                },
            is_stable_sort(
                final(self).heap.pool(),
                old(self).heap.pool() + pickups_of(old(self).data, old(self)@.tours[first]),
                final(self).heap.times(),
            ),
            old(self).complete() ==> final(self).complete(),
            final(self).heap.size <= PTS,
    {
        let ghost l = self@;
        let ghost n = self.data.points as int;
        let ghost s = l.tours[first];
        proof {
            self.lemma_route_shape(first);
        }
        self.routes.remove(&first);
        let mut idx = first;
        let ghost mut i: int = 0;
        while idx != 0
            invariant
                old(self).wf(),
                l == old(self)@,
                l.has(first),
                s == l.tours[first],
                proper(self.data, s),
                0 < s.len() < PTS,
                0 <= i <= s.len(),
                idx == stop(s, i),
                forall|k: int|
                    0 <= k < s.len() ==> old(self).heap.times()[#[trigger] s[k] as int] < u64::MAX,
                self.data == old(self).data,
                self@ == old(self)@,
                self.evals == old(self).evals,
                self.latest_feasible_departure == old(self).latest_feasible_departure,
                self.routes@ == old(self).routes@.remove(first),
                forall|v: usize|
                    #![trigger self.next@[v as int]]
                    #![trigger self.prev@[v as int]]
                    #![trigger self.first@[v as int]]
                    v < PTS ==> if old(self).on_route(v, first) && l.slot[v] < i {
                        &&& self.next@[v as int] == UNSERVED
                        &&& self.prev@[v as int] == UNSERVED
                        &&& self.first@[v as int] == UNSERVED
                    } else {
                        &&& self.next@[v as int] == old(self).next@[v as int]
                        &&& self.prev@[v as int] == old(self).prev@[v as int]
                        &&& self.first@[v as int] == old(self).first@[v as int]
                    },
                self.heap.size <= PTS,
                self.heap.pool() == old(self).heap.pool() + pickups_upto(self.data, s, i),
                forall|v: usize|
                    v < PTS ==> #[trigger] self.heap.times()[v as int] == old(self).heap.times()[v as int]
                        + if old(self).on_route(v, first) && l.slot[v] < i && !self.data.delivers(
                        v as int,
                    ) {
                        1int
                    } else {
                        0int
                    },
            decreases s.len() - i,
        {
            proof {
                old(self).lemma_route_shape(first);
                old(self).lemma_link_at(first, i);
                assert(s[i] == idx);
                assert(old(self).on_route(s[i], first));
                assert(l.slot[idx] == i);
                lemma_pickups_upto(self.data, s, i);
                Self::lemma_pickups_distinct(self.data, s, i);
            }
            self.first[idx] = UNSERVED;
            if !self.data.pts[idx].is_delivery {
                proof {
                    let pool = self.heap.pool();
                    let grown = pool.push(idx);
                    let picked = pickups_upto(self.data, s, i);
                    let m = old(self).heap.pool().len() as int;
                    assert forall|a: int| 0 <= a < grown.len() implies self.data.customer(
                        #[trigger] grown[a] as int,
                    ) by {
                        if a < m {
                            assert(grown[a] == old(self).heap.pool()[a]);
                        } else if a < pool.len() {
                            assert(grown[a] == picked[a - m]);
                            let k = choose|k: int| 0 <= k < i && s[k] == picked[a - m];
                            assert(self.data.customer(s[k] as int));
                        } else {
                            assert(self.data.customer(s[i] as int));
                        }
                    }
                    assert forall|a: int, b: int|
                        0 <= a < grown.len() && 0 <= b < grown.len() && a != b implies grown[a]
                        != grown[b] by {
                        let va = grown[a];
                        let vb = grown[b];
                        if a < m {
                            assert(va == old(self).heap.pool()[a]);
                            assert(!l.served(va));
                        } else if a < pool.len() {
                            assert(va == picked[a - m]);
                            let k = choose|k: int| 0 <= k < i && s[k] == picked[a - m];
                            assert(l.tours[first][k] == va);
                        }
                        if b < m {
                            assert(vb == old(self).heap.pool()[b]);
                            assert(!l.served(vb));
                        } else if b < pool.len() {
                            assert(vb == picked[b - m]);
                            let k = choose|k: int| 0 <= k < i && s[k] == picked[b - m];
                            assert(l.tours[first][k] == vb);
                        }
                        if a < m && b < m {
                            assert(old(self).heap.pool()[a] != old(self).heap.pool()[b]);
                        } else if m <= a < pool.len() && m <= b < pool.len() {
                            assert(picked[a - m] != picked[b - m]);
                        }
                    }
                    lemma_proper_len(self.data, grown);
                }
                self.heap.push(idx);
                self.heap.removed_times[idx] += 1;
                proof {
                    assert(self.heap.pool() =~= old(self).heap.pool() + pickups_upto(
                        self.data,
                        s,
                        i + 1,
                    ));
                }
            }
            self.prev[idx] = UNSERVED;
            let after = self.next[idx];
            self.next[idx] = UNSERVED;
            idx = after;
            proof {
                i = i + 1;
            }
        }
        self.layout = Ghost(l.without_tour(first));
        proof {
            let l2 = self@;
            l.lemma_without_tour(n, first);
            old(self).lemma_route_shape(first);
            assert forall|v: usize| #[trigger] l2.served(v) implies self.next@[v as int] == l2.succ(v)
                && self.prev@[v as int] == l2.pred(v) by {
                assert(l.served(v));
            }
            assert forall|v: usize|
                #![trigger l2.served(v)]
                #![trigger self.next@[v as int]]
                0 < v < PTS implies (l2.served(v) <==> self.next@[v as int] != UNSERVED) by {
                assert(l.served(v) <==> old(self).next@[v as int] != UNSERVED);
            }
            assert forall|v: usize|
                #![trigger l2.served(v)]
                #![trigger self.prev@[v as int]]
                0 < v < PTS implies (l2.served(v) <==> self.prev@[v as int] != UNSERVED) by {
                assert(l.served(v) <==> old(self).prev@[v as int] != UNSERVED);
            }
            assert(!old(self).on_route(0, first));
            assert(self.linked());
            let pool = self.heap.pool();
            let picked = pickups_of(self.data, s);
            lemma_pickups_upto(self.data, s, s.len() as int);
            assert forall|a: int| 0 <= a < self.heap.size implies #[trigger] self.heap.removed_idx[a]
                < PTS by {
                assert(pool[a] == self.heap.removed_idx[a]);
                let m = old(self).heap.pool().len() as int;
                if a < m {
                    assert(pool[a] == old(self).heap.pool()[a]);
                    assert(self.data.customer(old(self).heap.pool()[a] as int));
                } else {
                    assert(pool[a] == picked[a - m]);
                    let k = choose|k: int| 0 <= k < s.len() && s[k] == picked[a - m];
                    assert(self.data.customer(s[k] as int));
                }
            }
        }
        let ghost unsorted = *self;
        self.heap.sort();
        proof {
            assert forall|v: usize| 0 < v < PTS implies #[trigger] self.first@[v as int]
                == if old(self).on_route(v, first) {
                UNSERVED
            } else {
                old(self).first@[v as int]
            } by {
                if old(self).on_route(v, first) {
                    assert(l.slot[v] < s.len());
                }
            }
            assert forall|v: usize| v < PTS implies #[trigger] self.heap.times()[v as int] == old(
                self).heap.times()[v as int] + if old(self).on_route(v, first)
                && !old(self).data.delivers(v as int) {
                1int
            } else {
                0int
            } by {
                assert(unsorted.heap.times()[v as int] == self.heap.times()[v as int]);
                if old(self).on_route(v, first) {
                    assert(l.slot[v] < s.len());
                }
            }
            Self::lemma_route_removed(old(self), self, first);
            if old(self).complete() {
                let grown = old(self).heap.pool() + pickups_of(self.data, s);
                let out = self.heap.pool();
                lemma_pickups_upto(self.data, s, s.len() as int);
                l.lemma_without_tour(n, first);
                assert forall|v: usize|
                    self.data.customer(v as int) && !self.data.delivers(v as int)
                        implies #[trigger] self@.served(v) || self.heap.pool().contains(v) by {
                    if !self@.served(v) {
                        if l.served(v) {
                            assert(l.owner[v] == first);
                            let kk = l.slot[v];
                            assert(s[kk] == v);
                            assert(pickups_of(self.data, s).contains(s[kk]));
                            let j = choose|j: int|
                                0 <= j < pickups_of(self.data, s).len() && pickups_of(self.data, s)[j]
                                    == v;
                            assert(grown[old(self).heap.pool().len() + j] == v);
                            lemma_perm_onto(out, grown, self.heap.times(), old(self).heap.pool().len() + j);
                        } else {
                            assert(old(self).heap.pool().contains(v));
                            let j = choose|j: int|
                                0 <= j < old(self).heap.pool().len() && old(self).heap.pool()[j] == v;
                            assert(grown[j] == v);
                            lemma_perm_onto(out, grown, self.heap.times(), j);
                        }
                    }
                }
            }
        }
    }
    /// The nodes that an iterator started at `start` yields: the route from
    /// `start` on, then the depot.
    pub open spec fn rest_from(&self, start: usize) -> Seq<usize> {
        if start == 0 {
            seq![0usize]
        } else {
            self@.tour_of(start).skip(self@.slot[start]).push(0)
        }
    }

    /// An iterator over the route from `start` on; it ends after the depot.
    pub fn route_iter(&self, start: usize) -> (r: RouteIterator<'_>)
        requires
            self.linked(),
            self.data.sized(),
            start == 0 || self@.served(start),
        ensures
            r.wf(),
            r.solution == self,
            r.remaining() == self.rest_from(start),
    {
        RouteIterator { solution: self, prev: 0, finished: false, cur: start }
    }

    /// All routes, each as the sequence of its nodes, in no particular
    /// order.
    pub fn rs(&self) -> (r: Vec<Vec<usize>>)
        requires
            self.wf(),
        ensures
            r@.len() == self@.tours.dom().len(),
            forall|i: int|
                0 <= i < r@.len() ==> (#[trigger] r@[i])@.len() > 0 && self@.has(r@[i]@[0])
                    && r@[i]@ == self@.tours[r@[i]@[0]],
            forall|i: int, j: int|
                0 <= i < r@.len() && 0 <= j < r@.len() && i != j ==> r@[i]@[0] != r@[j]@[0],
    {
        let mut routes: Vec<Vec<usize>> = Vec::new();
        let ghost keys = spec_hash_keys_iter(&self.routes).remaining();
        for first in it: self.routes.iter()
            invariant
                self.wf(),
                it.seq() == keys,
                keys == spec_hash_keys_iter(&self.routes).remaining(),
                routes@.len() == it.index(),
                forall|i: int|
                    0 <= i < routes@.len() ==> (#[trigger] routes@[i])@ == self@.tours[*keys[i]],
        {
            proof {
                assert(keys.unref().to_set().contains(keys.unref()[it.index()]));
                assert(self@.has(*first));
                self.lemma_route_shape(*first);
            }
            let ghost s = self@.tours[*first];
            let mut z = *first;
            let mut route: Vec<usize> = Vec::new();
            let ghost mut k: int = 0;
            while z != 0
                invariant
                    self.wf(),
                    self@.has(*first),
                    s == self@.tours[*first],
                    0 < s.len() < PTS,
                    0 <= k <= s.len(),
                    z == stop(s, k),
                    route@ == s.take(k),
                decreases s.len() - k,
            {
                proof {
                    self.lemma_route_shape(*first);
                    self.lemma_link_at(*first, k);
                    assert(s[k] == z);
                }
                route.push(z);
                z = self.next[z];
                proof {
                    assert(route@ =~= s.take(k + 1));
                    k = k + 1;
                }
            }
            proof {
                assert(s.take(s.len() as int) =~= s);
            }
            routes.push(route);
        }
        proof {
            assert(keys.unref().to_set() == self.routes@);
            assert forall|i: int| 0 <= i < routes@.len() implies (#[trigger] routes@[i])@.len() > 0
                && self@.has(routes@[i]@[0]) && routes@[i]@ == self@.tours[routes@[i]@[0]] by {
                assert(keys.unref().to_set().contains(keys.unref()[i]));
                assert(self@.has(*keys[i]));
            }
            assert forall|i: int, j: int|
                0 <= i < routes@.len() && 0 <= j < routes@.len() && i != j implies routes@[i]@[0]
                != routes@[j]@[0] by {
                assert(keys.unref().to_set().contains(keys.unref()[i]));
                assert(keys.unref().to_set().contains(keys.unref()[j]));
                assert(self@.has(*keys[i]));
                assert(self@.has(*keys[j]));
                assert(keys[i] != keys[j]);
            }
        }
        routes
    }

    /// The ids of all routes in ascending order.
    pub fn sorted_routes(&self) -> (r: Vec<usize>)
        requires
            self.routes@ == self@.tours.dom(),
        ensures
            r@.len() == self@.tours.dom().len(),
            forall|v: usize| r@.contains(v) <==> self@.has(v),
            forall|i: int, j: int| 0 <= i <= j < r@.len() ==> r@[i] <= r@[j],
    {
        let mut ids: Vec<usize> = Vec::new();
        let ghost keys = spec_hash_keys_iter(&self.routes).remaining();
        for first in it: self.routes.iter()
            invariant
                it.seq() == keys,
                keys == spec_hash_keys_iter(&self.routes).remaining(),
                ids@ == keys.take(it.index()).unref(),
        {
            ids.push(*first);
            proof {
                assert(ids@ =~= keys.take(it.index() + 1).unref());
            }
        }
        proof {
            assert(keys.take(keys.len() as int) =~= keys);
            assert(keys.unref().to_set() == self.routes@);
        }
        let ghost unsorted = ids@;
        let sorted = sorted_ids(ids);
        proof {
            sorted@.to_multiset_ensures();
            unsorted.to_multiset_ensures();
            assert forall|v: usize| sorted@.contains(v) <==> self@.has(v) by {
                assert(sorted@.contains(v) <==> sorted@.to_multiset().count(v) > 0);
                assert(unsorted.contains(v) <==> unsorted.to_multiset().count(v) > 0);
                assert(unsorted.contains(v) <==> unsorted.to_set().contains(v));
            }
            assert(sorted@.len() == sorted@.to_multiset().len());
            assert(unsorted.len() == unsorted.to_multiset().len());
        }
        sorted
    }

    /// The id of a route chosen at random among all routes, taken in
    /// ascending order of their ids.
    pub fn random_route_first(&self) -> (r: usize)
        requires
            self.routes@ == self@.tours.dom(),
            self@.tours.dom().len() > 0,
        ensures
            self@.has(r),
    {
        let sorted = self.sorted_routes();
        match choose_one(&sorted) {
            Some(r) => r,
            None => {
                proof {
                    assert(false);
                }
                0
            },
        }
    }
}

/// A position in a route of a solution: the nodes from there on are still
/// to come, the depot last.
#[derive(Clone, Copy)]
pub struct RouteIterator<'a> {
    pub solution: &'a Sol<'a>,
    pub prev: usize,
    pub cur: usize,
    pub finished: bool,
}

impl<'a> RouteIterator<'a> {
    /// The iterator stands on the depot or on a served node of a solution
    /// whose chains are in order.
    pub open spec fn wf(&self) -> bool {
        &&& self.solution.linked()
        &&& self.solution.data.sized()
        &&& self.prev < PTS
        &&& !self.finished ==> self.cur == 0 || self.solution@.served(self.cur)
    }

    /// The nodes still to come.
    pub open spec fn remaining(&self) -> Seq<usize> {
        if self.finished {
            Seq::empty()
        } else {
            self.solution.rest_from(self.cur)
        }
    }

    /// The next node, or `None` once the depot has been yielded.
    pub fn next(&mut self) -> (r: Option<usize>)
        requires
            old(self).wf(),
        ensures
            final(self).wf(),
            final(self).solution == old(self).solution,
            old(self).remaining().len() == 0 ==> r is None && final(self).remaining()
                == old(self).remaining(),
            old(self).remaining().len() > 0 ==> r == Some(old(self).remaining()[0]) && final(
                self).remaining() == old(self).remaining().drop_first(),
    {
        if self.finished {
            None
        } else {
            proof {
                let sol = self.solution;
                let l = sol@;
                if self.cur != 0 {
                    l.lemma_neighbours(sol.data.points as int, self.cur);
                    sol.lemma_route_shape(l.owner[self.cur]);
                    let s = l.tour_of(self.cur);
                    let i = l.slot[self.cur];
                    if i + 1 < s.len() {
                        assert(l.slot[s[i + 1]] == i + 1);
                        assert(s.skip(i).push(0).drop_first() =~= s.skip(i + 1).push(0));
                    } else {
                        assert(s.skip(i).push(0).drop_first() =~= seq![0usize]);
                    }
                } else {
                    assert(seq![0usize].drop_first() =~= Seq::<usize>::empty());
                }
            }
            self.prev = self.cur;
            self.cur = self.solution.next[self.cur];
            self.finished = self.prev + self.cur == 0;
            Some(self.prev)
        }
    }

    /// All nodes still to come, in order.
    pub fn collect(self) -> (r: Vec<usize>)
        requires
            self.wf(),
        ensures
            r@ == self.remaining(),
    {
        let mut it = self;
        let mut out: Vec<usize> = Vec::new();
        proof {
            it.lemma_remaining_len();
        }
        loop
            invariant
                it.wf(),
                out@ + it.remaining() == self.remaining(),
                it.remaining().len() <= PTS,
            decreases it.remaining().len(),
        {
            let ghost before = it.remaining();
            match it.next() {
                Some(v) => {
                    out.push(v);
                    proof {
                        assert(out@ + it.remaining() =~= self.remaining());
                    }
                },
                None => {
                    proof {
                        assert(out@ =~= self.remaining());
                    }
                    return out;
                },
            }
        }
    }

    /// No more nodes are to come than the node table holds.
    pub proof fn lemma_remaining_len(&self)
        requires
            self.wf(),
        ensures
            self.remaining().len() <= PTS,
    {
        if !self.finished && self.cur != 0 {
            self.solution.lemma_route_shape(self.solution@.owner[self.cur]);
        }
    }
}

impl<'a> Sol<'a> {
    /// Some route has a place that the scan accepts for the pair of
    /// `pickup`.
    pub open spec fn insertable(&self, pickup: usize) -> bool {
        exists|r: usize|
            self@.has(r) && #[trigger] found_all(
                self.data,
                self.latest_feasible_departure@,
                self@.tours[r],
                pickup,
            ) > 0
    }

    /// Looks in every route for places to put the pair of `pickup` without
    /// ejecting anything, and draws one of them with equal chances. There is
    /// none exactly when no route has a place that the scan accepts. The
    /// move that comes back counts the places of all routes together, and
    /// its own place is one that the scan accepts in one of them.
    pub fn try_insert_1(&self, pickup: usize, ev: &mut Evaluator) -> (r: Option<Move>)
        requires
            self.wf(),
            old(ev).data == self.data,
            self.data.customer(pickup as int),
            !self.data.delivers(pickup as int),
            !self@.served(pickup),
        ensures
            final(ev).data == old(ev).data,
            final(ev).combinations == old(ev).combinations,
            final(ev).pickup_idx == pickup,
            r is Some <==> self.insertable(pickup),
            r is Some <==> self.found_everywhere(pickup) > 0,
            r matches Some(m) ==> {
                &&& m.pickup == pickup
                &&& m.times > 0
                &&& m.times == self.found_everywhere(pickup)
                &&& m.removed@ == Seq::new(K_MAX as nat, |i: int| 0usize)
                &&& fits_in(self@, self.data, &m)
                &&& exists|start: usize|
                    self@.has(start) && #[trigger] chosen(
                        self.data,
                        self.latest_feasible_departure@,
                        self@.tours[start],
                        pickup,
                        m.placement(),
                    )
            },
    {
        ev.reset(pickup);
        let mut best: Option<Move> = None;
        let ghost keys = spec_hash_keys_iter(&self.routes).remaining();
        let ghost lfd = self.latest_feasible_departure@;
        let ghost mut seen: Seq<usize> = Seq::empty();
        let ghost mut at: usize = 0;
        for route in it: self.routes.iter()
            invariant
                self.wf(),
                ev.data == self.data,
                ev.combinations == old(ev).combinations,
                ev.pickup_idx == pickup,
                self.data.customer(pickup as int),
                !self.data.delivers(pickup as int),
                !self@.served(pickup),
                lfd == self.latest_feasible_departure@,
                it.seq() == keys,
                keys == spec_hash_keys_iter(&self.routes).remaining(),
                proper(self.data, seen),
                it.index() <= seen.len(),
                forall|i: int|
                    0 <= i < seen.len() ==> self@.served(#[trigger] seen[i]) && among(
                        keys,
                        it.index(),
                        self@.owner[seen[i]],
                    ),
                best is Some <==> self.hit(keys, it.index(), pickup),
                best matches Some(m) ==> {
                    &&& m.pickup == pickup
                    &&& 0 < m.times <= 2 * seen.len() * PTS
                    &&& m.removed@ == Seq::new(K_MAX as nat, |i: int| 0usize)
                    &&& fits_in(self@, self.data, &m)
                    &&& self@.has(at)
                    &&& chosen(
                        self.data,
                        self.latest_feasible_departure@,
                        self@.tours[at],
                        pickup,
                        m.placement(),
                    )
                    &&& m.times == sum_over(keys.unref().take(it.index()), self.found_in(pickup))
                },
                best is None ==> sum_over(keys.unref().take(it.index()), self.found_in(pickup)) == 0,
        {
            let ghost idx = it.index();
            proof {
                assert(keys.unref().to_set().contains(keys.unref()[idx]));
                assert(self@.has(*route));
                assert(*keys[idx] == *route);
                self.lemma_route_shape(*route);
            }
            let ghost s = self@.tours[*route];
            let ghost grown = seen + s;
            proof {
                assert forall|a: int, b: int|
                    0 <= a < grown.len() && 0 <= b < grown.len() && a != b implies grown[a]
                    != grown[b] by {
                    let m = seen.len() as int;
                    if a < m && b >= m {
                        assert(self@.tours[*route][b - m] == grown[b]);
                        let j = choose|j: int| 0 <= j < idx && *(#[trigger] keys[j]) == self@.owner[seen[a]];
                        assert(keys[j] != keys[idx]);
                    }
                    if b < m && a >= m {
                        assert(self@.tours[*route][a - m] == grown[a]);
                        let j = choose|j: int| 0 <= j < idx && *(#[trigger] keys[j]) == self@.owner[seen[b]];
                        assert(keys[j] != keys[idx]);
                    }
                    if a >= m && b >= m {
                        assert(s[a - m] != s[b - m]);
                    }
                }
                assert forall|a: int| 0 <= a < grown.len() implies self.data.customer(
                    #[trigger] grown[a] as int,
                ) by {
                    if a < seen.len() {
                        assert(self.data.customer(seen[a] as int));
                    } else {
                        assert(self.data.customer(s[a - seen.len()] as int));
                    }
                }
                lemma_proper_len(self.data, grown);
                crate::scan::lemma_found_bound(
                    self.data,
                    lfd,
                    s,
                    pickup,
                    s.len() as int + 1,
                    PTS as int,
                );
                assert((s.len() + 1) * PTS <= 2 * s.len() * PTS) by (nonlinear_arith)
                    requires
                        s.len() >= 1,
                ;
                assert(2 * seen.len() * PTS + 2 * s.len() * PTS == 2 * grown.len() * PTS)
                    by (nonlinear_arith)
                    requires
                        grown.len() == seen.len() + s.len(),
                ;
                assert(2 * grown.len() * PTS <= 2 * PTS * PTS) by (nonlinear_arith)
                    requires
                        grown.len() < PTS,
                ;
            }
            let found = ev.check_add_to_route(self, *route);
            let ghost before = best;
            match found {
                Some(m) => {
                    best = match best {
                        None => {
                            proof {
                                at = *route;
                            }
                            Some(m)
                        },
                        Some(b) => {
                            let merged = b.pick2(m);
                            proof {
                                if merged == (Move { times: merged.times, ..m }) {
                                    at = *route;
                                }
                            }
                            Some(merged)
                        },
                    };
                },
                None => {},
            }
            proof {
                let upto = keys.unref().take(idx + 1);
                assert(upto.drop_last() =~= keys.unref().take(idx));
                assert(upto.last() == *route);
                assert(self.found_in(pickup)(*route) == found_all(
                    self.data,
                    lfd,
                    self@.tours[*route],
                    pickup,
                ));
                assert forall|i: int| 0 <= i < grown.len() implies self@.served(#[trigger] grown[i])
                    && among(keys, idx + 1, self@.owner[grown[i]]) by {
                    if i < seen.len() {
                        let j = choose|j: int| 0 <= j < idx && *(#[trigger] keys[j]) == self@.owner[seen[i]];
                        assert(0 <= j < idx + 1 && *keys[j] == self@.owner[grown[i]]);
                    } else {
                        assert(self@.tours[*route][i - seen.len()] == grown[i]);
                        assert(0 <= idx < idx + 1 && *keys[idx] == self@.owner[grown[i]]);
                    }
                }
                self.lemma_hit_step(keys, idx, pickup);
                seen = grown;
            }
        }
        proof {
            assert(keys.unref().to_set() == self.routes@);
            if self.hit(keys, keys.len() as int, pickup) {
                let j = choose|j: int| 0 <= j < keys.len() && self.hit_at(keys, j, pickup);
                assert(keys.unref().to_set().contains(keys.unref()[j]));
                assert(self@.has(*keys[j]));
            }
            if self.insertable(pickup) {
                let r = choose|r: usize|
                    self@.has(r) && #[trigger] found_all(self.data, lfd, self@.tours[r], pickup) > 0;
                assert(keys.unref().to_set().contains(r));
                let j = choose|j: int| 0 <= j < keys.unref().len() && keys.unref()[j] == r;
                assert(*keys[j] == r);
                assert(self.hit_at(keys, j, pickup));
            }
            let ids = keys.unref();
            assert(ids.take(ids.len() as int) =~= ids);
            assert forall|a: int, b: int| 0 <= a < ids.len() && 0 <= b < ids.len() && a != b implies ids[a]
                != ids[b] by {
                assert(keys[a] != keys[b]);
            }
            assert forall|v: usize| ids.contains(v) <==> self@.tours.dom().contains(v) && v < PTS by {
                if ids.contains(v) {
                    assert(ids.to_set().contains(v));
                }
                if self@.tours.dom().contains(v) {
                    assert(ids.to_set().contains(v));
                    assert(self@.has(v));
                    self.lemma_route_shape(v);
                    assert(self@.tours[v][0] == v);
                }
            }
            lemma_sum_any_order(ids, self@.tours.dom(), self.found_in(pickup), PTS as int);
        }
        best
    }

    /// Number of placements that the scan accepts for the pair of `pickup`
    /// in the route `r`, as a function of `r`.
    pub open spec fn found_in(&self, pickup: usize) -> spec_fn(usize) -> nat {
        |r: usize| found_all(self.data, self.latest_feasible_departure@, self@.tours[r], pickup)
    }

    /// Number of placements that the scan accepts for the pair of `pickup`
    /// in all routes together.
    pub open spec fn found_everywhere(&self, pickup: usize) -> nat {
        sum_below(self@.tours.dom(), self.found_in(pickup), PTS as int)
    }

    /// The scan accepts a place for the pair of `pickup` in the route of the
    /// key number `j`.
    pub open spec fn hit_at(&self, keys: Seq<&usize>, j: int, pickup: usize) -> bool {
        found_all(self.data, self.latest_feasible_departure@, self@.tours[*keys[j]], pickup) > 0
    }

    /// The scan accepts a place for the pair of `pickup` in the route of one
    /// of the first `n` keys.
    pub open spec fn hit(&self, keys: Seq<&usize>, n: int, pickup: usize) -> bool {
        exists|j: int| 0 <= j < n && #[trigger] self.hit_at(keys, j, pickup)
    }

    /// One more key is a hit if it is one or one of those before it was.
    pub proof fn lemma_hit_step(&self, keys: Seq<&usize>, n: int, pickup: usize)
        requires
            0 <= n,
        ensures
            self.hit(keys, n + 1, pickup) <==> self.hit(keys, n, pickup) || self.hit_at(
                keys,
                n,
                pickup,
            ),
    {
        if self.hit(keys, n, pickup) {
            let j = choose|j: int| 0 <= j < n && #[trigger] self.hit_at(keys, j, pickup);
            assert(0 <= j < n + 1 && self.hit_at(keys, j, pickup));
        }
        if self.hit(keys, n + 1, pickup) {
            let j = choose|j: int| 0 <= j < n + 1 && #[trigger] self.hit_at(keys, j, pickup);
            if j < n {
                assert(0 <= j < n && self.hit_at(keys, j, pickup));
            }
        }
        if self.hit_at(keys, n, pickup) {
            assert(0 <= n < n + 1 && self.hit_at(keys, n, pickup));
        }
    }

    /// Makes every pickup with its delivery a route of its own.
    pub fn initialize(&mut self)
        requires
            old(self).wf(),
            old(self)@ == Layout::empty(),
            old(self).heap.pool().len() == 0,
            forall|v: usize|
                old(self).data.customer(v as int) && !old(self).data.delivers(v as int) ==> feasible(
                    old(self).data,
                    #[trigger] pair_route(old(self).data, v),
                ),
        ensures
            final(self).wf(),
            final(self).data == old(self).data,
            final(self).heap == old(self).heap,
            forall|v: usize|
                #![trigger final(self)@.has(v)]
                final(self)@.has(v) <==> old(self).data.customer(v as int) && !old(self).data.delivers(
                    v as int,
                ),
            forall|v: usize|
                old(self).data.customer(v as int) && !old(self).data.delivers(v as int)
                    ==> #[trigger] final(self)@.tours[v] == pair_route(old(self).data, v),
            forall|v: usize| old(self).data.customer(v as int) ==> final(self)@.served(v),
    {
        let mut i: usize = 1;
        proof {
            assert forall|v: usize|
                #![trigger self@.served(v)]
                self@.served(v) <==> self.data.customer(v as int) && if self.data.delivers(
                    v as int,
                ) {
                    self.data.pair(v as int) < 1
                } else {
                    v < 1
                } by {
                if self.data.customer(v as int) {
                    assert(self.data.pair_ok(v as int));
                }
            }
        }
        while i < self.data.points
            invariant
                self.wf(),
                self.data == old(self).data,
                self.heap == old(self).heap,
                self.heap.pool().len() == 0,
                1 <= i <= self.data.points,
                forall|v: usize|
                    self.data.customer(v as int) && !self.data.delivers(v as int) ==> feasible(
                        self.data,
                        #[trigger] pair_route(self.data, v),
                    ),
                forall|v: usize|
                    #![trigger self@.has(v)]
                    self@.has(v) <==> self.data.customer(v as int) && !self.data.delivers(v as int)
                        && v < i,
                forall|v: usize|
                    self.data.customer(v as int) && !self.data.delivers(v as int) && v < i
                        ==> #[trigger] self@.tours[v] == pair_route(self.data, v),
                forall|v: usize|
                    #![trigger self@.served(v)]
                    self@.served(v) <==> self.data.customer(v as int) && if self.data.delivers(
                        v as int,
                    ) {
                        self.data.pair(v as int) < i
                    } else {
                        v < i
                    },
            decreases self.data.points - i,
        {
            let p = self.data.pts[i];
            if !p.is_delivery {
                let ghost l = self@;
                let ghost two = pair_route(self.data, i);
                let mut vec: Vec<usize> = Vec::new();
                vec.push(0);
                vec.push(i);
                vec.push(p.pair);
                vec.push(0);
                proof {
                    let data = self.data;
                    assert(data.customer(i as int));
                    assert(data.pair_ok(i as int));
                    assert(data.pair_ok(p.pair as int));
                    assert(inner(vec@) =~= two);
                    assert(two[0] == i && two[1] == p.pair);
                    assert(two.contains(two[0]));
                    assert(two.contains(two[1]));
                    lemma_index_of(two, 0);
                    lemma_index_of(two, 1);
                    assert(coupled_at(data, two, 0));
                    assert(coupled_at(data, two, 1));
                    assert(self.accepts(vec@));
                    l.lemma_with_tour(data.points as int, two);
                }
                self.add_route(&vec);
                proof {
                    let l2 = self@;
                    assert forall|v: usize|
                        #![trigger l2.served(v)]
                        l2.served(v) <==> self.data.customer(v as int) && if self.data.delivers(
                            v as int,
                        ) {
                            self.data.pair(v as int) < i + 1
                        } else {
                            v < i + 1
                        } by {
                        if self.data.customer(v as int) {
                            assert(self.data.pair_ok(v as int));
                        }
                        if two.contains(v) {
                            let k = choose|k: int| 0 <= k < two.len() && two[k] == v;
                        }
                        assert(l.served(v) <==> self.data.customer(v as int) && if self.data.delivers(
                            v as int,
                        ) {
                            self.data.pair(v as int) < i
                        } else {
                            v < i
                        });
                    }
                    assert forall|v: usize|
                        #![trigger l2.has(v)]
                        l2.has(v) <==> self.data.customer(v as int) && !self.data.delivers(v as int)
                            && v < i + 1 by {
                        assert(l.has(v) <==> self.data.customer(v as int) && !self.data.delivers(
                            v as int,
                        ) && v < i);
                    }
                    assert forall|v: usize|
                        self.data.customer(v as int) && !self.data.delivers(v as int) && v < i + 1
                            implies #[trigger] l2.tours[v] == pair_route(self.data, v) by {
                        if v < i {
                            assert(l.tours[v] == pair_route(self.data, v));
                        }
                    }
                }
            } else {
                proof {
                    assert forall|v: usize|
                        #![trigger self@.served(v)]
                        self@.served(v) <==> self.data.customer(v as int) && if self.data.delivers(
                            v as int,
                        ) {
                            self.data.pair(v as int) < i + 1
                        } else {
                            v < i + 1
                        } by {
                        if self.data.customer(v as int) {
                            assert(self.data.pair_ok(v as int));
                            assert(self.data.pair_ok(i as int));
                        }
                    }
                }
            }
            i += 1;
        }
        proof {
            assert forall|v: usize| self.data.customer(v as int) implies self@.served(v) by {
                assert(self.data.pair_ok(v as int));
            }
        }
    }
}

/// `r` is one of the first `n` keys.
pub open spec fn among(keys: Seq<&usize>, n: int, r: usize) -> bool {
    exists|j: int| 0 <= j < n && *(#[trigger] keys[j]) == r
}

/// The route that holds the pickup `v` and its delivery only.
pub open spec fn pair_route(data: &Data, v: usize) -> Seq<usize> {
    seq![v, data.pair(v as int) as usize]
}

impl<'a> Sol<'a> {
    /// A move without ejections that fits the solution can be applied.
    pub proof fn lemma_plain_admits(&self, mov: &Move)
        requires
            fits_in(self@, self.data, mov),
            mov.removed@ == Seq::new(K_MAX as nat, |i: int| 0usize),
        ensures
            self.admits(mov),
    {
        Self::lemma_zeros(self@, self.data, mov.removed@, K_MAX as int);
        assert(!listed(mov.removed@, K_MAX as int, mov.pickup)) by {
            if listed(mov.removed@, K_MAX as int, mov.pickup) {
                let j = choose|j: int| 0 <= j < K_MAX && mov.removed@[j] == mov.pickup;
                assert(mov.removed@[j] == 0);
            }
        }
    }

    /// A list of zeros ejects nothing.
    pub proof fn lemma_zeros(l: Layout, data: &Data, removed: Seq<usize>, k: int)
        requires
            0 <= k <= removed.len(),
            forall|i: int| 0 <= i < k ==> removed[i] == 0,
        ensures
            ejected(l, data, removed, k) == l,
        decreases k,
    {
        if k > 0 {
            Self::lemma_zeros(l, data, removed, k - 1);
        }
    }

    /// The search with `k` ejections from the route `start` finds a place
    /// for the pair of `p`, in whatever order the catalog holds the pickups
    /// that were ejected equally often.
    pub open spec fn yields(&self, start: usize, k: usize, p: usize) -> bool {
        &&& self@.has(start)
        &&& 2 * k < self@.tours[start].len()
        &&& forall|comb: Combinations| #[trigger]
            comb.loaded(self, start) && comb.k == k ==> hit_any(
                self,
                start,
                &comb,
                self.heap.times()[p as int] as int,
                p,
            )
    }

    /// The move `m` ejects `k` different pickups of the route `start`, fewer
    /// than the route holds, whose ejection counts add up to less than that
    /// of its own pickup, and nothing else; and it places its pair where the
    /// scan accepts it in what the ejections leave of the route.
    pub open spec fn ejects_from(&self, m: &Move, start: usize, k: usize) -> bool {
        &&& 1 <= k <= K_MAX
        &&& self@.has(start)
        &&& 2 * k < self@.tours[start].len()
        &&& forall|i: int|
            0 <= i < k ==> self.on_route(#[trigger] m.removed@[i], start) && !self.data.delivers(
                m.removed@[i] as int,
            )
        &&& forall|i: int, j: int|
            0 <= i < j < k ==> #[trigger] m.removed@[i] != #[trigger] m.removed@[j]
        &&& forall|i: int| k <= i < K_MAX ==> #[trigger] m.removed@[i] == 0
        &&& total_from(self.heap.times(), m.removed@, 0, k as int) < self.heap.times()[m.pickup as int]
        &&& chosen(
            self.data,
            self.latest_feasible_departure@,
            sift(self@.tours[start], gone_set(self.data, m.removed@, K_MAX as int)),
            m.pickup,
            m.placement(),
        )
    }

    /// The move `m` was found by the search with ejections: it ejects
    /// pickups of one route as [`Sol::ejects_from`] says, and for no smaller
    /// number of ejections was the search bound to find a place.
    pub open spec fn found_with_ejections(&self, m: &Move) -> bool {
        exists|k: usize, start: usize|
            #[trigger] self.ejects_from(m, start, k) && forall|kk: usize, st: usize|
                1 <= kk < k ==> !#[trigger] self.yields(st, kk, m.pickup)
    }

    /// For some number of ejections and some route the search is bound to
    /// find a place for the pair of `pickup`.
    pub open spec fn insertable_with_ejections(&self, pickup: usize) -> bool {
        exists|k: usize, start: usize| 1 <= k <= K_MAX && #[trigger] self.yields(start, k, pickup)
    }

    /// Looks for a place for the pair of `pickup` that opens when the pairs
    /// of `k` pickups of one route are ejected, for `k` from 1 up to the
    /// largest number of ejections, and stops at the first `k` that gives
    /// one. A move that comes back can be applied to the solution. There is
    /// one whenever the search is bound to find a place for some `k` and
    /// some route.
    pub fn try_insert_k(&self, pickup: usize, ev: &mut Evaluator) -> (r: Option<Move>)
        requires
            self.wf(),
            old(ev).data == self.data,
            self.data.customer(pickup as int),
            !self.data.delivers(pickup as int),
            !self@.served(pickup),
            self.heap.below(MAX_EJECTIONS as int),
            old(ev).combinations.quiet(),
        ensures
            final(ev).data == old(ev).data,
            final(ev).pickup_idx == pickup,
            final(ev).combinations.quiet(),
            r matches Some(m) ==> {
                &&& m.pickup == pickup
                &&& m.times > 0
                &&& self.admits(&m)
                &&& self.found_with_ejections(&m)
            },
            self.insertable_with_ejections(pickup) ==> r is Some,
    {
        ev.reset(pickup);

        let mut k: usize = 1;
        while k <= K_MAX
            invariant
                1 <= k <= K_MAX + 1,
                forall|kk: usize, start: usize|
                    1 <= kk < k ==> !#[trigger] self.yields(start, kk, pickup),
                self.wf(),
                ev.data == self.data,
                ev.data == old(ev).data,
                ev.pickup_idx == pickup,
                ev.combinations.quiet(),
                self.data.customer(pickup as int),
                !self.data.delivers(pickup as int),
                !self@.served(pickup),
                self.heap.below(MAX_EJECTIONS as int),
            decreases K_MAX + 1 - k,
        {
            let mut best: Option<Move> = None;
            let ghost mut at: usize = 0;
            let ghost keys = spec_hash_keys_iter(&self.routes).remaining();
            for route in it: self.routes.iter()
                invariant
                    1 <= k <= K_MAX,
                    self.wf(),
                    ev.data == self.data,
                    ev.data == old(ev).data,
                    ev.pickup_idx == pickup,
                    ev.combinations.quiet(),
                    self.data.customer(pickup as int),
                    !self.data.delivers(pickup as int),
                    !self@.served(pickup),
                    self.heap.below(MAX_EJECTIONS as int),
                    it.seq() == keys,
                    keys == spec_hash_keys_iter(&self.routes).remaining(),
                    best matches Some(m) ==> {
                        &&& m.pickup == pickup
                        &&& m.times > 0
                        &&& self.admits(&m)
                    },
                    best is None ==> forall|j: int|
                        0 <= j < it.index() ==> !self.yields(*(#[trigger] keys[j]), k, pickup),
                    best matches Some(m) ==> self.ejects_from(&m, at, k),
                    forall|kk: usize, start: usize|
                        1 <= kk < k ==> !#[trigger] self.yields(start, kk, pickup),
            {
                proof {
                    assert(keys.unref().to_set().contains(keys.unref()[it.index()]));
                    assert(self@.has(*route));
                    assert(*keys[it.index()] == *route);
                }
                let found = ev.check_add_to_route_with_k_removed(self, *route, k);
                proof {
                    if found is None {
                        assert(ev.combinations.loaded(self, *route) && ev.combinations.k == k);
                    }
                    if let Some(m) = found {
                        assert(self.ejects_from(&m, *route, k));
                    }
                }
                match found {
                    Some(m) => {
                        best = match best {
                            None => {
                                proof {
                                    at = *route;
                                }
                                Some(m)
                            },
                            Some(b) => {
                                if m.times <= usize::MAX - b.times {
                                    let merged = b.pick2(m);
                                    proof {
                                        if merged == (Move { times: merged.times, ..m }) {
                                            lemma_admits_same(self, &m, &merged);
                                            assert(self.ejects_from(&merged, *route, k));
                                            at = *route;
                                        } else {
                                            lemma_admits_same(self, &b, &merged);
                                            assert(self.ejects_from(&merged, at, k));
                                        }
                                    }
                                    Some(merged)
                                } else {
                                    Some(b)
                                }
                            },
                        };
                    },
                    None => {},
                }
            }

            if best.is_some() {
                proof {
                    assert(self.ejects_from(&best->0, at, k));
                }
                return best;
            }
            proof {
                assert(keys.unref().to_set() == self.routes@);
                assert forall|start: usize| !#[trigger] self.yields(start, k, pickup) by {
                    if self@.has(start) {
                        assert(keys.unref().to_set().contains(start));
                        let j = choose|j: int| 0 <= j < keys.unref().len() && keys.unref()[j] == start;
                        assert(*keys[j] == start);
                    }
                }
            }
            k += 1;
        }

        None
    }

    /// Looks for a place for the pair of `pickup`: first without ejecting
    /// anything, then with ejections. A move that comes back can be applied
    /// to the solution. It ejects nothing when some route has a place that
    /// the plain scan accepts, and there is one whenever some route has such
    /// a place or the search with ejections is bound to find one.
    pub fn try_insert(&self, pickup: usize, ev: &mut Evaluator) -> (r: Option<Move>)
        requires
            self.wf(),
            old(ev).data == self.data,
            self.data.customer(pickup as int),
            !self.data.delivers(pickup as int),
            !self@.served(pickup),
            self.heap.below(MAX_EJECTIONS as int),
            old(ev).combinations.quiet(),
        ensures
            final(ev).data == old(ev).data,
            final(ev).pickup_idx == pickup,
            final(ev).combinations.quiet(),
            self.insertable(pickup) || self.insertable_with_ejections(pickup) ==> r is Some,
            self.insertable(pickup) ==> (r matches Some(m) && m.removed@ == Seq::new(
                K_MAX as nat,
                |i: int| 0usize,
            ) && fits_in(self@, self.data, &m)),
            r matches Some(m) ==> {
                &&& m.pickup == pickup
                &&& m.times > 0
                &&& self.admits(&m)
            },
            r matches Some(m) ==> !self.insertable(pickup) ==> self.found_with_ejections(&m),
    {
        ev.reset(pickup);

        let mov = self.try_insert_1(pickup, ev);

        match mov {
            Some(m) => {
                proof {
                    self.lemma_plain_admits(&m);
                }
                Some(m)
            },
            None => self.try_insert_k(pickup, ev),
        }
    }
    /// The layout of a well-formed solution is sane.
    pub proof fn lemma_sane(&self)
        requires
            self.wf(),
        ensures
            sane(self@, self.data),
    {
    }

    /// The move that puts the pair of the served pickup `pickup` back into
    /// the gaps it would leave.
    pub fn home_move(&self, pickup: usize) -> (m: Move)
        requires
            self.wf(),
            self@.served(pickup),
            !self.data.delivers(pickup as int),
        ensures
            m.pickup == pickup,
            m.times == 1,
            m.removed@ == Seq::new(K_MAX as nat, |i: int| 0usize),
            m.placement() == home(self@, self.data, pickup),
    {
        let ghost l = self@;
        let ghost n = self.data.points as int;
        let ghost d = self.data.pair(pickup as int) as usize;
        let ghost r0 = l.owner[pickup];
        let ghost s = l.tours[r0];
        let ghost a = l.slot[pickup];
        let ghost b = l.slot[d];
        proof {
            assert(self.data.customer(pickup as int));
            assert(self.data.pair_ok(pickup as int));
            assert(mated(l, self.data, pickup));
            assert(l.has(r0));
            self.lemma_route_shape(r0);
            assert(s[a] == pickup);
            assert(s[b] == d);
            self.lemma_link_at(r0, a);
            self.lemma_link_at(r0, b);
        }
        let delivery = self.data.pair_of(pickup);
        let before_pickup = self.prev[pickup];
        let after_pickup = if self.next[pickup] == delivery {
            self.next[delivery]
        } else {
            self.next[pickup]
        };
        let before_delivery = if self.prev[delivery] == pickup {
            pickup
        } else {
            self.prev[delivery]
        };
        let after_delivery = self.next[delivery];
        let mut m = Move::new(pickup);
        m.times = 1;
        m.put_pickup_between = Between(before_pickup, after_pickup);
        m.put_delivery_between = Between(before_delivery, after_delivery);
        proof {
            let t = s.remove(b).remove(a);
            assert(stop_at(t, a - 1) == before_pickup) by {
                if a > 0 {
                    assert(t[a - 1] == s[a - 1]);
                }
            }
            assert(stop_at(t, a) == after_pickup) by {
                if a + 1 < b {
                    assert(t[a] == s[a + 1]);
                    assert(s[a + 1] != s[b]);
                } else {
                    if a < t.len() {
                        assert(t[a] == s[a + 2]);
                    }
                }
            }
            assert(stop_at(t, b - 1) == after_delivery) by {
                if b - 1 < t.len() {
                    assert(t[b - 1] == s[b + 1]);
                }
            }
            if b - 1 != a {
                assert(t[b - 2] == s[b - 1]);
                assert(s[b - 1] != s[a]);
            }
        }
        m
    }

    /// `p` is a served pickup that is not alone in its route.
    pub open spec fn loose(&self, p: usize) -> bool {
        &&& self.data.customer(p as int)
        &&& !self.data.delivers(p as int)
        &&& self@.served(p)
        &&& self@.tour_of(p).len() != 2
    }

    /// A served pickup that is not alone in its route, drawn at random;
    /// none when there is no such pickup.
    pub fn random_pickup(&self) -> (r: Option<usize>)
        requires
            self.wf(),
        ensures
            r matches Some(p) ==> self.loose(p),
            r is None ==> forall|p: usize| !self.loose(p),
    {
        let mut eligible: Vec<usize> = Vec::new();
        let mut idx: usize = 1;
        while idx < self.data.points
            invariant
                self.wf(),
                1 <= idx <= self.data.points,
                forall|i: int| 0 <= i < eligible@.len() ==> self.loose(#[trigger] eligible@[i]),
                forall|p: usize| p < idx && #[trigger] self.loose(p) ==> eligible@.contains(p),
            decreases self.data.points - idx,
        {
            let ghost before = eligible@;
            if !self.is_removed(idx) && !self.data.pts[idx].is_delivery
                && !self.only_pickup_in_route(idx) {
                eligible.push(idx);
            }
            proof {
                assert forall|p: usize| p < idx + 1 && #[trigger] self.loose(p) implies eligible@.contains(
                    p,
                ) by {
                    if p < idx {
                        let i = choose|i: int| 0 <= i < before.len() && before[i] == p;
                        assert(eligible@[i] == p);
                    } else {
                        assert(eligible@[eligible@.len() - 1] == p);
                    }
                }
            }
            idx += 1;
        }
        let r = choose_one(&eligible);
        proof {
            if r is Some {
                let p = r->0;
                let i = choose|i: int| 0 <= i < eligible@.len() && eligible@[i] == p;
                assert(eligible@[i] == p);
            }
        }
        r
    }

    /// The layout `after` is this one with the pair of the served pickup
    /// `p` taken out of its route and put where `m` says, a place where it
    /// fits once it is out.
    pub open spec fn relocated(&self, p: usize, m: &Move, after: Layout) -> bool {
        let gone = self@.detach(p).detach(self.data.pair(p as int) as usize);
        &&& m.pickup == p
        &&& fits_in(gone, self.data, m)
        &&& after == placed_in(gone, self.data, m)
    }

    /// What a random relocation leaves of this solution: the solution as it
    /// is when no pickup can be moved, else the layout with the pair of one
    /// such pickup put into a place where it fits.
    pub open spec fn moved(&self, after: Sol<'a>) -> bool {
        &&& (forall|p: usize| !self.loose(p)) ==> after == *self
        &&& (exists|p: usize| self.loose(p)) ==> exists|p: usize, m: Move|
            self.loose(p) && #[trigger] self.relocated(p, &m, after@)
    }

    /// Takes the pair of `pickup` out of its route and puts it into a place
    /// drawn among those that the plain scan accepts in any route, or back
    /// where it was when the scan accepts none.
    pub fn relocate(&mut self, pickup: usize, ev: &mut Evaluator)
        requires
            old(self).wf(),
            old(self).loose(pickup),
            old(ev).data == old(self).data,
        ensures
            final(self).wf(),
            final(self).data == old(self).data,
            final(self).heap == old(self).heap,
            forall|v: usize| final(self)@.served(v) == old(self)@.served(v),
            final(ev).data == old(ev).data,
            final(ev).combinations == old(ev).combinations,
            final(self)@.count() == old(self)@.count(),
            exists|m: Move| old(self).relocated(pickup, &m, final(self)@),
    {
        let ghost l = self@;
        let ghost d = self.data.pair(pickup as int) as usize;
        let home = self.home_move(pickup);
        proof {
            assert(self.data.pair_ok(pickup as int));
            assert(mated(l, self.data, pickup));
            l.lemma_detach_pair(self.data.points as int, pickup, d);
            self.lemma_sane();
            assert(l.has(l.owner[pickup]));
            lemma_proper_pair_len(self, pickup);
            lemma_home(l, self.data, &home);
            let pool = self.heap.pool();
            assert(!pool.contains(pickup)) by {
                if pool.contains(pickup) {
                    let i = choose|i: int| 0 <= i < pool.len() && pool[i] == pickup;
                    assert(!l.served(pool[i]));
                }
            }
        }

        self.remove_pair(pickup);

        let mov = self.try_insert_1(pickup, ev);
        let ghost l2 = self@;
        match mov {
            Some(m) => {
                proof {
                    self.lemma_plain_admits(&m);
                    l2.lemma_put(
                        self.data.points as int,
                        pickup,
                        (m.put_pickup_between.0, m.put_pickup_between.1),
                        d,
                        (m.put_delivery_between.0, m.put_delivery_between.1),
                    );
                    Self::lemma_zeros(l2, self.data, m.removed@, K_MAX as int);
                    lemma_bumped_zeros(self.heap.times(), m.removed@, K_MAX as int);
                }
                self.make_move(&m);
                proof {
                    lemma_grown_zeros(old(self).heap.pool(), self.heap.pool(), m.removed@);
                    assert(old(self).relocated(pickup, &m, self@));
                }
            },
            None => {
                proof {
                    self.lemma_plain_admits(&home);
                    l2.lemma_put(
                        self.data.points as int,
                        pickup,
                        (home.put_pickup_between.0, home.put_pickup_between.1),
                        d,
                        (home.put_delivery_between.0, home.put_delivery_between.1),
                    );
                    Self::lemma_zeros(l2, self.data, home.removed@, K_MAX as int);
                    lemma_bumped_zeros(self.heap.times(), home.removed@, K_MAX as int);
                }
                self.make_move(&home);
                proof {
                    lemma_grown_zeros(old(self).heap.pool(), self.heap.pool(), home.removed@);
                    assert(old(self).relocated(pickup, &home, self@));
                }
            },
        }
    }

    /// Takes the pair of a random pickup that is not alone in its route out
    /// of the route and puts it into a place drawn among those that the
    /// plain scan accepts, or back where it was when the scan accepts none.
    /// Nothing changes when there is no such pickup.
    pub fn random_move(&mut self, ev: &mut Evaluator)
        requires
            old(self).wf(),
            old(ev).data == old(self).data,
        ensures
            final(self).wf(),
            final(self).data == old(self).data,
            final(self).heap == old(self).heap,
            forall|v: usize| final(self)@.served(v) == old(self)@.served(v),
            final(ev).data == old(ev).data,
            final(ev).combinations == old(ev).combinations,
            final(self)@.count() == old(self)@.count(),
            old(self).moved(*final(self)),
    {
        let pickup = match self.random_pickup() {
            Some(p) => p,
            None => {
                return ;
            },
        };
        self.relocate(pickup, ev);
        proof {
            let m = choose|m: Move| old(self).relocated(pickup, &m, self@);
            assert(old(self).loose(pickup) && old(self).relocated(pickup, &m, self@));
        }
    }
}

/// A route that holds a pickup holds at least two nodes; one that is not the
/// pickup's pair alone holds more.
pub proof fn lemma_proper_pair_len(sol: &Sol, pickup: usize)
    requires
        sol.wf(),
        sol@.served(pickup),
        !sol.data.delivers(pickup as int),
        sol@.tour_of(pickup).len() != 2,
    ensures
        sol@.tour_of(pickup).len() > 2,
{
    let l = sol@;
    let d = sol.data.pair(pickup as int) as usize;
    assert(mated(l, sol.data, pickup));
    assert(l.has(l.owner[pickup]));
    assert(l.slot[pickup] < l.slot[d]);
}

/// A list of zeros raises no ejection count.
pub proof fn lemma_bumped_zeros(times: Seq<u64>, removed: Seq<usize>, k: int)
    requires
        0 <= k <= removed.len(),
        forall|i: int| 0 <= i < k ==> removed[i] == 0,
    ensures
        bumped(times, removed, k) == times,
    decreases k,
{
    if k > 0 {
        lemma_bumped_zeros(times, removed, k - 1);
    }
}

/// A pool that has grown by a list of zeros holds what it held.
pub proof fn lemma_grown_zeros(before: Seq<usize>, after: Seq<usize>, removed: Seq<usize>)
    requires
        removed.len() == K_MAX,
        forall|i: int| 0 <= i < K_MAX ==> removed[i] == 0,
        grown_by(before, after, removed, K_MAX as int),
    ensures
        forall|v: usize| after.contains(v) <==> before.contains(v),
{
    assert forall|v: usize| after.contains(v) <==> before.contains(v) by {
        if listed(removed, K_MAX as int, v) {
            let j = choose|j: int| 0 <= j < K_MAX && removed[j] == v;
            assert(removed[j] == 0);
        }
    }
}

impl<'a> Sol<'a> {
    /// A served pickup that is not alone in its route and whose route is not
    /// `route`, drawn at random; none when there is no such pickup.
    pub fn random_pickup_outside(&self, route: usize) -> (r: Option<usize>)
        requires
            self.wf(),
        ensures
            r matches Some(p) ==> self.loose(p) && self@.owner[p] != route,
            r is None ==> forall|p: usize| !(self.loose(p) && self@.owner[p] != route),
    {
        let mut eligible: Vec<usize> = Vec::new();
        let mut idx: usize = 1;
        while idx < self.data.points
            invariant
                self.wf(),
                1 <= idx <= self.data.points,
                forall|i: int|
                    0 <= i < eligible@.len() ==> self.loose(#[trigger] eligible@[i])
                        && self@.owner[eligible@[i]] != route,
                forall|p: usize|
                    p < idx && #[trigger] self.loose(p) && self@.owner[p] != route
                        ==> eligible@.contains(p),
            decreases self.data.points - idx,
        {
            let ghost before = eligible@;
            if !self.is_removed(idx) && !self.data.pts[idx].is_delivery
                && !self.only_pickup_in_route(idx) {
                proof {
                    assert(self.cached_at(idx));
                }
                if self.first[idx] != route {
                    eligible.push(idx);
                }
            }
            proof {
                assert forall|p: usize|
                    p < idx + 1 && #[trigger] self.loose(p) && self@.owner[p]
                        != route implies eligible@.contains(p) by {
                    if p < idx {
                        let i = choose|i: int| 0 <= i < before.len() && before[i] == p;
                        assert(eligible@[i] == p);
                    } else {
                        assert(self.cached_at(idx));
                        assert(eligible@[eligible@.len() - 1] == p);
                    }
                }
            }
            idx += 1;
        }
        let r = choose_one(&eligible);
        proof {
            if r is Some {
                let p = r->0;
                let i = choose|i: int| 0 <= i < eligible@.len() && eligible@[i] == p;
                assert(eligible@[i] == p);
            }
        }
        r
    }

    /// The scan accepts a place for the pair of `b` in the route of `a`
    /// without the pair of `a`, and one for the pair of `a` in the route of
    /// `b` without the pair of `b`; something is left of both routes.
    pub open spec fn swappable(&self, a: usize, b: usize) -> bool {
        &&& rest_of(self, a).len() > 0
        &&& rest_of(self, b).len() > 0
        &&& found_all(self.data, self.latest_feasible_departure@, rest_of(self, a), b) > 0
        &&& found_all(self.data, self.latest_feasible_departure@, rest_of(self, b), a) > 0
    }

    /// The layout `after` is this one with the pairs of `a` and `b` taken
    /// out of their routes and put where `s` says: the pair of `b` into what
    /// is left of the route of `a` and the pair of `a` into what is left of
    /// the route of `b`, each where it fits.
    pub open spec fn exchanged(&self, a: usize, b: usize, s: &Swap, after: Layout) -> bool {
        &&& s.a.pickup == b
        &&& s.b.pickup == a
        &&& self.swaps(s)
        &&& after == placed_in(placed_in(self.both_gone(s), self.data, &s.a), self.data, &s.b)
    }

    /// Whichever pickups are drawn, a random swap exchanges their pairs:
    /// there is a pickup that is not alone in its route, each of them has
    /// such a pickup in another route, and every two of them in different
    /// routes can be exchanged.
    #[verifier::opaque]
    pub open spec fn swap_owed(&self) -> bool {
        &&& exists|a: usize| self.loose(a)
        &&& forall|a: usize| #[trigger]
            self.loose(a) ==> exists|b: usize| self.loose(b) && self@.owner[b] != self@.owner[a]
        &&& forall|a: usize, b: usize|
            self.loose(a) && self.loose(b) && self@.owner[a] != self@.owner[b]
                ==> #[trigger] self.swappable(a, b)
    }

    /// The layout `after` is this one with the pairs of two pickups of
    /// different routes, neither alone in its route, exchanged.
    #[verifier::opaque]
    pub open spec fn swapped_to(&self, after: Layout) -> bool {
        exists|a: usize, b: usize, s: Swap|
            self.loose(a) && self.loose(b) && self@.owner[a] != self@.owner[b] && self.swappable(a, b)
                && #[trigger] self.exchanged(a, b, &s, after)
    }

    /// What a random swap leaves of this solution: the solution as it is,
    /// or the layout with two pairs exchanged; the latter whenever a swap is
    /// owed.
    pub open spec fn swapped(&self, after: Sol<'a>) -> bool {
        &&& after == *self || self.swapped_to(after@)
        &&& self.swap_owed() ==> self.swapped_to(after@)
    }

    /// Exchanges the pairs of the pickups `a` and `b` of different routes:
    /// the pair of each goes into a place drawn among those that the scan
    /// accepts in the route of the other without the other's pair. Nothing
    /// changes unless there is such a place for both.
    pub fn exchange(&mut self, a: usize, b: usize, ev: &mut Evaluator)
        requires
            old(self).wf(),
            old(ev).data == old(self).data,
            a != b,
            old(self)@.served(a),
            old(self)@.served(b),
            !old(self).data.delivers(a as int),
            !old(self).data.delivers(b as int),
            old(self)@.owner[a] != old(self)@.owner[b],
        ensures
            final(self).wf(),
            final(self).data == old(self).data,
            final(self).heap == old(self).heap,
            forall|v: usize| final(self)@.served(v) == old(self)@.served(v),
            *final(ev) == *old(ev),
            final(self)@.count() <= old(self)@.count(),
            old(self).loose(a) && old(self).loose(b) ==> final(self)@.count() == old(self)@.count(),
            old(self).swappable(a, b) ==> exists|s: Swap| old(self).exchanged(a, b, &s, final(self)@),
            !old(self).swappable(a, b) ==> *final(self) == *old(self),
    {
        let maybe = ev.check_swap(self, a, b);

        if let Some(swap) = maybe {
            proof {
                if self.loose(a) && self.loose(b) {
                    let l = self@;
                    let n = self.data.points as int;
                    let da = self.data.pair(b as int) as usize;
                    let db = self.data.pair(a as int) as usize;
                    assert(mated(l, self.data, a));
                    assert(mated(l, self.data, b));
                    l.lemma_detach_pair(n, b, da);
                    l.lemma_detach_pair_count(n, b, da);
                    let mid = l.detach(b).detach(da);
                    assert(mid.tour_of(a) == l.tour_of(a));
                    assert(mid.owner[db] == l.owner[db] && mid.slot[db] == l.slot[db]);
                    mid.lemma_detach_pair_count(n, a, db);
                }
            }
            self.make_swap(&swap);
            proof {
                assert(old(self).exchanged(a, b, &swap, self@));
            }
        }
    }

    /// Exchanges the pairs of two random pickups of different routes,
    /// neither alone in its route, if the evaluator finds a place for each
    /// in the route of the other. Nothing changes when there are no two such
    /// pickups or no such places.
    pub fn random_swap(&mut self, ev: &mut Evaluator)
        requires
            old(self).wf(),
            old(ev).data == old(self).data,
        ensures
            final(self).wf(),
            final(self).data == old(self).data,
            final(self).heap == old(self).heap,
            forall|v: usize| final(self)@.served(v) == old(self)@.served(v),
            final(ev).data == old(ev).data,
            final(ev).combinations == old(ev).combinations,
            final(self)@.count() == old(self)@.count(),
            old(self).swapped(*final(self)),
    {
        let a_pickup = match self.random_pickup() {
            Some(p) => p,
            None => {
                proof {
                    assert(!self.swap_owed()) by {
                        reveal(Sol::swap_owed);
                    }
                }
                return ;
            },
        };
        proof {
            assert(self.cached_at(a_pickup));
        }
        let b_pickup = match self.random_pickup_outside(self.first[a_pickup]) {
            Some(p) => p,
            None => {
                proof {
                    assert(!self.swap_owed()) by {
                        reveal(Sol::swap_owed);
                        assert(self.loose(a_pickup));
                    }
                }
                return ;
            },
        };
        self.exchange(a_pickup, b_pickup, ev);
        proof {
            if old(self).swappable(a_pickup, b_pickup) {
                assert(old(self).swapped_to(self@)) by {
                    reveal(Sol::swapped_to);
                    let s = choose|s: Swap| old(self).exchanged(a_pickup, b_pickup, &s, self@);
                    assert(old(self).loose(a_pickup) && old(self).loose(b_pickup));
                    assert(old(self).exchanged(a_pickup, b_pickup, &s, self@));
                }
            } else {
                assert(!old(self).swap_owed()) by {
                    reveal(Sol::swap_owed);
                    assert(old(self).loose(a_pickup) && old(self).loose(b_pickup));
                }
            }
        }
    }

    /// One change of the solution that keeps every served pair served: a
    /// random relocation if `relocation` is set, else a random swap.
    pub fn perturb_with(&mut self, ev: &mut Evaluator, relocation: bool)
        requires
            old(self).wf(),
            old(ev).data == old(self).data,
        ensures
            final(self).wf(),
            final(self).data == old(self).data,
            final(self).heap == old(self).heap,
            forall|v: usize| final(self)@.served(v) == old(self)@.served(v),
            final(ev).data == old(ev).data,
            final(ev).combinations == old(ev).combinations,
            final(self)@.count() == old(self)@.count(),
            relocation ==> old(self).moved(*final(self)),
            !relocation ==> old(self).swapped(*final(self)),
    {
        if relocation {
            self.random_move(ev);
        } else {
            self.random_swap(ev);
        }
    }

    /// One random change of the solution that keeps every served pair
    /// served: a relocation or a swap, with equal chances.
    pub fn perturb(&mut self, ev: &mut Evaluator)
        requires
            old(self).wf(),
            old(ev).data == old(self).data,
        ensures
            final(self).wf(),
            final(self).data == old(self).data,
            final(self).heap == old(self).heap,
            forall|v: usize| final(self)@.served(v) == old(self)@.served(v),
            final(ev).data == old(ev).data,
            final(ev).combinations == old(ev).combinations,
            final(self)@.count() == old(self)@.count(),
            old(self).moved(*final(self)) || old(self).swapped(*final(self)),
    {
        let relocation = coin();
        self.perturb_with(ev, relocation);
    }
    /// Whether every pickup of `data` with its delivery makes a feasible
    /// route of its own, as [`Sol::initialize`] needs it.
    pub fn lone_pairs_feasible(data: &Data) -> (r: bool)
        requires
            data.wf(),
        ensures
            r == forall|v: usize|
                data.customer(v as int) && !data.delivers(v as int) ==> feasible(
                    data,
                    #[trigger] pair_route(data, v),
                ),
    {
        let mut i: usize = 1;
        while i < data.points
            invariant
                data.wf(),
                1 <= i <= data.points,
                forall|v: usize|
                    data.customer(v as int) && !data.delivers(v as int) && v < i ==> feasible(
                        data,
                        #[trigger] pair_route(data, v),
                    ),
            decreases data.points - i,
        {
            let p = data.pts[i];
            if !p.is_delivery {
                let ghost two = pair_route(data, i);
                proof {
                    assert(data.customer(i as int));
                    assert(data.pair_ok(i as int));
                    assert(eval_at(data, two, -1) == EvalView::origin());
                    assert(eval_at(data, two, 0) == EvalView::origin().step(data, i as int));
                    assert(eval_at(data, two, 1) == eval_at(data, two, 0).step(data, p.pair as int));
                    assert(eval_at(data, two, 2) == eval_at(data, two, 1).step(data, 0));
                    EvalView::origin().lemma_step_within(data, i as int, 0);
                    eval_at(data, two, 0).lemma_step_within(data, p.pair as int, 1);
                    eval_at(data, two, 1).lemma_step_within(data, 0, 2);
                    lemma_within_grows(eval_at(data, two, 0), 1, PTS as int);
                    lemma_within_grows(eval_at(data, two, 1), 2, PTS as int);
                    lemma_within_grows(EvalView::origin(), 0, PTS as int);
                }
                let mut ev = Eval::new();
                ev.next(i, data);
                let at_pickup = ev.is_feasible(data);
                ev.next(p.pair, data);
                let at_delivery = ev.is_feasible(data);
                ev.next(0, data);
                let late = ev.arrives_too_late(data);
                if !at_pickup || !at_delivery || late {
                    proof {
                        if feasible(data, two) {
                            assert(eval_at(data, two, 0).feasible(data));
                            assert(eval_at(data, two, 1).feasible(data));
                        }
                    }
                    return false;
                }
                proof {
                    assert forall|k: int| 0 <= k < two.len() implies (#[trigger] eval_at(
                        data,
                        two,
                        k,
                    )).feasible(data) by {}
                }
            }
            i += 1;
        }
        true
    }
}

} // verus!
