use crate::data::PTS;
use crate::evaluator::{home, lemma_home};
use crate::layout::Layout;
use crate::mov::Move;
use crate::route::{eval_at, feasible, lemma_feasible_meets_lfd, lemma_index_of, lfd_at, stop};
use crate::scan::{accepted, found_all, lemma_found_positive};
use crate::sol::{fits_in, inner, mated, placed_in, Sol};
use crate::UNSERVED;
use crate::evaluator::comb::{is_subset, total_from, visited};
use vstd::prelude::*;

verus! {

/// In a well-formed solution the links of a served node lead back to it:
/// its successor, unless that is the depot, has it as predecessor, and its
/// predecessor, unless that is the depot, has it as successor. The depot
/// itself always points at the depot.
pub proof fn lemma_links_lead_back(sol: &Sol, v: usize)
    requires
        sol.wf(),
        sol@.served(v),
    ensures
        sol.next@[v as int] != UNSERVED,
        sol.prev@[v as int] != UNSERVED,
        sol.next@[v as int] != 0 ==> sol.prev@[sol.next@[v as int] as int] == v,
        sol.prev@[v as int] != 0 ==> sol.next@[sol.prev@[v as int] as int] == v,
        sol.next@[0] == 0,
        sol.prev@[0] == 0,
{
    let l = sol@;
    l.lemma_neighbours(sol.data.points as int, v);
    if l.succ(v) != 0 {
        assert(l.served(l.succ(v)));
    }
    if l.pred(v) != 0 {
        assert(l.served(l.pred(v)));
    }
}

/// In a well-formed solution a walk from a served pickup reaches its
/// delivery before it reaches the depot: of the nodes that an iterator
/// started at the pickup yields, the delivery is one, and only the last one
/// is the depot.
pub proof fn lemma_delivery_follows(sol: &Sol, p: usize)
    requires
        sol.wf(),
        sol@.served(p),
        !sol.data.delivers(p as int),
    ensures
        sol@.served(sol.data.pair(p as int) as usize),
        sol@.owner[sol.data.pair(p as int) as usize] == sol@.owner[p],
        sol@.slot[p] < sol@.slot[sol.data.pair(p as int) as usize],
        sol.rest_from(p)[sol@.slot[sol.data.pair(p as int) as usize] - sol@.slot[p]] == sol.data.pair(
            p as int,
        ),
        sol@.slot[sol.data.pair(p as int) as usize] - sol@.slot[p] < sol.rest_from(p).len() - 1,
        sol.rest_from(p).last() == 0,
        forall|i: int| 0 <= i < sol.rest_from(p).len() - 1 ==> sol.rest_from(p)[i] != 0,
{
    let l = sol@;
    let d = sol.data.pair(p as int) as usize;
    assert(mated(l, sol.data, p));
    assert(l.has(l.owner[p]));
    sol.lemma_route_shape(l.owner[p]);
    let s = l.tour_of(p);
    assert(s[l.slot[d]] == d);
    assert forall|i: int| 0 <= i < sol.rest_from(p).len() - 1 implies sol.rest_from(p)[i] != 0 by {
        assert(sol.rest_from(p)[i] == l.tours[l.owner[p]][l.slot[p] + i]);
    }
}

/// In a well-formed solution the cached state of a served node is that of
/// a vehicle in time and loaded within the capacity.
pub proof fn lemma_cached_feasible(sol: &Sol, v: usize)
    requires
        sol.wf(),
        sol@.served(v),
    ensures
        sol.evals@[v as int].node == v,
        sol.evals@[v as int].time <= sol.data.due_of(v as int),
        0 <= sol.evals@[v as int].capacity <= sol.data.max_cap,
{
    let l = sol@;
    assert(sol.cached_at(v));
    assert(l.has(l.owner[v]));
    sol.lemma_route_shape(l.owner[v]);
    assert(eval_at(sol.data, l.tour_of(v), l.slot[v]).feasible(sol.data));
    crate::route::lemma_eval_within(sol.data, l.tour_of(v), l.slot[v]);
}

/// In a well-formed solution the cached time of a served node is not later
/// than its cached latest feasible departure.
pub proof fn lemma_cached_in_time(sol: &Sol, v: usize)
    requires
        sol.wf(),
        sol@.served(v),
    ensures
        sol.evals@[v as int].time <= sol.latest_feasible_departure@[v as int],
        sol.latest_feasible_departure@[v as int] <= sol.data.due_of(v as int),
{
    let l = sol@;
    assert(sol.cached_at(v));
    assert(l.has(l.owner[v]));
    sol.lemma_route_shape(l.owner[v]);
    lemma_feasible_meets_lfd(sol.data, l.tour_of(v), l.slot[v]);
}

/// In a well-formed solution that holds every pickup, a pickup is in the
/// pool exactly when it is not served, and the pool holds pickups only, each
/// once.
pub proof fn lemma_pool_is_the_rest(sol: &Sol, v: usize)
    requires
        sol.wf(),
        sol.complete(),
        sol.data.customer(v as int),
    ensures
        !sol.data.delivers(v as int) ==> (sol.heap.pool().contains(v) <==> !sol@.served(v)),
        sol.data.delivers(v as int) ==> !sol.heap.pool().contains(v),
        sol.heap.pool().no_duplicates(),
{
    let pool = sol.heap.pool();
    if pool.contains(v) {
        let i = choose|i: int| 0 <= i < pool.len() && pool[i] == v;
        assert(!sol@.served(pool[i]));
    }
}

/// In a well-formed solution a customer is linked in both directions or in
/// none, and it is linked exactly when it is served; each link of a linked
/// customer that does not lead to the depot is answered by the link back.
pub proof fn lemma_links_of_customers(sol: &Sol, v: usize)
    requires
        sol.wf(),
        0 < v < PTS,
    ensures
        (sol.next@[v as int] == UNSERVED) == (sol.prev@[v as int] == UNSERVED),
        (sol.next@[v as int] == UNSERVED) == !sol@.served(v),
        sol.next@[v as int] != UNSERVED ==> {
            &&& sol.prev@[v as int] == 0 || (sol.prev@[v as int] < PTS
                && sol.next@[sol.prev@[v as int] as int] == v)
            &&& sol.next@[v as int] == 0 || (sol.next@[v as int] < PTS
                && sol.prev@[sol.next@[v as int] as int] == v)
        },
        sol.next@[0] == 0,
        sol.prev@[0] == 0,
{
    let l = sol@;
    if l.served(v) {
        l.lemma_neighbours(sol.data.points as int, v);
        let p = l.pred(v);
        let n = l.succ(v);
        if p != 0 {
            assert(l.served(p));
        }
        if n != 0 {
            assert(l.served(n));
        }
    }
}

/// In a well-formed solution `routes` holds exactly the first nodes of the
/// routes: the served nodes whose predecessor is the depot.
pub proof fn lemma_routes_are_first_nodes(sol: &Sol, v: usize)
    requires
        sol.wf(),
        0 < v < PTS,
    ensures
        sol.routes@.contains(v) <==> sol@.served(v) && sol.prev@[v as int] == 0,
        sol.routes@.contains(v) ==> sol@.tours[v].len() > 0 && sol@.tours[v][0] == v,
        !sol.routes@.contains(0),
{
    let l = sol@;
    if l.has(v) {
        assert(l.served(l.tours[v][0]));
        assert(l.slot[l.tours[v][0]] == 0);
    }
    if l.served(v) {
        l.lemma_neighbours(sol.data.points as int, v);
        assert(l.has(l.owner[v]));
    }
    if l.has(0) {
        assert(l.served(l.tours[0][0]));
    }
}

/// A route that has been added is walked as it was given: an iterator
/// started at its first node yields the route without its leading depot.
pub proof fn lemma_added_route_is_walked(pre: &Sol, post: &Sol, route: Seq<usize>)
    requires
        pre.settled(),
        pre.accepts(route),
        post@ == pre@.with_tour(inner(route)),
    ensures
        post.rest_from(route[1]) == route.subrange(1, route.len() as int),
        post@.has(route[1]),
        post@.tours[route[1]] == inner(route),
{
    let l = pre@;
    let s = inner(route);
    assert forall|i: int| 0 <= i < s.len() implies 0 < #[trigger] s[i] < pre.data.points && !l.served(
        s[i],
    ) by {
        assert(pre.data.customer(s[i] as int));
    }
    l.lemma_with_tour(pre.data.points as int, s);
    assert(s[0] == route[1]);
    assert(post@.slot[s[0]] == 0);
    assert(post@.tour_of(s[0]) == s);
    assert(s.skip(0) =~= s);
    assert(s.push(0) =~= route.subrange(1, route.len() as int));
}

/// Taking a pair out of a route of more than two nodes and putting it back
/// into the gaps it left gives the solution as it was: the same routes, and
/// the same cached states and latest feasible departures for every node,
/// served or not.
pub proof fn lemma_round_trip(pre: &Sol, mid: &Sol, post: &Sol, mov: &Move)
    requires
        pre.wf(),
        pre@.served(mov.pickup),
        !pre.data.delivers(mov.pickup as int),
        pre@.tour_of(mov.pickup).len() > 2,
        mov.placement() == home(pre@, pre.data, mov.pickup),
        // what `remove_pair` of the pickup leaves
        mid.settled(),
        mid.data == pre.data,
        mid@ == pre@.detach(mov.pickup).detach(pre.data.pair(mov.pickup as int) as usize),
        forall|v: usize|
            #![trigger mid.evals@[v as int]]
            #![trigger mid.latest_feasible_departure@[v as int]]
            v < PTS && !(mid@.served(v) && pre@.owner[v] == pre@.owner[mov.pickup]) ==> {
                &&& mid.evals@[v as int] == pre.evals@[v as int]
                &&& mid.latest_feasible_departure@[v as int] == pre.latest_feasible_departure@[v as int]
            },
        // what `make_move` of the move leaves
        post.wf(),
        post.data == pre.data,
        post@ == placed_in(mid@, mid.data, mov),
        forall|v: usize|
            #![trigger post.evals@[v as int]]
            #![trigger post.latest_feasible_departure@[v as int]]
            v < PTS && !mid@.served(v) && !post@.served(v) ==> {
                &&& post.evals@[v as int] == mid.evals@[v as int]
                &&& post.latest_feasible_departure@[v as int] == mid.latest_feasible_departure@[v as int]
            },
    ensures
        forall|v: usize|
            v < PTS && !pre@.served(v) ==> (#[trigger] post.evals@[v as int]) == pre.evals@[v as int]
                && post.latest_feasible_departure@[v as int] == pre.latest_feasible_departure@[v as int],
        fits_in(mid@, mid.data, mov),
        forall|r: usize| post@.has(r) <==> pre@.has(r),
        forall|r: usize| pre@.has(r) ==> #[trigger] post@.tours[r] == pre@.tours[r],
        forall|v: usize|
            pre@.served(v) ==> (#[trigger] post.evals@[v as int])@ == pre.evals@[v as int]@
                && post.latest_feasible_departure@[v as int] == pre.latest_feasible_departure@[v as int],
{
    let l = pre@;
    let l1 = mid@;
    let l2 = post@;
    let data = pre.data;
    let n = data.points as int;
    let p = mov.pickup;
    let d = data.pair(p as int) as usize;
    let r0 = l.owner[p];
    let s = l.tours[r0];
    pre.lemma_sane();
    lemma_home(l, data, mov);
    assert(data.customer(p as int));
    assert(data.pair_ok(p as int));
    assert(mated(l, data, p));
    assert(l.has(r0));
    l.lemma_detach_pair(n, p, d);
    let pb = (mov.put_pickup_between.0, mov.put_pickup_between.1);
    let db = (mov.put_delivery_between.0, mov.put_delivery_between.1);
    l1.lemma_put(n, p, pb, d, db);
    pre.lemma_route_shape(r0);
    assert(l2.tour_of(p) == s);
    assert(l2.served(p));
    assert(l2.has(l2.owner[p]));
    assert(l2.tours[l2.owner[p]][0] == l2.owner[p]);
    assert(s[0] == r0);
    assert(l2.owner[p] == r0);
    let t = s.remove(l.slot[d]).remove(l.slot[p]);
    assert(t.len() > 0);
    assert(l1.has(t[0]));
    assert(l1.gap_owner(pb.0, pb.1) == t[0]) by {
        let a = l.slot[p];
        assert(l1.tours[t[0]] == t);
        if a == 0 {
            assert(pb.1 == t[0]);
            assert(l1.served(l1.tours[t[0]][0]));
            assert(l1.owner[l1.tours[t[0]][0]] == t[0]);
        } else {
            assert(pb.0 == t[a - 1]);
            assert(l1.served(l1.tours[t[0]][a - 1]));
            assert(l1.owner[l1.tours[t[0]][a - 1]] == t[0]);
        }
    }
    assert forall|r: usize| l2.has(r) <==> l.has(r) by {
        assert(l1.tours == l.pair_gone(p, d));
    }
    assert forall|r: usize| l.has(r) implies #[trigger] l2.tours[r] == l.tours[r] by {
        if r != r0 {
            assert(l1.tours == l.pair_gone(p, d));
            assert(l1.has(r));
            assert(r != t[0]);
            assert(l2.has(r));
        }
    }
    assert forall|v: usize| l.served(v) implies (#[trigger] post.evals@[v as int])@
        == pre.evals@[v as int]@ && post.latest_feasible_departure@[v as int]
        == pre.latest_feasible_departure@[v as int] by {
        assert(pre.cached_at(v));
        assert(l2.served(v));
        assert(post.cached_at(v));
        assert(l.has(l.owner[v]));
        assert(l2.has(l2.owner[v]));
        let q = l.owner[v];
        assert(l2.tours[q] == l.tours[q]);
        assert(l2.tours[q][l.slot[v]] == v);
        assert(l2.owner[l2.tours[q][l.slot[v]]] == q);
        assert(l2.slot[l2.tours[q][l.slot[v]]] == l.slot[v]);
    }
}

/// The scan of a route finds a placement exactly when it accepts one, and
/// in a well-formed solution every placement that it accepts for an unserved
/// pair gives a feasible route.
pub proof fn lemma_scan_finds_what_it_accepts(sol: &Sol, start: usize, p: usize)
    requires
        sol.wf(),
        sol@.has(start),
        sol.data.customer(p as int),
        !sol.data.delivers(p as int),
        !sol@.served(p),
    ensures
        found_all(sol.data, sol.latest_feasible_departure@, sol@.tours[start], p) > 0
            <==> exists|i: int, j: int| #[trigger]
            accepted(sol.data, sol.latest_feasible_departure@, sol@.tours[start], p, i, j),
        forall|i: int, j: int| #[trigger]
            accepted(sol.data, sol.latest_feasible_departure@, sol@.tours[start], p, i, j)
                ==> feasible(
                sol.data,
                crate::scan::inserted(sol@.tours[start], p, sol.data.pair(p as int) as usize, i, j),
            ),
{
    let l = sol@;
    let data = sol.data;
    let lfd = sol.latest_feasible_departure@;
    let t = l.tours[start];
    lemma_found_positive(data, lfd, t, p);
    sol.lemma_route_shape(start);
    assert forall|i: int, j: int| #[trigger] accepted(data, lfd, t, p, i, j) implies feasible(
        data,
        crate::scan::inserted(t, p, data.pair(p as int) as usize, i, j),
    ) by {
        assert(lfd[stop(t, j)] == lfd_at(data, t, j)) by {
            if j < t.len() {
                assert(l.served(l.tours[start][j]));
                assert(sol.cached_at(t[j]));
            }
        }
        crate::scan::lemma_accepted_feasible(data, lfd, t, p, i, j);
    }
}

/// In a well-formed solution the scan of a route finds a placement for an
/// unserved pair exactly when the pair can be put into the route so that
/// the route stays feasible.
pub proof fn lemma_scan_is_complete(sol: &Sol, start: usize, p: usize)
    requires
        sol.wf(),
        sol@.has(start),
        sol.data.customer(p as int),
        !sol.data.delivers(p as int),
        !sol@.served(p),
    ensures
        found_all(sol.data, sol.latest_feasible_departure@, sol@.tours[start], p) > 0
            <==> exists|i: int, j: int|
            0 <= i <= j <= sol@.tours[start].len() && feasible(
                sol.data,
                #[trigger] crate::scan::inserted(
                    sol@.tours[start],
                    p,
                    sol.data.pair(p as int) as usize,
                    i,
                    j,
                ),
            ),
{
    let l = sol@;
    let data = sol.data;
    let lfd = sol.latest_feasible_departure@;
    let t = l.tours[start];
    let d = data.pair(p as int) as usize;
    lemma_scan_finds_what_it_accepts(sol, start, p);
    sol.lemma_route_shape(start);
    assert(data.pair_ok(p as int));
    assert(!l.served(d)) by {
        if l.served(d) {
            assert(mated(l, data, d));
        }
    }
    if found_all(data, lfd, t, p) > 0 {
        let (i, j) = choose|i: int, j: int| #[trigger] accepted(data, lfd, t, p, i, j);
        assert(0 <= i <= j <= t.len() && feasible(data, crate::scan::inserted(t, p, d, i, j)));
    }
    if exists|i: int, j: int|
        0 <= i <= j <= t.len() && feasible(data, #[trigger] crate::scan::inserted(t, p, d, i, j)) {
        let (i, j) = choose|i: int, j: int|
            0 <= i <= j <= t.len() && feasible(
                data,
                #[trigger] crate::scan::inserted(t, p, d, i, j),
            );
        let tpd = t.push(p).push(d);
        assert forall|a: int| 0 <= a < tpd.len() implies data.customer(#[trigger] tpd[a] as int) by {
            if a < t.len() {
                assert(data.customer(t[a] as int));
            }
        }
        assert forall|a: int, b: int|
            0 <= a < tpd.len() && 0 <= b < tpd.len() && a != b implies tpd[a] != tpd[b] by {
            if a < t.len() {
                assert(l.served(l.tours[start][a]));
            }
            if b < t.len() {
                assert(l.served(l.tours[start][b]));
            }
        }
        assert(lfd[stop(t, j)] == lfd_at(data, t, j)) by {
            if j < t.len() {
                assert(l.served(l.tours[start][j]));
                assert(sol.cached_at(t[j]));
            }
        }
        crate::scan::lemma_feasible_accepted(data, lfd, t, p, i, j);
    }
}

/// With a limit above the total of every subset the search scans every
/// subset of `k` out of `n` catalog positions; as it moves from each subset
/// to the next in lexicographic order, it scans each of them once.
pub proof fn lemma_high_limit_scans_all(scores: Seq<u64>, k: int, n: int, target: int, x: Seq<usize>)
    requires
        forall|y: Seq<usize>| #[trigger] is_subset(y, k, n) ==> total_from(scores, y, 0, k) < target,
        is_subset(x, k, n),
    ensures
        visited(scores, k, n, target, x),
{
    reveal(visited);
}

} // verus!
