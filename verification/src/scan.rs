use crate::data::Data;
use crate::eval::EvalView;
use crate::layout::stop_at;
use crate::mov::Between;
use crate::route::{
    eval_at, feasible, lemma_eval_prefix, lemma_eval_within, lemma_feasible_meets_lfd,
    lemma_lfd_suffix, lfd_at, proper, stop,
};
use vstd::prelude::*;

verus! {

/// State of a vehicle that drove the route `t` up to the gap `i` and then
/// served the pickup `p` there.
pub open spec fn ins_at(data: &Data, t: Seq<usize>, p: usize, i: int) -> EvalView {
    eval_at(data, t, i - 1).step(data, p as int)
}

/// State of a vehicle that served `p` in the gap `i` and went on along the
/// route up to the gap `j`, the delivery not yet made.
pub open spec fn walk(data: &Data, t: Seq<usize>, p: usize, i: int, j: int) -> EvalView
    decreases j - i,
{
    if j <= i {
        ins_at(data, t, p, i)
    } else {
        walk(data, t, p, i, j - 1).step(data, stop(t, j - 1))
    }
}

/// The scan gets as far as the gap `i`: the pickup is in time in every gap
/// before it.
pub open spec fn reached(data: &Data, t: Seq<usize>, p: usize, i: int) -> bool {
    forall|k: int| 0 <= k < i ==> (#[trigger] ins_at(data, t, p, k)).on_time(data)
}

/// With the pickup in the gap `i`, the scan gets as far as the gap `j` for
/// the delivery: up to there the vehicle is feasible at every stop, and
/// before `j` it is never later than the delivery's due time.
pub open spec fn examined(data: &Data, t: Seq<usize>, p: usize, i: int, j: int) -> bool {
    &&& forall|k: int|
        i <= k < j ==> (#[trigger] walk(data, t, p, i, k)).feasible(data) && walk(data, t, p, i, k).time
            <= data.due_of(data.pair(p as int))
    &&& walk(data, t, p, i, j).feasible(data)
}

/// The scan accepts the pickup in the gap `i` and the delivery in the gap
/// `j`: it gets there, the delivery can be made in time, and the node after
/// it is reached by `lfd`, its latest feasible departure.
pub open spec fn accepted(
    data: &Data,
    lfd: Seq<u64>,
    t: Seq<usize>,
    p: usize,
    i: int,
    j: int,
) -> bool {
    &&& 0 <= i <= j <= t.len()
    &&& reached(data, t, p, i)
    &&& ins_at(data, t, p, i).on_time(data)
    &&& examined(data, t, p, i, j)
    &&& walk(data, t, p, i, j).admits(
        data,
        data.pair(p as int),
        stop(t, j),
        lfd[stop(t, j)] as int,
    )
}

/// Number of gaps before `j` that the scan accepts for the delivery when the
/// pickup is in the gap `i`.
pub open spec fn found_in_gap(
    data: &Data,
    lfd: Seq<u64>,
    t: Seq<usize>,
    p: usize,
    i: int,
    j: int,
) -> nat
    decreases j - i,
{
    if j <= i {
        0
    } else {
        found_in_gap(data, lfd, t, p, i, j - 1) + if accepted(data, lfd, t, p, i, j - 1) {
            1nat
        } else {
            0nat
        }
    }
}

/// Number of placements that the scan accepts with the pickup in a gap
/// before `i`.
pub open spec fn found(data: &Data, lfd: Seq<u64>, t: Seq<usize>, p: usize, i: int) -> nat
    decreases i,
{
    if i <= 0 {
        0
    } else {
        found(data, lfd, t, p, i - 1) + found_in_gap(data, lfd, t, p, i - 1, t.len() as int + 1)
    }
}

/// Number of placements that the scan accepts in the whole route.
pub open spec fn found_all(data: &Data, lfd: Seq<u64>, t: Seq<usize>, p: usize) -> nat {
    found(data, lfd, t, p, t.len() as int + 1)
}

/// The gap `i` of the route `t`, as the pair of its neighbours.
pub open spec fn pickup_gap(t: Seq<usize>, i: int) -> Between {
    Between(stop_at(t, i - 1), stop_at(t, i))
}

/// The gap `j` of the route `t` as the delivery sees it once the pickup `p`
/// stands in the gap `i`.
pub open spec fn delivery_gap(t: Seq<usize>, p: usize, i: int, j: int) -> Between {
    Between(
        if j == i {
            p
        } else {
            stop_at(t, j - 1)
        },
        stop_at(t, j),
    )
}

/// `placement` is one that the scan accepts.
pub open spec fn chosen(
    data: &Data,
    lfd: Seq<u64>,
    t: Seq<usize>,
    p: usize,
    placement: (Between, Between),
) -> bool {
    exists|i: int, j: int|
        #![trigger accepted(data, lfd, t, p, i, j)]
        accepted(data, lfd, t, p, i, j) && placement == (pickup_gap(t, i), delivery_gap(t, p, i, j))
}

/// No more gaps are counted than there are.
pub proof fn lemma_found_in_gap_bound(
    data: &Data,
    lfd: Seq<u64>,
    t: Seq<usize>,
    p: usize,
    i: int,
    j: int,
)
    requires
        i <= j,
    ensures
        found_in_gap(data, lfd, t, p, i, j) <= j - i,
    decreases j - i,
{
    if i < j {
        lemma_found_in_gap_bound(data, lfd, t, p, i, j - 1);
    }
}

/// Gaps that the scan does not accept do not count.
pub proof fn lemma_found_in_gap_stops(
    data: &Data,
    lfd: Seq<u64>,
    t: Seq<usize>,
    p: usize,
    i: int,
    j: int,
    k: int,
)
    requires
        i <= j <= k,
        forall|m: int| j <= m < k ==> !#[trigger] accepted(data, lfd, t, p, i, m),
    ensures
        found_in_gap(data, lfd, t, p, i, k) == found_in_gap(data, lfd, t, p, i, j),
    decreases k - j,
{
    if j < k {
        lemma_found_in_gap_stops(data, lfd, t, p, i, j, k - 1);
    }
}

/// A gap for the pickup that the scan does not use counts nothing.
pub proof fn lemma_found_in_gap_none(
    data: &Data,
    lfd: Seq<u64>,
    t: Seq<usize>,
    p: usize,
    i: int,
    j: int,
)
    requires
        forall|m: int| !#[trigger] accepted(data, lfd, t, p, i, m),
    ensures
        found_in_gap(data, lfd, t, p, i, j) == 0,
    decreases j - i,
{
    if i < j {
        lemma_found_in_gap_none(data, lfd, t, p, i, j - 1);
    }
}

/// Once the pickup is late in a gap, the scan accepts nothing from that gap
/// on.
pub proof fn lemma_found_stops(
    data: &Data,
    lfd: Seq<u64>,
    t: Seq<usize>,
    p: usize,
    i: int,
    k: int,
)
    requires
        0 <= i <= k,
        !ins_at(data, t, p, i).on_time(data),
    ensures
        found(data, lfd, t, p, k) == found(data, lfd, t, p, i),
    decreases k - i,
{
    if i < k {
        lemma_found_stops(data, lfd, t, p, i, k - 1);
        let g = k - 1;
        assert forall|m: int| !#[trigger] accepted(data, lfd, t, p, g, m) by {
            if g > i {
                assert(!reached(data, t, p, g));
            }
        }
        lemma_found_in_gap_none(data, lfd, t, p, g, t.len() as int + 1);
    }
}

/// No more placements are counted than there are pairs of gaps.
pub proof fn lemma_found_bound(data: &Data, lfd: Seq<u64>, t: Seq<usize>, p: usize, i: int, c: int)
    requires
        0 <= i <= t.len() + 1,
        t.len() + 1 <= c,
    ensures
        found(data, lfd, t, p, i) <= i * c,
    decreases i,
{
    if i > 0 {
        lemma_found_bound(data, lfd, t, p, i - 1, c);
        lemma_found_in_gap_bound(data, lfd, t, p, i - 1, t.len() as int + 1);
        assert((i - 1) * c + c == i * c) by (nonlinear_arith);
    }
}

/// Something is counted exactly when the scan accepts some placement.
pub proof fn lemma_found_positive(data: &Data, lfd: Seq<u64>, t: Seq<usize>, p: usize)
    ensures
        found_all(data, lfd, t, p) > 0 <==> exists|i: int, j: int| #[trigger]
            accepted(data, lfd, t, p, i, j),
{
    let n = t.len() as int;
    if found_all(data, lfd, t, p) > 0 {
        lemma_found_witness(data, lfd, t, p, n + 1);
    }
    if exists|i: int, j: int| #[trigger] accepted(data, lfd, t, p, i, j) {
        let (i, j) = choose|i: int, j: int| #[trigger] accepted(data, lfd, t, p, i, j);
        lemma_found_counts(data, lfd, t, p, i, j, n + 1);
    }
}

/// A positive count has a witness.
pub proof fn lemma_found_witness(data: &Data, lfd: Seq<u64>, t: Seq<usize>, p: usize, i: int)
    requires
        found(data, lfd, t, p, i) > 0,
    ensures
        exists|a: int, b: int| #[trigger] accepted(data, lfd, t, p, a, b),
    decreases i,
{
    if i > 0 {
        if found(data, lfd, t, p, i - 1) > 0 {
            lemma_found_witness(data, lfd, t, p, i - 1);
        } else {
            lemma_found_in_gap_witness(data, lfd, t, p, i - 1, t.len() as int + 1);
        }
    }
}

/// A positive count in one gap has a witness.
pub proof fn lemma_found_in_gap_witness(
    data: &Data,
    lfd: Seq<u64>,
    t: Seq<usize>,
    p: usize,
    i: int,
    j: int,
)
    requires
        found_in_gap(data, lfd, t, p, i, j) > 0,
    ensures
        exists|a: int, b: int| #[trigger] accepted(data, lfd, t, p, a, b),
    decreases j - i,
{
    if j > i {
        if accepted(data, lfd, t, p, i, j - 1) {
        } else {
            lemma_found_in_gap_witness(data, lfd, t, p, i, j - 1);
        }
    }
}

/// An accepted placement is counted.
pub proof fn lemma_found_counts(
    data: &Data,
    lfd: Seq<u64>,
    t: Seq<usize>,
    p: usize,
    i: int,
    j: int,
    k: int,
)
    requires
        accepted(data, lfd, t, p, i, j),
        i < k,
    ensures
        found(data, lfd, t, p, k) > 0,
    decreases k,
{
    if k - 1 == i {
        lemma_found_in_gap_counts(data, lfd, t, p, i, j, t.len() as int + 1);
    } else {
        lemma_found_counts(data, lfd, t, p, i, j, k - 1);
    }
}

/// An accepted gap for the delivery is counted.
pub proof fn lemma_found_in_gap_counts(
    data: &Data,
    lfd: Seq<u64>,
    t: Seq<usize>,
    p: usize,
    i: int,
    j: int,
    k: int,
)
    requires
        accepted(data, lfd, t, p, i, j),
        j < k,
    ensures
        found_in_gap(data, lfd, t, p, i, k) > 0,
    decreases k,
{
    if k - 1 > j {
        lemma_found_in_gap_counts(data, lfd, t, p, i, j, k - 1);
    }
}

/// The walking vehicle stands where the scan has brought it and is what that
/// many legs can produce.
pub proof fn lemma_walk_within(data: &Data, t: Seq<usize>, p: usize, i: int, j: int)
    requires
        data.sized(),
        proper(data, t),
        data.customer(p as int),
        0 <= i <= j <= t.len() + 1,
        i <= t.len(),
    ensures
        walk(data, t, p, i, j).within(j + 1),
        walk(data, t, p, i, j).node == if j == i {
            p as int
        } else {
            stop(t, j - 1)
        },
        0 <= walk(data, t, p, i, j).node < data.points,
    decreases j - i,
{
    if j <= i {
        lemma_eval_within(data, t, i - 1);
        eval_at(data, t, i - 1).lemma_step_within(data, p as int, i);
    } else {
        lemma_walk_within(data, t, p, i, j - 1);
        if j - 1 < t.len() {
            assert(data.customer(t[j - 1] as int));
        }
        walk(data, t, p, i, j - 1).lemma_step_within(data, stop(t, j - 1), j);
    }
}

/// The route `t` with the pickup `p` in the gap `i` and its delivery `d` in
/// the gap `j`.
pub open spec fn inserted(t: Seq<usize>, p: usize, d: usize, i: int, j: int) -> Seq<usize> {
    t.insert(i, p).insert(j + 1, d)
}

/// Where the nodes of the route stand once the pair is in.
pub proof fn lemma_inserted_shape(t: Seq<usize>, p: usize, d: usize, i: int, j: int)
    requires
        0 <= i <= j <= t.len(),
    ensures
        inserted(t, p, d, i, j).len() == t.len() + 2,
        forall|k: int|
            0 <= k < t.len() + 2 ==> #[trigger] inserted(t, p, d, i, j)[k] == if k < i {
                t[k]
            } else if k == i {
                p
            } else if k <= j {
                t[k - 1]
            } else if k == j + 1 {
                d
            } else {
                t[k - 2]
            },
{
    let a = t.insert(i, p);
    t.insert_ensures(i, p);
    a.insert_ensures(j + 1, d);
    assert forall|k: int| 0 <= k < t.len() + 2 implies #[trigger] inserted(t, p, d, i, j)[k]
        == if k < i {
        t[k]
    } else if k == i {
        p
    } else if k <= j {
        t[k - 1]
    } else if k == j + 1 {
        d
    } else {
        t[k - 2]
    } by {
        if k <= j {
            assert(inserted(t, p, d, i, j)[k] == a[k]);
            if k > i {
                assert(a[k] == t[k - 1]);
            }
        } else if k > j + 1 {
            assert(inserted(t, p, d, i, j)[k] == a[k - 1]);
            assert(a[k - 1] == t[k - 2]);
        }
    }
}

/// Between the pickup and the delivery the vehicle of the new route is the
/// walking vehicle of the scan.
pub proof fn lemma_walk_is_eval(data: &Data, t: Seq<usize>, p: usize, d: usize, i: int, j: int, k: int)
    requires
        0 <= i <= k <= j <= t.len(),
    ensures
        eval_at(data, inserted(t, p, d, i, j), k) == walk(data, t, p, i, k),
    decreases k - i,
{
    let u = inserted(t, p, d, i, j);
    lemma_inserted_shape(t, p, d, i, j);
    if k == i {
        assert forall|m: int| 0 <= m <= i - 1 implies stop(u, m) == stop(t, m) by {
            assert(u[m] == t[m]);
        }
        lemma_eval_prefix(data, u, t, i - 1);
        assert(stop(u, i) == p);
    } else {
        lemma_walk_is_eval(data, t, p, d, i, j, k - 1);
        assert(stop(u, k) == stop(t, k - 1)) by {
            assert(u[k] == t[k - 1]);
        }
    }
}

/// The walking vehicle carries what the vehicle of the route carries, and
/// the pickup's demand.
pub proof fn lemma_walk_load(data: &Data, t: Seq<usize>, p: usize, i: int, k: int)
    requires
        0 <= i <= k,
    ensures
        walk(data, t, p, i, k).load == eval_at(data, t, k - 1).load + data.dem_of(p as int),
    decreases k - i,
{
    if k > i {
        lemma_walk_load(data, t, p, i, k - 1);
    }
}

/// Behind the delivery the vehicle of the new route carries what the vehicle
/// of the old route carried and is never later than the latest feasible
/// departure of the old route.
pub proof fn lemma_tail(data: &Data, t: Seq<usize>, p: usize, d: usize, i: int, j: int, m: int)
    requires
        data.wf(),
        proper(data, t),
        feasible(data, t),
        data.customer(p as int),
        !data.delivers(p as int),
        d as int == data.pair(p as int),
        0 <= i <= j <= m <= t.len(),
        walk(data, t, p, i, j).service_start(data, d as int) + data.time_of(d as int, stop(t, j))
            <= lfd_at(data, t, j),
    ensures
        eval_at(data, inserted(t, p, d, i, j), m + 2).node == stop(t, m),
        eval_at(data, inserted(t, p, d, i, j), m + 2).load == eval_at(data, t, m).load,
        eval_at(data, inserted(t, p, d, i, j), m + 2).time <= lfd_at(data, t, m),
    decreases m - j,
{
    let u = inserted(t, p, d, i, j);
    lemma_inserted_shape(t, p, d, i, j);
    lemma_eval_within(data, t, m);
    lemma_eval_within(data, t, m - 1);
    lemma_feasible_meets_lfd(data, t, m);
    assert(data.pair_ok(p as int));
    assert(stop(u, m + 2) == stop(t, m)) by {
        if m < t.len() {
            assert(u[m + 2] == t[m]);
        }
    }
    assert(eval_at(data, t, m) == eval_at(data, t, m - 1).step(data, stop(t, m)));
    assert(eval_at(data, u, m + 2) == eval_at(data, u, m + 1).step(data, stop(t, m)));
    if m == j {
        lemma_walk_is_eval(data, t, p, d, i, j, j);
        lemma_walk_load(data, t, p, i, j);
        assert(stop(u, j + 1) == d) by {
            assert(u[j + 1] == d);
        }
        assert(eval_at(data, u, j + 1) == walk(data, t, p, i, j).step(data, d as int));
    } else {
        lemma_tail(data, t, p, d, i, j, m - 1);
        lemma_feasible_meets_lfd(data, t, m - 1);
    }
}

/// A placement that the scan accepts gives a feasible route, provided that
/// the route was feasible and that the latest feasible departure the scan
/// used for the node behind the delivery is not later than the true one.
pub proof fn lemma_accepted_feasible(
    data: &Data,
    lfd: Seq<u64>,
    t: Seq<usize>,
    p: usize,
    i: int,
    j: int,
)
    requires
        data.wf(),
        proper(data, t),
        feasible(data, t),
        data.customer(p as int),
        !data.delivers(p as int),
        accepted(data, lfd, t, p, i, j),
        lfd[stop(t, j)] <= lfd_at(data, t, j),
    ensures
        feasible(data, inserted(t, p, data.pair(p as int) as usize, i, j)),
{
    let d = data.pair(p as int) as usize;
    let u = inserted(t, p, d, i, j);
    let n = t.len() as int;
    lemma_inserted_shape(t, p, d, i, j);
    assert(data.pair_ok(p as int));
    assert forall|k: int| 0 <= k < u.len() implies (#[trigger] eval_at(data, u, k)).feasible(
        data,
    ) by {
        if k < i {
            assert forall|m: int| 0 <= m <= k implies stop(u, m) == stop(t, m) by {
                assert(u[m] == t[m]);
            }
            lemma_eval_prefix(data, u, t, k);
            assert(eval_at(data, t, k).feasible(data));
        } else if k <= j {
            lemma_walk_is_eval(data, t, p, d, i, j, k);
            assert(walk(data, t, p, i, k).feasible(data));
        } else if k == j + 1 {
            lemma_walk_is_eval(data, t, p, d, i, j, j);
            lemma_walk_load(data, t, p, i, j);
            assert(stop(u, j + 1) == d) by {
                assert(u[j + 1] == d);
            }
            assert(eval_at(data, u, j + 1) == walk(data, t, p, i, j).step(data, d as int));
            assert(walk(data, t, p, i, j).feasible(data));
            if j >= 1 {
                assert(eval_at(data, t, j - 1).feasible(data));
            } else {
                assert(eval_at(data, t, -1) == EvalView::origin());
            }
        } else {
            lemma_tail(data, t, p, d, i, j, k - 2);
            lemma_feasible_meets_lfd(data, t, k - 2);
            assert(eval_at(data, t, k - 2).feasible(data));
        }
    }
    lemma_tail(data, t, p, d, i, j, n);
    lemma_feasible_meets_lfd(data, t, n);
}

/// The later the gap, the later the pickup is served there.
pub proof fn lemma_ins_grows(data: &Data, t: Seq<usize>, p: usize, k: int, i: int)
    requires
        data.sized(),
        data.metric(),
        proper(data, t),
        data.customer(p as int),
        0 <= k <= i <= t.len(),
    ensures
        ins_at(data, t, p, k).time <= ins_at(data, t, p, i).time,
    decreases i - k,
{
    if k < i {
        lemma_ins_grows(data, t, p, k, i - 1);
        lemma_eval_within(data, t, i - 2);
        lemma_eval_within(data, t, i - 1);
        let x = stop(t, i - 2);
        let y = stop(t, i - 1);
        assert(data.customer(t[i - 1] as int));
        assert(eval_at(data, t, i - 1) == eval_at(data, t, i - 2).step(data, y));
        eval_at(data, t, i - 2).lemma_step_within(data, y, i - 1);
        assert(data.time_of(x, p as int) <= data.time_of(x, y) + data.time_of(y, p as int));
    }
}

/// The walking vehicle never travels back in time.
pub proof fn lemma_walk_grows(data: &Data, t: Seq<usize>, p: usize, i: int, k: int, j: int)
    requires
        data.sized(),
        proper(data, t),
        data.customer(p as int),
        0 <= i <= k <= j <= t.len() + 1,
        i <= t.len(),
    ensures
        walk(data, t, p, i, k).time <= walk(data, t, p, i, j).time,
    decreases j - k,
{
    if k < j {
        lemma_walk_grows(data, t, p, i, k, j - 1);
        lemma_walk_within(data, t, p, i, j - 1);
        if j - 1 < t.len() {
            assert(data.customer(t[j - 1] as int));
        }
        walk(data, t, p, i, j - 1).lemma_step_within(data, stop(t, j - 1), j);
    }
}

/// The scan accepts every placement that gives a feasible route, provided
/// that the latest feasible departure it uses for the node behind the
/// delivery is not earlier than the true one.
pub proof fn lemma_feasible_accepted(
    data: &Data,
    lfd: Seq<u64>,
    t: Seq<usize>,
    p: usize,
    i: int,
    j: int,
)
    requires
        data.wf(),
        data.customer(p as int),
        !data.delivers(p as int),
        proper(data, t.push(p).push(data.pair(p as int) as usize)),
        0 <= i <= j <= t.len(),
        feasible(data, inserted(t, p, data.pair(p as int) as usize, i, j)),
        lfd[stop(t, j)] >= lfd_at(data, t, j),
    ensures
        accepted(data, lfd, t, p, i, j),
{
    let d = data.pair(p as int) as usize;
    let u = inserted(t, p, d, i, j);
    let n = t.len() as int;
    let tpd = t.push(p).push(d);
    lemma_inserted_shape(t, p, d, i, j);
    assert(data.pair_ok(p as int));
    assert(tpd[n] == p);
    assert(tpd[n + 1] == d);
    assert(proper(data, t)) by {
        assert forall|a: int| 0 <= a < t.len() implies data.customer(#[trigger] t[a] as int) by {
            assert(tpd[a] == t[a]);
        }
        assert forall|a: int, b: int| 0 <= a < t.len() && 0 <= b < t.len() && a != b implies t[a]
            != t[b] by {
            assert(tpd[a] == t[a]);
            assert(tpd[b] == t[b]);
        }
    }
    assert(proper(data, u)) by {
        assert forall|a: int| 0 <= a < u.len() implies data.customer(#[trigger] u[a] as int) by {
            if a < i {
                assert(tpd[a] == t[a]);
            } else if a == i {
            } else if a <= j {
                assert(tpd[a - 1] == t[a - 1]);
            } else if a == j + 1 {
                assert(data.customer(tpd[n + 1] as int));
            } else {
                assert(tpd[a - 2] == t[a - 2]);
            }
        }
        assert forall|a: int, b: int| 0 <= a < u.len() && 0 <= b < u.len() && a != b implies u[a]
            != u[b] by {
            let fa = if a < i {
                a
            } else if a == i {
                n
            } else if a <= j {
                a - 1
            } else if a == j + 1 {
                n + 1
            } else {
                a - 2
            };
            let fb = if b < i {
                b
            } else if b == i {
                n
            } else if b <= j {
                b - 1
            } else if b == j + 1 {
                n + 1
            } else {
                b - 2
            };
            assert(u[a] == tpd[fa]);
            assert(u[b] == tpd[fb]);
            assert(fa != fb);
        }
    }
    // the pickup is in time in the gap and in every gap before it
    lemma_walk_is_eval(data, t, p, d, i, j, i);
    assert(eval_at(data, u, i).feasible(data));
    lemma_walk_within(data, t, p, i, i);
    assert forall|k: int| 0 <= k < i implies (#[trigger] ins_at(data, t, p, k)).on_time(data) by {
        lemma_ins_grows(data, t, p, k, i);
        lemma_eval_within(data, t, k - 1);
        eval_at(data, t, k - 1).lemma_step_within(data, p as int, k);
    }
    // the vehicle is feasible up to the delivery and early enough for it
    assert(stop(u, j + 1) == d) by {
        assert(u[j + 1] == d);
    }
    lemma_walk_is_eval(data, t, p, d, i, j, j);
    assert(eval_at(data, u, j + 1) == walk(data, t, p, i, j).step(data, d as int));
    assert(eval_at(data, u, j + 1).feasible(data));
    lemma_walk_within(data, t, p, i, j);
    walk(data, t, p, i, j).lemma_step_within(data, d as int, j + 1);
    assert forall|k: int| i <= k < j implies (#[trigger] walk(data, t, p, i, k)).feasible(data)
        && walk(data, t, p, i, k).time <= data.due_of(data.pair(p as int)) by {
        lemma_walk_is_eval(data, t, p, d, i, j, k);
        assert(eval_at(data, u, k).feasible(data));
        lemma_walk_grows(data, t, p, i, k, j);
    }
    assert(eval_at(data, u, j).feasible(data));
    // the node behind the delivery is reached by its latest feasible departure
    lemma_feasible_meets_lfd(data, u, j + 2);
    assert forall|k: int| j <= k < t.len() implies t[k] == u[k + 2] by {}
    lemma_lfd_suffix(data, t, u, j, 2);
    assert(stop(u, j + 2) == stop(t, j)) by {
        if j < n {
            assert(u[j + 2] == t[j]);
        }
    }
    assert(eval_at(data, u, j + 2) == eval_at(data, u, j + 1).step(data, stop(t, j)));
}

} // verus!
