use crate::data::{Data, PTS};
use crate::eval::{min_int, EvalView};
use crate::layout::skip_two;
use vstd::prelude::*;
use vstd::set_lib::{lemma_int_range, lemma_len_subset, set_int_range};

verus! {

/// Node at position `i` of a route that ends at the depot: the route's own
/// node inside the sequence, the depot at any other position.
pub open spec fn stop(s: Seq<usize>, i: int) -> int {
    if 0 <= i < s.len() {
        s[i] as int
    } else {
        0
    }
}

/// State of a vehicle that left the depot and served `s[0..=i]`. Position
/// `-1` is the start at the depot, position `s.len()` the return to it.
pub open spec fn eval_at(data: &Data, s: Seq<usize>, i: int) -> EvalView
    decreases i + 1,
{
    if i < 0 {
        EvalView::origin()
    } else {
        eval_at(data, s, i - 1).step(data, stop(s, i))
    }
}

/// Latest time at which service at position `i` may start without missing
/// a due time further down the route, the depot's included.
pub open spec fn lfd_at(data: &Data, s: Seq<usize>, i: int) -> int
    decreases s.len() - i,
{
    if i >= s.len() {
        data.due_of(0)
    } else {
        min_int(
            data.due_of(stop(s, i)),
            lfd_at(data, s, i + 1) - data.time_of(stop(s, i), stop(s, i + 1)),
        )
    }
}

/// The route holds customers of the instance, each at most once.
pub open spec fn proper(data: &Data, s: Seq<usize>) -> bool {
    &&& s.no_duplicates()
    &&& forall|i: int| 0 <= i < s.len() ==> data.customer(#[trigger] s[i] as int)
}

/// Every stop is served in time and with a load within the capacity, and
/// the vehicle is back at the depot by the depot's due time.
pub open spec fn feasible(data: &Data, s: Seq<usize>) -> bool {
    &&& forall|i: int| 0 <= i < s.len() ==> (#[trigger] eval_at(data, s, i)).feasible(data)
    &&& eval_at(data, s, s.len() as int).on_time(data)
}

/// The node at position `i` has its partner in the route, the pickup ahead
/// of the delivery.
pub open spec fn coupled_at(data: &Data, s: Seq<usize>, i: int) -> bool {
    let w = data.pair(s[i] as int) as usize;
    &&& s.contains(w)
    &&& if data.delivers(s[i] as int) {
        s.index_of(w) < i
    } else {
        i < s.index_of(w)
    }
}

/// Every node of the route has its partner in the route, the pickup ahead of
/// the delivery.
pub open spec fn coupled(data: &Data, s: Seq<usize>) -> bool {
    forall|i: int| 0 <= i < s.len() ==> #[trigger] coupled_at(data, s, i)
}

/// A sequence of distinct customers is shorter than the node table.
pub proof fn lemma_proper_len(data: &Data, s: Seq<usize>)
    requires
        proper(data, s),
        1 <= data.points <= PTS,
    ensures
        s.len() < data.points,
        s.len() < PTS,
{
    let t = s.map_values(|x: usize| x as int);
    assert forall|i: int, j: int| 0 <= i < t.len() && 0 <= j < t.len() && i != j implies t[i]
        != t[j] by {
        assert(s[i] != s[j]);
    }
    t.unique_seq_to_set();
    let full = set_int_range(1, data.points as int);
    lemma_int_range(1, data.points as int);
    assert forall|x: int| t.to_set().contains(x) implies full.contains(x) by {
        let i = choose|i: int| 0 <= i < t.len() && t[i] == x;
        assert(data.customer(s[i] as int));
    }
    lemma_len_subset(t.to_set(), full);
}

/// The state at a position stands at that position's node and is what that
/// many legs can produce.
pub proof fn lemma_eval_within(data: &Data, s: Seq<usize>, i: int)
    requires
        data.sized(),
        proper(data, s),
        -1 <= i <= s.len(),
    ensures
        eval_at(data, s, i).node == stop(s, i),
        eval_at(data, s, i).within(i + 1),
        0 <= stop(s, i) < data.points,
    decreases i + 1,
{
    if i >= 0 {
        lemma_eval_within(data, s, i - 1);
        if i < s.len() {
            assert(data.customer(s[i] as int));
        }
        eval_at(data, s, i - 1).lemma_step_within(data, stop(s, i), i);
    }
}

/// A state within `k` legs, `k` at most the table size, leaves room for
/// another leg.
pub proof fn lemma_within_grows(e: EvalView, k: int, n: int)
    requires
        e.within(k),
        0 <= k <= n,
    ensures
        e.within(n),
{
    assert(k * crate::data::MAX_LEG <= n * crate::data::MAX_LEG) by (nonlinear_arith)
        requires
            0 <= k <= n,
    ;
    assert(k * crate::data::MAX_DEM <= n * crate::data::MAX_DEM) by (nonlinear_arith)
        requires
            0 <= k <= n,
    ;
    assert(-k * crate::data::MAX_DEM >= -n * crate::data::MAX_DEM) by (nonlinear_arith)
        requires
            0 <= k <= n,
    ;
}

/// The state at a position depends on the route up to that position only.
pub proof fn lemma_eval_prefix(data: &Data, s: Seq<usize>, t: Seq<usize>, i: int)
    requires
        -1 <= i,
        forall|k: int| 0 <= k <= i ==> stop(s, k) == stop(t, k),
    ensures
        eval_at(data, s, i) == eval_at(data, t, i),
    decreases i + 1,
{
    if i >= 0 {
        lemma_eval_prefix(data, s, t, i - 1);
    }
}

/// The latest feasible departure at a position depends on the route from
/// that position on only: `t` holds, `shift` places further on, what `s`
/// holds from `i` on.
pub proof fn lemma_lfd_suffix(data: &Data, s: Seq<usize>, t: Seq<usize>, i: int, shift: int)
    requires
        0 <= i <= s.len(),
        t.len() == s.len() + shift,
        0 <= i + shift,
        forall|k: int| i <= k < s.len() ==> s[k] == t[k + shift],
    ensures
        lfd_at(data, s, i) == lfd_at(data, t, i + shift),
    decreases s.len() - i,
{
    if i < s.len() {
        lemma_lfd_suffix(data, s, t, i + 1, shift);
        assert(stop(s, i) == stop(t, i + shift));
        assert(stop(s, i + 1) == stop(t, i + 1 + shift));
    }
}

/// On a feasible route every stop is reached by its latest feasible
/// departure.
pub proof fn lemma_feasible_meets_lfd(data: &Data, s: Seq<usize>, i: int)
    requires
        data.sized(),
        proper(data, s),
        feasible(data, s),
        0 <= i <= s.len(),
    ensures
        eval_at(data, s, i).time <= lfd_at(data, s, i),
        lfd_at(data, s, i) <= data.due_of(stop(s, i)),
        0 <= lfd_at(data, s, i),
    decreases s.len() - i,
{
    lemma_eval_within(data, s, i);
    if i < s.len() {
        lemma_feasible_meets_lfd(data, s, i + 1);
        lemma_eval_within(data, s, i + 1);
        eval_at(data, s, i).lemma_step_within(data, stop(s, i + 1), i + 1);
        assert(eval_at(data, s, i).feasible(data));
    } else {
        assert(eval_at(data, s, s.len() as int).on_time(data));
    }
}

/// In a sequence without repetition an element sits at one index only.
pub proof fn lemma_index_of(s: Seq<usize>, j: int)
    requires
        s.no_duplicates(),
        0 <= j < s.len(),
    ensures
        s.contains(s[j]),
        s.index_of(s[j]) == j,
{
    assert(s.contains(s[j]));
}

/// Taking a node out of a route leaves the states before it as they were
/// and brings the vehicle to every later stop no later than before, lighter
/// by the node's demand.
pub proof fn lemma_remove_eval(data: &Data, s: Seq<usize>, a: int, i: int)
    requires
        data.sized(),
        data.metric(),
        proper(data, s),
        0 <= a < s.len(),
        -1 <= i < s.len(),
    ensures
        i < a ==> eval_at(data, s.remove(a), i) == eval_at(data, s, i),
        i >= a ==> {
            &&& eval_at(data, s.remove(a), i).node == eval_at(data, s, i + 1).node
            &&& eval_at(data, s.remove(a), i).time <= eval_at(data, s, i + 1).time
            &&& eval_at(data, s.remove(a), i).load == eval_at(data, s, i + 1).load - data.dem_of(
                s[a] as int,
            )
        },
    decreases i + 1,
{
    let t = s.remove(a);
    if i < a {
        assert forall|k: int| 0 <= k <= i implies stop(t, k) == stop(s, k) by {}
        lemma_eval_prefix(data, t, s, i);
    } else {
        lemma_remove_eval(data, s, a, i - 1);
        lemma_eval_within(data, s, i - 1);
        lemma_eval_within(data, s, i);
        lemma_eval_within(data, s, i + 1);
        assert(stop(t, i) == stop(s, i + 1));
        let z = stop(s, i + 1);
        if i == a {
            let x = stop(s, a - 1);
            let y = s[a] as int;
            let e = eval_at(data, s, a - 1);
            assert(eval_at(data, t, a - 1) == e);
            assert(eval_at(data, s, a) == e.step(data, y));
            assert(eval_at(data, s, a + 1) == e.step(data, y).step(data, z));
            assert(eval_at(data, t, a) == e.step(data, z));
            assert(data.time_of(x, z) <= data.time_of(x, y) + data.time_of(y, z));
        } else {
            assert(eval_at(data, t, i) == eval_at(data, t, i - 1).step(data, z));
            assert(eval_at(data, s, i + 1) == eval_at(data, s, i).step(data, z));
        }
    }
}

/// Taking a pickup and its delivery out of a route leaves a route whose
/// nodes still have their partners, in the right order.
pub proof fn lemma_remove_pair_coupled(data: &Data, s: Seq<usize>, a: int, b: int)
    requires
        data.paired(),
        proper(data, s),
        coupled(data, s),
        0 <= a < b < s.len(),
        s[b] as int == data.pair(s[a] as int),
    ensures
        s.remove(b).remove(a).len() == s.len() - 2,
        forall|k: int|
            0 <= k < s.len() - 2 ==> #[trigger] s.remove(b).remove(a)[k] == s[skip_two(a, b, k)],
        proper(data, s.remove(b).remove(a)),
        coupled(data, s.remove(b).remove(a)),
{
    let t = s.remove(b).remove(a);
    assert forall|k: int| 0 <= k < s.len() - 2 implies #[trigger] t[k] == s[skip_two(a, b, k)] by {}
    assert forall|i: int, j: int| 0 <= i < t.len() && 0 <= j < t.len() && i != j implies t[i]
        != t[j] by {
        assert(t[i] == s[skip_two(a, b, i)]);
        assert(t[j] == s[skip_two(a, b, j)]);
    }
    assert forall|i: int| 0 <= i < t.len() implies data.customer(#[trigger] t[i] as int) by {
        assert(t[i] == s[skip_two(a, b, i)]);
    }
    assert(data.customer(s[a] as int));
    assert(data.customer(s[b] as int));
    assert(data.pair_ok(s[a] as int));
    assert(data.pair_ok(s[b] as int));
    assert forall|i: int| 0 <= i < t.len() implies #[trigger] coupled_at(data, t, i) by {
        let fi = skip_two(a, b, i);
        let v = s[fi];
        assert(t[i] == v);
        assert(coupled_at(data, s, fi));
        assert(data.customer(v as int));
        assert(data.pair_ok(v as int));
        let w = data.pair(v as int) as usize;
        let j = s.index_of(w);
        assert(s.contains(w));
        assert(0 <= j < s.len() && s[j] == w);
        assert(data.pair(w as int) == v as int);
        if j == a {
            assert(data.pair(s[a] as int) == v as int);
            assert(s[b] == v);
        }
        if j == b {
            assert(data.pair(s[b] as int) == v as int);
            assert(data.pair(data.pair(s[a] as int)) == s[a] as int);
            assert(s[a] == v);
        }
        let k = if j < a {
            j
        } else if j < b {
            j - 1
        } else {
            j - 2
        };
        assert(skip_two(a, b, k) == j);
        assert(t[k] == w);
        lemma_index_of(t, k);
    }
}

/// A route stays a sequence of distinct customers when a node leaves it.
pub proof fn lemma_remove_proper(data: &Data, s: Seq<usize>, a: int)
    requires
        proper(data, s),
        0 <= a < s.len(),
    ensures
        proper(data, s.remove(a)),
        s.remove(a).len() == s.len() - 1,
{
    let u = s.remove(a);
    assert forall|k: int| 0 <= k < u.len() implies data.customer(#[trigger] u[k] as int) by {
        assert(u[k] == s[if k < a {
            k
        } else {
            k + 1
        }]);
    }
    assert forall|k: int, l: int| 0 <= k < u.len() && 0 <= l < u.len() && k != l implies u[k]
        != u[l] by {
        assert(u[k] == s[if k < a {
            k
        } else {
            k + 1
        }]);
        assert(u[l] == s[if l < a {
            l
        } else {
            l + 1
        }]);
    }
}

/// Taking a pickup and its delivery out of a route brings the vehicle to
/// every remaining stop no later than before; its load is lower by the
/// pickup's demand between the two and unchanged elsewhere.
pub proof fn lemma_remove_pair_eval(data: &Data, s: Seq<usize>, a: int, b: int, k: int)
    requires
        data.sized(),
        data.metric(),
        data.paired(),
        proper(data, s),
        0 <= a < b < s.len(),
        s[b] as int == data.pair(s[a] as int),
        -1 <= k <= s.len() - 2,
    ensures
        eval_at(data, s.remove(b).remove(a), k).node == eval_at(data, s, skip_two(a, b, k)).node,
        eval_at(data, s.remove(b).remove(a), k).time <= eval_at(data, s, skip_two(a, b, k)).time,
        eval_at(data, s.remove(b).remove(a), k).load == eval_at(data, s, skip_two(a, b, k)).load
            - if a <= k < b - 1 {
            data.dem_of(s[a] as int)
        } else {
            0
        },
{
    let u = s.remove(b);
    lemma_remove_proper(data, s, b);
    assert(u[a] == s[a]);
    assert(data.customer(s[a] as int));
    assert(data.pair_ok(s[a] as int));
    lemma_remove_eval(data, u, a, k);
    if k < a {
        lemma_remove_eval(data, s, b, k);
    } else {
        lemma_remove_eval(data, s, b, k + 1);
    }
}

/// Along a route whose nodes all have their partners, pickups first, the
/// load never drops below zero.
pub proof fn lemma_loads_nonneg(data: &Data, s: Seq<usize>, i: int)
    requires
        data.sized(),
        data.metric(),
        data.paired(),
        proper(data, s),
        coupled(data, s),
        -1 <= i < s.len(),
    ensures
        eval_at(data, s, i).load >= 0,
    decreases s.len(), i + 1,
{
    assert(eval_at(data, s, -1) == EvalView::origin());
    if i >= 0 {
        let p = s[0];
        assert(data.customer(p as int));
        assert(data.pair_ok(p as int));
        let d = data.pair(p as int) as usize;
        let b = s.index_of(d);
        assert(coupled_at(data, s, 0));
        assert(s.contains(d));
        assert(!data.delivers(p as int));
        assert(0 < b < s.len() && s[b] == d);
        let t = s.remove(b).remove(0);
        lemma_remove_pair_coupled(data, s, 0, b);
        assert(eval_at(data, s, 0) == EvalView::origin().step(data, p as int));
        if i == 0 {
        } else if i < b {
            lemma_remove_pair_eval(data, s, 0, b, i - 1);
            lemma_loads_nonneg(data, t, i - 1);
        } else if i == b {
            assert(eval_at(data, s, b) == eval_at(data, s, b - 1).step(data, d as int));
            if b >= 2 {
                lemma_remove_pair_eval(data, s, 0, b, b - 2);
                lemma_loads_nonneg(data, t, b - 2);
            }
        } else {
            lemma_remove_pair_eval(data, s, 0, b, i - 2);
            lemma_loads_nonneg(data, t, i - 2);
        }
    }
}

/// A feasible route stays feasible when a pickup and its delivery leave it.
pub proof fn lemma_remove_pair_feasible(data: &Data, s: Seq<usize>, a: int, b: int)
    requires
        data.wf(),
        proper(data, s),
        coupled(data, s),
        feasible(data, s),
        0 <= a < b < s.len(),
        !data.delivers(s[a] as int),
        s[b] as int == data.pair(s[a] as int),
    ensures
        proper(data, s.remove(b).remove(a)),
        coupled(data, s.remove(b).remove(a)),
        feasible(data, s.remove(b).remove(a)),
{
    let t = s.remove(b).remove(a);
    lemma_remove_pair_coupled(data, s, a, b);
    assert(data.customer(s[a] as int));
    assert(data.pair_ok(s[a] as int));
    assert forall|k: int| 0 <= k < t.len() implies (#[trigger] eval_at(data, t, k)).feasible(
        data,
    ) by {
        lemma_remove_pair_eval(data, s, a, b, k);
        lemma_loads_nonneg(data, t, k);
        assert(eval_at(data, s, skip_two(a, b, k)).feasible(data));
    }
    lemma_remove_pair_eval(data, s, a, b, t.len() as int);
    assert(eval_at(data, s, s.len() as int).on_time(data));
}

/// Number of pickups among the first `i` nodes of `s`.
pub open spec fn pickup_count(data: &Data, s: Seq<usize>, i: int) -> nat
    decreases i,
{
    if i <= 0 {
        0
    } else {
        pickup_count(data, s, i - 1) + if data.delivers(s[i - 1] as int) {
            0nat
        } else {
            1nat
        }
    }
}

/// The count of pickups never decreases along the route.
pub proof fn lemma_pickup_count_grows(data: &Data, s: Seq<usize>, i: int, j: int)
    requires
        0 <= i <= j,
    ensures
        pickup_count(data, s, i) <= pickup_count(data, s, j),
        pickup_count(data, s, j) <= pickup_count(data, s, i) + (j - i),
    decreases j - i,
{
    if i < j {
        lemma_pickup_count_grows(data, s, i, j - 1);
    }
}

/// Taking a node out lowers the count behind it by one if it is a pickup.
pub proof fn lemma_pickup_count_remove(data: &Data, s: Seq<usize>, a: int, i: int)
    requires
        0 <= a < s.len(),
        0 <= i < s.len(),
    ensures
        pickup_count(data, s.remove(a), i) == if i <= a {
            pickup_count(data, s, i)
        } else {
            (pickup_count(data, s, i + 1) - if data.delivers(s[a] as int) {
                0int
            } else {
                1int
            }) as nat
        },
        i > a && !data.delivers(s[a] as int) ==> pickup_count(data, s, i + 1) >= 1,
    decreases i,
{
    let t = s.remove(a);
    if i > 0 {
        lemma_pickup_count_remove(data, s, a, i - 1);
        if i - 1 < a {
            assert(t[i - 1] == s[i - 1]);
        } else {
            assert(t[i - 1] == s[i]);
        }
        if i > a {
            lemma_pickup_count_grows(data, s, a + 1, i + 1);
        }
    }
}

/// A route whose nodes all have their partners holds as many pickups as
/// deliveries.
pub proof fn lemma_half_pickups(data: &Data, s: Seq<usize>)
    requires
        data.paired(),
        proper(data, s),
        coupled(data, s),
    ensures
        2 * pickup_count(data, s, s.len() as int) == s.len(),
    decreases s.len(),
{
    if s.len() > 0 {
        let p = s[0];
        assert(data.customer(p as int));
        assert(data.pair_ok(p as int));
        let d = data.pair(p as int) as usize;
        let b = s.index_of(d);
        assert(coupled_at(data, s, 0));
        assert(s.contains(d));
        assert(0 < b < s.len() && s[b] == d);
        let u = s.remove(b);
        let t = u.remove(0);
        lemma_remove_pair_coupled(data, s, 0, b);
        lemma_half_pickups(data, t);
        lemma_remove_proper(data, s, b);
        assert(u[0] == s[0]);
        let n = s.len() as int;
        assert(!data.delivers(p as int));
        assert(data.delivers(d as int));
        if n > 2 {
            lemma_pickup_count_remove(data, u, 0, n - 2);
            if b < n - 1 {
                lemma_pickup_count_remove(data, s, b, n - 1);
            } else {
                lemma_pickup_count_remove(data, s, b, n - 2);
                assert(pickup_count(data, s, n) == pickup_count(data, s, n - 1));
                assert(pickup_count(data, u, n - 1) == pickup_count(data, u, n - 2) + if data.delivers(
                    u[n - 2] as int,
                ) {
                    0nat
                } else {
                    1nat
                });
                assert(u[n - 2] == s[n - 2]);
                assert(pickup_count(data, s, n - 1) == pickup_count(data, s, n - 2) + if data.delivers(
                    s[n - 2] as int,
                ) {
                    0nat
                } else {
                    1nat
                });
            }
        } else {
            assert(b == 1);
            assert(pickup_count(data, s, 0) == 0);
            assert(pickup_count(data, s, 1) == 1);
            assert(pickup_count(data, s, 2) == 1);
        }
    }
}

} // verus!
