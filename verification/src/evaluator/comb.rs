use crate::data::PTS;
use crate::route::{
    coupled_at, lemma_half_pickups, lemma_pickup_count_grows, pickup_count, proper, stop,
};
use crate::eject::{gone_set, lemma_sift_holds, lists_pickups, sift};
use crate::sol::heap::MAX_EJECTIONS;
use crate::sol::{lemma_pickups_upto, mated, pickups_of, pickups_upto, Sol};
use crate::{K_MAX, UNSERVED};
use vstd::prelude::*;

verus! {

/// Capacity of the catalog of pickups: half the node table.
pub const HALF: usize = PTS / 2;

/// Number of combination indices kept: one per ejected pickup and a guard.
pub const K_SLOTS: usize = K_MAX + 1;

/// Capacity of the list of route positions that a reduced route skips.
pub const K_PAIRS: usize = 2 * K_MAX;

/// What the generator knows of one node of a route: its id, its position in
/// the route counted from 1, the position of its partner, its ejection
/// count and whether it is a delivery.
#[derive(Clone, Copy, Debug)]
pub struct PairInfo {
    pub id: usize,
    pub idx: usize,
    pub pair_idx: usize,
    pub removed_times: u64,
    pub delivery: bool,
}

impl PairInfo {
    /// The record of one node of a route.
    pub fn new(id: usize, idx: usize, pair_idx: usize, removed_times: u64, delivery: bool) -> (r:
        Self)
        ensures
            r == (PairInfo { id, idx, pair_idx, removed_times, delivery }),
    {
        Self { id, idx, pair_idx, removed_times, delivery }
    }

    /// Id of the node.
    pub fn idx(&self) -> (r: usize)
        ensures
            r == self.id,
    {
        self.id
    }
}

impl Default for PairInfo {
    fn default() -> (r: Self)
        ensures
            r == (PairInfo {
                id: UNSERVED,
                idx: UNSERVED,
                pair_idx: UNSERVED,
                removed_times: 0,
                delivery: false,
            }),
    {
        Self { id: UNSERVED, idx: UNSERVED, pair_idx: UNSERVED, removed_times: 0, delivery: false }
    }
}

/// Generator of the `k`-subsets of the pickups of one route, in
/// lexicographic order over a catalog sorted by ejection count: `route`
/// holds the route between two depot entries, `pickups` the catalog,
/// `combination_indices2` the current subset as catalog positions, closed by
/// a guard, and `sum_of_next[i][m]` the sum of the `m` ejection counts that
/// follow catalog position `i`.
pub struct Combinations {
    pub k: usize,
    pub route_len: usize,
    pub cur_removed_times_total: u64,
    pub route: [PairInfo; PTS],
    pub route_position: [usize; PTS],
    pub pickups: [PairInfo; HALF],
    pub combination_indices2: [usize; K_SLOTS],
    pub sum_of_next: [[u64; K_SLOTS]; PTS],
}

/// What the generator records of the served node `v` of `sol`.
pub open spec fn info_of(sol: &Sol, v: usize) -> PairInfo {
    PairInfo {
        id: v,
        idx: (sol@.slot[v] + 1) as usize,
        pair_idx: (sol@.slot[sol.data.pair(v as int) as usize] + 1) as usize,
        removed_times: sol.heap.times()[v as int],
        delivery: sol.data.delivers(v as int),
    }
}

/// Sum of the `m` scores from position `from` on.
pub open spec fn span(scores: Seq<u64>, from: int, m: int) -> int
    decreases m,
{
    if m <= 0 {
        0
    } else {
        span(scores, from, m - 1) + scores[from + m - 1]
    }
}

/// Sum of the scores at the positions `c[from..k]`.
pub open spec fn total_from(scores: Seq<u64>, c: Seq<usize>, from: int, k: int) -> int
    decreases k - from,
{
    if from >= k {
        0
    } else {
        scores[c[from] as int] + total_from(scores, c, from + 1, k)
    }
}

/// The indices `c` with the index `i` raised by one and the indices behind
/// it, up to `k`, set to its direct successors.
pub open spec fn raised(c: Seq<usize>, i: int, k: int) -> Seq<usize> {
    Seq::new(
        c.len(),
        |j: int|
            if i <= j < k {
                (c[i] + 1 + (j - i)) as usize
            } else {
                c[j]
            },
    )
}

/// A total splits at any index.
pub proof fn lemma_total_split(scores: Seq<u64>, c: Seq<usize>, a: int, i: int, k: int)
    requires
        a <= i <= k,
    ensures
        total_from(scores, c, a, k) == total_from(scores, c, a, i) + total_from(scores, c, i, k),
    decreases i - a,
{
    if a < i {
        lemma_total_split(scores, c, a + 1, i, k);
    }
}

/// A total depends on the indices it sums over only.
pub proof fn lemma_total_same(scores: Seq<u64>, c: Seq<usize>, e: Seq<usize>, a: int, k: int)
    requires
        forall|j: int| a <= j < k ==> c[j] == e[j],
    ensures
        total_from(scores, c, a, k) == total_from(scores, e, a, k),
    decreases k - a,
{
    if a < k {
        lemma_total_same(scores, c, e, a + 1, k);
    }
}

/// The total of consecutive indices is a span of scores.
pub proof fn lemma_total_span(scores: Seq<u64>, c: Seq<usize>, i: int, k: int, first: int)
    requires
        0 <= i <= k,
        forall|j: int| i <= j < k ==> c[j] == first + (j - i),
    ensures
        total_from(scores, c, i, k) == span(scores, first, k - i),
    decreases k - i,
{
    if i < k {
        lemma_total_span_back(scores, c, i, k, first);
    }
}

/// The same, summing from the far end.
pub proof fn lemma_total_span_back(scores: Seq<u64>, c: Seq<usize>, i: int, k: int, first: int)
    requires
        0 <= i < k,
        forall|j: int| i <= j < k ==> c[j] == first + (j - i),
    ensures
        total_from(scores, c, i, k) == span(scores, first, k - i),
    decreases k - i,
{
    lemma_total_split(scores, c, i, k - 1, k);
    assert(total_from(scores, c, k - 1, k) == scores[c[k - 1] as int] + total_from(
        scores,
        c,
        k,
        k,
    ));
    assert(total_from(scores, c, k, k) == 0);
    assert(c[k - 1] == first + (k - 1 - i));
    assert(span(scores, first, k - i) == span(scores, first, k - i - 1) + scores[first + (k - i) - 1]);
    if i < k - 1 {
        lemma_total_span_back(scores, c, i, k - 1, first);
    } else {
        assert(total_from(scores, c, i, k - 1) == 0);
        assert(span(scores, first, 0) == 0);
    }
}

/// A total of `k - a` bounded scores is bounded.
pub proof fn lemma_total_bound(scores: Seq<u64>, c: Seq<usize>, a: int, k: int, limit: int)
    requires
        0 <= a <= k,
        forall|j: int| a <= j < k ==> 0 <= c[j] < scores.len() && scores[c[j] as int] <= limit,
    ensures
        0 <= total_from(scores, c, a, k) <= (k - a) * limit,
    decreases k - a,
{
    if a < k {
        lemma_total_bound(scores, c, a + 1, k, limit);
        assert((k - a) * limit == (k - a - 1) * limit + limit) by (nonlinear_arith);
    } else {
        assert((k - a) * limit == 0) by (nonlinear_arith)
            requires
                k - a == 0,
        ;
    }
}

/// `x` is a choice of `k` different positions below `n`, in increasing
/// order.
pub open spec fn is_subset(x: Seq<usize>, k: int, n: int) -> bool {
    &&& x.len() >= k
    &&& forall|i: int| 0 <= i < k ==> #[trigger] x[i] < n
    &&& forall|i: int| 0 <= i < k - 1 ==> #[trigger] x[i] < x[i + 1]
}

/// `a` comes before `b` in lexicographic order of the first `k` positions.
pub open spec fn comes_before(a: Seq<usize>, b: Seq<usize>, k: int) -> bool {
    exists|m: int| 0 <= m < k && differ_at(a, b, m)
}

/// `a` and `b` agree before position `m`, where `a` is smaller.
pub open spec fn differ_at(a: Seq<usize>, b: Seq<usize>, m: int) -> bool {
    a[m] < b[m] && forall|l: int| 0 <= l < m ==> a[l] == b[l]
}

/// `a` and `b` are the same choice of `k` positions.
pub open spec fn agree(a: Seq<usize>, b: Seq<usize>, k: int) -> bool {
    forall|i: int| 0 <= i < k ==> a[i] == #[trigger] b[i]
}

/// `a` is the choice of the first `k` positions: the first subset in
/// lexicographic order.
pub open spec fn leads(a: Seq<usize>, k: int) -> bool {
    forall|i: int| 0 <= i < k ==> #[trigger] a[i] == i
}

/// The search with the limit `target` scans the subset `x` of `k` out of
/// `n` positions: its total is below the limit, and so is the total of
/// every subset before it but for the first one, which the search passes
/// over when its total is not.
#[verifier::opaque]
pub open spec fn visited(scores: Seq<u64>, k: int, n: int, target: int, x: Seq<usize>) -> bool {
    &&& is_subset(x, k, n)
    &&& total_from(scores, x, 0, k) < target
    &&& forall|y: Seq<usize>|
        #[trigger] is_subset(y, k, n) && comes_before(y, x, k) && !leads(y, k) ==> total_from(
            scores,
            y,
            0,
            k,
        ) < target
}

/// The ids of the pickups at the catalog positions `x`, then zeros.
pub open spec fn ids_at(pickups: Seq<PairInfo>, k: int, x: Seq<usize>) -> Seq<usize> {
    Seq::new(
        K_MAX as nat,
        |i: int|
            if i < k {
                pickups[x[i] as int].id
            } else {
                0usize
            },
    )
}

/// `xs` lists, in lexicographic order and each once, the subsets that the
/// search with the limit `target` scans before it comes to `c`.
#[verifier::opaque]
pub open spec fn lists_before(
    scores: Seq<u64>,
    k: int,
    n: int,
    target: int,
    xs: Seq<Seq<usize>>,
    c: Seq<usize>,
) -> bool {
    &&& forall|j: int|
        0 <= j < xs.len() ==> visited(scores, k, n, target, #[trigger] xs[j]) && comes_before(
            xs[j],
            c,
            k,
        )
    &&& forall|i: int, j: int|
        0 <= i < j < xs.len() ==> comes_before(#[trigger] xs[i], #[trigger] xs[j], k)
    &&& forall|x: Seq<usize>|
        #[trigger] visited(scores, k, n, target, x) && comes_before(x, c, k) ==> exists|j: int|
            0 <= j < xs.len() && agree(#[trigger] xs[j], x, k)
}

/// `xs` lists, in lexicographic order and each once, all the subsets that
/// the search with the limit `target` scans.
#[verifier::opaque]
pub open spec fn lists_all(scores: Seq<u64>, k: int, n: int, target: int, xs: Seq<Seq<usize>>) -> bool {
    &&& forall|j: int| 0 <= j < xs.len() ==> visited(scores, k, n, target, #[trigger] xs[j])
    &&& forall|i: int, j: int|
        0 <= i < j < xs.len() ==> comes_before(#[trigger] xs[i], #[trigger] xs[j], k)
    &&& forall|x: Seq<usize>| #[trigger]
        visited(scores, k, n, target, x) ==> exists|j: int|
            0 <= j < xs.len() && agree(#[trigger] xs[j], x, k)
}

/// Of two choices of `k` positions one comes before the other unless they
/// are the same.
pub proof fn lemma_order_total(a: Seq<usize>, b: Seq<usize>, k: int)
    requires
        0 <= k,
    ensures
        agree(a, b, k) || comes_before(a, b, k) || comes_before(b, a, k),
{
    if !agree(a, b, k) {
        let m = Combinations::first_gap(k, a, b, 0);
        if a[m] < b[m] {
            assert(differ_at(a, b, m));
        } else {
            assert(differ_at(b, a, m));
        }
    }
}

/// No choice comes before itself, and none both before and behind another.
pub proof fn lemma_order_strict(a: Seq<usize>, b: Seq<usize>, k: int)
    ensures
        !(comes_before(a, b, k) && agree(a, b, k)),
        !(comes_before(a, b, k) && agree(b, a, k)),
        !(comes_before(a, b, k) && comes_before(b, a, k)),
{
    if comes_before(a, b, k) {
        let m = choose|m: int| 0 <= m < k && differ_at(a, b, m);
        if agree(a, b, k) {
            assert(a[m] == b[m]);
        }
        if agree(b, a, k) {
            assert(b[m] == a[m]);
        }
        if comes_before(b, a, k) {
            let l = choose|l: int| 0 <= l < k && differ_at(b, a, l);
            if l < m {
                assert(a[l] == b[l]);
            } else if m < l {
                assert(b[m] == a[m]);
            }
        }
    }
}

/// The order of choices is transitive.
pub proof fn lemma_order_trans(a: Seq<usize>, b: Seq<usize>, c: Seq<usize>, k: int)
    requires
        comes_before(a, b, k),
        comes_before(b, c, k),
    ensures
        comes_before(a, c, k),
{
    let m = choose|m: int| 0 <= m < k && differ_at(a, b, m);
    let l = choose|l: int| 0 <= l < k && differ_at(b, c, l);
    if m <= l {
        assert(differ_at(a, c, m)) by {
            assert forall|j: int| 0 <= j < m implies a[j] == c[j] by {
                assert(a[j] == b[j]);
                assert(b[j] == c[j]);
            }
            if m < l {
                assert(b[m] == c[m]);
            }
        }
    } else {
        assert(differ_at(a, c, l)) by {
            assert forall|j: int| 0 <= j < l implies a[j] == c[j] by {
                assert(a[j] == b[j]);
                assert(b[j] == c[j]);
            }
            assert(a[l] == b[l]);
        }
    }
}

/// The order of choices looks at the first `k` positions only.
pub proof fn lemma_order_agree(a: Seq<usize>, b: Seq<usize>, c: Seq<usize>, k: int)
    requires
        agree(a, b, k),
    ensures
        comes_before(a, c, k) <==> comes_before(b, c, k),
        comes_before(c, a, k) <==> comes_before(c, b, k),
        agree(a, c, k) <==> agree(b, c, k),
{
    if comes_before(a, c, k) {
        let m = choose|m: int| 0 <= m < k && differ_at(a, c, m);
        assert(differ_at(b, c, m)) by {
            assert(a[m] == b[m]);
            assert forall|j: int| 0 <= j < m implies b[j] == c[j] by {
                assert(a[j] == b[j]);
            }
        }
    }
    if comes_before(b, c, k) {
        let m = choose|m: int| 0 <= m < k && differ_at(b, c, m);
        assert(differ_at(a, c, m)) by {
            assert(a[m] == b[m]);
            assert forall|j: int| 0 <= j < m implies a[j] == c[j] by {
                assert(a[j] == b[j]);
            }
        }
    }
    if comes_before(c, a, k) {
        let m = choose|m: int| 0 <= m < k && differ_at(c, a, m);
        assert(differ_at(c, b, m)) by {
            assert(a[m] == b[m]);
            assert forall|j: int| 0 <= j < m implies c[j] == b[j] by {
                assert(a[j] == b[j]);
            }
        }
    }
    if comes_before(c, b, k) {
        let m = choose|m: int| 0 <= m < k && differ_at(c, b, m);
        assert(differ_at(c, a, m)) by {
            assert(a[m] == b[m]);
            assert forall|j: int| 0 <= j < m implies c[j] == a[j] by {
                assert(a[j] == b[j]);
            }
        }
    }
    if agree(a, c, k) {
        assert forall|i: int| 0 <= i < k implies b[i] == #[trigger] c[i] by {
            assert(a[i] == b[i]);
        }
    }
    if agree(b, c, k) {
        assert forall|i: int| 0 <= i < k implies a[i] == #[trigger] c[i] by {
            assert(a[i] == b[i]);
        }
    }
}

/// Whether the search scans a subset, and what the subset ejects, depends
/// on its first `k` positions only.
pub proof fn lemma_visited_agree(
    scores: Seq<u64>,
    pickups: Seq<PairInfo>,
    k: int,
    n: int,
    target: int,
    a: Seq<usize>,
    b: Seq<usize>,
)
    requires
        0 <= k,
        agree(a, b, k),
        a.len() >= k,
        b.len() >= k,
    ensures
        is_subset(a, k, n) <==> is_subset(b, k, n),
        total_from(scores, a, 0, k) == total_from(scores, b, 0, k),
        visited(scores, k, n, target, a) <==> visited(scores, k, n, target, b),
        ids_at(pickups, k, a) == ids_at(pickups, k, b),
{
    reveal(visited);
    assert forall|j: int| 0 <= j < k implies a[j] == b[j] by {
        assert(a[j] == b[j]);
    }
    lemma_total_same(scores, a, b, 0, k);
    assert(ids_at(pickups, k, a) =~= ids_at(pickups, k, b));
    if is_subset(a, k, n) {
        assert forall|i: int| 0 <= i < k - 1 implies #[trigger] b[i] < b[i + 1] by {
            assert(a[i] < a[i + 1]);
        }
    }
    if is_subset(b, k, n) {
        assert forall|i: int| 0 <= i < k - 1 implies #[trigger] a[i] < a[i + 1] by {
            assert(b[i] < b[i + 1]);
        }
    }
    assert forall|y: Seq<usize>| comes_before(y, a, k) <==> comes_before(y, b, k) by {
        lemma_order_agree(a, b, y, k);
    }
}

/// What the search scans is a subset with a total below the limit.
pub proof fn lemma_visited_subset(scores: Seq<u64>, k: int, n: int, target: int, x: Seq<usize>)
    requires
        visited(scores, k, n, target, x),
    ensures
        is_subset(x, k, n),
        total_from(scores, x, 0, k) < target,
{
    reveal(visited);
}

/// The positions of a subset grow by at least one from each to the next, and
/// leave room below `n` for those behind them.
pub proof fn lemma_subset_spread(x: Seq<usize>, k: int, n: int, a: int, b: int)
    requires
        is_subset(x, k, n),
        0 <= a <= b < k,
    ensures
        x[b] >= x[a] + (b - a),
        x[a] <= n - (k - a),
    decreases k - a,
{
    if a < b {
        lemma_subset_spread(x, k, n, a + 1, b);
        assert(x[a] < x[a + 1]);
    }
    if a < k - 1 {
        lemma_subset_spread(x, k, n, a + 1, a + 1);
        assert(x[a] < x[a + 1]);
    }
}

/// `out` holds the items of `inp`, rearranged by `perm` into non-decreasing
/// order of their ejection counts; `back` undoes `perm`.
pub open spec fn ranked_by(out: Seq<PairInfo>, inp: Seq<PairInfo>, perm: Seq<int>, back: Seq<int>) -> bool {
    &&& out.len() == inp.len()
    &&& perm.len() == inp.len()
    &&& back.len() == inp.len()
    &&& forall|i: int| 0 <= i < perm.len() ==> 0 <= #[trigger] perm[i] < inp.len() && back[perm[i]] == i
    &&& forall|j: int| 0 <= j < back.len() ==> 0 <= #[trigger] back[j] < inp.len() && perm[back[j]] == j
    &&& forall|i: int| 0 <= i < out.len() ==> #[trigger] out[i] == inp[perm[i]]
    &&& forall|i: int, j: int|
        0 <= i <= j < out.len() ==> (#[trigger] out[i]).removed_times <= (#[trigger] out[j]).removed_times
}

/// `out` is a rearrangement of `inp` in non-decreasing order of ejection
/// counts.
pub open spec fn is_ranking(out: Seq<PairInfo>, inp: Seq<PairInfo>) -> bool {
    exists|perm: Seq<int>, back: Seq<int>| ranked_by(out, inp, perm, back)
}

/// One of the first `n` items is the record of the node `v`.
pub open spec fn entry_in(items: Seq<PairInfo>, n: int, v: usize) -> bool {
    exists|i: int| 0 <= i < n && (#[trigger] items[i]).id == v
}

/// Sorts `items[..len]` by ejection count with the standard library's
/// `sort_unstable_by_key`: the prefix is rearranged into non-decreasing order
/// of the key, items of equal key in no particular order, and the rest of
/// the array is not touched.
#[verifier::external_body]
fn sort_catalog(items: &mut [PairInfo; HALF], len: usize)
    requires
        len <= HALF,
    ensures
        is_ranking(final(items)@.take(len as int), old(items)@.take(len as int)),
        final(items)@.skip(len as int) == old(items)@.skip(len as int),
{
    items[0..len].sort_unstable_by_key(|x| x.removed_times);
}

impl Combinations {
    /// Number of pickups in the catalog.
    pub open spec fn held(&self) -> int {
        (self.route_len - 2) / 2
    }

    /// The catalog: the pickups of the route by ejection count.
    pub open spec fn catalog(&self) -> Seq<PairInfo> {
        self.pickups@.take(self.held())
    }

    /// Ejection counts of the catalog.
    pub open spec fn scores(&self) -> Seq<u64> {
        Seq::new(self.pickups@.len(), |i: int| self.pickups@[i].removed_times)
    }

    /// The current subset, as positions in the catalog.
    pub open spec fn picked(&self) -> Seq<usize> {
        self.combination_indices2@.take(self.k as int)
    }

    /// The route starts with the depot's entry, and no stored ejection
    /// count is above the limit.
    pub open spec fn quiet(&self) -> bool {
        &&& self.route@[0].id == 0
        &&& forall|i: int|
            0 <= i < HALF ==> (#[trigger] self.pickups@[i]).removed_times <= MAX_EJECTIONS
    }

    /// `route` holds the route `start` of `sol` between two depot entries,
    /// and `route_position` the place of each of its nodes.
    pub open spec fn holds_route(&self, sol: &Sol, start: usize) -> bool {
        let s = sol@.tours[start];
        &&& self.route_len == s.len() + 2
        &&& self.route@[0].id == 0
        &&& self.route@[s.len() as int + 1].id == 0
        &&& !self.route@[s.len() as int + 1].delivery
        &&& forall|i: int| 1 <= i <= s.len() ==> #[trigger] self.route@[i] == info_of(sol, s[i - 1])
        &&& forall|i: int| 1 <= i <= s.len() ==> self.route_position@[#[trigger] s[i - 1] as int] == i
    }

    /// The catalog holds every pickup of the route `start` of `sol` once,
    /// as the route records it, in non-decreasing order of ejection counts.
    pub open spec fn holds_catalog(&self, sol: &Sol, start: usize) -> bool {
        let s = sol@.tours[start];
        &&& 2 * self.held() == s.len()
        &&& forall|i: int|
            0 <= i < self.held() ==> {
                let e = #[trigger] self.pickups@[i];
                &&& sol.on_route(e.id, start)
                &&& !sol.data.delivers(e.id as int)
                &&& e == info_of(sol, e.id)
            }
        &&& forall|i: int, j: int|
            0 <= i < self.held() && 0 <= j < self.held() && i != j ==> (#[trigger] self.pickups@[i]).id
                != (#[trigger] self.pickups@[j]).id
        &&& forall|v: usize|
            sol.on_route(v, start) && !sol.data.delivers(v as int) ==> #[trigger] entry_in(
                self.pickups@,
                self.held(),
                v,
            )
        &&& forall|i: int, j: int|
            0 <= i <= j < self.held() ==> (#[trigger] self.pickups@[i]).removed_times
                <= (#[trigger] self.pickups@[j]).removed_times
    }

    /// `sum_of_next[i][m]` is the sum of the `m` ejection counts behind
    /// catalog position `i`, wherever that many pickups follow and `m` is at
    /// most `k`.
    pub open spec fn holds_sums(&self) -> bool {
        forall|i: int, m: int|
            0 <= i < self.held() && 0 <= m <= self.k && i + m < self.held() ==> (
            #[trigger] self.sum_of_next@[i]@[m]) as int == span(self.scores(), i + 1, m)
    }

    /// The generator is loaded with the route `start` of `sol`.
    pub open spec fn loaded(&self, sol: &Sol, start: usize) -> bool {
        &&& self.k <= K_MAX
        &&& self.holds_route(sol, start)
        &&& self.holds_catalog(sol, start)
        &&& self.holds_sums()
        &&& self.quiet()
    }

    /// The current subset is a strictly increasing choice of `k` catalog
    /// positions, closed by the guard, and its total ejection count is
    /// recorded.
    pub open spec fn ordered(&self) -> bool {
        &&& self.k <= K_MAX
        &&& self.k <= self.held()
        &&& self.held() <= HALF
        &&& self.combination_indices2@[self.k as int] == self.held()
        &&& forall|i: int|
            0 <= i < self.k ==> (#[trigger] self.combination_indices2@[i]) < self.combination_indices2@[i
                + 1]
        &&& self.cur_removed_times_total as int == total_from(
            self.scores(),
            self.picked(),
            0,
            self.k as int,
        )
    }

    /// A generator that holds no route.
    pub fn new() -> (r: Self)
        ensures
            r.k == 0,
            r.route_len == 0,
            r.quiet(),
    {
        let mut route = [PairInfo::default();PTS];
        route[0] = PairInfo::new(0, 0, 0, 0, false);

        Self {
            k: 0,
            route_len: 0,
            cur_removed_times_total: 0,
            route,
            route_position: [UNSERVED;PTS],
            pickups: [PairInfo::default();HALF],
            combination_indices2: [UNSERVED;K_SLOTS],
            sum_of_next: [[u64::MAX;K_SLOTS];PTS],
        }
    }
    /// The pickups among the first nodes of a route are as many as counted.
    pub proof fn lemma_pickups_len(sol: &Sol, s: Seq<usize>, i: int)
        requires
            0 <= i,
        ensures
            pickups_upto(sol.data, s, i).len() == pickup_count(sol.data, s, i),
        decreases i,
    {
        if i > 0 {
            Self::lemma_pickups_len(sol, s, i - 1);
        }
    }

    /// Loads the generator with the route that starts at `route_start` and
    /// sets it to the first subset of `k` pickups: the `k` least ejected
    /// ones.
    pub fn k_combinations_of_route(&mut self, sol: &Sol, route_start: usize, k: usize)
        requires
            sol.wf(),
            sol@.has(route_start),
            sol.heap.below(MAX_EJECTIONS as int),
            k <= K_MAX,
            old(self).quiet(),
        ensures
            final(self).k == k,
            final(self).loaded(sol, route_start),
            k <= final(self).held() ==> final(self).ordered(),
            forall|i: int| 0 <= i < k ==> #[trigger] final(self).combination_indices2@[i] == i,
    {
        self.k = k;
        self.fill_route_indices_and_set_len(route_start, sol);
        self.copy_pair_info(route_start, sol);
        let ghost copied = *self;
        self.initialize_combination_indices();
        proof {
            sol.lemma_route_shape(route_start);
            assert(self.holds_route(sol, route_start));
            assert(self.holds_catalog(sol, route_start));
            assert(self.holds_sums()) by {
                assert(self.scores() == copied.scores());
                assert(copied.holds_sums());
            }
            if k <= self.held() {
                assert forall|i: int| 0 <= i < self.k implies (#[trigger] self.combination_indices2@[i])
                    < self.combination_indices2@[i + 1] by {
                    if i + 1 < k {
                        assert(self.combination_indices2@[i + 1] == i + 1);
                    }
                }
            }
        }
    }

    /// Copies the route into `route`, the depot at both ends, and records
    /// the position of every node.
    fn fill_route_indices_and_set_len(&mut self, route_start: usize, sol: &Sol)
        requires
            sol.wf(),
            sol@.has(route_start),
        ensures
            final(self).k == old(self).k,
            final(self).route == old(self).route,
            final(self).pickups == old(self).pickups,
            final(self).combination_indices2 == old(self).combination_indices2,
            final(self).sum_of_next == old(self).sum_of_next,
            final(self).cur_removed_times_total == old(self).cur_removed_times_total,
            final(self).route_len == sol@.tours[route_start].len() + 2,
            forall|i: int|
                1 <= i <= sol@.tours[route_start].len() ==> final(self).route_position@[#[trigger] sol@.tours[route_start][i
                    - 1] as int] == i,
    {
        let ghost s = sol@.tours[route_start];
        proof {
            sol.lemma_route_shape(route_start);
        }
        let mut cur = route_start;
        let mut i: usize = 1;
        while cur != 0
            invariant
                sol.wf(),
                sol@.has(route_start),
                s == sol@.tours[route_start],
                0 < s.len() < PTS,
                1 <= i <= s.len() + 1,
                cur == stop(s, i - 1),
                self.k == old(self).k,
                self.route == old(self).route,
                self.pickups == old(self).pickups,
                self.combination_indices2 == old(self).combination_indices2,
                self.sum_of_next == old(self).sum_of_next,
                self.cur_removed_times_total == old(self).cur_removed_times_total,
                forall|j: int| 1 <= j < i ==> self.route_position@[#[trigger] s[j - 1] as int] == j,
            decreases s.len() + 1 - i,
        {
            proof {
                sol.lemma_route_shape(route_start);
                sol.lemma_link_at(route_start, i - 1);
                assert(s[i - 1] == cur);
            }
            self.route_position[cur] = i;
            proof {
                assert forall|j: int| 1 <= j < i + 1 implies self.route_position@[#[trigger] s[j
                    - 1] as int] == j by {
                    if j < i {
                        assert(s[j - 1] != s[i - 1]);
                    }
                }
            }
            i += 1;
            cur = sol.next[cur];
        }

        self.route_len = i + 1;
    }

    /// Fills the catalog with the pickups of the route, sorts it by
    /// ejection count and fills the table of sums.
    fn copy_pair_info(&mut self, route_start: usize, sol: &Sol)
        requires
            sol.wf(),
            sol@.has(route_start),
            sol.heap.below(MAX_EJECTIONS as int),
            old(self).k <= K_MAX,
            old(self).quiet(),
            old(self).route_len == sol@.tours[route_start].len() + 2,
            forall|i: int|
                1 <= i <= sol@.tours[route_start].len() ==> old(self).route_position@[#[trigger] sol@.tours[route_start][i
                    - 1] as int] == i,
        ensures
            final(self).k == old(self).k,
            final(self).combination_indices2 == old(self).combination_indices2,
            final(self).cur_removed_times_total == old(self).cur_removed_times_total,
            final(self).loaded(sol, route_start),
    {
        let pickup = self.record_route(route_start, sol);
        let ghost filled = self.pickups@;
        let ghost recorded = *self;
        sort_catalog(&mut self.pickups, pickup);
        proof {
            Self::lemma_ranked_catalog(sol, route_start, filled, self.pickups@, pickup as int);
        }
        let ghost ranked = *self;
        self.fill_sums(pickup);
        proof {
            assert(recorded.holds_route(sol, route_start));
            assert(self.route == recorded.route);
            assert(self.route_position == recorded.route_position);
            assert(self.pickups == ranked.pickups);
        }
    }

    /// Copies the route into `route` and its pickups, in route order, into
    /// the head of `pickups`; returns the number of pickups.
    #[verifier::rlimit(60)]
    fn record_route(&mut self, route_start: usize, sol: &Sol) -> (pickup: usize)
        requires
            sol.wf(),
            sol@.has(route_start),
            sol.heap.below(MAX_EJECTIONS as int),
            old(self).k <= K_MAX,
            old(self).quiet(),
            old(self).route_len == sol@.tours[route_start].len() + 2,
            forall|i: int|
                1 <= i <= sol@.tours[route_start].len() ==> old(self).route_position@[#[trigger] sol@.tours[route_start][i
                    - 1] as int] == i,
        ensures
            final(self).k == old(self).k,
            final(self).route_len == old(self).route_len,
            final(self).route_position == old(self).route_position,
            final(self).combination_indices2 == old(self).combination_indices2,
            final(self).sum_of_next == old(self).sum_of_next,
            final(self).cur_removed_times_total == old(self).cur_removed_times_total,
            final(self).holds_route(sol, route_start),
            final(self).quiet(),
            pickup == final(self).held(),
            pickup <= HALF,
            2 * pickup == sol@.tours[route_start].len(),
            pickup == pickups_of(sol.data, sol@.tours[route_start]).len(),
            forall|j: int|
                0 <= j < pickup ==> #[trigger] final(self).pickups@[j] == info_of(
                    sol,
                    pickups_of(sol.data, sol@.tours[route_start])[j],
                ),
    {
        let ghost s = sol@.tours[route_start];
        let ghost data = sol.data;
        let ghost l = sol@;
        proof {
            sol.lemma_route_shape(route_start);
            sol.lemma_coupled(route_start);
            lemma_half_pickups(data, s);
            Self::lemma_pickups_len(sol, s, s.len() as int);
        }
        let mut cur = route_start;
        let mut i: usize = 1;
        let mut pickup: usize = 0;
        while cur != 0
            invariant
                sol.wf(),
                sol@.has(route_start),
                sol.heap.below(MAX_EJECTIONS as int),
                s == sol@.tours[route_start],
                data == sol.data,
                l == sol@,
                0 < s.len() < PTS,
                2 * pickup_count(data, s, s.len() as int) == s.len(),
                1 <= i <= s.len() + 1,
                cur == stop(s, i - 1),
                pickup == pickups_upto(data, s, i - 1).len(),
                pickup <= HALF,
                self.k == old(self).k,
                self.route_len == old(self).route_len,
                self.route_position == old(self).route_position,
                self.combination_indices2 == old(self).combination_indices2,
                self.sum_of_next == old(self).sum_of_next,
                self.cur_removed_times_total == old(self).cur_removed_times_total,
                self.route@[0] == old(self).route@[0],
                self.quiet(),
                forall|j: int| 1 <= j <= s.len() ==> self.route_position@[#[trigger] s[j - 1] as int] == j,
                forall|j: int| 1 <= j < i ==> #[trigger] self.route@[j] == info_of(sol, s[j - 1]),
                forall|j: int|
                    0 <= j < pickup ==> #[trigger] self.pickups@[j] == info_of(
                        sol,
                        pickups_upto(data, s, i - 1)[j],
                    ),
            decreases s.len() + 1 - i,
        {
            proof {
                sol.lemma_route_shape(route_start);
                sol.lemma_link_at(route_start, i - 1);
                assert(s[i - 1] == cur);
                assert(l.served(cur));
                assert(mated(l, data, cur));
                let w = data.pair(cur as int) as usize;
                assert(l.served(w));
                assert(s[l.slot[w]] == w) by {
                    assert(l.tour_of(w) == s);
                }
                assert(self.route_position@[s[(l.slot[w] + 1) - 1] as int] == l.slot[w] + 1);
                Self::lemma_pickups_len(sol, s, i - 1);
                Self::lemma_pickups_len(sol, s, i as int);
                lemma_pickup_count_grows(data, s, i as int, s.len() as int);
            }
            let pt = sol.data.pts[cur];
            let pi = PairInfo::new(
                cur,
                self.route_position[cur],
                self.route_position[pt.pair],
                sol.heap.removed_times[cur],
                pt.is_delivery,
            );
            proof {
                assert(pi == info_of(sol, cur));
            }

            let ghost was = *self;
            let ghost had = pickup;
            if !pt.is_delivery {
                self.pickups[pickup] = pi;
                pickup += 1;
            }
            self.route[i] = pi;
            proof {
                let now = pickups_upto(data, s, i as int);
                let then = pickups_upto(data, s, i - 1);
                assert forall|j: int| 1 <= j < i + 1 implies #[trigger] self.route@[j] == info_of(
                    sol,
                    s[j - 1],
                ) by {
                    if j < i {
                        assert(was.route@[j] == info_of(sol, s[j - 1]));
                    }
                }
                assert forall|j: int| 0 <= j < pickup implies #[trigger] self.pickups@[j]
                    == info_of(sol, now[j]) by {
                    if j < had {
                        assert(was.pickups@[j] == info_of(sol, then[j]));
                        assert(now[j] == then[j]);
                    }
                }
                assert forall|j: int| 0 <= j < HALF implies (#[trigger] self.pickups@[j]).removed_times
                    <= MAX_EJECTIONS by {
                    if j == had && !pt.is_delivery {
                        assert(sol.heap.times()[cur as int] <= MAX_EJECTIONS);
                    } else {
                        assert(was.pickups@[j].removed_times <= MAX_EJECTIONS);
                    }
                }
            }

            i += 1;
            cur = sol.next[cur];
        }
        let ghost ended = *self;
        self.route[i] = PairInfo { id: 0, pair_idx: 0, ..PairInfo::default() };
        proof {
            Self::lemma_pickups_len(sol, s, s.len() as int);
            assert(i == s.len() + 1);
            assert(self.route@[s.len() as int + 1].id == 0);
            assert forall|j: int| 1 <= j <= s.len() implies #[trigger] self.route@[j] == info_of(
                sol,
                s[j - 1],
            ) by {
                assert(ended.route@[j] == info_of(sol, s[j - 1]));
            }
            assert(self.holds_route(sol, route_start));
            assert forall|j: int| 0 <= j < HALF implies (#[trigger] self.pickups@[j]).removed_times
                <= MAX_EJECTIONS by {
                assert(ended.pickups@[j].removed_times <= MAX_EJECTIONS);
            }
        }
        pickup
    }

    /// A catalog that ranks the pickups of a route, recorded in route order,
    /// holds each of them once, as recorded, in order of ejection counts.
    proof fn lemma_ranked_catalog(
        sol: &Sol,
        start: usize,
        filled: Seq<PairInfo>,
        sorted: Seq<PairInfo>,
        n: int,
    )
        requires
            sol.wf(),
            sol@.has(start),
            sol.heap.below(MAX_EJECTIONS as int),
            filled.len() == HALF,
            sorted.len() == HALF,
            0 <= n <= HALF,
            n == pickups_of(sol.data, sol@.tours[start]).len(),
            forall|j: int|
                0 <= j < n ==> #[trigger] filled[j] == info_of(
                    sol,
                    pickups_of(sol.data, sol@.tours[start])[j],
                ),
            forall|j: int| 0 <= j < HALF ==> (#[trigger] filled[j]).removed_times <= MAX_EJECTIONS,
            is_ranking(sorted.take(n), filled.take(n)),
            sorted.skip(n) == filled.skip(n),
        ensures
            forall|a: int|
                0 <= a < n ==> {
                    let e = #[trigger] sorted[a];
                    &&& sol.on_route(e.id, start)
                    &&& !sol.data.delivers(e.id as int)
                    &&& e == info_of(sol, e.id)
                },
            forall|a: int, b: int|
                0 <= a < n && 0 <= b < n && a != b ==> (#[trigger] sorted[a]).id != (
                #[trigger] sorted[b]).id,
            forall|v: usize|
                sol.on_route(v, start) && !sol.data.delivers(v as int) ==> #[trigger] entry_in(
                    sorted,
                    n,
                    v,
                ),
            forall|a: int, b: int|
                0 <= a <= b < n ==> (#[trigger] sorted[a]).removed_times <= (
                #[trigger] sorted[b]).removed_times,
            forall|a: int| 0 <= a < HALF ==> (#[trigger] sorted[a]).removed_times <= MAX_EJECTIONS,
    {
        let l = sol@;
        let data = sol.data;
        let s = l.tours[start];
        let inp = filled.take(n);
        let out = sorted.take(n);
        let picked = pickups_of(data, s);
        let (perm, back) = choose|perm: Seq<int>, back: Seq<int>| ranked_by(out, inp, perm, back);
        sol.lemma_route_shape(start);
        lemma_pickups_upto(data, s, s.len() as int);
        Sol::lemma_pickups_distinct(data, s, s.len() as int);
        assert forall|a: int| 0 <= a < n implies {
            let e = #[trigger] sorted[a];
            &&& sol.on_route(e.id, start)
            &&& !data.delivers(e.id as int)
            &&& e == info_of(sol, e.id)
        } by {
            assert(out[a] == inp[perm[a]]);
            assert(inp[perm[a]] == filled[perm[a]]);
            let v = picked[perm[a]];
            let kk = choose|kk: int| 0 <= kk < s.len() && s[kk] == v;
            assert(l.tours[start][kk] == v);
        }
        assert forall|a: int, b: int| 0 <= a < n && 0 <= b < n && a != b implies (
        #[trigger] sorted[a]).id != (#[trigger] sorted[b]).id by {
            assert(out[a] == inp[perm[a]]);
            assert(out[b] == inp[perm[b]]);
            assert(inp[perm[a]] == filled[perm[a]]);
            assert(inp[perm[b]] == filled[perm[b]]);
            assert(back[perm[a]] == a);
            assert(back[perm[b]] == b);
            assert(perm[a] != perm[b]);
            assert(picked[perm[a]] != picked[perm[b]]);
        }
        assert forall|v: usize|
            sol.on_route(v, start) && !data.delivers(v as int) implies #[trigger] entry_in(
            sorted,
            n,
            v,
        ) by {
            let kk = l.slot[v];
            assert(s[kk] == v);
            assert(picked.contains(s[kk]));
            let j = choose|j: int| 0 <= j < picked.len() && picked[j] == v;
            let a = back[j];
            assert(perm[back[j]] == j);
            assert(out[a] == inp[perm[a]]);
            assert(inp[j] == filled[j]);
            assert(sorted[a].id == v);
        }
        assert forall|a: int, b: int| 0 <= a <= b < n implies (#[trigger] sorted[a]).removed_times
            <= (#[trigger] sorted[b]).removed_times by {
            assert(out[a].removed_times <= out[b].removed_times);
        }
        assert forall|a: int| 0 <= a < HALF implies (#[trigger] sorted[a]).removed_times
            <= MAX_EJECTIONS by {
            if a < n {
                assert(sol.on_route(sorted[a].id, start));
                assert(sol.heap.times()[sorted[a].id as int] <= MAX_EJECTIONS);
            } else {
                assert(sorted.skip(n)[a - n] == filled.skip(n)[a - n]);
            }
        }
    }

    /// Fills `sum_of_next` for a catalog of `pickup` entries.
    fn fill_sums(&mut self, pickup: usize)
        requires
            pickup <= HALF,
            old(self).k <= K_MAX,
            old(self).quiet(),
            pickup == old(self).held(),
        ensures
            final(self).k == old(self).k,
            final(self).route_len == old(self).route_len,
            final(self).route == old(self).route,
            final(self).route_position == old(self).route_position,
            final(self).pickups == old(self).pickups,
            final(self).combination_indices2 == old(self).combination_indices2,
            final(self).cur_removed_times_total == old(self).cur_removed_times_total,
            final(self).holds_sums(),
    {
        let mut i: usize = 0;
        while i < pickup
            invariant
                pickup <= HALF,
                self.k <= K_MAX,
                self.quiet(),
                pickup == self.held(),
                0 <= i <= pickup,
                self.k == old(self).k,
                self.route_len == old(self).route_len,
                self.route == old(self).route,
                self.route_position == old(self).route_position,
                self.pickups == old(self).pickups,
                self.combination_indices2 == old(self).combination_indices2,
                self.cur_removed_times_total == old(self).cur_removed_times_total,
                forall|a: int, m: int|
                    0 <= a < i && 0 <= m <= self.k && a + m < pickup ==> (
                    #[trigger] self.sum_of_next@[a]@[m]) as int == span(self.scores(), a + 1, m),
            decreases pickup - i,
        {
            let lim = if self.k < pickup - 1 - i {
                self.k
            } else {
                pickup - 1 - i
            };
            let mut acc: u64 = 0;
            let mut m: usize = 0;
            let mut row = self.sum_of_next[i];
            row[0] = 0;
            while m < lim
                invariant
                    pickup <= HALF,
                    self.k <= K_MAX,
                    self.quiet(),
                    i < pickup,
                    lim <= self.k,
                    i + lim < pickup,
                    0 <= m <= lim,
                    acc as int == span(self.scores(), i + 1, m as int),
                    acc <= m * MAX_EJECTIONS,
                    forall|b: int| 0 <= b <= m ==> (#[trigger] row@[b]) as int == span(
                        self.scores(),
                        i + 1,
                        b,
                    ),
                decreases lim - m,
            {
                proof {
                    assert(self.pickups@[i + 1 + m].removed_times <= MAX_EJECTIONS);
                    assert((m + 1) * MAX_EJECTIONS == m * MAX_EJECTIONS + MAX_EJECTIONS)
                        by (nonlinear_arith);
                    assert(m * MAX_EJECTIONS <= 10 * MAX_EJECTIONS) by (nonlinear_arith)
                        requires
                            m <= 10,
                    ;
                    assert(span(self.scores(), i + 1, m + 1) == span(self.scores(), i + 1, m as int)
                        + self.scores()[i + 1 + m]);
                }
                acc += self.pickups[i + 1 + m].removed_times;
                m += 1;
                row[m] = acc;
            }
            let ghost before = self.sum_of_next@;
            self.sum_of_next[i] = row;
            proof {
                assert forall|a: int, mm: int|
                    0 <= a < i + 1 && 0 <= mm <= self.k && a + mm < pickup implies (
                #[trigger] self.sum_of_next@[a]@[mm]) as int == span(self.scores(), a + 1, mm) by {
                    if a < i {
                        assert(self.sum_of_next@[a] == before[a]);
                    } else {
                        assert(mm <= lim);
                    }
                }
            }
            i += 1;
        }
    }

    /// Sets the subset to the first `k` catalog positions, the guard
    /// behind them, and records its total.
    fn initialize_combination_indices(&mut self)
        requires
            old(self).k <= K_MAX,
            old(self).quiet(),
        ensures
            final(self).k == old(self).k,
            final(self).route_len == old(self).route_len,
            final(self).route == old(self).route,
            final(self).route_position == old(self).route_position,
            final(self).pickups == old(self).pickups,
            final(self).sum_of_next == old(self).sum_of_next,
            forall|i: int| 0 <= i < final(self).k ==> #[trigger] final(self).combination_indices2@[i] == i,
            final(self).route_len >= 2 ==> final(self).combination_indices2@[final(self).k as int]
                == final(self).held(),
            forall|i: int|
                final(self).k < i <= K_MAX ==> #[trigger] final(self).combination_indices2@[i]
                    == UNSERVED,
            final(self).cur_removed_times_total as int == total_from(
                final(self).scores(),
                final(self).picked(),
                0,
                final(self).k as int,
            ),
    {
        self.set_initial_position_of_indices();
        self.set_k_plus_1_guard_value();
        self.fill_rest_of_combination_indices();
        self.initialize_removed_times_sum();
    }

    /// Sets the first `k` indices to the positions `0..k`.
    fn set_initial_position_of_indices(&mut self)
        requires
            old(self).k <= K_MAX,
        ensures
            final(self).k == old(self).k,
            final(self).route_len == old(self).route_len,
            final(self).route == old(self).route,
            final(self).route_position == old(self).route_position,
            final(self).pickups == old(self).pickups,
            final(self).sum_of_next == old(self).sum_of_next,
            final(self).cur_removed_times_total == old(self).cur_removed_times_total,
            forall|i: int| 0 <= i < final(self).k ==> #[trigger] final(self).combination_indices2@[i] == i,
    {
        let mut i: usize = 0;
        while i < self.k
            invariant
                self.k <= K_MAX,
                0 <= i <= self.k,
                self.k == old(self).k,
                self.route_len == old(self).route_len,
                self.route == old(self).route,
                self.route_position == old(self).route_position,
                self.pickups == old(self).pickups,
                self.sum_of_next == old(self).sum_of_next,
                self.cur_removed_times_total == old(self).cur_removed_times_total,
                forall|j: int| 0 <= j < i ==> #[trigger] self.combination_indices2@[j] == j,
            decreases self.k - i,
        {
            self.combination_indices2[i] = i;
            i += 1;
        }
    }

    /// Sets the guard behind the subset to the size of the catalog.
    fn set_k_plus_1_guard_value(&mut self)
        requires
            old(self).k <= K_MAX,
        ensures
            final(self).k == old(self).k,
            final(self).route_len == old(self).route_len,
            final(self).route == old(self).route,
            final(self).route_position == old(self).route_position,
            final(self).pickups == old(self).pickups,
            final(self).sum_of_next == old(self).sum_of_next,
            final(self).cur_removed_times_total == old(self).cur_removed_times_total,
            final(self).combination_indices2@ == old(self).combination_indices2@.update(
                old(self).k as int,
                if old(self).route_len >= 2 {
                    ((old(self).route_len - 2) / 2) as usize
                } else {
                    0usize
                },
            ),
    {
        self.combination_indices2[self.k] = if self.route_len >= 2 {
            (self.route_len - 2) / 2
        } else {
            0
        };
    }

    /// Sets the indices behind the guard to the size of the catalog.
    fn fill_rest_of_combination_indices(&mut self)
        requires
            old(self).k <= K_MAX,
        ensures
            final(self).k == old(self).k,
            final(self).route_len == old(self).route_len,
            final(self).route == old(self).route,
            final(self).route_position == old(self).route_position,
            final(self).pickups == old(self).pickups,
            final(self).sum_of_next == old(self).sum_of_next,
            final(self).cur_removed_times_total == old(self).cur_removed_times_total,
            forall|i: int|
                0 <= i <= final(self).k ==> #[trigger] final(self).combination_indices2@[i] == old(
                    self).combination_indices2@[i],
            forall|i: int|
                final(self).k < i <= K_MAX ==> #[trigger] final(self).combination_indices2@[i]
                    == UNSERVED,
    {
        let mut i: usize = self.k + 1;
        while i <= K_MAX
            invariant
                self.k <= K_MAX,
                self.k + 1 <= i <= K_MAX + 1,
                self.k == old(self).k,
                self.route_len == old(self).route_len,
                self.route == old(self).route,
                self.route_position == old(self).route_position,
                self.pickups == old(self).pickups,
                self.sum_of_next == old(self).sum_of_next,
                self.cur_removed_times_total == old(self).cur_removed_times_total,
                forall|j: int|
                    0 <= j <= self.k ==> #[trigger] self.combination_indices2@[j] == old(
                        self).combination_indices2@[j],
                forall|j: int| self.k < j < i ==> #[trigger] self.combination_indices2@[j] == UNSERVED,
            decreases K_MAX + 1 - i,
        {
            self.combination_indices2[i] = UNSERVED;
            i += 1;
        }
    }

    /// Records the total ejection count of the first subset.
    fn initialize_removed_times_sum(&mut self)
        requires
            old(self).k <= K_MAX,
            old(self).quiet(),
            forall|i: int| 0 <= i < old(self).k ==> #[trigger] old(self).combination_indices2@[i] == i,
        ensures
            final(self).k == old(self).k,
            final(self).route_len == old(self).route_len,
            final(self).route == old(self).route,
            final(self).route_position == old(self).route_position,
            final(self).pickups == old(self).pickups,
            final(self).sum_of_next == old(self).sum_of_next,
            final(self).combination_indices2 == old(self).combination_indices2,
            final(self).cur_removed_times_total as int == total_from(
                final(self).scores(),
                final(self).picked(),
                0,
                final(self).k as int,
            ),
    {
        let mut sum: u64 = 0;
        let mut i: usize = self.k;
        while i > 0
            invariant
                self.k <= K_MAX,
                self.quiet(),
                0 <= i <= self.k,
                *self == *old(self),
                forall|j: int| 0 <= j < self.k ==> #[trigger] self.combination_indices2@[j] == j,
                sum as int == total_from(self.scores(), self.picked(), i as int, self.k as int),
                sum <= (self.k - i) * MAX_EJECTIONS,
            decreases i,
        {
            i -= 1;
            proof {
                assert(self.combination_indices2@[i as int] == i);
                assert(self.picked()[i as int] == i);
                assert(self.pickups@[i as int].removed_times <= MAX_EJECTIONS);
                assert((self.k - i) * MAX_EJECTIONS == (self.k - i - 1) * MAX_EJECTIONS
                    + MAX_EJECTIONS) by (nonlinear_arith);
                assert((self.k - i) * MAX_EJECTIONS <= 10 * MAX_EJECTIONS) by (nonlinear_arith)
                    requires
                        0 <= self.k - i <= 10,
                ;
            }
            sum += self.pickups[self.combination_indices2[i]].removed_times;
        }
        self.cur_removed_times_total = sum;
    }
    /// From the index `from` on every index of the subset is the direct
    /// predecessor of the next one, the guard included: none of them can be
    /// raised.
    pub open spec fn stuck(&self, from: int) -> bool {
        forall|j: int|
            from <= j < self.k ==> (#[trigger] self.combination_indices2@[j]) + 1
                == self.combination_indices2@[j + 1]
    }

    /// Indices that cannot be raised fill the end of the catalog.
    pub proof fn lemma_stuck_tail(&self, from: int)
        requires
            self.ordered(),
            0 <= from <= self.k,
            self.stuck(from),
        ensures
            self.combination_indices2@[from] == self.held() - (self.k - from),
        decreases self.k - from,
    {
        if from < self.k {
            assert(self.combination_indices2@[from] + 1 == self.combination_indices2@[from + 1]);
            self.lemma_stuck_tail(from + 1);
        }
    }

    /// What raising the index `i` does to the total: the indices before `i`
    /// keep their share, and the rest is the sum recorded for the position
    /// of `i`.
    pub proof fn lemma_raise_total(&self, i: int)
        requires
            self.ordered(),
            self.holds_sums(),
            self.quiet(),
            0 <= i < self.k,
            self.stuck(i + 1),
            self.combination_indices2@[i] + 1 != self.combination_indices2@[i + 1],
        ensures
            self.combination_indices2@[i] + (self.k - i) < self.held(),
            total_from(
                self.scores(),
                raised(self.combination_indices2@, i, self.k as int),
                0,
                self.k as int,
            ) == total_from(self.scores(), self.combination_indices2@, 0, i)
                + self.sum_of_next@[self.combination_indices2@[i] as int]@[self.k - i],
            self.cur_removed_times_total == total_from(
                self.scores(),
                self.combination_indices2@,
                0,
                i,
            ) + total_from(self.scores(), self.combination_indices2@, i, self.k as int),
            0 <= total_from(self.scores(), self.combination_indices2@, 0, i),
            total_from(
                self.scores(),
                raised(self.combination_indices2@, i, self.k as int),
                0,
                self.k as int,
            ) <= 10 * MAX_EJECTIONS,
    {
        let c = self.combination_indices2@;
        let scores = self.scores();
        let k = self.k as int;
        let n = self.held();
        let c2 = raised(c, i, k);
        self.lemma_indices_in_range();
        self.lemma_stuck_tail(i + 1);
        assert(c[i] < c[i + 1]);
        assert(c[i] + (k - i) < n);
        assert(self.sum_of_next@[c[i] as int]@[k - i] as int == span(scores, c[i] + 1, k - i));
        assert(self.picked() == c.take(k));
        lemma_total_same(scores, self.picked(), c, 0, k);
        lemma_total_split(scores, c, 0, i, k);
        lemma_total_split(scores, c2, 0, i, k);
        lemma_total_same(scores, c, c2, 0, i);
        lemma_total_span(scores, c2, i, k, c[i] + 1);
        assert forall|j: int| 0 <= j < k implies 0 <= c2[j] < scores.len() && scores[c2[j] as int]
            <= MAX_EJECTIONS by {
            if j < i {
                assert(c[j] < n);
            }
            assert(self.pickups@[c2[j] as int].removed_times <= MAX_EJECTIONS);
        }
        assert forall|j: int| 0 <= j < i implies 0 <= c[j] < scores.len() && scores[c[j] as int]
            <= MAX_EJECTIONS by {
            assert(c[j] < n);
            assert(self.pickups@[c[j] as int].removed_times <= MAX_EJECTIONS);
        }
        lemma_total_bound(scores, c2, 0, k, MAX_EJECTIONS as int);
        lemma_total_bound(scores, c, 0, i, MAX_EJECTIONS as int);
        assert(k * MAX_EJECTIONS <= 10 * MAX_EJECTIONS) by (nonlinear_arith)
            requires
                0 <= k <= 10,
        ;
    }

    /// Every index of the subset is a position of the catalog.
    pub proof fn lemma_indices_in_range(&self)
        requires
            self.ordered(),
        ensures
            forall|j: int| 0 <= j < self.k ==> 0 <= #[trigger] self.combination_indices2@[j] < self.held(),
    {
        assert forall|j: int| 0 <= j < self.k implies 0 <= #[trigger] self.combination_indices2@[j]
            < self.held() by {
            self.lemma_index_below(j);
        }
    }

    /// An index of the subset leaves room for the indices behind it.
    pub proof fn lemma_index_below(&self, j: int)
        requires
            self.ordered(),
            0 <= j <= self.k,
        ensures
            self.combination_indices2@[j] <= self.held() - (self.k - j),
        decreases self.k - j,
    {
        if j < self.k {
            self.lemma_index_below(j + 1);
            assert(self.combination_indices2@[j] < self.combination_indices2@[j + 1]);
        }
    }

    /// Raises the index `i` by one and sets the indices behind it to its
    /// direct successors; `new_sum` is the total of the new subset.
    fn raise(&mut self, i: usize, new_sum: u64)
        requires
            old(self).ordered(),
            i < old(self).k,
            old(self).combination_indices2@[i as int] + (old(self).k - i) < old(self).held(),
            new_sum as int == total_from(
                old(self).scores(),
                raised(old(self).combination_indices2@, i as int, old(self).k as int),
                0,
                old(self).k as int,
            ),
        ensures
            final(self).ordered(),
            final(self).k == old(self).k,
            final(self).route_len == old(self).route_len,
            final(self).route == old(self).route,
            final(self).route_position == old(self).route_position,
            final(self).pickups == old(self).pickups,
            final(self).sum_of_next == old(self).sum_of_next,
            final(self).combination_indices2@ == raised(
                old(self).combination_indices2@,
                i as int,
                old(self).k as int,
            ),
            final(self).cur_removed_times_total == new_sum,
    {
        let ghost c = self.combination_indices2@;
        let ghost k = self.k as int;
        let ghost n = self.held();
        let ith = self.combination_indices2[i];
        let mut j: usize = i;
        while j < self.k
            invariant
                i <= j <= k,
                k == self.k,
                k <= K_MAX,
                ith == c[i as int],
                ith + (k - i) < n,
                n <= HALF,
                self.route_len == old(self).route_len,
                self.route == old(self).route,
                self.route_position == old(self).route_position,
                self.pickups == old(self).pickups,
                self.sum_of_next == old(self).sum_of_next,
                self.cur_removed_times_total == old(self).cur_removed_times_total,
                self.combination_indices2@.len() == c.len(),
                forall|m: int|
                    0 <= m < c.len() ==> #[trigger] self.combination_indices2@[m] == if i <= m < j {
                        (ith + 1 + (m - i)) as usize
                    } else {
                        c[m]
                    },
            decreases k - j,
        {
            self.combination_indices2[j] = ith + (j - i) + 1;
            j += 1;
        }
        self.cur_removed_times_total = new_sum;
        proof {
            let c2 = raised(c, i as int, k);
            assert(self.combination_indices2@ =~= c2);
            assert(self.picked() == c2.take(k));
            lemma_total_same(old(self).scores(), self.picked(), c2, 0, k);
            assert(self.scores() == old(self).scores());
            assert forall|m: int| 0 <= m < self.k implies (#[trigger] self.combination_indices2@[m])
                < self.combination_indices2@[m + 1] by {
                if m < i {
                    assert(c[m] < c[m + 1]);
                }
            }
        }
    }

    /// Only the last index that is not the direct predecessor of the next
    /// one can be raised.
    pub proof fn lemma_one_pivot(&self, i: int, m: int)
        requires
            0 <= i < self.k,
            0 <= m < self.k,
            self.stuck(i + 1),
            self.stuck(m + 1),
            self.combination_indices2@[i] + 1 != self.combination_indices2@[i + 1],
            self.combination_indices2@[m] + 1 != self.combination_indices2@[m + 1],
        ensures
            m == i,
    {
        if m < i {
            assert(self.combination_indices2@[i] + 1 == self.combination_indices2@[i + 1]);
        } else if m > i {
            assert(self.combination_indices2@[m] + 1 == self.combination_indices2@[m + 1]);
        }
    }

    /// Moves on to the next subset in lexicographic order if its total
    /// ejection count is below `target_score`: the last index that can be
    /// raised is raised by one and the indices behind it follow it directly.
    /// Returns whether it moved; when no index can be raised or the total
    /// would reach the target, the subset stays as it is.
    pub fn next_combination_with_lower_score(&mut self, target_score: u64) -> (r: bool)
        requires
            old(self).ordered(),
            old(self).holds_sums(),
            old(self).quiet(),
        ensures
            final(self).ordered(),
            final(self).k == old(self).k,
            final(self).route_len == old(self).route_len,
            final(self).route == old(self).route,
            final(self).route_position == old(self).route_position,
            final(self).pickups == old(self).pickups,
            final(self).sum_of_next == old(self).sum_of_next,
            !r ==> final(self).combination_indices2 == old(self).combination_indices2 && final(
                self).cur_removed_times_total == old(self).cur_removed_times_total,
            old(self).stuck(0) ==> !r,
            !r ==> old(self).stuck(0) || exists|i: int|
                0 <= i < old(self).k && old(self).stuck(i + 1) && (
                #[trigger] old(self).combination_indices2@[i]) + 1 != old(self).combination_indices2@[i
                    + 1] && total_from(
                    old(self).scores(),
                    raised(old(self).combination_indices2@, i, old(self).k as int),
                    0,
                    old(self).k as int,
                ) >= target_score,
            r ==> exists|i: int|
                0 <= i < old(self).k && old(self).stuck(i + 1) && (
                #[trigger] old(self).combination_indices2@[i]) + 1 != old(self).combination_indices2@[i
                    + 1] && final(self).combination_indices2@ == raised(
                    old(self).combination_indices2@,
                    i,
                    old(self).k as int,
                ),
            forall|i: int|
                0 <= i < old(self).k && old(self).stuck(i + 1) && (
                #[trigger] old(self).combination_indices2@[i]) + 1 != old(self).combination_indices2@[i
                    + 1] ==> {
                    let c2 = raised(old(self).combination_indices2@, i, old(self).k as int);
                    let t2 = total_from(old(self).scores(), c2, 0, old(self).k as int);
                    &&& r == (t2 < target_score)
                    &&& r ==> final(self).combination_indices2@ == c2 && final(
                        self).cur_removed_times_total == t2
                },
    {
        let ghost c = self.combination_indices2@;
        let ghost scores = self.scores();
        let ghost k = self.k as int;
        let mut sub: u64 = 0;
        let mut i: usize = self.k;
        proof {
            self.lemma_indices_in_range();
        }
        while i > 0
            invariant
                *self == *old(self),
                self.ordered(),
                self.holds_sums(),
                self.quiet(),
                c == self.combination_indices2@,
                scores == self.scores(),
                k == self.k,
                0 <= i <= k,
                self.stuck(i as int),
                sub as int == total_from(scores, c, i as int, k),
                0 <= sub <= (k - i) * MAX_EJECTIONS,
                forall|j: int| 0 <= j < k ==> 0 <= #[trigger] c[j] < self.held(),
            decreases i,
        {
            i -= 1;
            proof {
                assert(c[i as int] < self.held());
                assert(self.pickups@[c[i as int] as int].removed_times <= MAX_EJECTIONS);
                assert((k - i) * MAX_EJECTIONS == (k - i - 1) * MAX_EJECTIONS + MAX_EJECTIONS)
                    by (nonlinear_arith);
                assert((k - i) * MAX_EJECTIONS <= 10 * MAX_EJECTIONS) by (nonlinear_arith)
                    requires
                        0 <= k - i <= 10,
                ;
            }
            sub += self.pickups[self.combination_indices2[i]].removed_times;
            if self.combination_indices2[i] + 1 != self.combination_indices2[i + 1] {
                proof {
                    self.lemma_raise_total(i as int);
                    assert forall|m: int|
                        0 <= m < k && old(self).stuck(m + 1) && (#[trigger] c[m]) + 1 != c[m + 1] implies m
                        == i by {
                        self.lemma_one_pivot(i as int, m);
                    }
                }
                let new_sum = self.cur_removed_times_total - sub
                    + self.sum_of_next[self.combination_indices2[i]][self.k - i];

                if new_sum < target_score {
                    self.raise(i, new_sum);
                    return true;
                } else {
                    return false;
                }
            }
        }

        false
    }
    /// The records fit together without reference to the solution they were
    /// taken from: the route lies between two depot entries, its nodes are
    /// distinct and know their own position and that of their partner, and
    /// the catalog holds records of the route.
    pub open spec fn coherent(&self) -> bool {
        &&& 2 <= self.route_len <= PTS
        &&& self.held() <= HALF
        &&& !self.route@[self.route_len - 1].delivery
        &&& self.route@[self.route_len - 1].id == 0
        &&& forall|q: int|
            1 <= q < self.route_len - 1 ==> {
                let e = #[trigger] self.route@[q];
                &&& e.idx == q
                &&& e.id != 0
                &&& 1 <= e.pair_idx < self.route_len - 1
                &&& e.pair_idx != q
            }
        &&& forall|q: int, w: int|
            1 <= q < self.route_len - 1 && 1 <= w < self.route_len - 1 && q != w ==> (
            #[trigger] self.route@[q]).id != (#[trigger] self.route@[w]).id
        &&& forall|q: int|
            1 <= q < self.route_len - 1 ==> {
                let w = (#[trigger] self.route@[q]).pair_idx as int;
                &&& self.route@[w].pair_idx == q
                &&& self.route@[w].delivery != self.route@[q].delivery
            }
        &&& forall|i: int|
            0 <= i < self.held() ==> {
                let e = #[trigger] self.pickups@[i];
                &&& 1 <= e.idx < self.route_len - 1
                &&& e == self.route@[e.idx as int]
                &&& !e.delivery
            }
        &&& forall|i: int, j: int|
            0 <= i < self.held() && 0 <= j < self.held() && i != j ==> (#[trigger] self.pickups@[i]).idx
                != (#[trigger] self.pickups@[j]).idx
    }

    /// A loaded generator is coherent.
    pub proof fn lemma_loaded_coherent(&self, sol: &Sol, start: usize)
        requires
            sol.wf(),
            sol@.has(start),
            self.loaded(sol, start),
        ensures
            self.coherent(),
    {
        let l = sol@;
        let s = l.tours[start];
        sol.lemma_route_shape(start);
        assert forall|q: int| 1 <= q < self.route_len - 1 implies {
            let e = #[trigger] self.route@[q];
            &&& e.idx == q
            &&& e.id != 0
            &&& 1 <= e.pair_idx < self.route_len - 1
            &&& e.pair_idx != q
        } by {
            let v = l.tours[start][q - 1];
            assert(self.route@[q] == info_of(sol, s[q - 1]));
            assert(l.served(v));
            assert(mated(l, sol.data, v));
            let w = sol.data.pair(v as int) as usize;
            assert(l.served(w));
            assert(l.tour_of(w) == s);
        }
        assert forall|q: int, w: int|
            1 <= q < self.route_len - 1 && 1 <= w < self.route_len - 1 && q != w implies (
        #[trigger] self.route@[q]).id != (#[trigger] self.route@[w]).id by {
            assert(self.route@[q] == info_of(sol, s[q - 1]));
            assert(self.route@[w] == info_of(sol, s[w - 1]));
            assert(s[q - 1] != s[w - 1]);
        }
        assert forall|i: int| 0 <= i < self.held() implies {
            let e = #[trigger] self.pickups@[i];
            &&& 1 <= e.idx < self.route_len - 1
            &&& e == self.route@[e.idx as int]
            &&& !e.delivery
        } by {
            let e = self.pickups@[i];
            assert(sol.on_route(e.id, start));
            let q = l.slot[e.id];
            assert(s[q] == e.id);
            assert(self.route@[q + 1] == info_of(sol, s[(q + 1) - 1]));
        }
        assert forall|q: int| 1 <= q < self.route_len - 1 implies {
            let w = (#[trigger] self.route@[q]).pair_idx as int;
            &&& self.route@[w].pair_idx == q
            &&& self.route@[w].delivery != self.route@[q].delivery
        } by {
            let v = l.tours[start][q - 1];
            assert(self.route@[q] == info_of(sol, s[q - 1]));
            assert(l.served(v));
            assert(mated(l, sol.data, v));
            assert(sol.data.customer(v as int));
            assert(sol.data.pair_ok(v as int));
            let u = sol.data.pair(v as int) as usize;
            assert(l.served(u));
            assert(l.tour_of(u) == s);
            let w = l.slot[u] + 1;
            assert(s[w - 1] == u);
            assert(self.route@[w] == info_of(sol, s[w - 1]));
        }
        assert forall|i: int, j: int|
            0 <= i < self.held() && 0 <= j < self.held() && i != j implies (
        #[trigger] self.pickups@[i]).idx != (#[trigger] self.pickups@[j]).idx by {
            let a = self.pickups@[i];
            let b = self.pickups@[j];
            assert(a == info_of(sol, a.id));
            assert(b == info_of(sol, b.id));
            assert(a.id != b.id);
            assert(sol.on_route(a.id, start));
            assert(sol.on_route(b.id, start));
            assert(s[l.slot[a.id]] == a.id);
            assert(s[l.slot[b.id]] == b.id);
        }
    }

    /// The current subset ejects the route position `q`: the position holds
    /// one of the chosen pickups or its delivery.
    pub open spec fn skips(&self, q: int) -> bool {
        exists|i: int|
            0 <= i < self.k && (q == (#[trigger] self.pickups@[self.combination_indices2@[i] as int]).idx
                || q == self.pickups@[self.combination_indices2@[i] as int].pair_idx)
    }

    /// The current subset ejects the node `x`: it is one of the chosen
    /// pickups or the delivery of one.
    pub open spec fn ejects(&self, x: usize) -> bool {
        exists|i: int|
            0 <= i < self.k && (x == (#[trigger] self.pickups@[self.combination_indices2@[i] as int]).id
                || x == self.route@[self.pickups@[self.combination_indices2@[i] as int].pair_idx as int].id)
    }

    /// The ids at the route positions `1..i` that the current subset does
    /// not eject, in route order.
    pub open spec fn kept_upto(&self, i: int) -> Seq<usize>
        decreases i,
    {
        if i <= 1 {
            Seq::empty()
        } else if self.ejects(self.route@[i - 1].id) {
            self.kept_upto(i - 1)
        } else {
            self.kept_upto(i - 1).push(self.route@[i - 1].id)
        }
    }

    /// Whether the current subset ejects the node `x`.
    pub fn is_removed(&self, x: usize) -> (r: bool)
        requires
            self.ordered(),
            self.coherent(),
        ensures
            r == self.ejects(x),
    {
        proof {
            self.lemma_indices_in_range();
        }
        let mut i: usize = 0;
        while i < self.k
            invariant
                self.ordered(),
                self.coherent(),
                0 <= i <= self.k,
                forall|j: int| 0 <= j < self.k ==> 0 <= #[trigger] self.combination_indices2@[j] < self.held(),
                forall|j: int|
                    0 <= j < i ==> x != (#[trigger] self.pickups@[self.combination_indices2@[j] as int]).id
                        && x != self.route@[self.pickups@[self.combination_indices2@[j] as int].pair_idx as int].id,
            decreases self.k - i,
        {
            proof {
                let e = self.pickups@[self.combination_indices2@[i as int] as int];
                assert(e == self.route@[e.idx as int]);
            }
            let pickup = self.pickups[self.combination_indices2[i]];
            let delivery = self.route[pickup.pair_idx].id;

            if x == pickup.id || x == delivery {
                return true;
            }
            i += 1;
        }

        return false;
    }

    /// The route without the pairs that the current subset ejects, followed
    /// by the depot.
    pub fn r(&self) -> (r: Vec<usize>)
        requires
            self.ordered(),
            self.coherent(),
        ensures
            r@ == self.kept_upto(self.route_len as int),
    {
        let mut out: Vec<usize> = Vec::new();
        let mut i: usize = 1;
        while i < self.route_len
            invariant
                self.ordered(),
                self.coherent(),
                1 <= i <= self.route_len,
                out@ == self.kept_upto(i as int),
            decreases self.route_len - i,
        {
            let id = self.route[i].id;
            if !self.is_removed(id) {
                out.push(id);
            }
            i += 1;
        }
        out
    }

    /// The ids of the pickups that the current subset ejects.
    pub fn removed(&self) -> (r: Vec<usize>)
        requires
            self.ordered(),
        ensures
            r@.len() == self.k,
            forall|i: int|
                0 <= i < self.k ==> #[trigger] r@[i] == self.pickups@[self.combination_indices2@[i] as int].id,
    {
        proof {
            self.lemma_indices_in_range();
        }
        let mut out: Vec<usize> = Vec::new();
        let mut i: usize = 0;
        while i < self.k
            invariant
                self.ordered(),
                0 <= i <= self.k,
                forall|j: int| 0 <= j < self.k ==> 0 <= #[trigger] self.combination_indices2@[j] < self.held(),
                out@.len() == i,
                forall|j: int|
                    0 <= j < i ==> #[trigger] out@[j] == self.pickups@[self.combination_indices2@[j] as int].id,
            decreases self.k - i,
        {
            out.push(self.pickups[self.combination_indices2[i]].id);
            i += 1;
        }
        out
    }

    /// The first position behind `idx` that holds no delivery.
    pub fn next_pickup_after(&self, idx: usize) -> (r: usize)
        requires
            idx + 1 < self.route_len <= PTS,
            !self.route@[self.route_len - 1].delivery,
        ensures
            idx < r < self.route_len,
            !self.route@[r as int].delivery,
            forall|q: int| idx < q < r ==> (#[trigger] self.route@[q]).delivery,
    {
        let mut at = idx + 1;

        while self.route[at].delivery
            invariant
                idx < at < self.route_len <= PTS,
                !self.route@[self.route_len - 1].delivery,
                forall|q: int| idx < q < at ==> (#[trigger] self.route@[q]).delivery,
            decreases self.route_len - at,
        {
            at += 1
        }

        at
    }

    /// The current subset, as positions in the catalog.
    pub fn removed_idxs(&self) -> (r: &[usize])
        requires
            self.k <= K_MAX,
        ensures
            r@ == self.picked(),
    {
        let r = &self.combination_indices2[0..self.k];
        proof {
            assert(r@ =~= self.picked());
        }
        r
    }

    /// The whole catalog array.
    pub fn pickups(&self) -> (r: &[PairInfo])
        ensures
            r@ == self.pickups@,
    {
        self.pickups.as_slice()
    }
    /// The ids of the pickups of the current subset, then zeros.
    pub open spec fn subset_ids(&self) -> Seq<usize> {
        Seq::new(
            K_MAX as nat,
            |i: int|
                if i < self.k {
                    self.pickups@[self.combination_indices2@[i] as int].id
                } else {
                    0usize
                },
        )
    }

    /// The ids of the `k` least ejected pickups of the catalog, then zeros.
    pub open spec fn first_ids(&self) -> Seq<usize> {
        Seq::new(
            K_MAX as nat,
            |i: int|
                if i < self.k {
                    self.pickups@[i].id
                } else {
                    0usize
                },
        )
    }

    /// The subset of the positions `0..k` is that of the `k` least ejected
    /// pickups, and its total is the sum of their counts.
    pub proof fn lemma_first_subset(&self)
        requires
            self.ordered(),
            forall|i: int| 0 <= i < self.k ==> #[trigger] self.combination_indices2@[i] == i,
        ensures
            self.subset_ids() == self.first_ids(),
            self.cur_removed_times_total == span(self.scores(), 0, self.k as int),
    {
        let c = self.combination_indices2@;
        let k = self.k as int;
        assert(self.picked() == c.take(k));
        lemma_total_same(self.scores(), self.picked(), c, 0, k);
        lemma_total_span(self.scores(), c, 0, k, 0);
        assert(self.subset_ids() =~= self.first_ids());
    }

    /// `removed` lists the ids of the pickups of the current subset, then
    /// zeros.
    pub open spec fn listed_in(&self, removed: Seq<usize>) -> bool {
        &&& removed.len() == K_MAX
        &&& forall|i: int|
            0 <= i < self.k ==> #[trigger] removed[i] == self.pickups@[self.combination_indices2@[i] as int].id
        &&& forall|i: int| self.k <= i < K_MAX ==> #[trigger] removed[i] == 0
    }

    /// A loaded generator ejects the nodes of the pairs of its subset: what
    /// it leaves of the route is the route without these nodes.
    pub proof fn lemma_kept_is_sift(&self, sol: &Sol, start: usize, removed: Seq<usize>)
        requires
            sol.wf(),
            sol@.has(start),
            self.loaded(sol, start),
            self.ordered(),
            self.listed_in(removed),
        ensures
            lists_pickups(sol@, sol.data, removed, start, K_MAX as int),
            self.kept_upto(self.route_len as int) == sift(
                sol@.tours[start],
                gone_set(sol.data, removed, K_MAX as int),
            ).push(0),
            forall|i: int| 0 <= i < K_MAX && removed[i] != 0 ==> i < self.k,
    {
        let l = sol@;
        let data = sol.data;
        let s = l.tours[start];
        let g = gone_set(data, removed, K_MAX as int);
        self.lemma_indices_in_range();
        self.lemma_loaded_coherent(sol, start);
        sol.lemma_route_shape(start);
        assert forall|i: int| 0 <= i < self.k implies {
            let e = self.pickups@[self.combination_indices2@[i] as int];
            &&& #[trigger] removed[i] == e.id
            &&& sol.on_route(e.id, start)
            &&& !data.delivers(e.id as int)
            &&& e.id != 0
            &&& self.route@[e.pair_idx as int].id == data.pair(e.id as int)
        } by {
            let e = self.pickups@[self.combination_indices2@[i] as int];
            assert(e == info_of(sol, e.id));
            assert(mated(l, data, e.id));
            let w = data.pair(e.id as int) as usize;
            assert(l.served(w));
            assert(l.tour_of(w) == s);
            assert(s[l.slot[w]] == w);
            assert(self.route@[l.slot[w] + 1] == info_of(sol, s[(l.slot[w] + 1) - 1]));
        }
        assert forall|m1: int, m2: int| 0 <= m1 < m2 < K_MAX && removed[m1] != 0 implies #[trigger] removed[m1]
            != #[trigger] removed[m2] by {
            if m2 < self.k {
                assert(self.combination_indices2@[m1] < self.combination_indices2@[m2]) by {
                    self.lemma_increasing(m1, m2);
                }
                assert(self.pickups@[self.combination_indices2@[m1] as int].id
                    != self.pickups@[self.combination_indices2@[m2] as int].id);
            } else {
                assert(removed[m2] == 0);
            }
        }
        assert forall|x: usize| #[trigger] self.ejects(x) <==> g.contains(x) by {
            if self.ejects(x) {
                let i = choose|i: int|
                    0 <= i < self.k && (x == (#[trigger] self.pickups@[self.combination_indices2@[i] as int]).id
                        || x == self.route@[self.pickups@[self.combination_indices2@[i] as int].pair_idx as int].id);
                assert(removed[i] == self.pickups@[self.combination_indices2@[i] as int].id);
                assert(0 <= i < K_MAX && removed[i] != 0 && (x == removed[i] || x == data.pair(
                    removed[i] as int,
                ) as usize));
            }
            if g.contains(x) {
                let m = choose|m: int|
                    0 <= m < K_MAX && removed[m] != 0 && (x == #[trigger] removed[m] || x
                        == data.pair(removed[m] as int) as usize);
                assert(m < self.k);
                assert(removed[m] == self.pickups@[self.combination_indices2@[m] as int].id);
            }
        }
        assert(!self.ejects(0)) by {
            if g.contains(0) {
                let m = choose|m: int|
                    0 <= m < K_MAX && removed[m] != 0 && (0 == #[trigger] removed[m] || 0
                        == data.pair(removed[m] as int) as usize);
                assert(m < self.k);
                assert(data.customer(removed[m] as int));
                assert(data.pair_ok(removed[m] as int));
            }
        }
        self.lemma_kept_prefix(sol, start, g, s.len() as int + 1);
        assert(s.take(s.len() as int) =~= s);
        assert(self.route@[s.len() as int + 1].id == 0);
    }

    /// The indices of the subset increase.
    pub proof fn lemma_increasing(&self, a: int, b: int)
        requires
            self.ordered(),
            0 <= a < b <= self.k,
        ensures
            self.combination_indices2@[a] < self.combination_indices2@[b],
        decreases b - a,
    {
        if a + 1 < b {
            self.lemma_increasing(a, b - 1);
        }
        assert(self.combination_indices2@[b - 1] < self.combination_indices2@[b - 1 + 1]);
    }

    /// What the generator keeps of the first positions of the route is what
    /// is left of the first nodes of the route.
    pub proof fn lemma_kept_prefix(&self, sol: &Sol, start: usize, g: Set<usize>, i: int)
        requires
            self.holds_route(sol, start),
            forall|x: usize| #[trigger] self.ejects(x) <==> g.contains(x),
            1 <= i <= sol@.tours[start].len() + 1,
        ensures
            self.kept_upto(i) == sift(sol@.tours[start].take(i - 1), g),
        decreases i,
    {
        let s = sol@.tours[start];
        if i > 1 {
            self.lemma_kept_prefix(sol, start, g, i - 1);
            assert(self.route@[i - 1] == info_of(sol, s[(i - 1) - 1]));
            assert(s.take(i - 1).drop_last() =~= s.take(i - 2));
            assert(s.take(i - 1).last() == s[i - 2]);
        }
    }

    /// A move to the next subset is a step forward in lexicographic order:
    /// some index has grown by one, within the catalog, and the indices
    /// before it are as they were.
    pub proof fn lemma_progress(&self, next: &Combinations)
        requires
            self.ordered(),
            self.holds_sums(),
            self.quiet(),
            next.k == self.k,
            next.route_len == self.route_len,
            exists|i: int|
                0 <= i < self.k && self.stuck(i + 1) && (#[trigger] self.combination_indices2@[i]) + 1
                    != self.combination_indices2@[i + 1] && next.combination_indices2@ == raised(
                    self.combination_indices2@,
                    i,
                    self.k as int,
                ),
        ensures
            exists|i: int|
                0 <= i < self.k && i < 10 && (#[trigger] next.combination_indices2@[i])
                    == self.combination_indices2@[i] + 1 && next.combination_indices2@[i] < self.held()
                    && forall|j: int| 0 <= j < i ==> next.combination_indices2@[j] == (
                #[trigger] self.combination_indices2@[j]),
    {
        let i = choose|i: int|
            0 <= i < self.k && self.stuck(i + 1) && (#[trigger] self.combination_indices2@[i]) + 1
                != self.combination_indices2@[i + 1] && next.combination_indices2@ == raised(
                self.combination_indices2@,
                i,
                self.k as int,
            );
        self.lemma_raise_total(i);
        let c = self.combination_indices2@;
        let c2 = next.combination_indices2@;
        assert(c2[i] == c[i] + 1);
        assert forall|j: int| 0 <= j < i implies c2[j] == #[trigger] c[j] by {}
    }

    /// A generator stays loaded when only its subset changes.
    pub proof fn lemma_loaded_same(&self, next: &Combinations, sol: &Sol, start: usize)
        requires
            self.loaded(sol, start),
            next.k == self.k,
            next.route_len == self.route_len,
            next.route == self.route,
            next.route_position == self.route_position,
            next.pickups == self.pickups,
            next.sum_of_next == self.sum_of_next,
        ensures
            next.loaded(sol, start),
    {
        assert(next.scores() == self.scores());
        assert(next.held() == self.held());
        assert(next.holds_route(sol, start));
        assert(next.holds_catalog(sol, start));
        assert forall|i: int, m: int|
            0 <= i < next.held() && 0 <= m <= next.k && i + m < next.held() implies (
        #[trigger] next.sum_of_next@[i]@[m]) as int == span(next.scores(), i + 1, m) by {
            assert(self.sum_of_next@[i]@[m] as int == span(self.scores(), i + 1, m));
        }
    }

    /// Raising the last index that can be raised gives the next subset in
    /// lexicographic order: the new subset comes behind the old one, and no
    /// subset lies between the two. With a target above every total the
    /// generator therefore visits every subset of `k` catalog positions
    /// once, in lexicographic order.
    pub proof fn lemma_next_in_order(&self, i: int, x: Seq<usize>)
        requires
            self.ordered(),
            0 <= i < self.k,
            self.stuck(i + 1),
            self.combination_indices2@[i] + 1 != self.combination_indices2@[i + 1],
            is_subset(x, self.k as int, self.held()),
        ensures
            is_subset(raised(self.combination_indices2@, i, self.k as int), self.k as int, self.held()),
            comes_before(
                self.combination_indices2@,
                raised(self.combination_indices2@, i, self.k as int),
                self.k as int,
            ),
            !(comes_before(self.combination_indices2@, x, self.k as int) && comes_before(
                x,
                raised(self.combination_indices2@, i, self.k as int),
                self.k as int,
            )),
    {
        let c = self.combination_indices2@;
        let k = self.k as int;
        let n = self.held();
        let c2 = raised(c, i, k);
        self.lemma_stuck_tail(i + 1);
        self.lemma_indices_in_range();
        assert(c[i] < c[i + 1]);
        assert(c2[i] == c[i] + 1);
        assert forall|j: int| 0 <= j < k implies #[trigger] c2[j] < n by {
            if j < i {
                assert(c[j] < n);
            }
        }
        assert forall|j: int| 0 <= j < k - 1 implies #[trigger] c2[j] < c2[j + 1] by {
            if j + 1 < i {
                assert(c[j] < c[j + 1]);
            } else if j + 1 == i {
                assert(c[j] < c[j + 1]);
            }
        }
        assert(differ_at(c, c2, i));
        if comes_before(c, x, k) && comes_before(x, c2, k) {
            let m = choose|m: int| 0 <= m < k && differ_at(c, x, m);
            let m2 = choose|m2: int| 0 <= m2 < k && differ_at(x, c2, m2);
            if m < i {
                if m2 < m {
                    assert(c[m2] == x[m2]);
                } else if m2 > m {
                    assert(x[m] == c2[m]);
                }
            } else if m == i {
                if m2 < i {
                    assert(c[m2] == x[m2]);
                } else if m2 > i {
                    assert(x[i] == c2[i]);
                    lemma_subset_spread(x, k, n, i, m2);
                }
            } else {
                self.lemma_stuck_tail(m);
                lemma_subset_spread(x, k, n, m, m);
            }
            assert(false);
        }
    }

    /// When no index can be raised the subset is the last one in
    /// lexicographic order.
    pub proof fn lemma_last_in_order(&self, x: Seq<usize>)
        requires
            self.ordered(),
            self.stuck(0),
            is_subset(x, self.k as int, self.held()),
        ensures
            !comes_before(self.combination_indices2@, x, self.k as int),
    {
        let c = self.combination_indices2@;
        let k = self.k as int;
        if comes_before(c, x, k) {
            let m = choose|m: int| 0 <= m < k && differ_at(c, x, m);
            assert(self.stuck(m)) by {
                assert forall|j: int| m <= j < self.k implies (
                #[trigger] self.combination_indices2@[j]) + 1 == self.combination_indices2@[j + 1] by {}
            }
            self.lemma_stuck_tail(m);
            lemma_subset_spread(x, k, self.held(), m, m);
            assert(false);
        }
    }

    /// The first subset, the positions `0..k`, comes before every other
    /// subset, or is that subset.
    pub proof fn lemma_first_in_order(k: int, n: int, first: Seq<usize>, x: Seq<usize>)
        requires
            is_subset(x, k, n),
            first.len() >= k,
            forall|i: int| 0 <= i < k ==> #[trigger] first[i] == i,
        ensures
            comes_before(first, x, k) || forall|i: int| 0 <= i < k ==> first[i] == #[trigger] x[i],
    {
        if !(forall|i: int| 0 <= i < k ==> first[i] == #[trigger] x[i]) {
            let m = Self::first_gap(k, first, x, 0);
            lemma_subset_spread(x, k, n, 0, m);
            assert(differ_at(first, x, m));
        }
    }

    /// The current subset is a subset of the catalog, and its recorded
    /// total is the total of its positions.
    pub proof fn lemma_current_subset(&self)
        requires
            self.ordered(),
        ensures
            is_subset(self.combination_indices2@, self.k as int, self.held()),
            self.cur_removed_times_total == total_from(
                self.scores(),
                self.combination_indices2@,
                0,
                self.k as int,
            ),
    {
        let c = self.combination_indices2@;
        let k = self.k as int;
        self.lemma_indices_in_range();
        assert(self.picked() == c.take(k));
        lemma_total_same(self.scores(), self.picked(), c, 0, k);
    }

    /// The search scans the first subset when its total is below the
    /// limit, and no subset comes before the first.
    pub proof fn lemma_visit_first(&self, target: int)
        requires
            self.ordered(),
            leads(self.combination_indices2@, self.k as int),
        ensures
            self.cur_removed_times_total < target ==> visited(
                self.scores(),
                self.k as int,
                self.held(),
                target,
                self.combination_indices2@,
            ),
            forall|x: Seq<usize>| #[trigger]
                is_subset(x, self.k as int, self.held()) ==> !comes_before(
                    x,
                    self.combination_indices2@,
                    self.k as int,
                ),
    {
        let c = self.combination_indices2@;
        let k = self.k as int;
        reveal(visited);
        self.lemma_current_subset();
        assert forall|x: Seq<usize>| #[trigger] is_subset(x, k, self.held()) implies !comes_before(
            x,
            c,
            k,
        ) by {
            assert forall|i: int| 0 <= i < k implies #[trigger] c[i] == i by {}
            Self::lemma_first_in_order(k, self.held(), c, x);
            lemma_order_strict(x, c, k);
            if !comes_before(c, x, k) {
                assert(agree(c, x, k));
            }
            lemma_order_strict(c, x, k);
        }
    }

    /// The subsets before the next subset are the current one and those
    /// before it.
    pub proof fn lemma_before_next(&self, i: int, x: Seq<usize>)
        requires
            self.ordered(),
            0 <= i < self.k,
            self.stuck(i + 1),
            self.combination_indices2@[i] + 1 != self.combination_indices2@[i + 1],
            is_subset(x, self.k as int, self.held()),
        ensures
            comes_before(x, raised(self.combination_indices2@, i, self.k as int), self.k as int)
                <==> comes_before(x, self.combination_indices2@, self.k as int) || agree(
                x,
                self.combination_indices2@,
                self.k as int,
            ),
    {
        let c = self.combination_indices2@;
        let k = self.k as int;
        let c2 = raised(c, i, k);
        self.lemma_next_in_order(i, x);
        lemma_order_total(x, c, k);
        if agree(x, c, k) {
            lemma_order_agree(x, c, c2, k);
        }
        if comes_before(x, c, k) {
            lemma_order_trans(x, c, c2, k);
        }
    }

    /// A subset before the next one, other than the first, has a total
    /// below the limit when the search scans the current subset or the
    /// current subset is the first.
    pub proof fn lemma_low_before_next(&self, i: int, target: int, y: Seq<usize>)
        requires
            self.ordered(),
            0 <= i < self.k,
            self.stuck(i + 1),
            self.combination_indices2@[i] + 1 != self.combination_indices2@[i + 1],
            visited(self.scores(), self.k as int, self.held(), target, self.combination_indices2@)
                || leads(self.combination_indices2@, self.k as int),
            is_subset(y, self.k as int, self.held()),
            comes_before(y, raised(self.combination_indices2@, i, self.k as int), self.k as int),
            !leads(y, self.k as int),
        ensures
            total_from(self.scores(), y, 0, self.k as int) < target,
    {
        let c = self.combination_indices2@;
        let k = self.k as int;
        let n = self.held();
        let scores = self.scores();
        reveal(visited);
        self.lemma_before_next(i, y);
        if agree(y, c, k) {
            if leads(c, k) {
                assert forall|j: int| 0 <= j < k implies #[trigger] y[j] == j by {
                    assert(y[j] == c[j]);
                }
            } else {
                lemma_total_same(scores, y, c, 0, k);
            }
        } else {
            if visited(scores, k, n, target, c) {
            } else {
                self.lemma_visit_first(target);
            }
        }
    }

    /// When the search moves from a subset that it scans, or from the first
    /// subset, to the next one, it scans that one too.
    pub proof fn lemma_visit_next(&self, i: int, target: int)
        requires
            self.ordered(),
            0 <= i < self.k,
            self.stuck(i + 1),
            self.combination_indices2@[i] + 1 != self.combination_indices2@[i + 1],
            total_from(
                self.scores(),
                raised(self.combination_indices2@, i, self.k as int),
                0,
                self.k as int,
            ) < target,
            visited(self.scores(), self.k as int, self.held(), target, self.combination_indices2@)
                || leads(self.combination_indices2@, self.k as int),
        ensures
            visited(
                self.scores(),
                self.k as int,
                self.held(),
                target,
                raised(self.combination_indices2@, i, self.k as int),
            ),
    {
        let c = self.combination_indices2@;
        let k = self.k as int;
        let n = self.held();
        let c2 = raised(c, i, k);
        let scores = self.scores();
        reveal(visited);
        assert(is_subset(c2, k, n)) by {
            self.lemma_current_subset();
            self.lemma_next_in_order(i, c);
        }
        assert forall|y: Seq<usize>|
            #[trigger] is_subset(y, k, n) && comes_before(y, c2, k) && !leads(y, k) implies total_from(
            scores,
            y,
            0,
            k,
        ) < target by {
            self.lemma_low_before_next(i, target, y);
        }
    }

    /// Nothing is scanned before the first subset.
    pub proof fn lemma_list_first(&self, target: int)
        requires
            self.ordered(),
            leads(self.combination_indices2@, self.k as int),
        ensures
            lists_before(
                self.scores(),
                self.k as int,
                self.held(),
                target,
                Seq::empty(),
                self.combination_indices2@,
            ),
    {
        reveal(lists_before);
        reveal(lists_all);
        let c = self.combination_indices2@;
        let k = self.k as int;
        assert forall|x: Seq<usize>|
            #[trigger] visited(self.scores(), k, self.held(), target, x) && comes_before(
                x,
                c,
                k,
            ) implies false by {
            lemma_visited_subset(self.scores(), k, self.held(), target, x);
            self.lemma_visit_first(target);
        }
    }

    /// The current subset and every choice before it come before the next
    /// subset.
    pub proof fn lemma_before_stays(&self, i: int, x: Seq<usize>)
        requires
            self.ordered(),
            0 <= i < self.k,
            self.stuck(i + 1),
            self.combination_indices2@[i] + 1 != self.combination_indices2@[i + 1],
        ensures
            comes_before(
                self.combination_indices2@,
                raised(self.combination_indices2@, i, self.k as int),
                self.k as int,
            ),
            comes_before(x, self.combination_indices2@, self.k as int) ==> comes_before(
                x,
                raised(self.combination_indices2@, i, self.k as int),
                self.k as int,
            ),
    {
        let c = self.combination_indices2@;
        let k = self.k as int;
        self.lemma_current_subset();
        self.lemma_next_in_order(i, c);
        if comes_before(x, c, k) {
            lemma_order_trans(x, c, raised(c, i, k), k);
        }
    }

    /// A subset that the search scans and that comes before the next subset
    /// is the current one or comes before it.
    pub proof fn lemma_scanned_before_next(&self, i: int, target: int, x: Seq<usize>)
        requires
            self.ordered(),
            0 <= i < self.k,
            self.stuck(i + 1),
            self.combination_indices2@[i] + 1 != self.combination_indices2@[i + 1],
            visited(self.scores(), self.k as int, self.held(), target, x),
            comes_before(x, raised(self.combination_indices2@, i, self.k as int), self.k as int),
        ensures
            comes_before(x, self.combination_indices2@, self.k as int) || agree(
                self.combination_indices2@,
                x,
                self.k as int,
            ),
            leads(self.combination_indices2@, self.k as int) ==> total_from(
                self.scores(),
                self.combination_indices2@,
                0,
                self.k as int,
            ) < target,
    {
        let c = self.combination_indices2@;
        let k = self.k as int;
        lemma_visited_subset(self.scores(), k, self.held(), target, x);
        self.lemma_before_next(i, x);
        if agree(x, c, k) {
            assert forall|j: int| 0 <= j < k implies c[j] == #[trigger] x[j] by {
                assert(x[j] == c[j]);
            }
            lemma_total_same(self.scores(), x, c, 0, k);
        }
        if leads(c, k) {
            self.lemma_visit_first(target);
        }
    }

    /// A subset that the search scans is either before the next subset's
    /// predecessor or that predecessor itself; so the list of what was
    /// scanned before the next subset is the list up to the current one,
    /// with the current one behind it.
    pub proof fn lemma_list_next(&self, i: int, target: int, xs: Seq<Seq<usize>>)
        requires
            self.ordered(),
            0 <= i < self.k,
            self.stuck(i + 1),
            self.combination_indices2@[i] + 1 != self.combination_indices2@[i + 1],
            visited(self.scores(), self.k as int, self.held(), target, self.combination_indices2@),
            lists_before(
                self.scores(),
                self.k as int,
                self.held(),
                target,
                xs,
                self.combination_indices2@,
            ),
        ensures
            lists_before(
                self.scores(),
                self.k as int,
                self.held(),
                target,
                xs.push(self.combination_indices2@),
                raised(self.combination_indices2@, i, self.k as int),
            ),
    {
        reveal(lists_before);
        reveal(lists_all);
        let c = self.combination_indices2@;
        let k = self.k as int;
        let n = self.held();
        let scores = self.scores();
        let c2 = raised(c, i, k);
        let ys = xs.push(c);
        assert forall|j: int| 0 <= j < ys.len() implies visited(scores, k, n, target, #[trigger] ys[j])
            && comes_before(ys[j], c2, k) by {
            self.lemma_before_stays(i, ys[j]);
            if j < xs.len() {
                assert(ys[j] == xs[j]);
            }
        }
        assert forall|a: int, b: int| 0 <= a < b < ys.len() implies comes_before(
            #[trigger] ys[a],
            #[trigger] ys[b],
            k,
        ) by {
            assert(ys[a] == xs[a]);
            if b < xs.len() {
                assert(ys[b] == xs[b]);
            }
        }
        assert forall|x: Seq<usize>|
            #[trigger] visited(scores, k, n, target, x) && comes_before(x, c2, k) implies exists|
            j: int,
        | 0 <= j < ys.len() && agree(#[trigger] ys[j], x, k) by {
            self.lemma_scanned_before_next(i, target, x);
            if comes_before(x, c, k) {
                let j = choose|j: int| 0 <= j < xs.len() && agree(#[trigger] xs[j], x, k);
                assert(ys[j] == xs[j]);
                assert(agree(ys[j], x, k));
            } else {
                assert(ys[xs.len() as int] == c);
                assert(agree(ys[xs.len() as int], x, k));
            }
        }
    }

    /// Where the search passes over the first subset and moves on, nothing
    /// was scanned before the second.
    pub proof fn lemma_list_skip(&self, i: int, target: int)
        requires
            self.ordered(),
            leads(self.combination_indices2@, self.k as int),
            self.cur_removed_times_total >= target,
            0 <= i < self.k,
            self.stuck(i + 1),
            self.combination_indices2@[i] + 1 != self.combination_indices2@[i + 1],
        ensures
            lists_before(
                self.scores(),
                self.k as int,
                self.held(),
                target,
                Seq::empty(),
                raised(self.combination_indices2@, i, self.k as int),
            ),
    {
        reveal(lists_before);
        reveal(lists_all);
        let c = self.combination_indices2@;
        let k = self.k as int;
        let n = self.held();
        let scores = self.scores();
        let c2 = raised(c, i, k);
        assert forall|x: Seq<usize>|
            #[trigger] visited(scores, k, n, target, x) && comes_before(x, c2, k) implies false by {
            self.lemma_scanned_before_next(i, target, x);
            self.lemma_skipped_first(target, x);
        }
    }

    /// Where the first subset has a total that is not below the limit, no
    /// subset that the search scans is the first or comes before it.
    pub proof fn lemma_skipped_first(&self, target: int, x: Seq<usize>)
        requires
            self.ordered(),
            leads(self.combination_indices2@, self.k as int),
            self.cur_removed_times_total >= target,
            visited(self.scores(), self.k as int, self.held(), target, x),
        ensures
            !comes_before(x, self.combination_indices2@, self.k as int),
            !agree(self.combination_indices2@, x, self.k as int),
            !agree(x, self.combination_indices2@, self.k as int),
    {
        let c = self.combination_indices2@;
        let k = self.k as int;
        lemma_visited_subset(self.scores(), k, self.held(), target, x);
        self.lemma_visit_first(target);
        self.lemma_current_subset();
        if agree(c, x, k) {
            assert forall|j: int| 0 <= j < k implies x[j] == c[j] by {
                assert(c[j] == x[j]);
            }
            lemma_total_same(self.scores(), x, c, 0, k);
        }
        if agree(x, c, k) {
            assert forall|j: int| 0 <= j < k implies x[j] == c[j] by {
                assert(x[j] == c[j]);
            }
            lemma_total_same(self.scores(), x, c, 0, k);
        }
    }

    /// Where the search stops after the current subset, which it scans, the
    /// list of what was scanned before it, with the current subset behind
    /// it, lists all that the search scans.
    pub proof fn lemma_list_end(&self, target: int, xs: Seq<Seq<usize>>)
        requires
            self.ordered(),
            self.stuck(0) || exists|i: int|
                0 <= i < self.k && self.stuck(i + 1) && (#[trigger] self.combination_indices2@[i]) + 1
                    != self.combination_indices2@[i + 1] && total_from(
                    self.scores(),
                    raised(self.combination_indices2@, i, self.k as int),
                    0,
                    self.k as int,
                ) >= target,
            visited(self.scores(), self.k as int, self.held(), target, self.combination_indices2@),
            lists_before(
                self.scores(),
                self.k as int,
                self.held(),
                target,
                xs,
                self.combination_indices2@,
            ),
        ensures
            lists_all(
                self.scores(),
                self.k as int,
                self.held(),
                target,
                xs.push(self.combination_indices2@),
            ),
    {
        reveal(lists_before);
        reveal(lists_all);
        let c = self.combination_indices2@;
        let k = self.k as int;
        let n = self.held();
        let scores = self.scores();
        let ys = xs.push(c);
        assert forall|j: int| 0 <= j < ys.len() implies visited(scores, k, n, target, #[trigger] ys[j]) by {
            if j < xs.len() {
                assert(ys[j] == xs[j]);
            }
        }
        assert forall|a: int, b: int| 0 <= a < b < ys.len() implies comes_before(
            #[trigger] ys[a],
            #[trigger] ys[b],
            k,
        ) by {
            assert(ys[a] == xs[a]);
            if b < xs.len() {
                assert(ys[b] == xs[b]);
            }
        }
        assert forall|x: Seq<usize>| #[trigger] visited(scores, k, n, target, x) implies exists|j: int|
            0 <= j < ys.len() && agree(#[trigger] ys[j], x, k) by {
            self.lemma_scanned_up_to_here(target, x);
            if comes_before(x, c, k) {
                let j = choose|j: int| 0 <= j < xs.len() && agree(#[trigger] xs[j], x, k);
                assert(ys[j] == xs[j]);
                assert(agree(ys[j], x, k));
            } else {
                assert forall|j: int| 0 <= j < k implies c[j] == #[trigger] x[j] by {
                    assert(x[j] == c[j]);
                }
                assert(ys[xs.len() as int] == c);
                assert(agree(ys[xs.len() as int], x, k));
            }
        }
    }

    /// Where the search stops at the current subset, every subset that it
    /// scans is the current one or comes before it.
    pub proof fn lemma_scanned_up_to_here(&self, target: int, x: Seq<usize>)
        requires
            self.ordered(),
            self.stuck(0) || exists|i: int|
                0 <= i < self.k && self.stuck(i + 1) && (#[trigger] self.combination_indices2@[i]) + 1
                    != self.combination_indices2@[i + 1] && total_from(
                    self.scores(),
                    raised(self.combination_indices2@, i, self.k as int),
                    0,
                    self.k as int,
                ) >= target,
            visited(self.scores(), self.k as int, self.held(), target, x),
        ensures
            comes_before(x, self.combination_indices2@, self.k as int) || agree(
                x,
                self.combination_indices2@,
                self.k as int,
            ),
    {
        lemma_visited_subset(self.scores(), self.k as int, self.held(), target, x);
        if self.stuck(0) {
            self.lemma_visit_last(x);
        } else {
            let i = choose|i: int|
                0 <= i < self.k && self.stuck(i + 1) && (#[trigger] self.combination_indices2@[i]) + 1
                    != self.combination_indices2@[i + 1] && total_from(
                    self.scores(),
                    raised(self.combination_indices2@, i, self.k as int),
                    0,
                    self.k as int,
                ) >= target;
            self.lemma_visit_stop(i, target, x);
        }
    }

    /// Where the search passes over the first subset and cannot move on, it
    /// scans nothing.
    pub proof fn lemma_list_none(&self, target: int)
        requires
            self.ordered(),
            leads(self.combination_indices2@, self.k as int),
            self.cur_removed_times_total >= target,
            self.stuck(0) || exists|i: int|
                0 <= i < self.k && self.stuck(i + 1) && (#[trigger] self.combination_indices2@[i]) + 1
                    != self.combination_indices2@[i + 1] && total_from(
                    self.scores(),
                    raised(self.combination_indices2@, i, self.k as int),
                    0,
                    self.k as int,
                ) >= target,
        ensures
            lists_all(self.scores(), self.k as int, self.held(), target, Seq::empty()),
    {
        reveal(lists_before);
        reveal(lists_all);
        let c = self.combination_indices2@;
        let k = self.k as int;
        let scores = self.scores();
        self.lemma_current_subset();
        assert forall|x: Seq<usize>| #[trigger] visited(scores, k, self.held(), target, x) implies false by {
            self.lemma_scanned_up_to_here(target, x);
            self.lemma_skipped_first(target, x);
        }
    }

    /// Where the search stops because the next subset has a total that is
    /// not below the limit, it scans no subset behind the current one.
    pub proof fn lemma_visit_stop(&self, i: int, target: int, x: Seq<usize>)
        requires
            self.ordered(),
            0 <= i < self.k,
            self.stuck(i + 1),
            self.combination_indices2@[i] + 1 != self.combination_indices2@[i + 1],
            total_from(
                self.scores(),
                raised(self.combination_indices2@, i, self.k as int),
                0,
                self.k as int,
            ) >= target,
            visited(self.scores(), self.k as int, self.held(), target, x),
        ensures
            comes_before(x, self.combination_indices2@, self.k as int) || agree(
                x,
                self.combination_indices2@,
                self.k as int,
            ),
    {
        let c = self.combination_indices2@;
        let k = self.k as int;
        let n = self.held();
        let c2 = raised(c, i, k);
        let scores = self.scores();
        reveal(visited);
        self.lemma_current_subset();
        self.lemma_next_in_order(i, x);
        lemma_order_total(x, c, k);
        lemma_order_total(x, c2, k);
        if comes_before(c, x, k) {
            if agree(x, c2, k) {
                lemma_visited_agree(scores, self.pickups@, k, n, target, x, c2);
            } else {
                assert(comes_before(c2, x, k));
                assert(is_subset(c2, k, n));
                if leads(c2, k) {
                    assert forall|j: int| 0 <= j < k implies #[trigger] c2[j] == j by {}
                    Self::lemma_first_in_order(k, n, c2, c);
                    lemma_order_strict(c, c2, k);
                    if !comes_before(c2, c, k) {
                        assert(agree(c2, c, k));
                    }
                }
            }
        }
    }

    /// Where the search stops because no index can be raised, every subset
    /// is the current one or comes before it.
    pub proof fn lemma_visit_last(&self, x: Seq<usize>)
        requires
            self.ordered(),
            self.stuck(0),
            is_subset(x, self.k as int, self.held()),
        ensures
            comes_before(x, self.combination_indices2@, self.k as int) || agree(
                x,
                self.combination_indices2@,
                self.k as int,
            ),
    {
        self.lemma_last_in_order(x);
        lemma_order_total(x, self.combination_indices2@, self.k as int);
    }

    /// The first position from `from` on at which `a` and `b` differ.
    pub proof fn first_gap(k: int, a: Seq<usize>, b: Seq<usize>, from: int) -> (m: int)
        requires
            0 <= from <= k,
            forall|l: int| 0 <= l < from ==> a[l] == b[l],
            !(forall|i: int| 0 <= i < k ==> a[i] == #[trigger] b[i]),
        ensures
            from <= m < k,
            a[m] != b[m],
            forall|l: int| 0 <= l < m ==> a[l] == b[l],
        decreases k - from,
    {
        if from == k {
            assert(forall|i: int| 0 <= i < k ==> a[i] == #[trigger] b[i]);
            from
        } else if a[from] != b[from] {
            from
        } else {
            Self::first_gap(k, a, b, from + 1)
        }
    }

    /// The ids at the route positions from `i` on that the current subset
    /// does not eject, in route order, the closing depot included.
    pub open spec fn kept_from(&self, i: int) -> Seq<usize>
        decreases self.route_len - i,
    {
        if i >= self.route_len {
            Seq::empty()
        } else if self.skips(i) {
            self.kept_from(i + 1)
        } else {
            seq![self.route@[i].id] + self.kept_from(i + 1)
        }
    }

    /// The subset ejects the node at a position exactly when it ejects the
    /// position.
    pub proof fn lemma_ejects_is_skips(&self, q: int)
        requires
            self.ordered(),
            self.coherent(),
            1 <= q < self.route_len,
        ensures
            self.ejects(self.route@[q].id) <==> self.skips(q),
    {
        self.lemma_indices_in_range();
        let x = self.route@[q].id;
        if self.ejects(x) {
            let i = choose|i: int|
                0 <= i < self.k && (x == (#[trigger] self.pickups@[self.combination_indices2@[i] as int]).id
                    || x == self.route@[self.pickups@[self.combination_indices2@[i] as int].pair_idx as int].id);
            let e = self.pickups@[self.combination_indices2@[i] as int];
            assert(e == self.route@[e.idx as int]);
            let w = self.route@[e.idx as int].pair_idx as int;
            assert(self.route@[w].pair_idx == e.idx);
            if x == e.id {
                if q != e.idx {
                    assert(self.route@[q].id != self.route@[e.idx as int].id);
                }
            } else {
                if q != w {
                    assert(self.route@[q].id != self.route@[w].id);
                }
            }
            assert(q == e.idx || q == e.pair_idx);
        }
        if self.skips(q) {
            let i = choose|i: int|
                0 <= i < self.k && (q == (#[trigger] self.pickups@[self.combination_indices2@[i] as int]).idx
                    || q == self.pickups@[self.combination_indices2@[i] as int].pair_idx);
            let e = self.pickups@[self.combination_indices2@[i] as int];
            assert(e == self.route@[e.idx as int]);
            assert(x == e.id || x == self.route@[e.pair_idx as int].id);
        }
    }

    /// What is kept of the route, read from the front and from the back.
    pub proof fn lemma_kept_two_ways(&self, i: int)
        requires
            self.ordered(),
            self.coherent(),
            1 <= i <= self.route_len,
        ensures
            self.kept_upto(i) + self.kept_from(i) == self.kept_from(1),
        decreases i,
    {
        if i > 1 {
            self.lemma_kept_two_ways(i - 1);
            self.lemma_ejects_is_skips(i - 1);
            if self.skips(i - 1) {
            } else {
                let x = self.route@[i - 1].id;
                assert(self.kept_upto(i - 1).push(x) + self.kept_from(i) =~= self.kept_upto(i - 1)
                    + (seq![x] + self.kept_from(i)));
            }
        } else {
            assert(self.kept_upto(1) + self.kept_from(1) =~= self.kept_from(1));
        }
    }

    /// An iterator over the route without the pairs that the current subset
    /// ejects.
    pub fn into_iter(&self) -> (r: CombinationIterator<'_>)
        requires
            self.ordered(),
            self.coherent(),
        ensures
            r.wf(),
            r.comb == self,
            r.remaining() == self.kept_upto(self.route_len as int),
    {
        CombinationIterator::new(self)
    }
}

/// Sorts `a[..len]` ascending with the standard library's slice `sort`: the
/// prefix holds the same positions as before, in non-decreasing order, and
/// the rest of the array is not touched.
#[verifier::external_body]
fn sort_positions(a: &mut [usize; K_PAIRS], len: usize)
    requires
        len <= K_PAIRS,
    ensures
        final(a)@.take(len as int).to_multiset() == old(a)@.take(len as int).to_multiset(),
        forall|i: int, j: int| 0 <= i <= j < len ==> final(a)@[i] <= final(a)@[j],
        final(a)@.skip(len as int) == old(a)@.skip(len as int),
{
    a[0..len].sort();
}

/// `removed` lists the positions that the subset of `comb` ejects, in
/// ascending order, each once, and zeros behind them.
pub open spec fn lists(comb: &Combinations, removed: Seq<usize>) -> bool {
    let m = 2 * comb.k;
    &&& forall|a: int, b: int| 0 <= a < b < m ==> #[trigger] removed[a] < #[trigger] removed[b]
    &&& forall|a: int| 0 <= a < m ==> comb.skips(#[trigger] removed[a] as int)
    &&& forall|q: int| #[trigger]
        comb.skips(q) ==> exists|a: int| 0 <= a < m && #[trigger] removed[a] == q
    &&& forall|a: int| m <= a < K_PAIRS ==> #[trigger] removed[a] == 0
}

/// A walk along the route of a generator that passes over the positions
/// that the current subset ejects: `removed` lists them in ascending order,
/// `removed_idx` points at the next of them and `cur` at the next route
/// position to yield.
#[derive(Clone, Copy)]
pub struct CombinationIterator<'a> {
    pub comb: &'a Combinations,
    pub removed: [usize; K_PAIRS],
    pub removed_idx: usize,
    pub cur: usize,
}

impl<'a> CombinationIterator<'a> {
    /// `removed` lists the ejected positions of the route in ascending
    /// order, each once, and zeros behind them.
    pub open spec fn listed(&self) -> bool {
        lists(self.comb, self.removed@)
    }

    /// The walk stands inside the route of a coherent generator, the
    /// ejected positions before it passed and those behind it still to
    /// come.
    pub open spec fn wf(&self) -> bool {
        &&& self.comb.ordered()
        &&& self.comb.coherent()
        &&& 1 <= self.cur <= self.comb.route_len
        &&& self.removed_idx <= 2 * self.comb.k
        &&& self.listed()
        &&& forall|a: int| 0 <= a < self.removed_idx ==> #[trigger] self.removed@[a] < self.cur
        &&& forall|a: int|
            self.removed_idx <= a < 2 * self.comb.k ==> #[trigger] self.removed@[a] > self.cur
    }

    /// The nodes still to come.
    pub open spec fn remaining(&self) -> Seq<usize> {
        self.comb.kept_from(self.cur as int)
    }

    /// A walk from the start of the route of `comb`.
    pub fn new(comb: &'a Combinations) -> (r: Self)
        requires
            comb.ordered(),
            comb.coherent(),
        ensures
            r.wf(),
            r.comb == comb,
            r.remaining() == comb.kept_upto(comb.route_len as int),
    {
        proof {
            comb.lemma_indices_in_range();
        }
        let mut removed = [0;K_PAIRS];
        let idxs = comb.removed_idxs();
        let catalog = comb.pickups();
        let mut i: usize = 0;
        while i < idxs.len()
            invariant
                comb.ordered(),
                idxs@ == comb.picked(),
                catalog@ == comb.pickups@,
                0 <= i <= idxs@.len(),
                idxs@.len() == comb.k,
                forall|j: int| 0 <= j < comb.k ==> 0 <= #[trigger] comb.combination_indices2@[j] < comb.held(),
                forall|j: int|
                    0 <= j < i ==> #[trigger] removed@[2 * j] == comb.pickups@[comb.combination_indices2@[j] as int].idx,
                forall|j: int|
                    0 <= j < i ==> #[trigger] removed@[2 * j + 1] == comb.pickups@[comb.combination_indices2@[j] as int].pair_idx,
                forall|a: int| 2 * i <= a < K_PAIRS ==> #[trigger] removed@[a] == 0,
            decreases idxs@.len() - i,
        {
            proof {
                assert(idxs@[i as int] == comb.combination_indices2@[i as int]);
            }
            let r = idxs[i];
            let pickup = &catalog[r];
            removed[2 * i] = pickup.idx;
            removed[2 * i + 1] = pickup.pair_idx;
            i += 1;
        }
        let ghost filled = removed@;
        proof {
            Self::lemma_filled(comb, filled);
        }

        sort_positions(&mut removed, 2 * comb.k);

        let mut s = Self { comb, removed, removed_idx: 0, cur: 1 };
        proof {
            let m = 2 * comb.k as int;
            let inp = filled.take(m);
            let out = s.removed@.take(m);
            inp.lemma_multiset_has_no_duplicates();
            out.lemma_multiset_has_no_duplicates_conv();
            inp.to_multiset_ensures();
            out.to_multiset_ensures();
            assert forall|a: int, b: int| 0 <= a < b < m implies #[trigger] s.removed@[a]
                < #[trigger] s.removed@[b] by {
                assert(out[a] != out[b]);
                assert(s.removed@[a] <= s.removed@[b]);
            }
            assert forall|a: int| 0 <= a < m implies comb.skips(#[trigger] s.removed@[a] as int) by {
                assert(out.contains(out[a]));
                assert(out.to_multiset().count(out[a]) > 0);
                assert(inp.to_multiset().count(out[a]) > 0);
                assert(inp.contains(out[a]));
                let b = choose|b: int| 0 <= b < inp.len() && inp[b] == out[a];
                assert(comb.skips(filled[b] as int));
            }
            assert forall|q: int| #[trigger] comb.skips(q) implies exists|a: int|
                0 <= a < m && #[trigger] s.removed@[a] == q by {
                let b = choose|b: int| 0 <= b < m && #[trigger] filled[b] == q;
                assert(inp[b] == q);
                assert(inp.contains(inp[b]));
                assert(inp.to_multiset().count(inp[b]) > 0);
                assert(out.to_multiset().count(inp[b]) > 0);
                assert(out.contains(inp[b]));
                let a = choose|a: int| 0 <= a < out.len() && out[a] == inp[b];
                assert(s.removed@[a] == q);
            }
            assert forall|a: int| m <= a < K_PAIRS implies #[trigger] s.removed@[a] == 0 by {
                assert(s.removed@.skip(m)[a - m] == filled.skip(m)[a - m]);
            }
            assert forall|a: int| 0 <= a < m implies #[trigger] s.removed@[a] >= 1 by {
                assert(comb.skips(s.removed@[a] as int));
                comb.lemma_skips_inside(s.removed@[a] as int);
            }
            assert forall|a: int| 0 <= a < m implies #[trigger] s.removed@[a] >= s.cur by {}
            comb.lemma_kept_two_ways(comb.route_len as int);
            assert(comb.kept_from(comb.route_len as int) =~= Seq::<usize>::empty());
            assert(comb.kept_upto(comb.route_len as int) + Seq::<usize>::empty()
                =~= comb.kept_upto(comb.route_len as int));
        }

        s.adv();

        s
    }

    /// The positions of the pairs of the subset, as they are written down
    /// before they are sorted, are the ejected positions, each once.
    proof fn lemma_filled(comb: &Combinations, filled: Seq<usize>)
        requires
            comb.ordered(),
            comb.coherent(),
            filled.len() == K_PAIRS,
            forall|j: int|
                0 <= j < comb.k ==> #[trigger] filled[2 * j] == comb.pickups@[comb.combination_indices2@[j] as int].idx,
            forall|j: int|
                0 <= j < comb.k ==> #[trigger] filled[2 * j + 1] == comb.pickups@[comb.combination_indices2@[j] as int].pair_idx,
        ensures
            filled.take(2 * comb.k).no_duplicates(),
            forall|b: int| 0 <= b < 2 * comb.k ==> comb.skips(#[trigger] filled[b] as int),
            forall|q: int| #[trigger]
                comb.skips(q) ==> exists|b: int| 0 <= b < 2 * comb.k && #[trigger] filled[b] == q,
    {
        let m = 2 * comb.k as int;
        let c = comb.combination_indices2@;
        comb.lemma_indices_in_range();
        assert forall|b: int| 0 <= b < m implies comb.skips(#[trigger] filled[b] as int) by {
            let j = b / 2;
            if b % 2 == 0 {
                assert(filled[2 * j] == comb.pickups@[c[j] as int].idx);
            } else {
                assert(filled[2 * j + 1] == comb.pickups@[c[j] as int].pair_idx);
            }
            assert(0 <= j < comb.k && (filled[b] == comb.pickups@[c[j] as int].idx || filled[b]
                == comb.pickups@[c[j] as int].pair_idx));
        }
        assert forall|q: int| #[trigger] comb.skips(q) implies exists|b: int|
            0 <= b < m && #[trigger] filled[b] == q by {
            let j = choose|j: int|
                0 <= j < comb.k && (q == (#[trigger] comb.pickups@[c[j] as int]).idx || q
                    == comb.pickups@[c[j] as int].pair_idx);
            if q == comb.pickups@[c[j] as int].idx {
                assert(filled[2 * j] == q);
            } else {
                assert(filled[2 * j + 1] == q);
            }
        }
        let head = filled.take(m);
        assert forall|a: int, b: int| 0 <= a < head.len() && 0 <= b < head.len() && a != b implies head[a]
            != head[b] by {
            let ja = a / 2;
            let jb = b / 2;
            let ea = comb.pickups@[c[ja] as int];
            let eb = comb.pickups@[c[jb] as int];
            assert(filled[2 * ja] == ea.idx);
            assert(filled[2 * ja + 1] == ea.pair_idx);
            assert(filled[2 * jb] == eb.idx);
            assert(filled[2 * jb + 1] == eb.pair_idx);
            assert(ea == comb.route@[ea.idx as int]);
            assert(eb == comb.route@[eb.idx as int]);
            let wa = comb.route@[ea.idx as int].pair_idx as int;
            let wb = comb.route@[eb.idx as int].pair_idx as int;
            assert(comb.route@[wa].pair_idx == ea.idx);
            assert(comb.route@[wb].pair_idx == eb.idx);
            if ja != jb {
                if ja < jb {
                    comb.lemma_increasing(ja, jb);
                } else {
                    comb.lemma_increasing(jb, ja);
                }
                assert(c[ja] != c[jb]);
                assert(ea.idx != eb.idx);
            }
        }
    }

    /// Moves past the route positions that the subset ejects.
    fn adv(&mut self)
        requires
            old(self).comb.ordered(),
            old(self).comb.coherent(),
            old(self).listed(),
            1 <= old(self).cur <= old(self).comb.route_len,
            old(self).removed_idx <= 2 * old(self).comb.k,
            forall|a: int| 0 <= a < old(self).removed_idx ==> #[trigger] old(self).removed@[a] < old(self).cur,
            forall|a: int|
                old(self).removed_idx <= a < 2 * old(self).comb.k ==> #[trigger] old(self).removed@[a]
                    >= old(self).cur,
        ensures
            final(self).wf(),
            final(self).comb == old(self).comb,
            final(self).removed == old(self).removed,
            final(self).remaining() == old(self).remaining(),
            final(self).cur >= old(self).cur,
    {
        let ghost m = 2 * self.comb.k as int;
        while self.cur < self.comb.route_len - 1 && self.removed_idx < 2 * K_MAX
            && self.removed[self.removed_idx] == self.cur
            invariant
                self.comb.ordered(),
                self.comb.coherent(),
                self.listed(),
                m == 2 * self.comb.k,
                1 <= self.cur <= self.comb.route_len,
                self.removed_idx <= m,
                forall|a: int| 0 <= a < self.removed_idx ==> #[trigger] self.removed@[a] < self.cur,
                forall|a: int| self.removed_idx <= a < m ==> #[trigger] self.removed@[a] >= self.cur,
                self.comb == old(self).comb,
                self.removed == old(self).removed,
                self.remaining() == old(self).remaining(),
                self.cur >= old(self).cur,
            decreases self.comb.route_len - self.cur,
        {
            proof {
                assert(self.removed_idx < m) by {
                    if self.removed_idx >= m {
                        assert(self.removed@[self.removed_idx as int] == 0);
                    }
                }
                assert(self.comb.skips(self.removed@[self.removed_idx as int] as int));
                assert forall|a: int| self.removed_idx + 1 <= a < m implies #[trigger] self.removed@[a]
                    >= self.cur + 1 by {
                    assert(self.removed@[self.removed_idx as int] < self.removed@[a]);
                }
            }
            self.cur += 1;
            self.removed_idx += 1;
        }
        proof {
            // the walk rests on a position that is not ejected
            if self.removed_idx < m && self.removed@[self.removed_idx as int] == self.cur {
                assert(self.comb.skips(self.cur as int));
                self.comb.lemma_skips_inside(self.cur as int);
                assert(false);
            }
            assert forall|a: int| self.removed_idx <= a < m implies #[trigger] self.removed@[a]
                > self.cur by {
                if a > self.removed_idx {
                    assert(self.removed@[self.removed_idx as int] < self.removed@[a]);
                }
            }
        }
    }

    /// The next node that is not ejected, or `None` behind the depot that
    /// ends the route.
    pub fn next(&mut self) -> (r: Option<usize>)
        requires
            old(self).wf(),
        ensures
            final(self).wf(),
            final(self).comb == old(self).comb,
            old(self).remaining().len() == 0 ==> r is None && *final(self) == *old(self),
            old(self).remaining().len() > 0 ==> r == Some(old(self).remaining()[0]) && final(
                self).remaining() == old(self).remaining().drop_first(),
            r is Some ==> final(self).cur > old(self).cur,
    {
        proof {
            if self.comb.skips(self.cur as int) {
                let a = choose|a: int| 0 <= a < 2 * self.comb.k && #[trigger] self.removed@[a] == self.cur;
                assert(false);
            }
        }
        if self.cur < self.comb.route_len {
            let res = self.comb.route[self.cur].id;
            proof {
                assert(self.remaining() == seq![res] + self.comb.kept_from(self.cur + 1));
                assert((seq![res] + self.comb.kept_from(self.cur + 1)).drop_first()
                    =~= self.comb.kept_from(self.cur + 1));
            }
            self.cur += 1;
            self.adv();
            Some(res)
        } else {
            None
        }
    }

    /// All nodes still to come, in order.
    pub fn collect(self) -> (r: Vec<usize>)
        requires
            self.wf(),
        ensures
            r@ == self.remaining(),
    {
        let mut it = self;
        let mut out: Vec<usize> = Vec::new();
        loop
            invariant
                it.wf(),
                it.comb == self.comb,
                out@ + it.remaining() == self.remaining(),
            decreases it.comb.route_len - it.cur,
        {
            let ghost before = it.remaining();
            match it.next() {
                Some(v) => {
                    out.push(v);
                    proof {
                        assert(out@ + it.remaining() =~= self.remaining());
                    }
                },
                None => {
                    proof {
                        assert(out@ =~= self.remaining());
                    }
                    return out;
                },
            }
        }
    }
}

impl Combinations {
    /// An ejected position lies inside the route, before the closing depot.
    pub proof fn lemma_skips_inside(&self, q: int)
        requires
            self.ordered(),
            self.coherent(),
            self.skips(q),
        ensures
            1 <= q < self.route_len - 1,
    {
        self.lemma_indices_in_range();
        let i = choose|i: int|
            0 <= i < self.k && (q == (#[trigger] self.pickups@[self.combination_indices2@[i] as int]).idx
                || q == self.pickups@[self.combination_indices2@[i] as int].pair_idx);
        let e = self.pickups@[self.combination_indices2@[i] as int];
        assert(e == self.route@[e.idx as int]);
    }
}


} // verus!
