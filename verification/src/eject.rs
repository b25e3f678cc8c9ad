use crate::data::Data;
use crate::layout::{skip_two, Layout};
use crate::route::{
    coupled, coupled_at, feasible, lemma_index_of, lemma_lfd_suffix, lemma_remove_pair_feasible,
    lfd_at, proper, stop,
};
use crate::sol::{ejected, mated, matched};
use vstd::prelude::*;

verus! {

/// The sequence `s` without the elements of `gone`.
pub open spec fn sift(s: Seq<usize>, gone: Set<usize>) -> Seq<usize>
    decreases s.len(),
{
    if s.len() == 0 {
        Seq::empty()
    } else if gone.contains(s.last()) {
        sift(s.drop_last(), gone)
    } else {
        sift(s.drop_last(), gone).push(s.last())
    }
}

/// What is left of a sequence without repetition holds exactly the elements
/// that are not gone, each once.
pub proof fn lemma_sift_holds(s: Seq<usize>, gone: Set<usize>)
    requires
        s.no_duplicates(),
    ensures
        sift(s, gone).no_duplicates(),
        sift(s, gone).len() <= s.len(),
        forall|x: usize| #[trigger] sift(s, gone).contains(x) <==> s.contains(x) && !gone.contains(x),
    decreases s.len(),
{
    if s.len() > 0 {
        let head = s.drop_last();
        let y = s.last();
        lemma_sift_holds(head, gone);
        let r = sift(head, gone);
        let out = sift(s, gone);
        assert forall|x: usize| #[trigger] out.contains(x) <==> s.contains(x) && !gone.contains(x) by {
            if out.contains(x) {
                let i = choose|i: int| 0 <= i < out.len() && out[i] == x;
                if i < r.len() {
                    assert(r[i] == x);
                    assert(r.contains(x));
                    let j = choose|j: int| 0 <= j < head.len() && head[j] == x;
                    assert(s[j] == x);
                } else {
                    assert(s[s.len() - 1] == x);
                }
            }
            if s.contains(x) && !gone.contains(x) {
                let j = choose|j: int| 0 <= j < s.len() && s[j] == x;
                if j < head.len() {
                    assert(head[j] == x);
                    assert(head.contains(x));
                    assert(r.contains(x));
                    let i = choose|i: int| 0 <= i < r.len() && r[i] == x;
                    assert(out[i] == x);
                } else {
                    assert(out[out.len() - 1] == x);
                }
            }
        }
        assert forall|a: int, b: int| 0 <= a < out.len() && 0 <= b < out.len() && a != b implies out[a]
            != out[b] by {
            if a < r.len() && b < r.len() {
            } else if a < r.len() {
                assert(r.contains(r[a]));
                let j = choose|j: int| 0 <= j < head.len() && head[j] == r[a];
                assert(s[j] != s[s.len() - 1]);
            } else if b < r.len() {
                assert(r.contains(r[b]));
                let j = choose|j: int| 0 <= j < head.len() && head[j] == r[b];
                assert(s[j] != s[s.len() - 1]);
            }
        }
    }
}

/// Elements that the sequence does not hold make no difference.
pub proof fn lemma_sift_same(s: Seq<usize>, g1: Set<usize>, g2: Set<usize>)
    requires
        forall|i: int| 0 <= i < s.len() ==> g1.contains(#[trigger] s[i]) == g2.contains(s[i]),
    ensures
        sift(s, g1) == sift(s, g2),
    decreases s.len(),
{
    if s.len() > 0 {
        let head = s.drop_last();
        assert forall|i: int| 0 <= i < head.len() implies g1.contains(#[trigger] head[i])
            == g2.contains(head[i]) by {
            assert(head[i] == s[i]);
        }
        lemma_sift_same(head, g1, g2);
        assert(s.last() == s[s.len() - 1]);
    }
}

/// Letting one more element go takes it out of what is left.
pub proof fn lemma_sift_remove(s: Seq<usize>, gone: Set<usize>, x: usize)
    requires
        s.no_duplicates(),
        s.contains(x),
        !gone.contains(x),
    ensures
        sift(s, gone).contains(x),
        sift(s, gone.insert(x)) == sift(s, gone).remove(sift(s, gone).index_of(x)),
    decreases s.len(),
{
    let head = s.drop_last();
    let y = s.last();
    let more = gone.insert(x);
    lemma_sift_holds(s, gone);
    lemma_sift_holds(head, gone);
    let r = sift(head, gone);
    let out = sift(s, gone);
    assert(out.contains(x));
    let at = out.index_of(x);
    assert(0 <= at < out.len() && out[at] == x);
    if y == x {
        assert forall|i: int| 0 <= i < head.len() implies gone.contains(#[trigger] head[i])
            == more.contains(head[i]) by {
            assert(head[i] == s[i]);
            assert(s[i] != s[s.len() - 1]);
        }
        lemma_sift_same(head, gone, more);
        assert(out == r.push(x));
        assert(out[out.len() - 1] == x);
        assert(at == out.len() - 1);
        assert(out.remove(at) =~= r);
    } else {
        let j = choose|j: int| 0 <= j < s.len() && s[j] == x;
        assert(head[j] == x);
        assert(head.contains(x));
        lemma_sift_remove(head, gone, x);
        let i0 = r.index_of(x);
        assert(0 <= i0 < r.len() && r[i0] == x);
        if gone.contains(y) {
            assert(out == r);
        } else {
            assert(out == r.push(y));
            assert(out[i0] == x);
            assert(at == i0);
            assert(sift(s, more) == sift(head, more).push(y));
            assert(r.remove(i0).push(y) =~= r.push(y).remove(i0));
        }
    }
}

/// Taking a node out of a route does not lower the latest feasible
/// departure of any other stop.
pub proof fn lemma_remove_lfd(data: &Data, s: Seq<usize>, a: int, i: int)
    requires
        data.sized(),
        data.metric(),
        proper(data, s),
        0 <= a < s.len(),
        0 <= i <= s.len() - 1,
    ensures
        lfd_at(data, s.remove(a), i) >= lfd_at(
            data,
            s,
            if i < a {
                i
            } else {
                i + 1
            },
        ),
    decreases s.len() - i,
{
    let t = s.remove(a);
    if i >= a {
        assert forall|k: int| i <= k < t.len() implies t[k] == s[k + 1] by {}
        lemma_lfd_suffix(data, t, s, i, 1);
    } else {
        lemma_remove_lfd(data, s, a, i + 1);
        assert(data.customer(s[i] as int));
        assert(data.customer(s[a] as int));
        assert(stop(t, i) == stop(s, i));
        if i + 1 < a {
            assert(stop(t, i + 1) == stop(s, i + 1));
        } else {
            let z = stop(s, a + 1);
            assert(stop(t, i + 1) == z);
            if a + 1 < s.len() {
                assert(data.customer(s[a + 1] as int));
            }
            assert(data.time_of(s[i] as int, z) <= data.time_of(s[i] as int, s[a] as int)
                + data.time_of(s[a] as int, z));
            assert(lfd_at(data, s, a) <= lfd_at(data, s, a + 1) - data.time_of(s[a] as int, z));
        }
    }
}

/// Taking a pickup and its delivery out of a route does not lower the latest
/// feasible departure of any other stop.
pub proof fn lemma_remove_pair_lfd(data: &Data, s: Seq<usize>, a: int, b: int, i: int)
    requires
        data.sized(),
        data.metric(),
        proper(data, s),
        0 <= a < b < s.len(),
        0 <= i <= s.len() - 2,
    ensures
        lfd_at(data, s.remove(b).remove(a), i) >= lfd_at(data, s, skip_two(a, b, i)),
{
    let u = s.remove(b);
    crate::route::lemma_remove_proper(data, s, b);
    lemma_remove_lfd(data, u, a, i);
    if i < a {
        lemma_remove_lfd(data, s, b, i);
    } else {
        lemma_remove_lfd(data, s, b, i + 1);
    }
}

/// What a solution asks of its routes, seen from the layout alone: the
/// layout is well formed, partners travel together and every route is
/// feasible.
pub open spec fn sane(l: Layout, data: &Data) -> bool {
    &&& l.wf(data.points as int)
    &&& matched(l, data)
    &&& forall|r: usize| #[trigger] l.has(r) ==> feasible(data, l.tours[r])
}

/// Every route of a layout whose partners travel together holds the partner
/// of each of its nodes, pickups first.
pub proof fn lemma_tour_coupled(l: Layout, data: &Data, r: usize)
    requires
        data.wf(),
        l.wf(data.points as int),
        matched(l, data),
        l.has(r),
    ensures
        proper(data, l.tours[r]),
        coupled(data, l.tours[r]),
{
    let s = l.tours[r];
    l.lemma_tour_distinct(data.points as int, r);
    assert forall|i: int| 0 <= i < s.len() implies #[trigger] coupled_at(data, s, i) by {
        let v = l.tours[r][i];
        assert(l.served(v));
        assert(mated(l, data, v));
        let w = data.pair(v as int) as usize;
        assert(l.served(w));
        let j = l.slot[w];
        assert(s[j] == w);
        lemma_index_of(s, j);
    }
}

/// A layout stays sane when a pickup and its delivery leave it.
pub proof fn lemma_sane_off(l: Layout, data: &Data, p: usize)
    requires
        data.wf(),
        sane(l, data),
        l.served(p),
        !data.delivers(p as int),
    ensures
        l.served(data.pair(p as int) as usize),
        l.owner[data.pair(p as int) as usize] == l.owner[p],
        l.slot[p] < l.slot[data.pair(p as int) as usize],
        sane(l.detach(p).detach(data.pair(p as int) as usize), data),
{
    let n = data.points as int;
    let d = data.pair(p as int) as usize;
    let r = l.owner[p];
    let s = l.tours[r];
    let a = l.slot[p];
    let b = l.slot[d];
    let l2 = l.detach(p).detach(d);
    let s2 = s.remove(b).remove(a);
    assert(mated(l, data, p));
    assert(data.customer(p as int));
    assert(data.pair_ok(p as int));
    assert(l.has(r));
    lemma_tour_coupled(l, data, r);
    assert(s[a] == p);
    assert(s[b] == d);
    lemma_remove_pair_feasible(data, s, a, b);
    l.lemma_detach_pair(n, p, d);
    assert forall|v: usize| l2.served(v) implies #[trigger] mated(l2, data, v) by {
        assert(l.served(v));
        assert(mated(l, data, v));
        let w = data.pair(v as int) as usize;
        assert(l.served(w));
        assert(data.customer(v as int));
        assert(data.pair_ok(v as int));
        assert(w != p && w != d);
    }
    assert forall|q: usize| #[trigger] l2.has(q) implies feasible(data, l2.tours[q]) by {
        if s2.len() > 0 && q == s2[0] {
        } else {
            assert(l.has(q));
        }
    }
}

/// The nodes that have left once the pairs of the first `j` pickups listed
/// in `removed` are gone.
pub open spec fn gone_set(data: &Data, removed: Seq<usize>, j: int) -> Set<usize> {
    Set::new(
        |x: usize|
            exists|m: int|
                0 <= m < j && removed[m] != 0 && (x == #[trigger] removed[m] || x == data.pair(
                    removed[m] as int,
                ) as usize),
    )
}

/// The first `j` entries of `removed` list, where they are not zero,
/// different pickups of the route `r0`.
pub open spec fn lists_pickups(l: Layout, data: &Data, removed: Seq<usize>, r0: usize, j: int) -> bool {
    &&& 0 <= j <= removed.len()
    &&& forall|m: int|
        0 <= m < j && removed[m] != 0 ==> {
            &&& l.served(#[trigger] removed[m])
            &&& l.owner[removed[m]] == r0
            &&& !data.delivers(removed[m] as int)
        }
    &&& forall|m1: int, m2: int|
        0 <= m1 < m2 < j && removed[m1] != 0 ==> #[trigger] removed[m1] != #[trigger] removed[m2]
}

/// What ejecting the pairs of the first `j` listed pickups of the route `r0`
/// leaves: a sane layout in which exactly the listed nodes have become
/// unserved, the other routes are as before, the route `r0` has kept its
/// other nodes in their order, and no latest feasible departure of a node
/// that stays has become earlier.
pub open spec fn run_ok(l: Layout, data: &Data, removed: Seq<usize>, r0: usize, j: int) -> bool {
    let lj = ejected(l, data, removed, j);
    let s = l.tours[r0];
    let t = sift(s, gone_set(data, removed, j));
    &&& sane(lj, data)
    &&& forall|v: usize|
        #[trigger] lj.served(v) <==> l.served(v) && !gone_set(data, removed, j).contains(v)
    &&& forall|v: usize|
        l.served(v) && l.owner[v] != r0 ==> {
            &&& #[trigger] lj.owner[v] == l.owner[v]
            &&& lj.slot[v] == l.slot[v]
            &&& lj.tour_of(v) == l.tour_of(v)
        }
    &&& forall|v: usize|
        lj.served(v) && l.owner[v] == r0 ==> {
            &&& #[trigger] lj.tour_of(v) == t
            &&& lj.owner[v] == t[0]
        }
    &&& forall|q: int| 0 <= q <= t.len() ==> #[trigger] lfd_at(data, t, q) >= lfd_at(data, s, origin_of(s, t, q))
}

/// Position in `s` of the node at position `q` of `t`, the end of `s` for
/// the end of `t`.
pub open spec fn origin_of(s: Seq<usize>, t: Seq<usize>, q: int) -> int {
    if q < t.len() {
        s.index_of(t[q])
    } else {
        s.len() as int
    }
}

/// One more ejection keeps what a run of ejections leaves.
pub proof fn lemma_run_step(l: Layout, data: &Data, removed: Seq<usize>, r0: usize, j: int)
    requires
        data.wf(),
        sane(l, data),
        l.has(r0),
        j > 0,
        lists_pickups(l, data, removed, r0, j),
        run_ok(l, data, removed, r0, j - 1),
        removed[j - 1] != 0,
    ensures
        run_ok(l, data, removed, r0, j),
        ejected(l, data, removed, j - 1).served(removed[j - 1]),
{
    let n = data.points as int;
    let s = l.tours[r0];
    let g = gone_set(data, removed, j);
    let t = sift(s, g);
    l.lemma_tour_distinct(n, r0);
    lemma_tour_coupled(l, data, r0);
    let lp = ejected(l, data, removed, j - 1);
    let gp = gone_set(data, removed, j - 1);
    let tp = sift(s, gp);
    let v = removed[j - 1];
    lemma_sift_holds(s, gp);
    let d = data.pair(v as int) as usize;
    assert(l.served(removed[j - 1]));
    assert(data.customer(v as int));
    assert(data.pair_ok(v as int));
    assert(mated(l, data, v));
    assert(!gp.contains(v)) by {
        if gp.contains(v) {
            let m = choose|m: int|
                0 <= m < j - 1 && removed[m] != 0 && (v == #[trigger] removed[m] || v == data.pair(
                    removed[m] as int,
                ) as usize);
            assert(removed[m] != removed[j - 1]);
            assert(l.served(removed[m]));
            assert(data.customer(removed[m] as int));
            assert(data.pair_ok(removed[m] as int));
        }
    }
    assert(lp.served(v));
    lemma_sane_off(lp, data, v);
    let a = lp.slot[v];
    let b = lp.slot[d];
    assert(lp.tour_of(v) == tp);
    assert(l.served(d));
    assert(l.owner[d] == r0);
    assert(lp.tour_of(d) == tp);
    assert(tp[a] == v);
    assert(tp[b] == d);
    lp.lemma_detach_pair(n, v, d);
    let lj = ejected(l, data, removed, j);
    assert(lj == lp.detach(v).detach(d));
    assert(!gp.contains(d));
    assert(tp.contains(tp[b]));
    assert(tp.contains(tp[a]));
    lemma_sift_remove(s, gp, d);
    lemma_index_of(tp, b);
    let gd = gp.insert(d);
    lemma_sift_holds(s, gd);
    lemma_sift_remove(s, gd, v);
    let u = tp.remove(b);
    assert(u[a] == v);
    assert(u.contains(u[a]));
    lemma_index_of(u, a);
    lemma_gone_step(data, removed, j);
    assert(g == gd.insert(v));
    assert(t == tp.remove(b).remove(a));
    assert forall|x: usize| #[trigger] lj.served(x) <==> l.served(x) && !g.contains(x) by {
        assert(lp.served(x) <==> l.served(x) && !gp.contains(x));
    }
    assert forall|x: usize| l.served(x) && l.owner[x] != r0 implies {
        &&& #[trigger] lj.owner[x] == l.owner[x]
        &&& lj.slot[x] == l.slot[x]
        &&& lj.tour_of(x) == l.tour_of(x)
    } by {
        assert(lp.owner[x] == l.owner[x]);
        assert(l.has(l.owner[x]));
        assert(!s.contains(x)) by {
            if s.contains(x) {
                let k = choose|k: int| 0 <= k < s.len() && s[k] == x;
                assert(l.owner[l.tours[r0][k]] == r0);
            }
        }
        assert(!gp.contains(x)) by {
            if gp.contains(x) {
                let m = choose|m: int|
                    0 <= m < j - 1 && removed[m] != 0 && (x == #[trigger] removed[m] || x
                        == data.pair(removed[m] as int) as usize);
                assert(l.served(removed[m]));
                assert(mated(l, data, removed[m]));
            }
        }
        assert(lp.served(x));
        if lp.owner[x] == lp.owner[v] {
            assert(lp.tour_of(x) == tp);
            assert(tp[lp.slot[x]] == x);
            assert(tp.contains(x));
        }
    }
    assert forall|x: usize| lj.served(x) && l.owner[x] == r0 implies {
        &&& #[trigger] lj.tour_of(x) == t
        &&& lj.owner[x] == t[0]
    } by {
        assert(lp.served(x));
        assert(lp.tour_of(x) == tp);
        assert(lp.owner[x] == tp[0]);
    }
    assert(proper(data, tp)) by {
        assert forall|i: int| 0 <= i < tp.len() implies data.customer(#[trigger] tp[i] as int) by {
            assert(tp.contains(tp[i]));
            let k = choose|k: int| 0 <= k < s.len() && s[k] == tp[i];
            assert(data.customer(s[k] as int));
        }
    }
    assert forall|q: int| 0 <= q <= t.len() implies #[trigger] lfd_at(data, t, q) >= lfd_at(
        data,
        s,
        origin_of(s, t, q),
    ) by {
        lemma_remove_pair_lfd(data, tp, a, b, q);
        let qp = skip_two(a, b, q);
        assert(lfd_at(data, tp, qp) >= lfd_at(data, s, origin_of(s, tp, qp)));
        if q < t.len() {
            assert(t[q] == tp[qp]);
        }
    }
}

/// One more listed pickup adds it and its delivery to the nodes that are
/// gone; a zero entry adds nothing.
pub proof fn lemma_gone_step(data: &Data, removed: Seq<usize>, j: int)
    requires
        j > 0,
    ensures
        removed[j - 1] == 0 ==> gone_set(data, removed, j) == gone_set(data, removed, j - 1),
        removed[j - 1] != 0 ==> gone_set(data, removed, j) == gone_set(data, removed, j - 1).insert(
            data.pair(removed[j - 1] as int) as usize,
        ).insert(removed[j - 1]),
{
    let g = gone_set(data, removed, j);
    let gp = gone_set(data, removed, j - 1);
    let v = removed[j - 1];
    let d = data.pair(v as int) as usize;
    let target = if v == 0 {
        gp
    } else {
        gp.insert(d).insert(v)
    };
    assert forall|x: usize| g.contains(x) <==> target.contains(x) by {
        if g.contains(x) {
            let m = choose|m: int|
                0 <= m < j && removed[m] != 0 && (x == #[trigger] removed[m] || x == data.pair(
                    removed[m] as int,
                ) as usize);
            if m < j - 1 {
                assert(gp.contains(x));
            }
        }
        if gp.contains(x) {
            let m = choose|m: int|
                0 <= m < j - 1 && removed[m] != 0 && (x == #[trigger] removed[m] || x == data.pair(
                    removed[m] as int,
                ) as usize);
            assert(0 <= m < j);
        }
        if v != 0 && (x == v || x == d) {
            assert(0 <= j - 1 < j && removed[j - 1] != 0 && (x == removed[j - 1] || x == data.pair(
                removed[j - 1] as int,
            ) as usize));
        }
    }
    assert(g =~= target);
}

/// A run of ejections of listed pickups of one route leaves what
/// [`run_ok`] describes, and every listed pickup is still served at its
/// turn.
pub proof fn lemma_run(l: Layout, data: &Data, removed: Seq<usize>, r0: usize, j: int)
    requires
        data.wf(),
        sane(l, data),
        l.has(r0),
        lists_pickups(l, data, removed, r0, j),
    ensures
        run_ok(l, data, removed, r0, j),
        forall|m: int|
            0 <= m < j && removed[m] != 0 ==> ejected(l, data, removed, m).served(
                #[trigger] removed[m],
            ),
    decreases j,
{
    let s = l.tours[r0];
    if j <= 0 {
        let t = sift(s, gone_set(data, removed, j));
        l.lemma_tour_distinct(data.points as int, r0);
        assert(gone_set(data, removed, j) =~= Set::<usize>::empty());
        lemma_sift_none(s);
        assert forall|q: int| 0 <= q <= t.len() implies #[trigger] lfd_at(data, t, q) >= lfd_at(
            data,
            s,
            origin_of(s, t, q),
        ) by {
            if q < s.len() {
                lemma_index_of(s, q);
            }
        }
    } else {
        lemma_run(l, data, removed, r0, j - 1);
        if removed[j - 1] == 0 {
            lemma_gone_step(data, removed, j);
            assert(ejected(l, data, removed, j) == ejected(l, data, removed, j - 1));
        } else {
            lemma_run_step(l, data, removed, r0, j);
        }
    }
}

/// Nothing gone, nothing missing.
pub proof fn lemma_sift_none(s: Seq<usize>)
    ensures
        sift(s, Set::<usize>::empty()) == s,
    decreases s.len(),
{
    if s.len() > 0 {
        lemma_sift_none(s.drop_last());
        assert(s.drop_last().push(s.last()) =~= s);
    }
}

} // verus!
