use crate::data::PTS;
use crate::UNSERVED;
use vstd::prelude::*;

verus! {

/// The ejection pool: the ejected pickups in `removed_idx[..size]`, kept in
/// non-decreasing order of their ejection counts, and the ejection count of
/// every node in `removed_times`.
pub struct Heap {
    pub removed_times: [u64; PTS],
    pub removed_idx: [usize; PTS],
    pub size: usize,
}

/// Largest ejection count the solver works with: sums of a dozen such counts
/// still fit a `u64`.
pub const MAX_EJECTIONS: u64 = 0x0FFF_FFFF_FFFF_FFFF;

/// `pool` lists its ids in non-decreasing order of `times`.
pub open spec fn ascending(pool: Seq<usize>, times: Seq<u64>) -> bool {
    forall|i: int, j: int| 0 <= i <= j < pool.len() ==> times[pool[i] as int] <= times[pool[j] as int]
}

/// `perm` rearranges `inp` into `out`, which is ordered by `keys`, and moves
/// no element past another of the same key.
pub open spec fn stable_sort_by(
    out: Seq<usize>,
    inp: Seq<usize>,
    keys: Seq<u64>,
    perm: Seq<int>,
) -> bool {
    &&& out.len() == inp.len()
    &&& perm.len() == inp.len()
    &&& perm.no_duplicates()
    &&& forall|i: int| 0 <= i < perm.len() ==> 0 <= #[trigger] perm[i] < inp.len()
    &&& forall|i: int| 0 <= i < out.len() ==> #[trigger] out[i] == inp[perm[i]]
    &&& ascending(out, keys)
    &&& forall|i: int, j: int|
        0 <= i < j < out.len() && keys[out[i] as int] == keys[out[j] as int] ==> #[trigger] perm[i]
            < #[trigger] perm[j]
}

/// `out` is `inp` sorted by `keys`, elements of equal key in their old order.
pub open spec fn is_stable_sort(out: Seq<usize>, inp: Seq<usize>, keys: Seq<u64>) -> bool {
    exists|perm: Seq<int>| stable_sort_by(out, inp, keys, perm)
}

/// `after` is `before` with its last element moved to position `c`.
pub open spec fn slid(before: Seq<usize>, after: Seq<usize>, c: int) -> bool {
    &&& 0 <= c < before.len()
    &&& after == before.drop_last().insert(c, before.last())
}

/// Ejection count of the node `id`.
fn count_of(times: &[u64; PTS], id: usize) -> (r: u64)
    requires
        id < PTS,
    ensures
        r == times[id as int],
{
    times[id]
}

/// Sorts `ids[..len]` by the ejection count of each id with the standard
/// library's `sort_by_key`, a stable sort: the prefix is rearranged into
/// non-decreasing key order with equal keys left in their old order, and
/// the rest of the array is not touched. The ids index `times`, so they have
/// to be in range.
#[verifier::external_body]
fn sort_by_times(ids: &mut [usize; PTS], len: usize, times: &[u64; PTS])
    requires
        len <= PTS,
        forall|i: int| 0 <= i < len ==> old(ids)[i] < PTS,
    ensures
        is_stable_sort(final(ids)@.take(len as int), old(ids)@.take(len as int), times@),
        final(ids)@.skip(len as int) == old(ids)@.skip(len as int),
{
    ids[0..len].sort_by_key(|&x| count_of(times, x));
}

impl Heap {
    /// The ejected pickups, least ejected first.
    pub open spec fn pool(&self) -> Seq<usize> {
        self.removed_idx@.take(self.size as int)
    }

    /// Ejection count of every node.
    pub open spec fn times(&self) -> Seq<u64> {
        self.removed_times@
    }

    /// The pool fits its array and holds node ids only.
    pub open spec fn bounded(&self) -> bool {
        &&& self.size <= PTS
        &&& forall|i: int| 0 <= i < self.size ==> #[trigger] self.removed_idx[i] < PTS
    }

    /// No ejection count is above `limit`.
    pub open spec fn below(&self, limit: int) -> bool {
        forall|v: int| 0 <= v < PTS ==> #[trigger] self.times()[v] <= limit
    }

    /// Bounded, without repetition and in non-decreasing order of ejection
    /// counts.
    pub open spec fn wf(&self) -> bool {
        &&& self.bounded()
        &&& self.pool().no_duplicates()
        &&& ascending(self.pool(), self.times())
    }

    /// An empty pool with all counts at zero.
    pub fn new() -> (r: Self)
        ensures
            r.wf(),
            r.size == 0,
            r.pool() == Seq::<usize>::empty(),
            forall|v: int| 0 <= v < PTS ==> r.times()[v] == 0,
    {
        Self { removed_times: [0;PTS], removed_idx: [UNSERVED;PTS], size: 0 }
    }

    /// Raises the ejection count of the most ejected pickup by one and moves
    /// it behind every pickup whose count does not exceed the new one.
    pub fn inc(&mut self)
        requires
            old(self).bounded(),
            old(self).pool().no_duplicates(),
            ascending(old(self).pool().drop_last(), old(self).times()),
            old(self).size > 0,
            old(self).times()[old(self).pool().last() as int] < u64::MAX,
        ensures
            final(self).wf(),
            final(self).size == old(self).size,
            final(self).times() == old(self).times().update(
                old(self).pool().last() as int,
                (old(self).times()[old(self).pool().last() as int] + 1) as u64,
            ),
            forall|v: usize| final(self).pool().contains(v) <==> old(self).pool().contains(v),
            exists|c: int|
                {
                    &&& #[trigger] slid(old(self).pool(), final(self).pool(), c)
                    &&& forall|i: int|
                        c < i < final(self).size ==> final(self).times()[final(self).pool()[i] as int]
                            > final(self).times()[final(self).pool()[c] as int]
                },
    {
        self.inc_removed_times_of_top();
        proof {
            let pool = old(self).pool();
            let top = pool.last();
            assert forall|i: int, j: int| 0 <= i <= j < pool.drop_last().len() implies self.times()[pool.drop_last()[i] as int]
                <= self.times()[pool.drop_last()[j] as int] by {
                assert(pool[i] != top);
                assert(pool[j] != top);
                assert(pool.drop_last()[i] == pool[i]);
                assert(pool.drop_last()[j] == pool[j]);
            }
            assert(self.pool() == pool);
        }
        self.slide_top_into_correct_place();
    }

    /// Raises the ejection count of the pickup on top of the pool.
    fn inc_removed_times_of_top(&mut self)
        requires
            old(self).bounded(),
            old(self).size > 0,
            old(self).times()[old(self).pool().last() as int] < u64::MAX,
        ensures
            final(self).removed_idx == old(self).removed_idx,
            final(self).size == old(self).size,
            final(self).times() == old(self).times().update(
                old(self).pool().last() as int,
                (old(self).times()[old(self).pool().last() as int] + 1) as u64,
            ),
    {
        let id = self.removed_idx[self.size - 1];
        self.removed_times[id] += 1;
    }

    /// Whether the pool is in non-decreasing order of ejection counts.
    pub fn check_if_is_sorted(&self) -> (r: bool)
        requires
            self.bounded(),
        ensures
            r == ascending(self.pool(), self.times()),
    {
        let mut i: usize = 1;
        while i < self.size
            invariant
                self.bounded(),
                1 <= i,
                forall|a: int, b: int|
                    0 <= a <= b < i && b < self.size ==> self.removed_times[#[trigger] self.removed_idx[a] as int]
                        <= self.removed_times[#[trigger] self.removed_idx[b] as int],
            decreases self.size - i,
        {
            let p = self.removed_times[self.removed_idx[i - 1]];
            let n = self.removed_times[self.removed_idx[i]];
            if p > n {
                proof {
                    assert(self.pool()[i - 1] == self.removed_idx[i - 1]);
                    assert(self.pool()[i as int] == self.removed_idx[i as int]);
                }
                return false;
            }
            proof {
                assert forall|a: int, b: int| 0 <= a <= b < i + 1 && b < self.size implies self.removed_times[#[trigger] self.removed_idx[a] as int]
                    <= self.removed_times[#[trigger] self.removed_idx[b] as int] by {
                    if b == i && a < i {
                        assert(self.removed_times[self.removed_idx[a] as int]
                            <= self.removed_times[self.removed_idx[i - 1] as int]);
                    }
                }
            }
            i += 1;
        }
        proof {
            assert forall|a: int, b: int| 0 <= a <= b < self.pool().len() implies self.times()[self.pool()[a] as int]
                <= self.times()[self.pool()[b] as int] by {
                assert(self.pool()[a] == self.removed_idx[a]);
                assert(self.pool()[b] == self.removed_idx[b]);
            }
        }
        true
    }

    /// Moves the pickup on top of the pool down to its place in the
    /// order of ejection counts, behind those of equal count.
    fn slide_top_into_correct_place(&mut self)
        requires
            old(self).bounded(),
            old(self).size > 0,
            old(self).pool().no_duplicates(),
            ascending(old(self).pool().drop_last(), old(self).times()),
        ensures
            final(self).wf(),
            final(self).size == old(self).size,
            final(self).times() == old(self).times(),
            forall|v: usize| final(self).pool().contains(v) <==> old(self).pool().contains(v),
            exists|c: int|
                {
                    &&& #[trigger] slid(old(self).pool(), final(self).pool(), c)
                    &&& forall|i: int|
                        c < i < final(self).size ==> final(self).times()[final(self).pool()[i] as int]
                            > final(self).times()[final(self).pool()[c] as int]
                },
    {
        let top = self.size - 1;
        let id = self.removed_idx[top];
        let top_removed_times = self.removed_times[id];
        let ghost base = self.pool();
        proof {
            assert forall|i: int| 0 <= i < self.size implies #[trigger] base[i] < PTS by {
                assert(base[i] == self.removed_idx[i]);
            }
        }
        let mut cur = top;
        while cur != 0 && self.removed_times[self.removed_idx[cur - 1]] > top_removed_times
            invariant
                self.size == old(self).size,
                self.size <= PTS,
                top == self.size - 1,
                cur <= top,
                self.removed_times == old(self).removed_times,
                base == old(self).pool(),
                base.len() == self.size,
                id == base[top as int],
                top_removed_times == self.removed_times[id as int],
                forall|i: int| 0 <= i < self.size ==> #[trigger] base[i] < PTS,
                forall|i: int| 0 <= i < cur ==> #[trigger] self.removed_idx[i] == base[i],
                forall|i: int| 0 <= i < cur ==> #[trigger] self.removed_idx[i] < PTS,
                forall|i: int| cur < i <= top ==> self.removed_idx[i] == base[i - 1],
                forall|i: int|
                    cur < i <= top ==> self.removed_times[self.removed_idx[i] as int]
                        > top_removed_times,
            decreases cur,
        {
            self.removed_idx[cur] = self.removed_idx[cur - 1];
            cur -= 1;
        }
        self.removed_idx[cur] = id;
        proof {
            let c = cur as int;
            let after = self.pool();
            assert(after =~= base.drop_last().insert(c, base.last()));
            assert(slid(base, after, c));
            assert forall|i: int| 0 <= i < self.size implies #[trigger] self.removed_idx[i] < PTS by {
                if i < c {
                } else if i == c {
                } else {
                    assert(self.removed_idx[i] == base[i - 1]);
                }
            }
            assert forall|i: int| c < i < self.size implies self.times()[after[i] as int]
                > self.times()[after[c] as int] by {
                assert(after[i] == self.removed_idx[i]);
            }
            assert forall|i: int, j: int| 0 <= i <= j < after.len() implies self.times()[after[i] as int]
                <= self.times()[after[j] as int] by {
                if i < c {
                    assert(after[i] == base.drop_last()[i]);
                    if c > 0 {
                        assert(base.drop_last()[c - 1] == self.removed_idx[c - 1]);
                    }
                    if j < c {
                        assert(after[j] == base.drop_last()[j]);
                    } else if j > c {
                        assert(after[j] == base.drop_last()[j - 1]);
                    }
                } else if i > c {
                    assert(after[i] == base.drop_last()[i - 1]);
                    assert(after[j] == base.drop_last()[j - 1]);
                }
            }
            assert forall|v: usize| after.contains(v) <==> base.contains(v) by {
                if after.contains(v) {
                    let i = choose|i: int| 0 <= i < after.len() && after[i] == v;
                    let pi = if i < c {
                        i
                    } else if i == c {
                        top as int
                    } else {
                        i - 1
                    };
                    assert(base[pi] == v);
                }
                if base.contains(v) {
                    let i = choose|i: int| 0 <= i < base.len() && base[i] == v;
                    let pi = if i < c {
                        i
                    } else if i == top {
                        c
                    } else {
                        i + 1
                    };
                    assert(after[pi] == v);
                }
            }
            assert forall|i: int, j: int|
                0 <= i < after.len() && 0 <= j < after.len() && i != j implies after[i] != after[j] by {
                let pi = if i < c {
                    i
                } else if i == c {
                    top as int
                } else {
                    i - 1
                };
                let pj = if j < c {
                    j
                } else if j == c {
                    top as int
                } else {
                    j - 1
                };
                assert(after[i] == base[pi]);
                assert(after[j] == base[pj]);
            }
        }
    }

    /// Appends `idx` to the pool. The order of the pool is restored by
    /// [`Heap::sort`] or has to hold by the caller's choice of `idx`.
    pub fn push(&mut self, idx: usize)
        requires
            old(self).size < PTS,
        ensures
            final(self).pool() == old(self).pool().push(idx),
            final(self).size == old(self).size + 1,
            final(self).times() == old(self).times(),
    {
        self.removed_idx[self.size] = idx;
        self.size += 1;
        assert(self.pool() =~= old(self).pool().push(idx));
    }

    /// Sorts the pool by ejection count; pickups of equal count keep their
    /// order, and what the array holds behind the pool stays.
    pub fn sort(&mut self)
        requires
            old(self).bounded(),
        ensures
            final(self).bounded(),
            final(self).size == old(self).size,
            final(self).times() == old(self).times(),
            is_stable_sort(final(self).pool(), old(self).pool(), final(self).times()),
            ascending(final(self).pool(), final(self).times()),
            old(self).pool().no_duplicates() ==> final(self).pool().no_duplicates(),
            final(self).removed_idx@.skip(old(self).size as int) == old(self).removed_idx@.skip(
                old(self).size as int,
            ),
    {
        sort_by_times(&mut self.removed_idx, self.size, &self.removed_times);
        proof {
            let out = self.pool();
            let inp = old(self).pool();
            let perm = choose|perm: Seq<int>| stable_sort_by(out, inp, self.times(), perm);
            assert forall|i: int| 0 <= i < self.size implies #[trigger] self.removed_idx[i] < PTS by {
                assert(out[i] == inp[perm[i]]);
                assert(inp[perm[i]] == old(self).removed_idx[perm[i]]);
            }
            if inp.no_duplicates() {
                assert forall|i: int, j: int|
                    0 <= i < out.len() && 0 <= j < out.len() && i != j implies out[i] != out[j] by {
                    assert(out[i] == inp[perm[i]]);
                    assert(out[j] == inp[perm[j]]);
                    assert(perm[i] != perm[j]);
                }
            }
        }
    }

    /// The most ejected pickup, if the pool is not empty.
    pub fn top(&self) -> (r: Option<usize>)
        requires
            self.size <= PTS,
        ensures
            r == if self.size == 0 {
                None
            } else {
                Some(self.pool().last())
            },
    {
        if self.size != 0 {
            Some(self.removed_idx[self.size - 1])
        } else {
            None
        }
    }

    /// Drops the most ejected pickup from the pool.
    pub fn pop(&mut self)
        requires
            0 < old(self).size <= PTS,
        ensures
            final(self).pool() == old(self).pool().drop_last(),
            final(self).size == old(self).size - 1,
            final(self).times() == old(self).times(),
    {
        self.size -= 1;
        assert(self.pool() =~= old(self).pool().drop_last());
    }

    /// The pool with each pickup's ejection count, least ejected first.
    pub fn entries(&self) -> (r: Vec<(usize, u64)>)
        requires
            self.bounded(),
        ensures
            r@.len() == self.size,
            forall|i: int|
                0 <= i < self.size ==> r@[i] == (self.pool()[i], self.times()[self.pool()[i] as int]),
    {
        let mut out: Vec<(usize, u64)> = Vec::new();
        let mut i: usize = 0;
        while i < self.size
            invariant
                self.bounded(),
                i <= self.size,
                out@.len() == i,
                forall|j: int|
                    0 <= j < i ==> out@[j] == (self.pool()[j], self.times()[self.pool()[j] as int]),
            decreases self.size - i,
        {
            let id = self.removed_idx[i];
            out.push((id, self.removed_times[id]));
            i += 1;
        }
        out
    }
}

} // verus!
