use crate::evaluator::comb::{leads, raised, Combinations};
use vstd::prelude::*;

verus! {

/// Number of ways to choose `k` out of `n` things.
pub open spec fn binom(n: int, k: int) -> int
    decreases n,
{
    if k <= 0 {
        1
    } else if n <= 0 {
        0
    } else {
        binom(n - 1, k - 1) + binom(n - 1, k)
    }
}

/// `binom(m - 1, r) + binom(m - 2, r - 1) + ... + binom(m - r, 1)`.
pub open spec fn diagonal(m: int, r: int) -> int
    decreases r,
{
    if r <= 0 {
        0
    } else {
        binom(m - 1, r) + diagonal(m - 1, r - 1)
    }
}

/// Number of subsets of `k` out of `n` positions that come behind `x` in
/// lexicographic order, counted from the position `from` of `x` on: for
/// each position of `x` the subsets that agree with `x` before it and are
/// larger there.
pub open spec fn behind(x: Seq<usize>, from: int, k: int, n: int) -> int
    decreases k - from,
{
    if from >= k {
        0
    } else {
        binom(n - 1 - x[from], k - from) + behind(x, from + 1, k, n)
    }
}

/// There is no way to choose more than there is.
pub proof fn lemma_binom_none(n: int, k: int)
    requires
        0 <= n < k,
    ensures
        binom(n, k) == 0,
    decreases n,
{
    if n > 0 {
        lemma_binom_none(n - 1, k - 1);
        lemma_binom_none(n - 1, k);
    }
}

/// The diagonal below `binom(m, r)` sums to one less than it.
pub proof fn lemma_diagonal(m: int, r: int)
    requires
        0 <= r <= m,
    ensures
        diagonal(m, r) == binom(m, r) - 1,
    decreases r,
{
    if r > 0 {
        lemma_diagonal(m - 1, r - 1);
    }
}

/// Positions that follow one another directly from `first` on have the
/// diagonal below `binom(n - first, k - from)` behind them.
pub proof fn lemma_behind_run(x: Seq<usize>, from: int, k: int, n: int, first: int)
    requires
        0 <= from <= k,
        forall|j: int| from <= j < k ==> #[trigger] x[j] == first + (j - from),
    ensures
        behind(x, from, k, n) == diagonal(n - first, k - from),
    decreases k - from,
{
    if from < k {
        assert(x[from] == first);
        assert forall|j: int| from + 1 <= j < k implies #[trigger] x[j] == first + 1 + (j - (from + 1)) by {
            assert(x[j] == first + (j - from));
        }
        lemma_behind_run(x, from + 1, k, n, first + 1);
    }
}

/// Positions that fill the end of the catalog have nothing behind them.
pub proof fn lemma_behind_end(x: Seq<usize>, from: int, k: int, n: int)
    requires
        0 <= from <= k <= n,
        forall|j: int| from <= j < k ==> #[trigger] x[j] == n - k + j,
    ensures
        behind(x, from, k, n) == 0,
    decreases k - from,
{
    if from < k {
        assert(x[from] == n - k + from);
        lemma_binom_none(k - from - 1, k - from);
        lemma_behind_end(x, from + 1, k, n);
    }
}

/// What is behind a subset from `a` on is what its positions up to `i`
/// contribute and what is behind it from `i` on.
pub proof fn lemma_behind_same(x: Seq<usize>, y: Seq<usize>, a: int, i: int, k: int, n: int)
    requires
        0 <= a <= i <= k,
        forall|j: int| a <= j < i ==> x[j] == y[j],
    ensures
        behind(x, a, k, n) - behind(x, i, k, n) == behind(y, a, k, n) - behind(y, i, k, n),
    decreases i - a,
{
    if a < i {
        lemma_behind_same(x, y, a + 1, i, k, n);
    }
}

/// The first subset has all the others behind it.
pub proof fn lemma_behind_first(x: Seq<usize>, k: int, n: int)
    requires
        0 <= k <= n,
        leads(x, k),
    ensures
        behind(x, 0, k, n) == binom(n, k) - 1,
{
    assert forall|j: int| 0 <= j < k implies #[trigger] x[j] == 0 + (j - 0) by {}
    lemma_behind_run(x, 0, k, n, 0);
    lemma_diagonal(n, k);
}

impl Combinations {
    /// Each time the generator moves on, one subset less is behind the
    /// current one.
    pub proof fn lemma_behind_next(&self, i: int)
        requires
            self.ordered(),
            0 <= i < self.k,
            self.stuck(i + 1),
            self.combination_indices2@[i] + 1 != self.combination_indices2@[i + 1],
        ensures
            behind(raised(self.combination_indices2@, i, self.k as int), 0, self.k as int, self.held())
                == behind(self.combination_indices2@, 0, self.k as int, self.held()) - 1,
    {
        let c = self.combination_indices2@;
        let k = self.k as int;
        let n = self.held();
        let c2 = raised(c, i, k);
        self.lemma_stuck_tail(i + 1);
        self.lemma_index_below(i);
        assert(c[i] < c[i + 1]);
        assert(c[i] + (k - i) < n);
        lemma_behind_same(c, c2, 0, i, k, n);
        assert forall|j: int| i <= j < k implies #[trigger] c2[j] == c[i] + 1 + (j - i) by {}
        lemma_behind_run(c2, i, k, n, c[i] + 1);
        lemma_diagonal(n - 1 - c[i], k - i);
        assert(diagonal(n - (c[i] + 1), k - i) == binom(n - 1 - c[i], k - i) - 1);
        assert forall|j: int| i + 1 <= j < k implies #[trigger] c[j] == n - k + j by {
            self.lemma_tail_at(i + 1, j);
        }
        lemma_behind_end(c, i + 1, k, n);
        assert(behind(c, i, k, n) == binom(n - 1 - c[i], k - i) + behind(c, i + 1, k, n));
    }

    /// An index in a tail of indices that cannot be raised is as far from
    /// the end of the catalog as from the end of the subset.
    pub proof fn lemma_tail_at(&self, from: int, j: int)
        requires
            self.ordered(),
            0 <= from <= j <= self.k,
            self.stuck(from),
        ensures
            self.combination_indices2@[j] == self.held() - (self.k - j),
        decreases j - from,
    {
        if from < j {
            assert(self.combination_indices2@[from] + 1 == self.combination_indices2@[from + 1]);
            assert(self.stuck(from + 1));
            self.lemma_tail_at(from + 1, j);
        } else {
            self.lemma_stuck_tail(from);
        }
    }

    /// Where no index can be raised, no subset is behind the current one.
    pub proof fn lemma_behind_last(&self)
        requires
            self.ordered(),
            self.stuck(0),
        ensures
            behind(self.combination_indices2@, 0, self.k as int, self.held()) == 0,
    {
        let c = self.combination_indices2@;
        let k = self.k as int;
        let n = self.held();
        assert forall|j: int| 0 <= j < k implies #[trigger] c[j] == n - k + j by {
            self.lemma_tail_at(0, j);
        }
        lemma_behind_end(c, 0, k, n);
    }
}

} // verus!
