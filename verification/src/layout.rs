use vstd::prelude::*;

verus! {

/// The routes of a solution as sequences: every route under the id of its
/// first node, and for every served node the route that holds it and its
/// position there.
pub struct Layout {
    pub tours: Map<usize, Seq<usize>>,
    pub owner: Map<usize, usize>,
    pub slot: Map<usize, int>,
}

impl Layout {
    /// No routes at all.
    pub open spec fn empty() -> Layout {
        Layout { tours: Map::empty(), owner: Map::empty(), slot: Map::empty() }
    }

    /// `v` is part of a route.
    pub open spec fn served(self, v: usize) -> bool {
        self.owner.dom().contains(v)
    }

    /// `r` names a route.
    pub open spec fn has(self, r: usize) -> bool {
        self.tours.dom().contains(r)
    }

    /// The route that holds `v`.
    pub open spec fn tour_of(self, v: usize) -> Seq<usize> {
        self.tours[self.owner[v]]
    }

    /// The node after `v` in its route, the depot after the last one.
    #[verifier::opaque]
    pub open spec fn succ(self, v: usize) -> usize {
        let s = self.tour_of(v);
        let i = self.slot[v];
        if i + 1 < s.len() {
            s[i + 1]
        } else {
            0
        }
    }

    /// The node before `v` in its route, the depot before the first one.
    #[verifier::opaque]
    pub open spec fn pred(self, v: usize) -> usize {
        let s = self.tour_of(v);
        let i = self.slot[v];
        if i > 0 {
            s[i - 1]
        } else {
            0
        }
    }

    /// Routes are non-empty and named by their first node; `owner` and
    /// `slot` locate exactly the nodes that the routes hold, all of them
    /// customers below `points`.
    pub open spec fn wf(self, points: int) -> bool {
        &&& forall|v: usize| #[trigger]
            self.served(v) ==> {
                &&& 0 < v < points
                &&& self.slot.dom().contains(v)
                &&& self.has(self.owner[v])
                &&& 0 <= self.slot[v] < self.tour_of(v).len()
                &&& self.tour_of(v)[self.slot[v]] == v
            }
        &&& forall|r: usize, i: int|
            self.has(r) && 0 <= i < self.tours[r].len() ==> {
                &&& self.served(#[trigger] self.tours[r][i])
                &&& self.owner[self.tours[r][i]] == r
                &&& self.slot[self.tours[r][i]] == i
            }
        &&& forall|r: usize| #[trigger] self.has(r) ==> self.tours[r].len() > 0 && self.tours[r][0] == r
    }

    /// `(before, after)` is a gap of a route: two consecutive nodes, or the
    /// depot and a first node, or a last node and the depot.
    pub open spec fn gap(self, before: usize, after: usize) -> bool {
        &&& before != 0 || after != 0
        &&& before == 0 ==> self.served(after) && self.slot[after] == 0
        &&& before != 0 ==> self.served(before) && self.succ(before) == after
    }

    /// Key of the route that has the gap `(before, after)`.
    pub open spec fn gap_owner(self, before: usize, after: usize) -> usize {
        if before == 0 {
            self.owner[after]
        } else {
            self.owner[before]
        }
    }

    /// Position that a node put into the gap `(before, after)` takes.
    pub open spec fn gap_slot(self, before: usize, after: usize) -> int {
        if before == 0 {
            0
        } else {
            self.slot[before] + 1
        }
    }

    /// The layout without the served node `x`.
    #[verifier::opaque]
    pub open spec fn detach(self, x: usize) -> Layout {
        let r = self.owner[x];
        let i = self.slot[x];
        let s2 = self.tours[r].remove(i);
        let rest = self.tours.remove(r);
        Layout {
            tours: if s2.len() == 0 {
                rest
            } else {
                rest.insert(s2[0], s2)
            },
            owner: Map::new(
                |v: usize| self.served(v) && v != x,
                |v: usize|
                    if self.owner[v] == r {
                        s2[0]
                    } else {
                        self.owner[v]
                    },
            ),
            slot: Map::new(
                |v: usize| self.served(v) && v != x,
                |v: usize|
                    if self.owner[v] == r && self.slot[v] > i {
                        self.slot[v] - 1
                    } else {
                        self.slot[v]
                    },
            ),
        }
    }

    /// The layout with the unserved node `x` put into the gap
    /// `(before, after)`.
    #[verifier::opaque]
    pub open spec fn attach(self, x: usize, before: usize, after: usize) -> Layout {
        let r = self.gap_owner(before, after);
        let i = self.gap_slot(before, after);
        let s2 = self.tours[r].insert(i, x);
        Layout {
            tours: self.tours.remove(r).insert(s2[0], s2),
            owner: Map::new(
                |v: usize| self.served(v) || v == x,
                |v: usize|
                    if v == x || self.owner[v] == r {
                        s2[0]
                    } else {
                        self.owner[v]
                    },
            ),
            slot: Map::new(
                |v: usize| self.served(v) || v == x,
                |v: usize|
                    if v == x {
                        i
                    } else if self.owner[v] == r && self.slot[v] >= i {
                        self.slot[v] + 1
                    } else {
                        self.slot[v]
                    },
            ),
        }
    }

    /// The layout with one more route, made of unserved nodes.
    pub open spec fn with_tour(self, s: Seq<usize>) -> Layout {
        Layout {
            tours: self.tours.insert(s[0], s),
            owner: Map::new(
                |v: usize| self.served(v) || s.contains(v),
                |v: usize|
                    if s.contains(v) {
                        s[0]
                    } else {
                        self.owner[v]
                    },
            ),
            slot: Map::new(
                |v: usize| self.served(v) || s.contains(v),
                |v: usize|
                    if s.contains(v) {
                        s.index_of(v)
                    } else {
                        self.slot[v]
                    },
            ),
        }
    }

    /// The layout without the route `r`.
    pub open spec fn without_tour(self, r: usize) -> Layout {
        Layout {
            tours: self.tours.remove(r),
            owner: Map::new(|v: usize| self.served(v) && self.owner[v] != r, |v: usize| self.owner[v]),
            slot: Map::new(|v: usize| self.served(v) && self.owner[v] != r, |v: usize| self.slot[v]),
        }
    }

    /// A route holds no node twice, and holds the nodes it owns.
    pub proof fn lemma_tour_distinct(self, points: int, r: usize)
        requires
            self.wf(points),
            self.has(r),
        ensures
            self.tours[r].no_duplicates(),
            forall|i: int| 0 <= i < self.tours[r].len() ==> 0 < #[trigger] self.tours[r][i] < points,
    {
        let s = self.tours[r];
        assert forall|i: int, j: int| 0 <= i < s.len() && 0 <= j < s.len() && i != j implies s[i]
            != s[j] by {
            assert(self.slot[self.tours[r][i]] == i);
            assert(self.slot[self.tours[r][j]] == j);
        }
        assert forall|i: int| 0 <= i < s.len() implies 0 < #[trigger] s[i] < points by {
            assert(self.served(self.tours[r][i]));
        }
    }

    /// Neighbours: `x` follows `v` exactly when `v` precedes `x`; a
    /// neighbour is the depot or a served node of the same route.
    pub proof fn lemma_neighbours(self, points: int, v: usize)
        requires
            self.wf(points),
            self.served(v),
        ensures
            self.succ(v) != v,
            self.pred(v) != v,
            self.succ(v) != 0 ==> self.served(self.succ(v)) && self.pred(self.succ(v)) == v
                && self.owner[self.succ(v)] == self.owner[v] && self.slot[self.succ(v)]
                == self.slot[v] + 1,
            self.pred(v) != 0 ==> self.served(self.pred(v)) && self.succ(self.pred(v)) == v
                && self.owner[self.pred(v)] == self.owner[v] && self.slot[self.pred(v)]
                == self.slot[v] - 1,
            self.succ(v) == 0 <==> self.slot[v] == self.tour_of(v).len() - 1,
            self.pred(v) == 0 <==> self.slot[v] == 0,
            self.pred(v) == 0 <==> self.owner[v] == v,
            self.succ(v) == stop_at(self.tour_of(v), self.slot[v] + 1),
            self.pred(v) == stop_at(self.tour_of(v), self.slot[v] - 1),
    {
        reveal(Layout::succ);
        reveal(Layout::pred);
        let r = self.owner[v];
        let s = self.tours[r];
        let i = self.slot[v];
        assert(self.has(r));
        if i + 1 < s.len() {
            assert(self.served(self.tours[r][i + 1]));
            assert(self.slot[self.tours[r][i + 1]] == i + 1);
        }
        if i > 0 {
            assert(self.served(self.tours[r][i - 1]));
            assert(self.slot[self.tours[r][i - 1]] == i - 1);
        }
        assert(self.slot[self.tours[r][0]] == 0);
    }

    /// Detaching a node closes the gap it leaves and changes nothing else.
    pub proof fn lemma_detach(self, points: int, x: usize)
        requires
            self.wf(points),
            self.served(x),
        ensures
            self.detach(x).wf(points),
            !self.detach(x).served(x),
            forall|v: usize| v != x ==> self.detach(x).served(v) == self.served(v),
            forall|v: usize|
                self.served(v) && v != x ==> {
                    &&& #[trigger] self.detach(x).succ(v) == if self.succ(v) == x {
                        self.succ(x)
                    } else {
                        self.succ(v)
                    }
                    &&& self.detach(x).pred(v) == if self.pred(v) == x {
                        self.pred(x)
                    } else {
                        self.pred(v)
                    }
                },
            forall|v: usize|
                self.served(v) && self.owner[v] != self.owner[x] ==> {
                    &&& #[trigger] self.detach(x).owner[v] == self.owner[v]
                    &&& self.detach(x).slot[v] == self.slot[v]
                    &&& self.detach(x).tour_of(v) == self.tour_of(v)
                },
            forall|v: usize|
                self.served(v) && v != x && self.owner[v] == self.owner[x] ==> {
                    &&& #[trigger] self.detach(x).tour_of(v) == self.tour_of(x).remove(self.slot[x])
                    &&& self.detach(x).owner[v] == self.tour_of(x).remove(self.slot[x])[0]
                    &&& self.detach(x).slot[v] == if self.slot[v] > self.slot[x] {
                        self.slot[v] - 1
                    } else {
                        self.slot[v]
                    }
                },
    {
        reveal(Layout::detach);
        reveal(Layout::succ);
        reveal(Layout::pred);
        let l2 = self.detach(x);
        let r = self.owner[x];
        let i = self.slot[x];
        let s = self.tours[r];
        let s2 = s.remove(i);
        assert(self.has(r));
        self.lemma_tour_distinct(points, r);
        assert forall|k: int| 0 <= k < s2.len() implies #[trigger] s2[k] == s[if k < i {
            k
        } else {
            k + 1
        }] by {}
        if s2.len() > 0 {
            let r2 = s2[0];
            assert(r2 == s[if 0 < i {
                0int
            } else {
                1int
            }]);
            assert(self.served(self.tours[r][if 0 < i {
                0int
            } else {
                1int
            }]));
            assert(self.owner[r2] == r);
            // no other route is named r2
            assert forall|q: usize| self.has(q) && q != r implies q != r2 by {
                assert(self.tours[q][0] == q);
                assert(self.owner[self.tours[q][0]] == q);
            }
        }
        assert forall|v: usize| #[trigger] l2.served(v) implies {
            &&& 0 < v < points
            &&& l2.slot.dom().contains(v)
            &&& l2.has(l2.owner[v])
            &&& 0 <= l2.slot[v] < l2.tour_of(v).len()
            &&& l2.tour_of(v)[l2.slot[v]] == v
        } by {
            assert(self.served(v));
            if self.owner[v] == r {
                let j = self.slot[v];
                assert(s[j] == v);
                assert(j != i);
                let k = if j > i {
                    j - 1
                } else {
                    j
                };
                assert(s2[k] == v);
            } else {
                assert(self.has(self.owner[v]));
            }
        }
        assert forall|q: usize, k: int| l2.has(q) && 0 <= k < l2.tours[q].len() implies {
            &&& l2.served(#[trigger] l2.tours[q][k])
            &&& l2.owner[l2.tours[q][k]] == q
            &&& l2.slot[l2.tours[q][k]] == k
        } by {
            if s2.len() > 0 && q == s2[0] {
                let j = if k < i {
                    k
                } else {
                    k + 1
                };
                assert(s2[k] == s[j]);
                assert(self.served(self.tours[r][j]));
                assert(self.slot[self.tours[r][j]] == j);
            } else {
                assert(self.has(q));
                assert(q != r);
                assert(l2.tours[q] == self.tours[q]);
                assert(self.served(self.tours[q][k]));
                assert(self.owner[self.tours[q][k]] == q);
            }
        }
        assert forall|q: usize| #[trigger] l2.has(q) implies l2.tours[q].len() > 0 && l2.tours[q][0]
            == q by {
            if s2.len() > 0 && q == s2[0] {
            } else {
                assert(self.has(q));
            }
        }
        assert forall|v: usize| self.served(v) && v != x implies {
            &&& #[trigger] l2.succ(v) == if self.succ(v) == x {
                self.succ(x)
            } else {
                self.succ(v)
            }
            &&& l2.pred(v) == if self.pred(v) == x {
                self.pred(x)
            } else {
                self.pred(v)
            }
        } by {
            self.lemma_neighbours(points, v);
            self.lemma_neighbours(points, x);
            if self.owner[v] == r {
                let j = self.slot[v];
                assert(s[j] == v);
                assert(j != i);
                assert(l2.tour_of(v) == s2);
            } else {
                assert(self.has(self.owner[v]));
                assert(l2.tour_of(v) == self.tour_of(v));
            }
        }
        assert forall|v: usize| self.served(v) && self.owner[v] != self.owner[x] implies {
            &&& #[trigger] l2.owner[v] == self.owner[v]
            &&& l2.slot[v] == self.slot[v]
            &&& l2.tour_of(v) == self.tour_of(v)
        } by {
            assert(self.has(self.owner[v]));
        }
        assert forall|v: usize| self.served(v) && v != x && self.owner[v] == self.owner[x] implies {
            &&& #[trigger] l2.tour_of(v) == s2
            &&& l2.owner[v] == s2[0]
        } by {
            let j = self.slot[v];
            assert(s[j] == v);
            assert(j != i);
        }
    }

    /// Attaching a node opens the gap for it and changes nothing else.
    pub proof fn lemma_attach(self, points: int, x: usize, before: usize, after: usize)
        requires
            self.wf(points),
            !self.served(x),
            0 < x < points,
            self.gap(before, after),
        ensures
            self.attach(x, before, after).wf(points),
            forall|v: usize| self.attach(x, before, after).served(v) == (self.served(v) || v == x),
            self.attach(x, before, after).succ(x) == after,
            self.attach(x, before, after).pred(x) == before,
            self.attach(x, before, after).tour_of(x) == self.tours[self.gap_owner(before, after)].insert(
                self.gap_slot(before, after),
                x,
            ),
            self.attach(x, before, after).slot[x] == self.gap_slot(before, after),
            self.attach(x, before, after).tours == self.tours.remove(
                self.gap_owner(before, after),
            ).insert(
                self.attach(x, before, after).owner[x],
                self.tours[self.gap_owner(before, after)].insert(self.gap_slot(before, after), x),
            ),
            forall|v: usize|
                self.served(v) ==> {
                    &&& #[trigger] self.attach(x, before, after).succ(v) == if v == before {
                        x
                    } else {
                        self.succ(v)
                    }
                    &&& self.attach(x, before, after).pred(v) == if v == after {
                        x
                    } else {
                        self.pred(v)
                    }
                },
            forall|v: usize|
                self.served(v) && self.owner[v] != self.gap_owner(before, after) ==> {
                    &&& #[trigger] self.attach(x, before, after).owner[v] == self.owner[v]
                    &&& self.attach(x, before, after).slot[v] == self.slot[v]
                    &&& self.attach(x, before, after).tour_of(v) == self.tour_of(v)
                },
            forall|v: usize|
                self.served(v) && self.owner[v] == self.gap_owner(before, after) ==> {
                    &&& #[trigger] self.attach(x, before, after).tour_of(v)
                        == self.attach(x, before, after).tour_of(x)
                    &&& self.attach(x, before, after).owner[v] == self.attach(x, before, after).owner[x]
                    &&& self.attach(x, before, after).slot[v] == if self.slot[v] >= self.gap_slot(
                        before,
                        after,
                    ) {
                        self.slot[v] + 1
                    } else {
                        self.slot[v]
                    }
                },
    {
        reveal(Layout::attach);
        reveal(Layout::succ);
        reveal(Layout::pred);
        let l2 = self.attach(x, before, after);
        let r = self.gap_owner(before, after);
        let i = self.gap_slot(before, after);
        let s = self.tours[r];
        if before == 0 {
            assert(self.served(after));
        } else {
            assert(self.served(before));
            self.lemma_neighbours(points, before);
        }
        assert(self.has(r));
        assert(0 <= i <= s.len());
        let s2 = s.insert(i, x);
        s.insert_ensures(i, x);
        let r2 = s2[0];
        assert forall|k: int| 0 <= k < s2.len() implies #[trigger] s2[k] == if k < i {
            s[k]
        } else if k == i {
            x
        } else {
            s[k - 1]
        } by {}
        assert(stop_at(s2, i + 1) == after) by {
            if before == 0 {
                assert(self.tour_of(after)[self.slot[after]] == after);
            } else {
                if i < s.len() {
                    assert(s2[i + 1] == s[i]);
                }
            }
        }
        assert(stop_at(s2, i - 1) == before) by {
            if before != 0 {
                assert(self.tour_of(before)[self.slot[before]] == before);
                assert(s2[i - 1] == s[i - 1]);
            }
        }
        assert forall|q: usize| self.has(q) && q != r implies q != r2 by {
            assert(self.tours[q][0] == q);
            assert(self.owner[self.tours[q][0]] == q);
            if i == 0 {
                assert(r2 == x);
                assert(self.served(self.tours[q][0]));
            } else {
                assert(r2 == s[0]);
                assert(self.served(self.tours[r][0]));
                assert(self.owner[self.tours[r][0]] == r);
            }
        }
        assert forall|v: usize| #[trigger] l2.served(v) implies {
            &&& 0 < v < points
            &&& l2.slot.dom().contains(v)
            &&& l2.has(l2.owner[v])
            &&& 0 <= l2.slot[v] < l2.tour_of(v).len()
            &&& l2.tour_of(v)[l2.slot[v]] == v
        } by {
            if v == x {
                assert(s2[i] == x);
            } else {
                assert(self.served(v));
                if self.owner[v] == r {
                    let j = self.slot[v];
                    assert(s[j] == v);
                    let k = if j >= i {
                        j + 1
                    } else {
                        j
                    };
                    assert(s2[k] == v);
                } else {
                    assert(self.has(self.owner[v]));
                }
            }
        }
        assert forall|q: usize, k: int| l2.has(q) && 0 <= k < l2.tours[q].len() implies {
            &&& l2.served(#[trigger] l2.tours[q][k])
            &&& l2.owner[l2.tours[q][k]] == q
            &&& l2.slot[l2.tours[q][k]] == k
        } by {
            if q == r2 {
                if k < i {
                    assert(s2[k] == s[k]);
                    assert(self.served(self.tours[r][k]));
                    assert(self.slot[self.tours[r][k]] == k);
                } else if k == i {
                } else {
                    assert(s2[k] == s[k - 1]);
                    assert(self.served(self.tours[r][k - 1]));
                    assert(self.slot[self.tours[r][k - 1]] == k - 1);
                }
            } else {
                assert(self.has(q));
                assert(q != r);
                assert(l2.tours[q] == self.tours[q]);
                assert(self.served(self.tours[q][k]));
                assert(self.owner[self.tours[q][k]] == q);
            }
        }
        assert forall|q: usize| #[trigger] l2.has(q) implies l2.tours[q].len() > 0 && l2.tours[q][0]
            == q by {
            if q == r2 {
            } else {
                assert(self.has(q));
            }
        }
        assert forall|v: usize| self.served(v) implies {
            &&& #[trigger] l2.succ(v) == if v == before {
                x
            } else {
                self.succ(v)
            }
            &&& l2.pred(v) == if v == after {
                x
            } else {
                self.pred(v)
            }
        } by {
            self.lemma_neighbours(points, v);
            if self.owner[v] == r {
                let j = self.slot[v];
                assert(s[j] == v);
                assert(l2.tour_of(v) == s2);
                if j + 1 < s.len() {
                    assert(self.slot[self.tours[r][j + 1]] == j + 1);
                }
                if j > 0 {
                    assert(self.slot[self.tours[r][j - 1]] == j - 1);
                }
                if before != 0 {
                    assert(self.slot[before] == i - 1);
                }
                if after != 0 {
                    if before == 0 {
                        assert(self.slot[after] == 0);
                    } else {
                        assert(s[i] == after);
                        assert(self.slot[self.tours[r][i]] == i);
                    }
                }
            } else {
                assert(self.has(self.owner[v]));
                assert(l2.tour_of(v) == self.tour_of(v));
                if before != 0 {
                    assert(self.owner[before] == r);
                }
                if after != 0 {
                    if before == 0 {
                    } else {
                        assert(s[i] == after);
                        assert(self.owner[self.tours[r][i]] == r);
                    }
                }
            }
        }
        assert forall|v: usize| self.served(v) && self.owner[v] != r implies {
            &&& #[trigger] l2.owner[v] == self.owner[v]
            &&& l2.slot[v] == self.slot[v]
            &&& l2.tour_of(v) == self.tour_of(v)
        } by {
            assert(self.has(self.owner[v]));
        }
    }
    /// Detaching a pickup and its delivery: the two nodes leave their route,
    /// the nodes behind them move up, and every other route stays as it is.
    pub proof fn lemma_detach_pair(self, points: int, p: usize, d: usize)
        requires
            self.wf(points),
            self.served(p),
            self.served(d),
            self.owner[p] == self.owner[d],
            self.slot[p] < self.slot[d],
        ensures
            self.detach(p).served(d),
            self.detach(p).wf(points),
            self.detach(p).detach(d).wf(points),
            forall|v: usize|
                self.detach(p).detach(d).served(v) == (self.served(v) && v != p && v != d),
            self.detach(p).detach(d).tours == self.pair_gone(p, d),
            self.tour_of(p).remove(self.slot[d]).remove(self.slot[p]).len() > 0
                ==> !self.tours.remove(self.owner[p]).dom().contains(
                self.tour_of(p).remove(self.slot[d]).remove(self.slot[p])[0],
            ),
            forall|v: usize|
                self.served(v) && self.owner[v] != self.owner[p] ==> {
                    &&& #[trigger] self.detach(p).detach(d).owner[v] == self.owner[v]
                    &&& self.detach(p).detach(d).slot[v] == self.slot[v]
                    &&& self.detach(p).detach(d).tour_of(v) == self.tour_of(v)
                },
            forall|v: usize|
                self.served(v) && self.owner[v] == self.owner[p] && v != p && v != d ==> {
                    &&& #[trigger] self.detach(p).detach(d).tour_of(v) == self.tour_of(p).remove(
                        self.slot[d],
                    ).remove(self.slot[p])
                    &&& self.detach(p).detach(d).owner[v] == self.tour_of(p).remove(
                        self.slot[d],
                    ).remove(self.slot[p])[0]
                    &&& self.detach(p).detach(d).slot[v] == self.slot[v] - if self.slot[v]
                        > self.slot[p] {
                        1int
                    } else {
                        0int
                    } - if self.slot[v] > self.slot[d] {
                        1int
                    } else {
                        0int
                    }
                },
    {
        let r = self.owner[p];
        let s = self.tours[r];
        let a = self.slot[p];
        let b = self.slot[d];
        reveal(Layout::detach);
        let l1 = self.detach(p);
        self.lemma_detach(points, p);
        let s1 = s.remove(a);
        assert(self.has(r));
        assert(s[b] == d);
        assert(s1[b - 1] == d);
        assert(l1.served(d));
        assert(l1.tour_of(d) == s1);
        assert(l1.slot[d] == b - 1);
        l1.lemma_detach(points, d);
        let l2 = l1.detach(d);
        let s2 = s.remove(b).remove(a);
        assert(s1.remove(b - 1) =~= s2);
        let r1 = s1[0];
        assert(l1.owner[d] == r1);
        let rest = self.tours.remove(r);
        assert forall|q: usize| self.has(q) && q != r implies q != r1 by {
            assert(self.tours[q][0] == q);
            assert(self.owner[self.tours[q][0]] == q);
            let j = if 0 < a {
                0int
            } else {
                1int
            };
            assert(r1 == s[j]);
            assert(self.owner[self.tours[r][j]] == r);
        }
        assert(!rest.dom().contains(r1)) by {
            if self.has(r1) && r1 != r {
                assert(false);
            }
        }
        assert(rest.insert(r1, s1).remove(r1) =~= rest);
        if s2.len() > 0 {
            assert forall|q: usize| self.has(q) && q != r implies q != s2[0] by {
                assert(self.tours[q][0] == q);
                assert(self.owner[self.tours[q][0]] == q);
                let j = skip_two(a, b, 0);
                assert(s2[0] == s[j]);
                assert(self.owner[self.tours[r][j]] == r);
            }
            assert(!rest.dom().contains(s2[0])) by {
                if self.has(s2[0]) && s2[0] != r {
                    assert(false);
                }
            }
        }
        assert(l2.tours =~= self.pair_gone(p, d));
        assert forall|v: usize|
            self.served(v) && self.owner[v] == self.owner[p] && v != p && v != d implies {
            &&& #[trigger] l2.tour_of(v) == s2
            &&& l2.owner[v] == s2[0]
            &&& l2.slot[v] == self.slot[v] - if self.slot[v] > a {
                1int
            } else {
                0int
            } - if self.slot[v] > b {
                1int
            } else {
                0int
            }
        } by {
            assert(l1.served(v));
            assert(l1.owner[v] == l1.owner[d]);
            assert(s[self.slot[v]] == v);
        }
        assert forall|v: usize| self.served(v) && self.owner[v] != self.owner[p] implies {
            &&& #[trigger] l2.owner[v] == self.owner[v]
            &&& l2.slot[v] == self.slot[v]
            &&& l2.tour_of(v) == self.tour_of(v)
        } by {
            assert(l1.served(v));
            assert(l1.owner[v] == self.owner[v]);
            assert(self.has(self.owner[v]));
            assert(l1.owner[v] != r1);
        }
    }

    /// The layout with the pickup `p` put into the gap `pb` and then its
    /// delivery `d` into the gap `db`.
    pub open spec fn put(self, p: usize, pb: (usize, usize), d: usize, db: (usize, usize)) -> Layout {
        self.attach(p, pb.0, pb.1).attach(d, db.0, db.1)
    }

    /// `p` and `d` can be put into the gaps `pb` and `db`, in this order, and
    /// `p` then precedes `d` in one route.
    pub open spec fn takes(
        self,
        points: int,
        p: usize,
        pb: (usize, usize),
        d: usize,
        db: (usize, usize),
    ) -> bool {
        &&& !self.served(p)
        &&& !self.served(d)
        &&& p != d
        &&& 0 < p < points
        &&& 0 < d < points
        &&& self.gap(pb.0, pb.1)
        &&& self.attach(p, pb.0, pb.1).gap(db.0, db.1)
        &&& self.put(p, pb, d, db).owner[p] == self.put(p, pb, d, db).owner[d]
        &&& self.put(p, pb, d, db).slot[p] < self.put(p, pb, d, db).slot[d]
    }

    /// Putting a pair into a route: the two nodes join that route, its
    /// other nodes keep their order, and every other route stays as it is.
    pub proof fn lemma_put(
        self,
        points: int,
        p: usize,
        pb: (usize, usize),
        d: usize,
        db: (usize, usize),
    )
        requires
            self.wf(points),
            self.takes(points, p, pb, d, db),
        ensures
            self.attach(p, pb.0, pb.1).wf(points),
            !self.attach(p, pb.0, pb.1).served(d),
            self.put(p, pb, d, db).wf(points),
            self.has(self.gap_owner(pb.0, pb.1)),
            self.put(p, pb, d, db).has(self.put(p, pb, d, db).owner[p]),
            forall|v: usize|
                self.put(p, pb, d, db).served(v) == (self.served(v) || v == p || v == d),
            self.put(p, pb, d, db).tours.dom() == self.tours.dom().remove(
                self.gap_owner(pb.0, pb.1),
            ).insert(self.put(p, pb, d, db).owner[p]),
            self.put(p, pb, d, db).owner[p] == if pb.0 == 0 {
                p
            } else {
                self.gap_owner(pb.0, pb.1)
            },
            forall|q: usize|
                #[trigger] self.put(p, pb, d, db).has(q) && q != self.put(p, pb, d, db).owner[p] ==> {
                    &&& self.has(q)
                    &&& q != self.gap_owner(pb.0, pb.1)
                    &&& self.put(p, pb, d, db).tours[q] == self.tours[q]
                },
            forall|v: usize|
                self.served(v) && self.owner[v] != self.gap_owner(pb.0, pb.1) ==> {
                    &&& #[trigger] self.put(p, pb, d, db).owner[v] == self.owner[v]
                    &&& self.put(p, pb, d, db).owner[v] != self.put(p, pb, d, db).owner[p]
                    &&& self.put(p, pb, d, db).slot[v] == self.slot[v]
                    &&& self.put(p, pb, d, db).tour_of(v) == self.tour_of(v)
                },
            forall|v: usize|
                self.served(v) && self.owner[v] == self.gap_owner(pb.0, pb.1) ==> {
                    &&& #[trigger] self.put(p, pb, d, db).owner[v] == self.put(p, pb, d, db).owner[p]
                    &&& self.put(p, pb, d, db).slot[v] >= self.slot[v]
                },
            forall|v: usize, w: usize|
                self.served(v) && self.served(w) && self.owner[v] == self.owner[w] && self.slot[v]
                    < self.slot[w] ==> #[trigger] self.put(p, pb, d, db).slot[v] < #[trigger] self.put(
                    p,
                    pb,
                    d,
                    db,
                ).slot[w],
    {
        let r = self.gap_owner(pb.0, pb.1);
        let l1 = self.attach(p, pb.0, pb.1);
        let l2 = l1.attach(d, db.0, db.1);
        self.lemma_attach(points, p, pb.0, pb.1);
        assert(!l1.served(d));
        l1.lemma_attach(points, d, db.0, db.1);
        if pb.0 == 0 {
            assert(self.served(pb.1));
        } else {
            assert(self.served(pb.0));
        }
        assert(self.has(r));
        let r1 = l1.owner[p];
        let q1 = l1.gap_owner(db.0, db.1);
        assert(l1.served(p));
        assert(l1.has(r1));
        // the delivery joins the route of the pickup
        if q1 != r1 {
            assert(l2.tour_of(p) == l1.tour_of(p));
            assert(l2.served(d));
            let k = l2.slot[d];
            assert(l2.tour_of(d)[k] == d);
            assert(l1.tours[r1][k] == d);
            assert(l1.served(l1.tours[r1][k]));
            assert(false);
        }
        let s = self.tours[r];
        let i = self.gap_slot(pb.0, pb.1);
        let s1 = s.insert(i, p);
        s.insert_ensures(i, p);
        assert(l1.tours[r1] == s1);
        assert(r1 == s1[0]);
        let j = l1.gap_slot(db.0, db.1);
        assert(l2.slot[d] == j);
        assert(l1.slot[p] == i);
        assert(j > 0) by {
            assert(l2.slot[p] == if i >= j {
                i + 1
            } else {
                i
            });
        }
        let s2 = s1.insert(j, d);
        s1.insert_ensures(j, d);
        assert(l2.tour_of(d) == s2);
        assert(s2[0] == s1[0]);
        assert(l2.owner[d] == r1);
        assert(l2.owner[p] == r1);
        assert(r1 == if pb.0 == 0 {
            p
        } else {
            r
        }) by {
            if pb.0 != 0 {
                assert(self.tours[r][0] == r);
                assert(s1[0] == s[0]);
                self.lemma_neighbours(points, pb.0);
            }
        }
        assert forall|v: usize| self.served(v) && self.owner[v] != r implies {
            &&& #[trigger] l2.owner[v] == self.owner[v]
            &&& l2.owner[v] != l2.owner[p]
            &&& l2.slot[v] == self.slot[v]
            &&& l2.tour_of(v) == self.tour_of(v)
        } by {
            assert(l1.owner[v] == self.owner[v]);
            assert(l1.served(v));
            assert(self.has(self.owner[v]));
            if l1.owner[v] == r1 {
                let q = self.owner[v];
                assert(self.tours[q][0] == q);
                assert(self.owner[self.tours[q][0]] == q);
                if pb.0 == 0 {
                    assert(!self.served(p));
                    assert(self.served(self.tours[q][0]));
                }
                assert(false);
            }
        }
        assert forall|v: usize| self.served(v) && self.owner[v] == r implies {
            &&& #[trigger] l2.owner[v] == l2.owner[p]
            &&& l2.slot[v] >= self.slot[v]
        } by {
            assert(l1.served(v));
            assert(l1.owner[v] == r1);
        }
        assert forall|v: usize, w: usize|
            self.served(v) && self.served(w) && self.owner[v] == self.owner[w] && self.slot[v]
                < self.slot[w] implies #[trigger] l2.slot[v] < #[trigger] l2.slot[w] by {
            assert(l1.served(v));
            assert(l1.served(w));
            if self.owner[v] == r {
                assert(l1.owner[v] == r1);
                assert(l1.owner[w] == r1);
            } else {
                assert(l1.owner[v] != r1);
            }
        }
        assert(l1.tours == self.tours.remove(r).insert(r1, s1));
        assert(l2.tours == l1.tours.remove(r1).insert(r1, s2));
        assert(l2.tours.dom() =~= self.tours.dom().remove(r).insert(r1));
    }

    /// A new route of unserved nodes: its nodes are served in the order of
    /// the sequence, and every other route stays as it is.
    pub proof fn lemma_with_tour(self, points: int, s: Seq<usize>)
        requires
            self.wf(points),
            s.len() > 0,
            s.no_duplicates(),
            forall|i: int| 0 <= i < s.len() ==> 0 < #[trigger] s[i] < points && !self.served(s[i]),
        ensures
            self.with_tour(s).wf(points),
            !self.has(s[0]),
            self.with_tour(s).tours == self.tours.insert(s[0], s),
            forall|v: usize| self.with_tour(s).served(v) == (self.served(v) || s.contains(v)),
            forall|i: int|
                0 <= i < s.len() ==> {
                    &&& self.with_tour(s).owner[#[trigger] s[i]] == s[0]
                    &&& self.with_tour(s).slot[s[i]] == i
                    &&& self.with_tour(s).tour_of(s[i]) == s
                    &&& self.with_tour(s).succ(s[i]) == stop_at(s, i + 1)
                    &&& self.with_tour(s).pred(s[i]) == stop_at(s, i - 1)
                },
            forall|v: usize|
                self.served(v) ==> {
                    &&& #[trigger] self.with_tour(s).owner[v] == self.owner[v]
                    &&& self.with_tour(s).slot[v] == self.slot[v]
                    &&& self.with_tour(s).tour_of(v) == self.tour_of(v)
                    &&& self.with_tour(s).succ(v) == self.succ(v)
                    &&& self.with_tour(s).pred(v) == self.pred(v)
                },
    {
        reveal(Layout::succ);
        reveal(Layout::pred);
        let l2 = self.with_tour(s);
        if self.has(s[0]) {
            assert(self.served(self.tours[s[0]][0]));
            assert(false);
        }
        assert forall|i: int| 0 <= i < s.len() implies s.contains(#[trigger] s[i]) && s.index_of(s[i])
            == i by {
            assert(s.contains(s[i]));
            let j = s.index_of(s[i]);
            assert(0 <= j < s.len() && s[j] == s[i]);
        }
        assert forall|v: usize| self.served(v) implies !s.contains(v) by {
            if s.contains(v) {
                let i = choose|i: int| 0 <= i < s.len() && s[i] == v;
                assert(!self.served(s[i]));
            }
        }
        assert forall|v: usize| #[trigger] l2.served(v) implies {
            &&& 0 < v < points
            &&& l2.slot.dom().contains(v)
            &&& l2.has(l2.owner[v])
            &&& 0 <= l2.slot[v] < l2.tour_of(v).len()
            &&& l2.tour_of(v)[l2.slot[v]] == v
        } by {
            if s.contains(v) {
                let i = choose|i: int| 0 <= i < s.len() && s[i] == v;
                assert(s.index_of(s[i]) == i);
            } else {
                assert(self.served(v));
                assert(self.has(self.owner[v]));
            }
        }
        assert forall|q: usize, k: int| l2.has(q) && 0 <= k < l2.tours[q].len() implies {
            &&& l2.served(#[trigger] l2.tours[q][k])
            &&& l2.owner[l2.tours[q][k]] == q
            &&& l2.slot[l2.tours[q][k]] == k
        } by {
            if q == s[0] {
                assert(s.contains(s[k]) && s.index_of(s[k]) == k);
            } else {
                assert(self.has(q));
                assert(self.served(self.tours[q][k]));
                assert(self.owner[self.tours[q][k]] == q);
                assert(!s.contains(self.tours[q][k]));
            }
        }
        assert forall|q: usize| #[trigger] l2.has(q) implies l2.tours[q].len() > 0 && l2.tours[q][0]
            == q by {
            if q != s[0] {
                assert(self.has(q));
            }
        }
        assert forall|v: usize| self.served(v) implies {
            &&& #[trigger] l2.owner[v] == self.owner[v]
            &&& l2.slot[v] == self.slot[v]
            &&& l2.tour_of(v) == self.tour_of(v)
            &&& l2.succ(v) == self.succ(v)
            &&& l2.pred(v) == self.pred(v)
        } by {
            assert(!s.contains(v));
            assert(self.has(self.owner[v]));
        }
    }

    /// Without a route: its nodes are unserved, and every other route stays
    /// as it is.
    pub proof fn lemma_without_tour(self, points: int, r: usize)
        requires
            self.wf(points),
            self.has(r),
        ensures
            self.without_tour(r).wf(points),
            self.without_tour(r).tours == self.tours.remove(r),
            forall|v: usize|
                self.without_tour(r).served(v) == (self.served(v) && self.owner[v] != r),
            forall|v: usize|
                self.served(v) && self.owner[v] != r ==> {
                    &&& #[trigger] self.without_tour(r).owner[v] == self.owner[v]
                    &&& self.without_tour(r).slot[v] == self.slot[v]
                    &&& self.without_tour(r).tour_of(v) == self.tour_of(v)
                    &&& self.without_tour(r).succ(v) == self.succ(v)
                    &&& self.without_tour(r).pred(v) == self.pred(v)
                },
    {
        reveal(Layout::succ);
        reveal(Layout::pred);
        let l2 = self.without_tour(r);
        assert forall|v: usize| #[trigger] l2.served(v) implies {
            &&& 0 < v < points
            &&& l2.slot.dom().contains(v)
            &&& l2.has(l2.owner[v])
            &&& 0 <= l2.slot[v] < l2.tour_of(v).len()
            &&& l2.tour_of(v)[l2.slot[v]] == v
        } by {
            assert(self.served(v));
            assert(self.has(self.owner[v]));
        }
        assert forall|q: usize, k: int| l2.has(q) && 0 <= k < l2.tours[q].len() implies {
            &&& l2.served(#[trigger] l2.tours[q][k])
            &&& l2.owner[l2.tours[q][k]] == q
            &&& l2.slot[l2.tours[q][k]] == k
        } by {
            assert(self.has(q));
            assert(self.served(self.tours[q][k]));
            assert(self.owner[self.tours[q][k]] == q);
        }
        assert forall|q: usize| #[trigger] l2.has(q) implies l2.tours[q].len() > 0 && l2.tours[q][0]
            == q by {
            assert(self.has(q));
        }
        assert forall|v: usize| self.served(v) && self.owner[v] != r implies {
            &&& #[trigger] l2.owner[v] == self.owner[v]
            &&& l2.slot[v] == self.slot[v]
            &&& l2.tour_of(v) == self.tour_of(v)
            &&& l2.succ(v) == self.succ(v)
            &&& l2.pred(v) == self.pred(v)
        } by {
            assert(self.has(self.owner[v]));
        }
    }

    /// Number of routes.
    pub open spec fn count(self) -> nat {
        self.tours.dom().len()
    }

    /// A pair that leaves its route takes the route with it exactly when
    /// it was alone there.
    pub proof fn lemma_detach_pair_count(self, points: int, p: usize, d: usize)
        requires
            self.wf(points),
            self.served(p),
            self.served(d),
            self.owner[p] == self.owner[d],
            self.slot[p] < self.slot[d],
            self.tours.dom().finite(),
        ensures
            self.detach(p).detach(d).tours.dom().finite(),
            self.detach(p).detach(d).count() == self.count() - if self.tour_of(p).len() == 2 {
                1int
            } else {
                0int
            },
    {
        let r = self.owner[p];
        let s2 = self.tours[r].remove(self.slot[d]).remove(self.slot[p]);
        self.lemma_detach_pair(points, p, d);
        assert(self.has(r));
        assert(self.tours.remove(r).dom() =~= self.tours.dom().remove(r));
        if s2.len() > 0 {
            assert(self.tours.remove(r).insert(s2[0], s2).dom() =~= self.tours.dom().remove(r).insert(
                s2[0],
            ));
        }
    }

    /// Putting a pair into a route keeps the number of routes.
    pub proof fn lemma_put_count(
        self,
        points: int,
        p: usize,
        pb: (usize, usize),
        d: usize,
        db: (usize, usize),
    )
        requires
            self.wf(points),
            self.takes(points, p, pb, d, db),
            self.tours.dom().finite(),
        ensures
            self.put(p, pb, d, db).tours.dom().finite(),
            self.put(p, pb, d, db).count() == self.count(),
    {
        let g = self.gap_owner(pb.0, pb.1);
        self.lemma_put(points, p, pb, d, db);
        if self.has(p) {
            assert(self.served(self.tours[p][0]));
        }
    }

    /// The routes once the pair `(p, d)` has left its route: the route is
    /// shorter by the two nodes, named by its new first node, or gone when
    /// nothing is left of it.
    pub open spec fn pair_gone(self, p: usize, d: usize) -> Map<usize, Seq<usize>> {
        let r = self.owner[p];
        let s2 = self.tours[r].remove(self.slot[d]).remove(self.slot[p]);
        if s2.len() == 0 {
            self.tours.remove(r)
        } else {
            self.tours.remove(r).insert(s2[0], s2)
        }
    }
}

/// Position in a sequence of the element that is at position `k` once the
/// elements at `a` and `b`, `a` before `b`, have been taken out.
pub open spec fn skip_two(a: int, b: int, k: int) -> int {
    if k < a {
        k
    } else if k < b - 1 {
        k + 1
    } else {
        k + 2
    }
}


/// Node at position `i` of `s`, the depot outside it.
pub open spec fn stop_at(s: Seq<usize>, i: int) -> usize {
    if 0 <= i < s.len() {
        s[i]
    } else {
        0
    }
}

} // verus!
