use crate::data::PTS;
use crate::route::{lemma_half_pickups, stop};
use crate::sol::Sol;
use crate::UNSERVED;
use vstd::prelude::*;
use vstd::std_specs::hash::spec_hash_keys_iter;
use vstd::std_specs::iter::IteratorSpec;

verus! {

impl<'a> Sol<'a> {
    /// The chain that `next` draws from `v` reaches the depot within `fuel`
    /// steps; every node of it is marked with the route `r` and points back
    /// at the node before it, the first of them at `before`.
    pub open spec fn chain_sound(&self, r: usize, before: usize, v: usize, fuel: nat) -> bool
        decreases fuel,
    {
        if v == 0 {
            true
        } else if fuel == 0 || v >= PTS {
            false
        } else {
            &&& self.prev@[v as int] == before
            &&& self.first@[v as int] == r
            &&& self.chain_sound(r, v, self.next@[v as int], (fuel - 1) as nat)
        }
    }

    /// Number of nodes on the chain from `v` to the depot, followed for
    /// `fuel` steps at most.
    pub open spec fn chain_len(&self, v: usize, fuel: nat) -> nat
        decreases fuel,
    {
        if v == 0 || fuel == 0 || v >= PTS {
            0
        } else {
            1 + self.chain_len(self.next@[v as int], (fuel - 1) as nat)
        }
    }

    /// The chain of the route `r` is in order from its first node to the
    /// depot and holds an even number of nodes.
    pub open spec fn route_sound(&self, r: usize) -> bool {
        &&& r != 0
        &&& self.chain_sound(r, 0, r, PTS as nat)
        &&& self.chain_len(r, PTS as nat) % 2 == 0
    }

    /// The links of the node `i` are in order: it is linked in both
    /// directions or in none, not to itself, and each neighbour that is no
    /// depot points back at it.
    pub open spec fn node_sound(&self, i: usize) -> bool {
        let p = self.prev@[i as int];
        let n = self.next@[i as int];
        &&& p != i
        &&& n != i
        &&& (n == UNSERVED) == (p == UNSERVED)
        &&& p == 0 || p == UNSERVED || (p < PTS && self.next@[p as int] == i)
        &&& n == 0 || n == UNSERVED || (n < PTS && self.prev@[n as int] == i)
    }

    /// The chains of all routes and the links of all customers are in
    /// order.
    pub open spec fn chains_sound(&self) -> bool {
        &&& forall|r: usize| self.routes@.contains(r) ==> #[trigger] self.route_sound(r)
        &&& forall|i: usize| 0 < i < self.data.points ==> #[trigger] self.node_sound(i)
    }

    /// Whether the chain of the route `r` is in order.
    fn check_chain(&self, r: usize) -> (ok: bool)
        ensures
            ok == self.route_sound(r),
    {
        if r == 0 {
            return false;
        }
        let mut z: usize = r;
        let mut before: usize = 0;
        let mut steps: usize = 0;
        while z != 0
            invariant
                steps <= PTS,
                self.chain_sound(r, 0, r, PTS as nat) == self.chain_sound(
                    r,
                    before,
                    z,
                    (PTS - steps) as nat,
                ),
                self.chain_len(r, PTS as nat) == steps + self.chain_len(z, (PTS - steps) as nat),
            decreases PTS - steps,
        {
            if steps == PTS || z >= PTS {
                return false;
            }
            if self.prev[z] != before || self.first[z] != r {
                return false;
            }
            before = z;
            z = self.next[z];
            steps += 1;
        }
        steps % 2 == 0
    }

    /// Whether the links of the node `i` are in order.
    fn check_node(&self, i: usize) -> (ok: bool)
        requires
            i < PTS,
        ensures
            ok == self.node_sound(i),
    {
        let p = self.prev[i];
        let n = self.next[i];
        if p == i || n == i {
            return false;
        }
        if (n == UNSERVED) != (p == UNSERVED) {
            return false;
        }
        if p != 0 && p != UNSERVED {
            if p >= PTS || self.next[p] != i {
                return false;
            }
        }
        if n != 0 && n != UNSERVED {
            if n >= PTS || self.prev[n] != i {
                return false;
            }
        }
        true
    }

    /// Walks the chain of every route and looks at the links of every
    /// customer: tells whether all of them are in order. The solution is
    /// left as it is.
    pub fn check_routes(&mut self) -> (ok: bool)
        requires
            old(self).data.points <= PTS,
        ensures
            *final(self) == *old(self),
            ok == old(self).chains_sound(),
    {
        let ghost keys = spec_hash_keys_iter(&self.routes).remaining();
        for route in it: self.routes.iter()
            invariant
                *self == *old(self),
                it.seq() == keys,
                keys == spec_hash_keys_iter(&self.routes).remaining(),
                forall|j: int| 0 <= j < it.index() ==> self.route_sound(*(#[trigger] keys[j])),
        {
            proof {
                assert(keys.unref().to_set().contains(keys.unref()[it.index()]));
                assert(*keys[it.index()] == *route);
            }
            if !self.check_chain(*route) {
                proof {
                    assert(self.routes@.contains(*route));
                }
                return false;
            }
        }
        proof {
            assert(keys.unref().to_set() == self.routes@);
            assert forall|r: usize| self.routes@.contains(r) implies #[trigger] self.route_sound(r) by {
                let j = choose|j: int| 0 <= j < keys.unref().len() && keys.unref()[j] == r;
                assert(*keys[j] == r);
            }
        }
        let mut i: usize = 1;
        while i < self.data.points
            invariant
                *self == *old(self),
                self.data.points <= PTS,
                1 <= i,
                forall|r: usize| self.routes@.contains(r) ==> #[trigger] self.route_sound(r),
                forall|v: usize| 0 < v < i ==> #[trigger] self.node_sound(v),
            decreases self.data.points - i,
        {
            if !self.check_node(i) {
                return false;
            }
            i += 1;
        }
        true
    }

    /// The chain of a route of a well-formed solution is in order from any
    /// of its nodes on, and as long as what is left of the route.
    pub proof fn lemma_chain_from(&self, r: usize, i: int, fuel: nat)
        requires
            self.wf(),
            self@.has(r),
            0 <= i <= self@.tours[r].len(),
            fuel >= self@.tours[r].len() - i,
        ensures
            self.chain_sound(
                r,
                stop(self@.tours[r], i - 1) as usize,
                stop(self@.tours[r], i) as usize,
                fuel,
            ),
            self.chain_len(stop(self@.tours[r], i) as usize, fuel) == self@.tours[r].len() - i,
        decreases self@.tours[r].len() - i,
    {
        let s = self@.tours[r];
        self.lemma_route_shape(r);
        if i < s.len() {
            let v = s[i];
            assert(0 < self@.tours[r][i] < PTS);
            self.lemma_link_at(r, i);
            assert(self.cached_at(v));
            self.lemma_chain_from(r, i + 1, (fuel - 1) as nat);
        }
    }

    /// In a well-formed solution the chains of all routes and the links of
    /// all customers are in order.
    pub proof fn lemma_chains_sound(&self)
        requires
            self.wf(),
        ensures
            self.chains_sound(),
    {
        let l = self@;
        assert forall|r: usize| self.routes@.contains(r) implies #[trigger] self.route_sound(r) by {
            assert(l.has(r));
            self.lemma_route_shape(r);
            self.lemma_coupled(r);
            lemma_half_pickups(self.data, l.tours[r]);
            assert(l.tours[r][0] == r);
            self.lemma_chain_from(r, 0, PTS as nat);
        }
        assert forall|i: usize| 0 < i < self.data.points implies #[trigger] self.node_sound(i) by {
            if l.served(i) {
                l.lemma_neighbours(self.data.points as int, i);
                let p = l.pred(i);
                let n = l.succ(i);
                if p != 0 {
                    assert(l.served(p));
                }
                if n != 0 {
                    assert(l.served(n));
                }
            }
        }
    }
}

} // verus!
