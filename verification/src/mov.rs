use crate::chance::draw;
use crate::{K_MAX, UNSERVED};
use vstd::prelude::*;

verus! {

/// A slot of a route: the gap between two consecutive nodes.
#[derive(Debug, Copy, Clone, PartialEq)]
pub struct Between(pub usize, pub usize);

/// A proposed insertion of the pair of `pickup`, with the number of feasible
/// placements seen so far and the pickups that have to leave to make room.
#[derive(Debug, PartialEq, Copy, Clone)]
pub struct Move {
    pub pickup: usize,
    pub put_pickup_between: Between,
    pub put_delivery_between: Between,
    pub times: usize,
    pub removed: [usize; K_MAX],
}

impl Move {
    /// The placement this move currently holds.
    pub open spec fn placement(&self) -> (Between, Between) {
        (self.put_pickup_between, self.put_delivery_between)
    }

    /// A move without a placement.
    pub fn new(pickup: usize) -> (r: Self)
        ensures
            r.pickup == pickup,
            r.times == 0,
            r.put_pickup_between == Between(UNSERVED, UNSERVED),
            r.put_delivery_between == Between(UNSERVED, UNSERVED),
            r.removed@ == Seq::new(K_MAX as nat, |i: int| 0usize),
    {
        let unassigned = Between(UNSERVED, UNSERVED);
        let r = Self {
            pickup,
            put_pickup_between: unassigned,
            put_delivery_between: unassigned,
            times: 0,
            removed: [0;K_MAX],
        };
        assert(r.removed@ =~= Seq::new(K_MAX as nat, |i: int| 0usize));
        r
    }

    /// Counts one more feasible placement and adopts it when `draw`, taken
    /// from `1..=times`, is 1.
    pub fn switch_on(
        &mut self,
        draw: usize,
        put_pickup_between: &Between,
        put_delivery_between: &Between,
    )
        requires
            old(self).times < usize::MAX,
        ensures
            final(self).times == old(self).times + 1,
            final(self).pickup == old(self).pickup,
            final(self).removed == old(self).removed,
            final(self).placement() == if draw == 1 {
                (*put_pickup_between, *put_delivery_between)
            } else {
                old(self).placement()
            },
    {
        self.times += 1;
        if draw == 1 {
            self.put_pickup_between = *put_pickup_between;
            self.put_delivery_between = *put_delivery_between;
        }
    }

    /// Reservoir step: counts one more feasible placement and adopts it with
    /// probability one in the new count. The first placement is always
    /// adopted.
    pub fn maybe_switch(&mut self, put_pickup_between: &Between, put_delivery_between: &Between)
        requires
            old(self).times < usize::MAX,
        ensures
            final(self).times == old(self).times + 1,
            final(self).pickup == old(self).pickup,
            final(self).removed == old(self).removed,
            final(self).placement() == (*put_pickup_between, *put_delivery_between) || (old(self).times > 0 && final(self).placement() == old(self).placement()),
    {
        let r = draw(1, self.times + 1);
        self.switch_on(r, put_pickup_between, put_delivery_between);
    }

    /// Merges the count of `other` into `self` and adopts the placement and
    /// ejections of `other` when `draw`, taken from `1..=times`, is at most
    /// the count of `other`.
    pub fn pick_on(&mut self, draw: usize, other: &Self)
        requires
            old(self).times + other.times <= usize::MAX,
        ensures
            final(self).times == old(self).times + other.times,
            final(self).pickup == old(self).pickup,
            draw <= other.times ==> final(self).placement() == other.placement() && final(self).removed == other.removed,
            draw > other.times ==> final(self).placement() == old(self).placement() && final(self).removed == old(self).removed,
    {
        self.times += other.times;
        if draw <= other.times {
            self.put_pickup_between = other.put_pickup_between;
            self.put_delivery_between = other.put_delivery_between;
            self.removed = other.removed;
        }
    }

    /// Merges two reservoirs: the counts add up and the placement of `other`
    /// wins with probability proportional to its count. An empty side never
    /// wins.
    pub fn pick(&mut self, other: &Self)
        requires
            0 < old(self).times + other.times <= usize::MAX,
        ensures
            final(self).times == old(self).times + other.times,
            final(self).pickup == old(self).pickup,
            (other.times > 0 && final(self).placement() == other.placement() && final(self).removed == other.removed) || (old(self).times > 0 && final(self).placement() == old(self).placement() && final(self).removed == old(self).removed),
    {
        let r = draw(1, self.times + other.times);
        self.pick_on(r, other);
    }

    /// By-value form of [`Move::pick_on`]: the winner is returned whole, with
    /// the merged count.
    pub fn pick2_on(self, draw: usize, other: Self) -> (r: Self)
        requires
            self.times + other.times <= usize::MAX,
        ensures
            r.times == self.times + other.times,
            draw <= other.times ==> r == (Move { times: r.times, ..other }),
            draw > other.times ==> r == (Move { times: r.times, ..self }),
    {
        let times = self.times + other.times;
        if draw <= other.times {
            Move { times, ..other }
        } else {
            Move { times, ..self }
        }
    }

    /// By-value form of [`Move::pick`].
    pub fn pick2(self, other: Self) -> (r: Self)
        requires
            0 < self.times + other.times <= usize::MAX,
        ensures
            r.times == self.times + other.times,
            (other.times > 0 && r == (Move { times: r.times, ..other })) || (self.times > 0 && r
                == (Move { times: r.times, ..self })),
    {
        let r = draw(1, self.times + other.times);
        self.pick2_on(r, other)
    }

    /// Whether a placement has been recorded.
    pub fn is_not_empty(&self) -> (r: bool)
        ensures
            r == (self.times != 0),
    {
        self.times != 0
    }
}

/// Two moves that exchange one pair between two routes.
pub struct Swap {
    pub a: Move,
    pub b: Move,
}

impl Swap {
    /// A swap of two pickups, without placements yet.
    pub fn new(a_pickup: usize, b_pickup: usize) -> (r: Self)
        ensures
            r.a.pickup == a_pickup,
            r.b.pickup == b_pickup,
            r.a.times == 0,
            r.b.times == 0,
    {
        Self { a: Move::new(a_pickup), b: Move::new(b_pickup) }
    }

    /// Whether the swap holds placements.
    pub fn is_not_empty(&self) -> (r: bool)
        ensures
            r == (self.a.times != 0),
    {
        self.a.is_not_empty()
    }
}

} // verus!
