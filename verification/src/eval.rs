use crate::data::{Data, MAX_DEM, MAX_LEG, PTS};
use vstd::prelude::*;

verus! {

/// A vehicle standing at `node` with the cumulative distance, time and load
/// of the stops made so far.
pub struct Eval {
    pub node: usize,
    pub distance: u64,
    pub time: u64,
    pub capacity: i32,
}

/// Mathematical value of an [`Eval`], over unbounded integers.
pub struct EvalView {
    pub node: int,
    pub distance: int,
    pub time: int,
    pub load: int,
}

/// The larger of two integers.
pub open spec fn max_int(a: int, b: int) -> int {
    if a >= b {
        a
    } else {
        b
    }
}

/// The smaller of two integers.
pub open spec fn min_int(a: int, b: int) -> int {
    if a <= b {
        a
    } else {
        b
    }
}

impl EvalView {
    /// The empty vehicle at the depot at time zero.
    pub open spec fn origin() -> EvalView {
        EvalView { node: 0, distance: 0, time: 0, load: 0 }
    }

    /// State after driving on to `next`, waiting there for its ready time and
    /// taking its demand on board.
    pub open spec fn step(self, data: &Data, next: int) -> EvalView {
        EvalView {
            node: next,
            distance: self.distance + data.dist_of(self.node, next),
            time: max_int(self.time + data.time_of(self.node, next), data.start_of(next)),
            load: self.load + data.dem_of(next),
        }
    }

    /// Service at the current node starts no later than its due time.
    pub open spec fn on_time(self, data: &Data) -> bool {
        self.time <= data.due_of(self.node)
    }

    /// On time and with a load between zero and the vehicle's capacity.
    pub open spec fn feasible(self, data: &Data) -> bool {
        &&& self.on_time(data)
        &&& 0 <= self.load <= data.max_cap
    }

    /// Time at which service at `ins` would start when driving there next.
    pub open spec fn service_start(self, data: &Data, ins: int) -> int {
        max_int(self.time + data.time_of(self.node, ins), data.start_of(ins))
    }

    /// `ins` can be visited next in time, and `after` is then still reached
    /// by `latest`.
    pub open spec fn admits(self, data: &Data, ins: int, after: int, latest: int) -> bool {
        &&& self.service_start(data, ins) <= data.due_of(ins)
        &&& self.service_start(data, ins) + data.time_of(ins, after) <= latest
    }

    /// The state is what at most `k` legs can produce.
    pub open spec fn within(self, k: int) -> bool {
        &&& 0 <= self.distance <= k * MAX_LEG
        &&& 0 <= self.time <= k * MAX_LEG
        &&& -k * MAX_DEM <= self.load <= k * MAX_DEM
    }

    /// One more leg keeps the state within one more unit.
    pub proof fn lemma_step_within(self, data: &Data, next: int, k: int)
        requires
            data.sized(),
            0 <= self.node < data.points,
            0 <= next < data.points,
            0 <= k,
            self.within(k),
        ensures
            self.step(data, next).within(k + 1),
            self.step(data, next).node == next,
            self.step(data, next).time >= self.time + data.time_of(self.node, next),
            self.step(data, next).time >= data.start_of(next),
    {
        assert(data.dist_of(self.node, next) <= MAX_LEG);
        assert(data.time_of(self.node, next) <= MAX_LEG);
        assert(data.start_of(next) <= MAX_LEG);
        assert((k + 1) * MAX_LEG == k * MAX_LEG + MAX_LEG) by (nonlinear_arith);
        assert((k + 1) * MAX_DEM == k * MAX_DEM + MAX_DEM) by (nonlinear_arith);
        assert(-(k + 1) * MAX_DEM == -k * MAX_DEM - MAX_DEM) by (nonlinear_arith);
    }
}

impl View for Eval {
    type V = EvalView;

    open spec fn view(&self) -> EvalView {
        EvalView {
            node: self.node as int,
            distance: self.distance as int,
            time: self.time as int,
            load: self.capacity as int,
        }
    }
}

impl Eval {
    /// The state leaves room for one more leg without overflow.
    pub open spec fn roomy(&self) -> bool {
        self@.within(PTS as int)
    }

    /// The empty vehicle at the depot.
    pub fn new() -> (r: Self)
        ensures
            r@ == EvalView::origin(),
    {
        Eval { node: 0, distance: 0, time: 0, capacity: 0 }
    }

    /// Copies `other` into `self`.
    pub fn reset_to(&mut self, other: &Self)
        ensures
            *final(self) == *other,
    {
        self.node = other.node;
        self.distance = other.distance;
        self.time = other.time;
        self.capacity = other.capacity;
    }

    /// Advances to `next_node`.
    pub fn next(&mut self, next_node: usize, data: &Data)
        requires
            data.sized(),
            old(self).node < data.points,
            next_node < data.points,
            old(self).roomy(),
        ensures
            final(self)@ == old(self)@.step(data, next_node as int),
    {
        proof {
            self@.lemma_step_within(data, next_node as int, PTS as int);
        }
        let start = data.pts[next_node].start;
        let dem = data.pts[next_node].dem;
        self.distance += data.dist_between(self.node, next_node);
        self.time += data.time_between(self.node, next_node);
        if self.time < start {
            self.time = start;
        }
        self.capacity += dem;
        self.node = next_node;
    }

    /// Whether `inserted_node_id` can be visited next without missing its due
    /// time and without reaching `next_node_id` later than
    /// `latest_feasible_departure_from_next`.
    pub fn can_delivery_be_inserted(
        &mut self,
        inserted_node_id: usize,
        next_node_id: usize,
        data: &Data,
        latest_feasible_departure_from_next: u64,
    ) -> (r: bool)
        requires
            data.sized(),
            old(self).node < data.points,
            inserted_node_id < data.points,
            next_node_id < data.points,
            old(self).roomy(),
        ensures
            *final(self) == *old(self),
            r == old(self)@.admits(
                data,
                inserted_node_id as int,
                next_node_id as int,
                latest_feasible_departure_from_next as int,
            ),
    {
        proof {
            assert(data.time_of(self.node as int, inserted_node_id as int) <= MAX_LEG);
            assert(data.time_of(inserted_node_id as int, next_node_id as int) <= MAX_LEG);
            assert(data.start_of(inserted_node_id as int) <= MAX_LEG);
        }
        let start = data.pts[inserted_node_id].start;
        let due = data.pts[inserted_node_id].due;
        let inserted_arrival = self.time + data.time_between(self.node, inserted_node_id);
        let inserted_service_start = if inserted_arrival < start {
            start
        } else {
            inserted_arrival
        };
        let next_arrival = inserted_service_start + data.time_between(
            inserted_node_id,
            next_node_id,
        );
        inserted_service_start <= due && next_arrival <= latest_feasible_departure_from_next
    }

    /// On time at the current node and loaded within the vehicle's capacity.
    pub fn is_feasible(&self, data: &Data) -> (r: bool)
        requires
            self.node < PTS,
        ensures
            r == self@.feasible(data),
    {
        self.time <= data.pts[self.node].due && 0 <= self.capacity && self.capacity
            <= data.max_cap
    }

    /// Service at the current node would start after its due time.
    pub fn arrives_too_late(&self, data: &Data) -> (r: bool)
        requires
            self.node < PTS,
        ensures
            r == !self@.on_time(data),
    {
        self.time > data.pts[self.node].due
    }
}

} // verus!
