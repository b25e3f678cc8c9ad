use vstd::prelude::*;

verus! {

/// Capacity of every node-indexed table.
pub const PTS: usize = 2000;

/// Number of cells in a flattened `PTS` x `PTS` matrix.
pub const SIZE: usize = PTS * PTS;

/// Fixed-point scale applied to every time and distance.
pub const MULT: u64 = 10000;

/// Largest travel time, distance or ready time a table may hold. A route
/// visits fewer than `PTS` nodes, so sums of legs stay far below `u64::MAX`.
pub const MAX_LEG: u64 = 0x4_0000_0000_0000;

/// Largest absolute demand of a node, small enough that the load of a whole
/// route fits an `i32`.
pub const MAX_DEM: i32 = 1_000_000;

/// Attributes of one node: signed demand, time window, partner and role.
#[derive(Default, Copy, Clone, Debug)]
pub struct PointData {
    pub dem: i32,
    pub start: u64,
    pub due: u64,
    pub pair: usize,
    pub is_delivery: bool,
}

/// The instance: flattened distance and travel-time matrices, the node
/// table, the vehicle capacity and the number of nodes in use. Node 0 is the
/// depot.
#[derive(Debug)]
pub struct Data {
    pub dist: Vec<u64>,
    pub pts: [PointData; PTS],
    pub max_cap: i32,
    pub time: Vec<u64>,
    pub points: usize,
}

/// A node as an instance file gives it: planar coordinates, demand, time
/// window and service duration in unscaled units, its partner and its role.
#[derive(Copy, Clone, Debug)]
pub struct Site {
    pub x: i64,
    pub y: i64,
    pub demand: i32,
    pub ready: u64,
    pub due: u64,
    pub service: u64,
    pub pair: usize,
    pub is_delivery: bool,
}

/// Largest absolute coordinate of a site.
pub const MAX_COORD: i64 = 0x10_0000;

/// Largest ready time, due time or service duration of a site, in unscaled
/// units.
pub const MAX_TIME: u64 = 0x1_0000_0000;

/// Square of the planar distance between two sites.
pub open spec fn square_gap(a: Site, b: Site) -> int {
    (a.x - b.x) * (a.x - b.x) + (a.y - b.y) * (a.y - b.y)
}

/// `r` is the square root of `x`, rounded up.
pub open spec fn is_ceil_root(x: int, r: int) -> bool {
    &&& r >= 0
    &&& r * r >= x
    &&& r == 0 || (r - 1) * (r - 1) < x
}

/// The square root of `x`, rounded up.
pub fn ceil_root(x: u128) -> (r: u64)
    requires
        x <= 0x1_0000_0000_0000_0000_0000,
    ensures
        is_ceil_root(x as int, r as int),
        r <= 0x100_0000_0000,
{
    if x == 0 {
        return 0;
    }
    // the least r in (lo, hi] with r * r >= x
    let mut lo: u64 = 0;
    let mut hi: u64 = 0x100_0000_0000;
    assert(0x100_0000_0000int * 0x100_0000_0000int == 0x1_0000_0000_0000_0000_0000int) by (nonlinear_arith);
    while hi - lo > 1
        invariant
            0 <= lo < hi <= 0x100_0000_0000,
            lo * lo < x,
            hi * hi >= x,
        decreases hi - lo,
    {
        let mid = lo + (hi - lo) / 2;
        assert(mid * mid <= 0x100_0000_0000 * 0x100_0000_0000) by (nonlinear_arith)
            requires
                0 <= mid <= 0x100_0000_0000,
        ;
        let sq = (mid as u128) * (mid as u128);
        if sq >= x {
            hi = mid;
        } else {
            lo = mid;
        }
    }
    hi
}

/// Position of the cell `(a, b)` in a flattened matrix.
pub open spec fn spec_idx(a: int, b: int) -> int {
    a * PTS + b
}

/// Flattens a pair of node ids into the index of their matrix cell.
pub fn idx(a: usize, b: usize) -> (r: usize)
    requires
        a < PTS,
        b < PTS,
    ensures
        r == spec_idx(a as int, b as int),
        r < SIZE,
{
    a * PTS + b
}

impl Data {
    /// Distance from `a` to `b`.
    pub open spec fn dist_of(&self, a: int, b: int) -> int {
        self.dist@[spec_idx(a, b)] as int
    }

    /// Travel time from `a` to `b`, service at `a` included.
    pub open spec fn time_of(&self, a: int, b: int) -> int {
        self.time@[spec_idx(a, b)] as int
    }

    /// Ready time of `v`.
    pub open spec fn start_of(&self, v: int) -> int {
        self.pts[v].start as int
    }

    /// Due time of `v`.
    pub open spec fn due_of(&self, v: int) -> int {
        self.pts[v].due as int
    }

    /// Signed demand of `v`.
    pub open spec fn dem_of(&self, v: int) -> int {
        self.pts[v].dem as int
    }

    /// Partner of `v`.
    pub open spec fn pair(&self, v: int) -> int {
        self.pts[v].pair as int
    }

    /// Whether `v` is a delivery.
    pub open spec fn delivers(&self, v: int) -> bool {
        self.pts[v].is_delivery
    }

    /// `v` is a customer node of this instance.
    pub open spec fn customer(&self, v: int) -> bool {
        0 < v < self.points
    }

    /// The tables are fully sized and every value in use is small enough for
    /// the arithmetic of a whole route.
    pub open spec fn sized(&self) -> bool {
        &&& self.dist@.len() == SIZE
        &&& self.time@.len() == SIZE
        &&& 1 <= self.points <= PTS
        &&& forall|a: int, b: int|
            0 <= a < self.points && 0 <= b < self.points ==> #[trigger] self.dist_of(a, b) <= MAX_LEG
        &&& forall|a: int, b: int|
            0 <= a < self.points && 0 <= b < self.points ==> #[trigger] self.time_of(a, b) <= MAX_LEG
        &&& forall|v: int|
            0 <= v < self.points ==> {
                &&& #[trigger] self.start_of(v) <= MAX_LEG
                &&& -MAX_DEM <= self.dem_of(v) <= MAX_DEM
            }
    }

    /// Travel times obey the triangle inequality, as times derived from
    /// planar distances and service durations do.
    pub open spec fn metric(&self) -> bool {
        forall|a: int, b: int, c: int|
            0 <= a < self.points && 0 <= b < self.points && 0 <= c < self.points ==> self.time_of(
                a,
                c,
            ) <= #[trigger] self.time_of(a, b) + #[trigger] self.time_of(b, c)
    }

    /// `v` and its partner name each other, one of them is the delivery,
    /// their demands cancel and the pickup's is not negative.
    pub open spec fn pair_ok(&self, v: int) -> bool {
        &&& self.customer(self.pair(v))
        &&& self.pair(self.pair(v)) == v
        &&& self.delivers(self.pair(v)) != self.delivers(v)
        &&& self.dem_of(self.pair(v)) == -self.dem_of(v)
        &&& !self.delivers(v) ==> self.dem_of(v) >= 0
    }

    /// Customers come in pickup/delivery pairs with opposite demands, the
    /// pickup's being non-negative; the depot carries no demand.
    pub open spec fn paired(&self) -> bool {
        &&& self.dem_of(0) == 0
        &&& forall|v: int| self.customer(v) ==> #[trigger] self.pair_ok(v)
    }

    /// Everything the solver assumes of an instance.
    pub open spec fn wf(&self) -> bool {
        &&& self.sized()
        &&& self.metric()
        &&& self.paired()
    }

    /// The site can be scaled and its distances computed without overflow.
    pub open spec fn in_range(site: Site, count: int) -> bool {
        &&& -MAX_COORD <= site.x <= MAX_COORD
        &&& -MAX_COORD <= site.y <= MAX_COORD
        &&& site.ready <= MAX_TIME
        &&& site.due <= MAX_TIME
        &&& site.service <= MAX_TIME
        &&& site.pair < count
    }

    /// The table entry of a site: its times scaled.
    pub open spec fn entry_of(site: Site) -> PointData {
        PointData {
            dem: site.demand,
            start: (site.ready * MULT) as u64,
            due: (site.due * MULT) as u64,
            pair: site.pair,
            is_delivery: site.is_delivery,
        }
    }

    /// The tables hold the sites: every node has its scaled entry, every
    /// distance is the planar distance times the scale, rounded up, and
    /// every travel time is the distance and the scaled service duration of
    /// the node of departure.
    pub open spec fn holds(&self, sites: Seq<Site>) -> bool {
        &&& self.points == sites.len()
        &&& self.dist@.len() == SIZE
        &&& self.time@.len() == SIZE
        &&& forall|a: int| 0 <= a < sites.len() ==> #[trigger] self.pts[a] == Self::entry_of(sites[a])
        &&& forall|a: int, b: int|
            0 <= a < sites.len() && 0 <= b < sites.len() ==> {
                &&& is_ceil_root(
                    square_gap(sites[a], sites[b]) * MULT * MULT,
                    #[trigger] self.dist_of(a, b),
                )
                &&& self.time_of(a, b) == self.dist_of(a, b) + sites[a].service * MULT
            }
    }

    /// Builds the tables of an instance from its sites, the depot first.
    /// There are none when there are no sites or more than the tables hold,
    /// or when a site is out of range.
    pub fn build(sites: &Vec<Site>, max_cap: i32) -> (r: Option<Data>)
        ensures
            r is Some <==> 0 < sites@.len() <= PTS && forall|a: int|
                0 <= a < sites@.len() ==> Self::in_range(#[trigger] sites@[a], sites@.len() as int),
            r matches Some(d) ==> d.max_cap == max_cap && d.holds(sites@) && d.metric(),
            r matches Some(d) ==> ((forall|a: int|
                0 <= a < sites@.len() ==> -MAX_DEM <= (#[trigger] sites@[a]).demand <= MAX_DEM)
                ==> d.sized()),
    {
        let n = sites.len();
        if n == 0 || n > PTS {
            return None;
        }
        let mut a: usize = 0;
        while a < n
            invariant
                n == sites@.len(),
                0 <= a <= n,
                forall|k: int| 0 <= k < a ==> Self::in_range(#[trigger] sites@[k], n as int),
            decreases n - a,
        {
            let s = sites[a];
            if s.x < -MAX_COORD || s.x > MAX_COORD || s.y < -MAX_COORD || s.y > MAX_COORD || s.ready
                > MAX_TIME || s.due > MAX_TIME || s.service > MAX_TIME || s.pair >= n {
                return None;
            }
            a += 1;
        }
        let mut dist: Vec<u64> = Vec::new();
        let mut time: Vec<u64> = Vec::new();
        let mut k: usize = 0;
        while k < SIZE
            invariant
                0 <= k <= SIZE,
                dist@.len() == k,
                time@.len() == k,
            decreases SIZE - k,
        {
            dist.push(u64::MAX);
            time.push(u64::MAX);
            k += 1;
        }
        let mut pts = [PointData { dem: 0, start: 0, due: 0, pair: 0, is_delivery: false };PTS];
        let mut a: usize = 0;
        while a < n
            invariant
                n == sites@.len(),
                0 < n <= PTS,
                0 <= a <= n,
                dist@.len() == SIZE,
                time@.len() == SIZE,
                forall|k: int| 0 <= k < n ==> Self::in_range(#[trigger] sites@[k], n as int),
                forall|k: int| 0 <= k < a ==> #[trigger] pts@[k] == Self::entry_of(sites@[k]),
                forall|k: int, b: int|
                    0 <= k < a && 0 <= b < n ==> {
                        &&& is_ceil_root(
                            square_gap(sites@[k], sites@[b]) * MULT * MULT,
                            #[trigger] dist@[spec_idx(k, b)] as int,
                        )
                        &&& time@[spec_idx(k, b)] == dist@[spec_idx(k, b)] + sites@[k].service * MULT
                    },
            decreases n - a,
        {
            let sa = sites[a];
            proof {
                assert(Self::in_range(sites@[a as int], n as int));
                assert(sa.ready * MULT <= MAX_TIME * MULT) by (nonlinear_arith)
                    requires
                        sa.ready <= MAX_TIME,
                ;
                assert(sa.due * MULT <= MAX_TIME * MULT) by (nonlinear_arith)
                    requires
                        sa.due <= MAX_TIME,
                ;
                assert(sa.service * MULT <= MAX_TIME * MULT) by (nonlinear_arith)
                    requires
                        sa.service <= MAX_TIME,
                ;
            }
            pts[a] = PointData {
                dem: sa.demand,
                start: sa.ready * MULT,
                due: sa.due * MULT,
                pair: sa.pair,
                is_delivery: sa.is_delivery,
            };
            let mut b: usize = 0;
            while b < n
                invariant
                    n == sites@.len(),
                    0 < n <= PTS,
                    0 <= a < n,
                    0 <= b <= n,
                    sa == sites@[a as int],
                    sa.service * MULT <= MAX_TIME * MULT,
                    dist@.len() == SIZE,
                    time@.len() == SIZE,
                    forall|k: int| 0 <= k < n ==> Self::in_range(#[trigger] sites@[k], n as int),
                    forall|k: int, c: int|
                        (0 <= k < a && 0 <= c < n) || (k == a && 0 <= c < b) ==> {
                            &&& is_ceil_root(
                                square_gap(sites@[k], sites@[c]) * MULT * MULT,
                                #[trigger] dist@[spec_idx(k, c)] as int,
                            )
                            &&& time@[spec_idx(k, c)] == dist@[spec_idx(k, c)] + sites@[k].service
                                * MULT
                        },
                decreases n - b,
            {
                let sb = sites[b];
                proof {
                    assert(Self::in_range(sites@[b as int], n as int));
                }
                let xs = sa.x - sb.x;
                let ys = sa.y - sb.y;
                proof {
                    assert(0 <= xs * xs <= 0x20_0000 * 0x20_0000) by (nonlinear_arith)
                        requires
                            -0x20_0000 <= xs <= 0x20_0000,
                    ;
                    assert(0 <= ys * ys <= 0x20_0000 * 0x20_0000) by (nonlinear_arith)
                        requires
                            -0x20_0000 <= ys <= 0x20_0000,
                    ;
                }
                let shifted = (xs * xs + ys * ys) as u128;
                proof {
                    assert(shifted * 100_000_000 <= 0x1_0000_0000_0000_0000_0000) by (nonlinear_arith)
                        requires
                            shifted <= 2 * 0x20_0000 * 0x20_0000,
                    ;
                    assert(square_gap(sa, sb) * MULT * MULT == shifted * 100_000_000)
                        by (nonlinear_arith)
                        requires
                            square_gap(sa, sb) == shifted,
                            MULT == 10000,
                    ;
                }
                let sqrted = ceil_root(shifted * 100_000_000);

                let loc = idx(a, b);
                let ghost dist_before = dist@;
                let ghost time_before = time@;
                dist.set(loc, sqrted);
                time.set(loc, sqrted + sa.service * MULT);
                proof {
                    assert forall|k: int, c: int|
                        (0 <= k < a && 0 <= c < n) || (k == a && 0 <= c < b + 1) implies {
                        &&& is_ceil_root(
                            square_gap(sites@[k], sites@[c]) * MULT * MULT,
                            #[trigger] dist@[spec_idx(k, c)] as int,
                        )
                        &&& time@[spec_idx(k, c)] == dist@[spec_idx(k, c)] + sites@[k].service * MULT
                    } by {
                        if k == a && c == b {
                        } else {
                            lemma_idx_differs(k, c, a as int, b as int);
                            assert(dist@[spec_idx(k, c)] == dist_before[spec_idx(k, c)]);
                            assert(time@[spec_idx(k, c)] == time_before[spec_idx(k, c)]);
                        }
                    }
                }
                b += 1;
            }
            a += 1;
        }
        let built = Data { dist, pts, max_cap, time, points: n };
        proof {
            built.lemma_holds_metric(sites@);
            if forall|a: int|
                0 <= a < sites@.len() ==> -MAX_DEM <= (#[trigger] sites@[a]).demand <= MAX_DEM {
                built.lemma_holds_sized(sites@);
            }
        }
        Some(built)
    }

    /// Whether the tables are sized and bounded as the solver needs them.
    pub fn check_sized(&self) -> (r: bool)
        ensures
            r == self.sized(),
    {
        if self.dist.len() != SIZE || self.time.len() != SIZE || self.points < 1 || self.points
            > PTS {
            return false;
        }
        let mut a: usize = 0;
        while a < self.points
            invariant
                self.dist@.len() == SIZE,
                self.time@.len() == SIZE,
                1 <= self.points <= PTS,
                0 <= a <= self.points,
                forall|k: int, b: int|
                    0 <= k < a && 0 <= b < self.points ==> #[trigger] self.dist_of(k, b) <= MAX_LEG,
                forall|k: int, b: int|
                    0 <= k < a && 0 <= b < self.points ==> #[trigger] self.time_of(k, b) <= MAX_LEG,
                forall|v: int|
                    0 <= v < a ==> {
                        &&& #[trigger] self.start_of(v) <= MAX_LEG
                        &&& -MAX_DEM <= self.dem_of(v) <= MAX_DEM
                    },
            decreases self.points - a,
        {
            let p = self.pts[a];
            if p.start > MAX_LEG || p.dem < -MAX_DEM || p.dem > MAX_DEM {
                proof {
                    assert(!(self.start_of(a as int) <= MAX_LEG && -MAX_DEM <= self.dem_of(a as int)
                        <= MAX_DEM));
                }
                return false;
            }
            let mut b: usize = 0;
            while b < self.points
                invariant
                    self.dist@.len() == SIZE,
                    self.time@.len() == SIZE,
                    1 <= self.points <= PTS,
                    0 <= a < self.points,
                    0 <= b <= self.points,
                    forall|c: int| 0 <= c < b ==> #[trigger] self.dist_of(a as int, c) <= MAX_LEG,
                    forall|c: int| 0 <= c < b ==> #[trigger] self.time_of(a as int, c) <= MAX_LEG,
                decreases self.points - b,
            {
                if self.dist_between(a, b) > MAX_LEG || self.time_between(a, b) > MAX_LEG {
                    proof {
                        assert(!(self.dist_of(a as int, b as int) <= MAX_LEG && self.time_of(
                            a as int,
                            b as int,
                        ) <= MAX_LEG));
                    }
                    return false;
                }
                b += 1;
            }
            a += 1;
        }
        true
    }

    /// Whether the customers are paired as the solver needs them.
    pub fn check_paired(&self) -> (r: bool)
        requires
            1 <= self.points <= PTS,
        ensures
            r == self.paired(),
    {
        if self.pts[0].dem != 0 {
            return false;
        }
        let mut v: usize = 1;
        while v < self.points
            invariant
                1 <= self.points <= PTS,
                1 <= v <= self.points,
                self.dem_of(0) == 0,
                forall|k: int| 0 < k < v ==> #[trigger] self.pair_ok(k),
            decreases self.points - v,
        {
            let p = self.pts[v];
            if p.pair == 0 || p.pair >= self.points {
                proof {
                    assert(self.customer(v as int) && !self.pair_ok(v as int));
                }
                return false;
            }
            let q = self.pts[p.pair];
            if q.pair != v || q.is_delivery == p.is_delivery || p.dem == i32::MIN || q.dem != -p.dem
                || (!p.is_delivery && p.dem < 0) {
                proof {
                    assert(self.customer(v as int) && !self.pair_ok(v as int));
                }
                return false;
            }
            v += 1;
        }
        true
    }

    /// Whether the travel times obey the triangle inequality.
    pub fn check_metric(&self) -> (r: bool)
        requires
            self.sized(),
        ensures
            r == self.metric(),
    {
        let mut a: usize = 0;
        while a < self.points
            invariant
                self.sized(),
                0 <= a <= self.points,
                forall|x: int, y: int, z: int|
                    0 <= x < a && 0 <= y < self.points && 0 <= z < self.points ==> self.time_of(
                        x,
                        z,
                    ) <= #[trigger] self.time_of(x, y) + #[trigger] self.time_of(y, z),
            decreases self.points - a,
        {
            let mut b: usize = 0;
            while b < self.points
                invariant
                    self.sized(),
                    0 <= a < self.points,
                    0 <= b <= self.points,
                    forall|y: int, z: int|
                        0 <= y < b && 0 <= z < self.points ==> self.time_of(a as int, z)
                            <= #[trigger] self.time_of(a as int, y) + #[trigger] self.time_of(y, z),
                decreases self.points - b,
            {
                let ab = self.time_between(a, b);
                let mut c: usize = 0;
                while c < self.points
                    invariant
                        self.sized(),
                        0 <= a < self.points,
                        0 <= b < self.points,
                        0 <= c <= self.points,
                        ab == self.time_of(a as int, b as int),
                        forall|z: int|
                            0 <= z < c ==> self.time_of(a as int, z) <= self.time_of(
                                a as int,
                                b as int,
                            ) + #[trigger] self.time_of(b as int, z),
                    decreases self.points - c,
                {
                    proof {
                        assert(self.time_of(a as int, b as int) <= MAX_LEG);
                        assert(self.time_of(b as int, c as int) <= MAX_LEG);
                    }
                    if self.time_between(a, c) > ab + self.time_between(b, c) {
                        proof {
                            assert(!(self.time_of(a as int, c as int) <= self.time_of(
                                a as int,
                                b as int,
                            ) + self.time_of(b as int, c as int)));
                        }
                        return false;
                    }
                    c += 1;
                }
                b += 1;
            }
            a += 1;
        }
        true
    }

    /// Whether the instance is all that the solver assumes of one.
    pub fn is_valid(&self) -> (r: bool)
        ensures
            r == self.wf(),
    {
        self.check_sized() && self.check_paired() && self.check_metric()
    }

    /// Partner of node `idx`.
    pub fn pair_of(&self, idx: usize) -> (r: usize)
        requires
            idx < PTS,
        ensures
            r == self.pair(idx as int),
    {
        self.pts[idx].pair
    }

    /// Distance from `a` to `b`.
    pub fn dist_between(&self, a: usize, b: usize) -> (r: u64)
        requires
            self.dist@.len() == SIZE,
            a < PTS,
            b < PTS,
        ensures
            r == self.dist_of(a as int, b as int),
    {
        self.dist[idx(a, b)]
    }

    /// Travel time from `a` to `b`, service at `a` included.
    pub fn time_between(&self, a: usize, b: usize) -> (r: u64)
        requires
            self.time@.len() == SIZE,
            a < PTS,
            b < PTS,
        ensures
            r == self.time_of(a as int, b as int),
    {
        self.time[idx(a, b)]
    }
}

/// Different cells of the matrix have different positions.
pub proof fn lemma_idx_differs(a: int, b: int, c: int, d: int)
    requires
        0 <= a < PTS,
        0 <= b < PTS,
        0 <= c < PTS,
        0 <= d < PTS,
        a != c || b != d,
    ensures
        spec_idx(a, b) != spec_idx(c, d),
        0 <= spec_idx(a, b) < SIZE,
{
    assert(a * PTS + b != c * PTS + d) by (nonlinear_arith)
        requires
            0 <= a < PTS,
            0 <= b < PTS,
            0 <= c < PTS,
            0 <= d < PTS,
            a != c || b != d,
            PTS == 2000,
    ;
    assert(0 <= a * PTS + b < PTS * PTS) by (nonlinear_arith)
        requires
            0 <= a < PTS,
            0 <= b < PTS,
            PTS == 2000,
    ;
}

/// Rounded-up lengths obey the triangle inequality: the rounded-up root of
/// `m * m` times the squared length of `u + v` is at most the sum of those
/// of `u` and of `v`.
pub proof fn lemma_root_triangle(
    ux: int,
    uy: int,
    vx: int,
    vy: int,
    m: int,
    r1: int,
    r2: int,
    r3: int,
)
    requires
        is_ceil_root((ux * ux + uy * uy) * m * m, r1),
        is_ceil_root((vx * vx + vy * vy) * m * m, r2),
        is_ceil_root(((ux + vx) * (ux + vx) + (uy + vy) * (uy + vy)) * m * m, r3),
    ensures
        r3 <= r1 + r2,
{
    let a0 = ux * ux + uy * uy;
    let b0 = vx * vx + vy * vy;
    let c0 = (ux + vx) * (ux + vx) + (uy + vy) * (uy + vy);
    let d0 = ux * vx + uy * vy;
    let w0 = ux * vy - uy * vx;
    let mm = m * m;
    let a = a0 * m * m;
    let b = b0 * m * m;
    let c = c0 * m * m;
    let d = d0 * mm;
    assert(a == a0 * mm && b == b0 * mm && c == c0 * mm) by (nonlinear_arith)
        requires
            a == a0 * m * m,
            b == b0 * m * m,
            c == c0 * m * m,
            mm == m * m,
    ;
    assert(c0 == a0 + b0 + 2 * d0) by (nonlinear_arith)
        requires
            a0 == ux * ux + uy * uy,
            b0 == vx * vx + vy * vy,
            c0 == (ux + vx) * (ux + vx) + (uy + vy) * (uy + vy),
            d0 == ux * vx + uy * vy,
    ;
    assert(c == a + b + 2 * d) by (nonlinear_arith)
        requires
            c0 == a0 + b0 + 2 * d0,
            a == a0 * mm,
            b == b0 * mm,
            c == c0 * mm,
            d == d0 * mm,
    ;
    // the identity behind the Cauchy-Schwarz inequality
    let p = ux * vx;
    let q = uy * vy;
    let r = ux * vy;
    let t = uy * vx;
    assert((ux * ux) * (vx * vx) == p * p) by (nonlinear_arith)
        requires
            p == ux * vx,
    ;
    assert((uy * uy) * (vy * vy) == q * q) by (nonlinear_arith)
        requires
            q == uy * vy,
    ;
    assert((ux * ux) * (vy * vy) == r * r) by (nonlinear_arith)
        requires
            r == ux * vy,
    ;
    assert((uy * uy) * (vx * vx) == t * t) by (nonlinear_arith)
        requires
            t == uy * vx,
    ;
    assert(p * q == r * t) by (nonlinear_arith)
        requires
            p == ux * vx,
            q == uy * vy,
            r == ux * vy,
            t == uy * vx,
    ;
    let x2 = ux * ux;
    let y2 = uy * uy;
    let z2 = vx * vx;
    let k2 = vy * vy;
    assert((x2 + y2) * (z2 + k2) == x2 * z2 + x2 * k2 + y2 * z2 + y2 * k2) by (nonlinear_arith);
    assert((p + q) * (p + q) == p * p + 2 * (p * q) + q * q) by (nonlinear_arith);
    assert((r - t) * (r - t) == r * r - 2 * (r * t) + t * t) by (nonlinear_arith);
    assert(a0 * b0 == d0 * d0 + w0 * w0);
    assert(w0 * w0 >= 0) by (nonlinear_arith);
    assert(a0 >= 0 && b0 >= 0) by (nonlinear_arith)
        requires
            a0 == ux * ux + uy * uy,
            b0 == vx * vx + vy * vy,
    ;
    assert(mm >= 0) by (nonlinear_arith)
        requires
            mm == m * m,
    ;
    assert(a >= 0 && b >= 0) by (nonlinear_arith)
        requires
            a == a0 * mm,
            b == b0 * mm,
            a0 >= 0,
            b0 >= 0,
            mm >= 0,
    ;
    let g = mm * mm;
    assert(a * b == (a0 * b0) * g) by (nonlinear_arith)
        requires
            a == a0 * mm,
            b == b0 * mm,
            g == mm * mm,
    ;
    assert(d * d == (d0 * d0) * g) by (nonlinear_arith)
        requires
            d == d0 * mm,
            g == mm * mm,
    ;
    assert(g >= 0) by (nonlinear_arith)
        requires
            g == mm * mm,
    ;
    assert(a * b >= d * d) by (nonlinear_arith)
        requires
            a * b == (a0 * b0) * g,
            d * d == (d0 * d0) * g,
            a0 * b0 >= d0 * d0,
            g >= 0,
    ;
    let s = r1 * r2;
    assert(s >= 0 && s * s == (r1 * r1) * (r2 * r2)) by (nonlinear_arith)
        requires
            s == r1 * r2,
            r1 >= 0,
            r2 >= 0,
    ;
    assert((r1 * r1) * (r2 * r2) >= a * b) by (nonlinear_arith)
        requires
            r1 * r1 >= a,
            r2 * r2 >= b,
            a >= 0,
            b >= 0,
    ;
    assert(s >= d) by (nonlinear_arith)
        requires
            s >= 0,
            s * s >= d * d,
    ;
    let both = r1 + r2;
    assert(both * both == r1 * r1 + 2 * s + r2 * r2) by (nonlinear_arith)
        requires
            both == r1 + r2,
            s == r1 * r2,
    ;
    assert(both * both >= c);
    if r3 > both {
        assert((r3 - 1) * (r3 - 1) >= both * both) by (nonlinear_arith)
            requires
                r3 - 1 >= both,
                both >= 0,
        ;
    }
}

impl Data {
    /// Tables that hold sites obey the triangle inequality.
    pub proof fn lemma_holds_metric(&self, sites: Seq<Site>)
        requires
            self.holds(sites),
        ensures
            self.metric(),
    {
        assert forall|a: int, b: int, c: int|
            0 <= a < self.points && 0 <= b < self.points && 0 <= c < self.points implies self.time_of(
            a,
            c,
        ) <= #[trigger] self.time_of(a, b) + #[trigger] self.time_of(b, c) by {
            let sa = sites[a];
            let sb = sites[b];
            let sc = sites[c];
            assert(is_ceil_root(square_gap(sa, sb) * MULT * MULT, self.dist_of(a, b)));
            assert(is_ceil_root(square_gap(sb, sc) * MULT * MULT, self.dist_of(b, c)));
            assert(is_ceil_root(square_gap(sa, sc) * MULT * MULT, self.dist_of(a, c)));
            assert(sa.x - sb.x + (sb.x - sc.x) == sa.x - sc.x);
            assert(sa.y - sb.y + (sb.y - sc.y) == sa.y - sc.y);
            lemma_root_triangle(
                sa.x - sb.x,
                sa.y - sb.y,
                sb.x - sc.x,
                sb.y - sc.y,
                MULT as int,
                self.dist_of(a, b),
                self.dist_of(b, c),
                self.dist_of(a, c),
            );
            assert(sb.service * MULT >= 0) by (nonlinear_arith)
                requires
                    sb.service >= 0,
            ;
        }
    }

    /// Tables that hold sites in range, with demands that the loads of a
    /// route can sum, are sized and bounded as the solver needs them.
    pub proof fn lemma_holds_sized(&self, sites: Seq<Site>)
        requires
            self.holds(sites),
            0 < sites.len() <= PTS,
            forall|a: int| 0 <= a < sites.len() ==> Self::in_range(#[trigger] sites[a], sites.len() as int),
            forall|a: int| 0 <= a < sites.len() ==> -MAX_DEM <= (#[trigger] sites[a]).demand <= MAX_DEM,
        ensures
            self.sized(),
    {
        assert forall|a: int, b: int| 0 <= a < self.points && 0 <= b < self.points implies #[trigger] self.dist_of(
            a,
            b,
        ) <= 0x100_0000_0000 by {
            let sa = sites[a];
            let sb = sites[b];
            assert(Self::in_range(sa, sites.len() as int));
            assert(Self::in_range(sb, sites.len() as int));
            let xs = sa.x - sb.x;
            let ys = sa.y - sb.y;
            let r = self.dist_of(a, b);
            assert(is_ceil_root(square_gap(sa, sb) * MULT * MULT, r));
            assert(square_gap(sa, sb) * MULT * MULT <= 0x1_0000_0000_0000_0000_0000) by (nonlinear_arith)
                requires
                    square_gap(sa, sb) == xs * xs + ys * ys,
                    -0x20_0000 <= xs <= 0x20_0000,
                    -0x20_0000 <= ys <= 0x20_0000,
                    MULT == 10000,
            ;
            if r > 0x100_0000_0000 {
                assert((r - 1) * (r - 1) >= 0x1_0000_0000_0000_0000_0000) by (nonlinear_arith)
                    requires
                        r - 1 >= 0x100_0000_0000,
                ;
            }
        }
        assert forall|a: int, b: int| 0 <= a < self.points && 0 <= b < self.points implies #[trigger] self.time_of(
            a,
            b,
        ) <= MAX_LEG by {
            let sa = sites[a];
            assert(Self::in_range(sa, sites.len() as int));
            assert(self.dist_of(a, b) <= 0x100_0000_0000);
            assert(sa.service * MULT <= MAX_TIME * MULT) by (nonlinear_arith)
                requires
                    sa.service <= MAX_TIME,
            ;
        }
        assert forall|v: int| 0 <= v < self.points implies {
            &&& #[trigger] self.start_of(v) <= MAX_LEG
            &&& -MAX_DEM <= self.dem_of(v) <= MAX_DEM
        } by {
            let sv = sites[v];
            assert(Self::in_range(sv, sites.len() as int));
            assert(self.pts[v] == Self::entry_of(sv));
            assert(sv.ready * MULT <= MAX_TIME * MULT) by (nonlinear_arith)
                requires
                    sv.ready <= MAX_TIME,
            ;
        }
    }
}

} // verus!
