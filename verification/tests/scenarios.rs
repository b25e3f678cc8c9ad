use ges::data::{ceil_root, Data, PointData, Site, MULT, PTS};
use ges::evaluator::Evaluator;
use ges::mov::{Between, Move};
use ges::sol::Sol;
use ges::{Conf, Ges, Log, K_MAX, UNSERVED};
use std::time::Duration;

struct Node {
    x: f64,
    y: f64,
    dem: i32,
    ready: u64,
    due: u64,
    service: u64,
}

fn node(x: f64, y: f64, dem: i32, ready: u64, due: u64, service: u64) -> Node {
    Node { x, y, dem, ready, due, service }
}

/// Builds an instance whose nodes 1, 3, 5, ... are pickups and whose nodes
/// 2, 4, 6, ... are their deliveries; times are given unscaled.
fn instance(nodes: &[Node], max_cap: i32) -> Data {
    let points = nodes.len();
    let mut pts = [PointData { dem: 0, start: 0, due: 0, pair: 0, is_delivery: false }; PTS];
    let mut dist = vec![u64::MAX; PTS * PTS];
    let mut time = vec![u64::MAX; PTS * PTS];
    for (a, na) in nodes.iter().enumerate() {
        let pair = if a == 0 {
            0
        } else if a % 2 == 1 {
            a + 1
        } else {
            a - 1
        };
        pts[a] = PointData {
            dem: na.dem,
            start: na.ready * MULT,
            due: na.due * MULT,
            pair,
            is_delivery: a != 0 && a % 2 == 0,
        };
        for (b, nb) in nodes.iter().enumerate() {
            let xs = na.x - nb.x;
            let ys = na.y - nb.y;
            let d = ((xs * xs + ys * ys).sqrt() * MULT as f64).ceil() as u64;
            dist[a * PTS + b] = d;
            time[a * PTS + b] = d + na.service * MULT;
        }
    }
    Data { dist, pts, max_cap, time, points }
}

fn line_instance(max_cap: i32) -> Data {
    instance(
        &[
            node(0.0, 0.0, 0, 0, 100, 0),
            node(1.0, 0.0, 1, 0, 100, 0),
            node(2.0, 0.0, -1, 0, 100, 0),
            node(3.0, 0.0, 1, 0, 100, 0),
            node(4.0, 0.0, -1, 0, 100, 0),
        ],
        max_cap,
    )
}

fn sorted_routes_of(sol: &Sol) -> Vec<Vec<usize>> {
    let mut rs = sol.rs();
    rs.sort();
    rs
}

/// Checks the links, the route ids and the cached values of every node.
fn check_invariants(sol: &Sol) {
    let data = sol.data;
    assert_eq!(sol.next[0], 0);
    assert_eq!(sol.prev[0], 0);
    let routes = sol.rs();
    assert_eq!(routes.len(), sol.routes_number());
    let mut served = vec![false; data.points];
    for route in routes.iter() {
        let first = route[0];
        assert!(sol.routes.contains(&first));
        assert_eq!(sol.prev[first], 0);
        let mut before = 0;
        let mut dist = 0;
        let mut time = 0;
        let mut load = 0;
        for &v in route.iter() {
            assert!(!served[v]);
            served[v] = true;
            assert_eq!(sol.prev[v], before);
            if before != 0 {
                assert_eq!(sol.next[before], v);
            }
            assert_eq!(sol.first[v], first);
            dist += data.dist[before * PTS + v];
            time = (time + data.time[before * PTS + v]).max(data.pts[v].start);
            load += data.pts[v].dem;
            assert_eq!(sol.evals[v].node, v);
            assert_eq!(sol.evals[v].distance, dist);
            assert_eq!(sol.evals[v].time, time);
            assert_eq!(sol.evals[v].capacity, load);
            assert!(time <= data.pts[v].due);
            assert!(0 <= load && load <= data.max_cap);
            assert!(time <= sol.latest_feasible_departure[v]);
            before = v;
        }
        assert_eq!(sol.next[before], 0);
        let mut latest = data.pts[0].due;
        let mut after = 0;
        for &v in route.iter().rev() {
            latest = (latest - data.time[v * PTS + after]).min(data.pts[v].due);
            assert_eq!(sol.latest_feasible_departure[v], latest);
            after = v;
        }
        for &v in route.iter() {
            let w = data.pts[v].pair;
            assert!(route.contains(&w));
            let pv = route.iter().position(|&x| x == v).unwrap();
            let pw = route.iter().position(|&x| x == w).unwrap();
            assert_eq!(data.pts[v].is_delivery, pw < pv);
        }
    }
    let pool = &sol.heap.removed_idx[..sol.heap.size];
    for v in 1..data.points {
        assert_eq!(sol.is_removed(v), !served[v]);
        if !served[v] {
            assert_eq!(sol.next[v], UNSERVED);
            assert_eq!(sol.prev[v], UNSERVED);
            assert_eq!(sol.first[v], UNSERVED);
        }
        if pool.contains(&v) {
            assert!(!served[v] && !data.pts[v].is_delivery);
        }
    }
    for w in pool.windows(2) {
        assert!(sol.heap.removed_times[w[0]] <= sol.heap.removed_times[w[1]]);
    }
}

/// Checks that every pickup is in a route or in the pool.
fn check_complete(sol: &Sol) {
    let pool = &sol.heap.removed_idx[..sol.heap.size];
    for v in 1..sol.data.points {
        if !sol.data.pts[v].is_delivery {
            assert!(sol.is_removed(v) == pool.contains(&v));
        }
    }
}

fn conf(target_routes: usize) -> Conf {
    Conf { max_optimization_time: Duration::new(5, 0), target_routes, log: Log::Quiet }
}

#[test]
fn four_nodes_on_a_line_merge_into_one_route() {
    let data = line_instance(1);
    let mut sol = Sol::new(&data);
    sol.initialize();
    assert_eq!(sorted_routes_of(&sol), vec![vec![1, 2], vec![3, 4]]);
    check_invariants(&sol);

    let mut ges = Ges::new(&data);
    ges.ges(&mut sol, conf(1), 1000);

    check_invariants(&sol);
    check_complete(&sol);
    assert_eq!(sol.heap.size, 0);
    let routes = sorted_routes_of(&sol);
    assert_eq!(routes.len(), 1);
    assert!(routes[0] == vec![1, 2, 3, 4] || routes[0] == vec![3, 4, 1, 2]);
    if routes[0] == vec![1, 2, 3, 4] {
        assert_eq!(sol.evals[4].distance + data.dist[4 * PTS], 8 * MULT);
    } else {
        assert_eq!(sol.evals[2].distance + data.dist[2 * PTS], 10 * MULT);
    }
}

#[test]
fn capacity_keeps_two_routes_apart() {
    // both pickups have to be made before either delivery opens
    let data = instance(
        &[
            node(0.0, 0.0, 0, 0, 100, 0),
            node(1.0, 0.0, 1, 0, 10, 0),
            node(2.0, 0.0, -1, 50, 100, 0),
            node(3.0, 0.0, 1, 0, 10, 0),
            node(4.0, 0.0, -1, 50, 100, 0),
        ],
        1,
    );
    let mut sol = Sol::new(&data);
    sol.initialize();
    let mut ges = Ges::new(&data);
    ges.ges(&mut sol, conf(1), 40);
    check_invariants(&sol);
    check_complete(&sol);
    // a dissolved route can only come back as it was
    let mut seen = sorted_routes_of(&sol);
    for k in 0..sol.heap.size {
        let p = sol.heap.removed_idx[k];
        seen.push(vec![p, data.pts[p].pair]);
    }
    seen.sort();
    assert_eq!(seen, vec![vec![1, 2], vec![3, 4]]);
}

#[test]
fn time_windows_keep_two_routes_apart() {
    let data = instance(
        &[
            node(0.0, 0.0, 0, 0, 100, 0),
            node(0.0, 1.0, 1, 0, 100, 0),
            node(0.0, 2.0, -1, 0, 3, 0),
            node(3.0, 0.0, 1, 0, 100, 0),
            node(4.0, 0.0, -1, 0, 4, 0),
        ],
        1,
    );
    let mut sol = Sol::new(&data);
    sol.initialize();
    let mut ev = Evaluator::new(&data);
    sol.remove_route(3);
    assert!(sol.try_insert_1(3, &mut ev).is_none());
    assert!(sol.try_insert(3, &mut ev).is_none());
    assert_eq!(sol.rs(), vec![vec![1, 2]]);
    assert_eq!(sol.top(), Some(3));
}

#[test]
fn time_window_block_survives_the_search() {
    let data = instance(
        &[
            node(0.0, 0.0, 0, 0, 100, 0),
            node(0.0, 1.0, 1, 0, 100, 0),
            node(0.0, 2.0, -1, 0, 3, 0),
            node(3.0, 0.0, 1, 0, 100, 0),
            node(4.0, 0.0, -1, 0, 4, 0),
        ],
        1,
    );
    let mut sol = Sol::new(&data);
    sol.initialize();
    let mut ges = Ges::new(&data);
    ges.ges(&mut sol, conf(1), 40);
    check_invariants(&sol);
    check_complete(&sol);
    let mut seen = sorted_routes_of(&sol);
    for k in 0..sol.heap.size {
        let p = sol.heap.removed_idx[k];
        seen.push(vec![p, data.pts[p].pair]);
    }
    seen.sort();
    assert_eq!(seen, vec![vec![1, 2], vec![3, 4]]);
}

#[test]
fn placements_are_drawn_uniformly() {
    // a rectangle walked as 1, 3, 2, 4 with room for two loads
    let data = instance(
        &[
            node(0.0, 0.0, 0, 0, 1000, 0),
            node(0.0, 1.0, 1, 0, 1000, 0),
            node(2.0, 0.0, -1, 0, 1000, 0),
            node(2.0, 1.0, 1, 0, 1000, 0),
            node(0.0, 0.0, -1, 0, 1000, 0),
            node(1.0, 1.0, 1, 0, 1000, 0),
            node(1.0, 0.0, -1, 0, 1000, 0),
        ],
        2,
    );
    let mut sol = Sol::new(&data);
    sol.add_route(&vec![0, 1, 3, 2, 4, 0]);
    check_invariants(&sol);
    let mut ev = Evaluator::with_pickup(&data, 5);
    let mut seen: Vec<((usize, usize), (usize, usize), usize)> = Vec::new();
    let trials = 100_000;
    let mut count = 0;
    for _ in 0..trials {
        let m = ev.check_add_to_route(&sol, 1).unwrap();
        count = m.times;
        let key = (
            (m.put_pickup_between.0, m.put_pickup_between.1),
            (m.put_delivery_between.0, m.put_delivery_between.1),
        );
        match seen.iter_mut().find(|e| e.0 == key.0 && e.1 == key.1) {
            Some(e) => e.2 += 1,
            None => seen.push((key.0, key.1, 1)),
        }
    }
    // with capacity 2 the new pair fits wherever the load on board is at most 1
    assert_eq!(seen.len(), count);
    assert!(count >= 2);
    let uniform = 1.0 / count as f64;
    for e in seen.iter() {
        let freq = e.2 as f64 / trials as f64;
        assert!((freq - uniform).abs() < 0.01);
    }
}

fn crowded_instance() -> Data {
    // all nodes at the depot; every stop takes ten units
    instance(
        &[
            node(0.0, 0.0, 0, 0, 1000, 0),
            node(0.0, 0.0, 1, 0, 1000, 10),
            node(0.0, 0.0, -1, 0, 15, 10),
            node(0.0, 0.0, 1, 0, 1000, 10),
            node(0.0, 0.0, -1, 0, 25, 10),
            node(0.0, 0.0, 1, 0, 1000, 10),
            node(0.0, 0.0, -1, 0, 1000, 10),
        ],
        1,
    )
}

#[test]
fn insertion_ejects_the_one_pair_in_the_way() {
    let data = crowded_instance();
    let mut sol = Sol::new(&data);
    sol.add_route(&vec![0, 1, 2, 5, 6, 0]);
    sol.heap.removed_times[3] = 5;
    sol.push(3);
    check_invariants(&sol);
    let mut ev = Evaluator::new(&data);

    assert!(sol.try_insert_1(3, &mut ev).is_none());
    let m = sol.try_insert(3, &mut ev).unwrap();
    assert_eq!(m.pickup, 3);
    let mut removed = [0; K_MAX];
    removed[0] = 1;
    assert_eq!(m.removed, removed);
    assert_eq!(m.times, 1);
    assert_eq!(m.put_pickup_between, Between(0, 5));
    assert_eq!(m.put_delivery_between, Between(3, 5));

    sol.pop();
    sol.make_move(&m);
    check_invariants(&sol);
    check_complete(&sol);
    assert_eq!(sorted_routes_of(&sol), vec![vec![3, 4, 5, 6]]);
    assert_eq!(sol.top(), Some(1));
    assert_eq!(sol.heap.size, 1);
    assert_eq!(sol.heap.removed_times[1], 1);
}

#[test]
fn ejection_needs_a_lower_count_than_the_pickup() {
    let data = crowded_instance();
    let mut sol = Sol::new(&data);
    sol.add_route(&vec![0, 1, 2, 5, 6, 0]);
    sol.push(3);
    let mut ev = Evaluator::new(&data);
    // the count of pickup 3 is zero: no subset has a lower total
    assert!(sol.try_insert(3, &mut ev).is_none());
}

#[test]
fn search_recovers_with_ejections() {
    let data = crowded_instance();
    let mut sol = Sol::new(&data);
    sol.initialize();
    let mut ges = Ges::new(&data);
    ges.ges(&mut sol, conf(1), 200);
    check_invariants(&sol);
    check_complete(&sol);
}

#[test]
fn dissolved_route_joins_the_pool_in_stable_order() {
    let mut nodes = vec![node(0.0, 0.0, 0, 0, 1000, 0)];
    for _ in 0..5 {
        nodes.push(node(0.0, 0.0, 1, 0, 1000, 0));
        nodes.push(node(0.0, 0.0, -1, 0, 1000, 0));
    }
    let data = instance(&nodes, 1);
    let mut sol = Sol::new(&data);
    sol.add_route(&vec![0, 1, 2, 3, 4, 5, 6, 7, 8, 9, 10, 0]);
    sol.heap.removed_times[1] = 0;
    sol.heap.removed_times[3] = 2;
    sol.heap.removed_times[5] = 1;
    sol.heap.removed_times[7] = 0;
    sol.heap.removed_times[9] = 3;
    sol.remove_route(1);
    check_invariants(&sol);
    check_complete(&sol);
    assert_eq!(sol.routes_number(), 0);
    assert_eq!(sol.heap.size, 5);
    assert_eq!(&sol.heap.removed_idx[..5], &[1, 7, 5, 3, 9]);
    assert_eq!(sol.heap.removed_times[1], 1);
    assert_eq!(sol.heap.removed_times[3], 3);
    assert_eq!(sol.heap.removed_times[5], 2);
    assert_eq!(sol.heap.removed_times[7], 1);
    assert_eq!(sol.heap.removed_times[9], 4);
    assert_eq!(sol.top(), Some(9));
}

#[test]
fn added_route_is_walked_as_given() {
    let data = line_instance(2);
    let mut sol = Sol::new(&data);
    sol.add_route(&vec![0, 1, 3, 2, 4, 0]);
    check_invariants(&sol);
    assert_eq!(sol.route_iter(1).collect(), vec![1, 3, 2, 4, 0]);
    assert_eq!(sol.route_iter(2).collect(), vec![2, 4, 0]);
    assert_eq!(sol.route_iter(0).collect(), vec![0]);
    let mut it = sol.route_iter(2);
    assert_eq!(it.next(), Some(2));
    let branch = it;
    assert_eq!(it.next(), Some(4));
    assert_eq!(it.next(), Some(0));
    assert_eq!(it.next(), None);
    assert_eq!(branch.collect(), vec![4, 0]);
    assert_eq!(sol.rs(), vec![vec![1, 3, 2, 4]]);
    assert_eq!(sol.sorted_routes(), vec![1]);
}

#[test]
fn removing_and_putting_back_restores_the_caches() {
    let data = line_instance(2);
    let mut sol = Sol::new(&data);
    sol.add_route(&vec![0, 1, 3, 2, 4, 0]);
    for p in [1usize, 3] {
        let evals: Vec<(usize, u64, u64, i32)> =
            sol.evals.iter().map(|e| (e.node, e.distance, e.time, e.capacity)).collect();
        let latest = sol.latest_feasible_departure;
        let home = sol.home_move(p);
        sol.remove_pair(p);
        check_invariants(&sol);
        assert!(sol.is_removed(p));
        assert!(sol.is_removed(data.pts[p].pair));
        sol.make_move(&home);
        check_invariants(&sol);
        assert_eq!(sol.rs(), vec![vec![1, 3, 2, 4]]);
        let again: Vec<(usize, u64, u64, i32)> =
            sol.evals.iter().map(|e| (e.node, e.distance, e.time, e.capacity)).collect();
        assert_eq!(again, evals);
        assert_eq!(sol.latest_feasible_departure, latest);
    }
}

#[test]
fn home_of_adjacent_pair_names_the_pickup() {
    let data = line_instance(1);
    let mut sol = Sol::new(&data);
    sol.add_route(&vec![0, 1, 2, 3, 4, 0]);
    let home = sol.home_move(1);
    assert_eq!(home.put_pickup_between, Between(0, 3));
    assert_eq!(home.put_delivery_between, Between(1, 3));
    let home = sol.home_move(3);
    assert_eq!(home.put_pickup_between, Between(2, 0));
    assert_eq!(home.put_delivery_between, Between(3, 0));
}

#[test]
fn removing_the_first_pair_renames_the_route() {
    let data = line_instance(1);
    let mut sol = Sol::new(&data);
    sol.add_route(&vec![0, 1, 2, 3, 4, 0]);
    assert!(!sol.only_pickup_in_route(1));
    sol.remove_pair(1);
    check_invariants(&sol);
    assert_eq!(sol.rs(), vec![vec![3, 4]]);
    assert!(sol.routes.contains(&3));
    assert!(!sol.routes.contains(&1));
    assert!(sol.only_pickup_in_route(3));
    assert!(!sol.only_pickup_in_route(1));
    sol.remove_pair(3);
    check_invariants(&sol);
    assert_eq!(sol.routes_number(), 0);
}

#[test]
fn swap_exchanges_two_pairs() {
    let mut nodes = vec![node(0.0, 0.0, 0, 0, 1000, 0)];
    for k in 0..4 {
        nodes.push(node(k as f64, 1.0, 1, 0, 1000, 0));
        nodes.push(node(k as f64, 2.0, -1, 0, 1000, 0));
    }
    let data = instance(&nodes, 1);
    let mut sol = Sol::new(&data);
    sol.add_route(&vec![0, 1, 2, 3, 4, 0]);
    sol.add_route(&vec![0, 5, 6, 7, 8, 0]);
    let mut ev = Evaluator::new(&data);
    let swap = ev.check_swap(&sol, 1, 5).unwrap();
    assert_eq!(swap.a.pickup, 5);
    assert_eq!(swap.b.pickup, 1);
    sol.make_swap(&swap);
    check_invariants(&sol);
    let routes = sorted_routes_of(&sol);
    assert_eq!(routes.len(), 2);
    let with_five = routes.iter().find(|r| r.contains(&5)).unwrap();
    assert!(with_five.contains(&3) && with_five.contains(&6) && !with_five.contains(&1));
    let with_one = routes.iter().find(|r| r.contains(&1)).unwrap();
    assert!(with_one.contains(&7) && with_one.contains(&2));
}

#[test]
fn perturbation_keeps_the_solution_in_order() {
    let mut nodes = vec![node(0.0, 0.0, 0, 0, 1000, 0)];
    for k in 0..6 {
        nodes.push(node(k as f64, 1.0, 1, 0, 1000, 0));
        nodes.push(node(k as f64, 2.0, -1, 0, 1000, 0));
    }
    let data = instance(&nodes, 2);
    let mut sol = Sol::new(&data);
    sol.add_route(&vec![0, 1, 2, 3, 4, 5, 6, 0]);
    sol.add_route(&vec![0, 7, 8, 9, 10, 11, 12, 0]);
    let mut ev = Evaluator::new(&data);
    for _ in 0..200 {
        sol.perturb(&mut ev);
        check_invariants(&sol);
        assert_eq!(sol.heap.size, 0);
        let served: usize = sol.rs().iter().map(|r| r.len()).sum();
        assert_eq!(served, 12);
    }
}

#[test]
fn random_route_is_one_of_the_routes() {
    let data = line_instance(1);
    let mut sol = Sol::new(&data);
    sol.initialize();
    let mut seen = [false; 5];
    for _ in 0..200 {
        let r = sol.random_route_first();
        assert!(r == 1 || r == 3);
        seen[r] = true;
    }
    assert!(seen[1] && seen[3]);
    assert_eq!(sol.sorted_routes(), vec![1, 3]);
}

#[test]
fn random_pickup_is_not_alone_in_its_route() {
    let data = line_instance(1);
    let mut sol = Sol::new(&data);
    sol.initialize();
    assert_eq!(sol.random_pickup(), None);
    let mut sol = Sol::new(&data);
    sol.add_route(&vec![0, 1, 2, 3, 4, 0]);
    for _ in 0..50 {
        let p = sol.random_pickup().unwrap();
        assert!(p == 1 || p == 3);
    }
    assert_eq!(sol.random_pickup_outside(1), None);
}

#[test]
fn plain_move_of_a_pooled_pair() {
    let data = line_instance(1);
    let mut sol = Sol::new(&data);
    sol.add_route(&vec![0, 1, 2, 0]);
    sol.push(3);
    sol.inc();
    assert_eq!(sol.heap.removed_times[3], 1);
    let mut ev = Evaluator::new(&data);
    let m = sol.try_insert_1(3, &mut ev).unwrap();
    assert_eq!(m.times, 2);
    assert_eq!(m.removed, [0; K_MAX]);
    let front = Move {
        pickup: 3,
        put_pickup_between: Between(0, 1),
        put_delivery_between: Between(3, 1),
        times: 2,
        removed: [0; K_MAX],
    };
    let back = Move {
        pickup: 3,
        put_pickup_between: Between(2, 0),
        put_delivery_between: Between(3, 0),
        times: 2,
        removed: [0; K_MAX],
    };
    assert!(m == front || m == back);
    sol.pop();
    sol.make_move(&back);
    check_invariants(&sol);
    assert_eq!(sol.rs(), vec![vec![1, 2, 3, 4]]);
    assert_eq!(sol.evals[4].distance, 4 * MULT);
    assert_eq!(sol.evals[4].time, 4 * MULT);
    assert_eq!(sol.latest_feasible_departure[4], 96 * MULT);
    assert_eq!(sol.latest_feasible_departure[1], 93 * MULT);
}

#[test]
fn tables_are_built_from_sites() {
    let site = |x: i64, y: i64, demand: i32, service: u64, pair: usize, is_delivery: bool| Site {
        x,
        y,
        demand,
        ready: 2,
        due: 100,
        service,
        pair,
        is_delivery,
    };
    let sites = vec![
        Site { ready: 0, ..site(0, 0, 0, 0, 0, false) },
        site(3, 4, 7, 10, 2, false),
        site(1, 1, -7, 20, 1, true),
    ];
    let data = Data::build(&sites, 9).unwrap();
    assert_eq!(data.points, 3);
    assert_eq!(data.max_cap, 9);
    assert_eq!(data.dist.len(), PTS * PTS);
    // 5 exactly, and the square root of 2 and of 13 rounded up
    assert_eq!(data.dist[PTS], 50_000);
    assert_eq!(data.dist[1], 50_000);
    assert_eq!(data.dist[2], 14_143);
    assert_eq!(data.dist[PTS + 2], 36_056);
    assert_eq!(data.dist[0], 0);
    assert_eq!(data.time[1], 50_000);
    assert_eq!(data.time[PTS], 150_000);
    assert_eq!(data.time[2 * PTS + 1], 236_056);
    assert_eq!(data.pts[1].dem, 7);
    assert_eq!(data.pts[1].start, 20_000);
    assert_eq!(data.pts[1].due, 1_000_000);
    assert_eq!(data.pts[1].pair, 2);
    assert!(!data.pts[1].is_delivery);
    assert!(data.pts[2].is_delivery);
    assert_eq!(data.pair_of(2), 1);
    assert!(data.is_valid());
    assert!(Sol::lone_pairs_feasible(&data));

    assert!(Data::build(&Vec::new(), 1).is_none());
    let far = vec![site(0, 0, 0, 0, 0, false), site(2_000_000, 0, 1, 0, 1, false)];
    assert!(Data::build(&far, 1).is_none());
    let stray = vec![site(0, 0, 0, 0, 5, false)];
    assert!(Data::build(&stray, 1).is_none());
}

#[test]
fn invalid_instances_are_told_apart() {
    let good = line_instance(1);
    assert!(good.is_valid());
    assert!(good.check_sized() && good.check_paired() && good.check_metric());

    let mut lopsided = line_instance(1);
    lopsided.pts[2].dem = -2;
    assert!(!lopsided.check_paired());
    assert!(!lopsided.is_valid());

    let mut both_pickups = line_instance(1);
    both_pickups.pts[2].is_delivery = false;
    assert!(!both_pickups.check_paired());

    let mut detour = line_instance(1);
    detour.time[PTS + 4] = 10 * MULT;
    assert!(detour.check_sized());
    assert!(!detour.check_metric());
    assert!(!detour.is_valid());

    let mut short = line_instance(1);
    short.dist.pop();
    assert!(!short.check_sized());

    let mut late = line_instance(1);
    late.pts[2].due = 1;
    assert!(late.is_valid());
    assert!(!Sol::lone_pairs_feasible(&late));
}

#[test]
fn ceil_root_rounds_up() {
    assert_eq!(ceil_root(0), 0);
    assert_eq!(ceil_root(1), 1);
    assert_eq!(ceil_root(2), 2);
    assert_eq!(ceil_root(4), 2);
    assert_eq!(ceil_root(5), 3);
    assert_eq!(ceil_root(1_000_000), 1_000);
    assert_eq!(ceil_root(1_000_001), 1_001);
    assert_eq!(ceil_root(1u128 << 80), 1u64 << 40);
}

/// Whether a vehicle that visits `route` from the depot and back keeps every
/// time window and never carries less than nothing or more than it can hold.
fn route_is_feasible(data: &Data, route: &[usize]) -> bool {
    let mut before = 0;
    let mut time = 0;
    let mut load = 0;
    for &v in route.iter().chain(std::iter::once(&0)) {
        time = (time + data.time[before * PTS + v]).max(data.pts[v].start);
        load += data.pts[v].dem;
        if time > data.pts[v].due || load < 0 || load > data.max_cap {
            return false;
        }
        before = v;
    }
    true
}

fn feasible_placements(data: &Data, route: &[usize], p: usize) -> usize {
    let d = data.pts[p].pair;
    let mut count = 0;
    for i in 0..=route.len() {
        for j in i..=route.len() {
            let mut tried = route.to_vec();
            tried.insert(j, d);
            tried.insert(i, p);
            if route_is_feasible(data, &tried) {
                count += 1;
            }
        }
    }
    count
}

#[test]
fn scan_counts_every_feasible_placement() {
    // the new pair has to leave (1, 1) by 3 and to reach (1, 0) by 5
    let data = instance(
        &[
            node(0.0, 0.0, 0, 0, 1000, 0),
            node(0.0, 1.0, 1, 0, 1000, 0),
            node(2.0, 0.0, -1, 0, 1000, 0),
            node(2.0, 1.0, 1, 0, 1000, 0),
            node(0.0, 0.0, -1, 0, 1000, 0),
            node(1.0, 1.0, 1, 0, 3, 0),
            node(1.0, 0.0, -1, 0, 5, 0),
        ],
        2,
    );
    let mut sol = Sol::new(&data);
    sol.add_route(&vec![0, 1, 3, 2, 4, 0]);
    check_invariants(&sol);
    let expected = feasible_placements(&data, &[1, 3, 2, 4], 5);
    assert_eq!(expected, 3);
    let mut ev = Evaluator::with_pickup(&data, 5);
    let m = ev.check_add_to_route(&sol, 1).unwrap();
    assert_eq!(m.times, expected);

    // no vehicle holds three loads at once, and the pair is due before the
    // route's first delivery can be reached
    let tight = instance(
        &[
            node(0.0, 0.0, 0, 0, 1000, 0),
            node(0.0, 5.0, 1, 0, 1000, 0),
            node(0.0, 9.0, -1, 0, 1000, 0),
            node(0.0, 1.0, 2, 0, 2, 0),
            node(0.0, 2.0, -2, 0, 3, 0),
        ],
        2,
    );
    let mut sol = Sol::new(&tight);
    sol.add_route(&vec![0, 1, 2, 0]);
    assert_eq!(feasible_placements(&tight, &[1, 2], 3), 1);
    let mut ev = Evaluator::with_pickup(&tight, 3);
    let m = ev.check_add_to_route(&sol, 1).unwrap();
    assert_eq!(m.times, 1);
    assert_eq!((m.put_pickup_between.0, m.put_pickup_between.1), (0, 1));
    assert_eq!((m.put_delivery_between.0, m.put_delivery_between.1), (3, 1));

    let shut = instance(
        &[
            node(0.0, 0.0, 0, 0, 1000, 0),
            node(0.0, 5.0, 2, 0, 5, 0),
            node(0.0, 9.0, -2, 0, 9, 0),
            node(0.0, 1.0, 1, 0, 1000, 0),
            node(0.0, 2.0, -1, 0, 1000, 0),
        ],
        2,
    );
    let mut sol = Sol::new(&shut);
    sol.add_route(&vec![0, 1, 2, 0]);
    // the pair goes as a block before the route or behind it
    assert_eq!(feasible_placements(&shut, &[1, 2], 3), 2);
    let mut ev = Evaluator::with_pickup(&shut, 3);
    let m = ev.check_add_to_route(&sol, 1).unwrap();
    assert_eq!(m.times, 2);
    let pickup_gap = (m.put_pickup_between.0, m.put_pickup_between.1);
    let delivery_gap = (m.put_delivery_between.0, m.put_delivery_between.1);
    assert!(
        (pickup_gap == (0, 1) && delivery_gap == (3, 1))
            || (pickup_gap == (2, 0) && delivery_gap == (3, 0))
    );
}

#[test]
fn built_tables_obey_the_triangle_inequality() {
    let at = |x: i64, y: i64, service: u64, pair: usize, is_delivery: bool| Site {
        x,
        y,
        demand: if pair == 0 {
            0
        } else if is_delivery {
            -1
        } else {
            1
        },
        ready: 0,
        due: 1000,
        service,
        pair,
        is_delivery,
    };
    // distances whose roots are irrational, so that every leg is rounded up
    let sites = vec![
        at(0, 0, 0, 0, false),
        at(1, 1, 3, 2, false),
        at(2, 3, 0, 1, true),
        at(-5, 7, 1, 4, false),
        at(11, -2, 0, 3, true),
        at(1, 2, 9, 6, false),
        at(2, 2, 0, 5, true),
    ];
    let data = Data::build(&sites, 2).unwrap();
    assert!(data.check_metric());
    assert!(data.check_sized());
    assert!(data.check_paired());
    for a in 0..sites.len() {
        for b in 0..sites.len() {
            for c in 0..sites.len() {
                assert!(
                    data.dist_between(a, c) <= data.dist_between(a, b) + data.dist_between(b, c)
                );
            }
        }
    }
    // a demand too large for the loads of a route to be summed
    let mut heavy = sites.clone();
    heavy[1].demand = 2_000_000;
    heavy[2].demand = -2_000_000;
    let data = Data::build(&heavy, 2).unwrap();
    assert!(data.check_metric());
    assert!(!data.check_sized());
}

#[test]
fn plain_insertion_is_tried_before_ejections() {
    let data = line_instance(2);
    let mut sol = Sol::new(&data);
    sol.add_route(&vec![0, 1, 2, 0]);
    sol.push(3);
    sol.inc();
    sol.inc();
    assert_eq!(sol.heap.removed_times[3], 2);
    let mut ev = Evaluator::new(&data);
    for _ in 0..20 {
        let m = sol.try_insert(3, &mut ev).unwrap();
        assert_eq!(m.pickup, 3);
        assert_eq!(m.removed, [0; K_MAX]);
        assert!(m.times > 0);
    }
}

#[test]
fn search_leaves_a_solution_at_its_target_alone() {
    let data = line_instance(1);
    let mut sol = Sol::new(&data);
    sol.initialize();
    let before = sorted_routes_of(&sol);
    let evals: Vec<(u64, u64, i32)> =
        sol.evals.iter().map(|e| (e.distance, e.time, e.capacity)).collect();

    let mut ges = Ges::new(&data);
    ges.ges(&mut sol, conf(2), 1000);
    assert_eq!(sorted_routes_of(&sol), before);
    assert_eq!(ges.stats.iterations.total, 0);

    let mut ges = Ges::new(&data);
    ges.ges(&mut sol, conf(1), 0);
    assert_eq!(sorted_routes_of(&sol), before);
    assert_eq!(sol.heap.size, 0);
    let after: Vec<(u64, u64, i32)> =
        sol.evals.iter().map(|e| (e.distance, e.time, e.capacity)).collect();
    assert_eq!(evals, after);
    check_invariants(&sol);
}

#[test]
fn search_never_adds_a_route() {
    let data = crowded_instance();
    let mut sol = Sol::new(&data);
    sol.initialize();
    let mut routes = sol.routes_number();
    let mut ges = Ges::new(&data);
    for budget in [1usize, 2, 3, 5, 8, 13] {
        ges.ges(&mut sol, conf(1), budget);
        check_invariants(&sol);
        check_complete(&sol);
        assert!(sol.routes_number() <= routes);
        routes = sol.routes_number();
    }
}

#[test]
fn perturbation_keeps_the_number_of_routes() {
    let data = crowded_instance();
    let mut sol = Sol::new(&data);
    sol.initialize();
    let mut ges = Ges::new(&data);
    ges.ges(&mut sol, conf(2), 200);
    let routes = sol.routes_number();
    let mut ev = Evaluator::new(&data);
    for _ in 0..200 {
        sol.perturb(&mut ev);
        assert_eq!(sol.routes_number(), routes);
    }
    check_invariants(&sol);
}

#[test]
fn damaged_chains_are_found() {
    let data = line_instance(1);
    let mut sol = Sol::new(&data);
    assert!(sol.check_routes());
    sol.add_route(&vec![0, 1, 2, 3, 4, 0]);
    assert!(sol.check_routes());

    // a back link that skips a node
    sol.prev[3] = 1;
    assert!(!sol.check_routes());
    sol.prev[3] = 2;
    assert!(sol.check_routes());

    // a node marked with another route
    sol.first[4] = 3;
    assert!(!sol.check_routes());
    sol.first[4] = 1;

    // a chain that never reaches the depot
    sol.next[4] = 1;
    assert!(!sol.check_routes());
    sol.next[4] = 0;

    // a chain cut in the middle leaves nodes behind that nothing leads to
    sol.next[2] = 0;
    assert!(!sol.check_routes());
    sol.next[2] = 3;

    // a chain of odd length
    sol.next[3] = 0;
    sol.next[4] = UNSERVED;
    sol.prev[4] = UNSERVED;
    assert!(!sol.check_routes());
    sol.next[3] = 4;
    sol.next[4] = 0;
    sol.prev[4] = 3;
    assert!(sol.check_routes());

    // a route id that is no first node
    sol.routes.insert(3);
    assert!(!sol.check_routes());
    sol.routes.remove(&3);
    sol.routes.insert(0);
    assert!(!sol.check_routes());
    sol.routes.remove(&0);
    assert!(sol.check_routes());

    // a node linked in one direction only
    let data = line_instance(1);
    let mut sol = Sol::new(&data);
    sol.add_route(&vec![0, 1, 2, 0]);
    sol.next[3] = 0;
    assert!(!sol.check_routes());
    sol.next[3] = UNSERVED;
    sol.prev[4] = 4;
    assert!(!sol.check_routes());
}

#[test]
fn chains_stay_in_order_through_the_search() {
    let data = crowded_instance();
    let mut sol = Sol::new(&data);
    sol.initialize();
    assert!(sol.check_routes());
    let mut ges = Ges::new(&data);
    for _ in 0..20 {
        ges.ges(&mut sol, conf(1), 3);
        assert!(sol.check_routes());
    }
}

#[test]
fn an_attempt_puts_the_top_of_the_pool_back_or_raises_its_count() {
    // a place opens once the pair of pickup 1 has left
    let data = crowded_instance();
    let mut sol = Sol::new(&data);
    sol.add_route(&vec![0, 1, 2, 5, 6, 0]);
    sol.heap.removed_times[3] = 5;
    sol.push(3);
    let mut ges = Ges::new(&data);
    assert!(ges.reinsert(&mut sol));
    check_invariants(&sol);
    check_complete(&sol);
    assert!(!sol.is_removed(3));
    assert_eq!(sorted_routes_of(&sol), vec![vec![3, 4, 5, 6]]);
    assert_eq!(sol.top(), Some(1));
    assert_eq!(sol.heap.removed_times[1], 1);
    assert_eq!(sol.heap.removed_times[3], 5);
    assert_eq!(ges.stats.iterations.total, 0);

    // no subset has a lower count than the pickup: its count is raised
    let mut sol = Sol::new(&data);
    sol.add_route(&vec![0, 1, 2, 5, 6, 0]);
    sol.push(3);
    assert!(!ges.reinsert(&mut sol));
    check_invariants(&sol);
    check_complete(&sol);
    assert!(sol.is_removed(3));
    assert_eq!(sol.top(), Some(3));
    assert_eq!(sol.heap.size, 1);
    assert_eq!(sol.heap.removed_times[3], 1);
    assert_eq!(sol.heap.removed_times[1], 0);
    assert_eq!(sol.routes_number(), 1);
    let mut served = sol.rs().concat();
    served.sort();
    assert_eq!(served, vec![1, 2, 5, 6]);

    // a plain place: nothing is ejected and no count changes
    let line = line_instance(2);
    let mut sol = Sol::new(&line);
    sol.add_route(&vec![0, 1, 2, 0]);
    sol.push(3);
    let mut ges = Ges::new(&line);
    assert!(ges.reinsert(&mut sol));
    assert_eq!(sol.heap.size, 0);
    assert_eq!(sol.heap.removed_times[1], 0);
    assert_eq!(sol.heap.removed_times[3], 0);
    assert_eq!(sol.routes_number(), 1);
    check_invariants(&sol);
}

fn depot_cluster(due_of_4: u64, due_of_6: u64) -> Data {
    // all nodes at the depot; every customer takes ten units
    instance(
        &[
            node(0.0, 0.0, 0, 0, 1000, 0),
            node(0.0, 0.0, 1, 0, 1000, 10),
            node(0.0, 0.0, -1, 0, 1000, 10),
            node(0.0, 0.0, 1, 0, 1000, 10),
            node(0.0, 0.0, -1, 0, due_of_4, 10),
            node(0.0, 0.0, 1, 0, 1000, 10),
            node(0.0, 0.0, -1, 0, due_of_6, 10),
            node(0.0, 0.0, 1, 0, 1000, 10),
            node(0.0, 0.0, -1, 0, 1000, 10),
        ],
        1,
    )
}

fn route_of(sol: &Sol, v: usize) -> Vec<usize> {
    sol.rs().into_iter().find(|r| r.contains(&v)).unwrap()
}

#[test]
fn exchange_moves_each_pair_into_the_route_of_the_other() {
    let data = depot_cluster(1000, 1000);
    let mut sol = Sol::new(&data);
    sol.add_route(&vec![0, 3, 4, 1, 2, 0]);
    sol.add_route(&vec![0, 5, 6, 7, 8, 0]);
    let mut ev = Evaluator::new(&data);
    for _ in 0..20 {
        let with_one = route_of(&sol, 1);
        let with_five = route_of(&sol, 5);
        assert!(!with_one.contains(&5));
        sol.exchange(1, 5, &mut ev);
        check_invariants(&sol);
        let mut now_one = route_of(&sol, 1);
        let mut now_five = route_of(&sol, 5);
        assert_eq!(now_one.len(), 4);
        assert_eq!(now_five.len(), 4);
        // each pair stands where the other stood: with the other's companions
        let mut expected_one: Vec<usize> =
            with_five.iter().copied().filter(|&v| v != 5 && v != 6).chain([1, 2]).collect();
        let mut expected_five: Vec<usize> =
            with_one.iter().copied().filter(|&v| v != 1 && v != 2).chain([5, 6]).collect();
        expected_one.sort();
        expected_five.sort();
        now_one.sort();
        now_five.sort();
        assert_eq!(now_one, expected_one);
        assert_eq!(now_five, expected_five);
        assert_eq!(sol.routes_number(), 2);
        assert_eq!(sol.heap.size, 0);
    }
}

#[test]
fn exchange_leaves_the_solution_alone_without_a_place_for_both() {
    // nothing fits ahead of delivery 4, and delivery 6 is due too early to
    // come behind it
    let data = depot_cluster(10, 25);
    let mut sol = Sol::new(&data);
    sol.add_route(&vec![0, 3, 4, 1, 2, 0]);
    sol.add_route(&vec![0, 5, 6, 7, 8, 0]);
    check_invariants(&sol);
    let before = sol.rs();
    let next = sol.next;
    let evals: Vec<(u64, u64, i32)> =
        sol.evals.iter().map(|e| (e.distance, e.time, e.capacity)).collect();
    let mut ev = Evaluator::new(&data);
    sol.exchange(1, 5, &mut ev);
    let mut after = sol.rs();
    let mut expected = before.clone();
    after.sort();
    expected.sort();
    assert_eq!(after, expected);
    assert_eq!(sol.next, next);
    let now: Vec<(u64, u64, i32)> =
        sol.evals.iter().map(|e| (e.distance, e.time, e.capacity)).collect();
    assert_eq!(now, evals);
}

#[test]
fn relocation_puts_the_pair_back_into_some_route() {
    let data = depot_cluster(1000, 1000);
    let mut sol = Sol::new(&data);
    sol.add_route(&vec![0, 3, 4, 1, 2, 0]);
    sol.add_route(&vec![0, 5, 6, 7, 8, 0]);
    let mut ev = Evaluator::new(&data);
    let mut left_home = false;
    for _ in 0..200 {
        let others_before: Vec<Vec<usize>> = sol
            .rs()
            .into_iter()
            .map(|r| r.into_iter().filter(|&v| v != 1 && v != 2).collect())
            .collect();
        if route_of(&sol, 1).len() == 2 {
            // alone in its route: the pair cannot be relocated
            break;
        }
        sol.relocate(1, &mut ev);
        check_invariants(&sol);
        assert!(!sol.is_removed(1) && !sol.is_removed(2));
        let route = route_of(&sol, 1);
        let p = route.iter().position(|&v| v == 1).unwrap();
        let d = route.iter().position(|&v| v == 2).unwrap();
        assert!(p < d);
        // the other nodes keep their routes and their order
        let mut others_after: Vec<Vec<usize>> = sol
            .rs()
            .into_iter()
            .map(|r| r.into_iter().filter(|&v| v != 1 && v != 2).collect())
            .collect();
        let mut expected = others_before.clone();
        others_after.sort();
        expected.sort();
        assert_eq!(others_after, expected);
        if route.contains(&5) {
            left_home = true;
        }
        assert_eq!(sol.routes_number(), 2);
    }
    assert!(left_home);
}

#[test]
fn perturbation_follows_the_coin() {
    let data = depot_cluster(1000, 1000);
    let mut sol = Sol::new(&data);
    sol.add_route(&vec![0, 3, 4, 1, 2, 0]);
    sol.add_route(&vec![0, 5, 6, 7, 8, 0]);
    let mut ev = Evaluator::new(&data);
    // a swap keeps two pairs in each route, whichever pairs it takes
    for _ in 0..50 {
        sol.perturb_with(&mut ev, false);
        check_invariants(&sol);
        let mut lens: Vec<usize> = sol.rs().iter().map(|r| r.len()).collect();
        lens.sort();
        assert_eq!(lens, vec![4, 4]);
    }
    // relocations do not: sooner or later a pair changes its route
    let mut uneven = false;
    for _ in 0..200 {
        sol.perturb_with(&mut ev, true);
        check_invariants(&sol);
        assert_eq!(sol.routes_number(), 2);
        if sol.rs().iter().any(|r| r.len() != 4) {
            uneven = true;
        }
    }
    assert!(uneven);

    // with every pair alone in its route there is nothing to change
    let mut lone = Sol::new(&data);
    lone.initialize();
    let before = sorted_routes_of(&lone);
    for _ in 0..20 {
        lone.perturb(&mut ev);
        lone.random_move(&mut ev);
        lone.random_swap(&mut ev);
    }
    assert_eq!(sorted_routes_of(&lone), before);
}

#[test]
fn a_round_of_the_search_follows_the_clock() {
    let data = line_instance(1);
    let mut sol = Sol::new(&data);
    sol.initialize();
    let mut ges = Ges::new(&data);

    // no route is dissolved once the time is out, the target met or the
    // budget spent
    assert!(!ges.open_route(&mut sol, 1, 5, true));
    assert!(!ges.open_route(&mut sol, 2, 5, false));
    assert!(!ges.open_route(&mut sol, 1, 0, false));
    assert_eq!(sorted_routes_of(&sol), vec![vec![1, 2], vec![3, 4]]);
    assert_eq!(ges.stats.iterations.total, 0);
    assert_eq!(ges.refill(&mut sol, 5, false), None);

    assert!(ges.open_route(&mut sol, 1, 5, false));
    check_invariants(&sol);
    check_complete(&sol);
    assert_eq!(sol.routes_number(), 1);
    assert_eq!(sol.heap.size, 1);
    assert_eq!(ges.stats.iterations.total, 1);
    assert_eq!(ges.stats.iterations.current, 1);
    let pooled = sol.top().unwrap();
    assert!(pooled == 1 || pooled == 3);
    assert_eq!(sol.heap.removed_times[pooled], 1);

    // no attempt is made once the time is out or the budget spent
    assert_eq!(ges.refill(&mut sol, 4, true), None);
    assert_eq!(ges.refill(&mut sol, 0, false), None);
    assert_eq!(sol.heap.size, 1);
    assert_eq!(ges.stats.iterations.total, 1);

    // the pair fits behind or ahead of the other one
    assert_eq!(ges.refill(&mut sol, 4, false), Some(true));
    check_invariants(&sol);
    check_complete(&sol);
    assert_eq!(sol.heap.size, 0);
    assert_eq!(sol.routes_number(), 1);
    assert_eq!(ges.stats.iterations.total, 2);
    assert_eq!(ges.stats.iterations.current, 2);
    assert_eq!(ges.refill(&mut sol, 3, false), None);
}

#[test]
fn a_swap_counts_the_places_of_both_pairs() {
    let data = depot_cluster(1000, 1000);
    let mut sol = Sol::new(&data);
    sol.add_route(&vec![0, 3, 4, 1, 2, 0]);
    sol.add_route(&vec![0, 5, 6, 7, 8, 0]);
    let mut ev = Evaluator::new(&data);
    let swap = ev.check_swap(&sol, 1, 5).unwrap();
    assert!(swap.is_not_empty());
    assert_eq!(swap.a.pickup, 5);
    assert_eq!(swap.b.pickup, 1);
    // a vehicle holds one load: the pair goes as a block before or behind
    // the pair that stays
    assert_eq!(swap.a.times, feasible_placements(&data, &[3, 4], 5));
    assert_eq!(swap.b.times, feasible_placements(&data, &[7, 8], 1));
    assert_eq!(swap.a.times, 2);
    assert_eq!(swap.b.times, 2);
    assert_eq!(swap.a.removed, [0; K_MAX]);
    assert_eq!(swap.b.removed, [0; K_MAX]);

    let blocked = depot_cluster(10, 25);
    let mut sol = Sol::new(&blocked);
    sol.add_route(&vec![0, 3, 4, 1, 2, 0]);
    sol.add_route(&vec![0, 5, 6, 7, 8, 0]);
    let mut ev = Evaluator::new(&blocked);
    assert!(ev.check_swap(&sol, 1, 5).is_none());
}

#[test]
fn the_plain_search_counts_the_places_of_all_routes() {
    let data = depot_cluster(1000, 1000);
    let mut sol = Sol::new(&data);
    sol.add_route(&vec![0, 3, 4, 0]);
    sol.add_route(&vec![0, 5, 6, 7, 8, 0]);
    let expected =
        feasible_placements(&data, &[3, 4], 1) + feasible_placements(&data, &[5, 6, 7, 8], 1);
    assert_eq!(expected, 5);
    let mut ev = Evaluator::new(&data);
    for _ in 0..50 {
        let m = sol.try_insert_1(1, &mut ev).unwrap();
        assert_eq!(m.times, expected);
        assert_eq!(m.removed, [0; K_MAX]);
    }
}

#[test]
fn the_search_with_ejections_counts_what_it_scans() {
    // with the pair of 1 gone the pair of 3 fits before or behind 5 and 6;
    // with the pair of 5 gone it does not fit ahead of delivery 2
    let data = crowded_instance();
    let mut sol = Sol::new(&data);
    sol.add_route(&vec![0, 1, 2, 5, 6, 0]);
    sol.heap.removed_times[3] = 5;
    sol.push(3);
    let mut ev = Evaluator::with_pickup(&data, 3);
    let with_one_gone = feasible_placements(&data, &[5, 6], 3);
    let with_five_gone = feasible_placements(&data, &[1, 2], 3);
    for _ in 0..20 {
        let m = ev.check_add_to_route_with_k_removed(&sol, 1, 1).unwrap();
        assert_eq!(m.times, with_one_gone + with_five_gone);
        let gone = m.removed[0];
        assert!(gone == 1 || gone == 5);
        assert_eq!(&m.removed[1..], &[0; K_MAX - 1]);
        assert!(sol.heap.removed_times[gone] < sol.heap.removed_times[3]);
        let rest: Vec<usize> = [1, 2, 5, 6]
            .into_iter()
            .filter(|&v| v != gone && v != data.pts[gone].pair)
            .collect();
        assert!(feasible_placements(&data, &rest, 3) > 0);
    }
    // no subset of two pickups is left of a route of two
    assert!(ev.check_add_to_route_with_k_removed(&sol, 1, 2).is_none());
    // nothing is scanned once the pickup's count is not above the subset's
    sol.heap.removed_times[1] = 5;
    sol.heap.removed_times[5] = 7;
    assert!(ev.check_add_to_route_with_k_removed(&sol, 1, 1).is_none());
}

#[test]
fn cached_values_of_nodes_out_of_reach_stay() {
    let data = depot_cluster(1000, 1000);
    let mut sol = Sol::new(&data);
    sol.add_route(&vec![0, 3, 4, 1, 2, 0]);
    sol.add_route(&vec![0, 5, 6, 0]);
    let snapshot = |sol: &Sol, v: usize| {
        let e = &sol.evals[v];
        (e.node, e.distance, e.time, e.capacity, sol.latest_feasible_departure[v])
    };
    // taking a route apart leaves what was cached for its nodes
    let five = snapshot(&sol, 5);
    let six = snapshot(&sol, 6);
    let seven = snapshot(&sol, 7);
    sol.remove_route(5);
    assert_eq!(snapshot(&sol, 5), five);
    assert_eq!(snapshot(&sol, 6), six);
    assert_eq!(snapshot(&sol, 7), seven);
    // adding a route and moving a pair leave the unserved nodes alone
    sol.add_route(&vec![0, 7, 8, 0]);
    assert_eq!(snapshot(&sol, 5), five);
    assert_eq!(snapshot(&sol, 6), six);
    let mut ev = Evaluator::new(&data);
    sol.relocate(1, &mut ev);
    sol.exchange(3, 7, &mut ev);
    assert_eq!(snapshot(&sol, 5), five);
    assert_eq!(snapshot(&sol, 6), six);
    check_invariants(&sol);
}
