use ges::data::{idx, Data, PointData, MULT, PTS};
use ges::eval::Eval;
use ges::evaluator::comb::{Combinations, PairInfo};
use ges::evaluator::Evaluator;
use ges::sol::heap::Heap;
use ges::sol::Sol;
use ges::stats::{HeapSize, Iterations, Stats};
use ges::{Ges, UNSERVED};

fn small() -> Data {
    let mut pts = [PointData { dem: 0, start: 0, due: 0, pair: 0, is_delivery: false }; PTS];
    pts[0].due = 1000;
    pts[1] = PointData { dem: 3, start: 50, due: 60, pair: 2, is_delivery: false };
    pts[2] = PointData { dem: -3, start: 0, due: 200, pair: 1, is_delivery: true };
    let mut dist = vec![0; PTS * PTS];
    let mut time = vec![0; PTS * PTS];
    for a in 0..3 {
        for b in 0..3 {
            if a != b {
                dist[a * PTS + b] = 10;
                time[a * PTS + b] = 10 + 5 * a as u64;
            }
        }
    }
    Data { dist, pts, max_cap: 5, time, points: 3 }
}

#[test]
fn cells_are_numbered_row_by_row() {
    assert_eq!(idx(0, 0), 0);
    assert_eq!(idx(0, 7), 7);
    assert_eq!(idx(3, 4), 3 * PTS + 4);
    assert_eq!(idx(PTS - 1, PTS - 1), PTS * PTS - 1);
    assert_eq!(MULT, 10000);
}

#[test]
fn eval_advances_waits_and_loads() {
    let data = small();
    let mut e = Eval::new();
    assert_eq!((e.node, e.distance, e.time, e.capacity), (0, 0, 0, 0));
    e.next(1, &data);
    // arrives at 10 and waits for the ready time
    assert_eq!((e.node, e.distance, e.time, e.capacity), (1, 10, 50, 3));
    assert!(e.is_feasible(&data));
    assert!(!e.arrives_too_late(&data));
    e.next(2, &data);
    assert_eq!((e.node, e.distance, e.time, e.capacity), (2, 20, 65, 0));
    let mut copy = Eval::new();
    copy.reset_to(&e);
    assert_eq!((copy.node, copy.distance, copy.time, copy.capacity), (2, 20, 65, 0));
}

#[test]
fn eval_feasibility_looks_at_time_and_load() {
    let data = small();
    let late = Eval { node: 1, distance: 0, time: 61, capacity: 3 };
    assert!(!late.is_feasible(&data));
    assert!(late.arrives_too_late(&data));
    let heavy = Eval { node: 1, distance: 0, time: 60, capacity: 6 };
    assert!(!heavy.is_feasible(&data));
    assert!(!heavy.arrives_too_late(&data));
    let negative = Eval { node: 1, distance: 0, time: 60, capacity: -1 };
    assert!(!negative.is_feasible(&data));
    let fine = Eval { node: 1, distance: 0, time: 60, capacity: 5 };
    assert!(fine.is_feasible(&data));
}

#[test]
fn delivery_insertion_checks_both_deadlines() {
    let data = small();
    let mut e = Eval { node: 0, distance: 0, time: 0, capacity: 0 };
    // service at 1 starts at 50, node 2 is reached at 65
    assert!(e.can_delivery_be_inserted(1, 2, &data, 65));
    assert!(!e.can_delivery_be_inserted(1, 2, &data, 64));
    assert_eq!((e.node, e.time), (0, 0));
    let mut after_ready = Eval { node: 0, distance: 0, time: 51, capacity: 0 };
    // service at 1 would start at 61, after its due time
    assert!(!after_ready.can_delivery_be_inserted(1, 2, &data, 1000));
    let mut on_the_dot = Eval { node: 0, distance: 0, time: 50, capacity: 0 };
    assert!(on_the_dot.can_delivery_be_inserted(1, 2, &data, 75));
}

#[test]
fn pool_grows_shrinks_and_reorders() {
    let mut heap = Heap::new();
    assert_eq!(heap.top(), None);
    assert_eq!(heap.size, 0);
    heap.push(4);
    heap.inc();
    heap.push(6);
    heap.inc();
    assert_eq!(&heap.removed_idx[..2], &[4, 6]);
    assert!(heap.check_if_is_sorted());
    heap.inc();
    assert_eq!(heap.removed_times[6], 2);
    heap.push(8);
    heap.inc();
    // the newcomer settles behind the pickup with the same count
    assert_eq!(&heap.removed_idx[..3], &[4, 8, 6]);
    assert_eq!(heap.entries(), vec![(4, 1), (8, 1), (6, 2)]);
    assert_eq!(heap.top(), Some(6));
    heap.pop();
    assert_eq!(heap.top(), Some(8));
    heap.inc();
    heap.inc();
    assert_eq!(heap.removed_times[8], 3);
    assert_eq!(heap.top(), Some(8));
    assert_eq!(heap.size, 2);
}

#[test]
fn pool_sort_is_stable() {
    let mut heap = Heap::new();
    heap.removed_times[1] = 2;
    heap.removed_times[2] = 1;
    heap.removed_times[3] = 2;
    heap.removed_times[4] = 1;
    for v in [1, 2, 3, 4] {
        heap.push(v);
    }
    assert!(!heap.check_if_is_sorted());
    heap.sort();
    assert_eq!(&heap.removed_idx[..4], &[2, 4, 1, 3]);
    assert!(heap.check_if_is_sorted());
    assert_eq!(heap.removed_idx[4], UNSERVED);
}

#[test]
fn counters_count() {
    let mut size = HeapSize::new();
    assert_eq!((size.min, size.max), (usize::MAX, 0));
    size.change(5);
    size.change(2);
    size.change(9);
    assert_eq!((size.min, size.max), (2, 9));

    let mut it = Iterations::default();
    it.inc();
    it.inc();
    assert_eq!(it.current(), 2);
    assert_eq!(it.total, 2);

    let mut stats = Stats::new();
    stats.add_iteration(3);
    stats.add_iteration(7);
    assert_eq!(stats.iterations().current(), 2);
    assert_eq!((stats.heap_size.min, stats.heap_size.max), (3, 7));
    stats.reset();
    assert_eq!(stats.iterations().current(), 0);
    assert_eq!(stats.iterations.total, 2);
    assert_eq!((stats.heap_size.min, stats.heap_size.max), (usize::MAX, 0));
    assert!(stats.out_of_time(&std::time::Duration::new(0, 0)));
    assert!(!stats.out_of_time(&std::time::Duration::new(3600, 0)));
    assert!(stats.total_time() < std::time::Duration::new(3600, 0));
    assert!(stats.route_time() <= stats.total_time());
}

#[test]
fn evaluator_remembers_its_pickup() {
    let data = small();
    let ev = Evaluator::new(&data);
    assert_eq!(ev.pickup_idx, UNSERVED);
    let mut ev = Evaluator::with_pickup(&data, 1);
    assert_eq!(ev.pickup_idx, 1);
    ev.reset(7);
    assert_eq!(ev.pickup_idx, 7);
    let ges = Ges::new(&data);
    assert_eq!(ges.evaluator.pickup_idx, UNSERVED);
    assert_eq!(ges.stats.iterations.total, 0);
}

#[test]
fn pair_info_keeps_what_it_is_given() {
    let info = PairInfo::new(7, 3, 5, 11, true);
    assert_eq!(info.idx(), 7);
    assert_eq!((info.id, info.idx, info.pair_idx, info.removed_times, info.delivery), (7, 3, 5, 11, true));
    let none = PairInfo::default();
    assert_eq!((none.id, none.idx, none.pair_idx, none.removed_times, none.delivery), (
        UNSERVED,
        UNSERVED,
        UNSERVED,
        0,
        false,
    ));
}

fn zero_instance(points: usize) -> Data {
    let mut pts = [PointData { dem: 0, start: 0, due: 0, pair: 0, is_delivery: false }; PTS];
    let mut pickup = 1;
    while pickup + 1 < points {
        pts[pickup].pair = pickup + 1;
        pts[pickup + 1].pair = pickup;
        pts[pickup + 1].is_delivery = true;
        pickup += 2;
    }
    let matrix = vec![0; PTS * PTS];
    Data { dist: matrix.clone(), pts, max_cap: 0, time: matrix, points }
}

#[test]
fn catalog_is_ranked_by_ejection_count_and_pruned_by_the_target() {
    let data = zero_instance(9);
    let mut sol = Sol::new(&data);
    sol.add_route(&vec![0, 1, 3, 2, 5, 4, 6, 7, 8, 0]);
    sol.heap.removed_times[1] = 4;
    sol.heap.removed_times[3] = 1;
    sol.heap.removed_times[5] = 9;
    sol.heap.removed_times[7] = 2;

    let mut c = Combinations::new();
    c.k_combinations_of_route(&sol, 1, 2);
    assert_eq!(c.route_len, 10);
    let ids: Vec<usize> = c.pickups()[..4].iter().map(|p| p.idx()).collect();
    assert_eq!(ids, vec![3, 7, 1, 5]);
    assert_eq!(c.cur_removed_times_total, 3);
    assert_eq!(c.sum_of_next[0][1], 2);
    assert_eq!(c.sum_of_next[0][2], 6);
    assert_eq!(c.sum_of_next[1][2], 13);
    assert_eq!(c.sum_of_next[2][1], 9);
    assert_eq!(c.removed(), vec![3, 7]);
    assert!(c.is_removed(3) && c.is_removed(4) && c.is_removed(7) && c.is_removed(8));
    assert!(!c.is_removed(1) && !c.is_removed(0));
    // what stays of the route once the pairs of 3 and 7 are left out
    assert_eq!(c.r(), vec![1, 2, 5, 6, 0]);
    assert_eq!(c.into_iter().collect(), vec![1, 2, 5, 6, 0]);
    assert_eq!(&c.into_iter().removed[..4], &[2, 5, 7, 8]);
    assert_eq!(c.next_pickup_after(0), 1);
    assert_eq!(c.next_pickup_after(2), 4);
    assert_eq!(c.next_pickup_after(7), 9);

    // totals in lexicographic order: 3, 5, 10, 6, 11, 13
    assert!(c.next_combination_with_lower_score(6));
    assert_eq!(c.removed_idxs(), &[0, 2]);
    assert_eq!(c.cur_removed_times_total, 5);
    assert_eq!(c.r(), vec![5, 6, 7, 8, 0]);
    assert_eq!(c.into_iter().collect(), vec![5, 6, 7, 8, 0]);
    // the next subset has a total of 10: the generator stops for good
    assert!(!c.next_combination_with_lower_score(6));
    assert_eq!(c.removed_idxs(), &[0, 2]);
    assert_eq!(c.cur_removed_times_total, 5);
    assert!(!c.next_combination_with_lower_score(10));
    assert!(c.next_combination_with_lower_score(11));
    assert_eq!(c.removed_idxs(), &[0, 3]);
    assert_eq!(c.cur_removed_times_total, 10);
    assert!(c.next_combination_with_lower_score(u64::MAX));
    assert_eq!(c.removed_idxs(), &[1, 2]);
    assert_eq!(c.cur_removed_times_total, 6);
}

#[test]
fn all_subsets_are_visited_once() {
    let data = zero_instance(13);
    let mut sol = Sol::new(&data);
    sol.add_route(&vec![0, 1, 2, 3, 4, 5, 6, 7, 8, 9, 10, 11, 12, 0]);
    for (k, expected) in [(1usize, 6usize), (2, 15), (3, 20), (4, 15), (5, 6), (6, 1)] {
        let mut c = Combinations::new();
        c.k_combinations_of_route(&sol, 1, k);
        let mut seen: Vec<Vec<usize>> = vec![c.removed_idxs().to_vec()];
        while c.next_combination_with_lower_score(u64::MAX) {
            let now = c.removed_idxs().to_vec();
            assert!(*seen.last().unwrap() < now);
            seen.push(now);
        }
        assert_eq!(seen.len(), expected);
    }
}

#[test]
fn route_ids_come_sorted() {
    let data = zero_instance(41);
    let mut sol = Sol::new(&data);
    // twenty routes, added from the last pair down
    let mut pickup = 39;
    loop {
        sol.add_route(&vec![0, pickup, pickup + 1, 0]);
        if pickup == 1 {
            break;
        }
        pickup -= 2;
    }
    let expected: Vec<usize> = (0..20).map(|i| 2 * i + 1).collect();
    assert_eq!(sol.sorted_routes(), expected);
    assert_eq!(sol.routes_number(), 20);
    let mut firsts: Vec<usize> = sol.rs().iter().map(|r| r[0]).collect();
    firsts.sort();
    assert_eq!(firsts, expected);
}

#[test]
fn a_limit_is_used_up_once_it_is_reached() {
    assert!(Stats::overdue(0, 0));
    assert!(Stats::overdue(5, 5));
    assert!(Stats::overdue(6, 5));
    assert!(!Stats::overdue(4, 5));
    assert!(!Stats::overdue(0, 1));
    assert!(Stats::overdue(u128::MAX, u128::MAX));
    let stats = Stats::new();
    assert!(stats.out_of_time(&std::time::Duration::ZERO));
    assert!(!stats.out_of_time(&std::time::Duration::MAX));
}

#[test]
fn a_fresh_solution_holds_the_origin_everywhere() {
    let mut data = zero_instance(5);
    data.pts[0].due = 77;
    let sol = Sol::new(&data);
    assert_eq!(sol.evals.len(), PTS);
    for v in 0..PTS {
        let e = &sol.evals[v];
        assert_eq!((e.node, e.distance, e.time, e.capacity), (0, 0, 0, 0));
        assert_eq!(sol.heap.removed_times[v], 0);
        if v > 0 {
            assert_eq!(sol.next[v], UNSERVED);
            assert_eq!(sol.prev[v], UNSERVED);
            assert_eq!(sol.first[v], UNSERVED);
            assert_eq!(sol.latest_feasible_departure[v], 0);
            assert!(sol.is_removed(v));
        }
    }
    assert_eq!(sol.latest_feasible_departure[0], 77);
    assert_eq!((sol.next[0], sol.prev[0]), (0, 0));
    assert!(sol.routes.is_empty());
    assert_eq!(sol.heap.size, 0);
    // the depot is never removed
    assert!(!sol.is_removed(0));
    let mut sol = Sol::new(&data);
    sol.add_route(&vec![0, 1, 2, 0]);
    assert!(!sol.is_removed(0));
    assert!(!sol.is_removed(1) && !sol.is_removed(2));
    assert!(sol.is_removed(3) && sol.is_removed(4));
}

#[test]
fn sorting_the_pool_leaves_the_rest_of_its_array_alone() {
    let mut heap = Heap::new();
    heap.removed_times[4] = 2;
    heap.removed_times[6] = 1;
    heap.removed_times[8] = 2;
    heap.removed_times[9] = 0;
    heap.push(4);
    heap.push(6);
    heap.push(8);
    heap.push(9);
    // entries behind the pool's size
    heap.removed_idx[4] = 123;
    heap.removed_idx[5] = 7;
    heap.removed_idx[PTS - 1] = 55;
    heap.sort();
    assert_eq!(&heap.removed_idx[..4], &[9, 6, 4, 8]);
    assert_eq!(heap.size, 4);
    assert_eq!(heap.removed_idx[4], 123);
    assert_eq!(heap.removed_idx[5], 7);
    assert_eq!(heap.removed_idx[PTS - 1], 55);
    assert_eq!(heap.removed_times[4], 2);
    // a second sort changes nothing
    let once = heap.removed_idx;
    heap.sort();
    assert_eq!(heap.removed_idx, once);
}
