use ges::data::{Data, PointData, PTS};
use ges::evaluator::comb::Combinations;
use ges::sol::Sol;

struct LeftRemoved(Vec<usize>, Vec<usize>);

fn six_pairs() -> Data {
    let points = 13;

    let mut pts = [PointData { dem: 0, start: 0, due: 0, pair: 0, is_delivery: false }; PTS];
    let mut pickup = 1;
    while pickup + 1 < points {
        let delivery = pickup + 1;
        pts[pickup].pair = delivery;
        pts[pickup].is_delivery = false;
        pts[delivery].pair = pickup;
        pts[delivery].is_delivery = true;
        pickup += 2;
    }

    let matrix = vec![0; PTS * PTS];
    Data { dist: matrix.clone(), pts, max_cap: 0, time: matrix.clone(), points }
}

fn check2(c: &mut Combinations, nexts: Vec<LeftRemoved>) {
    for (i, LeftRemoved(next, removed)) in nexts.iter().enumerate() {
        assert_eq!(c.r(), *next);
        assert_eq!(c.into_iter().collect(), *next);
        let removed2: Vec<usize> = c.removed_idxs().iter().copied().collect();
        assert_eq!(removed2, *removed);
        assert_eq!(c.next_combination_with_lower_score(u64::MAX), i != nexts.len() - 1);
    }
}

#[test]
fn second() {
    let data = six_pairs();

    let mut sol = Sol::new(&data);

    sol.add_route(&vec![0, 1, 2, 3, 4, 5, 6, 7, 8, 9, 10, 11, 12, 0]);

    let mut c = Combinations::new();
    c.k_combinations_of_route(&sol, 1, 1);

    assert_eq!(c.k, 1);
    assert_eq!(c.route_len, 14);
    assert_eq!(c.combination_indices2[0], 0);
    assert_eq!(c.combination_indices2[1], 6);
    assert_eq!(c.sum_of_next[0][0], 0);
    assert_eq!(c.sum_of_next[0][1], 0);

    let nexts = vec![
        LeftRemoved(vec![3, 4, 5, 6, 7, 8, 9, 10, 11, 12, 0], vec![0]),
        LeftRemoved(vec![1, 2, 5, 6, 7, 8, 9, 10, 11, 12, 0], vec![1]),
        LeftRemoved(vec![1, 2, 3, 4, 7, 8, 9, 10, 11, 12, 0], vec![2]),
        LeftRemoved(vec![1, 2, 3, 4, 5, 6, 9, 10, 11, 12, 0], vec![3]),
        LeftRemoved(vec![1, 2, 3, 4, 5, 6, 7, 8, 11, 12, 0], vec![4]),
        LeftRemoved(vec![1, 2, 3, 4, 5, 6, 7, 8, 9, 10, 0], vec![5]),
    ];

    check2(&mut c, nexts);

    let mut c = Combinations::new();
    c.k_combinations_of_route(&sol, 1, 2);

    assert_eq!(c.k, 2);
    assert_eq!(c.route_len, 14);
    assert_eq!(c.combination_indices2[0], 0);
    assert_eq!(c.combination_indices2[1], 1);
    assert_eq!(c.combination_indices2[2], 6);

    let nexts = vec![
        LeftRemoved(vec![5, 6, 7, 8, 9, 10, 11, 12, 0], vec![0, 1]),
        LeftRemoved(vec![3, 4, 7, 8, 9, 10, 11, 12, 0], vec![0, 2]),
        LeftRemoved(vec![3, 4, 5, 6, 9, 10, 11, 12, 0], vec![0, 3]),
        LeftRemoved(vec![3, 4, 5, 6, 7, 8, 11, 12, 0], vec![0, 4]),
        LeftRemoved(vec![3, 4, 5, 6, 7, 8, 9, 10, 0], vec![0, 5]),
        LeftRemoved(vec![1, 2, 7, 8, 9, 10, 11, 12, 0], vec![1, 2]),
        LeftRemoved(vec![1, 2, 5, 6, 9, 10, 11, 12, 0], vec![1, 3]),
        LeftRemoved(vec![1, 2, 5, 6, 7, 8, 11, 12, 0], vec![1, 4]),
        LeftRemoved(vec![1, 2, 5, 6, 7, 8, 9, 10, 0], vec![1, 5]),
        LeftRemoved(vec![1, 2, 3, 4, 9, 10, 11, 12, 0], vec![2, 3]),
        LeftRemoved(vec![1, 2, 3, 4, 7, 8, 11, 12, 0], vec![2, 4]),
        LeftRemoved(vec![1, 2, 3, 4, 7, 8, 9, 10, 0], vec![2, 5]),
        LeftRemoved(vec![1, 2, 3, 4, 5, 6, 11, 12, 0], vec![3, 4]),
        LeftRemoved(vec![1, 2, 3, 4, 5, 6, 9, 10, 0], vec![3, 5]),
        LeftRemoved(vec![1, 2, 3, 4, 5, 6, 7, 8, 0], vec![4, 5]),
    ];

    check2(&mut c, nexts);

    let mut sol = Sol::new(&data);
    sol.add_route(&vec![0, 1, 3, 5, 4, 2, 6, 7, 8, 9, 10, 11, 12, 0]);
    c.k_combinations_of_route(&sol, 1, 1);
    assert_eq!(c.k, 1);
    assert_eq!(c.route_len, 14);
    assert_eq!(c.combination_indices2[0], 0);
    assert_eq!(c.combination_indices2[1], 6);

    let nexts = vec![
        LeftRemoved(vec![3, 5, 4, 6, 7, 8, 9, 10, 11, 12, 0], vec![0]),
        LeftRemoved(vec![1, 5, 2, 6, 7, 8, 9, 10, 11, 12, 0], vec![1]),
        LeftRemoved(vec![1, 3, 4, 2, 7, 8, 9, 10, 11, 12, 0], vec![2]),
        LeftRemoved(vec![1, 3, 5, 4, 2, 6, 9, 10, 11, 12, 0], vec![3]),
        LeftRemoved(vec![1, 3, 5, 4, 2, 6, 7, 8, 11, 12, 0], vec![4]),
        LeftRemoved(vec![1, 3, 5, 4, 2, 6, 7, 8, 9, 10, 0], vec![5]),
    ];

    check2(&mut c, nexts);
}
