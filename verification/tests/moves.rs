use ges::mov::{Between, Move, Swap};
use ges::{K_MAX, UNSERVED};

#[test]
fn empty() {
    let m = Move::new(1);

    assert!(!m.is_not_empty());

    let ne = Move {
        pickup: 1,
        times: 1,
        put_pickup_between: Between(1, 2),
        put_delivery_between: Between(1, 2),
        removed: [0; K_MAX],
    };

    assert!(ne.is_not_empty());
}

#[test]
fn empty_switching() {
    let other = Move {
        pickup: 1,
        times: 1,
        put_pickup_between: Between(3, 4),
        put_delivery_between: Between(5, 6),
        removed: [0; K_MAX],
    };

    let mut m = Move::new(1);
    m.maybe_switch(&other.put_pickup_between, &other.put_delivery_between);
    assert_eq!(m, other);

    let mut m = Move::new(1);
    m.pick(&other);
    assert_eq!(m, other);

    let m = Move::new(1).pick2(other);
    assert_eq!(m, other);
}

#[test]
fn non_empty_switching() {
    let mut a = Move {
        pickup: 1,
        times: 5,
        put_pickup_between: Between(3, 4),
        put_delivery_between: Between(5, 6),
        removed: [1; K_MAX],
    };

    let b = Move {
        pickup: 1,
        times: 10,
        put_pickup_between: Between(5, 6),
        put_delivery_between: Between(7, 8),
        removed: [2; K_MAX],
    };

    let mut a_res = a.clone();
    a_res.times = 15;

    let mut b_res = b.clone();
    b_res.times = 15;

    let m = a.clone().pick2(b);
    assert!(m == a_res || m == b_res);

    a.pick(&b);
    assert!(a == a_res || a == b_res);
}

#[test]
fn new_move_has_no_placement() {
    let m = Move::new(7);
    assert_eq!(m.pickup, 7);
    assert_eq!(m.times, 0);
    assert_eq!(m.put_pickup_between, Between(UNSERVED, UNSERVED));
    assert_eq!(m.put_delivery_between, Between(UNSERVED, UNSERVED));
    assert_eq!(m.removed, [0; K_MAX]);
}

#[test]
fn switch_on_draw_of_one_adopts_the_placement() {
    let mut m = Move::new(3);
    m.times = 4;
    m.put_pickup_between = Between(1, 2);
    m.put_delivery_between = Between(2, 0);
    m.switch_on(1, &Between(5, 6), &Between(6, 7));
    assert_eq!(m.times, 5);
    assert_eq!(m.put_pickup_between, Between(5, 6));
    assert_eq!(m.put_delivery_between, Between(6, 7));
}

#[test]
fn switch_on_other_draw_keeps_the_placement() {
    let mut m = Move::new(3);
    m.times = 4;
    m.put_pickup_between = Between(1, 2);
    m.put_delivery_between = Between(2, 0);
    m.switch_on(3, &Between(5, 6), &Between(6, 7));
    assert_eq!(m.times, 5);
    assert_eq!(m.put_pickup_between, Between(1, 2));
    assert_eq!(m.put_delivery_between, Between(2, 0));
}

#[test]
fn pick_on_takes_other_up_to_its_count() {
    let other = Move {
        pickup: 9,
        times: 10,
        put_pickup_between: Between(5, 6),
        put_delivery_between: Between(7, 8),
        removed: [2; K_MAX],
    };
    let base = Move {
        pickup: 1,
        times: 5,
        put_pickup_between: Between(3, 4),
        put_delivery_between: Between(5, 6),
        removed: [1; K_MAX],
    };
    let mut a = base;
    a.pick_on(10, &other);
    assert_eq!(a.times, 15);
    assert_eq!(a.pickup, 1);
    assert_eq!(a.put_pickup_between, Between(5, 6));
    assert_eq!(a.put_delivery_between, Between(7, 8));
    assert_eq!(a.removed, [2; K_MAX]);

    let mut b = base;
    b.pick_on(11, &other);
    assert_eq!(b.times, 15);
    assert_eq!(b.put_pickup_between, Between(3, 4));
    assert_eq!(b.put_delivery_between, Between(5, 6));
    assert_eq!(b.removed, [1; K_MAX]);
}

#[test]
fn pick2_on_returns_the_winner_whole() {
    let other = Move {
        pickup: 9,
        times: 10,
        put_pickup_between: Between(5, 6),
        put_delivery_between: Between(7, 8),
        removed: [2; K_MAX],
    };
    let base = Move {
        pickup: 1,
        times: 5,
        put_pickup_between: Between(3, 4),
        put_delivery_between: Between(5, 6),
        removed: [1; K_MAX],
    };
    let won = base.pick2_on(1, other);
    assert_eq!(won, Move { times: 15, ..other });
    let kept = base.pick2_on(15, other);
    assert_eq!(kept, Move { times: 15, ..base });
}

#[test]
fn many_picks_choose_both_sides() {
    let a = Move {
        pickup: 1,
        times: 1,
        put_pickup_between: Between(3, 4),
        put_delivery_between: Between(5, 6),
        removed: [0; K_MAX],
    };
    let b = Move {
        pickup: 1,
        times: 1,
        put_pickup_between: Between(5, 6),
        put_delivery_between: Between(7, 8),
        removed: [0; K_MAX],
    };
    let mut first = 0;
    let mut second = 0;
    for _ in 0..2000 {
        let m = a.pick2(b);
        assert_eq!(m.times, 2);
        if m.put_pickup_between == Between(3, 4) {
            first += 1;
        } else {
            assert_eq!(m.put_pickup_between, Between(5, 6));
            second += 1;
        }
    }
    assert!(first > 700 && second > 700);
}

#[test]
fn swap_starts_empty() {
    let s = Swap::new(1, 3);
    assert_eq!(s.a.pickup, 1);
    assert_eq!(s.b.pickup, 3);
    assert!(!s.is_not_empty());
}
