use category_stats::stat::{Stat, MAX_ROWS};

fn of(values: &[i16]) -> Stat {
    let mut s = Stat::default();
    for v in values {
        s.add(*v);
    }
    s
}

#[test]
fn default_is_empty_and_hides_sentinels() {
    let s = Stat::default();
    assert_eq!(s.count(), 0);
    assert_eq!(s.sum(), 0);
    assert_eq!(s.min(), None);
    assert_eq!(s.max(), None);
    assert_eq!(s.mean(), None);
}

#[test]
fn first_add_sets_both_bounds() {
    let s = of(&[-37]);
    assert_eq!(s.count(), 1);
    assert_eq!(s.min(), Some(-37));
    assert_eq!(s.max(), Some(-37));
    assert_eq!(s.sum(), -37);
    assert_eq!(s.mean(), Some(-37));
}

#[test]
fn add_tracks_count_min_max_sum() {
    let s = of(&[120, 95, -300, 999, 0]);
    assert_eq!(s.count(), 5);
    assert_eq!(s.min(), Some(-300));
    assert_eq!(s.max(), Some(999));
    assert_eq!(s.sum(), 914);
}

#[test]
fn add_takes_extreme_values() {
    let s = of(&[i16::MAX, i16::MIN]);
    assert_eq!(s.count(), 2);
    assert_eq!(s.min(), Some(i16::MIN));
    assert_eq!(s.max(), Some(i16::MAX));
    assert_eq!(s.sum(), -1);
    assert_eq!(s.mean(), Some(0));
}

#[test]
fn merge_equals_adding_every_value() {
    let mut a = of(&[120, 95]);
    let b = of(&[-5, 300, 12]);
    a.merge(&b);
    assert_eq!(a, of(&[120, 95, -5, 300, 12]));
    assert_eq!(a.count(), 5);
    assert_eq!(a.min(), Some(-5));
    assert_eq!(a.max(), Some(300));
    assert_eq!(a.sum(), 522);
}

#[test]
fn merge_with_empty_changes_nothing() {
    let mut a = of(&[7, -7]);
    a.merge(&Stat::default());
    assert_eq!(a, of(&[7, -7]));
    let mut e = Stat::default();
    e.merge(&of(&[7, -7]));
    assert_eq!(e, of(&[7, -7]));
    let mut both = Stat::default();
    both.merge(&Stat::default());
    assert_eq!(both, Stat::default());
    assert_eq!(both.min(), None);
}

#[test]
fn merge_in_any_order_gives_the_same_accumulator() {
    let a = of(&[120, 95]);
    let b = of(&[-999]);
    let c = of(&[500, 501, 502]);
    let orders: [[&Stat; 3]; 6] =
        [[&a, &b, &c], [&a, &c, &b], [&b, &a, &c], [&b, &c, &a], [&c, &a, &b], [&c, &b, &a]];
    let mut results = Vec::new();
    for order in orders.iter() {
        let mut s = *order[0];
        s.merge(order[1]);
        s.merge(order[2]);
        results.push(s);
    }
    // grouped the other way round
    let mut bc = b;
    bc.merge(&c);
    let mut grouped = a;
    grouped.merge(&bc);
    results.push(grouped);
    for r in results.iter() {
        assert_eq!(*r, results[0]);
        assert_eq!((r.count(), r.min(), r.max(), r.sum()), (6, Some(-999), Some(502), 719));
    }
}

#[test]
fn mean_rounds_to_nearest_and_a_half_up() {
    assert_eq!(of(&[120, 95]).mean(), Some(108)); // 107.5
    assert_eq!(of(&[-120, -95]).mean(), Some(-107)); // -107.5
    assert_eq!(of(&[1, 1, 2]).mean(), Some(1)); // 1.33
    assert_eq!(of(&[1, 2, 2]).mean(), Some(2)); // 1.67
    assert_eq!(of(&[-1, -1, -2]).mean(), Some(-1)); // -1.33
    assert_eq!(of(&[-1, -2, -2]).mean(), Some(-2)); // -1.67
    assert_eq!(of(&[0, 1]).mean(), Some(1)); // 0.5
    assert_eq!(of(&[0, -1]).mean(), Some(0)); // -0.5
    assert_eq!(of(&[185]).mean(), Some(185));
    assert_eq!(of(&[i16::MIN, i16::MIN]).mean(), Some(i16::MIN));
    assert_eq!(of(&[i16::MAX, i16::MAX, i16::MAX]).mean(), Some(i16::MAX));
}

#[test]
fn mean_lies_between_min_and_max() {
    let mut s = Stat::default();
    let mut v: i32 = -999;
    while v <= 999 {
        s.add(v as i16);
        let (min, mean, max) = (s.min().unwrap(), s.mean().unwrap(), s.max().unwrap());
        assert!(min <= mean && mean <= max);
        v += 37;
    }
}

#[test]
fn row_limit_leaves_room_for_the_sum() {
    assert_eq!(MAX_ROWS, (1u64 << 48) - 1);
    assert!((MAX_ROWS as i128) * 32768 <= i64::MAX as i128);
}
