use rowstats::stat::Stat;

fn of(values: &[i32]) -> Stat {
    let mut s = Stat::default();
    for v in values {
        s.add(*v);
    }
    s
}

fn merged(a: Stat, b: Stat) -> Stat {
    let mut m = a;
    m.merge_with(&b);
    m
}

#[test]
fn the_default_is_the_statistic_of_no_value() {
    assert_eq!(Stat::default(), Stat { min: i32::MAX, sum: 0, count: 0, max: i32::MIN });
}

#[test]
fn add_takes_in_a_value() {
    let mut s = Stat::default();
    s.add(10);
    assert_eq!(s, Stat { min: 10, sum: 10, count: 1, max: 10 });
    s.add(-25);
    assert_eq!(s, Stat { min: -25, sum: -15, count: 2, max: 10 });
    s.add(30);
    assert_eq!(s, Stat { min: -25, sum: 15, count: 3, max: 30 });
}

#[test]
fn merge_with_combines_field_by_field() {
    let mut a = Stat { min: -3, sum: 20, count: 4, max: 12 };
    a.merge_with(&Stat { min: 1, sum: -50, count: 2, max: 40 });
    assert_eq!(a, Stat { min: -3, sum: -30, count: 6, max: 40 });
}

#[test]
fn merging_does_not_depend_on_order_or_grouping() {
    let a = of(&[10, 30]);
    let b = of(&[-25]);
    let c = of(&[999, -999, 0]);
    assert_eq!(merged(a, b), merged(b, a));
    assert_eq!(merged(merged(a, b), c), merged(a, merged(b, c)));
    assert_eq!(merged(merged(a, b), c), of(&[10, 30, -25, 999, -999, 0]));
}

#[test]
fn merging_with_the_default_changes_nothing() {
    let a = of(&[10, 30]);
    assert_eq!(merged(a, Stat::default()), a);
    assert_eq!(merged(Stat::default(), a), a);
}

#[test]
fn try_add_stops_at_the_limits() {
    let mut full = Stat { min: 0, sum: 0, count: u32::MAX, max: 0 };
    assert!(!full.try_add(1));
    assert_eq!(full, Stat { min: 0, sum: 0, count: u32::MAX, max: 0 });
    let mut high = Stat { min: 0, sum: i64::MAX, count: 1, max: 0 };
    assert!(!high.try_add(1));
    assert!(high.try_add(0));
    assert!(high.try_add(-1));
    assert_eq!(high, Stat { min: -1, sum: i64::MAX - 1, count: 3, max: 0 });
    let mut low = Stat { min: 0, sum: i64::MIN, count: 1, max: 0 };
    assert!(!low.try_add(-1));
    assert!(low.try_add(1));
    assert_eq!(low, Stat { min: 0, sum: i64::MIN + 1, count: 2, max: 1 });
}

#[test]
fn try_merge_with_stops_at_the_limits() {
    let mut a = Stat { min: 0, sum: 5, count: u32::MAX - 1, max: 0 };
    assert!(!a.try_merge_with(&Stat { min: 0, sum: 0, count: 2, max: 0 }));
    assert_eq!(a, Stat { min: 0, sum: 5, count: u32::MAX - 1, max: 0 });
    assert!(a.try_merge_with(&Stat { min: -1, sum: 1, count: 1, max: 7 }));
    assert_eq!(a, Stat { min: -1, sum: 6, count: u32::MAX, max: 7 });
    let mut high = Stat { min: 0, sum: i64::MAX, count: 1, max: 0 };
    assert!(!high.try_merge_with(&Stat { min: 0, sum: 1, count: 1, max: 0 }));
    let mut low = Stat { min: 0, sum: i64::MIN, count: 1, max: 0 };
    assert!(!low.try_merge_with(&Stat { min: 0, sum: -1, count: 1, max: 0 }));
    assert!(low.try_merge_with(&Stat { min: 0, sum: 1, count: 1, max: 0 }));
}

#[test]
fn merging_in_either_grouping_fits_alike() {
    let a = Stat { min: -5, sum: i64::MAX - 10, count: u32::MAX - 3, max: 9 };
    let b = Stat { min: -7, sum: 4, count: 1, max: 2 };
    let c = Stat { min: 0, sum: 6, count: 2, max: 11 };
    assert_eq!(merged(merged(a, b), c), merged(a, merged(b, c)));
    assert_eq!(merged(a, b), merged(b, a));
    assert_eq!(merged(merged(a, b), c), Stat { min: -7, sum: i64::MAX, count: u32::MAX, max: 11 });
}
