use libu::{bzero, pick, remove_if, to_dur, try_to_dur, void};

#[test]
fn pick_by_flag() {
    assert_eq!(pick(true, 1, 2), 1);
    assert_eq!(pick(false, 1, 2), 2);
}

#[test]
fn bzero_resets() {
    let mut v = vec![1, 2, 3];
    bzero(&mut v);
    assert!(v.is_empty());
    let mut n = 42u32;
    bzero(&mut n);
    assert_eq!(n, 0);
    void(n);
}

#[test]
fn durations_in_each_unit() {
    assert_eq!(to_dur("5ns"), 5);
    assert_eq!(to_dur("7us"), 7_000);
    assert_eq!(to_dur("250ms"), 250_000_000);
    assert_eq!(to_dur("3s"), 3_000_000_000);
    assert_eq!(to_dur("2m"), 120_000_000_000);
    assert_eq!(to_dur("0s"), 0);
    assert_eq!(try_to_dur("250ms"), Some(250_000_000));
}

#[test]
fn malformed_durations() {
    assert_eq!(try_to_dur("ms"), None);
    assert_eq!(try_to_dur("100"), None);
    assert_eq!(try_to_dur(""), None);
    assert_eq!(try_to_dur("10h"), None);
    assert_eq!(try_to_dur("10 ms"), None);
    assert_eq!(try_to_dur("10mss"), None);
    assert_eq!(try_to_dur("18446744073709551616ns"), None);
}

#[test]
fn largest_duration() {
    assert_eq!(to_dur("18446744073709551615ns"), 18446744073709551615);
    assert_eq!(to_dur("18446744073709551615m"), 18446744073709551615u128 * 60_000_000_000);
}

#[test]
fn remove_if_splits_in_order() {
    let mut v = vec![1, 2, 3, 4, 5, 6];
    let r = remove_if(&mut v, |x: &i32| *x % 2 == 0);
    assert_eq!(r, vec![2, 4, 6]);
    assert_eq!(v, vec![1, 3, 5]);
}

#[test]
fn remove_if_edge_cases() {
    let mut v: Vec<i32> = Vec::new();
    assert!(remove_if(&mut v, |_: &i32| true).is_empty());
    let mut w = vec![1, 1, 1];
    assert_eq!(remove_if(&mut w, |_: &i32| true), vec![1, 1, 1]);
    assert!(w.is_empty());
    let mut u = vec![3, 4];
    assert!(remove_if(&mut u, |_: &i32| false).is_empty());
    assert_eq!(u, vec![3, 4]);
}
