use shadowcast3d::interval::{subtract_intervals, Interval};

fn iv(s: i64, e: i64) -> Interval {
    Interval { s, e }
}

#[test]
fn interval_without_cuts_is_kept() {
    assert_eq!(subtract_intervals(iv(0, 10), vec![]), vec![iv(0, 10)]);
}

#[test]
fn interval_split_by_two_cuts() {
    let mut got = subtract_intervals(iv(0, 10), vec![iv(2, 4), iv(6, 8)]);
    got.sort_by_key(|i| i.s);
    assert_eq!(got, vec![iv(0, 2), iv(4, 6), iv(8, 10)]);
}

#[test]
fn interval_cut_past_the_end() {
    assert_eq!(subtract_intervals(iv(0, 10), vec![iv(5, 20)]), vec![iv(0, 5)]);
    assert_eq!(subtract_intervals(iv(0, 10), vec![iv(12, 20)]), vec![iv(0, 10)]);
}

#[test]
fn interval_fully_cut() {
    assert!(subtract_intervals(iv(0, 10), vec![iv(-1, 3), iv(2, 11)]).is_empty());
}

#[test]
fn empty_interval_and_empty_cut() {
    assert!(subtract_intervals(iv(4, 4), vec![]).is_empty());
    assert_eq!(subtract_intervals(iv(0, 10), vec![iv(5, 5)]), vec![iv(0, 10)]);
}
