use governance_votes::checkpoints::Checkpoints;

#[test]
fn push_same_timestamp_overwrites() {
    let mut c = Checkpoints::new();
    c.push(5, 10);
    c.push(5, 20);
    assert_eq!(c.len(), 1);
    assert_eq!(c.latest(), 20);
    assert_eq!(c.upper_lookup_recent(5), 20);
    assert_eq!(c.checkpoint(0).timestamp, 5);
    assert_eq!(c.checkpoint(0).value, 20);
}

#[test]
fn lookup_answers_last_push_at_or_before() {
    let mut c = Checkpoints::new();
    c.push(1, 10);
    c.push(3, 30);
    c.push(3, 35);
    c.push(7, 70);
    assert_eq!(c.len(), 3);
    assert_eq!(c.upper_lookup_recent(0), 0);
    assert_eq!(c.upper_lookup_recent(1), 10);
    assert_eq!(c.upper_lookup_recent(2), 10);
    assert_eq!(c.upper_lookup_recent(3), 35);
    assert_eq!(c.upper_lookup_recent(6), 35);
    assert_eq!(c.upper_lookup_recent(7), 70);
    assert_eq!(c.upper_lookup_recent(u64::MAX), 70);
}

#[test]
fn empty_series_is_zero_everywhere() {
    let c = Checkpoints::new();
    assert_eq!(c.len(), 0);
    assert_eq!(c.latest(), 0);
    assert_eq!(c.last_time(), 0);
    assert_eq!(c.upper_lookup_recent(0), 0);
    assert_eq!(c.upper_lookup_recent(u64::MAX), 0);
}

#[test]
fn lookup_searches_long_history() {
    let mut c = Checkpoints::new();
    for i in 1..=50u64 {
        c.push(10 * i, i as u128 * 100);
    }
    assert_eq!(c.len(), 50);
    assert_eq!(c.upper_lookup_recent(9), 0);
    for i in 1..=50u64 {
        assert_eq!(c.upper_lookup_recent(10 * i), i as u128 * 100);
        assert_eq!(c.upper_lookup_recent(10 * i + 9), i as u128 * 100);
    }
    assert_eq!(c.latest(), 5000);
    assert_eq!(c.last_time(), 500);
}

#[test]
fn pushes_at_largest_values() {
    let mut c = Checkpoints::new();
    c.push(0, u128::MAX);
    c.push(u64::MAX, 0);
    assert_eq!(c.upper_lookup_recent(0), u128::MAX);
    assert_eq!(c.upper_lookup_recent(u64::MAX - 1), u128::MAX);
    assert_eq!(c.upper_lookup_recent(u64::MAX), 0);
}
