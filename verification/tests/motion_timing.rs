use understory::motion::millis;

#[test]
fn millis_converts_to_nanoseconds() {
    assert_eq!(millis(0), 0);
    assert_eq!(millis(3), 3_000_000);
    assert_eq!(millis(250), 250_000_000);
}

#[test]
fn millis_saturates() {
    assert_eq!(millis(u64::MAX), u64::MAX);
    assert_eq!(millis(u64::MAX / 1_000_000 + 1), u64::MAX);
    assert_eq!(millis(u64::MAX / 1_000_000), (u64::MAX / 1_000_000) * 1_000_000);
}
