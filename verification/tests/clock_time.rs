use kvlog::clock::{current_timestamp, timestamp_of, timestamp_of_millis};

#[test]
fn a_timestamp_is_the_low_64_bits_of_the_milliseconds() {
    assert_eq!(timestamp_of_millis(0), 0);
    assert_eq!(timestamp_of_millis(1999), 1999);
    assert_eq!(timestamp_of_millis(1_700_000_000_000), 1_700_000_000_000);
    assert_eq!(timestamp_of_millis(u64::MAX as u128), u64::MAX);
    assert_eq!(timestamp_of_millis(u64::MAX as u128 + 1), 0);
    assert_eq!(timestamp_of_millis(u64::MAX as u128 + 43), 42);
    assert_eq!(timestamp_of_millis(u128::MAX), u64::MAX);
}

#[test]
fn a_clock_before_the_epoch_gives_no_timestamp() {
    assert_eq!(timestamp_of(None), None);
    assert_eq!(timestamp_of(Some(0)), Some(0));
    assert_eq!(timestamp_of(Some(1999)), Some(1999));
    assert_eq!(timestamp_of(Some(u64::MAX as u128 + 43)), Some(42));
}

#[test]
fn the_clock_counts_milliseconds_since_the_epoch() {
    let before = std::time::SystemTime::now()
        .duration_since(std::time::UNIX_EPOCH)
        .unwrap()
        .as_millis() as u64;
    let stamp = current_timestamp().expect("the clock stands behind the epoch");
    let after = std::time::SystemTime::now()
        .duration_since(std::time::UNIX_EPOCH)
        .unwrap()
        .as_millis() as u64;
    assert!(before <= stamp && stamp <= after);
}
