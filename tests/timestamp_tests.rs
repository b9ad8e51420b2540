use crdt_editor_backend::crdt::Timestamp;

#[test]
fn test_timestamp_creation() {
    let ts = Timestamp::new("client1".to_string());
    assert_eq!(ts.logical_clock(), 0);
    assert_eq!(ts.client_id(), "client1");
}

#[test]
fn test_timestamp_increment() {
    let mut ts = Timestamp::new("client1".to_string());
    ts.increment();
    assert_eq!(ts.logical_clock(), 1);
    ts.increment();
    assert_eq!(ts.logical_clock(), 2);
}

#[test]
fn test_timestamp_ordering() {
    let mut ts1 = Timestamp::new("client1".to_string());
    let mut ts2 = Timestamp::new("client2".to_string());

    assert!(ts1 != ts2);

    ts1.increment();
    assert!(ts1 > ts2);

    ts2.increment();
    ts2.increment();
    assert!(ts2 > ts1);
}

#[test]
fn test_timestamp_update() {
    let mut ts1 = Timestamp::new("client1".to_string());
    let mut ts2 = Timestamp::new("client2".to_string());

    ts1.increment();
    ts2.increment();
    ts2.increment();

    ts1.update(&ts2);

    assert_eq!(ts1.logical_clock(), 2);
}

#[test]
fn test_timestamp_clone() {
    let mut ts1 = Timestamp::new("client1".to_string());
    ts1.increment();

    let ts2 = ts1.clone();
    assert_eq!(ts1.logical_clock(), ts2.logical_clock());
    assert_eq!(ts1.client_id(), ts2.client_id());
}

#[test]
fn equal_counters_compare_by_owner() {
    let a = Timestamp::new("alice".to_string());
    let b = Timestamp::new("bob".to_string());
    assert!(a < b);
    assert!(b > a);
    let ab = Timestamp::new("ab".to_string());
    let abc = Timestamp::new("abc".to_string());
    assert!(ab < abc);
    assert_eq!(a.clone(), a);
    assert_eq!(a.partial_cmp(&a), Some(std::cmp::Ordering::Equal));
}

#[test]
fn update_keeps_larger_counter_and_owner() {
    let mut a = Timestamp::new("a".to_string());
    a.increment();
    a.increment();
    a.increment();
    let b = Timestamp::new("b".to_string());
    a.update(&b);
    assert_eq!(a.logical_clock(), 3);
    assert_eq!(a.client_id(), "a");
}
