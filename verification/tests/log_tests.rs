use transaction_log::BestTransactionLog;

#[test]
fn empty_find_is_absent() {
    let log = BestTransactionLog::new_empty();
    assert_eq!(log.find(0), None);
    assert_eq!(log.find(1), None);
    assert_eq!(log.find(u64::MAX), None);
    assert_eq!(log.length, 0);
}

#[test]
fn three_appends_then_lookup() {
    let mut log = BestTransactionLog::new_empty();
    log.append(0, String::from("First"));
    log.append(1, String::from("Second"));
    log.append(2, String::from("Third"));
    assert_eq!(log.length, 3);
    assert_eq!(log.find(1), Some(String::from("Second")));
    assert_eq!(log.find(3), None);
}

#[test]
fn round_trip_hundred_entries() {
    let mut log = BestTransactionLog::new_empty();
    let mut i: u64 = 0;
    while i < 100 {
        log.append(i, format!("value-{}", i));
        i += 1;
    }
    assert_eq!(log.length, 100);
    let mut i: u64 = 0;
    while i < 100 {
        assert_eq!(log.find(i), Some(format!("value-{}", i)));
        i += 1;
    }
    assert_eq!(log.find(100), None);
}

#[test]
fn single_append() {
    let mut log = BestTransactionLog::new_empty();
    log.append(42, String::from("only"));
    assert_eq!(log.find(42), Some(String::from("only")));
    assert_eq!(log.find(0), None);
    assert_eq!(log.length, 1);
}

#[test]
fn miss_between_and_beyond() {
    let mut log = BestTransactionLog::new_empty();
    log.append(10, String::from("a"));
    log.append(20, String::from("b"));
    log.append(30, String::from("c"));
    assert_eq!(log.find(5), None);
    assert_eq!(log.find(15), None);
    assert_eq!(log.find(25), None);
    assert_eq!(log.find(35), None);
    assert_eq!(log.find(10), Some(String::from("a")));
    assert_eq!(log.find(30), Some(String::from("c")));
}

#[test]
fn length_counts_appends_and_ignores_finds() {
    let mut log = BestTransactionLog::new_empty();
    let mut k: u64 = 0;
    while k < 10 {
        log.append(k * 3, format!("{}", k));
        k += 1;
        assert_eq!(log.length, k);
    }
    let before: u64 = log.length;
    let _ = log.find(0);
    let _ = log.find(9);
    let _ = log.find(27);
    assert_eq!(log.length, before);
}

#[test]
fn repeated_find_is_stable() {
    let mut log = BestTransactionLog::new_empty();
    log.append(7, String::from("seven"));
    log.append(9, String::from("nine"));
    let first = log.find(9);
    let second = log.find(9);
    let third = log.find(9);
    assert_eq!(first, Some(String::from("nine")));
    assert_eq!(first, second);
    assert_eq!(second, third);
    let miss_a = log.find(8);
    let miss_b = log.find(8);
    assert_eq!(miss_a, None);
    assert_eq!(miss_a, miss_b);
}

#[test]
fn sparse_offsets_round_trip() {
    let mut log = BestTransactionLog::new_empty();
    let offsets: Vec<u64> = vec![1, 5, 6, 100, 1000, u64::MAX - 1, u64::MAX];
    for (i, o) in offsets.iter().enumerate() {
        log.append(*o, format!("entry-{}", i));
    }
    for (i, o) in offsets.iter().enumerate() {
        assert_eq!(log.find(*o), Some(format!("entry-{}", i)));
    }
    assert_eq!(log.find(2), None);
    assert_eq!(log.find(999), None);
    assert_eq!(log.length, offsets.len() as u64);
}
