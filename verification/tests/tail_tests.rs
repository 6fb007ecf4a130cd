use atomics_store::tail::{tail_bytes, tail_start, AtomicFd};

#[test]
fn test_tail_empty_log() {
    // Tail read of an empty log returns an empty buffer.
    let out = tail_bytes(&[], 72, 10);
    assert!(out.is_empty());
}

#[test]
fn test_tail_more_than_present() {
    // max beyond what exists returns exactly what exists, no padding.
    let log = b"aaaabbbb".to_vec(); // two records of width 4
    let out = tail_bytes(&log, 4, 10);
    assert_eq!(out, log);
}

#[test]
fn test_tail_last_records() {
    let log = b"aaaabbbbcccc".to_vec(); // three records of width 4
    let out = tail_bytes(&log, 4, 2);
    assert_eq!(out, b"bbbbcccc".to_vec());
    let one = tail_bytes(&log, 4, 1);
    assert_eq!(one, b"cccc".to_vec());
    let zero = tail_bytes(&log, 4, 0);
    assert!(zero.is_empty());
}

#[test]
fn test_tail_start_arithmetic() {
    assert_eq!(tail_start(1000, 72, 10), 280);
    assert_eq!(tail_start(100, 72, 10), 0);
    assert_eq!(tail_start(0, 72, 10), 0);
    // An overflowing width * max clamps to the start of the file.
    assert_eq!(tail_start(1000, u64::MAX, 2), 0);
}

#[test]
fn test_atomic_fd_get_logs() {
    let fd = AtomicFd::new(1, 4);
    assert_eq!(fd.id, 1);
    assert_eq!(fd.log_size, 4);
    let log = b"aaaabbbbcccc".to_vec();
    assert_eq!(fd.get_logs(&log, 2), b"bbbbcccc".to_vec());
    assert!(fd.get_logs(&[], 10).is_empty());
}
