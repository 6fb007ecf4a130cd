use std::str::FromStr;

use atomics_store::codec::{decode_record, AtomicLog};
use atomics_store::errors::StoreError;
use atomics_store::store::{CounterStore, CreateAtomicPayload, DbAtomic};
use atomics_store::tail::tail_bytes;

/// Splits a tail buffer into fixed-width lines and decodes each, skipping
/// blanks, as a log reader does.
fn parse_logs(buf: &[u8], log_size: usize) -> Vec<AtomicLog> {
    assert_eq!(buf.len() % log_size, 0);
    let mut out = Vec::new();
    for chunk in buf.chunks(log_size) {
        if let Some(rec) = decode_record(chunk) {
            out.push(rec);
        }
    }
    out
}

fn datetime_parses(rec: &AtomicLog) -> bool {
    let text = String::from_utf8(rec.datetime.clone()).unwrap();
    chrono::DateTime::<chrono::Utc>::from_str(&text).is_ok()
}

#[test]
fn test_create_atomic() {
    let mut store = CounterStore::new();
    let payload = CreateAtomicPayload { id: 1, min_value: 0, log_size: 100 };
    assert!(store.create_atomic(payload).is_ok());
    // A duplicate id is refused and changes nothing.
    let dup = CreateAtomicPayload { id: 1, min_value: 5, log_size: 32 };
    assert_eq!(store.create_atomic(dup).unwrap_err(), StoreError::AlreadyExists);
    assert_eq!(store.get(1).unwrap(), (0, 0));
    assert_eq!(store.get(2).unwrap_err(), StoreError::NotFound);
}

#[test]
fn test_mutate_atomic() {
    let mut store = CounterStore::new();
    store.create(1, 0, 72).unwrap();
    let value = store.mutate(1, 1, b"test".to_vec()).unwrap();
    assert_eq!(value, 1);
    assert_eq!(store.get(1).unwrap().0, 1);

    // Drain the writer once, then read the tail back.
    let writes = store.drain_all();
    assert_eq!(writes.len(), 1);
    assert_eq!(writes[0].1, 1);
    let lines = store.get_logs(1, 10).unwrap();
    let r = parse_logs(&lines, 72);

    assert_eq!(r.len(), 1);
    assert_eq!(r[0].tx_id, 0);
    assert_eq!(r[0].value, 1);
    assert_eq!(r[0].updated_value, 1);
    assert!(datetime_parses(&r[0]));
    assert_eq!(r[0].payload, b"test".to_vec());
}

#[test]
fn test_mutate_atomic_concurrent() {
    let mut store = CounterStore::new();
    store.create(1, 0, 72).unwrap();

    // Two in-flight mutations commit in this order.
    let first = store.mutate(1, 1, b"test".to_vec()).unwrap();
    let second = store.mutate(1, 2, b"test2".to_vec()).unwrap();
    assert_eq!(first, 1);
    assert_eq!(second, 3);

    store.drain_all();
    let lines = store.get_logs(1, 10).unwrap();
    let r = parse_logs(&lines, 72);

    assert_eq!(r.len(), 2);

    assert_eq!(r[0].tx_id, 0);
    assert_eq!(r[0].value, 1);
    assert_eq!(r[0].updated_value, 1);
    assert!(datetime_parses(&r[0]));
    assert_eq!(r[0].payload, b"test".to_vec());

    assert_eq!(r[1].tx_id, 1);
    assert_eq!(r[1].value, 2);
    assert_eq!(r[1].updated_value, 3);
    assert!(datetime_parses(&r[1]));
    assert_eq!(r[1].payload, b"test2".to_vec());
}

#[test]
fn test_below_floor_rejected() {
    let mut store = CounterStore::new();
    store.create(1, 0, 72).unwrap();
    // A mutation that would sink below the floor is rejected and is a
    // complete no-op: value, queue and log all unchanged.
    assert_eq!(store.mutate(1, -5, b"x".to_vec()).unwrap_err(), StoreError::BelowFloor);
    assert_eq!(store.get(1).unwrap(), (0, 0));
    assert!(store.drain_all().is_empty());
    assert!(store.get_logs(1, 10).unwrap().is_empty());
}

#[test]
fn test_record_too_large_rejected() {
    let mut store = CounterStore::new();
    store.create(1, 0, 8).unwrap();
    let err = store.mutate(1, 1, b"a-payload-well-beyond-eight-bytes".to_vec()).unwrap_err();
    assert_eq!(err, StoreError::RecordTooLarge);
    // Rejected before the commit: no value change, nothing queued.
    assert_eq!(store.get(1).unwrap().0, 0);
    assert!(store.drain_all().is_empty());
    assert!(store.get_logs(1, 10).unwrap().is_empty());
}

#[test]
fn test_tx_ids_unique_across_counters() {
    let mut store = CounterStore::new();
    store.create(1, 0, 72).unwrap();
    store.create(2, 0, 72).unwrap();
    store.mutate(1, 1, b"a".to_vec()).unwrap();
    store.mutate(2, 5, b"b".to_vec()).unwrap();
    store.mutate(1, 2, b"c".to_vec()).unwrap();
    store.mutate(2, 7, b"d".to_vec()).unwrap();
    store.drain_all();

    let r1 = parse_logs(&store.get_logs(1, 10).unwrap(), 72);
    let r2 = parse_logs(&store.get_logs(2, 10).unwrap(), 72);
    let mut all: Vec<u64> = r1.iter().chain(r2.iter()).map(|r| r.tx_id).collect();
    all.sort();
    assert_eq!(all, vec![0, 1, 2, 3]);
    // Per counter, ids are strictly increasing in commit order.
    assert!(r1[0].tx_id < r1[1].tx_id);
    assert!(r2[0].tx_id < r2[1].tx_id);
}

#[test]
fn test_no_lost_updates_against_oracle() {
    let mut store = CounterStore::new();
    store.create(1, 0, 72).unwrap();
    let deltas: [i32; 4] = [5, -3, -10, 2];
    let mut oracle: i64 = 0;
    for d in deltas {
        let r = store.mutate(1, d, b"p".to_vec());
        if oracle + d as i64 >= 0 {
            oracle += d as i64;
            assert_eq!(r.unwrap() as i64, oracle);
        } else {
            assert_eq!(r.unwrap_err(), StoreError::BelowFloor);
        }
    }
    assert_eq!(store.get(1).unwrap().0 as i64, oracle);
    assert_eq!(oracle, 4);
}

#[test]
fn test_snapshot_tracks_last_drained_value() {
    let mut store = CounterStore::new();
    store.create(1, 0, 72).unwrap();
    assert!(store.get_snapshot(1).unwrap().is_empty());
    store.mutate(1, 3, b"x".to_vec()).unwrap();
    // Not yet durable: the snapshot only moves when the writer drains.
    assert!(store.get_snapshot(1).unwrap().is_empty());
    store.drain_all();
    assert_eq!(store.get_snapshot(1).unwrap(), b"3".to_vec());
    store.mutate(1, -1, b"y".to_vec()).unwrap();
    store.drain_all();
    assert_eq!(store.get_snapshot(1).unwrap(), b"2".to_vec());
}

#[test]
fn test_mutate_with_floor() {
    let mut store = CounterStore::new();
    store.create(9, 10, 72).unwrap();
    // The counter starts at zero even above a positive floor; a mutation
    // must land at or above the floor.
    assert_eq!(store.mutate(9, 3, b"".to_vec()).unwrap_err(), StoreError::BelowFloor);
    assert_eq!(store.mutate(9, 12, b"".to_vec()).unwrap(), 12);
    assert_eq!(store.get(9).unwrap(), (12, 10));
}

#[test]
fn test_mutate_not_found() {
    let mut store = CounterStore::new();
    assert_eq!(store.mutate(1, 1, b"".to_vec()).unwrap_err(), StoreError::NotFound);
    assert_eq!(store.get_logs(1, 10).unwrap_err(), StoreError::NotFound);
    assert_eq!(store.get_snapshot(1).unwrap_err(), StoreError::NotFound);
}

#[test]
fn test_mutate_at_fixed_timestamp_round_trip() {
    let mut store = CounterStore::new();
    store.create(1, 0, 72).unwrap();
    let ts = b"2024-01-02T03:04:05.123456Z".to_vec();
    let value = store.mutate_at(1, 4, ts.clone(), b"fixed".to_vec()).unwrap();
    assert_eq!(value, 4);
    let writes = store.drain_all();
    assert_eq!(writes.len(), 1);
    assert_eq!(writes[0].0.len(), 72);
    let lines = store.get_logs(1, 1).unwrap();
    assert_eq!(lines, writes[0].0);
    let r = parse_logs(&lines, 72);
    assert_eq!(r.len(), 1);
    assert_eq!(r[0].datetime, ts);
    assert_eq!(r[0].payload, b"fixed".to_vec());
}

#[test]
fn test_tail_read_of_drained_log() {
    let mut store = CounterStore::new();
    store.create(1, 0, 72).unwrap();
    for i in 1..=5i32 {
        store.mutate(1, i, b"p".to_vec()).unwrap();
    }
    store.drain_all();
    // A tail of one record is exactly the last line of the log.
    let last = store.get_logs(1, 1).unwrap();
    assert_eq!(last.len(), 72);
    let rec = decode_record(&last).unwrap();
    assert_eq!(rec.tx_id, 4);
    assert_eq!(rec.value, 5);
    assert_eq!(rec.updated_value, 15);
    // The free tail function agrees with the store's read.
    let whole = store.get_logs(1, 100).unwrap();
    assert_eq!(whole.len(), 5 * 72);
    assert_eq!(tail_bytes(&whole, 72, 1), last);
}

#[test]
fn test_db_atomic_new() {
    let a = DbAtomic::new(-5, 64);
    assert_eq!(a.value, 0);
    assert_eq!(a.min_value, -5);
    assert_eq!(a.log_size, 64);
}
