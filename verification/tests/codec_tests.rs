use atomics_store::codec::{decode_record, encode_record, i32_to_decimal, u64_to_decimal, AtomicLog};
use atomics_store::errors::StoreError;

const TS: &[u8] = b"2024-01-02T03:04:05.123456Z"; // 27 bytes

fn record(tx_id: u64, value: i32, updated_value: i32, payload: &[u8]) -> AtomicLog {
    AtomicLog {
        tx_id,
        value,
        updated_value,
        datetime: TS.to_vec(),
        payload: payload.to_vec(),
    }
}

#[test]
fn test_decimal_text() {
    assert_eq!(i32_to_decimal(0), b"0".to_vec());
    assert_eq!(i32_to_decimal(42), b"42".to_vec());
    assert_eq!(i32_to_decimal(-123), b"-123".to_vec());
    assert_eq!(i32_to_decimal(i32::MIN), b"-2147483648".to_vec());
    assert_eq!(i32_to_decimal(i32::MAX), b"2147483647".to_vec());
    assert_eq!(u64_to_decimal(0), b"0".to_vec());
    assert_eq!(u64_to_decimal(u64::MAX), b"18446744073709551615".to_vec());
}

#[test]
fn test_encode_fixed_width() {
    // content: "0,1,1,<27-byte ts>,test" = 34 + 4 bytes, padded to 71, then LF
    let line = encode_record(&record(0, 1, 1, b"test"), 72).unwrap();
    assert_eq!(line.len(), 72);
    assert_eq!(line[71], 0x0A);
    assert!(line.starts_with(b"0,1,1,2024-01-02T03:04:05.123456Z,test"));
    assert!(line[38..71].iter().all(|b| *b == 0x20));
}

#[test]
fn test_encode_exact_fit_boundary() {
    // The fixed fields take 34 bytes; with a 37-byte payload the un-padded
    // content is exactly 71 = log_size - 1 bytes: encoding succeeds.
    let fits = record(0, 1, 1, &[b'x'; 37]);
    let line = encode_record(&fits, 72).unwrap();
    assert_eq!(line.len(), 72);
    // One byte more and the record no longer fits.
    let too_big = record(0, 1, 1, &[b'x'; 38]);
    assert_eq!(encode_record(&too_big, 72).unwrap_err(), StoreError::RecordTooLarge);
}

#[test]
fn test_round_trip() {
    let rec = record(7, -3, 39, b"hello,world");
    let line = encode_record(&rec, 80).unwrap();
    let back = decode_record(&line).unwrap();
    assert_eq!(back.tx_id, 7);
    assert_eq!(back.value, -3);
    assert_eq!(back.updated_value, 39);
    assert_eq!(back.datetime, TS.to_vec());
    assert_eq!(back.payload, b"hello,world".to_vec());
}

#[test]
fn test_round_trip_empty_payload() {
    let rec = record(0, 0, 0, b"");
    let line = encode_record(&rec, 40).unwrap();
    let back = decode_record(&line).unwrap();
    assert_eq!(back.tx_id, 0);
    assert_eq!(back.value, 0);
    assert_eq!(back.updated_value, 0);
    assert_eq!(back.payload, Vec::<u8>::new());
}

#[test]
fn test_decode_blank_record_skipped() {
    // An all-padding line is a sentinel, not an error.
    let blank = vec![0x20u8; 71].into_iter().chain([0x0A]).collect::<Vec<u8>>();
    assert!(decode_record(&blank).is_none());
    // Too few commas.
    assert!(decode_record(b"1,2,3\n").is_none());
    // A numeric field that does not parse.
    assert!(decode_record(b"x,2,3,t,p\n").is_none());
    assert!(decode_record(b"1,2,9999999999999,t,p\n").is_none());
    // An empty buffer.
    assert!(decode_record(b"").is_none());
}

#[test]
fn test_decode_trims_field_padding() {
    let back = decode_record(b"5 ,-2,3  ,t,p\n").unwrap();
    assert_eq!(back.tx_id, 5);
    assert_eq!(back.value, -2);
    assert_eq!(back.updated_value, 3);
    assert_eq!(back.datetime, b"t".to_vec());
    assert_eq!(back.payload, b"p".to_vec());
}
