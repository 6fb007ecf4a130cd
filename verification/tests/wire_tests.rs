use atomics_store::errors::StoreError;
use atomics_store::store::CounterStore;
use atomics_store::wire::{decode_frame, frame_token, handle_frame, parse_num, parse_num_usize, WireCommand};

/// Builds a 256-byte frame: the keyword in bytes [0,9), a token in [9,18),
/// and the fixed-width fields from byte 18 on.
fn make_frame(keyword: &str, token: &[u8; 9], fields: &[(usize, &[u8])]) -> Vec<u8> {
    let mut frame = vec![0u8; 256];
    let kw = keyword.as_bytes();
    frame[..kw.len()].copy_from_slice(kw);
    for b in kw.len()..9 {
        frame[b] = 0x20;
    }
    frame[9..18].copy_from_slice(token);
    for (offset, bytes) in fields {
        frame[18 + offset..18 + offset + bytes.len()].copy_from_slice(bytes);
    }
    frame
}

const TOKEN: &[u8; 9] = b"tok-00042";

#[test]
fn test_decode_frame_create() {
    let frame = make_frame("CREATE", TOKEN, &[(0, b"1"), (8, b"-5"), (18, b"72")]);
    match decode_frame(&frame).unwrap() {
        WireCommand::Create { id, min_value, log_size } => {
            assert_eq!(id, 1);
            assert_eq!(min_value, -5);
            assert_eq!(log_size, 72);
        },
        _ => panic!("expected a create command"),
    }
}

#[test]
fn test_decode_frame_mutate_payload_ends_at_nul() {
    let frame = make_frame("MUTATE", TOKEN, &[(0, b"7"), (8, b"-2"), (18, b"some payload")]);
    match decode_frame(&frame).unwrap() {
        WireCommand::Mutate { atomic_id, delta, payload } => {
            assert_eq!(atomic_id, 7);
            assert_eq!(delta, -2);
            assert_eq!(payload, b"some payload".to_vec());
        },
        _ => panic!("expected a mutate command"),
    }
}

#[test]
fn test_decode_frame_get() {
    let frame = make_frame("GET", TOKEN, &[(0, b"31")]);
    match decode_frame(&frame).unwrap() {
        WireCommand::Get { atomic_id } => assert_eq!(atomic_id, 31),
        _ => panic!("expected a get command"),
    }
}

#[test]
fn test_decode_frame_unknown_command() {
    let frame = make_frame("DELETE", TOKEN, &[(0, b"1")]);
    assert_eq!(decode_frame(&frame).unwrap_err(), StoreError::UnknownCommand);
}

#[test]
fn test_decode_frame_nul_padded_keyword_unrecognized() {
    // A short datagram leaves the keyword NUL-padded in the zero-filled
    // buffer; only whitespace is trimmed from the keyword, so it stays
    // unrecognized.
    let mut frame = vec![0u8; 256];
    frame[..3].copy_from_slice(b"GET");
    frame[9..18].copy_from_slice(TOKEN);
    frame[18] = b'1';
    assert_eq!(decode_frame(&frame).unwrap_err(), StoreError::UnknownCommand);
    // The numeric fields, by contrast, do trim NUL.
    let spaced = make_frame("GET", TOKEN, &[(0, b"1\0\0\0")]);
    assert!(matches!(decode_frame(&spaced).unwrap(), WireCommand::Get { atomic_id: 1 }));
}

#[test]
fn test_decode_frame_bad_number() {
    let frame = make_frame("GET", TOKEN, &[(0, b"not-num.")]);
    assert_eq!(decode_frame(&frame).unwrap_err(), StoreError::DecodeError);
    let frame = make_frame("CREATE", TOKEN, &[(0, b"1"), (8, b"?"), (18, b"72")]);
    assert_eq!(decode_frame(&frame).unwrap_err(), StoreError::DecodeError);
}

#[test]
fn test_frame_token_echo() {
    let frame = make_frame("GET", TOKEN, &[(0, b"1")]);
    assert_eq!(frame_token(&frame), TOKEN.to_vec());
}

#[test]
fn test_handle_frame_end_to_end() {
    let mut store = CounterStore::new();
    let create = make_frame("CREATE", TOKEN, &[(0, b"1"), (8, b"0"), (18, b"72")]);
    assert_eq!(handle_frame(&mut store, &create).unwrap(), b"".to_vec());
    let mutate = make_frame("MUTATE", TOKEN, &[(0, b"1"), (8, b"1"), (18, b"test")]);
    assert_eq!(handle_frame(&mut store, &mutate).unwrap(), b"1".to_vec());
    let get = make_frame("GET", TOKEN, &[(0, b"1")]);
    assert_eq!(handle_frame(&mut store, &get).unwrap(), b"1".to_vec());
    // A below-floor mutation answers an empty body, like the transports'
    // non-success statuses.
    let sink = make_frame("MUTATE", TOKEN, &[(0, b"1"), (8, b"-9"), (18, b"x")]);
    assert_eq!(handle_frame(&mut store, &sink).unwrap(), b"".to_vec());
    // An unknown keyword still answers (empty), a malformed field does not.
    let unknown = make_frame("NOP", TOKEN, &[]);
    assert_eq!(handle_frame(&mut store, &unknown).unwrap(), b"".to_vec());
    let malformed = make_frame("GET", TOKEN, &[(0, b"abc")]);
    assert!(handle_frame(&mut store, &malformed).is_none());
    // The store did commit exactly one mutation.
    store.drain_all();
    assert_eq!(store.get_logs(1, 10).unwrap().len(), 72);
}

#[test]
fn test_parse_num() {
    assert_eq!(parse_num(b"  123 "), Some(123));
    assert_eq!(parse_num(b"-5\0\0"), Some(-5));
    assert_eq!(parse_num(b"\0\x0042\0"), Some(42));
    assert_eq!(parse_num(b""), None);
    assert_eq!(parse_num(b"abc"), None);
    assert_eq!(parse_num(b"12a"), None);
    assert_eq!(parse_num(b"99999999999"), None);
    assert_eq!(parse_num(b"-2147483648"), Some(i32::MIN));
    assert_eq!(parse_num(b"2147483647"), Some(i32::MAX));
}

#[test]
fn test_parse_num_usize() {
    assert_eq!(parse_num_usize(b" 72\0"), Some(72));
    assert_eq!(parse_num_usize(b"0"), Some(0));
    assert_eq!(parse_num_usize(b"-1"), None);
    assert_eq!(parse_num_usize(b""), None);
}
