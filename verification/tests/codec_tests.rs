use doomsayer::codec::{decode_state, encode_state};
use doomsayer::state::State;

#[test]
fn encoded_form_is_exact() {
    let s = State { credential: vec![b'a', b'b', b'c'], last_successful_index: Some(7) };
    let out = encode_state(&s);
    assert_eq!(out, b"index 7\ncredential 3 abc\n".to_vec());
}

#[test]
fn encoded_form_without_index_is_exact() {
    let s = State { credential: vec![b't', b'o', b'k'], last_successful_index: None };
    let out = encode_state(&s);
    assert_eq!(out, b"index none\ncredential 3 tok\n".to_vec());
}

#[test]
fn round_trip_without_index() {
    let s = State { credential: b"secret-token".to_vec(), last_successful_index: None };
    let back = decode_state(&encode_state(&s)).unwrap();
    assert_eq!(back.credential, s.credential);
    assert_eq!(back.last_successful_index, None);
}

#[test]
fn round_trip_with_index() {
    let s = State { credential: b"secret-token".to_vec(), last_successful_index: Some(41) };
    let back = decode_state(&encode_state(&s)).unwrap();
    assert_eq!(back.credential, s.credential);
    assert_eq!(back.last_successful_index, Some(41));
}

#[test]
fn round_trip_empty_credential() {
    let s = State { credential: Vec::new(), last_successful_index: Some(0) };
    let back = decode_state(&encode_state(&s)).unwrap();
    assert_eq!(back.credential, Vec::<u8>::new());
    assert_eq!(back.last_successful_index, Some(0));
}

#[test]
fn round_trip_credential_with_newlines_and_spaces() {
    let s = State {
        credential: b"a b\nc\r\nindex none\n\0end".to_vec(),
        last_successful_index: Some(12345),
    };
    let back = decode_state(&encode_state(&s)).unwrap();
    assert_eq!(back.credential, s.credential);
    assert_eq!(back.last_successful_index, Some(12345));
}

#[test]
fn round_trip_large_index() {
    let s = State { credential: b"t".to_vec(), last_successful_index: Some(usize::MAX) };
    let back = decode_state(&encode_state(&s)).unwrap();
    assert_eq!(back.last_successful_index, Some(usize::MAX));
}

#[test]
fn decode_rejects_empty_input() {
    assert!(decode_state(&Vec::new()).is_none());
}

#[test]
fn decode_rejects_garbage() {
    assert!(decode_state(&b"hello world".to_vec()).is_none());
}

#[test]
fn decode_rejects_wrong_label() {
    assert!(decode_state(&b"inlex 7\ncredential 3 abc\n".to_vec()).is_none());
}

#[test]
fn decode_rejects_missing_index_field() {
    assert!(decode_state(&b"index \ncredential 3 abc\n".to_vec()).is_none());
}

#[test]
fn decode_rejects_truncated_record() {
    let s = State { credential: b"abcdef".to_vec(), last_successful_index: Some(3) };
    let mut out = encode_state(&s);
    out.pop();
    out.pop();
    assert!(decode_state(&out).is_none());
}

#[test]
fn decode_rejects_trailing_bytes() {
    let s = State { credential: b"abcdef".to_vec(), last_successful_index: Some(3) };
    let mut out = encode_state(&s);
    out.push(b'x');
    assert!(decode_state(&out).is_none());
}

#[test]
fn decode_rejects_short_credential_count() {
    assert!(decode_state(&b"index 1\ncredential 9 abc\n".to_vec()).is_none());
}

#[test]
fn decode_rejects_oversized_index() {
    let v = b"index 99999999999999999999999999\ncredential 1 a\n".to_vec();
    assert!(decode_state(&v).is_none());
}

#[test]
fn different_credentials_encode_differently() {
    let a = State { credential: b"one".to_vec(), last_successful_index: Some(3) };
    let b = State { credential: b"two".to_vec(), last_successful_index: Some(3) };
    assert_ne!(encode_state(&a), encode_state(&b));
}

#[test]
fn different_indexes_encode_differently() {
    let a = State { credential: b"tok".to_vec(), last_successful_index: None };
    let b = State { credential: b"tok".to_vec(), last_successful_index: Some(0) };
    assert_ne!(encode_state(&a), encode_state(&b));
}
