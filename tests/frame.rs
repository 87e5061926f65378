use comms_task::frame::{decode, encode, HEADER_LEN};

#[test]
fn encode_writes_marker_length_and_payload() {
    let f = encode(&[7, 8, 9]);
    assert_eq!(f, vec![0x2C, 0x0F, 0xFE, 0xE5, 0, 0, 0, 0, 0, 0, 0, 3, 7, 8, 9]);
    assert_eq!(f.len(), HEADER_LEN + 3);
}

#[test]
fn encode_empty_payload() {
    let f = encode(&[]);
    assert_eq!(f, vec![0x2C, 0x0F, 0xFE, 0xE5, 0, 0, 0, 0, 0, 0, 0, 0]);
    let (found, rest, dropped) = decode(&f);
    assert_eq!(found, vec![Vec::<u8>::new()]);
    assert_eq!(rest, f.len());
    assert_eq!(dropped, 0);
}

#[test]
fn encode_long_payload_length_bytes() {
    let payload = vec![0xAB; 300];
    let f = encode(&payload);
    assert_eq!(&f[4..12], &[0, 0, 0, 0, 0, 0, 1, 44]);
    assert_eq!(&f[12..], payload.as_slice());
}

#[test]
fn round_trip_single_frame() {
    let m = b"hello peer".to_vec();
    let (found, rest, dropped) = decode(&encode(&m));
    assert_eq!(found, vec![m]);
    assert_eq!(rest, HEADER_LEN + 10);
    assert_eq!(dropped, 0);
}

#[test]
fn three_frames_decode_in_order() {
    let (a, b, c) = (b"A".to_vec(), b"BB".to_vec(), b"CCC".to_vec());
    let mut wire = encode(&a);
    wire.extend(encode(&b));
    wire.extend(encode(&c));
    let (found, rest, dropped) = decode(&wire);
    assert_eq!(found, vec![a, b, c]);
    assert_eq!(rest, wire.len());
    assert_eq!(dropped, 0);
}

#[test]
fn partial_frame_waits() {
    let f = encode(b"abcdef");
    let (found, rest, dropped) = decode(&f[..f.len() - 1]);
    assert!(found.is_empty());
    assert_eq!(rest, 0);
    assert_eq!(dropped, 0);
    let (found, rest, _) = decode(&f[..2]);
    assert!(found.is_empty());
    assert_eq!(rest, 0);
}

#[test]
fn bytes_without_marker_are_dropped() {
    let mut wire = vec![1, 2, 3];
    wire.extend(encode(b"ok"));
    let (found, rest, dropped) = decode(&wire);
    assert_eq!(found, vec![b"ok".to_vec()]);
    assert_eq!(rest, wire.len());
    assert_eq!(dropped, 3);
}
