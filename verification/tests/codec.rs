use litemq::codec::decode;
use litemq::codec::encode;
use litemq::codec::round_trip;

#[test]
fn encode_single_byte() {
    assert_eq!(encode(&vec![0x7A]), b"eg==".to_vec());
}

#[test]
fn encode_empty_payload() {
    assert_eq!(encode(&vec![]), Vec::<u8>::new());
}

#[test]
fn encode_is_newline_free() {
    let mut data: Vec<u8> = Vec::new();
    for b in 0..=255u8 {
        data.push(b);
    }
    let line = encode(&data);
    for b in line {
        assert_ne!(b, b'\n');
    }
}

#[test]
fn decode_inverts_encode() {
    assert_eq!(decode(&b"eg==".to_vec()), Some(vec![0x7A]));
    assert_eq!(decode(&b"aGVsbG8=".to_vec()), Some(b"hello".to_vec()));
    assert_eq!(decode(&Vec::new()), Some(Vec::new()));
}

#[test]
fn decode_rejects_malformed_line() {
    assert_eq!(decode(&b"!!".to_vec()), None);
    assert_eq!(decode(&b"eg=".to_vec()), None);
    assert_eq!(decode(&b"a\nb".to_vec()), None);
}

#[test]
fn round_trip_returns_payload() {
    let payloads: Vec<Vec<u8>> = vec![
        Vec::new(),
        vec![0x00],
        vec![0x68, 0x65, 0x6C, 0x6C, 0x6F],
        vec![0xFF, 0x00, 0xFF, 0x10, 0x0A],
    ];
    for p in payloads {
        assert_eq!(round_trip(&p), p);
    }
}
