use rusty_pstore::encoding::{decode, encode};

#[test]
fn encode_known_vectors() {
    assert_eq!(encode(b""), "");
    assert_eq!(encode(b"f"), "Zg==");
    assert_eq!(encode(b"fo"), "Zm8=");
    assert_eq!(encode(b"foo"), "Zm9v");
    assert_eq!(encode(b"foob"), "Zm9vYg==");
    assert_eq!(encode(b"fooba"), "Zm9vYmE=");
    assert_eq!(encode(b"foobar"), "Zm9vYmFy");
    assert_eq!(encode(&[0xfb, 0xff, 0xbf]), "+/+/");
}

#[test]
fn encode_length_is_four_per_started_group() {
    for n in 0..40usize {
        let bytes = vec![7u8; n];
        assert_eq!(encode(&bytes).len(), 4 * ((n + 2) / 3));
    }
}

#[test]
fn decode_known_vectors() {
    assert_eq!(decode("").unwrap(), Vec::<u8>::new());
    assert_eq!(decode("Zg==").unwrap(), b"f".to_vec());
    assert_eq!(decode("Zm8=").unwrap(), b"fo".to_vec());
    assert_eq!(decode("Zm9vYmFy").unwrap(), b"foobar".to_vec());
}

#[test]
fn decode_rejects_non_canonical_input() {
    // missing padding
    assert!(decode("Zg").is_err());
    // non-zero trailing bits
    assert!(decode("Zh==").is_err());
    // characters outside the alphabet
    assert!(decode("Zm9v!").is_err());
    assert!(decode("Zm9v\n").is_err());
    // padding in the middle
    assert!(decode("Zg==Zg==").is_err());
}

#[test]
fn decode_inverts_encode() {
    for n in 0..50usize {
        let bytes: Vec<u8> = (0..n).map(|i| (i * 37 + 11) as u8).collect();
        assert_eq!(decode(&encode(&bytes)).unwrap(), bytes);
    }
}

#[test]
fn distinct_bytes_have_distinct_encodings() {
    let samples: Vec<Vec<u8>> = vec![vec![], vec![0], vec![0, 0], vec![0, 0, 0], vec![1], vec![0, 1], vec![255, 255]];
    for a in &samples {
        for b in &samples {
            assert_eq!(a == b, encode(a) == encode(b));
        }
    }
}
