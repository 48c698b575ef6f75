//! Base64 behaviour, cross-checked against the reference implementation.

use base64::Engine;
use cluvio_agent::base64::{decode, encode};

fn reference_encode(bytes: &[u8]) -> String {
    base64::engine::general_purpose::URL_SAFE_NO_PAD.encode(bytes)
}

fn reference_decode(s: &str) -> Option<Vec<u8>> {
    base64::engine::general_purpose::URL_SAFE_NO_PAD.decode(s).ok()
}

#[test]
fn encode_matches_reference() {
    let samples: Vec<Vec<u8>> = vec![
        vec![],
        vec![0],
        vec![255],
        vec![1, 2],
        vec![1, 2, 3],
        vec![251, 252, 253, 254],
        (0u8..=255).collect(),
        b"hello world".to_vec(),
    ];
    for s in samples {
        assert_eq!(encode(&s), reference_encode(&s));
    }
}

#[test]
fn decode_matches_reference() {
    for text in ["", "AA", "AAA", "AAAA", "-_-_", "aGVsbG8", "x", "A", "A===", "AB!", "AE", "AA=="]
    {
        assert_eq!(decode(text), reference_decode(text));
    }
}

#[test]
fn round_trip() {
    let samples: Vec<Vec<u8>> = vec![vec![], vec![42], vec![1, 2, 3, 4, 5, 6, 7], (0u8..64).collect()];
    for s in samples {
        let enc = encode(&s);
        assert_eq!(decode(&enc), Some(s));
    }
}

#[test]
fn strict_trailing_bits() {
    // `AQ` decodes (the unused low bits of the last digit are zero) but
    // `AR` has a non-zero unused bit and is refused, as the reference does.
    assert!(decode("AQ").is_some());
    assert!(decode("AR").is_none());
    assert_eq!(decode("AR").is_some(), reference_decode("AR").is_some());
}
