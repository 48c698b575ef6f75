//! Symmetric encryption round trip against the real cipher crate.

use cluvio_agent::crypto::{Key, Nonce};

#[test]
fn crypto_success() {
    let k = Key::fresh();
    let n = Nonce::fresh();
    let a: &[u8] = &[1, 2, 3, 4, 5];
    let mut v = b"hello world".to_vec();
    k.encrypt(&n, a, &mut v).unwrap();
    assert_ne!(&b"hello world"[..], &v[..]);
    k.decrypt(&n, a, &mut v).unwrap();
    assert_eq!(&b"hello world"[..], &v[..]);
}

#[test]
fn wrong_aad_fails() {
    let k = Key::fresh();
    let n = Nonce::fresh();
    let mut v = b"payload".to_vec();
    k.encrypt(&n, &[1], &mut v).unwrap();
    assert!(k.decrypt(&n, &[2], &mut v).is_err());
}
