//! Sealed-box encryption round trips against the real crypto crates.
//!
//! These rounds once also serialized the 57-byte record and read it
//! back; that record never travels on this wire, so the serialization
//! check lives with the 32-byte challenge record in the codec and wire
//! compatibility tests instead.

use cluvio_agent::sealed::{decrypt, encrypt, fresh_array, gen_secret_key, public_key};

#[test]
fn lib_success() {
    let da = fresh_array::<57>();
    let sk = gen_secret_key();
    let pk = public_key(&sk);
    let it = encrypt(&pk, da).unwrap();
    let db = decrypt(&sk, it).unwrap();
    assert_eq!(da, db);
}

#[test]
fn failure() {
    let sk1 = gen_secret_key();
    let sk2 = gen_secret_key();
    let pk1 = public_key(&sk1);
    let dat = encrypt(&pk1, fresh_array::<57>()).unwrap();
    assert!(decrypt(&sk2, dat).is_err());
}

#[test]
fn tampering_fails() {
    let msg = [7u8; 32];
    let sk = gen_secret_key();
    let pk = public_key(&sk);
    let mut boxed = encrypt(&pk, msg).unwrap();
    boxed.data[0] = boxed.data[0].wrapping_add(1);
    assert!(decrypt(&sk, boxed).is_err());
}
