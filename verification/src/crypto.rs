//! Symmetric authenticated encryption with XChaCha20-Poly1305, for data
//! protected at rest or relayed under a shared key.

use vstd::prelude::*;
use chacha20poly1305::{AeadInOut, KeyInit, XChaCha20Poly1305, XNonce};
use crate::sealed::CryptoError;

verus! {

/// A 32-byte symmetric key.
#[derive(Clone)]
pub struct Key {
    bytes: [u8; 32],
}

/// A 24-byte nonce.
#[derive(Debug, Clone, Copy)]
pub struct Nonce {
    bytes: [u8; 24],
}

impl View for Key {
    type V = Seq<u8>;

    closed spec fn view(&self) -> Seq<u8> {
        self.bytes@
    }
}

impl View for Nonce {
    type V = Seq<u8>;

    closed spec fn view(&self) -> Seq<u8> {
        self.bytes@
    }
}

/// The ciphertext-with-tag that sealing a message under key, nonce and
/// associated data yields; a function of its arguments alone.
pub uninterp spec fn xseal_of(key: Seq<u8>, nonce: Seq<u8>, ad: Seq<u8>, msg: Seq<u8>) -> Seq<u8>;

/// What opening a ciphertext under key, nonce and associated data
/// yields: the plaintext when the tag verifies, nothing otherwise.
pub uninterp spec fn xopen_of(key: Seq<u8>, nonce: Seq<u8>, ad: Seq<u8>, ct: Seq<u8>) -> Option<
    Seq<u8>,
>;

impl Nonce {
    /// Relies on `getrandom::fill` for a fresh nonce; nothing is assumed
    /// about the bytes.  Panics if the source is unavailable.
    #[verifier::external_body]
    pub fn fresh() -> (r: Nonce)
        ensures
            r@.len() == 24,
    {
        let mut bytes = [0u8; 24];
        getrandom::fill(&mut bytes).expect("OS random source not available");
        Nonce { bytes }
    }

    /// A nonce from its raw bytes.
    pub fn from_bytes(bytes: [u8; 24]) -> (r: Nonce)
        ensures
            r@ == bytes@,
    {
        Nonce { bytes }
    }
}

impl Key {
    /// Relies on `getrandom::fill` for a fresh key; nothing is assumed
    /// about the bytes.  Panics if the source is unavailable.
    #[verifier::external_body]
    pub fn fresh() -> (r: Key)
        ensures
            r@.len() == 32,
    {
        let mut bytes = [0u8; 32];
        getrandom::fill(&mut bytes).expect("OS random source not available");
        Key { bytes }
    }

    /// A key from its raw bytes.
    pub fn from_bytes(bytes: [u8; 32]) -> (r: Key)
        ensures
            r@ == bytes@,
    {
        Key { bytes }
    }

    /// Encrypt in place, appending the tag.
    ///
    /// Relies on `chacha20poly1305::XChaCha20Poly1305::encrypt_in_place`:
    /// the result is a function of key, nonce, associated data and
    /// message, named by `xseal_of`; and per the authenticated-encryption
    /// contract, opening it under the same key, nonce and associated
    /// data yields the message back.
    #[verifier::external_body]
    pub fn encrypt(&self, n: &Nonce, ad: &[u8], val: &mut Vec<u8>) -> (r: Result<(), CryptoError>)
        ensures
            r is Ok ==> final(val)@ == xseal_of(self@, n@, ad@, old(val)@),
            r is Ok ==> xopen_of(self@, n@, ad@, final(val)@) == Some(old(val)@),
    {
        let x = XChaCha20Poly1305::new(&self.bytes.into());
        let xn: XNonce = n.bytes.into();
        x.encrypt_in_place(&xn, ad, val).map_err(|_| CryptoError::new())
    }

    /// Decrypt in place, checking and removing the tag.
    ///
    /// Relies on `chacha20poly1305::XChaCha20Poly1305::decrypt_in_place`:
    /// the outcome is a function of key, nonce, associated data and
    /// ciphertext, named by `xopen_of`.
    #[verifier::external_body]
    pub fn decrypt(&self, n: &Nonce, ad: &[u8], val: &mut Vec<u8>) -> (r: Result<(), CryptoError>)
        ensures
            r is Ok <==> xopen_of(self@, n@, ad@, old(val)@) is Some,
            r is Ok ==> Some(final(val)@) == xopen_of(self@, n@, ad@, old(val)@),
    {
        let x = XChaCha20Poly1305::new(&self.bytes.into());
        let xn: XNonce = n.bytes.into();
        x.decrypt_in_place(&xn, ad, val).map_err(|_| CryptoError::new())
    }
}

} // verus!
