//! Sealed boxes: one-shot public-key encryption of small arrays, as used
//! for the challenge/response authentication.
//!
//! The construction is libsodium's `crypto_box_seal`: an ephemeral X25519
//! key pair, XChaCha20-Poly1305, and a blake2b-derived nonce over the two
//! public keys.  The primitives are outside collaborators; what they
//! compute is named, never restated.

use vstd::prelude::*;
use vstd::slice::slice_to_vec;
use crypto_box::ChaChaBox;
use crypto_box::PublicKey as XPublicKey;
use crypto_box::SecretKey as XSecretKey;
use crypto_box::aead::AeadInPlace;
use crate::protocol::{CipherText, Client, Data, ErrorCode, Id};

verus! {

/// A 32-byte X25519 secret key, held in memory for the agent's lifetime
/// and never written out.
pub struct SecretKey {
    bytes: [u8; 32],
}

/// A 32-byte X25519 public key.
#[derive(Debug, Clone, Copy, PartialEq, Eq)]
pub struct PublicKey {
    pub bytes: [u8; 32],
}

/// Failure of a sealed-box operation.
#[derive(Debug, Clone, Copy)]
pub struct CryptoError {
    dummy: bool,
}

impl CryptoError {
    /// A crypto failure; the cause is deliberately not carried.
    pub fn new() -> CryptoError {
        CryptoError { dummy: true }
    }
}

impl View for SecretKey {
    type V = Seq<u8>;

    closed spec fn view(&self) -> Seq<u8> {
        self.bytes@
    }
}

impl View for PublicKey {
    type V = Seq<u8>;

    open spec fn view(&self) -> Seq<u8> {
        self.bytes@
    }
}

impl SecretKey {
    /// A key from its raw bytes.
    pub fn from_bytes(bytes: [u8; 32]) -> (r: SecretKey)
        ensures
            r@ == bytes@,
    {
        SecretKey { bytes }
    }

    /// The raw bytes, for rendering at rest.
    pub fn as_bytes(&self) -> (r: &[u8; 32])
        ensures
            r@ == self@,
    {
        &self.bytes
    }
}

/// The X25519 public key derived from 32 secret-key bytes.
pub uninterp spec fn public_key_of(sk: Seq<u8>) -> Seq<u8>;

/// What un-sealing a record with a secret key yields: the plaintext when
/// key, record and tag agree, nothing otherwise.  A function of its
/// arguments alone.
pub uninterp spec fn unseal_of(sk: Seq<u8>, key: Seq<u8>, data: Seq<u8>, tag: Seq<u8>) -> Option<
    Seq<u8>,
>;

/// Relies on `crypto_box::SecretKey::public_key`: the public key is
/// derived from the secret bytes alone.
#[verifier::external_body]
pub fn public_key(sk: &SecretKey) -> (r: PublicKey)
    ensures
        r@ == public_key_of(sk@),
        r@.len() == 32,
{
    let k = XSecretKey::from_bytes(sk.bytes);
    PublicKey { bytes: *k.public_key().as_bytes() }
}

/// Relies on `getrandom::fill` for fresh key material from the operating
/// system; nothing is assumed about the bytes.  Panics if the random
/// source is unavailable (a broken source must not be papered over).
#[verifier::external_body]
pub fn gen_secret_key() -> (r: SecretKey)
    ensures
        r@.len() == 32,
{
    let mut bytes = [0u8; 32];
    getrandom::fill(&mut bytes).expect("OS random source not available");
    SecretKey { bytes }
}

/// Relies on `getrandom::fill` for a fresh random array; nothing is
/// assumed about the bytes.  Panics if the random source is unavailable.
#[verifier::external_body]
pub fn fresh_array<const N: usize>() -> (r: [u8; N])
    ensures
        r@.len() == N,
{
    let mut a = [0u8; N];
    getrandom::fill(&mut a).expect("OS random source not available");
    a
}

/// Encrypt a message for the given public key.
///
/// Relies on `crypto_box` (X25519, XChaCha20-Poly1305) and `blake2b_simd`
/// for the sealed-box construction.  The ephemeral key makes the record
/// random, so only this holds of every outcome: whoever holds secret
/// bytes whose public key is `pk` — and, by the libsodium sealed-box
/// documentation, only they — can unseal the record to the message.
#[verifier::external_body]
pub fn encrypt<const N: usize>(pk: &PublicKey, msg: [u8; N]) -> (r: Result<Data<N>, CryptoError>)
    ensures
        r matches Ok(d) ==> d@.wf(N as int) && (forall|sk: Seq<u8>|
            public_key_of(sk) == pk@ ==> unseal_of(sk, d@.key, d@.data, d@.tag) == Some(msg@)),
{
    let mut body = msg;
    let es = XSecretKey::from_bytes(fresh_array());
    let ep = es.public_key();
    let mut st = blake2b_simd::Params::new().hash_length(24).to_state();
    st.update(&ep.as_bytes()[..]);
    st.update(&pk.bytes[..]);
    let mut nc = [0u8; 24];
    nc.copy_from_slice(st.finalize().as_bytes());
    let cb = ChaChaBox::new(&XPublicKey::from_bytes(pk.bytes), &es);
    match cb.encrypt_in_place_detached(&nc.into(), &[], &mut body[..]) {
        Ok(tg) => Ok(Data { key: *ep.as_bytes(), data: body, tag: tg.into() }),
        Err(_) => Err(CryptoError { dummy: true }),
    }
}

/// Decrypt a message using the given secret key.
///
/// Relies on `crypto_box` and `blake2b_simd`: the outcome is a function
/// of the secret bytes and the record alone, named by `unseal_of`.
#[verifier::external_body]
pub fn decrypt<const N: usize>(sk: &SecretKey, data: Data<N>) -> (r: Result<[u8; N], CryptoError>)
    ensures
        match r {
            Ok(m) => unseal_of(sk@, data@.key, data@.data, data@.tag) == Some(m@),
            Err(_) => unseal_of(sk@, data@.key, data@.data, data@.tag) is None,
        },
{
    let mut body = data.data;
    let k = XSecretKey::from_bytes(sk.bytes);
    let mut st = blake2b_simd::Params::new().hash_length(24).to_state();
    st.update(&data.key[..]);
    st.update(&k.public_key().as_bytes()[..]);
    let mut nc = [0u8; 24];
    nc.copy_from_slice(st.finalize().as_bytes());
    let cb = ChaChaBox::new(&XPublicKey::from_bytes(data.key), &k);
    match cb.decrypt_in_place_detached(&nc.into(), &[], &mut body[..], &data.tag.into()) {
        Ok(()) => Ok(body),
        Err(_) => Err(CryptoError { dummy: true }),
    }
}

/// Sealed-box round trip: a record that every key behind the recipient's
/// public key unseals to the message is in particular unsealed by the
/// recipient's own secret key.  Together with the contract of `decrypt`,
/// decrypting an encryption for one's own public key returns the
/// original message.
pub proof fn lemma_sealed_box_round_trip(
    sk: Seq<u8>,
    key: Seq<u8>,
    data: Seq<u8>,
    tag: Seq<u8>,
    m: Seq<u8>,
)
    requires
        forall|s2: Seq<u8>| public_key_of(s2) == public_key_of(sk) ==> unseal_of(
            s2,
            key,
            data,
            tag,
        ) == Some(m),
    ensures
        unseal_of(sk, key, data, tag) == Some(m),
{
    assert(public_key_of(sk) == public_key_of(sk) && unseal_of(sk, key, data, tag) == Some(m));
}

/// Answer an authentication challenge: the decrypted plaintext on
/// success, a decryption-failed error otherwise.
pub fn answer_challenge(sk: &SecretKey, re: Id, text: &CipherText) -> (r: Client)
    ensures
        match unseal_of(sk@, text@.key, text@.data, text@.tag) {
            Some(m) => r@ == (crate::protocol::ClientSpec::Response { re, text: m }),
            None => r@ == (crate::protocol::ClientSpec::Error {
                re,
                code: Some(ErrorCode::DecryptionFailed),
                msg: None,
            }),
        },
{
    match decrypt(sk, text.0) {
        Ok(plain) => {
            let text_vec = slice_to_vec(plain.as_slice());
            Client::Response { re, text: text_vec }
        },
        Err(_) => Client::Error { re, code: Some(ErrorCode::DecryptionFailed), msg: None },
    }
}

} // verus!
