//! AES-256-GCM message sealing with a counter nonce. The cipher itself comes
//! from ring behind trusted wrappers; nonce construction and error handling
//! are verified.

use vstd::prelude::*;

verus! {

/// Why a codec call failed.
#[derive(Debug, Clone, Copy, PartialEq, Eq, Structural)]
pub enum CryptoError {
    KeyRejected,
    CiphertextTooShort,
    AuthTagMismatch,
}

/// Bytes of the AES-GCM tag appended to every ciphertext.
pub const TAG_LEN: usize = 16;

/// The 12-byte nonce for a counter: four zero bytes, then the counter in
/// big-endian order.
pub open spec fn spec_nonce(counter: u64) -> Seq<u8> {
    seq![
        0u8,
        0u8,
        0u8,
        0u8,
        (counter >> 56) as u8,
        (counter >> 48) as u8,
        (counter >> 40) as u8,
        (counter >> 32) as u8,
        (counter >> 24) as u8,
        (counter >> 16) as u8,
        (counter >> 8) as u8,
        counter as u8,
    ]
}

/// Builds the nonce for a counter value.
pub fn nonce_bytes(counter: u64) -> (r: [u8; 12])
    ensures
        r@ == spec_nonce(counter),
{
    let r: [u8; 12] = [
        0,
        0,
        0,
        0,
        #[verifier::truncate] ((counter >> 56) as u8),
        #[verifier::truncate] ((counter >> 48) as u8),
        #[verifier::truncate] ((counter >> 40) as u8),
        #[verifier::truncate] ((counter >> 32) as u8),
        #[verifier::truncate] ((counter >> 24) as u8),
        #[verifier::truncate] ((counter >> 16) as u8),
        #[verifier::truncate] ((counter >> 8) as u8),
        #[verifier::truncate] (counter as u8),
    ];
    proof {
        assert(r@ =~= spec_nonce(counter));
    }
    r
}

/// A nonce source that never repeats under the same key: each step hands out
/// the current counter's nonce and advances.
pub struct CounterNonceSequence {
    pub counter: u64,
}

impl CounterNonceSequence {
    pub fn new(counter: u64) -> (s: CounterNonceSequence)
        ensures
            s.counter == counter,
    {
        CounterNonceSequence { counter }
    }

    /// The next nonce, advancing the counter.
    pub fn advance(&mut self) -> (r: [u8; 12])
        requires
            old(self).counter < u64::MAX,
        ensures
            r@ == spec_nonce(old(self).counter),
            final(self).counter == old(self).counter + 1,
    {
        let r = nonce_bytes(self.counter);
        self.counter = self.counter + 1;
        r
    }
}

/// The AES-256-GCM ciphertext (with appended tag) ring produces for a key,
/// nonce and plaintext; a function of the three alone.
pub uninterp spec fn seal_of(key: Seq<u8>, nonce: Seq<u8>, msg: Seq<u8>) -> Seq<u8>;

/// What opening a ciphertext under a key and nonce yields, when the tag
/// verifies.
pub uninterp spec fn open_of(key: Seq<u8>, nonce: Seq<u8>, ct: Seq<u8>) -> Option<Seq<u8>>;

/// Relies on ring::aead::LessSafeKey::seal_in_place_append_tag with
/// AES_256_GCM: deterministic in key, nonce and plaintext; the tag adds 16
/// bytes; opening the result yields the plaintext back. A 32-byte AES-256
/// key is never rejected, and sealing fails only past the AES-GCM input
/// bound (near 2^36 bytes), so inputs under 2^32 bytes always seal.
#[verifier::external_body]
fn seal_aead(key: &[u8; 32], nonce: &[u8; 12], message: &[u8]) -> (r: Result<Vec<u8>, ()>)
    ensures
        (r matches Ok(c) ==> c@ == seal_of(key@, nonce@, message@) && c@.len() == message@.len()
            + TAG_LEN && open_of(key@, nonce@, c@) == Some(message@)),
        message@.len() < 0x1_0000_0000 ==> r is Ok,
{
    let unbound = match ring::aead::UnboundKey::new(&ring::aead::AES_256_GCM, key) {
        Ok(k) => k,
        Err(_) => {
            return Err(());
        },
    };
    let sealing = ring::aead::LessSafeKey::new(unbound);
    let n = ring::aead::Nonce::assume_unique_for_key(*nonce);
    let mut in_out = message.to_vec();
    match sealing.seal_in_place_append_tag(n, ring::aead::Aad::empty(), &mut in_out) {
        Ok(()) => Ok(in_out),
        Err(_) => Err(()),
    }
}

/// Relies on ring::aead::LessSafeKey::open_in_place with AES_256_GCM: it
/// returns the plaintext exactly when the tag verifies.
#[verifier::external_body]
fn open_aead(key: &[u8; 32], nonce: &[u8; 12], ciphertext: &[u8]) -> (r: Result<Vec<u8>, ()>)
    ensures
        (r matches Ok(p) ==> open_of(key@, nonce@, ciphertext@) == Some(p@)),
        (r matches Err(e) ==> open_of(key@, nonce@, ciphertext@) is None),
{
    let unbound = match ring::aead::UnboundKey::new(&ring::aead::AES_256_GCM, key) {
        Ok(k) => k,
        Err(_) => {
            return Err(());
        },
    };
    let opening = ring::aead::LessSafeKey::new(unbound);
    let n = ring::aead::Nonce::assume_unique_for_key(*nonce);
    let mut in_out = ciphertext.to_vec();
    match opening.open_in_place(n, ring::aead::Aad::empty(), &mut in_out) {
        Ok(p) => Ok(p.to_vec()),
        Err(_) => Err(()),
    }
}

/// Relies on ring::rand::SystemRandom::fill for key material.
#[verifier::external_body]
fn fill_random_key() -> (r: Result<[u8; 32], ()>)
{
    let mut key = [0u8; 32];
    let rng = ring::rand::SystemRandom::new();
    match ring::rand::SecureRandom::fill(&rng, &mut key) {
        Ok(()) => Ok(key),
        Err(_) => Err(()),
    }
}

/// Seals and opens messages under one 32-byte key.
pub struct Encryptor {
    pub key: [u8; 32],
}

impl Encryptor {
    pub fn new(key: [u8; 32]) -> (e: Encryptor)
        ensures
            e.key@ == key@,
    {
        Encryptor { key }
    }

    /// Seals a message under this key and the counter's nonce. Success is
    /// owed for every message under four gibibytes.
    pub fn encrypt(&self, counter: u64, message: &[u8]) -> (r: Result<Vec<u8>, CryptoError>)
        ensures
            (r matches Ok(c) ==> c@ == seal_of(self.key@, spec_nonce(counter), message@)
                && c@.len() == message@.len() + TAG_LEN && open_of(
                self.key@,
                spec_nonce(counter),
                c@,
            ) == Some(message@)),
            (r matches Err(e) ==> e == CryptoError::KeyRejected),
            message@.len() < 0x1_0000_0000 ==> r is Ok,
    {
        let nonce = nonce_bytes(counter);
        match seal_aead(&self.key, &nonce, message) {
            Ok(c) => Ok(c),
            Err(_) => Err(CryptoError::KeyRejected),
        }
    }

    /// Opens a ciphertext sealed under this key and the counter's nonce.
    pub fn decrypt(&self, counter: u64, ciphertext: &[u8]) -> (r: Result<Vec<u8>, CryptoError>)
        ensures
            (r matches Ok(p) ==> ciphertext@.len() >= TAG_LEN && open_of(
                self.key@,
                spec_nonce(counter),
                ciphertext@,
            ) == Some(p@)),
            (r matches Err(e) ==> (e == CryptoError::CiphertextTooShort && ciphertext@.len()
                < TAG_LEN) || (e == CryptoError::AuthTagMismatch && open_of(
                self.key@,
                spec_nonce(counter),
                ciphertext@,
            ) is None)),
            ciphertext@.len() < TAG_LEN ==> r == Err::<Vec<u8>, CryptoError>(
                CryptoError::CiphertextTooShort,
            ),
    {
        if ciphertext.len() < TAG_LEN {
            return Err(CryptoError::CiphertextTooShort);
        }
        let nonce = nonce_bytes(counter);
        match open_aead(&self.key, &nonce, ciphertext) {
            Ok(p) => Ok(p),
            Err(_) => Err(CryptoError::AuthTagMismatch),
        }
    }

    /// A fresh random 32-byte key.
    pub fn generate_random_key() -> (r: Result<[u8; 32], CryptoError>)
    {
        match fill_random_key() {
            Ok(k) => Ok(k),
            Err(_) => Err(CryptoError::KeyRejected),
        }
    }
}

} // verus!