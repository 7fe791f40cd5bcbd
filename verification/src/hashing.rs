//! The cryptographic and environmental calls the core relies on: combining
//! two digests with SHA-512, drawing random salt words, and reading the
//! wall clock.

use vstd::prelude::*;
use crate::digest::Hash512;
use sha2::Digest;
use sha2::Sha512;

verus! {

/// The digest that SHA-512 yields on the 128-byte concatenation of the
/// little-endian serialisations of two digests, read back as eight
/// little-endian words. A pure function of its two arguments.
pub uninterp spec fn sha512_pair(a: Seq<u64>, b: Seq<u64>) -> Seq<u64>;

/// Combines two digests into one: SHA-512 over the serialisation of `a`
/// followed by the serialisation of `b`.
/// Relies on sha2::Sha512 (Digest::update, Digest::finalize): the 64-byte
/// result depends on the fed bytes alone.
#[verifier::external_body]
pub fn hash512(a: Hash512, b: Hash512) -> (r: Hash512)
    ensures
        r@ == sha512_pair(a@, b@),
{
    let mut hasher = Sha512::new();
    for w in a.iter() {
        hasher.update(w.to_le_bytes());
    }
    for w in b.iter() {
        hasher.update(w.to_le_bytes());
    }
    let digest = hasher.finalize();
    let mut r = [0u64; 8];
    for i in 0..8 {
        r[i] = u64::from_le_bytes(digest[i * 8..i * 8 + 8].try_into().unwrap());
    }
    r
}

/// A fresh random word for the per-instance salt.
/// Relies on rand::random; nothing is promised of the value.
#[verifier::external_body]
pub fn random_u64() -> u64 {
    rand::random()
}

/// Wall-clock seconds since the Unix epoch, 0 if the clock reads earlier
/// than the epoch. Relies on std::time::SystemTime::now (converted through
/// duration_since and as_secs); nothing is promised of the value.
#[verifier::external_body]
pub fn unix_now_seconds() -> u64 {
    match std::time::SystemTime::now().duration_since(std::time::UNIX_EPOCH) {
        Ok(d) => d.as_secs(),
        Err(_) => 0,
    }
}

} // verus!
