//! Numbers and bytes that come by chance, from `fastrand` and from `ring`.

use vstd::prelude::*;

verus! {

/// Calls `fastrand::u64` on a range with both ends. It returns a number of the range; which one is
/// chance.
#[verifier::external_body]
pub(crate) fn random_u64(lo: u64, hi: u64) -> (r: u64)
    requires
        lo <= hi,
    ensures
        lo <= r <= hi,
{
    fastrand::u64(lo..=hi)
}

/// Calls `fastrand::u16` on a range with both ends. It returns a number of the range; which one is
/// chance.
#[verifier::external_body]
pub(crate) fn random_u16(lo: u16, hi: u16) -> (r: u16)
    requires
        lo <= hi,
    ensures
        lo <= r <= hi,
{
    fastrand::u16(lo..=hi)
}

/// Calls `fastrand::usize` on a range with both ends. It returns a number of the range; which one is
/// chance.
#[verifier::external_body]
pub(crate) fn random_usize(lo: usize, hi: usize) -> (r: usize)
    requires
        lo <= hi,
    ensures
        lo <= r <= hi,
{
    fastrand::usize(lo..=hi)
}

/// Calls `fastrand::u8` on the full range. The byte is chance: nothing is claimed of it.
#[verifier::external_body]
fn random_byte() -> (r: u8) {
    fastrand::u8(..)
}

/// Calls `SecureRandom::fill` of `ring` for `n` bytes of the system's source. It fills all of them or
/// fails; neither the bytes nor when it fails is claimed.
#[verifier::external_body]
pub(crate) fn secure_bytes(n: usize) -> (r: Option<Vec<u8>>)
    ensures
        r matches Some(b) ==> b@.len() == n,
{
    let mut out: Vec<u8> = vec![0u8; n];
    match ring::rand::SecureRandom::fill(&ring::rand::SystemRandom::new(), &mut out) {
        Ok(()) => Some(out),
        Err(_) => None,
    }
}

/// `n` bytes, each of which is chance.
pub(crate) fn random_bytes(n: usize) -> (r: Vec<u8>)
    ensures
        r@.len() == n,
{
    let mut out: Vec<u8> = Vec::new();
    while out.len() < n
        invariant
            out@.len() <= n,
        decreases n - out@.len(),
    {
        let b: u8 = random_byte();
        out.push(b);
    }
    out
}

} // verus!
