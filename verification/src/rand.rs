//! Random bytes from the system's generator.

use vstd::prelude::*;
use ring::rand::SecureRandom;

verus! {

/// `n` random bytes, or nothing where the system's generator fails.
///
/// This calls `fill` of ring's `SystemRandom`. Nothing is claimed of the
/// bytes but their number.
#[verifier::external_body]
pub(crate) fn rand_bytes(n: usize) -> (r: Option<Vec<u8>>)
    ensures
        r matches Some(v) ==> v@.len() == n,
{
    let mut v = vec![0u8; n];
    ring::rand::SystemRandom::new().fill(&mut v).ok()?;
    Some(v)
}

} // verus!
