//! Randomness from the operating system, and the error when it gives none.
use vstd::prelude::*;
use rand::rngs::OsRng;
use rand::RngCore;

verus! {

#[verifier::external_type_specification]
#[verifier::external_body]
pub struct ExRandError(rand::Error);

/// The operating system gave no randomness.
#[derive(Debug, Clone, Copy, PartialEq, Eq, Structural)]
pub enum EntropyError {
    Unavailable,
}

/// `try_fill_bytes` of rand's `OsRng` on `n` bytes: `n` bytes from the
/// operating system's random source, or the error it reports. Unlike
/// `fill_bytes`, it does not panic when the source fails.
#[verifier::external_body]
fn os_random_bytes(n: usize) -> (res: Result<Vec<u8>, rand::Error>)
    ensures
        res matches Ok(v) ==> v@.len() == n,
{
    let mut bytes = vec![0u8; n];
    OsRng.try_fill_bytes(&mut bytes)?;
    Ok(bytes)
}

/// `n` random bytes from the operating system; which bytes, or whether the
/// source has any to give, is the operating system's to decide.
pub fn random_bytes(n: usize) -> (res: Result<Vec<u8>, EntropyError>)
    ensures
        res matches Ok(v) ==> v@.len() == n,
{
    match os_random_bytes(n) {
        Ok(v) => Ok(v),
        Err(_) => Err(EntropyError::Unavailable),
    }
}

} // verus!
