//! Randomness and the clock.
use rand::{Rng, RngCore};
use std::time::{Duration, SystemTime, SystemTimeError};
use vstd::prelude::*;

verus! {

/// Calls `fill_bytes` of `rand::thread_rng()` on `n` bytes.
///
/// Which bytes come is left open: only their number is stated.
#[verifier::external_body]
pub(crate) fn random_bytes(n: usize) -> (r: Vec<u8>)
    ensures
        r@.len() == n,
{
    let mut bytes = vec![0u8; n];
    rand::thread_rng().fill_bytes(&mut bytes);
    bytes
}

/// Calls `gen_range` of `rand::thread_rng()` on the range from 0 up to `end`.
///
/// Which number of the range comes is left open.
#[verifier::external_body]
pub(crate) fn random_below(end: usize) -> (r: usize)
    requires
        end > 0,
    ensures
        r < end,
{
    rand::thread_rng().gen_range(0..end)
}

#[verifier::external_type_specification]
#[verifier::external_body]
pub struct ExSystemTime(SystemTime);

#[verifier::external_type_specification]
#[verifier::external_body]
pub struct ExSystemTimeError(SystemTimeError);

/// Calls `std::time::SystemTime::now`. Nothing is stated of the time.
#[verifier::external_body]
fn clock() -> SystemTime {
    SystemTime::now()
}

/// Calls `duration_since` of a `std::time::SystemTime` on the Unix epoch; it fails where the time
/// stands before it. Nothing is stated of the result.
#[verifier::external_body]
fn since_epoch(time: &SystemTime) -> Result<Duration, SystemTimeError> {
    time.duration_since(std::time::UNIX_EPOCH)
}

/// Calls `as_secs` of a `std::time::Duration`. Nothing is stated of the number.
#[verifier::external_body]
fn whole_seconds(d: &Duration) -> u64 {
    d.as_secs()
}

/// The whole seconds since the Unix epoch, or 0 where the clock stands before it.
pub(crate) fn unix_seconds() -> (r: u64) {
    match since_epoch(&clock()) {
        Ok(d) => whole_seconds(&d),
        Err(_) => 0,
    }
}

}
