//! Operating-system entropy and wall-clock readings.
use vstd::prelude::*;

verus! {

#[verifier::external_type_specification]
#[verifier::external_body]
pub struct ExGetrandomError(getrandom::Error);

/// Calls `getrandom::fill`, which overwrites `dest` with bytes from the
/// operating system's random source. What the bytes are is left unsaid: they
/// are random. The buffer keeps its length either way.
#[verifier::external_body]
pub fn fill(dest: &mut [u8]) -> (r: Result<(), getrandom::Error>)
    ensures
        final(dest)@.len() == old(dest)@.len(),
{
    getrandom::fill(dest)
}

/// Reads the system clock as milliseconds since the Unix epoch, or `None`
/// when the clock is before the epoch. The reading depends on the time, so
/// nothing is promised of it.
#[verifier::external_body]
pub fn system_millis() -> (r: Option<u128>) {
    std::time::SystemTime::now().duration_since(std::time::UNIX_EPOCH).ok().map(|d| d.as_millis())
}

} // verus!
