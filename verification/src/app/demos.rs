//! Pseudo-random pacing of on-screen demos.
use vstd::prelude::*;

verus! {

/// One xorshift step (shifts 13, 7, 17).
pub open spec fn xorshift(x: u64) -> u64 {
    let a = x ^ ((x << 13u64) as u64);
    let b = a ^ (a >> 7u64);
    b ^ ((b << 17u64) as u64)
}

/// Advances the generator and returns its new state.
pub fn next_random(state: &mut u64) -> (r: u64)
    ensures
        r == xorshift(*old(state)),
        *final(state) == r,
{
    let a: u64 = *state ^ (*state << 13u64);
    let b: u64 = a ^ (a >> 7u64);
    let c: u64 = b ^ (b << 17u64);
    *state = c;
    c
}

/// The delay before the next demo, in nanoseconds: a whole number of
/// milliseconds from one to five seconds.
pub fn random_delay(state: &mut u64) -> (r: u64)
    ensures
        *final(state) == xorshift(*old(state)),
        r == (1000 + xorshift(*old(state)) % 4001) * 1_000_000,
        1_000_000_000 <= r <= 5_000_000_000,
{
    let x = next_random(state);
    (1000 + x % 4001) * 1_000_000
}

} // verus!
