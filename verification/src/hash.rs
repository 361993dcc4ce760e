//! The deterministic cell hash.
//!
//! Every pseudo-random spatial choice in the sampler — the jittered site of a
//! grid cell and the region assigned to it — derives from one pure
//! multiply-rotate-xor mixer over the cell coordinates and a salt. The same
//! `(x, y, salt)` always yields the same value, so sampling is reproducible.

use vstd::prelude::*;

verus! {

/// Odd 64-bit multiplier (2^64 / golden ratio) used by the mixer.
pub const MIX_MULTIPLIER: u64 = 0x9E3779B97F4A7C15;

/// Salt xor-ed into the seed when a cell's hash picks a region, so that the
/// region choice is independent of the jitter offset drawn from the same cell.
pub const REGION_SALT: u64 = 0x9E3779B97F4A7C15;

/// `h` rotated left by 31 bits.
pub open spec fn rot31(h: u64) -> u64 {
    (h << 31u64) | (h >> 33u64)
}

/// The mixer: multiply, rotate, xor, multiply, rotate.
pub open spec fn mix_spec(x: i32, y: i32, salt: u64) -> u64 {
    let h1 = salt.wrapping_add(x as u64).wrapping_mul(MIX_MULTIPLIER);
    let h2 = (rot31(h1) ^ (y as u64)).wrapping_mul(MIX_MULTIPLIER);
    rot31(h2)
}

/// Mix two cell coordinates and a salt into a 64-bit hash.
pub fn mix(x: i32, y: i32, salt: u64) -> (r: u64)
    ensures
        r == mix_spec(x, y, salt),
{
    let h0: u64 = salt.wrapping_add(x as u64);
    let h1: u64 = h0.wrapping_mul(MIX_MULTIPLIER);
    let h2: u64 = ((h1 << 31) | (h1 >> 33)) ^ (y as u64);
    let h3: u64 = h2.wrapping_mul(MIX_MULTIPLIER);
    (h3 << 31) | (h3 >> 33)
}

} // verus!
