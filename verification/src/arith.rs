//! Saturating arithmetic on balances and truncating conversions of counts.

use vstd::prelude::*;

use crate::types::Balance;

verus! {

/// The smaller of two integers.
pub open spec fn smaller(a: int, b: int) -> int {
    if a <= b {
        a
    } else {
        b
    }
}

/// `n`, or the greatest balance where `n` exceeds it.
pub open spec fn saturated(n: int) -> int {
    smaller(n, Balance::MAX as int)
}

/// The remainder of a count modulo two to the power of 32: what is left of it as a `u32`.
pub open spec fn low32(n: int) -> u32 {
    (n % 0x1_0000_0000) as u32
}

/// The sum of two balances, capped at the greatest balance.
pub fn saturating_sum(a: Balance, b: Balance) -> (r: Balance)
    ensures
        r == saturated(a + b),
{
    match a.checked_add(b) {
        Some(sum) => sum,
        None => Balance::MAX,
    }
}

/// The product of two balances, capped at the greatest balance.
pub fn saturating_product(a: Balance, b: Balance) -> (r: Balance)
    ensures
        r == saturated(a * b),
{
    match a.checked_mul(b) {
        Some(product) => product,
        None => Balance::MAX,
    }
}

/// A count as a `u32`, without the bits that do not fit.
pub fn count_as_u32(n: usize) -> (r: u32)
    ensures
        r == low32(n as int),
{
    let wide: u64 = n as u64;
    assert(wide as u32 == (wide % 0x1_0000_0000) as u32) by (bit_vector);
    wide as u32
}

} // verus!
