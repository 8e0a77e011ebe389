//! A ranked-choice, weight-conserving fund-distribution engine.
//!
//! A community funds a proposal, members submit candidate decisions while the
//! proposal is open, rank one another once voting starts, and the fund pool is
//! then split among the ranked candidates along a geometric weight schedule.
//! Shares are kept as exact rationals: integer numerators over the common
//! denominator `n * (2^(n-1) - 1)` for `n` voters, so conservation of the pool
//! is an identity rather than a floating-point approximation.

pub mod contract;
pub mod settlement;
pub mod sums;
pub mod tally;
pub mod types;
pub mod weights;

use vstd::prelude::*;

verus! {

/// Smallest currency units per whole token.
pub const UNIT_SCALE: u128 = 1_000_000_000_000_000_000_000_000;

/// Longest accepted proposal title, in characters.
pub const MAX_TITLE_SIZE: usize = 20;

/// Longest accepted proposal description metadata, in characters.
pub const MAX_METADATA_SIZE: usize = 150;

/// Collateral a member must attach to register, in smallest units.
pub const RESERVED_FUNDS: u128 = 100_000_000_000_000_000_000_000;

/// Bond a proposal owner must attach, and the minimum fund amount,
/// in smallest units.
pub const CREATOR_BOND: u128 = 10_000_000_000_000_000_000_000_000;

/// Converts an amount in smallest units to whole tokens, discarding the
/// fractional part.
pub fn yton(yocto_amount: u128) -> (r: u128)
    ensures
        r == yocto_amount / UNIT_SCALE,
{
    yocto_amount / UNIT_SCALE
}

/// Converts an amount in whole tokens to smallest units.
pub fn ntoy(near_amount: u128) -> (r: u128)
    requires
        near_amount * UNIT_SCALE <= u128::MAX,
    ensures
        r == near_amount * UNIT_SCALE,
{
    near_amount * UNIT_SCALE
}

} // verus!
