//! Crowding distances as fixed-point numbers.

use vstd::prelude::*;

verus! {

/// The number of units that make up a crowding distance of one: 2^64.
pub const CROWDING_UNIT: u128 = 18446744073709551616;

/// The largest number of units that the shares of all objectives can add
/// up to: 2^127.
pub const CROWDING_CEILING: u128 = 170141183460469231731687303715884105728;

/// A crowding distance: a non-negative fixed-point number with 64 fractional
/// bits, or infinity.
#[derive(Clone, Copy, Debug, PartialEq, Eq, Structural)]
pub enum CrowdingDistance {
    /// A distance of that many units, each 2^-64.
    Finite(u128),
    /// The distance of a solution at the edge of its front.
    Infinite,
}

impl CrowdingDistance {
    /// The sum of two distances. Infinity absorbs every summand, and so
    /// does a sum that no longer fits the finite range.
    pub open spec fn plus(self, other: CrowdingDistance) -> CrowdingDistance {
        match (self, other) {
            (CrowdingDistance::Finite(a), CrowdingDistance::Finite(b)) => {
                if a + b <= u128::MAX {
                    CrowdingDistance::Finite((a + b) as u128)
                } else {
                    CrowdingDistance::Infinite
                }
            },
            _ => CrowdingDistance::Infinite,
        }
    }

    /// Whether `self` is strictly the larger distance.
    pub open spec fn exceeds(self, other: CrowdingDistance) -> bool {
        match (self, other) {
            (CrowdingDistance::Finite(a), CrowdingDistance::Finite(b)) => a > b,
            (CrowdingDistance::Infinite, CrowdingDistance::Finite(_)) => true,
            _ => false,
        }
    }

    /// Adds two distances.
    pub fn accumulate(self, other: CrowdingDistance) -> (sum: CrowdingDistance)
        ensures
            sum == self.plus(other),
    {
        match (self, other) {
            (CrowdingDistance::Finite(a), CrowdingDistance::Finite(b)) => {
                if a <= u128::MAX - b {
                    CrowdingDistance::Finite(a + b)
                } else {
                    CrowdingDistance::Infinite
                }
            },
            _ => CrowdingDistance::Infinite,
        }
    }

    /// Tells whether `self` is strictly larger than `other`.
    pub fn is_larger_than(self, other: CrowdingDistance) -> (larger: bool)
        ensures
            larger == self.exceeds(other),
    {
        match (self, other) {
            (CrowdingDistance::Finite(a), CrowdingDistance::Finite(b)) => a > b,
            (CrowdingDistance::Infinite, CrowdingDistance::Finite(_)) => true,
            _ => false,
        }
    }
}

/// The absolute value of a signed distance.
pub open spec fn magnitude(d: int) -> nat {
    if d >= 0 {
        d as nat
    } else {
        (-d) as nat
    }
}

/// The share of a crowding distance that one objective grants for a
/// neighbour distance `d`, where the front spreads over `spread` and
/// `objectives` objectives are in play: `d / (spread * objectives)`,
/// in units of 2^-64 and rounded down.
pub open spec fn share(d: nat, spread: nat, objectives: nat) -> nat
    recommends
        spread > 0,
        objectives > 0,
{
    (d * CROWDING_UNIT as nat) / (spread * objectives)
}

/// The finite part of a crowding distance, in units; zero for infinity.
pub open spec fn finite_units(distance: CrowdingDistance) -> nat {
    match distance {
        CrowdingDistance::Finite(units) => units as nat,
        CrowdingDistance::Infinite => 0,
    }
}

/// A share for a distance between two values of `i64` is at most the
/// ceiling divided by the number of objectives.
pub proof fn lemma_share_is_bounded(d: nat, spread: nat, objectives: nat)
    requires
        d <= 0x8000_0000_0000_0000,
        spread > 0,
        objectives > 0,
    ensures
        share(d, spread, objectives) <= CROWDING_CEILING as nat / objectives,
        share(d, spread, objectives) <= CROWDING_CEILING,
{
    let numerator = d * CROWDING_UNIT as nat;
    let ceiling = CROWDING_CEILING as nat;
    assert(numerator <= ceiling);
    assert(objectives <= spread * objectives) by (nonlinear_arith)
        requires
            spread >= 1,
            objectives >= 1,
    ;
    vstd::arithmetic::div_mod::lemma_div_is_ordered(
        numerator as int,
        ceiling as int,
        (spread * objectives) as int,
    );
    vstd::arithmetic::div_mod::lemma_div_is_ordered_by_denominator(
        ceiling as int,
        objectives as int,
        (spread * objectives) as int,
    );
    vstd::arithmetic::div_mod::lemma_div_is_ordered_by_denominator(
        ceiling as int,
        1,
        objectives as int,
    );
}

/// Computes the absolute value of a signed distance.
pub fn distance_magnitude(d: i64) -> (m: u64)
    ensures
        m == magnitude(d as int),
{
    if d >= 0 {
        d as u64
    } else if d == i64::MIN {
        9223372036854775808u64
    } else {
        (-d) as u64
    }
}

/// Computes the share that one objective grants.
pub fn crowding_share(d: u64, spread: u64, objectives: usize) -> (units: u128)
    requires
        spread > 0,
        objectives > 0,
    ensures
        units == share(d as nat, spread as nat, objectives as nat),
{
    let numerator: u128 = (d as u128) * CROWDING_UNIT;
    let wide_spread: u128 = spread as u128;
    let wide_count: u128 = objectives as u128;
    assert(0 < wide_spread * wide_count <= 0xffff_ffff_ffff_ffff * 0xffff_ffff_ffff_ffff) by (nonlinear_arith)
        requires
            0 < wide_spread <= 0xffff_ffff_ffff_ffff,
            0 < wide_count <= 0xffff_ffff_ffff_ffff,
    ;
    let denominator: u128 = wide_spread * wide_count;
    numerator / denominator
}

} // verus!
