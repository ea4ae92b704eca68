//! Objectives over points with integer coordinates.

use vstd::prelude::*;
use crate::objective::Comparison;
use crate::objective::Objective;

verus! {

/// The objective that looks at one coordinate of a point of `N` integer
/// coordinates: the point with the smaller coordinate ranks first, and the
/// distance between two points is the difference of their coordinates.
///
/// An axis that the points do not have ranks all points equal, at
/// distance zero.
#[derive(Clone, Copy, Debug)]
pub struct Coordinate<const N: usize> {
    /// The number of the coordinate, counted from 0.
    pub axis: usize,
}

impl<const N: usize> Coordinate<N> {
    /// The coordinate of `point` that the objective looks at; zero where
    /// the point has no such coordinate.
    pub open spec fn value(&self, point: &[i32; N]) -> int {
        if self.axis < N {
            point@[self.axis as int] as int
        } else {
            0
        }
    }

    /// Reads the coordinate of `point` that the objective looks at.
    pub fn value_of(&self, point: &[i32; N]) -> (v: i32)
        ensures
            v == self.value(point),
    {
        if self.axis < N {
            point[self.axis]
        } else {
            0
        }
    }
}

impl<const N: usize> Objective for Coordinate<N> {
    type Solution = [i32; N];

    open spec fn ranking(&self, a: &[i32; N], b: &[i32; N]) -> Comparison {
        if self.value(a) < self.value(b) {
            Comparison::Less
        } else if self.value(a) > self.value(b) {
            Comparison::Greater
        } else {
            Comparison::Equal
        }
    }

    open spec fn gap(&self, a: &[i32; N], b: &[i32; N]) -> i64 {
        (self.value(a) - self.value(b)) as i64
    }

    fn total_order(&self, a: &[i32; N], b: &[i32; N]) -> (c: Comparison) {
        let left: i32 = self.value_of(a);
        let right: i32 = self.value_of(b);
        if left < right {
            Comparison::Less
        } else if left > right {
            Comparison::Greater
        } else {
            Comparison::Equal
        }
    }

    fn distance(&self, a: &[i32; N], b: &[i32; N]) -> (d: i64) {
        let left: i64 = self.value_of(a) as i64;
        let right: i64 = self.value_of(b) as i64;
        left - right
    }

    proof fn ranking_reflexive(&self, a: &[i32; N]) {
    }

    proof fn ranking_converse(&self, a: &[i32; N], b: &[i32; N]) {
    }

    proof fn ranking_transitive(&self, a: &[i32; N], b: &[i32; N], c: &[i32; N]) {
    }
}

} // verus!
