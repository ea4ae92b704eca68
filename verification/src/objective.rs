//! The capability through which the selection looks at solutions.

use vstd::prelude::*;

verus! {

/// Outcome of ranking one solution against another on an objective's scale.
#[derive(Clone, Copy, Debug, PartialEq, Eq, Structural)]
pub enum Comparison {
    /// The first solution ranks before the second.
    Less,
    /// Neither solution ranks before the other.
    Equal,
    /// The first solution ranks after the second.
    Greater,
}

/// One objective over solutions of type `Solution`.
///
/// An objective ranks any two solutions and measures how far apart they lie
/// on its scale. The ranking is a strict weak order: the three laws below
/// say so, and every implementation proves them.
pub trait Objective {
    /// The kind of solution that the objective looks at.
    type Solution;

    /// How `a` ranks against `b`.
    spec fn ranking(&self, a: &Self::Solution, b: &Self::Solution) -> Comparison;

    /// The signed distance between `a` and `b` on the objective's scale.
    spec fn gap(&self, a: &Self::Solution, b: &Self::Solution) -> i64;

    /// Ranks `a` against `b`.
    fn total_order(&self, a: &Self::Solution, b: &Self::Solution) -> (c: Comparison)
        ensures
            c == self.ranking(a, b),
    ;

    /// Measures the signed distance between `a` and `b`.
    fn distance(&self, a: &Self::Solution, b: &Self::Solution) -> (d: i64)
        ensures
            d == self.gap(a, b),
    ;

    /// No solution ranks before itself.
    proof fn ranking_reflexive(&self, a: &Self::Solution)
        ensures
            self.ranking(a, a) == Comparison::Equal,
    ;

    /// `a` ranks before `b` exactly when `b` ranks after `a`.
    proof fn ranking_converse(&self, a: &Self::Solution, b: &Self::Solution)
        ensures
            (self.ranking(a, b) == Comparison::Less) == (self.ranking(b, a) == Comparison::Greater),
    ;

    /// "Does not rank after" is transitive.
    proof fn ranking_transitive(&self, a: &Self::Solution, b: &Self::Solution, c: &Self::Solution)
        requires
            self.ranking(a, b) != Comparison::Greater,
            self.ranking(b, c) != Comparison::Greater,
        ensures
            self.ranking(a, c) != Comparison::Greater,
    ;
}

} // verus!
