//! Pareto dominance in the shape that the non-dominated sort asks for.

use vstd::prelude::*;
use std::cmp::Ordering;
use non_dominated_sort::DominationOrd;
use crate::objective::Comparison;
use crate::objective::Objective;
use crate::pareto::pareto_comparison;

verus! {

/// Pareto dominance under a list of objectives.
pub struct ParetoDominance<'a, O: Objective> {
    /// The objectives that decide.
    pub objectives: &'a [O],
}

impl<'a, O: Objective> DominationOrd for ParetoDominance<'a, O> {
    type Solution = O::Solution;

    /// `Less` where `a` dominates `b`, `Greater` where `b` dominates `a`,
    /// `Equal` where neither dominates the other.
    fn domination_ord(&self, a: &O::Solution, b: &O::Solution) -> (order: Ordering)
        ensures
            (match crate::pareto::dominance(self.objectives@, a, b) {
                Comparison::Less => order == Ordering::Less,
                Comparison::Equal => order == Ordering::Equal,
                Comparison::Greater => order == Ordering::Greater,
            }),
    {
        match pareto_comparison(self.objectives, a, b) {
            Comparison::Less => Ordering::Less,
            Comparison::Equal => Ordering::Equal,
            Comparison::Greater => Ordering::Greater,
        }
    }
}

} // verus!
