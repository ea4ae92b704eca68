//! Pareto fronts as the selection receives them.

use vstd::prelude::*;

verus! {

/// A solution together with its place in the population.
#[derive(Debug)]
pub struct SolutionWithIndex<'a, S> {
    /// The index of the solution in the population.
    pub index: usize,
    /// The solution itself.
    pub solution: &'a S,
}

/// The solutions of one dominance rank.
#[derive(Debug)]
pub struct Front<'a, S> {
    /// The rank of the front; the non-dominated front has rank 0.
    pub rank: usize,
    /// The solutions of the front.
    pub solutions: Vec<SolutionWithIndex<'a, S>>,
}

/// A front as contracts speak of it: its rank and the sequence of its
/// solutions.
pub struct FrontView<'a, S> {
    /// The rank of the front.
    pub rank: usize,
    /// The solutions of the front, in their order.
    pub solutions: Seq<SolutionWithIndex<'a, S>>,
}

impl<'a, S> View for Front<'a, S> {
    type V = FrontView<'a, S>;

    open spec fn view(&self) -> FrontView<'a, S> {
        FrontView { rank: self.rank, solutions: self.solutions@ }
    }
}

impl<'a, S> DeepView for Front<'a, S> {
    type V = FrontView<'a, S>;

    open spec fn deep_view(&self) -> FrontView<'a, S> {
        self@
    }
}

} // verus!
