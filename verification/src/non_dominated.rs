//! The non-dominated sort that splits a population into fronts.

use vstd::prelude::*;
use non_dominated_sort::NonDominatedSort;
use crate::dominance::ParetoDominance;
use crate::objective::Objective;
use crate::pareto::dominates;

verus! {

/// Who dominates whom in a population: the entry at `[i][j]` says whether
/// solution `i` dominates solution `j`.
pub open spec fn dominance_table<O: Objective>(solutions: Seq<O::Solution>, objectives: Seq<O>) -> Seq<
    Seq<bool>,
> {
    Seq::new(
        solutions.len(),
        |i: int|
            Seq::new(solutions.len(), |j: int| dominates(objectives, &solutions[i], &solutions[j])),
    )
}

/// The fronts that the non-dominated sort makes of a population with the
/// given dominance table: for each front, in the order of their ranks, the
/// indices of its solutions.
pub uninterp spec fn front_layout(dominance: Seq<Seq<bool>>) -> Seq<Seq<usize>>;

/// The fronts of `layout`, each with its rank: the first has rank 0, the
/// second rank 1, and so on.
pub open spec fn ranked(layout: Seq<Seq<usize>>) -> Seq<(usize, Seq<usize>)> {
    Seq::new(layout.len(), |k: int| (k as usize, layout[k]))
}

/// What a list of reported fronts holds, as a sequence of ranks and index
/// sequences.
pub open spec fn reported(fronts: Seq<(usize, Vec<usize>)>) -> Seq<(usize, Seq<usize>)> {
    Seq::new(fronts.len(), |k: int| (fronts[k].0, fronts[k].1@))
}

/// Runs `NonDominatedSort::new` of the crate `non_dominated_sort` on the
/// population, with Pareto dominance under `objectives`, and walks through
/// all fronts that its iterator yields, keeping of each its `rank` and the
/// indices of its solutions (`Front::solutions_indices_only`).
///
/// Not proved, but taken from that crate: the sort looks at the
/// population only through the dominance between pairs of solutions, so
/// its fronts are a function of the dominance table; and it numbers the
/// fronts from 0 upwards. Nothing is claimed about which indices the
/// fronts hold: [`crate::select_nsga::select_with_fronts`] tests them.
#[verifier::external_body]
pub(crate) fn non_dominated_fronts<O: Objective>(
    solutions: &[O::Solution],
    objectives: &[O],
) -> (fronts: Vec<(usize, Vec<usize>)>)
    ensures
        reported(fronts@) == ranked(front_layout(dominance_table(solutions@, objectives@))),
{
    let dominance = ParetoDominance { objectives };
    NonDominatedSort::new(solutions, &dominance)
        .map(|front| (front.rank, front.solutions_indices_only()))
        .collect()
}

} // verus!
