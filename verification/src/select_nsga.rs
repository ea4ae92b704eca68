//! Selection of the next generation, front by front.

use vstd::prelude::*;
use crate::crowding_distance::assign_crowding_distance;
use crate::crowding_distance::assigned_records;
use crate::crowding_distance::AssignedCrowdingDistance;
use crate::front::Front;
use crate::front::FrontView;
use crate::front::SolutionWithIndex;
use crate::non_dominated::dominance_table;
use crate::non_dominated::front_layout;
use crate::non_dominated::non_dominated_fronts;
use crate::non_dominated::ranked;
use crate::non_dominated::reported;
use crate::objective::Objective;
use crate::stable_sort::first_handles;
use crate::stable_sort::handles_in_order;
use crate::stable_sort::sort_stably;
use crate::stable_sort::stably_sorted;
use crate::stable_sort::strict_weak_order;
use crate::stable_sort::Precedence;

verus! {

/// The order that truncation puts the places of `records` in: one place
/// precedes another where its record has the larger crowding distance.
pub open spec fn by_crowding<S>(records: Seq<AssignedCrowdingDistance<S>>) -> spec_fn(
    usize,
    usize,
) -> bool {
    |a: usize, b: usize|
        records[a as int].crowding_distance.exceeds(records[b as int].crowding_distance)
}

/// The truncation order is a strict weak order.
pub proof fn lemma_by_crowding_is_strict_weak<S>(records: Seq<AssignedCrowdingDistance<S>>)
    ensures
        strict_weak_order(by_crowding(records)),
{
}

/// `records` by descending crowding distance, records of equal distance
/// staying in the order in which they came.
pub open spec fn by_descending_crowding<'a, S>(
    records: Seq<AssignedCrowdingDistance<'a, S>>,
) -> Seq<AssignedCrowdingDistance<'a, S>> {
    let order = stably_sorted(by_crowding(records), first_handles(records.len()));
    Seq::new(records.len(), |place: int| records[order[place] as int])
}

/// The records that are selected from `fronts` where `capacity` solutions
/// are wanted.
///
/// Fronts are taken in their order. A front that fits the capacity left
/// is taken whole, in the order in which its crowding distances were
/// assigned. The first front that does not fit gives its records of
/// largest crowding distance, as many as still fit, and ends the selection.
pub open spec fn selection<'a, O: Objective>(
    fronts: Seq<FrontView<'a, O::Solution>>,
    objectives: Seq<O>,
    capacity: nat,
) -> Seq<AssignedCrowdingDistance<'a, O::Solution>>
    decreases fronts.len(),
{
    if fronts.len() == 0 || capacity == 0 {
        Seq::empty()
    } else {
        let assigned = assigned_records(fronts.first(), objectives);
        if assigned.len() > capacity {
            by_descending_crowding(assigned).take(capacity as int)
        } else {
            assigned + selection(
                fronts.drop_first(),
                objectives,
                (capacity - assigned.len()) as nat,
            )
        }
    }
}

/// Decides the truncation order over the places of a list of records.
struct ByCrowding<'a, 'b, S> {
    records: &'a Vec<AssignedCrowdingDistance<'b, S>>,
}

impl<'a, 'b, S> Precedence for ByCrowding<'a, 'b, S> {
    closed spec fn knows(&self, handle: usize) -> bool {
        handle < self.records@.len()
    }

    closed spec fn relation(&self) -> spec_fn(usize, usize) -> bool {
        by_crowding(self.records@)
    }

    fn comes_before(&self, a: usize, b: usize) -> (before: bool) {
        self.records[a].crowding_distance.is_larger_than(self.records[b].crowding_distance)
    }
}

/// The `keep` records of largest crowding distance, largest first.
fn most_crowded<'a, S>(records: &Vec<AssignedCrowdingDistance<'a, S>>, keep: usize) -> (kept: Vec<
    AssignedCrowdingDistance<'a, S>,
>)
    requires
        keep <= records@.len(),
    ensures
        kept@ == by_descending_crowding(records@).take(keep as int),
{
    let mut order: Vec<usize> = handles_in_order(records.len());
    let by = ByCrowding { records };
    proof {
        lemma_by_crowding_is_strict_weak(records@);
    }
    sort_stably(&mut order, &by);
    proof {
        crate::stable_sort::lemma_sorted_arranges(
            by_crowding(records@),
            first_handles(records@.len()),
            records@.len(),
        );
        crate::stable_sort::lemma_arrangement(order@, records@.len());
    }
    let mut kept: Vec<AssignedCrowdingDistance<'a, S>> = Vec::new();
    let mut place: usize = 0;
    while place < keep
        invariant
            place <= keep <= records@.len(),
            order@ == stably_sorted(by_crowding(records@), first_handles(records@.len())),
            order@.len() == records@.len(),
            forall|i: int| 0 <= i < order@.len() ==> #[trigger] order@[i] < records@.len(),
            kept@.len() == place,
            forall|i: int| 0 <= i < place ==> #[trigger] kept@[i] == records@[order@[i] as int],
        decreases keep - place,
    {
        let record = &records[order[place]];
        kept.push(
            AssignedCrowdingDistance {
                index: record.index,
                solution: record.solution,
                rank: record.rank,
                crowding_distance: record.crowding_distance,
            },
        );
        place = place + 1;
    }
    assert(kept@ =~= by_descending_crowding(records@).take(keep as int));
    kept
}

/// Selects `n` solutions from `fronts`, or all of them where there are
/// fewer.
///
/// Whole fronts are taken in their order while they fit. The first front
/// that does not fit gives its solutions of largest crowding distance.
/// No front behind it is looked at.
pub fn select_from_fronts<'a, O: Objective>(
    fronts: &[Front<'a, O::Solution>],
    n: usize,
    multi_objective: &[O],
) -> (selected: Vec<AssignedCrowdingDistance<'a, O::Solution>>)
    ensures
        selected@ == selection(fronts.deep_view(), multi_objective@, n as nat),
{
    let mut selected: Vec<AssignedCrowdingDistance<'a, O::Solution>> = Vec::new();
    let mut missing: usize = n;
    let mut next: usize = 0;
    let ghost views = fronts.deep_view();
    proof {
        assert(views.skip(0) == views);
    }
    while next < fronts.len() && missing > 0
        invariant
            next <= fronts@.len(),
            views == fronts.deep_view(),
            views.len() == fronts@.len(),
            selected@ + selection(views.skip(next as int), multi_objective@, missing as nat)
                == selection(views, multi_objective@, n as nat),
        decreases fronts@.len() - next,
    {
        let ghost rest = views.skip(next as int);
        proof {
            assert(rest.first() == fronts@[next as int]@);
            assert(rest.drop_first() == views.skip(next + 1));
        }
        let (mut assigned, _) = assign_crowding_distance(&fronts[next], multi_objective);
        if assigned.len() > missing {
            let mut kept = most_crowded(&assigned, missing);
            selected.append(&mut kept);
            missing = 0;
        } else {
            missing = missing - assigned.len();
            proof {
                let tail = selection(views.skip(next + 1), multi_objective@, missing as nat);
                assert(selected@ + (assigned@ + tail) == (selected@ + assigned@) + tail);
            }
            selected.append(&mut assigned);
        }
        next = next + 1;
    }
    selected
}

/// The fronts that reported ranks and indices stand for in a population.
pub open spec fn resolved_fronts<'a, S>(
    solutions: Seq<S>,
    sorted: Seq<(usize, Seq<usize>)>,
) -> Seq<FrontView<'a, S>> {
    Seq::new(
        sorted.len(),
        |k: int|
            FrontView {
                rank: sorted[k].0,
                solutions: Seq::new(
                    sorted[k].1.len(),
                    |j: int|
                        SolutionWithIndex {
                            index: sorted[k].1[j],
                            solution: &solutions[sorted[k].1[j] as int],
                        },
                ),
            },
    )
}

/// Whether every reported index is one of a population of that size.
pub open spec fn indices_in_range(sorted: Seq<(usize, Seq<usize>)>, population: nat) -> bool {
    forall|k: int, j: int|
        0 <= k < sorted.len() && 0 <= j < sorted[k].1.len() ==> #[trigger] sorted[k].1[j]
            < population
}

/// The number of solutions in all of `fronts`.
pub open spec fn solutions_in<S>(fronts: Seq<FrontView<S>>) -> nat
    decreases fronts.len(),
{
    if fronts.len() == 0 {
        0
    } else {
        fronts.first().solutions.len() + solutions_in(fronts.drop_first())
    }
}

/// The selection holds as many records as are wanted, or every solution
/// of the fronts where they are fewer.
pub proof fn lemma_selection_size<O: Objective>(
    fronts: Seq<FrontView<O::Solution>>,
    objectives: Seq<O>,
    capacity: nat,
)
    ensures
        selection(fronts, objectives, capacity).len() == if capacity <= solutions_in(fronts) {
            capacity
        } else {
            solutions_in(fronts)
        },
    decreases fronts.len(),
{
    if fronts.len() > 0 && capacity > 0 {
        let assigned = assigned_records(fronts.first(), objectives);
        if assigned.len() <= capacity {
            lemma_selection_size(fronts.drop_first(), objectives, (capacity - assigned.len()) as nat);
        }
    }
}

/// Why a selection could not be made.
#[derive(Clone, Copy, Debug, PartialEq, Eq, Structural)]
pub enum SelectionError {
    /// A front names a solution that the population does not have.
    IndexOutOfRange,
    /// The fronts together hold fewer solutions than are to be selected.
    TooFewSolutions,
}

/// The number of solutions to select where `n` are asked for: `n`, or
/// the size of the population where that is smaller.
pub open spec fn target_size(n: usize, population: nat) -> nat {
    if n <= population {
        n as nat
    } else {
        population
    }
}

/// What a selection returns, with the records as a sequence.
pub open spec fn outcome_view<'a, S>(
    result: Result<Vec<AssignedCrowdingDistance<'a, S>>, SelectionError>,
) -> Result<Seq<AssignedCrowdingDistance<'a, S>>, SelectionError> {
    match result {
        Ok(selected) => Ok(selected@),
        Err(error) => Err(error),
    }
}

/// The outcome of selecting `n` solutions of a population from the
/// fronts that `sorted` reports.
///
/// It is an error for a front to name a solution that the population
/// does not have; failing that, for the fronts to hold fewer solutions
/// than are to be selected. Otherwise the outcome is the [`selection`]
/// from these fronts.
pub open spec fn outcome_with_fronts<'a, O: Objective>(
    solutions: Seq<O::Solution>,
    n: usize,
    objectives: Seq<O>,
    sorted: Seq<(usize, Seq<usize>)>,
) -> Result<Seq<AssignedCrowdingDistance<'a, O::Solution>>, SelectionError> {
    let fronts = resolved_fronts(solutions, sorted);
    let target = target_size(n, solutions.len());
    if !indices_in_range(sorted, solutions.len()) {
        Err(SelectionError::IndexOutOfRange)
    } else if solutions_in(fronts) < target {
        Err(SelectionError::TooFewSolutions)
    } else {
        Ok(selection(fronts, objectives, target))
    }
}

/// The outcome of selecting `n` solutions of a population.
///
/// Where nothing is to be selected, nothing is selected. Otherwise the
/// outcome is the one from the fronts that the non-dominated sort makes of
/// the population under Pareto dominance.
pub open spec fn outcome<'a, O: Objective>(
    solutions: Seq<O::Solution>,
    n: usize,
    objectives: Seq<O>,
) -> Result<Seq<AssignedCrowdingDistance<'a, O::Solution>>, SelectionError> {
    if target_size(n, solutions.len()) == 0 {
        Ok(Seq::empty())
    } else {
        outcome_with_fronts(
            solutions,
            n,
            objectives,
            ranked(front_layout(dominance_table(solutions, objectives))),
        )
    }
}

/// Looks up the solutions that reported fronts name.
fn resolve_fronts<'a, S>(solutions: &'a [S], sorted: &Vec<(usize, Vec<usize>)>) -> (fronts: Option<
    Vec<Front<'a, S>>,
>)
    ensures
        fronts.is_some() == indices_in_range(reported(sorted@), solutions@.len()),
        fronts matches Some(found) ==> found.deep_view() == resolved_fronts(
            solutions@,
            reported(sorted@),
        ),
{
    let ghost wanted = resolved_fronts(solutions@, reported(sorted@));
    let mut fronts: Vec<Front<'a, S>> = Vec::new();
    let mut next: usize = 0;
    while next < sorted.len()
        invariant
            next <= sorted@.len(),
            wanted == resolved_fronts(solutions@, reported(sorted@)),
            fronts@.len() == next,
            forall|k: int| 0 <= k < next ==> (#[trigger] fronts@[k])@ == wanted[k],
            forall|k: int, j: int|
                0 <= k < next && 0 <= j < sorted@[k].1@.len() ==> #[trigger] sorted@[k].1@[j]
                    < solutions@.len(),
        decreases sorted@.len() - next,
    {
        let indices = &sorted[next].1;
        let mut members: Vec<SolutionWithIndex<'a, S>> = Vec::new();
        let mut at: usize = 0;
        while at < indices.len()
            invariant
                next < sorted@.len(),
                *indices == sorted@[next as int].1,
                at <= indices@.len(),
                wanted == resolved_fronts(solutions@, reported(sorted@)),
                members@.len() == at,
                forall|j: int| 0 <= j < at ==> #[trigger] indices@[j] < solutions@.len(),
                forall|j: int|
                    0 <= j < at ==> #[trigger] members@[j] == wanted[next as int].solutions[j],
            decreases indices@.len() - at,
        {
            let index: usize = indices[at];
            if index >= solutions.len() {
                proof {
                    assert(reported(sorted@)[next as int].1[at as int] == index);
                }
                return None;
            }
            members.push(SolutionWithIndex { index, solution: &solutions[index] });
            at = at + 1;
        }
        let front = Front { rank: sorted[next].0, solutions: members };
        proof {
            assert(front@.solutions =~= wanted[next as int].solutions);
        }
        fronts.push(front);
        next = next + 1;
    }
    proof {
        assert(fronts.deep_view() =~= wanted);
        assert forall|k: int, j: int|
            0 <= k < reported(sorted@).len() && 0 <= j < reported(sorted@)[k].1.len() implies #[trigger] reported(
            sorted@,
        )[k].1[j] < solutions@.len() by {
            assert(sorted@[k].1@[j] < solutions@.len());
        }
    }
    Some(fronts)
}

/// Selects `n` solutions of a population, or all of them where it has
/// fewer, from the fronts that a non-dominated sort has reported.
///
/// `sorted` holds for each front its rank and the indices of its
/// solutions in `solutions`. The selection fails where a front names a
/// solution that the population does not have, and where the fronts
/// together hold fewer solutions than are to be selected.
pub fn select_with_fronts<'a, O: Objective>(
    solutions: &'a [O::Solution],
    n: usize,
    multi_objective: &[O],
    sorted: &Vec<(usize, Vec<usize>)>,
) -> (result: Result<Vec<AssignedCrowdingDistance<'a, O::Solution>>, SelectionError>)
    ensures
        outcome_view(result) == outcome_with_fronts(
            solutions@,
            n,
            multi_objective@,
            reported(sorted@),
        ),
        result matches Ok(selected) ==> selected@.len() == target_size(n, solutions@.len()),
{
    let target: usize = if n <= solutions.len() {
        n
    } else {
        solutions.len()
    };
    match resolve_fronts(solutions, sorted) {
        None => Err(SelectionError::IndexOutOfRange),
        Some(fronts) => {
            let selected = select_from_fronts(fronts.as_slice(), target, multi_objective);
            proof {
                lemma_selection_size(fronts.deep_view(), multi_objective@, target as nat);
            }
            if selected.len() < target {
                Err(SelectionError::TooFewSolutions)
            } else {
                Ok(selected)
            }
        },
    }
}

/// Selection in the manner of NSGA-II.
///
/// The population is sorted into Pareto fronts. As many whole fronts as
/// fit go into the result, best front first. The first front that does not
/// fit gives its solutions of largest crowding distance, until the result
/// holds exactly as many solutions as were asked for.
pub struct SelectNSGA;

impl SelectNSGA {
    /// Selects `n` solutions of `solutions`, or all of them where there
    /// are fewer, and tells the rank and the crowding distance of each.
    ///
    /// Where nothing is to be selected the population is not sorted.
    /// Otherwise it is sorted into fronts by Pareto dominance under
    /// `multi_objective`, and the selection is made from those fronts as
    /// [`select_with_fronts`] makes it.
    pub fn select_and_rank<'a, O: Objective>(
        &self,
        solutions: &'a [O::Solution],
        n: usize,
        multi_objective: &[O],
    ) -> (result: Result<Vec<AssignedCrowdingDistance<'a, O::Solution>>, SelectionError>)
        ensures
            outcome_view(result) == outcome(solutions@, n, multi_objective@),
            result matches Ok(selected) ==> selected@.len() == target_size(n, solutions@.len()),
    {
        if n == 0 || solutions.len() == 0 {
            return Ok(Vec::new());
        }
        let sorted = non_dominated_fronts(solutions, multi_objective);
        select_with_fronts(solutions, n, multi_objective, &sorted)
    }
}

} // verus!
