//! What holds of every selection.

use vstd::prelude::*;
use crate::crowding_distance::assigned_records;
use crate::crowding_distance::AssignedCrowdingDistance;
use crate::front::FrontView;
use crate::objective::Objective;
use crate::select_nsga::by_descending_crowding;
use crate::select_nsga::lemma_selection_size;
use crate::select_nsga::outcome;
use crate::select_nsga::selection;
use crate::select_nsga::solutions_in;
use crate::select_nsga::target_size;
use crate::select_nsga::SelectionError;

verus! {

/// The solutions of the fronts in front of the one numbered `i` and of
/// that front itself are among those in front of any later front.
pub proof fn lemma_fronts_add_up<S>(fronts: Seq<FrontView<S>>, i: int, j: int)
    requires
        0 <= i < j <= fronts.len(),
    ensures
        solutions_in(fronts.take(i)) + fronts[i].solutions.len() <= solutions_in(fronts.take(j)),
    decreases i,
{
    let tail = fronts.drop_first();
    assert(fronts.take(j).first() == fronts[0]);
    assert(fronts.take(j).drop_first() == tail.take(j - 1));
    if i == 0 {
        assert(solutions_in(fronts.take(0)) == 0);
    } else {
        assert(fronts.take(i).first() == fronts[0]);
        assert(fronts.take(i).drop_first() == tail.take(i - 1));
        lemma_fronts_add_up(tail, i - 1, j - 1);
    }
}

/// Where each front stands in a selection.
///
/// A front that fits the capacity, together with the fronts in front of
/// it, stands in the selection in full, behind those fronts. A front that
/// only partly fits gives its records of largest crowding distance, which
/// fill the selection to the end. Where the fronts in front of a front use
/// the capacity up, the selection ends before that front.
///
/// By [`lemma_fronts_add_up`] at most one front fits partly: every front
/// before it fits, and every front behind it finds the capacity used up.
pub proof fn lemma_selection_coverage<O: Objective>(
    fronts: Seq<FrontView<O::Solution>>,
    objectives: Seq<O>,
    capacity: nat,
    i: int,
)
    requires
        0 <= i < fronts.len(),
    ensures
        ({
            let chosen = selection(fronts, objectives, capacity);
            let before = solutions_in(fronts.take(i));
            let assigned = assigned_records(fronts[i], objectives);
            let size = fronts[i].solutions.len();
            &&& assigned.len() == size
            &&& before + size <= capacity ==> before + size <= chosen.len() && chosen.subrange(
                before as int,
                (before + size) as int,
            ) == assigned
            &&& before < capacity < before + size ==> chosen.len() == capacity && chosen.subrange(
                before as int,
                capacity as int,
            ) == by_descending_crowding(assigned).take(capacity - before)
            &&& capacity <= before ==> chosen.len() == capacity
        }),
    decreases i,
{
    let chosen = selection(fronts, objectives, capacity);
    let first = assigned_records(fronts[0], objectives);
    let tail = fronts.drop_first();
    let assigned = assigned_records(fronts[i], objectives);
    if i == 0 {
        assert(solutions_in(fronts.take(0)) == 0);
        if capacity > 0 && first.len() <= capacity {
            assert(chosen.subrange(0, first.len() as int) =~= first);
        } else if capacity > 0 {
            assert(chosen.subrange(0, capacity as int) =~= chosen);
        } else {
            assert(chosen.subrange(0, 0) =~= Seq::empty());
            if first.len() == 0 {
                assert(first =~= Seq::empty());
            }
        }
    } else {
        assert(fronts.take(i).first() == fronts[0]);
        assert(fronts.take(i).drop_first() == tail.take(i - 1));
        assert(tail[i - 1] == fronts[i]);
        let before = solutions_in(fronts.take(i));
        let size = fronts[i].solutions.len();
        if capacity == 0 {
            if before + size == 0 {
                assert(chosen.subrange(0, 0) =~= assigned);
            }
        } else if first.len() <= capacity {
            let rest = (capacity - first.len()) as nat;
            let inner = selection(tail, objectives, rest);
            let shifted = (before - first.len()) as nat;
            lemma_selection_coverage(tail, objectives, rest, i - 1);
            assert(chosen == first + inner);
            if before + size <= capacity {
                assert(chosen.subrange(before as int, (before + size) as int) =~= inner.subrange(
                    shifted as int,
                    (shifted + size) as int,
                ));
            }
            if before < capacity < before + size {
                assert(chosen.subrange(before as int, capacity as int) =~= inner.subrange(
                    shifted as int,
                    rest as int,
                ));
            }
        }
    }
}

/// A selection holds as many records as are asked for, or as the
/// population has where that is fewer.
pub proof fn lemma_outcome_size<'a, O: Objective>(
    solutions: Seq<O::Solution>,
    n: usize,
    objectives: Seq<O>,
    selected: Seq<AssignedCrowdingDistance<'a, O::Solution>>,
)
    requires
        outcome(solutions, n, objectives) == Ok::<_, SelectionError>(selected),
    ensures
        selected.len() == target_size(n, solutions.len()),
        selected.len() <= n,
        selected.len() <= solutions.len(),
{
    if target_size(n, solutions.len()) > 0 {
        let sorted = crate::non_dominated::ranked(
            crate::non_dominated::front_layout(
                crate::non_dominated::dominance_table(solutions, objectives),
            ),
        );
        lemma_selection_size(
            crate::select_nsga::resolved_fronts::<O::Solution>(solutions, sorted),
            objectives,
            target_size(n, solutions.len()),
        );
    }
}

/// The outcome of a selection is settled by the population, the number
/// asked for and the objectives: two selections from the same three have
/// the same outcome, record by record.
pub proof fn lemma_selection_is_determined<'a, O: Objective>(
    solutions: Seq<O::Solution>,
    n: usize,
    objectives: Seq<O>,
    first: Result<Seq<AssignedCrowdingDistance<'a, O::Solution>>, SelectionError>,
    second: Result<Seq<AssignedCrowdingDistance<'a, O::Solution>>, SelectionError>,
)
    requires
        first == outcome(solutions, n, objectives),
        second == outcome(solutions, n, objectives),
    ensures
        first == second,
{
}

} // verus!
