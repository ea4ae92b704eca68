//! What holds of the crowding distances of every front.

use vstd::prelude::*;
use crate::crowding_distance::accumulated;
use crate::crowding_distance::arrangement;
use crate::crowding_distance::by_objective;
use crate::crowding_distance::contribution;
use crate::crowding_distance::lemma_arrangement_arranges;
use crate::crowding_distance::lemma_by_objective_is_strict_weak;
use crate::crowding_distance::lemma_contribution_at;
use crate::crowding_distance::spread;
use crate::front::FrontView;
use crate::measure::finite_units;
use crate::measure::lemma_share_is_bounded;
use crate::measure::magnitude;
use crate::measure::CrowdingDistance;
use crate::measure::CROWDING_CEILING;
use crate::objective::Comparison;
use crate::objective::Objective;
use crate::stable_sort::lemma_arrangement;
use crate::stable_sort::lemma_sorted_is_ascending;

verus! {

/// A crowding distance never shrinks as more objectives are taken in.
pub proof fn lemma_accumulation_never_shrinks<O: Objective>(
    front: FrontView<O::Solution>,
    objectives: Seq<O>,
    passes: nat,
    later: nat,
    position: usize,
)
    requires
        passes <= later,
    ensures
        !accumulated(front, objectives, passes, position).exceeds(
            accumulated(front, objectives, later, position),
        ),
    decreases later,
{
    if passes < later {
        lemma_accumulation_never_shrinks(front, objectives, passes, (later - 1) as nat, position);
    }
}

/// A crowding distance that has become infinite stays infinite.
pub proof fn lemma_infinite_is_kept<O: Objective>(
    front: FrontView<O::Solution>,
    objectives: Seq<O>,
    passes: nat,
    later: nat,
    position: usize,
)
    requires
        passes <= later,
        accumulated(front, objectives, passes, position) == CrowdingDistance::Infinite,
    ensures
        accumulated(front, objectives, later, position) == CrowdingDistance::Infinite,
{
    lemma_accumulation_never_shrinks(front, objectives, passes, later, position);
}

/// The two solutions that an objective puts first and last in a front are
/// a least and a greatest solution under that objective, and their crowding
/// distances are infinite: from that objective's pass on, and so in the end.
pub proof fn lemma_extremes_are_infinite<O: Objective>(
    front: FrontView<O::Solution>,
    objectives: Seq<O>,
    pass: nat,
)
    requires
        0 < front.solutions.len() <= usize::MAX,
        pass < objectives.len(),
    ensures
        ({
            let order = arrangement(front, objectives, pass + 1);
            let least = front.solutions[order.first() as int].solution;
            let greatest = front.solutions[order.last() as int].solution;
            &&& order.len() == front.solutions.len()
            &&& order.first() < front.solutions.len()
            &&& order.last() < front.solutions.len()
            &&& forall|p: int|
                0 <= p < front.solutions.len() ==> #[trigger] objectives[pass as int].ranking(
                    front.solutions[p].solution,
                    least,
                ) != Comparison::Less
            &&& forall|p: int|
                0 <= p < front.solutions.len() ==> #[trigger] objectives[pass as int].ranking(
                    greatest,
                    front.solutions[p].solution,
                ) != Comparison::Less
            &&& contribution(front, objectives, pass, order.first()) == CrowdingDistance::Infinite
            &&& contribution(front, objectives, pass, order.last()) == CrowdingDistance::Infinite
            &&& accumulated(front, objectives, objectives.len(), order.first())
                == CrowdingDistance::Infinite
            &&& accumulated(front, objectives, objectives.len(), order.last())
                == CrowdingDistance::Infinite
        }),
{
    let len = front.solutions.len();
    let objective = objectives[pass as int];
    let precedes = by_objective(objective, front);
    let order = arrangement(front, objectives, pass + 1);
    let least = front.solutions[order.first() as int].solution;
    let greatest = front.solutions[order.last() as int].solution;
    lemma_arrangement_arranges(front, objectives, pass + 1);
    lemma_arrangement(order, len);
    lemma_by_objective_is_strict_weak(objective, front);
    lemma_sorted_is_ascending(precedes, arrangement(front, objectives, pass));
    assert forall|p: int| 0 <= p < len implies #[trigger] objective.ranking(
        front.solutions[p].solution,
        least,
    ) != Comparison::Less by {
        assert(order.contains(p as usize));
        let place = order.index_of(p as usize);
        assert(0 <= place < len && order[place] == p);
        if place > 0 {
            assert(!precedes(order[place], order[0]));
        } else {
            objective.ranking_reflexive(least);
        }
    }
    assert forall|p: int| 0 <= p < len implies #[trigger] objective.ranking(
        greatest,
        front.solutions[p].solution,
    ) != Comparison::Less by {
        assert(order.contains(p as usize));
        let place = order.index_of(p as usize);
        assert(0 <= place < len && order[place] == p);
        if place < len - 1 {
            assert(!precedes(order[len - 1], order[place]));
        } else {
            objective.ranking_reflexive(greatest);
        }
    }
    lemma_contribution_at(front, objectives, pass, 0);
    lemma_contribution_at(front, objectives, pass, len - 1);
    lemma_infinite_is_kept(front, objectives, pass + 1, objectives.len(), order.first());
    lemma_infinite_is_kept(front, objectives, pass + 1, objectives.len(), order.last());
}

/// A solution that an objective ranks before every other solution of the
/// front stands first under that objective, and one that it ranks after
/// every other stands last: by [`lemma_extremes_are_infinite`] the
/// crowding distance of either is infinite.
pub proof fn lemma_sole_extremes_stand_at_the_ends<O: Objective>(
    front: FrontView<O::Solution>,
    objectives: Seq<O>,
    pass: nat,
    position: usize,
)
    requires
        front.solutions.len() <= usize::MAX,
        pass < objectives.len(),
        position < front.solutions.len(),
    ensures
        (forall|q: int|
            0 <= q < front.solutions.len() && q != position
                ==> #[trigger] objectives[pass as int].ranking(
                front.solutions[position as int].solution,
                front.solutions[q].solution,
            ) == Comparison::Less) ==> arrangement(front, objectives, pass + 1).first()
            == position,
        (forall|q: int|
            0 <= q < front.solutions.len() && q != position
                ==> #[trigger] objectives[pass as int].ranking(
                front.solutions[q].solution,
                front.solutions[position as int].solution,
            ) == Comparison::Less) ==> arrangement(front, objectives, pass + 1).last() == position,
{
    let len = front.solutions.len();
    let objective = objectives[pass as int];
    let precedes = by_objective(objective, front);
    let order = arrangement(front, objectives, pass + 1);
    let here = front.solutions[position as int].solution;
    lemma_arrangement_arranges(front, objectives, pass + 1);
    lemma_arrangement(order, len);
    lemma_by_objective_is_strict_weak(objective, front);
    lemma_sorted_is_ascending(precedes, arrangement(front, objectives, pass));
    assert(order.contains(position));
    let place = order.index_of(position);
    assert(0 <= place < len && order[place] == position);
    if forall|q: int|
        0 <= q < len && q != position ==> #[trigger] objective.ranking(
            here,
            front.solutions[q].solution,
        ) == Comparison::Less {
        if place > 0 {
            let other = order[0];
            assert(!precedes(order[place], order[0]));
            assert(objective.ranking(here, front.solutions[other as int].solution)
                == Comparison::Less);
        }
    }
    if forall|q: int|
        0 <= q < len && q != position ==> #[trigger] objective.ranking(
            front.solutions[q].solution,
            here,
        ) == Comparison::Less {
        if place < len - 1 {
            let other = order[len - 1];
            assert(!precedes(order[len - 1], order[place]));
            assert(objective.ranking(front.solutions[other as int].solution, here)
                == Comparison::Less);
        }
    }
}

/// An objective under which no two solutions of a front lie apart adds
/// nothing to the crowding distance of a solution that it puts neither
/// first nor last.
pub proof fn lemma_zero_spread_adds_nothing<O: Objective>(
    front: FrontView<O::Solution>,
    objectives: Seq<O>,
    pass: nat,
    place: int,
)
    requires
        front.solutions.len() <= usize::MAX,
        pass < objectives.len(),
        0 < place < front.solutions.len() - 1,
        forall|p: int, q: int|
            0 <= p < front.solutions.len() && 0 <= q < front.solutions.len()
                ==> #[trigger] objectives[pass as int].gap(
                front.solutions[p].solution,
                front.solutions[q].solution,
            ) == 0,
    ensures
        ({
            let position = arrangement(front, objectives, pass + 1)[place];
            &&& spread(front, objectives, pass) == 0
            &&& contribution(front, objectives, pass, position) == CrowdingDistance::Finite(0)
            &&& accumulated(front, objectives, pass + 1, position) == accumulated(
                front,
                objectives,
                pass,
                position,
            )
        }),
{
    let order = arrangement(front, objectives, pass + 1);
    lemma_arrangement_arranges(front, objectives, pass + 1);
    lemma_arrangement(order, front.solutions.len());
    assert(objectives[pass as int].gap(
        front.solutions[order.first() as int].solution,
        front.solutions[order.last() as int].solution,
    ) == 0);
    lemma_contribution_at(front, objectives, pass, place);
}

/// Whether one of the first `passes` objectives gives infinity to the
/// solution at `position`.
pub open spec fn made_infinite<O: Objective>(
    front: FrontView<O::Solution>,
    objectives: Seq<O>,
    passes: nat,
    position: usize,
) -> bool
    decreases passes,
{
    passes > 0 && (made_infinite(front, objectives, (passes - 1) as nat, position) || contribution(
        front,
        objectives,
        (passes - 1) as nat,
        position,
    ) == CrowdingDistance::Infinite)
}

/// The sum of the finite shares that the first `passes` objectives give to
/// the solution at `position`, in units.
pub open spec fn sum_of_shares<O: Objective>(
    front: FrontView<O::Solution>,
    objectives: Seq<O>,
    passes: nat,
    position: usize,
) -> nat
    decreases passes,
{
    if passes == 0 {
        0
    } else {
        sum_of_shares(front, objectives, (passes - 1) as nat, position) + finite_units(
            contribution(front, objectives, (passes - 1) as nat, position),
        )
    }
}

/// What one objective adds is infinity, or at most the ceiling divided by
/// the number of objectives.
pub proof fn lemma_contribution_is_bounded<O: Objective>(
    front: FrontView<O::Solution>,
    objectives: Seq<O>,
    pass: nat,
    position: usize,
)
    requires
        pass < objectives.len(),
    ensures
        finite_units(contribution(front, objectives, pass, position)) <= CROWDING_CEILING as nat
            / objectives.len(),
{
    reveal(contribution);
    let order = arrangement(front, objectives, pass + 1);
    let place = order.index_of(position);
    let width = spread(front, objectives, pass);
    if !(place == 0 || place == order.len() - 1) && width != 0 {
        let d = magnitude(
            objectives[pass as int].gap(
                front.solutions[order[place + 1] as int].solution,
                front.solutions[order[place - 1] as int].solution,
            ) as int,
        );
        lemma_share_is_bounded(d, width, objectives.len());
    }
}

/// The crowding distance of a solution is the sum of what the objectives
/// add to it: infinity where one of them adds infinity, and else the sum
/// of their shares, which stays below the ceiling of the finite range.
pub proof fn lemma_accumulated_is_sum<O: Objective>(
    front: FrontView<O::Solution>,
    objectives: Seq<O>,
    passes: nat,
    position: usize,
)
    requires
        passes <= objectives.len(),
    ensures
        sum_of_shares(front, objectives, passes, position) <= CROWDING_CEILING,
        accumulated(front, objectives, passes, position) == if made_infinite(
            front,
            objectives,
            passes,
            position,
        ) {
            CrowdingDistance::Infinite
        } else {
            CrowdingDistance::Finite(sum_of_shares(front, objectives, passes, position) as u128)
        },
{
    lemma_sum_of_shares_is_bounded(front, objectives, passes, position);
    lemma_accumulated_is_sum_below(front, objectives, passes, position);
}

/// The shares of the first `passes` objectives add up to no more than as
/// many times the largest share.
proof fn lemma_sum_of_shares_is_bounded<O: Objective>(
    front: FrontView<O::Solution>,
    objectives: Seq<O>,
    passes: nat,
    position: usize,
)
    requires
        passes <= objectives.len(),
    ensures
        objectives.len() > 0 ==> sum_of_shares(front, objectives, passes, position) <= passes * (
        CROWDING_CEILING as nat / objectives.len()),
        sum_of_shares(front, objectives, passes, position) <= CROWDING_CEILING,
    decreases passes,
{
    if passes > 0 {
        let count = objectives.len();
        let largest = CROWDING_CEILING as nat / count;
        let earlier = (passes - 1) as nat;
        lemma_sum_of_shares_is_bounded(front, objectives, earlier, position);
        lemma_contribution_is_bounded(front, objectives, earlier, position);
        assert(earlier * largest + largest == passes * largest) by (nonlinear_arith)
            requires
                earlier + 1 == passes,
        ;
        assert(passes * largest <= count * largest) by (nonlinear_arith)
            requires
                passes <= count,
        ;
        vstd::arithmetic::div_mod::lemma_remainder_lower(CROWDING_CEILING as int, count as int);
        assert(count * largest == largest * count) by (nonlinear_arith);
    }
}

/// The induction behind [`lemma_accumulated_is_sum`].
proof fn lemma_accumulated_is_sum_below<O: Objective>(
    front: FrontView<O::Solution>,
    objectives: Seq<O>,
    passes: nat,
    position: usize,
)
    requires
        passes <= objectives.len(),
    ensures
        accumulated(front, objectives, passes, position) == if made_infinite(
            front,
            objectives,
            passes,
            position,
        ) {
            CrowdingDistance::Infinite
        } else {
            CrowdingDistance::Finite(sum_of_shares(front, objectives, passes, position) as u128)
        },
    decreases passes,
{
    if passes > 0 {
        let earlier = (passes - 1) as nat;
        lemma_accumulated_is_sum_below(front, objectives, earlier, position);
        lemma_sum_of_shares_is_bounded(front, objectives, earlier, position);
        lemma_sum_of_shares_is_bounded(front, objectives, passes, position);
    }
}

} // verus!
