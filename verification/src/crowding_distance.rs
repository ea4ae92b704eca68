//! Crowding distances of the solutions of one front.

use vstd::prelude::*;
use crate::front::Front;
use crate::front::FrontView;
use crate::measure::crowding_share;
use crate::measure::distance_magnitude;
use crate::measure::magnitude;
use crate::measure::share;
use crate::measure::CrowdingDistance;
use crate::objective::Comparison;
use crate::objective::Objective;
use crate::stable_sort::arranges;
use crate::stable_sort::first_handles;
use crate::stable_sort::handles_in_order;
use crate::stable_sort::lemma_arrangement;
use crate::stable_sort::lemma_sorted_arranges;
use crate::stable_sort::sort_stably;
use crate::stable_sort::stably_sorted;
use crate::stable_sort::strict_weak_order;
use crate::stable_sort::Precedence;

verus! {

/// A solution of a front with the crowding distance assigned to it.
#[derive(Debug)]
pub struct AssignedCrowdingDistance<'a, S> {
    /// The index of the solution in the population.
    pub index: usize,
    /// The solution itself.
    pub solution: &'a S,
    /// The rank of the front that the solution belongs to.
    pub rank: usize,
    /// The crowding distance of the solution within its front.
    pub crowding_distance: CrowdingDistance,
}

/// What one objective says of a front as a whole.
#[derive(Clone, Copy, Debug, PartialEq, Eq, Structural)]
pub struct ObjectiveStat {
    /// The distance between the first and the last solution of the front
    /// under the objective's order.
    pub spread: u64,
}

/// The order that `objective` puts the positions of `front` in: one
/// position precedes another where the objective ranks its solution
/// before the other's.
pub open spec fn by_objective<O: Objective>(objective: O, front: FrontView<O::Solution>) -> spec_fn(
    usize,
    usize,
) -> bool {
    |a: usize, b: usize|
        objective.ranking(front.solutions[a as int].solution, front.solutions[b as int].solution)
            == Comparison::Less
}

/// An objective's order over the positions of a front is a strict weak
/// order.
pub proof fn lemma_by_objective_is_strict_weak<O: Objective>(objective: O, front: FrontView<O::Solution>)
    ensures
        strict_weak_order(by_objective(objective, front)),
{
    let precedes = by_objective(objective, front);
    assert forall|a: usize, b: usize| #[trigger] precedes(a, b) implies !precedes(b, a) by {
        objective.ranking_converse(
            front.solutions[a as int].solution,
            front.solutions[b as int].solution,
        );
    }
    assert forall|a: usize, b: usize, c: usize|
        !#[trigger] precedes(a, b) && !#[trigger] precedes(b, c) implies !precedes(a, c) by {
        let sa = front.solutions[a as int].solution;
        let sb = front.solutions[b as int].solution;
        let sc = front.solutions[c as int].solution;
        objective.ranking_converse(sa, sb);
        objective.ranking_converse(sb, sc);
        objective.ranking_converse(sa, sc);
        objective.ranking_transitive(sc, sb, sa);
    }
}

/// Decides an objective's order over the positions of a front.
struct ByObjective<'a, 'b, O: Objective> {
    objective: &'a O,
    front: &'a Front<'b, O::Solution>,
}

impl<'a, 'b, O: Objective> Precedence for ByObjective<'a, 'b, O> {
    closed spec fn knows(&self, handle: usize) -> bool {
        handle < self.front.solutions@.len()
    }

    closed spec fn relation(&self) -> spec_fn(usize, usize) -> bool {
        by_objective(*self.objective, self.front@)
    }

    fn comes_before(&self, a: usize, b: usize) -> (before: bool) {
        let ranked = self.objective.total_order(
            self.front.solutions[a].solution,
            self.front.solutions[b].solution,
        );
        match ranked {
            Comparison::Less => true,
            _ => false,
        }
    }
}

/// The positions of `front` in the order in which the first `passes`
/// objectives leave them: each objective in turn sorts, stably, what the
/// objectives before it left.
pub open spec fn arrangement<O: Objective>(
    front: FrontView<O::Solution>,
    objectives: Seq<O>,
    passes: nat,
) -> Seq<usize>
    decreases passes,
{
    if passes == 0 {
        first_handles(front.solutions.len())
    } else {
        stably_sorted(
            by_objective(objectives[passes - 1], front),
            arrangement(front, objectives, (passes - 1) as nat),
        )
    }
}

/// The spread of `front` under the objective numbered `pass`: the distance
/// between the two solutions that the objective puts first and last.
pub open spec fn spread<O: Objective>(front: FrontView<O::Solution>, objectives: Seq<O>, pass: nat) -> nat {
    let order = arrangement(front, objectives, pass + 1);
    if order.len() == 0 {
        0
    } else {
        magnitude(
            objectives[pass as int].gap(
                front.solutions[order.first() as int].solution,
                front.solutions[order.last() as int].solution,
            ) as int,
        )
    }
}

/// What the objective numbered `pass` adds to the crowding distance of
/// the solution at `position` of `front`.
///
/// The two solutions that the objective puts first and last get infinity.
/// Every other solution gets the distance between its two neighbours in
/// the objective's order, divided by the spread and by the number of
/// objectives; where the spread is zero it gets nothing.
#[verifier::opaque]
pub open spec fn contribution<O: Objective>(
    front: FrontView<O::Solution>,
    objectives: Seq<O>,
    pass: nat,
    position: usize,
) -> CrowdingDistance {
    let order = arrangement(front, objectives, pass + 1);
    let place = order.index_of(position);
    if place == 0 || place == order.len() - 1 {
        CrowdingDistance::Infinite
    } else if spread(front, objectives, pass) == 0 {
        CrowdingDistance::Finite(0)
    } else {
        CrowdingDistance::Finite(
            share(
                magnitude(
                    objectives[pass as int].gap(
                        front.solutions[order[place + 1] as int].solution,
                        front.solutions[order[place - 1] as int].solution,
                    ) as int,
                ),
                spread(front, objectives, pass),
                objectives.len(),
            ) as u128,
        )
    }
}

/// The crowding distance that the solution at `position` of `front` has
/// after the first `passes` objectives: the sum of what each of them adds.
pub open spec fn accumulated<O: Objective>(
    front: FrontView<O::Solution>,
    objectives: Seq<O>,
    passes: nat,
    position: usize,
) -> CrowdingDistance
    decreases passes,
{
    if passes == 0 {
        CrowdingDistance::Finite(0)
    } else {
        accumulated(front, objectives, (passes - 1) as nat, position).plus(
            contribution(front, objectives, (passes - 1) as nat, position),
        )
    }
}

/// The records that [`assign_crowding_distance`] returns for `front`: one
/// for each solution, in the order that the last objective leaves them in.
pub open spec fn assigned_records<'a, O: Objective>(
    front: FrontView<'a, O::Solution>,
    objectives: Seq<O>,
) -> Seq<AssignedCrowdingDistance<'a, O::Solution>> {
    let order = arrangement(front, objectives, objectives.len());
    Seq::new(
        front.solutions.len(),
        |place: int|
            AssignedCrowdingDistance {
                index: front.solutions[order[place] as int].index,
                solution: front.solutions[order[place] as int].solution,
                rank: front.rank,
                crowding_distance: accumulated(front, objectives, objectives.len(), order[place]),
            },
    )
}

/// The statistics that [`assign_crowding_distance`] returns for `front`:
/// one for each objective, in their order; none for an empty front.
pub open spec fn objective_stats<O: Objective>(front: FrontView<O::Solution>, objectives: Seq<O>) -> Seq<
    ObjectiveStat,
> {
    if front.solutions.len() == 0 {
        Seq::empty()
    } else {
        Seq::new(
            objectives.len(),
            |pass: int| ObjectiveStat { spread: spread(front, objectives, pass as nat) as u64 },
        )
    }
}

/// Every arrangement of a front holds each of its positions exactly once.
pub proof fn lemma_arrangement_arranges<O: Objective>(
    front: FrontView<O::Solution>,
    objectives: Seq<O>,
    passes: nat,
)
    ensures
        arranges(arrangement(front, objectives, passes), front.solutions.len()),
    decreases passes,
{
    if passes > 0 {
        lemma_arrangement_arranges(front, objectives, (passes - 1) as nat);
        lemma_sorted_arranges(
            by_objective(objectives[passes - 1], front),
            arrangement(front, objectives, (passes - 1) as nat),
            front.solutions.len(),
        );
    }
}

/// What an objective adds to the solution that it puts at `place`:
/// infinity at the two ends; in between the share for the distance of the
/// two neighbours, or nothing where the spread is zero.
pub proof fn lemma_contribution_at<O: Objective>(
    front: FrontView<O::Solution>,
    objectives: Seq<O>,
    pass: nat,
    place: int,
)
    requires
        front.solutions.len() <= usize::MAX,
        0 <= place < front.solutions.len(),
    ensures
        ({
            let order = arrangement(front, objectives, pass + 1);
            let width = spread(front, objectives, pass);
            contribution(front, objectives, pass, order[place]) == if place == 0 || place
                == order.len() - 1 {
                CrowdingDistance::Infinite
            } else if width == 0 {
                CrowdingDistance::Finite(0)
            } else {
                CrowdingDistance::Finite(
                    share(
                        magnitude(
                            objectives[pass as int].gap(
                                front.solutions[order[place + 1] as int].solution,
                                front.solutions[order[place - 1] as int].solution,
                            ) as int,
                        ),
                        width,
                        objectives.len(),
                    ) as u128,
                )
            }
        }),
{
    reveal(contribution);
    lemma_arrangement_arranges(front, objectives, pass + 1);
    lemma_arrangement(arrangement(front, objectives, pass + 1), front.solutions.len());
}

/// Lets the objective numbered `pass` sort the front and add its part to
/// every crowding distance; returns the spread of the front under it.
fn run_pass<'a, O: Objective>(
    front: &Front<'a, O::Solution>,
    multi_objective: &[O],
    pass: usize,
    order: &mut Vec<usize>,
    totals: &mut Vec<CrowdingDistance>,
) -> (width: u64)
    requires
        front.solutions@.len() > 0,
        pass < multi_objective@.len(),
        old(order)@ == arrangement(front@, multi_objective@, pass as nat),
        arranges(old(order)@, front.solutions@.len()),
        old(totals)@.len() == front.solutions@.len(),
        forall|p: usize|
            p < front.solutions@.len() ==> old(totals)@[p as int] == #[trigger] accumulated(
                front@,
                multi_objective@,
                pass as nat,
                p,
            ),
    ensures
        final(order)@ == arrangement(front@, multi_objective@, (pass + 1) as nat),
        arranges(final(order)@, front.solutions@.len()),
        final(totals)@.len() == front.solutions@.len(),
        forall|p: usize|
            p < front.solutions@.len() ==> final(totals)@[p as int] == #[trigger] accumulated(
                front@,
                multi_objective@,
                (pass + 1) as nat,
                p,
            ),
        width == spread(front@, multi_objective@, pass as nat),
{
    let len: usize = front.solutions.len();
    let count: usize = multi_objective.len();
    let objective = &multi_objective[pass];
    let by = ByObjective { objective, front };
    let ghost unsorted = order@;
    proof {
        lemma_arrangement(unsorted, len as nat);
        lemma_by_objective_is_strict_weak(*objective, front@);
    }
    sort_stably(order, &by);
    proof {
        lemma_sorted_arranges(by.relation(), unsorted, len as nat);
        lemma_arrangement(order@, len as nat);
        assert(order@ == arrangement(front@, multi_objective@, (pass + 1) as nat));
    }
    let first: usize = order[0];
    let last: usize = order[len - 1];
    let ghost before = totals@;
    let ghost settled = Seq::new(
        len as nat,
        |j: int|
            before[order@[j] as int].plus(
                contribution(front@, multi_objective@, pass as nat, order@[j]),
            ),
    );
    totals.set(first, CrowdingDistance::Infinite);
    totals.set(last, CrowdingDistance::Infinite);
    let width: u64 = distance_magnitude(
        objective.distance(front.solutions[first].solution, front.solutions[last].solution),
    );
    proof {
        lemma_contribution_at(front@, multi_objective@, pass as nat, 0);
        lemma_contribution_at(front@, multi_objective@, pass as nat, len - 1);
    }
    let mut place: usize = 1;
    if width > 0 {
        while place < len - 1
            invariant
                len == front.solutions@.len(),
                count == multi_objective@.len(),
                pass < count,
                *objective == multi_objective@[pass as int],
                1 <= place,
                width > 0,
                width == spread(front@, multi_objective@, pass as nat),
                order@ == arrangement(front@, multi_objective@, (pass + 1) as nat),
                arranges(order@, len as nat),
                order@.len() == len,
                order@.no_duplicates(),
                forall|i: int| 0 <= i < len ==> #[trigger] order@[i] < len,
                totals@.len() == len,
                before.len() == len,
                settled.len() == len,
                forall|j: int|
                    0 <= j < len ==> settled[j] == before[order@[j] as int].plus(
                        contribution(front@, multi_objective@, pass as nat, #[trigger] order@[j]),
                    ),
                forall|j: int|
                    0 <= j < len ==> totals@[#[trigger] order@[j] as int] == (if j == 0 || j == len
                        - 1 || j < place {
                        settled[j]
                    } else {
                        before[order@[j] as int]
                    }),
            decreases len - place,
        {
            let neighbours: u64 = distance_magnitude(
                objective.distance(
                    front.solutions[order[place + 1]].solution,
                    front.solutions[order[place - 1]].solution,
                ),
            );
            let units: u128 = crowding_share(neighbours, width, count);
            let position: usize = order[place];
            proof {
                lemma_contribution_at(front@, multi_objective@, pass as nat, place as int);
            }
            let sum = totals[position].accumulate(CrowdingDistance::Finite(units));
            totals.set(position, sum);
            place = place + 1;
        }
    }
    proof {
        assert forall|p: usize| p < len implies totals@[p as int] == #[trigger] accumulated(
            front@,
            multi_objective@,
            (pass + 1) as nat,
            p,
        ) by {
            assert(order@.contains(p));
            let j = order@.index_of(p);
            assert(0 <= j < len && order@[j] == p);
            assert(before[p as int] == accumulated(front@, multi_objective@, pass as nat, p));
            if !(j == 0 || j == len - 1) && width == 0 {
                lemma_contribution_at(front@, multi_objective@, pass as nat, j);
            }
        }
    }
    width
}

/// Assigns a crowding distance to each solution of `front`.
///
/// Every solution starts at zero. Each objective in turn sorts the front,
/// gives infinity to the solutions at its two ends and adds to every
/// other solution its share for the distance between its two neighbours.
/// The records come back in the order that the last objective left, the
/// statistics in the order of the objectives.
///
/// A front of one solution gives that solution infinity, and a front of
/// two gives it to both. An empty front gives no records and no
/// statistics. Without objectives every distance stays zero.
pub fn assign_crowding_distance<'a, O: Objective>(
    front: &Front<'a, O::Solution>,
    multi_objective: &[O],
) -> (assigned: (Vec<AssignedCrowdingDistance<'a, O::Solution>>, Vec<ObjectiveStat>))
    ensures
        assigned.0@ == assigned_records(front@, multi_objective@),
        assigned.1@ == objective_stats(front@, multi_objective@),
{
    let len: usize = front.solutions.len();
    let count: usize = multi_objective.len();
    let mut order: Vec<usize> = handles_in_order(len);
    let mut totals: Vec<CrowdingDistance> = Vec::new();
    let mut filled: usize = 0;
    while filled < len
        invariant
            filled <= len,
            totals@.len() == filled,
            forall|p: int| 0 <= p < filled ==> totals@[p] == CrowdingDistance::Finite(0),
        decreases len - filled,
    {
        totals.push(CrowdingDistance::Finite(0));
        filled = filled + 1;
    }
    let mut stats: Vec<ObjectiveStat> = Vec::new();
    if len > 0 {
        let mut pass: usize = 0;
        while pass < count
            invariant
                len == front.solutions@.len(),
                len > 0,
                count == multi_objective@.len(),
                pass <= count,
                order@ == arrangement(front@, multi_objective@, pass as nat),
                arranges(order@, len as nat),
                totals@.len() == len,
                forall|p: usize|
                    p < len ==> totals@[p as int] == #[trigger] accumulated(
                        front@,
                        multi_objective@,
                        pass as nat,
                        p,
                    ),
                stats@.len() == pass,
                forall|j: int|
                    0 <= j < pass ==> #[trigger] stats@[j] == (ObjectiveStat {
                        spread: spread(front@, multi_objective@, j as nat) as u64,
                    }),
            decreases count - pass,
        {
            let width = run_pass(front, multi_objective, pass, &mut order, &mut totals);
            stats.push(ObjectiveStat { spread: width });
            pass = pass + 1;
        }
    }
    let mut records: Vec<AssignedCrowdingDistance<'a, O::Solution>> = Vec::new();
    let mut place: usize = 0;
    while place < len
        invariant
            len == front.solutions@.len(),
            place <= len,
            len > 0 ==> order@ == arrangement(front@, multi_objective@, multi_objective@.len()),
            len > 0 ==> arranges(order@, len as nat),
            totals@.len() == len,
            forall|p: usize|
                p < len ==> totals@[p as int] == #[trigger] accumulated(
                    front@,
                    multi_objective@,
                    multi_objective@.len(),
                    p,
                ),
            records@.len() == place,
            forall|i: int|
                0 <= i < place ==> #[trigger] records@[i] == assigned_records(
                    front@,
                    multi_objective@,
                )[i],
        decreases len - place,
    {
        proof {
            lemma_arrangement(order@, len as nat);
        }
        let position: usize = order[place];
        records.push(
            AssignedCrowdingDistance {
                index: front.solutions[position].index,
                solution: front.solutions[position].solution,
                rank: front.rank,
                crowding_distance: totals[position],
            },
        );
        place = place + 1;
    }
    assert(records@ =~= assigned_records(front@, multi_objective@));
    assert(stats@ =~= objective_stats(front@, multi_objective@));
    (records, stats)
}

} // verus!
