//! Pareto dominance between two solutions.

use vstd::prelude::*;
use crate::objective::Comparison;
use crate::objective::Objective;

verus! {

/// Whether `a` dominates `b`: no objective ranks `a` after `b`, and at
/// least one ranks `a` before `b`.
pub open spec fn dominates<O: Objective>(objectives: Seq<O>, a: &O::Solution, b: &O::Solution) -> bool {
    &&& forall|k: int|
        0 <= k < objectives.len() ==> #[trigger] objectives[k].ranking(a, b) != Comparison::Greater
    &&& exists|k: int|
        0 <= k < objectives.len() && #[trigger] objectives[k].ranking(a, b) == Comparison::Less
}

/// How `a` stands to `b` under Pareto dominance: `Less` where `a`
/// dominates `b`, `Greater` where `b` dominates `a`, `Equal` where neither
/// dominates the other.
pub open spec fn dominance<O: Objective>(objectives: Seq<O>, a: &O::Solution, b: &O::Solution) -> Comparison {
    if dominates(objectives, a, b) {
        Comparison::Less
    } else if dominates(objectives, b, a) {
        Comparison::Greater
    } else {
        Comparison::Equal
    }
}

/// Decides how `a` stands to `b` under Pareto dominance.
pub fn pareto_comparison<O: Objective>(objectives: &[O], a: &O::Solution, b: &O::Solution) -> (c:
    Comparison)
    ensures
        c == dominance(objectives@, a, b),
{
    let mut better: bool = false;
    let mut worse: bool = false;
    let mut next: usize = 0;
    while next < objectives.len()
        invariant
            next <= objectives@.len(),
            better == exists|k: int|
                0 <= k < next && #[trigger] objectives@[k].ranking(a, b) == Comparison::Less,
            worse == exists|k: int|
                0 <= k < next && #[trigger] objectives@[k].ranking(a, b) == Comparison::Greater,
        decreases objectives@.len() - next,
    {
        match objectives[next].total_order(a, b) {
            Comparison::Less => {
                better = true;
            },
            Comparison::Greater => {
                worse = true;
            },
            Comparison::Equal => {},
        }
        next = next + 1;
    }
    proof {
        assert forall|k: int| 0 <= k < objectives@.len() implies (#[trigger] objectives@[k].ranking(
            b,
            a,
        ) == Comparison::Less) == (objectives@[k].ranking(a, b) == Comparison::Greater) by {
            objectives@[k].ranking_converse(b, a);
        }
        assert forall|k: int| 0 <= k < objectives@.len() implies (#[trigger] objectives@[k].ranking(
            b,
            a,
        ) == Comparison::Greater) == (objectives@[k].ranking(a, b) == Comparison::Less) by {
            objectives@[k].ranking_converse(a, b);
        }
        assert(dominates(objectives@, a, b) == (better && !worse));
        if worse && !better {
            let k = choose|k: int|
                0 <= k < objectives@.len() && #[trigger] objectives@[k].ranking(a, b)
                    == Comparison::Greater;
            assert(objectives@[k].ranking(b, a) == Comparison::Less);
            assert forall|k: int| 0 <= k < objectives@.len() implies #[trigger] objectives@[k].ranking(
                b,
                a,
            ) != Comparison::Greater by {
                assert(objectives@[k].ranking(a, b) != Comparison::Less);
            }
            assert(dominates(objectives@, b, a));
        }
        if dominates(objectives@, b, a) {
            let k = choose|k: int|
                0 <= k < objectives@.len() && #[trigger] objectives@[k].ranking(b, a)
                    == Comparison::Less;
            assert(objectives@[k].ranking(a, b) == Comparison::Greater);
            assert(worse);
            if better {
                let j = choose|j: int|
                    0 <= j < objectives@.len() && #[trigger] objectives@[j].ranking(a, b)
                        == Comparison::Less;
                assert(objectives@[j].ranking(b, a) == Comparison::Greater);
            }
        }
    }
    if better && !worse {
        Comparison::Less
    } else if worse && !better {
        Comparison::Greater
    } else {
        Comparison::Equal
    }
}

} // verus!
