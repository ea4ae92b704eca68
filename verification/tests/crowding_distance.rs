use nsga_selection::crowding_distance::assign_crowding_distance;
use nsga_selection::measure::{crowding_share, distance_magnitude};
use nsga_selection::{
    AssignedCrowdingDistance, Coordinate, CrowdingDistance, Front, ObjectiveStat,
    SolutionWithIndex, CROWDING_UNIT,
};

fn two_axes() -> Vec<Coordinate<2>> {
    vec![Coordinate { axis: 0 }, Coordinate { axis: 1 }]
}

fn front_of<'a>(rank: usize, points: &'a [[i32; 2]]) -> Front<'a, [i32; 2]> {
    Front {
        rank,
        solutions: points
            .iter()
            .enumerate()
            .map(|(index, solution)| SolutionWithIndex { index, solution })
            .collect(),
    }
}

fn indices(records: &[AssignedCrowdingDistance<[i32; 2]>]) -> Vec<usize> {
    records.iter().map(|r| r.index).collect()
}

fn distance_of(records: &[AssignedCrowdingDistance<[i32; 2]>], index: usize) -> CrowdingDistance {
    records
        .iter()
        .find(|r| r.index == index)
        .map(|r| r.crowding_distance)
        .unwrap()
}

#[test]
fn anti_correlated_line() {
    let points = [[1, 5], [2, 4], [3, 3], [4, 2], [5, 1]];
    let front = front_of(0, &points);
    let (records, stats) = assign_crowding_distance(&front, &two_axes());

    assert_eq!(stats, vec![ObjectiveStat { spread: 4 }, ObjectiveStat { spread: 4 }]);
    // The second axis sorted last: the records come back by rising second coordinate.
    assert_eq!(indices(&records), vec![4, 3, 2, 1, 0]);
    assert_eq!(distance_of(&records, 0), CrowdingDistance::Infinite);
    assert_eq!(distance_of(&records, 4), CrowdingDistance::Infinite);
    // Each axis adds 2 / (4 * 2) = 1/4 to each inner point.
    let half = CROWDING_UNIT / 2;
    assert_eq!(distance_of(&records, 1), CrowdingDistance::Finite(half));
    assert_eq!(distance_of(&records, 2), CrowdingDistance::Finite(half));
    assert_eq!(distance_of(&records, 3), CrowdingDistance::Finite(half));
    for record in &records {
        assert_eq!(record.rank, 0);
        assert_eq!(*record.solution, points[record.index]);
    }
}

#[test]
fn records_carry_rank_index_and_solution_of_the_front() {
    let points = [[7, 1], [3, 4], [5, 2]];
    let front = Front {
        rank: 3,
        solutions: vec![
            SolutionWithIndex { index: 40, solution: &points[0] },
            SolutionWithIndex { index: 41, solution: &points[1] },
            SolutionWithIndex { index: 42, solution: &points[2] },
        ],
    };
    let (records, _) = assign_crowding_distance(&front, &two_axes());
    // By rising second coordinate: [7, 1], [5, 2], [3, 4].
    assert_eq!(indices(&records), vec![40, 42, 41]);
    assert_eq!(*records[0].solution, [7, 1]);
    assert_eq!(*records[1].solution, [5, 2]);
    assert_eq!(*records[2].solution, [3, 4]);
    assert!(records.iter().all(|r| r.rank == 3));
}

#[test]
fn single_solution_is_infinite() {
    let points = [[3, 9]];
    let front = front_of(2, &points);
    let (records, stats) = assign_crowding_distance(&front, &two_axes());
    assert_eq!(records.len(), 1);
    assert_eq!(records[0].index, 0);
    assert_eq!(records[0].rank, 2);
    assert_eq!(records[0].crowding_distance, CrowdingDistance::Infinite);
    assert_eq!(stats, vec![ObjectiveStat { spread: 0 }, ObjectiveStat { spread: 0 }]);
}

#[test]
fn two_solutions_are_both_infinite() {
    let points = [[1, 8], [6, 2]];
    let front = front_of(0, &points);
    let (records, stats) = assign_crowding_distance(&front, &two_axes());
    assert_eq!(indices(&records), vec![1, 0]);
    assert_eq!(records[0].crowding_distance, CrowdingDistance::Infinite);
    assert_eq!(records[1].crowding_distance, CrowdingDistance::Infinite);
    assert_eq!(stats, vec![ObjectiveStat { spread: 5 }, ObjectiveStat { spread: 6 }]);
}

#[test]
fn empty_front_gives_nothing() {
    let points: [[i32; 2]; 0] = [];
    let front = front_of(0, &points);
    let (records, stats) = assign_crowding_distance(&front, &two_axes());
    assert!(records.is_empty());
    assert!(stats.is_empty());
}

#[test]
fn without_objectives_every_distance_is_zero() {
    let points = [[1, 5], [2, 4], [3, 3]];
    let front = front_of(0, &points);
    let none: Vec<Coordinate<2>> = Vec::new();
    let (records, stats) = assign_crowding_distance(&front, &none);
    assert_eq!(indices(&records), vec![0, 1, 2]);
    assert!(records.iter().all(|r| r.crowding_distance == CrowdingDistance::Finite(0)));
    assert!(stats.is_empty());
}

#[test]
fn objective_without_spread_adds_nothing() {
    let points = [[1, 7], [2, 7], [4, 7], [8, 7]];
    let front = front_of(0, &points);
    let (records, stats) = assign_crowding_distance(&front, &two_axes());
    assert_eq!(stats, vec![ObjectiveStat { spread: 7 }, ObjectiveStat { spread: 0 }]);
    // Equal on the second axis: its stable sort keeps the order of the first.
    assert_eq!(indices(&records), vec![0, 1, 2, 3]);
    assert_eq!(distance_of(&records, 0), CrowdingDistance::Infinite);
    assert_eq!(distance_of(&records, 3), CrowdingDistance::Infinite);
    // Only the first axis counts: 3 / (7 * 2) and 6 / (7 * 2), rounded down.
    assert_eq!(distance_of(&records, 1), CrowdingDistance::Finite(3952873730080618203));
    assert_eq!(distance_of(&records, 2), CrowdingDistance::Finite(7905747460161236406));
}

#[test]
fn distances_are_sums_of_the_shares_of_all_objectives() {
    let points = [[0, 9], [1, 4], [5, 3], [9, 0]];
    let front = front_of(0, &points);
    let (records, stats) = assign_crowding_distance(&front, &two_axes());
    assert_eq!(stats, vec![ObjectiveStat { spread: 9 }, ObjectiveStat { spread: 9 }]);
    // Point 1: 5 / 18 from the first axis, 6 / 18 from the second.
    let first = crowding_share(5, 9, 2);
    let second = crowding_share(6, 9, 2);
    assert_eq!(distance_of(&records, 1), CrowdingDistance::Finite(first + second));
    // Point 2: 8 / 18 from the first axis, 4 / 18 from the second.
    let first = crowding_share(8, 9, 2);
    let second = crowding_share(4, 9, 2);
    assert_eq!(distance_of(&records, 2), CrowdingDistance::Finite(first + second));
    assert!(first + second >= first);
}

#[test]
fn least_and_greatest_of_each_objective_are_infinite() {
    // Point 2 is inner on the first axis and the least on the second.
    let points = [[1, 5], [9, 6], [4, 1], [6, 9], [5, 5]];
    let front = front_of(0, &points);
    let (records, _) = assign_crowding_distance(&front, &two_axes());
    assert_eq!(distance_of(&records, 0), CrowdingDistance::Infinite);
    assert_eq!(distance_of(&records, 1), CrowdingDistance::Infinite);
    assert_eq!(distance_of(&records, 2), CrowdingDistance::Infinite);
    assert_eq!(distance_of(&records, 3), CrowdingDistance::Infinite);
    assert!(matches!(distance_of(&records, 4), CrowdingDistance::Finite(_)));
}

#[test]
fn equal_solutions_keep_their_order() {
    let points = [[2, 2], [1, 1], [2, 2], [1, 1], [2, 2]];
    let front = front_of(0, &points);
    let one_axis = vec![Coordinate::<2> { axis: 0 }];
    let (records, stats) = assign_crowding_distance(&front, &one_axis);
    assert_eq!(indices(&records), vec![1, 3, 0, 2, 4]);
    assert_eq!(stats, vec![ObjectiveStat { spread: 1 }]);
    assert_eq!(distance_of(&records, 1), CrowdingDistance::Infinite);
    assert_eq!(distance_of(&records, 4), CrowdingDistance::Infinite);
    // Neighbours of 3 are 1 and 0: one apart. Of 0: 3 and 2. Of 2: 0 and 4, none apart.
    assert_eq!(distance_of(&records, 3), CrowdingDistance::Finite(CROWDING_UNIT));
    assert_eq!(distance_of(&records, 0), CrowdingDistance::Finite(CROWDING_UNIT));
    assert_eq!(distance_of(&records, 2), CrowdingDistance::Finite(0));
}

#[test]
fn assignment_is_repeatable() {
    let points = [[0, 9], [1, 4], [5, 3], [9, 0], [3, 3]];
    let front = front_of(1, &points);
    let (first, first_stats) = assign_crowding_distance(&front, &two_axes());
    let (second, second_stats) = assign_crowding_distance(&front, &two_axes());
    assert_eq!(indices(&first), indices(&second));
    for (a, b) in first.iter().zip(second.iter()) {
        assert_eq!(a.crowding_distance, b.crowding_distance);
        assert_eq!(a.rank, b.rank);
    }
    assert_eq!(first_stats, second_stats);
}

#[test]
fn axis_that_points_lack_ranks_all_equal() {
    let points = [[3, 1], [1, 2], [2, 3]];
    let front = front_of(0, &points);
    let beyond = vec![Coordinate::<2> { axis: 2 }];
    let (records, stats) = assign_crowding_distance(&front, &beyond);
    assert_eq!(indices(&records), vec![0, 1, 2]);
    assert_eq!(stats, vec![ObjectiveStat { spread: 0 }]);
    assert_eq!(distance_of(&records, 1), CrowdingDistance::Finite(0));
}

#[test]
fn share_is_rounded_down() {
    assert_eq!(crowding_share(1, 3, 1), 6148914691236517205);
    assert_eq!(crowding_share(1, 1, 1), CROWDING_UNIT);
    assert_eq!(crowding_share(0, 5, 3), 0);
    assert_eq!(crowding_share(2, 4, 2), CROWDING_UNIT / 4);
    assert_eq!(
        crowding_share(u64::MAX, 1, 1),
        u128::from(u64::MAX) * CROWDING_UNIT
    );
    assert_eq!(crowding_share(1, u64::MAX, usize::MAX), 0);
}

#[test]
fn magnitude_of_signed_distances() {
    assert_eq!(distance_magnitude(0), 0);
    assert_eq!(distance_magnitude(17), 17);
    assert_eq!(distance_magnitude(-17), 17);
    assert_eq!(distance_magnitude(i64::MAX), 9223372036854775807);
    assert_eq!(distance_magnitude(i64::MIN), 9223372036854775808);
}

#[test]
fn sums_of_distances() {
    let one = CrowdingDistance::Finite(1);
    let two = CrowdingDistance::Finite(2);
    assert_eq!(one.accumulate(two), CrowdingDistance::Finite(3));
    assert_eq!(one.accumulate(CrowdingDistance::Infinite), CrowdingDistance::Infinite);
    assert_eq!(CrowdingDistance::Infinite.accumulate(two), CrowdingDistance::Infinite);
    assert_eq!(
        CrowdingDistance::Infinite.accumulate(CrowdingDistance::Infinite),
        CrowdingDistance::Infinite
    );
    let most = CrowdingDistance::Finite(u128::MAX);
    assert_eq!(most.accumulate(CrowdingDistance::Finite(0)), most);
    assert_eq!(most.accumulate(one), CrowdingDistance::Infinite);
}

#[test]
fn larger_of_two_distances() {
    let one = CrowdingDistance::Finite(1);
    let two = CrowdingDistance::Finite(2);
    assert!(two.is_larger_than(one));
    assert!(!one.is_larger_than(two));
    assert!(!one.is_larger_than(one));
    assert!(CrowdingDistance::Infinite.is_larger_than(two));
    assert!(!two.is_larger_than(CrowdingDistance::Infinite));
    assert!(!CrowdingDistance::Infinite.is_larger_than(CrowdingDistance::Infinite));
}
