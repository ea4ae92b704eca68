use nsga_selection::select_nsga::{select_from_fronts, select_with_fronts};
use nsga_selection::{
    AssignedCrowdingDistance, Coordinate, CrowdingDistance, Front, SelectNSGA, SelectionError,
    SolutionWithIndex, CROWDING_UNIT,
};

fn two_axes() -> Vec<Coordinate<2>> {
    vec![Coordinate { axis: 0 }, Coordinate { axis: 1 }]
}

/// Three points that dominate all others, then five that dominate none of each other.
fn population() -> Vec<[i32; 2]> {
    vec![
        [1, 3],
        [2, 2],
        [3, 1],
        [2, 10],
        [3, 9],
        [5, 7],
        [6, 6],
        [10, 2],
    ]
}

fn front<'a>(rank: usize, population: &'a [[i32; 2]], members: &[usize]) -> Front<'a, [i32; 2]> {
    Front {
        rank,
        solutions: members
            .iter()
            .map(|&index| SolutionWithIndex { index, solution: &population[index] })
            .collect(),
    }
}

fn indices(records: &[AssignedCrowdingDistance<[i32; 2]>]) -> Vec<usize> {
    records.iter().map(|r| r.index).collect()
}

fn ranks(records: &[AssignedCrowdingDistance<[i32; 2]>]) -> Vec<usize> {
    records.iter().map(|r| r.rank).collect()
}

fn distances(records: &[AssignedCrowdingDistance<[i32; 2]>]) -> Vec<CrowdingDistance> {
    records.iter().map(|r| r.crowding_distance).collect()
}

#[test]
fn whole_front_then_most_isolated_of_the_next() {
    let population = population();
    let fronts = vec![
        front(0, &population, &[0, 1, 2]),
        front(1, &population, &[3, 4, 5, 6, 7]),
    ];
    let selected = select_from_fronts(&fronts, 6, &two_axes());

    // The first front in full, as its crowding distances were assigned; of the
    // second its two ends and the inner point with the widest gap around it.
    assert_eq!(indices(&selected), vec![2, 1, 0, 7, 3, 6]);
    assert_eq!(ranks(&selected), vec![0, 0, 0, 1, 1, 1]);
    assert_eq!(
        distances(&selected),
        vec![
            CrowdingDistance::Infinite,
            CrowdingDistance::Finite(CROWDING_UNIT),
            CrowdingDistance::Infinite,
            CrowdingDistance::Infinite,
            CrowdingDistance::Infinite,
            CrowdingDistance::Finite(11529215046068469760),
        ]
    );
    assert!(!indices(&selected).contains(&4));
    assert!(!indices(&selected).contains(&5));
}

#[test]
fn nothing_asked_for_nothing_selected() {
    let population = population();
    let fronts = vec![front(0, &population, &[0, 1, 2])];
    assert!(select_from_fronts(&fronts, 0, &two_axes()).is_empty());
    let selected = SelectNSGA.select_and_rank(&population, 0, &two_axes()).unwrap();
    assert!(selected.is_empty());
    let sorted = vec![(0, vec![0, 1, 2]), (1, vec![3, 4, 5, 6, 7])];
    let selected = select_with_fronts(&population, 0, &two_axes(), &sorted).unwrap();
    assert!(selected.is_empty());
}

#[test]
fn empty_population_gives_empty_selection() {
    let population: Vec<[i32; 2]> = Vec::new();
    let selected = SelectNSGA.select_and_rank(&population, 5, &two_axes()).unwrap();
    assert!(selected.is_empty());
    let none: Vec<Front<[i32; 2]>> = Vec::new();
    assert!(select_from_fronts(&none, 5, &two_axes()).is_empty());
}

#[test]
fn selection_has_the_size_asked_for_or_that_of_the_population() {
    let population = population();
    for n in 0..12 {
        let selected = SelectNSGA.select_and_rank(&population, n, &two_axes()).unwrap();
        assert_eq!(selected.len(), n.min(population.len()));
    }
    let selected = SelectNSGA
        .select_and_rank(&population, usize::MAX, &two_axes())
        .unwrap();
    assert_eq!(selected.len(), 8);
}

#[test]
fn sorts_the_population_into_fronts_before_selecting() {
    let population = population();
    let selected = SelectNSGA.select_and_rank(&population, 6, &two_axes()).unwrap();
    assert_eq!(ranks(&selected), vec![0, 0, 0, 1, 1, 1]);
    let mut best: Vec<usize> = indices(&selected[..3]);
    best.sort();
    assert_eq!(best, vec![0, 1, 2]);
    let mut rest: Vec<usize> = indices(&selected[3..]);
    rest.sort();
    assert_eq!(rest, vec![3, 6, 7]);
    assert_eq!(selected[3].crowding_distance, CrowdingDistance::Infinite);
    assert_eq!(selected[4].crowding_distance, CrowdingDistance::Infinite);
    assert_eq!(
        selected[5].crowding_distance,
        CrowdingDistance::Finite(11529215046068469760)
    );
    for record in &selected {
        assert_eq!(*record.solution, population[record.index]);
    }
}

#[test]
fn dominated_solutions_come_in_later_fronts() {
    // A chain: each point dominates the next.
    let population: Vec<[i32; 2]> = vec![[3, 3], [1, 1], [4, 4], [2, 2]];
    let selected = SelectNSGA.select_and_rank(&population, 4, &two_axes()).unwrap();
    assert_eq!(indices(&selected), vec![1, 3, 0, 2]);
    assert_eq!(ranks(&selected), vec![0, 1, 2, 3]);
    assert!(selected.iter().all(|r| r.crowding_distance == CrowdingDistance::Infinite));

    let selected = SelectNSGA.select_and_rank(&population, 2, &two_axes()).unwrap();
    assert_eq!(indices(&selected), vec![1, 3]);
}

#[test]
fn all_fronts_in_full_when_everything_is_asked_for() {
    let population = population();
    let fronts = vec![
        front(0, &population, &[0, 1, 2]),
        front(1, &population, &[3, 4, 5, 6, 7]),
    ];
    let selected = select_from_fronts(&fronts, 8, &two_axes());
    // The second front is not truncated: it keeps the order of its assignment.
    assert_eq!(indices(&selected), vec![2, 1, 0, 7, 6, 5, 4, 3]);
    assert_eq!(ranks(&selected), vec![0, 0, 0, 1, 1, 1, 1, 1]);
    let more = select_from_fronts(&fronts, 20, &two_axes());
    assert_eq!(indices(&more), indices(&selected));
}

#[test]
fn only_the_first_front_that_does_not_fit_is_truncated() {
    let population = population();
    let fronts = vec![
        front(0, &population, &[0, 1, 2]),
        front(1, &population, &[3, 4, 5, 6, 7]),
    ];
    // Two of three: the ends of the first front; the second front is not reached.
    let selected = select_from_fronts(&fronts, 2, &two_axes());
    assert_eq!(indices(&selected), vec![2, 0]);
    assert_eq!(ranks(&selected), vec![0, 0]);
    // Exactly the first front.
    let selected = select_from_fronts(&fronts, 3, &two_axes());
    assert_eq!(indices(&selected), vec![2, 1, 0]);
    // One more: one end of the second front.
    let selected = select_from_fronts(&fronts, 4, &two_axes());
    assert_eq!(indices(&selected), vec![2, 1, 0, 7]);
    assert_eq!(ranks(&selected), vec![0, 0, 0, 1]);
}

#[test]
fn empty_front_in_between_is_passed_over() {
    let population = population();
    let fronts = vec![
        front(0, &population, &[0, 1, 2]),
        front(1, &population, &[]),
        front(2, &population, &[3, 4, 5, 6, 7]),
    ];
    let selected = select_from_fronts(&fronts, 4, &two_axes());
    assert_eq!(indices(&selected), vec![2, 1, 0, 7]);
    assert_eq!(ranks(&selected), vec![0, 0, 0, 2]);
}

#[test]
fn equal_distances_keep_their_order_when_truncated() {
    let population = population();
    let fronts = vec![front(0, &population, &[3, 4, 5, 6, 7])];
    // Assigned order 7, 6, 5, 4, 3 with distances inf, 10/16, 6/16, 6/16, inf.
    let selected = select_from_fronts(&fronts, 4, &two_axes());
    assert_eq!(indices(&selected), vec![7, 3, 6, 5]);
    assert_eq!(
        selected[3].crowding_distance,
        CrowdingDistance::Finite(6917529027641081856)
    );
}

#[test]
fn selection_is_repeatable() {
    let population = population();
    for n in 0..9 {
        let first = SelectNSGA.select_and_rank(&population, n, &two_axes()).unwrap();
        let second = SelectNSGA.select_and_rank(&population, n, &two_axes()).unwrap();
        assert_eq!(indices(&first), indices(&second));
        assert_eq!(ranks(&first), ranks(&second));
        assert_eq!(distances(&first), distances(&second));
    }
}

#[test]
fn reported_fronts_are_looked_up_in_the_population() {
    let population = population();
    let sorted = vec![(0, vec![0, 1, 2]), (1, vec![3, 4, 5, 6, 7])];
    let selected = select_with_fronts(&population, 6, &two_axes(), &sorted).unwrap();
    assert_eq!(indices(&selected), vec![2, 1, 0, 7, 3, 6]);
    assert_eq!(ranks(&selected), vec![0, 0, 0, 1, 1, 1]);
    for record in &selected {
        assert_eq!(*record.solution, population[record.index]);
    }
    // The rank is the one reported, whatever the place of the front.
    let sorted = vec![(5, vec![0, 1, 2]), (9, vec![3, 4, 5, 6, 7])];
    let selected = select_with_fronts(&population, 4, &two_axes(), &sorted).unwrap();
    assert_eq!(ranks(&selected), vec![5, 5, 5, 9]);
}

#[test]
fn front_that_names_a_missing_solution_is_refused() {
    let population = population();
    let sorted = vec![(0, vec![0, 1, 2]), (1, vec![3, 4, 8])];
    let result = select_with_fronts(&population, 2, &two_axes(), &sorted);
    assert_eq!(result.err(), Some(SelectionError::IndexOutOfRange));
    let result = select_with_fronts(&population, 0, &two_axes(), &sorted);
    assert_eq!(result.err(), Some(SelectionError::IndexOutOfRange));
}

#[test]
fn fronts_with_too_few_solutions_are_refused() {
    let population = population();
    let sorted = vec![(0, vec![0, 1, 2]), (1, vec![3, 4])];
    let result = select_with_fronts(&population, 6, &two_axes(), &sorted);
    assert_eq!(result.err(), Some(SelectionError::TooFewSolutions));
    let result = select_with_fronts(&population, 5, &two_axes(), &sorted);
    assert_eq!(result.map(|s| indices(&s)).ok(), Some(vec![2, 1, 0, 4, 3]));
    let none: Vec<(usize, Vec<usize>)> = Vec::new();
    let result = select_with_fronts(&population, 1, &two_axes(), &none);
    assert_eq!(result.err(), Some(SelectionError::TooFewSolutions));
}
