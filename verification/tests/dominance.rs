use non_dominated_sort::DominationOrd;
use nsga_selection::dominance::ParetoDominance;
use nsga_selection::pareto::pareto_comparison;
use nsga_selection::{Comparison, Coordinate, Objective};
use std::cmp::Ordering;

fn two_axes() -> Vec<Coordinate<2>> {
    vec![Coordinate { axis: 0 }, Coordinate { axis: 1 }]
}

#[test]
fn better_on_one_axis_and_no_worse_on_the_other_dominates() {
    let axes = two_axes();
    assert_eq!(pareto_comparison(&axes, &[1, 2], &[1, 3]), Comparison::Less);
    assert_eq!(pareto_comparison(&axes, &[0, 2], &[1, 3]), Comparison::Less);
    assert_eq!(pareto_comparison(&axes, &[1, 3], &[1, 2]), Comparison::Greater);
    assert_eq!(pareto_comparison(&axes, &[4, 4], &[0, 2]), Comparison::Greater);
}

#[test]
fn neither_dominates_where_each_is_better_somewhere_or_both_are_equal() {
    let axes = two_axes();
    assert_eq!(pareto_comparison(&axes, &[1, 2], &[2, 1]), Comparison::Equal);
    assert_eq!(pareto_comparison(&axes, &[2, 1], &[1, 2]), Comparison::Equal);
    assert_eq!(pareto_comparison(&axes, &[1, 2], &[1, 2]), Comparison::Equal);
    let none: Vec<Coordinate<2>> = Vec::new();
    assert_eq!(pareto_comparison(&none, &[1, 2], &[5, 5]), Comparison::Equal);
}

#[test]
fn dominance_is_handed_to_the_sort_as_an_order() {
    let axes = two_axes();
    let dominance = ParetoDominance { objectives: &axes };
    assert_eq!(dominance.domination_ord(&[1, 2], &[1, 3]), Ordering::Less);
    assert_eq!(dominance.domination_ord(&[1, 3], &[1, 2]), Ordering::Greater);
    assert_eq!(dominance.domination_ord(&[1, 2], &[2, 1]), Ordering::Equal);
    assert!(dominance.dominates(&[0, 0], &[1, 1]));
    assert!(!dominance.dominates(&[1, 1], &[0, 0]));
}

#[test]
fn coordinate_ranks_by_its_axis() {
    let first = Coordinate::<2> { axis: 0 };
    let second = Coordinate::<2> { axis: 1 };
    assert_eq!(first.total_order(&[1, 9], &[2, 0]), Comparison::Less);
    assert_eq!(second.total_order(&[1, 9], &[2, 0]), Comparison::Greater);
    assert_eq!(first.total_order(&[2, 9], &[2, 0]), Comparison::Equal);
    assert_eq!(first.distance(&[1, 9], &[4, 0]), -3);
    assert_eq!(second.distance(&[1, 9], &[4, 0]), 9);
    assert_eq!(
        first.distance(&[i32::MIN, 0], &[i32::MAX, 0]),
        -4294967295
    );
    assert_eq!(first.value_of(&[7, 8]), 7);
    assert_eq!(second.value_of(&[7, 8]), 8);
}

#[test]
fn coordinate_beyond_the_points_sees_no_difference() {
    let beyond = Coordinate::<2> { axis: 2 };
    assert_eq!(beyond.total_order(&[1, 9], &[2, 0]), Comparison::Equal);
    assert_eq!(beyond.distance(&[1, 9], &[2, 0]), 0);
    assert_eq!(beyond.value_of(&[1, 9]), 0);
}
