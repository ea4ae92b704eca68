//! Environmental selection for NSGA-II.
//!
//! A population that has been sorted into Pareto fronts is reduced to a
//! requested number of solutions: whole fronts are kept while they fit,
//! and the first front that does not fit is truncated by crowding distance.

pub mod coordinate;
pub mod crowding_distance;
pub mod crowding_laws;
pub mod dominance;
pub mod front;
pub mod measure;
pub mod non_dominated;
pub mod objective;
pub mod pareto;
pub mod select_nsga;
pub mod selection_laws;
pub mod stable_sort;

pub use coordinate::Coordinate;
pub use crowding_distance::assign_crowding_distance;
pub use crowding_distance::AssignedCrowdingDistance;
pub use crowding_distance::ObjectiveStat;
pub use front::Front;
pub use front::SolutionWithIndex;
pub use measure::CrowdingDistance;
pub use measure::CROWDING_UNIT;
pub use objective::Comparison;
pub use objective::Objective;
pub use select_nsga::select_from_fronts;
pub use select_nsga::select_with_fronts;
pub use select_nsga::SelectNSGA;
pub use select_nsga::SelectionError;
