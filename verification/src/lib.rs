//! Shortest collision-free paths among polygonal obstacles: a visibility graph
//! over the reflex corners of the obstacles, and an informed search on it.
//!
//! The engine is exact about everything that is discrete: which vertices become
//! graph nodes, which pairs are tested and joined, how the two endpoints of a
//! query are attached, and what the search returns. It never computes with
//! coordinates. A point is whatever the caller says it is, and what has to be
//! measured on the plane (a turn, a crossing, a length) is asked of the
//! caller, through functions that a `Navigation` is given when it is built.
//! What the functions answer is taken as it comes; where each question has one
//! answer, every result here is a function of the answers.
//!
//! - `shape`, `segment`, `obstacle`: polygons, their boundaries, reflex marks.
//! - `order`, `sign`: the decisions that comparisons of coordinates lead to.
//! - `sight`, `graph`: who sees whom, and the navigation graph built from it.
//! - `a_star`, `search`, `frontier`, `cost`: the search and its model.
//! - `cheapest`, `reach`: when the search finds a cheapest path, and a path at
//!   all.
//! - `query`, `navigation`: a query's own graph, and the queries themselves.
pub mod a_star;
pub mod cheapest;
pub mod cost;
pub mod flags;
pub mod frontier;
pub mod graph;
pub mod navigation;
pub mod obstacle;
pub mod order;
pub mod query;
pub mod reach;
pub mod search;
pub mod segment;
pub mod shape;
pub mod sight;
pub mod sign;

pub use a_star::{a_star, reconstruct_path, AStarInput};
pub use cost::Cost;
pub use flags::Flags;
pub use frontier::{Frontier, NodeCost};
pub use graph::{build_navigation_graph, Node};
pub use navigation::{Navigation, NavigationInternal};
pub use query::NavigationAStarInput;
pub use obstacle::{Corner, NavigationObstacle};
pub use order::{collinear_overlap, contains, is_in_connectable_range, min_max, on_far_side, Overlap};
pub use segment::Segment;
pub use shape::{Segments, SegmentsIter, Shape, ShapeWindingOrder};
pub use sight::{intersects_with_obstacle, ShapeVertexIndex};
pub use sign::{overlaps, Sign};
