//! Modal filters for a road network: point filters on single roads,
//! diagonal filters across two roads of an intersection, an aggregate edit
//! state with a linear undo history, and the projection of the filters
//! onto a routing model of excluded roads and forbidden movements.
//!
//! The road-network graph itself is an external collaborator: callers hand
//! in what the logic reads of it — an intersection's driveable incident
//! roads in circular order, each road's length, ends and eligibility — as
//! plain values, and get plain values back.

pub mod cycle;
pub mod diagonal;
pub mod edits;
pub mod filters;
pub mod table;

pub use cycle::CandidateRoad;
pub use diagonal::DiagonalFilter;
pub use edits::{ChangeKey, Edits, RoutingConstraints};
pub use filters::{
    Crossing, CrossingType, FilterType, IntersectionID, RoadEditState, RoadFilter, RoadID, Speed,
    TravelFlow,
};
