//! The leaf data of the edit model: identifiers, road-level filters,
//! crossings, and per-road overrides.

use vstd::prelude::*;

verus! {

/// Stable identifier of a road, handed out by the road-graph provider and
/// never reused within a session.
pub type RoadID = u64;

/// Stable identifier of an intersection, handed out by the road-graph
/// provider and never reused within a session.
pub type IntersectionID = u64;

/// A distance along a road, in millimetres from the road's start.
pub type DistanceMm = u64;

/// A speed limit, in millimetres per second.
pub type Speed = u64;

/// What kind of physical device a filter is. Purely descriptive: every kind
/// blocks the same movements; the kind only decides how the filter is drawn.
#[derive(Clone, Copy, Debug, PartialEq, Eq, Structural)]
pub enum FilterType {
    NoEntry,
    WalkCycleOnly,
    BusGate,
    SchoolStreet,
}

impl FilterType {
    /// The icon used to draw this kind of filter.
    pub fn svg_path(self) -> (r: &'static str)
        ensures
            self == FilterType::NoEntry ==> r@ == "system/assets/tools/no_entry.svg"@,
            self == FilterType::WalkCycleOnly ==> r@ == "system/assets/tools/modal_filter.svg"@,
            self == FilterType::BusGate ==> r@ == "system/assets/tools/bus_gate.svg"@,
            self == FilterType::SchoolStreet ==> r@ == "system/assets/tools/school_street.svg"@,
    {
        match self {
            FilterType::NoEntry => "system/assets/tools/no_entry.svg",
            FilterType::WalkCycleOnly => "system/assets/tools/modal_filter.svg",
            FilterType::BusGate => "system/assets/tools/bus_gate.svg",
            FilterType::SchoolStreet => "system/assets/tools/school_street.svg",
        }
    }
}

/// A filter placed at a point along a single road.
#[derive(Clone, Copy, Debug, PartialEq, Eq, Structural)]
pub struct RoadFilter {
    pub dist: DistanceMm,
    pub filter_type: FilterType,
    /// False marks a filter inherited from a prior edit layer; it affects
    /// rendering only, never legality.
    pub user_modified: bool,
}

impl RoadFilter {
    /// A filter freshly placed by the user.
    pub fn new_by_user(dist: DistanceMm, filter_type: FilterType) -> (r: RoadFilter)
        ensures
            r == (RoadFilter { dist, filter_type, user_modified: true }),
    {
        RoadFilter { dist, filter_type, user_modified: true }
    }
}

/// What kind of pedestrian crossing sits on a road.
#[derive(Clone, Copy, Debug, PartialEq, Eq, Structural)]
pub enum CrossingType {
    Signalized,
    Unsignalized,
}

/// A pedestrian crossing at a point along a road. Within one road the
/// crossings are kept sorted by increasing distance.
#[derive(Clone, Copy, Debug, PartialEq, Eq, Structural)]
pub struct Crossing {
    pub kind: CrossingType,
    pub dist: DistanceMm,
    pub user_modified: bool,
}

/// Which directions of travel a road allows after an edit.
#[derive(Clone, Copy, Debug, PartialEq, Eq, Structural)]
pub enum TravelFlow {
    TwoWay,
    OneWayForward,
    OneWayBackward,
}

/// The current state of a road whose direction or speed limit was edited.
#[derive(Clone, Copy, Debug, PartialEq, Eq, Structural)]
pub struct RoadEditState {
    pub flow: TravelFlow,
    pub speed_limit: Speed,
}

} // verus!
