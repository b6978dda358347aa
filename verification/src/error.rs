//! What routing can fail with.

use vstd::prelude::*;

verus! {

/// The failures of the router.
#[derive(Clone, Copy, Debug, PartialEq, Eq, Hash, Structural)]
pub enum RouteError {
    /// An endpoint lies outside the raw area.
    PointOutOfBounds,
    /// The start point lies on no crossing of two grid lines.
    StartNotOnGrid,
    /// The end point lies on no crossing of two grid lines.
    EndNotOnGrid,
    /// A grid index of the search lies outside the grid.
    IndexOutOfBounds,
    /// The start or end grid point of the search is masked.
    EndpointBlocked,
    /// The search ran out of states before it reached the goal.
    GoalNotFound,
    /// An endpoint or a node lies outside the accepted coordinate range,
    /// or a node has a negative size.
    CoordinateOutOfRange,
    /// The area that the batch spans holds more points than a raw area may.
    AreaTooLarge,
}

impl RouteError {
    pub open spec fn spec_message(&self) -> Seq<char> {
        match self {
            RouteError::PointOutOfBounds => "Start or end point is out of bounds"@,
            RouteError::StartNotOnGrid => "Start point is not on a grid point"@,
            RouteError::EndNotOnGrid => "End point is not on a grid point"@,
            RouteError::IndexOutOfBounds => "Start or end grid index out of bounds"@,
            RouteError::EndpointBlocked => "Start or end grid point is blocked"@,
            RouteError::GoalNotFound => "Goal not found."@,
            RouteError::CoordinateOutOfRange => "Coordinate out of range"@,
            RouteError::AreaTooLarge => "Routing area too large"@,
        }
    }

    /// The failure in words.
    pub fn message(&self) -> (s: String)
        ensures
            s@ == self.spec_message(),
    {
        match self {
            RouteError::PointOutOfBounds => "Start or end point is out of bounds".to_string(),
            RouteError::StartNotOnGrid => "Start point is not on a grid point".to_string(),
            RouteError::EndNotOnGrid => "End point is not on a grid point".to_string(),
            RouteError::IndexOutOfBounds => "Start or end grid index out of bounds".to_string(),
            RouteError::EndpointBlocked => "Start or end grid point is blocked".to_string(),
            RouteError::GoalNotFound => "Goal not found.".to_string(),
            RouteError::CoordinateOutOfRange => "Coordinate out of range".to_string(),
            RouteError::AreaTooLarge => "Routing area too large".to_string(),
        }
    }
}

} // verus!
