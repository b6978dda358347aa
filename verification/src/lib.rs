//! A global edge router for diagrams of rectangular nodes.
//!
//! Given placed axis-aligned rectangles and a batch of edges with directed
//! endpoints, the router lays a non-uniform grid over the plane, masks what
//! the nodes cover, and negotiates orthogonal paths for all edges: it routes
//! every edge by a shortest-path search under congestion-aware costs, and
//! rips up and routes again the edges that pass segments or corners in use
//! beyond their capacity.

pub mod astar;
pub mod cost;
pub mod edge_router;
pub mod error;
pub mod frontier;
pub mod geometry;
pub mod grid;
pub mod lines;
pub mod masked_grid;
pub mod negotiation;
pub mod node_tree;
pub mod path;
pub mod random;
pub mod raw_area;
pub mod ripup;
pub mod route_single;
pub mod seed;
pub mod table;
pub mod trace;
pub mod usage;

pub use edge_router::EdgeRouter;
pub use error::RouteError;
pub use geometry::{
    BoundingBox, DirectedPoint, Direction, Layoutable, Neighborhood, Orientation,
    PlacedRectangularNode, Point, PointLike, Rectangle, RectangularNode, Size,
};
pub use grid::{Grid, GridPoint, GridSegment};
pub use masked_grid::MaskedGrid;
pub use path::{
    EdgeRoutingResult, EdgeRoutingsResult, Path, PathCorners, PathSegments, PathWithEndpoints,
    RoutingConfig,
};
pub use raw_area::{RawArea, RawPoint, RawSegment};
pub use ripup::EdgeRequest;
