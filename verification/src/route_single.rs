//! Routing of one edge: the search over the masked grid under the
//! congestion-aware cost, the L-shaped path that stands in where the search
//! finds none, and the bookkeeping of what the path occupies.

use vstd::prelude::*;
use rand::rngs::StdRng;
use crate::astar::{
    cost_covers, is_cheapest, is_grid_route, is_route, lemma_neighbors_valid, lemma_route_is_grid_route,
    link_is_grid_step, link_is_step, near_on_grid, pid, reachable, route_cost,
    route_visibility_astar, Lattice, MAX_SCORE,
};
use crate::cost::{columns_rise, rows_rise, CongestionCost};
use crate::error::RouteError;
use crate::geometry::{DirectedPoint, Orientation, PlacedRectangularNode, Point};
use crate::grid::{nodes_well_formed, Grid, GridPoint};
use crate::masked_grid::{
    grid_neighbors, lemma_covered_point_masked, lemma_line_avoids_nodes, masks_match, on_line,
    point_kept, MaskedGrid,
};
use crate::path::{corners_of, is_chain, link_aligned, segments_of, Path, PathWithEndpoints};
use crate::raw_area::{horizontal_segment, lemma_point_index, vertical_segment, RawArea, RawPoint};
use crate::usage::{add_usage, usage_added};

verus! {

/// Every horizontal grid segment of row `y` between the columns `x0` and
/// `x1` is traversable.
pub open spec fn row_clear(l: Lattice, y: int, x0: int, x1: int) -> bool {
    forall|k: int|
        x0 <= k < x1 ==> l.segment_mask[#[trigger] horizontal_segment(l.grid.width as int, k, y)]
}

/// Every vertical grid segment of column `x` between the rows `y0` and `y1`
/// is traversable.
pub open spec fn column_clear(l: Lattice, x: int, y0: int, y1: int) -> bool {
    forall|k: int|
        y0 <= k < y1 ==> l.segment_mask[#[trigger] vertical_segment(
            l.grid.width as int,
            l.grid.height as int,
            x,
            k,
        )]
}

/// Every grid segment on the straight line between two grid coordinates is
/// traversable; false for two coordinates that share neither row nor
/// column.
pub open spec fn clear_between(l: Lattice, a: (int, int), b: (int, int)) -> bool {
    if a == b {
        true
    } else if a.0 != b.0 && a.1 != b.1 {
        false
    } else if a.0 != b.0 {
        row_clear(l, a.1, if a.0 < b.0 {
            a.0
        } else {
            b.0
        }, if a.0 < b.0 {
            b.0
        } else {
            a.0
        })
    } else {
        column_clear(l, a.0, if a.1 < b.1 {
            a.1
        } else {
            b.1
        }, if a.1 < b.1 {
            b.1
        } else {
            a.1
        })
    }
}

/// The path from `start` over the corner in column `mid_x` and row `mid_y`
/// to `end`; the corner is left out where it is the start, and the end
/// where it is the start.
pub open spec fn l_shape(
    grid: Grid,
    start: GridPoint,
    end: GridPoint,
    end_orientation: Orientation,
    mid_x: int,
    mid_y: int,
    first: Orientation,
    second: Orientation,
) -> Seq<(GridPoint, Orientation)> {
    let mid = GridPoint((mid_y * grid.width + mid_x) as u32);
    let none = Seq::<(GridPoint, Orientation)>::empty();
    seq![(start, first)] + (if mid != start {
        seq![(mid, second)]
    } else {
        none
    }) + (if end != start {
        seq![(end, end_orientation)]
    } else {
        none
    })
}

/// The L-shaped path that stands in for a search without result: along the
/// row first and then along the column where that way is clear; else along
/// the column first, whether that way is clear or not.
pub open spec fn fallback_route(
    l: Lattice,
    start: GridPoint,
    end: GridPoint,
    end_orientation: Orientation,
) -> Seq<(GridPoint, Orientation)> {
    let s = (l.grid.col(start), l.grid.row(start));
    let e = (l.grid.col(end), l.grid.row(end));
    let row_first = clear_between(l, s, (e.0, s.1)) && clear_between(l, (e.0, s.1), e);
    if row_first {
        l_shape(
            l.grid,
            start,
            end,
            end_orientation,
            e.0,
            s.1,
            Orientation::Horizontal,
            Orientation::Vertical,
        )
    } else {
        l_shape(
            l.grid,
            start,
            end,
            end_orientation,
            s.0,
            e.1,
            Orientation::Vertical,
            Orientation::Horizontal,
        )
    }
}

/// Whether every grid segment on the straight line between two grid
/// coordinates is traversable.
pub fn segment_clear(masked_grid: &MaskedGrid, ax: usize, ay: usize, bx: usize, by: usize) -> (r:
    bool)
    requires
        masked_grid.well_formed(),
        ax < masked_grid.grid.width,
        bx < masked_grid.grid.width,
        ay < masked_grid.grid.height,
        by < masked_grid.grid.height,
    ensures
        r == clear_between(masked_grid.lattice(), (ax as int, ay as int), (bx as int, by as int)),
{
    let ghost l = masked_grid.lattice();
    if ax == bx && ay == by {
        return true;
    }
    if ax != bx && ay != by {
        return false;
    }
    if ax != bx {
        let lo = if ax < bx {
            ax
        } else {
            bx
        };
        let hi = if ax < bx {
            bx
        } else {
            ax
        };
        let mut x = lo;
        while x < hi
            invariant
                masked_grid.well_formed(),
                l == masked_grid.lattice(),
                lo <= x <= hi < masked_grid.grid.width,
                ay < masked_grid.grid.height,
                ax != bx,
                ay == by,
                lo == if ax < bx {
                    ax
                } else {
                    bx
                },
                hi == if ax < bx {
                    bx
                } else {
                    ax
                },
                row_clear(l, ay as int, lo as int, x as int),
            decreases hi - x,
        {
            let segment = masked_grid.grid.grid_coords_to_segment_index((x, ay), (x + 1, ay));
            if !masked_grid.segment_mask[segment] {
                proof {
                    assert(!l.segment_mask[horizontal_segment(
                        l.grid.width as int,
                        x as int,
                        ay as int,
                    )]);
                }
                return false;
            }
            x += 1;
        }
        true
    } else {
        let lo = if ay < by {
            ay
        } else {
            by
        };
        let hi = if ay < by {
            by
        } else {
            ay
        };
        let mut y = lo;
        while y < hi
            invariant
                masked_grid.well_formed(),
                l == masked_grid.lattice(),
                lo <= y <= hi < masked_grid.grid.height,
                ax < masked_grid.grid.width,
                ax == bx,
                ay != by,
                lo == if ay < by {
                    ay
                } else {
                    by
                },
                hi == if ay < by {
                    by
                } else {
                    ay
                },
                column_clear(l, ax as int, lo as int, y as int),
            decreases hi - y,
        {
            let segment = masked_grid.grid.grid_coords_to_segment_index((ax, y), (ax, y + 1));
            if !masked_grid.segment_mask[segment] {
                proof {
                    assert(!l.segment_mask[vertical_segment(
                        l.grid.width as int,
                        l.grid.height as int,
                        ax as int,
                        y as int,
                    )]);
                }
                return false;
            }
            y += 1;
        }
        true
    }
}

fn build_l_shape(
    grid: &Grid,
    start: GridPoint,
    end: GridPoint,
    end_orientation: Orientation,
    mid_x: usize,
    mid_y: usize,
    first: Orientation,
    second: Orientation,
) -> (out: Vec<(GridPoint, Orientation)>)
    requires
        grid.well_formed(),
        mid_x < grid.width,
        mid_y < grid.height,
    ensures
        out@ == l_shape(
            *grid,
            start,
            end,
            end_orientation,
            mid_x as int,
            mid_y as int,
            first,
            second,
        ),
{
    let mut out: Vec<(GridPoint, Orientation)> = Vec::new();
    out.push((start, first));
    match grid.grid_coords_to_grid_point(mid_x, mid_y) {
        Some(mid) => {
            if mid != start {
                out.push((mid, second));
            }
        },
        None => {},
    }
    if end != start {
        out.push((end, end_orientation));
    }
    proof {
        assert(out@ =~= l_shape(
            *grid,
            start,
            end,
            end_orientation,
            mid_x as int,
            mid_y as int,
            first,
            second,
        ));
    }
    out
}

/// The L-shaped path between two grid points that stands in for a search
/// without result.
pub fn fallback_path(
    masked_grid: &MaskedGrid,
    start: GridPoint,
    end: GridPoint,
    end_orientation: Orientation,
) -> (out: Vec<(GridPoint, Orientation)>)
    requires
        masked_grid.well_formed(),
        pid(start) < masked_grid.grid.size,
        pid(end) < masked_grid.grid.size,
    ensures
        out@ == fallback_route(masked_grid.lattice(), start, end, end_orientation),
{
    let grid = masked_grid.grid;
    let (sx, sy) = grid.grid_point_to_grid_coords(start).unwrap();
    let (ex, ey) = grid.grid_point_to_grid_coords(end).unwrap();
    let horizontal_then_vertical_ok = segment_clear(masked_grid, sx, sy, ex, sy) && segment_clear(
        masked_grid,
        ex,
        sy,
        ex,
        ey,
    );
    if horizontal_then_vertical_ok {
        build_l_shape(
            grid,
            start,
            end,
            end_orientation,
            ex,
            sy,
            Orientation::Horizontal,
            Orientation::Vertical,
        )
    } else {
        build_l_shape(
            grid,
            start,
            end,
            end_orientation,
            sx,
            ey,
            Orientation::Vertical,
            Orientation::Horizontal,
        )
    }
}

/// The points of the plane at which the states of a grid path lie.
pub open spec fn route_points(grid: Grid, states: Seq<(GridPoint, Orientation)>) -> Seq<Point> {
    Seq::new(states.len(), |i: int| grid.point_of(states[i].0))
}

/// The points of the plane at which the states of a grid path lie.
pub fn grid_path_points(grid: &Grid, grid_path: &Vec<(GridPoint, Orientation)>) -> (points: Vec<
    Point,
>)
    requires
        grid.well_formed(),
        forall|i: int| 0 <= i < grid_path.len() ==> pid((#[trigger] grid_path[i]).0) < grid.size,
    ensures
        points@ == route_points(*grid, grid_path@),
{
    let mut points: Vec<Point> = Vec::new();
    let mut i: usize = 0;
    while i < grid_path.len()
        invariant
            grid.well_formed(),
            forall|k: int| 0 <= k < grid_path.len() ==> pid((#[trigger] grid_path[k]).0) < grid.size,
            i <= grid_path.len(),
            points.len() == i,
            forall|k: int| 0 <= k < i ==> #[trigger] points[k] == grid.point_of(grid_path[k].0),
        decreases grid_path.len() - i,
    {
        let state = grid_path[i];
        let coords = grid.grid_point_to_raw_coords(state.0).unwrap();
        points.push(Point { x: coords.0, y: coords.1 });
        i += 1;
    }
    proof {
        assert(points@ =~= route_points(*grid, grid_path@));
    }
    points
}

/// The cost field of a routing pass, as the search sees it.
pub open spec fn congestion_cost<'a>(
    grid: &'a Grid,
    cost_prefix_x: &'a Vec<i64>,
    cost_prefix_y: &'a Vec<i64>,
    history_prefix_x: &'a Vec<i64>,
    history_prefix_y: &'a Vec<i64>,
    corner_usage: &'a Vec<i32>,
    corner_history: &'a Vec<i64>,
    base_cost: i64,
    corner_lambda: i64,
    corner_capacity: i32,
) -> CongestionCost<'a> {
    CongestionCost {
        grid,
        cost_prefix_x,
        cost_prefix_y,
        history_prefix_x,
        history_prefix_y,
        corner_usage,
        corner_history,
        base_cost,
        corner_lambda,
        corner_capacity,
    }
}

/// The grid path of an edge is what the search gives: a cheapest path of
/// steps from start to goal, at a cost below `MAX_SCORE`, where there is one
/// and both grid points are usable, and the L-shaped stand-in otherwise.
pub open spec fn is_routed<'a>(
    l: Lattice,
    cost: CongestionCost<'a>,
    start: (GridPoint, Orientation),
    goal: (GridPoint, Orientation),
    states: Seq<(GridPoint, Orientation)>,
) -> bool {
    if l.point_mask[pid(start.0)] && l.point_mask[pid(goal.0)] && reachable(l, cost, start, goal) {
        is_route(l, cost, start, goal, states) && route_cost(cost, states) < MAX_SCORE
            && is_cheapest(l, cost, start, goal, states)
    } else {
        states == fallback_route(l, start.0, goal.0, goal.1)
    }
}

/// The present and history costs and the parameters make a cost field:
/// every prefix buffer has one entry per raw point, present costs are at
/// least 1 per raw segment, and no history and no parameter is negative.
pub open spec fn cost_field_ok(
    grid: Grid,
    cost_prefix_x: Seq<i64>,
    cost_prefix_y: Seq<i64>,
    history_prefix_x: Seq<i64>,
    history_prefix_y: Seq<i64>,
    corner_history: Seq<i64>,
    base_cost: i64,
    corner_lambda: i64,
) -> bool {
    let area = grid.spec_raw_area();
    let w = area.spec_width();
    &&& cost_prefix_x.len() == area.spec_size()
    &&& cost_prefix_y.len() == area.spec_size()
    &&& history_prefix_x.len() == area.spec_size()
    &&& history_prefix_y.len() == area.spec_size()
    &&& corner_history.len() == area.spec_size()
    &&& rows_rise(cost_prefix_x, w, 1)
    &&& columns_rise(cost_prefix_y, w, 1)
    &&& rows_rise(history_prefix_x, w, 0)
    &&& columns_rise(history_prefix_y, w, 0)
    &&& forall|i: int| 0 <= i < corner_history.len() ==> 0 <= #[trigger] corner_history[i]
    &&& 0 <= base_cost
    &&& 0 <= corner_lambda
}

/// What routing one edge returns and does to the usage.
///
/// An endpoint outside the raw area gives `PointOutOfBounds`, a start point
/// off the grid `StartNotOnGrid`, an end point off the grid `EndNotOnGrid`,
/// and the usage stays as it was. Otherwise the result is the pair of the
/// endpoints' raw points and the path: a chain of points from the start
/// point to the end point, lying where the states of the edge's grid path
/// lie. Every raw segment and every corner of the path is counted once more.
pub open spec fn single_edge_outcome<'a>(
    l: Lattice,
    cost: CongestionCost<'a>,
    start: DirectedPoint,
    end: DirectedPoint,
    usage_before: Seq<i32>,
    corners_before: Seq<i32>,
    usage_after: Seq<i32>,
    corners_after: Seq<i32>,
    r: Result<((RawPoint, RawPoint), PathWithEndpoints), RouteError>,
) -> bool {
    let grid = l.grid;
    let area = grid.spec_raw_area();
    let outside = !area.contains(start.position()) || !area.contains(end.position());
    let start_off = !outside && !grid.on_grid(start.position());
    let end_off = !outside && !start_off && !grid.on_grid(end.position());
    &&& outside <==> r == Err::<((RawPoint, RawPoint), PathWithEndpoints), RouteError>(
        RouteError::PointOutOfBounds,
    )
    &&& start_off <==> r == Err::<((RawPoint, RawPoint), PathWithEndpoints), RouteError>(
        RouteError::StartNotOnGrid,
    )
    &&& end_off <==> r == Err::<((RawPoint, RawPoint), PathWithEndpoints), RouteError>(
        RouteError::EndNotOnGrid,
    )
    &&& r is Ok <==> !outside && !start_off && !end_off
    &&& r is Err ==> usage_after == usage_before && corners_after == corners_before
    &&& r is Ok ==> {
        let key = r.unwrap().0;
        let routed = r.unwrap().1;
        let points = routed.path.points@;
        &&& key.0 == RawPoint(area.index_of(start.position()) as u32)
        &&& key.1 == RawPoint(area.index_of(end.position()) as u32)
        &&& routed.start == start
        &&& routed.end == end
        &&& points.len() >= 1
        &&& points[0] == start.position()
        &&& points.last() == end.position()
        &&& is_chain(points)
        &&& exists|states: Seq<(GridPoint, Orientation)>|
            #![trigger route_points(grid, states)]
            points == route_points(grid, states) && is_routed(
                l,
                cost,
                (grid.grid_point_at(start.position()), start.direction.spec_to_orientation()),
                (grid.grid_point_at(end.position()), end.direction.spec_to_orientation()),
                states,
            )
        &&& usage_after == usage_added(usage_before, segments_of(points, area))
        &&& corners_after == usage_added(corners_before, corners_of(points, area))
    }
}

/// The states of a route are grid points of the grid, and each lies on one
/// row or one column with the next.
proof fn lemma_route_chain<'a>(
    l: Lattice,
    cost: CongestionCost<'a>,
    start: (GridPoint, Orientation),
    goal: (GridPoint, Orientation),
    states: Seq<(GridPoint, Orientation)>,
)
    requires
        l.well_formed(),
        pid(start.0) < l.grid.size,
        is_route(l, cost, start, goal, states),
    ensures
        forall|i: int| 0 <= i < states.len() ==> pid((#[trigger] states[i]).0) < l.grid.size,
        is_chain(route_points(l.grid, states)),
{
    let points = route_points(l.grid, states);
    assert forall|i: int| 0 <= i < states.len() implies pid((#[trigger] states[i]).0)
        < l.grid.size by {
        if i > 0 {
            assert(link_is_step(l, cost, start.0, goal.0, states, i - 1));
        }
    }
    assert forall|i: int| 0 <= i < points.len() - 1 implies #[trigger] link_aligned(points, i) by {
        assert(link_is_step(l, cost, start.0, goal.0, states, i));
        lemma_neighbors_valid(l, states[i].0, states[i].1, states[i + 1]);
        assert(near_on_grid(l.grid, states[i].0, states[i + 1].0));
    }
}

/// The states of the L-shaped stand-in are grid points of the grid, each on
/// one row or one column with the next, from the start to the end.
pub proof fn lemma_fallback_chain(
    l: Lattice,
    start: GridPoint,
    end: GridPoint,
    end_orientation: Orientation,
)
    requires
        l.well_formed(),
        pid(start) < l.grid.size,
        pid(end) < l.grid.size,
    ensures
        forall|i: int|
            0 <= i < fallback_route(l, start, end, end_orientation).len() ==> pid(
                (#[trigger] fallback_route(l, start, end, end_orientation)[i]).0,
            ) < l.grid.size,
        is_chain(route_points(l.grid, fallback_route(l, start, end, end_orientation))),
        fallback_route(l, start, end, end_orientation).len() >= 1,
        fallback_route(l, start, end, end_orientation)[0].0 == start,
        fallback_route(l, start, end, end_orientation).last().0 == end,
{
    let grid = l.grid;
    let states = fallback_route(l, start, end, end_orientation);
    let points = route_points(grid, states);
    let w = grid.width as int;
    let h = grid.height as int;
    grid.lemma_dimensions();
    grid.lemma_point(start);
    grid.lemma_point(end);
    let sx = grid.col(start);
    let sy = grid.row(start);
    let ex = grid.col(end);
    let ey = grid.row(end);
    lemma_point_index(w, h, ex, sy);
    lemma_point_index(w, h, sx, ey);
    let mid_a = GridPoint((sy * w + ex) as u32);
    let mid_b = GridPoint((ey * w + sx) as u32);
    assert(grid.col(mid_a) == ex && grid.row(mid_a) == sy);
    assert(grid.col(mid_b) == sx && grid.row(mid_b) == ey);
    assert forall|i: int| 0 <= i < states.len() implies pid((#[trigger] states[i]).0) < grid.size by {}
    assert forall|i: int| 0 <= i < points.len() - 1 implies #[trigger] link_aligned(points, i) by {
        assert(points[i] == grid.point_of(states[i].0));
        assert(points[i + 1] == grid.point_of(states[i + 1].0));
    }
}

/// The congestion cost is defined for every step between neighbours on
/// its grid.
proof fn lemma_congestion_covers<'a>(l: Lattice, cost: CongestionCost<'a>)
    requires
        l.well_formed(),
        cost.well_formed(),
        *cost.grid == l.grid,
    ensures
        cost_covers(l, cost),
{
    assert forall|p: GridPoint, o: Orientation, n: (GridPoint, Orientation)|
        pid(p) < l.grid.size && #[trigger] crate::masked_grid::neighbors_at(
            l.grid,
            l.segment_mask,
            p,
            o,
        ).contains(n) implies crate::astar::StepCost::covers(&cost, p, n.0, o, n.1) by {
        lemma_neighbors_valid(l, p, o, n);
    }
}

/// The grid path of an edge: what the search finds, or the L-shaped
/// stand-in where the search fails.
fn search_or_fallback<'a>(
    masked_grid: &MaskedGrid,
    cost_fn: &CongestionCost<'a>,
    start_grid_point: GridPoint,
    end_grid_point: GridPoint,
    start_orientation: Orientation,
    end_orientation: Orientation,
    rng: &mut StdRng,
) -> (states: Vec<(GridPoint, Orientation)>)
    requires
        masked_grid.well_formed(),
        cost_fn.well_formed(),
        *cost_fn.grid == *masked_grid.grid,
        pid(start_grid_point) < masked_grid.grid.size,
        pid(end_grid_point) < masked_grid.grid.size,
    ensures
        is_routed(
            masked_grid.lattice(),
            *cost_fn,
            (start_grid_point, start_orientation),
            (end_grid_point, end_orientation),
            states@,
        ),
        forall|i: int| 0 <= i < states.len() ==> pid((#[trigger] states[i]).0) < masked_grid.grid.size,
        is_chain(route_points(*masked_grid.grid, states@)),
        states.len() >= 1,
        states[0].0 == start_grid_point,
        states@.last().0 == end_grid_point,
{
    let ghost l = masked_grid.lattice();
    proof {
        lemma_congestion_covers(l, *cost_fn);
    }
    let searched = route_visibility_astar(
        masked_grid,
        start_grid_point,
        end_grid_point,
        start_orientation,
        end_orientation,
        rng,
        cost_fn,
    );
    match searched {
        Ok(path) => {
            proof {
                lemma_route_chain(
                    l,
                    *cost_fn,
                    (start_grid_point, start_orientation),
                    (end_grid_point, end_orientation),
                    path@,
                );
            }
            path
        },
        Err(_) => {
            proof {
                lemma_fallback_chain(l, start_grid_point, end_grid_point, end_orientation);
            }
            fallback_path(masked_grid, start_grid_point, end_grid_point, end_orientation)
        },
    }
}

/// Routes one edge over the masked grid and counts what its path occupies.
#[verifier::rlimit(40)]
pub fn route_single_edge(
    grid: &Grid,
    raw_area: &RawArea,
    masked_grid: &MaskedGrid,
    start: DirectedPoint,
    end: DirectedPoint,
    rng: &mut StdRng,
    raw_cost_prefix_x: &Vec<i64>,
    raw_cost_prefix_y: &Vec<i64>,
    raw_history_cost_prefix_x: &Vec<i64>,
    raw_history_cost_prefix_y: &Vec<i64>,
    raw_usage: &mut Vec<i32>,
    raw_corner_usage: &mut Vec<i32>,
    raw_corner_history: &Vec<i64>,
    base_cost: i64,
    corner_lambda: i64,
    corner_capacity: i32,
) -> (r: Result<((RawPoint, RawPoint), PathWithEndpoints), RouteError>)
    requires
        grid.well_formed(),
        *raw_area == grid.spec_raw_area(),
        masked_grid.well_formed(),
        *masked_grid.grid == *grid,
        old(raw_usage).len() == raw_area.spec_num_segments(),
        old(raw_corner_usage).len() == raw_area.spec_size(),
        cost_field_ok(
            *grid,
            raw_cost_prefix_x@,
            raw_cost_prefix_y@,
            raw_history_cost_prefix_x@,
            raw_history_cost_prefix_y@,
            raw_corner_history@,
            base_cost,
            corner_lambda,
        ),
    ensures
        final(raw_usage).len() == old(raw_usage).len(),
        final(raw_corner_usage).len() == old(raw_corner_usage).len(),
        single_edge_outcome(
            masked_grid.lattice(),
            congestion_cost(
                grid,
                raw_cost_prefix_x,
                raw_cost_prefix_y,
                raw_history_cost_prefix_x,
                raw_history_cost_prefix_y,
                &*old(raw_corner_usage),
                raw_corner_history,
                base_cost,
                corner_lambda,
                corner_capacity,
            ),
            start,
            end,
            old(raw_usage)@,
            old(raw_corner_usage)@,
            final(raw_usage)@,
            final(raw_corner_usage)@,
            r,
        ),
{
    let ghost l = masked_grid.lattice();
    let start_point = start.as_point();
    let end_point = end.as_point();
    let start_raw_point = match raw_area.point_to_raw_point(&start_point) {
        Some(p) => p,
        None => {
            return Err(RouteError::PointOutOfBounds);
        },
    };
    let end_raw_point = match raw_area.point_to_raw_point(&end_point) {
        Some(p) => p,
        None => {
            return Err(RouteError::PointOutOfBounds);
        },
    };
    let start_grid_point = match grid.point_to_grid_point(&start_point) {
        Some(p) => p,
        None => {
            return Err(RouteError::StartNotOnGrid);
        },
    };
    let end_grid_point = match grid.point_to_grid_point(&end_point) {
        Some(p) => p,
        None => {
            return Err(RouteError::EndNotOnGrid);
        },
    };
    let start_orientation = start.direction.to_orientation();
    let end_orientation = end.direction.to_orientation();

    let cost_fn = CongestionCost {
        grid,
        cost_prefix_x: raw_cost_prefix_x,
        cost_prefix_y: raw_cost_prefix_y,
        history_prefix_x: raw_history_cost_prefix_x,
        history_prefix_y: raw_history_cost_prefix_y,
        corner_usage: &*raw_corner_usage,
        corner_history: raw_corner_history,
        base_cost,
        corner_lambda,
        corner_capacity,
    };
    let ghost cost = cost_fn;
    let grid_path = search_or_fallback(
        masked_grid,
        &cost_fn,
        start_grid_point,
        end_grid_point,
        start_orientation,
        end_orientation,
        rng,
    );
    let grid_points = grid_path_points(grid, &grid_path);
    let ghost points = grid_points@;
    assert(points[0] == start.position());
    assert(points.last() == end.position());
    let path = Path::new(grid_points);
    let path_with_endpoints = PathWithEndpoints::new(path, start, end);
    let segments = path_with_endpoints.segments(raw_area);
    add_usage(raw_usage, &segments.indices);
    let corners = path_with_endpoints.corners(raw_area);
    add_usage(raw_corner_usage, &corners.indices);
    Ok(((start_raw_point, end_raw_point), path_with_endpoints))
}

/// The grid path of an edge has one of two shapes: a route that the masked
/// grid allows from the start state to the goal state, or the L-shaped
/// stand-in. Where the masked grid allows no route, it is the stand-in.
pub open spec fn route_shape(
    l: Lattice,
    start: (GridPoint, Orientation),
    goal: (GridPoint, Orientation),
    states: Seq<(GridPoint, Orientation)>,
) -> bool {
    &&& is_grid_route(l, start, goal, states) || states == fallback_route(
        l,
        start.0,
        goal.0,
        goal.1,
    )
    &&& !(exists|other: Seq<(GridPoint, Orientation)>| #[trigger]
        is_grid_route(l, start, goal, other)) ==> states == fallback_route(
        l,
        start.0,
        goal.0,
        goal.1,
    )
}

/// What the search gives has one of the two shapes of a grid path.
pub proof fn lemma_routed_shape<'a>(
    l: Lattice,
    cost: CongestionCost<'a>,
    start: (GridPoint, Orientation),
    goal: (GridPoint, Orientation),
    states: Seq<(GridPoint, Orientation)>,
)
    requires
        pid(start.0) < l.grid.size,
        is_routed(l, cost, start, goal, states),
    ensures
        route_shape(l, start, goal, states),
{
    if l.point_mask[pid(start.0)] && l.point_mask[pid(goal.0)] && reachable(l, cost, start, goal) {
        lemma_route_is_grid_route(l, cost, start, goal, states);
    }
}

/// Every state of a route that the masked grid allows lies on a usable grid
/// point.
pub proof fn lemma_route_usable(
    l: Lattice,
    start: (GridPoint, Orientation),
    goal: (GridPoint, Orientation),
    states: Seq<(GridPoint, Orientation)>,
)
    requires
        is_grid_route(l, start, goal, states),
    ensures
        forall|i: int|
            0 <= i < states.len() ==> pid((#[trigger] states[i]).0) < l.grid.size
                && l.point_mask[pid(states[i].0)],
{
    assert forall|i: int| 0 <= i < states.len() implies pid((#[trigger] states[i]).0) < l.grid.size
        && l.point_mask[pid(states[i].0)] by {
        if i > 0 {
            assert(link_is_grid_step(l, start.0, goal.0, states, i - 1));
        }
    }
}

/// A route over a grid masked for the nodes keeps clear of the nodes: no
/// point of the straight line between two successive states of the route
/// lies on or inside a node, unless one of the two states stands on a grid
/// point that was to be kept whatever the nodes cover.
pub proof fn lemma_route_avoids_nodes(
    l: Lattice,
    start: (GridPoint, Orientation),
    goal: (GridPoint, Orientation),
    states: Seq<(GridPoint, Orientation)>,
    nodes: Seq<PlacedRectangularNode>,
    unremovable: Seq<GridPoint>,
    n: int,
    i: int,
    q: Point,
)
    requires
        l.well_formed(),
        nodes_well_formed(nodes),
        masks_match(
            l.grid,
            l.point_mask,
            l.segment_mask,
            nodes,
            nodes.len() as int,
            unremovable,
        ),
        is_grid_route(l, start, goal, states),
        0 <= n < nodes.len(),
        0 <= i < states.len() - 1,
        !point_kept(unremovable, pid(states[i].0)),
        !point_kept(unremovable, pid(states[i + 1].0)),
        on_line(l.grid.point_of(states[i].0), l.grid.point_of(states[i + 1].0), q),
    ensures
        !nodes[n].covers(q.x as int, q.y as int),
{
    lemma_route_usable(l, start, goal, states);
    let a = states[i].0;
    let b = states[i + 1].0;
    assert(link_is_grid_step(l, start.0, goal.0, states, i));
    lemma_neighbors_valid(l, a, states[i].1, states[i + 1]);
    assert(l.point_mask[pid(states[i].0)] && l.point_mask[pid(states[i + 1].0)]);
    if a == b {
        if nodes[n].covers(q.x as int, q.y as int) {
            lemma_covered_point_masked(
                l.grid,
                l.point_mask,
                l.segment_mask,
                nodes,
                unremovable,
                n,
                pid(a),
            );
        }
    } else {
        assert(grid_neighbors(l.grid, a, b));
        lemma_line_avoids_nodes(
            l.grid,
            l.point_mask,
            l.segment_mask,
            nodes,
            unremovable,
            n,
            a,
            b,
            q,
        );
    }
}

} // verus!
