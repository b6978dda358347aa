use netext_core::astar::StepCost;
use netext_core::cost::{segment_cost_from_prefix_sums, CongestionCost};
use netext_core::error::RouteError;
use netext_core::geometry::{DirectedPoint, Direction, Orientation, Point};
use netext_core::grid::{Grid, GridPoint};
use netext_core::masked_grid::MaskedGrid;
use netext_core::raw_area::{RawArea, RawPoint};
use netext_core::route_single::{fallback_path, grid_path_points, route_single_edge, segment_clear};
use rand::rngs::StdRng;
use rand::SeedableRng;

const H: Orientation = Orientation::Horizontal;
const V: Orientation = Orientation::Vertical;

fn dp(x: i32, y: i32, d: Direction) -> DirectedPoint {
    DirectedPoint::new(x, y, d)
}

struct Field {
    area: RawArea,
    usage: Vec<i32>,
    corner_usage: Vec<i32>,
    corner_history: Vec<i64>,
    px: Vec<i64>,
    py: Vec<i64>,
    hx: Vec<i64>,
    hy: Vec<i64>,
}

fn field(grid: &Grid, cost: &dyn Fn(usize) -> i64, history: &dyn Fn(usize) -> i64) -> Field {
    let area = grid.raw_area();
    let n = area.num_segments();
    let size = area.size();
    let costs: Vec<i64> = (0..n).map(cost).collect();
    let histories: Vec<i64> = (0..n).map(history).collect();
    let mut px = vec![0; size];
    let mut py = vec![0; size];
    let mut hx = vec![0; size];
    let mut hy = vec![0; size];
    area.edge_prefix_sums(&costs, &mut px, &mut py);
    area.edge_prefix_sums(&histories, &mut hx, &mut hy);
    Field {
        area,
        usage: vec![0; n],
        corner_usage: vec![0; size],
        corner_history: vec![0; size],
        px,
        py,
        hx,
        hy,
    }
}

fn route(
    grid: &Grid,
    masked: &MaskedGrid,
    f: &mut Field,
    start: DirectedPoint,
    end: DirectedPoint,
) -> Result<((RawPoint, RawPoint), netext_core::path::PathWithEndpoints), RouteError> {
    let mut rng = StdRng::seed_from_u64(11);
    route_single_edge(
        grid,
        &f.area,
        masked,
        start,
        end,
        &mut rng,
        &f.px,
        &f.py,
        &f.hx,
        &f.hy,
        &mut f.usage,
        &mut f.corner_usage,
        &f.corner_history,
        1,
        5,
        1,
    )
}

fn open(grid: &Grid) -> MaskedGrid<'_> {
    MaskedGrid {
        grid,
        point_mask: vec![true; grid.size],
        segment_mask: vec![true; grid.num_segments],
    }
}

// x_lines -3 0 2 5 8 10 13, y_lines -3 0 2 5 8
fn grid() -> Grid {
    Grid::from_edges_and_nodes(&vec![(Point::new(0, 0), Point::new(10, 5))], &Vec::new())
}

#[test]
fn range_sums_between_grid_points() {
    let g = grid();
    let f = field(&g, &|i| (i % 5) as i64 + 1, &|_| 0);
    let a = g.point_to_grid_point(&Point::new(2, 2)).unwrap();
    let b = g.point_to_grid_point(&Point::new(5, 2)).unwrap();
    let c = g.point_to_grid_point(&Point::new(2, 5)).unwrap();
    let sum = |from: Point, to: Point| -> i64 {
        let mut total = 0;
        let mut p = from;
        while p != to {
            let q = Point::new(p.x + (to.x - p.x).signum(), p.y + (to.y - p.y).signum());
            total += (f.area.segment_index_between(&p, &q).unwrap() % 5) as i64 + 1;
            p = q;
        }
        total
    };
    let pa = Point::new(2, 2);
    let pb = Point::new(5, 2);
    let pc = Point::new(2, 5);
    assert_eq!(segment_cost_from_prefix_sums(&g, &f.px, &f.py, a, b, pa, pb), sum(pa, pb) as i128);
    assert_eq!(segment_cost_from_prefix_sums(&g, &f.px, &f.py, b, a, pb, pa), sum(pa, pb) as i128);
    assert_eq!(segment_cost_from_prefix_sums(&g, &f.px, &f.py, a, c, pa, pc), sum(pa, pc) as i128);
    assert_eq!(segment_cost_from_prefix_sums(&g, &f.px, &f.py, c, a, pc, pa), sum(pa, pc) as i128);
    assert_eq!(segment_cost_from_prefix_sums(&g, &f.px, &f.py, a, a, pa, pa), 0);
}

#[test]
fn cost_of_moves_and_turns() {
    let g = grid();
    let mut f = field(&g, &|_| 1, &|_| 0);
    let a = g.point_to_grid_point(&Point::new(2, 2)).unwrap();
    let b = g.point_to_grid_point(&Point::new(5, 2)).unwrap();
    let at = f.area.point_to_raw_point(&Point::new(2, 2)).unwrap().0 as usize;
    {
        let cost = CongestionCost {
            grid: &g,
            cost_prefix_x: &f.px,
            cost_prefix_y: &f.py,
            history_prefix_x: &f.hx,
            history_prefix_y: &f.hy,
            corner_usage: &f.corner_usage,
            corner_history: &f.corner_history,
            base_cost: 1,
            corner_lambda: 5,
            corner_capacity: 1,
        };
        // three raw segments at 1 each
        assert_eq!(cost.cost(a, b, H, H), 3);
        // a turn on an unused point
        assert_eq!(cost.cost(a, a, H, V), 1);
    }
    f.corner_usage[at] = 1;
    f.corner_history[at] = 3;
    {
        let cost = CongestionCost {
            grid: &g,
            cost_prefix_x: &f.px,
            cost_prefix_y: &f.py,
            history_prefix_x: &f.hx,
            history_prefix_y: &f.hy,
            corner_usage: &f.corner_usage,
            corner_history: &f.corner_history,
            base_cost: 1,
            corner_lambda: 5,
            corner_capacity: 1,
        };
        // 1 for the turn, 1 for the reuse, half of 3 for the history, cut down to a whole number
        assert_eq!(cost.cost(a, a, V, H), 3);
    }
    f.corner_usage[at] = 3;
    f.corner_history[at] = 4;
    let cost = CongestionCost {
        grid: &g,
        cost_prefix_x: &f.px,
        cost_prefix_y: &f.py,
        history_prefix_x: &f.hx,
        history_prefix_y: &f.hy,
        corner_usage: &f.corner_usage,
        corner_history: &f.corner_history,
        base_cost: 1,
        corner_lambda: 5,
        corner_capacity: 1,
    };
    // 1 + 1 + 5 * (3 - 1) + 4 / 2
    assert_eq!(cost.cost(a, a, V, H), 14);
}

#[test]
fn cost_counts_half_the_history() {
    let g = grid();
    let f = field(&g, &|_| 2, &|_| 3);
    let a = g.point_to_grid_point(&Point::new(2, 2)).unwrap();
    let b = g.point_to_grid_point(&Point::new(5, 2)).unwrap();
    let c = g.point_to_grid_point(&Point::new(2, 0)).unwrap();
    let cost = CongestionCost {
        grid: &g,
        cost_prefix_x: &f.px,
        cost_prefix_y: &f.py,
        history_prefix_x: &f.hx,
        history_prefix_y: &f.hy,
        corner_usage: &f.corner_usage,
        corner_history: &f.corner_history,
        base_cost: 1,
        corner_lambda: 5,
        corner_capacity: 1,
    };
    // 3 segments: 3 * 2 + 9 / 2 = 10.5
    assert_eq!(cost.cost(a, b, H, H), 10);
    assert_eq!(cost.cost(b, a, H, H), 10);
    // 2 segments: 2 * 2 + 6 / 2
    assert_eq!(cost.cost(a, c, V, V), 7);
}

#[test]
fn clear_runs_of_segments() {
    let g = grid();
    let mut masked = open(&g);
    assert!(segment_clear(&masked, 1, 1, 5, 1));
    assert!(segment_clear(&masked, 5, 1, 1, 1));
    assert!(segment_clear(&masked, 2, 0, 2, 4));
    assert!(segment_clear(&masked, 2, 2, 2, 2));
    assert!(!segment_clear(&masked, 1, 1, 2, 2));
    let s = g.grid_coords_to_segment_index((3, 1), (4, 1));
    masked.segment_mask[s] = false;
    assert!(!segment_clear(&masked, 1, 1, 5, 1));
    assert!(!segment_clear(&masked, 5, 1, 1, 1));
    assert!(segment_clear(&masked, 1, 1, 3, 1));
    assert!(segment_clear(&masked, 4, 1, 6, 1));
    assert!(segment_clear(&masked, 1, 2, 5, 2));
}

#[test]
fn fallback_prefers_the_row_first() {
    let g = grid();
    let masked = open(&g);
    let start = g.point_to_grid_point(&Point::new(0, 0)).unwrap();
    let end = g.point_to_grid_point(&Point::new(10, 5)).unwrap();
    let corner = g.point_to_grid_point(&Point::new(10, 0)).unwrap();
    assert_eq!(fallback_path(&masked, start, end, V), vec![(start, H), (corner, V), (end, V)]);
}

#[test]
fn fallback_goes_along_the_column_first_when_both_ways_are_blocked() {
    let g = grid();
    let mut closed = open(&g);
    for s in 0..g.num_segments {
        closed.segment_mask[s] = false;
    }
    let start = g.point_to_grid_point(&Point::new(0, 0)).unwrap();
    let end = g.point_to_grid_point(&Point::new(10, 5)).unwrap();
    let corner = g.point_to_grid_point(&Point::new(0, 5)).unwrap();
    assert_eq!(fallback_path(&closed, start, end, H), vec![(start, V), (corner, H), (end, H)]);
    // one masked segment on either way is enough
    let mut both = open(&g);
    let on_row = g.grid_coords_to_segment_index((2, 1), (3, 1));
    let on_column = g.grid_coords_to_segment_index((1, 2), (1, 3));
    both.segment_mask[on_row] = false;
    both.segment_mask[on_column] = false;
    assert_eq!(fallback_path(&both, start, end, V), vec![(start, V), (corner, H), (end, V)]);
}

#[test]
fn fallback_goes_along_the_column_first_when_only_that_way_is_clear() {
    let g = grid();
    let mut masked = open(&g);
    let s = g.grid_coords_to_segment_index((2, 1), (3, 1));
    masked.segment_mask[s] = false;
    let start = g.point_to_grid_point(&Point::new(0, 0)).unwrap();
    let end = g.point_to_grid_point(&Point::new(10, 5)).unwrap();
    let corner = g.point_to_grid_point(&Point::new(0, 5)).unwrap();
    assert_eq!(fallback_path(&masked, start, end, H), vec![(start, V), (corner, H), (end, H)]);
}

#[test]
fn fallback_between_points_of_one_row_or_one_point() {
    let g = grid();
    let masked = open(&g);
    let a = g.point_to_grid_point(&Point::new(0, 0)).unwrap();
    let b = g.point_to_grid_point(&Point::new(10, 0)).unwrap();
    assert_eq!(fallback_path(&masked, a, b, H), vec![(a, H), (b, V), (b, H)]);
    assert_eq!(fallback_path(&masked, a, a, V), vec![(a, H)]);
    let c = g.point_to_grid_point(&Point::new(0, 5)).unwrap();
    assert_eq!(fallback_path(&masked, a, c, H), vec![(a, H), (c, H)]);
}

#[test]
fn points_of_a_grid_path() {
    let g = grid();
    let a = g.point_to_grid_point(&Point::new(0, 0)).unwrap();
    let b = g.point_to_grid_point(&Point::new(10, 5)).unwrap();
    assert_eq!(
        grid_path_points(&g, &vec![(a, H), (a, V), (b, V)]),
        vec![Point::new(0, 0), Point::new(0, 0), Point::new(10, 5)]
    );
    assert_eq!(g.grid_point_to_point(GridPoint(0)), Some(Point::new(-3, -3)));
}

#[test]
fn single_edge_along_a_row() {
    let g = Grid::from_edges_and_nodes(&vec![(Point::new(0, 0), Point::new(10, 0))], &Vec::new());
    let masked = open(&g);
    let mut f = field(&g, &|_| 1, &|_| 0);
    let start = dp(0, 0, Direction::Right);
    let end = dp(10, 0, Direction::Left);
    let (key, routed) = route(&g, &masked, &mut f, start, end).unwrap();
    assert_eq!(key.0, f.area.point_to_raw_point(&Point::new(0, 0)).unwrap());
    assert_eq!(key.1, f.area.point_to_raw_point(&Point::new(10, 0)).unwrap());
    assert_eq!(routed.start, start);
    assert_eq!(routed.end, end);
    assert_eq!(
        routed.path.points,
        vec![Point::new(0, 0), Point::new(2, 0), Point::new(5, 0), Point::new(8, 0), Point::new(10, 0)]
    );
    for x in 0..10 {
        let s = f.area.segment_index_between(&Point::new(x, 0), &Point::new(x + 1, 0)).unwrap();
        assert_eq!(f.usage[s], 1);
    }
    assert_eq!(f.usage.iter().sum::<i32>(), 10);
    assert_eq!(f.corner_usage.iter().sum::<i32>(), 0);
}

#[test]
fn single_edge_avoids_expensive_segments() {
    let g = Grid::from_edges_and_nodes(&vec![(Point::new(0, 0), Point::new(10, 0))], &Vec::new());
    let masked = open(&g);
    let area = g.raw_area();
    let blocked = area.segment_index_between(&Point::new(5, 0), &Point::new(6, 0)).unwrap();
    let mut f = field(&g, &|i| if i == blocked { 1000 } else { 1 }, &|_| 0);
    let (_, routed) = route(&g, &masked, &mut f, dp(0, 0, Direction::Right), dp(10, 0, Direction::Left)).unwrap();
    assert_eq!(f.usage[blocked], 0);
    assert_eq!(routed.path.points[0], Point::new(0, 0));
    assert_eq!(*routed.path.points.last().unwrap(), Point::new(10, 0));
    assert!(routed.corners(&f.area).indices.len() >= 4);
    assert_eq!(
        f.corner_usage.iter().sum::<i32>() as usize,
        routed.corners(&f.area).indices.len()
    );
}

#[test]
fn single_edge_falls_back_to_an_l_shape() {
    let g = Grid::from_edges_and_nodes(&vec![(Point::new(0, 0), Point::new(10, 5))], &Vec::new());
    let mut masked = open(&g);
    for s in 0..g.num_segments {
        masked.segment_mask[s] = false;
    }
    let mut f = field(&g, &|_| 1, &|_| 0);
    let start = dp(0, 0, Direction::Right);
    let end = dp(10, 5, Direction::Up);
    let (_, routed) = route(&g, &masked, &mut f, start, end).unwrap();
    // neither way is clear: along the column first
    assert_eq!(routed.path.points, vec![Point::new(0, 0), Point::new(0, 5), Point::new(10, 5)]);
    let out = routed.to_directed_points();
    assert_eq!(out[0], start);
    assert_eq!(*out.last().unwrap(), dp(10, 5, Direction::Down));
    assert_eq!(out.len(), 6 + 11 + 1);
    assert_eq!(f.usage.iter().sum::<i32>(), 15);
    let corner = f.area.point_to_raw_point(&Point::new(0, 5)).unwrap().0 as usize;
    assert_eq!(f.corner_usage[corner], 1);
    assert_eq!(f.corner_usage.iter().sum::<i32>(), 1);
}

#[test]
fn single_edge_with_a_masked_start_takes_the_clear_row_first() {
    let g = Grid::from_edges_and_nodes(&vec![(Point::new(0, 0), Point::new(10, 5))], &Vec::new());
    let mut masked = open(&g);
    let start_point = g.point_to_grid_point(&Point::new(0, 0)).unwrap();
    masked.point_mask[start_point.0 as usize] = false;
    let mut f = field(&g, &|_| 1, &|_| 0);
    let (_, routed) =
        route(&g, &masked, &mut f, dp(0, 0, Direction::Right), dp(10, 5, Direction::Up)).unwrap();
    assert_eq!(routed.path.points, vec![Point::new(0, 0), Point::new(10, 0), Point::new(10, 5)]);
    // with the row blocked the corner lies on the start's column
    let on_row = g.grid_coords_to_segment_index((2, 1), (3, 1));
    masked.segment_mask[on_row] = false;
    let mut f = field(&g, &|_| 1, &|_| 0);
    let (_, routed) =
        route(&g, &masked, &mut f, dp(0, 0, Direction::Right), dp(10, 5, Direction::Up)).unwrap();
    assert_eq!(routed.path.points, vec![Point::new(0, 0), Point::new(0, 5), Point::new(10, 5)]);
}

#[test]
fn single_edge_falls_back_when_an_endpoint_is_masked() {
    let g = Grid::from_edges_and_nodes(&vec![(Point::new(0, 0), Point::new(10, 0))], &Vec::new());
    let mut masked = open(&g);
    let end_point = g.point_to_grid_point(&Point::new(10, 0)).unwrap();
    masked.point_mask[end_point.0 as usize] = false;
    let mut f = field(&g, &|_| 1, &|_| 0);
    let (_, routed) = route(&g, &masked, &mut f, dp(0, 0, Direction::Right), dp(10, 0, Direction::Left)).unwrap();
    assert_eq!(routed.path.points, vec![Point::new(0, 0), Point::new(10, 0), Point::new(10, 0)]);
    assert_eq!(
        routed.to_directed_points().len(),
        12
    );
}

#[test]
fn single_edge_errors() {
    let g = Grid::from_edges_and_nodes(&vec![(Point::new(0, 0), Point::new(10, 0))], &Vec::new());
    let masked = open(&g);
    let mut f = field(&g, &|_| 1, &|_| 0);
    let on = dp(0, 0, Direction::Right);
    assert_eq!(
        route(&g, &masked, &mut f, dp(-4, 0, Direction::Right), on).err(),
        Some(RouteError::PointOutOfBounds)
    );
    assert_eq!(
        route(&g, &masked, &mut f, on, dp(0, 4, Direction::Right)).err(),
        Some(RouteError::PointOutOfBounds)
    );
    assert_eq!(
        route(&g, &masked, &mut f, dp(1, 0, Direction::Right), on).err(),
        Some(RouteError::StartNotOnGrid)
    );
    assert_eq!(
        route(&g, &masked, &mut f, on, dp(0, 1, Direction::Right)).err(),
        Some(RouteError::EndNotOnGrid)
    );
    assert_eq!(
        route(&g, &masked, &mut f, dp(1, 1, Direction::Right), dp(-9, 0, Direction::Right)).err(),
        Some(RouteError::PointOutOfBounds)
    );
    assert_eq!(f.usage.iter().sum::<i32>(), 0);
}

#[test]
fn error_messages() {
    assert_eq!(RouteError::PointOutOfBounds.message(), "Start or end point is out of bounds");
    assert_eq!(RouteError::StartNotOnGrid.message(), "Start point is not on a grid point");
    assert_eq!(RouteError::EndNotOnGrid.message(), "End point is not on a grid point");
    assert_eq!(RouteError::IndexOutOfBounds.message(), "Start or end grid index out of bounds");
    assert_eq!(RouteError::EndpointBlocked.message(), "Start or end grid point is blocked");
    assert_eq!(RouteError::GoalNotFound.message(), "Goal not found.");
    assert_eq!(RouteError::CoordinateOutOfRange.message(), "Coordinate out of range");
    assert_eq!(RouteError::AreaTooLarge.message(), "Routing area too large");
}
