use netext_core::geometry::{
    DirectedPoint, Direction, Neighborhood, PlacedRectangularNode, Point, RectangularNode, Size,
};
use netext_core::grid::Grid;
use netext_core::masked_grid::MaskedGrid;
use netext_core::path::RoutingConfig;
use netext_core::ripup::{compute_overflow, EdgeRequest};
use netext_core::trace::{build_trace_layout_data, segment_ends};
use netext_core::EdgeRouter;

fn node(cx: i32, cy: i32, w: i32, h: i32) -> PlacedRectangularNode {
    PlacedRectangularNode::new(Point::new(cx, cy), RectangularNode::new(Size::new(w, h)))
}

fn dp(x: i32, y: i32, d: Direction) -> DirectedPoint {
    DirectedPoint::new(x, y, d)
}

fn edge(u: usize, start: DirectedPoint, end: DirectedPoint) -> EdgeRequest {
    (u, u + 100, start, end, RoutingConfig::new(Neighborhood::Orthogonal))
}

#[test]
fn ends_of_grid_segments() {
    let grid = Grid::new(3, 2, vec![0, 4, 9], vec![-1, 1]);
    // horizontal segments first, row by row; then vertical ones, column by column
    assert_eq!(segment_ends(&grid, 0), (0, 1));
    assert_eq!(segment_ends(&grid, 1), (1, 2));
    assert_eq!(segment_ends(&grid, 3), (4, 5));
    assert_eq!(segment_ends(&grid, 4), (0, 3));
    assert_eq!(segment_ends(&grid, 6), (2, 5));
    for x in 0..3usize {
        for y in 0..2usize {
            if x + 1 < 3 {
                let s = grid.grid_coords_to_segment_index((x, y), (x + 1, y));
                assert_eq!(segment_ends(&grid, s), (y * 3 + x, y * 3 + x + 1));
            }
            if y + 1 < 2 {
                let s = grid.grid_coords_to_segment_index((x, y), (x, y + 1));
                assert_eq!(segment_ends(&grid, s), (y * 3 + x, (y + 1) * 3 + x));
            }
        }
    }
}

#[test]
fn layout_shows_masks_and_nodes() {
    let nodes = vec![node(5, 5, 4, 4)];
    let grid = Grid::from_edges_and_nodes(&vec![(Point::new(0, 5), Point::new(10, 5))], &nodes);
    let keep = Vec::new();
    let masked = MaskedGrid::from_nodes(&grid, &nodes, &keep);
    let placed = vec![(42usize, nodes[0])];
    let (points, shown) = build_trace_layout_data(&grid, &masked, &placed);
    assert_eq!(points.len(), grid.size);
    for (i, p) in points.iter().enumerate() {
        assert_eq!(p.index, i);
        assert_eq!(
            Some(p.raw),
            grid.grid_point_to_point(netext_core::grid::GridPoint(i as u32))
        );
        assert_eq!(p.blocked, p.raw == Point::new(5, 5));
        // the masked segments run along x = 2 and x = 8 over all three rows
        assert_eq!(p.masked_adjacent, p.raw.x == 2 || p.raw.x == 8);
    }
    assert_eq!(shown.len(), 1);
    assert_eq!(shown[0].id, 42);
    assert_eq!(shown[0].center, Point::new(5, 5));
    assert_eq!(shown[0].size, Size::new(4, 4));
    assert_eq!(shown[0].top_left, Point::new(3, 3));
    assert_eq!(shown[0].bottom_right, Point::new(7, 7));
}

#[test]
fn traced_routing_returns_the_same_paths() {
    let mut router = EdgeRouter::new();
    router.add_node(1, node(20, 20, 10, 6)).unwrap();
    let edges = vec![
        edge(1, dp(0, 0, Direction::Right), dp(40, 40, Direction::Left)),
        edge(2, dp(0, 40, Direction::Up), dp(40, 0, Direction::Down)),
        edge(3, dp(0, 20, Direction::Right), dp(40, 20, Direction::Left)),
    ];
    let plain = router.route_edges(edges.clone()).unwrap();
    let (traced, trace) = router.route_edges_traced(edges.clone()).unwrap();
    assert_eq!(plain, traced);
    let trace = trace.unwrap();
    assert_eq!(trace.raw_area.top_left, Point::new(-3, -3));
    assert_eq!(trace.raw_area.bottom_right, Point::new(43, 43));
    assert_eq!(trace.nodes.len(), 1);
    assert!(!trace.iterations.is_empty() && trace.iterations.len() <= 10);
    let last = trace.iterations.last().unwrap();
    assert_eq!(last.all_paths.len(), edges.len());
    for (i, p) in last.all_paths.iter().enumerate() {
        assert_eq!(p.directed_path, plain.paths[i]);
        assert_eq!(p.start, edges[i].2);
        assert_eq!(p.end, edges[i].3);
    }
}

#[test]
fn an_empty_batch_has_no_record() {
    let router = EdgeRouter::new();
    let (routed, trace) = router.route_edges_traced(Vec::new()).unwrap();
    assert!(routed.paths.is_empty());
    assert!(trace.is_none());
}

#[test]
fn passes_are_recorded_until_nothing_overflows() {
    let router = EdgeRouter::new();
    let a = edge(1, dp(0, 0, Direction::Right), dp(20, 0, Direction::Left));
    let b = edge(2, dp(5, 0, Direction::Right), dp(15, 0, Direction::Left));
    let c = edge(3, dp(8, 0, Direction::Right), dp(12, 0, Direction::Left));
    let (routed, trace) = router.route_edges_traced(vec![a, b, c]).unwrap();
    let trace = trace.unwrap();
    let passes = &trace.iterations;
    assert!(passes.len() >= 2 && passes.len() <= 10);
    for (k, pass) in passes.iter().enumerate() {
        assert_eq!(pass.iteration, k);
        assert_eq!(pass.total_overflow, pass.edge_overflow + pass.corner_overflow);
        assert_eq!(pass.all_paths.len(), 3);
        if k + 1 < passes.len() {
            assert!(pass.total_overflow > 0);
            assert!(!pass.ripped_up_next.is_empty());
            // the next pass routes what this one ripped up
            assert_eq!(passes[k + 1].routed_edges.len(), pass.ripped_up_next.len());
            assert!(pass.routed_edges.iter().any(|e| e.overflow));
        }
    }
    // in the first pass all three edges take the row, and the middle is in use three times
    assert_eq!(passes[0].routed_edges.len(), 3);
    assert_eq!(passes[0].edge_overflow, 10 + 4);
    assert_eq!(passes[0].corner_overflow, 0);
    let last = passes.last().unwrap();
    assert_eq!(last.total_overflow, 0);
    assert!(last.ripped_up_next.is_empty());
    assert!(last.routed_edges.iter().all(|e| !e.overflow));
    assert_eq!(compute_overflow(&last.raw_usage, &last.raw_corner_usage, 1, 1), (0, 0, 0));
    for (i, p) in last.all_paths.iter().enumerate() {
        assert_eq!(p.directed_path, routed.paths[i]);
    }
    // the overflow does not grow from pass to pass
    for w in passes.windows(2) {
        assert!(w[1].total_overflow <= w[0].total_overflow);
    }
}

#[test]
fn overflow_may_rise_from_one_pass_to_the_next() {
    let router = EdgeRouter::new();
    let a = edge(1, dp(2, 3, Direction::Right), dp(0, 5, Direction::Up));
    let b = edge(2, dp(0, 2, Direction::Down), dp(3, 2, Direction::Down));
    let (_, trace) = router.route_edges_traced(vec![a, b]).unwrap();
    let totals: Vec<i64> = trace.unwrap().iterations.iter().map(|t| t.total_overflow).collect();
    assert_eq!(totals, vec![3, 3, 1, 1, 1, 1, 2, 0]);
    assert!(totals.windows(2).any(|w| w[1] > w[0]));
}
