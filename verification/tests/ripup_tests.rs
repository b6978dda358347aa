use netext_core::geometry::{
    DirectedPoint, Direction, Neighborhood, PlacedRectangularNode, Point, RectangularNode, Size,
};
use netext_core::grid::Grid;
use netext_core::path::{Path, PathWithEndpoints, RoutingConfig};
use netext_core::raw_area::{RawArea, RawPoint};
use netext_core::ripup::{
    compute_overflow, draw_scores, edge_difficulty, edge_path_has_overflow, order_by_scores,
    order_edges_by_difficulty, refresh_present_cost, rip_up_and_queue, score_order,
    select_edges_to_rip, start_end_grid_points, update_corner_history_cost,
    update_edge_history_cost, EdgeRequest,
};
use netext_core::seed::{routing_seed, sort_keys};
use netext_core::table::PathTable;
use netext_core::usage::{add_usage, remove_usage};
use rand::rngs::StdRng;
use rand::SeedableRng;

fn node(cx: i32, cy: i32, w: i32, h: i32) -> PlacedRectangularNode {
    PlacedRectangularNode::new(Point::new(cx, cy), RectangularNode::new(Size::new(w, h)))
}

fn dp(x: i32, y: i32, d: Direction) -> DirectedPoint {
    DirectedPoint::new(x, y, d)
}

fn edge(u: usize, sx: i32, sy: i32, ex: i32, ey: i32) -> EdgeRequest {
    (
        u,
        u + 100,
        dp(sx, sy, Direction::Right),
        dp(ex, ey, Direction::Left),
        RoutingConfig::new(Neighborhood::Orthogonal),
    )
}

#[test]
fn difficulty_of_an_edge_without_area_is_its_span() {
    let none = Vec::new();
    assert_eq!(edge_difficulty(&dp(0, 0, Direction::Up), &dp(10, 0, Direction::Up), &none), -10);
    assert_eq!(edge_difficulty(&dp(3, 9, Direction::Up), &dp(3, -1, Direction::Up), &none), -10);
    assert_eq!(edge_difficulty(&dp(3, 3, Direction::Up), &dp(3, 3, Direction::Up), &none), 0);
    let nodes = vec![node(5, 0, 4, 4)];
    assert_eq!(edge_difficulty(&dp(0, 0, Direction::Up), &dp(10, 0, Direction::Up), &nodes), -10);
}

#[test]
fn difficulty_counts_the_share_of_obstacles() {
    let start = dp(0, 0, Direction::Up);
    let end = dp(10, 10, Direction::Up);
    assert_eq!(edge_difficulty(&start, &end, &Vec::new()), -20);
    // box (3,3)-(7,7): 16 of 100, 200 * 16 / 100 = 32
    assert_eq!(edge_difficulty(&start, &end, &vec![node(5, 5, 4, 4)]), -52);
    assert_eq!(edge_difficulty(&end, &start, &vec![node(5, 5, 4, 4)]), -52);
    // clipped to the box: (8,8)-(10,10) of (8,8)-(12,12)
    assert_eq!(edge_difficulty(&start, &end, &vec![node(10, 10, 4, 4)]), -(20 + 8));
    // outside the box
    assert_eq!(edge_difficulty(&start, &end, &vec![node(30, 30, 4, 4)]), -20);
    // two nodes add up
    assert_eq!(
        edge_difficulty(&start, &end, &vec![node(5, 5, 4, 4), node(10, 10, 4, 4)]),
        -(20 + 40)
    );
}

#[test]
fn difficulty_rounds_the_share_to_the_nearest() {
    // box (1,1)-(3,3) clipped to (0,0)-(3,3): 4 of 9, 800 / 9 = 88.9
    assert_eq!(
        edge_difficulty(&dp(0, 0, Direction::Up), &dp(3, 3, Direction::Up), &vec![node(2, 2, 2, 2)]),
        -(6 + 89)
    );
    // 1 of 16: 12.5 rounds away from zero
    assert_eq!(
        edge_difficulty(&dp(0, 0, Direction::Up), &dp(4, 4, Direction::Up), &vec![node(1, 1, 2, 2)]),
        -(8 + 50)
    );
    assert_eq!(
        edge_difficulty(&dp(0, 0, Direction::Up), &dp(4, 4, Direction::Up), &vec![node(4, 4, 2, 2)]),
        -(8 + 13)
    );
}

#[test]
fn overflow_sums_what_is_beyond_capacity() {
    assert_eq!(compute_overflow(&vec![0, 1, 2, 5], &vec![3, 0], 1, 1), (7, 5, 2));
    assert_eq!(compute_overflow(&vec![0, 1, 1], &vec![1], 1, 1), (0, 0, 0));
    assert_eq!(compute_overflow(&vec![-4, 2], &vec![2], 0, 2), (2, 2, 0));
    assert_eq!(compute_overflow(&Vec::new(), &Vec::new(), 1, 1), (0, 0, 0));
}

#[test]
fn history_grows_by_the_overflow() {
    let mut history: Vec<i64> = vec![0, 5, 7, 1];
    update_edge_history_cost(&vec![0, 1, 3, 9], &mut history, 1);
    assert_eq!(history, vec![0, 5, 9, 9]);
    let mut corners: Vec<i64> = vec![2, 2];
    update_corner_history_cost(&vec![4, 1], &mut corners, 2);
    assert_eq!(corners, vec![4, 2]);
}

#[test]
fn present_cost_is_one_plus_lambda_times_overflow() {
    let mut cost: Vec<i64> = vec![9, 9, 9, 9];
    refresh_present_cost(&vec![0, 1, 2, 4], &mut cost, 1, 2);
    assert_eq!(cost, vec![1, 1, 3, 7]);
}

#[test]
fn usage_goes_up_and_down() {
    let mut usage = vec![0, 0, 5, i32::MAX];
    add_usage(&mut usage, &vec![0, 2, 0, 3]);
    assert_eq!(usage, vec![2, 0, 6, i32::MAX]);
    remove_usage(&mut usage, &vec![0, 1, 2]);
    assert_eq!(usage, vec![1, -1, 5, i32::MAX]);
    let mut low = vec![i32::MIN];
    remove_usage(&mut low, &vec![0]);
    assert_eq!(low, vec![i32::MIN]);
}

#[test]
fn score_order_is_stable() {
    assert_eq!(score_order(&vec![5, 3, 5, 1]), vec![3, 1, 0, 2]);
    assert_eq!(score_order(&vec![2, 2, 2]), vec![0, 1, 2]);
    assert_eq!(score_order(&vec![-1, -7, -3]), vec![1, 2, 0]);
    assert_eq!(score_order(&Vec::new()), Vec::<usize>::new());
}

#[test]
fn edges_are_ordered_by_their_scores() {
    let edges = vec![edge(0, 0, 0, 1, 0), edge(1, 0, 0, 2, 0), edge(2, 0, 0, 3, 0), edge(3, 0, 0, 4, 0)];
    let ordered = order_by_scores(&edges, &vec![5, 3, 5, 1]);
    assert_eq!(ordered, vec![edges[3], edges[1], edges[0], edges[2]]);
}

#[test]
fn scores_are_difficulty_plus_noise() {
    let edges: Vec<EdgeRequest> = (0..40).map(|i| edge(i, 0, 0, 10, 10)).collect();
    let nodes = vec![node(5, 5, 4, 4)];
    let mut rng = StdRng::seed_from_u64(3);
    let scores = draw_scores(&edges, &nodes, &mut rng);
    assert_eq!(scores.len(), 40);
    for s in &scores {
        assert!(-52 <= *s && *s <= -42);
    }
    // the noise is not a constant
    assert!(scores.iter().any(|s| *s != scores[0]));
}

#[test]
fn harder_edges_come_first() {
    let edges = vec![edge(0, 0, 0, 5, 0), edge(1, 0, 10, 100, 10), edge(2, 0, 20, 50, 20)];
    for seed in 0..10 {
        let mut rng = StdRng::seed_from_u64(seed);
        let ordered = order_edges_by_difficulty(&edges, &Vec::new(), &mut rng);
        assert_eq!(ordered, vec![edges[1], edges[2], edges[0]]);
    }
}

#[test]
fn noise_decides_between_equally_hard_edges() {
    let edges: Vec<EdgeRequest> = (0..6).map(|i| edge(i, 0, 10 * i as i32, 20, 10 * i as i32)).collect();
    let mut orders: Vec<Vec<EdgeRequest>> = Vec::new();
    for seed in 0..32 {
        let mut rng = StdRng::seed_from_u64(seed);
        let ordered = order_edges_by_difficulty(&edges, &Vec::new(), &mut rng);
        assert_eq!(ordered.len(), edges.len());
        for e in &edges {
            assert!(ordered.contains(e));
        }
        if !orders.contains(&ordered) {
            orders.push(ordered);
        }
    }
    assert!(orders.len() >= 2);
}

#[test]
fn grid_points_of_the_endpoints() {
    let pairs = vec![(Point::new(0, 0), Point::new(10, 0))];
    let grid = Grid::from_edges_and_nodes(&pairs, &Vec::new());
    let edges = vec![edge(0, 0, 0, 10, 0), edge(1, 1, 0, 99, 99)];
    let points = start_end_grid_points(&grid, &edges);
    let start = grid.point_to_grid_point(&Point::new(0, 0)).unwrap();
    let end = grid.point_to_grid_point(&Point::new(10, 0)).unwrap();
    assert_eq!(points, vec![start, end]);
}

fn table_with(area: &RawArea, routed: &Vec<PathWithEndpoints>) -> PathTable {
    let mut table = PathTable::new();
    for r in routed {
        let key = (
            area.point_to_raw_point(&r.start.as_point()).unwrap(),
            area.point_to_raw_point(&r.end.as_point()).unwrap(),
        );
        table.insert(key, r.clone());
    }
    table
}

#[test]
fn table_keeps_the_last_path_of_a_pair() {
    let mut table = PathTable::new();
    let a = PathWithEndpoints::new(Path::new(vec![Point::new(0, 0)]), dp(0, 0, Direction::Up), dp(0, 0, Direction::Up));
    let b = PathWithEndpoints::new(Path::new(vec![Point::new(1, 1)]), dp(1, 1, Direction::Up), dp(1, 1, Direction::Up));
    assert!(table.get((RawPoint(1), RawPoint(2))).is_none());
    table.insert((RawPoint(1), RawPoint(2)), a.clone());
    table.insert((RawPoint(2), RawPoint(1)), b.clone());
    assert_eq!(table.get((RawPoint(1), RawPoint(2))), Some(&a));
    assert_eq!(table.get((RawPoint(2), RawPoint(1))), Some(&b));
    table.insert((RawPoint(1), RawPoint(2)), b.clone());
    assert_eq!(table.get((RawPoint(1), RawPoint(2))), Some(&b));
    assert!(table.get((RawPoint(0), RawPoint(0))).is_none());
}

#[test]
fn overflowing_paths_are_ripped_up() {
    let area = RawArea { top_left: Point::new(0, 0), bottom_right: Point::new(3, 3) };
    let first = PathWithEndpoints::new(
        Path::new(vec![Point::new(0, 0), Point::new(3, 0)]),
        dp(0, 0, Direction::Right),
        dp(3, 0, Direction::Left),
    );
    let second = PathWithEndpoints::new(
        Path::new(vec![Point::new(1, 0), Point::new(2, 0), Point::new(2, 2)]),
        dp(1, 0, Direction::Right),
        dp(2, 2, Direction::Left),
    );
    let third = PathWithEndpoints::new(
        Path::new(vec![Point::new(0, 3), Point::new(3, 3)]),
        dp(0, 3, Direction::Right),
        dp(3, 3, Direction::Left),
    );
    let mut usage = vec![0; area.num_segments()];
    let mut corners = vec![0; area.size()];
    for r in [&first, &second, &third] {
        add_usage(&mut usage, &r.segments(&area).indices);
        add_usage(&mut corners, &r.corners(&area).indices);
    }
    assert_eq!(usage[1], 2);
    assert_eq!(corners[2], 1);
    assert_eq!(compute_overflow(&usage, &corners, 1, 1), (1, 1, 0));
    assert!(edge_path_has_overflow(&first, &area, &usage, &corners, 1, 1));
    assert!(edge_path_has_overflow(&second, &area, &usage, &corners, 1, 1));
    assert!(!edge_path_has_overflow(&third, &area, &usage, &corners, 1, 1));
    assert!(edge_path_has_overflow(&third, &area, &usage, &corners, 0, 1));
    assert!(edge_path_has_overflow(&second, &area, &usage, &corners, 2, 0));

    let table = table_with(&area, &vec![first.clone(), second.clone(), third.clone()]);
    let edges = vec![edge(0, 0, 3, 3, 3), edge(1, 1, 0, 2, 2), edge(2, 0, 0, 3, 0), edge(3, 0, 1, 3, 1)];
    let to_rip = select_edges_to_rip(&edges, &table, &area, &usage, &corners, 1, 1);
    assert_eq!(to_rip, vec![edges[1], edges[2]]);
    let queued = rip_up_and_queue(&to_rip, &table, &area, &mut usage, &mut corners);
    assert_eq!(queued, to_rip);
    let mut expected_usage = vec![0; area.num_segments()];
    add_usage(&mut expected_usage, &third.segments(&area).indices);
    assert_eq!(usage, expected_usage);
    assert_eq!(corners, vec![0; area.size()]);
}

#[test]
fn keys_are_sorted_number_by_number() {
    let keys = vec![(2, 0, 0, 0, 0, 0), (1, 5, 0, 0, 0, 0), (1, -5, 9, 0, 0, 0), (1, 5, 0, 0, 0, -1), (2, 0, 0, 0, 0, 0)];
    assert_eq!(
        sort_keys(&keys),
        vec![(1, -5, 9, 0, 0, 0), (1, 5, 0, 0, 0, -1), (1, 5, 0, 0, 0, 0), (2, 0, 0, 0, 0, 0), (2, 0, 0, 0, 0, 0)]
    );
}

#[test]
fn seed_does_not_depend_on_the_order() {
    let a = edge(0, 0, 0, 10, 0);
    let b = edge(1, 0, 5, 10, 5);
    let c = (7, 8, dp(3, 3, Direction::Up), dp(4, 9, Direction::Center), RoutingConfig::new(Neighborhood::Moore));
    let n1 = node(5, 5, 4, 4);
    let n2 = node(-5, 5, 2, 8);
    let seed = routing_seed(&vec![a, b, c], &vec![n1, n2]);
    assert_eq!(seed, routing_seed(&vec![c, a, b], &vec![n2, n1]));
    assert_eq!(seed, routing_seed(&vec![b, c, a], &vec![n1, n2]));
    // handles and configuration do not count
    let a2 = (55, 66, a.2, a.3, RoutingConfig::new(Neighborhood::Moore));
    assert_eq!(seed, routing_seed(&vec![a2, b, c], &vec![n1, n2]));
}

#[test]
fn seed_depends_on_edges_and_nodes() {
    let a = edge(0, 0, 0, 10, 0);
    let b = edge(1, 0, 5, 10, 5);
    let n1 = node(5, 5, 4, 4);
    let seed = routing_seed(&vec![a, b], &vec![n1]);
    assert_ne!(seed, routing_seed(&vec![a], &vec![n1]));
    assert_ne!(seed, routing_seed(&vec![a, b], &Vec::new()));
    assert_ne!(seed, routing_seed(&vec![a, edge(1, 0, 5, 10, 6)], &vec![n1]));
    assert_ne!(seed, routing_seed(&vec![a, b], &vec![node(5, 5, 4, 5)]));
    let turned = (1, 101, dp(0, 5, Direction::Up), b.3, b.4);
    assert_ne!(seed, routing_seed(&vec![a, turned], &vec![n1]));
    assert_eq!(seed, routing_seed(&vec![a, b], &vec![n1]));
}
