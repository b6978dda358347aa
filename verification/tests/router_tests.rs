use netext_core::geometry::{
    DirectedPoint, Direction, Neighborhood, PlacedRectangularNode, Point, RectangularNode, Size,
};
use netext_core::grid::Grid;
use netext_core::path::{Path, RoutingConfig};
use netext_core::ripup::EdgeRequest;
use netext_core::{EdgeRouter, RouteError};

fn node(cx: i32, cy: i32, w: i32, h: i32) -> PlacedRectangularNode {
    PlacedRectangularNode::new(Point::new(cx, cy), RectangularNode::new(Size::new(w, h)))
}

fn dp(x: i32, y: i32, d: Direction) -> DirectedPoint {
    DirectedPoint::new(x, y, d)
}

fn cfg() -> RoutingConfig {
    RoutingConfig::new(Neighborhood::Orthogonal)
}

fn edge(u: usize, start: DirectedPoint, end: DirectedPoint) -> EdgeRequest {
    (u, u + 100, start, end, cfg())
}

fn check_path(e: &EdgeRequest, path: &Vec<DirectedPoint>) {
    assert!(!path.is_empty());
    assert_eq!(path[0], e.2);
    assert_eq!(*path.last().unwrap(), dp(e.3.x, e.3.y, e.3.direction.opposite()));
    for w in path.windows(2) {
        let d = (w[0].x - w[1].x).abs() + (w[0].y - w[1].y).abs();
        assert!(d <= 1, "step from {:?} to {:?}", w[0], w[1]);
    }
}

fn corner_points(path: &Vec<DirectedPoint>) -> Vec<Point> {
    let mut points: Vec<Point> = Vec::new();
    for p in path {
        if points.last() != Some(&p.as_point()) {
            points.push(p.as_point());
        }
    }
    points
}

#[test]
fn empty_batch_gives_no_paths() {
    let router = EdgeRouter::new();
    assert_eq!(router.route_edges(Vec::new()).unwrap().paths.len(), 0);
    let mut with_node = EdgeRouter::new();
    with_node.add_node(1, node(0, 0, 2, 2)).unwrap();
    assert_eq!(with_node.route_edges(Vec::new()).unwrap().paths.len(), 0);
}

#[test]
fn single_straight_edge_without_nodes() {
    let router = EdgeRouter::new();
    let e = edge(1, dp(0, 0, Direction::Right), dp(10, 0, Direction::Left));
    let routed = router.route_edges(vec![e]).unwrap();
    assert_eq!(routed.paths.len(), 1);
    let l = Direction::Left;
    let r = Direction::Right;
    assert_eq!(
        routed.paths[0],
        vec![
            dp(0, 0, r),
            dp(1, 0, l),
            dp(2, 0, l),
            dp(2, 0, r),
            dp(3, 0, l),
            dp(4, 0, l),
            dp(5, 0, l),
            dp(5, 0, r),
            dp(6, 0, l),
            dp(7, 0, l),
            dp(8, 0, l),
            dp(8, 0, r),
            dp(9, 0, l),
            dp(10, 0, l),
            dp(10, 0, r),
        ]
    );
    // one place for each unit step from 0 to 10
    assert_eq!(corner_points(&routed.paths[0]), (0..=10).map(|x| Point::new(x, 0)).collect::<Vec<_>>());
}

#[test]
fn route_edge_is_a_batch_of_one() {
    let router = EdgeRouter::new();
    let start = dp(0, 0, Direction::Right);
    let end = dp(10, 0, Direction::Left);
    let single = router
        .route_edge(1, 2, start, end, dp(50, 50, Direction::Up), dp(60, 60, Direction::Up), cfg())
        .unwrap();
    let batch = router.route_edges(vec![(1, 2, start, end, cfg())]).unwrap();
    assert_eq!(single.path, batch.paths[0]);
    assert_eq!(single.path.len(), 15);
}

#[test]
fn detour_around_a_node() {
    let mut router = EdgeRouter::new();
    router.add_node(7, node(5, 5, 4, 4)).unwrap();
    let e = edge(1, dp(0, 5, Direction::Right), dp(10, 5, Direction::Left));
    let routed = router.route_edges(vec![e]).unwrap();
    let path = &routed.paths[0];
    check_path(&e, path);
    // no place of the path lies in the node or one unit next to it
    for p in path {
        assert!(!(2 <= p.x && p.x <= 8 && 2 <= p.y && p.y <= 8), "{:?}", p);
    }
    // out to the left border, along the top or the bottom border, and back in from the right
    let places = corner_points(path);
    let turns = Path::new(places.clone());
    let grid = Grid::from_edges_and_nodes(&vec![(e.2.as_point(), e.3.as_point())], &vec![node(5, 5, 4, 4)]);
    assert_eq!(turns.corners(&grid.raw_area()).indices.len(), 4);
    assert_eq!(places.len(), 3 + 5 + 16 + 5 + 3 + 1);
    assert!(places.contains(&Point::new(-3, 5)));
    assert!(places.contains(&Point::new(13, 5)));
}

#[test]
fn two_crossing_edges() {
    let router = EdgeRouter::new();
    let a = edge(1, dp(0, 5, Direction::Right), dp(10, 5, Direction::Left));
    let b = edge(2, dp(5, 0, Direction::Down), dp(5, 10, Direction::Up));
    let routed = router.route_edges(vec![a, b]).unwrap();
    assert_eq!(routed.paths.len(), 2);
    check_path(&a, &routed.paths[0]);
    check_path(&b, &routed.paths[1]);
    assert_eq!(corner_points(&routed.paths[0]), (0..=10).map(|x| Point::new(x, 5)).collect::<Vec<_>>());
    assert_eq!(corner_points(&routed.paths[1]), (0..=10).map(|y| Point::new(5, y)).collect::<Vec<_>>());
    // the two paths share no unit segment
    let grid = Grid::from_edges_and_nodes(
        &vec![(a.2.as_point(), a.3.as_point()), (b.2.as_point(), b.3.as_point())],
        &Vec::new(),
    );
    let area = grid.raw_area();
    let first = Path::new(corner_points(&routed.paths[0])).segments(&area).indices;
    let second = Path::new(corner_points(&routed.paths[1])).segments(&area).indices;
    assert_eq!(first.len(), 10);
    assert_eq!(second.len(), 10);
    assert!(first.iter().all(|s| !second.contains(s)));
}

#[test]
fn edges_that_compete_for_a_row_are_negotiated() {
    let router = EdgeRouter::new();
    let a = edge(1, dp(0, 0, Direction::Right), dp(20, 0, Direction::Left));
    let b = edge(2, dp(5, 0, Direction::Right), dp(15, 0, Direction::Left));
    let edges = vec![a, b];
    let routed = router.route_edges(edges.clone()).unwrap();
    check_path(&a, &routed.paths[0]);
    check_path(&b, &routed.paths[1]);
    let grid = Grid::from_edges_and_nodes(
        &edges.iter().map(|e| (e.2.as_point(), e.3.as_point())).collect(),
        &Vec::new(),
    );
    let area = grid.raw_area();
    let first = Path::new(corner_points(&routed.paths[0])).segments(&area).indices;
    let second = Path::new(corner_points(&routed.paths[1])).segments(&area).indices;
    assert!(first.iter().all(|s| !second.contains(s)));
}

#[test]
fn endpoint_inside_a_node() {
    let mut router = EdgeRouter::new();
    router.add_node(1, node(10, 0, 4, 4)).unwrap();
    let e = edge(1, dp(0, 0, Direction::Right), dp(10, 0, Direction::Left));
    let routed = router.route_edges(vec![e]).unwrap();
    check_path(&e, &routed.paths[0]);
}

#[test]
fn endpoints_enclosed_by_nodes() {
    let mut router = EdgeRouter::new();
    router.add_node(1, node(0, 0, 40, 40)).unwrap();
    router.add_node(2, node(100, 0, 40, 40)).unwrap();
    let e = edge(1, dp(0, 0, Direction::Right), dp(100, 0, Direction::Left));
    let routed = router.route_edges(vec![e]).unwrap();
    check_path(&e, &routed.paths[0]);
}

#[test]
fn same_input_gives_the_same_output() {
    let mut router = EdgeRouter::new();
    router.add_node(1, node(20, 20, 10, 6)).unwrap();
    router.add_node(2, node(35, 8, 4, 4)).unwrap();
    let edges = vec![
        edge(1, dp(0, 0, Direction::Right), dp(40, 40, Direction::Left)),
        edge(2, dp(0, 40, Direction::Up), dp(40, 0, Direction::Down)),
        edge(3, dp(0, 20, Direction::Right), dp(40, 20, Direction::Left)),
    ];
    let first = router.route_edges(edges.clone()).unwrap();
    let second = router.route_edges(edges.clone()).unwrap();
    assert_eq!(first, second);
    for (e, p) in edges.iter().zip(first.paths.iter()) {
        check_path(e, p);
    }
}

#[test]
fn reordered_batch_gives_the_same_paths() {
    let router = EdgeRouter::new();
    let a = edge(1, dp(0, 0, Direction::Right), dp(10, 0, Direction::Left));
    let b = edge(2, dp(0, 20, Direction::Right), dp(10, 20, Direction::Left));
    let c = edge(3, dp(0, 40, Direction::Right), dp(10, 40, Direction::Left));
    let first = router.route_edges(vec![a, b, c]).unwrap();
    let second = router.route_edges(vec![c, a, b]).unwrap();
    assert_eq!(first.paths[0], second.paths[1]);
    assert_eq!(first.paths[1], second.paths[2]);
    assert_eq!(first.paths[2], second.paths[0]);
    check_path(&a, &first.paths[0]);
    check_path(&b, &first.paths[1]);
    check_path(&c, &first.paths[2]);
}

#[test]
fn paths_stay_inside_the_raw_area() {
    let mut router = EdgeRouter::new();
    let nodes = vec![node(10, 10, 6, 4), node(30, 12, 8, 8), node(25, 35, 5, 7), node(45, 45, 4, 4), node(8, 40, 10, 3)];
    for (i, n) in nodes.iter().enumerate() {
        router.add_node(i, *n).unwrap();
    }
    let edges = vec![
        edge(1, dp(0, 0, Direction::Right), dp(50, 50, Direction::Left)),
        edge(2, dp(13, 10, Direction::Right), dp(26, 12, Direction::Left)),
        edge(3, dp(3, 47, Direction::Up), dp(44, 3, Direction::Down)),
        edge(4, dp(10, 12, Direction::Down), dp(8, 38, Direction::Up)),
        edge(5, dp(34, 12, Direction::Right), dp(45, 43, Direction::Up)),
        edge(6, dp(25, 31, Direction::Up), dp(30, 16, Direction::Down)),
        edge(7, dp(17, 23, Direction::Left), dp(41, 29, Direction::Right)),
        edge(8, dp(50, 0, Direction::Left), dp(0, 50, Direction::Right)),
    ];
    let routed = router.route_edges(edges.clone()).unwrap();
    assert_eq!(routed.paths.len(), edges.len());
    let grid = Grid::from_edges_and_nodes(
        &edges.iter().map(|e| (e.2.as_point(), e.3.as_point())).collect(),
        &nodes,
    );
    assert_eq!((grid.min_x, grid.min_y, grid.max_x, grid.max_y), (-3, -3, 53, 53));
    for (e, p) in edges.iter().zip(routed.paths.iter()) {
        check_path(e, p);
        for d in p {
            assert!(grid.min_x <= d.x && d.x <= grid.max_x);
            assert!(grid.min_y <= d.y && d.y <= grid.max_y);
        }
    }
}

#[test]
fn the_index_takes_boxes_far_apart() {
    let mut router = EdgeRouter::new();
    for i in 0..6 {
        router.add_node(i, node(0, 0, 0, 0)).unwrap();
    }
    router.add_node(6, node(100000, 0, 0, 0)).unwrap();
    router.add_node(7, node(0x1000_0000, -0x1000_0000, 0x1000_0000, 0x1000_0000)).unwrap();
    router.add_node(8, node(-0x1000_0000, 0x1000_0000, 0x1000_0000, 0x1000_0000)).unwrap();
    for i in 9..40 {
        let far = (i as i32 - 20) * 0xc0_0000;
        router.add_node(i, node(far, -far, 7, 0x1000_0000)).unwrap();
    }
    assert_eq!(router.indexed_nodes(), 40);
    for i in 0..40 {
        router.remove_node(i);
    }
    assert_eq!(router.indexed_nodes(), 0);
}

#[test]
fn edges_with_the_same_places_share_a_path() {
    let router = EdgeRouter::new();
    let a = edge(1, dp(0, 0, Direction::Right), dp(10, 0, Direction::Left));
    let b = edge(2, dp(0, 0, Direction::Right), dp(10, 0, Direction::Left));
    let routed = router.route_edges(vec![a, b]).unwrap();
    assert_eq!(routed.paths.len(), 2);
    assert_eq!(routed.paths[0], routed.paths[1]);
    check_path(&a, &routed.paths[0]);
    let far = edge(3, dp(0, 20, Direction::Right), dp(40, 20, Direction::Left));
    let routed = router.route_edges(vec![a, far, a]).unwrap();
    assert_eq!(routed.paths.len(), 3);
    assert_eq!(routed.paths[2], routed.paths[0]);
    check_path(&a, &routed.paths[0]);
    check_path(&far, &routed.paths[1]);
}

#[test]
fn edge_from_a_place_to_itself() {
    let router = EdgeRouter::new();
    let e = edge(1, dp(4, 4, Direction::Right), dp(4, 4, Direction::Right));
    let routed = router.route_edges(vec![e]).unwrap();
    assert_eq!(routed.paths[0], vec![dp(4, 4, Direction::Left)]);
}

#[test]
fn coordinates_out_of_range_are_refused() {
    let router = EdgeRouter::new();
    let far = edge(1, dp(0, 0, Direction::Right), dp(0x1000_0001, 0, Direction::Left));
    assert_eq!(router.route_edges(vec![far]).err(), Some(RouteError::CoordinateOutOfRange));
    let ok = edge(2, dp(0, 0, Direction::Right), dp(10, 0, Direction::Left));
    assert_eq!(router.route_edges(vec![ok, far]).err(), Some(RouteError::CoordinateOutOfRange));
    assert_eq!(
        router
            .route_edge(1, 2, dp(0, -0x1000_0001, Direction::Up), dp(0, 0, Direction::Up), far.2, far.3, cfg())
            .err(),
        Some(RouteError::CoordinateOutOfRange)
    );
}

#[test]
fn areas_that_are_too_large_are_refused() {
    let router = EdgeRouter::new();
    let wide = edge(1, dp(0, 0, Direction::Right), dp(0x100_0000, 0x100_0000, Direction::Left));
    assert_eq!(router.route_edges(vec![wide]).err(), Some(RouteError::AreaTooLarge));
    let mut with_node = EdgeRouter::new();
    with_node.add_node(1, node(0x800_0000, 0x800_0000, 2, 2)).unwrap();
    let small = edge(1, dp(0, 0, Direction::Right), dp(10, 0, Direction::Left));
    assert_eq!(with_node.route_edges(vec![small]).err(), Some(RouteError::AreaTooLarge));
    with_node.remove_node(1);
    assert!(with_node.route_edges(vec![small]).is_ok());
}

#[test]
fn nodes_are_added_replaced_and_removed() {
    let mut router = EdgeRouter::new();
    assert_eq!(router.indexed_nodes(), 0);
    assert_eq!(router.node(1), None);
    router.add_node(1, node(5, 5, 4, 4)).unwrap();
    router.add_node(2, node(50, 5, 4, 4)).unwrap();
    assert_eq!(router.node(1), Some(node(5, 5, 4, 4)));
    assert_eq!(router.node_list(), vec![node(5, 5, 4, 4), node(50, 5, 4, 4)]);
    assert_eq!(router.indexed_nodes(), 2);
    router.add_node(1, node(6, 6, 2, 2)).unwrap();
    assert_eq!(router.node(1), Some(node(6, 6, 2, 2)));
    assert_eq!(router.placed_nodes.len(), 2);
    // the index keeps the box of the node that was replaced
    assert_eq!(router.indexed_nodes(), 3);
    router.remove_node(1);
    assert_eq!(router.node(1), None);
    assert_eq!(router.node(2), Some(node(50, 5, 4, 4)));
    assert_eq!(router.indexed_nodes(), 2);
}

#[test]
fn removing_twice_changes_nothing_the_second_time() {
    let mut router = EdgeRouter::new();
    router.add_node(1, node(5, 5, 4, 4)).unwrap();
    router.add_node(2, node(50, 5, 4, 4)).unwrap();
    router.add_edge(1, 2, vec![Point::new(5, 5), Point::new(50, 5)]);
    router.remove_node(1);
    let nodes = router.placed_nodes.clone();
    let edges = router.existing_edges.clone();
    let boxes = router.indexed_nodes();
    router.remove_node(1);
    assert_eq!(router.placed_nodes, nodes);
    assert_eq!(router.existing_edges, edges);
    assert_eq!(router.indexed_nodes(), boxes);
    router.remove_node(99);
    assert_eq!(router.placed_nodes, nodes);
    assert_eq!(router.indexed_nodes(), 1);

    router.remove_edge(1, 2);
    assert!(router.existing_edges.is_empty());
    router.remove_edge(1, 2);
    assert!(router.existing_edges.is_empty());
    assert_eq!(router.placed_nodes, nodes);
}

#[test]
fn existing_edges_are_stored_by_their_handles() {
    let mut router = EdgeRouter::new();
    router.add_edge(1, 2, vec![Point::new(0, 0), Point::new(5, 0)]);
    router.add_edge(2, 1, vec![Point::new(9, 9)]);
    assert_eq!(router.existing_edges.len(), 2);
    router.add_edge(1, 2, vec![Point::new(1, 1)]);
    assert_eq!(
        router.existing_edges,
        vec![((1, 2), vec![Point::new(1, 1)]), ((2, 1), vec![Point::new(9, 9)])]
    );
    router.remove_edge(1, 2);
    assert_eq!(router.existing_edges, vec![((2, 1), vec![Point::new(9, 9)])]);
    // existing edges do not touch routing
    let e = edge(1, dp(0, 0, Direction::Right), dp(10, 0, Direction::Left));
    let with = router.route_edges(vec![e]).unwrap();
    let without = EdgeRouter::new().route_edges(vec![e]).unwrap();
    assert_eq!(with, without);
}

#[test]
fn nodes_that_are_not_well_formed_are_refused() {
    let mut router = EdgeRouter::new();
    assert_eq!(router.add_node(1, node(0, 0, -2, 2)), Err(RouteError::CoordinateOutOfRange));
    assert_eq!(router.add_node(1, node(0x1000_0001, 0, 2, 2)), Err(RouteError::CoordinateOutOfRange));
    assert_eq!(router.placed_nodes.len(), 0);
    assert_eq!(router.indexed_nodes(), 0);
}

#[test]
fn diagonal_and_centre_directions_are_taken_as_orientations() {
    let router = EdgeRouter::new();
    let e = edge(1, dp(0, 0, Direction::UpRight), dp(10, 0, Direction::DownLeft));
    let routed = router.route_edges(vec![e]).unwrap();
    check_path(&e, &routed.paths[0]);
    assert_eq!(routed.paths[0].len(), 15);
    let v = edge(2, dp(0, 0, Direction::Center), dp(0, 10, Direction::UpLeft));
    let routed = router.route_edges(vec![v]).unwrap();
    check_path(&v, &routed.paths[0]);
    assert_eq!(routed.paths[0].len(), 15);
}

#[test]
fn a_node_next_to_an_endpoint_between_two_lines_is_crossed() {
    // the grid lines next to the start are x = 4 and x = 6; the node covers x = 5 alone,
    // and the only grid point that it masks would be the start
    let mut router = EdgeRouter::new();
    router.add_node(1, node(5, 0, 1, 2)).unwrap();
    let e = edge(1, dp(4, 0, Direction::Right), dp(10, 0, Direction::Left));
    let grid = Grid::from_edges_and_nodes(&vec![(e.2.as_point(), e.3.as_point())], &vec![node(5, 0, 1, 2)]);
    assert_eq!(grid.x_lines, vec![1, 4, 6, 7, 8, 10, 13]);
    let routed = router.route_edges(vec![e]).unwrap();
    check_path(&e, &routed.paths[0]);
    assert_eq!(corner_points(&routed.paths[0]), (4..=10).map(|x| Point::new(x, 0)).collect::<Vec<_>>());
}

#[test]
fn a_node_away_from_the_endpoints_is_avoided() {
    let mut router = EdgeRouter::new();
    router.add_node(1, node(3, 0, 1, 2)).unwrap();
    let e = edge(1, dp(0, 0, Direction::Right), dp(10, 0, Direction::Left));
    let routed = router.route_edges(vec![e]).unwrap();
    check_path(&e, &routed.paths[0]);
    for p in &routed.paths[0] {
        assert!(!(p.x == 3 && -1 <= p.y && p.y <= 1), "{:?}", p);
    }
}

#[test]
fn a_reordered_batch_may_get_another_path_of_the_same_length() {
    let router = EdgeRouter::new();
    let a = edge(1, dp(0, 2, Direction::Up), dp(2, 2, Direction::Left));
    let b = edge(2, dp(4, 1, Direction::Right), dp(4, 5, Direction::Left));
    let first = router.route_edges(vec![a, b]).unwrap();
    let turned = router.route_edges(vec![b, a]).unwrap();
    check_path(&a, &first.paths[0]);
    check_path(&a, &turned.paths[1]);
    // the edge leaves its start point upward in one batch and downward in the other
    assert!(first.paths[0].contains(&DirectedPoint::new(0, 3, Direction::Up)));
    assert!(turned.paths[1].contains(&DirectedPoint::new(0, 1, Direction::Down)));
    assert_eq!(first.paths[0].len(), turned.paths[1].len());
    assert_eq!(first.paths[1], turned.paths[0]);
}
