use netext_core::geometry::{PlacedRectangularNode, Point, RectangularNode, Size};
use netext_core::grid::{collect_coords, nodes_bounds, Grid, GridPoint, GridSegment};
use netext_core::lines::{
    build_lines_from_coords, contains_line, ensure_min_max, insert_sorted, midpoint, search_line,
};
use netext_core::raw_area::RawPoint;

fn node(cx: i32, cy: i32, w: i32, h: i32) -> PlacedRectangularNode {
    PlacedRectangularNode::new(Point::new(cx, cy), RectangularNode::new(Size::new(w, h)))
}

#[test]
fn search_finds_lines_and_gaps() {
    let lines = vec![-3, 0, 2, 5, 8];
    assert_eq!(search_line(&lines, -3), Ok(0));
    assert_eq!(search_line(&lines, 5), Ok(3));
    assert_eq!(search_line(&lines, 8), Ok(4));
    assert_eq!(search_line(&lines, -4), Err(0));
    assert_eq!(search_line(&lines, 1), Err(2));
    assert_eq!(search_line(&lines, 9), Err(5));
    assert_eq!(search_line(&Vec::new(), 9), Err(0));
    assert!(contains_line(&lines, 2));
    assert!(!contains_line(&lines, 3));
}

#[test]
fn sorted_insertion_keeps_order_and_skips_duplicates() {
    let mut lines: Vec<i32> = Vec::new();
    for v in [5, -1, 5, 3, 9, -1, 0] {
        insert_sorted(&mut lines, v);
    }
    assert_eq!(lines, vec![-1, 0, 3, 5, 9]);
}

#[test]
fn midpoint_rounds_toward_zero() {
    assert_eq!(midpoint(0, 10), 5);
    assert_eq!(midpoint(0, 3), 1);
    assert_eq!(midpoint(-3, 0), -1);
    assert_eq!(midpoint(-8, -1), -4);
    assert_eq!(midpoint(-1, 2), 0);
}

#[test]
fn lines_for_gaps_of_each_size() {
    // gap 1: nothing added
    assert_eq!(build_lines_from_coords(&vec![0, 1]), vec![0, 1]);
    // gap 2 to 5: the midpoint
    assert_eq!(build_lines_from_coords(&vec![0, 2]), vec![0, 1, 2]);
    assert_eq!(build_lines_from_coords(&vec![0, 5]), vec![0, 2, 5]);
    // gap over 5: two units inside either end, and the midpoint
    assert_eq!(build_lines_from_coords(&vec![0, 6]), vec![0, 2, 3, 4, 6]);
    assert_eq!(build_lines_from_coords(&vec![0, 10]), vec![0, 2, 5, 8, 10]);
    assert_eq!(build_lines_from_coords(&vec![-20, -10, 0]), vec![-20, -18, -15, -12, -10, -8, -5, -2, 0]);
    assert_eq!(build_lines_from_coords(&vec![4]), vec![4]);
    assert_eq!(build_lines_from_coords(&Vec::new()), Vec::<i32>::new());
}

#[test]
fn lines_are_built_from_values_in_any_order() {
    assert_eq!(build_lines_from_coords(&vec![10, 0, 0]), vec![0, 2, 5, 8, 10]);
    assert_eq!(build_lines_from_coords(&vec![3, 4]), vec![3, 4]);
    assert_eq!(build_lines_from_coords(&vec![4, 3, 4, 3]), vec![3, 4]);
    assert_eq!(build_lines_from_coords(&vec![7, -7, 0]), vec![-7, -5, -3, -2, 0, 2, 3, 5, 7]);
}

#[test]
fn bounds_are_added_unless_present() {
    let mut lines = vec![0, 5, 10];
    ensure_min_max(&mut lines, -3, 13);
    assert_eq!(lines, vec![-3, 0, 5, 10, 13]);
    let mut same = vec![0, 5, 10];
    ensure_min_max(&mut same, 0, 10);
    assert_eq!(same, vec![0, 5, 10]);
    let mut empty: Vec<i32> = Vec::new();
    ensure_min_max(&mut empty, 2, 2);
    assert_eq!(empty, vec![2]);
    let mut empty2: Vec<i32> = Vec::new();
    ensure_min_max(&mut empty2, 2, 4);
    assert_eq!(empty2, vec![2, 4]);
}

#[test]
fn coordinates_are_collected_sorted_and_unique() {
    let edges = vec![
        (Point::new(10, 0), Point::new(0, 5)),
        (Point::new(0, 5), Point::new(7, -2)),
    ];
    let (xs, ys) = collect_coords(&edges);
    assert_eq!(xs, vec![0, 7, 10]);
    assert_eq!(ys, vec![-2, 0, 5]);
}

#[test]
fn bounds_of_nodes() {
    let nodes = vec![node(5, 5, 4, 4), node(-10, 20, 6, 2)];
    assert_eq!(nodes_bounds(&nodes), (-13, 3, 7, 21));
    assert_eq!(nodes_bounds(&Vec::new()), (i32::MAX, i32::MAX, i32::MIN, i32::MIN));
}

#[test]
fn grid_of_one_edge_without_nodes() {
    let edges = vec![(Point::new(0, 0), Point::new(10, 0))];
    let grid = Grid::from_edges_and_nodes(&edges, &Vec::new());
    assert_eq!(grid.x_lines, vec![-3, 0, 2, 5, 8, 10, 13]);
    assert_eq!(grid.y_lines, vec![-3, 0, 3]);
    assert_eq!(grid.width, 7);
    assert_eq!(grid.height, 3);
    assert_eq!(grid.size, 21);
    assert_eq!(grid.num_segments, 6 * 3 + 2 * 7);
    assert_eq!((grid.min_x, grid.min_y, grid.max_x, grid.max_y), (-3, -3, 13, 3));
    let area = grid.raw_area();
    assert_eq!(area.top_left, Point::new(-3, -3));
    assert_eq!(area.bottom_right, Point::new(13, 3));
}

#[test]
fn grid_is_padded_around_nodes() {
    let edges = vec![(Point::new(0, 5), Point::new(10, 5))];
    let nodes = vec![node(5, 5, 4, 4)];
    let grid = Grid::from_edges_and_nodes(&edges, &nodes);
    assert_eq!(grid.x_lines, vec![-3, 0, 2, 5, 8, 10, 13]);
    assert_eq!(grid.y_lines, vec![0, 5, 10]);
    let far = vec![node(40, -30, 10, 10)];
    let grid = Grid::from_edges_and_nodes(&edges, &far);
    assert_eq!(grid.x_lines, vec![-3, 0, 2, 5, 8, 10, 48]);
    assert_eq!(grid.y_lines, vec![-38, 5, 8]);
}

#[test]
fn every_endpoint_lies_on_the_grid() {
    let edges = vec![
        (Point::new(3, 7), Point::new(40, 12)),
        (Point::new(-5, 7), Point::new(3, 30)),
        (Point::new(17, 17), Point::new(18, 19)),
    ];
    let nodes = vec![node(20, 20, 6, 6), node(0, 0, 3, 3)];
    let grid = Grid::from_edges_and_nodes(&edges, &nodes);
    for (a, b) in &edges {
        for p in [a, b] {
            let gp = grid.point_to_grid_point(p).expect("endpoint on the grid");
            assert_eq!(grid.grid_point_to_point(gp), Some(*p));
        }
    }
    for w in grid.x_lines.windows(2) {
        assert!(w[0] < w[1]);
    }
    for w in grid.y_lines.windows(2) {
        assert!(w[0] < w[1]);
    }
    for n in &nodes {
        assert!(grid.min_x + 3 <= n.top_left().x && n.bottom_right().x + 3 <= grid.max_x);
        assert!(grid.min_y + 3 <= n.top_left().y && n.bottom_right().y + 3 <= grid.max_y);
    }
}

#[test]
fn try_from_refuses_an_area_that_is_too_large() {
    let edges = vec![(Point::new(0, 0), Point::new(0x100_0000, 0x100_0000))];
    assert!(Grid::try_from_edges_and_nodes(&edges, &Vec::new()).is_none());
    let small = vec![(Point::new(0, 0), Point::new(4, 4))];
    assert!(Grid::try_from_edges_and_nodes(&small, &Vec::new()).is_some());
}

#[test]
fn grid_new_derives_its_fields() {
    let grid = Grid::new(3, 2, vec![0, 4, 9], vec![-1, 1]);
    assert_eq!(grid.size, 6);
    assert_eq!(grid.num_segments, 2 * 2 + 1 * 3);
    assert_eq!((grid.min_x, grid.max_x, grid.min_y, grid.max_y), (0, 9, -1, 1));
    assert!(grid.is_valid_point(GridPoint(5)));
    assert!(!grid.is_valid_point(GridPoint(6)));
    assert!(grid.is_valid_segment(GridSegment(6)));
    assert!(!grid.is_valid_segment(GridSegment(7)));
}

#[test]
fn grid_index_conversions() {
    let grid = Grid::new(3, 2, vec![0, 4, 9], vec![-1, 1]);
    assert_eq!(grid.grid_coords_to_grid_point(2, 1), Some(GridPoint(5)));
    assert_eq!(grid.grid_coords_to_grid_point(3, 1), None);
    assert_eq!(grid.grid_coords_to_grid_point(0, 2), None);
    assert_eq!(grid.grid_point_to_grid_coords(GridPoint(4)), Some((1, 1)));
    assert_eq!(grid.grid_point_to_grid_coords(GridPoint(6)), None);
    assert_eq!(grid.grid_point_to_raw_coords(GridPoint(4)), Some((4, 1)));
    assert_eq!(grid.grid_point_to_point(GridPoint(2)), Some(Point::new(9, -1)));
    assert_eq!(grid.grid_point_to_point(GridPoint(9)), None);
    // raw width is 10: (y - min_y) * 10 + (x - min_x)
    assert_eq!(grid.grid_point_to_raw_point(GridPoint(4)), Some(RawPoint(2 * 10 + 4)));
    assert_eq!(grid.grid_point_to_raw_point(GridPoint(0)), Some(RawPoint(0)));
    assert_eq!(grid.grid_point_to_raw_point(GridPoint(6)), None);
    assert_eq!(grid.point_to_grid_point(&Point::new(4, 1)), Some(GridPoint(4)));
    assert_eq!(grid.point_to_grid_point(&Point::new(4, 0)), None);
    assert_eq!(grid.point_to_grid_point(&Point::new(5, 1)), None);
}

#[test]
fn grid_segment_index_formulas() {
    let grid = Grid::new(3, 2, vec![0, 4, 9], vec![-1, 1]);
    // horizontal: y * (width - 1) + min_x
    assert_eq!(grid.grid_coords_to_segment_index((0, 0), (1, 0)), 0);
    assert_eq!(grid.grid_coords_to_segment_index((2, 1), (1, 1)), 1 * 2 + 1);
    // vertical: (width - 1) * height + x * (height - 1) + min_y
    assert_eq!(grid.grid_coords_to_segment_index((0, 0), (0, 1)), 4);
    assert_eq!(grid.grid_coords_to_segment_index((2, 1), (2, 0)), 4 + 2);
}
