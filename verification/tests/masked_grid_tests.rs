use netext_core::geometry::{Orientation, PlacedRectangularNode, Point, RectangularNode, Size};
use netext_core::grid::{Grid, GridPoint};
use netext_core::masked_grid::{unremovable_mask, MaskedGrid};

fn node(cx: i32, cy: i32, w: i32, h: i32) -> PlacedRectangularNode {
    PlacedRectangularNode::new(Point::new(cx, cy), RectangularNode::new(Size::new(w, h)))
}

// x_lines -3 0 2 5 8 10 13, y_lines 0 5 10
fn grid_around_one_node() -> Grid {
    Grid::from_edges_and_nodes(&vec![(Point::new(0, 5), Point::new(10, 5))], &vec![node(5, 5, 4, 4)])
}

#[test]
fn bounds_of_a_node_on_the_grid() {
    let grid = grid_around_one_node();
    assert_eq!(
        MaskedGrid::node_grid_bounds(&grid, Point::new(3, 3), Point::new(7, 7)),
        (3, 3, 1, 1)
    );
    assert_eq!(
        MaskedGrid::node_grid_bounds(&grid, Point::new(0, 0), Point::new(8, 5)),
        (1, 4, 0, 1)
    );
    // strictly between two lines: the line before the node
    assert_eq!(
        MaskedGrid::node_grid_bounds(&grid, Point::new(6, 6), Point::new(7, 7)),
        (3, 3, 1, 1)
    );
    // beyond the last line and before the first
    assert_eq!(
        MaskedGrid::node_grid_bounds(&grid, Point::new(20, 20), Point::new(30, 30)),
        (6, 6, 2, 2)
    );
    assert_eq!(
        MaskedGrid::node_grid_bounds(&grid, Point::new(-30, -30), Point::new(-20, -20)),
        (0, 0, 0, 0)
    );
}

#[test]
fn without_nodes_everything_is_open() {
    let grid = grid_around_one_node();
    let nodes = Vec::new();
    let keep = Vec::new();
    let masked = MaskedGrid::from_nodes(&grid, &nodes, &keep);
    assert_eq!(masked.point_mask.len(), grid.size);
    assert_eq!(masked.segment_mask.len(), grid.num_segments);
    assert!(masked.point_mask.iter().all(|m| *m));
    assert!(masked.segment_mask.iter().all(|m| *m));
}

#[test]
fn a_node_masks_its_points_and_its_halo() {
    let grid = grid_around_one_node();
    let nodes = vec![node(5, 5, 4, 4)];
    let keep = Vec::new();
    let masked = MaskedGrid::from_nodes(&grid, &nodes, &keep);
    // the only grid point inside (3,3)-(7,7) is (5,5): column 3, row 1
    for p in 0..grid.size {
        assert_eq!(masked.point_mask[p], p != 1 * 7 + 3);
    }
    // the halo columns are x = 2 (column 2) and x = 8 (column 4); rows 0 and 1
    let mut closed = Vec::new();
    for x in [2usize, 4] {
        for y in [0usize, 1] {
            closed.push(grid.grid_coords_to_segment_index((x, y), (x, y + 1)));
        }
    }
    for s in 0..grid.num_segments {
        assert_eq!(masked.segment_mask[s], !closed.contains(&s));
    }
}

#[test]
fn halo_rows_are_masked_too() {
    // lines: x -3 0 2 3 4 6 9, y -3 0 2 4 7; node box (2,1)-(4,3), halo rows 0 and 4
    let grid = Grid::from_edges_and_nodes(
        &vec![(Point::new(0, 0), Point::new(6, 4))],
        &vec![node(3, 2, 2, 2)],
    );
    assert_eq!(grid.x_lines, vec![-3, 0, 2, 3, 4, 6, 9]);
    assert_eq!(grid.y_lines, vec![-3, 0, 2, 4, 7]);
    let nodes = vec![node(3, 2, 2, 2)];
    let keep = Vec::new();
    let masked = MaskedGrid::from_nodes(&grid, &nodes, &keep);
    // points: columns 2..4 (x 2, 3, 4), row 2 (y 2)
    for p in 0..grid.size {
        let (x, y) = grid.grid_point_to_grid_coords(GridPoint(p as u32)).unwrap();
        assert_eq!(masked.point_mask[p], !((2..=4).contains(&x) && y == 2));
    }
    let mut closed = Vec::new();
    // halo rows y = 0 (row 1) and y = 4 (row 3): segments from column 1 to column 4
    for y in [1usize, 3] {
        for x in 1usize..=4 {
            closed.push(grid.grid_coords_to_segment_index((x, y), (x + 1, y)));
        }
    }
    // halo columns x = 1 and x = 5 are no grid lines
    for s in 0..grid.num_segments {
        assert_eq!(masked.segment_mask[s], !closed.contains(&s), "segment {}", s);
    }
}

#[test]
fn kept_points_stay_usable() {
    let grid = grid_around_one_node();
    let nodes = vec![node(5, 5, 4, 4)];
    let inside = grid.point_to_grid_point(&Point::new(5, 5)).unwrap();
    let keep = vec![inside, GridPoint(9999)];
    let masked = MaskedGrid::from_nodes(&grid, &nodes, &keep);
    assert!(masked.point_mask.iter().all(|m| *m));
    let mask = unremovable_mask(&grid, &keep);
    for p in 0..grid.size {
        assert_eq!(mask[p], p == inside.0 as usize);
    }
}

#[test]
fn a_halo_segment_between_two_kept_points_stays_open() {
    let grid = grid_around_one_node();
    let nodes = vec![node(5, 5, 4, 4)];
    let a = grid.point_to_grid_point(&Point::new(2, 0)).unwrap();
    let b = grid.point_to_grid_point(&Point::new(2, 5)).unwrap();
    let between = grid.grid_coords_to_segment_index((2, 0), (2, 1));
    let below = grid.grid_coords_to_segment_index((2, 1), (2, 2));
    let both = vec![a, b];
    let masked = MaskedGrid::from_nodes(&grid, &nodes, &both);
    assert!(masked.segment_mask[between]);
    assert!(!masked.segment_mask[below]);
    let one = vec![a];
    let masked = MaskedGrid::from_nodes(&grid, &nodes, &one);
    assert!(!masked.segment_mask[between]);
}

#[test]
fn neighbors_along_the_orientation_and_the_turn() {
    let grid = grid_around_one_node();
    let nodes = Vec::new();
    let keep = Vec::new();
    let masked = MaskedGrid::from_nodes(&grid, &nodes, &keep);
    let middle = GridPoint(1 * 7 + 3);
    assert_eq!(
        masked.neighbors(middle, Orientation::Horizontal),
        vec![
            (GridPoint(9), Orientation::Horizontal),
            (GridPoint(11), Orientation::Horizontal),
            (middle, Orientation::Vertical),
        ]
    );
    assert_eq!(
        masked.neighbors(middle, Orientation::Vertical),
        vec![
            (GridPoint(3), Orientation::Vertical),
            (GridPoint(17), Orientation::Vertical),
            (middle, Orientation::Horizontal),
        ]
    );
    let corner = GridPoint(0);
    assert_eq!(
        masked.neighbors(corner, Orientation::Horizontal),
        vec![(GridPoint(1), Orientation::Horizontal), (corner, Orientation::Vertical)]
    );
    let last = GridPoint(20);
    assert_eq!(
        masked.neighbors(last, Orientation::Vertical),
        vec![(GridPoint(13), Orientation::Vertical), (last, Orientation::Horizontal)]
    );
    assert_eq!(masked.neighbors(GridPoint(21), Orientation::Vertical), Vec::new());
}

#[test]
fn masked_segments_give_no_neighbors() {
    let grid = grid_around_one_node();
    let nodes = vec![node(5, 5, 4, 4)];
    let keep = Vec::new();
    let masked = MaskedGrid::from_nodes(&grid, &nodes, &keep);
    let on_halo = grid.point_to_grid_point(&Point::new(2, 5)).unwrap();
    assert_eq!(
        masked.neighbors(on_halo, Orientation::Vertical),
        vec![(on_halo, Orientation::Horizontal)]
    );
    let mut buffer = vec![(GridPoint(0), Orientation::Vertical)];
    masked.fill_neighbors(on_halo, Orientation::Horizontal, &mut buffer);
    assert_eq!(
        buffer,
        vec![
            (GridPoint(on_halo.0 - 1), Orientation::Horizontal),
            (GridPoint(on_halo.0 + 1), Orientation::Horizontal),
            (on_halo, Orientation::Vertical),
        ]
    );
}
