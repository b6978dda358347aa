//! The routing grid with what the placed nodes forbid: the grid points that
//! a node covers, and the grid segments that run along the outside of a node
//! at a distance of one unit.

use vstd::prelude::*;
use crate::geometry::{Orientation, PlacedRectangularNode, Point};
use crate::grid::{nodes_well_formed, Grid, GridPoint};
use crate::lines::{count_below, lemma_count_below_splits, search_line, strictly_increasing};
use crate::raw_area::{horizontal_segment, lemma_point_index, vertical_segment};

verus! {

/// The inclusive range of line indices that lie on or inside the interval
/// from `low` to `high`. The lower index is that of the first line not below
/// `low`, the upper index that of the last line not above `high`; both are
/// kept inside the lines, and the lower one is not above the upper one.
pub open spec fn axis_range(lines: Seq<i32>, low: i32, high: i32) -> (int, int) {
    let last = if lines.len() > 0 {
        lines.len() - 1
    } else {
        0
    };
    let first_inside = count_below(lines, low as int);
    let lo = if first_inside < last {
        first_inside
    } else {
        last
    };
    let below_high = count_below(lines, high as int);
    let last_inside = if lines.contains(high) {
        below_high
    } else if below_high > 0 {
        below_high - 1
    } else {
        0
    };
    let hi = if last_inside < last {
        last_inside
    } else {
        last
    };
    (if lo < hi {
        lo
    } else {
        hi
    }, hi)
}

/// The range of segment indices along a line of `n` grid points that a
/// node's halo forbids: one segment before the node's range up to the
/// segment behind its last grid point.
pub open spec fn halo_span(range: (int, int), n: int) -> (int, int) {
    (if range.0 > 0 {
        range.0 - 1
    } else {
        0
    }, if n - 2 < range.1 {
        n - 2
    } else {
        range.1
    })
}

/// The columns of the grid that lie on or inside the node.
pub open spec fn node_columns(grid: Grid, node: PlacedRectangularNode) -> (int, int) {
    axis_range(grid.x_lines@, node.left() as i32, node.right() as i32)
}

/// The rows of the grid that lie on or inside the node.
pub open spec fn node_rows(grid: Grid, node: PlacedRectangularNode) -> (int, int) {
    axis_range(grid.y_lines@, node.top() as i32, node.bottom() as i32)
}

/// The node covers the grid point in column `gx` and row `gy`.
pub open spec fn node_blocks_point(grid: Grid, node: PlacedRectangularNode, gx: int, gy: int) -> bool {
    let cols = node_columns(grid, node);
    let rows = node_rows(grid, node);
    cols.0 <= gx <= cols.1 && rows.0 <= gy <= rows.1
}

/// The vertical grid segment from `(gx, gy)` down to `(gx, gy + 1)` runs
/// along the left or right side of the node, one unit outside.
pub open spec fn node_blocks_vertical(grid: Grid, node: PlacedRectangularNode, gx: int, gy: int) -> bool {
    let span = halo_span(node_rows(grid, node), grid.height as int);
    (grid.x_lines[gx] == node.left() - 1 || grid.x_lines[gx] == node.right() + 1) && span.0 <= gy
        <= span.1
}

/// The horizontal grid segment from `(gx, gy)` right to `(gx + 1, gy)` runs
/// along the top or bottom side of the node, one unit outside.
pub open spec fn node_blocks_horizontal(grid: Grid, node: PlacedRectangularNode, gx: int, gy: int) -> bool {
    let span = halo_span(node_columns(grid, node), grid.width as int);
    (grid.y_lines[gy] == node.top() - 1 || grid.y_lines[gy] == node.bottom() + 1) && span.0 <= gx
        <= span.1
}

pub open spec fn node_blocks_segment(grid: Grid, node: PlacedRectangularNode, s: int) -> bool {
    if grid.segment_is_horizontal(s) {
        node_blocks_horizontal(grid, node, grid.segment_col(s), grid.segment_row(s))
    } else {
        node_blocks_vertical(grid, node, grid.segment_col(s), grid.segment_row(s))
    }
}

/// One of the first `count` nodes covers the grid point `p`.
pub open spec fn point_blocked(grid: Grid, nodes: Seq<PlacedRectangularNode>, count: int, p: int) -> bool {
    exists|n: int|
        0 <= n < count && #[trigger] node_blocks_point(
            grid,
            nodes[n],
            p % (grid.width as int),
            p / (grid.width as int),
        )
}

/// The halo of one of the first `count` nodes forbids the grid segment `s`.
pub open spec fn segment_blocked(
    grid: Grid,
    nodes: Seq<PlacedRectangularNode>,
    count: int,
    s: int,
) -> bool {
    exists|n: int| 0 <= n < count && #[trigger] node_blocks_segment(grid, nodes[n], s)
}

/// The grid point `p` is one that must stay usable.
pub open spec fn point_kept(unremovable: Seq<GridPoint>, p: int) -> bool {
    unremovable.contains(GridPoint(p as u32))
}

/// Both ends of the grid segment `s` are points that must stay usable.
pub open spec fn segment_kept(grid: Grid, unremovable: Seq<GridPoint>, s: int) -> bool {
    point_kept(unremovable, grid.segment_from(s)) && point_kept(unremovable, grid.segment_to(s))
}

/// The next search states from a grid point in column `x` and row `y`: one
/// step either way along the orientation, where the segment is traversable,
/// and last the turn in place.
pub open spec fn neighbors_at(
    grid: Grid,
    segment_mask: Seq<bool>,
    p: GridPoint,
    orientation: Orientation,
) -> Seq<(GridPoint, Orientation)> {
    let x = grid.col(p);
    let y = grid.row(p);
    let w = grid.width as int;
    let h = grid.height as int;
    let none = Seq::<(GridPoint, Orientation)>::empty();
    let moves = match orientation {
        Orientation::Horizontal => {
            (if x > 0 && segment_mask[horizontal_segment(w, x - 1, y)] {
                seq![(GridPoint((p.0 - 1) as u32), Orientation::Horizontal)]
            } else {
                none
            }) + (if x + 1 < w && segment_mask[horizontal_segment(w, x, y)] {
                seq![(GridPoint((p.0 + 1) as u32), Orientation::Horizontal)]
            } else {
                none
            })
        },
        Orientation::Vertical => {
            (if y > 0 && segment_mask[vertical_segment(w, h, x, y - 1)] {
                seq![(GridPoint((p.0 - w) as u32), Orientation::Vertical)]
            } else {
                none
            }) + (if y + 1 < h && segment_mask[vertical_segment(w, h, x, y)] {
                seq![(GridPoint((p.0 + w) as u32), Orientation::Vertical)]
            } else {
                none
            })
        },
    };
    moves.push((p, orientation.flipped()))
}

/// A grid with a mask over its points (true: usable) and a mask over its
/// segments (true: traversable).
#[derive(Clone, Debug)]
pub struct MaskedGrid<'a> {
    pub grid: &'a Grid,
    pub point_mask: Vec<bool>,
    pub segment_mask: Vec<bool>,
}

/// A mask over the grid points that is true at the points of `points` that
/// lie on the grid, and false elsewhere.
pub fn unremovable_mask(grid: &Grid, points: &Vec<GridPoint>) -> (keep: Vec<bool>)
    requires
        grid.well_formed(),
    ensures
        keep.len() == grid.size,
        forall|p: int| 0 <= p < grid.size ==> #[trigger] keep[p] == point_kept(points@, p),
{
    proof {
        grid.lemma_dimensions();
    }
    let mut keep: Vec<bool> = Vec::new();
    let mut n: usize = 0;
    while n < grid.size
        invariant
            n <= grid.size,
            keep.len() == n,
            forall|p: int| 0 <= p < n ==> !#[trigger] keep[p],
        decreases grid.size - n,
    {
        keep.push(false);
        n += 1;
    }
    let mut i: usize = 0;
    while i < points.len()
        invariant
            grid.size <= crate::raw_area::MAX_RAW_POINTS,
            i <= points.len(),
            keep.len() == grid.size,
            forall|p: int|
                0 <= p < grid.size ==> #[trigger] keep[p] == point_kept(
                    points@.subrange(0, i as int),
                    p,
                ),
        decreases points.len() - i,
    {
        let point = points[i];
        let ghost before = points@.subrange(0, i as int);
        let ghost after = points@.subrange(0, i as int + 1);
        if grid.is_valid_point(point) {
            keep[point.0 as usize] = true;
        }
        proof {
            assert(after =~= before.push(point));
            assert forall|p: int| 0 <= p < grid.size implies #[trigger] keep[p] == point_kept(
                after,
                p,
            ) by {
                let q = GridPoint(p as u32);
                if before.contains(q) {
                    let k = choose|k: int| 0 <= k < before.len() && before[k] == q;
                    assert(after[k] == q);
                }
                if after.contains(q) {
                    let k = choose|k: int| 0 <= k < after.len() && after[k] == q;
                    if k < before.len() {
                        assert(before[k] == q);
                    }
                }
                if point == q {
                    assert(after[i as int] == q);
                }
            }
        }
        i += 1;
    }
    proof {
        assert(points@.subrange(0, points.len() as int) =~= points@);
    }
    keep
}

fn lower_of(a: usize, b: usize) -> (r: usize)
    ensures
        r == if a < b {
            a
        } else {
            b
        },
{
    if a < b {
        a
    } else {
        b
    }
}

fn axis_bounds(lines: &Vec<i32>, low: i32, high: i32) -> (r: (usize, usize))
    requires
        crate::lines::strictly_increasing(lines@),
        lines.len() >= 1,
    ensures
        (r.0 as int, r.1 as int) == axis_range(lines@, low, high),
        r.0 <= r.1 < lines.len(),
{
    let last = lines.len() - 1;
    let first_inside = match search_line(lines, low) {
        Ok(i) => i,
        Err(i) => i,
    };
    let lo = lower_of(first_inside, last);
    let last_inside = match search_line(lines, high) {
        Ok(i) => i,
        Err(i) => if i > 0 {
            i - 1
        } else {
            0
        },
    };
    let hi = lower_of(last_inside, last);
    (lower_of(lo, hi), hi)
}

impl<'a> MaskedGrid<'a> {
    /// The masks have one entry for each grid point and each grid segment.
    pub open spec fn well_formed(&self) -> bool {
        &&& self.grid.well_formed()
        &&& self.point_mask.len() == self.grid.size
        &&& self.segment_mask.len() == self.grid.num_segments
    }

    /// The grid columns and rows that lie on or inside a rectangle, as
    /// `(min_x, max_x, min_y, max_y)`.
    pub fn node_grid_bounds(grid: &Grid, top_left: Point, bottom_right: Point) -> (r: (
        usize,
        usize,
        usize,
        usize,
    ))
        requires
            grid.well_formed(),
        ensures
            (r.0 as int, r.1 as int) == axis_range(grid.x_lines@, top_left.x, bottom_right.x),
            (r.2 as int, r.3 as int) == axis_range(grid.y_lines@, top_left.y, bottom_right.y),
            r.0 <= r.1 < grid.width,
            r.2 <= r.3 < grid.height,
    {
        let (min_grid_x, max_grid_x) = axis_bounds(&grid.x_lines, top_left.x, bottom_right.x);
        let (min_grid_y, max_grid_y) = axis_bounds(&grid.y_lines, top_left.y, bottom_right.y);
        (min_grid_x, max_grid_x, min_grid_y, max_grid_y)
    }

    /// Clears the mask at every grid point of the given columns and rows
    /// that is not to be kept.
    pub fn mask_points_in_bounds(
        grid: &Grid,
        point_mask: &mut Vec<bool>,
        keep: &Vec<bool>,
        min_grid_x: usize,
        max_grid_x: usize,
        min_grid_y: usize,
        max_grid_y: usize,
    )
        requires
            grid.well_formed(),
            old(point_mask).len() == grid.size,
            keep.len() == grid.size,
            max_grid_x < grid.width,
            max_grid_y < grid.height,
        ensures
            final(point_mask).len() == grid.size,
            forall|p: int|
                0 <= p < grid.size ==> #[trigger] final(point_mask)[p] == (old(point_mask)[p] && !(
                min_grid_x <= p % (grid.width as int) <= max_grid_x && min_grid_y <= p / (
                grid.width as int) <= max_grid_y && !keep[p])),
    {
        if min_grid_x > max_grid_x || min_grid_y > max_grid_y {
            return ;
        }
        proof {
            grid.lemma_dimensions();
        }
        let ghost before = point_mask@;
        let ghost w = grid.width as int;
        let ghost h = grid.height as int;
        let mut grid_y = min_grid_y;
        while grid_y <= max_grid_y
            invariant
                grid.well_formed(),
                w == grid.width,
                h == grid.height,
                point_mask.len() == grid.size,
                keep.len() == grid.size,
                before.len() == grid.size,
                min_grid_x <= max_grid_x < grid.width,
                min_grid_y <= grid_y <= max_grid_y + 1,
                max_grid_y < grid.height,
                forall|p: int|
                    0 <= p < grid.size ==> #[trigger] point_mask[p] == (before[p] && !(min_grid_x
                        <= p % w <= max_grid_x && min_grid_y <= p / w < grid_y && !keep[p])),
            decreases max_grid_y + 1 - grid_y,
        {
            let mut grid_x = min_grid_x;
            while grid_x <= max_grid_x
                invariant
                    grid.well_formed(),
                    w == grid.width,
                    h == grid.height,
                    point_mask.len() == grid.size,
                    keep.len() == grid.size,
                    before.len() == grid.size,
                    min_grid_x <= grid_x <= max_grid_x + 1,
                    max_grid_x < grid.width,
                    min_grid_y <= grid_y <= max_grid_y < grid.height,
                    forall|p: int|
                        0 <= p < grid.size ==> #[trigger] point_mask[p] == (before[p] && !(
                        min_grid_x <= p % w <= max_grid_x && !keep[p] && (min_grid_y <= p / w
                            < grid_y || (p / w == grid_y && p % w < grid_x)))),
                decreases max_grid_x + 1 - grid_x,
            {
                match grid.grid_coords_to_grid_point(grid_x, grid_y) {
                    Some(grid_point) => {
                        let idx = grid_point.0 as usize;
                        if !keep[idx] {
                            point_mask[idx] = false;
                        }
                        proof {
                            lemma_point_index(w, h, grid_x as int, grid_y as int);
                            assert forall|p: int| 0 <= p < grid.size implies #[trigger] point_mask[p]
                                == (before[p] && !(min_grid_x <= p % w <= max_grid_x && !keep[p] && (
                            min_grid_y <= p / w < grid_y || (p / w == grid_y && p % w < grid_x
                                + 1)))) by {
                                if p != idx {
                                    if p / w == grid_y && p % w == grid_x {
                                        crate::raw_area::lemma_index_point(w, h, p);
                                    }
                                }
                            }
                        }
                    },
                    None => {},
                }
                grid_x += 1;
            }
            grid_y += 1;
        }
    }

    /// Clears the mask at the vertical grid segments of column `grid_x` that
    /// pass the given rows, from one segment above them on, unless both ends
    /// of a segment are to be kept.
    pub fn mask_vertical_segments_at_x(
        grid: &Grid,
        segment_mask: &mut Vec<bool>,
        keep: &Vec<bool>,
        grid_x: usize,
        min_grid_y: usize,
        max_grid_y: usize,
    )
        requires
            grid.well_formed(),
            old(segment_mask).len() == grid.num_segments,
            keep.len() == grid.size,
            grid_x < grid.width,
            min_grid_y <= max_grid_y < grid.height,
        ensures
            final(segment_mask).len() == grid.num_segments,
            forall|s: int|
                0 <= s < grid.num_segments ==> #[trigger] final(segment_mask)[s] == (old(
                    segment_mask,
                )[s] && !(!grid.segment_is_horizontal(s) && grid.segment_col(s) == grid_x
                    && halo_span((min_grid_y as int, max_grid_y as int), grid.height as int).0
                    <= grid.segment_row(s) <= halo_span(
                    (min_grid_y as int, max_grid_y as int),
                    grid.height as int,
                ).1 && !(keep[grid.segment_from(s)] && keep[grid.segment_to(s)]))),
    {
        if grid.height < 2 {
            proof {
                assert forall|s: int| 0 <= s < grid.num_segments implies grid.segment_is_horizontal(
                    s,
                ) by {
                    assert((grid.height - 1) * grid.width == 0) by (nonlinear_arith)
                        requires
                            grid.height == 1,
                    ;
                }
            }
            return ;
        }
        let ghost before = segment_mask@;
        let ghost w = grid.width as int;
        let ghost h = grid.height as int;
        let start_y = if min_grid_y > 0 {
            min_grid_y - 1
        } else {
            0
        };
        let end_y = lower_of(grid.height - 2, max_grid_y);
        let mut grid_y = start_y;
        while grid_y <= end_y
            invariant
                grid.well_formed(),
                w == grid.width,
                h == grid.height,
                h >= 2,
                segment_mask.len() == grid.num_segments,
                before.len() == grid.num_segments,
                keep.len() == grid.size,
                grid_x < grid.width,
                start_y <= grid_y <= end_y + 1,
                end_y <= h - 2,
                forall|s: int|
                    0 <= s < grid.num_segments ==> #[trigger] segment_mask[s] == (before[s] && !(
                    !grid.segment_is_horizontal(s) && grid.segment_col(s) == grid_x && start_y
                        <= grid.segment_row(s) < grid_y && !(keep[grid.segment_from(s)]
                        && keep[grid.segment_to(s)]))),
            decreases end_y + 1 - grid_y,
        {
            let segment_index = grid.grid_coords_to_segment_index(
                (grid_x, grid_y),
                (grid_x, grid_y + 1),
            );
            proof {
                grid.lemma_dimensions();
                grid.lemma_vertical(grid_x as int, grid_y as int);
                grid.lemma_segment(segment_index as int);
                lemma_point_index(w, h, grid_x as int, grid_y as int);
                lemma_point_index(w, h, grid_x as int, grid_y as int + 1);
                assert((grid_y + 1) * w == grid_y * w + w) by (nonlinear_arith);
            }
            let a = grid_y * grid.width + grid_x;
            let b = a + grid.width;
            if !(keep[a] && keep[b]) {
                segment_mask[segment_index] = false;
            }
            proof {
                assert forall|s: int| 0 <= s < grid.num_segments implies #[trigger] segment_mask[s]
                    == (before[s] && !(!grid.segment_is_horizontal(s) && grid.segment_col(s)
                    == grid_x && start_y <= grid.segment_row(s) < grid_y + 1 && !(
                keep[grid.segment_from(s)] && keep[grid.segment_to(s)]))) by {
                    if s != segment_index {
                        grid.lemma_segment(s);
                    }
                }
            }
            grid_y += 1;
        }
    }

    /// Clears the mask at the horizontal grid segments of row `grid_y` that
    /// pass the given columns, from one segment left of them on, unless both
    /// ends of a segment are to be kept.
    pub fn mask_horizontal_segments_at_y(
        grid: &Grid,
        segment_mask: &mut Vec<bool>,
        keep: &Vec<bool>,
        grid_y: usize,
        min_grid_x: usize,
        max_grid_x: usize,
    )
        requires
            grid.well_formed(),
            old(segment_mask).len() == grid.num_segments,
            keep.len() == grid.size,
            grid_y < grid.height,
            min_grid_x <= max_grid_x < grid.width,
        ensures
            final(segment_mask).len() == grid.num_segments,
            forall|s: int|
                0 <= s < grid.num_segments ==> #[trigger] final(segment_mask)[s] == (old(
                    segment_mask,
                )[s] && !(grid.segment_is_horizontal(s) && grid.segment_row(s) == grid_y
                    && halo_span((min_grid_x as int, max_grid_x as int), grid.width as int).0
                    <= grid.segment_col(s) <= halo_span(
                    (min_grid_x as int, max_grid_x as int),
                    grid.width as int,
                ).1 && !(keep[grid.segment_from(s)] && keep[grid.segment_to(s)]))),
    {
        if grid.width < 2 {
            proof {
                assert forall|s: int| 0 <= s < grid.num_segments implies !grid.segment_is_horizontal(
                    s,
                ) by {
                    assert((grid.width - 1) * grid.height == 0) by (nonlinear_arith)
                        requires
                            grid.width == 1,
                    ;
                }
            }
            return ;
        }
        let ghost before = segment_mask@;
        let ghost w = grid.width as int;
        let ghost h = grid.height as int;
        let start_x = if min_grid_x > 0 {
            min_grid_x - 1
        } else {
            0
        };
        let end_x = lower_of(grid.width - 2, max_grid_x);
        let mut grid_x = start_x;
        while grid_x <= end_x
            invariant
                grid.well_formed(),
                w == grid.width,
                h == grid.height,
                w >= 2,
                segment_mask.len() == grid.num_segments,
                before.len() == grid.num_segments,
                keep.len() == grid.size,
                grid_y < grid.height,
                start_x <= grid_x <= end_x + 1,
                end_x <= w - 2,
                forall|s: int|
                    0 <= s < grid.num_segments ==> #[trigger] segment_mask[s] == (before[s] && !(
                    grid.segment_is_horizontal(s) && grid.segment_row(s) == grid_y && start_x
                        <= grid.segment_col(s) < grid_x && !(keep[grid.segment_from(s)]
                        && keep[grid.segment_to(s)]))),
            decreases end_x + 1 - grid_x,
        {
            let segment_index = grid.grid_coords_to_segment_index(
                (grid_x, grid_y),
                (grid_x + 1, grid_y),
            );
            proof {
                grid.lemma_dimensions();
                grid.lemma_horizontal(grid_x as int, grid_y as int);
                grid.lemma_segment(segment_index as int);
                lemma_point_index(w, h, grid_x as int, grid_y as int);
                lemma_point_index(w, h, grid_x as int + 1, grid_y as int);
            }
            let a = grid_y * grid.width + grid_x;
            let b = a + 1;
            if !(keep[a] && keep[b]) {
                segment_mask[segment_index] = false;
            }
            proof {
                assert forall|s: int| 0 <= s < grid.num_segments implies #[trigger] segment_mask[s]
                    == (before[s] && !(grid.segment_is_horizontal(s) && grid.segment_row(s)
                    == grid_y && start_x <= grid.segment_col(s) < grid_x + 1 && !(
                keep[grid.segment_from(s)] && keep[grid.segment_to(s)]))) by {
                    if s != segment_index {
                        grid.lemma_segment(s);
                    }
                }
            }
            grid_x += 1;
        }
    }
}

/// Whether the masked grid is the one that the nodes and the points to keep
/// give: a grid point is usable unless a node covers it, a grid segment is
/// traversable unless a node's halo forbids it, and what is to be kept stays
/// usable whatever the nodes cover.
pub open spec fn masks_match(
    grid: Grid,
    point_mask: Seq<bool>,
    segment_mask: Seq<bool>,
    nodes: Seq<PlacedRectangularNode>,
    count: int,
    unremovable: Seq<GridPoint>,
) -> bool {
    &&& point_mask.len() == grid.size
    &&& segment_mask.len() == grid.num_segments
    &&& forall|p: int|
        0 <= p < grid.size ==> #[trigger] point_mask[p] == (point_kept(unremovable, p)
            || !point_blocked(grid, nodes, count, p))
    &&& forall|s: int|
        0 <= s < grid.num_segments ==> #[trigger] segment_mask[s] == (segment_kept(
            grid,
            unremovable,
            s,
        ) || !segment_blocked(grid, nodes, count, s))
}

impl<'a> MaskedGrid<'a> {
    /// The masked grid of the placed nodes. The grid points of
    /// `unremovable_points` stay usable, and a segment between two of them
    /// stays traversable.
    pub fn from_nodes(
        grid: &'a Grid,
        placed_nodes: &Vec<PlacedRectangularNode>,
        unremovable_points: &Vec<GridPoint>,
    ) -> (m: MaskedGrid<'a>)
        requires
            grid.well_formed(),
            nodes_well_formed(placed_nodes@),
        ensures
            m.grid == grid,
            m.well_formed(),
            masks_match(
                *grid,
                m.point_mask@,
                m.segment_mask@,
                placed_nodes@,
                placed_nodes.len() as int,
                unremovable_points@,
            ),
    {
        let keep = unremovable_mask(grid, unremovable_points);
        let mut grid_point_mask: Vec<bool> = vec![true; grid.size];
        let mut visibility_segment_mask: Vec<bool> = vec![true; grid.num_segments];
        let ghost nodes = placed_nodes@;
        let ghost kept = unremovable_points@;
        let ghost w = grid.width as int;
        let mut i: usize = 0;
        while i < placed_nodes.len()
            invariant
                grid.well_formed(),
                nodes == placed_nodes@,
                kept == unremovable_points@,
                w == grid.width,
                nodes_well_formed(nodes),
                i <= placed_nodes.len(),
                keep.len() == grid.size,
                forall|p: int| 0 <= p < grid.size ==> #[trigger] keep[p] == point_kept(kept, p),
                masks_match(
                    *grid,
                    grid_point_mask@,
                    visibility_segment_mask@,
                    nodes,
                    i as int,
                    kept,
                ),
            decreases placed_nodes.len() - i,
        {
            let node = placed_nodes[i];
            assert(nodes[i as int].well_formed());
            let tl = node.top_left();
            let br = node.bottom_right();
            let (min_grid_x, max_grid_x, min_grid_y, max_grid_y) = Self::node_grid_bounds(
                grid,
                tl,
                br,
            );
            let ghost points_before = grid_point_mask@;
            let ghost segments_before = visibility_segment_mask@;
            Self::mask_points_in_bounds(
                grid,
                &mut grid_point_mask,
                &keep,
                min_grid_x,
                max_grid_x,
                min_grid_y,
                max_grid_y,
            );
            proof {
                assert forall|p: int| 0 <= p < grid.size implies #[trigger] grid_point_mask[p] == (
                point_kept(kept, p) || !point_blocked(*grid, nodes, i as int + 1, p)) by {
                    let here = node_blocks_point(*grid, nodes[i as int], p % w, p / w);
                    assert(here == (min_grid_x <= p % w <= max_grid_x && min_grid_y <= p / w
                        <= max_grid_y));
                    if point_blocked(*grid, nodes, i as int + 1, p) {
                        let n = choose|n: int|
                            0 <= n < i + 1 && #[trigger] node_blocks_point(
                                *grid,
                                nodes[n],
                                p % w,
                                p / w,
                            );
                        if n < i {
                            assert(point_blocked(*grid, nodes, i as int, p));
                        }
                    }
                    if point_blocked(*grid, nodes, i as int, p) {
                        let n = choose|n: int|
                            0 <= n < i && #[trigger] node_blocks_point(*grid, nodes[n], p % w, p / w);
                        assert(node_blocks_point(*grid, nodes[n], p % w, p / w));
                    }
                }
            }

            let tl_x_extruded = tl.x - 1;
            let tl_y_extruded = tl.y - 1;
            let br_x_extruded = br.x + 1;
            let br_y_extruded = br.y + 1;

            let left_line = search_line(&grid.x_lines, tl_x_extruded);
            match left_line {
                Ok(grid_x) => {
                    Self::mask_vertical_segments_at_x(
                        grid,
                        &mut visibility_segment_mask,
                        &keep,
                        grid_x,
                        min_grid_y,
                        max_grid_y,
                    );
                },
                Err(_) => {},
            }
            let right_line = search_line(&grid.x_lines, br_x_extruded);
            match right_line {
                Ok(grid_x) => {
                    Self::mask_vertical_segments_at_x(
                        grid,
                        &mut visibility_segment_mask,
                        &keep,
                        grid_x,
                        min_grid_y,
                        max_grid_y,
                    );
                },
                Err(_) => {},
            }
            let top_line = search_line(&grid.y_lines, tl_y_extruded);
            match top_line {
                Ok(grid_y) => {
                    Self::mask_horizontal_segments_at_y(
                        grid,
                        &mut visibility_segment_mask,
                        &keep,
                        grid_y,
                        min_grid_x,
                        max_grid_x,
                    );
                },
                Err(_) => {},
            }
            let bottom_line = search_line(&grid.y_lines, br_y_extruded);
            match bottom_line {
                Ok(grid_y) => {
                    Self::mask_horizontal_segments_at_y(
                        grid,
                        &mut visibility_segment_mask,
                        &keep,
                        grid_y,
                        min_grid_x,
                        max_grid_x,
                    );
                },
                Err(_) => {},
            }
            proof {
                let this = nodes[i as int];
                assert forall|s: int|
                    0 <= s < grid.num_segments implies #[trigger] visibility_segment_mask[s] == (
                segment_kept(*grid, kept, s) || !segment_blocked(*grid, nodes, i as int + 1, s)) by {
                    grid.lemma_segment(s);
                    let col = grid.segment_col(s);
                    let row = grid.segment_row(s);
                    let both = keep[grid.segment_from(s)] && keep[grid.segment_to(s)];
                    assert(both == segment_kept(*grid, kept, s));
                    if grid.segment_is_horizontal(s) {
                        assert(grid.y_lines@.contains(grid.y_lines[row]));
                        match top_line {
                            Ok(gy) => {
                                assert(grid.y_lines[row] == tl_y_extruded <==> row == gy);
                            },
                            Err(_) => {},
                        }
                        match bottom_line {
                            Ok(gy) => {
                                assert(grid.y_lines[row] == br_y_extruded <==> row == gy);
                            },
                            Err(_) => {},
                        }
                    } else {
                        assert(grid.x_lines@.contains(grid.x_lines[col]));
                        match left_line {
                            Ok(gx) => {
                                assert(grid.x_lines[col] == tl_x_extruded <==> col == gx);
                            },
                            Err(_) => {},
                        }
                        match right_line {
                            Ok(gx) => {
                                assert(grid.x_lines[col] == br_x_extruded <==> col == gx);
                            },
                            Err(_) => {},
                        }
                    }
                    assert(visibility_segment_mask[s] == (segments_before[s] && !(
                    node_blocks_segment(*grid, this, s) && !both)));
                    if segment_blocked(*grid, nodes, i as int + 1, s) {
                        let n = choose|n: int|
                            0 <= n < i + 1 && #[trigger] node_blocks_segment(*grid, nodes[n], s);
                        if n < i {
                            assert(segment_blocked(*grid, nodes, i as int, s));
                        }
                    }
                    if segment_blocked(*grid, nodes, i as int, s) {
                        let n = choose|n: int|
                            0 <= n < i && #[trigger] node_blocks_segment(*grid, nodes[n], s);
                        assert(node_blocks_segment(*grid, nodes[n], s));
                    }
                }
            }
            i += 1;
        }
        MaskedGrid { grid, point_mask: grid_point_mask, segment_mask: visibility_segment_mask }
    }

    /// Fills `neighbors` with the search states that follow on a grid point
    /// and an orientation: one step either way along the orientation, where
    /// the segment is traversable, and last the turn in place. A grid point
    /// outside the grid has none.
    pub fn fill_neighbors(
        &self,
        grid_point: GridPoint,
        orientation: Orientation,
        neighbors: &mut Vec<(GridPoint, Orientation)>,
    )
        requires
            self.well_formed(),
        ensures
            grid_point.0 < self.grid.size ==> final(neighbors)@ == neighbors_at(
                *self.grid,
                self.segment_mask@,
                grid_point,
                orientation,
            ),
            grid_point.0 >= self.grid.size ==> final(neighbors)@.len() == 0,
    {
        neighbors.clear();
        let (x, y) = match self.grid.grid_point_to_grid_coords(grid_point) {
            Some(c) => c,
            None => {
                return ;
            },
        };
        proof {
            self.grid.lemma_dimensions();
            self.grid.lemma_point(grid_point);
        }
        let width = self.grid.width;
        let ghost w = width as int;
        let ghost h = self.grid.height as int;
        let index = grid_point.0 as usize;
        match orientation {
            Orientation::Horizontal => {
                if x > 0 {
                    let segment_index = self.grid.grid_coords_to_segment_index((x, y), (x - 1, y));
                    if self.segment_mask[segment_index] {
                        neighbors.push((GridPoint((index - 1) as u32), Orientation::Horizontal));
                    }
                }
                if x + 1 < width {
                    let segment_index = self.grid.grid_coords_to_segment_index((x, y), (x + 1, y));
                    proof {
                        lemma_point_index(w, h, x as int + 1, y as int);
                    }
                    if self.segment_mask[segment_index] {
                        neighbors.push((GridPoint((index + 1) as u32), Orientation::Horizontal));
                    }
                }
            },
            Orientation::Vertical => {
                if y > 0 {
                    let segment_index = self.grid.grid_coords_to_segment_index((x, y), (x, y - 1));
                    proof {
                        lemma_point_index(w, h, x as int, y as int - 1);
                        assert((y - 1) * w == y * w - w) by (nonlinear_arith);
                    }
                    if self.segment_mask[segment_index] {
                        neighbors.push((GridPoint((index - width) as u32), Orientation::Vertical));
                    }
                }
                if y + 1 < self.grid.height {
                    let segment_index = self.grid.grid_coords_to_segment_index((x, y), (x, y + 1));
                    proof {
                        lemma_point_index(w, h, x as int, y as int + 1);
                        assert((y + 1) * w == y * w + w) by (nonlinear_arith);
                    }
                    if self.segment_mask[segment_index] {
                        neighbors.push((GridPoint((index + width) as u32), Orientation::Vertical));
                    }
                }
            },
        }
        let new_orientation = match orientation {
            Orientation::Horizontal => Orientation::Vertical,
            Orientation::Vertical => Orientation::Horizontal,
        };
        neighbors.push((grid_point, new_orientation));
        proof {
            assert(neighbors@ =~= neighbors_at(
                *self.grid,
                self.segment_mask@,
                grid_point,
                orientation,
            ));
        }
    }

    /// The search states that follow on a grid point and an orientation.
    pub fn neighbors(&self, grid_point: GridPoint, orientation: Orientation) -> (r: Vec<
        (GridPoint, Orientation),
    >)
        requires
            self.well_formed(),
        ensures
            grid_point.0 < self.grid.size ==> r@ == neighbors_at(
                *self.grid,
                self.segment_mask@,
                grid_point,
                orientation,
            ),
            grid_point.0 >= self.grid.size ==> r@.len() == 0,
    {
        let mut r: Vec<(GridPoint, Orientation)> = Vec::new();
        self.fill_neighbors(grid_point, orientation, &mut r);
        r
    }
}

/// A line that lies on or inside an interval is within the range of lines
/// of that interval.
pub proof fn lemma_axis_range_holds(lines: Seq<i32>, low: i32, high: i32, c: int)
    requires
        strictly_increasing(lines),
        0 <= c < lines.len(),
        low <= lines[c] <= high,
    ensures
        axis_range(lines, low, high).0 <= c <= axis_range(lines, low, high).1,
{
    lemma_count_below_splits(lines, low as int);
    lemma_count_below_splits(lines, high as int);
    let below_low = count_below(lines, low as int);
    let below_high = count_below(lines, high as int);
    if below_low > c {
        assert(lines[c] < low);
    }
    if lines.contains(high) {
        let k = choose|k: int| 0 <= k < lines.len() && lines[k] == high;
        if below_high < c {
            assert(lines[below_high] >= high);
        }
    } else {
        if below_high <= c {
            assert(lines[c] >= high);
        }
    }
}

/// For an interval that lies strictly between two neighbouring lines, the
/// range of lines is the line before it alone.
pub proof fn lemma_axis_range_between(lines: Seq<i32>, low: i32, high: i32, c: int)
    requires
        strictly_increasing(lines),
        0 <= c,
        c + 1 < lines.len(),
        lines[c] < low <= high < lines[c + 1],
    ensures
        axis_range(lines, low, high) == (c, c),
{
    lemma_count_below_splits(lines, low as int);
    lemma_count_below_splits(lines, high as int);
    let below_low = count_below(lines, low as int);
    let below_high = count_below(lines, high as int);
    if below_low <= c {
        assert(lines[c] >= low);
    }
    if below_low > c + 1 {
        assert(lines[c + 1] < low);
    }
    if below_high <= c {
        assert(lines[c] >= high);
    }
    if below_high > c + 1 {
        assert(lines[c + 1] < high);
    }
    if lines.contains(high) {
        let k = choose|k: int| 0 <= k < lines.len() && lines[k] == high;
        if k <= c {
            if k < c {
                assert(lines[k] < lines[c]);
            }
        } else {
            if k > c + 1 {
                assert(lines[c + 1] < lines[k]);
            }
        }
    }
}

/// A grid point that lies on or inside a node is one that a node blocks.
pub proof fn lemma_covered_point_blocked(
    grid: Grid,
    nodes: Seq<PlacedRectangularNode>,
    n: int,
    p: int,
)
    requires
        grid.well_formed(),
        nodes_well_formed(nodes),
        0 <= n < nodes.len(),
        0 <= p < grid.size,
        nodes[n].covers(
            grid.point_of(GridPoint(p as u32)).x as int,
            grid.point_of(GridPoint(p as u32)).y as int,
        ),
    ensures
        point_blocked(grid, nodes, nodes.len() as int, p),
{
    let gp = GridPoint(p as u32);
    grid.lemma_dimensions();
    grid.lemma_point(gp);
    assert(nodes[n].well_formed());
    lemma_axis_range_holds(
        grid.x_lines@,
        nodes[n].left() as i32,
        nodes[n].right() as i32,
        grid.col(gp),
    );
    lemma_axis_range_holds(
        grid.y_lines@,
        nodes[n].top() as i32,
        nodes[n].bottom() as i32,
        grid.row(gp),
    );
    assert(node_blocks_point(grid, nodes[n], p % (grid.width as int), p / (grid.width as int)));
}

/// A grid point that lies on or inside a node and is not to be kept is
/// masked.
pub proof fn lemma_covered_point_masked(
    grid: Grid,
    point_mask: Seq<bool>,
    segment_mask: Seq<bool>,
    nodes: Seq<PlacedRectangularNode>,
    unremovable: Seq<GridPoint>,
    n: int,
    p: int,
)
    requires
        grid.well_formed(),
        nodes_well_formed(nodes),
        masks_match(grid, point_mask, segment_mask, nodes, nodes.len() as int, unremovable),
        0 <= n < nodes.len(),
        0 <= p < grid.size,
        nodes[n].covers(
            grid.point_of(GridPoint(p as u32)).x as int,
            grid.point_of(GridPoint(p as u32)).y as int,
        ),
        !point_kept(unremovable, p),
    ensures
        !point_mask[p],
{
    lemma_covered_point_blocked(grid, nodes, n, p);
}

/// The point `q` lies on the straight line between the points `a` and `b`
/// of one row or one column, ends included.
pub open spec fn on_line(a: Point, b: Point, q: Point) -> bool {
    (a.y == b.y && q.y == a.y && ((a.x <= q.x <= b.x) || (b.x <= q.x <= a.x))) || (a.x == b.x
        && q.x == a.x && ((a.y <= q.y <= b.y) || (b.y <= q.y <= a.y)))
}

/// Two grid points are neighbours along a row or a column.
pub open spec fn grid_neighbors(grid: Grid, a: GridPoint, b: GridPoint) -> bool {
    let ax = grid.col(a);
    let ay = grid.row(a);
    let bx = grid.col(b);
    let by = grid.row(b);
    (ay == by && (ax + 1 == bx || bx + 1 == ax)) || (ax == bx && (ay + 1 == by || by + 1 == ay))
}

/// Between two neighbouring grid points that no node blocks, no point of
/// the straight line lies on or inside a node.
pub proof fn lemma_line_clear(
    grid: Grid,
    nodes: Seq<PlacedRectangularNode>,
    n: int,
    a: GridPoint,
    b: GridPoint,
    q: Point,
)
    requires
        grid.well_formed(),
        nodes_well_formed(nodes),
        0 <= n < nodes.len(),
        a.0 < grid.size,
        b.0 < grid.size,
        grid_neighbors(grid, a, b),
        !point_blocked(grid, nodes, nodes.len() as int, a.0 as int),
        !point_blocked(grid, nodes, nodes.len() as int, b.0 as int),
        on_line(grid.point_of(a), grid.point_of(b), q),
    ensures
        !nodes[n].covers(q.x as int, q.y as int),
{
    grid.lemma_dimensions();
    grid.lemma_point(a);
    grid.lemma_point(b);
    let node = nodes[n];
    assert(node.well_formed());
    let pa = grid.point_of(a);
    let pb = grid.point_of(b);
    let w = grid.width as int;
    if node.covers(q.x as int, q.y as int) {
        // the first of the two grid points, in the order of the lines
        let first = if grid.col(a) < grid.col(b) || grid.row(a) < grid.row(b) {
            a
        } else {
            b
        };
        let second = if first == a {
            b
        } else {
            a
        };
        let pf = grid.point_of(first);
        let ps = grid.point_of(second);
        if grid.row(a) == grid.row(b) {
            let c = grid.col(first);
            assert(grid.col(second) == c + 1);
            assert(grid.x_lines[c] < grid.x_lines[c + 1]);
            lemma_axis_range_holds(
                grid.y_lines@,
                node.top() as i32,
                node.bottom() as i32,
                grid.row(a),
            );
            if node.left() <= pf.x {
                lemma_covered_point_blocked(grid, nodes, n, first.0 as int);
            } else if node.right() >= ps.x {
                lemma_covered_point_blocked(grid, nodes, n, second.0 as int);
            } else {
                lemma_axis_range_between(
                    grid.x_lines@,
                    node.left() as i32,
                    node.right() as i32,
                    c,
                );
                assert(node_blocks_point(
                    grid,
                    node,
                    (first.0 as int) % w,
                    (first.0 as int) / w,
                ));
                assert(point_blocked(grid, nodes, nodes.len() as int, first.0 as int));
            }
        } else {
            let r = grid.row(first);
            assert(grid.row(second) == r + 1);
            assert(grid.y_lines[r] < grid.y_lines[r + 1]);
            lemma_axis_range_holds(
                grid.x_lines@,
                node.left() as i32,
                node.right() as i32,
                grid.col(a),
            );
            if node.top() <= pf.y {
                lemma_covered_point_blocked(grid, nodes, n, first.0 as int);
            } else if node.bottom() >= ps.y {
                lemma_covered_point_blocked(grid, nodes, n, second.0 as int);
            } else {
                lemma_axis_range_between(
                    grid.y_lines@,
                    node.top() as i32,
                    node.bottom() as i32,
                    r,
                );
                assert(node_blocks_point(
                    grid,
                    node,
                    (first.0 as int) % w,
                    (first.0 as int) / w,
                ));
                assert(point_blocked(grid, nodes, nodes.len() as int, first.0 as int));
            }
        }
    }
}

/// Between two neighbouring grid points that are both usable and both not
/// among the points to be kept, no point of the straight line lies on or
/// inside a node.
pub proof fn lemma_line_avoids_nodes(
    grid: Grid,
    point_mask: Seq<bool>,
    segment_mask: Seq<bool>,
    nodes: Seq<PlacedRectangularNode>,
    unremovable: Seq<GridPoint>,
    n: int,
    a: GridPoint,
    b: GridPoint,
    q: Point,
)
    requires
        grid.well_formed(),
        nodes_well_formed(nodes),
        masks_match(grid, point_mask, segment_mask, nodes, nodes.len() as int, unremovable),
        0 <= n < nodes.len(),
        a.0 < grid.size,
        b.0 < grid.size,
        grid_neighbors(grid, a, b),
        point_mask[a.0 as int],
        point_mask[b.0 as int],
        !point_kept(unremovable, a.0 as int),
        !point_kept(unremovable, b.0 as int),
        on_line(grid.point_of(a), grid.point_of(b), q),
    ensures
        !nodes[n].covers(q.x as int, q.y as int),
{
    lemma_line_clear(grid, nodes, n, a, b, q);
}

} // verus!
