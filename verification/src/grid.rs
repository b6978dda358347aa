//! The non-uniform routing grid: its lines, and the mappings between grid
//! coordinates, packed grid points, points of the plane and grid segments.

use vstd::prelude::*;
use crate::geometry::{PlacedRectangularNode, Point, COORD_LIMIT};
use crate::lines::{
    all_within, build_lines_from_coords, ensure_min_max, expand_lines, insert_sorted,
    lemma_sorted_unique, search_line, strictly_increasing, with_bounds,
};
use crate::raw_area::{
    horizontal_segment, lemma_horizontal_segment_index, lemma_index_point, lemma_point_index,
    lemma_segment_count_bound, lemma_vertical_segment_index, segment_count, vertical_segment,
    RawArea, RawPoint, MAX_RAW_POINTS,
};

verus! {

/// Free space kept between the outermost node or endpoint and the border of
/// the grid.
pub const PADDING: i32 = 3;

/// Packed index of a grid point, row by row.
#[derive(Clone, Copy, Debug, PartialEq, Eq, Hash, Structural)]
pub struct GridPoint(pub u32);

/// Packed index of a grid segment, the horizontal ones first.
#[derive(Clone, Copy, Debug, PartialEq, Eq, Hash, Structural)]
pub struct GridSegment(pub u32);

/// Some edge starts or ends at the abscissa `v`.
pub open spec fn is_endpoint_x(edges: Seq<(Point, Point)>, v: i32) -> bool {
    exists|i: int| 0 <= i < edges.len() && ((#[trigger] edges[i]).0.x == v || edges[i].1.x == v)
}

/// Some edge starts or ends at the ordinate `v`.
pub open spec fn is_endpoint_y(edges: Seq<(Point, Point)>, v: i32) -> bool {
    exists|i: int| 0 <= i < edges.len() && ((#[trigger] edges[i]).0.y == v || edges[i].1.y == v)
}

/// The abscissas of all endpoints, each once, in increasing order.
pub open spec fn sorted_xs(edges: Seq<(Point, Point)>) -> Seq<i32> {
    choose|s: Seq<i32>|
        strictly_increasing(s) && forall|v: i32| s.contains(v) <==> is_endpoint_x(edges, v)
}

/// The ordinates of all endpoints, each once, in increasing order.
pub open spec fn sorted_ys(edges: Seq<(Point, Point)>) -> Seq<i32> {
    choose|s: Seq<i32>|
        strictly_increasing(s) && forall|v: i32| s.contains(v) <==> is_endpoint_y(edges, v)
}

/// Every endpoint lies within the accepted coordinate range.
pub open spec fn endpoints_in_range(edges: Seq<(Point, Point)>) -> bool {
    forall|i: int|
        0 <= i < edges.len() ==> (#[trigger] edges[i]).0.in_range() && edges[i].1.in_range()
}

/// Every node is well formed.
pub open spec fn nodes_well_formed(nodes: Seq<PlacedRectangularNode>) -> bool {
    forall|i: int| 0 <= i < nodes.len() ==> (#[trigger] nodes[i]).well_formed()
}

/// Smallest left side of the nodes; `i32::MAX` without nodes.
pub open spec fn nodes_left(nodes: Seq<PlacedRectangularNode>) -> int
    decreases nodes.len(),
{
    if nodes.len() == 0 {
        i32::MAX as int
    } else {
        let rest = nodes_left(nodes.drop_last());
        if nodes.last().left() < rest {
            nodes.last().left()
        } else {
            rest
        }
    }
}

/// Smallest top side of the nodes; `i32::MAX` without nodes.
pub open spec fn nodes_top(nodes: Seq<PlacedRectangularNode>) -> int
    decreases nodes.len(),
{
    if nodes.len() == 0 {
        i32::MAX as int
    } else {
        let rest = nodes_top(nodes.drop_last());
        if nodes.last().top() < rest {
            nodes.last().top()
        } else {
            rest
        }
    }
}

/// Largest right side of the nodes; `i32::MIN` without nodes.
pub open spec fn nodes_right(nodes: Seq<PlacedRectangularNode>) -> int
    decreases nodes.len(),
{
    if nodes.len() == 0 {
        i32::MIN as int
    } else {
        let rest = nodes_right(nodes.drop_last());
        if nodes.last().right() > rest {
            nodes.last().right()
        } else {
            rest
        }
    }
}

/// Largest bottom side of the nodes; `i32::MIN` without nodes.
pub open spec fn nodes_bottom(nodes: Seq<PlacedRectangularNode>) -> int
    decreases nodes.len(),
{
    if nodes.len() == 0 {
        i32::MIN as int
    } else {
        let rest = nodes_bottom(nodes.drop_last());
        if nodes.last().bottom() > rest {
            nodes.last().bottom()
        } else {
            rest
        }
    }
}

pub open spec fn lower(a: int, b: int) -> int {
    if a < b {
        a
    } else {
        b
    }
}

pub open spec fn upper(a: int, b: int) -> int {
    if a > b {
        a
    } else {
        b
    }
}

/// The rectangle that the grid of a batch spans: all nodes and all endpoints
/// with the padding around them.
pub open spec fn batch_area(edges: Seq<(Point, Point)>, nodes: Seq<PlacedRectangularNode>) -> RawArea {
    RawArea {
        top_left: Point {
            x: lower(nodes_left(nodes) - PADDING, sorted_xs(edges)[0] - PADDING) as i32,
            y: lower(nodes_top(nodes) - PADDING, sorted_ys(edges)[0] - PADDING) as i32,
        },
        bottom_right: Point {
            x: upper(nodes_right(nodes) + PADDING, sorted_xs(edges).last() + PADDING) as i32,
            y: upper(nodes_bottom(nodes) + PADDING, sorted_ys(edges).last() + PADDING) as i32,
        },
    }
}

/// In strictly increasing lines, two lines are at least as far apart as
/// their indices.
pub proof fn lemma_increasing_gap(s: Seq<i32>, i: int, j: int)
    requires
        strictly_increasing(s),
        0 <= i <= j < s.len(),
    ensures
        s[j] - s[i] >= j - i,
    decreases j - i,
{
    if i < j {
        lemma_increasing_gap(s, i, j - 1);
        assert(s[j - 1] < s[j]);
    }
}

/// A non-uniform rectangular grid given by its vertical and horizontal
/// lines.
#[derive(Clone, Debug)]
pub struct Grid {
    pub min_x: i32,
    pub min_y: i32,
    pub max_x: i32,
    pub max_y: i32,
    pub width: usize,
    pub height: usize,
    pub size: usize,
    pub num_segments: usize,
    pub x_lines: Vec<i32>,
    pub y_lines: Vec<i32>,
}

impl Grid {
    /// The rectangle of the plane between the outermost lines.
    pub open spec fn spec_raw_area(&self) -> RawArea {
        RawArea {
            top_left: Point { x: self.min_x, y: self.min_y },
            bottom_right: Point { x: self.max_x, y: self.max_y },
        }
    }

    /// The lines are strictly increasing, the derived fields agree with
    /// them, and the rectangle they span is a well-formed raw area.
    pub open spec fn well_formed(&self) -> bool {
        &&& self.width == self.x_lines.len()
        &&& self.height == self.y_lines.len()
        &&& self.width >= 1
        &&& self.height >= 1
        &&& strictly_increasing(self.x_lines@)
        &&& strictly_increasing(self.y_lines@)
        &&& self.min_x == self.x_lines[0]
        &&& self.min_y == self.y_lines[0]
        &&& self.max_x == self.x_lines[self.width - 1]
        &&& self.max_y == self.y_lines[self.height - 1]
        &&& self.size == self.width * self.height
        &&& self.num_segments == segment_count(self.width as int, self.height as int)
        &&& self.spec_raw_area().well_formed()
    }

    /// Column of a packed grid point.
    pub open spec fn col(&self, p: GridPoint) -> int {
        p.0 as int % self.width as int
    }

    /// Row of a packed grid point.
    pub open spec fn row(&self, p: GridPoint) -> int {
        p.0 as int / self.width as int
    }

    /// The point of the plane at which a grid point lies.
    pub open spec fn point_of(&self, p: GridPoint) -> Point {
        Point { x: self.x_lines[self.col(p)], y: self.y_lines[self.row(p)] }
    }

    /// The point lies on a crossing of two grid lines.
    pub open spec fn on_grid(&self, p: Point) -> bool {
        self.x_lines@.contains(p.x) && self.y_lines@.contains(p.y)
    }

    /// The grid point at a point that lies on the grid.
    pub open spec fn grid_point_at(&self, p: Point) -> GridPoint {
        GridPoint(
            (crate::lines::count_below(self.y_lines@, p.y as int) * self.width
                + crate::lines::count_below(self.x_lines@, p.x as int)) as u32,
        )
    }

    /// Index of the grid segment between two grid coordinates that are
    /// neighbours along a row or a column.
    pub open spec fn segment_of(&self, a: (usize, usize), b: (usize, usize)) -> int {
        if a.0 == b.0 {
            vertical_segment(
                self.width as int,
                self.height as int,
                a.0 as int,
                if a.1 < b.1 {
                    a.1 as int
                } else {
                    b.1 as int
                },
            )
        } else {
            horizontal_segment(
                self.width as int,
                if a.0 < b.0 {
                    a.0 as int
                } else {
                    b.0 as int
                },
                a.1 as int,
            )
        }
    }

    /// Two grid coordinates lie one step apart along a row or a column.
    pub open spec fn adjacent(a: (usize, usize), b: (usize, usize)) -> bool {
        (a.0 == b.0 && (a.1 + 1 == b.1 || b.1 + 1 == a.1)) || (a.1 == b.1 && (a.0 + 1 == b.0 || b.0
            + 1 == a.0))
    }

    pub proof fn lemma_dimensions(&self)
        requires
            self.well_formed(),
        ensures
            self.width <= self.spec_raw_area().spec_width(),
            self.height <= self.spec_raw_area().spec_height(),
            self.size <= self.spec_raw_area().spec_size() <= MAX_RAW_POINTS,
            1 <= self.width <= self.size,
            1 <= self.height <= self.size,
            self.num_segments < 2 * self.size,
            forall|i: int|
                0 <= i < self.width ==> self.min_x <= #[trigger] self.x_lines[i] <= self.max_x,
            forall|i: int|
                0 <= i < self.height ==> self.min_y <= #[trigger] self.y_lines[i] <= self.max_y,
    {
        let w = self.width as int;
        let h = self.height as int;
        lemma_increasing_gap(self.x_lines@, 0, w - 1);
        lemma_increasing_gap(self.y_lines@, 0, h - 1);
        let rw = self.spec_raw_area().spec_width();
        let rh = self.spec_raw_area().spec_height();
        assert(w * h <= rw * rh) by (nonlinear_arith)
            requires
                1 <= w <= rw,
                1 <= h <= rh,
        ;
        lemma_segment_count_bound(w, h);
        assert forall|i: int| 0 <= i < self.width implies self.min_x <= #[trigger] self.x_lines[i]
            <= self.max_x by {
            lemma_increasing_gap(self.x_lines@, 0, i);
            lemma_increasing_gap(self.x_lines@, i, w - 1);
        }
        assert forall|i: int| 0 <= i < self.height implies self.min_y <= #[trigger] self.y_lines[i]
            <= self.max_y by {
            lemma_increasing_gap(self.y_lines@, 0, i);
            lemma_increasing_gap(self.y_lines@, i, h - 1);
        }
    }

    /// A valid grid point has a column and a row inside the grid, and lies
    /// inside the raw area.
    pub proof fn lemma_point(&self, p: GridPoint)
        requires
            self.well_formed(),
            p.0 < self.size,
        ensures
            0 <= self.col(p) < self.width,
            0 <= self.row(p) < self.height,
            p.0 == self.row(p) * self.width + self.col(p),
            self.spec_raw_area().contains(self.point_of(p)),
            self.on_grid(self.point_of(p)),
    {
        self.lemma_dimensions();
        lemma_index_point(self.width as int, self.height as int, p.0 as int);
        assert(self.x_lines@[self.col(p)] == self.point_of(p).x);
        assert(self.y_lines@[self.row(p)] == self.point_of(p).y);
    }

    /// The grid point at a point that lies on the grid is a grid point of
    /// the grid, and lies at that point.
    pub proof fn lemma_grid_point_at(&self, p: Point)
        requires
            self.well_formed(),
            self.on_grid(p),
        ensures
            self.grid_point_at(p).0 < self.size,
            self.point_of(self.grid_point_at(p)) == p,
    {
        self.lemma_dimensions();
        crate::lines::lemma_count_below_splits(self.x_lines@, p.x as int);
        crate::lines::lemma_count_below_splits(self.y_lines@, p.y as int);
        let col = crate::lines::count_below(self.x_lines@, p.x as int);
        let row = crate::lines::count_below(self.y_lines@, p.y as int);
        let i = choose|i: int| 0 <= i < self.x_lines@.len() && self.x_lines@[i] == p.x;
        let j = choose|j: int| 0 <= j < self.y_lines@.len() && self.y_lines@[j] == p.y;
        if i < col {
            assert(self.x_lines@[i] < p.x);
        }
        if i > col {
            assert(self.x_lines@[col] >= p.x);
            assert(self.x_lines@[col] < self.x_lines@[i]);
        }
        if j < row {
            assert(self.y_lines@[j] < p.y);
        }
        if j > row {
            assert(self.y_lines@[row] >= p.y);
            assert(self.y_lines@[row] < self.y_lines@[j]);
        }
        lemma_point_index(self.width as int, self.height as int, col, row);
    }

    /// A grid of the given lines.
    pub fn new(width: usize, height: usize, x_lines: Vec<i32>, y_lines: Vec<i32>) -> (g: Grid)
        requires
            width == x_lines.len(),
            height == y_lines.len(),
            width >= 1,
            height >= 1,
            width * height <= MAX_RAW_POINTS,
        ensures
            g.x_lines == x_lines,
            g.y_lines == y_lines,
            g.width == width,
            g.height == height,
            g.size == width * height,
            g.num_segments == segment_count(width as int, height as int),
            g.min_x == x_lines[0],
            g.min_y == y_lines[0],
            g.max_x == x_lines[width - 1],
            g.max_y == y_lines[height - 1],
    {
        proof {
            lemma_segment_count_bound(width as int, height as int);
            assert((width - 1) * height <= width * height && (height - 1) * width <= width * height)
                by (nonlinear_arith)
                requires
                    1 <= width,
                    1 <= height,
            ;
        }
        Grid {
            min_x: x_lines[0],
            min_y: y_lines[0],
            max_x: x_lines[width - 1],
            max_y: y_lines[height - 1],
            width,
            height,
            size: width * height,
            num_segments: (width - 1) * height + (height - 1) * width,
            x_lines,
            y_lines,
        }
    }

    /// The rectangle of the plane that the grid spans.
    pub fn raw_area(&self) -> (a: RawArea)
        requires
            self.well_formed(),
        ensures
            a == self.spec_raw_area(),
            a.well_formed(),
    {
        RawArea {
            top_left: Point { x: self.x_lines[0], y: self.y_lines[0] },
            bottom_right: Point {
                x: self.x_lines[self.width - 1],
                y: self.y_lines[self.height - 1],
            },
        }
    }

    pub fn is_valid_point(&self, point: GridPoint) -> (b: bool)
        ensures
            b == (point.0 < self.size),
    {
        (point.0 as u64) < (self.size as u64)
    }

    pub fn is_valid_segment(&self, segment: GridSegment) -> (b: bool)
        ensures
            b == (segment.0 < self.num_segments),
    {
        (segment.0 as u64) < (self.num_segments as u64)
    }

    /// The index of the grid segment between two neighbouring grid
    /// coordinates.
    pub fn grid_coords_to_segment_index(&self, grid_a: (usize, usize), grid_b: (usize, usize)) -> (r:
        usize)
        requires
            self.well_formed(),
            grid_a.0 < self.width,
            grid_a.1 < self.height,
            grid_b.0 < self.width,
            grid_b.1 < self.height,
            Self::adjacent(grid_a, grid_b),
        ensures
            r == self.segment_of(grid_a, grid_b),
            r < self.num_segments,
    {
        proof {
            self.lemma_dimensions();
        }
        let w = self.width;
        let h = self.height;
        if grid_a.0 == grid_b.0 {
            let min_y = if grid_a.1 < grid_b.1 {
                grid_a.1
            } else {
                grid_b.1
            };
            let x = grid_a.0;
            proof {
                lemma_vertical_segment_index(w as int, h as int, x as int, min_y as int);
            }
            (w - 1) * h + x * (h - 1) + min_y
        } else {
            let y = grid_a.1;
            let min_x = if grid_a.0 < grid_b.0 {
                grid_a.0
            } else {
                grid_b.0
            };
            proof {
                lemma_horizontal_segment_index(w as int, h as int, min_x as int, y as int);
            }
            y * (w - 1) + min_x
        }
    }

    /// Column and row of a grid point, or `None` for an index outside the
    /// grid.
    pub fn grid_point_to_grid_coords(&self, point: GridPoint) -> (r: Option<(usize, usize)>)
        requires
            self.well_formed(),
        ensures
            r is Some <==> point.0 < self.size,
            r is Some ==> r.unwrap().0 == self.col(point) && r.unwrap().1 == self.row(point)
                && r.unwrap().0 < self.width && r.unwrap().1 < self.height,
    {
        if !self.is_valid_point(point) {
            return None;
        }
        proof {
            self.lemma_point(point);
        }
        let grid_x = point.0 as usize % self.width;
        let grid_y = point.0 as usize / self.width;
        Some((grid_x, grid_y))
    }

    /// The packed grid point of a column and a row, or `None` outside the
    /// grid.
    pub fn grid_coords_to_grid_point(&self, grid_x: usize, grid_y: usize) -> (r: Option<GridPoint>)
        requires
            self.well_formed(),
        ensures
            r is Some <==> grid_x < self.width && grid_y < self.height,
            r is Some ==> r.unwrap().0 == grid_y * self.width + grid_x && r.unwrap().0 < self.size
                && self.col(r.unwrap()) == grid_x && self.row(r.unwrap()) == grid_y,
    {
        if grid_x >= self.width || grid_y >= self.height {
            return None;
        }
        proof {
            self.lemma_dimensions();
            lemma_point_index(self.width as int, self.height as int, grid_x as int, grid_y as int);
        }
        Some(GridPoint((grid_y * self.width + grid_x) as u32))
    }

    /// The coordinates in the plane of a grid point, or `None` for an index
    /// outside the grid.
    pub fn grid_point_to_raw_coords(&self, point: GridPoint) -> (r: Option<(i32, i32)>)
        requires
            self.well_formed(),
        ensures
            r is Some <==> point.0 < self.size,
            r is Some ==> r.unwrap().0 == self.point_of(point).x && r.unwrap().1 == self.point_of(
                point,
            ).y,
    {
        match self.grid_point_to_grid_coords(point) {
            None => None,
            Some((grid_x, grid_y)) => Some((self.x_lines[grid_x], self.y_lines[grid_y])),
        }
    }

    /// The point of the plane of a grid point, or `None` for an index
    /// outside the grid.
    pub fn grid_point_to_point(&self, point: GridPoint) -> (r: Option<Point>)
        requires
            self.well_formed(),
        ensures
            r is Some <==> point.0 < self.size,
            r is Some ==> r.unwrap() == self.point_of(point),
    {
        match self.grid_point_to_grid_coords(point) {
            None => None,
            Some((grid_x, grid_y)) => Some(
                Point { x: self.x_lines[grid_x], y: self.y_lines[grid_y] },
            ),
        }
    }

    /// The packed raw index of a grid point, or `None` for an index outside
    /// the grid.
    pub fn grid_point_to_raw_point(&self, point: GridPoint) -> (r: Option<RawPoint>)
        requires
            self.well_formed(),
        ensures
            r is Some <==> point.0 < self.size,
            r is Some ==> r.unwrap().0 == self.spec_raw_area().index_of(self.point_of(point))
                && r.unwrap().0 < self.spec_raw_area().spec_size(),
    {
        match self.grid_point_to_point(point) {
            None => None,
            Some(p) => {
                proof {
                    self.lemma_point(point);
                }
                self.raw_area().point_to_raw_point(&p)
            },
        }
    }

    /// The grid point at a point of the plane, or `None` where the point
    /// does not lie on a crossing of two grid lines.
    pub fn point_to_grid_point(&self, point: &Point) -> (r: Option<GridPoint>)
        requires
            self.well_formed(),
        ensures
            r is Some <==> self.on_grid(*point),
            r is Some ==> r.unwrap().0 < self.size && self.point_of(r.unwrap()) == *point
                && r.unwrap() == self.grid_point_at(*point),
    {
        let grid_x = match search_line(&self.x_lines, point.x) {
            Ok(i) => i,
            Err(_) => {
                return None;
            },
        };
        let grid_y = match search_line(&self.y_lines, point.y) {
            Ok(i) => i,
            Err(_) => {
                return None;
            },
        };
        self.grid_coords_to_grid_point(grid_x, grid_y)
    }
}

impl Grid {
    /// Number of horizontal grid segments; they come first in the numbering.
    pub open spec fn horizontal_count(&self) -> int {
        (self.width - 1) * self.height
    }

    pub open spec fn segment_is_horizontal(&self, s: int) -> bool {
        s < self.horizontal_count()
    }

    /// Column of the left or upper end of a grid segment.
    pub open spec fn segment_col(&self, s: int) -> int {
        if self.segment_is_horizontal(s) {
            s % (self.width - 1)
        } else {
            (s - self.horizontal_count()) / (self.height - 1)
        }
    }

    /// Row of the left or upper end of a grid segment.
    pub open spec fn segment_row(&self, s: int) -> int {
        if self.segment_is_horizontal(s) {
            s / (self.width - 1)
        } else {
            (s - self.horizontal_count()) % (self.height - 1)
        }
    }

    /// Packed grid point of the left or upper end of a grid segment.
    pub open spec fn segment_from(&self, s: int) -> int {
        self.segment_row(s) * self.width + self.segment_col(s)
    }

    /// Packed grid point of the right or lower end of a grid segment.
    pub open spec fn segment_to(&self, s: int) -> int {
        if self.segment_is_horizontal(s) {
            self.segment_from(s) + 1
        } else {
            self.segment_from(s) + self.width
        }
    }

    pub proof fn lemma_horizontal(&self, gx: int, gy: int)
        requires
            self.well_formed(),
            0 <= gx < self.width - 1,
            0 <= gy < self.height,
        ensures
            0 <= horizontal_segment(self.width as int, gx, gy) < self.num_segments,
            self.segment_is_horizontal(horizontal_segment(self.width as int, gx, gy)),
            self.segment_col(horizontal_segment(self.width as int, gx, gy)) == gx,
            self.segment_row(horizontal_segment(self.width as int, gx, gy)) == gy,
    {
        lemma_horizontal_segment_index(self.width as int, self.height as int, gx, gy);
        lemma_point_index(self.width - 1, self.height as int, gx, gy);
    }

    pub proof fn lemma_vertical(&self, gx: int, gy: int)
        requires
            self.well_formed(),
            0 <= gx < self.width,
            0 <= gy < self.height - 1,
        ensures
            0 <= vertical_segment(self.width as int, self.height as int, gx, gy)
                < self.num_segments,
            !self.segment_is_horizontal(
                vertical_segment(self.width as int, self.height as int, gx, gy),
            ),
            self.segment_col(vertical_segment(self.width as int, self.height as int, gx, gy)) == gx,
            self.segment_row(vertical_segment(self.width as int, self.height as int, gx, gy)) == gy,
    {
        lemma_vertical_segment_index(self.width as int, self.height as int, gx, gy);
        lemma_point_index(self.height - 1, self.width as int, gy, gx);
    }

    /// Every segment index is that of one horizontal or one vertical grid
    /// segment, and both its ends are grid points.
    pub proof fn lemma_segment(&self, s: int)
        requires
            self.well_formed(),
            0 <= s < self.num_segments,
        ensures
            0 <= self.segment_from(s) < self.size,
            0 <= self.segment_to(s) < self.size,
            self.segment_is_horizontal(s) ==> 0 <= self.segment_col(s) < self.width - 1 && 0
                <= self.segment_row(s) < self.height && s == horizontal_segment(
                self.width as int,
                self.segment_col(s),
                self.segment_row(s),
            ),
            !self.segment_is_horizontal(s) ==> 0 <= self.segment_col(s) < self.width && 0
                <= self.segment_row(s) < self.height - 1 && s == vertical_segment(
                self.width as int,
                self.height as int,
                self.segment_col(s),
                self.segment_row(s),
            ),
    {
        let w = self.width as int;
        let h = self.height as int;
        if self.segment_is_horizontal(s) {
            assert(w - 1 > 0) by (nonlinear_arith)
                requires
                    0 <= s < (w - 1) * h,
                    h >= 1,
                    w >= 1,
            ;
            lemma_index_point(w - 1, h, s);
            lemma_point_index(w, h, self.segment_col(s), self.segment_row(s));
            lemma_point_index(w, h, self.segment_col(s) + 1, self.segment_row(s));
        } else {
            let t = s - self.horizontal_count();
            assert((h - 1) * w == w * (h - 1)) by (nonlinear_arith);
            assert(h - 1 > 0) by (nonlinear_arith)
                requires
                    0 <= t < w * (h - 1),
                    h >= 1,
                    w >= 1,
            ;
            lemma_index_point(h - 1, w, t);
            lemma_point_index(w, h, self.segment_col(s), self.segment_row(s));
            lemma_point_index(w, h, self.segment_col(s), self.segment_row(s) + 1);
            assert((self.segment_row(s) + 1) * w == self.segment_row(s) * w + w)
                by (nonlinear_arith);
        }
    }
}

/// Adding an edge adds its two abscissas to those of the endpoints.
proof fn lemma_endpoint_x_step(edges: Seq<(Point, Point)>, i: int, v: i32)
    requires
        0 <= i < edges.len(),
    ensures
        is_endpoint_x(edges.subrange(0, i + 1), v) <==> (is_endpoint_x(edges.subrange(0, i), v)
            || v == edges[i].0.x || v == edges[i].1.x),
{
    let a = edges.subrange(0, i);
    let b = edges.subrange(0, i + 1);
    if is_endpoint_x(b, v) {
        let k = choose|k: int| 0 <= k < b.len() && ((#[trigger] b[k]).0.x == v || b[k].1.x == v);
        if k < i {
            assert(a[k] == b[k]);
        }
    }
    if is_endpoint_x(a, v) {
        let k = choose|k: int| 0 <= k < a.len() && ((#[trigger] a[k]).0.x == v || a[k].1.x == v);
        assert(b[k] == a[k]);
    }
    if v == edges[i].0.x || v == edges[i].1.x {
        assert(b[i] == edges[i]);
    }
}

/// Adding an edge adds its two ordinates to those of the endpoints.
proof fn lemma_endpoint_y_step(edges: Seq<(Point, Point)>, i: int, v: i32)
    requires
        0 <= i < edges.len(),
    ensures
        is_endpoint_y(edges.subrange(0, i + 1), v) <==> (is_endpoint_y(edges.subrange(0, i), v)
            || v == edges[i].0.y || v == edges[i].1.y),
{
    let a = edges.subrange(0, i);
    let b = edges.subrange(0, i + 1);
    if is_endpoint_y(b, v) {
        let k = choose|k: int| 0 <= k < b.len() && ((#[trigger] b[k]).0.y == v || b[k].1.y == v);
        if k < i {
            assert(a[k] == b[k]);
        }
    }
    if is_endpoint_y(a, v) {
        let k = choose|k: int| 0 <= k < a.len() && ((#[trigger] a[k]).0.y == v || a[k].1.y == v);
        assert(b[k] == a[k]);
    }
    if v == edges[i].0.y || v == edges[i].1.y {
        assert(b[i] == edges[i]);
    }
}

/// Sorted insertion keeps the lines within a limit that the new value
/// respects.
proof fn lemma_insert_within(before: Seq<i32>, after: Seq<i32>, value: i32, limit: int)
    requires
        all_within(before, limit),
        -limit <= value <= limit,
        forall|v: i32| after.contains(v) <==> (before.contains(v) || v == value),
    ensures
        all_within(after, limit),
{
    assert forall|i: int| 0 <= i < after.len() implies -limit <= #[trigger] after[i] <= limit by {
        assert(after.contains(after[i]));
        if before.contains(after[i]) {
            let k = choose|k: int| 0 <= k < before.len() && before[k] == after[i];
            assert(-limit <= before[k] <= limit);
        }
    }
}

/// The abscissas and the ordinates of all endpoints, each once and in
/// increasing order.
pub fn collect_coords(edges: &Vec<(Point, Point)>) -> (r: (Vec<i32>, Vec<i32>))
    requires
        endpoints_in_range(edges@),
    ensures
        r.0@ == sorted_xs(edges@),
        r.1@ == sorted_ys(edges@),
        strictly_increasing(r.0@),
        strictly_increasing(r.1@),
        forall|v: i32| r.0@.contains(v) <==> is_endpoint_x(edges@, v),
        forall|v: i32| r.1@.contains(v) <==> is_endpoint_y(edges@, v),
        all_within(r.0@, COORD_LIMIT as int),
        all_within(r.1@, COORD_LIMIT as int),
        edges.len() > 0 ==> r.0.len() > 0 && r.1.len() > 0,
{
    let mut xs: Vec<i32> = Vec::new();
    let mut ys: Vec<i32> = Vec::new();
    let mut i: usize = 0;
    while i < edges.len()
        invariant
            endpoints_in_range(edges@),
            i <= edges.len(),
            strictly_increasing(xs@),
            strictly_increasing(ys@),
            forall|v: i32| xs@.contains(v) <==> is_endpoint_x(edges@.subrange(0, i as int), v),
            forall|v: i32| ys@.contains(v) <==> is_endpoint_y(edges@.subrange(0, i as int), v),
            all_within(xs@, COORD_LIMIT as int),
            all_within(ys@, COORD_LIMIT as int),
            i > 0 ==> xs.len() > 0 && ys.len() > 0,
        decreases edges.len() - i,
    {
        let start = edges[i].0;
        let end = edges[i].1;
        let ghost xs0 = xs@;
        let ghost ys0 = ys@;
        assert(edges@[i as int].0.in_range() && edges@[i as int].1.in_range());
        insert_sorted(&mut xs, start.x);
        let ghost xs1 = xs@;
        insert_sorted(&mut xs, end.x);
        insert_sorted(&mut ys, start.y);
        let ghost ys1 = ys@;
        insert_sorted(&mut ys, end.y);
        proof {
            lemma_insert_within(xs0, xs1, start.x, COORD_LIMIT as int);
            lemma_insert_within(xs1, xs@, end.x, COORD_LIMIT as int);
            lemma_insert_within(ys0, ys1, start.y, COORD_LIMIT as int);
            lemma_insert_within(ys1, ys@, end.y, COORD_LIMIT as int);
            assert forall|v: i32| xs@.contains(v) <==> is_endpoint_x(
                edges@.subrange(0, i as int + 1),
                v,
            ) by {
                lemma_endpoint_x_step(edges@, i as int, v);
            }
            assert forall|v: i32| ys@.contains(v) <==> is_endpoint_y(
                edges@.subrange(0, i as int + 1),
                v,
            ) by {
                lemma_endpoint_y_step(edges@, i as int, v);
            }
            assert(xs@.contains(end.x));
            assert(ys@.contains(end.y));
        }
        i += 1;
    }
    proof {
        assert(edges@.subrange(0, edges.len() as int) =~= edges@);
        let cx = sorted_xs(edges@);
        let cy = sorted_ys(edges@);
        assert(strictly_increasing(cx) && forall|v: i32| cx.contains(v) <==> is_endpoint_x(edges@, v));
        assert(strictly_increasing(cy) && forall|v: i32| cy.contains(v) <==> is_endpoint_y(edges@, v));
        lemma_sorted_unique(xs@, cx);
        lemma_sorted_unique(ys@, cy);
    }
    (xs, ys)
}

/// The bounding box of all nodes: left, top, right and bottom side. Without
/// nodes the box is empty, with `i32::MAX` as its left and top side and
/// `i32::MIN` as its right and bottom side.
pub fn nodes_bounds(nodes: &Vec<PlacedRectangularNode>) -> (r: (i32, i32, i32, i32))
    requires
        nodes_well_formed(nodes@),
    ensures
        r.0 == nodes_left(nodes@),
        r.1 == nodes_top(nodes@),
        r.2 == nodes_right(nodes@),
        r.3 == nodes_bottom(nodes@),
        -2 * COORD_LIMIT <= r.0,
        -2 * COORD_LIMIT <= r.1,
        r.2 <= 2 * COORD_LIMIT,
        r.3 <= 2 * COORD_LIMIT,
        forall|i: int|
            0 <= i < nodes.len() ==> r.0 <= (#[trigger] nodes[i]).left() && r.1 <= nodes[i].top()
                && nodes[i].right() <= r.2 && nodes[i].bottom() <= r.3,
{
    let mut left: i32 = i32::MAX;
    let mut top: i32 = i32::MAX;
    let mut right: i32 = i32::MIN;
    let mut bottom: i32 = i32::MIN;
    let mut i: usize = 0;
    while i < nodes.len()
        invariant
            nodes_well_formed(nodes@),
            i <= nodes.len(),
            left == nodes_left(nodes@.subrange(0, i as int)),
            top == nodes_top(nodes@.subrange(0, i as int)),
            right == nodes_right(nodes@.subrange(0, i as int)),
            bottom == nodes_bottom(nodes@.subrange(0, i as int)),
            -2 * COORD_LIMIT <= left,
            -2 * COORD_LIMIT <= top,
            right <= 2 * COORD_LIMIT,
            bottom <= 2 * COORD_LIMIT,
            forall|k: int|
                0 <= k < i ==> left <= (#[trigger] nodes[k]).left() && top <= nodes[k].top()
                    && nodes[k].right() <= right && nodes[k].bottom() <= bottom,
        decreases nodes.len() - i,
    {
        proof {
            assert(nodes@.subrange(0, i as int + 1).drop_last() =~= nodes@.subrange(0, i as int));
            assert(nodes@.subrange(0, i as int + 1).last() == nodes@[i as int]);
            assert(nodes@[i as int].well_formed());
        }
        let tl = nodes[i].top_left();
        let br = nodes[i].bottom_right();
        if tl.x < left {
            left = tl.x;
        }
        if tl.y < top {
            top = tl.y;
        }
        if br.x > right {
            right = br.x;
        }
        if br.y > bottom {
            bottom = br.y;
        }
        i += 1;
    }
    proof {
        assert(nodes@.subrange(0, nodes.len() as int) =~= nodes@);
    }
    (left, top, right, bottom)
}

impl Grid {
    /// `self` is the grid of a batch: its lines are those that the endpoint
    /// coordinates give, with the borders of the batch's area added; every
    /// endpoint lies on it, and every node lies at least the padding inside.
    pub open spec fn built_from(
        &self,
        edges: Seq<(Point, Point)>,
        nodes: Seq<PlacedRectangularNode>,
    ) -> bool {
        let area = batch_area(edges, nodes);
        &&& self.well_formed()
        &&& self.spec_raw_area() == area
        &&& self.x_lines@ == with_bounds(
            expand_lines(sorted_xs(edges)),
            area.top_left.x,
            area.bottom_right.x,
        )
        &&& self.y_lines@ == with_bounds(
            expand_lines(sorted_ys(edges)),
            area.top_left.y,
            area.bottom_right.y,
        )
        &&& forall|i: int|
            0 <= i < edges.len() ==> self.on_grid((#[trigger] edges[i]).0) && self.on_grid(
                edges[i].1,
            )
        &&& forall|i: int|
            0 <= i < edges.len() ==> self.min_x + PADDING <= (#[trigger] edges[i]).0.x <= self.max_x
                - PADDING && self.min_x + PADDING <= edges[i].1.x <= self.max_x - PADDING
                && self.min_y + PADDING <= edges[i].0.y <= self.max_y - PADDING && self.min_y
                + PADDING <= edges[i].1.y <= self.max_y - PADDING
        &&& forall|i: int|
            0 <= i < nodes.len() ==> self.min_x + PADDING <= (#[trigger] nodes[i]).left()
                && nodes[i].right() <= self.max_x - PADDING && self.min_y + PADDING
                <= nodes[i].top() && nodes[i].bottom() <= self.max_y - PADDING
    }

    /// The grid of a batch of edges and the placed nodes, or `None` where
    /// the area that it would span is no well-formed raw area.
    pub fn try_from_edges_and_nodes(
        edges: &Vec<(Point, Point)>,
        nodes: &Vec<PlacedRectangularNode>,
    ) -> (r: Option<Grid>)
        requires
            edges.len() > 0,
            endpoints_in_range(edges@),
            nodes_well_formed(nodes@),
        ensures
            r is Some <==> batch_area(edges@, nodes@).well_formed(),
            r is Some ==> r.unwrap().built_from(edges@, nodes@),
    {
        let (xs, ys) = collect_coords(edges);
        let mut x_lines = build_lines_from_coords(&xs);
        let mut y_lines = build_lines_from_coords(&ys);
        proof {
            crate::lines::lemma_sorted_values_of_sorted(xs@);
            crate::lines::lemma_sorted_values_of_sorted(ys@);
        }
        let ghost x_inner = x_lines@;
        let ghost y_inner = y_lines@;
        let (min_nodes_x, min_nodes_y, max_nodes_x, max_nodes_y) = nodes_bounds(nodes);
        proof {
            assert(-COORD_LIMIT <= xs@[0] <= COORD_LIMIT);
            assert(-COORD_LIMIT <= xs@[xs.len() - 1] <= COORD_LIMIT);
            assert(-COORD_LIMIT <= ys@[0] <= COORD_LIMIT);
            assert(-COORD_LIMIT <= ys@[ys.len() - 1] <= COORD_LIMIT);
        }
        let first_x = x_lines[0];
        let last_x = x_lines[x_lines.len() - 1];
        let first_y = y_lines[0];
        let last_y = y_lines[y_lines.len() - 1];
        let min_x = if min_nodes_x - PADDING < first_x - PADDING {
            min_nodes_x - PADDING
        } else {
            first_x - PADDING
        };
        let max_x = if max_nodes_x + PADDING > last_x + PADDING {
            max_nodes_x + PADDING
        } else {
            last_x + PADDING
        };
        let min_y = if min_nodes_y - PADDING < first_y - PADDING {
            min_nodes_y - PADDING
        } else {
            first_y - PADDING
        };
        let max_y = if max_nodes_y + PADDING > last_y + PADDING {
            max_nodes_y + PADDING
        } else {
            last_y + PADDING
        };
        ensure_min_max(&mut x_lines, min_x, max_x);
        ensure_min_max(&mut y_lines, min_y, max_y);
        let top_left = Point { x: min_x, y: min_y };
        let bottom_right = Point { x: max_x, y: max_y };
        let ghost area = RawArea { top_left, bottom_right };
        assert(area == batch_area(edges@, nodes@));
        if !RawArea::corners_fit(top_left, bottom_right) {
            return None;
        }
        let width = x_lines.len();
        let height = y_lines.len();
        proof {
            lemma_increasing_gap(x_lines@, 0, width - 1);
            lemma_increasing_gap(y_lines@, 0, height - 1);
            let rw = area.spec_width();
            let rh = area.spec_height();
            assert(width * height <= rw * rh) by (nonlinear_arith)
                requires
                    1 <= width <= rw,
                    1 <= height <= rh,
            ;
        }
        let grid = Grid::new(width, height, x_lines, y_lines);
        proof {
            assert forall|i: int| 0 <= i < edges.len() implies grid.on_grid((#[trigger] edges[i]).0)
                && grid.on_grid(edges[i].1) && min_x + PADDING <= edges[i].0.x <= max_x - PADDING
                && min_x + PADDING <= edges[i].1.x <= max_x - PADDING && min_y + PADDING
                <= edges[i].0.y <= max_y - PADDING && min_y + PADDING <= edges[i].1.y <= max_y
                - PADDING by {
                let e = edges[i];
                assert(is_endpoint_x(edges@, e.0.x) && is_endpoint_x(edges@, e.1.x));
                assert(is_endpoint_y(edges@, e.0.y) && is_endpoint_y(edges@, e.1.y));
                lemma_member_between(xs@, x_inner, e.0.x);
                lemma_member_between(xs@, x_inner, e.1.x);
                lemma_member_between(ys@, y_inner, e.0.y);
                lemma_member_between(ys@, y_inner, e.1.y);
            }
        }
        Some(grid)
    }

    /// The grid of a batch of edges and the placed nodes.
    pub fn from_edges_and_nodes(edges: &Vec<(Point, Point)>, nodes: &Vec<PlacedRectangularNode>) -> (g:
        Grid)
        requires
            edges.len() > 0,
            endpoints_in_range(edges@),
            nodes_well_formed(nodes@),
            batch_area(edges@, nodes@).well_formed(),
        ensures
            g.built_from(edges@, nodes@),
    {
        Self::try_from_edges_and_nodes(edges, nodes).unwrap()
    }
}

/// A coordinate among strictly increasing ones is among the lines built
/// from them, and lies between the first and the last of them.
proof fn lemma_member_between(coords: Seq<i32>, lines: Seq<i32>, v: i32)
    requires
        strictly_increasing(coords),
        coords.contains(v),
        forall|k: int| 0 <= k < coords.len() ==> lines.contains(#[trigger] coords[k]),
    ensures
        lines.contains(v),
        coords[0] <= v <= coords.last(),
{
    let k = choose|k: int| 0 <= k < coords.len() && coords[k] == v;
    assert(lines.contains(coords[k]));
    lemma_increasing_gap(coords, 0, k);
    lemma_increasing_gap(coords, k, coords.len() - 1);
}

} // verus!
