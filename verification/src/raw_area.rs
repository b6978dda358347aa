//! The dense integer plane under the routing grid: packed point and segment
//! indices, and prefix sums over per-segment values.

use vstd::prelude::*;
use vstd::arithmetic::div_mod::lemma_fundamental_div_mod_converse;
use crate::geometry::Point;

verus! {

/// Most points that a raw area may hold. It keeps every packed index inside
/// `u32` and every prefix sum inside `i64`.
pub const MAX_RAW_POINTS: usize = 0x800_0000;

/// Largest absolute per-segment value that prefix sums accept.
pub const MAX_SEGMENT_VALUE: i64 = 0x8_0000_0000;

/// Packed index of a point of the raw area, row by row.
#[derive(Clone, Copy, Debug, PartialEq, Eq, Hash, Structural)]
pub struct RawPoint(pub u32);

/// Packed index of a unit segment of the raw area.
#[derive(Clone, Copy, Debug, PartialEq, Eq, Hash, Structural)]
pub struct RawSegment(pub u32);

/// Index of the horizontal unit segment from column `x` to `x + 1` in row `y`
/// of a plane that is `w` wide.
pub open spec fn horizontal_segment(w: int, x: int, y: int) -> int {
    y * (w - 1) + x
}

/// Index of the vertical unit segment from row `y` to `y + 1` in column `x`
/// of a plane that is `w` wide and `h` high. Vertical segments follow the
/// horizontal ones.
pub open spec fn vertical_segment(w: int, h: int, x: int, y: int) -> int {
    (w - 1) * h + x * (h - 1) + y
}

/// Number of unit segments of a plane that is `w` wide and `h` high.
pub open spec fn segment_count(w: int, h: int) -> int {
    (w - 1) * h + (h - 1) * w
}

/// Sum of the values of the horizontal segments of row `y` that lie between
/// the columns `x0` and `x1`.
pub open spec fn horizontal_run(c: Seq<i64>, w: int, y: int, x0: int, x1: int) -> int
    decreases x1 - x0,
{
    if x1 <= x0 {
        0
    } else {
        horizontal_run(c, w, y, x0, x1 - 1) + c[horizontal_segment(w, x1 - 1, y)]
    }
}

/// Sum of the values of the vertical segments of column `x` that lie between
/// the rows `y0` and `y1`.
pub open spec fn vertical_run(c: Seq<i64>, w: int, h: int, x: int, y0: int, y1: int) -> int
    decreases y1 - y0,
{
    if y1 <= y0 {
        0
    } else {
        vertical_run(c, w, h, x, y0, y1 - 1) + c[vertical_segment(w, h, x, y1 - 1)]
    }
}

/// Every value lies within `MAX_SEGMENT_VALUE` of zero.
pub open spec fn values_bounded(c: Seq<i64>) -> bool {
    forall|i: int| 0 <= i < c.len() ==> -MAX_SEGMENT_VALUE <= #[trigger] c[i] <= MAX_SEGMENT_VALUE
}

pub proof fn lemma_point_index(w: int, h: int, x: int, y: int)
    requires
        0 <= x < w,
        0 <= y < h,
    ensures
        0 <= y * w + x < w * h,
        (y * w + x) / w == y,
        (y * w + x) % w == x,
{
    assert(0 <= y * w && y * w + w <= w * h) by (nonlinear_arith)
        requires
            0 <= y < h,
            0 < w,
    ;
    lemma_fundamental_div_mod_converse(y * w + x, w, y, x);
}

pub proof fn lemma_index_point(w: int, h: int, i: int)
    requires
        0 < w,
        0 <= i < w * h,
    ensures
        0 <= i % w < w,
        0 <= i / w < h,
        i == (i / w) * w + i % w,
{
    vstd::arithmetic::div_mod::lemma_fundamental_div_mod(i, w);
    vstd::arithmetic::div_mod::lemma_mod_bound(i, w);
    let q = i / w;
    assert(q * w == w * q) by (nonlinear_arith);
    assert(0 <= q < h) by (nonlinear_arith)
        requires
            0 < w,
            0 <= i < w * h,
            i == q * w + i % w,
            0 <= i % w < w,
    ;
}

pub proof fn lemma_horizontal_segment_index(w: int, h: int, x: int, y: int)
    requires
        0 <= x < w - 1,
        0 <= y < h,
    ensures
        0 <= y * (w - 1),
        0 <= horizontal_segment(w, x, y) < (w - 1) * h,
        (w - 1) * h <= segment_count(w, h),
        (w - 1) * h <= w * h,
{
    lemma_point_index(w - 1, h, x, y);
    assert(0 <= (h - 1) * w && 0 <= y * (w - 1) && (w - 1) * h <= w * h) by (nonlinear_arith)
        requires
            0 <= y < h,
            1 < w,
    ;
}

pub proof fn lemma_vertical_segment_index(w: int, h: int, x: int, y: int)
    requires
        0 <= x < w,
        0 <= y < h - 1,
    ensures
        0 <= (w - 1) * h <= w * h,
        0 <= x * (h - 1),
        x * (h - 1) + y < w * (h - 1) <= w * h,
        (w - 1) * h <= vertical_segment(w, h, x, y) < segment_count(w, h),
{
    lemma_point_index(h - 1, w, y, x);
    assert((h - 1) * w == w * (h - 1) && 0 <= (w - 1) * h <= w * h && 0 <= x * (h - 1) && w * (h
        - 1) <= w * h) by (nonlinear_arith)
        requires
            0 <= x < w,
            1 < h,
    ;
}

pub proof fn lemma_segment_count_bound(w: int, h: int)
    requires
        1 <= w,
        1 <= h,
    ensures
        0 <= segment_count(w, h) < 2 * (w * h),
        w <= w * h,
        h <= w * h,
{
    assert(0 <= (w - 1) * h && 0 <= (h - 1) * w && (w - 1) * h + (h - 1) * w == 2 * (w * h) - w
        - h && w <= w * h && h <= w * h) by (nonlinear_arith)
        requires
            1 <= w,
            1 <= h,
    ;
}

/// A run splits at any column between its ends.
pub proof fn lemma_horizontal_run_split(c: Seq<i64>, w: int, y: int, x0: int, x1: int, x2: int)
    requires
        x0 <= x1 <= x2,
    ensures
        horizontal_run(c, w, y, x0, x2) == horizontal_run(c, w, y, x0, x1) + horizontal_run(
            c,
            w,
            y,
            x1,
            x2,
        ),
    decreases x2 - x1,
{
    if x1 < x2 {
        lemma_horizontal_run_split(c, w, y, x0, x1, x2 - 1);
    }
}

/// A run splits at any row between its ends.
pub proof fn lemma_vertical_run_split(
    c: Seq<i64>,
    w: int,
    h: int,
    x: int,
    y0: int,
    y1: int,
    y2: int,
)
    requires
        y0 <= y1 <= y2,
    ensures
        vertical_run(c, w, h, x, y0, y2) == vertical_run(c, w, h, x, y0, y1) + vertical_run(
            c,
            w,
            h,
            x,
            y1,
            y2,
        ),
    decreases y2 - y1,
{
    if y1 < y2 {
        lemma_vertical_run_split(c, w, h, x, y0, y1, y2 - 1);
    }
}

pub proof fn lemma_horizontal_run_bound(c: Seq<i64>, w: int, h: int, y: int, x0: int, x1: int)
    requires
        values_bounded(c),
        c.len() == segment_count(w, h),
        0 <= y < h,
        0 <= x0 <= x1 < w,
    ensures
        -(x1 - x0) * MAX_SEGMENT_VALUE <= horizontal_run(c, w, y, x0, x1) <= (x1 - x0)
            * MAX_SEGMENT_VALUE,
    decreases x1 - x0,
{
    if x0 < x1 {
        lemma_horizontal_run_bound(c, w, h, y, x0, x1 - 1);
        lemma_horizontal_segment_index(w, h, x1 - 1, y);
    }
}

pub proof fn lemma_vertical_run_bound(c: Seq<i64>, w: int, h: int, x: int, y0: int, y1: int)
    requires
        values_bounded(c),
        c.len() == segment_count(w, h),
        0 <= x < w,
        0 <= y0 <= y1 < h,
    ensures
        -(y1 - y0) * MAX_SEGMENT_VALUE <= vertical_run(c, w, h, x, y0, y1) <= (y1 - y0)
            * MAX_SEGMENT_VALUE,
    decreases y1 - y0,
{
    if y0 < y1 {
        lemma_vertical_run_bound(c, w, h, x, y0, y1 - 1);
        lemma_vertical_segment_index(w, h, x, y1 - 1);
    }
}

/// An axis-aligned rectangle of the integer plane, both corners included.
#[derive(Clone, Copy, Debug, PartialEq, Eq, Hash, Structural)]
pub struct RawArea {
    pub top_left: Point,
    pub bottom_right: Point,
}

impl RawArea {
    pub open spec fn spec_width(&self) -> int {
        self.bottom_right.x - self.top_left.x + 1
    }

    pub open spec fn spec_height(&self) -> int {
        self.bottom_right.y - self.top_left.y + 1
    }

    pub open spec fn spec_size(&self) -> int {
        self.spec_width() * self.spec_height()
    }

    pub open spec fn spec_num_segments(&self) -> int {
        segment_count(self.spec_width(), self.spec_height())
    }

    /// The area holds at least one point and at most `MAX_RAW_POINTS`.
    pub open spec fn well_formed(&self) -> bool {
        &&& 1 <= self.spec_width()
        &&& 1 <= self.spec_height()
        &&& self.spec_size() <= MAX_RAW_POINTS
    }

    pub open spec fn contains(&self, p: Point) -> bool {
        self.top_left.x <= p.x <= self.bottom_right.x && self.top_left.y <= p.y
            <= self.bottom_right.y
    }

    /// Packed index of a point of the area.
    pub open spec fn index_of(&self, p: Point) -> int {
        (p.y - self.top_left.y) * self.spec_width() + (p.x - self.top_left.x)
    }

    /// `to` lies one unit step left, right, above or below `from`.
    pub open spec fn unit_step(from: Point, to: Point) -> bool {
        let dx = to.x - from.x;
        let dy = to.y - from.y;
        (dy == 0 && (dx == 1 || dx == -1)) || (dx == 0 && (dy == 1 || dy == -1))
    }

    /// Index of the unit segment between two neighbouring points of the
    /// area, whichever way it is walked.
    pub open spec fn segment_of(&self, from: Point, to: Point) -> int {
        let fx = from.x - self.top_left.x;
        let fy = from.y - self.top_left.y;
        let tx = to.x - self.top_left.x;
        let ty = to.y - self.top_left.y;
        if from.y == to.y {
            horizontal_segment(self.spec_width(), if fx < tx { fx } else { tx }, fy)
        } else {
            vertical_segment(self.spec_width(), self.spec_height(), fx, if fy < ty { fy } else { ty })
        }
    }

    pub proof fn lemma_dimensions(&self)
        requires
            self.well_formed(),
        ensures
            1 <= self.spec_width() <= self.spec_size(),
            1 <= self.spec_height() <= self.spec_size(),
            0 <= self.spec_num_segments() < 2 * self.spec_size(),
            self.spec_size() <= MAX_RAW_POINTS,
    {
        lemma_segment_count_bound(self.spec_width(), self.spec_height());
    }

    /// Whether an area with these corners is well formed.
    pub fn corners_fit(top_left: Point, bottom_right: Point) -> (b: bool)
        ensures
            b == (RawArea { top_left, bottom_right }).well_formed(),
    {
        let w: i64 = bottom_right.x as i64 - top_left.x as i64 + 1;
        let h: i64 = bottom_right.y as i64 - top_left.y as i64 + 1;
        if w < 1 || h < 1 {
            return false;
        }
        if w > MAX_RAW_POINTS as i64 || h > MAX_RAW_POINTS as i64 {
            proof {
                lemma_segment_count_bound(w as int, h as int);
            }
            return false;
        }
        assert(w * h <= 0x800_0000 * 0x800_0000) by (nonlinear_arith)
            requires
                1 <= w <= 0x800_0000,
                1 <= h <= 0x800_0000,
        ;
        w * h <= MAX_RAW_POINTS as i64
    }

    pub fn width(&self) -> (w: i32)
        requires
            self.well_formed(),
        ensures
            w == self.spec_width(),
    {
        proof {
            self.lemma_dimensions();
        }
        self.bottom_right.x - self.top_left.x + 1
    }

    pub fn height(&self) -> (h: i32)
        requires
            self.well_formed(),
        ensures
            h == self.spec_height(),
    {
        proof {
            self.lemma_dimensions();
        }
        self.bottom_right.y - self.top_left.y + 1
    }

    pub fn size(&self) -> (n: usize)
        requires
            self.well_formed(),
        ensures
            n == self.spec_size(),
    {
        proof {
            self.lemma_dimensions();
        }
        let w = self.width() as usize;
        let h = self.height() as usize;
        w * h
    }

    pub fn num_segments(&self) -> (n: usize)
        requires
            self.well_formed(),
        ensures
            n == self.spec_num_segments(),
    {
        proof {
            self.lemma_dimensions();
            lemma_segment_count_bound(self.spec_width(), self.spec_height());
        }
        let w = self.width() as usize;
        let h = self.height() as usize;
        assert((w - 1) * h <= w * h && (h - 1) * w <= w * h) by (nonlinear_arith)
            requires
                1 <= w,
                1 <= h,
        ;
        (w - 1) * h + (h - 1) * w
    }

    /// The packed index of a point, or `None` for a point outside the area.
    pub fn point_to_raw_point(&self, point: &Point) -> (r: Option<RawPoint>)
        requires
            self.well_formed(),
        ensures
            r is Some <==> self.contains(*point),
            r is Some ==> r.unwrap().0 == self.index_of(*point) && r.unwrap().0 < self.spec_size(),
    {
        if point.x < self.top_left.x || point.x > self.bottom_right.x || point.y < self.top_left.y
            || point.y > self.bottom_right.y {
            return None;
        }
        proof {
            self.lemma_dimensions();
            lemma_point_index(
                self.spec_width(),
                self.spec_height(),
                point.x - self.top_left.x,
                point.y - self.top_left.y,
            );
        }
        let w = self.width() as u32;
        let dx = (point.x - self.top_left.x) as u32;
        let dy = (point.y - self.top_left.y) as u32;
        Some(RawPoint(dy * w + dx))
    }

    /// The point that a packed index stands for.
    pub fn raw_index_to_point(&self, raw_index: usize) -> (p: Point)
        requires
            self.well_formed(),
            raw_index < self.spec_size(),
        ensures
            self.contains(p),
            self.index_of(p) == raw_index,
            p.x == self.top_left.x + raw_index as int % self.spec_width(),
            p.y == self.top_left.y + raw_index as int / self.spec_width(),
    {
        proof {
            self.lemma_dimensions();
            lemma_index_point(self.spec_width(), self.spec_height(), raw_index as int);
        }
        let width = self.width() as usize;
        let x = raw_index % width;
        let y = raw_index / width;
        Point { x: self.top_left.x + x as i32, y: self.top_left.y + y as i32 }
    }

    /// The index of the unit segment between two points of the area that are
    /// neighbours along a row or a column; `None` for any other pair.
    pub fn segment_index_between(&self, from: &Point, to: &Point) -> (r: Option<usize>)
        requires
            self.well_formed(),
        ensures
            r is Some <==> self.contains(*from) && self.contains(*to) && Self::unit_step(*from, *to),
            r is Some ==> r->0 == self.segment_of(*from, *to) && r->0 < self.spec_num_segments(),
    {
        if self.point_to_raw_point(from).is_none() || self.point_to_raw_point(to).is_none() {
            return None;
        }
        proof {
            self.lemma_dimensions();
        }
        let w = self.width() as usize;
        let h = self.height() as usize;
        let fx = (from.x - self.top_left.x) as usize;
        let fy = (from.y - self.top_left.y) as usize;
        let tx = (to.x - self.top_left.x) as usize;
        let ty = (to.y - self.top_left.y) as usize;
        if fy == ty && (tx == fx + 1 || fx == tx + 1) {
            let x = if fx < tx { fx } else { tx };
            proof {
                lemma_horizontal_segment_index(w as int, h as int, x as int, fy as int);
            }
            Some(fy * (w - 1) + x)
        } else if fx == tx && (ty == fy + 1 || fy == ty + 1) {
            let y = if fy < ty { fy } else { ty };
            proof {
                lemma_vertical_segment_index(w as int, h as int, fx as int, y as int);
            }
            Some((w - 1) * h + fx * (h - 1) + y)
        } else {
            None
        }
    }

    /// Fills `prefix_x` with the running sums of the horizontal segment
    /// values along each row, and `prefix_y` with those of the vertical
    /// segment values along each column. The entry of a point is the sum
    /// from the start of its row, or column, up to the point.
    pub fn edge_prefix_sums(
        &self,
        edge_buffer: &Vec<i64>,
        prefix_x: &mut Vec<i64>,
        prefix_y: &mut Vec<i64>,
    )
        requires
            self.well_formed(),
            edge_buffer.len() == self.spec_num_segments(),
            values_bounded(edge_buffer@),
            old(prefix_x).len() == self.spec_size(),
            old(prefix_y).len() == self.spec_size(),
        ensures
            final(prefix_x).len() == self.spec_size(),
            final(prefix_y).len() == self.spec_size(),
            forall|i: int|
                0 <= i < self.spec_size() ==> #[trigger] final(prefix_x)[i] == horizontal_run(
                    edge_buffer@,
                    self.spec_width(),
                    i / self.spec_width(),
                    0,
                    i % self.spec_width(),
                ),
            forall|i: int|
                0 <= i < self.spec_size() ==> #[trigger] final(prefix_y)[i] == vertical_run(
                    edge_buffer@,
                    self.spec_width(),
                    self.spec_height(),
                    i % self.spec_width(),
                    0,
                    i / self.spec_width(),
                ),
    {
        proof {
            self.lemma_dimensions();
        }
        let width = self.width() as usize;
        let height = self.height() as usize;
        let ghost w = width as int;
        let ghost h = height as int;
        let ghost c = edge_buffer@;

        let mut y: usize = 0;
        while y < height
            invariant
                self.well_formed(),
                w == self.spec_width(),
                h == self.spec_height(),
                w == width,
                h == height,
                1 <= w <= w * h <= MAX_RAW_POINTS,
                1 <= h <= w * h,
                c == edge_buffer@,
                c.len() == segment_count(w, h),
                values_bounded(c),
                prefix_x.len() == w * h,
                y <= height,
                forall|i: int|
                    0 <= i < y * w ==> #[trigger] prefix_x[i] == horizontal_run(
                        c,
                        w,
                        i / w,
                        0,
                        i % w,
                    ),
            decreases height - y,
        {
            proof {
                lemma_point_index(w, h, 0, y as int);
                lemma_point_index(w, h, w - 1, y as int);
            }
            let mut sum: i64 = 0;
            prefix_x[y * width] = sum;
            let mut x: usize = 0;
            while x < width - 1
                invariant
                    w == width,
                    h == height,
                    1 <= w <= w * h <= MAX_RAW_POINTS,
                    1 <= h <= w * h,
                    c == edge_buffer@,
                    c.len() == segment_count(w, h),
                    values_bounded(c),
                    prefix_x.len() == w * h,
                    y < height,
                    x <= width - 1,
                    y * w + w <= w * h,
                    sum == horizontal_run(c, w, y as int, 0, x as int),
                    forall|i: int|
                        0 <= i < y * w + x + 1 ==> #[trigger] prefix_x[i] == horizontal_run(
                            c,
                            w,
                            i / w,
                            0,
                            i % w,
                        ),
                decreases width - 1 - x,
            {
                proof {
                    lemma_horizontal_segment_index(w, h, x as int, y as int);
                    lemma_horizontal_run_bound(c, w, h, y as int, 0, x as int);
                    lemma_point_index(w, h, x as int + 1, y as int);
                    lemma_point_index(w - 1, h, x as int, y as int);
                }
                let edge_index = y * (width - 1) + x;
                let prefix_index = y * width + x + 1;
                sum = sum + edge_buffer[edge_index];
                prefix_x[prefix_index] = sum;
                x += 1;
            }
            proof {
                assert((y + 1) * w == y * w + w) by (nonlinear_arith);
            }
            y += 1;
        }
        proof {
            assert(y * w == w * h) by (nonlinear_arith)
                requires
                    y == h,
            ;
        }

        let mut x0: usize = 0;
        while x0 < width
            invariant
                w == width,
                h == height,
                1 <= w <= w * h <= MAX_RAW_POINTS,
                1 <= h <= w * h,
                prefix_y.len() == w * h,
                x0 <= width,
                forall|i: int|
                    0 <= i < x0 ==> #[trigger] prefix_y[i] == vertical_run(c, w, h, i % w, 0, i / w),
            decreases width - x0,
        {
            proof {
                lemma_point_index(w, h, x0 as int, 0);
            }
            prefix_y[x0] = 0;
            x0 += 1;
        }
        let mut y: usize = 0;
        while y < height - 1
            invariant
                w == width,
                h == height,
                1 <= w <= w * h <= MAX_RAW_POINTS,
                1 <= h <= w * h,
                c == edge_buffer@,
                c.len() == segment_count(w, h),
                values_bounded(c),
                prefix_y.len() == w * h,
                y <= height - 1,
                forall|i: int|
                    0 <= i < (y + 1) * w ==> #[trigger] prefix_y[i] == vertical_run(
                        c,
                        w,
                        h,
                        i % w,
                        0,
                        i / w,
                    ),
            decreases height - 1 - y,
        {
            proof {
                lemma_point_index(w, h, 0, y as int + 1);
                lemma_point_index(w, h, w - 1, y as int + 1);
                assert((y + 1) * w == y * w + w) by (nonlinear_arith);
                assert((y + 2) * w == y * w + w + w) by (nonlinear_arith);
            }
            let mut x: usize = 0;
            while x < width
                invariant
                    w == width,
                    h == height,
                    1 <= w <= w * h <= MAX_RAW_POINTS,
                    1 <= h <= w * h,
                    c == edge_buffer@,
                    c.len() == segment_count(w, h),
                    values_bounded(c),
                    prefix_y.len() == w * h,
                    y < height - 1,
                    x <= width,
                    y * w + w + w <= w * h,
                    (y + 1) * w == y * w + w,
                    forall|i: int|
                        0 <= i < (y + 1) * w + x ==> #[trigger] prefix_y[i] == vertical_run(
                            c,
                            w,
                            h,
                            i % w,
                            0,
                            i / w,
                        ),
                decreases width - x,
            {
                proof {
                    lemma_vertical_segment_index(w, h, x as int, y as int);
                    lemma_vertical_run_bound(c, w, h, x as int, 0, y as int);
                    lemma_point_index(w, h, x as int, y as int);
                    lemma_point_index(w, h, x as int, y as int + 1);
                }
                let edge_index = (width - 1) * height + x * (height - 1) + y;
                let above = prefix_y[y * width + x];
                prefix_y[(y + 1) * width + x] = above + edge_buffer[edge_index];
                x += 1;
            }
            y += 1;
        }
        proof {
            assert((y + 1) * w == w * h) by (nonlinear_arith)
                requires
                    y + 1 == h,
            ;
        }
    }

    /// The difference of two prefix sums of one row is the sum of the values
    /// of the segments between the two points.
    pub proof fn lemma_row_range_sum(
        &self,
        c: Seq<i64>,
        prefix_x: Seq<i64>,
        a: Point,
        b: Point,
    )
        requires
            self.well_formed(),
            self.contains(a),
            self.contains(b),
            a.y == b.y,
            a.x <= b.x,
            prefix_x.len() == self.spec_size(),
            forall|i: int|
                0 <= i < self.spec_size() ==> #[trigger] prefix_x[i] == horizontal_run(
                    c,
                    self.spec_width(),
                    i / self.spec_width(),
                    0,
                    i % self.spec_width(),
                ),
        ensures
            0 <= self.index_of(a) < self.spec_size(),
            0 <= self.index_of(b) < self.spec_size(),
            prefix_x[self.index_of(b)] - prefix_x[self.index_of(a)] == horizontal_run(
                c,
                self.spec_width(),
                a.y - self.top_left.y,
                a.x - self.top_left.x,
                b.x - self.top_left.x,
            ),
    {
        let w = self.spec_width();
        let h = self.spec_height();
        let y = a.y - self.top_left.y;
        lemma_point_index(w, h, a.x - self.top_left.x, y);
        lemma_point_index(w, h, b.x - self.top_left.x, y);
        lemma_horizontal_run_split(c, w, y, 0, a.x - self.top_left.x, b.x - self.top_left.x);
    }

    /// The difference of two prefix sums of one column is the sum of the
    /// values of the segments between the two points.
    pub proof fn lemma_column_range_sum(
        &self,
        c: Seq<i64>,
        prefix_y: Seq<i64>,
        a: Point,
        b: Point,
    )
        requires
            self.well_formed(),
            self.contains(a),
            self.contains(b),
            a.x == b.x,
            a.y <= b.y,
            prefix_y.len() == self.spec_size(),
            forall|i: int|
                0 <= i < self.spec_size() ==> #[trigger] prefix_y[i] == vertical_run(
                    c,
                    self.spec_width(),
                    self.spec_height(),
                    i % self.spec_width(),
                    0,
                    i / self.spec_width(),
                ),
        ensures
            0 <= self.index_of(a) < self.spec_size(),
            0 <= self.index_of(b) < self.spec_size(),
            prefix_y[self.index_of(b)] - prefix_y[self.index_of(a)] == vertical_run(
                c,
                self.spec_width(),
                self.spec_height(),
                a.x - self.top_left.x,
                a.y - self.top_left.y,
                b.y - self.top_left.y,
            ),
    {
        let w = self.spec_width();
        let h = self.spec_height();
        let x = a.x - self.top_left.x;
        lemma_point_index(w, h, x, a.y - self.top_left.y);
        lemma_point_index(w, h, x, b.y - self.top_left.y);
        lemma_vertical_run_split(c, w, h, x, 0, a.y - self.top_left.y, b.y - self.top_left.y);
    }
}

} // verus!
