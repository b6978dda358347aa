//! The congestion-aware cost of a step: a turn, the present cost and half
//! the history cost of the raw segments that the step passes, and a penalty
//! for turning on a raw point where other paths turn already.

use vstd::prelude::*;
use crate::astar::{near_on_grid, pid, StepCost};
use crate::geometry::{Orientation, Point};
use crate::grid::{lemma_increasing_gap, Grid, GridPoint};
use crate::raw_area::{lemma_point_index, RawArea};

verus! {

/// In every row of a plane that is `w` wide, each prefix sum is at least
/// `low` more than the one before it.
pub open spec fn rows_rise(prefix: Seq<i64>, w: int, low: int) -> bool {
    forall|i: int|
        0 <= i && i + 1 < prefix.len() && (i + 1) % w != 0 ==> #[trigger] prefix[i] + low
            <= prefix[i + 1]
}

/// In every column of a plane that is `w` wide, each prefix sum is at least
/// `low` more than the one above it.
pub open spec fn columns_rise(prefix: Seq<i64>, w: int, low: int) -> bool {
    forall|i: int| 0 <= i && i + w < prefix.len() ==> #[trigger] prefix[i] + low <= prefix[i + w]
}

/// Along a row, prefix sums rise by at least `low` per unit step.
pub proof fn lemma_rows_rise(prefix: Seq<i64>, w: int, h: int, low: int, x0: int, x1: int, y: int)
    requires
        rows_rise(prefix, w, low),
        prefix.len() == w * h,
        0 <= x0 <= x1 < w,
        0 <= y < h,
    ensures
        prefix[y * w + x0] + (x1 - x0) * low <= prefix[y * w + x1],
    decreases x1 - x0,
{
    lemma_point_index(w, h, x0, y);
    lemma_point_index(w, h, x1, y);
    if x0 < x1 {
        lemma_rows_rise(prefix, w, h, low, x0, x1 - 1, y);
        lemma_point_index(w, h, x1 - 1, y);
        let i = y * w + x1 - 1;
        assert(prefix[i] + low <= prefix[i + 1]);
        assert((x1 - x0) * low == (x1 - 1 - x0) * low + low) by (nonlinear_arith);
    } else {
        assert((x1 - x0) * low == 0) by (nonlinear_arith)
            requires
                x1 == x0,
        ;
    }
}

/// Along a column, prefix sums rise by at least `low` per unit step.
pub proof fn lemma_columns_rise(prefix: Seq<i64>, w: int, h: int, low: int, x: int, y0: int, y1: int)
    requires
        columns_rise(prefix, w, low),
        prefix.len() == w * h,
        0 <= x < w,
        0 <= y0 <= y1 < h,
    ensures
        prefix[y0 * w + x] + (y1 - y0) * low <= prefix[y1 * w + x],
    decreases y1 - y0,
{
    lemma_point_index(w, h, x, y0);
    lemma_point_index(w, h, x, y1);
    if y0 < y1 {
        lemma_columns_rise(prefix, w, h, low, x, y0, y1 - 1);
        lemma_point_index(w, h, x, y1 - 1);
        let i = (y1 - 1) * w + x;
        assert((y1 - 1) * w + w == y1 * w) by (nonlinear_arith);
        assert(prefix[i] + low <= prefix[i + w]);
        assert((y1 - y0) * low == (y1 - 1 - y0) * low + low) by (nonlinear_arith);
    } else {
        assert((y1 - y0) * low == 0) by (nonlinear_arith)
            requires
                y1 == y0,
        ;
    }
}

/// The summed value of the raw segments on the straight line between two
/// points of the raw area, read off the prefix sums: nothing for one and the
/// same point, the difference along the column for two points with the same
/// abscissa, and the difference along the row otherwise.
pub open spec fn range_sum(
    area: RawArea,
    prefix_x: Seq<i64>,
    prefix_y: Seq<i64>,
    from: Point,
    to: Point,
) -> int {
    let a = area.index_of(from);
    let b = area.index_of(to);
    if from == to {
        0
    } else if from.x == to.x {
        if to.y > from.y {
            prefix_y[b] - prefix_y[a]
        } else {
            prefix_y[a] - prefix_y[b]
        }
    } else {
        if to.x < from.x {
            prefix_x[a] - prefix_x[b]
        } else {
            prefix_x[b] - prefix_x[a]
        }
    }
}

/// The summed value of the raw segments between two grid points, read off
/// the prefix sums.
pub fn segment_cost_from_prefix_sums(
    grid: &Grid,
    raw_cost_prefix_x: &Vec<i64>,
    raw_cost_prefix_y: &Vec<i64>,
    from_idx: GridPoint,
    to_idx: GridPoint,
    from_point: Point,
    to_point: Point,
) -> (r: i128)
    requires
        grid.well_formed(),
        pid(from_idx) < grid.size,
        pid(to_idx) < grid.size,
        from_point == grid.point_of(from_idx),
        to_point == grid.point_of(to_idx),
        raw_cost_prefix_x.len() == grid.spec_raw_area().spec_size(),
        raw_cost_prefix_y.len() == grid.spec_raw_area().spec_size(),
    ensures
        r == range_sum(
            grid.spec_raw_area(),
            raw_cost_prefix_x@,
            raw_cost_prefix_y@,
            from_point,
            to_point,
        ),
{
    if from_point == to_point {
        return 0;
    }
    let from_raw = grid.grid_point_to_raw_point(from_idx).unwrap().0 as usize;
    let to_raw = grid.grid_point_to_raw_point(to_idx).unwrap().0 as usize;
    if from_point.x == to_point.x {
        let to_upper = to_point.y > from_point.y;
        let upper = if to_upper {
            to_raw
        } else {
            from_raw
        };
        let lower = if to_upper {
            from_raw
        } else {
            to_raw
        };
        raw_cost_prefix_y[upper] as i128 - raw_cost_prefix_y[lower] as i128
    } else {
        let to_left = to_point.x < from_point.x;
        let left = if to_left {
            to_raw
        } else {
            from_raw
        };
        let right = if to_left {
            from_raw
        } else {
            to_raw
        };
        raw_cost_prefix_x[right] as i128 - raw_cost_prefix_x[left] as i128
    }
}

/// The cost of routing through a field of present costs, history costs and
/// corner usage.
pub struct CongestionCost<'a> {
    pub grid: &'a Grid,
    pub cost_prefix_x: &'a Vec<i64>,
    pub cost_prefix_y: &'a Vec<i64>,
    pub history_prefix_x: &'a Vec<i64>,
    pub history_prefix_y: &'a Vec<i64>,
    pub corner_usage: &'a Vec<i32>,
    pub corner_history: &'a Vec<i64>,
    pub base_cost: i64,
    pub corner_lambda: i64,
    pub corner_capacity: i32,
}

/// Twice the penalty for turning on a raw point: the base cost where the
/// point is in use as a corner, `corner_lambda` for each use beyond the
/// capacity, and half the point's history.
pub open spec fn corner_penalty_twice(
    usage: int,
    history: int,
    base_cost: int,
    corner_lambda: int,
    corner_capacity: int,
) -> int {
    let reuse = if usage > 0 {
        base_cost
    } else {
        0
    };
    let overflow = if usage > corner_capacity {
        usage - corner_capacity
    } else {
        0
    };
    2 * reuse + 2 * corner_lambda * overflow + history
}

impl<'a> CongestionCost<'a> {
    /// Every buffer has one entry per raw point, the present cost of every
    /// raw segment is at least 1, and no history and no parameter is
    /// negative.
    pub open spec fn well_formed(&self) -> bool {
        let area = self.grid.spec_raw_area();
        let w = area.spec_width();
        &&& self.grid.well_formed()
        &&& self.cost_prefix_x.len() == area.spec_size()
        &&& self.cost_prefix_y.len() == area.spec_size()
        &&& self.history_prefix_x.len() == area.spec_size()
        &&& self.history_prefix_y.len() == area.spec_size()
        &&& self.corner_usage.len() == area.spec_size()
        &&& self.corner_history.len() == area.spec_size()
        &&& rows_rise(self.cost_prefix_x@, w, 1)
        &&& columns_rise(self.cost_prefix_y@, w, 1)
        &&& rows_rise(self.history_prefix_x@, w, 0)
        &&& columns_rise(self.history_prefix_y@, w, 0)
        &&& forall|i: int| 0 <= i < self.corner_history.len() ==> 0 <= #[trigger] self.corner_history[i]
        &&& 0 <= self.base_cost
        &&& 0 <= self.corner_lambda
    }

    /// Twice the cost of a step before it is cut down to a whole number.
    pub open spec fn twice(
        &self,
        from: GridPoint,
        to: GridPoint,
        from_orientation: Orientation,
        to_orientation: Orientation,
    ) -> int {
        let area = self.grid.spec_raw_area();
        let from_point = self.grid.point_of(from);
        let to_point = self.grid.point_of(to);
        let turn: int = if from_orientation != to_orientation {
            1
        } else {
            0
        };
        let present = range_sum(
            area,
            self.cost_prefix_x@,
            self.cost_prefix_y@,
            from_point,
            to_point,
        );
        let history = range_sum(
            area,
            self.history_prefix_x@,
            self.history_prefix_y@,
            from_point,
            to_point,
        );
        let corner = if from_orientation != to_orientation {
            corner_penalty_twice(
                self.corner_usage[area.index_of(from_point)] as int,
                self.corner_history[area.index_of(from_point)] as int,
                self.base_cost as int,
                self.corner_lambda as int,
                self.corner_capacity as int,
            )
        } else {
            0
        };
        2 * turn + 2 * present + history + corner
    }

    /// The range sums of a step between grid points that are the same or
    /// neighbours: the present cost is at least 1 for a move, and no sum is
    /// negative.
    pub proof fn lemma_sums(&self, from: GridPoint, to: GridPoint)
        requires
            self.well_formed(),
            pid(from) < self.grid.size,
            pid(to) < self.grid.size,
            near_on_grid(*self.grid, from, to),
        ensures
            from == to ==> range_sum(
                self.grid.spec_raw_area(),
                self.cost_prefix_x@,
                self.cost_prefix_y@,
                self.grid.point_of(from),
                self.grid.point_of(to),
            ) == 0,
            from != to ==> range_sum(
                self.grid.spec_raw_area(),
                self.cost_prefix_x@,
                self.cost_prefix_y@,
                self.grid.point_of(from),
                self.grid.point_of(to),
            ) >= 1,
            range_sum(
                self.grid.spec_raw_area(),
                self.history_prefix_x@,
                self.history_prefix_y@,
                self.grid.point_of(from),
                self.grid.point_of(to),
            ) >= 0,
    {
        let grid = *self.grid;
        let area = grid.spec_raw_area();
        let w = area.spec_width();
        let h = area.spec_height();
        grid.lemma_dimensions();
        grid.lemma_point(from);
        grid.lemma_point(to);
        area.lemma_dimensions();
        let a = grid.point_of(from);
        let b = grid.point_of(to);
        let ax = grid.col(from);
        let ay = grid.row(from);
        let bx = grid.col(to);
        let by = grid.row(to);
        if from != to {
            if ay == by {
                let x0 = if ax < bx {
                    ax
                } else {
                    bx
                };
                lemma_increasing_gap(grid.x_lines@, x0, x0 + 1);
                let left = grid.x_lines[x0] - grid.min_x;
                let right = grid.x_lines[x0 + 1] - grid.min_x;
                let y = a.y - grid.min_y;
                lemma_rows_rise(self.cost_prefix_x@, w, h, 1, left, right, y);
                lemma_rows_rise(self.history_prefix_x@, w, h, 0, left, right, y);
                assert((right - left) * 1 == right - left);
                assert((right - left) * 0 == 0);
            } else {
                let y0 = if ay < by {
                    ay
                } else {
                    by
                };
                lemma_increasing_gap(grid.y_lines@, y0, y0 + 1);
                let top = grid.y_lines[y0] - grid.min_y;
                let bottom = grid.y_lines[y0 + 1] - grid.min_y;
                let x = a.x - grid.min_x;
                lemma_columns_rise(self.cost_prefix_y@, w, h, 1, x, top, bottom);
                lemma_columns_rise(self.history_prefix_y@, w, h, 0, x, top, bottom);
                assert((bottom - top) * 1 == bottom - top);
                assert((bottom - top) * 0 == 0);
            }
        }
    }
}

impl<'a> StepCost for CongestionCost<'a> {
    open spec fn covers(
        &self,
        from: GridPoint,
        to: GridPoint,
        from_orientation: Orientation,
        to_orientation: Orientation,
    ) -> bool {
        &&& self.well_formed()
        &&& pid(from) < self.grid.size
        &&& pid(to) < self.grid.size
        &&& near_on_grid(*self.grid, from, to)
        &&& from == to ==> from_orientation != to_orientation
    }

    /// Half of `twice`, rounded down, and no more than `i32::MAX`.
    open spec fn step_cost(
        &self,
        from: GridPoint,
        to: GridPoint,
        from_orientation: Orientation,
        to_orientation: Orientation,
    ) -> int {
        let whole = self.twice(from, to, from_orientation, to_orientation) / 2;
        if whole > i32::MAX {
            i32::MAX as int
        } else if whole < i32::MIN {
            i32::MIN as int
        } else {
            whole
        }
    }

    proof fn lemma_cost_bounds(
        &self,
        from: GridPoint,
        to: GridPoint,
        from_orientation: Orientation,
        to_orientation: Orientation,
    ) {
        self.lemma_sums(from, to);
        self.grid.lemma_point(from);
        self.grid.spec_raw_area().lemma_dimensions();
        let area = self.grid.spec_raw_area();
        if from_orientation != to_orientation {
            let at = area.index_of(self.grid.point_of(from));
            lemma_point_index(
                area.spec_width(),
                area.spec_height(),
                self.grid.point_of(from).x - area.top_left.x,
                self.grid.point_of(from).y - area.top_left.y,
            );
            let usage = self.corner_usage[at] as int;
            let overflow = if usage > self.corner_capacity {
                usage - self.corner_capacity
            } else {
                0
            };
            assert(0 <= 2 * self.corner_lambda * overflow) by (nonlinear_arith)
                requires
                    0 <= self.corner_lambda,
                    0 <= overflow,
            ;
            assert(0 <= self.corner_history[at]);
        }
    }

    fn cost(
        &self,
        from: GridPoint,
        to: GridPoint,
        from_orientation: Orientation,
        to_orientation: Orientation,
    ) -> (c: i32) {
        let from_point = self.grid.grid_point_to_point(from).unwrap();
        let to_point = self.grid.grid_point_to_point(to).unwrap();
        let turned = match (from_orientation, to_orientation) {
            (Orientation::Horizontal, Orientation::Vertical) => true,
            (Orientation::Vertical, Orientation::Horizontal) => true,
            _ => false,
        };
        let turn_cost: i128 = if turned {
            1
        } else {
            0
        };
        let current_cost = segment_cost_from_prefix_sums(
            self.grid,
            self.cost_prefix_x,
            self.cost_prefix_y,
            from,
            to,
            from_point,
            to_point,
        );
        let history_cost = segment_cost_from_prefix_sums(
            self.grid,
            self.history_prefix_x,
            self.history_prefix_y,
            from,
            to,
            from_point,
            to_point,
        );
        let corner_twice: i128 = if turned {
            let corner_idx = self.grid.grid_point_to_raw_point(from).unwrap().0 as usize;
            let usage = self.corner_usage[corner_idx];
            let overflow: i128 = if usage > self.corner_capacity {
                usage as i128 - self.corner_capacity as i128
            } else {
                0
            };
            let history = self.corner_history[corner_idx];
            let reuse_penalty: i128 = if usage > 0 {
                self.base_cost as i128
            } else {
                0
            };
            assert(0 <= 2 * self.corner_lambda * overflow <= 2 * 0x8000_0000_0000_0000
                * 0x1_0000_0000) by (nonlinear_arith)
                requires
                    0 <= self.corner_lambda <= 0x8000_0000_0000_0000,
                    0 <= overflow <= 0x1_0000_0000,
            ;
            2 * reuse_penalty + 2 * (self.corner_lambda as i128) * overflow + history as i128
        } else {
            0
        };
        let twice = 2 * turn_cost + 2 * current_cost + history_cost + corner_twice;
        proof {
            self.lemma_cost_bounds(from, to, from_orientation, to_orientation);
        }
        let whole = twice / 2;
        if whole > i32::MAX as i128 {
            i32::MAX
        } else {
            whole as i32
        }
    }
}

} // verus!
