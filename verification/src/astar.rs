//! Shortest-path search over the masked grid. A search state is a grid
//! point together with the orientation in which the path may go on without
//! a turn.

use vstd::prelude::*;
use rand::rngs::StdRng;
use crate::error::RouteError;
use crate::frontier::{leaves_first, Frontier};
use crate::geometry::Orientation;
use crate::grid::{Grid, GridPoint};
use crate::masked_grid::{neighbors_at, MaskedGrid};
use crate::random::shuffle_states;
use crate::raw_area::{lemma_point_index, MAX_RAW_POINTS};

verus! {

/// A step that costs this much or more is never taken, and no state with
/// this score or more is ever visited.
pub const MAX_SCORE: i32 = 0x1FFF_FFFF;

/// Stands for "no predecessor".
pub const NO_STATE: u32 = 0xFFFF_FFFF;

/// What a step of the search costs.
pub trait StepCost {
    /// The steps for which a cost is defined.
    spec fn covers(
        &self,
        from: GridPoint,
        to: GridPoint,
        from_orientation: Orientation,
        to_orientation: Orientation,
    ) -> bool;

    /// The cost of a step.
    spec fn step_cost(
        &self,
        from: GridPoint,
        to: GridPoint,
        from_orientation: Orientation,
        to_orientation: Orientation,
    ) -> int;

    /// No step costs less than nothing, and a step from one grid point to
    /// another costs at least 1.
    proof fn lemma_cost_bounds(
        &self,
        from: GridPoint,
        to: GridPoint,
        from_orientation: Orientation,
        to_orientation: Orientation,
    )
        requires
            self.covers(from, to, from_orientation, to_orientation),
        ensures
            self.step_cost(from, to, from_orientation, to_orientation) >= 0,
            from != to ==> self.step_cost(from, to, from_orientation, to_orientation) >= 1,
    ;

    fn cost(
        &self,
        from: GridPoint,
        to: GridPoint,
        from_orientation: Orientation,
        to_orientation: Orientation,
    ) -> (c: i32)
        requires
            self.covers(from, to, from_orientation, to_orientation),
        ensures
            c == self.step_cost(from, to, from_orientation, to_orientation),
    ;
}

/// Every step costs 1.
#[derive(Clone, Copy, Debug)]
pub struct UnitCost {}

impl StepCost for UnitCost {
    open spec fn covers(
        &self,
        from: GridPoint,
        to: GridPoint,
        from_orientation: Orientation,
        to_orientation: Orientation,
    ) -> bool {
        true
    }

    open spec fn step_cost(
        &self,
        from: GridPoint,
        to: GridPoint,
        from_orientation: Orientation,
        to_orientation: Orientation,
    ) -> int {
        1
    }

    proof fn lemma_cost_bounds(
        &self,
        from: GridPoint,
        to: GridPoint,
        from_orientation: Orientation,
        to_orientation: Orientation,
    ) {
    }

    fn cost(
        &self,
        from: GridPoint,
        to: GridPoint,
        from_orientation: Orientation,
        to_orientation: Orientation,
    ) -> (c: i32) {
        1
    }
}

/// Every step to another grid point costs 1, and a turn in place costs
/// nothing.
#[derive(Clone, Copy, Debug)]
pub struct MoveCost {}

impl StepCost for MoveCost {
    open spec fn covers(
        &self,
        from: GridPoint,
        to: GridPoint,
        from_orientation: Orientation,
        to_orientation: Orientation,
    ) -> bool {
        true
    }

    open spec fn step_cost(
        &self,
        from: GridPoint,
        to: GridPoint,
        from_orientation: Orientation,
        to_orientation: Orientation,
    ) -> int {
        if from == to {
            0
        } else {
            1
        }
    }

    proof fn lemma_cost_bounds(
        &self,
        from: GridPoint,
        to: GridPoint,
        from_orientation: Orientation,
        to_orientation: Orientation,
    ) {
    }

    fn cost(
        &self,
        from: GridPoint,
        to: GridPoint,
        from_orientation: Orientation,
        to_orientation: Orientation,
    ) -> (c: i32) {
        if from.0 == to.0 {
            0
        } else {
            1
        }
    }
}

/// The packed index of a grid point as a number.
pub open spec fn pid(p: GridPoint) -> int {
    p.0 as int
}

/// A masked grid as plain values.
pub struct Lattice {
    pub grid: Grid,
    pub point_mask: Seq<bool>,
    pub segment_mask: Seq<bool>,
}

impl Lattice {
    pub open spec fn well_formed(self) -> bool {
        &&& self.grid.well_formed()
        &&& self.point_mask.len() == self.grid.size
        &&& self.segment_mask.len() == self.grid.num_segments
    }
}

impl<'a> MaskedGrid<'a> {
    pub open spec fn lattice(&self) -> Lattice {
        Lattice {
            grid: *self.grid,
            point_mask: self.point_mask@,
            segment_mask: self.segment_mask@,
        }
    }
}

/// The search may step from state `a` to state `b`: `b` is a neighbour of
/// `a` on the masked grid, its grid point is usable, the step is no turn in
/// place on the start or end grid point, and its cost is below `MAX_SCORE`.
pub open spec fn is_step<C: StepCost>(
    l: Lattice,
    cost: C,
    start: GridPoint,
    end: GridPoint,
    a: (GridPoint, Orientation),
    b: (GridPoint, Orientation),
) -> bool {
    &&& pid(a.0) < l.grid.size
    &&& pid(b.0) < l.grid.size
    &&& neighbors_at(l.grid, l.segment_mask, a.0, a.1).contains(b)
    &&& !(b.0 == a.0 && (a.0 == start || a.0 == end))
    &&& l.point_mask[pid(b.0)]
    &&& cost.step_cost(a.0, b.0, a.1, b.1) < MAX_SCORE
}

/// The masked grid lets a path step from state `a` to state `b`: `b` is a
/// neighbour of `a`, its grid point is usable, and the step is no turn in
/// place on the start or end grid point.
pub open spec fn is_grid_step(
    l: Lattice,
    start: GridPoint,
    end: GridPoint,
    a: (GridPoint, Orientation),
    b: (GridPoint, Orientation),
) -> bool {
    &&& pid(a.0) < l.grid.size
    &&& pid(b.0) < l.grid.size
    &&& neighbors_at(l.grid, l.segment_mask, a.0, a.1).contains(b)
    &&& !(b.0 == a.0 && (a.0 == start || a.0 == end))
    &&& l.point_mask[pid(b.0)]
}

/// The states `i` and `i + 1` of the path are a step that the masked grid
/// lets a path take.
pub open spec fn link_is_grid_step(
    l: Lattice,
    start: GridPoint,
    end: GridPoint,
    path: Seq<(GridPoint, Orientation)>,
    i: int,
) -> bool {
    is_grid_step(l, start, end, path[i], path[i + 1])
}

/// The path leads from the usable grid point of `start` to `goal` by steps
/// that the masked grid lets a path take, whatever they cost.
pub open spec fn is_grid_route(
    l: Lattice,
    start: (GridPoint, Orientation),
    goal: (GridPoint, Orientation),
    path: Seq<(GridPoint, Orientation)>,
) -> bool {
    &&& path.len() >= 1
    &&& path[0] == start
    &&& path.last() == goal
    &&& pid(start.0) < l.grid.size
    &&& l.point_mask[pid(start.0)]
    &&& forall|i: int|
        0 <= i < path.len() - 1 ==> #[trigger] link_is_grid_step(l, start.0, goal.0, path, i)
}

/// The cost is defined for every step between neighbours on the grid.
pub open spec fn cost_covers<C: StepCost>(l: Lattice, cost: C) -> bool {
    forall|p: GridPoint, o: Orientation, n: (GridPoint, Orientation)|
        pid(p) < l.grid.size && #[trigger] neighbors_at(l.grid, l.segment_mask, p, o).contains(n)
            ==> cost.covers(p, n.0, o, n.1)
}

/// The states `i` and `i + 1` of the path are a step of the search.
pub open spec fn link_is_step<C: StepCost>(
    l: Lattice,
    cost: C,
    start: GridPoint,
    end: GridPoint,
    path: Seq<(GridPoint, Orientation)>,
    i: int,
) -> bool {
    is_step(l, cost, start, end, path[i], path[i + 1])
}

/// The path leads from `start` to `goal` by steps of the search.
pub open spec fn is_route<C: StepCost>(
    l: Lattice,
    cost: C,
    start: (GridPoint, Orientation),
    goal: (GridPoint, Orientation),
    path: Seq<(GridPoint, Orientation)>,
) -> bool {
    &&& path.len() >= 1
    &&& path[0] == start
    &&& path.last() == goal
    &&& forall|i: int|
        0 <= i < path.len() - 1 ==> #[trigger] link_is_step(l, cost, start.0, goal.0, path, i)
}

/// The summed cost of the steps of the path from its state `i` on.
pub open spec fn tail_cost<C: StepCost>(cost: C, path: Seq<(GridPoint, Orientation)>, i: int) -> int
    decreases path.len() - i,
{
    if i < 0 || i >= path.len() - 1 {
        0
    } else {
        cost.step_cost(path[i].0, path[i + 1].0, path[i].1, path[i + 1].1) + tail_cost(
            cost,
            path,
            i + 1,
        )
    }
}

/// The summed cost of all steps of the path.
pub open spec fn route_cost<C: StepCost>(cost: C, path: Seq<(GridPoint, Orientation)>) -> int {
    tail_cost(cost, path, 0)
}

/// Some path leads from `start` to `goal` at a cost below `MAX_SCORE`.
pub open spec fn reachable<C: StepCost>(
    l: Lattice,
    cost: C,
    start: (GridPoint, Orientation),
    goal: (GridPoint, Orientation),
) -> bool {
    exists|path: Seq<(GridPoint, Orientation)>| #[trigger]
        is_route(l, cost, start, goal, path) && route_cost(cost, path) < MAX_SCORE
}

/// No path from `start` to `goal` by steps of the search costs less than
/// `path` does.
pub open spec fn is_cheapest<C: StepCost>(
    l: Lattice,
    cost: C,
    start: (GridPoint, Orientation),
    goal: (GridPoint, Orientation),
    path: Seq<(GridPoint, Orientation)>,
) -> bool {
    forall|other: Seq<(GridPoint, Orientation)>| #[trigger]
        is_route(l, cost, start, goal, other) ==> route_cost(cost, path) <= route_cost(
            cost,
            other,
        )
}

/// Number of a search state: twice its grid point, plus one for the
/// vertical orientation.
pub open spec fn state_id(s: (GridPoint, Orientation)) -> int {
    2 * pid(s.0) + if s.1 == Orientation::Vertical {
        1int
    } else {
        0int
    }
}

/// The search state with the number `id`.
pub open spec fn state_of(id: int) -> (GridPoint, Orientation) {
    (GridPoint((id / 2) as u32), if id % 2 == 1 {
        Orientation::Vertical
    } else {
        Orientation::Horizontal
    })
}

pub proof fn lemma_state_numbers(s: (GridPoint, Orientation))
    ensures
        state_of(state_id(s)) == s,
        0 <= state_id(s) < 0x2_0000_0000,
{
}

pub proof fn lemma_number_states(id: int)
    requires
        0 <= id < 0x1_0000_0000,
    ensures
        state_id(state_of(id)) == id,
        pid(state_of(id).0) == id / 2,
{
}

/// Two grid points are the same, or neighbours along a row or a column.
pub open spec fn near_on_grid(grid: Grid, a: GridPoint, b: GridPoint) -> bool {
    let ax = grid.col(a);
    let ay = grid.row(a);
    let bx = grid.col(b);
    let by = grid.row(b);
    a == b || (ay == by && (ax + 1 == bx || bx + 1 == ax)) || (ax == bx && (ay + 1 == by || by + 1
        == ay))
}

/// The neighbours of a grid point of the grid are grid points of the grid,
/// and none of them is the state itself.
pub proof fn lemma_neighbors_valid(
    l: Lattice,
    p: GridPoint,
    o: Orientation,
    n: (GridPoint, Orientation),
)
    requires
        l.well_formed(),
        pid(p) < l.grid.size,
        neighbors_at(l.grid, l.segment_mask, p, o).contains(n),
    ensures
        pid(n.0) < l.grid.size,
        n != (p, o),
        n.0 == p ==> n.1 == o.flipped(),
        0 <= state_id(n) < 2 * l.grid.size,
        near_on_grid(l.grid, p, n.0),
{
    l.grid.lemma_dimensions();
    l.grid.lemma_point(p);
    let w = l.grid.width as int;
    let h = l.grid.height as int;
    let x = l.grid.col(p);
    let y = l.grid.row(p);
    let all = neighbors_at(l.grid, l.segment_mask, p, o);
    let k = choose|k: int| 0 <= k < all.len() && all[k] == n;
    if x > 0 {
        lemma_point_index(w, h, x - 1, y);
    }
    if x + 1 < w {
        lemma_point_index(w, h, x + 1, y);
    }
    if y > 0 {
        lemma_point_index(w, h, x, y - 1);
        assert((y - 1) * w == y * w - w) by (nonlinear_arith);
    }
    if y + 1 < h {
        lemma_point_index(w, h, x, y + 1);
        assert((y + 1) * w == y * w + w) by (nonlinear_arith);
    }
}

/// Sum of the scores.
pub open spec fn score_sum(g: Seq<i32>) -> int
    decreases g.len(),
{
    if g.len() == 0 {
        0
    } else {
        score_sum(g.drop_last()) + g.last()
    }
}

pub proof fn lemma_score_sum_update(g: Seq<i32>, t: int, v: i32)
    requires
        0 <= t < g.len(),
    ensures
        score_sum(g.update(t, v)) == score_sum(g) - g[t] + v,
    decreases g.len(),
{
    let u = g.update(t, v);
    if t == g.len() - 1 {
        assert(u.drop_last() =~= g.drop_last());
    } else {
        lemma_score_sum_update(g.drop_last(), t, v);
        assert(u.drop_last() =~= g.drop_last().update(t, v));
    }
}

pub proof fn lemma_score_sum_bound(g: Seq<i32>)
    requires
        forall|s: int| 0 <= s < g.len() ==> 0 <= #[trigger] g[s] <= MAX_SCORE,
    ensures
        0 <= score_sum(g) <= g.len() * MAX_SCORE,
    decreases g.len(),
{
    if g.len() > 0 {
        lemma_score_sum_bound(g.drop_last());
        assert((g.len() - 1) * MAX_SCORE + MAX_SCORE == g.len() * MAX_SCORE) by (nonlinear_arith);
    }
}

/// The frontier holds an entry for the state `s`.
pub open spec fn in_open(open: Seq<(i64, u64, u32)>, s: int) -> bool {
    exists|k: int| 0 <= k < open.len() && (#[trigger] open[k]).2 == s
}

/// Distance in grid steps between a column and a row and those of a goal.
pub open spec fn grid_distance(x: int, y: int, goal_x: int, goal_y: int) -> int {
    (if x >= goal_x {
        x - goal_x
    } else {
        goal_x - x
    }) + (if y >= goal_y {
        y - goal_y
    } else {
        goal_y - y
    })
}

/// What the search takes the way from the state `s` to the goal to cost at
/// least: the distance in grid steps.
pub open spec fn estimate(l: Lattice, goal: GridPoint, s: int) -> int {
    grid_distance(
        l.grid.col(state_of(s).0),
        l.grid.row(state_of(s).0),
        l.grid.col(goal),
        l.grid.row(goal),
    )
}

/// The frontier holds an entry for the state `s` that was made with the
/// score that `s` has now.
pub open spec fn is_fresh(
    open: Seq<(i64, u64, u32)>,
    g: Seq<i32>,
    l: Lattice,
    goal: GridPoint,
    s: int,
) -> bool {
    exists|k: int|
        0 <= k < open.len() && (#[trigger] open[k]).2 == s && open[k].0 == g[s] + estimate(
            l,
            goal,
            s,
        )
}

pub open spec fn edge_cost<C: StepCost>(cost: C, a: int, b: int) -> int {
    cost.step_cost(state_of(a).0, state_of(b).0, state_of(a).1, state_of(b).1)
}

pub open spec fn edge_ok<C: StepCost>(
    l: Lattice,
    cost: C,
    start: GridPoint,
    end: GridPoint,
    a: int,
    b: int,
) -> bool {
    is_step(l, cost, start, end, state_of(a), state_of(b))
}

/// No step from the state `s` leads to a state with a score above what the
/// step would give it.
pub open spec fn settled<C: StepCost>(
    l: Lattice,
    cost: C,
    start: GridPoint,
    end: GridPoint,
    g: Seq<i32>,
    s: int,
) -> bool {
    forall|t: int|
        0 <= t < g.len() && #[trigger] edge_ok(l, cost, start, end, s, t) ==> g[t] <= g[s]
            + edge_cost(cost, s, t)
}

/// The predecessor of the state `s` is a state from which a step leads to
/// `s`, at a cost that the score of `s` covers, and `s` is not in turn the
/// predecessor of that state.
pub open spec fn tree_ok<C: StepCost>(
    l: Lattice,
    cost: C,
    start: GridPoint,
    end: GridPoint,
    g: Seq<i32>,
    from: Seq<u32>,
    s: int,
) -> bool {
    let p = from[s] as int;
    p < g.len() && edge_ok(l, cost, start, end, p, s) && g[p] + edge_cost(cost, p, s) <= g[s]
        && from[p] != s
}

/// What holds of scores and predecessors throughout a search: the start
/// state has the score 0 and no predecessor, and every other state with a
/// score below `MAX_SCORE` has a predecessor that accounts for it.
pub open spec fn tree_inv<C: StepCost>(
    l: Lattice,
    cost: C,
    start: (GridPoint, Orientation),
    goal: (GridPoint, Orientation),
    g: Seq<i32>,
    from: Seq<u32>,
) -> bool {
    let n = 2 * l.grid.size;
    &&& g.len() == n
    &&& from.len() == n
    &&& 0 <= state_id(start) < n
    &&& 0 <= state_id(goal) < n
    &&& g[state_id(start)] == 0
    &&& from[state_id(start)] == NO_STATE
    &&& forall|s: int| 0 <= s < n ==> 0 <= #[trigger] g[s] <= MAX_SCORE
    &&& forall|s: int|
        0 <= s < n && s != state_id(start) && g[s] < MAX_SCORE ==> #[trigger] tree_ok(
            l,
            cost,
            start.0,
            goal.0,
            g,
            from,
            s,
        )
}

/// What holds of the search between two expansions; while the state `skip`
/// is being expanded, it is neither on the frontier nor settled.
pub open spec fn search_inv<C: StepCost>(
    l: Lattice,
    cost: C,
    start: (GridPoint, Orientation),
    goal: (GridPoint, Orientation),
    g: Seq<i32>,
    from: Seq<u32>,
    open: Seq<(i64, u64, u32)>,
    skip: int,
) -> bool {
    let n = 2 * l.grid.size;
    &&& tree_inv(l, cost, start, goal, g, from)
    &&& forall|s: int|
        0 <= s < n && s != skip && g[s] < MAX_SCORE ==> #[trigger] is_fresh(
            open,
            g,
            l,
            goal.0,
            s,
        ) || settled(l, cost, start.0, goal.0, g, s)
    &&& forall|k: int|
        0 <= k < open.len() ==> (#[trigger] open[k]).2 < n && g[open[k].2 as int] < MAX_SCORE
            && open[k].0 >= g[open[k].2 as int] + estimate(l, goal.0, open[k].2 as int)
    &&& g[state_id(goal)] < MAX_SCORE ==> in_open(open, state_id(goal))
}

/// A step of the search costs nothing negative, and at least 1 where it
/// leads to another grid point.
pub proof fn lemma_step_bounds<C: StepCost>(
    l: Lattice,
    cost: C,
    start: GridPoint,
    end: GridPoint,
    a: (GridPoint, Orientation),
    b: (GridPoint, Orientation),
)
    requires
        cost_covers(l, cost),
        is_step(l, cost, start, end, a, b),
    ensures
        cost.step_cost(a.0, b.0, a.1, b.1) >= 0,
        a.0 != b.0 ==> cost.step_cost(a.0, b.0, a.1, b.1) >= 1,
{
    assert(neighbors_at(l.grid, l.segment_mask, a.0, a.1).contains(b));
    assert(cost.covers(a.0, b.0, a.1, b.1));
    cost.lemma_cost_bounds(a.0, b.0, a.1, b.1);
}

/// What one sequence of entries holds beyond another is the entry `extra`,
/// once.
pub open spec fn holds_one_more(
    more: Seq<(i64, u64, u32)>,
    fewer: Seq<(i64, u64, u32)>,
    extra: (i64, u64, u32),
) -> bool {
    more.to_multiset() == fewer.to_multiset().insert(extra)
}

/// Of two sequences of entries of which one holds one entry more, each
/// holds the entries of the other, but for that entry.
proof fn lemma_one_more(
    more: Seq<(i64, u64, u32)>,
    fewer: Seq<(i64, u64, u32)>,
    extra: (i64, u64, u32),
)
    requires
        holds_one_more(more, fewer, extra),
    ensures
        more.contains(extra),
        forall|e: (i64, u64, u32)| fewer.contains(e) ==> more.contains(e),
        forall|e: (i64, u64, u32)| more.contains(e) && e != extra ==> fewer.contains(e),
{
    assert forall|e: (i64, u64, u32)|
        (fewer.contains(e) ==> more.contains(e)) && (more.contains(e) && e != extra
            ==> fewer.contains(e)) && more.contains(extra) by {
        vstd::seq_lib::to_multiset_contains(more, e);
        vstd::seq_lib::to_multiset_contains(fewer, e);
        vstd::seq_lib::to_multiset_contains(more, extra);
    }
}

/// Taking an entry out of the frontier leaves the search as it was, but
/// for the entry's state.
proof fn lemma_pop<C: StepCost>(
    l: Lattice,
    cost: C,
    start: (GridPoint, Orientation),
    goal: (GridPoint, Orientation),
    g: Seq<i32>,
    from: Seq<u32>,
    open: Seq<(i64, u64, u32)>,
    after: Seq<(i64, u64, u32)>,
    best: (i64, u64, u32),
)
    requires
        search_inv(l, cost, start, goal, g, from, open, -1),
        holds_one_more(open, after, best),
        best.2 != state_id(goal),
    ensures
        search_inv(l, cost, start, goal, g, from, after, best.2 as int),
{
    let cur = best.2 as int;
    let n = 2 * l.grid.size;
    lemma_one_more(open, after, best);
    assert forall|s: int| s != cur && in_open(open, s) implies in_open(after, s) by {
        let k = choose|k: int| 0 <= k < open.len() && (#[trigger] open[k]).2 == s;
        assert(open.contains(open[k]));
        assert(after.contains(open[k]));
        let m = choose|m: int| 0 <= m < after.len() && after[m] == open[k];
        assert(after[m].2 == s);
    }
    assert forall|s: int| s != cur && is_fresh(open, g, l, goal.0, s) implies is_fresh(
        after,
        g,
        l,
        goal.0,
        s,
    ) by {
        let k = choose|k: int|
            0 <= k < open.len() && (#[trigger] open[k]).2 == s && open[k].0 == g[s] + estimate(
                l,
                goal.0,
                s,
            );
        assert(open.contains(open[k]));
        assert(after.contains(open[k]));
        let m = choose|m: int| 0 <= m < after.len() && after[m] == open[k];
        assert(after[m].2 == s);
    }
    assert forall|k: int| 0 <= k < after.len() implies (#[trigger] after[k]).2 < n && g[after[k].2 as int]
        < MAX_SCORE && after[k].0 >= g[after[k].2 as int] + estimate(
        l,
        goal.0,
        after[k].2 as int,
    ) by {
        assert(after.contains(after[k]));
        assert(open.contains(after[k]));
        let m = choose|m: int| 0 <= m < open.len() && open[m] == after[k];
        assert(open[m].2 < n);
    }
    assert forall|s: int| 0 <= s < n && s != cur && g[s] < MAX_SCORE implies #[trigger] is_fresh(
        after,
        g,
        l,
        goal.0,
        s,
    ) || settled(l, cost, start.0, goal.0, g, s) by {
        assert(is_fresh(open, g, l, goal.0, s) || settled(l, cost, start.0, goal.0, g, s));
    }
}

/// Lowering the score of the state `t` to what the step from `cur` gives
/// it, and putting `t` on the frontier, keeps the search in order.
proof fn lemma_relax<C: StepCost>(
    l: Lattice,
    cost: C,
    start: (GridPoint, Orientation),
    goal: (GridPoint, Orientation),
    g: Seq<i32>,
    from: Seq<u32>,
    open: Seq<(i64, u64, u32)>,
    open2: Seq<(i64, u64, u32)>,
    cur: int,
    t: int,
    value: i32,
    entry: (i64, u64, u32),
)
    requires
        cost_covers(l, cost),
        search_inv(l, cost, start, goal, g, from, open, cur),
        holds_one_more(open2, open, entry),
        0 <= cur < g.len(),
        0 <= t < g.len(),
        t != cur,
        g.len() < NO_STATE,
        edge_ok(l, cost, start.0, goal.0, cur, t),
        value == g[cur] + edge_cost(cost, cur, t),
        0 <= value < g[t],
        entry.2 == t,
        entry.0 == value + estimate(l, goal.0, t),
    ensures
        search_inv(
            l,
            cost,
            start,
            goal,
            g.update(t, value),
            from.update(t, cur as u32),
            open2,
            cur,
        ),
{
    let g2 = g.update(t, value);
    let from2 = from.update(t, cur as u32);
    let n = 2 * l.grid.size;
    lemma_one_more(open2, open, entry);
    let at = choose|at: int| 0 <= at < open2.len() && open2[at] == entry;
    assert(open2[at].2 == t);
    assert(in_open(open2, t));
    assert(is_fresh(open2, g2, l, goal.0, t));
    lemma_step_bounds(l, cost, start.0, goal.0, state_of(cur), state_of(t));
    assert(from[cur] != t) by {
        if cur != state_id(start) {
            assert(tree_ok(l, cost, start.0, goal.0, g, from, cur));
            if from[cur] == t {
                lemma_step_bounds(l, cost, start.0, goal.0, state_of(t), state_of(cur));
            }
        }
    }
    assert forall|s: int| in_open(open, s) implies in_open(open2, s) by {
        let k = choose|k: int| 0 <= k < open.len() && (#[trigger] open[k]).2 == s;
        assert(open.contains(open[k]));
        let m = choose|m: int| 0 <= m < open2.len() && open2[m] == open[k];
        assert(open2[m].2 == s);
    }
    assert forall|s: int| s != t && is_fresh(open, g, l, goal.0, s) implies is_fresh(
        open2,
        g2,
        l,
        goal.0,
        s,
    ) by {
        let k = choose|k: int|
            0 <= k < open.len() && (#[trigger] open[k]).2 == s && open[k].0 == g[s] + estimate(
                l,
                goal.0,
                s,
            );
        assert(open.contains(open[k]));
        let m = choose|m: int| 0 <= m < open2.len() && open2[m] == open[k];
        assert(open2[m].2 == s);
    }
    assert forall|k: int| 0 <= k < open2.len() implies (#[trigger] open2[k]).2 < n && g2[open2[k].2 as int]
        < MAX_SCORE && open2[k].0 >= g2[open2[k].2 as int] + estimate(
        l,
        goal.0,
        open2[k].2 as int,
    ) by {
        assert(open2.contains(open2[k]));
        if open2[k] != entry {
            assert(open.contains(open2[k]));
            let m = choose|m: int| 0 <= m < open.len() && open[m] == open2[k];
            assert(open[m].2 < n);
        }
    }
    assert forall|s: int|
        0 <= s < n && s != state_id(start) && g2[s] < MAX_SCORE implies #[trigger] tree_ok(
        l,
        cost,
        start.0,
        goal.0,
        g2,
        from2,
        s,
    ) by {
        if s != t {
            assert(tree_ok(l, cost, start.0, goal.0, g, from, s));
        }
    }
    assert forall|s: int| 0 <= s < n && s != cur && g2[s] < MAX_SCORE implies #[trigger] is_fresh(
        open2,
        g2,
        l,
        goal.0,
        s,
    ) || settled(l, cost, start.0, goal.0, g2, s) by {
        if s != t {
            assert(is_fresh(open, g, l, goal.0, s) || settled(l, cost, start.0, goal.0, g, s));
            if !is_fresh(open, g, l, goal.0, s) {
                assert forall|u: int|
                    0 <= u < g2.len() && #[trigger] edge_ok(
                        l,
                        cost,
                        start.0,
                        goal.0,
                        s,
                        u,
                    ) implies g2[u] <= g2[s] + edge_cost(cost, s, u) by {
                    assert(g[u] <= g[s] + edge_cost(cost, s, u));
                }
            }
        }
    }
}

/// Once every step from the state `cur` has been tried, `cur` is settled.
proof fn lemma_settle<C: StepCost>(
    l: Lattice,
    cost: C,
    start: (GridPoint, Orientation),
    goal: (GridPoint, Orientation),
    g: Seq<i32>,
    from: Seq<u32>,
    open: Seq<(i64, u64, u32)>,
    cur: int,
)
    requires
        search_inv(l, cost, start, goal, g, from, open, cur),
        settled(l, cost, start.0, goal.0, g, cur),
    ensures
        search_inv(l, cost, start, goal, g, from, open, -1),
{
    let n = 2 * l.grid.size;
    assert forall|s: int| 0 <= s < n && s != -1 && g[s] < MAX_SCORE implies #[trigger] is_fresh(
        open,
        g,
        l,
        goal.0,
        s,
    ) || settled(l, cost, start.0, goal.0, g, s) by {
        if s != cur {
            assert(is_fresh(open, g, l, goal.0, s) || settled(l, cost, start.0, goal.0, g, s));
        }
    }
}

/// The steps of a route from its state `i` on cost nothing negative.
pub proof fn lemma_tail_cost_nonnegative<C: StepCost>(
    l: Lattice,
    cost: C,
    start: (GridPoint, Orientation),
    goal: (GridPoint, Orientation),
    path: Seq<(GridPoint, Orientation)>,
    i: int,
)
    requires
        cost_covers(l, cost),
        is_route(l, cost, start, goal, path),
        0 <= i,
    ensures
        tail_cost(cost, path, i) >= 0,
    decreases path.len() - i,
{
    if i < path.len() - 1 {
        lemma_tail_cost_nonnegative(l, cost, start, goal, path, i + 1);
        assert(link_is_step(l, cost, start.0, goal.0, path, i));
        lemma_step_bounds(l, cost, start.0, goal.0, path[i], path[i + 1]);
    }
}

/// When the frontier is empty, the score of every state of a route is no
/// more than what the route costs up to that state.
proof fn lemma_closed<C: StepCost>(
    l: Lattice,
    cost: C,
    start: (GridPoint, Orientation),
    goal: (GridPoint, Orientation),
    g: Seq<i32>,
    from: Seq<u32>,
    path: Seq<(GridPoint, Orientation)>,
    i: int,
)
    requires
        l.well_formed(),
        cost_covers(l, cost),
        pid(start.0) < l.grid.size,
        search_inv(l, cost, start, goal, g, from, Seq::<(i64, u64, u32)>::empty(), -1),
        is_route(l, cost, start, goal, path),
        route_cost(cost, path) < MAX_SCORE,
        0 <= i < path.len(),
    ensures
        0 <= state_id(path[i]) < g.len(),
        g[state_id(path[i])] + tail_cost(cost, path, i) <= route_cost(cost, path),
    decreases i,
{
    let open = Seq::<(i64, u64, u32)>::empty();
    if i > 0 {
        lemma_closed(l, cost, start, goal, g, from, path, i - 1);
        let a = path[i - 1];
        let b = path[i];
        let ia = state_id(a);
        let ib = state_id(b);
        assert(link_is_step(l, cost, start.0, goal.0, path, i - 1));
        lemma_tail_cost_nonnegative(l, cost, start, goal, path, i);
        lemma_step_bounds(l, cost, start.0, goal.0, a, b);
        lemma_state_numbers(a);
        lemma_state_numbers(b);
        lemma_neighbors_valid(l, a.0, a.1, b);
        assert(g[ia] < MAX_SCORE);
        assert(!is_fresh(open, g, l, goal.0, ia));
        assert(is_fresh(open, g, l, goal.0, ia) || settled(l, cost, start.0, goal.0, g, ia));
        assert(edge_ok(l, cost, start.0, goal.0, ia, ib));
    }
}

/// Bound on the insertion counter and the summed scores together.
pub const COUNTER_LIMIT: u64 = 0x400_0000_0000_0000;

/// The step from `cur` to the `k`-th listed neighbour, where the search may
/// take it, leaves the neighbour with no higher score than it gives.
pub open spec fn relaxed<C: StepCost>(
    l: Lattice,
    cost: C,
    start: GridPoint,
    end: GridPoint,
    g: Seq<i32>,
    cur: int,
    listed: Seq<(GridPoint, Orientation)>,
    k: int,
) -> bool {
    edge_ok(l, cost, start, end, cur, state_id(listed[k])) ==> g[state_id(listed[k])] <= g[cur]
        + edge_cost(cost, cur, state_id(listed[k]))
}

fn state_number(s: (GridPoint, Orientation)) -> (id: u32)
    requires
        pid(s.0) < MAX_RAW_POINTS,
    ensures
        id == state_id(s),
{
    let p = s.0;
    match s.1 {
        Orientation::Horizontal => 2 * p.0,
        Orientation::Vertical => 2 * p.0 + 1,
    }
}

fn state_from_number(id: u32) -> (s: (GridPoint, Orientation))
    ensures
        s == state_of(id as int),
{
    (GridPoint(id / 2), if id % 2 == 1 {
        Orientation::Vertical
    } else {
        Orientation::Horizontal
    })
}

fn heuristic(grid: &Grid, p: GridPoint, goal_x: usize, goal_y: usize) -> (h: i64)
    requires
        grid.well_formed(),
        pid(p) < grid.size,
        goal_x < grid.width,
        goal_y < grid.height,
    ensures
        h == grid_distance(grid.col(p), grid.row(p), goal_x as int, goal_y as int),
        0 <= h <= 2 * MAX_RAW_POINTS,
{
    proof {
        grid.lemma_dimensions();
        grid.lemma_point(p);
    }
    let x = p.0 as usize % grid.width;
    let y = p.0 as usize / grid.width;
    let dx = if x >= goal_x {
        x - goal_x
    } else {
        goal_x - x
    };
    let dy = if y >= goal_y {
        y - goal_y
    } else {
        goal_y - y
    };
    (dx + dy) as i64
}

/// Tries every step from the state `current`, in shuffled order, and lowers
/// the score of each state that a step reaches more cheaply than before.
fn expand<C: StepCost>(
    masked_grid: &MaskedGrid,
    cost_fn: &C,
    start: (GridPoint, Orientation),
    goal: (GridPoint, Orientation),
    goal_x: usize,
    goal_y: usize,
    current: u32,
    g_score: &mut Vec<i32>,
    came_from: &mut Vec<u32>,
    open_set: &mut Frontier,
    insert_counter: &mut u64,
    neighbors_buf: &mut Vec<(GridPoint, Orientation)>,
    rng: &mut StdRng,
)
    requires
        masked_grid.well_formed(),
        cost_covers(masked_grid.lattice(), *cost_fn),
        pid(goal.0) < masked_grid.grid.size,
        goal_x == masked_grid.grid.col(goal.0),
        goal_y == masked_grid.grid.row(goal.0),
        search_inv(
            masked_grid.lattice(),
            *cost_fn,
            start,
            goal,
            old(g_score)@,
            old(came_from)@,
            old(open_set).entries@,
            current as int,
        ),
        current < old(g_score).len(),
        old(g_score)[current as int] < MAX_SCORE,
        *old(insert_counter) + score_sum(old(g_score)@) <= COUNTER_LIMIT,
        old(open_set).well_formed(),
    ensures
        final(open_set).well_formed(),
        search_inv(
            masked_grid.lattice(),
            *cost_fn,
            start,
            goal,
            final(g_score)@,
            final(came_from)@,
            final(open_set).entries@,
            -1,
        ),
        *final(insert_counter) + score_sum(final(g_score)@) <= COUNTER_LIMIT,
        score_sum(final(g_score)@) < score_sum(old(g_score)@) || (score_sum(final(g_score)@)
            == score_sum(old(g_score)@) && final(open_set).entries@.len() == old(
            open_set,
        ).entries@.len()),
{
    let ghost l = masked_grid.lattice();
    let ghost cur = current as int;
    let ghost sum0 = score_sum(g_score@);
    let ghost len0 = open_set.entries@.len();
    proof {
        masked_grid.grid.lemma_dimensions();
        masked_grid.grid.lemma_point(goal.0);
        lemma_number_states(cur);
    }
    let cur_state = state_from_number(current);
    let cur_point = cur_state.0;
    let cur_orientation = cur_state.1;
    let current_g = g_score[current as usize];
    masked_grid.fill_neighbors(cur_point, cur_orientation, neighbors_buf);
    let ghost listed = neighbors_buf@;
    shuffle_states(neighbors_buf, rng);
    let ghost shuffled = neighbors_buf@;
    proof {
        assert forall|k: int| 0 <= k < shuffled.len() implies listed.contains(
            #[trigger] shuffled[k],
        ) by {
            vstd::seq_lib::to_multiset_contains(shuffled, shuffled[k]);
            vstd::seq_lib::to_multiset_contains(listed, shuffled[k]);
        }
    }
    let mut j: usize = 0;
    while j < neighbors_buf.len()
        invariant
            masked_grid.well_formed(),
            l == masked_grid.lattice(),
            cost_covers(l, *cost_fn),
            goal_x < masked_grid.grid.width,
            goal_y < masked_grid.grid.height,
            goal_x == masked_grid.grid.col(goal.0),
            goal_y == masked_grid.grid.row(goal.0),
            cur == current,
            cur < g_score.len(),
            g_score.len() == 2 * l.grid.size,
            l.grid.size <= MAX_RAW_POINTS,
            cur_state == state_of(cur),
            cur_point == cur_state.0,
            cur_orientation == cur_state.1,
            pid(cur_point) < l.grid.size,
            open_set.well_formed(),
            neighbors_buf@ == shuffled,
            listed == neighbors_at(l.grid, l.segment_mask, cur_point, cur_orientation),
            shuffled.to_multiset() == listed.to_multiset(),
            forall|k: int| 0 <= k < shuffled.len() ==> listed.contains(#[trigger] shuffled[k]),
            0 <= j <= shuffled.len(),
            search_inv(l, *cost_fn, start, goal, g_score@, came_from@, open_set.entries@, cur),
            g_score[cur] == current_g,
            current_g < MAX_SCORE,
            forall|k: int|
                0 <= k < j ==> #[trigger] relaxed(
                    l,
                    *cost_fn,
                    start.0,
                    goal.0,
                    g_score@,
                    cur,
                    shuffled,
                    k,
                ),
            *insert_counter + score_sum(g_score@) <= COUNTER_LIMIT,
            score_sum(g_score@) < sum0 || (score_sum(g_score@) == sum0 && open_set.entries@.len()
                == len0),
        decreases shuffled.len() - j,
    {
        let neighbor = neighbors_buf[j];
        let neighbor_point = neighbor.0;
        let neighbor_orientation = neighbor.1;
        let ghost g_before = g_score@;
        proof {
            assert(listed.contains(shuffled[j as int]));
            lemma_neighbors_valid(l, cur_point, cur_orientation, neighbor);
            lemma_state_numbers(neighbor);
            assert(cost_fn.covers(cur_point, neighbor_point, cur_orientation, neighbor_orientation));
        }
        let turn_on_terminal = neighbor_point == cur_point && (cur_point == start.0 || cur_point
            == goal.0);
        if !turn_on_terminal && masked_grid.point_mask[neighbor_point.0 as usize] {
            let step_cost = cost_fn.cost(
                cur_point,
                neighbor_point,
                cur_orientation,
                neighbor_orientation,
            );
            if step_cost < MAX_SCORE {
                proof {
                    cost_fn.lemma_cost_bounds(
                        cur_point,
                        neighbor_point,
                        cur_orientation,
                        neighbor_orientation,
                    );
                }
                let tentative_g = current_g + step_cost;
                let target = state_number(neighbor);
                if tentative_g < g_score[target as usize] {
                    let estimate = heuristic(masked_grid.grid, neighbor_point, goal_x, goal_y);
                    let f_score = tentative_g as i64 + estimate;
                    let ghost open_before = open_set.entries@;
                    let ghost from_before = came_from@;
                    proof {
                        lemma_score_sum_update(g_score@, target as int, tentative_g);
                        lemma_score_sum_bound(g_score@.update(target as int, tentative_g));
                    }
                    came_from[target as usize] = current;
                    g_score[target as usize] = tentative_g;
                    open_set.push(f_score, *insert_counter, target);
                    proof {
                        lemma_relax(
                            l,
                            *cost_fn,
                            start,
                            goal,
                            g_before,
                            from_before,
                            open_before,
                            open_set.entries@,
                            cur,
                            target as int,
                            tentative_g,
                            (f_score, *insert_counter, target),
                        );
                    }
                    *insert_counter = *insert_counter + 1;
                }
            }
        }
        proof {
            assert forall|k: int| 0 <= k < j + 1 implies #[trigger] relaxed(
                l,
                *cost_fn,
                start.0,
                goal.0,
                g_score@,
                cur,
                shuffled,
                k,
            ) by {
                if k < j {
                    assert(relaxed(l, *cost_fn, start.0, goal.0, g_before, cur, shuffled, k));
                    assert(listed.contains(shuffled[k]));
                    lemma_neighbors_valid(l, cur_point, cur_orientation, shuffled[k]);
                    assert(g_score@[state_id(shuffled[k])] <= g_before[state_id(shuffled[k])]);
                }
            }
        }
        j += 1;
    }
    proof {
        assert forall|t: int|
            0 <= t < g_score@.len() && #[trigger] edge_ok(
                l,
                *cost_fn,
                start.0,
                goal.0,
                cur,
                t,
            ) implies g_score@[t] <= g_score@[cur] + edge_cost(*cost_fn, cur, t) by {
            let target = state_of(t);
            lemma_number_states(t);
            assert(listed.contains(target));
            vstd::seq_lib::to_multiset_contains(shuffled, target);
            vstd::seq_lib::to_multiset_contains(listed, target);
            let k = choose|k: int| 0 <= k < shuffled.len() && shuffled[k] == target;
            assert(relaxed(l, *cost_fn, start.0, goal.0, g_score@, cur, shuffled, k));
        }
        lemma_settle(l, *cost_fn, start, goal, g_score@, came_from@, open_set.entries@, cur);
    }
}

/// The predecessor of the state `s` is a state on the same grid point.
pub open spec fn turned_into(from: Seq<u32>, s: int) -> bool {
    from[s] < from.len() && state_of(from[s] as int).0 == state_of(s).0
}

/// How far the state `s` is from the start along the predecessors, at most:
/// twice its score, and one more where its predecessor is a state on the
/// same grid point.
pub open spec fn rank(g: Seq<i32>, from: Seq<u32>, s: int) -> int {
    2 * g[s] + if turned_into(from, s) {
        1int
    } else {
        0int
    }
}

/// The predecessor of a state other than the start has a lower rank than
/// the state.
proof fn lemma_rank_falls<C: StepCost>(
    l: Lattice,
    cost: C,
    start: (GridPoint, Orientation),
    goal: (GridPoint, Orientation),
    g: Seq<i32>,
    from: Seq<u32>,
    s: int,
)
    requires
        l.well_formed(),
        cost_covers(l, cost),
        tree_inv(l, cost, start, goal, g, from),
        g.len() < NO_STATE,
        0 <= s < g.len(),
        s != state_id(start),
        g[s] < MAX_SCORE,
    ensures
        from[s] < g.len(),
        g[from[s] as int] < MAX_SCORE,
        0 <= rank(g, from, from[s] as int) < rank(g, from, s),
{
    let p = from[s] as int;
    assert(tree_ok(l, cost, start.0, goal.0, g, from, s));
    lemma_step_bounds(l, cost, start.0, goal.0, state_of(p), state_of(s));
    lemma_number_states(p);
    lemma_number_states(s);
    lemma_neighbors_valid(l, state_of(p).0, state_of(p).1, state_of(s));
    if state_of(p).0 == state_of(s).0 {
        assert(turned_into(from, s));
        if p != state_id(start) {
            let q = from[p] as int;
            assert(tree_ok(l, cost, start.0, goal.0, g, from, p));
            lemma_number_states(q);
            lemma_neighbors_valid(l, state_of(q).0, state_of(q).1, state_of(p));
            if state_of(q).0 == state_of(p).0 {
                assert(state_of(q).1 == state_of(p).1.flipped());
                assert(state_of(s).1 == state_of(p).1.flipped());
                assert(state_of(q) == state_of(s));
                assert(q == s);
            }
            assert(!turned_into(from, p));
        } else {
            assert(!turned_into(from, p));
        }
    }
}

/// The `k`-th state of a chain of predecessors has the next one as its
/// predecessor.
pub open spec fn chain_link(chain: Seq<int>, from: Seq<u32>, k: int) -> bool {
    0 <= chain[k] < from.len() && chain[k + 1] == from[chain[k]]
}

/// Writing a state in front of the state `i` of a path leaves the cost of
/// the path from `i` on as it was.
proof fn lemma_tail_cost_frame<C: StepCost>(
    cost: C,
    path: Seq<(GridPoint, Orientation)>,
    at: int,
    value: (GridPoint, Orientation),
    i: int,
)
    requires
        0 <= at < i,
        at < path.len(),
    ensures
        tail_cost(cost, path.update(at, value), i) == tail_cost(cost, path, i),
    decreases path.len() - i,
{
    if i < path.len() - 1 {
        lemma_tail_cost_frame(cost, path, at, value, i + 1);
    }
}

/// Walks the predecessors back from the goal and returns the states in the
/// order from start to goal.
fn reconstruct<C: StepCost>(
    masked_grid: &MaskedGrid,
    cost_fn: &C,
    start: (GridPoint, Orientation),
    goal: (GridPoint, Orientation),
    g_score: &Vec<i32>,
    came_from: &Vec<u32>,
) -> (path: Vec<(GridPoint, Orientation)>)
    requires
        masked_grid.well_formed(),
        cost_covers(masked_grid.lattice(), *cost_fn),
        pid(start.0) < masked_grid.grid.size,
        pid(goal.0) < masked_grid.grid.size,
        tree_inv(masked_grid.lattice(), *cost_fn, start, goal, g_score@, came_from@),
        g_score[state_id(goal)] < MAX_SCORE,
    ensures
        is_route(masked_grid.lattice(), *cost_fn, start, goal, path@),
        route_cost(*cost_fn, path@) <= g_score[state_id(goal)],
{
    let ghost l = masked_grid.lattice();
    let ghost g = g_score@;
    let ghost from = came_from@;
    proof {
        masked_grid.grid.lemma_dimensions();
        lemma_state_numbers(start);
        lemma_state_numbers(goal);
    }
    let goal_id = state_number(goal);
    let ghost start_id = state_id(start);
    let mut cursor: u32 = goal_id;
    let mut n: usize = 0;
    let ghost mut chain: Seq<int> = seq![goal_id as int];
    while came_from[cursor as usize] != NO_STATE
        invariant
            l == masked_grid.lattice(),
            l.well_formed(),
            cost_covers(l, *cost_fn),
            g == g_score@,
            from == came_from@,
            tree_inv(l, *cost_fn, start, goal, g, from),
            start_id == state_id(start),
            g.len() <= 2 * MAX_RAW_POINTS,
            cursor < g.len(),
            g[cursor as int] < MAX_SCORE,
            chain.len() == n + 1,
            chain[n as int] == cursor,
            chain[0] == goal_id,
            forall|k: int| 0 <= k < n ==> #[trigger] chain_link(chain, from, k),
            forall|k: int|
                0 <= k < n ==> (#[trigger] chain[k]) != start_id && g[chain[k]] < MAX_SCORE,
            n + rank(g, from, cursor as int) <= rank(g, from, goal_id as int),
        decreases rank(g, from, cursor as int),
    {
        let previous = came_from[cursor as usize];
        proof {
            assert(cursor != start_id);
            assert(tree_ok(l, *cost_fn, start.0, goal.0, g, from, cursor as int));
            lemma_rank_falls(l, *cost_fn, start, goal, g, from, cursor as int);
            let longer = chain.push(previous as int);
            assert forall|k: int| 0 <= k < n + 1 implies #[trigger] chain_link(longer, from, k) by {
                if k < n {
                    assert(chain_link(chain, from, k));
                }
            }
            chain = longer;
        }
        cursor = previous;
        n += 1;
    }
    proof {
        if cursor != start_id {
            assert(tree_ok(l, *cost_fn, start.0, goal.0, g, from, cursor as int));
        }
        assert(cursor == start_id);
    }
    let mut path: Vec<(GridPoint, Orientation)> = Vec::new();
    let mut filled: usize = 0;
    while filled <= n
        invariant
            filled <= n + 1,
            path.len() == filled,
            n <= 2 * MAX_SCORE + 1,
        decreases n + 1 - filled,
    {
        path.push(start);
        filled += 1;
    }
    let mut position: usize = n;
    cursor = goal_id;
    path[n] = goal;
    proof {
        lemma_number_states(goal_id as int);
    }
    while position > 0
        invariant
            l == masked_grid.lattice(),
            l.well_formed(),
            cost_covers(l, *cost_fn),
            g == g_score@,
            from == came_from@,
            tree_inv(l, *cost_fn, start, goal, g, from),
            start_id == state_id(start),
            g.len() <= 2 * MAX_RAW_POINTS,
            position <= n,
            path.len() == n + 1,
            chain.len() == n + 1,
            chain[n as int] == start_id,
            forall|k: int| 0 <= k < n ==> #[trigger] chain_link(chain, from, k),
            forall|k: int|
                0 <= k < n ==> (#[trigger] chain[k]) != start_id && g[chain[k]] < MAX_SCORE,
            cursor == chain[n - position],
            cursor < g.len(),
            path[position as int] == state_of(cursor as int),
            path[n as int] == goal,
            forall|i: int|
                position <= i < n ==> #[trigger] link_is_step(
                    l,
                    *cost_fn,
                    start.0,
                    goal.0,
                    path@,
                    i,
                ),
            tail_cost(*cost_fn, path@, position as int) + g[cursor as int] <= g[goal_id as int],
        decreases position,
    {
        let ghost before = path@;
        let ghost k = n - position;
        proof {
            assert(chain_link(chain, from, k));
            assert(chain[k] != start_id);
            assert(tree_ok(l, *cost_fn, start.0, goal.0, g, from, cursor as int));
        }
        let previous = came_from[cursor as usize];
        position -= 1;
        let state = state_from_number(previous);
        path[position] = state;
        proof {
            let after = path@;
            assert(after == before.update(position as int, state));
            lemma_tail_cost_frame(*cost_fn, before, position as int, state, position as int + 1);
            assert(after[position as int + 1] == state_of(cursor as int));
            assert(link_is_step(l, *cost_fn, start.0, goal.0, after, position as int));
            assert forall|i: int| position <= i < n implies #[trigger] link_is_step(
                l,
                *cost_fn,
                start.0,
                goal.0,
                after,
                i,
            ) by {
                if i > position {
                    assert(link_is_step(l, *cost_fn, start.0, goal.0, before, i));
                }
            }
        }
        cursor = previous;
    }
    proof {
        lemma_number_states(start_id);
        assert(path@[0] == start);
        assert(path@.last() == goal);
    }
    path
}

/// Searches the masked grid for a cheapest-first path from the start state
/// to the goal state.
///
/// The search fails with `IndexOutOfBounds` where a grid point lies outside
/// the grid, with `EndpointBlocked` where one is masked, and with
/// `GoalNotFound` where no path of steps leads from start to goal at a cost
/// below `MAX_SCORE`. Otherwise it returns such a path. Among the steps from
/// a state, the order in which they are tried is drawn from `rng`.
pub fn route_visibility_astar<C: StepCost>(
    masked_grid: &MaskedGrid,
    start_grid_point: GridPoint,
    end_grid_point: GridPoint,
    start_orientation: Orientation,
    end_orientation: Orientation,
    rng: &mut StdRng,
    cost_fn: &C,
) -> (r: Result<Vec<(GridPoint, Orientation)>, RouteError>)
    requires
        masked_grid.well_formed(),
        cost_covers(masked_grid.lattice(), *cost_fn),
    ensures
        search_outcome(
            masked_grid.lattice(),
            *cost_fn,
            (start_grid_point, start_orientation),
            (end_grid_point, end_orientation),
            r,
        ),
{
    let ghost l = masked_grid.lattice();
    let start = (start_grid_point, start_orientation);
    let goal = (end_grid_point, end_orientation);
    proof {
        masked_grid.grid.lemma_dimensions();
    }
    let size = masked_grid.point_mask.len();
    if start_grid_point.0 as usize >= size || end_grid_point.0 as usize >= size {
        return Err(RouteError::IndexOutOfBounds);
    }
    if !masked_grid.point_mask[start_grid_point.0 as usize]
        || !masked_grid.point_mask[end_grid_point.0 as usize] {
        return Err(RouteError::EndpointBlocked);
    }
    if start_grid_point == end_grid_point && start_orientation == end_orientation {
        let mut single: Vec<(GridPoint, Orientation)> = Vec::new();
        single.push(start);
        proof {
            assert(is_route(l, *cost_fn, start, goal, single@));
            assert(route_cost(*cost_fn, single@) == 0);
            assert forall|other: Seq<(GridPoint, Orientation)>| #[trigger]
                is_route(l, *cost_fn, start, goal, other) implies 0 <= route_cost(
                *cost_fn,
                other,
            ) by {
                lemma_tail_cost_nonnegative(l, *cost_fn, start, goal, other, 0);
            }
        }
        return Ok(single);
    }
    let goal_coords = match masked_grid.grid.grid_point_to_grid_coords(end_grid_point) {
        Some(c) => c,
        None => {
            return Err(RouteError::IndexOutOfBounds);
        },
    };
    let goal_x = goal_coords.0;
    let goal_y = goal_coords.1;

    let states = 2 * size;
    let mut g_score: Vec<i32> = Vec::new();
    let mut came_from: Vec<u32> = Vec::new();
    let mut filled: usize = 0;
    while filled < states
        invariant
            filled <= states,
            g_score.len() == filled,
            came_from.len() == filled,
            forall|s: int| 0 <= s < filled ==> #[trigger] g_score[s] == MAX_SCORE,
            forall|s: int| 0 <= s < filled ==> #[trigger] came_from[s] == NO_STATE,
        decreases states - filled,
    {
        g_score.push(MAX_SCORE);
        came_from.push(NO_STATE);
        filled += 1;
    }
    proof {
        lemma_state_numbers(start);
        lemma_state_numbers(goal);
    }
    let start_id = state_number(start);
    let goal_id = state_number(goal);
    let mut open_set = Frontier::new();
    let mut insert_counter: u64 = 0;
    proof {
        lemma_score_sum_bound(g_score@);
        lemma_score_sum_update(g_score@, start_id as int, 0);
        assert(g_score@.len() * MAX_SCORE <= 0x1000_0000 * 0x1FFF_FFFF) by (nonlinear_arith)
            requires
                g_score@.len() <= 0x1000_0000,
        ;
    }
    g_score[start_id as usize] = 0;
    let start_f = heuristic(masked_grid.grid, start_grid_point, goal_x, goal_y);
    open_set.push(start_f, insert_counter, start_id);
    insert_counter = insert_counter + 1;
    proof {
        let open = open_set.entries@;
        Seq::<(i64, u64, u32)>::empty().to_multiset_ensures();
        vstd::seq_lib::to_multiset_contains(open, (start_f, 0u64, start_id));
        assert(open.contains((start_f, 0u64, start_id)));
        assert(open[0] == (start_f, 0u64, start_id));
        assert(in_open(open, start_id as int));
        assert(is_fresh(open, g_score@, l, goal.0, start_id as int));
        assert(search_inv(l, *cost_fn, start, goal, g_score@, came_from@, open, -1));
    }
    let mut neighbors_buf: Vec<(GridPoint, Orientation)> = Vec::new();

    while open_set.len() > 0
        invariant
            masked_grid.well_formed(),
            l == masked_grid.lattice(),
            cost_covers(l, *cost_fn),
            start == (start_grid_point, start_orientation),
            goal == (end_grid_point, end_orientation),
            start != goal,
            pid(start.0) < l.grid.size,
            pid(goal.0) < l.grid.size,
            l.point_mask[pid(start.0)],
            l.point_mask[pid(goal.0)],
            goal_x == masked_grid.grid.col(goal.0),
            goal_y == masked_grid.grid.row(goal.0),
            goal_id == state_id(goal),
            open_set.well_formed(),
            search_inv(l, *cost_fn, start, goal, g_score@, came_from@, open_set.entries@, -1),
            insert_counter + score_sum(g_score@) <= COUNTER_LIMIT,
        decreases score_sum(g_score@), open_set.entries@.len(),
    {
        let ghost open_before = open_set.entries@;
        let entry = open_set.pop_best().unwrap();
        let current = entry.2;
        proof {
            assert(open_before.contains(entry));
            vstd::seq_lib::to_multiset_contains(open_before, entry);
            assert(open_before.to_multiset() =~= open_set.entries@.to_multiset().insert(entry));
            if current != goal_id {
                lemma_pop(
                    l,
                    *cost_fn,
                    start,
                    goal,
                    g_score@,
                    came_from@,
                    open_before,
                    open_set.entries@,
                    entry,
                );
            }
            lemma_score_sum_bound(g_score@);
        }
        if current == goal_id {
            let path = reconstruct(
                masked_grid,
                cost_fn,
                start,
                goal,
                &g_score,
                &came_from,
            );
            proof {
                assert(is_route(l, *cost_fn, start, goal, path@));
                assert(reachable(l, *cost_fn, start, goal));
                assert forall|other: Seq<(GridPoint, Orientation)>| #[trigger]
                    is_route(l, *cost_fn, start, goal, other) implies route_cost(*cost_fn, path@)
                    <= route_cost(*cost_fn, other) by {
                    if route_cost(*cost_fn, other) < MAX_SCORE {
                        lemma_goal_score_is_least(
                            l,
                            *cost_fn,
                            start,
                            goal,
                            g_score@,
                            came_from@,
                            open_before,
                            entry,
                            other,
                        );
                    }
                }
            }
            return Ok(path);
        }
        expand(
            masked_grid,
            cost_fn,
            start,
            goal,
            goal_x,
            goal_y,
            current,
            &mut g_score,
            &mut came_from,
            &mut open_set,
            &mut insert_counter,
            &mut neighbors_buf,
            rng,
        );
        proof {
            lemma_score_sum_bound(g_score@);
        }
    }
    proof {
        assert(open_set.entries@ =~= Seq::<(i64, u64, u32)>::empty());
        assert(!in_open(open_set.entries@, goal_id as int));
        if reachable(l, *cost_fn, start, goal) {
            let path = choose|path: Seq<(GridPoint, Orientation)>| #[trigger]
                is_route(l, *cost_fn, start, goal, path) && route_cost(*cost_fn, path) < MAX_SCORE;
            lemma_closed(l, *cost_fn, start, goal, g_score@, came_from@, path, path.len() - 1);
        }
    }
    Err(RouteError::GoalNotFound)
}

/// What a search returns: the failure that the arguments call for, or a
/// path from start to goal by steps of the search at a cost below
/// `MAX_SCORE`, which no other such path undercuts; a start that is the
/// goal gives the path of that one state.
pub open spec fn search_outcome<C: StepCost>(
    l: Lattice,
    cost: C,
    start: (GridPoint, Orientation),
    goal: (GridPoint, Orientation),
    r: Result<Vec<(GridPoint, Orientation)>, RouteError>,
) -> bool {
    let outside = pid(start.0) >= l.grid.size || pid(goal.0) >= l.grid.size;
    let blocked = !outside && (!l.point_mask[pid(start.0)] || !l.point_mask[pid(goal.0)]);
    let found = !outside && !blocked && reachable(l, cost, start, goal);
    &&& outside <==> r == Err::<Vec<(GridPoint, Orientation)>, RouteError>(
        RouteError::IndexOutOfBounds,
    )
    &&& blocked <==> r == Err::<Vec<(GridPoint, Orientation)>, RouteError>(
        RouteError::EndpointBlocked,
    )
    &&& !outside && !blocked && !found <==> r == Err::<Vec<(GridPoint, Orientation)>, RouteError>(
        RouteError::GoalNotFound,
    )
    &&& found <==> r is Ok
    &&& r is Ok ==> is_route(l, cost, start, goal, r.unwrap()@) && route_cost(cost, r.unwrap()@)
        < MAX_SCORE
    &&& r is Ok ==> is_cheapest(l, cost, start, goal, r.unwrap()@)
    &&& r is Ok && start == goal ==> r.unwrap()@ == seq![start]
}

/// A route of the search from a usable grid point is a route that the
/// masked grid allows.
pub proof fn lemma_route_is_grid_route<C: StepCost>(
    l: Lattice,
    cost: C,
    start: (GridPoint, Orientation),
    goal: (GridPoint, Orientation),
    path: Seq<(GridPoint, Orientation)>,
)
    requires
        is_route(l, cost, start, goal, path),
        pid(start.0) < l.grid.size,
        l.point_mask[pid(start.0)],
    ensures
        is_grid_route(l, start, goal, path),
{
    assert forall|i: int| 0 <= i < path.len() - 1 implies #[trigger] link_is_grid_step(
        l,
        start.0,
        goal.0,
        path,
        i,
    ) by {
        assert(link_is_step(l, cost, start.0, goal.0, path, i));
    }
}

/// The distance in grid steps from a state of a route to the goal is no
/// more than what the rest of the route costs.
pub proof fn lemma_estimate_admissible<C: StepCost>(
    l: Lattice,
    cost: C,
    start: (GridPoint, Orientation),
    goal: (GridPoint, Orientation),
    path: Seq<(GridPoint, Orientation)>,
    k: int,
)
    requires
        l.well_formed(),
        cost_covers(l, cost),
        pid(goal.0) < l.grid.size,
        is_route(l, cost, start, goal, path),
        0 <= k < path.len(),
    ensures
        estimate(l, goal.0, state_id(path[k])) <= tail_cost(cost, path, k),
    decreases path.len() - k,
{
    lemma_state_numbers(path[k]);
    l.grid.lemma_point(goal.0);
    if k < path.len() - 1 {
        lemma_estimate_admissible(l, cost, start, goal, path, k + 1);
        lemma_state_numbers(path[k + 1]);
        assert(link_is_step(l, cost, start.0, goal.0, path, k));
        lemma_step_bounds(l, cost, start.0, goal.0, path[k], path[k + 1]);
        lemma_neighbors_valid(l, path[k].0, path[k].1, path[k + 1]);
        l.grid.lemma_point(path[k].0);
        l.grid.lemma_point(path[k + 1].0);
    }
}

/// Along a route that costs less than `MAX_SCORE`, up to its state `k`:
/// either the frontier holds a fresh entry for a state whose score is no
/// more than what the route costs up to it, or the state `k` itself has
/// such a score.
proof fn lemma_frontier_on_route<C: StepCost>(
    l: Lattice,
    cost: C,
    start: (GridPoint, Orientation),
    goal: (GridPoint, Orientation),
    g: Seq<i32>,
    from: Seq<u32>,
    open: Seq<(i64, u64, u32)>,
    path: Seq<(GridPoint, Orientation)>,
    k: int,
)
    requires
        l.well_formed(),
        cost_covers(l, cost),
        pid(start.0) < l.grid.size,
        search_inv(l, cost, start, goal, g, from, open, -1),
        is_route(l, cost, start, goal, path),
        route_cost(cost, path) < MAX_SCORE,
        0 <= k < path.len(),
    ensures
        0 <= state_id(path[k]) < g.len(),
        (exists|j: int|
            0 <= j <= k && #[trigger] is_fresh(open, g, l, goal.0, state_id(path[j])) && 0
                <= state_id(path[j]) < g.len() && g[state_id(path[j])] + tail_cost(cost, path, j)
                <= route_cost(cost, path)) || g[state_id(path[k])] + tail_cost(cost, path, k)
            <= route_cost(cost, path),
    decreases k,
{
    lemma_state_numbers(path[k]);
    if k > 0 {
        lemma_frontier_on_route(l, cost, start, goal, g, from, open, path, k - 1);
        let a = path[k - 1];
        let b = path[k];
        let ia = state_id(a);
        let ib = state_id(b);
        assert(link_is_step(l, cost, start.0, goal.0, path, k - 1));
        lemma_state_numbers(a);
        lemma_neighbors_valid(l, a.0, a.1, b);
        if exists|j: int|
            0 <= j <= k - 1 && #[trigger] is_fresh(open, g, l, goal.0, state_id(path[j])) && 0
                <= state_id(path[j]) < g.len() && g[state_id(path[j])] + tail_cost(cost, path, j)
                <= route_cost(cost, path) {
            let j = choose|j: int|
                0 <= j <= k - 1 && #[trigger] is_fresh(open, g, l, goal.0, state_id(path[j])) && 0
                    <= state_id(path[j]) < g.len() && g[state_id(path[j])] + tail_cost(
                    cost,
                    path,
                    j,
                ) <= route_cost(cost, path);
            assert(is_fresh(open, g, l, goal.0, state_id(path[j])));
        } else {
            lemma_tail_cost_nonnegative(l, cost, start, goal, path, k - 1);
            lemma_tail_cost_nonnegative(l, cost, start, goal, path, k);
            assert(g[ia] < MAX_SCORE);
            assert(is_fresh(open, g, l, goal.0, ia) || settled(l, cost, start.0, goal.0, g, ia));
            if is_fresh(open, g, l, goal.0, ia) {
                assert(is_fresh(open, g, l, goal.0, state_id(path[k - 1])));
            } else {
                assert(edge_ok(l, cost, start.0, goal.0, ia, ib));
            }
        }
    }
}

/// When the entry that leaves the frontier first is one of the goal, the
/// score of the goal is no more than what any route costs.
proof fn lemma_goal_score_is_least<C: StepCost>(
    l: Lattice,
    cost: C,
    start: (GridPoint, Orientation),
    goal: (GridPoint, Orientation),
    g: Seq<i32>,
    from: Seq<u32>,
    open: Seq<(i64, u64, u32)>,
    best: (i64, u64, u32),
    path: Seq<(GridPoint, Orientation)>,
)
    requires
        l.well_formed(),
        cost_covers(l, cost),
        pid(start.0) < l.grid.size,
        pid(goal.0) < l.grid.size,
        search_inv(l, cost, start, goal, g, from, open, -1),
        open.contains(best),
        best.2 == state_id(goal),
        forall|k: int| 0 <= k < open.len() ==> leaves_first(best, #[trigger] open[k]),
        is_route(l, cost, start, goal, path),
        route_cost(cost, path) < MAX_SCORE,
    ensures
        g[state_id(goal)] <= route_cost(cost, path),
{
    let last = path.len() - 1;
    lemma_frontier_on_route(l, cost, start, goal, g, from, open, path, last);
    lemma_state_numbers(goal);
    l.grid.lemma_point(goal.0);
    let at = choose|at: int| 0 <= at < open.len() && open[at] == best;
    assert(open[at].0 >= g[open[at].2 as int] + estimate(l, goal.0, open[at].2 as int));
    assert(estimate(l, goal.0, state_id(goal)) == 0);
    if exists|j: int|
        0 <= j <= last && #[trigger] is_fresh(open, g, l, goal.0, state_id(path[j])) && 0
            <= state_id(path[j]) < g.len() && g[state_id(path[j])] + tail_cost(cost, path, j)
            <= route_cost(cost, path) {
        let j = choose|j: int|
            0 <= j <= last && #[trigger] is_fresh(open, g, l, goal.0, state_id(path[j])) && 0
                <= state_id(path[j]) < g.len() && g[state_id(path[j])] + tail_cost(cost, path, j)
                <= route_cost(cost, path);
        let s = state_id(path[j]);
        let m = choose|m: int|
            0 <= m < open.len() && (#[trigger] open[m]).2 == s && open[m].0 == g[s] + estimate(
                l,
                goal.0,
                s,
            );
        lemma_estimate_admissible(l, cost, start, goal, path, j);
        assert(leaves_first(best, open[m]));
    }
}

} // verus!
