//! The steps of negotiated routing: the order in which edges are routed,
//! the overflow of segments and corners, the history of past overflow, and
//! the choice of the edges to rip up.

use vstd::prelude::*;
use rand::rngs::StdRng;
use crate::geometry::{DirectedPoint, PlacedRectangularNode, Point};
use crate::grid::{lower, nodes_well_formed, upper, Grid, GridPoint};
use crate::path::{corners_of, segments_of, PathWithEndpoints, RoutingConfig};
use crate::random::random_in_range;
use crate::raw_area::{
    horizontal_run, lemma_horizontal_segment_index, lemma_index_point, lemma_point_index,
    lemma_vertical_segment_index, vertical_run, RawArea, RawPoint, MAX_RAW_POINTS,
    MAX_SEGMENT_VALUE,
};
use crate::cost::{columns_rise, rows_rise};
use crate::usage::indices_below;
use crate::table::{key_code, PathTable};
use crate::usage::{remove_usage, usage_removed};

verus! {

/// Largest accumulated obstacle area that the difficulty of an edge takes
/// note of.
pub const OBSTACLE_CAP: i128 = 0x10_0000_0000_0000_0000_0000_0000;

/// Most noise that is added to the difficulty of an edge.
pub const MAX_NOISE: i32 = 10;

/// The part of a node that lies inside a box.
pub open spec fn clipped_area(
    node: PlacedRectangularNode,
    min_x: int,
    max_x: int,
    min_y: int,
    max_y: int,
) -> int {
    if node.left() <= max_x && node.right() >= min_x && node.top() <= max_y && node.bottom()
        >= min_y {
        upper(lower(node.right(), max_x) - upper(node.left(), min_x), 0) * upper(
            lower(node.bottom(), max_y) - upper(node.top(), min_y),
            0,
        )
    } else {
        0
    }
}

/// The summed area of the parts of the nodes that lie inside a box, capped
/// at `OBSTACLE_CAP`.
pub open spec fn obstacle_area(
    nodes: Seq<PlacedRectangularNode>,
    min_x: int,
    max_x: int,
    min_y: int,
    max_y: int,
) -> int
    decreases nodes.len(),
{
    if nodes.len() == 0 {
        0
    } else {
        lower(
            obstacle_area(nodes.drop_last(), min_x, max_x, min_y, max_y) + clipped_area(
                nodes.last(),
                min_x,
                max_x,
                min_y,
                max_y,
            ),
            OBSTACLE_CAP as int,
        )
    }
}

/// 200 times the obstacle area over the area of the box, rounded to the
/// nearest whole number, and no more than `i32::MAX`.
pub open spec fn obstacle_share(obstacle: int, bbox: int) -> int {
    lower((400 * obstacle + bbox) / (2 * bbox), i32::MAX as int)
}

/// How hard an edge is to route: the negated sum of the distance between
/// its endpoints, along rows and columns, and the share of the box between
/// them that nodes take up. A box without area counts the distance alone.
pub open spec fn difficulty(start: Point, end: Point, nodes: Seq<PlacedRectangularNode>) -> int {
    let min_x = lower(start.x as int, end.x as int);
    let max_x = upper(start.x as int, end.x as int);
    let min_y = lower(start.y as int, end.y as int);
    let max_y = upper(start.y as int, end.y as int);
    let span = (max_x - min_x) + (max_y - min_y);
    let bbox = (max_x - min_x) * (max_y - min_y);
    if bbox == 0 {
        -span
    } else {
        -(span + obstacle_share(obstacle_area(nodes, min_x, max_x, min_y, max_y), bbox))
    }
}

/// How hard an edge is to route; the lower, the harder.
pub fn edge_difficulty(start: &DirectedPoint, end: &DirectedPoint, nodes: &Vec<PlacedRectangularNode>) -> (d:
    i64)
    requires
        start.position().in_range(),
        end.position().in_range(),
        nodes_well_formed(nodes@),
    ensures
        d == difficulty(start.position(), end.position(), nodes@),
        -0x1_0000_0000 <= d <= 0,
{
    let min_x: i64 = if start.x < end.x {
        start.x as i64
    } else {
        end.x as i64
    };
    let max_x: i64 = if start.x > end.x {
        start.x as i64
    } else {
        end.x as i64
    };
    let min_y: i64 = if start.y < end.y {
        start.y as i64
    } else {
        end.y as i64
    };
    let max_y: i64 = if start.y > end.y {
        start.y as i64
    } else {
        end.y as i64
    };
    let span: i64 = (max_x - min_x) + (max_y - min_y);
    assert(0 <= (max_x - min_x) * (max_y - min_y) <= 0x2000_0000 * 0x2000_0000) by (nonlinear_arith)
        requires
            0 <= max_x - min_x <= 0x2000_0000,
            0 <= max_y - min_y <= 0x2000_0000,
    ;
    let total_area: i64 = (max_x - min_x) * (max_y - min_y);
    if total_area == 0 {
        return -span;
    }
    let mut obstacle: i128 = 0;
    let mut i: usize = 0;
    while i < nodes.len()
        invariant
            nodes_well_formed(nodes@),
            i <= nodes.len(),
            -0x1000_0000 <= min_x <= max_x <= 0x1000_0000,
            -0x1000_0000 <= min_y <= max_y <= 0x1000_0000,
            0 <= obstacle <= OBSTACLE_CAP,
            obstacle == obstacle_area(
                nodes@.subrange(0, i as int),
                min_x as int,
                max_x as int,
                min_y as int,
                max_y as int,
            ),
        decreases nodes.len() - i,
    {
        proof {
            assert(nodes@.subrange(0, i as int + 1).drop_last() =~= nodes@.subrange(0, i as int));
            assert(nodes@.subrange(0, i as int + 1).last() == nodes@[i as int]);
            assert(nodes@[i as int].well_formed());
        }
        let node_tl = nodes[i].top_left();
        let node_br = nodes[i].bottom_right();
        let mut added: i128 = 0;
        if node_tl.x as i64 <= max_x && node_br.x as i64 >= min_x && node_tl.y as i64 <= max_y
            && node_br.y as i64 >= min_y {
            let right: i64 = if (node_br.x as i64) < max_x {
                node_br.x as i64
            } else {
                max_x
            };
            let left: i64 = if node_tl.x as i64 > min_x {
                node_tl.x as i64
            } else {
                min_x
            };
            let bottom: i64 = if (node_br.y as i64) < max_y {
                node_br.y as i64
            } else {
                max_y
            };
            let top: i64 = if node_tl.y as i64 > min_y {
                node_tl.y as i64
            } else {
                min_y
            };
            let width: i64 = if right - left > 0 {
                right - left
            } else {
                0
            };
            let height: i64 = if bottom - top > 0 {
                bottom - top
            } else {
                0
            };
            assert(0 <= width * height <= 0x2000_0000 * 0x2000_0000) by (nonlinear_arith)
                requires
                    0 <= width <= 0x2000_0000,
                    0 <= height <= 0x2000_0000,
            ;
            added = (width * height) as i128;
        }
        obstacle = if obstacle + added < OBSTACLE_CAP {
            obstacle + added
        } else {
            OBSTACLE_CAP
        };
        i += 1;
    }
    proof {
        assert(nodes@.subrange(0, nodes.len() as int) =~= nodes@);
    }
    proof {
        vstd::arithmetic::div_mod::lemma_div_pos_is_pos(
            400 * obstacle + total_area,
            2 * total_area,
        );
    }
    let share: i128 = (400 * obstacle + total_area as i128) / (2 * total_area as i128);
    let capped: i64 = if share < i32::MAX as i128 {
        share as i64
    } else {
        i32::MAX as i64
    };
    -(span + capped)
}

/// The request to route one edge: the handles of its two nodes, its
/// directed start and end point, and how to treat it.
pub type EdgeRequest = (usize, usize, DirectedPoint, DirectedPoint, RoutingConfig);

/// Every endpoint of the batch lies within the accepted coordinate range.
pub open spec fn requests_in_range(edges: Seq<EdgeRequest>) -> bool {
    forall|i: int|
        0 <= i < edges.len() ==> (#[trigger] edges[i]).2.position().in_range()
            && edges[i].3.position().in_range()
}

/// Each score is the difficulty of its edge plus a noise of at most
/// `MAX_NOISE`.
pub open spec fn scores_fit(
    edges: Seq<EdgeRequest>,
    nodes: Seq<PlacedRectangularNode>,
    scores: Seq<i64>,
) -> bool {
    &&& scores.len() == edges.len()
    &&& forall|i: int|
        0 <= i < edges.len() ==> 0 <= #[trigger] scores[i] - difficulty(
            edges[i].2.position(),
            edges[i].3.position(),
            nodes,
        ) <= MAX_NOISE
}

/// The edge at position `a` is routed before the edge at position `b`: its
/// score is lower, or the same and it comes first in the batch.
pub open spec fn comes_before(scores: Seq<i64>, a: int, b: int) -> bool {
    scores[a] < scores[b] || (scores[a] == scores[b] && a < b)
}

/// `order` lists the positions of the batch by rising score, equal scores
/// in the order of the batch.
pub open spec fn is_score_order(scores: Seq<i64>, order: Seq<usize>) -> bool {
    &&& order.len() == scores.len()
    &&& forall|k: int| 0 <= k < order.len() ==> #[trigger] order[k] < scores.len()
    &&& forall|i: usize| i < scores.len() ==> #[trigger] order.contains(i)
    &&& forall|a: int, b: int|
        0 <= a < b < order.len() ==> #[trigger] comes_before(
            scores,
            order[a] as int,
            order[b] as int,
        )
}

/// The positions of the batch by rising score, equal scores in the order of
/// the batch.
pub fn score_order(scores: &Vec<i64>) -> (order: Vec<usize>)
    ensures
        is_score_order(scores@, order@),
{
    let mut order: Vec<usize> = Vec::new();
    let mut i: usize = 0;
    while i < scores.len()
        invariant
            i <= scores.len(),
            order.len() == i,
            forall|k: int| 0 <= k < order.len() ==> #[trigger] order[k] < i,
            forall|j: usize| j < i ==> #[trigger] order@.contains(j),
            forall|a: int, b: int|
                0 <= a < b < order.len() ==> #[trigger] comes_before(
                    scores@,
                    order[a] as int,
                    order[b] as int,
                ),
        decreases scores.len() - i,
    {
        let score = scores[i];
        let mut p: usize = 0;
        while p < order.len() && scores[order[p]] <= score
            invariant
                i < scores.len(),
                score == scores[i as int],
                p <= order.len(),
                order.len() == i,
                forall|k: int| 0 <= k < order.len() ==> #[trigger] order[k] < i,
                forall|k: int| 0 <= k < p ==> scores[#[trigger] order[k] as int] <= score,
            decreases order.len() - p,
        {
            p += 1;
        }
        let ghost before = order@;
        order.insert(p, i);
        proof {
            let after = order@;
            assert forall|a: int, b: int| 0 <= a < b < after.len() implies #[trigger] comes_before(
                scores@,
                after[a] as int,
                after[b] as int,
            ) by {
                if b < p {
                    assert(after[a] == before[a] && after[b] == before[b]);
                    assert(comes_before(scores@, before[a] as int, before[b] as int));
                } else if b == p {
                    assert(after[a] == before[a]);
                    assert(scores@[before[a] as int] <= score);
                } else if a < p {
                    assert(after[a] == before[a] && after[b] == before[b - 1]);
                    assert(comes_before(scores@, before[a] as int, before[b - 1] as int));
                } else if a == p {
                    assert(after[b] == before[b - 1]);
                    if b - 1 > p {
                        assert(comes_before(scores@, before[p as int] as int, before[b - 1] as int));
                    }
                } else {
                    assert(after[a] == before[a - 1] && after[b] == before[b - 1]);
                    assert(comes_before(scores@, before[a - 1] as int, before[b - 1] as int));
                }
            }
            assert forall|k: int| 0 <= k < after.len() implies #[trigger] after[k] < i + 1 by {
                if k < p {
                    assert(after[k] == before[k]);
                } else if k > p {
                    assert(after[k] == before[k - 1]);
                }
            }
            assert forall|j: usize| j < i + 1 implies #[trigger] after.contains(j) by {
                if j < i {
                    assert(before.contains(j));
                    let k = choose|k: int| 0 <= k < before.len() && before[k] == j;
                    if k < p {
                        assert(after[k] == j);
                    } else {
                        assert(after[k + 1] == j);
                    }
                } else {
                    assert(after[p as int] == j);
                }
            }
        }
        i += 1;
    }
    order
}

/// `out` holds the edges of the batch in the order of their scores.
pub open spec fn is_ordered_by(edges: Seq<EdgeRequest>, scores: Seq<i64>, out: Seq<EdgeRequest>) -> bool {
    exists|order: Seq<usize>| #[trigger]
        is_score_order(scores, order) && out == Seq::new(
            edges.len(),
            |k: int| edges[order[k] as int],
        )
}

/// The edges of the batch in the order of their scores.
pub fn order_by_scores(edges: &Vec<EdgeRequest>, scores: &Vec<i64>) -> (out: Vec<EdgeRequest>)
    requires
        scores.len() == edges.len(),
    ensures
        is_ordered_by(edges@, scores@, out@),
        out.len() == edges.len(),
        forall|k: int| 0 <= k < out.len() ==> edges@.contains(#[trigger] out[k]),
        forall|j: int| 0 <= j < edges.len() ==> out@.contains(#[trigger] edges[j]),
{
    let order = score_order(scores);
    let mut out: Vec<EdgeRequest> = Vec::new();
    let mut k: usize = 0;
    while k < order.len()
        invariant
            is_score_order(scores@, order@),
            scores.len() == edges.len(),
            k <= order.len(),
            out.len() == k,
            forall|j: int| 0 <= j < k ==> #[trigger] out[j] == edges[order[j] as int],
        decreases order.len() - k,
    {
        out.push(edges[order[k]]);
        k += 1;
    }
    proof {
        assert(out@ =~= Seq::new(edges@.len(), |k: int| edges[order[k] as int]));
        assert forall|k: int| 0 <= k < out.len() implies edges@.contains(#[trigger] out[k]) by {
            assert(out[k] == edges[order[k] as int]);
        }
        assert forall|j: int| 0 <= j < edges.len() implies out@.contains(#[trigger] edges[j]) by {
            assert(order@.contains(j as usize));
            let k = choose|k: int| 0 <= k < order.len() && order[k] == j as usize;
            assert(out[k] == edges[j]);
        }
    }
    out
}

/// Scores for the edges of a batch: the difficulty of each edge plus a
/// noise drawn from `rng`.
pub fn draw_scores(edges: &Vec<EdgeRequest>, nodes: &Vec<PlacedRectangularNode>, rng: &mut StdRng) -> (scores:
    Vec<i64>)
    requires
        requests_in_range(edges@),
        nodes_well_formed(nodes@),
    ensures
        scores_fit(edges@, nodes@, scores@),
{
    let mut scores: Vec<i64> = Vec::new();
    let mut i: usize = 0;
    while i < edges.len()
        invariant
            requests_in_range(edges@),
            nodes_well_formed(nodes@),
            i <= edges.len(),
            scores.len() == i,
            forall|k: int|
                0 <= k < i ==> 0 <= #[trigger] scores[k] - difficulty(
                    edges[k].2.position(),
                    edges[k].3.position(),
                    nodes@,
                ) <= MAX_NOISE,
        decreases edges.len() - i,
    {
        let edge = edges[i];
        let start = edge.2;
        let end = edge.3;
        assert(edges@[i as int].2.position().in_range());
        let noise = random_in_range(rng, 0, MAX_NOISE);
        let score = edge_difficulty(&start, &end, nodes) + noise as i64;
        scores.push(score);
        i += 1;
    }
    scores
}

/// The edges of a batch, the hardest first. To the difficulty of each edge
/// a noise drawn from `rng` is added before the edges are ordered.
pub fn order_edges_by_difficulty(
    edges: &Vec<EdgeRequest>,
    nodes: &Vec<PlacedRectangularNode>,
    rng: &mut StdRng,
) -> (out: Vec<EdgeRequest>)
    requires
        requests_in_range(edges@),
        nodes_well_formed(nodes@),
    ensures
        exists|scores: Seq<i64>| #[trigger]
            scores_fit(edges@, nodes@, scores) && is_ordered_by(edges@, scores, out@),
        out.len() == edges.len(),
        forall|k: int| 0 <= k < out.len() ==> edges@.contains(#[trigger] out[k]),
        forall|j: int| 0 <= j < edges.len() ==> out@.contains(#[trigger] edges[j]),
{
    let scores = draw_scores(edges, nodes, rng);
    order_by_scores(edges, &scores)
}

/// The grid points at which edges of the batch start or end.
pub fn start_end_grid_points(grid: &Grid, edges: &Vec<EdgeRequest>) -> (out: Vec<GridPoint>)
    requires
        grid.well_formed(),
    ensures
        forall|p: GridPoint|
            out@.contains(p) <==> exists|i: int|
                0 <= i < edges.len() && ((grid.on_grid((#[trigger] edges[i]).2.position())
                    && grid.grid_point_at(edges[i].2.position()) == p) || (grid.on_grid(
                    edges[i].3.position(),
                ) && grid.grid_point_at(edges[i].3.position()) == p)),
{
    let mut out: Vec<GridPoint> = Vec::new();
    let mut i: usize = 0;
    while i < edges.len()
        invariant
            grid.well_formed(),
            i <= edges.len(),
            forall|p: GridPoint|
                out@.contains(p) <==> exists|k: int|
                    0 <= k < i && ((grid.on_grid((#[trigger] edges[k]).2.position())
                        && grid.grid_point_at(edges[k].2.position()) == p) || (grid.on_grid(
                        edges[k].3.position(),
                    ) && grid.grid_point_at(edges[k].3.position()) == p)),
        decreases edges.len() - i,
    {
        let edge = edges[i];
        let ghost before = out@;
        let start_point = edge.2.as_point();
        let end_point = edge.3.as_point();
        let start_index = grid.point_to_grid_point(&start_point);
        match start_index {
            Some(p) => {
                out.push(p);
            },
            None => {},
        }
        let ghost middle = out@;
        let end_index = grid.point_to_grid_point(&end_point);
        match end_index {
            Some(p) => {
                out.push(p);
            },
            None => {},
        }
        proof {
            let after = out@;
            assert forall|p: GridPoint|
                after.contains(p) <==> exists|k: int|
                    0 <= k < i + 1 && ((grid.on_grid((#[trigger] edges[k]).2.position())
                        && grid.grid_point_at(edges[k].2.position()) == p) || (grid.on_grid(
                        edges[k].3.position(),
                    ) && grid.grid_point_at(edges[k].3.position()) == p)) by {
                let here = (grid.on_grid(edges[i as int].2.position()) && grid.grid_point_at(
                    edges[i as int].2.position(),
                ) == p) || (grid.on_grid(edges[i as int].3.position()) && grid.grid_point_at(
                    edges[i as int].3.position(),
                ) == p);
                if after.contains(p) {
                    let k = choose|k: int| 0 <= k < after.len() && after[k] == p;
                    if k < before.len() {
                        assert(before[k] == p);
                        assert(before.contains(p));
                    } else {
                        assert(here);
                    }
                }
                if before.contains(p) {
                    let k = choose|k: int| 0 <= k < before.len() && before[k] == p;
                    assert(after[k] == p);
                }
                if here {
                    if grid.on_grid(edges[i as int].2.position()) && grid.grid_point_at(
                        edges[i as int].2.position(),
                    ) == p {
                        assert(middle[before.len() as int] == p);
                        assert(after[before.len() as int] == p);
                    } else {
                        assert(after[after.len() - 1] == p);
                    }
                }
            }
        }
        i += 1;
    }
    out
}

/// By how much a usage is beyond a capacity.
pub open spec fn excess(usage: i32, capacity: i32) -> int {
    if usage > capacity {
        usage - capacity
    } else {
        0
    }
}

/// The summed excess of all usages beyond a capacity.
pub open spec fn overflow_of(usage: Seq<i32>, capacity: i32) -> int
    decreases usage.len(),
{
    if usage.len() == 0 {
        0
    } else {
        overflow_of(usage.drop_last(), capacity) + excess(usage.last(), capacity)
    }
}

fn overflow_sum(usage: &Vec<i32>, capacity: i32) -> (total: i64)
    requires
        usage.len() <= 2 * MAX_RAW_POINTS,
    ensures
        total == overflow_of(usage@, capacity),
        0 <= total <= usage.len() * 0x1_0000_0000,
{
    let mut total: i64 = 0;
    let mut i: usize = 0;
    while i < usage.len()
        invariant
            usage.len() <= 2 * MAX_RAW_POINTS,
            i <= usage.len(),
            total == overflow_of(usage@.subrange(0, i as int), capacity),
            0 <= total <= i * 0x1_0000_0000,
        decreases usage.len() - i,
    {
        proof {
            assert(usage@.subrange(0, i as int + 1).drop_last() =~= usage@.subrange(0, i as int));
        }
        let value = usage[i];
        if value > capacity {
            total = total + (value as i64 - capacity as i64);
        }
        i += 1;
    }
    proof {
        assert(usage@.subrange(0, usage.len() as int) =~= usage@);
    }
    total
}

/// The overflow of a routing pass: in total, of the segments, and of the
/// corners.
pub fn compute_overflow(
    raw_usage: &Vec<i32>,
    raw_corner_usage: &Vec<i32>,
    capacity: i32,
    corner_capacity: i32,
) -> (r: (i64, i64, i64))
    requires
        raw_usage.len() <= 2 * MAX_RAW_POINTS,
        raw_corner_usage.len() <= 2 * MAX_RAW_POINTS,
    ensures
        r.1 == overflow_of(raw_usage@, capacity),
        r.2 == overflow_of(raw_corner_usage@, corner_capacity),
        r.0 == r.1 + r.2,
{
    let edge_overflow = overflow_sum(raw_usage, capacity);
    let corner_overflow = overflow_sum(raw_corner_usage, corner_capacity);
    (edge_overflow + corner_overflow, edge_overflow, corner_overflow)
}

/// Every history lies between 0 and `bound`.
pub open spec fn history_within(history: Seq<i64>, bound: int) -> bool {
    forall|i: int| 0 <= i < history.len() ==> 0 <= #[trigger] history[i] <= bound
}

fn update_history_cost(usage: &Vec<i32>, history: &mut Vec<i64>, capacity: i32)
    requires
        usage.len() == old(history).len(),
        history_within(old(history)@, MAX_SEGMENT_VALUE - 0x1_0000_0000),
    ensures
        final(history).len() == old(history).len(),
        forall|i: int|
            0 <= i < usage.len() ==> #[trigger] final(history)[i] == old(history)[i] + excess(
                usage[i],
                capacity,
            ),
{
    let ghost before = history@;
    let mut i: usize = 0;
    while i < usage.len()
        invariant
            i <= usage.len(),
            usage.len() == history.len(),
            before.len() == history.len(),
            history_within(before, MAX_SEGMENT_VALUE - 0x1_0000_0000),
            forall|k: int|
                0 <= k < i ==> #[trigger] history[k] == before[k] + excess(usage[k], capacity),
            forall|k: int| i <= k < usage.len() ==> #[trigger] history[k] == before[k],
        decreases usage.len() - i,
    {
        let value = usage[i];
        if value > capacity {
            let grown = history[i] + (value as i64 - capacity as i64);
            history[i] = grown;
        }
        i += 1;
    }
}

/// Adds to the history cost of every raw segment by how much its usage is
/// beyond the capacity.
pub fn update_edge_history_cost(raw_usage: &Vec<i32>, raw_history_cost: &mut Vec<i64>, capacity: i32)
    requires
        raw_usage.len() == old(raw_history_cost).len(),
        history_within(old(raw_history_cost)@, MAX_SEGMENT_VALUE - 0x1_0000_0000),
    ensures
        final(raw_history_cost).len() == old(raw_history_cost).len(),
        forall|i: int|
            0 <= i < raw_usage.len() ==> #[trigger] final(raw_history_cost)[i] == old(
                raw_history_cost,
            )[i] + excess(raw_usage[i], capacity),
{
    update_history_cost(raw_usage, raw_history_cost, capacity);
}

/// Adds to the history of every raw corner by how much its usage is beyond
/// the capacity.
pub fn update_corner_history_cost(
    raw_corner_usage: &Vec<i32>,
    raw_corner_history: &mut Vec<i64>,
    corner_capacity: i32,
)
    requires
        raw_corner_usage.len() == old(raw_corner_history).len(),
        history_within(old(raw_corner_history)@, MAX_SEGMENT_VALUE - 0x1_0000_0000),
    ensures
        final(raw_corner_history).len() == old(raw_corner_history).len(),
        forall|i: int|
            0 <= i < raw_corner_usage.len() ==> #[trigger] final(raw_corner_history)[i] == old(
                raw_corner_history,
            )[i] + excess(raw_corner_usage[i], corner_capacity),
{
    update_history_cost(raw_corner_usage, raw_corner_history, corner_capacity);
}

/// Sets the present cost of every raw segment to 1 plus `lambda` times the
/// excess of its usage beyond the capacity.
pub fn refresh_present_cost(raw_usage: &Vec<i32>, raw_cost: &mut Vec<i64>, capacity: i32, lambda: i64)
    requires
        raw_usage.len() == old(raw_cost).len(),
        0 <= lambda <= 7,
    ensures
        final(raw_cost).len() == old(raw_cost).len(),
        forall|i: int|
            0 <= i < raw_usage.len() ==> #[trigger] final(raw_cost)[i] == 1 + lambda * excess(
                raw_usage[i],
                capacity,
            ),
        forall|i: int|
            0 <= i < raw_usage.len() ==> 1 <= #[trigger] final(raw_cost)[i] <= MAX_SEGMENT_VALUE,
{
    let mut i: usize = 0;
    while i < raw_usage.len()
        invariant
            i <= raw_usage.len(),
            raw_usage.len() == raw_cost.len(),
            0 <= lambda <= 7,
            forall|k: int|
                0 <= k < i ==> #[trigger] raw_cost[k] == 1 + lambda * excess(
                    raw_usage[k],
                    capacity,
                ),
            forall|k: int| 0 <= k < i ==> 1 <= #[trigger] raw_cost[k] <= MAX_SEGMENT_VALUE,
        decreases raw_usage.len() - i,
    {
        let usage = raw_usage[i];
        let overflow: i64 = if usage > capacity {
            usage as i64 - capacity as i64
        } else {
            0
        };
        assert(0 <= lambda * overflow <= 7 * 0x1_0000_0000) by (nonlinear_arith)
            requires
                0 <= lambda <= 7,
                0 <= overflow <= 0x1_0000_0000,
        ;
        raw_cost[i] = 1 + lambda * overflow;
        i += 1;
    }
}

/// Prefix sums over values that are all at least `low` rise by at least
/// `low` per unit step, along rows and along columns.
pub proof fn lemma_prefix_rises(
    area: RawArea,
    values: Seq<i64>,
    prefix_x: Seq<i64>,
    prefix_y: Seq<i64>,
    low: int,
)
    requires
        area.well_formed(),
        values.len() == area.spec_num_segments(),
        forall|s: int| 0 <= s < values.len() ==> low <= #[trigger] values[s],
        prefix_x.len() == area.spec_size(),
        prefix_y.len() == area.spec_size(),
        forall|i: int|
            0 <= i < area.spec_size() ==> #[trigger] prefix_x[i] == horizontal_run(
                values,
                area.spec_width(),
                i / area.spec_width(),
                0,
                i % area.spec_width(),
            ),
        forall|i: int|
            0 <= i < area.spec_size() ==> #[trigger] prefix_y[i] == vertical_run(
                values,
                area.spec_width(),
                area.spec_height(),
                i % area.spec_width(),
                0,
                i / area.spec_width(),
            ),
    ensures
        rows_rise(prefix_x, area.spec_width(), low),
        columns_rise(prefix_y, area.spec_width(), low),
{
    let w = area.spec_width();
    let h = area.spec_height();
    area.lemma_dimensions();
    assert forall|i: int| 0 <= i && i + 1 < prefix_x.len() && (i + 1) % w != 0 implies #[trigger] prefix_x[i]
        + low <= prefix_x[i + 1] by {
        lemma_index_point(w, h, i);
        lemma_index_point(w, h, i + 1);
        let x = i % w;
        let y = i / w;
        if x + 1 < w {
            lemma_point_index(w, h, x + 1, y);
            lemma_horizontal_segment_index(w, h, x, y);
        } else {
            assert((y + 1) * w == y * w + w) by (nonlinear_arith);
            vstd::arithmetic::div_mod::lemma_fundamental_div_mod_converse(i + 1, w, y + 1, 0);
        }
    }
    assert forall|i: int| 0 <= i && i + w < prefix_y.len() implies #[trigger] prefix_y[i] + low
        <= prefix_y[i + w] by {
        lemma_index_point(w, h, i);
        let x = i % w;
        let y = i / w;
        assert((y + 1) * w == y * w + w) by (nonlinear_arith);
        if y + 1 < h {
            lemma_point_index(w, h, x, y + 1);
            lemma_vertical_segment_index(w, h, x, y);
        } else {
            assert(y * w + w == w * h) by (nonlinear_arith)
                requires
                    y + 1 == h,
            ;
        }
    }
}

/// Some listed index has a usage beyond the capacity.
pub open spec fn any_over(usage: Seq<i32>, indices: Seq<usize>, capacity: i32) -> bool {
    exists|k: int| 0 <= k < indices.len() && usage[#[trigger] indices[k] as int] > capacity
}

fn any_index_over(usage: &Vec<i32>, indices: &Vec<usize>, capacity: i32) -> (r: bool)
    requires
        indices_below(indices@, usage.len() as int),
    ensures
        r == any_over(usage@, indices@, capacity),
{
    let mut i: usize = 0;
    while i < indices.len()
        invariant
            indices_below(indices@, usage.len() as int),
            i <= indices.len(),
            forall|k: int| 0 <= k < i ==> usage[#[trigger] indices[k] as int] <= capacity,
        decreases indices.len() - i,
    {
        if usage[indices[i]] > capacity {
            return true;
        }
        i += 1;
    }
    false
}

/// A raw segment or a corner of the path is in use beyond its capacity.
pub open spec fn path_overflows(
    path: PathWithEndpoints,
    area: RawArea,
    usage: Seq<i32>,
    corner_usage: Seq<i32>,
    capacity: i32,
    corner_capacity: i32,
) -> bool {
    any_over(usage, segments_of(path.path.points@, area), capacity) || any_over(
        corner_usage,
        corners_of(path.path.points@, area),
        corner_capacity,
    )
}

/// Whether a raw segment or a corner of the path is in use beyond its
/// capacity.
pub fn edge_path_has_overflow(
    path: &PathWithEndpoints,
    raw_area: &RawArea,
    raw_usage: &Vec<i32>,
    raw_corner_usage: &Vec<i32>,
    capacity: i32,
    corner_capacity: i32,
) -> (r: bool)
    requires
        raw_area.well_formed(),
        raw_usage.len() == raw_area.spec_num_segments(),
        raw_corner_usage.len() == raw_area.spec_size(),
    ensures
        r == path_overflows(
            *path,
            *raw_area,
            raw_usage@,
            raw_corner_usage@,
            capacity,
            corner_capacity,
        ),
{
    let segments = path.segments(raw_area);
    if any_index_over(raw_usage, &segments.indices, capacity) {
        return true;
    }
    let corners = path.corners(raw_area);
    any_index_over(raw_corner_usage, &corners.indices, corner_capacity)
}

/// The pair of raw points under which the path of an edge is stored.
pub open spec fn edge_key(area: RawArea, edge: EdgeRequest) -> (RawPoint, RawPoint) {
    (
        RawPoint(area.index_of(edge.2.position()) as u32),
        RawPoint(area.index_of(edge.3.position()) as u32),
    )
}

/// Both endpoints of every edge lie inside the raw area.
pub open spec fn requests_inside(area: RawArea, edges: Seq<EdgeRequest>) -> bool {
    forall|i: int|
        0 <= i < edges.len() ==> area.contains((#[trigger] edges[i]).2.position())
            && area.contains(edges[i].3.position())
}

/// The edge has a stored path, and a raw segment or a corner of that path
/// is in use beyond its capacity.
pub open spec fn must_rip(
    edge: EdgeRequest,
    table: Map<u64, PathWithEndpoints>,
    area: RawArea,
    usage: Seq<i32>,
    corner_usage: Seq<i32>,
    capacity: i32,
    corner_capacity: i32,
) -> bool {
    table.contains_key(key_code(edge_key(area, edge))) && path_overflows(
        table[key_code(edge_key(area, edge))],
        area,
        usage,
        corner_usage,
        capacity,
        corner_capacity,
    )
}

fn request_key(raw_area: &RawArea, edge: &EdgeRequest) -> (key: (RawPoint, RawPoint))
    requires
        raw_area.well_formed(),
        raw_area.contains(edge.2.position()),
        raw_area.contains(edge.3.position()),
    ensures
        key == edge_key(*raw_area, *edge),
{
    let start_point = edge.2.as_point();
    let end_point = edge.3.as_point();
    let start_raw_point = raw_area.point_to_raw_point(&start_point).unwrap();
    let end_raw_point = raw_area.point_to_raw_point(&end_point).unwrap();
    (start_raw_point, end_raw_point)
}

/// The edges of `sorted` that must be ripped up, in the order of `sorted`.
pub open spec fn rip_selection(
    sorted: Seq<EdgeRequest>,
    table: Map<u64, PathWithEndpoints>,
    area: RawArea,
    usage: Seq<i32>,
    corner_usage: Seq<i32>,
    capacity: i32,
    corner_capacity: i32,
) -> Seq<EdgeRequest> {
    sorted.filter(
        |e: EdgeRequest| must_rip(e, table, area, usage, corner_usage, capacity, corner_capacity),
    )
}

/// The edges whose stored path passes a raw segment or a corner that is in
/// use beyond its capacity, in the order given.
pub fn select_edges_to_rip(
    sorted_edges: &Vec<EdgeRequest>,
    result_paths: &PathTable,
    raw_area: &RawArea,
    raw_usage: &Vec<i32>,
    raw_corner_usage: &Vec<i32>,
    capacity: i32,
    corner_capacity: i32,
) -> (to_rip: Vec<EdgeRequest>)
    requires
        raw_area.well_formed(),
        requests_inside(*raw_area, sorted_edges@),
        raw_usage.len() == raw_area.spec_num_segments(),
        raw_corner_usage.len() == raw_area.spec_size(),
    ensures
        to_rip@ == rip_selection(
            sorted_edges@,
            result_paths@,
            *raw_area,
            raw_usage@,
            raw_corner_usage@,
            capacity,
            corner_capacity,
        ),
        forall|k: int| 0 <= k < to_rip.len() ==> sorted_edges@.contains(#[trigger] to_rip[k]),
{
    let mut to_rip: Vec<EdgeRequest> = Vec::new();
    let ghost wanted = |e: EdgeRequest|
        must_rip(
            e,
            result_paths@,
            *raw_area,
            raw_usage@,
            raw_corner_usage@,
            capacity,
            corner_capacity,
        );
    let mut i: usize = 0;
    while i < sorted_edges.len()
        invariant
            raw_area.well_formed(),
            requests_inside(*raw_area, sorted_edges@),
            raw_usage.len() == raw_area.spec_num_segments(),
            raw_corner_usage.len() == raw_area.spec_size(),
            i <= sorted_edges.len(),
            wanted == (|e: EdgeRequest|
                must_rip(
                    e,
                    result_paths@,
                    *raw_area,
                    raw_usage@,
                    raw_corner_usage@,
                    capacity,
                    corner_capacity,
                )),
            to_rip@ == sorted_edges@.subrange(0, i as int).filter(wanted),
            forall|k: int| 0 <= k < to_rip.len() ==> sorted_edges@.contains(#[trigger] to_rip[k]),
        decreases sorted_edges.len() - i,
    {
        let edge = sorted_edges[i];
        proof {
            let before = sorted_edges@.subrange(0, i as int);
            assert(sorted_edges@.subrange(0, i as int + 1) =~= before.push(edge));
            before.lemma_filter_push(edge, wanted);
            assert(raw_area.contains(sorted_edges@[i as int].2.position()));
        }
        let key = request_key(raw_area, &edge);
        match result_paths.get(key) {
            Some(routed_path) => {
                if edge_path_has_overflow(
                    routed_path,
                    raw_area,
                    raw_usage,
                    raw_corner_usage,
                    capacity,
                    corner_capacity,
                ) {
                    to_rip.push(edge);
                }
            },
            None => {},
        }
        i += 1;
    }
    proof {
        assert(sorted_edges@.subrange(0, sorted_edges.len() as int) =~= sorted_edges@);
    }
    to_rip
}

/// The usage of the raw segments after the stored paths of the edges have
/// been taken off it, one edge after the other.
pub open spec fn ripped_usage(
    usage: Seq<i32>,
    edges: Seq<EdgeRequest>,
    table: Map<u64, PathWithEndpoints>,
    area: RawArea,
) -> Seq<i32>
    decreases edges.len(),
{
    if edges.len() == 0 {
        usage
    } else {
        let rest = ripped_usage(usage, edges.drop_last(), table, area);
        let code = key_code(edge_key(area, edges.last()));
        if table.contains_key(code) {
            usage_removed(rest, segments_of(table[code].path.points@, area))
        } else {
            rest
        }
    }
}

/// The usage of the raw corners after the stored paths of the edges have
/// been taken off it, one edge after the other.
pub open spec fn ripped_corner_usage(
    usage: Seq<i32>,
    edges: Seq<EdgeRequest>,
    table: Map<u64, PathWithEndpoints>,
    area: RawArea,
) -> Seq<i32>
    decreases edges.len(),
{
    if edges.len() == 0 {
        usage
    } else {
        let rest = ripped_corner_usage(usage, edges.drop_last(), table, area);
        let code = key_code(edge_key(area, edges.last()));
        if table.contains_key(code) {
            usage_removed(rest, corners_of(table[code].path.points@, area))
        } else {
            rest
        }
    }
}

/// Takes the stored paths of the edges off the usage and returns the edges
/// for the next pass.
pub fn rip_up_and_queue(
    to_rip: &Vec<EdgeRequest>,
    result_paths: &PathTable,
    raw_area: &RawArea,
    raw_usage: &mut Vec<i32>,
    raw_corner_usage: &mut Vec<i32>,
) -> (op_edges: Vec<EdgeRequest>)
    requires
        raw_area.well_formed(),
        requests_inside(*raw_area, to_rip@),
        old(raw_usage).len() == raw_area.spec_num_segments(),
        old(raw_corner_usage).len() == raw_area.spec_size(),
    ensures
        op_edges@ == to_rip@,
        final(raw_usage).len() == old(raw_usage).len(),
        final(raw_corner_usage).len() == old(raw_corner_usage).len(),
        final(raw_usage)@ == ripped_usage(old(raw_usage)@, to_rip@, result_paths@, *raw_area),
        final(raw_corner_usage)@ == ripped_corner_usage(
            old(raw_corner_usage)@,
            to_rip@,
            result_paths@,
            *raw_area,
        ),
{
    let mut op_edges: Vec<EdgeRequest> = Vec::new();
    let ghost usage0 = raw_usage@;
    let ghost corners0 = raw_corner_usage@;
    let mut i: usize = 0;
    while i < to_rip.len()
        invariant
            raw_area.well_formed(),
            requests_inside(*raw_area, to_rip@),
            raw_usage.len() == raw_area.spec_num_segments(),
            raw_corner_usage.len() == raw_area.spec_size(),
            usage0.len() == raw_usage.len(),
            corners0.len() == raw_corner_usage.len(),
            i <= to_rip.len(),
            op_edges@ == to_rip@.subrange(0, i as int),
            raw_usage@ == ripped_usage(usage0, to_rip@.subrange(0, i as int), result_paths@, *raw_area),
            raw_corner_usage@ == ripped_corner_usage(
                corners0,
                to_rip@.subrange(0, i as int),
                result_paths@,
                *raw_area,
            ),
        decreases to_rip.len() - i,
    {
        let edge = to_rip[i];
        proof {
            assert(to_rip@.subrange(0, i as int + 1).drop_last() =~= to_rip@.subrange(0, i as int));
            assert(to_rip@.subrange(0, i as int + 1).last() == edge);
            assert(raw_area.contains(to_rip@[i as int].2.position()));
        }
        let key = request_key(raw_area, &edge);
        match result_paths.get(key) {
            Some(routed_path) => {
                let segments = routed_path.segments(raw_area);
                remove_usage(raw_usage, &segments.indices);
                let corners = routed_path.corners(raw_area);
                remove_usage(raw_corner_usage, &corners.indices);
            },
            None => {},
        }
        op_edges.push(edge);
        proof {
            assert(op_edges@ =~= to_rip@.subrange(0, i as int + 1));
        }
        i += 1;
    }
    proof {
        assert(to_rip@.subrange(0, to_rip.len() as int) =~= to_rip@);
    }
    op_edges
}

} // verus!
