//! A record of a routing call for inspection: the grid with its masks, and
//! for every pass what was routed, what overflowed and what was ripped up.

use vstd::prelude::*;
use crate::astar::Lattice;
use crate::geometry::{DirectedPoint, PlacedRectangularNode, Point, Size};
use crate::grid::{Grid, GridPoint};
use crate::masked_grid::MaskedGrid;
use crate::path::{directed_points_of, PathWithEndpoints};
use crate::raw_area::{lemma_point_index, RawArea};
use crate::ripup::{
    edge_key, edge_path_has_overflow, path_overflows, requests_inside, EdgeRequest,
};
use crate::table::{key_code, PathTable};

verus! {

/// A grid point as the record shows it.
#[derive(Clone, Copy, Debug, PartialEq, Eq, Structural)]
pub struct GridPointTrace {
    /// Packed index of the grid point.
    pub index: usize,
    /// Where it lies in the plane.
    pub raw: Point,
    /// Whether it is masked.
    pub blocked: bool,
    /// Whether a masked grid segment ends at it.
    pub masked_adjacent: bool,
}

/// A placed node as the record shows it.
#[derive(Clone, Copy, Debug, PartialEq, Eq, Structural)]
pub struct NodeTrace {
    pub id: usize,
    pub center: Point,
    pub size: Size,
    pub top_left: Point,
    pub bottom_right: Point,
}

/// The path of one edge as the record shows it.
#[derive(Clone, Debug, PartialEq)]
pub struct RoutedEdgeTrace {
    /// The raw points of the edge's endpoints.
    pub start_raw_index: u32,
    pub end_raw_index: u32,
    pub start: DirectedPoint,
    pub end: DirectedPoint,
    /// The corner points of the path.
    pub raw_path: Vec<Point>,
    /// The path, one directed point per unit step.
    pub directed_path: Vec<DirectedPoint>,
    /// Whether the path passes a segment or corner in use beyond capacity.
    pub overflow: bool,
}

/// One pass of routing as the record shows it.
#[derive(Clone, Debug, PartialEq)]
pub struct IterationTrace {
    pub iteration: usize,
    /// The edges routed in this pass, in the order routed, each with the
    /// path stored for it after the pass.
    pub routed_edges: Vec<RoutedEdgeTrace>,
    /// The paths of all edges of the batch after the pass.
    pub all_paths: Vec<RoutedEdgeTrace>,
    /// The endpoints of the edges that the next pass routes again.
    pub ripped_up_next: Vec<(DirectedPoint, DirectedPoint)>,
    pub raw_usage: Vec<i32>,
    pub raw_corner_usage: Vec<i32>,
    pub total_overflow: i64,
    pub edge_overflow: i64,
    pub corner_overflow: i64,
}

/// The record of a routing call.
#[derive(Clone, Debug, PartialEq)]
pub struct RoutingTrace {
    pub nodes: Vec<NodeTrace>,
    pub grid_points: Vec<GridPointTrace>,
    pub raw_area: RawArea,
    pub iterations: Vec<IterationTrace>,
}

/// One of the first `count` grid segments is masked and ends at the grid
/// point `p`.
pub open spec fn touches_masked(l: Lattice, p: int, count: int) -> bool {
    exists|s: int|
        0 <= s < count && !#[trigger] l.segment_mask[s] && (l.grid.segment_from(s) == p
            || l.grid.segment_to(s) == p)
}

/// The two ends of a grid segment as packed grid points.
pub fn segment_ends(grid: &Grid, segment: usize) -> (r: (usize, usize))
    requires
        grid.well_formed(),
        segment < grid.num_segments,
    ensures
        r.0 == grid.segment_from(segment as int),
        r.1 == grid.segment_to(segment as int),
        r.0 < grid.size,
        r.1 < grid.size,
{
    proof {
        grid.lemma_dimensions();
        grid.lemma_segment(segment as int);
        crate::raw_area::lemma_segment_count_bound(grid.width as int, grid.height as int);
    }
    let w = grid.width;
    let h = grid.height;
    assert((w - 1) * h <= w * h) by (nonlinear_arith)
        requires
            1 <= w,
            1 <= h,
    ;
    let horizontal = (w - 1) * h;
    if segment < horizontal {
        let x = segment % (w - 1);
        let y = segment / (w - 1);
        proof {
            lemma_point_index(w as int, h as int, x as int, y as int);
        }
        let from = y * w + x;
        (from, from + 1)
    } else {
        let rest = segment - horizontal;
        let x = rest / (h - 1);
        let y = rest % (h - 1);
        proof {
            lemma_point_index(w as int, h as int, x as int, y as int);
            lemma_point_index(w as int, h as int, x as int, y as int + 1);
            assert((y + 1) * w == y * w + w) by (nonlinear_arith);
        }
        let from = y * w + x;
        (from, from + w)
    }
}

/// The record shows the grid points of the masked grid and the placed
/// nodes with their handles: every grid point with its place, whether it
/// is masked and whether a masked grid segment ends at it, and every node
/// with its handle, centre, size and corners.
pub open spec fn layout_shown(
    l: Lattice,
    placed: Seq<(usize, PlacedRectangularNode)>,
    grid_points: Seq<GridPointTrace>,
    nodes: Seq<NodeTrace>,
) -> bool {
    &&& grid_points.len() == l.grid.size
    &&& forall|p: int|
        0 <= p < l.grid.size ==> (#[trigger] grid_points[p]) == (GridPointTrace {
            index: p as usize,
            raw: l.grid.point_of(GridPoint(p as u32)),
            blocked: !l.point_mask[p],
            masked_adjacent: touches_masked(l, p, l.grid.num_segments as int),
        })
    &&& nodes.len() == placed.len()
    &&& forall|i: int|
        0 <= i < placed.len() ==> (#[trigger] nodes[i]) == (NodeTrace {
            id: placed[i].0,
            center: placed[i].1.center,
            size: placed[i].1.node.size,
            top_left: Point { x: placed[i].1.left() as i32, y: placed[i].1.top() as i32 },
            bottom_right: Point { x: placed[i].1.right() as i32, y: placed[i].1.bottom() as i32 },
        })
}

/// The grid points and the nodes of a routing call as the record shows
/// them.
pub fn build_trace_layout_data(
    grid: &Grid,
    masked_grid: &MaskedGrid,
    placed_nodes: &Vec<(usize, PlacedRectangularNode)>,
) -> (r: (Vec<GridPointTrace>, Vec<NodeTrace>))
    requires
        masked_grid.well_formed(),
        *masked_grid.grid == *grid,
        forall|i: int| 0 <= i < placed_nodes.len() ==> (#[trigger] placed_nodes[i]).1.well_formed(),
    ensures
        layout_shown(masked_grid.lattice(), placed_nodes@, r.0@, r.1@),
        r.0.len() == grid.size,
        forall|p: int|
            0 <= p < grid.size ==> (#[trigger] r.0[p]) == (GridPointTrace {
                index: p as usize,
                raw: grid.point_of(GridPoint(p as u32)),
                blocked: !masked_grid.point_mask[p],
                masked_adjacent: touches_masked(masked_grid.lattice(), p, grid.num_segments as int),
            }),
        r.1.len() == placed_nodes.len(),
        forall|i: int|
            0 <= i < placed_nodes.len() ==> (#[trigger] r.1[i]) == (NodeTrace {
                id: placed_nodes[i].0,
                center: placed_nodes[i].1.center,
                size: placed_nodes[i].1.node.size,
                top_left: Point {
                    x: placed_nodes[i].1.left() as i32,
                    y: placed_nodes[i].1.top() as i32,
                },
                bottom_right: Point {
                    x: placed_nodes[i].1.right() as i32,
                    y: placed_nodes[i].1.bottom() as i32,
                },
            }),
{
    let ghost l = masked_grid.lattice();
    proof {
        grid.lemma_dimensions();
    }
    let mut masked_adjacent: Vec<bool> = Vec::new();
    let mut n: usize = 0;
    while n < grid.size
        invariant
            n <= grid.size,
            masked_adjacent.len() == n,
            forall|p: int| 0 <= p < n ==> !#[trigger] masked_adjacent[p],
        decreases grid.size - n,
    {
        masked_adjacent.push(false);
        n += 1;
    }
    let mut s: usize = 0;
    while s < grid.num_segments
        invariant
            masked_grid.well_formed(),
            *masked_grid.grid == *grid,
            l == masked_grid.lattice(),
            s <= grid.num_segments,
            masked_adjacent.len() == grid.size,
            forall|p: int|
                0 <= p < grid.size ==> #[trigger] masked_adjacent[p] == touches_masked(
                    l,
                    p,
                    s as int,
                ),
        decreases grid.num_segments - s,
    {
        let ghost before = masked_adjacent@;
        let ends = segment_ends(grid, s);
        if !masked_grid.segment_mask[s] {
            masked_adjacent[ends.0] = true;
            masked_adjacent[ends.1] = true;
        }
        proof {
            assert forall|p: int| 0 <= p < grid.size implies #[trigger] masked_adjacent[p]
                == touches_masked(l, p, s as int + 1) by {
                let here = !l.segment_mask[s as int] && (l.grid.segment_from(s as int) == p
                    || l.grid.segment_to(s as int) == p);
                assert(before[p] == touches_masked(l, p, s as int));
                if touches_masked(l, p, s as int + 1) {
                    let t = choose|t: int|
                        0 <= t < s + 1 && !#[trigger] l.segment_mask[t] && (l.grid.segment_from(t)
                            == p || l.grid.segment_to(t) == p);
                    if t < s {
                        assert(touches_masked(l, p, s as int));
                    }
                }
                if touches_masked(l, p, s as int) {
                    let t = choose|t: int|
                        0 <= t < s && !#[trigger] l.segment_mask[t] && (l.grid.segment_from(t) == p
                            || l.grid.segment_to(t) == p);
                    assert(!l.segment_mask[t]);
                }
                if here {
                    assert(!l.segment_mask[s as int]);
                }
            }
        }
        s += 1;
    }
    let mut grid_points_trace: Vec<GridPointTrace> = Vec::new();
    let mut idx: usize = 0;
    while idx < grid.size
        invariant
            masked_grid.well_formed(),
            *masked_grid.grid == *grid,
            l == masked_grid.lattice(),
            grid.size <= crate::raw_area::MAX_RAW_POINTS,
            idx <= grid.size,
            masked_adjacent.len() == grid.size,
            grid_points_trace.len() == idx,
            forall|p: int|
                0 <= p < idx ==> (#[trigger] grid_points_trace[p]) == (GridPointTrace {
                    index: p as usize,
                    raw: grid.point_of(GridPoint(p as u32)),
                    blocked: !masked_grid.point_mask[p],
                    masked_adjacent: masked_adjacent[p],
                }),
        decreases grid.size - idx,
    {
        let gp = GridPoint(idx as u32);
        match grid.grid_point_to_raw_coords(gp) {
            Some(coords) => {
                grid_points_trace.push(
                    GridPointTrace {
                        index: idx,
                        raw: Point { x: coords.0, y: coords.1 },
                        blocked: !masked_grid.point_mask[idx],
                        masked_adjacent: masked_adjacent[idx],
                    },
                );
            },
            None => {
                proof {
                    assert(false);
                }
            },
        }
        idx += 1;
    }
    let mut layout_nodes: Vec<NodeTrace> = Vec::new();
    let mut i: usize = 0;
    while i < placed_nodes.len()
        invariant
            forall|k: int|
                0 <= k < placed_nodes.len() ==> (#[trigger] placed_nodes[k]).1.well_formed(),
            i <= placed_nodes.len(),
            layout_nodes.len() == i,
            forall|k: int|
                0 <= k < i ==> (#[trigger] layout_nodes[k]) == (NodeTrace {
                    id: placed_nodes[k].0,
                    center: placed_nodes[k].1.center,
                    size: placed_nodes[k].1.node.size,
                    top_left: Point {
                        x: placed_nodes[k].1.left() as i32,
                        y: placed_nodes[k].1.top() as i32,
                    },
                    bottom_right: Point {
                        x: placed_nodes[k].1.right() as i32,
                        y: placed_nodes[k].1.bottom() as i32,
                    },
                }),
        decreases placed_nodes.len() - i,
    {
        let entry = placed_nodes[i];
        let node = entry.1;
        assert(placed_nodes[i as int].1.well_formed());
        layout_nodes.push(
            NodeTrace {
                id: entry.0,
                center: node.center,
                size: node.node.size,
                top_left: node.top_left(),
                bottom_right: node.bottom_right(),
            },
        );
        i += 1;
    }
    (grid_points_trace, layout_nodes)
}

/// The record of the path stored for an edge.
pub open spec fn is_edge_trace(
    t: RoutedEdgeTrace,
    edge: EdgeRequest,
    table: Map<u64, PathWithEndpoints>,
    area: RawArea,
    usage: Seq<i32>,
    corner_usage: Seq<i32>,
    capacity: i32,
    corner_capacity: i32,
) -> bool {
    let key = edge_key(area, edge);
    let stored = table[key_code(key)];
    &&& t.start_raw_index == (key.0).0
    &&& t.end_raw_index == (key.1).0
    &&& t.start == stored.start
    &&& t.end == stored.end
    &&& t.raw_path@ == stored.path.points@
    &&& t.directed_path@ == directed_points_of(stored.path.points@, stored.start, stored.end)
    &&& t.overflow == path_overflows(stored, area, usage, corner_usage, capacity, corner_capacity)
}

fn copy_points(points: &Vec<Point>) -> (out: Vec<Point>)
    ensures
        out@ == points@,
{
    let mut out: Vec<Point> = Vec::new();
    let mut i: usize = 0;
    while i < points.len()
        invariant
            i <= points.len(),
            out.len() == i,
            forall|k: int| 0 <= k < i ==> #[trigger] out[k] == points[k],
        decreases points.len() - i,
    {
        out.push(points[i]);
        i += 1;
    }
    proof {
        assert(out@ =~= points@);
    }
    out
}

fn copy_usage(usage: &Vec<i32>) -> (out: Vec<i32>)
    ensures
        out@ == usage@,
{
    let mut out: Vec<i32> = Vec::new();
    let mut i: usize = 0;
    while i < usage.len()
        invariant
            i <= usage.len(),
            out.len() == i,
            forall|k: int| 0 <= k < i ==> #[trigger] out[k] == usage[k],
        decreases usage.len() - i,
    {
        out.push(usage[i]);
        i += 1;
    }
    proof {
        assert(out@ =~= usage@);
    }
    out
}

/// The records of the paths stored for the edges that have one, in the
/// order of the edges.
pub fn trace_paths(
    edges: &Vec<EdgeRequest>,
    result_paths: &PathTable,
    raw_area: &RawArea,
    raw_usage: &Vec<i32>,
    raw_corner_usage: &Vec<i32>,
    capacity: i32,
    corner_capacity: i32,
) -> (out: Vec<RoutedEdgeTrace>)
    requires
        raw_area.well_formed(),
        requests_inside(*raw_area, edges@),
        raw_usage.len() == raw_area.spec_num_segments(),
        raw_corner_usage.len() == raw_area.spec_size(),
        forall|i: int|
            0 <= i < edges.len() ==> result_paths@.contains_key(
                key_code(edge_key(*raw_area, #[trigger] edges[i])),
            ),
    ensures
        out.len() == edges.len(),
        forall|i: int|
            0 <= i < edges.len() ==> is_edge_trace(
                #[trigger] out[i],
                edges[i],
                result_paths@,
                *raw_area,
                raw_usage@,
                raw_corner_usage@,
                capacity,
                corner_capacity,
            ),
{
    let mut out: Vec<RoutedEdgeTrace> = Vec::new();
    let mut i: usize = 0;
    while i < edges.len()
        invariant
            raw_area.well_formed(),
            requests_inside(*raw_area, edges@),
            raw_usage.len() == raw_area.spec_num_segments(),
            raw_corner_usage.len() == raw_area.spec_size(),
            forall|k: int|
                0 <= k < edges.len() ==> result_paths@.contains_key(
                    key_code(edge_key(*raw_area, #[trigger] edges[k])),
                ),
            i <= edges.len(),
            out.len() == i,
            forall|k: int|
                0 <= k < i ==> is_edge_trace(
                    #[trigger] out[k],
                    edges[k],
                    result_paths@,
                    *raw_area,
                    raw_usage@,
                    raw_corner_usage@,
                    capacity,
                    corner_capacity,
                ),
        decreases edges.len() - i,
    {
        let edge = edges[i];
        proof {
            assert(raw_area.contains(edges[i as int].2.position()));
            assert(result_paths@.contains_key(key_code(edge_key(*raw_area, edges[i as int]))));
        }
        let start_point = edge.2.as_point();
        let end_point = edge.3.as_point();
        let start_raw = raw_area.point_to_raw_point(&start_point).unwrap();
        let end_raw = raw_area.point_to_raw_point(&end_point).unwrap();
        match result_paths.get((start_raw, end_raw)) {
            Some(stored) => {
                let overflow = edge_path_has_overflow(
                    stored,
                    raw_area,
                    raw_usage,
                    raw_corner_usage,
                    capacity,
                    corner_capacity,
                );
                out.push(
                    RoutedEdgeTrace {
                        start_raw_index: start_raw.0,
                        end_raw_index: end_raw.0,
                        start: stored.start,
                        end: stored.end,
                        raw_path: copy_points(&stored.path.points),
                        directed_path: stored.to_directed_points(),
                        overflow,
                    },
                );
            },
            None => {
                proof {
                    assert(false);
                }
            },
        }
        i += 1;
    }
    out
}

/// The record of one pass: its number, the paths of the edges routed in it
/// and of all edges of the batch, the endpoints of the edges to route again,
/// the usage that the pass leaves to the next one, and what was in use
/// beyond capacity before anything was ripped up.
pub fn record_iteration_trace(
    iteration: usize,
    routed_edges: Vec<RoutedEdgeTrace>,
    all_paths: Vec<RoutedEdgeTrace>,
    op_edges: &Vec<EdgeRequest>,
    raw_usage: &Vec<i32>,
    raw_corner_usage: &Vec<i32>,
    total_overflow: i64,
    edge_overflow: i64,
    corner_overflow: i64,
) -> (t: IterationTrace)
    ensures
        t.iteration == iteration,
        t.routed_edges == routed_edges,
        t.all_paths == all_paths,
        t.ripped_up_next@ == Seq::new(op_edges@.len(), |k: int| (op_edges[k].2, op_edges[k].3)),
        t.raw_usage@ == raw_usage@,
        t.raw_corner_usage@ == raw_corner_usage@,
        t.total_overflow == total_overflow,
        t.edge_overflow == edge_overflow,
        t.corner_overflow == corner_overflow,
{
    let mut ripped_up_next: Vec<(DirectedPoint, DirectedPoint)> = Vec::new();
    let mut i: usize = 0;
    while i < op_edges.len()
        invariant
            i <= op_edges.len(),
            ripped_up_next.len() == i,
            forall|k: int|
                0 <= k < i ==> #[trigger] ripped_up_next[k] == (op_edges[k].2, op_edges[k].3),
        decreases op_edges.len() - i,
    {
        let edge = op_edges[i];
        ripped_up_next.push((edge.2, edge.3));
        i += 1;
    }
    proof {
        assert(ripped_up_next@ =~= Seq::new(
            op_edges@.len(),
            |k: int| (op_edges[k].2, op_edges[k].3),
        ));
    }
    IterationTrace {
        iteration,
        routed_edges,
        all_paths,
        ripped_up_next,
        raw_usage: copy_usage(raw_usage),
        raw_corner_usage: copy_usage(raw_corner_usage),
        total_overflow,
        edge_overflow,
        corner_overflow,
    }
}

} // verus!
