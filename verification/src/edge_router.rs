//! The router: the placed nodes and the polylines of existing edges, by the
//! handles of the nodes, and the routing of a batch of edges.

use vstd::prelude::*;
use rand::rngs::StdRng;
use crate::astar::{is_grid_route, lemma_neighbors_valid, link_is_grid_step, pid, Lattice};
use crate::error::RouteError;
use crate::geometry::{DirectedPoint, Orientation, PlacedRectangularNode, Point};
use crate::grid::{batch_area, nodes_well_formed, Grid, GridPoint};
use crate::masked_grid::{
    lemma_covered_point_blocked, lemma_line_clear, masks_match, point_blocked, point_kept, MaskedGrid,
};
use crate::negotiation::{
    cost_field, field_of, first_state, grown, is_prefix_field, is_run, pass_cost, pass_ok,
    pass_overflow, present_costs, routed_one, routed_run, routed_with, run_so_far, CostField,
    PassLog, PassState,
};
use crate::node_tree::{
    boxes_in_range, tree_boxes, tree_insert, tree_new, tree_remove, tree_size, NodeTree,
};
use crate::path::{
    all_directed_inside, directed, directed_points_of, is_chain, is_stepwise, legs_points,
    lemma_directed_points_ends, lemma_directed_points_inside, lemma_directed_points_stepwise,
    lemma_legs_points_on_path, on_link, on_path,
    EdgeRoutingResult, EdgeRoutingsResult, PathWithEndpoints, RoutingConfig,
};
use crate::random::seeded_rng;
use crate::raw_area::{lemma_point_index, RawArea, MAX_SEGMENT_VALUE};
use crate::ripup::{
    compute_overflow, edge_key, history_within, lemma_prefix_rises, order_edges_by_difficulty,
    refresh_present_cost, requests_in_range, requests_inside, rip_up_and_queue,
    select_edges_to_rip, start_end_grid_points, update_corner_history_cost,
    update_edge_history_cost, EdgeRequest,
};
use crate::route_single::{
    congestion_cost, cost_field_ok, is_routed, lemma_fallback_chain, lemma_route_usable,
    lemma_routed_shape, route_points, route_shape, route_single_edge,
};
use crate::seed::routing_seed;
use crate::table::{key_code, lemma_key_code_injective, PathTable};
use crate::trace::{
    build_trace_layout_data, is_edge_trace, layout_shown, record_iteration_trace, trace_paths,
    IterationTrace, RoutedEdgeTrace, RoutingTrace,
};

verus! {

/// Routes batches of edges around the nodes placed in it.
pub struct EdgeRouter {
    /// The placed nodes, each with its handle; no handle twice.
    pub placed_nodes: Vec<(usize, PlacedRectangularNode)>,
    /// The polylines of existing edges, each with the handles of its two
    /// nodes; no pair of handles twice.
    pub existing_edges: Vec<((usize, usize), Vec<Point>)>,
    /// The bounding boxes of the placed nodes.
    pub placed_node_tree: NodeTree,
}

/// The bounding box of a node as `(left, top, right, bottom)`.
pub open spec fn node_box(node: PlacedRectangularNode) -> (i32, i32, i32, i32) {
    (node.left() as i32, node.top() as i32, node.right() as i32, node.bottom() as i32)
}

impl EdgeRouter {
    /// No handle has two nodes, every node is well formed, no pair of
    /// handles has two polylines, and every box of the spatial index lies
    /// within the range that the index takes.
    pub open spec fn well_formed(&self) -> bool {
        &&& boxes_in_range(tree_boxes(self.placed_node_tree))
        &&& forall|i: int, j: int|
            0 <= i < j < self.placed_nodes.len() ==> (#[trigger] self.placed_nodes[i]).0 != (
            #[trigger] self.placed_nodes[j]).0
        &&& forall|i: int|
            0 <= i < self.placed_nodes.len() ==> (#[trigger] self.placed_nodes[i]).1.well_formed()
        &&& forall|i: int, j: int|
            0 <= i < j < self.existing_edges.len() ==> (#[trigger] self.existing_edges[i]).0 != (
            #[trigger] self.existing_edges[j]).0
    }

    /// The placed nodes in the order in which they are stored.
    pub open spec fn nodes(&self) -> Seq<PlacedRectangularNode> {
        nodes_of(self.placed_nodes@)
    }

    /// The handle has a node.
    pub open spec fn has_node(&self, handle: usize) -> bool {
        exists|i: int| 0 <= i < self.placed_nodes.len() && (#[trigger] self.placed_nodes[i]).0 == handle
    }

    /// The handle has this node.
    pub open spec fn holds_node(&self, handle: usize, node: PlacedRectangularNode) -> bool {
        self.placed_nodes@.contains((handle, node))
    }

    /// The pair of handles has a polyline.
    pub open spec fn has_edge(&self, u: usize, v: usize) -> bool {
        exists|i: int|
            0 <= i < self.existing_edges.len() && (#[trigger] self.existing_edges[i]).0 == (u, v)
    }

    /// The pair of handles has this polyline.
    pub open spec fn holds_edge(&self, u: usize, v: usize, line: Seq<Point>) -> bool {
        exists|i: int|
            0 <= i < self.existing_edges.len() && (#[trigger] self.existing_edges[i]).0 == (u, v)
                && self.existing_edges[i].1@ == line
    }

    /// A router without nodes and edges.
    pub fn new() -> (r: EdgeRouter)
        ensures
            r.well_formed(),
            r.placed_nodes@.len() == 0,
            r.existing_edges@.len() == 0,
            tree_boxes(r.placed_node_tree).len() == 0,
    {
        EdgeRouter {
            placed_nodes: Vec::new(),
            existing_edges: Vec::new(),
            placed_node_tree: tree_new(),
        }
    }

    fn find_node(&self, handle: usize) -> (r: Option<usize>)
        ensures
            r is Some <==> self.has_node(handle),
            r is Some ==> r.unwrap() < self.placed_nodes.len() && self.placed_nodes[r.unwrap() as int].0
                == handle,
    {
        let mut i: usize = 0;
        while i < self.placed_nodes.len()
            invariant
                i <= self.placed_nodes.len(),
                forall|k: int| 0 <= k < i ==> (#[trigger] self.placed_nodes[k]).0 != handle,
            decreases self.placed_nodes.len() - i,
        {
            if self.placed_nodes[i].0 == handle {
                return Some(i);
            }
            i += 1;
        }
        None
    }

    fn find_edge(&self, u: usize, v: usize) -> (r: Option<usize>)
        ensures
            r is Some <==> self.has_edge(u, v),
            r is Some ==> r.unwrap() < self.existing_edges.len() && self.existing_edges[r.unwrap() as int].0
                == (u, v),
    {
        let mut i: usize = 0;
        while i < self.existing_edges.len()
            invariant
                i <= self.existing_edges.len(),
                forall|k: int| 0 <= k < i ==> (#[trigger] self.existing_edges[k]).0 != (u, v),
            decreases self.existing_edges.len() - i,
        {
            let key = self.existing_edges[i].0;
            if key.0 == u && key.1 == v {
                return Some(i);
            }
            i += 1;
        }
        None
    }

    /// Places a node under a handle, in place of any node that the handle
    /// had, and puts its bounding box into the spatial index. A node that is
    /// not well formed is refused with `CoordinateOutOfRange`, and the router
    /// stays as it was.
    pub fn add_node(&mut self, handle: usize, placed_node: PlacedRectangularNode) -> (r: Result<
        (),
        RouteError,
    >)
        requires
            old(self).well_formed(),
        ensures
            final(self).well_formed(),
            final(self).existing_edges == old(self).existing_edges,
            r is Ok <==> placed_node.well_formed(),
            r is Err ==> r == Err::<(), RouteError>(RouteError::CoordinateOutOfRange) && final(self).placed_nodes == old(self).placed_nodes && final(self).placed_node_tree == old(self).placed_node_tree,
            r is Ok ==> {
                &&& final(self).holds_node(handle, placed_node)
                &&& forall|h: usize, n: PlacedRectangularNode|
                    h != handle ==> (final(self).holds_node(h, n) <==> old(self).holds_node(h, n))
                &&& tree_boxes(final(self).placed_node_tree) == tree_boxes(
                    old(self).placed_node_tree,
                ).insert(node_box(placed_node))
            },
    {
        if !placed_node.is_well_formed() {
            return Err(RouteError::CoordinateOutOfRange);
        }
        let ghost before = self.placed_nodes@;
        match self.find_node(handle) {
            Some(k) => {
                self.placed_nodes[k] = (handle, placed_node);
                proof {
                    let after = self.placed_nodes@;
                    assert(after[k as int] == (handle, placed_node));
                    assert forall|h: usize, n: PlacedRectangularNode| h != handle implies (
                    after.contains((h, n)) <==> before.contains((h, n))) by {
                        if after.contains((h, n)) {
                            let i = choose|i: int| 0 <= i < after.len() && after[i] == (h, n);
                            assert(before[i] == (h, n));
                        }
                        if before.contains((h, n)) {
                            let i = choose|i: int| 0 <= i < before.len() && before[i] == (h, n);
                            assert(after[i] == (h, n));
                        }
                    }
                }
            },
            None => {
                self.placed_nodes.push((handle, placed_node));
                proof {
                    let after = self.placed_nodes@;
                    assert(after[before.len() as int] == (handle, placed_node));
                    assert forall|h: usize, n: PlacedRectangularNode| h != handle implies (
                    after.contains((h, n)) <==> before.contains((h, n))) by {
                        if after.contains((h, n)) {
                            let i = choose|i: int| 0 <= i < after.len() && after[i] == (h, n);
                            assert(before[i] == (h, n));
                        }
                        if before.contains((h, n)) {
                            let i = choose|i: int| 0 <= i < before.len() && before[i] == (h, n);
                            assert(after[i] == (h, n));
                        }
                    }
                }
            },
        }
        let tl = placed_node.top_left();
        let br = placed_node.bottom_right();
        tree_insert(&mut self.placed_node_tree, tl.x, tl.y, br.x, br.y);
        Ok(())
    }

    /// Takes the node of a handle out of the router and its bounding box out
    /// of the spatial index. A handle without a node changes nothing.
    pub fn remove_node(&mut self, handle: usize)
        requires
            old(self).well_formed(),
        ensures
            final(self).well_formed(),
            final(self).existing_edges == old(self).existing_edges,
            !final(self).has_node(handle),
            forall|h: usize, n: PlacedRectangularNode|
                h != handle ==> (final(self).holds_node(h, n) <==> old(self).holds_node(h, n)),
            !old(self).has_node(handle) ==> final(self).placed_nodes@ == old(self).placed_nodes@
                && final(self).placed_node_tree == old(self).placed_node_tree,
            forall|n: PlacedRectangularNode|
                old(self).holds_node(handle, n) ==> tree_boxes(final(self).placed_node_tree)
                    == tree_boxes(old(self).placed_node_tree).remove(node_box(n)),
    {
        let ghost before = self.placed_nodes@;
        match self.find_node(handle) {
            Some(k) => {
                let placed_node = self.placed_nodes[k].1;
                self.placed_nodes.remove(k);
                let tl = placed_node.top_left();
                let br = placed_node.bottom_right();
                tree_remove(&mut self.placed_node_tree, tl.x, tl.y, br.x, br.y);
                proof {
                    let after = self.placed_nodes@;
                    assert(after == before.remove(k as int));
                    assert forall|i: int| 0 <= i < after.len() implies (#[trigger] after[i]).0
                        != handle by {
                        if i < k {
                            assert(after[i] == before[i]);
                        } else {
                            assert(after[i] == before[i + 1]);
                        }
                    }
                    assert forall|h: usize, n: PlacedRectangularNode| h != handle implies (
                    after.contains((h, n)) <==> before.contains((h, n))) by {
                        if after.contains((h, n)) {
                            let i = choose|i: int| 0 <= i < after.len() && after[i] == (h, n);
                            if i < k {
                                assert(before[i] == (h, n));
                            } else {
                                assert(before[i + 1] == (h, n));
                            }
                        }
                        if before.contains((h, n)) {
                            let i = choose|i: int| 0 <= i < before.len() && before[i] == (h, n);
                            if i < k {
                                assert(after[i] == (h, n));
                            } else {
                                assert(after[i - 1] == (h, n));
                            }
                        }
                    }
                    assert forall|n: PlacedRectangularNode| before.contains((handle, n)) implies n
                        == placed_node by {
                        let i = choose|i: int| 0 <= i < before.len() && before[i] == (handle, n);
                        if i != k {
                            if i < k {
                                assert(before[i].0 != before[k as int].0);
                            } else {
                                assert(before[k as int].0 != before[i].0);
                            }
                        }
                    }
                    assert forall|i: int, j: int| 0 <= i < j < after.len() implies (
                    #[trigger] after[i]).0 != (#[trigger] after[j]).0 by {
                        let a = if i < k {
                            i
                        } else {
                            i + 1
                        };
                        let b = if j < k {
                            j
                        } else {
                            j + 1
                        };
                        assert(after[i] == before[a] && after[j] == before[b]);
                    }
                    assert forall|i: int| 0 <= i < after.len() implies (
                    #[trigger] after[i]).1.well_formed() by {
                        if i < k {
                            assert(after[i] == before[i]);
                        } else {
                            assert(after[i] == before[i + 1]);
                        }
                    }
                }
            },
            None => {},
        }
    }

    /// Stores the polyline of an existing edge under the handles of its two
    /// nodes, in place of any polyline that the pair had.
    pub fn add_edge(&mut self, start: usize, end: usize, line: Vec<Point>)
        requires
            old(self).well_formed(),
        ensures
            final(self).well_formed(),
            final(self).placed_nodes == old(self).placed_nodes,
            final(self).placed_node_tree == old(self).placed_node_tree,
            final(self).holds_edge(start, end, line@),
            forall|u: usize, v: usize, l: Seq<Point>|
                (u, v) != (start, end) ==> (final(self).holds_edge(u, v, l) <==> old(self).holds_edge(u, v, l)),
    {
        let ghost before = self.existing_edges@;
        let ghost line_view = line@;
        match self.find_edge(start, end) {
            Some(k) => {
                self.existing_edges[k] = ((start, end), line);
                proof {
                    let after = self.existing_edges@;
                    assert(after[k as int].0 == (start, end) && after[k as int].1@ == line_view);
                    assert forall|u: usize, v: usize, l: Seq<Point>| (u, v) != (start, end) implies (
                    final(self).holds_edge(u, v, l) <==> old(self).holds_edge(u, v, l)) by {
                        if final(self).holds_edge(u, v, l) {
                            let i = choose|i: int|
                                0 <= i < after.len() && (#[trigger] after[i]).0 == (u, v)
                                    && after[i].1@ == l;
                            assert(before[i] == after[i]);
                        }
                        if old(self).holds_edge(u, v, l) {
                            let i = choose|i: int|
                                0 <= i < before.len() && (#[trigger] before[i]).0 == (u, v)
                                    && before[i].1@ == l;
                            assert(after[i] == before[i]);
                        }
                    }
                }
            },
            None => {
                self.existing_edges.push(((start, end), line));
                proof {
                    let after = self.existing_edges@;
                    assert(after[before.len() as int].0 == (start, end));
                    assert(after[before.len() as int].1@ == line_view);
                    assert forall|u: usize, v: usize, l: Seq<Point>| (u, v) != (start, end) implies (
                    final(self).holds_edge(u, v, l) <==> old(self).holds_edge(u, v, l)) by {
                        if final(self).holds_edge(u, v, l) {
                            let i = choose|i: int|
                                0 <= i < after.len() && (#[trigger] after[i]).0 == (u, v)
                                    && after[i].1@ == l;
                            assert(before[i] == after[i]);
                        }
                        if old(self).holds_edge(u, v, l) {
                            let i = choose|i: int|
                                0 <= i < before.len() && (#[trigger] before[i]).0 == (u, v)
                                    && before[i].1@ == l;
                            assert(after[i] == before[i]);
                        }
                    }
                }
            },
        }
    }

    /// Takes the polyline of a pair of handles out of the router. A pair
    /// without a polyline changes nothing.
    pub fn remove_edge(&mut self, start: usize, end: usize)
        requires
            old(self).well_formed(),
        ensures
            final(self).well_formed(),
            final(self).placed_nodes == old(self).placed_nodes,
            final(self).placed_node_tree == old(self).placed_node_tree,
            !final(self).has_edge(start, end),
            forall|u: usize, v: usize, l: Seq<Point>|
                (u, v) != (start, end) ==> (final(self).holds_edge(u, v, l) <==> old(self).holds_edge(u, v, l)),
            !old(self).has_edge(start, end) ==> final(self).existing_edges@ == old(self).existing_edges@,
    {
        let ghost before = self.existing_edges@;
        match self.find_edge(start, end) {
            Some(k) => {
                self.existing_edges.remove(k);
                proof {
                    let after = self.existing_edges@;
                    assert(after == before.remove(k as int));
                    assert forall|i: int| 0 <= i < after.len() implies (#[trigger] after[i]).0 != (
                        start,
                        end,
                    ) by {
                        if i < k {
                            assert(after[i] == before[i]);
                        } else {
                            assert(after[i] == before[i + 1]);
                        }
                    }
                    assert forall|i: int, j: int| 0 <= i < j < after.len() implies (
                    #[trigger] after[i]).0 != (#[trigger] after[j]).0 by {
                        let a = if i < k {
                            i
                        } else {
                            i + 1
                        };
                        let b = if j < k {
                            j
                        } else {
                            j + 1
                        };
                        assert(after[i] == before[a] && after[j] == before[b]);
                    }
                    assert forall|u: usize, v: usize, l: Seq<Point>| (u, v) != (start, end) implies (
                    final(self).holds_edge(u, v, l) <==> old(self).holds_edge(u, v, l)) by {
                        if final(self).holds_edge(u, v, l) {
                            let i = choose|i: int|
                                0 <= i < after.len() && (#[trigger] after[i]).0 == (u, v)
                                    && after[i].1@ == l;
                            if i < k {
                                assert(before[i] == after[i]);
                            } else {
                                assert(before[i + 1] == after[i]);
                            }
                        }
                        if old(self).holds_edge(u, v, l) {
                            let i = choose|i: int|
                                0 <= i < before.len() && (#[trigger] before[i]).0 == (u, v)
                                    && before[i].1@ == l;
                            if i < k {
                                assert(after[i] == before[i]);
                            } else {
                                assert(after[i - 1] == before[i]);
                            }
                        }
                    }
                }
            },
            None => {},
        }
    }

    /// Number of bounding boxes in the spatial index.
    pub fn indexed_nodes(&self) -> (n: usize)
        ensures
            n == tree_boxes(self.placed_node_tree).len(),
    {
        tree_size(&self.placed_node_tree)
    }

    /// The node placed under a handle.
    pub fn node(&self, handle: usize) -> (r: Option<PlacedRectangularNode>)
        ensures
            r is Some <==> self.has_node(handle),
            r is Some ==> self.holds_node(handle, r.unwrap()),
    {
        match self.find_node(handle) {
            Some(k) => Some(self.placed_nodes[k].1),
            None => None,
        }
    }

    /// The placed nodes in the order in which they are stored.
    pub fn node_list(&self) -> (out: Vec<PlacedRectangularNode>)
        ensures
            out@ == self.nodes(),
    {
        let mut out: Vec<PlacedRectangularNode> = Vec::new();
        let mut i: usize = 0;
        while i < self.placed_nodes.len()
            invariant
                i <= self.placed_nodes.len(),
                out.len() == i,
                forall|k: int| 0 <= k < i ==> #[trigger] out[k] == self.placed_nodes[k].1,
            decreases self.placed_nodes.len() - i,
        {
            out.push(self.placed_nodes[i].1);
            i += 1;
        }
        proof {
            assert(out@ =~= self.nodes());
        }
        out
    }
}

/// Most passes of routing, ripping up and routing again.
pub const MAX_ITERATIONS: usize = 10;

/// How many paths may pass a raw segment.
pub const CAPACITY: i32 = 1;

/// How many paths may turn on a raw point.
pub const CORNER_CAPACITY: i32 = 1;

/// What each use of a raw segment beyond its capacity adds to its present
/// cost.
pub const LAMBDA: i64 = 2;

/// What turning on a raw point costs that is in use as a corner.
pub const BASE_COST: i64 = 1;

/// What each use of a raw corner beyond its capacity adds to the cost of
/// turning there.
pub const CORNER_LAMBDA: i64 = 5;

/// Most that one pass adds to a history.
pub const HISTORY_STEP: i64 = 0x8000_0000;

/// The stored path goes, as a chain of points, from its start point to its
/// end point.
pub open spec fn path_ok(routed: PathWithEndpoints) -> bool {
    let points = routed.path.points@;
    &&& points.len() >= 1
    &&& is_chain(points)
    &&& points[0] == routed.start.position()
    &&& points.last() == routed.end.position()
}

/// The search state in which a path for the directed point starts or ends:
/// its grid point, and the orientation of its direction.
pub open spec fn terminal_state(grid: Grid, p: DirectedPoint) -> (GridPoint, Orientation) {
    (grid.grid_point_at(p.position()), p.direction.spec_to_orientation())
}

/// The points of the stored path lie where the states of a grid path lie
/// that has one of the two shapes of a grid path: a route that the masked
/// grid allows, or the L-shaped stand-in.
pub open spec fn path_shaped(l: Lattice, routed: PathWithEndpoints) -> bool {
    exists|states: Seq<(GridPoint, Orientation)>|
        #![trigger route_points(l.grid, states)]
        route_points(l.grid, states) == routed.path.points@ && route_shape(
            l,
            terminal_state(l.grid, routed.start),
            terminal_state(l.grid, routed.end),
            states,
        )
}

/// The path stored under `code` is that of an edge of the batch with this
/// code.
pub open spec fn stored_ok(
    l: Lattice,
    area: RawArea,
    edges: Seq<EdgeRequest>,
    code: u64,
    routed: PathWithEndpoints,
) -> bool {
    exists|j: int|
        0 <= j < edges.len() && #[trigger] key_code(edge_key(area, edges[j])) == code
            && routed.start == edges[j].2 && routed.end == edges[j].3 && path_ok(routed)
            && path_shaped(l, routed)
}

/// Every stored path is that of an edge of the batch.
pub open spec fn table_ok(
    l: Lattice,
    area: RawArea,
    edges: Seq<EdgeRequest>,
    table: Map<u64, PathWithEndpoints>,
) -> bool {
    forall|code: u64|
        table.contains_key(code) ==> #[trigger] stored_ok(l, area, edges, code, table[code])
}

/// The grid and the raw area are those of the batch: every endpoint lies
/// inside the area and on the grid.
pub open spec fn batch_on_grid(grid: Grid, area: RawArea, edges: Seq<EdgeRequest>) -> bool {
    &&& grid.well_formed()
    &&& area == grid.spec_raw_area()
    &&& requests_inside(area, edges)
    &&& forall|i: int|
        0 <= i < edges.len() ==> grid.on_grid((#[trigger] edges[i]).2.position()) && grid.on_grid(
            edges[i].3.position(),
        )
}

/// The directed points `out` are a path for the edge `i` of the batch: they
/// expand a chain of points that leads from the start point to the end
/// point of an edge of the batch with the same two places as the edge `i`.
pub open spec fn edge_output_ok(edges: Seq<EdgeRequest>, i: int, out: Seq<DirectedPoint>) -> bool {
    exists|j: int, points: Seq<Point>|
        #![trigger directed_points_of(points, edges[j].2, edges[j].3)]
        0 <= j < edges.len() && edges[j].2.position() == edges[i].2.position()
            && edges[j].3.position() == edges[i].3.position() && points.len() >= 1 && is_chain(
            points,
        ) && points[0] == edges[j].2.position() && points.last() == edges[j].3.position()
            && directed_points_of(points, edges[j].2, edges[j].3) == out
}

/// The directed points `out` expand the grid path of an edge of the batch
/// with the same two places as the edge `i`, and that grid path has one of
/// the two shapes of a grid path on the masked grid.
pub open spec fn edge_routed_ok(l: Lattice, edges: Seq<EdgeRequest>, i: int, out: Seq<DirectedPoint>) -> bool {
    exists|j: int, states: Seq<(GridPoint, Orientation)>|
        #![trigger directed_points_of(route_points(l.grid, states), edges[j].2, edges[j].3)]
        0 <= j < edges.len() && edges[j].2.position() == edges[i].2.position()
            && edges[j].3.position() == edges[i].3.position() && route_shape(
            l,
            terminal_state(l.grid, edges[j].2),
            terminal_state(l.grid, edges[j].3),
            states,
        ) && directed_points_of(route_points(l.grid, states), edges[j].2, edges[j].3) == out
}

/// The masked grid is that of the batch: its grid is the grid of the
/// batch's endpoints and the nodes, its masks are those that the nodes
/// give, and the points kept usable are the grid points of the endpoints.
pub open spec fn batch_lattice(
    l: Lattice,
    kept: Seq<GridPoint>,
    nodes: Seq<PlacedRectangularNode>,
    edges: Seq<EdgeRequest>,
) -> bool {
    &&& l.well_formed()
    &&& l.grid.built_from(request_pairs(edges), nodes)
    &&& masks_match(l.grid, l.point_mask, l.segment_mask, nodes, nodes.len() as int, kept)
    &&& forall|p: GridPoint|
        kept.contains(p) <==> exists|i: int|
            0 <= i < edges.len() && (l.grid.grid_point_at((#[trigger] edges[i]).2.position()) == p
                || l.grid.grid_point_at(edges[i].3.position()) == p)
}

/// No other edge of the batch shares both places with the edge `i` and
/// differs from it in a direction.
pub open spec fn directions_agree(edges: Seq<EdgeRequest>, i: int) -> bool {
    forall|j: int|
        0 <= j < edges.len() && (#[trigger] edges[j]).2.position() == edges[i].2.position()
            && edges[j].3.position() == edges[i].3.position() ==> edges[j].2.direction
            == edges[i].2.direction && edges[j].3.direction == edges[i].3.direction
}

/// A path for an edge ends at the edge's end point. Where the edge's two
/// places differ, it begins at the start point; and where no other edge
/// with the same two places has other directions, it begins with the
/// direction of the start point and ends with the direction of the end
/// point turned round.
pub proof fn lemma_output_endpoints(edges: Seq<EdgeRequest>, i: int, out: Seq<DirectedPoint>)
    requires
        0 <= i < edges.len(),
        edge_output_ok(edges, i, out),
    ensures
        out.len() >= 1,
        out.last().position() == edges[i].3.position(),
        edges[i].2.position() != edges[i].3.position() ==> out[0].position()
            == edges[i].2.position(),
        directions_agree(edges, i) ==> out.last() == directed(
            edges[i].3.position(),
            edges[i].3.direction.spec_opposite(),
        ),
        directions_agree(edges, i) && edges[i].2.position() != edges[i].3.position()
            ==> out[0].same_as(edges[i].2),
{
    let (j, points) = choose|j: int, points: Seq<Point>|
        #![trigger directed_points_of(points, edges[j].2, edges[j].3)]
        0 <= j < edges.len() && edges[j].2.position() == edges[i].2.position()
            && edges[j].3.position() == edges[i].3.position() && points.len() >= 1 && is_chain(
            points,
        ) && points[0] == edges[j].2.position() && points.last() == edges[j].3.position()
            && directed_points_of(points, edges[j].2, edges[j].3) == out;
    lemma_directed_points_ends(points, edges[j].2, edges[j].3);
}

/// Each directed point of a path for an edge lies where the one before it
/// lies, or one unit step from it along a row or a column.
pub proof fn lemma_output_stepwise(edges: Seq<EdgeRequest>, i: int, out: Seq<DirectedPoint>)
    requires
        0 <= i < edges.len(),
        edge_output_ok(edges, i, out),
    ensures
        is_stepwise(out),
{
    let (j, points) = choose|j: int, points: Seq<Point>|
        #![trigger directed_points_of(points, edges[j].2, edges[j].3)]
        0 <= j < edges.len() && edges[j].2.position() == edges[i].2.position()
            && edges[j].3.position() == edges[i].3.position() && points.len() >= 1 && is_chain(
            points,
        ) && points[0] == edges[j].2.position() && points.last() == edges[j].3.position()
            && directed_points_of(points, edges[j].2, edges[j].3) == out;
    lemma_directed_points_stepwise(points, edges[j].2, edges[j].3);
}

/// The directed points `out` expand a route that the masked grid allows for
/// an edge of the batch with the same two places as the edge `i`.
pub open spec fn edge_searched(l: Lattice, edges: Seq<EdgeRequest>, i: int, out: Seq<DirectedPoint>) -> bool {
    exists|j: int, states: Seq<(GridPoint, Orientation)>|
        #![trigger directed_points_of(route_points(l.grid, states), edges[j].2, edges[j].3)]
        0 <= j < edges.len() && edges[j].2.position() == edges[i].2.position()
            && edges[j].3.position() == edges[i].3.position() && is_grid_route(
            l,
            terminal_state(l.grid, edges[j].2),
            terminal_state(l.grid, edges[j].3),
            states,
        ) && directed_points_of(route_points(l.grid, states), edges[j].2, edges[j].3) == out
}

/// No node blocks the grid point of an endpoint of the batch.
pub open spec fn endpoints_clear(l: Lattice, kept: Seq<GridPoint>, nodes: Seq<PlacedRectangularNode>) -> bool {
    forall|p: GridPoint|
        kept.contains(p) ==> !#[trigger] point_blocked(l.grid, nodes, nodes.len() as int, pid(p))
}

/// Where no node blocks the grid point of an endpoint of the batch, a path
/// that follows a route over the masked grid keeps clear of the nodes: none
/// of its directed points lies on or inside a node.
pub proof fn lemma_output_avoids_nodes(
    l: Lattice,
    kept: Seq<GridPoint>,
    nodes: Seq<PlacedRectangularNode>,
    edges: Seq<EdgeRequest>,
    i: int,
    out: Seq<DirectedPoint>,
    n: int,
    k: int,
)
    requires
        batch_lattice(l, kept, nodes, edges),
        nodes_well_formed(nodes),
        endpoints_clear(l, kept, nodes),
        0 <= i < edges.len(),
        edge_searched(l, edges, i, out),
        0 <= n < nodes.len(),
        0 <= k < out.len(),
    ensures
        !nodes[n].covers(out[k].x as int, out[k].y as int),
{
    let grid = l.grid;
    let (j, states) = choose|j: int, states: Seq<(GridPoint, Orientation)>|
        #![trigger directed_points_of(route_points(l.grid, states), edges[j].2, edges[j].3)]
        0 <= j < edges.len() && edges[j].2.position() == edges[i].2.position()
            && edges[j].3.position() == edges[i].3.position() && is_grid_route(
            l,
            terminal_state(l.grid, edges[j].2),
            terminal_state(l.grid, edges[j].3),
            states,
        ) && directed_points_of(route_points(l.grid, states), edges[j].2, edges[j].3) == out;
    let pairs = request_pairs(edges);
    assert(pairs[j] == (edges[j].2.position(), edges[j].3.position()));
    assert(grid.on_grid(pairs[j].0) && grid.on_grid(pairs[j].1));
    grid.lemma_grid_point_at(edges[j].3.position());
    let from = terminal_state(grid, edges[j].2);
    let goal = terminal_state(grid, edges[j].3);
    lemma_route_usable(l, from, goal, states);
    assert forall|s: int| 0 <= s < states.len() implies !point_blocked(
        grid,
        nodes,
        nodes.len() as int,
        pid((#[trigger] states[s]).0),
    ) by {
        let p = states[s].0;
        assert(l.point_mask[pid(p)]);
        assert(GridPoint(pid(p) as u32) == p);
        if point_kept(kept, pid(p)) {
            assert(kept.contains(p));
        }
    }
    let points = route_points(grid, states);
    let legs = legs_points(points, edges[j].2.direction);
    let q = out[k].position();
    if k < legs.len() {
        assert(out[k] == legs[k]);
        lemma_legs_points_on_path(points, edges[j].2.direction);
        assert(on_path(points, q));
        let at = choose|at: int| 0 <= at < points.len() - 1 && #[trigger] on_link(points, at, q);
        let a = states[at].0;
        let b = states[at + 1].0;
        assert(points[at] == grid.point_of(a) && points[at + 1] == grid.point_of(b));
        assert(link_is_grid_step(l, from.0, goal.0, states, at));
        lemma_neighbors_valid(l, a, states[at].1, states[at + 1]);
        if a == b {
            assert(q == grid.point_of(a));
            if nodes[n].covers(q.x as int, q.y as int) {
                assert(GridPoint(pid(a) as u32) == a);
                lemma_covered_point_blocked(grid, nodes, n, pid(a));
            }
        } else {
            lemma_line_clear(grid, nodes, n, a, b, q);
        }
    } else {
        let gp = grid.grid_point_at(edges[j].3.position());
        assert(q == grid.point_of(gp));
        assert(kept.contains(gp));
        if nodes[n].covers(q.x as int, q.y as int) {
            assert(GridPoint(pid(gp) as u32) == gp);
            lemma_covered_point_blocked(grid, nodes, n, pid(gp));
        }
    }
}

/// Every directed point of a path that routing returns lies inside the area
/// that the batch spans.
pub proof fn lemma_output_inside_area(
    l: Lattice,
    kept: Seq<GridPoint>,
    nodes: Seq<PlacedRectangularNode>,
    edges: Seq<EdgeRequest>,
    i: int,
    out: Seq<DirectedPoint>,
)
    requires
        batch_lattice(l, kept, nodes, edges),
        0 <= i < edges.len(),
        edge_routed_ok(l, edges, i, out),
    ensures
        all_directed_inside(batch_area(request_pairs(edges), nodes), out),
{
    let grid = l.grid;
    let area = batch_area(request_pairs(edges), nodes);
    let (j, states) = choose|j: int, states: Seq<(GridPoint, Orientation)>|
        #![trigger directed_points_of(route_points(l.grid, states), edges[j].2, edges[j].3)]
        0 <= j < edges.len() && edges[j].2.position() == edges[i].2.position()
            && edges[j].3.position() == edges[i].3.position() && route_shape(
            l,
            terminal_state(l.grid, edges[j].2),
            terminal_state(l.grid, edges[j].3),
            states,
        ) && directed_points_of(route_points(l.grid, states), edges[j].2, edges[j].3) == out;
    let pairs = request_pairs(edges);
    assert(pairs[j] == (edges[j].2.position(), edges[j].3.position()));
    assert(grid.on_grid(pairs[j].0) && grid.on_grid(pairs[j].1));
    grid.lemma_grid_point_at(edges[j].2.position());
    grid.lemma_grid_point_at(edges[j].3.position());
    let from = terminal_state(grid, edges[j].2);
    let goal = terminal_state(grid, edges[j].3);
    if is_grid_route(l, from, goal, states) {
        lemma_route_usable(l, from, goal, states);
    } else {
        lemma_fallback_chain(l, from.0, goal.0, goal.1);
    }
    let points = route_points(grid, states);
    assert forall|k: int| 0 <= k < points.len() implies area.contains(#[trigger] points[k]) by {
        grid.lemma_point(states[k].0);
    }
    lemma_directed_points_inside(area, points, edges[j].2, edges[j].3);
}

/// Where every endpoint lies on the grid, the grid points of the endpoints
/// that lie on the grid are the grid points of all endpoints.
proof fn lemma_kept_are_endpoints(grid: Grid, kept: Seq<GridPoint>, edges: Seq<EdgeRequest>)
    requires
        forall|i: int|
            0 <= i < edges.len() ==> grid.on_grid((#[trigger] edges[i]).2.position())
                && grid.on_grid(edges[i].3.position()),
        forall|p: GridPoint|
            kept.contains(p) <==> exists|i: int|
                0 <= i < edges.len() && ((grid.on_grid((#[trigger] edges[i]).2.position())
                    && grid.grid_point_at(edges[i].2.position()) == p) || (grid.on_grid(
                    edges[i].3.position(),
                ) && grid.grid_point_at(edges[i].3.position()) == p)),
    ensures
        forall|p: GridPoint|
            kept.contains(p) <==> exists|i: int|
                0 <= i < edges.len() && (grid.grid_point_at((#[trigger] edges[i]).2.position()) == p
                    || grid.grid_point_at(edges[i].3.position()) == p),
{
    assert forall|p: GridPoint|
        kept.contains(p) <==> exists|i: int|
            0 <= i < edges.len() && (grid.grid_point_at((#[trigger] edges[i]).2.position()) == p
                || grid.grid_point_at(edges[i].3.position()) == p) by {
        if kept.contains(p) {
            let i = choose|i: int|
                0 <= i < edges.len() && ((grid.on_grid((#[trigger] edges[i]).2.position())
                    && grid.grid_point_at(edges[i].2.position()) == p) || (grid.on_grid(
                    edges[i].3.position(),
                ) && grid.grid_point_at(edges[i].3.position()) == p));
            assert(grid.grid_point_at(edges[i].2.position()) == p || grid.grid_point_at(
                edges[i].3.position(),
            ) == p);
        }
        if exists|i: int|
            0 <= i < edges.len() && (grid.grid_point_at((#[trigger] edges[i]).2.position()) == p
                || grid.grid_point_at(edges[i].3.position()) == p) {
            let i = choose|i: int|
                0 <= i < edges.len() && (grid.grid_point_at((#[trigger] edges[i]).2.position())
                    == p || grid.grid_point_at(edges[i].3.position()) == p);
            assert(grid.on_grid(edges[i].2.position()) && grid.on_grid(edges[i].3.position()));
        }
    }
}

/// Two points of a raw area with the same packed index are the same point.
pub proof fn lemma_index_injective(area: RawArea, p: Point, q: Point)
    requires
        area.well_formed(),
        area.contains(p),
        area.contains(q),
        area.index_of(p) == area.index_of(q),
    ensures
        p == q,
{
    lemma_point_index(
        area.spec_width(),
        area.spec_height(),
        p.x - area.top_left.x,
        p.y - area.top_left.y,
    );
    lemma_point_index(
        area.spec_width(),
        area.spec_height(),
        q.x - area.top_left.x,
        q.y - area.top_left.y,
    );
}

/// Whether every endpoint of the batch lies within the accepted coordinate
/// range.
pub fn check_requests(edges: &Vec<EdgeRequest>) -> (ok: bool)
    ensures
        ok == requests_in_range(edges@),
{
    let mut i: usize = 0;
    while i < edges.len()
        invariant
            i <= edges.len(),
            forall|k: int|
                0 <= k < i ==> (#[trigger] edges[k]).2.position().in_range()
                    && edges[k].3.position().in_range(),
        decreases edges.len() - i,
    {
        let edge = edges[i];
        let start = edge.2.as_point();
        let end = edge.3.as_point();
        if !start.is_in_range() || !end.is_in_range() {
            return false;
        }
        i += 1;
    }
    true
}

/// The start and end places of the edges of a batch.
pub open spec fn request_pairs(edges: Seq<EdgeRequest>) -> Seq<(Point, Point)> {
    Seq::new(edges.len(), |i: int| (edges[i].2.position(), edges[i].3.position()))
}

/// The start and end places of the edges of a batch.
pub fn request_points(edges: &Vec<EdgeRequest>) -> (out: Vec<(Point, Point)>)
    ensures
        out@ == request_pairs(edges@),
{
    let mut out: Vec<(Point, Point)> = Vec::new();
    let mut i: usize = 0;
    while i < edges.len()
        invariant
            i <= edges.len(),
            out.len() == i,
            forall|k: int|
                0 <= k < i ==> #[trigger] out[k] == (edges[k].2.position(), edges[k].3.position()),
        decreases edges.len() - i,
    {
        let edge = edges[i];
        out.push((edge.2.as_point(), edge.3.as_point()));
        i += 1;
    }
    proof {
        assert(out@ =~= request_pairs(edges@));
    }
    out
}

fn copy_requests(edges: &Vec<EdgeRequest>) -> (out: Vec<EdgeRequest>)
    ensures
        out@ == edges@,
{
    let mut out: Vec<EdgeRequest> = Vec::new();
    let mut i: usize = 0;
    while i < edges.len()
        invariant
            i <= edges.len(),
            out.len() == i,
            forall|k: int| 0 <= k < i ==> #[trigger] out[k] == edges[k],
        decreases edges.len() - i,
    {
        out.push(edges[i]);
        i += 1;
    }
    proof {
        assert(out@ =~= edges@);
    }
    out
}

fn zeros_i32(n: usize) -> (v: Vec<i32>)
    ensures
        v.len() == n,
        forall|i: int| 0 <= i < n ==> #[trigger] v[i] == 0,
{
    let mut v: Vec<i32> = Vec::new();
    let mut i: usize = 0;
    while i < n
        invariant
            i <= n,
            v.len() == i,
            forall|k: int| 0 <= k < i ==> #[trigger] v[k] == 0,
        decreases n - i,
    {
        v.push(0);
        i += 1;
    }
    v
}

fn zeros_i64(n: usize) -> (v: Vec<i64>)
    ensures
        v.len() == n,
        forall|i: int| 0 <= i < n ==> #[trigger] v[i] == 0,
{
    let mut v: Vec<i64> = Vec::new();
    let mut i: usize = 0;
    while i < n
        invariant
            i <= n,
            v.len() == i,
            forall|k: int| 0 <= k < i ==> #[trigger] v[k] == 0,
        decreases n - i,
    {
        v.push(0);
        i += 1;
    }
    v
}

/// Brings the present costs and the prefix sums of present and history
/// costs up to date with the usage.
fn prepare_costs(
    raw_area: &RawArea,
    raw_usage: &Vec<i32>,
    raw_cost: &mut Vec<i64>,
    raw_history_cost: &Vec<i64>,
    raw_cost_prefix_x: &mut Vec<i64>,
    raw_cost_prefix_y: &mut Vec<i64>,
    raw_history_cost_prefix_x: &mut Vec<i64>,
    raw_history_cost_prefix_y: &mut Vec<i64>,
)
    requires
        raw_area.well_formed(),
        raw_usage.len() == raw_area.spec_num_segments(),
        old(raw_cost).len() == raw_area.spec_num_segments(),
        raw_history_cost.len() == raw_area.spec_num_segments(),
        history_within(raw_history_cost@, MAX_SEGMENT_VALUE as int),
        old(raw_cost_prefix_x).len() == raw_area.spec_size(),
        old(raw_cost_prefix_y).len() == raw_area.spec_size(),
        old(raw_history_cost_prefix_x).len() == raw_area.spec_size(),
        old(raw_history_cost_prefix_y).len() == raw_area.spec_size(),
    ensures
        final(raw_cost).len() == raw_area.spec_num_segments(),
        final(raw_cost_prefix_x).len() == raw_area.spec_size(),
        final(raw_cost_prefix_y).len() == raw_area.spec_size(),
        final(raw_history_cost_prefix_x).len() == raw_area.spec_size(),
        final(raw_history_cost_prefix_y).len() == raw_area.spec_size(),
        crate::cost::rows_rise(final(raw_cost_prefix_x)@, raw_area.spec_width(), 1),
        crate::cost::columns_rise(final(raw_cost_prefix_y)@, raw_area.spec_width(), 1),
        crate::cost::rows_rise(final(raw_history_cost_prefix_x)@, raw_area.spec_width(), 0),
        crate::cost::columns_rise(final(raw_history_cost_prefix_y)@, raw_area.spec_width(), 0),
        is_prefix_field(
            *raw_area,
            present_costs(raw_usage@),
            final(raw_cost_prefix_x)@,
            final(raw_cost_prefix_y)@,
        ),
        is_prefix_field(
            *raw_area,
            raw_history_cost@,
            final(raw_history_cost_prefix_x)@,
            final(raw_history_cost_prefix_y)@,
        ),
{
    refresh_present_cost(raw_usage, raw_cost, CAPACITY, LAMBDA);
    proof {
        assert(raw_cost@ =~= present_costs(raw_usage@));
    }
    raw_area.edge_prefix_sums(raw_cost, raw_cost_prefix_x, raw_cost_prefix_y);
    raw_area.edge_prefix_sums(
        raw_history_cost,
        raw_history_cost_prefix_x,
        raw_history_cost_prefix_y,
    );
    proof {
        lemma_prefix_rises(*raw_area, raw_cost@, raw_cost_prefix_x@, raw_cost_prefix_y@, 1);
        lemma_prefix_rises(
            *raw_area,
            raw_history_cost@,
            raw_history_cost_prefix_x@,
            raw_history_cost_prefix_y@,
            0,
        );
    }
}

/// Routes every edge of `sorted` in turn and stores its path under the raw
/// points of its endpoints, in place of any path stored there.
fn route_pass(
    grid: &Grid,
    raw_area: &RawArea,
    masked_grid: &MaskedGrid,
    edges: &Vec<EdgeRequest>,
    sorted: &Vec<EdgeRequest>,
    rng: &mut StdRng,
    raw_cost_prefix_x: &Vec<i64>,
    raw_cost_prefix_y: &Vec<i64>,
    raw_history_cost_prefix_x: &Vec<i64>,
    raw_history_cost_prefix_y: &Vec<i64>,
    raw_usage: &mut Vec<i32>,
    raw_corner_usage: &mut Vec<i32>,
    raw_corner_history: &Vec<i64>,
    result_paths: &mut PathTable,
)
    requires
        batch_on_grid(*grid, *raw_area, edges@),
        masked_grid.well_formed(),
        *masked_grid.grid == *grid,
        forall|k: int| 0 <= k < sorted.len() ==> edges@.contains(#[trigger] sorted[k]),
        old(raw_usage).len() == raw_area.spec_num_segments(),
        old(raw_corner_usage).len() == raw_area.spec_size(),
        cost_field_ok(
            *grid,
            raw_cost_prefix_x@,
            raw_cost_prefix_y@,
            raw_history_cost_prefix_x@,
            raw_history_cost_prefix_y@,
            raw_corner_history@,
            BASE_COST,
            CORNER_LAMBDA,
        ),
        table_ok(masked_grid.lattice(), *raw_area, edges@, old(result_paths)@),
    ensures
        final(raw_usage).len() == old(raw_usage).len(),
        final(raw_corner_usage).len() == old(raw_corner_usage).len(),
        table_ok(masked_grid.lattice(), *raw_area, edges@, final(result_paths)@),
        forall|code: u64|
            old(result_paths)@.contains_key(code) ==> final(result_paths)@.contains_key(code),
        forall|k: int|
            0 <= k < sorted.len() ==> final(result_paths)@.contains_key(
                key_code(edge_key(*raw_area, #[trigger] sorted[k])),
            ),
        routed_run(
            masked_grid.lattice(),
            *raw_area,
            cost_field(
                raw_cost_prefix_x,
                raw_cost_prefix_y,
                raw_history_cost_prefix_x,
                raw_history_cost_prefix_y,
                raw_corner_history,
            ),
            sorted@,
            old(raw_usage)@,
            old(raw_corner_usage)@,
            old(result_paths)@,
            final(raw_usage)@,
            final(raw_corner_usage)@,
            final(result_paths)@,
        ),
{
    let ghost table0 = result_paths@;
    let ghost usage0 = raw_usage@;
    let ghost corners0 = raw_corner_usage@;
    let ghost field = cost_field(
        raw_cost_prefix_x,
        raw_cost_prefix_y,
        raw_history_cost_prefix_x,
        raw_history_cost_prefix_y,
        raw_corner_history,
    );
    proof {
        assert(sorted@.subrange(0, 0).len() == 0);
    }
    let mut k: usize = 0;
    while k < sorted.len()
        invariant
            batch_on_grid(*grid, *raw_area, edges@),
            masked_grid.well_formed(),
            *masked_grid.grid == *grid,
            forall|j: int| 0 <= j < sorted.len() ==> edges@.contains(#[trigger] sorted[j]),
            raw_usage.len() == raw_area.spec_num_segments(),
            raw_corner_usage.len() == raw_area.spec_size(),
            cost_field_ok(
                *grid,
                raw_cost_prefix_x@,
                raw_cost_prefix_y@,
                raw_history_cost_prefix_x@,
                raw_history_cost_prefix_y@,
                raw_corner_history@,
                BASE_COST,
                CORNER_LAMBDA,
            ),
            k <= sorted.len(),
            table_ok(masked_grid.lattice(), *raw_area, edges@, result_paths@),
            forall|code: u64| table0.contains_key(code) ==> result_paths@.contains_key(code),
            forall|j: int|
                0 <= j < k ==> result_paths@.contains_key(
                    key_code(edge_key(*raw_area, #[trigger] sorted[j])),
                ),
            field == cost_field(
                raw_cost_prefix_x,
                raw_cost_prefix_y,
                raw_history_cost_prefix_x,
                raw_history_cost_prefix_y,
                raw_corner_history,
            ),
            routed_run(
                masked_grid.lattice(),
                *raw_area,
                field,
                sorted@.subrange(0, k as int),
                usage0,
                corners0,
                table0,
                raw_usage@,
                raw_corner_usage@,
                result_paths@,
            ),
        decreases sorted.len() - k,
    {
        let edge = sorted[k];
        let ghost usage_before = raw_usage@;
        let start = edge.2;
        let end = edge.3;
        let ghost at = choose|at: int| 0 <= at < edges.len() && edges[at] == edge;
        proof {
            assert(edges@.contains(sorted[k as int]));
            assert(raw_area.contains(edges[at].2.position()));
            assert(grid.on_grid(edges[at].2.position()));
        }
        let ghost table_before = result_paths@;
        let ghost l = masked_grid.lattice();
        let ghost corners_before: Vec<i32> = *raw_corner_usage;
        let ghost cost = congestion_cost(
            grid,
            raw_cost_prefix_x,
            raw_cost_prefix_y,
            raw_history_cost_prefix_x,
            raw_history_cost_prefix_y,
            &corners_before,
            raw_corner_history,
            BASE_COST,
            CORNER_LAMBDA,
            CORNER_CAPACITY,
        );
        let routed = route_single_edge(
            grid,
            raw_area,
            masked_grid,
            start,
            end,
            rng,
            raw_cost_prefix_x,
            raw_cost_prefix_y,
            raw_history_cost_prefix_x,
            raw_history_cost_prefix_y,
            raw_usage,
            raw_corner_usage,
            raw_corner_history,
            BASE_COST,
            CORNER_LAMBDA,
            CORNER_CAPACITY,
        );
        match routed {
            Ok(found) => {
                let key = found.0;
                let path_with_endpoints = found.1;
                proof {
                    assert(key == edge_key(*raw_area, edge));
                    assert(path_ok(path_with_endpoints));
                    let from = terminal_state(l.grid, start);
                    let goal = terminal_state(l.grid, end);
                    let states = choose|states: Seq<(GridPoint, Orientation)>|
                        #![trigger route_points(l.grid, states)]
                        path_with_endpoints.path.points@ == route_points(l.grid, states)
                            && is_routed(l, cost, from, goal, states);
                    grid.lemma_grid_point_at(start.position());
                    lemma_routed_shape(l, cost, from, goal, states);
                    assert(route_points(l.grid, states) == path_with_endpoints.path.points@);
                    assert(path_shaped(l, path_with_endpoints));
                    assert(stored_ok(l, *raw_area, edges@, key_code(key), path_with_endpoints));
                    assert(cost == pass_cost(&l.grid, &field, &corners_before));
                }
                let ghost stored = path_with_endpoints;
                result_paths.insert(key, path_with_endpoints);
                proof {
                    let from = terminal_state(l.grid, start);
                    let goal = terminal_state(l.grid, end);
                    let states = choose|states: Seq<(GridPoint, Orientation)>|
                        #![trigger route_points(l.grid, states)]
                        stored.path.points@ == route_points(l.grid, states) && is_routed(
                            l,
                            cost,
                            from,
                            goal,
                            states,
                        );
                    assert(routed_with(
                        l,
                        *raw_area,
                        field,
                        edge,
                        corners_before,
                        stored,
                        states,
                        usage_before,
                        table_before,
                        raw_usage@,
                        raw_corner_usage@,
                        result_paths@,
                    ));
                    assert(routed_one(
                        l,
                        *raw_area,
                        field,
                        edge,
                        usage_before,
                        corners_before@,
                        table_before,
                        raw_usage@,
                        raw_corner_usage@,
                        result_paths@,
                    ));
                    let longer = sorted@.subrange(0, k as int + 1);
                    assert(longer.drop_last() =~= sorted@.subrange(0, k as int));
                    assert(longer.last() == edge);
                    assert(routed_run(
                        l,
                        *raw_area,
                        field,
                        longer.drop_last(),
                        usage0,
                        corners0,
                        table0,
                        usage_before,
                        corners_before@,
                        table_before,
                    ));
                    assert(routed_run(
                        l,
                        *raw_area,
                        field,
                        longer,
                        usage0,
                        corners0,
                        table0,
                        raw_usage@,
                        raw_corner_usage@,
                        result_paths@,
                    ));
                }
                proof {
                    assert forall|code: u64| result_paths@.contains_key(code) implies #[trigger] stored_ok(
                        l,
                        *raw_area,
                        edges@,
                        code,
                        result_paths@[code],
                    ) by {
                        if code != key_code(key) {
                            assert(table_before.contains_key(code));
                            assert(stored_ok(l, *raw_area, edges@, code, table_before[code]));
                        }
                    }
                }
            },
            Err(_) => {
                proof {
                    assert(false);
                }
            },
        }
        k += 1;
    }
    proof {
        assert(sorted@.subrange(0, sorted.len() as int) =~= sorted@);
    }
}

/// The directed points of the path stored for the edge `i` of the batch
/// are a path for that edge.
pub proof fn lemma_stored_output(
    l: Lattice,
    area: RawArea,
    edges: Seq<EdgeRequest>,
    table: Map<u64, PathWithEndpoints>,
    i: int,
)
    requires
        area.well_formed(),
        requests_inside(area, edges),
        table_ok(l, area, edges, table),
        0 <= i < edges.len(),
        table.contains_key(key_code(edge_key(area, edges[i]))),
    ensures
        edge_output_ok(edges, i, stored_output(area, edges, table, i)),
        edge_routed_ok(l, edges, i, stored_output(area, edges, table, i)),
{
    let code = key_code(edge_key(area, edges[i]));
    let stored = table[code];
    assert(stored_ok(l, area, edges, code, stored));
    let j = choose|j: int|
        0 <= j < edges.len() && #[trigger] key_code(edge_key(area, edges[j])) == code
            && stored.start == edges[j].2 && stored.end == edges[j].3 && path_ok(stored)
            && path_shaped(l, stored);
    let states = choose|states: Seq<(GridPoint, Orientation)>|
        #![trigger route_points(l.grid, states)]
        route_points(l.grid, states) == stored.path.points@ && route_shape(
            l,
            terminal_state(l.grid, stored.start),
            terminal_state(l.grid, stored.end),
            states,
        );
    lemma_key_code_injective(edge_key(area, edges[j]), edge_key(area, edges[i]));
    assert(area.contains(edges[j].2.position()) && area.contains(edges[j].3.position()));
    assert(area.contains(edges[i].2.position()) && area.contains(edges[i].3.position()));
    area.lemma_dimensions();
    lemma_point_index(
        area.spec_width(),
        area.spec_height(),
        edges[j].2.position().x - area.top_left.x,
        edges[j].2.position().y - area.top_left.y,
    );
    lemma_point_index(
        area.spec_width(),
        area.spec_height(),
        edges[j].3.position().x - area.top_left.x,
        edges[j].3.position().y - area.top_left.y,
    );
    lemma_point_index(
        area.spec_width(),
        area.spec_height(),
        edges[i].2.position().x - area.top_left.x,
        edges[i].2.position().y - area.top_left.y,
    );
    lemma_point_index(
        area.spec_width(),
        area.spec_height(),
        edges[i].3.position().x - area.top_left.x,
        edges[i].3.position().y - area.top_left.y,
    );
    lemma_index_injective(area, edges[j].2.position(), edges[i].2.position());
    lemma_index_injective(area, edges[j].3.position(), edges[i].3.position());
    let points = stored.path.points@;
    assert(directed_points_of(points, edges[j].2, edges[j].3) == directed_points_of(
        points,
        stored.start,
        stored.end,
    ));
    assert(directed_points_of(route_points(l.grid, states), edges[j].2, edges[j].3)
        == stored_output(area, edges, table, i));
}

/// Two edges of the batch that are stored under the same key have the same
/// two places.
pub proof fn lemma_same_key_same_places(
    l: Lattice,
    kept: Seq<GridPoint>,
    nodes: Seq<PlacedRectangularNode>,
    edges: Seq<EdgeRequest>,
    j: int,
    i: int,
)
    requires
        batch_lattice(l, kept, nodes, edges),
        0 <= i < edges.len(),
        0 <= j < edges.len(),
        key_code(edge_key(batch_area(request_pairs(edges), nodes), edges[j])) == key_code(
            edge_key(batch_area(request_pairs(edges), nodes), edges[i]),
        ),
    ensures
        edges[j].2.position() == edges[i].2.position(),
        edges[j].3.position() == edges[i].3.position(),
{
    let area = batch_area(request_pairs(edges), nodes);
    let pairs = request_pairs(edges);
    assert(pairs[j] == (edges[j].2.position(), edges[j].3.position()));
    assert(pairs[i] == (edges[i].2.position(), edges[i].3.position()));
    l.grid.lemma_dimensions();
    assert(area == l.grid.spec_raw_area());
    assert(area.contains(edges[j].2.position()) && area.contains(edges[j].3.position()));
    assert(area.contains(edges[i].2.position()) && area.contains(edges[i].3.position()));
    lemma_key_code_injective(edge_key(area, edges[j]), edge_key(area, edges[i]));
    area.lemma_dimensions();
    lemma_point_index(
        area.spec_width(),
        area.spec_height(),
        edges[j].2.position().x - area.top_left.x,
        edges[j].2.position().y - area.top_left.y,
    );
    lemma_point_index(
        area.spec_width(),
        area.spec_height(),
        edges[j].3.position().x - area.top_left.x,
        edges[j].3.position().y - area.top_left.y,
    );
    lemma_point_index(
        area.spec_width(),
        area.spec_height(),
        edges[i].2.position().x - area.top_left.x,
        edges[i].2.position().y - area.top_left.y,
    );
    lemma_point_index(
        area.spec_width(),
        area.spec_height(),
        edges[i].3.position().x - area.top_left.x,
        edges[i].3.position().y - area.top_left.y,
    );
    lemma_index_injective(area, edges[j].2.position(), edges[i].2.position());
    lemma_index_injective(area, edges[j].3.position(), edges[i].3.position());
}

/// The path stored for the edge `i` of the batch, as directed points.
pub open spec fn stored_output(
    area: RawArea,
    edges: Seq<EdgeRequest>,
    table: Map<u64, PathWithEndpoints>,
    i: int,
) -> Seq<DirectedPoint> {
    directed_points_of(
        table[key_code(edge_key(area, edges[i]))].path.points@,
        table[key_code(edge_key(area, edges[i]))].start,
        table[key_code(edge_key(area, edges[i]))].end,
    )
}

/// The directed points of every edge of the batch, from the stored paths.
fn collect_paths(
    masked_grid: &MaskedGrid,
    raw_area: &RawArea,
    edges: &Vec<EdgeRequest>,
    result_paths: &PathTable,
) -> (out: Vec<Vec<DirectedPoint>>)
    requires
        raw_area.well_formed(),
        requests_inside(*raw_area, edges@),
        table_ok(masked_grid.lattice(), *raw_area, edges@, result_paths@),
        forall|i: int|
            0 <= i < edges.len() ==> result_paths@.contains_key(
                key_code(edge_key(*raw_area, #[trigger] edges[i])),
            ),
    ensures
        out.len() == edges.len(),
        forall|i: int| 0 <= i < edges.len() ==> edge_output_ok(edges@, i, (#[trigger] out[i])@),
        forall|i: int|
            0 <= i < edges.len() ==> edge_routed_ok(
                masked_grid.lattice(),
                edges@,
                i,
                (#[trigger] out[i])@,
            ),
        forall|i: int|
            0 <= i < edges.len() ==> (#[trigger] out[i])@ == stored_output(
                *raw_area,
                edges@,
                result_paths@,
                i,
            ),
{
    let mut directed_paths: Vec<Vec<DirectedPoint>> = Vec::with_capacity(edges.len());
    let ghost l = masked_grid.lattice();
    let mut i: usize = 0;
    while i < edges.len()
        invariant
            raw_area.well_formed(),
            requests_inside(*raw_area, edges@),
            l == masked_grid.lattice(),
            table_ok(l, *raw_area, edges@, result_paths@),
            forall|k: int|
                0 <= k < edges.len() ==> result_paths@.contains_key(
                    key_code(edge_key(*raw_area, #[trigger] edges[k])),
                ),
            i <= edges.len(),
            directed_paths.len() == i,
            forall|k: int| 0 <= k < i ==> edge_output_ok(edges@, k, (#[trigger] directed_paths[k])@),
            forall|k: int| 0 <= k < i ==> edge_routed_ok(l, edges@, k, (#[trigger] directed_paths[k])@),
            forall|k: int|
                0 <= k < i ==> (#[trigger] directed_paths[k])@ == stored_output(
                    *raw_area,
                    edges@,
                    result_paths@,
                    k,
                ),
        decreases edges.len() - i,
    {
        let edge = edges[i];
        let start_point = edge.2.as_point();
        let end_point = edge.3.as_point();
        proof {
            assert(raw_area.contains(edges[i as int].2.position()));
            assert(result_paths@.contains_key(key_code(edge_key(*raw_area, edges[i as int]))));
            lemma_stored_output(l, *raw_area, edges@, result_paths@, i as int);
        }
        let start_raw_point = raw_area.point_to_raw_point(&start_point);
        let end_raw_point = raw_area.point_to_raw_point(&end_point);
        let path = match (start_raw_point, end_raw_point) {
            (Some(s), Some(e)) => {
                match result_paths.get((s, e)) {
                    Some(path_with_endpoints) => path_with_endpoints.to_directed_points(),
                    None => {
                        proof {
                            assert((s, e) == edge_key(*raw_area, edges[i as int]));
                            assert(false);
                        }
                        Vec::new()
                    },
                }
            },
            _ => {
                proof {
                    assert(false);
                }
                Vec::new()
            },
        };
        directed_paths.push(path);
        i += 1;
    }
    directed_paths
}

/// The record `t` is that of the pass `k` of a batch: it has the number of
/// the pass, its total overflow is that of segments and corners together,
/// and it holds a path for every edge of the batch.
pub open spec fn pass_recorded(t: IterationTrace, k: int, edges: Seq<EdgeRequest>) -> bool {
    &&& t.iteration == k
    &&& t.total_overflow == t.edge_overflow + t.corner_overflow
    &&& 0 <= t.edge_overflow
    &&& 0 <= t.corner_overflow
    &&& t.all_paths.len() == edges.len()
    &&& forall|j: int|
        0 <= j < edges.len() ==> edge_output_ok(edges, j, (#[trigger] t.all_paths[j]).directed_path@)
}

/// The record `t` is that of the pass `k`, which ran as `log` says: the
/// overflow that it shows is that of the usage when the pass had routed its
/// edges, the usage that it shows is what the pass left, the edges that it
/// shows as ripped up are those that the pass queued, and the paths that it
/// shows are those stored after the pass.
pub open spec fn record_matches(
    t: IterationTrace,
    log: PassLog,
    k: int,
    area: RawArea,
    edges: Seq<EdgeRequest>,
) -> bool {
    &&& t.iteration == k
    &&& t.edge_overflow == crate::ripup::overflow_of(log.routed_usage, CAPACITY)
    &&& t.corner_overflow == crate::ripup::overflow_of(log.routed_corner_usage, CORNER_CAPACITY)
    &&& t.total_overflow == t.edge_overflow + t.corner_overflow
    &&& t.raw_usage@ == log.after.usage
    &&& t.raw_corner_usage@ == log.after.corner_usage
    &&& t.ripped_up_next@ == Seq::new(
        log.after.queue.len(),
        |j: int| (log.after.queue[j].2, log.after.queue[j].3),
    )
    &&& t.routed_edges.len() == log.sorted.len()
    &&& forall|j: int|
        0 <= j < log.sorted.len() ==> is_edge_trace(
            #[trigger] t.routed_edges[j],
            log.sorted[j],
            log.after.table,
            area,
            log.routed_usage,
            log.routed_corner_usage,
            CAPACITY,
            CORNER_CAPACITY,
        )
    &&& t.all_paths.len() == edges.len()
    &&& forall|j: int|
        0 <= j < edges.len() ==> is_edge_trace(
            #[trigger] t.all_paths[j],
            edges[j],
            log.after.table,
            area,
            log.routed_usage,
            log.routed_corner_usage,
            CAPACITY,
            CORNER_CAPACITY,
        )
}

/// There is one record for every pass of the run, and each record is that
/// of its pass.
pub open spec fn records_match(
    records: Seq<IterationTrace>,
    logs: Seq<PassLog>,
    area: RawArea,
    edges: Seq<EdgeRequest>,
) -> bool {
    &&& records.len() == logs.len()
    &&& forall|k: int|
        0 <= k < records.len() ==> record_matches(#[trigger] records[k], logs[k], k, area, edges)
}

/// The records are those of the passes of a routing call, in their order:
/// there is at least one pass and there are at most `MAX_ITERATIONS`; every
/// pass but the last left something in use beyond capacity, and the last
/// left nothing so or was the last that is allowed.
pub open spec fn passes_recorded(logs: Seq<IterationTrace>, edges: Seq<EdgeRequest>) -> bool {
    &&& 1 <= logs.len() <= MAX_ITERATIONS
    &&& forall|k: int| 0 <= k < logs.len() ==> pass_recorded(#[trigger] logs[k], k, edges)
    &&& forall|k: int| 0 <= k < logs.len() - 1 ==> (#[trigger] logs[k]).total_overflow > 0
    &&& logs.last().total_overflow == 0 || logs.len() == MAX_ITERATIONS
}

/// The scratch buffers of a routing call have the lengths that the raw
/// area asks for.
pub open spec fn buffers_fit(
    area: RawArea,
    raw_usage: Seq<i32>,
    raw_cost: Seq<i64>,
    raw_history_cost: Seq<i64>,
    raw_corner_usage: Seq<i32>,
    raw_corner_history: Seq<i64>,
    raw_cost_prefix_x: Seq<i64>,
    raw_cost_prefix_y: Seq<i64>,
    raw_history_cost_prefix_x: Seq<i64>,
    raw_history_cost_prefix_y: Seq<i64>,
) -> bool {
    &&& raw_usage.len() == area.spec_num_segments()
    &&& raw_cost.len() == area.spec_num_segments()
    &&& raw_history_cost.len() == area.spec_num_segments()
    &&& raw_corner_usage.len() == area.spec_size()
    &&& raw_corner_history.len() == area.spec_size()
    &&& raw_cost_prefix_x.len() == area.spec_size()
    &&& raw_cost_prefix_y.len() == area.spec_size()
    &&& raw_history_cost_prefix_x.len() == area.spec_size()
    &&& raw_history_cost_prefix_y.len() == area.spec_size()
}

/// The first half of a pass: brings the costs up to date, orders the edges
/// of the queue, routes them, and measures the overflow.
#[verifier::rlimit(60)]
fn route_queue(
    grid: &Grid,
    raw_area: &RawArea,
    masked_grid: &MaskedGrid,
    nodes: &Vec<PlacedRectangularNode>,
    edges: &Vec<EdgeRequest>,
    rng: &mut StdRng,
    iteration: usize,
    raw_usage: &mut Vec<i32>,
    raw_cost: &mut Vec<i64>,
    raw_history_cost: &Vec<i64>,
    raw_corner_usage: &mut Vec<i32>,
    raw_corner_history: &Vec<i64>,
    raw_cost_prefix_x: &mut Vec<i64>,
    raw_cost_prefix_y: &mut Vec<i64>,
    raw_history_cost_prefix_x: &mut Vec<i64>,
    raw_history_cost_prefix_y: &mut Vec<i64>,
    result_paths: &mut PathTable,
    op_edges: &Vec<EdgeRequest>,
) -> (r: (Vec<EdgeRequest>, (i64, i64, i64)))
    requires
        batch_on_grid(*grid, *raw_area, edges@),
        masked_grid.well_formed(),
        *masked_grid.grid == *grid,
        requests_in_range(edges@),
        nodes_well_formed(nodes@),
        buffers_fit(
            *raw_area,
            old(raw_usage)@,
            old(raw_cost)@,
            raw_history_cost@,
            old(raw_corner_usage)@,
            raw_corner_history@,
            old(raw_cost_prefix_x)@,
            old(raw_cost_prefix_y)@,
            old(raw_history_cost_prefix_x)@,
            old(raw_history_cost_prefix_y)@,
        ),
        iteration < MAX_ITERATIONS,
        history_within(raw_history_cost@, iteration * HISTORY_STEP),
        history_within(raw_corner_history@, iteration * HISTORY_STEP),
        table_ok(masked_grid.lattice(), *raw_area, edges@, old(result_paths)@),
        forall|k: int| 0 <= k < op_edges.len() ==> edges@.contains(#[trigger] op_edges[k]),
        iteration == 0 ==> op_edges@ == edges@,
        iteration > 0 ==> forall|i: int|
            0 <= i < edges.len() ==> old(result_paths)@.contains_key(
                key_code(edge_key(*raw_area, #[trigger] edges[i])),
            ),
    ensures
        buffers_fit(
            *raw_area,
            final(raw_usage)@,
            final(raw_cost)@,
            raw_history_cost@,
            final(raw_corner_usage)@,
            raw_corner_history@,
            final(raw_cost_prefix_x)@,
            final(raw_cost_prefix_y)@,
            final(raw_history_cost_prefix_x)@,
            final(raw_history_cost_prefix_y)@,
        ),
        table_ok(masked_grid.lattice(), *raw_area, edges@, final(result_paths)@),
        forall|i: int|
            0 <= i < edges.len() ==> final(result_paths)@.contains_key(
                key_code(edge_key(*raw_area, #[trigger] edges[i])),
            ),
        forall|k: int| 0 <= k < r.0.len() ==> edges@.contains(#[trigger] r.0[k]),
        forall|k: int|
            0 <= k < r.0.len() ==> final(result_paths)@.contains_key(
                key_code(edge_key(*raw_area, #[trigger] r.0[k])),
            ),
        requests_inside(*raw_area, r.0@),
        exists|scores: Seq<i64>| #[trigger]
            crate::ripup::scores_fit(op_edges@, nodes@, scores) && crate::ripup::is_ordered_by(
                op_edges@,
                scores,
                r.0@,
            ),
        exists|f: CostField| #[trigger]
            field_of(
                *raw_area,
                PassState {
                    usage: old(raw_usage)@,
                    corner_usage: old(raw_corner_usage)@,
                    history: raw_history_cost@,
                    corner_history: raw_corner_history@,
                    table: old(result_paths)@,
                    queue: op_edges@,
                },
                f,
            ) && routed_run(
                masked_grid.lattice(),
                *raw_area,
                f,
                r.0@,
                old(raw_usage)@,
                old(raw_corner_usage)@,
                old(result_paths)@,
                final(raw_usage)@,
                final(raw_corner_usage)@,
                final(result_paths)@,
            ),
        r.1.1 == crate::ripup::overflow_of(final(raw_usage)@, CAPACITY),
        r.1.2 == crate::ripup::overflow_of(final(raw_corner_usage)@, CORNER_CAPACITY),
        r.1.0 == r.1.1 + r.1.2,
{
    proof {
        raw_area.lemma_dimensions();
    }
    let ghost l = masked_grid.lattice();
    let ghost before = PassState {
        usage: raw_usage@,
        corner_usage: raw_corner_usage@,
        history: raw_history_cost@,
        corner_history: raw_corner_history@,
        table: result_paths@,
        queue: op_edges@,
    };
    prepare_costs(
        raw_area,
        raw_usage,
        raw_cost,
        raw_history_cost,
        raw_cost_prefix_x,
        raw_cost_prefix_y,
        raw_history_cost_prefix_x,
        raw_history_cost_prefix_y,
    );
    proof {
        assert forall|k: int| 0 <= k < op_edges.len() implies (
        #[trigger] op_edges[k]).2.position().in_range() && op_edges[k].3.position().in_range() by {
            assert(edges@.contains(op_edges[k]));
            let j = choose|j: int| 0 <= j < edges.len() && edges[j] == op_edges[k];
            assert(edges[j].2.position().in_range());
        }
    }
    let sorted_edges = order_edges_by_difficulty(op_edges, nodes, rng);
    proof {
        assert forall|k: int| 0 <= k < sorted_edges.len() implies edges@.contains(
            #[trigger] sorted_edges[k],
        ) by {
            assert(op_edges@.contains(sorted_edges[k]));
            let j = choose|j: int| 0 <= j < op_edges.len() && op_edges[j] == sorted_edges[k];
            assert(edges@.contains(op_edges[j]));
        }
        assert forall|k: int| 0 <= k < sorted_edges.len() implies raw_area.contains(
            (#[trigger] sorted_edges[k]).2.position(),
        ) && raw_area.contains(sorted_edges[k].3.position()) by {
            assert(edges@.contains(sorted_edges[k]));
            let j = choose|j: int| 0 <= j < edges.len() && edges[j] == sorted_edges[k];
            assert(raw_area.contains(edges[j].2.position()));
        }
    }
    let ghost field = cost_field(
        raw_cost_prefix_x,
        raw_cost_prefix_y,
        raw_history_cost_prefix_x,
        raw_history_cost_prefix_y,
        raw_corner_history,
    );
    proof {
        assert(field_of(*raw_area, before, field));
    }
    route_pass(
        grid,
        raw_area,
        masked_grid,
        edges,
        &sorted_edges,
        rng,
        raw_cost_prefix_x,
        raw_cost_prefix_y,
        raw_history_cost_prefix_x,
        raw_history_cost_prefix_y,
        raw_usage,
        raw_corner_usage,
        raw_corner_history,
        result_paths,
    );
    proof {
        if iteration == 0 {
            assert forall|i: int| 0 <= i < edges.len() implies result_paths@.contains_key(
                key_code(edge_key(*raw_area, #[trigger] edges[i])),
            ) by {
                assert(sorted_edges@.contains(op_edges[i]));
                let k = choose|k: int|
                    0 <= k < sorted_edges.len() && sorted_edges[k] == op_edges[i];
                assert(result_paths@.contains_key(key_code(edge_key(*raw_area, sorted_edges[k]))));
            }
        }
    }
    let overflow = compute_overflow(raw_usage, raw_corner_usage, CAPACITY, CORNER_CAPACITY);
    (sorted_edges, overflow)
}

/// The second half of a pass that left overflow: the history grows by the
/// overflow, the edges whose stored paths pass overflow are chosen, and
/// their stored paths are taken off the usage. Returns the edges chosen.
fn rip_up(
    raw_area: &RawArea,
    edges: &Vec<EdgeRequest>,
    sorted_edges: &Vec<EdgeRequest>,
    iteration: usize,
    raw_usage: &mut Vec<i32>,
    raw_history_cost: &mut Vec<i64>,
    raw_corner_usage: &mut Vec<i32>,
    raw_corner_history: &mut Vec<i64>,
    result_paths: &PathTable,
) -> (op_edges: Vec<EdgeRequest>)
    requires
        raw_area.well_formed(),
        requests_inside(*raw_area, sorted_edges@),
        forall|k: int| 0 <= k < sorted_edges.len() ==> edges@.contains(#[trigger] sorted_edges[k]),
        old(raw_usage).len() == raw_area.spec_num_segments(),
        old(raw_history_cost).len() == raw_area.spec_num_segments(),
        old(raw_corner_usage).len() == raw_area.spec_size(),
        old(raw_corner_history).len() == raw_area.spec_size(),
        iteration < MAX_ITERATIONS,
        history_within(old(raw_history_cost)@, iteration * HISTORY_STEP),
        history_within(old(raw_corner_history)@, iteration * HISTORY_STEP),
    ensures
        final(raw_usage).len() == old(raw_usage).len(),
        final(raw_history_cost).len() == old(raw_history_cost).len(),
        final(raw_corner_usage).len() == old(raw_corner_usage).len(),
        final(raw_corner_history).len() == old(raw_corner_history).len(),
        history_within(final(raw_history_cost)@, (iteration + 1) * HISTORY_STEP),
        history_within(final(raw_corner_history)@, (iteration + 1) * HISTORY_STEP),
        forall|k: int| 0 <= k < op_edges.len() ==> edges@.contains(#[trigger] op_edges[k]),
        final(raw_history_cost)@ == grown(old(raw_history_cost)@, old(raw_usage)@, CAPACITY),
        final(raw_corner_history)@ == grown(
            old(raw_corner_history)@,
            old(raw_corner_usage)@,
            CORNER_CAPACITY,
        ),
        op_edges@ == crate::ripup::rip_selection(
            sorted_edges@,
            result_paths@,
            *raw_area,
            old(raw_usage)@,
            old(raw_corner_usage)@,
            CAPACITY,
            CORNER_CAPACITY,
        ),
        final(raw_usage)@ == crate::ripup::ripped_usage(
            old(raw_usage)@,
            op_edges@,
            result_paths@,
            *raw_area,
        ),
        final(raw_corner_usage)@ == crate::ripup::ripped_corner_usage(
            old(raw_corner_usage)@,
            op_edges@,
            result_paths@,
            *raw_area,
        ),
{
    let ghost history_before = raw_history_cost@;
    let ghost corner_history_before = raw_corner_history@;
    update_edge_history_cost(raw_usage, raw_history_cost, CAPACITY);
    update_corner_history_cost(raw_corner_usage, raw_corner_history, CORNER_CAPACITY);
    proof {
        assert(raw_history_cost@ =~= grown(history_before, raw_usage@, CAPACITY));
        assert(raw_corner_history@ =~= grown(
            corner_history_before,
            raw_corner_usage@,
            CORNER_CAPACITY,
        ));
    }
    let to_rip = select_edges_to_rip(
        sorted_edges,
        result_paths,
        raw_area,
        raw_usage,
        raw_corner_usage,
        CAPACITY,
        CORNER_CAPACITY,
    );
    proof {
        assert forall|k: int| 0 <= k < to_rip.len() implies raw_area.contains(
            (#[trigger] to_rip[k]).2.position(),
        ) && raw_area.contains(to_rip[k].3.position()) && edges@.contains(to_rip[k]) by {
            assert(sorted_edges@.contains(to_rip[k]));
            let j = choose|j: int| 0 <= j < sorted_edges.len() && sorted_edges[j] == to_rip[k];
            assert(raw_area.contains(sorted_edges[j].2.position()));
            assert(edges@.contains(sorted_edges[j]));
        }
    }
    rip_up_and_queue(&to_rip, result_paths, raw_area, raw_usage, raw_corner_usage)
}

/// Routes the batch, then rips up and routes again the edges that pass
/// raw segments or corners in use beyond their capacity, for at most
/// `MAX_ITERATIONS` passes or until nothing is in use beyond its capacity.
/// Returns the path of every edge as the last pass that routed it left it,
/// and the run of passes that led there. Where a record is asked for, every
/// pass is recorded.
#[verifier::rlimit(80)]
fn negotiate(
    grid: &Grid,
    raw_area: &RawArea,
    masked_grid: &MaskedGrid,
    nodes: &Vec<PlacedRectangularNode>,
    edges: &Vec<EdgeRequest>,
    rng: &mut StdRng,
    trace_enabled: bool,
    iteration_logs: &mut Vec<IterationTrace>,
) -> (r: (PathTable, Ghost<Seq<PassLog>>))
    requires
        batch_on_grid(*grid, *raw_area, edges@),
        masked_grid.well_formed(),
        *masked_grid.grid == *grid,
        requests_in_range(edges@),
        nodes_well_formed(nodes@),
        old(iteration_logs).len() == 0,
    ensures
        table_ok(masked_grid.lattice(), *raw_area, edges@, r.0@),
        forall|i: int|
            0 <= i < edges.len() ==> r.0@.contains_key(
                key_code(edge_key(*raw_area, #[trigger] edges[i])),
            ),
        is_run(masked_grid.lattice(), *raw_area, nodes@, edges@, r.1@),
        r.0@ == r.1@.last().after.table,
        !trace_enabled ==> final(iteration_logs).len() == 0,
        trace_enabled ==> passes_recorded(final(iteration_logs)@, edges@),
        trace_enabled ==> records_match(final(iteration_logs)@, r.1@, *raw_area, edges@),
        trace_enabled ==> forall|j: int|
            0 <= j < edges.len() ==> (#[trigger] final(iteration_logs)@.last().all_paths[j]).directed_path@
                == stored_output(*raw_area, edges@, r.0@, j),
{
    proof {
        raw_area.lemma_dimensions();
    }
    let raw_num_segments = raw_area.num_segments();
    let raw_size = raw_area.size();
    let mut raw_usage = zeros_i32(raw_num_segments);
    let mut raw_cost = zeros_i64(raw_num_segments);
    let mut raw_history_cost = zeros_i64(raw_num_segments);
    let mut raw_corner_usage = zeros_i32(raw_size);
    let mut raw_corner_history = zeros_i64(raw_size);
    let mut raw_cost_prefix_x = zeros_i64(raw_size);
    let mut raw_cost_prefix_y = zeros_i64(raw_size);
    let mut raw_history_cost_prefix_x = zeros_i64(raw_size);
    let mut raw_history_cost_prefix_y = zeros_i64(raw_size);
    let mut result_paths = PathTable::new();
    let mut op_edges = copy_requests(edges);
    let mut iteration: usize = 0;
    let mut finished = false;
    let ghost l = masked_grid.lattice();
    let ghost mut logs: Seq<PassLog> = Seq::empty();
    proof {
        let first = first_state(*raw_area, edges@);
        assert(raw_usage@ =~= first.usage);
        assert(raw_corner_usage@ =~= first.corner_usage);
        assert(raw_history_cost@ =~= first.history);
        assert(raw_corner_history@ =~= first.corner_history);
    }
    while iteration < MAX_ITERATIONS && !finished
        invariant
            batch_on_grid(*grid, *raw_area, edges@),
            raw_area.well_formed(),
            masked_grid.well_formed(),
            *masked_grid.grid == *grid,
            requests_in_range(edges@),
            nodes_well_formed(nodes@),
            buffers_fit(
                *raw_area,
                raw_usage@,
                raw_cost@,
                raw_history_cost@,
                raw_corner_usage@,
                raw_corner_history@,
                raw_cost_prefix_x@,
                raw_cost_prefix_y@,
                raw_history_cost_prefix_x@,
                raw_history_cost_prefix_y@,
            ),
            iteration <= MAX_ITERATIONS,
            history_within(raw_history_cost@, iteration * HISTORY_STEP),
            history_within(raw_corner_history@, iteration * HISTORY_STEP),
            table_ok(masked_grid.lattice(), *raw_area, edges@, result_paths@),
            forall|k: int| 0 <= k < op_edges.len() ==> edges@.contains(#[trigger] op_edges[k]),
            iteration == 0 ==> op_edges@ == edges@ && !finished,
            iteration > 0 ==> forall|i: int|
                0 <= i < edges.len() ==> result_paths@.contains_key(
                    key_code(edge_key(*raw_area, #[trigger] edges[i])),
                ),
            l == masked_grid.lattice(),
            logs.len() == iteration,
            run_so_far(l, *raw_area, nodes@, edges@, logs),
            iteration == 0 ==> (PassState {
                usage: raw_usage@,
                corner_usage: raw_corner_usage@,
                history: raw_history_cost@,
                corner_history: raw_corner_history@,
                table: result_paths@,
                queue: op_edges@,
            }) == first_state(*raw_area, edges@),
            iteration > 0 ==> logs.last().after == (PassState {
                usage: raw_usage@,
                corner_usage: raw_corner_usage@,
                history: raw_history_cost@,
                corner_history: raw_corner_history@,
                table: result_paths@,
                queue: op_edges@,
            }) && (pass_overflow(logs.last()) == 0) == finished,
            trace_enabled ==> forall|k: int|
                0 <= k < iteration_logs.len() ==> record_matches(
                    #[trigger] iteration_logs[k],
                    logs[k],
                    k,
                    *raw_area,
                    edges@,
                ),
            !trace_enabled ==> iteration_logs.len() == 0,
            trace_enabled ==> iteration_logs.len() == iteration,
            trace_enabled ==> forall|k: int|
                0 <= k < iteration_logs.len() ==> pass_recorded(
                    #[trigger] iteration_logs[k],
                    k,
                    edges@,
                ),
            trace_enabled ==> forall|k: int|
                0 <= k < iteration_logs.len() - 1 ==> (#[trigger] iteration_logs[k]).total_overflow
                    > 0,
            trace_enabled && iteration > 0 ==> (iteration_logs@.last().total_overflow == 0)
                == finished,
            trace_enabled && iteration > 0 ==> forall|j: int|
                0 <= j < edges.len() ==> (#[trigger] iteration_logs@.last().all_paths[j]).directed_path@
                    == stored_output(*raw_area, edges@, result_paths@, j),
        decreases MAX_ITERATIONS - iteration, if finished { 0int } else { 1int },
    {
        let ghost before = PassState {
            usage: raw_usage@,
            corner_usage: raw_corner_usage@,
            history: raw_history_cost@,
            corner_history: raw_corner_history@,
            table: result_paths@,
            queue: op_edges@,
        };
        let routed = route_queue(
            grid,
            raw_area,
            masked_grid,
            nodes,
            edges,
            rng,
            iteration,
            &mut raw_usage,
            &mut raw_cost,
            &raw_history_cost,
            &mut raw_corner_usage,
            &raw_corner_history,
            &mut raw_cost_prefix_x,
            &mut raw_cost_prefix_y,
            &mut raw_history_cost_prefix_x,
            &mut raw_history_cost_prefix_y,
            &mut result_paths,
            &op_edges,
        );
        proof {
            assert(exists|scores: Seq<i64>| #[trigger]
                crate::ripup::scores_fit(before.queue, nodes@, scores)
                    && crate::ripup::is_ordered_by(before.queue, scores, routed.0@));
            assert(exists|f: CostField| #[trigger]
                field_of(*raw_area, before, f) && routed_run(
                    l,
                    *raw_area,
                    f,
                    routed.0@,
                    before.usage,
                    before.corner_usage,
                    before.table,
                    raw_usage@,
                    raw_corner_usage@,
                    result_paths@,
                ));
        }
        let ghost sorted_view = routed.0@;
        let ghost scores = choose|scores: Seq<i64>| #[trigger]
            crate::ripup::scores_fit(before.queue, nodes@, scores) && crate::ripup::is_ordered_by(
                before.queue,
                scores,
                sorted_view,
            );
        let ghost field = choose|f: CostField| #[trigger]
            field_of(*raw_area, before, f) && routed_run(
                l,
                *raw_area,
                f,
                sorted_view,
                before.usage,
                before.corner_usage,
                before.table,
                raw_usage@,
                raw_corner_usage@,
                result_paths@,
            );
        let ghost routed_table = result_paths@;
        let sorted_edges = routed.0;
        let overflow = routed.1;
        finished = overflow.0 == 0;
        proof {
            assert(sorted_edges@ == sorted_view);
        }
        let ghost routed_usage = raw_usage@;
        let ghost routed_corner_usage = raw_corner_usage@;
        let mut routed_trace: Vec<RoutedEdgeTrace> = Vec::new();
        let mut all_trace: Vec<RoutedEdgeTrace> = Vec::new();
        if trace_enabled {
            routed_trace =
            trace_paths(
                &sorted_edges,
                &result_paths,
                raw_area,
                &raw_usage,
                &raw_corner_usage,
                CAPACITY,
                CORNER_CAPACITY,
            );
            all_trace =
            trace_paths(
                edges,
                &result_paths,
                raw_area,
                &raw_usage,
                &raw_corner_usage,
                CAPACITY,
                CORNER_CAPACITY,
            );
            proof {
                assert forall|j: int| 0 <= j < edges.len() implies (#[trigger] all_trace[j]).directed_path@
                    == stored_output(*raw_area, edges@, result_paths@, j) && edge_output_ok(
                    edges@,
                    j,
                    all_trace[j].directed_path@,
                ) by {
                    assert(is_edge_trace(
                        all_trace[j],
                        edges[j],
                        result_paths@,
                        *raw_area,
                        raw_usage@,
                        raw_corner_usage@,
                        CAPACITY,
                        CORNER_CAPACITY,
                    ));
                    lemma_stored_output(masked_grid.lattice(), *raw_area, edges@, result_paths@, j);
                }
                lemma_overflow_nonnegative(raw_usage@, CAPACITY);
                lemma_overflow_nonnegative(raw_corner_usage@, CORNER_CAPACITY);
            }
        }
        if !finished {
            op_edges =
            rip_up(
                raw_area,
                edges,
                &sorted_edges,
                iteration,
                &mut raw_usage,
                &mut raw_history_cost,
                &mut raw_corner_usage,
                &mut raw_corner_history,
                &result_paths,
            );
        } else {
            op_edges.clear();
        }
        let ghost after = PassState {
            usage: raw_usage@,
            corner_usage: raw_corner_usage@,
            history: raw_history_cost@,
            corner_history: raw_corner_history@,
            table: result_paths@,
            queue: op_edges@,
        };
        let ghost log = PassLog {
            before,
            sorted: sorted_edges@,
            routed_usage,
            routed_corner_usage,
            after,
        };
        proof {
            assert(pass_overflow(log) == overflow.0);
            assert(log.sorted == sorted_view);
            assert(log.after.table == routed_table);
            assert(crate::ripup::scores_fit(log.before.queue, nodes@, scores)
                && crate::ripup::is_ordered_by(log.before.queue, scores, log.sorted));
            assert(field_of(*raw_area, log.before, field) && routed_run(
                l,
                *raw_area,
                field,
                log.sorted,
                log.before.usage,
                log.before.corner_usage,
                log.before.table,
                log.routed_usage,
                log.routed_corner_usage,
                log.after.table,
            ));
            if finished {
                assert(log.after.queue.len() == 0);
                assert(log.after.history == log.before.history);
            } else {
                assert(log.after.history == grown(log.before.history, log.routed_usage, CAPACITY));
                assert(log.after.queue == crate::ripup::rip_selection(
                    log.sorted,
                    log.after.table,
                    *raw_area,
                    log.routed_usage,
                    log.routed_corner_usage,
                    CAPACITY,
                    CORNER_CAPACITY,
                ));
            }
            assert(pass_ok(l, *raw_area, nodes@, log));
            let longer = logs.push(log);
            assert forall|k: int| 0 <= k < longer.len() implies pass_ok(
                l,
                *raw_area,
                nodes@,
                #[trigger] longer[k],
            ) by {
                if k < logs.len() {
                    assert(longer[k] == logs[k]);
                }
            }
            assert forall|k: int| 0 <= k < longer.len() - 1 implies (#[trigger] longer[k]).after
                == longer[k + 1].before && pass_overflow(longer[k]) != 0 by {
                assert(longer[k] == logs[k]);
                if k + 1 < logs.len() {
                    assert(longer[k + 1] == logs[k + 1]);
                }
            }
            logs = longer;
        }
        if trace_enabled {
            let ghost logs_before = iteration_logs@;
            let record = record_iteration_trace(
                iteration,
                routed_trace,
                all_trace,
                &op_edges,
                &raw_usage,
                &raw_corner_usage,
                overflow.0,
                overflow.1,
                overflow.2,
            );
            proof {
                assert(record_matches(record, log, iteration as int, *raw_area, edges@));
                assert(pass_recorded(record, iteration as int, edges@));
            }
            iteration_logs.push(record);
            proof {
                assert forall|k: int| 0 <= k < iteration_logs.len() implies pass_recorded(
                    #[trigger] iteration_logs[k],
                    k,
                    edges@,
                ) by {
                    if k < logs_before.len() {
                        assert(iteration_logs[k] == logs_before[k]);
                    }
                }
                assert forall|k: int| 0 <= k < iteration_logs.len() - 1 implies (
                #[trigger] iteration_logs[k]).total_overflow > 0 by {
                    assert(iteration_logs[k] == logs_before[k]);
                }
                assert forall|k: int| 0 <= k < iteration_logs.len() implies record_matches(
                    #[trigger] iteration_logs[k],
                    logs[k],
                    k,
                    *raw_area,
                    edges@,
                ) by {
                    if k < logs_before.len() {
                        assert(iteration_logs[k] == logs_before[k]);
                    }
                }
            }
        }
        iteration += 1;
    }
    (result_paths, Ghost(logs))
}

/// No overflow is negative.
pub proof fn lemma_overflow_nonnegative(usage: Seq<i32>, capacity: i32)
    ensures
        crate::ripup::overflow_of(usage, capacity) >= 0,
    decreases usage.len(),
{
    if usage.len() > 0 {
        lemma_overflow_nonnegative(usage.drop_last(), capacity);
    }
}

/// What holds of the paths that routing returns for a batch that is not
/// empty: there is one path for each edge, each leads from the start point
/// to the end point of its edge, edges with the same two places have the
/// same path, and the paths are those that a run of negotiated routing on
/// the masked grid of the batch leaves.
pub open spec fn paths_ok(
    nodes: Seq<PlacedRectangularNode>,
    edges: Seq<EdgeRequest>,
    paths: Seq<Vec<DirectedPoint>>,
) -> bool {
    &&& paths.len() == edges.len()
    &&& forall|i: int| 0 <= i < edges.len() ==> edge_output_ok(edges, i, (#[trigger] paths[i])@)
    &&& forall|i: int, j: int|
        0 <= i < edges.len() && 0 <= j < edges.len() && edges[i].2.position()
            == edges[j].2.position() && edges[i].3.position() == edges[j].3.position() ==> (
        #[trigger] paths[i])@ == (#[trigger] paths[j])@
    &&& exists|l: Lattice, kept: Seq<GridPoint>, logs: Seq<PassLog>| #[trigger]
        routed_by(l, kept, logs, nodes, edges, paths)
}

/// The paths are those that a run of negotiated routing on the masked grid
/// of the batch leaves: the passes `logs` were made, one after the other
/// until a pass left nothing in use beyond capacity or `MAX_ITERATIONS`
/// were made, and the path of every edge is the one stored under the raw
/// points of its endpoints after the last pass.
pub open spec fn routed_by(
    l: Lattice,
    kept: Seq<GridPoint>,
    logs: Seq<PassLog>,
    nodes: Seq<PlacedRectangularNode>,
    edges: Seq<EdgeRequest>,
    paths: Seq<Vec<DirectedPoint>>,
) -> bool {
    let area = batch_area(request_pairs(edges), nodes);
    &&& batch_lattice(l, kept, nodes, edges)
    &&& is_run(l, area, nodes, edges, logs)
    &&& paths.len() == edges.len()
    &&& forall|i: int|
        0 <= i < edges.len() ==> (#[trigger] paths[i])@ == stored_output(
            area,
            edges,
            logs.last().after.table,
            i,
        )
    &&& forall|i: int| 0 <= i < edges.len() ==> edge_routed_ok(l, edges, i, (#[trigger] paths[i])@)
}

/// The nodes of the stored pairs of a handle and a node.
pub open spec fn nodes_of(placed: Seq<(usize, PlacedRectangularNode)>) -> Seq<PlacedRectangularNode> {
    Seq::new(placed.len(), |i: int| placed[i].1)
}

/// What holds of the record of a routing call: it shows the area of the
/// batch, the grid points of the masked grid and the placed nodes with
/// their handles, it has a record for every pass of a run that leaves the
/// paths returned, and each record is that of its pass.
pub open spec fn trace_ok(
    placed: Seq<(usize, PlacedRectangularNode)>,
    edges: Seq<EdgeRequest>,
    paths: Seq<Vec<DirectedPoint>>,
    trace: RoutingTrace,
) -> bool {
    let nodes = nodes_of(placed);
    &&& trace.raw_area == batch_area(request_pairs(edges), nodes)
    &&& trace.nodes.len() == nodes.len()
    &&& passes_recorded(trace.iterations@, edges)
    &&& forall|j: int|
        0 <= j < edges.len() ==> (#[trigger] trace.iterations@.last().all_paths[j]).directed_path@
            == paths[j]@
    &&& exists|l: Lattice, kept: Seq<GridPoint>, logs: Seq<PassLog>| #[trigger]
        routed_by(l, kept, logs, nodes, edges, paths) && records_match(
            trace.iterations@,
            logs,
            trace.raw_area,
            edges,
        ) && layout_shown(l, placed, trace.grid_points@, trace.nodes@)
}

/// What routing a batch returns.
///
/// An empty batch gives no paths. A batch with an endpoint outside the
/// accepted coordinate range fails with `CoordinateOutOfRange`, and one that
/// spans, together with the nodes, more than a raw area may hold fails with
/// `AreaTooLarge`. Every other batch gives one path for each edge, in the
/// order of the batch, as `paths_ok` says.
pub open spec fn routing_outcome(
    nodes: Seq<PlacedRectangularNode>,
    edges: Seq<EdgeRequest>,
    r: Result<EdgeRoutingsResult, RouteError>,
) -> bool {
    let out_of_range = edges.len() > 0 && !requests_in_range(edges);
    let too_large = edges.len() > 0 && requests_in_range(edges) && !batch_area(
        request_pairs(edges),
        nodes,
    ).well_formed();
    &&& out_of_range <==> r == Err::<EdgeRoutingsResult, RouteError>(
        RouteError::CoordinateOutOfRange,
    )
    &&& too_large <==> r == Err::<EdgeRoutingsResult, RouteError>(RouteError::AreaTooLarge)
    &&& r is Ok <==> !out_of_range && !too_large
    &&& r is Ok ==> r.unwrap().paths.len() == edges.len()
    &&& r is Ok && edges.len() > 0 ==> paths_ok(nodes, edges, r.unwrap().paths@)
}

/// What routing a batch with a record returns: what routing without one
/// returns, and for a batch that is not empty the record of its passes.
pub open spec fn traced_outcome(
    placed: Seq<(usize, PlacedRectangularNode)>,
    edges: Seq<EdgeRequest>,
    r: Result<(EdgeRoutingsResult, Option<RoutingTrace>), RouteError>,
) -> bool {
    &&& routing_outcome(
        nodes_of(placed),
        edges,
        match r {
            Ok(found) => Ok(found.0),
            Err(e) => Err(e),
        },
    )
    &&& r is Ok ==> (r.unwrap().1 is Some <==> edges.len() > 0)
    &&& r is Ok && edges.len() > 0 ==> trace_ok(
        placed,
        edges,
        r.unwrap().0.paths@,
        r.unwrap().1.unwrap(),
    )
}

/// Routes a batch that is not empty on the grid built for it.
fn route_on_grid(
    grid: &Grid,
    nodes: &Vec<PlacedRectangularNode>,
    placed_nodes: &Vec<(usize, PlacedRectangularNode)>,
    edges: &Vec<EdgeRequest>,
    trace_enabled: bool,
) -> (r: (Vec<Vec<DirectedPoint>>, Option<RoutingTrace>))
    requires
        edges.len() > 0,
        requests_in_range(edges@),
        nodes_well_formed(nodes@),
        grid.built_from(request_pairs(edges@), nodes@),
        nodes@ == nodes_of(placed_nodes@),
        forall|i: int| 0 <= i < placed_nodes.len() ==> (#[trigger] placed_nodes[i]).1.well_formed(),
    ensures
        paths_ok(nodes@, edges@, r.0@),
        r.1 is Some <==> trace_enabled,
        trace_enabled ==> trace_ok(placed_nodes@, edges@, r.0@, r.1.unwrap()),
{
    let raw_area = grid.raw_area();
    let ghost pairs = request_pairs(edges@);
    proof {
        assert forall|i: int| 0 <= i < edges.len() implies raw_area.contains(
            (#[trigger] edges[i]).2.position(),
        ) && raw_area.contains(edges[i].3.position()) && grid.on_grid(edges[i].2.position())
            && grid.on_grid(edges[i].3.position()) by {
            assert(pairs[i] == (edges[i].2.position(), edges[i].3.position()));
            assert(grid.on_grid(pairs[i].0) && grid.on_grid(pairs[i].1));
        }
    }
    let start_end_points = start_end_grid_points(grid, edges);
    let seed = routing_seed(edges, nodes);
    let mut rng = seeded_rng(seed);
    let masked_grid = MaskedGrid::from_nodes(grid, nodes, &start_end_points);
    let mut iteration_logs: Vec<IterationTrace> = Vec::new();
    let negotiated = negotiate(
        grid,
        &raw_area,
        &masked_grid,
        nodes,
        edges,
        &mut rng,
        trace_enabled,
        &mut iteration_logs,
    );
    let result_paths = negotiated.0;
    let ghost run = negotiated.1@;
    let directed_paths = collect_paths(&masked_grid, &raw_area, edges, &result_paths);
    proof {
        let l = masked_grid.lattice();
        let kept = start_end_points@;
        lemma_kept_are_endpoints(*grid, kept, edges@);
        assert(batch_lattice(l, kept, nodes@, edges@));
        assert(raw_area == batch_area(pairs, nodes@));
        assert(routed_by(l, kept, run, nodes@, edges@, directed_paths@));
        lemma_same_places_same_path(raw_area, edges@, result_paths@, directed_paths@);
    }
    let trace = if trace_enabled {
        let layout = build_trace_layout_data(grid, &masked_grid, placed_nodes);
        proof {
            assert(records_match(iteration_logs@, run, raw_area, edges@));
            assert(layout_shown(masked_grid.lattice(), placed_nodes@, layout.0@, layout.1@));
        }
        Some(RoutingTrace { nodes: layout.1, grid_points: layout.0, raw_area, iterations: iteration_logs })
    } else {
        None
    };
    (directed_paths, trace)
}

/// Edges with the same two places have the same stored path.
proof fn lemma_same_places_same_path(
    area: RawArea,
    edges: Seq<EdgeRequest>,
    table: Map<u64, PathWithEndpoints>,
    paths: Seq<Vec<DirectedPoint>>,
)
    requires
        paths.len() == edges.len(),
        forall|i: int|
            0 <= i < edges.len() ==> (#[trigger] paths[i])@ == stored_output(area, edges, table, i),
    ensures
        forall|i: int, j: int|
            0 <= i < edges.len() && 0 <= j < edges.len() && edges[i].2.position()
                == edges[j].2.position() && edges[i].3.position() == edges[j].3.position() ==> (
            #[trigger] paths[i])@ == (#[trigger] paths[j])@,
{
}

impl EdgeRouter {
    /// Routes a batch, with a record of the passes where one is asked for.
    fn route_batch(&self, edges: &Vec<EdgeRequest>, trace_enabled: bool) -> (r: Result<
        (EdgeRoutingsResult, Option<RoutingTrace>),
        RouteError,
    >)
        requires
            self.well_formed(),
        ensures
            routing_outcome(
                self.nodes(),
                edges@,
                match r {
                    Ok(found) => Ok(found.0),
                    Err(e) => Err(e),
                },
            ),
            trace_enabled ==> traced_outcome(self.placed_nodes@, edges@, r),
    {
        if edges.len() == 0 {
            return Ok((EdgeRoutingsResult::new(Vec::new()), None));
        }
        if !check_requests(edges) {
            return Err(RouteError::CoordinateOutOfRange);
        }
        let nodes = self.node_list();
        let pairs = request_points(edges);
        proof {
            assert forall|i: int| 0 <= i < pairs.len() implies (#[trigger] pairs[i]).0.in_range()
                && pairs[i].1.in_range() by {
                assert(edges[i].2.position().in_range());
            }
            assert forall|i: int| 0 <= i < nodes.len() implies (#[trigger] nodes[i]).well_formed() by {
                assert(self.placed_nodes[i].1.well_formed());
            }
        }
        let grid = match Grid::try_from_edges_and_nodes(&pairs, &nodes) {
            Some(g) => g,
            None => {
                return Err(RouteError::AreaTooLarge);
            },
        };
        let routed = route_on_grid(&grid, &nodes, &self.placed_nodes, edges, trace_enabled);
        Ok((EdgeRoutingsResult::new(routed.0), routed.1))
    }

    /// Routes a batch of edges around the placed nodes. The paths come in
    /// the order of the batch, one for each edge.
    pub fn route_edges(&self, edges: Vec<EdgeRequest>) -> (r: Result<EdgeRoutingsResult, RouteError>)
        requires
            self.well_formed(),
        ensures
            routing_outcome(self.nodes(), edges@, r),
    {
        match self.route_batch(&edges, false) {
            Ok(found) => Ok(found.0),
            Err(e) => Err(e),
        }
    }

    /// Routes a batch of edges as `route_edges` does, and returns with the
    /// paths a record of the grid and of every pass. An empty batch has no
    /// record.
    pub fn route_edges_traced(&self, edges: Vec<EdgeRequest>) -> (r: Result<
        (EdgeRoutingsResult, Option<RoutingTrace>),
        RouteError,
    >)
        requires
            self.well_formed(),
        ensures
            traced_outcome(self.placed_nodes@, edges@, r),
    {
        self.route_batch(&edges, true)
    }

    /// Routes one edge around the placed nodes, as a batch of its own. The
    /// two further points are not looked at.
    pub fn route_edge(
        &self,
        u: usize,
        v: usize,
        start: DirectedPoint,
        end: DirectedPoint,
        _global_start: DirectedPoint,
        _global_end: DirectedPoint,
        config: RoutingConfig,
    ) -> (r: Result<EdgeRoutingResult, RouteError>)
        requires
            self.well_formed(),
        ensures
            r is Ok <==> routing_succeeds(self.nodes(), seq![(u, v, start, end, config)]),
            r is Err ==> (r == Err::<EdgeRoutingResult, RouteError>(
                RouteError::CoordinateOutOfRange,
            ) <==> !requests_in_range(seq![(u, v, start, end, config)])) && (r == Err::<
                EdgeRoutingResult,
                RouteError,
            >(RouteError::AreaTooLarge) <==> requests_in_range(seq![(u, v, start, end, config)])),
            r is Ok ==> edge_output_ok(seq![(u, v, start, end, config)], 0, r.unwrap().path@),
            r is Ok ==> exists|l: Lattice, kept: Seq<GridPoint>| #[trigger]
                batch_lattice(l, kept, self.nodes(), seq![(u, v, start, end, config)])
                    && edge_routed_ok(l, seq![(u, v, start, end, config)], 0, r.unwrap().path@),
    {
        let mut edges: Vec<EdgeRequest> = Vec::new();
        edges.push((u, v, start, end, config));
        proof {
            assert(edges@ =~= seq![(u, v, start, end, config)]);
        }
        let routed = match self.route_edges(edges) {
            Ok(routed) => routed,
            Err(e) => {
                return Err(e);
            },
        };
        let ghost all = routed.paths@;
        proof {
            let (l, kept, logs) = choose|l: Lattice, kept: Seq<GridPoint>, logs: Seq<PassLog>|
             #[trigger]
                routed_by(l, kept, logs, self.nodes(), seq![(u, v, start, end, config)], all);
            assert(edge_routed_ok(l, seq![(u, v, start, end, config)], 0, all[0]@));
            assert(batch_lattice(l, kept, self.nodes(), seq![(u, v, start, end, config)]));
        }
        let mut paths = routed.paths;
        let result_path = match paths.pop() {
            Some(p) => p,
            None => Vec::new(),
        };
        Ok(EdgeRoutingResult::new(result_path))
    }
}

/// The batch is one that routing accepts.
pub open spec fn routing_succeeds(nodes: Seq<PlacedRectangularNode>, edges: Seq<EdgeRequest>) -> bool {
    edges.len() == 0 || (requests_in_range(edges) && batch_area(
        request_pairs(edges),
        nodes,
    ).well_formed())
}

} // verus!
