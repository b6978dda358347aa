//! What a run of negotiated routing is: the passes that a routing call
//! makes, each from the usage, the history and the stored paths that the
//! pass before it left. The draws of the random generator are left open;
//! everything else is fixed. What follows of a run for the paths returned
//! is stated at the end: each was found by the search of a pass, and keeps
//! clear of the nodes where the search found a route.

use vstd::prelude::*;
use crate::astar::{is_grid_route, lemma_route_is_grid_route, pid, reachable, Lattice};
use crate::cost::CongestionCost;
use crate::edge_router::{
    edge_searched, endpoints_clear, lemma_output_avoids_nodes, lemma_same_key_same_places,
    request_pairs, routed_by, terminal_state, BASE_COST, CAPACITY, CORNER_CAPACITY, CORNER_LAMBDA,
    LAMBDA, MAX_ITERATIONS,
};
use crate::geometry::{Orientation, PlacedRectangularNode};
use crate::geometry::DirectedPoint;
use crate::grid::{batch_area, nodes_well_formed, Grid, GridPoint};
use crate::path::{corners_of, directed_points_of, segments_of, PathWithEndpoints};
use crate::raw_area::{horizontal_run, vertical_run, RawArea};
use crate::ripup::{
    edge_key, excess, is_ordered_by, is_score_order, must_rip, overflow_of, rip_selection,
    ripped_corner_usage, ripped_usage, scores_fit, EdgeRequest,
};
use crate::route_single::{congestion_cost, fallback_route, is_routed, route_points};
use crate::table::key_code;
use crate::usage::usage_added;

verus! {

/// What one pass hands to the next: how often every raw segment and every
/// raw corner is in use, the history of their overflow, the paths stored,
/// and the edges to route.
pub struct PassState {
    pub usage: Seq<i32>,
    pub corner_usage: Seq<i32>,
    pub history: Seq<i64>,
    pub corner_history: Seq<i64>,
    pub table: Map<u64, PathWithEndpoints>,
    pub queue: Seq<EdgeRequest>,
}

/// One pass: the state it starts from, the order in which it routes the
/// edges of its queue, the usage when all of them are routed, and the state
/// it leaves.
pub struct PassLog {
    pub before: PassState,
    pub sorted: Seq<EdgeRequest>,
    pub routed_usage: Seq<i32>,
    pub routed_corner_usage: Seq<i32>,
    pub after: PassState,
}

/// The prefix sums and the corner history that the costs of a pass are
/// read from.
pub struct CostField {
    pub cost_prefix_x: Vec<i64>,
    pub cost_prefix_y: Vec<i64>,
    pub history_prefix_x: Vec<i64>,
    pub history_prefix_y: Vec<i64>,
    pub corner_history: Vec<i64>,
}

/// The present cost of every raw segment: 1, and `LAMBDA` for every use
/// beyond the capacity.
pub open spec fn present_costs(usage: Seq<i32>) -> Seq<i64> {
    Seq::new(usage.len(), |i: int| (1 + LAMBDA * excess(usage[i], CAPACITY)) as i64)
}

/// `prefix_x` and `prefix_y` hold the prefix sums of the values along the
/// rows and the columns of the area.
pub open spec fn is_prefix_field(
    area: RawArea,
    values: Seq<i64>,
    prefix_x: Seq<i64>,
    prefix_y: Seq<i64>,
) -> bool {
    &&& prefix_x.len() == area.spec_size()
    &&& prefix_y.len() == area.spec_size()
    &&& forall|i: int|
        0 <= i < area.spec_size() ==> #[trigger] prefix_x[i] == horizontal_run(
            values,
            area.spec_width(),
            i / area.spec_width(),
            0,
            i % area.spec_width(),
        )
    &&& forall|i: int|
        0 <= i < area.spec_size() ==> #[trigger] prefix_y[i] == vertical_run(
            values,
            area.spec_width(),
            area.spec_height(),
            i % area.spec_width(),
            0,
            i / area.spec_width(),
        )
}

/// The cost field is that of a pass that starts from `state`: the prefix
/// sums of the present costs of the usage and of the history, and the
/// corner history.
pub open spec fn field_of(area: RawArea, state: PassState, f: CostField) -> bool {
    &&& is_prefix_field(area, present_costs(state.usage), f.cost_prefix_x@, f.cost_prefix_y@)
    &&& is_prefix_field(area, state.history, f.history_prefix_x@, f.history_prefix_y@)
    &&& f.corner_history@ == state.corner_history
}

/// The cost field made of the given buffers.
pub open spec fn cost_field(
    cost_prefix_x: &Vec<i64>,
    cost_prefix_y: &Vec<i64>,
    history_prefix_x: &Vec<i64>,
    history_prefix_y: &Vec<i64>,
    corner_history: &Vec<i64>,
) -> CostField {
    CostField {
        cost_prefix_x: *cost_prefix_x,
        cost_prefix_y: *cost_prefix_y,
        history_prefix_x: *history_prefix_x,
        history_prefix_y: *history_prefix_y,
        corner_history: *corner_history,
    }
}

/// The cost of a step in a pass with the cost field `f`, when the corners
/// are in use as `corner_usage` says.
pub open spec fn pass_cost<'a>(
    grid: &'a Grid,
    f: &'a CostField,
    corner_usage: &'a Vec<i32>,
) -> CongestionCost<'a> {
    congestion_cost(
        grid,
        &f.cost_prefix_x,
        &f.cost_prefix_y,
        &f.history_prefix_x,
        &f.history_prefix_y,
        corner_usage,
        &f.corner_history,
        BASE_COST,
        CORNER_LAMBDA,
        CORNER_CAPACITY,
    )
}

/// Routing `edge` gave the path `routed` along the grid path `states`: the
/// grid path is what the search gives under the cost of the pass, the
/// path's segments and corners are counted once more, and the path is
/// stored under the raw points of the edge's endpoints.
pub open spec fn routed_with(
    l: Lattice,
    area: RawArea,
    f: CostField,
    edge: EdgeRequest,
    corner: Vec<i32>,
    routed: PathWithEndpoints,
    states: Seq<(GridPoint, Orientation)>,
    usage: Seq<i32>,
    table: Map<u64, PathWithEndpoints>,
    usage_after: Seq<i32>,
    corner_after: Seq<i32>,
    table_after: Map<u64, PathWithEndpoints>,
) -> bool {
    &&& routed.start == edge.2
    &&& routed.end == edge.3
    &&& routed.path.points@ == route_points(l.grid, states)
    &&& is_routed(
        l,
        pass_cost(&l.grid, &f, &corner),
        terminal_state(l.grid, edge.2),
        terminal_state(l.grid, edge.3),
        states,
    )
    &&& usage_after == usage_added(usage, segments_of(routed.path.points@, area))
    &&& corner_after == usage_added(corner@, corners_of(routed.path.points@, area))
    &&& table_after == table.insert(key_code(edge_key(area, edge)), routed)
}

/// Routing `edge` led from the usage, corner usage and stored paths before
/// to those after.
pub open spec fn routed_one(
    l: Lattice,
    area: RawArea,
    f: CostField,
    edge: EdgeRequest,
    usage: Seq<i32>,
    corner_usage: Seq<i32>,
    table: Map<u64, PathWithEndpoints>,
    usage_after: Seq<i32>,
    corner_after: Seq<i32>,
    table_after: Map<u64, PathWithEndpoints>,
) -> bool {
    exists|corner: Vec<i32>, routed: PathWithEndpoints, states: Seq<(GridPoint, Orientation)>|
        corner@ == corner_usage && #[trigger] routed_with(
            l,
            area,
            f,
            edge,
            corner,
            routed,
            states,
            usage,
            table,
            usage_after,
            corner_after,
            table_after,
        )
}

/// Routing the edges of `sorted` one after the other led from the usage,
/// corner usage and stored paths before to those after.
pub open spec fn routed_run(
    l: Lattice,
    area: RawArea,
    f: CostField,
    sorted: Seq<EdgeRequest>,
    usage: Seq<i32>,
    corner_usage: Seq<i32>,
    table: Map<u64, PathWithEndpoints>,
    usage_after: Seq<i32>,
    corner_after: Seq<i32>,
    table_after: Map<u64, PathWithEndpoints>,
) -> bool
    decreases sorted.len(),
{
    if sorted.len() == 0 {
        usage_after == usage && corner_after == corner_usage && table_after == table
    } else {
        exists|u: Seq<i32>, c: Seq<i32>, t: Map<u64, PathWithEndpoints>|
            routed_run(l, area, f, sorted.drop_last(), usage, corner_usage, table, u, c, t)
                && #[trigger] routed_one(
                l,
                area,
                f,
                sorted.last(),
                u,
                c,
                t,
                usage_after,
                corner_after,
                table_after,
            )
    }
}

/// The history after every entry has grown by what its usage is beyond the
/// capacity.
pub open spec fn grown(history: Seq<i64>, usage: Seq<i32>, capacity: i32) -> Seq<i64> {
    Seq::new(history.len(), |i: int| (history[i] + excess(usage[i], capacity)) as i64)
}

/// By how much segments and corners together are in use beyond capacity
/// when a pass has routed its edges.
pub open spec fn pass_overflow(log: PassLog) -> int {
    overflow_of(log.routed_usage, CAPACITY) + overflow_of(
        log.routed_corner_usage,
        CORNER_CAPACITY,
    )
}

/// What a pass does. It routes the edges of its queue, the hardest first
/// with a noise on the difficulty, each under the cost field of the state
/// it starts from. Where nothing is in use beyond capacity then, it leaves
/// usage and history as they are and queues nothing. Otherwise the history
/// grows by the overflow, the edges whose stored paths pass overflow are
/// queued again, and their stored paths are taken off the usage.
pub open spec fn pass_ok(
    l: Lattice,
    area: RawArea,
    nodes: Seq<PlacedRectangularNode>,
    log: PassLog,
) -> bool {
    let to_rip = rip_selection(
        log.sorted,
        log.after.table,
        area,
        log.routed_usage,
        log.routed_corner_usage,
        CAPACITY,
        CORNER_CAPACITY,
    );
    &&& exists|scores: Seq<i64>| #[trigger]
        scores_fit(log.before.queue, nodes, scores) && is_ordered_by(
            log.before.queue,
            scores,
            log.sorted,
        )
    &&& exists|f: CostField| #[trigger]
        field_of(area, log.before, f) && routed_run(
            l,
            area,
            f,
            log.sorted,
            log.before.usage,
            log.before.corner_usage,
            log.before.table,
            log.routed_usage,
            log.routed_corner_usage,
            log.after.table,
        )
    &&& pass_overflow(log) == 0 ==> {
        &&& log.after.usage == log.routed_usage
        &&& log.after.corner_usage == log.routed_corner_usage
        &&& log.after.history == log.before.history
        &&& log.after.corner_history == log.before.corner_history
        &&& log.after.queue.len() == 0
    }
    &&& pass_overflow(log) != 0 ==> {
        &&& log.after.history == grown(log.before.history, log.routed_usage, CAPACITY)
        &&& log.after.corner_history == grown(
            log.before.corner_history,
            log.routed_corner_usage,
            CORNER_CAPACITY,
        )
        &&& log.after.queue == to_rip
        &&& log.after.usage == ripped_usage(log.routed_usage, to_rip, log.after.table, area)
        &&& log.after.corner_usage == ripped_corner_usage(
            log.routed_corner_usage,
            to_rip,
            log.after.table,
            area,
        )
    }
}

/// The state before the first pass: nothing in use, no history, no stored
/// path, and the whole batch to route.
pub open spec fn first_state(area: RawArea, edges: Seq<EdgeRequest>) -> PassState {
    PassState {
        usage: Seq::new(area.spec_num_segments() as nat, |i: int| 0i32),
        corner_usage: Seq::new(area.spec_size() as nat, |i: int| 0i32),
        history: Seq::new(area.spec_num_segments() as nat, |i: int| 0i64),
        corner_history: Seq::new(area.spec_size() as nat, |i: int| 0i64),
        table: Map::<u64, PathWithEndpoints>::empty(),
        queue: edges,
    }
}

/// The passes so far follow one another from the first state, and every
/// pass but the last left something in use beyond capacity.
pub open spec fn run_so_far(
    l: Lattice,
    area: RawArea,
    nodes: Seq<PlacedRectangularNode>,
    edges: Seq<EdgeRequest>,
    logs: Seq<PassLog>,
) -> bool {
    &&& logs.len() <= MAX_ITERATIONS
    &&& logs.len() > 0 ==> logs[0].before == first_state(area, edges)
    &&& forall|k: int| 0 <= k < logs.len() ==> pass_ok(l, area, nodes, #[trigger] logs[k])
    &&& forall|k: int|
        0 <= k < logs.len() - 1 ==> (#[trigger] logs[k]).after == logs[k + 1].before
            && pass_overflow(logs[k]) != 0
}

/// The passes are those of a whole routing call: at least one and at most
/// `MAX_ITERATIONS`, made until a pass leaves nothing in use beyond
/// capacity or no further pass is allowed.
pub open spec fn is_run(
    l: Lattice,
    area: RawArea,
    nodes: Seq<PlacedRectangularNode>,
    edges: Seq<EdgeRequest>,
    logs: Seq<PassLog>,
) -> bool {
    &&& run_so_far(l, area, nodes, edges, logs)
    &&& logs.len() >= 1
    &&& pass_overflow(logs.last()) == 0 || logs.len() == MAX_ITERATIONS
}

/// The path `routed` was found for the edge `j` of the batch by the search
/// of a pass, under the costs of that pass.
pub open spec fn found_for(
    l: Lattice,
    edges: Seq<EdgeRequest>,
    j: int,
    routed: PathWithEndpoints,
) -> bool {
    &&& 0 <= j < edges.len()
    &&& routed.start == edges[j].2
    &&& routed.end == edges[j].3
    &&& exists|f: CostField, corner: Vec<i32>, states: Seq<(GridPoint, Orientation)>|
        routed.path.points@ == route_points(l.grid, states) && #[trigger] is_routed(
            l,
            pass_cost(&l.grid, &f, &corner),
            terminal_state(l.grid, edges[j].2),
            terminal_state(l.grid, edges[j].3),
            states,
        )
}

/// The path stored under `code` was found for an edge of the batch with
/// this code by the search of a pass.
pub open spec fn entry_searched(
    l: Lattice,
    area: RawArea,
    edges: Seq<EdgeRequest>,
    code: u64,
    routed: PathWithEndpoints,
) -> bool {
    exists|j: int|
        0 <= j < edges.len() && key_code(edge_key(area, edges[j])) == code && #[trigger] found_for(
            l,
            edges,
            j,
            routed,
        )
}

/// Every stored path was found by the search of a pass.
pub open spec fn table_searched(
    l: Lattice,
    area: RawArea,
    edges: Seq<EdgeRequest>,
    table: Map<u64, PathWithEndpoints>,
) -> bool {
    forall|code: u64|
        table.contains_key(code) ==> #[trigger] entry_searched(l, area, edges, code, table[code])
}

/// The table holds a path for the edge.
pub open spec fn holds_path_of(
    area: RawArea,
    table: Map<u64, PathWithEndpoints>,
    edge: EdgeRequest,
) -> bool {
    table.contains_key(key_code(edge_key(area, edge)))
}

/// Routing edges of the batch one after the other keeps what is stored
/// and stores for each of them a path that the search found.
pub proof fn lemma_routed_run_searched(
    l: Lattice,
    area: RawArea,
    edges: Seq<EdgeRequest>,
    f: CostField,
    sorted: Seq<EdgeRequest>,
    usage: Seq<i32>,
    corner_usage: Seq<i32>,
    table: Map<u64, PathWithEndpoints>,
    usage_after: Seq<i32>,
    corner_after: Seq<i32>,
    table_after: Map<u64, PathWithEndpoints>,
)
    requires
        routed_run(
            l,
            area,
            f,
            sorted,
            usage,
            corner_usage,
            table,
            usage_after,
            corner_after,
            table_after,
        ),
        forall|k: int| 0 <= k < sorted.len() ==> edges.contains(#[trigger] sorted[k]),
        table_searched(l, area, edges, table),
    ensures
        table_searched(l, area, edges, table_after),
        forall|code: u64| table.contains_key(code) ==> table_after.contains_key(code),
        forall|k: int| 0 <= k < sorted.len() ==> holds_path_of(area, table_after, #[trigger] sorted[k]),
    decreases sorted.len(),
{
    if sorted.len() > 0 {
        let shorter = sorted.drop_last();
        let edge = sorted.last();
        let (u, c, t) = choose|u: Seq<i32>, c: Seq<i32>, t: Map<u64, PathWithEndpoints>|
            routed_run(l, area, f, sorted.drop_last(), usage, corner_usage, table, u, c, t)
                && #[trigger] routed_one(
                l,
                area,
                f,
                sorted.last(),
                u,
                c,
                t,
                usage_after,
                corner_after,
                table_after,
            );
        assert forall|k: int| 0 <= k < shorter.len() implies edges.contains(
            #[trigger] shorter[k],
        ) by {
            assert(shorter[k] == sorted[k]);
        }
        lemma_routed_run_searched(l, area, edges, f, shorter, usage, corner_usage, table, u, c, t);
        let (corner, routed, states) = choose|
            corner: Vec<i32>,
            routed: PathWithEndpoints,
            states: Seq<(GridPoint, Orientation)>,
        |
            corner@ == c && #[trigger] routed_with(
                l,
                area,
                f,
                edge,
                corner,
                routed,
                states,
                u,
                t,
                usage_after,
                corner_after,
                table_after,
            );
        let code = key_code(edge_key(area, edge));
        assert(edges.contains(sorted[sorted.len() - 1]));
        let j = choose|j: int| 0 <= j < edges.len() && edges[j] == edge;
        assert(is_routed(
            l,
            pass_cost(&l.grid, &f, &corner),
            terminal_state(l.grid, edges[j].2),
            terminal_state(l.grid, edges[j].3),
            states,
        ));
        assert(found_for(l, edges, j, routed));
        assert(entry_searched(l, area, edges, code, routed));
        assert forall|other: u64| table_after.contains_key(other) implies #[trigger] entry_searched(
            l,
            area,
            edges,
            other,
            table_after[other],
        ) by {
            if other != code {
                assert(t.contains_key(other));
                assert(entry_searched(l, area, edges, other, t[other]));
            }
        }
        assert forall|k: int| 0 <= k < sorted.len() implies holds_path_of(
            area,
            table_after,
            #[trigger] sorted[k],
        ) by {
            if k < shorter.len() {
                assert(holds_path_of(area, t, shorter[k]));
            }
        }
    }
}

/// A pass on edges of the batch keeps what is stored, stores for every
/// edge of its queue a path that the search found, and queues edges of the
/// batch only.
pub proof fn lemma_pass_searched(
    l: Lattice,
    area: RawArea,
    nodes: Seq<PlacedRectangularNode>,
    edges: Seq<EdgeRequest>,
    log: PassLog,
)
    requires
        pass_ok(l, area, nodes, log),
        log.before.queue.len() <= usize::MAX,
        forall|m: int| 0 <= m < log.before.queue.len() ==> edges.contains(#[trigger] log.before.queue[m]),
        table_searched(l, area, edges, log.before.table),
    ensures
        log.after.queue.len() <= usize::MAX,
        table_searched(l, area, edges, log.after.table),
        forall|code: u64|
            log.before.table.contains_key(code) ==> log.after.table.contains_key(code),
        forall|m: int|
            0 <= m < log.before.queue.len() ==> holds_path_of(
                area,
                log.after.table,
                #[trigger] log.before.queue[m],
            ),
        forall|m: int| 0 <= m < log.after.queue.len() ==> edges.contains(#[trigger] log.after.queue[m]),
{
    let queue = log.before.queue;
    let sorted = log.sorted;
    let scores = choose|scores: Seq<i64>| #[trigger]
        scores_fit(log.before.queue, nodes, scores) && is_ordered_by(
            log.before.queue,
            scores,
            log.sorted,
        );
    let order = choose|order: Seq<usize>| #[trigger]
        is_score_order(scores, order) && sorted == Seq::new(
            queue.len(),
            |k: int| queue[order[k] as int],
        );
    let f = choose|f: CostField| #[trigger]
        field_of(area, log.before, f) && routed_run(
            l,
            area,
            f,
            log.sorted,
            log.before.usage,
            log.before.corner_usage,
            log.before.table,
            log.routed_usage,
            log.routed_corner_usage,
            log.after.table,
        );
    assert forall|k: int| 0 <= k < sorted.len() implies edges.contains(#[trigger] sorted[k]) by {
        assert(sorted[k] == queue[order[k] as int]);
        assert(edges.contains(queue[order[k] as int]));
    }
    lemma_routed_run_searched(
        l,
        area,
        edges,
        f,
        sorted,
        log.before.usage,
        log.before.corner_usage,
        log.before.table,
        log.routed_usage,
        log.routed_corner_usage,
        log.after.table,
    );
    assert forall|m: int| 0 <= m < queue.len() implies holds_path_of(
        area,
        log.after.table,
        #[trigger] queue[m],
    ) by {
        let at = m as usize;
        assert(order.contains(at));
        let k = choose|k: int| 0 <= k < order.len() && order[k] == at;
        assert(sorted[k] == queue[m]);
        assert(holds_path_of(area, log.after.table, sorted[k]));
    }
    if pass_overflow(log) != 0 {
        sorted.lemma_filter_len(
            |e: EdgeRequest|
                must_rip(
                    e,
                    log.after.table,
                    area,
                    log.routed_usage,
                    log.routed_corner_usage,
                    CAPACITY,
                    CORNER_CAPACITY,
                ),
        );
    }
    assert forall|m: int| 0 <= m < log.after.queue.len() implies edges.contains(
        #[trigger] log.after.queue[m],
    ) by {
        let picked = log.after.queue[m];
        assert(pass_overflow(log) != 0);
        assert(log.after.queue.contains(picked));
        sorted.lemma_filter_contains_rev(
            |e: EdgeRequest|
                must_rip(
                    e,
                    log.after.table,
                    area,
                    log.routed_usage,
                    log.routed_corner_usage,
                    CAPACITY,
                    CORNER_CAPACITY,
                ),
            picked,
        );
        let k = choose|k: int| 0 <= k < sorted.len() && sorted[k] == picked;
        assert(edges.contains(sorted[k]));
    }
}

/// After every pass of a run, every stored path was found by the search
/// of a pass, a path is stored for every edge of the batch, and the edges
/// queued are edges of the batch.
pub proof fn lemma_run_searched(
    l: Lattice,
    area: RawArea,
    nodes: Seq<PlacedRectangularNode>,
    edges: Seq<EdgeRequest>,
    logs: Seq<PassLog>,
    k: int,
)
    requires
        run_so_far(l, area, nodes, edges, logs),
        edges.len() <= usize::MAX,
        0 <= k < logs.len(),
    ensures
        logs[k].after.queue.len() <= usize::MAX,
        table_searched(l, area, edges, logs[k].after.table),
        forall|i: int|
            0 <= i < edges.len() ==> holds_path_of(area, logs[k].after.table, #[trigger] edges[i]),
        forall|m: int|
            0 <= m < logs[k].after.queue.len() ==> edges.contains(#[trigger] logs[k].after.queue[m]),
    decreases k,
{
    assert(pass_ok(l, area, nodes, logs[k]));
    if k > 0 {
        lemma_run_searched(l, area, nodes, edges, logs, k - 1);
        assert(logs[k - 1].after == logs[k].before);
        lemma_pass_searched(l, area, nodes, edges, logs[k]);
        assert forall|i: int| 0 <= i < edges.len() implies holds_path_of(
            area,
            logs[k].after.table,
            #[trigger] edges[i],
        ) by {
            assert(holds_path_of(area, logs[k - 1].after.table, edges[i]));
        }
    } else {
        assert(logs[0].before == first_state(area, edges));
        lemma_pass_searched(l, area, nodes, edges, logs[k]);
        assert forall|i: int| 0 <= i < edges.len() implies holds_path_of(
            area,
            logs[k].after.table,
            #[trigger] edges[i],
        ) by {
            assert(logs[k].before.queue[i] == edges[i]);
        }
    }
}

/// The directed points `out` expand a grid path that the search of a pass
/// found, under the costs of that pass, for an edge of the batch with the
/// same two places as the edge `i`.
pub open spec fn output_searched(
    l: Lattice,
    edges: Seq<EdgeRequest>,
    i: int,
    out: Seq<DirectedPoint>,
) -> bool {
    exists|j: int, f: CostField, corner: Vec<i32>, states: Seq<(GridPoint, Orientation)>|
        0 <= j < edges.len() && edges[j].2.position() == edges[i].2.position()
            && edges[j].3.position() == edges[i].3.position() && #[trigger] is_routed(
            l,
            pass_cost(&l.grid, &f, &corner),
            terminal_state(l.grid, edges[j].2),
            terminal_state(l.grid, edges[j].3),
            states,
        ) && directed_points_of(route_points(l.grid, states), edges[j].2, edges[j].3) == out
}

/// Every path that routing returns expands a grid path that the search of
/// one of the passes found: a cheapest route under the costs of that pass
/// where the masked grid has a route, and the L-shaped stand-in only where
/// it has none.
pub proof fn lemma_paths_are_searched(
    l: Lattice,
    kept: Seq<GridPoint>,
    logs: Seq<PassLog>,
    nodes: Seq<PlacedRectangularNode>,
    edges: Seq<EdgeRequest>,
    paths: Seq<Vec<DirectedPoint>>,
    i: int,
)
    requires
        routed_by(l, kept, logs, nodes, edges, paths),
        edges.len() <= usize::MAX,
        0 <= i < edges.len(),
    ensures
        output_searched(l, edges, i, paths[i]@),
{
    let area = batch_area(request_pairs(edges), nodes);
    let last = logs.len() - 1;
    lemma_run_searched(l, area, nodes, edges, logs, last);
    let table = logs.last().after.table;
    let code = key_code(edge_key(area, edges[i]));
    assert(holds_path_of(area, table, edges[i]));
    let stored = table[code];
    assert(entry_searched(l, area, edges, code, stored));
    let j = choose|j: int|
        0 <= j < edges.len() && key_code(edge_key(area, edges[j])) == code && #[trigger] found_for(
            l,
            edges,
            j,
            stored,
        );
    let (f, corner, states) = choose|
        f: CostField,
        corner: Vec<i32>,
        states: Seq<(GridPoint, Orientation)>,
    |
        stored.path.points@ == route_points(l.grid, states) && #[trigger] is_routed(
            l,
            pass_cost(&l.grid, &f, &corner),
            terminal_state(l.grid, edges[j].2),
            terminal_state(l.grid, edges[j].3),
            states,
        );
    lemma_same_key_same_places(l, kept, nodes, edges, j, i);
    assert(directed_points_of(route_points(l.grid, states), edges[j].2, edges[j].3) == paths[i]@);
}

/// The directed points `out` expand the L-shaped stand-in for an edge of
/// the batch with the same two places as the edge `i`.
pub open spec fn output_stands_in(
    l: Lattice,
    edges: Seq<EdgeRequest>,
    i: int,
    out: Seq<DirectedPoint>,
) -> bool {
    exists|j: int|
        0 <= j < edges.len() && edges[j].2.position() == edges[i].2.position()
            && edges[j].3.position() == edges[i].3.position() && #[trigger] directed_points_of(
            route_points(
                l.grid,
                fallback_route(
                    l,
                    terminal_state(l.grid, edges[j].2).0,
                    terminal_state(l.grid, edges[j].3).0,
                    terminal_state(l.grid, edges[j].3).1,
                ),
            ),
            edges[j].2,
            edges[j].3,
        ) == out
}

/// Where no node blocks the grid point of an endpoint of the batch, a path
/// that routing returns keeps clear of the nodes, unless it is the
/// L-shaped stand-in: none of its directed points lies on or inside a node.
pub proof fn lemma_paths_avoid_nodes(
    l: Lattice,
    kept: Seq<GridPoint>,
    logs: Seq<PassLog>,
    nodes: Seq<PlacedRectangularNode>,
    edges: Seq<EdgeRequest>,
    paths: Seq<Vec<DirectedPoint>>,
    i: int,
    n: int,
    k: int,
)
    requires
        routed_by(l, kept, logs, nodes, edges, paths),
        edges.len() <= usize::MAX,
        nodes_well_formed(nodes),
        endpoints_clear(l, kept, nodes),
        0 <= i < edges.len(),
        !output_stands_in(l, edges, i, paths[i]@),
        0 <= n < nodes.len(),
        0 <= k < paths[i].len(),
    ensures
        !nodes[n].covers(paths[i][k].x as int, paths[i][k].y as int),
{
    let out = paths[i]@;
    lemma_paths_are_searched(l, kept, logs, nodes, edges, paths, i);
    let (j, f, corner, states) = choose|
        j: int,
        f: CostField,
        corner: Vec<i32>,
        states: Seq<(GridPoint, Orientation)>,
    |
        0 <= j < edges.len() && edges[j].2.position() == edges[i].2.position()
            && edges[j].3.position() == edges[i].3.position() && #[trigger] is_routed(
            l,
            pass_cost(&l.grid, &f, &corner),
            terminal_state(l.grid, edges[j].2),
            terminal_state(l.grid, edges[j].3),
            states,
        ) && directed_points_of(route_points(l.grid, states), edges[j].2, edges[j].3) == out;
    let from = terminal_state(l.grid, edges[j].2);
    let goal = terminal_state(l.grid, edges[j].3);
    let cost = pass_cost(&l.grid, &f, &corner);
    if l.point_mask[pid(from.0)] && l.point_mask[pid(goal.0)] && reachable(l, cost, from, goal) {
        let pairs = request_pairs(edges);
        assert(pairs[j] == (edges[j].2.position(), edges[j].3.position()));
        assert(l.grid.on_grid(pairs[j].0));
        l.grid.lemma_grid_point_at(edges[j].2.position());
        lemma_route_is_grid_route(l, cost, from, goal, states);
        assert(is_grid_route(l, from, goal, states));
        assert(edge_searched(l, edges, i, out));
        lemma_output_avoids_nodes(l, kept, nodes, edges, i, out, n, k);
    } else {
        assert(states == fallback_route(l, from.0, goal.0, goal.1));
        assert(output_stands_in(l, edges, i, out));
    }
}

} // verus!
