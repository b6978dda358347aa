//! Routed paths: the corner points that the router produced, the unit
//! segments and the corners that a path occupies, and its expansion into
//! directed points, one per unit step.

use vstd::prelude::*;
use crate::geometry::{DirectedPoint, Direction, Neighborhood, Point};
use crate::masked_grid::on_line;
use crate::raw_area::RawArea;

verus! {

/// How the router is to treat an edge.
#[derive(Clone, Copy, Debug, PartialEq, Eq, Structural)]
pub struct RoutingConfig {
    pub neighborhood: Neighborhood,
}

impl RoutingConfig {
    pub fn new(neighborhood: Neighborhood) -> (c: RoutingConfig)
        ensures
            c.neighborhood == neighborhood,
    {
        RoutingConfig { neighborhood }
    }
}

impl Default for RoutingConfig {
    fn default() -> (c: RoutingConfig)
        ensures
            c.neighborhood == Neighborhood::Orthogonal,
    {
        RoutingConfig { neighborhood: Neighborhood::Orthogonal }
    }
}

/// The directed points of one routed edge.
#[derive(Clone, Debug, PartialEq)]
pub struct EdgeRoutingResult {
    pub path: Vec<DirectedPoint>,
}

impl EdgeRoutingResult {
    pub fn new(path: Vec<DirectedPoint>) -> (r: EdgeRoutingResult)
        ensures
            r.path == path,
    {
        EdgeRoutingResult { path }
    }

    pub fn get_path(&self) -> (p: &Vec<DirectedPoint>)
        ensures
            p == self.path,
    {
        &self.path
    }
}

/// The directed points of a batch of routed edges, one list per edge.
#[derive(Clone, Debug, PartialEq)]
pub struct EdgeRoutingsResult {
    pub paths: Vec<Vec<DirectedPoint>>,
}

impl EdgeRoutingsResult {
    pub fn new(paths: Vec<Vec<DirectedPoint>>) -> (r: EdgeRoutingsResult)
        ensures
            r.paths == paths,
    {
        EdgeRoutingsResult { paths }
    }

    pub fn get_paths(&self) -> (p: &Vec<Vec<DirectedPoint>>)
        ensures
            p == self.paths,
    {
        &self.paths
    }
}

/// Two points share a row or a column.
pub open spec fn aligned(a: Point, b: Point) -> bool {
    a.x == b.x || a.y == b.y
}

/// Two distinct points that share a row or a column: a straight leg.
pub open spec fn is_leg(a: Point, b: Point) -> bool {
    a != b && aligned(a, b)
}

/// Number of unit steps of a leg.
pub open spec fn leg_length(a: Point, b: Point) -> int {
    (if b.x >= a.x {
        b.x - a.x
    } else {
        a.x - b.x
    }) + (if b.y >= a.y {
        b.y - a.y
    } else {
        a.y - b.y
    })
}

/// The point `k` unit steps from `a` toward `b`.
pub open spec fn leg_point(a: Point, b: Point, k: int) -> Point {
    Point {
        x: (if b.x > a.x {
            a.x + k
        } else if b.x < a.x {
            a.x - k
        } else {
            a.x as int
        }) as i32,
        y: (if b.y > a.y {
            a.y + k
        } else if b.y < a.y {
            a.y - k
        } else {
            a.y as int
        }) as i32,
    }
}

/// The unit steps of the leg from `a` to `b`, in the order walked; none
/// where the two points are no leg.
pub open spec fn leg_steps(a: Point, b: Point) -> Seq<(Point, Point)> {
    if is_leg(a, b) {
        Seq::new(leg_length(a, b) as nat, |k: int| (leg_point(a, b, k), leg_point(a, b, k + 1)))
    } else {
        Seq::<(Point, Point)>::empty()
    }
}

/// The unit steps of all legs of a path, in the order walked.
pub open spec fn path_steps(points: Seq<Point>) -> Seq<(Point, Point)>
    decreases points.len(),
{
    if points.len() < 2 {
        Seq::<(Point, Point)>::empty()
    } else {
        path_steps(points.drop_last()) + leg_steps(points[points.len() - 2], points.last())
    }
}

/// `s` with `v` appended, unless `s` ends in `v` already.
pub open spec fn push_distinct(s: Seq<usize>, v: usize) -> Seq<usize> {
    if s.len() > 0 && s.last() == v {
        s
    } else {
        s.push(v)
    }
}

/// `found` extended by the segment indices of the unit steps that lie
/// inside the area, none twice in a row.
pub open spec fn extend_indices(area: RawArea, found: Seq<usize>, steps: Seq<(Point, Point)>) -> Seq<
    usize,
>
    decreases steps.len(),
{
    if steps.len() == 0 {
        found
    } else {
        let rest = extend_indices(area, found, steps.drop_last());
        let step = steps.last();
        if area.contains(step.0) && area.contains(step.1) {
            push_distinct(rest, area.segment_of(step.0, step.1) as usize)
        } else {
            rest
        }
    }
}

/// Extending by two runs of steps in turn is extending by both at once.
pub proof fn lemma_extend_indices_concat(
    area: RawArea,
    found: Seq<usize>,
    s: Seq<(Point, Point)>,
    t: Seq<(Point, Point)>,
)
    ensures
        extend_indices(area, found, s + t) == extend_indices(
            area,
            extend_indices(area, found, s),
            t,
        ),
    decreases t.len(),
{
    if t.len() == 0 {
        assert(s + t =~= s);
    } else {
        lemma_extend_indices_concat(area, found, s, t.drop_last());
        assert((s + t).drop_last() =~= s + t.drop_last());
        assert((s + t).last() == t.last());
    }
}

/// The raw segments that a path occupies.
pub open spec fn segments_of(points: Seq<Point>, area: RawArea) -> Seq<usize> {
    extend_indices(area, Seq::<usize>::empty(), path_steps(points))
}

pub open spec fn sign(v: int) -> int {
    if v > 0 {
        1
    } else if v < 0 {
        -1
    } else {
        0
    }
}

/// The state of a scan for corners: the corners found so far, and the
/// direction of the pair of points seen last, if that pair was aligned.
pub struct CornerScan {
    pub found: Seq<usize>,
    pub heading: Option<(int, int)>,
}

/// Scans a path for corners. An aligned pair of points has the direction
/// `(sign(dx), sign(dy))`; where it differs from that of the pair before,
/// the pair's first point is a corner, and counts if it lies in the area. A
/// pair that is not aligned clears the direction.
pub open spec fn corner_scan(points: Seq<Point>, area: RawArea) -> CornerScan
    decreases points.len(),
{
    if points.len() < 2 {
        CornerScan { found: Seq::<usize>::empty(), heading: None }
    } else {
        let before = corner_scan(points.drop_last(), area);
        let from = points[points.len() - 2];
        let to = points.last();
        if !aligned(from, to) {
            CornerScan { found: before.found, heading: None }
        } else {
            let dir = (sign(to.x - from.x), sign(to.y - from.y));
            let turned = before.heading is Some && before.heading->0 != dir;
            CornerScan {
                found: if turned && area.contains(from) {
                    push_distinct(before.found, area.index_of(from) as usize)
                } else {
                    before.found
                },
                heading: Some(dir),
            }
        }
    }
}

/// The raw points at which a path turns.
pub open spec fn corners_of(points: Seq<Point>, area: RawArea) -> Seq<usize> {
    corner_scan(points, area).found
}

/// The direction of travel along a leg.
pub open spec fn travel_direction(a: Point, b: Point) -> Direction {
    if a.x == b.x {
        if b.y < a.y {
            Direction::Up
        } else {
            Direction::Down
        }
    } else {
        if b.x > a.x {
            Direction::Right
        } else {
            Direction::Left
        }
    }
}

pub open spec fn directed(p: Point, direction: Direction) -> DirectedPoint {
    DirectedPoint { x: p.x, y: p.y, direction, debug: false }
}

/// The directed points of one leg: its first point with the direction
/// `first`, then every further point up to the last with the direction that
/// looks back along the leg.
pub open spec fn leg_points(a: Point, b: Point, first: Direction) -> Seq<DirectedPoint> {
    Seq::new(
        (leg_length(a, b) + 1) as nat,
        |k: int|
            if k == 0 {
                directed(a, first)
            } else {
                directed(leg_point(a, b, k), travel_direction(a, b).spec_opposite())
            },
    )
}

/// The directed points of all legs of a path. The very first point has the
/// direction `start`; the first point of any later leg has the leg's
/// direction of travel.
pub open spec fn legs_points(points: Seq<Point>, start: Direction) -> Seq<DirectedPoint>
    decreases points.len(),
{
    if points.len() < 2 {
        Seq::<DirectedPoint>::empty()
    } else {
        let before = legs_points(points.drop_last(), start);
        let from = points[points.len() - 2];
        let to = points.last();
        if is_leg(from, to) {
            before + leg_points(
                from,
                to,
                if before.len() == 0 {
                    start
                } else {
                    travel_direction(from, to)
                },
            )
        } else {
            before
        }
    }
}

/// The directed points of a routed edge: those of its legs, and at the end
/// the edge's end point, looking back.
pub open spec fn directed_points_of(
    points: Seq<Point>,
    start: DirectedPoint,
    end: DirectedPoint,
) -> Seq<DirectedPoint> {
    legs_points(points, start.direction).push(
        directed(end.position(), end.direction.spec_opposite()),
    )
}

/// The corner points of a routed path.
#[derive(Clone, Debug, PartialEq)]
pub struct Path {
    pub points: Vec<Point>,
}

/// A routed path together with the directed endpoints that it was routed
/// for.
#[derive(Clone, Debug, PartialEq)]
pub struct PathWithEndpoints {
    pub path: Path,
    pub start: DirectedPoint,
    pub end: DirectedPoint,
}

/// A straight leg between two distinct points of a row or a column.
#[derive(Clone, Copy, Debug, PartialEq, Eq, Structural)]
pub struct ManhattanSegment {
    pub from: Point,
    pub to: Point,
}

/// The leg between two points, or `None` where they are the same point or
/// share neither row nor column.
pub fn manhattan_segment(from: Point, to: Point) -> (r: Option<ManhattanSegment>)
    ensures
        r is Some <==> is_leg(from, to),
        r is Some ==> r.unwrap().from == from && r.unwrap().to == to,
{
    if from == to {
        return None;
    }
    if from.x != to.x && from.y != to.y {
        return None;
    }
    Some(ManhattanSegment { from, to })
}

fn step_count(from: Point, to: Point) -> (n: i64)
    ensures
        n == leg_length(from, to),
{
    let dx: i64 = to.x as i64 - from.x as i64;
    let dy: i64 = to.y as i64 - from.y as i64;
    (if dx >= 0 {
        dx
    } else {
        -dx
    }) + (if dy >= 0 {
        dy
    } else {
        -dy
    })
}

fn step_point(from: Point, to: Point, k: i64) -> (p: Point)
    requires
        is_leg(from, to),
        0 <= k <= leg_length(from, to),
    ensures
        p == leg_point(from, to, k as int),
{
    let x: i64 = if to.x > from.x {
        from.x as i64 + k
    } else if to.x < from.x {
        from.x as i64 - k
    } else {
        from.x as i64
    };
    let y: i64 = if to.y > from.y {
        from.y as i64 + k
    } else if to.y < from.y {
        from.y as i64 - k
    } else {
        from.y as i64
    };
    Point { x: x as i32, y: y as i32 }
}

/// Walks the leg from `from` to `to` one unit step at a time and appends
/// the index of each step's segment, where the step lies inside the area
/// and the index differs from the one appended last. Two points that are no
/// leg add nothing.
pub fn walk_manhattan_steps(from: Point, to: Point, raw_area: &RawArea, indices: &mut Vec<usize>)
    requires
        raw_area.well_formed(),
    ensures
        final(indices)@ == extend_indices(*raw_area, old(indices)@, leg_steps(from, to)),
        forall|k: int|
            0 <= k < final(indices).len() ==> (k < old(indices).len() && final(indices)[k] == old(
                indices,
            )[k]) || #[trigger] final(indices)[k] < raw_area.spec_num_segments(),
{
    let ghost leg = leg_steps(from, to);
    let ghost before = indices@;
    if manhattan_segment(from, to).is_none() {
        return ;
    }
    let steps_total = step_count(from, to);
    let mut k: i64 = 0;
    while k < steps_total
        invariant
            raw_area.well_formed(),
            is_leg(from, to),
            leg == leg_steps(from, to),
            steps_total == leg_length(from, to),
            0 <= k <= steps_total,
            indices@ == extend_indices(*raw_area, before, leg.subrange(0, k as int)),
            forall|i: int|
                0 <= i < indices.len() ==> (i < before.len() && indices[i] == before[i])
                    || #[trigger] indices[i] < raw_area.spec_num_segments(),
        decreases steps_total - k,
    {
        let a = step_point(from, to, k);
        let b = step_point(from, to, k + 1);
        match raw_area.segment_index_between(&a, &b) {
            Some(idx) => {
                let n = indices.len();
                if n == 0 || indices[n - 1] != idx {
                    indices.push(idx);
                }
            },
            None => {},
        }
        proof {
            let longer = leg.subrange(0, k as int + 1);
            assert(leg[k as int] == (a, b));
            assert(RawArea::unit_step(a, b));
            assert(longer.drop_last() =~= leg.subrange(0, k as int));
            assert(longer.last() == (a, b));
        }
        k += 1;
    }
    proof {
        assert(leg.subrange(0, steps_total as int) =~= leg);
    }
}

/// Appends the directed points of one leg: its first point with the leg's
/// direction of travel, or with the given direction where there is one, and
/// every further point up to the last with the opposite of the direction of
/// travel.
pub fn push_directed_segment(
    out: &mut Vec<DirectedPoint>,
    segment: ManhattanSegment,
    first_direction_override: Option<Direction>,
)
    requires
        is_leg(segment.from, segment.to),
    ensures
        final(out)@ == old(out)@ + leg_points(
            segment.from,
            segment.to,
            match first_direction_override {
                Some(d) => d,
                None => travel_direction(segment.from, segment.to),
            },
        ),
{
    let from = segment.from;
    let to = segment.to;
    let direction = if from.x == to.x {
        if to.y < from.y {
            Direction::Up
        } else {
            Direction::Down
        }
    } else {
        if to.x > from.x {
            Direction::Right
        } else {
            Direction::Left
        }
    };
    let first = match first_direction_override {
        Some(d) => d,
        None => direction,
    };
    let back = direction.opposite();
    let ghost before = out@;
    let ghost leg = leg_points(from, to, first);
    out.push(DirectedPoint { x: from.x, y: from.y, direction: first, debug: false });
    let steps_total = step_count(from, to);
    let mut k: i64 = 1;
    proof {
        assert(out@ =~= before + leg.subrange(0, 1));
    }
    while k <= steps_total
        invariant
            is_leg(from, to),
            steps_total == leg_length(from, to),
            1 <= k <= steps_total + 1,
            back == travel_direction(from, to).spec_opposite(),
            leg == leg_points(from, to, first),
            out@ == before + leg.subrange(0, k as int),
        decreases steps_total + 1 - k,
    {
        let p = step_point(from, to, k);
        out.push(DirectedPoint { x: p.x, y: p.y, direction: back, debug: false });
        proof {
            assert(out@ =~= before + leg.subrange(0, k as int + 1));
        }
        k += 1;
    }
    proof {
        assert(leg.subrange(0, steps_total as int + 1) =~= leg);
    }
}

impl Path {
    pub fn new(points: Vec<Point>) -> (p: Path)
        ensures
            p.points == points,
    {
        Path { points }
    }

    pub fn as_slice(&self) -> (s: &[Point])
        ensures
            s@ == self.points@,
    {
        self.points.as_slice()
    }

    pub fn into_inner(self) -> (v: Vec<Point>)
        ensures
            v == self.points,
    {
        self.points
    }

    /// The indices of the raw segments that the path occupies, in the order
    /// walked and none twice in a row.
    pub fn segments(&self, raw_area: &RawArea) -> (s: PathSegments)
        requires
            raw_area.well_formed(),
        ensures
            s.indices@ == segments_of(self.points@, *raw_area),
            s.position == 0,
            forall|k: int|
                0 <= k < s.indices.len() ==> #[trigger] s.indices[k] < raw_area.spec_num_segments(),
    {
        PathSegments::new(self, raw_area)
    }

    /// The indices of the raw points at which the path turns, none twice in
    /// a row.
    pub fn corners(&self, raw_area: &RawArea) -> (c: PathCorners)
        requires
            raw_area.well_formed(),
        ensures
            c.indices@ == corners_of(self.points@, *raw_area),
            c.position == 0,
            forall|k: int| 0 <= k < c.indices.len() ==> #[trigger] c.indices[k] < raw_area.spec_size(),
    {
        PathCorners::new(self, raw_area)
    }
}

impl PathWithEndpoints {
    pub fn new(path: Path, start: DirectedPoint, end: DirectedPoint) -> (p: PathWithEndpoints)
        ensures
            p.path == path,
            p.start == start,
            p.end == end,
    {
        PathWithEndpoints { path, start, end }
    }

    pub fn segments(&self, raw_area: &RawArea) -> (s: PathSegments)
        requires
            raw_area.well_formed(),
        ensures
            s.indices@ == segments_of(self.path.points@, *raw_area),
            s.position == 0,
            forall|k: int|
                0 <= k < s.indices.len() ==> #[trigger] s.indices[k] < raw_area.spec_num_segments(),
    {
        self.path.segments(raw_area)
    }

    pub fn corners(&self, raw_area: &RawArea) -> (c: PathCorners)
        requires
            raw_area.well_formed(),
        ensures
            c.indices@ == corners_of(self.path.points@, *raw_area),
            c.position == 0,
            forall|k: int| 0 <= k < c.indices.len() ==> #[trigger] c.indices[k] < raw_area.spec_size(),
    {
        self.path.corners(raw_area)
    }

    /// The path as directed points, one per unit step.
    pub fn to_directed_points(&self) -> (v: Vec<DirectedPoint>)
        ensures
            v@ == directed_points_of(self.path.points@, self.start, self.end),
    {
        self.point_path_to_directed_points()
    }

    fn point_path_to_directed_points(&self) -> (v: Vec<DirectedPoint>)
        ensures
            v@ == directed_points_of(self.path.points@, self.start, self.end),
    {
        let mut result_path: Vec<DirectedPoint> = Vec::new();
        let ghost points = self.path.points@;
        let mut i: usize = 1;
        while i < self.path.points.len()
            invariant
                points == self.path.points@,
                1 <= i,
                result_path@ == legs_points(
                    points.subrange(0, if i <= points.len() {
                        i as int
                    } else {
                        points.len() as int
                    }),
                    self.start.direction,
                ),
            decreases self.path.points.len() - i,
        {
            let window_start = self.path.points[i - 1];
            let window_end = self.path.points[i];
            proof {
                let prefix = points.subrange(0, i as int + 1);
                assert(prefix.drop_last() =~= points.subrange(0, i as int));
                assert(prefix[prefix.len() - 2] == window_start);
                assert(prefix.last() == window_end);
            }
            match manhattan_segment(window_start, window_end) {
                Some(segment) => {
                    let first_segment = result_path.len() == 0;
                    push_directed_segment(
                        &mut result_path,
                        segment,
                        if first_segment {
                            Some(self.start.direction)
                        } else {
                            None
                        },
                    );
                },
                None => {},
            }
            i += 1;
        }
        proof {
            assert(points.subrange(0, points.len() as int) =~= points);
        }
        result_path.push(
            DirectedPoint {
                x: self.end.x,
                y: self.end.y,
                direction: self.end.direction.opposite(),
                debug: false,
            },
        );
        result_path
    }
}

/// The raw segments of a path, handed out one by one.
#[derive(Clone, Debug)]
pub struct PathSegments {
    pub indices: Vec<usize>,
    pub position: usize,
}

impl PathSegments {
    pub fn new(path: &Path, raw_area: &RawArea) -> (s: PathSegments)
        requires
            raw_area.well_formed(),
        ensures
            s.indices@ == segments_of(path.points@, *raw_area),
            s.position == 0,
            forall|k: int|
                0 <= k < s.indices.len() ==> #[trigger] s.indices[k] < raw_area.spec_num_segments(),
    {
        let mut indices: Vec<usize> = Vec::new();
        let ghost points = path.points@;
        let mut i: usize = 1;
        while i < path.points.len()
            invariant
                raw_area.well_formed(),
                points == path.points@,
                1 <= i,
                indices@ == segments_of(
                    points.subrange(0, if i <= points.len() {
                        i as int
                    } else {
                        points.len() as int
                    }),
                    *raw_area,
                ),
                forall|k: int|
                    0 <= k < indices.len() ==> #[trigger] indices[k] < raw_area.spec_num_segments(),
            decreases path.points.len() - i,
        {
            proof {
                let prefix = points.subrange(0, i as int + 1);
                assert(prefix.drop_last() =~= points.subrange(0, i as int));
                lemma_extend_indices_concat(
                    *raw_area,
                    Seq::<usize>::empty(),
                    path_steps(points.subrange(0, i as int)),
                    leg_steps(points[i - 1], points[i as int]),
                );
            }
            walk_manhattan_steps(path.points[i - 1], path.points[i], raw_area, &mut indices);
            i += 1;
        }
        proof {
            assert(points.subrange(0, points.len() as int) =~= points);
        }
        PathSegments { indices, position: 0 }
    }

    /// The next segment index, or `None` when all were handed out.
    pub fn next(&mut self) -> (r: Option<usize>)
        ensures
            final(self).indices == old(self).indices,
            old(self).position < old(self).indices.len() ==> r == Some(
                old(self).indices[old(self).position as int],
            ) && final(self).position == old(self).position + 1,
            old(self).position >= old(self).indices.len() ==> r is None && final(self).position
                == old(self).position,
    {
        if self.position >= self.indices.len() {
            return None;
        }
        let idx = self.indices[self.position];
        self.position += 1;
        Some(idx)
    }
}

/// The corners of a path, handed out one by one.
#[derive(Clone, Debug)]
pub struct PathCorners {
    pub indices: Vec<usize>,
    pub position: usize,
}

impl PathCorners {
    pub fn new(path: &Path, raw_area: &RawArea) -> (c: PathCorners)
        requires
            raw_area.well_formed(),
        ensures
            c.indices@ == corners_of(path.points@, *raw_area),
            c.position == 0,
            forall|k: int| 0 <= k < c.indices.len() ==> #[trigger] c.indices[k] < raw_area.spec_size(),
    {
        let mut indices: Vec<usize> = Vec::new();
        let mut prev_dir: Option<(i8, i8)> = None;
        let ghost points = path.points@;
        let mut i: usize = 1;
        while i < path.points.len()
            invariant
                raw_area.well_formed(),
                points == path.points@,
                1 <= i,
                forall|k: int| 0 <= k < indices.len() ==> #[trigger] indices[k] < raw_area.spec_size(),
                ({
                    let scan = corner_scan(
                        points.subrange(0, if i <= points.len() {
                            i as int
                        } else {
                            points.len() as int
                        }),
                        *raw_area,
                    );
                    &&& indices@ == scan.found
                    &&& prev_dir is Some <==> scan.heading is Some
                    &&& prev_dir is Some ==> scan.heading->0 == (
                        prev_dir.unwrap().0 as int,
                        prev_dir.unwrap().1 as int,
                    )
                }),
            decreases path.points.len() - i,
        {
            let from = path.points[i - 1];
            let to = path.points[i];
            proof {
                let prefix = points.subrange(0, i as int + 1);
                assert(prefix.drop_last() =~= points.subrange(0, i as int));
                assert(prefix[prefix.len() - 2] == from);
                assert(prefix.last() == to);
            }
            i += 1;
            if from.x != to.x && from.y != to.y {
                prev_dir = None;
                continue ;
            }
            let sx: i8 = if to.x > from.x {
                1
            } else if to.x < from.x {
                -1
            } else {
                0
            };
            let sy: i8 = if to.y > from.y {
                1
            } else if to.y < from.y {
                -1
            } else {
                0
            };
            match prev_dir {
                Some(prev) => {
                    if prev.0 != sx || prev.1 != sy {
                        match raw_area.point_to_raw_point(&from) {
                            Some(raw_idx) => {
                                let idx = raw_idx.0 as usize;
                                let n = indices.len();
                                if n == 0 || indices[n - 1] != idx {
                                    indices.push(idx);
                                }
                            },
                            None => {},
                        }
                    }
                },
                None => {},
            }
            prev_dir = Some((sx, sy));
        }
        proof {
            assert(points.subrange(0, points.len() as int) =~= points);
        }
        PathCorners { indices, position: 0 }
    }

    /// The next corner index, or `None` when all were handed out.
    pub fn next(&mut self) -> (r: Option<usize>)
        ensures
            final(self).indices == old(self).indices,
            old(self).position < old(self).indices.len() ==> r == Some(
                old(self).indices[old(self).position as int],
            ) && final(self).position == old(self).position + 1,
            old(self).position >= old(self).indices.len() ==> r is None && final(self).position
                == old(self).position,
    {
        if self.position >= self.indices.len() {
            return None;
        }
        let idx = self.indices[self.position];
        self.position += 1;
        Some(idx)
    }
}

/// The points `i` and `i + 1` of the path share a row or a column.
pub open spec fn link_aligned(points: Seq<Point>, i: int) -> bool {
    aligned(points[i], points[i + 1])
}

/// Every two successive points of the path share a row or a column.
pub open spec fn is_chain(points: Seq<Point>) -> bool {
    forall|i: int| 0 <= i < points.len() - 1 ==> #[trigger] link_aligned(points, i)
}

/// Two points are the same, or one unit step apart along a row or a column.
pub open spec fn near(a: Point, b: Point) -> bool {
    a == b || RawArea::unit_step(a, b)
}

/// The directed points `i` and `i + 1` lie in the same place or one unit
/// step apart.
pub open spec fn link_near(out: Seq<DirectedPoint>, i: int) -> bool {
    near(out[i].position(), out[i + 1].position())
}

/// Each directed point lies where the one before it lies, or one unit step
/// from it.
pub open spec fn is_stepwise(out: Seq<DirectedPoint>) -> bool {
    forall|i: int| 0 <= i < out.len() - 1 ==> #[trigger] link_near(out, i)
}

/// All points of the path are the same point.
pub open spec fn all_same(points: Seq<Point>) -> bool {
    forall|i: int| 0 <= i < points.len() ==> #[trigger] points[i] == points[0]
}

/// The directed points of a leg start at its first point, end at its last,
/// and go by unit steps.
pub proof fn lemma_leg_points(a: Point, b: Point, first: Direction)
    requires
        is_leg(a, b),
    ensures
        leg_points(a, b, first).len() == leg_length(a, b) + 1,
        leg_points(a, b, first).len() >= 2,
        leg_points(a, b, first)[0] == directed(a, first),
        leg_points(a, b, first).last().position() == b,
        is_stepwise(leg_points(a, b, first)),
{
    let l = leg_points(a, b, first);
    let n = leg_length(a, b);
    assert(l[n].position() == leg_point(a, b, n));
    assert forall|i: int| 0 <= i < l.len() - 1 implies #[trigger] link_near(l, i) by {
        assert(l[i].position() == leg_point(a, b, i));
        assert(l[i + 1].position() == leg_point(a, b, i + 1));
    }
}

/// Two stepwise runs, the second starting where the first ends, make one
/// stepwise run.
pub proof fn lemma_stepwise_concat(before: Seq<DirectedPoint>, after: Seq<DirectedPoint>)
    requires
        is_stepwise(before),
        is_stepwise(after),
        before.len() > 0 && after.len() > 0 ==> near(before.last().position(), after[0].position()),
    ensures
        is_stepwise(before + after),
{
    let out = before + after;
    let n = before.len() as int;
    assert forall|i: int| 0 <= i < out.len() - 1 implies #[trigger] link_near(out, i) by {
        if i + 1 < n {
            assert(out[i] == before[i] && out[i + 1] == before[i + 1]);
            assert(link_near(before, i));
        } else if i + 1 == n {
            assert(out[i] == before[n - 1]);
            assert(out[i + 1] == after[0]);
        } else {
            assert(out[i] == after[i - n] && out[i + 1] == after[i - n + 1]);
            assert(link_near(after, i - n));
        }
    }
}

/// The directed points of the legs of a chain go by unit steps from the
/// chain's first point to its last. There are none only where all points of
/// the chain are the same.
pub proof fn lemma_legs_points(points: Seq<Point>, start: Direction)
    requires
        is_chain(points),
    ensures
        is_stepwise(legs_points(points, start)),
        legs_points(points, start).len() == 0 ==> all_same(points),
        legs_points(points, start).len() > 0 ==> legs_points(points, start)[0] == directed(
            points[0],
            start,
        ) && legs_points(points, start).last().position() == points.last(),
    decreases points.len(),
{
    if points.len() >= 2 {
        let shorter = points.drop_last();
        assert forall|i: int| 0 <= i < shorter.len() - 1 implies #[trigger] link_aligned(
            shorter,
            i,
        ) by {
            assert(link_aligned(points, i));
        }
        lemma_legs_points(shorter, start);
        let before = legs_points(shorter, start);
        let from = points[points.len() - 2];
        let to = points.last();
        assert(link_aligned(points, points.len() - 2));
        assert(shorter.last() == from);
        assert(shorter[0] == points[0]);
        if is_leg(from, to) {
            let first = if before.len() == 0 {
                start
            } else {
                travel_direction(from, to)
            };
            let leg = leg_points(from, to, first);
            lemma_leg_points(from, to, first);
            let out = before + leg;
            assert(out == legs_points(points, start));
            if before.len() == 0 {
                assert(shorter[shorter.len() - 1] == shorter[0]);
                assert(out =~= leg);
            } else {
                assert(out[0] == before[0]);
            }
            assert(out.last() == leg.last());
            lemma_stepwise_concat(before, leg);
        } else {
            assert(from == to);
            if before.len() == 0 {
                assert forall|i: int| 0 <= i < points.len() implies #[trigger] points[i]
                    == points[0] by {
                    if i < shorter.len() {
                        assert(shorter[i] == shorter[0]);
                    } else {
                        assert(shorter[shorter.len() - 1] == shorter[0]);
                    }
                }
            }
        }
    } else {
        assert(legs_points(points, start).len() == 0);
    }
}

/// A routed edge's directed points end with the edge's end point, turned
/// round. Where the path is a chain that leaves the edge's start point, they
/// begin with the edge's start point and its direction.
pub proof fn lemma_directed_points_ends(
    points: Seq<Point>,
    start: DirectedPoint,
    end: DirectedPoint,
)
    ensures
        directed_points_of(points, start, end).len() >= 1,
        directed_points_of(points, start, end).last() == directed(
            end.position(),
            end.direction.spec_opposite(),
        ),
        is_chain(points) && points.len() >= 1 && points[0] == start.position() && points.last()
            != points[0] ==> directed_points_of(points, start, end)[0].same_as(start),
{
    if is_chain(points) && points.len() >= 1 && points[0] == start.position() && points.last()
        != points[0] {
        lemma_legs_points(points, start.direction);
        let legs = legs_points(points, start.direction);
        if legs.len() == 0 {
            assert(points[points.len() - 1] == points[0]);
        }
        assert(directed_points_of(points, start, end)[0] == legs[0]);
    }
}

/// Where the path is a chain that ends at the edge's end point, each of the
/// edge's directed points lies where the one before it lies, or one unit
/// step from it.
pub proof fn lemma_directed_points_stepwise(
    points: Seq<Point>,
    start: DirectedPoint,
    end: DirectedPoint,
)
    requires
        is_chain(points),
        points.len() >= 1 ==> points.last() == end.position(),
    ensures
        is_stepwise(directed_points_of(points, start, end)),
{
    lemma_legs_points(points, start.direction);
    let legs = legs_points(points, start.direction);
    let marker = seq![directed(end.position(), end.direction.spec_opposite())];
    assert(is_stepwise(marker));
    lemma_stepwise_concat(legs, marker);
    assert(directed_points_of(points, start, end) =~= legs + marker);
}

/// Every point lies inside the area.
pub open spec fn all_inside(area: RawArea, points: Seq<Point>) -> bool {
    forall|i: int| 0 <= i < points.len() ==> area.contains(#[trigger] points[i])
}

/// Every directed point lies inside the area.
pub open spec fn all_directed_inside(area: RawArea, out: Seq<DirectedPoint>) -> bool {
    forall|i: int| 0 <= i < out.len() ==> area.contains((#[trigger] out[i]).position())
}

/// The directed points of a leg between two points of the area lie inside
/// the area.
pub proof fn lemma_leg_points_inside(area: RawArea, a: Point, b: Point, first: Direction)
    requires
        is_leg(a, b),
        area.contains(a),
        area.contains(b),
    ensures
        all_directed_inside(area, leg_points(a, b, first)),
{
    let l = leg_points(a, b, first);
    assert forall|i: int| 0 <= i < l.len() implies area.contains((#[trigger] l[i]).position()) by {
        if i > 0 {
            assert(l[i].position() == leg_point(a, b, i));
        }
    }
}

/// The directed points of the legs of a path whose points lie inside the
/// area lie inside the area.
pub proof fn lemma_legs_points_inside(area: RawArea, points: Seq<Point>, start: Direction)
    requires
        all_inside(area, points),
    ensures
        all_directed_inside(area, legs_points(points, start)),
    decreases points.len(),
{
    if points.len() >= 2 {
        let shorter = points.drop_last();
        assert forall|i: int| 0 <= i < shorter.len() implies area.contains(
            #[trigger] shorter[i],
        ) by {
            assert(area.contains(points[i]));
        }
        lemma_legs_points_inside(area, shorter, start);
        let before = legs_points(shorter, start);
        let from = points[points.len() - 2];
        let to = points.last();
        assert(area.contains(points[points.len() - 2]));
        assert(area.contains(points[points.len() - 1]));
        if is_leg(from, to) {
            let first = if before.len() == 0 {
                start
            } else {
                travel_direction(from, to)
            };
            let leg = leg_points(from, to, first);
            lemma_leg_points_inside(area, from, to, first);
            let out = before + leg;
            assert forall|i: int| 0 <= i < out.len() implies area.contains(
                (#[trigger] out[i]).position(),
            ) by {
                if i < before.len() {
                    assert(out[i] == before[i]);
                } else {
                    assert(out[i] == leg[i - before.len()]);
                }
            }
        }
    }
}

/// The directed points of a routed edge lie inside the area, where the
/// points of its path and its end point do.
pub proof fn lemma_directed_points_inside(
    area: RawArea,
    points: Seq<Point>,
    start: DirectedPoint,
    end: DirectedPoint,
)
    requires
        all_inside(area, points),
        area.contains(end.position()),
    ensures
        all_directed_inside(area, directed_points_of(points, start, end)),
{
    lemma_legs_points_inside(area, points, start.direction);
    let legs = legs_points(points, start.direction);
    let out = directed_points_of(points, start, end);
    assert forall|i: int| 0 <= i < out.len() implies area.contains(
        (#[trigger] out[i]).position(),
    ) by {
        if i < legs.len() {
            assert(out[i] == legs[i]);
        }
    }
}

/// The point `q` lies on the straight line between the points `i` and
/// `i + 1` of the path.
pub open spec fn on_link(points: Seq<Point>, i: int, q: Point) -> bool {
    on_line(points[i], points[i + 1], q)
}

/// The point `q` lies on the straight line between two successive points
/// of the path.
pub open spec fn on_path(points: Seq<Point>, q: Point) -> bool {
    exists|i: int| 0 <= i < points.len() - 1 && #[trigger] on_link(points, i, q)
}

/// The directed points of a leg lie on the straight line between its two
/// points.
pub proof fn lemma_leg_points_on_line(a: Point, b: Point, first: Direction)
    requires
        is_leg(a, b),
    ensures
        forall|k: int|
            0 <= k < leg_points(a, b, first).len() ==> on_line(
                a,
                b,
                (#[trigger] leg_points(a, b, first)[k]).position(),
            ),
{
    let l = leg_points(a, b, first);
    assert forall|k: int| 0 <= k < l.len() implies on_line(a, b, (#[trigger] l[k]).position()) by {
        if k > 0 {
            assert(l[k].position() == leg_point(a, b, k));
        }
    }
}

/// Every directed point of the legs of a path lies on the straight line
/// between two successive points of the path.
pub proof fn lemma_legs_points_on_path(points: Seq<Point>, start: Direction)
    ensures
        forall|k: int|
            0 <= k < legs_points(points, start).len() ==> on_path(
                points,
                (#[trigger] legs_points(points, start)[k]).position(),
            ),
    decreases points.len(),
{
    if points.len() >= 2 {
        let shorter = points.drop_last();
        lemma_legs_points_on_path(shorter, start);
        let before = legs_points(shorter, start);
        let from = points[points.len() - 2];
        let to = points.last();
        let out = legs_points(points, start);
        assert forall|k: int| 0 <= k < before.len() implies on_path(
            points,
            (#[trigger] before[k]).position(),
        ) by {
            let q = before[k].position();
            assert(on_path(shorter, q));
            let i = choose|i: int| 0 <= i < shorter.len() - 1 && #[trigger] on_link(shorter, i, q);
            assert(shorter[i] == points[i] && shorter[i + 1] == points[i + 1]);
            assert(on_link(points, i, q));
        }
        if is_leg(from, to) {
            let first = if before.len() == 0 {
                start
            } else {
                travel_direction(from, to)
            };
            let leg = leg_points(from, to, first);
            lemma_leg_points_on_line(from, to, first);
            assert(out == before + leg);
            assert forall|k: int| 0 <= k < out.len() implies on_path(
                points,
                (#[trigger] out[k]).position(),
            ) by {
                if k < before.len() {
                    assert(out[k] == before[k]);
                } else {
                    assert(out[k] == leg[k - before.len()]);
                    assert(on_link(points, points.len() - 2, out[k].position()));
                }
            }
        } else {
            assert(out == before);
        }
    }
}

} // verus!
