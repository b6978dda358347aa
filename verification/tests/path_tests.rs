use netext_core::geometry::{DirectedPoint, Direction, Neighborhood, Point};
use netext_core::path::{
    manhattan_segment, push_directed_segment, walk_manhattan_steps, EdgeRoutingResult,
    EdgeRoutingsResult, ManhattanSegment, Path, PathWithEndpoints, RoutingConfig,
};
use netext_core::raw_area::RawArea;

fn area() -> RawArea {
    RawArea { top_left: Point::new(0, 0), bottom_right: Point::new(3, 3) }
}

fn dp(x: i32, y: i32, d: Direction) -> DirectedPoint {
    DirectedPoint::new(x, y, d)
}

fn drain_segments(path: &Path, area: &RawArea) -> Vec<usize> {
    let mut it = path.segments(area);
    let mut out = Vec::new();
    while let Some(i) = it.next() {
        out.push(i);
    }
    out
}

fn drain_corners(path: &Path, area: &RawArea) -> Vec<usize> {
    let mut it = path.corners(area);
    let mut out = Vec::new();
    while let Some(i) = it.next() {
        out.push(i);
    }
    out
}

#[test]
fn routing_config_defaults_to_orthogonal() {
    assert_eq!(RoutingConfig::default().neighborhood, Neighborhood::Orthogonal);
    assert_eq!(RoutingConfig::new(Neighborhood::Moore).neighborhood, Neighborhood::Moore);
}

#[test]
fn results_hold_their_paths() {
    let p = vec![dp(0, 0, Direction::Up)];
    let one = EdgeRoutingResult::new(p.clone());
    assert_eq!(one.get_path(), &p);
    let many = EdgeRoutingsResult::new(vec![p.clone(), Vec::new()]);
    assert_eq!(many.get_paths().len(), 2);
    assert_eq!(many.get_paths()[0], p);
}

#[test]
fn path_accessors() {
    let points = vec![Point::new(0, 0), Point::new(2, 0)];
    let path = Path::new(points.clone());
    assert_eq!(path.as_slice(), &points[..]);
    assert_eq!(path.into_inner(), points);
}

#[test]
fn manhattan_segment_needs_two_aligned_points() {
    let a = Point::new(1, 1);
    assert_eq!(manhattan_segment(a, a), None);
    assert_eq!(manhattan_segment(a, Point::new(2, 2)), None);
    assert_eq!(
        manhattan_segment(a, Point::new(1, 5)),
        Some(ManhattanSegment { from: a, to: Point::new(1, 5) })
    );
    assert_eq!(
        manhattan_segment(a, Point::new(-3, 1)),
        Some(ManhattanSegment { from: a, to: Point::new(-3, 1) })
    );
}

#[test]
fn segments_of_an_l_shaped_path() {
    let path = Path::new(vec![Point::new(0, 0), Point::new(2, 0), Point::new(2, 2)]);
    // horizontal 0 and 1 of row 0, then vertical 12 + 2 * 3 + 0 and + 1
    assert_eq!(drain_segments(&path, &area()), vec![0, 1, 18, 19]);
    assert_eq!(path.segments(&area()).indices, vec![0, 1, 18, 19]);
}

#[test]
fn segments_walked_backwards_have_the_same_indices() {
    let path = Path::new(vec![Point::new(2, 2), Point::new(2, 0), Point::new(0, 0)]);
    assert_eq!(drain_segments(&path, &area()), vec![19, 18, 1, 0]);
}

#[test]
fn segments_skip_duplicates_and_gaps() {
    let dup = Path::new(vec![Point::new(0, 0), Point::new(0, 0), Point::new(1, 0)]);
    assert_eq!(drain_segments(&dup, &area()), vec![0]);
    let gap = Path::new(vec![Point::new(0, 0), Point::new(1, 1), Point::new(2, 1)]);
    assert_eq!(drain_segments(&gap, &area()), vec![3 + 1]);
    let back = Path::new(vec![Point::new(0, 0), Point::new(1, 0), Point::new(0, 0)]);
    assert_eq!(drain_segments(&back, &area()), vec![0]);
    let there_and_back = Path::new(vec![Point::new(0, 0), Point::new(2, 0), Point::new(0, 0)]);
    assert_eq!(drain_segments(&there_and_back, &area()), vec![0, 1, 0]);
    assert_eq!(drain_segments(&Path::new(Vec::new()), &area()), Vec::<usize>::new());
    assert_eq!(drain_segments(&Path::new(vec![Point::new(1, 1)]), &area()), Vec::<usize>::new());
}

#[test]
fn segments_outside_the_area_are_left_out() {
    let path = Path::new(vec![Point::new(2, 0), Point::new(5, 0)]);
    assert_eq!(drain_segments(&path, &area()), vec![2]);
}

#[test]
fn walking_appends_to_what_is_there() {
    let mut indices = vec![7usize, 0];
    walk_manhattan_steps(Point::new(0, 0), Point::new(2, 0), &area(), &mut indices);
    assert_eq!(indices, vec![7, 0, 1]);
    walk_manhattan_steps(Point::new(0, 0), Point::new(1, 1), &area(), &mut indices);
    assert_eq!(indices, vec![7, 0, 1]);
}

#[test]
fn corners_of_paths() {
    let l = Path::new(vec![Point::new(0, 0), Point::new(2, 0), Point::new(2, 2)]);
    assert_eq!(drain_corners(&l, &area()), vec![2]);
    let straight = Path::new(vec![Point::new(0, 0), Point::new(1, 0), Point::new(3, 0)]);
    assert_eq!(drain_corners(&straight, &area()), Vec::<usize>::new());
    let z = Path::new(vec![
        Point::new(0, 0),
        Point::new(2, 0),
        Point::new(2, 2),
        Point::new(3, 2),
    ]);
    assert_eq!(drain_corners(&z, &area()), vec![2, 2 * 4 + 2]);
    let reversal = Path::new(vec![Point::new(0, 0), Point::new(2, 0), Point::new(1, 0)]);
    assert_eq!(drain_corners(&reversal, &area()), vec![2]);
}

#[test]
fn corners_at_a_standstill_and_after_a_gap() {
    // a pair of equal points has the direction (0, 0), which differs from any move
    let turn_in_place = Path::new(vec![
        Point::new(0, 1),
        Point::new(2, 1),
        Point::new(2, 1),
        Point::new(2, 3),
    ]);
    assert_eq!(drain_corners(&turn_in_place, &area()), vec![4 + 2]);
    let gap = Path::new(vec![Point::new(0, 0), Point::new(1, 1), Point::new(2, 1)]);
    assert_eq!(drain_corners(&gap, &area()), Vec::<usize>::new());
    let gap_then_turn = Path::new(vec![
        Point::new(0, 0),
        Point::new(1, 0),
        Point::new(2, 1),
        Point::new(2, 3),
    ]);
    assert_eq!(drain_corners(&gap_then_turn, &area()), Vec::<usize>::new());
    let outside = Path::new(vec![Point::new(0, 5), Point::new(2, 5), Point::new(2, 7)]);
    assert_eq!(drain_corners(&outside, &area()), Vec::<usize>::new());
}

#[test]
fn iterators_end_with_none() {
    let l = Path::new(vec![Point::new(0, 0), Point::new(1, 0)]);
    let mut it = l.segments(&area());
    assert_eq!(it.next(), Some(0));
    assert_eq!(it.next(), None);
    assert_eq!(it.next(), None);
    let mut c = l.corners(&area());
    assert_eq!(c.next(), None);
}

#[test]
fn directed_points_follow_the_arrival_convention() {
    let routed = PathWithEndpoints::new(
        Path::new(vec![Point::new(0, 0), Point::new(2, 0), Point::new(2, 2)]),
        dp(0, 0, Direction::Right),
        dp(2, 2, Direction::Up),
    );
    assert_eq!(
        routed.to_directed_points(),
        vec![
            dp(0, 0, Direction::Right),
            dp(1, 0, Direction::Left),
            dp(2, 0, Direction::Left),
            dp(2, 0, Direction::Down),
            dp(2, 1, Direction::Up),
            dp(2, 2, Direction::Up),
            dp(2, 2, Direction::Down),
        ]
    );
}

#[test]
fn directed_points_of_each_travel_direction() {
    let up = PathWithEndpoints::new(
        Path::new(vec![Point::new(0, 2), Point::new(0, 0)]),
        dp(0, 2, Direction::Center),
        dp(0, 0, Direction::Center),
    );
    assert_eq!(
        up.to_directed_points(),
        vec![
            dp(0, 2, Direction::Center),
            dp(0, 1, Direction::Down),
            dp(0, 0, Direction::Down),
            dp(0, 0, Direction::Center),
        ]
    );
    let left = PathWithEndpoints::new(
        Path::new(vec![Point::new(1, 0), Point::new(0, 0)]),
        dp(1, 0, Direction::UpLeft),
        dp(0, 0, Direction::UpLeft),
    );
    assert_eq!(
        left.to_directed_points(),
        vec![dp(1, 0, Direction::UpLeft), dp(0, 0, Direction::Right), dp(0, 0, Direction::DownRight)]
    );
}

#[test]
fn the_start_direction_goes_to_the_first_point_emitted() {
    let routed = PathWithEndpoints::new(
        Path::new(vec![Point::new(0, 0), Point::new(0, 0), Point::new(1, 1), Point::new(2, 1)]),
        dp(0, 0, Direction::Up),
        dp(2, 1, Direction::Left),
    );
    assert_eq!(
        routed.to_directed_points(),
        vec![dp(1, 1, Direction::Up), dp(2, 1, Direction::Left), dp(2, 1, Direction::Right)]
    );
}

#[test]
fn a_path_without_legs_gives_the_end_point_alone() {
    let single = PathWithEndpoints::new(
        Path::new(vec![Point::new(4, 4)]),
        dp(4, 4, Direction::Up),
        dp(4, 4, Direction::Left),
    );
    assert_eq!(single.to_directed_points(), vec![dp(4, 4, Direction::Right)]);
    let empty = PathWithEndpoints::new(
        Path::new(Vec::new()),
        dp(0, 0, Direction::Up),
        dp(9, 9, Direction::Down),
    );
    assert_eq!(empty.to_directed_points(), vec![dp(9, 9, Direction::Up)]);
}

#[test]
fn pushing_a_segment_with_and_without_override() {
    let mut out = vec![dp(9, 9, Direction::Center)];
    let segment = manhattan_segment(Point::new(0, 0), Point::new(0, 2)).unwrap();
    push_directed_segment(&mut out, segment, None);
    assert_eq!(
        out,
        vec![
            dp(9, 9, Direction::Center),
            dp(0, 0, Direction::Down),
            dp(0, 1, Direction::Up),
            dp(0, 2, Direction::Up),
        ]
    );
    let mut out = Vec::new();
    push_directed_segment(&mut out, segment, Some(Direction::Left));
    assert_eq!(out[0], dp(0, 0, Direction::Left));
    assert_eq!(out.len(), 3);
}

#[test]
fn directed_points_go_by_unit_steps() {
    let routed = PathWithEndpoints::new(
        Path::new(vec![
            Point::new(0, 0),
            Point::new(5, 0),
            Point::new(5, 0),
            Point::new(5, -4),
            Point::new(1, -4),
        ]),
        dp(0, 0, Direction::Right),
        dp(1, -4, Direction::Right),
    );
    let out = routed.to_directed_points();
    assert_eq!(out[0], dp(0, 0, Direction::Right));
    assert_eq!(*out.last().unwrap(), dp(1, -4, Direction::Left));
    for w in out.windows(2) {
        let d = (w[0].x - w[1].x).abs() + (w[0].y - w[1].y).abs();
        assert!(d <= 1);
    }
}

#[test]
fn paths_with_endpoints_share_the_iterators_of_their_path() {
    let path = Path::new(vec![Point::new(0, 0), Point::new(2, 0), Point::new(2, 2)]);
    let routed = PathWithEndpoints::new(path.clone(), dp(0, 0, Direction::Right), dp(2, 2, Direction::Up));
    assert_eq!(routed.segments(&area()).indices, path.segments(&area()).indices);
    assert_eq!(routed.corners(&area()).indices, path.corners(&area()).indices);
}
