use netext_core::geometry::{
    BoundingBox, DirectedPoint, Direction, Layoutable, Neighborhood, Orientation,
    PlacedRectangularNode, Point, PointLike, Rectangle, RectangularNode, Size,
};

#[test]
fn point_and_size_accessors() {
    let p = Point::new(3, -4);
    assert_eq!(p.x(), 3);
    assert_eq!(p.y(), -4);
    let s = Size::new(7, 9);
    assert_eq!(s.width(), 7);
    assert_eq!(s.height(), 9);
    assert_eq!(RectangularNode::new(s).size(), s);
}

#[test]
fn bounding_box_halves_the_size() {
    let node = PlacedRectangularNode::new(Point::new(5, 5), RectangularNode::new(Size::new(4, 4)));
    assert_eq!(node.top_left(), Point::new(3, 3));
    assert_eq!(node.bottom_right(), Point::new(7, 7));
    let odd = PlacedRectangularNode::new(Point::new(0, 0), RectangularNode::new(Size::new(5, 3)));
    assert_eq!(odd.top_left(), Point::new(-2, -1));
    assert_eq!(odd.bottom_right(), Point::new(2, 1));
}

#[test]
fn node_validity() {
    let ok = PlacedRectangularNode::new(Point::new(5, 5), RectangularNode::new(Size::new(4, 4)));
    assert!(ok.is_well_formed());
    let negative = PlacedRectangularNode::new(Point::new(5, 5), RectangularNode::new(Size::new(-1, 4)));
    assert!(!negative.is_well_formed());
    let far = PlacedRectangularNode::new(
        Point::new(0x1000_0001, 0),
        RectangularNode::new(Size::new(1, 1)),
    );
    assert!(!far.is_well_formed());
    assert!(Point::new(0x1000_0000, -0x1000_0000).is_in_range());
    assert!(!Point::new(0, -0x1000_0001).is_in_range());
}

#[test]
fn opposite_swaps_directions() {
    assert_eq!(Direction::Center.opposite(), Direction::Center);
    assert_eq!(Direction::Up.opposite(), Direction::Down);
    assert_eq!(Direction::Down.opposite(), Direction::Up);
    assert_eq!(Direction::Left.opposite(), Direction::Right);
    assert_eq!(Direction::Right.opposite(), Direction::Left);
    assert_eq!(Direction::UpRight.opposite(), Direction::DownLeft);
    assert_eq!(Direction::DownLeft.opposite(), Direction::UpRight);
    assert_eq!(Direction::UpLeft.opposite(), Direction::DownRight);
    assert_eq!(Direction::DownRight.opposite(), Direction::UpLeft);
}

#[test]
fn opposite_is_an_involution() {
    for d in Direction::all_directions(Neighborhood::Moore) {
        assert_eq!(d.opposite().opposite(), d);
    }
}

#[test]
fn diagonals() {
    assert!(Direction::UpRight.is_diagonal());
    assert!(Direction::UpLeft.is_diagonal());
    assert!(Direction::DownRight.is_diagonal());
    assert!(Direction::DownLeft.is_diagonal());
    assert!(!Direction::Center.is_diagonal());
    assert!(!Direction::Up.is_diagonal());
    assert!(!Direction::Down.is_diagonal());
    assert!(!Direction::Left.is_diagonal());
    assert!(!Direction::Right.is_diagonal());
}

#[test]
fn orientation_of_each_direction() {
    assert_eq!(Direction::Up.to_orientation(), Orientation::Vertical);
    assert_eq!(Direction::Down.to_orientation(), Orientation::Vertical);
    assert_eq!(Direction::Center.to_orientation(), Orientation::Vertical);
    assert_eq!(Direction::UpLeft.to_orientation(), Orientation::Vertical);
    assert_eq!(Direction::DownRight.to_orientation(), Orientation::Vertical);
    assert_eq!(Direction::Left.to_orientation(), Orientation::Horizontal);
    assert_eq!(Direction::Right.to_orientation(), Orientation::Horizontal);
    assert_eq!(Direction::UpRight.to_orientation(), Orientation::Horizontal);
    assert_eq!(Direction::DownLeft.to_orientation(), Orientation::Horizontal);
    assert_eq!(Orientation::Horizontal.flip(), Orientation::Vertical);
    assert_eq!(Orientation::Vertical.flip(), Orientation::Horizontal);
}

#[test]
fn direction_codes() {
    assert_eq!(Direction::Center.code(), -1);
    assert_eq!(Direction::Up.code(), 0);
    assert_eq!(Direction::Down.code(), 1);
    assert_eq!(Direction::Left.code(), 2);
    assert_eq!(Direction::Right.code(), 3);
    assert_eq!(Direction::UpRight.code(), 4);
    assert_eq!(Direction::UpLeft.code(), 5);
    assert_eq!(Direction::DownRight.code(), 6);
    assert_eq!(Direction::DownLeft.code(), 7);
}

#[test]
fn directions_of_a_neighbourhood() {
    assert_eq!(
        Direction::all_directions(Neighborhood::Orthogonal),
        vec![Direction::Center, Direction::Up, Direction::Down, Direction::Left, Direction::Right]
    );
    assert_eq!(Direction::all_directions(Neighborhood::Moore).len(), 9);
    assert_eq!(
        Direction::Up.other_directions(Neighborhood::Orthogonal),
        vec![Direction::Center, Direction::Down, Direction::Left, Direction::Right]
    );
    assert_eq!(Direction::UpLeft.other_directions(Neighborhood::Orthogonal).len(), 5);
    assert_eq!(Direction::UpLeft.other_directions(Neighborhood::Moore).len(), 8);
}

#[test]
fn directed_point_equality_ignores_debug() {
    let a = DirectedPoint::new(1, 2, Direction::Up);
    let mut b = DirectedPoint::new(1, 2, Direction::Up);
    b.debug = true;
    assert!(!a.debug);
    assert_eq!(a, b);
    assert_ne!(a, DirectedPoint::new(1, 2, Direction::Down));
    assert_ne!(a, DirectedPoint::new(1, 3, Direction::Up));
    assert_eq!(a.as_point(), Point::new(1, 2));
}

#[test]
fn traits_of_points_and_boxes() {
    let p = Point::new(3, -4);
    assert_eq!(PointLike::x(&p), 3);
    assert_eq!(PointLike::y(&p), -4);
    assert_eq!(PointLike::as_point(&p), p);
    let d = DirectedPoint::new(7, 8, Direction::Left);
    assert_eq!(PointLike::x(&d), 7);
    assert_eq!(PointLike::y(&d), 8);
    assert_eq!(PointLike::as_point(&d), Point::new(7, 8));
    let node = PlacedRectangularNode::new(Point::new(5, 5), RectangularNode::new(Size::new(4, 6)));
    assert_eq!(BoundingBox::top_left(&node), Point::new(3, 2));
    assert_eq!(BoundingBox::bottom_right(&node), Point::new(7, 8));
    assert_eq!(
        node.bounding_box(),
        Rectangle { top_left: Point::new(3, 2), bottom_right: Point::new(7, 8) }
    );
    assert_eq!(Layoutable::size(&RectangularNode::new(Size::new(4, 6))), Size::new(4, 6));
}
