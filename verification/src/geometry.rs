//! Points, sizes, rectangular nodes and directions on the integer plane.

use vstd::prelude::*;

verus! {

/// Largest absolute coordinate, and largest node extent, that the router
/// accepts. Inside this range no bounding box, padding or extrusion leaves
/// the range of `i32`.
pub const COORD_LIMIT: i32 = 0x1000_0000;

/// A point of the integer plane.
#[derive(Clone, Copy, Debug, PartialEq, Eq, Hash, Structural)]
pub struct Point {
    pub x: i32,
    pub y: i32,
}

impl Point {
    pub fn new(x: i32, y: i32) -> (p: Point)
        ensures
            p.x == x,
            p.y == y,
    {
        Point { x, y }
    }

    pub fn x(&self) -> (r: i32)
        ensures
            r == self.x,
    {
        self.x
    }

    pub fn y(&self) -> (r: i32)
        ensures
            r == self.y,
    {
        self.y
    }

    /// Both coordinates lie within the accepted range.
    pub open spec fn in_range(self) -> bool {
        -COORD_LIMIT <= self.x <= COORD_LIMIT && -COORD_LIMIT <= self.y <= COORD_LIMIT
    }

    pub fn is_in_range(&self) -> (b: bool)
        ensures
            b == self.in_range(),
    {
        -COORD_LIMIT <= self.x && self.x <= COORD_LIMIT && -COORD_LIMIT <= self.y && self.y
            <= COORD_LIMIT
    }
}

/// Width and height of a rectangle.
#[derive(Clone, Copy, Debug, PartialEq, Eq, Hash, Structural)]
pub struct Size {
    pub width: i32,
    pub height: i32,
}

impl Size {
    pub fn new(width: i32, height: i32) -> (s: Size)
        ensures
            s.width == width,
            s.height == height,
    {
        Size { width, height }
    }

    pub fn width(&self) -> (r: i32)
        ensures
            r == self.width,
    {
        self.width
    }

    pub fn height(&self) -> (r: i32)
        ensures
            r == self.height,
    {
        self.height
    }
}

/// A rectangle that has a size but no place yet.
#[derive(Clone, Copy, Debug, PartialEq, Eq, Hash, Structural)]
pub struct RectangularNode {
    pub size: Size,
}

impl RectangularNode {
    pub fn new(size: Size) -> (n: RectangularNode)
        ensures
            n.size == size,
    {
        RectangularNode { size }
    }

    pub fn size(&self) -> (s: Size)
        ensures
            s == self.size,
    {
        self.size
    }
}

/// A rectangle centred on a point of the plane.
#[derive(Clone, Copy, Debug, PartialEq, Eq, Hash, Structural)]
pub struct PlacedRectangularNode {
    pub node: RectangularNode,
    pub center: Point,
}

impl PlacedRectangularNode {
    pub fn new(center: Point, node: RectangularNode) -> (p: PlacedRectangularNode)
        ensures
            p.center == center,
            p.node == node,
    {
        PlacedRectangularNode { center, node }
    }

    /// The size is not negative, and centre and size lie within the accepted
    /// range.
    pub open spec fn well_formed(self) -> bool {
        &&& self.center.in_range()
        &&& 0 <= self.node.size.width <= COORD_LIMIT
        &&& 0 <= self.node.size.height <= COORD_LIMIT
    }

    pub open spec fn left(self) -> int {
        self.center.x - self.node.size.width / 2
    }

    pub open spec fn top(self) -> int {
        self.center.y - self.node.size.height / 2
    }

    pub open spec fn right(self) -> int {
        self.center.x + self.node.size.width / 2
    }

    pub open spec fn bottom(self) -> int {
        self.center.y + self.node.size.height / 2
    }

    /// The closed bounding box holds the point `(x, y)`.
    pub open spec fn covers(self, x: int, y: int) -> bool {
        self.left() <= x <= self.right() && self.top() <= y <= self.bottom()
    }

    pub fn is_well_formed(&self) -> (b: bool)
        ensures
            b == self.well_formed(),
    {
        self.center.is_in_range() && 0 <= self.node.size.width && self.node.size.width
            <= COORD_LIMIT && 0 <= self.node.size.height && self.node.size.height <= COORD_LIMIT
    }

    pub fn top_left(&self) -> (p: Point)
        requires
            self.well_formed(),
        ensures
            p.x == self.left(),
            p.y == self.top(),
    {
        Point {
            x: self.center.x - self.node.size.width / 2,
            y: self.center.y - self.node.size.height / 2,
        }
    }

    pub fn bottom_right(&self) -> (p: Point)
        requires
            self.well_formed(),
        ensures
            p.x == self.right(),
            p.y == self.bottom(),
    {
        Point {
            x: self.center.x + self.node.size.width / 2,
            y: self.center.y + self.node.size.height / 2,
        }
    }
}

/// Which neighbours of a cell count as adjacent.
#[derive(Clone, Copy, Debug, PartialEq, Eq, Hash, Structural)]
pub enum Neighborhood {
    Orthogonal,
    Moore,
}

/// The axis along which a search state may go on without a turn.
#[derive(Clone, Copy, Debug, PartialEq, Eq, Hash, Structural)]
pub enum Orientation {
    Horizontal,
    Vertical,
}

impl Orientation {
    pub open spec fn flipped(self) -> Orientation {
        match self {
            Orientation::Horizontal => Orientation::Vertical,
            Orientation::Vertical => Orientation::Horizontal,
        }
    }

    pub fn flip(&self) -> (o: Orientation)
        ensures
            o == self.flipped(),
    {
        match self {
            Orientation::Horizontal => Orientation::Vertical,
            Orientation::Vertical => Orientation::Horizontal,
        }
    }
}

/// One of eight compass directions, or none.
#[derive(Clone, Copy, Debug, PartialEq, Eq, Hash, Structural)]
pub enum Direction {
    Center,
    Up,
    Down,
    Left,
    Right,
    UpRight,
    UpLeft,
    DownRight,
    DownLeft,
}

impl Direction {
    pub open spec fn spec_opposite(&self) -> Direction {
        match self {
            Direction::Up => Direction::Down,
            Direction::Down => Direction::Up,
            Direction::Left => Direction::Right,
            Direction::Right => Direction::Left,
            Direction::UpRight => Direction::DownLeft,
            Direction::DownLeft => Direction::UpRight,
            Direction::UpLeft => Direction::DownRight,
            Direction::DownRight => Direction::UpLeft,
            Direction::Center => Direction::Center,
        }
    }

    pub open spec fn spec_is_diagonal(&self) -> bool {
        *self == Direction::UpRight || *self == Direction::UpLeft || *self
            == Direction::DownRight || *self == Direction::DownLeft
    }

    pub open spec fn spec_to_orientation(&self) -> Orientation {
        match self {
            Direction::Left | Direction::Right | Direction::UpRight | Direction::DownLeft =>
                Orientation::Horizontal,
            _ => Orientation::Vertical,
        }
    }

    /// The number under which a direction enters the routing seed.
    pub open spec fn spec_code(&self) -> i32 {
        match self {
            Direction::Center => -1i32,
            Direction::Up => 0,
            Direction::Down => 1,
            Direction::Left => 2,
            Direction::Right => 3,
            Direction::UpRight => 4,
            Direction::UpLeft => 5,
            Direction::DownRight => 6,
            Direction::DownLeft => 7,
        }
    }

    #[verifier::when_used_as_spec(spec_opposite)]
    pub fn opposite(&self) -> (d: Direction)
        ensures
            d == self.spec_opposite(),
    {
        match self {
            Direction::Up => Direction::Down,
            Direction::Down => Direction::Up,
            Direction::Left => Direction::Right,
            Direction::Right => Direction::Left,
            Direction::UpRight => Direction::DownLeft,
            Direction::DownLeft => Direction::UpRight,
            Direction::UpLeft => Direction::DownRight,
            Direction::DownRight => Direction::UpLeft,
            Direction::Center => Direction::Center,
        }
    }

    #[verifier::when_used_as_spec(spec_is_diagonal)]
    pub fn is_diagonal(&self) -> (b: bool)
        ensures
            b == self.spec_is_diagonal(),
    {
        match self {
            Direction::UpRight | Direction::UpLeft | Direction::DownRight | Direction::DownLeft => true,
            _ => false,
        }
    }

    #[verifier::when_used_as_spec(spec_to_orientation)]
    pub fn to_orientation(&self) -> (o: Orientation)
        ensures
            o == self.spec_to_orientation(),
    {
        match self {
            Direction::Up | Direction::Down => Orientation::Vertical,
            Direction::Left | Direction::Right => Orientation::Horizontal,
            Direction::UpLeft | Direction::DownRight | Direction::Center => Orientation::Vertical,
            Direction::UpRight | Direction::DownLeft => Orientation::Horizontal,
        }
    }

    #[verifier::when_used_as_spec(spec_code)]
    pub fn code(&self) -> (c: i32)
        ensures
            c == self.spec_code(),
    {
        match self {
            Direction::Center => -1,
            Direction::Up => 0,
            Direction::Down => 1,
            Direction::Left => 2,
            Direction::Right => 3,
            Direction::UpRight => 4,
            Direction::UpLeft => 5,
            Direction::DownRight => 6,
            Direction::DownLeft => 7,
        }
    }

    /// The directions of a neighbourhood, `Center` first.
    pub open spec fn spec_all_directions(neighborhood: Neighborhood) -> Seq<Direction> {
        match neighborhood {
            Neighborhood::Orthogonal => seq![
                Direction::Center,
                Direction::Up,
                Direction::Down,
                Direction::Left,
                Direction::Right,
            ],
            Neighborhood::Moore => seq![
                Direction::Center,
                Direction::Up,
                Direction::Down,
                Direction::Left,
                Direction::Right,
                Direction::UpRight,
                Direction::UpLeft,
                Direction::DownRight,
                Direction::DownLeft,
            ],
        }
    }

    pub fn all_directions(neighborhood: Neighborhood) -> (v: Vec<Direction>)
        ensures
            v@ == Self::spec_all_directions(neighborhood),
    {
        let mut v: Vec<Direction> = Vec::new();
        v.push(Direction::Center);
        v.push(Direction::Up);
        v.push(Direction::Down);
        v.push(Direction::Left);
        v.push(Direction::Right);
        match neighborhood {
            Neighborhood::Orthogonal => {},
            Neighborhood::Moore => {
                v.push(Direction::UpRight);
                v.push(Direction::UpLeft);
                v.push(Direction::DownRight);
                v.push(Direction::DownLeft);
            },
        }
        assert(v@ =~= Self::spec_all_directions(neighborhood));
        v
    }

    /// The directions of a neighbourhood without `self`, in the same order.
    pub fn other_directions(&self, neighborhood: Neighborhood) -> (v: Vec<Direction>)
        ensures
            v@ == Self::spec_all_directions(neighborhood).filter(|d: Direction| d != *self),
    {
        let all = Self::all_directions(neighborhood);
        let mut v: Vec<Direction> = Vec::new();
        let ghost keep = |d: Direction| d != *self;
        let mut i: usize = 0;
        while i < all.len()
            invariant
                i <= all.len(),
                keep == (|d: Direction| d != *self),
                v@ == all@.subrange(0, i as int).filter(keep),
            decreases all.len() - i,
        {
            let d = all[i];
            proof {
                let before = all@.subrange(0, i as int);
                assert(all@.subrange(0, i + 1) =~= before.push(d));
                before.lemma_filter_push(d, keep);
            }
            if d != *self {
                v.push(d);
            }
            i += 1;
        }
        assert(all@.subrange(0, all.len() as int) =~= all@);
        v
    }
}

/// A point of the plane with a direction attached.
#[derive(Clone, Copy, Debug, Eq)]
pub struct DirectedPoint {
    pub x: i32,
    pub y: i32,
    pub direction: Direction,
    pub debug: bool,
}

impl PartialEq for DirectedPoint {
    fn eq(&self, other: &Self) -> (r: bool) {
        self.x == other.x && self.y == other.y && self.direction == other.direction
    }
}

impl vstd::std_specs::cmp::PartialEqSpecImpl for DirectedPoint {
    open spec fn obeys_eq_spec() -> bool {
        true
    }

    open spec fn eq_spec(&self, other: &Self) -> bool {
        self.x == other.x && self.y == other.y && self.direction == other.direction
    }
}

impl DirectedPoint {
    pub fn new(x: i32, y: i32, direction: Direction) -> (p: DirectedPoint)
        ensures
            p.x == x,
            p.y == y,
            p.direction == direction,
            !p.debug,
    {
        DirectedPoint { x, y, direction, debug: false }
    }

    pub open spec fn position(self) -> Point {
        Point { x: self.x, y: self.y }
    }

    pub fn as_point(&self) -> (p: Point)
        ensures
            p == self.position(),
    {
        Point { x: self.x, y: self.y }
    }

    /// Two directed points are the same when place and direction agree; the
    /// debug flag does not count.
    pub open spec fn same_as(self, other: DirectedPoint) -> bool {
        self.x == other.x && self.y == other.y && self.direction == other.direction
    }
}

/// What has a place in the plane.
pub trait PointLike {
    spec fn spec_x(&self) -> i32;

    spec fn spec_y(&self) -> i32;

    fn x(&self) -> (r: i32)
        ensures
            r == self.spec_x(),
    ;

    fn y(&self) -> (r: i32)
        ensures
            r == self.spec_y(),
    ;

    /// The place as a point.
    fn as_point(&self) -> (p: Point)
        ensures
            p.x == self.spec_x(),
            p.y == self.spec_y(),
    ;
}

impl PointLike for Point {
    open spec fn spec_x(&self) -> i32 {
        self.x
    }

    open spec fn spec_y(&self) -> i32 {
        self.y
    }

    fn x(&self) -> (r: i32) {
        self.x
    }

    fn y(&self) -> (r: i32) {
        self.y
    }

    fn as_point(&self) -> (p: Point) {
        Point { x: self.x, y: self.y }
    }
}

impl PointLike for DirectedPoint {
    open spec fn spec_x(&self) -> i32 {
        self.x
    }

    open spec fn spec_y(&self) -> i32 {
        self.y
    }

    fn x(&self) -> (r: i32) {
        self.x
    }

    fn y(&self) -> (r: i32) {
        self.y
    }

    fn as_point(&self) -> (p: Point) {
        Point { x: self.x, y: self.y }
    }
}

/// An axis-aligned rectangle given by two corners.
#[derive(Clone, Copy, Debug, PartialEq, Eq, Structural)]
pub struct Rectangle {
    pub top_left: Point,
    pub bottom_right: Point,
}

/// What has an axis-aligned bounding box.
pub trait BoundingBox {
    /// The box can be computed without leaving the range of `i32`.
    spec fn has_box(&self) -> bool;

    spec fn spec_top_left(&self) -> Point;

    spec fn spec_bottom_right(&self) -> Point;

    fn top_left(&self) -> (p: Point)
        requires
            self.has_box(),
        ensures
            p == self.spec_top_left(),
    ;

    fn bottom_right(&self) -> (p: Point)
        requires
            self.has_box(),
        ensures
            p == self.spec_bottom_right(),
    ;

    fn bounding_box(&self) -> (r: Rectangle)
        requires
            self.has_box(),
        ensures
            r.top_left == self.spec_top_left(),
            r.bottom_right == self.spec_bottom_right(),
    ;
}

impl BoundingBox for PlacedRectangularNode {
    open spec fn has_box(&self) -> bool {
        self.well_formed()
    }

    open spec fn spec_top_left(&self) -> Point {
        Point { x: self.left() as i32, y: self.top() as i32 }
    }

    open spec fn spec_bottom_right(&self) -> Point {
        Point { x: self.right() as i32, y: self.bottom() as i32 }
    }

    fn top_left(&self) -> (p: Point) {
        Point {
            x: self.center.x - self.node.size.width / 2,
            y: self.center.y - self.node.size.height / 2,
        }
    }

    fn bottom_right(&self) -> (p: Point) {
        Point {
            x: self.center.x + self.node.size.width / 2,
            y: self.center.y + self.node.size.height / 2,
        }
    }

    fn bounding_box(&self) -> (r: Rectangle) {
        Rectangle {
            top_left: Point {
                x: self.center.x - self.node.size.width / 2,
                y: self.center.y - self.node.size.height / 2,
            },
            bottom_right: Point {
                x: self.center.x + self.node.size.width / 2,
                y: self.center.y + self.node.size.height / 2,
            },
        }
    }
}

/// What has a size before it has a place.
pub trait Layoutable {
    spec fn spec_size(&self) -> Size;

    fn size(&self) -> (s: Size)
        ensures
            s == self.spec_size(),
    ;
}

impl Layoutable for RectangularNode {
    open spec fn spec_size(&self) -> Size {
        self.size
    }

    fn size(&self) -> (s: Size) {
        self.size
    }
}

} // verus!
