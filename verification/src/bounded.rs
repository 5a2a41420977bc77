//! Points, bounding boxes, and the primitive shapes with the boxes that bound
//! them.
//!
//! Positions lie on a grid of `i32` coordinates. Bounding boxes are kept in
//! `i64`, so that a box around any shape at any position is exact.

use vstd::prelude::*;

verus! {

/// A position on the grid, or a step from one position to another.
#[derive(Clone, Copy, Debug, PartialEq, Eq, Structural, Hash)]
pub struct IVec2 {
    pub x: i32,
    pub y: i32,
}

impl IVec2 {
    pub fn new(x: i32, y: i32) -> (r: Self)
        ensures
            r == (IVec2 { x, y }),
    {
        IVec2 { x, y }
    }
}

/// A pair of sizes, one along each axis.
#[derive(Clone, Copy, Debug, PartialEq, Eq, Structural, Hash)]
pub struct UVec2 {
    pub x: u32,
    pub y: u32,
}

impl UVec2 {
    pub fn new(x: u32, y: u32) -> (r: Self)
        ensures
            r == (UVec2 { x, y }),
    {
        UVec2 { x, y }
    }
}

/// A corner of a bounding box.
#[derive(Clone, Copy, Debug, PartialEq, Eq, Structural, Hash)]
pub struct I64Vec2 {
    pub x: i64,
    pub y: i64,
}

impl I64Vec2 {
    pub fn new(x: i64, y: i64) -> (r: Self)
        ensures
            r == (I64Vec2 { x, y }),
    {
        I64Vec2 { x, y }
    }
}

/// `v`, or the end of the `i64` range that it lies beyond.
pub open spec fn saturated(v: int) -> int {
    if v < i64::MIN {
        i64::MIN as int
    } else if v > i64::MAX {
        i64::MAX as int
    } else {
        v
    }
}

/// An axis-aligned bounding box: the positions from `min` to `max`, both
/// included, along each axis. A box whose `min` lies beyond its `max` along
/// an axis holds nothing.
#[derive(Clone, Copy, Debug, PartialEq, Eq, Structural, Hash)]
pub struct Aabb2d {
    pub min: I64Vec2,
    pub max: I64Vec2,
}

impl Aabb2d {
    pub fn new(min: I64Vec2, max: I64Vec2) -> (r: Self)
        ensures
            r == (Aabb2d { min, max }),
    {
        Aabb2d { min, max }
    }

    /// Whether the position `(x, y)` lies in the box.
    pub open spec fn holds(self, x: int, y: int) -> bool {
        self.min.x <= x <= self.max.x && self.min.y <= y <= self.max.y
    }

    /// Whether `other` lies within this box, corner by corner.
    pub open spec fn contains_spec(self, other: Aabb2d) -> bool {
        &&& self.min.x <= other.min.x
        &&& self.min.y <= other.min.y
        &&& other.max.x <= self.max.x
        &&& other.max.y <= self.max.y
    }

    /// Whether `other` lies within this box, corner by corner.
    pub fn contains(&self, other: &Aabb2d) -> (r: bool)
        ensures
            r == self.contains_spec(*other),
    {
        self.min.x <= other.min.x && self.min.y <= other.min.y && other.max.x <= self.max.x
            && other.max.y <= self.max.y
    }

    /// Whether the two boxes overlap along both axes.
    pub open spec fn intersects_spec(self, other: Aabb2d) -> bool {
        &&& self.min.x <= other.max.x
        &&& other.min.x <= self.max.x
        &&& self.min.y <= other.max.y
        &&& other.min.y <= self.max.y
    }

    /// Whether the two boxes overlap along both axes.
    pub fn intersects(&self, other: &Aabb2d) -> (r: bool)
        ensures
            r == self.intersects_spec(*other),
    {
        self.min.x <= other.max.x && other.min.x <= self.max.x && self.min.y <= other.max.y
            && other.min.y <= self.max.y
    }

    /// The smallest box that reaches from the lesser `min` to the greater `max`.
    pub open spec fn merge_spec(self, other: Aabb2d) -> Aabb2d {
        Aabb2d {
            min: I64Vec2 {
                x: if self.min.x <= other.min.x { self.min.x } else { other.min.x },
                y: if self.min.y <= other.min.y { self.min.y } else { other.min.y },
            },
            max: I64Vec2 {
                x: if self.max.x >= other.max.x { self.max.x } else { other.max.x },
                y: if self.max.y >= other.max.y { self.max.y } else { other.max.y },
            },
        }
    }

    /// The smallest box that reaches from the lesser `min` to the greater `max`.
    pub fn merge(&self, other: &Aabb2d) -> (r: Aabb2d)
        ensures
            r == self.merge_spec(*other),
    {
        Aabb2d {
            min: I64Vec2 {
                x: if self.min.x <= other.min.x { self.min.x } else { other.min.x },
                y: if self.min.y <= other.min.y { self.min.y } else { other.min.y },
            },
            max: I64Vec2 {
                x: if self.max.x >= other.max.x { self.max.x } else { other.max.x },
                y: if self.max.y >= other.max.y { self.max.y } else { other.max.y },
            },
        }
    }

    /// The box moved by `offset`; a corner that would leave the `i64` range
    /// stops at its end.
    pub open spec fn translated_spec(self, offset: IVec2) -> Aabb2d {
        Aabb2d {
            min: I64Vec2 {
                x: saturated(self.min.x + offset.x) as i64,
                y: saturated(self.min.y + offset.y) as i64,
            },
            max: I64Vec2 {
                x: saturated(self.max.x + offset.x) as i64,
                y: saturated(self.max.y + offset.y) as i64,
            },
        }
    }

    /// The box moved by `offset`; a corner that would leave the `i64` range
    /// stops at its end.
    pub fn translated(&self, offset: IVec2) -> (r: Aabb2d)
        ensures
            r == self.translated_spec(offset),
    {
        Aabb2d {
            min: I64Vec2 {
                x: shifted(self.min.x, offset.x),
                y: shifted(self.min.y, offset.y),
            },
            max: I64Vec2 {
                x: shifted(self.max.x, offset.x),
                y: shifted(self.max.y, offset.y),
            },
        }
    }
}

/// `v + by`, stopping at the ends of the `i64` range.
fn shifted(v: i64, by: i32) -> (r: i64)
    ensures
        r == saturated(v + by),
{
    match v.checked_add(by as i64) {
        Some(sum) => sum,
        None => if by < 0 {
            i64::MIN
        } else {
            i64::MAX
        },
    }
}

/// A box that lies within a merged box lies within it whichever way round the
/// merge was made, and both merged boxes lie within the result.
pub proof fn lemma_merge_covers(a: Aabb2d, b: Aabb2d)
    ensures
        a.merge_spec(b) == b.merge_spec(a),
        a.merge_spec(b).contains_spec(a),
        a.merge_spec(b).contains_spec(b),
        forall|x: int, y: int| a.holds(x, y) || b.holds(x, y) ==> a.merge_spec(b).holds(x, y),
{
}

/// Overlap is mutual, and two boxes overlap exactly when some position lies
/// in both.
pub proof fn lemma_intersects_shares_position(a: Aabb2d, b: Aabb2d)
    ensures
        a.intersects_spec(b) == b.intersects_spec(a),
        a.intersects_spec(b) && a.min.x <= a.max.x && a.min.y <= a.max.y && b.min.x <= b.max.x
            && b.min.y <= b.max.y <==> exists|x: int, y: int| a.holds(x, y) && b.holds(x, y),
{
    if a.intersects_spec(b) && a.min.x <= a.max.x && a.min.y <= a.max.y && b.min.x <= b.max.x
        && b.min.y <= b.max.y {
        let x: int = if a.min.x <= b.min.x { b.min.x as int } else { a.min.x as int };
        let y: int = if a.min.y <= b.min.y { b.min.y as int } else { a.min.y as int };
        assert(a.holds(x, y) && b.holds(x, y));
    }
}

/// How far a shape reaches from its position: a box of half sizes
/// `half_width` and `half_height`, grown on every side by `radius`, with
/// corners rounded by that radius.
#[derive(Clone, Copy, Debug, PartialEq, Eq, Structural, Hash)]
pub struct Extent {
    pub half_width: u32,
    pub half_height: u32,
    pub radius: u32,
}

/// A convex shape without a position of its own.
pub trait Primitive2d {
    /// How far the shape reaches.
    spec fn extent_spec(&self) -> Extent;

    /// How far the shape reaches.
    fn extent(&self) -> (r: Extent)
        ensures
            r == self.extent_spec(),
    ;
}

/// A single position.
#[derive(Clone, Copy, Debug, PartialEq, Eq, Structural, Hash)]
pub struct Point;

impl Primitive2d for Point {
    open spec fn extent_spec(&self) -> Extent {
        Extent { half_width: 0, half_height: 0, radius: 0 }
    }

    fn extent(&self) -> (r: Extent) {
        Extent { half_width: 0, half_height: 0, radius: 0 }
    }
}

/// A disc: the positions at most `radius` away.
#[derive(Clone, Copy, Debug, PartialEq, Eq, Structural, Hash)]
pub struct Circle {
    pub radius: u32,
}

impl Circle {
    pub fn new(radius: u32) -> (r: Self)
        ensures
            r == (Circle { radius }),
    {
        Circle { radius }
    }
}

impl Primitive2d for Circle {
    open spec fn extent_spec(&self) -> Extent {
        Extent { half_width: 0, half_height: 0, radius: self.radius }
    }

    fn extent(&self) -> (r: Extent) {
        Extent { half_width: 0, half_height: 0, radius: self.radius }
    }
}

/// An axis-aligned rectangle that reaches `half_size` to each side.
#[derive(Clone, Copy, Debug, PartialEq, Eq, Structural, Hash)]
pub struct Rectangle {
    pub half_size: UVec2,
}

impl Rectangle {
    pub fn new(half_size: UVec2) -> (r: Self)
        ensures
            r == (Rectangle { half_size }),
    {
        Rectangle { half_size }
    }
}

impl Primitive2d for Rectangle {
    open spec fn extent_spec(&self) -> Extent {
        Extent { half_width: self.half_size.x, half_height: self.half_size.y, radius: 0 }
    }

    fn extent(&self) -> (r: Extent) {
        Extent { half_width: self.half_size.x, half_height: self.half_size.y, radius: 0 }
    }
}

/// Rectangle with rounded corners: `rect` with a quarter disc of `radius` in
/// place of each corner. A radius above a half size of `rect` counts as that
/// half size.
#[derive(Clone, Copy, Debug, PartialEq, Eq, Structural, Hash)]
pub struct RoundedRectangle {
    pub rect: Rectangle,
    pub radius: u32,
}

impl RoundedRectangle {
    /// The radius that rounds the corners: `radius`, or the lesser half size
    /// of `rect` where that is smaller.
    pub open spec fn corner_radius(self) -> u32 {
        let least = if self.rect.half_size.x <= self.rect.half_size.y {
            self.rect.half_size.x
        } else {
            self.rect.half_size.y
        };
        if self.radius <= least {
            self.radius
        } else {
            least
        }
    }
}

impl Primitive2d for RoundedRectangle {
    open spec fn extent_spec(&self) -> Extent {
        Extent {
            half_width: (self.rect.half_size.x - self.corner_radius()) as u32,
            half_height: (self.rect.half_size.y - self.corner_radius()) as u32,
            radius: self.corner_radius(),
        }
    }

    fn extent(&self) -> (r: Extent) {
        let least: u32 = if self.rect.half_size.x <= self.rect.half_size.y {
            self.rect.half_size.x
        } else {
            self.rect.half_size.y
        };
        let radius: u32 = if self.radius <= least {
            self.radius
        } else {
            least
        };
        Extent {
            half_width: self.rect.half_size.x - radius,
            half_height: self.rect.half_size.y - radius,
            radius,
        }
    }
}

/// Any of the primitive shapes.
#[derive(Clone, Copy, Debug, PartialEq, Eq, Structural, Hash)]
pub enum Shape {
    Point(Point),
    Circle(Circle),
    Rectangle(Rectangle),
    RoundedRectangle(RoundedRectangle),
}

impl Primitive2d for Shape {
    open spec fn extent_spec(&self) -> Extent {
        match *self {
            Shape::Point(s) => s.extent_spec(),
            Shape::Circle(s) => s.extent_spec(),
            Shape::Rectangle(s) => s.extent_spec(),
            Shape::RoundedRectangle(s) => s.extent_spec(),
        }
    }

    fn extent(&self) -> (r: Extent) {
        match self {
            Shape::Point(s) => s.extent(),
            Shape::Circle(s) => s.extent(),
            Shape::Rectangle(s) => s.extent(),
            Shape::RoundedRectangle(s) => s.extent(),
        }
    }
}

/// The box around a shape that reaches `extent` from the origin.
pub open spec fn extent_box(extent: Extent) -> Aabb2d {
    Aabb2d {
        min: I64Vec2 {
            x: -(extent.half_width + extent.radius) as i64,
            y: -(extent.half_height + extent.radius) as i64,
        },
        max: I64Vec2 {
            x: (extent.half_width + extent.radius) as i64,
            y: (extent.half_height + extent.radius) as i64,
        },
    }
}

/// The bounding box of a shape at the origin.
pub open spec fn aabb_of<S: Primitive2d>(shape: S) -> Aabb2d {
    extent_box(shape.extent_spec())
}

/// A value with a bounding volume of type `T` around it. For a shape, the
/// volume is the one around the shape at the origin.
pub trait Bounded<T> {
    /// The bounding volume.
    spec fn bounding_spec(&self) -> T;

    /// The bounding volume.
    fn bounding(&self) -> (r: T)
        ensures
            r == self.bounding_spec(),
    ;
}

impl<S: Primitive2d> Bounded<Aabb2d> for S {
    open spec fn bounding_spec(&self) -> Aabb2d {
        extent_box(self.extent_spec())
    }

    fn bounding(&self) -> (r: Aabb2d) {
        let extent = self.extent();
        let reach_x: i64 = extent.half_width as i64 + extent.radius as i64;
        let reach_y: i64 = extent.half_height as i64 + extent.radius as i64;
        Aabb2d {
            min: I64Vec2 { x: -reach_x, y: -reach_y },
            max: I64Vec2 { x: reach_x, y: reach_y },
        }
    }
}

/// A bounding circle: the positions at most `radius` away from `center`.
#[derive(Clone, Copy, Debug, PartialEq, Eq, Structural, Hash)]
pub struct BoundingCircle {
    pub center: IVec2,
    pub radius: u64,
}

impl BoundingCircle {
    pub fn new(center: IVec2, radius: u64) -> (r: Self)
        ensures
            r == (BoundingCircle { center, radius }),
    {
        BoundingCircle { center, radius }
    }

    /// Whether the position `(x, y)` lies in the circle.
    pub open spec fn holds(self, x: int, y: int) -> bool {
        (x - self.center.x) * (x - self.center.x) + (y - self.center.y) * (y - self.center.y)
            <= self.radius * self.radius
    }
}

/// Whether `root` is the root of `square`, taken to the next whole number:
/// the least number whose square is at least `square`.
pub open spec fn is_root_above(square: int, root: int) -> bool {
    &&& 0 <= root
    &&& square <= root * root
    &&& root > 0 ==> (root - 1) * (root - 1) < square
}

/// The root of `square`, taken to the next whole number.
pub fn root_above(square: u128) -> (r: u128)
    ensures
        is_root_above(square as int, r as int),
        r <= 0x1_0000_0000_0000_0000,
{
    if square == 0 {
        return 0;
    }
    let mut below: u128 = 0;
    let mut above: u128 = 0x1_0000_0000_0000_0000;
    while above - below > 1
        invariant
            below < above <= 0x1_0000_0000_0000_0000,
            below * below < square,
            square <= above * above,
        decreases above - below,
    {
        let middle: u128 = below + (above - below) / 2;
        proof {
            assert(middle * middle <= u128::MAX) by (nonlinear_arith)
                requires
                    0 <= middle <= 0xffff_ffff_ffff_ffff,
            ;
        }
        if middle * middle < square {
            below = middle;
        } else {
            above = middle;
        }
    }
    above
}

/// The radius of the circle around a shape that reaches `extent` from the
/// origin: the way to a corner of its box, taken to the next whole number,
/// and the radius of its rounding added.
pub open spec fn is_extent_radius(extent: Extent, radius: int) -> bool {
    is_root_above(
        extent.half_width * extent.half_width + extent.half_height * extent.half_height,
        radius - extent.radius,
    )
}

impl<S: Primitive2d> Bounded<BoundingCircle> for S {
    /// The least circle of a whole radius around the origin that holds the
    /// shape.
    open spec fn bounding_spec(&self) -> BoundingCircle {
        BoundingCircle {
            center: IVec2 { x: 0, y: 0 },
            radius: choose|radius: u64| is_extent_radius(self.extent_spec(), radius as int),
        }
    }

    fn bounding(&self) -> (r: BoundingCircle) {
        let extent = self.extent();
        let width: u128 = extent.half_width as u128;
        let height: u128 = extent.half_height as u128;
        proof {
            assert(width * width + height * height <= 0x2_0000_0000_0000_0000) by (nonlinear_arith)
                requires
                    0 <= width <= 0xffff_ffff,
                    0 <= height <= 0xffff_ffff,
            ;
        }
        let corner: u128 = root_above(width * width + height * height);
        proof {
            assert(corner <= 0x2_0000_0000) by (nonlinear_arith)
                requires
                    corner > 0 ==> (corner - 1) * (corner - 1) < 0x2_0000_0000_0000_0000,
                    0 <= corner,
            ;
        }
        let radius: u64 = corner as u64 + extent.radius as u64;
        proof {
            lemma_extent_radius_is_one(extent, radius as int);
        }
        BoundingCircle { center: IVec2 { x: 0, y: 0 }, radius }
    }
}

/// There is one radius of the circle around a shape.
pub proof fn lemma_extent_radius_is_one(extent: Extent, radius: int)
    requires
        is_extent_radius(extent, radius),
        0 <= radius <= u64::MAX,
    ensures
        (choose|other: u64| is_extent_radius(extent, other as int)) == radius,
{
    let other = choose|other: u64| is_extent_radius(extent, other as int);
    assert(is_extent_radius(extent, (radius as u64) as int));
    assert(is_extent_radius(extent, other as int));
    let square = extent.half_width * extent.half_width + extent.half_height * extent.half_height;
    lemma_root_above_is_one(square, radius - extent.radius, other - extent.radius);
}

/// A number has one root taken to the next whole number.
pub proof fn lemma_root_above_is_one(square: int, a: int, b: int)
    by (nonlinear_arith)
    requires
        is_root_above(square, a),
        is_root_above(square, b),
    ensures
        a == b,
{
    if a < b {
        assert(a <= b - 1);
        assert(a * a <= (b - 1) * (b - 1));
    }
    if b < a {
        assert(b <= a - 1);
        assert(b * b <= (a - 1) * (a - 1));
    }
}

} // verus!
