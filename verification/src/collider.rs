//! Exact overlap tests between positioned shapes.
//!
//! Every primitive is a box grown by a disc (see [`Extent`]), so two shapes
//! overlap exactly when the step from one position to the other ends within
//! the box that has the two half sizes added, grown by the two radii added.

use crate::bounded::{
    is_extent_radius, is_root_above, Aabb2d, Bounded, BoundingCircle, Circle, Extent, IVec2, Point,
    Primitive2d, Rectangle,
};
use vstd::prelude::*;

verus! {

/// How far `d` lies beyond the stretch from `-reach` to `reach`; zero within it.
pub open spec fn axis_gap(d: int, reach: int) -> int {
    if d > reach {
        d - reach
    } else if -d > reach {
        -d - reach
    } else {
        0
    }
}

/// Whether the step `(dx, dy)` ends within the box of half sizes `half_width`
/// and `half_height` grown by `radius`: whether the end of the step is at
/// most `radius` away from the box.
pub open spec fn reaches(dx: int, dy: int, half_width: int, half_height: int, radius: int) -> bool {
    axis_gap(dx, half_width) * axis_gap(dx, half_width) + axis_gap(dy, half_height) * axis_gap(
        dy,
        half_height,
    ) <= radius * radius
}

/// Whether shapes of the extents `a` and `b`, placed at `a_position` and
/// `b_position`, overlap.
pub open spec fn extents_overlap(a: Extent, a_position: IVec2, b: Extent, b_position: IVec2) -> bool {
    reaches(
        a_position.x - b_position.x,
        a_position.y - b_position.y,
        a.half_width + b.half_width,
        a.half_height + b.half_height,
        a.radius + b.radius,
    )
}

proof fn lemma_square_bound(v: int, bound: int)
    by (nonlinear_arith)
    requires
        0 <= v <= bound,
    ensures
        0 <= v * v <= bound * bound,
{
}

/// How far `d` lies beyond the stretch from `-reach` to `reach`.
fn gap_along(d: i64, reach: u64) -> (r: u64)
    requires
        -0x1_0000_0000 <= d <= 0x1_0000_0000,
        reach <= 0x2_0000_0000,
    ensures
        r == axis_gap(d as int, reach as int),
        r <= 0x1_0000_0000,
{
    let distance: u64 = if d < 0 {
        (-d) as u64
    } else {
        d as u64
    };
    if distance > reach {
        distance - reach
    } else {
        0
    }
}

/// Trait allows `Self` to perform collisions with `T`
pub trait ColliderInteraction<T> {
    /// Whether `self` at `self_position` overlaps `other` at `other_position`.
    spec fn intersect_spec(&self, self_position: IVec2, other: &T, other_position: IVec2) -> bool;

    /// Returns true if `self` intersects with `other`
    fn intersect(&self, self_position: IVec2, other: &T, other_position: IVec2) -> (r: bool)
        ensures
            r == self.intersect_spec(self_position, other, other_position),
    ;
}

impl<S: Primitive2d, T: Primitive2d> ColliderInteraction<T> for S {
    open spec fn intersect_spec(&self, self_position: IVec2, other: &T, other_position: IVec2) -> bool {
        extents_overlap(self.extent_spec(), self_position, other.extent_spec(), other_position)
    }

    fn intersect(&self, self_position: IVec2, other: &T, other_position: IVec2) -> (r: bool) {
        let a = self.extent();
        let b = other.extent();
        let dx: i64 = self_position.x as i64 - other_position.x as i64;
        let dy: i64 = self_position.y as i64 - other_position.y as i64;
        let gap_x: u64 = gap_along(dx, a.half_width as u64 + b.half_width as u64);
        let gap_y: u64 = gap_along(dy, a.half_height as u64 + b.half_height as u64);
        let radius: u64 = a.radius as u64 + b.radius as u64;
        proof {
            lemma_square_bound(gap_x as int, 0x1_0000_0000);
            lemma_square_bound(gap_y as int, 0x1_0000_0000);
            lemma_square_bound(radius as int, 0x2_0000_0000);
        }
        (gap_x as u128) * (gap_x as u128) + (gap_y as u128) * (gap_y as u128) <= (radius as u128) * (
        radius as u128)
    }
}

/// A shape together with the position at which it stands.
#[derive(Debug)]
pub struct Collider<'a, S> {
    pub shape: &'a S,
    pub position: IVec2,
}

impl<'a, S> Clone for Collider<'a, S> {
    fn clone(&self) -> (r: Self)
        ensures
            r == *self,
    {
        Self { shape: self.shape, position: self.position }
    }
}

impl<'a, S> Copy for Collider<'a, S> {

}

impl<'a, S> Collider<'a, S> {
    pub fn new(shape: &'a S, position: IVec2) -> (r: Self)
        ensures
            r.shape == shape,
            r.position == position,
    {
        Self { shape, position }
    }

    /// Whether the two colliders overlap where they stand.
    pub fn intersect<O>(&self, other: Collider<'a, O>) -> (r: bool) where S: ColliderInteraction<O>
        ensures
            r == self.shape.intersect_spec(self.position, other.shape, other.position),
    {
        self.shape.intersect(self.position, other.shape, other.position)
    }
}

impl<'a, S: Bounded<Aabb2d>> Bounded<Aabb2d> for Collider<'a, S> {
    /// The box around the shape, moved to the collider's position.
    open spec fn bounding_spec(&self) -> Aabb2d {
        self.shape.bounding_spec().translated_spec(self.position)
    }

    fn bounding(&self) -> (r: Aabb2d) {
        self.shape.bounding().translated(self.position)
    }
}

/// The overlap of two shapes does not depend on which of them asks.
pub proof fn lemma_intersect_symmetric<S: Primitive2d, T: Primitive2d>(
    a: S,
    a_position: IVec2,
    b: T,
    b_position: IVec2,
)
    ensures
        a.intersect_spec(a_position, &b, b_position) == b.intersect_spec(b_position, &a, a_position),
{
    let dx = a_position.x - b_position.x;
    let dy = a_position.y - b_position.y;
    let w = a.extent_spec().half_width + b.extent_spec().half_width;
    let h = a.extent_spec().half_height + b.extent_spec().half_height;
    assert(axis_gap(dx, w) == axis_gap(-dx, w));
    assert(axis_gap(dy, h) == axis_gap(-dy, h));
}

/// A shape lies within its bounding box: every position that a shape at
/// `position` shares with a point lies in the shape's box moved to `position`,
/// and no corner of that box stops at an end of the `i64` range.
pub proof fn lemma_bounding_holds_shape<S: Primitive2d>(shape: S, position: IVec2, at: IVec2)
    requires
        shape.intersect_spec(position, &Point, at),
    ensures
        (Collider { shape: &shape, position }).bounding_spec().holds(at.x as int, at.y as int),
        (Collider { shape: &shape, position }).bounding_spec().min.x == position.x - (
        shape.extent_spec().half_width + shape.extent_spec().radius),
        (Collider { shape: &shape, position }).bounding_spec().max.y == position.y + (
        shape.extent_spec().half_height + shape.extent_spec().radius),
{
    let e = shape.extent_spec();
    lemma_gap_within_radius(
        position.x - at.x,
        position.y - at.y,
        e.half_width as int,
        e.half_height as int,
        e.radius as int,
    );
}

/// A shape lies within its bounding circle: every position that a shape at
/// `position` shares with a point is at most the radius of the shape's
/// circle away from `position`.
pub proof fn lemma_bounding_circle_holds_shape<S: Primitive2d>(shape: S, position: IVec2, at: IVec2)
    requires
        shape.intersect_spec(position, &Point, at),
    ensures
        (BoundingCircle {
            center: position,
            radius: Bounded::<BoundingCircle>::bounding_spec(&shape).radius,
        }).holds(at.x as int, at.y as int),
{
    let e = shape.extent_spec();
    let radius = Bounded::<BoundingCircle>::bounding_spec(&shape).radius as int;
    let (w, h, r) = (e.half_width as int, e.half_height as int, e.radius as int);
    assert(is_extent_radius(e, radius)) by {
        lemma_extent_has_a_radius(e);
    }
    let corner = radius - r;
    let dx = position.x - at.x;
    let dy = position.y - at.y;
    let gx = axis_gap(dx, w);
    let gy = axis_gap(dy, h);
    assert(gx * gx + gy * gy <= r * r);
    assert(is_root_above(w * w + h * h, corner));
    lemma_within_the_corner_and_rounding(dx, dy, w, h, r, gx, gy, corner);
    assert((at.x - position.x) * (at.x - position.x) == dx * dx) by (nonlinear_arith)
        requires
            dx == position.x - at.x,
    ;
    assert((at.y - position.y) * (at.y - position.y) == dy * dy) by (nonlinear_arith)
        requires
            dy == position.y - at.y,
    ;
}

/// Every extent has a radius for the circle around it.
proof fn lemma_extent_has_a_radius(extent: Extent)
    ensures
        is_extent_radius(extent, (choose|radius: u64| is_extent_radius(extent, radius as int)) as int),
{
    let square = extent.half_width * extent.half_width + extent.half_height * extent.half_height;
    assert(0 <= square <= 0x2_0000_0000_0000_0000) by (nonlinear_arith)
        requires
            square == extent.half_width * extent.half_width + extent.half_height
                * extent.half_height,
            0 <= extent.half_width <= 0xffff_ffff,
            0 <= extent.half_height <= 0xffff_ffff,
    ;
    let root = lemma_root_exists(square, 0x2_0000_0000);
    let radius = (root + extent.radius) as u64;
    assert(is_extent_radius(extent, radius as int));
}

/// A number that is at most a square has a root taken to the next whole
/// number, at most the root of that square.
proof fn lemma_root_exists(square: int, bound: int) -> (root: int)
    requires
        0 <= square <= bound * bound,
        0 <= bound,
    ensures
        is_root_above(square, root),
        0 <= root <= bound,
    decreases bound,
{
    if bound == 0 {
        assert(square == 0) by (nonlinear_arith)
            requires
                0 <= square <= bound * bound,
                bound == 0,
        ;
        0
    } else if (bound - 1) * (bound - 1) < square {
        bound
    } else {
        lemma_root_exists(square, bound - 1)
    }
}

/// A step that ends within a box grown by a disc is no longer than the way
/// to a corner of the box and the radius of the disc added.
proof fn lemma_within_the_corner_and_rounding(
    dx: int,
    dy: int,
    w: int,
    h: int,
    r: int,
    gx: int,
    gy: int,
    corner: int,
)
    requires
        0 <= w,
        0 <= h,
        0 <= r,
        0 <= corner,
        gx == axis_gap(dx, w),
        gy == axis_gap(dy, h),
        gx * gx + gy * gy <= r * r,
        w * w + h * h <= corner * corner,
    ensures
        dx * dx + dy * dy <= (corner + r) * (corner + r),
{
    let cross = w * gx + h * gy;
    assert(0 <= gx && 0 <= gy);
    assert(dx * dx <= (w + gx) * (w + gx)) by (nonlinear_arith)
        requires
            -(w + gx) <= dx <= w + gx,
    ;
    assert(dy * dy <= (h + gy) * (h + gy)) by (nonlinear_arith)
        requires
            -(h + gy) <= dy <= h + gy,
    ;
    assert(cross * cross + (w * gy - h * gx) * (w * gy - h * gx) == (w * w + h * h) * (gx * gx + gy
        * gy)) by {
        let (a, b, c, d) = (w * gx, h * gy, w * gy, h * gx);
        assert(a * b == c * d) by (nonlinear_arith)
            requires
                a == w * gx,
                b == h * gy,
                c == w * gy,
                d == h * gx,
        ;
        assert(a * a == (w * w) * (gx * gx) && b * b == (h * h) * (gy * gy)) by (nonlinear_arith)
            requires
                a == w * gx,
                b == h * gy,
        ;
        assert(c * c == (w * w) * (gy * gy) && d * d == (h * h) * (gx * gx)) by (nonlinear_arith)
            requires
                c == w * gy,
                d == h * gx,
        ;
        assert((a + b) * (a + b) == a * a + 2 * (a * b) + b * b) by (nonlinear_arith);
        assert((c - d) * (c - d) == c * c - 2 * (c * d) + d * d) by (nonlinear_arith);
        assert((w * w + h * h) * (gx * gx + gy * gy) == (w * w) * (gx * gx) + (w * w) * (gy * gy)
            + (h * h) * (gx * gx) + (h * h) * (gy * gy)) by (nonlinear_arith);
    }
    assert(cross * cross <= (w * w + h * h) * (gx * gx + gy * gy)) by (nonlinear_arith)
        requires
            cross * cross + (w * gy - h * gx) * (w * gy - h * gx) == (w * w + h * h) * (gx * gx
                + gy * gy),
    ;
    assert((w * w + h * h) * (gx * gx + gy * gy) <= (corner * corner) * (r * r)) by (nonlinear_arith)
        requires
            0 <= w * w + h * h <= corner * corner,
            0 <= gx * gx + gy * gy <= r * r,
    ;
    assert(cross <= corner * r) by (nonlinear_arith)
        requires
            cross * cross <= (corner * corner) * (r * r),
            0 <= corner,
            0 <= r,
    {
        if cross > corner * r {
            assert(cross * cross > (corner * r) * (corner * r));
            assert((corner * r) * (corner * r) == (corner * corner) * (r * r));
        }
    }
    assert((w + gx) * (w + gx) + (h + gy) * (h + gy) == (w * w + h * h) + 2 * cross + (gx * gx + gy
        * gy)) by (nonlinear_arith)
        requires
            cross == w * gx + h * gy,
    ;
    assert((corner + r) * (corner + r) == corner * corner + 2 * (corner * r) + r * r)
        by (nonlinear_arith);
}

/// Shapes that overlap have bounding boxes that overlap.
pub proof fn lemma_overlap_within_boundings<S: Primitive2d, T: Primitive2d>(
    a: S,
    a_position: IVec2,
    b: T,
    b_position: IVec2,
)
    requires
        a.intersect_spec(a_position, &b, b_position),
    ensures
        (Collider { shape: &a, position: a_position }).bounding_spec().intersects_spec(
            (Collider { shape: &b, position: b_position }).bounding_spec(),
        ),
{
    let ea = a.extent_spec();
    let eb = b.extent_spec();
    lemma_gap_within_radius(
        a_position.x - b_position.x,
        a_position.y - b_position.y,
        ea.half_width + eb.half_width,
        ea.half_height + eb.half_height,
        ea.radius + eb.radius,
    );
}

/// A step that ends within a grown box lies, along each axis, within the half
/// size and the radius added.
proof fn lemma_gap_within_radius(dx: int, dy: int, half_width: int, half_height: int, radius: int)
    by (nonlinear_arith)
    requires
        reaches(dx, dy, half_width, half_height, radius),
        0 <= half_width,
        0 <= half_height,
        0 <= radius,
    ensures
        -(half_width + radius) <= dx <= half_width + radius,
        -(half_height + radius) <= dy <= half_height + radius,
{
    let gx = axis_gap(dx, half_width);
    let gy = axis_gap(dy, half_height);
    assert(gx >= 0 && gy >= 0);
    assert(gx * gx <= radius * radius);
    assert(gy * gy <= radius * radius);
    if gx > radius {
        assert(gx * gx > radius * radius);
    }
    if gy > radius {
        assert(gy * gy > radius * radius);
    }
}

/// Two points overlap exactly where they stand at one position.
pub proof fn lemma_point_point(a_position: IVec2, b_position: IVec2)
    ensures
        Point.intersect_spec(a_position, &Point, b_position) == (a_position == b_position),
{
    let dx = a_position.x - b_position.x;
    let dy = a_position.y - b_position.y;
    let gx = axis_gap(dx, 0);
    let gy = axis_gap(dy, 0);
    assert(gx * gx + gy * gy <= 0 <==> gx == 0 && gy == 0) by (nonlinear_arith)
        requires
            gx >= 0,
            gy >= 0,
    ;
    assert(Point.intersect_spec(a_position, &Point, b_position) == (gx * gx + gy * gy <= 0 * 0));
}

/// A point overlaps a rectangle exactly where it lies within the half sizes
/// along both axes.
pub proof fn lemma_point_rectangle(a_position: IVec2, b: Rectangle, b_position: IVec2)
    ensures
        Point.intersect_spec(a_position, &b, b_position) <==> {
            &&& b_position.x - b.half_size.x <= a_position.x <= b_position.x + b.half_size.x
            &&& b_position.y - b.half_size.y <= a_position.y <= b_position.y + b.half_size.y
        },
{
    let gx = axis_gap(a_position.x - b_position.x, b.half_size.x as int);
    let gy = axis_gap(a_position.y - b_position.y, b.half_size.y as int);
    assert(gx * gx + gy * gy <= 0 <==> gx == 0 && gy == 0) by (nonlinear_arith)
        requires
            gx >= 0,
            gy >= 0,
    ;
    assert(Point.intersect_spec(a_position, &b, b_position) == (gx * gx + gy * gy <= 0 * 0));
}

/// Two rectangles overlap exactly where, along both axes, their positions
/// differ by at most their half sizes added: where the position of the one
/// lies in the other grown by the half sizes of the first.
pub proof fn lemma_rectangle_rectangle(a: Rectangle, a_position: IVec2, b: Rectangle, b_position: IVec2)
    ensures
        a.intersect_spec(a_position, &b, b_position) <==> {
            &&& -(a.half_size.x + b.half_size.x) <= a_position.x - b_position.x <= a.half_size.x
                + b.half_size.x
            &&& -(a.half_size.y + b.half_size.y) <= a_position.y - b_position.y <= a.half_size.y
                + b.half_size.y
        },
{
    let gx = axis_gap(a_position.x - b_position.x, a.half_size.x + b.half_size.x);
    let gy = axis_gap(a_position.y - b_position.y, a.half_size.y + b.half_size.y);
    assert(gx * gx + gy * gy <= 0 <==> gx == 0 && gy == 0) by (nonlinear_arith)
        requires
            gx >= 0,
            gy >= 0,
    ;
    assert(a.intersect_spec(a_position, &b, b_position) == (gx * gx + gy * gy <= 0 * 0));
}

/// Two circles overlap exactly where the squared distance of their centres is
/// at most the square of their radii added.
pub proof fn lemma_circle_circle(a: Circle, a_position: IVec2, b: Circle, b_position: IVec2)
    ensures
        a.intersect_spec(a_position, &b, b_position) <==> {
            let dx = a_position.x - b_position.x;
            let dy = a_position.y - b_position.y;
            dx * dx + dy * dy <= (a.radius + b.radius) * (a.radius + b.radius)
        },
{
    let dx = a_position.x - b_position.x;
    let dy = a_position.y - b_position.y;
    assert(axis_gap(dx, 0) * axis_gap(dx, 0) == dx * dx) by (nonlinear_arith)
        requires
            axis_gap(dx, 0) == dx || axis_gap(dx, 0) == -dx,
    ;
    assert(axis_gap(dy, 0) * axis_gap(dy, 0) == dy * dy) by (nonlinear_arith)
        requires
            axis_gap(dy, 0) == dy || axis_gap(dy, 0) == -dy,
    ;
}

/// A circle overlaps a rectangle exactly where its centre is at most its
/// radius away from the rectangle.
pub proof fn lemma_circle_rectangle(a: Circle, a_position: IVec2, b: Rectangle, b_position: IVec2)
    ensures
        a.intersect_spec(a_position, &b, b_position) == reaches(
            a_position.x - b_position.x,
            a_position.y - b_position.y,
            b.half_size.x as int,
            b.half_size.y as int,
            a.radius as int,
        ),
{
}

} // verus!
