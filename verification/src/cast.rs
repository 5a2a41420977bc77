//! Exact sweeps between shapes without rounded parts: where on its way a
//! moving shape first meets another.
//!
//! A sweep moves a shape from its position by a whole offset. The time at
//! which it meets the other shape is a part of that way, between nothing of
//! it and all of it, and is kept as an exact ratio.

use crate::bounded::{Extent, IVec2, Point, Primitive2d, Rectangle};
use crate::collider::{extents_overlap, Collider};
use vstd::prelude::*;

verus! {

/// A part of a way: `numerator` of `denominator` equal parts.
#[derive(Clone, Copy, Debug, PartialEq, Eq, Structural, Hash)]
pub struct Ratio {
    pub numerator: u64,
    pub denominator: u64,
}

/// The side of a shape that a moving shape meets, by the direction in which
/// the side faces.
#[derive(Clone, Copy, Debug, PartialEq, Eq, Structural, Hash)]
pub enum Normal {
    /// Towards greater `x`.
    X,
    /// Towards lesser `x`.
    NegX,
    /// Towards greater `y`.
    Y,
    /// Towards lesser `y`.
    NegY,
    /// Against the movement: the shapes met before the movement began.
    Back,
}

impl Normal {
    /// The normal that faces the other way; a normal against a movement is
    /// one against the opposite movement too.
    pub open spec fn flipped(self) -> Normal {
        match self {
            Normal::X => Normal::NegX,
            Normal::NegX => Normal::X,
            Normal::Y => Normal::NegY,
            Normal::NegY => Normal::Y,
            Normal::Back => Normal::Back,
        }
    }

    /// The normal that faces the other way.
    pub fn flip(self) -> (r: Normal)
        ensures
            r == self.flipped(),
    {
        match self {
            Normal::X => Normal::NegX,
            Normal::NegX => Normal::X,
            Normal::Y => Normal::NegY,
            Normal::NegY => Normal::Y,
            Normal::Back => Normal::Back,
        }
    }
}

/// Whether a position that starts `q` from the middle of a stretch of half
/// length `reach` and moves by `v` lies within the stretch when `n` of `d`
/// parts of the movement are done.
pub open spec fn axis_meets(q: int, v: int, reach: int, n: int, d: int) -> bool {
    -(reach * d) <= q * d + n * v <= reach * d
}

/// Whether such a position lies, at that time, on the end of the stretch
/// that it moves towards from outside.
pub open spec fn on_near_end(q: int, v: int, reach: int, n: int, d: int) -> bool {
    (v > 0 && q * d + n * v == -(reach * d)) || (v < 0 && q * d + n * v == reach * d)
}

/// Whether shapes of the extents `a` and `b`, neither with rounded parts,
/// overlap when the first has moved `n` of `d` parts of the way `offset`
/// from `a_position`, and the second stands at `b_position`.
pub open spec fn meets_at(
    a: Extent,
    a_position: IVec2,
    b: Extent,
    b_position: IVec2,
    offset: IVec2,
    n: int,
    d: int,
) -> bool {
    &&& d > 0
    &&& 0 <= n <= d
    &&& axis_meets(
        a_position.x - b_position.x,
        offset.x as int,
        a.half_width + b.half_width,
        n,
        d,
    )
    &&& axis_meets(
        a_position.y - b_position.y,
        offset.y as int,
        a.half_height + b.half_height,
        n,
        d,
    )
}

/// The side that the moving shape is on at the time `n / d` of its way: the
/// side across `x` that it moves towards, if it is on that; else the side
/// across `y` that it moves towards, if it is on that; else none.
pub open spec fn normal_at(
    a: Extent,
    a_position: IVec2,
    b: Extent,
    b_position: IVec2,
    offset: IVec2,
    n: int,
    d: int,
) -> Normal {
    if on_near_end(a_position.x - b_position.x, offset.x as int, a.half_width + b.half_width, n, d) {
        if offset.x > 0 {
            Normal::NegX
        } else {
            Normal::X
        }
    } else if on_near_end(
        a_position.y - b_position.y,
        offset.y as int,
        a.half_height + b.half_height,
        n,
        d,
    ) {
        if offset.y > 0 {
            Normal::NegY
        } else {
            Normal::Y
        }
    } else {
        Normal::Back
    }
}

/// Whether `hit` is what a sweep finds: nothing where the shapes never
/// overlap on the way; else the earliest time at which they do, and the side
/// that the moving shape is on then.
pub open spec fn is_first_contact(
    a: Extent,
    a_position: IVec2,
    b: Extent,
    b_position: IVec2,
    offset: IVec2,
    hit: Option<(Ratio, Normal)>,
) -> bool {
    match hit {
        None => forall|n: int, d: int| !meets_at(a, a_position, b, b_position, offset, n, d),
        Some((time, normal)) => {
            &&& meets_at(
                a,
                a_position,
                b,
                b_position,
                offset,
                time.numerator as int,
                time.denominator as int,
            )
            &&& forall|n: int, d: int| #[trigger]
                meets_at(a, a_position, b, b_position, offset, n, d) ==> time.numerator * d <= n
                    * time.denominator
            &&& normal == normal_at(
                a,
                a_position,
                b,
                b_position,
                offset,
                time.numerator as int,
                time.denominator as int,
            )
        },
    }
}

/// A shape without rounded parts: a point or a box.
pub trait BoxShaped: Primitive2d {
    /// The shape reaches no further than its half sizes.
    proof fn lemma_no_radius(&self)
        ensures
            self.extent_spec().radius == 0,
    ;
}

impl BoxShaped for Point {
    proof fn lemma_no_radius(&self) {
    }
}

impl BoxShaped for Rectangle {
    proof fn lemma_no_radius(&self) {
    }
}

/// The times at which a position lies within a stretch, along one axis: from
/// `enter / over` to `exit / over` of the way. `bounds` says whether the
/// position moves along the axis at all; where it does not and lies within
/// the stretch, the times are all the way.
struct Span {
    enter: i64,
    exit: i64,
    over: i64,
    bounds: bool,
}

/// When a position that starts `q` from the middle of a stretch of half
/// length `reach` and moves by `v` lies within the stretch; `None` where it
/// never does.
fn axis_span(q: i64, v: i32, reach: u64) -> (r: Option<Span>)
    requires
        -0x1_0000_0000 <= q <= 0x1_0000_0000,
        reach <= 0x2_0000_0000,
    ensures
        r is None ==> forall|n: int, d: int|
            d > 0 && 0 <= n <= d ==> !#[trigger] axis_meets(q as int, v as int, reach as int, n, d),
        r matches Some(span) ==> {
            &&& 0 < span.over <= 0x8000_0000
            &&& -0x3_0000_0000 <= span.enter <= 0x3_0000_0000
            &&& -0x3_0000_0000 <= span.exit <= 0x3_0000_0000
            &&& span.bounds == (v != 0)
            &&& forall|n: int, d: int|
                d > 0 && 0 <= n <= d ==> (#[trigger] axis_meets(
                    q as int,
                    v as int,
                    reach as int,
                    n,
                    d,
                ) <==> span.enter * d <= n * span.over && n * span.over <= span.exit * d)
            &&& forall|n: int, d: int|
                d > 0 && span.bounds ==> (#[trigger] on_near_end(
                    q as int,
                    v as int,
                    reach as int,
                    n,
                    d,
                ) <==> n * span.over == span.enter * d)
        },
{
    let reach: i64 = reach as i64;
    if v > 0 {
        let span = Span { enter: -reach - q, exit: reach - q, over: v as i64, bounds: true };
        proof {
            assert forall|n: int, d: int| d > 0 implies (#[trigger] axis_meets(
                q as int,
                v as int,
                reach as int,
                n,
                d,
            ) <==> span.enter * d <= n * span.over && n * span.over <= span.exit * d) by {
                lemma_shifted_products(q as int, reach as int, d);
            }
            assert forall|n: int, d: int| d > 0 implies (#[trigger] on_near_end(
                q as int,
                v as int,
                reach as int,
                n,
                d,
            ) <==> n * span.over == span.enter * d) by {
                lemma_shifted_products(q as int, reach as int, d);
            }
        }
        Some(span)
    } else if v < 0 {
        let span = Span { enter: q - reach, exit: q + reach, over: -(v as i64), bounds: true };
        proof {
            assert forall|n: int, d: int| d > 0 implies (#[trigger] axis_meets(
                q as int,
                v as int,
                reach as int,
                n,
                d,
            ) <==> span.enter * d <= n * span.over && n * span.over <= span.exit * d) by {
                lemma_shifted_products(q as int, reach as int, d);
                assert(n * span.over == -(n * v)) by (nonlinear_arith)
                    requires
                        span.over == -v,
                ;
            }
            assert forall|n: int, d: int| d > 0 implies (#[trigger] on_near_end(
                q as int,
                v as int,
                reach as int,
                n,
                d,
            ) <==> n * span.over == span.enter * d) by {
                lemma_shifted_products(q as int, reach as int, d);
                assert(n * span.over == -(n * v)) by (nonlinear_arith)
                    requires
                        span.over == -v,
                ;
            }
        }
        Some(span)
    } else if -reach <= q && q <= reach {
        proof {
            assert forall|n: int, d: int| d > 0 && 0 <= n <= d implies (#[trigger] axis_meets(
                q as int,
                v as int,
                reach as int,
                n,
                d,
            ) <==> 0 * d <= n * 1 && n * 1 <= 1 * d) by {
                assert(n * 0 == 0);
                assert(-(reach * d) <= q * d <= reach * d) by (nonlinear_arith)
                    requires
                        -reach <= q <= reach,
                        d > 0,
                ;
            }
        }
        Some(Span { enter: 0, exit: 1, over: 1, bounds: false })
    } else {
        proof {
            assert forall|n: int, d: int| d > 0 && 0 <= n <= d implies !#[trigger] axis_meets(
                q as int,
                v as int,
                reach as int,
                n,
                d,
            ) by {
                assert(n * 0 == 0);
                assert(q * d < -(reach * d) || q * d > reach * d) by (nonlinear_arith)
                    requires
                        q < -reach || q > reach,
                        d > 0,
                ;
            }
        }
        None
    }
}

/// Products with a sum or a difference, written out.
proof fn lemma_shifted_products(q: int, reach: int, d: int)
    by (nonlinear_arith)
    ensures
        (-reach - q) * d == -(reach * d) - q * d,
        (reach - q) * d == reach * d - q * d,
        (q - reach) * d == q * d - reach * d,
        (q + reach) * d == q * d + reach * d,
{
}

/// `a * b`, which fits.
fn cross(a: i64, b: i64) -> (r: i128)
    requires
        -0x3_0000_0000 <= a <= 0x3_0000_0000,
        -0x3_0000_0000 <= b <= 0x3_0000_0000,
    ensures
        r == a * b,
{
    proof {
        assert(-0x9_0000_0000_0000_0000 <= a * b <= 0x9_0000_0000_0000_0000) by (nonlinear_arith)
            requires
                -0x3_0000_0000 <= a <= 0x3_0000_0000,
                -0x3_0000_0000 <= b <= 0x3_0000_0000,
        ;
    }
    (a as i128) * (b as i128)
}

/// The order of ratios with positive denominators carries over a ratio in
/// between.
proof fn lemma_ratios_in_a_row(a: int, b: int, c: int, d: int, e: int, f: int)
    by (nonlinear_arith)
    requires
        b > 0,
        d > 0,
        f > 0,
        a * d <= c * b,
        c * f <= e * d,
    ensures
        a * f <= e * b,
{
    assert(a * d * f <= c * b * f);
    assert(c * f * b <= e * d * b);
    assert((a * f) * d <= (e * b) * d);
}

/// Sweeps the first extent from `a_position` by `offset` against the second
/// at `b_position`, by the slab method: along each axis the times between
/// which the extents overlap; the hit is at the later of the two entries, if
/// that comes before both exits and within the way.
fn cast_extents(a: Extent, a_position: IVec2, b: Extent, b_position: IVec2, offset: IVec2) -> (r: Option<
    (Ratio, Normal),
>)
    requires
        a.radius == 0,
        b.radius == 0,
    ensures
        is_first_contact(a, a_position, b, b_position, offset, r),
{
    let qx: i64 = a_position.x as i64 - b_position.x as i64;
    let qy: i64 = a_position.y as i64 - b_position.y as i64;
    let reach_x: u64 = a.half_width as u64 + b.half_width as u64;
    let reach_y: u64 = a.half_height as u64 + b.half_height as u64;
    let span_x = match axis_span(qx, offset.x, reach_x) {
        Some(span) => span,
        None => {
            return None;
        },
    };
    let span_y = match axis_span(qy, offset.y, reach_y) {
        Some(span) => span,
        None => {
            return None;
        },
    };
    let x_after_y = cross(span_x.enter, span_y.over) >= cross(span_y.enter, span_x.over);
    let (tmin, over, normal) = if x_after_y && span_x.enter >= 0 {
        (
            span_x.enter,
            span_x.over,
            if span_x.bounds {
                if offset.x > 0 {
                    Normal::NegX
                } else {
                    Normal::X
                }
            } else if span_y.bounds && cross(span_x.enter, span_y.over) == cross(
                span_y.enter,
                span_x.over,
            ) {
                if offset.y > 0 {
                    Normal::NegY
                } else {
                    Normal::Y
                }
            } else {
                Normal::Back
            },
        )
    } else if !x_after_y && span_y.enter >= 0 {
        (
            span_y.enter,
            span_y.over,
            if span_y.bounds {
                if offset.y > 0 {
                    Normal::NegY
                } else {
                    Normal::Y
                }
            } else {
                Normal::Back
            },
        )
    } else {
        (
            0,
            1,
            if span_x.bounds && span_x.enter == 0 {
                if offset.x > 0 {
                    Normal::NegX
                } else {
                    Normal::X
                }
            } else if span_y.bounds && span_y.enter == 0 {
                if offset.y > 0 {
                    Normal::NegY
                } else {
                    Normal::Y
                }
            } else {
                Normal::Back
            },
        )
    };
    let hit = cross(tmin, span_x.over) <= cross(span_x.exit, over) && cross(tmin, span_y.over)
        <= cross(span_y.exit, over) && tmin <= over;
    proof {
        let n = tmin as int;
        let d = over as int;
        assert(d > 0 && n >= 0);
        assert(span_x.enter * d <= n * span_x.over && span_y.enter * d <= n * span_y.over) by {
            lemma_entries_come_first(
                span_x.enter as int,
                span_x.over as int,
                span_y.enter as int,
                span_y.over as int,
                n,
                d,
            );
        }
        if hit {
            assert(meets_at(a, a_position, b, b_position, offset, n, d));
            assert forall|m: int, e: int| #[trigger]
                meets_at(a, a_position, b, b_position, offset, m, e) implies n * e <= m * d by {
                assert(axis_meets(qx as int, offset.x as int, reach_x as int, m, e));
                assert(axis_meets(qy as int, offset.y as int, reach_y as int, m, e));
                assert(0 * e <= m * 1) by (nonlinear_arith)
                    requires
                        0 <= m,
                ;
            }
            assert(on_near_end(qx as int, offset.x as int, reach_x as int, n, d) <==> span_x.bounds
                && n * span_x.over == span_x.enter * d);
            assert(on_near_end(qy as int, offset.y as int, reach_y as int, n, d) <==> span_y.bounds
                && n * span_y.over == span_y.enter * d);
            assert(tmin == 0 && over == 1 ==> (n * span_x.over == span_x.enter * d <==> span_x.enter
                == 0) && (n * span_y.over == span_y.enter * d <==> span_y.enter == 0))
                by (nonlinear_arith)
                requires
                    n == tmin,
                    d == over,
            ;
            assert(normal == normal_at(a, a_position, b, b_position, offset, n, d));
        } else {
            assert forall|m: int, e: int| !meets_at(a, a_position, b, b_position, offset, m, e) by {
                if meets_at(a, a_position, b, b_position, offset, m, e) {
                    assert(axis_meets(qx as int, offset.x as int, reach_x as int, m, e));
                    assert(axis_meets(qy as int, offset.y as int, reach_y as int, m, e));
                    lemma_comes_no_later(
                        span_x.enter as int,
                        span_x.over as int,
                        span_y.enter as int,
                        span_y.over as int,
                        n,
                        d,
                        m,
                        e,
                    );
                    lemma_ratios_in_a_row(n, d, m, e, span_x.exit as int, span_x.over as int);
                    lemma_ratios_in_a_row(n, d, m, e, span_y.exit as int, span_y.over as int);
                    lemma_ratios_in_a_row(n, d, m, e, 1, 1);
                }
            }
        }
    }
    if hit {
        Some((Ratio { numerator: tmin as u64, denominator: over as u64 }, normal))
    } else {
        None
    }
}

/// The later of two entries, or the start where both lie before it, comes no
/// earlier than either entry.
proof fn lemma_entries_come_first(
    enter_x: int,
    over_x: int,
    enter_y: int,
    over_y: int,
    n: int,
    d: int,
)
    by (nonlinear_arith)
    requires
        over_x > 0,
        over_y > 0,
        ({
            let x_after_y = enter_x * over_y >= enter_y * over_x;
            if x_after_y && enter_x >= 0 {
                n == enter_x && d == over_x
            } else if !x_after_y && enter_y >= 0 {
                n == enter_y && d == over_y
            } else {
                n == 0 && d == 1
            }
        }),
    ensures
        enter_x * d <= n * over_x,
        enter_y * d <= n * over_y,
{
}

/// The later of two entries, or the start where both lie before it, comes no
/// later than any time that comes after both entries and the start.
proof fn lemma_comes_no_later(
    enter_x: int,
    over_x: int,
    enter_y: int,
    over_y: int,
    n: int,
    d: int,
    m: int,
    e: int,
)
    by (nonlinear_arith)
    requires
        over_x > 0,
        over_y > 0,
        e > 0,
        0 <= m,
        enter_x * e <= m * over_x,
        enter_y * e <= m * over_y,
        (n == enter_x && d == over_x) || (n == enter_y && d == over_y) || (n == 0 && d == 1),
    ensures
        n * e <= m * d,
{
}

/// Trait allows `Self` to be swept against `T`.
pub trait ColliderCast<T> {
    /// Whether `hit` is what the sweep of `self` from `self_position` by
    /// `offset` finds of `other` at `other_position`.
    spec fn is_cast(
        &self,
        self_position: IVec2,
        other: &T,
        other_position: IVec2,
        offset: IVec2,
        hit: Option<(Ratio, Normal)>,
    ) -> bool;

    /// If `self` were to move along the `offset`, returns the part of the way
    /// until collision to other and normal of the collision.
    fn cast(&self, self_position: IVec2, other: &T, other_position: IVec2, offset: IVec2) -> (r: Option<
        (Ratio, Normal),
    >)
        ensures
            self.is_cast(self_position, other, other_position, offset, r),
    ;
}

impl<S: BoxShaped, T: BoxShaped> ColliderCast<T> for S {
    open spec fn is_cast(
        &self,
        self_position: IVec2,
        other: &T,
        other_position: IVec2,
        offset: IVec2,
        hit: Option<(Ratio, Normal)>,
    ) -> bool {
        is_first_contact(
            self.extent_spec(),
            self_position,
            other.extent_spec(),
            other_position,
            offset,
            hit,
        )
    }

    fn cast(&self, self_position: IVec2, other: &T, other_position: IVec2, offset: IVec2) -> (r: Option<
        (Ratio, Normal),
    >) {
        proof {
            self.lemma_no_radius();
            other.lemma_no_radius();
        }
        cast_extents(self.extent(), self_position, other.extent(), other_position, offset)
    }
}

impl<'a, S> Collider<'a, S> {
    /// What the sweep of this collider by `offset` finds of `other`.
    pub fn cast<O>(&self, other: Collider<'a, O>, offset: IVec2) -> (r: Option<(Ratio, Normal)>) where
        S: ColliderCast<O>,

        ensures
            self.shape.is_cast(self.position, other.shape, other.position, offset, r),
    {
        self.shape.cast(self.position, other.shape, other.position, offset)
    }
}

/// What a sweep finds, seen from the other shape: the same time, and the
/// normal turned round.
pub open spec fn seen_from_the_other(hit: Option<(Ratio, Normal)>) -> Option<(Ratio, Normal)> {
    match hit {
        None => None,
        Some((time, normal)) => Some((time, normal.flipped())),
    }
}

/// A sweep does not depend on which of the two shapes is taken to move: what
/// the first finds of the second on its way by `offset`, the second finds of
/// the first on its way by the opposite offset `back`, at the same time and
/// with the normal turned round.
pub proof fn lemma_cast_symmetric<S: BoxShaped, T: BoxShaped>(
    a: S,
    a_position: IVec2,
    b: T,
    b_position: IVec2,
    offset: IVec2,
    back: IVec2,
    hit: Option<(Ratio, Normal)>,
)
    requires
        back.x == -offset.x,
        back.y == -offset.y,
        a.is_cast(a_position, &b, b_position, offset, hit),
    ensures
        b.is_cast(b_position, &a, a_position, back, seen_from_the_other(hit)),
{
    let ea = a.extent_spec();
    let eb = b.extent_spec();
    assert forall|n: int, d: int|
        meets_at(eb, b_position, ea, a_position, back, n, d) == meets_at(
            ea,
            a_position,
            eb,
            b_position,
            offset,
            n,
            d,
        ) && normal_at(eb, b_position, ea, a_position, back, n, d) == normal_at(
            ea,
            a_position,
            eb,
            b_position,
            offset,
            n,
            d,
        ).flipped() by {
        lemma_axis_turned(a_position.x - b_position.x, offset.x as int, ea.half_width + eb.half_width, n, d);
        lemma_axis_turned(
            a_position.y - b_position.y,
            offset.y as int,
            ea.half_height + eb.half_height,
            n,
            d,
        );
    }
    match hit {
        None => {
            assert forall|n: int, d: int| !meets_at(eb, b_position, ea, a_position, back, n, d) by {
                assert(!meets_at(ea, a_position, eb, b_position, offset, n, d));
            }
        },
        Some((time, normal)) => {
            assert forall|n: int, d: int| #[trigger]
                meets_at(eb, b_position, ea, a_position, back, n, d) implies time.numerator * d <= n
                * time.denominator by {
                assert(meets_at(ea, a_position, eb, b_position, offset, n, d));
            }
        },
    }
}

/// Along one axis, the view from the other shape has the distance and the
/// movement turned round, and with them the end that is moved towards.
proof fn lemma_axis_turned(q: int, v: int, reach: int, n: int, d: int)
    by (nonlinear_arith)
    ensures
        axis_meets(-q, -v, reach, n, d) == axis_meets(q, v, reach, n, d),
        on_near_end(-q, -v, reach, n, d) <==> (v < 0 && q * d + n * v == reach * d) || (v > 0 && q
            * d + n * v == -(reach * d)),
        (-q) * d + n * (-v) == -(q * d + n * v),
{
}

/// At the time that a sweep finds, the shapes are in contact: where the
/// moving shape is then at the position `at` of the grid, it overlaps the
/// other shape there.
pub proof fn lemma_cast_reaches_contact<S: BoxShaped, T: BoxShaped>(
    a: S,
    a_position: IVec2,
    b: T,
    b_position: IVec2,
    offset: IVec2,
    time: Ratio,
    normal: Normal,
    at: IVec2,
)
    requires
        a.is_cast(a_position, &b, b_position, offset, Some((time, normal))),
        at.x * time.denominator == a_position.x * time.denominator + time.numerator * offset.x,
        at.y * time.denominator == a_position.y * time.denominator + time.numerator * offset.y,
    ensures
        crate::collider::ColliderInteraction::intersect_spec(&a, at, &b, b_position),
{
    a.lemma_no_radius();
    b.lemma_no_radius();
    let ea = a.extent_spec();
    let eb = b.extent_spec();
    let n = time.numerator as int;
    let d = time.denominator as int;
    assert((at.x - b_position.x) * d == (a_position.x - b_position.x) * d + n * offset.x) by (nonlinear_arith)
        requires
            at.x * d == a_position.x * d + n * offset.x,
    ;
    assert((at.y - b_position.y) * d == (a_position.y - b_position.y) * d + n * offset.y) by (nonlinear_arith)
        requires
            at.y * d == a_position.y * d + n * offset.y,
    ;
    lemma_within_at_grid_position(
        a_position.x - b_position.x,
        offset.x as int,
        ea.half_width + eb.half_width,
        n,
        d,
        at.x - b_position.x,
    );
    lemma_within_at_grid_position(
        a_position.y - b_position.y,
        offset.y as int,
        ea.half_height + eb.half_height,
        n,
        d,
        at.y - b_position.y,
    );
    assert(crate::collider::axis_gap(at.x - b_position.x, ea.half_width + eb.half_width) == 0);
    assert(crate::collider::axis_gap(at.y - b_position.y, ea.half_height + eb.half_height) == 0);
    assert(extents_overlap(ea, at, eb, b_position));
}

/// A position on the grid that lies within a stretch at a time of the
/// movement lies within it as a position.
proof fn lemma_within_at_grid_position(q: int, v: int, reach: int, n: int, d: int, r: int)
    by (nonlinear_arith)
    requires
        d > 0,
        axis_meets(q, v, reach, n, d),
        r * d == q * d + n * v,
    ensures
        -reach <= r <= reach,
{
}

/// Shapes that overlap before the movement are found at its very start, and
/// at the start only such shapes are found.
pub proof fn lemma_cast_from_overlap<S: BoxShaped, T: BoxShaped>(
    a: S,
    a_position: IVec2,
    b: T,
    b_position: IVec2,
    offset: IVec2,
    hit: Option<(Ratio, Normal)>,
)
    requires
        a.is_cast(a_position, &b, b_position, offset, hit),
    ensures
        crate::collider::ColliderInteraction::intersect_spec(&a, a_position, &b, b_position) <==> (hit
            matches Some((time, _)) && time.numerator == 0),
{
    a.lemma_no_radius();
    b.lemma_no_radius();
    let ea = a.extent_spec();
    let eb = b.extent_spec();
    let qx = a_position.x - b_position.x;
    let qy = a_position.y - b_position.y;
    let w = ea.half_width + eb.half_width;
    let h = ea.half_height + eb.half_height;
    let gx = crate::collider::axis_gap(qx, w);
    let gy = crate::collider::axis_gap(qy, h);
    assert(gx * gx + gy * gy <= 0 <==> gx == 0 && gy == 0) by (nonlinear_arith)
        requires
            gx >= 0,
            gy >= 0,
    ;
    assert(crate::collider::ColliderInteraction::intersect_spec(&a, a_position, &b, b_position) == (gx
        * gx + gy * gy <= 0 * 0));
    assert(meets_at(ea, a_position, eb, b_position, offset, 0, 1) <==> gx == 0 && gy == 0);
    match hit {
        None => {
            assert(!meets_at(ea, a_position, eb, b_position, offset, 0, 1));
        },
        Some((time, _)) => {
            let d = time.denominator as int;
            if time.numerator == 0 {
                assert(meets_at(ea, a_position, eb, b_position, offset, 0, d));
                assert(axis_meets(qx, offset.x as int, w, 0, 1) && axis_meets(
                    qy,
                    offset.y as int,
                    h,
                    0,
                    1,
                )) by (nonlinear_arith)
                    requires
                        d > 0,
                        axis_meets(qx, offset.x as int, w, 0, d),
                        axis_meets(qy, offset.y as int, h, 0, d),
                ;
            }
            if gx == 0 && gy == 0 {
                assert(meets_at(ea, a_position, eb, b_position, offset, 0, 1));
                assert(time.numerator * 1 <= 0 * time.denominator);
            }
        },
    }
}

} // verus!
