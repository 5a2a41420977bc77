use bump::bounded::{
    root_above, Aabb2d, Bounded, BoundingCircle, Circle, Extent, I64Vec2, IVec2, Point,
    Primitive2d, Rectangle, RoundedRectangle, Shape, UVec2,
};
use bump::collider::{Collider, ColliderInteraction};

fn at(x: i32, y: i32) -> IVec2 {
    IVec2::new(x, y)
}

fn rect(w: u32, h: u32) -> Rectangle {
    Rectangle::new(UVec2::new(w, h))
}

fn aabb(min_x: i64, min_y: i64, max_x: i64, max_y: i64) -> Aabb2d {
    Aabb2d::new(I64Vec2::new(min_x, min_y), I64Vec2::new(max_x, max_y))
}

#[test]
fn points_intersect_only_at_the_same_position() {
    assert!(Point.intersect(at(3, -4), &Point, at(3, -4)));
    assert!(!Point.intersect(at(3, -4), &Point, at(3, -3)));
    assert!(!Point.intersect(at(3, -4), &Point, at(4, -4)));
}

#[test]
fn point_intersects_rectangle_up_to_its_edges() {
    let r = rect(2, 1);
    assert!(Point.intersect(at(0, 0), &r, at(0, 0)));
    assert!(Point.intersect(at(12, 6), &r, at(10, 5)));
    assert!(Point.intersect(at(8, 4), &r, at(10, 5)));
    assert!(!Point.intersect(at(13, 5), &r, at(10, 5)));
    assert!(!Point.intersect(at(10, 7), &r, at(10, 5)));
}

#[test]
fn rectangles_intersect_when_their_extents_meet() {
    let a = rect(1, 1);
    let b = rect(1, 1);
    assert!(a.intersect(at(0, 0), &b, at(2, 0)));
    assert!(a.intersect(at(0, 0), &b, at(2, 2)));
    assert!(!a.intersect(at(0, 0), &b, at(3, 0)));
    assert!(!a.intersect(at(0, 0), &b, at(0, -3)));
    let wide = rect(10, 1);
    assert!(a.intersect(at(0, 0), &wide, at(11, 2)));
    assert!(!a.intersect(at(0, 0), &wide, at(11, 3)));
}

#[test]
fn rectangle_need_not_contain_the_other_to_intersect() {
    let small = rect(1, 1);
    let large = rect(5, 5);
    assert!(small.intersect(at(6, 0), &large, at(0, 0)));
    assert!(large.intersect(at(0, 0), &small, at(6, 0)));
}

#[test]
fn circles_intersect_up_to_the_sum_of_their_radii() {
    let a = Circle::new(1);
    let b = Circle::new(1);
    assert!(a.intersect(at(0, 0), &b, at(2, 0)));
    assert!(!a.intersect(at(0, 0), &b, at(3, 0)));
    let c = Circle::new(2);
    let d = Circle::new(3);
    assert!(c.intersect(at(0, 0), &d, at(3, 4)));
    assert!(!c.intersect(at(0, 0), &d, at(4, 4)));
}

#[test]
fn point_intersects_circle_within_its_radius() {
    let c = Circle::new(5);
    assert!(Point.intersect(at(3, 4), &c, at(0, 0)));
    assert!(!Point.intersect(at(4, 4), &c, at(0, 0)));
    assert!(c.intersect(at(0, 0), &Point, at(-5, 0)));
    assert!(!c.intersect(at(0, 0), &Point, at(-5, 1)));
}

#[test]
fn circle_intersects_rectangle_round_its_corners() {
    let r = rect(10, 10);
    let c = Circle::new(5);
    assert!(c.intersect(at(15, 0), &r, at(0, 0)));
    assert!(!c.intersect(at(16, 0), &r, at(0, 0)));
    assert!(c.intersect(at(13, 14), &r, at(0, 0)));
    assert!(!c.intersect(at(14, 14), &r, at(0, 0)));
    assert!(r.intersect(at(0, 0), &c, at(13, 14)));
    assert!(!r.intersect(at(0, 0), &c, at(14, 14)));
}

#[test]
fn rounded_rectangle_lacks_its_corners() {
    let rounded = RoundedRectangle {
        rect: rect(10, 10),
        radius: 5,
    };
    assert!(Point.intersect(at(10, 0), &rounded, at(0, 0)));
    assert!(Point.intersect(at(0, -10), &rounded, at(0, 0)));
    assert!(!Point.intersect(at(10, 10), &rounded, at(0, 0)));
    assert!(Point.intersect(at(8, 9), &rounded, at(0, 0)));
    assert!(!Point.intersect(at(9, 9), &rounded, at(0, 0)));
    assert!(!Point.intersect(at(11, 0), &rounded, at(0, 0)));
}

#[test]
fn rounded_rectangle_radius_stops_at_the_half_size() {
    let rounded = RoundedRectangle {
        rect: rect(4, 2),
        radius: 100,
    };
    assert_eq!(
        rounded.extent(),
        Extent {
            half_width: 2,
            half_height: 0,
            radius: 2
        }
    );
    assert!(Point.intersect(at(4, 0), &rounded, at(0, 0)));
    assert!(!Point.intersect(at(4, 1), &rounded, at(0, 0)));
    assert!(Point.intersect(at(2, 2), &rounded, at(0, 0)));
}

#[test]
fn extents_of_the_primitives() {
    assert_eq!(
        Point.extent(),
        Extent {
            half_width: 0,
            half_height: 0,
            radius: 0
        }
    );
    assert_eq!(
        Circle::new(7).extent(),
        Extent {
            half_width: 0,
            half_height: 0,
            radius: 7
        }
    );
    assert_eq!(
        rect(3, 4).extent(),
        Extent {
            half_width: 3,
            half_height: 4,
            radius: 0
        }
    );
    let rounded = RoundedRectangle {
        rect: rect(3, 4),
        radius: 1,
    };
    assert_eq!(
        rounded.extent(),
        Extent {
            half_width: 2,
            half_height: 3,
            radius: 1
        }
    );
    assert_eq!(
        Shape::Circle(Circle::new(7)).extent(),
        Circle::new(7).extent()
    );
    assert_eq!(Shape::RoundedRectangle(rounded).extent(), rounded.extent());
}

#[test]
fn intersection_is_symmetric() {
    let shapes = [
        Shape::Point(Point),
        Shape::Circle(Circle::new(3)),
        Shape::Rectangle(rect(2, 5)),
        Shape::RoundedRectangle(RoundedRectangle {
            rect: rect(4, 4),
            radius: 2,
        }),
    ];
    let positions = [at(0, 0), at(3, 4), at(-6, 1), at(7, 7), at(-2, -9)];
    for a in shapes {
        for b in shapes {
            for pa in positions {
                for pb in positions {
                    assert_eq!(a.intersect(pa, &b, pb), b.intersect(pb, &a, pa));
                }
            }
        }
    }
}

#[test]
fn intersection_at_the_ends_of_the_grid() {
    let big = Circle::new(u32::MAX);
    assert!(big.intersect(at(i32::MIN, i32::MIN), &big, at(i32::MAX, i32::MAX)));
    assert!(!Point.intersect(at(i32::MIN, 0), &Point, at(i32::MAX, 0)));
    let wide = rect(u32::MAX, 0);
    assert!(wide.intersect(at(i32::MIN, 5), &Point, at(i32::MAX, 5)));
    assert!(!wide.intersect(at(i32::MIN, 5), &Point, at(i32::MAX, 6)));
    let small = Circle::new(1);
    assert!(!small.intersect(at(i32::MIN, i32::MIN), &small, at(i32::MAX, i32::MAX)));
}

#[test]
fn collider_intersect_uses_both_positions() {
    let a = Circle::new(1);
    let b = rect(1, 1);
    let left = Collider::new(&a, at(0, 0));
    assert!(left.intersect(Collider::new(&b, at(2, 0))));
    assert!(!left.intersect(Collider::new(&b, at(3, 0))));
    assert_eq!(left.position, at(0, 0));
}

#[test]
fn bounding_boxes_of_the_primitives() {
    let point: Aabb2d = Point.bounding();
    assert_eq!(point, aabb(0, 0, 0, 0));
    let circle: Aabb2d = Circle::new(3).bounding();
    assert_eq!(circle, aabb(-3, -3, 3, 3));
    let rectangle: Aabb2d = rect(2, 5).bounding();
    assert_eq!(rectangle, aabb(-2, -5, 2, 5));
    let rounded: Aabb2d = RoundedRectangle {
        rect: rect(4, 6),
        radius: 2,
    }
    .bounding();
    assert_eq!(rounded, aabb(-4, -6, 4, 6));
    let huge: Aabb2d = Circle::new(u32::MAX).bounding();
    assert_eq!(huge, aabb(-4294967295, -4294967295, 4294967295, 4294967295));
}

#[test]
fn collider_bounding_moves_with_the_position() {
    let shape = rect(2, 5);
    let collider = Collider::new(&shape, at(10, -20));
    assert_eq!(collider.bounding(), aabb(8, -25, 12, -15));
    let far = Collider::new(&shape, at(i32::MAX, i32::MIN));
    assert_eq!(
        far.bounding(),
        aabb(2147483645, -2147483653, 2147483649, -2147483643)
    );
}

#[test]
fn intersecting_shapes_have_intersecting_boxes() {
    let shapes = [
        Shape::Point(Point),
        Shape::Circle(Circle::new(3)),
        Shape::Rectangle(rect(2, 5)),
        Shape::RoundedRectangle(RoundedRectangle {
            rect: rect(4, 4),
            radius: 2,
        }),
    ];
    let positions = [at(0, 0), at(3, 4), at(-6, 1), at(7, 7), at(-2, -9)];
    for a in &shapes {
        for b in &shapes {
            for pa in positions {
                for pb in positions {
                    if a.intersect(pa, b, pb) {
                        let box_a = Collider::new(a, pa).bounding();
                        let box_b = Collider::new(b, pb).bounding();
                        assert!(box_a.intersects(&box_b));
                    }
                }
            }
        }
    }
}

#[test]
fn aabb_contains_and_intersects() {
    let outer = aabb(0, 0, 10, 10);
    assert!(outer.contains(&aabb(0, 0, 10, 10)));
    assert!(outer.contains(&aabb(2, 3, 4, 5)));
    assert!(!outer.contains(&aabb(-1, 3, 4, 5)));
    assert!(!outer.contains(&aabb(2, 3, 4, 11)));
    assert!(outer.intersects(&aabb(10, 10, 12, 12)));
    assert!(!outer.intersects(&aabb(11, 0, 12, 10)));
    assert!(!outer.intersects(&aabb(0, -5, 10, -1)));
    assert!(aabb(10, 10, 12, 12).intersects(&outer));
}

#[test]
fn aabb_merge_spans_both() {
    let merged = aabb(0, 0, 2, 2).merge(&aabb(-3, 1, 1, 7));
    assert_eq!(merged, aabb(-3, 0, 2, 7));
    assert_eq!(aabb(-3, 1, 1, 7).merge(&aabb(0, 0, 2, 2)), merged);
}

#[test]
fn aabb_translation_stops_at_the_ends_of_the_range() {
    assert_eq!(aabb(0, 0, 2, 2).translated(at(5, -7)), aabb(5, -7, 7, -5));
    let high = aabb(i64::MAX - 1, 0, i64::MAX, 0).translated(at(5, 0));
    assert_eq!(high, aabb(i64::MAX, 0, i64::MAX, 0));
    let low = aabb(i64::MIN, i64::MIN + 10, 0, 0).translated(at(-5, -5));
    assert_eq!(low, aabb(i64::MIN, i64::MIN + 5, -5, -5));
}

#[test]
fn root_is_taken_to_the_next_whole_number() {
    assert_eq!(root_above(0), 0);
    assert_eq!(root_above(1), 1);
    assert_eq!(root_above(2), 2);
    assert_eq!(root_above(4), 2);
    assert_eq!(root_above(5), 3);
    assert_eq!(root_above(25), 5);
    assert_eq!(root_above(26), 6);
    assert_eq!(root_above(1 << 64), 1 << 32);
    assert_eq!(root_above((1 << 64) + 1), (1 << 32) + 1);
    assert_eq!(root_above(1 << 65), 6074001000);
    assert_eq!(root_above((1 << 65) - 1), 6074001000);
    assert_eq!(root_above(6074001000 * 6074001000), 6074001000);
    assert_eq!(root_above(u128::MAX), 1 << 64);
    assert_eq!(root_above(u128::MAX - (1 << 65) + 3), 1 << 64);
    assert_eq!(root_above(u128::MAX - (1 << 65) + 2), (1 << 64) - 1);
}

#[test]
fn bounding_circles_of_the_primitives() {
    let point: BoundingCircle = Point.bounding();
    assert_eq!(point, BoundingCircle::new(at(0, 0), 0));
    let circle: BoundingCircle = Circle::new(7).bounding();
    assert_eq!(circle, BoundingCircle::new(at(0, 0), 7));
    let rectangle: BoundingCircle = rect(3, 4).bounding();
    assert_eq!(rectangle, BoundingCircle::new(at(0, 0), 5));
    let square: BoundingCircle = rect(1, 1).bounding();
    assert_eq!(square, BoundingCircle::new(at(0, 0), 2));
    let rounded: BoundingCircle = RoundedRectangle {
        rect: rect(5, 6),
        radius: 2,
    }
    .bounding();
    assert_eq!(rounded, BoundingCircle::new(at(0, 0), 7));
    let huge: BoundingCircle = rect(u32::MAX, u32::MAX).bounding();
    assert_eq!(huge, BoundingCircle::new(at(0, 0), 6074000999));
    let either: BoundingCircle = Shape::Rectangle(rect(3, 4)).bounding();
    assert_eq!(either.radius, 5);
}

#[test]
fn shapes_lie_within_their_bounding_circles() {
    let shapes = [
        Shape::Point(Point),
        Shape::Circle(Circle::new(3)),
        Shape::Rectangle(rect(2, 5)),
        Shape::RoundedRectangle(RoundedRectangle {
            rect: rect(4, 4),
            radius: 2,
        }),
    ];
    for shape in &shapes {
        let circle: BoundingCircle = shape.bounding();
        let radius = circle.radius as i64;
        for x in -8..=8i32 {
            for y in -8..=8i32 {
                if shape.intersect(at(0, 0), &Point, at(x, y)) {
                    assert!((x as i64) * (x as i64) + (y as i64) * (y as i64) <= radius * radius);
                }
            }
        }
    }
}
