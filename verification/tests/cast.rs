use bump::bounded::{IVec2, Point, Rectangle, UVec2};
use bump::cast::{ColliderCast, Normal, Ratio};
use bump::collider::{Collider, ColliderInteraction};

fn at(x: i32, y: i32) -> IVec2 {
    IVec2::new(x, y)
}

fn rect(w: u32, h: u32) -> Rectangle {
    Rectangle::new(UVec2::new(w, h))
}

fn same_time(hit: Option<(Ratio, Normal)>, numerator: u64, denominator: u64) -> bool {
    match hit {
        Some((time, _)) => {
            time.denominator > 0
                && (time.numerator as u128) * (denominator as u128)
                    == (numerator as u128) * (time.denominator as u128)
        }
        None => false,
    }
}

fn normal_of(hit: Option<(Ratio, Normal)>) -> Option<Normal> {
    hit.map(|(_, normal)| normal)
}

#[test]
fn unit_square_meets_unit_square_after_three_tenths() {
    let hit = rect(1, 1).cast(at(0, 0), &rect(1, 1), at(5, 0), at(10, 0));
    assert_eq!(
        hit,
        Some((
            Ratio {
                numerator: 3,
                denominator: 10
            },
            Normal::NegX
        ))
    );
}

#[test]
fn sweep_ends_where_the_way_ends() {
    let a = rect(1, 1);
    let b = rect(1, 1);
    assert!(same_time(a.cast(at(0, 0), &b, at(5, 0), at(3, 0)), 1, 1));
    assert_eq!(a.cast(at(0, 0), &b, at(5, 0), at(2, 0)), None);
    assert_eq!(a.cast(at(0, 0), &b, at(5, 0), at(-10, 0)), None);
    assert_eq!(a.cast(at(0, 0), &b, at(5, 0), at(0, 10)), None);
    assert_eq!(a.cast(at(0, 0), &b, at(5, 0), at(0, 0)), None);
}

#[test]
fn normal_faces_the_moving_shape() {
    let a = rect(1, 1);
    let b = rect(2, 2);
    assert_eq!(
        normal_of(a.cast(at(-10, 0), &b, at(0, 0), at(20, 0))),
        Some(Normal::NegX)
    );
    assert_eq!(
        normal_of(a.cast(at(10, 0), &b, at(0, 0), at(-20, 0))),
        Some(Normal::X)
    );
    assert_eq!(
        normal_of(a.cast(at(0, -10), &b, at(0, 0), at(0, 20))),
        Some(Normal::NegY)
    );
    assert_eq!(
        normal_of(a.cast(at(0, 10), &b, at(0, 0), at(0, -20))),
        Some(Normal::Y)
    );
    assert!(same_time(
        a.cast(at(-10, 0), &b, at(0, 0), at(20, 0)),
        7,
        20
    ));
    assert!(same_time(
        a.cast(at(0, 10), &b, at(0, 0), at(0, -20)),
        7,
        20
    ));
}

#[test]
fn the_axis_that_is_entered_last_gives_the_normal() {
    let p = Point;
    let b = rect(1, 1);
    let hit = p.cast(at(-5, -3), &b, at(0, 0), at(10, 10));
    assert!(same_time(hit, 4, 10));
    assert_eq!(normal_of(hit), Some(Normal::NegX));
    let hit = p.cast(at(-3, -5), &b, at(0, 0), at(10, 10));
    assert!(same_time(hit, 4, 10));
    assert_eq!(normal_of(hit), Some(Normal::NegY));
    let corner = p.cast(at(-5, -5), &b, at(0, 0), at(10, 10));
    assert!(same_time(corner, 4, 10));
    assert_eq!(normal_of(corner), Some(Normal::NegX));
}

#[test]
fn sweep_can_miss_beside_the_shape() {
    let p = Point;
    let b = rect(1, 1);
    assert_eq!(p.cast(at(-5, 2), &b, at(0, 0), at(10, 0)), None);
    assert!(same_time(p.cast(at(-5, 1), &b, at(0, 0), at(10, 0)), 4, 10));
    assert_eq!(p.cast(at(-5, -5), &b, at(0, 0), at(10, 2)), None);
    assert_eq!(p.cast(at(-5, 0), &b, at(0, 0), at(3, 100)), None);
}

#[test]
fn overlapping_shapes_meet_at_the_start() {
    let a = rect(2, 2);
    let b = rect(2, 2);
    let hit = a.cast(at(0, 0), &b, at(1, 1), at(10, 0));
    assert!(same_time(hit, 0, 1));
    assert_eq!(normal_of(hit), Some(Normal::Back));
    let still = a.cast(at(0, 0), &b, at(1, 1), at(0, 0));
    assert!(same_time(still, 0, 1));
    assert_eq!(normal_of(still), Some(Normal::Back));
    let touching = a.cast(at(0, 0), &b, at(4, 0), at(10, 0));
    assert!(same_time(touching, 0, 1));
    assert_eq!(normal_of(touching), Some(Normal::NegX));
    let leaving = a.cast(at(0, 0), &b, at(4, 0), at(-10, 0));
    assert!(same_time(leaving, 0, 1));
    assert_eq!(normal_of(leaving), Some(Normal::Back));
}

#[test]
fn points_meet_only_on_the_line() {
    let p = Point;
    let hit = p.cast(at(0, 0), &Point, at(6, 3), at(8, 4));
    assert!(same_time(hit, 3, 4));
    assert_eq!(normal_of(hit), Some(Normal::NegX));
    assert_eq!(p.cast(at(0, 0), &Point, at(6, 3), at(8, 5)), None);
    assert_eq!(p.cast(at(0, 0), &Point, at(6, 3), at(-8, -4)), None);
    assert_eq!(p.cast(at(0, 0), &Point, at(6, 3), at(4, 2)), None);
    assert!(same_time(
        p.cast(at(0, 0), &Point, at(6, 3), at(6, 3)),
        1,
        1
    ));
}

#[test]
fn sweeps_are_symmetric() {
    let shapes = [rect(0, 0), rect(1, 1), rect(3, 1), rect(2, 5)];
    let positions = [at(0, 0), at(7, 1), at(-4, 6), at(3, -8)];
    let offsets = [
        at(10, 0),
        at(0, -10),
        at(5, 5),
        at(-7, 3),
        at(1, -9),
        at(0, 0),
        at(-20, -20),
    ];
    for a in shapes {
        for b in shapes {
            for pa in positions {
                for pb in positions {
                    for v in offsets {
                        let forth = a.cast(pa, &b, pb, v);
                        let back = b.cast(pb, &a, pa, at(-v.x, -v.y));
                        match (forth, back) {
                            (None, None) => {}
                            (Some((t, n)), Some((u, m))) => {
                                assert_eq!(
                                    t.numerator as u128 * u.denominator as u128,
                                    u.numerator as u128 * t.denominator as u128
                                );
                                assert_eq!(n.flip(), m);
                            }
                            _ => panic!("one side hits and the other does not"),
                        }
                    }
                }
            }
        }
    }
}

#[test]
fn contact_is_reached_when_the_time_lands_on_the_grid() {
    let shapes = [rect(0, 0), rect(1, 1), rect(3, 1)];
    let positions = [at(0, 0), at(7, 1), at(-4, 6), at(3, -8)];
    let offsets = [
        at(10, 0),
        at(0, -10),
        at(5, 5),
        at(-7, 3),
        at(12, -9),
        at(-20, -20),
    ];
    let mut landed = 0;
    for a in shapes {
        for b in shapes {
            for pa in positions {
                for pb in positions {
                    for v in offsets {
                        if let Some((t, _)) = a.cast(pa, &b, pb, v) {
                            let (n, d) = (t.numerator as i64, t.denominator as i64);
                            assert!(d > 0 && 0 <= n && n <= d);
                            if (n * v.x as i64) % d == 0 && (n * v.y as i64) % d == 0 {
                                let moved = at(
                                    pa.x + (n * v.x as i64 / d) as i32,
                                    pa.y + (n * v.y as i64 / d) as i32,
                                );
                                assert!(a.intersect(moved, &b, pb));
                                landed += 1;
                            }
                            if n > 0 {
                                assert!(!a.intersect(pa, &b, pb));
                            }
                        } else {
                            assert!(!a.intersect(pa, &b, pb));
                            assert!(!a.intersect(at(pa.x + v.x, pa.y + v.y), &b, pb));
                        }
                    }
                }
            }
        }
    }
    assert!(landed > 0);
}

#[test]
fn no_earlier_contact_on_the_grid() {
    let a = rect(1, 1);
    let b = rect(2, 1);
    for start in -12..=12 {
        let pa = at(start, 0);
        let pb = at(0, 0);
        let v = at(24, 0);
        match a.cast(pa, &b, pb, v) {
            Some((t, _)) => {
                for step in 0..=24 {
                    let here = a.intersect(at(start + step, 0), &b, pb);
                    if (step as u64) * t.denominator < t.numerator * 24 {
                        assert!(!here);
                    }
                }
            }
            None => {
                for step in 0..=24 {
                    assert!(!a.intersect(at(start + step, 0), &b, pb));
                }
            }
        }
    }
}

#[test]
fn sweeps_at_the_ends_of_the_grid() {
    let p = Point;
    let wall = rect(u32::MAX, u32::MAX);
    let hit = p.cast(
        at(i32::MIN, i32::MIN),
        &wall,
        at(i32::MAX, i32::MAX),
        at(i32::MAX, i32::MAX),
    );
    assert!(same_time(hit, 0, 1));
    let small = rect(1, 1);
    let far = p.cast(at(i32::MIN, 0), &small, at(i32::MAX, 0), at(i32::MAX, 0));
    assert_eq!(far, None);
    let reach = p.cast(at(-1, 0), &small, at(i32::MAX, 0), at(i32::MAX, 0));
    assert!(same_time(reach, 2147483647, 2147483647));
    let back = p.cast(
        at(i32::MAX, 5),
        &small,
        at(i32::MIN + 1, 5),
        at(i32::MIN, 0),
    );
    assert_eq!(back, None);
    let near = p.cast(at(0, 5), &small, at(i32::MIN + 1, 5), at(i32::MIN, 0));
    assert!(same_time(near, 2147483646, 2147483648));
    assert_eq!(normal_of(near), Some(Normal::X));
}

#[test]
fn collider_cast_uses_both_positions() {
    let a = rect(1, 1);
    let b = rect(1, 1);
    let moving = Collider::new(&a, at(0, 0));
    let hit = moving.cast(Collider::new(&b, at(0, 6)), at(0, 8));
    assert!(same_time(hit, 1, 2));
    assert_eq!(normal_of(hit), Some(Normal::NegY));
    assert_eq!(moving.cast(Collider::new(&b, at(0, 6)), at(0, 3)), None);
}
