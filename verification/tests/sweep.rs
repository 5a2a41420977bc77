use bump::bounded::{IVec2, Point, Rectangle, UVec2};
use bump::cast::{ColliderCast, Normal, Ratio};
use bump::collider::Collider;
use bump::filter::Layer;
use bump::sweep::{earliest_hit, SweepHit};
use bump::world::CollisionWorld;
use bump::ColliderGroup;

/// Boxes that move among boxes, on layers.
struct Boxes;

impl ColliderGroup for Boxes {
    type Hitbox = Rectangle;
    type Hurtbox = Rectangle;
    type Filter = Layer<u8>;
}

/// Points that move among boxes.
struct Bullets;

impl ColliderGroup for Bullets {
    type Hitbox = Point;
    type Hurtbox = Rectangle;
    type Filter = Layer<u8>;
}

fn at(x: i32, y: i32) -> IVec2 {
    IVec2::new(x, y)
}

fn rect(w: u32, h: u32) -> Rectangle {
    Rectangle::new(UVec2::new(w, h))
}

fn hit(numerator: u64, denominator: u64, entity: u64) -> SweepHit {
    SweepHit {
        time: Ratio {
            numerator,
            denominator,
        },
        normal: Normal::Back,
        entity,
    }
}

fn entities(hits: &[SweepHit]) -> Vec<u64> {
    let mut found: Vec<u64> = hits.iter().map(|hit| hit.entity).collect();
    found.sort();
    found
}

fn boxes(hurtboxes: &[(u64, Rectangle, IVec2, u8)]) -> CollisionWorld<Boxes> {
    let mut world = CollisionWorld::<Boxes>::new(16);
    for (entity, shape, position, layer) in hurtboxes {
        assert_eq!(world.register_hurtbox(*entity, *shape, *layer), Ok(()));
        assert_eq!(world.place_hurtbox(*entity, *position), Ok(()));
    }
    world
}

#[test]
fn earliest_hit_is_the_last_of_the_earliest() {
    assert_eq!(earliest_hit(&Vec::new()), None);
    assert_eq!(earliest_hit(&vec![hit(1, 2, 7)]), Some(0));
    assert_eq!(
        earliest_hit(&vec![hit(2, 3, 1), hit(1, 2, 2), hit(3, 4, 3)]),
        Some(1)
    );
    assert_eq!(
        earliest_hit(&vec![
            hit(1, 2, 1),
            hit(2, 4, 2),
            hit(3, 4, 3),
            hit(5, 10, 4)
        ]),
        Some(3)
    );
    assert_eq!(earliest_hit(&vec![hit(0, 1, 1), hit(0, 9, 2)]), Some(1));
    assert_eq!(
        earliest_hit(&vec![
            hit(u64::MAX, u64::MAX, 1),
            hit(u64::MAX - 1, u64::MAX, 2)
        ]),
        Some(1)
    );
}

#[test]
fn unit_square_slides_towards_a_unit_square() {
    let world = boxes(&[(1, rect(1, 1), at(3, 0), 1)]);
    let hitbox = rect(1, 1);
    let collider = Collider::new(&hitbox, at(0, 0));
    let hits = world.check_movement(collider, at(10, 0), &1);
    assert_eq!(
        hits,
        vec![SweepHit {
            time: Ratio {
                numerator: 1,
                denominator: 10
            },
            normal: Normal::NegX,
            entity: 1
        }]
    );
    assert_eq!(world.first_contact(collider, at(10, 0), &1), Some(hits[0]));
    assert!(world.check_movement(collider, at(0, 10), &1).is_empty());
    assert_eq!(world.first_contact(collider, at(0, 10), &1), None);
    assert!(world.check_movement(collider, at(10, 0), &2).is_empty());
}

#[test]
fn movement_reports_everything_on_the_way() {
    let world = boxes(&[
        (1, rect(1, 1), at(100, 0), 1),
        (2, rect(1, 1), at(50, 0), 1),
        (3, rect(1, 1), at(200, 0), 1),
        (4, rect(1, 1), at(50, 3), 1),
        (5, rect(1, 1), at(-50, 0), 1),
        (6, rect(1, 50), at(150, 40), 1),
        (7, rect(1, 1), at(120, 0), 2),
    ]);
    let hitbox = rect(1, 1);
    let collider = Collider::new(&hitbox, at(0, 0));
    let hits = world.check_movement(collider, at(160, 0), &1);
    assert_eq!(entities(&hits), vec![1, 2, 6]);
    for found in &hits {
        let expected = hitbox.cast(
            at(0, 0),
            &world.hurtbox(found.entity).unwrap().shape,
            world
                .hurtbox(found.entity)
                .unwrap()
                .registry
                .current_position(),
            at(160, 0),
        );
        assert_eq!(expected, Some((found.time, found.normal)));
    }
    let first = world.first_contact(collider, at(160, 0), &1).unwrap();
    assert_eq!(first.entity, 2);
    assert_eq!(first.time.numerator * 160, 48 * first.time.denominator);
    assert_eq!(first.normal, Normal::NegX);
    let both = world.check_movement(collider, at(160, 0), &3);
    assert_eq!(entities(&both), vec![1, 2, 6, 7]);
}

#[test]
fn fast_hitbox_does_not_pass_a_thin_wall() {
    let world = boxes(&[(1, rect(0, 1000), at(10_000, 0), 1)]);
    let hitbox = rect(0, 0);
    let collider = Collider::new(&hitbox, at(-1_000_000, 500));
    let hits = world.check_movement(collider, at(2_000_000, -700), &1);
    assert_eq!(entities(&hits), vec![1]);
    assert_eq!(hits[0].normal, Normal::NegX);
    assert_eq!(
        hits[0].time.numerator * 2_000_000,
        1_010_000 * hits[0].time.denominator
    );
    let beside = Collider::new(&hitbox, at(-1_000_000, 5000));
    assert!(world
        .check_movement(beside, at(2_000_000, -700), &1)
        .is_empty());
}

#[test]
fn diagonal_bullet_meets_the_nearest_box_first() {
    let mut world = CollisionWorld::<Bullets>::new(32);
    for (entity, position) in [
        (1u64, at(40, 40)),
        (2, at(20, 20)),
        (3, at(60, 61)),
        (4, at(20, 40)),
    ] {
        assert_eq!(world.register_hurtbox(entity, rect(2, 2), 1), Ok(()));
        assert_eq!(world.place_hurtbox(entity, position), Ok(()));
    }
    let bullet = Point;
    let collider = Collider::new(&bullet, at(0, 0));
    let hits = world.check_movement(collider, at(100, 100), &1);
    assert_eq!(entities(&hits), vec![1, 2, 3]);
    let first = world.first_contact(collider, at(100, 100), &1).unwrap();
    assert_eq!(first.entity, 2);
    assert_eq!(first.time.numerator * 100, 18 * first.time.denominator);
    let back = world.first_contact(collider, at(-100, -100), &1);
    assert_eq!(back, None);
    assert!(world.remove_hurtbox(2));
    let next = world.first_contact(collider, at(100, 100), &1).unwrap();
    assert_eq!(next.entity, 1);
    assert_eq!(next.time.numerator * 100, 38 * next.time.denominator);
}

#[test]
fn overlapping_hurtbox_is_met_at_the_start() {
    let world = boxes(&[(1, rect(5, 5), at(0, 0), 1), (2, rect(1, 1), at(20, 0), 1)]);
    let hitbox = rect(1, 1);
    let collider = Collider::new(&hitbox, at(2, 2));
    let first = world.first_contact(collider, at(40, 0), &1).unwrap();
    assert_eq!(first.entity, 1);
    assert_eq!(first.time.numerator, 0);
    assert_eq!(first.normal, Normal::Back);
    let still = world.first_contact(collider, at(0, 0), &1).unwrap();
    assert_eq!(still.entity, 1);
    assert_eq!(still.time.numerator, 0);
}
