use bump::bounded::{Aabb2d, Bounded, Circle, I64Vec2, IVec2, Point, Rectangle, Shape, UVec2};
use bump::collider::{Collider, ColliderInteraction};
use bump::filter::{Layer, Monitorable};
use bump::world::{CollisionWorld, RegistrationError, SpatialIndexRegistry};
use bump::ColliderGroup;

/// Hurtboxes of any shape, on layers, that can be switched off.
struct Solids;

impl ColliderGroup for Solids {
    type Hitbox = Shape;
    type Hurtbox = Shape;
    type Filter = (Layer<u8>, Monitorable);
}

fn at(x: i32, y: i32) -> IVec2 {
    IVec2::new(x, y)
}

fn aabb(min_x: i64, min_y: i64, max_x: i64, max_y: i64) -> Aabb2d {
    Aabb2d::new(I64Vec2::new(min_x, min_y), I64Vec2::new(max_x, max_y))
}

fn square(half: u32) -> Shape {
    Shape::Rectangle(Rectangle::new(UVec2::new(half, half)))
}

fn sorted(mut handles: Vec<u64>) -> Vec<u64> {
    handles.sort();
    handles
}

fn world_with(hurtboxes: &[(u64, Shape, IVec2, u8, bool)]) -> CollisionWorld<Solids> {
    let mut world = CollisionWorld::<Solids>::new(16);
    for (entity, shape, position, layer, monitorable) in hurtboxes {
        assert_eq!(
            world.register_hurtbox(*entity, *shape, (*layer, *monitorable)),
            Ok(())
        );
        assert_eq!(world.place_hurtbox(*entity, *position), Ok(()));
    }
    world
}

#[test]
fn registry_is_not_valid_until_placed() {
    let pending = SpatialIndexRegistry::not_valid();
    assert!(!pending.is_valid());
    assert_eq!(pending.global_aabb(), None);
    assert_eq!(pending.current_position(), at(0, 0));
    assert_eq!(pending.current_shape_bounding(), aabb(0, 0, 0, 0));
    assert_eq!(pending, SpatialIndexRegistry::not_valid());
    let placed = SpatialIndexRegistry::placed(aabb(-1, -2, 1, 2), at(10, 20));
    assert!(placed.is_valid());
    assert_eq!(placed.current_position(), at(10, 20));
    assert_eq!(placed.current_shape_bounding(), aabb(-1, -2, 1, 2));
    assert_eq!(placed.global_aabb(), Some(aabb(9, 18, 11, 22)));
}

#[test]
fn registered_hurtbox_is_not_found_before_it_is_placed() {
    let mut world = CollisionWorld::<Solids>::new(16);
    assert_eq!(world.register_hurtbox(1, square(2), (1, true)), Ok(()));
    assert!(world
        .collisions_on_layer(aabb(-100, -100, 100, 100), &(1, ()))
        .is_empty());
    assert_eq!(world.place_hurtbox(1, at(0, 0)), Ok(()));
    assert_eq!(
        world.collisions_on_layer(aabb(-100, -100, 100, 100), &(1, ())),
        vec![1]
    );
}

#[test]
fn registration_errors() {
    let mut world = CollisionWorld::<Solids>::new(16);
    assert_eq!(
        world.place_hurtbox(1, at(0, 0)),
        Err(RegistrationError::NotRegistered)
    );
    assert_eq!(
        world.update_hurtbox(1, square(1), at(0, 0)),
        Err(RegistrationError::NotRegistered)
    );
    assert_eq!(world.register_hurtbox(1, square(2), (1, true)), Ok(()));
    assert_eq!(
        world.register_hurtbox(1, square(3), (1, true)),
        Err(RegistrationError::AlreadyRegistered)
    );
    assert_eq!(
        world.update_hurtbox(1, square(1), at(0, 0)),
        Err(RegistrationError::NotPlaced)
    );
    assert_eq!(world.place_hurtbox(1, at(0, 0)), Ok(()));
    assert_eq!(
        world.place_hurtbox(1, at(5, 5)),
        Err(RegistrationError::AlreadyPlaced)
    );
    assert_eq!(
        world.collisions_on_layer(aabb(0, 0, 0, 0), &(1, ())),
        vec![1]
    );
}

#[test]
fn update_moves_the_hurtbox_only_when_something_changed() {
    let mut world = world_with(&[(1, square(2), at(0, 0), 1, true)]);
    assert_eq!(world.update_hurtbox(1, square(2), at(0, 0)), Ok(false));
    assert_eq!(world.update_hurtbox(1, square(2), at(100, 0)), Ok(true));
    assert!(world
        .collisions_on_layer(aabb(-5, -5, 5, 5), &(1, ()))
        .is_empty());
    assert_eq!(
        world.collisions_on_layer(aabb(96, 0, 100, 0), &(1, ())),
        vec![1]
    );
    assert_eq!(world.update_hurtbox(1, square(40), at(100, 0)), Ok(true));
    assert_eq!(
        world.collisions_on_layer(aabb(64, 0, 70, 0), &(1, ())),
        vec![1]
    );
    assert_eq!(world.update_hurtbox(1, square(40), at(100, 0)), Ok(false));
    let same_extent = Shape::RoundedRectangle(bump::bounded::RoundedRectangle {
        rect: Rectangle::new(UVec2::new(40, 40)),
        radius: 0,
    });
    assert_eq!(world.update_hurtbox(1, same_extent, at(100, 0)), Ok(false));
    assert_eq!(world.hurtbox(1).unwrap().shape, same_extent);
    let rounded = Shape::RoundedRectangle(bump::bounded::RoundedRectangle {
        rect: Rectangle::new(UVec2::new(40, 40)),
        radius: 5,
    });
    assert_eq!(world.update_hurtbox(1, rounded, at(100, 0)), Ok(true));
    assert_eq!(world.hurtbox(1).unwrap().shape, rounded);
}

#[test]
fn removed_hurtbox_is_forgotten() {
    let mut world = world_with(&[
        (1, square(2), at(0, 0), 1, true),
        (2, square(2), at(1, 1), 1, true),
    ]);
    assert!(world.remove_hurtbox(1));
    assert!(!world.remove_hurtbox(1));
    assert_eq!(
        world.collisions_on_layer(aabb(-5, -5, 5, 5), &(1, ())),
        vec![2]
    );
    assert_eq!(
        world.place_hurtbox(1, at(0, 0)),
        Err(RegistrationError::NotRegistered)
    );
    assert_eq!(world.register_hurtbox(1, square(2), (1, true)), Ok(()));
    assert!(world.remove_hurtbox(1));
    assert_eq!(
        world.collisions_on_layer(aabb(-5, -5, 5, 5), &(1, ())),
        vec![2]
    );
}

#[test]
fn filter_keeps_matching_layers_and_monitorable_hurtboxes() {
    let mut world = world_with(&[
        (1, square(2), at(0, 0), 0b01, true),
        (2, square(2), at(1, 0), 0b10, true),
        (3, square(2), at(2, 0), 0b11, false),
        (4, square(2), at(3, 0), 0b11, true),
    ]);
    let everywhere = aabb(-50, -50, 50, 50);
    assert_eq!(
        sorted(world.collisions_on_layer(everywhere, &(0b01, ()))),
        vec![1, 4]
    );
    assert_eq!(
        sorted(world.collisions_on_layer(everywhere, &(0b10, ()))),
        vec![2, 4]
    );
    assert!(world
        .collisions_on_layer(everywhere, &(0b100, ()))
        .is_empty());
    assert!(world.set_filter_param(3, (0b11, true)));
    assert!(!world.set_filter_param(9, (0b11, true)));
    assert_eq!(
        sorted(world.collisions_on_layer(everywhere, &(0b01, ()))),
        vec![1, 3, 4]
    );
}

#[test]
fn candidates_come_once_unless_duplication_is_allowed() {
    let world = world_with(&[
        (1, square(20), at(0, 0), 1, true),
        (2, square(1), at(0, 0), 1, true),
    ]);
    let around = aabb(-20, -20, 20, 20);
    let once = world.collisions_on_layer(around, &(1, ()));
    assert_eq!(sorted(once.clone()), vec![1, 2]);
    let each = world.collisions_on_layer_allow_duplication(around, &(1, ()));
    assert_eq!(each.iter().filter(|h| **h == 1).count(), 16);
    assert_eq!(each.iter().filter(|h| **h == 2).count(), 4);
    let mut firsts: Vec<u64> = Vec::new();
    for h in &each {
        if !firsts.contains(h) {
            firsts.push(*h);
        }
    }
    assert_eq!(once, firsts);
}

#[test]
fn check_intersection_finds_exactly_the_overlapping_hurtboxes() {
    let hurtboxes = [
        (1, square(2), at(0, 0), 1, true),
        (2, Shape::Circle(Circle::new(5)), at(10, 0), 1, true),
        (3, Shape::Point(Point), at(3, 3), 1, true),
        (4, square(1), at(40, 40), 1, true),
        (5, Shape::Circle(Circle::new(30)), at(-40, 0), 1, true),
        (6, square(3), at(4, 4), 2, true),
        (7, square(3), at(4, 4), 1, false),
    ];
    let world = world_with(&hurtboxes);
    let hitboxes = [
        (Shape::Circle(Circle::new(3)), at(3, 0)),
        (Shape::Point(Point), at(3, 3)),
        (square(1), at(-11, 0)),
        (square(50), at(0, 0)),
        (Shape::Point(Point), at(200, 200)),
    ];
    for (shape, position) in &hitboxes {
        let found = sorted(world.check_intersection(Collider::new(shape, *position), &(1, ())));
        let expected: Vec<u64> = hurtboxes
            .iter()
            .filter(|(_, other, place, layer, monitorable)| {
                *layer & 1 != 0 && *monitorable && shape.intersect(*position, other, *place)
            })
            .map(|(entity, _, _, _, _)| *entity)
            .collect();
        assert_eq!(found, expected);
    }
}

#[test]
fn check_intersection_of_a_unit_circle_pair() {
    let world = world_with(&[(1, Shape::Circle(Circle::new(1)), at(5, 0), 1, true)]);
    let circle = Shape::Circle(Circle::new(1));
    assert!(world
        .check_intersection(Collider::new(&circle, at(0, 0)), &(1, ()))
        .is_empty());
    assert!(world
        .check_intersection(Collider::new(&circle, at(2, 0)), &(1, ()))
        .is_empty());
    assert_eq!(
        world.check_intersection(Collider::new(&circle, at(3, 0)), &(1, ())),
        vec![1]
    );
}

#[test]
fn cast_candidates_cover_the_whole_way() {
    let world = world_with(&[
        (1, square(1), at(500, 0), 1, true),
        (2, square(1), at(0, 500), 1, true),
        (3, square(1), at(-500, 0), 1, true),
        (4, square(1), at(250, 250), 1, true),
    ]);
    let hitbox = square(1);
    let collider = Collider::new(&hitbox, at(0, 0));
    assert!(world
        .cast_candidates(collider, at(0, 0), &(1, ()))
        .is_empty());
    assert_eq!(
        world.cast_candidates(collider, at(1000, 0), &(1, ())),
        vec![1]
    );
    assert_eq!(
        world.cast_candidates(collider, at(-1000, 0), &(1, ())),
        vec![3]
    );
    assert_eq!(
        sorted(world.cast_candidates(collider, at(1000, 1000), &(1, ()))),
        vec![1, 2, 4]
    );
    assert!(world
        .cast_candidates(collider, at(400, 0), &(1, ()))
        .is_empty());
    assert!(world
        .cast_candidates(collider, at(1000, 0), &(2, ()))
        .is_empty());
}

#[test]
fn world_chunks_follow_the_chunk_size() {
    let world = CollisionWorld::<Solids>::new(16);
    assert_eq!(
        world.global_to_chunk(I64Vec2::new(-1, 31)),
        IVec2::new(-1, 1)
    );
    let shape = square(2);
    let bounding: Aabb2d = shape.bounding();
    assert_eq!(bounding, aabb(-2, -2, 2, 2));
}

#[test]
fn hurtbox_can_be_looked_up() {
    let mut world = CollisionWorld::<Solids>::new(16);
    assert!(world.hurtbox(1).is_none());
    assert_eq!(world.register_hurtbox(1, square(2), (0b101, true)), Ok(()));
    let pending = world.hurtbox(1).unwrap();
    assert_eq!(pending.shape, square(2));
    assert_eq!(pending.param, (0b101, true));
    assert!(!pending.registry.is_valid());
    assert_eq!(world.place_hurtbox(1, at(7, -9)), Ok(()));
    assert_eq!(world.update_hurtbox(1, square(3), at(8, -9)), Ok(true));
    let placed = world.hurtbox(1).unwrap();
    assert_eq!(placed.shape, square(3));
    assert!(placed.registry.is_valid());
    assert_eq!(placed.registry.current_position(), at(8, -9));
    assert_eq!(placed.registry.current_shape_bounding(), aabb(-3, -3, 3, 3));
    assert_eq!(placed.registry.global_aabb(), Some(aabb(5, -12, 11, -6)));
    assert!(world.remove_hurtbox(1));
    assert!(world.hurtbox(1).is_none());
}

#[test]
fn intersect_candidates_are_those_around_the_hitbox() {
    let world = world_with(&[
        (1, square(2), at(0, 0), 1, true),
        (2, square(2), at(10, 10), 1, true),
        (3, square(2), at(100, 100), 1, true),
        (4, square(2), at(5, 5), 2, true),
    ]);
    let hitbox = Shape::Circle(Circle::new(3));
    let candidates = world.intersect_candidates(Collider::new(&hitbox, at(4, 4)), &(1, ()));
    assert_eq!(sorted(candidates), vec![1, 2]);
    assert_eq!(
        world.check_intersection(Collider::new(&hitbox, at(4, 4)), &(1, ())),
        vec![1]
    );
    let far = world.intersect_candidates(Collider::new(&hitbox, at(-100, 4)), &(1, ()));
    assert!(far.is_empty());
}

/// Discs that move among boxes.
struct DiscsAmongBoxes;

impl ColliderGroup for DiscsAmongBoxes {
    type Hitbox = Circle;
    type Hurtbox = Rectangle;
    type Filter = Monitorable;
}

#[test]
fn group_with_shapes_of_its_own() {
    let mut world = CollisionWorld::<DiscsAmongBoxes>::new(8);
    let wall = Rectangle::new(UVec2::new(10, 1));
    assert_eq!(world.register_hurtbox(1, wall, true), Ok(()));
    assert_eq!(world.register_hurtbox(2, wall, false), Ok(()));
    assert_eq!(world.place_hurtbox(1, at(0, 10)), Ok(()));
    assert_eq!(world.place_hurtbox(2, at(0, -10)), Ok(()));
    let disc = Circle::new(4);
    assert_eq!(
        world.check_intersection(Collider::new(&disc, at(0, 5)), &()),
        vec![1]
    );
    assert!(world
        .check_intersection(Collider::new(&disc, at(0, 4)), &())
        .is_empty());
    assert!(world
        .check_intersection(Collider::new(&disc, at(0, -5)), &())
        .is_empty());
    assert_eq!(
        world.check_intersection(Collider::new(&disc, at(13, 13)), &()),
        vec![1]
    );
    assert!(world
        .check_intersection(Collider::new(&disc, at(14, 13)), &())
        .is_empty());
    assert_eq!(
        world.cast_candidates(Collider::new(&disc, at(0, -40)), at(0, 80), &()),
        vec![1]
    );
    assert!(world.set_filter_param(2, true));
    assert_eq!(
        sorted(world.cast_candidates(Collider::new(&disc, at(0, -40)), at(0, 80), &())),
        vec![1, 2]
    );
}
