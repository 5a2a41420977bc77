//! A verified kernel for 2D collision detection on an integer grid: bounding
//! boxes, a chunked spatial index, the broad phase that prunes candidates, and
//! the policies that turn a detected contact into a corrected movement.

pub mod bounded;
pub mod cast;
pub mod collider;
pub mod filter;
pub mod index_laws;
pub mod layer;
pub mod response;
pub mod running_response;
pub mod spatial_index;
pub mod sweep;
pub mod utils;
pub mod world;

use crate::bounded::Primitive2d;
use crate::filter::SpatialQueryFilter;
use crate::world::CollisionWorld;
use vstd::prelude::*;

verus! {

/// The steps of a pass of collision detection, in the order in which a host
/// is to run them: what brings the world up to date, then the queries, then
/// what follows from their findings.
#[derive(Debug, Clone, Copy, PartialEq, Eq, Structural, Hash)]
pub enum CollisionDetectionSet {
    First,
    Colliding,
    Last,
}

/// Trait allows for easier to read generic code
pub trait ColliderGroup: Sized {
    /// Actor that is colliding
    type Hitbox: Primitive2d;

    /// Bodies that generate collisions and usually stop actor's movement
    type Hurtbox: Primitive2d;

    /// What decides which hurtboxes of the group a hitbox may meet
    type Filter: SpatialQueryFilter;
}

/// What a hitbox of the group brings to the group's filter.
pub type HitboxParam<Group> = <<Group as ColliderGroup>::Filter as SpatialQueryFilter>::HitboxParam;

/// What a hurtbox of the group brings to the group's filter.
pub type HurtboxParam<Group> = <<Group as ColliderGroup>::Filter as SpatialQueryFilter>::HurtboxParam;

/// What holds the hurtboxes of a group and finds them.
pub trait CollisionImplementation<Group: ColliderGroup> {

}

/// A group whose hurtboxes a spatial index can find: every shape of such a
/// group has a bounding box.
pub trait SpatialIndexColliderGroup: ColliderGroup {

}

impl<T: ColliderGroup> SpatialIndexColliderGroup for T {

}

impl<Group: ColliderGroup> CollisionImplementation<Group> for CollisionWorld<Group> {

}

} // verus!
