//! Filters of the broad phase: what a hitbox and a hurtbox each bring to a
//! query, and the rule that decides from the two whether they may meet.

use crate::layer::CollisionLayer;
use vstd::prelude::*;

verus! {

/// A rule that decides, from one value on the hitbox's side and one on the
/// hurtbox's side, whether the hurtbox is a candidate for the hitbox.
pub trait SpatialQueryFilter {
    /// What the hitbox brings to the decision.
    type HitboxParam;

    /// What each hurtbox brings to the decision.
    type HurtboxParam;

    /// Whether the hurtbox is kept.
    spec fn keeps(hitbox_data: Self::HitboxParam, hurtbox_data: Self::HurtboxParam) -> bool;

    /// Whether the hurtbox is kept.
    fn filter(hitbox_data: &Self::HitboxParam, hurtbox_data: &Self::HurtboxParam) -> (r: bool)
        ensures
            r == Self::keeps(*hitbox_data, *hurtbox_data),
    ;
}

/// Keeps the hurtboxes whose layer interacts with the hitbox's.
pub struct Layer<L: CollisionLayer>(pub L);

impl<L: CollisionLayer> SpatialQueryFilter for Layer<L> {
    type HitboxParam = L;

    type HurtboxParam = L;

    open spec fn keeps(hitbox_data: L, hurtbox_data: L) -> bool {
        hitbox_data.collides_spec(&hurtbox_data)
    }

    fn filter(hitbox_data: &L, hurtbox_data: &L) -> (r: bool) {
        hitbox_data.collides(hurtbox_data)
    }
}

/// Keeps the hurtboxes that can currently be detected.
pub struct Monitorable;

impl SpatialQueryFilter for Monitorable {
    type HitboxParam = ();

    type HurtboxParam = bool;

    open spec fn keeps(hitbox_data: (), hurtbox_data: bool) -> bool {
        hurtbox_data
    }

    #[inline]
    fn filter(_hitbox_data: &(), hurtbox_data: &bool) -> (r: bool) {
        *hurtbox_data
    }
}

/// Keeps every hurtbox while the hitbox is detecting, and none while it is not.
pub struct Monitoring;

impl SpatialQueryFilter for Monitoring {
    type HitboxParam = bool;

    type HurtboxParam = ();

    open spec fn keeps(hitbox_data: bool, hurtbox_data: ()) -> bool {
        hitbox_data
    }

    #[inline]
    fn filter(hitbox_data: &bool, _hurtbox_data: &()) -> (r: bool) {
        *hitbox_data
    }
}

/// Two filters at once: a hurtbox is kept when both keep it.
impl<A: SpatialQueryFilter, B: SpatialQueryFilter> SpatialQueryFilter for (A, B) {
    type HitboxParam = (A::HitboxParam, B::HitboxParam);

    type HurtboxParam = (A::HurtboxParam, B::HurtboxParam);

    open spec fn keeps(hitbox_data: Self::HitboxParam, hurtbox_data: Self::HurtboxParam) -> bool {
        A::keeps(hitbox_data.0, hurtbox_data.0) && B::keeps(hitbox_data.1, hurtbox_data.1)
    }

    fn filter(hitbox_data: &Self::HitboxParam, hurtbox_data: &Self::HurtboxParam) -> (r: bool) {
        A::filter(&hitbox_data.0, &hurtbox_data.0) && B::filter(&hitbox_data.1, &hurtbox_data.1)
    }
}

} // verus!
