//! Collision layers: which hitboxes and hurtboxes may interact at all.

use vstd::prelude::*;

verus! {

/// A value that says which layers a collider lives on, and with it which
/// other colliders it may meet.
pub trait CollisionLayer {
    /// Whether colliders on `self` and on `other` interact.
    spec fn collides_spec(&self, other: &Self) -> bool;

    /// Whether colliders on `self` and on `other` interact.
    fn collides(&self, other: &Self) -> (r: bool)
        ensures
            r == self.collides_spec(other),
    ;
}

/// A [`CollisionLayer`], for code that speaks of physics layers.
pub trait PhysicsLayer: CollisionLayer {

}

impl<T: CollisionLayer> PhysicsLayer for T {

}

/// The one layer on which everything meets everything.
impl CollisionLayer for () {
    open spec fn collides_spec(&self, other: &Self) -> bool {
        true
    }

    #[inline(always)]
    fn collides(&self, _other: &Self) -> (r: bool) {
        true
    }
}

/// A mask of 8 layers: two masks interact when they share a bit.
impl CollisionLayer for u8 {
    open spec fn collides_spec(&self, other: &Self) -> bool {
        *self & *other != 0
    }

    #[inline(always)]
    fn collides(&self, other: &Self) -> (r: bool) {
        *self & *other != 0
    }
}

/// A mask of 16 layers: two masks interact when they share a bit.
impl CollisionLayer for u16 {
    open spec fn collides_spec(&self, other: &Self) -> bool {
        *self & *other != 0
    }

    #[inline(always)]
    fn collides(&self, other: &Self) -> (r: bool) {
        *self & *other != 0
    }
}

/// A mask of 32 layers: two masks interact when they share a bit.
impl CollisionLayer for u32 {
    open spec fn collides_spec(&self, other: &Self) -> bool {
        *self & *other != 0
    }

    #[inline(always)]
    fn collides(&self, other: &Self) -> (r: bool) {
        *self & *other != 0
    }
}

/// A mask of 64 layers: two masks interact when they share a bit.
impl CollisionLayer for u64 {
    open spec fn collides_spec(&self, other: &Self) -> bool {
        *self & *other != 0
    }

    #[inline(always)]
    fn collides(&self, other: &Self) -> (r: bool) {
        *self & *other != 0
    }
}

/// A mask of 128 layers: two masks interact when they share a bit.
impl CollisionLayer for u128 {
    open spec fn collides_spec(&self, other: &Self) -> bool {
        *self & *other != 0
    }

    #[inline(always)]
    fn collides(&self, other: &Self) -> (r: bool) {
        *self & *other != 0
    }
}

/// A mask as wide as a pointer: two masks interact when they share a bit.
impl CollisionLayer for usize {
    open spec fn collides_spec(&self, other: &Self) -> bool {
        *self & *other != 0
    }

    #[inline(always)]
    fn collides(&self, other: &Self) -> (r: bool) {
        *self & *other != 0
    }
}

/// Sharing a bit is mutual, a mask meets itself unless it is empty, and an
/// empty mask meets nothing.
pub proof fn lemma_mask_collides(a: u64, b: u64)
    ensures
        a.collides_spec(&b) == b.collides_spec(&a),
        a.collides_spec(&a) == (a != 0),
        !a.collides_spec(&0u64),
{
    assert(a & b == b & a) by (bit_vector);
    assert(a & a == a) by (bit_vector);
    assert(a & 0u64 == 0) by (bit_vector);
}

} // verus!
