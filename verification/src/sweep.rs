//! Sweeps through a world of shapes without rounded parts: what a hitbox
//! meets on its way, and what it meets first.

use crate::bounded::{extent_box, Bounded, Extent, IVec2, Primitive2d};
use crate::cast::{axis_meets, meets_at, BoxShaped, ColliderCast, Normal, Ratio};
use crate::collider::Collider;
use crate::filter::SpatialQueryFilter;
use crate::index_laws::inhabited;
use crate::spatial_index::members_on;
use crate::world::{
    kept_each, kept_once, lemma_kept_each, lemma_kept_each_no_duplicates, swept_aabb,
    CollisionWorld,
};
use crate::{HitboxParam, SpatialIndexColliderGroup};
use vstd::prelude::*;

verus! {

/// A hurtbox that a hitbox meets on its way: the part of the way at which it
/// meets it, the side that it meets, and the handle of the hurtbox.
#[derive(Clone, Copy, Debug, PartialEq, Eq, Structural, Hash)]
pub struct SweepHit {
    pub time: Ratio,
    pub normal: Normal,
    pub entity: u64,
}

/// Whether the first of two times, each a ratio with a positive denominator,
/// comes no later than the second.
pub open spec fn no_later(first: Ratio, second: Ratio) -> bool {
    first.numerator * second.denominator <= second.numerator * first.denominator
}

/// Among the hits of a sweep, the one at which the movement ends: the last of
/// those at the earliest time; `None` where there is no hit.
pub fn earliest_hit(hits: &Vec<SweepHit>) -> (r: Option<usize>)
    requires
        forall|k: int| 0 <= k < hits@.len() ==> (#[trigger] hits@[k]).time.denominator > 0,
    ensures
        r is None <==> hits@.len() == 0,
        r matches Some(i) ==> {
            &&& i < hits@.len()
            &&& forall|k: int| 0 <= k < hits@.len() ==> no_later(hits@[i as int].time, #[trigger] hits@[k].time)
            &&& forall|k: int| i < k < hits@.len() ==> !no_later(#[trigger] hits@[k].time, hits@[i as int].time)
        },
{
    if hits.len() == 0 {
        return None;
    }
    let mut best: usize = 0;
    let mut k: usize = 1;
    proof {
        lemma_no_later_is_an_order(hits@[0].time, hits@[0].time, hits@[0].time);
    }
    while k < hits.len()
        invariant
            1 <= k <= hits@.len(),
            best < k,
            forall|at: int| 0 <= at < hits@.len() ==> (#[trigger] hits@[at]).time.denominator > 0,
            forall|at: int| 0 <= at < k ==> no_later(hits@[best as int].time, #[trigger] hits@[at].time),
            forall|at: int| best < at < k ==> !no_later(#[trigger] hits@[at].time, hits@[best as int].time),
        decreases hits@.len() - k,
    {
        let here = hits[k].time;
        let least = hits[best].time;
        proof {
            assert(here.numerator * least.denominator <= u128::MAX && least.numerator
                * here.denominator <= u128::MAX) by (nonlinear_arith)
                requires
                    here.numerator <= u64::MAX,
                    here.denominator <= u64::MAX,
                    least.numerator <= u64::MAX,
                    least.denominator <= u64::MAX,
            ;
        }
        let comes_first = (here.numerator as u128) * (least.denominator as u128) <= (
        least.numerator as u128) * (here.denominator as u128);
        proof {
            if comes_first {
                assert forall|at: int| 0 <= at < k + 1 implies no_later(here, #[trigger] hits@[at].time) by {
                    if at < k {
                        lemma_no_later_is_an_order(here, least, hits@[at].time);
                    } else {
                        lemma_no_later_is_an_order(here, here, here);
                    }
                }
            } else {
                lemma_no_later_is_an_order(least, here, here);
            }
        }
        if comes_first {
            best = k;
        }
        k += 1;
    }
    Some(best)
}

/// Of times with positive denominators, each comes no later than itself, of
/// any two one comes no later than the other, and "no later" carries over a
/// time in between.
proof fn lemma_no_later_is_an_order(a: Ratio, b: Ratio, c: Ratio)
    by (nonlinear_arith)
    requires
        a.denominator > 0,
        b.denominator > 0,
        c.denominator > 0,
    ensures
        no_later(a, a),
        no_later(a, b) || no_later(b, a),
        no_later(a, b) && no_later(b, c) ==> no_later(a, c),
{
    let (an, ad) = (a.numerator as int, a.denominator as int);
    let (bn, bd) = (b.numerator as int, b.denominator as int);
    let (cn, cd) = (c.numerator as int, c.denominator as int);
    if an * bd <= bn * ad && bn * cd <= cn * bd {
        assert(an * bd * cd <= bn * ad * cd);
        assert(bn * cd * ad <= cn * bd * ad);
        assert((an * cd) * bd <= (cn * ad) * bd);
    }
}

/// A shape that meets another on its way has a box that overlaps the other's
/// somewhere between the start and the end of the way.
pub proof fn lemma_met_within_swept_box(
    a: Extent,
    a_position: IVec2,
    b: Extent,
    b_position: IVec2,
    offset: IVec2,
    n: int,
    d: int,
)
    requires
        a.radius == 0,
        b.radius == 0,
        meets_at(a, a_position, b, b_position, offset, n, d),
    ensures
        extent_box(b).translated_spec(b_position).intersects_spec(
            swept_aabb(extent_box(a).translated_spec(a_position), offset),
        ),
        inhabited(extent_box(b).translated_spec(b_position)),
        inhabited(swept_aabb(extent_box(a).translated_spec(a_position), offset)),
{
    lemma_axis_within_swept(
        a_position.x - b_position.x,
        offset.x as int,
        a.half_width + b.half_width,
        n,
        d,
    );
    lemma_axis_within_swept(
        a_position.y - b_position.y,
        offset.y as int,
        a.half_height + b.half_height,
        n,
        d,
    );
}

/// Along one axis, a position that lies within a stretch at some time of its
/// movement lies, at the start or at the end, no further than the stretch
/// reaches on either side.
proof fn lemma_axis_within_swept(q: int, v: int, reach: int, n: int, d: int)
    by (nonlinear_arith)
    requires
        d > 0,
        0 <= n <= d,
        axis_meets(q, v, reach, n, d),
    ensures
        q <= reach || q + v <= reach,
        -reach <= q || -reach <= q + v,
{
    if v >= 0 {
        assert(n * v >= 0);
        assert(n * v <= d * v);
        assert(q * d <= reach * d);
        assert(-(reach * d) <= (q + v) * d);
    } else {
        assert(n * v <= 0);
        assert(n * v >= d * v);
        assert((q + v) * d <= reach * d);
        assert(-(reach * d) <= q * d);
    }
}

impl<Group: SpatialIndexColliderGroup> CollisionWorld<Group> where
    Group::Hitbox: BoxShaped,
    Group::Hurtbox: BoxShaped,
 {
    /// Whether the hitbox overlaps the hurtbox `entity` somewhere on its way
    /// by `offset`.
    pub open spec fn is_met(&self, entity: u64, hitbox: Collider<Group::Hitbox>, offset: IVec2) -> bool {
        exists|n: int, d: int| #[trigger]
            meets_at(
                hitbox.shape.extent_spec(),
                hitbox.position,
                self.hurtboxes()[entity].shape.extent_spec(),
                self.hurtboxes()[entity].registry.current_position_spec(),
                offset,
                n,
                d,
            )
    }

    /// Whether `hit` is where the hitbox first meets the hurtbox that it names.
    pub open spec fn is_hit(&self, hit: SweepHit, hitbox: Collider<Group::Hitbox>, offset: IVec2) -> bool {
        hitbox.shape.is_cast(
            hitbox.position,
            &self.hurtboxes()[hit.entity].shape,
            self.hurtboxes()[hit.entity].registry.current_position_spec(),
            offset,
            Some((hit.time, hit.normal)),
        )
    }

    /// The candidates of the broad phase for the way of the hitbox by `offset`.
    pub open spec fn candidates_on_the_way(
        &self,
        hitbox: Collider<Group::Hitbox>,
        offset: IVec2,
        hitbox_param: HitboxParam<Group>,
    ) -> Seq<u64> {
        kept_once(
            members_on(self.chunks(), swept_aabb(hitbox.bounding_spec(), offset), self.chunk_size()),
            |entity: u64| self.is_candidate(entity, hitbox_param),
        )
    }

    /// Every hurtbox that the hitbox meets on its way by `offset`, each once,
    /// with the time and the side at which it first meets it: the candidates
    /// of the broad phase for the way, without those that the hitbox does not
    /// meet.
    ///
    /// In a world that is in step, these are all the hurtboxes with a known
    /// position that the filter keeps and that the hitbox meets: however far
    /// the way, the broad phase lets none slip through.
    pub fn check_movement(
        &self,
        hitbox: Collider<Group::Hitbox>,
        offset: IVec2,
        hitbox_param: &HitboxParam<Group>,
    ) -> (r: Vec<SweepHit>)
        ensures
            r@.len() == kept_each(
                self.candidates_on_the_way(hitbox, offset, *hitbox_param),
                |entity: u64| self.is_met(entity, hitbox, offset),
            ).len(),
            forall|k: int|
                0 <= k < r@.len() ==> (#[trigger] r@[k]).entity == kept_each(
                    self.candidates_on_the_way(hitbox, offset, *hitbox_param),
                    |entity: u64| self.is_met(entity, hitbox, offset),
                )[k] && self.is_hit(r@[k], hitbox, offset) && r@[k].time.denominator > 0,
            forall|j: int, k: int|
                0 <= j < k < r@.len() ==> (#[trigger] r@[j]).entity != (#[trigger] r@[k]).entity,
            self.in_step() ==> forall|entity: u64|
                self.is_candidate(entity, *hitbox_param) && self.is_met(entity, hitbox, offset)
                    ==> exists|k: int| 0 <= k < r@.len() && (#[trigger] r@[k]).entity == entity,
    {
        let candidates = self.cast_candidates(hitbox, offset, hitbox_param);
        let ghost met = |entity: u64| self.is_met(entity, hitbox, offset);
        let mut hits: Vec<SweepHit> = Vec::new();
        let mut i: usize = 0;
        while i < candidates.len()
            invariant
                i <= candidates@.len(),
                met == (|entity: u64| self.is_met(entity, hitbox, offset)),
                forall|entity: u64| #[trigger]
                    candidates@.contains(entity) ==> self.is_candidate(entity, *hitbox_param),
                hits@.len() == kept_each(candidates@.take(i as int), met).len(),
                forall|k: int|
                    0 <= k < hits@.len() ==> (#[trigger] hits@[k]).entity == kept_each(
                        candidates@.take(i as int),
                        met,
                    )[k] && self.is_hit(hits@[k], hitbox, offset) && hits@[k].time.denominator > 0,
            decreases candidates@.len() - i,
        {
            let entity = candidates[i];
            assert(candidates@.take(i + 1).drop_last() == candidates@.take(i as int));
            assert(candidates@.contains(entity));
            match self.hurtbox(entity) {
                Some(hurtbox) => {
                    match hitbox.shape.cast(
                        hitbox.position,
                        &hurtbox.shape,
                        hurtbox.registry.current_position(),
                        offset,
                    ) {
                        Some((time, normal)) => {
                            assert(self.is_met(entity, hitbox, offset)) by {
                                assert(meets_at(
                                    hitbox.shape.extent_spec(),
                                    hitbox.position,
                                    hurtbox.shape.extent_spec(),
                                    hurtbox.registry.current_position_spec(),
                                    offset,
                                    time.numerator as int,
                                    time.denominator as int,
                                ));
                            }
                            hits.push(SweepHit { time, normal, entity });
                        },
                        None => {
                            assert(!self.is_met(entity, hitbox, offset));
                        },
                    }
                },
                None => {},
            }
            i += 1;
        }
        proof {
            assert(candidates@.take(candidates@.len() as int) == candidates@);
            let kept = kept_each(candidates@, met);
            lemma_kept_each(candidates@, met);
            lemma_kept_each_no_duplicates(candidates@, met);
            if self.in_step() {
                assert forall|entity: u64|
                    self.is_candidate(entity, *hitbox_param) && self.is_met(
                        entity,
                        hitbox,
                        offset,
                    ) implies exists|k: int| 0 <= k < hits@.len() && (#[trigger] hits@[k]).entity
                    == entity by {
                    let hurtbox = self.hurtboxes()[entity];
                    let (n, d) = choose|n: int, d: int| #[trigger]
                        meets_at(
                            hitbox.shape.extent_spec(),
                            hitbox.position,
                            hurtbox.shape.extent_spec(),
                            hurtbox.registry.current_position_spec(),
                            offset,
                            n,
                            d,
                        );
                    hitbox.shape.lemma_no_radius();
                    hurtbox.shape.lemma_no_radius();
                    lemma_met_within_swept_box(
                        hitbox.shape.extent_spec(),
                        hitbox.position,
                        hurtbox.shape.extent_spec(),
                        hurtbox.registry.current_position_spec(),
                        offset,
                        n,
                        d,
                    );
                    self.lemma_registered_box(entity);
                    assert(candidates@.contains(entity));
                    assert(kept.contains(entity));
                    let k = choose|k: int| 0 <= k < kept.len() && kept[k] == entity;
                    assert(hits@[k].entity == entity);
                }
            }
        }
        hits
    }

    /// The hurtbox that the hitbox meets first on its way by `offset`: of all
    /// that [`Self::check_movement`] finds, the one at the earliest time, and
    /// among several at that time the last; `None` where the way is clear.
    pub fn first_contact(
        &self,
        hitbox: Collider<Group::Hitbox>,
        offset: IVec2,
        hitbox_param: &HitboxParam<Group>,
    ) -> (r: Option<SweepHit>)
        ensures
            r matches Some(hit) ==> {
                &&& self.is_candidate(hit.entity, *hitbox_param)
                &&& self.is_hit(hit, hitbox, offset)
                &&& hit.time.denominator > 0
            },
            self.in_step() ==> {
                &&& r is None ==> forall|entity: u64|
                    self.is_candidate(entity, *hitbox_param) ==> !self.is_met(entity, hitbox, offset)
                &&& r matches Some(hit) ==> forall|entity: u64, n: int, d: int|
                    self.is_candidate(entity, *hitbox_param) && #[trigger] meets_at(
                        hitbox.shape.extent_spec(),
                        hitbox.position,
                        self.hurtboxes()[entity].shape.extent_spec(),
                        self.hurtboxes()[entity].registry.current_position_spec(),
                        offset,
                        n,
                        d,
                    ) ==> hit.time.numerator * d <= n * hit.time.denominator
            },
    {
        let hits = self.check_movement(hitbox, offset, hitbox_param);
        proof {
            let candidates = self.candidates_on_the_way(hitbox, offset, *hitbox_param);
            let met = |entity: u64| self.is_met(entity, hitbox, offset);
            lemma_kept_each(candidates, met);
            crate::world::lemma_kept_once(
                members_on(self.chunks(), swept_aabb(hitbox.bounding_spec(), offset), self.chunk_size()),
                |entity: u64| self.is_candidate(entity, *hitbox_param),
            );
            assert forall|k: int| 0 <= k < hits@.len() implies self.is_candidate(
                (#[trigger] hits@[k]).entity,
                *hitbox_param,
            ) by {
                assert(kept_each(candidates, met).contains(kept_each(candidates, met)[k]));
            }
        }
        match earliest_hit(&hits) {
            Some(i) => {
                let hit = hits[i];
                proof {
                    if self.in_step() {
                        assert forall|entity: u64, n: int, d: int|
                            self.is_candidate(entity, *hitbox_param) && #[trigger] meets_at(
                                hitbox.shape.extent_spec(),
                                hitbox.position,
                                self.hurtboxes()[entity].shape.extent_spec(),
                                self.hurtboxes()[entity].registry.current_position_spec(),
                                offset,
                                n,
                                d,
                            ) implies hit.time.numerator * d <= n * hit.time.denominator by {
                            assert(self.is_met(entity, hitbox, offset));
                            let k = choose|k: int|
                                0 <= k < hits@.len() && (#[trigger] hits@[k]).entity == entity;
                            let other = hits@[k];
                            assert(self.is_hit(other, hitbox, offset));
                            assert(other.time.numerator * d <= n * other.time.denominator);
                            assert(no_later(hit.time, other.time));
                            lemma_comes_before(hit.time, other.time, n, d);
                        }
                    }
                }
                Some(hit)
            },
            None => None,
        }
    }
}

/// A time that comes no later than another comes no later than any time that
/// the other comes no later than.
proof fn lemma_comes_before(first: Ratio, second: Ratio, n: int, d: int)
    by (nonlinear_arith)
    requires
        first.denominator > 0,
        second.denominator > 0,
        d > 0,
        no_later(first, second),
        second.numerator * d <= n * second.denominator,
    ensures
        first.numerator * d <= n * first.denominator,
{
    let (an, ad) = (first.numerator as int, first.denominator as int);
    let (bn, bd) = (second.numerator as int, second.denominator as int);
    assert(an * bd * d <= bn * ad * d);
    assert(bn * d * ad <= n * bd * ad);
    assert((an * d) * bd <= (n * ad) * bd);
}

} // verus!
