//! The registered hurtboxes, the index that is kept in step with them, and
//! the broad phase that hands a hitbox its candidates.

use crate::bounded::{aabb_of, Aabb2d, Bounded, IVec2, Primitive2d};
use crate::{ColliderGroup, HitboxParam, HurtboxParam, SpatialIndexColliderGroup};
use crate::collider::{Collider, ColliderInteraction};
use crate::filter::SpatialQueryFilter;
use crate::index_laws::{
    lemma_add_reflects, lemma_intersecting_spans_overlap, lemma_no_chunks_reflect_nothing,
    lemma_query_reflects, lemma_remove_reflects, reflects, spans_overlap,
};
use crate::spatial_index::{members_on, with_entity, without_entity, SpatialIndex};
use std::collections::HashMap;
use vstd::prelude::*;

verus! {

broadcast use vstd::std_specs::hash::group_hash_axioms;

/// Where a hurtbox stands in the index: the box around its shape and its
/// position, as they are now and as they were before the last change. A
/// registry that is not valid belongs to a hurtbox whose position is not known
/// yet, and that is in no chunk.
#[derive(Clone, Copy, Debug, PartialEq, Eq, Structural)]
pub struct SpatialIndexRegistry {
    valid: bool,
    current_shape_bounding: Aabb2d,
    current_position: IVec2,
    last_shape_bounding: Aabb2d,
    last_position: IVec2,
}

impl SpatialIndexRegistry {
    /// Whether the position is known.
    pub closed spec fn is_valid_spec(&self) -> bool {
        self.valid
    }

    /// The box around the shape, where the shape stands now.
    pub closed spec fn global_aabb_spec(&self) -> Aabb2d {
        self.current_shape_bounding.translated_spec(self.current_position)
    }

    /// The box around the shape, where the shape stood before the last change.
    pub closed spec fn global_last_aabb_spec(&self) -> Aabb2d {
        self.last_shape_bounding.translated_spec(self.last_position)
    }

    /// The box around the shape at the origin.
    pub closed spec fn current_shape_bounding_spec(&self) -> Aabb2d {
        self.current_shape_bounding
    }

    /// The position of the shape.
    pub closed spec fn current_position_spec(&self) -> IVec2 {
        self.current_position
    }

    /// Creates a new instance that is not valid: the registry of a hurtbox whose
    /// position is not known yet. Its boxes hold the origin alone, and there it is.
    pub fn not_valid() -> (r: Self)
        ensures
            !r.is_valid_spec(),
            r.current_position_spec() == (IVec2 { x: 0, y: 0 }),
            r.current_shape_bounding_spec() == (Aabb2d {
                min: crate::bounded::I64Vec2 { x: 0, y: 0 },
                max: crate::bounded::I64Vec2 { x: 0, y: 0 },
            }),
            r.global_aabb_spec() == r.current_shape_bounding_spec(),
            r.global_last_aabb_spec() == r.current_shape_bounding_spec(),
    {
        let nowhere = Aabb2d::new(crate::bounded::I64Vec2::new(0, 0), crate::bounded::I64Vec2::new(0, 0));
        Self {
            valid: false,
            current_shape_bounding: nowhere,
            current_position: IVec2::new(0, 0),
            last_shape_bounding: nowhere,
            last_position: IVec2::new(0, 0),
        }
    }

    /// The registry of a hurtbox that has just been given its first position:
    /// what was before is what is now.
    pub fn placed(shape_bounding: Aabb2d, position: IVec2) -> (r: Self)
        ensures
            r.is_valid_spec(),
            r.current_shape_bounding_spec() == shape_bounding,
            r.current_position_spec() == position,
            r.global_aabb_spec() == shape_bounding.translated_spec(position),
            r.global_last_aabb_spec() == r.global_aabb_spec(),
    {
        Self {
            valid: true,
            current_shape_bounding: shape_bounding,
            current_position: position,
            last_shape_bounding: shape_bounding,
            last_position: position,
        }
    }

    /// Whether the position is known.
    pub fn is_valid(&self) -> (r: bool)
        ensures
            r == self.is_valid_spec(),
    {
        self.valid
    }

    pub(crate) fn global_last_aabb(&self) -> (r: Aabb2d)
        ensures
            r == self.global_last_aabb_spec(),
    {
        self.last_shape_bounding.translated(self.last_position)
    }

    /// The box around the shape where it stands; `None` while the position is
    /// not known.
    #[inline]
    pub fn global_aabb(&self) -> (r: Option<Aabb2d>)
        ensures
            r == (if self.is_valid_spec() {
                Some(self.global_aabb_spec())
            } else {
                None
            }),
    {
        if self.valid {
            Some(self.current_shape_bounding.translated(self.current_position))
        } else {
            None
        }
    }

    #[inline]
    pub fn current_shape_bounding(&self) -> (r: Aabb2d)
        ensures
            r == self.current_shape_bounding_spec(),
    {
        self.current_shape_bounding
    }

    #[inline]
    pub fn current_position(&self) -> (r: IVec2)
        ensures
            r == self.current_position_spec(),
    {
        self.current_position
    }

    /// Takes in a new box and a new position: what was now becomes what was
    /// before.
    pub(crate) fn update(&mut self, new_shape_bounding: Aabb2d, new_position: IVec2)
        ensures
            final(self).is_valid_spec() == old(self).is_valid_spec(),
            final(self).current_shape_bounding_spec() == new_shape_bounding,
            final(self).current_position_spec() == new_position,
            final(self).global_aabb_spec() == new_shape_bounding.translated_spec(new_position),
            final(self).global_last_aabb_spec() == old(self).global_aabb_spec(),
    {
        self.last_position = self.current_position;
        self.last_shape_bounding = self.current_shape_bounding;
        self.current_position = new_position;
        self.current_shape_bounding = new_shape_bounding;
    }
}

/// A registered hurtbox: its shape, what it brings to the filter, and where it
/// stands in the index.
pub struct Hurtbox<Group: ColliderGroup> {
    pub shape: Group::Hurtbox,
    pub param: HurtboxParam<Group>,
    pub registry: SpatialIndexRegistry,
}

/// Why a hurtbox could not be registered, placed or moved.
#[derive(Clone, Copy, Debug, PartialEq, Eq, Structural)]
pub enum RegistrationError {
    /// The handle is registered already.
    AlreadyRegistered,
    /// The handle was never registered, or was removed.
    NotRegistered,
    /// The hurtbox has its first position already.
    AlreadyPlaced,
    /// The hurtbox has no position yet.
    NotPlaced,
}

/// The box that a hitbox passes through on its way: the box around it where
/// it stands, merged with that box moved by `offset`.
pub open spec fn swept_aabb(aabb: Aabb2d, offset: IVec2) -> Aabb2d {
    aabb.merge_spec(aabb.translated_spec(offset))
}

/// The handles that a query has met: a hash set of the `bevy` crate.
#[verifier::external_body]
pub struct SeenSet {
    inner: bevy::utils::HashSet<u64>,
}

/// What a [`SeenSet`] holds.
pub uninterp spec fn seen_set_contents(set: SeenSet) -> Set<u64>;

/// `HashSet::default`: a set without handles.
#[verifier::external_body]
fn seen_set_new() -> (set: SeenSet)
    ensures
        seen_set_contents(set) =~= Set::empty(),
{
    SeenSet { inner: bevy::utils::HashSet::default() }
}

/// `HashSet::insert`: adds the handle, and says whether it was new to the set.
#[verifier::external_body]
fn seen_set_insert(set: &mut SeenSet, entity: u64) -> (fresh: bool)
    ensures
        fresh == !seen_set_contents(*old(set)).contains(entity),
        seen_set_contents(*final(set)) == seen_set_contents(*old(set)).insert(entity),
{
    set.inner.insert(entity)
}

/// The handles among `found` of which `keep` holds, each once, in the order in
/// which they first stand in `found`.
pub open spec fn kept_once(found: Seq<u64>, keep: spec_fn(u64) -> bool) -> Seq<u64>
    decreases found.len(),
{
    if found.len() == 0 {
        Seq::empty()
    } else {
        let before = kept_once(found.drop_last(), keep);
        if keep(found.last()) && !found.drop_last().contains(found.last()) {
            before.push(found.last())
        } else {
            before
        }
    }
}

/// The handles among `found` of which `keep` holds, as often and in the order
/// as they stand in `found`.
pub open spec fn kept_each(found: Seq<u64>, keep: spec_fn(u64) -> bool) -> Seq<u64>
    decreases found.len(),
{
    if found.len() == 0 {
        Seq::empty()
    } else {
        let before = kept_each(found.drop_last(), keep);
        if keep(found.last()) {
            before.push(found.last())
        } else {
            before
        }
    }
}

/// What is kept once holds no handle twice, and holds a handle exactly when it
/// was found and is to be kept.
pub proof fn lemma_kept_once(found: Seq<u64>, keep: spec_fn(u64) -> bool)
    ensures
        kept_once(found, keep).no_duplicates(),
        forall|entity: u64| #[trigger]
            kept_once(found, keep).contains(entity) <==> found.contains(entity) && keep(entity),
    decreases found.len(),
{
    if found.len() > 0 {
        let front = found.drop_last();
        let before = kept_once(front, keep);
        let after = kept_once(found, keep);
        lemma_kept_once(front, keep);
        assert forall|entity: u64| #[trigger]
            after.contains(entity) <==> found.contains(entity) && keep(entity) by {
            assert(before.contains(entity) <==> front.contains(entity) && keep(entity));
            if found.contains(entity) {
                let k = choose|k: int| 0 <= k < found.len() && found[k] == entity;
                if k < front.len() {
                    assert(front[k] == entity);
                }
            }
            if front.contains(entity) {
                let k = choose|k: int| 0 <= k < front.len() && front[k] == entity;
                assert(found[k] == entity);
            }
            if before.contains(entity) {
                let k = choose|k: int| 0 <= k < before.len() && before[k] == entity;
                if after.len() > before.len() {
                    assert(after[k] == entity);
                }
            }
            if after.contains(entity) {
                let k = choose|k: int| 0 <= k < after.len() && after[k] == entity;
                if k < before.len() {
                    assert(before[k] == entity);
                } else {
                    assert(entity == found.last());
                }
            }
            assert(found[found.len() - 1] == found.last());
            if after.len() > before.len() {
                assert(after[before.len() as int] == found.last());
            }
        }
        assert forall|i: int, j: int| 0 <= i < after.len() && 0 <= j < after.len() && i != j implies after[i]
            != after[j] by {
            if after.len() > before.len() {
                if i == before.len() {
                    assert(before[j] == after[j]);
                    assert(before.contains(after[j]));
                }
                if j == before.len() {
                    assert(before[i] == after[i]);
                    assert(before.contains(after[i]));
                }
            }
        }
    }
}

/// What is kept each time it was found holds a handle exactly when it was
/// found and is to be kept.
pub proof fn lemma_kept_each(found: Seq<u64>, keep: spec_fn(u64) -> bool)
    ensures
        forall|entity: u64| #[trigger]
            kept_each(found, keep).contains(entity) <==> found.contains(entity) && keep(entity),
    decreases found.len(),
{
    if found.len() > 0 {
        let front = found.drop_last();
        let before = kept_each(front, keep);
        let after = kept_each(found, keep);
        lemma_kept_each(front, keep);
        assert forall|entity: u64| #[trigger]
            after.contains(entity) <==> found.contains(entity) && keep(entity) by {
            assert(before.contains(entity) <==> front.contains(entity) && keep(entity));
            if found.contains(entity) {
                let k = choose|k: int| 0 <= k < found.len() && found[k] == entity;
                if k < front.len() {
                    assert(front[k] == entity);
                }
            }
            if front.contains(entity) {
                let k = choose|k: int| 0 <= k < front.len() && front[k] == entity;
                assert(found[k] == entity);
            }
            if before.contains(entity) {
                let k = choose|k: int| 0 <= k < before.len() && before[k] == entity;
                if after.len() > before.len() {
                    assert(after[k] == entity);
                }
            }
            if after.contains(entity) {
                let k = choose|k: int| 0 <= k < after.len() && after[k] == entity;
                if k < before.len() {
                    assert(before[k] == entity);
                } else {
                    assert(entity == found.last());
                }
            }
            assert(found[found.len() - 1] == found.last());
            if after.len() > before.len() {
                assert(after[before.len() as int] == found.last());
            }
        }
    }
}

/// What is kept of handles without duplicates has no duplicates.
pub proof fn lemma_kept_each_no_duplicates(found: Seq<u64>, keep: spec_fn(u64) -> bool)
    requires
        found.no_duplicates(),
    ensures
        kept_each(found, keep).no_duplicates(),
    decreases found.len(),
{
    if found.len() > 0 {
        let front = found.drop_last();
        let before = kept_each(front, keep);
        let after = kept_each(found, keep);
        lemma_kept_each_no_duplicates(front, keep);
        lemma_kept_each(front, keep);
        assert forall|i: int, j: int| 0 <= i < after.len() && 0 <= j < after.len() && i != j implies after[i]
            != after[j] by {
            if after.len() > before.len() {
                if i == before.len() {
                    assert(before[j] == after[j]);
                    assert(before.contains(after[j]));
                    let k = choose|k: int| 0 <= k < front.len() && front[k] == after[j];
                    assert(found[k] == after[j]);
                }
                if j == before.len() {
                    assert(before[i] == after[i]);
                    assert(before.contains(after[i]));
                    let k = choose|k: int| 0 <= k < front.len() && front[k] == after[i];
                    assert(found[k] == after[i]);
                }
            }
        }
    }
}

/// The box around a shape where it stands holds its position, and none of its
/// corners stops at an end of the `i64` range.
proof fn lemma_extent_box_inhabited(extent: crate::bounded::Extent, position: IVec2)
    ensures
        crate::index_laws::inhabited(crate::bounded::extent_box(extent).translated_spec(position)),
        crate::bounded::extent_box(extent).translated_spec(position).holds(
            position.x as int,
            position.y as int,
        ),
{
}

/// Whether every hurtbox but `entity` is in `after` as it is in `before`.
pub open spec fn others_untouched<Group: ColliderGroup>(
    before: Map<u64, Hurtbox<Group>>,
    after: Map<u64, Hurtbox<Group>>,
    entity: u64,
) -> bool {
    forall|other: u64|
        other != entity && before.contains_key(other) ==> #[trigger] after[other] == before[other]
}

/// The hurtboxes that were registered, and the spatial index that finds them.
pub struct CollisionWorld<Group: ColliderGroup> {
    index: SpatialIndex,
    hurtboxes: HashMap<u64, Hurtbox<Group>>,
}

impl<Group: SpatialIndexColliderGroup> CollisionWorld<Group> {
    /// The chunks of the index.
    pub closed spec fn chunks(&self) -> Map<IVec2, Seq<u64>> {
        self.index@
    }

    /// The side of a chunk of the index.
    pub closed spec fn chunk_size(&self) -> u32 {
        self.index.chunk_size()
    }

    /// The registered hurtboxes by their handles.
    pub closed spec fn hurtboxes(&self) -> Map<u64, Hurtbox<Group>> {
        self.hurtboxes@
    }

    /// Whether `entity` is a registered hurtbox whose position is known.
    pub open spec fn is_active(&self, entity: u64) -> bool {
        self.hurtboxes().contains_key(entity) && self.hurtboxes()[entity].registry.is_valid_spec()
    }

    /// The hurtboxes whose position is known, each with the box around it where
    /// it stands.
    pub open spec fn registered(&self) -> Map<u64, Aabb2d> {
        Map::new(
            |entity: u64| self.is_active(entity),
            |entity: u64| self.hurtboxes()[entity].registry.global_aabb_spec(),
        )
    }

    /// Whether `entity` is a candidate for a hitbox that brings `hitbox_param`:
    /// a registered hurtbox whose position is known and that the filter keeps.
    pub open spec fn is_candidate(&self, entity: u64, hitbox_param: HitboxParam<Group>) -> bool {
        self.is_active(entity) && <Group::Filter as SpatialQueryFilter>::keeps(
            hitbox_param,
            self.hurtboxes()[entity].param,
        )
    }

    /// Whether the hurtbox `entity` overlaps the hitbox.
    pub open spec fn overlaps(&self, entity: u64, hitbox: Collider<Group::Hitbox>) -> bool {
        hitbox.shape.intersect_spec(
            hitbox.position,
            &self.hurtboxes()[entity].shape,
            self.hurtboxes()[entity].registry.current_position_spec(),
        )
    }

    /// The index holds the hurtboxes whose position is known, each with the box
    /// around its shape where it stands, and no others.
    pub open spec fn in_step(&self) -> bool {
        &&& reflects(self.chunks(), self.chunk_size(), self.registered())
        &&& forall|entity: u64|
            #![trigger self.hurtboxes()[entity]]
            self.is_active(entity) ==> self.hurtboxes()[entity].registry.current_shape_bounding_spec()
                == aabb_of(self.hurtboxes()[entity].shape)
    }

    /// A world without hurtboxes, with an index of chunks of `pixels_per_chunk`
    /// positions a side.
    pub fn new(pixels_per_chunk: u32) -> (r: Self)
        ensures
            r.in_step(),
            r.chunk_size() == pixels_per_chunk,
            r.hurtboxes() == Map::<u64, Hurtbox<Group>>::empty(),
    {
        let r = CollisionWorld { index: SpatialIndex::new(pixels_per_chunk), hurtboxes: HashMap::new() };
        proof {
            lemma_no_chunks_reflect_nothing(pixels_per_chunk);
            assert(r.registered() =~= Map::empty());
        }
        r
    }

    /// The registered hurtbox `entity`: its shape, what it brings to the
    /// filter, and where it stands; `None` where no such hurtbox is
    /// registered.
    pub fn hurtbox(&self, entity: u64) -> (r: Option<&Hurtbox<Group>>)
        ensures
            r matches Some(hurtbox) ==> self.hurtboxes().contains_key(entity) && *hurtbox
                == self.hurtboxes()[entity],
            r is None ==> !self.hurtboxes().contains_key(entity),
    {
        self.hurtboxes.get(&entity)
    }

    /// Coordinates of the chunk in which the `global` lies in.
    #[inline]
    pub fn global_to_chunk(&self, global: crate::bounded::I64Vec2) -> (r: IVec2)
        ensures
            r == crate::spatial_index::chunk_of(global, self.chunk_size()),
    {
        self.index.global_to_chunk(global)
    }

    /// The hurtboxes that a hitbox with the box `aabb` may meet: the handles
    /// of the chunks that `aabb` reaches into, without those that are not
    /// registered with a known position and those that the filter refuses.
    /// A handle comes as often as the chunks have it.
    pub fn collisions_on_layer_allow_duplication(
        &self,
        aabb: Aabb2d,
        hitbox_param: &HitboxParam<Group>,
    ) -> (r: Vec<u64>)
        ensures
            r@ == kept_each(
                members_on(self.chunks(), aabb, self.chunk_size()),
                |entity: u64| self.is_candidate(entity, *hitbox_param),
            ),
    {
        let found = self.index.iter_chunks_on_aabb(aabb);
        let ghost keep = |entity: u64| self.is_candidate(entity, *hitbox_param);
        let mut candidates: Vec<u64> = Vec::new();
        let mut i: usize = 0;
        while i < found.len()
            invariant
                i <= found@.len(),
                keep == (|entity: u64| self.is_candidate(entity, *hitbox_param)),
                candidates@ == kept_each(found@.take(i as int), keep),
            decreases found@.len() - i,
        {
            let entity = found[i];
            assert(found@.take(i + 1).drop_last() == found@.take(i as int));
            if self.passes(entity, hitbox_param) {
                candidates.push(entity);
            }
            i += 1;
        }
        assert(found@.take(found@.len() as int) == found@);
        candidates
    }

    /// The hurtboxes that a hitbox with the box `aabb` may meet, each once:
    /// the handles of the chunks that `aabb` reaches into, without those that
    /// are not registered with a known position and those that the filter
    /// refuses, in the order in which the chunks first hand them out.
    ///
    /// In a world that is in step, these are the hurtboxes with a known
    /// position that the filter keeps and whose box reaches into a chunk that
    /// `aabb` reaches into.
    pub fn collisions_on_layer(&self, aabb: Aabb2d, hitbox_param: &HitboxParam<Group>) -> (r: Vec<u64>)
        ensures
            r@ == kept_once(
                members_on(self.chunks(), aabb, self.chunk_size()),
                |entity: u64| self.is_candidate(entity, *hitbox_param),
            ),
            r@.no_duplicates(),
            forall|entity: u64| #[trigger] r@.contains(entity) ==> self.is_candidate(entity, *hitbox_param),
            self.in_step() ==> forall|entity: u64| #[trigger]
                r@.contains(entity) <==> self.is_candidate(entity, *hitbox_param) && spans_overlap(
                    self.registered()[entity],
                    aabb,
                    self.chunk_size(),
                ),
    {
        let found = self.index.iter_chunks_on_aabb(aabb);
        let ghost keep = |entity: u64| self.is_candidate(entity, *hitbox_param);
        let mut deduplication_set = seen_set_new();
        let mut candidates: Vec<u64> = Vec::new();
        let mut i: usize = 0;
        while i < found.len()
            invariant
                i <= found@.len(),
                keep == (|entity: u64| self.is_candidate(entity, *hitbox_param)),
                seen_set_contents(deduplication_set) == found@.take(i as int).to_set(),
                candidates@ == kept_once(found@.take(i as int), keep),
            decreases found@.len() - i,
        {
            let entity = found[i];
            assert(found@.take(i + 1).drop_last() == found@.take(i as int));
            assert(found@.take(i + 1).to_set() =~= found@.take(i as int).to_set().insert(entity)) by {
                assert(found@.take(i + 1) == found@.take(i as int).push(entity));
                vstd::seq_lib::lemma_seq_contains_after_push(found@.take(i as int), entity, entity);
                assert forall|other: u64|
                    found@.take(i + 1).contains(other) <==> found@.take(i as int).contains(other)
                        || other == entity by {
                    vstd::seq_lib::lemma_seq_contains_after_push(found@.take(i as int), entity, other);
                }
            }
            if seen_set_insert(&mut deduplication_set, entity) {
                if self.passes(entity, hitbox_param) {
                    candidates.push(entity);
                }
            }
            i += 1;
        }
        proof {
            assert(found@.take(found@.len() as int) == found@);
            lemma_kept_once(found@, keep);
            if self.in_step() {
                lemma_query_reflects(self.chunks(), self.chunk_size(), self.registered(), aabb);
            }
        }
        candidates
    }

    /// The hurtboxes that overlap the hitbox, each once: the candidates that
    /// the broad phase finds around the hitbox, without those whose shape does
    /// not overlap it where they stand.
    ///
    /// In a world that is in step, these are all the hurtboxes with a known
    /// position that the filter keeps and that overlap the hitbox: the broad
    /// phase loses none.
    pub fn check_intersection(
        &self,
        hitbox: Collider<Group::Hitbox>,
        hitbox_param: &HitboxParam<Group>,
    ) -> (r: Vec<u64>)
        ensures
            r@ == kept_each(
                kept_once(
                    members_on(self.chunks(), hitbox.bounding_spec(), self.chunk_size()),
                    |entity: u64| self.is_candidate(entity, *hitbox_param),
                ),
                |entity: u64| self.overlaps(entity, hitbox),
            ),
            r@.no_duplicates(),
            self.in_step() ==> forall|entity: u64| #[trigger]
                r@.contains(entity) <==> self.is_candidate(entity, *hitbox_param) && self.overlaps(
                    entity,
                    hitbox,
                ),
    {
        let candidates = self.intersect_candidates(hitbox, hitbox_param);
        let ghost aabb = hitbox.bounding_spec();
        let ghost found = members_on(self.chunks(), aabb, self.chunk_size());
        let ghost keep = |entity: u64| self.is_candidate(entity, *hitbox_param);
        let ghost hit = |entity: u64| self.overlaps(entity, hitbox);
        let mut overlapping: Vec<u64> = Vec::new();
        let mut i: usize = 0;
        proof {
            lemma_kept_once(found, keep);
        }
        while i < candidates.len()
            invariant
                i <= candidates@.len(),
                hit == (|entity: u64| self.overlaps(entity, hitbox)),
                keep == (|entity: u64| self.is_candidate(entity, *hitbox_param)),
                candidates@ == kept_once(found, keep),
                forall|entity: u64| #[trigger]
                    candidates@.contains(entity) <==> found.contains(entity) && keep(entity),
                overlapping@ == kept_each(candidates@.take(i as int), hit),
            decreases candidates@.len() - i,
        {
            let entity = candidates[i];
            assert(candidates@.take(i + 1).drop_last() == candidates@.take(i as int));
            assert(candidates@.contains(entity));
            assert(self.is_candidate(entity, *hitbox_param));
            match self.hurtboxes.get(&entity) {
                Some(hurtbox) => {
                    let other = Collider::new(&hurtbox.shape, hurtbox.registry.current_position());
                    if hitbox.intersect(other) {
                        overlapping.push(entity);
                    }
                },
                None => {},
            }
            i += 1;
        }
        proof {
            assert(candidates@.take(candidates@.len() as int) == candidates@);
            lemma_kept_each(candidates@, hit);
            lemma_kept_each_no_duplicates(candidates@, hit);
            if self.in_step() {
                self.lemma_overlapping_are_found(hitbox, *hitbox_param);
            }
        }
        overlapping
    }

    /// The hurtboxes that a hitbox may meet where it stands, each once: the
    /// candidates that the broad phase finds in the box around the hitbox.
    pub fn intersect_candidates(
        &self,
        hitbox: Collider<Group::Hitbox>,
        hitbox_param: &HitboxParam<Group>,
    ) -> (r: Vec<u64>)
        ensures
            r@ == kept_once(
                members_on(self.chunks(), hitbox.bounding_spec(), self.chunk_size()),
                |entity: u64| self.is_candidate(entity, *hitbox_param),
            ),
    {
        self.collisions_on_layer(hitbox.bounding(), hitbox_param)
    }

    /// The hurtboxes that a hitbox may meet on its way by `offset`, each once:
    /// the candidates that the broad phase finds in the box that the hitbox
    /// passes through.
    ///
    /// In a world that is in step, among them is every hurtbox with a known
    /// position that the filter keeps and whose box overlaps the box that the
    /// hitbox passes through, however far the way: a hitbox does not pass by a
    /// hurtbox unseen.
    pub fn cast_candidates(
        &self,
        hitbox: Collider<Group::Hitbox>,
        offset: IVec2,
        hitbox_param: &HitboxParam<Group>,
    ) -> (r: Vec<u64>)
        ensures
            r@ == kept_once(
                members_on(
                    self.chunks(),
                    swept_aabb(hitbox.bounding_spec(), offset),
                    self.chunk_size(),
                ),
                |entity: u64| self.is_candidate(entity, *hitbox_param),
            ),
            r@.no_duplicates(),
            forall|entity: u64| #[trigger] r@.contains(entity) ==> self.is_candidate(entity, *hitbox_param),
            self.in_step() ==> forall|entity: u64|
                #![trigger r@.contains(entity)]
                self.is_candidate(entity, *hitbox_param) && crate::index_laws::inhabited(
                    self.registered()[entity],
                ) && self.registered()[entity].intersects_spec(
                    swept_aabb(hitbox.bounding_spec(), offset),
                ) ==> r@.contains(entity),
    {
        let aabb1 = hitbox.bounding();
        let aabb2 = aabb1.translated(offset);
        let aabb = aabb1.merge(&aabb2);
        let candidates = self.collisions_on_layer(aabb, hitbox_param);
        proof {
            let found = members_on(self.chunks(), aabb, self.chunk_size());
            let keep = |entity: u64| self.is_candidate(entity, *hitbox_param);
            lemma_kept_once(found, keep);
            if self.in_step() {
                lemma_query_reflects(self.chunks(), self.chunk_size(), self.registered(), aabb);
                lemma_extent_box_inhabited(hitbox.shape.extent_spec(), hitbox.position);
                assert forall|entity: u64|
                    #![trigger candidates@.contains(entity)]
                    self.is_candidate(entity, *hitbox_param) && crate::index_laws::inhabited(
                        self.registered()[entity],
                    ) && self.registered()[entity].intersects_spec(aabb) implies candidates@.contains(
                    entity,
                ) by {
                    lemma_intersecting_spans_overlap(
                        self.registered()[entity],
                        aabb,
                        self.chunk_size(),
                    );
                    assert(found.contains(entity));
                }
            }
        }
        candidates
    }

    /// In a world that is in step, a hurtbox with a known position is
    /// registered with the box around its shape, moved to where it stands.
    pub proof fn lemma_registered_box(&self, entity: u64)
        requires
            self.in_step(),
            self.is_active(entity),
        ensures
            self.registered().contains_key(entity),
            self.registered()[entity] == aabb_of(self.hurtboxes()[entity].shape).translated_spec(
                self.hurtboxes()[entity].registry.current_position_spec(),
            ),
    {
    }

    /// In a world that is in step, the broad phase around a hitbox finds every
    /// hurtbox with a known position that overlaps the hitbox.
    proof fn lemma_overlapping_are_found(
        &self,
        hitbox: Collider<Group::Hitbox>,
        hitbox_param: HitboxParam<Group>,
    )
        requires
            self.in_step(),
        ensures
            forall|entity: u64|
                self.is_active(entity) && self.overlaps(entity, hitbox) ==> #[trigger] members_on(
                    self.chunks(),
                    hitbox.bounding_spec(),
                    self.chunk_size(),
                ).contains(entity),
    {
        let aabb = hitbox.bounding_spec();
        lemma_query_reflects(self.chunks(), self.chunk_size(), self.registered(), aabb);
        assert forall|entity: u64|
            self.is_active(entity) && self.overlaps(entity, hitbox) implies #[trigger] members_on(
            self.chunks(),
            aabb,
            self.chunk_size(),
        ).contains(entity) by {
            let hurtbox = self.hurtboxes()[entity];
            let position = hurtbox.registry.current_position_spec();
            crate::collider::lemma_overlap_within_boundings(
                *hitbox.shape,
                hitbox.position,
                hurtbox.shape,
                position,
            );
            lemma_extent_box_inhabited(hitbox.shape.extent_spec(), hitbox.position);
            lemma_extent_box_inhabited(hurtbox.shape.extent_spec(), position);
            assert(self.registered()[entity] == aabb_of(hurtbox.shape).translated_spec(
                position,
            ));
            lemma_intersecting_spans_overlap(self.registered()[entity], aabb, self.chunk_size());
        }
    }

    /// Registers the hurtbox `entity` with its shape and with what it brings
    /// to the filter. Its position is not known yet, so it is in no chunk and
    /// no query finds it: see [`Self::place_hurtbox`].
    pub fn register_hurtbox(
        &mut self,
        entity: u64,
        shape: Group::Hurtbox,
        param: HurtboxParam<Group>,
    ) -> (r: Result<(), RegistrationError>)
        ensures
            final(self).chunk_size() == old(self).chunk_size(),
            final(self).chunks() == old(self).chunks(),
            old(self).in_step() ==> final(self).in_step(),
            r is Ok <==> !old(self).hurtboxes().contains_key(entity),
            r matches Err(e) ==> e == RegistrationError::AlreadyRegistered && final(self).hurtboxes()
                == old(self).hurtboxes(),
            r is Ok ==> {
                &&& final(self).hurtboxes().dom() == old(self).hurtboxes().dom().insert(entity)
                &&& final(self).hurtboxes()[entity].shape == shape
                &&& final(self).hurtboxes()[entity].param == param
                &&& !final(self).is_active(entity)
                &&& others_untouched(old(self).hurtboxes(), final(self).hurtboxes(), entity)
            },
    {
        if self.hurtboxes.contains_key(&entity) {
            return Err(RegistrationError::AlreadyRegistered);
        }
        self.hurtboxes.insert(entity, Hurtbox { shape, param, registry: SpatialIndexRegistry::not_valid() });
        proof {
            assert(self.registered() =~= old(self).registered());
        }
        Ok(())
    }

    /// Gives the registered hurtbox `entity` its first position, and adds it to
    /// the index with the box around its shape at that position. From now on
    /// queries find it.
    pub fn place_hurtbox(&mut self, entity: u64, position: IVec2) -> (r: Result<(), RegistrationError>)
        ensures
            final(self).chunk_size() == old(self).chunk_size(),
            old(self).in_step() ==> final(self).in_step(),
            final(self).hurtboxes().dom() == old(self).hurtboxes().dom(),
            others_untouched(old(self).hurtboxes(), final(self).hurtboxes(), entity),
            r is Ok <==> old(self).hurtboxes().contains_key(entity) && !old(self).is_active(entity),
            r matches Err(e) ==> {
                &&& final(self).hurtboxes() == old(self).hurtboxes()
                &&& final(self).chunks() == old(self).chunks()
                &&& e == (if old(self).hurtboxes().contains_key(entity) {
                    RegistrationError::AlreadyPlaced
                } else {
                    RegistrationError::NotRegistered
                })
            },
            r is Ok ==> {
                let before = old(self).hurtboxes()[entity];
                let after = final(self).hurtboxes()[entity];
                &&& after.shape == before.shape
                &&& after.param == before.param
                &&& final(self).is_active(entity)
                &&& after.registry.current_position_spec() == position
                &&& after.registry.current_shape_bounding_spec() == aabb_of(before.shape)
                &&& after.registry.global_aabb_spec() == aabb_of(before.shape).translated_spec(
                    position,
                )
                &&& final(self).chunks() == with_entity(
                    old(self).chunks(),
                    entity,
                    after.registry.global_aabb_spec(),
                    old(self).chunk_size(),
                )
            },
    {
        let hurtbox = match self.hurtboxes.remove(&entity) {
            Some(hurtbox) => hurtbox,
            None => {
                assert(self.hurtboxes@ =~= old(self).hurtboxes@);
                assert(self.registered() =~= old(self).registered());
                return Err(RegistrationError::NotRegistered);
            },
        };
        if hurtbox.registry.is_valid() {
            self.hurtboxes.insert(entity, hurtbox);
            assert(self.hurtboxes@ =~= old(self).hurtboxes@);
            assert(self.registered() =~= old(self).registered());
            return Err(RegistrationError::AlreadyPlaced);
        }
        let current_shape_bounding: Aabb2d = hurtbox.shape.bounding();
        let registry = SpatialIndexRegistry::placed(current_shape_bounding, position);
        let aabb = current_shape_bounding.translated(position);
        self.hurtboxes.insert(entity, Hurtbox { shape: hurtbox.shape, param: hurtbox.param, registry });
        self.index.add_entity(entity, aabb);
        proof {
            assert(self.hurtboxes@.dom() =~= old(self).hurtboxes@.dom());
            assert(self.registered() =~= old(self).registered().insert(entity, aabb));
            if old(self).in_step() {
                lemma_add_reflects(
                    old(self).chunks(),
                    self.chunk_size(),
                    old(self).registered(),
                    entity,
                    aabb,
                );
            }
        }
        Ok(())
    }

    /// Takes in the shape and the position that the placed hurtbox `entity` has
    /// now. Where the position or the extent of the shape has changed, the
    /// index moves the hurtbox from the
    /// chunks that its last box reached into to those that the new box reaches
    /// into; where neither has, only the shape is taken in. Says whether the
    /// index was touched.
    pub fn update_hurtbox(&mut self, entity: u64, shape: Group::Hurtbox, position: IVec2) -> (r: Result<
        bool,
        RegistrationError,
    >)
        ensures
            final(self).chunk_size() == old(self).chunk_size(),
            old(self).in_step() ==> final(self).in_step(),
            final(self).hurtboxes().dom() == old(self).hurtboxes().dom(),
            others_untouched(old(self).hurtboxes(), final(self).hurtboxes(), entity),
            r is Ok <==> old(self).is_active(entity),
            r matches Err(e) ==> {
                &&& final(self).hurtboxes() == old(self).hurtboxes()
                &&& final(self).chunks() == old(self).chunks()
                &&& e == (if old(self).hurtboxes().contains_key(entity) {
                    RegistrationError::NotPlaced
                } else {
                    RegistrationError::NotRegistered
                })
            },
            r matches Ok(changed) ==> {
                let before = old(self).hurtboxes()[entity];
                let after = final(self).hurtboxes()[entity];
                &&& changed == (shape.extent_spec() != before.shape.extent_spec() || position
                    != before.registry.current_position_spec())
                &&& after.shape == shape
                &&& after.param == before.param
                &&& final(self).is_active(entity)
                &&& after.registry.current_position_spec() == position
                &&& changed ==> {
                    &&& after.registry.current_shape_bounding_spec() == aabb_of(shape)
                    &&& after.registry.global_aabb_spec() == aabb_of(shape).translated_spec(
                        position,
                    )
                    &&& after.registry.global_last_aabb_spec() == before.registry.global_aabb_spec()
                    &&& final(self).chunks() == with_entity(
                        without_entity(
                            old(self).chunks(),
                            entity,
                            before.registry.global_aabb_spec(),
                            old(self).chunk_size(),
                        ),
                        entity,
                        after.registry.global_aabb_spec(),
                        old(self).chunk_size(),
                    )
                }
                &&& !changed ==> after.registry == before.registry && final(self).chunks() == old(self).chunks()
            },
    {
        let hurtbox = match self.hurtboxes.remove(&entity) {
            Some(hurtbox) => hurtbox,
            None => {
                assert(self.hurtboxes@ =~= old(self).hurtboxes@);
                assert(self.registered() =~= old(self).registered());
                return Err(RegistrationError::NotRegistered);
            },
        };
        if !hurtbox.registry.is_valid() {
            self.hurtboxes.insert(entity, hurtbox);
            assert(self.hurtboxes@ =~= old(self).hurtboxes@);
            assert(self.registered() =~= old(self).registered());
            return Err(RegistrationError::NotPlaced);
        }
        if shape.extent() == hurtbox.shape.extent() && position == hurtbox.registry.current_position() {
            self.hurtboxes.insert(
                entity,
                Hurtbox { shape, param: hurtbox.param, registry: hurtbox.registry },
            );
            proof {
                assert(self.hurtboxes@.dom() =~= old(self).hurtboxes@.dom());
                assert(self.registered() =~= old(self).registered());
            }
            return Ok(false);
        }
        let mut registry = hurtbox.registry;
        let shape_bounding: Aabb2d = shape.bounding();
        registry.update(shape_bounding, position);
        let last_aabb = registry.global_last_aabb();
        let aabb = shape_bounding.translated(position);
        self.hurtboxes.insert(entity, Hurtbox { shape, param: hurtbox.param, registry });
        self.index.change_entity(entity, last_aabb, aabb);
        proof {
            assert(self.hurtboxes@.dom() =~= old(self).hurtboxes@.dom());
            assert(self.registered() =~= old(self).registered().remove(entity).insert(entity, aabb));
            if old(self).in_step() {
                lemma_remove_reflects(
                    old(self).chunks(),
                    self.chunk_size(),
                    old(self).registered(),
                    entity,
                    last_aabb,
                );
                lemma_add_reflects(
                    without_entity(old(self).chunks(), entity, last_aabb, self.chunk_size()),
                    self.chunk_size(),
                    old(self).registered().remove(entity),
                    entity,
                    aabb,
                );
            }
        }
        Ok(true)
    }

    /// Takes in what the registered hurtbox `entity` brings to the filter from
    /// now on. Says whether the hurtbox was registered.
    pub fn set_filter_param(&mut self, entity: u64, param: HurtboxParam<Group>) -> (r: bool)
        ensures
            final(self).chunk_size() == old(self).chunk_size(),
            final(self).chunks() == old(self).chunks(),
            old(self).in_step() ==> final(self).in_step(),
            r == old(self).hurtboxes().contains_key(entity),
            !r ==> final(self).hurtboxes() == old(self).hurtboxes(),
            r ==> final(self).hurtboxes() == old(self).hurtboxes().insert(
                entity,
                Hurtbox {
                    shape: old(self).hurtboxes()[entity].shape,
                    param,
                    registry: old(self).hurtboxes()[entity].registry,
                },
            ),
    {
        match self.hurtboxes.remove(&entity) {
            Some(hurtbox) => {
                self.hurtboxes.insert(
                    entity,
                    Hurtbox { shape: hurtbox.shape, param, registry: hurtbox.registry },
                );
                proof {
                    assert(self.hurtboxes@ =~= old(self).hurtboxes@.insert(
                        entity,
                        Hurtbox { shape: hurtbox.shape, param, registry: hurtbox.registry },
                    ));
                    assert(self.registered() =~= old(self).registered());
                }
                true
            },
            None => {
                assert(self.hurtboxes@ =~= old(self).hurtboxes@);
                assert(self.registered() =~= old(self).registered());
                false
            },
        }
    }

    /// Removes the hurtbox `entity`: takes it out of the chunks that its box
    /// reaches into, where it has a position, and forgets it. Says whether it
    /// was registered.
    pub fn remove_hurtbox(&mut self, entity: u64) -> (r: bool)
        ensures
            final(self).chunk_size() == old(self).chunk_size(),
            old(self).in_step() ==> final(self).in_step(),
            r == old(self).hurtboxes().contains_key(entity),
            final(self).hurtboxes() == old(self).hurtboxes().remove(entity),
            final(self).chunks() == (if old(self).is_active(entity) {
                without_entity(
                    old(self).chunks(),
                    entity,
                    old(self).hurtboxes()[entity].registry.global_aabb_spec(),
                    old(self).chunk_size(),
                )
            } else {
                old(self).chunks()
            }),
    {
        match self.hurtboxes.remove(&entity) {
            Some(hurtbox) => {
                match hurtbox.registry.global_aabb() {
                    Some(aabb) => {
                        self.index.remove_entity(entity, aabb);
                        proof {
                            assert(self.registered() =~= old(self).registered().remove(entity));
                            if old(self).in_step() {
                                lemma_remove_reflects(
                                    old(self).chunks(),
                                    self.chunk_size(),
                                    old(self).registered(),
                                    entity,
                                    aabb,
                                );
                            }
                        }
                    },
                    None => {
                        assert(self.registered() =~= old(self).registered());
                    },
                }
                true
            },
            None => {
                assert(self.hurtboxes@ =~= old(self).hurtboxes@);
                assert(self.registered() =~= old(self).registered());
                false
            },
        }
    }

    /// Whether `entity` is a candidate for a hitbox that brings `hitbox_param`.
    fn passes(&self, entity: u64, hitbox_param: &HitboxParam<Group>) -> (r: bool)
        ensures
            r == self.is_candidate(entity, *hitbox_param),
    {
        match self.hurtboxes.get(&entity) {
            Some(hurtbox) => hurtbox.registry.is_valid() && <Group::Filter as SpatialQueryFilter>::filter(
                hitbox_param,
                &hurtbox.param,
            ),
            None => false,
        }
    }
}

} // verus!
