//! The spatial index: a grid of square chunks, each with the handles of the
//! hurtboxes whose bounding box reaches into it.

use crate::bounded::{Aabb2d, I64Vec2, IVec2};
use vstd::prelude::*;

verus! {

/// The chunks of an index by their coordinates: a hash map of the `bevy`
/// crate from chunk coordinates to the handles in the chunk.
#[verifier::external_body]
pub struct ChunkMap {
    inner: bevy::utils::HashMap<bevy::math::IVec2, Vec<u64>>,
}

/// What a [`ChunkMap`] holds: for each pair of chunk coordinates that has an
/// entry, the handles of the entry in their order.
pub uninterp spec fn chunk_map_contents(map: ChunkMap) -> Map<(i32, i32), Seq<u64>>;

/// `HashMap::default`: a map without entries.
#[verifier::external_body]
fn chunk_map_new() -> (map: ChunkMap)
    ensures
        chunk_map_contents(map) =~= Map::empty(),
{
    ChunkMap { inner: bevy::utils::HashMap::default() }
}

/// `HashMap::get`: the entry at the coordinates `(x, y)`, if there is one.
#[verifier::external_body]
fn chunk_map_get(map: &ChunkMap, x: i32, y: i32) -> (r: Option<&Vec<u64>>)
    ensures
        r matches Some(members) ==> chunk_map_contents(*map).contains_key((x, y)) && members@
            == chunk_map_contents(*map)[(x, y)],
        r is None ==> !chunk_map_contents(*map).contains_key((x, y)),
{
    map.inner.get(&bevy::math::IVec2::new(x, y))
}

/// `HashMap::entry` followed by `Entry::or_default`: the entry at the
/// coordinates `(x, y)`, made empty first if there was none. What the caller
/// leaves in it is what the map holds there afterwards; no other entry changes.
#[verifier::external_body]
fn chunk_map_entry(map: &mut ChunkMap, x: i32, y: i32) -> (r: &mut Vec<u64>)
    ensures
        r@ == (if chunk_map_contents(*old(map)).contains_key((x, y)) {
            chunk_map_contents(*old(map))[(x, y)]
        } else {
            Seq::<u64>::empty()
        }),
        chunk_map_contents(*final(map)) == chunk_map_contents(*old(map)).insert((x, y), final(r)@),
{
    map.inner.entry(bevy::math::IVec2::new(x, y)).or_default()
}

/// `HashMap::keys`: the coordinates that have an entry, each once, in the
/// order in which the map hands them out.
#[verifier::external_body]
fn chunk_map_keys(map: &ChunkMap) -> (r: Vec<(i32, i32)>)
    ensures
        r@.no_duplicates(),
        forall|key: (i32, i32)| r@.contains(key) <==> chunk_map_contents(*map).contains_key(key),
{
    map.inner.keys().map(|key| (key.x, key.y)).collect()
}

/// `v`, or the end of the `i32` range that it lies beyond.
pub open spec fn clamped(v: int) -> int {
    if v < i32::MIN {
        i32::MIN as int
    } else if v > i32::MAX {
        i32::MAX as int
    } else {
        v
    }
}

/// The coordinate, along one axis, of the chunk in which `global` lies: the
/// number of whole chunks below it, held within the `i32` range. Chunks
/// without a size do not divide the axis: every position lies in the chunk
/// at zero.
pub open spec fn chunk_coordinate(global: int, pixels_per_chunk: int) -> int {
    if pixels_per_chunk == 0 {
        0
    } else {
        clamped(global / pixels_per_chunk)
    }
}

/// The coordinates of the chunk in which the position `global` lies.
pub open spec fn chunk_of(global: I64Vec2, pixels_per_chunk: u32) -> IVec2 {
    IVec2 {
        x: chunk_coordinate(global.x as int, pixels_per_chunk as int) as i32,
        y: chunk_coordinate(global.y as int, pixels_per_chunk as int) as i32,
    }
}

/// Whether the chunk at `chunk` is one of those that `aabb` reaches into:
/// whether it lies between the chunk of the box's `min` and that of its `max`.
pub open spec fn in_span(chunk: IVec2, aabb: Aabb2d, pixels_per_chunk: u32) -> bool {
    &&& chunk_of(aabb.min, pixels_per_chunk).x <= chunk.x <= chunk_of(aabb.max, pixels_per_chunk).x
    &&& chunk_of(aabb.min, pixels_per_chunk).y <= chunk.y <= chunk_of(aabb.max, pixels_per_chunk).y
}

/// Chunks without any handle.
pub open spec fn no_chunks() -> Map<IVec2, Seq<u64>> {
    Map::total(|chunk: IVec2| Seq::<u64>::empty())
}

/// The chunks after `entity` was added to each chunk that `aabb` reaches into.
pub open spec fn with_entity(
    chunks: Map<IVec2, Seq<u64>>,
    entity: u64,
    aabb: Aabb2d,
    pixels_per_chunk: u32,
) -> Map<IVec2, Seq<u64>> {
    Map::total(
        |chunk: IVec2|
            if in_span(chunk, aabb, pixels_per_chunk) {
                chunks[chunk].push(entity)
            } else {
                chunks[chunk]
            },
    )
}

/// Where `entity` stands first among `members`.
pub open spec fn first_index(members: Seq<u64>, entity: u64) -> int
    recommends
        members.contains(entity),
{
    choose|i: int|
        0 <= i < members.len() && members[i] == entity && forall|j: int|
            0 <= j < i ==> members[j] != entity
}

/// `members` without the first `entity` among them, the last member standing
/// in its place; `members` themselves where `entity` is not among them.
pub open spec fn swap_removed(members: Seq<u64>, entity: u64) -> Seq<u64> {
    if members.contains(entity) {
        members.update(first_index(members, entity), members.last()).drop_last()
    } else {
        members
    }
}

/// The chunks after `entity` was taken once out of each chunk that `aabb`
/// reaches into.
pub open spec fn without_entity(
    chunks: Map<IVec2, Seq<u64>>,
    entity: u64,
    aabb: Aabb2d,
    pixels_per_chunk: u32,
) -> Map<IVec2, Seq<u64>> {
    Map::total(
        |chunk: IVec2|
            if in_span(chunk, aabb, pixels_per_chunk) {
                swap_removed(chunks[chunk], entity)
            } else {
                chunks[chunk]
            },
    )
}

/// The chunks after `entity` was taken once out of every chunk.
pub open spec fn without_entity_anywhere(chunks: Map<IVec2, Seq<u64>>, entity: u64) -> Map<
    IVec2,
    Seq<u64>,
> {
    Map::total(|chunk: IVec2| swap_removed(chunks[chunk], entity))
}

/// What happened to a hurtbox since the index was last brought up to date.
#[derive(Clone, Copy, Debug, PartialEq, Eq, Structural)]
pub enum IndexChange {
    /// The hurtbox `entity` is new, with the box `aabb`.
    Added { entity: u64, aabb: Aabb2d },
    /// The box of the hurtbox `entity` went from `old_aabb` to `new_aabb`.
    Changed { entity: u64, old_aabb: Aabb2d, new_aabb: Aabb2d },
    /// The hurtbox `entity` is gone; `last_aabb` is its last box, where that is
    /// still known.
    Removed { entity: u64, last_aabb: Option<Aabb2d> },
}

/// The chunks after one change.
pub open spec fn changed_chunks(
    chunks: Map<IVec2, Seq<u64>>,
    pixels_per_chunk: u32,
    change: IndexChange,
) -> Map<IVec2, Seq<u64>> {
    match change {
        IndexChange::Added { entity, aabb } => with_entity(chunks, entity, aabb, pixels_per_chunk),
        IndexChange::Changed { entity, old_aabb, new_aabb } => with_entity(
            without_entity(chunks, entity, old_aabb, pixels_per_chunk),
            entity,
            new_aabb,
            pixels_per_chunk,
        ),
        IndexChange::Removed { entity, last_aabb: Some(aabb) } => without_entity(
            chunks,
            entity,
            aabb,
            pixels_per_chunk,
        ),
        IndexChange::Removed { entity, last_aabb: None } => without_entity_anywhere(chunks, entity),
    }
}

/// The chunks after a run of changes, made in their order.
pub open spec fn chunks_after(
    chunks: Map<IVec2, Seq<u64>>,
    pixels_per_chunk: u32,
    changes: Seq<IndexChange>,
) -> Map<IVec2, Seq<u64>>
    decreases changes.len(),
{
    if changes.len() == 0 {
        chunks
    } else {
        changed_chunks(
            chunks_after(chunks, pixels_per_chunk, changes.drop_last()),
            pixels_per_chunk,
            changes.last(),
        )
    }
}

/// The handles of the chunks in column `x` from row `y_min` to row `y_max`,
/// row after row.
pub open spec fn column_members(chunks: Map<IVec2, Seq<u64>>, x: int, y_min: int, y_max: int) -> Seq<
    u64,
>
    decreases y_max - y_min + 1,
{
    if y_max < y_min {
        Seq::empty()
    } else {
        column_members(chunks, x, y_min, y_max - 1) + chunks[IVec2 { x: x as i32, y: y_max as i32 }]
    }
}

/// The handles of the chunks from `min` to `max`, column after column.
pub open spec fn span_members(chunks: Map<IVec2, Seq<u64>>, min: IVec2, x_max: int, y_max: int) -> Seq<
    u64,
>
    decreases x_max - min.x + 1,
{
    if x_max < min.x {
        Seq::empty()
    } else {
        span_members(chunks, min, x_max - 1, y_max) + column_members(
            chunks,
            x_max,
            min.y as int,
            y_max,
        )
    }
}

/// The handles of all the chunks that `aabb` reaches into, with a handle once
/// for each such chunk that has it.
pub open spec fn members_on(chunks: Map<IVec2, Seq<u64>>, aabb: Aabb2d, pixels_per_chunk: u32) -> Seq<
    u64,
> {
    span_members(
        chunks,
        chunk_of(aabb.min, pixels_per_chunk),
        chunk_of(aabb.max, pixels_per_chunk).x as int,
        chunk_of(aabb.max, pixels_per_chunk).y as int,
    )
}

/// Coordinates of the chunk, along one axis, in which `global` lies.
fn coordinate_to_chunk(pixels_per_chunk: u32, global: i64) -> (r: i32)
    ensures
        r == chunk_coordinate(global as int, pixels_per_chunk as int),
{
    proof {
        if pixels_per_chunk > 0 {
            lemma_quotient_fits(global as int, pixels_per_chunk as int);
        }
    }
    match global.checked_div_euclid(pixels_per_chunk as i64) {
        Some(chunk) => if chunk < i32::MIN as i64 {
            i32::MIN
        } else if chunk > i32::MAX as i64 {
            i32::MAX
        } else {
            chunk as i32
        },
        None => 0,
    }
}

/// A grid of square chunks of `pixels_per_chunk` positions a side, each with
/// the handles that were added to it.
pub struct SpatialIndex {
    chunks: ChunkMap,
    pixels_per_chunk: u32,
}

impl View for SpatialIndex {
    type V = Map<IVec2, Seq<u64>>;

    /// The handles of every chunk, in the order in which the chunk holds
    /// them; a chunk that was never touched holds none.
    closed spec fn view(&self) -> Map<IVec2, Seq<u64>> {
        Map::total(
            |chunk: IVec2|
                if chunk_map_contents(self.chunks).contains_key((chunk.x, chunk.y)) {
                    chunk_map_contents(self.chunks)[(chunk.x, chunk.y)]
                } else {
                    Seq::empty()
                },
        )
    }
}

impl SpatialIndex {
    /// The side of a chunk.
    pub closed spec fn chunk_size(&self) -> u32 {
        self.pixels_per_chunk
    }

    /// Creates a new spatial index.
    ///
    /// The index is divided into chunks of `pixels_per_chunk` positions a
    /// side. Every handle is added to each chunk that its bounding box
    /// reaches into, and a query looks only at the chunks that its own box
    /// reaches into. The side has no bearing on what a query finds among the
    /// boxes that overlap its own, only on how many others it finds with them:
    /// with a side of zero the whole grid is one chunk, and a query finds
    /// every handle.
    pub fn new(pixels_per_chunk: u32) -> (r: Self)
        ensures
            r.chunk_size() == pixels_per_chunk,
            r@ == no_chunks(),
    {
        let r = SpatialIndex { chunks: chunk_map_new(), pixels_per_chunk };
        assert(r@ =~= no_chunks());
        r
    }

    /// The size of the chunk in pixels.
    #[inline]
    pub fn pixels_per_chunk(&self) -> (r: u32)
        ensures
            r == self.chunk_size(),
    {
        self.pixels_per_chunk
    }

    /// Coordinates of the chunk in which the `global` lies in.
    #[inline]
    pub fn global_to_chunk(&self, global: I64Vec2) -> (r: IVec2)
        ensures
            r == chunk_of(global, self.chunk_size()),
    {
        IVec2 {
            x: coordinate_to_chunk(self.pixels_per_chunk, global.x),
            y: coordinate_to_chunk(self.pixels_per_chunk, global.y),
        }
    }

    /// Bottom left corner of the chunk.
    #[inline]
    pub fn chunk_to_global(&self, chunk: IVec2) -> (r: I64Vec2)
        ensures
            r.x == chunk.x * self.chunk_size(),
            r.y == chunk.y * self.chunk_size(),
    {
        proof {
            lemma_corner_fits(chunk.x as int, self.pixels_per_chunk as int);
            lemma_corner_fits(chunk.y as int, self.pixels_per_chunk as int);
        }
        I64Vec2 {
            x: chunk.x as i64 * self.pixels_per_chunk as i64,
            y: chunk.y as i64 * self.pixels_per_chunk as i64,
        }
    }

    /// Adds `entity` to every chunk that `aabb` reaches into, behind the
    /// handles that the chunk already has.
    pub fn add_entity(&mut self, entity: u64, aabb: Aabb2d)
        ensures
            final(self).chunk_size() == old(self).chunk_size(),
            final(self)@ == with_entity(old(self)@, entity, aabb, old(self).chunk_size()),
    {
        let min = self.global_to_chunk(aabb.min);
        let max = self.global_to_chunk(aabb.max);
        let ghost before = self@;
        let mut x: i64 = min.x as i64;
        while x <= max.x as i64
            invariant
                min.x <= x,
                x <= max.x + 1 || x == min.x,
                self.pixels_per_chunk == old(self).pixels_per_chunk,
                before == old(self)@,
                before.dom() == Set::<IVec2>::full(),
                forall|chunk: IVec2|
                    #![trigger self@[chunk]]
                    self@[chunk] == if min.x <= chunk.x < x && min.y <= chunk.y <= max.y {
                        before[chunk].push(entity)
                    } else {
                        before[chunk]
                    },
            decreases max.x + 1 - x,
        {
            let mut y: i64 = min.y as i64;
            while y <= max.y as i64
                invariant
                    min.x <= x <= max.x,
                    min.y <= y,
                    y <= max.y + 1 || y == min.y,
                    self.pixels_per_chunk == old(self).pixels_per_chunk,
                    forall|chunk: IVec2|
                        #![trigger self@[chunk]]
                        self@[chunk] == if (min.x <= chunk.x < x && min.y <= chunk.y <= max.y) || (
                        chunk.x == x && min.y <= chunk.y < y) {
                            before[chunk].push(entity)
                        } else {
                            before[chunk]
                        },
                decreases max.y + 1 - y,
            {
                let ghost earlier = self@;
                let chunk = chunk_map_entry(&mut self.chunks, x as i32, y as i32);
                chunk.push(entity);
                proof {
                    let here = IVec2 { x: x as i32, y: y as i32 };
                    assert forall|chunk: IVec2| #![trigger self@[chunk]] self@[chunk] == if chunk == here {
                        earlier[chunk].push(entity)
                    } else {
                        earlier[chunk]
                    } by {}
                }
                y += 1;
            }
            x += 1;
        }
        assert(self@ =~= with_entity(before, entity, aabb, self.pixels_per_chunk));
    }

    /// Takes `entity` once out of every chunk that `aabb` reaches into; a chunk
    /// without it stays as it is. To undo [`Self::add_entity`], `aabb` must be
    /// the box that `entity` was added with: with another box the handle stays
    /// behind in the chunks that only the first box reached.
    pub fn remove_entity(&mut self, entity: u64, aabb: Aabb2d)
        ensures
            final(self).chunk_size() == old(self).chunk_size(),
            final(self)@ == without_entity(old(self)@, entity, aabb, old(self).chunk_size()),
    {
        let min = self.global_to_chunk(aabb.min);
        let max = self.global_to_chunk(aabb.max);
        let ghost before = self@;
        let mut x: i64 = min.x as i64;
        while x <= max.x as i64
            invariant
                min.x <= x,
                x <= max.x + 1 || x == min.x,
                self.pixels_per_chunk == old(self).pixels_per_chunk,
                before == old(self)@,
                before.dom() == Set::<IVec2>::full(),
                forall|chunk: IVec2|
                    #![trigger self@[chunk]]
                    self@[chunk] == if min.x <= chunk.x < x && min.y <= chunk.y <= max.y {
                        swap_removed(before[chunk], entity)
                    } else {
                        before[chunk]
                    },
            decreases max.x + 1 - x,
        {
            let mut y: i64 = min.y as i64;
            while y <= max.y as i64
                invariant
                    min.x <= x <= max.x,
                    min.y <= y,
                    y <= max.y + 1 || y == min.y,
                    self.pixels_per_chunk == old(self).pixels_per_chunk,
                    forall|chunk: IVec2|
                        #![trigger self@[chunk]]
                        self@[chunk] == if (min.x <= chunk.x < x && min.y <= chunk.y <= max.y) || (
                        chunk.x == x && min.y <= chunk.y < y) {
                            swap_removed(before[chunk], entity)
                        } else {
                            before[chunk]
                        },
                decreases max.y + 1 - y,
            {
                let ghost earlier = self@;
                let chunk = chunk_map_entry(&mut self.chunks, x as i32, y as i32);
                take_out(chunk, entity);
                proof {
                    let here = IVec2 { x: x as i32, y: y as i32 };
                    assert forall|chunk: IVec2| #![trigger self@[chunk]] self@[chunk] == if chunk == here {
                        swap_removed(earlier[chunk], entity)
                    } else {
                        earlier[chunk]
                    } by {}
                }
                y += 1;
            }
            x += 1;
        }
        assert(self@ =~= without_entity(before, entity, aabb, self.pixels_per_chunk));
    }

    /// Moves `entity` from the chunks that `old_aabb` reaches into to those
    /// that `new_aabb` reaches into: [`Self::remove_entity`], then
    /// [`Self::add_entity`].
    pub fn change_entity(&mut self, entity: u64, old_aabb: Aabb2d, new_aabb: Aabb2d)
        ensures
            final(self).chunk_size() == old(self).chunk_size(),
            final(self)@ == with_entity(
                without_entity(old(self)@, entity, old_aabb, old(self).chunk_size()),
                entity,
                new_aabb,
                old(self).chunk_size(),
            ),
    {
        self.remove_entity(entity, old_aabb);
        self.add_entity(entity, new_aabb);
    }

    /// Updates the index to keep it in sync with the hurtboxes: makes the
    /// `changes` in their order, each as [`Self::add_entity`],
    /// [`Self::change_entity`], [`Self::remove_entity`] or
    /// [`Self::remove_entity_anywhere`] would.
    pub fn update_world_entries(&mut self, changes: &Vec<IndexChange>)
        ensures
            final(self).chunk_size() == old(self).chunk_size(),
            final(self)@ == chunks_after(old(self)@, old(self).chunk_size(), changes@),
    {
        let mut i: usize = 0;
        while i < changes.len()
            invariant
                i <= changes@.len(),
                self.pixels_per_chunk == old(self).pixels_per_chunk,
                self@ == chunks_after(old(self)@, old(self).chunk_size(), changes@.take(i as int)),
            decreases changes@.len() - i,
        {
            assert(changes@.take(i + 1).drop_last() == changes@.take(i as int));
            match changes[i] {
                IndexChange::Added { entity, aabb } => self.add_entity(entity, aabb),
                IndexChange::Changed { entity, old_aabb, new_aabb } => self.change_entity(
                    entity,
                    old_aabb,
                    new_aabb,
                ),
                IndexChange::Removed { entity, last_aabb: Some(aabb) } => self.remove_entity(entity, aabb),
                IndexChange::Removed { entity, last_aabb: None } => self.remove_entity_anywhere(entity),
            }
            i += 1;
        }
        assert(changes@.take(changes@.len() as int) == changes@);
    }

    /// Takes `entity` once out of every chunk that has it, for a handle whose
    /// box is no longer known.
    pub fn remove_entity_anywhere(&mut self, entity: u64)
        ensures
            final(self).chunk_size() == old(self).chunk_size(),
            final(self)@ == without_entity_anywhere(old(self)@, entity),
    {
        let keys = chunk_map_keys(&self.chunks);
        let ghost before = self@;
        let ghost entries = chunk_map_contents(self.chunks).dom();
        let mut i: usize = 0;
        while i < keys.len()
            invariant
                i <= keys@.len(),
                keys@.no_duplicates(),
                self.pixels_per_chunk == old(self).pixels_per_chunk,
                chunk_map_contents(self.chunks).dom() == entries,
                forall|key: (i32, i32)| keys@.contains(key) <==> entries.contains(key),
                forall|chunk: IVec2|
                    #![trigger self@[chunk]]
                    self@[chunk] == if exists|k: int|
                        0 <= k < i && keys@[k] == (chunk.x, chunk.y) {
                        swap_removed(before[chunk], entity)
                    } else {
                        before[chunk]
                    },
            decreases keys@.len() - i,
        {
            let ghost earlier = self@;
            let key = keys[i];
            assert(keys@.contains(key));
            let chunk = chunk_map_entry(&mut self.chunks, key.0, key.1);
            take_out(chunk, entity);
            proof {
                let here = IVec2 { x: key.0, y: key.1 };
                assert(chunk_map_contents(self.chunks).dom() =~= entries);
                assert forall|chunk: IVec2| #![trigger self@[chunk]] self@[chunk] == if chunk == here {
                    swap_removed(earlier[chunk], entity)
                } else {
                    earlier[chunk]
                } by {}
                assert forall|chunk: IVec2|
                    #![trigger self@[chunk]]
                    self@[chunk] == if exists|k: int|
                        0 <= k < i + 1 && keys@[k] == (chunk.x, chunk.y) {
                        swap_removed(before[chunk], entity)
                    } else {
                        before[chunk]
                    } by {
                    if chunk == here {
                        assert(keys@[i as int] == (chunk.x, chunk.y));
                        assert(!exists|k: int| 0 <= k < i && keys@[k] == (chunk.x, chunk.y));
                    } else {
                        if exists|k: int| 0 <= k < i + 1 && keys@[k] == (chunk.x, chunk.y) {
                            let k = choose|k: int| 0 <= k < i + 1 && keys@[k] == (chunk.x, chunk.y);
                            assert(k < i);
                        }
                    }
                }
            }
            i += 1;
        }
        proof {
            assert forall|chunk: IVec2| #![trigger self@[chunk]] self@[chunk] == swap_removed(
                before[chunk],
                entity,
            ) by {
                if entries.contains((chunk.x, chunk.y)) {
                    assert(keys@.contains((chunk.x, chunk.y)));
                    let k = choose|k: int| 0 <= k < keys@.len() && keys@[k] == (chunk.x, chunk.y);
                    assert(0 <= k < i && keys@[k] == (chunk.x, chunk.y));
                } else {
                    assert(before[chunk] == Seq::<u64>::empty());
                    assert(!exists|k: int| 0 <= k < i && keys@[k] == (chunk.x, chunk.y)) by {
                        if exists|k: int| 0 <= k < i && keys@[k] == (chunk.x, chunk.y) {
                            let k = choose|k: int| 0 <= k < i && keys@[k] == (chunk.x, chunk.y);
                            assert(keys@.contains(keys@[k]));
                        }
                    }
                }
            }
            assert(self@ =~= without_entity_anywhere(before, entity));
        }
    }

    /// Gives every handle of every chunk into `entity_mapper`, and puts what
    /// comes back in its place: for an index whose handles have been given
    /// other numbers.
    pub fn map_entities<M: Fn(u64) -> u64>(&mut self, entity_mapper: M)
        requires
            forall|entity: u64| call_requires(entity_mapper, (entity,)),
        ensures
            final(self).chunk_size() == old(self).chunk_size(),
            forall|chunk: IVec2| (#[trigger] final(self)@[chunk]).len() == old(self)@[chunk].len(),
            forall|chunk: IVec2, k: int|
                0 <= k < old(self)@[chunk].len() ==> call_ensures(
                    entity_mapper,
                    (old(self)@[chunk][k],),
                    #[trigger] final(self)@[chunk][k],
                ),
    {
        let keys = chunk_map_keys(&self.chunks);
        let ghost before = self@;
        let ghost entries = chunk_map_contents(self.chunks).dom();
        let mut i: usize = 0;
        while i < keys.len()
            invariant
                i <= keys@.len(),
                keys@.no_duplicates(),
                self.pixels_per_chunk == old(self).pixels_per_chunk,
                before == old(self)@,
                chunk_map_contents(self.chunks).dom() == entries,
                forall|key: (i32, i32)| keys@.contains(key) <==> entries.contains(key),
                forall|entity: u64| call_requires(entity_mapper, (entity,)),
                forall|chunk: IVec2| (#[trigger] self@[chunk]).len() == before[chunk].len(),
                forall|chunk: IVec2|
                    !(exists|k: int| 0 <= k < i && keys@[k] == (chunk.x, chunk.y)) ==> #[trigger] self@[chunk]
                        == before[chunk],
                forall|chunk: IVec2, k: int|
                    (exists|at: int| 0 <= at < i && keys@[at] == (chunk.x, chunk.y)) && 0 <= k
                        < before[chunk].len() ==> call_ensures(
                        entity_mapper,
                        (before[chunk][k],),
                        #[trigger] self@[chunk][k],
                    ),
            decreases keys@.len() - i,
        {
            let ghost earlier = self@;
            let key = keys[i];
            let ghost here = IVec2 { x: key.0, y: key.1 };
            assert(keys@.contains(key));
            assert(!(exists|k: int| 0 <= k < i && keys@[k] == (here.x, here.y)));
            let chunk = chunk_map_entry(&mut self.chunks, key.0, key.1);
            let ghost members = chunk@;
            let mut k: usize = 0;
            while k < chunk.len()
                invariant
                    k <= chunk@.len(),
                    chunk@.len() == members.len(),
                    forall|entity: u64| call_requires(entity_mapper, (entity,)),
                    forall|at: int|
                        0 <= at < k ==> call_ensures(
                            entity_mapper,
                            (members[at],),
                            #[trigger] chunk@[at],
                        ),
                    forall|at: int| k <= at < members.len() ==> #[trigger] chunk@[at] == members[at],
                decreases chunk@.len() - k,
            {
                let mapped = entity_mapper(chunk[k]);
                chunk.set(k, mapped);
                k += 1;
            }
            proof {
                assert(chunk_map_contents(self.chunks).dom() =~= entries);
                assert(members == earlier[here]);
                assert forall|other: IVec2| other != here implies #[trigger] self@[other]
                    == earlier[other] by {}
                assert forall|other: IVec2|
                    !(exists|at: int|
                        0 <= at < i + 1 && keys@[at] == (other.x, other.y)) implies #[trigger] self@[other]
                    == before[other] by {
                    if other == here {
                        assert(keys@[i as int] == (other.x, other.y));
                    } else {
                        if exists|at: int| 0 <= at < i && keys@[at] == (other.x, other.y) {
                            let at = choose|at: int| 0 <= at < i && keys@[at] == (other.x, other.y);
                            assert(0 <= at < i + 1 && keys@[at] == (other.x, other.y));
                        }
                    }
                }
                assert forall|other: IVec2, k: int|
                    (exists|at: int| 0 <= at < i + 1 && keys@[at] == (other.x, other.y)) && 0 <= k
                        < before[other].len() implies call_ensures(
                    entity_mapper,
                    (before[other][k],),
                    #[trigger] self@[other][k],
                ) by {
                    if other == here {
                        assert(earlier[here] == before[here]);
                    } else {
                        let at = choose|at: int| 0 <= at < i + 1 && keys@[at] == (other.x, other.y);
                        assert(at < i);
                    }
                }
            }
            i += 1;
        }
        proof {
            assert forall|chunk: IVec2, k: int| 0 <= k < before[chunk].len() implies call_ensures(
                entity_mapper,
                (before[chunk][k],),
                #[trigger] self@[chunk][k],
            ) by {
                if entries.contains((chunk.x, chunk.y)) {
                    assert(keys@.contains((chunk.x, chunk.y)));
                    let at = choose|at: int| 0 <= at < keys@.len() && keys@[at] == (chunk.x, chunk.y);
                    assert(0 <= at < i && keys@[at] == (chunk.x, chunk.y));
                }
            }
        }
    }

    /// Iterates over all chunks that intersect with the given `aabb`, column
    /// by column, and hands out their handles: each handle once for every
    /// such chunk that has it.
    pub fn iter_chunks_on_aabb(&self, aabb: Aabb2d) -> (r: Vec<u64>)
        ensures
            r@ == members_on(self@, aabb, self.chunk_size()),
    {
        let min = self.global_to_chunk(aabb.min);
        let max = self.global_to_chunk(aabb.max);
        let mut found: Vec<u64> = Vec::new();
        let mut x: i64 = min.x as i64;
        while x <= max.x as i64
            invariant
                min.x <= x,
                x <= max.x + 1 || x == min.x,
                found@ == span_members(self@, min, x - 1, max.y as int),
            decreases max.x + 1 - x,
        {
            let ghost columns = found@;
            let mut y: i64 = min.y as i64;
            while y <= max.y as i64
                invariant
                    min.x <= x <= max.x,
                    min.y <= y,
                    y <= max.y + 1 || y == min.y,
                    found@ == columns + column_members(self@, x as int, min.y as int, y - 1),
                decreases max.y + 1 - y,
            {
                let ghost rows = found@;
                match chunk_map_get(&self.chunks, x as i32, y as i32) {
                    Some(members) => {
                        let mut i: usize = 0;
                        while i < members.len()
                            invariant
                                i <= members@.len(),
                                found@ == rows + members@.take(i as int),
                            decreases members@.len() - i,
                        {
                            found.push(members[i]);
                            assert(members@.take(i + 1) == members@.take(i as int).push(members@[i as int]));
                            i += 1;
                        }
                        assert(members@.take(members@.len() as int) == members@);
                    },
                    None => {},
                }
                assert(found@ == rows + self@[IVec2 { x: x as i32, y: y as i32 }]);
                assert(found@ == columns + column_members(self@, x as int, min.y as int, y as int));
                y += 1;
            }
            assert(found@ == span_members(self@, min, x as int, max.y as int)) by {
                if max.y < min.y {
                    assert(column_members(self@, x as int, min.y as int, max.y as int) == Seq::<
                        u64,
                    >::empty());
                    assert(y == min.y);
                    assert(column_members(self@, x as int, min.y as int, y - 1) == Seq::<
                        u64,
                    >::empty());
                } else {
                    assert(y == max.y + 1);
                }
            }
            x += 1;
        }
        assert(found@ == span_members(self@, min, max.x as int, max.y as int)) by {
            if max.x < min.x {
                assert(x == min.x);
                assert(span_members(self@, min, x - 1, max.y as int) == Seq::<u64>::empty());
                assert(span_members(self@, min, max.x as int, max.y as int) == Seq::<u64>::empty());
            } else {
                assert(x == max.x + 1);
            }
        }
        found
    }
}

/// Takes the first `entity` out of `chunk`, putting the last handle in its
/// place.
fn take_out(chunk: &mut Vec<u64>, entity: u64)
    ensures
        final(chunk)@ == swap_removed(old(chunk)@, entity),
{
    let mut i: usize = 0;
    while i < chunk.len()
        invariant
            i <= chunk@.len(),
            chunk@ == old(chunk)@,
            forall|j: int| 0 <= j < i ==> chunk@[j] != entity,
        decreases chunk@.len() - i,
    {
        if chunk[i] == entity {
            proof {
                lemma_first_index(chunk@, entity, i as int);
            }
            chunk.swap_remove(i);
            return ;
        }
        i += 1;
    }
    assert(!chunk@.contains(entity));
}

/// The first place of `entity` is the one before which it does not stand.
proof fn lemma_first_index(members: Seq<u64>, entity: u64, i: int)
    requires
        0 <= i < members.len(),
        members[i] == entity,
        forall|j: int| 0 <= j < i ==> members[j] != entity,
    ensures
        members.contains(entity),
        first_index(members, entity) == i,
{
    let found = first_index(members, entity);
    assert(0 <= found < members.len() && members[found] == entity && forall|j: int|
        0 <= j < found ==> members[j] != entity);
    if found < i {
        assert(members[found] != entity);
    }
    if i < found {
        assert(members[i] != entity);
    }
}

/// A number of whole chunks lies no further from zero than the position it
/// was counted for.
proof fn lemma_quotient_fits(global: int, pixels_per_chunk: int)
    requires
        pixels_per_chunk > 0,
    ensures
        global >= 0 ==> 0 <= global / pixels_per_chunk <= global,
        global < 0 ==> global <= global / pixels_per_chunk < 0,
{
    vstd::arithmetic::div_mod::lemma_fundamental_div_mod(global, pixels_per_chunk);
    let q = global / pixels_per_chunk;
    let r = global % pixels_per_chunk;
    assert(0 <= r < pixels_per_chunk) by {
        vstd::arithmetic::div_mod::lemma_mod_bound(global, pixels_per_chunk);
    }
    assert(global >= 0 ==> 0 <= q <= global) by (nonlinear_arith)
        requires
            global == pixels_per_chunk * q + r,
            0 <= r < pixels_per_chunk,
    ;
    assert(global < 0 ==> global <= q < 0) by (nonlinear_arith)
        requires
            global == pixels_per_chunk * q + r,
            0 <= r < pixels_per_chunk,
    ;
}

/// The corner of a chunk lies within the `i64` range.
proof fn lemma_corner_fits(chunk: int, pixels_per_chunk: int)
    by (nonlinear_arith)
    requires
        i32::MIN <= chunk <= i32::MAX,
        0 <= pixels_per_chunk <= u32::MAX,
    ensures
        i64::MIN <= chunk * pixels_per_chunk <= i64::MAX,
{
}

} // verus!
