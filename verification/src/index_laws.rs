//! What holds of the spatial index however it was filled: its chunks reflect
//! the hurtboxes that are registered, and a query finds exactly those whose
//! box reaches into a chunk that the query's box reaches into.

use crate::bounded::{Aabb2d, IVec2};
use crate::spatial_index::{
    changed_chunks, chunk_coordinate, chunk_of, chunks_after, column_members, first_index,
    in_span, members_on, no_chunks, span_members, swap_removed, with_entity, without_entity,
    without_entity_anywhere, IndexChange,
};
use vstd::prelude::*;

verus! {

/// Whether `chunks` reflect the registration `registered`, which gives each
/// registered handle its last-known box: a chunk holds exactly the handles
/// whose box reaches into it, each once.
pub open spec fn reflects(
    chunks: Map<IVec2, Seq<u64>>,
    pixels_per_chunk: u32,
    registered: Map<u64, Aabb2d>,
) -> bool {
    &&& chunks.dom() == Set::<IVec2>::full()
    &&& forall|chunk: IVec2| (#[trigger] chunks[chunk]).no_duplicates()
    &&& forall|chunk: IVec2, entity: u64| #[trigger]
        chunks[chunk].contains(entity) <==> registered.contains_key(entity) && in_span(
            chunk,
            registered[entity],
            pixels_per_chunk,
        )
}

/// Whether the boxes `a` and `b` reach into a common chunk.
pub open spec fn spans_overlap(a: Aabb2d, b: Aabb2d, pixels_per_chunk: u32) -> bool {
    exists|chunk: IVec2| #[trigger]
        in_span(chunk, a, pixels_per_chunk) && in_span(chunk, b, pixels_per_chunk)
}

/// Whether the box holds a position at all.
pub open spec fn inhabited(aabb: Aabb2d) -> bool {
    aabb.min.x <= aabb.max.x && aabb.min.y <= aabb.max.y
}

/// The registration after one change.
pub open spec fn changed_registration(registered: Map<u64, Aabb2d>, change: IndexChange) -> Map<
    u64,
    Aabb2d,
> {
    match change {
        IndexChange::Added { entity, aabb } => registered.insert(entity, aabb),
        IndexChange::Changed { entity, old_aabb, new_aabb } => registered.insert(entity, new_aabb),
        IndexChange::Removed { entity, last_aabb } => registered.remove(entity),
    }
}

/// Whether `change` is in keeping with the registration: what is added is not
/// registered yet, and what is changed or removed is registered with the box
/// that the change names as its last.
pub open spec fn in_keeping(registered: Map<u64, Aabb2d>, change: IndexChange) -> bool {
    match change {
        IndexChange::Added { entity, aabb } => !registered.contains_key(entity),
        IndexChange::Changed { entity, old_aabb, new_aabb } => registered.contains_key(entity)
            && registered[entity] == old_aabb,
        IndexChange::Removed { entity, last_aabb: Some(aabb) } => registered.contains_key(entity)
            && registered[entity] == aabb,
        IndexChange::Removed { entity, last_aabb: None } => true,
    }
}

/// The registration after a run of changes, made in their order.
pub open spec fn registered_after(registered: Map<u64, Aabb2d>, changes: Seq<IndexChange>) -> Map<
    u64,
    Aabb2d,
>
    decreases changes.len(),
{
    if changes.len() == 0 {
        registered
    } else {
        changed_registration(registered_after(registered, changes.drop_last()), changes.last())
    }
}

/// Whether each change of the run is in keeping with the registration that
/// the changes before it have left.
pub open spec fn all_in_keeping(registered: Map<u64, Aabb2d>, changes: Seq<IndexChange>) -> bool
    decreases changes.len(),
{
    changes.len() == 0 || (all_in_keeping(registered, changes.drop_last()) && in_keeping(
        registered_after(registered, changes.drop_last()),
        changes.last(),
    ))
}

/// Taking a handle out of a chunk that has it once leaves the other handles,
/// each once.
pub proof fn lemma_swap_removed(members: Seq<u64>, entity: u64)
    requires
        members.no_duplicates(),
    ensures
        swap_removed(members, entity).no_duplicates(),
        forall|other: u64|
            swap_removed(members, entity).contains(other) <==> members.contains(other) && other
                != entity,
{
    let rest = swap_removed(members, entity);
    if members.contains(entity) {
        let i = first_index(members, entity);
        let last = members.len() - 1;
        assert(0 <= i < members.len() && members[i] == entity);
        assert forall|j: int, k: int| 0 <= j < rest.len() && 0 <= k < rest.len() && j != k implies rest[j]
            != rest[k] by {
            let from_j = if j == i { last } else { j };
            let from_k = if k == i { last } else { k };
            assert(rest[j] == members[from_j] && rest[k] == members[from_k]);
        }
        assert forall|other: u64| rest.contains(other) <==> members.contains(other) && other
            != entity by {
            if rest.contains(other) {
                let j = choose|j: int| 0 <= j < rest.len() && rest[j] == other;
                let from_j = if j == i { last } else { j };
                assert(members[from_j] == other && from_j != i);
            }
            if members.contains(other) && other != entity {
                let k = choose|k: int| 0 <= k < members.len() && members[k] == other;
                if k == last {
                    assert(rest[i] == other);
                } else {
                    assert(rest[k] == other);
                }
            }
        }
    }
}

/// Chunks without any handle reflect the registration without any hurtbox.
pub proof fn lemma_no_chunks_reflect_nothing(pixels_per_chunk: u32)
    ensures
        reflects(no_chunks(), pixels_per_chunk, Map::empty()),
{
}

/// Adding a handle that is not registered yet registers it with its box.
pub proof fn lemma_add_reflects(
    chunks: Map<IVec2, Seq<u64>>,
    pixels_per_chunk: u32,
    registered: Map<u64, Aabb2d>,
    entity: u64,
    aabb: Aabb2d,
)
    requires
        reflects(chunks, pixels_per_chunk, registered),
        !registered.contains_key(entity),
    ensures
        reflects(
            with_entity(chunks, entity, aabb, pixels_per_chunk),
            pixels_per_chunk,
            registered.insert(entity, aabb),
        ),
{
    let after = with_entity(chunks, entity, aabb, pixels_per_chunk);
    let registered_then = registered.insert(entity, aabb);
    assert forall|chunk: IVec2| (#[trigger] after[chunk]).no_duplicates() by {
        assert(chunks[chunk].no_duplicates());
        assert(!chunks[chunk].contains(entity));
    }
    assert forall|chunk: IVec2, other: u64| #[trigger]
        after[chunk].contains(other) <==> registered_then.contains_key(other) && in_span(
            chunk,
            registered_then[other],
            pixels_per_chunk,
        ) by {
        assert(chunks[chunk].contains(other) <==> registered.contains_key(other) && in_span(
            chunk,
            registered[other],
            pixels_per_chunk,
        ));
        if in_span(chunk, aabb, pixels_per_chunk) {
            let members = chunks[chunk];
            assert(after[chunk] == members.push(entity));
            if members.contains(other) {
                let k = choose|k: int| 0 <= k < members.len() && members[k] == other;
                assert(after[chunk][k] == other);
            }
            if other == entity {
                assert(after[chunk][members.len() as int] == entity);
            }
        }
    }
}

/// Removing a registered handle with its last-known box takes it out of the
/// registration.
pub proof fn lemma_remove_reflects(
    chunks: Map<IVec2, Seq<u64>>,
    pixels_per_chunk: u32,
    registered: Map<u64, Aabb2d>,
    entity: u64,
    aabb: Aabb2d,
)
    requires
        reflects(chunks, pixels_per_chunk, registered),
        registered.contains_key(entity),
        registered[entity] == aabb,
    ensures
        reflects(
            without_entity(chunks, entity, aabb, pixels_per_chunk),
            pixels_per_chunk,
            registered.remove(entity),
        ),
{
    let after = without_entity(chunks, entity, aabb, pixels_per_chunk);
    let registered_then = registered.remove(entity);
    assert forall|chunk: IVec2| (#[trigger] after[chunk]).no_duplicates() by {
        assert(chunks[chunk].no_duplicates());
        lemma_swap_removed(chunks[chunk], entity);
    }
    assert forall|chunk: IVec2, other: u64| #[trigger]
        after[chunk].contains(other) <==> registered_then.contains_key(other) && in_span(
            chunk,
            registered_then[other],
            pixels_per_chunk,
        ) by {
        assert(chunks[chunk].no_duplicates());
        assert(chunks[chunk].contains(other) <==> registered.contains_key(other) && in_span(
            chunk,
            registered[other],
            pixels_per_chunk,
        ));
        assert(chunks[chunk].contains(entity) <==> in_span(chunk, aabb, pixels_per_chunk));
        lemma_swap_removed(chunks[chunk], entity);
    }
}

/// Removing a handle from every chunk takes it out of the registration,
/// whether it was registered or not.
pub proof fn lemma_remove_anywhere_reflects(
    chunks: Map<IVec2, Seq<u64>>,
    pixels_per_chunk: u32,
    registered: Map<u64, Aabb2d>,
    entity: u64,
)
    requires
        reflects(chunks, pixels_per_chunk, registered),
    ensures
        reflects(without_entity_anywhere(chunks, entity), pixels_per_chunk, registered.remove(entity)),
{
    let after = without_entity_anywhere(chunks, entity);
    let registered_then = registered.remove(entity);
    assert forall|chunk: IVec2| (#[trigger] after[chunk]).no_duplicates() by {
        assert(chunks[chunk].no_duplicates());
        lemma_swap_removed(chunks[chunk], entity);
    }
    assert forall|chunk: IVec2, other: u64| #[trigger]
        after[chunk].contains(other) <==> registered_then.contains_key(other) && in_span(
            chunk,
            registered_then[other],
            pixels_per_chunk,
        ) by {
        assert(chunks[chunk].no_duplicates());
        assert(chunks[chunk].contains(other) <==> registered.contains_key(other) && in_span(
            chunk,
            registered[other],
            pixels_per_chunk,
        ));
        lemma_swap_removed(chunks[chunk], entity);
    }
}

/// A change that is in keeping with the registration leaves chunks that
/// reflect the changed registration.
pub proof fn lemma_change_reflects(
    chunks: Map<IVec2, Seq<u64>>,
    pixels_per_chunk: u32,
    registered: Map<u64, Aabb2d>,
    change: IndexChange,
)
    requires
        reflects(chunks, pixels_per_chunk, registered),
        in_keeping(registered, change),
    ensures
        reflects(
            changed_chunks(chunks, pixels_per_chunk, change),
            pixels_per_chunk,
            changed_registration(registered, change),
        ),
{
    match change {
        IndexChange::Added { entity, aabb } => {
            lemma_add_reflects(chunks, pixels_per_chunk, registered, entity, aabb);
        },
        IndexChange::Changed { entity, old_aabb, new_aabb } => {
            lemma_remove_reflects(chunks, pixels_per_chunk, registered, entity, old_aabb);
            lemma_add_reflects(
                without_entity(chunks, entity, old_aabb, pixels_per_chunk),
                pixels_per_chunk,
                registered.remove(entity),
                entity,
                new_aabb,
            );
            assert(registered.remove(entity).insert(entity, new_aabb) =~= registered.insert(
                entity,
                new_aabb,
            ));
        },
        IndexChange::Removed { entity, last_aabb: Some(aabb) } => {
            lemma_remove_reflects(chunks, pixels_per_chunk, registered, entity, aabb);
        },
        IndexChange::Removed { entity, last_aabb: None } => {
            lemma_remove_anywhere_reflects(chunks, pixels_per_chunk, registered, entity);
        },
    }
}

/// Whatever run of changes was made, each in keeping with the registration at
/// its time, the chunks reflect the registration that the run has left.
pub proof fn lemma_changes_reflect(
    chunks: Map<IVec2, Seq<u64>>,
    pixels_per_chunk: u32,
    registered: Map<u64, Aabb2d>,
    changes: Seq<IndexChange>,
)
    requires
        reflects(chunks, pixels_per_chunk, registered),
        all_in_keeping(registered, changes),
    ensures
        reflects(
            chunks_after(chunks, pixels_per_chunk, changes),
            pixels_per_chunk,
            registered_after(registered, changes),
        ),
    decreases changes.len(),
{
    if changes.len() > 0 {
        lemma_changes_reflect(chunks, pixels_per_chunk, registered, changes.drop_last());
        lemma_change_reflects(
            chunks_after(chunks, pixels_per_chunk, changes.drop_last()),
            pixels_per_chunk,
            registered_after(registered, changes.drop_last()),
            changes.last(),
        );
    }
}

/// A handle is among those of a stretch of a column exactly when a chunk of
/// the stretch has it.
pub proof fn lemma_column_members(
    chunks: Map<IVec2, Seq<u64>>,
    x: i32,
    y_min: i32,
    y_max: int,
    entity: u64,
)
    requires
        y_max <= i32::MAX,
    ensures
        column_members(chunks, x as int, y_min as int, y_max).contains(entity) <==> exists|
            chunk: IVec2,
        |
            chunk.x == x && y_min <= chunk.y <= y_max && #[trigger] chunks[chunk].contains(entity),
    decreases y_max - y_min + 1,
{
    if y_max >= y_min {
        lemma_column_members(chunks, x, y_min, y_max - 1, entity);
        let below = column_members(chunks, x as int, y_min as int, y_max - 1);
        let top = IVec2 { x, y: y_max as i32 };
        let all = below + chunks[top];
        if below.contains(entity) {
            let k = choose|k: int| 0 <= k < below.len() && below[k] == entity;
            assert(all[k] == entity);
            let chunk = choose|chunk: IVec2|
                chunk.x == x && y_min <= chunk.y <= y_max - 1 && #[trigger] chunks[chunk].contains(
                    entity,
                );
            assert(chunk.x == x && y_min <= chunk.y <= y_max && chunks[chunk].contains(entity));
        }
        if chunks[top].contains(entity) {
            let k = choose|k: int| 0 <= k < chunks[top].len() && chunks[top][k] == entity;
            assert(all[below.len() + k] == entity);
        }
        if all.contains(entity) {
            let k = choose|k: int| 0 <= k < all.len() && all[k] == entity;
            if k < below.len() {
                assert(below[k] == entity);
            } else {
                assert(chunks[top][k - below.len()] == entity);
            }
        }
        if exists|chunk: IVec2|
            chunk.x == x && y_min <= chunk.y <= y_max && #[trigger] chunks[chunk].contains(entity) {
            let chunk = choose|chunk: IVec2|
                chunk.x == x && y_min <= chunk.y <= y_max && #[trigger] chunks[chunk].contains(
                    entity,
                );
            if chunk.y == y_max {
                assert(chunk == top);
            } else {
                assert(chunk.x == x && y_min <= chunk.y <= y_max - 1 && chunks[chunk].contains(
                    entity,
                ));
            }
        }
    }
}

/// A handle is among those of a block of chunks exactly when a chunk of the
/// block has it.
pub proof fn lemma_span_members(
    chunks: Map<IVec2, Seq<u64>>,
    min: IVec2,
    x_max: int,
    y_max: i32,
    entity: u64,
)
    requires
        x_max <= i32::MAX,
    ensures
        span_members(chunks, min, x_max, y_max as int).contains(entity) <==> exists|chunk: IVec2|
            min.x <= chunk.x <= x_max && min.y <= chunk.y <= y_max && #[trigger] chunks[chunk].contains(
                entity,
            ),
    decreases x_max - min.x + 1,
{
    if x_max >= min.x {
        lemma_span_members(chunks, min, x_max - 1, y_max, entity);
        lemma_column_members(chunks, x_max as i32, min.y, y_max as int, entity);
        let left = span_members(chunks, min, x_max - 1, y_max as int);
        let column = column_members(chunks, x_max, min.y as int, y_max as int);
        let all = left + column;
        if left.contains(entity) {
            let k = choose|k: int| 0 <= k < left.len() && left[k] == entity;
            assert(all[k] == entity);
            let chunk = choose|chunk: IVec2|
                min.x <= chunk.x <= x_max - 1 && min.y <= chunk.y <= y_max && #[trigger] chunks[chunk].contains(
                    entity,
                );
            assert(min.x <= chunk.x <= x_max && min.y <= chunk.y <= y_max && chunks[chunk].contains(
                entity,
            ));
        }
        if column.contains(entity) {
            let k = choose|k: int| 0 <= k < column.len() && column[k] == entity;
            assert(all[left.len() + k] == entity);
            let chunk = choose|chunk: IVec2|
                chunk.x == x_max && min.y <= chunk.y <= y_max && #[trigger] chunks[chunk].contains(
                    entity,
                );
            assert(min.x <= chunk.x <= x_max && min.y <= chunk.y <= y_max && chunks[chunk].contains(
                entity,
            ));
        }
        if all.contains(entity) {
            let k = choose|k: int| 0 <= k < all.len() && all[k] == entity;
            if k < left.len() {
                assert(left[k] == entity);
            } else {
                assert(column[k - left.len()] == entity);
            }
        }
        if exists|chunk: IVec2|
            min.x <= chunk.x <= x_max && min.y <= chunk.y <= y_max && #[trigger] chunks[chunk].contains(
                entity,
            ) {
            let chunk = choose|chunk: IVec2|
                min.x <= chunk.x <= x_max && min.y <= chunk.y <= y_max && #[trigger] chunks[chunk].contains(
                    entity,
                );
            if chunk.x == x_max {
                assert(chunk.x == x_max && min.y <= chunk.y <= y_max && chunks[chunk].contains(
                    entity,
                ));
            } else {
                assert(min.x <= chunk.x <= x_max - 1 && min.y <= chunk.y <= y_max
                    && chunks[chunk].contains(entity));
            }
        }
    }
}

/// A query hands out a handle exactly when a chunk that the query's box
/// reaches into has it.
pub proof fn lemma_members_on(
    chunks: Map<IVec2, Seq<u64>>,
    aabb: Aabb2d,
    pixels_per_chunk: u32,
    entity: u64,
)
    ensures
        members_on(chunks, aabb, pixels_per_chunk).contains(entity) <==> exists|chunk: IVec2|
            in_span(chunk, aabb, pixels_per_chunk) && #[trigger] chunks[chunk].contains(entity),
{
    let min = chunk_of(aabb.min, pixels_per_chunk);
    let max = chunk_of(aabb.max, pixels_per_chunk);
    lemma_span_members(chunks, min, max.x as int, max.y, entity);
    if members_on(chunks, aabb, pixels_per_chunk).contains(entity) {
        let chunk = choose|chunk: IVec2|
            min.x <= chunk.x <= max.x && min.y <= chunk.y <= max.y && #[trigger] chunks[chunk].contains(
                entity,
            );
        assert(in_span(chunk, aabb, pixels_per_chunk) && chunks[chunk].contains(entity));
    }
    if exists|chunk: IVec2|
        in_span(chunk, aabb, pixels_per_chunk) && #[trigger] chunks[chunk].contains(entity) {
        let chunk = choose|chunk: IVec2|
            in_span(chunk, aabb, pixels_per_chunk) && #[trigger] chunks[chunk].contains(entity);
        assert(min.x <= chunk.x <= max.x && min.y <= chunk.y <= max.y && chunks[chunk].contains(
            entity,
        ));
    }
}

/// On chunks that reflect a registration, a query finds exactly the
/// registered handles whose last-known box reaches into a chunk that the
/// query's box reaches into.
pub proof fn lemma_query_reflects(
    chunks: Map<IVec2, Seq<u64>>,
    pixels_per_chunk: u32,
    registered: Map<u64, Aabb2d>,
    aabb: Aabb2d,
)
    requires
        reflects(chunks, pixels_per_chunk, registered),
    ensures
        forall|entity: u64| #[trigger]
            members_on(chunks, aabb, pixels_per_chunk).contains(entity) <==> registered.contains_key(
                entity,
            ) && spans_overlap(registered[entity], aabb, pixels_per_chunk),
{
    assert forall|entity: u64| #[trigger]
        members_on(chunks, aabb, pixels_per_chunk).contains(entity) <==> registered.contains_key(
            entity,
        ) && spans_overlap(registered[entity], aabb, pixels_per_chunk) by {
        lemma_members_on(chunks, aabb, pixels_per_chunk, entity);
        if members_on(chunks, aabb, pixels_per_chunk).contains(entity) {
            let chunk = choose|chunk: IVec2|
                in_span(chunk, aabb, pixels_per_chunk) && #[trigger] chunks[chunk].contains(entity);
            assert(in_span(chunk, registered[entity], pixels_per_chunk) && in_span(
                chunk,
                aabb,
                pixels_per_chunk,
            ));
        }
        if registered.contains_key(entity) && spans_overlap(
            registered[entity],
            aabb,
            pixels_per_chunk,
        ) {
            let chunk = choose|chunk: IVec2| #[trigger]
                in_span(chunk, registered[entity], pixels_per_chunk) && in_span(
                    chunk,
                    aabb,
                    pixels_per_chunk,
                );
            assert(chunks[chunk].contains(entity));
        }
    }
}

/// Positions further along an axis lie in chunks further along it.
pub proof fn lemma_chunk_coordinate_ascends(a: int, b: int, pixels_per_chunk: int)
    requires
        a <= b,
        pixels_per_chunk >= 0,
    ensures
        chunk_coordinate(a, pixels_per_chunk) <= chunk_coordinate(b, pixels_per_chunk),
{
    if pixels_per_chunk > 0 {
        vstd::arithmetic::div_mod::lemma_div_is_ordered(a, b, pixels_per_chunk);
    }
}

/// Boxes that overlap reach into a common chunk, whatever the side of a chunk.
pub proof fn lemma_intersecting_spans_overlap(a: Aabb2d, b: Aabb2d, pixels_per_chunk: u32)
    requires
        inhabited(a),
        inhabited(b),
        a.intersects_spec(b),
    ensures
        spans_overlap(a, b, pixels_per_chunk),
{
    let side = pixels_per_chunk as int;
    let x: int = if a.min.x <= b.min.x { b.min.x as int } else { a.min.x as int };
    let y: int = if a.min.y <= b.min.y { b.min.y as int } else { a.min.y as int };
    let chunk = IVec2 { x: chunk_coordinate(x, side) as i32, y: chunk_coordinate(y, side) as i32 };
    lemma_chunk_coordinate_ascends(a.min.x as int, x, side);
    lemma_chunk_coordinate_ascends(x, a.max.x as int, side);
    lemma_chunk_coordinate_ascends(b.min.x as int, x, side);
    lemma_chunk_coordinate_ascends(x, b.max.x as int, side);
    lemma_chunk_coordinate_ascends(a.min.y as int, y, side);
    lemma_chunk_coordinate_ascends(y, a.max.y as int, side);
    lemma_chunk_coordinate_ascends(b.min.y as int, y, side);
    lemma_chunk_coordinate_ascends(y, b.max.y as int, side);
    assert(in_span(chunk, a, pixels_per_chunk) && in_span(chunk, b, pixels_per_chunk));
}

/// However an empty index was filled by changes in keeping with the
/// registration, a query finds exactly the registered handles whose last-known
/// box reaches into a chunk that the query's box reaches into; among them is
/// every registered handle whose last-known box overlaps the query's.
pub proof fn lemma_query_after_changes(
    pixels_per_chunk: u32,
    changes: Seq<IndexChange>,
    aabb: Aabb2d,
)
    requires
        all_in_keeping(Map::empty(), changes),
    ensures
        forall|entity: u64| #[trigger]
            members_on(chunks_after(no_chunks(), pixels_per_chunk, changes), aabb, pixels_per_chunk).contains(
                entity,
            ) <==> registered_after(Map::empty(), changes).contains_key(entity) && spans_overlap(
                registered_after(Map::empty(), changes)[entity],
                aabb,
                pixels_per_chunk,
            ),
        forall|entity: u64|
            #![trigger registered_after(Map::empty(), changes)[entity]]
            registered_after(Map::empty(), changes).contains_key(entity) && inhabited(aabb)
                && inhabited(registered_after(Map::empty(), changes)[entity]) && registered_after(
                Map::empty(),
                changes,
            )[entity].intersects_spec(aabb) ==> members_on(
                chunks_after(no_chunks(), pixels_per_chunk, changes),
                aabb,
                pixels_per_chunk,
            ).contains(entity),
{
    let chunks = chunks_after(no_chunks(), pixels_per_chunk, changes);
    let registered = registered_after(Map::empty(), changes);
    lemma_no_chunks_reflect_nothing(pixels_per_chunk);
    lemma_changes_reflect(no_chunks(), pixels_per_chunk, Map::empty(), changes);
    lemma_query_reflects(chunks, pixels_per_chunk, registered, aabb);
    assert forall|entity: u64|
        #![trigger registered[entity]]
        registered.contains_key(entity) && inhabited(aabb) && inhabited(registered[entity])
            && registered[entity].intersects_spec(aabb) implies members_on(
        chunks,
        aabb,
        pixels_per_chunk,
    ).contains(entity) by {
        lemma_intersecting_spans_overlap(registered[entity], aabb, pixels_per_chunk);
    }
}

/// Where no registered box shares a chunk with the query's box without
/// overlapping it, and the boxes overlap only where they hold a position, the
/// handles that a query finds are exactly those of the registered hurtboxes
/// whose last-known box overlaps the query's.
pub proof fn lemma_query_finds_the_overlapping(
    pixels_per_chunk: u32,
    changes: Seq<IndexChange>,
    aabb: Aabb2d,
)
    requires
        all_in_keeping(Map::empty(), changes),
        forall|entity: u64|
            #![trigger registered_after(Map::empty(), changes)[entity]]
            registered_after(Map::empty(), changes).contains_key(entity) ==> {
                let last_known = registered_after(Map::empty(), changes)[entity];
                &&& spans_overlap(last_known, aabb, pixels_per_chunk) ==> last_known.intersects_spec(
                    aabb,
                )
                &&& last_known.intersects_spec(aabb) ==> inhabited(last_known) && inhabited(aabb)
            },
    ensures
        members_on(
            chunks_after(no_chunks(), pixels_per_chunk, changes),
            aabb,
            pixels_per_chunk,
        ).to_set() == Set::new(
            |entity: u64|
                registered_after(Map::empty(), changes).contains_key(entity) && registered_after(
                    Map::empty(),
                    changes,
                )[entity].intersects_spec(aabb),
        ),
{
    let found = members_on(chunks_after(no_chunks(), pixels_per_chunk, changes), aabb, pixels_per_chunk);
    let registered = registered_after(Map::empty(), changes);
    let overlapping = Set::new(
        |entity: u64| registered.contains_key(entity) && registered[entity].intersects_spec(aabb),
    );
    lemma_query_after_changes(pixels_per_chunk, changes, aabb);
    assert forall|entity: u64| found.to_set().contains(entity) <==> overlapping.contains(entity) by {
        assert(found.to_set().contains(entity) <==> found.contains(entity));
        if registered.contains_key(entity) {
            let last_known = registered[entity];
            if last_known.intersects_spec(aabb) {
                assert(found.contains(entity));
            }
        }
    }
    assert(found.to_set() =~= overlapping);
}

} // verus!
