//! Sorting and searching with a caller-supplied comparison.

use core::cmp::Ordering;
use vstd::prelude::*;

verus! {

/// The element of `s` at position `i`.
pub open spec fn item_at<T>(s: Seq<T>, i: usize) -> T {
    s[i as int]
}

/// `comparison`, asked about `a` and then `b`, gave an answer other than `Greater`.
pub open spec fn answers_not_greater<T, F: Fn(&T, &T) -> Ordering>(
    comparison: F,
    a: T,
    b: T,
) -> bool {
    exists|o: Ordering| o != Ordering::Greater && #[trigger] call_ensures(comparison, (&a, &b), o)
}

/// What the comparison said of two neighbours of a sorted slice: asked about
/// them as they stand it did not say `Greater`, or asked about them the other
/// way round it did.
pub open spec fn in_order<T, F: Fn(&T, &T) -> Ordering>(comparison: F, a: T, b: T) -> bool {
    answers_not_greater(comparison, a, b) || call_ensures(comparison, (&b, &a), Ordering::Greater)
}

/// Every element of `s` stands in order with the one before it.
pub open spec fn neighbours_in_order<T, F: Fn(&T, &T) -> Ordering>(comparison: F, s: Seq<T>) -> bool {
    forall|k: int| 0 < k < s.len() ==> in_order(comparison, s[k - 1], #[trigger] s[k])
}

/// `s` with the elements at `a` and `b` exchanged.
pub open spec fn swapped<T>(s: Seq<T>, a: int, b: int) -> Seq<T> {
    s.update(a, s[b]).update(b, s[a])
}

/// Exchanging two elements keeps the multiset of elements.
pub proof fn lemma_swapped_keeps_multiset<T>(s: Seq<T>, a: int, b: int)
    requires
        0 <= a < s.len(),
        0 <= b < s.len(),
    ensures
        swapped(s, a, b).to_multiset() == s.to_multiset(),
{
    broadcast use vstd::seq_lib::to_multiset_update;
    broadcast use vstd::multiset::group_multiset_axioms;

    let mid = s.update(a, s[b]);
    assert(mid.to_multiset() == s.to_multiset().insert(s[b]).remove(s[a]));
    assert(swapped(s, a, b).to_multiset() == mid.to_multiset().insert(s[a]).remove(mid[b]));
    assert(s.to_multiset().count(s[a]) > 0 && s.to_multiset().count(s[b]) > 0) by {
        s.to_multiset_ensures();
        assert(s.contains(s[a]) && s.contains(s[b]));
    }
    assert(swapped(s, a, b).to_multiset() =~= s.to_multiset());
}

/// `<[T]>::swap`: exchanges the elements at `a` and `b`, which must both lie
/// within the slice, and leaves every other element where it was.
#[verifier::external_body]
fn swap_items<T>(items: &mut [T], a: usize, b: usize)
    requires
        a < old(items)@.len(),
        b < old(items)@.len(),
    ensures
        final(items)@ == swapped(old(items)@, a as int, b as int),
{
    items.swap(a, b)
}

/// Whether `comparison` can be asked about any two elements of `s`.
pub open spec fn can_compare_all<T, F: Fn(&T, &T) -> Ordering>(comparison: F, s: Seq<T>) -> bool {
    forall|a: int, b: int|
        0 <= a < s.len() && 0 <= b < s.len() ==> call_requires(
            comparison,
            (&#[trigger] s[a], &#[trigger] s[b]),
        )
}

/// The sequence in which every place holds its own number.
pub open spec fn each_in_place(len: usize) -> Seq<int> {
    Seq::new(len as nat, |k: int| k)
}

/// Whether `after` holds the elements of `before` in another order, the one
/// at `k` being the one that stood at `from[k]`, and no two of them have
/// changed their order unless `comparison` called the one that stood first
/// `Greater` than the other.
pub open spec fn rearranged_stably<T, F: Fn(&T, &T) -> Ordering>(
    comparison: F,
    before: Seq<T>,
    after: Seq<T>,
    from: Seq<int>,
) -> bool {
    &&& from.len() == after.len()
    &&& before.len() == after.len()
    &&& from.no_duplicates()
    &&& forall|k: int|
        0 <= k < after.len() ==> 0 <= #[trigger] from[k] < before.len() && after[k]
            == before[from[k]]
    &&& forall|a: int, b: int|
        0 <= a < b < after.len() && #[trigger] from[a] > #[trigger] from[b] ==> call_ensures(
            comparison,
            (&after[b], &after[a]),
            Ordering::Greater,
        )
}

/// Sorts `items` in place by repeated insertion: each element in turn moves
/// towards the front for as long as `comparison` calls the element before it
/// `Greater`.
///
/// The elements are kept, and afterwards every pair of neighbours is
/// [`in_order`]. For a comparison that follows a total order this means that
/// the slice is sorted: see [`lemma_neighbours_sorted`]. The sort is stable:
/// two elements stand in another order than before only if the comparison
/// called the one that stood first `Greater` than the other.
pub fn insertion_sort<T, F: Fn(&T, &T) -> Ordering>(items: &mut [T], comparison: F)
    requires
        can_compare_all(comparison, old(items)@),
    ensures
        final(items)@.len() == old(items)@.len(),
        final(items)@.to_multiset() == old(items)@.to_multiset(),
        neighbours_in_order(comparison, final(items)@),
        exists|from: Seq<int>| rearranged_stably(comparison, old(items)@, final(items)@, from),
{
    let n = items.len();
    let ghost mut from: Seq<int> = each_in_place(n);
    let mut i: usize = 1;
    while i < n
        invariant
            n == items@.len(),
            n == old(items)@.len(),
            1 <= i,
            items@.to_multiset() == old(items)@.to_multiset(),
            forall|k: int|
                0 < k < i && k < n ==> in_order(comparison, items@[k - 1], #[trigger] items@[k]),
            can_compare_all(comparison, items@),
            rearranged_stably(comparison, old(items)@, items@, from),
            forall|k: int| 0 <= k < i && k < n ==> #[trigger] from[k] < i,
            forall|k: int| i <= k < n ==> #[trigger] from[k] == k,
        decreases n - i,
    {
        let mut j: usize = i;
        loop
            invariant_except_break
                forall|k: int|
                    0 < k <= i && k != j && k != j + 1 ==> in_order(
                        comparison,
                        items@[k - 1],
                        #[trigger] items@[k],
                    ),
                0 < j < i ==> in_order(comparison, items@[j - 1], items@[j + 1]),
                j < i ==> in_order(comparison, item_at(items@, j), items@[j + 1]),
            invariant
                j <= i < n,
                n == items@.len(),
                n == old(items)@.len(),
                items@.to_multiset() == old(items)@.to_multiset(),
                can_compare_all(comparison, items@),
                rearranged_stably(comparison, old(items)@, items@, from),
                item_at(from, j) == i,
                forall|k: int| 0 <= k <= i && k != j ==> #[trigger] from[k] < i,
                forall|k: int| i < k < n ==> #[trigger] from[k] == k,
            ensures
                forall|k: int|
                    0 < k <= i ==> in_order(comparison, items@[k - 1], #[trigger] items@[k]),
            decreases j,
        {
            if j == 0 {
                break ;
            }
            let o = comparison(&items[j - 1], &items[j]);
            match o {
                Ordering::Greater => {},
                _ => {
                    assert(answers_not_greater(comparison, items@[j - 1], item_at(items@, j)));
                    break ;
                },
            }
            proof {
                lemma_swapped_keeps_multiset(items@, j - 1, j - 1 + 1);
                lemma_swapped_can_compare(comparison, items@, j - 1, j - 1 + 1);
                lemma_swapped_stays_stable(comparison, old(items)@, items@, from, j - 1);
                from = swapped(from, j - 1, j - 1 + 1);
            }
            swap_items(items, j - 1, j);
            j -= 1;
        }
        i += 1;
    }
}

/// A comparison that can be asked about any two elements can still be asked
/// about any two when two of them have been exchanged.
proof fn lemma_swapped_can_compare<T, F: Fn(&T, &T) -> Ordering>(
    comparison: F,
    s: Seq<T>,
    i: int,
    j: int,
)
    requires
        can_compare_all(comparison, s),
        0 <= i < s.len(),
        0 <= j < s.len(),
    ensures
        can_compare_all(comparison, swapped(s, i, j)),
{
    let then = swapped(s, i, j);
    let back = |k: int|
        if k == i {
            j
        } else if k == j {
            i
        } else {
            k
        };
    assert forall|a: int, b: int| 0 <= a < then.len() && 0 <= b < then.len() implies call_requires(
        comparison,
        (&#[trigger] then[a], &#[trigger] then[b]),
    ) by {
        assert(then[a] == s[back(a)] && then[b] == s[back(b)]);
    }
}

/// Exchanging two neighbours that stood in their first order, of which the
/// comparison called the first `Greater`, keeps a rearrangement stable.
proof fn lemma_swapped_stays_stable<T, F: Fn(&T, &T) -> Ordering>(
    comparison: F,
    before: Seq<T>,
    after: Seq<T>,
    from: Seq<int>,
    at: int,
)
    requires
        rearranged_stably(comparison, before, after, from),
        0 <= at,
        at + 1 < after.len(),
        from[at] < from[at + 1],
        call_ensures(comparison, (&after[at], &after[at + 1]), Ordering::Greater),
    ensures
        rearranged_stably(
            comparison,
            before,
            swapped(after, at, at + 1),
            swapped(from, at, at + 1),
        ),
{
    let after_then = swapped(after, at, at + 1);
    let from_then = swapped(from, at, at + 1);
    let back = |k: int|
        if k == at {
            at + 1
        } else if k == at + 1 {
            at
        } else {
            k
        };
    assert forall|k: int| 0 <= k < after.len() implies #[trigger] from_then[k] == from[back(k)]
        && after_then[k] == after[back(k)] by {}
    assert forall|a: int, b: int|
        0 <= a < from_then.len() && 0 <= b < from_then.len() && a != b implies from_then[a]
        != from_then[b] by {
        assert(from[back(a)] != from[back(b)]);
    }
    assert forall|a: int, b: int|
        0 <= a < b < after_then.len() && #[trigger] from_then[a] > #[trigger] from_then[b] implies call_ensures(
        comparison,
        (&after_then[b], &after_then[a]),
        Ordering::Greater,
    ) by {
        if a == at && b == at + 1 {
        } else {
            assert(back(a) < back(b));
            assert(from[back(a)] > from[back(b)]);
        }
    }
}

/// Neighbours in order are sorted, where the comparison follows a total order:
/// if `comparison` says `Greater` of `a` and `b` exactly when `le(a, b)` fails,
/// and `le` is total and transitive, then a sequence whose neighbours are all
/// [`in_order`] ascends under `le` throughout.
pub proof fn lemma_neighbours_sorted<T, F: Fn(&T, &T) -> Ordering>(
    comparison: F,
    s: Seq<T>,
    le: spec_fn(T, T) -> bool,
)
    requires
        neighbours_in_order(comparison, s),
        forall|a: T, b: T, o: Ordering| #[trigger]
            call_ensures(comparison, (&a, &b), o) ==> (o != Ordering::Greater <==> le(a, b)),
        forall|a: T, b: T| #[trigger] le(a, b) || le(b, a),
        forall|a: T, b: T, c: T| le(a, b) && le(b, c) ==> #[trigger] le(a, b) && #[trigger] le(a, c),
    ensures
        forall|i: int, j: int| 0 <= i <= j < s.len() ==> le(#[trigger] s[i], #[trigger] s[j]),
{
    assert forall|i: int, j: int| 0 <= i <= j < s.len() implies le(
        #[trigger] s[i],
        #[trigger] s[j],
    ) by {
        lemma_ascends_between(comparison, s, le, i, j);
    }
}

proof fn lemma_ascends_between<T, F: Fn(&T, &T) -> Ordering>(
    comparison: F,
    s: Seq<T>,
    le: spec_fn(T, T) -> bool,
    i: int,
    j: int,
)
    requires
        neighbours_in_order(comparison, s),
        forall|a: T, b: T, o: Ordering| #[trigger]
            call_ensures(comparison, (&a, &b), o) ==> (o != Ordering::Greater <==> le(a, b)),
        forall|a: T, b: T| #[trigger] le(a, b) || le(b, a),
        forall|a: T, b: T, c: T| le(a, b) && le(b, c) ==> #[trigger] le(a, b) && #[trigger] le(a, c),
        0 <= i <= j < s.len(),
    ensures
        le(s[i], s[j]),
    decreases j - i,
{
    if i == j {
        assert(le(s[i], s[i]) || le(s[i], s[i]));
    } else {
        lemma_ascends_between(comparison, s, le, i, j - 1);
        assert(in_order(comparison, s[j - 1], s[j]));
        if answers_not_greater(comparison, s[j - 1], s[j]) {
            let o = choose|o: Ordering|
                o != Ordering::Greater && #[trigger] call_ensures(comparison, (&s[j - 1], &s[j]), o);
            assert(le(s[j - 1], s[j]));
        } else {
            assert(call_ensures(comparison, (&s[j], &s[j - 1]), Ordering::Greater));
            assert(!le(s[j], s[j - 1]));
            assert(le(s[j - 1], s[j]) || le(s[j], s[j - 1]));
        }
        assert(le(s[i], s[j - 1]) && le(s[j - 1], s[j]));
    }
}

/// `f`, asked about `x`, gave an answer other than `Less`.
pub open spec fn answers_not_less<T, F: Fn(&T) -> Ordering>(f: F, x: T) -> bool {
    exists|o: Ordering| o != Ordering::Less && #[trigger] call_ensures(f, (&x,), o)
}

/// Searches a slice whose front part `f` calls `Less` and whose rest it does
/// not, and returns where the rest begins: the first index whose element is
/// not `Less`, or the length of the slice if there is none.
///
/// Whatever `f` answers, the index returned is a boundary: `f` said `Less` of
/// the element before it, if there is one, and something else of the element
/// at it, if there is one. Where `f` splits the slice in two as described, this
/// is the only boundary: see [`lemma_boundary_is_partition_point`].
pub fn binary_search<T, F: Fn(&T) -> Ordering>(slice: &[T], f: F) -> (r: usize)
    requires
        forall|i: int| 0 <= i < slice@.len() ==> call_requires(f, (&#[trigger] slice@[i],)),
    ensures
        r <= slice@.len(),
        r > 0 ==> call_ensures(f, (&slice@[r - 1],), Ordering::Less),
        r < slice@.len() ==> answers_not_less(f, item_at(slice@, r)),
{
    let mut size: usize = slice.len();
    let mut left: usize = 0;
    let mut right: usize = size;
    while left < right
        invariant
            left <= right <= slice@.len(),
            size == right - left,
            left > 0 ==> call_ensures(f, (&slice@[left - 1],), Ordering::Less),
            right < slice@.len() ==> answers_not_less(f, item_at(slice@, right)),
            forall|i: int| 0 <= i < slice@.len() ==> call_requires(f, (&#[trigger] slice@[i],)),
        decreases right - left,
    {
        let mid: usize = left + size / 2;
        let answer = f(&slice[mid]);
        let below = matches!(answer, Ordering::Less);
        if !below {
            assert(answers_not_less(f, item_at(slice@, mid)));
            if mid == 0 {
                return mid;
            }
            let before = f(&slice[mid - 1]);
            if matches!(before, Ordering::Less) {
                return mid;
            }
            right = mid;
        } else {
            left = mid + 1;
        }
        size = right - left;
    }
    right
}

/// A boundary of a split slice is its partition point: if `f` says `Less` of
/// an element exactly when `below` holds of it, and no element of which
/// `below` holds stands behind one of which it does not, then an index `r` as
/// [`binary_search`] returns it has before it exactly the elements of which
/// `below` holds.
pub proof fn lemma_boundary_is_partition_point<T, F: Fn(&T) -> Ordering>(
    f: F,
    s: Seq<T>,
    below: spec_fn(T) -> bool,
    r: int,
)
    requires
        0 <= r <= s.len(),
        r > 0 ==> call_ensures(f, (&s[r - 1],), Ordering::Less),
        r < s.len() ==> answers_not_less(f, s[r]),
        forall|x: T, o: Ordering| #[trigger]
            call_ensures(f, (&x,), o) ==> (o == Ordering::Less <==> below(x)),
        forall|i: int, j: int| 0 <= i <= j < s.len() && below(#[trigger] s[j]) ==> below(#[trigger] s[i]),
    ensures
        forall|i: int| 0 <= i < r ==> below(#[trigger] s[i]),
        forall|i: int| r <= i < s.len() ==> !below(#[trigger] s[i]),
{
    if r > 0 {
        assert(below(s[r - 1]));
    }
    if r < s.len() {
        let o = choose|o: Ordering| o != Ordering::Less && #[trigger] call_ensures(f, (&s[r],), o);
        assert(!below(s[r]));
    }
}

} // verus!
