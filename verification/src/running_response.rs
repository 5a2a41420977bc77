//! The outcome of a response as it is handed out: the collisions one at a
//! time, and among them, once, the offset that the movement resulted in.

use vstd::prelude::*;

verus! {

/// Contains information about one of collisions that was processed with a
/// response.
#[derive(Debug, Clone, Copy)]
pub struct ResponseCollisionInformation<P, N, D> {
    /// The point on the desired path (or on the path corrected by solver) at
    /// which collision was detected.
    pub global_position: P,
    /// Normal of the body against which collision was detected.
    pub normal: N,
    /// What stands for the body against which collision was detected.
    pub data: D,
}

/// What a running response hands out next.
pub enum RunningResponseVariant<T: RunningResponse> {
    /// A collision, and the response that hands out the rest.
    Collision(T::Collision, T),
    /// The resulting offset, and the collisions that are still to come.
    ResultingOffset(T::Offset, Vec<T::Collision>),
}

/// The outcome of a response while it is handed out: first some collisions,
/// then the resulting offset, then the rest of the collisions.
pub trait RunningResponse: Sized {
    type Offset;

    type Collision;

    /// The collisions that come before the resulting offset.
    spec fn pending(&self) -> Seq<Self::Collision>;

    /// The offset that the movement resulted in.
    spec fn resulting_offset(&self) -> Self::Offset;

    /// The collisions that come after the resulting offset.
    spec fn trailing(&self) -> Seq<Self::Collision>;

    /// Hands out the first of the pending collisions, or the resulting offset
    /// where none is pending.
    fn next(self) -> (r: RunningResponseVariant<Self>)
        ensures
            match r {
                RunningResponseVariant::Collision(item, rest) => {
                    &&& self.pending().len() > 0
                    &&& item == self.pending()[0]
                    &&& rest.pending() == self.pending().drop_first()
                    &&& rest.resulting_offset() == self.resulting_offset()
                    &&& rest.trailing() == self.trailing()
                },
                RunningResponseVariant::ResultingOffset(offset, after) => {
                    &&& self.pending().len() == 0
                    &&& offset == self.resulting_offset()
                    &&& after@ == self.trailing()
                },
            },
    ;
}

/// A response whose resulting offset is known from the start: it comes first,
/// and every collision after it.
pub struct ImmediateResultingOffset<O, E> {
    offset: O,
    collisions: Vec<E>,
}

impl<O, E> ImmediateResultingOffset<O, E> {
    pub fn new(offset: O, collisions: Vec<E>) -> (r: Self)
        ensures
            r.pending() == Seq::<E>::empty(),
            r.resulting_offset() == offset,
            r.trailing() == collisions@,
    {
        ImmediateResultingOffset { offset, collisions }
    }
}

impl<O, E> RunningResponse for ImmediateResultingOffset<O, E> {
    type Offset = O;

    type Collision = E;

    closed spec fn pending(&self) -> Seq<E> {
        Seq::empty()
    }

    closed spec fn resulting_offset(&self) -> O {
        self.offset
    }

    closed spec fn trailing(&self) -> Seq<E> {
        self.collisions@
    }

    fn next(self) -> (r: RunningResponseVariant<Self>) {
        RunningResponseVariant::ResultingOffset(self.offset, self.collisions)
    }
}

/// A response whose resulting offset is known only when the collisions have
/// been handed out: every collision comes first, and the offset at the end.
pub struct EventualResultingOffset<O, E> {
    collisions: Vec<E>,
    offset: O,
}

impl<O, E> EventualResultingOffset<O, E> {
    pub fn new(collisions: Vec<E>, offset: O) -> (r: Self)
        ensures
            r.pending() == collisions@,
            r.resulting_offset() == offset,
            r.trailing() == Seq::<E>::empty(),
    {
        EventualResultingOffset { collisions, offset }
    }
}

impl<O, E> RunningResponse for EventualResultingOffset<O, E> {
    type Offset = O;

    type Collision = E;

    closed spec fn pending(&self) -> Seq<E> {
        self.collisions@
    }

    closed spec fn resulting_offset(&self) -> O {
        self.offset
    }

    closed spec fn trailing(&self) -> Seq<E> {
        Seq::empty()
    }

    fn next(self) -> (r: RunningResponseVariant<Self>) {
        let mut collisions = self.collisions;
        if collisions.len() > 0 {
            let first = collisions.remove(0);
            assert(collisions@ =~= self.collisions@.drop_first());
            RunningResponseVariant::Collision(
                first,
                EventualResultingOffset { collisions, offset: self.offset },
            )
        } else {
            RunningResponseVariant::ResultingOffset(self.offset, Vec::new())
        }
    }
}

/// Hands out the collisions that come before the resulting offset, the
/// offset, and the collisions that are still to come.
pub fn until_resulting_offset<T: RunningResponse>(response: T) -> (r: (
    Vec<T::Collision>,
    T::Offset,
    Vec<T::Collision>,
))
    ensures
        r.0@ == response.pending(),
        r.1 == response.resulting_offset(),
        r.2@ == response.trailing(),
{
    let mut before: Vec<T::Collision> = Vec::new();
    let mut current = response;
    loop
        invariant
            before@ + current.pending() == response.pending(),
            current.resulting_offset() == response.resulting_offset(),
            current.trailing() == response.trailing(),
        decreases current.pending().len(),
    {
        let ghost pending = current.pending();
        match current.next() {
            RunningResponseVariant::Collision(item, next_iter) => {
                current = next_iter;
                before.push(item);
                assert(before@ + current.pending() == response.pending()) by {
                    assert(pending == seq![item] + pending.drop_first());
                    assert(before@ + current.pending() =~= before@.drop_last() + pending);
                }
            },
            RunningResponseVariant::ResultingOffset(output, next_iter) => {
                assert(before@ + pending == before@);
                return (before, output, next_iter);
            },
        }
    }
}

/// Hands out every collision in its order, and the resulting offset.
pub fn foreach<T: RunningResponse>(response: T) -> (r: (Vec<T::Collision>, T::Offset))
    ensures
        r.0@ == response.pending() + response.trailing(),
        r.1 == response.resulting_offset(),
{
    let (mut collisions, offset, mut after) = until_resulting_offset(response);
    collisions.append(&mut after);
    (collisions, offset)
}

/// Where an iterator over a running response stands.
pub enum ResponseIteratorVariant<T: RunningResponse> {
    /// The resulting offset is still to come.
    BeforeOutput(T),
    /// The resulting offset has come; these collisions are left.
    AfterOutput(Vec<T::Collision>),
}

impl<T: RunningResponse> ResponseIteratorVariant<T> {
    /// The collisions that are still to come.
    pub open spec fn remaining(self) -> Seq<T::Collision> {
        match self {
            ResponseIteratorVariant::BeforeOutput(iter) => iter.pending() + iter.trailing(),
            ResponseIteratorVariant::AfterOutput(iter) => iter@,
        }
    }

    /// The resulting offset, while it is still to come.
    pub open spec fn offset_to_come(self) -> Option<T::Offset> {
        match self {
            ResponseIteratorVariant::BeforeOutput(iter) => Some(iter.resulting_offset()),
            ResponseIteratorVariant::AfterOutput(iter) => None,
        }
    }

    /// Whether the resulting offset comes with the next collision, or with
    /// the end of the collisions.
    pub open spec fn offset_is_next(self) -> bool {
        self matches ResponseIteratorVariant::BeforeOutput(iter) && iter.pending().len() == 0
    }
}

/// Whether an iterator that stood at `before` has handed out `item`, and with
/// it `offset`, and now stands at `after`: `item` is the first of the
/// collisions that were to come, the rest of them are to come still, and
/// `offset` is the resulting offset where its turn had come.
pub open spec fn stepped<T: RunningResponse>(
    before: ResponseIteratorVariant<T>,
    item: Option<T::Collision>,
    offset: Option<T::Offset>,
    after: ResponseIteratorVariant<T>,
) -> bool {
    &&& item == (if before.remaining().len() > 0 {
        Some(before.remaining()[0])
    } else {
        None
    })
    &&& after.remaining() == (if before.remaining().len() > 0 {
        before.remaining().drop_first()
    } else {
        before.remaining()
    })
    &&& offset == (if before.offset_is_next() {
        before.offset_to_come()
    } else {
        None
    })
    &&& after.offset_to_come() == (if before.offset_is_next() {
        None
    } else {
        before.offset_to_come()
    })
}

/// The first of the collisions, taken out of them; `None` where there is none.
fn take_first<E>(collisions: &mut Vec<E>) -> (r: Option<E>)
    ensures
        r == (if old(collisions)@.len() > 0 {
            Some(old(collisions)@[0])
        } else {
            None
        }),
        final(collisions)@ == (if old(collisions)@.len() > 0 {
            old(collisions)@.drop_first()
        } else {
            old(collisions)@
        }),
{
    if collisions.len() > 0 {
        let first = collisions.remove(0);
        assert(collisions@ =~= old(collisions)@.drop_first());
        Some(first)
    } else {
        None
    }
}

/// Takes one step of an iterator: hands out the next collision, the resulting
/// offset with it where its turn has come, and where the iterator stands then.
pub fn step<T: RunningResponse>(current_iter: ResponseIteratorVariant<T>) -> (r: (
    (Option<T::Collision>, Option<T::Offset>),
    ResponseIteratorVariant<T>,
))
    ensures
        stepped(current_iter, r.0.0, r.0.1, r.1),
{
    match current_iter {
        ResponseIteratorVariant::BeforeOutput(iter) => {
            let ghost pending = iter.pending();
            let ghost trailing = iter.trailing();
            match iter.next() {
                RunningResponseVariant::Collision(item, next_iter) => {
                    assert((pending + trailing).drop_first() =~= pending.drop_first() + trailing);
                    ((Some(item), None), ResponseIteratorVariant::BeforeOutput(next_iter))
                },
                RunningResponseVariant::ResultingOffset(value, mut next_iter) => {
                    assert(pending + trailing =~= trailing);
                    let first = take_first(&mut next_iter);
                    ((first, Some(value)), ResponseIteratorVariant::AfterOutput(next_iter))
                },
            }
        },
        ResponseIteratorVariant::AfterOutput(mut iter) => {
            let first = take_first(&mut iter);
            ((first, None), ResponseIteratorVariant::AfterOutput(iter))
        },
    }
}

/// `replace_with_or_abort_and_return` of the `replace_with` crate, with
/// [`step`] for its closure: takes what is at `current_iter` out of its place,
/// hands it to `step`, puts the second part of what `step` returns in its
/// place and returns the first.
#[verifier::external_body]
fn replace_with_step<T: RunningResponse>(current_iter: &mut ResponseIteratorVariant<T>) -> (r: (
    Option<T::Collision>,
    Option<T::Offset>,
))
    ensures
        stepped(*old(current_iter), r.0, r.1, *final(current_iter)),
{
    replace_with::replace_with_or_abort_and_return(current_iter, step::<T>)
}

/// Hands out the collisions of a running response one at a time, and keeps
/// the resulting offset from the moment at which the response hands it out.
pub struct ResponseIterator<T: RunningResponse> {
    buf: Option<T::Offset>,
    current_iter: ResponseIteratorVariant<T>,
}

impl<T: RunningResponse> ResponseIterator<T> {
    /// The collisions that are still to come.
    pub closed spec fn remaining(&self) -> Seq<T::Collision> {
        self.current_iter.remaining()
    }

    /// The resulting offset, once the response has handed it out.
    pub closed spec fn buffered(&self) -> Option<T::Offset> {
        self.buf
    }

    /// The resulting offset, while the response has not handed it out.
    pub closed spec fn offset_to_come(&self) -> Option<T::Offset> {
        self.current_iter.offset_to_come()
    }

    /// Whether the response hands out the resulting offset at the next step.
    pub closed spec fn offset_is_next(&self) -> bool {
        self.current_iter.offset_is_next()
    }

    /// An iterator over the collisions of `response`.
    pub fn new(response: T) -> (r: Self)
        ensures
            r.remaining() == response.pending() + response.trailing(),
            r.buffered() is None,
            r.offset_to_come() == Some(response.resulting_offset()),
            r.offset_is_next() == (response.pending().len() == 0),
    {
        ResponseIterator { buf: None, current_iter: ResponseIteratorVariant::BeforeOutput(response) }
    }

    /// The next collision; `None` when none is left. The resulting offset is
    /// there from the step on at which no collision was pending before it.
    pub fn next(&mut self) -> (r: Option<T::Collision>)
        ensures
            r == (if old(self).remaining().len() > 0 {
                Some(old(self).remaining()[0])
            } else {
                None
            }),
            final(self).remaining() == (if old(self).remaining().len() > 0 {
                old(self).remaining().drop_first()
            } else {
                old(self).remaining()
            }),
            final(self).buffered() == (if old(self).offset_is_next() {
                old(self).offset_to_come()
            } else {
                old(self).buffered()
            }),
            final(self).offset_to_come() == (if old(self).offset_is_next() {
                None
            } else {
                old(self).offset_to_come()
            }),
    {
        let (item, offset) = replace_with_step(&mut self.current_iter);
        match offset {
            Some(value) => {
                self.buf = Some(value);
            },
            None => {},
        }
        item
    }

    /// The resulting offset, once the response has handed it out.
    pub fn resulting_offset(&self) -> (r: Option<&T::Offset>)
        ensures
            r matches Some(offset) ==> self.buffered() == Some(*offset),
            r is None ==> self.buffered() is None,
    {
        self.buf.as_ref()
    }
}

/// Hands out the collisions of a running response one at a time, and lets the
/// resulting offset pass.
pub struct IgnoreResultingOffsetIterator<T: RunningResponse> {
    curent_iter: ResponseIteratorVariant<T>,
}

impl<T: RunningResponse> IgnoreResultingOffsetIterator<T> {
    /// The collisions that are still to come.
    pub closed spec fn remaining(&self) -> Seq<T::Collision> {
        self.curent_iter.remaining()
    }

    /// An iterator over the collisions of `response`.
    pub fn new(response: T) -> (r: Self)
        ensures
            r.remaining() == response.pending() + response.trailing(),
    {
        IgnoreResultingOffsetIterator { curent_iter: ResponseIteratorVariant::BeforeOutput(response) }
    }

    /// The next collision; `None` when none is left.
    pub fn next(&mut self) -> (r: Option<T::Collision>)
        ensures
            r == (if old(self).remaining().len() > 0 {
                Some(old(self).remaining()[0])
            } else {
                None
            }),
            final(self).remaining() == (if old(self).remaining().len() > 0 {
                old(self).remaining().drop_first()
            } else {
                old(self).remaining()
            }),
    {
        let (item, _) = replace_with_step(&mut self.curent_iter);
        item
    }
}

} // verus!
