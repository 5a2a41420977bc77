//! Responses: what becomes of a movement when the moving hitbox meets a
//! hurtbox on its way.
//!
//! The geometry of a movement is the caller's: it sweeps the hitbox along what
//! is left of the movement and changes direction as it is told. The decisions
//! are made here, one step at a time: whether to sweep at all and for what,
//! what a contact does to the rest of the movement, and when the movement ends.

use crate::bounded::{I64Vec2, IVec2};
use crate::cast::Normal;
use vstd::prelude::*;

verus! {

/// What a response looks for when the hitbox is swept along its way.
#[derive(Debug, Clone, Copy, PartialEq, Eq, Structural, Hash)]
pub enum Sweep {
    /// Every hurtbox on the way, each as one collision.
    All,
    /// The closest hurtbox on the way, as one collision.
    Closest,
}

/// What becomes of the rest of a movement at a contact.
#[derive(Debug, Clone, Copy, PartialEq, Eq, Structural, Hash)]
pub enum TrajectoryChange {
    /// The rest loses its part along the normal of the contact and keeps its
    /// part along the surface.
    Slide,
    /// The rest is mirrored at the surface: its part along the normal of the
    /// contact is turned round.
    Reflect,
}

/// The part of a movement along a normal: its extent along the axis of the
/// normal, and the whole of it where the normal is against the movement.
pub open spec fn along(normal: Normal, movement: I64Vec2) -> I64Vec2 {
    match normal {
        Normal::X | Normal::NegX => I64Vec2 { x: movement.x, y: 0 },
        Normal::Y | Normal::NegY => I64Vec2 { x: 0, y: movement.y },
        Normal::Back => movement,
    }
}

/// The part of a movement along the surface that a normal stands on: what is
/// left of it without its part along the normal.
pub open spec fn across(normal: Normal, movement: I64Vec2) -> I64Vec2 {
    I64Vec2 {
        x: (movement.x - along(normal, movement).x) as i64,
        y: (movement.y - along(normal, movement).y) as i64,
    }
}

impl TrajectoryChange {
    /// What is left of a movement after a contact with a surface of the given
    /// normal: for a slide its part along the surface, for a reflection that
    /// part and its part along the normal turned round.
    pub open spec fn changed_spec(self, left_movement: IVec2, normal: Normal) -> I64Vec2 {
        let left = I64Vec2 { x: left_movement.x as i64, y: left_movement.y as i64 };
        match self {
            TrajectoryChange::Slide => across(normal, left),
            TrajectoryChange::Reflect => I64Vec2 {
                x: (across(normal, left).x - along(normal, left).x) as i64,
                y: (across(normal, left).y - along(normal, left).y) as i64,
            },
        }
    }

    /// What is left of a movement after a contact with a surface of the given
    /// normal.
    pub fn changed(self, left_movement: IVec2, normal: Normal) -> (r: I64Vec2)
        ensures
            r == self.changed_spec(left_movement, normal),
    {
        let x: i64 = left_movement.x as i64;
        let y: i64 = left_movement.y as i64;
        match self {
            TrajectoryChange::Slide => match normal {
                Normal::X | Normal::NegX => I64Vec2 { x: 0, y },
                Normal::Y | Normal::NegY => I64Vec2 { x, y: 0 },
                Normal::Back => I64Vec2 { x: 0, y: 0 },
            },
            TrajectoryChange::Reflect => match normal {
                Normal::X | Normal::NegX => I64Vec2 { x: -x, y },
                Normal::Y | Normal::NegY => I64Vec2 { x, y: -y },
                Normal::Back => I64Vec2 { x: -x, y: -y },
            },
        }
    }
}

/// A slide leaves nothing of the movement along the normal, and all of it
/// along the surface: a movement straight into a wall is spent.
pub proof fn lemma_slide_keeps_to_the_surface(left_movement: IVec2, normal: Normal)
    ensures
        along(normal, TrajectoryChange::Slide.changed_spec(left_movement, normal)) == (I64Vec2 {
            x: 0,
            y: 0,
        }),
        across(normal, TrajectoryChange::Slide.changed_spec(left_movement, normal)) == across(
            normal,
            I64Vec2 { x: left_movement.x as i64, y: left_movement.y as i64 },
        ),
        (normal == Normal::X || normal == Normal::NegX) && left_movement.y == 0
            ==> TrajectoryChange::Slide.changed_spec(left_movement, normal) == (I64Vec2 { x: 0, y: 0 }),
        (normal == Normal::Y || normal == Normal::NegY) && left_movement.x == 0
            ==> TrajectoryChange::Slide.changed_spec(left_movement, normal) == (I64Vec2 { x: 0, y: 0 }),
{
}

/// A reflection turns the part of the movement along the normal round and
/// keeps its part along the surface: nothing of its length is lost, and a
/// second reflection at the same surface gives the movement back.
pub proof fn lemma_reflection_turns_the_normal_part(left_movement: IVec2, normal: Normal)
    ensures
        ({
            let left = I64Vec2 { x: left_movement.x as i64, y: left_movement.y as i64 };
            let reflected = TrajectoryChange::Reflect.changed_spec(left_movement, normal);
            &&& along(normal, reflected).x == -along(normal, left).x
            &&& along(normal, reflected).y == -along(normal, left).y
            &&& across(normal, reflected) == across(normal, left)
            &&& reflected.x * reflected.x + reflected.y * reflected.y == left.x * left.x + left.y
                * left.y
        }),
{
    let left = I64Vec2 { x: left_movement.x as i64, y: left_movement.y as i64 };
    let reflected = TrajectoryChange::Reflect.changed_spec(left_movement, normal);
    assert((-left.x) * (-left.x) == left.x * left.x) by (nonlinear_arith);
    assert((-left.y) * (-left.y) == left.y * left.y) by (nonlinear_arith);
}

/// Solver defines how actor will react to met colliders.
pub trait CollisionResponse: Sized {
    /// What the response sweeps for; `None` where it does not sweep.
    spec fn sweep_spec(&self) -> Option<Sweep>;

    /// What a contact does to the rest of the movement, and the response as it
    /// is after the contact; `None` where the movement ends at the contact.
    spec fn change_spec(&self) -> (Option<TrajectoryChange>, Self);

    /// How many more contacts can change the trajectory; `None` where their
    /// number has no bound.
    spec fn changes_left(&self) -> Option<nat>;

    /// What the response sweeps for; `None` where it does not sweep.
    fn sweep(&self) -> (r: Option<Sweep>)
        ensures
            r == self.sweep_spec(),
    ;

    /// What the contact that was just found does to the rest of the movement;
    /// `None` where the movement ends at the contact.
    fn trajectory_change(&mut self) -> (r: Option<TrajectoryChange>)
        ensures
            r == old(self).change_spec().0,
            *final(self) == old(self).change_spec().1,
    ;

    /// A contact leaves the response sweeping for what it swept for, and a
    /// response that allows a number of changes only has one less to allow
    /// after each change, and none to make when none is left.
    proof fn lemma_change_counts(&self)
        ensures
            self.change_spec().1.sweep_spec() == self.sweep_spec(),
            self.changes_left() is None ==> self.change_spec().1.changes_left() is None,
            self.changes_left() matches Some(left) ==> {
                &&& self.change_spec().0 is Some ==> left > 0
                &&& self.change_spec().1.changes_left() == Some(
                    if self.change_spec().0 is Some {
                        (left - 1) as nat
                    } else {
                        left
                    },
                )
            },
    ;
}

/// The movement goes on as if nothing were in its way, and reports nothing.
#[derive(Debug, Default, Clone, Copy, PartialEq, Eq, Structural, Hash)]
pub struct Ignore;

impl CollisionResponse for Ignore {
    open spec fn sweep_spec(&self) -> Option<Sweep> {
        None
    }

    open spec fn change_spec(&self) -> (Option<TrajectoryChange>, Self) {
        (None, *self)
    }

    open spec fn changes_left(&self) -> Option<nat> {
        Some(0)
    }

    fn sweep(&self) -> (r: Option<Sweep>) {
        None
    }

    fn trajectory_change(&mut self) -> (r: Option<TrajectoryChange>) {
        None
    }

    proof fn lemma_change_counts(&self) {
    }
}

/// The movement goes on as if nothing were in its way, and reports every
/// hurtbox that was.
#[derive(Debug, Default, Clone, Copy, PartialEq, Eq, Structural, Hash)]
pub struct Pass;

impl CollisionResponse for Pass {
    open spec fn sweep_spec(&self) -> Option<Sweep> {
        Some(Sweep::All)
    }

    open spec fn change_spec(&self) -> (Option<TrajectoryChange>, Self) {
        (None, *self)
    }

    open spec fn changes_left(&self) -> Option<nat> {
        Some(0)
    }

    fn sweep(&self) -> (r: Option<Sweep>) {
        Some(Sweep::All)
    }

    fn trajectory_change(&mut self) -> (r: Option<TrajectoryChange>) {
        None
    }

    proof fn lemma_change_counts(&self) {
    }
}

/// The movement ends at the first hurtbox in its way.
#[derive(Debug, Default, Clone, Copy, PartialEq, Eq, Structural, Hash)]
pub struct Touch;

impl CollisionResponse for Touch {
    open spec fn sweep_spec(&self) -> Option<Sweep> {
        Some(Sweep::Closest)
    }

    open spec fn change_spec(&self) -> (Option<TrajectoryChange>, Self) {
        (None, *self)
    }

    open spec fn changes_left(&self) -> Option<nat> {
        Some(0)
    }

    fn sweep(&self) -> (r: Option<Sweep>) {
        Some(Sweep::Closest)
    }

    fn trajectory_change(&mut self) -> (r: Option<TrajectoryChange>) {
        None
    }

    proof fn lemma_change_counts(&self) {
    }
}

/// At each hurtbox in its way the movement goes on along the surface.
#[derive(Debug, Default, Clone, Copy, PartialEq, Eq, Structural, Hash)]
pub struct Slide;

impl CollisionResponse for Slide {
    open spec fn sweep_spec(&self) -> Option<Sweep> {
        Some(Sweep::Closest)
    }

    open spec fn change_spec(&self) -> (Option<TrajectoryChange>, Self) {
        (Some(TrajectoryChange::Slide), *self)
    }

    open spec fn changes_left(&self) -> Option<nat> {
        None
    }

    fn sweep(&self) -> (r: Option<Sweep>) {
        Some(Sweep::Closest)
    }

    fn trajectory_change(&mut self) -> (r: Option<TrajectoryChange>) {
        Some(TrajectoryChange::Slide)
    }

    proof fn lemma_change_counts(&self) {
    }
}

/// At each hurtbox in its way the movement is thrown back from the surface.
#[derive(Debug, Default, Clone, Copy, PartialEq, Eq, Structural, Hash)]
pub struct Bounce;

impl CollisionResponse for Bounce {
    open spec fn sweep_spec(&self) -> Option<Sweep> {
        Some(Sweep::Closest)
    }

    open spec fn change_spec(&self) -> (Option<TrajectoryChange>, Self) {
        (Some(TrajectoryChange::Reflect), *self)
    }

    open spec fn changes_left(&self) -> Option<nat> {
        None
    }

    fn sweep(&self) -> (r: Option<Sweep>) {
        Some(Sweep::Closest)
    }

    fn trajectory_change(&mut self) -> (r: Option<TrajectoryChange>) {
        Some(TrajectoryChange::Reflect)
    }

    proof fn lemma_change_counts(&self) {
    }
}

/// The movement is thrown back from the surface of the next `bounces`
/// hurtboxes in its way, and ends at the one after them. The count goes down
/// with each bounce and stays down from one movement to the next.
#[derive(Debug, Clone, Copy, PartialEq, Eq, Structural, Hash)]
pub struct LimitedBounce {
    pub bounces: u32,
}

impl LimitedBounce {
    #[inline]
    pub fn new(bounces: u32) -> (r: Self)
        ensures
            r.bounces == bounces,
    {
        Self { bounces }
    }
}

/// The number of bounces that was asked for is below zero, or above what a
/// response can count.
#[derive(Debug, Clone, Copy, PartialEq, Eq, Structural, Hash)]
pub struct InvalidBounces;

impl LimitedBounce {
    /// A response with `bounces` bounces, where that is a number that a
    /// response can count down from.
    pub fn try_new(bounces: i64) -> (r: Result<Self, InvalidBounces>)
        ensures
            r is Ok <==> 0 <= bounces <= u32::MAX,
            r matches Ok(response) ==> response.bounces == bounces,
    {
        if bounces < 0 || bounces > u32::MAX as i64 {
            Err(InvalidBounces)
        } else {
            Ok(Self { bounces: bounces as u32 })
        }
    }
}

impl CollisionResponse for LimitedBounce {
    open spec fn sweep_spec(&self) -> Option<Sweep> {
        Some(Sweep::Closest)
    }

    open spec fn change_spec(&self) -> (Option<TrajectoryChange>, Self) {
        if self.bounces == 0 {
            (None, *self)
        } else {
            (Some(TrajectoryChange::Reflect), LimitedBounce { bounces: (self.bounces - 1) as u32 })
        }
    }

    open spec fn changes_left(&self) -> Option<nat> {
        Some(self.bounces as nat)
    }

    fn sweep(&self) -> (r: Option<Sweep>) {
        Some(Sweep::Closest)
    }

    fn trajectory_change(&mut self) -> (r: Option<TrajectoryChange>) {
        if self.bounces == 0 {
            return None;
        }
        self.bounces -= 1;
        Some(TrajectoryChange::Reflect)
    }

    proof fn lemma_change_counts(&self) {
    }
}

/// What the caller reports to a session.
#[derive(Debug, Clone, Copy, PartialEq, Eq, Structural, Hash)]
pub enum ResponseEvent {
    /// A movement is asked for; `zero_length` says that it goes nowhere.
    Requested { zero_length: bool },
    /// The sweep that the last step asked for is done; `contact` says that
    /// something was in the way.
    Swept { contact: bool },
    /// The rest of the movement was changed as the last step asked;
    /// `zero_length` says that nothing is left of it.
    Redirected { zero_length: bool },
}

/// How a movement ended.
#[derive(Debug, Clone, Copy, PartialEq, Eq, Structural, Hash)]
pub enum Ended {
    /// The movement went nowhere: nothing was swept and nothing is reported.
    Still,
    /// Nothing stood in the way of what was left of the movement, or the
    /// response lets nothing stand in its way: all of it was travelled.
    Unhindered,
    /// The movement ended at the last contact, just short of the surface.
    AtContact,
    /// The last contact left nothing of the movement.
    Spent,
}

/// What the caller is to do next.
#[derive(Debug, Clone, Copy, PartialEq, Eq, Structural, Hash)]
pub enum Step {
    /// Sweep the hitbox along what is left of the movement, and report
    /// [`ResponseEvent::Swept`].
    Sweep(Sweep),
    /// Move the hitbox to the contact, change what is left of the movement,
    /// and report [`ResponseEvent::Redirected`].
    Redirect(TrajectoryChange),
    /// Nothing: the movement has ended.
    Finish(Ended),
}

/// Where a session stands.
#[derive(Debug, Clone, Copy, PartialEq, Eq, Structural, Hash)]
pub enum Phase {
    /// No movement was asked for yet.
    Idle,
    /// A sweep was asked for.
    Sweeping(Sweep),
    /// A change of the rest of the movement was asked for.
    Redirecting,
    /// The movement has ended.
    Finished,
}

/// An event came that the session was not waiting for.
#[derive(Debug, Clone, Copy, PartialEq, Eq, Structural, Hash)]
pub struct OutOfTurn;

/// The step that follows when `event` reaches a session in `phase` whose
/// response is `response`, with the phase and the response afterwards; `None`
/// where the session was not waiting for the event.
pub open spec fn next_step<R: CollisionResponse>(phase: Phase, response: R, event: ResponseEvent) -> Option<
    (Step, Phase, R),
> {
    match (phase, event) {
        (Phase::Idle, ResponseEvent::Requested { zero_length }) => Some(
            if zero_length {
                (Step::Finish(Ended::Still), Phase::Finished, response)
            } else {
                match response.sweep_spec() {
                    Some(sweep) => (Step::Sweep(sweep), Phase::Sweeping(sweep), response),
                    None => (Step::Finish(Ended::Unhindered), Phase::Finished, response),
                }
            },
        ),
        (Phase::Sweeping(Sweep::All), ResponseEvent::Swept { contact }) => Some(
            (Step::Finish(Ended::Unhindered), Phase::Finished, response),
        ),
        (Phase::Sweeping(Sweep::Closest), ResponseEvent::Swept { contact }) => Some(
            if !contact {
                (Step::Finish(Ended::Unhindered), Phase::Finished, response)
            } else {
                match response.change_spec().0 {
                    Some(change) => (Step::Redirect(change), Phase::Redirecting, response.change_spec().1),
                    None => (Step::Finish(Ended::AtContact), Phase::Finished, response.change_spec().1),
                }
            },
        ),
        (Phase::Redirecting, ResponseEvent::Redirected { zero_length }) => Some(
            if zero_length {
                (Step::Finish(Ended::Spent), Phase::Finished, response)
            } else {
                (Step::Sweep(Sweep::Closest), Phase::Sweeping(Sweep::Closest), response)
            },
        ),
        _ => None,
    }
}

/// One movement under a response, from the request to its end.
#[derive(Debug, Clone, Copy, PartialEq, Eq, Structural, Hash)]
pub struct ResponseSession {
    pub phase: Phase,
}

impl ResponseSession {
    /// A session that waits for a movement to be asked for.
    pub fn new() -> (r: Self)
        ensures
            r.phase == Phase::Idle,
    {
        ResponseSession { phase: Phase::Idle }
    }

    /// Takes in `event` and says what the caller is to do next: the step that
    /// [`next_step`] gives. An event that the session was not waiting for
    /// changes nothing.
    pub fn respond<R: CollisionResponse>(&mut self, response: &mut R, event: ResponseEvent) -> (r: Result<
        Step,
        OutOfTurn,
    >)
        ensures
            match next_step(old(self).phase, *old(response), event) {
                Some((step, phase, after)) => r == Ok::<Step, OutOfTurn>(step) && final(self).phase
                    == phase && *final(response) == after,
                None => r is Err && *final(self) == *old(self) && *final(response) == *old(response),
            },
    {
        let (step, phase) = match (self.phase, event) {
            (Phase::Idle, ResponseEvent::Requested { zero_length }) => {
                if zero_length {
                    (Step::Finish(Ended::Still), Phase::Finished)
                } else {
                    match response.sweep() {
                        Some(sweep) => (Step::Sweep(sweep), Phase::Sweeping(sweep)),
                        None => (Step::Finish(Ended::Unhindered), Phase::Finished),
                    }
                }
            },
            (Phase::Sweeping(Sweep::All), ResponseEvent::Swept { contact: _ }) => (
                Step::Finish(Ended::Unhindered),
                Phase::Finished,
            ),
            (Phase::Sweeping(Sweep::Closest), ResponseEvent::Swept { contact }) => {
                if !contact {
                    (Step::Finish(Ended::Unhindered), Phase::Finished)
                } else {
                    match response.trajectory_change() {
                        Some(change) => (Step::Redirect(change), Phase::Redirecting),
                        None => (Step::Finish(Ended::AtContact), Phase::Finished),
                    }
                }
            },
            (Phase::Redirecting, ResponseEvent::Redirected { zero_length }) => {
                if zero_length {
                    (Step::Finish(Ended::Spent), Phase::Finished)
                } else {
                    (Step::Sweep(Sweep::Closest), Phase::Sweeping(Sweep::Closest))
                }
            },
            _ => {
                return Err(OutOfTurn);
            },
        };
        self.phase = phase;
        Ok(step)
    }
}

/// Among the hits of a sweep, given by their distances along the way, the one
/// at which the movement ends: the last of those at the least distance, where
/// that distance is at most `max_distance`; `None` where every hit lies
/// further. The distances are compared as numbers, whatever they count.
pub fn closest_hit(distances: &Vec<u32>, max_distance: u32) -> (r: Option<usize>)
    ensures
        r is None <==> forall|j: int| 0 <= j < distances@.len() ==> distances@[j] > max_distance,
        r matches Some(i) ==> {
            &&& i < distances@.len()
            &&& distances@[i as int] <= max_distance
            &&& forall|j: int| 0 <= j < distances@.len() ==> distances@[i as int] <= distances@[j]
            &&& forall|j: int| i < j < distances@.len() ==> distances@[i as int] < distances@[j]
        },
{
    let mut min_distance: u32 = max_distance;
    let mut resulting_collision: Option<usize> = None;
    let mut k: usize = 0;
    while k < distances.len()
        invariant
            k <= distances@.len(),
            min_distance <= max_distance,
            resulting_collision is None ==> min_distance == max_distance && forall|j: int|
                0 <= j < k ==> distances@[j] > max_distance,
            resulting_collision matches Some(i) ==> {
                &&& i < k
                &&& distances@[i as int] == min_distance
                &&& forall|j: int| 0 <= j < k ==> min_distance <= distances@[j]
                &&& forall|j: int| i < j < k ==> min_distance < distances@[j]
            },
        decreases distances@.len() - k,
    {
        if min_distance >= distances[k] {
            min_distance = distances[k];
            resulting_collision = Some(k);
        }
        k += 1;
    }
    resulting_collision
}

/// What a session answers to a run of events, one after the other: for each
/// event the step that it was answered with, or `None` where it came out of
/// turn; then the phase and the response at the end.
pub open spec fn run<R: CollisionResponse>(phase: Phase, response: R, events: Seq<ResponseEvent>) -> (
    Seq<Option<Step>>,
    Phase,
    R,
)
    decreases events.len(),
{
    if events.len() == 0 {
        (Seq::empty(), phase, response)
    } else {
        let (steps, before, earlier) = run(phase, response, events.drop_last());
        match next_step(before, earlier, events.last()) {
            Some((step, after, later)) => (steps.push(Some(step)), after, later),
            None => (steps.push(None), before, earlier),
        }
    }
}

/// How many of the steps ask for a change of trajectory.
pub open spec fn redirects(steps: Seq<Option<Step>>) -> nat
    decreases steps.len(),
{
    if steps.len() == 0 {
        0
    } else {
        redirects(steps.drop_last()) + (if steps.last() matches Some(Step::Redirect(_)) {
            1nat
        } else {
            0nat
        })
    }
}

/// How many of the steps ask for a sweep.
pub open spec fn sweeps(steps: Seq<Option<Step>>) -> nat
    decreases steps.len(),
{
    if steps.len() == 0 {
        0
    } else {
        sweeps(steps.drop_last()) + (if steps.last() matches Some(Step::Sweep(_)) {
            1nat
        } else {
            0nat
        })
    }
}

/// A movement that goes nowhere ends at once, whatever the response: nothing
/// is swept, and nothing follows.
pub proof fn lemma_zero_movement_ends<R: CollisionResponse>(response: R, event: ResponseEvent)
    ensures
        next_step(Phase::Idle, response, ResponseEvent::Requested { zero_length: true }) == Some(
            (Step::Finish(Ended::Still), Phase::Finished, response),
        ),
        next_step(Phase::Finished, response, event) is None,
{
}

/// A response that allows a number of changes of trajectory makes no more
/// than that number, whatever the caller reports, and no more sweeps than one
/// for the request and one after each change.
pub proof fn lemma_changes_are_bounded<R: CollisionResponse>(response: R, events: Seq<ResponseEvent>)
    requires
        response.changes_left() is Some,
    ensures
        run(Phase::Idle, response, events).2.changes_left() is Some,
        redirects(run(Phase::Idle, response, events).0) + run(
            Phase::Idle,
            response,
            events,
        ).2.changes_left().unwrap() == response.changes_left().unwrap(),
        sweeps(run(Phase::Idle, response, events).0) <= redirects(run(Phase::Idle, response, events).0)
            + 1,
    decreases events.len(),
{
    lemma_run_counts(response, events);
}

/// In a run from the start, a sweep is open only after the request or a
/// change, and the changes made and the changes left add up to the changes
/// that the response allowed.
proof fn lemma_run_counts<R: CollisionResponse>(response: R, events: Seq<ResponseEvent>)
    requires
        response.changes_left() is Some,
    ensures
        ({
            let (steps, phase, later) = run(Phase::Idle, response, events);
            &&& later.changes_left() is Some
            &&& redirects(steps) + later.changes_left().unwrap() == response.changes_left().unwrap()
            &&& later.sweep_spec() == response.sweep_spec()
            &&& match phase {
                Phase::Idle => sweeps(steps) == 0 && redirects(steps) == 0,
                Phase::Sweeping(_) => sweeps(steps) == redirects(steps) + 1,
                Phase::Redirecting => sweeps(steps) == redirects(steps),
                Phase::Finished => sweeps(steps) <= redirects(steps) + 1,
            }
        }),
    decreases events.len(),
{
    if events.len() > 0 {
        lemma_run_counts(response, events.drop_last());
        let (steps, before, earlier) = run(Phase::Idle, response, events.drop_last());
        earlier.lemma_change_counts();
        let all = run(Phase::Idle, response, events).0;
        assert(all.drop_last() == steps);
    }
}

/// A bounce with no bounces left is a touch: whatever the caller reports, the
/// two answer with the same steps.
pub proof fn lemma_spent_bounce_is_touch(events: Seq<ResponseEvent>)
    ensures
        run(Phase::Idle, LimitedBounce { bounces: 0 }, events).0 == run(Phase::Idle, Touch, events).0,
        run(Phase::Idle, LimitedBounce { bounces: 0 }, events).1 == run(Phase::Idle, Touch, events).1,
        run(Phase::Idle, LimitedBounce { bounces: 0 }, events).2 == (LimitedBounce { bounces: 0 }),
    decreases events.len(),
{
    if events.len() > 0 {
        lemma_spent_bounce_is_touch(events.drop_last());
    }
}

} // verus!
