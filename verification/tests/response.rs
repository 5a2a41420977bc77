use bump::bounded::{I64Vec2, IVec2};
use bump::cast::Normal;
use bump::response::{
    closest_hit, Bounce, CollisionResponse, Ended, Ignore, InvalidBounces, LimitedBounce,
    OutOfTurn, Pass, Phase, ResponseEvent, ResponseSession, Slide, Step, Sweep, Touch,
    TrajectoryChange,
};

fn requested() -> ResponseEvent {
    ResponseEvent::Requested { zero_length: false }
}

fn swept(contact: bool) -> ResponseEvent {
    ResponseEvent::Swept { contact }
}

fn redirected(zero_length: bool) -> ResponseEvent {
    ResponseEvent::Redirected { zero_length }
}

fn run<R: CollisionResponse>(
    response: &mut R,
    events: &[ResponseEvent],
) -> Vec<Result<Step, OutOfTurn>> {
    let mut session = ResponseSession::new();
    events
        .iter()
        .map(|event| session.respond(response, *event))
        .collect()
}

#[test]
fn zero_movement_ends_at_once_for_every_response() {
    let zero = [ResponseEvent::Requested { zero_length: true }];
    let still = vec![Ok(Step::Finish(Ended::Still))];
    assert_eq!(run(&mut Ignore, &zero), still);
    assert_eq!(run(&mut Pass, &zero), still);
    assert_eq!(run(&mut Touch, &zero), still);
    assert_eq!(run(&mut Slide, &zero), still);
    assert_eq!(run(&mut Bounce, &zero), still);
    assert_eq!(run(&mut LimitedBounce::new(3), &zero), still);
}

#[test]
fn ignore_never_sweeps() {
    assert_eq!(Ignore.sweep(), None);
    assert_eq!(
        run(&mut Ignore, &[requested()]),
        vec![Ok(Step::Finish(Ended::Unhindered))]
    );
}

#[test]
fn pass_sweeps_once_and_moves_on() {
    assert_eq!(Pass.sweep(), Some(Sweep::All));
    assert_eq!(
        run(&mut Pass, &[requested(), swept(true)]),
        vec![
            Ok(Step::Sweep(Sweep::All)),
            Ok(Step::Finish(Ended::Unhindered))
        ]
    );
    assert_eq!(
        run(&mut Pass, &[requested(), swept(false)]),
        vec![
            Ok(Step::Sweep(Sweep::All)),
            Ok(Step::Finish(Ended::Unhindered))
        ]
    );
}

#[test]
fn touch_ends_at_the_first_contact() {
    assert_eq!(
        run(&mut Touch, &[requested(), swept(true)]),
        vec![
            Ok(Step::Sweep(Sweep::Closest)),
            Ok(Step::Finish(Ended::AtContact))
        ]
    );
    assert_eq!(
        run(&mut Touch, &[requested(), swept(false)]),
        vec![
            Ok(Step::Sweep(Sweep::Closest)),
            Ok(Step::Finish(Ended::Unhindered))
        ]
    );
}

#[test]
fn slide_goes_on_along_the_surface_until_the_way_is_clear() {
    let events = [requested(), swept(true), redirected(false), swept(false)];
    assert_eq!(
        run(&mut Slide, &events),
        vec![
            Ok(Step::Sweep(Sweep::Closest)),
            Ok(Step::Redirect(TrajectoryChange::Slide)),
            Ok(Step::Sweep(Sweep::Closest)),
            Ok(Step::Finish(Ended::Unhindered)),
        ]
    );
}

#[test]
fn slide_into_a_wall_head_on_leaves_nothing() {
    let events = [requested(), swept(true), redirected(true)];
    assert_eq!(
        run(&mut Slide, &events),
        vec![
            Ok(Step::Sweep(Sweep::Closest)),
            Ok(Step::Redirect(TrajectoryChange::Slide)),
            Ok(Step::Finish(Ended::Spent)),
        ]
    );
}

#[test]
fn bounce_reflects_at_every_contact() {
    let events = [
        requested(),
        swept(true),
        redirected(false),
        swept(true),
        redirected(false),
        swept(false),
    ];
    assert_eq!(
        run(&mut Bounce, &events),
        vec![
            Ok(Step::Sweep(Sweep::Closest)),
            Ok(Step::Redirect(TrajectoryChange::Reflect)),
            Ok(Step::Sweep(Sweep::Closest)),
            Ok(Step::Redirect(TrajectoryChange::Reflect)),
            Ok(Step::Sweep(Sweep::Closest)),
            Ok(Step::Finish(Ended::Unhindered)),
        ]
    );
}

#[test]
fn limited_bounce_ends_at_the_contact_after_its_last_bounce() {
    let mut response = LimitedBounce::new(2);
    let events = [
        requested(),
        swept(true),
        redirected(false),
        swept(true),
        redirected(false),
        swept(true),
    ];
    assert_eq!(
        run(&mut response, &events),
        vec![
            Ok(Step::Sweep(Sweep::Closest)),
            Ok(Step::Redirect(TrajectoryChange::Reflect)),
            Ok(Step::Sweep(Sweep::Closest)),
            Ok(Step::Redirect(TrajectoryChange::Reflect)),
            Ok(Step::Sweep(Sweep::Closest)),
            Ok(Step::Finish(Ended::AtContact)),
        ]
    );
    assert_eq!(response.bounces, 0);
}

#[test]
fn limited_bounce_keeps_its_count_between_movements() {
    let mut response = LimitedBounce::new(3);
    run(
        &mut response,
        &[requested(), swept(true), redirected(false), swept(false)],
    );
    assert_eq!(response.bounces, 2);
    run(&mut response, &[requested(), swept(false)]);
    assert_eq!(response.bounces, 2);
    run(&mut response, &[requested(), swept(true), redirected(true)]);
    assert_eq!(response.bounces, 1);
    assert_eq!(
        response.trajectory_change(),
        Some(TrajectoryChange::Reflect)
    );
    assert_eq!(response.bounces, 0);
    assert_eq!(response.trajectory_change(), None);
    assert_eq!(response.bounces, 0);
}

#[test]
fn limited_bounce_without_bounces_is_touch() {
    let runs: [&[ResponseEvent]; 6] = [
        &[requested(), swept(true)],
        &[requested(), swept(false)],
        &[ResponseEvent::Requested { zero_length: true }],
        &[requested(), swept(true), redirected(false), swept(true)],
        &[
            swept(true),
            requested(),
            requested(),
            swept(true),
            swept(true),
        ],
        &[],
    ];
    for events in runs {
        assert_eq!(
            run(&mut LimitedBounce::new(0), events),
            run(&mut Touch, events)
        );
    }
}

#[test]
fn events_out_of_turn_change_nothing() {
    let mut session = ResponseSession::new();
    let mut response = LimitedBounce::new(1);
    assert_eq!(session.respond(&mut response, swept(true)), Err(OutOfTurn));
    assert_eq!(
        session.respond(&mut response, redirected(false)),
        Err(OutOfTurn)
    );
    assert_eq!(session.phase, Phase::Idle);
    assert_eq!(
        session.respond(&mut response, requested()),
        Ok(Step::Sweep(Sweep::Closest))
    );
    assert_eq!(session.respond(&mut response, requested()), Err(OutOfTurn));
    assert_eq!(
        session.respond(&mut response, redirected(false)),
        Err(OutOfTurn)
    );
    assert_eq!(session.phase, Phase::Sweeping(Sweep::Closest));
    assert_eq!(
        session.respond(&mut response, swept(true)),
        Ok(Step::Redirect(TrajectoryChange::Reflect))
    );
    assert_eq!(session.respond(&mut response, swept(true)), Err(OutOfTurn));
    assert_eq!(response.bounces, 0);
    assert_eq!(session.phase, Phase::Redirecting);
    assert_eq!(
        session.respond(&mut response, redirected(true)),
        Ok(Step::Finish(Ended::Spent))
    );
    assert_eq!(session.phase, Phase::Finished);
    assert_eq!(session.respond(&mut response, requested()), Err(OutOfTurn));
    assert_eq!(session.respond(&mut response, swept(false)), Err(OutOfTurn));
    assert_eq!(
        session.respond(&mut response, redirected(false)),
        Err(OutOfTurn)
    );
}

#[test]
fn closest_hit_is_the_last_of_the_nearest() {
    assert_eq!(closest_hit(&vec![30, 10, 20], 100), Some(1));
    assert_eq!(closest_hit(&vec![30, 10, 20, 10, 40], 100), Some(3));
    assert_eq!(closest_hit(&vec![5], 5), Some(0));
    assert_eq!(closest_hit(&vec![0, 0, 0], 0), Some(2));
}

#[test]
fn closest_hit_ignores_hits_beyond_the_way() {
    assert_eq!(closest_hit(&vec![], 100), None);
    assert_eq!(closest_hit(&vec![101, 200], 100), None);
    assert_eq!(closest_hit(&vec![101, 100, 200], 100), Some(1));
    assert_eq!(closest_hit(&vec![u32::MAX], u32::MAX - 1), None);
    assert_eq!(closest_hit(&vec![u32::MAX], u32::MAX), Some(0));
}

#[test]
fn bounces_are_validated_at_construction() {
    assert_eq!(LimitedBounce::try_new(0), Ok(LimitedBounce::new(0)));
    assert_eq!(LimitedBounce::try_new(7), Ok(LimitedBounce { bounces: 7 }));
    assert_eq!(
        LimitedBounce::try_new(4294967295),
        Ok(LimitedBounce::new(u32::MAX))
    );
    assert_eq!(LimitedBounce::try_new(-1), Err(InvalidBounces));
    assert_eq!(LimitedBounce::try_new(4294967296), Err(InvalidBounces));
    assert_eq!(LimitedBounce::try_new(i64::MIN), Err(InvalidBounces));
}

#[test]
fn slide_drops_the_part_along_the_normal() {
    let left = IVec2::new(7, -3);
    assert_eq!(
        TrajectoryChange::Slide.changed(left, Normal::NegX),
        I64Vec2::new(0, -3)
    );
    assert_eq!(
        TrajectoryChange::Slide.changed(left, Normal::X),
        I64Vec2::new(0, -3)
    );
    assert_eq!(
        TrajectoryChange::Slide.changed(left, Normal::Y),
        I64Vec2::new(7, 0)
    );
    assert_eq!(
        TrajectoryChange::Slide.changed(left, Normal::NegY),
        I64Vec2::new(7, 0)
    );
    assert_eq!(
        TrajectoryChange::Slide.changed(left, Normal::Back),
        I64Vec2::new(0, 0)
    );
}

#[test]
fn slide_head_on_into_a_wall_is_spent() {
    assert_eq!(
        TrajectoryChange::Slide.changed(IVec2::new(9, 0), Normal::NegX),
        I64Vec2::new(0, 0)
    );
    assert_eq!(
        TrajectoryChange::Slide.changed(IVec2::new(0, -9), Normal::Y),
        I64Vec2::new(0, 0)
    );
}

#[test]
fn reflection_turns_the_part_along_the_normal() {
    let left = IVec2::new(7, -3);
    assert_eq!(
        TrajectoryChange::Reflect.changed(left, Normal::NegX),
        I64Vec2::new(-7, -3)
    );
    assert_eq!(
        TrajectoryChange::Reflect.changed(left, Normal::X),
        I64Vec2::new(-7, -3)
    );
    assert_eq!(
        TrajectoryChange::Reflect.changed(left, Normal::Y),
        I64Vec2::new(7, 3)
    );
    assert_eq!(
        TrajectoryChange::Reflect.changed(left, Normal::NegY),
        I64Vec2::new(7, 3)
    );
    assert_eq!(
        TrajectoryChange::Reflect.changed(left, Normal::Back),
        I64Vec2::new(-7, 3)
    );
    let far = IVec2::new(i32::MIN, i32::MAX);
    assert_eq!(
        TrajectoryChange::Reflect.changed(far, Normal::Back),
        I64Vec2::new(2147483648, -2147483647)
    );
}

#[test]
fn reflection_keeps_the_length_and_undoes_itself() {
    for left in [
        IVec2::new(7, -3),
        IVec2::new(0, 0),
        IVec2::new(-5, -5),
        IVec2::new(1000, 1),
    ] {
        for normal in [
            Normal::X,
            Normal::NegX,
            Normal::Y,
            Normal::NegY,
            Normal::Back,
        ] {
            let once = TrajectoryChange::Reflect.changed(left, normal);
            assert_eq!(
                once.x * once.x + once.y * once.y,
                (left.x as i64) * (left.x as i64) + (left.y as i64) * (left.y as i64)
            );
            let twice =
                TrajectoryChange::Reflect.changed(IVec2::new(once.x as i32, once.y as i32), normal);
            assert_eq!(twice, I64Vec2::new(left.x as i64, left.y as i64));
        }
    }
}
