use kore::cadence::{Beat, Cadence, Curve, Cycle, REACH};
use nyanko::graphics::rig::{AnimModification, Keyframe};
use nyanko::graphics::tools::timeline;

fn curve(kind: i32, loop_count: i32, frames: &[i32]) -> Curve {
    Curve { kind, loop_count, frames: frames.to_vec() }
}

fn engine_curve(held: &Curve) -> AnimModification {
    AnimModification {
        part: 0,
        kind: held.kind,
        loop_count: held.loop_count,
        keyframes: held
            .frames
            .iter()
            .map(|frame| Keyframe { frame: *frame, value: *frame, ease: 0, ease_power: 0 })
            .collect(),
        ..AnimModification::default()
    }
}

#[test]
fn a_part_with_nothing_looping_rests_once_its_last_pass_is_done() {
    let held = [curve(4, 1, &[0, 20, 40]), curve(11, 0, &[0, 12])];
    let cadence = Cadence::of(&held);

    assert_eq!(cadence.cycle, Cycle::Still);
    assert_eq!(cadence.settled, 40);
    assert_eq!(cadence.extent, 40);
    assert_eq!(cadence.fold(9_000), 40);
}

#[test]
fn two_desynced_loops_realign_at_their_least_common_multiple() {
    let held = [curve(11, -1, &[30, 60, 90]), curve(5, -1, &[30, 53])];
    let cadence = Cadence::of(&held);

    assert_eq!(cadence.lead, 0);
    assert_eq!(cadence.settled, 30);
    assert_eq!(cadence.cycle, Cycle::Every(1_380));
    assert_eq!(cadence.extent, 1_410);
}

#[test]
fn a_cycle_authored_before_frame_zero_keeps_its_negative_lead() {
    let held = [curve(11, -1, &[-30, -10, 10]), curve(4, -1, &[-30, 10])];
    let cadence = Cadence::of(&held);

    assert_eq!(cadence.lead, -30);
    assert_eq!(cadence.settled, -30);
    assert_eq!(cadence.cycle, Cycle::Every(40));
    assert_eq!(cadence.extent, 10);
    assert_eq!(cadence.fold(50), -30);
}

#[test]
fn a_finite_repeat_settles_after_its_last_pass_not_its_last_key() {
    let held = [curve(4, 3, &[0, 20])];
    let cadence = Cadence::of(&held);

    assert_eq!(cadence.cycle, Cycle::Still);
    assert_eq!(cadence.settled, 60);
}

#[test]
fn a_period_past_the_engines_own_reach_reports_beyond_rather_than_overflowing() {
    let held = [
        curve(4, -1, &[0, 2_147_483_647]),
        curve(5, -1, &[0, 2_147_483_646]),
        curve(11, -1, &[0, 2_147_483_645]),
    ];
    let cadence = Cadence::of(&held);

    assert_eq!(cadence.cycle, Cycle::Beyond);
    assert_eq!(cadence.extent, REACH);
    assert_eq!(cadence.fold(9_000), 9_000);
}

#[test]
fn folding_a_frame_never_changes_what_any_curve_resolves_to() {
    let held = [
        curve(11, -1, &[30, 60, 90]),
        curve(5, -1, &[30, 53]),
        curve(4, 1, &[0, 40]),
        curve(9, 3, &[0, 14]),
        curve(2, -1, &[5]),
    ];
    let tracks: Vec<AnimModification> = held.iter().map(engine_curve).collect();
    let cadence = Cadence::of(&held);

    for frame in 0..4_000 {
        let folded = cadence.fold(i64::from(frame));

        assert!(folded < cadence.extent, "frame {frame} folded outside the drawn range");

        for track in &tracks {
            assert_eq!(
                timeline::local_frame(track, frame),
                timeline::local_frame(track, folded as i32),
                "kind {} disagrees at frame {frame}",
                track.kind,
            );
        }
    }
}

#[test]
fn a_repeat_walk_only_visits_the_passes_that_reach_the_window() {
    let beat = Beat::of(&curve(4, -1, &[10, 30])).expect("the curve holds keys");

    assert_eq!(beat.repeats(0, 9), 0..0, "the window closes before the curve starts");
    assert_eq!(beat.repeats(0, 15), 0..1);
    assert_eq!(beat.repeats(70, 110), 3..6);
    assert_eq!(beat.shifted(3), 60);

    let capped = Beat::of(&curve(4, 2, &[10, 30])).expect("the curve holds keys");

    assert_eq!(capped.repeats(0, 400), 0..2);
    assert_eq!(capped.settles(), Some(50));

    let held = Beat::of(&curve(4, -1, &[7])).expect("the curve holds keys");

    assert_eq!(held.repeats(0, 400), 0..1);
    assert_eq!(held.steady(), 7);
}

#[test]
fn a_lead_in_moves_the_restart_off_frame_zero() {
    let held = Cadence::of(&[
        curve(2, -1, &[0, 4, 8, 12, 16]),
        curve(5, 1, &[0, 3]),
        curve(4, 1, &[0, 3]),
    ]);

    assert_eq!(held.settled, 3);
    assert_eq!(held.extent, 19);
    assert_eq!(held.fold(18), 18);
    assert_eq!(held.fold(19), 3, "the pass after the first restarts at the settle");
    assert_eq!(held.fold(35), 3);
}

#[test]
fn the_engine_rule_agrees_with_the_engines_timeline() {
    let shapes: [&[i32]; 6] = [&[30, 60, 90], &[30, 53], &[0, 40], &[5], &[-30, -10, 10], &[40, 10]];

    for frames in shapes {
        for loop_count in [-2, -1, 0, 1, 2, 3] {
            let held = curve(4, loop_count, frames);
            let track = engine_curve(&held);

            for frame in -60..400 {
                assert_eq!(held.local_frame(frame), timeline::local_frame(&track, frame), "{frames:?} x{loop_count} at {frame}");
            }
        }
    }

    assert_eq!(curve(4, -1, &[]).local_frame(3), None);
}

#[test]
fn the_cycle_labels_name_each_kind() {
    assert_eq!(Cycle::Still.label(), "none");
    assert_eq!(Cycle::Every(1_380).label(), "1380");
    assert_eq!(Cycle::Beyond.label(), "???");
}

#[test]
fn a_curve_without_keys_has_no_beat_and_leaves_the_cadence_at_rest() {
    assert_eq!(Beat::of(&curve(4, -1, &[])), None);

    let cadence = Cadence::of(&[curve(4, -1, &[])]);

    assert_eq!(cadence, Cadence { lead: 0, settled: 0, cycle: Cycle::Still, extent: 0 });
}

#[test]
fn a_beat_reads_its_span_and_passes() {
    assert_eq!(Beat::of(&curve(4, 5, &[10, 0])), Some(Beat { first: 10, last: 0, span: -10, passes: Some(1) }));
    assert_eq!(Beat::of(&curve(4, -1, &[10, 30])), Some(Beat { first: 10, last: 30, span: 20, passes: None }));
    assert_eq!(Beat::of(&curve(4, 0, &[10, 30])).map(|beat| beat.passes), Some(Some(1)));
    assert_eq!(Beat::of(&curve(4, -1, &[10, 30])).and_then(|beat| beat.settles()), None);
    assert_eq!(Beat::of(&curve(4, 1, &[i32::MIN, i32::MAX])).map(|beat| beat.span), Some(i32::MAX));
}

#[test]
fn a_still_frame_before_the_rest_is_left_where_it_is() {
    let cadence = Cadence::of(&[curve(4, 1, &[0, 40])]);

    assert_eq!(cadence.fold(12), 12);
    assert_eq!(cadence.fold(-5), -5);
}
