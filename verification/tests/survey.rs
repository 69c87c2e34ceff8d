use faces::survey::{status, survey_step, SurveyTick};

fn state(rendered_ms: i64, recorded_fix: i64, recording: bool) -> SurveyTick {
    SurveyTick { rendered_ms, recorded_fix, recording }
}

#[test]
fn the_level_refreshes_every_200_ms_or_at_once_without_a_level() {
    assert!(!survey_step(state(1000, 0, false), 1199, 100_000_000, true, None, None).show);
    let step = survey_step(state(1000, 0, false), 1200, 100_000_000, true, None, None);
    assert!(step.show);
    assert_eq!(step.next.rendered_ms, 1200);
    assert!(survey_step(state(1000, 0, false), 1001, 100_000_000, false, None, None).show);
}

#[test]
fn a_retune_stops_recording_and_takes_no_sample() {
    let step = survey_step(state(0, 5, true), 10, 101_000_000, true, Some(100_000_000), Some(9));
    assert!(step.stop_recording);
    assert!(!step.record);
    assert!(!step.next.recording);
    assert_eq!(step.next.recorded_fix, 5);
}

#[test]
fn a_sample_is_taken_once_per_new_fix() {
    let first = survey_step(state(0, 5, true), 10, 100_000_000, true, Some(100_000_000), Some(9));
    assert!(first.record);
    assert!(!first.stop_recording);
    assert_eq!(first.next.recorded_fix, 9);
    let again = survey_step(first.next, 20, 100_000_000, true, Some(100_000_000), Some(9));
    assert!(!again.record);
}

#[test]
fn nothing_is_recorded_without_a_level_a_fix_or_while_stopped() {
    assert!(!survey_step(state(0, 5, true), 10, 100_000_000, false, None, Some(9)).record);
    assert!(!survey_step(state(0, 5, true), 10, 100_000_000, true, None, None).record);
    assert!(!survey_step(state(0, 5, false), 10, 100_000_000, true, None, Some(9)).record);
}

#[test]
fn the_status_names_what_is_missing_first() {
    assert_eq!(status::<f64>(false, None, false, false), "Waiting for GPS");
    assert_eq!(
        status::<f64>(true, None, false, false),
        "Offset is outside the IQ span"
    );
    assert_eq!(
        status(true, Some(-50.0), true, true),
        "IQ centre changed: clear to start a new survey"
    );
    assert_eq!(
        status(true, Some(-50.0), true, false),
        "Recording each new GPS fix"
    );
    assert_eq!(status(true, Some(-50.0), false, false), "Ready");
}
