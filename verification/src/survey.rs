//! What the signal-map survey does with each spectrum frame: when its level
//! readout refreshes, when recording stops because the radio was retuned, and
//! when a new sample is taken.
use vstd::prelude::*;

verus! {

/// How often, in milliseconds, the survey's level readout refreshes while a
/// level is measured.
pub const LEVEL_REFRESH_MS: i64 = 200;

/// What the survey carries from one frame to the next: when the readout was
/// last refreshed, the receive time of the position fix last recorded, and
/// whether it is recording.
#[derive(Clone, Copy, Debug, PartialEq, Eq)]
pub struct SurveyTick {
    pub rendered_ms: i64,
    pub recorded_fix: i64,
    pub recording: bool,
}

/// What to do with one frame: whether to refresh the readout, whether to
/// stop recording, whether to record a sample at the newest fix, and the
/// state for the next frame.
#[derive(Clone, Copy, Debug, PartialEq, Eq)]
pub struct SurveyStep {
    pub show: bool,
    pub stop_recording: bool,
    pub record: bool,
    pub next: SurveyTick,
}

/// Whether the survey was taken at another frequency than the one now
/// measured.
pub open spec fn retuned(target_hz: i64, first_hz: Option<i64>) -> bool {
    first_hz matches Some(f) && f != target_hz
}

/// Whether the readout refreshes on this frame: every `LEVEL_REFRESH_MS`, and
/// at once when there is no level to show.
pub open spec fn refreshes(state: SurveyTick, now_ms: i64, has_level: bool) -> bool {
    now_ms - state.rendered_ms >= LEVEL_REFRESH_MS || !has_level
}

/// Whether a sample is taken on this frame: the survey records, the radio is
/// still at the survey's frequency, a level is measured, and a position fix
/// has arrived since the last one recorded.
pub open spec fn takes_sample(
    state: SurveyTick,
    target_hz: i64,
    has_level: bool,
    first_hz: Option<i64>,
    fix_received: Option<i64>,
) -> bool {
    &&& !retuned(target_hz, first_hz)
    &&& has_level
    &&& state.recording
    &&& fix_received matches Some(r) && r != state.recorded_fix
}

/// Decides what one spectrum frame does to the survey. `target_hz` is the
/// frequency measured now, `first_hz` that of the survey's first sample if it
/// has one, and `fix_received` the receive time of the newest position fix.
pub fn survey_step(
    state: SurveyTick,
    now_ms: i64,
    target_hz: i64,
    has_level: bool,
    first_hz: Option<i64>,
    fix_received: Option<i64>,
) -> (step: SurveyStep)
    requires
        i64::MIN <= now_ms - state.rendered_ms <= i64::MAX,
    ensures
        step.show == refreshes(state, now_ms, has_level),
        step.stop_recording == (retuned(target_hz, first_hz) && state.recording),
        step.record == takes_sample(state, target_hz, has_level, first_hz, fix_received),
        step.next.rendered_ms == if step.show {
            now_ms
        } else {
            state.rendered_ms
        },
        step.next.recording == (state.recording && !retuned(target_hz, first_hz)),
        step.next.recorded_fix == if step.record {
            fix_received->0
        } else {
            state.recorded_fix
        },
        first_hz is None || first_hz == Some(target_hz) ==> !step.stop_recording && step.next.recording == state.recording,
        (first_hz is None || first_hz == Some(target_hz)) && state.recording && has_level
            && fix_received is Some && fix_received->0 != state.recorded_fix ==> step.record && step.next.recorded_fix
            == fix_received->0,
{
    let show = now_ms - state.rendered_ms >= LEVEL_REFRESH_MS || !has_level;
    let rendered_ms = if show {
        now_ms
    } else {
        state.rendered_ms
    };
    let moved = match first_hz {
        Some(f) => f != target_hz,
        None => false,
    };
    if moved {
        return SurveyStep {
            show,
            stop_recording: state.recording,
            record: false,
            next: SurveyTick { rendered_ms, recorded_fix: state.recorded_fix, recording: false },
        };
    }
    let taken = match fix_received {
        Some(r) => if has_level && state.recording && r != state.recorded_fix {
            Some(r)
        } else {
            None
        },
        None => None,
    };
    match taken {
        Some(r) => SurveyStep {
            show,
            stop_recording: false,
            record: true,
            next: SurveyTick { rendered_ms, recorded_fix: r, recording: state.recording },
        },
        None => SurveyStep {
            show,
            stop_recording: false,
            record: false,
            next: SurveyTick { rendered_ms, recorded_fix: state.recorded_fix, recording: state.recording },
        },
    }
}

/// The survey's status line: what is missing first (a position fix, then a
/// level inside the IQ span), then whether the radio was retuned, then
/// whether it records.
pub open spec fn status_words(has_fix: bool, has_level: bool, recording: bool, moved: bool) -> Seq<char> {
    if !has_fix {
        "Waiting for GPS"@
    } else if !has_level {
        "Offset is outside the IQ span"@
    } else if moved {
        "IQ centre changed: clear to start a new survey"@
    } else if recording {
        "Recording each new GPS fix"@
    } else {
        "Ready"@
    }
}

/// The survey's status line, given whether a fix has arrived, the level
/// measured if any (of the caller's type), whether it records, and whether
/// the radio was retuned since the first sample.
pub fn status<L>(has_fix: bool, level: Option<L>, recording: bool, moved: bool) -> (line: &'static str)
    ensures
        line@ == status_words(has_fix, level is Some, recording, moved),
{
    if !has_fix {
        "Waiting for GPS"
    } else if level.is_none() {
        "Offset is outside the IQ span"
    } else if moved {
        "IQ centre changed: clear to start a new survey"
    } else if recording {
        "Recording each new GPS fix"
    } else {
        "Ready"
    }
}

/// A survey is retuned only once it has a first sample, and then exactly
/// when the frequency measured now is another: a survey with no sample yet,
/// recording, with a level and a fix it has not recorded, takes that fix;
/// one whose first sample is at another frequency takes nothing.
pub proof fn law_a_survey_stops_only_on_a_retune(
    state: SurveyTick,
    target_hz: i64,
    first: i64,
    fix: i64,
)
    ensures
        !retuned(target_hz, None),
        retuned(target_hz, Some(first)) == (first != target_hz),
        takes_sample(state, target_hz, true, None, Some(fix)) == (state.recording && fix != state.recorded_fix),
        takes_sample(state, target_hz, true, Some(target_hz), Some(fix)) == (state.recording && fix != state.recorded_fix),
        first != target_hz ==> !takes_sample(state, target_hz, true, Some(first), Some(fix)),
        !takes_sample(state, target_hz, false, None, Some(fix)),
        !takes_sample(state, target_hz, true, None, None),
{
}

} // verus!
