use faces::traces::{changed, trace_class, TraceMode, DEFAULT_AVERAGE, TRACE_MODES};

#[test]
fn each_held_trace_is_offered_under_its_own_words() {
    let labels: Vec<&str> = TRACE_MODES.iter().map(|mode| mode.label()).collect();
    assert_eq!(labels, ["peak hold", "average", "min hold"]);
    assert_eq!(TraceMode::Average.label(), "average");
}

#[test]
fn the_settings_button_lights_up_only_off_defaults() {
    assert!(!changed(DEFAULT_AVERAGE, 0, false, false));
    assert!(changed(8, 0, false, false));
    assert!(changed(DEFAULT_AVERAGE, 1, false, false));
    assert!(changed(DEFAULT_AVERAGE, 0, true, false));
    assert!(changed(DEFAULT_AVERAGE, 0, false, true));
}

#[test]
fn each_trace_chip_is_styled_by_its_mode() {
    assert_eq!(trace_class(TraceMode::Peak), "scope__sample scope__sample--peak");
    assert_eq!(trace_class(TraceMode::Average), "scope__sample scope__sample--average");
    assert_eq!(trace_class(TraceMode::Min), "scope__sample scope__sample--min");
}
