use faces::satellite::{pass_line, pasted_elements, shown_signals, span, PassTimes, Transmitter};

const ISS: &str = "ISS (ZARYA)
1 25544U 98067A   24001.50000000  .00016717  00000-0  30306-3 0  9999
2 25544  51.6416 247.4627 0006703 130.5360 325.0288 15.50377579432041";

fn transmitter(id: &str, description: &str, downlink_hz: Option<f64>, alive: bool) -> Transmitter<f64> {
    Transmitter {
        id: id.to_owned(),
        description: description.to_owned(),
        mode: None,
        downlink_hz,
        uplink_hz: None,
        alive,
    }
}

#[test]
fn pasted_element_sets_are_recognised_with_or_without_a_name() {
    assert_eq!(pasted_elements(ISS).as_deref(), Some(ISS));
    let unnamed = ISS.lines().skip(1).collect::<Vec<_>>().join("\n");
    assert_eq!(pasted_elements(&unnamed).as_deref(), Some(unnamed.as_str()));
    assert_eq!(pasted_elements("ISS"), None);
}

#[test]
fn pasted_lines_lose_blank_lines_and_trailing_space() {
    let messy = "\n  \nISS (ZARYA)   \r\n1 25544U\n\n2 25544  \n";
    assert_eq!(pasted_elements(messy).as_deref(), Some("ISS (ZARYA)\n1 25544U\n2 25544"));
    assert_eq!(pasted_elements("1 25544U\nnot a second line"), None);
}

#[test]
fn a_pass_to_come_one_underway_and_one_that_never_ends() {
    let pass = |aos, los| PassTimes { aos, los };
    assert_eq!(
        pass_line(Some(pass(Some(1_090), Some(1_600))), "42\u{b0}", 1_000),
        "in 1:30, up to 42\u{b0}"
    );
    assert_eq!(
        pass_line(Some(pass(Some(900), Some(1_600))), "12\u{b0}", 1_000),
        "sets in 10:00, up to 12\u{b0}"
    );
    assert_eq!(pass_line(Some(pass(None, None)), "30\u{b0}", 1_000), "always up");
    assert_eq!(pass_line(None, "", 1_000), "none in 48 h");
    assert_eq!(span(3_700), "1 h 01 min");
}

#[test]
fn a_span_below_an_hour_reads_in_minutes_and_seconds() {
    assert_eq!(span(90), "1:30");
    assert_eq!(span(-5), "0:00");
    assert_eq!(span(7_265), "2 h 01 min");
}

#[test]
fn live_signals_are_offered_and_a_dead_one_only_while_picked() {
    let signals = [
        transmitter("live", "Voice", Some(437_800_000.0), true),
        transmitter("dead", "Old beacon", Some(145_800_000.0), false),
        transmitter("blank", "No downlink", None, true),
    ];
    let ids = |chosen| {
        shown_signals(&signals, chosen)
            .iter()
            .map(|signal| signal.id.clone())
            .collect::<Vec<_>>()
    };
    assert_eq!(ids(None), ["live"]);
    assert_eq!(ids(Some("dead")), ["live", "dead"]);
}
