use faces::scanner::{live_status, sweep_kind, Scanner};

#[derive(Clone, Debug, PartialEq)]
struct Status {
    current_hz: f64,
}

fn status() -> Status {
    Status {
        current_hz: 145_500_000.0,
    }
}

#[test]
fn a_pushed_update_wins_over_the_snapshot() {
    let held = [Scanner {
        channel: 1,
        status: status(),
    }];
    assert_eq!(live_status(Some(&held), Some(1), None), Some(&status()));
    let pushed = Status {
        current_hz: 146_000_000.0,
    };
    assert_eq!(live_status(Some(&held), Some(1), Some(&pushed)), Some(&pushed));
}

#[test]
fn nothing_is_reported_for_a_decoder_that_is_not_scanning() {
    let held = [Scanner {
        channel: 1,
        status: status(),
    }];
    assert_eq!(live_status(Some(&held), Some(2), Some(&status())), None);
    assert_eq!(live_status::<Status>(Some(&[]), Some(1), Some(&status())), None);
    assert_eq!(live_status::<Status>(None, Some(1), Some(&status())), None);
}

#[test]
fn the_sweep_is_named_by_what_actually_sweeps() {
    assert_eq!(sweep_kind(Some(true), None), "the radio's own");
    assert_eq!(sweep_kind(Some(true), Some(false)), "by retuning");
    assert_eq!(sweep_kind(None, None), "by retuning");
}
