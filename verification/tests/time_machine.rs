use faces::time_machine::{phase_of, request_for, Command, Held, Phase, Radio};

#[derive(Clone, Debug, PartialEq)]
struct Status {
    held_samples: u64,
}

#[derive(Clone, Copy, Debug, PartialEq)]
enum Action {
    Arm,
    Capture,
    Stop,
    Disarm,
}

fn radio(running: bool, held: Option<(bool, Status)>) -> Option<Radio<Status>> {
    Some(Radio {
        running,
        held: held.map(|(capturing, status)| Held {
            node: String::from("history"),
            capturing,
            status,
        }),
    })
}

fn held() -> Status {
    Status {
        held_samples: 10_240_000,
    }
}

#[test]
fn an_idle_radio_an_armed_buffer_and_a_running_capture_are_told_apart() {
    assert_eq!(phase_of(radio(true, None), "history"), Phase::Idle);
    assert_eq!(
        phase_of(radio(true, Some((false, held()))), "history"),
        Phase::Armed(held())
    );
    assert_eq!(
        phase_of(radio(true, Some((true, held()))), "history"),
        Phase::Capturing(held())
    );
}

#[test]
fn the_node_already_holding_the_history_is_named() {
    assert_eq!(
        phase_of(radio(true, Some((false, held()))), "other"),
        Phase::Busy("history".to_owned())
    );
}

#[test]
fn nothing_is_offered_while_the_radio_is_not_running() {
    assert_eq!(
        phase_of(radio(false, Some((false, held()))), "history"),
        Phase::Unavailable
    );
    assert_eq!(phase_of::<Status>(None, "history"), Phase::Unavailable);
}

#[test]
fn each_action_goes_to_the_radio_holding_the_buffer() {
    let settings = 10u32;
    for action in [Action::Arm, Action::Capture, Action::Stop, Action::Disarm] {
        let (path, body) = request_for(Some(4), action, "history", 1, settings).expect("a request");
        assert_eq!(path, "/api/devicesets/4/time-machine");
        assert_eq!(
            body,
            Command {
                action,
                node: "history".to_owned(),
                stream: 1,
                settings
            }
        );
    }
}

#[test]
fn an_action_without_a_radio_wired_in_is_refused() {
    let refused = request_for(None, Action::Arm, "history", 0, 0u32);
    assert!(refused.is_err_and(|said| said.starts_with("Wire a running device's IQ")));
}
