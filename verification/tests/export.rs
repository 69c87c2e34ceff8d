use faces::export::{
    channel_source, control_of, controls_locked, device_source, request_for, ChannelRequest,
    ChannelState, Control, DeviceRequest, RadioState, Request, Running, Source, Target,
};

#[derive(Clone, Debug, PartialEq)]
struct Status {
    node: String,
    packets: u64,
}

#[derive(Clone, Copy, Debug, PartialEq)]
enum Action {
    Start,
    Stop,
}

#[derive(Clone, Debug, PartialEq)]
struct Settings {
    port: u16,
}

fn status(node: &str) -> Status {
    Status {
        node: node.to_owned(),
        packets: 1,
    }
}

fn settings() -> Settings {
    Settings { port: 5000 }
}

fn source(running: bool, export: Option<Status>) -> Option<Source<Status>> {
    Some(Source {
        running,
        active: export.map(|status| Running {
            node: status.node.clone(),
            status,
        }),
    })
}

#[test]
fn the_owner_is_told_apart_from_another_sink_on_the_same_radio() {
    assert_eq!(
        control_of(source(true, Some(status("net-a"))), "net-a"),
        Control::Active(status("net-a"))
    );
    assert_eq!(
        control_of(source(true, Some(status("net-a"))), "net-b"),
        Control::Busy("net-a".to_owned())
    );
}

#[test]
fn start_is_offered_only_on_a_running_unclaimed_radio() {
    assert_eq!(control_of(source(true, None), "net-a"), Control::Ready);
    assert_eq!(control_of(source(false, None), "net-a"), Control::Unavailable);
    assert_eq!(control_of::<Status>(None, "net-a"), Control::Unavailable);
}

#[test]
fn start_and_stop_carry_the_bound_stream_and_the_current_settings() {
    for action in [Action::Start, Action::Stop] {
        let request = request_for(
            Some(Target::Device { set: 7, stream: 2 }),
            action,
            "net-a",
            settings(),
        );
        assert_eq!(
            request,
            Ok(Request::Device(
                "/api/devicesets/7/network-export".to_owned(),
                DeviceRequest {
                    action,
                    node: "net-a".to_owned(),
                    stream: 2,
                    settings: settings()
                }
            ))
        );
    }
}

#[test]
fn a_channels_baseband_goes_to_the_channel_route() {
    let request = request_for(
        Some(Target::Channel { set: 7, channel: 3 }),
        Action::Start,
        "net-a",
        settings(),
    );
    assert_eq!(
        request,
        Ok(Request::Channel(
            "/api/devicesets/7/channels/3/network-export".to_owned(),
            ChannelRequest {
                action: Action::Start,
                node: "net-a".to_owned(),
                settings: settings()
            }
        ))
    );
}

#[test]
fn settings_lock_during_a_request_and_throughout_an_export() {
    assert!(!controls_locked(&Control::<Status>::Ready, false));
    assert!(controls_locked(&Control::<Status>::Ready, true));
    assert!(controls_locked(&Control::Active(status("net-a")), false));
}

#[test]
fn an_action_without_a_live_source_is_refused() {
    let refused = request_for(None, Action::Start, "net-a", settings());
    assert!(refused.is_err_and(|said| said.starts_with("Wire a running device's IQ")));
}

fn running(status: Status) -> Running<Status> {
    Running {
        node: status.node.clone(),
        status,
    }
}

fn radio(running_now: bool, export: Option<Status>) -> Option<RadioState<Status>> {
    Some(RadioState {
        running: running_now,
        export: export.map(running),
    })
}

fn channel(export: Option<Status>) -> Option<ChannelState<Status>> {
    Some(ChannelState {
        export: export.map(running),
    })
}

#[test]
fn a_channel_reads_its_own_export_not_the_radios() {
    assert_eq!(
        control_of(channel_source(radio(true, Some(status("net-a"))), channel(Some(status("bb-a")))), "bb-a"),
        Control::Active(status("bb-a"))
    );
    assert_eq!(
        control_of(channel_source(radio(true, Some(status("net-a"))), channel(None)), "bb-a"),
        Control::Ready
    );
    assert_eq!(
        control_of(channel_source(radio(true, Some(status("net-a"))), None), "bb-a"),
        Control::Unavailable
    );
}

#[test]
fn a_radio_is_a_source_only_while_it_runs() {
    assert_eq!(
        control_of(device_source(radio(true, Some(status("net-a")))), "net-a"),
        Control::Active(status("net-a"))
    );
    assert_eq!(control_of(device_source(radio(false, None)), "net-a"), Control::Unavailable);
    assert_eq!(control_of::<Status>(device_source(None), "net-a"), Control::Unavailable);
    assert_eq!(
        device_source(radio(true, None)),
        Some(Source { running: true, active: None })
    );
}
