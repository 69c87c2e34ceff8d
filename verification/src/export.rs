//! The network-export sink's controls: what it may do on the radio or
//! channel it is wired to, and the request each action sends.
use vstd::prelude::*;
use crate::text::{chars_of, decimal, push_decimal, push_str, same_text, string_of};

verus! {

/// What a sink says when it is wired to nothing it could export.
pub const UNWIRED: &'static str = "Wire a running device's IQ or a channel's baseband into this sink first.";

/// What the export buttons may do: nothing, start, stop the export this sink
/// runs (with its status, of the caller's type), or wait for another sink
/// that holds the source.
#[derive(Clone, Debug, PartialEq)]
pub enum Control<S> {
    Unavailable,
    Ready,
    Active(S),
    Busy(String),
}

/// What an export sends: a radio's stream, or a channel's baseband.
#[derive(Clone, Copy, Debug, PartialEq, Eq)]
pub enum Target {
    Device { set: u32, stream: u32 },
    Channel { set: u32, channel: u32 },
}

/// An export running on a source: the sink that runs it, and its status.
#[derive(Clone, Debug, PartialEq)]
pub struct Running<S> {
    pub node: String,
    pub status: S,
}

/// A source as the sink sees it: whether its radio runs, and the export on
/// it if there is one.
#[derive(Clone, Debug, PartialEq)]
pub struct Source<S> {
    pub running: bool,
    pub active: Option<Running<S>>,
}

/// What a sink reads of a radio: whether it runs, and the export running on
/// its own stream, if any.
#[derive(Clone, Debug, PartialEq)]
pub struct RadioState<S> {
    pub running: bool,
    pub export: Option<Running<S>>,
}

/// What a sink reads of a channel: the export of its baseband, if any.
#[derive(Clone, Debug, PartialEq)]
pub struct ChannelState<S> {
    pub export: Option<Running<S>>,
}

/// The source a radio's stream is: whether the radio runs, and its export.
pub fn device_source<S>(set: Option<RadioState<S>>) -> (source: Option<Source<S>>)
    ensures
        match set {
            Some(r) => source matches Some(s) && s.running == r.running && s.active == r.export,
            None => source is None,
        },
{
    match set {
        Some(r) => Some(Source { running: r.running, active: r.export }),
        None => None,
    }
}

/// The source a channel's baseband is: whether its radio runs, and the
/// channel's own export, not the radio's; none without both the radio and
/// the channel.
pub fn channel_source<S>(set: Option<RadioState<S>>, channel: Option<ChannelState<S>>) -> (source: Option<Source<S>>)
    ensures
        match (set, channel) {
            (Some(r), Some(c)) => source matches Some(s) && s.running == r.running && s.active == c.export,
            _ => source is None,
        },
{
    match (set, channel) {
        (Some(r), Some(c)) => Some(Source { running: r.running, active: c.export }),
        _ => None,
    }
}

/// The control a sink named `node` has over a source: none without a running
/// source, start on a free one, stop on its own export, and wait on another
/// sink's.
pub open spec fn control_spec<S>(source: Option<Source<S>>, node: Seq<char>) -> Control<S> {
    match source {
        Some(s) => if !s.running {
            Control::Unavailable
        } else {
            match s.active {
                None => Control::Ready,
                Some(active) => if active.node@ == node {
                    Control::Active(active.status)
                } else {
                    Control::Busy(active.node)
                },
            }
        },
        None => Control::Unavailable,
    }
}

/// The control a sink named `node` has over the source it is wired to.
pub fn control_of<S>(source: Option<Source<S>>, node: &str) -> (control: Control<S>)
    ensures
        control == control_spec(source, node@),
{
    match source {
        Some(s) => {
            if !s.running {
                return Control::Unavailable;
            }
            match s.active {
                None => Control::Ready,
                Some(active) => {
                    if same_text(active.node.as_str(), node) {
                        Control::Active(active.status)
                    } else {
                        Control::Busy(active.node)
                    }
                },
            }
        },
        None => Control::Unavailable,
    }
}

/// Whether the settings are locked: while an export runs, and while a
/// request is under way.
pub fn controls_locked<S>(control: &Control<S>, pending: bool) -> (locked: bool)
    ensures
        locked == (control is Active || pending),
{
    match control {
        Control::Active(_) => true,
        _ => pending,
    }
}

/// What starting or stopping a radio's export sends.
#[derive(Clone, Debug, PartialEq)]
pub struct DeviceRequest<A, T> {
    pub action: A,
    pub node: String,
    pub stream: u32,
    pub settings: T,
}

/// What starting or stopping a channel's export sends.
#[derive(Clone, Debug, PartialEq)]
pub struct ChannelRequest<A, T> {
    pub action: A,
    pub node: String,
    pub settings: T,
}

/// A request and the path it goes to.
#[derive(Clone, Debug, PartialEq)]
pub enum Request<A, T> {
    Device(String, DeviceRequest<A, T>),
    Channel(String, ChannelRequest<A, T>),
}

/// The path of a radio's export.
pub open spec fn device_path(set: u32) -> Seq<char> {
    "/api/devicesets/"@ + decimal(set as nat) + "/network-export"@
}

/// The path of a channel's export.
pub open spec fn channel_path(set: u32, channel: u32) -> Seq<char> {
    "/api/devicesets/"@ + decimal(set as nat) + "/channels/"@ + decimal(channel as nat) + "/network-export"@
}

/// The request an action of the sink `node` sends to its target, with the
/// sink's settings; with no target it is refused, saying what to wire.
pub fn request_for<A, T>(target: Option<Target>, action: A, node: &str, settings: T) -> (request: Result<Request<A, T>, &'static str>)
    ensures
        match target {
            None => request == Err::<Request<A, T>, &'static str>(UNWIRED),
            Some(Target::Device { set, stream }) => request matches Ok(Request::Device(path, body)) && path@ == device_path(set)
                && body.action == action && body.node@ == node@ && body.stream == stream && body.settings == settings,
            Some(Target::Channel { set, channel }) => request matches Ok(Request::Channel(path, body)) && path@ == channel_path(set, channel)
                && body.action == action && body.node@ == node@ && body.settings == settings,
        },
{
    let owner = string_of(chars_of(node).as_slice());
    match target {
        None => Err(UNWIRED),
        Some(Target::Device { set, stream }) => {
            let mut path: Vec<char> = Vec::new();
            push_str(&mut path, "/api/devicesets/");
            push_decimal(&mut path, set as u64);
            push_str(&mut path, "/network-export");
            Ok(Request::Device(string_of(path.as_slice()), DeviceRequest { action, node: owner, stream, settings }))
        },
        Some(Target::Channel { set, channel }) => {
            let mut path: Vec<char> = Vec::new();
            push_str(&mut path, "/api/devicesets/");
            push_decimal(&mut path, set as u64);
            push_str(&mut path, "/channels/");
            push_decimal(&mut path, channel as u64);
            push_str(&mut path, "/network-export");
            Ok(Request::Channel(string_of(path.as_slice()), ChannelRequest { action, node: owner, settings }))
        },
    }
}

} // verus!
