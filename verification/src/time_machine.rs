//! The time-machine sink's controls: what its buffer on a radio is doing,
//! and the request each action sends.
use vstd::prelude::*;
use crate::text::{chars_of, decimal, push_decimal, push_str, same_text, string_of};

verus! {

/// What a time machine says when no running radio is wired to it.
pub const UNWIRED: &'static str = "Wire a running device's IQ into this sink first.";

/// What a radio's history buffer is doing for a sink: nothing can be done,
/// nothing is held, it is armed or capturing (with its status, of the
/// caller's type), or another sink holds it.
#[derive(Clone, Debug, PartialEq)]
pub enum Phase<S> {
    Unavailable,
    Idle,
    Armed(S),
    Capturing(S),
    Busy(String),
}

/// A history buffer held on a radio: the sink holding it, whether it is
/// capturing to a file, and its status.
#[derive(Clone, Debug, PartialEq)]
pub struct Held<S> {
    pub node: String,
    pub capturing: bool,
    pub status: S,
}

/// A radio as a time machine sees it: whether it runs, and the buffer held
/// on it, if any.
#[derive(Clone, Debug, PartialEq)]
pub struct Radio<S> {
    pub running: bool,
    pub held: Option<Held<S>>,
}

/// The phase of the sink `node` on a radio.
pub open spec fn phase_spec<S>(radio: Option<Radio<S>>, node: Seq<char>) -> Phase<S> {
    match radio {
        Some(r) => if !r.running {
            Phase::Unavailable
        } else {
            match r.held {
                None => Phase::Idle,
                Some(h) => if h.node@ != node {
                    Phase::Busy(h.node)
                } else if !h.capturing {
                    Phase::Armed(h.status)
                } else {
                    Phase::Capturing(h.status)
                },
            }
        },
        None => Phase::Unavailable,
    }
}

/// What the buffer of the radio the sink `node` is wired to is doing.
pub fn phase_of<S>(radio: Option<Radio<S>>, node: &str) -> (phase: Phase<S>)
    ensures
        phase == phase_spec(radio, node@),
{
    match radio {
        Some(r) => {
            if !r.running {
                return Phase::Unavailable;
            }
            match r.held {
                None => Phase::Idle,
                Some(h) => {
                    if !same_text(h.node.as_str(), node) {
                        Phase::Busy(h.node)
                    } else if !h.capturing {
                        Phase::Armed(h.status)
                    } else {
                        Phase::Capturing(h.status)
                    }
                },
            }
        },
        None => Phase::Unavailable,
    }
}

/// What an action of a time machine sends.
#[derive(Clone, Debug, PartialEq)]
pub struct Command<A, T> {
    pub action: A,
    pub node: String,
    pub stream: u32,
    pub settings: T,
}

/// The path of a radio's time machine.
pub open spec fn machine_path(set: u32) -> Seq<char> {
    "/api/devicesets/"@ + decimal(set as nat) + "/time-machine"@
}

/// The path and body an action of the sink `node` sends to the radio `set`
/// holding its buffer; with no radio it is refused, saying what to wire.
pub fn request_for<A, T>(set: Option<u32>, action: A, node: &str, stream: u32, settings: T) -> (request: Result<(String, Command<A, T>), &'static str>)
    ensures
        match set {
            None => request == Err::<(String, Command<A, T>), &'static str>(UNWIRED),
            Some(s) => request matches Ok((path, body)) && path@ == machine_path(s) && body.action == action
                && body.node@ == node@ && body.stream == stream && body.settings == settings,
        },
{
    let s = match set {
        Some(s) => s,
        None => return Err(UNWIRED),
    };
    let mut path: Vec<char> = Vec::new();
    push_str(&mut path, "/api/devicesets/");
    push_decimal(&mut path, s as u64);
    push_str(&mut path, "/time-machine");
    Ok((string_of(path.as_slice()), Command { action, node: string_of(chars_of(node).as_slice()), stream, settings }))
}

} // verus!
