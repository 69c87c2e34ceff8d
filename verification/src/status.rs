//! The state a face's header shows for the radio or channel it stands for.
use vstd::prelude::*;
use crate::patch::{GraphNode, NodeBody, PatchGraph};
use crate::text::same_text;

verus! {

/// The state of a radio's device set: running, failed, or any other state.
#[derive(Clone, Copy, Debug, PartialEq, Eq)]
pub enum SetStatus {
    Running,
    Error,
    Idle,
}

/// Whether the node at `i` is the radio or channel `node`.
pub open spec fn carries_at<P>(nodes: Seq<GraphNode<P>>, node: Seq<char>, i: int) -> bool {
    &&& nodes[i].id@ == node
    &&& (nodes[i].body is Device || nodes[i].body is Channel)
}

/// Whether `node` is a radio or a channel of the graph: only those carry a
/// state in their header.
pub open spec fn carries_status<P>(nodes: Seq<GraphNode<P>>, node: Seq<char>) -> bool {
    exists|i: int| 0 <= i < nodes.len() && #[trigger] carries_at(nodes, node, i)
}

/// The style class and the words a header shows: nothing for a node that
/// carries no state, `UNBOUND` for one bound to no device set, and else the
/// state of its set (with anything but running or failed, or a set that is
/// gone, shown as idle).
pub open spec fn status_text(carries: bool, bound: Option<Option<SetStatus>>) -> (Seq<char>, Seq<char>) {
    if !carries {
        ("idle"@, ""@)
    } else {
        match bound {
            None => ("idle"@, "UNBOUND"@),
            Some(Some(SetStatus::Running)) => ("run"@, "RUNNING"@),
            Some(Some(SetStatus::Error)) => ("err"@, "ERROR"@),
            Some(_) => ("idle"@, "IDLE"@),
        }
    }
}

/// Whether `nodes` holds the radio or channel `node`.
fn holds_status_node<P>(nodes: &Vec<GraphNode<P>>, node: &str) -> (r: bool)
    ensures
        r == carries_status(nodes@, node@),
{
    let mut i: usize = 0;
    while i < nodes.len()
        invariant
            i <= nodes@.len(),
            forall|j: int| 0 <= j < i ==> !#[trigger] carries_at(nodes@, node@, j),
        decreases nodes@.len() - i,
    {
        let kind_carries = match &nodes[i].body {
            NodeBody::Device { .. } => true,
            NodeBody::Channel { .. } => true,
            _ => false,
        };
        if kind_carries && same_text(nodes[i].id.as_str(), node) {
            assert(carries_at(nodes@, node@, i as int));
            return true;
        }
        i += 1;
    }
    false
}

/// The header state of `node`, given the state of the device set it is
/// bound to: `None` where it is bound to none, `Some(None)` where that set is
/// not known.
pub fn status_of<P>(graph: &PatchGraph<P>, node: &str, bound: Option<Option<SetStatus>>) -> (shown: (&'static str, &'static str))
    ensures
        (shown.0@, shown.1@) == status_text(carries_status(graph.nodes@, node@), bound),
{
    if !holds_status_node(&graph.nodes, node) {
        return ("idle", "");
    }
    match bound {
        None => ("idle", "UNBOUND"),
        Some(Some(SetStatus::Running)) => ("run", "RUNNING"),
        Some(Some(SetStatus::Error)) => ("err", "ERROR"),
        Some(_) => ("idle", "IDLE"),
    }
}

} // verus!
