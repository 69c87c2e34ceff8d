//! The patch graph as the faces read it: its nodes by id and kind, and the
//! wires between their ports.
use vstd::prelude::*;
use crate::text::same_text;

verus! {

/// What the faces need to know of a node of the patch graph: whether it is a
/// radio with the streams whose tuning it locks, a channel that may lock its
/// tuning, a direction finder, a crossing of bearings, a passive radar with the place
/// of its illuminator (of the caller's type) if one is set, a recording
/// player with the stem it plays if one is set, or something else.
pub enum NodeBody<P> {
    Device { locked_streams: Vec<u32> },
    Channel { tuning_locked: bool },
    Df,
    Triangulation,
    PassiveRadar(Option<P>),
    Recording(Option<String>),
    Other,
}

/// A node of the patch graph.
pub struct GraphNode<P> {
    pub id: String,
    pub body: NodeBody<P>,
}

/// A wire of the patch graph, from a port of one node to a port of another.
pub struct GraphEdge {
    pub from_node: String,
    pub to_node: String,
    pub to_port: String,
}

/// The nodes and wires of a patch graph.
pub struct PatchGraph<P> {
    pub nodes: Vec<GraphNode<P>>,
    pub edges: Vec<GraphEdge>,
}

/// The first node at or after `from` with the id `id`.
pub open spec fn node_at<P>(nodes: Seq<GraphNode<P>>, id: Seq<char>, from: int) -> Option<int>
    decreases nodes.len() - from,
{
    if from < 0 || from >= nodes.len() {
        None
    } else if nodes[from].id@ == id {
        Some(from)
    } else {
        node_at(nodes, id, from + 1)
    }
}

/// The first node of the graph with the id `id`.
pub(crate) fn find_node<P>(nodes: &Vec<GraphNode<P>>, id: &str) -> (at: Option<usize>)
    ensures
        match at {
            Some(k) => node_at(nodes@, id@, 0) == Some(k as int) && k < nodes@.len(),
            None => node_at(nodes@, id@, 0) is None,
        },
{
    let mut i: usize = 0;
    while i < nodes.len()
        invariant
            i <= nodes@.len(),
            node_at(nodes@, id@, 0) == node_at(nodes@, id@, i as int),
        decreases nodes@.len() - i,
    {
        if same_text(nodes[i].id.as_str(), id) {
            return Some(i);
        }
        i += 1;
    }
    None
}

} // verus!
