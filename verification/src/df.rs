//! Where a map's direction-finding picture comes from: the finders,
//! crossings and passive radars wired into it.
use vstd::prelude::*;
use crate::patch::{find_node, node_at, GraphEdge, GraphNode, NodeBody, PatchGraph};
use crate::text::{lemma_texts_push, same_text, texts};

verus! {

/// A passive radar feeding the map, with the place of its illuminator.
#[derive(Clone, Debug, PartialEq)]
pub struct Radar<P> {
    pub node: String,
    pub illuminator: P,
}

/// The nodes whose events reach the map: direction finders, crossings, and
/// passive radars whose illuminator is known.
#[derive(Clone, Debug, Default, PartialEq)]
pub struct Sources<P> {
    pub finders: Vec<String>,
    pub crossings: Vec<String>,
    pub radars: Vec<Radar<P>>,
}


/// Sources as the texts of the finders and crossings, and each radar as its
/// node and illuminator.
pub open spec fn sources_view<P>(s: Sources<P>) -> (Seq<Seq<char>>, Seq<Seq<char>>, Seq<(Seq<char>, P)>) {
    (texts(s.finders@), texts(s.crossings@), Seq::new(s.radars@.len(), |i: int| (s.radars@[i].node@, s.radars@[i].illuminator)))
}

/// The sources after one more wire: one into the `events` port of `node`
/// adds the node it comes from, by what that node is.
pub open spec fn source_step<P>(
    s: (Seq<Seq<char>>, Seq<Seq<char>>, Seq<(Seq<char>, P)>),
    nodes: Seq<GraphNode<P>>,
    edge: GraphEdge,
    node: Seq<char>,
) -> (Seq<Seq<char>>, Seq<Seq<char>>, Seq<(Seq<char>, P)>) {
    if edge.to_node@ != node || edge.to_port@ != "events"@ {
        s
    } else {
        match node_at(nodes, edge.from_node@, 0) {
            None => s,
            Some(k) => match nodes[k].body {
                NodeBody::Df => (s.0.push(nodes[k].id@), s.1, s.2),
                NodeBody::Triangulation => (s.0, s.1.push(nodes[k].id@), s.2),
                NodeBody::PassiveRadar(Some(at)) => (s.0, s.1, s.2.push((nodes[k].id@, at))),
                _ => s,
            },
        }
    }
}

/// The sources of `node` found over the wires of a graph, in order.
pub open spec fn sources_over<P>(
    edges: Seq<GraphEdge>,
    nodes: Seq<GraphNode<P>>,
    node: Seq<char>,
) -> (Seq<Seq<char>>, Seq<Seq<char>>, Seq<(Seq<char>, P)>)
    decreases edges.len(),
{
    if edges.len() == 0 {
        (Seq::empty(), Seq::empty(), Seq::empty())
    } else {
        source_step(sources_over(edges.drop_last(), nodes, node), nodes, edges.last(), node)
    }
}


/// The finders, crossings and passive radars wired into the `events` port
/// of `node`, in the order of the graph's wires; a radar counts only once
/// its illuminator is set.
pub fn sources_of<P: Copy>(graph: &PatchGraph<P>, node: &str) -> (out: Sources<P>)
    ensures
        sources_view(out) == sources_over(graph.edges@, graph.nodes@, node@),
{
    let mut out = Sources { finders: Vec::new(), crossings: Vec::new(), radars: Vec::new() };
    let ghost nodes = graph.nodes@;
    assert(sources_view(out) =~= sources_over(graph.edges@.take(0), nodes, node@));
    let mut i: usize = 0;
    while i < graph.edges.len()
        invariant
            i <= graph.edges@.len(),
            nodes == graph.nodes@,
            sources_view(out) == sources_over(graph.edges@.take(i as int), nodes, node@),
        decreases graph.edges@.len() - i,
    {
        let edge = &graph.edges[i];
        let ghost before = sources_view(out);
        proof {
            assert(graph.edges@.take(i + 1).drop_last() =~= graph.edges@.take(i as int));
        }
        if same_text(edge.to_node.as_str(), node) && same_text(edge.to_port.as_str(), "events") {
            match find_node(&graph.nodes, edge.from_node.as_str()) {
                Some(k) => {
                    let found = &graph.nodes[k];
                    match &found.body {
                        NodeBody::Df => {
                            let ghost finders = out.finders@;
                            let id = found.id.clone();
                            out.finders.push(id);
                            proof {
                                lemma_texts_push(finders, id);
                            }
                            assert(sources_view(out) =~= source_step(before, nodes, *edge, node@));
                        },
                        NodeBody::Triangulation => {
                            let ghost crossings = out.crossings@;
                            let id = found.id.clone();
                            out.crossings.push(id);
                            proof {
                                lemma_texts_push(crossings, id);
                            }
                            assert(sources_view(out) =~= source_step(before, nodes, *edge, node@));
                        },
                        NodeBody::PassiveRadar(Some(at)) => {
                            let radar = Radar { node: found.id.clone(), illuminator: *at };
                            out.radars.push(radar);
                            assert(sources_view(out).2 =~= before.2.push((found.id@, *at)));
                            assert(sources_view(out) =~= source_step(before, nodes, *edge, node@));
                        },
                        _ => {},
                    }
                },
                None => {},
            }
        }
        i += 1;
    }
    assert(graph.edges@.take(i as int) =~= graph.edges@);
    out
}

} // verus!
