use faces::df::{sources_of, Radar};
use faces::patch::{GraphEdge, GraphNode, NodeBody, PatchGraph};

fn node(id: &str, body: NodeBody<(f64, f64)>) -> GraphNode<(f64, f64)> {
    GraphNode { id: id.to_owned(), body }
}

fn wire(from: &str, to: &str, port: &str) -> GraphEdge {
    GraphEdge {
        from_node: from.to_owned(),
        to_node: to.to_owned(),
        to_port: port.to_owned(),
    }
}

#[test]
fn the_map_reads_the_finders_crossings_and_placed_radars_wired_into_it() {
    let graph = PatchGraph {
        nodes: vec![
            node("north", NodeBody::Df),
            node("cross", NodeBody::Triangulation),
            node("radar", NodeBody::PassiveRadar(Some((52.5, 13.4)))),
            node("blind", NodeBody::PassiveRadar(None)),
            node("tape", NodeBody::Recording(Some(String::from("airband")))),
            node("south", NodeBody::Df),
        ],
        edges: vec![
            wire("north", "map", "events"),
            wire("cross", "map", "events"),
            wire("radar", "map", "events"),
            wire("blind", "map", "events"),
            wire("tape", "map", "events"),
            wire("south", "map", "audio"),
            wire("south", "other", "events"),
            wire("gone", "map", "events"),
        ],
    };
    let sources = sources_of(&graph, "map");
    assert_eq!(sources.finders, ["north"]);
    assert_eq!(sources.crossings, ["cross"]);
    assert_eq!(
        sources.radars,
        [Radar { node: String::from("radar"), illuminator: (52.5, 13.4) }]
    );
    let none = sources_of(&graph, "nowhere");
    assert!(none.finders.is_empty() && none.crossings.is_empty() && none.radars.is_empty());
}
