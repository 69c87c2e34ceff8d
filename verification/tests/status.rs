use faces::patch::{GraphNode, NodeBody, PatchGraph};
use faces::status::{status_of, SetStatus};

fn graph() -> PatchGraph<()> {
    let node = |id: &str, body: NodeBody<()>| GraphNode {
        id: id.to_owned(),
        body,
    };
    PatchGraph {
        nodes: vec![
            node("radio", NodeBody::Device { locked_streams: Vec::new() }),
            node("nfm", NodeBody::Channel { tuning_locked: false }),
            node("map", NodeBody::Df),
        ],
        edges: Vec::new(),
    }
}

#[test]
fn a_header_shows_the_state_of_the_bound_set() {
    let graph = graph();
    assert_eq!(status_of(&graph, "radio", Some(Some(SetStatus::Running))), ("run", "RUNNING"));
    assert_eq!(status_of(&graph, "nfm", Some(Some(SetStatus::Error))), ("err", "ERROR"));
    assert_eq!(status_of(&graph, "nfm", Some(Some(SetStatus::Idle))), ("idle", "IDLE"));
    assert_eq!(status_of(&graph, "radio", Some(None)), ("idle", "IDLE"));
}

#[test]
fn an_unbound_radio_says_so_and_other_nodes_say_nothing() {
    let graph = graph();
    assert_eq!(status_of(&graph, "radio", None), ("idle", "UNBOUND"));
    assert_eq!(status_of(&graph, "map", Some(Some(SetStatus::Running))), ("idle", ""));
    assert_eq!(status_of(&graph, "gone", Some(Some(SetStatus::Running))), ("idle", ""));
}
