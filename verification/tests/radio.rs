use faces::patch::{GraphNode, NodeBody, PatchGraph};
use faces::radio::{marker_name, trunk_roles, tuning_locked, TrunkOwner, TrunkSlot, TrunkSystem};

fn slot(device_set: u32, channel: u32) -> TrunkSlot {
    TrunkSlot { device_set, channel }
}

#[test]
fn a_marker_names_its_mode_or_its_trunk_role() {
    let owner = TrunkOwner {
        node: String::from("trunk"),
        role: "control",
    };
    assert_eq!(marker_name("nfm", None), "NFM");
    assert_eq!(marker_name("nfm", Some(&owner)), "CONTROL");
}

#[test]
fn each_trunked_channel_of_the_set_names_its_system_and_role() {
    let trunks = [
        TrunkSystem {
            node: String::from("p25"),
            control: Some(slot(1, 3)),
            followers: vec![slot(1, 4), slot(2, 9)],
            probes: vec![slot(1, 5)],
        },
        TrunkSystem {
            node: String::from("edacs"),
            control: Some(slot(2, 1)),
            followers: vec![slot(1, 4)],
            probes: Vec::new(),
        },
    ];
    let owners = trunk_roles(&trunks, 1);
    assert_eq!(owners.len(), 3);
    assert_eq!(owners[&3], TrunkOwner { node: String::from("p25"), role: "control" });
    assert_eq!(owners[&4], TrunkOwner { node: String::from("edacs"), role: "call" });
    assert_eq!(owners[&5], TrunkOwner { node: String::from("p25"), role: "search" });
    assert!(trunk_roles(&trunks, 7).is_empty());
}

#[test]
fn locks_are_read_off_the_device_lane_and_the_channel() {
    let node = |id: &str, body: NodeBody<()>| GraphNode {
        id: id.to_owned(),
        body,
    };
    let graph = PatchGraph {
        nodes: vec![
            node("dev", NodeBody::Device { locked_streams: vec![1] }),
            node("nfm", NodeBody::Channel { tuning_locked: true }),
        ],
        edges: Vec::new(),
    };
    assert!(!tuning_locked(&graph, "dev", 0));
    assert!(tuning_locked(&graph, "dev", 1));
    assert!(tuning_locked(&graph, "nfm", 0));
    assert!(!tuning_locked(&graph, "gone", 0));
}
