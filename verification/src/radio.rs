//! Which channels of a radio the trunking systems hold, and how their
//! markers are named.
use vstd::prelude::*;
use std::collections::HashMap;
use crate::patch::{find_node, node_at, GraphNode, NodeBody, PatchGraph};
use crate::text::{to_upper, upper_of};

verus! {

broadcast use vstd::std_specs::hash::group_hash_axioms;

/// The trunking system that holds a channel, and what it holds it for:
/// `control`, `call` or `search`.
#[derive(Clone, Debug, PartialEq, Eq)]
pub struct TrunkOwner {
    pub node: String,
    pub role: &'static str,
}

/// A channel of a trunking system, on a device set.
#[derive(Clone, Copy, Debug, PartialEq, Eq)]
pub struct TrunkSlot {
    pub device_set: u32,
    pub channel: u32,
}

/// What a trunking system reports: its node, its control channel if it has
/// one, the channels that follow calls and those that search.
#[derive(Clone, Debug, PartialEq, Eq)]
pub struct TrunkSystem {
    pub node: String,
    pub control: Option<TrunkSlot>,
    pub followers: Vec<TrunkSlot>,
    pub probes: Vec<TrunkSlot>,
}

/// An owner as its node and role.
pub open spec fn owner_view(o: TrunkOwner) -> (Seq<char>, Seq<char>) {
    (o.node@, o.role@)
}

/// Owners as nodes and roles, by channel.
pub open spec fn owners_view(m: Map<u32, TrunkOwner>) -> Map<u32, (Seq<char>, Seq<char>)> {
    m.map_values(|o: TrunkOwner| owner_view(o))
}

/// The owners after the slots of `slots` on `set` are given to `node` for
/// `role`, in order, a later one taking a channel over.
pub open spec fn claim(
    m: Map<u32, (Seq<char>, Seq<char>)>,
    slots: Seq<TrunkSlot>,
    set: u32,
    node: Seq<char>,
    role: Seq<char>,
) -> Map<u32, (Seq<char>, Seq<char>)>
    decreases slots.len(),
{
    if slots.len() == 0 {
        m
    } else {
        let before = claim(m, slots.drop_last(), set, node, role);
        let slot = slots.last();
        if slot.device_set == set {
            before.insert(slot.channel, (node, role))
        } else {
            before
        }
    }
}

/// The owners after one system claims its channels on `set`: its control
/// channel, then its call followers, then its search probes.
pub open spec fn system_claims(
    m: Map<u32, (Seq<char>, Seq<char>)>,
    system: TrunkSystem,
    set: u32,
) -> Map<u32, (Seq<char>, Seq<char>)> {
    let with_control = match system.control {
        Some(slot) => if slot.device_set == set {
            m.insert(slot.channel, (system.node@, "control"@))
        } else {
            m
        },
        None => m,
    };
    let with_calls = claim(with_control, system.followers@, set, system.node@, "call"@);
    claim(with_calls, system.probes@, set, system.node@, "search"@)
}

/// The owners of the channels on `set` after every system, in order, claims
/// its own.
pub open spec fn roles_of(trunks: Seq<TrunkSystem>, set: u32) -> Map<u32, (Seq<char>, Seq<char>)>
    decreases trunks.len(),
{
    if trunks.len() == 0 {
        Map::empty()
    } else {
        system_claims(roles_of(trunks.drop_last(), set), trunks.last(), set)
    }
}

fn own(owners: &mut HashMap<u32, TrunkOwner>, channel: u32, node: &String, role: &'static str)
    ensures
        owners_view(final(owners)@) == owners_view(old(owners)@).insert(channel, (node@, role@)),
{
    let owner = TrunkOwner { node: node.clone(), role };
    owners.insert(channel, owner);
    assert(owners_view(owners@) =~= owners_view(old(owners)@).insert(channel, (node@, role@)));
}

fn claim_slots(
    owners: &mut HashMap<u32, TrunkOwner>,
    slots: &Vec<TrunkSlot>,
    set: u32,
    node: &String,
    role: &'static str,
)
    ensures
        owners_view(final(owners)@) == claim(owners_view(old(owners)@), slots@, set, node@, role@),
{
    let ghost start = owners_view(owners@);
    let mut i: usize = 0;
    while i < slots.len()
        invariant
            i <= slots@.len(),
            owners_view(owners@) == claim(start, slots@.take(i as int), set, node@, role@),
        decreases slots@.len() - i,
    {
        let slot = slots[i];
        proof {
            assert(slots@.take(i + 1).drop_last() =~= slots@.take(i as int));
        }
        if slot.device_set == set {
            own(owners, slot.channel, node, role);
        }
        i += 1;
    }
    assert(slots@.take(i as int) =~= slots@);
}

/// Which trunking system holds each channel of device set `set`, and for
/// what; where two claim one channel the later claim stands.
pub fn trunk_roles(trunks: &[TrunkSystem], set: u32) -> (owners: HashMap<u32, TrunkOwner>)
    ensures
        owners_view(owners@) == roles_of(trunks@, set),
{
    let mut owners: HashMap<u32, TrunkOwner> = HashMap::new();
    assert(owners_view(owners@) =~= Map::<u32, (Seq<char>, Seq<char>)>::empty());
    let mut i: usize = 0;
    while i < trunks.len()
        invariant
            i <= trunks@.len(),
            owners_view(owners@) == roles_of(trunks@.take(i as int), set),
        decreases trunks@.len() - i,
    {
        let system = &trunks[i];
        proof {
            assert(trunks@.take(i + 1).drop_last() =~= trunks@.take(i as int));
        }
        match system.control {
            Some(slot) => {
                if slot.device_set == set {
                    own(&mut owners, slot.channel, &system.node, "control");
                }
            },
            None => {},
        }
        claim_slots(&mut owners, &system.followers, set, &system.node, "call");
        claim_slots(&mut owners, &system.probes, set, &system.node, "search");
        i += 1;
    }
    assert(trunks@.take(i as int) =~= trunks@);
    owners
}

/// The name on a channel's marker: the role a trunking system holds it
/// for, or else its channel type, in capitals.
pub open spec fn marker_name_of(type_id: Seq<char>, owner: Option<TrunkOwner>) -> Seq<char> {
    match owner {
        Some(o) => upper_of(o.role@),
        None => upper_of(type_id),
    }
}

/// The name on the marker of a channel of type `type_id`.
pub fn marker_name(type_id: &str, owner: Option<&TrunkOwner>) -> (name: String)
    ensures
        name@ == marker_name_of(
            type_id@,
            match owner {
                Some(o) => Some(*o),
                None => None,
            },
        ),
{
    match owner {
        Some(o) => to_upper(o.role),
        None => to_upper(type_id),
    }
}

/// Whether tuning `stream` from `node` is locked: a radio locks the streams
/// it lists, a channel locks its tuning when it says so, and nothing else
/// locks; nor does a node the graph does not hold.
pub open spec fn locked_in<P>(nodes: Seq<GraphNode<P>>, node: Seq<char>, stream: u32) -> bool {
    match node_at(nodes, node, 0) {
        Some(k) => match nodes[k].body {
            NodeBody::Device { locked_streams } => locked_streams@.contains(stream),
            NodeBody::Channel { tuning_locked } => tuning_locked,
            _ => false,
        },
        None => false,
    }
}

/// Whether `streams` lists `stream`.
fn lists_stream(streams: &Vec<u32>, stream: u32) -> (r: bool)
    ensures
        r == streams@.contains(stream),
{
    let mut i: usize = 0;
    while i < streams.len()
        invariant
            i <= streams@.len(),
            forall|j: int| 0 <= j < i ==> streams@[j] != stream,
        decreases streams@.len() - i,
    {
        if streams[i] == stream {
            assert(streams@[i as int] == stream);
            return true;
        }
        i += 1;
    }
    false
}

/// Whether `node` of `graph` locks the tuning of `stream`.
pub fn tuning_locked<P>(graph: &PatchGraph<P>, node: &str, stream: u32) -> (locked: bool)
    ensures
        locked == locked_in(graph.nodes@, node@, stream),
{
    match find_node(&graph.nodes, node) {
        Some(k) => match &graph.nodes[k].body {
            NodeBody::Device { locked_streams } => lists_stream(locked_streams, stream),
            NodeBody::Channel { tuning_locked } => *tuning_locked,
            _ => false,
        },
        None => false,
    }
}

} // verus!
