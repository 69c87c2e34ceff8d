//! Band-plan allocations that share a frequency, gathered under the layer
//! they come from.
use vstd::prelude::*;
use crate::locator::ascii_upper;
use crate::text::{chars_of, holds, lemma_texts_push, push_chars, same_text, slice_chars, string_of, texts};

verus! {

/// The allocations of one layer that cover a frequency, each name once.
#[derive(Clone, Debug, PartialEq, Eq)]
pub struct CoveredGroup {
    pub label: String,
    pub names: Vec<String>,
}

/// A group as its label and the texts of its names.
pub open spec fn group_of(g: CoveredGroup) -> (Seq<char>, Seq<Seq<char>>) {
    (g.label@, texts(g.names@))
}

/// Some groups as labels and names.
pub open spec fn groups_of(gs: Seq<CoveredGroup>) -> Seq<(Seq<char>, Seq<Seq<char>>)> {
    Seq::new(gs.len(), |i: int| group_of(gs[i]))
}

/// The first group at or after `from` under `label`.
pub open spec fn label_at(g: Seq<(Seq<char>, Seq<Seq<char>>)>, label: Seq<char>, from: int) -> Option<int>
    decreases g.len() - from,
{
    if from < 0 || from >= g.len() {
        None
    } else if g[from].0 == label {
        Some(from)
    } else {
        label_at(g, label, from + 1)
    }
}

proof fn lemma_label_at(g: Seq<(Seq<char>, Seq<Seq<char>>)>, label: Seq<char>, from: int)
    requires
        0 <= from,
    ensures
        match label_at(g, label, from) {
            Some(k) => from <= k < g.len() && g[k].0 == label,
            None => forall|j: int| from <= j < g.len() ==> g[j].0 != label,
        },
    decreases g.len() - from,
{
    if from < g.len() && g[from].0 != label {
        lemma_label_at(g, label, from + 1);
    }
}

/// The groups after taking in one more allocation, given by the label of its
/// layer and its name: it joins the group of that label, or starts one at the
/// end, and its name is added unless the group holds it already.
pub open spec fn gather(
    g: Seq<(Seq<char>, Seq<Seq<char>>)>,
    label: Seq<char>,
    name: Seq<char>,
) -> Seq<(Seq<char>, Seq<Seq<char>>)> {
    match label_at(g, label, 0) {
        Some(at) => if g[at].1.contains(name) {
            g
        } else {
            g.update(at, (label, g[at].1.push(name)))
        },
        None => g.push((label, seq![name])),
    }
}

/// The groups of some allocations, each given by the label of its layer and
/// its name, taken in order.
pub open spec fn gathered(covered: Seq<(String, String)>) -> Seq<(Seq<char>, Seq<Seq<char>>)>
    decreases covered.len(),
{
    if covered.len() == 0 {
        Seq::empty()
    } else {
        let last = covered.last();
        gather(gathered(covered.drop_last()), last.0@, last.1@)
    }
}

/// Where the group under `label` is, if there is one.
fn find_label(groups: &Vec<CoveredGroup>, label: &str) -> (at: Option<usize>)
    ensures
        match at {
            Some(k) => label_at(groups_of(groups@), label@, 0) == Some(k as int),
            None => label_at(groups_of(groups@), label@, 0) is None,
        },
{
    let ghost g = groups_of(groups@);
    let mut i: usize = 0;
    while i < groups.len()
        invariant
            i <= groups@.len(),
            g == groups_of(groups@),
            label_at(g, label@, 0) == label_at(g, label@, i as int),
        decreases groups@.len() - i,
    {
        assert(g[i as int].0 == groups@[i as int].label@);
        if same_text(groups[i].label.as_str(), label) {
            return Some(i);
        }
        i += 1;
    }
    None
}

/// Gathers the allocations that cover a frequency, each given by the label
/// of its layer and its name, into one group per label in the order the
/// labels first come, each name once in the order it first comes.
pub fn covered_by_layer(covered: &[(String, String)]) -> (groups: Vec<CoveredGroup>)
    ensures
        groups_of(groups@) == gathered(covered@),
{
    let mut groups: Vec<CoveredGroup> = Vec::new();
    let mut i: usize = 0;
    assert(groups_of(groups@) =~= Seq::<(Seq<char>, Seq<Seq<char>>)>::empty());
    while i < covered.len()
        invariant
            i <= covered@.len(),
            groups_of(groups@) == gathered(covered@.take(i as int)),
        decreases covered@.len() - i,
    {
        let label = &covered[i].0;
        let name = &covered[i].1;
        let ghost g = groups_of(groups@);
        proof {
            assert(covered@.take(i + 1).drop_last() =~= covered@.take(i as int));
            assert(gathered(covered@.take(i + 1)) == gather(g, label@, name@));
        }
        match find_label(&groups, label.as_str()) {
            Some(at) => {
                proof {
                    lemma_label_at(g, label@, 0);
                }
                assert(g[at as int] == group_of(groups@[at as int]));
                if !holds(groups[at].names.as_slice(), name.as_str()) {
                    let ghost before = groups@;
                    let mut group = groups.remove(at);
                    assert(group == before[at as int]);
                    assert(group_of(before[at as int]) == g[at as int]);
                    assert(group.label@ == label@);
                    let ghost names = group.names@;
                    let copy = name.clone();
                    group.names.push(copy);
                    proof {
                        lemma_texts_push(names, copy);
                        assert(group.label@ == label@);
                        assert(texts(names) == g[at as int].1);
                        assert(texts(group.names@) == g[at as int].1.push(name@));
                        assert(group_of(group) == (label@, g[at as int].1.push(name@)));
                    }
                    groups.insert(at, group);
                    proof {
                        assert(groups@ =~= before.update(at as int, group));
                        assert(groups_of(groups@) =~= gather(g, label@, name@));
                    }
                } else {
                    assert(label_at(g, label@, 0) == Some(at as int));
                    assert(g[at as int].1.contains(name@));
                    assert(gather(g, label@, name@) == g);
                }
            },
            None => {
                let group = CoveredGroup { label: label.clone(), names: vec![name.clone()] };
                groups.push(group);
                assert(texts(group.names@) =~= seq![name@]);
                assert(groups_of(groups@) =~= gather(g, label@, name@));
            },
        }
        i += 1;
    }
    assert(covered@.take(i as int) =~= covered@);
    groups
}

/// Whether the groups are as `covered_by_layer` keeps them: each label once,
/// and each name once within its group.
pub open spec fn each_once(g: Seq<(Seq<char>, Seq<Seq<char>>)>) -> bool {
    &&& forall|a: int, b: int| 0 <= a < b < g.len() ==> #[trigger] g[a].0 != #[trigger] g[b].0
    &&& forall|a: int, m: int, n: int|
        0 <= a < g.len() && 0 <= m < n < g[a].1.len() ==> #[trigger] g[a].1[m] != #[trigger] g[a].1[n]
}

/// Whether the groups hold `name` under `label`.
pub open spec fn grouped(g: Seq<(Seq<char>, Seq<Seq<char>>)>, label: Seq<char>, name: Seq<char>) -> bool {
    exists|a: int| 0 <= a < g.len() && g[a].0 == label && #[trigger] g[a].1.contains(name)
}

proof fn lemma_gather_step(g: Seq<(Seq<char>, Seq<Seq<char>>)>, label: Seq<char>, name: Seq<char>)
    requires
        each_once(g),
    ensures
        each_once(gather(g, label, name)),
        forall|l: Seq<char>, n: Seq<char>|
            grouped(gather(g, label, name), l, n) <==> (grouped(g, l, n) || (l == label && n == name)),
{
    lemma_label_at(g, label, 0);
    let h = gather(g, label, name);
    match label_at(g, label, 0) {
        Some(at) => {
            if !g[at].1.contains(name) {
                let grown = g[at].1.push(name);
                assert forall|a: int, m: int, n: int|
                    0 <= a < h.len() && 0 <= m < n < h[a].1.len() implies #[trigger] h[a].1[m] != #[trigger] h[a].1[n] by {
                    if a == at && n == grown.len() - 1 {
                        assert(g[at].1[m] == h[a].1[m]);
                    } else if a == at {
                        assert(h[a].1[m] == g[a].1[m] && h[a].1[n] == g[a].1[n]);
                    }
                }
                assert forall|l: Seq<char>, n: Seq<char>| grouped(h, l, n) <==> (grouped(g, l, n) || (l == label && n == name)) by {
                    if grouped(h, l, n) {
                        let a = choose|a: int| 0 <= a < h.len() && h[a].0 == l && #[trigger] h[a].1.contains(n);
                        if a == at {
                            let m = choose|m: int| 0 <= m < h[a].1.len() && h[a].1[m] == n;
                            if m < g[at].1.len() {
                                assert(g[at].1[m] == n);
                                assert(g[at].1.contains(n));
                            }
                        } else {
                            assert(g[a].1.contains(n));
                        }
                    }
                    if grouped(g, l, n) {
                        let a = choose|a: int| 0 <= a < g.len() && g[a].0 == l && #[trigger] g[a].1.contains(n);
                        if a == at {
                            let m = choose|m: int| 0 <= m < g[a].1.len() && g[a].1[m] == n;
                            assert(h[a].1[m] == n);
                            assert(h[a].1.contains(n));
                        } else {
                            assert(h[a].1.contains(n));
                        }
                    }
                    if l == label && n == name {
                        assert(h[at].1[grown.len() - 1] == name);
                        assert(h[at].1.contains(name));
                    }
                }
            } else {
                assert forall|l: Seq<char>, n: Seq<char>| grouped(h, l, n) <==> (grouped(g, l, n) || (l == label && n == name)) by {
                    if l == label && n == name {
                        assert(g[at].1.contains(name));
                    }
                }
            }
        },
        None => {
            assert forall|a: int, b: int| 0 <= a < b < h.len() implies #[trigger] h[a].0 != #[trigger] h[b].0 by {
                if b == g.len() {
                    assert(g[a].0 != label);
                }
            }
            assert forall|a: int, m: int, n: int|
                0 <= a < h.len() && 0 <= m < n < h[a].1.len() implies #[trigger] h[a].1[m] != #[trigger] h[a].1[n] by {
                if a < g.len() {
                    assert(h[a] == g[a]);
                    assert(g[a].1[m] != g[a].1[n]);
                } else {
                    assert(h[a].1.len() == 1);
                }
            }
            assert forall|l: Seq<char>, n: Seq<char>| grouped(h, l, n) <==> (grouped(g, l, n) || (l == label && n == name)) by {
                if grouped(h, l, n) {
                    let a = choose|a: int| 0 <= a < h.len() && h[a].0 == l && #[trigger] h[a].1.contains(n);
                    if a < g.len() {
                        assert(h[a] == g[a]);
                    } else {
                        assert(h[a].1 == seq![name]);
                        assert(n == name);
                    }
                }
                if grouped(g, l, n) {
                    let a = choose|a: int| 0 <= a < g.len() && g[a].0 == l && #[trigger] g[a].1.contains(n);
                    assert(h[a] == g[a]);
                }
                if l == label && n == name {
                    assert(h[g.len() as int].1[0] == name);
                    assert(h[g.len() as int].1.contains(name));
                }
            }
        },
    }
}

/// The groups hold each label once and each name once within its group, and
/// hold a name under a label exactly when some allocation has that name and
/// a layer of that label.
pub proof fn law_covered_groups(covered: Seq<(String, String)>)
    ensures
        each_once(gathered(covered)),
        forall|l: Seq<char>, n: Seq<char>|
            grouped(gathered(covered), l, n) <==> exists|k: int|
                0 <= k < covered.len() && (#[trigger] covered[k]).0@ == l && covered[k].1@ == n,
    decreases covered.len(),
{
    if covered.len() == 0 {
        return;
    }
    let rest = covered.drop_last();
    let last = covered.last();
    law_covered_groups(rest);
    lemma_gather_step(gathered(rest), last.0@, last.1@);
    assert forall|l: Seq<char>, n: Seq<char>|
        grouped(gathered(covered), l, n) <==> exists|k: int|
            0 <= k < covered.len() && (#[trigger] covered[k]).0@ == l && covered[k].1@ == n by {
        if exists|k: int| 0 <= k < covered.len() && (#[trigger] covered[k]).0@ == l && covered[k].1@ == n {
            let k = choose|k: int| 0 <= k < covered.len() && (#[trigger] covered[k]).0@ == l && covered[k].1@ == n;
            if k < rest.len() {
                assert(rest[k] == covered[k]);
            }
        }
        if grouped(gathered(rest), l, n) {
            let k = choose|k: int| 0 <= k < rest.len() && (#[trigger] rest[k]).0@ == l && rest[k].1@ == n;
            assert(covered[k] == rest[k]);
        }
    }
}

/// What a band is used for.
#[derive(Clone, Copy, Debug, PartialEq, Eq, Structural)]
pub enum BandService {
    Amateur,
    Broadcast,
    Aeronautical,
    Maritime,
    Mobile,
    Satellite,
    Navigation,
    Science,
    Ism,
    Other,
}

/// The name of a service.
pub open spec fn service_name_of(service: BandService) -> Seq<char> {
    match service {
        BandService::Amateur => "amateur"@,
        BandService::Broadcast => "broadcast"@,
        BandService::Aeronautical => "aeronautical"@,
        BandService::Maritime => "maritime"@,
        BandService::Mobile => "mobile"@,
        BandService::Satellite => "satellite"@,
        BandService::Navigation => "navigation"@,
        BandService::Science => "science"@,
        BandService::Ism => "ism"@,
        BandService::Other => "other"@,
    }
}

/// The name of a service, in lower case.
pub fn service_name(service: BandService) -> (name: &'static str)
    ensures
        name@ == service_name_of(service),
{
    match service {
        BandService::Amateur => "amateur",
        BandService::Broadcast => "broadcast",
        BandService::Aeronautical => "aeronautical",
        BandService::Maritime => "maritime",
        BandService::Mobile => "mobile",
        BandService::Satellite => "satellite",
        BandService::Navigation => "navigation",
        BandService::Science => "science",
        BandService::Ism => "ism",
        BandService::Other => "other",
    }
}

/// The label of a service: its name with a capital first letter; the
/// initialism ISM in capitals.
pub open spec fn service_label_of(service: BandService) -> Seq<char> {
    if service == BandService::Ism {
        "ISM"@
    } else {
        let name = service_name_of(service);
        seq![ascii_upper(name[0])] + name.skip(1)
    }
}

fn capital(c: char) -> (upper: char)
    ensures
        upper == ascii_upper(c),
{
    if 'a' <= c && c <= 'z' {
        ((c as u8) - 32) as char
    } else {
        c
    }
}

/// The label a service is shown under.
pub fn service_label(service: BandService) -> (label: String)
    ensures
        label@ == service_label_of(service),
{
    if service == BandService::Ism {
        return string_of(chars_of("ISM").as_slice());
    }
    let name = chars_of(service_name(service));
    proof {
        reveal_strlit("amateur");
        reveal_strlit("broadcast");
        reveal_strlit("aeronautical");
        reveal_strlit("maritime");
        reveal_strlit("mobile");
        reveal_strlit("satellite");
        reveal_strlit("navigation");
        reveal_strlit("science");
        reveal_strlit("other");
    }
    let rest = slice_chars(name.as_slice(), 1, name.len());
    let mut out: Vec<char> = Vec::new();
    out.push(capital(name[0]));
    push_chars(&mut out, rest.as_slice());
    assert(out@ =~= service_label_of(service));
    string_of(out.as_slice())
}

/// A note of a band plan's layer, by its id.
pub struct Provision {
    pub layer: String,
    pub id: String,
    pub text: String,
}

/// The first provision at or after `from` of `layer` with the id `id`.
pub open spec fn provision_at(provisions: Seq<Provision>, layer: Seq<char>, id: Seq<char>, from: int) -> Option<int>
    decreases provisions.len() - from,
{
    if from < 0 || from >= provisions.len() {
        None
    } else if provisions[from].layer@ == layer && provisions[from].id@ == id {
        Some(from)
    } else {
        provision_at(provisions, layer, id, from + 1)
    }
}

/// The text of the provision of `layer` with the id `id`, if the plan has
/// one.
pub fn provision_text<'a>(provisions: &'a [Provision], layer: &str, id: &str) -> (text: Option<&'a str>)
    ensures
        match provision_at(provisions@, layer@, id@, 0) {
            Some(k) => text matches Some(t) && t@ == provisions@[k].text@,
            None => text is None,
        },
{
    let mut i: usize = 0;
    while i < provisions.len()
        invariant
            i <= provisions@.len(),
            provision_at(provisions@, layer@, id@, 0) == provision_at(provisions@, layer@, id@, i as int),
        decreases provisions@.len() - i,
    {
        if same_text(provisions[i].layer.as_str(), layer) && same_text(provisions[i].id.as_str(), id) {
            assert(provision_at(provisions@, layer@, id@, i as int) == Some(i as int));
            return Some(provisions[i].text.as_str());
        }
        i += 1;
    }
    None
}

} // verus!
