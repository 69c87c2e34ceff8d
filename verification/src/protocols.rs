//! The spectrum monitor's protocol choice: which decoder protocols it offers,
//! grouped by family, its presets, and the set of protocols switched off.
use vstd::prelude::*;
use crate::order::lemma_sorted_unique;
use crate::text::{before, chars_of, holds, lemma_texts_push, texts, decimal, push_decimal, push_str, has_suffix, lemma_text_order_total, lemma_text_order_transitive, same_text, slice_chars, string_of, text_before, trim_end, trim_end_chars};

verus! {

/// Whether a sequence of texts is in strictly increasing order.
pub open spec fn sorted_texts(s: Seq<Seq<char>>) -> bool {
    forall|i: int, j: int| 0 <= i < j < s.len() ==> text_before(#[trigger] s[i], #[trigger] s[j])
}

/// The first place at or after `i` where `name` has a space and an opening
/// bracket.
pub open spec fn bracket_from(name: Seq<char>, i: int) -> Option<int>
    decreases name.len() - i,
{
    if i < 0 || i + 1 >= name.len() {
        None
    } else if name[i] == ' ' && name[i + 1] == '(' {
        Some(i)
    } else {
        bracket_from(name, i + 1)
    }
}

/// A protocol's name without a bracketed note at its end: `WFM (broadcast)`
/// is shown as `WFM`.
pub open spec fn short_label_of(name: Seq<char>) -> Seq<char> {
    match bracket_from(name, 0) {
        Some(at) => if has_suffix(name, seq![')']) {
            trim_end(name.take(at))
        } else {
            name
        },
        None => name,
    }
}

/// A protocol's name without the bracketed note at its end.
pub fn short_label(name: &str) -> (label: String)
    ensures
        label@ == short_label_of(name@),
{
    let chars = chars_of(name);
    let n = chars.len();
    let mut i: usize = 0;
    while i < n && i + 1 < n && !(chars[i] == ' ' && chars[i + 1] == '(')
        invariant
            i <= n,
            n == chars@.len(),
            chars@ == name@,
            bracket_from(name@, 0) == bracket_from(name@, i as int),
        decreases n - i,
    {
        i += 1;
    }
    let closing: Vec<char> = vec![')'];
    assert(closing@ =~= seq![')']);
    if i < n && i + 1 < n && crate::text::ends_with(chars.as_slice(), closing.as_slice()) {
        let head = slice_chars(chars.as_slice(), 0, i);
        assert(head@ =~= name@.take(i as int));
        let kept = trim_end_chars(head.as_slice());
        string_of(kept.as_slice())
    } else {
        string_of(chars.as_slice())
    }
}

fn insert_sorted(v: &mut Vec<String>, x: &String)
    requires
        sorted_texts(texts(old(v)@)),
    ensures
        sorted_texts(texts(final(v)@)),
        forall|k: Seq<char>| texts(final(v)@).contains(k) <==> (texts(old(v)@).contains(k) || k == x@),
{
    let xs = chars_of(x.as_str());
    let mut p: usize = 0;
    while p < v.len() && before(chars_of(v[p].as_str()).as_slice(), xs.as_slice())
        invariant
            p <= v@.len(),
            xs@ == x@,
            forall|i: int| 0 <= i < p ==> text_before(#[trigger] v@[i]@, x@),
        decreases v@.len() - p,
    {
        p += 1;
    }
    let ghost old_texts = texts(v@);
    if p < v.len() && same_text(v[p].as_str(), x.as_str()) {
        assert(old_texts[p as int] == x@);
        return;
    }
    proof {
        if p < v@.len() {
            lemma_text_order_total(v@[p as int]@, x@);
            assert(text_before(x@, v@[p as int]@));
            assert forall|i: int| p <= i < v@.len() implies text_before(x@, #[trigger] v@[i]@) by {
                if i > p {
                    assert(text_before(old_texts[p as int], old_texts[i]));
                    lemma_text_order_transitive(x@, v@[p as int]@, v@[i]@);
                }
            }
        }
    }
    v.insert(p, x.clone());
    proof {
        let now = texts(v@);
        assert forall|i: int, j: int| 0 <= i < j < now.len() implies text_before(
            #[trigger] now[i],
            #[trigger] now[j],
        ) by {
            if i < p && j < p {
                assert(now[i] == old_texts[i] && now[j] == old_texts[j]);
            } else if i < p && j == p {
            } else if i < p && j > p {
                assert(now[j] == old_texts[j - 1]);
                assert(text_before(x@, old_texts[j - 1]));
                lemma_text_order_transitive(now[i], x@, now[j]);
            } else if i == p {
                assert(now[j] == old_texts[j - 1]);
            } else {
                assert(now[i] == old_texts[i - 1] && now[j] == old_texts[j - 1]);
            }
        }
        assert forall|k: Seq<char>| now.contains(k) <==> (old_texts.contains(k) || k == x@) by {
            if now.contains(k) {
                let j = choose|j: int| 0 <= j < now.len() && now[j] == k;
                if j < p {
                    assert(old_texts[j] == k);
                } else if j > p {
                    assert(old_texts[j - 1] == k);
                }
            }
            if old_texts.contains(k) {
                let j = choose|j: int| 0 <= j < old_texts.len() && old_texts[j] == k;
                if j < p {
                    assert(now[j] == k);
                } else {
                    assert(now[j + 1] == k);
                }
            }
            if k == x@ {
                assert(now[p as int] == k);
            }
        }
    }
}

fn remove_from(v: &mut Vec<String>, x: &String)
    requires
        sorted_texts(texts(old(v)@)),
    ensures
        sorted_texts(texts(final(v)@)),
        forall|k: Seq<char>| texts(final(v)@).contains(k) <==> (texts(old(v)@).contains(k) && k != x@),
{
    let ghost old_texts = texts(v@);
    let mut p: usize = 0;
    while p < v.len() && !same_text(v[p].as_str(), x.as_str())
        invariant
            p <= v@.len(),
            texts(v@) == old_texts,
            forall|i: int| 0 <= i < p ==> v@[i]@ != x@,
        decreases v@.len() - p,
    {
        p += 1;
    }
    if p == v.len() {
        proof {
            assert forall|k: Seq<char>| old_texts.contains(k) implies k != x@ by {
                let j = choose|j: int| 0 <= j < old_texts.len() && old_texts[j] == k;
                assert(v@[j]@ == k);
            }
        }
        return;
    }
    v.remove(p);
    proof {
        let now = texts(v@);
        assert forall|i: int, j: int| 0 <= i < j < now.len() implies text_before(
            #[trigger] now[i],
            #[trigger] now[j],
        ) by {
            let oi = if i < p { i } else { i + 1 };
            let oj = if j < p { j } else { j + 1 };
            assert(now[i] == old_texts[oi] && now[j] == old_texts[oj]);
        }
        assert forall|k: Seq<char>| now.contains(k) <==> (old_texts.contains(k) && k != x@) by {
            if now.contains(k) {
                let j = choose|j: int| 0 <= j < now.len() && now[j] == k;
                let oj = if j < p { j } else { j + 1 };
                assert(old_texts[oj] == k);
                if k == x@ {
                    lemma_text_order_total(old_texts[p as int], old_texts[oj]);
                    if oj < p {
                        assert(text_before(old_texts[oj], old_texts[p as int]));
                    } else {
                        assert(text_before(old_texts[p as int], old_texts[oj]));
                    }
                }
            }
            if old_texts.contains(k) && k != x@ {
                let j = choose|j: int| 0 <= j < old_texts.len() && old_texts[j] == k;
                assert(j != p);
                if j < p {
                    assert(now[j] == k);
                } else {
                    assert(now[j - 1] == k);
                }
            }
        }
    }
}

/// The kinds switched off after switching `kinds` on (`enabled`) or off.
pub open spec fn switched(off: Set<Seq<char>>, kinds: Set<Seq<char>>, enabled: bool) -> Set<Seq<char>> {
    if enabled {
        off.difference(kinds)
    } else {
        off.union(kinds)
    }
}

/// The protocols switched off after switching `kinds` on (`enabled`) or off:
/// in the order of `String`, each once.
pub fn set_enabled(disabled: &[String], kinds: &[String], enabled: bool) -> (off: Vec<String>)
    ensures
        sorted_texts(texts(off@)),
        texts(off@).to_set() == switched(texts(disabled@).to_set(), texts(kinds@).to_set(), enabled),
{
    let mut off: Vec<String> = Vec::new();
    let mut i: usize = 0;
    while i < disabled.len()
        invariant
            i <= disabled@.len(),
            sorted_texts(texts(off@)),
            forall|k: Seq<char>| texts(off@).contains(k) <==> texts(disabled@.take(i as int)).contains(k),
        decreases disabled@.len() - i,
    {
        let ghost before = texts(off@);
        insert_sorted(&mut off, &disabled[i]);
        proof {
            let next = texts(disabled@.take(i + 1));
            let prev = texts(disabled@.take(i as int));
            assert forall|k: Seq<char>| texts(off@).contains(k) <==> next.contains(k) by {
                assert(texts(off@).contains(k) <==> (before.contains(k) || k == disabled@[i as int]@));
                assert(before.contains(k) <==> prev.contains(k));
                if next.contains(k) {
                    let j = choose|j: int| 0 <= j < next.len() && next[j] == k;
                    if j < i {
                        assert(prev[j] == k);
                    }
                }
                if prev.contains(k) {
                    let j = choose|j: int| 0 <= j < prev.len() && prev[j] == k;
                    assert(next[j] == k);
                }
                if k == disabled@[i as int]@ {
                    assert(next[i as int] == k);
                }
            }
        }
        i += 1;
    }
    assert(disabled@.take(i as int) =~= disabled@);
    let mut j: usize = 0;
    while j < kinds.len()
        invariant
            j <= kinds@.len(),
            sorted_texts(texts(off@)),
            forall|k: Seq<char>|
                texts(off@).contains(k) <==> if enabled {
                    texts(disabled@).contains(k) && !texts(kinds@.take(j as int)).contains(k)
                } else {
                    texts(disabled@).contains(k) || texts(kinds@.take(j as int)).contains(k)
                },
        decreases kinds@.len() - j,
    {
        if enabled {
            remove_from(&mut off, &kinds[j]);
        } else {
            insert_sorted(&mut off, &kinds[j]);
        }
        proof {
            assert forall|k: Seq<char>| texts(kinds@.take(j + 1)).contains(k) <==> (texts(
                kinds@.take(j as int),
            ).contains(k) || k == kinds@[j as int]@) by {
                let next = texts(kinds@.take(j + 1));
                let prev = texts(kinds@.take(j as int));
                if next.contains(k) {
                    let m = choose|m: int| 0 <= m < next.len() && next[m] == k;
                    if m < j {
                        assert(prev[m] == k);
                    }
                }
                if prev.contains(k) {
                    let m = choose|m: int| 0 <= m < prev.len() && prev[m] == k;
                    assert(next[m] == k);
                }
                if k == kinds@[j as int]@ {
                    assert(next[j as int] == k);
                }
            }
        }
        j += 1;
    }
    assert(kinds@.take(j as int) =~= kinds@);
    assert(texts(off@).to_set() =~= switched(texts(disabled@).to_set(), texts(kinds@).to_set(), enabled));
    off
}

/// Switching kinds off and then on again leaves off only what was off and
/// is not among them; on and then off again switches off what was off and
/// them; switching the same way twice is switching once.
pub proof fn law_switch_back(off: Set<Seq<char>>, kinds: Set<Seq<char>>, enabled: bool)
    ensures
        switched(switched(off, kinds, false), kinds, true) == off.difference(kinds),
        switched(switched(off, kinds, true), kinds, false) == off.union(kinds),
        switched(switched(off, kinds, enabled), kinds, enabled) == switched(off, kinds, enabled),
{
    assert(switched(switched(off, kinds, false), kinds, true) =~= off.difference(kinds));
    assert(switched(switched(off, kinds, true), kinds, false) =~= off.union(kinds));
    assert(switched(switched(off, kinds, enabled), kinds, enabled) =~= switched(off, kinds, enabled));
}

/// A list in the order of `String`, each kind once, is fixed by the kinds it
/// holds: so the switched-off list is fixed by the switched-off set.
pub proof fn law_sorted_list_is_its_set(a: Seq<Seq<char>>, b: Seq<Seq<char>>)
    requires
        sorted_texts(a),
        sorted_texts(b),
        a.to_set() == b.to_set(),
    ensures
        a == b,
{
    let before = |x: Seq<char>, y: Seq<char>| text_before(x, y);
    assert forall|m: int, n: int| 0 <= m < n < a.len() implies before(#[trigger] a[m], #[trigger] a[n]) by {}
    assert forall|m: int, n: int| 0 <= m < n < b.len() implies before(#[trigger] b[m], #[trigger] b[n]) by {}
    assert forall|x: Seq<char>, y: Seq<char>| a.contains(x) && a.contains(y) && x != y implies before(x, y) || before(y, x) by {
        lemma_text_order_total(x, y);
    }
    assert forall|x: Seq<char>, y: Seq<char>| a.contains(x) && a.contains(y) implies !(before(x, y) && before(y, x)) by {
        lemma_text_order_total(x, y);
    }
    assert forall|x: Seq<char>| a.contains(x) <==> b.contains(x) by {
        assert(a.contains(x) <==> a.to_set().contains(x));
        assert(b.contains(x) <==> b.to_set().contains(x));
    }
    lemma_sorted_unique(a, b, before);
}


/// A decoder protocol the monitor can identify.
#[derive(Clone, Debug, PartialEq)]
pub struct Protocol {
    pub kind: String,
    pub label: String,
    pub name: String,
}

/// What the monitor reads of a channel type the server offers: its id, its
/// name, the family it belongs to, and whether the monitor can identify it.
#[derive(Clone, Debug, PartialEq)]
pub struct Descriptor {
    pub type_id: String,
    pub name: String,
    pub family: &'static str,
    pub identifiable: bool,
}

/// A decoder family, by the name it is stored under, with its title.
#[derive(Clone, Copy, Debug, PartialEq)]
pub struct Family {
    pub name: &'static str,
    pub title: &'static str,
}

/// The identifiable protocols of one family.
#[derive(Clone, Debug, PartialEq)]
pub struct ProtocolGroup {
    pub family: &'static str,
    pub title: &'static str,
    pub protocols: Vec<Protocol>,
}

/// Which protocols are switched off, and whether unidentified signals are kept.
#[derive(Clone, Debug, Default, PartialEq)]
pub struct ProtocolChoice {
    pub disabled: Vec<String>,
    pub unidentified: bool,
}

/// A named choice the user can pick at once.
#[derive(Clone, Debug, PartialEq)]
pub struct ProtocolPreset {
    pub id: String,
    pub label: &'static str,
    pub choice: ProtocolChoice,
}

/// The kinds of some protocols.
pub open spec fn protocol_kinds(ps: Seq<Protocol>) -> Seq<Seq<char>> {
    Seq::new(ps.len(), |i: int| ps[i].kind@)
}

proof fn lemma_kinds_step(ps: Seq<Protocol>, j: int)
    requires
        0 <= j < ps.len(),
    ensures
        protocol_kinds(ps.take(j + 1)) == protocol_kinds(ps.take(j)).push(ps[j].kind@),
{
    assert(protocol_kinds(ps.take(j + 1)) =~= protocol_kinds(ps.take(j)).push(ps[j].kind@));
}

proof fn lemma_presets_push(ps: Seq<ProtocolPreset>, p: ProtocolPreset)
    ensures
        preset_views(ps.push(p)) == preset_views(ps).push(preset_view(p)),
{
    assert(preset_views(ps.push(p)) =~= preset_views(ps).push(preset_view(p)));
}

/// Some protocols as kinds, labels and names.
pub open spec fn protocol_views(ps: Seq<Protocol>) -> Seq<(Seq<char>, Seq<char>, Seq<char>)> {
    Seq::new(ps.len(), |i: int| protocol_view(ps[i]))
}

/// Some groups as families, titles and protocols.
pub open spec fn group_views(gs: Seq<ProtocolGroup>) -> Seq<(Seq<char>, Seq<char>, Seq<(Seq<char>, Seq<char>, Seq<char>)>)> {
    Seq::new(gs.len(), |i: int| group_view(gs[i]))
}

/// Some presets as ids, labels, switched-off kinds and whether they keep
/// unidentified signals.
pub open spec fn preset_views(ps: Seq<ProtocolPreset>) -> Seq<(Seq<char>, Seq<char>, Seq<Seq<char>>, bool)> {
    Seq::new(ps.len(), |i: int| preset_view(ps[i]))
}

/// A protocol as its kind, label and name.
pub open spec fn protocol_view(p: Protocol) -> (Seq<char>, Seq<char>, Seq<char>) {
    (p.kind@, p.label@, p.name@)
}

/// The protocols of `types` in `family` that can be identified, in order.
pub open spec fn protocols_for(types: Seq<Descriptor>, family: Seq<char>) -> Seq<
    (Seq<char>, Seq<char>, Seq<char>),
>
    decreases types.len(),
{
    if types.len() == 0 {
        Seq::empty()
    } else {
        let rest = protocols_for(types.drop_last(), family);
        let d = types.last();
        if d.identifiable && d.family@ == family {
            rest.push((d.type_id@, short_label_of(d.name@), d.name@))
        } else {
            rest
        }
    }
}

/// A group as its family, title and protocols.
pub open spec fn group_view(g: ProtocolGroup) -> (Seq<char>, Seq<char>, Seq<(Seq<char>, Seq<char>, Seq<char>)>) {
    (g.family@, g.title@, protocol_views(g.protocols@))
}

/// The families, in order, that have identifiable protocols among `types`,
/// each with those protocols.
pub open spec fn groups_for(types: Seq<Descriptor>, families: Seq<Family>) -> Seq<
    (Seq<char>, Seq<char>, Seq<(Seq<char>, Seq<char>, Seq<char>)>),
>
    decreases families.len(),
{
    if families.len() == 0 {
        Seq::empty()
    } else {
        let rest = groups_for(types, families.drop_last());
        let f = families.last();
        let found = protocols_for(types, f.name@);
        if found.len() > 0 {
            rest.push((f.name@, f.title@, found))
        } else {
            rest
        }
    }
}

fn protocols_of(types: &[Descriptor], family: &str) -> (out: Vec<Protocol>)
    ensures
        protocol_views(out@) == protocols_for(types@, family@),
{
    let mut out: Vec<Protocol> = Vec::new();
    let mut i: usize = 0;
    while i < types.len()
        invariant
            i <= types@.len(),
            protocol_views(out@) == protocols_for(
                types@.take(i as int),
                family@,
            ),
        decreases types@.len() - i,
    {
        let d = &types[i];
        proof {
            assert(types@.take(i + 1).drop_last() =~= types@.take(i as int));
        }
        if d.identifiable && same_text(d.family, family) {
            let p = Protocol {
                kind: string_of(chars_of(d.type_id.as_str()).as_slice()),
                label: short_label(d.name.as_str()),
                name: string_of(chars_of(d.name.as_str()).as_slice()),
            };
            out.push(p);
        }
        i += 1;
        assert(protocol_views(out@) =~= protocols_for(
            types@.take(i as int),
            family@,
        ));
    }
    assert(types@.take(i as int) =~= types@);
    out
}

/// The identifiable protocols of `types`, grouped by family in the order of
/// `families`; families with none are left out.
pub fn protocol_groups(types: &[Descriptor], families: &[Family]) -> (groups: Vec<ProtocolGroup>)
    ensures
        group_views(groups@) == groups_for(types@, families@),
{
    let mut out: Vec<ProtocolGroup> = Vec::new();
    let mut i: usize = 0;
    while i < families.len()
        invariant
            i <= families@.len(),
            group_views(out@) == groups_for(
                types@,
                families@.take(i as int),
            ),
        decreases families@.len() - i,
    {
        let f = families[i];
        proof {
            assert(families@.take(i + 1).drop_last() =~= families@.take(i as int));
        }
        let found = protocols_of(types, f.name);
        if found.len() > 0 {
            out.push(ProtocolGroup { family: f.name, title: f.title, protocols: found });
        }
        i += 1;
        assert(group_views(out@) =~= groups_for(
            types@,
            families@.take(i as int),
        ));
    }
    assert(families@.take(i as int) =~= families@);
    out
}

/// The kinds of the protocols of some groups, in order.
pub open spec fn kinds_in(groups: Seq<ProtocolGroup>) -> Seq<Seq<char>>
    decreases groups.len(),
{
    if groups.len() == 0 {
        Seq::empty()
    } else {
        kinds_in(groups.drop_last()) + protocol_kinds(groups.last().protocols@)
    }
}

/// The kinds of the protocols of some groups, in order.
pub fn kinds_of(groups: &[ProtocolGroup]) -> (kinds: Vec<String>)
    ensures
        texts(kinds@) == kinds_in(groups@),
{
    let mut out: Vec<String> = Vec::new();
    let mut i: usize = 0;
    while i < groups.len()
        invariant
            i <= groups@.len(),
            texts(out@) == kinds_in(groups@.take(i as int)),
        decreases groups@.len() - i,
    {
        let g = &groups[i];
        proof {
            assert(groups@.take(i + 1).drop_last() =~= groups@.take(i as int));
        }
        let ghost head = texts(out@);
        let mut j: usize = 0;
        while j < g.protocols.len()
            invariant
                j <= g.protocols@.len(),
                texts(out@) == head + protocol_kinds(g.protocols@.take(j as int)),
            decreases g.protocols@.len() - j,
        {
            let k = g.protocols[j].kind.clone();
            let ghost before = out@;
            out.push(k);
            proof {
                lemma_texts_push(before, k);
                lemma_kinds_step(g.protocols@, j as int);
                assert(head + protocol_kinds(g.protocols@.take(j + 1)) =~= (head + protocol_kinds(
                    g.protocols@.take(j as int),
                )).push(k@));
            }
            j += 1;
        }
        assert(g.protocols@.take(j as int) =~= g.protocols@);
        i += 1;
        assert(texts(out@) =~= kinds_in(groups@.take(i as int)));
    }
    assert(groups@.take(i as int) =~= groups@);
    out
}

fn group_kinds(g: &ProtocolGroup) -> (kinds: Vec<String>)
    ensures
        texts(kinds@) == kinds_in(seq![*g]),
{
    let mut out: Vec<String> = Vec::new();
    let mut j: usize = 0;
    while j < g.protocols.len()
        invariant
            j <= g.protocols@.len(),
            out@.len() == j,
            texts(out@) == protocol_kinds(g.protocols@.take(j as int)),
        decreases g.protocols@.len() - j,
    {
        let k = g.protocols[j].kind.clone();
        let ghost before = out@;
        out.push(k);
        proof {
            lemma_texts_push(before, k);
            lemma_kinds_step(g.protocols@, j as int);
        }
        j += 1;
    }
    assert(g.protocols@.take(j as int) =~= g.protocols@);
    proof {
        let one = seq![*g];
        assert(one.drop_last() =~= Seq::<ProtocolGroup>::empty());
        assert(kinds_in(Seq::<ProtocolGroup>::empty()) == Seq::<Seq<char>>::empty());
        assert(one.last() == *g);
        assert(Seq::<Seq<char>>::empty() + protocol_kinds(g.protocols@) =~= protocol_kinds(g.protocols@));
    }
    out
}

/// The kinds of `all` that `off` does not hold, in order.
pub open spec fn kept_kinds(all: Seq<Seq<char>>, off: Seq<Seq<char>>) -> Seq<Seq<char>>
    decreases all.len(),
{
    if all.len() == 0 {
        Seq::empty()
    } else {
        let rest = kept_kinds(all.drop_last(), off);
        if off.contains(all.last()) {
            rest
        } else {
            rest.push(all.last())
        }
    }
}

fn kept_of(all: Vec<String>, off: &[String]) -> (kept: Vec<String>)
    ensures
        texts(kept@) == kept_kinds(texts(all@), texts(off@)),
{
    let mut out: Vec<String> = Vec::new();
    let mut i: usize = 0;
    while i < all.len()
        invariant
            i <= all@.len(),
            texts(out@) == kept_kinds(texts(all@.take(i as int)), texts(off@)),
        decreases all@.len() - i,
    {
        proof {
            assert(texts(all@.take(i + 1)).drop_last() =~= texts(all@.take(i as int)));
        }
        if !holds(off, all[i].as_str()) {
            out.push(all[i].clone());
        }
        i += 1;
        assert(texts(out@) =~= kept_kinds(texts(all@.take(i as int)), texts(off@)));
    }
    assert(all@.take(i as int) =~= all@);
    out
}

/// The kinds of the groups that are switched on, in order.
pub fn enabled_kinds(groups: &[ProtocolGroup], disabled: &[String]) -> (on: Vec<String>)
    ensures
        texts(on@) == kept_kinds(kinds_in(groups@), texts(disabled@)),
{
    kept_of(kinds_of(groups), disabled)
}

proof fn lemma_kinds_in_concat(a: Seq<ProtocolGroup>, b: Seq<ProtocolGroup>)
    ensures
        kinds_in(a + b) == kinds_in(a) + kinds_in(b),
    decreases b.len(),
{
    if b.len() == 0 {
        assert(a + b =~= a);
        assert(kinds_in(a) + kinds_in(b) =~= kinds_in(a));
    } else {
        lemma_kinds_in_concat(a, b.drop_last());
        assert((a + b).drop_last() =~= a + b.drop_last());
        assert((a + b).last() == b.last());
        assert(kinds_in(a) + kinds_in(b) =~= kinds_in(a) + kinds_in(b.drop_last()) + protocol_kinds(
            b.last().protocols@,
        ));
    }
}

proof fn lemma_kept_concat(x: Seq<Seq<char>>, y: Seq<Seq<char>>, off: Seq<Seq<char>>)
    ensures
        kept_kinds(x + y, off) == kept_kinds(x, off) + kept_kinds(y, off),
    decreases y.len(),
{
    if y.len() == 0 {
        assert(x + y =~= x);
        assert(kept_kinds(x, off) + kept_kinds(y, off) =~= kept_kinds(x, off));
    } else {
        lemma_kept_concat(x, y.drop_last(), off);
        assert((x + y).drop_last() =~= x + y.drop_last());
        assert((x + y).last() == y.last());
        if off.contains(y.last()) {
        } else {
            assert(kept_kinds(x, off) + kept_kinds(y, off) =~= (kept_kinds(x, off) + kept_kinds(
                y.drop_last(),
                off,
            )).push(y.last()));
        }
    }
}

proof fn lemma_kept_none_off(x: Seq<Seq<char>>, off: Seq<Seq<char>>)
    requires
        forall|k: int| 0 <= k < x.len() ==> !off.contains(#[trigger] x[k]),
    ensures
        kept_kinds(x, off) == x,
    decreases x.len(),
{
    if x.len() > 0 {
        lemma_kept_none_off(x.drop_last(), off);
        assert(!off.contains(x[x.len() - 1]));
        assert(x.drop_last().push(x.last()) =~= x);
    }
}

proof fn lemma_kept_all_off(x: Seq<Seq<char>>, off: Seq<Seq<char>>)
    requires
        forall|k: int| 0 <= k < x.len() ==> off.contains(#[trigger] x[k]),
    ensures
        kept_kinds(x, off) == Seq::<Seq<char>>::empty(),
    decreases x.len(),
{
    if x.len() > 0 {
        lemma_kept_all_off(x.drop_last(), off);
        assert(off.contains(x[x.len() - 1]));
    }
}

/// With nothing switched off, every protocol is switched on, in order.
pub proof fn law_everything_starts_enabled(groups: Seq<ProtocolGroup>)
    ensures
        kept_kinds(kinds_in(groups), Seq::empty()) == kinds_in(groups),
{
    lemma_kept_none_off(kinds_in(groups), Seq::empty());
}

/// Where no kind is listed twice, the preset of each family switches on
/// exactly that family's protocols, in order, and drops unidentified
/// signals; the first preset keeps them and switches nothing off.
pub proof fn law_preset_keeps_its_family(groups: Seq<ProtocolGroup>, i: int)
    requires
        0 <= i < groups.len(),
        kinds_in(groups).no_duplicates(),
    ensures
        presets_for(groups)[0].2 == Seq::<Seq<char>>::empty(),
        presets_for(groups)[0].3,
        kept_kinds(kinds_in(groups), presets_for(groups)[i + 1].2) == protocol_kinds(groups[i].protocols@),
        !presets_for(groups)[i + 1].3,
        presets_for(groups)[i + 1].0 == groups[i].family@,
        presets_for(groups)[i + 1].1 == groups[i].title@,
{
    let all = kinds_in(groups);
    let one = seq![groups[i]];
    let head = groups.take(i);
    let tail = groups.skip(i + 1);
    assert(groups =~= head + one + tail);
    lemma_kinds_in_concat(head + one, tail);
    lemma_kinds_in_concat(head, one);
    assert(one.drop_last() =~= Seq::<ProtocolGroup>::empty());
    assert(kinds_in(Seq::<ProtocolGroup>::empty()) == Seq::<Seq<char>>::empty());
    assert(one.last() == groups[i]);
    assert(kinds_in(one) =~= protocol_kinds(groups[i].protocols@));
    let p = kinds_in(head);
    let o = kinds_in(one);
    let q = kinds_in(tail);
    assert(all == p + o + q);
    assert forall|k: int| 0 <= k < p.len() implies !o.contains(#[trigger] p[k]) by {
        if o.contains(p[k]) {
            let m = choose|m: int| 0 <= m < o.len() && o[m] == p[k];
            assert(all[k] == all[p.len() + m]);
        }
    }
    assert forall|k: int| 0 <= k < q.len() implies !o.contains(#[trigger] q[k]) by {
        if o.contains(q[k]) {
            let m = choose|m: int| 0 <= m < o.len() && o[m] == q[k];
            assert(all[p.len() + o.len() + k] == all[p.len() + m]);
        }
    }
    lemma_kept_concat(p + o, q, o);
    lemma_kept_concat(p, o, o);
    lemma_kept_none_off(p, o);
    lemma_kept_none_off(q, o);
    assert forall|k: int| 0 <= k < o.len() implies o.contains(#[trigger] o[k]) by {}
    lemma_kept_all_off(o, o);
    let off = kept_kinds(all, o);
    assert(off =~= p + q);
    assert forall|k: int| 0 <= k < p.len() implies (p + q).contains(#[trigger] p[k]) by {
        assert((p + q)[k] == p[k]);
    }
    assert forall|k: int| 0 <= k < q.len() implies (p + q).contains(#[trigger] q[k]) by {
        assert((p + q)[p.len() + k] == q[k]);
    }
    assert forall|k: int| 0 <= k < o.len() implies !(p + q).contains(#[trigger] o[k]) by {
        if (p + q).contains(o[k]) {
            let m = choose|m: int| 0 <= m < (p + q).len() && (p + q)[m] == o[k];
            if m < p.len() {
                assert(all[m] == all[p.len() + k]);
            } else {
                assert(all[o.len() + m] == all[p.len() + k]);
            }
        }
    }
    lemma_kept_concat(p + o, q, p + q);
    lemma_kept_concat(p, o, p + q);
    lemma_kept_all_off(p, p + q);
    lemma_kept_all_off(q, p + q);
    lemma_kept_none_off(o, p + q);
    assert(kept_kinds(all, off) =~= o);
    assert(presets_for(groups)[i + 1] == (groups[i].family@, groups[i].title@, off, false));
}

/// A preset as its id, label, switched-off kinds, and whether it keeps
/// unidentified signals.
pub open spec fn preset_view(p: ProtocolPreset) -> (Seq<char>, Seq<char>, Seq<Seq<char>>, bool) {
    (p.id@, p.label@, texts(p.choice.disabled@), p.choice.unidentified)
}

/// The presets of some groups: everything, then each family on its own.
pub open spec fn presets_for(groups: Seq<ProtocolGroup>) -> Seq<(Seq<char>, Seq<char>, Seq<Seq<char>>, bool)> {
    let all = kinds_in(groups);
    seq![("all"@, "All"@, Seq::<Seq<char>>::empty(), true)] + Seq::new(
        groups.len(),
        |i: int| (groups[i].family@, groups[i].title@, kept_kinds(all, kinds_in(seq![groups[i]])), false),
    )
}

/// The presets of the groups: `all`, which keeps every protocol and
/// unidentified signals, then one per family that keeps only that family.
pub fn protocol_presets(groups: &[ProtocolGroup]) -> (presets: Vec<ProtocolPreset>)
    ensures
        preset_views(presets@) == presets_for(groups@),
{
    let all = kinds_of(groups);
    let mut out: Vec<ProtocolPreset> = Vec::new();
    out.push(
        ProtocolPreset {
            id: string_of(chars_of("all").as_slice()),
            label: "All",
            choice: ProtocolChoice { disabled: Vec::new(), unidentified: true },
        },
    );
    let ghost want = presets_for(groups@);
    assert(texts(Seq::<String>::empty()) =~= Seq::<Seq<char>>::empty());
    let mut i: usize = 0;
    while i < groups.len()
        invariant
            i <= groups@.len(),
            texts(all@) == kinds_in(groups@),
            want == presets_for(groups@),
            preset_views(out@) == want.take(i + 1),
        decreases groups@.len() - i,
    {
        let g = &groups[i];
        let own = group_kinds(g);
        let mut off: Vec<String> = Vec::new();
        let mut j: usize = 0;
        while j < all.len()
            invariant
                j <= all@.len(),
                texts(off@) == kept_kinds(texts(all@.take(j as int)), texts(own@)),
            decreases all@.len() - j,
        {
            proof {
                assert(texts(all@.take(j + 1)).drop_last() =~= texts(all@.take(j as int)));
            }
            if !holds(own.as_slice(), all[j].as_str()) {
                off.push(all[j].clone());
            }
            j += 1;
            assert(texts(off@) =~= kept_kinds(texts(all@.take(j as int)), texts(own@)));
        }
        assert(all@.take(j as int) =~= all@);
        let preset = ProtocolPreset {
            id: string_of(chars_of(g.family).as_slice()),
            label: g.title,
            choice: ProtocolChoice { disabled: off, unidentified: false },
        };
        let ghost before = out@;
        out.push(preset);
        proof {
            lemma_presets_push(before, preset);
            assert(*g == groups@[i as int]);
            assert(want[i + 1] == (
                groups@[i as int].family@,
                groups@[i as int].title@,
                kept_kinds(kinds_in(groups@), kinds_in(seq![groups@[i as int]])),
                false,
            ));
            assert(preset_view(preset) == want[i + 1]);
            assert(want.take(i + 2) =~= want.take(i + 1).push(want[i + 1]));
        }
        i += 1;
    }
    assert(want.take(i + 1) =~= want);
    out
}

/// Whether two sequences of strings hold the same texts in the same order.
fn same_texts(a: &[String], b: &[String]) -> (r: bool)
    ensures
        r == (texts(a@) == texts(b@)),
{
    if a.len() != b.len() {
        assert(texts(a@).len() != texts(b@).len());
        return false;
    }
    let mut i: usize = 0;
    while i < a.len()
        invariant
            i <= a@.len(),
            a@.len() == b@.len(),
            forall|j: int| 0 <= j < i ==> a@[j]@ == b@[j]@,
        decreases a@.len() - i,
    {
        if !same_text(a[i].as_str(), b[i].as_str()) {
            assert(texts(a@)[i as int] != texts(b@)[i as int]);
            return false;
        }
        i += 1;
    }
    assert(texts(a@) =~= texts(b@));
    true
}

/// A choice as the kinds it switches off and whether it keeps unidentified
/// signals.
pub open spec fn choice_view(c: ProtocolChoice) -> (Seq<Seq<char>>, bool) {
    (texts(c.disabled@), c.unidentified)
}

/// Whether two choices keep unidentified signals alike and switch on the same
/// kinds of `all`, in the same order.
pub open spec fn same_choice_of(
    all: Seq<Seq<char>>,
    a: (Seq<Seq<char>>, bool),
    b: (Seq<Seq<char>>, bool),
) -> bool {
    a.1 == b.1 && kept_kinds(all, a.0) == kept_kinds(all, b.0)
}

/// Whether two choices come to the same thing for `groups`.
pub fn same_choice(groups: &[ProtocolGroup], a: &ProtocolChoice, b: &ProtocolChoice) -> (r: bool)
    ensures
        r == same_choice_of(kinds_in(groups@), choice_view(*a), choice_view(*b)),
{
    if a.unidentified != b.unidentified {
        return false;
    }
    let on_a = enabled_kinds(groups, a.disabled.as_slice());
    let on_b = enabled_kinds(groups, b.disabled.as_slice());
    same_texts(on_a.as_slice(), on_b.as_slice())
}

/// The first preset at or after `from` that comes to the same thing as the
/// choice `c`.
pub open spec fn first_matching(
    presets: Seq<(Seq<char>, Seq<char>, Seq<Seq<char>>, bool)>,
    all: Seq<Seq<char>>,
    c: (Seq<Seq<char>>, bool),
    from: int,
) -> Option<int>
    decreases presets.len() - from,
{
    if from < 0 || from >= presets.len() {
        None
    } else if same_choice_of(all, (presets[from].2, presets[from].3), c) {
        Some(from)
    } else {
        first_matching(presets, all, c, from + 1)
    }
}

/// The preset of `groups` that the choice amounts to, the first such if more
/// than one does.
pub open spec fn active_of(groups: Seq<ProtocolGroup>, c: ProtocolChoice) -> Option<int> {
    first_matching(presets_for(groups), kinds_in(groups), choice_view(c), 0)
}

/// The preset that `choice` amounts to, if one does.
pub fn active_preset(groups: &[ProtocolGroup], choice: &ProtocolChoice) -> (found: Option<ProtocolPreset>)
    ensures
        match active_of(groups@, *choice) {
            Some(k) => found is Some && preset_view(found->0) == presets_for(groups@)[k],
            None => found is None,
        },
{
    let mut presets = protocol_presets(groups);
    let ghost views = presets_for(groups@);
    let ghost all = kinds_in(groups@);
    let mut i: usize = 0;
    while i < presets.len()
        invariant
            i <= presets@.len(),
            preset_views(presets@) == views,
            views == presets_for(groups@),
            all == kinds_in(groups@),
            first_matching(views, all, choice_view(*choice), 0) == first_matching(
                views,
                all,
                choice_view(*choice),
                i as int,
            ),
        decreases presets@.len() - i,
    {
        assert(preset_view(presets@[i as int]) == views[i as int]);
        if same_choice(groups, &presets[i].choice, choice) {
            let found = presets.remove(i);
            return Some(found);
        }
        i += 1;
    }
    None
}

/// What the summary line says of a choice.
pub open spec fn summary_of(groups: Seq<ProtocolGroup>, c: ProtocolChoice) -> Seq<char> {
    let presets = presets_for(groups);
    let all = kinds_in(groups);
    match active_of(groups, c) {
        Some(k) => if presets[k].0 == "all"@ {
            "All protocols"@
        } else {
            presets[k].1
        },
        None => {
            let on = kept_kinds(all, texts(c.disabled@)).len();
            if on == 0 {
                if c.unidentified {
                    "Unidentified only"@
                } else {
                    "Nothing"@
                }
            } else {
                decimal(on) + " of "@ + decimal(all.len())
            }
        },
    }
}

/// A short line naming the choice: its preset, or how many protocols it keeps.
pub fn choice_summary(groups: &[ProtocolGroup], choice: &ProtocolChoice) -> (line: String)
    ensures
        line@ == summary_of(groups@, *choice),
{
    match active_preset(groups, choice) {
        Some(preset) => {
            if same_text(preset.id.as_str(), "all") {
                return string_of(chars_of("All protocols").as_slice());
            }
            return string_of(chars_of(preset.label).as_slice());
        },
        None => {},
    }
    let on = enabled_kinds(groups, choice.disabled.as_slice()).len();
    if on == 0 {
        if choice.unidentified {
            return string_of(chars_of("Unidentified only").as_slice());
        }
        return string_of(chars_of("Nothing").as_slice());
    }
    let total = kinds_of(groups).len();
    let mut out: Vec<char> = Vec::new();
    push_decimal(&mut out, on as u64);
    push_str(&mut out, " of ");
    push_decimal(&mut out, total as u64);
    string_of(out.as_slice())
}


/// Which kinds are switched on depends only on which kinds are switched
/// off, not on the order or repeats of the list that holds them.
pub proof fn law_enabled_follows_the_set(all: Seq<Seq<char>>, a: Seq<Seq<char>>, b: Seq<Seq<char>>)
    requires
        a.to_set() == b.to_set(),
    ensures
        kept_kinds(all, a) == kept_kinds(all, b),
    decreases all.len(),
{
    if all.len() > 0 {
        law_enabled_follows_the_set(all.drop_last(), a, b);
        assert(a.contains(all.last()) <==> a.to_set().contains(all.last()));
        assert(b.contains(all.last()) <==> b.to_set().contains(all.last()));
    }
}

proof fn lemma_first_matching_by(
    presets: Seq<(Seq<char>, Seq<char>, Seq<Seq<char>>, bool)>,
    all: Seq<Seq<char>>,
    c: (Seq<Seq<char>>, bool),
    from: int,
    k: int,
)
    requires
        0 <= from <= k < presets.len(),
        same_choice_of(all, (presets[k].2, presets[k].3), c),
    ensures
        first_matching(presets, all, c, from) matches Some(m) && from <= m <= k,
    decreases k - from,
{
    if !same_choice_of(all, (presets[from].2, presets[from].3), c) {
        lemma_first_matching_by(presets, all, c, from + 1, k);
    }
}

/// A choice that comes to the same thing as a preset makes a preset active:
/// that one, or an earlier one that comes to the same thing.
pub proof fn law_a_presets_choice_is_active(groups: Seq<ProtocolGroup>, k: int, c: ProtocolChoice)
    requires
        0 <= k < presets_for(groups).len(),
        same_choice_of(kinds_in(groups), (presets_for(groups)[k].2, presets_for(groups)[k].3), choice_view(c)),
    ensures
        active_of(groups, c) matches Some(m) && 0 <= m <= k,
{
    lemma_first_matching_by(presets_for(groups), kinds_in(groups), choice_view(c), 0, k);
}

} // verus!
