//! The map's targets: which decoders put targets on the map, how each kind is
//! styled, when a target has gone stale, and the keys and rows it is picked
//! and described by.
use vstd::prelude::*;
use crate::text::{chars_of, decimal, push_decimal, push_str, same_text, string_of, to_upper, trim, trim_chars, upper_of};

verus! {

/// How long a target stays on the map after it was last heard.
pub const TARGET_MAX_AGE_MS: i64 = 300000;

/// The decoders whose targets carry a position, in the order the map lists them.
pub const MAP_KINDS: [&'static str; 3] = ["adsb", "ais", "aprs"];

/// The glyph a target is drawn with.
#[derive(Clone, Copy, Debug, PartialEq, Eq, Structural)]
pub enum Glyph {
    Plane,
    Ship,
    Arrow,
    Station,
}

/// The layer name and colour of a target kind.
pub open spec fn style_of(kind: Seq<char>) -> (Seq<char>, u32) {
    if kind == "adsb"@ {
        ("Aircraft"@, 0x21b0b0)
    } else if kind == "ais"@ {
        ("Ships"@, 0xe0a458)
    } else {
        ("APRS"@, 0xb07de0)
    }
}

/// The layer name and colour a target kind is drawn with: aircraft for ADS-B,
/// ships for AIS, and APRS for the rest.
pub fn style(kind: &str) -> (styled: (&'static str, u32))
    ensures
        (styled.0@, styled.1) == style_of(kind@),
{
    if same_text(kind, "adsb") {
        ("Aircraft", 0x21b0b0)
    } else if same_text(kind, "ais") {
        ("Ships", 0xe0a458)
    } else {
        ("APRS", 0xb07de0)
    }
}

/// The glyph of a target kind.
pub open spec fn glyph_of(kind: Seq<char>) -> Glyph {
    if kind == "adsb"@ {
        Glyph::Plane
    } else if kind == "ais"@ {
        Glyph::Ship
    } else {
        Glyph::Arrow
    }
}

/// The glyph a target kind is drawn with: a plane, a ship, or an arrow.
pub fn glyph(kind: &str) -> (g: Glyph)
    ensures
        g == glyph_of(kind@),
{
    if same_text(kind, "adsb") {
        Glyph::Plane
    } else if same_text(kind, "ais") {
        Glyph::Ship
    } else {
        Glyph::Arrow
    }
}

/// Whether a kind is among the wired decoder kinds.
pub open spec fn wired(kinds: Seq<String>, kind: Seq<char>) -> bool {
    exists|i: int| 0 <= i < kinds.len() && kinds[i]@ == kind
}

/// The candidates that are among the wired decoder kinds, in order.
pub open spec fn wired_among(candidates: Seq<Seq<char>>, kinds: Seq<String>) -> Seq<Seq<char>>
    decreases candidates.len(),
{
    if candidates.len() == 0 {
        Seq::empty()
    } else {
        let rest = wired_among(candidates.drop_last(), kinds);
        if wired(kinds, candidates.last()) {
            rest.push(candidates.last())
        } else {
            rest
        }
    }
}

/// The map kinds among the wired decoders, in map order, once each.
pub open spec fn map_kinds_in(kinds: Seq<String>) -> Seq<Seq<char>> {
    wired_among(Seq::new(3, |i: int| MAP_KINDS@[i]@), kinds)
}

/// A kind alone in a list where it is wired, else nothing.
pub open spec fn if_wired(kinds: Seq<String>, kind: Seq<char>) -> Seq<Seq<char>> {
    if wired(kinds, kind) {
        seq![kind]
    } else {
        Seq::empty()
    }
}

/// The map lists exactly the map kinds that are wired, in the order of
/// `MAP_KINDS`: ADS-B if its decoder is wired, then AIS if wired, then APRS
/// if wired. So each of them gets a layer exactly when its decoder is wired.
pub proof fn law_map_kinds_are_the_wired_ones(kinds: Seq<String>)
    ensures
        map_kinds_in(kinds) == if_wired(kinds, MAP_KINDS@[0]@) + if_wired(kinds, MAP_KINDS@[1]@) + if_wired(
            kinds,
            MAP_KINDS@[2]@,
        ),
        forall|i: int| 0 <= i < 3 ==> map_kinds_in(kinds).contains(#[trigger] MAP_KINDS@[i]@) <== wired(kinds, MAP_KINDS@[i]@),
        forall|x: Seq<char>| #[trigger] map_kinds_in(kinds).contains(x) ==> wired(kinds, x) && exists|i: int| 0 <= i < 3 && x == MAP_KINDS@[i]@,
{
    let all = Seq::new(3, |i: int| MAP_KINDS@[i]@);
    let k0 = MAP_KINDS@[0]@;
    let k1 = MAP_KINDS@[1]@;
    let k2 = MAP_KINDS@[2]@;
    assert(all.drop_last().drop_last().drop_last() =~= Seq::<Seq<char>>::empty());
    assert(all.drop_last().drop_last() =~= seq![k0]);
    assert(all.drop_last() =~= seq![k0, k1]);
    assert(wired_among(seq![k0], kinds) =~= if_wired(kinds, k0)) by {
        assert(seq![k0].drop_last() =~= Seq::<Seq<char>>::empty());
        assert(wired_among(Seq::<Seq<char>>::empty(), kinds) == Seq::<Seq<char>>::empty());
        assert(seq![k0].last() == k0);
    }
    assert(wired_among(seq![k0, k1], kinds) =~= if_wired(kinds, k0) + if_wired(kinds, k1)) by {
        assert(seq![k0, k1].drop_last() =~= seq![k0]);
        assert(seq![k0, k1].last() == k1);
    }
    assert(wired_among(all, kinds) =~= if_wired(kinds, k0) + if_wired(kinds, k1) + if_wired(kinds, k2));
    let out = map_kinds_in(kinds);
    assert forall|i: int| 0 <= i < 3 && wired(kinds, MAP_KINDS@[i]@) implies out.contains(#[trigger] MAP_KINDS@[i]@) by {
        let a = if_wired(kinds, k0).len() as int;
        let b = a + if_wired(kinds, k1).len();
        if i == 0 {
            assert(out[0] == k0);
        } else if i == 1 {
            assert(out[a] == k1);
        } else {
            assert(out[b] == k2);
        }
    }
    assert forall|x: Seq<char>| #[trigger] out.contains(x) implies wired(kinds, x) && exists|i: int| 0 <= i < 3 && x == MAP_KINDS@[i]@ by {
        let k = choose|k: int| 0 <= k < out.len() && out[k] == x;
        let a = if_wired(kinds, k0).len() as int;
        let b = a + if_wired(kinds, k1).len();
        if k < a {
            assert(x == MAP_KINDS@[0]@);
        } else if k < b {
            assert(x == MAP_KINDS@[1]@);
        } else {
            assert(x == MAP_KINDS@[2]@);
        }
    }
}

fn is_wired(kinds: &[String], kind: &str) -> (r: bool)
    ensures
        r == wired(kinds@, kind@),
{
    let mut i: usize = 0;
    while i < kinds.len()
        invariant
            i <= kinds@.len(),
            forall|j: int| 0 <= j < i ==> kinds@[j]@ != kind@,
        decreases kinds@.len() - i,
    {
        if same_text(kinds[i].as_str(), kind) {
            return true;
        }
        i += 1;
    }
    false
}

/// The decoders among `kinds` that put targets on the map, in map order and
/// once each.
pub fn map_kinds_of(kinds: &[String]) -> (shown: Vec<&'static str>)
    ensures
        shown@.map_values(|kind: &str| kind@) == map_kinds_in(kinds@),
{
    let mut out: Vec<&'static str> = Vec::new();
    let ghost all = Seq::new(3, |i: int| MAP_KINDS@[i]@);
    let mut i: usize = 0;
    while i < 3
        invariant
            i <= 3,
            all == Seq::new(3, |i: int| MAP_KINDS@[i]@),
            out@.map_values(|kind: &str| kind@) == wired_among(all.take(i as int), kinds@),
        decreases 3 - i,
    {
        let kind = MAP_KINDS[i];
        proof {
            assert(all.take(i + 1).drop_last() =~= all.take(i as int));
            assert(all.take(i + 1).last() == kind@);
        }
        if is_wired(kinds, kind) {
            out.push(kind);
        }
        i += 1;
        proof {
            assert(out@.map_values(|kind: &str| kind@) =~= wired_among(all.take(i as int), kinds@));
        }
    }
    assert(all.take(3) =~= all);
    out
}

/// Whether a target last heard at `last_seen` has gone from the map at `now`:
/// strictly more than `max_age_ms` ago.
pub fn is_stale(last_seen: i64, now: i64, max_age_ms: i64) -> (stale: bool)
    requires
        i64::MIN <= now - max_age_ms <= i64::MAX,
    ensures
        stale == (last_seen < now - max_age_ms),
{
    last_seen < now - max_age_ms
}

/// The text of an optional field with its outer white space taken off, or
/// nothing when it is missing or blank.
pub open spec fn trimmed_of(value: Option<Seq<char>>) -> Option<Seq<char>> {
    let text = match value {
        Some(v) => trim(v),
        None => Seq::empty(),
    };
    if text.len() == 0 {
        None
    } else {
        Some(text)
    }
}

/// The text of an optional string.
pub open spec fn text_of(value: Option<&str>) -> Option<Seq<char>> {
    match value {
        Some(v) => Some(v@),
        None => None,
    }
}

/// An optional field trimmed, or nothing when it is missing or blank.
pub fn trimmed(value: Option<&str>) -> (out: Option<String>)
    ensures
        match out {
            Some(s) => trimmed_of(text_of(value)) == Some(s@),
            None => trimmed_of(text_of(value)) is None,
        },
{
    let chars = match value {
        Some(v) => chars_of(v),
        None => Vec::new(),
    };
    let text = trim_chars(chars.as_slice());
    proof {
        if value is None {
            assert(chars@ =~= Seq::<char>::empty());
            assert(text@ =~= trim(Seq::<char>::empty()));
        }
    }
    if text.len() == 0 {
        None
    } else {
        Some(string_of(text.as_slice()))
    }
}

/// The named values that are present, in order.
pub open spec fn kept_of(entries: Seq<(&'static str, Option<String>)>) -> Seq<(&'static str, String)>
    decreases entries.len(),
{
    if entries.len() == 0 {
        Seq::empty()
    } else {
        let rest = kept_of(entries.drop_last());
        match entries.last().1 {
            Some(v) => rest.push((entries.last().0, v)),
            None => rest,
        }
    }
}

/// The rows of a detail that have a value, in order.
pub fn kept(entries: Vec<(&'static str, Option<String>)>) -> (rows: Vec<(&'static str, String)>)
    ensures
        rows@ == kept_of(entries@),
{
    let mut out: Vec<(&'static str, String)> = Vec::new();
    let mut entries = entries;
    let ghost all = entries@;
    while entries.len() > 0
        invariant
            entries@.len() <= all.len(),
            out@ == kept_of(all.take(all.len() - entries@.len())),
            entries@ == all.skip(all.len() - entries@.len()),
        decreases entries@.len(),
    {
        let ghost before = entries@;
        let n = entries.len();
        let first = entries.remove(0);
        proof {
            let done = (all.len() - before.len()) as int;
            assert(all.take(done + 1).drop_last() =~= all.take(done));
            assert(all.take(done + 1).last() == first);
            assert(entries@ =~= all.skip(done + 1));
        }
        let (name, value) = first;
        match value {
            Some(v) => out.push((name, v)),
            None => {},
        }
    }
    assert(all.take(all.len() as int) =~= all);
    out
}

/// The key a target is picked by: its kind, a slash, and its id.
pub fn pick_key(kind: &str, id: &str) -> (key: String)
    ensures
        key@ == kind@ + seq!['/'] + id@,
{
    let mut out: Vec<char> = Vec::new();
    push_str(&mut out, kind);
    out.push('/');
    push_str(&mut out, id);
    string_of(out.as_slice())
}

/// What the map knows of a target: its kind, its id, when it was last heard,
/// where it is and which way it heads if it says, and the text it is
/// labelled with. Positions and headings are of the caller's types.
pub struct Target<P, H> {
    pub kind: &'static str,
    pub id: String,
    pub last_seen: i64,
    pub at: Option<P>,
    pub heading: Option<H>,
    pub label: String,
}

/// A target's dot: where, in what colour, the key that picks it, and whether
/// it is the one picked.
pub struct Dot<P> {
    pub at: P,
    pub colour: u32,
    pub pick: String,
    pub chosen: bool,
}

/// The glyph drawn on a target that says which way it heads.
pub struct Mark<P, H> {
    pub at: P,
    pub glyph: Glyph,
    pub heading: H,
    pub colour: u32,
}

/// The label drawn by a target, keyed like its dot.
pub struct Label<P> {
    pub key: String,
    pub at: P,
    pub text: String,
    pub colour: u32,
    pub kind: &'static str,
}

/// The dots, marks and labels the targets put on the map.
pub struct Overlay<P, H> {
    pub dots: Vec<Dot<P>>,
    pub marks: Vec<Mark<P, H>>,
    pub labels: Vec<Label<P>>,
}

/// A dot as its place, colour, key and whether it is picked.
pub open spec fn dot_view<P>(d: Dot<P>) -> (P, u32, Seq<char>, bool) {
    (d.at, d.colour, d.pick@, d.chosen)
}

/// A label as its key, place, text, colour and kind.
pub open spec fn label_view<P>(l: Label<P>) -> (Seq<char>, P, Seq<char>, u32, Seq<char>) {
    (l.key@, l.at, l.text@, l.colour, l.kind@)
}

/// What an overlay draws: its dots and labels by their views, and its marks.
pub open spec fn overlay_view<P, H>(o: Overlay<P, H>) -> (
    Seq<(P, u32, Seq<char>, bool)>,
    Seq<Mark<P, H>>,
    Seq<(Seq<char>, P, Seq<char>, u32, Seq<char>)>,
) {
    (
        Seq::new(o.dots@.len(), |i: int| dot_view(o.dots@[i])),
        o.marks@,
        Seq::new(o.labels@.len(), |i: int| label_view(o.labels@[i])),
    )
}

/// What the map draws after one more target: nothing for one gone stale at
/// `now` or without a position; else its dot, picked when `selected` is its
/// key, a mark if it says which way it heads, and its label.
pub open spec fn overlay_step<P, H>(
    o: (Seq<(P, u32, Seq<char>, bool)>, Seq<Mark<P, H>>, Seq<(Seq<char>, P, Seq<char>, u32, Seq<char>)>),
    t: Target<P, H>,
    selected: Option<Seq<char>>,
    now: i64,
) -> (Seq<(P, u32, Seq<char>, bool)>, Seq<Mark<P, H>>, Seq<(Seq<char>, P, Seq<char>, u32, Seq<char>)>) {
    if t.last_seen < now - TARGET_MAX_AGE_MS {
        o
    } else {
        match t.at {
            None => o,
            Some(at) => {
                let key = t.kind@ + seq!['/'] + t.id@;
                let colour = style_of(t.kind@).1;
                let marks = match t.heading {
                    Some(h) => o.1.push(Mark { at, glyph: glyph_of(t.kind@), heading: h, colour }),
                    None => o.1,
                };
                (
                    o.0.push((at, colour, key, selected == Some(key))),
                    marks,
                    o.2.push((key, at, t.label@, colour, t.kind@)),
                )
            },
        }
    }
}

/// What the map draws for some targets, in order.
pub open spec fn overlay_of<P, H>(targets: Seq<Target<P, H>>, selected: Option<Seq<char>>, now: i64) -> (
    Seq<(P, u32, Seq<char>, bool)>,
    Seq<Mark<P, H>>,
    Seq<(Seq<char>, P, Seq<char>, u32, Seq<char>)>,
)
    decreases targets.len(),
{
    if targets.len() == 0 {
        (Seq::empty(), Seq::empty(), Seq::empty())
    } else {
        overlay_step(overlay_of(targets.drop_last(), selected, now), targets.last(), selected, now)
    }
}

/// How many targets the map shows at `now`: those heard recently enough
/// that have a position.
pub open spec fn shown_of<P, H>(targets: Seq<Target<P, H>>, now: i64) -> nat
    decreases targets.len(),
{
    if targets.len() == 0 {
        0
    } else {
        let t = targets.last();
        shown_of(targets.drop_last(), now) + if t.last_seen >= now - TARGET_MAX_AGE_MS && t.at is Some {
            1nat
        } else {
            0nat
        }
    }
}

/// The dots, marks and labels of the targets that are on the map at `now`,
/// and how many targets that is.
pub fn overlay<P: Copy, H: Copy>(targets: &[Target<P, H>], selected: Option<&str>, now: i64) -> (drawn: (Overlay<P, H>, usize))
    requires
        now >= i64::MIN + TARGET_MAX_AGE_MS,
    ensures
        overlay_view(drawn.0) == overlay_of(targets@, text_of(selected), now),
        drawn.1 == shown_of(targets@, now),
{
    let mut out: Overlay<P, H> = Overlay { dots: Vec::new(), marks: Vec::new(), labels: Vec::new() };
    let mut shown: usize = 0;
    let mut i: usize = 0;
    assert(overlay_view(out) =~= overlay_of(targets@.take(0), text_of(selected), now));
    while i < targets.len()
        invariant
            i <= targets@.len(),
            now >= i64::MIN + TARGET_MAX_AGE_MS,
            shown <= i,
            overlay_view(out) == overlay_of(targets@.take(i as int), text_of(selected), now),
            shown == shown_of(targets@.take(i as int), now),
        decreases targets@.len() - i,
    {
        let t = &targets[i];
        let ghost before = overlay_view(out);
        proof {
            assert(targets@.take(i + 1).drop_last() =~= targets@.take(i as int));
        }
        if !is_stale(t.last_seen, now, TARGET_MAX_AGE_MS) {
            match t.at {
                Some(at) => {
                    shown += 1;
                    let key = pick_key(t.kind, t.id.as_str());
                    let chosen = match selected {
                        Some(picked) => same_text(picked, key.as_str()),
                        None => false,
                    };
                    let (_, colour) = style(t.kind);
                    out.dots.push(Dot { at, colour, pick: key.clone(), chosen });
                    match t.heading {
                        Some(heading) => {
                            out.marks.push(Mark { at, glyph: glyph(t.kind), heading, colour });
                        },
                        None => {},
                    }
                    out.labels.push(Label { key, at, text: t.label.clone(), colour, kind: t.kind });
                    assert(overlay_view(out).0 =~= before.0.push((at, colour, key@, chosen)));
                    assert(overlay_view(out).2 =~= before.2.push((key@, at, t.label@, colour, t.kind@)));
                },
                None => {},
            }
        }
        i += 1;
        assert(overlay_view(out) =~= overlay_of(targets@.take(i as int), text_of(selected), now));
    }
    assert(targets@.take(i as int) =~= targets@);
    (out, shown)
}

/// The count of targets shown is the count of dots drawn, and of labels:
/// one of each per target on the map, and at most one mark.
pub proof fn law_one_dot_per_shown_target<P, H>(targets: Seq<Target<P, H>>, selected: Option<Seq<char>>, now: i64)
    ensures
        overlay_of(targets, selected, now).0.len() == shown_of(targets, now),
        overlay_of(targets, selected, now).2.len() == shown_of(targets, now),
        overlay_of(targets, selected, now).1.len() <= shown_of(targets, now),
    decreases targets.len(),
{
    if targets.len() > 0 {
        law_one_dot_per_shown_target(targets.drop_last(), selected, now);
    }
}

/// Whether a target is on the map at `now`: heard recently enough, with a
/// position.
pub open spec fn on_map<P, H>(t: Target<P, H>, now: i64) -> bool {
    t.last_seen >= now - TARGET_MAX_AGE_MS && t.at is Some
}

/// The targets on the map at `now`, in their order.
pub open spec fn shown_targets<P, H>(targets: Seq<Target<P, H>>, now: i64) -> Seq<Target<P, H>>
    decreases targets.len(),
{
    if targets.len() == 0 {
        Seq::empty()
    } else {
        let rest = shown_targets(targets.drop_last(), now);
        if on_map(targets.last(), now) {
            rest.push(targets.last())
        } else {
            rest
        }
    }
}

/// The key a target is picked by.
pub open spec fn key_of<P, H>(t: Target<P, H>) -> Seq<char> {
    t.kind@ + seq!['/'] + t.id@
}

/// The dot of a target on the map: at its position, in its kind's colour,
/// keyed by its kind and id, picked when `selected` is that key.
pub open spec fn dot_entry<P, H>(t: Target<P, H>, selected: Option<Seq<char>>) -> (P, u32, Seq<char>, bool) {
    (t.at->0, style_of(t.kind@).1, key_of(t), selected == Some(key_of(t)))
}

/// The label of a target on the map: keyed like its dot, at its position,
/// with its label text.
pub open spec fn label_entry<P, H>(t: Target<P, H>) -> (Seq<char>, P, Seq<char>, u32, Seq<char>) {
    (key_of(t), t.at->0, t.label@, style_of(t.kind@).1, t.kind@)
}

/// The heading marks of some targets on the map: one per target that says
/// which way it heads, in order.
pub open spec fn marks_of<P, H>(shown: Seq<Target<P, H>>) -> Seq<Mark<P, H>>
    decreases shown.len(),
{
    if shown.len() == 0 {
        Seq::empty()
    } else {
        let t = shown.last();
        let rest = marks_of(shown.drop_last());
        match t.heading {
            Some(h) => rest.push(Mark { at: t.at->0, glyph: glyph_of(t.kind@), heading: h, colour: style_of(t.kind@).1 }),
            None => rest,
        }
    }
}

/// How many of some targets say which way they head.
pub open spec fn headed_count<P, H>(shown: Seq<Target<P, H>>) -> nat
    decreases shown.len(),
{
    if shown.len() == 0 {
        0
    } else {
        headed_count(shown.drop_last()) + if shown.last().heading is Some {
            1nat
        } else {
            0nat
        }
    }
}

/// The map draws, for each target on it and in the targets' order, one dot
/// at its position keyed by its kind and id, and one label with its text;
/// and one heading mark for each of them that says which way it heads.
pub proof fn law_overlay_follows_the_shown_targets<P, H>(targets: Seq<Target<P, H>>, selected: Option<Seq<char>>, now: i64)
    ensures
        overlay_of(targets, selected, now).0 == shown_targets(targets, now).map_values(
            |t: Target<P, H>| dot_entry(t, selected),
        ),
        overlay_of(targets, selected, now).2 == shown_targets(targets, now).map_values(
            |t: Target<P, H>| label_entry(t),
        ),
        overlay_of(targets, selected, now).1 == marks_of(shown_targets(targets, now)),
        marks_of(shown_targets(targets, now)).len() == headed_count(shown_targets(targets, now)),
        shown_targets(targets, now).len() == shown_of(targets, now),
    decreases targets.len(),
{
    if targets.len() > 0 {
        let rest = targets.drop_last();
        law_overlay_follows_the_shown_targets(rest, selected, now);
        let shown = shown_targets(rest, now);
        let t = targets.last();
        if on_map(t, now) {
            let dot = |t: Target<P, H>| dot_entry(t, selected);
            let lab = |t: Target<P, H>| label_entry(t);
            assert(shown.push(t).map_values(dot) =~= shown.map_values(dot).push(dot(t)));
            assert(shown.push(t).map_values(lab) =~= shown.map_values(lab).push(lab(t)));
            assert(shown.push(t).drop_last() =~= shown);
        }
    } else {
        assert(Seq::<Target<P, H>>::empty().map_values(|t: Target<P, H>| dot_entry(t, selected)) =~= Seq::empty());
        assert(Seq::<Target<P, H>>::empty().map_values(|t: Target<P, H>| label_entry(t)) =~= Seq::empty());
    }
}

/// What a target is called by, as its decoder reports it.
pub enum Identity {
    Adsb { callsign: Option<String>, icao: String },
    Ais { name: Option<String>, call_sign: Option<String>, mmsi: u32 },
    Aprs { source: String },
    Other,
}

/// The text of an optional string field.
pub open spec fn field_text(value: Option<String>) -> Option<Seq<char>> {
    match value {
        Some(v) => Some(v@),
        None => None,
    }
}

/// The label of a target: an aircraft's callsign, else its ICAO address in
/// capitals; a vessel's name, else its call sign, else its MMSI; an APRS
/// station's source; anything else by its id. Blank fields do not count.
pub open spec fn label_of(identity: Identity, id: Seq<char>) -> Seq<char> {
    match identity {
        Identity::Adsb { callsign, icao } => match trimmed_of(field_text(callsign)) {
            Some(t) => t,
            None => upper_of(icao@),
        },
        Identity::Ais { name, call_sign, mmsi } => match trimmed_of(field_text(name)) {
            Some(t) => t,
            None => match trimmed_of(field_text(call_sign)) {
                Some(t) => t,
                None => decimal(mmsi as nat),
            },
        },
        Identity::Aprs { source } => source@,
        Identity::Other => id,
    }
}

fn field_ref(value: &Option<String>) -> (r: Option<&str>)
    ensures
        text_of(r) == field_text(*value),
{
    match value {
        Some(v) => Some(v.as_str()),
        None => None,
    }
}

/// The label a target of id `id` is drawn with.
pub fn label(identity: &Identity, id: &str) -> (text: String)
    ensures
        text@ == label_of(*identity, id@),
{
    match identity {
        Identity::Adsb { callsign, icao } => match trimmed(field_ref(callsign)) {
            Some(t) => t,
            None => to_upper(icao.as_str()),
        },
        Identity::Ais { name, call_sign, mmsi } => match trimmed(field_ref(name)) {
            Some(t) => t,
            None => match trimmed(field_ref(call_sign)) {
                Some(t) => t,
                None => {
                    let mut out: Vec<char> = Vec::new();
                    push_decimal(&mut out, *mmsi as u64);
                    string_of(out.as_slice())
                },
            },
        },
        Identity::Aprs { source } => source.clone(),
        Identity::Other => string_of(chars_of(id).as_slice()),
    }
}

} // verus!
