use faces::targets::{
    glyph, is_stale, kept, label, map_kinds_of, overlay, pick_key, style, trimmed, Glyph,
    Identity, Target, TARGET_MAX_AGE_MS,
};

const NOW: i64 = 1_786_276_800_000;

fn wired(kinds: &[&str]) -> Vec<String> {
    kinds.iter().map(|kind| (*kind).to_owned()).collect()
}

fn target(id: &str, last_seen: i64, at: Option<(f64, f64)>, heading: Option<f64>) -> Target<(f64, f64), f64> {
    Target {
        kind: "adsb",
        id: id.to_owned(),
        last_seen,
        at,
        heading,
        label: id.to_uppercase(),
    }
}

#[test]
fn a_target_expires_strictly_after_the_horizon() {
    assert!(!is_stale(
        NOW - TARGET_MAX_AGE_MS + 1,
        NOW,
        TARGET_MAX_AGE_MS
    ));
    assert!(is_stale(
        NOW - TARGET_MAX_AGE_MS - 1,
        NOW,
        TARGET_MAX_AGE_MS
    ));
    assert!(is_stale(NOW - 2_000, NOW, 1_000));
}

#[test]
fn a_target_exactly_at_the_horizon_is_still_drawn() {
    assert!(!is_stale(NOW - TARGET_MAX_AGE_MS, NOW, TARGET_MAX_AGE_MS));
}

#[test]
fn only_decoders_that_report_a_position_are_mapped() {
    assert_eq!(map_kinds_of(&wired(&["adsb", "pocsag", "acars"])), ["adsb"]);
    assert!(map_kinds_of(&wired(&["pocsag", "rtty"])).is_empty());
    assert_eq!(
        map_kinds_of(&wired(&["aprs", "adsb", "aprs"])),
        ["adsb", "aprs"]
    );
    assert_eq!(
        map_kinds_of(&wired(&["ais", "adsb"])),
        map_kinds_of(&wired(&["adsb", "ais"]))
    );
}

#[test]
fn only_fresh_positioned_targets_are_drawn() {
    let fresh = target("fresh", NOW, Some((1.0, 1.0)), None);
    let stale = target("stale", NOW - TARGET_MAX_AGE_MS - 1, Some((2.0, 2.0)), None);
    let unfixed = target("no-fix", NOW, None, None);
    let (drawn, shown) = overlay(&[fresh, stale, unfixed], None, NOW);
    assert_eq!(shown, 1);
    assert_eq!(drawn.dots[0].pick, "adsb/fresh");
    let (empty, none) = overlay::<(f64, f64), f64>(&[], None, NOW);
    assert_eq!(none, 0);
    assert!(empty.dots.is_empty());
}

#[test]
fn the_picked_target_is_marked_and_headings_get_a_glyph() {
    let targets = [
        target("a", NOW, Some((1.0, 2.0)), Some(90.0)),
        target("b", NOW, Some((3.0, 4.0)), None),
    ];
    let (drawn, shown) = overlay(&targets, Some("adsb/b"), NOW);
    assert_eq!(shown, 2);
    let chosen: Vec<bool> = drawn.dots.iter().map(|dot| dot.chosen).collect();
    assert_eq!(chosen, [false, true]);
    assert_eq!(drawn.marks.len(), 1);
    assert_eq!(drawn.marks[0].glyph, Glyph::Plane);
    assert_eq!(drawn.marks[0].heading, 90.0);
    assert_eq!(drawn.marks[0].colour, 0x21_b0_b0);
    assert_eq!(drawn.labels[1].text, "B");
    assert_eq!(drawn.labels[1].key, "adsb/b");
}

#[test]
fn each_kind_has_its_layer_colour_and_glyph() {
    assert_eq!(style("adsb"), ("Aircraft", 0x21_b0_b0));
    assert_eq!(style("ais"), ("Ships", 0xe0_a4_58));
    assert_eq!(style("aprs"), ("APRS", 0xb0_7d_e0));
    assert_eq!(glyph("ais"), Glyph::Ship);
    assert_eq!(glyph("pocsag"), Glyph::Arrow);
}

#[test]
fn a_target_is_picked_by_its_kind_and_id() {
    assert_eq!(pick_key("ais", "211234560"), "ais/211234560");
}

#[test]
fn blank_fields_are_left_out_of_a_detail() {
    assert_eq!(trimmed(Some("  DLH123 ")), Some(String::from("DLH123")));
    assert_eq!(trimmed(Some("   ")), None);
    assert_eq!(trimmed(None), None);
    assert_eq!(
        kept(vec![("A", Some(String::from("1"))), ("B", None), ("C", Some(String::from("3")))]),
        [("A", String::from("1")), ("C", String::from("3"))]
    );
}

fn adsb(callsign: Option<&str>) -> Identity {
    Identity::Adsb {
        callsign: callsign.map(str::to_owned),
        icao: String::from("3c6444"),
    }
}

fn ais(name: Option<&str>, call_sign: Option<&str>) -> Identity {
    Identity::Ais {
        name: name.map(str::to_owned),
        call_sign: call_sign.map(str::to_owned),
        mmsi: 211_234_560,
    }
}

#[test]
fn labels_fall_back_through_each_kinds_identities() {
    assert_eq!(label(&adsb(Some("  ")), "target"), "3C6444");
    assert_eq!(label(&ais(None, None), "target"), "211234560");
    assert_eq!(label(&ais(None, Some("DEAB")), "target"), "DEAB");
    assert_eq!(label(&ais(Some("NORDIC"), Some("DEAB")), "target"), "NORDIC");
    assert_eq!(
        label(&Identity::Aprs { source: String::from("DL1ABC-9") }, "target"),
        "DL1ABC-9"
    );
}

#[test]
fn a_callsign_is_trimmed_and_an_unknown_kind_goes_by_its_id() {
    assert_eq!(label(&adsb(Some("DLH123 ")), "target"), "DLH123");
    assert_eq!(label(&Identity::Other, "target"), "target");
}

#[test]
fn each_shown_target_gets_its_dot_and_label_in_order_and_a_mark_if_it_heads() {
    let targets = [
        target("a", NOW, Some((1.0, 2.0)), Some(10.0)),
        target("old", NOW - TARGET_MAX_AGE_MS - 1, Some((0.0, 0.0)), Some(5.0)),
        target("b", NOW, None, Some(20.0)),
        target("c", NOW, Some((5.0, 6.0)), None),
        target("d", NOW, Some((7.0, 8.0)), Some(30.0)),
    ];
    let (drawn, shown) = overlay(&targets, None, NOW);
    assert_eq!(shown, 3);
    let picks: Vec<&str> = drawn.dots.iter().map(|dot| dot.pick.as_str()).collect();
    assert_eq!(picks, ["adsb/a", "adsb/c", "adsb/d"]);
    let places: Vec<(f64, f64)> = drawn.dots.iter().map(|dot| dot.at).collect();
    assert_eq!(places, [(1.0, 2.0), (5.0, 6.0), (7.0, 8.0)]);
    let texts: Vec<&str> = drawn.labels.iter().map(|l| l.text.as_str()).collect();
    assert_eq!(texts, ["A", "C", "D"]);
    let headings: Vec<f64> = drawn.marks.iter().map(|m| m.heading).collect();
    assert_eq!(headings, [10.0, 30.0]);
}
