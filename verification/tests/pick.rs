use faces::pick::{bookmark_draft, channel_type_at, suggested_at, BookmarkDraft, Found};

fn found(name: &str, suggested: Option<&str>) -> Found {
    Found {
        name: name.to_owned(),
        suggested: suggested.map(str::to_owned),
    }
}

#[test]
fn a_bookmark_draft_names_the_allocation_or_the_frequency() {
    let at_two_metres = [found("2 m amateur", None), found("APRS", Some("aprs"))];
    assert_eq!(
        bookmark_draft(&at_two_metres, "144.8000 MHz"),
        BookmarkDraft {
            label: String::from("2 m amateur"),
            mode: Some(String::from("aprs"))
        }
    );
    assert_eq!(
        bookmark_draft(&[], "140.0000 MHz"),
        BookmarkDraft {
            label: String::from("140.0000 MHz"),
            mode: None
        }
    );
}

#[test]
fn the_last_lane_with_a_suggestion_gives_the_mode() {
    let lanes = [
        found("VHF", Some("nfm")),
        found("Marine", Some("am")),
        found("Channel 16", None),
    ];
    assert_eq!(suggested_at(&lanes), Some(String::from("am")));
    assert_eq!(suggested_at(&[found("VHF", None)]), None);
}

#[test]
fn a_new_channel_prefers_the_band_then_the_current_mode_then_nfm() {
    assert_eq!(channel_type_at(Some("am"), Some("ssb")), "am");
    assert_eq!(channel_type_at(None, Some("ssb")), "ssb");
    assert_eq!(channel_type_at(None, None), "nfm");
}

fn descriptor(type_id: &str, name: &str) -> faces::protocols::Descriptor {
    faces::protocols::Descriptor {
        type_id: type_id.to_owned(),
        name: name.to_owned(),
        family: "AnalogVoice",
        identifiable: true,
    }
}

#[test]
fn the_suggested_decoder_leads_the_picker() {
    let listed = [
        descriptor("wfm", "Wide FM"),
        descriptor("am", "AM"),
        descriptor("nfm", "Narrow FM"),
    ];
    let order: Vec<String> = faces::pick::picker_order(&listed, "nfm")
        .into_iter()
        .map(|(id, _)| id)
        .collect();
    assert_eq!(order, ["nfm", "am", "wfm"]);
}

#[test]
fn the_picker_sorts_names_regardless_of_case_and_keeps_ties_in_place() {
    let listed = [
        descriptor("b2", "beta"),
        descriptor("a", "Alpha"),
        descriptor("b1", "Beta"),
    ];
    let order: Vec<(String, String)> = faces::pick::picker_order(&listed, "none");
    assert_eq!(
        order,
        [
            (String::from("a"), String::from("Alpha")),
            (String::from("b2"), String::from("beta")),
            (String::from("b1"), String::from("Beta")),
        ]
    );
}
