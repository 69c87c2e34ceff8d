use faces::protocols::{
    active_preset, choice_summary, enabled_kinds, protocol_groups, protocol_presets, same_choice,
    set_enabled, short_label, Descriptor, Family, ProtocolChoice, ProtocolGroup,
};

const FAMILIES: [Family; 4] = [
    Family { name: "AnalogVoice", title: "Analog voice" },
    Family { name: "DigitalVoice", title: "Digital voice" },
    Family { name: "Aviation", title: "Aviation" },
    Family { name: "Utility", title: "Utility" },
];

fn kind(type_id: &str, name: &str, family: &'static str, identifiable: bool) -> Descriptor {
    Descriptor {
        type_id: type_id.into(),
        name: name.into(),
        family,
        identifiable,
    }
}

fn groups() -> Vec<ProtocolGroup> {
    protocol_groups(
        &[
            kind("nfm", "NFM", "AnalogVoice", true),
            kind("wfm", "WFM (broadcast)", "AnalogVoice", true),
            kind("dmr", "DMR", "DigitalVoice", true),
            kind("adsb", "ADS-B (1090ES)", "Aviation", true),
            kind("ident", "Signal identifier", "Utility", false),
        ],
        &FAMILIES,
    )
}

fn strings(items: &[&str]) -> Vec<String> {
    items.iter().map(|item| (*item).to_owned()).collect()
}

#[test]
fn only_identifiable_protocols_are_listed_by_family_with_short_labels() {
    let groups = groups();
    let families: Vec<&str> = groups.iter().map(|group| group.family).collect();
    assert_eq!(families, vec!["AnalogVoice", "DigitalVoice", "Aviation"]);
    let labels: Vec<&str> = groups[0]
        .protocols
        .iter()
        .map(|p| p.label.as_str())
        .collect();
    assert_eq!(labels, vec!["NFM", "WFM"]);
    assert_eq!(groups[2].protocols[0].name, "ADS-B (1090ES)");
}

#[test]
fn everything_starts_enabled() {
    let groups = groups();
    let choice = ProtocolChoice {
        disabled: Vec::new(),
        unidentified: true,
    };
    assert_eq!(
        enabled_kinds(&groups, &choice.disabled),
        strings(&["nfm", "wfm", "dmr", "adsb"])
    );
    assert_eq!(
        active_preset(&groups, &choice).map(|preset| preset.id),
        Some(String::from("all"))
    );
    assert_eq!(choice_summary(&groups, &choice), "All protocols");
}

#[test]
fn each_family_preset_keeps_only_that_family() {
    let groups = groups();
    let analog = protocol_presets(&groups)
        .into_iter()
        .find(|preset| preset.label == "Analog voice")
        .map(|preset| preset.choice);
    assert_eq!(
        analog,
        Some(ProtocolChoice {
            disabled: strings(&["dmr", "adsb"]),
            unidentified: false
        })
    );
    let choice = ProtocolChoice {
        disabled: strings(&["adsb", "dmr"]),
        unidentified: false,
    };
    assert_eq!(choice_summary(&groups, &choice), "Analog voice");
}

#[test]
fn a_custom_choice_is_counted() {
    let groups = groups();
    let disabled = set_enabled(&[], &strings(&["dmr"]), false);
    assert_eq!(disabled, strings(&["dmr"]));
    let choice = ProtocolChoice {
        disabled: disabled.clone(),
        unidentified: true,
    };
    assert_eq!(active_preset(&groups, &choice), None);
    assert_eq!(choice_summary(&groups, &choice), "3 of 4");
    assert!(set_enabled(&disabled, &strings(&["dmr"]), true).is_empty());
}

#[test]
fn an_empty_choice_is_named() {
    let groups = groups();
    let disabled = strings(&["nfm", "wfm", "dmr", "adsb"]);
    let nothing = ProtocolChoice {
        disabled: disabled.clone(),
        unidentified: false,
    };
    assert_eq!(choice_summary(&groups, &nothing), "Nothing");
    let unidentified = ProtocolChoice {
        disabled,
        unidentified: true,
    };
    assert_eq!(choice_summary(&groups, &unidentified), "Unidentified only");
}

#[test]
fn presets_name_each_family_by_its_stored_name() {
    let ids: Vec<String> = protocol_presets(&groups())
        .into_iter()
        .map(|preset| preset.id)
        .collect();
    assert_eq!(ids, strings(&["all", "AnalogVoice", "DigitalVoice", "Aviation"]));
}

#[test]
fn the_switched_off_set_is_sorted_and_holds_each_kind_once() {
    let off = set_enabled(&strings(&["wfm", "adsb"]), &strings(&["dmr", "adsb", "dmr"]), false);
    assert_eq!(off, strings(&["adsb", "dmr", "wfm"]));
    let on_again = set_enabled(&off, &strings(&["adsb", "nfm"]), true);
    assert_eq!(on_again, strings(&["dmr", "wfm"]));
}

#[test]
fn switching_kinds_off_and_on_again_keeps_the_rest() {
    let before = strings(&["dmr"]);
    let off = set_enabled(&before, &strings(&["wfm"]), false);
    assert_eq!(set_enabled(&off, &strings(&["wfm"]), true), before);
}

#[test]
fn a_bracketed_note_is_left_off_a_label() {
    assert_eq!(short_label("WFM (broadcast)"), "WFM");
    assert_eq!(short_label("ADS-B  (1090ES)"), "ADS-B");
    assert_eq!(short_label("NFM"), "NFM");
    assert_eq!(short_label("Odd (open"), "Odd (open");
    assert_eq!(short_label("(leading)"), "(leading)");
}

#[test]
fn choices_compare_by_what_they_keep() {
    let groups = groups();
    let a = ProtocolChoice {
        disabled: strings(&["dmr", "pocsag"]),
        unidentified: true,
    };
    let b = ProtocolChoice {
        disabled: strings(&["dmr"]),
        unidentified: true,
    };
    assert!(same_choice(&groups, &a, &b));
    let c = ProtocolChoice {
        disabled: strings(&["dmr"]),
        unidentified: false,
    };
    assert!(!same_choice(&groups, &b, &c));
}

#[test]
fn what_is_on_depends_only_on_the_set_switched_off() {
    let groups = groups();
    let a = enabled_kinds(&groups, &strings(&["wfm", "dmr", "wfm"]));
    let b = enabled_kinds(&groups, &strings(&["dmr", "wfm"]));
    assert_eq!(a, b);
    assert_eq!(a, strings(&["nfm", "adsb"]));
}

#[test]
fn each_presets_own_choice_makes_it_active() {
    let groups = groups();
    for preset in protocol_presets(&groups) {
        let active = active_preset(&groups, &preset.choice).map(|found| found.id);
        assert_eq!(active, Some(preset.id.clone()));
        let summary = choice_summary(&groups, &preset.choice);
        if preset.id == "all" {
            assert_eq!(summary, "All protocols");
        } else {
            assert_eq!(summary, preset.label);
        }
    }
}
