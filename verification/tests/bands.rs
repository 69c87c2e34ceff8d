use faces::bands::{covered_by_layer, provision_text, service_label, service_name, BandService, Provision};

fn authority(layer: &str) -> String {
    String::from(if layer == "cept" { "CEPT / ECO" } else { "ITU" })
}

#[test]
fn covered_bands_group_by_authority_and_name_each_once() {
    let listed = [
        ("cept", "1800 MHz mobile broadband"),
        ("cept", "1800 MHz mobile broadband"),
        ("world", "FIXED"),
        ("cept", "FIXED"),
        ("itu-r1", "1800 MHz mobile broadband"),
    ];
    let covered: Vec<(String, String)> = listed
        .iter()
        .map(|(layer, name)| (authority(layer), (*name).to_owned()))
        .collect();
    let groups = covered_by_layer(&covered);
    assert_eq!(groups[0].label, "CEPT / ECO");
    assert_eq!(groups[0].names, ["1800 MHz mobile broadband", "FIXED"]);
    assert_eq!(groups[1].label, "ITU");
    assert_eq!(groups[1].names, ["FIXED", "1800 MHz mobile broadband"]);
    assert_eq!(groups.len(), 2);
    assert!(covered_by_layer(&[]).is_empty());
}

#[test]
fn an_initialism_is_spelled_as_one() {
    assert_eq!(service_label(BandService::Ism), "ISM");
    assert_eq!(service_label(BandService::Maritime), "Maritime");
    assert_eq!(service_name(BandService::Ism), "ism");
}

#[test]
fn a_provision_is_read_by_its_layer_and_id() {
    let provisions = [Provision {
        layer: String::from("de"),
        id: String::from("5"),
        text: String::from("ISM shares these bands."),
    }];
    assert_eq!(
        provision_text(&provisions, "de", "5"),
        Some("ISM shares these bands.")
    );
    assert_eq!(provision_text(&provisions, "de", "D338"), None);
    assert_eq!(provision_text(&provisions, "world", "5"), None);
}
