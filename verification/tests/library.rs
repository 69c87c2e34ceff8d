use faces::library::{
    check_upload, claimed_recordings, find_recording, matches_search, recording_choices,
    recording_device_id, recording_provenance, recording_title, upload_field, Recording,
    UploadProblem,
};
use faces::patch::{GraphNode, NodeBody, PatchGraph};

fn names(list: &[&str]) -> Vec<String> {
    list.iter().map(|name| (*name).to_owned()).collect()
}

#[test]
fn a_recording_is_named_by_its_stem_alone() {
    assert_eq!(
        recording_device_id("2026-09-16T10-00-00_rtlsdr"),
        "recording:2026-09-16T10-00-00_rtlsdr"
    );
}

#[test]
fn an_upload_is_one_archive_or_one_meta_with_one_data() {
    assert_eq!(check_upload(&names(&["take.sigmf"])), None);
    assert_eq!(
        check_upload(&names(&["take.sigmf-meta", "take.sigmf-data"])),
        None
    );
    assert_eq!(
        check_upload(&names(&["take.sigmf-data", "take.sigmf-meta"])),
        None
    );
    assert_eq!(check_upload(&names(&[])), Some(UploadProblem::Empty));
    assert_eq!(
        check_upload(&names(&["take.sigmf-meta"])),
        Some(UploadProblem::LoneMeta)
    );
    assert_eq!(
        check_upload(&names(&["take.sigmf-data"])),
        Some(UploadProblem::LoneData)
    );
    assert_eq!(
        check_upload(&names(&["a.sigmf-meta", "b.sigmf-meta"])),
        Some(UploadProblem::LoneMeta)
    );
    assert_eq!(
        check_upload(&names(&["a.sigmf", "b.sigmf"])),
        Some(UploadProblem::Mixed)
    );
    assert_eq!(
        check_upload(&names(&["a.sigmf", "a.sigmf-meta"])),
        Some(UploadProblem::Mixed)
    );
}

#[test]
fn two_data_files_with_one_meta_lack_nothing_but_are_no_pair() {
    assert_eq!(
        check_upload(&names(&["a.sigmf-meta", "a.sigmf-data", "b.sigmf-data"])),
        Some(UploadProblem::LoneData)
    );
}

#[test]
fn each_file_goes_up_under_the_field_its_suffix_names() {
    assert_eq!(upload_field("take.sigmf-meta"), "meta");
    assert_eq!(upload_field("take.sigmf-data"), "data");
    assert_eq!(upload_field("take.sigmf"), "archive");
}

#[test]
fn each_problem_tells_the_user_what_to_send() {
    assert_eq!(
        UploadProblem::Empty.said(),
        "Pick a .sigmf archive, or a .sigmf-meta and .sigmf-data pair."
    );
    assert_eq!(
        UploadProblem::LoneMeta.said(),
        "That is the metadata on its own: add the matching .sigmf-data."
    );
    assert_eq!(
        UploadProblem::LoneData.said(),
        "That is the samples on their own: add the matching .sigmf-meta."
    );
    assert_eq!(
        UploadProblem::Mixed.said(),
        "Send one .sigmf archive, or one .sigmf-meta with one .sigmf-data."
    );
}

fn recording(file: &str) -> Recording {
    Recording {
        file: file.to_owned(),
        name: None,
        note: None,
        tags: Vec::new(),
        created_at: String::from("2026-09-16T12:00:00Z"),
        device_label: String::from("RTL-SDR 0"),
    }
}

fn files(library: &[Recording], chosen: &[usize]) -> Vec<String> {
    chosen.iter().map(|at| library[*at].file.clone()).collect()
}

#[test]
fn other_recording_nodes_claim_what_they_play() {
    let node = |id: &str, body: NodeBody<()>| GraphNode { id: id.to_owned(), body };
    let graph = PatchGraph {
        nodes: vec![
            node("a", NodeBody::Recording(Some(String::from("airband")))),
            node("b", NodeBody::Recording(Some(String::from("weather")))),
            node("c", NodeBody::Recording(None)),
            node("d", NodeBody::Other),
        ],
        edges: Vec::new(),
    };
    assert_eq!(claimed_recordings(&graph, "a"), vec!["weather"]);
    assert_eq!(claimed_recordings(&graph, "z"), vec!["airband", "weather"]);
}

#[test]
fn choices_are_free_recordings_sorted_by_name_and_searchable() {
    let library = [
        Recording {
            name: Some(String::from("Tower watch")),
            tags: vec![String::from("airband")],
            ..recording("airband")
        },
        Recording {
            note: Some(String::from("80 m net")),
            ..recording("weather")
        },
        recording("zulu"),
    ];
    assert_eq!(
        files(&library, &recording_choices(&library, &["weather".to_owned()], "")),
        vec!["airband", "zulu"]
    );
    assert_eq!(
        files(&library, &recording_choices(&library, &[], "tower")),
        vec!["airband"]
    );
    assert_eq!(
        files(&library, &recording_choices(&library, &[], "80 m")),
        vec!["weather"]
    );
    assert!(recording_choices(&library, &[], "marine").is_empty());
}

#[test]
fn a_recording_is_found_by_stem_and_a_gone_one_is_not() {
    let library = [recording("airband")];
    assert_eq!(
        find_recording(&library, Some("airband")).map(|r| r.file.as_str()),
        Some("airband")
    );
    assert!(find_recording(&library, Some("gone")).is_none());
    assert!(find_recording(&library, None).is_none());
    assert!(find_recording(&library, Some("")).is_none());
}

#[test]
fn choices_sort_by_title_in_lower_case_and_ties_keep_their_place() {
    let library = [
        Recording { name: Some(String::from("beta")), ..recording("one") },
        Recording { name: Some(String::from("  ")), ..recording("Alpha") },
        Recording { name: Some(String::from("Beta")), ..recording("two") },
        recording("gamma"),
    ];
    assert_eq!(
        files(&library, &recording_choices(&library, &[], "  ")),
        vec!["Alpha", "one", "two", "gamma"]
    );
}

#[test]
fn a_search_looks_through_names_notes_and_tags_in_any_case() {
    let tagged = Recording {
        name: Some(String::from("Tower watch")),
        note: Some(String::from("Busy on Fridays")),
        tags: vec![String::from("AirBand")],
        ..recording("take-7")
    };
    assert!(matches_search(&tagged, "  TOWER "));
    assert!(matches_search(&tagged, "fridays"));
    assert!(matches_search(&tagged, "band"));
    assert!(matches_search(&tagged, "TAKE-"));
    assert!(!matches_search(&tagged, "marine"));
    assert!(matches_search(&tagged, ""));
}

#[test]
fn a_recording_is_titled_by_its_name_or_its_stem() {
    assert_eq!(
        recording_title(&Recording { name: Some(String::from(" Tower watch ")), ..recording("airband") }),
        "Tower watch"
    );
    assert_eq!(recording_title(&Recording { name: Some(String::from("  ")), ..recording("airband") }), "airband");
    assert_eq!(recording_title(&recording("airband")), "airband");
}

#[test]
fn provenance_names_the_time_the_device_the_stem_and_the_tags() {
    let named = Recording {
        name: Some(String::from("Tower watch")),
        tags: vec![String::from("airband"), String::from("night")],
        ..recording("take-7")
    };
    assert_eq!(
        recording_provenance(&named),
        "2026-09-16T12:00:00Z \u{b7} RTL-SDR 0 \u{b7} take-7 \u{b7} #airband \u{b7} #night"
    );
    assert_eq!(
        recording_provenance(&recording("take-8")),
        "2026-09-16T12:00:00Z \u{b7} RTL-SDR 0"
    );
}
