use faces::propagation::{encode, history_path, merge, Input, Pick, Stamp};

const NOW: i64 = 1_786_881_600_000;

fn stamp(key: &str, at: i64) -> Stamp {
    Stamp {
        key: key.to_owned(),
        at,
    }
}

fn keys(held: &[Stamp], added: &[Stamp], picks: &[Pick]) -> Vec<String> {
    picks
        .iter()
        .map(|pick| match pick {
            Pick::Held(i) => held[*i].key.clone(),
            Pick::Added(j) => added[*j].key.clone(),
        })
        .collect()
}

#[test]
fn the_history_query_names_every_wired_decoder() {
    let inputs = [
        Input {
            node: "ft8 a".to_owned(),
            device_set: 1,
            channel: 2,
        },
        Input {
            node: "wspr".to_owned(),
            device_set: 1,
            channel: 3,
        },
    ];
    let path = history_path("ft8", &inputs, "1970-01-01T00:00:00Z");
    assert!(path.starts_with(
        "/api/decoderlog?kind=ft8&nodes=ft8%20a%2Cwspr&sources=1%3A2%2C1%3A3&since="
    ));
    assert!(path.ends_with("&limit=2000"));
    assert!(path.contains("&since=1970-01-01T00%3A00%3A00Z&"));
}

#[test]
fn a_query_text_keeps_only_unreserved_bytes_as_they_are() {
    assert_eq!(encode("Az09-_.~"), "Az09-_.~");
    assert_eq!(encode("a b/c"), "a%20b%2Fc");
    assert_eq!(encode("\u{e9}"), "%C3%A9");
    assert_eq!(encode(""), "");
}

#[test]
fn merging_keeps_one_of_each_oldest_first_and_drops_the_overflow() {
    let first = [stamp("a", NOW - 10)];
    let held_picks = merge(&[], &first, 10).expect("merged");
    assert_eq!(keys(&[], &first, &held_picks), ["a"]);
    let held = first.to_vec();
    assert!(merge(&held, &[stamp("a", NOW - 10)], 10).is_none());
    let added = [stamp("b", NOW - 20)];
    let merged = merge(&held, &added, 10).expect("merged");
    assert_eq!(keys(&held, &added, &merged), ["b", "a"]);
    let many = [stamp("x", NOW - 2), stamp("y", NOW - 1), stamp("z", NOW)];
    let capped = merge(&[], &many, 2).expect("merged");
    assert_eq!(keys(&[], &many, &capped), ["y", "z"]);
}

#[test]
fn a_key_added_twice_is_merged_once_and_ties_keep_held_first() {
    let held = [stamp("h", 5)];
    let added = [stamp("n", 5), stamp("n", 1), stamp("m", 5)];
    let merged = merge(&held, &added, 10).expect("merged");
    assert_eq!(merged, [Pick::Held(0), Pick::Added(0), Pick::Added(2)]);
}

#[test]
fn a_merge_holds_each_key_once_up_to_its_capacity() {
    let held = [stamp("a", 3), stamp("b", 1)];
    let added = [stamp("c", 2), stamp("a", 9), stamp("c", 4), stamp("d", 0)];
    let merged = merge(&held, &added, 10).expect("merged");
    assert_eq!(keys(&held, &added, &merged), ["d", "b", "c", "a"]);
    let capped = merge(&held, &added, 3).expect("merged");
    assert_eq!(capped.len(), 3);
    assert_eq!(keys(&held, &added, &capped), ["b", "c", "a"]);
}
