use faces::triangulation::{age_label, guidance_text, station_age, GuidanceMode};
use jiff::Timestamp;

fn now() -> i64 {
    let now: Timestamp = "2026-01-01T00:10:00Z".parse().expect("a time");
    now.as_millisecond()
}

#[test]
fn says_how_long_ago_a_finder_last_reported() {
    let now = now();
    assert_eq!(station_age("2026-01-01T00:09:58Z", now), "just now");
    assert_eq!(station_age("2026-01-01T00:09:30Z", now), "30s ago");
    assert_eq!(station_age("2026-01-01T00:05:00Z", now), "5m ago");
}

#[test]
fn does_not_pretend_to_know_an_unreadable_time() {
    assert_eq!(station_age("who knows", now()), "just now");
}

#[test]
fn ages_round_to_the_nearest_second_and_minute() {
    assert_eq!(age_label(Some(0), 4_499), "just now");
    assert_eq!(age_label(Some(0), 4_500), "5s ago");
    assert_eq!(age_label(Some(0), 89_499), "89s ago");
    assert_eq!(age_label(Some(0), 89_500), "2m ago");
    assert_eq!(age_label(Some(0), 150_000), "3m ago");
    assert_eq!(age_label(Some(0), 149_000), "2m ago");
    assert_eq!(age_label(Some(10_000), 0), "just now");
    assert_eq!(age_label(None, 1_000_000), "just now");
}

#[test]
fn guidance_says_which_way_to_drive() {
    assert_eq!(guidance_text(GuidanceMode::Cross), "Drive across");
    assert_eq!(guidance_text(GuidanceMode::Approach), "Drive at it");
}
