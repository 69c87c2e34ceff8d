use faces::locator::{
    geo_to_grid, grid_to_geo, is_propagation_kind, message_callsign, message_grid, GridPoint,
};

fn degrees(at: GridPoint) -> (f64, f64) {
    (at.lat as f64 / 480.0, at.lon as f64 / 480.0)
}

#[test]
fn a_four_character_square_sits_at_its_own_centre() {
    assert_eq!(grid_to_geo("FN42").map(degrees), Some((42.5, -71.0)));
    assert_eq!(grid_to_geo("JO62").map(degrees), Some((52.5, 13.0)));
    assert_eq!(grid_to_geo("IO91").map(degrees), Some((51.5, -1.0)));
}

#[test]
fn lower_case_and_finer_subsquares_are_read() {
    let coarse = degrees(grid_to_geo("JO62").expect("coarse"));
    let fine = degrees(grid_to_geo("jo62qm").expect("fine"));
    assert!((fine.0 - coarse.0).abs() < 0.5);
    assert!((fine.1 - coarse.1).abs() < 1.0);
    assert!(grid_to_geo("JO62QM12").is_some());
}

#[test]
fn anything_that_is_not_a_locator_is_refused() {
    for bad in [
        "", "FN4", "FN421", "ZZ99", "F142", "FN4X", "JO62yy", "JO62QM1",
    ] {
        assert!(grid_to_geo(bad).is_none(), "{bad}");
    }
}

#[test]
fn a_square_round_trips_through_its_centre() {
    for grid in ["FN42", "JO62", "IO91", "PM95", "AA00", "RR99"] {
        let centre = grid_to_geo(grid).expect("a centre");
        assert_eq!(geo_to_grid(centre), grid);
    }
}

#[test]
fn a_subsquare_and_an_extended_square_sit_at_their_centres() {
    assert_eq!(grid_to_geo("JO62QM"), Some(GridPoint { lat: 52 * 480 + 12 * 20 + 10, lon: 13 * 480 - 480 + 16 * 40 + 20 }));
    assert_eq!(grid_to_geo(" jo62qm12 "), Some(GridPoint { lat: 52 * 480 + 12 * 20 + 2 * 2 + 1, lon: 13 * 480 - 480 + 16 * 40 + 4 + 2 }));
    assert_eq!(grid_to_geo("FN4é"), None);
}

#[test]
fn a_point_off_the_world_is_clamped_to_its_edge() {
    assert_eq!(geo_to_grid(GridPoint { lat: 100 * 480, lon: 200 * 480 }), "RR99");
    assert_eq!(geo_to_grid(GridPoint { lat: -100 * 480, lon: -200 * 480 }), "AA00");
}

#[test]
fn the_grid_a_cq_or_a_reply_carries_is_taken() {
    assert_eq!(message_grid("CQ W1AW FN42").as_deref(), Some("FN42"));
    assert_eq!(message_grid("CQ DX JA1ABC PM95").as_deref(), Some("PM95"));
    assert_eq!(message_grid("W9XYZ W1AW FN42").as_deref(), Some("FN42"));
    assert_eq!(message_grid("cq w1aw fn42").as_deref(), Some("FN42"));
}

#[test]
fn rr73_and_signal_reports_are_not_squares() {
    for text in [
        "W9XYZ W1AW RR73",
        "W9XYZ W1AW RRR",
        "W9XYZ W1AW 73",
        "W9XYZ W1AW -12",
        "W9XYZ W1AW R-12",
        "W9XYZ W1AW R+05",
        "TU; W9XYZ W1AW R 579 MA",
    ] {
        assert!(message_grid(text).is_none(), "{text}");
    }
}

#[test]
fn the_station_the_square_belongs_to_is_named() {
    assert_eq!(message_callsign("CQ W1AW FN42").as_deref(), Some("W1AW"));
    assert_eq!(message_callsign("W9XYZ W1AW FN42").as_deref(), Some("W1AW"));
    assert_eq!(message_callsign("CQ <W1AW> FN42").as_deref(), Some("W1AW"));
}

#[test]
fn a_message_of_one_word_names_no_station() {
    assert_eq!(message_callsign("FN42"), None);
    assert_eq!(message_callsign("   "), None);
    assert_eq!(message_grid(""), None);
}

#[test]
fn only_the_weak_signal_decoders_carry_locators() {
    assert!(is_propagation_kind("ft8"));
    assert!(is_propagation_kind("ft4"));
    assert!(is_propagation_kind("wspr"));
    assert!(!is_propagation_kind("aprs"));
    assert!(!is_propagation_kind("FT8"));
}

#[test]
fn letter_case_and_surrounding_space_do_not_change_a_centre() {
    assert_eq!(grid_to_geo("  jo62qm\t"), grid_to_geo("JO62QM"));
    assert_eq!(grid_to_geo("Fn42Ab37"), grid_to_geo("FN42AB37"));
    assert_eq!(grid_to_geo("SA00"), None);
    assert_eq!(grid_to_geo("AA00YA"), None);
    assert_eq!(grid_to_geo("AA0A"), None);
    assert_eq!(grid_to_geo("AA00A"), None);
}
