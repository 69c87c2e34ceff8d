use faces::readout::{has_view, title};

#[test]
fn only_decoders_with_their_own_view_are_shown_in_one() {
    assert!(has_view("adsb"));
    assert!(has_view("dect"));
    assert!(has_view("broadcast_data"));
    assert!(!has_view("ft8"));
    assert!(!has_view(""));
}

#[test]
fn a_transcript_is_headed_by_its_decoder() {
    assert_eq!(title("morse"), "Morse");
    assert_eq!(title("psk"), "PSK");
    assert_eq!(title("rtty"), "RTTY");
    assert_eq!(title("anything"), "RTTY");
}
