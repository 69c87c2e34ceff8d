use faces::stitch::{mode_note, StitchMode};

#[test]
fn each_stitch_mode_says_what_it_does() {
    assert_eq!(
        mode_note(StitchMode::Auto),
        "Tunes the lanes side by side into one gapless span"
    );
    assert_eq!(
        mode_note(StitchMode::Manual),
        "Keeps each lane where it is tuned and joins what they cover"
    );
}
