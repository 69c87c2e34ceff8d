use faces::video::{caption, rgba_of, VideoData};

#[test]
fn a_grey_picture_is_spread_over_all_three_colours() {
    let rgba = rgba_of(VideoData::Gray(&[10, 20]), 2, 1).expect("a picture");
    assert_eq!(rgba, vec![10, 10, 10, 255, 20, 20, 20, 255]);
}

#[test]
fn a_colour_picture_keeps_its_colours() {
    let rgba = rgba_of(VideoData::Rgb(&[1, 2, 3]), 1, 1).expect("a picture");
    assert_eq!(rgba, vec![1, 2, 3, 255]);
}

#[test]
fn a_picture_shorter_than_its_size_is_refused() {
    assert_eq!(rgba_of(VideoData::Gray(&[1, 2, 3]), 2, 2), None);
    assert_eq!(rgba_of(VideoData::Rgb(&[1, 2, 3]), 2, 1), None);
}

#[test]
fn extra_bytes_past_the_picture_are_left_out() {
    assert_eq!(
        rgba_of(VideoData::Rgb(&[1, 2, 3, 4, 5, 6, 7]), 2, 1),
        Some(vec![1, 2, 3, 255, 4, 5, 6, 255])
    );
    assert_eq!(rgba_of(VideoData::Gray(&[]), 0, 7), Some(Vec::new()));
}

#[test]
fn the_caption_says_whether_the_picture_is_still_coming() {
    assert_eq!(caption(None, false), "waiting for sync");
    assert_eq!(caption(Some((320, 240)), true), "320 \u{d7} 240");
    assert_eq!(
        caption(Some((320, 240)), false),
        "320 \u{d7} 240 \u{b7} no sync"
    );
}
