use faces::texture::{history_width, padded_row};

#[test]
fn a_history_row_is_padded_out_to_the_copy_alignment() {
    assert_eq!(history_width(512), 512);
    assert_eq!(history_width(300), 512);
    assert_eq!(history_width(1), 256);
    assert_eq!(history_width(0), 256);
    assert_eq!(history_width(1024), 1024);
}

#[test]
fn a_short_spectrum_is_padded_and_a_long_one_is_cut() {
    assert_eq!(padded_row(&[1, 2, 3], 8), vec![1, 2, 3, 0, 0, 0, 0, 0]);
    assert_eq!(padded_row(&[1, 2, 3, 4], 2), vec![1, 2]);
    assert_eq!(padded_row(&[], 3), vec![0, 0, 0]);
}
