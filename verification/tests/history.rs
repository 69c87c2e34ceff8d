use faces::history::{
    next_ring_row, resample_rows, seed_placement, History, SeedPlacement, SpectrumHistory,
    HISTORY_ROWS,
};

#[derive(Clone, Copy, Debug, Default, PartialEq)]
struct Window {
    db_min: f64,
    db_max: f64,
}

fn meta(db_min: f64, db_max: f64) -> Window {
    Window { db_min, db_max }
}

fn rows_of(history: &SpectrumHistory<Window>) -> Vec<Vec<u8>> {
    history
        .rows
        .chunks(history.bins)
        .map(<[u8]>::to_vec)
        .collect()
}

#[test]
fn resampling_keeps_a_narrow_peak_and_stretches_a_short_row() {
    assert_eq!(resample_rows(&[0, 9, 0, 0], 1, 4, 2), [9, 0]);
    assert_eq!(resample_rows(&[1, 2], 1, 2, 4), [1, 1, 2, 2]);
}

#[test]
fn resampling_with_no_bins_gives_blank_rows() {
    assert_eq!(resample_rows(&[1, 2, 3], 3, 0, 2), [0, 0, 0, 0, 0, 0]);
    assert!(resample_rows(&[1, 2, 3], 3, 1, 0).is_empty());
}

#[test]
fn resampling_keeps_the_peak_of_each_covered_run() {
    assert_eq!(resample_rows(&[1, 5, 2, 7, 3, 4], 2, 3, 1), [5, 7]);
    assert_eq!(resample_rows(&[4, 8, 6], 1, 3, 3), [4, 8, 6]);
}

#[test]
fn a_history_is_empty_until_a_row_arrives() {
    let held: History<Window> = History::default();
    assert_eq!(held.read(), SpectrumHistory::default());
    assert_eq!(held.newest(), None);
}

#[test]
fn a_history_reads_oldest_first_with_its_windows() {
    let mut held = History::default();
    held.record(&[1, 2], meta(-110.0, -20.0));
    held.record(&[3, 4], meta(-100.0, 0.0));
    let read = held.read();
    assert_eq!(rows_of(&read), [vec![1, 2], vec![3, 4]]);
    assert_eq!(read.meta[0].db_min, -110.0);
    assert_eq!(read.meta[1].db_max, 0.0);
    assert_eq!(held.newest().map(|meta| meta.db_min), Some(-100.0));
}

#[test]
fn a_history_keeps_the_newest_rows_once_the_ring_wraps() {
    let mut held = History::default();
    for row in 0..HISTORY_ROWS + 2 {
        held.record(&[(row & 0xff) as u8, 0], meta(-100.0, -20.0));
    }
    let read = held.read();
    assert_eq!(read.count, HISTORY_ROWS);
    let rows = rows_of(&read);
    assert_eq!(rows[0], [2, 0]);
    assert_eq!(rows[rows.len() - 1], [((HISTORY_ROWS + 1) & 0xff) as u8, 0]);
}

#[test]
fn a_history_rescales_what_it_held_when_the_bin_count_changes() {
    let mut held = History::default();
    held.record(&[1, 2], meta(-100.0, -20.0));
    held.record(&[7, 8, 9], meta(-100.0, -20.0));
    let read = held.read();
    assert_eq!(rows_of(&read), [vec![1, 2, 2], vec![7, 8, 9]]);
    assert_eq!(read.meta.len(), 2);
}

#[test]
fn an_empty_row_is_not_recorded() {
    let mut held = History::default();
    held.record(&[5], meta(0.0, 1.0));
    held.record(&[], meta(2.0, 3.0));
    let read = held.read();
    assert_eq!(read.count, 1);
    assert_eq!(held.newest(), Some(meta(0.0, 1.0)));
}

#[test]
fn seeding_lays_rows_at_the_bottom_and_keeps_the_newest() {
    let place = |skip, rows, write| SeedPlacement { skip, rows, write };
    assert_eq!(seed_placement(3, 8), place(0, 3, 3));
    assert_eq!(seed_placement(10, 8), place(2, 8, 0));
    assert_eq!(seed_placement(8, 8), place(0, 8, 0));
    assert_eq!(seed_placement(0, 8), place(0, 0, 0));
}

#[test]
fn the_ring_cursor_wraps_and_visits_every_row() {
    assert_eq!(next_ring_row(0, 4), 1);
    assert_eq!(next_ring_row(3, 4), 0);
    let mut row = 0;
    let mut seen = std::collections::HashSet::new();
    for _ in 0..8 {
        seen.insert(row);
        row = next_ring_row(row, 8);
    }
    assert_eq!(seen.len(), 8);
    assert_eq!(row, 0);
}

#[test]
fn a_ring_of_no_rows_stays_at_row_zero() {
    assert_eq!(next_ring_row(5, 0), 0);
    assert_eq!(seed_placement(4, 0), SeedPlacement { skip: 4, rows: 0, write: 0 });
}

#[test]
fn rows_at_their_own_width_come_back_and_keep_their_levels() {
    let rows = [3, 9, 1, 4, 4, 0];
    assert_eq!(resample_rows(&rows, 2, 3, 3), rows);
    let narrowed = resample_rows(&rows, 2, 3, 2);
    assert_eq!(narrowed.len(), 4);
    assert_eq!(narrowed[..2].iter().max(), rows[..3].iter().max());
    assert_eq!(narrowed[2..].iter().max(), rows[3..].iter().max());
    assert!(narrowed[..2].iter().all(|v| rows[..3].contains(v)));
    assert!(narrowed[2..].iter().all(|v| rows[3..].contains(v)));
}

#[test]
fn reading_after_a_record_adds_the_row_at_the_end() {
    let mut held: History<Window> = History::default();
    held.record(&[1, 2], meta(-100.0, 0.0));
    let before = held.read();
    held.record(&[3, 4], meta(-90.0, 0.0));
    let after = held.read();
    assert_eq!(after.count, before.count + 1);
    let mut expected = before.rows.clone();
    expected.extend_from_slice(&[3, 4]);
    assert_eq!(after.rows, expected);
    assert_eq!(held.newest(), Some(meta(-90.0, 0.0)));
}
