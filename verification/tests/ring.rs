use faces::colormap::Colormap;
use faces::ring::{Pending, Ring, Upload, WaterfallFeed, FIRST_BINS};

fn rows_written(ring: &mut Ring, pending: &Pending<f64>) -> Vec<(usize, usize)> {
    ring.apply(pending)
        .into_iter()
        .filter_map(|upload| match upload {
            Upload::Rows { at, count, .. } => Some((at, count)),
            Upload::Reallocate(_) => None,
        })
        .collect()
}

#[test]
fn a_row_lands_at_the_cursor_which_then_moves_on() {
    let mut ring = Ring::new();
    assert_eq!(
        rows_written(&mut ring, &Pending::Row(vec![0; FIRST_BINS])),
        [(0, 1)]
    );
    assert_eq!(
        rows_written(&mut ring, &Pending::Row(vec![0; FIRST_BINS])),
        [(1, 1)]
    );
    assert_eq!(ring.write, 2);
}

#[test]
fn a_new_bin_count_clears_the_ring_first() {
    let mut ring = Ring::new();
    ring.apply(&Pending::<f64>::Row(vec![0; FIRST_BINS]));
    let mut reallocated = None;
    for upload in ring.apply(&Pending::<f64>::Row(vec![0; 8])) {
        if let Upload::Reallocate(bins) = upload {
            reallocated = Some(bins);
        }
    }
    assert_eq!(reallocated, Some(8));
    assert_eq!(ring.write, 1);
}

#[test]
fn a_seed_keeps_the_newest_rows_and_leaves_the_cursor_above_them() {
    let mut ring = Ring::new();
    let rows = vec![0u8; 3 * 4];
    let written = rows_written(
        &mut ring,
        &Pending::Seed {
            rows,
            count: 3,
            bins: 4,
        },
    );
    assert_eq!(written, [(0, 3)]);
    assert_eq!((ring.bins, ring.write), (4, 3));
}

#[test]
fn a_seed_longer_than_the_ring_keeps_its_newest_rows() {
    let mut ring = Ring::new();
    let count = 1030;
    let rows: Vec<u8> = (0..count).map(|row| (row % 256) as u8).collect();
    let pending = Pending::<f64>::Seed { rows, count, bins: 1 };
    let uploads = ring.apply(&pending);
    match &uploads[1] {
        Upload::Rows { at, rows, count } => {
            assert_eq!((*at, *count, rows.len()), (0, 1024, 1024));
            assert_eq!(rows[0], 6);
        }
        Upload::Reallocate(_) => panic!("rows come second"),
    }
    assert_eq!(ring.write, 0);
}

#[test]
fn an_empty_seed_and_a_shift_upload_nothing() {
    let mut ring = Ring::new();
    let empty = Pending::<f64>::Seed { rows: Vec::new(), count: 0, bins: 4 };
    assert!(ring.apply(&empty).is_empty());
    assert!(ring.apply(&Pending::Shift(0.5)).is_empty());
    assert_eq!((ring.bins, ring.write), (FIRST_BINS, 0));
}

#[test]
fn the_feed_drops_rows_a_seed_replaces_and_ignores_no_ops() {
    let mut feed: WaterfallFeed<f64> = WaterfallFeed::new();
    feed.push_row(&[1, 2]);
    feed.push_row(&[]);
    feed.push_shift(0.1);
    feed.seed(vec![0; 4], 2, 2);
    feed.seed(vec![0; 4], 2, 0);
    assert_eq!(feed.pending.len(), 2);
    assert!(matches!(feed.pending[0], Pending::Shift(_)));
    assert!(matches!(feed.pending[1], Pending::Seed { count: 2, bins: 2, .. }));
    feed.changed = false;
    feed.set_colormap(Colormap::Classic);
    assert!(!feed.changed);
    feed.set_colormap(Colormap::Viridis);
    assert!(feed.changed);
    assert_eq!(feed.take_pending().len(), 2);
    assert!(feed.pending.is_empty());
}
