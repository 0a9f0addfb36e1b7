use controlledburn::crop::clamp_window;
use controlledburn::{
    crop_tables, materialize_plan, BurnError, BurnMode, BurnOptions, BurnResult, CropWindow, GridEdge, GridLine,
    GridPoint, GridRun, PixelWrite,
};

fn r(row: i32, a: i32, b: i32, id: i32) -> GridRun {
    GridRun { row, col_start: a, col_end: b, id }
}

#[test]
fn options_builders() {
    let d = BurnOptions::default();
    assert_eq!(d, BurnOptions { mode: BurnMode::Coverage, coalesce_runs: true });
    assert_eq!(BurnOptions::coverage(), d);
    assert_eq!(BurnOptions::approx(), BurnOptions { mode: BurnMode::Approx, coalesce_runs: true });
    assert_eq!(BurnOptions::parity(BurnMode::Approx), BurnOptions { mode: BurnMode::Approx, coalesce_runs: false });
    assert_eq!(d.with_mode(BurnMode::Approx).with_coalesce_runs(false), BurnOptions::parity(BurnMode::Approx));
    assert_eq!(BurnOptions::from(BurnMode::Approx), BurnOptions::approx());
    assert_eq!(BurnMode::default(), BurnMode::Coverage);
}

#[test]
fn run_cells_sums_half_open_lengths() {
    let mut res = BurnResult::new();
    assert_eq!(res.run_cells(), 0);
    assert!(res.is_empty());
    res.runs = vec![r(2, 2, 6, 1), r(3, 2, 6, 1), r(4, 2, 6, 1), r(5, 2, 6, 1)];
    assert_eq!(res.run_cells(), 16);
    assert!(!res.is_empty());
    res.runs.push(r(0, 5, 5, 2));
    assert_eq!(res.run_cells(), 16);
}

#[test]
fn notes_record_index_and_message() {
    let mut res = BurnResult::new();
    res.note(3, "boom".to_string());
    assert_eq!(res.notes.len(), 1);
    assert_eq!((res.notes[0].geom_index, res.notes[0].message.as_str()), (3, "boom"));
    assert!(res.is_empty());
}

fn sample() -> BurnResult {
    let mut res = BurnResult::new();
    res.runs = vec![r(5, 3, 9, 1), r(2, 1, 2, 1), r(6, 7, 10, 1), r(7, 8, 10, 1)];
    res.edges = vec![
        GridEdge { row: 4, col: 4, fraction_bits: 0.5f32.to_bits(), id: 1 },
        GridEdge { row: 4, col: 9, fraction_bits: 0.25f32.to_bits(), id: 1 },
    ];
    res.lines = vec![GridLine { row: 7, col: 7, length_bits: 1.5f32.to_bits(), id: 2 }];
    res.points = vec![GridPoint { row: 2, col: 2, id: 3 }, GridPoint { row: 6, col: 6, id: 3 }];
    res.note(1, "n".to_string());
    res
}

#[test]
fn crop_clips_and_rebases() {
    // Rows 4..8 and columns 3..8 of the grid, 0-based and half-open.
    let w = CropWindow { col_lo: 3, col_hi: 8, row_lo: 4, row_hi: 8 };
    let c = crop_tables(&sample(), w);
    // (5, 3..9) is clipped to the window; (7, 8..10) starts at its right edge.
    assert_eq!(c.runs, vec![r(1, 0, 5, 1), r(2, 4, 5, 1)]);
    assert_eq!(c.edges, vec![GridEdge { row: 0, col: 1, fraction_bits: 0.5f32.to_bits(), id: 1 }]);
    assert_eq!(c.lines, vec![GridLine { row: 3, col: 4, length_bits: 1.5f32.to_bits(), id: 2 }]);
    assert_eq!(c.points, vec![GridPoint { row: 2, col: 3, id: 3 }]);
    assert_eq!(c.notes, sample().notes);
    for x in &c.runs {
        assert!(x.row >= 0 && x.row < 4 && x.col_start >= 0 && x.col_start < x.col_end && x.col_end <= 5);
    }
}

#[test]
fn crop_full_window_is_identity() {
    let mut res = BurnResult::new();
    res.points = vec![GridPoint { row: 0, col: 0, id: 1 }, GridPoint { row: 9, col: 9, id: 1 }];
    let c = crop_tables(&res, CropWindow { col_lo: 0, col_hi: 10, row_lo: 0, row_hi: 10 });
    assert_eq!(c.points, res.points);
    let c = crop_tables(&res, CropWindow { col_lo: 1, col_hi: 9, row_lo: 1, row_hi: 9 });
    assert!(c.points.is_empty());
}

#[test]
fn crop_then_plan_cuts_the_full_plan() {
    let full = sample();
    let (writes, ok) = materialize_plan(&full, 100, 10, 10, None);
    assert!(ok.is_ok());
    let w = CropWindow { col_lo: 3, col_hi: 8, row_lo: 4, row_hi: 8 };
    let tile = crop_tables(&full, w);
    let (tile_writes, ok) = materialize_plan(&tile, 20, 5, 4, None);
    assert!(ok.is_ok());
    let expected: Vec<PixelWrite> = writes
        .iter()
        .filter(|x| {
            let (row, col) = ((x.index / 10) as i32, (x.index % 10) as i32);
            row >= w.row_lo && row < w.row_hi && col >= w.col_lo && col < w.col_hi
        })
        .map(|x| {
            let (row, col) = ((x.index / 10) as i32, (x.index % 10) as i32);
            PixelWrite { index: ((row - w.row_lo) * 5 + (col - w.col_lo)) as usize, ..*x }
        })
        .collect();
    assert_eq!(tile_writes, expected);
    assert_eq!(tile_writes.len(), 7);
}

#[test]
fn burn_error_messages() {
    assert_eq!(
        BurnError::IdOutOfRange { id: -3, values: 0 }.message(),
        "materialize: geometry id -3 exceeds values size 0"
    );
    assert_eq!(BurnError::InvalidBuffer("invalid dimensions".to_string()).message(), "materialize: invalid dimensions");
    assert_eq!(
        BurnError::IdOutOfRange { id: i32::MIN, values: 12 }.message(),
        "materialize: geometry id -2147483648 exceeds values size 12"
    );
}

#[test]
fn crop_window_is_clamped_to_the_grid() {
    assert_eq!(
        clamp_window(3, 7, 1, 5, 10, 10),
        Some(CropWindow { col_lo: 3, col_hi: 7, row_lo: 1, row_hi: 5 })
    );
    assert_eq!(
        clamp_window(-5, 15, -5, 15, 10, 10),
        Some(CropWindow { col_lo: 0, col_hi: 10, row_lo: 0, row_hi: 10 })
    );
    assert_eq!(clamp_window(100, 200, -190, -90, 10, 10), None);
    assert_eq!(clamp_window(3, 3, 0, 1, 10, 10), None);
}
