use controlledburn::{
    materialize_plan, BurnError, BurnResult, EdgePolicy, GridEdge, GridRun, MaterializeOptions, PixelFn, PixelWrite,
};

fn run(row: i32, a: i32, b: i32, id: i32) -> GridRun {
    GridRun { row, col_start: a, col_end: b, id }
}

fn w(index: usize, id: i32, edge: Option<f32>) -> PixelWrite {
    PixelWrite { index, id, edge_fraction_bits: edge.map(|f| f.to_bits()) }
}

#[test]
fn plan_clips_runs_and_drops_outside_cells() {
    let mut r = BurnResult::new();
    r.runs = vec![run(0, -2, 2, 1), run(3, 0, 5, 1), run(1, 3, 9, 2), run(-1, 0, 4, 1)];
    r.edges = vec![
        GridEdge { row: 2, col: 1, fraction_bits: 0.5f32.to_bits(), id: 1 },
        GridEdge { row: 2, col: 4, fraction_bits: 0.5f32.to_bits(), id: 1 },
    ];
    let (writes, outcome) = materialize_plan(&r, 12, 4, 3, None);
    assert_eq!(outcome, Ok(()));
    assert_eq!(writes, vec![w(0, 1, None), w(1, 1, None), w(7, 2, None), w(9, 1, Some(0.5))]);
}

#[test]
fn plan_rejects_bad_buffers() {
    let r = BurnResult::new();
    let (writes, outcome) = materialize_plan(&r, 100, 10, 9, None);
    assert!(writes.is_empty());
    assert_eq!(
        outcome,
        Err(BurnError::InvalidBuffer("buffer length 100 does not match ncol * nrow = 90".to_string()))
    );
    let (_, outcome) = materialize_plan(&r, 0, 0, 9, None);
    assert_eq!(outcome, Err(BurnError::InvalidBuffer("invalid dimensions".to_string())));
}

#[test]
fn plan_stops_at_missing_value() {
    // Ids count from 1: one value serves id 1 only.
    let mut r = BurnResult::new();
    r.runs = vec![run(0, 0, 2, 1), run(1, 0, 1, 2), run(1, 1, 2, 1)];
    let (writes, outcome) = materialize_plan(&r, 4, 2, 2, Some(1));
    assert_eq!(writes, vec![w(0, 1, None), w(1, 1, None)]);
    assert_eq!(outcome, Err(BurnError::IdOutOfRange { id: 2, values: 1 }));
    // Id 0 has no value.
    r.runs = vec![run(0, 0, 1, 0)];
    let (writes, outcome) = materialize_plan(&r, 4, 2, 2, Some(1));
    assert!(writes.is_empty());
    assert_eq!(outcome, Err(BurnError::IdOutOfRange { id: 0, values: 1 }));
    // Without values every id is burned as itself.
    let (writes, outcome) = materialize_plan(&r, 4, 2, 2, None);
    assert_eq!(writes, vec![w(0, 0, None)]);
    assert_eq!(outcome, Ok(()));
    // An out-of-grid run needs no value.
    r.runs = vec![run(5, 0, 2, 9)];
    let (writes, outcome) = materialize_plan(&r, 4, 2, 2, Some(0));
    assert!(writes.is_empty());
    assert_eq!(outcome, Ok(()));
}

/// Applying a plan the way a caller does: sum of value * fraction.
#[test]
fn materialize_policies_over_a_plan() {
    // A 4x4 square offset by half a cell, the first geometry (id 1): 3x3
    // interior, 12 side cells at 0.5 and 4 corners at 0.25, on a 10x10 grid.
    let mut r = BurnResult::new();
    for row in 5..8 {
        r.runs.push(run(row, 3, 6, 1));
    }
    let mut edge = |row: i32, col: i32, f: f32| r.edges.push(GridEdge { row, col, fraction_bits: f.to_bits(), id: 1 });
    for col in 3..6 {
        edge(4, col, 0.5);
        edge(8, col, 0.5);
    }
    for row in 5..8 {
        edge(row, 2, 0.5);
        edge(row, 6, 0.5);
    }
    for (row, col) in [(4, 2), (4, 6), (8, 2), (8, 6)] {
        edge(row, col, 0.25);
    }
    let opts = MaterializeOptions::default();
    assert_eq!((opts.fn_, opts.edge_policy, f64::from_bits(opts.threshold_bits)), (PixelFn::Last, EdgePolicy::Threshold, 0.5));
    let (writes, outcome) = materialize_plan(&r, 100, 10, 10, Some(1));
    assert_eq!(outcome, Ok(()));
    let touched_at_threshold = writes
        .iter()
        .filter(|x| x.edge_fraction_bits.map_or(true, |b| f32::from_bits(b) as f64 >= 0.5))
        .count();
    assert_eq!(touched_at_threshold, 21);
    let total: f64 = writes
        .iter()
        .map(|x| 2.0 * x.edge_fraction_bits.map_or(1.0, |b| f32::from_bits(b) as f64))
        .sum();
    assert!((total - 32.0).abs() < 1e-9);
}
