use controlledburn::{coalesce_from, coalesce_runs, coalesce_sorted, GridRun};

fn r(row: i32, a: i32, b: i32, id: i32) -> GridRun {
    GridRun { row, col_start: a, col_end: b, id }
}

#[test]
fn merges_neighbours_only() {
    let mut v = vec![r(1, 3, 4, 1), r(1, 4, 5, 1), r(1, 5, 6, 1), r(1, 7, 10, 1), r(2, 1, 2, 1), r(1, 6, 7, 2)];
    coalesce_runs(&mut v);
    assert_eq!(v, vec![r(1, 3, 6, 1), r(1, 7, 10, 1), r(2, 1, 2, 1), r(1, 6, 7, 2)]);
}

#[test]
fn coalesce_runs_sorts_by_id_row_col() {
    let mut v = vec![r(2, 0, 1, 1), r(0, 5, 6, 2), r(0, 0, 2, 1), r(0, 2, 4, 1), r(0, 1, 3, 1)];
    coalesce_runs(&mut v);
    assert_eq!(v, vec![r(0, 0, 4, 1), r(2, 0, 1, 1), r(0, 5, 6, 2)]);
}

#[test]
fn coalesce_sorted_keeps_input_order() {
    // Not sorted: the pass folds a run into its predecessor whenever it
    // starts no later than the predecessor ends, and never reorders.
    let mut v = vec![r(0, 4, 6, 1), r(0, 0, 2, 1), r(0, 2, 3, 1)];
    coalesce_sorted(&mut v);
    assert_eq!(v, vec![r(0, 4, 6, 1)]);
    let mut v = vec![r(1, 4, 6, 1), r(0, 0, 2, 1), r(0, 2, 3, 1)];
    coalesce_sorted(&mut v);
    assert_eq!(v, vec![r(1, 4, 6, 1), r(0, 0, 3, 1)]);
}

#[test]
fn coalesce_sorted_overlap_and_containment() {
    let mut v = vec![r(3, 0, 10, 7), r(3, 2, 5, 7), r(3, 10, 12, 7), r(3, 13, 14, 7)];
    coalesce_sorted(&mut v);
    assert_eq!(v, vec![r(3, 0, 12, 7), r(3, 13, 14, 7)]);
}

#[test]
fn coalesce_is_idempotent() {
    let mut v = vec![r(1, 3, 4, 1), r(1, 4, 5, 1), r(2, 1, 2, 1), r(1, 6, 7, 2)];
    coalesce_runs(&mut v);
    let once = v.clone();
    coalesce_runs(&mut v);
    assert_eq!(v, once);
}

#[test]
fn coalesce_empty_and_single() {
    let mut v: Vec<GridRun> = vec![];
    coalesce_runs(&mut v);
    assert!(v.is_empty());
    let mut v = vec![r(0, 1, 2, 1)];
    coalesce_sorted(&mut v);
    assert_eq!(v, vec![r(0, 1, 2, 1)]);
}

#[test]
fn coalesce_from_leaves_prefix() {
    let mut v = vec![r(0, 0, 1, 1), r(0, 1, 2, 1), r(0, 0, 1, 2), r(0, 1, 2, 2)];
    coalesce_from(&mut v, 2);
    assert_eq!(v, vec![r(0, 0, 1, 1), r(0, 1, 2, 1), r(0, 0, 2, 2)]);
    coalesce_from(&mut v, 3);
    assert_eq!(v.len(), 3);
}

#[test]
fn coalescing_keeps_covered_cells() {
    let mut v = vec![r(0, 2, 4, 1), r(0, 0, 3, 1), r(0, 6, 7, 1), r(0, 4, 5, 1)];
    let cells = |runs: &[GridRun]| {
        let mut c: Vec<(i32, i32, i32)> =
            runs.iter().flat_map(|x| (x.col_start..x.col_end).map(move |col| (x.id, x.row, col))).collect();
        c.sort();
        c.dedup();
        c
    };
    let before = cells(&v);
    coalesce_runs(&mut v);
    assert_eq!(cells(&v), before);
    assert_eq!(v, vec![r(0, 0, 5, 1), r(0, 6, 7, 1)]);
}
