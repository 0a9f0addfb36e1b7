use controlledburn::lines::sort_lines_from;
use controlledburn::sweep::{emit_boundary_row, emit_centre_runs, BoundaryCell, CellCover, RowCrossing};
use controlledburn::walker::step_cell;
use controlledburn::{GridEdge, GridLine, GridRun, Side};

fn r(row: i32, a: i32, b: i32, id: i32) -> GridRun {
    GridRun { row, col_start: a, col_end: b, id }
}

fn x(col: i64, left_of_center: bool, delta: i32) -> RowCrossing {
    RowCrossing { col, left_of_center, delta }
}

fn centre(crossings: &[RowCrossing], ncol: i64) -> Vec<GridRun> {
    let mut runs = Vec::new();
    emit_centre_runs(3, crossings, ncol, 9, &mut runs);
    runs
}

#[test]
fn centre_sweep_enter_and_leave_before_centres() {
    // In before the centre of column 2, out before the centre of column 5.
    assert_eq!(centre(&[x(2, true, 1), x(5, true, -1)], 10), vec![r(3, 2, 5, 9)]);
}

#[test]
fn centre_sweep_enter_and_leave_after_centres() {
    // In after the centre of column 2: column 2 is outside; out after the
    // centre of column 5: column 5 is inside.
    assert_eq!(centre(&[x(2, false, 1), x(5, false, -1)], 10), vec![r(3, 3, 6, 9)]);
}

#[test]
fn centre_sweep_open_run_reaches_right_edge() {
    assert_eq!(centre(&[x(7, true, 1)], 10), vec![r(3, 7, 10, 9)]);
    // Leaving after the centre of the last column stops at the edge.
    assert_eq!(centre(&[x(8, true, 1), x(9, false, -1)], 10), vec![r(3, 8, 10, 9)]);
}

#[test]
fn centre_sweep_nonzero_winding_and_holes() {
    // Two nested entries and exits form one run.
    assert_eq!(centre(&[x(1, true, 1), x(2, true, 1), x(6, true, -1), x(8, true, -1)], 10), vec![r(3, 1, 8, 9)]);
    // Exterior 1..9 with a hole 4..6: two runs.
    assert_eq!(
        centre(&[x(1, true, 1), x(4, true, -1), x(6, true, 1), x(9, true, -1)], 10),
        vec![r(3, 1, 4, 9), r(3, 6, 9, 9)]
    );
}

#[test]
fn centre_sweep_narrow_sliver_claims_nothing() {
    // In and out within one cell, both left of its centre.
    assert_eq!(centre(&[x(4, true, 1), x(4, true, -1)], 10), vec![]);
    // In after one centre, out before the next: no centre is inside.
    assert_eq!(centre(&[x(4, false, 1), x(5, true, -1)], 10), vec![]);
    assert_eq!(centre(&[], 10), vec![]);
}

#[test]
fn centre_sweep_appends_after_existing_runs() {
    let mut runs = vec![r(0, 0, 1, 1)];
    emit_centre_runs(3, &[x(2, true, 1), x(5, true, -1)], 10, 9, &mut runs);
    assert_eq!(runs, vec![r(0, 0, 1, 1), r(3, 2, 5, 9)]);
}

fn cell(col: i64, cover: CellCover, winding_delta: i32) -> BoundaryCell {
    BoundaryCell { col, cover, winding_delta }
}

#[test]
fn boundary_sweep_runs_edges_and_interior() {
    let half = 0.5f32.to_bits();
    let quarter = 0.25f32.to_bits();
    let cells = [
        cell(-1, CellCover::Empty, 1),
        cell(0, CellCover::Partial(half), 0),
        cell(3, CellCover::Full, 0),
        cell(5, CellCover::Empty, -1),
        cell(6, CellCover::Partial(quarter), 0),
    ];
    let mut runs = Vec::new();
    let mut edges = Vec::new();
    emit_boundary_row(4, &cells, 7, &mut runs, &mut edges);
    assert_eq!(runs, vec![r(4, 1, 3, 7), r(4, 3, 4, 7), r(4, 4, 5, 7)]);
    assert_eq!(
        edges,
        vec![
            GridEdge { row: 4, col: 0, fraction_bits: half, id: 7 },
            GridEdge { row: 4, col: 6, fraction_bits: quarter, id: 7 },
        ]
    );
}

#[test]
fn boundary_sweep_zero_winding_leaves_gaps() {
    let cells = [cell(1, CellCover::Full, 0), cell(4, CellCover::Full, 0)];
    let mut runs = Vec::new();
    let mut edges = Vec::new();
    emit_boundary_row(0, &cells, 2, &mut runs, &mut edges);
    assert_eq!(runs, vec![r(0, 1, 2, 2), r(0, 4, 5, 2)]);
    assert!(edges.is_empty());
}

#[test]
fn boundary_sweep_right_padding_closes_interior() {
    // Winding opened in the left padding column runs to the right padding
    // column: the whole row of a grid 5 cells wide.
    let cells = [cell(-1, CellCover::Empty, 1), cell(5, CellCover::Empty, -1)];
    let mut runs = Vec::new();
    let mut edges = Vec::new();
    emit_boundary_row(2, &cells, 0, &mut runs, &mut edges);
    assert_eq!(runs, vec![r(2, 0, 5, 0)]);
}

fn line(row: i32, col: i32, id: i32) -> GridLine {
    GridLine { row, col, length_bits: 1.0f32.to_bits(), id }
}

#[test]
fn line_records_sorted_row_major_from_first() {
    let mut lines = vec![line(9, 9, 0), line(2, 1, 1), line(1, 5, 1), line(1, 2, 1), line(2, 1, 2)];
    sort_lines_from(&mut lines, 1);
    assert_eq!(lines, vec![line(9, 9, 0), line(1, 2, 1), line(1, 5, 1), line(2, 1, 1), line(2, 1, 2)]);
    let mut none: Vec<GridLine> = vec![line(3, 3, 0)];
    sort_lines_from(&mut none, 1);
    assert_eq!(none, vec![line(3, 3, 0)]);
}

#[test]
fn walker_steps_to_neighbours() {
    assert_eq!(step_cell(3, 4, Side::Top), Some((2, 4)));
    assert_eq!(step_cell(3, 4, Side::Bottom), Some((4, 4)));
    assert_eq!(step_cell(3, 4, Side::Left), Some((3, 3)));
    assert_eq!(step_cell(3, 4, Side::Right), Some((3, 5)));
    assert_eq!(step_cell(0, 4, Side::Top), None);
    assert_eq!(step_cell(3, 0, Side::Left), None);
}
