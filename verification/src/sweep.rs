//! The integer half of the two row sweeps that turn boundary information
//! into runs.
//!
//! Cell-centre rule (Approx mode): along one row, the polygon's edges
//! cross the row's centre line; each crossing, in order of x, carries its
//! cell column, whether it lies at or left of that cell's centre, and its
//! winding change. A cell is inside when the winding number at its centre
//! is non-zero.
//!
//! Coverage mode: along one row, the boundary cells in column order carry
//! their classification (partly covered with a fraction, fully covered, or
//! not covered) and their winding change; cells between two boundary
//! cells are inside when the winding number there is non-zero.
//!
//! Computing crossings, fractions and classifications is `f64`
//! arithmetic done by the caller.

use vstd::prelude::*;
use crate::output::{GridEdge, GridRun};

verus! {

/// A crossing of the row's centre line by a polygon edge.
#[derive(Clone, Copy, Debug, PartialEq, Eq, Structural)]
pub struct RowCrossing {
    /// Column of the cell the crossing lies in, clamped to the grid.
    pub col: i64,
    /// The crossing lies at or left of that cell's centre.
    pub left_of_center: bool,
    /// Winding change, +1 or -1.
    pub delta: i32,
}

/// Sweep state: winding number, start of the open run (or -1), runs so far.
pub type CentreState = (int, int, Seq<GridRun>);

pub open spec fn run_of(row: i32, start: int, end: int, id: i32) -> GridRun {
    GridRun { row, col_start: start as i32, col_end: end as i32, id }
}

/// One crossing of the cell-centre sweep.
pub open spec fn centre_step(st: CentreState, c: RowCrossing, row: i32, ncol: int, id: i32) -> CentreState {
    let (winding, run_start, out) = st;
    let col = c.col as int;
    let new_winding = winding + c.delta;
    if c.left_of_center {
        if winding != 0 && new_winding == 0 {
            // Leaving before the centre: the run ends before this cell.
            let out2 = if run_start >= 0 && run_start < col {
                out.push(run_of(row, run_start, col, id))
            } else {
                out
            };
            (new_winding, -1, out2)
        } else if winding == 0 && new_winding != 0 {
            // Entering before the centre: this cell is inside.
            (new_winding, col, out)
        } else {
            (new_winding, run_start, out)
        }
    } else if winding != 0 && new_winding == 0 {
        // Leaving after the centre: this cell is inside.
        let start = if run_start < 0 {
            col
        } else {
            run_start
        };
        let end = if col + 1 < ncol {
            col + 1
        } else {
            ncol
        };
        let out2 = if start < end {
            out.push(run_of(row, start, end, id))
        } else {
            out
        };
        (new_winding, -1, out2)
    } else if winding == 0 && new_winding != 0 {
        // Entering after the centre: the run starts after this cell.
        (new_winding, col + 1, out)
    } else {
        (new_winding, run_start, out)
    }
}

pub open spec fn centre_fold(s: Seq<RowCrossing>, row: i32, ncol: int, id: i32) -> CentreState
    decreases s.len(),
{
    if s.len() == 0 {
        (0, -1, Seq::empty())
    } else {
        centre_step(centre_fold(s.drop_last(), row, ncol, id), s.last(), row, ncol, id)
    }
}

/// The runs of one row under the cell-centre rule; a run still open at
/// the end extends to the grid's right edge.
pub open spec fn centre_runs(s: Seq<RowCrossing>, row: i32, ncol: int, id: i32) -> Seq<GridRun> {
    let (winding, run_start, out) = centre_fold(s, row, ncol, id);
    if winding != 0 && run_start >= 0 && run_start < ncol {
        out.push(run_of(row, run_start, ncol, id))
    } else {
        out
    }
}

/// The crossings the sweep accepts: columns inside the grid, unit
/// winding changes.
pub open spec fn crossings_ok(s: Seq<RowCrossing>, ncol: int) -> bool {
    forall|k: int|
        0 <= k < s.len() ==> 0 <= (#[trigger] s[k]).col < ncol && (s[k].delta == 1 || s[k].delta == -1)
}

proof fn lemma_centre_fold_bounds(s: Seq<RowCrossing>, row: i32, ncol: int, id: i32)
    requires
        crossings_ok(s, ncol),
        1 <= ncol <= i32::MAX,
    ensures
        ({
            let (w, rs, out) = centre_fold(s, row, ncol, id);
            &&& -s.len() <= w <= s.len()
            &&& -1 <= rs <= ncol
            &&& forall|k: int|
                0 <= k < out.len() ==> 0 <= (#[trigger] out[k]).col_start < out[k].col_end <= ncol && out[k].row == row
                    && out[k].id == id
        }),
    decreases s.len(),
{
    if s.len() > 0 {
        let p = s.drop_last();
        assert(crossings_ok(p, ncol)) by {
            assert forall|k: int| 0 <= k < p.len() implies 0 <= (#[trigger] p[k]).col < ncol && (p[k].delta == 1
                || p[k].delta == -1) by {
                assert(p[k] == s[k]);
            }
        }
        lemma_centre_fold_bounds(p, row, ncol, id);
        assert(s.last() == s[s.len() - 1]);
        let (w, rs, out) = centre_fold(p, row, ncol, id);
        let (w2, rs2, out2) = centre_fold(s, row, ncol, id);
        assert forall|k: int| 0 <= k < out2.len() implies 0 <= (#[trigger] out2[k]).col_start < out2[k].col_end
            <= ncol && out2[k].row == row && out2[k].id == id by {
            if k < out.len() {
                assert(out2[k] == out[k]);
            }
        }
    }
}

/// Under the cell-centre rule every run lies on its row, inside the grid
/// and is non-empty.
pub proof fn law_centre_runs_in_grid(s: Seq<RowCrossing>, row: i32, ncol: int, id: i32)
    requires
        crossings_ok(s, ncol),
        1 <= ncol <= i32::MAX,
    ensures
        forall|k: int|
            0 <= k < centre_runs(s, row, ncol, id).len() ==> {
                let r = #[trigger] centre_runs(s, row, ncol, id)[k];
                0 <= r.col_start < r.col_end <= ncol && r.row == row && r.id == id
            },
{
    lemma_centre_fold_bounds(s, row, ncol, id);
    let (w, rs, out) = centre_fold(s, row, ncol, id);
    let res = centre_runs(s, row, ncol, id);
    assert forall|k: int| 0 <= k < res.len() implies {
        let r = #[trigger] res[k];
        0 <= r.col_start < r.col_end <= ncol && r.row == row && r.id == id
    } by {
        if k < out.len() {
            assert(res[k] == out[k]);
        }
    }
}

/// Crossings in order of x: columns never decrease, and within one cell
/// the crossings left of its centre come first.
pub open spec fn crossings_ordered(s: Seq<RowCrossing>) -> bool {
    forall|i: int, j: int|
        0 <= i < j < s.len() ==> (#[trigger] s[i]).col <= (#[trigger] s[j]).col && (s[i].col == s[j].col
            && s[j].left_of_center ==> s[i].left_of_center)
}

/// Runs ordered along the row without overlap.
pub open spec fn runs_ordered(out: Seq<GridRun>) -> bool {
    forall|k: int| 0 <= k < out.len() - 1 ==> (#[trigger] out[k]).col_end <= out[k + 1].col_start
}

/// No run of `out` reaches beyond column `b`.
pub open spec fn ends_by(out: Seq<GridRun>, b: int) -> bool {
    forall|k: int| 0 <= k < out.len() ==> (#[trigger] out[k]).col_end <= b
}

/// The column after which no cell can still be claimed once crossing `c`
/// is passed.
pub open spec fn crossing_bound(c: RowCrossing) -> int {
    if c.left_of_center {
        c.col as int
    } else {
        c.col + 1
    }
}

proof fn lemma_centre_fold_ordered(s: Seq<RowCrossing>, row: i32, ncol: int, id: i32)
    requires
        crossings_ok(s, ncol),
        crossings_ordered(s),
        1 <= ncol <= i32::MAX,
    ensures
        ({
            let (w, rs, out) = centre_fold(s, row, ncol, id);
            &&& w != 0 ==> rs >= 0
            &&& w == 0 ==> rs == -1
            &&& runs_ordered(out)
            &&& s.len() > 0 ==> ends_by(out, crossing_bound(s.last()))
            &&& rs >= 0 ==> ends_by(out, rs)
        }),
    decreases s.len(),
{
    lemma_centre_fold_bounds(s, row, ncol, id);
    if s.len() > 0 {
        let p = s.drop_last();
        assert(crossings_ok(p, ncol)) by {
            assert forall|k: int| 0 <= k < p.len() implies 0 <= (#[trigger] p[k]).col < ncol && (p[k].delta == 1
                || p[k].delta == -1) by {
                assert(p[k] == s[k]);
            }
        }
        assert(crossings_ordered(p)) by {
            assert forall|i: int, j: int| 0 <= i < j < p.len() implies (#[trigger] p[i]).col <= (#[trigger] p[j]).col
                && (p[i].col == p[j].col && p[j].left_of_center ==> p[i].left_of_center) by {
                assert(p[i] == s[i] && p[j] == s[j]);
            }
        }
        lemma_centre_fold_ordered(p, row, ncol, id);
        lemma_centre_fold_bounds(p, row, ncol, id);
        let c = s.last();
        assert(c == s[s.len() - 1]);
        assert(0 <= c.col < ncol && (c.delta == 1 || c.delta == -1));
        let (w, rs, out) = centre_fold(p, row, ncol, id);
        let (w2, rs2, out2) = centre_fold(s, row, ncol, id);
        if p.len() > 0 {
            let l = p.last();
            assert(l == s[s.len() - 2]);
            assert(l.col <= c.col && (l.col == c.col && c.left_of_center ==> l.left_of_center));
            assert(c.left_of_center ==> crossing_bound(l) <= c.col);
            assert(crossing_bound(l) <= c.col + 1);
        }
        assert forall|k: int| 0 <= k < out2.len() implies (#[trigger] out2[k]).col_end <= crossing_bound(c) by {
            if k < out.len() {
                assert(out2[k] == out[k]);
            }
        }
        assert forall|k: int| 0 <= k < out2.len() - 1 implies (#[trigger] out2[k]).col_end <= out2[k + 1].col_start by {
            if k + 1 < out.len() {
                assert(out2[k] == out[k] && out2[k + 1] == out[k + 1]);
            } else {
                assert(out2[k] == out[k]);
            }
        }
        if rs2 >= 0 {
            assert forall|k: int| 0 <= k < out2.len() implies (#[trigger] out2[k]).col_end <= rs2 by {
                if k < out.len() {
                    assert(out2[k] == out[k]);
                }
            }
        }
    }
}

/// Under the cell-centre rule, with crossings in order of x, the runs of
/// a row follow one another along the row without overlapping.
pub proof fn law_centre_runs_ordered(s: Seq<RowCrossing>, row: i32, ncol: int, id: i32)
    requires
        crossings_ok(s, ncol),
        crossings_ordered(s),
        1 <= ncol <= i32::MAX,
    ensures
        runs_ordered(centre_runs(s, row, ncol, id)),
{
    lemma_centre_fold_ordered(s, row, ncol, id);
    let (w, rs, out) = centre_fold(s, row, ncol, id);
    let res = centre_runs(s, row, ncol, id);
    assert forall|k: int| 0 <= k < res.len() - 1 implies (#[trigger] res[k]).col_end <= res[k + 1].col_start by {
        if k + 1 < out.len() {
            assert(res[k] == out[k] && res[k + 1] == out[k + 1]);
        } else {
            assert(res[k] == out[k]);
        }
    }
}

/// Crossing `x` lies before the centre of cell `c`; a crossing exactly at
/// the centre counts as before it.
pub open spec fn before_centre(x: RowCrossing, c: int) -> bool {
    x.col < c || (x.col == c && x.left_of_center)
}

/// The winding number at the centre of cell `c`: the sum of the winding
/// changes of the crossings before it.
pub open spec fn winding_at_centre(s: Seq<RowCrossing>, c: int) -> int
    decreases s.len(),
{
    if s.len() == 0 {
        0
    } else {
        winding_at_centre(s.drop_last(), c) + if before_centre(s.last(), c) {
            s.last().delta as int
        } else {
            0
        }
    }
}

/// Some run of `out` covers column `c`.
pub open spec fn row_covers(out: Seq<GridRun>, c: int) -> bool {
    exists|k: int| 0 <= k < out.len() && (#[trigger] out[k]).col_start <= c < out[k].col_end
}

proof fn lemma_row_covers_push(out: Seq<GridRun>, r: GridRun, c: int)
    ensures
        row_covers(out.push(r), c) == (row_covers(out, c) || r.col_start <= c < r.col_end),
{
    let o2 = out.push(r);
    if row_covers(o2, c) {
        let k = choose|k: int| 0 <= k < o2.len() && (#[trigger] o2[k]).col_start <= c < o2[k].col_end;
        if k < out.len() {
            assert(o2[k] == out[k]);
        }
    }
    if row_covers(out, c) {
        let k = choose|k: int| 0 <= k < out.len() && (#[trigger] out[k]).col_start <= c < out[k].col_end;
        assert(o2[k] == out[k]);
    }
    if r.col_start <= c < r.col_end {
        assert(o2[out.len() as int] == r);
    }
}

proof fn lemma_not_covered_past_end(out: Seq<GridRun>, b: int, c: int)
    requires
        ends_by(out, b),
        b <= c,
    ensures
        !row_covers(out, c),
{
    if row_covers(out, c) {
        let k = choose|k: int| 0 <= k < out.len() && (#[trigger] out[k]).col_start <= c < out[k].col_end;
        assert(out[k].col_end <= b);
    }
}

/// Where the sweep stands after the crossings of `s`: no cell left of
/// this column can change any more.
pub open spec fn sweep_bound(s: Seq<RowCrossing>) -> int {
    if s.len() == 0 {
        0
    } else {
        crossing_bound(s.last())
    }
}

proof fn lemma_centre_fold_exact(s: Seq<RowCrossing>, row: i32, ncol: int, id: i32, c: int)
    requires
        crossings_ok(s, ncol),
        crossings_ordered(s),
        1 <= ncol <= i32::MAX,
        0 <= c < ncol,
    ensures
        ({
            let (w, rs, out) = centre_fold(s, row, ncol, id);
            let b = sweep_bound(s);
            &&& w != 0 ==> rs <= b
            &&& c < b ==> (row_covers(out, c) || (w != 0 && rs <= c)) == (winding_at_centre(s, c) != 0)
            &&& b <= c ==> !row_covers(out, c) && winding_at_centre(s, c) == w
        }),
    decreases s.len(),
{
    lemma_centre_fold_ordered(s, row, ncol, id);
    lemma_centre_fold_bounds(s, row, ncol, id);
    if s.len() > 0 {
        let p = s.drop_last();
        assert(crossings_ok(p, ncol)) by {
            assert forall|k: int| 0 <= k < p.len() implies 0 <= (#[trigger] p[k]).col < ncol && (p[k].delta == 1
                || p[k].delta == -1) by {
                assert(p[k] == s[k]);
            }
        }
        assert(crossings_ordered(p)) by {
            assert forall|i: int, j: int| 0 <= i < j < p.len() implies (#[trigger] p[i]).col <= (#[trigger] p[j]).col
                && (p[i].col == p[j].col && p[j].left_of_center ==> p[i].left_of_center) by {
                assert(p[i] == s[i] && p[j] == s[j]);
            }
        }
        lemma_centre_fold_exact(p, row, ncol, id, c);
        lemma_centre_fold_ordered(p, row, ncol, id);
        lemma_centre_fold_bounds(p, row, ncol, id);
        let x = s.last();
        assert(x == s[s.len() - 1]);
        assert(0 <= x.col < ncol && (x.delta == 1 || x.delta == -1));
        let b = sweep_bound(p);
        let b2 = crossing_bound(x);
        if p.len() > 0 {
            let l = p.last();
            assert(l == s[s.len() - 2]);
            assert(l.col <= x.col && (l.col == x.col && x.left_of_center ==> l.left_of_center));
        }
        assert(b <= b2);
        assert(b2 <= ncol);
        assert(before_centre(x, c) == (b2 <= c));
        let (w, rs, out) = centre_fold(p, row, ncol, id);
        let (w2, rs2, out2) = centre_fold(s, row, ncol, id);
        let nw = w + x.delta;
        assert(w2 == nw);
        if w != 0 && nw == 0 {
            // A run closes at b2; it is pushed when non-empty.
            assert(rs >= 0);
            let start = rs;
            if x.left_of_center {
                if start < x.col {
                    assert(out2 == out.push(run_of(row, start, x.col as int, id)));
                    lemma_row_covers_push(out, run_of(row, start, x.col as int, id), c);
                } else {
                    assert(out2 == out);
                }
            } else {
                assert(x.col + 1 <= ncol);
                if start < x.col + 1 {
                    assert(out2 == out.push(run_of(row, start, x.col + 1, id)));
                    lemma_row_covers_push(out, run_of(row, start, x.col + 1, id), c);
                } else {
                    assert(out2 == out);
                }
            }
            assert(rs2 == -1);
            if b2 <= c {
                lemma_not_covered_past_end(out2, b2, c);
            }
        } else if w == 0 && nw != 0 {
            assert(out2 == out);
            assert(rs2 == b2);
        } else {
            assert(w != 0 && nw != 0);
            assert(out2 == out && rs2 == rs);
            if b2 <= c {
                lemma_not_covered_past_end(out2, b2, c);
            }
        }
    }
}

/// The cell-centre rule: with crossings in order of x, a cell of the row
/// is covered by a run exactly when the winding number at its centre is
/// non-zero.
pub proof fn law_centre_rule(s: Seq<RowCrossing>, row: i32, ncol: int, id: i32, c: int)
    requires
        crossings_ok(s, ncol),
        crossings_ordered(s),
        1 <= ncol <= i32::MAX,
        0 <= c < ncol,
    ensures
        row_covers(centre_runs(s, row, ncol, id), c) == (winding_at_centre(s, c) != 0),
{
    lemma_centre_fold_exact(s, row, ncol, id, c);
    lemma_centre_fold_ordered(s, row, ncol, id);
    lemma_centre_fold_bounds(s, row, ncol, id);
    let (w, rs, out) = centre_fold(s, row, ncol, id);
    if w != 0 && rs >= 0 && rs < ncol {
        lemma_row_covers_push(out, run_of(row, rs, ncol, id), c);
    }
}

/// Append the runs of one row under the cell-centre rule.
pub fn emit_centre_runs(row: i32, crossings: &[RowCrossing], ncol: i64, id: i32, runs: &mut Vec<GridRun>)
    requires
        1 <= ncol <= i32::MAX,
        crossings_ok(crossings@, ncol as int),
        crossings@.len() <= i32::MAX,
    ensures
        final(runs)@ == old(runs)@ + centre_runs(crossings@, row, ncol as int, id),
{
    let ghost start = runs@;
    let mut winding: i32 = 0;
    let mut run_start: i64 = -1;
    let mut i: usize = 0;
    while i < crossings.len()
        invariant
            1 <= ncol <= i32::MAX,
            crossings_ok(crossings@, ncol as int),
            crossings@.len() <= i32::MAX,
            i <= crossings@.len(),
            ({
                let (w, rs, out) = centre_fold(crossings@.take(i as int), row, ncol as int, id);
                &&& w == winding
                &&& rs == run_start
                &&& runs@ == start + out
            }),
        decreases crossings@.len() - i,
    {
        let ghost pre = crossings@.take(i as int);
        proof {
            assert(crossings_ok(pre, ncol as int)) by {
                assert forall|k: int| 0 <= k < pre.len() implies 0 <= (#[trigger] pre[k]).col < ncol && (pre[k].delta
                    == 1 || pre[k].delta == -1) by {
                    assert(pre[k] == crossings@[k]);
                }
            }
            lemma_centre_fold_bounds(pre, row, ncol as int, id);
            assert(crossings@.take(i + 1).drop_last() =~= pre);
            assert(crossings@.take(i + 1).last() == crossings@[i as int]);
        }
        let c = crossings[i];
        assert(0 <= c.col < ncol && (c.delta == 1 || c.delta == -1));
        let new_winding = winding + c.delta;
        let ghost out = runs@;
        if c.left_of_center {
            if winding != 0 && new_winding == 0 {
                if run_start >= 0 && run_start < c.col {
                    runs.push(GridRun { row, col_start: run_start as i32, col_end: c.col as i32, id });
                }
                run_start = -1;
            } else if winding == 0 && new_winding != 0 {
                run_start = c.col;
            }
        } else if winding != 0 && new_winding == 0 {
            if run_start < 0 {
                run_start = c.col;
            }
            let end = if c.col + 1 < ncol { c.col + 1 } else { ncol };
            if run_start < end {
                runs.push(GridRun { row, col_start: run_start as i32, col_end: end as i32, id });
            }
            run_start = -1;
        } else if winding == 0 && new_winding != 0 {
            run_start = c.col + 1;
        }
        winding = new_winding;
        proof {
            let (w0, rs0, o0) = centre_fold(pre, row, ncol as int, id);
            assert(runs@ =~= start + centre_fold(crossings@.take(i + 1), row, ncol as int, id).2);
        }
        i += 1;
    }
    proof {
        assert(crossings@.take(i as int) =~= crossings@);
        lemma_centre_fold_bounds(crossings@, row, ncol as int, id);
    }
    if winding != 0 && run_start >= 0 && run_start < ncol {
        runs.push(GridRun { row, col_start: run_start as i32, col_end: ncol as i32, id });
    }
    proof {
        assert(runs@ =~= start + centre_runs(crossings@, row, ncol as int, id));
    }
}

/// What a boundary cell of the coverage sweep contributes by itself.
#[derive(Clone, Copy, Debug, PartialEq, Eq, Structural)]
pub enum CellCover {
    /// Partly covered: an edge cell with this `f32` fraction's bit pattern.
    Partial(u32),
    /// Covered within tolerance: a one-cell run.
    Full,
    /// Not covered within tolerance, or a padding column: nothing.
    Empty,
}

/// A boundary cell of one row, after its contributions are merged.
#[derive(Clone, Copy, Debug, PartialEq, Eq, Structural)]
pub struct BoundaryCell {
    /// Column in the full grid; -1 and `ncol` stand for the padding
    /// columns left and right of the grid.
    pub col: i64,
    pub cover: CellCover,
    /// Net winding change across the row's centre line in this cell.
    pub winding_delta: i32,
}

/// Coverage sweep state: winding number, column of the previous boundary
/// cell (-2 before the first), runs and edges so far.
pub type BoundaryState = (int, int, Seq<GridRun>, Seq<GridEdge>);

pub open spec fn edge_of(row: i32, col: int, bits: u32, id: i32) -> GridEdge {
    GridEdge { row, col: col as i32, fraction_bits: bits, id }
}

/// One boundary cell of the coverage sweep: the interior run since the
/// previous boundary cell when the winding number is non-zero, then the
/// cell's own contribution.
pub open spec fn boundary_step(st: BoundaryState, c: BoundaryCell, row: i32, id: i32) -> BoundaryState {
    let (winding, prev, runs, edges) = st;
    let col = c.col as int;
    let runs1 = if winding != 0 && prev > -2 && col > prev + 1 {
        runs.push(run_of(row, prev + 1, col, id))
    } else {
        runs
    };
    match c.cover {
        CellCover::Partial(bits) => (winding + c.winding_delta, col, runs1, edges.push(edge_of(row, col, bits, id))),
        CellCover::Full => (winding + c.winding_delta, col, runs1.push(run_of(row, col, col + 1, id)), edges),
        CellCover::Empty => (winding + c.winding_delta, col, runs1, edges),
    }
}

pub open spec fn boundary_fold(s: Seq<BoundaryCell>, row: i32, id: i32) -> BoundaryState
    decreases s.len(),
{
    if s.len() == 0 {
        (0, -2, Seq::empty(), Seq::empty())
    } else {
        boundary_step(boundary_fold(s.drop_last(), row, id), s.last(), row, id)
    }
}

/// The runs of one row under the coverage sweep.
pub open spec fn boundary_runs(s: Seq<BoundaryCell>, row: i32, id: i32) -> Seq<GridRun> {
    boundary_fold(s, row, id).2
}

/// The edge cells of one row under the coverage sweep.
pub open spec fn boundary_edges(s: Seq<BoundaryCell>, row: i32, id: i32) -> Seq<GridEdge> {
    boundary_fold(s, row, id).3
}

/// Columns within the grid or its padding; only grid cells contribute.
pub open spec fn cells_in_grid(s: Seq<BoundaryCell>, ncol: int) -> bool {
    forall|k: int|
        0 <= k < s.len() ==> -1 <= (#[trigger] s[k]).col <= ncol && (s[k].cover != CellCover::Empty ==> 0
            <= s[k].col < ncol)
}

/// Columns from the left padding column to one short of `i32::MAX`.
pub open spec fn cells_fit(s: Seq<BoundaryCell>) -> bool {
    forall|k: int| 0 <= k < s.len() ==> -1 <= (#[trigger] s[k]).col < i32::MAX
}

/// Boundary cells in strictly increasing column order.
pub open spec fn cells_increasing(s: Seq<BoundaryCell>) -> bool {
    forall|i: int, j: int| 0 <= i < j < s.len() ==> (#[trigger] s[i]).col < (#[trigger] s[j]).col
}

/// Edge cells in strictly increasing column order.
pub open spec fn edges_increasing(e: Seq<GridEdge>) -> bool {
    forall|i: int, j: int| 0 <= i < j < e.len() ==> (#[trigger] e[i]).col < (#[trigger] e[j]).col
}

/// No edge cell lies inside a run.
pub open spec fn edges_outside_runs(e: Seq<GridEdge>, r: Seq<GridRun>) -> bool {
    forall|i: int, j: int|
        0 <= i < e.len() && 0 <= j < r.len() ==> (#[trigger] e[i]).col < (#[trigger] r[j]).col_start || e[i].col
            >= r[j].col_end
}

proof fn lemma_prefix_cells_in_grid(s: Seq<BoundaryCell>, ncol: int)
    requires
        cells_in_grid(s, ncol),
        s.len() > 0,
    ensures
        cells_in_grid(s.drop_last(), ncol),
        -1 <= s.last().col <= ncol,
        s.last().cover != CellCover::Empty ==> 0 <= s.last().col < ncol,
{
    let p = s.drop_last();
    assert forall|k: int| 0 <= k < p.len() implies -1 <= (#[trigger] p[k]).col <= ncol && (p[k].cover
        != CellCover::Empty ==> 0 <= p[k].col < ncol) by {
        assert(p[k] == s[k]);
    }
    assert(s.last() == s[s.len() - 1]);
}

proof fn lemma_boundary_fold_in_grid(s: Seq<BoundaryCell>, row: i32, ncol: int, id: i32)
    requires
        cells_in_grid(s, ncol),
        0 <= ncol <= i32::MAX,
    ensures
        ({
            let (w, prev, runs, edges) = boundary_fold(s, row, id);
            &&& -2 <= prev <= ncol
            &&& s.len() == 0 <==> prev == -2
            &&& forall|k: int|
                0 <= k < runs.len() ==> 0 <= (#[trigger] runs[k]).col_start < runs[k].col_end <= ncol
                    && runs[k].row == row && runs[k].id == id
            &&& forall|k: int|
                0 <= k < edges.len() ==> 0 <= (#[trigger] edges[k]).col < ncol && edges[k].row == row
                    && edges[k].id == id
        }),
    decreases s.len(),
{
    if s.len() > 0 {
        let p = s.drop_last();
        lemma_prefix_cells_in_grid(s, ncol);
        lemma_boundary_fold_in_grid(p, row, ncol, id);
        let (w, prev, runs, edges) = boundary_fold(p, row, id);
        let (w2, prev2, runs2, edges2) = boundary_fold(s, row, id);
        assert forall|k: int| 0 <= k < runs2.len() implies 0 <= (#[trigger] runs2[k]).col_start < runs2[k].col_end
            <= ncol && runs2[k].row == row && runs2[k].id == id by {
            if k < runs.len() {
                assert(runs2[k] == runs[k]);
            }
        }
        assert forall|k: int| 0 <= k < edges2.len() implies 0 <= (#[trigger] edges2[k]).col < ncol && edges2[k].row
            == row && edges2[k].id == id by {
            if k < edges.len() {
                assert(edges2[k] == edges[k]);
            }
        }
    }
}

/// Under the coverage sweep every run and edge cell of a row lies on that
/// row and inside the grid, and every run is non-empty.
pub proof fn law_boundary_output_in_grid(s: Seq<BoundaryCell>, row: i32, ncol: int, id: i32)
    requires
        cells_in_grid(s, ncol),
        0 <= ncol <= i32::MAX,
    ensures
        forall|k: int|
            0 <= k < boundary_runs(s, row, id).len() ==> {
                let r = #[trigger] boundary_runs(s, row, id)[k];
                0 <= r.col_start < r.col_end <= ncol && r.row == row && r.id == id
            },
        forall|k: int|
            0 <= k < boundary_edges(s, row, id).len() ==> {
                let e = #[trigger] boundary_edges(s, row, id)[k];
                0 <= e.col < ncol && e.row == row && e.id == id
            },
{
    lemma_boundary_fold_in_grid(s, row, ncol, id);
}

/// What the coverage sweep keeps between boundary cells.
pub open spec fn boundary_sweep_inv(prev: int, runs: Seq<GridRun>, edges: Seq<GridEdge>) -> bool {
    &&& ends_by(runs, prev + 1)
    &&& forall|k: int| 0 <= k < edges.len() ==> (#[trigger] edges[k]).col <= prev
    &&& runs_ordered(runs)
    &&& edges_increasing(edges)
    &&& edges_outside_runs(edges, runs)
}

proof fn lemma_interior_run_ordered(prev: int, runs: Seq<GridRun>, edges: Seq<GridEdge>, col: int, row: i32, id: i32)
    requires
        boundary_sweep_inv(prev, runs, edges),
        -1 <= prev < col < i32::MAX,
    ensures
        ({
            let runs1 = runs.push(run_of(row, prev + 1, col, id));
            &&& ends_by(runs1, col)
            &&& runs_ordered(runs1)
            &&& edges_outside_runs(edges, runs1)
        }),
{
    let runs1 = runs.push(run_of(row, prev + 1, col, id));
    assert forall|k: int| 0 <= k < runs1.len() implies (#[trigger] runs1[k]).col_end <= col by {
        if k < runs.len() {
            assert(runs1[k] == runs[k]);
        }
    }
    assert forall|k: int| 0 <= k < runs1.len() - 1 implies (#[trigger] runs1[k]).col_end <= runs1[k + 1].col_start by {
        assert(runs1[k] == runs[k]);
        if k + 1 < runs.len() {
            assert(runs1[k + 1] == runs[k + 1]);
        }
    }
    assert forall|i: int, j: int| 0 <= i < edges.len() && 0 <= j < runs1.len() implies (#[trigger] edges[i]).col
        < (#[trigger] runs1[j]).col_start || edges[i].col >= runs1[j].col_end by {
        if j < runs.len() {
            assert(runs1[j] == runs[j]);
        }
    }
}

proof fn lemma_full_cell_ordered(runs1: Seq<GridRun>, edges: Seq<GridEdge>, prev: int, col: int, row: i32, id: i32)
    requires
        ends_by(runs1, col),
        runs_ordered(runs1),
        edges_increasing(edges),
        edges_outside_runs(edges, runs1),
        forall|k: int| 0 <= k < edges.len() ==> (#[trigger] edges[k]).col <= prev,
        -2 <= prev < col < i32::MAX,
    ensures
        boundary_sweep_inv(col, runs1.push(run_of(row, col, col + 1, id)), edges),
{
    let runs2 = runs1.push(run_of(row, col, col + 1, id));
    assert forall|k: int| 0 <= k < runs2.len() implies (#[trigger] runs2[k]).col_end <= col + 1 by {
        if k < runs1.len() {
            assert(runs2[k] == runs1[k]);
        }
    }
    assert forall|k: int| 0 <= k < runs2.len() - 1 implies (#[trigger] runs2[k]).col_end <= runs2[k + 1].col_start by {
        assert(runs2[k] == runs1[k]);
        if k + 1 < runs1.len() {
            assert(runs2[k + 1] == runs1[k + 1]);
        }
    }
    assert forall|i: int, j: int| 0 <= i < edges.len() && 0 <= j < runs2.len() implies (#[trigger] edges[i]).col
        < (#[trigger] runs2[j]).col_start || edges[i].col >= runs2[j].col_end by {
        if j < runs1.len() {
            assert(runs2[j] == runs1[j]);
        }
    }
}

proof fn lemma_partial_cell_ordered(
    runs1: Seq<GridRun>,
    edges: Seq<GridEdge>,
    prev: int,
    col: int,
    bits: u32,
    row: i32,
    id: i32,
)
    requires
        ends_by(runs1, col),
        runs_ordered(runs1),
        edges_increasing(edges),
        edges_outside_runs(edges, runs1),
        forall|k: int| 0 <= k < edges.len() ==> (#[trigger] edges[k]).col <= prev,
        -2 <= prev < col < i32::MAX,
    ensures
        boundary_sweep_inv(col, runs1, edges.push(edge_of(row, col, bits, id))),
{
    let edges2 = edges.push(edge_of(row, col, bits, id));
    assert forall|k: int| 0 <= k < runs1.len() implies (#[trigger] runs1[k]).col_end <= col + 1 by {
        assert(runs1[k].col_end <= col);
    }
    assert forall|k: int| 0 <= k < edges2.len() implies (#[trigger] edges2[k]).col <= col by {
        if k < edges.len() {
            assert(edges2[k] == edges[k]);
        }
    }
    assert forall|i: int, j: int| 0 <= i < j < edges2.len() implies (#[trigger] edges2[i]).col
        < (#[trigger] edges2[j]).col by {
        assert(edges2[i] == edges[i]);
        if j < edges.len() {
            assert(edges2[j] == edges[j]);
        }
    }
    assert forall|i: int, j: int| 0 <= i < edges2.len() && 0 <= j < runs1.len() implies (#[trigger] edges2[i]).col
        < (#[trigger] runs1[j]).col_start || edges2[i].col >= runs1[j].col_end by {
        if i < edges.len() {
            assert(edges2[i] == edges[i]);
        } else {
            assert(runs1[j].col_end <= col);
        }
    }
}

proof fn lemma_boundary_step_ordered(st: BoundaryState, c: BoundaryCell, row: i32, id: i32)
    requires
        ({
            let (w, prev, runs, edges) = st;
            &&& boundary_sweep_inv(prev, runs, edges)
            &&& -2 <= prev < c.col < i32::MAX
            &&& prev == -2 ==> runs.len() == 0 && edges.len() == 0
        }),
    ensures
        ({
            let (w2, prev2, runs2, edges2) = boundary_step(st, c, row, id);
            &&& prev2 == c.col
            &&& boundary_sweep_inv(prev2, runs2, edges2)
        }),
{
    let (w, prev, runs, edges) = st;
    let col = c.col as int;
    let runs1 = if w != 0 && prev > -2 && col > prev + 1 {
        runs.push(run_of(row, prev + 1, col, id))
    } else {
        runs
    };
    if w != 0 && prev > -2 && col > prev + 1 {
        lemma_interior_run_ordered(prev, runs, edges, col, row, id);
    } else {
        assert forall|k: int| 0 <= k < runs1.len() implies (#[trigger] runs1[k]).col_end <= col by {
            assert(runs[k].col_end <= prev + 1);
        }
    }
    match c.cover {
        CellCover::Partial(bits) => {
            lemma_partial_cell_ordered(runs1, edges, prev, col, bits, row, id);
        },
        CellCover::Full => {
            lemma_full_cell_ordered(runs1, edges, prev, col, row, id);
        },
        CellCover::Empty => {
            assert forall|k: int| 0 <= k < runs1.len() implies (#[trigger] runs1[k]).col_end <= col + 1 by {
                assert(runs1[k].col_end <= col);
            }
        },
    }
}

proof fn lemma_boundary_fold_ordered(s: Seq<BoundaryCell>, row: i32, id: i32)
    requires
        cells_increasing(s),
        cells_fit(s),
    ensures
        ({
            let (w, prev, runs, edges) = boundary_fold(s, row, id);
            &&& s.len() == 0 ==> prev == -2 && runs.len() == 0 && edges.len() == 0
            &&& s.len() > 0 ==> prev == s.last().col
            &&& boundary_sweep_inv(prev, runs, edges)
        }),
    decreases s.len(),
{
    if s.len() > 0 {
        let p = s.drop_last();
        assert(cells_increasing(p)) by {
            assert forall|i: int, j: int| 0 <= i < j < p.len() implies (#[trigger] p[i]).col < (#[trigger] p[j]).col by {
                assert(p[i] == s[i] && p[j] == s[j]);
            }
        }
        assert(cells_fit(p)) by {
            assert forall|k: int| 0 <= k < p.len() implies -1 <= (#[trigger] p[k]).col < i32::MAX by {
                assert(p[k] == s[k]);
            }
        }
        lemma_boundary_fold_ordered(p, row, id);
        let c = s.last();
        assert(c == s[s.len() - 1]);
        if p.len() > 0 {
            assert(p.last() == s[s.len() - 2]);
        }
        lemma_boundary_step_ordered(boundary_fold(p, row, id), c, row, id);
    }
}

/// Under the coverage sweep, with boundary cells in increasing column
/// order, a row's runs follow one another without overlapping, its edge
/// cells come in increasing column order, and no edge cell lies inside a
/// run: each cell of the row is claimed at most once.
pub proof fn law_boundary_output_disjoint(s: Seq<BoundaryCell>, row: i32, id: i32)
    requires
        cells_increasing(s),
        cells_fit(s),
    ensures
        runs_ordered(boundary_runs(s, row, id)),
        edges_increasing(boundary_edges(s, row, id)),
        edges_outside_runs(boundary_edges(s, row, id), boundary_runs(s, row, id)),
{
    lemma_boundary_fold_ordered(s, row, id);
}

/// The sum of the winding changes of the boundary cells of `s`.
pub open spec fn delta_sum(s: Seq<BoundaryCell>) -> int
    decreases s.len(),
{
    if s.len() == 0 {
        0
    } else {
        delta_sum(s.drop_last()) + s.last().winding_delta
    }
}

/// Column `c` is a boundary cell of `s` covered within tolerance.
pub open spec fn full_at(s: Seq<BoundaryCell>, c: int) -> bool {
    exists|k: int| 0 <= k < s.len() && (#[trigger] s[k]).col == c && s[k].cover == CellCover::Full
}

/// Column `c` is a partly covered boundary cell of `s`.
pub open spec fn partial_at(s: Seq<BoundaryCell>, c: int) -> bool {
    exists|k: int| 0 <= k < s.len() && (#[trigger] s[k]).col == c && s[k].cover is Partial
}

/// Column `c` lies strictly between two neighbouring boundary cells of
/// `s` and the winding number after the first of them is non-zero.
pub open spec fn interior_at(s: Seq<BoundaryCell>, c: int) -> bool {
    exists|k: int|
        0 <= k < s.len() - 1 && (#[trigger] s[k]).col < c < s[k + 1].col && delta_sum(s.take(k + 1)) != 0
}

/// Some edge cell of `e` lies in column `c`.
pub open spec fn row_has_edge(e: Seq<GridEdge>, c: int) -> bool {
    exists|k: int| 0 <= k < e.len() && (#[trigger] e[k]).col == c
}

proof fn lemma_full_partial_push(p: Seq<BoundaryCell>, x: BoundaryCell, c: int)
    ensures
        full_at(p.push(x), c) == (full_at(p, c) || (x.col == c && x.cover == CellCover::Full)),
        partial_at(p.push(x), c) == (partial_at(p, c) || (x.col == c && x.cover is Partial)),
{
    let q = p.push(x);
    if full_at(q, c) {
        let k = choose|k: int| 0 <= k < q.len() && (#[trigger] q[k]).col == c && q[k].cover == CellCover::Full;
        if k < p.len() {
            assert(q[k] == p[k]);
        }
    }
    if full_at(p, c) {
        let k = choose|k: int| 0 <= k < p.len() && (#[trigger] p[k]).col == c && p[k].cover == CellCover::Full;
        assert(q[k] == p[k]);
    }
    if partial_at(q, c) {
        let k = choose|k: int| 0 <= k < q.len() && (#[trigger] q[k]).col == c && q[k].cover is Partial;
        if k < p.len() {
            assert(q[k] == p[k]);
        }
    }
    if partial_at(p, c) {
        let k = choose|k: int| 0 <= k < p.len() && (#[trigger] p[k]).col == c && p[k].cover is Partial;
        assert(q[k] == p[k]);
    }
    assert(q[p.len() as int] == x);
}

proof fn lemma_interior_push(p: Seq<BoundaryCell>, x: BoundaryCell, c: int)
    ensures
        interior_at(p.push(x), c) == (interior_at(p, c) || (p.len() > 0 && p.last().col < c < x.col && delta_sum(p)
            != 0)),
{
    let q = p.push(x);
    if interior_at(q, c) {
        let k = choose|k: int|
            0 <= k < q.len() - 1 && (#[trigger] q[k]).col < c < q[k + 1].col && delta_sum(q.take(k + 1)) != 0;
        if k < p.len() - 1 {
            assert(q[k] == p[k] && q[k + 1] == p[k + 1]);
            assert(q.take(k + 1) =~= p.take(k + 1));
        } else {
            assert(q[k] == p.last() && q[k + 1] == x);
            assert(q.take(k + 1) =~= p);
        }
    }
    if interior_at(p, c) {
        let k = choose|k: int|
            0 <= k < p.len() - 1 && (#[trigger] p[k]).col < c < p[k + 1].col && delta_sum(p.take(k + 1)) != 0;
        assert(q[k] == p[k] && q[k + 1] == p[k + 1]);
        assert(q.take(k + 1) =~= p.take(k + 1));
    }
    if p.len() > 0 && p.last().col < c < x.col && delta_sum(p) != 0 {
        let k = p.len() - 1;
        assert(q[k] == p.last() && q[k + 1] == x);
        assert(q.take(k + 1) =~= p);
    }
}

proof fn lemma_edges_push(e: Seq<GridEdge>, x: GridEdge, c: int)
    ensures
        row_has_edge(e.push(x), c) == (row_has_edge(e, c) || x.col == c),
{
    let q = e.push(x);
    if row_has_edge(q, c) {
        let k = choose|k: int| 0 <= k < q.len() && (#[trigger] q[k]).col == c;
        if k < e.len() {
            assert(q[k] == e[k]);
        }
    }
    if row_has_edge(e, c) {
        let k = choose|k: int| 0 <= k < e.len() && (#[trigger] e[k]).col == c;
        assert(q[k] == e[k]);
    }
    assert(q[e.len() as int] == x);
}

proof fn lemma_boundary_fold_exact(s: Seq<BoundaryCell>, row: i32, id: i32, c: int)
    requires
        cells_increasing(s),
        cells_fit(s),
    ensures
        ({
            let (w, prev, runs, edges) = boundary_fold(s, row, id);
            &&& w == delta_sum(s)
            &&& row_covers(runs, c) == (full_at(s, c) || interior_at(s, c))
            &&& row_has_edge(edges, c) == partial_at(s, c)
            &&& prev < c ==> !row_covers(runs, c) && !full_at(s, c) && !interior_at(s, c)
        }),
    decreases s.len(),
{
    lemma_boundary_fold_ordered(s, row, id);
    if s.len() > 0 {
        let p = s.drop_last();
        assert(cells_increasing(p)) by {
            assert forall|i: int, j: int| 0 <= i < j < p.len() implies (#[trigger] p[i]).col < (#[trigger] p[j]).col by {
                assert(p[i] == s[i] && p[j] == s[j]);
            }
        }
        assert(cells_fit(p)) by {
            assert forall|k: int| 0 <= k < p.len() implies -1 <= (#[trigger] p[k]).col < i32::MAX by {
                assert(p[k] == s[k]);
            }
        }
        lemma_boundary_fold_exact(p, row, id, c);
        lemma_boundary_fold_ordered(p, row, id);
        lemma_boundary_fold_bounds(p, row, id);
        let x = s.last();
        assert(x == s[s.len() - 1]);
        assert(p.push(x) =~= s);
        assert(-1 <= x.col < i32::MAX);
        let (w, prev, runs, edges) = boundary_fold(p, row, id);
        if p.len() > 0 {
            assert(p.last() == s[s.len() - 2]);
            assert(prev == p.last().col);
            assert(prev < x.col);
        } else {
            assert(prev == -2);
        }
        lemma_full_partial_push(p, x, c);
        lemma_interior_push(p, x, c);
        let col = x.col as int;
        let runs1 = if w != 0 && prev > -2 && col > prev + 1 {
            runs.push(run_of(row, prev + 1, col, id))
        } else {
            runs
        };
        if w != 0 && prev > -2 && col > prev + 1 {
            lemma_row_covers_push(runs, run_of(row, prev + 1, col, id), c);
        }
        assert(row_covers(runs1, c) == (row_covers(runs, c) || (p.len() > 0 && prev < c < col && w != 0)));
        match x.cover {
            CellCover::Partial(bits) => {
                lemma_edges_push(edges, edge_of(row, col, bits, id), c);
            },
            CellCover::Full => {
                lemma_row_covers_push(runs1, run_of(row, col, col + 1, id), c);
            },
            CellCover::Empty => {},
        }
        let (w2, prev2, runs2, edges2) = boundary_fold(s, row, id);
        if col < c {
            lemma_not_covered_past_end(runs2, col + 1, c);
        }
    }
}

/// The coverage sweep's rule: a column of the row is covered by a run
/// exactly when it is a boundary cell covered within tolerance, or lies
/// strictly between two neighbouring boundary cells where the winding
/// number is non-zero; it holds an edge cell exactly when it is a partly
/// covered boundary cell.
pub proof fn law_boundary_rule(s: Seq<BoundaryCell>, row: i32, id: i32, c: int)
    requires
        cells_increasing(s),
        cells_fit(s),
    ensures
        row_covers(boundary_runs(s, row, id), c) == (full_at(s, c) || interior_at(s, c)),
        row_has_edge(boundary_edges(s, row, id), c) == partial_at(s, c),
{
    lemma_boundary_fold_exact(s, row, id, c);
}

/// The edge cells of the coverage sweep carry the coverage fractions of
/// the boundary cells unchanged: each partly covered boundary cell yields
/// an edge cell on the row, in its column, with exactly its fraction bits
/// and the polygon's id; and every edge cell is such a cell's.
pub proof fn law_boundary_edge_fractions(s: Seq<BoundaryCell>, row: i32, id: i32)
    ensures
        forall|k: int|
            0 <= k < s.len() && (#[trigger] s[k]).cover is Partial ==> exists|j: int|
                0 <= j < boundary_edges(s, row, id).len() && #[trigger] boundary_edges(s, row, id)[j] == (GridEdge {
                    row,
                    col: s[k].col as i32,
                    fraction_bits: s[k].cover->0,
                    id,
                }),
        forall|j: int|
            0 <= j < boundary_edges(s, row, id).len() ==> exists|k: int|
                0 <= k < s.len() && (#[trigger] s[k]).cover == CellCover::Partial(
                    (#[trigger] boundary_edges(s, row, id)[j]).fraction_bits,
                ) && boundary_edges(s, row, id)[j] == (GridEdge {
                    row,
                    col: s[k].col as i32,
                    fraction_bits: s[k].cover->0,
                    id,
                }),
    decreases s.len(),
{
    if s.len() > 0 {
        let p = s.drop_last();
        let x = s.last();
        law_boundary_edge_fractions(p, row, id);
        let e = boundary_edges(p, row, id);
        let e2 = boundary_edges(s, row, id);
        assert(x == s[s.len() - 1]);
        assert forall|k: int| 0 <= k < s.len() && (#[trigger] s[k]).cover is Partial implies exists|j: int|
            0 <= j < e2.len() && #[trigger] e2[j] == (GridEdge { row, col: s[k].col as i32, fraction_bits: s[k].cover->0, id }) by {
            if k < p.len() {
                assert(s[k] == p[k]);
                let j = choose|j: int|
                    0 <= j < e.len() && #[trigger] e[j] == (GridEdge { row, col: p[k].col as i32, fraction_bits: p[k].cover->0, id });
                assert(e2[j] == e[j]);
            } else {
                assert(e2[e.len() as int] == e2.last());
            }
        }
        assert forall|j: int| 0 <= j < e2.len() implies exists|k: int|
            0 <= k < s.len() && (#[trigger] s[k]).cover == CellCover::Partial((#[trigger] e2[j]).fraction_bits) && e2[j]
                == (GridEdge { row, col: s[k].col as i32, fraction_bits: s[k].cover->0, id }) by {
            if j < e.len() {
                assert(e2[j] == e[j]);
                let k = choose|k: int|
                    0 <= k < p.len() && (#[trigger] p[k]).cover == CellCover::Partial((#[trigger] e[j]).fraction_bits)
                        && e[j] == (GridEdge { row, col: p[k].col as i32, fraction_bits: p[k].cover->0, id });
                assert(s[k] == p[k]);
            } else {
                assert(s[s.len() - 1] == x);
            }
        }
    }
}

proof fn lemma_boundary_fold_bounds(s: Seq<BoundaryCell>, row: i32, id: i32)
    requires
        cells_fit(s),
    ensures
        ({
            let (w, prev, runs, edges) = boundary_fold(s, row, id);
            &&& -(s.len() * 0x8000_0000) <= w <= s.len() * 0x8000_0000
            &&& -2 <= prev < i32::MAX
        }),
    decreases s.len(),
{
    if s.len() > 0 {
        let p = s.drop_last();
        assert(cells_fit(p)) by {
            assert forall|k: int| 0 <= k < p.len() implies -1 <= (#[trigger] p[k]).col < i32::MAX by {
                assert(p[k] == s[k]);
            }
        }
        lemma_boundary_fold_bounds(p, row, id);
        assert(s.last() == s[s.len() - 1]);
    }
}

/// Append the runs and edge cells of one row under the coverage sweep.
pub fn emit_boundary_row(
    row: i32,
    cells: &[BoundaryCell],
    id: i32,
    runs: &mut Vec<GridRun>,
    edges: &mut Vec<GridEdge>,
)
    requires
        cells_fit(cells@),
        cells@.len() <= i32::MAX,
    ensures
        final(runs)@ == old(runs)@ + boundary_runs(cells@, row, id),
        final(edges)@ == old(edges)@ + boundary_edges(cells@, row, id),
{
    let ghost runs0 = runs@;
    let ghost edges0 = edges@;
    let mut winding: i64 = 0;
    let mut prev: i64 = -2;
    let mut i: usize = 0;
    while i < cells.len()
        invariant
            cells_fit(cells@),
            cells@.len() <= i32::MAX,
            i <= cells@.len(),
            ({
                let (w, p, r, e) = boundary_fold(cells@.take(i as int), row, id);
                &&& w == winding
                &&& p == prev
                &&& runs@ == runs0 + r
                &&& edges@ == edges0 + e
            }),
        decreases cells@.len() - i,
    {
        let ghost pre = cells@.take(i as int);
        proof {
            assert(cells_fit(pre)) by {
                assert forall|k: int| 0 <= k < pre.len() implies -1 <= (#[trigger] pre[k]).col < i32::MAX by {
                    assert(pre[k] == cells@[k]);
                }
            }
            lemma_boundary_fold_bounds(pre, row, id);
            assert(cells@.take(i + 1).drop_last() =~= pre);
            assert(cells@.take(i + 1).last() == cells@[i as int]);
        }
        let c = cells[i];
        assert(-1 <= c.col < i32::MAX);
        if winding != 0 && prev > -2 && c.col > prev + 1 {
            runs.push(GridRun { row, col_start: (prev + 1) as i32, col_end: c.col as i32, id });
        }
        match c.cover {
            CellCover::Partial(bits) => {
                edges.push(GridEdge { row, col: c.col as i32, fraction_bits: bits, id });
            },
            CellCover::Full => {
                runs.push(GridRun { row, col_start: c.col as i32, col_end: (c.col + 1) as i32, id });
            },
            CellCover::Empty => {},
        }
        winding = winding + c.winding_delta as i64;
        prev = c.col;
        proof {
            let st = boundary_fold(cells@.take(i + 1), row, id);
            assert(runs@ =~= runs0 + st.2);
            assert(edges@ =~= edges0 + st.3);
        }
        i += 1;
    }
    proof {
        assert(cells@.take(i as int) =~= cells@);
    }
}

} // verus!
