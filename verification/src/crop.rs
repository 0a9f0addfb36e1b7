//! Sparse crop of the output tables to a window of whole cells.
//!
//! The window is given by its 0-based half-open row and column ranges in
//! the grid the result was burned into (snapping a target extent to cells
//! is arithmetic on the grid's `f64` extent, done by the caller). Records
//! inside the window are kept with their indices rebased so that the
//! window's first row and column are 0; runs are clipped to the window.
//! The cropped tables are those of the window as a grid of its own, so
//! materializing them cuts the same tile out of the full burn.

use vstd::prelude::*;
use crate::materialize::{max_i, min_i, plan, plan_edges, plan_runs, run_writes, PixelWrite};
use crate::output::{BurnResult, GridEdge, GridLine, GridPoint, GridRun, Note};

verus! {

/// 0-based half-open row and column ranges of a crop window:
/// rows `row_lo..row_hi`, columns `col_lo..col_hi`.
#[derive(Clone, Copy, Debug, PartialEq, Eq, Structural)]
pub struct CropWindow {
    pub col_lo: i32,
    pub col_hi: i32,
    pub row_lo: i32,
    pub row_hi: i32,
}

impl CropWindow {
    /// Non-empty ranges starting at 0 or later.
    pub open spec fn wf(&self) -> bool {
        0 <= self.col_lo < self.col_hi && 0 <= self.row_lo < self.row_hi
    }

    pub open spec fn in_rows(&self, row: i32) -> bool {
        self.row_lo <= row < self.row_hi
    }

    pub open spec fn in_cols(&self, col: i32) -> bool {
        self.col_lo <= col < self.col_hi
    }

    /// Rows and columns of the window.
    pub open spec fn nrow(&self) -> int {
        self.row_hi - self.row_lo
    }

    pub open spec fn ncol(&self) -> int {
        self.col_hi - self.col_lo
    }
}

/// The elements of `s` that satisfy `keep`, each mapped by `f`, in order.
pub open spec fn filter_map<A, B>(s: Seq<A>, keep: spec_fn(A) -> bool, f: spec_fn(A) -> B) -> Seq<B>
    decreases s.len(),
{
    if s.len() == 0 {
        Seq::empty()
    } else if keep(s.last()) {
        filter_map(s.drop_last(), keep, f).push(f(s.last()))
    } else {
        filter_map(s.drop_last(), keep, f)
    }
}

pub open spec fn keep_run(w: CropWindow) -> spec_fn(GridRun) -> bool {
    |r: GridRun| w.in_rows(r.row) && r.col_start < w.col_hi && r.col_end > w.col_lo
}

/// A run clipped to the window and rebased.
pub open spec fn crop_run(w: CropWindow) -> spec_fn(GridRun) -> GridRun {
    |r: GridRun|
        GridRun {
            row: (r.row - w.row_lo) as i32,
            col_start: ((if r.col_start > w.col_lo { r.col_start } else { w.col_lo }) - w.col_lo) as i32,
            col_end: ((if r.col_end < w.col_hi { r.col_end } else { w.col_hi }) - w.col_lo) as i32,
            id: r.id,
        }
}

pub open spec fn keep_edge(w: CropWindow) -> spec_fn(GridEdge) -> bool {
    |e: GridEdge| w.in_rows(e.row) && w.in_cols(e.col)
}

pub open spec fn crop_edge(w: CropWindow) -> spec_fn(GridEdge) -> GridEdge {
    |e: GridEdge|
        GridEdge {
            row: (e.row - w.row_lo) as i32,
            col: (e.col - w.col_lo) as i32,
            fraction_bits: e.fraction_bits,
            id: e.id,
        }
}

pub open spec fn keep_line(w: CropWindow) -> spec_fn(GridLine) -> bool {
    |l: GridLine| w.in_rows(l.row) && w.in_cols(l.col)
}

pub open spec fn crop_line(w: CropWindow) -> spec_fn(GridLine) -> GridLine {
    |l: GridLine|
        GridLine {
            row: (l.row - w.row_lo) as i32,
            col: (l.col - w.col_lo) as i32,
            length_bits: l.length_bits,
            id: l.id,
        }
}

pub open spec fn keep_point(w: CropWindow) -> spec_fn(GridPoint) -> bool {
    |p: GridPoint| w.in_rows(p.row) && w.in_cols(p.col)
}

pub open spec fn crop_point(w: CropWindow) -> spec_fn(GridPoint) -> GridPoint {
    |p: GridPoint| GridPoint { row: (p.row - w.row_lo) as i32, col: (p.col - w.col_lo) as i32, id: p.id }
}

proof fn lemma_filter_map_step<A, B>(s: Seq<A>, i: int, keep: spec_fn(A) -> bool, f: spec_fn(A) -> B)
    requires
        0 <= i < s.len(),
    ensures
        filter_map(s.take(i + 1), keep, f) == if keep(s[i]) {
            filter_map(s.take(i), keep, f).push(f(s[i]))
        } else {
            filter_map(s.take(i), keep, f)
        },
{
    assert(s.take(i + 1).drop_last() =~= s.take(i));
    assert(s.take(i + 1).last() == s[i]);
}

/// Every element of a filter-map is the image of a kept element.
pub proof fn lemma_filter_map_elements<A, B>(s: Seq<A>, keep: spec_fn(A) -> bool, f: spec_fn(A) -> B, k: int)
    requires
        0 <= k < filter_map(s, keep, f).len(),
    ensures
        exists|j: int| 0 <= j < s.len() && keep(s[j]) && filter_map(s, keep, f)[k] == f(#[trigger] s[j]),
    decreases s.len(),
{
    let p = s.drop_last();
    let r = filter_map(s, keep, f);
    if keep(s.last()) && k == r.len() - 1 {
        assert(keep(s[s.len() - 1]) && r[k] == f(s[s.len() - 1]));
    } else {
        lemma_filter_map_elements(p, keep, f, k);
        let j = choose|j: int| 0 <= j < p.len() && keep(p[j]) && filter_map(p, keep, f)[k] == f(#[trigger] p[j]);
        assert(s[j] == p[j]);
    }
}

fn crop_runs(runs: &Vec<GridRun>, w: CropWindow) -> (out: Vec<GridRun>)
    requires
        w.wf(),
    ensures
        out@ == filter_map(runs@, keep_run(w), crop_run(w)),
{
    let mut out: Vec<GridRun> = Vec::new();
    let mut i: usize = 0;
    while i < runs.len()
        invariant
            w.wf(),
            i <= runs@.len(),
            out@ == filter_map(runs@.take(i as int), keep_run(w), crop_run(w)),
        decreases runs@.len() - i,
    {
        let r = runs[i];
        proof {
            lemma_filter_map_step(runs@, i as int, keep_run(w), crop_run(w));
        }
        if w.row_lo <= r.row && r.row < w.row_hi && r.col_start < w.col_hi && r.col_end > w.col_lo {
            let cs = if r.col_start > w.col_lo { r.col_start } else { w.col_lo };
            let ce = if r.col_end < w.col_hi { r.col_end } else { w.col_hi };
            out.push(GridRun { row: r.row - w.row_lo, col_start: cs - w.col_lo, col_end: ce - w.col_lo, id: r.id });
        }
        i += 1;
    }
    assert(runs@.take(i as int) =~= runs@);
    out
}

fn crop_edges(edges: &Vec<GridEdge>, w: CropWindow) -> (out: Vec<GridEdge>)
    requires
        w.wf(),
    ensures
        out@ == filter_map(edges@, keep_edge(w), crop_edge(w)),
{
    let mut out: Vec<GridEdge> = Vec::new();
    let mut i: usize = 0;
    while i < edges.len()
        invariant
            w.wf(),
            i <= edges@.len(),
            out@ == filter_map(edges@.take(i as int), keep_edge(w), crop_edge(w)),
        decreases edges@.len() - i,
    {
        let e = edges[i];
        proof {
            lemma_filter_map_step(edges@, i as int, keep_edge(w), crop_edge(w));
        }
        if w.row_lo <= e.row && e.row < w.row_hi && w.col_lo <= e.col && e.col < w.col_hi {
            out.push(GridEdge { row: e.row - w.row_lo, col: e.col - w.col_lo, fraction_bits: e.fraction_bits, id: e.id });
        }
        i += 1;
    }
    assert(edges@.take(i as int) =~= edges@);
    out
}

fn crop_lines(lines: &Vec<GridLine>, w: CropWindow) -> (out: Vec<GridLine>)
    requires
        w.wf(),
    ensures
        out@ == filter_map(lines@, keep_line(w), crop_line(w)),
{
    let mut out: Vec<GridLine> = Vec::new();
    let mut i: usize = 0;
    while i < lines.len()
        invariant
            w.wf(),
            i <= lines@.len(),
            out@ == filter_map(lines@.take(i as int), keep_line(w), crop_line(w)),
        decreases lines@.len() - i,
    {
        let l = lines[i];
        proof {
            lemma_filter_map_step(lines@, i as int, keep_line(w), crop_line(w));
        }
        if w.row_lo <= l.row && l.row < w.row_hi && w.col_lo <= l.col && l.col < w.col_hi {
            out.push(GridLine { row: l.row - w.row_lo, col: l.col - w.col_lo, length_bits: l.length_bits, id: l.id });
        }
        i += 1;
    }
    assert(lines@.take(i as int) =~= lines@);
    out
}

fn crop_points(points: &Vec<GridPoint>, w: CropWindow) -> (out: Vec<GridPoint>)
    requires
        w.wf(),
    ensures
        out@ == filter_map(points@, keep_point(w), crop_point(w)),
{
    let mut out: Vec<GridPoint> = Vec::new();
    let mut i: usize = 0;
    while i < points.len()
        invariant
            w.wf(),
            i <= points@.len(),
            out@ == filter_map(points@.take(i as int), keep_point(w), crop_point(w)),
        decreases points@.len() - i,
    {
        let p = points[i];
        proof {
            lemma_filter_map_step(points@, i as int, keep_point(w), crop_point(w));
        }
        if w.row_lo <= p.row && p.row < w.row_hi && w.col_lo <= p.col && p.col < w.col_hi {
            out.push(GridPoint { row: p.row - w.row_lo, col: p.col - w.col_lo, id: p.id });
        }
        i += 1;
    }
    assert(points@.take(i as int) =~= points@);
    out
}

/// A copy of the notes.
pub fn copy_notes(notes: &Vec<Note>) -> (out: Vec<Note>)
    ensures
        out@ == notes@,
{
    let mut out: Vec<Note> = Vec::new();
    let mut i: usize = 0;
    while i < notes.len()
        invariant
            i <= notes@.len(),
            out@ == notes@.take(i as int),
        decreases notes@.len() - i,
    {
        let n = &notes[i];
        out.push(Note { geom_index: n.geom_index, message: n.message.clone() });
        assert(out@ =~= notes@.take(i + 1));
        i += 1;
    }
    assert(notes@.take(i as int) =~= notes@);
    out
}

/// The four tables filtered to the window, indices rebased to 0 and runs
/// clipped to it; notes carried over unchanged.
pub fn crop_tables(result: &BurnResult, w: CropWindow) -> (out: BurnResult)
    requires
        w.wf(),
    ensures
        out.runs@ == filter_map(result.runs@, keep_run(w), crop_run(w)),
        out.edges@ == filter_map(result.edges@, keep_edge(w), crop_edge(w)),
        out.lines@ == filter_map(result.lines@, keep_line(w), crop_line(w)),
        out.points@ == filter_map(result.points@, keep_point(w), crop_point(w)),
        out.notes@ == result.notes@,
{
    BurnResult {
        runs: crop_runs(&result.runs, w),
        edges: crop_edges(&result.edges, w),
        lines: crop_lines(&result.lines, w),
        points: crop_points(&result.points, w),
        notes: copy_notes(&result.notes),
    }
}

/// Every record of a crop lies in the window as a grid of its own: rows
/// in `0..nrow`, columns in `0..ncol`, run ends in `1..=ncol`.
pub proof fn law_crop_rebases_to_window(result: BurnResult, w: CropWindow, k: int)
    requires
        w.wf(),
    ensures
        0 <= k < filter_map(result.runs@, keep_run(w), crop_run(w)).len() ==> {
            let r = filter_map(result.runs@, keep_run(w), crop_run(w))[k];
            0 <= r.row < w.nrow() && 0 <= r.col_start < w.ncol() && 0 < r.col_end <= w.ncol()
        },
        0 <= k < filter_map(result.edges@, keep_edge(w), crop_edge(w)).len() ==> {
            let e = filter_map(result.edges@, keep_edge(w), crop_edge(w))[k];
            0 <= e.row < w.nrow() && 0 <= e.col < w.ncol()
        },
        0 <= k < filter_map(result.lines@, keep_line(w), crop_line(w)).len() ==> {
            let l = filter_map(result.lines@, keep_line(w), crop_line(w))[k];
            0 <= l.row < w.nrow() && 0 <= l.col < w.ncol()
        },
        0 <= k < filter_map(result.points@, keep_point(w), crop_point(w)).len() ==> {
            let p = filter_map(result.points@, keep_point(w), crop_point(w))[k];
            0 <= p.row < w.nrow() && 0 <= p.col < w.ncol()
        },
{
    if 0 <= k < filter_map(result.runs@, keep_run(w), crop_run(w)).len() {
        lemma_filter_map_elements(result.runs@, keep_run(w), crop_run(w), k);
    }
    if 0 <= k < filter_map(result.edges@, keep_edge(w), crop_edge(w)).len() {
        lemma_filter_map_elements(result.edges@, keep_edge(w), crop_edge(w), k);
    }
    if 0 <= k < filter_map(result.lines@, keep_line(w), crop_line(w)).len() {
        lemma_filter_map_elements(result.lines@, keep_line(w), crop_line(w), k);
    }
    if 0 <= k < filter_map(result.points@, keep_point(w), crop_point(w)).len() {
        lemma_filter_map_elements(result.points@, keep_point(w), crop_point(w), k);
    }
}

/// The window a crop keeps: snapped 0-based half-open ranges clamped to
/// the `ncol` by `nrow` grid, or `None` when no cell of the grid is left.
pub fn clamp_window(col_lo: i64, col_hi: i64, row_lo: i64, row_hi: i64, ncol: u32, nrow: u32) -> (w: Option<
    CropWindow,
>)
    requires
        ncol <= i32::MAX,
        nrow <= i32::MAX,
    ensures
        ({
            let cl = max_i(col_lo as int, 0);
            let ch = min_i(col_hi as int, ncol as int);
            let rl = max_i(row_lo as int, 0);
            let rh = min_i(row_hi as int, nrow as int);
            &&& (w is None) == (cl >= ch || rl >= rh)
            &&& w matches Some(x) ==> x.col_lo == cl && x.col_hi == ch && x.row_lo == rl && x.row_hi == rh && x.wf()
        }),
{
    let cl = if col_lo > 0 { col_lo } else { 0 };
    let ch = if col_hi < ncol as i64 { col_hi } else { ncol as i64 };
    let rl = if row_lo > 0 { row_lo } else { 0 };
    let rh = if row_hi < nrow as i64 { row_hi } else { nrow as i64 };
    if cl >= ch || rl >= rh {
        None
    } else {
        Some(CropWindow { col_lo: cl as i32, col_hi: ch as i32, row_lo: rl as i32, row_hi: rh as i32 })
    }
}

proof fn lemma_filter_map_complete<A, B>(s: Seq<A>, keep: spec_fn(A) -> bool, f: spec_fn(A) -> B, j: int)
    requires
        0 <= j < s.len(),
        keep(s[j]),
    ensures
        exists|k: int| 0 <= k < filter_map(s, keep, f).len() && #[trigger] filter_map(s, keep, f)[k] == f(s[j]),
    decreases s.len(),
{
    let p = s.drop_last();
    let r = filter_map(s, keep, f);
    if j == s.len() - 1 {
        assert(r[r.len() - 1] == f(s[j]));
    } else {
        assert(p[j] == s[j]);
        lemma_filter_map_complete(p, keep, f, j);
        let k = choose|k: int| 0 <= k < filter_map(p, keep, f).len() && #[trigger] filter_map(p, keep, f)[k] == f(p[j]);
        if keep(s.last()) {
            assert(r[k] == filter_map(p, keep, f)[k]);
        }
    }
}

/// A crop keeps exactly what lies in the window. Every run on a window
/// row that reaches into the window's columns appears clipped to them
/// and rebased; every edge, line and point cell inside the window
/// appears rebased with its measure and id; and every cropped record is
/// one of these.
pub proof fn law_crop_keeps_window(result: BurnResult, w: CropWindow, j: int, k: int)
    requires
        w.wf(),
    ensures
        ({
            let r = result.runs@[j];
            0 <= j < result.runs@.len() && w.row_lo <= r.row < w.row_hi && r.col_start < w.col_hi && r.col_end
                > w.col_lo ==> exists|m: int|
                0 <= m < filter_map(result.runs@, keep_run(w), crop_run(w)).len() && #[trigger] filter_map(
                    result.runs@,
                    keep_run(w),
                    crop_run(w),
                )[m] == (GridRun {
                    row: (r.row - w.row_lo) as i32,
                    col_start: (max_i(r.col_start as int, w.col_lo as int) - w.col_lo) as i32,
                    col_end: (min_i(r.col_end as int, w.col_hi as int) - w.col_lo) as i32,
                    id: r.id,
                })
        }),
        ({
            let e = result.edges@[j];
            0 <= j < result.edges@.len() && w.row_lo <= e.row < w.row_hi && w.col_lo <= e.col < w.col_hi ==> exists|
                m: int,
            |
                0 <= m < filter_map(result.edges@, keep_edge(w), crop_edge(w)).len() && #[trigger] filter_map(
                    result.edges@,
                    keep_edge(w),
                    crop_edge(w),
                )[m] == (GridEdge {
                    row: (e.row - w.row_lo) as i32,
                    col: (e.col - w.col_lo) as i32,
                    fraction_bits: e.fraction_bits,
                    id: e.id,
                })
        }),
        ({
            let l = result.lines@[j];
            0 <= j < result.lines@.len() && w.row_lo <= l.row < w.row_hi && w.col_lo <= l.col < w.col_hi ==> exists|
                m: int,
            |
                0 <= m < filter_map(result.lines@, keep_line(w), crop_line(w)).len() && #[trigger] filter_map(
                    result.lines@,
                    keep_line(w),
                    crop_line(w),
                )[m] == (GridLine {
                    row: (l.row - w.row_lo) as i32,
                    col: (l.col - w.col_lo) as i32,
                    length_bits: l.length_bits,
                    id: l.id,
                })
        }),
        ({
            let pt = result.points@[j];
            0 <= j < result.points@.len() && w.row_lo <= pt.row < w.row_hi && w.col_lo <= pt.col < w.col_hi
                ==> exists|m: int|
                0 <= m < filter_map(result.points@, keep_point(w), crop_point(w)).len() && #[trigger] filter_map(
                    result.points@,
                    keep_point(w),
                    crop_point(w),
                )[m] == (GridPoint { row: (pt.row - w.row_lo) as i32, col: (pt.col - w.col_lo) as i32, id: pt.id })
        }),
        0 <= k < filter_map(result.lines@, keep_line(w), crop_line(w)).len() ==> exists|i: int|
            0 <= i < result.lines@.len() && w.row_lo <= (#[trigger] result.lines@[i]).row < w.row_hi && w.col_lo
                <= result.lines@[i].col < w.col_hi && filter_map(result.lines@, keep_line(w), crop_line(w))[k]
                == (GridLine {
                row: (result.lines@[i].row - w.row_lo) as i32,
                col: (result.lines@[i].col - w.col_lo) as i32,
                length_bits: result.lines@[i].length_bits,
                id: result.lines@[i].id,
            }),
        0 <= k < filter_map(result.points@, keep_point(w), crop_point(w)).len() ==> exists|i: int|
            0 <= i < result.points@.len() && w.row_lo <= (#[trigger] result.points@[i]).row < w.row_hi && w.col_lo
                <= result.points@[i].col < w.col_hi && filter_map(result.points@, keep_point(w), crop_point(w))[k]
                == (GridPoint {
                row: (result.points@[i].row - w.row_lo) as i32,
                col: (result.points@[i].col - w.col_lo) as i32,
                id: result.points@[i].id,
            }),
        0 <= k < filter_map(result.edges@, keep_edge(w), crop_edge(w)).len() ==> exists|i: int|
            0 <= i < result.edges@.len() && w.row_lo <= (#[trigger] result.edges@[i]).row < w.row_hi && w.col_lo
                <= result.edges@[i].col < w.col_hi && filter_map(result.edges@, keep_edge(w), crop_edge(w))[k]
                == (GridEdge {
                row: (result.edges@[i].row - w.row_lo) as i32,
                col: (result.edges@[i].col - w.col_lo) as i32,
                fraction_bits: result.edges@[i].fraction_bits,
                id: result.edges@[i].id,
            }),
        0 <= k < filter_map(result.runs@, keep_run(w), crop_run(w)).len() ==> exists|i: int|
            0 <= i < result.runs@.len() && w.row_lo <= (#[trigger] result.runs@[i]).row < w.row_hi
                && result.runs@[i].col_start < w.col_hi && result.runs@[i].col_end > w.col_lo && filter_map(
                result.runs@,
                keep_run(w),
                crop_run(w),
            )[k] == (GridRun {
                row: (result.runs@[i].row - w.row_lo) as i32,
                col_start: (max_i(result.runs@[i].col_start as int, w.col_lo as int) - w.col_lo) as i32,
                col_end: (min_i(result.runs@[i].col_end as int, w.col_hi as int) - w.col_lo) as i32,
                id: result.runs@[i].id,
            }),
{
    if 0 <= j < result.runs@.len() && keep_run(w)(result.runs@[j]) {
        lemma_filter_map_complete(result.runs@, keep_run(w), crop_run(w), j);
    }
    if 0 <= j < result.edges@.len() && keep_edge(w)(result.edges@[j]) {
        lemma_filter_map_complete(result.edges@, keep_edge(w), crop_edge(w), j);
    }
    if 0 <= j < result.lines@.len() && keep_line(w)(result.lines@[j]) {
        lemma_filter_map_complete(result.lines@, keep_line(w), crop_line(w), j);
    }
    if 0 <= j < result.points@.len() && keep_point(w)(result.points@[j]) {
        lemma_filter_map_complete(result.points@, keep_point(w), crop_point(w), j);
    }
    if 0 <= k < filter_map(result.lines@, keep_line(w), crop_line(w)).len() {
        lemma_filter_map_elements(result.lines@, keep_line(w), crop_line(w), k);
    }
    if 0 <= k < filter_map(result.points@, keep_point(w), crop_point(w)).len() {
        lemma_filter_map_elements(result.points@, keep_point(w), crop_point(w), k);
    }
    if 0 <= k < filter_map(result.edges@, keep_edge(w), crop_edge(w)).len() {
        lemma_filter_map_elements(result.edges@, keep_edge(w), crop_edge(w), k);
    }
    if 0 <= k < filter_map(result.runs@, keep_run(w), crop_run(w)).len() {
        lemma_filter_map_elements(result.runs@, keep_run(w), crop_run(w), k);
    }
}

// ---------------------------------------------------------------------
// Cropping and materializing commute

/// Write `wr` into a buffer `ncol` wide lands in the window.
pub open spec fn write_in_window(w: CropWindow, ncol: int) -> spec_fn(PixelWrite) -> bool {
    |wr: PixelWrite|
        w.row_lo <= wr.index as int / ncol < w.row_hi && w.col_lo <= wr.index as int % ncol < w.col_hi
}

/// The same write at its place in the window's own buffer.
pub open spec fn rebase_write(w: CropWindow, ncol: int) -> spec_fn(PixelWrite) -> PixelWrite {
    |wr: PixelWrite|
        PixelWrite {
            index: ((wr.index as int / ncol - w.row_lo) * w.ncol() + (wr.index as int % ncol - w.col_lo)) as usize,
            id: wr.id,
            edge_fraction_bits: wr.edge_fraction_bits,
        }
}

proof fn lemma_filter_map_add<A, B>(a: Seq<A>, b: Seq<A>, keep: spec_fn(A) -> bool, f: spec_fn(A) -> B)
    ensures
        filter_map(a + b, keep, f) == filter_map(a, keep, f) + filter_map(b, keep, f),
    decreases b.len(),
{
    if b.len() == 0 {
        assert(a + b =~= a);
        assert(filter_map(a, keep, f) + filter_map(b, keep, f) =~= filter_map(a, keep, f));
    } else {
        let b2 = b.drop_last();
        lemma_filter_map_add(a, b2, keep, f);
        assert((a + b).drop_last() =~= a + b2);
        assert((a + b).last() == b.last());
        if keep(b.last()) {
            assert(filter_map(a, keep, f) + filter_map(b, keep, f) =~= (filter_map(a, keep, f) + filter_map(b2, keep, f)).push(
                f(b.last()),
            ));
        }
    }
}

proof fn lemma_filter_map_push<A, B>(a: Seq<A>, x: A, keep: spec_fn(A) -> bool, f: spec_fn(A) -> B)
    ensures
        filter_map(a.push(x), keep, f) == if keep(x) {
            filter_map(a, keep, f).push(f(x))
        } else {
            filter_map(a, keep, f)
        },
{
    assert(a.push(x).drop_last() =~= a);
}

/// Position `(row, col)` of a buffer `ncol` wide.
proof fn lemma_cell_index(row: int, col: int, ncol: int, nrow: int)
    requires
        0 <= row < nrow,
        0 <= col < ncol,
        ncol * nrow <= usize::MAX,
    ensures
        0 <= row * ncol + col < ncol * nrow,
        (row * ncol + col) / ncol == row,
        (row * ncol + col) % ncol == col,
        ((row * ncol + col) as usize) as int == row * ncol + col,
{
    assert(0 <= row * ncol + col < ncol * nrow) by (nonlinear_arith)
        requires
            0 <= row < nrow,
            0 <= col < ncol,
    ;
    vstd::arithmetic::div_mod::lemma_fundamental_div_mod_converse(row * ncol + col, ncol, row, col);
}

/// The first window column a run reaches.
pub open spec fn run_first_col(r: GridRun, w: CropWindow) -> int {
    max_i(max_i(r.col_start as int, 0), w.col_lo as int)
}

/// How many of the first `n` writes of run `r` land in the window.
pub open spec fn window_count(r: GridRun, w: CropWindow, n: int) -> int {
    if w.in_rows(r.row) {
        max_i(0, min_i(max_i(r.col_start as int, 0) + n, w.col_hi as int) - run_first_col(r, w))
    } else {
        0
    }
}

/// The first `m` writes of run `r` that land in the window, rebased.
pub open spec fn cropped_writes(r: GridRun, w: CropWindow, m: int) -> Seq<PixelWrite> {
    Seq::new(
        m as nat,
        |j: int|
            PixelWrite {
                index: ((r.row - w.row_lo) * w.ncol() + (run_first_col(r, w) - w.col_lo) + j) as usize,
                id: r.id,
                edge_fraction_bits: None,
            },
    )
}

proof fn lemma_run_window_prefix(r: GridRun, w: CropWindow, ncol: int, nrow: int, n: int)
    requires
        w.wf(),
        w.col_hi <= ncol,
        w.row_hi <= nrow,
        ncol * nrow <= usize::MAX,
        0 <= r.row < nrow,
        0 <= n <= run_writes(r, ncol).len(),
    ensures
        filter_map(run_writes(r, ncol).take(n), write_in_window(w, ncol), rebase_write(w, ncol)) == cropped_writes(
            r,
            w,
            window_count(r, w, n),
        ),
    decreases n,
{
    let rw = run_writes(r, ncol);
    let keep = write_in_window(w, ncol);
    let reb = rebase_write(w, ncol);
    let c0 = max_i(r.col_start as int, 0);
    let a = run_first_col(r, w);
    if n == 0 {
        assert(rw.take(0) =~= Seq::<PixelWrite>::empty());
        assert(cropped_writes(r, w, window_count(r, w, 0)) =~= Seq::<PixelWrite>::empty());
    } else {
        let i = n - 1;
        lemma_run_window_prefix(r, w, ncol, nrow, i);
        lemma_filter_map_step(rw, i, keep, reb);
        let col = c0 + i;
        assert(0 <= col < ncol);
        lemma_cell_index(r.row as int, col, ncol, nrow);
        assert(rw[i].index as int == r.row * ncol + col);
        assert(rw[i].index as int / ncol == r.row);
        assert(rw[i].index as int % ncol == col);
        let m = window_count(r, w, i);
        if keep(rw[i]) {
            assert(w.in_rows(r.row) && w.col_lo <= col < w.col_hi);
            assert(m == col - a);
            assert(window_count(r, w, n) == m + 1);
            assert(cropped_writes(r, w, m + 1) =~= cropped_writes(r, w, m).push(reb(rw[i])));
        } else {
            assert(window_count(r, w, n) == m);
        }
    }
}

proof fn lemma_run_window(r: GridRun, w: CropWindow, ncol: int, nrow: int)
    requires
        w.wf(),
        w.col_hi <= ncol,
        w.row_hi <= nrow,
        ncol * nrow <= usize::MAX,
        0 <= r.row < nrow,
    ensures
        filter_map(run_writes(r, ncol), write_in_window(w, ncol), rebase_write(w, ncol)) == if keep_run(w)(r) {
            run_writes(crop_run(w)(r), w.ncol())
        } else {
            Seq::empty()
        },
{
    let rw = run_writes(r, ncol);
    lemma_run_window_prefix(r, w, ncol, nrow, rw.len() as int);
    assert(rw.take(rw.len() as int) =~= rw);
    let c0 = max_i(r.col_start as int, 0);
    let c1 = min_i(r.col_end as int, ncol);
    let a = run_first_col(r, w);
    let m = window_count(r, w, rw.len() as int);
    if keep_run(w)(r) {
        let r2 = crop_run(w)(r);
        assert(r2.row == r.row - w.row_lo);
        assert(r2.col_start == a - w.col_lo);
        assert(r2.col_end == min_i(r.col_end as int, w.col_hi as int) - w.col_lo);
        assert(m == max_i(0, min_i(r.col_end as int, w.col_hi as int) - a));
        assert(run_writes(r2, w.ncol()) =~= cropped_writes(r, w, m));
    } else {
        assert(m == 0);
        assert(cropped_writes(r, w, 0) =~= Seq::<PixelWrite>::empty());
    }
}

proof fn lemma_plan_runs_crop(s: Seq<GridRun>, w: CropWindow, ncol: int, nrow: int, n_values: Option<usize>)
    requires
        w.wf(),
        w.col_hi <= ncol,
        w.row_hi <= nrow,
        ncol * nrow <= usize::MAX,
        plan_runs(s, ncol, nrow, n_values).1 is None,
    ensures
        plan_runs(filter_map(s, keep_run(w), crop_run(w)), w.ncol(), w.nrow(), n_values) == (filter_map(
            plan_runs(s, ncol, nrow, n_values).0,
            write_in_window(w, ncol),
            rebase_write(w, ncol),
        ), None::<i32>),
    decreases s.len(),
{
    if s.len() == 0 {
        assert(filter_map(s, keep_run(w), crop_run(w)) =~= Seq::<GridRun>::empty());
    } else {
        let p = s.drop_last();
        let x = s.last();
        assert(x == s[s.len() - 1]);
        assert(plan_runs(p, ncol, nrow, n_values).1 is None);
        lemma_plan_runs_crop(p, w, ncol, nrow, n_values);
        let keep = write_in_window(w, ncol);
        let reb = rebase_write(w, ncol);
        let full_p = plan_runs(p, ncol, nrow, n_values).0;
        let fp = filter_map(p, keep_run(w), crop_run(w));
        assert(p.push(x) =~= s);
        lemma_filter_map_push(p, x, keep_run(w), crop_run(w));
        if 0 <= x.row < nrow {
            lemma_run_window(x, w, ncol, nrow);
            lemma_filter_map_add(full_p, run_writes(x, ncol), keep, reb);
            if keep_run(w)(x) {
                let x2 = crop_run(w)(x);
                assert(fp.push(x2).drop_last() =~= fp);
                assert(fp.push(x2).last() == x2);
            } else {
                assert(filter_map(full_p + run_writes(x, ncol), keep, reb) =~= filter_map(full_p, keep, reb));
            }
        } else {
            assert(!keep_run(w)(x));
        }
    }
}

proof fn lemma_plan_edges_crop(s: Seq<GridEdge>, w: CropWindow, ncol: int, nrow: int, n_values: Option<usize>)
    requires
        w.wf(),
        w.col_hi <= ncol,
        w.row_hi <= nrow,
        ncol * nrow <= usize::MAX,
        plan_edges(s, ncol, nrow, n_values).1 is None,
    ensures
        plan_edges(filter_map(s, keep_edge(w), crop_edge(w)), w.ncol(), w.nrow(), n_values) == (filter_map(
            plan_edges(s, ncol, nrow, n_values).0,
            write_in_window(w, ncol),
            rebase_write(w, ncol),
        ), None::<i32>),
    decreases s.len(),
{
    if s.len() == 0 {
        assert(filter_map(s, keep_edge(w), crop_edge(w)) =~= Seq::<GridEdge>::empty());
    } else {
        let p = s.drop_last();
        let x = s.last();
        assert(x == s[s.len() - 1]);
        assert(plan_edges(p, ncol, nrow, n_values).1 is None);
        lemma_plan_edges_crop(p, w, ncol, nrow, n_values);
        let keep = write_in_window(w, ncol);
        let reb = rebase_write(w, ncol);
        let full_p = plan_edges(p, ncol, nrow, n_values).0;
        let fp = filter_map(p, keep_edge(w), crop_edge(w));
        assert(p.push(x) =~= s);
        lemma_filter_map_push(p, x, keep_edge(w), crop_edge(w));
        if 0 <= x.row < nrow && 0 <= x.col < ncol {
            let wr = PixelWrite {
                index: (x.row * ncol + x.col) as usize,
                id: x.id,
                edge_fraction_bits: Some(x.fraction_bits),
            };
            lemma_cell_index(x.row as int, x.col as int, ncol, nrow);
            lemma_filter_map_push(full_p, wr, keep, reb);
            if keep_edge(w)(x) {
                let x2 = crop_edge(w)(x);
                assert(fp.push(x2).drop_last() =~= fp);
                assert(fp.push(x2).last() == x2);
                assert(reb(wr).index == ((x2.row * w.ncol() + x2.col) as usize));
            }
        } else {
            assert(!keep_edge(w)(x));
        }
    }
}

/// Cropping and materializing commute: when a dense burn of the full
/// tables succeeds, so does a dense burn of the cropped tables into the
/// window's own buffer, and its pixel writes are the writes of the full
/// burn that land in the window, in the same order, with the same
/// geometries and fractions, each at its place in the window. So a tile
/// cut by cropping first equals the same cells of the full buffer.
pub proof fn law_crop_then_plan(
    result: BurnResult,
    out: BurnResult,
    w: CropWindow,
    ncol: int,
    nrow: int,
    n_values: Option<usize>,
)
    requires
        w.wf(),
        w.col_hi <= ncol,
        w.row_hi <= nrow,
        ncol * nrow <= usize::MAX,
        out.runs@ == filter_map(result.runs@, keep_run(w), crop_run(w)),
        out.edges@ == filter_map(result.edges@, keep_edge(w), crop_edge(w)),
        plan(result, ncol, nrow, n_values).1 is None,
    ensures
        plan(out, w.ncol(), w.nrow(), n_values) == (filter_map(
            plan(result, ncol, nrow, n_values).0,
            write_in_window(w, ncol),
            rebase_write(w, ncol),
        ), None::<i32>),
{
    assert(plan_runs(result.runs@, ncol, nrow, n_values).1 is None);
    lemma_plan_runs_crop(result.runs@, w, ncol, nrow, n_values);
    assert(plan_edges(result.edges@, ncol, nrow, n_values).1 is None);
    lemma_plan_edges_crop(result.edges@, w, ncol, nrow, n_values);
    lemma_filter_map_add(
        plan_runs(result.runs@, ncol, nrow, n_values).0,
        plan_edges(result.edges@, ncol, nrow, n_values).0,
        write_in_window(w, ncol),
        rebase_write(w, ncol),
    );
}

} // verus!
