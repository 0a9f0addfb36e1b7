//! Burning a sparse result into a dense row-major pixel buffer.
//!
//! The buffer holds `ncol * nrow` `f64` values, row 0 (top) first. What is
//! decided here is which pixels are written, in which order, on behalf of
//! which geometry, and when the operation fails: every in-grid cell of
//! every run (clipped to the grid), then every in-grid edge cell, each
//! checked for a burn value before it is written. Combining values with
//! the pixel function is arithmetic on `f64` done by the caller, which
//! also applies the edge policy to each edge write.

use vstd::prelude::*;
use vstd::string::StringExecFns;
use crate::error::BurnError;
use crate::output::{BurnResult, GridEdge, GridRun};
use crate::text::{decimal, push_decimal};

verus! {

/// Reduction applied when several geometries touch one pixel.
#[derive(Clone, Copy, Debug, PartialEq, Eq, Structural)]
pub enum PixelFn {
    /// Keep the first value written.
    First,
    /// Overwrite with each new value.
    Last,
    Sum,
    Min,
    Max,
    /// Number of geometries touching the pixel (ignores value).
    Count,
    /// 1 if touched.
    Any,
}

impl Default for PixelFn {
    fn default() -> (f: Self)
        ensures
            f == PixelFn::Last,
    {
        PixelFn::Last
    }
}

/// What an edge (boundary) cell contributes.
#[derive(Clone, Copy, Debug, PartialEq, Eq, Structural)]
pub enum EdgePolicy {
    /// value * coverage fraction, combined per `PixelFn`.
    Fraction,
    /// All-or-nothing at the threshold.
    Threshold,
}

impl Default for EdgePolicy {
    fn default() -> (p: Self)
        ensures
            p == EdgePolicy::Threshold,
    {
        EdgePolicy::Threshold
    }
}

/// Options of `materialize`; `threshold_bits` is the bit pattern of the
/// `f64` fraction threshold.
#[derive(Clone, Copy, Debug, PartialEq, Eq, Structural)]
pub struct MaterializeOptions {
    pub fn_: PixelFn,
    pub edge_policy: EdgePolicy,
    pub threshold_bits: u64,
}

impl Default for MaterializeOptions {
    /// `Last`, `Threshold`, threshold 0.5.
    fn default() -> (o: Self)
        ensures
            o == (MaterializeOptions { fn_: PixelFn::Last, edge_policy: EdgePolicy::Threshold, threshold_bits: 0x3fe0_0000_0000_0000 }),
    {
        MaterializeOptions { fn_: PixelFn::Last, edge_policy: EdgePolicy::Threshold, threshold_bits: 0x3fe0_0000_0000_0000 }
    }
}

/// One write into the buffer: pixel `index`, on behalf of geometry `id`;
/// `edge_fraction_bits` is the `f32` coverage fraction of an edge cell,
/// `None` for a fully covered run cell.
#[derive(Clone, Copy, Debug, PartialEq, Eq, Structural)]
pub struct PixelWrite {
    pub index: usize,
    pub id: i32,
    pub edge_fraction_bits: Option<u32>,
}

/// Geometry `id` has a burn value: always when the id itself is burned
/// (`n_values` is `None`), else when it numbers one of the `n` values
/// (ids count from 1: the value of id `k` is the `k`-th, `values[k - 1]`).
pub open spec fn has_value(id: i32, n_values: Option<usize>) -> bool {
    match n_values {
        None => true,
        Some(n) => 1 <= id <= n,
    }
}

pub open spec fn max_i(a: int, b: int) -> int {
    if a > b {
        a
    } else {
        b
    }
}

pub open spec fn min_i(a: int, b: int) -> int {
    if a < b {
        a
    } else {
        b
    }
}

/// The writes of one in-grid run: its columns clipped to `0..ncol`.
pub open spec fn run_writes(r: GridRun, ncol: int) -> Seq<PixelWrite> {
    let c0 = max_i(r.col_start as int, 0);
    let c1 = min_i(r.col_end as int, ncol);
    Seq::new(
        if c1 > c0 {
            (c1 - c0) as nat
        } else {
            0
        },
        |j: int| PixelWrite { index: (r.row * ncol + c0 + j) as usize, id: r.id, edge_fraction_bits: None },
    )
}

/// Writes of the runs in order, and the id of the first in-grid run
/// without a burn value, where the writes stop.
pub open spec fn plan_runs(s: Seq<GridRun>, ncol: int, nrow: int, n_values: Option<usize>) -> (Seq<PixelWrite>, Option<i32>)
    decreases s.len(),
{
    if s.len() == 0 {
        (Seq::empty(), None)
    } else {
        let (w, bad) = plan_runs(s.drop_last(), ncol, nrow, n_values);
        let r = s.last();
        if bad is Some {
            (w, bad)
        } else if r.row < 0 || r.row >= nrow {
            (w, None)
        } else if !has_value(r.id, n_values) {
            (w, Some(r.id))
        } else {
            (w + run_writes(r, ncol), None)
        }
    }
}

/// Writes of the edge cells in order, and the id of the first in-grid
/// edge without a burn value, where the writes stop.
pub open spec fn plan_edges(s: Seq<GridEdge>, ncol: int, nrow: int, n_values: Option<usize>) -> (Seq<PixelWrite>, Option<i32>)
    decreases s.len(),
{
    if s.len() == 0 {
        (Seq::empty(), None)
    } else {
        let (w, bad) = plan_edges(s.drop_last(), ncol, nrow, n_values);
        let e = s.last();
        if bad is Some {
            (w, bad)
        } else if e.row < 0 || e.row >= nrow || e.col < 0 || e.col >= ncol {
            (w, None)
        } else if !has_value(e.id, n_values) {
            (w, Some(e.id))
        } else {
            (
                w.push(
                    PixelWrite {
                        index: (e.row * ncol + e.col) as usize,
                        id: e.id,
                        edge_fraction_bits: Some(e.fraction_bits),
                    },
                ),
                None,
            )
        }
    }
}

/// All writes (runs first, then edges), and the offending id if the plan
/// stops early.
pub open spec fn plan(result: BurnResult, ncol: int, nrow: int, n_values: Option<usize>) -> (Seq<PixelWrite>, Option<i32>) {
    let (w1, bad1) = plan_runs(result.runs@, ncol, nrow, n_values);
    if bad1 is Some {
        (w1, bad1)
    } else {
        let (w2, bad2) = plan_edges(result.edges@, ncol, nrow, n_values);
        (w1 + w2, bad2)
    }
}

/// The error for a missing burn value of geometry `id`.
pub open spec fn id_error(id: i32, n_values: Option<usize>) -> BurnError {
    BurnError::IdOutOfRange {
        id,
        values: match n_values {
            Some(n) => n,
            None => 0,
        },
    }
}

proof fn lemma_index_bound(row: int, col: int, ncol: int, nrow: int)
    requires
        0 <= row < nrow,
        0 <= col < ncol,
    ensures
        0 <= row * ncol <= row * ncol + col < nrow * ncol,
{
    assert(0 <= row * ncol <= row * ncol + col < nrow * ncol) by (nonlinear_arith)
        requires
            0 <= row < nrow,
            0 <= col < ncol,
    ;
}

fn value_available(id: i32, n_values: Option<usize>) -> (b: bool)
    ensures
        b == has_value(id, n_values),
{
    match n_values {
        None => true,
        Some(n) => 1 <= id && (id as usize) <= n,
    }
}

/// The pixel writes of `materialize` for a buffer of `buffer_len` values
/// and `ncol` by `nrow` pixels, with `n_values` burn values (or the ids
/// themselves), and its outcome: an invalid buffer fails before any write;
/// a geometry without a burn value fails after the writes before it.
pub fn materialize_plan(
    result: &BurnResult,
    buffer_len: usize,
    ncol: u32,
    nrow: u32,
    n_values: Option<usize>,
) -> (r: (Vec<PixelWrite>, Result<(), BurnError>))
    ensures
        ncol == 0 || nrow == 0 ==> r.0@.len() == 0 && (r.1 matches Err(BurnError::InvalidBuffer(m))
            && m@ == "invalid dimensions"@),
        ncol > 0 && nrow > 0 && buffer_len != ncol * nrow ==> r.0@.len() == 0 && (r.1 matches Err(
            BurnError::InvalidBuffer(m),
        ) && m@ == "buffer length "@ + decimal(buffer_len as nat) + " does not match ncol * nrow = "@
            + decimal((ncol * nrow) as nat)),
        ncol > 0 && nrow > 0 && buffer_len == ncol * nrow ==> {
            let (w, bad) = plan(*result, ncol as int, nrow as int, n_values);
            &&& r.0@ == w
            &&& bad is None ==> r.1 is Ok
            &&& bad matches Some(id) ==> r.1 == Err::<(), BurnError>(id_error(id, n_values))
        },
        forall|k: int| 0 <= k < r.0@.len() ==> #[trigger] r.0@[k].index < buffer_len,
{
    let mut writes: Vec<PixelWrite> = Vec::new();
    if ncol == 0 || nrow == 0 {
        return (writes, Err(BurnError::InvalidBuffer("invalid dimensions".to_owned())));
    }
    assert(ncol as u64 * nrow as u64 <= 0xffff_fffe_0000_0001) by (nonlinear_arith)
        requires
            ncol <= 0xffff_ffff,
            nrow <= 0xffff_ffff,
    ;
    let expected: u64 = ncol as u64 * nrow as u64;
    if buffer_len as u64 != expected {
        let mut m = "buffer length ".to_owned();
        push_decimal(&mut m, buffer_len as u64);
        m.append(" does not match ncol * nrow = ");
        push_decimal(&mut m, expected);
        return (writes, Err(BurnError::InvalidBuffer(m)));
    }
    let ncol_i: i64 = ncol as i64;
    let nrow_i: i64 = nrow as i64;
    let ghost nc = ncol as int;
    let ghost nr = nrow as int;
    let runs = &result.runs;
    let mut i: usize = 0;
    while i < runs.len()
        invariant
            nc == ncol && nr == nrow && ncol > 0 && nrow > 0,
            buffer_len == nc * nr,
            ncol_i == nc && nrow_i == nr,
            i <= runs@.len(),
            runs@ == result.runs@,
            plan_runs(runs@.take(i as int), nc, nr, n_values) == (writes@, None::<i32>),
            forall|k: int| 0 <= k < writes@.len() ==> #[trigger] writes@[k].index < buffer_len,
        decreases runs@.len() - i,
    {
        let r = runs[i];
        proof {
            assert(runs@.take(i + 1).drop_last() =~= runs@.take(i as int));
            assert(runs@.take(i + 1).last() == r);
        }
        if r.row >= 0 && (r.row as i64) < nrow_i {
            if !value_available(r.id, n_values) {
                proof {
                    assert(plan_runs(runs@.take(i + 1), nc, nr, n_values) == (writes@, Some(r.id)));
                    lemma_plan_runs_stuck(runs@, (i + 1) as int, nc, nr, n_values);
                }
                return (writes, Err(BurnError::IdOutOfRange { id: r.id, values: match n_values {
                    Some(n) => n,
                    None => 0,
                } }));
            }
            let c0: i64 = if r.col_start > 0 { r.col_start as i64 } else { 0 };
            let c1: i64 = if (r.col_end as i64) < ncol_i { r.col_end as i64 } else { ncol_i };
            let ghost before = writes@;
            let mut c: i64 = c0;
            while c < c1
                invariant
                    nc == ncol && nr == nrow && ncol > 0 && nrow > 0,
                    buffer_len == nc * nr,
                    ncol_i == nc,
                    0 <= r.row < nr,
                    c0 == max_i(r.col_start as int, 0),
                    c1 == min_i(r.col_end as int, nc),
                    c0 <= c <= if c1 > c0 { c1 } else { c0 },
                    writes@ == before + run_writes(r, nc).take(c - c0),
                    forall|k: int| 0 <= k < writes@.len() ==> #[trigger] writes@[k].index < buffer_len,
                decreases c1 - c,
            {
                proof {
                    lemma_index_bound(r.row as int, c as int, nc, nr);
                }
                let index = (r.row as u64 * ncol as u64 + c as u64) as usize;
                let ghost w0 = writes@;
                writes.push(PixelWrite { index, id: r.id, edge_fraction_bits: None });
                proof {
                    assert(run_writes(r, nc).take(c + 1 - c0) =~= run_writes(r, nc).take(c - c0).push(
                        run_writes(r, nc)[c - c0],
                    ));
                    assert forall|k: int| 0 <= k < writes@.len() implies #[trigger] writes@[k].index < buffer_len by {
                        if k < w0.len() {
                            assert(writes@[k] == w0[k]);
                        }
                    }
                }
                c += 1;
            }
            proof {
                assert(run_writes(r, nc).take(c - c0) =~= run_writes(r, nc));
            }
        }
        i += 1;
    }
    proof {
        assert(runs@.take(i as int) =~= runs@);
    }
    let ghost run_w = writes@;
    let edges = &result.edges;
    let mut j: usize = 0;
    while j < edges.len()
        invariant
            nc == ncol && nr == nrow && ncol > 0 && nrow > 0,
            buffer_len == nc * nr,
            ncol_i == nc && nrow_i == nr,
            j <= edges@.len(),
            runs@ == result.runs@,
            edges@ == result.edges@,
            plan_runs(runs@, nc, nr, n_values) == (run_w, None::<i32>),
            ({
                let (w2, bad2) = plan_edges(edges@.take(j as int), nc, nr, n_values);
                writes@ == run_w + w2 && bad2 is None
            }),
            forall|k: int| 0 <= k < writes@.len() ==> #[trigger] writes@[k].index < buffer_len,
        decreases edges@.len() - j,
    {
        let e = edges[j];
        proof {
            assert(edges@.take(j + 1).drop_last() =~= edges@.take(j as int));
            assert(edges@.take(j + 1).last() == e);
        }
        if e.row >= 0 && (e.row as i64) < nrow_i && e.col >= 0 && (e.col as i64) < ncol_i {
            if !value_available(e.id, n_values) {
                proof {
                    let (w2, bad2) = plan_edges(edges@.take(j as int), nc, nr, n_values);
                    assert(plan_edges(edges@.take(j + 1), nc, nr, n_values) == (w2, Some(e.id)));
                    lemma_plan_edges_stuck(edges@, (j + 1) as int, nc, nr, n_values);
                    assert(edges@.take(edges@.len() as int) =~= edges@);
                }
                return (writes, Err(BurnError::IdOutOfRange { id: e.id, values: match n_values {
                    Some(n) => n,
                    None => 0,
                } }));
            }
            proof {
                lemma_index_bound(e.row as int, e.col as int, nc, nr);
            }
            let index = (e.row as u64 * ncol as u64 + e.col as u64) as usize;
            let ghost w0 = writes@;
            writes.push(PixelWrite { index, id: e.id, edge_fraction_bits: Some(e.fraction_bits) });
            proof {
                let (w2, bad2) = plan_edges(edges@.take(j as int), nc, nr, n_values);
                assert(writes@ =~= run_w + w2.push(writes@.last()));
                assert forall|k: int| 0 <= k < writes@.len() implies #[trigger] writes@[k].index < buffer_len by {
                    if k < w0.len() {
                        assert(writes@[k] == w0[k]);
                    }
                }
            }
        }
        j += 1;
    }
    proof {
        assert(edges@.take(j as int) =~= edges@);
    }
    (writes, Ok(()))
}

/// Once the run plan stops at an id, later runs change nothing.
proof fn lemma_plan_runs_stuck(s: Seq<GridRun>, k: int, ncol: int, nrow: int, n_values: Option<usize>)
    requires
        0 <= k <= s.len(),
        plan_runs(s.take(k), ncol, nrow, n_values).1 is Some,
    ensures
        plan_runs(s, ncol, nrow, n_values) == plan_runs(s.take(k), ncol, nrow, n_values),
    decreases s.len() - k,
{
    if k < s.len() {
        assert(s.take(k + 1).drop_last() =~= s.take(k));
        lemma_plan_runs_stuck(s, k + 1, ncol, nrow, n_values);
    } else {
        assert(s.take(k) =~= s);
    }
}

/// Once the edge plan stops at an id, later edges change nothing.
proof fn lemma_plan_edges_stuck(s: Seq<GridEdge>, k: int, ncol: int, nrow: int, n_values: Option<usize>)
    requires
        0 <= k <= s.len(),
        plan_edges(s.take(k), ncol, nrow, n_values).1 is Some,
    ensures
        plan_edges(s, ncol, nrow, n_values) == plan_edges(s.take(k), ncol, nrow, n_values),
    decreases s.len() - k,
{
    if k < s.len() {
        assert(s.take(k + 1).drop_last() =~= s.take(k));
        lemma_plan_edges_stuck(s, k + 1, ncol, nrow, n_values);
    } else {
        assert(s.take(k) =~= s);
    }
}

/// Write `wr` goes to a cell of run `r` inside the `ncol` by `nrow` grid,
/// on behalf of the run's geometry.
pub open spec fn writes_run_cell(wr: PixelWrite, r: GridRun, ncol: int, nrow: int) -> bool {
    let col = wr.index - r.row * ncol;
    &&& 0 <= r.row < nrow
    &&& 0 <= col < ncol
    &&& r.col_start <= col < r.col_end
    &&& wr.id == r.id
    &&& wr.edge_fraction_bits is None
}

/// Write `wr` goes to the cell of edge `e`, inside the grid, with its
/// fraction, on behalf of its geometry.
pub open spec fn writes_edge_cell(wr: PixelWrite, e: GridEdge, ncol: int, nrow: int) -> bool {
    &&& 0 <= e.row < nrow
    &&& 0 <= e.col < ncol
    &&& wr.index == e.row * ncol + e.col
    &&& wr.id == e.id
    &&& wr.edge_fraction_bits == Some(e.fraction_bits)
}

proof fn lemma_plan_runs_cells(s: Seq<GridRun>, ncol: int, nrow: int, n_values: Option<usize>)
    requires
        0 < ncol,
        0 < nrow,
        ncol * nrow <= usize::MAX,
    ensures
        forall|k: int|
            0 <= k < plan_runs(s, ncol, nrow, n_values).0.len() ==> exists|j: int|
                0 <= j < s.len() && writes_run_cell(
                    #[trigger] plan_runs(s, ncol, nrow, n_values).0[k],
                    #[trigger] s[j],
                    ncol,
                    nrow,
                ),
    decreases s.len(),
{
    assert(nrow * ncol == ncol * nrow) by (nonlinear_arith);
    if s.len() > 0 {
        let p = s.drop_last();
        lemma_plan_runs_cells(p, ncol, nrow, n_values);
        let (w, bad) = plan_runs(p, ncol, nrow, n_values);
        let r = s.last();
        let last = s.len() - 1;
        assert(s[last] == r);
        let w2 = plan_runs(s, ncol, nrow, n_values).0;
        assert forall|k: int| 0 <= k < w2.len() implies exists|j: int|
            0 <= j < s.len() && writes_run_cell(#[trigger] w2[k], #[trigger] s[j], ncol, nrow) by {
            if k < w.len() {
                assert(w2[k] == w[k]);
                let j = choose|j: int| 0 <= j < p.len() && writes_run_cell(#[trigger] w[k], #[trigger] p[j], ncol, nrow);
                assert(s[j] == p[j]);
            } else {
                let c0 = max_i(r.col_start as int, 0);
                let i = k - w.len();
                let col = c0 + i;
                assert(w2[k] == run_writes(r, ncol)[i]);
                assert(0 <= col < ncol);
                lemma_index_bound(r.row as int, col, ncol, nrow);
                assert(w2[k].index == r.row * ncol + col);
                assert(writes_run_cell(w2[k], s[last], ncol, nrow));
            }
        }
    }
}

proof fn lemma_plan_edges_cells(s: Seq<GridEdge>, ncol: int, nrow: int, n_values: Option<usize>)
    requires
        0 < ncol,
        0 < nrow,
        ncol * nrow <= usize::MAX,
    ensures
        forall|k: int|
            0 <= k < plan_edges(s, ncol, nrow, n_values).0.len() ==> exists|j: int|
                0 <= j < s.len() && writes_edge_cell(
                    #[trigger] plan_edges(s, ncol, nrow, n_values).0[k],
                    #[trigger] s[j],
                    ncol,
                    nrow,
                ),
    decreases s.len(),
{
    assert(nrow * ncol == ncol * nrow) by (nonlinear_arith);
    if s.len() > 0 {
        let p = s.drop_last();
        lemma_plan_edges_cells(p, ncol, nrow, n_values);
        let (w, bad) = plan_edges(p, ncol, nrow, n_values);
        let e = s.last();
        let last = s.len() - 1;
        assert(s[last] == e);
        let w2 = plan_edges(s, ncol, nrow, n_values).0;
        assert forall|k: int| 0 <= k < w2.len() implies exists|j: int|
            0 <= j < s.len() && writes_edge_cell(#[trigger] w2[k], #[trigger] s[j], ncol, nrow) by {
            if k < w.len() {
                assert(w2[k] == w[k]);
                let j = choose|j: int| 0 <= j < p.len() && writes_edge_cell(#[trigger] w[k], #[trigger] p[j], ncol, nrow);
                assert(s[j] == p[j]);
            } else {
                lemma_index_bound(e.row as int, e.col as int, ncol, nrow);
                assert(writes_edge_cell(w2[k], s[last], ncol, nrow));
            }
        }
    }
}

/// A dense burn writes only the cells the result covers: each planned
/// write goes to a cell of one of its runs, on behalf of that run's
/// geometry, or to the cell of one of its edges with that edge's fraction.
pub proof fn law_plan_writes_covered_cells(result: BurnResult, ncol: int, nrow: int, n_values: Option<usize>)
    requires
        0 < ncol,
        0 < nrow,
        ncol * nrow <= usize::MAX,
    ensures
        forall|k: int|
            0 <= k < plan(result, ncol, nrow, n_values).0.len() ==> {
                let wr = #[trigger] plan(result, ncol, nrow, n_values).0[k];
                (exists|j: int| 0 <= j < result.runs@.len() && writes_run_cell(wr, #[trigger] result.runs@[j], ncol, nrow))
                    || (exists|j: int|
                    0 <= j < result.edges@.len() && writes_edge_cell(wr, #[trigger] result.edges@[j], ncol, nrow))
            },
{
    lemma_plan_runs_cells(result.runs@, ncol, nrow, n_values);
    lemma_plan_edges_cells(result.edges@, ncol, nrow, n_values);
    let (w1, bad1) = plan_runs(result.runs@, ncol, nrow, n_values);
    let all = plan(result, ncol, nrow, n_values).0;
    assert forall|k: int| 0 <= k < all.len() implies {
        let wr = #[trigger] all[k];
        (exists|j: int| 0 <= j < result.runs@.len() && writes_run_cell(wr, #[trigger] result.runs@[j], ncol, nrow))
            || (exists|j: int| 0 <= j < result.edges@.len() && writes_edge_cell(wr, #[trigger] result.edges@[j], ncol, nrow))
    } by {
        if k < w1.len() {
            assert(all[k] == w1[k]);
            let j = choose|j: int|
                0 <= j < result.runs@.len() && writes_run_cell(#[trigger] w1[k], #[trigger] result.runs@[j], ncol, nrow);
            assert(writes_run_cell(all[k], result.runs@[j], ncol, nrow));
        } else {
            let w2 = plan_edges(result.edges@, ncol, nrow, n_values).0;
            assert(all[k] == w2[k - w1.len()]);
            let j = choose|j: int|
                0 <= j < result.edges@.len() && writes_edge_cell(#[trigger] w2[k - w1.len()], #[trigger] result.edges@[j], ncol, nrow);
            assert(writes_edge_cell(all[k], result.edges@[j], ncol, nrow));
        }
    }
}

proof fn lemma_plan_runs_complete(s: Seq<GridRun>, ncol: int, nrow: int, n_values: Option<usize>, j: int, c: int)
    requires
        0 < ncol,
        0 < nrow,
        ncol * nrow <= usize::MAX,
        plan_runs(s, ncol, nrow, n_values).1 is None,
        0 <= j < s.len(),
        0 <= s[j].row < nrow,
        0 <= c < ncol,
        s[j].col_start <= c < s[j].col_end,
    ensures
        exists|k: int|
            0 <= k < plan_runs(s, ncol, nrow, n_values).0.len() && #[trigger] plan_runs(s, ncol, nrow, n_values).0[k]
                == (PixelWrite { index: (s[j].row * ncol + c) as usize, id: s[j].id, edge_fraction_bits: None }),
    decreases s.len(),
{
    let p = s.drop_last();
    let x = s.last();
    let (w, bad) = plan_runs(p, ncol, nrow, n_values);
    assert(bad is None);
    let w2 = plan_runs(s, ncol, nrow, n_values).0;
    if j < p.len() {
        assert(p[j] == s[j]);
        lemma_plan_runs_complete(p, ncol, nrow, n_values, j, c);
        let k = choose|k: int|
            0 <= k < w.len() && #[trigger] w[k] == (PixelWrite {
                index: (p[j].row * ncol + c) as usize,
                id: p[j].id,
                edge_fraction_bits: None,
            });
        assert(w2[k] == w[k]);
    } else {
        assert(x == s[j]);
        assert(has_value(x.id, n_values));
        assert(w2 == w + run_writes(x, ncol));
        let c0 = max_i(x.col_start as int, 0);
        let k = w.len() + (c - c0);
        assert(w2[k] == run_writes(x, ncol)[c - c0]);
    }
}

proof fn lemma_plan_edges_complete(s: Seq<GridEdge>, ncol: int, nrow: int, n_values: Option<usize>, j: int)
    requires
        plan_edges(s, ncol, nrow, n_values).1 is None,
        0 <= j < s.len(),
        0 <= s[j].row < nrow,
        0 <= s[j].col < ncol,
    ensures
        exists|k: int|
            0 <= k < plan_edges(s, ncol, nrow, n_values).0.len() && #[trigger] plan_edges(s, ncol, nrow, n_values).0[k]
                == (PixelWrite {
                index: (s[j].row * ncol + s[j].col) as usize,
                id: s[j].id,
                edge_fraction_bits: Some(s[j].fraction_bits),
            }),
    decreases s.len(),
{
    let p = s.drop_last();
    let x = s.last();
    let (w, bad) = plan_edges(p, ncol, nrow, n_values);
    assert(bad is None);
    let w2 = plan_edges(s, ncol, nrow, n_values).0;
    if j < p.len() {
        assert(p[j] == s[j]);
        lemma_plan_edges_complete(p, ncol, nrow, n_values, j);
        let k = choose|k: int|
            0 <= k < w.len() && #[trigger] w[k] == (PixelWrite {
                index: (p[j].row * ncol + p[j].col) as usize,
                id: p[j].id,
                edge_fraction_bits: Some(p[j].fraction_bits),
            });
        assert(w2[k] == w[k]);
    } else {
        assert(x == s[j]);
        assert(w2[w.len() as int] == w2.last());
    }
}

/// A dense burn that succeeds writes every cell the result covers: each
/// in-grid cell of each run gets a write at its row-major index on behalf
/// of the run's geometry, and each in-grid edge cell gets a write at its
/// index on behalf of its geometry, carrying its coverage fraction.
pub proof fn law_plan_writes_every_cell(
    result: BurnResult,
    ncol: int,
    nrow: int,
    n_values: Option<usize>,
    j: int,
    c: int,
)
    requires
        0 < ncol,
        0 < nrow,
        ncol * nrow <= usize::MAX,
        plan(result, ncol, nrow, n_values).1 is None,
    ensures
        0 <= j < result.runs@.len() && 0 <= result.runs@[j].row < nrow && 0 <= c < ncol && result.runs@[j].col_start
            <= c < result.runs@[j].col_end ==> exists|k: int|
            0 <= k < plan(result, ncol, nrow, n_values).0.len() && {
                let wr = #[trigger] plan(result, ncol, nrow, n_values).0[k];
                wr.index == result.runs@[j].row * ncol + c && wr.id == result.runs@[j].id && wr.edge_fraction_bits
                    is None
            },
        0 <= j < result.edges@.len() && 0 <= result.edges@[j].row < nrow && 0 <= result.edges@[j].col < ncol
            ==> exists|k: int|
            0 <= k < plan(result, ncol, nrow, n_values).0.len() && {
                let wr = #[trigger] plan(result, ncol, nrow, n_values).0[k];
                wr.index == result.edges@[j].row * ncol + result.edges@[j].col && wr.id == result.edges@[j].id
                    && wr.edge_fraction_bits == Some(result.edges@[j].fraction_bits)
            },
{
    assert(nrow * ncol == ncol * nrow) by (nonlinear_arith);
    let (w1, bad1) = plan_runs(result.runs@, ncol, nrow, n_values);
    assert(bad1 is None);
    let (w2, bad2) = plan_edges(result.edges@, ncol, nrow, n_values);
    let all = plan(result, ncol, nrow, n_values).0;
    assert(all == w1 + w2);
    if 0 <= j < result.runs@.len() && 0 <= result.runs@[j].row < nrow && 0 <= c < ncol && result.runs@[j].col_start
        <= c < result.runs@[j].col_end {
        let r = result.runs@[j];
        lemma_plan_runs_complete(result.runs@, ncol, nrow, n_values, j, c);
        let k = choose|k: int|
            0 <= k < w1.len() && #[trigger] w1[k] == (PixelWrite {
                index: (r.row * ncol + c) as usize,
                id: r.id,
                edge_fraction_bits: None,
            });
        lemma_index_bound(r.row as int, c, ncol, nrow);
        assert(all[k] == w1[k]);
    }
    if 0 <= j < result.edges@.len() && 0 <= result.edges@[j].row < nrow && 0 <= result.edges@[j].col < ncol {
        let e = result.edges@[j];
        lemma_plan_edges_complete(result.edges@, ncol, nrow, n_values, j);
        let k = choose|k: int|
            0 <= k < w2.len() && #[trigger] w2[k] == (PixelWrite {
                index: (e.row * ncol + e.col) as usize,
                id: e.id,
                edge_fraction_bits: Some(e.fraction_bits),
            });
        lemma_index_bound(e.row as int, e.col as int, ncol, nrow);
        assert(all[w1.len() + k] == w2[k]);
    }
}

} // verus!
