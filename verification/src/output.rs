//! The four output tables of a burn.
//!
//! Indices are 0-based with row 0 at the top and run ranges half-open.
//! The measure columns of `edges` (coverage fraction) and `lines` (length)
//! are `f32` values, carried here as their IEEE-754 bit patterns.

use vstd::prelude::*;

verus! {

/// Fully covered cells `col_start..col_end` on `row`, from geometry `id`.
#[derive(Clone, Copy, Debug, PartialEq, Eq, Structural, Hash, PartialOrd, Ord)]
pub struct GridRun {
    pub row: i32,
    pub col_start: i32,
    pub col_end: i32,
    pub id: i32,
}

/// A polygon-boundary cell; `fraction_bits` holds the `f32` coverage
/// fraction in (0, 1).
#[derive(Clone, Copy, Debug, PartialEq, Eq, Structural)]
pub struct GridEdge {
    pub row: i32,
    pub col: i32,
    pub fraction_bits: u32,
    pub id: i32,
}

/// A line cell; `length_bits` holds the `f32` length of the line in the
/// cell, in CRS units.
#[derive(Clone, Copy, Debug, PartialEq, Eq, Structural)]
pub struct GridLine {
    pub row: i32,
    pub col: i32,
    pub length_bits: u32,
    pub id: i32,
}

/// A point cell.
#[derive(Clone, Copy, Debug, PartialEq, Eq, Structural, Hash, PartialOrd, Ord)]
pub struct GridPoint {
    pub row: i32,
    pub col: i32,
    pub id: i32,
}

/// A non-fatal problem for one input geometry.
#[derive(Clone, Debug, PartialEq, Eq)]
pub struct Note {
    pub geom_index: i32,
    pub message: String,
}

/// The result of a burn.
#[derive(Clone, Debug, PartialEq, Eq)]
pub struct BurnResult {
    pub runs: Vec<GridRun>,
    pub edges: Vec<GridEdge>,
    pub lines: Vec<GridLine>,
    pub points: Vec<GridPoint>,
    pub notes: Vec<Note>,
}

/// Number of cells a run covers (negative for an inverted run).
pub open spec fn run_len(r: GridRun) -> int {
    r.col_end - r.col_start
}

/// Sum of the run lengths.
pub open spec fn sum_run_len(s: Seq<GridRun>) -> int
    decreases s.len(),
{
    if s.len() == 0 {
        0
    } else {
        sum_run_len(s.drop_last()) + run_len(s.last())
    }
}

pub open spec fn u64_modulus() -> int {
    0x1_0000_0000_0000_0000
}

impl BurnResult {
    /// An empty result.
    pub fn new() -> (r: Self)
        ensures
            r.runs@.len() == 0,
            r.edges@.len() == 0,
            r.lines@.len() == 0,
            r.points@.len() == 0,
            r.notes@.len() == 0,
    {
        BurnResult {
            runs: Vec::new(),
            edges: Vec::new(),
            lines: Vec::new(),
            points: Vec::new(),
            notes: Vec::new(),
        }
    }

    /// Total number of cells covered by `runs` (sum of run lengths),
    /// modulo 2^64.
    pub fn run_cells(&self) -> (n: u64)
        ensures
            n as int == sum_run_len(self.runs@) % u64_modulus(),
    {
        let mut total: u64 = 0;
        let mut i: usize = 0;
        while i < self.runs.len()
            invariant
                i <= self.runs@.len(),
                total as int == sum_run_len(self.runs@.take(i as int)) % u64_modulus(),
            decreases self.runs@.len() - i,
        {
            let r = self.runs[i];
            let d: i64 = r.col_end as i64 - r.col_start as i64;
            let ghost before = sum_run_len(self.runs@.take(i as int));
            proof {
                assert(self.runs@.take(i + 1).drop_last() =~= self.runs@.take(i as int));
                assert(sum_run_len(self.runs@.take(i + 1)) == before + d);
                vstd::arithmetic::div_mod::lemma_add_mod_noop(before, d as int, u64_modulus());
                vstd::arithmetic::div_mod::lemma_mod_self_0(u64_modulus());
            }
            if d >= 0 {
                let du: u64 = d as u64;
                total = total.wrapping_add(du);
                proof {
                    vstd::arithmetic::div_mod::lemma_add_mod_noop(total as int, 0, u64_modulus());
                    assert((before % u64_modulus() + d) % u64_modulus() == total as int) by {
                        vstd::arithmetic::div_mod::lemma_fundamental_div_mod(before % u64_modulus() + d, u64_modulus());
                    }
                }
            } else {
                let du: u64 = (-d) as u64;
                total = total.wrapping_sub(du);
                proof {
                    assert((before % u64_modulus() + d) % u64_modulus() == total as int) by {
                        vstd::arithmetic::div_mod::lemma_fundamental_div_mod(before % u64_modulus() + d, u64_modulus());
                    }
                }
            }
            i += 1;
        }
        proof {
            assert(self.runs@.take(i as int) =~= self.runs@);
        }
        total
    }

    /// True when no table has a record (notes are not counted).
    pub fn is_empty(&self) -> (b: bool)
        ensures
            b == (self.runs@.len() == 0 && self.edges@.len() == 0 && self.lines@.len() == 0
                && self.points@.len() == 0),
    {
        self.runs.len() == 0 && self.edges.len() == 0 && self.lines.len() == 0 && self.points.len() == 0
    }

    /// Record a note for the geometry at `geom_index`.
    pub fn note(&mut self, geom_index: usize, message: String)
        ensures
            final(self).notes@ == old(self).notes@.push(Note { geom_index: geom_index as i32, message }),
            final(self).runs@ == old(self).runs@,
            final(self).edges@ == old(self).edges@,
            final(self).lines@ == old(self).lines@,
            final(self).points@ == old(self).points@,
    {
        #[verifier::truncate]
        let gi = geom_index as i32;
        self.notes.push(Note { geom_index: gi, message });
    }
}

} // verus!
