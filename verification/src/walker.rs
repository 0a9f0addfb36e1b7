//! Cell traversals recorded by the polyline walker: which side a pass
//! through a cell entered and left by, and the range of the walk's shared
//! coordinate arena that holds its coordinates.

use vstd::prelude::*;
use crate::geometry::{Coord, coord_eq};

verus! {

/// A side of an axis-aligned box.
#[derive(Clone, Copy, Debug, PartialEq, Eq, Structural)]
pub enum Side {
    Left,
    Right,
    Top,
    Bottom,
}

/// One pass of a polyline through one cell: coordinates
/// `start..start + len` of the arena, entry and exit sides.
#[derive(Clone, Copy, Debug, PartialEq, Eq, Structural)]
pub struct Traversal {
    pub start: usize,
    pub len: usize,
    pub entry: Option<Side>,
    pub exit: Option<Side>,
}

impl Traversal {
    /// The traversal's coordinates within the arena fit it.
    pub open spec fn fits(&self, arena: Seq<Coord>) -> bool {
        self.start + self.len <= arena.len()
    }

    /// The traversal's coordinates.
    pub open spec fn coords_of(&self, arena: Seq<Coord>) -> Seq<Coord> {
        arena.subrange(self.start as int, self.start + self.len)
    }

    pub fn coords<'a>(&self, arena: &'a [Coord]) -> (c: &'a [Coord])
        requires
            self.fits(arena@),
        ensures
            c@ == self.coords_of(arena@),
    {
        let n = arena.len();
        assert(n == arena@.len());
        &arena[self.start..self.start + self.len]
    }

    /// The pass both entered and left the cell.
    pub fn traversed(&self) -> (b: bool)
        ensures
            b == (self.entry is Some && self.exit is Some),
    {
        self.entry.is_some() && self.exit.is_some()
    }

    /// At least three coordinates, the last equal to the first.
    pub fn is_closed_ring(&self, arena: &[Coord]) -> (b: bool)
        requires
            self.fits(arena@),
        ensures
            b == ({
                let c = self.coords_of(arena@);
                c.len() >= 3 && coord_eq(c[0], c[c.len() - 1])
            }),
    {
        let c = self.coords(arena);
        c.len() >= 3 && c[0].float_eq(&c[c.len() - 1])
    }

    /// Some coordinate after the first differs from it.
    pub fn multiple_unique_coordinates(&self, arena: &[Coord]) -> (b: bool)
        requires
            self.fits(arena@),
            self.len >= 1,
        ensures
            b == ({
                let c = self.coords_of(arena@);
                exists|k: int| 1 <= k < c.len() && !coord_eq(#[trigger] c[k], c[0])
            }),
    {
        let c = self.coords(arena);
        let mut k: usize = 1;
        while k < c.len()
            invariant
                1 <= k <= c@.len(),
                c@.len() >= 1,
                c@ == self.coords_of(arena@),
                forall|j: int| 1 <= j < k ==> coord_eq(#[trigger] c@[j], c@[0]),
            decreases c@.len() - k,
        {
            if !c[k].float_eq(&c[0]) {
                assert(!coord_eq(c@[k as int], c@[0]));
                return true;
            }
            k += 1;
        }
        false
    }
}

/// The cell a walk moves to after leaving cell `(row, col)` of the padded
/// grid through `exit`; `None` when that step would leave the grid at the
/// top or on the left.
pub open spec fn next_cell(row: int, col: int, exit: Side) -> Option<(int, int)> {
    match exit {
        Side::Top => if row == 0 { None } else { Some((row - 1, col)) },
        Side::Bottom => Some((row + 1, col)),
        Side::Left => if col == 0 { None } else { Some((row, col - 1)) },
        Side::Right => Some((row, col + 1)),
    }
}

/// Move the walk to the neighbouring cell across `exit`.
pub fn step_cell(row: usize, col: usize, exit: Side) -> (r: Option<(usize, usize)>)
    requires
        row < usize::MAX,
        col < usize::MAX,
    ensures
        match (r, next_cell(row as int, col as int, exit)) {
            (Some((r2, c2)), Some((r3, c3))) => r2 == r3 && c2 == c3,
            (None, None) => true,
            _ => false,
        },
{
    match exit {
        Side::Top => if row == 0 {
            None
        } else {
            Some((row - 1, col))
        },
        Side::Bottom => Some((row + 1, col)),
        Side::Left => if col == 0 {
            None
        } else {
            Some((row, col - 1))
        },
        Side::Right => Some((row, col + 1)),
    }
}

} // verus!
