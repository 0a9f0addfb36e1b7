//! Row-major order of the line table: the records of one line come out of
//! the cell walk in the order the line visits cells, and are then put in
//! `(row, col)` order, keeping the walk order among equal keys.

use vstd::prelude::*;
use crate::output::GridLine;

verus! {

/// `a` comes no later than `b` in row-major order.
pub open spec fn line_key_le(a: GridLine, b: GridLine) -> bool {
    a.row < b.row || (a.row == b.row && a.col <= b.col)
}

/// `s` is in row-major order.
pub open spec fn lines_sorted(s: Seq<GridLine>) -> bool {
    forall|i: int, j: int| 0 <= i < j < s.len() ==> line_key_le(#[trigger] s[i], #[trigger] s[j])
}

/// Insert `x` after every record whose key is at most its own.
pub open spec fn insert_line(s: Seq<GridLine>, x: GridLine) -> Seq<GridLine>
    decreases s.len(),
{
    if s.len() == 0 || line_key_le(s.last(), x) {
        s.push(x)
    } else {
        insert_line(s.drop_last(), x).push(s.last())
    }
}

/// Stable sort of `s` into row-major order.
pub open spec fn sort_lines(s: Seq<GridLine>) -> Seq<GridLine>
    decreases s.len(),
{
    if s.len() == 0 {
        Seq::empty()
    } else {
        insert_line(sort_lines(s.drop_last()), s.last())
    }
}

proof fn lemma_insert_line_contents(s: Seq<GridLine>, x: GridLine)
    ensures
        insert_line(s, x).len() == s.len() + 1,
        insert_line(s, x).to_multiset() == s.to_multiset().insert(x),
    decreases s.len(),
{
    broadcast use vstd::seq_lib::group_to_multiset_ensures;
    if s.len() > 0 && !line_key_le(s.last(), x) {
        let p = s.drop_last();
        lemma_insert_line_contents(p, x);
        assert(p.push(s.last()) =~= s);
        assert(p.to_multiset().insert(x).insert(s.last()) =~= p.to_multiset().insert(s.last()).insert(x));
    }
}

proof fn lemma_insert_line_bounded(s: Seq<GridLine>, x: GridLine, y: GridLine)
    requires
        forall|i: int| 0 <= i < s.len() ==> line_key_le(#[trigger] s[i], y),
        line_key_le(x, y),
    ensures
        forall|i: int| 0 <= i < insert_line(s, x).len() ==> line_key_le(#[trigger] insert_line(s, x)[i], y),
    decreases s.len(),
{
    lemma_insert_line_contents(s, x);
    if s.len() > 0 && !line_key_le(s.last(), x) {
        let p = s.drop_last();
        lemma_insert_line_bounded(p, x, y);
        let r = insert_line(s, x);
        assert forall|i: int| 0 <= i < r.len() implies line_key_le(#[trigger] r[i], y) by {
            if i < r.len() - 1 {
                assert(r[i] == insert_line(p, x)[i]);
            }
        }
    }
}

proof fn lemma_insert_line_sorted(s: Seq<GridLine>, x: GridLine)
    requires
        lines_sorted(s),
    ensures
        lines_sorted(insert_line(s, x)),
    decreases s.len(),
{
    lemma_insert_line_contents(s, x);
    if s.len() == 0 || line_key_le(s.last(), x) {
        let r = s.push(x);
        assert forall|i: int, j: int| 0 <= i < j < r.len() implies line_key_le(#[trigger] r[i], #[trigger] r[j]) by {
            if j == r.len() - 1 && i < s.len() - 1 {
                assert(line_key_le(s[i], s[s.len() - 1]));
            }
        }
    } else {
        let p = s.drop_last();
        let y = s.last();
        lemma_insert_line_sorted(p, x);
        assert forall|i: int| 0 <= i < p.len() implies line_key_le(#[trigger] p[i], y) by {
            assert(line_key_le(s[i], s[s.len() - 1]));
        }
        lemma_insert_line_bounded(p, x, y);
        let q = insert_line(p, x);
        let r = insert_line(s, x);
        assert forall|i: int, j: int| 0 <= i < j < r.len() implies line_key_le(#[trigger] r[i], #[trigger] r[j]) by {
            assert(r[i] == q[i]);
            if j < r.len() - 1 {
                assert(r[j] == q[j]);
            }
        }
    }
}

proof fn lemma_insert_line_split(a: Seq<GridLine>, b: Seq<GridLine>, x: GridLine)
    requires
        forall|i: int| 0 <= i < b.len() ==> !line_key_le(#[trigger] b[i], x),
    ensures
        insert_line(a + b, x) == insert_line(a, x) + b,
    decreases b.len(),
{
    if b.len() == 0 {
        assert(a + b =~= a);
        assert(insert_line(a, x) + b =~= insert_line(a, x));
    } else {
        let b2 = b.drop_last();
        lemma_insert_line_split(a, b2, x);
        assert((a + b).drop_last() =~= a + b2);
        assert((a + b).last() == b.last());
        assert(insert_line(a, x) + b =~= (insert_line(a, x) + b2).push(b.last()));
    }
}

/// The line table's sort keeps every record and puts them in row-major
/// order.
pub proof fn law_sort_lines_ordered_permutation(s: Seq<GridLine>)
    ensures
        lines_sorted(sort_lines(s)),
        sort_lines(s).to_multiset() == s.to_multiset(),
        sort_lines(s).len() == s.len(),
    decreases s.len(),
{
    broadcast use vstd::seq_lib::group_to_multiset_ensures;
    if s.len() > 0 {
        let p = s.drop_last();
        law_sort_lines_ordered_permutation(p);
        lemma_insert_line_sorted(sort_lines(p), s.last());
        lemma_insert_line_contents(sort_lines(p), s.last());
        assert(p.push(s.last()) =~= s);
    }
}

fn line_key_le_exec(a: &GridLine, b: &GridLine) -> (r: bool)
    ensures
        r == line_key_le(*a, *b),
{
    a.row < b.row || (a.row == b.row && a.col <= b.col)
}

/// Put the records from `first` on (those of the line just walked) in
/// row-major order, stably; the earlier records stay as they are.
pub fn sort_lines_from(lines: &mut Vec<GridLine>, first: usize)
    requires
        first <= old(lines)@.len(),
    ensures
        final(lines)@ == old(lines)@.take(first as int) + sort_lines(old(lines)@.skip(first as int)),
{
    let ghost orig = lines@;
    let tail = lines.split_off(first);
    let ghost t = tail@;
    assert(t == orig.skip(first as int));
    let mut out: Vec<GridLine> = Vec::new();
    let mut i: usize = 0;
    while i < tail.len()
        invariant
            tail@ == t,
            i <= t.len(),
            out@ == sort_lines(t.take(i as int)),
        decreases t.len() - i,
    {
        let x = tail[i];
        let mut p: usize = out.len();
        while p > 0 && !line_key_le_exec(&out[p - 1], &x)
            invariant
                p <= out@.len(),
                forall|k: int| p <= k < out@.len() ==> !line_key_le(#[trigger] out@[k], x),
            decreases p,
        {
            p -= 1;
        }
        let ghost before = out@;
        proof {
            let a = before.take(p as int);
            let b = before.skip(p as int);
            assert(a + b =~= before);
            assert forall|k: int| 0 <= k < b.len() implies !line_key_le(#[trigger] b[k], x) by {
                assert(b[k] == before[p + k]);
            }
            lemma_insert_line_split(a, b, x);
            if p > 0 {
                assert(a.last() == before[p - 1]);
            }
            assert(insert_line(a, x) == a.push(x));
        }
        out.insert(p, x);
        proof {
            let a = before.take(p as int);
            let b = before.skip(p as int);
            assert(out@ =~= a.push(x) + b);
            assert(t.take(i + 1).drop_last() =~= t.take(i as int));
            assert(t.take(i + 1).last() == x);
        }
        i += 1;
    }
    proof {
        assert(t.take(i as int) =~= t);
    }
    lines.append(&mut out);
}

/// The records of `s` in cell `(row, col)`, in their order in `s`.
pub open spec fn lines_in_cell(s: Seq<GridLine>, row: i32, col: i32) -> Seq<GridLine> {
    s.filter(|l: GridLine| l.row == row && l.col == col)
}

proof fn lemma_insert_line_in_cell(s: Seq<GridLine>, x: GridLine, row: i32, col: i32)
    ensures
        lines_in_cell(insert_line(s, x), row, col) == if x.row == row && x.col == col {
            lines_in_cell(s, row, col).push(x)
        } else {
            lines_in_cell(s, row, col)
        },
    decreases s.len(),
{
    reveal(Seq::filter);
    let pred = |l: GridLine| l.row == row && l.col == col;
    if s.len() == 0 || line_key_le(s.last(), x) {
        assert(s.push(x).drop_last() =~= s);
    } else {
        let p = s.drop_last();
        lemma_insert_line_in_cell(p, x, row, col);
        let q = insert_line(p, x);
        assert(q.push(s.last()).drop_last() =~= q);
        assert(insert_line(s, x) == q.push(s.last()));
    }
}

/// The sort of the line table is stable: the records of any one cell
/// come out in the order they went in.
pub proof fn law_sort_lines_stable(s: Seq<GridLine>, row: i32, col: i32)
    ensures
        lines_in_cell(sort_lines(s), row, col) == lines_in_cell(s, row, col),
    decreases s.len(),
{
    reveal(Seq::filter);
    if s.len() > 0 {
        let p = s.drop_last();
        law_sort_lines_stable(p, row, col);
        lemma_insert_line_in_cell(sort_lines(p), s.last(), row, col);
    }
}

} // verus!
