//! Run coalescing: merge adjacent or overlapping runs with the same id on
//! the same row.
//!
//! `coalesce_sorted` is the linear pass the burn applies to each polygon's
//! runs (which the sweep emits ordered by row, then column);
//! `coalesce_runs` sorts by `(id, row, col_start)` first.

use vstd::prelude::*;
use crate::output::{GridRun, run_len, sum_run_len};

verus! {

/// `last` absorbs `cur`: same geometry, same row, and `cur` starts no
/// later than `last` ends.
pub open spec fn mergeable(last: GridRun, cur: GridRun) -> bool {
    last.id == cur.id && last.row == cur.row && cur.col_start <= last.col_end
}

/// `last` extended to the end of `cur`.
pub open spec fn merged(last: GridRun, cur: GridRun) -> GridRun {
    GridRun {
        col_end: if cur.col_end > last.col_end { cur.col_end } else { last.col_end },
        ..last
    }
}

/// One step of the pass: fold `cur` into the output so far.
pub open spec fn coalesce_step(acc: Seq<GridRun>, cur: GridRun) -> Seq<GridRun> {
    if acc.len() > 0 && mergeable(acc.last(), cur) {
        acc.update(acc.len() - 1, merged(acc.last(), cur))
    } else {
        acc.push(cur)
    }
}

/// The output of the linear coalescing pass over `s`.
pub open spec fn coalesced(s: Seq<GridRun>) -> Seq<GridRun>
    decreases s.len(),
{
    if s.len() == 0 {
        Seq::empty()
    } else {
        coalesce_step(coalesced(s.drop_last()), s.last())
    }
}

/// Lexicographic order on `(id, row, col_start)`.
pub open spec fn key_le(a: GridRun, b: GridRun) -> bool {
    a.id < b.id || (a.id == b.id && (a.row < b.row || (a.row == b.row && a.col_start <= b.col_start)))
}

/// `s` is ordered by `(id, row, col_start)`.
pub open spec fn sorted_by_key(s: Seq<GridRun>) -> bool {
    forall|i: int, j: int| 0 <= i < j < s.len() ==> key_le(#[trigger] s[i], #[trigger] s[j])
}

/// Insert `x` after every element whose key is at most its own (stable).
pub open spec fn insert_by_key(s: Seq<GridRun>, x: GridRun) -> Seq<GridRun>
    decreases s.len(),
{
    if s.len() == 0 || key_le(s.last(), x) {
        s.push(x)
    } else {
        insert_by_key(s.drop_last(), x).push(s.last())
    }
}

/// Stable sort of `s` by `(id, row, col_start)`.
pub open spec fn sort_by_key(s: Seq<GridRun>) -> Seq<GridRun>
    decreases s.len(),
{
    if s.len() == 0 {
        Seq::empty()
    } else {
        insert_by_key(sort_by_key(s.drop_last()), s.last())
    }
}

/// Run `r` covers cell `(row, col)` of geometry `id`.
pub open spec fn run_covers(r: GridRun, id: int, row: int, col: int) -> bool {
    r.id == id && r.row == row && r.col_start <= col < r.col_end
}

/// Some run of `s` covers cell `(row, col)` of geometry `id`.
pub open spec fn covers(s: Seq<GridRun>, id: int, row: int, col: int) -> bool {
    exists|k: int| 0 <= k < s.len() && run_covers(#[trigger] s[k], id, row, col)
}

/// No two neighbouring runs of `s` could be merged.
pub open spec fn no_mergeable_neighbours(s: Seq<GridRun>) -> bool {
    forall|k: int| 0 <= k < s.len() - 1 ==> !mergeable(#[trigger] s[k], s[k + 1])
}

// ---------------------------------------------------------------------
// Lemmas about the pass

proof fn lemma_coalesced_len(s: Seq<GridRun>)
    ensures
        coalesced(s).len() <= s.len(),
        s.len() > 0 ==> coalesced(s).len() > 0,
    decreases s.len(),
{
    if s.len() > 0 {
        lemma_coalesced_len(s.drop_last());
    }
}

proof fn lemma_coalesced_last(s: Seq<GridRun>)
    requires
        sorted_by_key(s),
        s.len() > 0,
    ensures
        coalesced(s).len() > 0,
        key_le(coalesced(s).last(), s.last()),
    decreases s.len(),
{
    let p = s.drop_last();
    if p.len() > 0 {
        assert(sorted_by_key(p)) by {
            assert forall|i: int, j: int| 0 <= i < j < p.len() implies key_le(#[trigger] p[i], #[trigger] p[j]) by {
                assert(p[i] == s[i] && p[j] == s[j]);
            }
        }
        lemma_coalesced_last(p);
        assert(key_le(s[s.len() - 2], s[s.len() - 1]));
        assert(p.last() == s[s.len() - 2]);
        let acc = coalesced(p);
        if mergeable(acc.last(), s.last()) {
            assert(coalesced(s).last() == merged(acc.last(), s.last()));
        } else {
            assert(coalesced(s).last() == s.last());
        }
    } else {
        assert(coalesced(p) =~= Seq::<GridRun>::empty());
        assert(coalesced(s) =~= seq![s.last()]);
    }
}

/// Coalescing keeps the output ordered when the input is ordered.
proof fn lemma_coalesced_sorted(s: Seq<GridRun>)
    requires
        sorted_by_key(s),
    ensures
        sorted_by_key(coalesced(s)),
    decreases s.len(),
{
    if s.len() > 0 {
        let p = s.drop_last();
        let x = s.last();
        lemma_coalesced_sorted(p);
        let acc = coalesced(p);
        if p.len() > 0 {
            lemma_coalesced_last(p);
            assert(key_le(p.last(), x));
            assert forall|i: int| 0 <= i < acc.len() implies key_le(#[trigger] acc[i], x) by {
                if i < acc.len() - 1 {
                    assert(key_le(acc[i], acc[acc.len() - 1]));
                }
            }
        }
    }
}

/// The pass never leaves two neighbouring runs that could be merged.
proof fn lemma_coalesced_maximal(s: Seq<GridRun>)
    ensures
        no_mergeable_neighbours(coalesced(s)),
    decreases s.len(),
{
    if s.len() > 0 {
        lemma_coalesced_maximal(s.drop_last());
        let acc = coalesced(s.drop_last());
        let out = coalesced(s);
        assert forall|k: int| 0 <= k < out.len() - 1 implies !mergeable(#[trigger] out[k], out[k + 1]) by {
            if k < acc.len() - 1 {
                assert(out[k] == acc[k]);
                assert(!mergeable(acc[k], acc[k + 1]));
            }
        }
    }
}

/// A sequence with no mergeable neighbours is its own coalescing.
proof fn lemma_coalesced_fixpoint(s: Seq<GridRun>)
    requires
        no_mergeable_neighbours(s),
    ensures
        coalesced(s) == s,
    decreases s.len(),
{
    if s.len() > 0 {
        let p = s.drop_last();
        assert(no_mergeable_neighbours(p)) by {
            assert forall|k: int| 0 <= k < p.len() - 1 implies !mergeable(#[trigger] p[k], p[k + 1]) by {
                assert(p[k] == s[k] && p[k + 1] == s[k + 1]);
            }
        }
        lemma_coalesced_fixpoint(p);
        if p.len() > 0 {
            assert(p.last() == s[s.len() - 2]);
            assert(!mergeable(s[s.len() - 2], s[s.len() - 1]));
        }
        assert(p.push(s.last()) =~= s);
    }
}

/// On ordered input the pass covers exactly the cells its input covers.
proof fn lemma_coalesced_covers(s: Seq<GridRun>, id: int, row: int, col: int)
    requires
        sorted_by_key(s),
    ensures
        covers(coalesced(s), id, row, col) == covers(s, id, row, col),
    decreases s.len(),
{
    if s.len() > 0 {
        let p = s.drop_last();
        let x = s.last();
        let acc = coalesced(p);
        let out = coalesced(s);
        assert(sorted_by_key(p));
        lemma_coalesced_covers(p, id, row, col);
        // covers(s) == covers(p) || run_covers(x)
        if covers(s, id, row, col) {
            let k = choose|k: int| 0 <= k < s.len() && run_covers(#[trigger] s[k], id, row, col);
            if k < s.len() - 1 {
                assert(p[k] == s[k]);
                assert(covers(p, id, row, col));
            }
        }
        if covers(p, id, row, col) {
            let k = choose|k: int| 0 <= k < p.len() && run_covers(#[trigger] p[k], id, row, col);
            assert(s[k] == p[k]);
        }
        if run_covers(x, id, row, col) {
            assert(s[s.len() - 1] == x);
        }
        assert(covers(s, id, row, col) == (covers(acc, id, row, col) || run_covers(x, id, row, col)));
        if acc.len() > 0 && mergeable(acc.last(), x) {
            let l = acc.len() - 1;
            let m = merged(acc.last(), x);
            lemma_coalesced_last(p);
            assert(key_le(p.last(), x));
            assert(acc.last().col_start <= x.col_start);
            assert(run_covers(m, id, row, col) == (run_covers(acc[l], id, row, col) || run_covers(x, id, row, col)));
            if covers(out, id, row, col) {
                let k = choose|k: int| 0 <= k < out.len() && run_covers(#[trigger] out[k], id, row, col);
                if k < l {
                    assert(out[k] == acc[k]);
                }
            }
            if covers(acc, id, row, col) {
                let k = choose|k: int| 0 <= k < acc.len() && run_covers(#[trigger] acc[k], id, row, col);
                if k < l {
                    assert(out[k] == acc[k]);
                } else {
                    assert(out[l] == m);
                }
            }
            if run_covers(x, id, row, col) {
                assert(out[l] == m);
            }
        } else {
            if covers(out, id, row, col) {
                let k = choose|k: int| 0 <= k < out.len() && run_covers(#[trigger] out[k], id, row, col);
                if k < acc.len() {
                    assert(out[k] == acc[k]);
                }
            }
            if covers(acc, id, row, col) {
                let k = choose|k: int| 0 <= k < acc.len() && run_covers(#[trigger] acc[k], id, row, col);
                assert(out[k] == acc[k]);
            }
            if run_covers(x, id, row, col) {
                assert(out[acc.len() as int] == x);
            }
        }
    }
}

// ---------------------------------------------------------------------
// Lemmas about the sort

proof fn lemma_insert_contents(s: Seq<GridRun>, x: GridRun)
    ensures
        insert_by_key(s, x).len() == s.len() + 1,
        insert_by_key(s, x).to_multiset() == s.to_multiset().insert(x),
    decreases s.len(),
{
    broadcast use vstd::seq_lib::group_to_multiset_ensures;
    if s.len() == 0 || key_le(s.last(), x) {
    } else {
        let p = s.drop_last();
        lemma_insert_contents(p, x);
        assert(p.push(s.last()) =~= s);
        assert(s.to_multiset() == p.to_multiset().insert(s.last()));
        assert(insert_by_key(s, x).to_multiset() == insert_by_key(p, x).to_multiset().insert(s.last()));
        assert(p.to_multiset().insert(x).insert(s.last()) =~= p.to_multiset().insert(s.last()).insert(x));
    }
}

proof fn lemma_insert_bounded(s: Seq<GridRun>, x: GridRun, y: GridRun)
    requires
        forall|i: int| 0 <= i < s.len() ==> key_le(#[trigger] s[i], y),
        key_le(x, y),
    ensures
        forall|i: int| 0 <= i < insert_by_key(s, x).len() ==> key_le(#[trigger] insert_by_key(s, x)[i], y),
    decreases s.len(),
{
    lemma_insert_contents(s, x);
    if s.len() == 0 || key_le(s.last(), x) {
    } else {
        let p = s.drop_last();
        lemma_insert_bounded(p, x, y);
        let r = insert_by_key(s, x);
        assert forall|i: int| 0 <= i < r.len() implies key_le(#[trigger] r[i], y) by {
            if i < r.len() - 1 {
                assert(r[i] == insert_by_key(p, x)[i]);
            }
        }
    }
}

proof fn lemma_insert_sorted(s: Seq<GridRun>, x: GridRun)
    requires
        sorted_by_key(s),
    ensures
        sorted_by_key(insert_by_key(s, x)),
    decreases s.len(),
{
    lemma_insert_contents(s, x);
    if s.len() == 0 || key_le(s.last(), x) {
        let r = s.push(x);
        assert forall|i: int, j: int| 0 <= i < j < r.len() implies key_le(#[trigger] r[i], #[trigger] r[j]) by {
            if j == r.len() - 1 && i < s.len() - 1 {
                assert(key_le(s[i], s[s.len() - 1]));
            }
        }
    } else {
        let p = s.drop_last();
        let y = s.last();
        lemma_insert_sorted(p, x);
        assert forall|i: int| 0 <= i < p.len() implies key_le(#[trigger] p[i], y) by {
            assert(key_le(s[i], s[s.len() - 1]));
        }
        lemma_insert_bounded(p, x, y);
        let q = insert_by_key(p, x);
        let r = insert_by_key(s, x);
        assert forall|i: int, j: int| 0 <= i < j < r.len() implies key_le(#[trigger] r[i], #[trigger] r[j]) by {
            if j < r.len() - 1 {
                assert(r[i] == q[i] && r[j] == q[j]);
            } else {
                assert(r[i] == q[i]);
            }
        }
    }
}

proof fn lemma_sort_props(s: Seq<GridRun>)
    ensures
        sorted_by_key(sort_by_key(s)),
        sort_by_key(s).to_multiset() == s.to_multiset(),
        sort_by_key(s).len() == s.len(),
    decreases s.len(),
{
    broadcast use vstd::seq_lib::group_to_multiset_ensures;
    if s.len() > 0 {
        let p = s.drop_last();
        lemma_sort_props(p);
        lemma_insert_sorted(sort_by_key(p), s.last());
        lemma_insert_contents(sort_by_key(p), s.last());
        assert(p.push(s.last()) =~= s);
    }
}

/// Inserting below a tail of larger keys: `a + b` with every key of `b`
/// above `x` inserts `x` into `a` and keeps `b`.
proof fn lemma_insert_split(a: Seq<GridRun>, b: Seq<GridRun>, x: GridRun)
    requires
        forall|i: int| 0 <= i < b.len() ==> !key_le(#[trigger] b[i], x),
    ensures
        insert_by_key(a + b, x) == insert_by_key(a, x) + b,
    decreases b.len(),
{
    if b.len() == 0 {
        assert(a + b =~= a);
        assert(insert_by_key(a, x) + b =~= insert_by_key(a, x));
    } else {
        let b2 = b.drop_last();
        lemma_insert_split(a, b2, x);
        assert((a + b).drop_last() =~= a + b2);
        assert((a + b).last() == b.last());
        assert(insert_by_key(a, x) + b =~= (insert_by_key(a, x) + b2).push(b.last()));
    }
}

// ---------------------------------------------------------------------
// Executable code

fn mergeable_exec(last: &GridRun, cur: &GridRun) -> (b: bool)
    ensures
        b == mergeable(*last, *cur),
{
    last.id == cur.id && last.row == cur.row && cur.col_start <= last.col_end
}

fn key_le_exec(a: &GridRun, b: &GridRun) -> (r: bool)
    ensures
        r == key_le(*a, *b),
{
    a.id < b.id || (a.id == b.id && (a.row < b.row || (a.row == b.row && a.col_start <= b.col_start)))
}

/// Merge adjacent runs in place, in one linear pass: a run is folded into
/// the previous output run when they share id and row and it starts no
/// later than that run ends.
pub fn coalesce_sorted(runs: &mut Vec<GridRun>)
    ensures
        final(runs)@ == coalesced(old(runs)@),
{
    let ghost orig = runs@;
    let n = runs.len();
    let mut w: usize = 0;
    let mut i: usize = 0;
    while i < n
        invariant
            n == orig.len(),
            runs@.len() == n,
            w <= i <= n,
            runs@.subrange(0, w as int) == coalesced(orig.take(i as int)),
            runs@.subrange(i as int, n as int) == orig.subrange(i as int, n as int),
        decreases n - i,
    {
        let cur = runs[i];
        let ghost acc = runs@.subrange(0, w as int);
        let ghost pre = runs@;
        proof {
            assert(orig[i as int] == runs@.subrange(i as int, n as int)[0]);
            assert(orig.take(i + 1).drop_last() =~= orig.take(i as int));
            assert(orig.take(i + 1).last() == cur);
            lemma_coalesced_len(orig.take(i as int));
        }
        if w > 0 && mergeable_exec(&runs[w - 1], &cur) {
            let last = runs[w - 1];
            let end = if cur.col_end > last.col_end { cur.col_end } else { last.col_end };
            runs.set(w - 1, GridRun { row: last.row, col_start: last.col_start, col_end: end, id: last.id });
            proof {
                assert(acc.last() == last);
                assert(runs@.subrange(0, w as int) =~= acc.update(w - 1, merged(last, cur)));
            }
        } else {
            runs.set(w, cur);
            proof {
                assert(runs@.subrange(0, w + 1) =~= acc.push(cur));
            }
            w += 1;
        }
        proof {
            assert(runs@.subrange(i + 1, n as int) =~= orig.subrange(i + 1, n as int)) by {
                assert forall|k: int| 0 <= k < n - (i + 1) implies #[trigger] runs@.subrange(i + 1, n as int)[k]
                    == orig.subrange(i + 1, n as int)[k] by {
                    assert(pre.subrange(i as int, n as int)[k + 1] == orig.subrange(i as int, n as int)[k + 1]);
                    assert(runs@[i + 1 + k] == pre[i + 1 + k]);
                }
            }
        }
        i += 1;
    }
    runs.truncate(w);
    proof {
        assert(orig.take(n as int) =~= orig);
        assert(runs@ =~= runs@.subrange(0, w as int));
    }
}

/// Stable sort by `(id, row, col_start)`: each run is inserted after
/// every run whose key is not greater.
fn sort_runs_by_key(runs: &mut Vec<GridRun>)
    ensures
        final(runs)@ == sort_by_key(old(runs)@),
{
    let ghost orig = runs@;
    let mut out: Vec<GridRun> = Vec::new();
    let mut i: usize = 0;
    while i < runs.len()
        invariant
            runs@ == orig,
            i <= orig.len(),
            out@ == sort_by_key(orig.take(i as int)),
        decreases orig.len() - i,
    {
        let x = runs[i];
        let mut p: usize = out.len();
        while p > 0 && !key_le_exec(&out[p - 1], &x)
            invariant
                p <= out@.len(),
                forall|k: int| p <= k < out@.len() ==> !key_le(#[trigger] out@[k], x),
            decreases p,
        {
            p -= 1;
        }
        let ghost before = out@;
        proof {
            let a = before.take(p as int);
            let b = before.skip(p as int);
            assert(a + b =~= before);
            assert forall|k: int| 0 <= k < b.len() implies !key_le(#[trigger] b[k], x) by {
                assert(b[k] == before[p + k]);
            }
            lemma_insert_split(a, b, x);
            if p > 0 {
                assert(a.last() == before[p - 1]);
            }
            assert(insert_by_key(a, x) == a.push(x));
        }
        out.insert(p, x);
        proof {
            let a = before.take(p as int);
            let b = before.skip(p as int);
            assert(out@ =~= a.push(x) + b);
            assert(orig.take(i + 1).drop_last() =~= orig.take(i as int));
            assert(orig.take(i + 1).last() == x);
        }
        i += 1;
    }
    proof {
        assert(orig.take(i as int) =~= orig);
    }
    *runs = out;
}

/// Merge adjacent or overlapping runs with the same id on the same row.
/// The output is sorted by `(id, row, col_start)`.
pub fn coalesce_runs(runs: &mut Vec<GridRun>)
    ensures
        final(runs)@ == coalesced(sort_by_key(old(runs)@)),
{
    sort_runs_by_key(runs);
    coalesce_sorted(runs);
}

/// Coalesce the runs from `start` on (the runs of the polygon just
/// burned), leaving the earlier ones untouched.
pub fn coalesce_from(runs: &mut Vec<GridRun>, start: usize)
    requires
        start <= old(runs)@.len(),
    ensures
        final(runs)@ == old(runs)@.take(start as int) + coalesced(old(runs)@.skip(start as int)),
{
    let ghost orig = runs@;
    if runs.len() > start {
        let mut tail = runs.split_off(start);
        coalesce_sorted(&mut tail);
        runs.append(&mut tail);
    } else {
        proof {
            assert(orig.skip(start as int) =~= Seq::<GridRun>::empty());
            assert(orig.take(start as int) =~= orig);
            assert(orig.take(start as int) + Seq::<GridRun>::empty() =~= orig);
        }
    }
}

// ---------------------------------------------------------------------
// Laws

/// The result of `coalesce_runs` is ordered by `(id, row, col_start)`.
pub proof fn law_coalesce_runs_sorted(s: Seq<GridRun>)
    ensures
        sorted_by_key(coalesced(sort_by_key(s))),
{
    lemma_sort_props(s);
    lemma_coalesced_sorted(sort_by_key(s));
}

/// Coalescing never leaves two neighbouring runs that could still be
/// merged, whatever the input order.
pub proof fn law_coalesced_maximal(s: Seq<GridRun>)
    ensures
        no_mergeable_neighbours(coalesced(s)),
{
    lemma_coalesced_maximal(s);
}

/// Coalescing twice is coalescing once.
pub proof fn law_coalesced_idempotent(s: Seq<GridRun>)
    ensures
        coalesced(coalesced(s)) == coalesced(s),
{
    lemma_coalesced_maximal(s);
    lemma_coalesced_fixpoint(coalesced(s));
}

/// On runs ordered by `(id, row, col_start)` (as the sweep emits them),
/// the linear pass covers exactly the cells of its input.
pub proof fn law_coalesce_sorted_preserves_cells(s: Seq<GridRun>, id: int, row: int, col: int)
    requires
        sorted_by_key(s),
    ensures
        covers(coalesced(s), id, row, col) == covers(s, id, row, col),
{
    lemma_coalesced_covers(s, id, row, col);
}

/// `coalesce_runs` covers exactly the cells of its input, in any order.
pub proof fn law_coalesce_runs_preserves_cells(s: Seq<GridRun>, id: int, row: int, col: int)
    ensures
        covers(coalesced(sort_by_key(s)), id, row, col) == covers(s, id, row, col),
{
    broadcast use vstd::seq_lib::group_to_multiset_ensures;
    let t = sort_by_key(s);
    lemma_sort_props(s);
    lemma_coalesced_covers(t, id, row, col);
    if covers(t, id, row, col) {
        let k = choose|k: int| 0 <= k < t.len() && run_covers(#[trigger] t[k], id, row, col);
        assert(t.to_multiset().count(t[k]) > 0);
        assert(s.to_multiset().count(t[k]) > 0);
        assert(s.contains(t[k]));
        let j = choose|j: int| 0 <= j < s.len() && s[j] == t[k];
        assert(run_covers(s[j], id, row, col));
    }
    if covers(s, id, row, col) {
        let k = choose|k: int| 0 <= k < s.len() && run_covers(#[trigger] s[k], id, row, col);
        assert(s.to_multiset().count(s[k]) > 0);
        assert(t.contains(s[k]));
        let j = choose|j: int| 0 <= j < t.len() && t[j] == s[k];
        assert(run_covers(t[j], id, row, col));
    }
}

/// Every run of `s` has `col_start <= col_end`, and a run that follows
/// another on the same row of the same geometry starts no earlier than
/// that one ends (the runs of one sweep never overlap).
pub open spec fn disjoint_runs(s: Seq<GridRun>) -> bool {
    &&& forall|k: int| 0 <= k < s.len() ==> (#[trigger] s[k]).col_start <= s[k].col_end
    &&& forall|k: int|
        0 <= k < s.len() - 1 && (#[trigger] s[k]).id == s[k + 1].id && s[k].row == s[k + 1].row
            ==> s[k + 1].col_start >= s[k].col_end
}

proof fn lemma_sum_update_last(acc: Seq<GridRun>, m: GridRun)
    requires
        acc.len() > 0,
    ensures
        sum_run_len(acc.update(acc.len() - 1, m)) == sum_run_len(acc) - run_len(acc.last()) + run_len(m),
{
    assert(acc.update(acc.len() - 1, m).drop_last() =~= acc.drop_last());
}

proof fn lemma_coalesce_sum(s: Seq<GridRun>)
    requires
        disjoint_runs(s),
    ensures
        sum_run_len(coalesced(s)) == sum_run_len(s),
        s.len() > 0 ==> coalesced(s).len() > 0 && coalesced(s).last().id == s.last().id && coalesced(s).last().row
            == s.last().row && coalesced(s).last().col_end == s.last().col_end,
    decreases s.len(),
{
    if s.len() > 0 {
        let p = s.drop_last();
        let x = s.last();
        assert(disjoint_runs(p)) by {
            assert forall|k: int| 0 <= k < p.len() implies (#[trigger] p[k]).col_start <= p[k].col_end by {
                assert(p[k] == s[k]);
            }
            assert forall|k: int|
                0 <= k < p.len() - 1 && (#[trigger] p[k]).id == p[k + 1].id && p[k].row == p[k + 1].row implies p[k
                    + 1].col_start >= p[k].col_end by {
                assert(p[k] == s[k] && p[k + 1] == s[k + 1]);
            }
        }
        lemma_coalesce_sum(p);
        let acc = coalesced(p);
        assert(x == s[s.len() - 1]);
        assert(x.col_start <= x.col_end);
        if acc.len() > 0 && mergeable(acc.last(), x) {
            assert(p.last() == s[s.len() - 2]);
            assert(x.col_start >= p.last().col_end);
            lemma_sum_update_last(acc, merged(acc.last(), x));
            assert(coalesced(s) == acc.update(acc.len() - 1, merged(acc.last(), x)));
            assert(sum_run_len(s) == sum_run_len(p) + run_len(x));
        } else {
            assert(coalesced(s) == acc.push(x));
            assert(acc.push(x).drop_last() =~= acc);
            assert(sum_run_len(s) == sum_run_len(p) + run_len(x));
        }
    }
}

/// Coalescing runs that do not overlap (as one sweep emits them) keeps
/// the number of covered cells: the sum of run lengths is unchanged.
pub proof fn law_coalesce_conserves_run_cells(s: Seq<GridRun>)
    requires
        disjoint_runs(s),
    ensures
        sum_run_len(coalesced(s)) == sum_run_len(s),
{
    lemma_coalesce_sum(s);
}

/// `coalesce_runs` reorders by key: its sort keeps every run and orders them.
pub proof fn law_sort_is_ordered_permutation(s: Seq<GridRun>)
    ensures
        sorted_by_key(sort_by_key(s)),
        sort_by_key(s).to_multiset() == s.to_multiset(),
{
    lemma_sort_props(s);
}

/// The runs of `s` with key `(id, row, col_start)`, in their order in `s`.
pub open spec fn runs_with_key(s: Seq<GridRun>, id: i32, row: i32, col_start: i32) -> Seq<GridRun> {
    s.filter(|r: GridRun| r.id == id && r.row == row && r.col_start == col_start)
}

proof fn lemma_insert_with_key(s: Seq<GridRun>, x: GridRun, id: i32, row: i32, col_start: i32)
    ensures
        runs_with_key(insert_by_key(s, x), id, row, col_start) == if x.id == id && x.row == row && x.col_start
            == col_start {
            runs_with_key(s, id, row, col_start).push(x)
        } else {
            runs_with_key(s, id, row, col_start)
        },
    decreases s.len(),
{
    reveal(Seq::filter);
    if s.len() == 0 || key_le(s.last(), x) {
        assert(s.push(x).drop_last() =~= s);
    } else {
        let p = s.drop_last();
        lemma_insert_with_key(p, x, id, row, col_start);
        let q = insert_by_key(p, x);
        assert(q.push(s.last()).drop_last() =~= q);
    }
}

/// The sort in `coalesce_runs` is stable: runs with equal keys come out
/// in the order they went in.
pub proof fn law_sort_runs_stable(s: Seq<GridRun>, id: i32, row: i32, col_start: i32)
    ensures
        runs_with_key(sort_by_key(s), id, row, col_start) == runs_with_key(s, id, row, col_start),
    decreases s.len(),
{
    reveal(Seq::filter);
    if s.len() > 0 {
        let p = s.drop_last();
        law_sort_runs_stable(p, id, row, col_start);
        lemma_insert_with_key(sort_by_key(p), s.last(), id, row, col_start);
    }
}

} // verus!
