//! Per-input decisions of a burn: which geometries are burned, which are
//! skipped silently and which are skipped with a note.
//!
//! Geometry `k` of the input is reported in notes as `k + 1`. Empty
//! geometries are skipped silently, geometries with a non-finite
//! coordinate with a note, and unclosed polygon rings are closed. Empty
//! WKB blobs are skipped silently, unparseable ones with a note.

use vstd::prelude::*;
use vstd::string::StringExecFns;
use crate::error::wkb_message;
use crate::geometry::{Geometry, GeometryView, normalize, view_is_empty, view_is_finite, view_normalized};
use crate::output::{BurnResult, Note};
use crate::wkb::{parse_wkb, spec_parse_wkb};

verus! {

/// `after` is `before` plus one note for input `k` with text `text`.
pub open spec fn noted(before: Seq<Note>, after: Seq<Note>, k: int, text: Seq<char>) -> bool {
    &&& after.len() == before.len() + 1
    &&& after.drop_last() == before
    &&& after.last().geom_index == (k + 1) as i32
    &&& after.last().message@ == text
}

/// The four tables of `a` and `b` are the same.
pub open spec fn same_tables(a: BurnResult, b: BurnResult) -> bool {
    &&& a.runs@ == b.runs@
    &&& a.edges@ == b.edges@
    &&& a.lines@ == b.lines@
    &&& a.points@ == b.points@
}

/// What the burn does with geometry `g`: nothing if it is empty; a note
/// if it has a non-finite coordinate; else it burns `g` with its rings
/// closed, which is returned.
pub fn admit_geometry(g: Geometry, k: usize, out: &mut BurnResult) -> (r: Option<Geometry>)
    requires
        k < usize::MAX,
    ensures
        same_tables(*final(out), *old(out)),
        view_is_empty(g@) ==> r is None && final(out).notes@ == old(out).notes@,
        !view_is_empty(g@) && !view_is_finite(g@) ==> r is None && noted(
            old(out).notes@,
            final(out).notes@,
            k as int,
            "skipped geometry with non-finite coordinates"@,
        ),
        !view_is_empty(g@) && view_is_finite(g@) ==> (r matches Some(n) && n@ == view_normalized(g@)
            && final(out).notes@ == old(out).notes@),
{
    if g.is_empty() {
        return None;
    }
    if !g.is_finite() {
        let ghost before = out.notes@;
        out.note(k + 1, "skipped geometry with non-finite coordinates".to_owned());
        assert(out.notes@.drop_last() =~= before);
        return None;
    }
    Some(normalize(g))
}

/// Record that the engine could not process geometry `k`.
pub fn note_engine_error(out: &mut BurnResult, k: usize, detail: &str)
    requires
        k < usize::MAX,
    ensures
        same_tables(*final(out), *old(out)),
        noted(old(out).notes@, final(out).notes@, k as int, "error processing geometry: "@ + detail@),
{
    let ghost before = out.notes@;
    let mut m = "error processing geometry: ".to_owned();
    m.append(detail);
    out.note(k + 1, m);
    assert(out.notes@.drop_last() =~= before);
}

/// What the burn does with WKB blob `k`: nothing if it is empty; a note
/// if it does not parse; else as `admit_geometry` on the parsed geometry.
pub fn admit_blob(blob: &[u8], k: usize, out: &mut BurnResult) -> (r: Option<Geometry>)
    requires
        k < usize::MAX,
    ensures
        same_tables(*final(out), *old(out)),
        blob@.len() == 0 ==> r is None && final(out).notes@ == old(out).notes@,
        blob@.len() > 0 ==> match spec_parse_wkb(blob@) {
            Err(e) => r is None && noted(
                old(out).notes@,
                final(out).notes@,
                k as int,
                "failed to parse WKB: "@ + wkb_message(e),
            ),
            Ok(g) => {
                &&& view_is_empty(g) ==> r is None && final(out).notes@ == old(out).notes@
                &&& !view_is_empty(g) && !view_is_finite(g) ==> r is None && noted(
                    old(out).notes@,
                    final(out).notes@,
                    k as int,
                    "skipped geometry with non-finite coordinates"@,
                )
                &&& !view_is_empty(g) && view_is_finite(g) ==> (r matches Some(n) && n@ == view_normalized(g)
                    && final(out).notes@ == old(out).notes@)
            },
        },
{
    if blob.len() == 0 {
        return None;
    }
    match parse_wkb(blob) {
        Ok(g) => admit_geometry(g, k, out),
        Err(e) => {
            let ghost before = out.notes@;
            let mut m = "failed to parse WKB: ".to_owned();
            let em = e.message();
            m.append(em.as_str());
            out.note(k + 1, m);
            assert(out.notes@.drop_last() =~= before);
            None
        },
    }
}

} // verus!
