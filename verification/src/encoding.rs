//! Every geometry read back from its WKB encoding: an encoder for the
//! six kinds (either byte order, ISO or EWKB type codes, an optional
//! SRID, any bytes as the skipped Z and M ordinates) and the law that the
//! reader returns the encoded geometry.

use vstd::prelude::*;
use crate::error::WkbError;
use crate::geometry::{Coord, GeometryView};
use crate::wkb::{
    Read, TypeInfo, coordseq_step, line_part_step, lemma_u32_bytes_read, lemma_u64_bytes_read, point_part_step,
    point_step, polygon_part_step, spec_counted, spec_decode_type, spec_parse_wkb, spec_read_byte_order,
    spec_read_coordseq, spec_read_header, spec_read_nested_header, spec_read_point, spec_read_polygon_body,
    spec_read_u32, spec_read_u64, spec_read_u8, spec_repeat, u32_bytes, u64_bytes,
};

verus! {

/// `s` holds the bytes `e` at position `p`.
pub open spec fn has_at(s: Seq<u8>, p: int, e: Seq<u8>) -> bool {
    0 <= p && p + e.len() <= s.len() && s.subrange(p, p + e.len()) == e
}

/// The encodings of `items`, one after another.
pub open spec fn concat_enc<T>(items: Seq<T>, enc: spec_fn(T) -> Seq<u8>) -> Seq<u8>
    decreases items.len(),
{
    if items.len() == 0 {
        Seq::empty()
    } else {
        concat_enc(items.drop_last(), enc) + enc(items.last())
    }
}

/// A count, then the encodings of `items`.
pub open spec fn counted_enc<T>(items: Seq<T>, enc: spec_fn(T) -> Seq<u8>, little: bool) -> Seq<u8> {
    u32_bytes(items.len() as u32, little) + concat_enc(items, enc)
}

/// Wherever `s` holds the encoding of `x` in byte order `little`, `step`
/// reads `x` in that byte order and ends right after it.
pub open spec fn step_reads<T>(
    step: spec_fn(int, bool) -> Read<T>,
    s: Seq<u8>,
    little: bool,
    enc: spec_fn(T) -> Seq<u8>,
    x: T,
) -> bool {
    forall|q: int|
        has_at(s, q, enc(x)) ==> #[trigger] step(q, little) == Ok::<(T, int, bool), WkbError>(
            (x, q + enc(x).len(), little),
        )
}

proof fn lemma_has_at_split(s: Seq<u8>, p: int, a: Seq<u8>, b: Seq<u8>)
    requires
        has_at(s, p, a + b),
    ensures
        has_at(s, p, a),
        has_at(s, p + a.len(), b),
{
    assert(s.subrange(p, p + a.len()) =~= a) by {
        assert forall|i: int| 0 <= i < a.len() implies s.subrange(p, p + a.len())[i] == a[i] by {
            assert(s.subrange(p, p + (a + b).len())[i] == (a + b)[i]);
        }
    }
    assert(s.subrange(p + a.len(), p + a.len() + b.len()) =~= b) by {
        assert forall|i: int| 0 <= i < b.len() implies s.subrange(p + a.len(), p + a.len() + b.len())[i] == b[i] by {
            assert(s.subrange(p, p + (a + b).len())[a.len() + i] == (a + b)[a.len() + i]);
        }
    }
}

proof fn lemma_u32_at(s: Seq<u8>, p: int, v: u32, little: bool)
    requires
        has_at(s, p, u32_bytes(v, little)),
    ensures
        spec_read_u32(s, p, little) == Ok::<(u32, int, bool), WkbError>((v, p + 4, little)),
{
    let pre = s.take(p);
    let post = s.skip(p + 4);
    assert(s =~= pre + u32_bytes(v, little) + post);
    lemma_u32_bytes_read(v, little, pre, post);
}

proof fn lemma_u64_at(s: Seq<u8>, p: int, v: u64, little: bool)
    requires
        has_at(s, p, u64_bytes(v, little)),
    ensures
        spec_read_u64(s, p, little) == Ok::<(u64, int, bool), WkbError>((v, p + 8, little)),
{
    let pre = s.take(p);
    let post = s.skip(p + 8);
    assert(s =~= pre + u64_bytes(v, little) + post);
    lemma_u64_bytes_read(v, little, pre, post);
}

proof fn lemma_repeat_reads<T>(
    step: spec_fn(int, bool) -> Read<T>,
    s: Seq<u8>,
    little: bool,
    enc: spec_fn(T) -> Seq<u8>,
    items: Seq<T>,
    p: int,
)
    requires
        forall|i: int| 0 <= i < items.len() ==> step_reads(step, s, little, enc, #[trigger] items[i]),
        has_at(s, p, concat_enc(items, enc)),
    ensures
        spec_repeat(step, p, little, items.len()) == Ok::<(Seq<T>, int, bool), WkbError>(
            (items, p + concat_enc(items, enc).len(), little),
        ),
    decreases items.len(),
{
    if items.len() == 0 {
        assert(items =~= Seq::<T>::empty());
    } else {
        let pre = items.drop_last();
        let x = items.last();
        assert(x == items[items.len() - 1]);
        assert forall|i: int| 0 <= i < pre.len() implies step_reads(step, s, little, enc, #[trigger] pre[i]) by {
            assert(pre[i] == items[i]);
        }
        lemma_has_at_split(s, p, concat_enc(pre, enc), enc(x));
        lemma_repeat_reads(step, s, little, enc, pre, p);
        let q = p + concat_enc(pre, enc).len();
        assert(step_reads(step, s, little, enc, x));
        assert(step(q, little) == Ok::<(T, int, bool), WkbError>((x, q + enc(x).len(), little)));
        assert(pre.push(x) =~= items);
        assert((items.len() - 1) as nat == pre.len());
    }
}

proof fn lemma_counted_reads<T>(
    step: spec_fn(int, bool) -> Read<T>,
    s: Seq<u8>,
    little: bool,
    enc: spec_fn(T) -> Seq<u8>,
    items: Seq<T>,
    p: int,
)
    requires
        forall|i: int| 0 <= i < items.len() ==> step_reads(step, s, little, enc, #[trigger] items[i]),
        items.len() <= u32::MAX,
        has_at(s, p, counted_enc(items, enc, little)),
    ensures
        spec_counted(s, step, p, little) == Ok::<(Seq<T>, int, bool), WkbError>(
            (items, p + counted_enc(items, enc, little).len(), little),
        ),
{
    lemma_has_at_split(s, p, u32_bytes(items.len() as u32, little), concat_enc(items, enc));
    lemma_u32_at(s, p, items.len() as u32, little);
    lemma_repeat_reads(step, s, little, enc, items, p + 4);
}

// ---------------------------------------------------------------------
// The encoder

/// The extra ordinates of a coordinate are `extra` eight-byte values.
pub open spec fn fills(zm: spec_fn(Coord) -> Seq<u8>, extra: int) -> bool {
    forall|c: Coord| #[trigger] zm(c).len() == 8 * extra
}

/// A coordinate: x, y, then its extra ordinates `zm(c)`.
pub open spec fn coord_enc(little: bool, zm: spec_fn(Coord) -> Seq<u8>) -> spec_fn(Coord) -> Seq<u8> {
    |c: Coord| u64_bytes(c.x, little) + u64_bytes(c.y, little) + zm(c)
}

/// A coordinate sequence: count, then the coordinates.
pub open spec fn coords_enc(little: bool, zm: spec_fn(Coord) -> Seq<u8>) -> spec_fn(Seq<Coord>) -> Seq<u8> {
    |cs: Seq<Coord>| counted_enc(cs, coord_enc(little, zm), little)
}

/// A polygon body: ring count, then the rings.
pub open spec fn rings_enc(little: bool, zm: spec_fn(Coord) -> Seq<u8>) -> spec_fn(Seq<Seq<Coord>>) -> Seq<u8> {
    |rs: Seq<Seq<Coord>>| counted_enc(rs, coords_enc(little, zm), little)
}

/// Byte-order flag, type code, and the SRID when the code flags one.
pub open spec fn header_enc(little: bool, code: u32, srid: u32) -> Seq<u8> {
    seq![if little { 1u8 } else { 0u8 }] + u32_bytes(code, little) + if spec_decode_type(code).has_srid {
        u32_bytes(srid, little)
    } else {
        Seq::empty()
    }
}

/// A part of a multi-point: its own header, then the coordinate.
pub open spec fn point_part_enc(little: bool, code: u32, srid: u32, zm: spec_fn(Coord) -> Seq<u8>) -> spec_fn(
    Coord,
) -> Seq<u8> {
    |c: Coord| header_enc(little, code, srid) + coord_enc(little, zm)(c)
}

/// A part of a multi-linestring.
pub open spec fn line_part_enc(little: bool, code: u32, srid: u32, zm: spec_fn(Coord) -> Seq<u8>) -> spec_fn(
    Seq<Coord>,
) -> Seq<u8> {
    |cs: Seq<Coord>| header_enc(little, code, srid) + coords_enc(little, zm)(cs)
}

/// A part of a multi-polygon.
pub open spec fn polygon_part_enc(little: bool, code: u32, srid: u32, zm: spec_fn(Coord) -> Seq<u8>) -> spec_fn(
    Seq<Seq<Coord>>,
) -> Seq<u8> {
    |rs: Seq<Seq<Coord>>| header_enc(little, code, srid) + rings_enc(little, zm)(rs)
}

/// The base type code of a geometry kind.
pub open spec fn kind_code(g: GeometryView) -> u32 {
    match g {
        GeometryView::Point(_) => 1,
        GeometryView::LineString(_) => 2,
        GeometryView::Polygon(_) => 3,
        GeometryView::MultiPoint(_) => 4,
        GeometryView::MultiLineString(_) => 5,
        GeometryView::MultiPolygon(_) => 6,
    }
}

/// The base type code of the parts of a multi-geometry (0 for the others).
pub open spec fn part_code(g: GeometryView) -> u32 {
    match g {
        GeometryView::MultiPoint(_) => 1,
        GeometryView::MultiLineString(_) => 2,
        GeometryView::MultiPolygon(_) => 3,
        _ => 0,
    }
}

/// Every count of the geometry fits the four bytes that carry it.
pub open spec fn counts_fit(g: GeometryView) -> bool {
    match g {
        GeometryView::Point(_) => true,
        GeometryView::LineString(cs) => cs.len() <= u32::MAX,
        GeometryView::MultiPoint(cs) => cs.len() <= u32::MAX,
        GeometryView::Polygon(rs) => rs.len() <= u32::MAX && forall|i: int|
            0 <= i < rs.len() ==> (#[trigger] rs[i]).len() <= u32::MAX,
        GeometryView::MultiLineString(ls) => ls.len() <= u32::MAX && forall|i: int|
            0 <= i < ls.len() ==> (#[trigger] ls[i]).len() <= u32::MAX,
        GeometryView::MultiPolygon(ps) => ps.len() <= u32::MAX && (forall|i: int|
            0 <= i < ps.len() ==> (#[trigger] ps[i]).len() <= u32::MAX) && forall|i: int, j: int|
            0 <= i < ps.len() && 0 <= j < ps[i].len() ==> (#[trigger] ps[i][j]).len() <= u32::MAX,
    }
}

/// The body of the WKB encoding of `g`, after its header.
pub open spec fn body_enc(
    g: GeometryView,
    little: bool,
    part: u32,
    srid: u32,
    zm: spec_fn(Coord) -> Seq<u8>,
) -> Seq<u8> {
    match g {
        GeometryView::Point(c) => coord_enc(little, zm)(c),
        GeometryView::LineString(cs) => coords_enc(little, zm)(cs),
        GeometryView::Polygon(rs) => rings_enc(little, zm)(rs),
        GeometryView::MultiPoint(cs) => counted_enc(cs, point_part_enc(little, part, srid, zm), little),
        GeometryView::MultiLineString(ls) => counted_enc(ls, line_part_enc(little, part, srid, zm), little),
        GeometryView::MultiPolygon(ps) => counted_enc(ps, polygon_part_enc(little, part, srid, zm), little),
    }
}

/// The WKB encoding of `g`: header with type code `code` (and the SRID
/// when the code flags one), then the body; the parts of a multi-geometry
/// carry headers with `part` as their type code. All in one byte order.
pub open spec fn encode_wkb(
    g: GeometryView,
    little: bool,
    code: u32,
    part: u32,
    srid: u32,
    zm: spec_fn(Coord) -> Seq<u8>,
) -> Seq<u8> {
    header_enc(little, code, srid) + body_enc(g, little, part, srid, zm)
}

// ---------------------------------------------------------------------
// Reading the encoder's output

proof fn lemma_header_at(s: Seq<u8>, q: int, little: bool, code: u32, srid: u32, l0: bool)
    requires
        has_at(s, q, header_enc(little, code, srid)),
    ensures
        spec_read_header(s, q, l0) == Ok::<(TypeInfo, int, bool), WkbError>(
            (spec_decode_type(code), q + header_enc(little, code, srid).len(), little),
        ),
{
    let flag = seq![if little { 1u8 } else { 0u8 }];
    let tail = if spec_decode_type(code).has_srid {
        u32_bytes(srid, little)
    } else {
        Seq::empty()
    };
    lemma_has_at_split(s, q, flag + u32_bytes(code, little), tail);
    lemma_has_at_split(s, q, flag, u32_bytes(code, little));
    assert(s[q] == s.subrange(q, q + 1)[0]);
    assert(s[q] == flag[0]);
    assert(spec_read_byte_order(s, q, l0) == Ok::<((), int, bool), WkbError>(((), q + 1, little)));
    lemma_u32_at(s, q + 1, code, little);
    if spec_decode_type(code).has_srid {
        lemma_u32_at(s, q + 5, srid, little);
    }
}

proof fn lemma_point_reads(s: Seq<u8>, little: bool, zm: spec_fn(Coord) -> Seq<u8>, extra: int)
    requires
        fills(zm, extra),
        0 <= extra,
    ensures
        forall|c: Coord| #[trigger] step_reads(point_step(s, extra), s, little, coord_enc(little, zm), c),
{
    assert forall|c: Coord| #[trigger] step_reads(point_step(s, extra), s, little, coord_enc(little, zm), c) by {
        assert forall|q: int| has_at(s, q, coord_enc(little, zm)(c)) implies #[trigger] point_step(s, extra)(
            q,
            little,
        ) == Ok::<(Coord, int, bool), WkbError>((c, q + coord_enc(little, zm)(c).len(), little)) by {
            let bx = u64_bytes(c.x, little);
            let by = u64_bytes(c.y, little);
            assert(zm(c).len() == 8 * extra);
            lemma_has_at_split(s, q, bx + by, zm(c));
            lemma_has_at_split(s, q, bx, by);
            lemma_u64_at(s, q, c.x, little);
            lemma_u64_at(s, q + 8, c.y, little);
        }
    }
}

proof fn lemma_coords_reads(s: Seq<u8>, little: bool, zm: spec_fn(Coord) -> Seq<u8>, extra: int)
    requires
        fills(zm, extra),
        0 <= extra,
    ensures
        forall|cs: Seq<Coord>|
            cs.len() <= u32::MAX ==> #[trigger] step_reads(coordseq_step(s, extra), s, little, coords_enc(little, zm), cs),
{
    lemma_point_reads(s, little, zm, extra);
    assert forall|cs: Seq<Coord>| cs.len() <= u32::MAX implies #[trigger] step_reads(
        coordseq_step(s, extra),
        s,
        little,
        coords_enc(little, zm),
        cs,
    ) by {
        assert forall|q: int| has_at(s, q, coords_enc(little, zm)(cs)) implies #[trigger] coordseq_step(s, extra)(
            q,
            little,
        ) == Ok::<(Seq<Coord>, int, bool), WkbError>((cs, q + coords_enc(little, zm)(cs).len(), little)) by {
            assert forall|i: int| 0 <= i < cs.len() implies step_reads(
                point_step(s, extra),
                s,
                little,
                coord_enc(little, zm),
                #[trigger] cs[i],
            ) by {}
            lemma_counted_reads(point_step(s, extra), s, little, coord_enc(little, zm), cs, q);
        }
    }
}

/// Every ring of `rs` has a count that fits.
pub open spec fn rings_fit(rs: Seq<Seq<Coord>>) -> bool {
    rs.len() <= u32::MAX && forall|i: int| 0 <= i < rs.len() ==> (#[trigger] rs[i]).len() <= u32::MAX
}

proof fn lemma_rings_read(s: Seq<u8>, little: bool, zm: spec_fn(Coord) -> Seq<u8>, extra: int, rs: Seq<Seq<Coord>>, q: int)
    requires
        fills(zm, extra),
        0 <= extra,
        rings_fit(rs),
        has_at(s, q, rings_enc(little, zm)(rs)),
    ensures
        spec_read_polygon_body(s, q, little, extra) == Ok::<(Seq<Seq<Coord>>, int, bool), WkbError>(
            (rs, q + rings_enc(little, zm)(rs).len(), little),
        ),
{
    lemma_coords_reads(s, little, zm, extra);
    assert forall|i: int| 0 <= i < rs.len() implies step_reads(
        coordseq_step(s, extra),
        s,
        little,
        coords_enc(little, zm),
        #[trigger] rs[i],
    ) by {
        assert(rs[i].len() <= u32::MAX);
    }
    lemma_counted_reads(coordseq_step(s, extra), s, little, coords_enc(little, zm), rs, q);
}

proof fn lemma_point_parts_read(
    s: Seq<u8>,
    little: bool,
    part: u32,
    srid: u32,
    zm: spec_fn(Coord) -> Seq<u8>,
    cs: Seq<Coord>,
    q: int,
)
    requires
        spec_decode_type(part).base == 1,
        fills(zm, spec_decode_type(part).extra_dims as int),
        cs.len() <= u32::MAX,
        has_at(s, q, counted_enc(cs, point_part_enc(little, part, srid, zm), little)),
    ensures
        spec_counted(s, point_part_step(s), q, little) == Ok::<(Seq<Coord>, int, bool), WkbError>(
            (cs, q + counted_enc(cs, point_part_enc(little, part, srid, zm), little).len(), little),
        ),
{
    let t = spec_decode_type(part);
    let e = t.extra_dims as int;
    let enc = point_part_enc(little, part, srid, zm);
    lemma_point_reads(s, little, zm, e);
    assert forall|i: int| 0 <= i < cs.len() implies step_reads(point_part_step(s), s, little, enc, #[trigger] cs[i]) by {
        let c = cs[i];
        assert forall|r: int| has_at(s, r, enc(c)) implies #[trigger] point_part_step(s)(r, little) == Ok::<
            (Coord, int, bool),
            WkbError,
        >((c, r + enc(c).len(), little)) by {
            let h = header_enc(little, part, srid);
            lemma_has_at_split(s, r, h, coord_enc(little, zm)(c));
            lemma_header_at(s, r, little, part, srid, little);
            assert(spec_read_nested_header(s, r, little, 1) == Ok::<(TypeInfo, int, bool), WkbError>(
                (t, r + h.len(), little),
            ));
            assert(step_reads(point_step(s, e), s, little, coord_enc(little, zm), c));
            assert(point_step(s, e)(r + h.len(), little) == spec_read_point(s, r + h.len(), little, e));
        }
    }
    lemma_counted_reads(point_part_step(s), s, little, enc, cs, q);
}

proof fn lemma_line_parts_read(
    s: Seq<u8>,
    little: bool,
    part: u32,
    srid: u32,
    zm: spec_fn(Coord) -> Seq<u8>,
    ls: Seq<Seq<Coord>>,
    q: int,
)
    requires
        spec_decode_type(part).base == 2,
        fills(zm, spec_decode_type(part).extra_dims as int),
        rings_fit(ls),
        has_at(s, q, counted_enc(ls, line_part_enc(little, part, srid, zm), little)),
    ensures
        spec_counted(s, line_part_step(s), q, little) == Ok::<(Seq<Seq<Coord>>, int, bool), WkbError>(
            (ls, q + counted_enc(ls, line_part_enc(little, part, srid, zm), little).len(), little),
        ),
{
    let t = spec_decode_type(part);
    let e = t.extra_dims as int;
    let enc = line_part_enc(little, part, srid, zm);
    lemma_coords_reads(s, little, zm, e);
    assert forall|i: int| 0 <= i < ls.len() implies step_reads(line_part_step(s), s, little, enc, #[trigger] ls[i]) by {
        let cs = ls[i];
        assert(cs.len() <= u32::MAX);
        assert(step_reads(coordseq_step(s, e), s, little, coords_enc(little, zm), cs));
        assert forall|r: int| has_at(s, r, enc(cs)) implies #[trigger] line_part_step(s)(r, little) == Ok::<
            (Seq<Coord>, int, bool),
            WkbError,
        >((cs, r + enc(cs).len(), little)) by {
            let h = header_enc(little, part, srid);
            lemma_has_at_split(s, r, h, coords_enc(little, zm)(cs));
            lemma_header_at(s, r, little, part, srid, little);
            assert(spec_read_nested_header(s, r, little, 2) == Ok::<(TypeInfo, int, bool), WkbError>(
                (t, r + h.len(), little),
            ));
            assert(coordseq_step(s, e)(r + h.len(), little) == spec_read_coordseq(s, r + h.len(), little, e));
        }
    }
    lemma_counted_reads(line_part_step(s), s, little, enc, ls, q);
}

/// Every polygon of `ps` has counts that fit.
pub open spec fn polygons_fit(ps: Seq<Seq<Seq<Coord>>>) -> bool {
    ps.len() <= u32::MAX && (forall|i: int| 0 <= i < ps.len() ==> (#[trigger] ps[i]).len() <= u32::MAX) && forall|
        i: int,
        j: int,
    | 0 <= i < ps.len() && 0 <= j < ps[i].len() ==> (#[trigger] ps[i][j]).len() <= u32::MAX
}

proof fn lemma_polygon_parts_read(
    s: Seq<u8>,
    little: bool,
    part: u32,
    srid: u32,
    zm: spec_fn(Coord) -> Seq<u8>,
    ps: Seq<Seq<Seq<Coord>>>,
    q: int,
)
    requires
        spec_decode_type(part).base == 3,
        fills(zm, spec_decode_type(part).extra_dims as int),
        polygons_fit(ps),
        has_at(s, q, counted_enc(ps, polygon_part_enc(little, part, srid, zm), little)),
    ensures
        spec_counted(s, polygon_part_step(s), q, little) == Ok::<(Seq<Seq<Seq<Coord>>>, int, bool), WkbError>(
            (ps, q + counted_enc(ps, polygon_part_enc(little, part, srid, zm), little).len(), little),
        ),
{
    let t = spec_decode_type(part);
    let e = t.extra_dims as int;
    let enc = polygon_part_enc(little, part, srid, zm);
    assert forall|i: int| 0 <= i < ps.len() implies step_reads(polygon_part_step(s), s, little, enc, #[trigger] ps[i]) by {
        let rs = ps[i];
        assert(rings_fit(rs)) by {
            assert forall|j: int| 0 <= j < rs.len() implies (#[trigger] rs[j]).len() <= u32::MAX by {
                assert(ps[i][j].len() <= u32::MAX);
            }
        }
        assert forall|r: int| has_at(s, r, enc(rs)) implies #[trigger] polygon_part_step(s)(r, little) == Ok::<
            (Seq<Seq<Coord>>, int, bool),
            WkbError,
        >((rs, r + enc(rs).len(), little)) by {
            let h = header_enc(little, part, srid);
            lemma_has_at_split(s, r, h, rings_enc(little, zm)(rs));
            lemma_header_at(s, r, little, part, srid, little);
            assert(spec_read_nested_header(s, r, little, 3) == Ok::<(TypeInfo, int, bool), WkbError>(
                (t, r + h.len(), little),
            ));
            lemma_rings_read(s, little, zm, e, rs, r + h.len());
        }
    }
    lemma_counted_reads(polygon_part_step(s), s, little, enc, ps, q);
}

/// The header of `s` has been read: type `t`, body from `p` on.
pub open spec fn header_read(s: Seq<u8>, t: TypeInfo, p: int, little: bool) -> bool {
    &&& s.len() >= 5
    &&& spec_read_header(s, 0, true) == Ok::<(TypeInfo, int, bool), WkbError>((t, p, little))
}

proof fn lemma_parse_simple(
    s: Seq<u8>,
    t: TypeInfo,
    p: int,
    little: bool,
    g: GeometryView,
    part: u32,
    srid: u32,
    zm: spec_fn(Coord) -> Seq<u8>,
)
    requires
        header_read(s, t, p, little),
        t.base == kind_code(g),
        part_code(g) == 0,
        fills(zm, t.extra_dims as int),
        counts_fit(g),
        has_at(s, p, body_enc(g, little, part, srid, zm)),
    ensures
        spec_parse_wkb(s) == Ok::<GeometryView, WkbError>(g),
{
    let e = t.extra_dims as int;
    match g {
        GeometryView::Point(c) => {
            lemma_point_reads(s, little, zm, e);
            assert(step_reads(point_step(s, e), s, little, coord_enc(little, zm), c));
            assert(point_step(s, e)(p, little) == spec_read_point(s, p, little, e));
        },
        GeometryView::LineString(cs) => {
            lemma_coords_reads(s, little, zm, e);
            assert(step_reads(coordseq_step(s, e), s, little, coords_enc(little, zm), cs));
            assert(coordseq_step(s, e)(p, little) == spec_read_coordseq(s, p, little, e));
        },
        GeometryView::Polygon(rs) => {
            lemma_rings_read(s, little, zm, e, rs, p);
        },
        _ => {},
    }
}

proof fn lemma_parse_multi(
    s: Seq<u8>,
    t: TypeInfo,
    p: int,
    little: bool,
    g: GeometryView,
    part: u32,
    srid: u32,
    zm: spec_fn(Coord) -> Seq<u8>,
)
    requires
        header_read(s, t, p, little),
        t.base == kind_code(g),
        part_code(g) != 0,
        spec_decode_type(part).base == part_code(g),
        fills(zm, spec_decode_type(part).extra_dims as int),
        counts_fit(g),
        has_at(s, p, body_enc(g, little, part, srid, zm)),
    ensures
        spec_parse_wkb(s) == Ok::<GeometryView, WkbError>(g),
{
    match g {
        GeometryView::MultiPoint(cs) => {
            lemma_point_parts_read(s, little, part, srid, zm, cs, p);
        },
        GeometryView::MultiLineString(ls) => {
            lemma_line_parts_read(s, little, part, srid, zm, ls, p);
        },
        GeometryView::MultiPolygon(ps) => {
            lemma_polygon_parts_read(s, little, part, srid, zm, ps, p);
        },
        _ => {},
    }
}

/// Every geometry reads back from its WKB encoding: for each of the six
/// kinds, in either byte order, with ISO or EWKB type codes, an optional
/// SRID, and any bytes as the Z and M ordinates, the reader returns the
/// encoded geometry: x and y unchanged, Z, M and the SRID skipped, kind,
/// parts and rings kept.
pub proof fn law_wkb_roundtrip(
    g: GeometryView,
    little: bool,
    code: u32,
    part: u32,
    srid: u32,
    zm: spec_fn(Coord) -> Seq<u8>,
)
    requires
        spec_decode_type(code).base == kind_code(g),
        part_code(g) != 0 ==> spec_decode_type(part).base == part_code(g) && spec_decode_type(part).extra_dims
            == spec_decode_type(code).extra_dims,
        fills(zm, spec_decode_type(code).extra_dims as int),
        counts_fit(g),
    ensures
        spec_parse_wkb(encode_wkb(g, little, code, part, srid, zm)) == Ok::<GeometryView, WkbError>(g),
{
    let s = encode_wkb(g, little, code, part, srid, zm);
    let h = header_enc(little, code, srid);
    let body = body_enc(g, little, part, srid, zm);
    assert(s.subrange(0, s.len() as int) =~= h + body);
    lemma_has_at_split(s, 0, h, body);
    lemma_header_at(s, 0, little, code, srid, true);
    let t = spec_decode_type(code);
    let p = h.len() as int;
    assert(header_read(s, t, p, little));
    if part_code(g) == 0 {
        lemma_parse_simple(s, t, p, little, g, part, srid, zm);
    } else {
        lemma_parse_multi(s, t, p, little, g, part, srid, zm);
    }
}

/// What the type codes mean, for every base type `k` below 1000: the
/// plain code has no extra ordinates; ISO codes 1000 + k (Z) and
/// 2000 + k (M) have one and 3000 + k (ZM) two; the EWKB flags 0x80000000
/// (Z) and 0x40000000 (M) add one each, and 0x20000000 announces an SRID.
pub proof fn law_type_codes(k: u32)
    requires
        k < 1000,
    ensures
        spec_decode_type(k) == (TypeInfo { base: k, extra_dims: 0, has_srid: false }),
        spec_decode_type((1000 + k) as u32) == (TypeInfo { base: k, extra_dims: 1, has_srid: false }),
        spec_decode_type((2000 + k) as u32) == (TypeInfo { base: k, extra_dims: 1, has_srid: false }),
        spec_decode_type((3000 + k) as u32) == (TypeInfo { base: k, extra_dims: 2, has_srid: false }),
        spec_decode_type((0x8000_0000 + k) as u32) == (TypeInfo { base: k, extra_dims: 1, has_srid: false }),
        spec_decode_type((0x4000_0000 + k) as u32) == (TypeInfo { base: k, extra_dims: 1, has_srid: false }),
        spec_decode_type((0xC000_0000 + k) as u32) == (TypeInfo { base: k, extra_dims: 2, has_srid: false }),
        spec_decode_type((0x2000_0000 + k) as u32) == (TypeInfo { base: k, extra_dims: 0, has_srid: true }),
        spec_decode_type((0xA000_0000 + k) as u32) == (TypeInfo { base: k, extra_dims: 1, has_srid: true }),
        spec_decode_type((0xE000_0000 + k) as u32) == (TypeInfo { base: k, extra_dims: 2, has_srid: true }),
{
    assert(k & 0x8000_0000 == 0 && k & 0x4000_0000 == 0 && k & 0x2000_0000 == 0 && k & 0x0FFF_FFFF == k)
        by (bit_vector)
        requires
            k < 1000,
    ;
    let c1 = (1000 + k) as u32;
    assert(c1 & 0x8000_0000 == 0 && c1 & 0x4000_0000 == 0 && c1 & 0x2000_0000 == 0 && c1 & 0x0FFF_FFFF == c1)
        by (bit_vector)
        requires
            c1 < 2000,
    ;
    let c2 = (2000 + k) as u32;
    assert(c2 & 0x8000_0000 == 0 && c2 & 0x4000_0000 == 0 && c2 & 0x2000_0000 == 0 && c2 & 0x0FFF_FFFF == c2)
        by (bit_vector)
        requires
            c2 < 3000,
    ;
    let c3 = (3000 + k) as u32;
    assert(c3 & 0x8000_0000 == 0 && c3 & 0x4000_0000 == 0 && c3 & 0x2000_0000 == 0 && c3 & 0x0FFF_FFFF == c3)
        by (bit_vector)
        requires
            c3 < 4000,
    ;
    let z = (0x8000_0000 + k) as u32;
    assert(z & 0x8000_0000 != 0 && z & 0x4000_0000 == 0 && z & 0x2000_0000 == 0 && z & 0x0FFF_FFFF == k)
        by (bit_vector)
        requires
            k < 1000,
            z == 0x8000_0000 + k,
    ;
    let m = (0x4000_0000 + k) as u32;
    assert(m & 0x8000_0000 == 0 && m & 0x4000_0000 != 0 && m & 0x2000_0000 == 0 && m & 0x0FFF_FFFF == k)
        by (bit_vector)
        requires
            k < 1000,
            m == 0x4000_0000 + k,
    ;
    let zm = (0xC000_0000 + k) as u32;
    assert(zm & 0x8000_0000 != 0 && zm & 0x4000_0000 != 0 && zm & 0x2000_0000 == 0 && zm & 0x0FFF_FFFF == k)
        by (bit_vector)
        requires
            k < 1000,
            zm == 0xC000_0000 + k,
    ;
    let sr = (0x2000_0000 + k) as u32;
    assert(sr & 0x8000_0000 == 0 && sr & 0x4000_0000 == 0 && sr & 0x2000_0000 != 0 && sr & 0x0FFF_FFFF == k)
        by (bit_vector)
        requires
            k < 1000,
            sr == 0x2000_0000 + k,
    ;
    let zs = (0xA000_0000 + k) as u32;
    assert(zs & 0x8000_0000 != 0 && zs & 0x4000_0000 == 0 && zs & 0x2000_0000 != 0 && zs & 0x0FFF_FFFF == k)
        by (bit_vector)
        requires
            k < 1000,
            zs == 0xA000_0000 + k,
    ;
    let zms = (0xE000_0000 + k) as u32;
    assert(zms & 0x8000_0000 != 0 && zms & 0x4000_0000 != 0 && zms & 0x2000_0000 != 0 && zms & 0x0FFF_FFFF == k)
        by (bit_vector)
        requires
            k < 1000,
            zms == 0xE000_0000 + k,
    ;
}

/// ISO ZM geometries read back: a geometry of any kind encoded with the
/// ISO code 3000 + its base type (its parts with 3000 + theirs), every
/// coordinate followed by 16 bytes of Z and M, comes back as its x and y
/// coordinates with its parts and rings.
pub proof fn law_iso_zm_roundtrip(g: GeometryView, little: bool, zm: spec_fn(Coord) -> Seq<u8>)
    requires
        forall|c: Coord| #[trigger] zm(c).len() == 16,
        counts_fit(g),
    ensures
        spec_parse_wkb(encode_wkb(g, little, (3000 + kind_code(g)) as u32, (3000 + part_code(g)) as u32, 0, zm))
            == Ok::<GeometryView, WkbError>(g),
{
    law_type_codes(kind_code(g));
    law_type_codes(part_code(g));
    assert(fills(zm, 2));
    law_wkb_roundtrip(g, little, (3000 + kind_code(g)) as u32, (3000 + part_code(g)) as u32, 0, zm);
}

} // verus!
