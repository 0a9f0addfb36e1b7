//! WKB reader for the geometry model.
//!
//! ISO WKB and EWKB: both byte orders, 2-D coordinates with Z and/or M
//! ordinates skipped (ISO 1000/2000/3000 offsets and the EWKB
//! 0x80000000 / 0x40000000 flags), an EWKB embedded SRID skipped. Curved
//! types and GeometryCollection are rejected. Coordinates are returned as
//! the bit patterns of the encoded `f64` values.

use vstd::prelude::*;
use crate::error::WkbError;
use crate::geometry::{Coord, Geometry, GeometryView, Polygon, polygons_view, rings_view};

verus! {

// ---------------------------------------------------------------------
// Specification

/// The unsigned value of the four bytes of `s` at `p`.
pub open spec fn spec_u32(s: Seq<u8>, p: int, little: bool) -> u32 {
    if little {
        (s[p] + s[p + 1] * 0x100 + s[p + 2] * 0x1_0000 + s[p + 3] * 0x100_0000) as u32
    } else {
        (s[p + 3] + s[p + 2] * 0x100 + s[p + 1] * 0x1_0000 + s[p] * 0x100_0000) as u32
    }
}

/// The unsigned value of the eight bytes of `s` at `p` (the bits of an `f64`).
pub open spec fn spec_u64(s: Seq<u8>, p: int, little: bool) -> u64 {
    if little {
        (s[p] + s[p + 1] * 0x100 + s[p + 2] * 0x1_0000 + s[p + 3] * 0x100_0000 + s[p + 4]
            * 0x1_0000_0000 + s[p + 5] * 0x100_0000_0000 + s[p + 6] * 0x1_0000_0000_0000 + s[p + 7]
            * 0x100_0000_0000_0000) as u64
    } else {
        (s[p + 7] + s[p + 6] * 0x100 + s[p + 5] * 0x1_0000 + s[p + 4] * 0x100_0000 + s[p + 3]
            * 0x1_0000_0000 + s[p + 2] * 0x100_0000_0000 + s[p + 1] * 0x1_0000_0000_0000 + s[p]
            * 0x100_0000_0000_0000) as u64
    }
}

/// A read of `n` bytes at `p` fails when it passes the end of `s`.
pub open spec fn spec_need(s: Seq<u8>, p: int, n: int) -> Result<(), WkbError> {
    if p + n > s.len() {
        Err(WkbError::Truncated { at: p as usize })
    } else {
        Ok(())
    }
}

/// Reading a value yields it, the position after it and the byte order.
pub type Read<T> = Result<(T, int, bool), WkbError>;

pub open spec fn spec_read_u8(s: Seq<u8>, p: int, little: bool) -> Read<u8> {
    if p + 1 > s.len() {
        Err(WkbError::Truncated { at: p as usize })
    } else {
        Ok((s[p], p + 1, little))
    }
}

pub open spec fn spec_read_u32(s: Seq<u8>, p: int, little: bool) -> Read<u32> {
    if p + 4 > s.len() {
        Err(WkbError::Truncated { at: p as usize })
    } else {
        Ok((spec_u32(s, p, little), p + 4, little))
    }
}

pub open spec fn spec_read_u64(s: Seq<u8>, p: int, little: bool) -> Read<u64> {
    if p + 8 > s.len() {
        Err(WkbError::Truncated { at: p as usize })
    } else {
        Ok((spec_u64(s, p, little), p + 8, little))
    }
}

/// The byte-order flag: 0 big-endian, 1 little-endian.
pub open spec fn spec_read_byte_order(s: Seq<u8>, p: int, little: bool) -> Read<()> {
    match spec_read_u8(s, p, little) {
        Ok((o, p1, _)) => if o == 0 {
            Ok(((), p1, false))
        } else if o == 1 {
            Ok(((), p1, true))
        } else {
            Err(WkbError::BadByteOrder(o))
        },
        Err(e) => Err(e),
    }
}

/// A decoded type code: base type, number of extra ordinates, SRID flag.
#[derive(Clone, Copy, Debug, PartialEq, Eq, Structural)]
pub struct TypeInfo {
    pub base: u32,
    pub extra_dims: usize,
    pub has_srid: bool,
}

/// EWKB flag bits and ISO thousands offsets of a raw type code.
pub open spec fn spec_decode_type(raw: u32) -> TypeInfo {
    let flags = (if raw & 0x8000_0000 != 0 { 1int } else { 0 }) + (if raw & 0x4000_0000 != 0 {
        1int
    } else {
        0
    });
    let b = raw & 0x0FFF_FFFF;
    let (base, iso) = if 3000 <= b < 4000 {
        ((b - 3000) as u32, 2int)
    } else if 2000 <= b < 3000 {
        ((b - 2000) as u32, 1int)
    } else if 1000 <= b < 2000 {
        ((b - 1000) as u32, 1int)
    } else {
        (b, 0int)
    };
    TypeInfo { base, extra_dims: (flags + iso) as usize, has_srid: raw & 0x2000_0000 != 0 }
}

/// Byte order, type code and the optional SRID (skipped).
pub open spec fn spec_read_header(s: Seq<u8>, p: int, little: bool) -> Read<TypeInfo> {
    match spec_read_byte_order(s, p, little) {
        Ok((_, p1, l1)) => match spec_read_u32(s, p1, l1) {
            Ok((raw, p2, _)) => {
                let t = spec_decode_type(raw);
                if t.has_srid {
                    match spec_read_u32(s, p2, l1) {
                        Ok((_, p3, _)) => Ok((t, p3, l1)),
                        Err(e) => Err(e),
                    }
                } else {
                    Ok((t, p2, l1))
                }
            },
            Err(e) => Err(e),
        },
        Err(e) => Err(e),
    }
}

/// The header of a part of a multi-geometry, whose base type must be `expected`.
pub open spec fn spec_read_nested_header(s: Seq<u8>, p: int, little: bool, expected: u32) -> Read<TypeInfo> {
    match spec_read_header(s, p, little) {
        Ok((t, p1, l1)) => if t.base != expected {
            Err(WkbError::MismatchedPart { found: t.base })
        } else {
            Ok((t, p1, l1))
        },
        Err(e) => Err(e),
    }
}

/// x and y, then `extra` ordinates skipped.
pub open spec fn spec_read_point(s: Seq<u8>, p: int, little: bool, extra: int) -> Read<Coord> {
    match spec_read_u64(s, p, little) {
        Ok((x, p1, _)) => match spec_read_u64(s, p1, little) {
            Ok((y, p2, _)) => if extra > 0 {
                if p2 + 8 * extra > s.len() {
                    Err(WkbError::Truncated { at: p2 as usize })
                } else {
                    Ok((Coord { x, y }, p2 + 8 * extra, little))
                }
            } else {
                Ok((Coord { x, y }, p2, little))
            },
            Err(e) => Err(e),
        },
        Err(e) => Err(e),
    }
}

/// `k` consecutive reads of `step`, each from where the previous ended.
pub open spec fn spec_repeat<T>(step: spec_fn(int, bool) -> Read<T>, p: int, little: bool, k: nat) -> Read<Seq<T>>
    decreases k,
{
    if k == 0 {
        Ok((Seq::empty(), p, little))
    } else {
        match spec_repeat(step, p, little, (k - 1) as nat) {
            Ok((items, p1, l1)) => match step(p1, l1) {
                Ok((x, p2, l2)) => Ok((items.push(x), p2, l2)),
                Err(e) => Err(e),
            },
            Err(e) => Err(e),
        }
    }
}

/// A count, then that many reads of `step`.
pub open spec fn spec_counted<T>(s: Seq<u8>, step: spec_fn(int, bool) -> Read<T>, p: int, little: bool) -> Read<Seq<T>> {
    match spec_read_u32(s, p, little) {
        Ok((n, p1, l1)) => spec_repeat(step, p1, l1, n as nat),
        Err(e) => Err(e),
    }
}

pub open spec fn point_step(s: Seq<u8>, extra: int) -> spec_fn(int, bool) -> Read<Coord> {
    |p: int, l: bool| spec_read_point(s, p, l, extra)
}

/// A coordinate sequence: count, then the points.
pub open spec fn spec_read_coordseq(s: Seq<u8>, p: int, little: bool, extra: int) -> Read<Seq<Coord>> {
    spec_counted(s, point_step(s, extra), p, little)
}

pub open spec fn coordseq_step(s: Seq<u8>, extra: int) -> spec_fn(int, bool) -> Read<Seq<Coord>> {
    |p: int, l: bool| spec_read_coordseq(s, p, l, extra)
}

/// A polygon body: ring count, then the rings.
pub open spec fn spec_read_polygon_body(s: Seq<u8>, p: int, little: bool, extra: int) -> Read<Seq<Seq<Coord>>> {
    spec_counted(s, coordseq_step(s, extra), p, little)
}

/// A point part of a multi-point: its own header, then the point.
pub open spec fn point_part_step(s: Seq<u8>) -> spec_fn(int, bool) -> Read<Coord> {
    |p: int, l: bool|
        match spec_read_nested_header(s, p, l, 1) {
            Ok((t, p1, l1)) => spec_read_point(s, p1, l1, t.extra_dims as int),
            Err(e) => Err(e),
        }
}

/// A line part of a multi-linestring.
pub open spec fn line_part_step(s: Seq<u8>) -> spec_fn(int, bool) -> Read<Seq<Coord>> {
    |p: int, l: bool|
        match spec_read_nested_header(s, p, l, 2) {
            Ok((t, p1, l1)) => spec_read_coordseq(s, p1, l1, t.extra_dims as int),
            Err(e) => Err(e),
        }
}

/// A polygon part of a multi-polygon.
pub open spec fn polygon_part_step(s: Seq<u8>) -> spec_fn(int, bool) -> Read<Seq<Seq<Coord>>> {
    |p: int, l: bool|
        match spec_read_nested_header(s, p, l, 3) {
            Ok((t, p1, l1)) => spec_read_polygon_body(s, p1, l1, t.extra_dims as int),
            Err(e) => Err(e),
        }
}

/// The value of a read, without position and byte order.
pub open spec fn value_of<T, V>(r: Read<T>, f: spec_fn(T) -> V) -> Result<V, WkbError> {
    match r {
        Ok((v, _, _)) => Ok(f(v)),
        Err(e) => Err(e),
    }
}

/// The geometry that `s` encodes, or the error the reader reports.
pub open spec fn spec_parse_wkb(s: Seq<u8>) -> Result<GeometryView, WkbError> {
    if s.len() < 5 {
        Err(WkbError::TooShort)
    } else {
        match spec_read_header(s, 0, true) {
            Ok((t, p, l)) => {
                let extra = t.extra_dims as int;
                if t.base == 1 {
                    value_of(spec_read_point(s, p, l, extra), |c: Coord| GeometryView::Point(c))
                } else if t.base == 2 {
                    value_of(spec_read_coordseq(s, p, l, extra), |c: Seq<Coord>| GeometryView::LineString(c))
                } else if t.base == 3 {
                    value_of(
                        spec_read_polygon_body(s, p, l, extra),
                        |r: Seq<Seq<Coord>>| GeometryView::Polygon(r),
                    )
                } else if t.base == 4 {
                    value_of(
                        spec_counted(s, point_part_step(s), p, l),
                        |c: Seq<Coord>| GeometryView::MultiPoint(c),
                    )
                } else if t.base == 5 {
                    value_of(
                        spec_counted(s, line_part_step(s), p, l),
                        |c: Seq<Seq<Coord>>| GeometryView::MultiLineString(c),
                    )
                } else if t.base == 6 {
                    value_of(
                        spec_counted(s, polygon_part_step(s), p, l),
                        |c: Seq<Seq<Seq<Coord>>>| GeometryView::MultiPolygon(c),
                    )
                } else if t.base == 7 {
                    Err(WkbError::GeometryCollection)
                } else {
                    Err(WkbError::Unsupported { type_code: t.base })
                }
            },
            Err(e) => Err(e),
        }
    }
}

/// Once a repeated read fails, reading more parts fails the same way.
proof fn lemma_repeat_err<T>(step: spec_fn(int, bool) -> Read<T>, p: int, little: bool, k: nat, m: nat)
    requires
        k <= m,
        spec_repeat(step, p, little, k) is Err,
    ensures
        spec_repeat(step, p, little, m) == spec_repeat(step, p, little, k),
    decreases m,
{
    if m > k {
        lemma_repeat_err(step, p, little, k, (m - 1) as nat);
    }
}

// ---------------------------------------------------------------------
// Bytes after a complete geometry are never read

/// The position a successful read ends at.
pub open spec fn end_of<T>(r: Read<T>) -> int {
    match r {
        Ok((_, p, _)) => p,
        Err(_) => 0,
    }
}

/// A read from `f` that succeeds reads the same through `g`, ending no
/// earlier than it started.
pub open spec fn step_extends<T>(f: spec_fn(int, bool) -> Read<T>, g: spec_fn(int, bool) -> Read<T>) -> bool {
    forall|q: int, l: bool|
        0 <= q && (#[trigger] f(q, l)) is Ok ==> g(q, l) == f(q, l) && end_of(f(q, l)) >= q
}

proof fn lemma_bytes_ext(s: Seq<u8>, u: Seq<u8>, p: int, n: int)
    requires
        0 <= p,
        p + n <= s.len(),
    ensures
        forall|i: int| p <= i < p + n ==> (s + u)[i] == s[i],
{
}

proof fn lemma_u32_ext(s: Seq<u8>, u: Seq<u8>, p: int, l: bool)
    requires
        0 <= p,
        spec_read_u32(s, p, l) is Ok,
    ensures
        spec_read_u32(s + u, p, l) == spec_read_u32(s, p, l),
        end_of(spec_read_u32(s, p, l)) == p + 4,
{
    lemma_bytes_ext(s, u, p, 4);
    assert((s + u)[p] == s[p] && (s + u)[p + 1] == s[p + 1] && (s + u)[p + 2] == s[p + 2] && (s + u)[p + 3] == s[p + 3]);
}

proof fn lemma_u64_ext(s: Seq<u8>, u: Seq<u8>, p: int, l: bool)
    requires
        0 <= p,
        spec_read_u64(s, p, l) is Ok,
    ensures
        spec_read_u64(s + u, p, l) == spec_read_u64(s, p, l),
        end_of(spec_read_u64(s, p, l)) == p + 8,
{
    lemma_bytes_ext(s, u, p, 8);
    assert((s + u)[p] == s[p] && (s + u)[p + 1] == s[p + 1] && (s + u)[p + 2] == s[p + 2] && (s + u)[p + 3] == s[p + 3]);
    assert((s + u)[p + 4] == s[p + 4] && (s + u)[p + 5] == s[p + 5] && (s + u)[p + 6] == s[p + 6] && (s + u)[p + 7] == s[p + 7]);
}

proof fn lemma_header_ext(s: Seq<u8>, u: Seq<u8>, p: int, l: bool)
    requires
        0 <= p,
        spec_read_header(s, p, l) is Ok,
    ensures
        spec_read_header(s + u, p, l) == spec_read_header(s, p, l),
        end_of(spec_read_header(s, p, l)) >= p,
{
    lemma_bytes_ext(s, u, p, 1);
    let (_, p1, l1) = spec_read_byte_order(s, p, l).unwrap();
    lemma_u32_ext(s, u, p1, l1);
    let (raw, p2, _) = spec_read_u32(s, p1, l1).unwrap();
    if spec_decode_type(raw).has_srid {
        lemma_u32_ext(s, u, p2, l1);
    }
}

proof fn lemma_nested_header_ext(s: Seq<u8>, u: Seq<u8>, p: int, l: bool, expected: u32)
    requires
        0 <= p,
        spec_read_nested_header(s, p, l, expected) is Ok,
    ensures
        spec_read_nested_header(s + u, p, l, expected) == spec_read_nested_header(s, p, l, expected),
        end_of(spec_read_nested_header(s, p, l, expected)) >= p,
{
    lemma_header_ext(s, u, p, l);
}

proof fn lemma_point_ext(s: Seq<u8>, u: Seq<u8>, p: int, l: bool, extra: int)
    requires
        0 <= p,
        spec_read_point(s, p, l, extra) is Ok,
    ensures
        spec_read_point(s + u, p, l, extra) == spec_read_point(s, p, l, extra),
        end_of(spec_read_point(s, p, l, extra)) >= p,
{
    lemma_u64_ext(s, u, p, l);
    lemma_u64_ext(s, u, p + 8, l);
}

proof fn lemma_repeat_ext<T>(f: spec_fn(int, bool) -> Read<T>, g: spec_fn(int, bool) -> Read<T>, p: int, l: bool, k: nat)
    requires
        0 <= p,
        step_extends(f, g),
        spec_repeat(f, p, l, k) is Ok,
    ensures
        spec_repeat(g, p, l, k) == spec_repeat(f, p, l, k),
        end_of(spec_repeat(f, p, l, k)) >= p,
    decreases k,
{
    if k > 0 {
        lemma_repeat_ext(f, g, p, l, (k - 1) as nat);
        let (_, p1, l1) = spec_repeat(f, p, l, (k - 1) as nat).unwrap();
        assert(f(p1, l1) is Ok);
    }
}

proof fn lemma_counted_ext<T>(s: Seq<u8>, u: Seq<u8>, f: spec_fn(int, bool) -> Read<T>, g: spec_fn(int, bool) -> Read<T>, p: int, l: bool)
    requires
        0 <= p,
        step_extends(f, g),
        spec_counted(s, f, p, l) is Ok,
    ensures
        spec_counted(s + u, g, p, l) == spec_counted(s, f, p, l),
        end_of(spec_counted(s, f, p, l)) >= p,
{
    lemma_u32_ext(s, u, p, l);
    let (n, p1, l1) = spec_read_u32(s, p, l).unwrap();
    lemma_repeat_ext(f, g, p1, l1, n as nat);
}

proof fn lemma_point_step_ext(s: Seq<u8>, u: Seq<u8>, extra: int)
    ensures
        step_extends(point_step(s, extra), point_step(s + u, extra)),
{
    assert forall|q: int, l: bool| 0 <= q && (#[trigger] point_step(s, extra)(q, l)) is Ok implies point_step(s + u, extra)(q, l)
        == point_step(s, extra)(q, l) && end_of(point_step(s, extra)(q, l)) >= q by {
        lemma_point_ext(s, u, q, l, extra);
    }
}

proof fn lemma_coordseq_ext(s: Seq<u8>, u: Seq<u8>, p: int, l: bool, extra: int)
    requires
        0 <= p,
        spec_read_coordseq(s, p, l, extra) is Ok,
    ensures
        spec_read_coordseq(s + u, p, l, extra) == spec_read_coordseq(s, p, l, extra),
        end_of(spec_read_coordseq(s, p, l, extra)) >= p,
{
    lemma_point_step_ext(s, u, extra);
    lemma_counted_ext(s, u, point_step(s, extra), point_step(s + u, extra), p, l);
}

proof fn lemma_coordseq_step_ext(s: Seq<u8>, u: Seq<u8>, extra: int)
    ensures
        step_extends(coordseq_step(s, extra), coordseq_step(s + u, extra)),
{
    assert forall|q: int, l: bool| 0 <= q && (#[trigger] coordseq_step(s, extra)(q, l)) is Ok implies coordseq_step(
        s + u,
        extra,
    )(q, l) == coordseq_step(s, extra)(q, l) && end_of(coordseq_step(s, extra)(q, l)) >= q by {
        lemma_coordseq_ext(s, u, q, l, extra);
    }
}

proof fn lemma_polygon_body_ext(s: Seq<u8>, u: Seq<u8>, p: int, l: bool, extra: int)
    requires
        0 <= p,
        spec_read_polygon_body(s, p, l, extra) is Ok,
    ensures
        spec_read_polygon_body(s + u, p, l, extra) == spec_read_polygon_body(s, p, l, extra),
        end_of(spec_read_polygon_body(s, p, l, extra)) >= p,
{
    lemma_coordseq_step_ext(s, u, extra);
    lemma_counted_ext(s, u, coordseq_step(s, extra), coordseq_step(s + u, extra), p, l);
}

proof fn lemma_part_steps_ext(s: Seq<u8>, u: Seq<u8>)
    ensures
        step_extends(point_part_step(s), point_part_step(s + u)),
        step_extends(line_part_step(s), line_part_step(s + u)),
        step_extends(polygon_part_step(s), polygon_part_step(s + u)),
{
    assert forall|q: int, l: bool| 0 <= q && (#[trigger] point_part_step(s)(q, l)) is Ok implies point_part_step(s + u)(q, l)
        == point_part_step(s)(q, l) && end_of(point_part_step(s)(q, l)) >= q by {
        lemma_nested_header_ext(s, u, q, l, 1);
        let (t, p1, l1) = spec_read_nested_header(s, q, l, 1).unwrap();
        lemma_point_ext(s, u, p1, l1, t.extra_dims as int);
    }
    assert forall|q: int, l: bool| 0 <= q && (#[trigger] line_part_step(s)(q, l)) is Ok implies line_part_step(s + u)(q, l)
        == line_part_step(s)(q, l) && end_of(line_part_step(s)(q, l)) >= q by {
        lemma_nested_header_ext(s, u, q, l, 2);
        let (t, p1, l1) = spec_read_nested_header(s, q, l, 2).unwrap();
        lemma_coordseq_ext(s, u, p1, l1, t.extra_dims as int);
    }
    assert forall|q: int, l: bool| 0 <= q && (#[trigger] polygon_part_step(s)(q, l)) is Ok implies polygon_part_step(
        s + u,
    )(q, l) == polygon_part_step(s)(q, l) && end_of(polygon_part_step(s)(q, l)) >= q by {
        lemma_nested_header_ext(s, u, q, l, 3);
        let (t, p1, l1) = spec_read_nested_header(s, q, l, 3).unwrap();
        lemma_polygon_body_ext(s, u, p1, l1, t.extra_dims as int);
    }
}

/// Bytes after a geometry are ignored: if `s` parses, so does `s`
/// followed by any bytes, to the same geometry.
pub proof fn law_trailing_bytes_ignored(s: Seq<u8>, u: Seq<u8>)
    requires
        spec_parse_wkb(s) is Ok,
    ensures
        spec_parse_wkb(s + u) == spec_parse_wkb(s),
{
    let t = s + u;
    lemma_header_ext(s, u, 0, true);
    let (ty, p, l) = spec_read_header(s, 0, true).unwrap();
    let extra = ty.extra_dims as int;
    lemma_part_steps_ext(s, u);
    if ty.base == 1 {
        lemma_point_ext(s, u, p, l, extra);
    } else if ty.base == 2 {
        lemma_coordseq_ext(s, u, p, l, extra);
    } else if ty.base == 3 {
        lemma_polygon_body_ext(s, u, p, l, extra);
    } else if ty.base == 4 {
        lemma_counted_ext(s, u, point_part_step(s), point_part_step(t), p, l);
    } else if ty.base == 5 {
        lemma_counted_ext(s, u, line_part_step(s), line_part_step(t), p, l);
    } else if ty.base == 6 {
        lemma_counted_ext(s, u, polygon_part_step(s), polygon_part_step(t), p, l);
    }
}

// ---------------------------------------------------------------------
// Encodings read back

/// The four bytes of `v` in the given byte order.
pub open spec fn u32_bytes(v: u32, little: bool) -> Seq<u8> {
    let b = seq![(v & 0xff) as u8, ((v >> 8) & 0xff) as u8, ((v >> 16) & 0xff) as u8, ((v >> 24) & 0xff) as u8];
    if little {
        b
    } else {
        b.reverse()
    }
}

/// The eight bytes of `v` in the given byte order.
pub open spec fn u64_bytes(v: u64, little: bool) -> Seq<u8> {
    let b = seq![
        (v & 0xff) as u8,
        ((v >> 8) & 0xff) as u8,
        ((v >> 16) & 0xff) as u8,
        ((v >> 24) & 0xff) as u8,
        ((v >> 32) & 0xff) as u8,
        ((v >> 40) & 0xff) as u8,
        ((v >> 48) & 0xff) as u8,
        ((v >> 56) & 0xff) as u8,
    ];
    if little {
        b
    } else {
        b.reverse()
    }
}

/// A WKB point: byte-order flag, type code, x, y, then `rest` (further
/// ordinates, and anything after).
pub open spec fn encode_point(little: bool, type_code: u32, x: u64, y: u64, rest: Seq<u8>) -> Seq<u8> {
    seq![if little { 1u8 } else { 0u8 }] + u32_bytes(type_code, little) + u64_bytes(x, little) + u64_bytes(
        y,
        little,
    ) + rest
}

pub proof fn lemma_u32_bytes_read(v: u32, little: bool, pre: Seq<u8>, post: Seq<u8>)
    ensures
        spec_u32(pre + u32_bytes(v, little) + post, pre.len() as int, little) == v,
{
    let s = pre + u32_bytes(v, little) + post;
    let p = pre.len() as int;
    let b0 = (v & 0xff) as u8;
    let b1 = ((v >> 8) & 0xff) as u8;
    let b2 = ((v >> 16) & 0xff) as u8;
    let b3 = ((v >> 24) & 0xff) as u8;
    if little {
        assert(s[p] == b0 && s[p + 1] == b1 && s[p + 2] == b2 && s[p + 3] == b3);
    } else {
        assert(s[p] == b3 && s[p + 1] == b2 && s[p + 2] == b1 && s[p + 3] == b0);
    }
    assert(b0 as u32 + b1 as u32 * 0x100 + b2 as u32 * 0x1_0000 + b3 as u32 * 0x100_0000 == v) by (bit_vector)
        requires
            b0 == (v & 0xff) as u8,
            b1 == ((v >> 8) & 0xff) as u8,
            b2 == ((v >> 16) & 0xff) as u8,
            b3 == ((v >> 24) & 0xff) as u8,
    ;
}

pub proof fn lemma_u64_bytes_read(v: u64, little: bool, pre: Seq<u8>, post: Seq<u8>)
    ensures
        spec_u64(pre + u64_bytes(v, little) + post, pre.len() as int, little) == v,
{
    let s = pre + u64_bytes(v, little) + post;
    let p = pre.len() as int;
    let b0 = (v & 0xff) as u8;
    let b1 = ((v >> 8) & 0xff) as u8;
    let b2 = ((v >> 16) & 0xff) as u8;
    let b3 = ((v >> 24) & 0xff) as u8;
    let b4 = ((v >> 32) & 0xff) as u8;
    let b5 = ((v >> 40) & 0xff) as u8;
    let b6 = ((v >> 48) & 0xff) as u8;
    let b7 = ((v >> 56) & 0xff) as u8;
    if little {
        assert(s[p] == b0 && s[p + 1] == b1 && s[p + 2] == b2 && s[p + 3] == b3);
        assert(s[p + 4] == b4 && s[p + 5] == b5 && s[p + 6] == b6 && s[p + 7] == b7);
    } else {
        assert(s[p] == b7 && s[p + 1] == b6 && s[p + 2] == b5 && s[p + 3] == b4);
        assert(s[p + 4] == b3 && s[p + 5] == b2 && s[p + 6] == b1 && s[p + 7] == b0);
    }
    assert(b0 as u64 + b1 as u64 * 0x100 + b2 as u64 * 0x1_0000 + b3 as u64 * 0x100_0000 + b4 as u64
        * 0x1_0000_0000 + b5 as u64 * 0x100_0000_0000 + b6 as u64 * 0x1_0000_0000_0000 + b7 as u64
        * 0x100_0000_0000_0000 == v) by (bit_vector)
        requires
            b0 == (v & 0xff) as u8,
            b1 == ((v >> 8) & 0xff) as u8,
            b2 == ((v >> 16) & 0xff) as u8,
            b3 == ((v >> 24) & 0xff) as u8,
            b4 == ((v >> 32) & 0xff) as u8,
            b5 == ((v >> 40) & 0xff) as u8,
            b6 == ((v >> 48) & 0xff) as u8,
            b7 == ((v >> 56) & 0xff) as u8,
    ;
}

proof fn lemma_encoded_header(little: bool, code: u32, x: u64, y: u64, rest: Seq<u8>)
    requires
        !spec_decode_type(code).has_srid,
    ensures
        spec_read_header(encode_point(little, code, x, y, rest), 0, true) == Ok::<(TypeInfo, int, bool), WkbError>(
            (spec_decode_type(code), 5, little),
        ),
{
    let head = seq![if little { 1u8 } else { 0u8 }];
    let ty = u32_bytes(code, little);
    let tail = u64_bytes(x, little) + u64_bytes(y, little) + rest;
    let s = encode_point(little, code, x, y, rest);
    assert(s =~= head + ty + tail);
    assert(s[0] == head[0]);
    assert(s.len() >= 21);
    assert(spec_read_byte_order(s, 0, true) == Ok::<((), int, bool), WkbError>(((), 1, little)));
    lemma_u32_bytes_read(code, little, head, tail);
}

proof fn lemma_encoded_xy(little: bool, code: u32, x: u64, y: u64, rest: Seq<u8>)
    ensures
        spec_read_u64(encode_point(little, code, x, y, rest), 5, little) == Ok::<(u64, int, bool), WkbError>(
            (x, 13, little),
        ),
        spec_read_u64(encode_point(little, code, x, y, rest), 13, little) == Ok::<(u64, int, bool), WkbError>(
            (y, 21, little),
        ),
        encode_point(little, code, x, y, rest).len() == 21 + rest.len(),
{
    let head = seq![if little { 1u8 } else { 0u8 }] + u32_bytes(code, little);
    let bx = u64_bytes(x, little);
    let by = u64_bytes(y, little);
    let s = encode_point(little, code, x, y, rest);
    assert(s =~= head + bx + (by + rest));
    lemma_u64_bytes_read(x, little, head, by + rest);
    assert(s =~= (head + bx) + by + rest);
    lemma_u64_bytes_read(y, little, head + bx, rest);
}

/// Both byte orders: a 2-D point encoded in either byte order reads back
/// as the same point.
pub proof fn law_point_roundtrip(little: bool, x: u64, y: u64)
    ensures
        spec_parse_wkb(encode_point(little, 1, x, y, Seq::empty())) == Ok::<GeometryView, WkbError>(
            GeometryView::Point(Coord { x, y }),
        ),
{
    assert(1u32 & 0x8000_0000 == 0 && 1u32 & 0x4000_0000 == 0 && 1u32 & 0x2000_0000 == 0 && 1u32 & 0x0FFF_FFFF
        == 1) by (bit_vector);
    lemma_encoded_header(little, 1, x, y, Seq::empty());
    lemma_encoded_xy(little, 1, x, y, Seq::empty());
}

/// Z and M ordinates are skipped: a point with `n` extra ordinates (ISO
/// codes 1001, 2001, 3001 or the EWKB Z and M flags), in either byte
/// order, reads back as its x and y.
pub proof fn law_point_extra_ordinates_skipped(little: bool, code: u32, x: u64, y: u64, rest: Seq<u8>)
    requires
        code == 1001 || code == 2001 || code == 3001 || code == 0x8000_0001 || code == 0x4000_0001
            || code == 0xC000_0001,
        rest.len() == 8 * spec_decode_type(code).extra_dims,
    ensures
        spec_parse_wkb(encode_point(little, code, x, y, rest)) == Ok::<GeometryView, WkbError>(
            GeometryView::Point(Coord { x, y }),
        ),
{
    assert(1001u32 & 0x8000_0000 == 0 && 1001u32 & 0x4000_0000 == 0 && 1001u32 & 0x2000_0000 == 0 && 1001u32
        & 0x0FFF_FFFF == 1001) by (bit_vector);
    assert(2001u32 & 0x8000_0000 == 0 && 2001u32 & 0x4000_0000 == 0 && 2001u32 & 0x2000_0000 == 0 && 2001u32
        & 0x0FFF_FFFF == 2001) by (bit_vector);
    assert(3001u32 & 0x8000_0000 == 0 && 3001u32 & 0x4000_0000 == 0 && 3001u32 & 0x2000_0000 == 0 && 3001u32
        & 0x0FFF_FFFF == 3001) by (bit_vector);
    assert(0x8000_0001u32 & 0x8000_0000 != 0 && 0x8000_0001u32 & 0x4000_0000 == 0 && 0x8000_0001u32 & 0x2000_0000
        == 0 && 0x8000_0001u32 & 0x0FFF_FFFF == 1) by (bit_vector);
    assert(0x4000_0001u32 & 0x8000_0000 == 0 && 0x4000_0001u32 & 0x4000_0000 != 0 && 0x4000_0001u32 & 0x2000_0000
        == 0 && 0x4000_0001u32 & 0x0FFF_FFFF == 1) by (bit_vector);
    assert(0xC000_0001u32 & 0x8000_0000 != 0 && 0xC000_0001u32 & 0x4000_0000 != 0 && 0xC000_0001u32 & 0x2000_0000
        == 0 && 0xC000_0001u32 & 0x0FFF_FFFF == 1) by (bit_vector);
    lemma_encoded_header(little, code, x, y, rest);
    lemma_encoded_xy(little, code, x, y, rest);
}

// ---------------------------------------------------------------------
// Reader

struct Cursor<'a> {
    data: &'a [u8],
    pos: usize,
    little: bool,
}

impl<'a> Cursor<'a> {
    spec fn wf(&self) -> bool {
        self.pos <= self.data@.len()
    }

    fn new(data: &'a [u8]) -> (c: Self)
        ensures
            c.data@ == data@,
            c.pos == 0,
            c.little,
    {
        Cursor { data, pos: 0, little: true }
    }

    fn remaining(&self) -> (n: usize)
        requires
            self.wf(),
        ensures
            n == self.data@.len() - self.pos,
    {
        self.data.len() - self.pos
    }

    fn need(&self, n: usize) -> (r: Result<(), WkbError>)
        requires
            self.wf(),
        ensures
            r == spec_need(self.data@, self.pos as int, n as int),
    {
        if n > self.remaining() {
            Err(WkbError::Truncated { at: self.pos })
        } else {
            Ok(())
        }
    }

    fn read_u8(&mut self) -> (r: Result<u8, WkbError>)
        requires
            old(self).wf(),
        ensures
            final(self).wf(),
            final(self).data == old(self).data,
            match spec_read_u8(old(self).data@, old(self).pos as int, old(self).little) {
                Ok((v, p, l)) => r == Ok::<u8, WkbError>(v) && final(self).pos == p && final(self).little == l,
                Err(e) => r == Err::<u8, WkbError>(e) && final(self).pos == old(self).pos && final(self).little
                    == old(self).little,
            },
    {
        self.need(1)?;
        let v = self.data[self.pos];
        self.pos += 1;
        Ok(v)
    }

    fn read_u32(&mut self) -> (r: Result<u32, WkbError>)
        requires
            old(self).wf(),
        ensures
            final(self).wf(),
            final(self).data == old(self).data,
            match spec_read_u32(old(self).data@, old(self).pos as int, old(self).little) {
                Ok((v, p, l)) => r == Ok::<u32, WkbError>(v) && final(self).pos == p && final(self).little == l,
                Err(e) => r == Err::<u32, WkbError>(e) && final(self).pos == old(self).pos && final(self).little
                    == old(self).little,
            },
    {
        self.need(4)?;
        let p = self.pos;
        let b0 = self.data[p] as u32;
        let b1 = self.data[p + 1] as u32;
        let b2 = self.data[p + 2] as u32;
        let b3 = self.data[p + 3] as u32;
        let v = if self.little {
            b0 + b1 * 0x100 + b2 * 0x1_0000 + b3 * 0x100_0000
        } else {
            b3 + b2 * 0x100 + b1 * 0x1_0000 + b0 * 0x100_0000
        };
        self.pos = p + 4;
        Ok(v)
    }

    /// The eight bytes of an `f64`, as its bit pattern.
    fn read_f64(&mut self) -> (r: Result<u64, WkbError>)
        requires
            old(self).wf(),
        ensures
            final(self).wf(),
            final(self).data == old(self).data,
            match spec_read_u64(old(self).data@, old(self).pos as int, old(self).little) {
                Ok((v, p, l)) => r == Ok::<u64, WkbError>(v) && final(self).pos == p && final(self).little == l,
                Err(e) => r == Err::<u64, WkbError>(e) && final(self).pos == old(self).pos && final(self).little
                    == old(self).little,
            },
    {
        self.need(8)?;
        let p = self.pos;
        let b0 = self.data[p] as u64;
        let b1 = self.data[p + 1] as u64;
        let b2 = self.data[p + 2] as u64;
        let b3 = self.data[p + 3] as u64;
        let b4 = self.data[p + 4] as u64;
        let b5 = self.data[p + 5] as u64;
        let b6 = self.data[p + 6] as u64;
        let b7 = self.data[p + 7] as u64;
        let v = if self.little {
            b0 + b1 * 0x100 + b2 * 0x1_0000 + b3 * 0x100_0000 + b4 * 0x1_0000_0000 + b5 * 0x100_0000_0000
                + b6 * 0x1_0000_0000_0000 + b7 * 0x100_0000_0000_0000
        } else {
            b7 + b6 * 0x100 + b5 * 0x1_0000 + b4 * 0x100_0000 + b3 * 0x1_0000_0000 + b2 * 0x100_0000_0000
                + b1 * 0x1_0000_0000_0000 + b0 * 0x100_0000_0000_0000
        };
        self.pos = p + 8;
        Ok(v)
    }

    fn skip_f64(&mut self, n: usize) -> (r: Result<(), WkbError>)
        requires
            old(self).wf(),
            n <= 4,
        ensures
            final(self).wf(),
            final(self).data == old(self).data,
            final(self).little == old(self).little,
            old(self).pos + 8 * n > old(self).data@.len() ==> r == Err::<(), WkbError>(
                WkbError::Truncated { at: old(self).pos },
            ),
            old(self).pos + 8 * n <= old(self).data@.len() ==> r is Ok && final(self).pos == old(self).pos + 8 * n,
    {
        self.need(8 * n)?;
        assert(self.data@.len() == self.data.len());
        self.pos += 8 * n;
        Ok(())
    }

    fn read_byte_order(&mut self) -> (r: Result<(), WkbError>)
        requires
            old(self).wf(),
        ensures
            final(self).wf(),
            final(self).data == old(self).data,
            match spec_read_byte_order(old(self).data@, old(self).pos as int, old(self).little) {
                Ok((v, p, l)) => r == Ok::<(), WkbError>(v) && final(self).pos == p && final(self).little == l,
                Err(e) => r == Err::<(), WkbError>(e) && final(self).little == old(self).little && (e is Truncated
                    ==> final(self).pos == old(self).pos) && (e is BadByteOrder ==> final(self).pos == old(self).pos
                    + 1),
            },
    {
        let order = self.read_u8()?;
        if order == 0 {
            self.little = false;
        } else if order == 1 {
            self.little = true;
        } else {
            return Err(WkbError::BadByteOrder(order));
        }
        Ok(())
    }
}

fn decode_type(raw: u32) -> (t: TypeInfo)
    ensures
        t == spec_decode_type(raw),
        t.extra_dims <= 4,
{
    let mut extra: usize = 0;
    if raw & 0x8000_0000 != 0 {
        extra += 1;
    }
    if raw & 0x4000_0000 != 0 {
        extra += 1;
    }
    let mut base = raw & 0x0FFF_FFFF;
    if 3000 <= base && base < 4000 {
        extra += 2;
        base -= 3000;
    } else if 2000 <= base && base < 3000 {
        extra += 1;
        base -= 2000;
    } else if 1000 <= base && base < 2000 {
        extra += 1;
        base -= 1000;
    }
    TypeInfo { base, extra_dims: extra, has_srid: raw & 0x2000_0000 != 0 }
}

fn read_header(cur: &mut Cursor) -> (r: Result<TypeInfo, WkbError>)
    requires
        old(cur).wf(),
    ensures
        final(cur).wf(),
        final(cur).data == old(cur).data,
        r matches Ok(t) ==> t.extra_dims <= 4,
        match spec_read_header(old(cur).data@, old(cur).pos as int, old(cur).little) {
            Ok((v, p, l)) => r == Ok::<TypeInfo, WkbError>(v) && final(cur).pos == p && final(cur).little == l,
            Err(e) => r == Err::<TypeInfo, WkbError>(e),
        },
{
    cur.read_byte_order()?;
    let t = decode_type(cur.read_u32()?);
    if t.has_srid {
        cur.read_u32()?;
    }
    Ok(t)
}

fn read_nested_header(cur: &mut Cursor, expected_base: u32) -> (r: Result<TypeInfo, WkbError>)
    requires
        old(cur).wf(),
    ensures
        final(cur).wf(),
        final(cur).data == old(cur).data,
        r matches Ok(t) ==> t.extra_dims <= 4,
        match spec_read_nested_header(old(cur).data@, old(cur).pos as int, old(cur).little, expected_base) {
            Ok((v, p, l)) => r == Ok::<TypeInfo, WkbError>(v) && final(cur).pos == p && final(cur).little == l,
            Err(e) => r == Err::<TypeInfo, WkbError>(e),
        },
{
    let t = read_header(cur)?;
    if t.base != expected_base {
        return Err(WkbError::MismatchedPart { found: t.base });
    }
    Ok(t)
}

fn read_point(cur: &mut Cursor, extra: usize) -> (r: Result<Coord, WkbError>)
    requires
        old(cur).wf(),
        extra <= 4,
    ensures
        final(cur).wf(),
        final(cur).data == old(cur).data,
        match spec_read_point(old(cur).data@, old(cur).pos as int, old(cur).little, extra as int) {
            Ok((v, p, l)) => r == Ok::<Coord, WkbError>(v) && final(cur).pos == p && final(cur).little == l,
            Err(e) => r == Err::<Coord, WkbError>(e),
        },
{
    let x = cur.read_f64()?;
    let y = cur.read_f64()?;
    if extra > 0 {
        cur.skip_f64(extra)?;
    }
    Ok(Coord { x, y })
}

fn read_coordseq(cur: &mut Cursor, extra: usize) -> (r: Result<Vec<Coord>, WkbError>)
    requires
        old(cur).wf(),
        extra <= 4,
    ensures
        final(cur).wf(),
        final(cur).data == old(cur).data,
        match spec_read_coordseq(old(cur).data@, old(cur).pos as int, old(cur).little, extra as int) {
            Ok((v, p, l)) => r matches Ok(x) && x@ == v && final(cur).pos == p && final(cur).little == l,
            Err(e) => r == Err::<Vec<Coord>, WkbError>(e),
        },
{
    let ghost s = cur.data@;
    let ghost d0 = cur.data;
    let n = cur.read_u32()? as usize;
    let ghost p0 = cur.pos as int;
    let ghost l0 = cur.little;
    let ghost step = point_step(s, extra as int);
    let mut seq: Vec<Coord> = Vec::new();
    let mut i: usize = 0;
    while i < n
        invariant
            cur.wf(),
            cur.data@ == s,
            cur.data == d0,
            d0 == old(cur).data,
            i <= n,
            extra <= 4,
            step == point_step(s, extra as int),
            spec_read_coordseq(s, old(cur).pos as int, old(cur).little, extra as int) == spec_repeat(step, p0, l0, n as nat),
            spec_repeat(step, p0, l0, i as nat) == Ok::<(Seq<Coord>, int, bool), WkbError>(
                (seq@, cur.pos as int, cur.little),
            ),
        decreases n - i,
    {
        match read_point(cur, extra) {
            Ok(c) => {
                seq.push(c);
            },
            Err(e) => {
                proof {
                    lemma_repeat_err(step, p0, l0, (i + 1) as nat, n as nat);
                }
                return Err(e);
            },
        }
        i += 1;
    }
    Ok(seq)
}

fn read_polygon_body(cur: &mut Cursor, extra: usize) -> (r: Result<Polygon, WkbError>)
    requires
        old(cur).wf(),
        extra <= 4,
    ensures
        final(cur).wf(),
        final(cur).data == old(cur).data,
        match spec_read_polygon_body(old(cur).data@, old(cur).pos as int, old(cur).little, extra as int) {
            Ok((v, p, l)) => r matches Ok(x) && x@ == v && final(cur).pos == p && final(cur).little == l,
            Err(e) => r == Err::<Polygon, WkbError>(e),
        },
{
    let ghost s = cur.data@;
    let ghost d0 = cur.data;
    let n_rings = cur.read_u32()? as usize;
    let ghost p0 = cur.pos as int;
    let ghost l0 = cur.little;
    let ghost step = coordseq_step(s, extra as int);
    let mut rings: Vec<Vec<Coord>> = Vec::new();
    assert(rings_view(rings@) =~= Seq::empty());
    let mut i: usize = 0;
    while i < n_rings
        invariant
            cur.wf(),
            cur.data@ == s,
            cur.data == d0,
            d0 == old(cur).data,
            i <= n_rings,
            extra <= 4,
            step == coordseq_step(s, extra as int),
            spec_read_polygon_body(s, old(cur).pos as int, old(cur).little, extra as int) == spec_repeat(step, p0, l0, n_rings as nat),
            spec_repeat(step, p0, l0, i as nat) == Ok::<(Seq<Seq<Coord>>, int, bool), WkbError>(
                (rings_view(rings@), cur.pos as int, cur.little),
            ),
        decreases n_rings - i,
    {
        match read_coordseq(cur, extra) {
            Ok(ring) => {
                let ghost before = rings@;
                rings.push(ring);
                assert(rings_view(rings@) =~= rings_view(before).push(ring@));
            },
            Err(e) => {
                proof {
                    lemma_repeat_err(step, p0, l0, (i + 1) as nat, n_rings as nat);
                }
                return Err(e);
            },
        }
        i += 1;
    }
    Ok(Polygon { rings })
}

fn read_point_parts(cur: &mut Cursor) -> (r: Result<Vec<Coord>, WkbError>)
    requires
        old(cur).wf(),
    ensures
        final(cur).wf(),
        final(cur).data == old(cur).data,
        match spec_counted(old(cur).data@, point_part_step(old(cur).data@), old(cur).pos as int, old(cur).little) {
            Ok((v, p, l)) => r matches Ok(x) && x@ == v && final(cur).pos == p && final(cur).little == l,
            Err(e) => r == Err::<Vec<Coord>, WkbError>(e),
        },
{
    let ghost s = cur.data@;
    let ghost d0 = cur.data;
    let n = cur.read_u32()? as usize;
    let ghost p0 = cur.pos as int;
    let ghost l0 = cur.little;
    let ghost step = point_part_step(s);
    let mut pts: Vec<Coord> = Vec::new();
    let mut i: usize = 0;
    while i < n
        invariant
            cur.wf(),
            cur.data@ == s,
            cur.data == d0,
            d0 == old(cur).data,
            i <= n,
            step == point_part_step(s),
            spec_counted(s, step, old(cur).pos as int, old(cur).little) == spec_repeat(step, p0, l0, n as nat),
            spec_repeat(step, p0, l0, i as nat) == Ok::<(Seq<Coord>, int, bool), WkbError>(
                (pts@, cur.pos as int, cur.little),
            ),
        decreases n - i,
    {
        let pt = match read_nested_header(cur, 1) {
            Ok(t) => t,
            Err(e) => {
                proof {
                    lemma_repeat_err(step, p0, l0, (i + 1) as nat, n as nat);
                }
                return Err(e);
            },
        };
        match read_point(cur, pt.extra_dims) {
            Ok(c) => {
                pts.push(c);
            },
            Err(e) => {
                proof {
                    lemma_repeat_err(step, p0, l0, (i + 1) as nat, n as nat);
                }
                return Err(e);
            },
        }
        i += 1;
    }
    Ok(pts)
}

fn read_line_parts(cur: &mut Cursor) -> (r: Result<Vec<Vec<Coord>>, WkbError>)
    requires
        old(cur).wf(),
    ensures
        final(cur).wf(),
        final(cur).data == old(cur).data,
        match spec_counted(old(cur).data@, line_part_step(old(cur).data@), old(cur).pos as int, old(cur).little) {
            Ok((v, p, l)) => r matches Ok(x) && rings_view(x@) == v && final(cur).pos == p && final(cur).little == l,
            Err(e) => r == Err::<Vec<Vec<Coord>>, WkbError>(e),
        },
{
    let ghost s = cur.data@;
    let ghost d0 = cur.data;
    let n = cur.read_u32()? as usize;
    let ghost p0 = cur.pos as int;
    let ghost l0 = cur.little;
    let ghost step = line_part_step(s);
    let mut lines: Vec<Vec<Coord>> = Vec::new();
    assert(rings_view(lines@) =~= Seq::empty());
    let mut i: usize = 0;
    while i < n
        invariant
            cur.wf(),
            cur.data@ == s,
            cur.data == d0,
            d0 == old(cur).data,
            i <= n,
            step == line_part_step(s),
            spec_counted(s, step, old(cur).pos as int, old(cur).little) == spec_repeat(step, p0, l0, n as nat),
            spec_repeat(step, p0, l0, i as nat) == Ok::<(Seq<Seq<Coord>>, int, bool), WkbError>(
                (rings_view(lines@), cur.pos as int, cur.little),
            ),
        decreases n - i,
    {
        let lt = match read_nested_header(cur, 2) {
            Ok(t) => t,
            Err(e) => {
                proof {
                    lemma_repeat_err(step, p0, l0, (i + 1) as nat, n as nat);
                }
                return Err(e);
            },
        };
        match read_coordseq(cur, lt.extra_dims) {
            Ok(line) => {
                let ghost before = lines@;
                lines.push(line);
                assert(rings_view(lines@) =~= rings_view(before).push(line@));
            },
            Err(e) => {
                proof {
                    lemma_repeat_err(step, p0, l0, (i + 1) as nat, n as nat);
                }
                return Err(e);
            },
        }
        i += 1;
    }
    Ok(lines)
}

fn read_polygon_parts(cur: &mut Cursor) -> (r: Result<Vec<Polygon>, WkbError>)
    requires
        old(cur).wf(),
    ensures
        final(cur).wf(),
        final(cur).data == old(cur).data,
        match spec_counted(old(cur).data@, polygon_part_step(old(cur).data@), old(cur).pos as int, old(cur).little) {
            Ok((v, p, l)) => r matches Ok(x) && polygons_view(x@) == v && final(cur).pos == p && final(cur).little == l,
            Err(e) => r == Err::<Vec<Polygon>, WkbError>(e),
        },
{
    let ghost s = cur.data@;
    let ghost d0 = cur.data;
    let n = cur.read_u32()? as usize;
    let ghost p0 = cur.pos as int;
    let ghost l0 = cur.little;
    let ghost step = polygon_part_step(s);
    let mut polys: Vec<Polygon> = Vec::new();
    assert(polygons_view(polys@) =~= Seq::empty());
    let mut i: usize = 0;
    while i < n
        invariant
            cur.wf(),
            cur.data@ == s,
            cur.data == d0,
            d0 == old(cur).data,
            i <= n,
            step == polygon_part_step(s),
            spec_counted(s, step, old(cur).pos as int, old(cur).little) == spec_repeat(step, p0, l0, n as nat),
            spec_repeat(step, p0, l0, i as nat) == Ok::<(Seq<Seq<Seq<Coord>>>, int, bool), WkbError>(
                (polygons_view(polys@), cur.pos as int, cur.little),
            ),
        decreases n - i,
    {
        let pt = match read_nested_header(cur, 3) {
            Ok(t) => t,
            Err(e) => {
                proof {
                    lemma_repeat_err(step, p0, l0, (i + 1) as nat, n as nat);
                }
                return Err(e);
            },
        };
        match read_polygon_body(cur, pt.extra_dims) {
            Ok(poly) => {
                let ghost before = polys@;
                polys.push(poly);
                assert(polygons_view(polys@) =~= polygons_view(before).push(poly@));
            },
            Err(e) => {
                proof {
                    lemma_repeat_err(step, p0, l0, (i + 1) as nat, n as nat);
                }
                return Err(e);
            },
        }
        i += 1;
    }
    Ok(polys)
}

/// The geometry of a parse result, by its view.
pub open spec fn result_view(r: Result<Geometry, WkbError>) -> Result<GeometryView, WkbError> {
    match r {
        Ok(g) => Ok(g@),
        Err(e) => Err(e),
    }
}

/// Parse a single WKB geometry.
pub fn parse_wkb(data: &[u8]) -> (r: Result<Geometry, WkbError>)
    ensures
        result_view(r) == spec_parse_wkb(data@),
{
    if data.len() < 5 {
        return Err(WkbError::TooShort);
    }
    let mut cur = Cursor::new(data);
    let t = read_header(&mut cur)?;
    if t.base == 1 {
        Ok(Geometry::Point(read_point(&mut cur, t.extra_dims)?))
    } else if t.base == 2 {
        Ok(Geometry::LineString(read_coordseq(&mut cur, t.extra_dims)?))
    } else if t.base == 3 {
        Ok(Geometry::Polygon(read_polygon_body(&mut cur, t.extra_dims)?))
    } else if t.base == 4 {
        Ok(Geometry::MultiPoint(read_point_parts(&mut cur)?))
    } else if t.base == 5 {
        Ok(Geometry::MultiLineString(read_line_parts(&mut cur)?))
    } else if t.base == 6 {
        Ok(Geometry::MultiPolygon(read_polygon_parts(&mut cur)?))
    } else if t.base == 7 {
        Err(WkbError::GeometryCollection)
    } else {
        Err(WkbError::Unsupported { type_code: t.base })
    }
}

} // verus!
