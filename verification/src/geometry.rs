//! Planar geometry model: coordinates, rings, the six geometry kinds.
//!
//! A coordinate is a pair of `f64` values held as their IEEE-754 bit
//! patterns; the predicates the burn needs of them (finiteness, equality)
//! are stated on the bits.

use vstd::prelude::*;

verus! {

/// The `f64` with bits `b` is finite (neither infinite nor NaN).
pub open spec fn f64_is_finite(b: u64) -> bool {
    b & 0x7ff0_0000_0000_0000 != 0x7ff0_0000_0000_0000
}

/// The `f64` with bits `b` is a NaN.
pub open spec fn f64_is_nan(b: u64) -> bool {
    b & 0x7ff0_0000_0000_0000 == 0x7ff0_0000_0000_0000 && b & 0x000f_ffff_ffff_ffff != 0
}

/// IEEE-754 equality of the `f64` values with bits `a` and `b`: never
/// for a NaN, and `+0.0 == -0.0`.
pub open spec fn f64_eq(a: u64, b: u64) -> bool {
    !f64_is_nan(a) && !f64_is_nan(b) && (a == b || (a & 0x7fff_ffff_ffff_ffff == 0 && b
        & 0x7fff_ffff_ffff_ffff == 0))
}

/// Finiteness of an `f64` given by its bits.
pub fn f64_bits_finite(b: u64) -> (r: bool)
    ensures
        r == f64_is_finite(b),
{
    b & 0x7ff0_0000_0000_0000 != 0x7ff0_0000_0000_0000
}

/// IEEE-754 equality of two `f64` values given by their bits.
pub fn f64_bits_eq(a: u64, b: u64) -> (r: bool)
    ensures
        r == f64_eq(a, b),
{
    let a_nan = a & 0x7ff0_0000_0000_0000 == 0x7ff0_0000_0000_0000 && a & 0x000f_ffff_ffff_ffff != 0;
    let b_nan = b & 0x7ff0_0000_0000_0000 == 0x7ff0_0000_0000_0000 && b & 0x000f_ffff_ffff_ffff != 0;
    !a_nan && !b_nan && (a == b || (a & 0x7fff_ffff_ffff_ffff == 0 && b & 0x7fff_ffff_ffff_ffff == 0))
}

/// A 2-D coordinate: the bit patterns of its `f64` x and y.
#[derive(Clone, Copy, Debug, PartialEq, Eq, Structural)]
pub struct Coord {
    pub x: u64,
    pub y: u64,
}

/// Both ordinates are finite.
pub open spec fn coord_finite(c: Coord) -> bool {
    f64_is_finite(c.x) && f64_is_finite(c.y)
}

/// `a == b` as `f64` pairs.
pub open spec fn coord_eq(a: Coord, b: Coord) -> bool {
    f64_eq(a.x, b.x) && f64_eq(a.y, b.y)
}

impl Coord {
    /// A coordinate from the bit patterns of its ordinates.
    pub fn new(x: u64, y: u64) -> (c: Self)
        ensures
            c == (Coord { x, y }),
    {
        Coord { x, y }
    }

    pub fn is_finite(&self) -> (b: bool)
        ensures
            b == coord_finite(*self),
    {
        f64_bits_finite(self.x) && f64_bits_finite(self.y)
    }

    /// Equality of the two coordinates as `f64` pairs.
    pub fn float_eq(&self, other: &Coord) -> (b: bool)
        ensures
            b == coord_eq(*self, *other),
    {
        f64_bits_eq(self.x, other.x) && f64_bits_eq(self.y, other.y)
    }
}

/// The rings of a polygon as sequences.
pub open spec fn rings_view(rings: Seq<Vec<Coord>>) -> Seq<Seq<Coord>> {
    rings.map_values(|r: Vec<Coord>| r@)
}

/// One polygon: exterior ring first, then zero or more hole rings.
#[derive(Clone, Debug, PartialEq, Eq)]
pub struct Polygon {
    pub rings: Vec<Vec<Coord>>,
}

impl View for Polygon {
    type V = Seq<Seq<Coord>>;

    open spec fn view(&self) -> Seq<Seq<Coord>> {
        rings_view(self.rings@)
    }
}

/// The polygons of a multi-polygon as sequences.
pub open spec fn polygons_view(ps: Seq<Polygon>) -> Seq<Seq<Seq<Coord>>> {
    ps.map_values(|p: Polygon| p@)
}

impl Polygon {
    pub fn new(rings: Vec<Vec<Coord>>) -> (p: Self)
        ensures
            p.rings == rings,
    {
        Polygon { rings }
    }

    /// The exterior ring, if there is one.
    pub fn exterior(&self) -> (r: Option<&Vec<Coord>>)
        ensures
            self.rings@.len() == 0 ==> r is None,
            self.rings@.len() > 0 ==> r == Some(&self.rings@[0]),
    {
        if self.rings.len() == 0 {
            None
        } else {
            Some(&self.rings[0])
        }
    }
}

/// A geometry of one of the six supported kinds.
#[derive(Clone, Debug, PartialEq, Eq)]
pub enum Geometry {
    Point(Coord),
    MultiPoint(Vec<Coord>),
    LineString(Vec<Coord>),
    MultiLineString(Vec<Vec<Coord>>),
    Polygon(Polygon),
    MultiPolygon(Vec<Polygon>),
}

/// A geometry as nested sequences of coordinates.
pub enum GeometryView {
    Point(Coord),
    MultiPoint(Seq<Coord>),
    LineString(Seq<Coord>),
    MultiLineString(Seq<Seq<Coord>>),
    Polygon(Seq<Seq<Coord>>),
    MultiPolygon(Seq<Seq<Seq<Coord>>>),
}

impl View for Geometry {
    type V = GeometryView;

    open spec fn view(&self) -> GeometryView {
        match self {
            Geometry::Point(c) => GeometryView::Point(*c),
            Geometry::MultiPoint(p) => GeometryView::MultiPoint(p@),
            Geometry::LineString(l) => GeometryView::LineString(l@),
            Geometry::MultiLineString(l) => GeometryView::MultiLineString(rings_view(l@)),
            Geometry::Polygon(p) => GeometryView::Polygon(p@),
            Geometry::MultiPolygon(ps) => GeometryView::MultiPolygon(polygons_view(ps@)),
        }
    }
}

/// The geometry holds no coordinates at all.
pub open spec fn view_is_empty(g: GeometryView) -> bool {
    match g {
        GeometryView::Point(_) => false,
        GeometryView::MultiPoint(p) => p.len() == 0,
        GeometryView::LineString(l) => l.len() == 0,
        GeometryView::MultiLineString(l) => l.len() == 0,
        GeometryView::Polygon(p) => p.len() == 0,
        GeometryView::MultiPolygon(p) => p.len() == 0,
    }
}

/// Every coordinate of `s` is finite.
pub open spec fn all_finite(s: Seq<Coord>) -> bool {
    forall|i: int| 0 <= i < s.len() ==> coord_finite(#[trigger] s[i])
}

/// Every coordinate of every sequence of `s` is finite.
pub open spec fn all_finite2(s: Seq<Seq<Coord>>) -> bool {
    forall|i: int| 0 <= i < s.len() ==> all_finite(#[trigger] s[i])
}

/// Every coordinate of every polygon of `s` is finite.
pub open spec fn all_finite3(s: Seq<Seq<Seq<Coord>>>) -> bool {
    forall|i: int| 0 <= i < s.len() ==> all_finite2(#[trigger] s[i])
}

/// Every coordinate of the geometry is finite.
pub open spec fn view_is_finite(g: GeometryView) -> bool {
    match g {
        GeometryView::Point(c) => coord_finite(c),
        GeometryView::MultiPoint(p) => all_finite(p),
        GeometryView::LineString(l) => all_finite(l),
        GeometryView::MultiLineString(l) => all_finite2(l),
        GeometryView::Polygon(p) => all_finite2(p),
        GeometryView::MultiPolygon(p) => all_finite3(p),
    }
}

/// A ring needs closing when it has two or more coordinates and its last
/// differs from its first.
pub open spec fn needs_closing(r: Seq<Coord>) -> bool {
    r.len() >= 2 && !coord_eq(r[0], r[r.len() - 1])
}

/// The ring, closed by appending its first coordinate when needed.
pub open spec fn closed_ring(r: Seq<Coord>) -> Seq<Coord> {
    if needs_closing(r) {
        r.push(r[0])
    } else {
        r
    }
}

pub open spec fn closed_rings(p: Seq<Seq<Coord>>) -> Seq<Seq<Coord>> {
    p.map_values(|r: Seq<Coord>| closed_ring(r))
}

/// The geometry with every polygon ring closed; other kinds unchanged.
pub open spec fn view_normalized(g: GeometryView) -> GeometryView {
    match g {
        GeometryView::Polygon(p) => GeometryView::Polygon(closed_rings(p)),
        GeometryView::MultiPolygon(ps) => GeometryView::MultiPolygon(
            ps.map_values(|p: Seq<Seq<Coord>>| closed_rings(p)),
        ),
        _ => g,
    }
}

/// The point parts: one for `Point`, all for `MultiPoint`, none otherwise.
pub open spec fn view_points(g: GeometryView) -> Seq<Coord> {
    match g {
        GeometryView::Point(c) => seq![c],
        GeometryView::MultiPoint(p) => p,
        _ => Seq::empty(),
    }
}

/// The line parts.
pub open spec fn view_lines(g: GeometryView) -> Seq<Seq<Coord>> {
    match g {
        GeometryView::LineString(l) => seq![l],
        GeometryView::MultiLineString(l) => l,
        _ => Seq::empty(),
    }
}

/// The polygon parts.
pub open spec fn view_polygons(g: GeometryView) -> Seq<Seq<Seq<Coord>>> {
    match g {
        GeometryView::Polygon(p) => seq![p],
        GeometryView::MultiPolygon(p) => p,
        _ => Seq::empty(),
    }
}

/// `std::slice::from_ref`: a one-element slice over `x`.
#[verifier::external_body]
fn slice_of_one<T>(x: &T) -> (s: &[T])
    ensures
        s@ == seq![*x],
{
    std::slice::from_ref(x)
}

fn all_coords_finite(s: &Vec<Coord>) -> (b: bool)
    ensures
        b == all_finite(s@),
{
    let mut i: usize = 0;
    while i < s.len()
        invariant
            i <= s@.len(),
            forall|k: int| 0 <= k < i ==> coord_finite(#[trigger] s@[k]),
        decreases s@.len() - i,
    {
        if !s[i].is_finite() {
            return false;
        }
        i += 1;
    }
    true
}

fn all_seqs_finite(s: &Vec<Vec<Coord>>) -> (b: bool)
    ensures
        b == all_finite2(rings_view(s@)),
{
    let mut i: usize = 0;
    while i < s.len()
        invariant
            i <= s@.len(),
            forall|k: int| 0 <= k < i ==> all_finite(#[trigger] rings_view(s@)[k]),
        decreases s@.len() - i,
    {
        if !all_coords_finite(&s[i]) {
            assert(rings_view(s@)[i as int] == s@[i as int]@);
            return false;
        }
        i += 1;
    }
    true
}

fn all_polygons_finite(ps: &Vec<Polygon>) -> (b: bool)
    ensures
        b == all_finite3(polygons_view(ps@)),
{
    let mut i: usize = 0;
    while i < ps.len()
        invariant
            i <= ps@.len(),
            forall|k: int| 0 <= k < i ==> all_finite2(#[trigger] polygons_view(ps@)[k]),
        decreases ps@.len() - i,
    {
        if !all_seqs_finite(&ps[i].rings) {
            assert(polygons_view(ps@)[i as int] == ps@[i as int]@);
            return false;
        }
        i += 1;
    }
    true
}

/// The ring has two or more coordinates and its last differs from its
/// first (as `f64` values).
pub fn ring_needs_closing(ring: &[Coord]) -> (b: bool)
    ensures
        b == needs_closing(ring@),
{
    ring.len() >= 2 && !ring[0].float_eq(&ring[ring.len() - 1])
}

/// Close every ring that needs it by appending its first coordinate.
pub fn close_rings(rings: &mut Vec<Vec<Coord>>)
    ensures
        rings_view(final(rings)@) == closed_rings(rings_view(old(rings)@)),
{
    let ghost orig = rings_view(rings@);
    let mut i: usize = 0;
    while i < rings.len()
        invariant
            rings@.len() == orig.len(),
            i <= orig.len(),
            forall|k: int| 0 <= k < i ==> #[trigger] rings@[k]@ == closed_ring(orig[k]),
            forall|k: int| i <= k < orig.len() ==> #[trigger] rings@[k]@ == orig[k],
        decreases orig.len() - i,
    {
        assert(rings@[i as int]@ == orig[i as int]);
        if ring_needs_closing(rings[i].as_slice()) {
            let first = rings[i][0];
            rings[i].push(first);
        }
        i += 1;
    }
    assert(rings_view(rings@) =~= closed_rings(orig));
}

/// The geometry with every unclosed polygon ring closed by appending its
/// first coordinate.
pub fn normalize(g: Geometry) -> (r: Geometry)
    ensures
        r@ == view_normalized(g@),
{
    match g {
        Geometry::Polygon(mut p) => {
            close_rings(&mut p.rings);
            Geometry::Polygon(p)
        },
        Geometry::MultiPolygon(mut ps) => {
            let ghost orig = polygons_view(ps@);
            let mut i: usize = 0;
            while i < ps.len()
                invariant
                    ps@.len() == orig.len(),
                    i <= orig.len(),
                    forall|k: int| 0 <= k < i ==> #[trigger] ps@[k]@ == closed_rings(orig[k]),
                    forall|k: int| i <= k < orig.len() ==> #[trigger] ps@[k]@ == orig[k],
                decreases orig.len() - i,
            {
                assert(ps@[i as int]@ == orig[i as int]);
                close_rings(&mut ps[i].rings);
                i += 1;
            }
            let r = Geometry::MultiPolygon(ps);
            assert(polygons_view(ps@) =~= orig.map_values(|p: Seq<Seq<Coord>>| closed_rings(p)));
            r
        },
        other => other,
    }
}

/// A coordinate neither of whose ordinates is a NaN.
pub open spec fn coord_not_nan(c: Coord) -> bool {
    !f64_is_nan(c.x) && !f64_is_nan(c.y)
}

/// Closing a ring whose first coordinate is not NaN leaves a ring that
/// needs no closing, keeps the given coordinates as a prefix, and adds
/// at most the first coordinate; closing it again changes nothing.
pub proof fn law_closed_ring(r: Seq<Coord>)
    requires
        r.len() > 0 ==> coord_not_nan(r[0]),
    ensures
        !needs_closing(closed_ring(r)),
        closed_ring(r).take(r.len() as int) == r,
        closed_ring(r).len() == r.len() || closed_ring(r) == r.push(r[0]),
        closed_ring(closed_ring(r)) == closed_ring(r),
{
    assert(closed_ring(r).take(r.len() as int) =~= r);
}

/// Every polygon ring of a normalized geometry whose coordinates are all
/// finite needs no closing, and normalizing again changes nothing.
pub proof fn law_normalized_rings_closed(g: GeometryView)
    requires
        view_is_finite(g),
    ensures
        forall|i: int, j: int|
            0 <= i < view_polygons(view_normalized(g)).len() && 0 <= j < view_polygons(view_normalized(g))[i].len()
                ==> !needs_closing(#[trigger] view_polygons(view_normalized(g))[i][j]),
        view_normalized(view_normalized(g)) == view_normalized(g),
{
    match g {
        GeometryView::Polygon(p) => {
            let q = closed_rings(p);
            assert forall|j: int| 0 <= j < q.len() implies !needs_closing(#[trigger] q[j])
                && closed_ring(q[j]) == q[j] by {
                assert(all_finite(p[j]));
                if p[j].len() > 0 {
                    assert(coord_finite(p[j][0]));
                }
                law_closed_ring(p[j]);
            }
            assert(view_polygons(view_normalized(g)) =~= seq![q]);
            assert(closed_rings(q) =~= q);
        },
        GeometryView::MultiPolygon(ps) => {
            let qs = ps.map_values(|p: Seq<Seq<Coord>>| closed_rings(p));
            assert forall|i: int, j: int| 0 <= i < qs.len() && 0 <= j < qs[i].len() implies !needs_closing(
                #[trigger] qs[i][j],
            ) && closed_ring(qs[i][j]) == qs[i][j] by {
                assert(all_finite2(ps[i]));
                assert(all_finite(ps[i][j]));
                if ps[i][j].len() > 0 {
                    assert(coord_finite(ps[i][j][0]));
                }
                law_closed_ring(ps[i][j]);
            }
            assert forall|i: int| 0 <= i < qs.len() implies closed_rings(#[trigger] qs[i]) == qs[i] by {
                assert(closed_rings(qs[i]) =~= qs[i]);
            }
            assert(qs.map_values(|p: Seq<Seq<Coord>>| closed_rings(p)) =~= qs);
        },
        _ => {},
    }
}

/// Every coordinate of the geometry: points, then lines, then polygon
/// rings, each in order.
pub open spec fn view_coords(g: GeometryView) -> Seq<Coord> {
    view_points(g) + view_lines(g).flatten_alt() + view_polygons(g).map_values(
        |p: Seq<Seq<Coord>>| p.flatten_alt(),
    ).flatten_alt()
}

fn append_coords(out: &mut Vec<Coord>, s: &[Coord])
    ensures
        final(out)@ == old(out)@ + s@,
{
    let ghost start = out@;
    let mut i: usize = 0;
    while i < s.len()
        invariant
            i <= s@.len(),
            out@ == start + s@.take(i as int),
        decreases s@.len() - i,
    {
        out.push(s[i]);
        assert(out@ =~= start + s@.take(i + 1));
        i += 1;
    }
    assert(s@.take(i as int) =~= s@);
}

/// The coordinates of the sequences of `s`, in order.
fn append_all(out: &mut Vec<Coord>, s: &[Vec<Coord>])
    ensures
        final(out)@ == old(out)@ + rings_view(s@).flatten_alt(),
{
    let ghost start = out@;
    let mut i: usize = 0;
    while i < s.len()
        invariant
            i <= s@.len(),
            out@ == start + rings_view(s@.take(i as int)).flatten_alt(),
        decreases s@.len() - i,
    {
        let ghost before = out@;
        append_coords(out, s[i].as_slice());
        proof {
            let r = rings_view(s@.take(i + 1));
            assert(r.drop_last() =~= rings_view(s@.take(i as int)));
            assert(r.last() == s@[i as int]@);
            assert(out@ =~= start + r.flatten_alt());
        }
        i += 1;
    }
    assert(s@.take(i as int) =~= s@);
}

impl Geometry {
    /// Every coordinate of the geometry: points, then lines, then polygon
    /// rings, each in order.
    pub fn coords(&self) -> (v: Vec<Coord>)
        ensures
            v@ == view_coords(self@),
    {
        let mut out: Vec<Coord> = Vec::new();
        append_coords(&mut out, self.points());
        append_all(&mut out, self.lines());
        let polys = self.polygons();
        let ghost mid = out@;
        let ghost pv = polygons_view(polys@).map_values(|p: Seq<Seq<Coord>>| p.flatten_alt());
        let mut i: usize = 0;
        while i < polys.len()
            invariant
                i <= polys@.len(),
                pv == polygons_view(polys@).map_values(|p: Seq<Seq<Coord>>| p.flatten_alt()),
                out@ == mid + pv.take(i as int).flatten_alt(),
            decreases polys@.len() - i,
        {
            append_all(&mut out, polys[i].rings.as_slice());
            proof {
                let r = pv.take(i + 1);
                assert(r.drop_last() =~= pv.take(i as int));
                assert(r.last() == rings_view(polys@[i as int].rings@).flatten_alt());
                assert(out@ =~= mid + r.flatten_alt());
            }
            i += 1;
        }
        proof {
            assert(pv.take(i as int) =~= pv);
            assert(view_points(self@) + view_lines(self@).flatten_alt() == mid);
        }
        out
    }

    /// True when the geometry holds no coordinates at all.
    pub fn is_empty(&self) -> (b: bool)
        ensures
            b == view_is_empty(self@),
    {
        match self {
            Geometry::Point(_) => false,
            Geometry::MultiPoint(p) => p.len() == 0,
            Geometry::LineString(l) => l.len() == 0,
            Geometry::MultiLineString(l) => l.len() == 0,
            Geometry::Polygon(p) => p.rings.len() == 0,
            Geometry::MultiPolygon(p) => p.len() == 0,
        }
    }

    /// The point parts (one for `Point`, all for `MultiPoint`, none otherwise).
    pub fn points(&self) -> (s: &[Coord])
        ensures
            s@ == view_points(self@),
    {
        match self {
            Geometry::Point(c) => slice_of_one(c),
            Geometry::MultiPoint(p) => p.as_slice(),
            _ => &[],
        }
    }

    /// The line parts.
    pub fn lines(&self) -> (s: &[Vec<Coord>])
        ensures
            rings_view(s@) == view_lines(self@),
    {
        match self {
            Geometry::LineString(l) => {
                let s = slice_of_one(l);
                assert(rings_view(s@) =~= seq![l@]);
                s
            },
            Geometry::MultiLineString(l) => l.as_slice(),
            _ => {
                let s: &[Vec<Coord>] = &[];
                assert(rings_view(s@) =~= Seq::empty());
                s
            },
        }
    }

    /// The polygon parts.
    pub fn polygons(&self) -> (s: &[Polygon])
        ensures
            polygons_view(s@) == view_polygons(self@),
    {
        match self {
            Geometry::Polygon(p) => {
                let s = slice_of_one(p);
                assert(polygons_view(s@) =~= seq![p@]);
                s
            },
            Geometry::MultiPolygon(p) => p.as_slice(),
            _ => {
                let s: &[Polygon] = &[];
                assert(polygons_view(s@) =~= Seq::empty());
                s
            },
        }
    }

    /// True when every coordinate is finite.
    pub fn is_finite(&self) -> (b: bool)
        ensures
            b == view_is_finite(self@),
    {
        match self {
            Geometry::Point(c) => c.is_finite(),
            Geometry::MultiPoint(p) => all_coords_finite(p),
            Geometry::LineString(l) => all_coords_finite(l),
            Geometry::MultiLineString(l) => all_seqs_finite(l),
            Geometry::Polygon(p) => all_seqs_finite(&p.rings),
            Geometry::MultiPolygon(p) => all_polygons_finite(p),
        }
    }
}

/// A geometry is empty only when it has nothing to burn: a point never
/// is; a multi-point, multi-linestring or multi-polygon is empty exactly
/// when it has no parts; a linestring exactly when it has no coordinates;
/// a polygon exactly when it has no rings. So every multi-geometry with at
/// least one part is burned (when its coordinates are finite).
pub proof fn law_empty_means_no_parts(g: GeometryView)
    ensures
        g is Point ==> !view_is_empty(g),
        g is MultiPoint || g is MultiLineString || g is MultiPolygon ==> (view_is_empty(g) <==> view_points(g).len()
            + view_lines(g).len() + view_polygons(g).len() == 0),
        g is LineString ==> (view_is_empty(g) <==> view_lines(g)[0].len() == 0),
        g is Polygon ==> (view_is_empty(g) <==> view_polygons(g)[0].len() == 0),
{
}

} // verus!
