use controlledburn::{
    admit_blob, admit_geometry, normalize, note_engine_error, ring_needs_closing, BurnResult, Coord, Geometry,
    GeometryCollectionError, Polygon, Side, Traversal,
};

fn c(x: f64, y: f64) -> Coord {
    Coord::new(x.to_bits(), y.to_bits())
}

fn square() -> Vec<Coord> {
    vec![c(2., 2.), c(6., 2.), c(6., 6.), c(2., 6.), c(2., 2.)]
}

#[test]
fn emptiness_and_parts() {
    assert!(Geometry::MultiPolygon(vec![]).is_empty());
    assert!(Geometry::LineString(vec![]).is_empty());
    assert!(Geometry::Polygon(Polygon::new(vec![])).is_empty());
    assert!(!Geometry::Point(c(1., 1.)).is_empty());
    let p = Geometry::Point(c(1., 2.));
    assert_eq!(p.points(), &[c(1., 2.)]);
    assert!(p.lines().is_empty() && p.polygons().is_empty());
    let l = Geometry::LineString(vec![c(0., 0.), c(1., 1.)]);
    assert_eq!(l.lines().len(), 1);
    let mp = Geometry::MultiPolygon(vec![Polygon::new(vec![square()]), Polygon::new(vec![])]);
    assert_eq!(mp.polygons().len(), 2);
    assert_eq!(mp.polygons()[0].exterior(), Some(&square()));
    assert_eq!(mp.polygons()[1].exterior(), None);
}

#[test]
fn finiteness() {
    assert!(Geometry::Point(c(1., 2.)).is_finite());
    assert!(!Geometry::Point(c(f64::NAN, 2.)).is_finite());
    assert!(!Geometry::MultiPoint(vec![c(0., 0.), c(1., f64::INFINITY)]).is_finite());
    let poly = Polygon::new(vec![vec![c(2., 2.), c(f64::NEG_INFINITY, 2.), c(5., 5.), c(2., 2.)]]);
    assert!(!Geometry::MultiPolygon(vec![poly]).is_finite());
    assert!(Geometry::MultiLineString(vec![square(), vec![]]).is_finite());
    assert!(c(1e308, -1e308).is_finite());
}

#[test]
fn ring_closing() {
    let open = vec![c(2., 2.), c(6., 2.), c(6., 6.), c(2., 6.)];
    assert!(ring_needs_closing(&open));
    assert!(!ring_needs_closing(&square()));
    assert!(!ring_needs_closing(&[c(1., 1.)]));
    // +0.0 and -0.0 are equal coordinates.
    assert!(!ring_needs_closing(&[c(0.0, 1.), c(3., 3.), c(-0.0, 1.)]));
    // A NaN never equals itself.
    assert!(ring_needs_closing(&[c(f64::NAN, 1.), c(f64::NAN, 1.)]));
    let g = normalize(Geometry::Polygon(Polygon::new(vec![open.clone(), square()])));
    assert_eq!(g, Geometry::Polygon(Polygon::new(vec![square(), square()])));
    let g = normalize(Geometry::MultiPolygon(vec![Polygon::new(vec![open.clone()])]));
    assert_eq!(g, Geometry::MultiPolygon(vec![Polygon::new(vec![square()])]));
    let l = Geometry::LineString(open.clone());
    assert_eq!(normalize(l.clone()), l);
}

#[test]
fn admission() {
    let mut out = BurnResult::new();
    assert_eq!(admit_geometry(Geometry::MultiPolygon(vec![]), 0, &mut out), None);
    assert!(out.notes.is_empty());
    let bad = Geometry::Point(c(f64::NAN, 1.));
    assert_eq!(admit_geometry(bad, 1, &mut out), None);
    assert_eq!(out.notes.len(), 1);
    assert_eq!(out.notes[0].geom_index, 2);
    assert_eq!(out.notes[0].message, "skipped geometry with non-finite coordinates");
    let open = Geometry::Polygon(Polygon::new(vec![vec![c(2., 2.), c(6., 2.), c(6., 6.), c(2., 6.)]]));
    assert_eq!(admit_geometry(open, 2, &mut out), Some(Geometry::Polygon(Polygon::new(vec![square()]))));
    assert_eq!(out.notes.len(), 1);
    note_engine_error(&mut out, 4, "Never get here.");
    assert_eq!(out.notes[1].geom_index, 5);
    assert_eq!(out.notes[1].message, "error processing geometry: Never get here.");
}

#[test]
fn blob_admission() {
    let good: Vec<u8> = {
        let mut v = vec![1u8];
        v.extend_from_slice(&1u32.to_le_bytes());
        for f in [0.5f64, 9.5] {
            v.extend_from_slice(&f.to_le_bytes());
        }
        v
    };
    let bad = &good[..12];
    let coll = [1u8, 7, 0, 0, 0, 0, 0, 0, 0];
    let mut out = BurnResult::new();
    assert_eq!(admit_blob(&good, 0, &mut out), Some(Geometry::Point(c(0.5, 9.5))));
    assert_eq!(admit_blob(bad, 1, &mut out), None);
    assert_eq!(admit_blob(&coll, 2, &mut out), None);
    assert_eq!(admit_blob(&[], 3, &mut out), None);
    assert_eq!(out.notes.len(), 2);
    assert_eq!(out.notes[0].geom_index, 2);
    assert!(out.notes[0].message.starts_with("failed to parse WKB: WKB truncated at byte"));
    assert_eq!(out.notes[0].message, "failed to parse WKB: WKB truncated at byte 5");
    assert_eq!(out.notes[1].geom_index, 3);
    assert!(out.notes[1].message.contains("GeometryCollection"));
    assert!(GeometryCollectionError.message().contains("homogeneous"));
}

#[test]
fn traversals() {
    let arena = vec![c(0., 0.), c(0.5, 0.), c(0.5, 0.5), c(0., 0.), c(1., 1.), c(1., 1.)];
    let t = Traversal { start: 0, len: 4, entry: None, exit: None };
    assert_eq!(t.coords(&arena).len(), 4);
    assert!(t.is_closed_ring(&arena));
    assert!(!t.traversed());
    assert!(t.multiple_unique_coordinates(&arena));
    let u = Traversal { start: 4, len: 2, entry: Some(Side::Left), exit: Some(Side::Top) };
    assert!(u.traversed());
    assert!(!u.is_closed_ring(&arena));
    assert!(!u.multiple_unique_coordinates(&arena));
}

#[test]
fn coords_in_order() {
    let g = Geometry::MultiPolygon(vec![
        Polygon::new(vec![vec![c(0., 0.), c(1., 0.)], vec![c(2., 2.)]]),
        Polygon::new(vec![vec![c(5., 5.)]]),
    ]);
    assert_eq!(g.coords(), vec![c(0., 0.), c(1., 0.), c(2., 2.), c(5., 5.)]);
    assert_eq!(Geometry::Point(c(3., 4.)).coords(), vec![c(3., 4.)]);
    let l = Geometry::MultiLineString(vec![vec![c(1., 1.)], vec![], vec![c(2., 2.), c(3., 3.)]]);
    assert_eq!(l.coords(), vec![c(1., 1.), c(2., 2.), c(3., 3.)]);
}
