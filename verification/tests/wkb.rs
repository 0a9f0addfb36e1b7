use controlledburn::{parse_wkb, Coord, Geometry, Polygon, WkbError};

fn hex(s: &str) -> Vec<u8> {
    (0..s.len()).step_by(2).map(|i| u8::from_str_radix(&s[i..i + 2], 16).unwrap()).collect()
}

fn c(x: f64, y: f64) -> Coord {
    Coord::new(x.to_bits(), y.to_bits())
}

const EWKB_Z: u32 = 0x8000_0000;
const EWKB_M: u32 = 0x4000_0000;
const EWKB_SRID: u32 = 0x2000_0000;

#[test]
fn polygon_le() {
    // POLYGON ((2 4, 6 4, 6 8, 2 8, 2 4))
    let b = hex("010300000001000000050000000000000000000040000000000000104000000000000018400000000000001040000000000000184000000000000020400000000000000040000000000000204000000000000000400000000000001040");
    let g = parse_wkb(&b).unwrap();
    match g {
        Geometry::Polygon(p) => {
            assert_eq!(p.rings.len(), 1);
            assert_eq!(p.rings[0][1], c(6., 4.));
        }
        _ => panic!(),
    }
}

#[test]
fn point_be_and_ewkb_zm_srid() {
    // XDR POINT (1 2)
    let b = hex("00000000013ff00000000000004000000000000000");
    assert_eq!(parse_wkb(&b).unwrap(), Geometry::Point(c(1., 2.)));
    // EWKB POINT ZM with SRID (little endian): type = 1 | Z | M | SRID
    let mut v = vec![1u8];
    v.extend_from_slice(&(1u32 | EWKB_Z | EWKB_M | EWKB_SRID).to_le_bytes());
    v.extend_from_slice(&4326u32.to_le_bytes());
    for f in [3.0f64, 4.0, 5.0, 6.0] {
        v.extend_from_slice(&f.to_le_bytes());
    }
    assert_eq!(parse_wkb(&v).unwrap(), Geometry::Point(c(3., 4.)));
    // ISO POINT Z (1001)
    let mut v = vec![1u8];
    v.extend_from_slice(&1001u32.to_le_bytes());
    for f in [3.0f64, 4.0, 5.0] {
        v.extend_from_slice(&f.to_le_bytes());
    }
    assert_eq!(parse_wkb(&v).unwrap(), Geometry::Point(c(3., 4.)));
}

#[test]
fn errors() {
    assert_eq!(parse_wkb(&[1, 1, 0]).unwrap_err(), WkbError::TooShort);
    assert_eq!(parse_wkb(&[2, 1, 0, 0, 0, 0]).unwrap_err(), WkbError::BadByteOrder(2));
    assert_eq!(parse_wkb(&[1, 7, 0, 0, 0, 0]).unwrap_err(), WkbError::GeometryCollection);
    assert_eq!(parse_wkb(&[1, 8, 0, 0, 0, 0]).unwrap_err(), WkbError::Unsupported { type_code: 8 });
    assert!(matches!(parse_wkb(&[1, 1, 0, 0, 0, 0, 0]).unwrap_err(), WkbError::Truncated { .. }));
    // MultiPoint with a LineString part
    let mut v = vec![1u8];
    v.extend_from_slice(&4u32.to_le_bytes());
    v.extend_from_slice(&1u32.to_le_bytes());
    v.push(1);
    v.extend_from_slice(&2u32.to_le_bytes());
    assert_eq!(parse_wkb(&v).unwrap_err(), WkbError::MismatchedPart { found: 2 });
}

fn le_header(v: &mut Vec<u8>, t: u32) {
    v.push(1);
    v.extend_from_slice(&t.to_le_bytes());
}

fn be_header(v: &mut Vec<u8>, t: u32) {
    v.push(0);
    v.extend_from_slice(&t.to_be_bytes());
}

#[test]
fn truncation_position_is_reported() {
    // A point whose y is cut short: the read of y starts at byte 13.
    let mut v = Vec::new();
    le_header(&mut v, 1);
    v.extend_from_slice(&1.0f64.to_le_bytes());
    v.extend_from_slice(&[0, 0, 0]);
    assert_eq!(parse_wkb(&v).unwrap_err(), WkbError::Truncated { at: 13 });
    // A linestring announcing two points but holding one.
    let mut v = Vec::new();
    le_header(&mut v, 2);
    v.extend_from_slice(&2u32.to_le_bytes());
    for f in [1.0f64, 2.0] {
        v.extend_from_slice(&f.to_le_bytes());
    }
    assert_eq!(parse_wkb(&v).unwrap_err(), WkbError::Truncated { at: 25 });
}

#[test]
fn multi_geometries_with_mixed_byte_order() {
    // MULTIPOINT ((1 2), (3 4)), the second part big-endian.
    let mut v = Vec::new();
    le_header(&mut v, 4);
    v.extend_from_slice(&2u32.to_le_bytes());
    le_header(&mut v, 1);
    for f in [1.0f64, 2.0] {
        v.extend_from_slice(&f.to_le_bytes());
    }
    be_header(&mut v, 1);
    for f in [3.0f64, 4.0] {
        v.extend_from_slice(&f.to_be_bytes());
    }
    assert_eq!(parse_wkb(&v).unwrap(), Geometry::MultiPoint(vec![c(1., 2.), c(3., 4.)]));

    // MULTILINESTRING Z ((0 0 9, 1 1 9))
    let mut v = Vec::new();
    le_header(&mut v, 5);
    v.extend_from_slice(&1u32.to_le_bytes());
    le_header(&mut v, 1002);
    v.extend_from_slice(&2u32.to_le_bytes());
    for f in [0.0f64, 0.0, 9.0, 1.0, 1.0, 9.0] {
        v.extend_from_slice(&f.to_le_bytes());
    }
    assert_eq!(parse_wkb(&v).unwrap(), Geometry::MultiLineString(vec![vec![c(0., 0.), c(1., 1.)]]));

    // MULTIPOLYGON (((0 0, 1 0, 0 1, 0 0)), EMPTY)
    let mut v = Vec::new();
    le_header(&mut v, 6);
    v.extend_from_slice(&2u32.to_le_bytes());
    le_header(&mut v, 3);
    v.extend_from_slice(&1u32.to_le_bytes());
    v.extend_from_slice(&4u32.to_le_bytes());
    for f in [0.0f64, 0.0, 1.0, 0.0, 0.0, 1.0, 0.0, 0.0] {
        v.extend_from_slice(&f.to_le_bytes());
    }
    le_header(&mut v, 3);
    v.extend_from_slice(&0u32.to_le_bytes());
    let ring = vec![c(0., 0.), c(1., 0.), c(0., 1.), c(0., 0.)];
    assert_eq!(
        parse_wkb(&v).unwrap(),
        Geometry::MultiPolygon(vec![Polygon::new(vec![ring]), Polygon::new(vec![])])
    );
}

#[test]
fn trailing_bytes_are_ignored_and_collection_codes() {
    let mut v = Vec::new();
    le_header(&mut v, 1);
    for f in [5.0f64, 6.0] {
        v.extend_from_slice(&f.to_le_bytes());
    }
    v.extend_from_slice(&[0xde, 0xad]);
    assert_eq!(parse_wkb(&v).unwrap(), Geometry::Point(c(5., 6.)));
    // ISO GeometryCollection Z is still a collection.
    let mut v = Vec::new();
    le_header(&mut v, 1007);
    assert_eq!(parse_wkb(&v).unwrap_err(), WkbError::GeometryCollection);
    let mut v = Vec::new();
    be_header(&mut v, 9);
    assert_eq!(parse_wkb(&v).unwrap_err(), WkbError::Unsupported { type_code: 9 });
}

#[test]
fn error_messages() {
    assert_eq!(WkbError::Truncated { at: 20 }.message(), "WKB truncated at byte 20");
    assert_eq!(WkbError::TooShort.message(), "WKB too short");
    assert_eq!(WkbError::BadByteOrder(7).message(), "WKB invalid byte order flag");
    assert_eq!(
        WkbError::MismatchedPart { found: 2 }.message(),
        "WKB multi-geometry contains mismatched part type 2"
    );
    assert_eq!(
        WkbError::Unsupported { type_code: 17 }.message(),
        "WKB unsupported geometry type 17 (curved types must be linearised upstream)"
    );
    assert!(WkbError::GeometryCollection.message().contains("GeometryCollection"));
}
