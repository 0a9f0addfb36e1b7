use controlledburn::{BurnError, GridSpec};

fn g(xmin: f64, ymin: f64, xmax: f64, ymax: f64, ncol: u32, nrow: u32) -> GridSpec {
    GridSpec::new(xmin.to_bits(), ymin.to_bits(), xmax.to_bits(), ymax.to_bits(), ncol, nrow)
}

#[test]
fn spec_validation() {
    assert!(g(0., 0., 10., 10., 10, 10).validate().is_ok());
    assert!(g(0., 0., 10., 10., 0, 10).validate().is_err());
    assert!(g(0., 0., 0., 10., 1, 10).validate().is_err());
    assert!(g(f64::NAN, 0., 10., 10., 1, 1).validate().is_err());
}

#[test]
fn validation_messages() {
    let msg = |s: GridSpec| match s.validate() {
        Err(BurnError::InvalidGrid(m)) => m,
        other => panic!("{other:?}"),
    };
    assert_eq!(msg(g(0., 0., 10., 10., 10, 0)), "ncol and nrow must be positive");
    assert_eq!(msg(g(0., 0., 10., 10., 1 << 31, 1)), "ncol and nrow must fit in i32");
    assert_eq!(msg(g(0., 0., f64::INFINITY, 10., 1, 1)), "extent must be finite");
    assert_eq!(msg(g(0., 5., 10., -5., 1, 1)), "invalid extent: xmax must be > xmin, ymax must be > ymin");
    assert_eq!(
        BurnError::InvalidGrid("x".to_string()).message(),
        "invalid grid: x"
    );
}

#[test]
fn negative_and_signed_zero_extents() {
    assert!(g(-10., -20., -5., -1., 3, 4).validate().is_ok());
    // -0.0 and 0.0 are the same value: an empty extent.
    assert!(g(-0.0, 0., 0.0, 1., 1, 1).validate().is_err());
    assert!(g(-1e300, -1e-300, 1e-300, 1e300, 1, 1).validate().is_ok());
    assert!(g(1.5, 0., 1.25, 1., 1, 1).validate().is_err());
    assert!(g(0., 0., 1., 1., i32::MAX as u32, i32::MAX as u32).validate().is_ok());
}
