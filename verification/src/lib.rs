//! Sparse scanline rasterization of polygons, lines and points onto a
//! regular grid: the output tables and their run coalescing, ordering and
//! cropping, the row sweeps that turn boundary information into runs and
//! edge cells, the geometry model and its WKB reader, grid validation and
//! the per-input decisions of a burn.
//!
//! Indices are 0-based with row 0 at the top and run ranges half-open.
//! `f64` coordinates and grid bounds, and the `f32` measures of the edge
//! and line tables, are carried as their IEEE-754 bit patterns.

pub mod burn;
pub mod coalesce;
pub mod crop;
pub mod encoding;
pub mod error;
pub mod geometry;
pub mod grid;
pub mod lines;
pub mod materialize;
pub mod options;
pub mod sweep;
pub mod output;
pub mod text;
pub mod walker;
pub mod wkb;

pub use burn::{admit_blob, admit_geometry, note_engine_error};
pub use coalesce::{coalesce_from, coalesce_runs, coalesce_sorted};
pub use crop::{crop_tables, CropWindow};
pub use error::{BurnError, GeometryCollectionError, WkbError};
pub use geometry::{normalize, ring_needs_closing, Coord, Geometry, Polygon};
pub use grid::GridSpec;
pub use materialize::{materialize_plan, EdgePolicy, MaterializeOptions, PixelFn, PixelWrite};
pub use options::{BurnMode, BurnOptions};
pub use output::{BurnResult, GridEdge, GridLine, GridPoint, GridRun, Note};
pub use walker::{Side, Traversal};
pub use wkb::parse_wkb;
