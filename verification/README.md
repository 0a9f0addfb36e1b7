# controlledburn

Sparse scanline rasterization of polygons, lines and points onto a regular
grid, with exact coverage fractions for polygon boundary cells.

The output is four tables: `runs` (fully covered cells
`col_start..col_end` on a row), `edges` (boundary cells with a coverage
fraction in (0, 1)), `lines` (line length per cell) and `points` (one record
per point inside the grid), plus `notes` for geometries that were skipped.
Indices are 0-based with row 0 at the top; geometry `k` of the input
(counting from 0) has id `k + 1` in the tables and in notes, and a dense
burn with burn values takes the value of id `k + 1` from `values[k]`.

## Layout

- `src/` is the verified library (Verus). It holds everything that is
  integer or byte logic, each function with a contract:
  - `wkb`: the WKB reader (ISO and EWKB, both byte orders, Z/M and SRID
    skipped), specified by a functional parser over the byte sequence;
    a law shows that trailing bytes are never read.
  - `encoding`: a WKB encoder for all six kinds (either byte order, ISO or
    EWKB codes, optional SRID, any Z/M bytes) and the law that the reader
    returns the encoded geometry.
  - `coalesce`: run coalescing and its stable sort, with laws: the output
    is sorted, no two neighbouring runs can still be merged, coalescing is
    idempotent, and the covered cells are exactly those of the input.
  - `sweep`: the integer half of the two row sweeps: the cell-centre rule
    (Approx mode) over a row's ordered crossings, and the coverage sweep
    over a row's boundary cells, with laws that runs stay in the grid, do
    not overlap, and that no edge cell lies inside a run.
  - `lines`: the stable row-major order of the line table.
  - `crop`: filtering and rebasing the tables to a window of cells, in the
    tables' own 0-based half-open convention, with the law that cropping
    and then materializing writes the same cells as materializing the
    full grid and cutting the window out.
  - `materialize`: the pixel-write plan of a dense burn (which pixels, in
    which order, and when it fails).
  - `geometry`, `grid`, `burn`: the geometry model (coordinates as `f64`
    bit patterns), ring closing, finiteness, grid validation, and the
    per-input decisions of a burn with their notes.
  - `output`, `options`, `error`, `walker`, `text`: the tables, burn
    options, errors and their messages, cell traversals and the walk's
    step between cells, decimal text.
- `app/` is the `f64` engine that the library cannot hold: cell walking,
  coverage fractions, row crossings and cell classification, line lengths and point
  binning, the `burn` and `burn_wkb` entry points, snapping a crop extent,
  combining pixel values, `geo-types` conversions and `serde` forms of the
  public types. It calls the library for every decision the library states.
- `tests/` exercise the library.
