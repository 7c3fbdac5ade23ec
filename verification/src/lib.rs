//! A compact, disk-resident spatial lookup structure.
//!
//! The library ingests sets of hierarchical geodesic cells — either
//! precomputed binary cell streams or rasterized polygon features —
//! normalizes each set, assembles a single cell-to-label mapping, and
//! serializes it together with a label-to-value table into one artifact
//! whose tail holds an 8-byte pointer to that table.  Point queries
//! against the artifact resolve a cell to the value of the source that
//! claimed it, or report that no source did.

pub mod artifact;
pub mod bytes;
pub mod cells;
pub mod err;
pub mod generate;
pub mod laws;
pub mod lut;
pub mod source;
pub mod tree;
pub mod world;
