//! Hexagonal hierarchical indexing of the globe: points and polygons to cells,
//! and cell sets to their compact form and back.
//!
//! A cell is a 64-bit index, described in [`index`]. The grid itself is `h3o`: it
//! decides which integers are cells and walks the hierarchy ([`grid`]) and finds the
//! cell of a point ([`locate`]). What is proved here is proved over the layout of the
//! index.
pub mod compaction;
pub mod cover;
pub mod dedup;
pub mod error;
pub mod grid;
pub mod index;
pub mod laws;
pub mod locate;
pub mod seqs;

pub use compaction::{compact, uncompact};
pub use cover::{cover_request, multipolygon_to_cells, polygon_to_cells};
pub use error::Error;
pub use locate::point_to_cell;
