//! A container format for geographic features with an embedded packed
//! bounding-box index.
//!
//! A file is a header, an optional index block and the records of the
//! features. `wire` holds the primitives of the layout, `geometry`, `schema`,
//! `header`, `feature` and `index` the codecs of its parts, `file` what a
//! whole file is and what reading makes of it. `writer` and `reader` write
//! and read files held in memory, and `reindex` copies a file into one that
//! has an index.
//!
//! Coordinates and float attributes are held as IEEE-754 binary64 bit
//! patterns in `u64` and are carried through as stored. Where boxes are
//! compared, the patterns are ranked by `bbox::order_key`. Texts are held as
//! the bytes of their UTF-8 form and are carried through as stored too.

pub mod error;
pub mod wire;
pub mod bbox;
pub mod geometry;
pub mod schema;
pub mod index;
pub mod header;
pub mod feature;
pub mod file;
pub mod writer;
pub mod reader;
pub mod reindex;
