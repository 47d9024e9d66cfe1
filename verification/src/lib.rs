//! An inverted index over note headers, and the pages rendered from it.
//!
//! Notes carry a small header (title, creation stamp, tags). Two indexes are
//! built from those headers, one keyed by tag and one keyed by date, and are
//! rendered into one page per key plus a master index whose summary lines are
//! laid out in aligned columns.

pub mod catalog;
pub mod columns;
pub mod header;
pub mod index;
pub mod number;
pub mod order;
pub mod render;
pub mod text;
