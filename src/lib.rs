//! Joins read-name keyed barcode annotations onto a tab-separated record stream.

pub mod error;
pub mod interner;
pub mod readname;
pub mod text;
pub mod join;
