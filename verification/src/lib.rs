//! Record-aware sorting of line-delimited structure files.
//!
//! A file is a run of records, each closed by a line holding exactly `$$$$`.
//! The modules scan such records, read tagged fields out of them, index the
//! records by group and sort key, and lay out the order in which they are
//! written back.

pub mod arrange;
pub mod builder;
pub mod engine;
pub mod entry;
pub mod field;
pub mod index;
pub mod inject;
pub mod numeric;
pub mod run;
pub mod scanner;
pub mod text;
pub mod writer;
