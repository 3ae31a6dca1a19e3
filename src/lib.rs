//! Record processing for loosely structured JSON documents: dotted-path
//! lookup, extraction of duplicates by a key path, ordering by a key path,
//! selection of listed documents by a glob on their file names, and merging
//! of parsed documents into one record list.

pub mod dedup;
pub mod json;
pub mod merge;
pub mod path;
pub mod sort;
pub mod source;
