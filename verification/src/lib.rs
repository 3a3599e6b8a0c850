//! Camera-trap media organizer: scans a directory tree for media files,
//! builds a taxonomic destination index from CSV records, and plans the
//! move of every discovered file into a taxonomy-based folder layout.

pub mod finder;
pub mod organizer;
pub mod paths;
pub mod records;
pub mod summary;
pub mod text;
