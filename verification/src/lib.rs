//! Printable-text extraction from raw byte buffers, with the report texts
//! that accompany a process inspection.

pub mod extract;
pub mod report;
pub mod runs;
pub mod text;

pub use extract::extract_printable_strings;
