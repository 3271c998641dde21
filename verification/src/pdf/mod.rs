//! The byte-level parts of PDF output.

pub mod compress;
pub mod options;
pub mod refs;
pub mod streaming;
pub mod svg;
pub mod xref;
