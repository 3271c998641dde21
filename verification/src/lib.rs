//! Verified core of an HTML-to-PDF renderer: the document tree and computed
//! styles as layout reads them, box-tree construction, table grid
//! placement, text preparation and classification, the fragments of boxes
//! split across pages, and the byte-level pieces of PDF output (object
//! numbers, offsets, cross-reference table, SVG object groups, dates) with
//! the sinks that receive the bytes.

pub mod html;
pub mod img;
pub mod layout;
pub mod pdf;
pub mod sink;
pub mod style;
pub mod text;
