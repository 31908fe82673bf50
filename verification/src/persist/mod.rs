//! Persistent structural index: the `.sxi` format.
//!
//! An `.sxi` image holds all arrays of an index, so that a document can be
//! queried again without being parsed.
//!
//! ```text
//! [Header: 64 bytes]
//!    0..4    magic "SXI\x01"
//!    4..8    version
//!    8..16   xxh3-64 of the XML bytes
//!   16..20   number of tags
//!   20..24   number of text ranges
//!   24..26   number of names
//!   26..28   flags: bit 0 has a name index, bit 1 has a bloom filter
//!   28..44   bloom filter of the tag names
//!   44..64   zero
//! [Offset table: 14 x 8 bytes]  where each section starts
//! [Sections 0..13]              the arrays of the index
//! [Section 13]                  the name index
//! ```
//!
//! All numbers are little-endian.

pub mod format;
pub mod laws;
pub mod reader;

pub use format::serialize_index;
pub use reader::{load_index_with_xml, read_bloom};
