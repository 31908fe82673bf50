//! A structural XML index with XPath 1.0 evaluation over flat arrays.
//!
//! `parse` builds an index of a document: parallel arrays of tags and text
//! ranges. XPath expressions are parsed into syntax trees and evaluated against
//! the arrays.

pub mod batch;
pub mod bloom;
pub mod bytes;
pub mod endian;
pub mod error;
pub mod index;
pub mod name_set;
pub mod parallel;
pub mod persist;
pub mod report;
pub mod simd;
pub mod text;
pub mod xpath;

pub use error::SimdXmlError;
pub use index::XmlIndex;
pub use xpath::CompiledXPath;

use vstd::prelude::*;
use crate::index::outline::Doc;
use crate::index::structural::{parse_scalar, parsed};

verus! {

/// Parses XML bytes and builds a structural index. Fails exactly when the input
/// ends inside a tag.
pub fn parse(input: &[u8]) -> (r: std::result::Result<XmlIndex<'_>, SimdXmlError>)
    ensures
        match r {
            Ok(index) => parsed(input@) == Ok::<Doc, int>(index.doc()) && index.input@ == input@
                && index.wf() && index.bare(),
            Err(e) => e matches SimdXmlError::UnclosedTag(p) && parsed(input@) == Err::<Doc, int>(
                p as int,
            ),
        },
{
    parse_scalar(input)
}

} // verus!
