//! Error types for XML parsing, XPath evaluation, and index persistence.

use vstd::prelude::*;

verus! {

/// All errors produced by the library.
#[derive(Debug)]
pub enum SimdXmlError {
    /// A structural XML parse error at a specific byte offset.
    ParseError { offset: usize, message: String },
    /// The XPath expression string could not be parsed.
    XPathParseError(String),
    /// An error occurred during XPath evaluation.
    XPathEvalError(String),
    /// A `<` was found without a matching `>`. The byte offset points to the `<`.
    UnclosedTag(usize),
    /// A `</name>` close tag does not match the expected open tag.
    MismatchedCloseTag { expected: String, found: String, offset: usize },
    /// The input is not valid XML.
    InvalidXml(String),
    /// The `.sxi` serialized index is corrupt or has an incompatible format.
    InvalidSxi(String),
    /// The `.sxi` index is stale: the XML has changed since the index was built.
    StaleSxi,
}

} // verus!
