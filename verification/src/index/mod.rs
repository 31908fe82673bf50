//! The structural index: flat arrays, no DOM tree.

pub mod access;
pub mod attr_laws;
pub mod entities;
pub mod laws;
pub mod lazy;
pub mod lazy_laws;
pub mod lazy_text_laws;
pub mod lexer;
pub mod markup_laws;
pub mod names;
pub mod outline;
pub mod structural;
pub mod table_laws;
pub mod tables;
pub mod tags;
pub mod text_laws;
pub mod text_place_laws;

use vstd::prelude::*;
use crate::index::outline::Doc;

verus! {

/// Classification of a tag.
#[derive(Debug, Clone, Copy, PartialEq, Eq, Structural)]
pub enum TagType {
    /// `<tag>`
    Open,
    /// `</tag>`
    Close,
    /// `<tag/>`
    SelfClose,
    /// `<!-- ... -->`
    Comment,
    /// `<![CDATA[ ... ]]>`
    CData,
    /// `<?target ... ?>`
    PI,
}

/// A text content node between tags.
#[derive(Debug, Clone, Copy, PartialEq, Eq, Structural)]
pub struct TextRange {
    /// Byte offset of text start.
    pub start: u64,
    /// Byte offset of text end (exclusive).
    pub end: u64,
    /// Index of the parent open tag; `u32::MAX` when there is none.
    pub parent_tag: u32,
}

/// The structural index of an XML document: parallel arrays with one entry per
/// tag, the text ranges, and optional precomputed lookup tables.
pub struct XmlIndex<'a> {
    /// Original XML bytes (borrowed, not copied).
    pub input: &'a [u8],
    /// Byte offset of each `<`.
    pub tag_starts: Vec<u64>,
    /// Byte offset of the last byte of each tag.
    pub tag_ends: Vec<u64>,
    /// Tag type classification.
    pub tag_types: Vec<TagType>,
    /// Tag name: (byte offset, length) into the input.
    pub tag_names: Vec<(u64, u16)>,
    /// Nesting depth of each tag (0 = root level).
    pub depths: Vec<u16>,
    /// Index of the parent tag. Root tags have parent `u32::MAX`.
    pub parents: Vec<u32>,
    /// Text content ranges.
    pub text_ranges: Vec<TextRange>,
    /// CSR children: `child_offsets[i]..child_offsets[i + 1]` delimits the
    /// children of tag `i` in `child_data`.
    pub child_offsets: Vec<u32>,
    /// Flat array of child tag indices.
    pub child_data: Vec<u32>,
    /// CSR text children, as for `child_offsets`.
    pub text_child_offsets: Vec<u32>,
    /// Flat array of text range indices.
    pub text_child_data: Vec<u32>,
    /// Matching close tag of each tag; `u32::MAX` when there is none.
    pub close_map: Vec<u32>,
    /// Post-order number of each tag.
    pub post_order: Vec<u32>,
    /// Interned name ID of each tag; `u16::MAX` when it has no name.
    pub name_ids: Vec<u16>,
    /// Name ID to (byte offset, length) in the input.
    pub name_table: Vec<(u64, u16)>,
    /// Name ID to the ascending list of element tags with that name.
    pub name_posting: Vec<Vec<u32>>,
}

/// Offsets of a CSR table over `rows` rows and `entries` entries: empty, or
/// ascending from 0 to the number of entries.
pub open spec fn offsets_ok(offsets: Seq<u32>, rows: nat, entries: nat) -> bool {
    offsets.len() == 0 || {
        &&& offsets.len() == rows + 1
        &&& offsets[0] == 0
        &&& forall|i: int, j: int| 0 <= i <= j < offsets.len() ==> offsets[i] <= offsets[j]
        &&& offsets[rows as int] <= entries
    }
}

impl<'a> XmlIndex<'a> {
    /// The document arrays of this index.
    pub open spec fn doc(&self) -> Doc {
        Doc {
            starts: self.tag_starts@,
            ends: self.tag_ends@,
            types: self.tag_types@,
            names: self.tag_names@,
            depths: self.depths@,
            parents: self.parents@,
            texts: self.text_ranges@,
        }
    }

    /// The number of tags.
    pub open spec fn tags(&self) -> nat {
        self.tag_starts@.len()
    }

    /// Well-formedness: the document arrays are consistent with the input, and
    /// each lookup table is absent or fits them.
    pub open spec fn wf(&self) -> bool {
        &&& self.doc().wf(self.input@.len())
        &&& offsets_ok(self.child_offsets@, self.tags(), self.child_data@.len())
        &&& forall|i: int|
            0 <= i < self.child_data@.len() ==> #[trigger] self.child_data@[i] < self.tags()
        &&& offsets_ok(self.text_child_offsets@, self.tags(), self.text_child_data@.len())
        &&& self.child_offsets@.len() == self.text_child_offsets@.len()
        &&& forall|i: int|
            0 <= i < self.text_child_data@.len() ==> #[trigger] self.text_child_data@[i]
                < self.text_ranges@.len()
        &&& self.close_map@.len() == 0 || self.close_map@.len() == self.tags()
        &&& forall|i: int|
            0 <= i < self.close_map@.len() ==> #[trigger] self.close_map@[i] == u32::MAX
                || self.close_map@[i] < self.tags()
        &&& self.post_order@.len() == 0 || self.post_order@.len() == self.tags()
        &&& forall|i: int|
            0 <= i < self.name_table@.len() ==> (#[trigger] self.name_table@[i]).0
                + self.name_table@[i].1 <= self.input@.len()
        &&& forall|i: int, j: int|
            0 <= i < self.name_posting@.len() && 0 <= j < self.name_posting@[i]@.len()
                ==> #[trigger] self.name_posting@[i]@[j] < self.tags()
    }

    /// No lookup table has been built.
    pub open spec fn bare(&self) -> bool {
        &&& self.child_offsets@.len() == 0
        &&& self.child_data@.len() == 0
        &&& self.text_child_offsets@.len() == 0
        &&& self.text_child_data@.len() == 0
        &&& self.close_map@.len() == 0
        &&& self.post_order@.len() == 0
        &&& self.name_ids@.len() == 0
        &&& self.name_table@.len() == 0
        &&& self.name_posting@.len() == 0
    }
}

} // verus!
