//! Reading an `.sxi` image.

use vstd::prelude::*;
use crate::bloom::TagBloom;
use crate::endian::{le_value, lemma_pow256, read_le};
use crate::error::SimdXmlError;
use crate::index::outline::Doc;
use crate::index::{offsets_ok, TagType, TextRange, XmlIndex};
use crate::persist::format::{
    content_hash, magic, xxh3, HEADER_SIZE, NUM_SECTIONS, PREFIX_SIZE, VERSION,
};
use crate::text::{decimal, digits};

verus! {

pub open spec fn smaller(a: int, b: int) -> int {
    if a <= b {
        a
    } else {
        b
    }
}

/// The first `count` entries of `w` bytes each, or as many as there are.
pub open spec fn unpacked<T>(
    data: Seq<u8>,
    count: int,
    w: int,
    dec: spec_fn(Seq<u8>) -> T,
) -> Seq<T> {
    Seq::new(
        smaller(count, data.len() as int / w) as nat,
        |i: int| dec(data.subrange(i * w, i * w + w)),
    )
}

pub open spec fn dec64() -> spec_fn(Seq<u8>) -> u64 {
    |b: Seq<u8>| le_value(b) as u64
}

pub open spec fn dec32() -> spec_fn(Seq<u8>) -> u32 {
    |b: Seq<u8>| le_value(b) as u32
}

pub open spec fn dec16() -> spec_fn(Seq<u8>) -> u16 {
    |b: Seq<u8>| le_value(b) as u16
}

/// The tag type that a number stands for; an unknown number reads as an open
/// tag.
pub open spec fn type_of(code: u8) -> TagType {
    if code == 1 {
        TagType::Close
    } else if code == 2 {
        TagType::SelfClose
    } else if code == 3 {
        TagType::Comment
    } else if code == 4 {
        TagType::CData
    } else if code == 5 {
        TagType::PI
    } else {
        TagType::Open
    }
}

pub open spec fn dec_type() -> spec_fn(Seq<u8>) -> TagType {
    |b: Seq<u8>| type_of(b[0])
}

pub open spec fn dec_name() -> spec_fn(Seq<u8>) -> (u64, u16) {
    |b: Seq<u8>| (le_value(b.subrange(0, 8)) as u64, le_value(b.subrange(8, 10)) as u16)
}

pub open spec fn dec_text() -> spec_fn(Seq<u8>) -> TextRange {
    |b: Seq<u8>|
        TextRange {
            start: le_value(b.subrange(0, 8)) as u64,
            end: le_value(b.subrange(8, 16)) as u64,
            parent_tag: le_value(b.subrange(16, 20)) as u32,
        }
}

/// The number in the `k` bytes at `at`.
pub open spec fn field(b: Seq<u8>, at: int, k: int) -> int {
    le_value(b.subrange(at, at + k))
}

pub open spec fn tag_total(b: Seq<u8>) -> int {
    field(b, 16, 4)
}

pub open spec fn text_total(b: Seq<u8>) -> int {
    field(b, 20, 4)
}

pub open spec fn name_total(b: Seq<u8>) -> int {
    field(b, 24, 2)
}

pub open spec fn has_names(b: Seq<u8>) -> bool {
    field(b, 26, 2) % 2 == 1 && name_total(b) > 0
}

/// Where section `i` starts, as the offset table tells.
pub open spec fn sec_start(b: Seq<u8>, i: int) -> int {
    field(b, HEADER_SIZE + 8 * i, 8)
}

/// Where section `i` ends: where the next one starts, but inside the image.
pub open spec fn sec_end(b: Seq<u8>, i: int) -> int {
    if i + 1 < NUM_SECTIONS {
        smaller(sec_start(b, i + 1), b.len() as int)
    } else {
        b.len() as int
    }
}

pub open spec fn section(b: Seq<u8>, i: int) -> Seq<u8> {
    b.subrange(sec_start(b, i), sec_end(b, i))
}

/// Where the name table starts in the name index.
pub open spec fn table_at(b: Seq<u8>) -> int {
    2 * tag_total(b)
}

/// Where the posting offsets start in the name index.
pub open spec fn offsets_at(b: Seq<u8>) -> int {
    table_at(b) + 10 * name_total(b)
}

/// Where the posting data starts in the name index.
pub open spec fn postings_at(b: Seq<u8>) -> int {
    offsets_at(b) + 4 * (name_total(b) + 1)
}

pub open spec fn posting_offsets(b: Seq<u8>) -> Seq<u32> {
    unpacked(section(b, 13).skip(offsets_at(b)), name_total(b) + 1, 4, dec32())
}

pub open spec fn posting_data(b: Seq<u8>) -> Seq<u32> {
    unpacked(section(b, 13).skip(postings_at(b)), posting_offsets(b).last() as int, 4, dec32())
}

/// Everything that an image stores of an index.
#[verifier::ext_equal]
pub struct Stored {
    pub doc: Doc,
    pub child_offsets: Seq<u32>,
    pub child_data: Seq<u32>,
    pub text_child_offsets: Seq<u32>,
    pub text_child_data: Seq<u32>,
    pub close_map: Seq<u32>,
    pub post_order: Seq<u32>,
    pub name_ids: Seq<u16>,
    pub name_table: Seq<(u64, u16)>,
    pub name_posting: Seq<Seq<u32>>,
}

impl<'a> XmlIndex<'a> {
    /// What an image stores of this index.
    pub open spec fn stored(&self) -> Stored {
        Stored {
            doc: self.doc(),
            child_offsets: self.child_offsets@,
            child_data: self.child_data@,
            text_child_offsets: self.text_child_offsets@,
            text_child_data: self.text_child_data@,
            close_map: self.close_map@,
            post_order: self.post_order@,
            name_ids: self.name_ids@,
            name_table: self.name_table@,
            name_posting: Seq::new(self.name_posting@.len(), |i: int| self.name_posting@[i]@),
        }
    }
}

impl Stored {
    /// Consistency with a document of `n` bytes: see `XmlIndex::wf`.
    pub open spec fn wf(self, n: nat) -> bool {
        let tags = self.doc.starts.len();
        &&& self.doc.wf(n)
        &&& offsets_ok(self.child_offsets, tags, self.child_data.len())
        &&& forall|i: int|
            0 <= i < self.child_data.len() ==> #[trigger] self.child_data[i] < tags
        &&& offsets_ok(self.text_child_offsets, tags, self.text_child_data.len())
        &&& self.child_offsets.len() == self.text_child_offsets.len()
        &&& forall|i: int|
            0 <= i < self.text_child_data.len() ==> #[trigger] self.text_child_data[i]
                < self.doc.texts.len()
        &&& self.close_map.len() == 0 || self.close_map.len() == tags
        &&& forall|i: int|
            0 <= i < self.close_map.len() ==> #[trigger] self.close_map[i] == u32::MAX
                || self.close_map[i] < tags
        &&& self.post_order.len() == 0 || self.post_order.len() == tags
        &&& forall|i: int|
            0 <= i < self.name_table.len() ==> (#[trigger] self.name_table[i]).0
                + self.name_table[i].1 <= n
        &&& forall|i: int, j: int|
            0 <= i < self.name_posting.len() && 0 <= j < self.name_posting[i].len()
                ==> #[trigger] self.name_posting[i][j] < tags
    }
}

/// An index is consistent exactly when what is stored of it is.
pub proof fn lemma_stored_wf(index: XmlIndex)
    ensures
        index.wf() == index.stored().wf(index.input@.len()),
{
    let st = index.stored();
    assert forall|i: int| 0 <= i < st.name_posting.len() implies #[trigger] st.name_posting[i]
        == index.name_posting@[i]@ by {}
    if index.wf() {
        assert forall|i: int, j: int| 0 <= i < st.name_posting.len() && 0 <= j
            < st.name_posting[i].len() implies #[trigger] st.name_posting[i][j]
            < st.doc.starts.len() by {
            assert(index.name_posting@[i]@[j] < index.tags());
        }
        assert(st.wf(index.input@.len()));
    }
    if st.wf(index.input@.len()) {
        assert forall|i: int, j: int| 0 <= i < index.name_posting@.len() && 0 <= j
            < index.name_posting@[i]@.len() implies #[trigger] index.name_posting@[i]@[j]
            < index.tags() by {
            assert(st.name_posting[i][j] < st.doc.starts.len());
        }
        assert forall|i: int| 0 <= i < index.name_table@.len() implies (
        #[trigger] index.name_table@[i]).0 + index.name_table@[i].1 <= index.input@.len() by {
            assert(st.name_table[i].0 + st.name_table[i].1 <= index.input@.len());
        }
        assert(index.wf());
    }
}

/// Whether all that the header and the tables point to lies inside the image.
pub open spec fn readable(b: Seq<u8>) -> bool {
    &&& forall|i: int| 0 <= i < NUM_SECTIONS ==> #[trigger] sec_start(b, i) <= sec_end(b, i)
    &&& tag_total(b) <= section(b, 2).len()
    &&& has_names(b) ==> {
        &&& postings_at(b) <= section(b, 13).len()
        &&& forall|i: int| #![trigger posting_offsets(b)[i]]
            0 <= i < name_total(b) ==> posting_offsets(b)[i] <= posting_offsets(b)[i + 1]
                <= posting_data(b).len()
    }
}

/// What an image holds.
pub open spec fn decoded(b: Seq<u8>) -> Stored {
    Stored {
        doc: Doc {
            starts: unpacked(section(b, 0), tag_total(b), 8, dec64()),
            ends: unpacked(section(b, 1), tag_total(b), 8, dec64()),
            types: unpacked(section(b, 2), tag_total(b), 1, dec_type()),
            names: unpacked(section(b, 3), tag_total(b), 10, dec_name()),
            depths: unpacked(section(b, 4), tag_total(b), 2, dec16()),
            parents: unpacked(section(b, 5), tag_total(b), 4, dec32()),
            texts: unpacked(section(b, 6), text_total(b), 20, dec_text()),
        },
        child_offsets: unpacked(section(b, 7), section(b, 7).len() as int, 4, dec32()),
        child_data: unpacked(section(b, 8), section(b, 8).len() as int, 4, dec32()),
        text_child_offsets: unpacked(section(b, 9), section(b, 9).len() as int, 4, dec32()),
        text_child_data: unpacked(section(b, 10), section(b, 10).len() as int, 4, dec32()),
        close_map: unpacked(section(b, 11), tag_total(b), 4, dec32()),
        post_order: unpacked(section(b, 12), tag_total(b), 4, dec32()),
        name_ids: if has_names(b) {
            unpacked(section(b, 13), tag_total(b), 2, dec16())
        } else {
            Seq::empty()
        },
        name_table: if has_names(b) {
            unpacked(section(b, 13).skip(table_at(b)), name_total(b), 10, dec_name())
        } else {
            Seq::empty()
        },
        name_posting: if has_names(b) {
            Seq::new(
                name_total(b) as nat,
                |i: int|
                    posting_data(b).subrange(
                        posting_offsets(b)[i] as int,
                        posting_offsets(b)[i + 1] as int,
                    ),
            )
        } else {
            Seq::empty()
        },
    }
}

/// Why an image is refused.
pub enum Refusal {
    TooSmall,
    BadMagic,
    Version(int),
    Stale,
    Corrupt,
    Inconsistent,
}

/// Whether an image is refused for a document, and why.
pub open spec fn refusal(b: Seq<u8>, xml: Seq<u8>) -> Option<Refusal> {
    if b.len() < PREFIX_SIZE {
        Some(Refusal::TooSmall)
    } else if b.subrange(0, 4) != magic() {
        Some(Refusal::BadMagic)
    } else if field(b, 4, 4) != VERSION {
        Some(Refusal::Version(field(b, 4, 4)))
    } else if field(b, 8, 8) != xxh3(xml) {
        Some(Refusal::Stale)
    } else if !readable(b) {
        Some(Refusal::Corrupt)
    } else if !decoded(b).wf(xml.len()) {
        Some(Refusal::Inconsistent)
    } else {
        None
    }
}

/// The message of a refusal.
pub open spec fn refusal_text(why: Refusal) -> Seq<char> {
    match why {
        Refusal::TooSmall => "file too small"@,
        Refusal::BadMagic => "bad magic bytes"@,
        Refusal::Version(v) => "unsupported version "@ + digits(v),
        Refusal::Stale => Seq::empty(),
        Refusal::Corrupt => "corrupt section table"@,
        Refusal::Inconsistent => "inconsistent index"@,
    }
}

/// The error that reports a refusal.
pub open spec fn reports(e: SimdXmlError, why: Refusal) -> bool {
    match e {
        SimdXmlError::StaleSxi => why is Stale,
        SimdXmlError::InvalidSxi(m) => why !is Stale && m@ == refusal_text(why),
        _ => false,
    }
}

fn invalid(message: &str) -> (e: SimdXmlError)
    ensures
        e matches SimdXmlError::InvalidSxi(m) && m@ == message@,
{
    SimdXmlError::InvalidSxi(String::from_str(message))
}

fn read_u64_vec(data: &[u8], count: usize) -> (v: Vec<u64>)
    ensures
        v@ == unpacked(data@, count as int, 8, dec64()),
{
    let most: usize = data.len() / 8;
    let n: usize = if count <= most {
        count
    } else {
        most
    };
    let mut v: Vec<u64> = Vec::new();
    let mut i: usize = 0;
    while i < n
        invariant
            n == unpacked(data@, count as int, 8, dec64()).len(),
            8 * n <= data@.len(),
            i <= n,
            v@ == unpacked(data@, count as int, 8, dec64()).take(i as int),
        decreases n - i,
    {
        let total: usize = data.len();
        let value: u128 = read_le(data, i * 8, 8);
        proof {
            lemma_pow256();
        }
        v.push(value as u64);
        assert(v@ =~= unpacked(data@, count as int, 8, dec64()).take(i + 1));
        i += 1;
    }
    assert(v@ =~= unpacked(data@, count as int, 8, dec64()));
    v
}

fn read_u32_vec(data: &[u8], count: usize) -> (v: Vec<u32>)
    ensures
        v@ == unpacked(data@, count as int, 4, dec32()),
{
    let most: usize = data.len() / 4;
    let n: usize = if count <= most {
        count
    } else {
        most
    };
    let mut v: Vec<u32> = Vec::new();
    let mut i: usize = 0;
    while i < n
        invariant
            n == unpacked(data@, count as int, 4, dec32()).len(),
            4 * n <= data@.len(),
            i <= n,
            v@ == unpacked(data@, count as int, 4, dec32()).take(i as int),
        decreases n - i,
    {
        let total: usize = data.len();
        let value: u128 = read_le(data, i * 4, 4);
        proof {
            lemma_pow256();
        }
        v.push(value as u32);
        assert(v@ =~= unpacked(data@, count as int, 4, dec32()).take(i + 1));
        i += 1;
    }
    assert(v@ =~= unpacked(data@, count as int, 4, dec32()));
    v
}

fn read_u16_vec(data: &[u8], count: usize) -> (v: Vec<u16>)
    ensures
        v@ == unpacked(data@, count as int, 2, dec16()),
{
    let most: usize = data.len() / 2;
    let n: usize = if count <= most {
        count
    } else {
        most
    };
    let mut v: Vec<u16> = Vec::new();
    let mut i: usize = 0;
    while i < n
        invariant
            n == unpacked(data@, count as int, 2, dec16()).len(),
            2 * n <= data@.len(),
            i <= n,
            v@ == unpacked(data@, count as int, 2, dec16()).take(i as int),
        decreases n - i,
    {
        let total: usize = data.len();
        let value: u128 = read_le(data, i * 2, 2);
        proof {
            lemma_pow256();
        }
        v.push(value as u16);
        assert(v@ =~= unpacked(data@, count as int, 2, dec16()).take(i + 1));
        i += 1;
    }
    assert(v@ =~= unpacked(data@, count as int, 2, dec16()));
    v
}

fn read_types(data: &[u8], count: usize) -> (v: Vec<TagType>)
    ensures
        v@ == unpacked(data@, count as int, 1, dec_type()),
{
    let most: usize = data.len();
    let n: usize = if count <= most {
        count
    } else {
        most
    };
    let mut v: Vec<TagType> = Vec::new();
    let mut i: usize = 0;
    while i < n
        invariant
            n == unpacked(data@, count as int, 1, dec_type()).len(),
            n <= data@.len(),
            i <= n,
            v@ == unpacked(data@, count as int, 1, dec_type()).take(i as int),
        decreases n - i,
    {
        let code: u8 = data[i];
        let t: TagType = if code == 1 {
            TagType::Close
        } else if code == 2 {
            TagType::SelfClose
        } else if code == 3 {
            TagType::Comment
        } else if code == 4 {
            TagType::CData
        } else if code == 5 {
            TagType::PI
        } else {
            TagType::Open
        };
        v.push(t);
        assert(data@.subrange(i * 1, i * 1 + 1)[0] == code);
        assert(v@ =~= unpacked(data@, count as int, 1, dec_type()).take(i + 1));
        i += 1;
    }
    assert(v@ =~= unpacked(data@, count as int, 1, dec_type()));
    v
}

fn read_tag_names(data: &[u8], count: usize) -> (v: Vec<(u64, u16)>)
    ensures
        v@ == unpacked(data@, count as int, 10, dec_name()),
{
    let most: usize = data.len() / 10;
    let n: usize = if count <= most {
        count
    } else {
        most
    };
    let mut v: Vec<(u64, u16)> = Vec::new();
    let mut i: usize = 0;
    while i < n
        invariant
            n == unpacked(data@, count as int, 10, dec_name()).len(),
            10 * n <= data@.len(),
            i <= n,
            v@ == unpacked(data@, count as int, 10, dec_name()).take(i as int),
        decreases n - i,
    {
        let total: usize = data.len();
        let offset: u128 = read_le(data, i * 10, 8);
        let len: u128 = read_le(data, i * 10 + 8, 2);
        proof {
            lemma_pow256();
            let entry = data@.subrange(i * 10, i * 10 + 10);
            assert(entry.subrange(0, 8) =~= data@.subrange(i * 10, i * 10 + 8));
            assert(entry.subrange(8, 10) =~= data@.subrange(i * 10 + 8, i * 10 + 8 + 2));
        }
        v.push((offset as u64, len as u16));
        assert(v@ =~= unpacked(data@, count as int, 10, dec_name()).take(i + 1));
        i += 1;
    }
    assert(v@ =~= unpacked(data@, count as int, 10, dec_name()));
    v
}

fn read_text_ranges(data: &[u8], count: usize) -> (v: Vec<TextRange>)
    ensures
        v@ == unpacked(data@, count as int, 20, dec_text()),
{
    let most: usize = data.len() / 20;
    let n: usize = if count <= most {
        count
    } else {
        most
    };
    let mut v: Vec<TextRange> = Vec::new();
    let mut i: usize = 0;
    while i < n
        invariant
            n == unpacked(data@, count as int, 20, dec_text()).len(),
            20 * n <= data@.len(),
            i <= n,
            v@ == unpacked(data@, count as int, 20, dec_text()).take(i as int),
        decreases n - i,
    {
        let total: usize = data.len();
        let start: u128 = read_le(data, i * 20, 8);
        let end: u128 = read_le(data, i * 20 + 8, 8);
        let parent: u128 = read_le(data, i * 20 + 16, 4);
        proof {
            lemma_pow256();
            let entry = data@.subrange(i * 20, i * 20 + 20);
            assert(entry.subrange(0, 8) =~= data@.subrange(i * 20, i * 20 + 8));
            assert(entry.subrange(8, 16) =~= data@.subrange(i * 20 + 8, i * 20 + 8 + 8));
            assert(entry.subrange(16, 20) =~= data@.subrange(i * 20 + 16, i * 20 + 16 + 4));
        }
        v.push(TextRange { start: start as u64, end: end as u64, parent_tag: parent as u32 });
        assert(v@ =~= unpacked(data@, count as int, 20, dec_text()).take(i + 1));
        i += 1;
    }
    assert(v@ =~= unpacked(data@, count as int, 20, dec_text()));
    v
}

/// The bloom filter in the header of an image, without the rest of it. An image
/// without one gives the empty filter.
pub fn read_bloom(header: &[u8]) -> (r: std::result::Result<TagBloom, SimdXmlError>)
    requires
        header@.len() >= HEADER_SIZE,
    ensures
        match r {
            Ok(bloom) => header@.subrange(0, 4) == magic() && bloom.0 == (if field(header@, 26, 2)
                / 2 % 2 == 1 {
                field(header@, 28, 16)
            } else {
                0
            }),
            Err(e) => header@.subrange(0, 4) != magic() && reports(e, Refusal::BadMagic),
        },
{
    if !has_magic(header) {
        return Err(invalid("bad magic bytes"));
    }
    let flags: u128 = read_le(header, 26, 2);
    if flags / 2 % 2 == 0 {
        return Ok(TagBloom::empty());
    }
    Ok(TagBloom(read_le(header, 28, 16)))
}

fn has_magic(b: &[u8]) -> (r: bool)
    requires
        b@.len() >= 4,
    ensures
        r == (b@.subrange(0, 4) == magic()),
{
    let r = b[0] == 0x53 && b[1] == 0x58 && b[2] == 0x49 && b[3] == 0x01;
    proof {
        let first = b@.subrange(0, 4);
        assert(first[0] == b@[0] && first[1] == b@[1] && first[2] == b@[2] && first[3] == b@[3]);
        if r {
            assert(first =~= magic());
        } else if first == magic() {
            assert(magic()[0] == 0x53 && magic()[1] == 0x58 && magic()[2] == 0x49 && magic()[3]
                == 0x01);
        }
    }
    r
}

// Checking what was read.

fn offsets_consistent(offsets: &Vec<u32>, rows: usize, entries: usize) -> (r: bool)
    ensures
        r == offsets_ok(offsets@, rows as nat, entries as nat),
{
    let n: usize = offsets.len();
    if n == 0 {
        return true;
    }
    if n - 1 != rows || offsets[0] != 0 {
        return false;
    }
    let mut i: usize = 1;
    while i < n
        invariant
            n == offsets@.len(),
            n == rows + 1,
            offsets@[0] == 0,
            1 <= i <= n,
            forall|a: int, b: int| 0 <= a <= b < i ==> offsets@[a] <= offsets@[b],
        decreases n - i,
    {
        if offsets[i] < offsets[i - 1] {
            assert(!(offsets@[i - 1] <= offsets@[i as int]));
            return false;
        }
        i += 1;
    }
    offsets[rows] as usize <= entries
}

/// Whether all entries are below the bound.
fn all_below(v: &Vec<u32>, bound: usize) -> (r: bool)
    ensures
        r == forall|i: int| 0 <= i < v@.len() ==> #[trigger] v@[i] < bound,
{
    let n: usize = v.len();
    let mut i: usize = 0;
    while i < n
        invariant
            n == v@.len(),
            i <= n,
            forall|j: int| 0 <= j < i ==> #[trigger] v@[j] < bound,
        decreases n - i,
    {
        if v[i] as usize >= bound {
            assert(!(v@[i as int] < bound));
            return false;
        }
        i += 1;
    }
    true
}

/// Whether all entries are below the bound or `u32::MAX`.
fn all_below_or_none(v: &Vec<u32>, bound: usize) -> (r: bool)
    ensures
        r == forall|i: int| 0 <= i < v@.len() ==> #[trigger] v@[i] == u32::MAX || v@[i] < bound,
{
    let n: usize = v.len();
    let mut i: usize = 0;
    while i < n
        invariant
            n == v@.len(),
            i <= n,
            forall|j: int| 0 <= j < i ==> #[trigger] v@[j] == u32::MAX || v@[j] < bound,
        decreases n - i,
    {
        if v[i] != u32::MAX && v[i] as usize >= bound {
            assert(!(v@[i as int] == u32::MAX || v@[i as int] < bound));
            return false;
        }
        i += 1;
    }
    true
}

/// Whether all names lie inside the input.
fn names_inside(v: &Vec<(u64, u16)>, len: usize) -> (r: bool)
    ensures
        r == forall|i: int| 0 <= i < v@.len() ==> (#[trigger] v@[i]).0 + v@[i].1 <= len,
{
    let n: usize = v.len();
    let mut i: usize = 0;
    while i < n
        invariant
            n == v@.len(),
            i <= n,
            forall|j: int| 0 <= j < i ==> (#[trigger] v@[j]).0 + v@[j].1 <= len,
        decreases n - i,
    {
        let (offset, width) = v[i];
        if offset as u128 + width as u128 > len as u128 {
            assert(!(v@[i as int].0 + v@[i as int].1 <= len));
            return false;
        }
        i += 1;
    }
    true
}

/// Whether the positions of the tags are ascending and inside the input.
fn starts_consistent(starts: &Vec<u64>, ends: &Vec<u64>, len: usize) -> (r: bool)
    requires
        starts@.len() == ends@.len(),
    ensures
        r == ({
            &&& forall|i: int| #![trigger starts@[i]]
                0 <= i < starts@.len() ==> starts@[i] < len && starts@[i] <= ends@[i]
            &&& forall|i: int| 0 <= i < ends@.len() ==> #[trigger] ends@[i] <= len
            &&& forall|i: int, j: int| 0 <= i < j < starts@.len() ==> starts@[i] < starts@[j]
        }),
{
    let n: usize = starts.len();
    let mut i: usize = 0;
    while i < n
        invariant
            n == starts@.len(),
            n == ends@.len(),
            i <= n,
            forall|j: int| #![trigger starts@[j]]
                0 <= j < i ==> starts@[j] < len && starts@[j] <= ends@[j],
            forall|j: int| 0 <= j < i ==> #[trigger] ends@[j] <= len,
            forall|a: int, b: int| 0 <= a < b < i ==> starts@[a] < starts@[b],
        decreases n - i,
    {
        if starts[i] >= len as u64 || starts[i] > ends[i] {
            assert(!(starts@[i as int] < len && starts@[i as int] <= ends@[i as int]));
            return false;
        }
        if ends[i] > len as u64 {
            assert(!(ends@[i as int] <= len));
            return false;
        }
        if i > 0 && starts[i - 1] >= starts[i] {
            assert(!(starts@[i - 1] < starts@[i as int]));
            return false;
        }
        i += 1;
    }
    true
}

/// Whether each parent stands before its child.
fn parents_consistent(parents: &Vec<u32>) -> (r: bool)
    ensures
        r == forall|i: int|
            0 <= i < parents@.len() ==> #[trigger] parents@[i] == u32::MAX || parents@[i] < i,
{
    let n: usize = parents.len();
    let mut i: usize = 0;
    while i < n
        invariant
            n == parents@.len(),
            i <= n,
            forall|j: int|
                0 <= j < i ==> #[trigger] parents@[j] == u32::MAX || parents@[j] < j,
        decreases n - i,
    {
        if parents[i] != u32::MAX && parents[i] as usize >= i {
            assert(!(parents@[i as int] == u32::MAX || parents@[i as int] < i));
            return false;
        }
        i += 1;
    }
    true
}

/// Whether the text ranges lie inside the input under existing tags.
fn texts_consistent(texts: &Vec<TextRange>, tags: usize, len: usize) -> (r: bool)
    ensures
        r == forall|i: int|
            0 <= i < texts@.len() ==> (#[trigger] texts@[i]).start <= texts@[i].end <= len && (
            texts@[i].parent_tag == u32::MAX || texts@[i].parent_tag < tags),
{
    let n: usize = texts.len();
    let mut i: usize = 0;
    while i < n
        invariant
            n == texts@.len(),
            i <= n,
            forall|j: int|
                0 <= j < i ==> (#[trigger] texts@[j]).start <= texts@[j].end <= len && (
                texts@[j].parent_tag == u32::MAX || texts@[j].parent_tag < tags),
        decreases n - i,
    {
        let t = texts[i];
        if t.start > t.end || t.end > len as u64 || (t.parent_tag != u32::MAX
            && t.parent_tag as usize >= tags) {
            assert(texts@[i as int] == t);
            return false;
        }
        i += 1;
    }
    true
}

/// Whether all postings are below the bound.
fn postings_below(lists: &Vec<Vec<u32>>, bound: usize) -> (r: bool)
    ensures
        r == forall|i: int, j: int|
            0 <= i < lists@.len() && 0 <= j < lists@[i]@.len() ==> #[trigger] lists@[i]@[j]
                < bound,
{
    let n: usize = lists.len();
    let mut i: usize = 0;
    while i < n
        invariant
            n == lists@.len(),
            i <= n,
            forall|a: int, b: int|
                0 <= a < i && 0 <= b < lists@[a]@.len() ==> #[trigger] lists@[a]@[b] < bound,
        decreases n - i,
    {
        if !all_below(&lists[i], bound) {
            let ghost list = lists@[i as int]@;
            proof {
                let j = choose|j: int| 0 <= j < list.len() && !(#[trigger] list[j] < bound);
                assert(!(lists@[i as int]@[j] < bound));
            }
            return false;
        }
        i += 1;
    }
    true
}

/// Whether the arrays of an index are consistent with each other and with the
/// input.
pub fn is_consistent(index: &XmlIndex) -> (r: bool)
    ensures
        r == index.wf(),
{
    let n: usize = index.tag_starts.len();
    let len: usize = index.input.len();
    let ghost d = index.doc();
    if index.tag_ends.len() != n || index.tag_types.len() != n || index.tag_names.len() != n
        || index.depths.len() != n || index.parents.len() != n {
        return false;
    }
    if !starts_consistent(&index.tag_starts, &index.tag_ends, len) {
        return false;
    }
    if !names_inside(&index.tag_names, len) {
        proof {
            if index.wf() {
                assert forall|i: int| 0 <= i < index.tag_names@.len() implies (
                #[trigger] index.tag_names@[i]).0 + index.tag_names@[i].1 <= len by {
                    assert(d.names[i].0 + d.names[i].1 <= len);
                }
            }
        }
        return false;
    }
    if !parents_consistent(&index.parents) {
        proof {
            if index.wf() {
                assert forall|i: int| 0 <= i < index.parents@.len() implies #[trigger] index.parents@[i]
                    == u32::MAX || index.parents@[i] < i by {
                    assert(d.parents[i] == u32::MAX || d.parents[i] < i);
                }
            }
        }
        return false;
    }
    if !texts_consistent(&index.text_ranges, n, len) {
        proof {
            if index.wf() {
                assert forall|i: int| 0 <= i < index.text_ranges@.len() implies (
                #[trigger] index.text_ranges@[i]).start <= index.text_ranges@[i].end <= len && (
                index.text_ranges@[i].parent_tag == u32::MAX || index.text_ranges@[i].parent_tag
                    < n) by {
                    assert(d.texts[i].start <= d.texts[i].end);
                }
            }
        }
        return false;
    }
    assert(d.wf(len as nat));
    if !offsets_consistent(&index.child_offsets, n, index.child_data.len()) || !all_below(
        &index.child_data,
        n,
    ) {
        return false;
    }
    if !offsets_consistent(&index.text_child_offsets, n, index.text_child_data.len())
        || !all_below(&index.text_child_data, index.text_ranges.len()) {
        return false;
    }
    if index.child_offsets.len() != index.text_child_offsets.len() {
        return false;
    }
    if (index.close_map.len() != 0 && index.close_map.len() != n) || !all_below_or_none(
        &index.close_map,
        n,
    ) {
        return false;
    }
    if index.post_order.len() != 0 && index.post_order.len() != n {
        return false;
    }
    names_inside(&index.name_table, len) && postings_below(&index.name_posting, n)
}

// Loading.

/// The bounds of section `i`, or `None` when it does not lie inside the image.
fn section_bounds(b: &[u8], i: usize) -> (r: Option<(usize, usize)>)
    requires
        b@.len() >= PREFIX_SIZE,
        i < NUM_SECTIONS,
    ensures
        match r {
            Some((from, to)) => from == sec_start(b@, i as int) && to == sec_end(b@, i as int)
                && from <= to <= b@.len(),
            None => sec_start(b@, i as int) > sec_end(b@, i as int),
        },
{
    let n: usize = b.len();
    let start: u128 = read_le(b, HEADER_SIZE + 8 * i, 8);
    let end: u128 = if i + 1 < NUM_SECTIONS {
        let next: u128 = read_le(b, HEADER_SIZE + 8 * (i + 1), 8);
        if next <= n as u128 {
            next
        } else {
            n as u128
        }
    } else {
        n as u128
    };
    if start <= end {
        Some((start as usize, end as usize))
    } else {
        None
    }
}

/// All sections of the image, or `None` when one does not lie inside it.
fn section_table(b: &[u8]) -> (r: Option<Vec<(usize, usize)>>)
    requires
        b@.len() >= PREFIX_SIZE,
    ensures
        match r {
            Some(v) => v@.len() == NUM_SECTIONS && forall|i: int| #![trigger v@[i]]
                0 <= i < NUM_SECTIONS ==> v@[i].0 == sec_start(b@, i) && v@[i].1 == sec_end(b@, i)
                    && v@[i].0 <= v@[i].1 <= b@.len(),
            None => exists|i: int|
                0 <= i < NUM_SECTIONS && #[trigger] sec_start(b@, i) > sec_end(b@, i),
        },
{
    let mut v: Vec<(usize, usize)> = Vec::new();
    let mut i: usize = 0;
    while i < NUM_SECTIONS
        invariant
            b@.len() >= PREFIX_SIZE,
            i <= NUM_SECTIONS,
            v@.len() == i,
            forall|j: int| #![trigger v@[j]]
                0 <= j < i ==> v@[j].0 == sec_start(b@, j) && v@[j].1 == sec_end(b@, j)
                    && v@[j].0 <= v@[j].1 <= b@.len(),
        decreases NUM_SECTIONS - i,
    {
        match section_bounds(b, i) {
            Some(bounds) => v.push(bounds),
            None => {
                assert(sec_start(b@, i as int) > sec_end(b@, i as int));
                return None;
            },
        }
        i += 1;
    }
    Some(v)
}

/// The bytes of section `i`.
fn section_slice<'b>(b: &'b [u8], table: &Vec<(usize, usize)>, i: usize) -> (r: &'b [u8])
    requires
        i < table@.len() == NUM_SECTIONS,
        forall|j: int| #![trigger table@[j]]
            0 <= j < NUM_SECTIONS ==> table@[j].0 == sec_start(b@, j) && table@[j].1 == sec_end(
                b@,
                j,
            ) && table@[j].0 <= table@[j].1 <= b@.len(),
    ensures
        r@ == section(b@, i as int),
{
    let (from, to) = table[i];
    vstd::slice::slice_subrange(b, from, to)
}

/// The name index: IDs, names and postings.
struct NameIndex {
    ids: Vec<u16>,
    table: Vec<(u64, u16)>,
    posting: Vec<Vec<u32>>,
}

/// Copies a part of a list.
fn copied(data: &Vec<u32>, from: usize, to: usize) -> (r: Vec<u32>)
    requires
        from <= to <= data@.len(),
    ensures
        r@ == data@.subrange(from as int, to as int),
{
    let mut out: Vec<u32> = Vec::new();
    let mut i: usize = from;
    assert(out@ =~= data@.subrange(from as int, i as int));
    while i < to
        invariant
            from <= i <= to <= data@.len(),
            out@ == data@.subrange(from as int, i as int),
        decreases to - i,
    {
        out.push(data[i]);
        assert(out@ =~= data@.subrange(from as int, i + 1));
        i += 1;
    }
    out
}

/// The lists of a list of vectors.
pub open spec fn lists_of(v: Seq<Vec<u32>>) -> Seq<Seq<u32>> {
    Seq::new(v.len(), |i: int| v[i]@)
}

/// Reads the name index, or `None` when it points outside its section.
fn read_name_section(data: &[u8], tag_count: usize, name_count: usize, Ghost(b): Ghost<Seq<u8>>) -> (r:
    Option<NameIndex>)
    requires
        data@ == section(b, 13),
        tag_count == tag_total(b),
        name_count == name_total(b),
        tag_count < 0x1_0000_0000,
        name_count < 0x1_0000,
        has_names(b),
    ensures
        match r {
            Some(names) => {
                &&& names.ids@ == decoded(b).name_ids
                &&& names.table@ == decoded(b).name_table
                &&& lists_of(names.posting@) == decoded(b).name_posting
                &&& postings_at(b) <= data@.len()
                &&& forall|i: int| #![trigger posting_offsets(b)[i]]
                    0 <= i < name_total(b) ==> posting_offsets(b)[i] <= posting_offsets(b)[i + 1]
                        <= posting_data(b).len()
            },
            None => !(postings_at(b) <= data@.len() && forall|i: int| #![trigger posting_offsets(b)[i]]
                0 <= i < name_total(b) ==> posting_offsets(b)[i] <= posting_offsets(b)[i + 1]
                    <= posting_data(b).len()),
        },
{
    let n: usize = data.len();
    let table_start: u64 = 2 * tag_count as u64;
    let offsets_start: u64 = table_start + 10 * name_count as u64;
    let postings_start: u64 = offsets_start + 4 * (name_count as u64 + 1);
    if postings_start > n as u64 {
        return None;
    }
    let table_data = vstd::slice::slice_subrange(data, table_start as usize, n);
    let offsets_data = vstd::slice::slice_subrange(data, offsets_start as usize, n);
    let postings_data = vstd::slice::slice_subrange(data, postings_start as usize, n);
    assert(table_data@ =~= data@.skip(table_at(b)));
    assert(offsets_data@ =~= data@.skip(offsets_at(b)));
    assert(postings_data@ =~= data@.skip(postings_at(b)));
    let ids = read_u16_vec(data, tag_count);
    let table = read_tag_names(table_data, name_count);
    let offsets = read_u32_vec(offsets_data, name_count + 1);
    assert(offsets@ == posting_offsets(b));
    assert(offsets@.len() == name_count + 1);
    let total: usize = offsets[name_count] as usize;
    let postings = read_u32_vec(postings_data, total);
    assert(postings@ == posting_data(b));
    let mut posting: Vec<Vec<u32>> = Vec::new();
    let mut i: usize = 0;
    let ghost lists = decoded(b).name_posting;
    while i < name_count
        invariant
            i <= name_count,
            name_count == name_total(b),
            has_names(b),
            offsets@ == posting_offsets(b),
            offsets@.len() == name_count + 1,
            postings@ == posting_data(b),
            lists == decoded(b).name_posting,
            lists_of(posting@) == lists.take(i as int),
            forall|j: int| #![trigger posting_offsets(b)[j]]
                0 <= j < i ==> posting_offsets(b)[j] <= posting_offsets(b)[j + 1]
                    <= posting_data(b).len(),
        decreases name_count - i,
    {
        let start: usize = offsets[i] as usize;
        let end: usize = offsets[i + 1] as usize;
        if start > end || end > postings.len() {
            assert(!(posting_offsets(b)[i as int] <= posting_offsets(b)[i + 1]
                <= posting_data(b).len()));
            return None;
        }
        let list = copied(&postings, start, end);
        let ghost held = lists_of(posting@);
        assert(lists[i as int] == list@);
        posting.push(list);
        assert(lists_of(posting@) =~= held.push(list@));
        assert(lists_of(posting@) =~= lists.take(i + 1));
        i += 1;
    }
    assert(lists.take(name_count as int) =~= lists);
    Some(NameIndex { ids, table, posting })
}

/// Loads an index from an `.sxi` image and the XML bytes it was made of.
/// Refuses an image that is too small, has the wrong magic bytes or version, was
/// made of other XML bytes, or is corrupt.
pub fn load_index_with_xml<'a>(sxi_bytes: &[u8], xml_bytes: &'a [u8]) -> (r: std::result::Result<
    XmlIndex<'a>,
    SimdXmlError,
>)
    ensures
        match r {
            Ok(index) => {
                &&& refusal(sxi_bytes@, xml_bytes@) is None
                &&& index.input@ == xml_bytes@
                &&& index.stored() == decoded(sxi_bytes@)
                &&& index.wf()
            },
            Err(e) => refusal(sxi_bytes@, xml_bytes@) matches Some(why) && reports(e, why),
        },
{
    let ghost b = sxi_bytes@;
    if sxi_bytes.len() < PREFIX_SIZE {
        return Err(invalid("file too small"));
    }
    if !has_magic(sxi_bytes) {
        return Err(invalid("bad magic bytes"));
    }
    proof {
        lemma_pow256();
    }
    let version: u128 = read_le(sxi_bytes, 4, 4);
    if version != VERSION as u128 {
        let mut message = String::from_str("unsupported version ");
        let number = decimal(version as u64);
        message.append(number.as_str());
        return Err(SimdXmlError::InvalidSxi(message));
    }
    let stored_hash: u128 = read_le(sxi_bytes, 8, 8);
    let actual_hash: u64 = content_hash(xml_bytes);
    if stored_hash != actual_hash as u128 {
        return Err(SimdXmlError::StaleSxi);
    }
    let tag_count: usize = read_le(sxi_bytes, 16, 4) as usize;
    let text_count: usize = read_le(sxi_bytes, 20, 4) as usize;
    let name_count: usize = read_le(sxi_bytes, 24, 2) as usize;
    let flags: u128 = read_le(sxi_bytes, 26, 2);
    let has_name_index = flags % 2 == 1 && name_count > 0;
    let table = match section_table(sxi_bytes) {
        Some(table) => table,
        None => {
            return Err(invalid("corrupt section table"));
        },
    };
    let types_data = section_slice(sxi_bytes, &table, 2);
    if types_data.len() < tag_count {
        return Err(invalid("corrupt section table"));
    }
    assert forall|i: int| 0 <= i < NUM_SECTIONS implies #[trigger] sec_start(b, i) <= sec_end(b, i) by {
        assert(table@[i].0 <= table@[i].1);
    }
    let names: NameIndex = if has_name_index {
        match read_name_section(
            section_slice(sxi_bytes, &table, 13),
            tag_count,
            name_count,
            Ghost(b),
        ) {
            Some(names) => names,
            None => {
                return Err(invalid("corrupt section table"));
            },
        }
    } else {
        NameIndex { ids: Vec::new(), table: Vec::new(), posting: Vec::new() }
    };
    assert(readable(b));
    let child_offsets_data = section_slice(sxi_bytes, &table, 7);
    let child_data_data = section_slice(sxi_bytes, &table, 8);
    let text_child_offsets_data = section_slice(sxi_bytes, &table, 9);
    let text_child_data_data = section_slice(sxi_bytes, &table, 10);
    let index = XmlIndex {
        input: xml_bytes,
        tag_starts: read_u64_vec(section_slice(sxi_bytes, &table, 0), tag_count),
        tag_ends: read_u64_vec(section_slice(sxi_bytes, &table, 1), tag_count),
        tag_types: read_types(types_data, tag_count),
        tag_names: read_tag_names(section_slice(sxi_bytes, &table, 3), tag_count),
        depths: read_u16_vec(section_slice(sxi_bytes, &table, 4), tag_count),
        parents: read_u32_vec(section_slice(sxi_bytes, &table, 5), tag_count),
        text_ranges: read_text_ranges(section_slice(sxi_bytes, &table, 6), text_count),
        child_offsets: read_u32_vec(child_offsets_data, child_offsets_data.len()),
        child_data: read_u32_vec(child_data_data, child_data_data.len()),
        text_child_offsets: read_u32_vec(text_child_offsets_data, text_child_offsets_data.len()),
        text_child_data: read_u32_vec(text_child_data_data, text_child_data_data.len()),
        close_map: read_u32_vec(section_slice(sxi_bytes, &table, 11), tag_count),
        post_order: read_u32_vec(section_slice(sxi_bytes, &table, 12), tag_count),
        name_ids: names.ids,
        name_table: names.table,
        name_posting: names.posting,
    };
    proof {
        assert(index.stored().name_posting =~= decoded(b).name_posting) by {
            if has_name_index {
                assert(index.stored().name_posting =~= lists_of(names.posting@));
            }
        }
        assert(index.stored() =~= decoded(b));
        lemma_stored_wf(index);
    }
    if !is_consistent(&index) {
        return Err(invalid("inconsistent index"));
    }
    Ok(index)
}

} // verus!
