//! What an `.sxi` image of an index consists of, and writing one.

use vstd::prelude::*;
use crate::bloom::{filter_of, tag_names_of, TagBloom};
use crate::endian::{le_bytes, push_le};
use crate::index::{TagType, TextRange, XmlIndex};

verus! {

/// Format version.
pub const VERSION: u32 = 2;

/// Bytes of the header.
pub const HEADER_SIZE: usize = 64;

/// Number of sections.
pub const NUM_SECTIONS: usize = 14;

/// Bytes of the header and the offset table.
pub const PREFIX_SIZE: usize = 176;

/// The first bytes of an image: "SXI" and 1.
pub open spec fn magic() -> Seq<u8> {
    seq![0x53u8, 0x58u8, 0x49u8, 0x01u8]
}

/// The 64-bit hash of a byte string that `xxhash_rust::xxh3::xxh3_64` computes.
pub uninterp spec fn xxh3(data: Seq<u8>) -> u64;

/// Content hash for staleness detection, computed by
/// `xxhash_rust::xxh3::xxh3_64`. The hash is a function of the bytes alone; it is
/// named here and not described further.
#[verifier::external_body]
pub(crate) fn content_hash(data: &[u8]) -> (r: u64)
    ensures
        r == xxh3(data@),
{
    xxhash_rust::xxh3::xxh3_64(data)
}

/// The encodings of the entries, one after the other.
pub open spec fn packed<T>(v: Seq<T>, enc: spec_fn(T) -> Seq<u8>) -> Seq<u8>
    decreases v.len(),
{
    if v.len() == 0 {
        Seq::empty()
    } else {
        packed(v.drop_last(), enc) + enc(v.last())
    }
}

pub open spec fn enc64() -> spec_fn(u64) -> Seq<u8> {
    |x: u64| le_bytes(x as int, 8)
}

pub open spec fn enc32() -> spec_fn(u32) -> Seq<u8> {
    |x: u32| le_bytes(x as int, 4)
}

pub open spec fn enc16() -> spec_fn(u16) -> Seq<u8> {
    |x: u16| le_bytes(x as int, 2)
}

/// The number that stands for a tag type.
pub open spec fn type_code(t: TagType) -> u8 {
    match t {
        TagType::Open => 0,
        TagType::Close => 1,
        TagType::SelfClose => 2,
        TagType::Comment => 3,
        TagType::CData => 4,
        TagType::PI => 5,
    }
}

pub open spec fn enc_type() -> spec_fn(TagType) -> Seq<u8> {
    |t: TagType| seq![type_code(t)]
}

/// A name is stored as its offset and its length.
pub open spec fn enc_name() -> spec_fn((u64, u16)) -> Seq<u8> {
    |x: (u64, u16)| le_bytes(x.0 as int, 8) + le_bytes(x.1 as int, 2)
}

/// A text range is stored as start, end and parent.
pub open spec fn enc_text() -> spec_fn(TextRange) -> Seq<u8> {
    |x: TextRange|
        le_bytes(x.start as int, 8) + le_bytes(x.end as int, 8) + le_bytes(x.parent_tag as int, 4)
}

/// All lists one after the other.
pub open spec fn flat(lists: Seq<Vec<u32>>) -> Seq<u32>
    decreases lists.len(),
{
    if lists.len() == 0 {
        Seq::empty()
    } else {
        flat(lists.drop_last()) + lists.last()@
    }
}

/// Where each list starts in the flat sequence, and where the last one ends.
pub open spec fn list_offsets(lists: Seq<Vec<u32>>) -> Seq<u32> {
    Seq::new(lists.len() + 1, |i: int| flat(lists.take(i)).len() as u32)
}

/// The name index: the ID of each tag, the name of each ID, and the tags of each
/// ID as offsets and data. Empty when there is no name index.
pub open spec fn name_section(index: XmlIndex) -> Seq<u8> {
    if index.name_ids@.len() == 0 {
        Seq::empty()
    } else {
        packed(index.name_ids@, enc16()) + packed(index.name_table@, enc_name()) + packed(
            list_offsets(index.name_posting@),
            enc32(),
        ) + packed(flat(index.name_posting@), enc32())
    }
}

/// The sections of an image.
pub open spec fn sections(index: XmlIndex) -> Seq<Seq<u8>> {
    seq![
        packed(index.tag_starts@, enc64()),
        packed(index.tag_ends@, enc64()),
        packed(index.tag_types@, enc_type()),
        packed(index.tag_names@, enc_name()),
        packed(index.depths@, enc16()),
        packed(index.parents@, enc32()),
        packed(index.text_ranges@, enc_text()),
        packed(index.child_offsets@, enc32()),
        packed(index.child_data@, enc32()),
        packed(index.text_child_offsets@, enc32()),
        packed(index.text_child_data@, enc32()),
        packed(index.close_map@, enc32()),
        packed(index.post_order@, enc32()),
        name_section(index),
    ]
}

/// The sections one after the other.
pub open spec fn body(secs: Seq<Seq<u8>>) -> Seq<u8>
    decreases secs.len(),
{
    if secs.len() == 0 {
        Seq::empty()
    } else {
        body(secs.drop_last()) + secs.last()
    }
}

/// Where section `i` starts in the image.
pub open spec fn section_start(secs: Seq<Seq<u8>>, i: int) -> int {
    PREFIX_SIZE + body(secs.take(i)).len()
}

/// Where the first `k` sections start, in bytes.
pub open spec fn offset_table(secs: Seq<Seq<u8>>, k: int) -> Seq<u8>
    decreases k,
{
    if k <= 0 {
        Seq::empty()
    } else {
        offset_table(secs, k - 1) + le_bytes(section_start(secs, k - 1), 8)
    }
}

/// The number of names that the header tells.
pub open spec fn name_count(index: XmlIndex) -> int {
    if index.name_ids@.len() > 0 {
        index.name_table@.len() as int
    } else {
        0
    }
}

/// The flags that the header tells.
pub open spec fn flags(index: XmlIndex) -> int {
    if index.name_ids@.len() > 0 {
        3
    } else {
        2
    }
}

/// The header of an image. Counts that do not fit keep their low bytes.
pub open spec fn header(index: XmlIndex, hash: u64) -> Seq<u8> {
    magic() + le_bytes(VERSION as int, 4) + le_bytes(hash as int, 8) + le_bytes(
        index.tags() as int,
        4,
    ) + le_bytes(index.text_ranges@.len() as int, 4) + le_bytes(name_count(index), 2) + le_bytes(
        flags(index),
        2,
    ) + le_bytes(filter_of(tag_names_of(index, index.tags() as int)) as int, 16) + Seq::new(
        20,
        |i: int| 0u8,
    )
}

/// The `.sxi` image of an index of a document with this hash.
pub open spec fn image(index: XmlIndex, hash: u64) -> Seq<u8> {
    header(index, hash) + offset_table(sections(index), NUM_SECTIONS as int) + body(
        sections(index),
    )
}

fn write_u64_slice(data: &Vec<u64>) -> (out: Vec<u8>)
    ensures
        out@ == packed(data@, enc64()),
{
    let mut out: Vec<u8> = Vec::new();
    let n: usize = data.len();
    let mut i: usize = 0;
    assert(out@ =~= packed(data@.take(0), enc64()));
    while i < n
        invariant
            n == data@.len(),
            i <= n,
            out@ == packed(data@.take(i as int), enc64()),
        decreases n - i,
    {
        push_le(&mut out, data[i] as u128, 8);
        assert(data@.take(i + 1).drop_last() =~= data@.take(i as int));
        i += 1;
    }
    assert(data@.take(n as int) =~= data@);
    out
}

fn write_u32_slice(data: &Vec<u32>) -> (out: Vec<u8>)
    ensures
        out@ == packed(data@, enc32()),
{
    let mut out: Vec<u8> = Vec::new();
    let n: usize = data.len();
    let mut i: usize = 0;
    assert(out@ =~= packed(data@.take(0), enc32()));
    while i < n
        invariant
            n == data@.len(),
            i <= n,
            out@ == packed(data@.take(i as int), enc32()),
        decreases n - i,
    {
        push_le(&mut out, data[i] as u128, 4);
        assert(data@.take(i + 1).drop_last() =~= data@.take(i as int));
        i += 1;
    }
    assert(data@.take(n as int) =~= data@);
    out
}

fn write_u16_slice(data: &Vec<u16>) -> (out: Vec<u8>)
    ensures
        out@ == packed(data@, enc16()),
{
    let mut out: Vec<u8> = Vec::new();
    let n: usize = data.len();
    let mut i: usize = 0;
    assert(out@ =~= packed(data@.take(0), enc16()));
    while i < n
        invariant
            n == data@.len(),
            i <= n,
            out@ == packed(data@.take(i as int), enc16()),
        decreases n - i,
    {
        push_le(&mut out, data[i] as u128, 2);
        assert(data@.take(i + 1).drop_last() =~= data@.take(i as int));
        i += 1;
    }
    assert(data@.take(n as int) =~= data@);
    out
}

fn write_types(data: &Vec<TagType>) -> (out: Vec<u8>)
    ensures
        out@ == packed(data@, enc_type()),
{
    let mut out: Vec<u8> = Vec::new();
    let n: usize = data.len();
    let mut i: usize = 0;
    assert(out@ =~= packed(data@.take(0), enc_type()));
    while i < n
        invariant
            n == data@.len(),
            i <= n,
            out@ == packed(data@.take(i as int), enc_type()),
        decreases n - i,
    {
        let ghost before = out@;
        let code: u8 = match data[i] {
            TagType::Open => 0,
            TagType::Close => 1,
            TagType::SelfClose => 2,
            TagType::Comment => 3,
            TagType::CData => 4,
            TagType::PI => 5,
        };
        out.push(code);
        assert(out@ =~= before + seq![code]);
        assert(data@.take(i + 1).drop_last() =~= data@.take(i as int));
        i += 1;
    }
    assert(data@.take(n as int) =~= data@);
    out
}

fn write_names(data: &Vec<(u64, u16)>) -> (out: Vec<u8>)
    ensures
        out@ == packed(data@, enc_name()),
{
    let mut out: Vec<u8> = Vec::new();
    let n: usize = data.len();
    let mut i: usize = 0;
    assert(out@ =~= packed(data@.take(0), enc_name()));
    while i < n
        invariant
            n == data@.len(),
            i <= n,
            out@ == packed(data@.take(i as int), enc_name()),
        decreases n - i,
    {
        let ghost before = out@;
        let (offset, len) = data[i];
        push_le(&mut out, offset as u128, 8);
        push_le(&mut out, len as u128, 2);
        assert(out@ =~= before + (le_bytes(offset as int, 8) + le_bytes(len as int, 2)));
        assert(data@.take(i + 1).drop_last() =~= data@.take(i as int));
        i += 1;
    }
    assert(data@.take(n as int) =~= data@);
    out
}

fn write_texts(data: &Vec<TextRange>) -> (out: Vec<u8>)
    ensures
        out@ == packed(data@, enc_text()),
{
    let mut out: Vec<u8> = Vec::new();
    let n: usize = data.len();
    let mut i: usize = 0;
    assert(out@ =~= packed(data@.take(0), enc_text()));
    while i < n
        invariant
            n == data@.len(),
            i <= n,
            out@ == packed(data@.take(i as int), enc_text()),
        decreases n - i,
    {
        let ghost before = out@;
        let t = data[i];
        push_le(&mut out, t.start as u128, 8);
        push_le(&mut out, t.end as u128, 8);
        push_le(&mut out, t.parent_tag as u128, 4);
        assert(out@ =~= before + (le_bytes(t.start as int, 8) + le_bytes(t.end as int, 8)
            + le_bytes(t.parent_tag as int, 4)));
        assert(data@.take(i + 1).drop_last() =~= data@.take(i as int));
        i += 1;
    }
    assert(data@.take(n as int) =~= data@);
    out
}

/// Appends bytes.
fn push_all(out: &mut Vec<u8>, data: &Vec<u8>)
    ensures
        final(out)@ == old(out)@ + data@,
{
    let ghost before = out@;
    let n: usize = data.len();
    let mut i: usize = 0;
    assert(out@ =~= before + data@.take(0));
    while i < n
        invariant
            n == data@.len(),
            i <= n,
            out@ == before + data@.take(i as int),
        decreases n - i,
    {
        out.push(data[i]);
        assert(out@ =~= before + data@.take(i + 1));
        i += 1;
    }
    assert(data@.take(n as int) =~= data@);
}

proof fn lemma_flat_take(lists: Seq<Vec<u32>>, i: int)
    requires
        0 <= i < lists.len(),
    ensures
        flat(lists.take(i + 1)) == flat(lists.take(i)) + lists[i]@,
        flat(lists.take(i + 1)).len() <= flat(lists).len(),
    decreases lists.len() - i,
{
    assert(lists.take(i + 1).drop_last() =~= lists.take(i));
    if i + 1 < lists.len() {
        lemma_flat_take(lists, i + 1);
    } else {
        assert(lists.take(i + 1) =~= lists);
    }
}

/// Offsets and flat data of the lists.
fn flatten(lists: &Vec<Vec<u32>>) -> (r: (Vec<u32>, Vec<u32>))
    requires
        flat(lists@).len() <= u32::MAX,
    ensures
        r.0@ == list_offsets(lists@),
        r.1@ == flat(lists@),
{
    let mut offsets: Vec<u32> = Vec::new();
    let mut data: Vec<u32> = Vec::new();
    let n: usize = lists.len();
    let mut i: usize = 0;
    assert(data@ =~= flat(lists@.take(0)));
    while i < n
        invariant
            n == lists@.len(),
            i <= n,
            flat(lists@).len() <= u32::MAX,
            data@ == flat(lists@.take(i as int)),
            data@.len() <= u32::MAX,
            offsets@ == list_offsets(lists@).take(i as int),
        decreases n - i,
    {
        offsets.push(data.len() as u32);
        assert(offsets@ =~= list_offsets(lists@).take(i + 1));
        proof {
            lemma_flat_take(lists@, i as int);
        }
        let list = &lists[i];
        let ghost before = data@;
        let m: usize = list.len();
        let mut j: usize = 0;
        assert(data@ =~= before + list@.take(0));
        while j < m
            invariant
                m == list@.len(),
                j <= m,
                data@ == before + list@.take(j as int),
            decreases m - j,
        {
            data.push(list[j]);
            assert(data@ =~= before + list@.take(j + 1));
            j += 1;
        }
        assert(list@.take(m as int) =~= list@);
        i += 1;
    }
    assert(lists@.take(n as int) =~= lists@);
    offsets.push(data.len() as u32);
    assert(offsets@ =~= list_offsets(lists@));
    (offsets, data)
}

fn write_name_section(index: &XmlIndex) -> (out: Vec<u8>)
    requires
        flat(index.name_posting@).len() <= u32::MAX,
    ensures
        out@ == name_section(*index),
{
    if index.name_ids.len() == 0 {
        return Vec::new();
    }
    let (offsets, data) = flatten(&index.name_posting);
    let mut out = write_u16_slice(&index.name_ids);
    push_all(&mut out, &write_names(&index.name_table));
    push_all(&mut out, &write_u32_slice(&offsets));
    push_all(&mut out, &write_u32_slice(&data));
    out
}

/// The values of a list of byte vectors.
pub open spec fn byte_lists(v: Seq<Vec<u8>>) -> Seq<Seq<u8>> {
    Seq::new(v.len(), |i: int| v[i]@)
}

fn write_sections(index: &XmlIndex) -> (r: Vec<Vec<u8>>)
    requires
        flat(index.name_posting@).len() <= u32::MAX,
    ensures
        byte_lists(r@) == sections(*index),
{
    let mut secs: Vec<Vec<u8>> = Vec::new();
    secs.push(write_u64_slice(&index.tag_starts));
    secs.push(write_u64_slice(&index.tag_ends));
    secs.push(write_types(&index.tag_types));
    secs.push(write_names(&index.tag_names));
    secs.push(write_u16_slice(&index.depths));
    secs.push(write_u32_slice(&index.parents));
    secs.push(write_texts(&index.text_ranges));
    secs.push(write_u32_slice(&index.child_offsets));
    secs.push(write_u32_slice(&index.child_data));
    secs.push(write_u32_slice(&index.text_child_offsets));
    secs.push(write_u32_slice(&index.text_child_data));
    secs.push(write_u32_slice(&index.close_map));
    secs.push(write_u32_slice(&index.post_order));
    secs.push(write_name_section(index));
    assert(byte_lists(secs@) =~= sections(*index));
    secs
}

fn write_header(index: &XmlIndex, hash: u64) -> (out: Vec<u8>)
    requires
        index.wf(),
    ensures
        out@ == header(*index, hash),
{
    let mut out: Vec<u8> = Vec::new();
    out.push(0x53);
    out.push(0x58);
    out.push(0x49);
    out.push(0x01);
    assert(out@ =~= magic());
    push_le(&mut out, VERSION as u128, 4);
    push_le(&mut out, hash as u128, 8);
    push_le(&mut out, index.tag_count() as u128, 4);
    push_le(&mut out, index.text_count() as u128, 4);
    let has_names = index.name_ids.len() > 0;
    let names: usize = if has_names {
        index.name_table.len()
    } else {
        0
    };
    push_le(&mut out, names as u128, 2);
    push_le(
        &mut out,
        if has_names {
            3
        } else {
            2
        },
        2,
    );
    push_le(&mut out, TagBloom::from_index(index).0, 16);
    let ghost filled = out@;
    let mut i: usize = 0;
    assert(out@ =~= filled + Seq::new(0, |k: int| 0u8));
    while i < 20
        invariant
            i <= 20,
            out@ == filled + Seq::new(i as nat, |k: int| 0u8),
        decreases 20 - i,
    {
        out.push(0);
        assert(out@ =~= filled + Seq::new((i + 1) as nat, |k: int| 0u8));
        i += 1;
    }
    out
}

/// The `.sxi` image of an index. The XML bytes are hashed for staleness
/// detection on later loads.
pub fn serialize_index(index: &XmlIndex, xml_bytes: &[u8]) -> (r: Vec<u8>)
    requires
        index.wf(),
        flat(index.name_posting@).len() <= u32::MAX,
    ensures
        r@ == image(*index, xxh3(xml_bytes@)),
{
    let hash: u64 = content_hash(xml_bytes);
    let mut out = write_header(index, hash);
    let secs = write_sections(index);
    let ghost s = sections(*index);
    let ghost head = out@;
    let mut all: Vec<u8> = Vec::new();
    let mut i: usize = 0;
    assert(all@ =~= body(s.take(0)));
    assert(out@ =~= head + offset_table(s, 0));
    while i < NUM_SECTIONS
        invariant
            i <= NUM_SECTIONS,
            byte_lists(secs@) == s,
            s.len() == NUM_SECTIONS,
            all@ == body(s.take(i as int)),
            out@ == head + offset_table(s, i as int),
        decreases NUM_SECTIONS - i,
    {
        let ghost before = out@;
        let start: u128 = PREFIX_SIZE as u128 + all.len() as u128;
        push_le(&mut out, start, 8);
        assert(out@ =~= head + (offset_table(s, i as int) + le_bytes(start as int, 8)));
        assert(s[i as int] == secs@[i as int]@);
        push_all(&mut all, &secs[i]);
        assert(s.take(i + 1).drop_last() =~= s.take(i as int));
        i += 1;
    }
    assert(s.take(NUM_SECTIONS as int) =~= s);
    push_all(&mut out, &all);
    out
}

} // verus!
