//! Per-document bloom filter of tag names.
//!
//! A 128-bit filter with two hash functions. A document whose filter lacks a
//! name holds no element of that name and can be skipped without parsing.

pub mod laws;

use vstd::prelude::*;
use vstd::utf8::*;
use crate::bytes::{find_byte, is_byte, scan_to};
use crate::endian::{
    le_bytes, le_value, lemma_le_bytes_len, lemma_le_bytes_of_value, lemma_le_round_trip,
    lemma_pow256, push_le, read_le,
};
use crate::index::XmlIndex;

verus! {

/// 128-bit bloom filter for tag names.
#[derive(Debug, Clone, Copy, PartialEq, Eq, Structural)]
pub struct TagBloom(pub u128);

/// The 32-bit FNV-1a hash of the first `k` bytes, from a seed.
pub open spec fn fnv32(seed: u32, bytes: Seq<u8>, k: int) -> u32
    decreases k,
{
    if k <= 0 {
        seed
    } else {
        let h = fnv32(seed, bytes, k - 1) ^ (bytes[k - 1] as u32);
        ((h * 0x01000193) % 0x1_0000_0000) as u32
    }
}

/// The two bits that a name occupies.
pub open spec fn name_mask(name: Seq<u8>) -> u128 {
    (1u128 << (fnv32(0x811c9dc5, name, name.len() as int) % 128)) | (1u128 << (fnv32(
        0x050c5d1f,
        name,
        name.len() as int,
    ) % 128))
}

/// Whether all bits of the mask are set.
pub open spec fn covers(bits: u128, mask: u128) -> bool {
    bits & mask == mask
}

/// The filter that holds these names and no others.
pub open spec fn filter_of(names: Seq<Seq<u8>>) -> u128
    decreases names.len(),
{
    if names.len() == 0 {
        0
    } else {
        filter_of(names.drop_last()) | name_mask(names.last())
    }
}

/// The nonempty names of the first `k` tags.
pub open spec fn tag_names_of(index: XmlIndex, k: int) -> Seq<Seq<u8>>
    decreases k,
{
    if k <= 0 {
        Seq::empty()
    } else if index.name_text(k - 1).len() == 0 {
        tag_names_of(index, k - 1)
    } else {
        tag_names_of(index, k - 1).push(encode_utf8(index.name_text(k - 1)))
    }
}

/// Bytes that end a name in a prescan.
pub open spec fn ends_scanned_name() -> spec_fn(u8) -> bool {
    |b: u8| b == 0x20 || b == 0x09 || b == 0x0a || b == 0x0d || b == 0x3e || b == 0x2f
}

/// The names that stand behind a `<` from position `p` on. A `<` before `/`,
/// `!` or `?` starts no name.
pub open spec fn scanned_names(s: Seq<u8>, p: int) -> Seq<Seq<u8>>
    decreases s.len() - p,
{
    let q = scan_to(s, p, is_byte(0x3c));
    if p < 0 || q < p || q + 1 >= s.len() {
        Seq::empty()
    } else if s[q + 1] == 0x2f || s[q + 1] == 0x21 || s[q + 1] == 0x3f {
        scanned_names(s, q + 1)
    } else {
        let end = scan_to(s, q + 1, ends_scanned_name());
        if q + 1 < end <= s.len() {
            seq![s.subrange(q + 1, end)] + scanned_names(s, end)
        } else {
            scanned_names(s, q + 1)
        }
    }
}

fn seeded_hash(name: &[u8], seed: u32) -> (h: u32)
    ensures
        h == fnv32(seed, name@, name@.len() as int),
{
    let n: usize = name.len();
    let mut h: u32 = seed;
    let mut i: usize = 0;
    while i < n
        invariant
            n == name@.len(),
            i <= n,
            h == fnv32(seed, name@, i as int),
        decreases n - i,
    {
        h = (h ^ (name[i] as u32)).wrapping_mul(0x01000193);
        i += 1;
    }
    h
}

/// Two hashes of a name: FNV-1a with different seeds.
fn hash_pair(name: &[u8]) -> (r: (u32, u32))
    ensures
        r.0 == fnv32(0x811c9dc5, name@, name@.len() as int),
        r.1 == fnv32(0x050c5d1f, name@, name@.len() as int),
{
    (seeded_hash(name, 0x811c9dc5), seeded_hash(name, 0x050c5d1f))
}

impl TagBloom {
    /// Empty bloom filter.
    pub fn empty() -> (r: TagBloom)
        ensures
            r.0 == filter_of(Seq::empty()),
            r.0 == 0,
    {
        TagBloom(0)
    }

    /// Inserts a tag name.
    pub fn insert(&mut self, name: &[u8])
        ensures
            final(self).0 == old(self).0 | name_mask(name@),
    {
        let (h1, h2) = hash_pair(name);
        let mask: u128 = (1u128 << (h1 % 128)) | (1u128 << (h2 % 128));
        self.0 = self.0 | mask;
    }

    /// Whether a tag name might be in the filter. False positives are possible;
    /// false negatives are not.
    pub fn may_contain(&self, name: &[u8]) -> (r: bool)
        ensures
            r == covers(self.0, name_mask(name@)),
    {
        let (h1, h2) = hash_pair(name);
        let mask: u128 = (1u128 << (h1 % 128)) | (1u128 << (h2 % 128));
        self.0 & mask == mask
    }

    /// Whether any of the names might be in the filter.
    pub fn may_contain_any(&self, names: &[&[u8]]) -> (r: bool)
        ensures
            r == exists|i: int|
                0 <= i < names@.len() && covers(self.0, name_mask(#[trigger] names@[i]@)),
    {
        let n: usize = names.len();
        let mut i: usize = 0;
        while i < n
            invariant
                n == names@.len(),
                i <= n,
                forall|j: int|
                    0 <= j < i ==> !covers(self.0, name_mask(#[trigger] names@[j]@)),
            decreases n - i,
        {
            if self.may_contain(names[i]) {
                assert(covers(self.0, name_mask(names@[i as int]@)));
                return true;
            }
            i += 1;
        }
        false
    }

    /// The filter of the nonempty tag names of an index.
    pub fn from_index(index: &XmlIndex) -> (r: TagBloom)
        requires
            index.wf(),
        ensures
            r.0 == filter_of(tag_names_of(*index, index.tags() as int)),
    {
        let mut bloom = TagBloom(0);
        let n: usize = index.tag_count();
        let mut i: usize = 0;
        while i < n
            invariant
                index.wf(),
                n == index.tags(),
                i <= n,
                bloom.0 == filter_of(tag_names_of(*index, i as int)),
            decreases n - i,
        {
            let name = index.tag_name(i);
            if !name.is_empty() {
                bloom.insert(name.as_bytes());
                assert(tag_names_of(*index, i + 1).drop_last() =~= tag_names_of(*index, i as int));
            }
            i += 1;
        }
        bloom
    }

    /// The filter of the names found by scanning XML bytes for `<` without
    /// parsing them.
    pub fn from_prescan(input: &[u8]) -> (r: TagBloom)
        ensures
            r.0 == filter_of(scanned_names(input@, 0)),
    {
        let n: usize = input.len();
        let ghost s = input@;
        let ghost mut done: Seq<Seq<u8>> = Seq::empty();
        let mut bloom = TagBloom(0);
        let mut pos: usize = 0;
        assert(done + scanned_names(s, 0) =~= scanned_names(s, 0));
        while pos < n
            invariant
                n == s.len(),
                s == input@,
                pos <= n,
                bloom.0 == filter_of(done),
                done + scanned_names(s, pos as int) == scanned_names(s, 0),
            decreases n - pos,
        {
            let q: usize = find_byte(input, pos, 0x3c);
            if q >= n - 1 {
                assert(done + scanned_names(s, pos as int) =~= done);
                return bloom;
            }
            let b: u8 = input[q + 1];
            if b == 0x2f || b == 0x21 || b == 0x3f {
                pos = q + 1;
            } else {
                let end: usize = scanned_name_end(input, q + 1);
                if end > q + 1 {
                    let name = vstd::slice::slice_subrange(input, q + 1, end);
                    bloom.insert(name);
                    proof {
                        let rest = scanned_names(s, end as int);
                        assert(done + (seq![name@] + rest) =~= done.push(name@) + rest);
                        assert(done.push(name@).drop_last() =~= done);
                        done = done.push(name@);
                    }
                    pos = end;
                } else {
                    pos = q + 1;
                }
            }
        }
        assert(done + scanned_names(s, pos as int) =~= done);
        bloom
    }

    /// The 16 bytes of the filter, least significant first.
    pub fn to_bytes(&self) -> (r: [u8; 16])
        ensures
            r@ == le_bytes(self.0 as int, 16),
    {
        let mut bytes: Vec<u8> = Vec::new();
        push_le(&mut bytes, self.0, 16);
        assert(bytes@ =~= le_bytes(self.0 as int, 16));
        proof {
            lemma_le_bytes_len(self.0 as int, 16);
        }
        let mut out: [u8; 16] = [0u8; 16];
        let mut i: usize = 0;
        while i < 16
            invariant
                i <= 16,
                bytes@.len() == 16,
                forall|j: int| 0 <= j < i ==> #[trigger] out@[j] == bytes@[j],
            decreases 16 - i,
        {
            out[i] = bytes[i];
            i += 1;
        }
        assert(out@ =~= bytes@);
        out
    }

    /// The filter with these bytes, least significant first.
    pub fn from_bytes(bytes: [u8; 16]) -> (r: TagBloom)
        ensures
            r.0 == le_value(bytes@),
    {
        let value: u128 = read_le(&bytes, 0, 16);
        assert(bytes@.subrange(0, 16) =~= bytes@);
        TagBloom(value)
    }
}

/// End of the name that starts at `from`, for a prescan.
fn scanned_name_end(s: &[u8], from: usize) -> (r: usize)
    requires
        from <= s@.len(),
    ensures
        r == scan_to(s@, from as int, ends_scanned_name()),
        from <= r <= s@.len(),
{
    let mut pos: usize = from;
    while pos < s.len() && s[pos] != 0x20 && s[pos] != 0x09 && s[pos] != 0x0a && s[pos] != 0x0d
        && s[pos] != 0x3e && s[pos] != 0x2f
        invariant
            from <= pos <= s@.len(),
            scan_to(s@, from as int, ends_scanned_name()) == scan_to(
                s@,
                pos as int,
                ends_scanned_name(),
            ),
        decreases s@.len() - pos,
    {
        pos += 1;
    }
    pos
}

/// A name is found in a filter once it is inserted, and stays found whatever
/// is inserted after it.
pub proof fn lemma_insert_keeps(bits: u128, mask: u128, name: Seq<u8>)
    ensures
        covers(bits | name_mask(name), name_mask(name)),
        covers(bits, mask) ==> covers(bits | name_mask(name), mask),
{
    let m = name_mask(name);
    assert((bits | m) & m == m) by (bit_vector);
    assert(bits & mask == mask ==> (bits | m) & mask == mask) by (bit_vector);
}

/// A filter has no false negatives: every name that it was made of is found.
pub proof fn lemma_no_false_negatives(names: Seq<Seq<u8>>, i: int)
    requires
        0 <= i < names.len(),
    ensures
        covers(filter_of(names), name_mask(names[i])),
    decreases names.len(),
{
    lemma_insert_keeps(filter_of(names.drop_last()), name_mask(names[i]), names.last());
    if i < names.len() - 1 {
        lemma_no_false_negatives(names.drop_last(), i);
    }
}

/// The empty filter rejects every name.
pub proof fn lemma_empty_rejects(name: Seq<u8>)
    ensures
        !covers(filter_of(Seq::empty()), name_mask(name)),
{
    let a: u32 = fnv32(0x811c9dc5, name, name.len() as int) % 128;
    let b: u32 = fnv32(0x050c5d1f, name, name.len() as int) % 128;
    let m = name_mask(name);
    assert(a < 128 ==> (1u128 << a) | (1u128 << b) != 0) by (bit_vector);
    assert(0u128 & m == 0) by (bit_vector);
}

/// A filter survives the conversion to bytes and back, and so do bytes.
pub proof fn lemma_bloom_round_trip(bloom: TagBloom, bytes: Seq<u8>)
    requires
        bytes.len() == 16,
    ensures
        le_value(le_bytes(bloom.0 as int, 16)) == bloom.0,
        le_bytes(le_value(bytes), 16) == bytes,
{
    lemma_pow256();
    lemma_le_round_trip(bloom.0 as int, 16);
    lemma_le_bytes_of_value(bytes);
}

/// A name occupies one bit or two.
pub proof fn lemma_name_bits(name: Seq<u8>) -> (at: (u128, u128))
    ensures
        at.0 < 128,
        at.1 < 128,
        name_mask(name) == (1u128 << at.0) | (1u128 << at.1),
{
    (
        (fnv32(0x811c9dc5, name, name.len() as int) % 128) as u128,
        (fnv32(0x050c5d1f, name, name.len() as int) % 128) as u128,
    )
}

} // verus!
