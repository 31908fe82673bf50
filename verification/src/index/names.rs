//! Name interning and the inverted name index.

use vstd::prelude::*;
use vstd::utf8::encode_utf8;
use crate::bytes::bytes_eq;
use crate::index::access::is_element_type;
use crate::index::structural::low16;
use crate::index::tables::{lemma_owned, owned};
use crate::index::{TagType, XmlIndex};

verus! {

/// The bytes that a table entry (offset, length) refers to.
pub open spec fn entry_bytes(input: Seq<u8>, e: (u64, u16)) -> Seq<u8> {
    input.subrange(e.0 as int, e.0 + e.1)
}

/// Every entry of the table lies inside the input.
pub open spec fn entries_in(input: Seq<u8>, table: Seq<(u64, u16)>) -> bool {
    forall|i: int| 0 <= i < table.len() ==> (#[trigger] table[i]).0 + table[i].1 <= input.len()
}

/// The least entry from `k` on that refers to the given bytes.
pub open spec fn entry_of(
    input: Seq<u8>,
    table: Seq<(u64, u16)>,
    name: Seq<u8>,
    k: int,
) -> Option<int>
    decreases table.len() - k,
{
    if k < 0 || k >= table.len() {
        None
    } else if entry_bytes(input, table[k]) == name {
        Some(k)
    } else {
        entry_of(input, table, name, k + 1)
    }
}

/// Interns tag names to 16-bit IDs: a table of the distinct names seen so far,
/// searched linearly.
pub struct NameInterner<'a> {
    pub input: &'a [u8],
    pub table: Vec<(u64, u16)>,
}

impl<'a> NameInterner<'a> {
    /// Every name in the table lies inside the input.
    pub open spec fn wf(&self) -> bool {
        entries_in(self.input@, self.table@)
    }

    pub fn new(input: &'a [u8]) -> (r: Self)
        ensures
            r.input == input,
            r.table@.len() == 0,
            r.wf(),
    {
        NameInterner { input, table: Vec::new() }
    }

    /// Interns a name: the ID of its entry, which is added when the name is
    /// new. IDs are the low 16 bits of the entry's position.
    pub fn intern(&mut self, name_bytes: &[u8], offset: u64, len: u16) -> (id: u16)
        requires
            old(self).wf(),
            offset + len <= old(self).input@.len(),
            name_bytes@ == entry_bytes(old(self).input@, (offset, len)),
        ensures
            final(self).wf(),
            final(self).input == old(self).input,
            match entry_of(old(self).input@, old(self).table@, name_bytes@, 0) {
                Some(k) => final(self).table@ == old(self).table@ && id == (k % 0x1_0000) as u16,
                None => final(self).table@ == old(self).table@.push((offset, len)) && id == (
                old(self).table@.len() as int % 0x1_0000) as u16,
            },
    {
        let n: usize = self.table.len();
        let m: usize = self.input.len();
        let mut i: usize = 0;
        while i < n
            invariant
                *self == *old(self),
                self.wf(),
                n == self.table@.len(),
                m == self.input@.len(),
                i <= n,
                entry_of(self.input@, self.table@, name_bytes@, 0) == entry_of(
                    self.input@,
                    self.table@,
                    name_bytes@,
                    i as int,
                ),
            decreases n - i,
        {
            let e = self.table[i];
            let known = vstd::slice::slice_subrange(
                self.input,
                e.0 as usize,
                e.0 as usize + e.1 as usize,
            );
            if bytes_eq(known, name_bytes) {
                return low16(i);
            }
            i += 1;
        }
        self.table.push((offset, len));
        low16(n)
    }

    /// The table of distinct names, in order of first appearance.
    pub fn into_table(self) -> (r: Vec<(u64, u16)>)
        ensures
            r@ == self.table@,
    {
        self.table
    }
}

/// Interning the names of the tags in order: the ID of each tag read so far,
/// and the table of distinct names. Tags without a name get `u16::MAX`.
#[verifier::ext_equal]
pub struct Interned {
    pub ids: Seq<u16>,
    pub table: Seq<(u64, u16)>,
}

/// The interning of the first `k` names.
pub open spec fn interned(input: Seq<u8>, names: Seq<(u64, u16)>, k: int) -> Interned
    decreases k,
{
    if k <= 0 {
        Interned { ids: Seq::empty(), table: Seq::empty() }
    } else {
        let before = interned(input, names, k - 1);
        let name = names[k - 1];
        if name.1 == 0 {
            Interned { ids: before.ids.push(u16::MAX), ..before }
        } else {
            match entry_of(input, before.table, entry_bytes(input, name), 0) {
                Some(e) => Interned { ids: before.ids.push((e % 0x1_0000) as u16), ..before },
                None => Interned {
                    ids: before.ids.push((before.table.len() as int % 0x1_0000) as u16),
                    table: before.table.push(name),
                },
            }
        }
    }
}

/// The name ID under which each tag is listed: the tag's ID when it opens an
/// element and has a name, else `u32::MAX`.
pub open spec fn listed_under(types: Seq<TagType>, ids: Seq<u16>) -> Seq<u32> {
    Seq::new(
        types.len(),
        |i: int|
            if ids[i] != u16::MAX && (types[i] == TagType::Open || types[i]
                == TagType::SelfClose) {
                ids[i] as u32
            } else {
                u32::MAX
            },
    )
}

impl<'a> XmlIndex<'a> {
    /// The name tables hold the interning of all tag names, and for each name
    /// the ascending list of the element tags interned under it.
    pub open spec fn names_indexed(&self) -> bool {
        let all = interned(self.input@, self.tag_names@, self.tags() as int);
        &&& self.name_ids@ == all.ids
        &&& self.name_table@ == all.table
        &&& self.name_posting@.len() == all.table.len()
        &&& forall|id: int|
            0 <= id < all.table.len() ==> (#[trigger] self.name_posting@[id])@ == owned(
                listed_under(self.tag_types@, all.ids),
                id,
                self.tags() as int,
            )
    }

    /// Builds the inverted name index, unless there already is one. Everything
    /// else stays as it is.
    pub fn build_name_index(&mut self)
        requires
            old(self).wf(),
            old(self).tags() <= u32::MAX,
        ensures
            final(self).wf(),
            old(self).name_posting@.len() > 0 ==> *final(self) == *old(self),
            old(self).name_posting@.len() == 0 ==> final(self).names_indexed(),
            final(self).input == old(self).input,
            final(self).doc() == old(self).doc(),
            final(self).child_offsets == old(self).child_offsets,
            final(self).child_data == old(self).child_data,
            final(self).text_child_offsets == old(self).text_child_offsets,
            final(self).text_child_data == old(self).text_child_data,
            final(self).close_map == old(self).close_map,
            final(self).post_order == old(self).post_order,
    {
        if !self.name_posting.is_empty() {
            return;
        }
        let n: usize = self.tag_count();
        let m: usize = self.input.len();
        let ghost input = self.input@;
        let ghost names = self.tag_names@;
        let ghost types = self.tag_types@;
        let mut interner = NameInterner::new(self.input);
        let mut ids: Vec<u16> = Vec::new();
        assert(interner.table@ =~= interned(input, names, 0).table);
        assert(ids@ =~= interned(input, names, 0).ids);
        let mut i: usize = 0;
        while i < n
            invariant
                *self == *old(self),
                self.wf(),
                input == self.input@,
                names == self.tag_names@,
                m == input.len(),
                n == self.tags(),
                i <= n,
                interner.wf(),
                interner.input == self.input,
                ids@ == interned(input, names, i as int).ids,
                ids@.len() == i,
                interner.table@.len() <= i,
                interner.table@ == interned(input, names, i as int).table,
            decreases n - i,
        {
            let name = self.tag_names[i];
            assert(self.doc().names[i as int] == name);
            if name.1 > 0 {
                let bytes = self.name_slice(i);
                let id: u16 = interner.intern(bytes, name.0, name.1);
                ids.push(id);
            } else {
                ids.push(u16::MAX);
            }
            i += 1;
        }
        let table = interner.into_table();
        let count: usize = table.len();
        let ghost owner = listed_under(types, ids@);
        let mut posting: Vec<Vec<u32>> = Vec::new();
        let mut q: usize = 0;
        while q < count
            invariant
                q <= count,
                posting@.len() == q,
                forall|j: int| 0 <= j < q ==> (#[trigger] posting@[j])@ == Seq::<u32>::empty(),
            decreases count - q,
        {
            posting.push(Vec::new());
            q += 1;
        }
        let mut i: usize = 0;
        while i < n
            invariant
                *self == *old(self),
                self.wf(),
                types == self.tag_types@,
                n == self.tags(),
                n <= u32::MAX,
                count <= n,
                ids@.len() == n,
                owner == listed_under(types, ids@),
                i <= n,
                posting@.len() == count,
                forall|q: int|
                    0 <= q < count ==> (#[trigger] posting@[q])@ == owned(owner, q, i as int),
            decreases n - i,
        {
            let id: usize = ids[i] as usize;
            if ids[i] != u16::MAX && id < count && is_element_type(self.tag_types[i]) {
                posting[id].push(i as u32);
            }
            i += 1;
        }
        proof {
            assert forall|q: int, j: int|
                0 <= q < posting@.len() && 0 <= j < posting@[q]@.len() implies #[trigger] posting@[q]@[j]
                < n by {
                lemma_owned(owner, q, n as int);
                assert(posting@[q]@ == owned(owner, q, n as int));
            }
        }
        self.name_ids = ids;
        self.name_table = table;
        self.name_posting = posting;
    }

    /// The interned ID of a name.
    pub fn name_id(&self, name: &str) -> (r: Option<u16>)
        requires
            self.wf(),
        ensures
            r == (match entry_of(self.input@, self.name_table@, encode_utf8(name@), 0) {
                Some(k) => Some((k % 0x1_0000) as u16),
                None => None,
            }),
    {
        let bytes = name.as_bytes();
        let n: usize = self.name_table.len();
        let m: usize = self.input.len();
        let mut i: usize = 0;
        while i < n
            invariant
                self.wf(),
                bytes@ == encode_utf8(name@),
                n == self.name_table@.len(),
                m == self.input@.len(),
                i <= n,
                entry_of(self.input@, self.name_table@, bytes@, 0) == entry_of(
                    self.input@,
                    self.name_table@,
                    bytes@,
                    i as int,
                ),
            decreases n - i,
        {
            let e = self.name_table[i];
            let known = vstd::slice::slice_subrange(
                self.input,
                e.0 as usize,
                e.0 as usize + e.1 as usize,
            );
            if bytes_eq(known, bytes) {
                return Some(low16(i));
            }
            i += 1;
        }
        None
    }

    /// The tags that the name tables list under a name.
    pub open spec fn listed(&self, name: Seq<u8>) -> Seq<u32> {
        match entry_of(self.input@, self.name_table@, name, 0) {
            Some(k) => if k % 0x1_0000 < self.name_posting@.len() {
                self.name_posting@[k % 0x1_0000]@
            } else {
                Seq::empty()
            },
            None => Seq::empty(),
        }
    }

    /// The element tags listed under a name, in document order; empty when the
    /// name is not in the name table.
    pub fn tags_by_name(&self, name: &str) -> (r: &[u32])
        requires
            self.wf(),
        ensures
            r@ == self.listed(encode_utf8(name@)),
            forall|j: int| 0 <= j < r@.len() ==> #[trigger] r@[j] < self.tags(),
    {
        match self.name_id(name) {
            Some(id) => if (id as usize) < self.name_posting.len() {
                return self.name_posting[id as usize].as_slice();
            },
            None => {},
        }
        let none = vstd::slice::slice_subrange(self.child_data.as_slice(), 0, 0);
        assert(none@ =~= Seq::empty());
        none
    }
}

} // verus!
