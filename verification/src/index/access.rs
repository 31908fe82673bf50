//! Navigation over an index: names, texts, children, parents and close tags.

use vstd::prelude::*;
use vstd::utf8::encode_utf8;
use crate::bytes::{bytes_eq, text_of, text_or_empty};
use crate::index::structural::low32;
use crate::index::{TagType, TextRange, XmlIndex};
use crate::text::texts;

verus! {

/// Whether a tag type opens an element.
pub open spec fn is_element(t: TagType) -> bool {
    t == TagType::Open || t == TagType::SelfClose
}

/// Tests whether a tag type opens an element.
pub fn is_element_type(t: TagType) -> (r: bool)
    ensures
        r == is_element(t),
{
    t == TagType::Open || t == TagType::SelfClose
}

/// The row of a CSR table; rows that are not there are empty.
pub open spec fn csr_row(offsets: Seq<u32>, data: Seq<u32>, row: int) -> Seq<u32> {
    if 0 <= row && row + 1 < offsets.len() {
        data.subrange(offsets[row] as int, offsets[row + 1] as int)
    } else {
        Seq::empty()
    }
}

/// The positions below `k` that satisfy `keep`, in ascending order.
pub open spec fn picked(keep: spec_fn(int) -> bool, k: int) -> Seq<int>
    decreases k,
{
    if k <= 0 {
        Seq::empty()
    } else if keep(k - 1) {
        picked(keep, k - 1).push(k - 1)
    } else {
        picked(keep, k - 1)
    }
}

/// The entries of a list that satisfy `keep`, in order.
pub open spec fn kept(list: Seq<u32>, keep: spec_fn(int) -> bool) -> Seq<int>
    decreases list.len(),
{
    if list.len() == 0 {
        Seq::empty()
    } else if keep(list.last() as int) {
        kept(list.drop_last(), keep).push(list.last() as int)
    } else {
        kept(list.drop_last(), keep)
    }
}

/// The integers that a list of machine integers holds.
pub open spec fn ints(v: Seq<usize>) -> Seq<int> {
    v.map_values(|i: usize| i as int)
}

/// The concatenation of the texts of those of the first `k` ranges that lie
/// within `lo..=hi`.
pub open spec fn texts_within(
    input: Seq<u8>,
    ranges: Seq<TextRange>,
    lo: int,
    hi: int,
    k: int,
) -> Seq<char>
    decreases k,
{
    if k <= 0 {
        Seq::empty()
    } else {
        let r = ranges[k - 1];
        let before = texts_within(input, ranges, lo, hi, k - 1);
        if lo <= r.start && r.end <= hi {
            before + text_of(input.subrange(r.start as int, r.end as int))
        } else {
            before
        }
    }
}

impl<'a> XmlIndex<'a> {
    /// The bytes of a tag's name.
    pub open spec fn name_bytes(&self, i: int) -> Seq<u8> {
        self.input@.subrange(
            self.tag_names@[i].0 as int,
            self.tag_names@[i].0 + self.tag_names@[i].1,
        )
    }

    /// The name of a tag.
    pub open spec fn name_text(&self, i: int) -> Seq<char> {
        text_of(self.name_bytes(i))
    }

    /// The text of a text range.
    pub open spec fn range_text(&self, r: TextRange) -> Seq<char> {
        text_of(self.input@.subrange(r.start as int, r.end as int))
    }

    /// The child entries of a tag in the child table.
    pub open spec fn child_row(&self, parent: int) -> Seq<u32> {
        csr_row(self.child_offsets@, self.child_data@, parent)
    }

    /// The text entries of a tag in the text table.
    pub open spec fn text_row(&self, parent: int) -> Seq<u32> {
        csr_row(self.text_child_offsets@, self.text_child_data@, parent)
    }

    /// Whether the child tables have been built.
    pub open spec fn tabled(&self) -> bool {
        self.child_offsets@.len() > 0
    }

    /// Whether tag `i` opens an element.
    pub open spec fn element(&self, i: int) -> bool {
        is_element(self.tag_types@[i])
    }

    /// The least tag from `k` on that is a close tag of the same depth and name
    /// as tag `open`.
    pub open spec fn close_scan(&self, open: int, k: int) -> Option<int>
        decreases self.tags() - k,
    {
        if k < 0 || k >= self.tags() {
            None
        } else if self.tag_types@[k] == TagType::Close && self.depths@[k] == self.depths@[open]
            && self.name_bytes(k) == self.name_bytes(open) {
            Some(k)
        } else {
            self.close_scan(open, k + 1)
        }
    }

    /// The close tag of a tag: looked up when the close table has been built,
    /// else searched. A self-closing tag closes itself.
    pub open spec fn close_of(&self, i: int) -> Option<int> {
        if i < 0 || i >= self.tags() {
            None
        } else if self.close_map@.len() > 0 {
            if self.close_map@[i] == u32::MAX {
                None
            } else {
                Some(self.close_map@[i] as int)
            }
        } else if self.tag_types@[i] == TagType::SelfClose {
            Some(i)
        } else if self.tag_types@[i] == TagType::Open {
            self.close_scan(i, i + 1)
        } else {
            None
        }
    }

    /// Whether tag `i` is an element whose parent entry is `parent`.
    pub open spec fn child_element(&self, parent: u32) -> spec_fn(int) -> bool {
        |i: int| self.parents@[i] == parent && self.element(i)
    }

    /// Whether tag `i` is an element.
    pub open spec fn elements(&self) -> spec_fn(int) -> bool {
        |i: int| self.element(i)
    }

    /// Whether text range `t` has the parent entry `parent`.
    pub open spec fn text_under(&self, parent: u32) -> spec_fn(int) -> bool {
        |t: int| self.text_ranges@[t].parent_tag == parent
    }

    /// The element children of a tag.
    pub open spec fn child_elements(&self, parent: int) -> Seq<int> {
        if self.tabled() {
            kept(self.child_row(parent), self.elements())
        } else {
            picked(
                self.child_element((parent % 0x1_0000_0000) as u32),
                self.tags() as int,
            )
        }
    }

    /// The text ranges directly under a tag.
    pub open spec fn direct_ranges(&self, tag: int) -> Seq<int> {
        if self.tabled() {
            self.text_row(tag).map_values(|t: u32| t as int)
        } else {
            picked(
                self.text_under((tag % 0x1_0000_0000) as u32),
                self.text_ranges@.len() as int,
            )
        }
    }

    /// Where the content of a tag lies: from its start to the start of its close
    /// tag, or to its own end when it has none.
    pub open spec fn inner_span(&self, i: int) -> (int, int) {
        let close = match self.close_of(i) {
            Some(c) => c,
            None => i,
        };
        (
            self.tag_starts@[i] as int,
            if close == i {
                self.tag_ends@[i] as int
            } else {
                self.tag_starts@[close] as int
            },
        )
    }

    /// All text under a tag, nested text included.
    pub open spec fn full_text(&self, i: int) -> Seq<char> {
        texts_within(
            self.input@,
            self.text_ranges@,
            self.inner_span(i).0,
            self.inner_span(i).1,
            self.text_ranges@.len() as int,
        )
    }

    /// Number of tags in the index.
    pub fn tag_count(&self) -> (r: usize)
        ensures
            r == self.tags(),
    {
        self.tag_starts.len()
    }

    /// Number of text content ranges.
    pub fn text_count(&self) -> (r: usize)
        ensures
            r == self.text_ranges@.len(),
    {
        self.text_ranges.len()
    }

    /// Whether the child tables are available.
    pub fn has_indices(&self) -> (r: bool)
        ensures
            r == self.tabled(),
    {
        !self.child_offsets.is_empty()
    }

    /// The child entries of a tag in the child table.
    pub fn child_tag_slice(&self, parent_idx: usize) -> (r: &[u32])
        requires
            self.wf(),
        ensures
            r@ == self.child_row(parent_idx as int),
            forall|j: int| 0 <= j < r@.len() ==> #[trigger] r@[j] < self.tags(),
    {
        let n: usize = self.child_offsets.len();
        if n < 2 || parent_idx >= n - 1 {
            let none = vstd::slice::slice_subrange(self.child_data.as_slice(), 0, 0);
            assert(none@ =~= Seq::empty());
            return none;
        }
        let start: usize = self.child_offsets[parent_idx] as usize;
        let end: usize = self.child_offsets[parent_idx + 1] as usize;
        vstd::slice::slice_subrange(self.child_data.as_slice(), start, end)
    }

    /// The text entries of a tag in the text table.
    pub fn child_text_slice(&self, parent_idx: usize) -> (r: &[u32])
        requires
            self.wf(),
        ensures
            r@ == self.text_row(parent_idx as int),
            forall|j: int| 0 <= j < r@.len() ==> #[trigger] r@[j] < self.text_ranges@.len(),
    {
        let n: usize = self.text_child_offsets.len();
        if n < 2 || parent_idx >= n - 1 {
            let none = vstd::slice::slice_subrange(self.text_child_data.as_slice(), 0, 0);
            assert(none@ =~= Seq::empty());
            return none;
        }
        let start: usize = self.text_child_offsets[parent_idx] as usize;
        let end: usize = self.text_child_offsets[parent_idx + 1] as usize;
        vstd::slice::slice_subrange(self.text_child_data.as_slice(), start, end)
    }

    /// Ancestor check by pre-order and post-order numbers; false when the
    /// post-order numbers have not been built.
    pub fn is_ancestor(&self, ancestor_idx: usize, descendant_idx: usize) -> (r: bool)
        requires
            self.wf(),
            self.post_order@.len() > 0 && ancestor_idx < descendant_idx ==> descendant_idx
                < self.tags(),
        ensures
            r == (self.post_order@.len() > 0 && ancestor_idx < descendant_idx
                && self.post_order@[ancestor_idx as int] > self.post_order@[descendant_idx as int]),
    {
        if self.post_order.is_empty() {
            return false;
        }
        ancestor_idx < descendant_idx && self.post_order[ancestor_idx]
            > self.post_order[descendant_idx]
    }

    /// Descendant check by pre-order and post-order numbers.
    pub fn is_descendant_of(&self, node_idx: usize, ancestor_idx: usize) -> (r: bool)
        requires
            self.wf(),
            self.post_order@.len() > 0 && ancestor_idx < node_idx ==> node_idx < self.tags(),
        ensures
            r == (self.post_order@.len() > 0 && ancestor_idx < node_idx
                && self.post_order@[ancestor_idx as int] > self.post_order@[node_idx as int]),
    {
        self.is_ancestor(ancestor_idx, node_idx)
    }

    /// The bytes of a tag's name.
    pub(crate) fn name_slice(&self, tag_idx: usize) -> (r: &'a [u8])
        requires
            self.wf(),
            tag_idx < self.tags(),
        ensures
            r@ == self.name_bytes(tag_idx as int),
    {
        let n: usize = self.input.len();
        let name = self.tag_names[tag_idx];
        assert(self.doc().names[tag_idx as int] == name);
        let off: usize = name.0 as usize;
        vstd::slice::slice_subrange(self.input, off, off + name.1 as usize)
    }

    /// Compares a tag's name with a string, byte by byte.
    pub fn tag_name_eq(&self, tag_idx: usize, name: &str) -> (r: bool)
        requires
            self.wf(),
            tag_idx < self.tags(),
        ensures
            r == (self.name_bytes(tag_idx as int) == encode_utf8(name@)),
    {
        bytes_eq(self.name_slice(tag_idx), name.as_bytes())
    }

    /// The tag name as a string slice; empty when there is no such tag.
    pub fn tag_name(&self, tag_idx: usize) -> (r: &'a str)
        requires
            self.wf(),
        ensures
            r@ == (if tag_idx < self.tags() {
                self.name_text(tag_idx as int)
            } else {
                Seq::empty()
            }),
    {
        if tag_idx >= self.tag_names.len() {
            proof {
                reveal_strlit("");
                assert(""@ =~= Seq::<char>::empty());
            }
            return "";
        }
        text_or_empty(self.name_slice(tag_idx))
    }

    /// The text content of a text range.
    pub fn text_content(&self, range: &TextRange) -> (r: &'a str)
        requires
            range.start <= range.end <= self.input@.len(),
        ensures
            r@ == self.range_text(*range),
    {
        let n: usize = self.input.len();
        text_or_empty(
            vstd::slice::slice_subrange(self.input, range.start as usize, range.end as usize),
        )
    }

    /// Finds the close tag that matches an open tag.
    pub fn matching_close(&self, open_idx: usize) -> (r: Option<usize>)
        requires
            self.wf(),
        ensures
            match r {
                Some(c) => self.close_of(open_idx as int) == Some(c as int) && c < self.tags(),
                None => self.close_of(open_idx as int) is None,
            },
    {
        let n: usize = self.tag_count();
        if open_idx >= n {
            return None;
        }
        if !self.close_map.is_empty() {
            let close: u32 = self.close_map[open_idx];
            return if close != u32::MAX {
                Some(close as usize)
            } else {
                None
            };
        }
        if self.tag_types[open_idx] == TagType::SelfClose {
            return Some(open_idx);
        }
        if self.tag_types[open_idx] != TagType::Open {
            return None;
        }
        let depth: u16 = self.depths[open_idx];
        let name = self.name_slice(open_idx);
        let mut i: usize = open_idx + 1;
        while i < n
            invariant
                self.wf(),
                n == self.tags(),
                open_idx < i <= n,
                self.close_map@.len() == 0,
                self.tag_types@[open_idx as int] == TagType::Open,
                depth == self.depths@[open_idx as int],
                name@ == self.name_bytes(open_idx as int),
                self.close_scan(open_idx as int, open_idx + 1) == self.close_scan(
                    open_idx as int,
                    i as int,
                ),
            decreases n - i,
        {
            if self.tag_types[i] == TagType::Close && self.depths[i] == depth && bytes_eq(
                self.name_slice(i),
                name,
            ) {
                return Some(i);
            }
            i += 1;
        }
        None
    }

    /// The direct child elements of a tag.
    pub fn children(&self, parent_idx: usize) -> (r: Vec<usize>)
        requires
            self.wf(),
        ensures
            ints(r@) == self.child_elements(parent_idx as int),
            forall|j: int| 0 <= j < r@.len() ==> #[trigger] r@[j] < self.tags(),
    {
        let mut out: Vec<usize> = Vec::new();
        assert(ints(out@) =~= Seq::empty());
        if self.has_indices() {
            let row = self.child_tag_slice(parent_idx);
            let ghost keep = self.elements();
            let mut j: usize = 0;
            assert(row@.take(0) =~= Seq::empty());
            while j < row.len()
                invariant
                    self.wf(),
                    keep == self.elements(),
                    j <= row@.len(),
                    forall|q: int| 0 <= q < row@.len() ==> #[trigger] row@[q] < self.tags(),
                    ints(out@) == kept(row@.take(j as int), keep),
                    forall|q: int| 0 <= q < out@.len() ==> #[trigger] out@[q] < self.tags(),
                decreases row@.len() - j,
            {
                let i: usize = row[j] as usize;
                let ghost old_out = out@;
                if is_element_type(self.tag_types[i]) {
                    out.push(i);
                    assert(ints(out@) =~= ints(old_out).push(i as int));
                }
                assert(row@.take(j + 1).drop_last() =~= row@.take(j as int));
                j += 1;
            }
            assert(row@.take(j as int) =~= row@);
        } else {
            let parent: u32 = low32(parent_idx);
            let n: usize = self.tag_count();
            let ghost keep = self.child_element(parent);
            let mut i: usize = 0;
            while i < n
                invariant
                    self.wf(),
                    n == self.tags(),
                    keep == self.child_element(parent),
                    i <= n,
                    ints(out@) == picked(keep, i as int),
                    forall|q: int| 0 <= q < out@.len() ==> #[trigger] out@[q] < self.tags(),
                decreases n - i,
            {
                let ghost old_out = out@;
                if self.parents[i] == parent && is_element_type(self.tag_types[i]) {
                    out.push(i);
                    assert(ints(out@) =~= ints(old_out).push(i as int));
                }
                i += 1;
            }
        }
        out
    }

    /// The text content directly under a tag (not nested).
    pub fn direct_text(&self, tag_idx: usize) -> (r: Vec<&'a str>)
        requires
            self.wf(),
        ensures
            texts(r@) == self.direct_ranges(tag_idx as int).map_values(
                |t: int| self.range_text(self.text_ranges@[t]),
            ),
    {
        let mut out: Vec<&'a str> = Vec::new();
        let ghost view = |t: int| self.range_text(self.text_ranges@[t]);
        if self.has_indices() {
            let row = self.child_text_slice(tag_idx);
            let mut j: usize = 0;
            while j < row.len()
                invariant
                    self.wf(),
                    view == (|t: int| self.range_text(self.text_ranges@[t])),
                    j <= row@.len(),
                    forall|q: int| 0 <= q < row@.len() ==> #[trigger] row@[q]
                        < self.text_ranges@.len(),
                    out@.len() == j,
                    forall|q: int| 0 <= q < j ==> (#[trigger] out@[q])@ == view(row@[q] as int),
                decreases row@.len() - j,
            {
                let t = self.text_ranges[row[j] as usize];
                assert(self.doc().texts[row@[j as int] as int] == t);
                out.push(self.text_content(&t));
                j += 1;
            }
            assert(texts(out@) =~= row@.map_values(|t: u32| t as int).map_values(view));
        } else {
            let parent: u32 = low32(tag_idx);
            let n: usize = self.text_count();
            let ghost keep = self.text_under(parent);
            let mut i: usize = 0;
            assert(texts(out@) =~= picked(keep, 0).map_values(view));
            while i < n
                invariant
                    self.wf(),
                    view == (|t: int| self.range_text(self.text_ranges@[t])),
                    n == self.text_ranges@.len(),
                    keep == self.text_under(parent),
                    i <= n,
                    texts(out@) == picked(keep, i as int).map_values(view),
                decreases n - i,
            {
                let t = self.text_ranges[i];
                assert(self.doc().texts[i as int] == t);
                let ghost old_out = out@;
                if t.parent_tag == parent {
                    let text = self.text_content(&t);
                    out.push(text);
                    assert(texts(out@) =~= texts(old_out).push(text@));
                    assert(picked(keep, i + 1).map_values(view) =~= picked(
                        keep,
                        i as int,
                    ).map_values(view).push(view(i as int)));
                }
                i += 1;
            }
        }
        out
    }

    /// Where the content of a tag lies: see `inner_span`.
    pub(crate) fn inner_bounds(&self, tag_idx: usize) -> (r: (u64, u64))
        requires
            self.wf(),
            tag_idx < self.tags(),
        ensures
            (r.0 as int, r.1 as int) == self.inner_span(tag_idx as int),
    {
        let close: usize = match self.matching_close(tag_idx) {
            Some(c) => c,
            None => tag_idx,
        };
        if close == tag_idx {
            (self.tag_starts[tag_idx], self.tag_ends[tag_idx])
        } else {
            (self.tag_starts[tag_idx], self.tag_starts[close])
        }
    }

    /// All text content under a tag, nested text included.
    pub fn all_text(&self, tag_idx: usize) -> (r: String)
        requires
            self.wf(),
            tag_idx < self.tags(),
        ensures
            r@ == self.full_text(tag_idx as int),
    {
        let (lo, hi) = self.inner_bounds(tag_idx);
        let mut out = String::new();
        let n: usize = self.text_count();
        let mut i: usize = 0;
        assert(out@ =~= Seq::empty());
        while i < n
            invariant
                self.wf(),
                n == self.text_ranges@.len(),
                i <= n,
                out@ == texts_within(
                    self.input@,
                    self.text_ranges@,
                    lo as int,
                    hi as int,
                    i as int,
                ),
            decreases n - i,
        {
            let t = self.text_ranges[i];
            assert(self.doc().texts[i as int] == t);
            if t.start >= lo && t.end <= hi {
                out.append(self.text_content(&t));
            }
            i += 1;
        }
        out
    }

    /// Builds the lookup tables unless the child tables are there already, or
    /// the counts do not fit their 32-bit entries.
    pub fn ensure_indices(&mut self)
        requires
            old(self).wf(),
        ensures
            final(self).wf(),
            final(self).input == old(self).input,
            final(self).doc() == old(self).doc(),
            final(self).name_ids@ == old(self).name_ids@,
            final(self).name_table@ == old(self).name_table@,
            final(self).name_posting@ == old(self).name_posting@,
            !old(self).tabled() && old(self).tables_fit() ==> final(self).indexed(),
            old(self).tabled() || !old(self).tables_fit() ==> *final(self) == *old(self),
    {
        if !self.has_indices() && self.tag_count() as u64 <= u32::MAX as u64
            && self.text_count() as u64 <= u32::MAX as u64 {
            self.build_indices();
        }
    }

    /// The parent tag of a tag; `None` for a root tag or when there is no such
    /// tag.
    pub fn parent(&self, tag_idx: usize) -> (r: Option<usize>)
        requires
            self.wf(),
        ensures
            r == (if tag_idx < self.tags() && self.parents@[tag_idx as int] != u32::MAX {
                Some(self.parents@[tag_idx as int] as usize)
            } else {
                None
            }),
    {
        if tag_idx >= self.tag_count() {
            return None;
        }
        let p: u32 = self.parents[tag_idx];
        if p == u32::MAX {
            None
        } else {
            Some(p as usize)
        }
    }

    /// The child entries of a tag in the child table.
    pub fn child_slice(&self, parent_idx: usize) -> (r: &[u32])
        requires
            self.wf(),
        ensures
            r@ == self.child_row(parent_idx as int),
    {
        self.child_tag_slice(parent_idx)
    }

    /// Number of child entries of a tag in the child table.
    pub fn child_count(&self, parent_idx: usize) -> (r: usize)
        requires
            self.wf(),
        ensures
            r == self.child_row(parent_idx as int).len(),
    {
        self.child_tag_slice(parent_idx).len()
    }

    /// The child entry of a tag at a position.
    pub fn child_at(&self, parent_idx: usize, position: usize) -> (r: Option<usize>)
        requires
            self.wf(),
        ensures
            r == (if position < self.child_row(parent_idx as int).len() {
                Some(self.child_row(parent_idx as int)[position as int] as usize)
            } else {
                None
            }),
    {
        let row = self.child_tag_slice(parent_idx);
        if position < row.len() {
            Some(row[position] as usize)
        } else {
            None
        }
    }

    /// The position of a tag among the child entries of its parent; `None` when
    /// it has no parent or is not listed.
    pub fn child_position(&self, tag_idx: usize) -> (r: Option<usize>)
        requires
            self.wf(),
        ensures
            match r {
                Some(k) => tag_idx < self.tags() && self.parents@[tag_idx as int] != u32::MAX && {
                    let row = self.child_row(self.parents@[tag_idx as int] as int);
                    &&& k < row.len()
                    &&& row[k as int] == tag_idx
                    &&& forall|j: int| 0 <= j < k ==> row[j] != tag_idx
                },
                None => tag_idx < self.tags() && self.parents@[tag_idx as int] != u32::MAX ==> {
                    let row = self.child_row(self.parents@[tag_idx as int] as int);
                    forall|j: int| 0 <= j < row.len() ==> row[j] != tag_idx
                },
            },
    {
        match self.parent(tag_idx) {
            None => None,
            Some(p) => {
                let row = self.child_tag_slice(p);
                let mut k: usize = 0;
                while k < row.len()
                    invariant
                        k <= row@.len(),
                        tag_idx < self.tags(),
                        p == self.parents@[tag_idx as int],
                        p != u32::MAX,
                        row@ == self.child_row(p as int),
                        forall|j: int| 0 <= j < k ==> row@[j] != tag_idx,
                    decreases row@.len() - k,
                {
                    if row[k] as usize == tag_idx {
                        return Some(k);
                    }
                    k += 1;
                }
                None
            },
        }
    }

    /// The first text directly under a tag.
    pub fn direct_text_first(&self, tag_idx: usize) -> (r: Option<&'a str>)
        requires
            self.wf(),
        ensures
            match r {
                Some(t) => self.direct_ranges(tag_idx as int).len() > 0 && t@ == self.range_text(
                    self.text_ranges@[self.direct_ranges(tag_idx as int)[0]],
                ),
                None => self.direct_ranges(tag_idx as int).len() == 0,
            },
    {
        let all = self.direct_text(tag_idx);
        assert(texts(all@).len() == all@.len());
        if all.len() == 0 {
            None
        } else {
            assert(texts(all@)[0] == all@[0]@);
            Some(all[0])
        }
    }

    /// Where an element ends: the last byte of its close tag, or of the tag
    /// itself when it has no close tag.
    pub open spec fn element_end(&self, i: int) -> int {
        match self.close_of(i) {
            Some(c) => self.tag_ends@[c] as int,
            None => self.tag_ends@[i] as int,
        }
    }

    /// The least text range from `k` on that starts at byte `at`.
    pub open spec fn range_starting(&self, at: int, k: int) -> Option<int>
        decreases self.text_ranges@.len() - k,
    {
        if k < 0 || k >= self.text_ranges@.len() {
            None
        } else if self.text_ranges@[k].start == at {
            Some(k)
        } else {
            self.range_starting(at, k + 1)
        }
    }

    /// The text that follows an element directly, under the same parent.
    pub fn tail_text(&self, tag_idx: usize) -> (r: Option<&'a str>)
        requires
            self.wf(),
        ensures
            match r {
                Some(t) => tag_idx < self.tags() && self.parents@[tag_idx as int] != u32::MAX && (
                self.range_starting(self.element_end(tag_idx as int) + 1, 0) matches Some(k)
                    && t@ == self.range_text(self.text_ranges@[k])),
                None => tag_idx < self.tags() && self.parents@[tag_idx as int] != u32::MAX
                    ==> self.range_starting(self.element_end(tag_idx as int) + 1, 0) is None,
            },
    {
        if self.parent(tag_idx).is_none() {
            return None;
        }
        let end: u64 = match self.matching_close(tag_idx) {
            Some(c) => self.tag_ends[c],
            None => self.tag_ends[tag_idx],
        };
        let n: usize = self.text_count();
        let mut k: usize = 0;
        while k < n
            invariant
                self.wf(),
                n == self.text_ranges@.len(),
                k <= n,
                tag_idx < self.tags(),
                self.parents@[tag_idx as int] != u32::MAX,
                end == self.element_end(tag_idx as int),
                self.range_starting(end + 1, 0) == self.range_starting(end + 1, k as int),
            decreases n - k,
        {
            let t = self.text_ranges[k];
            assert(self.doc().texts[k as int] == t);
            if t.start > 0 && t.start - 1 == end {
                return Some(self.text_content(&t));
            }
            k += 1;
        }
        None
    }
}

/// The positions below `k` that satisfy a condition, in ascending order.
pub proof fn lemma_picked_positions(keep: spec_fn(int) -> bool, k: int)
    requires
        0 <= k,
    ensures
        forall|i: int| #[trigger] picked(keep, k).contains(i) <==> 0 <= i < k && keep(i),
        forall|i: int, j: int|
            0 <= i < j < picked(keep, k).len() ==> picked(keep, k)[i] < picked(keep, k)[j],
    decreases k,
{
    if k > 0 {
        lemma_picked_positions(keep, k - 1);
        let before = picked(keep, k - 1);
        if keep(k - 1) {
            let all = before.push(k - 1);
            assert forall|i: int| #[trigger] all.contains(i) <==> before.contains(i) || i == k - 1 by {
                if all.contains(i) {
                    let w = choose|w: int| 0 <= w < all.len() && all[w] == i;
                    if w < before.len() {
                        assert(before[w] == i);
                    }
                }
                if before.contains(i) {
                    let w = choose|w: int| 0 <= w < before.len() && before[w] == i;
                    assert(all[w] == i);
                }
                assert(all[before.len() as int] == k - 1);
            }
            assert forall|i: int, j: int| 0 <= i < j < all.len() implies all[i] < all[j] by {
                assert(before.contains(before[i]));
            }
        }
    }
}

/// The element children of a tag, and the texts directly under it, when no tables have
/// been built: all elements, and all texts, whose parent it is, in order.
pub proof fn lemma_untabled_children(ix: XmlIndex, parent: int)
    requires
        !ix.tabled(),
        0 <= parent < ix.tags() <= u32::MAX,
    ensures
        forall|i: int| #[trigger]
            ix.child_elements(parent).contains(i) <==> 0 <= i < ix.tags() && ix.parents@[i]
                == parent && is_element(ix.tag_types@[i]),
        forall|i: int, j: int|
            0 <= i < j < ix.child_elements(parent).len() ==> ix.child_elements(parent)[i]
                < ix.child_elements(parent)[j],
        forall|t: int| #[trigger]
            ix.direct_ranges(parent).contains(t) <==> 0 <= t < ix.text_ranges@.len()
                && ix.text_ranges@[t].parent_tag == parent,
        forall|i: int, j: int|
            0 <= i < j < ix.direct_ranges(parent).len() ==> ix.direct_ranges(parent)[i]
                < ix.direct_ranges(parent)[j],
{
    let entry = (parent % 0x1_0000_0000) as u32;
    assert(entry == parent);
    lemma_picked_positions(ix.child_element(entry), ix.tags() as int);
    lemma_picked_positions(ix.text_under(entry), ix.text_ranges@.len() as int);
}

/// The close tag that a search finds has the depth and the name of the open tag, and no
/// tag before it has.
pub proof fn lemma_close_scan(ix: XmlIndex, open: int, k: int)
    requires
        0 <= k,
    ensures
        match ix.close_scan(open, k) {
            Some(c) => k <= c < ix.tags() && closes_tag(ix, open, c) && forall|j: int|
                k <= j < c ==> !#[trigger] closes_tag(ix, open, j),
            None => forall|j: int| k <= j < ix.tags() ==> !#[trigger] closes_tag(ix, open, j),
        },
    decreases ix.tags() - k,
{
    if k < ix.tags() && !closes_tag(ix, open, k) {
        lemma_close_scan(ix, open, k + 1);
    }
}

/// Whether a tag is a close tag with the depth and the name of another.
pub open spec fn closes_tag(ix: XmlIndex, open: int, j: int) -> bool {
    &&& ix.tag_types@[j] == TagType::Close
    &&& ix.depths@[j] == ix.depths@[open]
    &&& ix.name_bytes(j) == ix.name_bytes(open)
}

} // verus!
