//! The lookup tables change how fast an answer is found, not what it is.

use vstd::prelude::*;
use vstd::utf8::encode_utf8;
use crate::index::access::{kept, picked};
use crate::index::laws::{
    enclosing, is_nested, lemma_closes_innermost, lemma_open_stack, lemma_open_until_closed,
    lemma_self_closing, lemma_stack_below, open_stack, partner,
};
use crate::index::names::{entry_bytes, entry_of, interned, listed_under, Interned};
use crate::index::tables::{child_owner, lemma_pairing_shape, owned, pairing, text_owner};
use crate::index::{TagType, XmlIndex};

verus! {

impl<'a> XmlIndex<'a> {
    proof fn lemma_child_prefix(&self, parent: int, k: int)
        requires
            self.wf(),
            self.tables_fit(),
            0 <= parent < self.tags(),
            0 <= k <= self.tags(),
        ensures
            kept(owned(child_owner(self.doc()), parent, k), self.elements()) == picked(
                self.child_element(parent as u32),
                k,
            ),
        decreases k,
    {
        if k > 0 {
            self.lemma_child_prefix(parent, k - 1);
            let owner = child_owner(self.doc());
            let before = owned(owner, parent, k - 1);
            if owner[k - 1] == parent {
                assert(before.push((k - 1) as u32).drop_last() =~= before);
            }
        }
    }

    /// The child table gives every tag the element children that a search over
    /// the parent entries finds.
    pub proof fn lemma_children_by_table(&self, parent: int)
        requires
            self.wf(),
            self.indexed(),
            self.tables_fit(),
            0 <= parent < self.tags(),
        ensures
            kept(self.child_row(parent), self.elements()) == picked(
                self.child_element(parent as u32),
                self.tags() as int,
            ),
    {
        assert(self.child_offsets@[parent] <= self.child_offsets@[parent + 1]);
        self.lemma_child_prefix(parent, self.tags() as int);
    }

    proof fn lemma_text_prefix(&self, tag: int, k: int)
        requires
            self.wf(),
            self.tables_fit(),
            0 <= tag < self.tags(),
            0 <= k <= self.text_ranges@.len(),
        ensures
            owned(text_owner(self.doc()), tag, k).map_values(|t: u32| t as int) == picked(
                self.text_under(tag as u32),
                k,
            ),
        decreases k,
    {
        let all = owned(text_owner(self.doc()), tag, k).map_values(|t: u32| t as int);
        if k > 0 {
            self.lemma_text_prefix(tag, k - 1);
            let before = owned(text_owner(self.doc()), tag, k - 1).map_values(|t: u32| t as int);
            if text_owner(self.doc())[k - 1] == tag {
                assert(all =~= before.push(k - 1));
            }
        } else {
            assert(all =~= Seq::empty());
        }
    }

    /// The text table gives every tag the text ranges that a search over all
    /// text ranges finds.
    pub proof fn lemma_texts_by_table(&self, tag: int)
        requires
            self.wf(),
            self.indexed(),
            self.tables_fit(),
            0 <= tag < self.tags(),
        ensures
            self.text_row(tag).map_values(|t: u32| t as int) == picked(
                self.text_under(tag as u32),
                self.text_ranges@.len() as int,
            ),
    {
        assert(self.text_child_offsets@[tag] <= self.text_child_offsets@[tag + 1]);
        self.lemma_text_prefix(tag, self.text_ranges@.len() as int);
    }

    proof fn lemma_close_search(&self, open: int, k: int)
        requires
            self.wf(),
            self.tables_fit(),
            is_nested(self.doc()),
            forall|j: int|
                0 <= j <= self.tags() ==> #[trigger] open_stack(self.tag_types@, j).len()
                    < 0x1_0000,
            0 <= open < k <= self.tags(),
            self.tag_types@[open] == TagType::Open,
            partner(self.tag_types@, open) matches Some(c) ==> k <= c && self.name_bytes(c)
                == self.name_bytes(open),
        ensures
            self.close_scan(open, k) == partner(self.tag_types@, open),
        decreases self.tags() - k,
    {
        let types = self.tag_types@;
        lemma_open_until_closed(types, open, k);
        if k < self.tags() {
            let st = open_stack(types, k);
            let m = choose|m: int| 0 <= m < st.len() && st[m] == open;
            lemma_stack_below(types, k, m);
            assert(m == open_stack(types, open).len());
            assert(self.doc().depths[open] == enclosing(types, open).len());
            assert(self.doc().depths[k] == enclosing(types, k).len());
            if partner(types, open) == Some(k) {
                lemma_open_stack(types, k);
                assert(m == st.len() - 1) by {
                    if m < st.len() - 1 {
                        assert(st[m] < st[st.len() - 1]);
                    }
                }
            } else {
                if types[k] == TagType::Close && st.len() - 1 == m {
                    lemma_closes_innermost(types, k);
                }
                self.lemma_close_search(open, k + 1);
            }
        }
    }

    /// Searching for the close tag of an open tag by depth and name finds the one
    /// that the close table holds, as long as the name of that close tag is the
    /// name of the open tag and fewer than 65536 tags are open at once.
    pub proof fn lemma_close_by_search(&self, open: int)
        requires
            self.wf(),
            self.tables_fit(),
            is_nested(self.doc()),
            forall|j: int|
                0 <= j <= self.tags() ==> #[trigger] open_stack(self.tag_types@, j).len()
                    < 0x1_0000,
            0 <= open < self.tags(),
            self.tag_types@[open] == TagType::Open,
            partner(self.tag_types@, open) matches Some(c) ==> self.name_bytes(c)
                == self.name_bytes(open),
        ensures
            self.close_scan(open, open + 1) == partner(self.tag_types@, open),
            self.indexed() ==> self.close_of(open) == self.close_scan(open, open + 1),
    {
        lemma_open_until_closed(self.tag_types@, open, open + 1);
        lemma_pairing_shape(self.tag_types@, self.tags() as int);
        self.lemma_close_search(open, open + 1);
    }

    /// The close tag of a tag, without tables: a self-closing tag closes itself, an
    /// open tag is closed by the first close tag after it at its depth that has its
    /// name, and other tags have none.
    pub open spec fn close_searched(&self, i: int) -> Option<int> {
        if i < 0 || i >= self.tags() {
            None
        } else if self.tag_types@[i] == TagType::SelfClose {
            Some(i)
        } else if self.tag_types@[i] == TagType::Open {
            self.close_scan(i, i + 1)
        } else {
            None
        }
    }

    /// Every tag has the same close tag before and after the tables are built, and a
    /// number that is no tag has none. Of an open tag, the tag that closes it by
    /// nesting has its name.
    pub proof fn lemma_same_close(&self, i: int)
        requires
            self.wf(),
            self.tables_fit(),
            is_nested(self.doc()),
            forall|j: int|
                0 <= j <= self.tags() ==> #[trigger] open_stack(self.tag_types@, j).len()
                    < 0x1_0000,
            0 <= i < self.tags() && self.tag_types@[i] == TagType::Open ==> (partner(
                self.tag_types@,
                i,
            ) matches Some(c) ==> self.name_bytes(c) == self.name_bytes(i)),
        ensures
            self.indexed() || self.close_map@.len() == 0 ==> self.close_of(i)
                == self.close_searched(i),
    {
        if 0 <= i < self.tags() && self.indexed() {
            let types = self.tag_types@;
            lemma_pairing_shape(types, self.tags() as int);
            if types[i] == TagType::Open {
                self.lemma_close_by_search(i);
            } else if types[i] == TagType::SelfClose {
                lemma_self_closing(types, i);
            } else {
                lemma_never_closed(types, self.tags() as int, i);
            }
        }
    }
}

/// A tag that is neither open nor self-closing has no close tag.
proof fn lemma_never_closed(types: Seq<TagType>, k: int, i: int)
    requires
        0 <= k <= types.len() <= u32::MAX,
        0 <= i < types.len(),
        types[i] != TagType::Open,
        types[i] != TagType::SelfClose,
    ensures
        pairing(types, k).close[i] == u32::MAX,
    decreases k,
{
    if k > 0 {
        lemma_never_closed(types, k - 1, i);
        lemma_pairing_shape(types, k - 1);
    }
}

/// An entry search that finds something finds the least entry with that name,
/// and finds the same entry when the table grows.
proof fn lemma_entry_of(
    input: Seq<u8>,
    table: Seq<(u64, u16)>,
    e: (u64, u16),
    name: Seq<u8>,
    k: int,
)
    requires
        0 <= k <= table.len(),
    ensures
        match entry_of(input, table, name, k) {
            Some(i) => k <= i < table.len() && entry_bytes(input, table[i]) == name && entry_of(
                input,
                table.push(e),
                name,
                k,
            ) == Some(i),
            None => entry_of(input, table.push(e), name, k) == (if entry_bytes(input, e) == name {
                Some(table.len() as int)
            } else {
                None
            }),
        },
    decreases table.len() - k,
{
    let grown = table.push(e);
    if k < table.len() {
        assert(grown[k] == table[k]);
        lemma_entry_of(input, table, e, name, k + 1);
    } else {
        assert(grown[k] == e);
        assert(entry_of(input, grown, name, k + 1) is None);
    }
}

/// The ID of tag `i` is that of the entry of its name; a tag without a name has
/// no entry.
pub open spec fn has_id(input: Seq<u8>, names: Seq<(u64, u16)>, all: Interned, i: int) -> bool {
    if names[i].1 == 0 {
        all.ids[i] == u16::MAX
    } else {
        match entry_of(input, all.table, entry_bytes(input, names[i]), 0) {
            Some(e) => all.ids[i] == (e % 0x1_0000) as u16,
            None => false,
        }
    }
}

/// Every named tag has the entry of its name, and its ID is that entry's.
proof fn lemma_interned(input: Seq<u8>, names: Seq<(u64, u16)>, k: int)
    requires
        0 <= k <= names.len(),
    ensures
        ({
            let all = interned(input, names, k);
            &&& all.ids.len() == k
            &&& all.table.len() <= k
            &&& forall|i: int| 0 <= i < k ==> #[trigger] has_id(input, names, all, i)
        }),
    decreases k,
{
    if k > 0 {
        lemma_interned(input, names, k - 1);
        let before = interned(input, names, k - 1);
        let all = interned(input, names, k);
        let last = names[k - 1];
        lemma_entry_of(input, before.table, last, entry_bytes(input, last), 0);
        assert forall|i: int| 0 <= i < k implies #[trigger] has_id(input, names, all, i) by {
            if i < k - 1 {
                assert(has_id(input, names, before, i));
                lemma_entry_of(input, before.table, last, entry_bytes(input, names[i]), 0);
            }
        }
    }
}

impl<'a> XmlIndex<'a> {
    /// Whether tag `i` is an element of this name.
    pub open spec fn named_element(&self, name: Seq<u8>) -> spec_fn(int) -> bool {
        |i: int| self.element(i) && self.name_bytes(i) == name
    }

    proof fn lemma_listed_prefix(&self, name: Seq<u8>, id: int, k: int)
        requires
            self.wf(),
            self.names_indexed(),
            self.tags() <= u32::MAX,
            self.name_table@.len() <= u16::MAX,
            name.len() > 0,
            entry_of(self.input@, self.name_table@, name, 0) == Some(id),
            0 <= k <= self.tags(),
        ensures
            owned(listed_under(self.tag_types@, self.name_ids@), id, k).map_values(
                |t: u32| t as int,
            ) == picked(self.named_element(name), k),
        decreases k,
    {
        let owner = listed_under(self.tag_types@, self.name_ids@);
        let all = owned(owner, id, k).map_values(|t: u32| t as int);
        if k > 0 {
            self.lemma_listed_prefix(name, id, k - 1);
            let i = k - 1;
            let before = owned(owner, id, k - 1).map_values(|t: u32| t as int);
            lemma_interned(self.input@, self.tag_names@, self.tags() as int);
            lemma_entry_of(self.input@, self.name_table@, (0, 0), self.name_bytes(i), 0);
            lemma_entry_of(self.input@, self.name_table@, (0, 0), name, 0);
            assert(has_id(
                self.input@,
                self.tag_names@,
                interned(self.input@, self.tag_names@, self.tags() as int),
                i,
            ));
            if owner[k - 1] == id {
                assert(all =~= before.push(k - 1));
            }
        } else {
            assert(all =~= Seq::empty());
        }
    }

    proof fn lemma_unlisted(&self, name: Seq<u8>, k: int)
        requires
            self.wf(),
            self.names_indexed(),
            name.len() > 0,
            entry_of(self.input@, self.name_table@, name, 0) is None,
            0 <= k <= self.tags(),
        ensures
            picked(self.named_element(name), k) == Seq::<int>::empty(),
        decreases k,
    {
        if k > 0 {
            self.lemma_unlisted(name, k - 1);
            lemma_interned(self.input@, self.tag_names@, self.tags() as int);
            assert(has_id(
                self.input@,
                self.tag_names@,
                interned(self.input@, self.tag_names@, self.tags() as int),
                k - 1,
            ));
        }
    }

    /// The name tables list under a name exactly the elements of that name, in
    /// document order, as long as there are at most 65535 distinct names.
    pub proof fn lemma_tags_by_name(&self, name: Seq<u8>)
        requires
            self.wf(),
            self.names_indexed(),
            self.tags() <= u32::MAX,
            self.name_table@.len() <= u16::MAX,
            name.len() > 0,
        ensures
            self.listed(name).map_values(|t: u32| t as int) == picked(
                self.named_element(name),
                self.tags() as int,
            ),
    {
        lemma_entry_of(self.input@, self.name_table@, (0, 0), name, 0);
        match entry_of(self.input@, self.name_table@, name, 0) {
            Some(id) => {
                self.lemma_listed_prefix(name, id, self.tags() as int);
                assert(self.name_posting@[id]@ == owned(
                    listed_under(self.tag_types@, self.name_ids@),
                    id,
                    self.tags() as int,
                ));
            },
            None => {
                self.lemma_unlisted(name, self.tags() as int);
                assert(self.listed(name).map_values(|t: u32| t as int) =~= Seq::<int>::empty());
            },
        }
    }

    /// Tags with a name have the same name ID exactly when they have the same name, as
    /// long as there are at most 65535 distinct names.
    pub proof fn lemma_same_name_same_id(&self, i: int, j: int)
        requires
            self.wf(),
            self.names_indexed(),
            self.name_table@.len() <= u16::MAX,
            0 <= i < self.tags(),
            0 <= j < self.tags(),
            self.tag_names@[i].1 > 0,
            self.tag_names@[j].1 > 0,
        ensures
            self.name_ids@[i] == self.name_ids@[j] <==> self.name_bytes(i) == self.name_bytes(j),
            self.name_ids@[i] != u16::MAX,
    {
        let all = interned(self.input@, self.tag_names@, self.tags() as int);
        lemma_interned(self.input@, self.tag_names@, self.tags() as int);
        assert(has_id(self.input@, self.tag_names@, all, i));
        assert(has_id(self.input@, self.tag_names@, all, j));
        lemma_entry_of(self.input@, self.name_table@, (0, 0), self.name_bytes(i), 0);
        lemma_entry_of(self.input@, self.name_table@, (0, 0), self.name_bytes(j), 0);
    }
}

} // verus!
