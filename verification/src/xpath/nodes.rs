//! Node sets: document order, duplicates and node tests.

use std::collections::{HashMap, HashSet};
use vstd::prelude::*;
use vstd::utf8::encode_utf8;
use crate::bytes::{occurs_at, starts_at};
use crate::index::access::is_element_type;
use crate::text::str_eq;
use crate::index::{TagType, XmlIndex};
use crate::xpath::ast::{NodeTest, TestV};

verus! {

/// A node in an XPath result set.
#[derive(Debug, Clone, Copy, PartialEq, Eq, Structural)]
pub enum XPathNode {
    /// A tag, by index; `DOC_ROOT` stands for the document root.
    Element(usize),
    /// A text range, by index.
    Text(usize),
    /// An attribute: its tag and the hash of its name.
    Attribute(usize, u64),
    /// A namespace: its owning tag and the hash of its prefix.
    Namespace(usize, u64),
}

/// Index that stands for the virtual document root.
pub const DOC_ROOT: usize = usize::MAX;

/// The 64-bit FNV-1a hash of the first `k` bytes.
pub open spec fn fnv1a(bytes: Seq<u8>, k: int) -> u64
    decreases k,
{
    if k <= 0 {
        0xcbf29ce484222325
    } else {
        let h = fnv1a(bytes, k - 1) ^ (bytes[k - 1] as u64);
        ((h * 0x100000001b3) % 0x1_0000_0000_0000_0000) as u64
    }
}

/// The hash of a name.
pub open spec fn name_hash(name: Seq<char>) -> u64 {
    fnv1a(encode_utf8(name), encode_utf8(name).len() as int)
}

/// Hashes bytes with 64-bit FNV-1a.
pub fn fnv1a_hash(bytes: &[u8]) -> (r: u64)
    ensures
        r == fnv1a(bytes@, bytes@.len() as int),
{
    let n: usize = bytes.len();
    let mut h: u64 = 0xcbf29ce484222325;
    let mut i: usize = 0;
    while i < n
        invariant
            n == bytes@.len(),
            i <= n,
            h == fnv1a(bytes@, i as int),
        decreases n - i,
    {
        h = (h ^ (bytes[i] as u64)).wrapping_mul(0x100000001b3);
        i += 1;
    }
    h
}

/// Hashes an attribute name for storage in a node.
pub fn attr_name_hash(name: &str) -> (r: u64)
    ensures
        r == name_hash(name@),
{
    fnv1a_hash(name.as_bytes())
}

/// Whether a node refers to something in the index.
pub open spec fn node_ok(ix: XmlIndex, node: XPathNode) -> bool {
    match node {
        XPathNode::Element(i) => i == DOC_ROOT || i < ix.tags(),
        XPathNode::Text(i) => i < ix.text_ranges@.len(),
        XPathNode::Attribute(i, _) => i < ix.tags(),
        XPathNode::Namespace(i, _) => i < ix.tags(),
    }
}

/// Whether all nodes refer to something in the index.
pub open spec fn nodes_ok(ix: XmlIndex, nodes: Seq<XPathNode>) -> bool {
    forall|i: int| 0 <= i < nodes.len() ==> node_ok(ix, #[trigger] nodes[i])
}

/// The position that a node is ordered by: the document root comes first, the other
/// nodes by where they start, an element before its namespaces and these before its
/// attributes.
pub open spec fn doc_pos(ix: XmlIndex, node: XPathNode) -> u128 {
    match node {
        XPathNode::Element(i) => if i < ix.tags() {
            place_after(ix.tag_starts@[i as int], 1)
        } else {
            0
        },
        XPathNode::Text(i) => if i < ix.text_ranges@.len() {
            place_after(ix.text_ranges@[i as int].start, 1)
        } else {
            0
        },
        XPathNode::Namespace(i, _) => if i < ix.tags() {
            place_after(ix.tag_starts@[i as int], 2)
        } else {
            0
        },
        XPathNode::Attribute(i, _) => if i < ix.tags() {
            place_after(ix.tag_starts@[i as int], 3)
        } else {
            0
        },
    }
}

/// The `n`th of the three positions at a byte.
pub open spec fn place_after(start: u64, n: int) -> u128 {
    (3 * start + n) as u128
}

/// The position that a node is ordered by: see `doc_pos`.
pub fn node_doc_pos(index: &XmlIndex, node: &XPathNode) -> (r: u128)
    requires
        index.wf(),
    ensures
        r == doc_pos(*index, *node),
{
    match *node {
        XPathNode::Element(i) => if i < index.tag_count() {
            3 * (index.tag_starts[i] as u128) + 1
        } else {
            0
        },
        XPathNode::Text(i) => if i < index.text_count() {
            3 * (index.text_ranges[i].start as u128) + 1
        } else {
            0
        },
        XPathNode::Namespace(i, _) => if i < index.tag_count() {
            3 * (index.tag_starts[i] as u128) + 2
        } else {
            0
        },
        XPathNode::Attribute(i, _) => if i < index.tag_count() {
            3 * (index.tag_starts[i] as u128) + 3
        } else {
            0
        },
    }
}

/// A node with the position it is ordered by.
pub type Placed = (u128, XPathNode);

/// Inserts an item into a list, before the first item with a larger position.
pub open spec fn insert_placed(list: Seq<Placed>, x: Placed) -> Seq<Placed>
    decreases list.len(),
{
    if list.len() == 0 {
        seq![x]
    } else if x.0 < list[0].0 {
        seq![x] + list
    } else {
        seq![list[0]] + insert_placed(list.drop_first(), x)
    }
}

/// The items sorted by position; items with equal positions keep their order.
pub open spec fn sort_placed(items: Seq<Placed>) -> Seq<Placed>
    decreases items.len(),
{
    if items.len() == 0 {
        Seq::empty()
    } else {
        insert_placed(sort_placed(items.drop_last()), items.last())
    }
}

/// Two lists merged by position; items of the first list go before items of
/// the second with an equal position.
pub open spec fn merge_placed(a: Seq<Placed>, b: Seq<Placed>) -> Seq<Placed>
    decreases a.len() + b.len(),
{
    if a.len() == 0 {
        b
    } else if b.len() == 0 {
        a
    } else if a[0].0 <= b[0].0 {
        seq![a[0]] + merge_placed(a.drop_first(), b)
    } else {
        seq![b[0]] + merge_placed(a, b.drop_first())
    }
}

/// Inserting after merging is merging after inserting into the second list.
proof fn lemma_insert_merge(a: Seq<Placed>, b: Seq<Placed>, x: Placed)
    ensures
        insert_placed(merge_placed(a, b), x) == merge_placed(a, insert_placed(b, x)),
    decreases a.len() + b.len(),
{
    let ib = insert_placed(b, x);
    if a.len() == 0 {
        assert(merge_placed(a, b) == b);
        assert(merge_placed(a, ib) == ib);
    } else if b.len() == 0 {
        assert(ib =~= seq![x]);
        assert(merge_placed(a, b) == a);
        if x.0 < a[0].0 {
            assert(ib.drop_first() =~= b);
            assert(merge_placed(a, ib) == seq![x] + merge_placed(a, b));
        } else {
            lemma_insert_merge(a.drop_first(), b, x);
            assert(merge_placed(a.drop_first(), b) == a.drop_first()) by {
                if a.drop_first().len() == 0 {
                    assert(b =~= a.drop_first());
                }
            }
            assert(merge_placed(a, ib) == seq![a[0]] + merge_placed(a.drop_first(), ib));
        }
    } else if a[0].0 <= b[0].0 {
        let m = seq![a[0]] + merge_placed(a.drop_first(), b);
        assert(merge_placed(a, b) == m);
        assert(m.drop_first() =~= merge_placed(a.drop_first(), b));
        if x.0 < a[0].0 {
            assert(ib =~= seq![x] + b);
            assert(ib.drop_first() =~= b);
        } else {
            lemma_insert_merge(a.drop_first(), b, x);
            assert(ib.len() > 0 && a[0].0 <= ib[0].0);
        }
    } else {
        let m = seq![b[0]] + merge_placed(a, b.drop_first());
        assert(merge_placed(a, b) == m);
        assert(m.drop_first() =~= merge_placed(a, b.drop_first()));
        if x.0 < b[0].0 {
            assert(ib =~= seq![x] + b);
            assert(ib.drop_first() =~= b);
        } else {
            lemma_insert_merge(a, b.drop_first(), x);
            assert(ib =~= seq![b[0]] + insert_placed(b.drop_first(), x));
            assert(ib.drop_first() =~= insert_placed(b.drop_first(), x));
        }
    }
}

/// Sorting two parts and merging them sorts the whole.
proof fn lemma_sort_concat(a: Seq<Placed>, b: Seq<Placed>)
    ensures
        sort_placed(a + b) == merge_placed(sort_placed(a), sort_placed(b)),
    decreases b.len(),
{
    if b.len() == 0 {
        assert(a + b =~= a);
        assert(merge_placed(sort_placed(a), Seq::<Placed>::empty()) == sort_placed(a)) by {
            if sort_placed(a).len() == 0 {
                assert(sort_placed(a) =~= Seq::<Placed>::empty());
            }
        }
    } else {
        lemma_sort_concat(a, b.drop_last());
        assert((a + b).drop_last() =~= a + b.drop_last());
        lemma_insert_merge(sort_placed(a), sort_placed(b.drop_last()), b.last());
    }
}

/// Inserting keeps the items and adds one.
pub proof fn lemma_insert_multiset(list: Seq<Placed>, x: Placed)
    ensures
        insert_placed(list, x).to_multiset() == list.to_multiset().insert(x),
        insert_placed(list, x).len() == list.len() + 1,
    decreases list.len(),
{
    broadcast use vstd::seq_lib::group_to_multiset_ensures;

    if list.len() == 0 {
        assert(seq![x] =~= list.push(x));
    } else if x.0 < list[0].0 {
        vstd::seq_lib::lemma_multiset_commutative(seq![x], list);
        assert(seq![x] =~= Seq::empty().push(x));
        assert((seq![x] + list).to_multiset() =~= list.to_multiset().insert(x));
    } else {
        lemma_insert_multiset(list.drop_first(), x);
        let rest = insert_placed(list.drop_first(), x);
        vstd::seq_lib::lemma_multiset_commutative(seq![list[0]], rest);
        vstd::seq_lib::lemma_multiset_commutative(seq![list[0]], list.drop_first());
        assert(seq![list[0]] + list.drop_first() =~= list);
        assert(insert_placed(list, x).to_multiset() =~= list.to_multiset().insert(x));
    }
}

/// Sorting keeps the items.
pub proof fn lemma_sort_multiset(items: Seq<Placed>)
    ensures
        sort_placed(items).to_multiset() == items.to_multiset(),
        sort_placed(items).len() == items.len(),
    decreases items.len(),
{
    broadcast use vstd::seq_lib::group_to_multiset_ensures;

    if items.len() > 0 {
        lemma_sort_multiset(items.drop_last());
        lemma_insert_multiset(sort_placed(items.drop_last()), items.last());
        assert(items.drop_last().push(items.last()) =~= items);
    } else {
        assert(items =~= Seq::empty());
    }
}

proof fn lemma_insert_sorted(list: Seq<Placed>, x: Placed)
    requires
        forall|i: int, j: int| 0 <= i <= j < list.len() ==> list[i].0 <= list[j].0,
    ensures
        forall|i: int, j: int|
            0 <= i <= j < insert_placed(list, x).len() ==> insert_placed(list, x)[i].0
                <= insert_placed(list, x)[j].0,
        insert_placed(list, x).len() == list.len() + 1,
        insert_placed(list, x)[0].0 == (if list.len() > 0 && list[0].0 <= x.0 {
            list[0].0
        } else {
            x.0
        }),
    decreases list.len(),
{
    if list.len() > 0 && !(x.0 < list[0].0) {
        lemma_insert_sorted(list.drop_first(), x);
    }
}

/// Sorting puts the items in ascending order of position.
pub proof fn lemma_sort_sorted(items: Seq<Placed>)
    ensures
        forall|i: int, j: int|
            0 <= i <= j < sort_placed(items).len() ==> sort_placed(items)[i].0 <= sort_placed(
                items,
            )[j].0,
    decreases items.len(),
{
    if items.len() > 0 {
        lemma_sort_sorted(items.drop_last());
        lemma_insert_sorted(sort_placed(items.drop_last()), items.last());
    }
}

/// Sorts items by position: see `sort_placed`.
pub fn sort_items(items: &[Placed]) -> (r: Vec<Placed>)
    ensures
        r@ == sort_placed(items@),
    decreases items@.len(),
{
    let n: usize = items.len();
    let mut out: Vec<Placed> = Vec::new();
    if n == 0 {
        assert(out@ =~= sort_placed(items@));
        return out;
    }
    if n == 1 {
        out.push(items[0]);
        proof {
            assert(items@.drop_last() =~= Seq::empty());
            assert(sort_placed(items@.drop_last()) =~= Seq::empty());
            assert(out@ =~= seq![items@[0]]);
        }
        return out;
    }
    let mid: usize = n / 2;
    let left = vstd::slice::slice_subrange(items, 0, mid);
    let right = vstd::slice::slice_subrange(items, mid, n);
    let a = sort_items(left);
    let b = sort_items(right);
    proof {
        assert(left@ + right@ =~= items@);
        lemma_sort_concat(left@, right@);
    }
    merge_items(&a, &b)
}

/// Merges two lists by position: see `merge_placed`.
pub fn merge_items(a: &Vec<Placed>, b: &Vec<Placed>) -> (r: Vec<Placed>)
    ensures
        r@ == merge_placed(a@, b@),
{
    let mut out: Vec<Placed> = Vec::new();
    let mut i: usize = 0;
    let mut j: usize = 0;
    assert(a@.skip(0) =~= a@);
    assert(b@.skip(0) =~= b@);
    assert(out@ + merge_placed(a@, b@) =~= merge_placed(a@, b@));
    while i < a.len() && j < b.len()
        invariant
            i <= a@.len(),
            j <= b@.len(),
            out@ + merge_placed(a@.skip(i as int), b@.skip(j as int)) == merge_placed(a@, b@),
        decreases a@.len() - i + b@.len() - j,
    {
        let ghost before = out@;
        let ghost ta = a@.skip(i as int);
        let ghost tb = b@.skip(j as int);
        assert(ta.drop_first() =~= a@.skip(i + 1));
        assert(tb.drop_first() =~= b@.skip(j + 1));
        if a[i].0 <= b[j].0 {
            out.push(a[i]);
            assert(before + (seq![ta[0]] + merge_placed(ta.drop_first(), tb)) =~= out@
                + merge_placed(ta.drop_first(), tb));
            i += 1;
        } else {
            out.push(b[j]);
            assert(before + (seq![tb[0]] + merge_placed(ta, tb.drop_first())) =~= out@
                + merge_placed(ta, tb.drop_first()));
            j += 1;
        }
    }
    let ghost ta = a@.skip(i as int);
    let ghost tb = b@.skip(j as int);
    let ghost done = out@;
    proof {
        if i == a@.len() {
            assert(merge_placed(ta, tb) =~= tb);
            assert(merge_placed(a@, b@) =~= done + tb);
            assert(ta =~= Seq::empty());
            assert(ta + tb =~= tb);
        } else {
            assert(tb =~= Seq::empty());
            assert(merge_placed(ta, tb) =~= ta);
            assert(ta + tb =~= ta);
        }
        assert(merge_placed(a@, b@) =~= done + (ta + tb));
    }
    while i < a.len()
        invariant
            i <= a@.len(),
            j <= b@.len(),
            out@ + (a@.skip(i as int) + tb) == merge_placed(a@, b@),
        decreases a@.len() - i,
    {
        let ghost before = out@;
        out.push(a[i]);
        assert(before + (a@.skip(i as int) + tb) =~= out@ + (a@.skip(i + 1) + tb));
        i += 1;
    }
    assert(a@.skip(i as int) + tb =~= tb);
    while j < b.len()
        invariant
            j <= b@.len(),
            out@ + b@.skip(j as int) == merge_placed(a@, b@),
        decreases b@.len() - j,
    {
        let ghost before = out@;
        out.push(b[j]);
        assert(before + b@.skip(j as int) =~= out@ + b@.skip(j + 1));
        j += 1;
    }
    assert(out@ + b@.skip(j as int) =~= out@);
    out
}

/// The nodes of a list of placed nodes.
pub open spec fn unplaced(items: Seq<Placed>) -> Seq<XPathNode> {
    items.map_values(|p: Placed| p.1)
}

/// The nodes with their positions in the document.
pub open spec fn placed(ix: XmlIndex, nodes: Seq<XPathNode>) -> Seq<Placed> {
    nodes.map_values(|n: XPathNode| (doc_pos(ix, n), n))
}

/// The nodes in document order.
pub open spec fn in_doc_order(ix: XmlIndex, nodes: Seq<XPathNode>) -> Seq<XPathNode> {
    unplaced(sort_placed(placed(ix, nodes)))
}

/// Whether all placed nodes refer to something in the index.
pub open spec fn placed_ok(ix: XmlIndex, items: Seq<Placed>) -> bool {
    forall|i: int| 0 <= i < items.len() ==> node_ok(ix, (#[trigger] items[i]).1)
}

/// Sorting keeps nodes valid.
pub proof fn lemma_sort_ok(ix: XmlIndex, items: Seq<Placed>)
    requires
        placed_ok(ix, items),
    ensures
        placed_ok(ix, sort_placed(items)),
{
    broadcast use vstd::seq_lib::group_to_multiset_ensures;

    lemma_sort_multiset(items);
    let sorted = sort_placed(items);
    assert forall|i: int| 0 <= i < sorted.len() implies node_ok(ix, (#[trigger] sorted[i]).1) by {
        assert(sorted.to_multiset().count(sorted[i]) > 0);
        assert(items.contains(sorted[i]));
    }
}

/// The nodes of placed nodes.
pub fn nodes_of(items: &Vec<Placed>) -> (r: Vec<XPathNode>)
    ensures
        r@ == unplaced(items@),
{
    let mut out: Vec<XPathNode> = Vec::new();
    let mut i: usize = 0;
    while i < items.len()
        invariant
            i <= items@.len(),
            out@ == unplaced(items@.take(i as int)),
        decreases items@.len() - i,
    {
        out.push(items[i].1);
        assert(out@ =~= unplaced(items@.take(i + 1)));
        i += 1;
    }
    assert(items@.take(i as int) =~= items@);
    out
}

/// Sorts nodes into document order.
pub fn sort_doc_order(index: &XmlIndex, nodes: &mut Vec<XPathNode>)
    requires
        index.wf(),
        nodes_ok(*index, old(nodes)@),
    ensures
        final(nodes)@ == in_doc_order(*index, old(nodes)@),
        nodes_ok(*index, final(nodes)@),
{
    let mut items: Vec<Placed> = Vec::new();
    let mut i: usize = 0;
    while i < nodes.len()
        invariant
            index.wf(),
            i <= nodes@.len(),
            items@ == placed(*index, nodes@.take(i as int)),
        decreases nodes@.len() - i,
    {
        let node = nodes[i];
        items.push((node_doc_pos(index, &node), node));
        assert(items@ =~= placed(*index, nodes@.take(i + 1)));
        i += 1;
    }
    assert(nodes@.take(i as int) =~= nodes@);
    let sorted = sort_items(items.as_slice());
    proof {
        assert forall|j: int| 0 <= j < items@.len() implies node_ok(
            *index,
            (#[trigger] items@[j]).1,
        ) by {
            assert(node_ok(*index, nodes@[j]));
        }
        lemma_sort_ok(*index, items@);
    }
    *nodes = nodes_of(&sorted);
}

/// What makes two nodes the same for the removal of duplicates: their kind, a
/// tag or text number, and the hash of a name.
pub open spec fn dedup_key(node: XPathNode) -> (int, usize, u64) {
    match node {
        XPathNode::Element(i) => (0, i, 0),
        XPathNode::Text(i) => (1, i, 0),
        XPathNode::Attribute(i, h) => (2, i, h),
        XPathNode::Namespace(i, h) => (3, i, h),
    }
}

/// Whether one of the first `k` nodes has the given key.
pub open spec fn key_seen(nodes: Seq<XPathNode>, k: int, key: (int, usize, u64)) -> bool {
    exists|j: int| 0 <= j < k && dedup_key(#[trigger] nodes[j]) == key
}

/// The first node of each key among the first `k` nodes, in order.
pub open spec fn distinct(nodes: Seq<XPathNode>, k: int) -> Seq<XPathNode>
    decreases k,
{
    if k <= 0 {
        Seq::empty()
    } else if key_seen(nodes, k - 1, dedup_key(nodes[k - 1])) {
        distinct(nodes, k - 1)
    } else {
        distinct(nodes, k - 1).push(nodes[k - 1])
    }
}

/// Whether the table lists a hash under a tag.
spec fn lists_hash(seen: Map<usize, Vec<u64>>, tag: usize, hash: u64) -> bool {
    seen.contains_key(tag) && seen[tag]@.contains(hash)
}

/// Whether the table lists, by tag, exactly the hashes that the first `k` nodes
/// of a kind have.
spec fn hashes_seen(
    seen: Map<usize, Vec<u64>>,
    nodes: Seq<XPathNode>,
    k: int,
    kind: int,
) -> bool {
    forall|i: usize, h: u64| #[trigger]
        lists_hash(seen, i, h) <==> key_seen(nodes, k, (kind, i, h))
}

/// Adds a hash to those of a tag. Tells whether it was new.
fn add_hash(seen: &mut HashMap<usize, Vec<u64>>, tag: usize, hash: u64) -> (r: bool)
    ensures
        r == !lists_hash(old(seen)@, tag, hash),
        forall|i: usize, h: u64| #[trigger]
            lists_hash(final(seen)@, i, h) <==> lists_hash(old(seen)@, i, h) || (i == tag && h
                == hash),
{
    broadcast use vstd::std_specs::hash::group_hash_axioms;

    let mut hashes: Vec<u64> = match seen.remove(&tag) {
        Some(v) => v,
        None => Vec::new(),
    };
    let ghost before = hashes@;
    let mut fresh = true;
    let mut j: usize = 0;
    while j < hashes.len()
        invariant
            before == hashes@,
            j <= before.len(),
            fresh == !before.take(j as int).contains(hash),
        decreases before.len() - j,
    {
        assert(before.take(j + 1) =~= before.take(j as int).push(before[j as int]));
        let ghost short = before.take(j as int);
        let ghost long = before.take(j + 1);
        if hashes[j] == hash {
            fresh = false;
            assert(long[j as int] == hash);
        }
        proof {
            if short.contains(hash) {
                let w = choose|w: int| 0 <= w < short.len() && short[w] == hash;
                assert(long[w] == hash);
            }
            if long.contains(hash) && before[j as int] != hash {
                let w = choose|w: int| 0 <= w < long.len() && long[w] == hash;
                assert(short[w] == hash);
            }
        }
        j += 1;
    }
    assert(before.take(j as int) =~= before);
    if fresh {
        hashes.push(hash);
    }
    proof {
        assert forall|h: u64| #[trigger] hashes@.contains(h) <==> (before.contains(h) || h
            == hash) by {
            if before.contains(h) {
                let w = choose|w: int| 0 <= w < before.len() && before[w] == h;
                assert(hashes@[w] == h);
            }
            if h == hash && fresh {
                assert(hashes@[before.len() as int] == h);
            }
            if hashes@.contains(h) {
                let w = choose|w: int| 0 <= w < hashes@.len() && hashes@[w] == h;
                if w < before.len() {
                    assert(before[w] == h);
                }
            }
        }
    }
    seen.insert(tag, hashes);
    fresh
}

/// Removes nodes whose key occurred before.
pub fn dedup_nodes(nodes: &mut Vec<XPathNode>)
    ensures
        final(nodes)@ == distinct(old(nodes)@, old(nodes)@.len() as int),
        forall|i: int|
            0 <= i < final(nodes)@.len() ==> old(nodes)@.contains(#[trigger] final(nodes)@[i]),
{
    broadcast use vstd::std_specs::hash::group_hash_axioms;

    let mut elements: HashSet<usize> = HashSet::new();
    let mut texts: HashSet<usize> = HashSet::new();
    let mut attributes: HashMap<usize, Vec<u64>> = HashMap::new();
    let mut namespaces: HashMap<usize, Vec<u64>> = HashMap::new();
    let mut out: Vec<XPathNode> = Vec::new();
    let ghost all = nodes@;
    let mut i: usize = 0;
    while i < nodes.len()
        invariant
            all == nodes@,
            i <= all.len(),
            out@ == distinct(all, i as int),
            forall|q: int| 0 <= q < out@.len() ==> all.contains(#[trigger] out@[q]),
            forall|k: usize| elements@.contains(k) <==> key_seen(all, i as int, (0int, k, 0u64)),
            forall|k: usize| texts@.contains(k) <==> key_seen(all, i as int, (1int, k, 0u64)),
            hashes_seen(attributes@, all, i as int, 2),
            hashes_seen(namespaces@, all, i as int, 3),
        decreases all.len() - i,
    {
        broadcast use vstd::std_specs::hash::group_hash_axioms;

        let node = nodes[i];
        let ghost key = dedup_key(node);
        let ghost was_seen = key_seen(all, i as int, key);
        let fresh = match node {
            XPathNode::Element(k) => elements.insert(k),
            XPathNode::Text(k) => texts.insert(k),
            XPathNode::Attribute(k, h) => add_hash(&mut attributes, k, h),
            XPathNode::Namespace(k, h) => add_hash(&mut namespaces, k, h),
        };
        assert(fresh == !was_seen);
        if fresh {
            out.push(node);
            assert(all.contains(node));
        }
        proof {
            assert forall|key: (int, usize, u64)| #[trigger]
                key_seen(all, i + 1, key) == (key_seen(all, i as int, key) || dedup_key(node)
                == key) by {
                if key_seen(all, i as int, key) {
                    let j = choose|j: int| 0 <= j < i && dedup_key(#[trigger] all[j]) == key;
                    assert(dedup_key(all[j]) == key);
                }
                if dedup_key(node) == key {
                    assert(dedup_key(all[i as int]) == key);
                }
            }
            assert(hashes_seen(attributes@, all, i + 1, 2));
            assert(hashes_seen(namespaces@, all, i + 1, 3));
        }
        i += 1;
    }
    *nodes = out;
}

/// Whether a name is a prefix, a colon and a local name; with `*` for the local
/// name, whether it begins with the prefix and a colon.
pub open spec fn has_prefixed(name: Seq<u8>, prefix: Seq<char>, local: Seq<char>) -> bool {
    if local == "*"@ {
        occurs_at(name, 0, encode_utf8(prefix + ":"@))
    } else {
        name == encode_utf8(prefix + ":"@ + local)
    }
}

/// Whether a node passes a node test.
pub open spec fn passes(ix: XmlIndex, node: XPathNode, test: TestV) -> bool {
    match (node, test) {
        (_, TestV::Node) => true,
        (XPathNode::Element(i), TestV::Wildcard) => i < ix.tags() && ix.element(i as int),
        (XPathNode::Element(i), TestV::Name(name)) => i < ix.tags() && ix.element(i as int)
            && ix.name_bytes(i as int) == encode_utf8(name),
        (XPathNode::Element(i), TestV::NamespacedName(prefix, local)) => i < ix.tags()
            && ix.element(i as int) && has_prefixed(ix.name_bytes(i as int), prefix, local),
        (XPathNode::Element(i), TestV::Comment) => i < ix.tags() && ix.tag_types@[i as int]
            == TagType::Comment,
        (XPathNode::Element(i), TestV::PI) => i < ix.tags() && ix.tag_types@[i as int]
            == TagType::PI,
        (XPathNode::Element(i), TestV::PIName(name)) => i < ix.tags() && ix.tag_types@[i as int]
            == TagType::PI && ix.name_bytes(i as int) == encode_utf8(name),
        (XPathNode::Text(_), TestV::Text) => true,
        (XPathNode::Attribute(_, _), TestV::Wildcard) => true,
        (XPathNode::Namespace(_, _), TestV::Wildcard) => true,
        (XPathNode::Namespace(_, h), TestV::Name(name)) => h == name_hash(name),
        _ => false,
    }
}

/// Tests a node: see `passes`.
pub fn matches_node_test(index: &XmlIndex, node: XPathNode, test: &NodeTest) -> (r: bool)
    requires
        index.wf(),
    ensures
        r == passes(*index, node, test@),
{
    match test {
        NodeTest::Node => true,
        NodeTest::Wildcard => match node {
            XPathNode::Element(i) => i < index.tag_count() && is_element_type(index.tag_types[i]),
            XPathNode::Attribute(_, _) => true,
            XPathNode::Namespace(_, _) => true,
            XPathNode::Text(_) => false,
        },
        NodeTest::Name(name) => match node {
            XPathNode::Element(i) => i < index.tag_count() && is_element_type(index.tag_types[i])
                && index.tag_name_eq(i, name.as_str()),
            XPathNode::Namespace(_, h) => h == attr_name_hash(name.as_str()),
            _ => false,
        },
        NodeTest::Comment => match node {
            XPathNode::Element(i) => i < index.tag_count() && index.tag_types[i]
                == TagType::Comment,
            _ => false,
        },
        NodeTest::PI => match node {
            XPathNode::Element(i) => i < index.tag_count() && index.tag_types[i] == TagType::PI,
            _ => false,
        },
        NodeTest::PIName(name) => match node {
            XPathNode::Element(i) => i < index.tag_count() && index.tag_types[i] == TagType::PI
                && index.tag_name_eq(i, name.as_str()),
            _ => false,
        },
        NodeTest::Text => match node {
            XPathNode::Text(_) => true,
            _ => false,
        },
        NodeTest::NamespacedName(prefix, local) => match node {
            XPathNode::Element(i) => {
                if i >= index.tag_count() || !is_element_type(index.tag_types[i]) {
                    return false;
                }
                let mut name = String::new();
                name.append(prefix.as_str());
                name.append(":");
                assert(name@ =~= prefix@ + ":"@);
                if str_eq(local.as_str(), "*") {
                    return starts_at(index.name_slice(i), 0, name.as_str().as_bytes());
                }
                name.append(local.as_str());
                assert(name@ =~= prefix@ + ":"@ + local@);
                index.tag_name_eq(i, name.as_str())
            },
            _ => false,
        },
    }
}

/// The nodes among the first `k` that pass a test, in order.
pub open spec fn passing(ix: XmlIndex, nodes: Seq<XPathNode>, test: TestV, k: int) -> Seq<
    XPathNode,
>
    decreases k,
{
    if k <= 0 {
        Seq::empty()
    } else if passes(ix, nodes[k - 1], test) {
        passing(ix, nodes, test, k - 1).push(nodes[k - 1])
    } else {
        passing(ix, nodes, test, k - 1)
    }
}

/// Keeps the nodes that pass a test.
pub fn filter_nodes(index: &XmlIndex, nodes: &Vec<XPathNode>, test: &NodeTest) -> (r: Vec<
    XPathNode,
>)
    requires
        index.wf(),
        nodes_ok(*index, nodes@),
    ensures
        r@ == passing(*index, nodes@, test@, nodes@.len() as int),
        nodes_ok(*index, r@),
{
    let mut out: Vec<XPathNode> = Vec::new();
    let mut i: usize = 0;
    while i < nodes.len()
        invariant
            index.wf(),
            nodes_ok(*index, nodes@),
            i <= nodes@.len(),
            out@ == passing(*index, nodes@, test@, i as int),
            nodes_ok(*index, out@),
        decreases nodes@.len() - i,
    {
        if matches_node_test(index, nodes[i], test) {
            out.push(nodes[i]);
        }
        i += 1;
    }
    out
}

} // verus!
