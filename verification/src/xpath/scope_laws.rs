//! Which nodes are the children and the descendants of a node.

use vstd::prelude::*;
use vstd::seq_lib::*;
use crate::index::laws::{
    enclosing, is_nested, lemma_no_crossing, lemma_open_stack, lemma_open_until_closed,
    lemma_parsed_nested, lemma_self_closing, open_stack, parent_entry, partner,
};
use crate::index::outline::Doc;
use crate::index::structural::parsed;
use crate::index::tables::{child_owner, lemma_owned, lemma_pairing_shape, owned, text_owner};
use crate::index::text_laws::{in_open_tag, lemma_parsed_texts, texts_placed};
use crate::index::{TagType, XmlIndex};
use crate::xpath::axes::{
    child_axis, descendant_axis, is_node_kind, parent_node, pick_tags, pick_texts, picks,
    picks_text, row_nodes, scope_end, self_item, PickV, TextPick,
};
use crate::xpath::laws::{lemma_in_doc_order, lemma_tidy};
use crate::xpath::lazy_laws::{lemma_pick_tags, lemma_same_ascending};
use crate::xpath::nodes::{
    dedup_key, doc_pos, in_doc_order, key_seen, merge_placed, placed, unplaced, Placed, XPathNode,
    DOC_ROOT,
};
use crate::xpath::path_laws::lemma_scope_end;
use crate::xpath::semantics::{scope, tidy};

verus! {

/// An index whose arrays follow the nesting of its tags, whose close tags are found
/// by nesting, and whose lookup tables, if it has any, are those of its arrays.
pub open spec fn is_faithful(ix: XmlIndex) -> bool {
    &&& ix.wf()
    &&& ix.tables_fit()
    &&& is_nested(ix.doc())
    &&& texts_placed(ix.doc())
    &&& forall|k: int|
        0 <= k <= ix.tags() ==> #[trigger] open_stack(ix.tag_types@, k).len() < 0x1_0000
    &&& forall|i: int| #![trigger ix.tag_types@[i]]
        0 <= i < ix.tags() && ix.tag_types@[i] == TagType::Open ==> ix.close_of(i) == partner(
            ix.tag_types@,
            i,
        )
    &&& forall|i: int| #![trigger ix.tag_types@[i]]
        0 <= i < ix.tags() && ix.tag_types@[i] == TagType::SelfClose ==> ix.close_of(i) == Some(i)
    &&& ix.tabled() ==> ix.indexed()
}

// Members of lists.

pub proof fn lemma_merge_members(a: Seq<Placed>, b: Seq<Placed>, x: Placed)
    ensures
        merge_placed(a, b).contains(x) <==> a.contains(x) || b.contains(x),
    decreases a.len() + b.len(),
{
    let all = merge_placed(a, b);
    if a.len() > 0 && b.len() > 0 {
        let (head, c, d) = if a[0].0 <= b[0].0 {
            (a[0], a.drop_first(), b)
        } else {
            (b[0], a, b.drop_first())
        };
        let rest = merge_placed(c, d);
        lemma_merge_members(c, d, x);
        assert(all == seq![head] + rest);
        if all.contains(x) {
            let i = choose|i: int| 0 <= i < all.len() && all[i] == x;
            if i > 0 {
                assert(rest[i - 1] == x);
            }
        }
        if c.contains(x) {
            let i = choose|i: int| 0 <= i < c.len() && c[i] == x;
            if a[0].0 <= b[0].0 {
                assert(a[i + 1] == x);
            }
        }
        if d.contains(x) {
            let i = choose|i: int| 0 <= i < d.len() && d[i] == x;
            if !(a[0].0 <= b[0].0) {
                assert(b[i + 1] == x);
            }
        }
        if rest.contains(x) {
            let i = choose|i: int| 0 <= i < rest.len() && rest[i] == x;
            assert(all[i + 1] == x);
        }
        if x == head {
            assert(all[0] == x);
        }
        if a.contains(x) {
            let i = choose|i: int| 0 <= i < a.len() && a[i] == x;
            if a[0].0 <= b[0].0 && i > 0 {
                assert(c[i - 1] == x);
            }
        }
        if b.contains(x) {
            let i = choose|i: int| 0 <= i < b.len() && b[i] == x;
            if !(a[0].0 <= b[0].0) && i > 0 {
                assert(d[i - 1] == x);
            }
        }
    }
}

pub proof fn lemma_placed_member(ix: XmlIndex, nodes: Seq<XPathNode>, node: XPathNode)
    ensures
        nodes.contains(node) <==> placed(ix, nodes).contains((doc_pos(ix, node), node)),
{
    let items = placed(ix, nodes);
    if nodes.contains(node) {
        let i = choose|i: int| 0 <= i < nodes.len() && nodes[i] == node;
        assert(items[i] == (doc_pos(ix, node), node));
    }
    if items.contains((doc_pos(ix, node), node)) {
        let i = choose|i: int| 0 <= i < items.len() && items[i] == (doc_pos(ix, node), node);
        assert(nodes[i] == node);
    }
}

pub proof fn lemma_merged_nodes(ix: XmlIndex, a: Seq<XPathNode>, b: Seq<XPathNode>, node: XPathNode)
    ensures
        unplaced(merge_placed(placed(ix, a), placed(ix, b))).contains(node) <==> a.contains(node)
            || b.contains(node),
{
    let all = merge_placed(placed(ix, a), placed(ix, b));
    let x = (doc_pos(ix, node), node);
    lemma_merge_members(placed(ix, a), placed(ix, b), x);
    lemma_placed_member(ix, a, node);
    lemma_placed_member(ix, b, node);
    if all.contains(x) {
        let i = choose|i: int| 0 <= i < all.len() && all[i] == x;
        assert(unplaced(all)[i] == node);
    }
    if unplaced(all).contains(node) {
        let i = choose|i: int| 0 <= i < all.len() && unplaced(all)[i] == node;
        let y = all[i];
        assert(all.contains(y));
        lemma_merge_members(placed(ix, a), placed(ix, b), y);
        if placed(ix, a).contains(y) {
            let j = choose|j: int| 0 <= j < a.len() && placed(ix, a)[j] == y;
            assert(a[j] == node);
        } else {
            let j = choose|j: int| 0 <= j < b.len() && placed(ix, b)[j] == y;
            assert(b[j] == node);
        }
    }
}

pub proof fn lemma_ordered_member(ix: XmlIndex, nodes: Seq<XPathNode>, node: XPathNode)
    ensures
        in_doc_order(ix, nodes).contains(node) <==> nodes.contains(node),
{
    broadcast use vstd::seq_lib::group_to_multiset_ensures;

    lemma_in_doc_order(ix, nodes);
    let out = in_doc_order(ix, nodes);
    assert(out.contains(node) <==> out.to_multiset().count(node) > 0);
    assert(nodes.contains(node) <==> nodes.to_multiset().count(node) > 0);
}

pub proof fn lemma_no_elements(ix: XmlIndex, pick: TextPick, k: int, j: usize)
    ensures
        !pick_texts(ix, pick, k).contains(XPathNode::Element(j)),
    decreases k,
{
    if k > 0 {
        lemma_no_elements(ix, pick, k - 1, j);
        let all = pick_texts(ix, pick, k);
        let before = pick_texts(ix, pick, k - 1);
        if all.contains(XPathNode::Element(j)) {
            let i = choose|i: int| 0 <= i < all.len() && all[i] == XPathNode::Element(j);
            assert(before[i] == XPathNode::Element(j));
        }
    }
}

pub proof fn lemma_add_member(a: Seq<XPathNode>, b: Seq<XPathNode>, node: XPathNode)
    ensures
        (a + b).contains(node) <==> a.contains(node) || b.contains(node),
{
    let all = a + b;
    if all.contains(node) {
        let i = choose|i: int| 0 <= i < all.len() && all[i] == node;
        if i < a.len() {
            assert(a[i] == node);
        } else {
            assert(b[i - a.len()] == node);
        }
    }
    if a.contains(node) {
        let i = choose|i: int| 0 <= i < a.len() && a[i] == node;
        assert(all[i] == node);
    }
    if b.contains(node) {
        let i = choose|i: int| 0 <= i < b.len() && b[i] == node;
        assert(all[a.len() + i] == node);
    }
}

pub proof fn lemma_pick_member(ix: XmlIndex, pick: PickV, lo: int, hi: int, j: int)
    requires
        0 <= lo,
        hi <= ix.tags(),
        0 <= j < ix.tags(),
    ensures
        pick_tags(ix, pick, lo, hi).contains(XPathNode::Element(j as usize)) <==> lo <= j < hi
            && picks(ix, pick, j),
{
    let node = XPathNode::Element(j as usize);
    let all = pick_tags(ix, pick, lo, hi);
    assert(ix.tags() == ix.tag_starts.len());
    if lo <= hi {
        lemma_pick_tags(ix, pick, lo, hi);
        if all.contains(node) {
            let k = choose|k: int| 0 <= k < all.len() && all[k] == node;
            assert(all[k] == node);
        }
    }
}

/// The node of a tag.
pub open spec fn tag_node(j: int) -> XPathNode {
    XPathNode::Element(j as usize)
}

// Nesting.

/// The parent of a tag is an open tag.
pub proof fn lemma_parent_open(ix: XmlIndex, j: int)
    requires
        is_faithful(ix),
        0 <= j < ix.tags(),
        is_node_kind(ix.tag_types@[j]),
    ensures
        ix.parents@[j] != u32::MAX ==> ix.parents@[j] < ix.tags() && ix.tag_types@[ix.parents@[j] as int]
            == TagType::Open,
{
    let types = ix.tag_types@;
    let st = open_stack(types, j);
    assert(ix.doc().parents[j] == parent_entry(enclosing(types, j)));
    assert(enclosing(types, j) == st);
    lemma_open_stack(types, j);
    if st.len() > 0 {
        assert(st[st.len() - 1] == ix.parents@[j]);
    }
}

/// A tag lies inside an element exactly when its parent is the element or an open
/// tag inside it.
pub proof fn lemma_inside(ix: XmlIndex, i: int, j: int)
    requires
        is_faithful(ix),
        0 <= i < ix.tags(),
        0 <= j < ix.tags(),
        ix.element(i),
        is_node_kind(ix.tag_types@[j]),
    ensures
        ({
            let p = ix.parents@[j];
            i < j < scope_end(ix, i) <==> p != u32::MAX && (p == i || (i < p < scope_end(ix, i)))
        }),
{
    let types = ix.tag_types@;
    let st = open_stack(types, j);
    let p = ix.parents@[j];
    assert(ix.doc().parents[j] == parent_entry(enclosing(types, j)));
    assert(enclosing(types, j) == st);
    lemma_open_stack(types, j);
    if st.len() > 0 {
        let q = st[st.len() - 1];
        assert(q == p);
        assert(st.contains(q));
        lemma_open_until_closed(types, q, j);
    }
    if types[i] == TagType::Open {
        assert(ix.close_of(i) == partner(types, i));
        lemma_open_until_closed(types, i, j);
        if p != u32::MAX && i < p < scope_end(ix, i) {
            if partner(types, i) is Some {
                lemma_no_crossing(types, i, p as int);
            }
        }
        if i < j < scope_end(ix, i) {
            let m = choose|m: int| 0 <= m < st.len() && st[m] == i;
            if m < st.len() - 1 {
                assert(st[m] < st[st.len() - 1]);
            }
        }
    } else {
        assert(ix.close_of(i) == Some(i));
    }
}

// Places.

/// Whether a node is the document root, a tag or a text of the index.
pub open spec fn stands(ix: XmlIndex, x: XPathNode) -> bool {
    match x {
        XPathNode::Element(i) => i < ix.tags() || i == DOC_ROOT,
        XPathNode::Text(t) => t < ix.text_ranges@.len(),
        _ => false,
    }
}

/// All nodes of a list stand in the index.
pub open spec fn all_stand(ix: XmlIndex, nodes: Seq<XPathNode>) -> bool {
    forall|k: int| 0 <= k < nodes.len() ==> stands(ix, #[trigger] nodes[k])
}

/// Each node of a list stands before the next.
pub open spec fn is_strict(ix: XmlIndex, nodes: Seq<XPathNode>) -> bool {
    forall|i: int, j: int|
        0 <= i < j < nodes.len() ==> doc_pos(ix, nodes[i]) < doc_pos(ix, nodes[j])
}

/// Two lists hold the same nodes.
pub open spec fn same_nodes(a: Seq<XPathNode>, b: Seq<XPathNode>) -> bool {
    forall|x: XPathNode| #[trigger] a.contains(x) <==> b.contains(x)
}

/// No two nodes have the same place.
pub proof fn lemma_places_differ(ix: XmlIndex, x: XPathNode, y: XPathNode)
    requires
        ix.wf(),
        texts_placed(ix.doc()),
        stands(ix, x),
        stands(ix, y),
        doc_pos(ix, x) == doc_pos(ix, y),
    ensures
        x == y,
{
    let d = ix.doc();
    assert(ix.tags() == ix.tag_starts.len());
    match (x, y) {
        (XPathNode::Element(i), XPathNode::Element(j)) => {
            if i < ix.tags() && j < ix.tags() {
                assert(d.starts[i as int] == d.starts[j as int]);
                if i < j {
                    assert(d.starts[i as int] < d.starts[j as int]);
                } else if j < i {
                    assert(d.starts[j as int] < d.starts[i as int]);
                }
            }
        },
        (XPathNode::Text(t), XPathNode::Text(u)) => {
            assert(d.texts[t as int].start == d.texts[u as int].start);
            if t < u {
                assert(d.texts[t as int].start < d.texts[u as int].start);
            } else if u < t {
                assert(d.texts[u as int].start < d.texts[t as int].start);
            }
        },
        (XPathNode::Element(i), XPathNode::Text(t)) => {
            if i < ix.tags() {
                assert(d.texts[t as int].start != d.starts[i as int]);
            }
        },
        (XPathNode::Text(t), XPathNode::Element(i)) => {
            if i < ix.tags() {
                assert(d.texts[t as int].start != d.starts[i as int]);
            }
        },
        _ => {},
    }
}

/// Lists in order that hold the same nodes are equal.
pub proof fn lemma_same_list(ix: XmlIndex, a: Seq<XPathNode>, b: Seq<XPathNode>)
    requires
        ix.wf(),
        texts_placed(ix.doc()),
        all_stand(ix, a),
        all_stand(ix, b),
        is_strict(ix, a),
        is_strict(ix, b),
        same_nodes(a, b),
    ensures
        a == b,
{
    let c = a.map_values(|n: XPathNode| doc_pos(ix, n));
    let d = b.map_values(|n: XPathNode| doc_pos(ix, n));
    assert forall|k: int| 0 <= k < c.len() implies d.contains(#[trigger] c[k]) by {
        assert(a.contains(a[k]));
        let w = choose|w: int| 0 <= w < b.len() && b[w] == a[k];
        assert(d[w] == c[k]);
    }
    assert forall|k: int| 0 <= k < d.len() implies c.contains(#[trigger] d[k]) by {
        assert(b.contains(b[k]));
        assert(a.contains(b[k]));
        let w = choose|w: int| 0 <= w < a.len() && a[w] == b[k];
        assert(c[w] == d[k]);
    }
    lemma_same_ascending(c, d);
    assert(a.len() == c.len() && b.len() == d.len());
    assert forall|k: int| 0 <= k < a.len() implies a[k] == b[k] by {
        assert(c[k] == d[k]);
        lemma_places_differ(ix, a[k], b[k]);
    }
    assert(a =~= b);
}

/// A node set, tidied, is in order and holds the same nodes.
pub proof fn lemma_tidied_list(ix: XmlIndex, nodes: Seq<XPathNode>)
    requires
        ix.wf(),
        texts_placed(ix.doc()),
        all_stand(ix, nodes),
    ensures
        all_stand(ix, tidy(ix, nodes)),
        is_strict(ix, tidy(ix, nodes)),
        same_nodes(tidy(ix, nodes), nodes),
{
    let out = tidy(ix, nodes);
    lemma_tidy(ix, nodes);
    assert forall|k: int| 0 <= k < out.len() implies stands(ix, #[trigger] out[k]) by {
        assert(nodes.contains(out[k]));
        let w = choose|w: int| 0 <= w < nodes.len() && nodes[w] == out[k];
        assert(stands(ix, nodes[w]));
    }
    assert forall|i: int, j: int| 0 <= i < j < out.len() implies doc_pos(ix, out[i]) < doc_pos(
        ix,
        out[j],
    ) by {
        assert(doc_pos(ix, out[i]) <= doc_pos(ix, out[j]));
        assert(dedup_key(out[i]) != dedup_key(out[j]));
        if doc_pos(ix, out[i]) == doc_pos(ix, out[j]) {
            lemma_places_differ(ix, out[i], out[j]);
        }
    }
    lemma_tidied_nodes(ix, nodes);
}

/// Tidying a node set keeps its nodes.
pub proof fn lemma_tidied_nodes(ix: XmlIndex, nodes: Seq<XPathNode>)
    ensures
        same_nodes(tidy(ix, nodes), nodes),
{
    let out = tidy(ix, nodes);
    lemma_tidy(ix, nodes);
    assert forall|x: XPathNode| #[trigger] out.contains(x) <==> nodes.contains(x) by {
        if out.contains(x) {
            let k = choose|k: int| 0 <= k < out.len() && out[k] == x;
            assert(nodes.contains(out[k]));
        }
        if nodes.contains(x) {
            let w = choose|w: int| 0 <= w < nodes.len() && nodes[w] == x;
            assert(key_seen(out, out.len() as int, dedup_key(nodes[w])));
            let k = choose|k: int| 0 <= k < out.len() && dedup_key(#[trigger] out[k]) == dedup_key(x);
            assert(out[k] == x);
        }
    }
}

/// Different nodes, put in order, stand one before the other.
pub proof fn lemma_ordered_list(ix: XmlIndex, nodes: Seq<XPathNode>)
    requires
        ix.wf(),
        texts_placed(ix.doc()),
        all_stand(ix, nodes),
        nodes.no_duplicates(),
    ensures
        all_stand(ix, in_doc_order(ix, nodes)),
        is_strict(ix, in_doc_order(ix, nodes)),
        same_nodes(in_doc_order(ix, nodes), nodes),
{
    let out = in_doc_order(ix, nodes);
    lemma_in_doc_order(ix, nodes);
    nodes.lemma_multiset_has_no_duplicates();
    out.lemma_multiset_has_no_duplicates_conv();
    assert forall|x: XPathNode| #[trigger] out.contains(x) <==> nodes.contains(x) by {
        lemma_ordered_member(ix, nodes, x);
    }
    assert forall|k: int| 0 <= k < out.len() implies stands(ix, #[trigger] out[k]) by {
        assert(out.contains(out[k]));
        let w = choose|w: int| 0 <= w < nodes.len() && nodes[w] == out[k];
        assert(stands(ix, nodes[w]));
    }
    assert forall|i: int, j: int| 0 <= i < j < out.len() implies doc_pos(ix, out[i]) < doc_pos(
        ix,
        out[j],
    ) by {
        assert(doc_pos(ix, out[i]) <= doc_pos(ix, out[j]));
        if doc_pos(ix, out[i]) == doc_pos(ix, out[j]) {
            lemma_places_differ(ix, out[i], out[j]);
        }
    }
}

/// The texts that are picked.
pub proof fn lemma_picked_texts(ix: XmlIndex, pick: TextPick, k: int)
    requires
        0 <= k <= ix.text_ranges@.len(),
    ensures
        forall|v: int| #![trigger pick_texts(ix, pick, k)[v]]
            0 <= v < pick_texts(ix, pick, k).len() ==> (pick_texts(
                ix,
                pick,
                k,
            )[v] matches XPathNode::Text(t) && t < k && picks_text(ix, pick, t as int)),
        forall|v: int, w: int|
            0 <= v < w < pick_texts(ix, pick, k).len() ==> pick_texts(ix, pick, k)[v]->Text_0
                < pick_texts(ix, pick, k)[w]->Text_0,
        forall|t: int|
            0 <= t < k && #[trigger] picks_text(ix, pick, t) ==> pick_texts(ix, pick, k).contains(
                XPathNode::Text(t as usize),
            ),
    decreases k,
{
    assert(ix.text_ranges@.len() == ix.text_ranges.len());
    if k > 0 {
        lemma_picked_texts(ix, pick, k - 1);
        let before = pick_texts(ix, pick, k - 1);
        let all = pick_texts(ix, pick, k);
        assert forall|t: int| 0 <= t < k && #[trigger] picks_text(ix, pick, t) implies all.contains(
            XPathNode::Text(t as usize),
        ) by {
            if t == k - 1 {
                assert(all[all.len() - 1] == XPathNode::Text(t as usize));
            } else {
                let w = choose|w: int|
                    0 <= w < before.len() && before[w] == XPathNode::Text(t as usize);
                assert(all[w] == before[w]);
            }
        }
    }
}

/// Which nodes a list of picked tags and texts holds.
pub proof fn lemma_picked(ix: XmlIndex, tags: PickV, lo: int, hi: int, texts: TextPick, x: XPathNode)
    requires
        ix.wf(),
        0 <= lo,
        hi <= ix.tags(),
    ensures
        ({
            let n = ix.text_ranges@.len() as int;
            let all = pick_tags(ix, tags, lo, hi) + pick_texts(ix, texts, n);
            &&& all.contains(x) <==> match x {
                XPathNode::Element(j) => lo <= j < hi && picks(ix, tags, j as int),
                XPathNode::Text(t) => t < n && picks_text(ix, texts, t as int),
                _ => false,
            }
            &&& all.no_duplicates()
            &&& all_stand(ix, all)
        }),
{
    let n = ix.text_ranges@.len() as int;
    let some = pick_tags(ix, tags, lo, hi);
    let more = pick_texts(ix, texts, n);
    let all = some + more;
    assert(ix.tags() == ix.tag_starts.len());
    if lo <= hi {
        lemma_pick_tags(ix, tags, lo, hi);
    } else {
        assert(some.len() == 0);
    }
    lemma_picked_texts(ix, texts, n);
    lemma_add_member(some, more, x);
    if some.contains(x) {
        let k = choose|k: int| 0 <= k < some.len() && some[k] == x;
        assert(some[k] is Element);
    }
    if more.contains(x) {
        let k = choose|k: int| 0 <= k < more.len() && more[k] == x;
        assert(more[k] is Text);
    }
    assert forall|k: int| 0 <= k < all.len() implies stands(ix, #[trigger] all[k]) by {
        if k < some.len() {
            assert(all[k] == some[k]);
        } else {
            assert(all[k] == more[k - some.len()]);
        }
    }
    assert forall|i: int, j: int| 0 <= i < j < all.len() implies all[i] != all[j] by {
        if j < some.len() {
            assert(some[i]->Element_0 < some[j]->Element_0);
        } else if i >= some.len() {
            assert(more[i - some.len()]->Text_0 < more[j - some.len()]->Text_0);
        } else {
            assert(some[i] is Element);
            assert(more[j - some.len()] is Text);
        }
    }
}

// Descendants.

/// Whether a node lies inside another: a tag that is a node within its scope, or a
/// text whose parent is in it.
pub open spec fn in_scope(ix: XmlIndex, node: XPathNode, x: XPathNode) -> bool {
    match (scope(ix, node), x) {
        (Some((lo, first, end)), XPathNode::Element(j)) => lo <= j < end && j < ix.tags()
            && is_node_kind(ix.tag_types@[j as int]),
        (Some((lo, first, end)), XPathNode::Text(t)) => t < ix.text_ranges@.len() && first
            <= ix.text_ranges@[t as int].parent_tag < end,
        _ => false,
    }
}

/// The document root or a tag.
pub open spec fn root_or_tag(ix: XmlIndex, node: XPathNode) -> bool {
    node matches XPathNode::Element(i) && (i == DOC_ROOT || i < ix.tags())
}

/// The descendants of a node are the nodes inside it, in order.
pub proof fn lemma_descendants(ix: XmlIndex, node: XPathNode, with_self: bool, x: XPathNode)
    requires
        is_faithful(ix),
        root_or_tag(ix, node),
    ensures
        descendant_axis(ix, node, with_self).contains(x) <==> (with_self && x == node) || in_scope(
            ix,
            node,
            x,
        ),
        all_stand(ix, descendant_axis(ix, node, with_self)),
        is_strict(ix, descendant_axis(ix, node, with_self)),
{
    let i = node->Element_0;
    let (lo, first, end) = scope(ix, node)->0;
    let m = ix.text_ranges@.len() as int;
    assert(ix.tags() == ix.tag_starts.len());
    let pick = if i == DOC_ROOT {
        TextPick::Inside
    } else {
        TextPick::Within(i, end as usize)
    };
    if i != DOC_ROOT {
        lemma_scope_end(ix, i as int);
    }
    let own = if with_self {
        seq![node]
    } else {
        Seq::empty()
    };
    let rest = pick_tags(ix, PickV::Any, lo, end) + pick_texts(ix, pick, m);
    let all = own + rest;
    lemma_picked(ix, PickV::Any, lo, end, pick, x);
    lemma_picked(ix, PickV::Any, lo, end, pick, node);
    lemma_add_member(own, rest, x);
    if with_self {
        assert(own[0] == node);
    }
    assert forall|a: int, b: int| 0 <= a < b < all.len() implies all[a] != all[b] by {
        if a < own.len() {
            assert(all[b] == rest[b - own.len()]);
            assert(rest.contains(all[b]));
        } else {
            assert(all[a] == rest[a - own.len()] && all[b] == rest[b - own.len()]);
        }
    }
    assert forall|k: int| 0 <= k < all.len() implies stands(ix, #[trigger] all[k]) by {
        if k >= own.len() {
            assert(all[k] == rest[k - own.len()]);
        }
    }
    lemma_ordered_list(ix, all);
    let items = self_item(
        with_self,
        if i == DOC_ROOT {
            0
        } else {
            doc_pos(ix, node)
        },
        node,
    ) + placed(ix, pick_tags(ix, PickV::Any, lo, end)) + placed(ix, pick_texts(ix, pick, m));
    assert(items =~= placed(ix, all));
    assert(descendant_axis(ix, node, with_self) == in_doc_order(ix, all));
    if let XPathNode::Text(t) = x {
        if t < m {
            assert(in_open_tag(ix.doc(), ix.doc().texts[t as int]));
        }
    }
}

// Children.

/// The parent of a tag or a text.
pub open spec fn up(ix: XmlIndex, x: XPathNode) -> XPathNode {
    match x {
        XPathNode::Element(j) => parent_node(ix.parents@[j as int]),
        XPathNode::Text(t) => parent_node(ix.text_ranges@[t as int].parent_tag),
        _ => x,
    }
}

/// Whether a node is a child of another: a tag that is a node, or a text inside of an
/// element, whose parent is the other.
pub open spec fn is_child(ix: XmlIndex, node: XPathNode, x: XPathNode) -> bool {
    match x {
        XPathNode::Element(j) => j < ix.tags() && is_node_kind(ix.tag_types@[j as int]) && up(ix, x)
            == node,
        XPathNode::Text(t) => t < ix.text_ranges@.len() && up(ix, x) == node && node
            != XPathNode::Element(DOC_ROOT),
        _ => false,
    }
}

/// The parent entry of a tag is that of its innermost enclosing open tag.
proof fn lemma_parent_entry(ix: XmlIndex, j: int)
    requires
        is_faithful(ix),
        0 <= j < ix.tags(),
        is_node_kind(ix.tag_types@[j]),
    ensures
        ix.depths@[j] == 0 <==> ix.parents@[j] == u32::MAX,
        ix.parents@[j] != u32::MAX ==> ix.parents@[j] < j,
{
    let types = ix.tag_types@;
    assert(ix.doc().depths[j] == enclosing(types, j).len());
    assert(ix.doc().parents[j] == parent_entry(enclosing(types, j)));
    lemma_open_stack(types, j);
    if enclosing(types, j).len() > 0 {
        assert(enclosing(types, j).last() == open_stack(types, j)[enclosing(types, j).len() - 1]);
    }
}

/// The children of a node are the tags and texts whose parent it is.
pub proof fn lemma_children(ix: XmlIndex, node: XPathNode, x: XPathNode)
    requires
        is_faithful(ix),
        root_or_tag(ix, node),
    ensures
        child_axis(ix, node).contains(x) <==> is_child(ix, node, x),
        all_stand(ix, child_axis(ix, node)),
{
    let p = node->Element_0;
    let n = ix.tags() as int;
    let m = ix.text_ranges@.len() as int;
    assert(ix.tags() == ix.tag_starts.len());
    assert(m == ix.text_ranges.len());
    if let XPathNode::Element(j) = x {
        if j < ix.tags() && is_node_kind(ix.tag_types@[j as int]) {
            lemma_parent_entry(ix, j as int);
        }
    }
    if p == DOC_ROOT {
        let all = child_axis(ix, node);
        lemma_pick_tags(ix, PickV::RootLevel, 0, n);
        if all.contains(x) {
            let k = choose|k: int| 0 <= k < all.len() && all[k] == x;
            assert(all[k] is Element);
        }
        if let XPathNode::Element(j) = x {
            if is_child(ix, node, x) {
                assert(picks(ix, PickV::RootLevel, j as int));
                assert(x == tag_node(j as int));
            }
        }
    } else if ix.tabled() {
        let texts = row_nodes(ix.text_row(p as int), true);
        let tags = row_nodes(ix.child_row(p as int), false);
        lemma_merged_nodes(ix, texts, tags, x);
        lemma_rows(ix, p as int, x);
        let all = child_axis(ix, node);
        assert forall|k: int| 0 <= k < all.len() implies stands(ix, #[trigger] all[k]) by {
            assert(all.contains(all[k]));
            lemma_merged_nodes(ix, texts, tags, all[k]);
            lemma_rows(ix, p as int, all[k]);
        }
    } else {
        let entry = p as u32;
        assert((p as int % 0x1_0000_0000) as u32 == entry);
        let some = pick_tags(ix, PickV::Under(entry), 0, n) + pick_texts(
            ix,
            TextPick::Under(entry),
            m,
        );
        lemma_picked(ix, PickV::Under(entry), 0, n, TextPick::Under(entry), x);
        lemma_ordered_list(ix, some);
        assert(child_axis(ix, node) == in_doc_order(ix, some));
    }
}

/// The entries of the rows of a tag.
proof fn lemma_rows(ix: XmlIndex, p: int, x: XPathNode)
    requires
        is_faithful(ix),
        ix.tabled(),
        0 <= p < ix.tags(),
    ensures
        ({
            let texts = row_nodes(ix.text_row(p), true);
            let tags = row_nodes(ix.child_row(p), false);
            texts.contains(x) || tags.contains(x) <==> match x {
                XPathNode::Element(j) => j < ix.tags() && is_node_kind(ix.tag_types@[j as int])
                    && ix.parents@[j as int] == p,
                XPathNode::Text(t) => t < ix.text_ranges@.len()
                    && ix.text_ranges@[t as int].parent_tag == p,
                _ => false,
            }
        }),
{
    let n = ix.tags() as int;
    let m = ix.text_ranges@.len() as int;
    let text_row = ix.text_row(p);
    let child_row = ix.child_row(p);
    let texts = row_nodes(text_row, true);
    let tags = row_nodes(child_row, false);
    let owner = child_owner(ix.doc());
    let holder = text_owner(ix.doc());
    assert(ix.child_offsets@[p] <= ix.child_offsets@[p + 1]);
    assert(ix.text_child_offsets@[p] <= ix.text_child_offsets@[p + 1]);
    assert(child_row == owned(owner, p, n));
    assert(text_row == owned(holder, p, m));
    lemma_owned(owner, p, n);
    lemma_owned(holder, p, m);
    if texts.contains(x) {
        let k = choose|k: int| 0 <= k < texts.len() && texts[k] == x;
        assert(texts[k] == XPathNode::Text(text_row[k] as usize));
        assert(holder[text_row[k] as int] == p);
    }
    if tags.contains(x) {
        let k = choose|k: int| 0 <= k < tags.len() && tags[k] == x;
        assert(tags[k] == XPathNode::Element(child_row[k] as usize));
        assert(owner[child_row[k] as int] == p);
    }
    match x {
        XPathNode::Element(j) => {
            if j < ix.tags() && is_node_kind(ix.tag_types@[j as int]) && ix.parents@[j as int] == p {
                assert(owner[j as int] == p);
                let k = choose|k: int| 0 <= k < child_row.len() && child_row[k] == j as u32;
                assert(tags[k] == x);
            }
        },
        XPathNode::Text(t) => {
            if t < m && ix.text_ranges@[t as int].parent_tag == p {
                assert(holder[t as int] == p);
                let k = choose|k: int| 0 <= k < text_row.len() && text_row[k] == t as u32;
                assert(texts[k] == x);
            }
        },
        _ => {},
    }
}

/// A node lies inside another exactly when it is a child of the other or of a node
/// inside it.
pub proof fn lemma_scope_by_parent(ix: XmlIndex, node: XPathNode, x: XPathNode)
    requires
        is_faithful(ix),
        root_or_tag(ix, node),
        node matches XPathNode::Element(i) && (i < ix.tags() ==> is_node_kind(
            ix.tag_types@[i as int],
        )),
    ensures
        in_scope(ix, node, x) <==> stands(ix, x) && root_or_tag(ix, up(ix, x)) && is_child(
            ix,
            up(ix, x),
            x,
        ) && (up(ix, x) == node || in_scope(ix, node, up(ix, x))),
{
    let i = node->Element_0;
    let d = ix.doc();
    assert(ix.tags() == ix.tag_starts.len());
    if i != DOC_ROOT {
        lemma_scope_end(ix, i as int);
        if ix.tag_types@[i as int] == TagType::Open {
            assert(ix.close_of(i as int) == partner(ix.tag_types@, i as int));
            lemma_open_until_closed(ix.tag_types@, i as int, i as int);
        }
    }
    match x {
        XPathNode::Element(j) => {
            if j < ix.tags() && is_node_kind(ix.tag_types@[j as int]) {
                lemma_parent_entry(ix, j as int);
                lemma_parent_open(ix, j as int);
                if i != DOC_ROOT {
                    if ix.element(i as int) {
                        lemma_inside(ix, i as int, j as int);
                    }
                }
            }
        },
        XPathNode::Text(t) => {
            if t < ix.text_ranges@.len() {
                assert(in_open_tag(d, d.texts[t as int]));
            }
        },
        _ => {},
    }
}

/// The index of a parsed document is faithful when fewer than 65536 tags are open at
/// once and either its lookup tables have been built or every close tag has the name
/// of the tag that it closes.
pub proof fn lemma_parsed_is_faithful(s: Seq<u8>, ix: XmlIndex)
    requires
        parsed(s) == Ok::<Doc, int>(ix.doc()),
        s.len() <= u64::MAX,
        ix.input@ == s,
        ix.wf(),
        ix.tables_fit(),
        forall|k: int|
            0 <= k <= ix.tags() ==> #[trigger] open_stack(ix.tag_types@, k).len() < 0x1_0000,
        ix.indexed() || (ix.bare() && forall|i: int| #![trigger ix.tag_types@[i]]
            0 <= i < ix.tags() && ix.tag_types@[i] == TagType::Open ==> (partner(ix.tag_types@, i)
                matches Some(c) ==> ix.name_bytes(c) == ix.name_bytes(i))),
    ensures
        is_faithful(ix),
{
    let types = ix.tag_types@;
    lemma_parsed_nested(s, ix.doc());
    lemma_parsed_texts(s, ix.doc());
    lemma_pairing_shape(types, types.len() as int);
    assert forall|i: int| #![trigger ix.tag_types@[i]]
        0 <= i < ix.tags() && ix.tag_types@[i] == TagType::Open implies ix.close_of(i) == partner(
        types,
        i,
    ) by {
        if !ix.indexed() {
            ix.lemma_close_by_search(i);
        }
    }
    assert forall|i: int| #![trigger ix.tag_types@[i]]
        0 <= i < ix.tags() && ix.tag_types@[i] == TagType::SelfClose implies ix.close_of(i)
        == Some(i) by {
        lemma_self_closing(types, i);
    }
}

} // verus!
