//! How the axes divide a document.

use vstd::prelude::*;
use crate::index::laws::{
    enclosing, lemma_open_stack, lemma_open_until_closed, lemma_parent_enclosing, open_stack,
    parent_entry, partner,
};
use crate::index::text_laws::in_open_tag;
use crate::index::{TagType, XmlIndex};
use crate::xpath::axes::{
    ancestor_axis, chain, child_axis, descendant_axis, following_axis, following_sibling_axis,
    is_node_kind, pick_nodes, pick_tags, pick_texts, picks, picks_text, place, preceding_axis,
    preceding_sibling_axis, scope_end, PickV, TextPick,
};
use crate::xpath::lazy_laws::lemma_pick_tags;
use crate::xpath::nodes::{doc_pos, XPathNode, DOC_ROOT};
use crate::xpath::scope_laws::{
    all_stand, is_faithful, is_strict, lemma_add_member, lemma_children, lemma_descendants,
    lemma_no_elements, lemma_ordered_list, lemma_ordered_member, lemma_pick_member, lemma_picked,
    lemma_same_list, root_or_tag, stands, tag_node, up,
};

verus! {

/// Every open tag has a close tag.
pub open spec fn is_balanced(ix: XmlIndex) -> bool {
    forall|i: int| #![trigger ix.tag_types@[i]]
        0 <= i < ix.tags() && ix.tag_types@[i] == TagType::Open ==> partner(
            ix.tag_types@,
            i,
        ) is Some
}

/// Following the parents of a tag upwards visits the open tags that enclose it.
pub proof fn lemma_chain(ix: XmlIndex, j: int, i: int)
    requires
        is_faithful(ix),
        0 <= j < ix.tags(),
        0 <= i < ix.tags(),
    ensures
        chain(ix, ix.parents@[j]).contains(tag_node(i)) <==> enclosing(ix.tag_types@, j).contains(
            i,
        ),
    decreases j,
{
    let types = ix.tag_types@;
    let en = enclosing(types, j);
    let up = ix.parents@[j];
    let all = chain(ix, up);
    assert(ix.tags() == ix.tag_starts.len());
    assert(ix.doc().parents[j] == parent_entry(en));
    if en.len() > 0 {
        let p = en.last();
        lemma_parent_enclosing(types, j);
        assert(up == p);
        lemma_chain(ix, p, i);
        assert(ix.doc().parents[p] == u32::MAX || ix.doc().parents[p] < p);
        let rest = chain(ix, ix.parents@[p]);
        let before = en.drop_last();
        assert(all =~= seq![tag_node(p)] + rest);
        if all.contains(tag_node(i)) {
            let k = choose|k: int| 0 <= k < all.len() && all[k] == tag_node(i);
            if k == 0 {
                assert(en[en.len() - 1] == i);
            } else {
                assert(rest[k - 1] == tag_node(i));
                let w = choose|w: int| 0 <= w < before.len() && before[w] == i;
                assert(en[w] == i);
            }
        }
        if en.contains(i) {
            let w = choose|w: int| 0 <= w < en.len() && en[w] == i;
            if w == en.len() - 1 {
                assert(all[0] == tag_node(i));
            } else {
                assert(before[w] == i);
                let k = choose|k: int| 0 <= k < rest.len() && rest[k] == tag_node(i);
                assert(all[k + 1] == tag_node(i));
            }
        }
    }
}

/// A tag is an ancestor of another exactly when it encloses it.
pub proof fn lemma_ancestors(ix: XmlIndex, j: int, i: int)
    requires
        is_faithful(ix),
        0 <= j < ix.tags(),
        0 <= i < ix.tags(),
    ensures
        ancestor_axis(ix, tag_node(j), false).contains(tag_node(i)) <==> enclosing(
            ix.tag_types@,
            j,
        ).contains(i),
{
    let up = chain(ix, ix.parents@[j]);
    let all = ancestor_axis(ix, tag_node(j), false);
    let root = seq![XPathNode::Element(DOC_ROOT)];
    assert(ix.tags() == ix.tag_starts.len());
    lemma_chain(ix, j, i);
    assert(all =~= up + root);
    if all.contains(tag_node(i)) {
        let k = choose|k: int| 0 <= k < all.len() && all[k] == tag_node(i);
        if k < up.len() {
            assert(up[k] == tag_node(i));
        }
    }
    if up.contains(tag_node(i)) {
        let k = choose|k: int| 0 <= k < up.len() && up[k] == tag_node(i);
        assert(all[k] == tag_node(i));
    }
}

/// A tag lies inside another exactly when the other encloses it.
proof fn lemma_inside_is_enclosed(ix: XmlIndex, i: int, j: int)
    requires
        is_faithful(ix),
        0 <= i < ix.tags(),
        0 <= j < ix.tags(),
        is_node_kind(ix.tag_types@[i]),
        is_node_kind(ix.tag_types@[j]),
    ensures
        i < j < scope_end(ix, i) <==> enclosing(ix.tag_types@, j).contains(i),
{
    let types = ix.tag_types@;
    lemma_open_stack(types, j);
    if types[i] == TagType::Open {
        assert(ix.close_of(i) == partner(types, i));
        lemma_open_until_closed(types, i, j);
    } else {
        if open_stack(types, j).contains(i) {
            let w = choose|w: int|
                0 <= w < open_stack(types, j).len() && open_stack(types, j)[w] == i;
            assert(types[open_stack(types, j)[w]] == TagType::Open);
        }
    }
}

/// A tag that is a node, or a text.
pub open spec fn is_tree_node(ix: XmlIndex, x: XPathNode) -> bool {
    match x {
        XPathNode::Element(j) => j < ix.tags() && is_node_kind(ix.tag_types@[j as int]),
        XPathNode::Text(t) => t < ix.text_ranges@.len(),
        _ => false,
    }
}

/// Descendants and ancestors answer each other: an element, comment, processing
/// instruction or text is a descendant of a tag exactly when the tag is its ancestor,
/// that is, when following its parents upwards leads to the tag.
pub proof fn lemma_descendants_and_ancestors(ix: XmlIndex, i: int, x: XPathNode)
    requires
        is_faithful(ix),
        0 <= i < ix.tags(),
        is_node_kind(ix.tag_types@[i]),
        is_tree_node(ix, x),
    ensures
        descendant_axis(ix, tag_node(i), false).contains(x) <==> ancestor_axis(
            ix,
            x,
            false,
        ).contains(tag_node(i)),
{
    assert(ix.tags() == ix.tag_starts.len());
    lemma_descendants(ix, tag_node(i), false, x);
    match x {
        XPathNode::Element(j) => {
            assert(x == tag_node(j as int));
            lemma_ancestors(ix, j as int, i);
            lemma_inside_is_enclosed(ix, i, j as int);
        },
        XPathNode::Text(t) => {
            let p = ix.text_ranges@[t as int].parent_tag;
            let up = chain(ix, p);
            let root = seq![XPathNode::Element(DOC_ROOT)];
            let all = ancestor_axis(ix, x, false);
            assert(in_open_tag(ix.doc(), ix.doc().texts[t as int]));
            assert(all =~= up + root);
            lemma_add_member(up, root, tag_node(i));
            if p != u32::MAX {
                let rest = chain(ix, ix.parents@[p as int]);
                let own = seq![tag_node(p as int)];
                lemma_parent_before(ix, p as int);
                assert(up =~= own + rest);
                lemma_add_member(own, rest, tag_node(i));
                assert(own[0] == tag_node(p as int));
                lemma_chain(ix, p as int, i);
                lemma_inside_is_enclosed(ix, i, p as int);
                if p == i {
                    assert(ix.close_of(i) == partner(ix.tag_types@, i));
                    lemma_open_until_closed(ix.tag_types@, i, i);
                }
            }
        },
        _ => {},
    }
}

/// A parent stands before its children.
proof fn lemma_parent_before(ix: XmlIndex, j: int)
    requires
        ix.wf(),
        0 <= j < ix.tags(),
    ensures
        ix.parents@[j] == u32::MAX || ix.parents@[j] < j,
{
    assert(ix.doc().parents[j] == ix.parents@[j]);
}

/// The descendants of the document root or a tag stand one after the other, each
/// once, and the node itself comes before them where it is wanted.
pub proof fn lemma_descendants_in_order(ix: XmlIndex, node: XPathNode)
    requires
        is_faithful(ix),
        root_or_tag(ix, node),
    ensures
        is_strict(ix, descendant_axis(ix, node, false)),
        descendant_axis(ix, node, true) == seq![node] + descendant_axis(ix, node, false),
{
    let with = descendant_axis(ix, node, true);
    let rest = descendant_axis(ix, node, false);
    let own = seq![node];
    let all = own + rest;
    let d = ix.doc();
    assert(ix.tags() == ix.tag_starts.len());
    lemma_descendants(ix, node, true, node);
    lemma_descendants(ix, node, false, node);
    assert forall|x: XPathNode| #[trigger] with.contains(x) <==> all.contains(x) by {
        lemma_descendants(ix, node, true, x);
        lemma_descendants(ix, node, false, x);
        lemma_add_member(own, rest, x);
        assert(own[0] == node);
    }
    assert forall|a: int, b: int| 0 <= a < b < all.len() implies doc_pos(ix, all[a]) < doc_pos(
        ix,
        all[b],
    ) by {
        let y = rest[b - 1];
        assert(all[b] == y);
        if a > 0 {
            assert(all[a] == rest[a - 1]);
        } else {
            assert(rest.contains(y));
            lemma_descendants(ix, node, false, y);
            let i = node->Element_0;
            match y {
                XPathNode::Element(j) => {
                    if i != DOC_ROOT {
                        assert(d.starts[i as int] < d.starts[j as int]);
                    }
                },
                XPathNode::Text(t) => {
                    let p = d.texts[t as int].parent_tag;
                    assert(in_open_tag(d, d.texts[t as int]));
                    if i < p {
                        assert(d.starts[i as int] < d.starts[p as int]);
                    }
                },
                _ => {},
            }
        }
    }
    assert forall|k: int| 0 <= k < all.len() implies stands(ix, #[trigger] all[k]) by {
        if k > 0 {
            assert(all[k] == rest[k - 1]);
        }
    }
    lemma_same_list(ix, with, all);
}

/// The siblings after a node are the children of its parent that start after it, in
/// document order, and those before it are the children that start before it, in
/// reverse order.
pub proof fn lemma_siblings(ix: XmlIndex, node: XPathNode, x: XPathNode)
    requires
        is_faithful(ix),
        is_tree_node(ix, node),
        node matches XPathNode::Text(t) ==> ix.text_ranges@[t as int].parent_tag != u32::MAX,
    ensures
        following_sibling_axis(ix, node).contains(x) <==> child_axis(ix, up(ix, node)).contains(x)
            && doc_pos(ix, x) > doc_pos(ix, node),
        preceding_sibling_axis(ix, node).contains(x) <==> child_axis(ix, up(ix, node)).contains(x)
            && doc_pos(ix, x) < doc_pos(ix, node),
        all_stand(ix, following_sibling_axis(ix, node)),
        is_strict(ix, following_sibling_axis(ix, node)),
        is_strict(ix, preceding_sibling_axis(ix, node).reverse()),
{
    let (parent, at) = place(ix, node)->0;
    let n = ix.tags() as int;
    let m = ix.text_ranges@.len() as int;
    let d = ix.doc();
    assert(ix.tags() == ix.tag_starts.len());
    if let XPathNode::Element(j) = node {
        lemma_parent_before(ix, j as int);
    }
    if let XPathNode::Text(t) = node {
        assert(in_open_tag(d, d.texts[t as int]));
    }
    if let XPathNode::Element(j) = x {
        if j < ix.tags() {
            lemma_parent_before(ix, j as int);
        }
    }
    if let XPathNode::Text(t) = x {
        if t < m {
            assert(in_open_tag(d, d.texts[t as int]));
        }
    }
    lemma_children(ix, up(ix, node), x);
    let inside = parent != u32::MAX;
    lemma_pick_list(ix, PickV::UnderAfter(parent, at), TextPick::UnderAfter(parent, at), inside, x);
    lemma_pick_list(
        ix,
        PickV::UnderBefore(parent, at),
        TextPick::UnderBefore(parent, at),
        inside,
        x,
    );
    let back = pick_nodes(
        ix,
        PickV::UnderBefore(parent, at),
        TextPick::UnderBefore(parent, at),
        inside,
    );
    lemma_reverse_member(back, x);
    assert(back.reverse().reverse() =~= back);
}

/// Which nodes are picked, and that they are in order.
pub proof fn lemma_pick_list(ix: XmlIndex, tags: PickV, texts: TextPick, inside: bool, x: XPathNode)
    requires
        is_faithful(ix),
    ensures
        pick_nodes(ix, tags, texts, inside).contains(x) <==> match x {
            XPathNode::Element(j) => j < ix.tags() && picks(ix, tags, j as int),
            XPathNode::Text(t) => inside && t < ix.text_ranges@.len() && picks_text(
                ix,
                texts,
                t as int,
            ),
            _ => false,
        },
        all_stand(ix, pick_nodes(ix, tags, texts, inside)),
        is_strict(ix, pick_nodes(ix, tags, texts, inside)),
{
    let n = ix.tags() as int;
    let m = ix.text_ranges@.len() as int;
    let some = pick_tags(ix, tags, 0, n);
    let both = some + pick_texts(ix, texts, m);
    lemma_picked(ix, tags, 0, n, texts, x);
    if inside {
        lemma_ordered_list(ix, both);
    } else {
        let few = some + Seq::<XPathNode>::empty();
        assert(few =~= some);
        lemma_pick_tags(ix, tags, 0, n);
        assert(ix.tags() == ix.tag_starts.len());
        if few.contains(x) {
            let k = choose|k: int| 0 <= k < some.len() && some[k] == x;
            assert(some[k] is Element);
        }
        if let XPathNode::Element(j) = x {
            if j < ix.tags() && picks(ix, tags, j as int) {
                assert(some.contains(tag_node(j as int)));
            }
        }
        assert forall|a: int, b: int| 0 <= a < b < few.len() implies few[a] != few[b] by {
            assert(both[a] == few[a] && both[b] == few[b]);
        }
        assert forall|k: int| 0 <= k < few.len() implies stands(ix, #[trigger] few[k]) by {
            assert(both[k] == few[k]);
        }
        lemma_ordered_list(ix, few);
    }
}

/// The lookup tables make no difference to siblings: two indexes with the same
/// arrays have the same siblings after and before a node.
pub proof fn lemma_siblings_without_tables(a: XmlIndex, b: XmlIndex, node: XPathNode)
    requires
        is_faithful(a),
        is_faithful(b),
        a.doc() == b.doc(),
        is_tree_node(a, node),
        node matches XPathNode::Text(t) ==> a.text_ranges@[t as int].parent_tag != u32::MAX,
    ensures
        following_sibling_axis(a, node) == following_sibling_axis(b, node),
        preceding_sibling_axis(a, node) == preceding_sibling_axis(b, node),
{
    assert(a.tag_starts@ == a.doc().starts && b.tag_starts@ == b.doc().starts);
    assert(a.tag_types@ == a.doc().types && b.tag_types@ == b.doc().types);
    assert(a.parents@ == a.doc().parents && b.parents@ == b.doc().parents);
    assert(a.text_ranges@ == a.doc().texts && b.text_ranges@ == b.doc().texts);
    let (parent, at) = place(a, node)->0;
    let inside = parent != u32::MAX;
    lemma_same_picks(
        a,
        b,
        PickV::UnderAfter(parent, at),
        TextPick::UnderAfter(parent, at),
        inside,
    );
    lemma_same_picks(
        a,
        b,
        PickV::UnderBefore(parent, at),
        TextPick::UnderBefore(parent, at),
        inside,
    );
}

proof fn lemma_same_picks(a: XmlIndex, b: XmlIndex, tags: PickV, texts: TextPick, inside: bool)
    requires
        is_faithful(a),
        is_faithful(b),
        a.doc() == b.doc(),
        tags is UnderAfter || tags is UnderBefore,
    ensures
        pick_nodes(a, tags, texts, inside) == pick_nodes(b, tags, texts, inside),
{
    assert(a.tag_starts@ == a.doc().starts && b.tag_starts@ == b.doc().starts);
    assert(a.tag_types@ == a.doc().types && b.tag_types@ == b.doc().types);
    assert(a.parents@ == a.doc().parents && b.parents@ == b.doc().parents);
    assert(a.text_ranges@ == a.doc().texts && b.text_ranges@ == b.doc().texts);
    let c = pick_nodes(a, tags, texts, inside);
    let d = pick_nodes(b, tags, texts, inside);
    assert forall|x: XPathNode| #[trigger] c.contains(x) <==> d.contains(x) by {
        lemma_pick_list(a, tags, texts, inside, x);
        lemma_pick_list(b, tags, texts, inside, x);
    }
    lemma_pick_list(a, tags, texts, inside, XPathNode::Element(DOC_ROOT));
    lemma_pick_list(b, tags, texts, inside, XPathNode::Element(DOC_ROOT));
    assert forall|k: int| 0 <= k < d.len() implies stands(a, #[trigger] d[k]) by {
        assert(stands(b, d[k]));
    }
    assert forall|x: XPathNode| #[trigger] doc_pos(a, x) == doc_pos(b, x) by {}
    lemma_same_list(a, c, d);
}

/// Seen from an element, a comment or a processing instruction of a balanced document,
/// every other and the node itself is on exactly one of these axes: descendant-or-self,
/// ancestor, following, preceding.
pub proof fn lemma_axes_divide_the_elements(ix: XmlIndex, j: int, i: int)
    requires
        is_faithful(ix),
        is_balanced(ix),
        0 <= j < ix.tags(),
        0 <= i < ix.tags(),
        is_node_kind(ix.tag_types@[j]),
        is_node_kind(ix.tag_types@[i]),
    ensures
        ({
            let d = descendant_axis(ix, tag_node(j), true).contains(tag_node(i));
            let a = ancestor_axis(ix, tag_node(j), false).contains(tag_node(i));
            let f = following_axis(ix, tag_node(j)).contains(tag_node(i));
            let p = preceding_axis(ix, tag_node(j)).contains(tag_node(i));
            &&& d || a || f || p
            &&& !(d && a) && !(d && f) && !(d && p)
            &&& !(a && f) && !(a && p)
            &&& !(f && p)
        }),
{
    let types = ix.tag_types@;
    let n = ix.tags() as int;
    assert(ix.tags() == ix.tag_starts.len());
    lemma_descendants(ix, tag_node(j), true, tag_node(i));
    lemma_ancestors(ix, j, i);
    lemma_chain(ix, j, i);
    lemma_open_stack(types, j);
    let en = enclosing(types, j);
    if en.contains(i) {
        let w = choose|w: int| 0 <= w < en.len() && en[w] == i;
        assert(open_stack(types, j)[w] == i);
    }
    if types[j] == TagType::Open {
        assert(ix.close_of(j) == partner(types, j));
        assert(partner(types, j) is Some);
        lemma_open_until_closed(types, j, j);
    }
    let close = scope_end(ix, j);
    let d = ix.doc();
    let at = ix.tag_starts@[close];
    let start = ix.tag_starts@[j];
    let entry = ix.parents@[j];
    lemma_pick_nodes(ix, PickV::After(at), TextPick::After(at), i);
    lemma_pick_nodes(ix, PickV::Apart(entry, start), TextPick::Before(start), i);
    assert(d.starts[i] == ix.tag_starts@[i]);
    assert(d.starts[j] == ix.tag_starts@[j]);
    assert(d.starts[close] == ix.tag_starts@[close]);
    let back = pick_nodes(ix, PickV::Apart(entry, start), TextPick::Before(start), true);
    lemma_reverse_member(back, tag_node(i));
}

/// What follows a node starts after it, and what precedes it before it.
pub proof fn lemma_beside_by_place(ix: XmlIndex, j: int, i: int)
    requires
        is_faithful(ix),
        is_balanced(ix),
        0 <= j < ix.tags(),
        0 <= i < ix.tags(),
        is_node_kind(ix.tag_types@[j]),
    ensures
        following_axis(ix, tag_node(j)).contains(tag_node(i)) ==> i > j,
        preceding_axis(ix, tag_node(j)).contains(tag_node(i)) ==> i < j,
        ancestor_axis(ix, tag_node(j), false).contains(tag_node(i)) ==> i < j,
{
    let types = ix.tag_types@;
    let d = ix.doc();
    assert(ix.tags() == ix.tag_starts.len());
    if types[j] == TagType::Open {
        assert(ix.close_of(j) == partner(types, j));
        lemma_open_until_closed(types, j, j);
    }
    let close = scope_end(ix, j);
    let at = ix.tag_starts@[close];
    let start = ix.tag_starts@[j];
    let entry = ix.parents@[j];
    lemma_pick_nodes(ix, PickV::After(at), TextPick::After(at), i);
    lemma_pick_nodes(ix, PickV::Apart(entry, start), TextPick::Before(start), i);
    let back = pick_nodes(ix, PickV::Apart(entry, start), TextPick::Before(start), true);
    lemma_reverse_member(back, tag_node(i));
    assert(d.starts[i] == ix.tag_starts@[i]);
    assert(d.starts[j] == ix.tag_starts@[j]);
    assert(d.starts[close] == ix.tag_starts@[close]);
    lemma_ancestors(ix, j, i);
    lemma_open_stack(types, j);
    let en = enclosing(types, j);
    if en.contains(i) {
        let w = choose|w: int| 0 <= w < en.len() && en[w] == i;
        assert(open_stack(types, j)[w] == i);
    }
}

/// A tag is among the picked nodes exactly when it meets the condition.
proof fn lemma_pick_nodes(ix: XmlIndex, tags: PickV, texts: TextPick, i: int)
    requires
        0 <= i < ix.tags(),
    ensures
        pick_nodes(ix, tags, texts, true).contains(tag_node(i)) <==> picks(ix, tags, i),
{
    let n = ix.tags() as int;
    let m = ix.text_ranges@.len() as int;
    let some = pick_tags(ix, tags, 0, n);
    let more = pick_texts(ix, texts, m);
    lemma_pick_member(ix, tags, 0, n, i);
    lemma_no_elements(ix, texts, m, i as usize);
    lemma_ordered_member(ix, some + more, tag_node(i));
    let all = some + more;
    if all.contains(tag_node(i)) {
        let k = choose|k: int| 0 <= k < all.len() && all[k] == tag_node(i);
        if k < some.len() {
            assert(some[k] == tag_node(i));
        } else {
            assert(more[k - some.len()] == tag_node(i));
        }
    }
    if some.contains(tag_node(i)) {
        let k = choose|k: int| 0 <= k < some.len() && some[k] == tag_node(i);
        assert(all[k] == tag_node(i));
    }
}

proof fn lemma_reverse_member(nodes: Seq<XPathNode>, node: XPathNode)
    ensures
        nodes.reverse().contains(node) <==> nodes.contains(node),
{
    let back = nodes.reverse();
    let n = nodes.len() as int;
    if nodes.contains(node) {
        let k = choose|k: int| 0 <= k < n && nodes[k] == node;
        assert(back[n - 1 - k] == node);
    }
    if back.contains(node) {
        let k = choose|k: int| 0 <= k < n && back[k] == node;
        assert(nodes[n - 1 - k] == node);
    }
}

} // verus!
