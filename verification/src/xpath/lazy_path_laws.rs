//! Paths of names select the same elements in an index made for a query as in one of
//! the whole document, with the same texts.

use vstd::prelude::*;
use vstd::utf8::*;
use crate::index::lazy_laws::{same_tag, tag_occurs};
use crate::index::lazy_text_laws::wanted_tag;
use crate::index::tables::{child_owner, lemma_owned, owned};
use crate::index::{TagType, XmlIndex};
use crate::xpath::analyze::{
    all_name_paths, by_names, exprs_need, is_name_path, names_child, needs, step_needs, steps_need,
    test_needs,
};
use crate::xpath::ast::{ExprV, StepV, TestV};
use crate::xpath::axes::{
    child_axis, is_node_kind, pick_tags, pick_texts, picks, row_nodes, PickV, TextPick,
};
use crate::xpath::eval::node_texts;
use crate::xpath::fusion_laws::{
    child_step, lemma_fused_members, lemma_passing_member, lemma_step_members, reached,
};
use crate::xpath::laws::{lemma_in_doc_order, lemma_tidy};
use crate::xpath::lazy_laws::{
    lemma_lazy_finds_elements, lemma_pick_tags, lemma_same_ascending, places,
};
use crate::xpath::lazy_text_laws::{
    beside, lemma_beside, lemma_same_node_texts, lemma_same_place, lemma_same_span,
};
use crate::xpath::name_laws::{lemma_exprs_need, lemma_steps_need};
use crate::xpath::nodes::{
    dedup_key, doc_pos, key_seen, merge_placed, passes, passing, placed, unplaced, Placed,
    XPathNode, DOC_ROOT,
};
use crate::xpath::numbers::Oracle;
use crate::xpath::path_laws::{double_slash, lemma_one_step, lemma_scope_end};
use crate::xpath::scope_laws::{
    lemma_merge_members, lemma_merged_nodes, lemma_ordered_member, lemma_picked, root_or_tag,
    tag_node,
};
use crate::xpath::semantics::{
    fused_nodes, fused_one, fused_over, fusible, name_row, path_from, query, query_parts, scope,
    step_nodes, step_over, tested_nodes, tidy,
};
use crate::xpath::semantics_unfold::{
    unfold_fused_nodes, unfold_path_from, unfold_query, unfold_query_parts, unfold_step_nodes,
    unfold_step_over,
};

verus! {

// Lists of tags.

/// All nodes of a list are tags.
pub open spec fn only_tags(ix: XmlIndex, nodes: Seq<XPathNode>) -> bool {
    forall|k: int|
        0 <= k < nodes.len() ==> (#[trigger] nodes[k] matches XPathNode::Element(i) && i
            < ix.tags())
}

/// The numbers of the tags in a list ascend.
pub open spec fn is_ascending(nodes: Seq<XPathNode>) -> bool {
    forall|k: int, m: int| 0 <= k < m < nodes.len() ==> nodes[k]->Element_0 < nodes[m]->Element_0
}

/// A node set of tags, tidied, is ascending and holds the same tags.
proof fn lemma_tidied_ascending(ix: XmlIndex, over: Seq<XPathNode>)
    requires
        ix.wf(),
        only_tags(ix, over),
    ensures
        only_tags(ix, tidy(ix, over)),
        is_ascending(tidy(ix, over)),
        forall|j: int|
            0 <= j < ix.tags() ==> (tidy(ix, over).contains(#[trigger] tag_node(j))
                <==> over.contains(tag_node(j))),
{
    let out = tidy(ix, over);
    lemma_tidy(ix, over);
    assert(ix.tags() == ix.tag_starts.len());
    assert forall|k: int| 0 <= k < out.len() implies (#[trigger] out[k] matches XPathNode::Element(
        i,
    ) && i < ix.tags()) by {
        assert(over.contains(out[k]));
        let w = choose|w: int| 0 <= w < over.len() && over[w] == out[k];
        assert(over[w] is Element);
    }
    assert forall|k: int, m: int| 0 <= k < m < out.len() implies out[k]->Element_0
        < out[m]->Element_0 by {
        let a = out[k]->Element_0 as int;
        let b = out[m]->Element_0 as int;
        assert(out[k] == tag_node(a) && out[m] == tag_node(b));
        assert(doc_pos(ix, out[k]) <= doc_pos(ix, out[m]));
        assert(dedup_key(out[k]) != dedup_key(out[m]));
        if b < a {
            assert(ix.doc().starts[b] < ix.doc().starts[a]);
        }
    }
    assert forall|j: int| 0 <= j < ix.tags() implies (out.contains(#[trigger] tag_node(j))
        <==> over.contains(tag_node(j))) by {
        if out.contains(tag_node(j)) {
            let k = choose|k: int| 0 <= k < out.len() && out[k] == tag_node(j);
            assert(over.contains(out[k]));
        }
        if over.contains(tag_node(j)) {
            let w = choose|w: int| 0 <= w < over.len() && over[w] == tag_node(j);
            assert(key_seen(out, out.len() as int, dedup_key(over[w])));
            let k = choose|k: int|
                0 <= k < out.len() && dedup_key(#[trigger] out[k]) == dedup_key(over[w]);
            assert(out[k] is Element);
            assert(out[k] == tag_node(j));
        }
    }
}

/// The tags in a list of nodes ascend.
pub open spec fn tags_ascend(nodes: Seq<XPathNode>) -> bool {
    forall|i: int, j: int|
        0 <= i < j < nodes.len() && nodes[i] is Element && nodes[j] is Element
            ==> nodes[i]->Element_0 < nodes[j]->Element_0
}

/// All nodes of a list are tags or texts.
pub open spec fn tags_and_texts(ix: XmlIndex, nodes: Seq<XPathNode>) -> bool {
    forall|k: int|
        0 <= k < nodes.len() ==> match #[trigger] nodes[k] {
            XPathNode::Element(i) => i < ix.tags(),
            XPathNode::Text(_) => true,
            _ => false,
        }
}

/// The nodes of a name among tags and texts.
proof fn lemma_passing_tags(ix: XmlIndex, nodes: Seq<XPathNode>, name: Seq<char>, k: int)
    requires
        0 <= k <= nodes.len(),
        tags_ascend(nodes),
        tags_and_texts(ix, nodes),
    ensures
        only_tags(ix, passing(ix, nodes, TestV::Name(name), k)),
        is_ascending(passing(ix, nodes, TestV::Name(name), k)),
        forall|j: int|
            #![trigger passing(ix, nodes, TestV::Name(name), k)[j]]
            0 <= j < passing(ix, nodes, TestV::Name(name), k).len() ==> exists|w: int|
                0 <= w < k && nodes[w] == passing(ix, nodes, TestV::Name(name), k)[j],
    decreases k,
{
    if k > 0 {
        let test = TestV::Name(name);
        let before = passing(ix, nodes, test, k - 1);
        let all = passing(ix, nodes, test, k);
        lemma_passing_tags(ix, nodes, name, k - 1);
        assert forall|j: int| #![trigger all[j]] 0 <= j < all.len() implies exists|w: int|
            0 <= w < k && nodes[w] == all[j] by {
            if j < before.len() {
                let w = choose|w: int| 0 <= w < k - 1 && nodes[w] == before[j];
                assert(nodes[w] == all[j]);
            } else {
                assert(nodes[k - 1] == all[j]);
            }
        }
        assert forall|i: int, j: int| 0 <= i < j < all.len() implies all[i]->Element_0
            < all[j]->Element_0 by {
            if j == before.len() {
                assert(before[i] == all[i]);
                let w = choose|w: int| 0 <= w < k - 1 && nodes[w] == before[i];
                assert(nodes[w] is Element && nodes[k - 1] is Element);
            } else {
                assert(before[i] == all[i] && before[j] == all[j]);
            }
        }
        assert forall|j: int| 0 <= j < all.len() implies (#[trigger] all[j] matches XPathNode::Element(
            i,
        ) && i < ix.tags()) by {
            if j < before.len() {
                assert(before[j] == all[j]);
            }
        }
    }
}

/// Merging texts into tags keeps the tags in order.
proof fn lemma_merged_tags(a: Seq<Placed>, b: Seq<Placed>)
    requires
        forall|i: int| 0 <= i < a.len() ==> (#[trigger] a[i]).1 is Text,
        forall|i: int| 0 <= i < b.len() ==> (#[trigger] b[i]).1 is Element,
        tags_ascend(unplaced(b)),
    ensures
        tags_ascend(unplaced(merge_placed(a, b))),
    decreases a.len() + b.len(),
{
    let all = merge_placed(a, b);
    if a.len() == 0 {
        assert(all =~= b);
    } else if b.len() == 0 {
        assert(all =~= a);
        assert forall|i: int, j: int|
            0 <= i < j < unplaced(all).len() && unplaced(all)[i] is Element && unplaced(
                all,
            )[j] is Element implies unplaced(all)[i]->Element_0 < unplaced(all)[j]->Element_0 by {
            assert(a[i].1 is Text);
        }
    } else {
        let (head, c, d) = if a[0].0 <= b[0].0 {
            (a[0], a.drop_first(), b)
        } else {
            (b[0], a, b.drop_first())
        };
        let rest = merge_placed(c, d);
        assert(all == seq![head] + rest);
        assert forall|i: int| 0 <= i < c.len() implies (#[trigger] c[i]).1 is Text by {
            if a[0].0 <= b[0].0 {
                assert(c[i] == a[i + 1]);
            }
        }
        assert forall|i: int| 0 <= i < d.len() implies (#[trigger] d[i]).1 is Element by {
            if !(a[0].0 <= b[0].0) {
                assert(d[i] == b[i + 1]);
            }
        }
        assert forall|i: int, j: int|
            0 <= i < j < unplaced(d).len() && unplaced(d)[i] is Element && unplaced(
                d,
            )[j] is Element implies unplaced(d)[i]->Element_0 < unplaced(d)[j]->Element_0 by {
            if !(a[0].0 <= b[0].0) {
                assert(unplaced(d)[i] == unplaced(b)[i + 1]);
                assert(unplaced(d)[j] == unplaced(b)[j + 1]);
            }
        }
        lemma_merged_tags(c, d);
        assert forall|i: int, j: int|
            0 <= i < j < unplaced(all).len() && unplaced(all)[i] is Element && unplaced(
                all,
            )[j] is Element implies unplaced(all)[i]->Element_0 < unplaced(all)[j]->Element_0 by {
            assert(unplaced(all)[j] == unplaced(rest)[j - 1]);
            if i > 0 {
                assert(unplaced(all)[i] == unplaced(rest)[i - 1]);
            } else if a[0].0 <= b[0].0 {
                assert(a[0].1 is Text);
            } else {
                let y = rest[j - 1];
                assert(rest.contains(y));
                lemma_merge_members(c, d, y);
                if c.contains(y) {
                    let w = choose|w: int| 0 <= w < c.len() && c[w] == y;
                    assert(c[w].1 is Text);
                } else {
                    let w = choose|w: int| 0 <= w < d.len() && d[w] == y;
                    assert(b[w + 1] == y);
                    assert(unplaced(b)[0] is Element && unplaced(b)[w + 1] is Element);
                    assert(unplaced(b)[0]->Element_0 < unplaced(b)[w + 1]->Element_0);
                }
            }
        }
    }
}

// Steps.

/// An index whose child table, if it has one, is that of its arrays.
pub open spec fn child_table_ok(ix: XmlIndex) -> bool {
    &&& ix.wf()
    &&& ix.tags() <= u32::MAX
    &&& ix.tabled() ==> ix.indexed()
}

/// Whether a tag stands right under a node.
pub open spec fn under(ix: XmlIndex, node: XPathNode, j: int) -> bool {
    if node == XPathNode::Element(DOC_ROOT) {
        ix.depths@[j] == 0
    } else {
        node matches XPathNode::Element(p) && ix.parents@[j] == p
    }
}

/// The children of a name.
proof fn lemma_named_children(ix: XmlIndex, node: XPathNode, name: Seq<char>)
    requires
        child_table_ok(ix),
        root_or_tag(ix, node),
    ensures
        ({
            let out = tested_nodes(ix, node, child_step(TestV::Name(name)));
            &&& only_tags(ix, out)
            &&& is_ascending(out)
            &&& forall|j: int|
                0 <= j < ix.tags() ==> (out.contains(#[trigger] tag_node(j)) <==> passes(
                    ix,
                    tag_node(j),
                    TestV::Name(name),
                ) && under(ix, node, j))
        }),
{
    let test = TestV::Name(name);
    let all = child_axis(ix, node);
    let out = tested_nodes(ix, node, child_step(test));
    assert(out == passing(ix, all, test, all.len() as int));
    lemma_child_list(ix, node);
    lemma_passing_tags(ix, all, name, all.len() as int);
    assert forall|j: int| 0 <= j < ix.tags() implies (out.contains(#[trigger] tag_node(j))
        <==> passes(ix, tag_node(j), test) && under(ix, node, j)) by {
        lemma_passing_member(ix, all, test, all.len() as int, tag_node(j));
        assert(all.take(all.len() as int) =~= all);
        if passes(ix, tag_node(j), test) {
            lemma_child_tag(ix, node, j);
        }
    }
}

/// The children of a node are tags and texts, the tags in order.
proof fn lemma_child_list(ix: XmlIndex, node: XPathNode)
    requires
        child_table_ok(ix),
        root_or_tag(ix, node),
    ensures
        tags_ascend(child_axis(ix, node)),
        tags_and_texts(ix, child_axis(ix, node)),
{
    let all = child_axis(ix, node);
    let p = node->Element_0;
    let n = ix.tags() as int;
    let m = ix.text_ranges@.len() as int;
    assert(ix.tags() == ix.tag_starts.len());
    if p == DOC_ROOT {
        lemma_pick_tags(ix, PickV::RootLevel, 0, n);
    } else if ix.tabled() {
        let row = ix.child_row(p as int);
        let texts = row_nodes(ix.text_row(p as int), true);
        let tags = row_nodes(row, false);
        let owner = child_owner(ix.doc());
        assert(ix.child_offsets@[p as int] <= ix.child_offsets@[p + 1]);
        assert(row == owned(owner, p as int, n));
        lemma_owned(owner, p as int, n);
        let a = placed(ix, texts);
        let b = placed(ix, tags);
        assert(unplaced(b) =~= tags);
        lemma_merged_tags(a, b);
        assert forall|k: int| 0 <= k < all.len() implies match #[trigger] all[k] {
            XPathNode::Element(i) => i < ix.tags(),
            XPathNode::Text(_) => true,
            _ => false,
        } by {
            assert(all.contains(all[k]));
            lemma_merged_nodes(ix, texts, tags, all[k]);
            if tags.contains(all[k]) {
                let w = choose|w: int| 0 <= w < tags.len() && tags[w] == all[k];
                assert(tags[w] == XPathNode::Element(row[w] as usize));
                assert(row[w] < n);
            } else {
                let w = choose|w: int| 0 <= w < texts.len() && texts[w] == all[k];
                assert(texts[w] is Text);
            }
        }
    } else {
        let entry = (p as int % 0x1_0000_0000) as u32;
        let some = pick_tags(ix, PickV::Under(entry), 0, n) + pick_texts(
            ix,
            TextPick::Under(entry),
            m,
        );
        lemma_picked(ix, PickV::Under(entry), 0, n, TextPick::Under(entry), node);
        lemma_in_doc_order(ix, some);
        some.lemma_multiset_has_no_duplicates();
        all.lemma_multiset_has_no_duplicates_conv();
        assert forall|k: int| 0 <= k < all.len() implies match #[trigger] all[k] {
            XPathNode::Element(i) => i < ix.tags(),
            XPathNode::Text(_) => true,
            _ => false,
        } by {
            assert(all.contains(all[k]));
            lemma_ordered_member(ix, some, all[k]);
            lemma_picked(ix, PickV::Under(entry), 0, n, TextPick::Under(entry), all[k]);
        }
        assert forall|i: int, j: int|
            0 <= i < j < all.len() && all[i] is Element && all[j] is Element implies all[i]->Element_0
            < all[j]->Element_0 by {
            let a = all[i]->Element_0 as int;
            let b = all[j]->Element_0 as int;
            assert(all[i] == tag_node(a) && all[j] == tag_node(b));
            assert(doc_pos(ix, all[i]) <= doc_pos(ix, all[j]));
            assert(all[i] != all[j]);
            if b < a {
                assert(ix.doc().starts[b] < ix.doc().starts[a]);
            }
        }
    }
}

/// A tag that is a node is a child of a node exactly when it stands right under it.
proof fn lemma_child_tag(ix: XmlIndex, node: XPathNode, j: int)
    requires
        child_table_ok(ix),
        root_or_tag(ix, node),
        0 <= j < ix.tags(),
        is_node_kind(ix.tag_types@[j]),
    ensures
        child_axis(ix, node).contains(tag_node(j)) <==> under(ix, node, j),
{
    let x = tag_node(j);
    let p = node->Element_0;
    let n = ix.tags() as int;
    let m = ix.text_ranges@.len() as int;
    assert(ix.tags() == ix.tag_starts.len());
    if p == DOC_ROOT {
        let all = child_axis(ix, node);
        lemma_pick_tags(ix, PickV::RootLevel, 0, n);
        if all.contains(x) {
            let k = choose|k: int| 0 <= k < all.len() && all[k] == x;
            assert(all[k] is Element);
        }
        if under(ix, node, j) {
            assert(picks(ix, PickV::RootLevel, j));
        }
    } else if ix.tabled() {
        let row = ix.child_row(p as int);
        let texts = row_nodes(ix.text_row(p as int), true);
        let tags = row_nodes(row, false);
        let owner = child_owner(ix.doc());
        assert(ix.child_offsets@[p as int] <= ix.child_offsets@[p + 1]);
        assert(row == owned(owner, p as int, n));
        lemma_owned(owner, p as int, n);
        lemma_merged_nodes(ix, texts, tags, x);
        assert(owner[j] == ix.parents@[j]);
        if tags.contains(x) {
            let w = choose|w: int| 0 <= w < tags.len() && tags[w] == x;
            assert(tags[w] == XPathNode::Element(row[w] as usize));
            assert(owner[row[w] as int] == p);
        }
        if texts.contains(x) {
            let w = choose|w: int| 0 <= w < texts.len() && texts[w] == x;
            assert(texts[w] is Text);
        }
        if ix.parents@[j] == p {
            let w = choose|w: int| 0 <= w < row.len() && row[w] == j as u32;
            assert(tags[w] == x);
        }
    } else {
        let entry = p as u32;
        assert((p as int % 0x1_0000_0000) as u32 == entry);
        let some = pick_tags(ix, PickV::Under(entry), 0, n) + pick_texts(
            ix,
            TextPick::Under(entry),
            m,
        );
        lemma_picked(ix, PickV::Under(entry), 0, n, TextPick::Under(entry), x);
        lemma_ordered_member(ix, some, x);
    }
}

/// All nodes of a list are tags or the document root.
pub open spec fn roots_or_tags(ix: XmlIndex, ctx: Seq<XPathNode>) -> bool {
    forall|c: int| 0 <= c < ctx.len() ==> root_or_tag(ix, #[trigger] ctx[c])
}

/// Whether a tag stands right under one of the nodes.
pub open spec fn under_some(ix: XmlIndex, ctx: Seq<XPathNode>, j: int) -> bool {
    exists|c: int| 0 <= c < ctx.len() && under(ix, #[trigger] ctx[c], j)
}

/// A step to the children of a name.
proof fn lemma_child_step(ix: XmlIndex, o: Oracle, ctx: Seq<XPathNode>, name: Seq<char>)
    requires
        child_table_ok(ix),
        roots_or_tags(ix, ctx),
    ensures
        ({
            let out = step_nodes(ix, o, ctx, child_step(TestV::Name(name)));
            &&& only_tags(ix, out)
            &&& is_ascending(out)
            &&& forall|j: int|
                0 <= j < ix.tags() ==> (out.contains(#[trigger] tag_node(j)) <==> passes(
                    ix,
                    tag_node(j),
                    TestV::Name(name),
                ) && under_some(ix, ctx, j))
        }),
{
    let st = child_step(TestV::Name(name));
    let n = ctx.len() as int;
    let over = step_over(ix, o, ctx, st, n);
    unfold_step_nodes(ix, o, ctx, st);
    assert forall|j: int| 0 <= j < ix.tags() implies (over.contains(#[trigger] tag_node(j))
        <==> passes(ix, tag_node(j), st.test) && under_some(ix, ctx, j)) by {
        lemma_step_members(ix, o, ctx, st, n, tag_node(j));
        if reached(ix, ctx, st, n, tag_node(j)) {
            let c = choose|c: int|
                0 <= c < n && #[trigger] tested_nodes(ix, ctx[c], st).contains(tag_node(j));
            assert(root_or_tag(ix, ctx[c]));
            lemma_named_children(ix, ctx[c], name);
            assert(under(ix, ctx[c], j));
        }
        if passes(ix, tag_node(j), st.test) && under_some(ix, ctx, j) {
            let c = choose|c: int| 0 <= c < n && under(ix, #[trigger] ctx[c], j);
            assert(root_or_tag(ix, ctx[c]));
            lemma_named_children(ix, ctx[c], name);
            assert(tested_nodes(ix, ctx[c], st).contains(tag_node(j)));
        }
    }
    assert forall|k: int| 0 <= k < over.len() implies (#[trigger] over[k] matches XPathNode::Element(
        i,
    ) && i < ix.tags()) by {
        assert(over.contains(over[k]));
        lemma_step_members(ix, o, ctx, st, n, over[k]);
        let c = choose|c: int|
            0 <= c < n && #[trigger] tested_nodes(ix, ctx[c], st).contains(over[k]);
        assert(root_or_tag(ix, ctx[c]));
        lemma_named_children(ix, ctx[c], name);
        let some = tested_nodes(ix, ctx[c], st);
        let w = choose|w: int| 0 <= w < some.len() && some[w] == over[k];
        assert(some[w] is Element);
    }
    if n > 1 {
        lemma_tidied_ascending(ix, over);
    } else if n == 1 {
        assert(root_or_tag(ix, ctx[0]));
        lemma_named_children(ix, ctx[0], name);
        assert(ctx =~= seq![ctx[0]]);
        lemma_one_step(ix, o, ctx[0], st);
    } else {
        unfold_step_over(ix, o, ctx, st, 0);
    }
}

/// Whether a tag lies inside of one of the nodes.
pub open spec fn inside_some(ix: XmlIndex, ctx: Seq<XPathNode>, j: int) -> bool {
    exists|c: int| 0 <= c < ctx.len() && spans(ix, #[trigger] ctx[c], j)
}

/// Whether a tag lies inside of a node.
pub open spec fn spans(ix: XmlIndex, node: XPathNode, j: int) -> bool {
    scope(ix, node) matches Some((lo, first, end)) && lo <= j < end
}

/// The two steps that `//` and a name abbreviate.
proof fn lemma_scan_step(ix: XmlIndex, o: Oracle, ctx: Seq<XPathNode>, name: Seq<char>)
    requires
        ix.wf(),
        ix.name_posting@.len() == 0,
        ix.name_table@.len() == 0,
        ix.name_ids@.len() == 0,
        roots_or_tags(ix, ctx),
    ensures
        ({
            let out = fused_nodes(ix, o, ctx, child_step(TestV::Name(name)));
            &&& only_tags(ix, out)
            &&& is_ascending(out)
            &&& forall|j: int|
                0 <= j < ix.tags() ==> (out.contains(#[trigger] tag_node(j)) <==> passes(
                    ix,
                    tag_node(j),
                    TestV::Name(name),
                ) && inside_some(ix, ctx, j))
        }),
{
    let test = TestV::Name(name);
    let n = ctx.len() as int;
    let over = fused_over(ix, ctx, test, n);
    unfold_fused_nodes(ix, o, ctx, child_step(test));
    assert(ix.tags() == ix.tag_starts.len());
    assert(name_row(ix, name).len() == 0);
    assert forall|c: int| 0 <= c < n implies scanned_right(ix, #[trigger] ctx[c], name) by {
        assert(root_or_tag(ix, ctx[c]));
        lemma_scanned_right(ix, ctx[c], name);
    }
    assert forall|j: int| 0 <= j < ix.tags() implies (over.contains(#[trigger] tag_node(j))
        <==> passes(ix, tag_node(j), test) && inside_some(ix, ctx, j)) by {
        lemma_fused_members(ix, ctx, test, n, tag_node(j));
        if over.contains(tag_node(j)) {
            let c = choose|c: int|
                0 <= c < n && #[trigger] fused_one(ix, ctx[c], test).contains(tag_node(j));
            assert(scanned_right(ix, ctx[c], name));
            assert(spans(ix, ctx[c], j));
        }
        if passes(ix, tag_node(j), test) && inside_some(ix, ctx, j) {
            let c = choose|c: int| 0 <= c < n && spans(ix, #[trigger] ctx[c], j);
            assert(scanned_right(ix, ctx[c], name));
            assert(fused_one(ix, ctx[c], test).contains(tag_node(j)));
        }
    }
    assert forall|k: int| 0 <= k < over.len() implies (#[trigger] over[k] matches XPathNode::Element(
        i,
    ) && i < ix.tags()) by {
        assert(over.contains(over[k]));
        lemma_fused_members(ix, ctx, test, n, over[k]);
        let c = choose|c: int|
            0 <= c < n && #[trigger] fused_one(ix, ctx[c], test).contains(over[k]);
        assert(scanned_right(ix, ctx[c], name));
        let some = fused_one(ix, ctx[c], test);
        let w = choose|w: int| 0 <= w < some.len() && some[w] == over[k];
        assert(some[w] is Element);
    }
    if n > 1 {
        lemma_tidied_ascending(ix, over);
    } else if n == 1 {
        assert(fused_over(ix, ctx, test, 0) =~= Seq::empty());
        assert(over =~= fused_one(ix, ctx[0], test));
        assert(scanned_right(ix, ctx[0], name));
    }
}

/// A scan for a name finds the tags of the name inside of a node.
spec fn scanned_right(ix: XmlIndex, node: XPathNode, name: Seq<char>) -> bool {
    let out = fused_one(ix, node, TestV::Name(name));
    &&& only_tags(ix, out)
    &&& is_ascending(out)
    &&& forall|j: int|
        0 <= j < ix.tags() ==> (out.contains(#[trigger] tag_node(j)) <==> passes(
            ix,
            tag_node(j),
            TestV::Name(name),
        ) && spans(ix, node, j))
}

proof fn lemma_scanned_right(ix: XmlIndex, node: XPathNode, name: Seq<char>)
    requires
        ix.wf(),
        name_row(ix, name).len() == 0,
        root_or_tag(ix, node),
    ensures
        scanned_right(ix, node, name),
{
    let test = TestV::Name(name);
    let (lo, first, end) = scope(ix, node)->0;
    let out = fused_one(ix, node, test);
    assert(ix.tags() == ix.tag_starts.len());
    if node->Element_0 != DOC_ROOT {
        lemma_scope_end(ix, node->Element_0 as int);
    }
    assert(out == pick_tags(ix, PickV::Test(test), lo, end));
    if lo <= end {
        lemma_pick_tags(ix, PickV::Test(test), lo, end);
    } else {
        assert(out.len() == 0);
    }
    assert forall|j: int| 0 <= j < ix.tags() implies (out.contains(#[trigger] tag_node(j))
        <==> passes(ix, tag_node(j), test) && spans(ix, node, j)) by {
        if out.contains(tag_node(j)) {
            let w = choose|w: int| 0 <= w < out.len() && out[w] == tag_node(j);
            assert(out[w] is Element);
        }
        if passes(ix, tag_node(j), test) && spans(ix, node, j) {
            assert(picks(ix, PickV::Test(test), j));
        }
    }
}

// Two indexes.

/// A tag of an index made for a query, and the same tag in the whole document.
pub open spec fn twins(lazy: XmlIndex, i: int, full: XmlIndex, j: int) -> bool {
    &&& 0 <= i < lazy.tags()
    &&& 0 <= j < full.tags()
    &&& same_tag(lazy.doc(), i, full.doc(), j)
}

/// The same node in both: the document root, or an element of a wanted name.
pub open spec fn pair(
    s: Seq<u8>,
    names: Set<Seq<char>>,
    lazy: XmlIndex,
    x: XPathNode,
    full: XmlIndex,
    y: XPathNode,
) -> bool {
    ||| x == XPathNode::Element(DOC_ROOT) && y == XPathNode::Element(DOC_ROOT)
    ||| element_pair(s, names, lazy, x, full, y)
}

/// The same element of a wanted name in both.
pub open spec fn element_pair(
    s: Seq<u8>,
    names: Set<Seq<char>>,
    lazy: XmlIndex,
    x: XPathNode,
    full: XmlIndex,
    y: XPathNode,
) -> bool {
    x matches XPathNode::Element(i) && y matches XPathNode::Element(j) && twins(
        lazy,
        i as int,
        full,
        j as int,
    ) && lazy.element(i as int) && wanted_tag(s, full.doc(), j as int, names)
}

/// Two lists hold the same nodes, one by one.
pub open spec fn paired(
    s: Seq<u8>,
    names: Set<Seq<char>>,
    lazy: XmlIndex,
    few: Seq<XPathNode>,
    full: XmlIndex,
    all: Seq<XPathNode>,
) -> bool {
    &&& few.len() == all.len()
    &&& forall|k: int|
        0 <= k < few.len() ==> pair(s, names, lazy, #[trigger] few[k], full, all[k])
}

/// Two lists hold the same elements, one by one.
pub open spec fn elements_paired(
    s: Seq<u8>,
    names: Set<Seq<char>>,
    lazy: XmlIndex,
    few: Seq<XPathNode>,
    full: XmlIndex,
    all: Seq<XPathNode>,
) -> bool {
    &&& few.len() == all.len()
    &&& forall|k: int|
        0 <= k < few.len() ==> element_pair(s, names, lazy, #[trigger] few[k], full, all[k])
}

/// An element of a wanted name has an entry in the index made for a query.
proof fn lemma_entry_of_wanted(
    s: Seq<u8>,
    names: Set<Seq<char>>,
    name: Seq<char>,
    lazy: XmlIndex,
    full: XmlIndex,
    j: int,
) -> (i: int)
    requires
        beside(s, names, lazy, full),
        names.contains(name),
        0 <= j < full.tags(),
        passes(full, tag_node(j), TestV::Name(name)),
    ensures
        twins(lazy, i, full, j),
        lazy.element(i),
        wanted_tag(s, full.doc(), j, names),
{
    let i = lemma_entry_at(s, names, name, lazy, full, j);
    assert(tag_occurs(lazy.doc(), i, full.doc())) by {
        lemma_beside(s, names, lazy, full);
        reveal(beside);
        assert(lazy.tags() == lazy.tag_starts.len());
    }
    assert(same_tag(lazy.doc(), i, full.doc(), j)) by {
        reveal(beside);
        assert(full.tags() == full.tag_starts.len());
        lemma_same_place(lazy.doc(), i, full.doc(), j);
    }
    assert(wanted_tag(s, full.doc(), j, names)) by {
        reveal(beside);
        lemma_wanted(s, names, name, full, j);
    }
    i
}

/// Where an element of a wanted name stands, the index made for a query has an element.
proof fn lemma_entry_at(
    s: Seq<u8>,
    names: Set<Seq<char>>,
    name: Seq<char>,
    lazy: XmlIndex,
    full: XmlIndex,
    j: int,
) -> (i: int)
    requires
        beside(s, names, lazy, full),
        names.contains(name),
        0 <= j < full.tags(),
        passes(full, tag_node(j), TestV::Name(name)),
    ensures
        0 <= i < lazy.tags(),
        lazy.element(i),
        lazy.tag_starts@[i] == full.tag_starts@[j],
{
    let pick = PickV::Test(TestV::Name(name));
    let few = pick_tags(lazy, pick, 0, lazy.tags() as int);
    let all = pick_tags(full, pick, 0, full.tags() as int);
    assert(lazy.wf() && full.wf()) by {
        reveal(beside);
    }
    assert(places(lazy, few) == places(full, all)) by {
        reveal(beside);
        lemma_lazy_finds_elements(s, names, name, lazy, full);
    }
    assert(picks(full, pick, j));
    let w = lemma_picked_at(full, pick, j);
    assert(places(full, all)[w] == doc_pos(full, tag_node(j)));
    assert(few.len() == places(lazy, few).len());
    assert(all.len() == places(full, all).len());
    lemma_pick_at(lazy, pick, w);
    let i = few[w]->Element_0 as int;
    assert(few[w] == tag_node(i));
    assert(places(lazy, few)[w] == doc_pos(lazy, tag_node(i)));
    assert(lazy.tags() == lazy.tag_starts.len());
    assert(full.tags() == full.tag_starts.len());
    i
}

/// Where a tag stands among the tags that are picked.
proof fn lemma_picked_at(ix: XmlIndex, pick: PickV, j: int) -> (w: int)
    requires
        ix.wf(),
        0 <= j < ix.tags(),
        picks(ix, pick, j),
    ensures
        0 <= w < pick_tags(ix, pick, 0, ix.tags() as int).len(),
        pick_tags(ix, pick, 0, ix.tags() as int)[w] == tag_node(j),
{
    let all = pick_tags(ix, pick, 0, ix.tags() as int);
    assert(ix.tags() == ix.tag_starts.len());
    lemma_pick_tags(ix, pick, 0, ix.tags() as int);
    assert(all.contains(tag_node(j)));
    choose|w: int| 0 <= w < all.len() && all[w] == tag_node(j)
}

/// A tag that is picked is one to pick.
proof fn lemma_pick_at(ix: XmlIndex, pick: PickV, w: int)
    requires
        ix.wf(),
        0 <= w < pick_tags(ix, pick, 0, ix.tags() as int).len(),
    ensures
        pick_tags(ix, pick, 0, ix.tags() as int)[w] matches XPathNode::Element(i) && i < ix.tags()
            && picks(ix, pick, i as int),
{
    assert(ix.tags() == ix.tag_starts.len());
    lemma_pick_tags(ix, pick, 0, ix.tags() as int);
    assert(pick_tags(ix, pick, 0, ix.tags() as int)[w] is Element);
}

/// An element of a wanted name is wanted.
proof fn lemma_wanted(s: Seq<u8>, names: Set<Seq<char>>, name: Seq<char>, full: XmlIndex, j: int)
    requires
        full.input@ == s,
        names.contains(name),
        0 <= j < full.tags(),
        passes(full, tag_node(j), TestV::Name(name)),
    ensures
        wanted_tag(s, full.doc(), j, names),
{
    encode_utf8_decode_utf8(name);
    encode_utf8_valid_utf8(name);
    assert(full.tags() == full.tag_starts.len());
    assert(full.name_bytes(j) =~= s.subrange(
        full.tag_names@[j].0 as int,
        full.tag_names@[j].0 + full.tag_names@[j].1,
    ));
}

/// An entry of a wanted name is an element of the whole document.
proof fn lemma_twin_of_entry(
    s: Seq<u8>,
    names: Set<Seq<char>>,
    name: Seq<char>,
    lazy: XmlIndex,
    full: XmlIndex,
    i: int,
) -> (j: int)
    requires
        beside(s, names, lazy, full),
        names.contains(name),
        0 <= i < lazy.tags(),
        passes(lazy, tag_node(i), TestV::Name(name)),
    ensures
        twins(lazy, i, full, j),
        lazy.element(i),
        passes(full, tag_node(j), TestV::Name(name)),
        wanted_tag(s, full.doc(), j, names),
{
    reveal(beside);
    lemma_beside(s, names, lazy, full);
    assert(lazy.tags() == lazy.tag_starts.len());
    assert(full.tags() == full.tag_starts.len());
    assert(tag_occurs(lazy.doc(), i, full.doc()));
    let j = choose|j: int| #[trigger] same_tag(lazy.doc(), i, full.doc(), j);
    assert(lazy.name_bytes(i) == full.name_bytes(j));
    assert(full.tag_types@[j] == lazy.tag_types@[i]);
    lemma_wanted(s, names, name, full, j);
    j
}

/// Ascending lists of elements of a name that hold the same elements pair up.
proof fn lemma_pair_up(
    s: Seq<u8>,
    names: Set<Seq<char>>,
    lazy: XmlIndex,
    few: Seq<XPathNode>,
    full: XmlIndex,
    all: Seq<XPathNode>,
)
    requires
        beside(s, names, lazy, full),
        only_tags(lazy, few),
        is_ascending(few),
        only_tags(full, all),
        is_ascending(all),
        forall|k: int| 0 <= k < few.len() ==> has_twin(s, names, lazy, #[trigger] few[k], full, all),
        forall|k: int| 0 <= k < all.len() ==> is_twin(s, names, lazy, few, full, #[trigger] all[k]),
    ensures
        elements_paired(s, names, lazy, few, full, all),
{
    let c = places(lazy, few);
    let d = places(full, all);
    assert(lazy.wf() && full.wf()) by {
        reveal(beside);
    }
    lemma_places_ascend(lazy, few);
    lemma_places_ascend(full, all);
    assert forall|k: int| 0 <= k < c.len() implies d.contains(#[trigger] c[k]) by {
        assert(has_twin(s, names, lazy, few[k], full, all));
        reveal(has_twin);
        let w = choose|w: int|
            0 <= w < all.len() && element_pair(s, names, lazy, few[k], full, #[trigger] all[w]);
        lemma_pair_place(s, names, lazy, few[k], full, all[w]);
        assert(d[w] == c[k]);
    }
    assert forall|k: int| 0 <= k < d.len() implies c.contains(#[trigger] d[k]) by {
        assert(is_twin(s, names, lazy, few, full, all[k]));
        reveal(is_twin);
        let w = choose|w: int|
            0 <= w < few.len() && element_pair(s, names, lazy, #[trigger] few[w], full, all[k]);
        lemma_pair_place(s, names, lazy, few[w], full, all[k]);
        assert(c[w] == d[k]);
    }
    lemma_same_ascending(c, d);
    assert(few.len() == c.len() && all.len() == d.len());
    assert forall|k: int| 0 <= k < few.len() implies element_pair(
        s,
        names,
        lazy,
        #[trigger] few[k],
        full,
        all[k],
    ) by {
        assert(c[k] == d[k]);
        assert(has_twin(s, names, lazy, few[k], full, all));
        reveal(has_twin);
        let w = choose|w: int|
            0 <= w < all.len() && element_pair(s, names, lazy, few[k], full, #[trigger] all[w]);
        lemma_pair_place(s, names, lazy, few[k], full, all[w]);
        assert(d[w] == c[k]);
        if w < k {
            assert(d[w] < d[k]);
        } else if k < w {
            assert(d[k] < d[w]);
        }
    }
}

/// The places of ascending tags ascend.
proof fn lemma_places_ascend(ix: XmlIndex, nodes: Seq<XPathNode>)
    requires
        ix.wf(),
        only_tags(ix, nodes),
        is_ascending(nodes),
    ensures
        places(ix, nodes).len() == nodes.len(),
        forall|i: int, j: int|
            0 <= i < j < nodes.len() ==> places(ix, nodes)[i] < places(ix, nodes)[j],
{
    assert forall|i: int, j: int| 0 <= i < j < nodes.len() implies places(ix, nodes)[i] < places(
        ix,
        nodes,
    )[j] by {
        let a = nodes[i]->Element_0 as int;
        let b = nodes[j]->Element_0 as int;
        assert(nodes[i] == tag_node(a) && nodes[j] == tag_node(b));
        lemma_by_starts(ix, a, b);
    }
}

/// The same element stands at the same place in both.
proof fn lemma_pair_place(
    s: Seq<u8>,
    names: Set<Seq<char>>,
    lazy: XmlIndex,
    x: XPathNode,
    full: XmlIndex,
    y: XPathNode,
)
    requires
        element_pair(s, names, lazy, x, full, y),
    ensures
        doc_pos(lazy, x) == doc_pos(full, y),
{
    assert(lazy.tags() == lazy.tag_starts.len());
    assert(full.tags() == full.tag_starts.len());
}

/// One of the nodes of the whole document is the same element.
#[verifier::opaque]
pub open spec fn has_twin(
    s: Seq<u8>,
    names: Set<Seq<char>>,
    lazy: XmlIndex,
    x: XPathNode,
    full: XmlIndex,
    all: Seq<XPathNode>,
) -> bool {
    exists|w: int| 0 <= w < all.len() && element_pair(s, names, lazy, x, full, #[trigger] all[w])
}

/// One of the nodes of the index made for a query is the same element.
#[verifier::opaque]
pub open spec fn is_twin(
    s: Seq<u8>,
    names: Set<Seq<char>>,
    lazy: XmlIndex,
    few: Seq<XPathNode>,
    full: XmlIndex,
    y: XPathNode,
) -> bool {
    exists|w: int| 0 <= w < few.len() && element_pair(s, names, lazy, #[trigger] few[w], full, y)
}

/// A node stands right under a node in both or in neither.
proof fn lemma_same_under(
    s: Seq<u8>,
    names: Set<Seq<char>>,
    lazy: XmlIndex,
    full: XmlIndex,
    x: XPathNode,
    y: XPathNode,
    i: int,
    j: int,
)
    requires
        beside(s, names, lazy, full),
        pair(s, names, lazy, x, full, y),
        twins(lazy, i, full, j),
    ensures
        under(lazy, x, i) <==> under(full, y, j),
{
    reveal(beside);
    lemma_beside(s, names, lazy, full);
    let dl = lazy.doc();
    let df = full.doc();
    assert(lazy.tags() == lazy.tag_starts.len());
    assert(full.tags() == full.tag_starts.len());
    if x != XPathNode::Element(DOC_ROOT) {
        let p = x->Element_0 as int;
        let q = y->Element_0 as int;
        let a = lazy.parents@[i];
        let b = full.parents@[j];
        if a != u32::MAX {
            if p < a {
                assert(dl.starts[p] < dl.starts[a as int]);
            } else if a < p {
                assert(dl.starts[a as int] < dl.starts[p]);
            }
            if q < b {
                assert(df.starts[q] < df.starts[b as int]);
            } else if b < q {
                assert(df.starts[b as int] < df.starts[q]);
            }
        }
    }
}

/// A tag lies inside of a node in both or in neither.
proof fn lemma_same_scope(
    s: Seq<u8>,
    names: Set<Seq<char>>,
    lazy: XmlIndex,
    full: XmlIndex,
    x: XPathNode,
    y: XPathNode,
    i: int,
    j: int,
)
    requires
        beside(s, names, lazy, full),
        pair(s, names, lazy, x, full, y),
        twins(lazy, i, full, j),
    ensures
        spans(lazy, x, i) <==> spans(full, y, j),
{
    reveal(beside);
    lemma_beside(s, names, lazy, full);
    assert(lazy.tags() == lazy.tag_starts.len());
    assert(full.tags() == full.tag_starts.len());
    if x != XPathNode::Element(DOC_ROOT) {
        let p = x->Element_0 as int;
        let q = y->Element_0 as int;
        lemma_same_span(s, names, lazy, full, p, q);
        assert(lazy.tag_types@[p] == full.tag_types@[q]);
        lemma_by_starts(lazy, p, i);
        lemma_by_starts(full, q, j);
        if lazy.tag_types@[p] == TagType::Open {
            let a = lazy.close_of(p)->0;
            let b = full.close_of(q)->0;
            lemma_by_starts(lazy, i, a);
            lemma_by_starts(full, j, b);
        }
    }
}

/// Tags stand in the order of their numbers.
proof fn lemma_by_starts(ix: XmlIndex, a: int, b: int)
    requires
        ix.wf(),
        0 <= a < ix.tags(),
        0 <= b < ix.tags(),
    ensures
        a < b <==> ix.tag_starts@[a] < ix.tag_starts@[b],
{
    let d = ix.doc();
    if a < b {
        assert(d.starts[a] < d.starts[b]);
    } else if b < a {
        assert(d.starts[b] < d.starts[a]);
    }
}

/// A step selects the same elements in both.
proof fn lemma_same_step(
    s: Seq<u8>,
    names: Set<Seq<char>>,
    o: Oracle,
    lazy: XmlIndex,
    few: Seq<XPathNode>,
    full: XmlIndex,
    all: Seq<XPathNode>,
    name: Seq<char>,
    fused: bool,
)
    requires
        beside(s, names, lazy, full),
        paired(s, names, lazy, few, full, all),
        names.contains(name),
    ensures
        ({
            let st = child_step(TestV::Name(name));
            if fused {
                elements_paired(
                    s,
                    names,
                    lazy,
                    fused_nodes(lazy, o, few, st),
                    full,
                    fused_nodes(full, o, all, st),
                )
            } else {
                elements_paired(
                    s,
                    names,
                    lazy,
                    step_nodes(lazy, o, few, st),
                    full,
                    step_nodes(full, o, all, st),
                )
            }
        }),
{
    let test = TestV::Name(name);
    let st = child_step(test);
    let a = if fused {
        fused_nodes(lazy, o, few, st)
    } else {
        step_nodes(lazy, o, few, st)
    };
    let b = if fused {
        fused_nodes(full, o, all, st)
    } else {
        step_nodes(full, o, all, st)
    };
    reveal(beside);
    lemma_beside(s, names, lazy, full);
    assert(lazy.tags() == lazy.tag_starts.len());
    assert(full.tags() == full.tag_starts.len());
    assert(roots_or_tags(lazy, few)) by {
        assert forall|c: int| 0 <= c < few.len() implies root_or_tag(lazy, #[trigger] few[c]) by {
            assert(pair(s, names, lazy, few[c], full, all[c]));
        }
    }
    assert(roots_or_tags(full, all)) by {
        assert forall|c: int| 0 <= c < all.len() implies root_or_tag(full, #[trigger] all[c]) by {
            assert(pair(s, names, lazy, few[c], full, all[c]));
        }
    }
    if fused {
        lemma_scan_step(lazy, o, few, name);
        lemma_scan_step(full, o, all, name);
    } else {
        lemma_child_step(lazy, o, few, name);
        lemma_child_step(full, o, all, name);
    }
    assert forall|i: int, j: int| #[trigger] twins(lazy, i, full, j) implies (under_some(
        lazy,
        few,
        i,
    ) <==> under_some(full, all, j)) && (inside_some(lazy, few, i) <==> inside_some(full, all, j)) by {
        lemma_same_context(s, names, lazy, few, full, all, i, j);
    }
    assert forall|k: int| 0 <= k < a.len() implies has_twin(
        s,
        names,
        lazy,
        #[trigger] a[k],
        full,
        b,
    ) by {
        let i = a[k]->Element_0 as int;
        assert(a[k] == tag_node(i));
        assert(a.contains(tag_node(i)));
        let j = lemma_twin_of_entry(s, names, name, lazy, full, i);
        assert(twins(lazy, i, full, j));
        assert(b.contains(tag_node(j)));
        let w = choose|w: int| 0 <= w < b.len() && b[w] == tag_node(j);
        assert(element_pair(s, names, lazy, a[k], full, b[w]));
        reveal(has_twin);
    }
    assert forall|k: int| 0 <= k < b.len() implies is_twin(
        s,
        names,
        lazy,
        a,
        full,
        #[trigger] b[k],
    ) by {
        let j = b[k]->Element_0 as int;
        assert(b[k] == tag_node(j));
        assert(b.contains(tag_node(j)));
        let i = lemma_entry_of_wanted(s, names, name, lazy, full, j);
        assert(twins(lazy, i, full, j));
        assert(passes(lazy, tag_node(i), test)) by {
            assert(lazy.name_bytes(i) == full.name_bytes(j));
        }
        assert(a.contains(tag_node(i)));
        let w = choose|w: int| 0 <= w < a.len() && a[w] == tag_node(i);
        assert(element_pair(s, names, lazy, a[w], full, b[k]));
        reveal(is_twin);
    }
    lemma_pair_up(s, names, lazy, a, full, b);
}

proof fn lemma_same_context(
    s: Seq<u8>,
    names: Set<Seq<char>>,
    lazy: XmlIndex,
    few: Seq<XPathNode>,
    full: XmlIndex,
    all: Seq<XPathNode>,
    i: int,
    j: int,
)
    requires
        beside(s, names, lazy, full),
        paired(s, names, lazy, few, full, all),
        twins(lazy, i, full, j),
    ensures
        under_some(lazy, few, i) <==> under_some(full, all, j),
        inside_some(lazy, few, i) <==> inside_some(full, all, j),
{
    assert forall|c: int| 0 <= c < few.len() implies (under(lazy, #[trigger] few[c], i) <==> under(
        full,
        all[c],
        j,
    )) && (spans(lazy, few[c], i) <==> spans(full, all[c], j)) by {
        assert(pair(s, names, lazy, few[c], full, all[c]));
        lemma_same_under(s, names, lazy, full, few[c], all[c], i, j);
        lemma_same_scope(s, names, lazy, full, few[c], all[c], i, j);
    }
    if under_some(full, all, j) {
        let c = choose|c: int| 0 <= c < all.len() && under(full, #[trigger] all[c], j);
        assert(under(lazy, few[c], i));
    }
    if inside_some(full, all, j) {
        let c = choose|c: int| 0 <= c < all.len() && spans(full, #[trigger] all[c], j);
        assert(spans(lazy, few[c], i));
    }
}

/// A path of names selects the same elements in both.
proof fn lemma_same_path(
    s: Seq<u8>,
    names: Set<Seq<char>>,
    o: Oracle,
    lazy: XmlIndex,
    few: Seq<XPathNode>,
    full: XmlIndex,
    all: Seq<XPathNode>,
    steps: Seq<StepV>,
    i: int,
)
    requires
        beside(s, names, lazy, full),
        paired(s, names, lazy, few, full, all),
        0 <= i <= steps.len(),
        by_names(steps, i),
        i == steps.len() ==> elements_paired(s, names, lazy, few, full, all),
        forall|k: int|
            0 <= k < steps.len() ==> (#[trigger] steps[k].test matches TestV::Name(name)
                ==> names.contains(name)),
    ensures
        elements_paired(
            s,
            names,
            lazy,
            path_from(lazy, o, steps, i, few),
            full,
            path_from(full, o, steps, i, all),
        ),
    decreases steps.len() - i,
{
    unfold_path_from(lazy, o, steps, i, few);
    unfold_path_from(full, o, steps, i, all);
    if i < steps.len() {
        let fused = fusible(steps, i);
        let st = if fused {
            steps[i + 1]
        } else {
            steps[i]
        };
        assert(names_child(st));
        let name = st.test->Name_0;
        assert(st.preds =~= child_step(st.test).preds);
        assert(st == child_step(TestV::Name(name)));
        if fused {
            assert(steps[i + 1].test == TestV::Name(name));
        } else {
            assert(steps[i].test == TestV::Name(name));
        }
        lemma_same_step(s, names, o, lazy, few, full, all, name, fused);
        let a = if fused {
            fused_nodes(lazy, o, few, st)
        } else {
            step_nodes(lazy, o, few, st)
        };
        let b = if fused {
            fused_nodes(full, o, all, st)
        } else {
            step_nodes(full, o, all, st)
        };
        let next = if fused {
            i + 2
        } else {
            i + 1
        };
        assert(paired(s, names, lazy, a, full, b)) by {
            assert forall|k: int| 0 <= k < a.len() implies pair(
                s,
                names,
                lazy,
                #[trigger] a[k],
                full,
                b[k],
            ) by {
                assert(element_pair(s, names, lazy, a[k], full, b[k]));
            }
        }
        lemma_same_path(s, names, o, lazy, a, full, b, steps, next);
    }
}

/// The same elements, tidied, are the same elements.
proof fn lemma_same_tidied(
    s: Seq<u8>,
    names: Set<Seq<char>>,
    lazy: XmlIndex,
    few: Seq<XPathNode>,
    full: XmlIndex,
    all: Seq<XPathNode>,
)
    requires
        beside(s, names, lazy, full),
        elements_paired(s, names, lazy, few, full, all),
    ensures
        elements_paired(s, names, lazy, tidy(lazy, few), full, tidy(full, all)),
{
    reveal(beside);
    let a = tidy(lazy, few);
    let b = tidy(full, all);
    assert(lazy.tags() == lazy.tag_starts.len());
    assert(full.tags() == full.tag_starts.len());
    assert(only_tags(lazy, few)) by {
        assert forall|k: int| 0 <= k < few.len() implies (#[trigger] few[k] matches XPathNode::Element(
            i,
        ) && i < lazy.tags()) by {
            assert(element_pair(s, names, lazy, few[k], full, all[k]));
        }
    }
    assert(only_tags(full, all)) by {
        assert forall|k: int| 0 <= k < all.len() implies (#[trigger] all[k] matches XPathNode::Element(
            i,
        ) && i < full.tags()) by {
            assert(element_pair(s, names, lazy, few[k], full, all[k]));
        }
    }
    lemma_tidied_ascending(lazy, few);
    lemma_tidied_ascending(full, all);
    assert forall|k: int| 0 <= k < a.len() implies has_twin(
        s,
        names,
        lazy,
        #[trigger] a[k],
        full,
        b,
    ) by {
        let i = a[k]->Element_0 as int;
        assert(a[k] == tag_node(i));
        assert(a.contains(tag_node(i)));
        assert(few.contains(tag_node(i)));
        let v = choose|v: int| 0 <= v < few.len() && few[v] == tag_node(i);
        assert(element_pair(s, names, lazy, few[v], full, all[v]));
        let j = all[v]->Element_0 as int;
        assert(all[v] == tag_node(j));
        assert(all.contains(tag_node(j)));
        assert(b.contains(tag_node(j)));
        let w = choose|w: int| 0 <= w < b.len() && b[w] == tag_node(j);
        assert(element_pair(s, names, lazy, a[k], full, b[w]));
        reveal(has_twin);
    }
    assert forall|k: int| 0 <= k < b.len() implies is_twin(
        s,
        names,
        lazy,
        a,
        full,
        #[trigger] b[k],
    ) by {
        let j = b[k]->Element_0 as int;
        assert(b[k] == tag_node(j));
        assert(b.contains(tag_node(j)));
        assert(all.contains(tag_node(j)));
        let v = choose|v: int| 0 <= v < all.len() && all[v] == tag_node(j);
        assert(element_pair(s, names, lazy, few[v], full, all[v]));
        let i = few[v]->Element_0 as int;
        assert(few[v] == tag_node(i));
        assert(few.contains(tag_node(i)));
        assert(a.contains(tag_node(i)));
        let w = choose|w: int| 0 <= w < a.len() && a[w] == tag_node(i);
        assert(element_pair(s, names, lazy, a[w], full, b[k]));
        reveal(is_twin);
    }
    lemma_pair_up(s, names, lazy, a, full, b);
}

/// A path of names, or a union of such paths, selects the same elements in both.
proof fn lemma_same_query(
    s: Seq<u8>,
    names: Set<Seq<char>>,
    o: Oracle,
    lazy: XmlIndex,
    full: XmlIndex,
    e: ExprV,
)
    requires
        beside(s, names, lazy, full),
        is_name_path(e),
        forall|n: Seq<char>| #[trigger] needs(e).names.contains(n) ==> names.contains(n),
    ensures
        query(lazy, o, e) matches Some(few) && query(full, o, e) matches Some(all)
            && elements_paired(s, names, lazy, few, full, all),
    decreases e, 1int, 0int,
{
    unfold_query(lazy, o, e);
    unfold_query(full, o, e);
    match e {
        ExprV::Path(_, steps) => {
            let root = seq![XPathNode::Element(DOC_ROOT)];
            assert forall|k: int| 0 <= k < steps.len() implies (
            #[trigger] steps[k].test matches TestV::Name(name) ==> names.contains(name)) by {
                if let TestV::Name(name) = steps[k].test {
                    lemma_steps_need(steps, steps.len(), k);
                    assert(test_needs(steps[k].axis, steps[k].test).names.contains(name));
                    assert(step_needs(steps[k]).names.contains(name));
                    assert(steps_need(steps, steps.len()).names.contains(name));
                    assert(needs(e).names.contains(name));
                }
            }
            assert(paired(s, names, lazy, root, full, root));
            lemma_same_path(s, names, o, lazy, root, full, root, steps, 0);
        },
        ExprV::Union(parts) => {
            assert(decreases_to!(e => parts));
            assert forall|n: Seq<char>| #[trigger] exprs_need(
                parts,
                parts.len(),
            ).names.contains(n) implies names.contains(n) by {
                assert(needs(e).names.contains(n));
            }
            lemma_same_parts(s, names, o, lazy, full, parts, parts.len());
            let few = query_parts(lazy, o, parts, parts.len() as int)->0;
            let all = query_parts(full, o, parts, parts.len() as int)->0;
            lemma_same_tidied(s, names, lazy, few, full, all);
        },
        _ => {},
    }
}

proof fn lemma_same_parts(
    s: Seq<u8>,
    names: Set<Seq<char>>,
    o: Oracle,
    lazy: XmlIndex,
    full: XmlIndex,
    parts: Seq<ExprV>,
    k: nat,
)
    requires
        beside(s, names, lazy, full),
        k <= parts.len(),
        all_name_paths(parts, k),
        forall|n: Seq<char>| #[trigger]
            exprs_need(parts, parts.len()).names.contains(n) ==> names.contains(n),
    ensures
        query_parts(lazy, o, parts, k as int) matches Some(few) && query_parts(
            full,
            o,
            parts,
            k as int,
        ) matches Some(all) && elements_paired(s, names, lazy, few, full, all),
    decreases parts, 2int, k,
{
    unfold_query_parts(lazy, o, parts, k as int);
    unfold_query_parts(full, o, parts, k as int);
    if k > 0 {
        lemma_same_parts(s, names, o, lazy, full, parts, (k - 1) as nat);
        assert(decreases_to!(parts => parts[k - 1]));
        let part = parts[k - 1];
        assert forall|n: Seq<char>| #[trigger] needs(part).names.contains(n) implies names.contains(
            n,
        ) by {
            lemma_exprs_need(parts, parts.len(), k - 1);
            assert(exprs_need(parts, parts.len()).names.contains(n));
        }
        lemma_same_query(s, names, o, lazy, full, part);
        let a = query_parts(lazy, o, parts, k - 1)->0;
        let b = query_parts(full, o, parts, k - 1)->0;
        let c = query(lazy, o, part)->0;
        let d = query(full, o, part)->0;
        assert forall|m: int| 0 <= m < (a + c).len() implies element_pair(
            s,
            names,
            lazy,
            #[trigger] (a + c)[m],
            full,
            (b + d)[m],
        ) by {
            if m < a.len() {
                assert(element_pair(s, names, lazy, a[m], full, b[m]));
            } else {
                assert(element_pair(s, names, lazy, c[m - a.len()], full, d[m - a.len()]));
            }
        }
    }
}

/// A path of names, or a union of such paths, gives the same texts in an index made
/// for a query with these names as in an index of the whole document. The document
/// reads alike for both, every open tag has a close tag of the same name, no name is
/// longer than 65535 bytes, and fewer than 65536 tags are open at once.
pub proof fn lemma_lazy_texts(
    s: Seq<u8>,
    names: Set<Seq<char>>,
    o: Oracle,
    e: ExprV,
    lazy: XmlIndex,
    full: XmlIndex,
)
    requires
        beside(s, names, lazy, full),
        is_name_path(e),
        forall|n: Seq<char>| #[trigger] needs(e).names.contains(n) ==> names.contains(n),
    ensures
        query(lazy, o, e) matches Some(few) && query(full, o, e) matches Some(all) && node_texts(
            lazy,
            few,
            few.len() as int,
        ) == node_texts(full, all, all.len() as int),
{
    reveal(beside);
    lemma_same_query(s, names, o, lazy, full, e);
    let few = query(lazy, o, e)->0;
    let all = query(full, o, e)->0;
    assert(lazy.tags() == lazy.tag_starts.len());
    assert(full.tags() == full.tag_starts.len());
    assert(places(lazy, few) =~= places(full, all)) by {
        assert forall|k: int| 0 <= k < few.len() implies places(lazy, few)[k] == places(
            full,
            all,
        )[k] by {
            assert(element_pair(s, names, lazy, few[k], full, all[k]));
        }
    }
    assert forall|m: int| #![trigger all[m]] 0 <= m < all.len() implies (
    all[m] matches XPathNode::Element(j) && j < full.tags() && wanted_tag(
        s,
        full.doc(),
        j as int,
        names,
    )) by {
        assert(element_pair(s, names, lazy, few[m], full, all[m]));
    }
    assert forall|m: int| #![trigger few[m]] 0 <= m < few.len() implies (
    few[m] matches XPathNode::Element(i) && i < lazy.tags() && lazy.element(i as int)) by {
        assert(element_pair(s, names, lazy, few[m], full, all[m]));
    }
    lemma_same_node_texts(s, names, lazy, full, few, all, few.len() as int);
}

/// `//name` gives the same texts in an index made for a query with that name as in an
/// index of the whole document. See `lemma_lazy_texts` for the documents.
pub proof fn lemma_lazy_name_texts(
    s: Seq<u8>,
    names: Set<Seq<char>>,
    name: Seq<char>,
    o: Oracle,
    absolute: bool,
    lazy: XmlIndex,
    full: XmlIndex,
)
    requires
        beside(s, names, lazy, full),
        names.contains(name),
    ensures
        ({
            let e = ExprV::Path(absolute, double_slash(name));
            &&& query(lazy, o, e) matches Some(few) && query(full, o, e) matches Some(all)
                && node_texts(lazy, few, few.len() as int) == node_texts(full, all, all.len() as int)
        }),
{
    let steps = double_slash(name);
    let e = ExprV::Path(absolute, steps);
    assert(by_names(steps, 2));
    assert(by_names(steps, 0));
    assert forall|n: Seq<char>| #[trigger] needs(e).names.contains(n) implies names.contains(n) by {
        reveal_with_fuel(steps_need, 3);
        assert(needs(e) == steps_need(steps, 2));
        assert(step_needs(steps[0]).names =~= Set::empty());
        assert(step_needs(steps[1]).names =~= set![name]);
    }
    lemma_lazy_texts(s, names, o, e, lazy, full);
}

} // verus!
