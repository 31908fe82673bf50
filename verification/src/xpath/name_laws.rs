//! Queries by name: what they find in a document that has no such element, and
//! that the name index does not change what they find.

use vstd::prelude::*;
use vstd::utf8::*;
use crate::index::access::picked;
use crate::index::XmlIndex;
use crate::xpath::analyze::{
    Needs, all_go_by_name, all_name_paths, by_names, element_name, exprs_need, goes_by_name,
    holds_self, is_name_path, names_child, names_elements, needs, some_step_names, step_needs,
    steps_need, test_needs,
};
use crate::xpath::ast::{Axis, ExprV, StepV, TestV};
use crate::xpath::axes::{
    ancestor_start, axis_nodes, chain, descendant_axis, first_start, last_start, pick_nodes,
    pick_tags, pick_texts, place, row_nodes, scope_end, self_item, PickV, TextPick,
};
use crate::xpath::laws::lemma_tidy;
use crate::xpath::nodes::{
    doc_pos, lemma_sort_multiset, merge_placed, passes, passing, placed, sort_placed, unplaced,
    Placed, XPathNode, DOC_ROOT,
};
use crate::xpath::numbers::Oracle;
use crate::xpath::semantics::{
    filter_all, filtered_by, fused_grouped, fused_nodes, fused_one, fused_over, fusible, groups,
    kept_nodes, name_row, parent_entries, path_from, query, query_parts, row_within, scope,
    siblings_under, step_nodes, step_one, step_over, steps_from, tested_nodes, tidy,
};
use crate::xpath::semantics_unfold::{
    unfold_filter_all, unfold_filtered_by, unfold_fused_grouped, unfold_fused_nodes, unfold_groups,
    unfold_kept_nodes, unfold_path_from, unfold_query, unfold_query_parts, unfold_step_nodes,
    unfold_step_one, unfold_step_over, unfold_steps_from,
};

verus! {

// The name index.

/// The name tables are absent, or complete for at most 65535 distinct names.
pub open spec fn names_complete(ix: XmlIndex) -> bool {
    ||| ix.name_posting@.len() == 0
    ||| ix.names_indexed() && ix.tags() <= u32::MAX && ix.name_table@.len() <= u16::MAX
}

proof fn lemma_row_prefix(ix: XmlIndex, name: Seq<char>, row: Seq<u32>, lo: int, hi: int, n: int)
    requires
        0 <= lo <= hi <= ix.tags(),
        0 <= n <= ix.tags(),
        row.map_values(|t: u32| t as int) == picked(ix.named_element(encode_utf8(name)), n),
    ensures
        row_within(row, lo, hi) == pick_tags(
            ix,
            PickV::Test(TestV::Name(name)),
            lo,
            if hi <= n {
                hi
            } else {
                n
            },
        ),
    decreases n,
{
    let keep = ix.named_element(encode_utf8(name));
    let ints = row.map_values(|t: u32| t as int);
    assert(ix.tags() == ix.tag_starts.len());
    if n == 0 {
        assert(row.len() == ints.len());
    } else if keep(n - 1) {
        assert(ints.last() == n - 1);
        assert(row.last() == ints.last());
        assert(row.drop_last().map_values(|t: u32| t as int) =~= ints.drop_last());
        assert(ints.drop_last() =~= picked(keep, n - 1));
        lemma_row_prefix(ix, name, row.drop_last(), lo, hi, n - 1);
    } else {
        lemma_row_prefix(ix, name, row, lo, hi, n - 1);
    }
}

/// The first character of a text takes at least one byte.
proof fn lemma_encoding_not_empty(name: Seq<char>)
    requires
        name.len() > 0,
    ensures
        encode_utf8(name).len() > 0,
{
    if encode_utf8(name).len() == 0 {
        encode_utf8_decode_utf8(name);
        assert(encode_utf8(name) =~= Seq::<u8>::empty());
        encode_utf8_decode_utf8(Seq::<char>::empty());
        assert(encode_utf8(Seq::<char>::empty()) =~= Seq::<u8>::empty());
    }
}

/// Within any range of tags, the name index gives the elements of a name that a
/// scan over the tags gives.
pub proof fn lemma_name_index_scan(ix: XmlIndex, name: Seq<char>, lo: int, hi: int)
    requires
        ix.wf(),
        ix.names_indexed(),
        ix.tags() <= u32::MAX,
        ix.name_table@.len() <= u16::MAX,
        name.len() > 0,
        0 <= lo <= hi <= ix.tags(),
    ensures
        row_within(name_row(ix, name), lo, hi) == pick_tags(
            ix,
            PickV::Test(TestV::Name(name)),
            lo,
            hi,
        ),
{
    lemma_encoding_not_empty(name);
    ix.lemma_tags_by_name(encode_utf8(name));
    lemma_row_prefix(ix, name, name_row(ix, name), lo, hi, ix.tags() as int);
}

// Names that no element has.

/// No element has this name.
pub open spec fn is_absent(ix: XmlIndex, name: Seq<char>) -> bool {
    forall|i: int|
        0 <= i < ix.tags() && #[trigger] ix.element(i) ==> ix.name_bytes(i) != encode_utf8(name)
}

/// None of the nodes is a namespace node.
pub open spec fn no_namespaces(nodes: Seq<XPathNode>) -> bool {
    forall|i: int| 0 <= i < nodes.len() ==> !(#[trigger] nodes[i] is Namespace)
}

/// Sorting placed nodes adds none.
proof fn lemma_sorted_from(items: Seq<Placed>)
    requires
        no_namespaces(unplaced(items)),
    ensures
        no_namespaces(unplaced(sort_placed(items))),
{
    broadcast use vstd::seq_lib::group_to_multiset_ensures;

    lemma_sort_multiset(items);
    let sorted = sort_placed(items);
    assert forall|i: int| 0 <= i < sorted.len() implies !(#[trigger] unplaced(sorted)[i] is Namespace) by {
        assert(sorted.to_multiset().count(sorted[i]) > 0);
        assert(items.contains(sorted[i]));
        let j = choose|j: int| 0 <= j < items.len() && items[j] == sorted[i];
        assert(!(unplaced(items)[j] is Namespace));
    }
}

proof fn lemma_merged_from(a: Seq<Placed>, b: Seq<Placed>)
    requires
        no_namespaces(unplaced(a)),
        no_namespaces(unplaced(b)),
    ensures
        no_namespaces(unplaced(merge_placed(a, b))),
    decreases a.len() + b.len(),
{
    let all = merge_placed(a, b);
    if a.len() > 0 && b.len() > 0 {
        if a[0].0 <= b[0].0 {
            assert forall|i: int| 0 <= i < a.drop_first().len() implies !(#[trigger] unplaced(
                a.drop_first(),
            )[i] is Namespace) by {
                assert(unplaced(a)[i + 1] == unplaced(a.drop_first())[i]);
            }
            lemma_merged_from(a.drop_first(), b);
            let rest = merge_placed(a.drop_first(), b);
            assert forall|i: int| 0 <= i < all.len() implies !(#[trigger] unplaced(all)[i] is Namespace) by {
                if i == 0 {
                    assert(unplaced(a)[0] == unplaced(all)[0]);
                } else {
                    assert(unplaced(rest)[i - 1] == unplaced(all)[i]);
                }
            }
        } else {
            assert forall|i: int| 0 <= i < b.drop_first().len() implies !(#[trigger] unplaced(
                b.drop_first(),
            )[i] is Namespace) by {
                assert(unplaced(b)[i + 1] == unplaced(b.drop_first())[i]);
            }
            lemma_merged_from(a, b.drop_first());
            let rest = merge_placed(a, b.drop_first());
            assert forall|i: int| 0 <= i < all.len() implies !(#[trigger] unplaced(all)[i] is Namespace) by {
                if i == 0 {
                    assert(unplaced(b)[0] == unplaced(all)[0]);
                } else {
                    assert(unplaced(rest)[i - 1] == unplaced(all)[i]);
                }
            }
        }
    }
}

proof fn lemma_placed_from(ix: XmlIndex, nodes: Seq<XPathNode>)
    ensures
        unplaced(placed(ix, nodes)) == nodes,
{
    assert(unplaced(placed(ix, nodes)) =~= nodes);
}

proof fn lemma_picked_tags(ix: XmlIndex, pick: PickV, lo: int, hi: int)
    ensures
        no_namespaces(pick_tags(ix, pick, lo, hi)),
    decreases hi - lo,
{
    if hi > lo {
        lemma_picked_tags(ix, pick, lo, hi - 1);
    }
}

proof fn lemma_picked_texts(ix: XmlIndex, pick: TextPick, k: int)
    ensures
        no_namespaces(pick_texts(ix, pick, k)),
    decreases k,
{
    if k > 0 {
        lemma_picked_texts(ix, pick, k - 1);
    }
}

proof fn lemma_chain_nodes(ix: XmlIndex, tag: u32)
    ensures
        no_namespaces(chain(ix, tag)),
    decreases tag,
{
    if tag != u32::MAX && tag < ix.tags() {
        let up = ix.parents@[tag as int];
        if up < tag {
            lemma_chain_nodes(ix, up);
        }
    }
}

proof fn lemma_picked_nodes(ix: XmlIndex, tags: PickV, texts: TextPick, inside: bool)
    ensures
        no_namespaces(pick_nodes(ix, tags, texts, inside)),
        no_namespaces(pick_nodes(ix, tags, texts, inside).reverse()),
{
    let n = ix.tags() as int;
    let m = ix.text_ranges@.len() as int;
    lemma_picked_tags(ix, tags, 0, n);
    lemma_picked_texts(ix, texts, m);
    let all = pick_tags(ix, tags, 0, n) + (if inside {
        pick_texts(ix, texts, m)
    } else {
        Seq::empty()
    });
    lemma_placed_from(ix, all);
    lemma_sorted_from(placed(ix, all));
}

proof fn lemma_descendant_nodes(ix: XmlIndex, node: XPathNode, with_self: bool)
    requires
        with_self ==> !(node is Namespace),
    ensures
        no_namespaces(descendant_axis(ix, node, with_self)),
{
    if let XPathNode::Element(i) = node {
        let n = ix.text_ranges@.len() as int;
        let (own, tags, texts) = if i == DOC_ROOT {
            (
                self_item(with_self, 0, node),
                pick_tags(ix, PickV::Any, 0, ix.tags() as int),
                pick_texts(ix, TextPick::Inside, n),
            )
        } else {
            let end = scope_end(ix, i as int);
            (
                self_item(with_self, doc_pos(ix, node), node),
                pick_tags(ix, PickV::Any, i + 1, end),
                pick_texts(ix, TextPick::Within(i, end as usize), n),
            )
        };
        if i == DOC_ROOT {
            lemma_picked_tags(ix, PickV::Any, 0, ix.tags() as int);
            lemma_picked_texts(ix, TextPick::Inside, n);
        } else {
            let end = scope_end(ix, i as int);
            lemma_picked_tags(ix, PickV::Any, i + 1, end);
            lemma_picked_texts(ix, TextPick::Within(i, end as usize), n);
        }
        let all = own + placed(ix, tags) + placed(ix, texts);
        assert(no_namespaces(unplaced(all))) by {
            lemma_placed_from(ix, tags);
            lemma_placed_from(ix, texts);
            assert(unplaced(all) =~= unplaced(own) + unplaced(placed(ix, tags)) + unplaced(
                placed(ix, texts),
            ));
        }
        lemma_sorted_from(all);
    }
}

/// Only the namespace axis leads to namespace nodes, unless the context node is
/// one.
pub proof fn lemma_axis_nodes(ix: XmlIndex, node: XPathNode, axis: Axis, test: TestV)
    requires
        axis != Axis::Namespace,
        holds_self(axis) ==> !(node is Namespace),
    ensures
        no_namespaces(axis_nodes(ix, node, axis, test)),
{
    let n = ix.tags() as int;
    let m = ix.text_ranges@.len() as int;
    match axis {
        Axis::Child => {
            if let XPathNode::Element(p) = node {
                if p == DOC_ROOT {
                    lemma_picked_tags(ix, PickV::RootLevel, 0, n);
                } else if ix.tabled() {
                    let texts = row_nodes(ix.text_row(p as int), true);
                    let tags = row_nodes(ix.child_row(p as int), false);
                    lemma_placed_from(ix, texts);
                    lemma_placed_from(ix, tags);
                    lemma_merged_from(placed(ix, texts), placed(ix, tags));
                } else {
                    let entry = (p as int % 0x1_0000_0000) as u32;
                    lemma_picked_tags(ix, PickV::Under(entry), 0, n);
                    lemma_picked_texts(ix, TextPick::Under(entry), m);
                    let all = pick_tags(ix, PickV::Under(entry), 0, n) + pick_texts(
                        ix,
                        TextPick::Under(entry),
                        m,
                    );
                    lemma_placed_from(ix, all);
                    lemma_sorted_from(placed(ix, all));
                }
            }
        },
        Axis::Descendant => {
            lemma_descendant_nodes(ix, node, false);
        },
        Axis::DescendantOrSelf => {
            lemma_descendant_nodes(ix, node, true);
        },
        Axis::Ancestor | Axis::AncestorOrSelf => {
            lemma_chain_nodes(ix, ancestor_start(ix, node));
        },
        Axis::FollowingSibling => {
            if let Some((parent, at)) = place(ix, node) {
                lemma_picked_nodes(
                    ix,
                    PickV::UnderAfter(parent, at),
                    TextPick::UnderAfter(parent, at),
                    parent != u32::MAX,
                );
            }
        },
        Axis::PrecedingSibling => {
            if let Some((parent, at)) = place(ix, node) {
                lemma_picked_nodes(
                    ix,
                    PickV::UnderBefore(parent, at),
                    TextPick::UnderBefore(parent, at),
                    parent != u32::MAX,
                );
            }
        },
        Axis::Following => {
            if let Some(at) = last_start(ix, node) {
                lemma_picked_nodes(ix, PickV::After(at), TextPick::After(at), true);
            }
        },
        Axis::Preceding => {
            if let Some((parent, at)) = first_start(ix, node) {
                lemma_picked_nodes(ix, PickV::Apart(parent, at), TextPick::Before(at), true);
            }
        },
        _ => {},
    }
}

proof fn lemma_kept(ix: XmlIndex, o: Oracle, pred: ExprV, nodes: Seq<XPathNode>, k: int)
    requires
        0 <= k <= nodes.len(),
    ensures
        no_namespaces(nodes) ==> no_namespaces(kept_nodes(ix, o, pred, nodes, k)),
        kept_nodes(ix, o, pred, nodes, k).len() <= k,
    decreases k,
{
    unfold_kept_nodes(ix, o, pred, nodes, k);
    if k > 0 {
        lemma_kept(ix, o, pred, nodes, k - 1);
    }
}

proof fn lemma_filtered(ix: XmlIndex, o: Oracle, pred: ExprV, nodes: Seq<XPathNode>)
    ensures
        no_namespaces(nodes) ==> no_namespaces(filtered_by(ix, o, pred, nodes)),
        nodes.len() == 0 ==> filtered_by(ix, o, pred, nodes).len() == 0,
{
    unfold_filtered_by(ix, o, pred, nodes);
    lemma_kept(ix, o, pred, nodes, nodes.len() as int);
}

/// Predicates add no nodes.
proof fn lemma_filter_all(ix: XmlIndex, o: Oracle, preds: Seq<ExprV>, k: int, nodes: Seq<XPathNode>)
    ensures
        no_namespaces(nodes) ==> no_namespaces(filter_all(ix, o, preds, k, nodes)),
        nodes.len() == 0 ==> filter_all(ix, o, preds, k, nodes).len() == 0,
    decreases k,
{
    unfold_filter_all(ix, o, preds, k, nodes);
    if 0 < k <= preds.len() {
        lemma_filter_all(ix, o, preds, k - 1, nodes);
        lemma_filtered(ix, o, preds[k - 1], filter_all(ix, o, preds, k - 1, nodes));
    }
}

proof fn lemma_tidied(ix: XmlIndex, nodes: Seq<XPathNode>)
    ensures
        no_namespaces(nodes) ==> no_namespaces(tidy(ix, nodes)),
        nodes.len() == 0 ==> tidy(ix, nodes).len() == 0,
{
    lemma_tidy(ix, nodes);
    let out = tidy(ix, nodes);
    if nodes.len() == 0 && out.len() > 0 {
        assert(nodes.contains(out[0]));
    }
    assert forall|i: int| no_namespaces(nodes) && 0 <= i < out.len() implies !(#[trigger] out[i] is Namespace) by {
        assert(nodes.contains(out[i]));
        let j = choose|j: int| 0 <= j < nodes.len() && nodes[j] == out[i];
        assert(!(nodes[j] is Namespace));
    }
}

proof fn lemma_passing(ix: XmlIndex, nodes: Seq<XPathNode>, test: TestV, k: int)
    requires
        0 <= k <= nodes.len(),
    ensures
        no_namespaces(nodes) ==> no_namespaces(passing(ix, nodes, test, k)),
        (forall|i: int| 0 <= i < nodes.len() ==> !passes(ix, #[trigger] nodes[i], test))
            ==> passing(ix, nodes, test, k).len() == 0,
    decreases k,
{
    if k > 0 {
        lemma_passing(ix, nodes, test, k - 1);
    }
}

/// Only elements pass a test for a name that no element has; so none does.
proof fn lemma_absent_fails(ix: XmlIndex, node: XPathNode, test: TestV)
    requires
        element_name(test) matches Some(name) && is_absent(ix, name),
        !(node is Namespace),
    ensures
        !passes(ix, node, test),
{
    let name = element_name(test)->0;
    if let XPathNode::Element(i) = node {
        if i < ix.tags() {
            assert(ix.element(i as int) ==> ix.name_bytes(i as int) != encode_utf8(name));
        }
    }
}

proof fn lemma_step_one(ix: XmlIndex, o: Oracle, node: XPathNode, st: StepV)
    ensures
        st.axis != Axis::Namespace && !(node is Namespace) ==> no_namespaces(
            step_one(ix, o, node, st),
        ),
        names_elements(st, node is Namespace) && (element_name(st.test) matches Some(name) && is_absent(
            ix,
            name,
        )) ==> step_one(ix, o, node, st).len() == 0,
{
    unfold_step_one(ix, o, node, st);
    let all = axis_nodes(ix, node, st.axis, st.test);
    let tested = tested_nodes(ix, node, st);
    lemma_filter_all(ix, o, st.preds, st.preds.len() as int, tested);
    lemma_passing(ix, all, st.test, all.len() as int);
    if st.axis != Axis::Namespace && (!(node is Namespace) || !holds_self(st.axis)) {
        lemma_axis_nodes(ix, node, st.axis, st.test);
        if let Some(name) = element_name(st.test) {
            if is_absent(ix, name) {
                assert forall|i: int| 0 <= i < all.len() implies !passes(
                    ix,
                    #[trigger] all[i],
                    st.test,
                ) by {
                    lemma_absent_fails(ix, all[i], st.test);
                }
            }
        }
    }
}

proof fn lemma_step_over(ix: XmlIndex, o: Oracle, ctx: Seq<XPathNode>, st: StepV, k: int, ns: bool)
    requires
        0 <= k <= ctx.len(),
        !ns ==> no_namespaces(ctx),
    ensures
        st.axis != Axis::Namespace && !ns ==> no_namespaces(step_over(ix, o, ctx, st, k)),
        k == 0 ==> step_over(ix, o, ctx, st, k).len() == 0,
        names_elements(st, ns) && (element_name(st.test) matches Some(name) && is_absent(ix, name))
            ==> step_over(ix, o, ctx, st, k).len() == 0,
    decreases k,
{
    unfold_step_over(ix, o, ctx, st, k);
    if k > 0 {
        lemma_step_over(ix, o, ctx, st, k - 1, ns);
        lemma_step_one(ix, o, ctx[k - 1], st);
    }
}

/// A step from no context nodes selects nothing, and so does a step by a name that
/// no element has.
proof fn lemma_step_nodes(ix: XmlIndex, o: Oracle, ctx: Seq<XPathNode>, st: StepV, ns: bool)
    requires
        !ns ==> no_namespaces(ctx),
    ensures
        st.axis != Axis::Namespace && !ns ==> no_namespaces(step_nodes(ix, o, ctx, st)),
        ctx.len() == 0 ==> step_nodes(ix, o, ctx, st).len() == 0,
        names_elements(st, ns) && (element_name(st.test) matches Some(name) && is_absent(ix, name))
            ==> step_nodes(ix, o, ctx, st).len() == 0,
{
    unfold_step_nodes(ix, o, ctx, st);
    lemma_step_over(ix, o, ctx, st, ctx.len() as int, ns);
    lemma_tidied(ix, step_over(ix, o, ctx, st, ctx.len() as int));
}

proof fn lemma_absent_tags(ix: XmlIndex, test: TestV, lo: int, hi: int)
    requires
        element_name(test) matches Some(name) && is_absent(ix, name),
        0 <= lo,
    ensures
        pick_tags(ix, PickV::Test(test), lo, hi).len() == 0,
    decreases hi - lo,
{
    if hi > lo {
        lemma_absent_tags(ix, test, lo, hi - 1);
        lemma_absent_fails(ix, XPathNode::Element((hi - 1) as usize), test);
    }
}

proof fn lemma_row_within_nodes(row: Seq<u32>, lo: int, hi: int)
    ensures
        no_namespaces(row_within(row, lo, hi)),
    decreases row.len(),
{
    if row.len() > 0 {
        lemma_row_within_nodes(row.drop_last(), lo, hi);
    }
}

proof fn lemma_picks_none(ix: XmlIndex, name: Seq<u8>, k: int)
    requires
        0 <= k <= ix.tags(),
        forall|i: int|
            0 <= i < ix.tags() && #[trigger] ix.element(i) ==> ix.name_bytes(i) != name,
    ensures
        picked(ix.named_element(name), k).len() == 0,
    decreases k,
{
    if k > 0 {
        lemma_picks_none(ix, name, k - 1);
        assert(ix.element(k - 1) ==> ix.name_bytes(k - 1) != name);
    }
}

proof fn lemma_fused_one(ix: XmlIndex, node: XPathNode, test: TestV)
    requires
        ix.wf(),
        names_complete(ix),
    ensures
        no_namespaces(fused_one(ix, node, test)),
        (element_name(test) matches Some(name) && name.len() > 0 && is_absent(ix, name)) ==> fused_one(
            ix,
            node,
            test,
        ).len() == 0,
{
    if let Some((lo, first, end)) = scope(ix, node) {
        let n = ix.text_ranges@.len() as int;
        let pick = TextPick::Within(first as usize, end as usize);
        lemma_picked_tags(ix, PickV::Test(test), lo, end);
        lemma_picked_tags(ix, PickV::Any, lo, end);
        lemma_picked_texts(ix, pick, n);
        let both = pick_tags(ix, PickV::Any, lo, end) + pick_texts(ix, pick, n);
        lemma_placed_from(ix, both);
        lemma_sorted_from(placed(ix, both));
        if element_name(test) matches Some(name) && is_absent(ix, name) {
            lemma_absent_tags(ix, test, lo, end);
        }
        if let TestV::Name(name) = test {
            let row = name_row(ix, name);
            lemma_row_within_nodes(row, lo, end);
            if name.len() > 0 && is_absent(ix, name) {
                if ix.name_posting@.len() > 0 {
                    lemma_encoding_not_empty(name);
                    ix.lemma_tags_by_name(encode_utf8(name));
                    lemma_picks_none(ix, encode_utf8(name), ix.tags() as int);
                    assert(row.len() == row.map_values(|t: u32| t as int).len());
                }
            }
        }
    }
}

proof fn lemma_fused_over(ix: XmlIndex, ctx: Seq<XPathNode>, test: TestV, k: int)
    requires
        ix.wf(),
        names_complete(ix),
        0 <= k <= ctx.len(),
    ensures
        no_namespaces(fused_over(ix, ctx, test, k)),
        k == 0 ==> fused_over(ix, ctx, test, k).len() == 0,
        (element_name(test) matches Some(name) && name.len() > 0 && is_absent(ix, name)) ==> fused_over(
            ix,
            ctx,
            test,
            k,
        ).len() == 0,
    decreases k,
{
    if k > 0 {
        lemma_fused_over(ix, ctx, test, k - 1);
        lemma_fused_one(ix, ctx[k - 1], test);
    }
}

proof fn lemma_siblings(ix: XmlIndex, nodes: Seq<XPathNode>, parent: u32, k: int)
    requires
        0 <= k <= nodes.len(),
        no_namespaces(nodes),
    ensures
        no_namespaces(siblings_under(ix, nodes, parent, k)),
    decreases k,
{
    if k > 0 {
        lemma_siblings(ix, nodes, parent, k - 1);
    }
}

proof fn lemma_groups(
    ix: XmlIndex,
    o: Oracle,
    preds: Seq<ExprV>,
    nodes: Seq<XPathNode>,
    parents: Seq<u32>,
    k: int,
)
    requires
        no_namespaces(nodes),
    ensures
        no_namespaces(groups(ix, o, preds, nodes, parents, k)),
        k == 0 ==> groups(ix, o, preds, nodes, parents, k).len() == 0,
    decreases k,
{
    unfold_groups(ix, o, preds, nodes, parents, k);
    if k > 0 {
        lemma_groups(ix, o, preds, nodes, parents, k - 1);
        lemma_siblings(ix, nodes, parents[k - 1], nodes.len() as int);
        lemma_filter_all(
            ix,
            o,
            preds,
            preds.len() as int,
            siblings_under(ix, nodes, parents[k - 1], nodes.len() as int),
        );
    }
}

proof fn lemma_fused_grouped(ix: XmlIndex, o: Oracle, ctx: Seq<XPathNode>, st: StepV, k: int)
    requires
        ix.wf(),
        names_complete(ix),
        0 <= k <= ctx.len(),
    ensures
        no_namespaces(fused_grouped(ix, o, ctx, st, k)),
        k == 0 ==> fused_grouped(ix, o, ctx, st, k).len() == 0,
        (element_name(st.test) matches Some(name) && name.len() > 0 && is_absent(ix, name))
            ==> fused_grouped(ix, o, ctx, st, k).len() == 0,
    decreases k,
{
    unfold_fused_grouped(ix, o, ctx, st, k);
    if k > 0 {
        lemma_fused_grouped(ix, o, ctx, st, k - 1);
        lemma_fused_one(ix, ctx[k - 1], st.test);
        let matched = fused_one(ix, ctx[k - 1], st.test);
        let parents = parent_entries(ix, matched, matched.len() as int);
        lemma_groups(ix, o, st.preds, matched, parents, parents.len() as int);
    }
}

proof fn lemma_fused_nodes(ix: XmlIndex, o: Oracle, ctx: Seq<XPathNode>, st: StepV)
    requires
        ix.wf(),
        names_complete(ix),
    ensures
        no_namespaces(fused_nodes(ix, o, ctx, st)),
        ctx.len() == 0 ==> fused_nodes(ix, o, ctx, st).len() == 0,
        (element_name(st.test) matches Some(name) && name.len() > 0 && is_absent(ix, name))
            ==> fused_nodes(ix, o, ctx, st).len() == 0,
{
    unfold_fused_nodes(ix, o, ctx, st);
    lemma_fused_over(ix, ctx, st.test, ctx.len() as int);
    lemma_tidied(ix, fused_over(ix, ctx, st.test, ctx.len() as int));
    lemma_fused_grouped(ix, o, ctx, st, ctx.len() as int);
    lemma_tidied(ix, fused_grouped(ix, o, ctx, st, ctx.len() as int));
}

/// Every element name in these steps is the name of no element.
pub open spec fn steps_absent(ix: XmlIndex, steps: Seq<StepV>) -> bool {
    forall|i: int|
        0 <= i < steps.len() ==> (element_name(#[trigger] steps[i].test) matches Some(name)
            ==> name.len() > 0 && is_absent(ix, name))
}

proof fn lemma_path(
    ix: XmlIndex,
    o: Oracle,
    steps: Seq<StepV>,
    i: int,
    ctx: Seq<XPathNode>,
    ns: bool,
)
    requires
        ix.wf(),
        names_complete(ix),
        steps_absent(ix, steps),
        0 <= i,
        !ns ==> no_namespaces(ctx),
        ctx.len() == 0 || some_step_names(steps, i, ns),
    ensures
        path_from(ix, o, steps, i, ctx).len() == 0,
    decreases steps.len() - i,
{
    unfold_path_from(ix, o, steps, i, ctx);
    if i < steps.len() {
        let st = steps[i];
        if fusible(steps, i) {
            let child = steps[i + 1];
            let next = fused_nodes(ix, o, ctx, child);
            lemma_fused_nodes(ix, o, ctx, child);
            assert(element_name(child.test) matches Some(name) ==> name.len() > 0 && is_absent(ix, name));
            if next.len() > 0 {
                assert(some_step_names(steps, i + 1, ns));
                lemma_fewer_namespaces(steps, i + 2, ns);
            }
            lemma_path(ix, o, steps, i + 2, next, false);
        } else {
            let next = step_nodes(ix, o, ctx, st);
            lemma_step_nodes(ix, o, ctx, st, ns);
            assert(element_name(st.test) matches Some(name) ==> name.len() > 0 && is_absent(ix, name));
            lemma_path(ix, o, steps, i + 1, next, ns || st.axis == Axis::Namespace);
        }
    }
}

/// With no namespace nodes in the context, more steps count as selecting elements
/// by name.
proof fn lemma_fewer_namespaces(steps: Seq<StepV>, i: int, ns: bool)
    requires
        some_step_names(steps, i, ns),
    ensures
        some_step_names(steps, i, false),
    decreases steps.len() - i,
{
    if !names_elements(steps[i], ns) {
        if steps[i].axis != Axis::Namespace {
            lemma_fewer_namespaces(steps, i + 1, ns);
        }
    }
}

proof fn lemma_steps(
    ix: XmlIndex,
    o: Oracle,
    steps: Seq<StepV>,
    i: int,
    ctx: Seq<XPathNode>,
    ns: bool,
)
    requires
        steps_absent(ix, steps),
        0 <= i,
        !ns ==> no_namespaces(ctx),
        ctx.len() == 0 || some_step_names(steps, i, ns),
    ensures
        steps_from(ix, o, steps, i, ctx).len() == 0,
    decreases steps.len() - i,
{
    unfold_steps_from(ix, o, steps, i, ctx);
    if i < steps.len() {
        let st = steps[i];
        let next = step_nodes(ix, o, ctx, st);
        lemma_step_nodes(ix, o, ctx, st, ns);
        assert(element_name(st.test) matches Some(name) ==> name.len() > 0 && is_absent(ix, name));
        lemma_steps(ix, o, steps, i + 1, next, ns || st.axis == Axis::Namespace);
    }
}

pub proof fn lemma_steps_need(steps: Seq<StepV>, k: nat, i: int)
    requires
        0 <= i < k <= steps.len(),
    ensures
        forall|n: Seq<char>|
            #![trigger steps_need(steps, k).names.contains(n)]
            step_needs(steps[i]).names.contains(n) ==> steps_need(steps, k).names.contains(n),
    decreases k,
{
    if i < k - 1 {
        lemma_steps_need(steps, (k - 1) as nat, i);
        assert forall|n: Seq<char>|
            #![trigger steps_need(steps, k).names.contains(n)]
            step_needs(steps[i]).names.contains(n) implies steps_need(steps, k).names.contains(
            n,
        ) by {
            assert(steps_need(steps, (k - 1) as nat).names.contains(n));
        }
    }
}

/// All of these names are nonempty and names of no element.
pub open spec fn all_absent(ix: XmlIndex, names: Set<Seq<char>>) -> bool {
    forall|n: Seq<char>| #[trigger] names.contains(n) ==> n.len() > 0 && is_absent(ix, n)
}

proof fn lemma_steps_absent(ix: XmlIndex, steps: Seq<StepV>)
    requires
        all_absent(ix, steps_need(steps, steps.len()).names),
    ensures
        steps_absent(ix, steps),
{
    assert forall|i: int| 0 <= i < steps.len() implies (element_name(
        #[trigger] steps[i].test,
    ) matches Some(name) ==> name.len() > 0 && is_absent(ix, name)) by {
        lemma_steps_need(steps, steps.len(), i);
        if let Some(name) = element_name(steps[i].test) {
            assert(test_needs(steps[i].axis, steps[i].test).names.contains(name));
            assert(step_needs(steps[i]).names.contains(name));
            assert(steps_need(steps, steps.len()).names.contains(name));
        }
    }
}

pub proof fn lemma_exprs_need(es: Seq<ExprV>, k: nat, i: int)
    requires
        0 <= i < k <= es.len(),
    ensures
        forall|n: Seq<char>|
            #![trigger exprs_need(es, k).names.contains(n)]
            needs(es[i]).names.contains(n) ==> exprs_need(es, k).names.contains(n),
    decreases k,
{
    if i < k - 1 {
        lemma_exprs_need(es, (k - 1) as nat, i);
        assert forall|n: Seq<char>|
            #![trigger exprs_need(es, k).names.contains(n)]
            needs(es[i]).names.contains(n) implies exprs_need(es, k).names.contains(n) by {
            assert(exprs_need(es, (k - 1) as nat).names.contains(n));
        }
    }
}

/// A query that goes by the names of elements selects nothing when no element has
/// one of the names that it needs.
pub proof fn lemma_absent_names_select_nothing(ix: XmlIndex, o: Oracle, e: ExprV)
    requires
        ix.wf(),
        names_complete(ix),
        goes_by_name(e),
        all_absent(ix, needs(e).names),
    ensures
        query(ix, o, e) matches Some(found) ==> found.len() == 0,
    decreases e, 1int, 0int,
{
    unfold_query(ix, o, e);
    match e {
        ExprV::Path(_, steps) => {
            lemma_steps_absent(ix, steps);
            lemma_path(ix, o, steps, 0, seq![XPathNode::Element(DOC_ROOT)], false);
        },
        ExprV::Union(parts) => {
            assert(decreases_to!(e => parts));
            lemma_absent_parts(ix, o, parts, parts.len());
            if let Some(all) = query_parts(ix, o, parts, parts.len() as int) {
                lemma_tidied(ix, all);
            }
        },
        ExprV::FilterPath(inner, steps) => {
            assert forall|n: Seq<char>| #[trigger] needs(*inner).names.contains(n) implies n.len()
                > 0 && is_absent(ix, n) by {
                assert(needs(e).names.contains(n));
            }
            assert forall|n: Seq<char>| #[trigger] steps_need(
                steps,
                steps.len(),
            ).names.contains(n) implies n.len() > 0 && is_absent(ix, n) by {
                assert(needs(e).names.contains(n));
            }
            lemma_steps_absent(ix, steps);
            if goes_by_name(*inner) {
                lemma_absent_names_select_nothing(ix, o, *inner);
            }
            if let Some(ctx) = query(ix, o, *inner) {
                lemma_steps(ix, o, steps, 0, ctx, true);
            }
        },
        ExprV::GlobalFilter(inner, preds) => {
            assert forall|n: Seq<char>| #[trigger] needs(*inner).names.contains(n) implies n.len()
                > 0 && is_absent(ix, n) by {
                assert(needs(e).names.contains(n));
            }
            lemma_absent_names_select_nothing(ix, o, *inner);
            if let Some(nodes) = query(ix, o, *inner) {
                lemma_filter_all(ix, o, preds, preds.len() as int, nodes);
            }
        },
        _ => {},
    }
}

proof fn lemma_absent_parts(ix: XmlIndex, o: Oracle, parts: Seq<ExprV>, k: nat)
    requires
        ix.wf(),
        names_complete(ix),
        k <= parts.len(),
        all_go_by_name(parts, k),
        all_absent(ix, exprs_need(parts, parts.len()).names),
    ensures
        query_parts(ix, o, parts, k as int) matches Some(all) ==> all.len() == 0,
    decreases parts, 2int, k,
{
    unfold_query_parts(ix, o, parts, k as int);
    if k > 0 {
        lemma_absent_parts(ix, o, parts, (k - 1) as nat);
        let part = parts[k - 1];
        assert(decreases_to!(parts => parts[k - 1]));
        assert forall|n: Seq<char>| #[trigger] needs(part).names.contains(n) implies n.len() > 0
            && is_absent(ix, n) by {
            lemma_exprs_need(parts, parts.len(), k - 1);
            assert(exprs_need(parts, parts.len()).names.contains(n));
        }
        lemma_absent_names_select_nothing(ix, o, part);
    }
}

/// A path of names needs its names and no others: a document is searched, and an index
/// made, for them alone.
pub proof fn lemma_name_paths_are_selective(e: ExprV)
    requires
        is_name_path(e),
    ensures
        !needs(e).all,
        e is Path ==> goes_by_name(e),
        e is Path ==> forall|n: Seq<char>| #[trigger]
            needs(e).names.contains(n) <==> exists|k: int|
                0 <= k < e->Path_1.len() && #[trigger] e->Path_1[k].test == TestV::Name(n),
    decreases e, 0int,
{
    match e {
        ExprV::Path(_, steps) => {
            lemma_by_names(steps, 0);
            lemma_named_steps(steps, steps.len());
            let first = if fusible(steps, 0) {
                1int
            } else {
                0int
            };
            assert(names_child(steps[first]));
            assert(names_elements(steps[first], false));
            if first == 1 {
                assert(some_step_names(steps, 1, false));
            }
        },
        ExprV::Union(parts) => {
            assert(decreases_to!(e => parts));
            lemma_name_parts_are_selective(parts, parts.len());
        },
        _ => {},
    }
}

proof fn lemma_name_parts_are_selective(parts: Seq<ExprV>, k: nat)
    requires
        k <= parts.len(),
        all_name_paths(parts, k),
    ensures
        !exprs_need(parts, k).all,
    decreases parts, k,
{
    if k > 0 {
        lemma_name_parts_are_selective(parts, (k - 1) as nat);
        assert(decreases_to!(parts => parts[k - 1]));
        lemma_name_paths_are_selective(parts[k - 1]);
    }
}

/// A step of a path of names.
spec fn is_name_step(st: StepV) -> bool {
    names_child(st) || (st.axis == Axis::DescendantOrSelf && st.test is Node && st.preds.len() == 0)
}

proof fn lemma_by_names(steps: Seq<StepV>, i: int)
    requires
        by_names(steps, i),
        0 <= i,
    ensures
        forall|j: int| i <= j < steps.len() ==> is_name_step(#[trigger] steps[j]),
    decreases steps.len() - i,
{
    if i < steps.len() {
        if fusible(steps, i) {
            lemma_by_names(steps, i + 2);
        } else {
            lemma_by_names(steps, i + 1);
        }
    }
}

proof fn lemma_named_steps(steps: Seq<StepV>, k: nat)
    requires
        k <= steps.len(),
        forall|j: int| 0 <= j < steps.len() ==> is_name_step(#[trigger] steps[j]),
    ensures
        !steps_need(steps, k).all,
        forall|n: Seq<char>| #[trigger]
            steps_need(steps, k).names.contains(n) <==> exists|j: int|
                0 <= j < k && #[trigger] steps[j].test == TestV::Name(n),
    decreases k,
{
    if k > 0 {
        lemma_named_steps(steps, (k - 1) as nat);
        let st = steps[k - 1];
        assert(is_name_step(st));
        assert(exprs_need(st.preds, 0) == Needs::nothing());
        let own = step_needs(st);
        let before = steps_need(steps, (k - 1) as nat);
        assert(steps_need(steps, k) == before.and(own));
        assert forall|n: Seq<char>| #[trigger]
            steps_need(steps, k).names.contains(n) <==> exists|j: int|
                0 <= j < k && #[trigger] steps[j].test == TestV::Name(n) by {
            assert(own.names.contains(n) <==> st.test == TestV::Name(n));
            if before.names.contains(n) {
                let j = choose|j: int|
                    0 <= j < k - 1 && #[trigger] steps[j].test == TestV::Name(n);
                assert(steps[j].test == TestV::Name(n));
            }
        }
    }
}

} // verus!
