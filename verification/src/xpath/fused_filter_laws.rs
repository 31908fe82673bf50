//! Predicates behind `//`: they apply to the children of each parent on their own, as
//! they do when the two steps are taken one after the other.

use vstd::prelude::*;
use crate::index::XmlIndex;
use crate::xpath::ast::{Axis, StepV};
use crate::xpath::axes::{child_axis, parent_node};
use crate::xpath::axis_pair_laws::along;
use crate::xpath::fusion_laws::{
    any_step, good_context, is_named, lemma_first_members, lemma_passing_member, lemma_scan_member,
    root_or_element,
};
use crate::xpath::name_laws::names_complete;
use crate::xpath::nodes::{XPathNode, DOC_ROOT};
use crate::xpath::numbers::Oracle;
use crate::xpath::scope_laws::{
    in_scope, is_child, is_faithful, lemma_add_member, lemma_children, lemma_same_list,
    lemma_scope_by_parent, lemma_tidied_list, root_or_tag, same_nodes, stands, up,
};
use crate::xpath::semantics::{
    filter_all, fused_grouped, fused_nodes, fused_one, groups, parent_entries, parent_entry,
    siblings_under, step_nodes, step_one, tested_nodes, tidy,
};
use crate::xpath::semantics_unfold::{
    unfold_fused_grouped, unfold_fused_nodes, unfold_groups, unfold_step_one,
};
use crate::xpath::step_laws::{
    is_part, lemma_children_in_order, lemma_filtered_part, lemma_part_strict, lemma_passing_part,
    lemma_step_in_order, stand_at,
};

verus! {

/// The parents of nodes: each that a node has, and no other.
proof fn lemma_parent_entries(ix: XmlIndex, nodes: Seq<XPathNode>, k: int, p: u32)
    requires
        0 <= k <= nodes.len(),
    ensures
        parent_entries(ix, nodes, k).contains(p) <==> exists|i: int|
            0 <= i < k && parent_entry(ix, #[trigger] nodes[i]) == p,
    decreases k,
{
    if k > 0 {
        lemma_parent_entries(ix, nodes, k - 1, p);
        let before = parent_entries(ix, nodes, k - 1);
        let q = parent_entry(ix, nodes[k - 1]);
        if !before.contains(q) {
            let all = before.push(q);
            assert(all[before.len() as int] == q);
            if before.contains(p) {
                let w = choose|w: int| 0 <= w < before.len() && before[w] == p;
                assert(all[w] == p);
            }
            if all.contains(p) && p != q {
                let w = choose|w: int| 0 <= w < all.len() && all[w] == p;
                assert(before[w] == p);
            }
        }
    }
}

/// The nodes under a parent: those with that parent, in order.
proof fn lemma_siblings_under(ix: XmlIndex, nodes: Seq<XPathNode>, p: u32, k: int) -> (at: Seq<int>)
    requires
        0 <= k <= nodes.len(),
    ensures
        stand_at(siblings_under(ix, nodes, p, k), at, nodes),
        forall|i: int| 0 <= i < at.len() ==> #[trigger] at[i] < k,
        forall|x: XPathNode| #[trigger]
            siblings_under(ix, nodes, p, k).contains(x) <==> nodes.take(k).contains(x)
                && parent_entry(ix, x) == p,
    decreases k,
{
    if k == 0 {
        assert(nodes.take(0) =~= Seq::empty());
        Seq::empty()
    } else {
        let before = lemma_siblings_under(ix, nodes, p, k - 1);
        let y = nodes[k - 1];
        let old = siblings_under(ix, nodes, p, k - 1);
        let now = siblings_under(ix, nodes, p, k);
        assert(nodes.take(k) =~= nodes.take(k - 1).push(y));
        assert forall|x: XPathNode| #[trigger] now.contains(x) <==> nodes.take(k).contains(x)
            && parent_entry(ix, x) == p by {
            lemma_add_member(nodes.take(k - 1), seq![y], x);
            assert(nodes.take(k - 1) + seq![y] =~= nodes.take(k));
            lemma_add_member(old, seq![y], x);
            assert(old + seq![y] =~= old.push(y));
            assert(seq![y][0] == y);
            assert(seq![y].contains(x) <==> x == y);
            assert(old.contains(x) <==> nodes.take(k - 1).contains(x) && parent_entry(ix, x) == p);
        }
        if parent_entry(ix, y) == p {
            before.push(k - 1)
        } else {
            before
        }
    }
}

/// The parent of a tag or a text that has been found is a tag or the document root.
proof fn lemma_entry_and_parent(ix: XmlIndex, x: XPathNode)
    requires
        stands(ix, x),
        x != XPathNode::Element(DOC_ROOT),
    ensures
        up(ix, x) == parent_node(parent_entry(ix, x)),
{
    assert(ix.tags() == ix.tag_starts.len());
}

/// Among the nodes found below a node, those of one parent are the children of that
/// parent that pass the test, in order.
proof fn lemma_group(ix: XmlIndex, node: XPathNode, st: StepV, p: u32)
    requires
        is_faithful(ix),
        names_complete(ix),
        is_named(st.test),
        st.axis == Axis::Child,
        root_or_element(ix, node),
        ({
            let matched = fused_one(ix, node, st.test);
            parent_entries(ix, matched, matched.len() as int).contains(p)
        }),
    ensures
        ({
            let matched = fused_one(ix, node, st.test);
            siblings_under(ix, matched, p, matched.len() as int) == tested_nodes(
                ix,
                parent_node(p),
                st,
            )
        }),
        parent_node(p) == node || in_scope(ix, node, parent_node(p)),
        root_or_tag(ix, parent_node(p)),
{
    let matched = fused_one(ix, node, st.test);
    let n = matched.len() as int;
    let group = siblings_under(ix, matched, p, n);
    let parent = parent_node(p);
    assert(ix.tags() == ix.tag_starts.len());
    lemma_scan_member(ix, node, st.test, node);
    lemma_parent_entries(ix, matched, n, p);
    let i = choose|i: int| 0 <= i < n && parent_entry(ix, #[trigger] matched[i]) == p;
    let y = matched[i];
    assert(matched.contains(y));
    lemma_scan_member(ix, node, st.test, y);
    lemma_scope_by_parent(ix, node, y);
    lemma_entry_and_parent(ix, y);
    assert(up(ix, y) == parent);
    let at = lemma_siblings_under(ix, matched, p, n);
    assert(matched.take(n) =~= matched);
    assert(is_part(group, matched));
    lemma_part_strict(ix, group, matched);
    let children = child_axis(ix, parent);
    let tested = tested_nodes(ix, parent, st);
    assert(children == along(ix, parent, Axis::Child));
    lemma_children_in_order(ix, parent);
    let bt = lemma_passing_part(ix, children, st, children.len() as int);
    assert(stand_at(tested, bt, children));
    assert(is_part(tested, children));
    lemma_part_strict(ix, tested, children);
    assert forall|x: XPathNode| #[trigger] group.contains(x) <==> tested.contains(x) by {
        lemma_passing_member(ix, children, st.test, children.len() as int, x);
        assert(children.take(children.len() as int) =~= children);
        lemma_children(ix, parent, x);
        lemma_scan_member(ix, node, st.test, x);
        lemma_scope_by_parent(ix, node, x);
        if stands(ix, x) && x != XPathNode::Element(DOC_ROOT) {
            lemma_entry_and_parent(ix, x);
        }
    }
    lemma_same_list(ix, group, tested);
}

/// What is kept of the nodes under each of the first `k` parents.
proof fn lemma_groups(
    ix: XmlIndex,
    o: Oracle,
    st: StepV,
    nodes: Seq<XPathNode>,
    parents: Seq<u32>,
    k: int,
    x: XPathNode,
)
    requires
        0 <= k <= parents.len(),
    ensures
        groups(ix, o, st.preds, nodes, parents, k).contains(x) <==> exists|j: int|
            0 <= j < k && filter_all(
                ix,
                o,
                st.preds,
                st.preds.len() as int,
                siblings_under(ix, nodes, #[trigger] parents[j], nodes.len() as int),
            ).contains(x),
    decreases k,
{
    unfold_groups(ix, o, st.preds, nodes, parents, k);
    if k > 0 {
        lemma_groups(ix, o, st, nodes, parents, k - 1, x);
        lemma_add_member(
            groups(ix, o, st.preds, nodes, parents, k - 1),
            filter_all(
                ix,
                o,
                st.preds,
                st.preds.len() as int,
                siblings_under(ix, nodes, parents[k - 1], nodes.len() as int),
            ),
            x,
        );
    }
}

/// From one node, predicates behind `//` keep what they keep of the children of each
/// node there.
proof fn lemma_grouped_from(ix: XmlIndex, o: Oracle, node: XPathNode, st: StepV, x: XPathNode)
    requires
        is_faithful(ix),
        names_complete(ix),
        is_named(st.test),
        st.axis == Axis::Child,
        root_or_element(ix, node),
    ensures
        ({
            let matched = fused_one(ix, node, st.test);
            let parents = parent_entries(ix, matched, matched.len() as int);
            groups(ix, o, st.preds, matched, parents, parents.len() as int).contains(x)
                <==> exists|y: XPathNode|
                (y == node || in_scope(ix, node, y)) && #[trigger] step_one(ix, o, y, st).contains(x)
        }),
{
    let matched = fused_one(ix, node, st.test);
    let n = matched.len() as int;
    let parents = parent_entries(ix, matched, n);
    let m = parents.len() as int;
    let found = groups(ix, o, st.preds, matched, parents, m);
    lemma_groups(ix, o, st, matched, parents, m, x);
    if found.contains(x) {
        let j = choose|j: int|
            0 <= j < m && filter_all(
                ix,
                o,
                st.preds,
                st.preds.len() as int,
                siblings_under(ix, matched, #[trigger] parents[j], n),
            ).contains(x);
        let p = parents[j];
        assert(parents.contains(p));
        lemma_group(ix, node, st, p);
        unfold_step_one(ix, o, parent_node(p), st);
        assert(step_one(ix, o, parent_node(p), st).contains(x));
    }
    if exists|y: XPathNode|
        (y == node || in_scope(ix, node, y)) && #[trigger] step_one(ix, o, y, st).contains(x) {
        let y = choose|y: XPathNode|
            (y == node || in_scope(ix, node, y)) && #[trigger] step_one(ix, o, y, st).contains(x);
        let tested = tested_nodes(ix, y, st);
        unfold_step_one(ix, o, y, st);
        lemma_filtered_part(ix, o, st.preds, st.preds.len() as int, tested);
        let kept = step_one(ix, o, y, st);
        let at = choose|at: Seq<int>| stand_at(kept, at, tested);
        let w = choose|w: int| 0 <= w < kept.len() && kept[w] == x;
        assert(0 <= at[w] < tested.len());
        assert(tested[at[w]] == x);
        assert(tested.contains(x));
        let children = child_axis(ix, y);
        lemma_passing_member(ix, children, st.test, children.len() as int, x);
        assert(children.take(children.len() as int) =~= children);
        assert(children.contains(x));
        assert(ix.tags() == ix.tag_starts.len());
        assert(root_or_tag(ix, y));
        lemma_children(ix, y, x);
        assert(is_child(ix, y, x));
        assert(up(ix, x) == y);
        lemma_scope_by_parent(ix, node, x);
        lemma_scan_member(ix, node, st.test, x);
        assert(matched.contains(x));
        lemma_entry_and_parent(ix, x);
        let p = parent_entry(ix, x);
        assert(parent_node(p) == y);
        let i = choose|i: int| 0 <= i < n && matched[i] == x;
        assert(parent_entry(ix, matched[i]) == p);
        lemma_parent_entries(ix, matched, n, p);
        let j = choose|j: int| 0 <= j < m && parents[j] == p;
        lemma_group(ix, node, st, p);
        assert(filter_all(
            ix,
            o,
            st.preds,
            st.preds.len() as int,
            siblings_under(ix, matched, parents[j], n),
        ).contains(x));
    }
}

/// Whether a step from a node, or from a node inside of it, leads to a node.
spec fn leads_to(ix: XmlIndex, o: Oracle, node: XPathNode, st: StepV, x: XPathNode) -> bool {
    exists|y: XPathNode|
        (y == node || in_scope(ix, node, y)) && #[trigger] step_one(ix, o, y, st).contains(x)
}

proof fn lemma_fused_grouped(
    ix: XmlIndex,
    o: Oracle,
    ctx: Seq<XPathNode>,
    st: StepV,
    k: int,
    x: XPathNode,
)
    requires
        is_faithful(ix),
        names_complete(ix),
        is_named(st.test),
        st.axis == Axis::Child,
        good_context(ix, ctx),
        0 <= k <= ctx.len(),
    ensures
        fused_grouped(ix, o, ctx, st, k).contains(x) <==> exists|c: int|
            0 <= c < k && leads_to(ix, o, #[trigger] ctx[c], st, x),
    decreases k,
{
    unfold_fused_grouped(ix, o, ctx, st, k);
    if k > 0 {
        lemma_fused_grouped(ix, o, ctx, st, k - 1, x);
        let node = ctx[k - 1];
        assert(root_or_element(ix, node));
        let matched = fused_one(ix, node, st.test);
        let parents = parent_entries(ix, matched, matched.len() as int);
        lemma_grouped_from(ix, o, node, st, x);
        lemma_add_member(
            fused_grouped(ix, o, ctx, st, k - 1),
            groups(ix, o, st.preds, matched, parents, parents.len() as int),
            x,
        );
        assert(leads_to(ix, o, node, st, x) <==> groups(
            ix,
            o,
            st.preds,
            matched,
            parents,
            parents.len() as int,
        ).contains(x));
        if exists|c: int| 0 <= c < k && leads_to(ix, o, #[trigger] ctx[c], st, x) {
            let c = choose|c: int| 0 <= c < k && leads_to(ix, o, #[trigger] ctx[c], st, x);
            if c < k - 1 {
                assert(leads_to(ix, o, ctx[c], st, x));
            }
        }
    }
}

/// Predicates behind `//` select what the two steps select one after the other: in
/// `//a[1]`, the first `a` among the children of each node, not the first of all.
pub proof fn lemma_fused_predicates(ix: XmlIndex, o: Oracle, ctx: Seq<XPathNode>, st: StepV)
    requires
        is_faithful(ix),
        names_complete(ix),
        is_named(st.test),
        st.axis == Axis::Child,
        st.preds.len() > 0,
        good_context(ix, ctx),
    ensures
        fused_nodes(ix, o, ctx, st) == step_nodes(ix, o, step_nodes(ix, o, ctx, any_step()), st),
{
    let n = ctx.len() as int;
    let mid = step_nodes(ix, o, ctx, any_step());
    let over = fused_grouped(ix, o, ctx, st, n);
    let fused = tidy(ix, over);
    let stepped = step_nodes(ix, o, mid, st);
    let root = XPathNode::Element(DOC_ROOT);
    unfold_fused_nodes(ix, o, ctx, st);
    lemma_first_members(ix, o, ctx, root);
    lemma_step_in_order(ix, o, mid, st, root);
    assert forall|x: XPathNode| #[trigger] over.contains(x) <==> stepped.contains(x) by {
        lemma_fused_grouped(ix, o, ctx, st, n, x);
        lemma_step_in_order(ix, o, mid, st, x);
        if over.contains(x) {
            let c = choose|c: int| 0 <= c < n && leads_to(ix, o, #[trigger] ctx[c], st, x);
            let y = choose|y: XPathNode|
                (y == ctx[c] || in_scope(ix, ctx[c], y)) && #[trigger] step_one(
                    ix,
                    o,
                    y,
                    st,
                ).contains(x);
            lemma_first_members(ix, o, ctx, y);
            if y == ctx[c] {
                assert(ctx.contains(y));
            } else {
                assert(in_scope(ix, ctx[c], y));
            }
            assert(mid.contains(y));
            let w = choose|w: int| 0 <= w < mid.len() && mid[w] == y;
            assert(step_one(ix, o, mid[w], st).contains(x));
        }
        if stepped.contains(x) {
            let w = choose|w: int|
                0 <= w < mid.len() && #[trigger] step_one(ix, o, mid[w], st).contains(x);
            let y = mid[w];
            assert(mid.contains(y));
            lemma_first_members(ix, o, ctx, y);
            if ctx.contains(y) {
                let c = choose|c: int| 0 <= c < n && ctx[c] == y;
                assert(leads_to(ix, o, ctx[c], st, x));
            } else {
                let c = choose|c: int| 0 <= c < n && in_scope(ix, #[trigger] ctx[c], y);
                assert(leads_to(ix, o, ctx[c], st, x));
            }
        }
    }
    assert forall|k: int| 0 <= k < over.len() implies stands(ix, #[trigger] over[k]) by {
        assert(over.contains(over[k]));
        assert(stepped.contains(over[k]));
        let w = choose|w: int| 0 <= w < stepped.len() && stepped[w] == over[k];
        assert(stands(ix, stepped[w]));
    }
    lemma_tidied_list(ix, over);
    assert(same_nodes(fused, stepped));
    lemma_same_list(ix, fused, stepped);
}

} // verus!
