//! Evaluating `//` and a node test in one scan gives what its two steps give one after
//! the other.

use vstd::prelude::*;
use crate::index::XmlIndex;
use crate::xpath::ast::{Axis, StepV, TestV};
use crate::xpath::axes::{child_axis, descendant_axis, pick_tags, pick_texts, PickV, TextPick};
use crate::xpath::lazy_laws::lemma_pick_tags;
use crate::xpath::name_laws::{lemma_name_index_scan, names_complete};
use crate::xpath::nodes::{doc_pos, in_doc_order, passes, passing, XPathNode, DOC_ROOT};
use crate::xpath::numbers::Oracle;
use crate::xpath::path_laws::{lemma_empty_row_range, lemma_scope_end, slashes};
use crate::xpath::scope_laws::{
    all_stand, in_scope, is_faithful, is_strict, lemma_add_member, lemma_children,
    lemma_descendants, lemma_ordered_list, lemma_picked, lemma_picked_texts, lemma_same_list,
    lemma_scope_by_parent, lemma_tidied_list, root_or_tag, same_nodes, stands, tag_node, up,
};
use crate::xpath::semantics::{
    fused_nodes, fused_one, fused_over, fusible, name_row, path_from, row_within, scope, step_nodes,
    step_over, steps_from, tested_nodes, tidy,
};
use crate::xpath::semantics_unfold::{
    unfold_filter_all, unfold_fused_nodes, unfold_path_from, unfold_step_nodes, unfold_step_one,
    unfold_step_over, unfold_steps_from,
};

verus! {

// The two steps.

pub proof fn lemma_passing_member(ix: XmlIndex, nodes: Seq<XPathNode>, test: TestV, k: int, x: XPathNode)
    requires
        0 <= k <= nodes.len(),
    ensures
        passing(ix, nodes, test, k).contains(x) <==> nodes.take(k).contains(x) && passes(
            ix,
            x,
            test,
        ),
    decreases k,
{
    let all = passing(ix, nodes, test, k);
    if k > 0 {
        lemma_passing_member(ix, nodes, test, k - 1, x);
        let before = passing(ix, nodes, test, k - 1);
        let head = nodes.take(k - 1);
        let more = nodes.take(k);
        if all.contains(x) {
            let i = choose|i: int| 0 <= i < all.len() && all[i] == x;
            if i < before.len() {
                assert(before[i] == x);
                let w = choose|w: int| 0 <= w < head.len() && head[w] == x;
                assert(more[w] == x);
            } else {
                assert(more[k - 1] == x);
            }
        }
        if more.contains(x) && passes(ix, x, test) {
            let w = choose|w: int| 0 <= w < more.len() && more[w] == x;
            if w < k - 1 {
                assert(head[w] == x);
                let i = choose|i: int| 0 <= i < before.len() && before[i] == x;
                assert(all[i] == x);
            } else {
                assert(all[all.len() - 1] == x);
            }
        }
    }
}

proof fn lemma_passing_all(ix: XmlIndex, nodes: Seq<XPathNode>, k: int)
    requires
        0 <= k <= nodes.len(),
    ensures
        passing(ix, nodes, TestV::Node, k) == nodes.take(k),
    decreases k,
{
    if k > 0 {
        lemma_passing_all(ix, nodes, k - 1);
        assert(nodes.take(k) =~= nodes.take(k - 1).push(nodes[k - 1]));
    } else {
        assert(nodes.take(0) =~= Seq::empty());
    }
}

pub proof fn lemma_step_members(ix: XmlIndex, o: Oracle, ctx: Seq<XPathNode>, st: StepV, k: int, x: XPathNode)
    requires
        0 <= k <= ctx.len(),
        st.preds.len() == 0,
    ensures
        step_over(ix, o, ctx, st, k).contains(x) <==> reached(ix, ctx, st, k, x),
    decreases k,
{
    unfold_step_over(ix, o, ctx, st, k);
    let all = step_over(ix, o, ctx, st, k);
    if k > 0 {
        lemma_step_members(ix, o, ctx, st, k - 1, x);
        let more = tested_nodes(ix, ctx[k - 1], st);
        unfold_step_one(ix, o, ctx[k - 1], st);
        unfold_filter_all(ix, o, st.preds, 0, more);
        let before = step_over(ix, o, ctx, st, k - 1);
        lemma_add_member(before, more, x);
        if more.contains(x) {
            assert(tested_nodes(ix, ctx[k - 1], st).contains(x));
        }
        if reached(ix, ctx, st, k - 1, x) {
            let c = choose|c: int|
                0 <= c < k - 1 && #[trigger] tested_nodes(ix, ctx[c], st).contains(x);
            assert(tested_nodes(ix, ctx[c], st).contains(x));
        }
        if reached(ix, ctx, st, k, x) {
            let c = choose|c: int| 0 <= c < k && #[trigger] tested_nodes(ix, ctx[c], st).contains(x);
            if c < k - 1 {
                assert(reached(ix, ctx, st, k - 1, x));
            }
        }
    }
}

/// Whether a step reaches a node from one of the first `k` context nodes.
pub open spec fn reached(ix: XmlIndex, ctx: Seq<XPathNode>, st: StepV, k: int, x: XPathNode) -> bool {
    exists|c: int| 0 <= c < k && #[trigger] tested_nodes(ix, ctx[c], st).contains(x)
}

/// The child step of `//` and a node test.
pub open spec fn child_step(test: TestV) -> StepV {
    StepV { axis: Axis::Child, test, preds: Seq::empty() }
}

/// The first of the two steps that `//` abbreviates.
pub open spec fn any_step() -> StepV {
    StepV { axis: Axis::DescendantOrSelf, test: TestV::Node, preds: Seq::empty() }
}

/// The document root or an element.
pub open spec fn root_or_element(ix: XmlIndex, node: XPathNode) -> bool {
    node matches XPathNode::Element(i) && (i == DOC_ROOT || (i < ix.tags() && ix.element(i as int)))
}

/// A test for a name has a name.
pub open spec fn is_named(test: TestV) -> bool {
    test matches TestV::Name(name) ==> name.len() > 0
}

/// The scan for a test from a node, written out: the tags and texts inside it that
/// pass.
proof fn lemma_scan_form(ix: XmlIndex, node: XPathNode, test: TestV)
    requires
        is_faithful(ix),
        names_complete(ix),
        is_named(test),
        root_or_element(ix, node),
        !(test is Text),
        !(test is Node),
    ensures
        ({
            let (lo, first, end) = scope(ix, node)->0;
            fused_one(ix, node, test) == pick_tags(ix, PickV::Test(test), lo, end)
        }),
{
    let (lo, first, end) = scope(ix, node)->0;
    if node->Element_0 != DOC_ROOT {
        lemma_scope_end(ix, node->Element_0 as int);
    }
    if let TestV::Name(name) = test {
        let row = name_row(ix, name);
        if row.len() > 0 {
            if lo <= end {
                lemma_name_index_scan(ix, name, lo, end);
            } else {
                lemma_empty_row_range(row, lo, end);
                assert(row_within(row, lo, end) =~= pick_tags(ix, PickV::Test(test), lo, end));
            }
        }
    }
}

/// The scan from a node finds the nodes inside it that pass the test, in order.
pub proof fn lemma_scan_member(ix: XmlIndex, node: XPathNode, test: TestV, x: XPathNode)
    requires
        is_faithful(ix),
        names_complete(ix),
        is_named(test),
        root_or_element(ix, node),
    ensures
        fused_one(ix, node, test).contains(x) <==> in_scope(ix, node, x) && passes(ix, x, test),
        all_stand(ix, fused_one(ix, node, test)),
        is_strict(ix, fused_one(ix, node, test)),
{
    let (lo, first, end) = scope(ix, node)->0;
    let m = ix.text_ranges@.len() as int;
    let texts = TextPick::Within(first as usize, end as usize);
    let d = ix.doc();
    let all = fused_one(ix, node, test);
    assert(ix.tags() == ix.tag_starts.len());
    if node->Element_0 != DOC_ROOT {
        lemma_scope_end(ix, node->Element_0 as int);
    }
    match test {
        TestV::Text => {
            lemma_picked_texts(ix, texts, m);
            if all.contains(x) {
                let k = choose|k: int| 0 <= k < all.len() && all[k] == x;
                assert(all[k] is Text);
            }
            if let XPathNode::Text(t) = x {
                if in_scope(ix, node, x) {
                    assert(crate::xpath::axes::picks_text(ix, texts, t as int));
                }
            }
            assert forall|i: int, j: int| 0 <= i < j < all.len() implies doc_pos(ix, all[i])
                < doc_pos(ix, all[j]) by {
                let a = all[i]->Text_0 as int;
                let b = all[j]->Text_0 as int;
                assert(d.texts[a].start < d.texts[b].start);
            }
        },
        TestV::Node => {
            let some = pick_tags(ix, PickV::Any, lo, end) + pick_texts(ix, texts, m);
            lemma_picked(ix, PickV::Any, lo, end, texts, x);
            lemma_ordered_list(ix, some);
            assert(all == in_doc_order(ix, some));
        },
        _ => {
            lemma_scan_form(ix, node, test);
            if lo <= end {
                lemma_pick_tags(ix, PickV::Test(test), lo, end);
            } else {
                assert(all.len() == 0);
            }
            if all.contains(x) {
                let k = choose|k: int| 0 <= k < all.len() && all[k] == x;
                assert(all[k] is Element);
            }
            if let XPathNode::Element(j) = x {
                if in_scope(ix, node, x) && passes(ix, x, test) {
                    assert(x == tag_node(j as int));
                    assert(crate::xpath::axes::picks(ix, PickV::Test(test), j as int));
                }
            }
            assert forall|i: int, j: int| 0 <= i < j < all.len() implies doc_pos(ix, all[i])
                < doc_pos(ix, all[j]) by {
                let a = all[i]->Element_0 as int;
                let b = all[j]->Element_0 as int;
                assert(d.starts[a] < d.starts[b]);
            }
        },
    }
}

/// Whether a node passes the test and lies inside of one of the context nodes.
pub open spec fn found_from(ix: XmlIndex, ctx: Seq<XPathNode>, test: TestV, x: XPathNode) -> bool {
    passes(ix, x, test) && exists|c: int| 0 <= c < ctx.len() && in_scope(ix, #[trigger] ctx[c], x)
}

/// All context nodes are elements or the document root.
pub open spec fn good_context(ix: XmlIndex, ctx: Seq<XPathNode>) -> bool {
    forall|c: int| 0 <= c < ctx.len() ==> root_or_element(ix, #[trigger] ctx[c])
}

/// What the scan finds from the first `k` context nodes.
pub proof fn lemma_fused_members(ix: XmlIndex, ctx: Seq<XPathNode>, test: TestV, k: int, x: XPathNode)
    requires
        0 <= k <= ctx.len(),
    ensures
        fused_over(ix, ctx, test, k).contains(x) <==> exists|c: int|
            0 <= c < k && #[trigger] fused_one(ix, ctx[c], test).contains(x),
    decreases k,
{
    if k > 0 {
        lemma_fused_members(ix, ctx, test, k - 1, x);
        lemma_add_member(
            fused_over(ix, ctx, test, k - 1),
            fused_one(ix, ctx[k - 1], test),
            x,
        );
    }
}

/// The scan from context nodes finds the nodes inside them that pass the test.
proof fn lemma_scanned(ix: XmlIndex, ctx: Seq<XPathNode>, test: TestV, x: XPathNode)
    requires
        is_faithful(ix),
        names_complete(ix),
        is_named(test),
        good_context(ix, ctx),
    ensures
        fused_over(ix, ctx, test, ctx.len() as int).contains(x) <==> found_from(ix, ctx, test, x),
        stands(ix, x) || !found_from(ix, ctx, test, x),
{
    lemma_fused_members(ix, ctx, test, ctx.len() as int, x);
    if fused_over(ix, ctx, test, ctx.len() as int).contains(x) {
        let c = choose|c: int|
            0 <= c < ctx.len() && #[trigger] fused_one(ix, ctx[c], test).contains(x);
        assert(root_or_element(ix, ctx[c]));
        lemma_scan_member(ix, ctx[c], test, x);
        assert(in_scope(ix, ctx[c], x));
    }
    if found_from(ix, ctx, test, x) {
        let c = choose|c: int| 0 <= c < ctx.len() && in_scope(ix, #[trigger] ctx[c], x);
        assert(root_or_element(ix, ctx[c]));
        lemma_scan_member(ix, ctx[c], test, x);
        assert(fused_one(ix, ctx[c], test).contains(x));
    }
}

/// The first step holds the context nodes and the nodes inside them.
pub proof fn lemma_first_members(ix: XmlIndex, o: Oracle, ctx: Seq<XPathNode>, y: XPathNode)
    requires
        is_faithful(ix),
        good_context(ix, ctx),
    ensures
        step_nodes(ix, o, ctx, any_step()).contains(y) <==> ctx.contains(y) || exists|c: int|
            0 <= c < ctx.len() && in_scope(ix, #[trigger] ctx[c], y),
        all_stand(ix, step_nodes(ix, o, ctx, any_step())),
{
    let st = any_step();
    let n = ctx.len() as int;
    let first = step_over(ix, o, ctx, st, n);
    unfold_step_nodes(ix, o, ctx, st);
    assert forall|z: XPathNode| #[trigger] first.contains(z) <==> ctx.contains(z) || exists|c: int|
        0 <= c < n && in_scope(ix, #[trigger] ctx[c], z) by {
        lemma_any_members(ix, o, ctx, z);
    }
    assert forall|k: int| 0 <= k < first.len() implies stands(ix, #[trigger] first[k]) by {
        assert(first.contains(first[k]));
        let z = first[k];
        if ctx.contains(z) {
            let c = choose|c: int| 0 <= c < ctx.len() && ctx[c] == z;
            assert(root_or_element(ix, ctx[c]));
        }
    }
    if n > 1 {
        lemma_tidied_list(ix, first);
        assert(tidy(ix, first).contains(y) <==> first.contains(y));
    }
    lemma_any_members(ix, o, ctx, y);
}

proof fn lemma_any_members(ix: XmlIndex, o: Oracle, ctx: Seq<XPathNode>, y: XPathNode)
    requires
        is_faithful(ix),
        good_context(ix, ctx),
    ensures
        step_over(ix, o, ctx, any_step(), ctx.len() as int).contains(y) <==> ctx.contains(y)
            || exists|c: int| 0 <= c < ctx.len() && in_scope(ix, #[trigger] ctx[c], y),
{
    let st = any_step();
    let n = ctx.len() as int;
    lemma_step_members(ix, o, ctx, st, n, y);
    assert forall|c: int| 0 <= c < n implies #[trigger] tested_nodes(ix, ctx[c], st)
        == descendant_axis(ix, ctx[c], true) by {
        let all = descendant_axis(ix, ctx[c], true);
        lemma_passing_all(ix, all, all.len() as int);
        assert(all.take(all.len() as int) =~= all);
    }
    if reached(ix, ctx, st, n, y) {
        let c = choose|c: int| 0 <= c < n && #[trigger] tested_nodes(ix, ctx[c], st).contains(y);
        assert(root_or_element(ix, ctx[c]));
        lemma_descendants(ix, ctx[c], true, y);
        assert(ctx[c] == y || in_scope(ix, ctx[c], y));
    }
    if ctx.contains(y) {
        let c = choose|c: int| 0 <= c < n && ctx[c] == y;
        assert(root_or_element(ix, ctx[c]));
        lemma_descendants(ix, ctx[c], true, y);
        assert(tested_nodes(ix, ctx[c], st).contains(y));
    }
    if exists|c: int| 0 <= c < n && in_scope(ix, #[trigger] ctx[c], y) {
        let c = choose|c: int| 0 <= c < n && in_scope(ix, #[trigger] ctx[c], y);
        assert(root_or_element(ix, ctx[c]));
        lemma_descendants(ix, ctx[c], true, y);
        assert(tested_nodes(ix, ctx[c], st).contains(y));
    }
}

/// The second step reaches the nodes inside the context nodes that pass the test.
proof fn lemma_second_members(ix: XmlIndex, o: Oracle, ctx: Seq<XPathNode>, test: TestV, x: XPathNode)
    requires
        is_faithful(ix),
        good_context(ix, ctx),
    ensures
        ({
            let mid = step_nodes(ix, o, ctx, any_step());
            step_over(ix, o, mid, child_step(test), mid.len() as int).contains(x) <==> found_from(
                ix,
                ctx,
                test,
                x,
            )
        }),
{
    let mid = step_nodes(ix, o, ctx, any_step());
    let st = child_step(test);
    let n = mid.len() as int;
    lemma_step_members(ix, o, mid, st, n, x);
    lemma_first_members(ix, o, ctx, x);
    if reached(ix, mid, st, n, x) {
        let k = choose|k: int| 0 <= k < n && #[trigger] tested_nodes(ix, mid[k], st).contains(x);
        let y = mid[k];
        let all = child_axis(ix, y);
        lemma_passing_member(ix, all, test, all.len() as int, x);
        assert(all.take(all.len() as int) =~= all);
        assert(stands(ix, mid[k]));
        if y is Text {
            assert(all =~= Seq::empty());
        } else {
            lemma_children(ix, y, x);
            assert(mid.contains(y));
            lemma_first_members(ix, o, ctx, y);
            assert(y == up(ix, x));
            let c = if ctx.contains(y) {
                choose|c: int| 0 <= c < ctx.len() && ctx[c] == y
            } else {
                choose|c: int| 0 <= c < ctx.len() && in_scope(ix, #[trigger] ctx[c], y)
            };
            assert(root_or_element(ix, ctx[c]));
            lemma_scope_by_parent(ix, ctx[c], x);
            assert(stands(ix, x)) by {
                let at = choose|at: int| 0 <= at < all.len() && all[at] == x;
                assert(stands(ix, all[at]));
            }
            assert(in_scope(ix, ctx[c], x));
        }
    }
    if found_from(ix, ctx, test, x) {
        let c = choose|c: int| 0 <= c < ctx.len() && in_scope(ix, #[trigger] ctx[c], x);
        assert(root_or_element(ix, ctx[c]));
        lemma_scope_by_parent(ix, ctx[c], x);
        let y = up(ix, x);
        lemma_first_members(ix, o, ctx, y);
        assert(mid.contains(y)) by {
            if y == ctx[c] {
                assert(ctx.contains(y));
            }
        }
        let k = choose|k: int| 0 <= k < mid.len() && mid[k] == y;
        let all = child_axis(ix, y);
        lemma_children(ix, y, x);
        lemma_passing_member(ix, all, test, all.len() as int, x);
        assert(all.take(all.len() as int) =~= all);
        assert(tested_nodes(ix, mid[k], st).contains(x));
    }
}

/// A node does not lie inside itself.
proof fn lemma_not_in_itself(ix: XmlIndex, node: XPathNode)
    requires
        root_or_tag(ix, node),
    ensures
        !in_scope(ix, node, node),
{
    assert(ix.tags() == ix.tag_starts.len());
}

/// Fusing the two steps of `//test` into one scan changes nothing: from any list of
/// the document root and elements, the scan selects what the steps select one after
/// the other. A test for a name has a name that is not empty.
pub proof fn lemma_fusing_changes_nothing(
    ix: XmlIndex,
    o: Oracle,
    ctx: Seq<XPathNode>,
    test: TestV,
)
    requires
        is_faithful(ix),
        names_complete(ix),
        is_named(test),
        good_context(ix, ctx),
    ensures
        path_from(ix, o, slashes(test), 0, ctx) == steps_from(ix, o, slashes(test), 0, ctx),
{
    let steps = slashes(test);
    let st = steps[1];
    let n = ctx.len() as int;
    assert(st == child_step(test)) by {
        assert(st.preds =~= child_step(test).preds);
    }
    assert(steps[0] == any_step()) by {
        assert(steps[0].preds =~= any_step().preds);
    }
    let scan = fused_over(ix, ctx, test, n);
    let scanned = fused_nodes(ix, o, ctx, st);
    let mid = step_nodes(ix, o, ctx, steps[0]);
    let over = step_over(ix, o, mid, st, mid.len() as int);
    let stepped = step_nodes(ix, o, mid, st);
    assert(fusible(steps, 0));
    unfold_path_from(ix, o, steps, 0, ctx);
    unfold_fused_nodes(ix, o, ctx, st);
    unfold_path_from(ix, o, steps, 2, scanned);
    unfold_steps_from(ix, o, steps, 0, ctx);
    unfold_steps_from(ix, o, steps, 1, mid);
    unfold_steps_from(ix, o, steps, 2, stepped);
    unfold_step_nodes(ix, o, mid, st);
    lemma_both(ix, o, ctx, test);
    assert(scanned == (if n > 1 {
        tidy(ix, scan)
    } else {
        scan
    }));
    lemma_same_list(ix, scanned, stepped);
}

/// The scan and the steps are in order and hold the same nodes.
proof fn lemma_both(ix: XmlIndex, o: Oracle, ctx: Seq<XPathNode>, test: TestV)
    requires
        is_faithful(ix),
        names_complete(ix),
        is_named(test),
        good_context(ix, ctx),
    ensures
        ({
            let scan = fused_over(ix, ctx, test, ctx.len() as int);
            let scanned = if ctx.len() > 1 {
                tidy(ix, scan)
            } else {
                scan
            };
            let mid = step_nodes(ix, o, ctx, any_step());
            let over = step_over(ix, o, mid, child_step(test), mid.len() as int);
            let stepped = if mid.len() > 1 {
                tidy(ix, over)
            } else {
                over
            };
            &&& all_stand(ix, scanned)
            &&& is_strict(ix, scanned)
            &&& all_stand(ix, stepped)
            &&& is_strict(ix, stepped)
            &&& same_nodes(scanned, stepped)
        }),
{
    let n = ctx.len() as int;
    let scan = fused_over(ix, ctx, test, n);
    let mid = step_nodes(ix, o, ctx, any_step());
    let over = step_over(ix, o, mid, child_step(test), mid.len() as int);
    assert forall|x: XPathNode| #[trigger] scan.contains(x) <==> over.contains(x) by {
        lemma_scanned(ix, ctx, test, x);
        lemma_second_members(ix, o, ctx, test, x);
    }
    assert forall|k: int| 0 <= k < scan.len() implies stands(ix, #[trigger] scan[k]) by {
        assert(scan.contains(scan[k]));
        lemma_scanned(ix, ctx, test, scan[k]);
    }
    assert forall|k: int| 0 <= k < over.len() implies stands(ix, #[trigger] over[k]) by {
        assert(over.contains(over[k]));
        assert(scan.contains(over[k]));
        lemma_scanned(ix, ctx, test, over[k]);
    }
    lemma_tidied_list(ix, scan);
    lemma_tidied_list(ix, over);
    if n == 1 {
        assert(root_or_element(ix, ctx[0]));
        assert(fused_over(ix, ctx, test, 0) =~= Seq::empty());
        assert(scan =~= fused_one(ix, ctx[0], test));
        lemma_scan_member(ix, ctx[0], test, ctx[0]);
    }
    if n == 0 {
        assert(scan =~= Seq::empty());
    }
    if mid.len() <= 1 && over.len() > 0 {
        let x = over[0];
        assert(over.contains(x));
        lemma_second_members(ix, o, ctx, test, x);
        let c = choose|c: int| 0 <= c < ctx.len() && in_scope(ix, #[trigger] ctx[c], x);
        assert(root_or_element(ix, ctx[c]));
        assert(ctx.contains(ctx[c]));
        lemma_first_members(ix, o, ctx, x);
        lemma_first_members(ix, o, ctx, ctx[c]);
        let a = choose|a: int| 0 <= a < mid.len() && mid[a] == x;
        let b = choose|b: int| 0 <= b < mid.len() && mid[b] == ctx[c];
        assert(a == b);
        lemma_not_in_itself(ix, ctx[c]);
    }
    if over.len() == 0 {
        assert(over =~= Seq::empty());
    }
}

} // verus!
