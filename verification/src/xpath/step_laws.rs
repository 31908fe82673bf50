//! What steps select, and in which order.

use vstd::prelude::*;
use crate::index::tables::{child_owner, lemma_owned, owned, text_owner};
use crate::index::text_laws::in_open_tag;
use crate::index::XmlIndex;
use crate::xpath::ast::{Axis, ExprV, StepV};
use crate::xpath::axes::{
    ancestor_axis, ancestor_start, chain, child_axis, first_start, last_start, pick_tags,
    pick_texts, place, row_nodes, PickV, TextPick,
};
use crate::xpath::axis_laws::lemma_pick_list;
use crate::xpath::axis_pair_laws::along;
use crate::xpath::function_laws::lemma_predicate_keeps;
use crate::xpath::fusion_laws::lemma_passing_member;
use crate::xpath::lazy_laws::lemma_pick_tags;
use crate::xpath::nodes::{
    doc_pos, in_doc_order, merge_placed, passes, passing, placed, unplaced, Placed, XPathNode,
    DOC_ROOT,
};
use crate::xpath::numbers::Oracle;
use crate::xpath::scope_laws::{
    all_stand, is_faithful, is_strict, lemma_add_member, lemma_children, lemma_descendants,
    lemma_merge_members, lemma_ordered_list, lemma_picked, lemma_tidied_list, root_or_tag, stands,
};
use crate::xpath::semantics::{
    filter_all, filtered_by, in_context, query, query_from, step_nodes, step_one, step_over,
    steps_from, tested_nodes,
};
use crate::xpath::semantics_unfold::{
    unfold_filter_all, unfold_filtered_by, unfold_in_context, unfold_query, unfold_query_from,
    unfold_step_nodes, unfold_step_one, unfold_step_over, unfold_steps_from,
};

verus! {

/// The nodes of one list stand in another at these places, in order.
pub open spec fn stand_at(a: Seq<XPathNode>, at: Seq<int>, b: Seq<XPathNode>) -> bool {
    &&& at.len() == a.len()
    &&& forall|i: int| 0 <= i < at.len() ==> 0 <= #[trigger] at[i] < b.len() && a[i] == b[at[i]]
    &&& forall|i: int, j: int| 0 <= i < j < at.len() ==> at[i] < at[j]
}

/// A list is part of another, in the same order.
pub open spec fn is_part(a: Seq<XPathNode>, b: Seq<XPathNode>) -> bool {
    exists|at: Seq<int>| stand_at(a, at, b)
}

proof fn lemma_part_of_part(a: Seq<XPathNode>, b: Seq<XPathNode>, c: Seq<XPathNode>)
    requires
        is_part(a, b),
        is_part(b, c),
    ensures
        is_part(a, c),
{
    let f = choose|at: Seq<int>| stand_at(a, at, b);
    let g = choose|at: Seq<int>| stand_at(b, at, c);
    let h = Seq::new(f.len(), |i: int| g[f[i]]);
    assert forall|i: int| 0 <= i < h.len() implies 0 <= #[trigger] h[i] < c.len() && a[i] == c[h[i]] by {
        assert(0 <= f[i] < b.len());
        assert(0 <= g[f[i]] < c.len());
    }
    assert forall|i: int, j: int| 0 <= i < j < h.len() implies h[i] < h[j] by {
        assert(f[i] < f[j]);
        assert(0 <= f[i] && f[j] < b.len());
    }
    assert(stand_at(a, h, c));
}

proof fn lemma_whole_is_part(a: Seq<XPathNode>)
    ensures
        is_part(a, a),
{
    let at = Seq::new(a.len(), |i: int| i);
    assert(stand_at(a, at, a));
}

/// The nodes that pass a test stay in order.
pub proof fn lemma_passing_part(ix: XmlIndex, nodes: Seq<XPathNode>, st: StepV, k: int) -> (at: Seq<int>)
    requires
        0 <= k <= nodes.len(),
    ensures
        stand_at(passing(ix, nodes, st.test, k), at, nodes),
        forall|i: int| 0 <= i < at.len() ==> #[trigger] at[i] < k,
    decreases k,
{
    if k == 0 {
        Seq::empty()
    } else {
        let before = lemma_passing_part(ix, nodes, st, k - 1);
        if passes(ix, nodes[k - 1], st.test) {
            before.push(k - 1)
        } else {
            before
        }
    }
}

/// The nodes that pass predicates stay in order.
pub proof fn lemma_filtered_part(
    ix: XmlIndex,
    o: Oracle,
    preds: Seq<ExprV>,
    k: int,
    nodes: Seq<XPathNode>,
)
    requires
        0 <= k <= preds.len(),
    ensures
        is_part(filter_all(ix, o, preds, k, nodes), nodes),
    decreases k,
{
    unfold_filter_all(ix, o, preds, k, nodes);
    if k == 0 {
        lemma_whole_is_part(nodes);
    } else {
        let before = filter_all(ix, o, preds, k - 1, nodes);
        let pred = preds[k - 1];
        lemma_filtered_part(ix, o, preds, k - 1, nodes);
        let now = filtered_by(ix, o, pred, before);
        if pred is Num {
            lemma_one_kept(ix, o, pred, before);
        } else {
            let at = lemma_predicate_keeps(ix, o, pred, before);
            assert(stand_at(now, at, before));
        }
        lemma_part_of_part(now, before, nodes);
    }
}

proof fn lemma_one_kept(ix: XmlIndex, o: Oracle, pred: ExprV, nodes: Seq<XPathNode>)
    requires
        pred is Num,
    ensures
        is_part(filtered_by(ix, o, pred, nodes), nodes),
{
    unfold_filtered_by(ix, o, pred, nodes);
    let now = filtered_by(ix, o, pred, nodes);
    if now.len() > 0 {
        let i = choose|i: int| 0 <= i < nodes.len() && now == seq![nodes[i]];
        assert(stand_at(now, seq![i], nodes));
    } else {
        assert(stand_at(now, Seq::empty(), nodes));
    }
}

/// What one node selects on a step is part of its axis, in the order of the axis.
pub proof fn lemma_step_part_of_axis(ix: XmlIndex, o: Oracle, node: XPathNode, st: StepV)
    requires
        st.axis != Axis::Attribute,
    ensures
        is_part(step_one(ix, o, node, st), along(ix, node, st.axis)),
{
    let all = along(ix, node, st.axis);
    let tested = tested_nodes(ix, node, st);
    unfold_step_one(ix, o, node, st);
    lemma_filtered_part(ix, o, st.preds, st.preds.len() as int, tested);
    assert(tested == passing(ix, all, st.test, all.len() as int));
    let at = lemma_passing_part(ix, all, st, all.len() as int);
    assert(stand_at(tested, at, all));
    lemma_part_of_part(step_one(ix, o, node, st), tested, all);
}

/// A step without predicates selects, from one node, the nodes on its axis that pass its
/// test.
pub proof fn lemma_step_by_test(ix: XmlIndex, o: Oracle, node: XPathNode, st: StepV, x: XPathNode)
    requires
        st.axis != Axis::Attribute,
        st.preds.len() == 0,
    ensures
        step_one(ix, o, node, st).contains(x) <==> along(ix, node, st.axis).contains(x) && passes(
            ix,
            x,
            st.test,
        ),
{
    let all = along(ix, node, st.axis);
    unfold_step_one(ix, o, node, st);
    unfold_filter_all(ix, o, st.preds, 0, tested_nodes(ix, node, st));
    lemma_passing_member(ix, all, st.test, all.len() as int, x);
    assert(all.take(all.len() as int) =~= all);
}

/// Part of a list in order is in order.
pub proof fn lemma_part_strict(ix: XmlIndex, a: Seq<XPathNode>, b: Seq<XPathNode>)
    requires
        is_part(a, b),
        all_stand(ix, b),
    ensures
        all_stand(ix, a),
        is_strict(ix, b) ==> is_strict(ix, a),
        is_strict(ix, b.reverse()) ==> is_strict(ix, a.reverse()),
{
    let at = choose|at: Seq<int>| stand_at(a, at, b);
    assert forall|k: int| 0 <= k < a.len() implies stands(ix, #[trigger] a[k]) by {
        assert(0 <= at[k] < b.len());
        assert(stands(ix, b[at[k]]));
    }
    if is_strict(ix, b) {
        assert forall|i: int, j: int| 0 <= i < j < a.len() implies doc_pos(ix, a[i]) < doc_pos(
            ix,
            a[j],
        ) by {
            assert(at[i] < at[j]);
            assert(0 <= at[i] && at[j] < b.len());
        }
    }
    let back = b.reverse();
    if is_strict(ix, back) {
        let out = a.reverse();
        let n = a.len() as int;
        let m = b.len() as int;
        assert forall|i: int, j: int| 0 <= i < j < out.len() implies doc_pos(ix, out[i]) < doc_pos(
            ix,
            out[j],
        ) by {
            let u = n - 1 - j;
            let v = n - 1 - i;
            assert(out[i] == a[v] && out[j] == a[u]);
            assert(at[u] < at[v]);
            assert(0 <= at[u] && at[v] < m);
            assert(back[m - 1 - at[v]] == b[at[v]]);
            assert(back[m - 1 - at[u]] == b[at[u]]);
        }
    }
}

/// Two lists in order without a common place, merged, are in order.
proof fn lemma_merged_strict(a: Seq<Placed>, b: Seq<Placed>)
    requires
        forall|i: int, j: int| 0 <= i < j < a.len() ==> a[i].0 < a[j].0,
        forall|i: int, j: int| 0 <= i < j < b.len() ==> b[i].0 < b[j].0,
        forall|i: int, j: int| 0 <= i < a.len() && 0 <= j < b.len() ==> a[i].0 != b[j].0,
    ensures
        forall|i: int, j: int|
            0 <= i < j < merge_placed(a, b).len() ==> merge_placed(a, b)[i].0 < merge_placed(
                a,
                b,
            )[j].0,
    decreases a.len() + b.len(),
{
    let all = merge_placed(a, b);
    if a.len() > 0 && b.len() > 0 {
        let (head, c, d) = if a[0].0 <= b[0].0 {
            (a[0], a.drop_first(), b)
        } else {
            (b[0], a, b.drop_first())
        };
        assert forall|i: int| 0 <= i < c.len() implies head.0 < #[trigger] c[i].0 by {
            if a[0].0 <= b[0].0 {
                assert(c[i] == a[i + 1]);
            } else if i > 0 {
                assert(a[0].0 < a[i].0);
            }
        }
        assert forall|i: int| 0 <= i < d.len() implies head.0 < #[trigger] d[i].0 by {
            assert(a[0].0 != b[0].0);
            if a[0].0 <= b[0].0 {
                if i > 0 {
                    assert(b[0].0 < b[i].0);
                }
            } else {
                assert(d[i] == b[i + 1]);
            }
        }
        assert forall|i: int, j: int| 0 <= i < j < c.len() implies c[i].0 < c[j].0 by {
            if a[0].0 <= b[0].0 {
                assert(c[i] == a[i + 1] && c[j] == a[j + 1]);
            }
        }
        assert forall|i: int, j: int| 0 <= i < j < d.len() implies d[i].0 < d[j].0 by {
            if !(a[0].0 <= b[0].0) {
                assert(d[i] == b[i + 1] && d[j] == b[j + 1]);
            }
        }
        assert forall|i: int, j: int| 0 <= i < c.len() && 0 <= j < d.len() implies c[i].0
            != d[j].0 by {
            if a[0].0 <= b[0].0 {
                assert(c[i] == a[i + 1]);
            } else {
                assert(d[j] == b[j + 1]);
            }
        }
        lemma_merged_strict(c, d);
        let rest = merge_placed(c, d);
        assert(all == seq![head] + rest);
        assert forall|i: int, j: int| 0 <= i < j < all.len() implies all[i].0 < all[j].0 by {
            assert(all[j] == rest[j - 1]);
            if i > 0 {
                assert(all[i] == rest[i - 1]);
            } else {
                assert(rest.contains(rest[j - 1]));
                lemma_merge_members(c, d, rest[j - 1]);
                if c.contains(rest[j - 1]) {
                    let w = choose|w: int| 0 <= w < c.len() && c[w] == rest[j - 1];
                    assert(head.0 < c[w].0);
                } else {
                    let w = choose|w: int| 0 <= w < d.len() && d[w] == rest[j - 1];
                    assert(head.0 < d[w].0);
                }
            }
        }
    }
}

/// The children of a node come in document order, each once.
pub proof fn lemma_children_in_order(ix: XmlIndex, node: XPathNode)
    requires
        is_faithful(ix),
        root_or_tag(ix, node),
    ensures
        is_strict(ix, along(ix, node, Axis::Child)),
        all_stand(ix, along(ix, node, Axis::Child)),
{
    lemma_children(ix, node, node);
    let p = node->Element_0;
    let n = ix.tags() as int;
    let m = ix.text_ranges@.len() as int;
    let all = child_axis(ix, node);
    let d = ix.doc();
    assert(ix.tags() == ix.tag_starts.len());
    assert(m == ix.text_ranges.len());
    if p == DOC_ROOT {
        lemma_pick_tags(ix, PickV::RootLevel, 0, n);
        assert forall|i: int, j: int| 0 <= i < j < all.len() implies doc_pos(ix, all[i]) < doc_pos(
            ix,
            all[j],
        ) by {
            let a = all[i]->Element_0 as int;
            let b = all[j]->Element_0 as int;
            assert(all[i] is Element && all[j] is Element);
            assert(d.starts[a] < d.starts[b]);
        }
    } else if ix.tabled() {
        let text_row = ix.text_row(p as int);
        let child_row = ix.child_row(p as int);
        let texts = row_nodes(text_row, true);
        let tags = row_nodes(child_row, false);
        assert(ix.child_offsets@[p as int] <= ix.child_offsets@[p + 1]);
        assert(ix.text_child_offsets@[p as int] <= ix.text_child_offsets@[p + 1]);
        assert(child_row == owned(child_owner(d), p as int, n));
        assert(text_row == owned(text_owner(d), p as int, m));
        lemma_owned(child_owner(d), p as int, n);
        lemma_owned(text_owner(d), p as int, m);
        let a = placed(ix, texts);
        let b = placed(ix, tags);
        assert forall|i: int, j: int| 0 <= i < j < a.len() implies a[i].0 < a[j].0 by {
            assert(text_row[i] < text_row[j]);
            assert(text_row[j] < m && text_row[i] < m);
            assert(d.texts[text_row[i] as int].start < d.texts[text_row[j] as int].start);
        }
        assert forall|i: int, j: int| 0 <= i < j < b.len() implies b[i].0 < b[j].0 by {
            assert(child_row[i] < child_row[j]);
            assert(child_row[j] < n && child_row[i] < n);
            assert(d.starts[child_row[i] as int] < d.starts[child_row[j] as int]);
        }
        assert forall|i: int, j: int| 0 <= i < a.len() && 0 <= j < b.len() implies a[i].0
            != b[j].0 by {
            assert(text_row[i] < m && child_row[j] < n);
            assert(d.texts[text_row[i] as int].start != d.starts[child_row[j] as int]);
        }
        lemma_merged_strict(a, b);
        let merged = merge_placed(a, b);
        assert(all == unplaced(merged));
        assert forall|i: int| 0 <= i < merged.len() implies (#[trigger] merged[i]).0 == doc_pos(
            ix,
            merged[i].1,
        ) by {
            assert(merged.contains(merged[i]));
            lemma_merge_members(a, b, merged[i]);
            if a.contains(merged[i]) {
                let w = choose|w: int| 0 <= w < a.len() && a[w] == merged[i];
                assert(a[w].0 == doc_pos(ix, a[w].1));
            } else {
                let w = choose|w: int| 0 <= w < b.len() && b[w] == merged[i];
                assert(b[w].0 == doc_pos(ix, b[w].1));
            }
        }
        assert forall|i: int, j: int| 0 <= i < j < all.len() implies doc_pos(ix, all[i]) < doc_pos(
            ix,
            all[j],
        ) by {
            assert(merged[i].0 < merged[j].0);
        }
    } else {
        let entry = p as u32;
        assert((p as int % 0x1_0000_0000) as u32 == entry);
        let some = pick_tags(ix, PickV::Under(entry), 0, n) + pick_texts(
            ix,
            TextPick::Under(entry),
            m,
        );
        lemma_picked(ix, PickV::Under(entry), 0, n, TextPick::Under(entry), node);
        lemma_ordered_list(ix, some);
        assert(all == in_doc_order(ix, some));
    }
}

/// Going up the parents leads to ever earlier places.
proof fn lemma_chain_back(ix: XmlIndex, tag: u32)
    requires
        ix.wf(),
        ix.tables_fit(),
    ensures
        all_stand(ix, chain(ix, tag)),
        forall|i: int, j: int|
            0 <= i < j < chain(ix, tag).len() ==> doc_pos(ix, chain(ix, tag)[j]) < doc_pos(
                ix,
                chain(ix, tag)[i],
            ),
        forall|i: int|
            0 <= i < chain(ix, tag).len() ==> 0 < doc_pos(ix, #[trigger] chain(ix, tag)[i])
                && doc_pos(ix, chain(ix, tag)[i]) <= doc_pos(ix, XPathNode::Element(tag as usize)),
    decreases tag,
{
    assert(ix.tags() == ix.tag_starts.len());
    let all = chain(ix, tag);
    if tag != u32::MAX && tag < ix.tags() {
        let up = ix.parents@[tag as int];
        let d = ix.doc();
        assert(d.parents[tag as int] == up);
        let head = XPathNode::Element(tag as usize);
        if up < tag {
            lemma_chain_back(ix, up);
            let rest = chain(ix, up);
            assert(all == seq![head] + rest);
            assert(d.starts[up as int] < d.starts[tag as int]);
            assert forall|i: int| 0 < i < all.len() implies #[trigger] all[i] == rest[i - 1] by {}
        } else {
            assert(all =~= seq![head]);
        }
    }
}

proof fn lemma_ancestors_back(ix: XmlIndex, node: XPathNode, with_self: bool)
    requires
        is_faithful(ix),
        stands(ix, node),
    ensures
        all_stand(ix, ancestor_axis(ix, node, with_self)),
        is_strict(ix, ancestor_axis(ix, node, with_self).reverse()),
{
    assert(ix.tags() == ix.tag_starts.len());
    assert(ix.text_ranges@.len() == ix.text_ranges.len());
    let root = XPathNode::Element(DOC_ROOT);
    let all = ancestor_axis(ix, node, with_self);
    let d = ix.doc();
    let start = ancestor_start(ix, node);
    let up = chain(ix, start);
    lemma_chain_back(ix, start);
    let own = if with_self {
        seq![node]
    } else {
        Seq::empty()
    };
    let top = if node == root {
        Seq::empty()
    } else {
        seq![root]
    };
    assert(all == own + up + top);
    if node == root {
        assert(up.len() == 0);
    } else {
        assert forall|i: int| 0 <= i < up.len() implies doc_pos(ix, #[trigger] up[i]) < doc_pos(
            ix,
            node,
        ) by {
            match node {
                XPathNode::Element(j) => {
                    assert(d.parents[j as int] == start);
                    assert(start < ix.tags());
                    assert(d.starts[start as int] < d.starts[j as int]);
                },
                XPathNode::Text(t) => {
                    assert(d.texts[t as int].parent_tag == start);
                    assert(start < ix.tags());
                    assert(in_open_tag(d, d.texts[t as int]));
                },
                _ => {},
            }
        }
    }
    assert forall|k: int| 0 <= k < all.len() implies stands(ix, #[trigger] all[k]) by {
        let m = own.len() as int;
        if k >= m && k < m + up.len() {
            assert(all[k] == up[k - m]);
        }
    }
    assert forall|i: int, j: int| 0 <= i < j < all.len() implies doc_pos(ix, all[j]) < doc_pos(
        ix,
        all[i],
    ) by {
        let m = own.len() as int;
        if m <= i < m + up.len() {
            assert(all[i] == up[i - m]);
        }
        if m <= j < m + up.len() {
            assert(all[j] == up[j - m]);
        }
    }
    let back = all.reverse();
    let n = all.len() as int;
    assert forall|i: int, j: int| 0 <= i < j < back.len() implies doc_pos(ix, back[i]) < doc_pos(
        ix,
        back[j],
    ) by {
        assert(back[i] == all[n - 1 - i] && back[j] == all[n - 1 - j]);
    }
}

/// The nodes on an axis are in document order, or against it on the axes that list the
/// nearest node first: ancestors and what precedes.
pub proof fn lemma_axis_in_order(ix: XmlIndex, node: XPathNode, axis: Axis)
    requires
        is_faithful(ix),
        stands(ix, node),
        axis != Axis::Attribute,
        axis != Axis::Namespace,
    ensures
        all_stand(ix, along(ix, node, axis)),
        axis == Axis::Ancestor || axis == Axis::AncestorOrSelf || axis == Axis::Preceding || axis
            == Axis::PrecedingSibling ==> is_strict(ix, along(ix, node, axis).reverse()),
        !(axis == Axis::Ancestor || axis == Axis::AncestorOrSelf || axis == Axis::Preceding || axis
            == Axis::PrecedingSibling) ==> is_strict(ix, along(ix, node, axis)),
{
    assert(ix.tags() == ix.tag_starts.len());
    assert(ix.text_ranges@.len() == ix.text_ranges.len());
    let all = along(ix, node, axis);
    match axis {
        Axis::Child => {
            if node is Element {
                lemma_children_in_order(ix, node);
            }
        },
        Axis::Descendant => {
            if node is Element {
                lemma_descendants(ix, node, false, node);
            }
        },
        Axis::DescendantOrSelf => {
            if node is Element {
                lemma_descendants(ix, node, true, node);
            }
        },
        Axis::Parent => {
            match node {
                XPathNode::Element(i) => if i != DOC_ROOT {
                    assert(ix.doc().parents[i as int] == ix.parents@[i as int]);
                },
                XPathNode::Text(t) => {
                    assert(ix.doc().texts[t as int] == ix.text_ranges@[t as int]);
                },
                _ => {},
            }
        },
        Axis::Ancestor => {
            lemma_ancestors_back(ix, node, false);
        },
        Axis::AncestorOrSelf => {
            lemma_ancestors_back(ix, node, true);
        },
        Axis::FollowingSibling => {
            if let Some((parent, at)) = place(ix, node) {
                lemma_pick_list(
                    ix,
                    PickV::UnderAfter(parent, at),
                    TextPick::UnderAfter(parent, at),
                    parent != u32::MAX,
                    node,
                );
            }
        },
        Axis::PrecedingSibling => {
            if let Some((parent, at)) = place(ix, node) {
                lemma_pick_list(
                    ix,
                    PickV::UnderBefore(parent, at),
                    TextPick::UnderBefore(parent, at),
                    parent != u32::MAX,
                    node,
                );
                lemma_back_and_forth(ix, all);
            } else {
                assert(all.reverse() =~= all);
            }
        },
        Axis::Following => {
            if let Some(at) = last_start(ix, node) {
                lemma_pick_list(ix, PickV::After(at), TextPick::After(at), true, node);
            }
        },
        Axis::Preceding => {
            if let Some((parent, at)) = first_start(ix, node) {
                lemma_pick_list(ix, PickV::Apart(parent, at), TextPick::Before(at), true, node);
                lemma_back_and_forth(ix, all);
            } else {
                assert(all.reverse() =~= all);
            }
        },
        _ => {},
    }
}

/// Turning a list round keeps its nodes.
proof fn lemma_back_and_forth(ix: XmlIndex, all: Seq<XPathNode>)
    ensures
        all_stand(ix, all.reverse()) <==> all_stand(ix, all),
        all.reverse().reverse() == all,
{
    let back = all.reverse();
    let n = all.len() as int;
    assert(back.reverse() =~= all);
    if all_stand(ix, back) {
        assert forall|k: int| 0 <= k < all.len() implies stands(ix, #[trigger] all[k]) by {
            assert(back[n - 1 - k] == all[k]);
        }
    }
    if all_stand(ix, all) {
        assert forall|k: int| 0 <= k < back.len() implies stands(ix, #[trigger] back[k]) by {
            assert(back[k] == all[n - 1 - k]);
        }
    }
}

/// What a step selects from nodes is what it selects from each of them.
pub proof fn lemma_step_from_each(
    ix: XmlIndex,
    o: Oracle,
    ctx: Seq<XPathNode>,
    st: StepV,
    k: int,
    x: XPathNode,
)
    requires
        0 <= k <= ctx.len(),
    ensures
        step_over(ix, o, ctx, st, k).contains(x) <==> exists|c: int|
            0 <= c < k && #[trigger] step_one(ix, o, ctx[c], st).contains(x),
    decreases k,
{
    unfold_step_over(ix, o, ctx, st, k);
    if k > 0 {
        lemma_step_from_each(ix, o, ctx, st, k - 1, x);
        let before = step_over(ix, o, ctx, st, k - 1);
        let more = step_one(ix, o, ctx[k - 1], st);
        lemma_add_member(before, more, x);
        if before.contains(x) {
            let c = choose|c: int|
                0 <= c < k - 1 && #[trigger] step_one(ix, o, ctx[c], st).contains(x);
            assert(step_one(ix, o, ctx[c], st).contains(x));
        }
    }
}

/// A step selects what it selects from each node of the context, each node once and in
/// document order.
pub proof fn lemma_step_in_order(
    ix: XmlIndex,
    o: Oracle,
    ctx: Seq<XPathNode>,
    st: StepV,
    x: XPathNode,
)
    requires
        is_faithful(ix),
        all_stand(ix, ctx),
        st.axis != Axis::Attribute,
        st.axis != Axis::Namespace,
    ensures
        is_strict(ix, step_nodes(ix, o, ctx, st)),
        all_stand(ix, step_nodes(ix, o, ctx, st)),
        step_nodes(ix, o, ctx, st).contains(x) <==> exists|c: int|
            0 <= c < ctx.len() && #[trigger] step_one(ix, o, ctx[c], st).contains(x),
{
    let n = ctx.len() as int;
    let over = step_over(ix, o, ctx, st, n);
    unfold_step_nodes(ix, o, ctx, st);
    lemma_step_from_each(ix, o, ctx, st, n, x);
    assert forall|c: int| 0 <= c < n implies all_stand(
        ix,
        #[trigger] step_one(ix, o, ctx[c], st),
    ) by {
        assert(stands(ix, ctx[c]));
        lemma_axis_in_order(ix, ctx[c], st.axis);
        lemma_step_part_of_axis(ix, o, ctx[c], st);
        lemma_part_strict(ix, step_one(ix, o, ctx[c], st), along(ix, ctx[c], st.axis));
    }
    assert forall|k: int| 0 <= k < over.len() implies stands(ix, #[trigger] over[k]) by {
        assert(over.contains(over[k]));
        lemma_step_from_each(ix, o, ctx, st, n, over[k]);
        let c = choose|c: int|
            0 <= c < n && #[trigger] step_one(ix, o, ctx[c], st).contains(over[k]);
        let some = step_one(ix, o, ctx[c], st);
        assert(all_stand(ix, some));
        let w = choose|w: int| 0 <= w < some.len() && some[w] == over[k];
        assert(stands(ix, some[w]));
    }
    if n > 1 {
        lemma_tidied_list(ix, over);
    } else if n == 1 {
        unfold_step_over(ix, o, ctx, st, 1);
        unfold_step_over(ix, o, ctx, st, 0);
        let one = step_one(ix, o, ctx[0], st);
        assert(over =~= one);
        assert(stands(ix, ctx[0]));
        lemma_axis_in_order(ix, ctx[0], st.axis);
        lemma_step_part_of_axis(ix, o, ctx[0], st);
        lemma_part_strict(ix, one, along(ix, ctx[0], st.axis));
        lemma_back_and_forth(ix, over);
        lemma_turned_member(over, x);
    } else {
        unfold_step_over(ix, o, ctx, st, 0);
        assert(over.reverse() =~= over);
    }
}

/// Turning a list round keeps its members.
pub proof fn lemma_turned_member(all: Seq<XPathNode>, x: XPathNode)
    ensures
        all.reverse().contains(x) <==> all.contains(x),
{
    let back = all.reverse();
    let n = all.len() as int;
    if all.contains(x) {
        let k = choose|k: int| 0 <= k < n && all[k] == x;
        assert(back[n - 1 - k] == x);
    }
    if back.contains(x) {
        let k = choose|k: int| 0 <= k < n && back[k] == x;
        assert(all[n - 1 - k] == x);
    }
}

/// Steps apply one after the other, each to what those before it have selected.
pub proof fn lemma_steps_in_turn(
    ix: XmlIndex,
    o: Oracle,
    steps: Seq<StepV>,
    last: StepV,
    i: int,
    ctx: Seq<XPathNode>,
)
    requires
        0 <= i <= steps.len(),
    ensures
        steps_from(ix, o, steps, steps.len() as int, ctx) == ctx,
        steps_from(ix, o, steps.push(last), i, ctx) == step_nodes(
            ix,
            o,
            steps_from(ix, o, steps, i, ctx),
            last,
        ),
    decreases steps.len() - i,
{
    let all = steps.push(last);
    unfold_steps_from(ix, o, steps, steps.len() as int, ctx);
    unfold_steps_from(ix, o, steps, i, ctx);
    unfold_steps_from(ix, o, all, i, ctx);
    if i < steps.len() {
        assert(all[i] == steps[i]);
        lemma_steps_in_turn(ix, o, steps, last, i + 1, step_nodes(ix, o, ctx, steps[i]));
    } else {
        assert(all[i] == last);
        unfold_steps_from(ix, o, all, i + 1, step_nodes(ix, o, ctx, last));
    }
}

/// An absolute path selects the same from every node: what it selects from the document
/// root.
pub proof fn lemma_absolute_paths(
    ix: XmlIndex,
    o: Oracle,
    steps: Seq<StepV>,
    a: XPathNode,
    b: XPathNode,
)
    ensures
        in_context(ix, o, ExprV::Path(true, steps), a) == in_context(
            ix,
            o,
            ExprV::Path(true, steps),
            b,
        ),
        query(ix, o, ExprV::Path(true, steps)) == Some(
            in_context(ix, o, ExprV::Path(true, steps), a),
        ),
        query_from(ix, o, ExprV::Path(true, steps), a) == query(ix, o, ExprV::Path(true, steps)),
        query(ix, o, ExprV::Path(false, steps)) == query(ix, o, ExprV::Path(true, steps)),
        query_from(ix, o, ExprV::Path(false, steps), XPathNode::Element(DOC_ROOT)) == query(
            ix,
            o,
            ExprV::Path(true, steps),
        ),
{
    let e = ExprV::Path(true, steps);
    let r = ExprV::Path(false, steps);
    unfold_in_context(ix, o, e, a);
    unfold_in_context(ix, o, e, b);
    unfold_query(ix, o, e);
    unfold_query(ix, o, r);
    unfold_query_from(ix, o, e, a);
    unfold_query_from(ix, o, r, XPathNode::Element(DOC_ROOT));
}

/// A filter selects from what the expression before it selects: steps go on from there,
/// and predicates apply to all of it at once.
pub proof fn lemma_filters(
    ix: XmlIndex,
    o: Oracle,
    inner: ExprV,
    steps: Seq<StepV>,
    preds: Seq<ExprV>,
    found: Seq<XPathNode>,
)
    requires
        query(ix, o, inner) == Some(found),
    ensures
        query(ix, o, ExprV::FilterPath(Box::new(inner), steps)) == Some(
            steps_from(ix, o, steps, 0, found),
        ),
        query(ix, o, ExprV::GlobalFilter(Box::new(inner), preds)) == Some(
            filter_all(ix, o, preds, preds.len() as int, found),
        ),
        is_part(filter_all(ix, o, preds, preds.len() as int, found), found),
{
    unfold_query(ix, o, ExprV::FilterPath(Box::new(inner), steps));
    unfold_query(ix, o, ExprV::GlobalFilter(Box::new(inner), preds));
    lemma_filtered_part(ix, o, preds, preds.len() as int, found);
}

} // verus!
