//! The order and the number of the parts of a union make no difference.

use vstd::prelude::*;
use crate::index::text_laws::texts_placed;
use crate::index::XmlIndex;
use crate::xpath::ast::ExprV;
use crate::xpath::laws::{has_no_duplicates, is_in_order, lemma_union, selected_by_part};
use crate::xpath::nodes::{dedup_key, doc_pos, key_seen, XPathNode};
use crate::xpath::numbers::Oracle;
use crate::xpath::scope_laws::{
    all_stand, is_strict, lemma_add_member, lemma_places_differ, lemma_same_list,
    lemma_tidied_nodes, same_nodes,
};
use crate::xpath::semantics::{in_context, parts_in_context, query, tidy};
use crate::xpath::semantics_unfold::{unfold_in_context, unfold_parts_in_context};

verus! {

/// A union holds the nodes that its parts select, and no others.
proof fn lemma_union_nodes(
    ix: XmlIndex,
    o: Oracle,
    parts: Seq<ExprV>,
    found: Seq<XPathNode>,
    x: XPathNode,
)
    requires
        query(ix, o, ExprV::Union(parts)) == Some(found),
    ensures
        found.contains(x) <==> selected_by_part(ix, o, parts, parts.len() as int, x),
        forall|p: int| 0 <= p < parts.len() ==> #[trigger] query(ix, o, parts[p]) is Some,
{
    lemma_union(ix, o, parts, found);
    if found.contains(x) {
        let k = choose|k: int| 0 <= k < found.len() && found[k] == x;
        assert(selected_by_part(ix, o, parts, parts.len() as int, found[k]));
    }
    if selected_by_part(ix, o, parts, parts.len() as int, x) {
        let p = choose|p: int|
            0 <= p < parts.len() && (#[trigger] query(ix, o, parts[p]) matches Some(some)
                && some.contains(x));
        let some = query(ix, o, parts[p])->0;
        let j = choose|j: int| 0 <= j < some.len() && some[j] == x;
        assert(key_seen(found, found.len() as int, dedup_key(some[j])));
        let k = choose|k: int| 0 <= k < found.len() && dedup_key(#[trigger] found[k]) == dedup_key(x);
        assert(found[k] == x);
    }
}

/// Lists without duplicates that hold the same nodes are equally long.
proof fn lemma_same_length(a: Seq<XPathNode>, b: Seq<XPathNode>)
    requires
        has_no_duplicates(a),
        has_no_duplicates(b),
        same_nodes(a, b),
    ensures
        a.len() == b.len(),
{
    assert forall|i: int, j: int| 0 <= i < j < a.len() implies a[i] != a[j] by {
        assert(dedup_key(a[i]) != dedup_key(a[j]));
    }
    assert forall|i: int, j: int| 0 <= i < j < b.len() implies b[i] != b[j] by {
        assert(dedup_key(b[i]) != dedup_key(b[j]));
    }
    a.unique_seq_to_set();
    b.unique_seq_to_set();
    assert(a.to_set() =~= b.to_set()) by {
        assert forall|x: XPathNode| #[trigger] a.to_set().contains(x) <==> b.to_set().contains(x) by {
            assert(a.contains(x) <==> b.contains(x));
        }
    }
}

/// Nodes in order without duplicates, none of them an attribute or a namespace, stand
/// one before the other.
proof fn lemma_strict(ix: XmlIndex, nodes: Seq<XPathNode>)
    requires
        ix.wf(),
        texts_placed(ix.doc()),
        all_stand(ix, nodes),
        is_in_order(ix, nodes),
        has_no_duplicates(nodes),
    ensures
        is_strict(ix, nodes),
{
    assert forall|i: int, j: int| 0 <= i < j < nodes.len() implies doc_pos(ix, nodes[i]) < doc_pos(
        ix,
        nodes[j],
    ) by {
        assert(doc_pos(ix, nodes[i]) <= doc_pos(ix, nodes[j]));
        assert(dedup_key(nodes[i]) != dedup_key(nodes[j]));
        if doc_pos(ix, nodes[i]) == doc_pos(ix, nodes[j]) {
            lemma_places_differ(ix, nodes[i], nodes[j]);
        }
    }
}

/// Unions of the same parts, in any order and each any number of times, select the
/// same nodes, each once. Where these are tags and texts, they come in the same order;
/// attributes of one element, which have no order, may not.
pub proof fn lemma_parts_of_unions(
    ix: XmlIndex,
    o: Oracle,
    parts: Seq<ExprV>,
    others: Seq<ExprV>,
    found: Seq<XPathNode>,
    again: Seq<XPathNode>,
)
    requires
        query(ix, o, ExprV::Union(parts)) == Some(found),
        query(ix, o, ExprV::Union(others)) == Some(again),
        forall|p: int| 0 <= p < parts.len() ==> others.contains(#[trigger] parts[p]),
        forall|p: int| 0 <= p < others.len() ==> parts.contains(#[trigger] others[p]),
    ensures
        same_nodes(found, again),
        found.len() == again.len(),
        ix.wf() && texts_placed(ix.doc()) && all_stand(ix, found) ==> found == again,
{
    lemma_union(ix, o, parts, found);
    lemma_union(ix, o, others, again);
    assert forall|x: XPathNode| #[trigger] found.contains(x) <==> again.contains(x) by {
        lemma_union_nodes(ix, o, parts, found, x);
        lemma_union_nodes(ix, o, others, again, x);
        lemma_selected_among(ix, o, parts, others, x);
        lemma_selected_among(ix, o, others, parts, x);
    }
    lemma_same_length(found, again);
    if ix.wf() && texts_placed(ix.doc()) && all_stand(ix, found) {
        assert(all_stand(ix, again)) by {
            assert forall|k: int| 0 <= k < again.len() implies crate::xpath::scope_laws::stands(
                ix,
                #[trigger] again[k],
            ) by {
                assert(again.contains(again[k]));
                assert(found.contains(again[k]));
                let w = choose|w: int| 0 <= w < found.len() && found[w] == again[k];
                assert(crate::xpath::scope_laws::stands(ix, found[w]));
            }
        }
        lemma_strict(ix, found);
        lemma_strict(ix, again);
        lemma_same_list(ix, found, again);
    }
}

/// What one of some parts selects, one of the same parts selects.
proof fn lemma_selected_among(
    ix: XmlIndex,
    o: Oracle,
    parts: Seq<ExprV>,
    others: Seq<ExprV>,
    x: XPathNode,
)
    requires
        forall|p: int| 0 <= p < parts.len() ==> others.contains(#[trigger] parts[p]),
    ensures
        selected_by_part(ix, o, parts, parts.len() as int, x) ==> selected_by_part(
            ix,
            o,
            others,
            others.len() as int,
            x,
        ),
{
    if selected_by_part(ix, o, parts, parts.len() as int, x) {
        let p = choose|p: int|
            0 <= p < parts.len() && (#[trigger] query(ix, o, parts[p]) matches Some(some)
                && some.contains(x));
        assert(others.contains(parts[p]));
        let q = choose|q: int| 0 <= q < others.len() && others[q] == parts[p];
        assert(query(ix, o, others[q]) is Some);
    }
}

/// Swapping the parts of a union changes nothing: `p | q` and `q | p` select the same
/// nodes.
pub proof fn lemma_union_swapped(
    ix: XmlIndex,
    o: Oracle,
    p: ExprV,
    q: ExprV,
    found: Seq<XPathNode>,
    again: Seq<XPathNode>,
)
    requires
        query(ix, o, ExprV::Union(seq![p, q])) == Some(found),
        query(ix, o, ExprV::Union(seq![q, p])) == Some(again),
    ensures
        same_nodes(found, again),
        found.len() == again.len(),
        ix.wf() && texts_placed(ix.doc()) && all_stand(ix, found) ==> found == again,
{
    let parts = seq![p, q];
    let others = seq![q, p];
    assert(parts[0] == p && parts[1] == q && others[0] == q && others[1] == p);
    lemma_parts_of_unions(ix, o, parts, others, found, again);
}

/// Repeating a part adds nothing: `p | p` selects the nodes that `p` selects, each
/// once.
pub proof fn lemma_union_repeated(
    ix: XmlIndex,
    o: Oracle,
    p: ExprV,
    nodes: Seq<XPathNode>,
    found: Seq<XPathNode>,
)
    requires
        query(ix, o, p) == Some(nodes),
        query(ix, o, ExprV::Union(seq![p, p])) == Some(found),
    ensures
        same_nodes(found, nodes),
        has_no_duplicates(found),
        is_in_order(ix, found),
{
    let parts = seq![p, p];
    lemma_union(ix, o, parts, found);
    assert forall|x: XPathNode| #[trigger] found.contains(x) <==> nodes.contains(x) by {
        lemma_union_nodes(ix, o, parts, found, x);
        if nodes.contains(x) {
            assert(query(ix, o, parts[0]) == Some(nodes));
        }
        if selected_by_part(ix, o, parts, 2, x) {
            let k = choose|k: int|
                0 <= k < 2 && (#[trigger] query(ix, o, parts[k]) matches Some(some)
                    && some.contains(x));
            assert(parts[k] == p);
        }
    }
}

/// In a context too, a union selects what its parts select, each node once.
pub proof fn lemma_union_in_context(
    ix: XmlIndex,
    o: Oracle,
    parts: Seq<ExprV>,
    node: XPathNode,
    x: XPathNode,
)
    ensures
        in_context(ix, o, ExprV::Union(parts), node).contains(x) <==> exists|k: int|
            0 <= k < parts.len() && #[trigger] in_context(ix, o, parts[k], node).contains(x),
{
    unfold_in_context(ix, o, ExprV::Union(parts), node);
    let all = parts_in_context(ix, o, parts, node, parts.len() as int);
    lemma_tidied_nodes(ix, all);
    assert(tidy(ix, all).contains(x) <==> all.contains(x));
    lemma_parts_in_context(ix, o, parts, node, parts.len() as int, x);
}

proof fn lemma_parts_in_context(
    ix: XmlIndex,
    o: Oracle,
    parts: Seq<ExprV>,
    node: XPathNode,
    k: int,
    x: XPathNode,
)
    requires
        0 <= k <= parts.len(),
    ensures
        parts_in_context(ix, o, parts, node, k).contains(x) <==> exists|j: int|
            0 <= j < k && #[trigger] in_context(ix, o, parts[j], node).contains(x),
    decreases k,
{
    unfold_parts_in_context(ix, o, parts, node, k);
    if k > 0 {
        lemma_parts_in_context(ix, o, parts, node, k - 1, x);
        lemma_add_member(
            parts_in_context(ix, o, parts, node, k - 1),
            in_context(ix, o, parts[k - 1], node),
            x,
        );
        if exists|j: int|
            0 <= j < k - 1 && #[trigger] in_context(ix, o, parts[j], node).contains(x) {
            let j = choose|j: int|
                0 <= j < k - 1 && #[trigger] in_context(ix, o, parts[j], node).contains(x);
            assert(in_context(ix, o, parts[j], node).contains(x));
        }
    }
}

} // verus!
