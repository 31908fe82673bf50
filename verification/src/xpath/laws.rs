//! What holds of every query.

use vstd::prelude::*;
use vstd::utf8::encode_utf8;
use crate::index::XmlIndex;
use crate::xpath::ast::ExprV;
use crate::xpath::nodes::{
    dedup_key, distinct, doc_pos, in_doc_order, key_seen, lemma_sort_multiset, lemma_sort_sorted,
    placed, sort_placed, Placed, XPathNode,
};
use crate::xpath::numbers::Oracle;
use crate::xpath::semantics::{query, query_parts, tidy};
use crate::xpath::semantics_unfold::{unfold_query, unfold_query_parts};

verus! {

// Order and duplicates.

/// The nodes stand in document order.
pub open spec fn is_in_order(ix: XmlIndex, nodes: Seq<XPathNode>) -> bool {
    forall|i: int, j: int|
        0 <= i <= j < nodes.len() ==> doc_pos(ix, nodes[i]) <= doc_pos(ix, nodes[j])
}

/// No two nodes are the same.
pub open spec fn has_no_duplicates(nodes: Seq<XPathNode>) -> bool {
    forall|i: int, j: int|
        0 <= i < j < nodes.len() ==> dedup_key(nodes[i]) != dedup_key(nodes[j])
}

proof fn lemma_distinct(nodes: Seq<XPathNode>, k: int)
    requires
        0 <= k <= nodes.len(),
    ensures
        has_no_duplicates(distinct(nodes, k)),
        forall|i: int|
            0 <= i < distinct(nodes, k).len() ==> nodes.take(k).contains(
                #[trigger] distinct(nodes, k)[i],
            ),
        forall|j: int|
            0 <= j < k ==> key_seen(
                distinct(nodes, k),
                distinct(nodes, k).len() as int,
                dedup_key(#[trigger] nodes[j]),
            ),
    decreases k,
{
    if k > 0 {
        lemma_distinct(nodes, k - 1);
        let before = distinct(nodes, k - 1);
        let all = distinct(nodes, k);
        let key = dedup_key(nodes[k - 1]);
        assert forall|i: int| 0 <= i < all.len() implies nodes.take(k).contains(
            #[trigger] all[i],
        ) by {
            if i < before.len() {
                assert(before[i] == all[i]);
                let head = nodes.take(k - 1);
                let j = choose|j: int| 0 <= j < head.len() && head[j] == before[i];
                assert(nodes.take(k)[j] == all[i]);
            } else {
                assert(nodes.take(k)[k - 1] == all[i]);
            }
        }
        assert forall|i: int, j: int| 0 <= i < j < all.len() implies dedup_key(all[i])
            != dedup_key(all[j]) by {
            if j == before.len() {
                let head = nodes.take(k - 1);
                let m = choose|m: int| 0 <= m < head.len() && head[m] == before[i];
                assert(dedup_key(nodes[m]) == dedup_key(before[i]));
            }
        }
        assert forall|j: int| 0 <= j < k implies key_seen(
            all,
            all.len() as int,
            dedup_key(#[trigger] nodes[j]),
        ) by {
            if key_seen(nodes, k - 1, key) || j < k - 1 {
                let m = if j < k - 1 {
                    j
                } else {
                    choose|m: int| 0 <= m < k - 1 && dedup_key(#[trigger] nodes[m]) == key
                };
                assert(key_seen(before, before.len() as int, dedup_key(nodes[m])));
                let w = choose|w: int|
                    0 <= w < before.len() && dedup_key(#[trigger] before[w]) == dedup_key(
                        nodes[m],
                    );
                assert(all[w] == before[w]);
            } else {
                assert(all[all.len() - 1] == nodes[k - 1]);
            }
        }
    }
}

/// Sorting into document order keeps the nodes and orders them.
pub proof fn lemma_in_doc_order(ix: XmlIndex, nodes: Seq<XPathNode>)
    ensures
        is_in_order(ix, in_doc_order(ix, nodes)),
        in_doc_order(ix, nodes).to_multiset() == nodes.to_multiset(),
{
    broadcast use vstd::seq_lib::group_to_multiset_ensures;

    let items = placed(ix, nodes);
    let sorted = sort_placed(items);
    let out = in_doc_order(ix, nodes);
    lemma_sort_multiset(items);
    lemma_sort_sorted(items);
    assert forall|i: int| 0 <= i < sorted.len() implies (#[trigger] sorted[i]).0 == doc_pos(
        ix,
        sorted[i].1,
    ) by {
        assert(sorted.to_multiset().count(sorted[i]) > 0);
        assert(items.contains(sorted[i]));
    }
    assert forall|i: int, j: int| 0 <= i <= j < out.len() implies doc_pos(ix, out[i]) <= doc_pos(
        ix,
        out[j],
    ) by {
        assert(sorted[i].0 <= sorted[j].0);
    }
    lemma_same_items(sorted, items);
    assert(items.map_values(|p: Placed| p.1) =~= nodes);
}

/// Lists with the same placed nodes have the same nodes.
proof fn lemma_same_items(a: Seq<Placed>, b: Seq<Placed>)
    requires
        a.to_multiset() == b.to_multiset(),
    ensures
        a.map_values(|p: Placed| p.1).to_multiset() == b.map_values(|p: Placed| p.1).to_multiset(),
    decreases a.len(),
{
    broadcast use vstd::seq_lib::group_to_multiset_ensures;

    let f = |p: Placed| p.1;
    if a.len() == 0 {
        assert(a.to_multiset().len() == 0 && b.to_multiset().len() == b.len());
        assert(a.map_values(f) =~= b.map_values(f));
    } else {
        let x = a.last();
        assert(b.to_multiset().count(x) > 0) by {
            assert(a.to_multiset().count(x) > 0);
        }
        let i = choose|i: int| 0 <= i < b.len() && b[i] == x;
        let c = b.remove(i);
        assert(a.drop_last().push(x) =~= a);
        assert(c.to_multiset() =~= b.to_multiset().remove(x));
        assert(a.drop_last().to_multiset() =~= a.to_multiset().remove(x));
        lemma_same_items(a.drop_last(), c);
        assert(a.map_values(f) =~= a.drop_last().map_values(f).push(f(x)));
        assert(b.map_values(f).remove(i) =~= c.map_values(f));
        assert(b.map_values(f)[i] == f(x));
        assert(b.map_values(f).to_multiset() =~= c.map_values(f).to_multiset().insert(f(x)));
    }
}

/// A tidied node set is in document order, has no duplicates, and holds the same
/// nodes.
pub proof fn lemma_tidy(ix: XmlIndex, nodes: Seq<XPathNode>)
    ensures
        is_in_order(ix, tidy(ix, nodes)),
        has_no_duplicates(tidy(ix, nodes)),
        forall|i: int| 0 <= i < tidy(ix, nodes).len() ==> nodes.contains(#[trigger] tidy(ix, nodes)[i]),
        forall|j: int|
            0 <= j < nodes.len() ==> key_seen(
                tidy(ix, nodes),
                tidy(ix, nodes).len() as int,
                dedup_key(#[trigger] nodes[j]),
            ),
{
    broadcast use vstd::seq_lib::group_to_multiset_ensures;

    let once = distinct(nodes, nodes.len() as int);
    let out = tidy(ix, nodes);
    lemma_distinct(nodes, nodes.len() as int);
    lemma_in_doc_order(ix, once);
    assert(nodes.take(nodes.len() as int) =~= nodes);
    assert forall|i: int| 0 <= i < out.len() implies nodes.contains(#[trigger] out[i]) by {
        assert(out.to_multiset().count(out[i]) > 0);
        assert(once.contains(out[i]));
        let w = choose|w: int| 0 <= w < once.len() && once[w] == out[i];
        assert(nodes.contains(once[w]));
    }
    assert forall|j: int| 0 <= j < nodes.len() implies key_seen(
        out,
        out.len() as int,
        dedup_key(#[trigger] nodes[j]),
    ) by {
        let w = choose|w: int|
            0 <= w < once.len() && dedup_key(#[trigger] once[w]) == dedup_key(nodes[j]);
        assert(once.to_multiset().count(once[w]) > 0);
        assert(out.contains(once[w]));
        let v = choose|v: int| 0 <= v < out.len() && out[v] == once[w];
        assert(dedup_key(out[v]) == dedup_key(nodes[j]));
    }
    assert forall|i: int, j: int| 0 <= i < j < out.len() implies dedup_key(out[i]) != dedup_key(
        out[j],
    ) by {
        if dedup_key(out[i]) == dedup_key(out[j]) {
            assert(once.contains(out[i]) && once.contains(out[j])) by {
                assert(out.to_multiset().count(out[i]) > 0);
                assert(out.to_multiset().count(out[j]) > 0);
            }
            let a = choose|a: int| 0 <= a < once.len() && once[a] == out[i];
            let b = choose|b: int| 0 <= b < once.len() && once[b] == out[j];
            if a == b {
                lemma_two_places(out, i, j);
                lemma_occurs_once(once, once[a]);
            } else if a < b {
                assert(dedup_key(once[a]) != dedup_key(once[b]));
            } else {
                assert(dedup_key(once[b]) != dedup_key(once[a]));
            }
        }
    }
}

proof fn lemma_two_places(s: Seq<XPathNode>, i: int, j: int)
    requires
        0 <= i < j < s.len(),
        s[i] == s[j],
    ensures
        s.to_multiset().count(s[i]) >= 2,
{
    broadcast use vstd::seq_lib::group_to_multiset_ensures;

    let t = s.remove(j);
    assert(t[i] == s[i]);
    assert(t.to_multiset().count(s[i]) > 0);
    assert(t.to_multiset() == s.to_multiset().remove(s[j]));
}

proof fn lemma_occurs_once(s: Seq<XPathNode>, x: XPathNode)
    requires
        has_no_duplicates(s),
    ensures
        s.to_multiset().count(x) <= 1,
{
    broadcast use vstd::seq_lib::group_to_multiset_ensures;

    if s.to_multiset().count(x) >= 2 {
        assert(s.contains(x));
        let i = choose|i: int| 0 <= i < s.len() && s[i] == x;
        let t = s.remove(i);
        assert(t.to_multiset() == s.to_multiset().remove(x));
        assert(t.to_multiset().count(x) >= 1);
        assert(t.contains(x));
        let j = choose|j: int| 0 <= j < t.len() && t[j] == x;
        if j < i {
            assert(s[j] == x);
        } else {
            assert(s[j + 1] == x);
        }
    }
}

proof fn lemma_parts(ix: XmlIndex, o: Oracle, parts: Seq<ExprV>, k: int, all: Seq<XPathNode>)
    requires
        0 <= k <= parts.len(),
        query_parts(ix, o, parts, k) == Some(all),
    ensures
        forall|p: int|
            0 <= p < k ==> (#[trigger] query(ix, o, parts[p]) matches Some(some) && forall|j: int|
                0 <= j < some.len() ==> all.contains(#[trigger] some[j])),
        forall|i: int|
            0 <= i < all.len() ==> selected_by_part(ix, o, parts, k, #[trigger] all[i]),
    decreases k,
{
    unfold_query_parts(ix, o, parts, k);
    if k > 0 {
        let before = query_parts(ix, o, parts, k - 1)->0;
        let more = query(ix, o, parts[k - 1])->0;
        lemma_parts(ix, o, parts, k - 1, before);
        assert(all == before + more);
        assert forall|p: int| 0 <= p < k implies (#[trigger] query(ix, o, parts[p]) matches Some(
            some,
        ) && forall|j: int| 0 <= j < some.len() ==> all.contains(#[trigger] some[j])) by {
            let some = query(ix, o, parts[p])->0;
            assert forall|j: int| 0 <= j < some.len() implies all.contains(#[trigger] some[j]) by {
                if p < k - 1 {
                    assert(before.contains(some[j]));
                    let w = choose|w: int| 0 <= w < before.len() && before[w] == some[j];
                    assert(all[w] == some[j]);
                } else {
                    assert(all[before.len() + j] == some[j]);
                }
            }
        }
        assert forall|i: int| 0 <= i < all.len() implies selected_by_part(
            ix,
            o,
            parts,
            k,
            #[trigger] all[i],
        ) by {
            if i < before.len() {
                assert(selected_by_part(ix, o, parts, k - 1, before[i]));
                let p = choose|p: int|
                    0 <= p < k - 1 && (#[trigger] query(ix, o, parts[p]) matches Some(some)
                        && some.contains(before[i]));
                assert(query(ix, o, parts[p]) is Some);
            } else {
                assert(more[i - before.len()] == all[i]);
                assert(query(ix, o, parts[k - 1])->0.contains(all[i]));
            }
        }
    }
}

/// Whether one of the first `k` parts of a union selects the node.
pub open spec fn selected_by_part(
    ix: XmlIndex,
    o: Oracle,
    parts: Seq<ExprV>,
    k: int,
    node: XPathNode,
) -> bool {
    exists|p: int|
        0 <= p < k && (#[trigger] query(ix, o, parts[p]) matches Some(some) && some.contains(node))
}

/// A union selects, in document order and without duplicates, the nodes that its
/// parts select.
pub proof fn lemma_union(ix: XmlIndex, o: Oracle, parts: Seq<ExprV>, found: Seq<XPathNode>)
    requires
        query(ix, o, ExprV::Union(parts)) == Some(found),
    ensures
        is_in_order(ix, found),
        has_no_duplicates(found),
        forall|i: int|
            0 <= i < found.len() ==> selected_by_part(
                ix,
                o,
                parts,
                parts.len() as int,
                #[trigger] found[i],
            ),
        forall|p: int|
            0 <= p < parts.len() ==> (#[trigger] query(ix, o, parts[p]) matches Some(some)
                && forall|j: int|
                0 <= j < some.len() ==> key_seen(
                    found,
                    found.len() as int,
                    dedup_key(#[trigger] some[j]),
                )),
{
    unfold_query(ix, o, ExprV::Union(parts));
    let all = query_parts(ix, o, parts, parts.len() as int)->0;
    lemma_parts(ix, o, parts, parts.len() as int, all);
    lemma_tidy(ix, all);
    assert forall|i: int| 0 <= i < found.len() implies selected_by_part(
        ix,
        o,
        parts,
        parts.len() as int,
        #[trigger] found[i],
    ) by {
        assert(all.contains(found[i]));
        let w = choose|w: int| 0 <= w < all.len() && all[w] == found[i];
        assert(selected_by_part(ix, o, parts, parts.len() as int, all[w]));
    }
    assert forall|p: int| 0 <= p < parts.len() implies (#[trigger] query(ix, o, parts[p]) matches Some(
        some,
    ) && forall|j: int|
        0 <= j < some.len() ==> key_seen(found, found.len() as int, dedup_key(#[trigger] some[j]))) by {
        let some = query(ix, o, parts[p])->0;
        assert forall|j: int| 0 <= j < some.len() implies key_seen(
            found,
            found.len() as int,
            dedup_key(#[trigger] some[j]),
        ) by {
            assert(all.contains(some[j]));
            let w = choose|w: int| 0 <= w < all.len() && all[w] == some[j];
            assert(key_seen(found, found.len() as int, dedup_key(all[w])));
        }
    }
}

} // verus!
