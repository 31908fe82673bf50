//! Paths with `//`: they are evaluated in one scan over the tags, which changes
//! nothing about what they select.

use vstd::prelude::*;
use vstd::utf8::encode_utf8;
use crate::index::XmlIndex;
use crate::xpath::ast::{Axis, StepV, TestV};
use crate::xpath::axes::{axis_nodes, pick_tags, pick_texts, picks, scope_end, PickV, TextPick};
use crate::xpath::lazy_laws::lemma_pick_tags;
use crate::xpath::name_laws::{lemma_name_index_scan, names_complete};
use crate::xpath::nodes::{
    doc_pos, insert_placed, lemma_sort_sorted, node_ok, passes, passing, placed, sort_placed,
    unplaced, Placed, XPathNode, DOC_ROOT,
};
use crate::xpath::numbers::Oracle;
use crate::xpath::semantics::{
    fused_nodes, fused_one, fused_over, fusible, is_reverse, name_row, path_from, row_within, scope,
    step_nodes, step_over, tested_nodes,
};
use crate::xpath::semantics_unfold::{
    unfold_filter_all, unfold_fused_nodes, unfold_path_from, unfold_step_nodes, unfold_step_one,
    unfold_step_over,
};

verus! {

/// The placed nodes that pass a test, in order.
spec fn chosen(ix: XmlIndex, items: Seq<Placed>, test: TestV) -> Seq<Placed>
    decreases items.len(),
{
    if items.len() == 0 {
        Seq::empty()
    } else if passes(ix, items[0].1, test) {
        seq![items[0]] + chosen(ix, items.drop_first(), test)
    } else {
        chosen(ix, items.drop_first(), test)
    }
}

spec fn ascending(items: Seq<Placed>) -> bool {
    forall|i: int, j: int| 0 <= i <= j < items.len() ==> items[i].0 <= items[j].0
}

proof fn lemma_chosen_from(ix: XmlIndex, items: Seq<Placed>, test: TestV, least: u128)
    requires
        forall|i: int| 0 <= i < items.len() ==> least <= (#[trigger] items[i]).0,
    ensures
        forall|i: int|
            0 <= i < chosen(ix, items, test).len() ==> least <= (#[trigger] chosen(
                ix,
                items,
                test,
            )[i]).0,
    decreases items.len(),
{
    if items.len() > 0 {
        let rest = items.drop_first();
        assert forall|i: int| 0 <= i < rest.len() implies least <= (#[trigger] rest[i]).0 by {
            assert(rest[i] == items[i + 1]);
        }
        lemma_chosen_from(ix, rest, test, least);
        let few = chosen(ix, rest, test);
        let all = chosen(ix, items, test);
        assert forall|i: int| 0 <= i < all.len() implies least <= (#[trigger] all[i]).0 by {
            if passes(ix, items[0].1, test) {
                if i == 0 {
                    assert(all[0] == items[0]);
                } else {
                    assert(all[i] == few[i - 1]);
                }
            }
        }
    }
}

/// Choosing after inserting is inserting after choosing.
proof fn lemma_chosen_insert(ix: XmlIndex, list: Seq<Placed>, x: Placed, test: TestV)
    requires
        ascending(list),
    ensures
        chosen(ix, insert_placed(list, x), test) == (if passes(ix, x.1, test) {
            insert_placed(chosen(ix, list, test), x)
        } else {
            chosen(ix, list, test)
        }),
    decreases list.len(),
{
    let all = insert_placed(list, x);
    if list.len() == 0 {
        assert(all[0] == x);
        assert(all.drop_first() =~= Seq::empty());
        assert(chosen(ix, all.drop_first(), test) =~= Seq::empty());
        assert(seq![x] + Seq::<Placed>::empty() =~= seq![x]);
    } else if x.0 < list[0].0 {
        assert(all[0] == x);
        assert(all.drop_first() =~= list);
        lemma_chosen_from(ix, list, test, list[0].0);
        let few = chosen(ix, list, test);
        if few.len() > 0 {
            assert(list[0].0 <= few[0].0);
        } else {
            assert(seq![x] + few =~= seq![x]);
        }
    } else {
        let rest = list.drop_first();
        assert(all.drop_first() =~= insert_placed(rest, x));
        assert(all[0] == list[0]);
        lemma_chosen_insert(ix, rest, x, test);
        let few = chosen(ix, rest, test);
        if passes(ix, list[0].1, test) {
            let head = seq![list[0]] + few;
            assert(head.drop_first() =~= few);
            assert(head[0] == list[0]);
        }
    }
}

proof fn lemma_chosen_last(ix: XmlIndex, items: Seq<Placed>, test: TestV)
    requires
        items.len() > 0,
    ensures
        chosen(ix, items, test) == (if passes(ix, items.last().1, test) {
            chosen(ix, items.drop_last(), test).push(items.last())
        } else {
            chosen(ix, items.drop_last(), test)
        }),
    decreases items.len(),
{
    let rest = items.drop_first();
    if rest.len() > 0 {
        lemma_chosen_last(ix, rest, test);
        assert(rest.drop_last() =~= items.drop_last().drop_first());
        assert(rest.last() == items.last());
        let few = chosen(ix, rest.drop_last(), test);
        assert((seq![items[0]] + few).push(items.last()) =~= seq![items[0]] + few.push(
            items.last(),
        ));
    } else {
        assert(rest =~= Seq::empty());
        assert(items.drop_last() =~= Seq::empty());
        assert(seq![items[0]] + Seq::<Placed>::empty() =~= Seq::<Placed>::empty().push(items[0]));
    }
}

/// Choosing after sorting is sorting after choosing.
proof fn lemma_chosen_sort(ix: XmlIndex, items: Seq<Placed>, test: TestV)
    ensures
        chosen(ix, sort_placed(items), test) == sort_placed(chosen(ix, items, test)),
    decreases items.len(),
{
    if items.len() > 0 {
        let before = items.drop_last();
        lemma_chosen_sort(ix, before, test);
        lemma_sort_sorted(before);
        lemma_chosen_insert(ix, sort_placed(before), items.last(), test);
        lemma_chosen_last(ix, items, test);
        let few = chosen(ix, before, test);
        assert(few.push(items.last()).drop_last() =~= few);
    }
}

proof fn lemma_insert_last(list: Seq<Placed>, x: Placed)
    requires
        forall|i: int| 0 <= i < list.len() ==> (#[trigger] list[i]).0 <= x.0,
    ensures
        insert_placed(list, x) == list.push(x),
    decreases list.len(),
{
    if list.len() > 0 {
        let rest = list.drop_first();
        assert forall|i: int| 0 <= i < rest.len() implies (#[trigger] rest[i]).0 <= x.0 by {
            assert(rest[i] == list[i + 1]);
        }
        lemma_insert_last(rest, x);
        assert(list[0].0 <= x.0);
        assert(seq![list[0]] + rest.push(x) =~= list.push(x));
    } else {
        assert(seq![x] =~= list.push(x));
    }
}

/// Sorting leaves a sorted list as it is.
proof fn lemma_sort_of_sorted(items: Seq<Placed>)
    requires
        ascending(items),
    ensures
        sort_placed(items) == items,
    decreases items.len(),
{
    if items.len() > 0 {
        let before = items.drop_last();
        lemma_sort_of_sorted(before);
        assert forall|i: int| 0 <= i < before.len() implies (#[trigger] before[i]).0
            <= items.last().0 by {
            assert(before[i] == items[i]);
        }
        lemma_insert_last(before, items.last());
        assert(before.push(items.last()) =~= items);
    } else {
        assert(items =~= Seq::empty());
    }
}

proof fn lemma_passing_chosen(ix: XmlIndex, items: Seq<Placed>, test: TestV)
    ensures
        passing(ix, unplaced(items), test, items.len() as int) == unplaced(
            chosen(ix, items, test),
        ),
    decreases items.len(),
{
    if items.len() > 0 {
        let before = items.drop_last();
        lemma_passing_chosen(ix, before, test);
        lemma_chosen_last(ix, items, test);
        lemma_passing_prefix(ix, unplaced(items), unplaced(before), test, before.len() as int);
        let few = chosen(ix, before, test);
        assert(unplaced(few.push(items.last())) =~= unplaced(few).push(items.last().1));
        assert(unplaced(items)[items.len() - 1] == items.last().1);
    } else {
        assert(unplaced(chosen(ix, items, test)) =~= Seq::empty());
    }
}

proof fn lemma_passing_prefix(
    ix: XmlIndex,
    a: Seq<XPathNode>,
    b: Seq<XPathNode>,
    test: TestV,
    k: int,
)
    requires
        k <= a.len(),
        k <= b.len(),
        forall|i: int| 0 <= i < k ==> a[i] == b[i],
    ensures
        passing(ix, a, test, k) == passing(ix, b, test, k),
    decreases k,
{
    if k > 0 {
        lemma_passing_prefix(ix, a, b, test, k - 1);
    }
}

proof fn lemma_chosen_add(ix: XmlIndex, a: Seq<Placed>, b: Seq<Placed>, test: TestV)
    ensures
        chosen(ix, a + b, test) == chosen(ix, a, test) + chosen(ix, b, test),
    decreases b.len(),
{
    if b.len() == 0 {
        assert(a + b =~= a);
        assert(chosen(ix, a, test) + chosen(ix, b, test) =~= chosen(ix, a, test));
    } else {
        let all = a + b;
        assert(all.drop_last() =~= a + b.drop_last());
        assert(all.last() == b.last());
        lemma_chosen_add(ix, a, b.drop_last(), test);
        lemma_chosen_last(ix, all, test);
        lemma_chosen_last(ix, b, test);
        let x = chosen(ix, a, test);
        let y = chosen(ix, b.drop_last(), test);
        assert((x + y).push(b.last()) =~= x + y.push(b.last()));
    }
}

/// A name test chooses, of the tags in a range, the elements of that name.
proof fn lemma_chosen_tags(ix: XmlIndex, name: Seq<char>, lo: int, hi: int)
    requires
        0 <= lo,
        hi <= ix.tags(),
    ensures
        chosen(ix, placed(ix, pick_tags(ix, PickV::Any, lo, hi)), TestV::Name(name)) == placed(
            ix,
            pick_tags(ix, PickV::Test(TestV::Name(name)), lo, hi),
        ),
    decreases hi - lo,
{
    let test = TestV::Name(name);
    let all = placed(ix, pick_tags(ix, PickV::Any, lo, hi));
    let few = placed(ix, pick_tags(ix, PickV::Test(test), lo, hi));
    assert(ix.tags() == ix.tag_starts.len());
    if lo < hi {
        lemma_chosen_tags(ix, name, lo, hi - 1);
        let node = XPathNode::Element((hi - 1) as usize);
        let before = placed(ix, pick_tags(ix, PickV::Any, lo, hi - 1));
        let fewer = placed(ix, pick_tags(ix, PickV::Test(test), lo, hi - 1));
        if picks(ix, PickV::Any, hi - 1) {
            assert(all =~= before.push((doc_pos(ix, node), node)));
            lemma_chosen_last(ix, all, test);
            assert(all.drop_last() =~= before);
        }
        if picks(ix, PickV::Test(test), hi - 1) {
            assert(few =~= fewer.push((doc_pos(ix, node), node)));
        }
    } else {
        assert(all =~= Seq::empty());
        assert(few =~= Seq::empty());
    }
}

proof fn lemma_chosen_texts(ix: XmlIndex, name: Seq<char>, pick: TextPick, k: int)
    ensures
        chosen(ix, placed(ix, pick_texts(ix, pick, k)), TestV::Name(name)).len() == 0,
    decreases k,
{
    let all = placed(ix, pick_texts(ix, pick, k));
    if k > 0 {
        lemma_chosen_texts(ix, name, pick, k - 1);
        let before = placed(ix, pick_texts(ix, pick, k - 1));
        let node = XPathNode::Text((k - 1) as usize);
        if pick_texts(ix, pick, k) != pick_texts(ix, pick, k - 1) {
            assert(all =~= before.push((doc_pos(ix, node), node)));
            lemma_chosen_last(ix, all, TestV::Name(name));
            assert(all.drop_last() =~= before);
        }
    }
}

pub proof fn lemma_empty_row_range(row: Seq<u32>, lo: int, hi: int)
    requires
        hi <= lo,
    ensures
        row_within(row, lo, hi).len() == 0,
    decreases row.len(),
{
    if row.len() > 0 {
        lemma_empty_row_range(row.drop_last(), lo, hi);
    }
}

proof fn lemma_close_scan_bound(ix: XmlIndex, open: int, k: int)
    ensures
        ix.close_scan(open, k) matches Some(c) ==> c < ix.tags(),
    decreases ix.tags() - k,
{
    if 0 <= k < ix.tags() {
        lemma_close_scan_bound(ix, open, k + 1);
    }
}

/// The content of a tag ends within the document.
pub proof fn lemma_scope_end(ix: XmlIndex, tag: int)
    requires
        ix.wf(),
        0 <= tag < ix.tags(),
    ensures
        scope_end(ix, tag) <= ix.tags(),
{
    lemma_close_scan_bound(ix, tag, tag + 1);
}

/// A step along the descendant axis.
pub open spec fn descendant_step(name: Seq<char>) -> StepV {
    StepV { axis: Axis::Descendant, test: TestV::Name(name), preds: Seq::empty() }
}

/// The two steps that `//` and a node test abbreviate.
pub open spec fn slashes(test: TestV) -> Seq<StepV> {
    seq![
        StepV { axis: Axis::DescendantOrSelf, test: TestV::Node, preds: Seq::empty() },
        StepV { axis: Axis::Child, test, preds: Seq::empty() },
    ]
}

/// The two steps that `//` and a name abbreviate.
pub open spec fn double_slash(name: Seq<char>) -> Seq<StepV> {
    slashes(TestV::Name(name))
}

/// One scan over the tags finds the descendants of a name.
pub proof fn lemma_scan_finds_descendants(ix: XmlIndex, node: XPathNode, name: Seq<char>)
    requires
        ix.wf(),
        names_complete(ix),
        name.len() > 0,
        node_ok(ix, node),
    ensures
        fused_one(ix, node, TestV::Name(name)) == tested_nodes(ix, node, descendant_step(name)),
{
    let test = TestV::Name(name);
    let st = descendant_step(name);
    let all = axis_nodes(ix, node, Axis::Descendant, test);
    if let XPathNode::Element(i) = node {
        let (lo, first, end) = scope(ix, node)->0;
        let n = ix.text_ranges@.len() as int;
        let pick = if i == DOC_ROOT {
            TextPick::Inside
        } else {
            TextPick::Within(i, end as usize)
        };
        let tags = placed(ix, pick_tags(ix, PickV::Any, lo, end));
        let texts = placed(ix, pick_texts(ix, pick, n));
        let none = Seq::<Placed>::empty();
        let items = none + tags + texts;
        let found = pick_tags(ix, PickV::Test(test), lo, end);
        assert(ix.tags() == ix.tag_starts.len());
        if i != DOC_ROOT {
            lemma_scope_end(ix, i as int);
        }
        assert(all == unplaced(sort_placed(items)));
        lemma_passing_chosen(ix, sort_placed(items), test);
        lemma_chosen_sort(ix, items, test);
        lemma_chosen_add(ix, none + tags, texts, test);
        lemma_chosen_add(ix, none, tags, test);
        lemma_chosen_tags(ix, name, lo, end);
        lemma_chosen_texts(ix, name, pick, n);
        let few = placed(ix, found);
        assert(chosen(ix, items, test) =~= few);
        if lo <= end {
            lemma_pick_tags(ix, PickV::Test(test), lo, end);
            assert forall|a: int, b: int| 0 <= a <= b < few.len() implies few[a].0 <= few[b].0 by {
                if a < b {
                    let x = found[a]->Element_0 as int;
                    let y = found[b]->Element_0 as int;
                    assert(found[a] == XPathNode::Element(x as usize));
                    assert(found[b] == XPathNode::Element(y as usize));
                    assert(ix.doc().starts[x] < ix.doc().starts[y]);
                }
            }
        }
        lemma_sort_of_sorted(few);
        assert(unplaced(few) =~= found);
        assert(all.len() == sort_placed(items).len());
        let row = name_row(ix, name);
        if row.len() > 0 {
            if lo <= end {
                lemma_name_index_scan(ix, name, lo, end);
            } else {
                lemma_empty_row_range(row, lo, end);
                assert(row_within(row, lo, end) =~= found);
            }
        }
    } else {
        assert(passing(ix, all, test, 0) =~= Seq::empty());
    }
}

/// What `//name` selects from a node is what `descendant::name` selects from it.
pub proof fn lemma_double_slash_is_descendant(
    ix: XmlIndex,
    o: Oracle,
    node: XPathNode,
    name: Seq<char>,
)
    requires
        ix.wf(),
        names_complete(ix),
        name.len() > 0,
        node_ok(ix, node),
    ensures
        path_from(ix, o, double_slash(name), 0, seq![node]) == path_from(
            ix,
            o,
            seq![descendant_step(name)],
            0,
            seq![node],
        ),
{
    let steps = double_slash(name);
    let one = seq![descendant_step(name)];
    let ctx = seq![node];
    let test = TestV::Name(name);
    lemma_scan_finds_descendants(ix, node, name);
    unfold_path_from(ix, o, steps, 0, ctx);
    assert(fusible(steps, 0));
    let a = fused_nodes(ix, o, ctx, steps[1]);
    unfold_fused_nodes(ix, o, ctx, steps[1]);
    unfold_path_from(ix, o, steps, 2, a);
    assert(fused_over(ix, ctx, test, 0) =~= Seq::empty());
    assert(fused_over(ix, ctx, test, 1) =~= fused_one(ix, node, test));
    lemma_one_step(ix, o, node, descendant_step(name));
    let b = step_nodes(ix, o, ctx, one[0]);
    unfold_path_from(ix, o, one, 0, ctx);
    unfold_path_from(ix, o, one, 1, b);
}

/// A step without predicates from one node selects the nodes on its axis that pass
/// its test, unless the axis turns the order round.
pub proof fn lemma_one_step(ix: XmlIndex, o: Oracle, node: XPathNode, st: StepV)
    requires
        st.preds.len() == 0,
        !is_reverse(st.axis),
    ensures
        step_nodes(ix, o, seq![node], st) == tested_nodes(ix, node, st),
{
    let ctx = seq![node];
    unfold_step_nodes(ix, o, ctx, st);
    unfold_step_over(ix, o, ctx, st, 1);
    unfold_step_over(ix, o, ctx, st, 0);
    unfold_step_one(ix, o, node, st);
    unfold_filter_all(ix, o, st.preds, 0, tested_nodes(ix, node, st));
    assert(step_over(ix, o, ctx, st, 1) =~= tested_nodes(ix, node, st));
}

} // verus!
