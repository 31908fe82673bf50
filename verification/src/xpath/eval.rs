//! Evaluation of XPath expressions against an index.

use std::collections::HashMap;
use vstd::prelude::*;
use vstd::utf8::encode_utf8;
use crate::error::SimdXmlError;
use crate::index::access::{is_element_type, texts_within};
use crate::index::outline::Doc;
use crate::index::structural::{parse_scalar, parsed};
use crate::index::XmlIndex;
use crate::text::{chars_of, str_eq, string_of, texts};
use crate::xpath::ast::{
    expr_v, exprs_v, lemma_expr_v, lemma_exprs_v, lemma_step_v, lemma_steps_v, step_v, steps_v,
    Axis, BinaryOp, ExprV, LocationPath, NodeTest, Step, StepV, XPathExpr,
};
use crate::xpath::axes::{
    collect_tags, content_end, collect_texts, eval_axis, reversed, TagPick, TextPick,
};
use crate::xpath::namespaces::{find_hashed, find_prefix, namespace_uri, node_uri};
use crate::xpath::nodes::{
    dedup_nodes, filter_nodes, node_ok, nodes_ok, sort_doc_order, XPathNode, DOC_ROOT,
};
use crate::xpath::numbers::{
    answers, ask_flag, ask_index, ask_number, ask_span, is_arithmetic, reply_index, strings, Number,
    NumberOp, NumberReply, OpV,
};
use crate::xpath::parser::{parse_xpath_predicate_expr, parsed_predicate};
use crate::xpath::semantics;
use crate::xpath::semantics::{
    fused_one, fused_over, fusible, in_lang, parent_entries, parent_entry, row_within,
    siblings_under, tested_nodes, tidy,
};
use crate::xpath::semantics_unfold;
use crate::xpath::strings::{
    after_part, before_part, contains_text, matches_lang, normalize_space, starts_with_text,
    translate,
};
use crate::xpath::values::{
    compare_values, compute, count, empty_string, node_string_value, node_string_values,
    string_value, XPathValue, ValueV,
};

verus! {

/// Removes duplicates and sorts into document order.
fn tidy_nodes(index: &XmlIndex, nodes: &mut Vec<XPathNode>)
    requires
        index.wf(),
        nodes_ok(*index, old(nodes)@),
    ensures
        final(nodes)@ == tidy(*index, old(nodes)@),
        nodes_ok(*index, final(nodes)@),
{
    let ghost before = nodes@;
    dedup_nodes(nodes);
    proof {
        assert forall|i: int| 0 <= i < nodes@.len() implies node_ok(*index, #[trigger] nodes@[i]) by {
            assert(before.contains(nodes@[i]));
        }
    }
    sort_doc_order(index, nodes);
}

/// The element tags of a row within `lo..hi`.
fn collect_row_within(index: &XmlIndex, row: &[u32], lo: usize, hi: usize) -> (r: Vec<XPathNode>)
    requires
        forall|j: int| 0 <= j < row@.len() ==> #[trigger] row@[j] < index.tags(),
    ensures
        r@ == row_within(row@, lo as int, hi as int),
        nodes_ok(*index, r@),
{
    let mut out: Vec<XPathNode> = Vec::new();
    let n: usize = row.len();
    let mut j: usize = 0;
    assert(row@.take(0) =~= Seq::empty());
    while j < n
        invariant
            n == row@.len(),
            j <= n,
            forall|j: int| 0 <= j < row@.len() ==> #[trigger] row@[j] < index.tags(),
            out@ == row_within(row@.take(j as int), lo as int, hi as int),
            nodes_ok(*index, out@),
        decreases n - j,
    {
        let tag: usize = row[j] as usize;
        assert(row@.take(j + 1).drop_last() =~= row@.take(j as int));
        if lo <= tag && tag < hi {
            out.push(XPathNode::Element(tag));
        }
        j += 1;
    }
    assert(row@.take(n as int) =~= row@);
    out
}

/// The children, of a node or of a descendant of it, that pass a test.
fn eval_fused_one(index: &XmlIndex, node: XPathNode, test: &NodeTest) -> (r: Vec<XPathNode>)
    requires
        index.wf(),
        node_ok(*index, node),
    ensures
        r@ == fused_one(*index, node, test@),
        nodes_ok(*index, r@),
{
    let n: usize = index.tag_count();
    let (lo, first, end): (usize, usize, usize) = match node {
        XPathNode::Element(i) => if i == DOC_ROOT {
            (0, 0, n)
        } else {
            (i + 1, i, content_end(index, i))
        },
        _ => {
            return Vec::new();
        },
    };
    match test {
        NodeTest::Name(name) => {
            let row = index.tags_by_name(name.as_str());
            if row.len() > 0 {
                collect_row_within(index, row, lo, end)
            } else {
                collect_tags(index, &TagPick::Test(test), lo, end)
            }
        },
        NodeTest::Text => collect_texts(index, &TextPick::Within(first, end)),
        NodeTest::Node => {
            let mut out = collect_tags(index, &TagPick::Any, lo, end);
            let mut more = collect_texts(index, &TextPick::Within(first, end));
            out.append(&mut more);
            sort_doc_order(index, &mut out);
            out
        },
        _ => collect_tags(index, &TagPick::Test(test), lo, end),
    }
}

/// `descendant-or-self::node()/child::test` from a context, in one pass over
/// the tags.
pub fn eval_fused_descendant_child(index: &XmlIndex, ctx: &Vec<XPathNode>, test: &NodeTest) -> (r: Vec<
    XPathNode,
>)
    requires
        index.wf(),
        nodes_ok(*index, ctx@),
    ensures
        r@ == semantics::fused_plain(*index, ctx@, test@),
        nodes_ok(*index, r@),
{
    let mut out: Vec<XPathNode> = Vec::new();
    let mut k: usize = 0;
    while k < ctx.len()
        invariant
            index.wf(),
            nodes_ok(*index, ctx@),
            k <= ctx@.len(),
            out@ == fused_over(*index, ctx@, test@, k as int),
            nodes_ok(*index, out@),
        decreases ctx@.len() - k,
    {
        let mut more = eval_fused_one(index, ctx[k], test);
        out.append(&mut more);
        k += 1;
    }
    if ctx.len() > 1 {
        tidy_nodes(index, &mut out);
    }
    out
}

/// The parent entry of a node.
fn parent_entry_of(index: &XmlIndex, node: XPathNode) -> (r: u32)
    requires
        index.wf(),
    ensures
        r == parent_entry(*index, node),
{
    match node {
        XPathNode::Element(i) => if i < index.tag_count() {
            index.parents[i]
        } else {
            u32::MAX
        },
        XPathNode::Text(i) => if i < index.text_count() {
            index.text_ranges[i].parent_tag
        } else {
            u32::MAX
        },
        _ => u32::MAX,
    }
}

/// The nodes grouped by parent, in order of the first appearance of each.
fn group_by_parent(index: &XmlIndex, nodes: &Vec<XPathNode>) -> (r: Vec<Vec<XPathNode>>)
    requires
        index.wf(),
        nodes_ok(*index, nodes@),
    ensures
        ({
            let parents = parent_entries(*index, nodes@, nodes@.len() as int);
            &&& r@.len() == parents.len()
            &&& forall|g: int|
                0 <= g < parents.len() ==> (#[trigger] r@[g])@ == siblings_under(
                    *index,
                    nodes@,
                    parents[g],
                    nodes@.len() as int,
                )
        }),
        forall|g: int| 0 <= g < r@.len() ==> nodes_ok(*index, (#[trigger] r@[g])@),
{
    broadcast use vstd::std_specs::hash::group_hash_axioms;

    let mut numbers: HashMap<u32, usize> = HashMap::new();
    let mut out: Vec<Vec<XPathNode>> = Vec::new();
    let mut k: usize = 0;
    let ghost ix = *index;
    while k < nodes.len()
        invariant
            index.wf(),
            ix == *index,
            nodes_ok(ix, nodes@),
            k <= nodes@.len(),
            out@.len() == parent_entries(ix, nodes@, k as int).len(),
            forall|g: int|
                0 <= g < out@.len() ==> (#[trigger] out@[g])@ == siblings_under(
                    ix,
                    nodes@,
                    parent_entries(ix, nodes@, k as int)[g],
                    k as int,
                ),
            forall|g: int| 0 <= g < out@.len() ==> nodes_ok(ix, (#[trigger] out@[g])@),
            forall|p: u32| #[trigger]
                numbers@.contains_key(p) <==> parent_entries(ix, nodes@, k as int).contains(p),
            forall|p: u32| #[trigger]
                numbers@.contains_key(p) ==> numbers@[p] < out@.len() && parent_entries(
                    ix,
                    nodes@,
                    k as int,
                )[numbers@[p] as int] == p,
            forall|a: int, b: int|
                0 <= a < b < out@.len() ==> parent_entries(ix, nodes@, k as int)[a]
                    != parent_entries(ix, nodes@, k as int)[b],
            forall|p: u32|
                !parent_entries(ix, nodes@, k as int).contains(p) ==> #[trigger] siblings_under(
                    ix,
                    nodes@,
                    p,
                    k as int,
                ) == Seq::<XPathNode>::empty(),
        decreases nodes@.len() - k,
    {
        broadcast use vstd::std_specs::hash::group_hash_axioms;

        let node = nodes[k];
        let parent: u32 = parent_entry_of(index, node);
        let ghost before = parent_entries(ix, nodes@, k as int);
        let ghost after = parent_entries(ix, nodes@, k + 1);
        let ghost old_out = out@;
        let known: Option<usize> = match numbers.get(&parent) {
            Some(g) => Some(*g),
            None => None,
        };
        match known {
            Some(g) => {
                assert(numbers@.contains_key(parent));
                out[g].push(node);
                proof {
                    assert(after == before);
                    assert forall|h: int| 0 <= h < out@.len() implies (#[trigger] out@[h])@
                        == siblings_under(ix, nodes@, after[h], k + 1) by {
                        if h != g {
                            assert(out@[h] == old_out[h]);
                            assert(after[h] != parent);
                        }
                    }
                    assert forall|h: int| 0 <= h < out@.len() implies nodes_ok(
                        ix,
                        (#[trigger] out@[h])@,
                    ) by {
                        if h != g {
                            assert(out@[h] == old_out[h]);
                        } else {
                            assert(nodes_ok(ix, old_out[h]@));
                        }
                    }
                }
            },
            None => {
                assert(!numbers@.contains_key(parent));
                let g: usize = out.len();
                let mut group: Vec<XPathNode> = Vec::new();
                group.push(node);
                proof {
                    assert(siblings_under(ix, nodes@, parent, k as int) == Seq::<
                        XPathNode,
                    >::empty());
                    assert(group@ =~= siblings_under(ix, nodes@, parent, k + 1));
                    assert(after == before.push(parent));
                }
                out.push(group);
                numbers.insert(parent, g);
                proof {
                    assert forall|h: int| 0 <= h < out@.len() implies (#[trigger] out@[h])@
                        == siblings_under(ix, nodes@, after[h], k + 1) by {
                        if h != g {
                            assert(out@[h] == old_out[h]);
                            assert(after[h] == before[h]);
                            assert(before.contains(before[h]));
                        }
                    }
                    assert forall|p: u32| #[trigger] numbers@.contains_key(p) <==> after.contains(
                        p,
                    ) by {
                        if before.contains(p) {
                            let w = choose|w: int| 0 <= w < before.len() && before[w] == p;
                            assert(after[w] == p);
                        }
                        if p == parent {
                            assert(after[g as int] == p);
                        }
                        if after.contains(p) && p != parent {
                            let w = choose|w: int| 0 <= w < after.len() && after[w] == p;
                            assert(before[w] == p);
                        }
                    }
                    assert forall|a: int, b: int| 0 <= a < b < out@.len() implies after[a]
                        != after[b] by {
                        if b == g {
                            assert(before.contains(before[a]));
                        }
                    }
                }
            },
        }
        proof {
            assert forall|p: u32| !after.contains(p) implies #[trigger] siblings_under(
                ix,
                nodes@,
                p,
                k + 1,
            ) == Seq::<XPathNode>::empty() by {
                if before.contains(p) {
                    let w = choose|w: int| 0 <= w < before.len() && before[w] == p;
                    assert(after[w] == p);
                }
                if p == parent && !before.contains(parent) {
                    assert(after[before.len() as int] == p);
                }
                assert(siblings_under(ix, nodes@, p, k as int) == Seq::<XPathNode>::empty());
            }
        }
        k += 1;
    }
    out
}

/// What a path selects, with steps fused where they can be.
fn eval_path<F: Fn(NumberOp) -> NumberReply>(
    index: &XmlIndex,
    f: &F,
    steps: &Vec<Step>,
    start: XPathNode,
) -> (r: Vec<XPathNode>)
    requires
        index.wf(),
        is_arithmetic(*f),
        node_ok(*index, start),
    ensures
        r@ == semantics::path_from(*index, answers(*f), steps_v(steps@), 0, seq![start]),
        nodes_ok(*index, r@),
    decreases steps_v(steps@), 10int, 0int,
{
    let ghost sv = steps_v(steps@);
    let ghost o = answers(*f);
    let mut ctx: Vec<XPathNode> = Vec::new();
    ctx.push(start);
    assert(ctx@ =~= seq![start]);
    proof {
        lemma_steps_v(steps@);
    }
    let n: usize = steps.len();
    let mut i: usize = 0;
    while i < n
        invariant
            index.wf(),
            is_arithmetic(*f),
            o == answers(*f),
            sv == steps_v(steps@),
            n == steps@.len(),
            sv.len() == n,
            forall|j: int| 0 <= j < n ==> #[trigger] sv[j] == step_v(steps@[j]),
            i <= n,
            nodes_ok(*index, ctx@),
            semantics::path_from(*index, o, sv, 0, seq![start]) == semantics::path_from(
                *index,
                o,
                sv,
                i as int,
                ctx@,
            ),
        decreases n - i,
    {
        proof {
            semantics_unfold::unfold_path_from(*index, o, sv, i as int, ctx@);
        }
        if i + 1 < n && is_fusible(&steps[i], &steps[i + 1]) {
            proof {
                assert(sv[i as int] == step_v(steps@[i as int]));
                assert(sv[i + 1] == step_v(steps@[i + 1]));
                assert(fusible(sv, i as int));
            }
            ctx = eval_fused(index, f, &ctx, &steps[i + 1]);
            i += 2;
        } else {
            proof {
                assert(sv[i as int] == step_v(steps@[i as int]));
                if i + 1 < n {
                    assert(sv[i + 1] == step_v(steps@[i + 1]));
                }
                assert(!fusible(sv, i as int));
            }
            ctx = eval_step(index, f, &ctx, &steps[i]);
            i += 1;
        }
    }
    proof {
        semantics_unfold::unfold_path_from(*index, o, sv, i as int, ctx@);
    }
    ctx
}

/// Whether two steps are `descendant-or-self::node()/child::test`.
fn is_fusible(first: &Step, second: &Step) -> (r: bool)
    ensures
        r == (step_v(*first).axis == Axis::DescendantOrSelf && step_v(*first).test is Node
            && step_v(*first).preds.len() == 0 && step_v(*second).axis == Axis::Child),
{
    proof {
        lemma_step_v(*first);
        lemma_step_v(*second);
        lemma_exprs_v(first.predicates@);
    }
    let any_node = match first.node_test {
        NodeTest::Node => true,
        _ => false,
    };
    first.axis == Axis::DescendantOrSelf && any_node && first.predicates.len() == 0 && second.axis
        == Axis::Child
}

/// What steps select from a context, one by one.
fn eval_steps<F: Fn(NumberOp) -> NumberReply>(
    index: &XmlIndex,
    f: &F,
    steps: &Vec<Step>,
    start: Vec<XPathNode>,
) -> (r: Vec<XPathNode>)
    requires
        index.wf(),
        is_arithmetic(*f),
        nodes_ok(*index, start@),
    ensures
        r@ == semantics::steps_from(*index, answers(*f), steps_v(steps@), 0, start@),
        nodes_ok(*index, r@),
    decreases steps_v(steps@), 10int, 0int,
{
    let ghost sv = steps_v(steps@);
    let ghost o = answers(*f);
    let ghost first = start@;
    proof {
        lemma_steps_v(steps@);
    }
    let mut ctx = start;
    let n: usize = steps.len();
    let mut i: usize = 0;
    while i < n
        invariant
            index.wf(),
            is_arithmetic(*f),
            o == answers(*f),
            sv == steps_v(steps@),
            n == steps@.len(),
            sv.len() == n,
            forall|j: int| 0 <= j < n ==> #[trigger] sv[j] == step_v(steps@[j]),
            i <= n,
            nodes_ok(*index, ctx@),
            semantics::steps_from(*index, o, sv, 0, first) == semantics::steps_from(
                *index,
                o,
                sv,
                i as int,
                ctx@,
            ),
        decreases n - i,
    {
        proof {
            semantics_unfold::unfold_steps_from(*index, o, sv, i as int, ctx@);
            assert(sv[i as int] == step_v(steps@[i as int]));
        }
        ctx = eval_step(index, f, &ctx, &steps[i]);
        i += 1;
    }
    proof {
        semantics_unfold::unfold_steps_from(*index, o, sv, i as int, ctx@);
    }
    ctx
}

/// `descendant-or-self::node()` and a child step from a context.
fn eval_fused<F: Fn(NumberOp) -> NumberReply>(
    index: &XmlIndex,
    f: &F,
    ctx: &Vec<XPathNode>,
    st: &Step,
) -> (r: Vec<XPathNode>)
    requires
        index.wf(),
        is_arithmetic(*f),
        nodes_ok(*index, ctx@),
    ensures
        r@ == semantics::fused_nodes(*index, answers(*f), ctx@, step_v(*st)),
        nodes_ok(*index, r@),
    decreases step_v(*st), 9int, 0int,
{
    let ghost o = answers(*f);
    let ghost sv = step_v(*st);
    proof {
        lemma_step_v(*st);
        lemma_exprs_v(st.predicates@);
        semantics_unfold::unfold_fused_nodes(*index, o, ctx@, sv);
    }
    if st.predicates.len() == 0 {
        return eval_fused_descendant_child(index, ctx, &st.node_test);
    }
    eval_fused_descendant_child_with_preds(index, f, ctx, st)
}

/// `descendant-or-self::node()` and a child step with predicates from a
/// context: the matches of one pass over the tags, grouped by parent, each
/// group filtered on its own.
fn eval_fused_descendant_child_with_preds<F: Fn(NumberOp) -> NumberReply>(
    index: &XmlIndex,
    f: &F,
    ctx: &Vec<XPathNode>,
    st: &Step,
) -> (r: Vec<XPathNode>)
    requires
        index.wf(),
        is_arithmetic(*f),
        nodes_ok(*index, ctx@),
    ensures
        r@ == tidy(
            *index,
            semantics::fused_grouped(*index, answers(*f), ctx@, step_v(*st), ctx@.len() as int),
        ),
        nodes_ok(*index, r@),
    decreases step_v(*st), 8int, ctx@.len(),
{
    let ghost o = answers(*f);
    let ghost sv = step_v(*st);
    let ghost ix = *index;
    proof {
        lemma_step_v(*st);
    }
    let mut out: Vec<XPathNode> = Vec::new();
    let mut k: usize = 0;
    proof {
        semantics_unfold::unfold_fused_grouped(ix, o, ctx@, sv, 0);
    }
    while k < ctx.len()
        invariant
            index.wf(),
            ix == *index,
            is_arithmetic(*f),
            o == answers(*f),
            sv == step_v(*st),
            sv == (StepV {
                axis: st.axis,
                test: st.node_test@,
                preds: exprs_v(st.predicates@),
            }),
            nodes_ok(ix, ctx@),
            k <= ctx@.len(),
            out@ == semantics::fused_grouped(ix, o, ctx@, sv, k as int),
            nodes_ok(ix, out@),
        decreases ctx@.len() - k,
    {
        let matched = eval_fused_one(index, ctx[k], &st.node_test);
        let groups = group_by_parent(index, &matched);
        let ghost parents = parent_entries(ix, matched@, matched@.len() as int);
        let ghost preds = sv.preds;
        let ghost before = out@;
        let mut g: usize = 0;
        proof {
            semantics_unfold::unfold_groups(ix, o, preds, matched@, parents, 0);
            assert(before + Seq::<XPathNode>::empty() =~= before);
            assert(decreases_to!(sv => sv.preds));
        }
        while g < groups.len()
            invariant
                index.wf(),
                ix == *index,
                is_arithmetic(*f),
                o == answers(*f),
                sv == step_v(*st),
                preds == sv.preds,
                preds == exprs_v(st.predicates@),
                decreases_to!(sv => sv.preds),
                parents == parent_entries(ix, matched@, matched@.len() as int),
                groups@.len() == parents.len(),
                forall|h: int|
                    0 <= h < parents.len() ==> (#[trigger] groups@[h])@ == siblings_under(
                        ix,
                        matched@,
                        parents[h],
                        matched@.len() as int,
                    ),
                forall|h: int| 0 <= h < groups@.len() ==> nodes_ok(ix, (#[trigger] groups@[h])@),
                g <= groups@.len(),
                out@ == before + semantics::groups(ix, o, preds, matched@, parents, g as int),
                nodes_ok(ix, out@),
            decreases groups@.len() - g,
        {
            let mut kept = apply_predicates(index, f, &st.predicates, copy_nodes(&groups[g]));
            proof {
                semantics_unfold::unfold_groups(ix, o, preds, matched@, parents, g + 1);
                assert(out@ + kept@ =~= before + (semantics::groups(
                    ix,
                    o,
                    preds,
                    matched@,
                    parents,
                    g as int,
                ) + kept@));
            }
            out.append(&mut kept);
            g += 1;
        }
        proof {
            semantics_unfold::unfold_fused_grouped(ix, o, ctx@, sv, k + 1);
        }
        k += 1;
    }
    tidy_nodes(index, &mut out);
    out
}

/// A copy of a node list.
fn copy_nodes(nodes: &Vec<XPathNode>) -> (r: Vec<XPathNode>)
    ensures
        r@ == nodes@,
{
    let mut out: Vec<XPathNode> = Vec::new();
    let mut i: usize = 0;
    while i < nodes.len()
        invariant
            i <= nodes@.len(),
            out@ == nodes@.take(i as int),
        decreases nodes@.len() - i,
    {
        out.push(nodes[i]);
        assert(out@ =~= nodes@.take(i + 1));
        i += 1;
    }
    assert(nodes@.take(i as int) =~= nodes@);
    out
}

/// What a step selects from a context.
fn eval_step<F: Fn(NumberOp) -> NumberReply>(
    index: &XmlIndex,
    f: &F,
    ctx: &Vec<XPathNode>,
    st: &Step,
) -> (r: Vec<XPathNode>)
    requires
        index.wf(),
        is_arithmetic(*f),
        nodes_ok(*index, ctx@),
    ensures
        r@ == semantics::step_nodes(*index, answers(*f), ctx@, step_v(*st)),
        nodes_ok(*index, r@),
    decreases step_v(*st), 9int, 0int,
{
    let ghost o = answers(*f);
    let ghost sv = step_v(*st);
    let ghost ix = *index;
    let mut out: Vec<XPathNode> = Vec::new();
    let mut k: usize = 0;
    proof {
        lemma_step_v(*st);
        semantics_unfold::unfold_step_nodes(ix, o, ctx@, sv);
        semantics_unfold::unfold_step_over(ix, o, ctx@, sv, 0);
        assert(decreases_to!(sv => sv.preds));
    }
    while k < ctx.len()
        invariant
            index.wf(),
            ix == *index,
            is_arithmetic(*f),
            o == answers(*f),
            sv == step_v(*st),
            sv == (StepV {
                axis: st.axis,
                test: st.node_test@,
                preds: exprs_v(st.predicates@),
            }),
            decreases_to!(sv => sv.preds),
            nodes_ok(ix, ctx@),
            k <= ctx@.len(),
            out@ == semantics::step_over(ix, o, ctx@, sv, k as int),
            nodes_ok(ix, out@),
        decreases ctx@.len() - k,
    {
        let candidates = eval_axis(index, ctx[k], st.axis, &st.node_test);
        let matched = if st.axis == Axis::Attribute {
            candidates
        } else {
            filter_nodes(index, &candidates, &st.node_test)
        };
        proof {
            assert(matched@ == tested_nodes(ix, ctx@[k as int], sv));
            lemma_exprs_v(st.predicates@);
            semantics_unfold::unfold_step_one(ix, o, ctx@[k as int], sv);
            semantics_unfold::unfold_step_over(ix, o, ctx@, sv, k + 1);
        }
        let mut kept = apply_predicates(index, f, &st.predicates, matched);
        out.append(&mut kept);
        k += 1;
    }
    if ctx.len() > 1 {
        tidy_nodes(index, &mut out);
        out
    } else if is_reverse_axis(st.axis) {
        let turned = reversed(&out);
        assert forall|i: int| 0 <= i < turned@.len() implies node_ok(ix, #[trigger] turned@[i]) by {
            assert(node_ok(ix, out@[out@.len() - 1 - i]));
        }
        turned
    } else {
        out
    }
}

/// Whether an axis lists the nodes nearest to a node first.
fn is_reverse_axis(axis: Axis) -> (r: bool)
    ensures
        r == semantics::is_reverse(axis),
{
    axis == Axis::Ancestor || axis == Axis::AncestorOrSelf || axis == Axis::Preceding || axis
        == Axis::PrecedingSibling
}

/// The nodes that pass all predicates, one after the other.
fn apply_predicates<F: Fn(NumberOp) -> NumberReply>(
    index: &XmlIndex,
    f: &F,
    preds: &Vec<XPathExpr>,
    nodes: Vec<XPathNode>,
) -> (r: Vec<XPathNode>)
    requires
        index.wf(),
        is_arithmetic(*f),
        nodes_ok(*index, nodes@),
    ensures
        r@ == semantics::filter_all(
            *index,
            answers(*f),
            exprs_v(preds@),
            exprs_v(preds@).len() as int,
            nodes@,
        ),
        nodes_ok(*index, r@),
    decreases exprs_v(preds@), 5int, 0int,
{
    let ghost o = answers(*f);
    let ghost pv = exprs_v(preds@);
    let ghost ix = *index;
    let ghost first = nodes@;
    proof {
        lemma_exprs_v(preds@);
        semantics_unfold::unfold_filter_all(ix, o, pv, 0, first);
    }
    let mut kept = nodes;
    let mut k: usize = 0;
    while k < preds.len()
        invariant
            index.wf(),
            ix == *index,
            is_arithmetic(*f),
            o == answers(*f),
            pv == exprs_v(preds@),
            pv.len() == preds@.len(),
            forall|j: int| 0 <= j < preds@.len() ==> #[trigger] pv[j] == expr_v(preds@[j]),
            k <= preds@.len(),
            kept@ == semantics::filter_all(ix, o, pv, k as int, first),
            nodes_ok(ix, kept@),
        decreases preds@.len() - k,
    {
        proof {
            semantics_unfold::unfold_filter_all(ix, o, pv, k + 1, first);
            assert(pv[k as int] == expr_v(preds@[k as int]));
        }
        kept = apply_predicate(index, f, &kept, &preds[k]);
        k += 1;
    }
    kept
}

/// The node at an index, as a list.
fn pick_node(index: &XmlIndex, nodes: &Vec<XPathNode>, i: Option<usize>, Ghost(at): Ghost<
    Option<int>,
>) -> (r: Vec<XPathNode>)
    requires
        nodes_ok(*index, nodes@),
        match i {
            Some(k) => at == Some(k as int) && k < nodes@.len(),
            None => at is None,
        },
    ensures
        r@ == semantics::node_at(nodes@, at),
        nodes_ok(*index, r@),
{
    let mut out: Vec<XPathNode> = Vec::new();
    match i {
        Some(k) => out.push(nodes[k]),
        None => {},
    }
    assert(out@ =~= semantics::node_at(nodes@, at));
    out
}

/// The nodes that pass a predicate. A number selects a position.
fn apply_predicate<F: Fn(NumberOp) -> NumberReply>(
    index: &XmlIndex,
    f: &F,
    nodes: &Vec<XPathNode>,
    pred: &XPathExpr,
) -> (r: Vec<XPathNode>)
    requires
        index.wf(),
        is_arithmetic(*f),
        nodes_ok(*index, nodes@),
    ensures
        r@ == semantics::filtered_by(*index, answers(*f), expr_v(*pred), nodes@),
        nodes_ok(*index, r@),
    decreases expr_v(*pred), 4int, 0int,
{
    let ghost o = answers(*f);
    let ghost ix = *index;
    proof {
        lemma_expr_v(*pred);
        semantics_unfold::unfold_filtered_by(ix, o, expr_v(*pred), nodes@);
    }
    let size: usize = nodes.len();
    match pred {
        XPathExpr::NumberLiteral(t) => {
            let n = ask_number(f, NumberOp::Parse(t.clone()));
            let i = ask_index(f, NumberOp::Position(n, size), size);
            pick_node(
                index,
                nodes,
                i,
                Ghost(reply_index(o(OpV::Position(n, size)), size as int)),
            )
        },
        _ => keep_nodes(index, f, nodes, pred),
    }
}

/// The nodes for which a predicate holds.
fn keep_nodes<F: Fn(NumberOp) -> NumberReply>(
    index: &XmlIndex,
    f: &F,
    nodes: &Vec<XPathNode>,
    pred: &XPathExpr,
) -> (r: Vec<XPathNode>)
    requires
        index.wf(),
        is_arithmetic(*f),
        nodes_ok(*index, nodes@),
    ensures
        r@ == semantics::kept_nodes(
            *index,
            answers(*f),
            expr_v(*pred),
            nodes@,
            nodes@.len() as int,
        ),
        nodes_ok(*index, r@),
    decreases expr_v(*pred), 3int, 0int,
{
    let ghost o = answers(*f);
    let ghost ix = *index;
    let ghost pv = expr_v(*pred);
    let mut out: Vec<XPathNode> = Vec::new();
    let n: usize = nodes.len();
    let mut k: usize = 0;
    proof {
        semantics_unfold::unfold_kept_nodes(ix, o, pv, nodes@, 0);
    }
    while k < n
        invariant
            index.wf(),
            ix == *index,
            is_arithmetic(*f),
            o == answers(*f),
            pv == expr_v(*pred),
            n == nodes@.len(),
            nodes_ok(ix, nodes@),
            k <= n,
            out@ == semantics::kept_nodes(ix, o, pv, nodes@, k as int),
            nodes_ok(ix, out@),
        decreases n - k,
    {
        proof {
            semantics_unfold::unfold_kept_nodes(ix, o, pv, nodes@, k + 1);
        }
        if predicate_holds(index, f, nodes[k], pred, k + 1, n) {
            out.push(nodes[k]);
        }
        k += 1;
    }
    out
}

/// Whether a predicate holds of a node at a position.
fn predicate_holds<F: Fn(NumberOp) -> NumberReply>(
    index: &XmlIndex,
    f: &F,
    node: XPathNode,
    pred: &XPathExpr,
    pos: usize,
    size: usize,
) -> (r: bool)
    requires
        index.wf(),
        is_arithmetic(*f),
        node_ok(*index, node),
    ensures
        r == semantics::holds(*index, answers(*f), expr_v(*pred), node, pos, size),
    decreases expr_v(*pred), 2int, 0int,
{
    let ghost o = answers(*f);
    proof {
        lemma_expr_v(*pred);
        semantics_unfold::unfold_holds(*index, o, expr_v(*pred), node, pos, size);
    }
    if is_node_selection(pred) {
        let nodes = evaluate_in_context(index, f, node, pred);
        return nodes.len() > 0;
    }
    let v = eval_predicate_value(index, f, node, pred, pos, size);
    match v {
        XPathValue::Number(n) => {
            let p = ask_number(f, NumberOp::Count(pos));
            ask_flag(f, NumberOp::Equal(p, n))
        },
        _ => v.is_truthy(f),
    }
}

/// Whether an expression selects nodes.
fn is_node_selection(e: &XPathExpr) -> (r: bool)
    ensures
        r == semantics::selects_nodes(expr_v(*e)),
{
    proof {
        lemma_expr_v(*e);
    }
    match e {
        XPathExpr::LocationPath(_) => true,
        XPathExpr::Union(_) => true,
        XPathExpr::FilterPath(_, _) => true,
        XPathExpr::GlobalFilter(_, _) => true,
        XPathExpr::FunctionCall(name, _) => str_eq(name.as_str(), "id"),
        _ => false,
    }
}

/// The truth of an expression at a node.
fn eval_truth<F: Fn(NumberOp) -> NumberReply>(
    index: &XmlIndex,
    f: &F,
    node: XPathNode,
    e: &XPathExpr,
    pos: usize,
    size: usize,
) -> (r: bool)
    requires
        index.wf(),
        is_arithmetic(*f),
        node_ok(*index, node),
    ensures
        r == semantics::truth(*index, answers(*f), expr_v(*e), node, pos, size),
    decreases expr_v(*e), 2int, 0int,
{
    proof {
        semantics_unfold::unfold_truth(*index, answers(*f), expr_v(*e), node, pos, size);
    }
    if is_node_selection(e) {
        let nodes = evaluate_in_context(index, f, node, e);
        nodes.len() > 0
    } else {
        eval_predicate_value(index, f, node, e, pos, size).is_truthy(f)
    }
}

/// Whether a comparison holds of a value and the text of some node.
fn any_right<F: Fn(NumberOp) -> NumberReply>(
    index: &XmlIndex,
    f: &F,
    l: &XPathValue,
    op: BinaryOp,
    nodes: &Vec<XPathNode>,
) -> (r: bool)
    requires
        index.wf(),
        is_arithmetic(*f),
        nodes_ok(*index, nodes@),
    ensures
        r == semantics::some_right(*index, answers(*f), l@, op, nodes@),
{
    let ghost o = answers(*f);
    if let XPathValue::Boolean(_) = l {
        return compare_values(f, l, op, &XPathValue::Boolean(nodes.len() > 0));
    }
    let mut i: usize = 0;
    while i < nodes.len()
        invariant
            index.wf(),
            is_arithmetic(*f),
            o == answers(*f),
            nodes_ok(*index, nodes@),
            i <= nodes@.len(),
            !(l@ is Bool),
            forall|j: int|
                0 <= j < i ==> !crate::xpath::values::compare(
                    o,
                    l@,
                    op,
                    ValueV::Str(string_value(*index, #[trigger] nodes@[j])),
                ),
        decreases nodes@.len() - i,
    {
        let v = XPathValue::String(node_string_value(index, nodes[i]));
        if compare_values(f, l, op, &v) {
            assert(v@ == ValueV::Str(string_value(*index, nodes@[i as int])));
            return true;
        }
        i += 1;
    }
    false
}

/// Whether a comparison holds of the text of some node and a value.
fn any_left<F: Fn(NumberOp) -> NumberReply>(
    index: &XmlIndex,
    f: &F,
    nodes: &Vec<XPathNode>,
    op: BinaryOp,
    r: &XPathValue,
) -> (b: bool)
    requires
        index.wf(),
        is_arithmetic(*f),
        nodes_ok(*index, nodes@),
    ensures
        b == semantics::some_left(*index, answers(*f), nodes@, op, r@),
{
    let ghost o = answers(*f);
    if let XPathValue::Boolean(_) = r {
        return compare_values(f, &XPathValue::Boolean(nodes.len() > 0), op, r);
    }
    let mut i: usize = 0;
    while i < nodes.len()
        invariant
            index.wf(),
            is_arithmetic(*f),
            o == answers(*f),
            nodes_ok(*index, nodes@),
            i <= nodes@.len(),
            !(r@ is Bool),
            forall|j: int|
                0 <= j < i ==> !crate::xpath::values::compare(
                    o,
                    ValueV::Str(string_value(*index, #[trigger] nodes@[j])),
                    op,
                    r@,
                ),
        decreases nodes@.len() - i,
    {
        let v = XPathValue::String(node_string_value(index, nodes[i]));
        if compare_values(f, &v, op, r) {
            assert(v@ == ValueV::Str(string_value(*index, nodes@[i as int])));
            return true;
        }
        i += 1;
    }
    false
}

/// Whether a comparison holds of the texts of some pair of nodes.
fn any_pair<F: Fn(NumberOp) -> NumberReply>(
    index: &XmlIndex,
    f: &F,
    left: &Vec<XPathNode>,
    op: BinaryOp,
    right: &Vec<XPathNode>,
) -> (r: bool)
    requires
        index.wf(),
        is_arithmetic(*f),
        nodes_ok(*index, left@),
        nodes_ok(*index, right@),
    ensures
        r == semantics::some_pair(*index, answers(*f), left@, op, right@),
{
    let ghost o = answers(*f);
    let mut i: usize = 0;
    while i < left.len()
        invariant
            index.wf(),
            is_arithmetic(*f),
            o == answers(*f),
            nodes_ok(*index, left@),
            nodes_ok(*index, right@),
            i <= left@.len(),
            forall|j: int|
                0 <= j < i ==> !semantics::some_right(
                    *index,
                    o,
                    ValueV::Str(string_value(*index, #[trigger] left@[j])),
                    op,
                    right@,
                ),
        decreases left@.len() - i,
    {
        let v = XPathValue::String(node_string_value(index, left[i]));
        if any_right(index, f, &v, op, right) {
            assert(v@ == ValueV::Str(string_value(*index, left@[i as int])));
            return true;
        }
        i += 1;
    }
    false
}

/// Whether an operator compares.
fn is_comparison_op(op: BinaryOp) -> (r: bool)
    ensures
        r == semantics::is_comparison(op),
{
    op == BinaryOp::Eq || op == BinaryOp::Neq || op == BinaryOp::Lt || op == BinaryOp::Gt || op
        == BinaryOp::Lte || op == BinaryOp::Gte
}

/// The text of the first node of a set.
fn first_text(index: &XmlIndex, nodes: &Vec<XPathNode>) -> (r: String)
    requires
        index.wf(),
        nodes_ok(*index, nodes@),
    ensures
        r@ == semantics::first_text(*index, nodes@),
{
    if nodes.len() > 0 {
        node_string_value(index, nodes[0])
    } else {
        empty_string()
    }
}

/// The value of an expression at a node.
fn eval_predicate_value<F: Fn(NumberOp) -> NumberReply>(
    index: &XmlIndex,
    f: &F,
    node: XPathNode,
    e: &XPathExpr,
    pos: usize,
    size: usize,
) -> (r: XPathValue)
    requires
        index.wf(),
        is_arithmetic(*f),
        node_ok(*index, node),
    ensures
        r@ == semantics::value(*index, answers(*f), expr_v(*e), node, pos, size),
    decreases expr_v(*e), 1int, 0int,
{
    let ghost o = answers(*f);
    proof {
        lemma_expr_v(*e);
        semantics_unfold::unfold_value(*index, o, expr_v(*e), node, pos, size);
    }
    match e {
        XPathExpr::StringLiteral(t) => XPathValue::String(t.clone()),
        XPathExpr::NumberLiteral(t) => XPathValue::Number(
            ask_number(f, NumberOp::Parse(t.clone())),
        ),
        XPathExpr::FunctionCall(name, args) => if str_eq(name.as_str(), "id") {
            let nodes = evaluate_in_context(index, f, node, e);
            XPathValue::String(first_text(index, &nodes))
        } else {
            eval_function(index, f, node, name.as_str(), args, pos, size)
        },
        XPathExpr::UnaryMinus(x) => {
            let v = eval_predicate_value(index, f, node, x, pos, size);
            XPathValue::Number(ask_number(f, NumberOp::Negate(v.as_number(f))))
        },
        XPathExpr::BinaryOp(l, op, r) => {
            if *op == BinaryOp::Or {
                let a = eval_truth(index, f, node, l, pos, size);
                let b = eval_truth(index, f, node, r, pos, size);
                return XPathValue::Boolean(a || b);
            }
            if *op == BinaryOp::And {
                let a = eval_truth(index, f, node, l, pos, size);
                let b = eval_truth(index, f, node, r, pos, size);
                return XPathValue::Boolean(a && b);
            }
            let left_path = is_node_selection(l);
            let right_path = is_node_selection(r);
            if is_comparison_op(*op) && (left_path || right_path) {
                let b = if left_path && right_path {
                    let left = evaluate_in_context(index, f, node, l);
                    let right = evaluate_in_context(index, f, node, r);
                    any_pair(index, f, &left, *op, &right)
                } else if left_path {
                    let left = evaluate_in_context(index, f, node, l);
                    let v = eval_predicate_value(index, f, node, r, pos, size);
                    any_left(index, f, &left, *op, &v)
                } else {
                    let right = evaluate_in_context(index, f, node, r);
                    let v = eval_predicate_value(index, f, node, l, pos, size);
                    any_right(index, f, &v, *op, &right)
                };
                XPathValue::Boolean(b)
            } else {
                let a = eval_predicate_value(index, f, node, l, pos, size);
                let b = eval_predicate_value(index, f, node, r, pos, size);
                match compute(f, &a, *op, &b) {
                    Some(n) => XPathValue::Number(n),
                    None => XPathValue::Boolean(compare_values(f, &a, *op, &b)),
                }
            }
        },
        _ => {
            let nodes = evaluate_in_context(index, f, node, e);
            XPathValue::String(first_text(index, &nodes))
        },
    }
}

/// What an expression selects from a node. Expressions that are no node sets select
/// nothing.
fn evaluate_in_context<F: Fn(NumberOp) -> NumberReply>(
    index: &XmlIndex,
    f: &F,
    node: XPathNode,
    e: &XPathExpr,
) -> (r: Vec<XPathNode>)
    requires
        index.wf(),
        is_arithmetic(*f),
        node_ok(*index, node),
    ensures
        r@ == semantics::in_context(*index, answers(*f), expr_v(*e), node),
        nodes_ok(*index, r@),
    decreases expr_v(*e), 0int, 0int,
{
    proof {
        lemma_expr_v(*e);
        semantics_unfold::unfold_in_context(*index, answers(*f), expr_v(*e), node);
    }
    match e {
        XPathExpr::LocationPath(path) => if path.absolute {
            eval_path(index, f, &path.steps, XPathNode::Element(DOC_ROOT))
        } else {
            let mut start: Vec<XPathNode> = Vec::new();
            start.push(node);
            assert(start@ =~= seq![node]);
            eval_steps(index, f, &path.steps, start)
        },
        XPathExpr::Union(parts) => {
            proof {
                lemma_exprs_v(parts@);
            }
            let mut out = evaluate_parts_in_context(index, f, node, parts);
            tidy_nodes(index, &mut out);
            out
        },
        XPathExpr::FilterPath(inner, steps) => {
            let ctx = evaluate_in_context(index, f, node, inner);
            eval_steps(index, f, steps, ctx)
        },
        XPathExpr::GlobalFilter(inner, preds) => {
            proof {
                lemma_exprs_v(preds@);
            }
            let nodes = evaluate_in_context(index, f, node, inner);
            apply_predicates(index, f, preds, nodes)
        },
        XPathExpr::FunctionCall(name, args) => if str_eq(name.as_str(), "id") {
            eval_id_function(index, args)
        } else {
            Vec::new()
        },
        _ => Vec::new(),
    }
}

/// What the parts of a union select from a node.
fn evaluate_parts_in_context<F: Fn(NumberOp) -> NumberReply>(
    index: &XmlIndex,
    f: &F,
    node: XPathNode,
    parts: &Vec<XPathExpr>,
) -> (r: Vec<XPathNode>)
    requires
        index.wf(),
        is_arithmetic(*f),
        node_ok(*index, node),
    ensures
        r@ == semantics::parts_in_context(
            *index,
            answers(*f),
            exprs_v(parts@),
            node,
            exprs_v(parts@).len() as int,
        ),
        nodes_ok(*index, r@),
    decreases exprs_v(parts@), 0int, 0int,
{
    let ghost o = answers(*f);
    let ghost pv = exprs_v(parts@);
    let mut out: Vec<XPathNode> = Vec::new();
    let n: usize = parts.len();
    let mut k: usize = 0;
    proof {
        lemma_exprs_v(parts@);
        semantics_unfold::unfold_parts_in_context(*index, o, pv, node, 0);
    }
    while k < n
        invariant
            index.wf(),
            is_arithmetic(*f),
            node_ok(*index, node),
            o == answers(*f),
            pv == exprs_v(parts@),
            n == parts@.len(),
            pv.len() == n,
            forall|j: int| 0 <= j < n ==> #[trigger] pv[j] == expr_v(parts@[j]),
            k <= n,
            out@ == semantics::parts_in_context(*index, o, pv, node, k as int),
            nodes_ok(*index, out@),
        decreases n - k,
    {
        proof {
            semantics_unfold::unfold_parts_in_context(*index, o, pv, node, k + 1);
            assert(pv[k as int] == expr_v(parts@[k as int]));
        }
        let mut more = evaluate_in_context(index, f, node, &parts[k]);
        out.append(&mut more);
        k += 1;
    }
    out
}

/// The value of an argument.
fn eval_arg<F: Fn(NumberOp) -> NumberReply>(
    index: &XmlIndex,
    f: &F,
    node: XPathNode,
    args: &Vec<XPathExpr>,
    i: usize,
    pos: usize,
    size: usize,
) -> (r: XPathValue)
    requires
        index.wf(),
        is_arithmetic(*f),
        node_ok(*index, node),
    ensures
        r@ == semantics::arg(*index, answers(*f), exprs_v(args@), i as int, node, pos, size),
    decreases exprs_v(args@), 0int, 0int,
{
    proof {
        semantics_unfold::unfold_arg(
            *index,
            answers(*f),
            exprs_v(args@),
            i as int,
            node,
            pos,
            size,
        );
        lemma_exprs_v(args@);
    }
    if i < args.len() {
        assert(exprs_v(args@)[i as int] == expr_v(args@[i as int]));
        eval_predicate_value(index, f, node, &args[i], pos, size)
    } else {
        XPathValue::String(empty_string())
    }
}

/// What the first argument selects.
fn eval_arg_nodes<F: Fn(NumberOp) -> NumberReply>(
    index: &XmlIndex,
    f: &F,
    node: XPathNode,
    args: &Vec<XPathExpr>,
) -> (r: Vec<XPathNode>)
    requires
        index.wf(),
        is_arithmetic(*f),
        node_ok(*index, node),
    ensures
        r@ == semantics::arg_nodes(*index, answers(*f), exprs_v(args@), 0, node),
        nodes_ok(*index, r@),
    decreases exprs_v(args@), 0int, 0int,
{
    proof {
        semantics_unfold::unfold_arg_nodes(*index, answers(*f), exprs_v(args@), 0, node);
        lemma_exprs_v(args@);
    }
    if args.len() > 0 {
        assert(exprs_v(args@)[0] == expr_v(args@[0]));
        evaluate_in_context(index, f, node, &args[0])
    } else {
        Vec::new()
    }
}

/// The texts of all arguments, joined.
fn join_args<F: Fn(NumberOp) -> NumberReply>(
    index: &XmlIndex,
    f: &F,
    node: XPathNode,
    args: &Vec<XPathExpr>,
    pos: usize,
    size: usize,
) -> (r: String)
    requires
        index.wf(),
        is_arithmetic(*f),
        node_ok(*index, node),
    ensures
        r@ == semantics::joined_args(
            *index,
            answers(*f),
            exprs_v(args@),
            node,
            pos,
            size,
            exprs_v(args@).len() as int,
        ),
    decreases exprs_v(args@), 1int, 0int,
{
    let ghost o = answers(*f);
    let ghost av = exprs_v(args@);
    proof {
        lemma_exprs_v(args@);
        semantics_unfold::unfold_joined_args(*index, o, av, node, pos, size, 0);
    }
    let mut out = empty_string();
    let mut k: usize = 0;
    while k < args.len()
        invariant
            index.wf(),
            is_arithmetic(*f),
            node_ok(*index, node),
            o == answers(*f),
            av == exprs_v(args@),
            av.len() == args@.len(),
            k <= args@.len(),
            out@ == semantics::joined_args(*index, o, av, node, pos, size, k as int),
        decreases args@.len() - k,
    {
        proof {
            semantics_unfold::unfold_joined_args(*index, o, av, node, pos, size, k + 1);
        }
        let v = eval_arg(index, f, node, args, k, pos, size);
        out.append(v.as_string(f).as_str());
        k += 1;
    }
    out
}

/// Whether the language of a node matches the wanted one.
fn node_in_lang(index: &XmlIndex, node: XPathNode, wanted: &str) -> (r: bool)
    requires
        index.wf(),
        node_ok(*index, node),
    ensures
        r == in_lang(*index, node, wanted@),
{
    let tag: usize = match node {
        XPathNode::Element(i) => i,
        XPathNode::Text(i) => index.text_ranges[i].parent_tag as usize,
        XPathNode::Attribute(i, _) => i,
        XPathNode::Namespace(i, _) => i,
    };
    if tag >= index.tag_count() {
        return false;
    }
    let mut current: usize = tag;
    loop
        invariant
            index.wf(),
            current < index.tags(),
            tag == semantics::holder(*index, node),
            semantics::lang_of(*index, tag as int) == semantics::lang_of(*index, current as int),
        decreases current,
    {
        assert(index.doc().parents[current as int] == index.parents@[current as int]);
        match index.get_attribute(current, "xml:lang") {
            Some(lang) => {
                return !wanted.is_empty() && matches_lang(lang, wanted);
            },
            None => {},
        }
        let up: u32 = index.parents[current];
        if up == u32::MAX {
            return false;
        }
        current = up as usize;
    }
}

/// The value of a function call at a node.
#[verifier::rlimit(60)]
fn eval_function<F: Fn(NumberOp) -> NumberReply>(
    index: &XmlIndex,
    f: &F,
    node: XPathNode,
    name: &str,
    args: &Vec<XPathExpr>,
    pos: usize,
    size: usize,
) -> (r: XPathValue)
    requires
        index.wf(),
        is_arithmetic(*f),
        node_ok(*index, node),
    ensures
        r@ == semantics::call(*index, answers(*f), name@, exprs_v(args@), node, pos, size),
    decreases exprs_v(args@), 2int, 0int,
{
    let ghost o = answers(*f);
    let ghost av = exprs_v(args@);
    proof {
        lemma_exprs_v(args@);
        if args@.len() > 0 {
            assert(av[0] == expr_v(args@[0]));
        }
        semantics_unfold::unfold_call(*index, o, name@, av, node, pos, size);
        reveal(semantics::call_value);
    }
    let n: usize = args.len();
    if str_eq(name, "position") {
        return XPathValue::Number(ask_number(f, NumberOp::Count(pos)));
    }
    if str_eq(name, "last") {
        return XPathValue::Number(ask_number(f, NumberOp::Count(size)));
    }
    if str_eq(name, "count") {
        let nodes = eval_arg_nodes(index, f, node, args);
        return XPathValue::Number(ask_number(f, NumberOp::Count(nodes.len())));
    }
    if str_eq(name, "contains") {
        if n < 2 {
            return XPathValue::Boolean(false);
        }
        let a = eval_arg(index, f, node, args, 0, pos, size).as_string(f);
        let b = eval_arg(index, f, node, args, 1, pos, size).as_string(f);
        return XPathValue::Boolean(contains_text(a.as_str(), b.as_str()));
    }
    if str_eq(name, "starts-with") {
        if n < 2 {
            return XPathValue::Boolean(false);
        }
        let a = eval_arg(index, f, node, args, 0, pos, size).as_string(f);
        let b = eval_arg(index, f, node, args, 1, pos, size).as_string(f);
        return XPathValue::Boolean(starts_with_text(a.as_str(), b.as_str()));
    }
    if str_eq(name, "string-length") {
        let t = own_text(index, f, node, args, pos, size);
        let n: usize = chars_of(t.as_str()).len();
        return XPathValue::Number(ask_number(f, NumberOp::Count(n)));
    }
    if str_eq(name, "normalize-space") {
        let t = own_text(index, f, node, args, pos, size);
        return XPathValue::String(normalize_space(t.as_str()));
    }
    if str_eq(name, "not") {
        return XPathValue::Boolean(!arg_truth(index, f, node, args, pos, size));
    }
    if str_eq(name, "true") {
        return XPathValue::Boolean(true);
    }
    if str_eq(name, "false") {
        return XPathValue::Boolean(false);
    }
    if str_eq(name, "name") {
        return XPathValue::String(name_of_argument(index, f, node, args));
    }
    if str_eq(name, "local-name") {
        let whole = name_of_argument(index, f, node, args);
        if contains_text(whole.as_str(), ":") {
            return XPathValue::String(after_part(whole.as_str(), ":"));
        }
        return XPathValue::String(whole);
    }
    if str_eq(name, "namespace-uri") {
        return XPathValue::String(uri_of_argument(index, f, node, args));
    }
    if str_eq(name, "string") {
        return XPathValue::String(own_text(index, f, node, args, pos, size));
    }
    if str_eq(name, "concat") {
        return XPathValue::String(join_args(index, f, node, args, pos, size));
    }
    if str_eq(name, "substring") {
        if n < 2 {
            return XPathValue::String(empty_string());
        }
        return XPathValue::String(substring(index, f, node, args, pos, size));
    }
    if str_eq(name, "floor") {
        let a = arg_number(index, f, node, args, pos, size);
        return XPathValue::Number(ask_number(f, NumberOp::Floor(a)));
    }
    if str_eq(name, "ceiling") {
        let a = arg_number(index, f, node, args, pos, size);
        return XPathValue::Number(ask_number(f, NumberOp::Ceiling(a)));
    }
    if str_eq(name, "round") {
        let a = arg_number(index, f, node, args, pos, size);
        return XPathValue::Number(ask_number(f, NumberOp::Round(a)));
    }
    if str_eq(name, "number") {
        if n > 0 {
            return XPathValue::Number(arg_number(index, f, node, args, pos, size));
        }
        return XPathValue::Number(
            ask_number(f, NumberOp::Parse(node_string_value(index, node))),
        );
    }
    if str_eq(name, "sum") {
        if n == 0 {
            return XPathValue::Number(ask_number(f, NumberOp::Count(0)));
        }
        let nodes = eval_arg_nodes(index, f, node, args);
        let values = node_string_values(index, &nodes);
        return XPathValue::Number(ask_number(f, NumberOp::Sum(values)));
    }
    if str_eq(name, "translate") {
        if n < 3 {
            return XPathValue::String(empty_string());
        }
        let a = eval_arg(index, f, node, args, 0, pos, size).as_string(f);
        let b = eval_arg(index, f, node, args, 1, pos, size).as_string(f);
        let c = eval_arg(index, f, node, args, 2, pos, size).as_string(f);
        return XPathValue::String(translate(a.as_str(), b.as_str(), c.as_str()));
    }
    if str_eq(name, "substring-before") {
        if n < 2 {
            return XPathValue::String(empty_string());
        }
        let a = eval_arg(index, f, node, args, 0, pos, size).as_string(f);
        let b = eval_arg(index, f, node, args, 1, pos, size).as_string(f);
        return XPathValue::String(before_part(a.as_str(), b.as_str()));
    }
    if str_eq(name, "substring-after") {
        if n < 2 {
            return XPathValue::String(empty_string());
        }
        let a = eval_arg(index, f, node, args, 0, pos, size).as_string(f);
        let b = eval_arg(index, f, node, args, 1, pos, size).as_string(f);
        return XPathValue::String(after_part(a.as_str(), b.as_str()));
    }
    if str_eq(name, "boolean") {
        return XPathValue::Boolean(arg_truth(index, f, node, args, pos, size));
    }
    if str_eq(name, "lang") {
        if n == 0 {
            return XPathValue::Boolean(false);
        }
        let a = eval_arg(index, f, node, args, 0, pos, size).as_string(f);
        return XPathValue::Boolean(node_in_lang(index, node, a.as_str()));
    }
    XPathValue::String(empty_string())
}

/// The name of a tag or an attribute, or the prefix of a namespace.
fn name_of_node(index: &XmlIndex, node: XPathNode) -> (r: String)
    requires
        index.wf(),
        node_ok(*index, node),
    ensures
        r@ == semantics::node_name(*index, node),
{
    match node {
        XPathNode::Element(i) => index.tag_name(i).to_owned(),
        XPathNode::Attribute(i, h) => find_hashed(index, i, h),
        XPathNode::Namespace(i, h) => find_prefix(index, i, h),
        XPathNode::Text(_) => empty_string(),
    }
}

/// The name of the first node that the first argument selects, or of the node when
/// there is no argument.
fn name_of_argument<F: Fn(NumberOp) -> NumberReply>(
    index: &XmlIndex,
    f: &F,
    node: XPathNode,
    args: &Vec<XPathExpr>,
) -> (r: String)
    requires
        index.wf(),
        is_arithmetic(*f),
        node_ok(*index, node),
    ensures
        r@ == semantics::name_of(
            *index,
            exprs_v(args@),
            semantics::arg_nodes(*index, answers(*f), exprs_v(args@), 0, node),
            node,
        ),
    decreases exprs_v(args@), 1int, 0int,
{
    proof {
        lemma_exprs_v(args@);
    }
    if args.len() == 0 {
        return name_of_node(index, node);
    }
    let nodes = eval_arg_nodes(index, f, node, args);
    if nodes.len() > 0 {
        name_of_node(index, nodes[0])
    } else {
        empty_string()
    }
}

/// The namespace URI of the first node that the first argument selects, or of the
/// node when there is no argument.
fn uri_of_argument<F: Fn(NumberOp) -> NumberReply>(
    index: &XmlIndex,
    f: &F,
    node: XPathNode,
    args: &Vec<XPathExpr>,
) -> (r: String)
    requires
        index.wf(),
        is_arithmetic(*f),
        node_ok(*index, node),
    ensures
        ({
            let selected = semantics::arg_nodes(*index, answers(*f), exprs_v(args@), 0, node);
            r@ == (if args@.len() == 0 {
                node_uri(*index, node)
            } else if selected.len() > 0 {
                node_uri(*index, selected[0])
            } else {
                Seq::empty()
            })
        }),
    decreases exprs_v(args@), 1int, 0int,
{
    if args.len() == 0 {
        return namespace_uri(index, node);
    }
    let nodes = eval_arg_nodes(index, f, node, args);
    if nodes.len() > 0 {
        namespace_uri(index, nodes[0])
    } else {
        empty_string()
    }
}

/// The text of the first argument, or of the node when there is none.
fn own_text<F: Fn(NumberOp) -> NumberReply>(
    index: &XmlIndex,
    f: &F,
    node: XPathNode,
    args: &Vec<XPathExpr>,
    pos: usize,
    size: usize,
) -> (r: String)
    requires
        index.wf(),
        is_arithmetic(*f),
        node_ok(*index, node),
    ensures
        r@ == (if args@.len() > 0 {
            crate::xpath::values::text_value(
                answers(*f),
                semantics::arg(*index, answers(*f), exprs_v(args@), 0, node, pos, size),
            )
        } else {
            string_value(*index, node)
        }),
    decreases exprs_v(args@), 1int, 0int,
{
    if args.len() > 0 {
        eval_arg(index, f, node, args, 0, pos, size).as_string(f)
    } else {
        node_string_value(index, node)
    }
}

/// The first argument as a number, or 0 when there is none.
fn arg_number<F: Fn(NumberOp) -> NumberReply>(
    index: &XmlIndex,
    f: &F,
    node: XPathNode,
    args: &Vec<XPathExpr>,
    pos: usize,
    size: usize,
) -> (r: Number)
    requires
        index.wf(),
        is_arithmetic(*f),
        node_ok(*index, node),
    ensures
        r == (if args@.len() > 0 {
            crate::xpath::values::number_value(
                answers(*f),
                semantics::arg(*index, answers(*f), exprs_v(args@), 0, node, pos, size),
            )
        } else {
            count(answers(*f), 0)
        }),
    decreases exprs_v(args@), 1int, 0int,
{
    if args.len() > 0 {
        eval_arg(index, f, node, args, 0, pos, size).as_number(f)
    } else {
        ask_number(f, NumberOp::Count(0))
    }
}

/// The first argument as a truth value: a path holds when it selects something.
fn arg_truth<F: Fn(NumberOp) -> NumberReply>(
    index: &XmlIndex,
    f: &F,
    node: XPathNode,
    args: &Vec<XPathExpr>,
    pos: usize,
    size: usize,
) -> (r: bool)
    requires
        index.wf(),
        is_arithmetic(*f),
        node_ok(*index, node),
    ensures
        r == (if args@.len() > 0 && semantics::selects_nodes(exprs_v(args@)[0]) {
            semantics::arg_nodes(*index, answers(*f), exprs_v(args@), 0, node).len() > 0
        } else {
            args@.len() > 0 && crate::xpath::values::truthy(
                answers(*f),
                semantics::arg(*index, answers(*f), exprs_v(args@), 0, node, pos, size),
            )
        }),
    decreases exprs_v(args@), 1int, 0int,
{
    proof {
        lemma_exprs_v(args@);
    }
    if args.len() == 0 {
        return false;
    }
    assert(exprs_v(args@)[0] == expr_v(args@[0]));
    if is_node_selection(&args[0]) {
        let nodes = eval_arg_nodes(index, f, node, args);
        nodes.len() > 0
    } else {
        eval_arg(index, f, node, args, 0, pos, size).is_truthy(f)
    }
}

/// `substring(text, start)` or `substring(text, start, length)`.
fn substring<F: Fn(NumberOp) -> NumberReply>(
    index: &XmlIndex,
    f: &F,
    node: XPathNode,
    args: &Vec<XPathExpr>,
    pos: usize,
    size: usize,
) -> (r: String)
    requires
        index.wf(),
        is_arithmetic(*f),
        node_ok(*index, node),
        args@.len() >= 2,
    ensures
        ({
            let o = answers(*f);
            let av = exprs_v(args@);
            let t0 = crate::xpath::values::text_value(
                o,
                semantics::arg(*index, o, av, 0, node, pos, size),
            );
            let start = crate::xpath::values::number_value(
                o,
                semantics::arg(*index, o, av, 1, node, pos, size),
            );
            let length = if args@.len() >= 3 {
                Some(
                    crate::xpath::values::number_value(
                        o,
                        semantics::arg(*index, o, av, 2, node, pos, size),
                    ),
                )
            } else {
                None
            };
            r@ == semantics::span_of(
                t0,
                crate::xpath::numbers::reply_span(
                    o(OpV::Substring(start, length, t0.len() as usize)),
                    t0.len() as int,
                ),
            )
        }),
    decreases exprs_v(args@), 1int, 0int,
{
    let text = eval_arg(index, f, node, args, 0, pos, size).as_string(f);
    let start = eval_arg(index, f, node, args, 1, pos, size).as_number(f);
    let length: Option<Number> = if args.len() >= 3 {
        Some(eval_arg(index, f, node, args, 2, pos, size).as_number(f))
    } else {
        None
    };
    let chars = chars_of(text.as_str());
    let count: usize = chars.len();
    let (a, b) = ask_span(f, NumberOp::Substring(start, length, count), count);
    string_of(chars.as_slice(), a, b)
}

/// The message for an expression that is no query.
pub open spec fn unsupported() -> Seq<char> {
    "Only location paths, unions, and id() are supported"@
}

/// The outcome of a query is the given selection.
pub open spec fn selects(
    ix: XmlIndex,
    r: std::result::Result<Vec<XPathNode>, SimdXmlError>,
    selection: Option<Seq<XPathNode>>,
) -> bool {
    match r {
        Ok(nodes) => selection == Some(nodes@) && nodes_ok(ix, nodes@),
        Err(e) => selection is None && (e matches SimdXmlError::XPathEvalError(m) && m@
            == unsupported()),
    }
}

fn unsupported_error() -> (r: SimdXmlError)
    ensures
        r matches SimdXmlError::XPathEvalError(m) && m@ == unsupported(),
{
    SimdXmlError::XPathEvalError(
        String::from_str("Only location paths, unions, and id() are supported"),
    )
}

/// What `id(..)` selects.
fn eval_id_function(index: &XmlIndex, args: &Vec<XPathExpr>) -> (r: Vec<XPathNode>)
    requires
        index.wf(),
    ensures
        r@ == semantics::id_nodes(*index, exprs_v(args@)),
        nodes_ok(*index, r@),
{
    proof {
        lemma_exprs_v(args@);
    }
    if args.len() == 0 {
        return Vec::new();
    }
    assert(exprs_v(args@)[0] == expr_v(args@[0]));
    proof {
        lemma_expr_v(args@[0]);
    }
    let id = match &args[0] {
        XPathExpr::StringLiteral(t) => t,
        _ => {
            return Vec::new();
        },
    };
    let n: usize = index.tag_count();
    let mut k: usize = 0;
    while k < n
        invariant
            index.wf(),
            n == index.tags(),
            k <= n,
            semantics::id_nodes(*index, exprs_v(args@)) == semantics::element_with_id(
                *index,
                id@,
                k as int,
            ),
        decreases n - k,
    {
        if is_element_type(index.tag_types[k]) {
            match index.get_attribute(k, "id") {
                Some(v) => if str_eq(v, id.as_str()) {
                    let mut out: Vec<XPathNode> = Vec::new();
                    out.push(XPathNode::Element(k));
                    assert(out@ =~= seq![XPathNode::Element(k)]);
                    return out;
                },
                None => {},
            }
        }
        k += 1;
    }
    Vec::new()
}

/// Evaluates a query against an index: the nodes it selects, or an error when
/// the expression is no query.
pub fn evaluate<F: Fn(NumberOp) -> NumberReply>(index: &XmlIndex, expr: &XPathExpr, f: &F) -> (r:
    std::result::Result<Vec<XPathNode>, SimdXmlError>)
    requires
        index.wf(),
        is_arithmetic(*f),
    ensures
        selects(*index, r, semantics::query(*index, answers(*f), expr_v(*expr))),
    decreases expr_v(*expr), 1int, 0int,
{
    let ghost o = answers(*f);
    proof {
        lemma_expr_v(*expr);
        semantics_unfold::unfold_query(*index, o, expr_v(*expr));
    }
    match expr {
        XPathExpr::LocationPath(path) => Ok(
            eval_path(index, f, &path.steps, XPathNode::Element(DOC_ROOT)),
        ),
        XPathExpr::Union(parts) => match evaluate_parts(index, parts, f) {
            Ok(nodes) => {
                let mut all = nodes;
                tidy_nodes(index, &mut all);
                Ok(all)
            },
            Err(e) => Err(e),
        },
        XPathExpr::FunctionCall(name, args) => if str_eq(name.as_str(), "id") {
            Ok(eval_id_function(index, args))
        } else {
            Err(unsupported_error())
        },
        XPathExpr::FilterPath(inner, steps) => match evaluate(index, inner, f) {
            Ok(ctx) => Ok(eval_steps(index, f, steps, ctx)),
            Err(e) => Err(e),
        },
        XPathExpr::GlobalFilter(inner, preds) => match evaluate(index, inner, f) {
            Ok(nodes) => {
                proof {
                    lemma_exprs_v(preds@);
                }
                Ok(apply_predicates(index, f, preds, nodes))
            },
            Err(e) => Err(e),
        },
        _ => Err(unsupported_error()),
    }
}

/// What the parts of a union select.
fn evaluate_parts<F: Fn(NumberOp) -> NumberReply>(
    index: &XmlIndex,
    parts: &Vec<XPathExpr>,
    f: &F,
) -> (r: std::result::Result<Vec<XPathNode>, SimdXmlError>)
    requires
        index.wf(),
        is_arithmetic(*f),
    ensures
        selects(
            *index,
            r,
            semantics::query_parts(
                *index,
                answers(*f),
                exprs_v(parts@),
                exprs_v(parts@).len() as int,
            ),
        ),
    decreases exprs_v(parts@), 0int, 0int,
{
    let ghost o = answers(*f);
    let ghost pv = exprs_v(parts@);
    let ghost ix = *index;
    proof {
        lemma_exprs_v(parts@);
        semantics_unfold::unfold_query_parts(ix, o, pv, 0);
    }
    let mut out: Vec<XPathNode> = Vec::new();
    let mut k: usize = 0;
    let n: usize = parts.len();
    assert(out@ =~= Seq::empty());
    while k < n
        invariant
            index.wf(),
            ix == *index,
            is_arithmetic(*f),
            o == answers(*f),
            pv == exprs_v(parts@),
            n == parts@.len(),
            pv.len() == n,
            forall|j: int| 0 <= j < n ==> #[trigger] pv[j] == expr_v(parts@[j]),
            k <= n,
            semantics::query_parts(ix, o, pv, k as int) == Some(out@),
            nodes_ok(ix, out@),
        decreases n - k,
    {
        proof {
            assert(pv[k as int] == expr_v(parts@[k as int]));
            semantics_unfold::unfold_query_parts(ix, o, pv, k + 1);
        }
        match evaluate(index, &parts[k], f) {
            Ok(nodes) => {
                let mut more = nodes;
                out.append(&mut more);
            },
            Err(e) => {
                proof {
                    lemma_parts_fail(ix, o, pv, k + 1, n as int);
                }
                return Err(e);
            },
        }
        k += 1;
    }
    Ok(out)
}

/// A union with a part that is no query is no query.
proof fn lemma_parts_fail(
    ix: XmlIndex,
    o: crate::xpath::numbers::Oracle,
    parts: Seq<ExprV>,
    j: int,
    k: int,
)
    requires
        0 < j <= k <= parts.len(),
        semantics::query_parts(ix, o, parts, j) is None,
    ensures
        semantics::query_parts(ix, o, parts, k) is None,
    decreases k - j,
{
    if j < k {
        lemma_parts_fail(ix, o, parts, j, k - 1);
        semantics_unfold::unfold_query_parts(ix, o, parts, k);
    }
}

/// A union with a part that is no query from a node is no query from it.
proof fn lemma_parts_from_fail(
    ix: XmlIndex,
    o: crate::xpath::numbers::Oracle,
    parts: Seq<ExprV>,
    node: XPathNode,
    j: int,
    k: int,
)
    requires
        0 < j <= k <= parts.len(),
        semantics::query_parts_from(ix, o, parts, node, j) is None,
    ensures
        semantics::query_parts_from(ix, o, parts, node, k) is None,
    decreases k - j,
{
    if j < k {
        lemma_parts_from_fail(ix, o, parts, node, j, k - 1);
        semantics_unfold::unfold_query_parts_from(ix, o, parts, node, k);
    }
}

/// Evaluates a query from a context node. Relative paths start there, absolute ones
/// at the document root.
pub fn evaluate_from_context<F: Fn(NumberOp) -> NumberReply>(
    index: &XmlIndex,
    expr: &XPathExpr,
    context_node: XPathNode,
    f: &F,
) -> (r: std::result::Result<Vec<XPathNode>, SimdXmlError>)
    requires
        index.wf(),
        is_arithmetic(*f),
        node_ok(*index, context_node),
    ensures
        selects(
            *index,
            r,
            semantics::query_from(*index, answers(*f), expr_v(*expr), context_node),
        ),
    decreases expr_v(*expr), 3int, 0int,
{
    let ghost o = answers(*f);
    let ghost ix = *index;
    proof {
        lemma_expr_v(*expr);
        semantics_unfold::unfold_query_from(ix, o, expr_v(*expr), context_node);
    }
    match expr {
        XPathExpr::LocationPath(path) => if path.absolute {
            evaluate(index, expr, f)
        } else {
            Ok(eval_path(index, f, &path.steps, context_node))
        },
        XPathExpr::Union(parts) => {
            let ghost pv = exprs_v(parts@);
            proof {
                lemma_exprs_v(parts@);
                semantics_unfold::unfold_query_parts_from(ix, o, pv, context_node, 0);
            }
            let mut out: Vec<XPathNode> = Vec::new();
            let n: usize = parts.len();
            let mut k: usize = 0;
            assert(out@ =~= Seq::empty());
            while k < n
                invariant
                    index.wf(),
                    ix == *index,
                    is_arithmetic(*f),
                    o == answers(*f),
                    node_ok(ix, context_node),
                    expr_v(*expr) == ExprV::Union(pv),
                    semantics::query_from(ix, o, expr_v(*expr), context_node) == (
                    match semantics::query_parts_from(ix, o, pv, context_node, pv.len() as int) {
                        Some(all) => Some(tidy(ix, all)),
                        None => None,
                    }),
                    pv == exprs_v(parts@),
                    n == parts@.len(),
                    pv.len() == n,
                    forall|j: int| 0 <= j < n ==> #[trigger] pv[j] == expr_v(parts@[j]),
                    k <= n,
                    semantics::query_parts_from(ix, o, pv, context_node, k as int) == Some(out@),
                    nodes_ok(ix, out@),
                decreases n - k,
            {
                proof {
                    assert(pv[k as int] == expr_v(parts@[k as int]));
                    assert(decreases_to!(expr_v(*expr) => expr_v(*expr)->Union_0));
                    semantics_unfold::unfold_query_parts_from(ix, o, pv, context_node, k + 1);
                }
                match evaluate_from_context(index, &parts[k], context_node, f) {
                    Ok(nodes) => {
                        let mut more = nodes;
                        out.append(&mut more);
                    },
                    Err(e) => {
                        proof {
                            lemma_parts_from_fail(ix, o, pv, context_node, k + 1, n as int);
                        }
                        return Err(e);
                    },
                }
                k += 1;
            }
            tidy_nodes(index, &mut out);
            Ok(out)
        },
        XPathExpr::FilterPath(inner, steps) => match evaluate_from_context(
            index,
            inner,
            context_node,
            f,
        ) {
            Ok(ctx) => Ok(eval_steps(index, f, steps, ctx)),
            Err(e) => Err(e),
        },
        XPathExpr::GlobalFilter(inner, preds) => match evaluate_from_context(
            index,
            inner,
            context_node,
            f,
        ) {
            Ok(nodes) => {
                proof {
                    lemma_exprs_v(preds@);
                }
                Ok(apply_predicates(index, f, preds, nodes))
            },
            Err(e) => Err(e),
        },
        _ => evaluate(index, expr, f),
    }
}

/// The texts that are not empty, of those of the first `k` ranges that lie within
/// `lo..=hi`.
pub open spec fn filled_texts(ix: XmlIndex, lo: int, hi: int, k: int) -> Seq<Seq<char>>
    decreases k,
{
    if k <= 0 {
        Seq::empty()
    } else {
        let before = filled_texts(ix, lo, hi, k - 1);
        let r = ix.text_ranges@[k - 1];
        if lo <= r.start && r.end <= hi && ix.range_text(r).len() > 0 {
            before.push(ix.range_text(r))
        } else {
            before
        }
    }
}

/// Where the content of an element lies; that of the document root is the whole
/// input.
pub open spec fn content_span(ix: XmlIndex, tag: int) -> (int, int) {
    if tag < ix.tags() {
        ix.inner_span(tag)
    } else {
        (0, ix.input@.len() as int)
    }
}

/// The texts of an element and its descendants that are not empty, in order.
pub open spec fn element_texts(ix: XmlIndex, tag: int) -> Seq<Seq<char>> {
    let (lo, hi) = content_span(ix, tag);
    filled_texts(ix, lo, hi, ix.text_ranges@.len() as int)
}

/// The texts of the first `k` nodes: all texts inside an element that are not
/// empty, and the text of a text node.
pub open spec fn node_texts(ix: XmlIndex, nodes: Seq<XPathNode>, k: int) -> Seq<Seq<char>>
    decreases k,
{
    if k <= 0 {
        Seq::empty()
    } else {
        let before = node_texts(ix, nodes, k - 1);
        match nodes[k - 1] {
            XPathNode::Element(i) => before + element_texts(ix, i as int),
            XPathNode::Text(t) => before.push(ix.range_text(ix.text_ranges@[t as int])),
            _ => before,
        }
    }
}

/// The outcome of a text query is the texts of the given selection.
pub open spec fn selects_texts(
    ix: XmlIndex,
    r: std::result::Result<Vec<&str>, SimdXmlError>,
    selection: Option<Seq<XPathNode>>,
) -> bool {
    match r {
        Ok(found) => selection matches Some(nodes) && texts(found@) == node_texts(
            ix,
            nodes,
            nodes.len() as int,
        ),
        Err(e) => selection is None && (e matches SimdXmlError::XPathEvalError(m) && m@
            == unsupported()),
    }
}

/// The texts of an element and its descendants: see `element_texts`.
fn collect_element_texts<'a>(index: &XmlIndex<'a>, tag: usize) -> (r: Vec<&'a str>)
    requires
        index.wf(),
    ensures
        texts(r@) == element_texts(*index, tag as int),
{
    let (lo, hi) = if tag < index.tag_count() {
        index.inner_bounds(tag)
    } else {
        (0, index.input.len() as u64)
    };
    let mut out: Vec<&'a str> = Vec::new();
    let n: usize = index.text_count();
    let mut k: usize = 0;
    assert(texts(out@) =~= Seq::empty());
    while k < n
        invariant
            index.wf(),
            n == index.text_ranges@.len(),
            k <= n,
            texts(out@) == filled_texts(*index, lo as int, hi as int, k as int),
        decreases n - k,
    {
        let range = index.text_ranges[k];
        assert(index.doc().texts[k as int] == range);
        if range.start >= lo && range.end <= hi {
            let text = index.text_content(&range);
            if !text.is_empty() {
                let ghost before = out@;
                out.push(text);
                assert(texts(out@) =~= texts(before).push(text@));
            }
        }
        k += 1;
    }
    out
}

/// The texts of selected nodes: see `node_texts`.
pub fn texts_of_nodes<'a>(index: &XmlIndex<'a>, nodes: &Vec<XPathNode>) -> (r: Vec<&'a str>)
    requires
        index.wf(),
        nodes_ok(*index, nodes@),
    ensures
        texts(r@) == node_texts(*index, nodes@, nodes@.len() as int),
{
    let mut out: Vec<&'a str> = Vec::new();
    let mut k: usize = 0;
    assert(texts(out@) =~= Seq::empty());
    while k < nodes.len()
        invariant
            index.wf(),
            nodes_ok(*index, nodes@),
            k <= nodes@.len(),
            texts(out@) == node_texts(*index, nodes@, k as int),
        decreases nodes@.len() - k,
    {
        let ghost before = out@;
        match nodes[k] {
            XPathNode::Element(i) => {
                let mut more = collect_element_texts(index, i);
                let ghost added = more@;
                out.append(&mut more);
                assert(texts(out@) =~= texts(before) + texts(added));
            },
            XPathNode::Text(t) => {
                assert(index.doc().texts[t as int] == index.text_ranges@[t as int]);
                let text = index.text_content(&index.text_ranges[t]);
                out.push(text);
                assert(texts(out@) =~= texts(before).push(text@));
            },
            _ => {},
        }
        k += 1;
    }
    out
}

/// The texts joined in order.
pub open spec fn concatenated(all: Seq<Seq<char>>) -> Seq<char>
    decreases all.len(),
{
    if all.len() == 0 {
        Seq::empty()
    } else {
        concatenated(all.drop_last()) + all.last()
    }
}

proof fn lemma_filled_texts(ix: XmlIndex, lo: int, hi: int, k: int)
    ensures
        concatenated(filled_texts(ix, lo, hi, k)) == texts_within(
            ix.input@,
            ix.text_ranges@,
            lo,
            hi,
            k,
        ),
    decreases k,
{
    if k > 0 {
        lemma_filled_texts(ix, lo, hi, k - 1);
        let before = filled_texts(ix, lo, hi, k - 1);
        let text = ix.range_text(ix.text_ranges@[k - 1]);
        assert(before.push(text).drop_last() =~= before);
        if text.len() == 0 {
            assert(concatenated(before) + text =~= concatenated(before));
        }
    }
}

/// The texts that a query hands out for an element make up the whole text of the
/// element, nested text included.
pub proof fn lemma_element_texts(ix: XmlIndex, tag: int)
    requires
        0 <= tag < ix.tags(),
    ensures
        concatenated(element_texts(ix, tag)) == ix.full_text(tag),
{
    let (lo, hi) = content_span(ix, tag);
    lemma_filled_texts(ix, lo, hi, ix.text_ranges@.len() as int);
}

/// Evaluates a query and hands out the texts of the selected nodes: all text inside
/// an element, and the text of a text node.
pub fn eval_text<'a, F: Fn(NumberOp) -> NumberReply>(
    index: &XmlIndex<'a>,
    expr: &XPathExpr,
    f: &F,
) -> (r: std::result::Result<Vec<&'a str>, SimdXmlError>)
    requires
        index.wf(),
        is_arithmetic(*f),
    ensures
        selects_texts(*index, r, semantics::query(*index, answers(*f), expr_v(*expr))),
{
    match evaluate(index, expr, f) {
        Ok(nodes) => Ok(texts_of_nodes(index, &nodes)),
        Err(e) => Err(e),
    }
}

/// Result of evaluating a standalone expression.
pub enum StandaloneResult {
    Number(Number),
    String(String),
    Boolean(bool),
}

impl View for StandaloneResult {
    type V = ValueV;

    open spec fn view(&self) -> ValueV {
        match self {
            StandaloneResult::Number(n) => ValueV::Num(*n),
            StandaloneResult::String(t) => ValueV::Str(t@),
            StandaloneResult::Boolean(b) => ValueV::Bool(*b),
        }
    }
}

/// Evaluates a predicate expression from the document root.
pub fn eval_expr_with_doc<F: Fn(NumberOp) -> NumberReply>(
    index: &XmlIndex,
    expr_str: &str,
    f: &F,
) -> (r: std::result::Result<StandaloneResult, SimdXmlError>)
    requires
        index.wf(),
        is_arithmetic(*f),
    ensures
        has_value(*index, answers(*f), r, expr_str@, XPathNode::Element(DOC_ROOT)),
{
    eval_expr_with_context(index, expr_str, XPathNode::Element(DOC_ROOT), f)
}

/// The outcome of evaluating the text of an expression at a node: its value, or
/// the message for a text that is no expression.
pub open spec fn has_value(
    ix: XmlIndex,
    o: crate::xpath::numbers::Oracle,
    r: std::result::Result<StandaloneResult, SimdXmlError>,
    text: Seq<char>,
    node: XPathNode,
) -> bool {
    match r {
        Ok(v) => parsed_predicate(text) matches Ok(e) && v@ == semantics::value(
            ix,
            o,
            e,
            node,
            1,
            1,
        ),
        Err(err) => parsed_predicate(text) matches Err(message) && (
        err matches SimdXmlError::XPathParseError(m) && m@ == message),
    }
}

/// Evaluates a predicate expression from a context node.
pub fn eval_expr_with_context<F: Fn(NumberOp) -> NumberReply>(
    index: &XmlIndex,
    expr_str: &str,
    context: XPathNode,
    f: &F,
) -> (r: std::result::Result<StandaloneResult, SimdXmlError>)
    requires
        index.wf(),
        is_arithmetic(*f),
        node_ok(*index, context),
    ensures
        has_value(*index, answers(*f), r, expr_str@, context),
{
    match parse_xpath_predicate_expr(expr_str) {
        Err(e) => Err(e),
        Ok(parsed) => {
            let value = eval_predicate_value(index, f, context, &parsed, 1, 1);
            Ok(
                match value {
                    XPathValue::Number(n) => StandaloneResult::Number(n),
                    XPathValue::String(t) => StandaloneResult::String(t),
                    XPathValue::Boolean(b) => StandaloneResult::Boolean(b),
                },
            )
        },
    }
}

/// The document `<r/>`, which standalone expressions are evaluated in.
pub open spec fn empty_document() -> Seq<u8> {
    seq![0x3cu8, 0x72u8, 0x2fu8, 0x3eu8]
}

/// Evaluates an expression that needs no document: at the root of `<r/>`.
pub fn eval_standalone_expr<F: Fn(NumberOp) -> NumberReply>(expr_str: &str, f: &F) -> (r:
    std::result::Result<StandaloneResult, SimdXmlError>)
    requires
        is_arithmetic(*f),
    ensures
        exists|ix: XmlIndex|
            #![trigger ix.wf()]
            ix.wf() && ix.bare() && ix.input@ == empty_document() && parsed(empty_document())
                == Ok::<Doc, int>(ix.doc()) && has_value(
                ix,
                answers(*f),
                r,
                expr_str@,
                XPathNode::Element(DOC_ROOT),
            ),
{
    let document: [u8; 4] = [0x3c, 0x72, 0x2f, 0x3e];
    assert(document@ =~= empty_document());
    match parse_scalar(&document) {
        Ok(index) => eval_expr_with_context(&index, expr_str, XPathNode::Element(DOC_ROOT), f),
        Err(e) => {
            proof {
                lemma_empty_document();
            }
            Err(e)
        },
    }
}

/// `<r/>` parses.
proof fn lemma_empty_document()
    ensures
        parsed(empty_document()) is Ok,
{
    let s = empty_document();
    assert(s.len() == 4 && s[0] == 0x3c && s[1] == 0x72 && s[2] == 0x2f && s[3] == 0x3e);
    crate::bytes::lemma_scan_to_is(s, 0, crate::bytes::is_byte(0x3c), 0);
    crate::bytes::lemma_scan_to_is(s, 1, crate::index::lexer::ends_open_name(), 2);
    assert(crate::index::lexer::tag_close(s, 2, false) == (3int, true));
    let l = crate::index::lexer::lex(s, 0, false);
    assert(l is Some && l->0.end == 3);
    assert(crate::index::outline::scan(s, 4, false).unclosed is None);
    assert(crate::index::outline::scan(s, 0, false).unclosed is None);
}

} // verus!
