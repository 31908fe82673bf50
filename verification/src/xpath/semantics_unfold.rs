//! One unfolding equation for each recursive function of the semantics.

use vstd::prelude::*;
use crate::index::XmlIndex;
use crate::xpath::ast::{BinaryOp, ExprV, StepV};
use crate::xpath::nodes::{XPathNode, DOC_ROOT};
use crate::xpath::numbers::{reply_flag, reply_index, reply_number, OpV, Oracle};
use crate::xpath::semantics::{
    arg, arg_nodes, call, call_value, filter_all, filtered_by, first_text, fused_grouped,
    fused_nodes, fused_one, fused_plain, fusible, groups, holds, id_nodes, in_context,
    is_comparison, is_reverse, joined_args, kept_nodes, literal, node_at, parent_entries,
    parts_in_context, path_from, query, query_from, query_parts, query_parts_from, selects_nodes,
    siblings_under, some_left, some_pair, some_right, step_nodes, step_one, step_over, steps_from,
    tested_nodes, tidy, truth, value,
};
use crate::xpath::values::{arithmetic, compare, count, number_value, text_value, truthy, ValueV};

verus! {

/// Unfolds `path_from` once.
pub proof fn unfold_path_from(
    ix: XmlIndex,
    o: Oracle,
    steps: Seq<StepV>,
    i: int,
    ctx: Seq<XPathNode>,
)
    ensures
        path_from(ix, o, steps, i, ctx) == ({
            if i < 0 || i >= steps.len() {
                ctx
            } else if fusible(steps, i) {
                path_from(ix, o, steps, i + 2, fused_nodes(ix, o, ctx, steps[i + 1]))
            } else {
                path_from(ix, o, steps, i + 1, step_nodes(ix, o, ctx, steps[i]))
            }
        }),
{
    reveal(path_from);
    reveal(fused_nodes);
    reveal(step_nodes);
}

/// Unfolds `steps_from` once.
pub proof fn unfold_steps_from(
    ix: XmlIndex,
    o: Oracle,
    steps: Seq<StepV>,
    i: int,
    ctx: Seq<XPathNode>,
)
    ensures
        steps_from(ix, o, steps, i, ctx) == ({
            if i < 0 || i >= steps.len() {
                ctx
            } else {
                steps_from(ix, o, steps, i + 1, step_nodes(ix, o, ctx, steps[i]))
            }
        }),
{
    reveal(steps_from);
    reveal(step_nodes);
}

/// Unfolds `fused_nodes` once.
pub proof fn unfold_fused_nodes(ix: XmlIndex, o: Oracle, ctx: Seq<XPathNode>, st: StepV)
    ensures
        fused_nodes(ix, o, ctx, st) == ({
            if st.preds.len() == 0 {
                fused_plain(ix, ctx, st.test)
            } else {
                tidy(ix, fused_grouped(ix, o, ctx, st, ctx.len() as int))
            }
        }),
{
    reveal(fused_nodes);
    reveal(fused_grouped);
}

/// Unfolds `fused_grouped` once.
pub proof fn unfold_fused_grouped(ix: XmlIndex, o: Oracle, ctx: Seq<XPathNode>, st: StepV, k: int)
    ensures
        fused_grouped(ix, o, ctx, st, k) == ({
            if k <= 0 {
                Seq::empty()
            } else {
                let matched = fused_one(ix, ctx[k - 1], st.test);
                let parents = parent_entries(ix, matched, matched.len() as int);
                fused_grouped(ix, o, ctx, st, k - 1) + groups(
                    ix,
                    o,
                    st.preds,
                    matched,
                    parents,
                    parents.len() as int,
                )
            }
        }),
{
    reveal(fused_grouped);
    reveal(groups);
}

/// Unfolds `groups` once.
pub proof fn unfold_groups(
    ix: XmlIndex,
    o: Oracle,
    preds: Seq<ExprV>,
    nodes: Seq<XPathNode>,
    parents: Seq<u32>,
    k: int,
)
    ensures
        groups(ix, o, preds, nodes, parents, k) == ({
            if k <= 0 {
                Seq::empty()
            } else {
                groups(ix, o, preds, nodes, parents, k - 1) + filter_all(
                    ix,
                    o,
                    preds,
                    preds.len() as int,
                    siblings_under(ix, nodes, parents[k - 1], nodes.len() as int),
                )
            }
        }),
{
    reveal(groups);
    reveal(filter_all);
}

/// Unfolds `step_nodes` once.
pub proof fn unfold_step_nodes(ix: XmlIndex, o: Oracle, ctx: Seq<XPathNode>, st: StepV)
    ensures
        step_nodes(ix, o, ctx, st) == ({
            let all = step_over(ix, o, ctx, st, ctx.len() as int);
            if ctx.len() > 1 {
                tidy(ix, all)
            } else if is_reverse(st.axis) {
                all.reverse()
            } else {
                all
            }
        }),
{
    reveal(step_nodes);
    reveal(step_over);
}

/// Unfolds `step_over` once.
pub proof fn unfold_step_over(ix: XmlIndex, o: Oracle, ctx: Seq<XPathNode>, st: StepV, k: int)
    ensures
        step_over(ix, o, ctx, st, k) == ({
            if k <= 0 {
                Seq::empty()
            } else {
                step_over(ix, o, ctx, st, k - 1) + step_one(ix, o, ctx[k - 1], st)
            }
        }),
{
    reveal(step_over);
    reveal(step_one);
}

/// Unfolds `step_one` once.
pub proof fn unfold_step_one(ix: XmlIndex, o: Oracle, node: XPathNode, st: StepV)
    ensures
        step_one(ix, o, node, st) == ({
            filter_all(ix, o, st.preds, st.preds.len() as int, tested_nodes(ix, node, st))
        }),
{
    reveal(step_one);
    reveal(filter_all);
}

/// Unfolds `filter_all` once.
pub proof fn unfold_filter_all(
    ix: XmlIndex,
    o: Oracle,
    preds: Seq<ExprV>,
    k: int,
    nodes: Seq<XPathNode>,
)
    ensures
        filter_all(ix, o, preds, k, nodes) == ({
            if k <= 0 || k > preds.len() {
                nodes
            } else {
                filtered_by(ix, o, preds[k - 1], filter_all(ix, o, preds, k - 1, nodes))
            }
        }),
{
    reveal(filter_all);
    reveal(filtered_by);
}

/// Unfolds `filtered_by` once.
pub proof fn unfold_filtered_by(ix: XmlIndex, o: Oracle, pred: ExprV, nodes: Seq<XPathNode>)
    ensures
        filtered_by(ix, o, pred, nodes) == ({
            match pred {
                ExprV::Num(t) => node_at(
                    nodes,
                    reply_index(
                        o(OpV::Position(literal(o, t), nodes.len() as usize)),
                        nodes.len() as int,
                    ),
                ),
                _ => kept_nodes(ix, o, pred, nodes, nodes.len() as int),
            }
        }),
{
    reveal(filtered_by);
    reveal(kept_nodes);
}

/// Unfolds `kept_nodes` once.
pub proof fn unfold_kept_nodes(ix: XmlIndex, o: Oracle, pred: ExprV, nodes: Seq<XPathNode>, k: int)
    ensures
        kept_nodes(ix, o, pred, nodes, k) == ({
            if k <= 0 {
                Seq::empty()
            } else if holds(ix, o, pred, nodes[k - 1], k as usize, nodes.len() as usize) {
                kept_nodes(ix, o, pred, nodes, k - 1).push(nodes[k - 1])
            } else {
                kept_nodes(ix, o, pred, nodes, k - 1)
            }
        }),
{
    reveal(kept_nodes);
    reveal(holds);
}

/// Unfolds `holds` once.
pub proof fn unfold_holds(
    ix: XmlIndex,
    o: Oracle,
    pred: ExprV,
    node: XPathNode,
    pos: usize,
    size: usize,
)
    ensures
        holds(ix, o, pred, node, pos, size) == ({
            if selects_nodes(pred) {
                in_context(ix, o, pred, node).len() > 0
            } else {
                match value(ix, o, pred, node, pos, size) {
                    ValueV::Num(n) => reply_flag(o(OpV::Equal(count(o, pos), n))),
                    v => truthy(o, v),
                }
            }
        }),
{
    reveal(holds);
    reveal(value);
    reveal(in_context);
}

/// Unfolds `truth` once.
pub proof fn unfold_truth(
    ix: XmlIndex,
    o: Oracle,
    e: ExprV,
    node: XPathNode,
    pos: usize,
    size: usize,
)
    ensures
        truth(ix, o, e, node, pos, size) == ({
            if selects_nodes(e) {
                in_context(ix, o, e, node).len() > 0
            } else {
                truthy(o, value(ix, o, e, node, pos, size))
            }
        }),
{
    reveal(truth);
    reveal(value);
    reveal(in_context);
}

/// Unfolds `value` once.
pub proof fn unfold_value(
    ix: XmlIndex,
    o: Oracle,
    e: ExprV,
    node: XPathNode,
    pos: usize,
    size: usize,
)
    ensures
        value(ix, o, e, node, pos, size) == ({
            match e {
                ExprV::Str(t) => ValueV::Str(t),
                ExprV::Num(t) => ValueV::Num(literal(o, t)),
                ExprV::Call(name, args) => if name == "id"@ {
                    ValueV::Str(first_text(ix, in_context(ix, o, e, node)))
                } else {
                    call(ix, o, name, args, node, pos, size)
                },
                ExprV::Minus(x) => ValueV::Num(
                    reply_number(
                        o(OpV::Negate(number_value(o, value(ix, o, *x, node, pos, size)))),
                    ),
                ),
                ExprV::Binary(l, op, r) => if op == BinaryOp::Or {
                    ValueV::Bool(
                        truth(ix, o, *l, node, pos, size) || truth(ix, o, *r, node, pos, size),
                    )
                } else if op == BinaryOp::And {
                    ValueV::Bool(
                        truth(ix, o, *l, node, pos, size) && truth(ix, o, *r, node, pos, size),
                    )
                } else if is_comparison(op) && (selects_nodes(*l) || selects_nodes(*r)) {
                    ValueV::Bool(
                        if selects_nodes(*l) && selects_nodes(*r) {
                            some_pair(ix, o, in_context(ix, o, *l, node), op, in_context(ix, o, *r, node))
                        } else if selects_nodes(*l) {
                            some_left(
                                ix,
                                o,
                                in_context(ix, o, *l, node),
                                op,
                                value(ix, o, *r, node, pos, size),
                            )
                        } else {
                            some_right(
                                ix,
                                o,
                                value(ix, o, *l, node, pos, size),
                                op,
                                in_context(ix, o, *r, node),
                            )
                        },
                    )
                } else {
                    let a = value(ix, o, *l, node, pos, size);
                    let b = value(ix, o, *r, node, pos, size);
                    match arithmetic(o, a, op, b) {
                        Some(n) => ValueV::Num(n),
                        None => ValueV::Bool(compare(o, a, op, b)),
                    }
                },
                _ => ValueV::Str(first_text(ix, in_context(ix, o, e, node))),
            }
        }),
{
    reveal(value);
    reveal(truth);
    reveal(in_context);
    reveal(call);
}

/// Unfolds `in_context` once.
pub proof fn unfold_in_context(ix: XmlIndex, o: Oracle, e: ExprV, node: XPathNode)
    ensures
        in_context(ix, o, e, node) == ({
            match e {
                ExprV::Path(absolute, steps) => if absolute {
                    path_from(ix, o, steps, 0, seq![XPathNode::Element(DOC_ROOT)])
                } else {
                    steps_from(ix, o, steps, 0, seq![node])
                },
                ExprV::Union(parts) => tidy(
                    ix,
                    parts_in_context(ix, o, parts, node, parts.len() as int),
                ),
                ExprV::FilterPath(inner, steps) => steps_from(
                    ix,
                    o,
                    steps,
                    0,
                    in_context(ix, o, *inner, node),
                ),
                ExprV::GlobalFilter(inner, preds) => filter_all(
                    ix,
                    o,
                    preds,
                    preds.len() as int,
                    in_context(ix, o, *inner, node),
                ),
                ExprV::Call(name, args) => if name == "id"@ {
                    id_nodes(ix, args)
                } else {
                    Seq::empty()
                },
                _ => Seq::empty(),
            }
        }),
{
    reveal(in_context);
    reveal(parts_in_context);
    reveal(path_from);
    reveal(steps_from);
    reveal(filter_all);
}

/// Unfolds `parts_in_context` once.
pub proof fn unfold_parts_in_context(ix: XmlIndex, o: Oracle, parts: Seq<ExprV>, node: XPathNode, k: int)
    ensures
        parts_in_context(ix, o, parts, node, k) == ({
            if k <= 0 || k > parts.len() {
                Seq::empty()
            } else {
                parts_in_context(ix, o, parts, node, k - 1) + in_context(
                    ix,
                    o,
                    parts[k - 1],
                    node,
                )
            }
        }),
{
    reveal(parts_in_context);
    reveal(in_context);
}

/// Unfolds `arg` once.
pub proof fn unfold_arg(
    ix: XmlIndex,
    o: Oracle,
    args: Seq<ExprV>,
    i: int,
    node: XPathNode,
    pos: usize,
    size: usize,
)
    ensures
        arg(ix, o, args, i, node, pos, size) == ({
            if 0 <= i < args.len() {
                value(ix, o, args[i], node, pos, size)
            } else {
                ValueV::Str(Seq::empty())
            }
        }),
{
    reveal(arg);
    reveal(value);
}

/// Unfolds `arg_nodes` once.
pub proof fn unfold_arg_nodes(ix: XmlIndex, o: Oracle, args: Seq<ExprV>, i: int, node: XPathNode)
    ensures
        arg_nodes(ix, o, args, i, node) == ({
            if 0 <= i < args.len() {
                in_context(ix, o, args[i], node)
            } else {
                Seq::empty()
            }
        }),
{
    reveal(arg_nodes);
    reveal(in_context);
}

/// Unfolds `joined_args` once.
pub proof fn unfold_joined_args(
    ix: XmlIndex,
    o: Oracle,
    args: Seq<ExprV>,
    node: XPathNode,
    pos: usize,
    size: usize,
    k: int,
)
    ensures
        joined_args(ix, o, args, node, pos, size, k) == ({
            if k <= 0 {
                Seq::empty()
            } else {
                joined_args(ix, o, args, node, pos, size, k - 1) + text_value(
                    o,
                    arg(ix, o, args, k - 1, node, pos, size),
                )
            }
        }),
{
    reveal(joined_args);
    reveal(arg);
}

/// Unfolds `call` once.
pub proof fn unfold_call(
    ix: XmlIndex,
    o: Oracle,
    name: Seq<char>,
    args: Seq<ExprV>,
    node: XPathNode,
    pos: usize,
    size: usize,
)
    ensures
        call(ix, o, name, args, node, pos, size) == ({
            call_value(
                ix,
                o,
                name,
                args,
                arg(ix, o, args, 0, node, pos, size),
                arg(ix, o, args, 1, node, pos, size),
                arg(ix, o, args, 2, node, pos, size),
                joined_args(ix, o, args, node, pos, size, args.len() as int),
                arg_nodes(ix, o, args, 0, node),
                node,
                pos,
                size,
            )
        }),
{
    reveal(call);
    reveal(arg);
    reveal(arg_nodes);
    reveal(joined_args);
}

/// Unfolds `query` once.
pub proof fn unfold_query(ix: XmlIndex, o: Oracle, e: ExprV)
    ensures
        query(ix, o, e) == ({
            match e {
                ExprV::Path(_, steps) => Some(
                    path_from(ix, o, steps, 0, seq![XPathNode::Element(DOC_ROOT)]),
                ),
                ExprV::Union(parts) => match query_parts(ix, o, parts, parts.len() as int) {
                    Some(all) => Some(tidy(ix, all)),
                    None => None,
                },
                ExprV::Call(name, args) => if name == "id"@ {
                    Some(id_nodes(ix, args))
                } else {
                    None
                },
                ExprV::FilterPath(inner, steps) => match query(ix, o, *inner) {
                    Some(ctx) => Some(steps_from(ix, o, steps, 0, ctx)),
                    None => None,
                },
                ExprV::GlobalFilter(inner, preds) => match query(ix, o, *inner) {
                    Some(nodes) => Some(filter_all(ix, o, preds, preds.len() as int, nodes)),
                    None => None,
                },
                _ => None,
            }
        }),
{
    reveal(query);
    reveal(path_from);
    reveal(steps_from);
    reveal(filter_all);
    reveal(query_parts);
}

/// Unfolds `query_parts` once.
pub proof fn unfold_query_parts(ix: XmlIndex, o: Oracle, parts: Seq<ExprV>, k: int)
    ensures
        query_parts(ix, o, parts, k) == ({
            if k <= 0 || k > parts.len() {
                Some(Seq::empty())
            } else {
                match query_parts(ix, o, parts, k - 1) {
                    None => None,
                    Some(before) => match query(ix, o, parts[k - 1]) {
                        None => None,
                        Some(more) => Some(before + more),
                    },
                }
            }
        }),
{
    reveal(query_parts);
    reveal(query);
}

/// Unfolds `query_from` once.
pub proof fn unfold_query_from(ix: XmlIndex, o: Oracle, e: ExprV, node: XPathNode)
    ensures
        query_from(ix, o, e, node) == ({
            match e {
                ExprV::Path(false, steps) => Some(path_from(ix, o, steps, 0, seq![node])),
                ExprV::Union(parts) => match query_parts_from(ix, o, parts, node, parts.len() as int) {
                    Some(all) => Some(tidy(ix, all)),
                    None => None,
                },
                ExprV::FilterPath(inner, steps) => match query_from(ix, o, *inner, node) {
                    Some(ctx) => Some(steps_from(ix, o, steps, 0, ctx)),
                    None => None,
                },
                ExprV::GlobalFilter(inner, preds) => match query_from(ix, o, *inner, node) {
                    Some(nodes) => Some(filter_all(ix, o, preds, preds.len() as int, nodes)),
                    None => None,
                },
                _ => query(ix, o, e),
            }
        }),
{
    reveal(query_from);
    reveal(path_from);
    reveal(steps_from);
    reveal(filter_all);
    reveal(query);
    reveal(query_parts_from);
}

/// Unfolds `query_parts_from` once.
pub proof fn unfold_query_parts_from(ix: XmlIndex, o: Oracle, parts: Seq<ExprV>, node: XPathNode, k: int)
    ensures
        query_parts_from(ix, o, parts, node, k) == ({
            if k <= 0 || k > parts.len() {
                Some(Seq::empty())
            } else {
                match query_parts_from(ix, o, parts, node, k - 1) {
                    None => None,
                    Some(before) => match query_from(ix, o, parts[k - 1], node) {
                        None => None,
                        Some(more) => Some(before + more),
                    },
                }
            }
        }),
{
    reveal(query_parts_from);
    reveal(query_from);
}

} // verus!
