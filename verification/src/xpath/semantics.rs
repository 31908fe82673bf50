//! The meaning of XPath expressions over an index: which nodes they select and
//! which values they have. `o` is what the arithmetic answers.

use vstd::prelude::*;
use vstd::utf8::encode_utf8;
use crate::index::XmlIndex;
use crate::xpath::ast::{Axis, BinaryOp, ExprV, StepV, TestV};
use crate::xpath::axes::{
    axis_nodes, pick_tags, pick_texts, prefixes_at, scope_end, PickV, TextPick,
};
use crate::xpath::namespaces::{name_with_hash, node_uri};
use crate::xpath::nodes::{distinct, in_doc_order, passing, XPathNode, DOC_ROOT};
use crate::xpath::numbers::{reply_flag, reply_index, reply_number, reply_span, Number, OpV, Oracle};
use crate::xpath::strings::{
    find_part, lang_matches, normalized, stands_at, text_after, text_before, translated,
};
use crate::xpath::values::{
    arithmetic, compare, count, number_value, string_value, string_values, text_value, truthy,
    ValueV,
};

verus! {

/// A node set without duplicates, in document order.
pub open spec fn tidy(ix: XmlIndex, nodes: Seq<XPathNode>) -> Seq<XPathNode> {
    in_doc_order(ix, distinct(nodes, nodes.len() as int))
}

/// The element tags listed under a name in the name index.
pub open spec fn name_row(ix: XmlIndex, name: Seq<char>) -> Seq<u32> {
    ix.listed(encode_utf8(name))
}

/// The element tags of a row within `lo..hi`, in order.
pub open spec fn row_within(row: Seq<u32>, lo: int, hi: int) -> Seq<XPathNode>
    decreases row.len(),
{
    if row.len() == 0 {
        Seq::empty()
    } else {
        let before = row_within(row.drop_last(), lo, hi);
        if lo <= row.last() < hi {
            before.push(XPathNode::Element(row.last() as usize))
        } else {
            before
        }
    }
}

/// Where the descendants of a node lie: the first tag, the first parent of a
/// text, and the end. Only tags have descendants.
pub open spec fn scope(ix: XmlIndex, node: XPathNode) -> Option<(int, int, int)> {
    match node {
        XPathNode::Element(i) => if i == DOC_ROOT {
            Some((0, 0, ix.tags() as int))
        } else if i < ix.tags() {
            Some((i + 1, i as int, scope_end(ix, i as int)))
        } else {
            None
        },
        _ => None,
    }
}

/// The children, of a node or of a descendant of it, that pass a test, in
/// document order.
pub open spec fn fused_one(ix: XmlIndex, node: XPathNode, test: TestV) -> Seq<XPathNode> {
    match scope(ix, node) {
        None => Seq::empty(),
        Some((lo, first, end)) => match test {
            TestV::Name(name) => {
                let row = name_row(ix, name);
                if row.len() > 0 {
                    row_within(row, lo, end)
                } else {
                    pick_tags(ix, PickV::Test(test), lo, end)
                }
            },
            TestV::Text => pick_texts(
                ix,
                TextPick::Within(first as usize, end as usize),
                ix.text_ranges@.len() as int,
            ),
            TestV::Node => in_doc_order(
                ix,
                pick_tags(ix, PickV::Any, lo, end) + pick_texts(
                    ix,
                    TextPick::Within(first as usize, end as usize),
                    ix.text_ranges@.len() as int,
                ),
            ),
            _ => pick_tags(ix, PickV::Test(test), lo, end),
        },
    }
}

/// `fused_one` over the first `k` context nodes.
pub open spec fn fused_over(ix: XmlIndex, ctx: Seq<XPathNode>, test: TestV, k: int) -> Seq<XPathNode>
    decreases k,
{
    if k <= 0 {
        Seq::empty()
    } else {
        fused_over(ix, ctx, test, k - 1) + fused_one(ix, ctx[k - 1], test)
    }
}

/// `descendant-or-self::node()/child::test` from a context.
pub open spec fn fused_plain(ix: XmlIndex, ctx: Seq<XPathNode>, test: TestV) -> Seq<XPathNode> {
    let all = fused_over(ix, ctx, test, ctx.len() as int);
    if ctx.len() > 1 {
        tidy(ix, all)
    } else {
        all
    }
}

/// The parent entry of a node.
pub open spec fn parent_entry(ix: XmlIndex, node: XPathNode) -> u32 {
    match node {
        XPathNode::Element(i) => if i < ix.tags() {
            ix.parents@[i as int]
        } else {
            u32::MAX
        },
        XPathNode::Text(i) => if i < ix.text_ranges@.len() {
            ix.text_ranges@[i as int].parent_tag
        } else {
            u32::MAX
        },
        _ => u32::MAX,
    }
}

/// The parent entries of the first `k` nodes, in order of first appearance.
pub open spec fn parent_entries(ix: XmlIndex, nodes: Seq<XPathNode>, k: int) -> Seq<u32>
    decreases k,
{
    if k <= 0 {
        Seq::empty()
    } else {
        let before = parent_entries(ix, nodes, k - 1);
        let p = parent_entry(ix, nodes[k - 1]);
        if before.contains(p) {
            before
        } else {
            before.push(p)
        }
    }
}

/// The nodes among the first `k` with a parent entry, in order.
pub open spec fn siblings_under(ix: XmlIndex, nodes: Seq<XPathNode>, parent: u32, k: int) -> Seq<
    XPathNode,
>
    decreases k,
{
    if k <= 0 {
        Seq::empty()
    } else if parent_entry(ix, nodes[k - 1]) == parent {
        siblings_under(ix, nodes, parent, k - 1).push(nodes[k - 1])
    } else {
        siblings_under(ix, nodes, parent, k - 1)
    }
}

/// Whether two steps from `i` on are `descendant-or-self::node()/child::test`.
pub open spec fn fusible(steps: Seq<StepV>, i: int) -> bool {
    &&& 0 <= i
    &&& i + 1 < steps.len()
    &&& steps[i].axis == Axis::DescendantOrSelf
    &&& steps[i].test is Node
    &&& steps[i].preds.len() == 0
    &&& steps[i + 1].axis == Axis::Child
}

/// What a path selects from a context, from step `i` on, where steps that can
/// be fused are.
#[verifier::opaque]
pub open spec fn path_from(ix: XmlIndex, o: Oracle, steps: Seq<StepV>, i: int, ctx: Seq<XPathNode>) -> Seq<
    XPathNode,
>
    decreases steps, 10int, steps.len() - i,
{
    if i < 0 || i >= steps.len() {
        ctx
    } else if fusible(steps, i) {
        path_from(ix, o, steps, i + 2, fused_nodes(ix, o, ctx, steps[i + 1]))
    } else {
        path_from(ix, o, steps, i + 1, step_nodes(ix, o, ctx, steps[i]))
    }
}

/// What steps select from a context, from step `i` on, one by one.
#[verifier::opaque]
pub open spec fn steps_from(ix: XmlIndex, o: Oracle, steps: Seq<StepV>, i: int, ctx: Seq<XPathNode>) -> Seq<
    XPathNode,
>
    decreases steps, 10int, steps.len() - i,
{
    if i < 0 || i >= steps.len() {
        ctx
    } else {
        steps_from(ix, o, steps, i + 1, step_nodes(ix, o, ctx, steps[i]))
    }
}

/// `descendant-or-self::node()` and a child step from a context. Predicates
/// apply to the children of each parent on their own.
#[verifier::opaque]
pub open spec fn fused_nodes(ix: XmlIndex, o: Oracle, ctx: Seq<XPathNode>, st: StepV) -> Seq<XPathNode>
    decreases st, 9int, 0int,
{
    if st.preds.len() == 0 {
        fused_plain(ix, ctx, st.test)
    } else {
        tidy(ix, fused_grouped(ix, o, ctx, st, ctx.len() as int))
    }
}

/// The children below each of the first `k` context nodes that pass the test
/// and the predicates.
#[verifier::opaque]
pub open spec fn fused_grouped(ix: XmlIndex, o: Oracle, ctx: Seq<XPathNode>, st: StepV, k: int) -> Seq<
    XPathNode,
>
    decreases st, 8int, k,
{
    if k <= 0 {
        Seq::empty()
    } else {
        let matched = fused_one(ix, ctx[k - 1], st.test);
        let parents = parent_entries(ix, matched, matched.len() as int);
        fused_grouped(ix, o, ctx, st, k - 1) + groups(
            ix,
            o,
            st.preds,
            matched,
            parents,
            parents.len() as int,
        )
    }
}

/// The nodes under each of the first `k` parents that pass the predicates.
#[verifier::opaque]
pub open spec fn groups(
    ix: XmlIndex,
    o: Oracle,
    preds: Seq<ExprV>,
    nodes: Seq<XPathNode>,
    parents: Seq<u32>,
    k: int,
) -> Seq<XPathNode>
    decreases preds, 6int, k,
{
    if k <= 0 {
        Seq::empty()
    } else {
        groups(ix, o, preds, nodes, parents, k - 1) + filter_all(
            ix,
            o,
            preds,
            preds.len() as int,
            siblings_under(ix, nodes, parents[k - 1], nodes.len() as int),
        )
    }
}

/// Whether an axis lists the nodes nearest to a node first, against document order.
pub open spec fn is_reverse(axis: Axis) -> bool {
    axis == Axis::Ancestor || axis == Axis::AncestorOrSelf || axis == Axis::Preceding || axis
        == Axis::PrecedingSibling
}

/// What a step selects from a context, in document order.
#[verifier::opaque]
pub open spec fn step_nodes(ix: XmlIndex, o: Oracle, ctx: Seq<XPathNode>, st: StepV) -> Seq<XPathNode>
    decreases st, 9int, 0int,
{
    let all = step_over(ix, o, ctx, st, ctx.len() as int);
    if ctx.len() > 1 {
        tidy(ix, all)
    } else if is_reverse(st.axis) {
        all.reverse()
    } else {
        all
    }
}

/// What a step selects from each of the first `k` context nodes.
#[verifier::opaque]
pub open spec fn step_over(ix: XmlIndex, o: Oracle, ctx: Seq<XPathNode>, st: StepV, k: int) -> Seq<
    XPathNode,
>
    decreases st, 8int, k,
{
    if k <= 0 {
        Seq::empty()
    } else {
        step_over(ix, o, ctx, st, k - 1) + step_one(ix, o, ctx[k - 1], st)
    }
}

/// The nodes on the axis that pass the test.
pub open spec fn tested_nodes(ix: XmlIndex, node: XPathNode, st: StepV) -> Seq<XPathNode> {
    let all = axis_nodes(ix, node, st.axis, st.test);
    if st.axis == Axis::Attribute {
        all
    } else {
        passing(ix, all, st.test, all.len() as int)
    }
}

/// What a step selects from one node: the nodes on the axis that pass the test,
/// then the predicates.
#[verifier::opaque]
pub open spec fn step_one(ix: XmlIndex, o: Oracle, node: XPathNode, st: StepV) -> Seq<XPathNode>
    decreases st, 7int, 0int,
{
    filter_all(ix, o, st.preds, st.preds.len() as int, tested_nodes(ix, node, st))
}

/// The nodes that pass the first `k` predicates, one after the other.
#[verifier::opaque]
pub open spec fn filter_all(ix: XmlIndex, o: Oracle, preds: Seq<ExprV>, k: int, nodes: Seq<XPathNode>) -> Seq<
    XPathNode,
>
    decreases preds, 5int, k,
{
    if k <= 0 || k > preds.len() {
        nodes
    } else {
        filtered_by(ix, o, preds[k - 1], filter_all(ix, o, preds, k - 1, nodes))
    }
}

/// The node at the index, as a list.
pub open spec fn node_at(nodes: Seq<XPathNode>, i: Option<int>) -> Seq<XPathNode> {
    match i {
        Some(k) => seq![nodes[k]],
        None => Seq::empty(),
    }
}

/// The number that a literal spells.
pub open spec fn literal(o: Oracle, text: Seq<char>) -> Number {
    reply_number(o(OpV::Parse(text)))
}

/// The nodes that pass a predicate.
#[verifier::opaque]
pub open spec fn filtered_by(ix: XmlIndex, o: Oracle, pred: ExprV, nodes: Seq<XPathNode>) -> Seq<
    XPathNode,
>
    decreases pred, 4int, 0int,
{
    match pred {
        ExprV::Num(t) => node_at(
            nodes,
            reply_index(
                o(OpV::Position(literal(o, t), nodes.len() as usize)),
                nodes.len() as int,
            ),
        ),
        _ => kept_nodes(ix, o, pred, nodes, nodes.len() as int),
    }
}

/// The first `k` nodes for which a predicate holds.
#[verifier::opaque]
pub open spec fn kept_nodes(ix: XmlIndex, o: Oracle, pred: ExprV, nodes: Seq<XPathNode>, k: int) -> Seq<
    XPathNode,
>
    decreases pred, 3int, k,
{
    if k <= 0 {
        Seq::empty()
    } else if holds(ix, o, pred, nodes[k - 1], k as usize, nodes.len() as usize) {
        kept_nodes(ix, o, pred, nodes, k - 1).push(nodes[k - 1])
    } else {
        kept_nodes(ix, o, pred, nodes, k - 1)
    }
}

/// Whether an expression selects nodes: a location path, a union, a path or a
/// filter on another expression, or a call of `id()`.
pub open spec fn selects_nodes(e: ExprV) -> bool {
    match e {
        ExprV::Path(_, _) => true,
        ExprV::Union(_) => true,
        ExprV::FilterPath(_, _) => true,
        ExprV::GlobalFilter(_, _) => true,
        ExprV::Call(name, _) => name == "id"@,
        _ => false,
    }
}

/// Whether a predicate holds of a node at a position in a set of a size. A
/// number holds at its position, a set of nodes when it is not empty, any other
/// value by its truth.
#[verifier::opaque]
pub open spec fn holds(ix: XmlIndex, o: Oracle, pred: ExprV, node: XPathNode, pos: usize, size: usize) -> bool
    decreases pred, 2int, 0int,
{
    if selects_nodes(pred) {
        in_context(ix, o, pred, node).len() > 0
    } else {
        match value(ix, o, pred, node, pos, size) {
            ValueV::Num(n) => reply_flag(o(OpV::Equal(count(o, pos), n))),
            v => truthy(o, v),
        }
    }
}

/// The truth of an expression at a node: a set of nodes is true when it is not
/// empty.
#[verifier::opaque]
pub open spec fn truth(ix: XmlIndex, o: Oracle, e: ExprV, node: XPathNode, pos: usize, size: usize) -> bool
    decreases e, 2int, 0int,
{
    if selects_nodes(e) {
        in_context(ix, o, e, node).len() > 0
    } else {
        truthy(o, value(ix, o, e, node, pos, size))
    }
}

/// The text of the first node of a set; empty for an empty set.
pub open spec fn first_text(ix: XmlIndex, nodes: Seq<XPathNode>) -> Seq<char> {
    if nodes.len() > 0 {
        string_value(ix, nodes[0])
    } else {
        Seq::empty()
    }
}

/// Whether an operator compares.
pub open spec fn is_comparison(op: BinaryOp) -> bool {
    op == BinaryOp::Eq || op == BinaryOp::Neq || op == BinaryOp::Lt || op == BinaryOp::Gt || op
        == BinaryOp::Lte || op == BinaryOp::Gte
}

/// Whether a comparison holds of a set of nodes and a value: of a truth value and
/// whether there are nodes, of another value and the text of some node.
pub open spec fn some_left(ix: XmlIndex, o: Oracle, nodes: Seq<XPathNode>, op: BinaryOp, r: ValueV) -> bool {
    if r is Bool {
        compare(o, ValueV::Bool(nodes.len() > 0), op, r)
    } else {
        left_text(ix, o, nodes, op, r)
    }
}

/// Whether a comparison holds of the text of some node and a value.
pub open spec fn left_text(ix: XmlIndex, o: Oracle, nodes: Seq<XPathNode>, op: BinaryOp, r: ValueV) -> bool {
    exists|i: int|
        0 <= i < nodes.len() && compare(
            o,
            ValueV::Str(string_value(ix, #[trigger] nodes[i])),
            op,
            r,
        )
}

/// Whether a comparison holds of a value and a set of nodes: see `some_left`.
pub open spec fn some_right(ix: XmlIndex, o: Oracle, l: ValueV, op: BinaryOp, nodes: Seq<XPathNode>) -> bool {
    if l is Bool {
        compare(o, l, op, ValueV::Bool(nodes.len() > 0))
    } else {
        right_text(ix, o, l, op, nodes)
    }
}

/// Whether a comparison holds of a value and the text of some node.
pub open spec fn right_text(ix: XmlIndex, o: Oracle, l: ValueV, op: BinaryOp, nodes: Seq<XPathNode>) -> bool {
    exists|i: int|
        0 <= i < nodes.len() && compare(
            o,
            l,
            op,
            ValueV::Str(string_value(ix, #[trigger] nodes[i])),
        )
}

/// Whether a comparison holds of the texts of some pair of nodes.
pub open spec fn some_pair(
    ix: XmlIndex,
    o: Oracle,
    left: Seq<XPathNode>,
    op: BinaryOp,
    right: Seq<XPathNode>,
) -> bool {
    exists|i: int|
        0 <= i < left.len() && some_right(
            ix,
            o,
            ValueV::Str(string_value(ix, #[trigger] left[i])),
            op,
            right,
        )
}

/// The value of an expression at a node.
#[verifier::opaque]
pub open spec fn value(ix: XmlIndex, o: Oracle, e: ExprV, node: XPathNode, pos: usize, size: usize) -> ValueV
    decreases e, 1int, 0int,
{
    match e {
        ExprV::Str(t) => ValueV::Str(t),
        ExprV::Num(t) => ValueV::Num(literal(o, t)),
        ExprV::Call(name, args) => if name == "id"@ {
            ValueV::Str(first_text(ix, in_context(ix, o, e, node)))
        } else {
            call(ix, o, name, args, node, pos, size)
        },
        ExprV::Minus(x) => ValueV::Num(
            reply_number(
                o(OpV::Negate(number_value(o, value(ix, o, *x, node, pos, size)))),
            ),
        ),
        ExprV::Binary(l, op, r) => if op == BinaryOp::Or {
            ValueV::Bool(
                truth(ix, o, *l, node, pos, size) || truth(ix, o, *r, node, pos, size),
            )
        } else if op == BinaryOp::And {
            ValueV::Bool(
                truth(ix, o, *l, node, pos, size) && truth(ix, o, *r, node, pos, size),
            )
        } else if is_comparison(op) && (selects_nodes(*l) || selects_nodes(*r)) {
            ValueV::Bool(
                if selects_nodes(*l) && selects_nodes(*r) {
                    some_pair(ix, o, in_context(ix, o, *l, node), op, in_context(ix, o, *r, node))
                } else if selects_nodes(*l) {
                    some_left(
                        ix,
                        o,
                        in_context(ix, o, *l, node),
                        op,
                        value(ix, o, *r, node, pos, size),
                    )
                } else {
                    some_right(
                        ix,
                        o,
                        value(ix, o, *l, node, pos, size),
                        op,
                        in_context(ix, o, *r, node),
                    )
                },
            )
        } else {
            let a = value(ix, o, *l, node, pos, size);
            let b = value(ix, o, *r, node, pos, size);
            match arithmetic(o, a, op, b) {
                Some(n) => ValueV::Num(n),
                None => ValueV::Bool(compare(o, a, op, b)),
            }
        },
        _ => ValueV::Str(first_text(ix, in_context(ix, o, e, node))),
    }
}

/// What an expression selects from a node. Expressions that are no node sets select
/// nothing.
#[verifier::opaque]
pub open spec fn in_context(ix: XmlIndex, o: Oracle, e: ExprV, node: XPathNode) -> Seq<XPathNode>
    decreases e, 0int, 0int,
{
    match e {
        ExprV::Path(absolute, steps) => if absolute {
            path_from(ix, o, steps, 0, seq![XPathNode::Element(DOC_ROOT)])
        } else {
            steps_from(ix, o, steps, 0, seq![node])
        },
        ExprV::Union(parts) => tidy(
            ix,
            parts_in_context(ix, o, parts, node, parts.len() as int),
        ),
        ExprV::FilterPath(inner, steps) => steps_from(
            ix,
            o,
            steps,
            0,
            in_context(ix, o, *inner, node),
        ),
        ExprV::GlobalFilter(inner, preds) => filter_all(
            ix,
            o,
            preds,
            preds.len() as int,
            in_context(ix, o, *inner, node),
        ),
        ExprV::Call(name, args) => if name == "id"@ {
            id_nodes(ix, args)
        } else {
            Seq::empty()
        },
        _ => Seq::empty(),
    }
}

/// What the first `k` parts of a union select from a node.
#[verifier::opaque]
pub open spec fn parts_in_context(ix: XmlIndex, o: Oracle, parts: Seq<ExprV>, node: XPathNode, k: int) -> Seq<
    XPathNode,
>
    decreases parts, 0int, k,
{
    if k <= 0 || k > parts.len() {
        Seq::empty()
    } else {
        parts_in_context(ix, o, parts, node, k - 1) + in_context(ix, o, parts[k - 1], node)
    }
}

/// The value of an argument.
#[verifier::opaque]
pub open spec fn arg(
    ix: XmlIndex,
    o: Oracle,
    args: Seq<ExprV>,
    i: int,
    node: XPathNode,
    pos: usize,
    size: usize,
) -> ValueV
    decreases args, 0int, 0int,
{
    if 0 <= i < args.len() {
        value(ix, o, args[i], node, pos, size)
    } else {
        ValueV::Str(Seq::empty())
    }
}

/// What an argument selects.
#[verifier::opaque]
pub open spec fn arg_nodes(ix: XmlIndex, o: Oracle, args: Seq<ExprV>, i: int, node: XPathNode) -> Seq<XPathNode>
    decreases args, 0int, 0int,
{
    if 0 <= i < args.len() {
        in_context(ix, o, args[i], node)
    } else {
        Seq::empty()
    }
}

/// The texts of the first `k` arguments, joined.
#[verifier::opaque]
pub open spec fn joined_args(
    ix: XmlIndex,
    o: Oracle,
    args: Seq<ExprV>,
    node: XPathNode,
    pos: usize,
    size: usize,
    k: int,
) -> Seq<char>
    decreases args, 1int, k,
{
    if k <= 0 {
        Seq::empty()
    } else {
        joined_args(ix, o, args, node, pos, size, k - 1) + text_value(
            o,
            arg(ix, o, args, k - 1, node, pos, size),
        )
    }
}

/// The language of a tag or of its nearest ancestor that has one.
pub open spec fn lang_of(ix: XmlIndex, tag: int) -> Option<Seq<char>>
    decreases tag,
{
    if tag < 0 || tag >= ix.tags() {
        None
    } else {
        match ix.attribute(tag, "xml:lang"@) {
            Some(v) => Some(v),
            None => {
                let up = ix.parents@[tag];
                if up == u32::MAX || up >= tag {
                    None
                } else {
                    lang_of(ix, up as int)
                }
            },
        }
    }
}

/// The tag that a node is, belongs to, or stands in.
pub open spec fn holder(ix: XmlIndex, node: XPathNode) -> int {
    match node {
        XPathNode::Element(i) => i as int,
        XPathNode::Text(i) => ix.text_ranges@[i as int].parent_tag as int,
        XPathNode::Attribute(i, _) => i as int,
        XPathNode::Namespace(i, _) => i as int,
    }
}

/// Whether the language of a node matches the wanted one.
pub open spec fn in_lang(ix: XmlIndex, node: XPathNode, wanted: Seq<char>) -> bool {
    match lang_of(ix, holder(ix, node)) {
        Some(lang) => wanted.len() > 0 && lang_matches(lang, wanted),
        None => false,
    }
}

/// The name of a tag or an attribute, or the prefix of a namespace.
pub open spec fn node_name(ix: XmlIndex, node: XPathNode) -> Seq<char> {
    match node {
        XPathNode::Element(i) => if i < ix.tags() {
            ix.name_text(i as int)
        } else {
            Seq::empty()
        },
        XPathNode::Attribute(i, h) => name_with_hash(ix.attribute_names(i as int), h, 0),
        XPathNode::Namespace(i, h) => name_with_hash(prefixes_at(ix, i as int), h, 0),
        XPathNode::Text(_) => Seq::empty(),
    }
}

/// The part of a text within a span.
pub open spec fn span_of(s: Seq<char>, span: (int, int)) -> Seq<char> {
    s.subrange(span.0, span.1)
}

/// A name without its prefix: what stands after its first colon, if it has one.
pub open spec fn local_part(name: Seq<char>) -> Seq<char> {
    if find_part(name, 0, ":"@) is Some {
        text_after(name, ":"@)
    } else {
        name
    }
}

/// The name of the first node that an argument selects, or of the node itself when
/// there is no argument.
pub open spec fn name_of(ix: XmlIndex, args: Seq<ExprV>, selected: Seq<XPathNode>, node: XPathNode) -> Seq<
    char,
> {
    if args.len() == 0 {
        node_name(ix, node)
    } else if selected.len() > 0 {
        node_name(ix, selected[0])
    } else {
        Seq::empty()
    }
}

/// The value of a function call at a node, given the values of the first three
/// arguments, the texts of all arguments joined, and what the first argument
/// selects. Functions that are not known, and string functions with too few
/// arguments, yield an empty text.
#[verifier::opaque]
pub open spec fn call_value(
    ix: XmlIndex,
    o: Oracle,
    name: Seq<char>,
    args: Seq<ExprV>,
    a0: ValueV,
    a1: ValueV,
    a2: ValueV,
    joined: Seq<char>,
    selected: Seq<XPathNode>,
    node: XPathNode,
    pos: usize,
    size: usize,
) -> ValueV {
    let t0 = text_value(o, a0);
    let t1 = text_value(o, a1);
    let own = if args.len() > 0 {
        t0
    } else {
        string_value(ix, node)
    };
    let n0 = if args.len() > 0 {
        number_value(o, a0)
    } else {
        count(o, 0)
    };
    let truth = if args.len() > 0 && selects_nodes(args[0]) {
        selected.len() > 0
    } else {
        args.len() > 0 && truthy(o, a0)
    };
    if name == "position"@ {
        ValueV::Num(count(o, pos))
    } else if name == "last"@ {
        ValueV::Num(count(o, size))
    } else if name == "count"@ {
        ValueV::Num(count(o, selected.len() as usize))
    } else if name == "contains"@ {
        ValueV::Bool(args.len() >= 2 && find_part(t0, 0, t1) is Some)
    } else if name == "starts-with"@ {
        ValueV::Bool(args.len() >= 2 && stands_at(t0, 0, t1))
    } else if name == "string-length"@ {
        ValueV::Num(count(o, own.len() as usize))
    } else if name == "normalize-space"@ {
        ValueV::Str(normalized(own, own.len() as int))
    } else if name == "not"@ {
        ValueV::Bool(!truth)
    } else if name == "true"@ {
        ValueV::Bool(true)
    } else if name == "false"@ {
        ValueV::Bool(false)
    } else if name == "name"@ {
        ValueV::Str(name_of(ix, args, selected, node))
    } else if name == "local-name"@ {
        ValueV::Str(local_part(name_of(ix, args, selected, node)))
    } else if name == "namespace-uri"@ {
        ValueV::Str(
            if args.len() == 0 {
                node_uri(ix, node)
            } else if selected.len() > 0 {
                node_uri(ix, selected[0])
            } else {
                Seq::empty()
            },
        )
    } else if name == "string"@ {
        ValueV::Str(own)
    } else if name == "concat"@ {
        ValueV::Str(joined)
    } else if name == "substring"@ {
        if args.len() < 2 {
            ValueV::Str(Seq::empty())
        } else {
            let length = if args.len() >= 3 {
                Some(number_value(o, a2))
            } else {
                None
            };
            let start = number_value(o, a1);
            ValueV::Str(
                span_of(
                    t0,
                    reply_span(
                        o(OpV::Substring(start, length, t0.len() as usize)),
                        t0.len() as int,
                    ),
                ),
            )
        }
    } else if name == "floor"@ {
        ValueV::Num(reply_number(o(OpV::Floor(n0))))
    } else if name == "ceiling"@ {
        ValueV::Num(reply_number(o(OpV::Ceiling(n0))))
    } else if name == "round"@ {
        ValueV::Num(reply_number(o(OpV::Round(n0))))
    } else if name == "number"@ {
        ValueV::Num(
            if args.len() > 0 {
                n0
            } else {
                literal(o, string_value(ix, node))
            },
        )
    } else if name == "sum"@ {
        ValueV::Num(
            if args.len() > 0 {
                reply_number(o(OpV::Sum(string_values(ix, selected))))
            } else {
                count(o, 0)
            },
        )
    } else if name == "translate"@ {
        if args.len() >= 3 {
            ValueV::Str(
                translated(
                    t0,
                    t1,
                    text_value(o, a2),
                    t0.len() as int,
                ),
            )
        } else {
            ValueV::Str(Seq::empty())
        }
    } else if name == "substring-before"@ {
        ValueV::Str(
            if args.len() >= 2 {
                text_before(t0, t1)
            } else {
                Seq::empty()
            },
        )
    } else if name == "substring-after"@ {
        ValueV::Str(
            if args.len() >= 2 {
                text_after(t0, t1)
            } else {
                Seq::empty()
            },
        )
    } else if name == "boolean"@ {
        ValueV::Bool(truth)
    } else if name == "lang"@ {
        ValueV::Bool(args.len() > 0 && in_lang(ix, node, t0))
    } else {
        ValueV::Str(Seq::empty())
    }
}

/// The value of a function call at a node.
#[verifier::opaque]
pub open spec fn call(
    ix: XmlIndex,
    o: Oracle,
    name: Seq<char>,
    args: Seq<ExprV>,
    node: XPathNode,
    pos: usize,
    size: usize,
) -> ValueV
    decreases args, 2int, 0int,
{
    call_value(
        ix,
        o,
        name,
        args,
        arg(ix, o, args, 0, node, pos, size),
        arg(ix, o, args, 1, node, pos, size),
        arg(ix, o, args, 2, node, pos, size),
        joined_args(ix, o, args, node, pos, size, args.len() as int),
        arg_nodes(ix, o, args, 0, node),
        node,
        pos,
        size,
    )
}

/// The first element from `k` on whose `id` attribute is the given text.
pub open spec fn element_with_id(ix: XmlIndex, id: Seq<char>, k: int) -> Seq<XPathNode>
    decreases ix.tags() - k,
{
    if k < 0 || k >= ix.tags() {
        Seq::empty()
    } else if ix.element(k) && ix.attribute(k, "id"@) == Some(id) {
        seq![XPathNode::Element(k as usize)]
    } else {
        element_with_id(ix, id, k + 1)
    }
}

/// What `id(..)` selects: the first element with the id that a string literal
/// gives.
pub open spec fn id_nodes(ix: XmlIndex, args: Seq<ExprV>) -> Seq<XPathNode> {
    if args.len() > 0 {
        match args[0] {
            ExprV::Str(id) => element_with_id(ix, id, 0),
            _ => Seq::empty(),
        }
    } else {
        Seq::empty()
    }
}

/// What a query selects. Only location paths, unions, `id()`, and paths and
/// filters on them are queries.
#[verifier::opaque]
pub open spec fn query(ix: XmlIndex, o: Oracle, e: ExprV) -> Option<Seq<XPathNode>>
    decreases e, 1int, 0int,
{
    match e {
        ExprV::Path(_, steps) => Some(
            path_from(ix, o, steps, 0, seq![XPathNode::Element(DOC_ROOT)]),
        ),
        ExprV::Union(parts) => match query_parts(ix, o, parts, parts.len() as int) {
            Some(all) => Some(tidy(ix, all)),
            None => None,
        },
        ExprV::Call(name, args) => if name == "id"@ {
            Some(id_nodes(ix, args))
        } else {
            None
        },
        ExprV::FilterPath(inner, steps) => match query(ix, o, *inner) {
            Some(ctx) => Some(steps_from(ix, o, steps, 0, ctx)),
            None => None,
        },
        ExprV::GlobalFilter(inner, preds) => match query(ix, o, *inner) {
            Some(nodes) => Some(filter_all(ix, o, preds, preds.len() as int, nodes)),
            None => None,
        },
        _ => None,
    }
}

/// What the first `k` parts of a union select; `None` when one of them is no
/// query.
#[verifier::opaque]
pub open spec fn query_parts(ix: XmlIndex, o: Oracle, parts: Seq<ExprV>, k: int) -> Option<
    Seq<XPathNode>,
>
    decreases parts, 0int, k,
{
    if k <= 0 || k > parts.len() {
        Some(Seq::empty())
    } else {
        match query_parts(ix, o, parts, k - 1) {
            None => None,
            Some(before) => match query(ix, o, parts[k - 1]) {
                None => None,
                Some(more) => Some(before + more),
            },
        }
    }
}

/// What a query selects from a context node: a relative path starts there, wherever
/// in the expression it begins.
#[verifier::opaque]
pub open spec fn query_from(ix: XmlIndex, o: Oracle, e: ExprV, node: XPathNode) -> Option<
    Seq<XPathNode>,
>
    decreases e, 3int, 0int,
{
    match e {
        ExprV::Path(false, steps) => Some(path_from(ix, o, steps, 0, seq![node])),
        ExprV::Union(parts) => match query_parts_from(ix, o, parts, node, parts.len() as int) {
            Some(all) => Some(tidy(ix, all)),
            None => None,
        },
        ExprV::FilterPath(inner, steps) => match query_from(ix, o, *inner, node) {
            Some(ctx) => Some(steps_from(ix, o, steps, 0, ctx)),
            None => None,
        },
        ExprV::GlobalFilter(inner, preds) => match query_from(ix, o, *inner, node) {
            Some(nodes) => Some(filter_all(ix, o, preds, preds.len() as int, nodes)),
            None => None,
        },
        _ => query(ix, o, e),
    }
}

/// What the first `k` parts of a union select from a context node.
#[verifier::opaque]
pub open spec fn query_parts_from(ix: XmlIndex, o: Oracle, parts: Seq<ExprV>, node: XPathNode, k: int) -> Option<
    Seq<XPathNode>,
>
    decreases parts, 2int, k,
{
    if k <= 0 || k > parts.len() {
        Some(Seq::empty())
    } else {
        match query_parts_from(ix, o, parts, node, k - 1) {
            None => None,
            Some(before) => match query_from(ix, o, parts[k - 1], node) {
                None => None,
                Some(more) => Some(before + more),
            },
        }
    }
}

} // verus!
