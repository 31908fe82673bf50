//! How expressions are written out in full: every axis by its name, and parentheses
//! where the operators alone would group otherwise.

use vstd::prelude::*;
use crate::xpath::ast::{Axis, BinaryOp, ExprV, StepV, TestV};
use crate::xpath::chars::{char_is_alphabetic, char_is_alphanumeric, in_class, is_white, CharClass};

verus! {

/// The name of an axis.
pub open spec fn axis_name(axis: Axis) -> Seq<char> {
    match axis {
        Axis::Child => "child"@,
        Axis::Descendant => "descendant"@,
        Axis::Parent => "parent"@,
        Axis::Ancestor => "ancestor"@,
        Axis::FollowingSibling => "following-sibling"@,
        Axis::PrecedingSibling => "preceding-sibling"@,
        Axis::Following => "following"@,
        Axis::Preceding => "preceding"@,
        Axis::SelfAxis => "self"@,
        Axis::DescendantOrSelf => "descendant-or-self"@,
        Axis::AncestorOrSelf => "ancestor-or-self"@,
        Axis::Attribute => "attribute"@,
        Axis::Namespace => "namespace"@,
    }
}

/// Of the ASCII characters exactly the letters are alphabetic, and the letters and
/// digits alphanumeric.
pub open spec fn usual_letters() -> bool {
    &&& forall|c: char|
        (c as u32) < 128 ==> (#[trigger] char_is_alphanumeric(c) <==> '0' <= c <= '9' || 'A' <= c
            <= 'Z' || 'a' <= c <= 'z')
    &&& forall|c: char|
        (c as u32) < 128 ==> (#[trigger] char_is_alphabetic(c) <==> 'A' <= c <= 'Z' || 'a' <= c
            <= 'z')
}

/// The quotation mark for a text: a single one unless the text holds one.
pub open spec fn mark_for(t: Seq<char>) -> char {
    if t.contains('\'') {
        '"'
    } else {
        '\''
    }
}

/// A text in quotation marks.
pub open spec fn write_text(t: Seq<char>) -> Seq<char> {
    seq![mark_for(t)] + t + seq![mark_for(t)]
}

/// Whether a text can stand in quotation marks.
pub open spec fn is_quotable(t: Seq<char>) -> bool {
    !(t.contains('\'') && t.contains('"'))
}

/// A name without a colon.
pub open spec fn is_plain_name(name: Seq<char>) -> bool {
    &&& name.len() > 0
    &&& forall|i: int|
        0 <= i < name.len() ==> in_class(#[trigger] name[i], CharClass::QName) && name[i] != ':'
            && !is_white(name[i])
}

/// A prefix that can stand before a colon and an asterisk.
pub open spec fn is_plain_prefix(name: Seq<char>) -> bool {
    &&& is_plain_name(name)
    &&& forall|i: int| 0 <= i < name.len() ==> in_class(#[trigger] name[i], CharClass::Prefix)
}

/// A node test.
pub open spec fn write_test(t: TestV) -> Seq<char> {
    match t {
        TestV::Name(name) => name,
        TestV::Wildcard => seq!['*'],
        TestV::Text => "text"@ + seq!['(', ')'],
        TestV::Node => "node"@ + seq!['(', ')'],
        TestV::Comment => "comment"@ + seq!['(', ')'],
        TestV::PI => "processing-instruction"@ + seq!['(', ')'],
        TestV::PIName(name) => "processing-instruction"@ + seq!['('] + write_text(name) + seq![')'],
        TestV::NamespacedName(prefix, local) => prefix + seq![':'] + local,
    }
}

/// Whether a node test can be written.
pub open spec fn is_plain_test(t: TestV) -> bool {
    match t {
        TestV::Name(name) => is_plain_name(name),
        TestV::PIName(name) => is_quotable(name),
        TestV::NamespacedName(prefix, local) => is_plain_name(prefix) && is_plain_name(local) || (
        is_plain_prefix(prefix) && local == seq!['*']),
        _ => true,
    }
}

/// An operator.
pub open spec fn op_text(op: BinaryOp) -> Seq<char> {
    match op {
        BinaryOp::Or => seq!['o', 'r'],
        BinaryOp::And => seq!['a', 'n', 'd'],
        BinaryOp::Eq => seq!['='],
        BinaryOp::Neq => seq!['!', '='],
        BinaryOp::Lt => seq!['<'],
        BinaryOp::Gt => seq!['>'],
        BinaryOp::Lte => seq!['<', '='],
        BinaryOp::Gte => seq!['>', '='],
        BinaryOp::Add => seq!['+'],
        BinaryOp::Sub => seq!['-'],
        BinaryOp::Mul => seq!['*'],
        BinaryOp::Div => seq!['d', 'i', 'v'],
        BinaryOp::Mod => seq!['m', 'o', 'd'],
    }
}

/// How tightly an operator binds.
pub open spec fn op_rank(op: BinaryOp) -> int {
    match op {
        BinaryOp::Or => 0,
        BinaryOp::And => 1,
        BinaryOp::Eq | BinaryOp::Neq => 2,
        BinaryOp::Lt | BinaryOp::Gt | BinaryOp::Lte | BinaryOp::Gte => 3,
        BinaryOp::Add | BinaryOp::Sub => 4,
        BinaryOp::Mul | BinaryOp::Div | BinaryOp::Mod => 5,
    }
}

/// How tightly an expression holds together: an operator, a minus sign, a union, or
/// anything that needs no parentheses.
pub open spec fn rank(e: ExprV) -> int {
    match e {
        ExprV::Binary(_, op, _) => op_rank(op),
        ExprV::Minus(_) => 6,
        ExprV::Union(_) => 7,
        _ => 8,
    }
}

/// How tightly the left side of an operator must hold together: `and` and `or` group to
/// the right, the others to the left.
pub open spec fn left_rank(op: BinaryOp) -> int {
    if op == BinaryOp::Or || op == BinaryOp::And {
        op_rank(op) + 1
    } else {
        op_rank(op)
    }
}

/// How tightly the right side of an operator must hold together.
pub open spec fn right_rank(op: BinaryOp) -> int {
    if op == BinaryOp::Or || op == BinaryOp::And {
        op_rank(op)
    } else {
        op_rank(op) + 1
    }
}

/// An expression where one that holds together this tightly is due: in parentheses
/// unless it does.
#[verifier::opaque]
pub open spec fn write_expr(e: ExprV, n: int) -> Seq<char>
    decreases e, 1int, 0int,
{
    if rank(e) < n {
        seq!['('] + write_bare(e) + seq![')']
    } else {
        write_bare(e)
    }
}

/// An expression without parentheses around it.
#[verifier::opaque]
pub open spec fn write_bare(e: ExprV) -> Seq<char>
    decreases e, 0int, 0int,
{
    match e {
        ExprV::Path(absolute, steps) => if absolute {
            seq!['/'] + write_steps(steps, 0)
        } else {
            write_steps(steps, 0)
        },
        ExprV::Str(t) => write_text(t),
        ExprV::Num(t) => t,
        ExprV::Call(name, args) => name + seq!['('] + write_list(args, 0, ',', 0) + seq![')'],
        ExprV::Binary(l, op, r) => write_expr(*l, left_rank(op)) + seq![' '] + op_text(op) + seq![
            ' ',
        ] + write_expr(*r, right_rank(op)),
        ExprV::Minus(x) => seq!['-'] + write_expr(*x, 6),
        ExprV::Union(parts) => write_list(parts, 0, '|', 8),
        ExprV::FilterPath(inner, steps) => seq!['('] + write_bare(*inner) + seq![')', '/']
            + write_steps(steps, 0),
        ExprV::GlobalFilter(inner, preds) => seq!['('] + write_bare(*inner) + seq![')']
            + write_preds(preds, 0),
    }
}

/// Expressions from the one at `i` on with a separator between each two.
#[verifier::opaque]
pub open spec fn write_list(es: Seq<ExprV>, i: int, separator: char, n: int) -> Seq<char>
    decreases es, 2int, es.len() - i,
{
    if i < 0 || i >= es.len() {
        Seq::empty()
    } else if i + 1 == es.len() {
        write_expr(es[i], n)
    } else {
        write_expr(es[i], n) + seq![separator] + write_list(es, i + 1, separator, n)
    }
}

/// Predicates from the one at `i` on.
#[verifier::opaque]
pub open spec fn write_preds(preds: Seq<ExprV>, i: int) -> Seq<char>
    decreases preds, 2int, preds.len() - i,
{
    if i < 0 || i >= preds.len() {
        Seq::empty()
    } else {
        seq!['['] + write_expr(preds[i], 0) + seq![']'] + write_preds(preds, i + 1)
    }
}

/// A step: its axis, its node test and its predicates.
#[verifier::opaque]
pub open spec fn write_step(st: StepV) -> Seq<char>
    decreases st, 3int, 0int,
{
    axis_name(st.axis) + seq![':', ':'] + write_test(st.test) + write_preds(st.preds, 0)
}

/// Steps from the one at `i` on with a slash between each two.
#[verifier::opaque]
pub open spec fn write_steps(steps: Seq<StepV>, i: int) -> Seq<char>
    decreases steps, 4int, steps.len() - i,
{
    if i < 0 || i >= steps.len() {
        Seq::empty()
    } else if i + 1 == steps.len() {
        write_step(steps[i])
    } else {
        write_step(steps[i]) + seq!['/'] + write_steps(steps, i + 1)
    }
}

/// A number as digits and points.
pub open spec fn is_plain_number(t: Seq<char>) -> bool {
    &&& forall|i: int| 0 <= i < t.len() ==> in_class(#[trigger] t[i], CharClass::Number)
    &&& exists|i: int| 0 <= i < t.len() && '0' <= #[trigger] t[i] <= '9'
}

/// The name of a function.
pub open spec fn is_function_name(name: Seq<char>) -> bool {
    &&& name.len() > 0
    &&& char_is_alphabetic(name[0])
    &&& forall|i: int|
        0 <= i < name.len() ==> in_class(#[trigger] name[i], CharClass::Word) && !is_white(name[i])
    &&& name != "text"@
    &&& name != "node"@
    &&& name != "comment"@
    &&& name != "processing-instruction"@
}

/// Whether an expression is one of a union.
pub open spec fn is_part(e: ExprV) -> bool {
    e is Path || e is Call || e is FilterPath || e is GlobalFilter
}

/// Whether an expression can be written out: its names and texts can, its paths have
/// steps, its unions two parts or more, and its filters predicates.
#[verifier::opaque]
pub open spec fn is_plain(e: ExprV) -> bool
    decreases e, 0int, 0int,
{
    match e {
        ExprV::Path(_, steps) => steps.len() > 0 && plain_steps(steps, 0),
        ExprV::Str(t) => is_quotable(t),
        ExprV::Num(t) => is_plain_number(t),
        ExprV::Call(name, args) => is_function_name(name) && plain_list(args, 0),
        ExprV::Binary(l, _, r) => is_plain(*l) && is_plain(*r),
        ExprV::Minus(x) => is_plain(*x),
        ExprV::Union(parts) => parts.len() > 1 && plain_list(parts, 0) && forall|i: int|
            0 <= i < parts.len() ==> is_part(#[trigger] parts[i]),
        ExprV::FilterPath(inner, steps) => is_plain(*inner) && steps.len() > 0 && plain_steps(
            steps,
            0,
        ),
        ExprV::GlobalFilter(inner, preds) => is_plain(*inner) && preds.len() > 0 && plain_list(
            preds,
            0,
        ),
    }
}

/// Whether the expressions from the one at `i` on can be written out.
#[verifier::opaque]
pub open spec fn plain_list(es: Seq<ExprV>, i: int) -> bool
    decreases es, 2int, es.len() - i,
{
    i < 0 || i >= es.len() || (is_plain(es[i]) && plain_list(es, i + 1))
}

/// Whether the steps from the one at `i` on can be written out.
#[verifier::opaque]
pub open spec fn plain_steps(steps: Seq<StepV>, i: int) -> bool
    decreases steps, 4int, steps.len() - i,
{
    i < 0 || i >= steps.len() || (is_plain_test(steps[i].test) && plain_list(steps[i].preds, 0)
        && plain_steps(steps, i + 1))
}

/// Unfolds `write_expr` once.
pub proof fn unfold_write_expr(e: ExprV, n: int)
    ensures
        write_expr(e, n) == ({
            if rank(e) < n {
                seq!['('] + write_bare(e) + seq![')']
            } else {
                write_bare(e)
            }
        }),
{
    reveal(write_expr);
    reveal(write_bare);
}

/// Unfolds `write_bare` once.
pub proof fn unfold_write_bare(e: ExprV)
    ensures
        write_bare(e) == ({
            match e {
                ExprV::Path(absolute, steps) => if absolute {
                    seq!['/'] + write_steps(steps, 0)
                } else {
                    write_steps(steps, 0)
                },
                ExprV::Str(t) => write_text(t),
                ExprV::Num(t) => t,
                ExprV::Call(name, args) => name + seq!['('] + write_list(args, 0, ',', 0) + seq![')'],
                ExprV::Binary(l, op, r) => write_expr(*l, left_rank(op)) + seq![' '] + op_text(op) + seq![
                    ' ',
                ] + write_expr(*r, right_rank(op)),
                ExprV::Minus(x) => seq!['-'] + write_expr(*x, 6),
                ExprV::Union(parts) => write_list(parts, 0, '|', 8),
                ExprV::FilterPath(inner, steps) => seq!['('] + write_bare(*inner) + seq![')', '/']
                    + write_steps(steps, 0),
                ExprV::GlobalFilter(inner, preds) => seq!['('] + write_bare(*inner) + seq![')']
                    + write_preds(preds, 0),
            }
        }),
{
    reveal(write_bare);
    reveal(write_expr);
    reveal(write_list);
    reveal(write_preds);
    reveal(write_steps);
}

/// Unfolds `write_list` once.
pub proof fn unfold_write_list(es: Seq<ExprV>, i: int, separator: char, n: int)
    ensures
        write_list(es, i, separator, n) == ({
            if i < 0 || i >= es.len() {
                Seq::empty()
            } else if i + 1 == es.len() {
                write_expr(es[i], n)
            } else {
                write_expr(es[i], n) + seq![separator] + write_list(es, i + 1, separator, n)
            }
        }),
{
    reveal(write_list);
    reveal(write_expr);
}

/// Unfolds `write_preds` once.
pub proof fn unfold_write_preds(preds: Seq<ExprV>, i: int)
    ensures
        write_preds(preds, i) == ({
            if i < 0 || i >= preds.len() {
                Seq::empty()
            } else {
                seq!['['] + write_expr(preds[i], 0) + seq![']'] + write_preds(preds, i + 1)
            }
        }),
{
    reveal(write_preds);
    reveal(write_expr);
}

/// Unfolds `write_step` once.
pub proof fn unfold_write_step(st: StepV)
    ensures
        write_step(st) == ({
            axis_name(st.axis) + seq![':', ':'] + write_test(st.test) + write_preds(st.preds, 0)
        }),
{
    reveal(write_step);
    reveal(write_preds);
}

/// Unfolds `write_steps` once.
pub proof fn unfold_write_steps(steps: Seq<StepV>, i: int)
    ensures
        write_steps(steps, i) == ({
            if i < 0 || i >= steps.len() {
                Seq::empty()
            } else if i + 1 == steps.len() {
                write_step(steps[i])
            } else {
                write_step(steps[i]) + seq!['/'] + write_steps(steps, i + 1)
            }
        }),
{
    reveal(write_steps);
    reveal(write_step);
}

/// Unfolds `is_plain` once.
pub proof fn unfold_is_plain(e: ExprV)
    ensures
        is_plain(e) == ({
            match e {
                ExprV::Path(_, steps) => steps.len() > 0 && plain_steps(steps, 0),
                ExprV::Str(t) => is_quotable(t),
                ExprV::Num(t) => is_plain_number(t),
                ExprV::Call(name, args) => is_function_name(name) && plain_list(args, 0),
                ExprV::Binary(l, _, r) => is_plain(*l) && is_plain(*r),
                ExprV::Minus(x) => is_plain(*x),
                ExprV::Union(parts) => parts.len() > 1 && plain_list(parts, 0) && forall|i: int|
                    0 <= i < parts.len() ==> is_part(#[trigger] parts[i]),
                ExprV::FilterPath(inner, steps) => is_plain(*inner) && steps.len() > 0 && plain_steps(
                    steps,
                    0,
                ),
                ExprV::GlobalFilter(inner, preds) => is_plain(*inner) && preds.len() > 0 && plain_list(
                    preds,
                    0,
                ),
            }
        }),
{
    reveal(is_plain);
    reveal(plain_list);
    reveal(plain_steps);
}

/// Unfolds `plain_list` once.
pub proof fn unfold_plain_list(es: Seq<ExprV>, i: int)
    ensures
        plain_list(es, i) == ({
            i < 0 || i >= es.len() || (is_plain(es[i]) && plain_list(es, i + 1))
        }),
{
    reveal(plain_list);
    reveal(is_plain);
}

/// Unfolds `plain_steps` once.
pub proof fn unfold_plain_steps(steps: Seq<StepV>, i: int)
    ensures
        plain_steps(steps, i) == ({
            i < 0 || i >= steps.len() || (is_plain_test(steps[i].test) && plain_list(steps[i].preds, 0)
                && plain_steps(steps, i + 1))
        }),
{
    reveal(plain_steps);
    reveal(plain_list);
}

} // verus!
