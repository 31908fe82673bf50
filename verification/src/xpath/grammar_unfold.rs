//! One unfolding equation for each recursive nonterminal of the grammar.

use vstd::prelude::*;
use crate::xpath::ast::{Axis, BinaryOp, ExprV, StepV};
use crate::xpath::chars::{at, skip};
use crate::xpath::grammar::{
    and_expr, chain, chain_rest, continuation, element, filter_rest, filtered, from, function_call,
    function_head, function_path, is_path, joint, list_rest, location_path, number_literal, operand,
    operator, or_expr, parenthesized, parenthesized_filter, past, path_steps, plain_step, predicate,
    predicates, primary, quoted, step, step_head, unary, union_of, union_path, with_rest,
    word_then_white, xpath_expr, Element, Joint, Level, StepHead,
};

verus! {

/// Unfolds `step` once.
pub proof fn unfold_step(s: Seq<char>, p: int)
    ensures
        step(s, p) == ({
            match step_head(s, p) {
                None => None,
                Some(StepHead::Abbreviation(axis, e)) => Some((plain_step(axis), e)),
                Some(StepHead::Test(axis, test, t)) => {
                    let (preds, k) = predicates(s, from(p, t));
                    Some((StepV { axis, test, preds }, k))
                },
            }
        }),
{
    reveal(step);
    reveal(predicates);
}

/// Unfolds `predicates` once.
pub proof fn unfold_predicates(s: Seq<char>, p: int)
    ensures
        predicates(s, p) == ({
            match predicate(s, p) {
                None => (Seq::empty(), p),
                Some((e, k)) => if p < s.len() {
                    let (rest, m) = predicates(s, from(p + 1, k));
                    (seq![e] + rest, m)
                } else {
                    (Seq::empty(), p)
                },
            }
        }),
{
    reveal(predicates);
    reveal(predicate);
}

/// Unfolds `predicate` once.
pub proof fn unfold_predicate(s: Seq<char>, p: int)
    ensures
        predicate(s, p) == ({
            let b = past(s, p);
            if !at(s, b, '[') {
                None
            } else {
                match or_expr(s, past(s, b + 1)) {
                    None => None,
                    Some((e, k)) => if at(s, skip(s, k), ']') {
                        Some((e, skip(s, k) + 1))
                    } else {
                        None
                    },
                }
            }
        }),
{
    reveal(predicate);
    reveal(or_expr);
}

/// Unfolds `continuation` once.
pub proof fn unfold_continuation(s: Seq<char>, p: int)
    ensures
        continuation(s, p) == ({
            match joint(s, p) {
                Joint::End(e) => Some((Seq::empty(), e)),
                Joint::Slash(q) => if p >= s.len() {
                    None
                } else {
                    path_steps(s, from(p + 1, q))
                },
                Joint::Slashes(q) => if p >= s.len() {
                    None
                } else {
                    match path_steps(s, from(p + 1, q)) {
                        None => None,
                        Some((rest, m)) => Some((seq![plain_step(Axis::DescendantOrSelf)] + rest, m)),
                    }
                },
            }
        }),
{
    reveal(continuation);
    reveal(path_steps);
}

/// Unfolds `path_steps` once.
pub proof fn unfold_path_steps(s: Seq<char>, p: int)
    ensures
        path_steps(s, p) == ({
            match step(s, p) {
                None => None,
                Some((st, k)) => match continuation(s, from(p, k)) {
                    None => None,
                    Some((rest, m)) => Some((seq![st] + rest, m)),
                },
            }
        }),
{
    reveal(path_steps);
    reveal(step);
    reveal(continuation);
}

/// Unfolds `location_path` once.
pub proof fn unfold_location_path(s: Seq<char>, p: int)
    ensures
        location_path(s, p) == ({
            if !at(s, p, '/') {
                match path_steps(s, p) {
                    None => None,
                    Some((steps, k)) => Some((ExprV::Path(false, steps), k)),
                }
            } else if at(s, p + 1, '/') {
                match path_steps(s, p + 2) {
                    None => None,
                    Some((steps, k)) => Some(
                        (ExprV::Path(true, seq![plain_step(Axis::DescendantOrSelf)] + steps), k),
                    ),
                }
            } else if p + 1 >= s.len() || at(s, p + 1, '|') || at(s, p + 1, ')') || at(s, p + 1, ']') {
                Some((ExprV::Path(true, Seq::empty()), p + 1))
            } else {
                match path_steps(s, p + 1) {
                    None => None,
                    Some((steps, k)) => Some((ExprV::Path(true, steps), k)),
                }
            }
        }),
{
    reveal(location_path);
    reveal(path_steps);
}

/// Unfolds `element` once.
pub proof fn unfold_element(s: Seq<char>, p: int, kind: Element)
    ensures
        element(s, p, kind) == ({
            match kind {
                Element::Path => location_path(s, p),
                Element::Primary => primary(s, p),
                Element::Expr => or_expr(s, p),
            }
        }),
{
    reveal(element);
    reveal(location_path);
    reveal(primary);
    reveal(or_expr);
}

/// Unfolds `list_rest` once.
pub proof fn unfold_list_rest(s: Seq<char>, p: int, separator: char, kind: Element)
    ensures
        list_rest(s, p, separator, kind) == ({
            let b = past(s, p);
            if !at(s, b, separator) {
                (Seq::empty(), p)
            } else {
                match element(s, past(s, b + 1), kind) {
                    None => (Seq::empty(), p),
                    Some((e, k)) => {
                        let (rest, m) = list_rest(s, from(b + 1, k), separator, kind);
                        (seq![e] + rest, m)
                    },
                }
            }
        }),
{
    reveal(list_rest);
    reveal(element);
}

/// Unfolds `function_call` once.
pub proof fn unfold_function_call(s: Seq<char>, p: int)
    ensures
        function_call(s, p) == ({
            match function_head(s, p) {
                None => None,
                Some((w, i)) => if at(s, i, ')') {
                    Some((ExprV::Call(s.subrange(p, w), Seq::empty()), i + 1))
                } else if p >= s.len() {
                    None
                } else {
                    match or_expr(s, from(p + 1, i)) {
                        None => None,
                        Some((first, k)) => {
                            let (rest, m) = list_rest(s, from(p + 1, k), ',', Element::Expr);
                            if at(s, skip(s, m), ')') {
                                Some(
                                    (
                                        ExprV::Call(s.subrange(p, w), seq![first] + rest),
                                        skip(s, m) + 1,
                                    ),
                                )
                            } else {
                                None
                            }
                        },
                    }
                },
            }
        }),
{
    reveal(function_call);
    reveal(list_rest);
    reveal(or_expr);
}

/// Unfolds `parenthesized` once.
pub proof fn unfold_parenthesized(s: Seq<char>, p: int)
    ensures
        parenthesized(s, p) == ({
            if !at(s, p, '(') {
                None
            } else {
                match or_expr(s, past(s, p + 1)) {
                    None => None,
                    Some((first, k)) => {
                        let (rest, m) = list_rest(s, from(p + 1, k), '|', Element::Expr);
                        if at(s, skip(s, m), ')') {
                            Some((union_of(first, rest), skip(s, m) + 1))
                        } else {
                            None
                        }
                    },
                }
            }
        }),
{
    reveal(parenthesized);
    reveal(list_rest);
    reveal(or_expr);
}

/// Unfolds `with_rest` once.
pub proof fn unfold_with_rest(s: Seq<char>, p: int, e: ExprV, k: int)
    ensures
        with_rest(s, p, e, k) == ({
            if p >= s.len() {
                Some((e, k))
            } else {
                filter_rest(s, from(p + 1, k), e)
            }
        }),
{
    reveal(with_rest);
    reveal(filter_rest);
}

/// Unfolds `primary` once.
pub proof fn unfold_primary(s: Seq<char>, p: int)
    ensures
        primary(s, p) == ({
            let q = past(s, p);
            match function_call(s, q) {
                Some((e, k)) => with_rest(s, q, e, k),
                None => match parenthesized(s, q) {
                    Some((e, k)) => with_rest(s, q, e, k),
                    None => match quoted(s, q) {
                        Some((t, k)) => Some((ExprV::Str(t), k)),
                        None => match number_literal(s, q) {
                            Some(r) => Some(r),
                            None => location_path(s, q),
                        },
                    },
                },
            }
        }),
{
    reveal(primary);
    reveal(with_rest);
    reveal(location_path);
    reveal(function_call);
    reveal(parenthesized);
}

/// Unfolds `union_path` once.
pub proof fn unfold_union_path(s: Seq<char>, p: int)
    ensures
        union_path(s, p) == ({
            match primary(s, p) {
                None => None,
                Some((first, k)) => if is_path(first) {
                    let (rest, m) = list_rest(s, from(p, k), '|', Element::Primary);
                    Some((union_of(first, rest), m))
                } else {
                    Some((first, k))
                },
            }
        }),
{
    reveal(union_path);
    reveal(list_rest);
    reveal(primary);
}

/// Unfolds `unary` once.
pub proof fn unfold_unary(s: Seq<char>, p: int)
    ensures
        unary(s, p) == ({
            let q = past(s, p);
            if at(s, q, '-') {
                match unary(s, q + 1) {
                    None => None,
                    Some((e, k)) => Some((ExprV::Minus(Box::new(e)), k)),
                }
            } else {
                union_path(s, q)
            }
        }),
{
    reveal(unary);
    reveal(union_path);
}

/// Unfolds `operand` once.
pub proof fn unfold_operand(s: Seq<char>, p: int, level: Level)
    ensures
        operand(s, p, level) == ({
            match level {
                Level::Multiplicative => unary(s, p),
                Level::Additive => chain(s, p, Level::Multiplicative),
                Level::Relational => chain(s, p, Level::Additive),
                Level::Equality => chain(s, p, Level::Relational),
            }
        }),
{
    reveal(operand);
    reveal(unary);
    reveal(chain);
}

/// Unfolds `chain` once.
pub proof fn unfold_chain(s: Seq<char>, p: int, level: Level)
    ensures
        chain(s, p, level) == ({
            match operand(s, p, level) {
                None => None,
                Some((left, k)) => chain_rest(s, from(p, k), level, left),
            }
        }),
{
    reveal(chain);
    reveal(operand);
    reveal(chain_rest);
}

/// Unfolds `chain_rest` once.
pub proof fn unfold_chain_rest(s: Seq<char>, p: int, level: Level, left: ExprV)
    ensures
        chain_rest(s, p, level, left) == ({
            let b = past(s, p);
            match operator(s, b, level) {
                None => Some((left, p)),
                Some((op, o)) => if b >= s.len() {
                    None
                } else {
                    match operand(s, past(s, from(b + 1, o)), level) {
                        None => None,
                        Some((right, k)) => chain_rest(
                            s,
                            from(b + 1, k),
                            level,
                            ExprV::Binary(Box::new(left), op, Box::new(right)),
                        ),
                    }
                },
            }
        }),
{
    reveal(chain_rest);
    reveal(operand);
}

/// Unfolds `and_expr` once.
pub proof fn unfold_and_expr(s: Seq<char>, p: int)
    ensures
        and_expr(s, p) == ({
            match chain(s, p, Level::Equality) {
                None => None,
                Some((left, k)) => {
                    let i = past(s, from(p, k));
                    if word_then_white(s, i, "and"@) {
                        match and_expr(s, past(s, i + 3)) {
                            None => None,
                            Some((right, m)) => Some(
                                (ExprV::Binary(Box::new(left), BinaryOp::And, Box::new(right)), m),
                            ),
                        }
                    } else {
                        Some((left, i))
                    }
                },
            }
        }),
{
    reveal(and_expr);
    reveal(chain);
}

/// Unfolds `or_expr` once.
pub proof fn unfold_or_expr(s: Seq<char>, p: int)
    ensures
        or_expr(s, p) == ({
            match and_expr(s, p) {
                None => None,
                Some((left, k)) => {
                    let i = past(s, from(p, k));
                    if word_then_white(s, i, "or"@) {
                        match or_expr(s, past(s, i + 2)) {
                            None => None,
                            Some((right, m)) => Some(
                                (ExprV::Binary(Box::new(left), BinaryOp::Or, Box::new(right)), m),
                            ),
                        }
                    } else {
                        Some((left, i))
                    }
                },
            }
        }),
{
    reveal(or_expr);
    reveal(and_expr);
}

/// Unfolds `function_path` once.
pub proof fn unfold_function_path(s: Seq<char>, p: int)
    ensures
        function_path(s, p) == ({
            match function_call(s, p) {
                None => None,
                Some((func, k)) => if at(s, k, '/') {
                    match continuation(s, from(p, k)) {
                        None => None,
                        Some((steps, m)) => if steps.len() == 0 {
                            Some((func, m))
                        } else {
                            Some((ExprV::FilterPath(Box::new(func), steps), m))
                        },
                    }
                } else {
                    let (preds, m) = predicates(s, from(p, k));
                    Some((filtered(func, preds), m))
                },
            }
        }),
{
    reveal(function_path);
    reveal(predicates);
    reveal(continuation);
    reveal(function_call);
}

/// Unfolds `filter_rest` once.
pub proof fn unfold_filter_rest(s: Seq<char>, p: int, inner: ExprV)
    ensures
        filter_rest(s, p, inner) == ({
            if at(s, p, '/') {
                match continuation(s, p) {
                    None => None,
                    Some((steps, m)) => if steps.len() == 0 {
                        Some((inner, m))
                    } else {
                        let (preds, f) = predicates(s, from(p, m));
                        Some((filtered(ExprV::FilterPath(Box::new(inner), steps), preds), f))
                    },
                }
            } else {
                let (preds, f) = predicates(s, p);
                Some((filtered(inner, preds), f))
            }
        }),
{
    reveal(filter_rest);
    reveal(predicates);
    reveal(continuation);
}

/// Unfolds `parenthesized_filter` once.
pub proof fn unfold_parenthesized_filter(s: Seq<char>, p: int)
    ensures
        parenthesized_filter(s, p) == ({
            if !at(s, p, '(') {
                None
            } else {
                match xpath_expr(s, past(s, p + 1)) {
                    None => None,
                    Some((inner, k)) => {
                        let c = past(s, from(p + 1, k));
                        if at(s, c, ')') {
                            filter_rest(s, c + 1, inner)
                        } else {
                            None
                        }
                    },
                }
            }
        }),
{
    reveal(parenthesized_filter);
    reveal(filter_rest);
    reveal(xpath_expr);
}

/// Unfolds `xpath_expr` once.
pub proof fn unfold_xpath_expr(s: Seq<char>, p: int)
    ensures
        xpath_expr(s, p) == ({
            match parenthesized_filter(s, p) {
                Some(r) => Some(r),
                None => match function_path(s, p) {
                    Some(r) => Some(r),
                    None => match location_path(s, p) {
                        None => None,
                        Some((first, k)) => {
                            let (rest, m) = list_rest(s, from(p, k), '|', Element::Path);
                            Some((union_of(first, rest), m))
                        },
                    },
                },
            }
        }),
{
    reveal(xpath_expr);
    reveal(location_path);
    reveal(list_rest);
    reveal(function_path);
    reveal(parenthesized_filter);
}

} // verus!
