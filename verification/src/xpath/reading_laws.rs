//! Reading an expression that has been written out gives back the expression: the
//! expressions.

use vstd::prelude::*;
use crate::xpath::ast::{Axis, BinaryOp, ExprV, StepV, TestV};
use crate::xpath::chars::{
    at, char_is_alphabetic, char_is_alphanumeric, in_class, is_white, lemma_run, run, skip, word_at,
    CharClass,
};
use crate::xpath::grammar::{
    and_expr, axis_spec, chain, chain_rest, function_call, function_head, joint, list_rest,
    location_path, number_literal, operand, operator, or_expr, parenthesized, past, path_steps,
    predicates, primary, quoted, step, step_head, unary, union_path, with_rest, xpath_expr, Element,
    Level,
};
use crate::xpath::grammar_unfold::{
    unfold_and_expr, unfold_chain, unfold_chain_rest, unfold_continuation, unfold_element,
    unfold_filter_rest, unfold_function_call, unfold_function_path, unfold_list_rest,
    unfold_location_path, unfold_operand, unfold_or_expr, unfold_parenthesized,
    unfold_parenthesized_filter, unfold_path_steps, unfold_predicate, unfold_predicates,
    unfold_primary, unfold_step, unfold_unary, unfold_union_path, unfold_with_rest,
    unfold_xpath_expr,
};
use crate::xpath::parser::{parsed_predicate, parsed_xpath, trimmed};
use crate::xpath::writing::{
    axis_name, is_part, is_plain, is_plain_test, left_rank, op_rank, op_text, plain_list,
    plain_steps, rank, right_rank, unfold_is_plain, unfold_plain_list, unfold_plain_steps,
    unfold_write_bare, unfold_write_expr, unfold_write_list, unfold_write_preds, unfold_write_step,
    unfold_write_steps, usual_letters, write_bare, write_expr, write_list, write_preds, write_step,
    write_steps, write_test, write_text,
};
use crate::xpath::writing_laws::{
    lemma_axis_is_word, lemma_head_read_back, lemma_no_blank, lemma_run_bounded, lemma_run_ends,
    lemma_test_read_back, lemma_text_read_back, lemma_types_are_words, lemma_word_chars,
    lemma_word_run, lemma_word_run_of, lemma_word_split, stops,
};

verus! {

/// Whether what stands at a position closes an expression.
pub open spec fn closes(s: Seq<char>, q: int) -> bool {
    &&& 0 <= q <= s.len()
    &&& q < s.len() ==> s[q] == ')' || s[q] == ']' || s[q] == ','
}

/// An operator with the blanks around it.
pub open spec fn spaced_op(op: BinaryOp) -> Seq<char> {
    seq![' '] + op_text(op) + seq![' ']
}

/// Whether what stands at a position ends an expression that holds together as tightly
/// as `n`: it closes it, or it is an operator that binds no tighter, or a further part of
/// a union.
pub open spec fn follows(s: Seq<char>, q: int, n: int) -> bool {
    &&& 0 <= q <= s.len()
    &&& closes(s, q) || (n >= 7 && at(s, q, '|')) || exists|op: BinaryOp|
        op_rank(op) <= n && #[trigger] word_at(s, q, spaced_op(op))
}

/// Whether what stands at a position ends a path.
spec fn ends_path(s: Seq<char>, q: int) -> bool {
    stops(s, q) && !at(s, q, '/') && !at(s, skip(s, q), '[')
}

/// The operators of a level bind as tightly as this.
spec fn level_of(level: Level) -> int {
    match level {
        Level::Multiplicative => 5,
        Level::Additive => 4,
        Level::Relational => 3,
        Level::Equality => 2,
    }
}

/// What stands behind an expression before an operator.
proof fn lemma_op_at(s: Seq<char>, q: int, op: BinaryOp)
    requires
        usual_letters(),
        word_at(s, q, spaced_op(op)),
    ensures
        s[q] == ' ',
        skip(s, q) == q + 1,
        past(s, q) == q + 1,
        word_at(s, q + 1, op_text(op)),
        op_text(op).len() > 0,
        q + 1 + op_text(op).len() < s.len(),
        s[q + 1 + op_text(op).len()] == ' ',
        s[q + 1] == op_text(op)[0],
        0 <= q,
{
    let w = spaced_op(op);
    lemma_word_chars(s, q, w);
    assert(s[q] == w[0]);
    lemma_word_split(s, q, seq![' '] + op_text(op), seq![' ']);
    lemma_word_split(s, q, seq![' '], op_text(op));
    lemma_word_chars(s, q + 1, op_text(op));
    lemma_word_chars(s, q + 1 + op_text(op).len(), seq![' ']);
    assert(s[q + 1 + op_text(op).len()] == seq![' '][0]);
    assert(s[q + 1] == op_text(op)[0]);
    lemma_no_blank(s, q + 1);
    assert(in_class(s[q], CharClass::Blank));
}

/// The operator that stands at a position, of its own level and of no other.
proof fn lemma_operator_read(s: Seq<char>, b: int, op: BinaryOp, level: Level)
    requires
        usual_letters(),
        word_at(s, b, op_text(op)),
        b + op_text(op).len() < s.len(),
        s[b + op_text(op).len()] == ' ',
    ensures
        op_rank(op) == level_of(level) ==> operator(s, b, level) == Some(
            (op, b + op_text(op).len()),
        ),
        op_rank(op) < level_of(level) ==> operator(s, b, level) is None,
{
    reveal(operator);
    reveal_strlit("div");
    reveal_strlit("mod");
    let w = op_text(op);
    lemma_word_chars(s, b, w);
    assert(s[b] == w[0]);
    if w.len() > 1 {
        assert(s[b + 1] == w[1]);
    }
    if w.len() > 2 {
        assert(s[b + 2] == w[2]);
    }
    assert(!char_is_alphanumeric(' '));
    assert("div"@ =~= seq!['d', 'i', 'v']);
    assert("mod"@ =~= seq!['m', 'o', 'd']);
    if word_at(s, b, "div"@) {
        lemma_word_chars(s, b, "div"@);
        assert("div"@[0] == s[b + 0]);
    }
    if word_at(s, b, "mod"@) {
        lemma_word_chars(s, b, "mod"@);
        assert("mod"@[0] == s[b + 0]);
    }
}

/// Behind an expression stands no operator that binds tighter.
proof fn lemma_no_operator(s: Seq<char>, q: int, n: int, level: Level)
    requires
        usual_letters(),
        follows(s, q, n),
        level_of(level) > n,
    ensures
        operator(s, past(s, q), level) is None,
{
    reveal(operator);
    reveal_strlit("div");
    reveal_strlit("mod");
    if closes(s, q) {
        lemma_no_blank(s, q);
        if word_at(s, q, "div"@) {
            lemma_word_chars(s, q, "div"@);
            assert("div"@[0] == s[q + 0]);
        }
        if word_at(s, q, "mod"@) {
            lemma_word_chars(s, q, "mod"@);
            assert("mod"@[0] == s[q + 0]);
        }
    } else {
        let op = choose|op: BinaryOp|
            op_rank(op) <= n && #[trigger] word_at(s, q, spaced_op(op));
        lemma_op_at(s, q, op);
        lemma_operator_read(s, q + 1, op, level);
    }
}

/// What ends an expression ends names, paths and lists of predicates.
proof fn lemma_follows_stops(s: Seq<char>, q: int, n: int)
    requires
        usual_letters(),
        follows(s, q, n),
    ensures
        stops(s, q),
        ends_path(s, q),
        n < 7 ==> !at(s, past(s, q), '|'),
        !at(s, past(s, q), '['),
        past(s, q) == skip(s, q),
        q <= skip(s, q) <= s.len(),
{
    lemma_run(s, q, CharClass::Blank);
    if closes(s, q) {
        lemma_no_blank(s, q);
    } else if n >= 7 && at(s, q, '|') {
        lemma_no_blank(s, q);
    } else {
        let op = choose|op: BinaryOp|
            op_rank(op) <= n && #[trigger] word_at(s, q, spaced_op(op));
        lemma_op_at(s, q, op);
    }
}

/// How a written expression starts.
proof fn lemma_starts(e: ExprV, n: int)
    requires
        usual_letters(),
        is_plain(e),
        n <= 8,
    ensures
        write_expr(e, n).len() > 0,
        !is_white(write_expr(e, n)[0]),
        write_expr(e, n)[0] != ')',
        write_expr(e, n)[0] == '-' ==> n <= 6,
        write_expr(e, n)[0] == '-' && n == 6 ==> e is Minus,
    decreases e, 0int, 0int,
{
    unfold_write_expr(e, n);
    unfold_write_bare(e);
    unfold_is_plain(e);
    if rank(e) < n {
    } else {
        match e {
            ExprV::Path(absolute, steps) => {
                if !absolute {
                    lemma_steps_start(steps, 0);
                }
            },
            ExprV::Str(t) => {},
            ExprV::Num(t) => {
                assert(in_class(t[0], CharClass::Number));
            },
            ExprV::Call(name, args) => {
                assert(!char_is_alphabetic('-'));
                assert(!char_is_alphabetic(')'));
                assert(in_class(name[0], CharClass::Word));
            },
            ExprV::Binary(l, op, r) => {
                lemma_starts(*l, left_rank(op));
                let w = write_expr(*l, left_rank(op));
                assert(write_bare(e)[0] == w[0]);
                assert(n <= 5);
            },
            ExprV::Minus(x) => {},
            ExprV::Union(parts) => {
                lemma_list_start(parts, 0, '|', 8);
            },
            _ => {},
        }
    }
}

proof fn lemma_steps_start(steps: Seq<StepV>, i: int)
    requires
        0 <= i < steps.len(),
    ensures
        write_steps(steps, i).len() > 0,
        'a' <= write_steps(steps, i)[0] <= 'z',
        !is_white(write_steps(steps, i)[0]),
{
    unfold_write_steps(steps, i);
    unfold_write_step(steps[i]);
    lemma_axis_is_word(steps[i].axis);
    let w = write_step(steps[i]);
    assert(w[0] == axis_name(steps[i].axis)[0]);
    assert(write_steps(steps, i)[0] == w[0]);
}

proof fn lemma_list_start(es: Seq<ExprV>, i: int, separator: char, n: int)
    requires
        usual_letters(),
        plain_list(es, i),
        0 <= i < es.len(),
        n <= 8,
    ensures
        write_list(es, i, separator, n).len() > 0,
        write_list(es, i, separator, n)[0] == write_expr(es[i], n)[0],
        !is_white(write_list(es, i, separator, n)[0]),
        write_list(es, i, separator, n)[0] != ')',
        write_list(es, i, separator, n)[0] == '-' ==> n <= 6,
    decreases es, 2int, es.len() - i,
{
    unfold_write_list(es, i, separator, n);
    unfold_plain_list(es, i);
    lemma_starts(es[i], n);
}

/// Skipping a blank before a written expression.
proof fn lemma_past_blank(s: Seq<char>, b: int)
    requires
        0 <= b,
        b + 1 < s.len(),
        s[b] == ' ',
        !is_white(s[b + 1]),
    ensures
        past(s, b) == b + 1,
{
    assert(in_class(s[b], CharClass::Blank));
    lemma_no_blank(s, b + 1);
}

/// No blank stands before a written expression.
proof fn lemma_at_start(s: Seq<char>, p: int, e: ExprV, n: int)
    requires
        usual_letters(),
        is_plain(e),
        n <= 8,
        word_at(s, p, write_expr(e, n)),
    ensures
        0 <= p < s.len(),
        s[p] == write_expr(e, n)[0],
        !is_white(s[p]),
        skip(s, p) == p,
        past(s, p) == p,
{
    lemma_starts(e, n);
    lemma_word_chars(s, p, write_expr(e, n));
    assert(s[p] == write_expr(e, n)[0]);
    lemma_no_blank(s, p);
}

/// Reading an expression.
proof fn read_or(s: Seq<char>, p: int, e: ExprV)
    requires
        usual_letters(),
        is_plain(e),
        word_at(s, p, write_expr(e, 0)),
        closes(s, p + write_expr(e, 0).len()),
    ensures
        or_expr(s, p) == Some((e, p + write_expr(e, 0).len())),
    decreases e, 0int, 30int,
{
    let q = p + write_expr(e, 0).len();
    unfold_or_expr(s, p);
    reveal_strlit("or");
    assert("or"@ =~= op_text(BinaryOp::Or));
    if rank(e) == 0 {
        unfold_write_expr(e, 0);
        unfold_is_plain(e);
        let l = *e->Binary_0;
        let r = *e->Binary_2;
        let q1 = p + write_expr(l, 1).len();
        lemma_binary_split(s, p, e);
        read_and(s, p, l);
        lemma_op_at(s, q1, BinaryOp::Or);
        lemma_follows_op(s, q1, BinaryOp::Or, 0);
        lemma_at_start(s, q1 + 4, r, 0);
        lemma_no_blank(s, q1 + 1);
        lemma_past_blank(s, q1 + 3);
        read_or(s, q1 + 4, r);
    } else {
        lemma_same_text(e, 0);
        lemma_closes(s, q, 0);
        read_and(s, p, e);
        lemma_no_blank(s, q);
        if word_at(s, q, "or"@) {
            lemma_word_chars(s, q, "or"@);
            assert("or"@[0] == s[q + 0]);
        }
    }
}

/// What closes an expression ends it.
proof fn lemma_closes(s: Seq<char>, q: int, n: int)
    requires
        closes(s, q),
    ensures
        follows(s, q, n),
        skip(s, q) == q,
        past(s, q) == q,
{
    lemma_no_blank(s, q);
}

/// An operator ends an expression that holds together as tightly.
proof fn lemma_follows_op(s: Seq<char>, q: int, op: BinaryOp, n: int)
    requires
        word_at(s, q, spaced_op(op)),
        op_rank(op) <= n,
    ensures
        follows(s, q, n),
{
    lemma_word_chars(s, q, spaced_op(op));
}

/// What ends an expression ends one that holds together more tightly.
proof fn lemma_follows_more(s: Seq<char>, q: int, n: int, m: int)
    requires
        follows(s, q, n),
        n <= m,
    ensures
        follows(s, q, m),
{
    if !closes(s, q) && !(n >= 7 && at(s, q, '|')) {
        let op = choose|op: BinaryOp|
            op_rank(op) <= n && #[trigger] word_at(s, q, spaced_op(op));
        assert(op_rank(op) <= m && word_at(s, q, spaced_op(op)));
    }
}

/// An expression that needs no parentheses, or needs them anyway, is written the same
/// where one more is due.
proof fn lemma_same_text(e: ExprV, n: int)
    requires
        rank(e) != n,
    ensures
        write_expr(e, n) == write_expr(e, n + 1),
{
    unfold_write_expr(e, n);
    unfold_write_expr(e, n + 1);
}

/// The parts of an operator expression.
proof fn lemma_binary_split(s: Seq<char>, p: int, e: ExprV)
    requires
        e is Binary,
        word_at(s, p, write_bare(e)),
    ensures
        ({
            let l = write_expr(*e->Binary_0, left_rank(e->Binary_1));
            let r = write_expr(*e->Binary_2, right_rank(e->Binary_1));
            let w = spaced_op(e->Binary_1);
            &&& word_at(s, p, l)
            &&& word_at(s, p + l.len(), w)
            &&& word_at(s, p + l.len() + w.len(), r)
            &&& write_bare(e).len() == l.len() + w.len() + r.len()
            &&& w.len() == op_text(e->Binary_1).len() + 2
        }),
{
    unfold_write_bare(e);
    let l = write_expr(*e->Binary_0, left_rank(e->Binary_1));
    let r = write_expr(*e->Binary_2, right_rank(e->Binary_1));
    let w = spaced_op(e->Binary_1);
    assert(write_bare(e) =~= l + w + r);
    lemma_word_split(s, p, l + w, r);
    lemma_word_split(s, p, l, w);
}

/// Reading an expression without `or`.
proof fn read_and(s: Seq<char>, p: int, e: ExprV)
    requires
        usual_letters(),
        is_plain(e),
        word_at(s, p, write_expr(e, 1)),
        follows(s, p + write_expr(e, 1).len(), 0),
    ensures
        and_expr(s, p) == Some((e, skip(s, p + write_expr(e, 1).len()))),
    decreases
            e,
            (if rank(e) < 1 {
                1int
            } else {
                0int
            }),
            29int,
{
    let q = p + write_expr(e, 1).len();
    unfold_and_expr(s, p);
    reveal_strlit("and");
    assert("and"@ =~= op_text(BinaryOp::And));
    if rank(e) == 1 {
        unfold_is_plain(e);
        let l = *e->Binary_0;
        let r = *e->Binary_2;
        let q1 = p + write_expr(l, 2).len();
        assert(write_expr(e, 1) == write_bare(e)) by {
            unfold_write_expr(e, 1);
        }
        lemma_binary_split(s, p, e);
        lemma_op_at(s, q1, BinaryOp::And);
        lemma_follows_op(s, q1, BinaryOp::And, 1);
        lemma_follows_more(s, q1, 1, 2);
        read_chain(s, p, l, Level::Equality);
        lemma_no_operator(s, q1, 1, Level::Equality);
        unfold_chain_rest(s, q1, Level::Equality, l);
        lemma_at_start(s, q1 + 5, r, 1);
        lemma_past_blank(s, q1 + 4);
        read_and(s, q1 + 5, r);
    } else {
        lemma_same_text(e, 1);
        lemma_follows_more(s, q, 0, 2);
        read_chain(s, p, e, Level::Equality);
        lemma_no_operator(s, q, 0, Level::Equality);
        unfold_chain_rest(s, q, Level::Equality, e);
        lemma_follows_stops(s, q, 0);
        if closes(s, q) {
            lemma_no_blank(s, q);
            if word_at(s, q, "and"@) {
                lemma_word_chars(s, q, "and"@);
                assert("and"@[0] == s[q + 0]);
            }
        } else {
            let op = choose|op: BinaryOp|
                op_rank(op) <= 0 && #[trigger] word_at(s, q, spaced_op(op));
            lemma_op_at(s, q, op);
            if word_at(s, q + 1, "and"@) {
                lemma_word_chars(s, q + 1, "and"@);
                assert("and"@[0] == s[q + 1 + 0]);
            }
        }
    }
}

/// Reading operands joined by the operators of a level.
proof fn read_chain(s: Seq<char>, p: int, e: ExprV, level: Level)
    requires
        usual_letters(),
        is_plain(e),
        word_at(s, p, write_expr(e, level_of(level))),
        follows(s, p + write_expr(e, level_of(level)).len(), level_of(level)),
    ensures
        chain(s, p, level) == chain_rest(
            s,
            p + write_expr(e, level_of(level)).len(),
            level,
            e,
        ),
    decreases
            e,
            (if rank(e) < level_of(level) {
                1int
            } else {
                0int
            }),
            28 - 2 * level_of(level),
{
    let n = level_of(level);
    let q = p + write_expr(e, n).len();
    if rank(e) == n {
        unfold_is_plain(e);
        let l = *e->Binary_0;
        let op = e->Binary_1;
        let r = *e->Binary_2;
        let q1 = p + write_expr(l, n).len();
        assert(write_expr(e, n) == write_bare(e)) by {
            unfold_write_expr(e, n);
        }
        lemma_binary_split(s, p, e);
        lemma_op_at(s, q1, op);
        lemma_follows_op(s, q1, op, n);
        read_chain(s, p, l, level);
        lemma_operator_read(s, q1 + 1, op, level);
        let o = q1 + 1 + op_text(op).len();
        let pr = o + 1;
        lemma_at_start(s, pr, r, n + 1);
        lemma_past_blank(s, o);
        unfold_chain_rest(s, q1, level, l);
        read_operand(s, pr, r, level);
        assert(e == ExprV::Binary(Box::new(l), op, Box::new(r)));
    } else {
        lemma_same_text(e, n);
        read_operand(s, p, e, level);
        unfold_chain(s, p, level);
    }
}

/// Reading an operand of a level.
proof fn read_operand(s: Seq<char>, p: int, e: ExprV, level: Level)
    requires
        usual_letters(),
        is_plain(e),
        word_at(s, p, write_expr(e, level_of(level) + 1)),
        follows(s, p + write_expr(e, level_of(level) + 1).len(), level_of(level)),
    ensures
        operand(s, p, level) == Some((e, p + write_expr(e, level_of(level) + 1).len())),
    decreases
            e,
            (if rank(e) < level_of(level) + 1 {
                1int
            } else {
                0int
            }),
            27 - 2 * level_of(level),
{
    let n = level_of(level);
    let q = p + write_expr(e, n + 1).len();
    unfold_operand(s, p, level);
    lemma_follows_more(s, q, n, n + 1);
    match level {
        Level::Multiplicative => {
            read_unary(s, p, e);
        },
        _ => {
            let tighter = match level {
                Level::Additive => Level::Multiplicative,
                Level::Relational => Level::Additive,
                _ => Level::Relational,
            };
            read_chain(s, p, e, tighter);
            lemma_no_operator(s, q, n, tighter);
            unfold_chain_rest(s, q, tighter, e);
        },
    }
}

/// Reading an expression with minus signs before it.
proof fn read_unary(s: Seq<char>, p: int, e: ExprV)
    requires
        usual_letters(),
        is_plain(e),
        word_at(s, p, write_expr(e, 6)),
        follows(s, p + write_expr(e, 6).len(), 5),
    ensures
        unary(s, p) == Some((e, p + write_expr(e, 6).len())),
    decreases
            e,
            (if rank(e) < 6 {
                1int
            } else {
                0int
            }),
            12int,
{
    let q = p + write_expr(e, 6).len();
    unfold_unary(s, p);
    lemma_at_start(s, p, e, 6);
    lemma_starts(e, 6);
    if e is Minus {
        unfold_is_plain(e);
        let x = *e->Minus_0;
        assert(write_expr(e, 6) == seq!['-'] + write_expr(x, 6)) by {
            unfold_write_expr(e, 6);
            unfold_write_bare(e);
        }
        lemma_word_split(s, p, seq!['-'], write_expr(x, 6));
        read_unary(s, p + 1, x);
        assert(e == ExprV::Minus(Box::new(x)));
    } else {
        lemma_same_text(e, 6);
        lemma_follows_more(s, q, 5, 6);
        read_union(s, p, e);
    }
}

/// Reading a union, or one part.
proof fn read_union(s: Seq<char>, p: int, e: ExprV)
    requires
        usual_letters(),
        is_plain(e),
        word_at(s, p, write_expr(e, 7)),
        follows(s, p + write_expr(e, 7).len(), 6),
    ensures
        union_path(s, p) == Some((e, p + write_expr(e, 7).len())),
    decreases
            e,
            (if rank(e) < 7 {
                1int
            } else {
                0int
            }),
            11int,
{
    let q = p + write_expr(e, 7).len();
    unfold_union_path(s, p);
    lemma_follows_stops(s, q, 6);
    if e is Union {
        unfold_is_plain(e);
        let parts = e->Union_0;
        assert(write_expr(e, 7) == write_list(parts, 0, '|', 8)) by {
            unfold_write_expr(e, 7);
            unfold_write_bare(e);
        }
        let w = write_expr(parts[0], 8);
        let q1 = p + w.len();
        assert(write_list(parts, 0, '|', 8) == w + seq!['|'] + write_list(parts, 1, '|', 8)) by {
            unfold_write_list(parts, 0, '|', 8);
        }
        assert(is_plain(parts[0]) && plain_list(parts, 1)) by {
            unfold_plain_list(parts, 0);
        }
        assert(is_part(parts[0]));
        lemma_word_split(s, p, w + seq!['|'], write_list(parts, 1, '|', 8));
        lemma_word_split(s, p, w, seq!['|']);
        lemma_word_chars(s, q1, seq!['|']);
        assert(s[q1] == seq!['|'][0]);
        assert(follows(s, q1, 7));
        read_primary(s, p, parts[0]);
        lemma_word_split(s, q1, seq!['|'], write_list(parts, 1, '|', 8));
        read_rest(s, q1, parts, 1, '|');
        assert(seq![parts[0]] + parts.skip(1) =~= parts);
    } else {
        lemma_same_text(e, 7);
        lemma_follows_more(s, q, 6, 7);
        read_primary(s, p, e);
        unfold_list_rest(s, q, '|', Element::Primary);
        assert(list_rest(s, q, '|', Element::Primary).0.len() == 0);
    }
}

/// What is read of a list: texts of any expressions between commas, or of the parts of a
/// union between bars.
spec fn kind_of(separator: char) -> (Element, int) {
    if separator == ',' {
        (Element::Expr, 0)
    } else {
        (Element::Primary, 8)
    }
}

/// Reading the rest of a list from the separator before expression `i` on.
proof fn read_rest(s: Seq<char>, p: int, es: Seq<ExprV>, i: int, separator: char)
    requires
        usual_letters(),
        separator == ',' || separator == '|',
        0 <= i <= es.len(),
        plain_list(es, i),
        0 <= p <= s.len(),
        i < es.len() ==> word_at(
            s,
            p,
            seq![separator] + write_list(es, i, separator, kind_of(separator).1),
        ),
        ({
            let q = if i < es.len() {
                p + 1 + write_list(es, i, separator, kind_of(separator).1).len()
            } else {
                p
            };
            if separator == ',' {
                at(s, q, ')')
            } else {
                follows(s, q, 6)
            }
        }),
    ensures
        list_rest(s, p, separator, kind_of(separator).0) == (
            es.skip(i),
            if i < es.len() {
                p + 1 + write_list(es, i, separator, kind_of(separator).1).len()
            } else {
                p
            },
        ),
    decreases es, 2int, es.len() - i,
{
    let (kind, n) = kind_of(separator);
    unfold_list_rest(s, p, separator, kind);
    if i == es.len() {
        assert(es.skip(i) =~= Seq::empty());
        if separator == ',' {
            lemma_no_blank(s, p);
        } else {
            lemma_follows_stops(s, p, 6);
        }
    } else {
        let e = es[i];
        let w = write_expr(e, n);
        let rest = write_list(es, i, separator, n);
        assert(is_plain(e) && plain_list(es, i + 1)) by {
            unfold_plain_list(es, i);
        }
        lemma_word_split(s, p, seq![separator], rest);
        lemma_word_chars(s, p, seq![separator]);
        assert(s[p] == seq![separator][0]);
        lemma_no_blank(s, p);
        let q1 = p + 1 + w.len();
        if i + 1 < es.len() {
            let more = write_list(es, i + 1, separator, n);
            assert(rest == w + seq![separator] + more) by {
                unfold_write_list(es, i, separator, n);
            }
            assert(rest =~= w + (seq![separator] + more));
            lemma_word_split(s, p + 1, w, seq![separator] + more);
            lemma_word_split(s, q1, seq![separator], more);
            lemma_word_chars(s, q1, seq![separator]);
            assert(s[q1] == seq![separator][0]);
        } else {
            assert(rest == w) by {
                unfold_write_list(es, i, separator, n);
            }
        }
        lemma_at_start(s, p + 1, e, n);
        unfold_element(s, p + 1, kind);
        if separator == ',' {
            read_or(s, p + 1, e);
        } else {
            if i + 1 < es.len() {
                assert(follows(s, q1, 7));
            } else {
                lemma_follows_more(s, q1, 6, 7);
            }
            read_primary(s, p + 1, e);
        }
        read_rest(s, q1, es, i + 1, separator);
        assert(seq![e] + es.skip(i + 1) =~= es.skip(i));
    }
}

/// Reading an expression in parentheses.
proof fn read_parens(s: Seq<char>, p: int, e: ExprV)
    requires
        usual_letters(),
        is_plain(e),
        word_at(s, p, seq!['('] + write_bare(e) + seq![')']),
    ensures
        parenthesized(s, p) == Some((e, p + write_bare(e).len() + 2)),
        function_call(s, p) is None,
        past(s, p) == p,
        0 <= p < s.len(),
    decreases e, 0int, 40int,
{
    let w = write_bare(e);
    let c = p + 1 + w.len();
    lemma_word_split(s, p, seq!['('] + w, seq![')']);
    lemma_word_split(s, p, seq!['('], w);
    lemma_word_chars(s, p, seq!['(']);
    lemma_word_chars(s, c, seq![')']);
    assert(s[p] == seq!['('][0]);
    assert(s[c] == seq![')'][0]);
    assert(write_expr(e, 0) == w) by {
        unfold_write_expr(e, 0);
    }
    unfold_function_call(s, p);
    reveal(function_head);
    assert(!char_is_alphabetic('('));
    unfold_parenthesized(s, p);
    lemma_at_start(s, p + 1, e, 0);
    lemma_no_blank(s, p);
    lemma_no_blank(s, c);
    read_or(s, p + 1, e);
    unfold_list_rest(s, c, '|', Element::Expr);
    assert(list_rest(s, c, '|', Element::Expr).0.len() == 0);
}

/// Nothing more of an expression stands behind it.
proof fn lemma_no_rest(s: Seq<char>, p: int, e: ExprV, k: int)
    requires
        usual_letters(),
        0 <= p < k <= s.len(),
        ends_path(s, k),
    ensures
        with_rest(s, p, e, k) == Some((e, k)),
{
    unfold_with_rest(s, p, e, k);
    unfold_filter_rest(s, k, e);
    lemma_no_predicates(s, k);
}

/// No predicate stands behind a path.
proof fn lemma_no_predicates(s: Seq<char>, k: int)
    requires
        0 <= k <= s.len(),
        !at(s, skip(s, k), '['),
    ensures
        predicates(s, k).0.len() == 0,
        predicates(s, k) == (Seq::<ExprV>::empty(), k),
{
    lemma_run(s, k, CharClass::Blank);
    unfold_predicates(s, k);
    unfold_predicate(s, k);
}

/// Reading a primary expression.
proof fn read_primary(s: Seq<char>, p: int, e: ExprV)
    requires
        usual_letters(),
        is_plain(e),
        word_at(s, p, write_expr(e, 8)),
        follows(s, p + write_expr(e, 8).len(), 7),
    ensures
        primary(s, p) == Some((e, p + write_expr(e, 8).len())),
    decreases
            e,
            (if rank(e) < 8 {
                1int
            } else {
                0int
            }),
            10int,
{
    let q = p + write_expr(e, 8).len();
    unfold_primary(s, p);
    lemma_follows_stops(s, q, 7);
    lemma_at_start(s, p, e, 8);
    unfold_is_plain(e);
    if rank(e) < 8 {
        assert(write_expr(e, 8) == seq!['('] + write_bare(e) + seq![')']) by {
            unfold_write_expr(e, 8);
        }
        read_parens(s, p, e);
        lemma_no_rest(s, p, e, q);
    } else {
        assert(write_expr(e, 8) == write_bare(e)) by {
            unfold_write_expr(e, 8);
        }
        match e {
            ExprV::Path(absolute, steps) => {
                read_path(s, p, e);
            },
            ExprV::Str(t) => {
                assert(write_bare(e) == write_text(t)) by {
                    unfold_write_bare(e);
                }
                unfold_function_call(s, p);
                reveal(function_head);
                assert(!char_is_alphabetic('"') && !char_is_alphabetic('\''));
                unfold_parenthesized(s, p);
                lemma_text_read_back(s, p, t);
            },
            ExprV::Num(t) => {
                read_number(s, p, t);
            },
            ExprV::Call(name, args) => {
                read_call(s, p, name, args);
                lemma_no_rest(s, p, e, q);
            },
            ExprV::FilterPath(inner, steps) => {
                read_filter_path(s, p, e);
            },
            ExprV::GlobalFilter(inner, preds) => {
                read_filter(s, p, e);
            },
            _ => {},
        }
    }
}

/// Reading a number.
proof fn read_number(s: Seq<char>, p: int, t: Seq<char>)
    requires
        usual_letters(),
        is_plain(ExprV::Num(t)),
        word_at(s, p, write_bare(ExprV::Num(t))),
        stops(s, p + write_bare(ExprV::Num(t)).len()),
    ensures
        function_call(s, p) is None,
        parenthesized(s, p) is None,
        quoted(s, p) is None,
        number_literal(s, p) == Some((ExprV::Num(t), p + write_bare(ExprV::Num(t)).len())),
{
    unfold_write_bare(ExprV::Num(t));
    unfold_is_plain(ExprV::Num(t));
    reveal(number_literal);
    reveal(function_head);
    unfold_function_call(s, p);
    unfold_parenthesized(s, p);
    let q = p + t.len();
    lemma_word_chars(s, p, t);
    assert(s[p] == t[0]);
    assert(in_class(t[0], CharClass::Number));
    assert(!char_is_alphabetic('.'));
    assert(!char_is_alphabetic(s[p]));
    assert forall|i: int| p <= i < q implies in_class(#[trigger] s[i], CharClass::Number) by {
        assert(s[i] == t[i - p]);
    }
    lemma_run_ends(s, p, q, CharClass::Number);
    let i = choose|i: int| 0 <= i < t.len() && '0' <= #[trigger] t[i] <= '9';
    assert(t[i] == s[p + i]);
    assert('0' <= s[p + i] <= '9');
    assert(s.subrange(p, q) =~= t);
}

/// Reading a function call.
proof fn read_call(s: Seq<char>, p: int, name: Seq<char>, args: Seq<ExprV>)
    requires
        usual_letters(),
        is_plain(ExprV::Call(name, args)),
        word_at(s, p, write_bare(ExprV::Call(name, args))),
    ensures
        function_call(s, p) == Some(
            (ExprV::Call(name, args), p + write_bare(ExprV::Call(name, args)).len()),
        ),
        write_bare(ExprV::Call(name, args)).len() > 0,
    decreases args, 9int, 0int,
{
    unfold_is_plain(ExprV::Call(name, args));
    let list = write_list(args, 0, ',', 0);
    assert(write_bare(ExprV::Call(name, args)) == name + seq!['('] + list + seq![')']) by {
        unfold_write_bare(ExprV::Call(name, args));
    }
    let w = p + name.len();
    let i = w + 1;
    let c = i + list.len();
    lemma_word_split(s, p, name + seq!['('] + list, seq![')']);
    lemma_word_split(s, p, name + seq!['('], list);
    lemma_word_split(s, p, name, seq!['(']);
    lemma_word_chars(s, p, name);
    lemma_word_chars(s, w, seq!['(']);
    lemma_word_chars(s, c, seq![')']);
    assert(s[w] == seq!['('][0]);
    assert(s[c] == seq![')'][0]);
    assert(!char_is_alphanumeric('('));
    lemma_word_run_of(s, p, name);
    assert(s[p] == name[0]);
    lemma_no_blank(s, w);
    unfold_function_call(s, p);
    reveal(function_head);
    if args.len() == 0 {
        assert(list.len() == 0) by {
            unfold_write_list(args, 0, ',', 0);
        }
        lemma_no_blank(s, i);
        assert(args =~= Seq::empty());
    } else {
        lemma_list_start(args, 0, ',', 0);
        lemma_word_chars(s, i, list);
        assert(s[i] == list[0]);
        lemma_no_blank(s, i);
        let first = args[0];
        assert(is_plain(first) && plain_list(args, 1)) by {
            unfold_plain_list(args, 0);
        }
        let wf = write_expr(first, 0);
        let k = i + wf.len();
        if args.len() > 1 {
            let more = write_list(args, 1, ',', 0);
            assert(list == wf + seq![','] + more) by {
                unfold_write_list(args, 0, ',', 0);
            }
            assert(list =~= wf + (seq![','] + more));
            lemma_word_split(s, i, wf, seq![','] + more);
            lemma_word_split(s, k, seq![','], more);
            lemma_word_chars(s, k, seq![',']);
            assert(s[k] == seq![','][0]);
        } else {
            assert(list == wf) by {
                unfold_write_list(args, 0, ',', 0);
            }
        }
        read_or(s, i, first);
        read_rest(s, k, args, 1, ',');
        lemma_no_blank(s, c);
        assert(seq![first] + args.skip(1) =~= args);
    }
}

/// Reading a location path.
proof fn read_path(s: Seq<char>, p: int, e: ExprV)
    requires
        usual_letters(),
        e is Path,
        is_plain(e),
        word_at(s, p, write_bare(e)),
        ends_path(s, p + write_bare(e).len()),
    ensures
        location_path(s, p) == Some((e, p + write_bare(e).len())),
        function_call(s, p) is None,
        parenthesized(s, p) is None,
        quoted(s, p) is None,
        number_literal(s, p) is None,
    decreases e, 0int, 5int,
{
    unfold_is_plain(e);
    let absolute = e->Path_0;
    let steps = e->Path_1;
    let w = write_steps(steps, 0);
    unfold_location_path(s, p);
    unfold_function_call(s, p);
    unfold_parenthesized(s, p);
    reveal(number_literal);
    lemma_steps_start(steps, 0);
    if absolute {
        assert(write_bare(e) == seq!['/'] + w) by {
            unfold_write_bare(e);
        }
        lemma_word_split(s, p, seq!['/'], w);
        lemma_word_chars(s, p, seq!['/']);
        lemma_word_chars(s, p + 1, w);
        assert(s[p] == seq!['/'][0]);
        assert(s[p + 1] == w[0]);
        reveal(function_head);
        assert(!char_is_alphabetic('/'));
        assert(run(s, p, CharClass::Number) == p);
        read_steps(s, p + 1, steps, 0);
    } else {
        assert(write_bare(e) == w) by {
            unfold_write_bare(e);
        }
        lemma_word_chars(s, p, w);
        assert(s[p] == w[0]);
        assert(run(s, p, CharClass::Number) == p);
        unfold_write_steps(steps, 0);
        if steps.len() > 1 {
            let more = seq!['/'] + write_steps(steps, 1);
            assert(w =~= write_step(steps[0]) + more);
            lemma_word_split(s, p, write_step(steps[0]), more);
        }
        lemma_no_call(s, p, steps[0]);
        read_steps(s, p, steps, 0);
    }
    assert(steps.skip(0) =~= steps);
}

/// The name of an axis is no function: two colons stand behind it.
proof fn lemma_no_call(s: Seq<char>, p: int, st: StepV)
    requires
        usual_letters(),
        word_at(s, p, write_step(st)),
    ensures
        function_head(s, p) is None,
{
    reveal(function_head);
    unfold_write_step(st);
    let name = axis_name(st.axis);
    let colons = seq![':', ':'];
    lemma_word_split(s, p, name + colons + write_test(st.test), write_preds(st.preds, 0));
    lemma_word_split(s, p, name + colons, write_test(st.test));
    lemma_word_split(s, p, name, colons);
    lemma_axis_is_word(st.axis);
    let w = p + name.len();
    lemma_word_chars(s, w, colons);
    assert(s[w] == colons[0]);
    assert(!char_is_alphanumeric(':'));
    lemma_word_run(s, p, name);
    lemma_no_blank(s, w);
}

/// Reading steps.
proof fn read_steps(s: Seq<char>, p: int, steps: Seq<StepV>, i: int)
    requires
        usual_letters(),
        0 <= i < steps.len(),
        plain_steps(steps, i),
        word_at(s, p, write_steps(steps, i)),
        ends_path(s, p + write_steps(steps, i).len()),
    ensures
        path_steps(s, p) == Some((steps.skip(i), p + write_steps(steps, i).len())),
    decreases steps, 4int, steps.len() - i,
{
    let st = steps[i];
    let w = write_step(st);
    let q1 = p + w.len();
    assert(is_plain_test(st.test) && plain_list(st.preds, 0) && plain_steps(steps, i + 1)) by {
        unfold_plain_steps(steps, i);
    }
    unfold_path_steps(s, p);
    unfold_continuation(s, q1);
    reveal(joint);
    if i + 1 == steps.len() {
        assert(write_steps(steps, i) == w) by {
            unfold_write_steps(steps, i);
        }
        read_step(s, p, st);
        assert(seq![st] + Seq::<StepV>::empty() =~= steps.skip(i));
    } else {
        let more = write_steps(steps, i + 1);
        assert(write_steps(steps, i) == w + seq!['/'] + more) by {
            unfold_write_steps(steps, i);
        }
        lemma_word_split(s, p, w + seq!['/'], more);
        lemma_word_split(s, p, w, seq!['/']);
        lemma_word_chars(s, q1, seq!['/']);
        assert(s[q1] == seq!['/'][0]);
        lemma_no_blank(s, q1);
        lemma_steps_start(steps, i + 1);
        lemma_word_chars(s, q1 + 1, more);
        assert(s[q1 + 1] == more[0]);
        read_step(s, p, st);
        read_steps(s, q1 + 1, steps, i + 1);
        assert(seq![st] + steps.skip(i + 1) =~= steps.skip(i));
    }
}

/// Reading a step.
proof fn read_step(s: Seq<char>, p: int, st: StepV)
    requires
        usual_letters(),
        is_plain_test(st.test),
        plain_list(st.preds, 0),
        word_at(s, p, write_step(st)),
        stops(s, p + write_step(st).len()),
        !at(s, skip(s, p + write_step(st).len()), '['),
    ensures
        step(s, p) == Some((st, p + write_step(st).len())),
    decreases st, 3int, 0int,
{
    let head = axis_name(st.axis) + seq![':', ':'] + write_test(st.test);
    let preds = write_preds(st.preds, 0);
    assert(write_step(st) == head + preds) by {
        unfold_write_step(st);
    }
    let t = p + head.len();
    lemma_word_split(s, p, head, preds);
    if st.preds.len() > 0 {
        assert(preds[0] == '[' && preds.len() > 0) by {
            unfold_write_preds(st.preds, 0);
        }
        lemma_word_chars(s, t, preds);
        assert(s[t] == preds[0]);
        lemma_no_blank(s, t);
    } else {
        assert(preds.len() == 0) by {
            unfold_write_preds(st.preds, 0);
        }
    }
    lemma_head_read_back(s, p, st.axis, st.test);
    read_preds(s, t, st.preds, 0);
    unfold_step(s, p);
    assert(st.preds.skip(0) =~= st.preds);
}

/// Reading predicates.
proof fn read_preds(s: Seq<char>, p: int, preds: Seq<ExprV>, i: int)
    requires
        usual_letters(),
        0 <= i <= preds.len(),
        0 <= p <= s.len(),
        plain_list(preds, i),
        word_at(s, p, write_preds(preds, i)),
        !at(s, skip(s, p + write_preds(preds, i).len()), '['),
    ensures
        predicates(s, p) == (preds.skip(i), p + write_preds(preds, i).len()),
    decreases preds, 2int, preds.len() - i,
{
    if i == preds.len() {
        assert(write_preds(preds, i).len() == 0) by {
            unfold_write_preds(preds, i);
        }
        lemma_no_predicates(s, p);
        assert(preds.skip(i) =~= Seq::empty());
    } else {
        let e = preds[i];
        let w = write_expr(e, 0);
        let more = write_preds(preds, i + 1);
        assert(write_preds(preds, i) == seq!['['] + w + seq![']'] + more) by {
            unfold_write_preds(preds, i);
        }
        assert(is_plain(e) && plain_list(preds, i + 1)) by {
            unfold_plain_list(preds, i);
        }
        let c = p + 1 + w.len();
        lemma_word_split(s, p, seq!['['] + w + seq![']'], more);
        lemma_word_split(s, p, seq!['['] + w, seq![']']);
        lemma_word_split(s, p, seq!['['], w);
        lemma_word_chars(s, p, seq!['[']);
        lemma_word_chars(s, c, seq![']']);
        assert(s[p] == seq!['['][0]);
        assert(s[c] == seq![']'][0]);
        lemma_no_blank(s, p);
        lemma_no_blank(s, c);
        lemma_at_start(s, p + 1, e, 0);
        read_or(s, p + 1, e);
        unfold_predicates(s, p);
        unfold_predicate(s, p);
        lemma_word_chars(s, c + 1, more);
        read_preds(s, c + 1, preds, i + 1);
        assert(seq![e] + preds.skip(i + 1) =~= preds.skip(i));
    }
}

/// Reading an expression in parentheses with steps behind it.
proof fn read_filter_path(s: Seq<char>, p: int, e: ExprV)
    requires
        usual_letters(),
        e is FilterPath,
        is_plain(e),
        word_at(s, p, write_bare(e)),
        ends_path(s, p + write_bare(e).len()),
    ensures
        primary(s, p) == Some(
            (
                e,
                p + write_bare(e).len(),
            ),
        ),
    decreases e, 0int, 6int,
{
    let inner = *e->FilterPath_0;
    let steps = e->FilterPath_1;
    unfold_is_plain(e);
    let w = seq!['('] + write_bare(inner) + seq![')'];
    let more = write_steps(steps, 0);
    assert(write_bare(e) =~= w + (seq!['/'] + more)) by {
        unfold_write_bare(e);
    }
    let k = p + w.len();
    let q = k + 1 + more.len();
    lemma_word_split(s, p, w, seq!['/'] + more);
    lemma_word_split(s, k, seq!['/'], more);
    lemma_word_chars(s, k, seq!['/']);
    assert(s[k] == seq!['/'][0]);
    lemma_steps_start(steps, 0);
    lemma_word_chars(s, k + 1, more);
    assert(s[k + 1] == more[0]);
    assert(decreases_to!(e => inner));
    assert(decreases_to!(e => steps));
    read_parens(s, p, inner);
    read_steps(s, k + 1, steps, 0);
    assert(steps.skip(0) =~= steps);
    unfold_primary(s, p);
    unfold_with_rest(s, p, inner, k);
    unfold_filter_rest(s, k, inner);
    unfold_continuation(s, k);
    reveal(joint);
    lemma_no_predicates(s, q);
}

/// Reading an expression in parentheses with predicates behind it.
proof fn read_filter(s: Seq<char>, p: int, e: ExprV)
    requires
        usual_letters(),
        e is GlobalFilter,
        is_plain(e),
        word_at(s, p, write_bare(e)),
        ends_path(s, p + write_bare(e).len()),
    ensures
        primary(s, p) == Some(
            (
                e,
                p + write_bare(e).len(),
            ),
        ),
    decreases e, 0int, 6int,
{
    let inner = *e->GlobalFilter_0;
    let preds = e->GlobalFilter_1;
    unfold_is_plain(e);
    let w = seq!['('] + write_bare(inner) + seq![')'];
    let more = write_preds(preds, 0);
    assert(write_bare(e) =~= w + more) by {
        unfold_write_bare(e);
    }
    let k = p + w.len();
    lemma_word_split(s, p, w, more);
    lemma_word_chars(s, k, more);
    assert(more.len() > 0 && more[0] == '[') by {
        unfold_write_preds(preds, 0);
    }
    assert(s[k] == more[0]);
    assert(decreases_to!(e => inner));
    assert(decreases_to!(e => preds));
    read_parens(s, p, inner);
    read_preds(s, k, preds, 0);
    assert(preds.skip(0) =~= preds);
    unfold_primary(s, p);
    unfold_with_rest(s, p, inner, k);
    unfold_filter_rest(s, k, inner);
}

/// Nothing is trimmed off a text that starts and ends with something else than white
/// space.
proof fn lemma_nothing_trimmed(s: Seq<char>)
    requires
        s.len() > 0,
        !is_white(s[0]),
        !is_white(s.last()),
    ensures
        trimmed(s) == s,
{
}

/// How a written expression ends.
proof fn lemma_ends(e: ExprV, n: int)
    requires
        usual_letters(),
        is_plain(e),
    ensures
        write_expr(e, n).len() > 0,
        !is_white(write_expr(e, n).last()),
    decreases e, 0int, 0int,
{
    unfold_write_expr(e, n);
    unfold_write_bare(e);
    unfold_is_plain(e);
    if rank(e) >= n {
        match e {
            ExprV::Path(absolute, steps) => {
                lemma_steps_end(steps, 0);
            },
            ExprV::Num(t) => {
                assert(in_class(t[t.len() - 1], CharClass::Number));
            },
            ExprV::Binary(l, op, r) => {
                lemma_ends(*r, right_rank(op));
            },
            ExprV::Minus(x) => {
                lemma_ends(*x, 6);
            },
            ExprV::Union(parts) => {
                lemma_list_end(parts, 0, '|', 8);
            },
            ExprV::FilterPath(inner, steps) => {
                lemma_steps_end(steps, 0);
            },
            ExprV::GlobalFilter(inner, preds) => {
                lemma_preds_end(preds, 0);
            },
            _ => {},
        }
    }
}

proof fn lemma_list_end(es: Seq<ExprV>, i: int, separator: char, n: int)
    requires
        usual_letters(),
        plain_list(es, i),
        0 <= i < es.len(),
    ensures
        write_list(es, i, separator, n).len() > 0,
        !is_white(write_list(es, i, separator, n).last()),
    decreases es, 2int, es.len() - i,
{
    unfold_write_list(es, i, separator, n);
    unfold_plain_list(es, i);
    lemma_ends(es[i], n);
    if i + 1 < es.len() {
        lemma_list_end(es, i + 1, separator, n);
    }
}

proof fn lemma_preds_end(preds: Seq<ExprV>, i: int)
    requires
        0 <= i < preds.len(),
    ensures
        write_preds(preds, i).len() > 0,
        write_preds(preds, i).last() == ']',
    decreases preds.len() - i,
{
    unfold_write_preds(preds, i);
    unfold_write_preds(preds, i + 1);
    if i + 1 < preds.len() {
        lemma_preds_end(preds, i + 1);
    }
}

proof fn lemma_steps_end(steps: Seq<StepV>, i: int)
    requires
        plain_steps(steps, i),
        0 <= i < steps.len(),
    ensures
        write_steps(steps, i).len() > 0,
        !is_white(write_steps(steps, i).last()),
    decreases steps.len() - i,
{
    unfold_write_steps(steps, i);
    unfold_plain_steps(steps, i);
    let st = steps[i];
    unfold_write_step(st);
    unfold_write_preds(st.preds, 0);
    if st.preds.len() > 0 {
        lemma_preds_end(st.preds, 0);
    }
    let w = write_test(st.test);
    match st.test {
        TestV::Name(name) => {
            assert(!is_white(name[name.len() - 1]));
        },
        TestV::NamespacedName(prefix, local) => {
            assert(w.last() == local[local.len() - 1]);
        },
        _ => {},
    }
    assert(w.len() > 0 && !is_white(w.last()));
    if st.preds.len() == 0 {
        assert(write_step(st) =~= axis_name(st.axis) + seq![':', ':'] + w);
        assert(write_step(st).last() == w.last());
    }
    if i + 1 < steps.len() {
        lemma_steps_end(steps, i + 1);
    }
}

/// Reading an expression that has been written out gives back the expression: every
/// operator, function, axis and node test is read as what it is written for, and the
/// operators group as they bind.
pub proof fn lemma_expression_read_back(e: ExprV)
    requires
        usual_letters(),
        is_plain(e),
    ensures
        parsed_predicate(write_expr(e, 0)) == Ok::<ExprV, Seq<char>>(e),
{
    let s = write_expr(e, 0);
    lemma_starts(e, 0);
    lemma_ends(e, 0);
    lemma_nothing_trimmed(s);
    assert(s.subrange(0, s.len() as int) =~= s);
    read_or(s, 0, e);
}

/// Reading a location path that has been written out as a query gives back the path.
pub proof fn lemma_path_read_back(e: ExprV)
    requires
        usual_letters(),
        e is Path,
        is_plain(e),
    ensures
        parsed_xpath(write_expr(e, 0)) == Ok::<ExprV, Seq<char>>(e),
{
    let s = write_expr(e, 0);
    let n = s.len() as int;
    lemma_starts(e, 0);
    lemma_ends(e, 0);
    lemma_nothing_trimmed(s);
    unfold_write_expr(e, 0);
    assert(s.subrange(0, n) =~= s);
    assert(closes(s, n));
    lemma_closes(s, n, 6);
    lemma_follows_stops(s, n, 6);
    read_path(s, 0, e);
    unfold_write_bare(e);
    unfold_is_plain(e);
    lemma_steps_start(e->Path_1, 0);
    lemma_query_reads(s, e);
}

/// A location path on its own is a query.
proof fn lemma_query_reads(s: Seq<char>, e: ExprV)
    requires
        s.len() > 0,
        s[0] != '(',
        location_path(s, 0) == Some((e, s.len() as int)),
        function_call(s, 0) is None,
    ensures
        xpath_expr(s, 0) == Some((e, s.len() as int)),
{
    let n = s.len() as int;
    unfold_xpath_expr(s, 0);
    unfold_parenthesized_filter(s, 0);
    unfold_function_path(s, 0);
    lemma_no_blank(s, n);
    unfold_list_rest(s, n, '|', Element::Path);
    assert(list_rest(s, n, '|', Element::Path).0.len() == 0);
}

/// Reading the rest of a union of paths from the bar before part `i` on.
proof fn read_paths(s: Seq<char>, p: int, es: Seq<ExprV>, i: int)
    requires
        usual_letters(),
        0 <= i <= es.len(),
        plain_list(es, i),
        forall|k: int| 0 <= k < es.len() ==> #[trigger] es[k] is Path,
        i < es.len() ==> word_at(s, p, seq!['|'] + write_list(es, i, '|', 8)),
        i == es.len() ==> p == s.len(),
        i < es.len() ==> s.len() == p + 1 + write_list(es, i, '|', 8).len(),
    ensures
        list_rest(s, p, '|', Element::Path) == (es.skip(i), s.len() as int),
    decreases es.len() - i,
{
    unfold_list_rest(s, p, '|', Element::Path);
    if i == es.len() {
        assert(es.skip(i) =~= Seq::empty());
        lemma_no_blank(s, p);
    } else {
        let e = es[i];
        let w = write_expr(e, 8);
        let rest = write_list(es, i, '|', 8);
        unfold_plain_list(es, i);
        unfold_write_list(es, i, '|', 8);
        unfold_write_expr(e, 8);
        lemma_word_split(s, p, seq!['|'], rest);
        lemma_word_chars(s, p, seq!['|']);
        assert(s[p] == seq!['|'][0]);
        lemma_no_blank(s, p);
        let q1 = p + 1 + w.len();
        if i + 1 < es.len() {
            let more = write_list(es, i + 1, '|', 8);
            assert(rest =~= w + (seq!['|'] + more));
            lemma_word_split(s, p + 1, w, seq!['|'] + more);
            lemma_word_split(s, q1, seq!['|'], more);
            lemma_word_chars(s, q1, seq!['|']);
            assert(s[q1] == seq!['|'][0]);
        } else {
            lemma_closes(s, q1, 7);
        }
        assert(follows(s, q1, 7));
        lemma_follows_stops(s, q1, 7);
        lemma_at_start(s, p + 1, e, 8);
        unfold_element(s, p + 1, Element::Path);
        read_path(s, p + 1, e);
        read_paths(s, q1, es, i + 1);
        assert(seq![e] + es.skip(i + 1) =~= es.skip(i));
    }
}

/// Reading a union of location paths that has been written out as a query gives back the
/// union.
pub proof fn lemma_union_read_back(parts: Seq<ExprV>)
    requires
        usual_letters(),
        is_plain(ExprV::Union(parts)),
        forall|k: int| 0 <= k < parts.len() ==> #[trigger] parts[k] is Path,
    ensures
        parsed_xpath(write_expr(ExprV::Union(parts), 0)) == Ok::<ExprV, Seq<char>>(
            ExprV::Union(parts),
        ),
{
    let e = ExprV::Union(parts);
    let s = write_expr(e, 0);
    let n = s.len() as int;
    lemma_starts(e, 0);
    lemma_ends(e, 0);
    lemma_nothing_trimmed(s);
    unfold_write_expr(e, 0);
    unfold_write_bare(e);
    unfold_is_plain(e);
    unfold_plain_list(parts, 0);
    unfold_write_list(parts, 0, '|', 8);
    let first = parts[0];
    unfold_write_expr(first, 8);
    unfold_write_bare(first);
    unfold_is_plain(first);
    lemma_steps_start(first->Path_1, 0);
    let w = write_expr(first, 8);
    let more = write_list(parts, 1, '|', 8);
    let k = w.len() as int;
    assert(s.subrange(0, n) =~= s);
    assert(s =~= w + (seq!['|'] + more));
    lemma_word_split(s, 0, w, seq!['|'] + more);
    lemma_word_split(s, k, seq!['|'], more);
    lemma_word_chars(s, k, seq!['|']);
    assert(s[k] == seq!['|'][0]);
    assert(follows(s, k, 7));
    lemma_follows_stops(s, k, 7);
    lemma_word_chars(s, 0, w);
    assert(s[0] == w[0]);
    read_path(s, 0, first);
    read_paths(s, k, parts, 1);
    assert(seq![first] + parts.skip(1) =~= parts);
    unfold_xpath_expr(s, 0);
    unfold_parenthesized_filter(s, 0);
    unfold_function_path(s, 0);
}

/// Reading a function call that has been written out as a query gives back the call.
pub proof fn lemma_call_read_back(name: Seq<char>, args: Seq<ExprV>)
    requires
        usual_letters(),
        is_plain(ExprV::Call(name, args)),
    ensures
        parsed_xpath(write_expr(ExprV::Call(name, args), 0)) == Ok::<ExprV, Seq<char>>(
            ExprV::Call(name, args),
        ),
{
    let e = ExprV::Call(name, args);
    let s = write_expr(e, 0);
    let n = s.len() as int;
    lemma_starts(e, 0);
    lemma_ends(e, 0);
    lemma_nothing_trimmed(s);
    unfold_write_expr(e, 0);
    unfold_write_bare(e);
    unfold_is_plain(e);
    assert(s.subrange(0, n) =~= s);
    assert(s[0] == name[0]);
    assert(!char_is_alphabetic('('));
    read_call(s, 0, name, args);
    lemma_no_blank(s, n);
    lemma_no_predicates(s, n);
    unfold_xpath_expr(s, 0);
    unfold_parenthesized_filter(s, 0);
    unfold_function_path(s, 0);
}

// Abbreviations.

/// A step to all nodes on an axis.
pub open spec fn all_nodes(axis: Axis) -> StepV {
    StepV { axis, test: TestV::Node, preds: Seq::empty() }
}

/// Two points read as a step to the parent, and one point as a step to the node itself.
pub proof fn lemma_points_read(s: Seq<char>, p: int)
    requires
        at(s, p, '.'),
    ensures
        at(s, p + 1, '.') ==> step(s, p) == Some((all_nodes(Axis::Parent), p + 2)),
        !at(s, p + 1, '.') ==> step(s, p) == Some((all_nodes(Axis::SelfAxis), p + 1)),
{
    lemma_no_blank(s, p);
    unfold_step(s, p);
    reveal(step_head);
}

/// A node test on its own reads as a step to the children, and one after `@` as a step
/// to the attributes.
pub proof fn lemma_tests_read(s: Seq<char>, p: int, t: TestV)
    requires
        usual_letters(),
        is_plain_test(t),
        t is Name ==> t->Name_0[0] != '.',
        t is NamespacedName ==> t->NamespacedName_0[0] != '.',
    ensures
        word_at(s, p, write_test(t)) && stops(s, p + write_test(t).len()) && !at(
            s,
            skip(s, p + write_test(t).len()),
            '[',
        ) ==> step(s, p) == Some(
            (StepV { axis: Axis::Child, test: t, preds: Seq::empty() }, p + write_test(t).len()),
        ),
        word_at(s, p, seq!['@'] + write_test(t)) && stops(s, p + 1 + write_test(t).len()) && !at(
            s,
            skip(s, p + 1 + write_test(t).len()),
            '[',
        ) ==> step(s, p) == Some(
            (
                StepV { axis: Axis::Attribute, test: t, preds: Seq::empty() },
                p + 1 + write_test(t).len(),
            ),
        ),
{
    let w = write_test(t);
    reveal(step_head);
    reveal(axis_spec);
    unfold_step(s, p);
    if word_at(s, p, w) && stops(s, p + w.len()) && !at(s, skip(s, p + w.len()), '[') {
        lemma_test_read_back(s, p, t);
        lemma_no_axis(s, p, t);
        lemma_no_blank(s, p);
        lemma_no_predicates(s, p + w.len());
    }
    if word_at(s, p, seq!['@'] + w) && stops(s, p + 1 + w.len()) && !at(
        s,
        skip(s, p + 1 + w.len()),
        '[',
    ) {
        lemma_word_split(s, p, seq!['@'], w);
        lemma_word_chars(s, p, seq!['@']);
        assert(s[p] == seq!['@'][0]);
        lemma_no_blank(s, p);
        lemma_test_read_back(s, p + 1, t);
        lemma_no_predicates(s, p + 1 + w.len());
    }
}

/// A node test does not start with an axis.
proof fn lemma_no_axis(s: Seq<char>, p: int, t: TestV)
    requires
        usual_letters(),
        is_plain_test(t),
        word_at(s, p, write_test(t)),
        stops(s, p + write_test(t).len()),
        t is Name ==> t->Name_0[0] != '.',
        t is NamespacedName ==> t->NamespacedName_0[0] != '.',
    ensures
        ({
            let w = run(s, p, CharClass::Word);
            !(at(s, w, ':') && at(s, w + 1, ':'))
        }),
        s[p] != '@',
        s[p] != '.',
        !in_class(s[p], CharClass::Blank),
{
    let text = write_test(t);
    let q = p + text.len();
    lemma_word_chars(s, p, text);
    lemma_test_read_back(s, p, t);
    assert(s[p] == text[0]);
    assert(!char_is_alphanumeric('@'));
    assert(!char_is_alphanumeric(':'));
    assert(!char_is_alphanumeric('('));
    let w = run(s, p, CharClass::Word);
    match t {
        TestV::Name(name) => {
            lemma_run_bounded(s, p, q, CharClass::Word);
            if w < q {
                assert(s[w] == name[w - p]);
            }
            assert(in_class(name[0], CharClass::QName));
        },
        TestV::NamespacedName(prefix, local) => {
            let c = p + prefix.len();
            lemma_word_split(s, p, prefix + seq![':'], local);
            lemma_word_split(s, p, prefix, seq![':']);
            lemma_word_chars(s, p, prefix);
            lemma_word_chars(s, c, seq![':']);
            lemma_word_chars(s, c + 1, local);
            assert(s[c] == seq![':'][0]);
            lemma_run_bounded(s, p, c, CharClass::Word);
            if w < c {
                assert(s[w] == prefix[w - p]);
            } else {
                assert(s[c + 1] == local[0]);
            }
            assert(s[p] == prefix[0]);
            assert(in_class(prefix[0], CharClass::QName));
        },
        TestV::Wildcard => {
            assert(!char_is_alphanumeric('*'));
        },
        _ => {
            let word = match t {
                TestV::Text => "text"@,
                TestV::Node => "node"@,
                TestV::Comment => "comment"@,
                _ => "processing-instruction"@,
            };
            lemma_types_are_words();
            let tail = text.skip(word.len() as int);
            assert(text =~= word + tail);
            lemma_word_split(s, p, word, tail);
            lemma_word_chars(s, p + word.len(), tail);
            assert(s[p + word.len()] == tail[0]);
            lemma_word_run(s, p, word);
            lemma_word_chars(s, p, word);
            assert(s[p] == word[0]);
        },
    }
}

/// Two slashes before a path read as a step to the descendants and the node itself, from
/// the document root.
pub proof fn lemma_leading_slashes_read(steps: Seq<StepV>)
    requires
        usual_letters(),
        steps.len() > 0,
        plain_steps(steps, 0),
    ensures
        parsed_xpath(seq!['/', '/'] + write_steps(steps, 0)) == Ok::<ExprV, Seq<char>>(
            ExprV::Path(true, seq![all_nodes(Axis::DescendantOrSelf)] + steps),
        ),
{
    let w = write_steps(steps, 0);
    let s = seq!['/', '/'] + w;
    let n = s.len() as int;
    lemma_steps_end(steps, 0);
    lemma_nothing_trimmed(s);
    assert(s.subrange(0, n) =~= s);
    lemma_word_split(s, 0, seq!['/', '/'], w);
    lemma_no_blank(s, n);
    read_steps(s, 2, steps, 0);
    assert(steps.skip(0) =~= steps);
    unfold_location_path(s, 0);
    unfold_function_call(s, 0);
    reveal(function_head);
    assert(!char_is_alphabetic('/'));
    lemma_query_reads(
        s,
        ExprV::Path(true, seq![all_nodes(Axis::DescendantOrSelf)] + steps),
    );
}

/// Two slashes between steps read as a step to the descendants and the node itself
/// between them.
pub proof fn lemma_slashes_between_read(st: StepV, steps: Seq<StepV>)
    requires
        usual_letters(),
        steps.len() > 0,
        plain_steps(seq![st], 0),
        plain_steps(steps, 0),
    ensures
        parsed_xpath(seq!['/'] + write_step(st) + seq!['/', '/'] + write_steps(steps, 0)) == Ok::<
            ExprV,
            Seq<char>,
        >(ExprV::Path(true, seq![st, all_nodes(Axis::DescendantOrSelf)] + steps)),
{
    let w = write_steps(steps, 0);
    let a = write_step(st);
    let s = seq!['/'] + a + seq!['/', '/'] + w;
    let n = s.len() as int;
    let q = 1 + a.len() as int;
    lemma_steps_end(steps, 0);
    lemma_steps_start(seq![st], 0);
    unfold_write_steps(seq![st], 0);
    assert(write_steps(seq![st], 0) == a);
    lemma_nothing_trimmed(s);
    assert(s.subrange(0, n) =~= s);
    lemma_word_split(s, 0, seq!['/'] + a + seq!['/', '/'], w);
    lemma_word_split(s, 0, seq!['/'] + a, seq!['/', '/']);
    lemma_word_split(s, 0, seq!['/'], a);
    assert(s[0] == '/' && s[1] == a[0] && s[q] == '/' && s[q + 1] == '/');
    lemma_no_blank(s, n);
    lemma_no_blank(s, q);
    unfold_plain_steps(seq![st], 0);
    read_step(s, 1, st);
    read_steps(s, q + 2, steps, 0);
    assert(steps.skip(0) =~= steps);
    unfold_location_path(s, 0);
    unfold_path_steps(s, 1);
    unfold_continuation(s, q);
    reveal(joint);
    assert(seq![st] + (seq![all_nodes(Axis::DescendantOrSelf)] + steps) =~= seq![
        st,
        all_nodes(Axis::DescendantOrSelf),
    ] + steps);
    unfold_function_call(s, 0);
    reveal(function_head);
    assert(!char_is_alphabetic('/'));
    lemma_query_reads(s, ExprV::Path(true, seq![st, all_nodes(Axis::DescendantOrSelf)] + steps));
}

/// A location path in parentheses, with steps or predicates behind them, as a query.
proof fn lemma_inner_reads(s: Seq<char>, p: int, e: ExprV, q: int)
    requires
        0 <= p < q < s.len(),
        s[p] != '(',
        s[q] == ')',
        location_path(s, p) == Some((e, q)),
        function_call(s, p) is None,
    ensures
        xpath_expr(s, p) == Some((e, q)),
{
    unfold_xpath_expr(s, p);
    unfold_parenthesized_filter(s, p);
    unfold_function_path(s, p);
    lemma_no_blank(s, q);
    unfold_list_rest(s, q, '|', Element::Path);
    assert(list_rest(s, q, '|', Element::Path).0.len() == 0);
}

/// Reading a filter on a location path that has been written out as a query gives back
/// the filter: predicates behind parentheses filter all that the path selects, and steps
/// behind them go on from there.
pub proof fn lemma_filter_read_back(e: ExprV)
    requires
        usual_letters(),
        is_plain(e),
        e matches ExprV::GlobalFilter(inner, _) ==> *inner is Path,
        e matches ExprV::FilterPath(inner, _) ==> *inner is Path,
        e is GlobalFilter || e is FilterPath,
    ensures
        parsed_xpath(write_expr(e, 0)) == Ok::<ExprV, Seq<char>>(e),
{
    let s = write_expr(e, 0);
    let n = s.len() as int;
    let inner = if e is GlobalFilter {
        *e->GlobalFilter_0
    } else {
        *e->FilterPath_0
    };
    lemma_starts(e, 0);
    lemma_ends(e, 0);
    lemma_nothing_trimmed(s);
    unfold_write_expr(e, 0);
    unfold_write_bare(e);
    unfold_is_plain(e);
    unfold_is_plain(inner);
    unfold_write_bare(inner);
    lemma_steps_start(inner->Path_1, 0);
    let w = write_bare(inner);
    let q = 1 + w.len() as int;
    let tail = if e is GlobalFilter {
        write_preds(e->GlobalFilter_1, 0)
    } else {
        seq!['/'] + write_steps(e->FilterPath_1, 0)
    };
    assert(s =~= seq!['('] + w + seq![')'] + tail);
    assert(s.subrange(0, n) =~= s);
    lemma_word_split(s, 0, seq!['('] + w + seq![')'], tail);
    lemma_word_split(s, 0, seq!['('] + w, seq![')']);
    lemma_word_split(s, 0, seq!['('], w);
    assert(s[0] == '(' && s[q] == ')' && s[1] == w[0]);
    lemma_no_blank(s, 1);
    lemma_no_blank(s, q);
    read_path(s, 1, inner);
    lemma_inner_reads(s, 1, inner, q);
    unfold_xpath_expr(s, 0);
    unfold_parenthesized_filter(s, 0);
    let k = q + 1;
    unfold_filter_rest(s, k, inner);
    lemma_no_blank(s, n);
    match e {
        ExprV::GlobalFilter(_, preds) => {
            assert(tail.len() > 0 && tail[0] == '[') by {
                unfold_write_preds(preds, 0);
            }
            assert(s[k] == tail[0]);
            read_preds(s, k, preds, 0);
            assert(preds.skip(0) =~= preds);
        },
        ExprV::FilterPath(_, steps) => {
            let more = write_steps(steps, 0);
            lemma_word_split(s, k, seq!['/'], more);
            assert(s[k] == '/');
            lemma_steps_start(steps, 0);
            assert(s[k + 1] == more[0]);
            read_steps(s, k + 1, steps, 0);
            assert(steps.skip(0) =~= steps);
            unfold_continuation(s, k);
            reveal(joint);
            lemma_no_predicates(s, n);
        },
        _ => {},
    }
}

} // verus!
