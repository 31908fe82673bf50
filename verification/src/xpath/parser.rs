//! Parsing XPath 1.0 expressions by recursive descent.

use vstd::prelude::*;
use crate::error::SimdXmlError;
use crate::text::{chars_of, string_of};
use crate::xpath::ast::{
    expr_v, exprs_v, lemma_expr_v, lemma_exprs_push, lemma_exprs_v, lemma_step_v, lemma_steps_v,
    step_v, steps_v, Axis, BinaryOp, ExprV, LocationPath, NodeTest, Step, StepV, TestV, XPathExpr,
};
use crate::xpath::chars::{
    is_alphabetic, is_alphanumeric, is_at, is_white, is_white_space, is_word_at, run_end,
    skip_blanks, spelled, until, CharClass,
};
use crate::xpath::grammar;
use crate::xpath::grammar_unfold;
use crate::xpath::grammar::{rem, Element, Level};

verus! {

/// The outcome of parsing an expression at `p` is the given reading.
pub open spec fn reads_expr(
    r: Option<(XPathExpr, usize)>,
    reading: Option<(ExprV, int)>,
    s: Seq<char>,
    p: int,
) -> bool {
    match r {
        Some((e, q)) => reading == Some((expr_v(e), q as int)) && p <= q <= s.len(),
        None => reading is None,
    }
}

/// The outcome of parsing a node test at `p` is the given reading.
pub open spec fn reads_test(
    r: Option<(NodeTest, usize)>,
    reading: Option<(TestV, int)>,
    s: Seq<char>,
    p: int,
) -> bool {
    match r {
        Some((t, q)) => reading == Some((t@, q as int)) && p <= q <= s.len(),
        None => reading is None,
    }
}

/// The outcome of parsing steps at `p` is the given reading.
pub open spec fn reads_steps(
    r: Option<(Vec<Step>, usize)>,
    reading: Option<(Seq<StepV>, int)>,
    s: Seq<char>,
    p: int,
) -> bool {
    match r {
        Some((st, q)) => reading == Some((steps_v(st@), q as int)) && p <= q <= s.len(),
        None => reading is None,
    }
}

fn quoted(s: &[char], p: usize) -> (r: Option<(String, usize)>)
    requires
        p <= s@.len(),
    ensures
        match r {
            Some((t, q)) => grammar::quoted(s@, p as int) == Some((t@, q as int)) && p <= q
                <= s@.len(),
            None => grammar::quoted(s@, p as int) is None,
        },
{
    if is_at(s, p, '\'') || is_at(s, p, '"') {
        let e: usize = until(s, p + 1, s[p]);
        if e < s.len() {
            return Some((string_of(s, p + 1, e), e + 1));
        }
    }
    None
}

fn type_test(s: &[char], p: usize) -> (r: Option<(NodeTest, usize)>)
    requires
        p <= s@.len(),
    ensures
        reads_test(r, grammar::type_test(s@, p as int), s@, p as int),
{
    proof {
        reveal(grammar::type_test);
    }
    let w: usize = run_end(s, p, CharClass::Word);
    if w == p {
        return None;
    }
    let open: usize = skip_blanks(s, w);
    if !is_at(s, open, '(') {
        return None;
    }
    let q: usize = skip_blanks(s, open + 1);
    let test = if spelled(s, p, w, "text") {
        NodeTest::Text
    } else if spelled(s, p, w, "node") {
        NodeTest::Node
    } else if spelled(s, p, w, "comment") {
        NodeTest::Comment
    } else if spelled(s, p, w, "processing-instruction") {
        NodeTest::PI
    } else {
        return None;
    };
    if is_at(s, q, ')') {
        return Some((test, q + 1));
    }
    match test {
        NodeTest::PI => match quoted(s, q) {
            None => None,
            Some((target, e)) => {
                let close: usize = skip_blanks(s, e);
                if is_at(s, close, ')') {
                    Some((NodeTest::PIName(target), close + 1))
                } else {
                    None
                }
            },
        },
        _ => None,
    }
}

fn wildcard_test(s: &[char], p: usize) -> (r: Option<(NodeTest, usize)>)
    requires
        p <= s@.len(),
    ensures
        reads_test(r, grammar::wildcard_test(s@, p as int), s@, p as int),
{
    proof {
        reveal(grammar::wildcard_test);
    }
    if is_at(s, p, '*') {
        return Some((NodeTest::Wildcard, p + 1));
    }
    let w: usize = run_end(s, p, CharClass::Prefix);
    if w > p && is_at(s, w, ':') && is_at(s, w + 1, '*') {
        let mut star = String::new();
        star.push('*');
        assert(star@ =~= seq!['*']);
        return Some((NodeTest::NamespacedName(string_of(s, p, w), star), w + 2));
    }
    None
}

fn name_test(s: &[char], p: usize) -> (r: Option<(NodeTest, usize)>)
    requires
        p <= s@.len(),
    ensures
        reads_test(r, grammar::name_test(s@, p as int), s@, p as int),
{
    proof {
        reveal(grammar::name_test);
    }
    let w: usize = run_end(s, p, CharClass::QName);
    if w == p {
        return None;
    }
    let colon: usize = until(s, p, ':');
    if colon < w {
        Some((NodeTest::NamespacedName(string_of(s, p, colon), string_of(s, colon + 1, w)), w))
    } else {
        Some((NodeTest::Name(string_of(s, p, w)), w))
    }
}

fn node_test(s: &[char], p: usize) -> (r: Option<(NodeTest, usize)>)
    requires
        p <= s@.len(),
    ensures
        reads_test(r, grammar::node_test(s@, p as int), s@, p as int),
{
    proof {
        reveal(grammar::node_test);
    }
    match type_test(s, p) {
        Some(t) => Some(t),
        None => match wildcard_test(s, p) {
            Some(t) => Some(t),
            None => name_test(s, p),
        },
    }
}

fn axis_named(s: &[char], p: usize, w: usize) -> (r: Option<Axis>)
    requires
        p <= w <= s@.len(),
    ensures
        r == grammar::axis_named(s@.subrange(p as int, w as int)),
{
    if spelled(s, p, w, "child") {
        Some(Axis::Child)
    } else if spelled(s, p, w, "descendant") {
        Some(Axis::Descendant)
    } else if spelled(s, p, w, "parent") {
        Some(Axis::Parent)
    } else if spelled(s, p, w, "ancestor") {
        Some(Axis::Ancestor)
    } else if spelled(s, p, w, "following-sibling") {
        Some(Axis::FollowingSibling)
    } else if spelled(s, p, w, "preceding-sibling") {
        Some(Axis::PrecedingSibling)
    } else if spelled(s, p, w, "following") {
        Some(Axis::Following)
    } else if spelled(s, p, w, "preceding") {
        Some(Axis::Preceding)
    } else if spelled(s, p, w, "self") {
        Some(Axis::SelfAxis)
    } else if spelled(s, p, w, "descendant-or-self") {
        Some(Axis::DescendantOrSelf)
    } else if spelled(s, p, w, "ancestor-or-self") {
        Some(Axis::AncestorOrSelf)
    } else if spelled(s, p, w, "attribute") {
        Some(Axis::Attribute)
    } else if spelled(s, p, w, "namespace") {
        Some(Axis::Namespace)
    } else {
        None
    }
}

fn axis_spec(s: &[char], p: usize) -> (r: (Axis, usize))
    requires
        p <= s@.len(),
    ensures
        grammar::axis_spec(s@, p as int) == (r.0, r.1 as int),
        p <= r.1 <= s@.len(),
{
    proof {
        reveal(grammar::axis_spec);
    }
    if is_at(s, p, '@') {
        return (Axis::Attribute, p + 1);
    }
    let w: usize = run_end(s, p, CharClass::Word);
    if w > p && is_at(s, w, ':') && is_at(s, w + 1, ':') {
        match axis_named(s, p, w) {
            Some(axis) => {
                return (axis, skip_blanks(s, w + 2));
            },
            None => {},
        }
    }
    (Axis::Child, p)
}

fn plain_step(axis: Axis) -> (r: Step)
    ensures
        step_v(r) == grammar::plain_step(axis),
{
    let r = Step { axis, node_test: NodeTest::Node, predicates: Vec::new() };
    proof {
        lemma_step_v(r);
        lemma_exprs_v(r.predicates@);
        assert(exprs_v(r.predicates@) =~= Seq::empty());
    }
    r
}

fn make_step(axis: Axis, test: NodeTest, predicates: Vec<XPathExpr>) -> (r: Step)
    ensures
        step_v(r) == (StepV { axis, test: test@, preds: exprs_v(predicates@) }),
{
    let r = Step { axis, node_test: test, predicates };
    proof {
        lemma_step_v(r);
    }
    r
}

fn make_path(absolute: bool, steps: Vec<Step>) -> (r: XPathExpr)
    ensures
        expr_v(r) == ExprV::Path(absolute, steps_v(steps@)),
{
    let r = XPathExpr::LocationPath(LocationPath { absolute, steps });
    proof {
        lemma_expr_v(r);
    }
    r
}

fn make_call(name: String, args: Vec<XPathExpr>) -> (r: XPathExpr)
    ensures
        expr_v(r) == ExprV::Call(name@, exprs_v(args@)),
{
    let r = XPathExpr::FunctionCall(name, args);
    proof {
        lemma_expr_v(r);
    }
    r
}

fn make_binary(left: XPathExpr, op: BinaryOp, right: XPathExpr) -> (r: XPathExpr)
    ensures
        expr_v(r) == ExprV::Binary(Box::new(expr_v(left)), op, Box::new(expr_v(right))),
{
    let r = XPathExpr::BinaryOp(Box::new(left), op, Box::new(right));
    proof {
        lemma_expr_v(r);
    }
    r
}

fn make_filter_path(inner: XPathExpr, steps: Vec<Step>) -> (r: XPathExpr)
    ensures
        expr_v(r) == ExprV::FilterPath(Box::new(expr_v(inner)), steps_v(steps@)),
{
    let r = XPathExpr::FilterPath(Box::new(inner), steps);
    proof {
        lemma_expr_v(r);
    }
    r
}

fn number_literal(s: &[char], p: usize) -> (r: Option<(XPathExpr, usize)>)
    requires
        p <= s@.len(),
    ensures
        reads_expr(r, grammar::number_literal(s@, p as int), s@, p as int),
{
    proof {
        reveal(grammar::number_literal);
    }
    let w: usize = run_end(s, p, CharClass::Number);
    let mut i: usize = p;
    while i < w && !('0' <= s[i] && s[i] <= '9')
        invariant
            p <= i <= w <= s@.len(),
            forall|j: int| p <= j < i ==> !('0' <= #[trigger] s@[j] <= '9'),
        decreases w - i,
    {
        i += 1;
    }
    if i >= w {
        return None;
    }
    let e: usize = if is_at(s, w, 'e') || is_at(s, w, 'E') {
        run_end(s, w, CharClass::Exponent)
    } else {
        w
    };
    let r = XPathExpr::NumberLiteral(string_of(s, p, e));
    proof {
        lemma_expr_v(r);
    }
    Some((r, e))
}

/// How a step starts: see `grammar::StepHead`.
enum StepHead {
    Abbreviation(Axis, usize),
    Test(Axis, NodeTest, usize),
}

fn step_head(s: &[char], p: usize) -> (r: Option<StepHead>)
    requires
        p <= s@.len(),
    ensures
        match r {
            None => grammar::step_head(s@, p as int) is None,
            Some(StepHead::Abbreviation(axis, e)) => grammar::step_head(s@, p as int) == Some(
                grammar::StepHead::Abbreviation(axis, e as int),
            ) && p <= e <= s@.len(),
            Some(StepHead::Test(axis, test, t)) => grammar::step_head(s@, p as int) == Some(
                grammar::StepHead::Test(axis, test@, t as int),
            ) && p <= t <= s@.len(),
        },
{
    proof {
        reveal(grammar::step_head);
    }
    let q: usize = skip_blanks(s, p);
    if is_at(s, q, '.') {
        if is_at(s, q + 1, '.') {
            return Some(StepHead::Abbreviation(Axis::Parent, q + 2));
        }
        return Some(StepHead::Abbreviation(Axis::SelfAxis, q + 1));
    }
    let (axis, a) = axis_spec(s, q);
    match node_test(s, a) {
        None => None,
        Some((test, t)) => Some(StepHead::Test(axis, test, t)),
    }
}

fn step(s: &[char], p: usize) -> (r: Option<(Step, usize)>)
    requires
        p <= s@.len(),
    ensures
        match r {
            Some((st, q)) => grammar::step(s@, p as int) == Some((step_v(st), q as int)) && p <= q
                <= s@.len(),
            None => grammar::step(s@, p as int) is None,
        },
    decreases rem(s@, p as int), 50int,
{
    proof {
        grammar_unfold::unfold_step(s@, p as int);
    }
    match step_head(s, p) {
        None => None,
        Some(StepHead::Abbreviation(axis, e)) => Some((plain_step(axis), e)),
        Some(StepHead::Test(axis, test, t)) => {
            let (preds, k) = predicates(s, t);
            let r = make_step(axis, test, preds);
            Some((r, k))
        },
    }
}

fn predicates(s: &[char], p: usize) -> (r: (Vec<XPathExpr>, usize))
    requires
        p <= s@.len(),
    ensures
        grammar::predicates(s@, p as int) == (exprs_v(r.0@), r.1 as int),
        p <= r.1 <= s@.len(),
    decreases rem(s@, p as int), 40int,
{
    proof {
        grammar_unfold::unfold_predicates(s@, p as int);
    }
    let mut out: Vec<XPathExpr> = Vec::new();
    let mut pos: usize = p;
    let ghost all = grammar::predicates(s@, p as int);
    proof {
        lemma_exprs_v(out@);
        assert(exprs_v(out@) + all.0 =~= all.0);
    }
    loop
        invariant
            p <= pos <= s@.len(),
            all == grammar::predicates(s@, p as int),
            all == (
                exprs_v(out@) + grammar::predicates(s@, pos as int).0,
                grammar::predicates(s@, pos as int).1,
            ),
        decreases s@.len() - pos,
    {
        proof {
            grammar_unfold::unfold_predicates(s@, pos as int);
        }
        match predicate(s, pos) {
            None => {
                assert(all.0 =~= exprs_v(out@));
                return (out, pos);
            },
            Some((e, q)) => {
                let ghost before = exprs_v(out@);
                let ghost old_out = out@;
                out.push(e);
                proof {
                    lemma_exprs_push(old_out, e);
                    let rest = grammar::predicates(s@, q as int);
                    assert(before + (seq![expr_v(e)] + rest.0) =~= exprs_v(out@) + rest.0);
                }
                pos = q;
            },
        }
    }
}

fn predicate(s: &[char], p: usize) -> (r: Option<(XPathExpr, usize)>)
    requires
        p <= s@.len(),
    ensures
        reads_expr(r, grammar::predicate(s@, p as int), s@, p as int),
        r matches Some((e, q)) ==> p < q,
    decreases rem(s@, p as int), 30int,
{
    proof {
        grammar_unfold::unfold_predicate(s@, p as int);
    }
    let b: usize = skip_blanks(s, p);
    if !is_at(s, b, '[') {
        return None;
    }
    let i: usize = skip_blanks(s, b + 1);
    match or_expr(s, i) {
        None => None,
        Some((e, k)) => {
            let c: usize = skip_blanks(s, k);
            if is_at(s, c, ']') {
                Some((e, c + 1))
            } else {
                None
            }
        },
    }
}

/// What stands before the next step of a path: see `grammar::Joint`.
enum Joint {
    End(usize),
    Slash(usize),
    Slashes(usize),
}

fn joint(s: &[char], p: usize) -> (r: Joint)
    requires
        p <= s@.len(),
    ensures
        match r {
            Joint::End(e) => grammar::joint(s@, p as int) == grammar::Joint::End(e as int) && p
                <= e <= s@.len(),
            Joint::Slash(q) => grammar::joint(s@, p as int) == grammar::Joint::Slash(q as int)
                && p < q <= s@.len(),
            Joint::Slashes(q) => grammar::joint(s@, p as int) == grammar::Joint::Slashes(q as int)
                && p < q <= s@.len(),
        },
{
    proof {
        reveal(grammar::joint);
    }
    if !is_at(s, p, '/') {
        Joint::End(p)
    } else if is_at(s, p + 1, '/') {
        Joint::Slashes(p + 2)
    } else if p + 1 >= s.len() || is_at(s, p + 1, '|') || is_at(s, p + 1, ')') {
        Joint::End(p + 1)
    } else {
        Joint::Slash(p + 1)
    }
}

fn continuation(s: &[char], p: usize) -> (r: Option<(Vec<Step>, usize)>)
    requires
        p <= s@.len(),
    ensures
        reads_steps(r, grammar::continuation(s@, p as int), s@, p as int),
    decreases rem(s@, p as int), 60int,
{
    proof {
        grammar_unfold::unfold_continuation(s@, p as int);
    }
    match joint(s, p) {
        Joint::End(e) => {
            let none: Vec<Step> = Vec::new();
            proof {
                lemma_steps_v(none@);
                assert(steps_v(none@) =~= Seq::empty());
            }
            Some((none, e))
        },
        Joint::Slash(q) => path_steps(s, q),
        Joint::Slashes(q) => match path_steps(s, q) {
            None => None,
            Some((steps, m)) => Some(
                (prepend_step(plain_step(Axis::DescendantOrSelf), steps), m),
            ),
        },
    }
}

fn path_steps(s: &[char], p: usize) -> (r: Option<(Vec<Step>, usize)>)
    requires
        p <= s@.len(),
    ensures
        reads_steps(r, grammar::path_steps(s@, p as int), s@, p as int),
    decreases rem(s@, p as int), 65int,
{
    proof {
        grammar_unfold::unfold_path_steps(s@, p as int);
    }
    match step(s, p) {
        None => None,
        Some((st, k)) => match continuation(s, k) {
            None => None,
            Some((rest, q)) => Some((prepend_step(st, rest), q)),
        },
    }
}

/// The step, then the steps.
fn prepend_step(first: Step, rest: Vec<Step>) -> (r: Vec<Step>)
    ensures
        steps_v(r@) == seq![step_v(first)] + steps_v(rest@),
{
    let mut rest = rest;
    let ghost before = rest@;
    rest.insert(0, first);
    proof {
        lemma_steps_v(before);
        lemma_steps_v(rest@);
    }
    assert(steps_v(rest@) =~= seq![step_v(first)] + steps_v(before));
    rest
}

/// The expression, then the expressions.
fn prepend_expr(first: XPathExpr, rest: Vec<XPathExpr>) -> (r: Vec<XPathExpr>)
    ensures
        exprs_v(r@) == seq![expr_v(first)] + exprs_v(rest@),
{
    let mut rest = rest;
    let ghost before = rest@;
    rest.insert(0, first);
    proof {
        lemma_exprs_v(before);
        lemma_exprs_v(rest@);
    }
    assert(exprs_v(rest@) =~= seq![expr_v(first)] + exprs_v(before));
    rest
}

fn location_path(s: &[char], p: usize) -> (r: Option<(XPathExpr, usize)>)
    requires
        p <= s@.len(),
    ensures
        reads_expr(r, grammar::location_path(s@, p as int), s@, p as int),
    decreases rem(s@, p as int), 70int,
{
    proof {
        grammar_unfold::unfold_location_path(s@, p as int);
    }
    if !is_at(s, p, '/') {
        return match path_steps(s, p) {
            None => None,
            Some((steps, q)) => Some((make_path(false, steps), q)),
        };
    }
    if is_at(s, p + 1, '/') {
        return match path_steps(s, p + 2) {
            None => None,
            Some((steps, q)) => {
                let all = prepend_step(plain_step(Axis::DescendantOrSelf), steps);
                Some((make_path(true, all), q))
            },
        };
    }
    if p + 1 >= s.len() || is_at(s, p + 1, '|') || is_at(s, p + 1, ')') || is_at(s, p + 1, ']') {
        let steps: Vec<Step> = Vec::new();
        proof {
            lemma_steps_v(steps@);
            assert(steps_v(steps@) =~= Seq::empty());
        }
        return Some((make_path(true, steps), p + 1));
    }
    match path_steps(s, p + 1) {
        None => None,
        Some((steps, q)) => Some((make_path(true, steps), q)),
    }
}

fn element(s: &[char], p: usize, kind: Element) -> (r: Option<(XPathExpr, usize)>)
    requires
        p <= s@.len(),
    ensures
        reads_expr(r, grammar::element(s@, p as int, kind), s@, p as int),
    decreases rem(s@, p as int), 200int,
{
    proof {
        grammar_unfold::unfold_element(s@, p as int, kind);
    }
    match kind {
        Element::Path => location_path(s, p),
        Element::Primary => primary(s, p),
        Element::Expr => or_expr(s, p),
    }
}

fn list_rest(s: &[char], p: usize, separator: char, kind: Element) -> (r: (
    Vec<XPathExpr>,
    usize,
))
    requires
        p <= s@.len(),
    ensures
        grammar::list_rest(s@, p as int, separator, kind) == (exprs_v(r.0@), r.1 as int),
        p <= r.1 <= s@.len(),
    decreases rem(s@, p as int), 60int,
{
    proof {
        grammar_unfold::unfold_list_rest(s@, p as int, separator, kind);
    }
    let mut out: Vec<XPathExpr> = Vec::new();
    let mut pos: usize = p;
    let ghost all = grammar::list_rest(s@, p as int, separator, kind);
    proof {
        lemma_exprs_v(out@);
        assert(exprs_v(out@) + all.0 =~= all.0);
    }
    loop
        invariant
            p <= pos <= s@.len(),
            all == grammar::list_rest(s@, p as int, separator, kind),
            all == (
                exprs_v(out@) + grammar::list_rest(s@, pos as int, separator, kind).0,
                grammar::list_rest(s@, pos as int, separator, kind).1,
            ),
        decreases s@.len() - pos,
    {
        proof {
            grammar_unfold::unfold_list_rest(s@, pos as int, separator, kind);
        }
        let b: usize = skip_blanks(s, pos);
        if !is_at(s, b, separator) {
            assert(all.0 =~= exprs_v(out@));
            return (out, pos);
        }
        let i: usize = skip_blanks(s, b + 1);
        match element(s, i, kind) {
            None => {
                assert(all.0 =~= exprs_v(out@));
                return (out, pos);
            },
            Some((e, q)) => {
                let ghost before = exprs_v(out@);
                let ghost old_out = out@;
                out.push(e);
                proof {
                    lemma_exprs_push(old_out, e);
                    let rest = grammar::list_rest(s@, q as int, separator, kind);
                    assert(before + (seq![expr_v(e)] + rest.0) =~= exprs_v(out@) + rest.0);
                }
                pos = q;
            },
        }
    }
}

/// The only element of a list, or the union of its elements.
fn union_of(first: XPathExpr, rest: Vec<XPathExpr>) -> (r: XPathExpr)
    ensures
        expr_v(r) == grammar::union_of(expr_v(first), exprs_v(rest@)),
{
    proof {
        lemma_exprs_v(rest@);
    }
    if rest.len() == 0 {
        first
    } else {
        let r = XPathExpr::Union(prepend_expr(first, rest));
        proof {
            lemma_expr_v(r);
        }
        r
    }
}

fn function_head(s: &[char], p: usize) -> (r: Option<(usize, usize)>)
    requires
        p <= s@.len(),
    ensures
        match r {
            Some((w, i)) => grammar::function_head(s@, p as int) == Some((w as int, i as int)) && p
                < w < i <= s@.len(),
            None => grammar::function_head(s@, p as int) is None,
        },
{
    proof {
        reveal(grammar::function_head);
    }
    if p >= s.len() || !is_alphabetic(s[p]) {
        return None;
    }
    let w: usize = run_end(s, p, CharClass::Word);
    if w == p || spelled(s, p, w, "text") || spelled(s, p, w, "node") || spelled(
        s,
        p,
        w,
        "comment",
    ) || spelled(s, p, w, "processing-instruction") {
        return None;
    }
    let open: usize = skip_blanks(s, w);
    if !is_at(s, open, '(') {
        return None;
    }
    Some((w, skip_blanks(s, open + 1)))
}

fn function_call(s: &[char], p: usize) -> (r: Option<(XPathExpr, usize)>)
    requires
        p <= s@.len(),
    ensures
        reads_expr(r, grammar::function_call(s@, p as int), s@, p as int),
    decreases rem(s@, p as int), 75int,
{
    proof {
        grammar_unfold::unfold_function_call(s@, p as int);
    }
    let (w, i) = match function_head(s, p) {
        None => {
            return None;
        },
        Some(head) => head,
    };
    if is_at(s, i, ')') {
        let args: Vec<XPathExpr> = Vec::new();
        proof {
            lemma_exprs_v(args@);
            assert(exprs_v(args@) =~= Seq::empty());
        }
        return Some((make_call(string_of(s, p, w), args), i + 1));
    }
    match or_expr(s, i) {
        None => None,
        Some((first, k)) => {
            let (rest, m) = list_rest(s, k, ',', Element::Expr);
            let c: usize = skip_blanks(s, m);
            if is_at(s, c, ')') {
                Some((make_call(string_of(s, p, w), prepend_expr(first, rest)), c + 1))
            } else {
                None
            }
        },
    }
}

fn parenthesized(s: &[char], p: usize) -> (r: Option<(XPathExpr, usize)>)
    requires
        p <= s@.len(),
    ensures
        reads_expr(r, grammar::parenthesized(s@, p as int), s@, p as int),
    decreases rem(s@, p as int), 75int,
{
    proof {
        grammar_unfold::unfold_parenthesized(s@, p as int);
    }
    if !is_at(s, p, '(') {
        return None;
    }
    let i: usize = skip_blanks(s, p + 1);
    match or_expr(s, i) {
        None => None,
        Some((first, k)) => {
            let (rest, m) = list_rest(s, k, '|', Element::Expr);
            let c: usize = skip_blanks(s, m);
            if is_at(s, c, ')') {
                Some((union_of(first, rest), c + 1))
            } else {
                None
            }
        },
    }
}

fn with_rest(s: &[char], p: usize, e: XPathExpr, k: usize) -> (r: Option<(XPathExpr, usize)>)
    requires
        p <= k <= s@.len(),
    ensures
        reads_expr(r, grammar::with_rest(s@, p as int, expr_v(e), k as int), s@, p as int),
    decreases rem(s@, p as int), 78int,
{
    proof {
        grammar_unfold::unfold_with_rest(s@, p as int, expr_v(e), k as int);
    }
    if p >= s.len() {
        Some((e, k))
    } else if k == p {
        filter_rest(s, p + 1, e)
    } else {
        filter_rest(s, k, e)
    }
}

fn primary(s: &[char], p: usize) -> (r: Option<(XPathExpr, usize)>)
    requires
        p <= s@.len(),
    ensures
        reads_expr(r, grammar::primary(s@, p as int), s@, p as int),
    decreases rem(s@, p as int), 80int,
{
    proof {
        grammar_unfold::unfold_primary(s@, p as int);
    }
    let q: usize = skip_blanks(s, p);
    match function_call(s, q) {
        Some((e, k)) => {
            return with_rest(s, q, e, k);
        },
        None => {},
    }
    match parenthesized(s, q) {
        Some((e, k)) => {
            return with_rest(s, q, e, k);
        },
        None => {},
    }
    match quoted(s, q) {
        Some((t, k)) => {
            let r = XPathExpr::StringLiteral(t);
            proof {
                lemma_expr_v(r);
            }
            return Some((r, k));
        },
        None => {},
    }
    match number_literal(s, q) {
        Some(e) => {
            return Some(e);
        },
        None => {},
    }
    location_path(s, q)
}

fn is_path(e: &XPathExpr) -> (r: bool)
    ensures
        r == grammar::is_path(expr_v(*e)),
{
    proof {
        lemma_expr_v(*e);
    }
    match e {
        XPathExpr::LocationPath(_) => true,
        XPathExpr::FunctionCall(_, _) => true,
        XPathExpr::FilterPath(_, _) => true,
        XPathExpr::GlobalFilter(_, _) => true,
        XPathExpr::Union(_) => true,
        _ => false,
    }
}

fn union_path(s: &[char], p: usize) -> (r: Option<(XPathExpr, usize)>)
    requires
        p <= s@.len(),
    ensures
        reads_expr(r, grammar::union_path(s@, p as int), s@, p as int),
    decreases rem(s@, p as int), 90int,
{
    proof {
        grammar_unfold::unfold_union_path(s@, p as int);
    }
    match primary(s, p) {
        None => None,
        Some((first, k)) => if is_path(&first) {
            let (rest, m) = list_rest(s, k, '|', Element::Primary);
            Some((union_of(first, rest), m))
        } else {
            Some((first, k))
        },
    }
}

fn unary(s: &[char], p: usize) -> (r: Option<(XPathExpr, usize)>)
    requires
        p <= s@.len(),
    ensures
        reads_expr(r, grammar::unary(s@, p as int), s@, p as int),
    decreases rem(s@, p as int), 100int,
{
    proof {
        grammar_unfold::unfold_unary(s@, p as int);
    }
    let q: usize = skip_blanks(s, p);
    if is_at(s, q, '-') {
        match unary(s, q + 1) {
            None => None,
            Some((e, k)) => {
                let r = XPathExpr::UnaryMinus(Box::new(e));
                proof {
                    lemma_expr_v(r);
                }
                Some((r, k))
            },
        }
    } else {
        union_path(s, q)
    }
}

fn ends_word(s: &[char], p: usize) -> (r: bool)
    ensures
        r == grammar::ends_word(s@, p as int),
{
    p < s.len() && !is_alphanumeric(s[p]) && s[p] != '-' && s[p] != '_'
}

fn operator(s: &[char], p: usize, level: Level) -> (r: Option<(BinaryOp, usize)>)
    requires
        p <= s@.len(),
    ensures
        match r {
            Some((op, q)) => grammar::operator(s@, p as int, level) == Some((op, q as int))
                && p < q <= s@.len(),
            None => grammar::operator(s@, p as int, level) is None,
        },
{
    proof {
        reveal(grammar::operator);
        reveal_strlit("div");
        reveal_strlit("mod");
    }
    match level {
        Level::Multiplicative => if is_at(s, p, '*') {
            Some((BinaryOp::Mul, p + 1))
        } else if is_word_at(s, p, "div") && ends_word(s, p + 3) {
            Some((BinaryOp::Div, p + 3))
        } else if is_word_at(s, p, "mod") && ends_word(s, p + 3) {
            Some((BinaryOp::Mod, p + 3))
        } else {
            None
        },
        Level::Additive => if is_at(s, p, '+') {
            Some((BinaryOp::Add, p + 1))
        } else if is_at(s, p, '-') {
            Some((BinaryOp::Sub, p + 1))
        } else {
            None
        },
        Level::Relational => if is_at(s, p, '<') && is_at(s, p + 1, '=') {
            Some((BinaryOp::Lte, p + 2))
        } else if is_at(s, p, '>') && is_at(s, p + 1, '=') {
            Some((BinaryOp::Gte, p + 2))
        } else if is_at(s, p, '<') {
            Some((BinaryOp::Lt, p + 1))
        } else if is_at(s, p, '>') {
            Some((BinaryOp::Gt, p + 1))
        } else {
            None
        },
        Level::Equality => if is_at(s, p, '!') && is_at(s, p + 1, '=') {
            Some((BinaryOp::Neq, p + 2))
        } else if is_at(s, p, '=') {
            Some((BinaryOp::Eq, p + 1))
        } else {
            None
        },
    }
}

fn operand(s: &[char], p: usize, level: Level) -> (r: Option<(XPathExpr, usize)>)
    requires
        p <= s@.len(),
    ensures
        reads_expr(r, grammar::operand(s@, p as int, level), s@, p as int),
    decreases rem(s@, p as int), 105 + 10 * grammar::level_rank(level),
{
    proof {
        grammar_unfold::unfold_operand(s@, p as int, level);
    }
    match level {
        Level::Multiplicative => unary(s, p),
        Level::Additive => chain(s, p, Level::Multiplicative),
        Level::Relational => chain(s, p, Level::Additive),
        Level::Equality => chain(s, p, Level::Relational),
    }
}

fn chain(s: &[char], p: usize, level: Level) -> (r: Option<(XPathExpr, usize)>)
    requires
        p <= s@.len(),
    ensures
        reads_expr(r, grammar::chain(s@, p as int, level), s@, p as int),
    decreases rem(s@, p as int), 110 + 10 * grammar::level_rank(level),
{
    proof {
        grammar_unfold::unfold_chain(s@, p as int, level);
    }
    let (first, k) = match operand(s, p, level) {
        None => {
            return None;
        },
        Some(e) => e,
    };
    let mut left = first;
    let mut pos: usize = k;
    let ghost all = grammar::chain(s@, p as int, level);
    loop
        invariant
            p <= pos <= s@.len(),
            all == grammar::chain(s@, p as int, level),
            all == grammar::chain_rest(s@, pos as int, level, expr_v(left)),
        decreases s@.len() - pos,
    {
        proof {
            grammar_unfold::unfold_chain_rest(s@, pos as int, level, expr_v(left));
        }
        let b: usize = skip_blanks(s, pos);
        match operator(s, b, level) {
            None => {
                return Some((left, pos));
            },
            Some((op, o)) => {
                let i: usize = skip_blanks(s, o);
                match operand(s, i, level) {
                    None => {
                        return None;
                    },
                    Some((right, q)) => {
                        left = make_binary(left, op, right);
                        pos = q;
                    },
                }
            },
        }
    }
}

fn and_expr(s: &[char], p: usize) -> (r: Option<(XPathExpr, usize)>)
    requires
        p <= s@.len(),
    ensures
        reads_expr(r, grammar::and_expr(s@, p as int), s@, p as int),
    decreases rem(s@, p as int), 160int,
{
    proof {
        grammar_unfold::unfold_and_expr(s@, p as int);
    }
    match chain(s, p, Level::Equality) {
        None => None,
        Some((left, k)) => {
            let i: usize = skip_blanks(s, k);
            proof {
                reveal_strlit("and");
            }
            if is_word_at(s, i, "and") && i + 3 < s.len() && is_white_space(s[i + 3]) {
                let j: usize = skip_blanks(s, i + 3);
                match and_expr(s, j) {
                    None => None,
                    Some((right, m)) => Some((make_binary(left, BinaryOp::And, right), m)),
                }
            } else {
                Some((left, i))
            }
        },
    }
}

fn or_expr(s: &[char], p: usize) -> (r: Option<(XPathExpr, usize)>)
    requires
        p <= s@.len(),
    ensures
        reads_expr(r, grammar::or_expr(s@, p as int), s@, p as int),
    decreases rem(s@, p as int), 170int,
{
    proof {
        grammar_unfold::unfold_or_expr(s@, p as int);
    }
    match and_expr(s, p) {
        None => None,
        Some((left, k)) => {
            let i: usize = skip_blanks(s, k);
            proof {
                reveal_strlit("or");
            }
            if is_word_at(s, i, "or") && i + 2 < s.len() && is_white_space(s[i + 2]) {
                let j: usize = skip_blanks(s, i + 2);
                match or_expr(s, j) {
                    None => None,
                    Some((right, m)) => Some((make_binary(left, BinaryOp::Or, right), m)),
                }
            } else {
                Some((left, i))
            }
        },
    }
}

/// The expression with predicates that filter its whole result.
fn filtered(e: XPathExpr, preds: Vec<XPathExpr>) -> (r: XPathExpr)
    ensures
        expr_v(r) == grammar::filtered(expr_v(e), exprs_v(preds@)),
{
    proof {
        lemma_exprs_v(preds@);
    }
    if preds.len() == 0 {
        e
    } else {
        let r = XPathExpr::GlobalFilter(Box::new(e), preds);
        proof {
            lemma_expr_v(r);
        }
        r
    }
}

fn no_steps(steps: &Vec<Step>) -> (r: bool)
    ensures
        r == (steps_v(steps@).len() == 0),
{
    proof {
        lemma_steps_v(steps@);
    }
    steps.len() == 0
}

fn function_path(s: &[char], p: usize) -> (r: Option<(XPathExpr, usize)>)
    requires
        p <= s@.len(),
    ensures
        reads_expr(r, grammar::function_path(s@, p as int), s@, p as int),
    decreases rem(s@, p as int), 180int,
{
    proof {
        grammar_unfold::unfold_function_path(s@, p as int);
    }
    match function_call(s, p) {
        None => None,
        Some((func, k)) => if is_at(s, k, '/') {
            match continuation(s, k) {
                None => None,
                Some((steps, m)) => if no_steps(&steps) {
                    Some((func, m))
                } else {
                    Some((make_filter_path(func, steps), m))
                },
            }
        } else {
            let (preds, m) = predicates(s, k);
            Some((filtered(func, preds), m))
        },
    }
}

fn filter_rest(s: &[char], p: usize, inner: XPathExpr) -> (r: Option<(XPathExpr, usize)>)
    requires
        p <= s@.len(),
    ensures
        reads_expr(r, grammar::filter_rest(s@, p as int, expr_v(inner)), s@, p as int),
    decreases rem(s@, p as int), 185int,
{
    proof {
        grammar_unfold::unfold_filter_rest(s@, p as int, expr_v(inner));
    }
    if is_at(s, p, '/') {
        match continuation(s, p) {
            None => None,
            Some((steps, m)) => if no_steps(&steps) {
                Some((inner, m))
            } else {
                let (preds, f) = predicates(s, m);
                Some((filtered(make_filter_path(inner, steps), preds), f))
            },
        }
    } else {
        let (preds, f) = predicates(s, p);
        Some((filtered(inner, preds), f))
    }
}

fn parenthesized_filter(s: &[char], p: usize) -> (r: Option<(XPathExpr, usize)>)
    requires
        p <= s@.len(),
    ensures
        reads_expr(r, grammar::parenthesized_filter(s@, p as int), s@, p as int),
    decreases rem(s@, p as int), 190int,
{
    proof {
        grammar_unfold::unfold_parenthesized_filter(s@, p as int);
    }
    if !is_at(s, p, '(') {
        return None;
    }
    let i: usize = skip_blanks(s, p + 1);
    let (inner, k) = match xpath_expr(s, i) {
        None => {
            return None;
        },
        Some(e) => e,
    };
    let c: usize = skip_blanks(s, k);
    if !is_at(s, c, ')') {
        return None;
    }
    filter_rest(s, c + 1, inner)
}

fn xpath_expr(s: &[char], p: usize) -> (r: Option<(XPathExpr, usize)>)
    requires
        p <= s@.len(),
    ensures
        reads_expr(r, grammar::xpath_expr(s@, p as int), s@, p as int),
    decreases rem(s@, p as int), 210int,
{
    proof {
        grammar_unfold::unfold_xpath_expr(s@, p as int);
    }
    match parenthesized_filter(s, p) {
        Some(e) => {
            return Some(e);
        },
        None => {},
    }
    match function_path(s, p) {
        Some(e) => {
            return Some(e);
        },
        None => {},
    }
    match location_path(s, p) {
        None => None,
        Some((first, k)) => {
            let (rest, m) = list_rest(s, k, '|', Element::Path);
            Some((union_of(first, rest), m))
        },
    }
}

/// The text without the white space around it.
pub open spec fn trimmed(s: Seq<char>) -> Seq<char>
    decreases s.len(),
{
    if s.len() == 0 {
        s
    } else if is_white(s[0]) {
        trimmed(s.drop_first())
    } else if is_white(s.last()) {
        trimmed(s.drop_last())
    } else {
        s
    }
}

/// Removes the white space around a text.
pub fn trim_chars(chars: &Vec<char>) -> (r: (usize, usize))
    ensures
        r.0 <= r.1 <= chars@.len(),
        chars@.subrange(r.0 as int, r.1 as int) == trimmed(chars@),
{
    let n: usize = chars.len();
    let mut a: usize = 0;
    assert(chars@.subrange(0, n as int) =~= chars@);
    while a < n && is_white_space(chars[a])
        invariant
            n == chars@.len(),
            a <= n,
            trimmed(chars@.subrange(a as int, n as int)) == trimmed(chars@),
        decreases n - a,
    {
        assert(chars@.subrange(a as int, n as int).drop_first() =~= chars@.subrange(
            a + 1,
            n as int,
        ));
        a += 1;
    }
    let mut b: usize = n;
    while b > a && is_white_space(chars[b - 1])
        invariant
            n == chars@.len(),
            a <= b <= n,
            a < b ==> !is_white(chars@[a as int]),
            trimmed(chars@.subrange(a as int, b as int)) == trimmed(chars@),
        decreases b,
    {
        assert(chars@.subrange(a as int, b as int).drop_last() =~= chars@.subrange(
            a as int,
            b - 1,
        ));
        b -= 1;
    }
    (a, b)
}

/// The text of the error for input that is left over after an expression.
pub open spec fn trailing_message(rest: Seq<char>) -> Seq<char> {
    "Unexpected trailing input: '"@ + rest + "'"@
}

/// What parsing a text yields, given what the grammar reads at its start: the
/// expression when all of the text was read, else the message.
pub open spec fn outcome(s: Seq<char>, reading: Option<(ExprV, int)>) -> std::result::Result<
    ExprV,
    Seq<char>,
> {
    match reading {
        Some((e, k)) => if k == s.len() {
            Ok(e)
        } else {
            Err(trailing_message(s.skip(k)))
        },
        None => Err("Invalid XPath expression"@),
    }
}

fn finish(s: &[char], read: Option<(XPathExpr, usize)>, Ghost(reading): Ghost<Option<(ExprV, int)>>)
    -> (r: std::result::Result<XPathExpr, SimdXmlError>)
    requires
        reads_expr(read, reading, s@, 0),
    ensures
        match r {
            Ok(e) => outcome(s@, reading) == Ok::<ExprV, Seq<char>>(expr_v(e)),
            Err(err) => err matches SimdXmlError::XPathParseError(m) && outcome(s@, reading)
                == Err::<ExprV, Seq<char>>(m@),
        },
{
    match read {
        Some((e, q)) => if q == s.len() {
            Ok(e)
        } else {
            let mut message = String::from_str("Unexpected trailing input: '");
            let rest = string_of(s, q, s.len());
            message.append(rest.as_str());
            message.append("'");
            assert(rest@ =~= s@.skip(q as int));
            Err(SimdXmlError::XPathParseError(message))
        },
        None => Err(SimdXmlError::XPathParseError(String::from_str("Invalid XPath expression"))),
    }
}

/// What parsing the text of a predicate expression yields.
pub open spec fn parsed_predicate(text: Seq<char>) -> std::result::Result<ExprV, Seq<char>> {
    outcome(trimmed(text), grammar::or_expr(trimmed(text), 0))
}

/// What parsing the text of a query yields.
pub open spec fn parsed_xpath(text: Seq<char>) -> std::result::Result<ExprV, Seq<char>> {
    outcome(trimmed(text), grammar::xpath_expr(trimmed(text), 0))
}

/// Parses a standalone predicate expression (arithmetic, string, boolean).
pub fn parse_xpath_predicate_expr(input: &str) -> (r: std::result::Result<XPathExpr, SimdXmlError>)
    ensures
        match r {
            Ok(e) => parsed_predicate(input@) == Ok::<ExprV, Seq<char>>(expr_v(e)),
            Err(err) => err matches SimdXmlError::XPathParseError(m) && parsed_predicate(input@)
                == Err::<ExprV, Seq<char>>(m@),
        },
{
    let chars = chars_of(input);
    let (a, b) = trim_chars(&chars);
    let s = vstd::slice::slice_subrange(chars.as_slice(), a, b);
    let read = or_expr(s, 0);
    finish(s, read, Ghost(grammar::or_expr(s@, 0)))
}

/// Parses an XPath 1.0 expression string.
pub fn parse_xpath(input: &str) -> (r: std::result::Result<XPathExpr, SimdXmlError>)
    ensures
        match r {
            Ok(e) => parsed_xpath(input@) == Ok::<ExprV, Seq<char>>(expr_v(e)),
            Err(err) => err matches SimdXmlError::XPathParseError(m) && parsed_xpath(input@)
                == Err::<ExprV, Seq<char>>(m@),
        },
{
    let chars = chars_of(input);
    let (a, b) = trim_chars(&chars);
    let s = vstd::slice::slice_subrange(chars.as_slice(), a, b);
    let read = xpath_expr(s, 0);
    finish(s, read, Ghost(grammar::xpath_expr(s@, 0)))
}

/// Trimming takes the white space off both ends of a text and nothing else.
pub proof fn lemma_trimmed(a: Seq<char>, s: Seq<char>, b: Seq<char>)
    requires
        forall|i: int| 0 <= i < a.len() ==> is_white(#[trigger] a[i]),
        forall|i: int| 0 <= i < b.len() ==> is_white(#[trigger] b[i]),
        s.len() > 0 ==> !is_white(s[0]) && !is_white(s.last()),
    ensures
        trimmed(a + s + b) == s,
    decreases a.len() + b.len(),
{
    let all = a + s + b;
    if a.len() > 0 {
        let c = a.drop_first();
        assert(all[0] == a[0]);
        assert(all.drop_first() =~= c + s + b);
        assert forall|i: int| 0 <= i < c.len() implies is_white(#[trigger] c[i]) by {
            assert(c[i] == a[i + 1]);
        }
        lemma_trimmed(c, s, b);
    } else if b.len() > 0 {
        let d = b.drop_last();
        assert forall|i: int| 0 <= i < d.len() implies is_white(#[trigger] d[i]) by {
            assert(d[i] == b[i]);
        }
        if s.len() == 0 {
            assert(all =~= b);
            let e = b.drop_first();
            assert forall|i: int| 0 <= i < e.len() implies is_white(#[trigger] e[i]) by {
                assert(e[i] == b[i + 1]);
            }
            assert(is_white(all[0]));
            lemma_trimmed(a, s, e);
            assert(all.drop_first() =~= a + s + e);
        } else {
            assert(all[0] == s[0]);
            assert(all.last() == b.last());
            assert(all.drop_last() =~= a + s + d);
            lemma_trimmed(a, s, d);
        }
    } else {
        assert(all =~= s);
    }
}

} // verus!
