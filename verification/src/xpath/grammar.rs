//! The XPath grammar: what each nonterminal reads at a position of the input.
//! A reading is a syntax tree and the position where it ends; where
//! alternatives overlap, the first that applies is taken.

use vstd::prelude::*;
use crate::xpath::ast::{Axis, BinaryOp, ExprV, StepV, TestV};
use crate::xpath::chars::{
    at, char_is_alphabetic, char_is_alphanumeric, is_white, run, seek, skip, word_at, CharClass,
};

verus! {

/// The number of characters from `p` on.
pub open spec fn rem(s: Seq<char>, p: int) -> nat {
    if p < s.len() {
        (s.len() - p) as nat
    } else {
        0
    }
}

/// The position `q`, or `p` when `q` lies before it. Readings never end before
/// they start, so this is always `q` where it is used.
pub open spec fn from(p: int, q: int) -> int {
    if q < p {
        p
    } else {
        q
    }
}

/// The position after the blanks at `p`.
pub open spec fn past(s: Seq<char>, p: int) -> int {
    from(p, skip(s, p))
}

/// A quoted string.
pub open spec fn quoted(s: Seq<char>, p: int) -> Option<(Seq<char>, int)> {
    if at(s, p, '\'') || at(s, p, '"') {
        let e = seek(s, p + 1, s[p]);
        if e < s.len() {
            Some((s.subrange(p + 1, e), e + 1))
        } else {
            None
        }
    } else {
        None
    }
}

/// `text()`, `node()`, `comment()` or `processing-instruction(..)`.
#[verifier::opaque]
pub open spec fn type_test(s: Seq<char>, p: int) -> Option<(TestV, int)> {
    let w = run(s, p, CharClass::Word);
    let open = skip(s, w);
    let q = skip(s, open + 1);
    if w <= p || !at(s, open, '(') {
        None
    } else {
        let name = s.subrange(p, w);
        let simple = if name == "text"@ {
            Some(TestV::Text)
        } else if name == "node"@ {
            Some(TestV::Node)
        } else if name == "comment"@ {
            Some(TestV::Comment)
        } else if name == "processing-instruction"@ {
            Some(TestV::PI)
        } else {
            None
        };
        match simple {
            None => None,
            Some(test) => if at(s, q, ')') {
                Some((test, q + 1))
            } else if test is PI {
                match quoted(s, q) {
                    None => None,
                    Some((target, e)) => if at(s, skip(s, e), ')') {
                        Some((TestV::PIName(target), skip(s, e) + 1))
                    } else {
                        None
                    },
                }
            } else {
                None
            },
        }
    }
}

/// `*` or `prefix:*`.
#[verifier::opaque]
pub open spec fn wildcard_test(s: Seq<char>, p: int) -> Option<(TestV, int)> {
    let w = run(s, p, CharClass::Prefix);
    if at(s, p, '*') {
        Some((TestV::Wildcard, p + 1))
    } else if w > p && at(s, w, ':') && at(s, w + 1, '*') {
        Some((TestV::NamespacedName(s.subrange(p, w), seq!['*']), w + 2))
    } else {
        None
    }
}

/// A name, split at its first colon.
#[verifier::opaque]
pub open spec fn name_test(s: Seq<char>, p: int) -> Option<(TestV, int)> {
    let w = run(s, p, CharClass::QName);
    let c = seek(s, p, ':');
    if w <= p {
        None
    } else if c < w {
        Some((TestV::NamespacedName(s.subrange(p, c), s.subrange(c + 1, w)), w))
    } else {
        Some((TestV::Name(s.subrange(p, w)), w))
    }
}

/// A node test.
#[verifier::opaque]
pub open spec fn node_test(s: Seq<char>, p: int) -> Option<(TestV, int)> {
    match type_test(s, p) {
        Some(t) => Some(t),
        None => match wildcard_test(s, p) {
            Some(t) => Some(t),
            None => name_test(s, p),
        },
    }
}

/// The axis with this name.
pub open spec fn axis_named(name: Seq<char>) -> Option<Axis> {
    if name == "child"@ {
        Some(Axis::Child)
    } else if name == "descendant"@ {
        Some(Axis::Descendant)
    } else if name == "parent"@ {
        Some(Axis::Parent)
    } else if name == "ancestor"@ {
        Some(Axis::Ancestor)
    } else if name == "following-sibling"@ {
        Some(Axis::FollowingSibling)
    } else if name == "preceding-sibling"@ {
        Some(Axis::PrecedingSibling)
    } else if name == "following"@ {
        Some(Axis::Following)
    } else if name == "preceding"@ {
        Some(Axis::Preceding)
    } else if name == "self"@ {
        Some(Axis::SelfAxis)
    } else if name == "descendant-or-self"@ {
        Some(Axis::DescendantOrSelf)
    } else if name == "ancestor-or-self"@ {
        Some(Axis::AncestorOrSelf)
    } else if name == "attribute"@ {
        Some(Axis::Attribute)
    } else if name == "namespace"@ {
        Some(Axis::Namespace)
    } else {
        None
    }
}

/// `@`, or an axis name and `::`; without either the child axis.
#[verifier::opaque]
pub open spec fn axis_spec(s: Seq<char>, p: int) -> (Axis, int) {
    let w = run(s, p, CharClass::Word);
    if at(s, p, '@') {
        (Axis::Attribute, p + 1)
    } else if w > p && at(s, w, ':') && at(s, w + 1, ':') {
        match axis_named(s.subrange(p, w)) {
            Some(axis) => (axis, skip(s, w + 2)),
            None => (Axis::Child, p),
        }
    } else {
        (Axis::Child, p)
    }
}

/// A step without predicates.
pub open spec fn plain_step(axis: Axis) -> StepV {
    StepV { axis, test: TestV::Node, preds: Seq::empty() }
}

/// A number as written: digits and points with at least one digit, and an
/// exponent.
#[verifier::opaque]
pub open spec fn number_literal(s: Seq<char>, p: int) -> Option<(ExprV, int)> {
    let w = run(s, p, CharClass::Number);
    if !(exists|i: int| p <= i < w && '0' <= #[trigger] s[i] <= '9') {
        None
    } else {
        let e = if at(s, w, 'e') || at(s, w, 'E') {
            run(s, w, CharClass::Exponent)
        } else {
            w
        };
        Some((ExprV::Num(s.subrange(p, e)), e))
    }
}

/// How a step starts: an abbreviation, or an axis and a node test, with the
/// position where it ends.
pub enum StepHead {
    Abbreviation(Axis, int),
    Test(Axis, TestV, int),
}

/// The start of a step: `..`, `.`, or an axis and a node test.
#[verifier::opaque]
pub open spec fn step_head(s: Seq<char>, p: int) -> Option<StepHead> {
    let q = skip(s, p);
    if at(s, q, '.') && at(s, q + 1, '.') {
        Some(StepHead::Abbreviation(Axis::Parent, q + 2))
    } else if at(s, q, '.') {
        Some(StepHead::Abbreviation(Axis::SelfAxis, q + 1))
    } else {
        let (axis, a) = axis_spec(s, q);
        match node_test(s, a) {
            None => None,
            Some((test, t)) => Some(StepHead::Test(axis, test, t)),
        }
    }
}

/// One step of a path: `..`, `.`, or an axis, a node test and predicates.
#[verifier::opaque]
pub open spec fn step(s: Seq<char>, p: int) -> Option<(StepV, int)>
    decreases rem(s, p), 50int,
{
    match step_head(s, p) {
        None => None,
        Some(StepHead::Abbreviation(axis, e)) => Some((plain_step(axis), e)),
        Some(StepHead::Test(axis, test, t)) => {
            let (preds, k) = predicates(s, from(p, t));
            Some((StepV { axis, test, preds }, k))
        },
    }
}

/// As many predicates as can be read.
#[verifier::opaque]
pub open spec fn predicates(s: Seq<char>, p: int) -> (Seq<ExprV>, int)
    decreases rem(s, p), 40int,
{
    match predicate(s, p) {
        None => (Seq::empty(), p),
        Some((e, k)) => if p < s.len() {
            let (rest, m) = predicates(s, from(p + 1, k));
            (seq![e] + rest, m)
        } else {
            (Seq::empty(), p)
        },
    }
}

/// A predicate: an expression in square brackets.
#[verifier::opaque]
pub open spec fn predicate(s: Seq<char>, p: int) -> Option<(ExprV, int)>
    decreases rem(s, p), 30int,
{
    let b = past(s, p);
    if !at(s, b, '[') {
        None
    } else {
        match or_expr(s, past(s, b + 1)) {
            None => None,
            Some((e, k)) => if at(s, skip(s, k), ']') {
                Some((e, skip(s, k) + 1))
            } else {
                None
            },
        }
    }
}

/// What stands before the next step of a path.
pub enum Joint {
    /// No further step; the path ends here.
    End(int),
    /// `/`, and the position after it.
    Slash(int),
    /// `//`, and the position after it.
    Slashes(int),
}

/// The joint at `p`. A `/` that nothing follows ends the path and is read.
#[verifier::opaque]
pub open spec fn joint(s: Seq<char>, p: int) -> Joint {
    if !at(s, p, '/') {
        Joint::End(p)
    } else if at(s, p + 1, '/') {
        Joint::Slashes(p + 2)
    } else if p + 1 >= s.len() || at(s, p + 1, '|') || at(s, p + 1, ')') {
        Joint::End(p + 1)
    } else {
        Joint::Slash(p + 1)
    }
}

/// Steps that continue a path, each after `/` or `//`.
#[verifier::opaque]
pub open spec fn continuation(s: Seq<char>, p: int) -> Option<(Seq<StepV>, int)>
    decreases rem(s, p), 60int,
{
    match joint(s, p) {
        Joint::End(e) => Some((Seq::empty(), e)),
        Joint::Slash(q) => if p >= s.len() {
            None
        } else {
            path_steps(s, from(p + 1, q))
        },
        Joint::Slashes(q) => if p >= s.len() {
            None
        } else {
            match path_steps(s, from(p + 1, q)) {
                None => None,
                Some((rest, m)) => Some((seq![plain_step(Axis::DescendantOrSelf)] + rest, m)),
            }
        },
    }
}

/// A first step and the steps that continue it.
#[verifier::opaque]
pub open spec fn path_steps(s: Seq<char>, p: int) -> Option<(Seq<StepV>, int)>
    decreases rem(s, p), 65int,
{
    match step(s, p) {
        None => None,
        Some((st, k)) => match continuation(s, from(p, k)) {
            None => None,
            Some((rest, m)) => Some((seq![st] + rest, m)),
        },
    }
}

/// A location path, absolute when it starts with `/`.
#[verifier::opaque]
pub open spec fn location_path(s: Seq<char>, p: int) -> Option<(ExprV, int)>
    decreases rem(s, p), 70int,
{
    if !at(s, p, '/') {
        match path_steps(s, p) {
            None => None,
            Some((steps, k)) => Some((ExprV::Path(false, steps), k)),
        }
    } else if at(s, p + 1, '/') {
        match path_steps(s, p + 2) {
            None => None,
            Some((steps, k)) => Some(
                (ExprV::Path(true, seq![plain_step(Axis::DescendantOrSelf)] + steps), k),
            ),
        }
    } else if p + 1 >= s.len() || at(s, p + 1, '|') || at(s, p + 1, ')') || at(s, p + 1, ']') {
        Some((ExprV::Path(true, Seq::empty()), p + 1))
    } else {
        match path_steps(s, p + 1) {
            None => None,
            Some((steps, k)) => Some((ExprV::Path(true, steps), k)),
        }
    }
}

/// What a separated list is made of.
#[derive(Clone, Copy)]
pub enum Element {
    Path,
    Primary,
    Expr,
}

/// One element of a separated list.
#[verifier::opaque]
pub open spec fn element(s: Seq<char>, p: int, kind: Element) -> Option<(ExprV, int)>
    decreases rem(s, p), 200int,
{
    match kind {
        Element::Path => location_path(s, p),
        Element::Primary => primary(s, p),
        Element::Expr => or_expr(s, p),
    }
}

/// The rest of a separated list: as many separators followed by an element as
/// can be read.
#[verifier::opaque]
pub open spec fn list_rest(s: Seq<char>, p: int, separator: char, kind: Element) -> (
    Seq<ExprV>,
    int,
)
    decreases rem(s, p), 60int,
{
    let b = past(s, p);
    if !at(s, b, separator) {
        (Seq::empty(), p)
    } else {
        match element(s, past(s, b + 1), kind) {
            None => (Seq::empty(), p),
            Some((e, k)) => {
                let (rest, m) = list_rest(s, from(b + 1, k), separator, kind);
                (seq![e] + rest, m)
            },
        }
    }
}

/// A list as an expression: its only element, or the union of its elements.
pub open spec fn union_of(first: ExprV, rest: Seq<ExprV>) -> ExprV {
    if rest.len() == 0 {
        first
    } else {
        ExprV::Union(seq![first] + rest)
    }
}

/// Whether a word names a node type rather than a function.
pub open spec fn is_node_type(name: Seq<char>) -> bool {
    name == "text"@ || name == "node"@ || name == "comment"@ || name == "processing-instruction"@
}

/// Where the name of a function call ends, and where its arguments start.
#[verifier::opaque]
pub open spec fn function_head(s: Seq<char>, p: int) -> Option<(int, int)> {
    let w = run(s, p, CharClass::Word);
    let open = skip(s, w);
    if !(0 <= p < s.len() && char_is_alphabetic(s[p])) || w <= p || is_node_type(
        s.subrange(p, w),
    ) || !at(s, open, '(') {
        None
    } else {
        Some((w, skip(s, open + 1)))
    }
}

/// A function call.
#[verifier::opaque]
pub open spec fn function_call(s: Seq<char>, p: int) -> Option<(ExprV, int)>
    decreases rem(s, p), 75int,
{
    match function_head(s, p) {
        None => None,
        Some((w, i)) => if at(s, i, ')') {
            Some((ExprV::Call(s.subrange(p, w), Seq::empty()), i + 1))
        } else if p >= s.len() {
            None
        } else {
            match or_expr(s, from(p + 1, i)) {
                None => None,
                Some((first, k)) => {
                    let (rest, m) = list_rest(s, from(p + 1, k), ',', Element::Expr);
                    if at(s, skip(s, m), ')') {
                        Some(
                            (
                                ExprV::Call(s.subrange(p, w), seq![first] + rest),
                                skip(s, m) + 1,
                            ),
                        )
                    } else {
                        None
                    }
                },
            }
        },
    }
}

/// An expression, or a union of expressions, in parentheses.
#[verifier::opaque]
pub open spec fn parenthesized(s: Seq<char>, p: int) -> Option<(ExprV, int)>
    decreases rem(s, p), 75int,
{
    if !at(s, p, '(') {
        None
    } else {
        match or_expr(s, past(s, p + 1)) {
            None => None,
            Some((first, k)) => {
                let (rest, m) = list_rest(s, from(p + 1, k), '|', Element::Expr);
                if at(s, skip(s, m), ')') {
                    Some((union_of(first, rest), skip(s, m) + 1))
                } else {
                    None
                }
            },
        }
    }
}

/// An expression that has been read up to `k`, with the path steps and predicates that
/// follow it.
#[verifier::opaque]
pub open spec fn with_rest(s: Seq<char>, p: int, e: ExprV, k: int) -> Option<(ExprV, int)>
    decreases rem(s, p), 78int,
{
    if p >= s.len() {
        Some((e, k))
    } else {
        filter_rest(s, from(p + 1, k), e)
    }
}

/// A primary expression: a function call or a parenthesized expression, each with
/// path steps or predicates, a string, a number or a location path.
#[verifier::opaque]
pub open spec fn primary(s: Seq<char>, p: int) -> Option<(ExprV, int)>
    decreases rem(s, p), 80int,
{
    let q = past(s, p);
    match function_call(s, q) {
        Some((e, k)) => with_rest(s, q, e, k),
        None => match parenthesized(s, q) {
            Some((e, k)) => with_rest(s, q, e, k),
            None => match quoted(s, q) {
                Some((t, k)) => Some((ExprV::Str(t), k)),
                None => match number_literal(s, q) {
                    Some(r) => Some(r),
                    None => location_path(s, q),
                },
            },
        },
    }
}

/// Whether an expression can be an operand of a union.
pub open spec fn is_path(e: ExprV) -> bool {
    e is Path || e is Call || e is FilterPath || e is GlobalFilter || e is Union
}

/// A primary expression, or a union of them.
#[verifier::opaque]
pub open spec fn union_path(s: Seq<char>, p: int) -> Option<(ExprV, int)>
    decreases rem(s, p), 90int,
{
    match primary(s, p) {
        None => None,
        Some((first, k)) => if is_path(first) {
            let (rest, m) = list_rest(s, from(p, k), '|', Element::Primary);
            Some((union_of(first, rest), m))
        } else {
            Some((first, k))
        },
    }
}

/// Any number of minus signs before a union.
#[verifier::opaque]
pub open spec fn unary(s: Seq<char>, p: int) -> Option<(ExprV, int)>
    decreases rem(s, p), 100int,
{
    let q = past(s, p);
    if at(s, q, '-') {
        match unary(s, q + 1) {
            None => None,
            Some((e, k)) => Some((ExprV::Minus(Box::new(e)), k)),
        }
    } else {
        union_path(s, q)
    }
}

/// The left-associative operator levels, from the tightest.
#[derive(Clone, Copy, PartialEq, Eq, Structural)]
pub enum Level {
    Multiplicative,
    Additive,
    Relational,
    Equality,
}

/// Whether the character at `p` exists and cannot continue a name.
pub open spec fn ends_word(s: Seq<char>, p: int) -> bool {
    0 <= p < s.len() && !char_is_alphanumeric(s[p]) && s[p] != '-' && s[p] != '_'
}

/// The operator of a level that stands at `p`, with its length.
#[verifier::opaque]
pub open spec fn operator(s: Seq<char>, p: int, level: Level) -> Option<(BinaryOp, int)> {
    match level {
        Level::Multiplicative => if at(s, p, '*') {
            Some((BinaryOp::Mul, p + 1))
        } else if word_at(s, p, "div"@) && ends_word(s, p + 3) {
            Some((BinaryOp::Div, p + 3))
        } else if word_at(s, p, "mod"@) && ends_word(s, p + 3) {
            Some((BinaryOp::Mod, p + 3))
        } else {
            None
        },
        Level::Additive => if at(s, p, '+') {
            Some((BinaryOp::Add, p + 1))
        } else if at(s, p, '-') {
            Some((BinaryOp::Sub, p + 1))
        } else {
            None
        },
        Level::Relational => if at(s, p, '<') && at(s, p + 1, '=') {
            Some((BinaryOp::Lte, p + 2))
        } else if at(s, p, '>') && at(s, p + 1, '=') {
            Some((BinaryOp::Gte, p + 2))
        } else if at(s, p, '<') {
            Some((BinaryOp::Lt, p + 1))
        } else if at(s, p, '>') {
            Some((BinaryOp::Gt, p + 1))
        } else {
            None
        },
        Level::Equality => if at(s, p, '!') && at(s, p + 1, '=') {
            Some((BinaryOp::Neq, p + 2))
        } else if at(s, p, '=') {
            Some((BinaryOp::Eq, p + 1))
        } else {
            None
        },
    }
}

pub open spec fn level_rank(level: Level) -> int {
    match level {
        Level::Multiplicative => 1,
        Level::Additive => 2,
        Level::Relational => 3,
        Level::Equality => 4,
    }
}

/// An operand of a level: an expression of the next tighter level.
#[verifier::opaque]
pub open spec fn operand(s: Seq<char>, p: int, level: Level) -> Option<(ExprV, int)>
    decreases rem(s, p), 105 + 10 * level_rank(level),
{
    match level {
        Level::Multiplicative => unary(s, p),
        Level::Additive => chain(s, p, Level::Multiplicative),
        Level::Relational => chain(s, p, Level::Additive),
        Level::Equality => chain(s, p, Level::Relational),
    }
}

/// Operands of a level joined by its operators.
#[verifier::opaque]
pub open spec fn chain(s: Seq<char>, p: int, level: Level) -> Option<(ExprV, int)>
    decreases rem(s, p), 110 + 10 * level_rank(level),
{
    match operand(s, p, level) {
        None => None,
        Some((left, k)) => chain_rest(s, from(p, k), level, left),
    }
}

/// What follows a left operand: operators of the level with their right
/// operands, grouped to the left.
#[verifier::opaque]
pub open spec fn chain_rest(s: Seq<char>, p: int, level: Level, left: ExprV) -> Option<
    (ExprV, int),
>
    decreases rem(s, p), 20int,
{
    let b = past(s, p);
    match operator(s, b, level) {
        None => Some((left, p)),
        Some((op, o)) => if b >= s.len() {
            None
        } else {
            match operand(s, past(s, from(b + 1, o)), level) {
                None => None,
                Some((right, k)) => chain_rest(
                    s,
                    from(b + 1, k),
                    level,
                    ExprV::Binary(Box::new(left), op, Box::new(right)),
                ),
            }
        },
    }
}

/// Whether a word stands at `p` and white space after it.
pub open spec fn word_then_white(s: Seq<char>, p: int, word: Seq<char>) -> bool {
    word_at(s, p, word) && p + word.len() < s.len() && is_white(s[p + word.len()])
}

/// Equality expressions joined by `and`, grouped to the right. Blanks after the
/// expression are read too.
#[verifier::opaque]
pub open spec fn and_expr(s: Seq<char>, p: int) -> Option<(ExprV, int)>
    decreases rem(s, p), 160int,
{
    match chain(s, p, Level::Equality) {
        None => None,
        Some((left, k)) => {
            let i = past(s, from(p, k));
            if word_then_white(s, i, "and"@) {
                match and_expr(s, past(s, i + 3)) {
                    None => None,
                    Some((right, m)) => Some(
                        (ExprV::Binary(Box::new(left), BinaryOp::And, Box::new(right)), m),
                    ),
                }
            } else {
                Some((left, i))
            }
        },
    }
}

/// An expression: and-expressions joined by `or`, grouped to the right. Blanks
/// after the expression are read too.
#[verifier::opaque]
pub open spec fn or_expr(s: Seq<char>, p: int) -> Option<(ExprV, int)>
    decreases rem(s, p), 170int,
{
    match and_expr(s, p) {
        None => None,
        Some((left, k)) => {
            let i = past(s, from(p, k));
            if word_then_white(s, i, "or"@) {
                match or_expr(s, past(s, i + 2)) {
                    None => None,
                    Some((right, m)) => Some(
                        (ExprV::Binary(Box::new(left), BinaryOp::Or, Box::new(right)), m),
                    ),
                }
            } else {
                Some((left, i))
            }
        },
    }
}

/// An expression with predicates that filter its whole result.
pub open spec fn filtered(e: ExprV, preds: Seq<ExprV>) -> ExprV {
    if preds.len() == 0 {
        e
    } else {
        ExprV::GlobalFilter(Box::new(e), preds)
    }
}

/// A function call followed by path steps or by predicates.
#[verifier::opaque]
pub open spec fn function_path(s: Seq<char>, p: int) -> Option<(ExprV, int)>
    decreases rem(s, p), 180int,
{
    match function_call(s, p) {
        None => None,
        Some((func, k)) => if at(s, k, '/') {
            match continuation(s, from(p, k)) {
                None => None,
                Some((steps, m)) => if steps.len() == 0 {
                    Some((func, m))
                } else {
                    Some((ExprV::FilterPath(Box::new(func), steps), m))
                },
            }
        } else {
            let (preds, m) = predicates(s, from(p, k));
            Some((filtered(func, preds), m))
        },
    }
}

/// What may follow a query in parentheses: path steps, predicates, or both.
#[verifier::opaque]
pub open spec fn filter_rest(s: Seq<char>, p: int, inner: ExprV) -> Option<(ExprV, int)>
    decreases rem(s, p), 185int,
{
    if at(s, p, '/') {
        match continuation(s, p) {
            None => None,
            Some((steps, m)) => if steps.len() == 0 {
                Some((inner, m))
            } else {
                let (preds, f) = predicates(s, from(p, m));
                Some((filtered(ExprV::FilterPath(Box::new(inner), steps), preds), f))
            },
        }
    } else {
        let (preds, f) = predicates(s, p);
        Some((filtered(inner, preds), f))
    }
}

/// A query in parentheses and what follows it.
#[verifier::opaque]
pub open spec fn parenthesized_filter(s: Seq<char>, p: int) -> Option<(ExprV, int)>
    decreases rem(s, p), 190int,
{
    if !at(s, p, '(') {
        None
    } else {
        match xpath_expr(s, past(s, p + 1)) {
            None => None,
            Some((inner, k)) => {
                let c = past(s, from(p + 1, k));
                if at(s, c, ')') {
                    filter_rest(s, c + 1, inner)
                } else {
                    None
                }
            },
        }
    }
}

/// A query: a parenthesized query, a function call, or a union of location
/// paths.
#[verifier::opaque]
pub open spec fn xpath_expr(s: Seq<char>, p: int) -> Option<(ExprV, int)>
    decreases rem(s, p), 210int,
{
    match parenthesized_filter(s, p) {
        Some(r) => Some(r),
        None => match function_path(s, p) {
            Some(r) => Some(r),
            None => match location_path(s, p) {
                None => None,
                Some((first, k)) => {
                    let (rest, m) = list_rest(s, from(p, k), '|', Element::Path);
                    Some((union_of(first, rest), m))
                },
            },
        },
    }
}

} // verus!
