//! XPath 1.0 abstract syntax tree.

use vstd::prelude::*;

verus! {

/// The 13 XPath 1.0 axes, defining traversal direction from a context node.
#[derive(Debug, Clone, Copy, PartialEq, Eq, Structural)]
pub enum Axis {
    /// Children of the context node.
    Child,
    /// Descendants of the context node.
    Descendant,
    /// The parent of the context node.
    Parent,
    /// Ancestors, up to and with the document root.
    Ancestor,
    /// Siblings after the context node.
    FollowingSibling,
    /// Siblings before the context node.
    PrecedingSibling,
    /// Elements after the end of the context node.
    Following,
    /// Elements before the context node that do not enclose it.
    Preceding,
    /// The context node itself.
    SelfAxis,
    /// The context node and its descendants.
    DescendantOrSelf,
    /// The context node and its ancestors.
    AncestorOrSelf,
    /// Attributes of the context element.
    Attribute,
    /// Namespaces in scope at the context element.
    Namespace,
}

/// Binary operators in XPath 1.0 expressions.
#[derive(Debug, Clone, Copy, PartialEq, Eq, Structural)]
pub enum BinaryOp {
    Or,
    And,
    Eq,
    Neq,
    Lt,
    Gt,
    Lte,
    Gte,
    Add,
    Sub,
    Mul,
    Div,
    Mod,
}

/// What to match at each step.
#[derive(Debug, PartialEq)]
pub enum NodeTest {
    /// Match a specific tag name.
    Name(String),
    /// Match any element: `*`
    Wildcard,
    /// Match text nodes: `text()`
    Text,
    /// Match any node: `node()`
    Node,
    /// Match comment nodes: `comment()`
    Comment,
    /// Match processing instructions: `processing-instruction()`
    PI,
    /// Match processing instructions with a specific target name.
    PIName(String),
    /// Namespace-prefixed name: `prefix:name`
    NamespacedName(String, String),
}

/// One step of a path: an axis, a node test and predicates.
#[derive(Debug, PartialEq)]
pub struct Step {
    pub axis: Axis,
    pub node_test: NodeTest,
    pub predicates: Vec<XPathExpr>,
}

/// A location path like `/a/b/c` or `a/b`.
#[derive(Debug, PartialEq)]
pub struct LocationPath {
    /// True if the path starts from the root.
    pub absolute: bool,
    pub steps: Vec<Step>,
}

/// A complete XPath 1.0 expression.
#[derive(Debug, PartialEq)]
pub enum XPathExpr {
    /// A location path like `/a/b/c` or `//a/b`.
    LocationPath(LocationPath),
    /// A string literal: `'hello'` or `"hello"`.
    StringLiteral(String),
    /// A numeric literal such as `42` or `3.14`, as written.
    NumberLiteral(String),
    /// A function call: `contains(., 'text')`, `count(//item)`.
    FunctionCall(String, Vec<XPathExpr>),
    /// A binary operator expression: `a or b`, `a = b`, `a + b`.
    BinaryOp(Box<XPathExpr>, BinaryOp, Box<XPathExpr>),
    /// Unary negation: `-number`.
    UnaryMinus(Box<XPathExpr>),
    /// Union of node sets: `a | b`.
    Union(Vec<XPathExpr>),
    /// A primary expression followed by path steps: `id('x')/p[1]`.
    FilterPath(Box<XPathExpr>, Vec<Step>),
    /// `(expr)[pred]`: evaluate the inner expression, then filter the result.
    GlobalFilter(Box<XPathExpr>, Vec<XPathExpr>),
}

/// The mathematical value of a `NodeTest`.
pub enum TestV {
    Name(Seq<char>),
    Wildcard,
    Text,
    Node,
    Comment,
    PI,
    PIName(Seq<char>),
    NamespacedName(Seq<char>, Seq<char>),
}

/// The mathematical value of a `Step`.
pub struct StepV {
    pub axis: Axis,
    pub test: TestV,
    pub preds: Seq<ExprV>,
}

/// The mathematical value of an `XPathExpr`. `Path` holds whether the path is
/// absolute, and its steps.
pub enum ExprV {
    Path(bool, Seq<StepV>),
    Str(Seq<char>),
    Num(Seq<char>),
    Call(Seq<char>, Seq<ExprV>),
    Binary(Box<ExprV>, BinaryOp, Box<ExprV>),
    Minus(Box<ExprV>),
    Union(Seq<ExprV>),
    FilterPath(Box<ExprV>, Seq<StepV>),
    GlobalFilter(Box<ExprV>, Seq<ExprV>),
}

impl View for NodeTest {
    type V = TestV;

    open spec fn view(&self) -> TestV {
        match self {
            NodeTest::Name(n) => TestV::Name(n@),
            NodeTest::Wildcard => TestV::Wildcard,
            NodeTest::Text => TestV::Text,
            NodeTest::Node => TestV::Node,
            NodeTest::Comment => TestV::Comment,
            NodeTest::PI => TestV::PI,
            NodeTest::PIName(n) => TestV::PIName(n@),
            NodeTest::NamespacedName(p, n) => TestV::NamespacedName(p@, n@),
        }
    }
}

/// The value of an expression.
#[verifier::opaque]
pub open spec fn expr_v(e: XPathExpr) -> ExprV
    decreases e,
{
    match e {
        XPathExpr::LocationPath(p) => ExprV::Path(p.absolute, steps_v(p.steps@)),
        XPathExpr::StringLiteral(t) => ExprV::Str(t@),
        XPathExpr::NumberLiteral(t) => ExprV::Num(t@),
        XPathExpr::FunctionCall(n, args) => ExprV::Call(n@, exprs_v(args@)),
        XPathExpr::BinaryOp(l, op, r) => ExprV::Binary(
            Box::new(expr_v(*l)),
            op,
            Box::new(expr_v(*r)),
        ),
        XPathExpr::UnaryMinus(x) => ExprV::Minus(Box::new(expr_v(*x))),
        XPathExpr::Union(xs) => ExprV::Union(exprs_v(xs@)),
        XPathExpr::FilterPath(x, steps) => ExprV::FilterPath(Box::new(expr_v(*x)), steps_v(steps@)),
        XPathExpr::GlobalFilter(x, preds) => ExprV::GlobalFilter(
            Box::new(expr_v(*x)),
            exprs_v(preds@),
        ),
    }
}

/// The values of a list of expressions.
#[verifier::opaque]
pub open spec fn exprs_v(es: Seq<XPathExpr>) -> Seq<ExprV>
    decreases es,
{
    Seq::new(
        es.len(),
        |i: int|
            if 0 <= i < es.len() {
                expr_v(es[i])
            } else {
                arbitrary()
            },
    )
}

/// The value of a step.
#[verifier::opaque]
pub open spec fn step_v(s: Step) -> StepV
    decreases s,
{
    StepV { axis: s.axis, test: s.node_test@, preds: exprs_v(s.predicates@) }
}

/// The values of a list of steps.
#[verifier::opaque]
pub open spec fn steps_v(ss: Seq<Step>) -> Seq<StepV>
    decreases ss,
{
    Seq::new(
        ss.len(),
        |i: int|
            if 0 <= i < ss.len() {
                step_v(ss[i])
            } else {
                arbitrary()
            },
    )
}

impl View for XPathExpr {
    type V = ExprV;

    open spec fn view(&self) -> ExprV {
        expr_v(*self)
    }
}

impl View for Step {
    type V = StepV;

    open spec fn view(&self) -> StepV {
        step_v(*self)
    }
}

impl View for LocationPath {
    type V = ExprV;

    open spec fn view(&self) -> ExprV {
        ExprV::Path(self.absolute, steps_v(self.steps@))
    }
}

/// The value of an expression in terms of the values of its parts.
pub proof fn lemma_expr_v(e: XPathExpr)
    ensures
        expr_v(e) == (match e {
            XPathExpr::LocationPath(p) => ExprV::Path(p.absolute, steps_v(p.steps@)),
            XPathExpr::StringLiteral(t) => ExprV::Str(t@),
            XPathExpr::NumberLiteral(t) => ExprV::Num(t@),
            XPathExpr::FunctionCall(n, args) => ExprV::Call(n@, exprs_v(args@)),
            XPathExpr::BinaryOp(l, op, r) => ExprV::Binary(
                Box::new(expr_v(*l)),
                op,
                Box::new(expr_v(*r)),
            ),
            XPathExpr::UnaryMinus(x) => ExprV::Minus(Box::new(expr_v(*x))),
            XPathExpr::Union(xs) => ExprV::Union(exprs_v(xs@)),
            XPathExpr::FilterPath(x, steps) => ExprV::FilterPath(
                Box::new(expr_v(*x)),
                steps_v(steps@),
            ),
            XPathExpr::GlobalFilter(x, preds) => ExprV::GlobalFilter(
                Box::new(expr_v(*x)),
                exprs_v(preds@),
            ),
        }),
{
    reveal(expr_v);
    reveal(exprs_v);
    reveal(steps_v);
}

/// The value of a step in terms of the values of its parts.
pub proof fn lemma_step_v(s: Step)
    ensures
        step_v(s) == (StepV { axis: s.axis, test: s.node_test@, preds: exprs_v(s.predicates@) }),
{
    reveal(step_v);
    reveal(exprs_v);
}

/// The values of a list of expressions, one for each.
pub broadcast proof fn lemma_exprs_v(es: Seq<XPathExpr>)
    ensures
        #![trigger exprs_v(es)]
        exprs_v(es).len() == es.len(),
        forall|i: int| 0 <= i < es.len() ==> #[trigger] exprs_v(es)[i] == expr_v(es[i]),
{
    reveal(exprs_v);
    reveal(expr_v);
}

/// The values of a list of steps, one for each.
pub broadcast proof fn lemma_steps_v(ss: Seq<Step>)
    ensures
        #![trigger steps_v(ss)]
        steps_v(ss).len() == ss.len(),
        forall|i: int| 0 <= i < ss.len() ==> #[trigger] steps_v(ss)[i] == step_v(ss[i]),
{
    reveal(steps_v);
    reveal(step_v);
}

/// Appending an expression appends its value.
pub proof fn lemma_exprs_push(es: Seq<XPathExpr>, e: XPathExpr)
    ensures
        exprs_v(es.push(e)) == exprs_v(es).push(expr_v(e)),
{
    broadcast use lemma_exprs_v;

    assert(exprs_v(es.push(e)) =~= exprs_v(es).push(expr_v(e)));
}

/// The values of node tests.
pub proof fn lemma_tests_v(name: String, local: String)
    ensures
        NodeTest::Name(name)@ == TestV::Name(name@),
        NodeTest::Wildcard@ == TestV::Wildcard,
        NodeTest::Text@ == TestV::Text,
        NodeTest::Node@ == TestV::Node,
        NodeTest::Comment@ == TestV::Comment,
        NodeTest::PI@ == TestV::PI,
        NodeTest::PIName(name)@ == TestV::PIName(name@),
        NodeTest::NamespacedName(name, local)@ == TestV::NamespacedName(name@, local@),
{
}

} // verus!
