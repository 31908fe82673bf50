//! Compiled expressions, and queries on an index.

use vstd::prelude::*;
use crate::error::SimdXmlError;
use crate::index::XmlIndex;
use crate::xpath::ast::{expr_v, ExprV, XPathExpr};
use crate::xpath::eval::{
    eval_expr_with_doc, eval_text, evaluate, has_value, selects, selects_texts, StandaloneResult,
};
use crate::xpath::nodes::{nodes_ok, XPathNode, DOC_ROOT};
use crate::xpath::numbers::{answers, is_arithmetic, Number, NumberOp, NumberReply, Oracle};
use crate::xpath::parser::{parse_xpath, parsed_xpath};
use crate::xpath::semantics::query;

verus! {

/// A compiled XPath expression, reusable across documents.
pub struct CompiledXPath {
    pub expr: XPathExpr,
}

impl CompiledXPath {
    /// Compiles an XPath expression. Fails exactly when the text is none.
    pub fn compile(xpath: &str) -> (r: std::result::Result<Self, SimdXmlError>)
        ensures
            match r {
                Ok(c) => parsed_xpath(xpath@) == Ok::<ExprV, Seq<char>>(expr_v(c.expr)),
                Err(e) => e matches SimdXmlError::XPathParseError(m) && parsed_xpath(xpath@)
                    == Err::<ExprV, Seq<char>>(m@),
            },
    {
        match parse_xpath(xpath) {
            Ok(expr) => Ok(CompiledXPath { expr }),
            Err(e) => Err(e),
        }
    }

    /// Evaluates and hands out the selected nodes.
    pub fn eval<F: Fn(NumberOp) -> NumberReply>(&self, index: &XmlIndex, f: &F) -> (r:
        std::result::Result<Vec<XPathNode>, SimdXmlError>)
        requires
            index.wf(),
            is_arithmetic(*f),
        ensures
            selects(*index, r, query(*index, answers(*f), expr_v(self.expr))),
    {
        evaluate(index, &self.expr, f)
    }

    /// Evaluates and hands out the texts of the selected nodes.
    pub fn eval_text<'a, F: Fn(NumberOp) -> NumberReply>(&self, index: &XmlIndex<'a>, f: &F) -> (r:
        std::result::Result<Vec<&'a str>, SimdXmlError>)
        requires
            index.wf(),
            is_arithmetic(*f),
        ensures
            selects_texts(*index, r, query(*index, answers(*f), expr_v(self.expr))),
    {
        eval_text(index, &self.expr, f)
    }
}

/// The result of an expression: a selection of nodes, or a value.
pub enum XPathResult {
    NodeSet(Vec<XPathNode>),
    String(String),
    Number(Number),
    Boolean(bool),
}

/// Whether a result is that of the text of an expression: the nodes it selects
/// when it is a query, else its value at the document root.
pub open spec fn results_in(
    index: XmlIndex,
    o: Oracle,
    text: Seq<char>,
    r: std::result::Result<XPathResult, SimdXmlError>,
) -> bool {
    match parsed_xpath(text) {
        Err(message) => r matches Err(SimdXmlError::XPathParseError(m)) && m@ == message,
        Ok(e) => match query(index, o, e) {
            Some(nodes) => r matches Ok(XPathResult::NodeSet(found)) && found@ == nodes
                && nodes_ok(index, nodes),
            None => {
                let root = XPathNode::Element(DOC_ROOT);
                match r {
                    Ok(XPathResult::NodeSet(_)) => false,
                    Ok(XPathResult::String(t)) => has_value(
                        index,
                        o,
                        Ok(StandaloneResult::String(t)),
                        text,
                        root,
                    ),
                    Ok(XPathResult::Number(n)) => has_value(
                        index,
                        o,
                        Ok(StandaloneResult::Number(n)),
                        text,
                        root,
                    ),
                    Ok(XPathResult::Boolean(b)) => has_value(
                        index,
                        o,
                        Ok(StandaloneResult::Boolean(b)),
                        text,
                        root,
                    ),
                    Err(err) => has_value(index, o, Err(err), text, root),
                }
            },
        },
    }
}

impl<'a> XmlIndex<'a> {
    /// Evaluates any expression: a query gives nodes, any other expression its
    /// value.
    pub fn eval<F: Fn(NumberOp) -> NumberReply>(&self, xpath_expr: &str, f: &F) -> (r:
        std::result::Result<XPathResult, SimdXmlError>)
        requires
            self.wf(),
            is_arithmetic(*f),
        ensures
            results_in(*self, answers(*f), xpath_expr@, r),
    {
        let expr = match parse_xpath(xpath_expr) {
            Ok(expr) => expr,
            Err(e) => {
                return Err(e);
            },
        };
        match evaluate(self, &expr, f) {
            Ok(nodes) => Ok(XPathResult::NodeSet(nodes)),
            Err(_) => match eval_expr_with_doc(self, xpath_expr, f) {
                Ok(StandaloneResult::String(t)) => Ok(XPathResult::String(t)),
                Ok(StandaloneResult::Number(n)) => Ok(XPathResult::Number(n)),
                Ok(StandaloneResult::Boolean(b)) => Ok(XPathResult::Boolean(b)),
                Err(e) => Err(e),
            },
        }
    }

    /// Evaluates an XPath expression and hands out the texts of the selected
    /// nodes.
    pub fn xpath_text<F: Fn(NumberOp) -> NumberReply>(&self, xpath_expr: &str, f: &F) -> (r:
        std::result::Result<Vec<&'a str>, SimdXmlError>)
        requires
            self.wf(),
            is_arithmetic(*f),
        ensures
            match parsed_xpath(xpath_expr@) {
                Ok(e) => selects_texts(*self, r, query(*self, answers(*f), e)),
                Err(message) => r matches Err(SimdXmlError::XPathParseError(m)) && m@ == message,
            },
    {
        match parse_xpath(xpath_expr) {
            Ok(expr) => eval_text(self, &expr, f),
            Err(e) => Err(e),
        }
    }

    /// Evaluates an XPath expression and hands out the selected nodes.
    pub fn xpath<F: Fn(NumberOp) -> NumberReply>(&self, xpath_expr: &str, f: &F) -> (r:
        std::result::Result<Vec<XPathNode>, SimdXmlError>)
        requires
            self.wf(),
            is_arithmetic(*f),
        ensures
            match parsed_xpath(xpath_expr@) {
                Ok(e) => selects(*self, r, query(*self, answers(*f), e)),
                Err(message) => r matches Err(SimdXmlError::XPathParseError(m)) && m@ == message,
            },
    {
        match parse_xpath(xpath_expr) {
            Ok(expr) => evaluate(self, &expr, f),
            Err(e) => Err(e),
        }
    }
}

} // verus!
