//! XPath 1.0: syntax trees, parsing and evaluation.

pub mod analyze;
pub mod ast;
pub mod axes;
pub mod axis_laws;
pub mod axis_pair_laws;
pub mod chars;
pub mod compiled;
pub mod eval;
pub mod function_laws;
pub mod fused_filter_laws;
pub mod fusion_laws;
pub mod grammar;
pub mod grammar_unfold;
pub mod laws;
pub mod lazy_laws;
pub mod lazy_path_laws;
pub mod lazy_text_laws;
pub mod name_laws;
pub mod namespaces;
pub mod nodes;
pub mod numbers;
pub mod parser;
pub mod path_laws;
pub mod reading_laws;
pub mod scope_laws;
pub mod semantics;
pub mod semantics_unfold;
pub mod simd_pred;
pub mod step_laws;
pub mod strings;
pub mod text_value_laws;
pub mod union_laws;
pub mod value_laws;
pub mod values;
pub mod writing;
pub mod writing_laws;

pub use ast::XPathExpr;
pub use compiled::{CompiledXPath, XPathResult};
pub use eval::{eval_standalone_expr, eval_text, evaluate, evaluate_from_context, StandaloneResult};
pub use nodes::XPathNode;
pub use parser::{parse_xpath, parse_xpath_predicate_expr};
