//! Parsing XPath expressions.

use simdxml::xpath::ast::{Axis, BinaryOp, NodeTest, XPathExpr};
use simdxml::xpath::parse_xpath;

#[test]
fn test_simple_path() {
    let expr = parse_xpath("/root/child").unwrap();
    match expr {
        XPathExpr::LocationPath(path) => {
            assert!(path.absolute);
            assert_eq!(path.steps.len(), 2);
            assert_eq!(path.steps[0].node_test, NodeTest::Name("root".into()));
            assert_eq!(path.steps[1].node_test, NodeTest::Name("child".into()));
        }
        _ => panic!("Expected LocationPath"),
    }
}

#[test]
fn parser_test_descendant() {
    let expr = parse_xpath("//claim").unwrap();
    match expr {
        XPathExpr::LocationPath(path) => {
            assert!(path.absolute);
            // First step is descendant-or-self::node()
            assert_eq!(path.steps[0].axis, Axis::DescendantOrSelf);
            assert_eq!(path.steps[1].node_test, NodeTest::Name("claim".into()));
        }
        _ => panic!("Expected LocationPath"),
    }
}

#[test]
fn parser_test_text_node() {
    let expr = parse_xpath("//claim/text()").unwrap();
    match expr {
        XPathExpr::LocationPath(path) => {
            let last = path.steps.last().unwrap();
            assert_eq!(last.node_test, NodeTest::Text);
        }
        _ => panic!("Expected LocationPath"),
    }
}

#[test]
fn test_attribute() {
    let expr = parse_xpath("/root/@lang").unwrap();
    match expr {
        XPathExpr::LocationPath(path) => {
            let last = path.steps.last().unwrap();
            assert_eq!(last.axis, Axis::Attribute);
            assert_eq!(last.node_test, NodeTest::Name("lang".into()));
        }
        _ => panic!("Expected LocationPath"),
    }
}

#[test]
fn parser_test_wildcard() {
    let expr = parse_xpath("/root/*").unwrap();
    match expr {
        XPathExpr::LocationPath(path) => {
            let last = path.steps.last().unwrap();
            assert_eq!(last.node_test, NodeTest::Wildcard);
        }
        _ => panic!("Expected LocationPath"),
    }
}

#[test]
fn test_parent_axis() {
    let expr = parse_xpath("..").unwrap();
    match expr {
        XPathExpr::LocationPath(path) => {
            assert_eq!(path.steps[0].axis, Axis::Parent);
        }
        _ => panic!("Expected LocationPath"),
    }
}

#[test]
fn test_explicit_axis() {
    let expr = parse_xpath("ancestor::div").unwrap();
    match expr {
        XPathExpr::LocationPath(path) => {
            assert_eq!(path.steps[0].axis, Axis::Ancestor);
            assert_eq!(path.steps[0].node_test, NodeTest::Name("div".into()));
        }
        _ => panic!("Expected LocationPath"),
    }
}

#[test]
fn parser_test_position_predicate() {
    let expr = parse_xpath("//claim[1]").unwrap();
    match expr {
        XPathExpr::LocationPath(path) => {
            let claim_step = &path.steps[1];
            assert_eq!(claim_step.predicates.len(), 1);
            assert_eq!(claim_step.predicates[0], XPathExpr::NumberLiteral("1".into()));
        }
        _ => panic!("Expected LocationPath"),
    }
}

#[test]
fn test_function_predicate() {
    let expr = parse_xpath("//p[contains(., 'semiconductor')]").unwrap();
    match expr {
        XPathExpr::LocationPath(path) => {
            let p_step = &path.steps[1];
            assert_eq!(p_step.predicates.len(), 1);
            match &p_step.predicates[0] {
                XPathExpr::FunctionCall(name, args) => {
                    assert_eq!(name, "contains");
                    assert_eq!(args.len(), 2);
                }
                other => panic!("Expected FunctionCall, got {:?}", other),
            }
        }
        _ => panic!("Expected LocationPath"),
    }
}

#[test]
fn test_attribute_predicate() {
    let expr = parse_xpath("//claim[@type='independent']").unwrap();
    match expr {
        XPathExpr::LocationPath(path) => {
            let claim_step = &path.steps[1];
            assert_eq!(claim_step.predicates.len(), 1);
            match &claim_step.predicates[0] {
                XPathExpr::BinaryOp(left, BinaryOp::Eq, right) => {
                    // left should be @type location path
                    // right should be 'independent' string
                    match right.as_ref() {
                        XPathExpr::StringLiteral(s) => assert_eq!(s, "independent"),
                        _ => panic!("Expected string literal"),
                    }
                }
                other => panic!("Expected BinaryOp, got {:?}", other),
            }
        }
        _ => panic!("Expected LocationPath"),
    }
}

#[test]
fn parser_test_position_function_predicate() {
    let expr = parse_xpath("//claim[position()=1]").unwrap();
    match expr {
        XPathExpr::LocationPath(path) => {
            let claim_step = &path.steps[1];
            assert_eq!(claim_step.predicates.len(), 1);
            match &claim_step.predicates[0] {
                XPathExpr::BinaryOp(left, BinaryOp::Eq, right) => {
                    match left.as_ref() {
                        XPathExpr::FunctionCall(name, _) => assert_eq!(name, "position"),
                        _ => panic!("Expected FunctionCall"),
                    }
                    match right.as_ref() {
                        XPathExpr::NumberLiteral(n) => assert_eq!(n, "1"),
                        _ => panic!("Expected NumberLiteral"),
                    }
                }
                other => panic!("Expected BinaryOp, got {:?}", other),
            }
        }
        _ => panic!("Expected LocationPath"),
    }
}

#[test]
fn parser_test_multiple_predicates() {
    let expr = parse_xpath("//claim[@type='independent'][1]").unwrap();
    match expr {
        XPathExpr::LocationPath(path) => {
            let claim_step = &path.steps[1];
            assert_eq!(claim_step.predicates.len(), 2);
        }
        _ => panic!("Expected LocationPath"),
    }
}
