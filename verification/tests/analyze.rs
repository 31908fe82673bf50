//! Which tag names an expression is about.

use simdxml::name_set::NameSet;
use simdxml::xpath::analyze::{selectivity, SelectivityHint};
use simdxml::xpath::parse_xpath;

fn selective_names(xpath: &str) -> Option<NameSet> {
    let expr = parse_xpath(xpath).unwrap();
    match selectivity(&expr) {
        SelectivityHint::Selective(names) => Some(names),
        SelectivityHint::NeedsAll => None,
    }
}

#[test]
fn simple_path() {
    let names = selective_names("//claim").unwrap();
    assert!(names.contains("claim"));
    assert_eq!(names.len(), 1);
}

#[test]
fn multi_step_path() {
    let names = selective_names("/corpus/patent/claims/claim").unwrap();
    assert!(names.contains("corpus"));
    assert!(names.contains("patent"));
    assert!(names.contains("claims"));
    assert!(names.contains("claim"));
}

#[test]
fn with_predicate() {
    let names = selective_names("//claim[@type='independent']").unwrap();
    assert!(names.contains("claim"));
}

#[test]
fn predicate_references_tag() {
    let names = selective_names("//patent[title='Widget']").unwrap();
    assert!(names.contains("patent"));
    assert!(names.contains("title"));
}

#[test]
fn union() {
    let names = selective_names("//claim | //title").unwrap();
    assert!(names.contains("claim"));
    assert!(names.contains("title"));
}

#[test]
fn wildcard_needs_all() {
    assert!(selective_names("//patent/*").is_none());
}

#[test]
fn node_test_needs_all() {
    assert!(selective_names("//patent/node()").is_none());
}

#[test]
fn text_is_selective() {
    // text() doesn't need all tags — it matches text nodes, not elements
    let names = selective_names("//claim/text()").unwrap();
    assert!(names.contains("claim"));
}

#[test]
fn descendant_axis() {
    let names = selective_names("//claims//claim").unwrap();
    assert!(names.contains("claims"));
    assert!(names.contains("claim"));
}
