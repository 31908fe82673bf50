//! Building and reading the structural index.

use simdxml::index::structural::parse_scalar;
use simdxml::index::TagType;

#[test]
fn test_simple_element() {
    let xml = b"<root>hello</root>";
    let index = parse_scalar(xml).unwrap();
    assert_eq!(index.tag_count(), 2); // open + close
    assert_eq!(index.tag_name(0), "root");
    assert_eq!(index.tag_types[0], TagType::Open);
    assert_eq!(index.tag_types[1], TagType::Close);
    assert_eq!(index.depths[0], 0);
}

#[test]
fn test_nested() {
    let xml = b"<root><child>text</child></root>";
    let index = parse_scalar(xml).unwrap();
    assert_eq!(index.tag_count(), 4);
    assert_eq!(index.tag_name(0), "root");
    assert_eq!(index.tag_name(1), "child");
    assert_eq!(index.depths[0], 0); // root
    assert_eq!(index.depths[1], 1); // child
    assert_eq!(index.parents[1], 0); // child's parent is root
}

#[test]
fn test_self_closing() {
    let xml = b"<root><br/></root>";
    let index = parse_scalar(xml).unwrap();
    assert_eq!(index.tag_count(), 3);
    assert_eq!(index.tag_types[1], TagType::SelfClose);
    assert_eq!(index.tag_name(1), "br");
}

#[test]
fn test_comment() {
    let xml = b"<root><!-- comment --><child/></root>";
    let index = parse_scalar(xml).unwrap();
    assert!(index
        .tag_types
        .iter()
        .any(|t| *t == TagType::Comment));
}

#[test]
fn test_cdata() {
    let xml = b"<root><![CDATA[hello <world>]]></root>";
    let index = parse_scalar(xml).unwrap();
    assert!(index.tag_types.iter().any(|t| *t == TagType::CData));
}

#[test]
fn test_processing_instruction() {
    let xml = b"<?xml version=\"1.0\"?><root/>";
    let index = parse_scalar(xml).unwrap();
    assert!(index.tag_types.iter().any(|t| *t == TagType::PI));
}

#[test]
fn structural_test_text_content() {
    let xml = b"<root>hello world</root>";
    let index = parse_scalar(xml).unwrap();
    assert_eq!(index.text_ranges.len(), 1);
    assert_eq!(index.text_content(&index.text_ranges[0]), "hello world");
}

#[test]
fn test_attributes() {
    let xml = b"<root attr=\"value\">text</root>";
    let index = parse_scalar(xml).unwrap();
    assert_eq!(index.tag_count(), 2);
    assert_eq!(index.tag_name(0), "root");
}

#[test]
fn test_multiple_children() {
    let xml = b"<root><a>1</a><b>2</b><c>3</c></root>";
    let index = parse_scalar(xml).unwrap();
    let children = index.children(0);
    assert_eq!(children.len(), 3);
}

#[test]
fn structural_test_deep_nesting() {
    let xml = b"<a><b><c><d>deep</d></c></b></a>";
    let index = parse_scalar(xml).unwrap();
    assert_eq!(index.depths[3], 3); // d is at depth 3
    assert_eq!(index.tag_name(3), "d");
}

#[test]
fn test_all_text() {
    let xml = b"<root>hello <b>bold</b> world</root>";
    let index = parse_scalar(xml).unwrap();
    let text = index.all_text(0);
    assert!(text.contains("hello"));
    assert!(text.contains("bold"));
    assert!(text.contains("world"));
}

#[test]
fn test_matching_close() {
    let xml = b"<root><a>text</a></root>";
    let index = parse_scalar(xml).unwrap();
    let close = index.matching_close(0).unwrap();
    assert_eq!(index.tag_name(close), "root");
    assert_eq!(index.tag_types[close], TagType::Close);
}

#[test]
fn test_get_attribute() {
    let xml = b"<root lang=\"en\" type='main'>text</root>";
    let index = parse_scalar(xml).unwrap();
    assert_eq!(index.get_attribute(0, "lang"), Some("en"));
    assert_eq!(index.get_attribute(0, "type"), Some("main"));
    assert_eq!(index.get_attribute(0, "missing"), None);
}

#[test]
fn test_attribute_on_self_closing() {
    let xml = b"<br class=\"clear\"/>";
    let index = parse_scalar(xml).unwrap();
    assert_eq!(index.get_attribute(0, "class"), Some("clear"));
}

#[test]
fn tags_test_parent() {
    let xml = b"<root><a><b/></a></root>";
    let mut index = parse_scalar(xml).unwrap();
    index.ensure_indices();
    // root has no parent
    assert_eq!(index.parent(0), None);
    // <a> parent is <root>
    let a_idx = (0..index.tag_count()).find(|&i| index.tag_name(i) == "a").unwrap();
    assert_eq!(index.parent(a_idx), Some(0));
    // <b/> parent is <a>
    let b_idx = (0..index.tag_count()).find(|&i| index.tag_name(i) == "b").unwrap();
    assert_eq!(index.parent(b_idx), Some(a_idx));
    // OOB
    assert_eq!(index.parent(9999), None);
}

#[test]
fn test_child_position() {
    let xml = b"<root><a/><b/><c/></root>";
    let mut index = parse_scalar(xml).unwrap();
    index.ensure_indices();
    let a = (0..index.tag_count()).find(|&i| index.tag_name(i) == "a").unwrap();
    let b = (0..index.tag_count()).find(|&i| index.tag_name(i) == "b").unwrap();
    let c = (0..index.tag_count()).find(|&i| index.tag_name(i) == "c").unwrap();
    assert_eq!(index.child_position(a), Some(0));
    assert_eq!(index.child_position(b), Some(1));
    assert_eq!(index.child_position(c), Some(2));
    assert_eq!(index.child_position(0), None); // root
}

#[test]
fn test_child_slice_count_at() {
    let xml = b"<root><a/><b/><c/></root>";
    let mut index = parse_scalar(xml).unwrap();
    index.ensure_indices();
    assert_eq!(index.child_count(0), 3);
    assert_eq!(index.child_slice(0).len(), 3);
    let a = (0..index.tag_count()).find(|&i| index.tag_name(i) == "a").unwrap();
    assert_eq!(index.child_at(0, 0), Some(a));
    assert_eq!(index.child_at(0, 3), None);
}

#[test]
fn test_direct_text_first() {
    let xml = b"<p>Hello <b>world</b> more</p>";
    let mut index = parse_scalar(xml).unwrap();
    index.ensure_indices();
    assert_eq!(index.direct_text_first(0), Some("Hello "));
    // <b> has text "world"
    let b = (0..index.tag_count()).find(|&i| index.tag_name(i) == "b").unwrap();
    assert_eq!(index.direct_text_first(b), Some("world"));
}

#[test]
fn test_direct_text_first_empty() {
    let xml = b"<root><child/></root>";
    let mut index = parse_scalar(xml).unwrap();
    index.ensure_indices();
    let child = (0..index.tag_count()).find(|&i| index.tag_name(i) == "child").unwrap();
    assert_eq!(index.direct_text_first(child), None);
}

#[test]
fn test_tail_text() {
    let xml = b"<p>Hello <b>bold</b> and <i>italic</i> end</p>";
    let mut index = parse_scalar(xml).unwrap();
    index.ensure_indices();
    let b = (0..index.tag_count()).find(|&i| index.tag_name(i) == "b").unwrap();
    let i_idx = (0..index.tag_count()).find(|&i| index.tag_name(i) == "i").unwrap();
    assert_eq!(index.tail_text(b), Some(" and "));
    assert_eq!(index.tail_text(i_idx), Some(" end"));
    // root has no tail
    assert_eq!(index.tail_text(0), None);
}

#[test]
fn test_tail_text_none() {
    let xml = b"<root><a/><b/></root>";
    let mut index = parse_scalar(xml).unwrap();
    index.ensure_indices();
    // <b/> is last child, no text after it (just </root>)
    let b = (0..index.tag_count()).find(|&i| index.tag_name(i) == "b").unwrap();
    assert_eq!(index.tail_text(b), None);
}

#[test]
fn test_attributes_basic() {
    let xml = b"<root lang=\"en\" type='main'>text</root>";
    let index = parse_scalar(xml).unwrap();
    let attrs = index.attributes(0);
    assert_eq!(attrs, vec![("lang", "en"), ("type", "main")]);
}

#[test]
fn test_attributes_self_closing() {
    let xml = b"<br class=\"clear\" id=\"top\"/>";
    let index = parse_scalar(xml).unwrap();
    let attrs = index.attributes(0);
    assert_eq!(attrs, vec![("class", "clear"), ("id", "top")]);
}

#[test]
fn test_attributes_empty() {
    let xml = b"<root>text</root>";
    let index = parse_scalar(xml).unwrap();
    let attrs = index.attributes(0);
    assert!(attrs.is_empty());
}

#[test]
fn test_attributes_oob() {
    let xml = b"<root/>";
    let index = parse_scalar(xml).unwrap();
    assert!(index.attributes(999).is_empty());
}

#[test]
fn test_attributes_single() {
    let xml = b"<item key=\"value\">text</item>";
    let index = parse_scalar(xml).unwrap();
    let attrs = index.attributes(0);
    assert_eq!(attrs, vec![("key", "value")]);
}

#[test]
fn test_attributes_includes_xmlns() {
    // Unlike get_all_attribute_names which filters xmlns, attributes() includes them
    let xml = b"<root xmlns:ns=\"http://example.com\" attr=\"val\"/>";
    let index = parse_scalar(xml).unwrap();
    let attrs = index.attributes(0);
    assert_eq!(attrs.len(), 2);
    assert_eq!(attrs[0], ("xmlns:ns", "http://example.com"));
    assert_eq!(attrs[1], ("attr", "val"));
}

#[test]
fn test_tail_text_self_closing() {
    let xml = b"<root><br/> text after</root>";
    let mut index = parse_scalar(xml).unwrap();
    index.ensure_indices();
    let br = (0..index.tag_count()).find(|&i| index.tag_name(i) == "br").unwrap();
    assert_eq!(index.tail_text(br), Some(" text after"));
}
