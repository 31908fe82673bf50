//! Evaluating XPath expressions.

use simdxml::xpath::numbers::{Number, NumberOp, NumberReply};
use simdxml::xpath::{evaluate, parse_xpath, XPathNode};
use simdxml::xpath::axes::{eval_ancestor_axis, eval_following_sibling_axis, eval_parent_axis, eval_preceding_sibling_axis};
use simdxml::index::structural::parse_scalar;

fn query_text<'a>(xml: &'a [u8], xpath: &str) -> Vec<String> {
    let index = parse_scalar(xml).unwrap();
    let expr = parse_xpath(xpath).unwrap();
    let nodes = evaluate(&index, &expr, &arithmetic).unwrap();
    let mut results = Vec::new();
    for node in nodes {
        match node {
            XPathNode::Element(idx) => {
                for t in index.direct_text(idx) {
                    results.push(t.to_string());
                }
            }
            XPathNode::Text(idx) => {
                results.push(index.text_content(&index.text_ranges[idx]).to_string());
            }
            _ => {}
        }
    }
    results
}

fn query_names<'a>(xml: &'a [u8], xpath: &str) -> Vec<String> {
    let index = parse_scalar(xml).unwrap();
    let expr = parse_xpath(xpath).unwrap();
    let nodes = evaluate(&index, &expr, &arithmetic).unwrap();
    nodes
        .iter()
        .filter_map(|n| match n {
            XPathNode::Element(idx) => Some(index.tag_name(*idx).to_string()),
            _ => None,
        })
        .collect()
}

#[test]
fn test_simple_child() {
    let names = query_names(b"<root><a/><b/><c/></root>", "/root/*");
    assert_eq!(names, vec!["a", "b", "c"]);
}

#[test]
fn test_specific_child() {
    let names = query_names(b"<root><a/><b/><c/></root>", "/root/b");
    assert_eq!(names, vec!["b"]);
}

#[test]
fn eval_test_text_content() {
    let texts = query_text(b"<root><item>hello</item><item>world</item></root>", "/root/item");
    assert_eq!(texts, vec!["hello", "world"]);
}

#[test]
fn eval_test_descendant() {
    let names = query_names(
        b"<root><a><b><c/></b></a></root>",
        "//c",
    );
    assert_eq!(names, vec!["c"]);
}

#[test]
fn eval_test_text_node() {
    let texts = query_text(
        b"<root>hello</root>",
        "/root/text()",
    );
    assert_eq!(texts, vec!["hello"]);
}

#[test]
fn eval_test_wildcard() {
    let names = query_names(
        b"<root><a/><b/></root>",
        "/root/*",
    );
    assert_eq!(names, vec!["a", "b"]);
}

#[test]
fn test_deep_path() {
    let texts = query_text(
        b"<patent><claims><claim>Claim 1 text</claim></claims></patent>",
        "/patent/claims/claim",
    );
    assert_eq!(texts, vec!["Claim 1 text"]);
}

#[test]
fn test_descendant_deep() {
    let names = query_names(
        b"<a><b><c><d/></c></b><e><d/></e></a>",
        "//d",
    );
    assert_eq!(names.len(), 2);
}

#[test]
fn test_following_sibling() {
    let xml = b"<root><a/><b/><c/></root>";
    let index = parse_scalar(xml).unwrap();
    // Get siblings following <a>
    let a_idx = 1; // <a> is at index 1 (after <root>)
    let siblings = eval_following_sibling_axis(&index, XPathNode::Element(a_idx));
    assert_eq!(siblings.len(), 2); // b and c
}

#[test]
fn test_preceding_sibling() {
    let xml = b"<root><a/><b/><c/></root>";
    let index = parse_scalar(xml).unwrap();
    let c_idx = 3; // <c> is at index 3
    let siblings = eval_preceding_sibling_axis(&index, XPathNode::Element(c_idx));
    assert_eq!(siblings.len(), 2); // a and b (in reverse order)
}

#[test]
fn eval_test_parent() {
    let xml = b"<root><child/></root>";
    let index = parse_scalar(xml).unwrap();
    let parents = eval_parent_axis(&index, XPathNode::Element(1)); // child's parent
    assert_eq!(parents.len(), 1);
    match parents[0] {
        XPathNode::Element(idx) => assert_eq!(index.tag_name(idx), "root"),
        _ => panic!("Expected element"),
    }
}

#[test]
fn test_ancestor() {
    let xml = b"<a><b><c/></b></a>";
    let index = parse_scalar(xml).unwrap();
    let ancestors = eval_ancestor_axis(&index, XPathNode::Element(2), false); // c's ancestors
    assert_eq!(ancestors.len(), 3); // b, a, and document root
}

#[test]
fn eval_test_position_predicate() {
    let names = query_names(
        b"<root><a/><b/><c/></root>",
        "/root/*[1]",
    );
    assert_eq!(names, vec!["a"]);
}

#[test]
fn test_position_predicate_last() {
    let names = query_names(
        b"<root><a/><b/><c/></root>",
        "/root/*[3]",
    );
    assert_eq!(names, vec!["c"]);
}

#[test]
fn eval_test_position_function_predicate() {
    let names = query_names(
        b"<root><a/><b/><c/></root>",
        "/root/*[position()=2]",
    );
    assert_eq!(names, vec!["b"]);
}

#[test]
fn test_last_function_predicate() {
    let names = query_names(
        b"<root><a/><b/><c/></root>",
        "/root/*[position()=last()]",
    );
    assert_eq!(names, vec!["c"]);
}

#[test]
fn test_attribute_value_predicate() {
    let texts = query_text(
        b"<root><item type='a'>first</item><item type='b'>second</item></root>",
        "/root/item[@type='b']",
    );
    assert_eq!(texts, vec!["second"]);
}

#[test]
fn test_contains_predicate() {
    let texts = query_text(
        b"<root><p>hello world</p><p>goodbye</p></root>",
        "/root/p[contains(., 'world')]",
    );
    assert_eq!(texts, vec!["hello world"]);
}

#[test]
fn test_starts_with_predicate() {
    let texts = query_text(
        b"<root><p>hello world</p><p>goodbye</p></root>",
        "/root/p[starts-with(., 'hello')]",
    );
    assert_eq!(texts, vec!["hello world"]);
}

#[test]
fn eval_test_multiple_predicates() {
    let xml = b"<root><item type='a'>first</item><item type='b'>second</item><item type='a'>third</item></root>";
    // All items with type='a', then take the first
    let texts = query_text(xml, "/root/item[@type='a'][1]");
    assert_eq!(texts, vec!["first"]);
}

fn float(n: Number) -> f64 {
    f64::from_bits(n.bits)
}

fn number(x: f64) -> NumberReply {
    NumberReply::Number(Number { bits: x.to_bits() })
}

fn format_number(n: f64) -> String {
    if n.is_nan() {
        return "NaN".to_string();
    }
    if n.is_infinite() {
        return if n > 0.0 { "Infinity".to_string() } else { "-Infinity".to_string() };
    }
    if n == n.trunc() && n.abs() < 1e15 {
        return format!("{}", n as i64);
    }
    let magnitude = n.abs();
    let exponent = if magnitude > 0.0 { magnitude.log10().floor() as i32 } else { 0 };
    if exponent >= -4 && exponent < 15 {
        let digits = (14 - exponent).max(0) as usize;
        let text = format!("{:.digits$}", n, digits = digits);
        if text.contains('.') {
            text.trim_end_matches('0').trim_end_matches('.').to_string()
        } else {
            text
        }
    } else {
        let text = format!("{:.14e}", n);
        match text.split_once('e') {
            Some((mantissa, exponent)) => {
                let mantissa = mantissa.trim_end_matches('0').trim_end_matches('.');
                let sign = if exponent.starts_with('-') { "-" } else { "+" };
                let digits = exponent.trim_start_matches('-').trim_start_matches('0');
                let digits = if digits.is_empty() { "0" } else { digits };
                format!("{}e{}{}", mantissa, sign, digits)
            }
            None => text,
        }
    }
}

fn substring_span(start: f64, len: Option<f64>, count: usize) -> (usize, usize) {
    if start.is_nan() {
        return (0, 0);
    }
    let p = start.round();
    let from = (p.max(1.0) as i64 - 1).max(0) as usize;
    let to = match len {
        None => count,
        Some(n) => {
            if n.is_nan() || n == f64::NEG_INFINITY {
                return (0, 0);
            }
            let end = p + n.round();
            if end == f64::NEG_INFINITY || p == f64::INFINITY {
                return (0, 0);
            }
            if end.is_infinite() { count } else { ((end as i64 - 1).max(0) as usize).min(count) }
        }
    };
    if from >= to || from >= count {
        (0, 0)
    } else {
        (from, to)
    }
}

fn arithmetic(op: NumberOp) -> NumberReply {
    match op {
        NumberOp::Parse(t) => number(t.trim().parse().unwrap_or(f64::NAN)),
        NumberOp::Sum(ts) => {
            number(ts.iter().map(|t| t.trim().parse::<f64>().unwrap_or(f64::NAN)).sum())
        }
        NumberOp::Count(n) => number(n as f64),
        NumberOp::Negate(a) => number(-float(a)),
        NumberOp::Add(a, b) => number(float(a) + float(b)),
        NumberOp::Subtract(a, b) => number(float(a) - float(b)),
        NumberOp::Multiply(a, b) => number(float(a) * float(b)),
        NumberOp::Divide(a, b) => number(float(a) / float(b)),
        NumberOp::Remainder(a, b) => number(float(a) % float(b)),
        NumberOp::Floor(a) => number(float(a).floor()),
        NumberOp::Ceiling(a) => number(float(a).ceil()),
        NumberOp::Round(a) => {
            let x = float(a);
            number(if x.fract() == -0.5 { x.ceil() } else { x.round() })
        }
        NumberOp::Less(a, b) => NumberReply::Flag(float(a) < float(b)),
        NumberOp::LessOrEqual(a, b) => NumberReply::Flag(float(a) <= float(b)),
        NumberOp::Equal(a, b) => NumberReply::Flag(float(a) == float(b)),
        NumberOp::IsTruthy(a) => NumberReply::Flag(float(a) != 0.0 && !float(a).is_nan()),
        NumberOp::Format(a) => NumberReply::Text(format_number(float(a))),
        NumberOp::Position(a, count) => {
            let x = float(a);
            let names = x >= 1.0 && x <= count as f64 && x == x.trunc();
            NumberReply::Index(if names { Some(x as usize - 1) } else { None })
        }
        NumberOp::Substring(a, len, count) => {
            let (from, to) = substring_span(float(a), len.map(float), count);
            NumberReply::Span(from, to)
        }
    }
}

fn query_count(xml: &[u8], xpath: &str) -> usize {
    let index = parse_scalar(xml).unwrap();
    index.xpath(xpath, &arithmetic).unwrap().len()
}

#[test]
fn string_length_counts_characters() {
    let xml = "<r><a>\u{e9}</a><a>ab</a></r>".as_bytes();
    assert_eq!(query_names(xml, "//a[string-length()=1]"), vec!["a"]);
    assert_eq!(query_text(xml, "//a[string-length()=1]"), vec!["\u{e9}"]);
}

#[test]
fn arithmetic_predicates_select_positions() {
    let xml = b"<r><a>1</a><a>2</a><a>3</a></r>";
    assert_eq!(query_text(xml, "/r/a[last()-1]"), vec!["2"]);
    assert_eq!(query_text(xml, "/r/a[1+1+1]"), vec!["3"]);
    assert!(query_text(xml, "/r/a[last()+1]").is_empty());
    assert!(query_text(xml, "/r/a[-1]").is_empty());
}

#[test]
fn comparisons_hold_of_any_node() {
    let xml = b"<r><a><b>1</b><b>2</b></a><a><b>3</b></a></r>";
    assert_eq!(query_text(xml, "/r/a[b='2']/b"), vec!["1", "2"]);
    assert_eq!(query_text(xml, "/r/a['2'=b]/b"), vec!["1", "2"]);
    assert_eq!(query_text(xml, "/r/a[b='2' or b='3']/b"), vec!["1", "2", "3"]);
    assert!(query_text(xml, "/r/a[b='4']/b").is_empty());
}

#[test]
fn string_and_union_predicates_hold_by_their_truth() {
    let xml = b"<r><a><b/></a><a><c/></a><a/></r>";
    assert!(query_names(xml, "/r/a['']").is_empty());
    assert_eq!(query_names(xml, "/r/a['x']").len(), 3);
    assert_eq!(query_names(xml, "/r/a[b|c]").len(), 2);
}

#[test]
fn siblings_do_not_depend_on_tables() {
    let xml = b"<r>t<a/>u<!--c--><b/>v</r>";
    let mut index = simdxml::parse(xml).unwrap();
    let after = eval_following_sibling_axis(&index, XPathNode::Text(0));
    let before = eval_preceding_sibling_axis(&index, XPathNode::Text(2));
    assert_eq!(
        after,
        vec![
            XPathNode::Element(1),
            XPathNode::Text(1),
            XPathNode::Element(2),
            XPathNode::Element(3),
            XPathNode::Text(2),
        ]
    );
    assert_eq!(
        before,
        vec![
            XPathNode::Element(3),
            XPathNode::Element(2),
            XPathNode::Text(1),
            XPathNode::Element(1),
            XPathNode::Text(0),
        ]
    );
    index.ensure_indices();
    assert_eq!(eval_following_sibling_axis(&index, XPathNode::Text(0)), after);
    assert_eq!(eval_preceding_sibling_axis(&index, XPathNode::Text(2)), before);
}

#[test]
fn comments_have_no_descendants() {
    let xml = b"<r><!--c--><?p q?><a/>t</r>";
    assert_eq!(query_count(xml, "//comment()"), 1);
    assert_eq!(query_count(xml, "//comment()/descendant::node()"), 0);
    assert_eq!(query_count(xml, "//processing-instruction()/descendant::node()"), 0);
}

#[test]
fn attributes_of_one_element_are_different_nodes() {
    let xml = b"<r><a x='1' y='2'/></r>";
    let index = simdxml::parse(xml).unwrap();
    assert_eq!(index.xpath("/r/a/@x | /r/a/@y", &arithmetic).unwrap().len(), 2);
    assert_eq!(index.xpath("/r/a/@x | /r/a/@x", &arithmetic).unwrap().len(), 1);
}

#[test]
fn prefixed_names_match_as_written() {
    let xml = b"<r><p:x>1</p:x><x>2</x><p:y k:a='3' b='4'>5</p:y></r>";
    assert_eq!(query_text(xml, "//p:x"), vec!["1"]);
    assert_eq!(query_text(xml, "//p:*"), vec!["1", "5"]);
    assert_eq!(query_text(xml, "//p:y[@k:a='3']"), vec!["5"]);
    assert_eq!(query_count(xml, "//p:y/@k:*"), 1);
    assert!(query_text(xml, "//q:x").is_empty());
}

#[test]
fn names_of_arguments_and_local_names() {
    let xml = b"<r><p:x a='1'>t</p:x></r>";
    assert_eq!(query_text(xml, "//p:x[local-name()='x']"), vec!["t"]);
    assert_eq!(query_text(xml, "//p:x[name()='p:x']"), vec!["t"]);
    assert_eq!(query_text(xml, "//p:x[name(..)='r']"), vec!["t"]);
    assert_eq!(query_text(xml, "//p:x[local-name(@a)='a']"), vec!["t"]);
}

#[test]
fn following_and_preceding_hold_all_nodes() {
    let xml = b"<r><a>1</a><!--c--><b>2<d/></b>3<e/></r>";
    assert_eq!(query_count(xml, "//b/following::node()"), 2);
    assert_eq!(query_count(xml, "//b/preceding::node()"), 3);
    assert_eq!(query_count(xml, "//d/following::text()"), 1);
    assert_eq!(query_names(xml, "//e/preceding::*[1]"), vec!["d"]);
    assert_eq!(query_names(xml, "//e/preceding-sibling::*[1]"), vec!["b"]);
    assert_eq!(query_names(xml, "//b/text()/preceding::*"), vec!["a"]);
    assert_eq!(query_names(xml, "//e/preceding::*"), vec!["a", "b", "d"]);
}

#[test]
fn the_root_has_the_text_of_the_document() {
    let xml = b"<r>a<b>b</b></r>";
    assert_eq!(query_names(xml, "//b[string(/)='ab']"), vec!["b"]);
}

#[test]
fn comments_and_instructions_have_their_content() {
    let xml = b"<r><!-- c --><?p  q r?></r>";
    assert_eq!(query_count(xml, "//comment()[.=' c ']"), 1);
    assert_eq!(query_count(xml, "//processing-instruction()[.='q r']"), 1);
}

#[test]
fn attribute_values_expand_references() {
    let xml = b"<r><a x='1&amp;2'>t</a></r>";
    assert_eq!(query_text(xml, "//a[@x='1&2']"), vec!["t"]);
}

#[test]
fn node_sets_compare_with_truth_values() {
    let xml = b"<r><a><b/></a><a>t</a></r>";
    assert_eq!(query_text(xml, "/r/a[b=false()]"), vec!["t"]);
    assert_eq!(query_count(xml, "/r/a[b=true()]"), 1);
}

#[test]
fn texts_have_the_language_around_them() {
    let xml = b"<r xml:lang='en'><a>t</a></r>";
    assert_eq!(query_text(xml, "//a/text()[lang('en')]"), vec!["t"]);
}

#[test]
fn the_root_comes_first_and_attributes_after_their_element() {
    let xml = b"<r><a x='1'><b/></a><a x='2'><b/></a></r>";
    let index = simdxml::parse(xml).unwrap();
    let up = index.xpath("//b/ancestor::node()", &arithmetic).unwrap();
    assert_eq!(up.len(), 4);
    assert_eq!(up[0], XPathNode::Element(usize::MAX));
    assert_eq!(up[1], XPathNode::Element(0));
    let both = index.xpath("//a/@x | //a", &arithmetic).unwrap();
    assert_eq!(both.len(), 4);
    assert_eq!(both[0], XPathNode::Element(1));
    assert!(matches!(both[1], XPathNode::Attribute(1, _)));
    assert!(matches!(both[3], XPathNode::Attribute(_, _)));
    assert!(matches!(both[2], XPathNode::Element(_)));
}

#[test]
fn fused_steps_agree_with_single_steps() {
    let xml = b"<r><s><x>1</x><s><x>2</x><!--c--></s></s><s><x>3</x></s></r>";
    for test in ["x", "*", "comment()"] {
        let index = simdxml::parse(xml).unwrap();
        let fused = index.xpath(&format!("//s//{}", test), &arithmetic).unwrap();
        let stepped = index
            .xpath(&format!("//s/descendant-or-self::*/child::{}", test), &arithmetic)
            .unwrap();
        assert_eq!(fused, stepped);
        assert!(!fused.is_empty());
    }
}

#[test]
fn namespaces_are_found_by_prefix() {
    let xml = b"<r xmlns:p='u' xmlns:q='v'><a/></r>";
    assert_eq!(query_count(xml, "//a/namespace::*"), 3);
    assert_eq!(query_count(xml, "//a/namespace::p"), 1);
    assert_eq!(query_count(xml, "//a/namespace::xml"), 1);
    assert_eq!(query_count(xml, "//a/namespace::z"), 0);
}

#[test]
fn node_sets_of_any_kind_count_and_compare() {
    let xml = b"<r><a id='x'>1</a><b>2</b><b>3</b></r>";
    assert_eq!(query_count(xml, "/r[count(id('x'))=1]"), 1);
    assert_eq!(query_count(xml, "/r[id('x')='1']"), 1);
    assert_eq!(query_count(xml, "/r[id('y')]"), 0);
    assert_eq!(query_count(xml, "/r[not(id('y'))]"), 1);
    assert_eq!(query_count(xml, "/r[count((a | b)[2])=1]"), 1);
    assert_eq!(query_count(xml, "/r[(b)[2]='3']"), 1);
    assert_eq!(query_count(xml, "/r[(b)[3]]"), 0);
    assert_eq!(query_count(xml, "//b[string(id('x'))='1']"), 2);
    assert_eq!(query_count(xml, "/r[count(id('x')/following-sibling::b)=2]"), 1);
}

#[test]
fn namespaces_have_a_prefix_and_a_uri() {
    let xml = b"<r xmlns:p='u&amp;v'><a xmlns:p='w'/><b/></r>";
    assert_eq!(query_count(xml, "//b/namespace::*[name()='p' and .='u&v']"), 1);
    assert_eq!(query_count(xml, "//a/namespace::p[.='w']"), 1);
    assert_eq!(
        query_count(xml, "//a/namespace::xml[.='http://www.w3.org/XML/1998/namespace']"),
        1
    );
}

#[test]
fn filters_start_at_the_context_node() {
    let index = simdxml::parse(b"<r><a><b>1</b><b>2</b></a><b>3</b></r>").unwrap();
    let expr = parse_xpath("(b)[2]").unwrap();
    let found =
        simdxml::xpath::eval::evaluate_from_context(&index, &expr, XPathNode::Element(1), &arithmetic)
            .unwrap();
    assert_eq!(found.len(), 1);
    assert_eq!(index.all_text(match found[0] { XPathNode::Element(i) => i, _ => 0 }), "2");
}

#[test]
fn a_sum_of_what_is_no_number_is_none() {
    let xml = b"<r><v>1</v><v>x</v></r>";
    assert_eq!(query_count(xml, "/r[sum(v)=sum(v)]"), 0);
    assert_eq!(query_count(xml, "/r[sum(v[1])=1]"), 1);
}

#[test]
fn fused_steps_find_texts_and_all_nodes() {
    let xml = b"<r>a<s>b<x>c</x><!--k--></s><s>d</s></r>";
    let index = simdxml::parse(xml).unwrap();
    for test in ["text()", "node()"] {
        let fused = index.xpath(&format!("//s//{}", test), &arithmetic).unwrap();
        let stepped = index
            .xpath(&format!("//s/descendant-or-self::*/child::{}", test), &arithmetic)
            .unwrap();
        assert_eq!(fused, stepped);
        assert!(fused.len() >= 3);
    }
}

#[test]
fn unions_do_not_depend_on_order_or_repetition() {
    let xml = b"<r><a>1</a><b>2</b>t<a>3</a></r>";
    let index = simdxml::parse(xml).unwrap();
    let one = index.xpath("//a | //b | //text()", &arithmetic).unwrap();
    let two = index.xpath("//text() | //b | //a | //b", &arithmetic).unwrap();
    assert_eq!(one, two);
    assert_eq!(
        index.xpath("//a | //a", &arithmetic).unwrap(),
        index.xpath("//a", &arithmetic).unwrap()
    );
}

#[test]
fn descendants_have_the_node_among_their_ancestors() {
    let xml = b"<r>a<s>b<x/><!--k--></s></r>";
    let index = simdxml::parse(xml).unwrap();
    let below = index.xpath("//s/descendant::node()", &arithmetic).unwrap();
    assert_eq!(below.len(), 3);
    for node in &below {
        let up = eval_ancestor_axis(&index, *node, false);
        assert!(up.contains(&XPathNode::Element(1)));
    }
    let with = index.xpath("//s/descendant-or-self::node()", &arithmetic).unwrap();
    assert_eq!(with[0], XPathNode::Element(1));
    assert_eq!(with[1..], below[..]);
}
