//! Properties that span several functions, on concrete documents.

use simdxml::batch::{eval_batch_text, eval_batch_text_bloom};
use simdxml::bloom::TagBloom;
use simdxml::error::SimdXmlError;
use simdxml::index::lazy::parse_for_query;
use simdxml::index::structural::parse_scalar;
use simdxml::index::{TagType, XmlIndex};
use simdxml::name_set::NameSet;
use simdxml::parallel::{chunk_bounds, find_split_points, merge_chunks, parse_chunk, parse_parallel};
use simdxml::parse;
use simdxml::simd::classify_structural;
use simdxml::xpath::numbers::{Number, NumberOp, NumberReply};
use simdxml::xpath::{XPathNode, XPathResult};
use simdxml::CompiledXPath;

const XML: &[u8] = b"<r><a x='1'>t<b/>u<c>v</c></a><!-- n --><a><b>w</b></a></r>";

fn names_of(list: &[&str]) -> NameSet {
    let mut names = NameSet::new();
    for name in list {
        names.insert(name.to_string());
    }
    names
}

#[test]
fn tags_stand_at_markup() {
    let index = parse(XML).unwrap();
    for i in 0..index.tag_count() {
        assert_eq!(XML[index.tag_starts[i] as usize], b'<');
        if index.tag_types[i] != TagType::CData {
            assert_eq!(XML[index.tag_ends[i] as usize], b'>');
        }
    }
}

#[test]
fn parents_and_depths_follow_nesting() {
    let index = parse(b"<r><a><b/></a><c>x</c></r>").unwrap();
    assert_eq!(index.depths, vec![0, 1, 2, 1, 1, 1, 0]);
    assert_eq!(index.parents, vec![u32::MAX, 0, 1, 0, 0, 0, u32::MAX]);
}

#[test]
fn ancestor_check_agrees_with_parents() {
    let mut index = parse(XML).unwrap();
    index.ensure_indices();
    for b in 0..index.tag_count() {
        for a in 0..index.tag_count() {
            let mut encloses = false;
            let mut up = index.parents[b];
            while up != u32::MAX {
                encloses = encloses || up as usize == a;
                up = index.parents[up as usize];
            }
            assert_eq!(index.is_ancestor(a, b), encloses, "{} {}", a, b);
            assert_eq!(index.is_descendant_of(b, a), encloses);
        }
    }
}

#[test]
fn tables_give_what_scans_give() {
    let bare = parse(XML).unwrap();
    let mut tabled = parse(XML).unwrap();
    tabled.ensure_indices();
    for i in 0..bare.tag_count() {
        assert_eq!(bare.children(i), tabled.children(i));
        assert_eq!(bare.direct_text(i), tabled.direct_text(i));
        assert_eq!(bare.matching_close(i), tabled.matching_close(i));
        assert_eq!(bare.all_text(i), tabled.all_text(i));
    }
}

#[test]
fn name_index_lists_elements_in_order() {
    let mut index = parse(XML).unwrap();
    index.build_name_index();
    let by_scan: Vec<u32> = (0..index.tag_count())
        .filter(|&i| {
            (index.tag_types[i] == TagType::Open || index.tag_types[i] == TagType::SelfClose)
                && index.tag_name(i) == "b"
        })
        .map(|i| i as u32)
        .collect();
    assert_eq!(index.tags_by_name("b"), by_scan.as_slice());
    assert_eq!(by_scan.len(), 2);
    assert!(index.tags_by_name("zzz").is_empty());
}

#[test]
fn name_index_does_not_change_results() {
    let plain = parse(XML).unwrap();
    let mut named = parse(XML).unwrap();
    named.build_name_index();
    for q in ["//a", "//b", "//a//b", "//c", "//none", "//a[b]"] {
        assert_eq!(plain.xpath(q, &arithmetic).unwrap(), named.xpath(q, &arithmetic).unwrap());
    }
}

#[test]
fn prescan_covers_all_elements() {
    let bloom = TagBloom::from_prescan(XML);
    for name in ["r", "a", "b", "c"] {
        assert!(bloom.may_contain(name.as_bytes()));
    }
    let text = b"<r><!-- <x<y --><![CDATA[ <z ]]><real k='<q'/></r>";
    assert!(TagBloom::from_prescan(text).may_contain(b"real"));
}

#[test]
fn form_feed_ends_a_name_only_when_parsing() {
    let xml = b"<name\x0cx='1'/>";
    let index = parse(xml).unwrap();
    assert_eq!(index.tag_name(0), "name");
    assert!(!TagBloom::from_prescan(xml).may_contain(b"name"));
}

#[test]
fn skipping_loses_no_match() {
    let docs: Vec<&[u8]> = vec![XML, b"<r><other/></r>", b"<a>1</a>"];
    for q in ["//a", "/r/a/b", "//b | //c", "//a[b]/c", "(//a)[1]"] {
        let compiled = CompiledXPath::compile(q).unwrap();
        let all: Vec<usize> = eval_batch_text(&docs, &compiled, &arithmetic)
            .unwrap()
            .iter()
            .map(|r| r.len())
            .collect();
        let skipping: Vec<usize> = eval_batch_text_bloom(&docs, &compiled, &arithmetic)
            .unwrap()
            .iter()
            .map(|r| r.len())
            .collect();
        assert_eq!(all[1], 0);
        assert_eq!(skipping[1], 0);
    }
}

#[test]
fn attribute_names_are_no_element_names() {
    let xml = b"<r id='7'/>";
    let index = parse(xml).unwrap();
    assert_eq!(index.xpath("//@id", &arithmetic).unwrap().len(), 1);
    assert!(!TagBloom::from_prescan(xml).may_contain(b"id"));
}

#[test]
fn texts_of_an_element_are_all_its_texts() {
    let index = parse(XML).unwrap();
    let found = index.xpath_text("/r/a[1]", &arithmetic).unwrap();
    assert_eq!(found, vec!["t", "u", "v"]);
    assert_eq!(found.concat(), index.all_text(1));
    assert_eq!(index.xpath_text("/", &arithmetic).unwrap(), vec!["t", "u", "v", "w"]);
}

#[test]
fn lazy_index_is_part_of_the_whole() {
    let full = parse(XML).unwrap();
    let lazy = parse_for_query(XML, &names_of(&["b"])).unwrap();
    for i in 0..lazy.tag_count() {
        let j = full.tag_starts.iter().position(|s| *s == lazy.tag_starts[i]).unwrap();
        assert_eq!(lazy.tag_ends[i], full.tag_ends[j]);
        assert_eq!(lazy.tag_types[i], full.tag_types[j]);
        assert_eq!(lazy.tag_names[i], full.tag_names[j]);
        assert_eq!(lazy.depths[i], full.depths[j]);
        if lazy.parents[i] == u32::MAX {
            assert_eq!(full.parents[j], u32::MAX);
        } else {
            let up = full.tag_starts[full.parents[j] as usize];
            assert_eq!(lazy.tag_starts[lazy.parents[i] as usize], up);
        }
    }
    assert!(lazy.tag_count() < full.tag_count());
}

#[test]
fn lazy_index_keeps_ancestors() {
    let lazy = parse_for_query(XML, &names_of(&["b"])).unwrap();
    let up = lazy.xpath("//b/ancestor::a", &arithmetic).unwrap();
    assert_eq!(up.len(), 2);
    assert_eq!(lazy.xpath("/r/a/b", &arithmetic).unwrap().len(), 2);
}

#[test]
fn lazy_index_finds_the_wanted_elements() {
    let full = parse(XML).unwrap();
    let lazy = parse_for_query(XML, &names_of(&["b", "c"])).unwrap();
    for q in ["//b", "//c"] {
        let places = |ix: &XmlIndex| -> Vec<u64> {
            ix.xpath(q, &arithmetic)
                .unwrap()
                .iter()
                .map(|n| match n {
                    XPathNode::Element(i) => ix.tag_starts[*i],
                    _ => panic!("not an element"),
                })
                .collect()
        };
        assert_eq!(places(&lazy), places(&full));
    }
}

#[test]
fn chunks_give_what_one_pass_gives() {
    let mut text = String::from("<r>");
    for i in 0..20000 {
        text.push_str(&format!("<item n=\"{}\">value {}</item>\n", i, i));
    }
    text.push_str("</r>");
    let xml = text.as_bytes();
    let one = parse_scalar(xml).unwrap();
    let bounds = chunk_bounds(xml, 4);
    assert_eq!(bounds[0].0, 0);
    assert_eq!(bounds[bounds.len() - 1].1, xml.len());
    assert!(bounds.windows(2).all(|w| w[0].1 == w[1].0));
    for threads in [2, 3, 8] {
        let many = parse_parallel(xml, threads).unwrap();
        assert_eq!(one.tag_starts, many.tag_starts);
        assert_eq!(one.tag_ends, many.tag_ends);
        assert_eq!(one.tag_types, many.tag_types);
        assert_eq!(one.tag_names, many.tag_names);
        assert_eq!(one.depths, many.depths);
        assert_eq!(one.parents, many.parents);
        assert_eq!(one.text_ranges, many.text_ranges);
    }
}

#[test]
fn splits_stand_after_tags() {
    let xml = b"<r><a>1</a><a>2</a><a>3</a><a>4</a></r>";
    let splits = find_split_points(xml, 3);
    for p in &splits {
        assert_eq!(xml[*p - 1], b'>');
    }
    assert!(splits.windows(2).all(|w| w[0] < w[1]));
}

#[test]
fn chunk_by_chunk() {
    let xml = b"<r><a>1</a><a>2</a></r>";
    let first = parse_chunk(&xml[0..11], 0);
    let second = parse_chunk(&xml[11..], 11);
    let merged = merge_chunks(xml, vec![first, second]).unwrap();
    let one = parse(xml).unwrap();
    assert_eq!(merged.tag_starts, one.tag_starts);
    assert_eq!(merged.parents, one.parents);
    assert_eq!(merged.text_ranges, one.text_ranges);
}

#[test]
fn structural_positions_outside_quotes() {
    let xml = b"<a k=\"<>\">x</a>";
    let found = classify_structural(xml);
    assert_eq!(found.lt_positions().collect(), vec![0, 11]);
    assert_eq!(found.gt_positions().collect(), vec![9, 14]);
    assert_eq!(found.lt_positions().count(), 2);
}

#[test]
fn union_is_ordered_and_without_duplicates() {
    let index = parse(XML).unwrap();
    let found = index.xpath("//c | //b | //a/b", &arithmetic).unwrap();
    let places: Vec<u64> = found
        .iter()
        .map(|n| match n {
            XPathNode::Element(i) => index.tag_starts[*i],
            _ => panic!("not an element"),
        })
        .collect();
    assert_eq!(places.len(), 3);
    assert!(places.windows(2).all(|w| w[0] < w[1]));
}

#[test]
fn double_slash_is_descendant() {
    let index = parse(XML).unwrap();
    for (short, long) in [
        ("//a", "/descendant::a"),
        ("//b", "/descendant::b"),
        ("//a//b", "/descendant::a/descendant::b"),
        ("//c", "/descendant-or-self::node()/self::node()/child::c"),
    ] {
        assert_eq!(index.xpath(short, &arithmetic).unwrap(), index.xpath(long, &arithmetic).unwrap());
    }
}

#[test]
fn names_not_in_utf8_are_empty() {
    let index = parse(b"<\xff\xfe/>").unwrap();
    assert_eq!(index.tag_name(0), "");
    assert!(!index.tag_name_eq(0, ""));
    let index = parse("<grün>ö</grün>".as_bytes()).unwrap();
    assert_eq!(index.tag_name(0), "grün");
    assert_eq!(index.all_text(0), "ö");
}

#[test]
fn letters_beyond_ascii_make_names() {
    let index = parse("<r><größe>1</größe></r>".as_bytes()).unwrap();
    assert_eq!(index.xpath_text("//größe", &arithmetic).unwrap(), vec!["1"]);
    assert!(matches!(
        index.xpath("//\u{00d7}", &arithmetic),
        Err(SimdXmlError::XPathParseError(_))
    ));
}

#[test]
fn numeric_entities() {
    assert_eq!(XmlIndex::decode_entities("&#65;&#x42;&#x1F600;"), "AB\u{1F600}");
    assert_eq!(XmlIndex::decode_entities("a&#xD800;b"), "ab");
    assert_eq!(XmlIndex::decode_entities("&lt;&gt;&amp;&quot;&apos;"), "<>&\"'");
    assert_eq!(XmlIndex::decode_entities("plain"), "plain");
}

#[test]
fn unclosed_tag_position() {
    assert!(matches!(parse(b"<a><b x='1'"), Err(SimdXmlError::UnclosedTag(3))));
    assert!(matches!(parse(b"text <"), Err(SimdXmlError::UnclosedTag(5))));
}

#[test]
fn text_ranges_hold_no_markup() {
    let xml = b"<r>a<b/>c<![CDATA[<x>]]>d</r>";
    let index = parse(xml).unwrap();
    let texts: Vec<&str> = (0..index.text_count()).map(|i| index.text_by_index(i)).collect();
    assert_eq!(texts, vec!["a", "c", "<x>", "d"]);
}

#[test]
fn namespace_uris() {
    let xml = b"<r xmlns='u0' xmlns:p='u1'><p:a/><b/><c xmlns='u2'><d p:k='1' l='2'/></c></r>";
    let index = parse(xml).unwrap();
    let text = |q: &str| match index.eval(q, &arithmetic).unwrap() {
        XPathResult::String(t) => t,
        _ => panic!("not a string"),
    };
    assert_eq!(text("namespace-uri(/r/*[1])"), "u1");
    assert_eq!(text("namespace-uri(/r/b)"), "u0");
    assert_eq!(text("namespace-uri(//d)"), "u2");
    assert_eq!(text("namespace-uri(//none)"), "");
    assert_eq!(index.xpath("//*[namespace-uri()='u2']", &arithmetic).unwrap().len(), 2);
}

#[test]
fn processing_instructions_by_target() {
    let index = parse(b"<r><?one x?><?two y?><?one z?></r>").unwrap();
    assert_eq!(index.xpath("//processing-instruction()", &arithmetic).unwrap().len(), 3);
    assert_eq!(index.xpath("//processing-instruction('one')", &arithmetic).unwrap().len(), 2);
    assert_eq!(index.xpath("//processing-instruction('r')", &arithmetic).unwrap().len(), 0);
}

#[test]
fn axes_divide_the_elements() {
    let index = parse(b"<r><a><b/></a><c><d><e/></d></c><f/></r>").unwrap();
    let all = index.xpath("//*", &arithmetic).unwrap().len();
    for name in ["r", "a", "b", "c", "d", "e", "f"] {
        let count = |axis: &str| {
            index.xpath(&format!("//{}/{}::*", name, axis), &arithmetic).unwrap().len()
        };
        let sum = count("descendant-or-self") + count("ancestor") + count("following")
            + count("preceding");
        assert_eq!(sum, all, "{}", name);
    }
}

fn float(n: Number) -> f64 {
    f64::from_bits(n.bits)
}

fn number(x: f64) -> NumberReply {
    NumberReply::Number(Number { bits: x.to_bits() })
}

fn format_number(n: f64) -> String {
    if n.is_nan() {
        return "NaN".to_string();
    }
    if n.is_infinite() {
        return if n > 0.0 { "Infinity".to_string() } else { "-Infinity".to_string() };
    }
    if n == n.trunc() && n.abs() < 1e15 {
        return format!("{}", n as i64);
    }
    let magnitude = n.abs();
    let exponent = if magnitude > 0.0 { magnitude.log10().floor() as i32 } else { 0 };
    if exponent >= -4 && exponent < 15 {
        let digits = (14 - exponent).max(0) as usize;
        let text = format!("{:.digits$}", n, digits = digits);
        if text.contains('.') {
            text.trim_end_matches('0').trim_end_matches('.').to_string()
        } else {
            text
        }
    } else {
        let text = format!("{:.14e}", n);
        match text.split_once('e') {
            Some((mantissa, exponent)) => {
                let mantissa = mantissa.trim_end_matches('0').trim_end_matches('.');
                let sign = if exponent.starts_with('-') { "-" } else { "+" };
                let digits = exponent.trim_start_matches('-').trim_start_matches('0');
                let digits = if digits.is_empty() { "0" } else { digits };
                format!("{}e{}{}", mantissa, sign, digits)
            }
            None => text,
        }
    }
}

fn substring_span(start: f64, len: Option<f64>, count: usize) -> (usize, usize) {
    if start.is_nan() {
        return (0, 0);
    }
    let p = start.round();
    let from = (p.max(1.0) as i64 - 1).max(0) as usize;
    let to = match len {
        None => count,
        Some(n) => {
            if n.is_nan() || n == f64::NEG_INFINITY {
                return (0, 0);
            }
            let end = p + n.round();
            if end == f64::NEG_INFINITY || p == f64::INFINITY {
                return (0, 0);
            }
            if end.is_infinite() { count } else { ((end as i64 - 1).max(0) as usize).min(count) }
        }
    };
    if from >= to || from >= count {
        (0, 0)
    } else {
        (from, to)
    }
}

fn arithmetic(op: NumberOp) -> NumberReply {
    match op {
        NumberOp::Parse(t) => number(t.trim().parse().unwrap_or(f64::NAN)),
        NumberOp::Sum(ts) => {
            number(ts.iter().map(|t| t.trim().parse::<f64>().unwrap_or(f64::NAN)).sum())
        }
        NumberOp::Count(n) => number(n as f64),
        NumberOp::Negate(a) => number(-float(a)),
        NumberOp::Add(a, b) => number(float(a) + float(b)),
        NumberOp::Subtract(a, b) => number(float(a) - float(b)),
        NumberOp::Multiply(a, b) => number(float(a) * float(b)),
        NumberOp::Divide(a, b) => number(float(a) / float(b)),
        NumberOp::Remainder(a, b) => number(float(a) % float(b)),
        NumberOp::Floor(a) => number(float(a).floor()),
        NumberOp::Ceiling(a) => number(float(a).ceil()),
        NumberOp::Round(a) => {
            let x = float(a);
            number(if x.fract() == -0.5 { x.ceil() } else { x.round() })
        }
        NumberOp::Less(a, b) => NumberReply::Flag(float(a) < float(b)),
        NumberOp::LessOrEqual(a, b) => NumberReply::Flag(float(a) <= float(b)),
        NumberOp::Equal(a, b) => NumberReply::Flag(float(a) == float(b)),
        NumberOp::IsTruthy(a) => NumberReply::Flag(float(a) != 0.0 && !float(a).is_nan()),
        NumberOp::Format(a) => NumberReply::Text(format_number(float(a))),
        NumberOp::Position(a, count) => {
            let x = float(a);
            let names = x >= 1.0 && x <= count as f64 && x == x.trunc();
            NumberReply::Index(if names { Some(x as usize - 1) } else { None })
        }
        NumberOp::Substring(a, len, count) => {
            let (from, to) = substring_span(float(a), len.map(float), count);
            NumberReply::Span(from, to)
        }
    }
}

#[test]
fn same_name_means_same_id() {
    let mut index = parse(XML).unwrap();
    index.ensure_indices();
    index.build_name_index();
    for i in 0..index.tag_count() {
        for j in 0..index.tag_count() {
            if index.tag_names[i].1 > 0 && index.tag_names[j].1 > 0 {
                assert_eq!(
                    index.name_ids[i] == index.name_ids[j],
                    index.tag_name(i) == index.tag_name(j)
                );
            }
        }
    }
}

#[test]
fn attributes_agree_with_names_and_values() {
    let xml = b"<r xmlns:p='u' id=\"7\" class='a b' note=\"x = 'y'\" p:k=''/>";
    let index = parse(xml).unwrap();
    let pairs = index.attributes(0);
    let expected = vec![
        ("xmlns:p", "u"),
        ("id", "7"),
        ("class", "a b"),
        ("note", "x = 'y'"),
        ("p:k", ""),
    ];
    assert_eq!(pairs, expected);
    for (name, value) in &pairs {
        assert_eq!(index.get_attribute(0, name), Some(*value));
    }
    let names: Vec<&str> = vec!["id", "class", "note", "p:k"];
    assert_eq!(index.get_all_attribute_names(0), names);
}

#[test]
fn attribute_search_passes_over_values() {
    let index = parse(b"<r a=\"x b='1'\" b=\"2\"/>").unwrap();
    assert_eq!(index.attributes(0), vec![("a", "x b='1'"), ("b", "2")]);
    assert_eq!(index.get_attribute(0, "b"), Some("2"));
    assert_eq!(index.get_attribute(0, "x"), None);
}

#[test]
fn splits_stay_out_of_comments() {
    let xml = b"<!--<a></a><b/>--><r/>";
    assert_eq!(simdxml::parallel::find_safe_boundary(xml, 12), Some(18));
    let mut large = String::from("<r>");
    while large.len() < 200_000 {
        large.push_str("<!-- <a></a> <b> > < --><p q='>'>x</p><![CDATA[ <c></c> > ]]>");
    }
    large.push_str("</r>");
    let one = simdxml::parse(large.as_bytes()).unwrap();
    let two = parse_parallel(large.as_bytes(), 4).unwrap();
    assert_eq!(one.tag_starts, two.tag_starts);
    assert_eq!(one.tag_types, two.tag_types);
    assert_eq!(one.parents, two.parents);
    assert_eq!(one.text_ranges.len(), two.text_ranges.len());
}

#[test]
fn query_driven_parsing_keeps_the_texts() {
    for xml in ["<r><a>x<b/>y</a> <a> <c>z</c><!-- n -->w</a></r>", "<a><u>p<a>q</a></u> </a>"] {
        let full = simdxml::parse(xml.as_bytes()).unwrap();
        let lazy = parse_for_query(xml.as_bytes(), &names_of(&["a"])).unwrap();
        assert_eq!(
            lazy.xpath_text("//a", &arithmetic).unwrap(),
            full.xpath_text("//a", &arithmetic).unwrap()
        );
    }
}

#[test]
fn batches_agree_for_any_expression() {
    let docs: Vec<&[u8]> = vec![b"<r><a>x<b/>y</a></r>", b"<r><b>z</b> </r>", b"<a> </a>"];
    for text in ["//a", "//a/text()", "//text()[not(b)]", "/r/a | //text()", "//b/.."] {
        let xpath = CompiledXPath::compile(text).unwrap();
        let plain = eval_batch_text(&docs, &xpath, &arithmetic).unwrap();
        assert_eq!(eval_batch_text_bloom(&docs, &xpath, &arithmetic).unwrap(), plain);
        let threaded = simdxml::batch::eval_batch_parallel(&docs, &xpath, 4, &arithmetic).unwrap();
        assert_eq!(threaded, plain);
        let lazy = simdxml::batch::eval_batch_text_lazy(&docs, &xpath, &arithmetic).unwrap();
        assert_eq!(lazy, plain);
    }
}

#[test]
fn building_tables_twice_changes_nothing() {
    let mut index = parse(XML).unwrap();
    index.build_indices();
    let offsets = index.child_offsets.clone();
    let data = index.child_data.clone();
    assert_eq!(offsets[0], 0);
    assert_eq!(index.text_child_offsets[0], 0);
    index.build_indices();
    assert_eq!(index.child_offsets, offsets);
    assert_eq!(index.child_data, data);
}

#[test]
fn decoding_undoes_escaping() {
    let text = "a&b<c>d'e\"f &amp; &#65; ;";
    let escaped: String = text
        .chars()
        .map(|c| match c {
            '&' => "&amp;".to_string(),
            '<' => "&lt;".to_string(),
            '>' => "&gt;".to_string(),
            '\'' => "&apos;".to_string(),
            '"' => "&quot;".to_string(),
            c => c.to_string(),
        })
        .collect();
    assert_eq!(XmlIndex::decode_entities(&escaped), text);
}

#[test]
fn close_tags_of_all_kinds_do_not_depend_on_tables() {
    let mut index = parse(b"<r><a/><!--c--><?p q?><![CDATA[x]]><b>t</b></r>").unwrap();
    let before: Vec<Option<usize>> = (0..12).map(|i| index.matching_close(i)).collect();
    index.build_indices();
    let after: Vec<Option<usize>> = (0..12).map(|i| index.matching_close(i)).collect();
    assert_eq!(before, after);
    assert_eq!(before[0], Some(7));
    assert_eq!(before[1], Some(1));
    assert_eq!(before[2], None);
    assert_eq!(before[5], Some(6));
    assert_eq!(before[6], None);
    assert_eq!(before[11], None);
}

#[test]
fn listed_attributes_and_no_others() {
    let index = parse(b"<r a='1' b=\"2\" p:c='3'/>").unwrap();
    let listed = index.attributes(0);
    assert_eq!(listed.len(), 3);
    for (name, value) in listed {
        assert_eq!(index.get_attribute(0, name), Some(value));
    }
    assert_eq!(index.get_attribute(0, ""), None);
    assert_eq!(index.get_attribute(0, "c"), None);
    assert_eq!(index.get_attribute(9, "a"), None);
}

#[test]
fn siblings_are_the_other_children() {
    let mut index = parse(b"<r>a<b/>c<!--d--><e/>f</r>").unwrap();
    let node = XPathNode::Element(1);
    let after = simdxml::xpath::axes::eval_following_sibling_axis(&index, node);
    let before = simdxml::xpath::axes::eval_preceding_sibling_axis(&index, node);
    assert_eq!(after.len(), 4);
    assert_eq!(before, vec![XPathNode::Text(0)]);
    index.build_indices();
    assert_eq!(simdxml::xpath::axes::eval_following_sibling_axis(&index, node), after);
    assert_eq!(simdxml::xpath::axes::eval_preceding_sibling_axis(&index, node), before);
}
