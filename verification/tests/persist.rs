//! Storing an index as bytes and reading it back.

use simdxml::bloom::TagBloom;
use simdxml::error::SimdXmlError;
use simdxml::index::XmlIndex;
use simdxml::parse;
use simdxml::persist::format::serialize_index;
use simdxml::persist::reader::{is_consistent, load_index_with_xml, read_bloom};
use simdxml::xpath::numbers::{Number, NumberOp, NumberReply};

fn assert_index_eq(built: &XmlIndex, loaded: &XmlIndex) {
    assert_eq!(built.tag_count(), loaded.tag_count());
    assert_eq!(built.text_count(), loaded.text_count());
    assert_eq!(built.tag_starts, loaded.tag_starts);
    assert_eq!(built.tag_ends, loaded.tag_ends);
    assert_eq!(built.tag_types, loaded.tag_types);
    assert_eq!(built.tag_names, loaded.tag_names);
    assert_eq!(built.depths, loaded.depths);
    assert_eq!(built.parents, loaded.parents);
    assert_eq!(built.close_map, loaded.close_map);
    assert_eq!(built.post_order, loaded.post_order);
    assert_eq!(built.child_offsets, loaded.child_offsets);
    assert_eq!(built.child_data, loaded.child_data);
    assert_eq!(built.text_child_offsets, loaded.text_child_offsets);
    assert_eq!(built.text_child_data, loaded.text_child_data);
    assert_eq!(built.text_ranges, loaded.text_ranges);
}

#[test]
fn round_trip_basic() {
    let xml = b"<root><child>text</child><empty/></root>";
    let index = parse(xml).unwrap();
    let sxi = serialize_index(&index, xml);

    let loaded = load_index_with_xml(&sxi, xml).unwrap();
    assert_index_eq(&index, &loaded);

    let orig = index.xpath_text("//child", &arithmetic).unwrap();
    let from_sxi = loaded.xpath_text("//child", &arithmetic).unwrap();
    assert_eq!(orig, vec!["text"]);
    assert_eq!(orig, from_sxi);
}

#[test]
fn round_trip_with_tables() {
    let xml = b"<root>a<child>text</child>b<empty/></root>";
    let mut index = parse(xml).unwrap();
    index.ensure_indices();
    let sxi = serialize_index(&index, xml);
    let loaded = load_index_with_xml(&sxi, xml).unwrap();
    assert!(loaded.has_indices());
    assert_index_eq(&index, &loaded);
}

#[test]
fn round_trip_with_name_index() {
    let xml = b"<root><a>1</a><b>2</b><a>3</a></root>";
    let mut index = parse(xml).unwrap();
    index.build_name_index();
    let sxi = serialize_index(&index, xml);
    let loaded = load_index_with_xml(&sxi, xml).unwrap();

    assert_eq!(index.name_ids, loaded.name_ids);
    assert_eq!(index.name_table, loaded.name_table);
    assert_eq!(index.name_posting, loaded.name_posting);
    assert_eq!(loaded.tags_by_name("a"), &[1u32, 5]);
}

#[test]
fn stale_detection() {
    let xml = b"<root><child/></root>";
    let index = parse(xml).unwrap();
    let sxi = serialize_index(&index, xml);

    let modified_xml = b"<root><other/></root>";
    let result = load_index_with_xml(&sxi, modified_xml);
    assert!(matches!(result, Err(SimdXmlError::StaleSxi)));
}

#[test]
fn invalid_magic() {
    let sxi = b"NOT_SXI_FILE_PADDING_TO_FILL_HEADER_PLUS_OFFSET_TABLE_AREA____\
        0000000000000000000000000000000000000000000000000000000000000000\
        0000000000000000000000000000000000000000000000000000000000000000\
        00000000000000000000000000000000";
    let result = load_index_with_xml(sxi, &[]);
    assert!(matches!(result, Err(SimdXmlError::InvalidSxi(_))));
}

#[test]
fn empty_document() {
    let xml = b"<r/>";
    let index = parse(xml).unwrap();
    let sxi = serialize_index(&index, xml);
    let loaded = load_index_with_xml(&sxi, xml).unwrap();
    assert_index_eq(&index, &loaded);
}

#[test]
fn comments_cdata_pi() {
    let xml = b"<root><!-- comment --><![CDATA[raw <data>]]><?target instr?><child>text</child></root>";
    let index = parse(xml).unwrap();
    let sxi = serialize_index(&index, xml);
    let loaded = load_index_with_xml(&sxi, xml).unwrap();
    assert_index_eq(&index, &loaded);
    assert_eq!(index.tag_types, loaded.tag_types);
}

#[test]
fn deeply_nested() {
    let mut xml = String::new();
    for i in 0..20 {
        xml.push_str(&format!("<l{}>", i));
    }
    xml.push_str("leaf");
    for i in (0..20).rev() {
        xml.push_str(&format!("</l{}>", i));
    }
    let xml_bytes = xml.as_bytes();
    let index = parse(xml_bytes).unwrap();
    let sxi = serialize_index(&index, xml_bytes);
    let loaded = load_index_with_xml(&sxi, xml_bytes).unwrap();
    assert_index_eq(&index, &loaded);
    assert_eq!(index.depths, loaded.depths);
    let max_depth = loaded.depths.iter().max().copied().unwrap_or(0);
    assert_eq!(max_depth, 19);
}

#[test]
fn attributes_preserved() {
    let xml = br#"<root xmlns:ns="http://example.com">
            <item id="1" class="a" ns:val="x">text1</item>
            <item id="2" class="b" ns:val="y">text2</item>
        </root>"#;
    let index = parse(xml).unwrap();
    let sxi = serialize_index(&index, xml);
    let loaded = load_index_with_xml(&sxi, xml).unwrap();
    let items = loaded.xpath_text("//item[@id='2']", &arithmetic).unwrap();
    assert_eq!(items, vec!["text2"]);
    let by_class = loaded.xpath_text("//item[@class='a']", &arithmetic).unwrap();
    assert_eq!(by_class, vec!["text1"]);
}

#[test]
fn xpath_comprehensive_equivalence() {
    let xml = br#"<corpus>
            <patent id="1">
                <title>Widget</title>
                <claims>
                    <claim type="independent" num="1">A device comprising a widget</claim>
                    <claim type="dependent" num="2">The device of claim 1</claim>
                </claims>
                <description>Detailed description here</description>
            </patent>
            <patent id="2">
                <title>Gadget</title>
                <claims>
                    <claim type="independent" num="1">A method for gadgeting</claim>
                </claims>
            </patent>
        </corpus>"#;
    let mut index = parse(xml).unwrap();
    index.build_name_index();
    let sxi = serialize_index(&index, xml);
    let loaded = load_index_with_xml(&sxi, xml).unwrap();

    let queries = [
        "//patent",
        "//claim",
        "//title/text()",
        "/corpus/patent/claims/claim",
        "//claim/ancestor::patent",
        "//title/following-sibling::*",
        "//description/preceding-sibling::*",
        "//claim[@type='independent']",
        "//claim[@num='1']",
        "//patent[@id='2']/title",
        "//patent/*",
        "/corpus/*/title",
        "//claims/claim[@type='dependent']",
        "//patent[claims/claim[@type='independent']]/title",
    ];
    for q in &queries {
        let orig_nodes = index.xpath(q, &arithmetic).unwrap();
        let loaded_nodes = loaded.xpath(q, &arithmetic).unwrap();
        assert_eq!(orig_nodes.len(), loaded_nodes.len(), "node count for {}", q);
        let orig_text = index.xpath_text(q, &arithmetic).unwrap();
        let loaded_text = loaded.xpath_text(q, &arithmetic).unwrap();
        assert_eq!(orig_text, loaded_text, "text for {}", q);
    }
}

#[test]
fn header_bytes() {
    let xml = b"<r/>";
    let sxi = serialize_index(&parse(xml).unwrap(), xml);
    assert_eq!(&sxi[0..4], b"SXI\x01");
    assert_eq!(&sxi[4..8], &[2, 0, 0, 0]);
    assert_eq!(&sxi[8..16], &xxhash_rust::xxh3::xxh3_64(xml).to_le_bytes());
    assert_eq!(&sxi[16..20], &[1, 0, 0, 0]);
    assert_eq!(&sxi[20..24], &[0, 0, 0, 0]);
}

#[test]
fn header_holds_the_filter() {
    let xml = b"<root><claim>x</claim></root>";
    let index = parse(xml).unwrap();
    let sxi = serialize_index(&index, xml);
    let bloom = read_bloom(&sxi[0..64]).unwrap();
    assert_eq!(bloom, TagBloom::from_index(&index));
    assert!(bloom.may_contain(b"claim"));
    assert!(!bloom.may_contain(b"zzz_not_a_tag"));
}

#[test]
fn filter_needs_the_magic() {
    let header = [0u8; 64];
    assert!(matches!(read_bloom(&header), Err(SimdXmlError::InvalidSxi(_))));
}

#[test]
fn too_short_is_refused() {
    let xml = b"<root><child/></root>";
    let sxi = serialize_index(&parse(xml).unwrap(), xml);
    assert!(matches!(load_index_with_xml(&sxi[0..100], xml), Err(SimdXmlError::InvalidSxi(_))));
    assert!(matches!(load_index_with_xml(&[], xml), Err(SimdXmlError::InvalidSxi(_))));
}

#[test]
fn other_version_is_refused() {
    let xml = b"<root><child/></root>";
    let mut sxi = serialize_index(&parse(xml).unwrap(), xml);
    sxi[4] = 9;
    assert!(matches!(load_index_with_xml(&sxi, xml), Err(SimdXmlError::InvalidSxi(_))));
}

#[test]
fn damaged_section_table_is_refused() {
    let xml = b"<root><child/></root>";
    let mut sxi = serialize_index(&parse(xml).unwrap(), xml);
    for b in 64..72 {
        sxi[b] = 0xff;
    }
    assert!(matches!(load_index_with_xml(&sxi, xml), Err(SimdXmlError::InvalidSxi(_))));
}

#[test]
fn damaged_array_is_refused() {
    let xml = b"<root><child/></root>";
    let index = parse(xml).unwrap();
    let mut sxi = serialize_index(&index, xml);
    for b in 176..184 {
        sxi[b] = 0xff;
    }
    assert!(matches!(load_index_with_xml(&sxi, xml), Err(SimdXmlError::InvalidSxi(_))));
}

#[test]
fn consistency_of_arrays() {
    let xml = b"<root><child/></root>";
    let mut index = parse(xml).unwrap();
    assert!(is_consistent(&index));
    index.parents[0] = 7;
    assert!(!is_consistent(&index));
}

fn float(n: Number) -> f64 {
    f64::from_bits(n.bits)
}

fn number(x: f64) -> NumberReply {
    NumberReply::Number(Number { bits: x.to_bits() })
}

fn format_number(n: f64) -> String {
    if n.is_nan() {
        return "NaN".to_string();
    }
    if n.is_infinite() {
        return if n > 0.0 { "Infinity".to_string() } else { "-Infinity".to_string() };
    }
    if n == n.trunc() && n.abs() < 1e15 {
        return format!("{}", n as i64);
    }
    let magnitude = n.abs();
    let exponent = if magnitude > 0.0 { magnitude.log10().floor() as i32 } else { 0 };
    if exponent >= -4 && exponent < 15 {
        let digits = (14 - exponent).max(0) as usize;
        let text = format!("{:.digits$}", n, digits = digits);
        if text.contains('.') {
            text.trim_end_matches('0').trim_end_matches('.').to_string()
        } else {
            text
        }
    } else {
        let text = format!("{:.14e}", n);
        match text.split_once('e') {
            Some((mantissa, exponent)) => {
                let mantissa = mantissa.trim_end_matches('0').trim_end_matches('.');
                let sign = if exponent.starts_with('-') { "-" } else { "+" };
                let digits = exponent.trim_start_matches('-').trim_start_matches('0');
                let digits = if digits.is_empty() { "0" } else { digits };
                format!("{}e{}{}", mantissa, sign, digits)
            }
            None => text,
        }
    }
}

fn substring_span(start: f64, len: Option<f64>, count: usize) -> (usize, usize) {
    if start.is_nan() {
        return (0, 0);
    }
    let p = start.round();
    let from = (p.max(1.0) as i64 - 1).max(0) as usize;
    let to = match len {
        None => count,
        Some(n) => {
            if n.is_nan() || n == f64::NEG_INFINITY {
                return (0, 0);
            }
            let end = p + n.round();
            if end == f64::NEG_INFINITY || p == f64::INFINITY {
                return (0, 0);
            }
            if end.is_infinite() { count } else { ((end as i64 - 1).max(0) as usize).min(count) }
        }
    };
    if from >= to || from >= count {
        (0, 0)
    } else {
        (from, to)
    }
}

fn arithmetic(op: NumberOp) -> NumberReply {
    match op {
        NumberOp::Parse(t) => number(t.trim().parse().unwrap_or(f64::NAN)),
        NumberOp::Sum(ts) => {
            number(ts.iter().map(|t| t.trim().parse::<f64>().unwrap_or(f64::NAN)).sum())
        }
        NumberOp::Count(n) => number(n as f64),
        NumberOp::Negate(a) => number(-float(a)),
        NumberOp::Add(a, b) => number(float(a) + float(b)),
        NumberOp::Subtract(a, b) => number(float(a) - float(b)),
        NumberOp::Multiply(a, b) => number(float(a) * float(b)),
        NumberOp::Divide(a, b) => number(float(a) / float(b)),
        NumberOp::Remainder(a, b) => number(float(a) % float(b)),
        NumberOp::Floor(a) => number(float(a).floor()),
        NumberOp::Ceiling(a) => number(float(a).ceil()),
        NumberOp::Round(a) => {
            let x = float(a);
            number(if x.fract() == -0.5 { x.ceil() } else { x.round() })
        }
        NumberOp::Less(a, b) => NumberReply::Flag(float(a) < float(b)),
        NumberOp::LessOrEqual(a, b) => NumberReply::Flag(float(a) <= float(b)),
        NumberOp::Equal(a, b) => NumberReply::Flag(float(a) == float(b)),
        NumberOp::IsTruthy(a) => NumberReply::Flag(float(a) != 0.0 && !float(a).is_nan()),
        NumberOp::Format(a) => NumberReply::Text(format_number(float(a))),
        NumberOp::Position(a, count) => {
            let x = float(a);
            let names = x >= 1.0 && x <= count as f64 && x == x.trunc();
            NumberReply::Index(if names { Some(x as usize - 1) } else { None })
        }
        NumberOp::Substring(a, len, count) => {
            let (from, to) = substring_span(float(a), len.map(float), count);
            NumberReply::Span(from, to)
        }
    }
}
