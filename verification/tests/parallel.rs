//! Parsing in chunks.

use simdxml::xpath::numbers::{Number, NumberOp, NumberReply};
use simdxml::parallel::{find_safe_boundary, find_split_points, parse_parallel, MIN_PARALLEL_SIZE};

#[test]
fn parallel_matches_sequential_small() {
    let xml = b"<root><a>1</a><b>2</b><c>3</c></root>";
    let seq = simdxml::parse(xml).unwrap();
    let par = parse_parallel(xml, 2).unwrap(); // falls back to sequential (too small)

    assert_eq!(seq.tag_count(), par.tag_count());
    assert_eq!(seq.tag_types, par.tag_types);
}

#[test]
fn find_safe_boundary_basic() {
    let xml = b"<root><a>text</a><b>more</b></root>";
    let boundary = find_safe_boundary(xml, 15).unwrap();
    // Should find a > followed by <
    assert!(boundary > 0 && boundary <= xml.len());
    assert!(xml[boundary - 1] == b'>');
}

#[test]
fn boundaries_stand_before_markup() {
    let xml = b"<root><a>text</a><b>more</b></root>";
    assert_eq!(find_safe_boundary(xml, 15), Some(6));
    assert_eq!(find_safe_boundary(xml, 17), Some(17));
    assert_eq!(find_safe_boundary(xml, 100), Some(xml.len()));
    assert_eq!(find_safe_boundary(xml, 3), Some(6));
    assert_eq!(find_safe_boundary(b"<a> \n<b/>t</a>", 8), Some(3));
    assert_eq!(find_safe_boundary(b"plain", 3), None);
    let mut far = String::from("<r><a/>");
    far.push_str(&"x".repeat(5000));
    far.push_str("</r>");
    assert_eq!(find_safe_boundary(far.as_bytes(), 4000), Some(3));
    assert_eq!(find_safe_boundary(far.as_bytes(), 5000), Some(far.len()));
}

#[test]
fn split_points_reasonable() {
    // Create a ~128KB document
    let mut xml = String::from("<root>");
    for i in 0..2000 {
        xml.push_str(&format!("<item id=\"{}\">content {}</item>", i, i));
    }
    xml.push_str("</root>");
    let bytes = xml.as_bytes();

    let splits = find_split_points(bytes, 4);
    // Should have up to 3 split points for 4 chunks
    assert!(!splits.is_empty());
    assert!(splits.len() <= 3);

    // Each split should be at a > boundary
    for &s in &splits {
        assert!(s > 0);
        assert_eq!(bytes[s - 1], b'>');
    }
}

#[test]
fn parallel_parse_large_doc() {
    // Build a document large enough to trigger parallel parsing
    let mut xml = String::from("<corpus>");
    for i in 0..2000 {
        xml.push_str(&format!(
            "<patent id=\"{}\"><title>Patent {}</title><claims><claim>Claim text {}</claim></claims></patent>",
            i, i, i
        ));
    }
    xml.push_str("</corpus>");
    let bytes = xml.as_bytes();
    assert!(bytes.len() > MIN_PARALLEL_SIZE);

    let seq = simdxml::parse(bytes).unwrap();
    let par = parse_parallel(bytes, 4).unwrap();

    // Same number of tags
    assert_eq!(seq.tag_count(), par.tag_count(),
        "tag count: seq={} par={}", seq.tag_count(), par.tag_count());

    // Same tag types
    assert_eq!(seq.tag_types, par.tag_types);

    // Same tag positions
    assert_eq!(seq.tag_starts, par.tag_starts);
    assert_eq!(seq.tag_ends, par.tag_ends);

    // Same depths
    assert_eq!(seq.depths, par.depths);

    // Same parents
    assert_eq!(seq.parents, par.parents);
}

#[test]
fn parallel_xpath_equivalence() {
    let mut xml = String::from("<corpus>");
    for i in 0..2000 {
        xml.push_str(&format!(
            "<patent><title>Title {}</title><claim>Claim {}</claim></patent>",
            i, i
        ));
    }
    xml.push_str("</corpus>");
    let bytes = xml.as_bytes();

    let seq = simdxml::parse(bytes).unwrap();
    let mut par = parse_parallel(bytes, 4).unwrap();
    par.ensure_indices();

    let queries = ["//title", "//claim", "//patent", "/corpus/patent/title"];
    for q in &queries {
        let seq_results = seq.xpath_text(q, &arithmetic).unwrap();
        let par_results = par.xpath_text(q, &arithmetic).unwrap();
        assert_eq!(seq_results.len(), par_results.len(),
            "count mismatch for {}: seq={} par={}", q, seq_results.len(), par_results.len());
        assert_eq!(seq_results, par_results, "text mismatch for {}", q);
    }
}

#[test]
fn parallel_thread_counts() {
    let mut xml = String::from("<r>");
    for i in 0..3000 {
        xml.push_str(&format!("<item>{}</item>", i));
    }
    xml.push_str("</r>");
    let bytes = xml.as_bytes();

    let seq = simdxml::parse(bytes).unwrap();

    for threads in [1, 2, 4, 8] {
        let par = parse_parallel(bytes, threads).unwrap();
        assert_eq!(seq.tag_count(), par.tag_count(),
            "tag count mismatch with {} threads", threads);
        assert_eq!(seq.tag_types, par.tag_types,
            "tag types mismatch with {} threads", threads);
    }
}

#[test]
fn parallel_with_attributes() {
    let mut xml = String::from("<root>");
    for i in 0..2000 {
        xml.push_str(&format!(
            r#"<item id="{}" class="c{}" data-value="{}">content</item>"#,
            i, i % 10, i * 100
        ));
    }
    xml.push_str("</root>");
    let bytes = xml.as_bytes();

    let seq = simdxml::parse(bytes).unwrap();
    let mut par = parse_parallel(bytes, 4).unwrap();
    par.ensure_indices();

    assert_eq!(seq.tag_count(), par.tag_count());
    assert_eq!(seq.tag_starts, par.tag_starts);

    // Attribute access should work
    let seq_text = seq.xpath_text("//item", &arithmetic).unwrap();
    let par_text = par.xpath_text("//item", &arithmetic).unwrap();
    assert_eq!(seq_text, par_text);
}

fn float(n: Number) -> f64 {
    f64::from_bits(n.bits)
}

fn number(x: f64) -> NumberReply {
    NumberReply::Number(Number { bits: x.to_bits() })
}

fn format_number(n: f64) -> String {
    if n.is_nan() {
        return "NaN".to_string();
    }
    if n.is_infinite() {
        return if n > 0.0 { "Infinity".to_string() } else { "-Infinity".to_string() };
    }
    if n == n.trunc() && n.abs() < 1e15 {
        return format!("{}", n as i64);
    }
    let magnitude = n.abs();
    let exponent = if magnitude > 0.0 { magnitude.log10().floor() as i32 } else { 0 };
    if exponent >= -4 && exponent < 15 {
        let digits = (14 - exponent).max(0) as usize;
        let text = format!("{:.digits$}", n, digits = digits);
        if text.contains('.') {
            text.trim_end_matches('0').trim_end_matches('.').to_string()
        } else {
            text
        }
    } else {
        let text = format!("{:.14e}", n);
        match text.split_once('e') {
            Some((mantissa, exponent)) => {
                let mantissa = mantissa.trim_end_matches('0').trim_end_matches('.');
                let sign = if exponent.starts_with('-') { "-" } else { "+" };
                let digits = exponent.trim_start_matches('-').trim_start_matches('0');
                let digits = if digits.is_empty() { "0" } else { digits };
                format!("{}e{}{}", mantissa, sign, digits)
            }
            None => text,
        }
    }
}

fn substring_span(start: f64, len: Option<f64>, count: usize) -> (usize, usize) {
    if start.is_nan() {
        return (0, 0);
    }
    let p = start.round();
    let from = (p.max(1.0) as i64 - 1).max(0) as usize;
    let to = match len {
        None => count,
        Some(n) => {
            if n.is_nan() || n == f64::NEG_INFINITY {
                return (0, 0);
            }
            let end = p + n.round();
            if end == f64::NEG_INFINITY || p == f64::INFINITY {
                return (0, 0);
            }
            if end.is_infinite() { count } else { ((end as i64 - 1).max(0) as usize).min(count) }
        }
    };
    if from >= to || from >= count {
        (0, 0)
    } else {
        (from, to)
    }
}

fn arithmetic(op: NumberOp) -> NumberReply {
    match op {
        NumberOp::Parse(t) => number(t.trim().parse().unwrap_or(f64::NAN)),
        NumberOp::Sum(ts) => {
            number(ts.iter().map(|t| t.trim().parse::<f64>().unwrap_or(f64::NAN)).sum())
        }
        NumberOp::Count(n) => number(n as f64),
        NumberOp::Negate(a) => number(-float(a)),
        NumberOp::Add(a, b) => number(float(a) + float(b)),
        NumberOp::Subtract(a, b) => number(float(a) - float(b)),
        NumberOp::Multiply(a, b) => number(float(a) * float(b)),
        NumberOp::Divide(a, b) => number(float(a) / float(b)),
        NumberOp::Remainder(a, b) => number(float(a) % float(b)),
        NumberOp::Floor(a) => number(float(a).floor()),
        NumberOp::Ceiling(a) => number(float(a).ceil()),
        NumberOp::Round(a) => {
            let x = float(a);
            number(if x.fract() == -0.5 { x.ceil() } else { x.round() })
        }
        NumberOp::Less(a, b) => NumberReply::Flag(float(a) < float(b)),
        NumberOp::LessOrEqual(a, b) => NumberReply::Flag(float(a) <= float(b)),
        NumberOp::Equal(a, b) => NumberReply::Flag(float(a) == float(b)),
        NumberOp::IsTruthy(a) => NumberReply::Flag(float(a) != 0.0 && !float(a).is_nan()),
        NumberOp::Format(a) => NumberReply::Text(format_number(float(a))),
        NumberOp::Position(a, count) => {
            let x = float(a);
            let names = x >= 1.0 && x <= count as f64 && x == x.trunc();
            NumberReply::Index(if names { Some(x as usize - 1) } else { None })
        }
        NumberOp::Substring(a, len, count) => {
            let (from, to) = substring_span(float(a), len.map(float), count);
            NumberReply::Span(from, to)
        }
    }
}
