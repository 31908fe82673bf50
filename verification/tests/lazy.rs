//! Parsing for a query.

use simdxml::xpath::numbers::{Number, NumberOp, NumberReply};
use simdxml::index::lazy::parse_for_query;
use simdxml::name_set::NameSet;

fn names(strs: &[&str]) -> NameSet {
    let mut set = NameSet::new();
    for s in strs {
        set.insert(s.to_string());
    }
    set
}

#[test]
fn selective_parse_basic() {
    let xml = b"<root><a>1</a><b>2</b><c>3</c></root>";
    let interesting = names(&["a"]);
    let index = parse_for_query(xml, &interesting).unwrap();
    let a_texts = index.xpath_text("//a", &arithmetic).unwrap();
    assert_eq!(a_texts, vec!["1"]);
}

#[test]
fn selective_parse_nested() {
    let xml = b"<root><parent><target>found</target><other>skip</other></parent></root>";
    let interesting = names(&["target"]);
    let index = parse_for_query(xml, &interesting).unwrap();

    let found = index.xpath_text("//target", &arithmetic).unwrap();
    assert_eq!(found, vec!["found"]);
}

#[test]
fn selective_parse_multiple_names() {
    let xml = b"<r><a>1</a><b>2</b><c>3</c><a>4</a></r>";
    let interesting = names(&["a", "c"]);
    let index = parse_for_query(xml, &interesting).unwrap();

    let a_texts = index.xpath_text("//a", &arithmetic).unwrap();
    assert_eq!(a_texts, vec!["1", "4"]);

    let c_texts = index.xpath_text("//c", &arithmetic).unwrap();
    assert_eq!(c_texts, vec!["3"]);
}

#[test]
fn selective_fewer_tags() {
    let xml = b"<root><a>1</a><b>2</b><c>3</c><d>4</d><e>5</e></root>";
    let full = simdxml::parse(xml).unwrap();
    let interesting = names(&["a"]);
    let lazy = parse_for_query(xml, &interesting).unwrap();

    // Lazy index should have fewer tags
    assert!(lazy.tag_count() < full.tag_count(),
        "lazy {} should be < full {}", lazy.tag_count(), full.tag_count());
}

#[test]
fn empty_interesting_falls_back() {
    let xml = b"<root><child>text</child></root>";
    let empty = NameSet::new();
    let index = parse_for_query(xml, &empty).unwrap();

    // Should do full parse
    let full = simdxml::parse(xml).unwrap();
    assert_eq!(index.tag_count(), full.tag_count());
}

#[test]
fn self_closing_tags() {
    let xml = b"<root><target/><other/><target/></root>";
    let interesting = names(&["target"]);
    let index = parse_for_query(xml, &interesting).unwrap();

    let targets = index.xpath("//target", &arithmetic).unwrap();
    assert_eq!(targets.len(), 2);
}

#[test]
fn patent_like_structure() {
    let xml = br#"<corpus>
        <patent id="1">
            <title>Widget</title>
            <abstract>An abstract about widgets</abstract>
            <claims>
                <claim type="independent">A device comprising a widget</claim>
                <claim type="dependent">The device of claim 1</claim>
            </claims>
            <description>Very long description text here...</description>
        </patent>
        <patent id="2">
            <title>Gadget</title>
            <abstract>An abstract about gadgets</abstract>
            <claims>
                <claim type="independent">A method for gadgeting</claim>
            </claims>
            <description>Another long description...</description>
        </patent>
    </corpus>"#;

    let interesting = names(&["claim"]);
    let lazy = parse_for_query(xml, &interesting).unwrap();
    let full = simdxml::parse(xml).unwrap();

    // Lazy should have significantly fewer tags
    assert!(lazy.tag_count() < full.tag_count(),
        "lazy {} should be < full {}", lazy.tag_count(), full.tag_count());

    // But claim extraction should produce same results
    let lazy_claims = lazy.xpath_text("//claim", &arithmetic).unwrap();
    let full_claims = full.xpath_text("//claim", &arithmetic).unwrap();
    assert_eq!(lazy_claims, full_claims);
}

fn float(n: Number) -> f64 {
    f64::from_bits(n.bits)
}

fn number(x: f64) -> NumberReply {
    NumberReply::Number(Number { bits: x.to_bits() })
}

fn format_number(n: f64) -> String {
    if n.is_nan() {
        return "NaN".to_string();
    }
    if n.is_infinite() {
        return if n > 0.0 { "Infinity".to_string() } else { "-Infinity".to_string() };
    }
    if n == n.trunc() && n.abs() < 1e15 {
        return format!("{}", n as i64);
    }
    let magnitude = n.abs();
    let exponent = if magnitude > 0.0 { magnitude.log10().floor() as i32 } else { 0 };
    if exponent >= -4 && exponent < 15 {
        let digits = (14 - exponent).max(0) as usize;
        let text = format!("{:.digits$}", n, digits = digits);
        if text.contains('.') {
            text.trim_end_matches('0').trim_end_matches('.').to_string()
        } else {
            text
        }
    } else {
        let text = format!("{:.14e}", n);
        match text.split_once('e') {
            Some((mantissa, exponent)) => {
                let mantissa = mantissa.trim_end_matches('0').trim_end_matches('.');
                let sign = if exponent.starts_with('-') { "-" } else { "+" };
                let digits = exponent.trim_start_matches('-').trim_start_matches('0');
                let digits = if digits.is_empty() { "0" } else { digits };
                format!("{}e{}{}", mantissa, sign, digits)
            }
            None => text,
        }
    }
}

fn substring_span(start: f64, len: Option<f64>, count: usize) -> (usize, usize) {
    if start.is_nan() {
        return (0, 0);
    }
    let p = start.round();
    let from = (p.max(1.0) as i64 - 1).max(0) as usize;
    let to = match len {
        None => count,
        Some(n) => {
            if n.is_nan() || n == f64::NEG_INFINITY {
                return (0, 0);
            }
            let end = p + n.round();
            if end == f64::NEG_INFINITY || p == f64::INFINITY {
                return (0, 0);
            }
            if end.is_infinite() { count } else { ((end as i64 - 1).max(0) as usize).min(count) }
        }
    };
    if from >= to || from >= count {
        (0, 0)
    } else {
        (from, to)
    }
}

fn arithmetic(op: NumberOp) -> NumberReply {
    match op {
        NumberOp::Parse(t) => number(t.trim().parse().unwrap_or(f64::NAN)),
        NumberOp::Sum(ts) => {
            number(ts.iter().map(|t| t.trim().parse::<f64>().unwrap_or(f64::NAN)).sum())
        }
        NumberOp::Count(n) => number(n as f64),
        NumberOp::Negate(a) => number(-float(a)),
        NumberOp::Add(a, b) => number(float(a) + float(b)),
        NumberOp::Subtract(a, b) => number(float(a) - float(b)),
        NumberOp::Multiply(a, b) => number(float(a) * float(b)),
        NumberOp::Divide(a, b) => number(float(a) / float(b)),
        NumberOp::Remainder(a, b) => number(float(a) % float(b)),
        NumberOp::Floor(a) => number(float(a).floor()),
        NumberOp::Ceiling(a) => number(float(a).ceil()),
        NumberOp::Round(a) => {
            let x = float(a);
            number(if x.fract() == -0.5 { x.ceil() } else { x.round() })
        }
        NumberOp::Less(a, b) => NumberReply::Flag(float(a) < float(b)),
        NumberOp::LessOrEqual(a, b) => NumberReply::Flag(float(a) <= float(b)),
        NumberOp::Equal(a, b) => NumberReply::Flag(float(a) == float(b)),
        NumberOp::IsTruthy(a) => NumberReply::Flag(float(a) != 0.0 && !float(a).is_nan()),
        NumberOp::Format(a) => NumberReply::Text(format_number(float(a))),
        NumberOp::Position(a, count) => {
            let x = float(a);
            let names = x >= 1.0 && x <= count as f64 && x == x.trunc();
            NumberReply::Index(if names { Some(x as usize - 1) } else { None })
        }
        NumberOp::Substring(a, len, count) => {
            let (from, to) = substring_span(float(a), len.map(float), count);
            NumberReply::Span(from, to)
        }
    }
}
