//! String predicates over many nodes.

use simdxml::xpath::numbers::{Number, NumberOp, NumberReply};
use simdxml::xpath::simd_pred::{batch_contains, batch_starts_with};
use simdxml::xpath::values::node_string_value;

#[test]
fn batch_contains_basic() {
    let xml = b"<r><p>hello world</p><p>goodbye</p><p>hello again</p></r>";
    let index = simdxml::parse(xml).unwrap();

    // Get all <p> elements
    let nodes = index.xpath("//p", &arithmetic).unwrap();
    assert_eq!(nodes.len(), 3);

    let results = batch_contains(&index, &nodes, "hello");
    assert_eq!(results, vec![true, false, true]);
}

#[test]
fn batch_contains_empty_needle() {
    let xml = b"<r><p>text</p></r>";
    let index = simdxml::parse(xml).unwrap();
    let nodes = index.xpath("//p", &arithmetic).unwrap();

    // Empty needle matches everything (per XPath spec)
    let results = batch_contains(&index, &nodes, "");
    assert_eq!(results, vec![true]);
}

#[test]
fn batch_starts_with_basic() {
    let xml = b"<r><p>alpha one</p><p>beta two</p><p>alpha three</p></r>";
    let index = simdxml::parse(xml).unwrap();
    let nodes = index.xpath("//p", &arithmetic).unwrap();

    let results = batch_starts_with(&index, &nodes, "alpha");
    assert_eq!(results, vec![true, false, true]);
}

#[test]
fn batch_vs_individual_contains() {
    let xml = br#"<corpus>
        <p>The quick brown fox</p>
        <p>jumps over the lazy dog</p>
        <p>pack my box with five dozen liquor jugs</p>
        <p>the five boxing wizards jump quickly</p>
        <p>how vexingly quick daft zebras jump</p>
        <p>sphinx of black quartz judge my vow</p>
        <p>two driven jocks help fax my big quiz</p>
        <p>the jay pig fox zebra and my wolves quack</p>
        <p>sympathizing would fix quaker objectives</p>
        <p>a wizard quick job vexes much of Gryphon</p>
    </corpus>"#;

    let index = simdxml::parse(xml).unwrap();
    let nodes = index.xpath("//p", &arithmetic).unwrap();
    assert_eq!(nodes.len(), 10);

    let needle = "quick";

    // Batch result
    let batch_results = batch_contains(&index, &nodes, needle);

    // Individual results
    let individual: Vec<bool> = nodes.iter().map(|&node| {
        let text = node_string_value(&index, node);
        text.contains(needle)
    }).collect();

    assert_eq!(batch_results, individual);
}

#[test]
fn batch_contains_no_matches() {
    let xml = b"<r><p>aaa</p><p>bbb</p><p>ccc</p></r>";
    let index = simdxml::parse(xml).unwrap();
    let nodes = index.xpath("//p", &arithmetic).unwrap();

    let results = batch_contains(&index, &nodes, "zzz");
    assert_eq!(results, vec![false, false, false]);
}

fn float(n: Number) -> f64 {
    f64::from_bits(n.bits)
}

fn number(x: f64) -> NumberReply {
    NumberReply::Number(Number { bits: x.to_bits() })
}

fn format_number(n: f64) -> String {
    if n.is_nan() {
        return "NaN".to_string();
    }
    if n.is_infinite() {
        return if n > 0.0 { "Infinity".to_string() } else { "-Infinity".to_string() };
    }
    if n == n.trunc() && n.abs() < 1e15 {
        return format!("{}", n as i64);
    }
    let magnitude = n.abs();
    let exponent = if magnitude > 0.0 { magnitude.log10().floor() as i32 } else { 0 };
    if exponent >= -4 && exponent < 15 {
        let digits = (14 - exponent).max(0) as usize;
        let text = format!("{:.digits$}", n, digits = digits);
        if text.contains('.') {
            text.trim_end_matches('0').trim_end_matches('.').to_string()
        } else {
            text
        }
    } else {
        let text = format!("{:.14e}", n);
        match text.split_once('e') {
            Some((mantissa, exponent)) => {
                let mantissa = mantissa.trim_end_matches('0').trim_end_matches('.');
                let sign = if exponent.starts_with('-') { "-" } else { "+" };
                let digits = exponent.trim_start_matches('-').trim_start_matches('0');
                let digits = if digits.is_empty() { "0" } else { digits };
                format!("{}e{}{}", mantissa, sign, digits)
            }
            None => text,
        }
    }
}

fn substring_span(start: f64, len: Option<f64>, count: usize) -> (usize, usize) {
    if start.is_nan() {
        return (0, 0);
    }
    let p = start.round();
    let from = (p.max(1.0) as i64 - 1).max(0) as usize;
    let to = match len {
        None => count,
        Some(n) => {
            if n.is_nan() || n == f64::NEG_INFINITY {
                return (0, 0);
            }
            let end = p + n.round();
            if end == f64::NEG_INFINITY || p == f64::INFINITY {
                return (0, 0);
            }
            if end.is_infinite() { count } else { ((end as i64 - 1).max(0) as usize).min(count) }
        }
    };
    if from >= to || from >= count {
        (0, 0)
    } else {
        (from, to)
    }
}

fn arithmetic(op: NumberOp) -> NumberReply {
    match op {
        NumberOp::Parse(t) => number(t.trim().parse().unwrap_or(f64::NAN)),
        NumberOp::Sum(ts) => {
            number(ts.iter().map(|t| t.trim().parse::<f64>().unwrap_or(f64::NAN)).sum())
        }
        NumberOp::Count(n) => number(n as f64),
        NumberOp::Negate(a) => number(-float(a)),
        NumberOp::Add(a, b) => number(float(a) + float(b)),
        NumberOp::Subtract(a, b) => number(float(a) - float(b)),
        NumberOp::Multiply(a, b) => number(float(a) * float(b)),
        NumberOp::Divide(a, b) => number(float(a) / float(b)),
        NumberOp::Remainder(a, b) => number(float(a) % float(b)),
        NumberOp::Floor(a) => number(float(a).floor()),
        NumberOp::Ceiling(a) => number(float(a).ceil()),
        NumberOp::Round(a) => {
            let x = float(a);
            number(if x.fract() == -0.5 { x.ceil() } else { x.round() })
        }
        NumberOp::Less(a, b) => NumberReply::Flag(float(a) < float(b)),
        NumberOp::LessOrEqual(a, b) => NumberReply::Flag(float(a) <= float(b)),
        NumberOp::Equal(a, b) => NumberReply::Flag(float(a) == float(b)),
        NumberOp::IsTruthy(a) => NumberReply::Flag(float(a) != 0.0 && !float(a).is_nan()),
        NumberOp::Format(a) => NumberReply::Text(format_number(float(a))),
        NumberOp::Position(a, count) => {
            let x = float(a);
            let names = x >= 1.0 && x <= count as f64 && x == x.trunc();
            NumberReply::Index(if names { Some(x as usize - 1) } else { None })
        }
        NumberOp::Substring(a, len, count) => {
            let (from, to) = substring_span(float(a), len.map(float), count);
            NumberReply::Span(from, to)
        }
    }
}
