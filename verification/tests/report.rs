//! Printing query results and document statistics.

use simdxml::batch::{eval_batch_parallel, threads_per_document};
use simdxml::error::SimdXmlError;
use simdxml::parse;
use simdxml::report::json::json_array;
use simdxml::report::render::{render_batch, render_query, QueryOptions, Rendered, Source};
use simdxml::report::statistics::{max_depth, tag_statistics};
use simdxml::xpath::numbers::{Number, NumberOp, NumberReply};
use simdxml::CompiledXPath;

fn plain() -> QueryOptions {
    QueryOptions {
        raw: false,
        count: false,
        json: false,
        list: false,
        null_separated: false,
        whitespace: false,
        with_name: false,
        many: false,
    }
}

fn source(name: &str, text: &str) -> Source {
    Source { name: name.to_string(), data: text.as_bytes().to_vec() }
}

fn one(xpath: &str, text: &str, options: QueryOptions) -> Rendered {
    render_query(xpath, &vec![source("a.xml", text)], &options, &arithmetic)
}

const BOOK: &str = "<book><title>Rust &amp; Co</title><title> </title><n a='1'>x<b>y</b></n></book>";

#[test]
fn texts_one_per_line() {
    let r = one("//title", BOOK, plain());
    assert_eq!(r.output, "Rust & Co\n");
    assert!(r.matched);
    assert!(r.error.is_none());
}

#[test]
fn white_space_on_request() {
    let mut o = plain();
    o.whitespace = true;
    assert_eq!(one("//title", BOOK, o).output, "Rust & Co\n \n");
}

#[test]
fn nul_separated() {
    let mut o = plain();
    o.null_separated = true;
    assert_eq!(one("//title", BOOK, o).output, "Rust & Co\0");
}

#[test]
fn raw_fragments() {
    let mut o = plain();
    o.raw = true;
    assert_eq!(one("//n", BOOK, o).output, "<n a='1'>x<b>y</b></n>\n");
    let mut o = plain();
    o.raw = true;
    assert_eq!(one("//n/text()", BOOK, o).output, "x\n");
    let mut o = plain();
    o.raw = true;
    assert_eq!(one("//n/@a", BOOK, o).output, "<n a='1'>\n");
}

#[test]
fn counts_nodes() {
    let mut o = plain();
    o.count = true;
    let r = one("//title", BOOK, o);
    assert_eq!(r.output, "2\n");
    assert!(r.matched);
    let mut o = plain();
    o.count = true;
    let r = one("//none", BOOK, o);
    assert_eq!(r.output, "0\n");
    assert!(!r.matched);
}

#[test]
fn json_output() {
    let mut o = plain();
    o.json = true;
    assert_eq!(one("//title", BOOK, o).output, "[\"Rust & Co\"]\n");
}

#[test]
fn lists_names_of_matching_documents() {
    let mut o = plain();
    o.list = true;
    o.many = true;
    o.with_name = true;
    let sources = vec![source("a.xml", "<r><x/></r>"), source("b.xml", "<r/>")];
    let r = render_query("//x", &sources, &o, &arithmetic);
    assert_eq!(r.output, "a.xml\n");
    assert!(r.matched);
}

#[test]
fn numbers_and_booleans() {
    let r = one("count(//title)", BOOK, plain());
    assert_eq!(r.output, "2\n");
    assert!(r.matched);
    let r = one("contains(//b, 'z')", BOOK, plain());
    assert_eq!(r.output, "false\n");
    assert!(!r.matched);
    let r = one("string(//b)", BOOK, plain());
    assert_eq!(r.output, "y\n");
    assert!(r.matched);
}

#[test]
fn names_head_raw_results_of_many_documents() {
    let mut o = plain();
    o.raw = true;
    o.many = true;
    o.with_name = true;
    let sources = vec![source("a.xml", "<r><x/></r>"), source("b.xml", "<r/>")];
    let r = render_query("//x", &sources, &o, &arithmetic);
    assert_eq!(r.output, "a.xml\n<x/>\n");
}

#[test]
fn batch_texts_with_names() {
    let mut o = plain();
    o.many = true;
    o.with_name = true;
    let sources = vec![
        source("a.xml", "<r><x>1</x></r>"),
        source("b.xml", "<r><y>2</y></r>"),
        source("c.xml", "<r><x>3</x><x>&lt;</x></r>"),
    ];
    let compiled = CompiledXPath::compile("//x").unwrap();
    let r = render_batch(&compiled, &sources, &o, 1, &arithmetic);
    assert_eq!(r.output, "a.xml\n1\nc.xml\n3\n<\n");
    assert!(r.matched);
    assert!(r.error.is_none());
}

#[test]
fn batch_counts() {
    let mut o = plain();
    o.many = true;
    o.with_name = true;
    o.count = true;
    let sources = vec![source("a.xml", "<r><x/><x/></r>"), source("b.xml", "<r/>")];
    let compiled = CompiledXPath::compile("//x").unwrap();
    let r = render_batch(&compiled, &sources, &o, 1, &arithmetic);
    assert_eq!(r.output, "a.xml:2\nb.xml:0\n");
    assert!(r.matched);
}

#[test]
fn batch_json_is_one_array() {
    let mut o = plain();
    o.many = true;
    o.json = true;
    let sources = vec![source("a.xml", "<r><x>1</x></r>"), source("b.xml", "<r><x>2</x></r>")];
    let compiled = CompiledXPath::compile("//x").unwrap();
    let r = render_batch(&compiled, &sources, &o, 2, &arithmetic);
    assert_eq!(r.output, "[\"1\",\"2\"]\n");
}

#[test]
fn invalid_expression_is_reported() {
    let r = one("//[", BOOK, plain());
    assert!(matches!(r.error, Some(SimdXmlError::XPathParseError(_))));
    assert_eq!(r.output, "");
}

#[test]
fn unclosed_tag_is_reported() {
    let r = one("//a", "<a><b", plain());
    assert!(matches!(r.error, Some(SimdXmlError::UnclosedTag(3))));
}

#[test]
fn batch_unclosed_tag_is_reported() {
    let mut o = plain();
    o.many = true;
    let sources = vec![source("a.xml", "<r><x>1</x></r>"), source("b.xml", "<x><")];
    let compiled = CompiledXPath::compile("//x").unwrap();
    let r = render_batch(&compiled, &sources, &o, 1, &arithmetic);
    assert!(matches!(r.error, Some(SimdXmlError::UnclosedTag(3))));
}

#[test]
fn no_query_is_an_evaluation_error() {
    let docs: Vec<&[u8]> = vec![b"<r><a/></r>"];
    let compiled = CompiledXPath::compile("count(//a)").unwrap();
    let r = eval_batch_parallel(&docs, &compiled, 1, &arithmetic);
    assert!(matches!(r, Err(SimdXmlError::XPathEvalError(_))));
}

#[test]
fn threads_are_shared_among_documents() {
    assert_eq!(threads_per_document(8, 2), 4);
    assert_eq!(threads_per_document(8, 1), 8);
    assert_eq!(threads_per_document(2, 5), 2);
}

#[test]
fn json_escapes() {
    let items = vec!["a\"b\\c\nd\re\tf\u{1}".to_string(), "é".to_string()];
    assert_eq!(json_array(&items), "[\"a\\\"b\\\\c\\nd\\re\\tf\\u0001\",\"é\"]\n");
    assert_eq!(json_array(&vec![]), "[]\n");
}

#[test]
fn statistics_of_a_document() {
    let xml = b"<r><a/><b><a>x</a></b><!-- c --><a/></r>";
    let index = parse(xml).unwrap();
    let list = tag_statistics(&index);
    let found: Vec<(&str, usize)> = list.iter().map(|t| (t.name, t.count)).collect();
    assert_eq!(found.len(), 3);
    assert_eq!(found[0], ("a", 3));
    assert!(found.contains(&("r", 1)));
    assert!(found.contains(&("b", 1)));
    assert_eq!(max_depth(&index), 2);
}

#[test]
fn statistics_of_an_empty_input() {
    let index = parse(b"").unwrap();
    assert!(tag_statistics(&index).is_empty());
    assert_eq!(max_depth(&index), 0);
}

fn float(n: Number) -> f64 {
    f64::from_bits(n.bits)
}

fn number(x: f64) -> NumberReply {
    NumberReply::Number(Number { bits: x.to_bits() })
}

fn format_number(n: f64) -> String {
    if n.is_nan() {
        return "NaN".to_string();
    }
    if n.is_infinite() {
        return if n > 0.0 { "Infinity".to_string() } else { "-Infinity".to_string() };
    }
    if n == n.trunc() && n.abs() < 1e15 {
        return format!("{}", n as i64);
    }
    let magnitude = n.abs();
    let exponent = if magnitude > 0.0 { magnitude.log10().floor() as i32 } else { 0 };
    if exponent >= -4 && exponent < 15 {
        let digits = (14 - exponent).max(0) as usize;
        let text = format!("{:.digits$}", n, digits = digits);
        if text.contains('.') {
            text.trim_end_matches('0').trim_end_matches('.').to_string()
        } else {
            text
        }
    } else {
        let text = format!("{:.14e}", n);
        match text.split_once('e') {
            Some((mantissa, exponent)) => {
                let mantissa = mantissa.trim_end_matches('0').trim_end_matches('.');
                let sign = if exponent.starts_with('-') { "-" } else { "+" };
                let digits = exponent.trim_start_matches('-').trim_start_matches('0');
                let digits = if digits.is_empty() { "0" } else { digits };
                format!("{}e{}{}", mantissa, sign, digits)
            }
            None => text,
        }
    }
}

fn substring_span(start: f64, len: Option<f64>, count: usize) -> (usize, usize) {
    if start.is_nan() {
        return (0, 0);
    }
    let p = start.round();
    let from = (p.max(1.0) as i64 - 1).max(0) as usize;
    let to = match len {
        None => count,
        Some(n) => {
            if n.is_nan() || n == f64::NEG_INFINITY {
                return (0, 0);
            }
            let end = p + n.round();
            if end == f64::NEG_INFINITY || p == f64::INFINITY {
                return (0, 0);
            }
            if end.is_infinite() { count } else { ((end as i64 - 1).max(0) as usize).min(count) }
        }
    };
    if from >= to || from >= count {
        (0, 0)
    } else {
        (from, to)
    }
}

fn arithmetic(op: NumberOp) -> NumberReply {
    match op {
        NumberOp::Parse(t) => number(t.trim().parse().unwrap_or(f64::NAN)),
        NumberOp::Sum(ts) => {
            number(ts.iter().map(|t| t.trim().parse::<f64>().unwrap_or(f64::NAN)).sum())
        }
        NumberOp::Count(n) => number(n as f64),
        NumberOp::Negate(a) => number(-float(a)),
        NumberOp::Add(a, b) => number(float(a) + float(b)),
        NumberOp::Subtract(a, b) => number(float(a) - float(b)),
        NumberOp::Multiply(a, b) => number(float(a) * float(b)),
        NumberOp::Divide(a, b) => number(float(a) / float(b)),
        NumberOp::Remainder(a, b) => number(float(a) % float(b)),
        NumberOp::Floor(a) => number(float(a).floor()),
        NumberOp::Ceiling(a) => number(float(a).ceil()),
        NumberOp::Round(a) => {
            let x = float(a);
            number(if x.fract() == -0.5 { x.ceil() } else { x.round() })
        }
        NumberOp::Less(a, b) => NumberReply::Flag(float(a) < float(b)),
        NumberOp::LessOrEqual(a, b) => NumberReply::Flag(float(a) <= float(b)),
        NumberOp::Equal(a, b) => NumberReply::Flag(float(a) == float(b)),
        NumberOp::IsTruthy(a) => NumberReply::Flag(float(a) != 0.0 && !float(a).is_nan()),
        NumberOp::Format(a) => NumberReply::Text(format_number(float(a))),
        NumberOp::Position(a, count) => {
            let x = float(a);
            let names = x >= 1.0 && x <= count as f64 && x == x.trunc();
            NumberReply::Index(if names { Some(x as usize - 1) } else { None })
        }
        NumberOp::Substring(a, len, count) => {
            let (from, to) = substring_span(float(a), len.map(float), count);
            NumberReply::Span(from, to)
        }
    }
}
