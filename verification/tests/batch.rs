//! Evaluating an expression against many documents.

use simdxml::xpath::numbers::{Number, NumberOp, NumberReply};
use simdxml::batch::{count_batch, eval_batch_parallel, eval_batch_text, eval_batch_text_bloom, eval_batch_text_lazy};
use simdxml::CompiledXPath;

#[test]
fn batch_of_one() {
    let doc = b"<root><claim>A device</claim></root>";
    let xpath = CompiledXPath::compile("//claim").unwrap();
    let results = eval_batch_text(&[doc.as_slice()], &xpath, &arithmetic).unwrap();
    assert_eq!(results, vec![vec!["A device"]]);
}

#[test]
fn batch_multiple_docs() {
    let docs: Vec<&[u8]> = vec![
        b"<r><claim>First</claim></r>",
        b"<r><claim>Second</claim><claim>Third</claim></r>",
        b"<r><other>No claims</other></r>",
    ];

    let xpath = CompiledXPath::compile("//claim").unwrap();
    let results = eval_batch_text(&docs, &xpath, &arithmetic).unwrap();

    assert_eq!(results.len(), 3);
    assert_eq!(results[0], vec!["First"]);
    assert_eq!(results[1], vec!["Second", "Third"]);
    assert!(results[2].is_empty());
}

#[test]
fn batch_matches_individual() {
    let docs: Vec<&[u8]> = vec![
        b"<r><a>1</a><b>2</b></r>",
        b"<r><a>3</a></r>",
        b"<r><b>4</b></r>",
    ];

    let xpath = CompiledXPath::compile("//a").unwrap();
    let batch = eval_batch_text(&docs, &xpath, &arithmetic).unwrap();

    for (i, &doc) in docs.iter().enumerate() {
        let index = simdxml::parse(doc).unwrap();
        let individual: Vec<String> = xpath.eval_text(&index, &arithmetic).unwrap()
            .into_iter().map(|s| s.to_string()).collect();
        assert_eq!(individual, batch[i], "doc {} mismatch", i);
    }
}

#[test]
fn batch_lazy_matches_full() {
    let docs: Vec<&[u8]> = vec![
        b"<r><claim>A</claim><other>skip</other></r>",
        b"<r><claim>B</claim></r>",
    ];

    let xpath = CompiledXPath::compile("//claim").unwrap();
    let full = eval_batch_text(&docs, &xpath, &arithmetic).unwrap();
    let lazy = eval_batch_text_lazy(&docs, &xpath, &arithmetic).unwrap();
    assert_eq!(full, lazy);
}

#[test]
fn batch_bloom_skips_irrelevant() {
    let docs: Vec<&[u8]> = vec![
        b"<r><claim>A</claim></r>",
        b"<r><other>no claims</other></r>",
        b"<r><claim>B</claim></r>",
    ];

    let xpath = CompiledXPath::compile("//claim").unwrap();
    let results = eval_batch_text_bloom(&docs, &xpath, &arithmetic).unwrap();

    assert_eq!(results.len(), 3);
    assert_eq!(results[0], vec!["A"]);
    assert!(results[1].is_empty());
    assert_eq!(results[2], vec!["B"]);
}

#[test]
fn batch_empty() {
    let docs: Vec<&[u8]> = vec![];
    let xpath = CompiledXPath::compile("//claim").unwrap();
    let results = eval_batch_text(&docs, &xpath, &arithmetic).unwrap();
    assert!(results.is_empty());
}

#[test]
fn batch_predicate() {
    let docs: Vec<&[u8]> = vec![
        br#"<r><claim type="independent">A</claim><claim type="dependent">B</claim></r>"#,
        br#"<r><claim type="dependent">C</claim></r>"#,
    ];

    let xpath = CompiledXPath::compile("//claim[@type='independent']").unwrap();
    let results = eval_batch_text(&docs, &xpath, &arithmetic).unwrap();
    assert_eq!(results[0], vec!["A"]);
    assert!(results[1].is_empty());
}

#[test]
fn count_batch_works() {
    let docs: Vec<&[u8]> = vec![
        b"<r><a/><a/><b/></r>",
        b"<r><a/></r>",
        b"<r><b/></r>",
    ];

    let xpath = CompiledXPath::compile("//a").unwrap();
    let counts = count_batch(&docs, &xpath, &arithmetic).unwrap();
    assert_eq!(counts, vec![2, 1, 0]);
}

#[test]
fn batch_bloom_all_match() {
    let docs: Vec<&[u8]> = vec![
        b"<r><claim>A</claim></r>",
        b"<r><claim>B</claim></r>",
    ];

    let xpath = CompiledXPath::compile("//claim").unwrap();
    let bloom_results = eval_batch_text_bloom(&docs, &xpath, &arithmetic).unwrap();
    let full_results = eval_batch_text(&docs, &xpath, &arithmetic).unwrap();
    assert_eq!(bloom_results, full_results);
}

#[test]
fn parallel_batch_matches_sequential() {
    let docs: Vec<&[u8]> = vec![
        b"<r><claim>A</claim><other>skip</other></r>",
        b"<r><claim>B</claim><claim>C</claim></r>",
        b"<r><other>no claims</other></r>",
    ];

    let xpath = CompiledXPath::compile("//claim").unwrap();
    let seq_results = eval_batch_text(&docs, &xpath, &arithmetic).unwrap();
    let par_results = eval_batch_parallel(&docs, &xpath, 4, &arithmetic).unwrap();
    assert_eq!(seq_results, par_results);
}

#[test]
fn parallel_batch_single_thread() {
    let docs: Vec<&[u8]> = vec![
        b"<r><a>1</a></r>",
        b"<r><a>2</a></r>",
    ];
    let xpath = CompiledXPath::compile("//a").unwrap();
    let results = eval_batch_parallel(&docs, &xpath, 1, &arithmetic).unwrap();
    assert_eq!(results, vec![vec!["1"], vec!["2"]]);
}

#[test]
fn parallel_batch_empty() {
    let docs: Vec<&[u8]> = vec![];
    let xpath = CompiledXPath::compile("//a").unwrap();
    let results = eval_batch_parallel(&docs, &xpath, 4, &arithmetic).unwrap();
    assert!(results.is_empty());
}

fn float(n: Number) -> f64 {
    f64::from_bits(n.bits)
}

fn number(x: f64) -> NumberReply {
    NumberReply::Number(Number { bits: x.to_bits() })
}

fn format_number(n: f64) -> String {
    if n.is_nan() {
        return "NaN".to_string();
    }
    if n.is_infinite() {
        return if n > 0.0 { "Infinity".to_string() } else { "-Infinity".to_string() };
    }
    if n == n.trunc() && n.abs() < 1e15 {
        return format!("{}", n as i64);
    }
    let magnitude = n.abs();
    let exponent = if magnitude > 0.0 { magnitude.log10().floor() as i32 } else { 0 };
    if exponent >= -4 && exponent < 15 {
        let digits = (14 - exponent).max(0) as usize;
        let text = format!("{:.digits$}", n, digits = digits);
        if text.contains('.') {
            text.trim_end_matches('0').trim_end_matches('.').to_string()
        } else {
            text
        }
    } else {
        let text = format!("{:.14e}", n);
        match text.split_once('e') {
            Some((mantissa, exponent)) => {
                let mantissa = mantissa.trim_end_matches('0').trim_end_matches('.');
                let sign = if exponent.starts_with('-') { "-" } else { "+" };
                let digits = exponent.trim_start_matches('-').trim_start_matches('0');
                let digits = if digits.is_empty() { "0" } else { digits };
                format!("{}e{}{}", mantissa, sign, digits)
            }
            None => text,
        }
    }
}

fn substring_span(start: f64, len: Option<f64>, count: usize) -> (usize, usize) {
    if start.is_nan() {
        return (0, 0);
    }
    let p = start.round();
    let from = (p.max(1.0) as i64 - 1).max(0) as usize;
    let to = match len {
        None => count,
        Some(n) => {
            if n.is_nan() || n == f64::NEG_INFINITY {
                return (0, 0);
            }
            let end = p + n.round();
            if end == f64::NEG_INFINITY || p == f64::INFINITY {
                return (0, 0);
            }
            if end.is_infinite() { count } else { ((end as i64 - 1).max(0) as usize).min(count) }
        }
    };
    if from >= to || from >= count {
        (0, 0)
    } else {
        (from, to)
    }
}

fn arithmetic(op: NumberOp) -> NumberReply {
    match op {
        NumberOp::Parse(t) => number(t.trim().parse().unwrap_or(f64::NAN)),
        NumberOp::Sum(ts) => {
            number(ts.iter().map(|t| t.trim().parse::<f64>().unwrap_or(f64::NAN)).sum())
        }
        NumberOp::Count(n) => number(n as f64),
        NumberOp::Negate(a) => number(-float(a)),
        NumberOp::Add(a, b) => number(float(a) + float(b)),
        NumberOp::Subtract(a, b) => number(float(a) - float(b)),
        NumberOp::Multiply(a, b) => number(float(a) * float(b)),
        NumberOp::Divide(a, b) => number(float(a) / float(b)),
        NumberOp::Remainder(a, b) => number(float(a) % float(b)),
        NumberOp::Floor(a) => number(float(a).floor()),
        NumberOp::Ceiling(a) => number(float(a).ceil()),
        NumberOp::Round(a) => {
            let x = float(a);
            number(if x.fract() == -0.5 { x.ceil() } else { x.round() })
        }
        NumberOp::Less(a, b) => NumberReply::Flag(float(a) < float(b)),
        NumberOp::LessOrEqual(a, b) => NumberReply::Flag(float(a) <= float(b)),
        NumberOp::Equal(a, b) => NumberReply::Flag(float(a) == float(b)),
        NumberOp::IsTruthy(a) => NumberReply::Flag(float(a) != 0.0 && !float(a).is_nan()),
        NumberOp::Format(a) => NumberReply::Text(format_number(float(a))),
        NumberOp::Position(a, count) => {
            let x = float(a);
            let names = x >= 1.0 && x <= count as f64 && x == x.trunc();
            NumberReply::Index(if names { Some(x as usize - 1) } else { None })
        }
        NumberOp::Substring(a, len, count) => {
            let (from, to) = substring_span(float(a), len.map(float), count);
            NumberReply::Span(from, to)
        }
    }
}

#[test]
fn documents_without_the_names_are_not_parsed() {
    let docs: Vec<&[u8]> = vec![b"<x", b"<r><claim a='1'>A</claim></r>"];
    for query in ["/claim", "//claim[@a]", "//claim | //other", "/r/claim", "//claim/text()"] {
        let xpath = CompiledXPath::compile(query).unwrap();
        let found = eval_batch_text_bloom(&docs, &xpath, &arithmetic).unwrap();
        let spread = eval_batch_parallel(&docs, &xpath, 4, &arithmetic).unwrap();
        assert_eq!(found.len(), 2);
        assert!(found[0].is_empty());
        assert_eq!(found, spread);
        assert!(eval_batch_text(&docs, &xpath, &arithmetic).is_err());
    }
    let xpath = CompiledXPath::compile("/r/claim").unwrap();
    assert_eq!(eval_batch_text_bloom(&docs, &xpath, &arithmetic).unwrap()[1], vec!["A"]);
}

#[test]
fn documents_are_parsed_unless_a_name_decides() {
    let docs: Vec<&[u8]> = vec![b"<x"];
    for query in ["//*", "//@claim", "/", "//claim | /*"] {
        let xpath = CompiledXPath::compile(query).unwrap();
        assert!(eval_batch_text_bloom(&docs, &xpath, &arithmetic).is_err());
    }
    let docs: Vec<&[u8]> = vec![b"<r claim='1'/>"];
    let xpath = CompiledXPath::compile("//@claim | //claim").unwrap();
    assert_eq!(
        eval_batch_text_bloom(&docs, &xpath, &arithmetic).unwrap(),
        eval_batch_text(&docs, &xpath, &arithmetic).unwrap()
    );
}

#[test]
fn every_way_gives_the_same_answers() {
    let docs: Vec<&[u8]> = vec![
        b"<r><a>1<b>2</b></a><c><a><a>3</a></a><b>4</b></c></r>",
        b"<a><b>5</b><x><b>6</b></x></a>",
        b"<r/>",
    ];
    for query in ["//a", "/a/b", "//a/b", "//a//b", "//a | //b", "/r/c/a | //b", "//a[b]", "//a[1]"] {
        let xpath = CompiledXPath::compile(query).unwrap();
        let plain = eval_batch_text(&docs, &xpath, &arithmetic).unwrap();
        assert_eq!(eval_batch_text_lazy(&docs, &xpath, &arithmetic).unwrap(), plain, "{}", query);
        assert_eq!(eval_batch_text_bloom(&docs, &xpath, &arithmetic).unwrap(), plain, "{}", query);
        for threads in [0, 1, 5] {
            assert_eq!(eval_batch_parallel(&docs, &xpath, threads, &arithmetic).unwrap(), plain);
        }
    }
}
