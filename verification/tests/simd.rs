//! Structural character classification.

use simdxml::simd::{classify_neon, classify_sse42};

#[test]
fn neon_test_simple_tags() {
    let input = b"<root><child>text</child></root>";
    let idx = classify_neon(input);
    let lt_pos: Vec<usize> = idx.lt_positions().collect();
    let gt_pos: Vec<usize> = idx.gt_positions().collect();
    // <root> at 0-5, <child> at 6-12, </child> at 17-24, </root> at 25-31
    assert_eq!(lt_pos, vec![0, 6, 17, 25]);
    assert_eq!(gt_pos, vec![5, 12, 24, 31]);
}

#[test]
fn neon_test_quoted_gt() {
    // '>' inside attribute value should be masked out
    let input = b"<root attr=\"a>b\">text</root>";
    let idx = classify_neon(input);
    let gt_pos: Vec<usize> = idx.gt_positions().collect();
    // Only the '>' at position 16 (closing tag start) and 27 (closing tag end)
    assert!(!gt_pos.contains(&13)); // the '>' inside quotes
    assert!(gt_pos.contains(&16));  // closing '>' of open tag
}

#[test]
fn neon_test_no_quotes() {
    let input = b"<a><b>hello</b></a>";
    let idx = classify_neon(input);
    let lt_pos: Vec<usize> = idx.lt_positions().collect();
    assert_eq!(lt_pos, vec![0, 3, 11, 15]);
}

#[test]
fn neon_test_large_input() {
    // Test with >64 bytes to exercise full NEON path
    let mut input = Vec::new();
    for i in 0..100 {
        input.extend_from_slice(format!("<t{}>x</t{}>", i, i).as_bytes());
    }
    let idx = classify_neon(&input);
    let lt_count = idx.lt_positions().count();
    let gt_count = idx.gt_positions().count();
    assert_eq!(lt_count, 200); // 100 open + 100 close
    assert_eq!(gt_count, 200);
}

#[test]
fn sse42_test_simple_tags() {
    let input = b"<root><child>text</child></root>";
    let idx = classify_sse42(input);
    let lt_pos: Vec<usize> = idx.lt_positions().collect();
    let gt_pos: Vec<usize> = idx.gt_positions().collect();
    assert_eq!(lt_pos, vec![0, 6, 17, 25]);
    assert_eq!(gt_pos, vec![5, 12, 24, 31]);
}

#[test]
fn sse42_test_quoted_gt() {
    let input = b"<root attr=\"a>b\">text</root>";
    let idx = classify_sse42(input);
    let gt_pos: Vec<usize> = idx.gt_positions().collect();
    assert!(!gt_pos.contains(&13));
    assert!(gt_pos.contains(&16));
}

#[test]
fn sse42_test_no_quotes() {
    let input = b"<a><b>hello</b></a>";
    let idx = classify_sse42(input);
    let lt_pos: Vec<usize> = idx.lt_positions().collect();
    assert_eq!(lt_pos, vec![0, 3, 11, 15]);
}

#[test]
fn sse42_test_large_input() {
    let mut input = Vec::new();
    for i in 0..100 {
        input.extend_from_slice(format!("<t{}>x</t{}>", i, i).as_bytes());
    }
    let idx = classify_sse42(&input);
    let lt_count = idx.lt_positions().count();
    let gt_count = idx.gt_positions().count();
    assert_eq!(lt_count, 200);
    assert_eq!(gt_count, 200);
}
