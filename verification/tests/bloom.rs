//! Bloom filter of tag names.

use simdxml::bloom::TagBloom;

#[test]
fn basic_insert_and_query() {
    let mut bloom = TagBloom::empty();
    bloom.insert(b"claim");
    bloom.insert(b"title");

    assert!(bloom.may_contain(b"claim"));
    assert!(bloom.may_contain(b"title"));
    // "xyzzy" unlikely to match (but possible as false positive)
}

#[test]
fn no_false_negatives() {
    let names: Vec<&[u8]> = vec![
        b"claim", b"patent", b"title", b"abstract", b"description",
        b"claims", b"citation", b"ref", b"inventor", b"applicant",
        b"date", b"id", b"classification", b"cpc", b"ipc",
        b"priority", b"family", b"legal-status", b"kind", b"country",
    ];

    let mut bloom = TagBloom::empty();
    for name in &names {
        bloom.insert(name);
    }

    // Every inserted name MUST be found
    for name in &names {
        assert!(bloom.may_contain(name), "false negative for {:?}", std::str::from_utf8(name));
    }
}

#[test]
fn empty_bloom_rejects_all() {
    let bloom = TagBloom::empty();
    assert!(!bloom.may_contain(b"claim"));
    assert!(!bloom.may_contain(b"anything"));
}

#[test]
fn prescan_matches_full_parse() {
    let xml = br#"<corpus>
        <patent id="1">
            <title>Widget</title>
            <claims><claim type="independent">A device</claim></claims>
        </patent>
    </corpus>"#;

    let bloom = TagBloom::from_prescan(xml);

    // All open tag names should be present
    assert!(bloom.may_contain(b"corpus"));
    assert!(bloom.may_contain(b"patent"));
    assert!(bloom.may_contain(b"title"));
    assert!(bloom.may_contain(b"claims"));
    assert!(bloom.may_contain(b"claim"));
}

#[test]
fn prescan_skips_close_tags() {
    let xml = b"<a><b>text</b></a>";
    let bloom = TagBloom::from_prescan(xml);
    // Should have "a" and "b" but not "/" or "a>" etc.
    assert!(bloom.may_contain(b"a"));
    assert!(bloom.may_contain(b"b"));
}

#[test]
fn from_index_matches_prescan() {
    let xml = br#"<root><a>1</a><b>2</b><c>3</c></root>"#;
    let index = simdxml::parse(xml).unwrap();

    let bloom_index = TagBloom::from_index(&index);
    let bloom_prescan = TagBloom::from_prescan(xml);

    // Both should find the same tag names
    for name in &[&b"root"[..], b"a", b"b", b"c"] {
        assert!(bloom_index.may_contain(name), "from_index missing {:?}", std::str::from_utf8(name));
        assert!(bloom_prescan.may_contain(name), "from_prescan missing {:?}", std::str::from_utf8(name));
    }
}

#[test]
fn serialization_round_trip() {
    let mut bloom = TagBloom::empty();
    bloom.insert(b"claim");
    bloom.insert(b"title");

    let bytes = bloom.to_bytes();
    let restored = TagBloom::from_bytes(bytes);

    assert_eq!(bloom, restored);
    assert!(restored.may_contain(b"claim"));
    assert!(restored.may_contain(b"title"));
}

#[test]
fn may_contain_any() {
    let mut bloom = TagBloom::empty();
    bloom.insert(b"claim");

    assert!(bloom.may_contain_any(&[b"title", b"claim"]));
    // Intentionally not asserting !may_contain_any for missing names
    // because false positives are allowed
}

#[test]
fn false_positive_rate() {
    // Insert 20 typical patent tag names, then test 1000 random-ish names
    let names: Vec<&[u8]> = vec![
        b"claim", b"patent", b"title", b"abstract", b"description",
        b"claims", b"citation", b"ref", b"inventor", b"applicant",
        b"date", b"id", b"classification", b"cpc", b"ipc",
        b"priority", b"family", b"legal-status", b"kind", b"country",
    ];

    let mut bloom = TagBloom::empty();
    for name in &names {
        bloom.insert(name);
    }

    // Test names that were NOT inserted
    let mut false_positives = 0;
    for i in 0..1000 {
        let test_name = format!("nonexistent_tag_{}", i);
        if bloom.may_contain(test_name.as_bytes()) {
            false_positives += 1;
        }
    }

    // With 128 bits and 20 names (40 bits set), FPR should be < 10%
    let fpr = false_positives as f64 / 1000.0;
    assert!(fpr < 0.10, "False positive rate too high: {:.1}%", fpr * 100.0);
}

#[test]
fn both_filters_of_a_plain_document_are_equal() {
    let xml = b"<r a='1'>t<x/><y k=\"v\">u</y><x>w</x></r>";
    let index = simdxml::parse(xml).unwrap();
    assert_eq!(TagBloom::from_index(&index), TagBloom::from_prescan(xml));
    assert_ne!(TagBloom::from_prescan(xml), TagBloom::empty());
}
