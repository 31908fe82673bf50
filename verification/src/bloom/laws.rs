//! A filter never hides an element of the document that it was made from, and the
//! two ways to make one agree.

use vstd::prelude::*;
use vstd::utf8::*;
use crate::bloom::{
    covers, ends_scanned_name, filter_of, lemma_no_false_negatives, name_mask, scanned_names,
    tag_names_of,
};
use crate::bytes::{is_byte, lemma_find_seq, lemma_scan_to, lemma_scan_to_is, occurs_at, scan_to};
use crate::index::access::is_element;
use crate::index::laws::{entry_for, has_construct, lemma_outline_entries};
use crate::index::lexer::{
    cdata_closing, cdata_opening, comment_closing, comment_opening, ends_open_name, ends_target,
    lemma_lex_bounds, lex, pi_closing, LexemeV,
};
use crate::index::outline::{outline, scan, Doc};
use crate::index::structural::parsed;
use crate::index::{TagType, XmlIndex};

verus! {

/// A scan for names cannot run over a `>`: whatever it finds from a position
/// after the `>` on, it also finds when it starts before it.
proof fn lemma_scan_resumes(s: Seq<u8>, p: int, e: int, name: Seq<u8>)
    requires
        0 <= p <= e < s.len(),
        s[e] == 0x3e,
        scanned_names(s, e + 1).contains(name),
    ensures
        scanned_names(s, p).contains(name),
    decreases e - p,
{
    let q = scan_to(s, p, is_byte(0x3c));
    lemma_scan_to(s, p, is_byte(0x3c));
    if q > e {
        lemma_scan_to_is(s, e + 1, is_byte(0x3c), q);
    } else if s[q + 1] == 0x2f || s[q + 1] == 0x21 || s[q + 1] == 0x3f {
        lemma_scan_resumes(s, q + 1, e, name);
    } else {
        let end = scan_to(s, q + 1, ends_scanned_name());
        lemma_scan_to(s, q + 1, ends_scanned_name());
        assert(end <= e);
        if q + 1 < end {
            lemma_scan_resumes(s, end, e, name);
            let rest = scanned_names(s, end);
            let i = choose|i: int| 0 <= i < rest.len() && rest[i] == name;
            let all = seq![s.subrange(q + 1, end)] + rest;
            assert(all[i + 1] == name);
        } else {
            lemma_scan_resumes(s, q + 1, e, name);
        }
    }
}

/// A construct ends at a `>`, or so near to the end of the input that no other
/// construct follows it.
proof fn lemma_ends_at_bracket(s: Seq<u8>, p: int)
    requires
        0 <= p < s.len(),
        lex(s, p, false) is Some,
    ensures
        ({
            let l = lex(s, p, false)->0;
            l.end + 2 >= s.len() || s[l.end] == 0x3e
        }),
{
    let l = lex(s, p, false)->0;
    lemma_lex_bounds(s, p, false);
    if s[p + 1] == 0x21 {
        if occurs_at(s, p + 2, comment_opening()) {
            lemma_find_seq(s, p + 4, comment_closing());
            if l.end + 2 < s.len() {
                assert(comment_closing()[2] == s[l.end - 2 + 2]);
            }
        } else if occurs_at(s, p + 2, cdata_opening()) {
            lemma_find_seq(s, p + 9, cdata_closing());
            if l.end + 2 < s.len() {
                assert(cdata_closing()[2] == s[l.end - 2 + 2]);
            }
        } else {
            lemma_scan_to(s, p, is_byte(0x3e));
        }
    } else if s[p + 1] == 0x3f {
        let name_end = scan_to(s, p + 2, ends_target());
        lemma_scan_to(s, p + 2, ends_target());
        lemma_find_seq(s, name_end, pi_closing());
        if l.end + 2 < s.len() {
            assert(pi_closing()[1] == s[l.end - 1 + 1]);
        }
    }
}

/// The name of an element tag, where it ends as a scanned name does.
pub open spec fn has_scanned_name(s: Seq<u8>, l: LexemeV) -> bool {
    &&& l.kind matches Some(kind) && is_element(kind)
    &&& l.name_start < l.name_end < s.len()
    &&& ends_scanned_name()(s[l.name_end])
}

proof fn lemma_scan_finds(s: Seq<u8>, p: int, i: int)
    requires
        0 <= p <= s.len(),
        0 <= i < scan(s, p, false).lexemes.len(),
        has_scanned_name(s, scan(s, p, false).lexemes[i]),
    ensures
        ({
            let l = scan(s, p, false).lexemes[i];
            scanned_names(s, p).contains(s.subrange(l.name_start, l.name_end))
        }),
    decreases s.len() + 1 - p,
{
    let q = scan_to(s, p, is_byte(0x3c));
    lemma_scan_to(s, p, is_byte(0x3c));
    let l = lex(s, q, false)->0;
    lemma_lex_bounds(s, q, false);
    let found = scan(s, p, false).lexemes[i];
    let name = s.subrange(found.name_start, found.name_end);
    let rest = scan(s, l.end + 1, false).lexemes;
    if i == 0 {
        let end = scan_to(s, q + 1, ends_open_name());
        lemma_scan_to(s, q + 1, ends_open_name());
        lemma_scan_to_is(s, q + 1, ends_scanned_name(), end);
        let all = seq![name] + scanned_names(s, end);
        assert(all[0] == name);
    } else {
        assert(rest[i - 1] == found);
        lemma_ends_at_bracket(s, q);
        if s[l.end] != 0x3e || l.end + 1 > s.len() {
            let q2 = scan_to(s, l.end + 1, is_byte(0x3c));
            if l.end + 1 <= s.len() {
                lemma_scan_to(s, l.end + 1, is_byte(0x3c));
            }
            assert(rest.len() == 0);
        } else {
            lemma_scan_finds(s, l.end + 1, i - 1);
            lemma_scan_resumes(s, q, l.end, name);
            lemma_scan_to_is(s, q, is_byte(0x3c), q);
        }
    }
}

/// The filter of a prescan has the name of every element of the document, unless
/// the name is empty or ends at a byte that ends no scanned name: a form feed, or
/// the middle of a name of more than 65535 bytes.
pub proof fn lemma_prescan_covers(s: Seq<u8>, d: Doc, i: int)
    requires
        parsed(s) == Ok::<Doc, int>(d),
        s.len() <= u64::MAX,
        0 <= i < d.types.len(),
        is_element(d.types[i]),
        d.names[i].1 > 0,
        ends_scanned_name()(s[d.names[i].0 + d.names[i].1]),
    ensures
        ({
            let name = s.subrange(d.names[i].0 as int, d.names[i].0 + d.names[i].1);
            &&& scanned_names(s, 0).contains(name)
            &&& covers(filter_of(scanned_names(s, 0)), name_mask(name))
        }),
{
    let ls = scan(s, 0, false).lexemes;
    crate::index::laws::lemma_scan_lexemes(s, 0, false);
    lemma_outline_entries(ls);
    assert(has_construct(d, i, ls));
    let j = choose|j: int| 0 <= j < ls.len() && entry_for(d, i, #[trigger] ls[j]);
    let l = ls[j];
    lemma_lex_bounds(s, l.start, false);
    lemma_scan_to(s, l.start + 1, ends_open_name());
    assert(l.name_start == l.start + 1);
    assert(d.names[i].1 == l.name_end - l.name_start) by {
        if d.names[i].1 < l.name_end - l.name_start {
            assert(!ends_open_name()(s[d.names[i].0 + d.names[i].1]));
        }
    }
    lemma_scan_finds(s, 0, j);
    let all = scanned_names(s, 0);
    let name = s.subrange(d.names[i].0 as int, d.names[i].0 + d.names[i].1);
    let k = choose|k: int| 0 <= k < all.len() && all[k] == name;
    lemma_no_false_negatives(all, k);
}

proof fn lemma_index_names(index: XmlIndex, i: int, k: int)
    requires
        0 <= i < k,
        index.name_text(i).len() > 0,
    ensures
        tag_names_of(index, k).contains(encode_utf8(index.name_text(i))),
    decreases k,
{
    let all = tag_names_of(index, k);
    let name = encode_utf8(index.name_text(i));
    if i == k - 1 {
        assert(all[all.len() - 1] == name);
    } else {
        lemma_index_names(index, i, k - 1);
        let before = tag_names_of(index, k - 1);
        let j = choose|j: int| 0 <= j < before.len() && before[j] == name;
        assert(all[j] == name);
    }
}

/// The filter of an index has the name of every tag of the index that has a name
/// in UTF-8.
pub proof fn lemma_index_filter_covers(index: XmlIndex, i: int)
    requires
        0 <= i < index.tags(),
        index.name_text(i).len() > 0,
    ensures
        covers(
            filter_of(tag_names_of(index, index.tags() as int)),
            name_mask(index.name_bytes(i)),
        ),
{
    lemma_index_names(index, i, index.tags() as int);
    decode_utf8_encode_utf8(index.name_bytes(i));
    let all = tag_names_of(index, index.tags() as int);
    let k = choose|k: int| 0 <= k < all.len() && all[k] == encode_utf8(index.name_text(i));
    lemma_no_false_negatives(all, k);
}

// The two filters of a document.

/// A filter of names that are all among other names adds nothing to their filter.
proof fn lemma_filter_within(a: Seq<Seq<u8>>, b: Seq<Seq<u8>>)
    requires
        forall|k: int| 0 <= k < a.len() ==> b.contains(#[trigger] a[k]),
    ensures
        filter_of(a) | filter_of(b) == filter_of(b),
    decreases a.len(),
{
    let y = filter_of(b);
    if a.len() == 0 {
        assert(0u128 | y == y) by (bit_vector);
    } else {
        let before = a.drop_last();
        assert forall|k: int| 0 <= k < before.len() implies b.contains(#[trigger] before[k]) by {
            assert(before[k] == a[k]);
        }
        lemma_filter_within(before, b);
        assert(b.contains(a[a.len() - 1]));
        let i = choose|i: int| 0 <= i < b.len() && b[i] == a.last();
        lemma_no_false_negatives(b, i);
        let x = filter_of(before);
        let m = name_mask(a.last());
        assert(x | y == y && y & m == m ==> (x | m) | y == y) by (bit_vector);
    }
}

/// Names that are the same but for order and repetition have the same filter.
proof fn lemma_same_filter(a: Seq<Seq<u8>>, b: Seq<Seq<u8>>)
    requires
        forall|k: int| 0 <= k < a.len() ==> b.contains(#[trigger] a[k]),
        forall|k: int| 0 <= k < b.len() ==> a.contains(#[trigger] b[k]),
    ensures
        filter_of(a) == filter_of(b),
{
    lemma_filter_within(a, b);
    lemma_filter_within(b, a);
    let x = filter_of(a);
    let y = filter_of(b);
    assert(x | y == y && y | x == x ==> x == y) by (bit_vector);
}

/// An open, self-closing or close tag without a `<` inside it; the name of an
/// element is valid UTF-8, ends as a scanned name does, and is not longer than 65535
/// bytes.
pub open spec fn is_plain(s: Seq<u8>, l: LexemeV) -> bool {
    &&& l.kind == Some(TagType::Close) || (has_scanned_name(s, l) && l.name_end - l.name_start
        < 0x1_0000 && valid_utf8(s.subrange(l.name_start, l.name_end)))
    &&& forall|k: int| l.start < k <= l.end ==> #[trigger] s[k] != 0x3c
}

/// The name of a tag is that of an element.
pub open spec fn names_element(index: XmlIndex, i: int) -> bool {
    exists|j: int|
        0 <= j < index.tags() && #[trigger] index.element(j) && index.name_bytes(j)
            == index.name_bytes(i)
}

/// A scan over bytes without a `<` finds what a later scan finds.
proof fn lemma_scan_skips(s: Seq<u8>, p: int, e: int)
    requires
        0 <= p <= e <= s.len(),
        forall|k: int| p <= k < e ==> #[trigger] s[k] != 0x3c,
    ensures
        scanned_names(s, p) == scanned_names(s, e),
{
    let q = scan_to(s, e, is_byte(0x3c));
    lemma_scan_to(s, e, is_byte(0x3c));
    lemma_scan_to_is(s, p, is_byte(0x3c), q);
}

/// In a plain document, every scanned name is the name of an element.
proof fn lemma_scanned_is_name(s: Seq<u8>, p: int, name: Seq<u8>)
    requires
        0 <= p <= s.len(),
        scan(s, p, false).unclosed is None,
        forall|i: int|
            0 <= i < scan(s, p, false).lexemes.len() ==> is_plain(
                s,
                #[trigger] scan(s, p, false).lexemes[i],
            ),
        scanned_names(s, p).contains(name),
    ensures
        is_name_of(s, scan(s, p, false).lexemes, name),
    decreases s.len() + 1 - p,
{
    let q = scan_to(s, p, is_byte(0x3c));
    lemma_scan_to(s, p, is_byte(0x3c));
    let ls = scan(s, p, false).lexemes;
    if q + 1 < s.len() {
        let l = lex(s, q, false)->0;
        lemma_lex_bounds(s, q, false);
        let rest = scan(s, l.end + 1, false).lexemes;
        assert(ls == seq![l] + rest);
        assert(ls[0] == l);
        assert(is_plain(s, ls[0]));
        assert forall|i: int| 0 <= i < rest.len() implies is_plain(s, #[trigger] rest[i]) by {
            assert(is_plain(s, ls[i + 1]));
        }
        let found = scanned_names(s, l.end + 1);
        if l.kind == Some(TagType::Close) {
            lemma_scan_skips(s, q + 1, l.end + 1);
        } else {
            let end = scan_to(s, q + 1, ends_open_name());
            lemma_scan_to(s, q + 1, ends_open_name());
            lemma_scan_to_is(s, q + 1, ends_scanned_name(), end);
            lemma_scan_skips(s, end, l.end + 1);
            let all = seq![s.subrange(q + 1, end)] + found;
            assert(scanned_names(s, p) == all);
            let k = choose|k: int| 0 <= k < all.len() && all[k] == name;
            if k == 0 {
                assert(has_scanned_name(s, ls[0]) && name == s.subrange(
                    ls[0].name_start,
                    ls[0].name_end,
                ));
            } else {
                assert(found[k - 1] == name);
            }
        }
        if !is_name_of(s, ls, name) {
            lemma_scanned_is_name(s, l.end + 1, name);
            let i = choose|i: int|
                0 <= i < rest.len() && has_scanned_name(s, #[trigger] rest[i]) && name
                    == s.subrange(rest[i].name_start, rest[i].name_end);
            assert(ls[i + 1] == rest[i]);
        }
    }
}

/// Whether an element among the constructs has the name.
pub open spec fn is_name_of(s: Seq<u8>, ls: Seq<LexemeV>, name: Seq<u8>) -> bool {
    exists|i: int|
        0 <= i < ls.len() && has_scanned_name(s, #[trigger] ls[i]) && name == s.subrange(
            ls[i].name_start,
            ls[i].name_end,
        )
}

/// Every construct that is a tag has an entry in the outline.
proof fn lemma_has_entry(ls: Seq<LexemeV>, j: int) -> (i: int)
    requires
        0 <= j < ls.len(),
        ls[j].kind is Some,
    ensures
        0 <= i < outline(ls).doc.starts.len(),
        entry_for(outline(ls).doc, i, ls[j]),
    decreases ls.len(),
{
    let before = ls.drop_last();
    lemma_outline_entries(before);
    if j == ls.len() - 1 {
        outline(before).doc.starts.len() as int
    } else {
        let i = lemma_has_entry(before, j);
        assert(before[j] == ls[j]);
        i
    }
}

/// The names of an index come from its tags.
proof fn lemma_names_from(index: XmlIndex, k: int, name: Seq<u8>) -> (i: int)
    requires
        tag_names_of(index, k).contains(name),
    ensures
        0 <= i < k,
        index.name_text(i).len() > 0,
        name == index.name_bytes(i),
    decreases k,
{
    let all = tag_names_of(index, k);
    let j = choose|j: int| 0 <= j < all.len() && all[j] == name;
    if k > 0 {
        let before = tag_names_of(index, k - 1);
        if j < before.len() {
            assert(before[j] == name);
            lemma_names_from(index, k - 1, name)
        } else {
            decode_utf8_encode_utf8(index.name_bytes(k - 1));
            k - 1
        }
    } else {
        0
    }
}

/// In a plain document, the name of an element is scanned.
proof fn lemma_element_scanned(s: Seq<u8>, index: XmlIndex, i: int)
    requires
        parsed(s) == Ok::<Doc, int>(index.doc()),
        index.input@ == s,
        index.wf(),
        s.len() <= u64::MAX,
        forall|k: int|
            0 <= k < scan(s, 0, false).lexemes.len() ==> is_plain(
                s,
                #[trigger] scan(s, 0, false).lexemes[k],
            ),
        0 <= i < index.tags(),
        index.element(i),
    ensures
        scanned_names(s, 0).contains(index.name_bytes(i)),
{
    let d = index.doc();
    let ls = scan(s, 0, false).lexemes;
    crate::index::laws::lemma_scan_lexemes(s, 0, false);
    lemma_outline_entries(ls);
    assert(has_construct(d, i, ls));
    let j = choose|j: int| 0 <= j < ls.len() && entry_for(d, i, #[trigger] ls[j]);
    let l = ls[j];
    assert(is_plain(s, l));
    lemma_lex_bounds(s, l.start, false);
    assert(d.names[i].1 == l.name_end - l.name_start);
    lemma_prescan_covers(s, d, i);
}

/// The names of the elements among the first `k` tags.
pub open spec fn element_names(index: XmlIndex, k: int) -> Seq<Seq<u8>>
    decreases k,
{
    if k <= 0 {
        Seq::empty()
    } else if index.element(k - 1) {
        element_names(index, k - 1).push(index.name_bytes(k - 1))
    } else {
        element_names(index, k - 1)
    }
}

/// The names of elements are those of the element tags.
proof fn lemma_element_names(index: XmlIndex, k: int)
    ensures
        forall|j: int|
            0 <= j < element_names(index, k).len() ==> has_element_name(
                index,
                k,
                #[trigger] element_names(index, k)[j],
            ),
        forall|i: int|
            0 <= i < k && #[trigger] index.element(i) ==> element_names(index, k).contains(
                index.name_bytes(i),
            ),
    decreases k,
{
    if k > 0 {
        lemma_element_names(index, k - 1);
        let before = element_names(index, k - 1);
        let all = element_names(index, k);
        assert forall|j: int| 0 <= j < all.len() implies has_element_name(
            index,
            k,
            #[trigger] all[j],
        ) by {
            if j < before.len() {
                assert(has_element_name(index, k - 1, before[j]));
                let i = choose|i: int|
                    0 <= i < k - 1 && #[trigger] index.element(i) && index.name_bytes(i)
                        == before[j];
                assert(index.element(i));
            } else {
                assert(index.element(k - 1));
            }
        }
        assert forall|i: int| 0 <= i < k && #[trigger] index.element(i) implies all.contains(
            index.name_bytes(i),
        ) by {
            if i == k - 1 {
                assert(all[all.len() - 1] == index.name_bytes(i));
            } else {
                let w = choose|w: int| 0 <= w < before.len() && before[w] == index.name_bytes(i);
                assert(all[w] == before[w]);
            }
        }
    }
}

/// Whether an element among the first `k` tags has the name.
pub open spec fn has_element_name(index: XmlIndex, k: int, name: Seq<u8>) -> bool {
    exists|i: int| 0 <= i < k && #[trigger] index.element(i) && index.name_bytes(i) == name
}

/// Building the filter from the index or by a prescan gives the same filter, that of
/// the names of the elements and no others, where
/// the document holds nothing but text and plain tags, and every close tag has the
/// name of an element.
pub proof fn lemma_filters_agree(s: Seq<u8>, index: XmlIndex)
    requires
        parsed(s) == Ok::<Doc, int>(index.doc()),
        index.input@ == s,
        index.wf(),
        s.len() <= u64::MAX,
        forall|k: int|
            0 <= k < scan(s, 0, false).lexemes.len() ==> is_plain(
                s,
                #[trigger] scan(s, 0, false).lexemes[k],
            ),
        forall|i: int|
            0 <= i < index.tags() && index.tag_types@[i] == TagType::Close ==> #[trigger] names_element(
                index,
                i,
            ),
    ensures
        filter_of(tag_names_of(index, index.tags() as int)) == filter_of(scanned_names(s, 0)),
        filter_of(element_names(index, index.tags() as int)) == filter_of(scanned_names(s, 0)),
        forall|i: int|
            0 <= i < index.tags() && #[trigger] index.element(i) ==> covers(
                filter_of(scanned_names(s, 0)),
                name_mask(index.name_bytes(i)),
            ),
{
    let n = index.tags() as int;
    let named = tag_names_of(index, n);
    let scanned = scanned_names(s, 0);
    let ls = scan(s, 0, false).lexemes;
    let d = index.doc();
    crate::index::laws::lemma_scan_lexemes(s, 0, false);
    lemma_outline_entries(ls);
    assert forall|k: int| 0 <= k < named.len() implies scanned.contains(#[trigger] named[k]) by {
        assert(named.contains(named[k]));
        let i = lemma_names_from(index, n, named[k]);
        assert(has_construct(d, i, ls));
        let j = choose|j: int| 0 <= j < ls.len() && entry_for(d, i, #[trigger] ls[j]);
        assert(is_plain(s, ls[j]));
        if index.tag_types@[i] == TagType::Close {
            assert(names_element(index, i));
            let e = choose|e: int|
                0 <= e < index.tags() && #[trigger] index.element(e) && index.name_bytes(e)
                    == index.name_bytes(i);
            lemma_element_scanned(s, index, e);
        } else {
            lemma_element_scanned(s, index, i);
        }
    }
    assert forall|k: int| 0 <= k < scanned.len() implies named.contains(#[trigger] scanned[k]) by {
        let name = scanned[k];
        assert(scanned.contains(name));
        lemma_scanned_is_name(s, 0, name);
        let j = choose|j: int|
            0 <= j < ls.len() && has_scanned_name(s, #[trigger] ls[j]) && name == s.subrange(
                ls[j].name_start,
                ls[j].name_end,
            );
        assert(is_plain(s, ls[j]));
        let i = lemma_has_entry(ls, j);
        lemma_lex_bounds(s, ls[j].start, false);
        assert(d.names[i].0 == ls[j].name_start);
        assert(d.names[i].1 == ls[j].name_end - ls[j].name_start);
        assert(index.name_bytes(i) == name);
        decode_utf8_encode_utf8(name);
        if index.name_text(i).len() == 0 {
            assert(index.name_text(i) =~= Seq::empty());
            assert(encode_utf8(Seq::<char>::empty()).len() == 0);
        }
        lemma_index_names(index, i, n);
    }
    lemma_same_filter(named, scanned);
    let elements = element_names(index, n);
    lemma_element_names(index, n);
    assert forall|k: int| 0 <= k < elements.len() implies scanned.contains(#[trigger] elements[k]) by {
        assert(has_element_name(index, n, elements[k]));
        let i = choose|i: int|
            0 <= i < n && #[trigger] index.element(i) && index.name_bytes(i) == elements[k];
        lemma_element_scanned(s, index, i);
    }
    assert forall|k: int| 0 <= k < scanned.len() implies elements.contains(#[trigger] scanned[k]) by {
        assert(named.contains(scanned[k]));
        let i = lemma_names_from(index, n, scanned[k]);
        assert(has_construct(d, i, ls));
        let j = choose|j: int| 0 <= j < ls.len() && entry_for(d, i, #[trigger] ls[j]);
        assert(is_plain(s, ls[j]));
        if index.tag_types@[i] == TagType::Close {
            assert(names_element(index, i));
            let e = choose|e: int|
                0 <= e < index.tags() && #[trigger] index.element(e) && index.name_bytes(e)
                    == index.name_bytes(i);
            assert(index.element(e));
        } else {
            assert(index.element(i));
        }
    }
    lemma_same_filter(elements, scanned);
    assert forall|i: int| 0 <= i < n && #[trigger] index.element(i) implies covers(
        filter_of(scanned),
        name_mask(index.name_bytes(i)),
    ) by {
        lemma_element_scanned(s, index, i);
        let k = choose|k: int| 0 <= k < scanned.len() && scanned[k] == index.name_bytes(i);
        lemma_no_false_negatives(scanned, k);
    }
}

} // verus!
