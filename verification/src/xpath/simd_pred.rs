//! String predicates over many nodes at once.
//!
//! To test `contains(., 'needle')` on many candidates, their texts are put into
//! one buffer, the buffer is searched once, and the hits are mapped back.

use vstd::prelude::*;
use vstd::utf8::*;
use crate::bytes::{
    find_all, find_pattern, find_seq, lemma_find_seq, matches_from, occurs_at, starts_at,
};
use crate::index::XmlIndex;
use crate::text::texts;
use crate::xpath::nodes::{attr_name_hash, name_hash, XPathNode};
use crate::xpath::values::empty_string;

verus! {

/// Minimum number of candidates for searching them at once.
pub const BATCH_THRESHOLD: usize = 8;

/// The value of the first attribute from `k` on whose name has the given hash.
pub open spec fn first_hashed(
    ix: XmlIndex,
    tag: int,
    names: Seq<Seq<char>>,
    hash: u64,
    k: int,
) -> Seq<char>
    decreases names.len() - k,
{
    if k < 0 || k >= names.len() {
        Seq::empty()
    } else if name_hash(names[k]) == hash {
        match ix.attribute(tag, names[k]) {
            Some(v) => v,
            None => Seq::empty(),
        }
    } else {
        first_hashed(ix, tag, names, hash, k + 1)
    }
}

/// The text of a node as it stands in the document: all text under an element,
/// a text range, or the value of an attribute.
pub open spec fn raw_text(ix: XmlIndex, node: XPathNode) -> Seq<char> {
    match node {
        XPathNode::Element(i) => ix.full_text(i as int),
        XPathNode::Text(i) => if i < ix.text_ranges@.len() {
            ix.range_text(ix.text_ranges@[i as int])
        } else {
            Seq::empty()
        },
        XPathNode::Attribute(i, h) => first_hashed(
            ix,
            i as int,
            ix.attribute_names(i as int),
            h,
            0,
        ),
        XPathNode::Namespace(_, _) => Seq::empty(),
    }
}

/// Whether a text holds the needle.
pub open spec fn holds_needle(text: Seq<char>, needle: Seq<char>) -> bool {
    find_seq(encode_utf8(text), 0, encode_utf8(needle)) is Some
}

/// Whether a text starts with the prefix.
pub open spec fn has_prefix(text: Seq<char>, prefix: Seq<char>) -> bool {
    occurs_at(encode_utf8(text), 0, encode_utf8(prefix))
}

/// Whether all candidates name a tag of the index where they name a tag.
pub open spec fn candidates_ok(ix: XmlIndex, candidates: Seq<XPathNode>) -> bool {
    forall|i: int| 0 <= i < candidates.len() ==> ((#[trigger] candidates[i]) matches XPathNode::Element(t) ==> t < ix.tags())
}

/// The text of a node: see `raw_text`.
fn node_text_content(index: &XmlIndex, node: XPathNode) -> (r: String)
    requires
        index.wf(),
        node matches XPathNode::Element(t) ==> t < index.tags(),
    ensures
        r@ == raw_text(*index, node),
{
    match node {
        XPathNode::Element(i) => index.all_text(i),
        XPathNode::Text(i) => if i < index.text_ranges.len() {
            assert(index.doc().texts[i as int] == index.text_ranges@[i as int]);
            index.text_content(&index.text_ranges[i]).to_owned()
        } else {
            empty_string()
        },
        XPathNode::Attribute(i, h) => {
            let names = index.get_all_attribute_names(i);
            let ghost view = texts(names@);
            let mut k: usize = 0;
            while k < names.len()
                invariant
                    index.wf(),
                    view == texts(names@),
                    k <= names@.len(),
                    first_hashed(*index, i as int, view, h, 0) == first_hashed(
                        *index,
                        i as int,
                        view,
                        h,
                        k as int,
                    ),
                    node == XPathNode::Attribute(i, h),
                    view == index.attribute_names(i as int),
                decreases names@.len() - k,
            {
                assert(view[k as int] == names@[k as int]@);
                if attr_name_hash(names[k]) == h {
                    return match index.get_attribute(i, names[k]) {
                        Some(value) => value.to_owned(),
                        None => empty_string(),
                    };
                }
                k += 1;
            }
            empty_string()
        },
        XPathNode::Namespace(_, _) => empty_string(),
    }
}

/// Whether the bytes hold the needle.
fn holds_bytes(text: &[u8], needle: &[u8]) -> (r: bool)
    ensures
        r == (find_seq(text@, 0, needle@) is Some),
{
    if needle.len() == 0 {
        assert(occurs_at(text@, 0, needle@));
        return true;
    }
    find_pattern(text, 0, needle).is_some()
}

/// Whether one of the bytes is zero.
fn has_zero(bytes: &[u8]) -> (r: bool)
    ensures
        r == exists|i: int| 0 <= i < bytes@.len() && #[trigger] bytes@[i] == 0,
{
    let n: usize = bytes.len();
    let mut i: usize = 0;
    while i < n
        invariant
            n == bytes@.len(),
            i <= n,
            forall|j: int| 0 <= j < i ==> #[trigger] bytes@[j] != 0,
        decreases n - i,
    {
        if bytes[i] == 0 {
            assert(bytes@[i as int] == 0);
            return true;
        }
        i += 1;
    }
    false
}

/// A buffer that holds texts one after the other, a zero byte after each; text
/// `i` stands in `offsets[i]..offsets[i + 1] - 1`.
pub open spec fn buffered(buffer: Seq<u8>, offsets: Seq<usize>, lines: Seq<Seq<u8>>) -> bool {
    &&& offsets.len() == lines.len() + 1
    &&& offsets[0] == 0
    &&& offsets[lines.len() as int] == buffer.len()
    &&& forall|i: int| #![trigger lines[i]]
        0 <= i < lines.len() ==> {
            &&& offsets[i] + lines[i].len() + 1 == offsets[i + 1]
            &&& offsets[i + 1] <= buffer.len()
            &&& buffer.subrange(offsets[i] as int, offsets[i + 1] - 1) == lines[i]
            &&& buffer[offsets[i + 1] - 1] == 0
        }
}

/// Offsets of buffered texts ascend.
proof fn lemma_offsets_ascend(buffer: Seq<u8>, offsets: Seq<usize>, lines: Seq<Seq<u8>>, i: int, j: int)
    requires
        buffered(buffer, offsets, lines),
        0 <= i < j <= lines.len(),
    ensures
        offsets[i] < offsets[j],
    decreases j - i,
{
    assert(offsets[j - 1] + lines[j - 1].len() + 1 == offsets[j]);
    if i < j - 1 {
        lemma_offsets_ascend(buffer, offsets, lines, i, j - 1);
    }
}

/// A needle without a zero byte that starts inside a buffered text ends inside
/// it.
proof fn lemma_match_inside(
    buffer: Seq<u8>,
    offsets: Seq<usize>,
    lines: Seq<Seq<u8>>,
    needle: Seq<u8>,
    i: int,
    pos: int,
)
    requires
        buffered(buffer, offsets, lines),
        0 <= i < lines.len(),
        offsets[i] <= pos < offsets[i + 1],
        occurs_at(buffer, pos, needle),
        forall|k: int| 0 <= k < needle.len() ==> #[trigger] needle[k] != 0,
        needle.len() > 0,
    ensures
        pos + needle.len() < offsets[i + 1],
        occurs_at(lines[i], pos - offsets[i], needle),
{
    let end = offsets[i + 1] - 1;
    assert(offsets[i] + lines[i].len() + 1 == offsets[i + 1]);
    if pos + needle.len() > end {
        assert(needle[end - pos] == buffer[pos + (end - pos)]);
    }
    let line = buffer.subrange(offsets[i] as int, end);
    assert forall|k: int| 0 <= k < needle.len() implies #[trigger] needle[k] == lines[i][pos
        - offsets[i] + k] by {
        assert(needle[k] == buffer[pos + k]);
        assert(line[pos - offsets[i] + k] == buffer[pos + k]);
    }
}

/// Searching the whole buffer finds the needle in every text that holds it.
proof fn lemma_match_found(
    buffer: Seq<u8>,
    offsets: Seq<usize>,
    lines: Seq<Seq<u8>>,
    needle: Seq<u8>,
    i: int,
    q: int,
    from: int,
)
    requires
        buffered(buffer, offsets, lines),
        0 <= i < lines.len(),
        offsets[i] <= q < offsets[i + 1],
        occurs_at(buffer, q, needle),
        forall|k: int| 0 <= k < needle.len() ==> #[trigger] needle[k] != 0,
        needle.len() > 0,
        0 <= from <= q,
    ensures
        exists|k: int| #![trigger matches_from(buffer, from, needle)[k]]
            0 <= k < matches_from(buffer, from, needle).len() && offsets[i] <= matches_from(
                buffer,
                from,
                needle,
            )[k] < offsets[i + 1],
    decreases buffer.len() - from,
{
    lemma_find_seq(buffer, from, needle);
    let all = matches_from(buffer, from, needle);
    let m = find_seq(buffer, from, needle)->0;
    assert(find_seq(buffer, from, needle) is Some && m <= q);
    let next = m + needle.len();
    assert(all == seq![m] + matches_from(buffer, next, needle));
    if m >= offsets[i] {
        assert(all[0] == m);
    } else {
        let end = offsets[i] - 1;
        if i > 0 {
            assert(offsets[i - 1] + lines[i - 1].len() + 1 == offsets[i]);
        }
        if m + needle.len() > end {
            assert(buffer[end] == 0);
            assert(needle[end - m] == buffer[m + (end - m)]);
        }
        lemma_match_found(buffer, offsets, lines, needle, i, q, next);
        let rest = matches_from(buffer, next, needle);
        let k = choose|k: int| #![trigger rest[k]]
            0 <= k < rest.len() && offsets[i] <= rest[k] < offsets[i + 1];
        assert(all[k + 1] == rest[k]);
    }
}

/// The place of the last offset that is at most `pos`.
fn slot_of(offsets: &Vec<usize>, pos: usize) -> (r: usize)
    requires
        offsets@.len() > 0,
        offsets@[0] <= pos,
        forall|i: int, j: int| 0 <= i < j < offsets@.len() ==> offsets@[i] < offsets@[j],
    ensures
        r < offsets@.len(),
        offsets@[r as int] <= pos,
        r + 1 < offsets@.len() ==> pos < offsets@[r + 1],
{
    let mut lo: usize = 0;
    let mut hi: usize = offsets.len();
    while hi - lo > 1
        invariant
            lo < hi <= offsets@.len(),
            offsets@[lo as int] <= pos,
            hi < offsets@.len() ==> pos < offsets@[hi as int],
        decreases hi - lo,
    {
        let mid: usize = lo + (hi - lo) / 2;
        if offsets[mid] <= pos {
            lo = mid;
        } else {
            hi = mid;
        }
    }
    lo
}

/// The encoded texts of the candidates.
pub open spec fn candidate_lines(ix: XmlIndex, candidates: Seq<XPathNode>) -> Seq<Seq<u8>> {
    Seq::new(candidates.len(), |i: int| encode_utf8(raw_text(ix, candidates[i])))
}

/// Puts the texts of the candidates into one buffer.
fn fill_buffer(index: &XmlIndex, candidates: &[XPathNode]) -> (r: (Vec<u8>, Vec<usize>))
    requires
        index.wf(),
        candidates_ok(*index, candidates@),
    ensures
        buffered(r.0@, r.1@, candidate_lines(*index, candidates@)),
{
    let mut buffer: Vec<u8> = Vec::new();
    let mut offsets: Vec<usize> = Vec::new();
    let n: usize = candidates.len();
    let mut i: usize = 0;
    let ghost lines = candidate_lines(*index, candidates@);
    offsets.push(0);
    while i < n
        invariant
            index.wf(),
            candidates_ok(*index, candidates@),
            n == candidates@.len(),
            lines == candidate_lines(*index, candidates@),
            i <= n,
            buffered(buffer@, offsets@, lines.take(i as int)),
        decreases n - i,
    {
        let ghost old_buffer = buffer@;
        let ghost old_offsets = offsets@;
        let text = node_text_content(index, candidates[i]);
        let bytes = text.as_str().as_bytes();
        let m: usize = bytes.len();
        let mut j: usize = 0;
        assert(buffer@ =~= old_buffer + bytes@.take(0));
        while j < m
            invariant
                m == bytes@.len(),
                j <= m,
                buffer@ == old_buffer + bytes@.take(j as int),
            decreases m - j,
        {
            buffer.push(bytes[j]);
            assert(buffer@ =~= old_buffer + bytes@.take(j + 1));
            j += 1;
        }
        assert(bytes@.take(m as int) =~= bytes@);
        buffer.push(0);
        offsets.push(buffer.len());
        proof {
            let before = lines.take(i as int);
            let after = lines.take(i + 1);
            assert forall|k: int| #![trigger after[k]] 0 <= k < after.len() implies {
                &&& offsets@[k] + after[k].len() + 1 == offsets@[k + 1]
                &&& offsets@[k + 1] <= buffer@.len()
                &&& buffer@.subrange(offsets@[k] as int, offsets@[k + 1] - 1) == after[k]
                &&& buffer@[offsets@[k + 1] - 1] == 0
            } by {
                if k < i {
                    assert(before[k] == after[k]);
                    assert(old_offsets[k + 1] <= old_buffer.len());
                    assert(buffer@.subrange(offsets@[k] as int, offsets@[k + 1] - 1)
                        =~= old_buffer.subrange(old_offsets[k] as int, old_offsets[k + 1] - 1));
                } else {
                    assert(buffer@.subrange(offsets@[k] as int, offsets@[k + 1] - 1) =~= bytes@);
                }
            }
        }
        i += 1;
    }
    assert(lines.take(n as int) =~= lines);
    (buffer, offsets)
}

/// Tests all candidates by one search over their joined texts.
fn search_buffer(index: &XmlIndex, candidates: &[XPathNode], needle: &[u8]) -> (r: Vec<bool>)
    requires
        index.wf(),
        candidates_ok(*index, candidates@),
        needle@.len() > 0,
        forall|k: int| 0 <= k < needle@.len() ==> #[trigger] needle@[k] != 0,
    ensures
        r@.len() == candidates@.len(),
        forall|i: int|
            0 <= i < r@.len() ==> #[trigger] r@[i] == (find_seq(
                encode_utf8(raw_text(*index, candidates@[i])),
                0,
                needle@,
            ) is Some),
{
    let (buffer, offsets) = fill_buffer(index, candidates);
    let ghost lines = candidate_lines(*index, candidates@);
    let ghost all = matches_from(buffer@, 0, needle@);
    let n: usize = candidates.len();
    let hits = find_all(buffer.as_slice(), needle);
    let mut results: Vec<bool> = vec![false; n];
    proof {
        assert forall|i: int, j: int| 0 <= i < j < offsets@.len() implies offsets@[i] < offsets@[j] by {
            lemma_offsets_ascend(buffer@, offsets@, lines, i, j);
        }
        lemma_matches_occur(buffer@, 0, needle@);
        assert(hits@.len() == all.len()) by {
            assert(hits@.map_values(|i: usize| i as int).len() == hits@.len());
        }
    }
    let mut k: usize = 0;
    while k < hits.len()
        invariant
            n == candidates@.len(),
            lines == candidate_lines(*index, candidates@),
            lines.len() == n,
            buffered(buffer@, offsets@, lines),
            all == matches_from(buffer@, 0, needle@),
            hits@.len() == all.len(),
            hits@.map_values(|i: usize| i as int) == all,
            needle@.len() > 0,
            forall|j: int| 0 <= j < needle@.len() ==> #[trigger] needle@[j] != 0,
            forall|i: int, j: int| 0 <= i < j < offsets@.len() ==> offsets@[i] < offsets@[j],
            forall|j: int| 0 <= j < all.len() ==> occurs_at(buffer@, #[trigger] all[j], needle@),
            results@.len() == n,
            k <= hits@.len(),
            forall|i: int| 0 <= i < n && #[trigger] results@[i] ==> find_seq(lines[i], 0, needle@) is Some,
            forall|j: int, i: int| #![trigger all[j], results@[i]]
                0 <= j < k && 0 <= i < n && offsets@[i] <= all[j] < offsets@[i + 1] ==> results@[i],
        decreases hits@.len() - k,
    {
        let pos: usize = hits[k];
        assert(hits@.map_values(|i: usize| i as int)[k as int] == pos);
        assert(occurs_at(buffer@, all[k as int], needle@));
        let slot: usize = slot_of(&offsets, pos);
        assert(offsets@[n as int] == buffer@.len());
        let ghost before = results@;
        if slot < n {
            proof {
                lemma_match_inside(buffer@, offsets@, lines, needle@, slot as int, pos as int);
                lemma_find_seq(lines[slot as int], 0, needle@);
            }
            results.set(slot, true);
        }
        proof {
            assert forall|j: int, i: int| #![trigger all[j], results@[i]] 0 <= j < k + 1 && 0 <= i < n
                && offsets@[i] <= all[j] < offsets@[i + 1] implies results@[i] by {
                if j < k {
                    assert(before[i]);
                } else {
                    if i < slot {
                        assert(offsets@[i + 1] <= offsets@[slot as int]) by {
                            if i + 1 < slot {
                                assert(offsets@[i + 1] < offsets@[slot as int]);
                            }
                        }
                    }
                    if i > slot {
                        assert(offsets@[slot + 1] <= offsets@[i]) by {
                            if slot + 1 < i {
                                assert(offsets@[slot + 1] < offsets@[i]);
                            }
                        }
                    }
                }
            }
        }
        k += 1;
    }
    proof {
        assert forall|i: int| 0 <= i < results@.len() implies #[trigger] results@[i] == (find_seq(
            encode_utf8(raw_text(*index, candidates@[i])),
            0,
            needle@,
        ) is Some) by {
            assert(lines[i] == encode_utf8(raw_text(*index, candidates@[i])));
            if find_seq(lines[i], 0, needle@) is Some {
                lemma_find_seq(lines[i], 0, needle@);
                let p = find_seq(lines[i], 0, needle@)->0;
                let q = offsets@[i] + p;
                let line = buffer@.subrange(offsets@[i] as int, offsets@[i + 1] - 1);
                assert(offsets@[i] + lines[i].len() + 1 == offsets@[i + 1]);
                assert forall|j: int| 0 <= j < needle@.len() implies #[trigger] needle@[j]
                    == buffer@[q + j] by {
                    assert(needle@[j] == lines[i][p + j]);
                    assert(line[p + j] == buffer@[q + j]);
                }
                lemma_match_found(buffer@, offsets@, lines, needle@, i, q, 0);
                let j = choose|j: int| #![trigger all[j]]
                    0 <= j < all.len() && offsets@[i] <= all[j] < offsets@[i + 1];
                assert(all[j] >= offsets@[i]);
            }
        }
    }
    results
}

/// The pattern stands at each position that a search reports.
proof fn lemma_matches_occur(s: Seq<u8>, p: int, pattern: Seq<u8>)
    requires
        0 <= p,
    ensures
        forall|j: int|
            0 <= j < matches_from(s, p, pattern).len() ==> occurs_at(
                s,
                #[trigger] matches_from(s, p, pattern)[j],
                pattern,
            ),
    decreases s.len() - p,
{
    lemma_find_seq(s, p, pattern);
    match find_seq(s, p, pattern) {
        Some(i) => if p <= i && i + pattern.len() <= s.len() && pattern.len() > 0 {
            let next = i + pattern.len();
            lemma_matches_occur(s, next, pattern);
            let all = matches_from(s, p, pattern);
            let rest = matches_from(s, next, pattern);
            assert forall|j: int| 0 <= j < all.len() implies occurs_at(
                s,
                #[trigger] all[j],
                pattern,
            ) by {
                if j > 0 {
                    assert(all[j] == rest[j - 1]);
                }
            }
        },
        None => {},
    }
}

/// Tests `contains(., 'needle')` on the candidates: `result[i]` tells whether the
/// text of `candidates[i]` contains the needle.
pub fn batch_contains(index: &XmlIndex, candidates: &[XPathNode], needle: &str) -> (r: Vec<bool>)
    requires
        index.wf(),
        candidates_ok(*index, candidates@),
    ensures
        r@.len() == candidates@.len(),
        forall|i: int|
            0 <= i < r@.len() ==> #[trigger] r@[i] == holds_needle(
                raw_text(*index, candidates@[i]),
                needle@,
            ),
{
    let pattern = needle.as_bytes();
    let n: usize = candidates.len();
    if n >= BATCH_THRESHOLD && pattern.len() > 0 && !has_zero(pattern) {
        return search_buffer(index, candidates, pattern);
    }
    let mut results: Vec<bool> = Vec::new();
    let mut i: usize = 0;
    while i < n
        invariant
            index.wf(),
            candidates_ok(*index, candidates@),
            n == candidates@.len(),
            pattern@ == encode_utf8(needle@),
            i <= n,
            results@.len() == i,
            forall|j: int|
                0 <= j < i ==> #[trigger] results@[j] == holds_needle(
                    raw_text(*index, candidates@[j]),
                    needle@,
                ),
        decreases n - i,
    {
        let text = node_text_content(index, candidates[i]);
        results.push(holds_bytes(text.as_str().as_bytes(), pattern));
        i += 1;
    }
    results
}

/// Tests `starts-with(., 'prefix')` on the candidates: `result[i]` tells whether
/// the text of `candidates[i]` starts with the prefix.
pub fn batch_starts_with(index: &XmlIndex, candidates: &[XPathNode], prefix: &str) -> (r: Vec<bool>)
    requires
        index.wf(),
        candidates_ok(*index, candidates@),
    ensures
        r@.len() == candidates@.len(),
        forall|i: int|
            0 <= i < r@.len() ==> #[trigger] r@[i] == has_prefix(
                raw_text(*index, candidates@[i]),
                prefix@,
            ),
{
    let pattern = prefix.as_bytes();
    let n: usize = candidates.len();
    let mut results: Vec<bool> = Vec::new();
    let mut i: usize = 0;
    while i < n
        invariant
            index.wf(),
            candidates_ok(*index, candidates@),
            n == candidates@.len(),
            pattern@ == encode_utf8(prefix@),
            i <= n,
            results@.len() == i,
            forall|j: int|
                0 <= j < i ==> #[trigger] results@[j] == has_prefix(
                    raw_text(*index, candidates@[j]),
                    prefix@,
                ),
        decreases n - i,
    {
        let text = node_text_content(index, candidates[i]);
        results.push(starts_at(text.as_str().as_bytes(), 0, pattern));
        i += 1;
    }
    results
}

/// A text holds a needle, in bytes, exactly when it is something, the needle and
/// something more, and it has a prefix when it is the prefix and something more.
pub proof fn lemma_needles(text: Seq<char>, needle: Seq<char>)
    ensures
        holds_needle(text, needle) <==> exists|a: Seq<u8>, b: Seq<u8>|
            encode_utf8(text) == #[trigger] (a + encode_utf8(needle) + b),
        has_prefix(text, needle) <==> exists|b: Seq<u8>|
            encode_utf8(text) == #[trigger] (encode_utf8(needle) + b),
{
    let s = encode_utf8(text);
    let part = encode_utf8(needle);
    let n = part.len() as int;
    lemma_find_seq(s, 0, part);
    if let Some(i) = find_seq(s, 0, part) {
        let a = s.subrange(0, i);
        let b = s.subrange(i + n, s.len() as int);
        assert(s =~= a + part + b);
    }
    if exists|a: Seq<u8>, b: Seq<u8>| s == #[trigger] (a + part + b) {
        let (a, b) = choose|a: Seq<u8>, b: Seq<u8>| s == #[trigger] (a + part + b);
        let i = a.len() as int;
        assert forall|j: int| 0 <= j < n implies #[trigger] part[j] == s[i + j] by {}
        assert(occurs_at(s, i, part));
    }
    if has_prefix(text, needle) {
        let b = s.subrange(n, s.len() as int);
        assert(s =~= part + b);
    }
    if exists|b: Seq<u8>| s == #[trigger] (part + b) {
        let b = choose|b: Seq<u8>| s == #[trigger] (part + b);
        assert forall|j: int| 0 <= j < n implies #[trigger] part[j] == s[0 + j] by {}
    }
}

} // verus!
