//! Byte-level scanning: searches over byte strings and UTF-8 decoding.

use vstd::prelude::*;
use vstd::utf8::*;

verus! {

/// First position of `needle` in `haystack`, as computed by `memchr::memchr`:
/// `Some` of the least index holding the byte, `None` when the byte is absent.
pub assume_specification[ memchr::memchr ](needle: u8, haystack: &[u8]) -> (r: Option<usize>)
    ensures
        match r {
            Some(i) => i < haystack@.len() && haystack@[i as int] == needle && (forall|j: int|
                0 <= j < i ==> haystack@[j] != needle),
            None => forall|j: int| 0 <= j < haystack@.len() ==> haystack@[j] != needle,
        },
;

/// Whether the byte is ASCII whitespace: space, tab, line feed, form feed or
/// carriage return.
pub open spec fn is_space(b: u8) -> bool {
    b == 0x20 || b == 0x09 || b == 0x0a || b == 0x0c || b == 0x0d
}

/// Tests whether a byte is ASCII whitespace.
pub fn is_ascii_space(b: u8) -> (r: bool)
    ensures
        r == is_space(b),
{
    b == 0x20 || b == 0x09 || b == 0x0a || b == 0x0c || b == 0x0d
}

/// The least position at or after `p` whose byte satisfies `stop`, or the
/// length of the string when there is none.
pub open spec fn scan_to(s: Seq<u8>, p: int, stop: spec_fn(u8) -> bool) -> int
    decreases s.len() - p,
{
    if p < 0 || p >= s.len() || stop(s[p]) {
        p
    } else {
        scan_to(s, p + 1, stop)
    }
}

/// The predicate "equals this byte".
pub open spec fn is_byte(c: u8) -> spec_fn(u8) -> bool {
    |b: u8| b == c
}

/// The least position at or after `p` where `pattern` occurs.
pub open spec fn find_seq(s: Seq<u8>, p: int, pattern: Seq<u8>) -> Option<int>
    decreases s.len() - p,
{
    if p < 0 || p + pattern.len() > s.len() {
        None
    } else if occurs_at(s, p, pattern) {
        Some(p)
    } else {
        find_seq(s, p + 1, pattern)
    }
}

/// Whether `pattern` stands in `s` at position `p`.
pub open spec fn occurs_at(s: Seq<u8>, p: int, pattern: Seq<u8>) -> bool {
    &&& 0 <= p
    &&& p + pattern.len() <= s.len()
    &&& forall|j: int| 0 <= j < pattern.len() ==> #[trigger] pattern[j] == s[p + j]
}

/// A scan ends inside the string, stops only at a stopping byte, and passes
/// over none.
pub proof fn lemma_scan_to(s: Seq<u8>, p: int, stop: spec_fn(u8) -> bool)
    requires
        0 <= p <= s.len(),
    ensures
        p <= scan_to(s, p, stop) <= s.len(),
        scan_to(s, p, stop) < s.len() ==> stop(s[scan_to(s, p, stop)]),
        forall|j: int| p <= j < scan_to(s, p, stop) ==> !stop(#[trigger] s[j]),
    decreases s.len() - p,
{
    if p < s.len() && !stop(s[p]) {
        lemma_scan_to(s, p + 1, stop);
    }
}

/// A position reached over no stopping byte, and stopping itself or at the
/// end, is where the scan ends.
pub proof fn lemma_scan_to_is(s: Seq<u8>, p: int, stop: spec_fn(u8) -> bool, r: int)
    requires
        0 <= p <= r <= s.len(),
        r < s.len() ==> stop(s[r]),
        forall|j: int| p <= j < r ==> !stop(#[trigger] s[j]),
    ensures
        scan_to(s, p, stop) == r,
    decreases r - p,
{
    if p < r {
        lemma_scan_to_is(s, p + 1, stop, r);
    }
}

/// What a pattern search returns: the least occurrence, if there is one.
pub proof fn lemma_find_seq(s: Seq<u8>, p: int, pattern: Seq<u8>)
    requires
        0 <= p,
    ensures
        match find_seq(s, p, pattern) {
            Some(i) => p <= i && occurs_at(s, i, pattern) && (forall|j: int|
                p <= j < i ==> !#[trigger] occurs_at(s, j, pattern)),
            None => forall|j: int| p <= j ==> !#[trigger] occurs_at(s, j, pattern),
        },
    decreases s.len() - p,
{
    if p + pattern.len() <= s.len() && !occurs_at(s, p, pattern) {
        lemma_find_seq(s, p + 1, pattern);
        assert forall|j: int| p <= j && !(p + 1 <= j) implies !#[trigger] occurs_at(s, j, pattern) by {
            assert(j == p);
        }
    }
}

/// A pattern search may skip positions where the pattern does not occur.
pub proof fn lemma_find_seq_skip(s: Seq<u8>, p: int, q: int, pattern: Seq<u8>)
    requires
        0 <= p <= q,
        forall|j: int| p <= j < q ==> !#[trigger] occurs_at(s, j, pattern),
    ensures
        find_seq(s, p, pattern) == find_seq(s, q, pattern),
    decreases q - p,
{
    if p < q {
        assert(!occurs_at(s, p, pattern));
        lemma_find_seq_skip(s, p + 1, q, pattern);
        if p + pattern.len() > s.len() {
            assert(find_seq(s, q, pattern) is None);
        }
    }
}

/// Position of the first byte equal to `b` at or after `from`, or the length.
pub fn find_byte(s: &[u8], from: usize, b: u8) -> (r: usize)
    requires
        from <= s@.len(),
    ensures
        r == scan_to(s@, from as int, is_byte(b)),
        from <= r <= s@.len(),
        r < s@.len() ==> s@[r as int] == b,
        forall|j: int| from <= j < r ==> #[trigger] s@[j] != b,
{
    let tail = vstd::slice::slice_subrange(s, from, s.len());
    let r: usize = match memchr::memchr(b, tail) {
        Some(i) => from + i,
        None => s.len(),
    };
    proof {
        assert forall|j: int| from <= j < r implies #[trigger] s@[j] != b by {
            assert(tail@[j - from] == s@[j]);
        }
        lemma_scan_to_is(s@, from as int, is_byte(b), r as int);
    }
    r
}

/// Whether `pattern` stands in `s` at position `at`.
pub fn starts_at(s: &[u8], at: usize, pattern: &[u8]) -> (r: bool)
    requires
        at <= s@.len(),
    ensures
        r == occurs_at(s@, at as int, pattern@),
{
    let n: usize = s.len();
    if pattern.len() > n - at {
        return false;
    }
    let mut i: usize = 0;
    while i < pattern.len()
        invariant
            at + pattern@.len() <= n,
            n == s@.len(),
            i <= pattern@.len(),
            forall|j: int| 0 <= j < i ==> #[trigger] pattern@[j] == s@[at + j],
        decreases pattern@.len() - i,
    {
        if s[at + i] != pattern[i] {
            assert(pattern@[i as int] != s@[at + i]);
            return false;
        }
        i += 1;
    }
    true
}

/// Position of the first occurrence of a nonempty pattern at or after `from`.
pub fn find_pattern(s: &[u8], from: usize, pattern: &[u8]) -> (r: Option<usize>)
    requires
        from <= s@.len(),
        pattern@.len() > 0,
    ensures
        match r {
            Some(i) => find_seq(s@, from as int, pattern@) == Some(i as int) && from <= i && i
                + pattern@.len() <= s@.len(),
            None => find_seq(s@, from as int, pattern@) is None,
        },
{
    let mut pos: usize = from;
    loop
        invariant
            from <= pos <= s@.len(),
            pattern@.len() > 0,
            find_seq(s@, from as int, pattern@) == find_seq(s@, pos as int, pattern@),
        decreases s@.len() - pos,
    {
        let hit: usize = find_byte(s, pos, pattern[0]);
        proof {
            assert forall|j: int| pos <= j < hit implies !#[trigger] occurs_at(s@, j, pattern@) by {
                if occurs_at(s@, j, pattern@) {
                    assert(pattern@[0] == s@[j + 0]);
                }
            }
            lemma_find_seq_skip(s@, pos as int, hit as int, pattern@);
        }
        if hit >= s.len() {
            return None;
        }
        if starts_at(s, hit, pattern) {
            return Some(hit);
        }
        proof {
            lemma_find_seq_skip(s@, hit as int, hit + 1, pattern@);
        }
        pos = hit + 1;
    }
}

/// The positions where the pattern is found from `p` on when each search starts
/// after the last occurrence found.
pub open spec fn matches_from(s: Seq<u8>, p: int, pattern: Seq<u8>) -> Seq<int>
    decreases s.len() - p,
{
    match find_seq(s, p, pattern) {
        Some(i) => if 0 <= p <= i && i + pattern.len() <= s.len() && pattern.len() > 0 {
            seq![i] + matches_from(s, i + pattern.len(), pattern)
        } else {
            Seq::empty()
        },
        None => Seq::empty(),
    }
}

/// All occurrences of a nonempty pattern, found with
/// `memchr::memmem::Finder::find_iter`: it reports the leftmost occurrence, then
/// the leftmost one that starts at or after its end, and so on.
#[verifier::external_body]
pub(crate) fn find_all(s: &[u8], pattern: &[u8]) -> (r: Vec<usize>)
    requires
        pattern@.len() > 0,
    ensures
        r@.map_values(|i: usize| i as int) == matches_from(s@, 0, pattern@),
{
    memchr::memmem::Finder::new(pattern).find_iter(s).collect()
}

/// Equality of byte strings.
pub fn bytes_eq(a: &[u8], b: &[u8]) -> (r: bool)
    ensures
        r == (a@ == b@),
{
    if a.len() != b.len() {
        return false;
    }
    let r = starts_at(a, 0, b);
    proof {
        if r {
            assert forall|j: int| 0 <= j < a@.len() implies a@[j] == b@[j] by {
                assert(b@[j] == a@[0 + j]);
            }
            assert(a@ =~= b@);
        } else if a@ == b@ {
            assert(occurs_at(a@, 0, b@));
        }
    }
    r
}

/// The text that a byte string encodes; bytes that are not UTF-8 hold no text.
pub open spec fn text_of(bytes: Seq<u8>) -> Seq<char> {
    if valid_utf8(bytes) {
        decode_utf8(bytes)
    } else {
        Seq::empty()
    }
}

/// Decodes a byte string with `std::str::from_utf8`: `Some` of the decoded text
/// exactly when the bytes are valid UTF-8.
#[verifier::external_body]
pub(crate) fn decode(bytes: &[u8]) -> (r: Option<&str>)
    ensures
        r is Some <==> valid_utf8(bytes@),
        r matches Some(text) ==> text@ == decode_utf8(bytes@),
{
    match std::str::from_utf8(bytes) {
        Ok(text) => Some(text),
        Err(_) => None,
    }
}

/// The text of a byte string; empty when the bytes are not valid UTF-8.
pub fn text_or_empty(bytes: &[u8]) -> (r: &str)
    ensures
        r@ == text_of(bytes@),
{
    match decode(bytes) {
        Some(text) => text,
        None => {
            proof {
                reveal_strlit("");
                assert(""@ =~= Seq::<char>::empty());
            }
            ""
        },
    }
}

/// White space is tab, line feed, form feed, carriage return and space.
pub proof fn lemma_white_bytes(b: u8)
    ensures
        is_space(b) <==> b == 9 || b == 10 || b == 12 || b == 13 || b == 32,
{
}

} // verus!
