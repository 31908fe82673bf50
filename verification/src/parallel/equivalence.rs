//! Chunked parsing agrees with parsing in one go.

use vstd::prelude::*;
use crate::bytes::{
    find_seq, is_byte, lemma_find_seq, lemma_find_seq_skip, lemma_scan_to, lemma_scan_to_is,
    occurs_at, scan_to,
};
use crate::index::lexer::{
    cdata_closing, cdata_opening, comment_closing, comment_opening, ends_close_name, ends_open_name,
    ends_target, lemma_lex_bounds, lemma_tag_close, lex, pi_closing, tag_close, LexemeV,
};
use crate::index::outline::{innermost, outline, scan, text_from, Doc, Outline, Scan};
use crate::index::structural::parsed;
use crate::index::{TagType, TextRange};
use crate::parallel::{
    boundary_from, is_boundary, chunk_count, lemma_levels, lemma_owners_until, cut_end, cut_pieces,
    cut_start, end_of, has_name, in_order, joined, levels, merged, orphan, owners_until,
    parsed_in_chunks, piece, split_points, Levels, Piece,
};

verus! {

/// Whether a construct ends with what closes its kind.
pub open spec fn is_closed(s: Seq<u8>, l: LexemeV) -> bool {
    &&& 0 <= l.end < s.len()
    &&& match l.kind {
        Some(TagType::Comment) => l.end >= l.start + 6 && occurs_at(
            s,
            l.end - 2,
            comment_closing(),
        ),
        Some(TagType::CData) => l.end >= l.start + 11 && occurs_at(s, l.end - 2, cdata_closing()),
        Some(TagType::PI) => l.end - 1 >= l.name_end && occurs_at(s, l.end - 1, pi_closing()),
        _ => s[l.end] == 0x3e,
    }
}

/// Whether all constructs from position `p` on are closed.
pub open spec fn all_closed(s: Seq<u8>, p: int) -> bool
    decreases s.len() + 1 - p,
{
    let q = scan_to(s, p, is_byte(0x3c));
    if p < 0 || q >= s.len() {
        true
    } else {
        match lex(s, q, false) {
            None => false,
            Some(l) => is_closed(s, l) && (p <= q <= l.end ==> all_closed(s, l.end + 1)),
        }
    }
}

/// Whether the scan from position `p` comes to position `b` right after a
/// construct, or starts there.
pub open spec fn passes(s: Seq<u8>, p: int, b: int) -> bool
    decreases s.len() + 1 - p,
{
    let q = scan_to(s, p, is_byte(0x3c));
    if p == b {
        true
    } else if p < 0 || p > b || q >= s.len() {
        false
    } else {
        match lex(s, q, false) {
            None => false,
            Some(l) => p <= q <= l.end < s.len() && passes(s, l.end + 1, b),
        }
    }
}

/// The constructs that the scan from position `p` finds before it comes to
/// position `b`.
pub open spec fn upto(s: Seq<u8>, p: int, b: int) -> Seq<LexemeV>
    decreases s.len() + 1 - p,
{
    let q = scan_to(s, p, is_byte(0x3c));
    if p == b || p < 0 || p > b || q >= s.len() {
        Seq::empty()
    } else {
        match lex(s, q, false) {
            None => Seq::empty(),
            Some(l) => if p <= q <= l.end < s.len() {
                seq![l] + upto(s, l.end + 1, b)
            } else {
                Seq::empty()
            },
        }
    }
}

/// A construct as seen from position `a`.
pub open spec fn moved(l: LexemeV, a: int) -> LexemeV {
    let named = l.kind matches Some(kind) && has_name(kind);
    LexemeV {
        kind: l.kind,
        start: l.start - a,
        end: l.end - a,
        name_start: if named {
            l.name_start - a
        } else {
            l.name_start
        },
        name_end: if named {
            l.name_end - a
        } else {
            l.name_end
        },
        text: match l.text {
            Some(t) => Some((t.0 - a, t.1 - a)),
            None => None,
        },
    }
}

/// Constructs as seen from position `a`.
pub open spec fn all_moved(ls: Seq<LexemeV>, a: int) -> Seq<LexemeV> {
    ls.map_values(|l: LexemeV| moved(l, a))
}

proof fn lemma_scan_part(s: Seq<u8>, a: int, b: int, p: int, stop: spec_fn(u8) -> bool)
    requires
        0 <= a <= p,
        b <= s.len(),
        p <= s.len(),
        scan_to(s, p, stop) < b,
    ensures
        scan_to(s.subrange(a, b), p - a, stop) == scan_to(s, p, stop) - a,
{
    let r = scan_to(s, p, stop);
    let sub = s.subrange(a, b);
    lemma_scan_to(s, p, stop);
    assert forall|j: int| p - a <= j < r - a implies !stop(#[trigger] sub[j]) by {
        assert(!stop(s[j + a]));
    }
    lemma_scan_to_is(sub, p - a, stop, r - a);
}

proof fn lemma_occurs_part(s: Seq<u8>, a: int, b: int, x: int, pattern: Seq<u8>)
    requires
        0 <= a <= b <= s.len(),
        a <= x,
    ensures
        x + pattern.len() <= b ==> occurs_at(s.subrange(a, b), x - a, pattern) == occurs_at(
            s,
            x,
            pattern,
        ),
        !occurs_at(s, x, pattern) ==> !occurs_at(s.subrange(a, b), x - a, pattern),
{
    let sub = s.subrange(a, b);
    if occurs_at(s, x, pattern) && x + pattern.len() <= b {
        assert forall|j: int| 0 <= j < pattern.len() implies #[trigger] pattern[j] == sub[x - a
            + j] by {
            assert(pattern[j] == s[x + j]);
        }
    }
    if occurs_at(sub, x - a, pattern) {
        assert forall|j: int| 0 <= j < pattern.len() implies #[trigger] pattern[j] == s[x + j] by {
            assert(pattern[j] == sub[x - a + j]);
        }
    }
}

proof fn lemma_find_is(s: Seq<u8>, p: int, pattern: Seq<u8>, i: int)
    requires
        0 <= p <= i,
        occurs_at(s, i, pattern),
        forall|j: int| p <= j < i ==> !#[trigger] occurs_at(s, j, pattern),
    ensures
        find_seq(s, p, pattern) == Some(i),
{
    lemma_find_seq_skip(s, p, i, pattern);
}

proof fn lemma_find_part(s: Seq<u8>, a: int, b: int, p: int, pattern: Seq<u8>)
    requires
        0 <= a <= p,
        b <= s.len(),
        find_seq(s, p, pattern) matches Some(i) && i + pattern.len() <= b,
    ensures
        find_seq(s.subrange(a, b), p - a, pattern) == Some(find_seq(s, p, pattern)->0 - a),
{
    let sub = s.subrange(a, b);
    let i = find_seq(s, p, pattern)->0;
    lemma_find_seq(s, p, pattern);
    lemma_occurs_part(s, a, b, i, pattern);
    assert forall|j: int| p - a <= j < i - a implies !#[trigger] occurs_at(sub, j, pattern) by {
        assert(!occurs_at(s, j + a, pattern));
        lemma_occurs_part(s, a, b, j + a, pattern);
    }
    lemma_find_is(sub, p - a, pattern, i - a);
}

proof fn lemma_tag_close_part(s: Seq<u8>, a: int, b: int, p: int)
    requires
        0 <= a <= p,
        b <= s.len(),
        tag_close(s, p, false).0 < b,
    ensures
        tag_close(s.subrange(a, b), p - a, true) == (
            tag_close(s, p, false).0 - a,
            tag_close(s, p, false).1,
        ),
    decreases s.len() + 1 - p,
{
    let sub = s.subrange(a, b);
    lemma_tag_close(s, p, false);
    if p < s.len() && s[p] != 0x3e && !(s[p] == 0x2f && p + 1 < s.len() && s[p + 1] == 0x3e) {
        if s[p] == 0x22 || s[p] == 0x27 {
            let q = scan_to(s, p + 1, is_byte(s[p]));
            lemma_scan_to(s, p + 1, is_byte(s[p]));
            assert(q < s.len());
            lemma_tag_close(s, q + 1, false);
            lemma_scan_part(s, a, b, p + 1, is_byte(s[p]));
            lemma_tag_close_part(s, a, b, q + 1);
        } else {
            lemma_tag_close(s, p + 1, false);
            lemma_tag_close_part(s, a, b, p + 1);
        }
    }
}

/// A closed construct is found in any part of the input that holds it.
proof fn lemma_lex_part(s: Seq<u8>, a: int, b: int, q: int)
    requires
        0 <= a <= q < s.len(),
        b <= s.len(),
        s[q] == 0x3c,
        lex(s, q, false) matches Some(l) && is_closed(s, l) && l.end < b,
    ensures
        lex(s.subrange(a, b), q - a, true) == Some(moved(lex(s, q, false)->0, a)),
        q < lex(s, q, false)->0.end,
{
    let sub = s.subrange(a, b);
    let l = lex(s, q, false)->0;
    let p = q - a;
    lemma_lex_bounds(s, q, false);
    assert(s[l.end] == 0x3e) by {
        match l.kind {
            Some(TagType::Comment) => {
                assert(comment_closing()[2] == s[l.end - 2 + 2]);
            },
            Some(TagType::CData) => {
                assert(cdata_closing()[2] == s[l.end - 2 + 2]);
            },
            Some(TagType::PI) => {
                assert(pi_closing()[1] == s[l.end - 1 + 1]);
            },
            _ => {},
        }
    }
    assert(l.end != q);
    assert(sub[p + 1] == s[q + 1]);
    if s[q + 1] == 0x2f {
        lemma_scan_to(s, q + 2, ends_close_name());
        let name_end = scan_to(s, q + 2, ends_close_name());
        lemma_scan_to(s, name_end, is_byte(0x3e));
        lemma_scan_part(s, a, b, q + 2, ends_close_name());
        lemma_scan_part(s, a, b, name_end, is_byte(0x3e));
    } else if s[q + 1] == 0x21 {
        lemma_occurs_part(s, a, b, q + 2, comment_opening());
        lemma_occurs_part(s, a, b, q + 2, cdata_opening());
        if occurs_at(s, q + 2, comment_opening()) {
            lemma_find_seq(s, q + 4, comment_closing());
            assert(find_seq(s, q + 4, comment_closing()) is Some);
            lemma_find_part(s, a, b, q + 4, comment_closing());
        } else if occurs_at(s, q + 2, cdata_opening()) {
            lemma_find_seq(s, q + 9, cdata_closing());
            assert(find_seq(s, q + 9, cdata_closing()) is Some);
            lemma_find_part(s, a, b, q + 9, cdata_closing());
        } else {
            lemma_scan_part(s, a, b, q, is_byte(0x3e));
        }
    } else if s[q + 1] == 0x3f {
        lemma_scan_to(s, q + 2, ends_target());
        let name_end = scan_to(s, q + 2, ends_target());
        lemma_find_seq(s, name_end, pi_closing());
        assert(find_seq(s, name_end, pi_closing()) is Some);
        lemma_scan_part(s, a, b, q + 2, ends_target());
        lemma_find_part(s, a, b, name_end, pi_closing());
    } else {
        lemma_scan_to(s, q + 1, ends_open_name());
        let name_end = scan_to(s, q + 1, ends_open_name());
        lemma_tag_close(s, name_end, false);
        lemma_scan_part(s, a, b, q + 1, ends_open_name());
        lemma_tag_close_part(s, a, b, name_end);
    }
}

/// Scanning the part of the input up to a position that the scan passes finds
/// what the scan of the whole finds there; the rest follows.
proof fn lemma_scan_chunk(s: Seq<u8>, a: int, b: int, p: int)
    requires
        0 <= a <= p <= b <= s.len(),
        passes(s, p, b),
        all_closed(s, p),
    ensures
        scan(s.subrange(a, b), p - a, true) == (Scan {
            lexemes: all_moved(upto(s, p, b), a),
            unclosed: None,
        }),
        scan(s, p, false) == (Scan {
            lexemes: upto(s, p, b) + scan(s, b, false).lexemes,
            unclosed: scan(s, b, false).unclosed,
        }),
        all_closed(s, b),
        upto(s, p, b).len() == 0 ==> p == b,
        upto(s, p, b).len() > 0 ==> upto(s, p, b).last().end + 1 == b,
        forall|i: int| #![trigger upto(s, p, b)[i]]
            0 <= i < upto(s, p, b).len() ==> p <= upto(s, p, b)[i].start < upto(s, p, b)[i].end,
    decreases b - p,
{
    let sub = s.subrange(a, b);
    if p == b {
        assert(scan(sub, p - a, true).lexemes =~= all_moved(upto(s, p, b), a));
        assert(upto(s, p, b) + scan(s, b, false).lexemes =~= scan(s, b, false).lexemes);
    } else {
        let q = scan_to(s, p, is_byte(0x3c));
        lemma_scan_to(s, p, is_byte(0x3c));
        let l = lex(s, q, false)->0;
        lemma_lex_bounds(s, q, false);
        assert(l.end < b) by {
            assert(passes(s, l.end + 1, b));
        }
        lemma_lex_part(s, a, b, q);
        lemma_scan_part(s, a, b, p, is_byte(0x3c));
        lemma_scan_chunk(s, a, b, l.end + 1);
        let rest = upto(s, l.end + 1, b);
        assert(upto(s, p, b) == seq![l] + rest);
        assert(all_moved(upto(s, p, b), a) =~= seq![moved(l, a)] + all_moved(rest, a));
        assert(upto(s, p, b) + scan(s, b, false).lexemes =~= seq![l] + (rest + scan(
            s,
            b,
            false,
        ).lexemes));
        if rest.len() > 0 {
            assert(upto(s, p, b).last() == rest.last());
        }
        assert forall|i: int| #![trigger upto(s, p, b)[i]] 0 <= i < upto(s, p, b).len() implies p
            <= upto(s, p, b)[i].start < upto(s, p, b)[i].end by {
            if i > 0 {
                assert(upto(s, p, b)[i] == rest[i - 1]);
            }
        }
    }
}

/// Scanning the part of the input from a position on finds what the scan of the
/// whole finds there.
proof fn lemma_scan_tail(s: Seq<u8>, a: int, p: int)
    requires
        0 <= a <= p <= s.len(),
        all_closed(s, p),
    ensures
        scan(s.subrange(a, s.len() as int), p - a, true) == (Scan {
            lexemes: all_moved(scan(s, p, false).lexemes, a),
            unclosed: None,
        }),
        scan(s, p, false).unclosed is None,
        forall|i: int| #![trigger scan(s, p, false).lexemes[i]]
            0 <= i < scan(s, p, false).lexemes.len() ==> p <= scan(s, p, false).lexemes[i].start
                < scan(s, p, false).lexemes[i].end,
    decreases s.len() - p,
{
    let b = s.len() as int;
    let sub = s.subrange(a, b);
    let q = scan_to(s, p, is_byte(0x3c));
    lemma_scan_to(s, p, is_byte(0x3c));
    if q >= s.len() {
        lemma_scan_to(sub, p - a, is_byte(0x3c));
        let r = scan_to(sub, p - a, is_byte(0x3c));
        if r < sub.len() {
            assert(s[r + a] == 0x3c);
        }
        assert(scan(sub, p - a, true).lexemes =~= all_moved(scan(s, p, false).lexemes, a));
    } else {
        let l = lex(s, q, false)->0;
        lemma_lex_bounds(s, q, false);
        lemma_lex_part(s, a, b, q);
        lemma_scan_part(s, a, b, p, is_byte(0x3c));
        lemma_scan_tail(s, a, l.end + 1);
        let rest = scan(s, l.end + 1, false).lexemes;
        let all = scan(s, p, false).lexemes;
        assert(all == seq![l] + rest);
        assert(all_moved(all, a) =~= seq![moved(l, a)] + all_moved(rest, a));
        assert forall|i: int| #![trigger all[i]] 0 <= i < all.len() implies p <= all[i].start
            < all[i].end by {
            if i > 0 {
                assert(all[i] == rest[i - 1]);
            }
        }
    }
}

/// A scan that passes two positions passes from the first to the second.
proof fn lemma_passes_between(s: Seq<u8>, p: int, b: int, c: int)
    requires
        0 <= p <= b <= c <= s.len(),
        passes(s, p, b),
        passes(s, p, c),
    ensures
        passes(s, b, c),
        upto(s, p, c) == upto(s, p, b) + upto(s, b, c),
    decreases b - p,
{
    if p == b {
        assert(upto(s, p, b) + upto(s, b, c) =~= upto(s, b, c));
    } else {
        let q = scan_to(s, p, is_byte(0x3c));
        let l = lex(s, q, false)->0;
        assert(passes(s, l.end + 1, b));
        assert(l.end + 1 <= b);
        lemma_passes_between(s, l.end + 1, b, c);
        assert(upto(s, p, c) =~= upto(s, p, b) + upto(s, b, c));
    }
}

/// The arrays of all constructs are those of the first ones followed by those of
/// the rest, read as a chunk of its own.
proof fn lemma_piece_join(first: Seq<LexemeV>, rest: Seq<LexemeV>, a: int)
    requires
        0 <= a,
        first.len() == 0 ==> a == 0,
        first.len() > 0 ==> first.last().end + 1 == a && first.last().end > 0,
        forall|i: int| #![trigger rest[i]] 0 <= i < rest.len() ==> a <= rest[i].start < rest[i].end,
    ensures
        piece(first + rest, 0) == piece(first, 0).join(piece(all_moved(rest, a), a)),
    decreases rest.len(),
{
    let all = first + rest;
    if rest.len() == 0 {
        assert(all =~= first);
        assert(piece(first, 0) =~= piece(first, 0).join(Piece::empty()));
    } else {
        let init = rest.drop_last();
        let l = rest.last();
        assert forall|i: int| #![trigger init[i]] 0 <= i < init.len() implies a <= init[i].start
            < init[i].end by {
            assert(init[i] == rest[i]);
        }
        lemma_piece_join(first, init, a);
        assert(all.drop_last() =~= first + init);
        assert(all_moved(rest, a).drop_last() =~= all_moved(init, a));
        assert(all_moved(rest, a).last() == moved(l, a));
        if init.len() > 0 {
            assert((first + init).last() == init.last());
            assert(init.last() == init[init.len() - 1]);
            assert(all_moved(init, a).last() == moved(init.last(), a));
        } else {
            assert(first + init =~= first);
        }
        let p0 = piece(first + init, 0);
        let p1 = piece(all_moved(init, a), a);
        let g0 = p0.gap(end_of(first + init), l.start, 0);
        let g1 = p1.gap(end_of(all_moved(init, a)), l.start - a, a);
        assert(g0 =~= piece(first, 0).join(g1));
        assert(g0.with(l, 0) =~= piece(first, 0).join(g1.with(moved(l, a), a)));
    }
}

/// The splits are positions that the scan passes, in ascending order and inside
/// the input.
pub open spec fn clean_splits(s: Seq<u8>, splits: Seq<int>) -> bool {
    &&& forall|i: int| #![trigger splits[i]]
        0 <= i < splits.len() ==> 0 < splits[i] < s.len() && passes(s, 0, splits[i])
    &&& forall|i: int, j: int| 0 <= i < j < splits.len() ==> splits[i] < splits[j]
}

/// The first `k` chunks together hold the constructs before the split that ends
/// them.
proof fn lemma_joined_chunks(s: Seq<u8>, splits: Seq<int>, k: int)
    requires
        all_closed(s, 0),
        clean_splits(s, splits),
        0 <= k <= splits.len(),
    ensures
        joined(cut_pieces(s, splits).take(k)) == piece(upto(s, 0, cut_start(splits, k)), 0),
    decreases k,
{
    let pieces = cut_pieces(s, splits);
    if k == 0 {
        assert(pieces.take(0) =~= Seq::empty());
    } else {
        lemma_joined_chunks(s, splits, k - 1);
        let a = cut_start(splits, k - 1);
        let b = splits[k - 1];
        assert(b == cut_start(splits, k) && b == cut_end(splits, k - 1, s.len() as int));
        assert(pieces.take(k).drop_last() =~= pieces.take(k - 1));
        assert(passes(s, 0, b));
        if k > 1 {
            assert(splits[k - 2] < splits[k - 1]);
            assert(passes(s, 0, splits[k - 2]));
        }
        lemma_scan_chunk(s, 0, a, 0);
        lemma_passes_between(s, 0, a, b);
        lemma_scan_chunk(s, a, b, a);
        let first = upto(s, 0, a);
        let rest = upto(s, a, b);
        if first.len() > 0 {
            assert(first.last() == first[first.len() - 1]);
        }
        lemma_piece_join(first, rest, a);
        assert(pieces[k - 1] == piece(all_moved(rest, a), a));
    }
}

/// All chunks together hold all constructs.
proof fn lemma_joined_all(s: Seq<u8>, splits: Seq<int>)
    requires
        all_closed(s, 0),
        clean_splits(s, splits),
    ensures
        joined(cut_pieces(s, splits)) == piece(scan(s, 0, false).lexemes, 0),
        scan(s, 0, false).unclosed is None,
{
    let pieces = cut_pieces(s, splits);
    let m = splits.len() as int;
    let a = cut_start(splits, m);
    lemma_joined_chunks(s, splits, m);
    assert(pieces.drop_last() =~= pieces.take(m));
    if m > 0 {
        assert(passes(s, 0, splits[m - 1]));
    }
    lemma_scan_chunk(s, 0, a, 0);
    lemma_scan_tail(s, a, a);
    let first = upto(s, 0, a);
    let rest = scan(s, a, false).lexemes;
    if first.len() > 0 {
        assert(first.last() == first[first.len() - 1]);
    }
    lemma_piece_join(first, rest, a);
    assert(pieces.last() == piece(all_moved(rest, a), a));
}

// One pass over the joined chunks finds what reading the constructs in order
// finds.

/// Constructs of an input, each starting after the one before it has ended.
pub open spec fn orderly(ls: Seq<LexemeV>, s: Seq<u8>) -> bool {
    &&& s.len() <= u64::MAX
    &&& forall|i: int| #![trigger ls[i]]
        0 <= i < ls.len() ==> {
            &&& 0 <= ls[i].start < ls[i].end < s.len()
            &&& lex(s, ls[i].start, false) == Some(ls[i])
        }
    &&& forall|i: int, j: int| 0 <= i < j < ls.len() ==> ls[i].end < ls[j].start
}

proof fn lemma_scan_orderly(s: Seq<u8>, p: int)
    requires
        0 <= p <= s.len() <= u64::MAX,
        all_closed(s, p),
    ensures
        orderly(scan(s, p, false).lexemes, s),
        scan(s, p, false).lexemes.len() > 0 ==> p <= scan(s, p, false).lexemes[0].start,
    decreases s.len() - p,
{
    let q = scan_to(s, p, is_byte(0x3c));
    lemma_scan_to(s, p, is_byte(0x3c));
    if q < s.len() {
        let l = lex(s, q, false)->0;
        lemma_lex_bounds(s, q, false);
        lemma_lex_part(s, 0, s.len() as int, q);
        lemma_scan_orderly(s, l.end + 1);
        let rest = scan(s, l.end + 1, false).lexemes;
        let all = scan(s, p, false).lexemes;
        assert(all == seq![l] + rest);
        assert forall|i: int| #![trigger all[i]] 0 <= i < all.len() implies {
            &&& 0 <= all[i].start < all[i].end < s.len()
            &&& lex(s, all[i].start, false) == Some(all[i])
        } by {
            if i > 0 {
                assert(all[i] == rest[i - 1]);
            }
        }
        assert forall|i: int, j: int| 0 <= i < j < all.len() implies all[i].end < all[j].start by {
            assert(all[j] == rest[j - 1]);
            if i > 0 {
                assert(all[i] == rest[i - 1]);
            } else if j > 1 {
                assert(rest[0].end < rest[j - 1].start);
                assert(rest[0].start < rest[0].end);
            }
        }
    }
}

proof fn lemma_orderly_take(ls: Seq<LexemeV>, s: Seq<u8>, k: int)
    requires
        orderly(ls, s),
        0 <= k <= ls.len(),
    ensures
        orderly(ls.take(k), s),
{
    let t = ls.take(k);
    assert forall|i: int| #![trigger t[i]] 0 <= i < t.len() implies t[i] == ls[i] by {}
}

/// Same range, whatever the parent.
pub open spec fn same_range(a: TextRange, b: TextRange) -> bool {
    a.start == b.start && a.end == b.end
}

/// The outline of constructs holds the arrays of the constructs.
proof fn lemma_outline_piece(ls: Seq<LexemeV>, s: Seq<u8>)
    requires
        orderly(ls, s),
    ensures
        ({
            let o = outline(ls);
            let p = piece(ls, 0);
            &&& o.doc.starts == p.starts
            &&& o.doc.ends == p.ends
            &&& o.doc.types == p.types
            &&& o.doc.names == p.names
            &&& o.last_end == end_of(ls)
            &&& o.doc.texts.len() == p.texts.len()
            &&& p.types.len() == p.starts.len()
            &&& forall|j: int| #![trigger p.texts[j]]
                0 <= j < p.texts.len() ==> same_range(o.doc.texts[j], p.texts[j])
                    && p.texts[j].start <= end_of(ls)
        }),
    decreases ls.len(),
{
    if ls.len() > 0 {
        let before = ls.drop_last();
        let l = ls.last();
        assert(before =~= ls.take(ls.len() - 1));
        lemma_orderly_take(ls, s, ls.len() - 1);
        lemma_outline_piece(before, s);
        assert(l == ls[ls.len() - 1]);
        lemma_lex_bounds(s, l.start, false);
        if before.len() > 0 {
            assert(before.last() == ls[ls.len() - 2]);
        }
        let o = outline(before);
        let p = piece(before, 0);
        let g = p.gap(end_of(before), l.start, 0);
        assert(o.texts_before(l.start).len() == g.texts.len());
        assert forall|j: int| #![trigger g.texts[j]] 0 <= j < g.texts.len() implies same_range(
            o.texts_before(l.start)[j],
            g.texts[j],
        ) && g.texts[j].start <= l.end by {
            if j < p.texts.len() {
                assert(g.texts[j] == p.texts[j]);
            }
        }
        let w = g.with(l, 0);
        let e = o.extend(l);
        assert(e.doc.names =~= w.names);
        assert forall|j: int| #![trigger w.texts[j]] 0 <= j < w.texts.len() implies same_range(
            e.doc.texts[j],
            w.texts[j],
        ) && w.texts[j].start <= l.end by {
            if j < g.texts.len() {
                assert(w.texts[j] == g.texts[j]);
            }
        }
    }
}

/// The arrays of the first constructs are the first entries of the arrays of
/// all; text ranges that come later start after them.
proof fn lemma_piece_prefix(ls: Seq<LexemeV>, s: Seq<u8>, k: int)
    requires
        orderly(ls, s),
        0 <= k <= ls.len(),
    ensures
        ({
            let p = piece(ls.take(k), 0);
            let all = piece(ls, 0);
            &&& p.starts.len() <= all.starts.len()
            &&& p.types.len() <= all.types.len()
            &&& p.texts.len() <= all.texts.len()
            &&& forall|j: int| 0 <= j < p.starts.len() ==> #[trigger] all.starts[j] == p.starts[j]
            &&& forall|j: int| 0 <= j < p.types.len() ==> #[trigger] all.types[j] == p.types[j]
            &&& forall|j: int| 0 <= j < p.texts.len() ==> #[trigger] all.texts[j] == p.texts[j]
            &&& forall|j: int|
                p.texts.len() <= j < all.texts.len() ==> (#[trigger] all.texts[j]).start
                    >= text_from(end_of(ls.take(k)))
        }),
    decreases ls.len() - k,
{
    let all = piece(ls, 0);
    let p = piece(ls.take(k), 0);
    if k == ls.len() {
        assert(ls.take(k) =~= ls);
    } else {
        lemma_piece_prefix(ls, s, k + 1);
        let l = ls[k];
        let q = piece(ls.take(k + 1), 0);
        assert(ls.take(k + 1).drop_last() =~= ls.take(k));
        assert(ls.take(k + 1).last() == l);
        lemma_lex_bounds(s, l.start, false);
        if k > 0 {
            assert(ls.take(k).last() == ls[k - 1]);
        }
        let g = p.gap(end_of(ls.take(k)), l.start, 0);
        assert(q == g.with(l, 0));
        assert forall|j: int| 0 <= j < p.starts.len() implies #[trigger] all.starts[j]
            == p.starts[j] by {
            assert(q.starts[j] == p.starts[j]);
        }
        assert forall|j: int| 0 <= j < p.types.len() implies #[trigger] all.types[j]
            == p.types[j] by {
            assert(q.types[j] == p.types[j]);
        }
        assert forall|j: int| 0 <= j < p.texts.len() implies #[trigger] all.texts[j]
            == p.texts[j] by {
            assert(g.texts[j] == p.texts[j]);
            assert(q.texts[j] == g.texts[j]);
        }
        assert forall|j: int| p.texts.len() <= j < all.texts.len() implies (
        #[trigger] all.texts[j]).start >= text_from(end_of(ls.take(k))) by {
            if j < q.texts.len() {
                assert(all.texts[j] == q.texts[j]);
                if j < g.texts.len() {
                    assert(q.texts[j] == g.texts[j]);
                }
            }
        }
    }
}

/// The levels after the tags of the first constructs are those that the outline
/// tells; text ranges whose parent is still open get it later.
pub open spec fn levels_agree(l: Levels, o: Outline) -> bool {
    &&& l.open == o.open
    &&& l.depth == o.depth
    &&& l.depths == o.doc.depths
    &&& l.parents == o.doc.parents
    &&& l.owners.len() <= o.doc.texts.len()
    &&& forall|j: int| #![trigger o.doc.texts[j]]
        0 <= j < o.doc.texts.len() ==> o.doc.texts[j].parent_tag == (if j < l.owners.len() {
            l.owners[j]
        } else {
            innermost(o.open)
        })
}

#[verifier::spinoff_prover]
#[verifier::rlimit(60)]
proof fn lemma_levels_agree(ls: Seq<LexemeV>, s: Seq<u8>, k: int)
    requires
        orderly(ls, s),
        0 <= k <= ls.len(),
    ensures
        levels_agree(
            levels(piece(ls, 0), piece(ls.take(k), 0).types.len() as int),
            outline(ls.take(k)),
        ),
    decreases k,
{
    let all = piece(ls, 0);
    if k == 0 {
        assert(ls.take(0) =~= Seq::empty());
        assert(levels(all, 0) =~= Levels::start());
    } else {
        lemma_levels_agree(ls, s, k - 1);
        let l = ls[k - 1];
        let o = outline(ls.take(k - 1));
        let p = piece(ls.take(k - 1), 0);
        let q = piece(ls.take(k), 0);
        assert(ls.take(k).drop_last() =~= ls.take(k - 1));
        assert(ls.take(k).last() == l);
        lemma_orderly_take(ls, s, k - 1);
        lemma_orderly_take(ls, s, k);
        lemma_outline_piece(ls.take(k - 1), s);
        lemma_outline_piece(ls.take(k), s);
        lemma_outline_piece(ls, s);
        lemma_piece_prefix(ls, s, k - 1);
        lemma_piece_prefix(ls, s, k);
        lemma_lex_bounds(s, l.start, false);
        if k > 1 {
            assert(ls.take(k - 1).last() == ls[k - 2]);
            assert(ls[k - 2].end < ls[k - 1].start);
        }
        let g = p.gap(end_of(ls.take(k - 1)), l.start, 0);
        assert(q == g.with(l, 0));
        let e = o.extend(l);
        assert(outline(ls.take(k)) == e);
        let t = p.types.len() as int;
        let v = levels(all, t);
        let texts = o.texts_before(l.start);
        assert(texts.len() == g.texts.len());
        assert forall|j: int| #![trigger texts[j]] 0 <= j < texts.len() implies texts[j].parent_tag
            == (if j < v.owners.len() {
            v.owners[j]
        } else {
            innermost(o.open)
        }) by {
            if j < o.doc.texts.len() {
                assert(texts[j] == o.doc.texts[j]);
            }
        }
        if let Some(kind) = l.kind {
            assert(q.types[t] == kind && q.starts[t] == l.start);
            assert(all.types[t] == kind && all.starts[t] == l.start);
            let limit = all.starts[t];
            let parent = innermost(v.open);
            lemma_levels(all, t);
            lemma_owners_until(v.owners, all.texts, limit, parent);
            let r = owners_until(v.owners, all.texts, limit, parent);
            let m = g.texts.len() as int;
            assert forall|j: int| 0 <= j < m implies (#[trigger] all.texts[j]).start < limit by {
                assert(all.texts[j] == q.texts[j]);
                assert(q.texts[j] == g.texts[j]);
                if j < p.texts.len() {
                    assert(g.texts[j] == p.texts[j]);
                }
            }
            assert forall|j: int| m <= j < all.texts.len() implies (#[trigger] all.texts[j]).start
                >= limit by {
                if j < q.texts.len() {
                    assert(all.texts[j] == q.texts[j]);
                }
            }
            assert(r.len() == m) by {
                if r.len() < m {
                    assert(all.texts[r.len() as int].start < limit);
                }
                if r.len() > m {
                    assert(all.texts[m].start >= limit);
                }
            }
            let w = levels(all, t + 1);
            assert(w == v.step(kind, limit, t, all.texts));
            assert(w.owners == r);
            assert(o.open_at(kind) == (if kind == TagType::Close && v.open.len() > 0 {
                v.open.drop_last()
            } else {
                v.open
            }));
            assert(w.open =~= e.open);
            assert(w.depths =~= e.doc.depths);
            assert(w.parents =~= e.doc.parents);
            assert forall|j: int| #![trigger e.doc.texts[j]] 0 <= j < e.doc.texts.len() implies e.doc.texts[j].parent_tag
                == (if j < w.owners.len() {
                w.owners[j]
            } else {
                innermost(e.open)
            }) by {
                if j < m {
                    assert(e.doc.texts[j] == texts[j]);
                }
            }
        } else {
            assert(e.doc.texts == texts);
        }
    }
}

/// Merging the arrays of constructs in order gives the document that reading
/// them in order gives.
pub proof fn lemma_merged_is_outline(ls: Seq<LexemeV>, s: Seq<u8>)
    requires
        orderly(ls, s),
    ensures
        merged(piece(ls, 0)) == outline(ls).doc,
{
    let p = piece(ls, 0);
    let o = outline(ls);
    assert(ls.take(ls.len() as int) =~= ls);
    lemma_outline_piece(ls, s);
    lemma_levels_agree(ls, s, ls.len() as int);
    let d = merged(p);
    assert forall|j: int| 0 <= j < d.texts.len() implies d.texts[j] == o.doc.texts[j] by {
        assert(same_range(o.doc.texts[j], p.texts[j]));
    }
    assert(d.texts =~= o.doc.texts);
    assert(d =~= o.doc);
}

/// Parsing in chunks gives the same document as parsing in one go: on an input
/// whose constructs are all closed, cut at positions right after constructs, the
/// merged chunks hold the same tags with the same depths and parents, and the
/// same text ranges, as a sequential parse.
pub proof fn lemma_chunks_match_sequential(s: Seq<u8>, splits: Seq<int>)
    requires
        s.len() <= u64::MAX,
        all_closed(s, 0),
        clean_splits(s, splits),
    ensures
        parsed(s) == Ok::<Doc, int>(merged(joined(cut_pieces(s, splits)))),
{
    lemma_joined_all(s, splits);
    lemma_scan_orderly(s, 0);
    lemma_merged_is_outline(scan(s, 0, false).lexemes, s);
}

/// A scan that passes one position and from there another passes the other.
proof fn lemma_passes_on(s: Seq<u8>, p: int, b: int, c: int)
    requires
        0 <= p <= b <= c <= s.len(),
        passes(s, p, b),
        passes(s, b, c),
    ensures
        passes(s, p, c),
    decreases b - p,
{
    if p < b {
        let q = scan_to(s, p, is_byte(0x3c));
        let l = lex(s, q, false)->0;
        assert(passes(s, l.end + 1, b));
        assert(l.end + 1 <= b);
        lemma_passes_on(s, l.end + 1, b, c);
    }
}

/// A boundary stands right after a construct.
proof fn lemma_boundary(s: Seq<u8>, p: int, best: Option<int>, target: int)
    requires
        0 <= p <= s.len(),
    ensures
        match boundary_from(s, p, best, target) {
            Some(e) => best == Some(e) || (p < e <= s.len() && passes(s, p, e)),
            None => true,
        },
    decreases s.len() + 1 - p,
{
    lemma_scan_to(s, p, is_byte(0x3c));
    let q = scan_to(s, p, is_byte(0x3c));
    if q < s.len() {
        if let Some(l) = lex(s, q, false) {
            lemma_lex_bounds(s, q, false);
            if l.end < s.len() && s[l.end] == 0x3e {
                let e = l.end + 1;
                assert(passes(s, e, e));
                assert(passes(s, p, e));
                if e <= target {
                    let now = if is_boundary(s, e, target) {
                        Some(e)
                    } else {
                        best
                    };
                    lemma_boundary(s, e, now, target);
                    if let Some(f) = boundary_from(s, e, now, target) {
                        if now != Some(f) {
                            lemma_passes_on(s, p, e, f);
                        }
                    }
                }
            }
        }
    }
}

proof fn lemma_split_points(s: Seq<u8>, chunk_size: int, k: int)
    ensures
        clean_splits(s, split_points(s, chunk_size, k)),
    decreases k,
{
    if k > 0 {
        lemma_split_points(s, chunk_size, k - 1);
        let before = split_points(s, chunk_size, k - 1);
        let all = split_points(s, chunk_size, k);
        let last = if before.len() == 0 {
            0
        } else {
            before.last()
        };
        if before.len() > 0 {
            assert(before[before.len() - 1] == last);
        }
        let target = if k * chunk_size < s.len() {
            k * chunk_size
        } else {
            s.len() as int
        };
        lemma_boundary(s, 0, None, target);
        assert forall|i: int, j: int| 0 <= i < j < all.len() implies all[i] < all[j] by {
            if j == before.len() && i < before.len() - 1 {
                assert(before[i] < before[before.len() - 1]);
            }
        }
    }
}

/// Where a document is split for a number of threads.
pub open spec fn thread_splits(s: Seq<u8>, num_threads: int) -> Seq<int> {
    let count = chunk_count(s.len() as int, num_threads);
    split_points(s, s.len() as int / count, count - 1)
}

/// Whatever the number of threads, parsing in chunks gives the arrays that
/// parsing in one go gives, as long as all constructs are closed.
pub proof fn lemma_threads_do_not_matter(s: Seq<u8>, num_threads: int)
    requires
        s.len() <= u64::MAX,
        all_closed(s, 0),
    ensures
        parsed_in_chunks(s, num_threads) == parsed(s),
{
    let count = chunk_count(s.len() as int, num_threads);
    let splits = thread_splits(s, num_threads);
    lemma_split_points(s, s.len() as int / count, count - 1);
    lemma_chunks_match_sequential(s, splits);
}

/// The arrays of a chunk at the start of the input as those of the same chunk at an
/// offset.
pub open spec fn moved_by(p: Piece, base: int) -> Piece {
    Piece {
        starts: p.starts.map_values(|x: u64| (x + base) as u64),
        ends: p.ends.map_values(|x: u64| (x + base) as u64),
        types: p.types,
        names: Seq::new(
            p.names.len(),
            |i: int|
                if has_name(p.types[i]) {
                    ((p.names[i].0 + base) as u64, p.names[i].1)
                } else {
                    p.names[i]
                },
        ),
        texts: p.texts.map_values(|t: TextRange| orphan(t.start + base, t.end + base)),
    }
}

/// A chunk read at an offset is the chunk read at the start, moved by the offset.
#[verifier::spinoff_prover]
#[verifier::rlimit(80)]
pub proof fn lemma_chunk_moved(ls: Seq<LexemeV>, chunk: Seq<u8>, base: int)
    requires
        base >= 0,
        base + chunk.len() <= u64::MAX,
        in_order(ls, chunk),
    ensures
        piece(ls, base) == moved_by(piece(ls, 0), base),
        piece(ls, 0).names.len() == piece(ls, 0).types.len(),
    decreases ls.len(),
{
    if ls.len() == 0 {
        assert(piece(ls, base) =~= moved_by(piece(ls, 0), base));
    } else {
        let before = ls.drop_last();
        let l = ls.last();
        assert forall|i: int| #![trigger before[i]] 0 <= i < before.len() implies before[i] == ls[i] by {}
        assert(in_order(before, chunk));
        lemma_chunk_moved(before, chunk, base);
        assert(l == ls[ls.len() - 1]);
        lemma_lex_bounds(chunk, l.start, true);
        if before.len() > 0 {
            assert(before.last() == ls[ls.len() - 2]);
            lemma_lex_bounds(chunk, before.last().start, true);
        }
        let p = piece(before, 0);
        let g = p.gap(end_of(before), l.start, 0);
        assert(piece(before, base).gap(end_of(before), l.start, base) =~= moved_by(g, base));
        assert(g.with(l, 0) == piece(ls, 0));
        assert(moved_by(g, base).with(l, base) =~= moved_by(g.with(l, 0), base));
    }
}

/// When all constructs are closed, scanning leniently makes no difference.
pub proof fn lemma_lenient_scan(s: Seq<u8>)
    requires
        all_closed(s, 0),
    ensures
        scan(s, 0, true) == scan(s, 0, false),
{
    lemma_scan_tail(s, 0, 0);
    assert(s.subrange(0, s.len() as int) =~= s);
    let ls = scan(s, 0, false).lexemes;
    assert forall|i: int| 0 <= i < ls.len() implies moved(#[trigger] ls[i], 0) == ls[i] by {}
    assert(all_moved(ls, 0) =~= ls);
}

} // verus!
