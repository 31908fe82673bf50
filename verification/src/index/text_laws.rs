//! Where the texts of a parsed document stand.

use vstd::prelude::*;
use crate::bytes::{is_byte, lemma_scan_to, scan_to};
use crate::index::laws::{lemma_open_stack, lemma_outline_entries, lemma_outline_nested, open_stack};
use crate::index::lexer::{lemma_lex_bounds, lex, LexemeV};
use crate::index::outline::{innermost, outline, scan, Doc, Outline};
use crate::index::structural::parsed;
use crate::index::{TagType, TextRange};

verus! {

/// Every text stands behind an open tag, its parent, or outside of all, texts start
/// one after the other, and no text starts where a tag starts.
pub open spec fn texts_placed(d: Doc) -> bool {
    &&& forall|t: int| 0 <= t < d.texts.len() ==> in_open_tag(d, #[trigger] d.texts[t])
    &&& forall|t: int, u: int| 0 <= t < u < d.texts.len() ==> d.texts[t].start < d.texts[u].start
    &&& forall|t: int, i: int|
        0 <= t < d.texts.len() && 0 <= i < d.starts.len() ==> (#[trigger] d.texts[t]).start
            != #[trigger] d.starts[i]
}

/// A text has no parent, or an open one that starts before it.
pub open spec fn in_open_tag(d: Doc, r: TextRange) -> bool {
    r.parent_tag == u32::MAX || (r.parent_tag < d.types.len() && d.types[r.parent_tag as int]
        == TagType::Open && d.starts[r.parent_tag as int] < r.start)
}

/// Constructs of an input, each starting after the one before it has ended.
pub open spec fn successive(ls: Seq<LexemeV>, s: Seq<u8>) -> bool {
    &&& forall|i: int| #![trigger ls[i]]
        0 <= i < ls.len() ==> 0 <= ls[i].start < ls[i].end <= s.len() && lex(
            s,
            ls[i].start,
            false,
        ) == Some(ls[i])
    &&& forall|i: int, j: int| 0 <= i < j < ls.len() ==> ls[i].end < ls[j].start
}

/// A construct ends behind its `<`.
proof fn lemma_lex_forward(s: Seq<u8>, p: int)
    requires
        0 <= p < s.len(),
        s[p] == 0x3c,
        lex(s, p, false) is Some,
    ensures
        p < lex(s, p, false)->0.end,
{
    lemma_lex_bounds(s, p, false);
    lemma_scan_to(s, p, is_byte(0x3e));
}

pub proof fn lemma_scan_successive(s: Seq<u8>, p: int)
    requires
        0 <= p,
    ensures
        successive(scan(s, p, false).lexemes, s),
        scan(s, p, false).lexemes.len() > 0 ==> p <= scan(s, p, false).lexemes[0].start,
    decreases s.len() + 1 - p,
{
    let q = scan_to(s, p, is_byte(0x3c));
    let all = scan(s, p, false).lexemes;
    if p < s.len() {
        lemma_scan_to(s, p, is_byte(0x3c));
        if q < s.len() {
            if let Some(l) = lex(s, q, false) {
                lemma_lex_bounds(s, q, false);
                lemma_lex_forward(s, q);
                lemma_scan_successive(s, l.end + 1);
                let rest = scan(s, l.end + 1, false).lexemes;
                assert(all == seq![l] + rest);
                assert forall|i: int| #![trigger all[i]] 0 <= i < all.len() implies 0
                    <= all[i].start < all[i].end <= s.len() && lex(s, all[i].start, false) == Some(
                    all[i],
                ) by {
                    if i > 0 {
                        assert(all[i] == rest[i - 1]);
                    }
                }
                assert forall|i: int, j: int| 0 <= i < j < all.len() implies all[i].end
                    < all[j].start by {
                    assert(all[j] == rest[j - 1]);
                    if i > 0 {
                        assert(all[i] == rest[i - 1]);
                    } else if j > 1 {
                        assert(rest[0].end < rest[j - 1].start);
                        assert(rest[0].start < rest[0].end);
                    }
                }
            }
        }
    }
}

/// Everything in an outline starts at or before the end of its last construct.
pub open spec fn all_before(o: Outline) -> bool {
    &&& forall|t: int|
        0 <= t < o.doc.texts.len() ==> (#[trigger] o.doc.texts[t]).start <= o.last_end
    &&& forall|i: int| 0 <= i < o.doc.starts.len() ==> #[trigger] o.doc.starts[i] <= o.last_end
}

pub proof fn lemma_outline_placed(ls: Seq<LexemeV>, s: Seq<u8>)
    requires
        s.len() <= u64::MAX,
        successive(ls, s),
        outline(ls).doc.starts.len() <= u32::MAX,
    ensures
        texts_placed(outline(ls).doc),
        all_before(outline(ls)),
        outline(ls).last_end == (if ls.len() == 0 {
            0
        } else {
            ls.last().end
        }),
    decreases ls.len(),
{
    if ls.len() > 0 {
        let before = ls.drop_last();
        let l = ls.last();
        let b = outline(before);
        let o = outline(ls);
        lemma_outline_entries(before);
        lemma_outline_entries(ls);
        assert(b.doc.starts.len() <= o.doc.starts.len());
        assert forall|i: int| #![trigger before[i]] 0 <= i < before.len() implies before[i]
            == ls[i] by {}
        lemma_outline_placed(before, s);
        lemma_outline_nested(before);
        lemma_open_stack(b.doc.types, b.doc.types.len() as int);
        assert(ls[ls.len() - 1] == l);
        if before.len() > 0 {
            assert(ls[before.len() - 1].end < ls[ls.len() - 1].start);
        }
        lemma_lex_bounds(s, l.start, false);
        let d = o.doc;
        let old_texts = b.doc.texts;
        assert forall|t: int| 0 <= t < d.texts.len() implies in_open_tag(d, #[trigger] d.texts[t]) by {
            if t < old_texts.len() {
                assert(d.texts[t] == old_texts[t]);
                assert(in_open_tag(b.doc, old_texts[t]));
            } else {
                let top = innermost(b.open);
                if b.open.len() > 0 {
                    assert(b.open[b.open.len() - 1] == open_stack(
                        b.doc.types,
                        b.doc.types.len() as int,
                    )[b.open.len() - 1]);
                    assert(b.doc.starts[top as int] <= b.last_end);
                }
                let open = b.open_at(l.kind->0);
                if l.kind is Some && open.len() > 0 {
                    assert(open.last() == b.open[open.len() - 1]);
                    assert(b.open[open.len() - 1] == open_stack(
                        b.doc.types,
                        b.doc.types.len() as int,
                    )[open.len() - 1]);
                    assert(b.doc.starts[open.last() as int] <= b.last_end);
                }
            }
        }
        assert forall|t: int, u: int| 0 <= t < u < d.texts.len() implies d.texts[t].start
            < d.texts[u].start by {
            if t < old_texts.len() {
                assert(d.texts[t] == old_texts[t]);
                assert(old_texts[t].start <= b.last_end);
            }
            if u < old_texts.len() {
                assert(d.texts[u] == old_texts[u]);
            }
        }
        assert forall|t: int, i: int| 0 <= t < d.texts.len() && 0 <= i < d.starts.len() implies (
        #[trigger] d.texts[t]).start != #[trigger] d.starts[i] by {
            if t < old_texts.len() {
                assert(d.texts[t] == old_texts[t]);
                assert(old_texts[t].start <= b.last_end);
            }
            if i < b.doc.starts.len() {
                assert(d.starts[i] == b.doc.starts[i]);
                assert(b.doc.starts[i] <= b.last_end);
            }
        }
        assert forall|t: int| 0 <= t < d.texts.len() implies (#[trigger] d.texts[t]).start
            <= o.last_end by {
            if t < old_texts.len() {
                assert(d.texts[t] == old_texts[t]);
                assert(old_texts[t].start <= b.last_end);
            }
        }
        assert forall|i: int| 0 <= i < d.starts.len() implies #[trigger] d.starts[i] <= o.last_end by {
            if i < b.doc.starts.len() {
                assert(d.starts[i] == b.doc.starts[i]);
                assert(b.doc.starts[i] <= b.last_end);
            }
        }
    }
}

/// In a parsed document every text stands in an open tag or outside of all, texts
/// start one after the other, and no text starts where a tag starts.
pub proof fn lemma_parsed_texts(s: Seq<u8>, d: Doc)
    requires
        parsed(s) == Ok::<Doc, int>(d),
        s.len() <= u64::MAX,
        d.starts.len() <= u32::MAX,
    ensures
        texts_placed(d),
{
    lemma_scan_successive(s, 0);
    lemma_outline_placed(scan(s, 0, false).lexemes, s);
}

} // verus!
