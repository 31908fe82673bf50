//! What the texts of a parsed document are: all that stands between its constructs, each
//! under the innermost open tag.

use vstd::prelude::*;
use crate::bytes::{is_byte, lemma_scan_to, scan_to};
use crate::index::laws::{
    lemma_open_stack, lemma_open_stack_prefix, lemma_outline_entries, lemma_outline_nested,
    open_stack, parent_entry,
};
use crate::index::lexer::{lemma_lex_bounds, lex, LexemeV};
use crate::index::outline::{innermost, outline, scan, text_from, Doc};
use crate::index::structural::parsed;
use crate::index::text_laws::{lemma_outline_placed, lemma_scan_successive, successive};
use crate::index::TagType;

verus! {

/// Whether text `t` starts after the first `k` tags of a document and before the others.
pub open spec fn starts_after(d: Doc, t: int, k: int) -> bool {
    &&& 0 <= k <= d.starts.len()
    &&& k > 0 ==> d.starts[k - 1] < d.texts[t].start
    &&& k < d.starts.len() ==> d.texts[t].start < d.starts[k]
}

/// Every text stands under the innermost tag that is open where it starts, and ends
/// before the next tag.
pub open spec fn texts_nested(d: Doc) -> bool {
    forall|t: int, k: int|
        0 <= t < d.texts.len() && #[trigger] starts_after(d, t, k) ==> d.texts[t].parent_tag
            == parent_entry(open_stack(d.types, k)) && (k < d.starts.len() ==> d.texts[t].end
            <= d.starts[k])
}

/// Every tag ends before the next one starts, and before a text that comes right after it,
/// unless it is a CDATA section, which holds its text.
pub open spec fn tags_apart(d: Doc) -> bool {
    &&& forall|i: int, j: int|
        0 <= i < j < d.starts.len() ==> #[trigger] d.ends[i] < #[trigger] d.starts[j]
    &&& forall|t: int, k: int|
        0 <= t < d.texts.len() && #[trigger] starts_after(d, t, k) && k > 0 && d.types[k - 1]
            != TagType::CData ==> d.ends[k - 1] < d.texts[t].start
}

/// Whether a position is in one of the texts.
pub open spec fn in_text(d: Doc, p: int) -> bool {
    exists|t: int| 0 <= t < d.texts.len() && (#[trigger] d.texts[t]).start <= p < d.texts[t].end
}

/// Whether a position is outside of all these constructs, and before the last of them.
pub open spec fn between(ls: Seq<LexemeV>, p: int) -> bool {
    &&& ls.len() > 0
    &&& 0 <= p < ls.last().start
    &&& forall|i: int| 0 <= i < ls.len() ==> p < (#[trigger] ls[i]).start || ls[i].end < p
}

/// All that stands between constructs is text, and it is under the innermost open tag.
proof fn lemma_outline_texts(ls: Seq<LexemeV>, s: Seq<u8>)
    requires
        s.len() <= u64::MAX,
        successive(ls, s),
        outline(ls).doc.starts.len() <= u32::MAX,
    ensures
        texts_nested(outline(ls).doc),
        tags_apart(outline(ls).doc),
        forall|i: int|
            0 <= i < outline(ls).doc.ends.len() ==> #[trigger] outline(ls).doc.ends[i]
                <= outline(ls).last_end,
        forall|t: int|
            0 <= t < outline(ls).doc.texts.len() ==> (#[trigger] outline(ls).doc.texts[t]).end
                <= outline(ls).last_end,
        forall|p: int| #[trigger] between(ls, p) ==> in_text(outline(ls).doc, p),
    decreases ls.len(),
{
    if ls.len() > 0 {
        let before = ls.drop_last();
        let l = ls.last();
        let b = outline(before);
        let o = outline(ls);
        let d = o.doc;
        let n = b.doc.starts.len() as int;
        lemma_outline_entries(before);
        lemma_outline_entries(ls);
        assert forall|i: int| #![trigger before[i]] 0 <= i < before.len() implies before[i]
            == ls[i] by {}
        lemma_outline_placed(before, s);
        lemma_outline_placed(ls, s);
        lemma_outline_texts(before, s);
        lemma_outline_nested(before);
        lemma_open_stack(b.doc.types, n);
        assert(ls[ls.len() - 1] == l);
        if before.len() > 0 {
            assert(ls[before.len() - 1].end < ls[ls.len() - 1].start);
            assert(ls[before.len() - 1].start < ls[before.len() - 1].end);
        }
        lemma_lex_bounds(s, l.start, false);
        let old = b.doc.texts;
        let from = text_from(b.last_end);
        assert(innermost(b.open) == parent_entry(open_stack(b.doc.types, n))) by {
            if b.open.len() > 0 {
                assert(b.open.last() == b.open[b.open.len() - 1]);
            }
        }
        assert forall|k: int| 0 <= k <= n implies #[trigger] open_stack(b.doc.types, k)
            == open_stack(d.types, k) by {
            lemma_open_stack_prefix(b.doc.types, d.types, k);
        }
        assert forall|i: int| 0 <= i < n implies #[trigger] d.starts[i] == b.doc.starts[i] by {}
        assert forall|t: int, k: int|
            0 <= t < d.texts.len() && #[trigger] starts_after(d, t, k) implies d.texts[t].parent_tag
            == parent_entry(open_stack(d.types, k)) && (k < d.starts.len() ==> d.texts[t].end
            <= d.starts[k]) by {
            if t < old.len() {
                assert(d.texts[t] == old[t]);
                assert(old[t].start <= b.last_end && old[t].end <= b.last_end);
                if k > n {
                    assert(d.starts[n] < d.texts[t].start);
                }
                assert(starts_after(b.doc, t, k));
            } else if t == old.len() && from < l.start {
                assert(d.texts[t].start == from);
                if k < n {
                    assert(d.starts[k] == b.doc.starts[k]);
                    assert(b.doc.starts[k] <= b.last_end);
                }
                if k > n {
                    assert(d.starts[n] < d.texts[t].start);
                }
            } else {
                assert(l.text matches Some(r) && d.texts[t].start == r.0);
                if k <= n {
                    if k < n {
                        assert(d.starts[k] == b.doc.starts[k]);
                        assert(b.doc.starts[k] <= b.last_end);
                    } else {
                        assert(d.starts[n] == l.start);
                    }
                }
                assert(k == n + 1);
                assert(d.types[n] == TagType::CData);
            }
        }
        assert forall|i: int| 0 <= i < d.ends.len() implies #[trigger] d.ends[i] <= o.last_end by {
            if i < n {
                assert(d.ends[i] == b.doc.ends[i]);
            }
        }
        assert forall|i: int, j: int| 0 <= i < j < d.starts.len() implies #[trigger] d.ends[i]
            < #[trigger] d.starts[j] by {
            assert(d.ends[i] == b.doc.ends[i]);
            if j < n {
                assert(d.starts[j] == b.doc.starts[j]);
            }
        }
        assert forall|t: int, k: int|
            0 <= t < d.texts.len() && #[trigger] starts_after(d, t, k) && k > 0 && d.types[k - 1]
                != TagType::CData implies d.ends[k - 1] < d.texts[t].start by {
            if t < old.len() {
                assert(d.texts[t] == old[t]);
                assert(old[t].start <= b.last_end && old[t].end <= b.last_end);
                if k > n {
                    assert(d.starts[n] < d.texts[t].start);
                }
                assert(starts_after(b.doc, t, k));
            } else if t == old.len() && from < l.start {
                if k > n {
                    assert(d.starts[n] < d.texts[t].start);
                }
                assert(d.ends[k - 1] == b.doc.ends[k - 1]);
                assert(b.doc.ends[k - 1] <= b.last_end);
                assert(b.doc.starts[k - 1] <= b.last_end);
            } else {
                assert(l.text matches Some(r) && d.texts[t].start == r.0);
                if k <= n {
                    if k < n {
                        assert(d.starts[k] == b.doc.starts[k]);
                        assert(b.doc.starts[k] <= b.last_end);
                    } else {
                        assert(d.starts[n] == l.start);
                    }
                }
                assert(d.types[n] == TagType::CData);
            }
        }
        assert forall|t: int| 0 <= t < d.texts.len() implies (#[trigger] d.texts[t]).end
            <= o.last_end by {
            if t < old.len() {
                assert(d.texts[t] == old[t]);
                assert(old[t].end <= b.last_end);
            }
        }
        assert forall|p: int| #[trigger] between(ls, p) implies in_text(d, p) by {
            if before.len() > 0 && p < before.last().start {
                assert forall|i: int| 0 <= i < before.len() implies p < (
                #[trigger] before[i]).start || before[i].end < p by {
                    assert(ls[i] == before[i]);
                }
                assert(between(before, p));
                let t = choose|t: int|
                    0 <= t < old.len() && (#[trigger] old[t]).start <= p < old[t].end;
                assert(d.texts[t] == old[t]);
            } else {
                if before.len() > 0 {
                    assert(ls[before.len() - 1] == before.last());
                    assert(p > b.last_end);
                }
                assert(from <= p < l.start);
                assert(d.texts[old.len() as int].start == from);
            }
        }
    }
}

/// In a parsed document every text stands under the innermost tag that is open where it
/// starts and ends before the next tag, and all that stands between the constructs of the
/// document is text.
pub proof fn lemma_parsed_texts_nested(s: Seq<u8>, d: Doc)
    requires
        parsed(s) == Ok::<Doc, int>(d),
        s.len() <= u64::MAX,
        d.starts.len() <= u32::MAX,
    ensures
        texts_nested(d),
        tags_apart(d),
        forall|p: int| #[trigger] between(scan(s, 0, false).lexemes, p) ==> in_text(d, p),
{
    lemma_scan_successive(s, 0);
    lemma_outline_texts(scan(s, 0, false).lexemes, s);
}

/// A document that ends inside of a tag is refused at the `<` of that tag: nothing can be
/// read there, and all constructs before it end before it.
pub proof fn lemma_unclosed_tag(s: Seq<u8>, p: int)
    requires
        0 <= p,
    ensures
        scan(s, p, false).unclosed matches Some(q) ==> p <= q < s.len() && s[q] == 0x3c && lex(
            s,
            q,
            false,
        ) is None && forall|i: int|
            0 <= i < scan(s, p, false).lexemes.len() ==> (#[trigger] scan(
                s,
                p,
                false,
            ).lexemes[i]).end < q,
    decreases s.len() + 1 - p,
{
    let q = scan_to(s, p, is_byte(0x3c));
    if p < s.len() {
        lemma_scan_to(s, p, is_byte(0x3c));
        if q < s.len() {
            if let Some(l) = lex(s, q, false) {
                lemma_lex_bounds(s, q, false);
                lemma_unclosed_tag(s, l.end + 1);
                let rest = scan(s, l.end + 1, false).lexemes;
                let all = scan(s, p, false).lexemes;
                assert(all == seq![l] + rest);
                if let Some(u) = scan(s, p, false).unclosed {
                    assert forall|i: int| 0 <= i < all.len() implies (#[trigger] all[i]).end < u by {
                        if i > 0 {
                            assert(all[i] == rest[i - 1]);
                        }
                    }
                }
            }
        }
    }
}

} // verus!
