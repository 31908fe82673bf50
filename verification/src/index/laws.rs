//! What holds of every parsed document.

use vstd::prelude::*;
use crate::bytes::{is_byte, lemma_scan_to, scan_to};
use crate::index::lexer::{lemma_lex_bounds, lex, LexemeV};
use crate::index::outline::{innermost, outline, scan, text_from, Doc};
use crate::index::structural::parsed;
use crate::index::tables::{lemma_pairing_shape, pairing};
use crate::index::{TagType, TextRange, XmlIndex};

verus! {

// Where tags stand.

/// Every construct that a scan finds starts at a `<` and is what stands there.
pub proof fn lemma_scan_lexemes(s: Seq<u8>, p: int, lenient: bool)
    requires
        0 <= p,
    ensures
        forall|i: int| #![trigger scan(s, p, lenient).lexemes[i]]
            0 <= i < scan(s, p, lenient).lexemes.len() ==> {
                let l = scan(s, p, lenient).lexemes[i];
                &&& p <= l.start < s.len()
                &&& s[l.start] == 0x3c
                &&& lex(s, l.start, lenient) == Some(l)
            },
    decreases s.len() + 1 - p,
{
    let q = scan_to(s, p, is_byte(0x3c));
    if q < s.len() {
        if p < s.len() {
            lemma_scan_to(s, p, is_byte(0x3c));
            if let Some(l) = lex(s, q, lenient) {
                lemma_lex_bounds(s, q, lenient);
                lemma_scan_lexemes(s, l.end + 1, lenient);
                let rest = scan(s, l.end + 1, lenient).lexemes;
                let all = scan(s, p, lenient).lexemes;
                assert(all == seq![l] + rest);
                assert forall|i: int| #![trigger all[i]] 0 <= i < all.len() implies {
                    &&& p <= all[i].start < s.len()
                    &&& s[all[i].start] == 0x3c
                    &&& lex(s, all[i].start, lenient) == Some(all[i])
                } by {
                    if i > 0 {
                        assert(all[i] == rest[i - 1]);
                    }
                }
            }
        }
    }
}

/// Tag `i` of the document is the entry of this construct.
pub open spec fn entry_for(d: Doc, i: int, l: LexemeV) -> bool {
    &&& l.kind == Some(d.types[i])
    &&& d.starts[i] == l.start as u64
    &&& d.ends[i] == l.end as u64
    &&& d.names[i] == (l.name_start as u64, ((l.name_end - l.name_start) % 0x1_0000) as u16)
}

/// Tag `i` of the document is the entry of one of these constructs.
pub open spec fn has_construct(d: Doc, i: int, ls: Seq<LexemeV>) -> bool {
    exists|j: int| 0 <= j < ls.len() && entry_for(d, i, #[trigger] ls[j])
}

/// The arrays of an outline are equally long, and every tag is the entry of one
/// of the constructs.
pub proof fn lemma_outline_entries(ls: Seq<LexemeV>)
    ensures
        ({
            let d = outline(ls).doc;
            &&& d.ends.len() == d.starts.len()
            &&& d.types.len() == d.starts.len()
            &&& d.names.len() == d.starts.len()
            &&& d.depths.len() == d.starts.len()
            &&& d.parents.len() == d.starts.len()
            &&& forall|i: int| 0 <= i < d.starts.len() ==> #[trigger] has_construct(d, i, ls)
        }),
    decreases ls.len(),
{
    if ls.len() > 0 {
        let before = ls.drop_last();
        let l = ls.last();
        lemma_outline_entries(before);
        let c = outline(before).doc;
        let d = outline(ls).doc;
        assert forall|i: int| 0 <= i < d.starts.len() implies #[trigger] has_construct(
            d,
            i,
            ls,
        ) by {
            if i < c.starts.len() {
                assert(has_construct(c, i, before));
                let j = choose|j: int| 0 <= j < before.len() && entry_for(c, i, #[trigger] before[j]);
                assert(ls[j] == before[j]);
                assert(entry_for(d, i, ls[j]));
            } else {
                assert(entry_for(d, i, ls[ls.len() - 1]));
            }
        }
    }
}

/// In a parsed document every tag starts at a `<`, and every open, close and
/// self-closing tag ends at a `>`.
pub proof fn lemma_tags_at_markup(s: Seq<u8>, d: Doc, i: int)
    requires
        parsed(s) == Ok::<Doc, int>(d),
        s.len() <= u64::MAX,
        0 <= i < d.starts.len(),
    ensures
        d.starts[i] < s.len(),
        s[d.starts[i] as int] == 0x3c,
        d.types[i] == TagType::Open || d.types[i] == TagType::Close || d.types[i]
            == TagType::SelfClose ==> d.ends[i] < s.len() && s[d.ends[i] as int] == 0x3e,
{
    let ls = scan(s, 0, false).lexemes;
    lemma_scan_lexemes(s, 0, false);
    lemma_outline_entries(ls);
    assert(has_construct(d, i, ls));
    let j = choose|j: int| 0 <= j < ls.len() && entry_for(d, i, #[trigger] ls[j]);
    lemma_lex_bounds(s, ls[j].start, false);
}

// Where text stands.

/// Where the text before construct `i` starts.
pub open spec fn gap_start(ls: Seq<LexemeV>, i: int) -> int {
    if i == 0 {
        0
    } else {
        text_from(ls[i - 1].end)
    }
}

/// Text range `t` of a document is the text before construct `i`.
pub open spec fn is_gap(t: TextRange, ls: Seq<LexemeV>, i: int) -> bool {
    &&& 0 <= i < ls.len()
    &&& t.start == gap_start(ls, i) as u64
    &&& t.end == ls[i].start as u64
    &&& gap_start(ls, i) < ls[i].start
}

/// Text range `t` of a document is the content of CDATA section `i`.
pub open spec fn is_cdata(t: TextRange, ls: Seq<LexemeV>, i: int) -> bool {
    &&& 0 <= i < ls.len()
    &&& ls[i].text matches Some(r) && t.start == r.0 as u64 && t.end == r.1 as u64
}

/// A text range is the text before a construct, or the content of a CDATA section.
pub open spec fn has_source(t: TextRange, ls: Seq<LexemeV>) -> bool {
    ||| exists|i: int| #[trigger] is_gap(t, ls, i)
    ||| exists|i: int| #[trigger] is_cdata(t, ls, i)
}

proof fn lemma_outline_texts(ls: Seq<LexemeV>)
    ensures
        forall|t: int|
            0 <= t < outline(ls).doc.texts.len() ==> has_source(
                #[trigger] outline(ls).doc.texts[t],
                ls,
            ),
        outline(ls).last_end == (if ls.len() == 0 {
            0
        } else {
            ls.last().end
        }),
    decreases ls.len(),
{
    if ls.len() > 0 {
        let before = ls.drop_last();
        let l = ls.last();
        let n = ls.len() - 1;
        lemma_outline_texts(before);
        let b = outline(before);
        let d = outline(ls).doc;
        assert forall|t: int| 0 <= t < d.texts.len() implies has_source(
            #[trigger] d.texts[t],
            ls,
        ) by {
            if t < b.doc.texts.len() {
                assert(d.texts[t] == b.doc.texts[t]);
                let x = b.doc.texts[t];
                assert(has_source(x, before));
                if exists|i: int| #[trigger] is_gap(x, before, i) {
                    let i = choose|i: int| #[trigger] is_gap(x, before, i);
                    assert(is_gap(x, ls, i));
                } else {
                    let i = choose|i: int| #[trigger] is_cdata(x, before, i);
                    assert(is_cdata(x, ls, i));
                }
            } else if t < b.texts_before(l.start).len() {
                assert(is_gap(d.texts[t], ls, n));
            } else {
                assert(is_cdata(d.texts[t], ls, n));
            }
        }
    }
}

/// Between the constructs that a scan finds stands no `<`.
proof fn lemma_scan_gaps(s: Seq<u8>, p: int, i: int, x: int)
    requires
        0 <= p,
        0 <= i < scan(s, p, false).lexemes.len(),
        (if i == 0 {
            p
        } else {
            scan(s, p, false).lexemes[i - 1].end + 1
        }) <= x < scan(s, p, false).lexemes[i].start,
    ensures
        s[x] != 0x3c,
    decreases s.len() + 1 - p,
{
    let q = scan_to(s, p, is_byte(0x3c));
    if p < s.len() && q < s.len() {
        lemma_scan_to(s, p, is_byte(0x3c));
        if let Some(l) = lex(s, q, false) {
            lemma_lex_bounds(s, q, false);
            let rest = scan(s, l.end + 1, false).lexemes;
            let all = scan(s, p, false).lexemes;
            assert(all == seq![l] + rest);
            if i > 0 {
                assert(all[i] == rest[i - 1]);
                if i > 1 {
                    assert(all[i - 1] == rest[i - 2]);
                }
                lemma_scan_gaps(s, l.end + 1, i - 1, x);
            }
        }
    }
}

/// In a parsed document every text range that is not the content of a CDATA section
/// holds no `<`.
pub proof fn lemma_text_between_tags(s: Seq<u8>, d: Doc, t: int)
    requires
        parsed(s) == Ok::<Doc, int>(d),
        s.len() <= u64::MAX,
        0 <= t < d.texts.len(),
    ensures
        (exists|i: int| #[trigger] is_cdata(d.texts[t], scan(s, 0, false).lexemes, i)) || forall|
            x: int,
        |
            d.texts[t].start <= x < d.texts[t].end ==> #[trigger] s[x] != 0x3c,
{
    let ls = scan(s, 0, false).lexemes;
    let r = d.texts[t];
    lemma_outline_texts(ls);
    lemma_scan_lexemes(s, 0, false);
    assert(has_source(r, ls));
    if !(exists|i: int| #[trigger] is_cdata(r, ls, i)) {
        let i = choose|i: int| #[trigger] is_gap(r, ls, i);
        if i > 0 {
            let q = ls[i - 1].start;
            lemma_lex_bounds(s, q, false);
            lemma_scan_to(s, q, is_byte(0x3e));
            assert(ls[i - 1].end > 0) by {
                assert(s[q] == 0x3c);
            }
        }
        assert forall|x: int| r.start <= x < r.end implies #[trigger] s[x] != 0x3c by {
            lemma_scan_gaps(s, 0, i, x);
        }
    }
}

// How tags nest.

/// The open tags that are not closed before tag `k`, outermost first.
pub open spec fn open_stack(types: Seq<TagType>, k: int) -> Seq<int>
    decreases k,
{
    if k <= 0 {
        Seq::empty()
    } else {
        let before = open_stack(types, k - 1);
        match types[k - 1] {
            TagType::Open => before.push(k - 1),
            TagType::Close => if before.len() > 0 {
                before.drop_last()
            } else {
                before
            },
            _ => before,
        }
    }
}

/// The open tags that enclose tag `i`, outermost first. A close tag stands
/// beside the tag that it closes.
pub open spec fn enclosing(types: Seq<TagType>, i: int) -> Seq<int> {
    let st = open_stack(types, i);
    if types[i] == TagType::Close && st.len() > 0 {
        st.drop_last()
    } else {
        st
    }
}

/// The innermost enclosing tag as a parent entry.
pub open spec fn parent_entry(st: Seq<int>) -> u32 {
    if st.len() == 0 {
        u32::MAX
    } else {
        st.last() as u32
    }
}

/// The parents and the depths of a document are those of its nesting: the parent
/// of a tag is the innermost open tag that encloses it, and its depth is the
/// number of open tags that enclose it.
pub open spec fn is_nested(d: Doc) -> bool {
    &&& forall|i: int| #![trigger d.parents[i]]
        0 <= i < d.types.len() ==> d.parents[i] == parent_entry(enclosing(d.types, i))
    &&& (forall|k: int| 0 <= k <= d.types.len() ==> #[trigger] open_stack(d.types, k).len() < 0x1_0000)
        ==> forall|i: int| #![trigger d.depths[i]]
        0 <= i < d.types.len() ==> d.depths[i] == enclosing(d.types, i).len()
}

pub proof fn lemma_open_stack_prefix(a: Seq<TagType>, b: Seq<TagType>, k: int)
    requires
        k <= a.len(),
        k <= b.len(),
        forall|i: int| 0 <= i < k ==> a[i] == b[i],
    ensures
        open_stack(a, k) == open_stack(b, k),
    decreases k,
{
    if k > 0 {
        lemma_open_stack_prefix(a, b, k - 1);
    }
}

/// The stack holds open tags below `k`, in ascending order.
pub proof fn lemma_open_stack(types: Seq<TagType>, k: int)
    requires
        0 <= k <= types.len(),
    ensures
        forall|j: int|
            0 <= j < open_stack(types, k).len() ==> 0 <= #[trigger] open_stack(types, k)[j] < k
                && types[open_stack(types, k)[j]] == TagType::Open,
        forall|i: int, j: int|
            0 <= i < j < open_stack(types, k).len() ==> open_stack(types, k)[i] < open_stack(
                types,
                k,
            )[j],
        open_stack(types, k).len() <= k,
    decreases k,
{
    if k > 0 {
        lemma_open_stack(types, k - 1);
    }
}

/// Reading constructs keeps the stack of open tags, and with it parents and
/// depths.
pub proof fn lemma_outline_nested(ls: Seq<LexemeV>)
    requires
        outline(ls).doc.starts.len() <= u32::MAX,
    ensures
        ({
            let o = outline(ls);
            let n = o.doc.types.len() as int;
            &&& is_nested(o.doc)
            &&& o.open.len() == open_stack(o.doc.types, n).len()
            &&& forall|j: int|
                0 <= j < o.open.len() ==> #[trigger] o.open[j] == open_stack(o.doc.types, n)[j]
            &&& (forall|k: int|
                0 <= k <= n ==> #[trigger] open_stack(o.doc.types, k).len() < 0x1_0000)
                ==> o.depth == o.open.len()
        }),
    decreases ls.len(),
{
    let o = outline(ls);
    lemma_outline_entries(ls);
    if ls.len() == 0 {
        assert(open_stack(o.doc.types, 0).len() == 0);
    } else {
        let before = ls.drop_last();
        let l = ls.last();
        let b = outline(before);
        lemma_outline_entries(before);
        assert(b.doc.starts.len() <= o.doc.starts.len());
        lemma_outline_nested(before);
        if let Some(kind) = l.kind {
            let types = o.doc.types;
            let m = b.doc.types.len() as int;
            assert(types.len() == m + 1);
            assert forall|k: int| 0 <= k <= m implies #[trigger] open_stack(b.doc.types, k)
                == open_stack(types, k) by {
                lemma_open_stack_prefix(b.doc.types, types, k);
            }
            let st = open_stack(types, m);
            assert(st == open_stack(b.doc.types, m));
            lemma_open_stack(types, m);
            let open = b.open_at(kind);
            assert(innermost(open) == parent_entry(enclosing(types, m))) by {
                if open.len() > 0 {
                    assert(open.last() == b.open[open.len() - 1]);
                }
            }
            assert forall|i: int| #![trigger o.doc.parents[i]] 0 <= i < types.len() implies o.doc.parents[i]
                == parent_entry(enclosing(types, i)) by {
                if i < m {
                    assert(o.doc.parents[i] == b.doc.parents[i]);
                    assert(open_stack(b.doc.types, i) == open_stack(types, i));
                }
            }
            let next = open_stack(types, m + 1);
            assert forall|j: int| 0 <= j < o.open.len() implies #[trigger] o.open[j] == next[j] by {
                if j < b.open.len() {
                    assert(b.open[j] == st[j]);
                }
            }
            if forall|k: int| 0 <= k <= m + 1 ==> #[trigger] open_stack(types, k).len() < 0x1_0000 {
                assert forall|k: int| 0 <= k <= m implies #[trigger] open_stack(
                    b.doc.types,
                    k,
                ).len() < 0x1_0000 by {
                    assert(open_stack(types, k).len() < 0x1_0000);
                }
                assert(b.depth == b.open.len());
                assert(next.len() < 0x1_0000) by {
                    assert(open_stack(types, m + 1).len() < 0x1_0000);
                }
                assert forall|i: int| #![trigger o.doc.depths[i]] 0 <= i < types.len() implies o.doc.depths[i]
                    == enclosing(types, i).len() by {
                    if i < m {
                        assert(o.doc.depths[i] == b.doc.depths[i]);
                        assert(open_stack(b.doc.types, i) == open_stack(types, i));
                    }
                }
            }
        }
    }
}

/// In a parsed document the parent of every tag is the innermost open tag that
/// encloses it, and, as long as fewer than 65536 tags are open at once, its
/// depth is the number of open tags that enclose it.
pub proof fn lemma_parsed_nested(s: Seq<u8>, d: Doc)
    requires
        parsed(s) == Ok::<Doc, int>(d),
        d.starts.len() <= u32::MAX,
    ensures
        is_nested(d),
{
    lemma_outline_nested(scan(s, 0, false).lexemes);
}

/// What stands below an open tag on the stack is what was open before it.
pub proof fn lemma_stack_below(types: Seq<TagType>, k: int, m: int)
    requires
        0 <= k <= types.len(),
        0 <= m < open_stack(types, k).len(),
    ensures
        open_stack(types, k).take(m) == open_stack(types, open_stack(types, k)[m]),
    decreases k,
{
    if k > 0 {
        let st = open_stack(types, k);
        let before = open_stack(types, k - 1);
        if m < before.len() {
            lemma_stack_below(types, k - 1, m);
            assert(st.take(m) =~= before.take(m));
        } else {
            assert(st.take(m) =~= before);
        }
    }
}

/// The tags that enclose the parent of a tag are those that enclose the tag,
/// without the parent: following the parent entries upwards visits the enclosing
/// open tags from the innermost to the outermost.
pub proof fn lemma_parent_enclosing(types: Seq<TagType>, i: int)
    requires
        0 <= i < types.len(),
        enclosing(types, i).len() > 0,
    ensures
        0 <= enclosing(types, i).last() < i,
        types[enclosing(types, i).last()] == TagType::Open,
        enclosing(types, enclosing(types, i).last()) == enclosing(types, i).drop_last(),
{
    let e = enclosing(types, i);
    let st = open_stack(types, i);
    lemma_open_stack(types, i);
    assert(e.last() == st[e.len() - 1]);
    lemma_stack_below(types, i, e.len() - 1);
    assert(st.take(e.len() - 1) =~= e.drop_last());
}

/// The open tags that a pairing waits for are those on the stack.
proof fn lemma_pending(types: Seq<TagType>, k: int)
    ensures
        pairing(types, k).pending == open_stack(types, k),
    decreases k,
{
    if k > 0 {
        lemma_pending(types, k - 1);
    }
}

/// The close tag that a pairing of all tags gives tag `i`, if any.
pub open spec fn partner(types: Seq<TagType>, i: int) -> Option<int> {
    let c = pairing(types, types.len() as int).close[i];
    if c == u32::MAX {
        None
    } else {
        Some(c as int)
    }
}

/// An open tag is on the stack exactly as long as it is not closed.
proof fn lemma_on_stack(types: Seq<TagType>, k: int, i: int)
    requires
        0 <= k <= types.len() <= u32::MAX,
        0 <= i < k,
    ensures
        open_stack(types, k).contains(i) <==> types[i] == TagType::Open && pairing(
            types,
            k,
        ).close[i] == u32::MAX,
        types[i] == TagType::Open && pairing(types, k).close[i] != u32::MAX ==> {
            let c = pairing(types, k).close[i] as int;
            &&& i < c < k
            &&& types[c] == TagType::Close
            &&& open_stack(types, c).len() > 0
            &&& open_stack(types, c).last() == i
        },
    decreases k,
{
    lemma_pairing_shape(types, k);
    lemma_pairing_shape(types, k - 1);
    lemma_pending(types, k - 1);
    lemma_pending(types, k);
    let st = open_stack(types, k);
    let before = open_stack(types, k - 1);
    if i < k - 1 {
        lemma_on_stack(types, k - 1, i);
        if before.contains(i) {
            let m = choose|m: int| 0 <= m < before.len() && before[m] == i;
            if m < st.len() {
                assert(st[m] == i);
            }
        }
        if st.contains(i) {
            let m = choose|m: int| 0 <= m < st.len() && st[m] == i;
            assert(before[m] == i);
        }
    } else if types[i] == TagType::Open {
        assert(st[st.len() - 1] == i);
    } else if st.contains(i) {
        let m = choose|m: int| 0 <= m < st.len() && st[m] == i;
        assert(before[m] == i);
    }
}

/// Reading further tags never changes a close tag that has been found.
proof fn lemma_close_stays(types: Seq<TagType>, j: int, k: int, i: int)
    requires
        0 <= i < j <= k <= types.len() <= u32::MAX,
    ensures
        pairing(types, j).close[i] != u32::MAX ==> pairing(types, k).close[i] == pairing(
            types,
            j,
        ).close[i],
        pairing(types, j).close[i] == u32::MAX && types[i] == TagType::Open ==> pairing(
            types,
            k,
        ).close[i] >= j,
    decreases k,
{
    if j < k {
        lemma_close_stays(types, j, k - 1, i);
        lemma_pairing_shape(types, k - 1);
        let p = pairing(types, k - 1);
        if p.pending.len() > 0 {
            assert(p.close[p.pending.last()] == u32::MAX);
        }
    }
}

/// An open tag stands on the stack before tag `k` exactly when it starts before
/// tag `k` and is not closed before it.
pub proof fn lemma_open_until_closed(types: Seq<TagType>, i: int, k: int)
    requires
        0 <= i < types.len(),
        0 <= k <= types.len() <= u32::MAX,
        types[i] == TagType::Open,
    ensures
        open_stack(types, k).contains(i) <==> i < k && (partner(types, i) matches Some(c) ==> k
            <= c),
        partner(types, i) matches Some(c) ==> i < c < types.len() && types[c] == TagType::Close
            && open_stack(types, c).len() > 0 && open_stack(types, c).last() == i,
{
    lemma_open_stack(types, k);
    lemma_on_stack(types, types.len() as int, i);
    if i < k {
        lemma_on_stack(types, k, i);
        lemma_close_stays(types, k, types.len() as int, i);
    }
}

/// A close tag closes the innermost open tag.
pub proof fn lemma_closes_innermost(types: Seq<TagType>, k: int)
    requires
        0 <= k < types.len() <= u32::MAX,
        types[k] == TagType::Close,
        open_stack(types, k).len() > 0,
    ensures
        partner(types, open_stack(types, k).last()) == Some(k),
{
    let i = open_stack(types, k).last();
    lemma_open_stack(types, k);
    lemma_pending(types, k);
    lemma_pairing_shape(types, k);
    assert(pairing(types, k + 1).close[i] == k);
    lemma_close_stays(types, k + 1, types.len() as int, i);
}

/// A self-closing tag closes itself.
pub proof fn lemma_self_closing(types: Seq<TagType>, i: int)
    requires
        0 <= i < types.len() <= u32::MAX,
        types[i] == TagType::SelfClose,
    ensures
        partner(types, i) == Some(i),
{
    lemma_pairing_shape(types, i);
    assert(pairing(types, i + 1).close[i] == i);
    lemma_close_stays(types, i + 1, types.len() as int, i);
}

/// Elements do not cross: an open tag inside another is closed before it.
pub proof fn lemma_no_crossing(types: Seq<TagType>, a: int, b: int)
    requires
        types.len() <= u32::MAX,
        0 <= a < b < types.len(),
        types[a] == TagType::Open,
        types[b] == TagType::Open,
        partner(types, a) matches Some(c) && b < c,
    ensures
        partner(types, b) matches Some(c) && c < partner(types, a)->0,
{
    let c = partner(types, a)->0;
    lemma_open_until_closed(types, a, b);
    lemma_open_until_closed(types, a, c);
    lemma_open_until_closed(types, b, c);
    lemma_open_stack(types, c);
    let st = open_stack(types, c);
    if st.contains(b) {
        let m = choose|m: int| 0 <= m < st.len() && st[m] == b;
        if m < st.len() - 1 {
            assert(st[m] < st[st.len() - 1]);
        }
    }
    if partner(types, b) == Some(c) {
        assert(open_stack(types, c).last() == b);
    }
}

/// The number that a pairing has reached counts the tags that are not open tags.
proof fn lemma_counter_mono(types: Seq<TagType>, j: int, k: int)
    requires
        0 <= j <= k <= types.len(),
    ensures
        pairing(types, j).counter <= pairing(types, k).counter,
        j < k && types[j] != TagType::Open ==> pairing(types, j).counter < pairing(
            types,
            k,
        ).counter,
    decreases k,
{
    if j < k {
        lemma_counter_mono(types, j, k - 1);
        if j == k - 1 {
            assert(pairing(types, k) == pairing(types, j).step(types[j], j));
        }
    }
}

/// Where the element of tag `i` ends: at its close tag, or at the tag itself.
pub open spec fn last_tag(types: Seq<TagType>, i: int) -> int {
    if types[i] == TagType::Open && partner(types, i) is Some {
        partner(types, i)->0
    } else {
        i
    }
}

/// The post-order number of a closed element is the number reached at its end.
proof fn lemma_post(types: Seq<TagType>, i: int, k: int)
    requires
        0 <= i < k <= types.len() <= u32::MAX,
        types[i] == TagType::Open ==> partner(types, i) is Some,
        last_tag(types, i) < k,
    ensures
        pairing(types, k).post[i] == pairing(types, last_tag(types, i)).counter,
    decreases k,
{
    let e = last_tag(types, i);
    lemma_pairing_shape(types, k - 1);
    lemma_pending(types, k - 1);
    if types[i] == TagType::Open {
        lemma_open_until_closed(types, i, e);
        lemma_pairing_shape(types, e);
        lemma_pending(types, e);
        lemma_open_until_closed(types, i, k - 1);
    }
    if e == k - 1 {
        assert(pairing(types, k) == pairing(types, e).step(types[e], e));
    } else {
        lemma_post(types, i, k - 1);
        let p = pairing(types, k - 1);
        if p.pending.len() > 0 {
            assert(p.pending.last() != i) by {
                assert(open_stack(types, k - 1).contains(open_stack(types, k - 1).last()));
                assert(types[p.pending.last()] == TagType::Open);
            }
        }
    }
}

/// The pre-order and post-order test finds exactly the open tags that enclose a
/// tag, as long as the two elements are closed.
pub proof fn lemma_ancestor_by_order(types: Seq<TagType>, a: int, b: int)
    requires
        types.len() <= u32::MAX,
        0 <= a < types.len(),
        0 <= b < types.len(),
        types[a] == TagType::Open ==> partner(types, a) is Some,
        types[b] == TagType::Open ==> partner(types, b) is Some,
    ensures
        enclosing(types, b).contains(a) <==> a < b && pairing(types, types.len() as int).post[a]
            > pairing(types, types.len() as int).post[b],
{
    let n = types.len() as int;
    let st = open_stack(types, b);
    let en = enclosing(types, b);
    lemma_open_stack(types, b);
    if en.contains(a) {
        let m = choose|m: int| 0 <= m < en.len() && en[m] == a;
        assert(st[m] == a);
        assert(a < b && types[a] == TagType::Open);
    }
    if a < b {
        let ea = last_tag(types, a);
        let eb = last_tag(types, b);
        if types[a] == TagType::Open {
            lemma_open_until_closed(types, a, b);
        }
        if types[b] == TagType::Open {
            lemma_open_until_closed(types, b, b);
        }
        lemma_post(types, a, n);
        lemma_post(types, b, n);
        if ea < eb {
            lemma_counter_mono(types, ea, eb);
        } else if eb < ea {
            lemma_counter_mono(types, eb, ea);
        }
        assert(types[a] == TagType::Open ==> types[ea] == TagType::Close);
        assert(pairing(types, ea).counter > pairing(types, eb).counter <==> ea > eb);
        if types[a] == TagType::Open {
            if types[b] == TagType::Open {
                if ea > b {
                    lemma_no_crossing(types, a, b);
                }
            } else if types[b] == TagType::Close {
                if st.len() > 0 {
                    lemma_closes_innermost(types, b);
                    if st.contains(a) && ea > b {
                        let m = choose|m: int| 0 <= m < st.len() && st[m] == a;
                        assert(m < st.len() - 1);
                        assert(en[m] == a);
                    }
                    if en.contains(a) {
                        let m = choose|m: int| 0 <= m < en.len() && en[m] == a;
                        assert(st[m] == a);
                        assert(st[m] < st[st.len() - 1]);
                    }
                }
            }
        }
    }
}

impl<'a> XmlIndex<'a> {
    /// On an index with lookup tables, what `is_ancestor` computes is whether one
    /// tag encloses the other, provided that the two elements are closed.
    pub proof fn lemma_is_ancestor(&self, a: int, b: int)
        requires
            self.wf(),
            self.indexed(),
            self.tables_fit(),
            0 <= a < self.tags(),
            0 <= b < self.tags(),
            self.tag_types@[a] == TagType::Open ==> self.close_of(a) is Some,
            self.tag_types@[b] == TagType::Open ==> self.close_of(b) is Some,
        ensures
            (a < b && self.post_order@[a] > self.post_order@[b]) <==> enclosing(
                self.tag_types@,
                b,
            ).contains(a),
    {
        lemma_pairing_shape(self.tag_types@, self.tags() as int);
        lemma_ancestor_by_order(self.tag_types@, a, b);
    }
}

} // verus!
