//! An element has the same text in an index made for a query as in one of the whole
//! document.

use vstd::prelude::*;
use vstd::utf8::*;
use crate::bytes::text_of;
use crate::index::laws::{is_nested, lemma_outline_nested, lemma_self_closing, open_stack, partner};
use crate::index::lazy::{parsed_for, sketch, tabled_if_large};
use crate::index::lazy_laws::{
    is_part, lemma_part_len, lemma_scan_in_order, reads_alike, same_tag, tag_occurs,
};
use crate::index::lazy_text_laws::{
    has_text, inside, kept_beside, lemma_content_kept, lemma_kept_beside, lemma_no_text_in_tag,
    lemma_partner_found, lemma_same_inside, wanted_tag,
};
use crate::index::outline::{outline, scan, Doc};
use crate::index::structural::parsed;
use crate::index::{TagType, XmlIndex};
use crate::xpath::eval::{element_texts, filled_texts, node_texts};
use crate::xpath::lazy_laws::{names_fit, places};
use crate::xpath::nodes::{doc_pos, place_after, XPathNode};

verus! {

/// Every open tag has a close tag of the same name, and fewer than 65536 tags are
/// open at once.
pub open spec fn is_matched(ix: XmlIndex) -> bool {
    &&& forall|i: int| #![trigger ix.tag_types@[i]]
        0 <= i < ix.tags() && ix.tag_types@[i] == TagType::Open ==> (partner(
            ix.tag_types@,
            i,
        ) matches Some(c) && ix.name_bytes(c) == ix.name_bytes(i))
    &&& forall|k: int| 0 <= k <= ix.tags() ==> #[trigger] open_stack(ix.tag_types@, k).len() < 0x1_0000
}

/// An index made for a query, and one of the whole document, as parsing makes them.
#[verifier::opaque]
pub open spec fn beside(
    s: Seq<u8>,
    names: Set<Seq<char>>,
    lazy: XmlIndex,
    full: XmlIndex,
) -> bool {
    &&& s.len() <= u64::MAX
    &&& names != Set::<Seq<char>>::empty()
    &&& reads_alike(s)
    &&& names_fit(s)
    &&& parsed_for(s, names) == Ok::<Doc, int>(lazy.doc())
    &&& parsed(s) == Ok::<Doc, int>(full.doc())
    &&& full.tags() <= u32::MAX
    &&& full.text_ranges@.len() <= u32::MAX
    &&& is_matched(full)
    &&& lazy.wf() && tabled_if_large(lazy)
    &&& full.wf() && full.bare()
    &&& lazy.input@ == s
    &&& full.input@ == s
}

/// The constructs of a document, read for a query and all.
pub proof fn lemma_beside(s: Seq<u8>, names: Set<Seq<char>>, lazy: XmlIndex, full: XmlIndex)
    requires
        beside(s, names, lazy, full),
    ensures
        ({
            let ls = scan(s, 0, true).lexemes;
            &&& kept_beside(sketch(s, ls, names), outline(ls), s, names)
            &&& sketch(s, ls, names).doc == lazy.doc()
            &&& outline(ls).doc == full.doc()
            &&& is_part(lazy.doc(), full.doc())
            &&& lazy.tags() <= full.tags()
            &&& is_nested(full.doc())
            &&& outline(ls).open.len() == open_stack(full.tag_types@, full.tags() as int).len()
            &&& forall|m: int|
                0 <= m < outline(ls).open.len() ==> #[trigger] outline(ls).open[m] == open_stack(
                    full.tag_types@,
                    full.tags() as int,
                )[m]
        }),
{
    reveal(beside);
    let ls = scan(s, 0, true).lexemes;
    lemma_scan_in_order(s, 0);
    assert(full.tags() == full.doc().starts.len());
    assert(lazy.tags() == lazy.doc().starts.len());
    lemma_kept_beside(s, ls, names);
    lemma_outline_nested(ls);
    lemma_part_len(lazy.doc(), full.doc());
}

/// A close tag that a search finds is the first that it could find.
proof fn lemma_scan_first(ix: XmlIndex, open: int, from: int, c: int)
    requires
        0 <= from,
        ix.close_scan(open, from) == Some(c),
    ensures
        from <= c < ix.tags(),
        ix.tag_types@[c] == TagType::Close && ix.depths@[c] == ix.depths@[open]
            && ix.name_bytes(c) == ix.name_bytes(open),
        forall|k: int| #![trigger ix.tag_types@[k]]
            from <= k < c ==> !(ix.tag_types@[k] == TagType::Close && ix.depths@[k]
                == ix.depths@[open] && ix.name_bytes(k) == ix.name_bytes(open)),
    decreases ix.tags() - from,
{
    if !(ix.tag_types@[from] == TagType::Close && ix.depths@[from] == ix.depths@[open]
        && ix.name_bytes(from) == ix.name_bytes(open)) {
        lemma_scan_first(ix, open, from + 1, c);
    }
}

proof fn lemma_scan_reaches(ix: XmlIndex, open: int, from: int, c: int)
    requires
        0 <= from <= c < ix.tags(),
        ix.tag_types@[c] == TagType::Close && ix.depths@[c] == ix.depths@[open]
            && ix.name_bytes(c) == ix.name_bytes(open),
        forall|k: int| #![trigger ix.tag_types@[k]]
            from <= k < c ==> !(ix.tag_types@[k] == TagType::Close && ix.depths@[k]
                == ix.depths@[open] && ix.name_bytes(k) == ix.name_bytes(open)),
    ensures
        ix.close_scan(open, from) == Some(c),
    decreases c - from,
{
    if from < c {
        lemma_scan_reaches(ix, open, from + 1, c);
    }
}

/// The tag of the whole document at the place of a tag.
pub proof fn lemma_same_place(d: Doc, i: int, full: Doc, j: int)
    requires
        0 <= i < d.starts.len(),
        tag_occurs(d, i, full),
        0 <= j < full.starts.len(),
        full.starts[j] == d.starts[i],
        forall|a: int, b: int| 0 <= a < b < full.starts.len() ==> full.starts[a] < full.starts[b],
    ensures
        same_tag(d, i, full, j),
{
    let t = choose|t: int| #[trigger] same_tag(d, i, full, t);
    assert(t == j);
}

/// The content of an element lies in the same place in an index made for a query.
pub proof fn lemma_same_span(
    s: Seq<u8>,
    names: Set<Seq<char>>,
    lazy: XmlIndex,
    full: XmlIndex,
    i: int,
    j: int,
)
    requires
        beside(s, names, lazy, full),
        0 <= i < lazy.tags(),
        0 <= j < full.tags(),
        lazy.element(i),
        lazy.tag_starts@[i] == full.tag_starts@[j],
    ensures
        same_tag(lazy.doc(), i, full.doc(), j),
        lazy.inner_span(i) == full.inner_span(j),
        lazy.tag_types@[i] == TagType::Open ==> (partner(
            full.tag_types@,
            j,
        ) matches Some(c) && full.inner_span(j) == (
            full.tag_starts@[j] as int,
            full.tag_starts@[c] as int,
        )),
        lazy.tag_types@[i] != TagType::Open ==> full.inner_span(j) == (
            full.tag_starts@[j] as int,
            full.tag_ends@[j] as int,
        ),
        lazy.tag_types@[i] == TagType::Open ==> (lazy.close_of(i) matches Some(a)
            && full.close_of(j) matches Some(b) && 0 <= a < lazy.tags() && 0 <= b < full.tags()
            && lazy.tag_starts@[a] == full.tag_starts@[b]),
{
    reveal(beside);
    let ls = scan(s, 0, true).lexemes;
    let d = lazy.doc();
    let f = full.doc();
    lemma_beside(s, names, lazy, full);
    assert(tag_occurs(d, i, f));
    lemma_same_place(d, i, f, j);
    assert(lazy.tag_types@[i] == full.tag_types@[j]);
    assert(lazy.tags() == lazy.tag_starts.len());
    assert(full.tags() == full.tag_starts.len());
    if lazy.tag_types@[i] == TagType::Open {
        full.lemma_close_by_search(j);
        let c = partner(full.tag_types@, j)->0;
        lemma_partner_found(sketch(s, ls, names), outline(ls), s, names, i, j);
        let e = partner(lazy.tag_types@, i)->0;
        if lazy.close_map@.len() == 0 {
            lemma_scan_first(full, j, j + 1, c);
            assert(tag_occurs(d, e, f));
            lemma_same_place(d, e, f, c);
            assert(lazy.name_bytes(e) == full.name_bytes(c));
            assert(lazy.name_bytes(i) == full.name_bytes(j));
            assert forall|k: int| #![trigger lazy.tag_types@[k]] i + 1 <= k < e implies !(
            lazy.tag_types@[k] == TagType::Close && lazy.depths@[k] == lazy.depths@[i]
                && lazy.name_bytes(k) == lazy.name_bytes(i)) by {
                assert(tag_occurs(d, k, f));
                let q = choose|q: int| #[trigger] same_tag(d, k, f, q);
                assert(d.starts[i] < d.starts[k]);
                assert(d.starts[k] < d.starts[e]);
                assert(j < q < c) by {
                    if q < j {
                        assert(f.starts[q] < f.starts[j]);
                    }
                    if c < q {
                        assert(f.starts[c] < f.starts[q]);
                    }
                }
                assert(lazy.name_bytes(k) == full.name_bytes(q));
                assert(full.tag_types@[q] == lazy.tag_types@[k]);
            }
            lemma_scan_reaches(lazy, i, i + 1, e);
        }
        assert(lazy.close_of(i) == Some(e));
    } else {
        if lazy.close_map@.len() > 0 {
            lemma_self_closing(lazy.tag_types@, i);
        }
    }
}

/// The texts of ranges that are not empty.
spec fn texts_of(s: Seq<u8>, ranges: Seq<(u64, u64)>) -> Seq<Seq<char>>
    decreases ranges.len(),
{
    if ranges.len() == 0 {
        Seq::empty()
    } else {
        let before = texts_of(s, ranges.drop_last());
        let t = text_of(s.subrange(ranges.last().0 as int, ranges.last().1 as int));
        if t.len() > 0 {
            before.push(t)
        } else {
            before
        }
    }
}

proof fn lemma_filled_texts(ix: XmlIndex, lo: int, hi: int, k: int)
    requires
        0 <= k <= ix.text_ranges@.len(),
    ensures
        filled_texts(ix, lo, hi, k) == texts_of(ix.input@, inside(ix.text_ranges@, lo, hi, k)),
    decreases k,
{
    if k > 0 {
        lemma_filled_texts(ix, lo, hi, k - 1);
        let t = ix.text_ranges@[k - 1];
        if lo <= t.start && t.end <= hi {
            assert(inside(ix.text_ranges@, lo, hi, k).drop_last() =~= inside(
                ix.text_ranges@,
                lo,
                hi,
                k - 1,
            ));
        }
    }
}

/// The texts of a wanted element are the same in an index made for a query.
proof fn lemma_same_element_texts(
    s: Seq<u8>,
    names: Set<Seq<char>>,
    lazy: XmlIndex,
    full: XmlIndex,
    i: int,
    j: int,
)
    requires
        beside(s, names, lazy, full),
        0 <= i < lazy.tags(),
        0 <= j < full.tags(),
        lazy.element(i),
        lazy.tag_starts@[i] == full.tag_starts@[j],
        wanted_tag(s, full.doc(), j, names),
    ensures
        element_texts(lazy, i) == element_texts(full, j),
{
    reveal(beside);
    let ls = scan(s, 0, true).lexemes;
    let d = lazy.doc();
    let f = full.doc();
    let last = outline(ls).last_end;
    lemma_beside(s, names, lazy, full);
    lemma_same_span(s, names, lazy, full, i, j);
    let (lo, hi) = full.inner_span(j);
    assert forall|u: int| #![trigger f.texts[u]]
        0 <= u < f.texts.len() && lo <= f.texts[u].start && f.texts[u].end <= hi implies has_text(
        d,
        f.texts[u],
    ) by {
        if lazy.tag_types@[i] == TagType::Open {
            lemma_content_kept(s, d, f, names, last, j, partner(full.tag_types@, j)->0, u);
        } else {
            lemma_no_text_in_tag(f, last, j, u);
        }
    }
    lemma_same_inside(d, f, lo, hi, last);
    lemma_filled_texts(lazy, lo, hi, lazy.text_ranges@.len() as int);
    lemma_filled_texts(full, lo, hi, full.text_ranges@.len() as int);
}

pub proof fn lemma_same_node_texts(
    s: Seq<u8>,
    names: Set<Seq<char>>,
    lazy: XmlIndex,
    full: XmlIndex,
    few: Seq<XPathNode>,
    all: Seq<XPathNode>,
    k: int,
)
    requires
        beside(s, names, lazy, full),
        0 <= k <= few.len(),
        few.len() == all.len(),
        places(lazy, few) == places(full, all),
        forall|m: int| #![trigger few[m]]
            0 <= m < few.len() ==> (few[m] matches XPathNode::Element(i) && i < lazy.tags()
                && lazy.element(i as int)),
        forall|m: int| #![trigger all[m]]
            0 <= m < all.len() ==> (all[m] matches XPathNode::Element(j) && j < full.tags()
                && wanted_tag(s, full.doc(), j as int, names)),
    ensures
        node_texts(lazy, few, k) == node_texts(full, all, k),
    decreases k,
{
    if k > 0 {
        lemma_same_node_texts(s, names, lazy, full, few, all, k - 1);
        let i = few[k - 1]->Element_0 as int;
        let j = all[k - 1]->Element_0 as int;
        assert(few[k - 1] == XPathNode::Element(i as usize));
        assert(all[k - 1] == XPathNode::Element(j as usize));
        assert(lazy.tags() == lazy.tag_starts.len());
        assert(full.tags() == full.tag_starts.len());
        assert(places(lazy, few)[k - 1] == doc_pos(lazy, few[k - 1]));
        assert(places(full, all)[k - 1] == doc_pos(full, all[k - 1]));
        assert(doc_pos(lazy, few[k - 1]) == place_after(lazy.tag_starts@[i], 1));
        assert(doc_pos(full, all[k - 1]) == place_after(full.tag_starts@[j], 1));
        lemma_same_element_texts(s, names, lazy, full, i, j);
    }
}

} // verus!
