//! A query by name finds the same elements in an index made for it.

use vstd::prelude::*;
use vstd::utf8::*;
use crate::bytes::text_of;
use crate::index::laws::{entry_for, has_construct, lemma_outline_entries, lemma_scan_lexemes};
use crate::index::lazy::{is_wanted, parsed_for};
use crate::index::lazy_laws::{has_entry, lemma_lazy_is_part, reads_alike, same_tag, tag_occurs};
use crate::index::lexer::lemma_lex_bounds;
use crate::index::outline::{scan, Doc};
use crate::index::structural::parsed;
use crate::index::XmlIndex;
use crate::xpath::ast::TestV;
use crate::xpath::axes::{pick_tags, picks, PickV};
use crate::xpath::nodes::{doc_pos, XPathNode};

verus! {

/// The places of the nodes in the document.
pub open spec fn places(ix: XmlIndex, nodes: Seq<XPathNode>) -> Seq<u128> {
    nodes.map_values(|n: XPathNode| doc_pos(ix, n))
}

/// Picking tags yields exactly those that meet the condition, in order.
pub proof fn lemma_pick_tags(ix: XmlIndex, pick: PickV, lo: int, hi: int)
    requires
        0 <= lo <= hi <= ix.tags(),
    ensures
        forall|k: int| #![trigger pick_tags(ix, pick, lo, hi)[k]]
            0 <= k < pick_tags(ix, pick, lo, hi).len() ==> (pick_tags(
                ix,
                pick,
                lo,
                hi,
            )[k] matches XPathNode::Element(i) && lo <= i < hi && picks(ix, pick, i as int)),
        forall|k: int, m: int|
            0 <= k < m < pick_tags(ix, pick, lo, hi).len() ==> pick_tags(
                ix,
                pick,
                lo,
                hi,
            )[k]->Element_0 < pick_tags(ix, pick, lo, hi)[m]->Element_0,
        forall|j: int|
            lo <= j < hi && #[trigger] picks(ix, pick, j) ==> pick_tags(ix, pick, lo, hi).contains(
                XPathNode::Element(j as usize),
            ),
    decreases hi - lo,
{
    assert(ix.tags() == ix.tag_starts.len());
    if lo < hi {
        lemma_pick_tags(ix, pick, lo, hi - 1);
        let before = pick_tags(ix, pick, lo, hi - 1);
        let all = pick_tags(ix, pick, lo, hi);
        assert forall|j: int| lo <= j < hi && #[trigger] picks(ix, pick, j) implies all.contains(
            XPathNode::Element(j as usize),
        ) by {
            if j == hi - 1 {
                assert(all[all.len() - 1] == XPathNode::Element(j as usize));
            } else {
                let k = choose|k: int|
                    0 <= k < before.len() && before[k] == XPathNode::Element(j as usize);
                assert(all[k] == before[k]);
            }
        }
    }
}

/// Ascending lists with the same elements are equal.
pub proof fn lemma_same_ascending(a: Seq<u128>, b: Seq<u128>)
    requires
        forall|i: int, j: int| 0 <= i < j < a.len() ==> a[i] < a[j],
        forall|i: int, j: int| 0 <= i < j < b.len() ==> b[i] < b[j],
        forall|i: int| 0 <= i < a.len() ==> b.contains(#[trigger] a[i]),
        forall|i: int| 0 <= i < b.len() ==> a.contains(#[trigger] b[i]),
    ensures
        a == b,
    decreases a.len(),
{
    if a.len() == 0 {
        if b.len() > 0 {
            assert(a.contains(b[0]));
        }
        assert(a =~= b);
    } else {
        assert(b.contains(a[0]));
        let m = a.len() - 1;
        let n = b.len() - 1;
        assert(b.contains(a[m]));
        assert(a.contains(b[n]));
        let i = choose|i: int| 0 <= i < b.len() && b[i] == a[m];
        let j = choose|j: int| 0 <= j < a.len() && a[j] == b[n];
        assert(a[m] == b[n]);
        let c = a.drop_last();
        let d = b.drop_last();
        assert forall|k: int| 0 <= k < c.len() implies d.contains(#[trigger] c[k]) by {
            assert(b.contains(a[k]));
            let w = choose|w: int| 0 <= w < b.len() && b[w] == a[k];
            assert(a[k] < a[m]);
            assert(d[w] == c[k]);
        }
        assert forall|k: int| 0 <= k < d.len() implies c.contains(#[trigger] d[k]) by {
            assert(a.contains(b[k]));
            let w = choose|w: int| 0 <= w < a.len() && a[w] == b[k];
            assert(b[k] < b[n]);
            assert(c[w] == d[k]);
        }
        lemma_same_ascending(c, d);
        assert(a =~= c.push(a[m]));
        assert(b =~= d.push(b[n]));
    }
}

/// No name in the document is longer than a name entry can say.
pub open spec fn names_fit(s: Seq<u8>) -> bool {
    forall|i: int| #![trigger scan(s, 0, false).lexemes[i]]
        0 <= i < scan(s, 0, false).lexemes.len() ==> scan(s, 0, false).lexemes[i].name_end
            - scan(s, 0, false).lexemes[i].name_start < 0x1_0000
}

/// In an index made for a query, the elements of a wanted name are those of the
/// whole document.
pub proof fn lemma_lazy_finds_elements(
    s: Seq<u8>,
    names: Set<Seq<char>>,
    name: Seq<char>,
    lazy: XmlIndex,
    full: XmlIndex,
)
    requires
        s.len() <= u64::MAX,
        names.contains(name),
        reads_alike(s),
        names_fit(s),
        parsed_for(s, names) == Ok::<Doc, int>(lazy.doc()),
        parsed(s) == Ok::<Doc, int>(full.doc()),
        full.tags() <= u32::MAX,
        lazy.wf(),
        full.wf(),
        lazy.input@ == s,
        full.input@ == s,
    ensures
        places(
            lazy,
            pick_tags(lazy, PickV::Test(TestV::Name(name)), 0, lazy.tags() as int),
        ) == places(
            full,
            pick_tags(full, PickV::Test(TestV::Name(name)), 0, full.tags() as int),
        ),
{
    let pick = PickV::Test(TestV::Name(name));
    let d = lazy.doc();
    let f = full.doc();
    let few = pick_tags(lazy, pick, 0, lazy.tags() as int);
    let all = pick_tags(full, pick, 0, full.tags() as int);
    let a = places(lazy, few);
    let b = places(full, all);
    let ls = scan(s, 0, false).lexemes;
    assert(names != Set::<Seq<char>>::empty());
    lemma_lazy_is_part(s, names, d, f);
    lemma_pick_tags(lazy, pick, 0, lazy.tags() as int);
    lemma_pick_tags(full, pick, 0, full.tags() as int);
    lemma_outline_entries(ls);
    lemma_scan_lexemes(s, 0, false);
    assert(lazy.tags() == lazy.tag_starts.len());
    assert(full.tags() == full.tag_starts.len());
    assert forall|k: int| 0 <= k < a.len() implies b.contains(#[trigger] a[k]) by {
        let i = few[k]->Element_0 as int;
        assert(few[k] == XPathNode::Element(i as usize));
        assert(tag_occurs(d, i, f));
        let j = choose|j: int| #[trigger] same_tag(d, i, f, j);
        assert(picks(lazy, pick, i));
        assert(lazy.name_bytes(i) == full.name_bytes(j));
        assert(picks(full, pick, j));
        assert(all.contains(XPathNode::Element(j as usize)));
        let w = choose|w: int| 0 <= w < all.len() && all[w] == XPathNode::Element(j as usize);
        assert(b[w] == a[k]);
    }
    assert forall|k: int| 0 <= k < b.len() implies a.contains(#[trigger] b[k]) by {
        let j = all[k]->Element_0 as int;
        assert(all[k] == XPathNode::Element(j as usize));
        assert(picks(full, pick, j));
        assert(has_construct(f, j, ls));
        let m = choose|m: int| 0 <= m < ls.len() && entry_for(f, j, #[trigger] ls[m]);
        let l = ls[m];
        lemma_lex_bounds(s, l.start, false);
        assert(f.names[j] == full.tag_names@[j]);
        assert(full.name_bytes(j) =~= s.subrange(l.name_start, l.name_end));
        encode_utf8_decode_utf8(name);
        encode_utf8_valid_utf8(name);
        assert(text_of(s.subrange(l.name_start, l.name_end)) == name);
        assert(is_wanted(s, l, names));
        assert(has_entry(d, l));
        let i = choose|i: int| 0 <= i < d.starts.len() && #[trigger] d.starts[i] == l.start as u64;
        assert(tag_occurs(d, i, f));
        let t = choose|t: int| #[trigger] same_tag(d, i, f, t);
        assert(t == j) by {
            if t < j {
                assert(f.starts[t] < f.starts[j]);
            } else if j < t {
                assert(f.starts[j] < f.starts[t]);
            }
        }
        assert(lazy.name_bytes(i) == full.name_bytes(j));
        assert(picks(lazy, pick, i));
        assert(few.contains(XPathNode::Element(i as usize)));
        let w = choose|w: int| 0 <= w < few.len() && few[w] == XPathNode::Element(i as usize);
        assert(a[w] == b[k]);
    }
    assert forall|k: int, m: int| 0 <= k < m < a.len() implies a[k] < a[m] by {
        let i = few[k]->Element_0 as int;
        let j = few[m]->Element_0 as int;
        assert(few[k] == XPathNode::Element(i as usize));
        assert(few[m] == XPathNode::Element(j as usize));
        assert(d.starts[i] < d.starts[j]);
    }
    assert forall|k: int, m: int| 0 <= k < m < b.len() implies b[k] < b[m] by {
        let i = all[k]->Element_0 as int;
        let j = all[m]->Element_0 as int;
        assert(all[k] == XPathNode::Element(i as usize));
        assert(all[m] == XPathNode::Element(j as usize));
        assert(f.starts[i] < f.starts[j]);
    }
    lemma_same_ascending(a, b);
}

} // verus!
