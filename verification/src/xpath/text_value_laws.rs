//! What the texts and the string values of nodes are.

use vstd::prelude::*;
use crate::bytes::{is_space, lemma_scan_to_is, text_of};
use crate::index::access::texts_within;
use crate::index::entities::decoded;
use crate::index::laws::{
    lemma_no_crossing, lemma_open_stack, lemma_open_until_closed, open_stack, parent_entry, partner,
};
use crate::index::markup_laws::{write_piece, Piece};
use crate::index::outline::Doc;
use crate::index::text_laws::texts_placed;
use crate::index::text_place_laws::{starts_after, tags_apart, texts_nested};
use crate::index::{TagType, XmlIndex};
use crate::xpath::ast::Axis;
use crate::xpath::axes::{pick_nodes, prefixes_at, scope_end, PickV, TextPick};
use crate::xpath::axis_laws::{is_balanced, lemma_pick_list};
use crate::xpath::axis_pair_laws::along;
use crate::xpath::eval::{content_span, element_texts, filled_texts, node_texts};
use crate::xpath::namespaces::{lemma_uri_of_namespace, only_of_hash, uri_from};
use crate::xpath::nodes::{name_hash, XPathNode, DOC_ROOT};
use crate::xpath::scope_laws::{is_faithful, lemma_descendants, tag_node};
use crate::xpath::simd_pred::raw_text;
use crate::xpath::step_laws::lemma_turned_member;
use crate::xpath::values::{hashed_attribute, joined_texts, not_space, string_value};

verus! {

/// How many tags start before a text.
proof fn lemma_place_of_text(d: Doc, t: int, n: int) -> (k: int)
    requires
        0 <= n <= d.starts.len(),
        0 <= t < d.texts.len(),
        texts_placed(d),
        forall|i: int, j: int| 0 <= i < j < d.starts.len() ==> d.starts[i] < d.starts[j],
        n < d.starts.len() ==> d.texts[t].start < d.starts[n],
    ensures
        starts_after(d, t, k),
    decreases n,
{
    if n == 0 {
        0
    } else {
        assert(d.texts[t].start != d.starts[n - 1]);
        if d.starts[n - 1] < d.texts[t].start {
            n
        } else {
            lemma_place_of_text(d, t, n - 1)
        }
    }
}

/// A text lies in the content of an element that has a close tag exactly when it is a
/// descendant of the element.
pub proof fn lemma_text_in_content(ix: XmlIndex, i: int, t: int)
    requires
        is_faithful(ix),
        texts_nested(ix.doc()),
        0 <= i < ix.tags(),
        ix.tag_types@[i] == TagType::Open,
        ix.close_of(i) is Some,
        0 <= t < ix.text_ranges@.len(),
    ensures
        ix.inner_span(i).0 <= ix.text_ranges@[t].start && ix.text_ranges@[t].end
            <= ix.inner_span(i).1 <==> along(ix, tag_node(i), Axis::Descendant).contains(
            XPathNode::Text(t as usize),
        ),
{
    let d = ix.doc();
    let types = ix.tag_types@;
    let c = ix.close_of(i)->0;
    assert(ix.tags() == ix.tag_starts.len());
    assert(ix.text_ranges@.len() == ix.text_ranges.len());
    assert(partner(types, i) == Some(c));
    let r = d.texts[t];
    let k = lemma_place_of_text(d, t, d.starts.len() as int);
    assert(r.parent_tag == parent_entry(open_stack(types, k)));
    let st = open_stack(types, k);
    lemma_open_stack(types, k);
    lemma_open_until_closed(types, i, k);
    lemma_open_until_closed(types, i, c);
    lemma_descendants(ix, tag_node(i), false, XPathNode::Text(t as usize));
    assert(r.start <= r.end);
    if i < k <= c {
        let w = choose|w: int| 0 <= w < st.len() && st[w] == i;
        if w < st.len() - 1 {
            assert(st[w] < st[st.len() - 1]);
        }
        assert(i <= st[st.len() - 1] < k);
        if i < k - 1 {
            assert(d.starts[i] < d.starts[k - 1]);
        }
        if k < c {
            assert(d.starts[k] < d.starts[c]);
        }
    } else if k <= i {
        if k < i {
            assert(d.starts[k] < d.starts[i]);
        }
        if st.len() > 0 {
            assert(st[st.len() - 1] < k);
        }
    } else {
        if c < k - 1 {
            assert(d.starts[c] < d.starts[k - 1]);
        }
        if st.len() > 0 {
            let q = st[st.len() - 1];
            assert(st.contains(q));
            if i <= q < c {
                if q > i {
                    lemma_no_crossing(types, i, q);
                    lemma_open_until_closed(types, q, k);
                }
            }
        }
    }
}

/// The texts of the descendants of a node among the first `k` texts, joined.
pub open spec fn text_below(ix: XmlIndex, node: XPathNode, k: int) -> Seq<char>
    decreases k,
{
    if k <= 0 {
        Seq::empty()
    } else if along(ix, node, Axis::Descendant).contains(XPathNode::Text((k - 1) as usize)) {
        text_below(ix, node, k - 1) + ix.range_text(ix.text_ranges@[k - 1])
    } else {
        text_below(ix, node, k - 1)
    }
}

proof fn lemma_texts_below(ix: XmlIndex, i: int, k: int)
    requires
        is_faithful(ix),
        texts_nested(ix.doc()),
        0 <= i < ix.tags(),
        ix.tag_types@[i] == TagType::Open,
        ix.close_of(i) is Some,
        0 <= k <= ix.text_ranges@.len(),
    ensures
        texts_within(
            ix.input@,
            ix.text_ranges@,
            ix.inner_span(i).0,
            ix.inner_span(i).1,
            k,
        ) == text_below(ix, tag_node(i), k),
    decreases k,
{
    if k > 0 {
        lemma_texts_below(ix, i, k - 1);
        lemma_text_in_content(ix, i, k - 1);
    }
}

/// The string value of an element that has a close tag is the joined text of all texts
/// below it, with the references expanded.
pub proof fn lemma_value_of_element(ix: XmlIndex, i: int)
    requires
        is_faithful(ix),
        texts_nested(ix.doc()),
        0 <= i < ix.tags(),
        ix.tag_types@[i] == TagType::Open,
        ix.close_of(i) is Some,
    ensures
        string_value(ix, tag_node(i)) == decoded(
            text_below(ix, tag_node(i), ix.text_ranges@.len() as int),
            0,
        ),
{
    assert(ix.tags() == ix.tag_starts.len());
    lemma_texts_below(ix, i, ix.text_ranges@.len() as int);
}

proof fn lemma_joined_below(ix: XmlIndex, k: int)
    requires
        is_faithful(ix),
        0 <= k <= ix.text_ranges@.len(),
    ensures
        joined_texts(ix, k) == text_below(ix, XPathNode::Element(DOC_ROOT), k),
    decreases k,
{
    if k > 0 {
        lemma_joined_below(ix, k - 1);
        assert(ix.text_ranges@.len() == ix.text_ranges.len());
        assert(ix.doc().texts[k - 1] == ix.text_ranges@[k - 1]);
        lemma_descendants(
            ix,
            XPathNode::Element(DOC_ROOT),
            false,
            XPathNode::Text((k - 1) as usize),
        );
    }
}

/// The string value of the document root is the joined text of all texts below it, and
/// that of a text is its own, each with the references expanded.
pub proof fn lemma_value_of_root_and_text(ix: XmlIndex, t: usize)
    requires
        is_faithful(ix),
        t < ix.text_ranges@.len(),
    ensures
        string_value(ix, XPathNode::Element(DOC_ROOT)) == decoded(
            text_below(ix, XPathNode::Element(DOC_ROOT), ix.text_ranges@.len() as int),
            0,
        ),
        string_value(ix, XPathNode::Text(t)) == decoded(
            text_of(
                ix.input@.subrange(
                    ix.text_ranges@[t as int].start as int,
                    ix.text_ranges@[t as int].end as int,
                ),
            ),
            0,
        ),
{
    lemma_joined_below(ix, ix.text_ranges@.len() as int);
}

/// The string value of an attribute is its value with the references expanded, as long
/// as no other attribute of the tag has a name with the same hash.
pub proof fn lemma_value_of_attribute(ix: XmlIndex, i: usize, name: Seq<char>, v: Seq<char>)
    requires
        ix.attribute_names(i as int).contains(name),
        ix.attribute(i as int, name) == Some(v),
        forall|k: int|
            0 <= k < ix.attribute_names(i as int).len() ==> name_hash(
                #[trigger] ix.attribute_names(i as int)[k],
            ) == name_hash(name) ==> ix.attribute_names(i as int)[k] == name,
    ensures
        string_value(ix, XPathNode::Attribute(i, name_hash(name))) == decoded(v, 0),
{
    let names = ix.attribute_names(i as int);
    let w = choose|w: int| 0 <= w < names.len() && names[w] == name;
    lemma_hashed(ix, i as int, names, name, v, 0, w);
}

proof fn lemma_hashed(
    ix: XmlIndex,
    tag: int,
    names: Seq<Seq<char>>,
    name: Seq<char>,
    v: Seq<char>,
    k: int,
    w: int,
)
    requires
        0 <= k <= w < names.len(),
        names[w] == name,
        ix.attribute(tag, name) == Some(v),
        forall|j: int|
            0 <= j < names.len() ==> name_hash(#[trigger] names[j]) == name_hash(name) ==> names[j]
                == name,
    ensures
        hashed_attribute(ix, tag, names, name_hash(name), k) == v,
    decreases w - k,
{
    if name_hash(names[k]) != name_hash(name) {
        lemma_hashed(ix, tag, names, name, v, k + 1, w);
    }
}

/// The string value of a comment is what stands between `<!--` and `-->`.
pub proof fn lemma_value_of_comment(ix: XmlIndex, i: int, t: Seq<u8>)
    requires
        ix.wf(),
        0 <= i < ix.tags(),
        ix.tag_types@[i] == TagType::Comment,
        ix.tag_ends@[i] < ix.input@.len(),
        ix.tag_bytes(i) == write_piece(Piece::Comment(t)),
    ensures
        string_value(ix, tag_node(i)) == text_of(t),
{
    assert(ix.tags() == ix.tag_starts.len());
    let d = ix.doc();
    let a = d.starts[i] as int;
    let b = d.ends[i] as int;
    let w = write_piece(Piece::Comment(t));
    assert(w.len() == t.len() + 7);
    assert(ix.input@.subrange(a, b + 1).len() == b + 1 - a);
    assert(ix.input@.subrange(a + 4, b - 2) =~= w.subrange(4, w.len() - 3));
    assert(w.subrange(4, w.len() - 3) =~= t);
}

/// The string value of a processing instruction is what stands behind its target and
/// white space, before `?>`.
pub proof fn lemma_value_of_instruction(ix: XmlIndex, i: int, target: Seq<u8>, t: Seq<u8>)
    requires
        ix.wf(),
        0 <= i < ix.tags(),
        ix.tag_types@[i] == TagType::PI,
        ix.tag_ends@[i] < ix.input@.len(),
        ix.tag_bytes(i) == write_piece(Piece::Instruction(target, t)),
        ix.tag_names@[i].0 == ix.tag_starts@[i] + 2,
        ix.tag_names@[i].1 == target.len(),
        t.len() > 0,
        !is_space(t[0]),
    ensures
        string_value(ix, tag_node(i)) == text_of(t),
{
    assert(ix.tags() == ix.tag_starts.len());
    let d = ix.doc();
    let a = d.starts[i] as int;
    let b = d.ends[i] as int;
    let n = target.len() as int;
    let w = write_piece(Piece::Instruction(target, t));
    assert(w.len() == n + t.len() + 5);
    assert(ix.input@.subrange(a, b + 1).len() == b + 1 - a);
    assert forall|j: int| 0 <= j < w.len() implies ix.input@[a + j] == #[trigger] w[j] by {
        assert(ix.input@.subrange(a, b + 1)[j] == ix.input@[a + j]);
    }
    let p = a + 2 + n;
    assert(ix.input@[p] == w[2 + n]);
    assert(w[2 + n] == 0x20);
    assert(ix.input@[p + 1] == w[3 + n]);
    assert(w[3 + n] == t[0]);
    lemma_scan_to_is(ix.input@, p, not_space(), p + 1);
    assert(ix.input@.subrange(p + 1, b - 1) =~= w.subrange(3 + n, w.len() - 2));
    assert(w.subrange(3 + n, w.len() - 2) =~= t);
}

/// The texts of an element are those in its content that are not empty, in order: `at`
/// tells which.
pub proof fn lemma_texts_of_element(ix: XmlIndex, tag: int, k: int) -> (at: Seq<int>)
    requires
        0 <= k <= ix.text_ranges@.len(),
    ensures
        ({
            let (lo, hi) = content_span(ix, tag);
            let found = filled_texts(ix, lo, hi, k);
            &&& at.len() == found.len()
            &&& forall|i: int|
                0 <= i < at.len() ==> 0 <= #[trigger] at[i] < k && found[i] == ix.range_text(
                    ix.text_ranges@[at[i]],
                )
            &&& forall|i: int, j: int| 0 <= i < j < at.len() ==> at[i] < at[j]
            &&& forall|t: int| #[trigger]
                at.contains(t) <==> 0 <= t < k && lo <= ix.text_ranges@[t].start
                    && ix.text_ranges@[t].end <= hi && ix.range_text(ix.text_ranges@[t]).len() != 0
        }),
    decreases k,
{
    let (lo, hi) = content_span(ix, tag);
    if k == 0 {
        Seq::empty()
    } else {
        let before = lemma_texts_of_element(ix, tag, k - 1);
        assert(!before.contains(k - 1));
        let r = ix.text_ranges@[k - 1];
        if lo <= r.start && r.end <= hi && ix.range_text(r).len() != 0 {
            let at = before.push(k - 1);
            assert forall|t: int| #[trigger]
                at.contains(t) <==> before.contains(t) || t == k - 1 by {
                if at.contains(t) {
                    let w = choose|w: int| 0 <= w < at.len() && at[w] == t;
                    if w < before.len() {
                        assert(before[w] == t);
                    }
                }
                if before.contains(t) {
                    let w = choose|w: int| 0 <= w < before.len() && before[w] == t;
                    assert(at[w] == t);
                }
                assert(at[before.len() as int] == k - 1);
            }
            assert forall|i: int, j: int| 0 <= i < j < at.len() implies at[i] < at[j] by {
                assert(before.contains(before[i]));
            }
            at
        } else {
            before
        }
    }
}

/// The texts of nodes are those of each in turn: of an element its texts, of a text its
/// own, and of an attribute or a namespace none.
pub proof fn lemma_texts_of_nodes(ix: XmlIndex, nodes: Seq<XPathNode>, x: XPathNode)
    ensures
        node_texts(ix, Seq::empty(), 0).len() == 0,
        node_texts(ix, nodes.push(x), nodes.push(x).len() as int) == node_texts(
            ix,
            nodes,
            nodes.len() as int,
        ) + match x {
            XPathNode::Element(i) => element_texts(ix, i as int),
            XPathNode::Text(t) => seq![ix.range_text(ix.text_ranges@[t as int])],
            _ => Seq::empty(),
        },
{
    let all = nodes.push(x);
    lemma_first_texts(ix, nodes, all, nodes.len() as int);
    let before = node_texts(ix, nodes, nodes.len() as int);
    assert(all[nodes.len() as int] == x);
    match x {
        XPathNode::Element(i) => {},
        XPathNode::Text(t) => {
            let text = ix.range_text(ix.text_ranges@[t as int]);
            assert(before.push(text) =~= before + seq![text]);
        },
        _ => {
            assert(before =~= before + Seq::<Seq<char>>::empty());
        },
    }
}

proof fn lemma_first_texts(ix: XmlIndex, a: Seq<XPathNode>, b: Seq<XPathNode>, k: int)
    requires
        0 <= k <= a.len(),
        k <= b.len(),
        forall|i: int| 0 <= i < k ==> a[i] == b[i],
    ensures
        node_texts(ix, a, k) == node_texts(ix, b, k),
    decreases k,
{
    if k > 0 {
        lemma_first_texts(ix, a, b, k - 1);
    }
}

/// The string value of an element is its text as it stands in the document, with the
/// references expanded.
pub proof fn lemma_raw_text(ix: XmlIndex, i: usize)
    requires
        i < ix.tags(),
        ix.element(i as int),
    ensures
        string_value(ix, XPathNode::Element(i)) == decoded(
            raw_text(ix, XPathNode::Element(i)),
            0,
        ),
{
    assert(ix.tags() == ix.tag_starts.len());
}

/// A text inside of an element follows an element when it starts after it and is no
/// descendant of it, and precedes it when it starts before it.
pub proof fn lemma_texts_beside(ix: XmlIndex, j: int, t: int)
    requires
        is_faithful(ix),
        is_balanced(ix),
        texts_nested(ix.doc()),
        0 <= j < ix.tags(),
        ix.element(j),
        0 <= t < ix.text_ranges@.len(),
        ix.text_ranges@[t].parent_tag != u32::MAX,
    ensures
        along(ix, tag_node(j), Axis::Following).contains(XPathNode::Text(t as usize))
            <==> ix.text_ranges@[t].start > ix.tag_starts@[j] && !along(
            ix,
            tag_node(j),
            Axis::Descendant,
        ).contains(XPathNode::Text(t as usize)),
        along(ix, tag_node(j), Axis::Preceding).contains(XPathNode::Text(t as usize))
            <==> ix.text_ranges@[t].start < ix.tag_starts@[j],
{
    let d = ix.doc();
    let types = ix.tag_types@;
    let x = XPathNode::Text(t as usize);
    assert(ix.tags() == ix.tag_starts.len());
    assert(ix.text_ranges@.len() == ix.text_ranges.len());
    let r = d.texts[t];
    let start = ix.tag_starts@[j];
    let entry = ix.parents@[j];
    let close = scope_end(ix, j);
    if types[j] == TagType::Open {
        assert(ix.close_of(j) == partner(types, j));
        assert(partner(types, j) is Some);
        lemma_open_until_closed(types, j, j);
        lemma_text_in_content(ix, j, t);
        let k = lemma_place_of_text(d, t, d.starts.len() as int);
        assert(r.start != d.starts[close]);
        if r.start < d.starts[close] {
            if k > close {
                if k - 1 > close {
                    assert(d.starts[close] < d.starts[k - 1]);
                }
            }
            assert(k <= close);
            if k < close {
                assert(d.starts[k] < d.starts[close]);
            }
        }
        assert(d.starts[j] < d.starts[close]);
    } else {
        lemma_descendants(ix, tag_node(j), false, x);
    }
    assert(r.start <= r.end);
    let at = ix.tag_starts@[close];
    lemma_pick_list(ix, PickV::After(at), TextPick::After(at), true, x);
    lemma_pick_list(ix, PickV::Apart(entry, start), TextPick::Before(start), true, x);
    let back = pick_nodes(ix, PickV::Apart(entry, start), TextPick::Before(start), true);
    lemma_turned_member(back, x);
}

/// The string value of a namespace is the URI of its prefix, with the references
/// expanded, as long as no other prefix in scope has the same hash.
pub proof fn lemma_value_of_namespace(ix: XmlIndex, i: usize, prefix: Seq<char>)
    requires
        only_of_hash(prefixes_at(ix, i as int), prefix),
        prefix.len() > 0,
    ensures
        string_value(ix, XPathNode::Namespace(i, name_hash(prefix))) == decoded(
            uri_from(ix, i as int, prefix),
            0,
        ),
{
    lemma_uri_of_namespace(ix, i as int, prefix);
}

/// An element without content has no text.
pub proof fn lemma_value_of_empty_element(ix: XmlIndex, i: int, k: int)
    requires
        is_faithful(ix),
        tags_apart(ix.doc()),
        0 <= i < ix.tags(),
        ix.tag_types@[i] == TagType::SelfClose,
        0 <= k <= ix.text_ranges@.len(),
    ensures
        texts_within(
            ix.input@,
            ix.text_ranges@,
            ix.inner_span(i).0,
            ix.inner_span(i).1,
            k,
        ).len() == 0,
        k == ix.text_ranges@.len() ==> string_value(ix, tag_node(i)).len() == 0,
    decreases k,
{
    let d = ix.doc();
    assert(ix.tags() == ix.tag_starts.len());
    assert(ix.close_of(i) == Some(i));
    if k > 0 {
        lemma_value_of_empty_element(ix, i, k - 1);
        let t = k - 1;
        let r = d.texts[t];
        if d.starts[i] <= r.start && r.end <= d.ends[i] {
            let m = lemma_place_of_text(d, t, d.starts.len() as int);
            assert(r.start != d.starts[i]);
            if m <= i {
                if m < i {
                    assert(d.starts[m] < d.starts[i]);
                }
            } else if m > i + 1 {
                assert(d.ends[i] < d.starts[m - 1]);
            }
            assert(r.start <= r.end);
        }
    }
}

} // verus!
