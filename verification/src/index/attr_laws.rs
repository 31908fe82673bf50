//! How the ways to read a tag's attributes agree: all at once, their names
//! alone, and one by its name.

use vstd::prelude::*;
use vstd::utf8::{
    decode_utf8, decode_utf8_encode_utf8, encode_utf8, encode_utf8_decode_utf8, valid_utf8,
};
use crate::bytes::{
    find_seq, is_byte, is_space, lemma_find_seq, lemma_scan_to, lemma_scan_to_is, occurs_at,
    scan_to,
};
use crate::index::lexer::ends_open_name;
use crate::index::tags::{
    attr_texts, attrs_from, attrs_start, ends_attr_name, is_quote, named, ns_decls_from, plain_name,
    plain_names, span_text, value_named, xmlns, xmlns_colon, AttrSpan,
};
use crate::index::XmlIndex;

verus! {

/// The bytes of an attribute's name.
pub open spec fn attr_name(t: Seq<u8>, a: AttrSpan) -> Seq<u8> {
    t.subrange(a.name.0, a.name.1)
}

/// No attribute of a tag has an empty name, and each lies in the tag.
proof fn lemma_named(t: Seq<u8>, p: int, k: int)
    requires
        0 < p,
        0 <= k < attrs_from(t, p, false).len(),
    ensures
        0 <= attrs_from(t, p, false)[k].name.0 < attrs_from(t, p, false)[k].name.1 <= t.len(),
    decreases t.len() + 2 - p,
{
    if p < t.len() && t[p] != 0x3e && t[p] != 0x2f {
        if is_space(t[p]) {
            lemma_named(t, p + 1, k);
        } else {
            lemma_scan_to(t, p, ends_attr_name());
            let e = scan_to(t, p, ends_attr_name());
            if e < t.len() && t[e] == 0x3d {
                if e + 1 < t.len() && is_quote(t[e + 1]) {
                    let v = e + 2;
                    lemma_scan_to(t, v, is_byte(t[e + 1]));
                    let q = scan_to(t, v, is_byte(t[e + 1]));
                    let head = named(p, e, v, q);
                    if q < t.len() && k >= head.len() {
                        lemma_named(t, q + 1, k - head.len());
                    }
                } else {
                    lemma_named(t, e + 2, k);
                }
            } else {
                lemma_named(t, e + 1, k);
            }
        }
    }
}

/// A search by name passes over attributes of other names.
proof fn lemma_value_named(t: Seq<u8>, spans: Seq<AttrSpan>, name: Seq<u8>, from: int, k: int)
    requires
        0 <= from <= k <= spans.len(),
        forall|j: int| from <= j < k ==> attr_name(t, #[trigger] spans[j]) != name,
    ensures
        value_named(t, spans, name, from) == value_named(t, spans, name, k),
    decreases k - from,
{
    if from < k {
        assert(attr_name(t, spans[from]) != name);
        lemma_value_named(t, spans, name, from + 1, k);
    }
}

/// Whether every quoted value from position `p` of a tag on is closed.
pub open spec fn values_closed(t: Seq<u8>, p: int) -> bool
    decreases t.len() + 2 - p,
{
    if p < 0 || p >= t.len() || t[p] == 0x3e || t[p] == 0x2f {
        true
    } else if is_space(t[p]) {
        values_closed(t, p + 1)
    } else {
        proof {
            lemma_scan_to(t, p, ends_attr_name());
        }
        let e = scan_to(t, p, ends_attr_name());
        if e < t.len() && t[e] == 0x3d {
            if e + 1 < t.len() && is_quote(t[e + 1]) {
                proof {
                    lemma_scan_to(t, e + 2, is_byte(t[e + 1]));
                }
                let q = scan_to(t, e + 2, is_byte(t[e + 1]));
                q < t.len() && values_closed(t, q + 1)
            } else {
                values_closed(t, e + 2)
            }
        } else {
            values_closed(t, e + 1)
        }
    }
}

/// Where every value is closed, an unclosed one makes no difference.
proof fn lemma_closed_attrs(t: Seq<u8>, p: int)
    requires
        values_closed(t, p),
    ensures
        attrs_from(t, p, true) == attrs_from(t, p, false),
    decreases t.len() + 2 - p,
{
    if 0 <= p < t.len() && t[p] != 0x3e && t[p] != 0x2f {
        if is_space(t[p]) {
            lemma_closed_attrs(t, p + 1);
        } else {
            lemma_scan_to(t, p, ends_attr_name());
            let e = scan_to(t, p, ends_attr_name());
            if e < t.len() && t[e] == 0x3d {
                if e + 1 < t.len() && is_quote(t[e + 1]) {
                    lemma_scan_to(t, e + 2, is_byte(t[e + 1]));
                    let q = scan_to(t, e + 2, is_byte(t[e + 1]));
                    lemma_closed_attrs(t, q + 1);
                } else {
                    lemma_closed_attrs(t, e + 2);
                }
            } else {
                lemma_closed_attrs(t, e + 1);
            }
        }
    }
}

impl<'a> XmlIndex<'a> {
    /// The attributes of a tag, as listed by `attributes`.
    pub open spec fn attr_spans(&self, i: int) -> Seq<AttrSpan> {
        let t = self.tag_bytes(i);
        attrs_from(t, attrs_start(t), false)
    }

    /// The names that `get_all_attribute_names` gives are those of the attributes
    /// that `attributes` gives, without namespace declarations, as long as every
    /// quoted value of the tag is closed.
    pub proof fn lemma_attribute_names(&self, i: int)
        requires
            0 <= i < self.tags(),
            values_closed(self.tag_bytes(i), attrs_start(self.tag_bytes(i))),
        ensures
            self.attribute_names(i) == plain_names(self.tag_bytes(i), self.attr_spans(i)),
    {
        lemma_closed_attrs(self.tag_bytes(i), attrs_start(self.tag_bytes(i)));
    }

    /// `get_attribute` finds by its name the value of each attribute that
    /// `attributes` gives; of several with one name, that of the first.
    pub proof fn lemma_attribute_by_name(&self, i: int, k: int)
        requires
            self.wf(),
            0 <= i < self.tags(),
            0 <= k < self.attr_spans(i).len(),
            valid_utf8(attr_name(self.tag_bytes(i), self.attr_spans(i)[k])),
            forall|j: int|
                0 <= j < k ==> attr_name(self.tag_bytes(i), #[trigger] self.attr_spans(i)[j])
                    != attr_name(self.tag_bytes(i), self.attr_spans(i)[k]),
        ensures
            self.attribute(i, span_text(self.tag_bytes(i), self.attr_spans(i)[k].name)) == Some(
                span_text(self.tag_bytes(i), self.attr_spans(i)[k].value),
            ),
    {
        let t = self.tag_bytes(i);
        let spans = self.attr_spans(i);
        let name = attr_name(t, spans[k]);
        assert(t.len() > 0);
        lemma_scan_to(t, 1, ends_open_name());
        lemma_named(t, attrs_start(t), k);
        lemma_value_named(t, spans, name, 0, k);
        decode_utf8_encode_utf8(name);
        assert(name.len() > 0);
        assert(encode_utf8(Seq::<char>::empty()).len() == 0);
    }

    /// `get_attribute` finds nothing by a name that no attribute has that
    /// `attributes` gives.
    pub proof fn lemma_no_attribute(&self, i: int, name: Seq<char>)
        requires
            forall|j: int|
                0 <= j < self.attr_spans(i).len() ==> attr_name(
                    self.tag_bytes(i),
                    #[trigger] self.attr_spans(i)[j],
                ) != encode_utf8(name),
        ensures
            self.attribute(i, name) is None,
    {
        let spans = self.attr_spans(i);
        lemma_value_named(self.tag_bytes(i), spans, encode_utf8(name), 0, spans.len() as int);
    }

    /// The names and values of a tag's attributes, as `attributes` lists them.
    pub open spec fn attribute_pairs(&self, i: int) -> Seq<(Seq<char>, Seq<char>)> {
        if 0 <= i < self.tags() {
            attr_texts(self.tag_bytes(i), self.attr_spans(i))
        } else {
            Seq::empty()
        }
    }

    /// The attributes that `attributes` lists are found by name, and no others: the
    /// value of each is what `get_attribute` gives for its name, and for an empty
    /// name, a name that is not listed, or a number that is no tag it gives nothing.
    /// The names of the tag are valid UTF-8 and differ.
    pub proof fn lemma_listed_attributes(&self, i: int)
        requires
            self.wf(),
            0 <= i < self.tags() ==> forall|k: int|
                0 <= k < self.attr_spans(i).len() ==> valid_utf8(
                    attr_name(self.tag_bytes(i), #[trigger] self.attr_spans(i)[k]),
                ),
            forall|j: int, k: int|
                0 <= j < k < self.attribute_pairs(i).len() ==> self.attribute_pairs(i)[j].0
                    != self.attribute_pairs(i)[k].0,
        ensures
            forall|k: int|
                0 <= k < self.attribute_pairs(i).len() ==> self.attribute(
                    i,
                    (#[trigger] self.attribute_pairs(i)[k]).0,
                ) == Some(self.attribute_pairs(i)[k].1),
            forall|name: Seq<char>|
                (forall|k: int|
                    0 <= k < self.attribute_pairs(i).len() ==> (
                    #[trigger] self.attribute_pairs(i)[k]).0 != name) ==> #[trigger] self.attribute(
                    i,
                    name,
                ) is None,
            self.attribute(i, Seq::empty()) is None,
            i >= self.tags() ==> forall|name: Seq<char>| #[trigger] self.attribute(i, name) is None,
    {
        if 0 <= i < self.tags() {
            let t = self.tag_bytes(i);
            let spans = self.attr_spans(i);
            let pairs = self.attribute_pairs(i);
            assert forall|k: int| 0 <= k < pairs.len() implies self.attribute(
                i,
                (#[trigger] pairs[k]).0,
            ) == Some(pairs[k].1) by {
                assert(valid_utf8(attr_name(t, spans[k])));
                assert forall|j: int| 0 <= j < k implies attr_name(t, #[trigger] spans[j])
                    != attr_name(t, spans[k]) by {
                    assert(pairs[j].0 != pairs[k].0);
                }
                self.lemma_attribute_by_name(i, k);
            }
            assert forall|name: Seq<char>|
                (forall|k: int| 0 <= k < pairs.len() ==> (#[trigger] pairs[k]).0 != name) implies (
            #[trigger] self.attribute(i, name)) is None by {
                assert forall|j: int| 0 <= j < spans.len() implies attr_name(
                    t,
                    #[trigger] spans[j],
                ) != encode_utf8(name) by {
                    assert(pairs[j].0 != name);
                    encode_utf8_decode_utf8(name);
                }
                self.lemma_no_attribute(i, name);
            }
        }
    }
}

/// The first namespace declaration of a tag gives its prefix and its URI: the prefix
/// stands between `xmlns:` and the next `=`, and the URI between the quotation mark behind
/// it and the next of its kind. What follows gives the others.
pub proof fn lemma_first_declaration(t: Seq<u8>, opening: Seq<u8>, i: int, eq: int, q: int)
    requires
        opening == seq![0x78u8, 0x6du8, 0x6cu8, 0x6eu8, 0x73u8, 0x3au8],
        occurs_at(t, i, opening),
        forall|j: int| 0 <= j < i ==> !#[trigger] occurs_at(t, j, opening),
        i + 6 <= eq,
        eq + 2 <= q < t.len(),
        t[eq] == 0x3d,
        forall|j: int| i + 6 <= j < eq ==> #[trigger] t[j] != 0x3d,
        is_quote(t[eq + 1]),
        t[q] == t[eq + 1],
        forall|j: int| eq + 2 <= j < q ==> #[trigger] t[j] != t[eq + 1],
    ensures
        ns_decls_from(t, 0) == seq![AttrSpan { name: (i + 6, eq), value: (eq + 2, q) }]
            + ns_decls_from(t, q + 1),
{
    let mark = t[eq + 1];
    assert(xmlns_colon() =~= opening);
    assert(find_seq(t, 0, xmlns_colon()) == Some(i)) by {
        lemma_find_seq(t, 0, xmlns_colon());
    }
    assert(scan_to(t, i + 6, is_byte(0x3d)) == eq) by {
        assert forall|j: int| i + 6 <= j < eq implies !is_byte(0x3d)(#[trigger] t[j]) by {}
        lemma_scan_to_is(t, i + 6, is_byte(0x3d), eq);
    }
    assert(scan_to(t, eq + 2, is_byte(mark)) == q) by {
        assert forall|j: int| eq + 2 <= j < q implies !is_byte(mark)(#[trigger] t[j]) by {}
        lemma_scan_to_is(t, eq + 2, is_byte(mark), q);
    }
}

/// A tag without `xmlns:` from a position on has no namespace declarations there.
pub proof fn lemma_no_declaration(t: Seq<u8>, p: int)
    requires
        0 <= p,
        forall|j: int| p <= j ==> !#[trigger] occurs_at(t, j, xmlns_colon()),
    ensures
        ns_decls_from(t, p).len() == 0,
{
    lemma_find_seq(t, p, xmlns_colon());
}

/// The names that count as attributes are those that are valid and do not start with
/// `xmlns`.
pub proof fn lemma_plain_names(t: Seq<u8>, spans: Seq<AttrSpan>, name: Seq<char>)
    ensures
        plain_names(t, spans).contains(name) <==> exists|k: int|
            0 <= k < spans.len() && valid_utf8(attr_name(t, #[trigger] spans[k])) && decode_utf8(
                attr_name(t, spans[k]),
            ) == name && !occurs_at(
                attr_name(t, spans[k]),
                0,
                seq![0x78u8, 0x6du8, 0x6cu8, 0x6eu8, 0x73u8],
            ),
    decreases spans.len(),
{
    if spans.len() > 0 {
        let most = spans.drop_last();
        let last = spans.last();
        lemma_plain_names(t, most, name);
        let before = plain_names(t, most);
        assert(xmlns() =~= seq![0x78u8, 0x6du8, 0x6cu8, 0x6eu8, 0x73u8]);
        assert forall|k: int| 0 <= k < most.len() implies most[k] == #[trigger] spans[k] by {}
        assert(spans[spans.len() - 1] == last);
        let all = plain_names(t, spans);
        if plain_name(t, last) {
            let own = span_text(t, last.name);
            assert(all == before.push(own));
            assert(all[before.len() as int] == own);
            if before.contains(name) {
                let w = choose|w: int| 0 <= w < before.len() && before[w] == name;
                assert(all[w] == name);
            }
            if all.contains(name) && name != own {
                let w = choose|w: int| 0 <= w < all.len() && all[w] == name;
                assert(before[w] == name);
            }
        }
        if before.contains(name) {
            let k = choose|k: int|
                0 <= k < most.len() && valid_utf8(attr_name(t, #[trigger] most[k])) && decode_utf8(
                    attr_name(t, most[k]),
                ) == name && !occurs_at(
                    attr_name(t, most[k]),
                    0,
                    seq![0x78u8, 0x6du8, 0x6cu8, 0x6eu8, 0x73u8],
                );
            assert(spans[k] == most[k]);
        }
    }
}

} // verus!
