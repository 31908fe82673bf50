//! Tag-level utilities: attributes and namespace declarations.

use vstd::prelude::*;
use vstd::utf8::{encode_utf8, valid_utf8};
use crate::bytes::{
    bytes_eq, decode, find_byte, find_pattern, find_seq, is_ascii_space, is_byte, is_space,
    lemma_find_seq, lemma_scan_to, occurs_at, scan_to, starts_at, text_of, text_or_empty,
};
use crate::index::lexer::{ends_open_name, open_name_end};
use crate::index::XmlIndex;
use crate::text::texts;

verus! {

/// Bytes that end an attribute name.
pub open spec fn ends_attr_name() -> spec_fn(u8) -> bool {
    |b: u8| b == 0x3d || b == 0x3e || is_space(b)
}

/// Whether the byte is a quotation mark.
pub open spec fn is_quote(b: u8) -> bool {
    b == 0x22 || b == 0x27
}

/// An attribute as ranges inside a tag: its name and its value.
pub struct AttrSpan {
    pub name: (int, int),
    pub value: (int, int),
}

/// The quoted attributes of a tag from position `p` on, up to a `>` or a `/`.
/// Attributes without a name or without a quoted value are passed over. A value
/// that is never closed ends the list; with `keep_unclosed` its attribute is
/// kept and the scan goes on after the quotation mark.
pub open spec fn attrs_from(t: Seq<u8>, p: int, keep_unclosed: bool) -> Seq<AttrSpan>
    decreases t.len() + 2 - p,
{
    if p < 0 || p >= t.len() || t[p] == 0x3e || t[p] == 0x2f {
        Seq::empty()
    } else if is_space(t[p]) {
        attrs_from(t, p + 1, keep_unclosed)
    } else {
        proof {
            lemma_scan_to(t, p, ends_attr_name());
        }
        let e = scan_to(t, p, ends_attr_name());
        if e < t.len() && t[e] == 0x3d {
            if e + 1 < t.len() && is_quote(t[e + 1]) {
                proof {
                    lemma_scan_to(t, e + 2, is_byte(t[e + 1]));
                }
                let v = e + 2;
                let q = scan_to(t, v, is_byte(t[e + 1]));
                if q < t.len() {
                    named(p, e, v, q) + attrs_from(t, q + 1, keep_unclosed)
                } else if keep_unclosed {
                    named(p, e, v, v) + attrs_from(t, v, keep_unclosed)
                } else {
                    Seq::empty()
                }
            } else {
                attrs_from(t, e + 2, keep_unclosed)
            }
        } else {
            attrs_from(t, e + 1, keep_unclosed)
        }
    }
}

/// The attribute with these ranges, unless its name is empty.
pub open spec fn named(name_start: int, name_end: int, start: int, end: int) -> Seq<AttrSpan> {
    if name_start < name_end {
        seq![AttrSpan { name: (name_start, name_end), value: (start, end) }]
    } else {
        Seq::empty()
    }
}

/// Where the attributes of a tag start: after `<` and the tag name.
pub open spec fn attrs_start(t: Seq<u8>) -> int {
    scan_to(t, 1, ends_open_name())
}

pub open spec fn xmlns() -> Seq<u8> {
    seq![0x78u8, 0x6du8, 0x6cu8, 0x6eu8, 0x73u8]
}

pub open spec fn xmlns_colon() -> Seq<u8> {
    seq![0x78u8, 0x6du8, 0x6cu8, 0x6eu8, 0x73u8, 0x3au8]
}

/// The namespace declarations `xmlns:prefix="uri"` from position `p` on.
pub open spec fn ns_decls_from(t: Seq<u8>, p: int) -> Seq<AttrSpan>
    decreases t.len() - p,
{
    if p < 0 {
        Seq::empty()
    } else {
        proof {
            lemma_find_seq(t, p, xmlns_colon());
        }
        match find_seq(t, p, xmlns_colon()) {
            None => Seq::empty(),
            Some(i) => {
                proof {
                    lemma_scan_to(t, i + 6, is_byte(0x3d));
                }
                let eq = scan_to(t, i + 6, is_byte(0x3d));
                if eq + 1 < t.len() && is_quote(t[eq + 1]) {
                    proof {
                        lemma_scan_to(t, eq + 2, is_byte(t[eq + 1]));
                    }
                    let q = scan_to(t, eq + 2, is_byte(t[eq + 1]));
                    if q < t.len() {
                        seq![AttrSpan { name: (i + 6, eq), value: (eq + 2, q) }] + ns_decls_from(
                            t,
                            q + 1,
                        )
                    } else {
                        ns_decls_from(t, i + 6)
                    }
                } else {
                    ns_decls_from(t, i + 6)
                }
            },
        }
    }
}

/// The value of the first attribute from `k` on with the given name.
pub open spec fn value_named(t: Seq<u8>, spans: Seq<AttrSpan>, name: Seq<u8>, k: int) -> Option<
    (int, int),
>
    decreases spans.len() - k,
{
    if k < 0 || k >= spans.len() {
        None
    } else if t.subrange(spans[k].name.0, spans[k].name.1) == name {
        Some(spans[k].value)
    } else {
        value_named(t, spans, name, k + 1)
    }
}

/// The text in a range of a tag.
pub open spec fn span_text(t: Seq<u8>, r: (int, int)) -> Seq<char> {
    text_of(t.subrange(r.0, r.1))
}

/// The name and value texts of attributes.
pub open spec fn attr_texts(t: Seq<u8>, spans: Seq<AttrSpan>) -> Seq<(Seq<char>, Seq<char>)> {
    spans.map_values(|a: AttrSpan| (span_text(t, a.name), span_text(t, a.value)))
}

/// The strings that a list of pairs holds.
pub open spec fn text_pairs(v: Seq<(&str, &str)>) -> Seq<(Seq<char>, Seq<char>)> {
    v.map_values(|p: (&str, &str)| (p.0@, p.1@))
}

/// Whether an attribute has a readable name that is no namespace declaration.
pub open spec fn plain_name(t: Seq<u8>, a: AttrSpan) -> bool {
    let name = t.subrange(a.name.0, a.name.1);
    valid_utf8(name) && !occurs_at(name, 0, xmlns())
}

/// The names of the attributes that are no namespace declarations.
pub open spec fn plain_names(t: Seq<u8>, spans: Seq<AttrSpan>) -> Seq<Seq<char>>
    decreases spans.len(),
{
    if spans.len() == 0 {
        Seq::empty()
    } else {
        let before = plain_names(t, spans.drop_last());
        if plain_name(t, spans.last()) {
            before.push(span_text(t, spans.last().name))
        } else {
            before
        }
    }
}

/// An attribute found in a tag: see `AttrSpan`.
struct Attr {
    name: (usize, usize),
    value: (usize, usize),
}

impl View for Attr {
    type V = AttrSpan;

    closed spec fn view(&self) -> AttrSpan {
        AttrSpan {
            name: (self.name.0 as int, self.name.1 as int),
            value: (self.value.0 as int, self.value.1 as int),
        }
    }
}

spec fn attrs_view(v: Seq<Attr>) -> Seq<AttrSpan> {
    v.map_values(|a: Attr| a@)
}

spec fn attrs_within(v: Seq<Attr>, n: nat) -> bool {
    forall|i: int| #![trigger v[i]]
        0 <= i < v.len() ==> v[i].name.0 <= v[i].name.1 <= n && v[i].value.0 <= v[i].value.1 <= n
}

/// Appends the attribute unless its name is empty: see `named`.
fn push_named(
    out: &mut Vec<Attr>,
    name_start: usize,
    name_end: usize,
    start: usize,
    end: usize,
    Ghost(n): Ghost<nat>,
)
    requires
        attrs_within(old(out)@, n),
        name_start <= name_end <= n,
        start <= end <= n,
    ensures
        attrs_view(final(out)@) == attrs_view(old(out)@) + named(
            name_start as int,
            name_end as int,
            start as int,
            end as int,
        ),
        attrs_within(final(out)@, n),
{
    if name_start < name_end {
        out.push(Attr { name: (name_start, name_end), value: (start, end) });
    }
    assert(attrs_view(out@) =~= attrs_view(old(out)@) + named(
        name_start as int,
        name_end as int,
        start as int,
        end as int,
    ));
}

/// End of the attribute name that starts at `from`.
fn attr_name_end(t: &[u8], from: usize) -> (r: usize)
    requires
        from <= t@.len(),
    ensures
        r == scan_to(t@, from as int, ends_attr_name()),
        from <= r <= t@.len(),
{
    let mut pos: usize = from;
    while pos < t.len() && t[pos] != 0x3d && t[pos] != 0x3e && !is_ascii_space(t[pos])
        invariant
            from <= pos <= t@.len(),
            scan_to(t@, from as int, ends_attr_name()) == scan_to(
                t@,
                pos as int,
                ends_attr_name(),
            ),
        decreases t@.len() - pos,
    {
        pos += 1;
    }
    pos
}

/// Collects the attributes of a tag: see `attrs_from`.
fn collect_attrs(t: &[u8], keep_unclosed: bool) -> (r: Vec<Attr>)
    requires
        t@.len() > 0,
    ensures
        attrs_view(r@) == attrs_from(t@, attrs_start(t@), keep_unclosed),
        attrs_within(r@, t@.len()),
{
    let n: usize = t.len();
    let mut out: Vec<Attr> = Vec::new();
    let mut pos: usize = open_name_end(t, 1);
    let ghost all = attrs_from(t@, pos as int, keep_unclosed);
    assert(attrs_view(out@) + all =~= all);
    while pos < n
        invariant
            n == t@.len(),
            pos <= n,
            all == attrs_from(t@, attrs_start(t@), keep_unclosed),
            all == attrs_view(out@) + attrs_from(t@, pos as int, keep_unclosed),
            attrs_within(out@, n as nat),
        decreases n - pos,
    {
        if t[pos] == 0x3e || t[pos] == 0x2f {
            assert(all =~= attrs_view(out@));
            return out;
        }
        if is_ascii_space(t[pos]) {
            pos += 1;
            continue ;
        }
        let e: usize = attr_name_end(t, pos);
        let ghost before = attrs_view(out@);
        if e < n && t[e] == 0x3d {
            if e + 1 < n && (t[e + 1] == 0x22 || t[e + 1] == 0x27) {
                let v: usize = e + 2;
                let q: usize = find_byte(t, v, t[e + 1]);
                if q < n {
                    push_named(&mut out, pos, e, v, q, Ghost(n as nat));
                    assert(before + (named(pos as int, e as int, v as int, q as int) + attrs_from(
                        t@,
                        q + 1,
                        keep_unclosed,
                    )) =~= attrs_view(out@) + attrs_from(t@, q + 1, keep_unclosed));
                    pos = q + 1;
                } else if keep_unclosed {
                    push_named(&mut out, pos, e, v, v, Ghost(n as nat));
                    assert(before + (named(pos as int, e as int, v as int, v as int) + attrs_from(
                        t@,
                        v as int,
                        keep_unclosed,
                    )) =~= attrs_view(out@) + attrs_from(t@, v as int, keep_unclosed));
                    pos = v;
                } else {
                    assert(all =~= attrs_view(out@));
                    return out;
                }
            } else {
                if e + 1 >= n {
                    assert(attrs_from(t@, e + 2, keep_unclosed) =~= Seq::empty());
                    assert(all =~= attrs_view(out@));
                    return out;
                }
                pos = e + 2;
            }
        } else {
            if e >= n {
                assert(attrs_from(t@, e + 1, keep_unclosed) =~= Seq::empty());
                assert(all =~= attrs_view(out@));
                return out;
            }
            pos = e + 1;
        }
    }
    assert(attrs_from(t@, pos as int, keep_unclosed) =~= Seq::empty());
    assert(all =~= attrs_view(out@));
    out
}

impl<'a> XmlIndex<'a> {
    /// The bytes of a tag, from its `<` to its last byte.
    pub open spec fn tag_bytes(&self, i: int) -> Seq<u8> {
        let end = self.tag_ends@[i] + 1;
        self.input@.subrange(
            self.tag_starts@[i] as int,
            if end <= self.input@.len() {
                end
            } else {
                self.input@.len() as int
            },
        )
    }

    /// The value of the first of a tag's attributes with the given name, if it has
    /// one.
    pub open spec fn attribute(&self, i: int, name: Seq<char>) -> Option<Seq<char>> {
        if i < 0 || i >= self.tags() || name.len() == 0 {
            None
        } else {
            let t = self.tag_bytes(i);
            match value_named(t, attrs_from(t, attrs_start(t), false), encode_utf8(name), 0) {
                Some(v) => Some(span_text(t, v)),
                None => None,
            }
        }
    }

    /// The names of a tag's attributes, without namespace declarations.
    pub open spec fn attribute_names(&self, i: int) -> Seq<Seq<char>> {
        if i < 0 || i >= self.tags() {
            Seq::empty()
        } else {
            let t = self.tag_bytes(i);
            plain_names(t, attrs_from(t, attrs_start(t), true))
        }
    }

    /// The namespace declarations of a tag.
    pub open spec fn namespace_decls(&self, i: int) -> Seq<(Seq<char>, Seq<char>)> {
        let t = self.tag_bytes(i);
        if valid_utf8(t) {
            attr_texts(t, ns_decls_from(t, 0))
        } else {
            Seq::empty()
        }
    }

    /// The bytes of a tag.
    pub(crate) fn tag_slice(&self, i: usize) -> (r: &'a [u8])
        requires
            self.wf(),
            i < self.tags(),
        ensures
            r@ == self.tag_bytes(i as int),
            r@.len() > 0,
    {
        let n: usize = self.input.len();
        proof {
            assert(self.doc().starts[i as int] == self.tag_starts@[i as int]);
            assert(self.doc().ends[i as int] == self.tag_ends@[i as int]);
        }
        let start: usize = self.tag_starts[i] as usize;
        let end: usize = self.tag_ends[i] as usize;
        vstd::slice::slice_subrange(
            self.input,
            start,
            if end < n {
                end + 1
            } else {
                n
            },
        )
    }

    /// Extracts an attribute value from a tag by attribute name. `None` when
    /// there is no such tag or attribute.
    pub fn get_attribute(&self, tag_idx: usize, attr_name: &str) -> (r: Option<&'a str>)
        requires
            self.wf(),
        ensures
            match r {
                Some(v) => self.attribute(tag_idx as int, attr_name@) == Some(v@),
                None => self.attribute(tag_idx as int, attr_name@) is None,
            },
    {
        if tag_idx >= self.tag_count() {
            return None;
        }
        if attr_name.is_empty() {
            return None;
        }
        let t = self.tag_slice(tag_idx);
        let name = attr_name.as_bytes();
        let spans = collect_attrs(t, false);
        let ghost view = attrs_view(spans@);
        let n: usize = spans.len();
        let mut k: usize = 0;
        while k < n
            invariant
                n == spans@.len(),
                k <= n,
                view == attrs_view(spans@),
                attrs_within(spans@, t@.len()),
                tag_idx < self.tags(),
                attr_name@.len() > 0,
                name@ == encode_utf8(attr_name@),
                t@ == self.tag_bytes(tag_idx as int),
                view == attrs_from(t@, attrs_start(t@), false),
                value_named(t@, view, name@, 0) == value_named(t@, view, name@, k as int),
            decreases n - k,
        {
            let a = &spans[k];
            assert(view[k as int] == a@);
            let own = vstd::slice::slice_subrange(t, a.name.0, a.name.1);
            if bytes_eq(own, name) {
                let value = vstd::slice::slice_subrange(t, a.value.0, a.value.1);
                return Some(text_or_empty(value));
            }
            k += 1;
        }
        None
    }

    /// The names of all attributes of a tag, namespace declarations left out.
    pub fn get_all_attribute_names(&self, tag_idx: usize) -> (r: Vec<&'a str>)
        requires
            self.wf(),
        ensures
            texts(r@) == self.attribute_names(tag_idx as int),
    {
        let mut out: Vec<&'a str> = Vec::new();
        assert(texts(out@) =~= Seq::empty());
        if tag_idx >= self.tag_count() {
            return out;
        }
        let t = self.tag_slice(tag_idx);
        let spans = collect_attrs(t, true);
        let ghost view = attrs_view(spans@);
        let mut i: usize = 0;
        assert(view.take(0) =~= Seq::empty());
        while i < spans.len()
            invariant
                view == attrs_view(spans@),
                attrs_within(spans@, t@.len()),
                i <= spans@.len(),
                texts(out@) == plain_names(t@, view.take(i as int)),
            decreases spans@.len() - i,
        {
            let span = &spans[i];
            let name_bytes = vstd::slice::slice_subrange(t, span.name.0, span.name.1);
            let ghost old_out = out@;
            proof {
                assert(view.take(i + 1).drop_last() =~= view.take(i as int));
                assert(view[i as int] == spans@[i as int]@);
                assert([0x78u8, 0x6du8, 0x6cu8, 0x6eu8, 0x73u8]@ =~= xmlns());
            }
            match decode(name_bytes) {
                Some(name) => if !starts_at(name_bytes, 0, &[0x78, 0x6d, 0x6c, 0x6e, 0x73]) {
                    out.push(name);
                    assert(texts(out@) =~= texts(old_out).push(name@));
                },
                None => {},
            }
            i += 1;
        }
        assert(view.take(i as int) =~= view);
        out
    }

    /// All attributes of a tag as (name, value) pairs, in order, namespace
    /// declarations included.
    pub fn attributes(&self, tag_idx: usize) -> (r: Vec<(&'a str, &'a str)>)
        requires
            self.wf(),
        ensures
            text_pairs(r@) == (if tag_idx < self.tags() {
                let t = self.tag_bytes(tag_idx as int);
                attr_texts(t, attrs_from(t, attrs_start(t), false))
            } else {
                Seq::empty()
            }),
    {
        if tag_idx >= self.tag_count() {
            let none: Vec<(&'a str, &'a str)> = Vec::new();
            assert(text_pairs(none@) =~= Seq::empty());
            return none;
        }
        let t = self.tag_slice(tag_idx);
        let spans = collect_attrs(t, false);
        let out = pairs_of(t, &spans);
        out
    }

    /// The namespace declarations (`xmlns:prefix="uri"`) of a tag as (prefix,
    /// uri) pairs. Inherited namespaces are not among them.
    pub fn get_namespace_decls(&self, tag_idx: usize) -> (r: Vec<(&'a str, &'a str)>)
        requires
            self.wf(),
            tag_idx < self.tags(),
        ensures
            text_pairs(r@) == self.namespace_decls(tag_idx as int),
    {
        let t = self.tag_slice(tag_idx);
        if decode(t).is_none() {
            let none: Vec<(&'a str, &'a str)> = Vec::new();
            assert(text_pairs(none@) =~= Seq::empty());
            return none;
        }
        let n: usize = t.len();
        let mut spans: Vec<Attr> = Vec::new();
        let ghost all = ns_decls_from(t@, 0);
        assert(attrs_view(spans@) + all =~= all);
        let mut pos: usize = 0;
        loop
            invariant
                n == t@.len(),
                pos <= n,
                all == attrs_view(spans@) + ns_decls_from(t@, pos as int),
                attrs_within(spans@, n as nat),
            ensures
                all == attrs_view(spans@),
                attrs_within(spans@, n as nat),
            decreases n - pos,
        {
            assert([0x78u8, 0x6du8, 0x6cu8, 0x6eu8, 0x73u8, 0x3au8]@ =~= xmlns_colon());
            match find_pattern(t, pos, &[0x78, 0x6d, 0x6c, 0x6e, 0x73, 0x3a]) {
                None => {
                    assert(all =~= attrs_view(spans@));
                    break ;
                },
                Some(i) => {
                    let eq: usize = find_byte(t, i + 6, 0x3d);
                    if eq < n && eq + 1 < n && (t[eq + 1] == 0x22 || t[eq + 1] == 0x27) {
                        let q: usize = find_byte(t, eq + 2, t[eq + 1]);
                        if q < n {
                            let ghost before = attrs_view(spans@);
                            let a = Attr { name: (i + 6, eq), value: (eq + 2, q) };
                            spans.push(a);
                            assert(attrs_view(spans@) =~= before.push(a@));
                            assert(before + (seq![a@] + ns_decls_from(t@, q + 1)) =~= attrs_view(
                                spans@,
                            ) + ns_decls_from(t@, q + 1));
                            pos = q + 1;
                        } else {
                            pos = i + 6;
                        }
                    } else {
                        pos = i + 6;
                    }
                },
            }
        }
        pairs_of(t, &spans)
    }
}

/// The name and value texts of attributes of a tag.
fn pairs_of<'b>(t: &'b [u8], spans: &Vec<Attr>) -> (r: Vec<(&'b str, &'b str)>)
    requires
        attrs_within(spans@, t@.len()),
    ensures
        text_pairs(r@) == attr_texts(t@, attrs_view(spans@)),
{
    let mut out: Vec<(&'b str, &'b str)> = Vec::new();
    let mut i: usize = 0;
    while i < spans.len()
        invariant
            attrs_within(spans@, t@.len()),
            i <= spans@.len(),
            out@.len() == i,
            forall|j: int|
                0 <= j < i ==> (#[trigger] out@[j]).0@ == span_text(t@, spans@[j]@.name)
                    && out@[j].1@ == span_text(t@, spans@[j]@.value),
        decreases spans@.len() - i,
    {
        let a = &spans[i];
        let name = text_or_empty(vstd::slice::slice_subrange(t, a.name.0, a.name.1));
        let value = text_or_empty(vstd::slice::slice_subrange(t, a.value.0, a.value.1));
        out.push((name, value));
        i += 1;
    }
    assert(text_pairs(out@) =~= attr_texts(t@, attrs_view(spans@)));
    out
}

} // verus!
