//! Reading a document that has been written piece by piece gives back the pieces.

use vstd::prelude::*;
use crate::bytes::{
    find_seq, is_byte, is_space, lemma_find_seq, lemma_scan_to, lemma_scan_to_is, occurs_at,
    scan_to,
};
use crate::index::lexer::{
    cdata_closing, cdata_opening, comment_closing, comment_opening, ends_close_name, ends_open_name,
    ends_target, lex, pi_closing, tag_close, LexemeV,
};
use crate::index::outline::{outline, scan, Doc};
use crate::index::structural::parsed;
use crate::index::tags::{attrs_from, attrs_start, ends_attr_name, is_quote, named, AttrSpan};
use crate::index::TagType;

verus! {

/// An attribute as it is written: its name, its value and the quotation mark around it.
pub struct Written {
    pub name: Seq<u8>,
    pub value: Seq<u8>,
    pub quote: u8,
}

/// A piece of a document.
pub enum Piece {
    /// Text between the other pieces.
    Text(Seq<u8>),
    /// `<name a="v">`
    Open(Seq<u8>, Seq<Written>),
    /// `<name a="v"/>`
    SelfClose(Seq<u8>, Seq<Written>),
    /// `</name>`
    Close(Seq<u8>),
    /// `<!--text-->`
    Comment(Seq<u8>),
    /// `<![CDATA[text]]>`
    CData(Seq<u8>),
    /// `<?target text?>`
    Instruction(Seq<u8>, Seq<u8>),
    /// `<!DOCTYPE text>` and the like
    Declaration(Seq<u8>),
}

/// An attribute with a blank before it.
pub open spec fn write_attr(a: Written) -> Seq<u8> {
    seq![0x20u8] + a.name + seq![0x3du8, a.quote] + a.value + seq![a.quote]
}

/// Attributes from the one at `i` on.
pub open spec fn write_attrs(attrs: Seq<Written>, i: int) -> Seq<u8>
    decreases attrs.len() - i,
{
    if i < 0 || i >= attrs.len() {
        Seq::empty()
    } else {
        write_attr(attrs[i]) + write_attrs(attrs, i + 1)
    }
}

/// A piece as it is written.
pub open spec fn write_piece(x: Piece) -> Seq<u8> {
    match x {
        Piece::Text(t) => t,
        Piece::Open(name, attrs) => seq![0x3cu8] + name + write_attrs(attrs, 0) + seq![0x3eu8],
        Piece::SelfClose(name, attrs) => seq![0x3cu8] + name + write_attrs(attrs, 0) + seq![
            0x2fu8,
            0x3eu8,
        ],
        Piece::Close(name) => seq![0x3cu8, 0x2fu8] + name + seq![0x3eu8],
        Piece::Comment(t) => seq![0x3cu8, 0x21u8, 0x2du8, 0x2du8] + t + seq![0x2du8, 0x2du8, 0x3eu8],
        Piece::CData(t) => seq![
            0x3cu8,
            0x21u8,
            0x5bu8,
            0x43u8,
            0x44u8,
            0x41u8,
            0x54u8,
            0x41u8,
            0x5bu8,
        ] + t + seq![0x5du8, 0x5du8, 0x3eu8],
        Piece::Instruction(target, t) => seq![0x3cu8, 0x3fu8] + target + seq![0x20u8] + t + seq![
            0x3fu8,
            0x3eu8,
        ],
        Piece::Declaration(t) => seq![0x3cu8, 0x21u8] + t + seq![0x3eu8],
    }
}

/// Pieces from the one at `i` on, one after the other.
pub open spec fn write_pieces(xs: Seq<Piece>, i: int) -> Seq<u8>
    decreases xs.len() - i,
{
    if i < 0 || i >= xs.len() {
        Seq::empty()
    } else {
        write_piece(xs[i]) + write_pieces(xs, i + 1)
    }
}

/// A name: none of its bytes ends it.
pub open spec fn is_name(name: Seq<u8>) -> bool {
    &&& name.len() > 0
    &&& forall|i: int|
        0 <= i < name.len() ==> !is_space(#[trigger] name[i]) && name[i] != 0x3e && name[i] != 0x2f
            && name[i] != 0x3d && name[i] != 0x22 && name[i] != 0x27 && name[i] != 0x3f
    &&& name[0] != 0x21
}

/// Attributes that can be written.
pub open spec fn are_attrs(attrs: Seq<Written>) -> bool {
    forall|i: int| #![trigger attrs[i]]
        0 <= i < attrs.len() ==> is_name(attrs[i].name) && is_quote(attrs[i].quote)
            && !attrs[i].value.contains(attrs[i].quote)
}

/// Whether a text holds no closing mark before its end.
pub open spec fn closes_once(t: Seq<u8>, closing: Seq<u8>) -> bool {
    forall|j: int| 0 <= j < t.len() ==> !#[trigger] occurs_at(t + closing, j, closing)
}

/// Whether a piece can be written.
pub open spec fn is_piece(x: Piece) -> bool {
    match x {
        Piece::Text(t) => !t.contains(0x3c),
        Piece::Open(name, attrs) => is_name(name) && are_attrs(attrs),
        Piece::SelfClose(name, attrs) => is_name(name) && are_attrs(attrs),
        Piece::Close(name) => is_name(name),
        Piece::Comment(t) => closes_once(t, seq![0x2du8, 0x2du8, 0x3eu8]),
        Piece::CData(t) => closes_once(t, seq![0x5du8, 0x5du8, 0x3eu8]),
        Piece::Instruction(target, t) => is_name(target) && closes_once(
            seq![0x20u8] + t,
            seq![0x3fu8, 0x3eu8],
        ),
        Piece::Declaration(t) => t.len() > 0 && !t.contains(0x3e) && t[0] != 0x2d && t[0] != 0x5b,
    }
}

/// The kind of a piece; text and declarations have none.
pub open spec fn kind_of(x: Piece) -> Option<TagType> {
    match x {
        Piece::Text(_) => None,
        Piece::Declaration(_) => None,
        Piece::Open(_, _) => Some(TagType::Open),
        Piece::SelfClose(_, _) => Some(TagType::SelfClose),
        Piece::Close(_) => Some(TagType::Close),
        Piece::Comment(_) => Some(TagType::Comment),
        Piece::CData(_) => Some(TagType::CData),
        Piece::Instruction(_, _) => Some(TagType::PI),
    }
}

/// Where the name of a piece stands, counted from its start.
pub open spec fn name_span(x: Piece) -> Option<(int, int)> {
    match x {
        Piece::Open(name, _) => Some((1, 1 + name.len() as int)),
        Piece::SelfClose(name, _) => Some((1, 1 + name.len() as int)),
        Piece::Close(name) => Some((2, 2 + name.len() as int)),
        Piece::Instruction(target, _) => Some((2, 2 + target.len() as int)),
        _ => None,
    }
}

/// What is read for a piece that stands at a position: it starts there and ends with its
/// last byte, its name is the written one, and the text of a CDATA section is what stands
/// between its marks.
pub open spec fn is_construct(l: LexemeV, x: Piece, p: int) -> bool {
    &&& l.kind == kind_of(x)
    &&& l.start == p
    &&& l.end == p + write_piece(x).len() - 1
    &&& name_span(x) matches Some((a, b)) ==> l.name_start == p + a && l.name_end == p + b
    &&& name_span(x) is None ==> l.name_start == l.name_end
    &&& l.text == match x {
        Piece::CData(t) => if t.len() > 0 {
            Some((p + 9, p + 9 + t.len() as int))
        } else {
            None
        },
        _ => None,
    }
}

/// The bytes of a text that stands at a position.
proof fn lemma_occurs(s: Seq<u8>, p: int, w: Seq<u8>)
    requires
        occurs_at(s, p, w),
    ensures
        0 <= p,
        p + w.len() <= s.len(),
        forall|i: int| p <= i < p + w.len() ==> #[trigger] s[i] == w[i - p],
        s.subrange(p, p + w.len()) == w,
{
    assert forall|i: int| p <= i < p + w.len() implies #[trigger] s[i] == w[i - p] by {
        assert(w[i - p] == s[p + (i - p)]);
    }
    assert(s.subrange(p, p + w.len()) =~= w);
}

/// A text stands at a position exactly when its two parts stand one after the other.
proof fn lemma_occurs_split(s: Seq<u8>, p: int, a: Seq<u8>, b: Seq<u8>)
    ensures
        occurs_at(s, p, a + b) <==> occurs_at(s, p, a) && occurs_at(s, p + a.len(), b),
{
    let ab = a + b;
    if occurs_at(s, p, ab) {
        lemma_occurs(s, p, ab);
        assert forall|j: int| 0 <= j < a.len() implies #[trigger] a[j] == s[p + j] by {
            assert(ab[j] == a[j]);
        }
        assert forall|j: int| 0 <= j < b.len() implies #[trigger] b[j] == s[p + a.len() + j] by {
            assert(ab[a.len() + j] == b[j]);
            assert(s[p + a.len() + j] == ab[a.len() + j]);
        }
    }
    if occurs_at(s, p, a) && occurs_at(s, p + a.len(), b) {
        lemma_occurs(s, p, a);
        lemma_occurs(s, p + a.len(), b);
        assert forall|j: int| 0 <= j < ab.len() implies #[trigger] ab[j] == s[p + j] by {
            if j < a.len() {
                assert(s[p + j] == a[j]);
            } else {
                assert(s[p + j] == b[j - a.len()]);
            }
        }
    }
}

/// What stands inside of a text stands in it.
proof fn lemma_occurs_inside(s: Seq<u8>, p: int, w: Seq<u8>, i: int, part: Seq<u8>)
    requires
        occurs_at(s, p, w),
        occurs_at(s, i, part),
        p <= i,
        i + part.len() <= p + w.len(),
    ensures
        occurs_at(w, i - p, part),
{
    lemma_occurs(s, p, w);
    lemma_occurs(s, i, part);
    let k = i - p;
    assert forall|j: int| 0 <= j < part.len() implies #[trigger] part[j] == w[k + j] by {
        let at = i + j;
        assert(s[at] == part[at - i]);
        assert(s[at] == w[at - p]);
    }
}

/// A search for a closing mark finds the one behind the text.
#[verifier::spinoff_prover]
proof fn lemma_closing_found(s: Seq<u8>, p: int, t: Seq<u8>, closing: Seq<u8>)
    requires
        occurs_at(s, p, t + closing),
        closes_once(t, closing),
    ensures
        find_seq(s, p, closing) == Some(p + t.len()),
{
    let e = p + t.len();
    let w = t + closing;
    assert(occurs_at(s, e, closing) && 0 <= p) by {
        lemma_occurs_split(s, p, t, closing);
    }
    let found = find_seq(s, p, closing);
    assert(found matches Some(i) && p <= i <= e && occurs_at(s, i, closing)) by {
        lemma_find_seq(s, p, closing);
    }
    let i = found->0;
    if i < e {
        lemma_occurs_inside(s, p, w, i, closing);
        assert(!occurs_at(w, i - p, closing));
    }
}

/// The end of a tag is looked for behind its attributes.
#[verifier::spinoff_prover]
proof fn lemma_attrs_passed(s: Seq<u8>, p: int, attrs: Seq<Written>, i: int, lenient: bool)
    requires
        0 <= i <= attrs.len(),
        0 <= p <= s.len(),
        are_attrs(attrs),
        occurs_at(s, p, write_attrs(attrs, i)),
        p + write_attrs(attrs, i).len() < s.len(),
    ensures
        tag_close(s, p, lenient) == tag_close(s, p + write_attrs(attrs, i).len(), lenient),
    decreases attrs.len() - i,
{
    if i < attrs.len() {
        let a = attrs[i];
        let w = write_attr(a);
        let e = p + 1 + a.name.len();
        let q = e + 2 + a.value.len();
        assert(is_name(a.name) && is_quote(a.quote) && !a.value.contains(a.quote));
        assert(occurs_at(s, p, w) && occurs_at(s, q + 1, write_attrs(attrs, i + 1))) by {
            lemma_occurs_split(s, p, w, write_attrs(attrs, i + 1));
        }
        lemma_attr_parts(s, p, a);
        assert forall|j: int| p <= j < e + 1 implies s[j] != 0x3e && s[j] != 0x2f && s[j] != 0x22
            && #[trigger] s[j] != 0x27 by {
            lemma_occurs(s, p + 1, a.name);
            if p < j < e {
                assert(s[j] == a.name[j - p - 1]);
            }
        }
        lemma_plain_passed(s, p, e + 1, lenient);
        lemma_scan_to_is(s, e + 2, is_byte(a.quote), q);
        lemma_attrs_passed(s, q + 1, attrs, i + 1, lenient);
    }
}

/// Bytes that mean nothing to the end of a tag are passed over.
proof fn lemma_plain_passed(s: Seq<u8>, p: int, q: int, lenient: bool)
    requires
        0 <= p <= q < s.len(),
        forall|j: int|
            p <= j < q ==> s[j] != 0x3e && s[j] != 0x2f && s[j] != 0x22 && #[trigger] s[j] != 0x27,
    ensures
        tag_close(s, p, lenient) == tag_close(s, q, lenient),
    decreases q - p,
{
    if p < q {
        assert(s[p] != 0x27);
        lemma_plain_passed(s, p + 1, q, lenient);
    }
}

/// A name that stands at a position ends where it ends.
proof fn lemma_name_ends(s: Seq<u8>, p: int, name: Seq<u8>)
    requires
        is_name(name),
        occurs_at(s, p, name),
        p + name.len() < s.len(),
    ensures
        ends_open_name()(s[p + name.len()]) ==> scan_to(s, p, ends_open_name()) == p + name.len(),
        ends_close_name()(s[p + name.len()]) ==> scan_to(s, p, ends_close_name()) == p + name.len(),
        ends_target()(s[p + name.len()]) ==> scan_to(s, p, ends_target()) == p + name.len(),
        ends_attr_name()(s[p + name.len()]) ==> scan_to(s, p, ends_attr_name()) == p + name.len(),
        s[p] == name[0],
{
    lemma_occurs(s, p, name);
    let q = p + name.len();
    assert(s[p] == name[0]);
    assert forall|j: int| p <= j < q implies !ends_open_name()(#[trigger] s[j])
        && !ends_close_name()(s[j]) && !ends_target()(s[j]) && !ends_attr_name()(s[j]) by {
        assert(s[j] == name[j - p]);
    }
    if ends_open_name()(s[q]) {
        lemma_scan_to_is(s, p, ends_open_name(), q);
    }
    if ends_close_name()(s[q]) {
        lemma_scan_to_is(s, p, ends_close_name(), q);
    }
    if ends_target()(s[q]) {
        lemma_scan_to_is(s, p, ends_target(), q);
    }
    if ends_attr_name()(s[q]) {
        lemma_scan_to_is(s, p, ends_attr_name(), q);
    }
}

/// How attributes start.
proof fn lemma_attrs_start(attrs: Seq<Written>)
    ensures
        write_attrs(attrs, 0).len() > 0 ==> write_attrs(attrs, 0)[0] == 0x20,
{
    if attrs.len() > 0 {
        assert(write_attrs(attrs, 0)[0] == write_attr(attrs[0])[0]);
    }
}

/// Reading a piece other than text gives back its kind, its place, its name and its text.
pub proof fn lemma_piece_read_back(s: Seq<u8>, p: int, x: Piece, lenient: bool)
    requires
        is_piece(x),
        !(x is Text),
        occurs_at(s, p, write_piece(x)),
    ensures
        lex(s, p, lenient) matches Some(l) && is_construct(l, x, p),
        s[p] == 0x3c,
{
    let w = write_piece(x);
    lemma_occurs(s, p, w);
    assert(s[p] == w[0]);
    assert(s[p + 1] == w[1]);
    match x {
        Piece::Open(name, attrs) => {
            lemma_element_read_back(s, p, name, attrs, false, lenient);
        },
        Piece::SelfClose(name, attrs) => {
            lemma_element_read_back(s, p, name, attrs, true, lenient);
        },
        Piece::Close(name) => {
            lemma_close_read_back(s, p, name, lenient);
        },
        Piece::Comment(t) => {
            lemma_comment_read_back(s, p, t, lenient);
        },
        Piece::CData(t) => {
            lemma_cdata_read_back(s, p, t, lenient);
        },
        Piece::Instruction(target, t) => {
            lemma_instruction_read_back(s, p, target, t, lenient);
        },
        Piece::Declaration(t) => {
            lemma_declaration_read_back(s, p, t, lenient);
        },
        _ => {},
    }
}

#[verifier::spinoff_prover]
proof fn lemma_declaration_read_back(s: Seq<u8>, p: int, t: Seq<u8>, lenient: bool)
    requires
        is_piece(Piece::Declaration(t)),
        occurs_at(s, p, write_piece(Piece::Declaration(t))),
    ensures
        lex(s, p, lenient) matches Some(l) && is_construct(l, Piece::Declaration(t), p),
{
    let w = write_piece(Piece::Declaration(t));
    let e = p + 2 + t.len();
    lemma_occurs(s, p, w);
    assert(s[p + 1] == w[1]);
    assert(s[p + 2] == w[2]);
    assert(w[2] == t[0]);
    assert(s[e] == w[e - p]);
    assert(!occurs_at(s, p + 2, comment_opening())) by {
        if occurs_at(s, p + 2, comment_opening()) {
            lemma_occurs(s, p + 2, comment_opening());
            assert(s[p + 2] == comment_opening()[0]);
        }
    }
    assert(!occurs_at(s, p + 2, cdata_opening())) by {
        if occurs_at(s, p + 2, cdata_opening()) {
            lemma_occurs(s, p + 2, cdata_opening());
            assert(s[p + 2] == cdata_opening()[0]);
        }
    }
    assert forall|j: int| p <= j < e implies !is_byte(0x3e)(#[trigger] s[j]) by {
        assert(s[j] == w[j - p]);
        if j >= p + 2 {
            assert(w[j - p] == t[j - p - 2]);
            assert(t.contains(t[j - p - 2]));
        }
    }
    lemma_scan_to_is(s, p, is_byte(0x3e), e);
}

proof fn lemma_close_read_back(s: Seq<u8>, p: int, name: Seq<u8>, lenient: bool)
    requires
        is_name(name),
        occurs_at(s, p, write_piece(Piece::Close(name))),
    ensures
        lex(s, p, lenient) matches Some(l) && is_construct(l, Piece::Close(name), p),
{
    let w = write_piece(Piece::Close(name));
    lemma_occurs(s, p, w);
    assert(s[p + 1] == w[1]);
    lemma_occurs_split(s, p, seq![0x3cu8, 0x2fu8] + name, seq![0x3eu8]);
    lemma_occurs_split(s, p, seq![0x3cu8, 0x2fu8], name);
    let e = p + 2 + name.len();
    assert(s[e] == w[e - p]);
    lemma_name_ends(s, p + 2, name);
    lemma_scan_to_is(s, e, is_byte(0x3e), e);
}

#[verifier::spinoff_prover]
proof fn lemma_comment_read_back(s: Seq<u8>, p: int, t: Seq<u8>, lenient: bool)
    requires
        is_piece(Piece::Comment(t)),
        occurs_at(s, p, write_piece(Piece::Comment(t))),
    ensures
        lex(s, p, lenient) matches Some(l) && is_construct(l, Piece::Comment(t), p),
{
    let w = write_piece(Piece::Comment(t));
    let opening = seq![0x3cu8, 0x21u8, 0x2du8, 0x2du8];
    let closing = seq![0x2du8, 0x2du8, 0x3eu8];
    assert(s[p + 1] == 0x21 && p + w.len() <= s.len() && 0 <= p) by {
        lemma_occurs(s, p, w);
        assert(s[p + 1] == w[1]);
    }
    assert(comment_closing() =~= closing);
    assert(w =~= opening + (t + closing));
    assert(occurs_at(s, p + 4, t + closing) && occurs_at(s, p + 2, comment_opening())) by {
        lemma_occurs_split(s, p, opening, t + closing);
        assert(opening =~= seq![0x3cu8, 0x21u8] + comment_opening());
        lemma_occurs_split(s, p, seq![0x3cu8, 0x21u8], comment_opening());
    }
    lemma_closing_found(s, p + 4, t, closing);
}

#[verifier::spinoff_prover]
proof fn lemma_cdata_read_back(s: Seq<u8>, p: int, t: Seq<u8>, lenient: bool)
    requires
        is_piece(Piece::CData(t)),
        occurs_at(s, p, write_piece(Piece::CData(t))),
    ensures
        lex(s, p, lenient) matches Some(l) && is_construct(l, Piece::CData(t), p),
{
    let w = write_piece(Piece::CData(t));
    let opening = seq![
        0x3cu8,
        0x21u8,
        0x5bu8,
        0x43u8,
        0x44u8,
        0x41u8,
        0x54u8,
        0x41u8,
        0x5bu8,
    ];
    let closing = seq![0x5du8, 0x5du8, 0x3eu8];
    assert(s[p + 1] == 0x21 && s[p + 2] == 0x5b && p + w.len() <= s.len() && 0 <= p) by {
        lemma_occurs(s, p, w);
        assert(s[p + 1] == w[1]);
        assert(s[p + 2] == w[2]);
    }
    assert(cdata_closing() =~= closing);
    assert(w =~= opening + (t + closing));
    assert(occurs_at(s, p + 9, t + closing) && occurs_at(s, p + 2, cdata_opening())) by {
        lemma_occurs_split(s, p, opening, t + closing);
        assert(opening =~= seq![0x3cu8, 0x21u8] + cdata_opening());
        lemma_occurs_split(s, p, seq![0x3cu8, 0x21u8], cdata_opening());
    }
    assert(!occurs_at(s, p + 2, comment_opening())) by {
        if occurs_at(s, p + 2, comment_opening()) {
            lemma_occurs(s, p + 2, comment_opening());
            assert(s[p + 2] == comment_opening()[0]);
        }
    }
    lemma_closing_found(s, p + 9, t, closing);
}

#[verifier::spinoff_prover]
proof fn lemma_instruction_read_back(
    s: Seq<u8>,
    p: int,
    target: Seq<u8>,
    t: Seq<u8>,
    lenient: bool,
)
    requires
        is_piece(Piece::Instruction(target, t)),
        occurs_at(s, p, write_piece(Piece::Instruction(target, t))),
    ensures
        lex(s, p, lenient) matches Some(l) && is_construct(l, Piece::Instruction(target, t), p),
{
    let w = write_piece(Piece::Instruction(target, t));
    let closing = seq![0x3fu8, 0x3eu8];
    let head = seq![0x3cu8, 0x3fu8];
    let data = seq![0x20u8] + t;
    let e = p + 2 + target.len();
    assert(s[p + 1] == 0x3f && s[e] == 0x20 && p + w.len() <= s.len() && 0 <= p) by {
        lemma_occurs(s, p, w);
        assert(s[p + 1] == w[1]);
        assert(s[e] == w[e - p]);
    }
    assert(pi_closing() =~= closing);
    assert(w =~= head + target + (data + closing));
    assert(occurs_at(s, e, data + closing) && occurs_at(s, p + 2, target)) by {
        lemma_occurs_split(s, p, head + target, data + closing);
        lemma_occurs_split(s, p, head, target);
    }
    lemma_name_ends(s, p + 2, target);
    lemma_closing_found(s, e, data, closing);
}

#[verifier::spinoff_prover]
proof fn lemma_element_read_back(
    s: Seq<u8>,
    p: int,
    name: Seq<u8>,
    attrs: Seq<Written>,
    closed: bool,
    lenient: bool,
)
    requires
        is_name(name),
        are_attrs(attrs),
        occurs_at(
            s,
            p,
            write_piece(
                if closed {
                    Piece::SelfClose(name, attrs)
                } else {
                    Piece::Open(name, attrs)
                },
            ),
        ),
    ensures
        ({
            let x = if closed {
                Piece::SelfClose(name, attrs)
            } else {
                Piece::Open(name, attrs)
            };
            lex(s, p, lenient) matches Some(l) && is_construct(l, x, p)
        }),
{
    let e = p + 1 + name.len();
    lemma_element_parts(s, p, name, attrs, closed);
    lemma_name_ends(s, p + 1, name);
    lemma_attrs_passed(s, e, attrs, 0, lenient);
}

/// How a tag ends.
spec fn tag_tail(closed: bool) -> Seq<u8> {
    if closed {
        seq![0x2fu8, 0x3eu8]
    } else {
        seq![0x3eu8]
    }
}

/// The parts of a tag that stands at a position.
#[verifier::spinoff_prover]
proof fn lemma_element_parts(s: Seq<u8>, p: int, name: Seq<u8>, attrs: Seq<Written>, closed: bool)
    requires
        occurs_at(
            s,
            p,
            write_piece(
                if closed {
                    Piece::SelfClose(name, attrs)
                } else {
                    Piece::Open(name, attrs)
                },
            ),
        ),
    ensures
        ({
            let a = write_attrs(attrs, 0);
            let e = p + 1 + name.len();
            let c = e + a.len();
            &&& 0 <= p
            &&& s[p] == 0x3c
            &&& occurs_at(s, p + 1, name)
            &&& occurs_at(s, e, a)
            &&& c + tag_tail(closed).len() <= s.len()
            &&& s[c] == (if closed {
                0x2fu8
            } else {
                0x3eu8
            })
            &&& closed ==> s[c + 1] == 0x3e
            &&& e == c || s[e] == 0x20
        }),
{
    let a = write_attrs(attrs, 0);
    let tail = tag_tail(closed);
    let head = seq![0x3cu8];
    let e = p + 1 + name.len();
    let c = e + a.len();
    assert(occurs_at(s, p, head + name + a) && occurs_at(s, c, tail)) by {
        lemma_occurs_split(s, p, head + name + a, tail);
    }
    assert(occurs_at(s, p, head + name) && occurs_at(s, e, a)) by {
        lemma_occurs_split(s, p, head + name, a);
    }
    assert(occurs_at(s, p, head) && occurs_at(s, p + 1, name)) by {
        lemma_occurs_split(s, p, head, name);
    }
    assert(0 <= p && s[p] == 0x3c) by {
        lemma_occurs(s, p, head);
        assert(s[p] == head[0]);
    }
    assert(c + tail.len() <= s.len() && s[c] == tail[0] && (closed ==> s[c + 1] == tail[1])) by {
        lemma_occurs(s, c, tail);
        assert(s[c] == tail[0]);
        if closed {
            assert(s[c + 1] == tail[1]);
        }
    }
    assert(e == c || s[e] == 0x20) by {
        lemma_attrs_start(attrs);
        lemma_occurs(s, e, a);
        if a.len() > 0 {
            assert(s[e] == a[0]);
        }
    }
}

/// The constructs of pieces, in order, each at its place.
pub open spec fn are_constructs(ls: Seq<LexemeV>, xs: Seq<Piece>, i: int, p: int) -> bool
    decreases xs.len() - i,
{
    if i < 0 || i >= xs.len() {
        ls.len() == 0
    } else if xs[i] is Text {
        are_constructs(ls, xs, i + 1, p + write_piece(xs[i]).len())
    } else {
        ls.len() > 0 && is_construct(ls[0], xs[i], p) && are_constructs(
            ls.drop_first(),
            xs,
            i + 1,
            p + write_piece(xs[i]).len(),
        )
    }
}

proof fn lemma_scan_passes(s: Seq<u8>, p: int, q: int, lenient: bool)
    requires
        0 <= p <= q <= s.len(),
        forall|j: int| p <= j < q ==> #[trigger] s[j] != 0x3c,
    ensures
        scan(s, p, lenient) == scan(s, q, lenient),
{
    lemma_scan_to(s, q, is_byte(0x3c));
    let r = scan_to(s, q, is_byte(0x3c));
    assert forall|j: int| p <= j < r implies !is_byte(0x3c)(#[trigger] s[j]) by {}
    lemma_scan_to_is(s, p, is_byte(0x3c), r);
}

proof fn lemma_pieces_from(s: Seq<u8>, p: int, xs: Seq<Piece>, i: int, lenient: bool)
    requires
        0 <= i <= xs.len(),
        0 <= p <= s.len(),
        forall|k: int| 0 <= k < xs.len() ==> is_piece(#[trigger] xs[k]),
        occurs_at(s, p, write_pieces(xs, i)),
        s.len() == p + write_pieces(xs, i).len(),
    ensures
        scan(s, p, lenient).unclosed is None,
        are_constructs(scan(s, p, lenient).lexemes, xs, i, p),
    decreases xs.len() - i,
{
    if i == xs.len() {
        lemma_scan_to(s, p, is_byte(0x3c));
    } else {
        let x = xs[i];
        let w = write_piece(x);
        assert(is_piece(x));
        lemma_occurs_split(s, p, w, write_pieces(xs, i + 1));
        lemma_occurs(s, p, w);
        lemma_pieces_from(s, p + w.len(), xs, i + 1, lenient);
        if x is Text {
            assert forall|j: int| p <= j < p + w.len() implies #[trigger] s[j] != 0x3c by {
                assert(s[j] == w[j - p]);
                assert(w.contains(w[j - p]));
            }
            lemma_scan_passes(s, p, p + w.len(), lenient);
        } else {
            lemma_piece_read_back(s, p, x, lenient);
            lemma_scan_to_is(s, p, is_byte(0x3c), p);
            let l = lex(s, p, lenient)->0;
            let rest = scan(s, l.end + 1, lenient);
            let all = scan(s, p, lenient);
            assert(all.lexemes == seq![l] + rest.lexemes);
            assert(all.lexemes.drop_first() =~= rest.lexemes);
        }
    }
}

/// Reading a document that has been written piece by piece gives back the pieces: one
/// construct for each that is no text, in order, with its kind, its place and its name.
pub proof fn lemma_document_read_back(xs: Seq<Piece>)
    requires
        forall|k: int| 0 <= k < xs.len() ==> is_piece(#[trigger] xs[k]),
    ensures
        ({
            let s = write_pieces(xs, 0);
            let found = scan(s, 0, false);
            &&& found.unclosed is None
            &&& are_constructs(found.lexemes, xs, 0, 0)
            &&& parsed(s) == Ok::<Doc, int>(outline(found.lexemes).doc)
        }),
{
    let s = write_pieces(xs, 0);
    assert(occurs_at(s, 0, s));
    lemma_pieces_from(s, 0, xs, 0, false);
}

// Attributes.

/// The place of each attribute from the one at `i` on, when they stand at `p`.
pub open spec fn attr_places(attrs: Seq<Written>, i: int, p: int) -> Seq<AttrSpan>
    decreases attrs.len() - i,
{
    if i < 0 || i >= attrs.len() {
        Seq::empty()
    } else {
        let n = attrs[i].name.len();
        let v = attrs[i].value.len();
        seq![
            AttrSpan {
                name: (p + 1, p + 1 + n as int),
                value: (p + 3 + n as int, p + 3 + n as int + v as int),
            },
        ] + attr_places(attrs, i + 1, p + 4 + n + v)
    }
}

#[verifier::spinoff_prover]
proof fn lemma_attrs_from(t: Seq<u8>, p: int, attrs: Seq<Written>, i: int, keep: bool)
    requires
        0 <= i <= attrs.len(),
        0 < p,
        are_attrs(attrs),
        occurs_at(t, p, write_attrs(attrs, i)),
        ({
            let q = p + write_attrs(attrs, i).len();
            q < t.len() && (t[q] == 0x3e || t[q] == 0x2f)
        }),
    ensures
        attrs_from(t, p, keep) == attr_places(attrs, i, p),
    decreases attrs.len() - i,
{
    if i < attrs.len() {
        let a = attrs[i];
        let w = write_attr(a);
        let e = p + 1 + a.name.len();
        let v = e + 2;
        let q = v + a.value.len();
        assert(is_name(a.name) && is_quote(a.quote) && !a.value.contains(a.quote));
        assert(occurs_at(t, p, w) && occurs_at(t, q + 1, write_attrs(attrs, i + 1))) by {
            lemma_occurs_split(t, p, w, write_attrs(attrs, i + 1));
        }
        lemma_attr_parts(t, p, a);
        assert(scan_to(t, p + 1, ends_attr_name()) == e && !is_space(t[p + 1]) && t[p + 1] != 0x3e
            && t[p + 1] != 0x2f) by {
            lemma_name_ends(t, p + 1, a.name);
            assert(t[p + 1] == a.name[0]);
        }
        lemma_scan_to_is(t, v, is_byte(a.quote), q);
        lemma_attrs_from(t, q + 1, attrs, i + 1, keep);
        assert(attrs_from(t, p, keep) == attrs_from(t, p + 1, keep));
        assert(attrs_from(t, p + 1, keep) == named(p + 1, e, v, q) + attrs_from(t, q + 1, keep));
    }
}

/// The parts of an attribute that stands at a position.
#[verifier::spinoff_prover]
proof fn lemma_attr_parts(t: Seq<u8>, p: int, a: Written)
    requires
        occurs_at(t, p, write_attr(a)),
        !a.value.contains(a.quote),
    ensures
        ({
            let e = p + 1 + a.name.len();
            let q = e + 2 + a.value.len();
            &&& 0 <= p
            &&& t[p] == 0x20
            &&& occurs_at(t, p + 1, a.name)
            &&& t[e] == 0x3d
            &&& t[e + 1] == a.quote
            &&& q < t.len()
            &&& t[q] == a.quote
            &&& forall|j: int| e + 2 <= j < q ==> !is_byte(a.quote)(#[trigger] t[j])
        }),
{
    let w = write_attr(a);
    let e = p + 1 + a.name.len();
    let v = e + 2;
    let q = v + a.value.len();
    let head = seq![0x20u8];
    let sign = seq![0x3du8, a.quote];
    let mark = seq![a.quote];
    assert(occurs_at(t, p, head + a.name + sign + a.value) && occurs_at(t, q, mark)) by {
        lemma_occurs_split(t, p, head + a.name + sign + a.value, mark);
    }
    assert(occurs_at(t, p, head + a.name + sign) && occurs_at(t, v, a.value)) by {
        lemma_occurs_split(t, p, head + a.name + sign, a.value);
    }
    assert(occurs_at(t, p, head + a.name) && occurs_at(t, e, sign)) by {
        lemma_occurs_split(t, p, head + a.name, sign);
    }
    assert(occurs_at(t, p, head) && occurs_at(t, p + 1, a.name)) by {
        lemma_occurs_split(t, p, head, a.name);
    }
    lemma_byte(t, p, head, 0);
    lemma_byte(t, e, sign, 0);
    lemma_byte(t, e, sign, 1);
    lemma_byte(t, q, mark, 0);
    assert forall|j: int| v <= j < q implies !is_byte(a.quote)(#[trigger] t[j]) by {
        lemma_byte(t, v, a.value, j - v);
        assert(a.value.contains(a.value[j - v]));
    }
}

/// One byte of a text that stands at a position.
proof fn lemma_byte(s: Seq<u8>, p: int, w: Seq<u8>, i: int)
    requires
        occurs_at(s, p, w),
        0 <= i < w.len(),
    ensures
        s[p + i] == w[i],
        0 <= p,
        p + w.len() <= s.len(),
{
}

#[verifier::spinoff_prover]
proof fn lemma_places_hold(t: Seq<u8>, p: int, attrs: Seq<Written>, i: int, k: int)
    requires
        0 <= i,
        0 <= k < attrs.len() - i,
        0 <= p,
        occurs_at(t, p, write_attrs(attrs, i)),
    ensures
        attr_places(attrs, i, p).len() == attrs.len() - i,
        ({
            let a = attr_places(attrs, i, p)[k];
            &&& 0 <= a.name.0 <= a.name.1 <= t.len()
            &&& 0 <= a.value.0 <= a.value.1 <= t.len()
            &&& t.subrange(a.name.0, a.name.1) == attrs[i + k].name
            &&& t.subrange(a.value.0, a.value.1) == attrs[i + k].value
        }),
    decreases attrs.len() - i,
{
    let a = attrs[i];
    let w = write_attr(a);
    lemma_occurs_split(t, p, w, write_attrs(attrs, i + 1));
    lemma_occurs(t, p, w);
    let n = a.name.len() as int;
    let v = a.value.len() as int;
    let rest = attr_places(attrs, i + 1, p + 4 + n + v);
    if i + 1 < attrs.len() {
        let m = if k > 0 {
            k - 1
        } else {
            0
        };
        lemma_places_hold(t, p + w.len(), attrs, i + 1, m);
    } else {
        assert(rest.len() == 0);
    }
    let all = attr_places(attrs, i, p);
    if k == 0 {
        assert(t.subrange(p + 1, p + 1 + n) =~= a.name) by {
            assert forall|j: int| 0 <= j < n implies t.subrange(p + 1, p + 1 + n)[j] == a.name[j] by {
                assert(t[p + 1 + j] == w[1 + j]);
            }
        }
        assert(t.subrange(p + 3 + n, p + 3 + n + v) =~= a.value) by {
            assert forall|j: int| 0 <= j < v implies t.subrange(p + 3 + n, p + 3 + n + v)[j]
                == a.value[j] by {
                assert(t[p + 3 + n + j] == w[3 + n + j]);
            }
        }
    } else {
        assert(all[k] == rest[k - 1]);
    }
}

/// Reading the attributes of a tag gives back the written names and values, in order.
pub proof fn lemma_attributes_read_back(name: Seq<u8>, attrs: Seq<Written>, closed: bool, keep: bool)
    requires
        is_name(name),
        are_attrs(attrs),
    ensures
        ({
            let t = write_piece(
                if closed {
                    Piece::SelfClose(name, attrs)
                } else {
                    Piece::Open(name, attrs)
                },
            );
            let found = attrs_from(t, attrs_start(t), keep);
            &&& found.len() == attrs.len()
            &&& forall|k: int| #![trigger found[k]]
                0 <= k < attrs.len() ==> t.subrange(found[k].name.0, found[k].name.1)
                    == attrs[k].name && t.subrange(found[k].value.0, found[k].value.1)
                    == attrs[k].value
        }),
{
    let t = write_piece(
        if closed {
            Piece::SelfClose(name, attrs)
        } else {
            Piece::Open(name, attrs)
        },
    );
    assert(occurs_at(t, 0, t));
    let e = 1 + name.len() as int;
    lemma_element_parts(t, 0, name, attrs, closed);
    lemma_name_ends(t, 1, name);
    lemma_attrs_from(t, e, attrs, 0, keep);
    let found = attrs_from(t, e, keep);
    assert forall|k: int| #![trigger found[k]] 0 <= k < attrs.len() implies t.subrange(
        found[k].name.0,
        found[k].name.1,
    ) == attrs[k].name && t.subrange(found[k].value.0, found[k].value.1) == attrs[k].value by {
        lemma_places_hold(t, e, attrs, 0, k);
    }
    if attrs.len() > 0 {
        lemma_places_hold(t, e, attrs, 0, 0);
    } else {
        assert(found.len() == 0);
    }
}

} // verus!
