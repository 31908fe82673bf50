//! XPath values and their conversions and comparisons.

use vstd::prelude::*;
use crate::bytes::{is_ascii_space, is_space, scan_to, text_of, text_or_empty};
use crate::index::entities::decoded;
use crate::index::{TagType, XmlIndex};
use crate::text::{str_eq, texts};
use crate::xpath::ast::BinaryOp;
use crate::xpath::namespaces::{namespace_value, scope_uri};
use crate::xpath::nodes::{attr_name_hash, name_hash, node_ok, nodes_ok, XPathNode, DOC_ROOT};
use crate::xpath::numbers::{
    answers, ask_flag, ask_number, ask_text, is_arithmetic, reply_flag, reply_number, reply_text,
    strings, Number, NumberOp, NumberReply, OpV, Oracle,
};

verus! {

/// A value in XPath evaluation.
pub enum XPathValue {
    String(String),
    Number(Number),
    Boolean(bool),
}

/// The mathematical value of an `XPathValue`.
pub enum ValueV {
    Str(Seq<char>),
    Num(Number),
    Bool(bool),
}

impl View for XPathValue {
    type V = ValueV;

    open spec fn view(&self) -> ValueV {
        match self {
            XPathValue::String(t) => ValueV::Str(t@),
            XPathValue::Number(n) => ValueV::Num(*n),
            XPathValue::Boolean(b) => ValueV::Bool(*b),
        }
    }
}

/// A count as a number.
pub open spec fn count(o: Oracle, n: usize) -> Number {
    reply_number(o(OpV::Count(n)))
}

/// A value as a truth value.
pub open spec fn truthy(o: Oracle, v: ValueV) -> bool {
    match v {
        ValueV::Bool(b) => b,
        ValueV::Str(t) => t.len() > 0,
        ValueV::Num(n) => reply_flag(o(OpV::IsTruthy(n))),
    }
}

/// A value as a text.
pub open spec fn text_value(o: Oracle, v: ValueV) -> Seq<char> {
    match v {
        ValueV::Str(t) => t,
        ValueV::Num(n) => reply_text(o(OpV::Format(n))),
        ValueV::Bool(b) => if b {
            "true"@
        } else {
            "false"@
        },
    }
}

/// A value as a number.
pub open spec fn number_value(o: Oracle, v: ValueV) -> Number {
    match v {
        ValueV::Num(n) => n,
        ValueV::Str(t) => reply_number(o(OpV::Parse(t))),
        ValueV::Bool(b) => count(
            o,
            if b {
                1
            } else {
                0
            },
        ),
    }
}

/// Whether two values are equal: as truth values when either is one, else as
/// numbers when either is one, else as texts.
pub open spec fn equal_values(o: Oracle, l: ValueV, r: ValueV) -> bool {
    match (l, r) {
        (ValueV::Bool(a), _) => a == truthy(o, r),
        (_, ValueV::Bool(b)) => truthy(o, l) == b,
        (ValueV::Str(a), ValueV::Str(b)) => a == b,
        _ => reply_flag(o(OpV::Equal(number_value(o, l), number_value(o, r)))),
    }
}

/// Whether a comparison or a connective holds of two values.
pub open spec fn compare(o: Oracle, l: ValueV, op: BinaryOp, r: ValueV) -> bool {
    match op {
        BinaryOp::Eq => equal_values(o, l, r),
        BinaryOp::Neq => !equal_values(o, l, r),
        BinaryOp::Lt => reply_flag(o(OpV::Less(number_value(o, l), number_value(o, r)))),
        BinaryOp::Gt => reply_flag(o(OpV::Less(number_value(o, r), number_value(o, l)))),
        BinaryOp::Lte => reply_flag(o(OpV::LessOrEqual(number_value(o, l), number_value(o, r)))),
        BinaryOp::Gte => reply_flag(o(OpV::LessOrEqual(number_value(o, r), number_value(o, l)))),
        BinaryOp::Or => truthy(o, l) || truthy(o, r),
        BinaryOp::And => truthy(o, l) && truthy(o, r),
        _ => false,
    }
}

/// What an arithmetic operator makes of two values; `None` for other operators.
pub open spec fn arithmetic(o: Oracle, l: ValueV, op: BinaryOp, r: ValueV) -> Option<Number> {
    let a = number_value(o, l);
    let b = number_value(o, r);
    match op {
        BinaryOp::Add => Some(reply_number(o(OpV::Add(a, b)))),
        BinaryOp::Sub => Some(reply_number(o(OpV::Subtract(a, b)))),
        BinaryOp::Mul => Some(reply_number(o(OpV::Multiply(a, b)))),
        BinaryOp::Div => Some(reply_number(o(OpV::Divide(a, b)))),
        BinaryOp::Mod => Some(reply_number(o(OpV::Remainder(a, b)))),
        _ => None,
    }
}

/// The value of the first attribute from `k` on whose name has the given hash.
pub open spec fn hashed_attribute(
    ix: XmlIndex,
    tag: int,
    names: Seq<Seq<char>>,
    hash: u64,
    k: int,
) -> Seq<char>
    decreases names.len() - k,
{
    if k < 0 || k >= names.len() {
        Seq::empty()
    } else if name_hash(names[k]) == hash && ix.attribute(tag, names[k]) is Some {
        ix.attribute(tag, names[k])->0
    } else {
        hashed_attribute(ix, tag, names, hash, k + 1)
    }
}

/// The texts inside of elements among the first `k` text ranges, joined.
pub open spec fn joined_texts(ix: XmlIndex, k: int) -> Seq<char>
    decreases k,
{
    if k <= 0 {
        Seq::empty()
    } else if ix.text_ranges@[k - 1].parent_tag != u32::MAX {
        joined_texts(ix, k - 1) + ix.range_text(ix.text_ranges@[k - 1])
    } else {
        joined_texts(ix, k - 1)
    }
}

/// The bytes in `a..b` of the input as a text; empty when there are none.
pub open spec fn input_text(ix: XmlIndex, a: int, b: int) -> Seq<char> {
    if 0 <= a <= b <= ix.input@.len() {
        text_of(ix.input@.subrange(a, b))
    } else {
        Seq::empty()
    }
}

pub open spec fn not_space() -> spec_fn(u8) -> bool {
    |b: u8| !is_space(b)
}

/// The content of a comment: what stands between `<!--` and `-->`.
pub open spec fn comment_text(ix: XmlIndex, i: int) -> Seq<char> {
    input_text(ix, ix.tag_starts@[i] + 4, ix.tag_ends@[i] - 2)
}

/// The content of a processing instruction: what stands between its target with
/// the white space after it and `?>`.
pub open spec fn instruction_text(ix: XmlIndex, i: int) -> Seq<char> {
    let name = ix.tag_names@[i];
    input_text(ix, scan_to(ix.input@, name.0 + name.1, not_space()), ix.tag_ends@[i] - 1)
}

/// The text of a tag that is a node: of an element the text inside it, with its
/// references expanded, of a comment or a processing instruction its content.
pub open spec fn tag_text(ix: XmlIndex, i: int) -> Seq<char> {
    match ix.tag_types@[i] {
        TagType::Comment => comment_text(ix, i),
        TagType::PI => instruction_text(ix, i),
        _ => decoded(ix.full_text(i), 0),
    }
}

/// The string value of a node: the text of the document root, of a tag, or of a
/// text node with its references expanded, the value of an attribute or the URI of
/// a namespace with its references expanded.
pub open spec fn string_value(ix: XmlIndex, node: XPathNode) -> Seq<char> {
    match node {
        XPathNode::Element(i) => if i == DOC_ROOT {
            decoded(joined_texts(ix, ix.text_ranges@.len() as int), 0)
        } else {
            tag_text(ix, i as int)
        },
        XPathNode::Text(i) => decoded(ix.range_text(ix.text_ranges@[i as int]), 0),
        XPathNode::Attribute(i, h) => decoded(
            hashed_attribute(ix, i as int, ix.attribute_names(i as int), h, 0),
            0,
        ),
        XPathNode::Namespace(i, h) => scope_uri(ix, i as int, h),
    }
}

/// The string values of nodes.
pub open spec fn string_values(ix: XmlIndex, nodes: Seq<XPathNode>) -> Seq<Seq<char>> {
    nodes.map_values(|n: XPathNode| string_value(ix, n))
}

/// An owned copy of decoded text.
pub(crate) fn owned_text(text: std::borrow::Cow<'_, str>) -> (r: String)
    ensures
        r@ == text@,
{
    match text {
        std::borrow::Cow::Borrowed(t) => t.to_owned(),
        std::borrow::Cow::Owned(t) => t,
    }
}

/// The texts inside of elements, joined.
fn join_texts(index: &XmlIndex) -> (r: String)
    requires
        index.wf(),
    ensures
        r@ == joined_texts(*index, index.text_ranges@.len() as int),
{
    let mut out = empty_string();
    let n: usize = index.text_count();
    let mut k: usize = 0;
    while k < n
        invariant
            index.wf(),
            n == index.text_ranges@.len(),
            k <= n,
            out@ == joined_texts(*index, k as int),
        decreases n - k,
    {
        let t = index.text_ranges[k];
        assert(index.doc().texts[k as int] == t);
        if t.parent_tag != u32::MAX {
            out.append(index.text_content(&t));
        }
        k += 1;
    }
    out
}

/// The bytes in `a..b` of the input as a text: see `input_text`.
fn slice_text<'a>(index: &XmlIndex<'a>, a: usize, b: usize) -> (r: &'a str)
    requires
        b <= index.input@.len(),
    ensures
        r@ == input_text(*index, a as int, b as int),
{
    proof {
        reveal_strlit("");
        assert(""@ =~= Seq::<char>::empty());
    }
    if a <= b {
        text_or_empty(vstd::slice::slice_subrange(index.input, a, b))
    } else {
        ""
    }
}

/// The text of a tag that is a node: see `tag_text`.
fn tag_string_value(index: &XmlIndex, i: usize) -> (r: String)
    requires
        index.wf(),
        i < index.tags(),
    ensures
        r@ == tag_text(*index, i as int),
{
    proof {
        let d = index.doc();
        assert(d.starts[i as int] == index.tag_starts@[i as int]);
        assert(d.ends[i as int] == index.tag_ends@[i as int]);
        assert(d.names[i as int] == index.tag_names@[i as int]);
    }
    let n: usize = index.input.len();
    let start: usize = index.tag_starts[i] as usize;
    let end: usize = index.tag_ends[i] as usize;
    match index.tag_types[i] {
        TagType::Comment => {
            if end < 6 || end - 6 < start {
                return empty_string();
            }
            slice_text(index, start + 4, end - 2).to_owned()
        },
        TagType::PI => {
            let name = index.tag_names[i];
            let mut p: usize = name.0 as usize + name.1 as usize;
            let ghost from = p as int;
            while p < n && is_ascii_space(index.input[p])
                invariant
                    n == index.input@.len(),
                    from <= p <= n,
                    scan_to(index.input@, from, not_space()) == scan_to(
                        index.input@,
                        p as int,
                        not_space(),
                    ),
                decreases n - p,
            {
                p += 1;
            }
            if end < 1 {
                return empty_string();
            }
            slice_text(index, p, end - 1).to_owned()
        },
        _ => {
            let text = index.all_text(i);
            owned_text(XmlIndex::decode_entities(text.as_str()))
        },
    }
}

/// The string value of a node: see `string_value`.
pub fn node_string_value(index: &XmlIndex, node: XPathNode) -> (r: String)
    requires
        index.wf(),
        node_ok(*index, node),
    ensures
        r@ == string_value(*index, node),
{
    match node {
        XPathNode::Element(i) => if i == DOC_ROOT {
            let text = join_texts(index);
            owned_text(XmlIndex::decode_entities(text.as_str()))
        } else {
            tag_string_value(index, i)
        },
        XPathNode::Text(i) => {
            assert(index.doc().texts[i as int] == index.text_ranges@[i as int]);
            owned_text(XmlIndex::decode_entities(index.text_content(&index.text_ranges[i])))
        },
        XPathNode::Attribute(i, h) => {
            let names = index.get_all_attribute_names(i);
            let ghost view = texts(names@);
            let mut k: usize = 0;
            while k < names.len()
                invariant
                    index.wf(),
                    view == texts(names@),
                    k <= names@.len(),
                    hashed_attribute(*index, i as int, view, h, 0) == hashed_attribute(
                        *index,
                        i as int,
                        view,
                        h,
                        k as int,
                    ),
                    node == XPathNode::Attribute(i, h),
                    view == index.attribute_names(i as int),
                decreases names@.len() - k,
            {
                assert(view[k as int] == names@[k as int]@);
                if attr_name_hash(names[k]) == h {
                    match index.get_attribute(i, names[k]) {
                        Some(value) => {
                            return owned_text(XmlIndex::decode_entities(value));
                        },
                        None => {},
                    }
                }
                k += 1;
            }
            assert(decoded(Seq::<char>::empty(), 0) =~= Seq::empty());
            empty_string()
        },
        XPathNode::Namespace(i, h) => namespace_value(index, i, h),
    }
}

/// The string values of nodes.
pub fn node_string_values(index: &XmlIndex, nodes: &Vec<XPathNode>) -> (r: Vec<String>)
    requires
        index.wf(),
        nodes_ok(*index, nodes@),
    ensures
        strings(r@) == string_values(*index, nodes@),
{
    let mut out: Vec<String> = Vec::new();
    let mut i: usize = 0;
    while i < nodes.len()
        invariant
            index.wf(),
            nodes_ok(*index, nodes@),
            i <= nodes@.len(),
            out@.len() == i,
            forall|j: int|
                0 <= j < i ==> (#[trigger] out@[j])@ == string_value(*index, nodes@[j]),
        decreases nodes@.len() - i,
    {
        out.push(node_string_value(index, nodes[i]));
        i += 1;
    }
    assert(strings(out@) =~= string_values(*index, nodes@));
    out
}

/// An empty string.
pub fn empty_string() -> (r: String)
    ensures
        r@ == Seq::<char>::empty(),
{
    let none = String::new();
    assert(none@ =~= Seq::empty());
    none
}

impl XPathValue {
    /// The value as a truth value.
    pub fn is_truthy<F: Fn(NumberOp) -> NumberReply>(&self, f: &F) -> (r: bool)
        requires
            is_arithmetic(*f),
        ensures
            r == truthy(answers(*f), self@),
    {
        match self {
            XPathValue::Boolean(b) => *b,
            XPathValue::String(t) => !t.as_str().is_empty(),
            XPathValue::Number(n) => ask_flag(f, NumberOp::IsTruthy(*n)),
        }
    }

    /// The value as a text.
    pub fn as_string<F: Fn(NumberOp) -> NumberReply>(&self, f: &F) -> (r: String)
        requires
            is_arithmetic(*f),
        ensures
            r@ == text_value(answers(*f), self@),
    {
        match self {
            XPathValue::String(t) => t.clone(),
            XPathValue::Number(n) => ask_text(f, NumberOp::Format(*n)),
            XPathValue::Boolean(b) => if *b {
                String::from_str("true")
            } else {
                String::from_str("false")
            },
        }
    }

    /// The value as a number.
    pub fn as_number<F: Fn(NumberOp) -> NumberReply>(&self, f: &F) -> (r: Number)
        requires
            is_arithmetic(*f),
        ensures
            r == number_value(answers(*f), self@),
    {
        match self {
            XPathValue::Number(n) => *n,
            XPathValue::String(t) => ask_number(f, NumberOp::Parse(t.clone())),
            XPathValue::Boolean(b) => ask_number(
                f,
                NumberOp::Count(
                    if *b {
                        1
                    } else {
                        0
                    },
                ),
            ),
        }
    }
}

fn values_equal<F: Fn(NumberOp) -> NumberReply>(f: &F, l: &XPathValue, r: &XPathValue) -> (b: bool)
    requires
        is_arithmetic(*f),
    ensures
        b == equal_values(answers(*f), l@, r@),
{
    match (l, r) {
        (XPathValue::Boolean(a), _) => *a == r.is_truthy(f),
        (_, XPathValue::Boolean(b)) => l.is_truthy(f) == *b,
        (XPathValue::String(a), XPathValue::String(b)) => str_eq(a.as_str(), b.as_str()),
        _ => {
            let a: Number = l.as_number(f);
            let b: Number = r.as_number(f);
            ask_flag(f, NumberOp::Equal(a, b))
        },
    }
}

/// Compares two values: see `compare`.
pub fn compare_values<F: Fn(NumberOp) -> NumberReply>(
    f: &F,
    l: &XPathValue,
    op: BinaryOp,
    r: &XPathValue,
) -> (b: bool)
    requires
        is_arithmetic(*f),
    ensures
        b == compare(answers(*f), l@, op, r@),
{
    match op {
        BinaryOp::Eq => values_equal(f, l, r),
        BinaryOp::Neq => !values_equal(f, l, r),
        BinaryOp::Lt => ask_flag(f, NumberOp::Less(l.as_number(f), r.as_number(f))),
        BinaryOp::Gt => ask_flag(f, NumberOp::Less(r.as_number(f), l.as_number(f))),
        BinaryOp::Lte => ask_flag(f, NumberOp::LessOrEqual(l.as_number(f), r.as_number(f))),
        BinaryOp::Gte => ask_flag(f, NumberOp::LessOrEqual(r.as_number(f), l.as_number(f))),
        BinaryOp::Or => l.is_truthy(f) || r.is_truthy(f),
        BinaryOp::And => l.is_truthy(f) && r.is_truthy(f),
        _ => false,
    }
}

/// Computes with two values: see `arithmetic`.
pub fn compute<F: Fn(NumberOp) -> NumberReply>(
    f: &F,
    l: &XPathValue,
    op: BinaryOp,
    r: &XPathValue,
) -> (n: Option<Number>)
    requires
        is_arithmetic(*f),
    ensures
        n == arithmetic(answers(*f), l@, op, r@),
{
    match op {
        BinaryOp::Add => Some(ask_number(f, NumberOp::Add(l.as_number(f), r.as_number(f)))),
        BinaryOp::Sub => Some(ask_number(f, NumberOp::Subtract(l.as_number(f), r.as_number(f)))),
        BinaryOp::Mul => Some(ask_number(f, NumberOp::Multiply(l.as_number(f), r.as_number(f)))),
        BinaryOp::Div => Some(ask_number(f, NumberOp::Divide(l.as_number(f), r.as_number(f)))),
        BinaryOp::Mod => Some(ask_number(f, NumberOp::Remainder(l.as_number(f), r.as_number(f)))),
        _ => None,
    }
}

} // verus!
