//! Rendering query results.

use vstd::prelude::*;
use crate::batch::{
    batch_outcome, count_batch, document_threads, eval_batch_parallel, failure, filter_plan,
    plain_plan,
};
use crate::error::SimdXmlError;
use crate::index::entities::decoded;
use crate::index::outline::Doc;
use crate::index::structural::parsed;
use crate::index::XmlIndex;
use crate::bytes::{text_of, text_or_empty};
use crate::report::json::{json_array, json_line};
use crate::text::{chars_of, decimal, digits, texts};
use crate::xpath::ast::{expr_v, ExprV};
use crate::xpath::chars::{is_white, is_white_space};
use crate::xpath::compiled::{results_in, CompiledXPath, XPathResult};
use crate::xpath::eval::{node_texts, texts_of_nodes};
use crate::xpath::nodes::{node_ok, nodes_ok, XPathNode};
use crate::xpath::numbers::{
    answers, ask_text, is_arithmetic, reply_text, strings, Number, NumberOp, NumberReply, OpV,
    Oracle,
};
use crate::xpath::parser::parsed_xpath;
use crate::xpath::values::owned_text;

verus! {

/// What to print of a result.
#[derive(Clone, Copy)]
pub struct QueryOptions {
    /// Raw XML fragments instead of text content.
    pub raw: bool,
    /// Only the number of matching nodes.
    pub count: bool,
    /// A JSON array.
    pub json: bool,
    /// Only the names of documents with matches.
    pub list: bool,
    /// NUL instead of newline between results.
    pub null_separated: bool,
    /// Results of white space only are kept.
    pub whitespace: bool,
    /// Results are headed by the name of their document.
    pub with_name: bool,
    /// There is more than one document.
    pub many: bool,
}

/// A document with its name.
pub struct Source {
    pub name: String,
    pub data: Vec<u8>,
}

/// What a result gives: the text to print, the items for a JSON array over all
/// documents, and whether it is a match.
#[verifier::ext_equal]
pub struct Shown {
    pub output: Seq<char>,
    pub items: Seq<Seq<char>>,
    pub matched: bool,
}

/// Whether a text is white space only.
pub open spec fn is_blank_text(t: Seq<char>) -> bool {
    forall|i: int| 0 <= i < t.len() ==> is_white(#[trigger] t[i])
}

/// The first `k` texts without blank ones, unless those are kept.
pub open spec fn kept_texts(all: Seq<Seq<char>>, keep_blank: bool, k: int) -> Seq<Seq<char>>
    decreases k,
{
    if k <= 0 {
        Seq::empty()
    } else if keep_blank || !is_blank_text(all[k - 1]) {
        kept_texts(all, keep_blank, k - 1).push(all[k - 1])
    } else {
        kept_texts(all, keep_blank, k - 1)
    }
}

/// The separator after each result.
pub open spec fn separator(o: QueryOptions) -> char {
    if o.null_separated {
        '\0'
    } else {
        '\n'
    }
}

/// The first `k` texts, each followed by the separator.
pub open spec fn separated(all: Seq<Seq<char>>, sep: char, k: int) -> Seq<char>
    decreases k,
{
    if k <= 0 {
        Seq::empty()
    } else {
        separated(all, sep, k - 1) + all[k - 1] + seq![sep]
    }
}

/// Texts with their references expanded.
pub open spec fn expanded(all: Seq<Seq<char>>) -> Seq<Seq<char>> {
    all.map_values(|t: Seq<char>| decoded(t, 0))
}

/// The line with the name of the document, where there is one.
pub open spec fn heading(o: QueryOptions, name: Seq<char>, wanted: bool) -> Seq<char> {
    if o.with_name && wanted {
        name + seq!['\n']
    } else {
        Seq::empty()
    }
}

/// The line that tells a count.
pub open spec fn count_line(o: QueryOptions, name: Seq<char>, n: int) -> Seq<char> {
    (if o.with_name {
        name + seq![':']
    } else {
        Seq::empty()
    }) + digits(n) + seq!['\n']
}

impl<'a> XmlIndex<'a> {
    /// The markup of an element, from its `<` to the end of its close tag; all
    /// of the input for the document root.
    pub open spec fn markup(&self, i: int) -> Seq<char> {
        if i < 0 || i >= self.tags() {
            text_of(self.input@)
        } else {
            let from = self.tag_starts@[i] as int;
            let end = self.element_end(i) + 1;
            let to = if end <= self.input@.len() {
                end
            } else {
                self.input@.len() as int
            };
            if from <= to {
                text_of(self.input@.subrange(from, to))
            } else {
                Seq::empty()
            }
        }
    }

    /// The markup of an element: see `markup`.
    pub fn raw_xml(&self, tag_idx: usize) -> (r: &'a str)
        requires
            self.wf(),
        ensures
            r@ == self.markup(tag_idx as int),
    {
        if tag_idx >= self.tag_count() {
            return text_or_empty(self.input);
        }
        let n: usize = self.input.len();
        let last: usize = match self.matching_close(tag_idx) {
            Some(c) => c,
            None => tag_idx,
        };
        proof {
            assert(self.doc().starts[tag_idx as int] == self.tag_starts@[tag_idx as int]);
            assert(self.doc().ends[last as int] == self.tag_ends@[last as int]);
        }
        let from: usize = self.tag_starts[tag_idx] as usize;
        let end: usize = self.tag_ends[last] as usize;
        let to: usize = if end < n {
            end + 1
        } else {
            n
        };
        if from <= to {
            text_or_empty(vstd::slice::slice_subrange(self.input, from, to))
        } else {
            text_or_empty(vstd::slice::slice_subrange(self.input, 0, 0))
        }
    }

    /// The markup of a tag alone.
    pub fn raw_tag(&self, tag_idx: usize) -> (r: &'a str)
        requires
            self.wf(),
            tag_idx < self.tags(),
        ensures
            r@ == text_of(self.tag_bytes(tag_idx as int)),
    {
        text_or_empty(self.tag_slice(tag_idx))
    }

    /// The text of a text range.
    pub fn text_by_index(&self, text_idx: usize) -> (r: &'a str)
        requires
            self.wf(),
            text_idx < self.text_ranges@.len(),
        ensures
            r@ == self.range_text(self.text_ranges@[text_idx as int]),
    {
        assert(self.doc().texts[text_idx as int] == self.text_ranges@[text_idx as int]);
        self.text_content(&self.text_ranges[text_idx])
    }
}

/// The markup of a node: an element with its content, a text, or the tag that an
/// attribute or a namespace stands in.
pub open spec fn fragment(index: XmlIndex, node: XPathNode) -> Seq<char> {
    match node {
        XPathNode::Element(i) => index.markup(i as int),
        XPathNode::Text(i) => index.range_text(index.text_ranges@[i as int]),
        XPathNode::Attribute(i, _) => text_of(index.tag_bytes(i as int)),
        XPathNode::Namespace(i, _) => text_of(index.tag_bytes(i as int)),
    }
}

/// What a list of texts gives.
pub open spec fn shown_texts(kept: Seq<Seq<char>>, o: QueryOptions, name: Seq<char>) -> Shown {
    if o.json {
        Shown {
            output: if o.many {
                Seq::empty()
            } else {
                json_line(expanded(kept))
            },
            items: if o.many {
                expanded(kept)
            } else {
                Seq::empty()
            },
            matched: kept.len() > 0,
        }
    } else {
        Shown {
            output: heading(o, name, kept.len() > 0) + separated(
                expanded(kept),
                separator(o),
                kept.len() as int,
            ),
            items: Seq::empty(),
            matched: kept.len() > 0,
        }
    }
}

/// What selected nodes give.
pub open spec fn shown_nodes(
    index: XmlIndex,
    nodes: Seq<XPathNode>,
    o: QueryOptions,
    name: Seq<char>,
) -> Shown {
    let none = Seq::<Seq<char>>::empty();
    if o.count {
        Shown {
            output: count_line(o, name, nodes.len() as int),
            items: none,
            matched: nodes.len() > 0,
        }
    } else if o.list {
        Shown {
            output: if nodes.len() > 0 {
                name + seq!['\n']
            } else {
                Seq::empty()
            },
            items: none,
            matched: nodes.len() > 0,
        }
    } else if o.raw {
        let all = nodes.map_values(|n: XPathNode| fragment(index, n));
        let kept = kept_texts(all, o.whitespace, all.len() as int);
        Shown {
            output: heading(o, name, kept.len() > 0) + separated(
                kept,
                separator(o),
                kept.len() as int,
            ),
            items: none,
            matched: kept.len() > 0,
        }
    } else {
        let all = node_texts(index, nodes, nodes.len() as int);
        shown_texts(kept_texts(all, o.whitespace, all.len() as int), o, name)
    }
}

/// What a value gives that prints as the given text.
pub open spec fn shown_value(
    text: Seq<char>,
    is_string: bool,
    matched: bool,
    o: QueryOptions,
    name: Seq<char>,
) -> Shown {
    let none = Seq::<Seq<char>>::empty();
    if o.json {
        Shown {
            output: if o.many {
                Seq::empty()
            } else if is_string {
                json_line(seq![text])
            } else {
                text + seq!['\n']
            },
            items: if o.many {
                seq![text]
            } else {
                none
            },
            matched,
        }
    } else if is_string && o.count {
        Shown { output: count_line(o, name, 1), items: none, matched }
    } else {
        Shown {
            output: heading(o, name, true) + text + seq![separator(o)],
            items: none,
            matched,
        }
    }
}

/// What a result gives.
pub open spec fn shown_result(
    index: XmlIndex,
    oracle: Oracle,
    result: XPathResult,
    o: QueryOptions,
    name: Seq<char>,
) -> Shown {
    match result {
        XPathResult::NodeSet(nodes) => shown_nodes(index, nodes@, o, name),
        XPathResult::String(t) => shown_value(t@, true, t@.len() > 0, o, name),
        XPathResult::Number(n) => shown_value(
            reply_text(oracle(OpV::Format(n))),
            false,
            true,
            o,
            name,
        ),
        XPathResult::Boolean(b) => shown_value(
            if b {
                "true"@
            } else {
                "false"@
            },
            false,
            b,
            o,
            name,
        ),
    }
}

/// What was rendered of a result: see `Shown`.
pub struct Part {
    pub output: String,
    pub items: Vec<String>,
    pub matched: bool,
}

impl View for Part {
    type V = Shown;

    open spec fn view(&self) -> Shown {
        Shown {
            output: self.output@,
            items: strings(self.items@),
            matched: self.matched,
        }
    }
}

fn is_blank_str(t: &str) -> (r: bool)
    ensures
        r == is_blank_text(t@),
{
    let chars = chars_of(t);
    let n: usize = chars.len();
    let mut i: usize = 0;
    while i < n
        invariant
            chars@ == t@,
            n == chars@.len(),
            i <= n,
            forall|j: int| 0 <= j < i ==> is_white(#[trigger] t@[j]),
        decreases n - i,
    {
        if !is_white_space(chars[i]) {
            assert(!is_white(t@[i as int]));
            return false;
        }
        i += 1;
    }
    true
}

/// Leaves out blank texts, unless they are kept.
fn keep_texts<'b>(all: &Vec<&'b str>, keep_blank: bool) -> (r: Vec<&'b str>)
    ensures
        texts(r@) == kept_texts(texts(all@), keep_blank, all@.len() as int),
{
    let mut out: Vec<&'b str> = Vec::new();
    let n: usize = all.len();
    let mut i: usize = 0;
    let ghost view = texts(all@);
    assert(texts(out@) =~= Seq::empty());
    while i < n
        invariant
            view == texts(all@),
            n == all@.len(),
            i <= n,
            texts(out@) == kept_texts(view, keep_blank, i as int),
        decreases n - i,
    {
        assert(view[i as int] == all@[i as int]@);
        if keep_blank || !is_blank_str(all[i]) {
            let ghost before = texts(out@);
            out.push(all[i]);
            assert(texts(out@) =~= before.push(view[i as int]));
        }
        i += 1;
    }
    out
}

fn separator_of(o: &QueryOptions) -> (r: char)
    ensures
        r == separator(*o),
{
    if o.null_separated {
        '\0'
    } else {
        '\n'
    }
}

/// Appends texts, each followed by the separator.
fn push_separated(out: &mut String, all: &Vec<String>, sep: char)
    ensures
        final(out)@ == old(out)@ + separated(strings(all@), sep, all@.len() as int),
{
    let ghost before = out@;
    let ghost view = strings(all@);
    let n: usize = all.len();
    let mut i: usize = 0;
    assert(out@ =~= before + separated(view, sep, 0));
    while i < n
        invariant
            view == strings(all@),
            n == all@.len(),
            i <= n,
            out@ == before + separated(view, sep, i as int),
        decreases n - i,
    {
        assert(view[i as int] == all@[i as int]@);
        out.append(all[i].as_str());
        out.push(sep);
        assert(out@ =~= before + (separated(view, sep, i as int) + view[i as int] + seq![sep]));
        i += 1;
    }
}

/// Copies texts, expanding references.
fn expand_all(all: &Vec<&str>) -> (r: Vec<String>)
    ensures
        strings(r@) == expanded(texts(all@)),
{
    let mut out: Vec<String> = Vec::new();
    let n: usize = all.len();
    let mut i: usize = 0;
    let ghost view = texts(all@);
    assert(strings(out@) =~= expanded(view).take(0));
    while i < n
        invariant
            view == texts(all@),
            n == all@.len(),
            i <= n,
            strings(out@) == expanded(view).take(i as int),
        decreases n - i,
    {
        assert(view[i as int] == all@[i as int]@);
        let ghost before = strings(out@);
        let text = owned_text(XmlIndex::decode_entities(all[i]));
        out.push(text);
        assert(strings(out@) =~= before.push(text@));
        assert(strings(out@) =~= expanded(view).take(i + 1));
        i += 1;
    }
    assert(expanded(view).take(n as int) =~= expanded(view));
    out
}

/// Copies texts as they are.
fn copy_all(all: &Vec<&str>) -> (r: Vec<String>)
    ensures
        strings(r@) == texts(all@),
{
    let mut out: Vec<String> = Vec::new();
    let n: usize = all.len();
    let mut i: usize = 0;
    while i < n
        invariant
            n == all@.len(),
            i <= n,
            out@.len() == i,
            forall|j: int| 0 <= j < i ==> (#[trigger] out@[j])@ == all@[j]@,
        decreases n - i,
    {
        out.push(all[i].to_owned());
        i += 1;
    }
    assert(strings(out@) =~= texts(all@));
    out
}

/// The line with the name of the document, where there is one.
fn heading_line(o: &QueryOptions, name: &str, wanted: bool) -> (r: String)
    ensures
        r@ == heading(*o, name@, wanted),
{
    let mut out = String::new();
    if o.with_name && wanted {
        out.append(name);
        out.push('\n');
    }
    assert(out@ =~= heading(*o, name@, wanted));
    out
}

fn make_count_line(o: &QueryOptions, name: &str, n: usize) -> (r: String)
    ensures
        r@ == count_line(*o, name@, n as int),
{
    let mut out = String::new();
    if o.with_name {
        out.append(name);
        out.push(':');
    }
    let number = decimal(n as u64);
    out.append(number.as_str());
    out.push('\n');
    assert(out@ =~= count_line(*o, name@, n as int));
    out
}

fn no_items() -> (r: Vec<String>)
    ensures
        strings(r@) == Seq::<Seq<char>>::empty(),
{
    let none: Vec<String> = Vec::new();
    assert(strings(none@) =~= Seq::empty());
    none
}

fn empty_output() -> (r: String)
    ensures
        r@ == Seq::<char>::empty(),
{
    let out = String::new();
    assert(out@ =~= Seq::empty());
    out
}

/// Renders texts.
fn render_texts(kept: &Vec<&str>, o: &QueryOptions, name: &str) -> (r: Part)
    ensures
        r@ == shown_texts(texts(kept@), *o, name@),
{
    let matched = kept.len() > 0;
    let items = expand_all(kept);
    if o.json {
        if o.many {
            Part { output: empty_output(), items, matched }
        } else {
            Part { output: json_array(&items), items: no_items(), matched }
        }
    } else {
        let mut output = heading_line(o, name, matched);
        push_separated(&mut output, &items, separator_of(o));
        Part { output, items: no_items(), matched }
    }
}

/// The markup of the nodes.
fn fragments<'b>(index: &XmlIndex<'b>, nodes: &Vec<XPathNode>) -> (r: Vec<&'b str>)
    requires
        index.wf(),
        nodes_ok(*index, nodes@),
    ensures
        texts(r@) == nodes@.map_values(|n: XPathNode| fragment(*index, n)),
{
    let mut out: Vec<&'b str> = Vec::new();
    let n: usize = nodes.len();
    let mut i: usize = 0;
    while i < n
        invariant
            index.wf(),
            nodes_ok(*index, nodes@),
            n == nodes@.len(),
            i <= n,
            out@.len() == i,
            forall|j: int| 0 <= j < i ==> (#[trigger] out@[j])@ == fragment(*index, nodes@[j]),
        decreases n - i,
    {
        assert(node_ok(*index, nodes@[i as int]));
        let text: &'b str = match nodes[i] {
            XPathNode::Element(k) => index.raw_xml(k),
            XPathNode::Text(k) => index.text_by_index(k),
            XPathNode::Attribute(k, _) => index.raw_tag(k),
            XPathNode::Namespace(k, _) => index.raw_tag(k),
        };
        out.push(text);
        i += 1;
    }
    assert(texts(out@) =~= nodes@.map_values(|n: XPathNode| fragment(*index, n)));
    out
}

/// Renders selected nodes.
fn render_nodes(index: &XmlIndex, nodes: &Vec<XPathNode>, o: &QueryOptions, name: &str) -> (r: Part)
    requires
        index.wf(),
        nodes_ok(*index, nodes@),
    ensures
        r@ == shown_nodes(*index, nodes@, *o, name@),
{
    let found = nodes.len() > 0;
    if o.count {
        return Part {
            output: make_count_line(o, name, nodes.len()),
            items: no_items(),
            matched: found,
        };
    }
    if o.list {
        let mut output = empty_output();
        if found {
            output.append(name);
            output.push('\n');
        }
        assert(output@ =~= shown_nodes(*index, nodes@, *o, name@).output);
        return Part { output, items: no_items(), matched: found };
    }
    if o.raw {
        let all = fragments(index, nodes);
        let kept = keep_texts(&all, o.whitespace);
        let copies = copy_all(&kept);
        let matched = kept.len() > 0;
        let mut output = heading_line(o, name, matched);
        push_separated(&mut output, &copies, separator_of(o));
        return Part { output, items: no_items(), matched };
    }
    let all = texts_of_nodes(index, nodes);
    let kept = keep_texts(&all, o.whitespace);
    render_texts(&kept, o, name)
}

/// Renders a value.
fn render_value(text: String, is_string: bool, matched: bool, o: &QueryOptions, name: &str) -> (r: Part)
    ensures
        r@ == shown_value(text@, is_string, matched, *o, name@),
{
    let ghost t = text@;
    if o.json {
        if o.many {
            let mut items: Vec<String> = Vec::new();
            items.push(text);
            assert(strings(items@) =~= seq![t]);
            Part { output: empty_output(), items, matched }
        } else if is_string {
            let mut items: Vec<String> = Vec::new();
            items.push(text);
            assert(strings(items@) =~= seq![t]);
            Part { output: json_array(&items), items: no_items(), matched }
        } else {
            let mut output = empty_output();
            output.append(text.as_str());
            output.push('\n');
            assert(output@ =~= t + seq!['\n']);
            Part { output, items: no_items(), matched }
        }
    } else if is_string && o.count {
        Part { output: make_count_line(o, name, 1), items: no_items(), matched }
    } else {
        let mut output = heading_line(o, name, true);
        output.append(text.as_str());
        output.push(separator_of(o));
        assert(output@ =~= heading(*o, name@, true) + t + seq![separator(*o)]);
        Part { output, items: no_items(), matched }
    }
}

/// Renders a result.
pub fn render_result<F: Fn(NumberOp) -> NumberReply>(
    index: &XmlIndex,
    result: XPathResult,
    o: &QueryOptions,
    name: &str,
    f: &F,
) -> (r: Part)
    requires
        index.wf(),
        is_arithmetic(*f),
        result matches XPathResult::NodeSet(nodes) ==> nodes_ok(*index, nodes@),
    ensures
        r@ == shown_result(*index, answers(*f), result, *o, name@),
{
    match result {
        XPathResult::NodeSet(nodes) => render_nodes(index, &nodes, o, name),
        XPathResult::String(t) => {
            let matched = !t.as_str().is_empty();
            render_value(t, true, matched, o, name)
        },
        XPathResult::Number(n) => render_value(
            ask_text(f, NumberOp::Format(n)),
            false,
            true,
            o,
            name,
        ),
        XPathResult::Boolean(b) => {
            let text = if b {
                String::from_str("true")
            } else {
                String::from_str("false")
            };
            render_value(text, false, b, o, name)
        },
    }
}

/// An index of a document without lookup tables, on which expressions are
/// evaluated.
pub open spec fn plain_index(index: XmlIndex, doc: Seq<u8>) -> bool {
    &&& index.input@ == doc
    &&& index.wf()
    &&& parsed(doc) == Ok::<Doc, int>(index.doc())
    &&& index.bare()
}

/// An index of a document as results are rendered on: with the lookup tables
/// built where they fit, or without when only nodes are counted or listed.
pub open spec fn rendered_index(index: XmlIndex, doc: Seq<u8>, o: QueryOptions) -> bool {
    &&& index.input@ == doc
    &&& index.wf()
    &&& parsed(doc) == Ok::<Doc, int>(index.doc())
    &&& if o.count || o.list || !index.tables_fit() {
        index.bare()
    } else {
        index.indexed()
    }
}

/// What the text of an expression gives on a document.
pub open spec fn shows(
    source: Source,
    text: Seq<char>,
    o: QueryOptions,
    oracle: Oracle,
    shown: Shown,
) -> bool {
    exists|before: XmlIndex, after: XmlIndex, result: XPathResult|
        plain_index(before, source.data@) && rendered_index(after, source.data@, o)
            && #[trigger] results_in(before, oracle, text, Ok(result)) && shown
            == #[trigger] shown_result(after, oracle, result, o, source.name@)
}

/// The error that the text of an expression gives on a document.
pub open spec fn refuses(
    source: Source,
    text: Seq<char>,
    oracle: Oracle,
    err: SimdXmlError,
) -> bool {
    match parsed(source.data@) {
        Err(p) => err matches SimdXmlError::UnclosedTag(q) && q == p,
        Ok(_) => exists|index: XmlIndex|
            plain_index(index, source.data@) && #[trigger] results_in(
                index,
                oracle,
                text,
                Err(err),
            ),
    }
}

/// Renders the result of an expression on one document.
pub fn render_source<F: Fn(NumberOp) -> NumberReply>(
    source: &Source,
    xpath: &str,
    o: &QueryOptions,
    f: &F,
) -> (r: std::result::Result<Part, SimdXmlError>)
    requires
        is_arithmetic(*f),
    ensures
        match r {
            Ok(part) => shows(*source, xpath@, *o, answers(*f), part@),
            Err(e) => refuses(*source, xpath@, answers(*f), e),
        },
{
    let mut index = match crate::parse(source.data.as_slice()) {
        Ok(index) => index,
        Err(e) => {
            return Err(e);
        },
    };
    let ghost before = index;
    assert(plain_index(before, source.data@));
    let result = match index.eval(xpath, f) {
        Ok(result) => result,
        Err(e) => {
            return Err(e);
        },
    };
    let ghost outcome = result;
    assert(results_in(before, answers(*f), xpath@, Ok(outcome)));
    if !o.count && !o.list {
        index.ensure_indices();
    }
    assert(rendered_index(index, source.data@, *o));
    assert(outcome matches XPathResult::NodeSet(nodes) ==> nodes_ok(before, nodes@));
    proof {
        if let XPathResult::NodeSet(nodes) = outcome {
            assert forall|i: int| 0 <= i < nodes@.len() implies node_ok(
                index,
                #[trigger] nodes@[i],
            ) by {
                assert(node_ok(before, nodes@[i]));
                assert(before.doc() == index.doc());
            }
        }
    }
    Ok(render_result(&index, result, o, source.name.as_str(), f))
}

/// What rendering all documents gives: the text to print, whether there was a
/// match, and the error that ended it, if one did.
pub struct Rendered {
    pub output: String,
    pub matched: bool,
    pub error: Option<SimdXmlError>,
}

/// The text printed for the first `k` documents.
pub open spec fn outputs(parts: Seq<Shown>, k: int) -> Seq<char>
    decreases k,
{
    if k <= 0 {
        Seq::empty()
    } else {
        outputs(parts, k - 1) + parts[k - 1].output
    }
}

/// The items of the first `k` documents.
pub open spec fn all_items(parts: Seq<Shown>, k: int) -> Seq<Seq<char>>
    decreases k,
{
    if k <= 0 {
        Seq::empty()
    } else {
        all_items(parts, k - 1) + parts[k - 1].items
    }
}

/// Whether there is a match after the first `k` documents.
pub open spec fn any_match(parts: Seq<Shown>, k: int) -> bool
    decreases k,
{
    if k <= 0 {
        false
    } else {
        any_match(parts, k - 1) || parts[k - 1].matched
    }
}

/// The parts are what the expression gives on the documents, one for each.
pub open spec fn shown_parts(
    parts: Seq<Shown>,
    sources: Seq<Source>,
    text: Seq<char>,
    o: QueryOptions,
    oracle: Oracle,
) -> bool {
    &&& parts.len() <= sources.len()
    &&& forall|i: int|
        0 <= i < parts.len() ==> shows(#[trigger] sources[i], text, o, oracle, parts[i])
}

/// The outcome of rendering an expression on documents: the outputs one after
/// the other, with a JSON array over all documents at the end where one is asked
/// for; an error ends the output.
pub open spec fn renders(
    r: Rendered,
    sources: Seq<Source>,
    text: Seq<char>,
    o: QueryOptions,
    oracle: Oracle,
) -> bool {
    match parsed_xpath(text) {
        Err(message) => {
            &&& r.output@.len() == 0
            &&& !r.matched
            &&& r.error matches Some(SimdXmlError::XPathParseError(m)) && m@ == message
        },
        Ok(_) => exists|parts: Seq<Shown>| #[trigger]
            shown_parts(parts, sources, text, o, oracle) && {
                let k = parts.len() as int;
                &&& r.matched == any_match(parts, k)
                &&& match r.error {
                    Some(e) => k < sources.len() && refuses(sources[k], text, oracle, e)
                        && r.output@ == outputs(parts, k),
                    None => k == sources.len() && r.output@ == outputs(parts, k) + (if o.json
                        && o.many {
                        json_line(all_items(parts, k))
                    } else {
                        Seq::empty()
                    }),
                }
            },
    }
}

/// Appends items.
fn extend_items(all: &mut Vec<String>, more: Vec<String>)
    ensures
        strings(final(all)@) == strings(old(all)@) + strings(more@),
{
    let n: usize = more.len();
    let mut i: usize = 0;
    let ghost before = strings(all@);
    let ghost view = strings(more@);
    assert(strings(all@) =~= before + view.take(0));
    while i < n
        invariant
            n == more@.len(),
            view == strings(more@),
            i <= n,
            strings(all@) == before + view.take(i as int),
        decreases n - i,
    {
        let ghost held = strings(all@);
        assert(view[i as int] == more@[i as int]@);
        let copy = more[i].as_str().to_owned();
        all.push(copy);
        assert(strings(all@) =~= held.push(view[i as int]));
        assert(strings(all@) =~= before + view.take(i + 1));
        i += 1;
    }
    assert(view.take(n as int) =~= view);
}

/// Renders the results of an expression on each document in order. An expression
/// that cannot be parsed is refused before any document is read.
pub fn render_query<F: Fn(NumberOp) -> NumberReply>(
    xpath: &str,
    sources: &Vec<Source>,
    o: &QueryOptions,
    f: &F,
) -> (r: Rendered)
    requires
        is_arithmetic(*f),
    ensures
        renders(r, sources@, xpath@, *o, answers(*f)),
{
    match CompiledXPath::compile(xpath) {
        Ok(_) => {},
        Err(e) => {
            return Rendered { output: empty_output(), matched: false, error: Some(e) };
        },
    }
    let ghost oracle = answers(*f);
    let ghost mut parts: Seq<Shown> = Seq::empty();
    let mut output = empty_output();
    let mut items = no_items();
    let mut matched = false;
    let n: usize = sources.len();
    let mut i: usize = 0;
    while i < n
        invariant
            is_arithmetic(*f),
            parsed_xpath(xpath@) is Ok,
            oracle == answers(*f),
            n == sources@.len(),
            i <= n,
            parts.len() == i,
            shown_parts(parts, sources@, xpath@, *o, oracle),
            output@ == outputs(parts, i as int),
            strings(items@) == all_items(parts, i as int),
            matched == any_match(parts, i as int),
        decreases n - i,
    {
        match render_source(&sources[i], xpath, o, f) {
            Err(e) => {
                return Rendered { output, matched, error: Some(e) };
            },
            Ok(part) => {
                let ghost before = parts;
                proof {
                    parts = parts.push(part@);
                    lemma_parts_agree(before, parts, i as int);
                }
                output.append(part.output.as_str());
                matched = matched || part.matched;
                extend_items(&mut items, part.items);
            },
        }
        i += 1;
    }
    if o.json && o.many {
        let line = json_array(&items);
        output.append(line.as_str());
    }
    let r = Rendered { output, matched, error: None };
    proof {
        assert(outputs(parts, n as int) + Seq::<char>::empty() =~= outputs(parts, n as int));
        assert(shown_parts(parts, sources@, xpath@, *o, oracle));
    }
    r
}

/// Folds over the first `k` parts do not see the parts after them.
proof fn lemma_parts_agree(a: Seq<Shown>, b: Seq<Shown>, k: int)
    requires
        0 <= k <= a.len(),
        k <= b.len(),
        forall|i: int| 0 <= i < k ==> a[i] == b[i],
    ensures
        outputs(a, k) == outputs(b, k),
        all_items(a, k) == all_items(b, k),
        any_match(a, k) == any_match(b, k),
    decreases k,
{
    if k > 0 {
        lemma_parts_agree(a, b, k - 1);
    }
}

// Rendering a batch.

/// The slices are the data of the documents.
pub open spec fn data_of(docs: Seq<&[u8]>, sources: Seq<Source>) -> bool {
    &&& docs.len() == sources.len()
    &&& forall|i: int| 0 <= i < docs.len() ==> (#[trigger] docs[i])@ == sources[i].data@
}

/// What the texts found in document `i` give.
pub open spec fn found_part(
    sources: Seq<Source>,
    all: Seq<Vec<String>>,
    o: QueryOptions,
    i: int,
) -> Shown {
    let found = strings(all[i]@);
    shown_texts(
        kept_texts(found, o.whitespace, found.len() as int),
        QueryOptions { many: true, ..o },
        sources[i].name@,
    )
}

/// What the texts found in each document give.
pub open spec fn found_parts(
    sources: Seq<Source>,
    all: Seq<Vec<String>>,
    o: QueryOptions,
) -> Seq<Shown> {
    Seq::new(sources.len(), |i: int| found_part(sources, all, o, i))
}

/// The lines that tell the first `k` counts.
pub open spec fn count_lines(
    sources: Seq<Source>,
    counts: Seq<usize>,
    o: QueryOptions,
    k: int,
) -> Seq<char>
    decreases k,
{
    if k <= 0 {
        Seq::empty()
    } else {
        count_lines(sources, counts, o, k - 1) + count_line(
            o,
            sources[k - 1].name@,
            counts[k - 1] as int,
        )
    }
}

/// Renders the number of matches in each document.
pub fn render_counts(sources: &Vec<Source>, counts: &Vec<usize>, o: &QueryOptions) -> (r: Rendered)
    requires
        counts@.len() == sources@.len(),
    ensures
        r.output@ == count_lines(sources@, counts@, *o, counts@.len() as int),
        r.matched == exists|i: int| 0 <= i < counts@.len() && #[trigger] counts@[i] > 0,
        r.error is None,
{
    let mut output = empty_output();
    let mut matched = false;
    let n: usize = counts.len();
    let mut i: usize = 0;
    while i < n
        invariant
            n == counts@.len(),
            n == sources@.len(),
            i <= n,
            output@ == count_lines(sources@, counts@, *o, i as int),
            matched == exists|j: int| 0 <= j < i && #[trigger] counts@[j] > 0,
        decreases n - i,
    {
        let c: usize = counts[i];
        if c > 0 {
            assert(counts@[i as int] > 0);
            matched = true;
        }
        let line = make_count_line(o, sources[i].name.as_str(), c);
        output.append(line.as_str());
        i += 1;
    }
    Rendered { output, matched, error: None }
}

/// Renders the texts found in each document: as lines, or as one JSON array.
pub fn render_found(sources: &Vec<Source>, all: &Vec<Vec<String>>, o: &QueryOptions) -> (r: Rendered)
    requires
        all@.len() == sources@.len(),
    ensures
        ({
            let parts = found_parts(sources@, all@, *o);
            let k = sources@.len() as int;
            &&& r.output@ == outputs(parts, k) + (if o.json {
                json_line(all_items(parts, k))
            } else {
                Seq::empty()
            })
            &&& r.matched == any_match(parts, k)
            &&& r.error is None
        }),
{
    let ghost parts = found_parts(sources@, all@, *o);
    let options = QueryOptions { many: true, ..*o };
    let mut output = empty_output();
    let mut items = no_items();
    let mut matched = false;
    let n: usize = sources.len();
    let mut i: usize = 0;
    while i < n
        invariant
            n == sources@.len(),
            n == all@.len(),
            parts == found_parts(sources@, all@, *o),
            options == (QueryOptions { many: true, ..*o }),
            i <= n,
            output@ == outputs(parts, i as int),
            strings(items@) == all_items(parts, i as int),
            matched == any_match(parts, i as int),
        decreases n - i,
    {
        let found = borrow_all(&all[i]);
        let kept = keep_texts(&found, o.whitespace);
        let part = render_texts(&kept, &options, sources[i].name.as_str());
        assert(part@ == parts[i as int]);
        output.append(part.output.as_str());
        matched = matched || part.matched;
        extend_items(&mut items, part.items);
        i += 1;
    }
    if o.json {
        let line = json_array(&items);
        output.append(line.as_str());
    }
    assert(outputs(parts, n as int) + Seq::<char>::empty() =~= outputs(parts, n as int));
    Rendered { output, matched, error: None }
}

/// Borrows the strings.
fn borrow_all(all: &Vec<String>) -> (r: Vec<&str>)
    ensures
        texts(r@) == strings(all@),
{
    let mut out: Vec<&str> = Vec::new();
    let n: usize = all.len();
    let mut i: usize = 0;
    while i < n
        invariant
            n == all@.len(),
            i <= n,
            out@.len() == i,
            forall|j: int| 0 <= j < i ==> (#[trigger] out@[j])@ == all@[j]@,
        decreases n - i,
    {
        out.push(all[i].as_str());
        i += 1;
    }
    assert(texts(out@) =~= strings(all@));
    out
}

/// The outcome of rendering a batch of documents that the given function of the
/// batch evaluation answered for: counts, or texts.
pub open spec fn renders_batch(
    r: Rendered,
    docs: Seq<&[u8]>,
    sources: Seq<Source>,
    e: ExprV,
    o: QueryOptions,
    threads: int,
    oracle: Oracle,
) -> bool {
    if o.count {
        let plan = plain_plan();
        match r.error {
            Some(err) => r.output@.len() == 0 && !r.matched && exists|k: int| #![trigger docs[k]]
                0 <= k < docs.len() && failure(docs[k]@, plan, oracle, e, err),
            None => exists|counts: Seq<usize>|
                #![trigger count_lines(sources, counts, o, counts.len() as int)]
                counts.len() == docs.len() && (forall|i: int|
                    0 <= i < docs.len() ==> crate::batch::count_answer(
                        #[trigger] docs[i]@,
                        plan,
                        oracle,
                        e,
                        counts[i] as int,
                    )) && r.output@ == count_lines(sources, counts, o, counts.len() as int)
                    && r.matched == exists|i: int|
                    0 <= i < counts.len() && #[trigger] counts[i] > 0,
        }
    } else {
        let plan = filter_plan(e, document_threads(threads, docs.len() as int));
        match r.error {
            Some(err) => r.output@.len() == 0 && !r.matched && batch_outcome(
                docs,
                plan,
                oracle,
                e,
                Err(err),
            ),
            None => exists|all: Vec<Vec<String>>| #[trigger]
                batch_outcome(docs, plan, oracle, e, Ok(all)) && {
                    let parts = found_parts(sources, all@, o);
                    let k = sources.len() as int;
                    &&& r.output@ == outputs(parts, k) + (if o.json {
                        json_line(all_items(parts, k))
                    } else {
                        Seq::empty()
                    })
                    &&& r.matched == any_match(parts, k)
                },
        }
    }
}

/// Renders the results of a compiled expression on many documents at once.
pub fn render_batch<F: Fn(NumberOp) -> NumberReply>(
    compiled: &CompiledXPath,
    sources: &Vec<Source>,
    o: &QueryOptions,
    threads: usize,
    f: &F,
) -> (r: Rendered)
    requires
        is_arithmetic(*f),
    ensures
        exists|docs: Seq<&[u8]>| #[trigger]
            data_of(docs, sources@) && renders_batch(
                r,
                docs,
                sources@,
                expr_v(compiled.expr),
                *o,
                threads as int,
                answers(*f),
            ),
{
    let mut docs: Vec<&[u8]> = Vec::new();
    let n: usize = sources.len();
    let mut i: usize = 0;
    while i < n
        invariant
            n == sources@.len(),
            i <= n,
            docs@.len() == i,
            forall|j: int| 0 <= j < i ==> (#[trigger] docs@[j])@ == sources@[j].data@,
        decreases n - i,
    {
        docs.push(sources[i].data.as_slice());
        i += 1;
    }
    assert(data_of(docs@, sources@));
    if o.count {
        match count_batch(docs.as_slice(), compiled, f) {
            Ok(counts) => {
                let r = render_counts(sources, &counts, o);
                assert(r.output@ == count_lines(sources@, counts@, *o, counts@.len() as int));
                r
            },
            Err(e) => Rendered { output: empty_output(), matched: false, error: Some(e) },
        }
    } else {
        match eval_batch_parallel(docs.as_slice(), compiled, threads, f) {
            Ok(all) => {
                let r = render_found(sources, &all, o);
                assert(batch_outcome(
                    docs@,
                    filter_plan(
                        expr_v(compiled.expr),
                        document_threads(threads as int, docs@.len() as int),
                    ),
                    answers(*f),
                    expr_v(compiled.expr),
                    Ok(all),
                ));
                r
            },
            Err(e) => Rendered { output: empty_output(), matched: false, error: Some(e) },
        }
    }
}

} // verus!
