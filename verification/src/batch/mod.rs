//! Evaluating an expression against many documents.
//!
//! The expression is compiled once and used for all documents. Documents are skipped
//! when their tag names show that nothing can match, and for a path of names, such as
//! `//a/b`, or a union of such paths they are parsed only as far as it needs.

pub mod laws;

use vstd::prelude::*;
use vstd::utf8::*;
use crate::bloom::{covers, filter_of, name_mask, scanned_names, TagBloom};
use crate::error::SimdXmlError;
use crate::index::lazy::{parse_for_query, parsed_for, tabled_if_large};
use crate::index::outline::Doc;
use crate::index::structural::parsed;
use crate::index::XmlIndex;
use crate::name_set::NameSet;
use crate::parallel::{parse_parallel, parsed_in_chunks};
use crate::text::texts;
use crate::xpath::analyze::{
    filter_needs, goes_along_names, is_name_path, needs, selects_by_name, Needs,
};
use crate::xpath::ast::{expr_v, ExprV};
use crate::xpath::compiled::CompiledXPath;
use crate::xpath::eval::{node_texts, unsupported};
use crate::xpath::numbers::{answers, is_arithmetic, strings, NumberOp, NumberReply, Oracle};
use crate::xpath::semantics::query;

verus! {

/// Size threshold for parsing a document in chunks.
pub const LARGE_DOC_THRESHOLD: usize = 262144;

/// How documents are treated: which tags are indexed, which names a document needs
/// some of so as not to be skipped (all tags when none is), and the number of threads
/// for which large documents are parsed in chunks (0 when they are not).
pub struct Plan {
    pub needs: Needs,
    pub filter: Needs,
    pub threads: int,
}

/// Documents are indexed whole, one by one, and none is skipped.
pub open spec fn plain_plan() -> Plan {
    Plan { needs: everything(), filter: everything(), threads: 0 }
}

/// Only what an expression needs is indexed.
pub open spec fn lazy_plan(e: ExprV) -> Plan {
    Plan { needs: plan_needs(e), filter: everything(), threads: 0 }
}

/// Only what an expression needs is indexed, and documents in which it can select
/// nothing are skipped. Large documents are parsed in chunks when there are threads.
pub open spec fn filter_plan(e: ExprV, threads: int) -> Plan {
    Plan { needs: plan_needs(e), filter: filter_needs(e), threads }
}

/// All tags are needed.
pub open spec fn everything() -> Needs {
    Needs { names: Set::empty(), all: true }
}

/// Whether a document is parsed in chunks.
pub open spec fn is_chunked(doc: Seq<u8>, plan: Plan) -> bool {
    plan.threads > 0 && doc.len() >= LARGE_DOC_THRESHOLD
}

/// The document arrays that a plan yields, or the position of the tag that the
/// input ended in.
pub open spec fn yields(doc: Seq<u8>, plan: Plan) -> std::result::Result<Doc, int> {
    if is_chunked(doc, plan) {
        parsed_in_chunks(doc, plan.threads)
    } else if plan.needs.all {
        parsed(doc)
    } else {
        parsed_for(doc, plan.needs.names)
    }
}

/// An index of a document made by a plan: its arrays, and the lookup tables that
/// come with them.
pub open spec fn indexes(index: XmlIndex, doc: Seq<u8>, plan: Plan) -> bool {
    &&& index.input@ == doc
    &&& index.wf()
    &&& yields(doc, plan) == Ok::<Doc, int>(index.doc())
    &&& if is_chunked(doc, plan) || plan.needs.all || plan.needs.names == Set::<Seq<char>>::empty() {
        index.bare()
    } else {
        tabled_if_large(index)
    }
}

/// Whether the needed names rule a document out: there are some, and none of
/// them might be in the filter of its tag names.
pub open spec fn ruled_out(doc: Seq<u8>, n: Needs) -> bool {
    &&& !n.all
    &&& n.names != Set::<Seq<char>>::empty()
    &&& forall|name: Seq<char>|
        #[trigger] n.names.contains(name) ==> !covers(
            filter_of(scanned_names(doc, 0)),
            name_mask(encode_utf8(name)),
        )
}

/// The texts are what the expression gives on the document: none when it is
/// skipped.
pub open spec fn text_answer(
    doc: Seq<u8>,
    plan: Plan,
    o: Oracle,
    e: ExprV,
    found: Seq<Seq<char>>,
) -> bool {
    if ruled_out(doc, plan.filter) {
        found.len() == 0
    } else {
        exists|index: XmlIndex|
            #[trigger] indexes(index, doc, plan) && (query(index, o, e) matches Some(nodes)
                && found == node_texts(index, nodes, nodes.len() as int))
    }
}

/// The number is how many nodes the expression selects on the document.
pub open spec fn count_answer(doc: Seq<u8>, plan: Plan, o: Oracle, e: ExprV, found: int) -> bool {
    exists|index: XmlIndex|
        #[trigger] indexes(index, doc, plan) && (query(index, o, e) matches Some(nodes) && found
            == nodes.len())
}

/// The error is the one that evaluating the expression on the document gives:
/// the input ends inside a tag, or the expression is no query.
pub open spec fn failure(doc: Seq<u8>, plan: Plan, o: Oracle, e: ExprV, err: SimdXmlError) -> bool {
    &&& !ruled_out(doc, plan.filter)
    &&& match yields(doc, plan) {
        Err(p) => err matches SimdXmlError::UnclosedTag(q) && q == p,
        Ok(_) => (err matches SimdXmlError::XPathEvalError(m) && m@ == unsupported()) && exists|
            index: XmlIndex,
        | #[trigger] indexes(index, doc, plan) && query(index, o, e) is None,
    }
}

/// Whether there are texts that the expression gives on the document.
pub open spec fn answerable(doc: Seq<u8>, plan: Plan, o: Oracle, e: ExprV) -> bool {
    exists|found: Seq<Seq<char>>| text_answer(doc, plan, o, e, found)
}

/// Whether there is a number of nodes that the expression selects.
pub open spec fn countable(doc: Seq<u8>, plan: Plan, o: Oracle, e: ExprV) -> bool {
    exists|found: int| count_answer(doc, plan, o, e, found)
}

/// Document `k` is the first that gives an error.
pub open spec fn first_failure(
    docs: Seq<&[u8]>,
    plan: Plan,
    o: Oracle,
    e: ExprV,
    err: SimdXmlError,
    k: int,
) -> bool {
    &&& 0 <= k < docs.len()
    &&& failure(docs[k]@, plan, o, e, err)
    &&& forall|i: int| 0 <= i < k ==> answerable(#[trigger] docs[i]@, plan, o, e)
}

/// The outcome of evaluating an expression against documents: the texts of each
/// document, or the error of the first document that gives one.
pub open spec fn batch_outcome(
    docs: Seq<&[u8]>,
    plan: Plan,
    o: Oracle,
    e: ExprV,
    r: std::result::Result<Vec<Vec<String>>, SimdXmlError>,
) -> bool {
    match r {
        Ok(all) => all@.len() == docs.len() && forall|i: int|
            0 <= i < docs.len() ==> text_answer(
                #[trigger] docs[i]@,
                plan,
                o,
                e,
                strings(all@[i]@),
            ),
        Err(err) => exists|k: int| #[trigger] first_failure(docs, plan, o, e, err, k),
    }
}

/// Whether the names are those that are needed.
pub open spec fn tells(names: Option<NameSet>, n: Needs) -> bool {
    match names {
        Some(set) => !n.all && set@ == n.names,
        None => n.all && n.names == Set::<Seq<char>>::empty(),
    }
}

/// Owned copies of texts.
fn owned(found: &Vec<&str>) -> (r: Vec<String>)
    ensures
        strings(r@) == texts(found@),
{
    let mut out: Vec<String> = Vec::new();
    let n: usize = found.len();
    let mut i: usize = 0;
    while i < n
        invariant
            n == found@.len(),
            i <= n,
            out@.len() == i,
            forall|j: int| 0 <= j < i ==> (#[trigger] out@[j])@ == found@[j]@,
        decreases n - i,
    {
        out.push(found[i].to_owned());
        i += 1;
    }
    assert(strings(out@) =~= texts(found@));
    out
}

/// Indexes a document: in chunks when it is large and there are threads, and
/// else as far as the names ask for.
fn index_document<'a>(doc: &'a [u8], names: &Option<NameSet>, threads: usize, Ghost(plan): Ghost<
    Plan,
>) -> (r: std::result::Result<XmlIndex<'a>, SimdXmlError>)
    requires
        names is None ==> plan.needs.all,
        names is Some ==> tells(*names, plan.needs),
        threads == plan.threads,
    ensures
        match r {
            Ok(index) => indexes(index, doc@, plan),
            Err(e) => yields(doc@, plan) matches Err(p) && (
            e matches SimdXmlError::UnclosedTag(q) && q == p),
        },
{
    if threads > 0 && doc.len() >= LARGE_DOC_THRESHOLD {
        return match parse_parallel(doc, threads) {
            Ok(found) => {
                let mut index = found;
                index.close_map = Vec::new();
                index.post_order = Vec::new();
                Ok(index)
            },
            Err(e) => Err(e),
        };
    }
    match names {
        Some(set) => parse_for_query(doc, set),
        None => crate::parse(doc),
    }
}

/// Whether any of the names might be in the filter.
fn may_hold_any(bloom: &TagBloom, names: &NameSet) -> (r: bool)
    ensures
        r == exists|name: Seq<char>|
            names@.contains(name) && covers(bloom.0, name_mask(#[trigger] encode_utf8(name))),
{
    let mut wanted: Vec<&[u8]> = Vec::new();
    let n: usize = names.names.len();
    let mut i: usize = 0;
    let ghost view = strings(names.names@);
    while i < n
        invariant
            n == names.names@.len(),
            view == strings(names.names@),
            i <= n,
            wanted@.len() == i,
            forall|j: int| 0 <= j < i ==> #[trigger] wanted@[j]@ == encode_utf8(view[j]),
        decreases n - i,
    {
        assert(view[i as int] == names.names@[i as int]@);
        wanted.push(names.names[i].as_str().as_bytes());
        i += 1;
    }
    let r = bloom.may_contain_any(wanted.as_slice());
    proof {
        if r {
            let j = choose|j: int|
                0 <= j < wanted@.len() && covers(bloom.0, name_mask(#[trigger] wanted@[j]@));
            assert(names@.contains(view[j]));
            assert(covers(bloom.0, name_mask(encode_utf8(view[j]))));
        } else {
            assert forall|name: Seq<char>| names@.contains(name) implies !covers(
                bloom.0,
                name_mask(#[trigger] encode_utf8(name)),
            ) by {
                let j = choose|j: int| 0 <= j < view.len() && view[j] == name;
                assert(!covers(bloom.0, name_mask(wanted@[j]@)));
            }
        }
    }
    r
}

/// Whether a document can be skipped: see `ruled_out`.
fn can_skip(doc: &[u8], names: &Option<NameSet>, Ghost(n): Ghost<Needs>) -> (r: bool)
    requires
        names is None ==> n.all,
        names is Some ==> tells(*names, n),
    ensures
        r == ruled_out(doc@, n),
{
    match names {
        Some(set) => {
            if set.is_empty() {
                return false;
            }
            let bloom = TagBloom::from_prescan(doc);
            !may_hold_any(&bloom, set)
        },
        None => false,
    }
}

/// The plan that two optional sets of names and a number of threads stand for.
pub open spec fn plan_of(names: Option<NameSet>, filter: Option<NameSet>, threads: int) -> Plan {
    Plan { needs: needs_of(names), filter: needs_of(filter), threads }
}

/// What an optional set of names stands for: these names, or all tags.
pub open spec fn needs_of(names: Option<NameSet>) -> Needs {
    match names {
        Some(set) => Needs { names: set@, all: false },
        None => everything(),
    }
}

/// Evaluates an expression against one document. A document that has none of the
/// names of `filter` gives no texts without being parsed; with `threads`, a large
/// document is parsed in chunks.
pub fn eval_document<F: Fn(NumberOp) -> NumberReply>(
    doc: &[u8],
    xpath: &CompiledXPath,
    names: &Option<NameSet>,
    filter: &Option<NameSet>,
    threads: usize,
    f: &F,
) -> (r: std::result::Result<Vec<String>, SimdXmlError>)
    requires
        is_arithmetic(*f),
    ensures
        ({
            let plan = plan_of(*names, *filter, threads as int);
            match r {
                Ok(found) => text_answer(
                    doc@,
                    plan,
                    answers(*f),
                    expr_v(xpath.expr),
                    strings(found@),
                ),
                Err(e) => failure(doc@, plan, answers(*f), expr_v(xpath.expr), e),
            }
        }),
{
    let ghost plan = plan_of(*names, *filter, threads as int);
    if can_skip(doc, filter, Ghost(plan.filter)) {
        let none: Vec<String> = Vec::new();
        assert(strings(none@).len() == 0);
        return Ok(none);
    }
    let index = match index_document(doc, names, threads, Ghost(plan)) {
        Ok(index) => index,
        Err(e) => {
            return Err(e);
        },
    };
    assert(indexes(index, doc@, plan));
    match xpath.eval_text(&index, f) {
        Ok(found) => Ok(owned(&found)),
        Err(e) => Err(e),
    }
}

/// Evaluates an expression against each document in order, up to the first
/// error.
fn eval_documents<F: Fn(NumberOp) -> NumberReply>(
    docs: &[&[u8]],
    xpath: &CompiledXPath,
    names: &Option<NameSet>,
    filter: &Option<NameSet>,
    threads: usize,
    f: &F,
) -> (r: std::result::Result<Vec<Vec<String>>, SimdXmlError>)
    requires
        is_arithmetic(*f),
    ensures
        ({
            let plan = plan_of(*names, *filter, threads as int);
            batch_outcome(docs@, plan, answers(*f), expr_v(xpath.expr), r)
        }),
{
    let ghost plan = plan_of(*names, *filter, threads as int);
    let ghost o = answers(*f);
    let ghost e = expr_v(xpath.expr);
    let n: usize = docs.len();
    let mut all: Vec<Vec<String>> = Vec::new();
    let mut i: usize = 0;
    while i < n
        invariant
            is_arithmetic(*f),
            o == answers(*f),
            e == expr_v(xpath.expr),
            plan == (plan_of(*names, *filter, threads as int)),
            n == docs@.len(),
            i <= n,
            all@.len() == i,
            forall|j: int|
                0 <= j < i ==> text_answer(
                    #[trigger] docs@[j]@,
                    plan,
                    o,
                    e,
                    strings(all@[j]@),
                ),
        decreases n - i,
    {
        match eval_document(docs[i], xpath, names, filter, threads, f) {
            Ok(found) => all.push(found),
            Err(err) => {
                proof {
                    assert forall|j: int| 0 <= j < i implies answerable(
                        #[trigger] docs@[j]@,
                        plan,
                        o,
                        e,
                    ) by {
                        assert(text_answer(docs@[j]@, plan, o, e, strings(all@[j]@)));
                    }
                    assert(first_failure(docs@, plan, o, e, err, i as int));
                }
                return Err(err);
            },
        }
        i += 1;
    }
    Ok(all)
}

/// Evaluates an expression against documents; the texts are grouped by document.
pub fn eval_batch_text<F: Fn(NumberOp) -> NumberReply>(
    docs: &[&[u8]],
    xpath: &CompiledXPath,
    f: &F,
) -> (r: std::result::Result<Vec<Vec<String>>, SimdXmlError>)
    requires
        is_arithmetic(*f),
    ensures
        batch_outcome(
            docs@,
            plain_plan(),
            answers(*f),
            expr_v(xpath.expr),
            r,
        ),
{
    eval_documents(docs, xpath, &None, &None, 0, f)
}

/// What is indexed for an expression: for a path of names, or a union of such paths,
/// the elements of these names, for any other expression all tags.
pub open spec fn plan_needs(e: ExprV) -> Needs {
    if is_name_path(e) && !needs(e).all {
        needs(e)
    } else {
        everything()
    }
}

/// The names to index for an expression: see `plan_needs`.
pub fn sought_names(xpath: &CompiledXPath) -> (r: Option<NameSet>)
    ensures
        r matches Some(set) ==> set.wf(),
        needs_of(r) == plan_needs(expr_v(xpath.expr)),
{
    if goes_along_names(&xpath.expr) {
        xpath.interesting_names()
    } else {
        None
    }
}

/// The names that decide whether a document is skipped: see `filter_needs`.
pub fn filter_names(xpath: &CompiledXPath) -> (r: Option<NameSet>)
    ensures
        r matches Some(set) ==> set.wf(),
        needs_of(r) == filter_needs(expr_v(xpath.expr)),
{
    if selects_by_name(&xpath.expr) {
        xpath.interesting_names()
    } else {
        None
    }
}

/// Evaluates an expression against documents. For a path of names or a union of such
/// paths, only the elements of these names, their ancestors and their texts are
/// indexed.
pub fn eval_batch_text_lazy<F: Fn(NumberOp) -> NumberReply>(
    docs: &[&[u8]],
    xpath: &CompiledXPath,
    f: &F,
) -> (r: std::result::Result<Vec<Vec<String>>, SimdXmlError>)
    requires
        is_arithmetic(*f),
    ensures
        batch_outcome(
            docs@,
            lazy_plan(expr_v(xpath.expr)),
            answers(*f),
            expr_v(xpath.expr),
            r,
        ),
{
    let names = sought_names(xpath);
    eval_documents(docs, xpath, &names, &None, 0, f)
}

/// Evaluates an expression against documents. Where it goes by the names of elements,
/// documents that have none of the names that it needs are skipped: those get no
/// texts, without being parsed. For a path of names or a union of such paths, only the
/// elements of these names are indexed.
pub fn eval_batch_text_bloom<F: Fn(NumberOp) -> NumberReply>(
    docs: &[&[u8]],
    xpath: &CompiledXPath,
    f: &F,
) -> (r: std::result::Result<Vec<Vec<String>>, SimdXmlError>)
    requires
        is_arithmetic(*f),
    ensures
        batch_outcome(
            docs@,
            filter_plan(expr_v(xpath.expr), 0),
            answers(*f),
            expr_v(xpath.expr),
            r,
        ),
{
    let names = sought_names(xpath);
    let filter = filter_names(xpath);
    eval_documents(docs, xpath, &names, &filter, 0, f)
}

/// The number of threads for each large document when documents are evaluated
/// side by side: an equal share, but at least 2.
pub open spec fn document_threads(max_threads: int, docs: int) -> int {
    let most = if max_threads >= 1 {
        max_threads
    } else {
        1
    };
    let together = if most <= docs {
        most
    } else {
        docs
    };
    if most / together >= 2 {
        most / together
    } else {
        2
    }
}

/// The number of threads for each large document: see `document_threads`.
pub fn threads_per_document(max_threads: usize, docs: usize) -> (r: usize)
    requires
        docs > 0,
    ensures
        r == document_threads(max_threads as int, docs as int),
        r >= 2,
{
    let most: usize = if max_threads >= 1 {
        max_threads
    } else {
        1
    };
    let together: usize = if most <= docs {
        most
    } else {
        docs
    };
    let share: usize = most / together;
    if share >= 2 {
        share
    } else {
        2
    }
}

/// Evaluates an expression against documents, parsing large documents in chunks for
/// their share of the threads. Where it goes by the names of elements, documents that
/// have none of the names that it needs are skipped. For a path of names or a union of
/// such paths, only the elements of these names are indexed in smaller documents.
pub fn eval_batch_parallel<F: Fn(NumberOp) -> NumberReply>(
    docs: &[&[u8]],
    xpath: &CompiledXPath,
    max_threads: usize,
    f: &F,
) -> (r: std::result::Result<Vec<Vec<String>>, SimdXmlError>)
    requires
        is_arithmetic(*f),
    ensures
        batch_outcome(
            docs@,
            filter_plan(
                expr_v(xpath.expr),
                document_threads(max_threads as int, docs@.len() as int),
            ),
            answers(*f),
            expr_v(xpath.expr),
            r,
        ),
{
    if docs.len() == 0 {
        return Ok(Vec::new());
    }
    let names = sought_names(xpath);
    let filter = filter_names(xpath);
    let threads: usize = threads_per_document(max_threads, docs.len());
    eval_documents(docs, xpath, &names, &filter, threads, f)
}

/// Counts the nodes that an expression selects in each document. Fails with the
/// error of the first document that gives one.
pub fn count_batch<F: Fn(NumberOp) -> NumberReply>(docs: &[&[u8]], xpath: &CompiledXPath, f: &F) -> (r:
    std::result::Result<Vec<usize>, SimdXmlError>)
    requires
        is_arithmetic(*f),
    ensures
        ({
            let plan = plain_plan();
            match r {
                Ok(all) => all@.len() == docs@.len() && forall|i: int|
                    0 <= i < docs@.len() ==> count_answer(
                        #[trigger] docs@[i]@,
                        plan,
                        answers(*f),
                        expr_v(xpath.expr),
                        all@[i] as int,
                    ),
                Err(err) => exists|k: int| #![trigger docs@[k]]
                    0 <= k < docs@.len() && failure(
                        docs@[k]@,
                        plan,
                        answers(*f),
                        expr_v(xpath.expr),
                        err,
                    ) && forall|i: int|
                        0 <= i < k ==> countable(
                            #[trigger] docs@[i]@,
                            plan,
                            answers(*f),
                            expr_v(xpath.expr),
                        ),
            }
        }),
{
    let ghost plan = plain_plan();
    let ghost o = answers(*f);
    let ghost e = expr_v(xpath.expr);
    let n: usize = docs.len();
    let mut counts: Vec<usize> = Vec::new();
    let mut i: usize = 0;
    while i < n
        invariant
            is_arithmetic(*f),
            o == answers(*f),
            e == expr_v(xpath.expr),
            plan == plain_plan(),
            n == docs@.len(),
            i <= n,
            counts@.len() == i,
            forall|j: int|
                0 <= j < i ==> count_answer(
                    #[trigger] docs@[j]@,
                    plan,
                    o,
                    e,
                    counts@[j] as int,
                ),
        decreases n - i,
    {
        proof {
            assert forall|j: int| 0 <= j < i implies countable(
                #[trigger] docs@[j]@,
                plan,
                o,
                e,
            ) by {
                assert(count_answer(docs@[j]@, plan, o, e, counts@[j] as int));
            }
        }
        let index = match crate::parse(docs[i]) {
            Ok(index) => index,
            Err(err) => {
                assert(failure(docs@[i as int]@, plan, o, e, err));
                return Err(err);
            },
        };
        assert(indexes(index, docs@[i as int]@, plan));
        match xpath.eval(&index, f) {
            Ok(nodes) => counts.push(nodes.len()),
            Err(err) => {
                assert(failure(docs@[i as int]@, plan, o, e, err));
                return Err(err);
            },
        }
        i += 1;
    }
    Ok(counts)
}

} // verus!
