//! Ways to evaluate a batch that make no difference to its answers.

use vstd::prelude::*;
use vstd::utf8::*;
use crate::batch::{
    Plan, batch_outcome, count_answer, everything, failure, first_failure, indexes, is_chunked,
    plain_plan, plan_needs, ruled_out, text_answer, yields,
};
use crate::bloom::ends_scanned_name;
use crate::bloom::laws::lemma_prescan_covers;
use crate::error::SimdXmlError;
use crate::index::access::is_element;
use crate::index::outline::Doc;
use crate::index::structural::parsed;
use crate::index::XmlIndex;
use crate::parallel::equivalence::{all_closed, lemma_lenient_scan, lemma_threads_do_not_matter};
use crate::xpath::analyze::{filter_needs, needs};
use crate::xpath::ast::{ExprV, StepV};
use crate::xpath::eval::node_texts;
use crate::xpath::lazy_laws::names_fit;
use crate::xpath::lazy_path_laws::lemma_lazy_texts;
use crate::xpath::lazy_text_laws::{beside, is_matched};
use crate::xpath::name_laws::{
    all_absent, is_absent, lemma_absent_names_select_nothing, names_complete,
};
use crate::xpath::numbers::{strings, Oracle};
use crate::xpath::semantics::{in_context, query, query_parts};
use crate::xpath::semantics_unfold::{unfold_query, unfold_query_parts};
use crate::xpath::nodes::{DOC_ROOT, XPathNode};
use crate::xpath::step_laws::{lemma_absolute_paths};

verus! {

/// Every named element of a document has a name that a prescan reads as a whole:
/// it is followed by a byte that ends a scanned name.
pub open spec fn is_scannable(s: Seq<u8>, d: Doc) -> bool {
    forall|i: int|
        #![trigger d.types[i]]
        0 <= i < d.types.len() && is_element(d.types[i]) && d.names[i].1 > 0 ==> ends_scanned_name()(
            s[d.names[i].0 + d.names[i].1],
        )
}

/// A document that is ruled out has no element with a needed name.
pub proof fn lemma_ruled_out(doc: Seq<u8>, e: ExprV, index: XmlIndex)
    requires
        parsed(doc) == Ok::<Doc, int>(index.doc()),
        doc.len() <= u64::MAX,
        index.input@ == doc,
        index.wf(),
        is_scannable(doc, index.doc()),
        ruled_out(doc, needs(e)),
    ensures
        forall|name: Seq<char>|
            #[trigger] needs(e).names.contains(name) && name.len() > 0 ==> is_absent(index, name),
{
    let d = index.doc();
    assert forall|name: Seq<char>|
        #[trigger] needs(e).names.contains(name) && name.len() > 0 implies is_absent(index, name) by {
        assert forall|i: int|
            0 <= i < index.tags() && #[trigger] index.element(i) implies index.name_bytes(i)
            != encode_utf8(name) by {
            assert(is_element(d.types[i]));
            assert(d.names[i] == index.tag_names@[i]);
            if index.name_bytes(i) == encode_utf8(name) {
                encode_utf8_decode_utf8(name);
                if d.names[i].1 == 0 {
                    assert(index.name_bytes(i) =~= Seq::<u8>::empty());
                    encode_utf8_decode_utf8(Seq::<char>::empty());
                    assert(encode_utf8(Seq::<char>::empty()) =~= Seq::<u8>::empty());
                }
                lemma_prescan_covers(doc, d, i);
            }
        }
    }
}

/// Chunks make no difference: on a document whose constructs are all closed, and
/// which neither plan skips, the answers to an expression that needs all tags are the
/// same whatever the number of threads.
pub proof fn lemma_threads_give_same_answers(
    doc: Seq<u8>,
    plan: Plan,
    other: Plan,
    o: Oracle,
    e: ExprV,
    found: Seq<Seq<char>>,
)
    requires
        doc.len() <= u64::MAX,
        all_closed(doc, 0),
        plan.needs.all,
        other.needs.all,
        !ruled_out(doc, plan.filter),
        !ruled_out(doc, other.filter),
    ensures
        text_answer(doc, plan, o, e, found) == text_answer(doc, other, o, e, found),
        yields(doc, plan) == yields(doc, other),
{
    lemma_threads_do_not_matter(doc, plan.threads);
    lemma_threads_do_not_matter(doc, other.threads);
    assert forall|index: XmlIndex| #[trigger] indexes(index, doc, plan) == indexes(
        index,
        doc,
        other,
    ) by {}
    if text_answer(doc, plan, o, e, found) {
        let index = choose|index: XmlIndex|
            #[trigger] indexes(index, doc, plan) && (query(index, o, e) matches Some(nodes)
                && found == node_texts(index, nodes, nodes.len() as int));
        assert(indexes(index, doc, other));
    }
    if text_answer(doc, other, o, e, found) {
        let index = choose|index: XmlIndex|
            #[trigger] indexes(index, doc, other) && (query(index, o, e) matches Some(nodes)
                && found == node_texts(index, nodes, nodes.len() as int));
        assert(indexes(index, doc, plan));
    }
}

/// A query that goes by the names of elements selects nothing on a document that
/// is ruled out: what a batch reports for a skipped document is what it would find
/// by parsing it.
pub proof fn lemma_skipping_is_sound(doc: Seq<u8>, plan: Plan, o: Oracle, e: ExprV, index: XmlIndex)
    requires
        parsed(doc) == Ok::<Doc, int>(index.doc()),
        doc.len() <= u64::MAX,
        index.input@ == doc,
        index.wf(),
        names_complete(index),
        is_scannable(doc, index.doc()),
        plan.filter == filter_needs(e),
        ruled_out(doc, plan.filter),
        forall|name: Seq<char>| #[trigger] needs(e).names.contains(name) ==> name.len() > 0,
        query(index, o, e) is Some,
    ensures
        ({
            let nodes = query(index, o, e)->0;
            text_answer(doc, plan, o, e, node_texts(index, nodes, nodes.len() as int))
        }),
        query(index, o, e)->0.len() == 0,
{
    lemma_ruled_out(doc, e, index);
    assert(all_absent(index, needs(e).names));
    lemma_absent_names_select_nothing(index, o, e);
}

/// Every way to evaluate a batch gives the answers that indexing each document as a
/// whole gives: indexing only what a path of names needs, skipping documents that cannot
/// match, and parsing in chunks for any number of threads. In the document all
/// constructs are closed, every open tag has a close tag of the same name, no name is
/// longer than 65535 bytes, and fewer than 65536 tags are open at once.
pub proof fn lemma_batches_agree(
    doc: Seq<u8>,
    plan: Plan,
    o: Oracle,
    e: ExprV,
    found: Seq<Seq<char>>,
    full: XmlIndex,
)
    requires
        doc.len() <= u64::MAX,
        all_closed(doc, 0),
        names_fit(doc),
        plan.needs == plan_needs(e),
        plan.filter == filter_needs(e) || plan.filter == everything(),
        forall|name: Seq<char>| #[trigger] needs(e).names.contains(name) ==> name.len() > 0,
        indexes(full, doc, plain_plan()),
        full.tables_fit(),
        is_matched(full),
        is_scannable(doc, full.doc()),
        query(full, o, e) is Some,
        text_answer(doc, plan, o, e, found),
    ensures
        text_answer(doc, plain_plan(), o, e, found),
{
    let all = query(full, o, e)->0;
    if ruled_out(doc, plan.filter) {
        lemma_skipping_is_sound(doc, plan, o, e, full);
        assert(found =~= node_texts(full, all, all.len() as int));
        assert(indexes(full, doc, plain_plan()));
    } else if plan.needs.all {
        lemma_threads_give_same_answers(doc, plan, plain_plan(), o, e, found);
    } else {
        let index = choose|index: XmlIndex|
            #[trigger] indexes(index, doc, plan) && (query(index, o, e) matches Some(nodes)
                && found == node_texts(index, nodes, nodes.len() as int));
        if is_chunked(doc, plan) {
            lemma_threads_do_not_matter(doc, plan.threads);
            assert(indexes(index, doc, plain_plan()));
        } else if plan.needs.names == Set::<Seq<char>>::empty() {
            assert(indexes(index, doc, plain_plan()));
        } else {
            lemma_lazy_answer(doc, plan, o, e, index, full);
            assert(indexes(full, doc, plain_plan()));
        }
    }
}

/// An index that holds only what a path of names needs gives the texts of the whole.
proof fn lemma_lazy_answer(
    doc: Seq<u8>,
    plan: Plan,
    o: Oracle,
    e: ExprV,
    index: XmlIndex,
    full: XmlIndex,
)
    requires
        doc.len() <= u64::MAX,
        all_closed(doc, 0),
        names_fit(doc),
        plan.needs == plan_needs(e),
        !plan.needs.all,
        plan.needs.names != Set::<Seq<char>>::empty(),
        !is_chunked(doc, plan),
        indexes(index, doc, plan),
        indexes(full, doc, plain_plan()),
        full.tables_fit(),
        is_matched(full),
    ensures
        query(index, o, e) matches Some(few) && query(full, o, e) matches Some(all) && node_texts(
            index,
            few,
            few.len() as int,
        ) == node_texts(full, all, all.len() as int),
{
    let names = plan.needs.names;
    lemma_lenient_scan(doc);
    assert(beside(doc, names, index, full)) by {
        reveal(beside);
    }
    lemma_lazy_texts(doc, names, o, e, index, full);
}

/// A document on which all ways to evaluate a batch agree, indexed as a whole: its
/// constructs are closed, every open tag has a close tag of the same name, names fit,
/// and a prescan reads the names of its elements.
pub open spec fn is_proper(doc: Seq<u8>, full: XmlIndex) -> bool {
    &&& doc.len() <= u64::MAX
    &&& all_closed(doc, 0)
    &&& names_fit(doc)
    &&& indexes(full, doc, plain_plan())
    &&& full.tables_fit()
    &&& is_matched(full)
    &&& is_scannable(doc, full.doc())
}

/// A proper document on which the expression is a query.
pub open spec fn is_answered(doc: Seq<u8>, o: Oracle, e: ExprV) -> bool {
    exists|full: XmlIndex| #[trigger] is_proper(doc, full) && query(full, o, e) is Some
}

/// Whether an expression is a query does not depend on the document.
proof fn lemma_query_kind(a: XmlIndex, b: XmlIndex, o: Oracle, e: ExprV)
    ensures
        query(a, o, e) is Some <==> query(b, o, e) is Some,
    decreases e, 1int, 0int,
{
    unfold_query(a, o, e);
    unfold_query(b, o, e);
    match e {
        ExprV::Union(parts) => {
            assert(decreases_to!(e => parts));
            lemma_query_parts_kind(a, b, o, parts, parts.len());
        },
        ExprV::FilterPath(inner, _) => {
            lemma_query_kind(a, b, o, *inner);
        },
        ExprV::GlobalFilter(inner, _) => {
            lemma_query_kind(a, b, o, *inner);
        },
        _ => {},
    }
}

proof fn lemma_query_parts_kind(a: XmlIndex, b: XmlIndex, o: Oracle, parts: Seq<ExprV>, k: nat)
    requires
        k <= parts.len(),
    ensures
        query_parts(a, o, parts, k as int) is Some <==> query_parts(b, o, parts, k as int) is Some,
    decreases parts, 2int, k,
{
    unfold_query_parts(a, o, parts, k as int);
    unfold_query_parts(b, o, parts, k as int);
    if k > 0 {
        lemma_query_parts_kind(a, b, o, parts, (k - 1) as nat);
        assert(decreases_to!(parts => parts[k - 1]));
        lemma_query_kind(a, b, o, parts[k - 1]);
    }
}

/// No way to evaluate a query fails on a proper document.
proof fn lemma_no_failure(
    doc: Seq<u8>,
    plan: Plan,
    o: Oracle,
    e: ExprV,
    err: SimdXmlError,
    full: XmlIndex,
)
    requires
        is_proper(doc, full),
        query(full, o, e) is Some,
    ensures
        !failure(doc, plan, o, e, err),
{
    lemma_threads_do_not_matter(doc, plan.threads);
    lemma_lenient_scan(doc);
    if failure(doc, plan, o, e, err) {
        if yields(doc, plan) is Ok {
            let index = choose|index: XmlIndex|
                #[trigger] indexes(index, doc, plan) && query(index, o, e) is None;
            lemma_query_kind(index, full, o, e);
        }
    }
}

/// Every way to evaluate a batch succeeds where indexing each document as a whole
/// does, and its outcome is an outcome of that: one list for each document, in the
/// order of the documents, with the same texts in the same order. The number of
/// threads makes no difference, and neither do indexing only what paths of names need and
/// skipping documents.
pub proof fn lemma_batch_outcomes_agree(
    docs: Seq<&[u8]>,
    plan: Plan,
    o: Oracle,
    e: ExprV,
    r: std::result::Result<Vec<Vec<String>>, SimdXmlError>,
)
    requires
        forall|i: int| 0 <= i < docs.len() ==> is_answered(#[trigger] docs[i]@, o, e),
        plan.needs == plan_needs(e),
        plan.filter == filter_needs(e) || plan.filter == everything(),
        forall|name: Seq<char>| #[trigger] needs(e).names.contains(name) ==> name.len() > 0,
        batch_outcome(docs, plan, o, e, r),
    ensures
        r is Ok,
        batch_outcome(docs, plain_plan(), o, e, r),
{
    match r {
        Ok(all) => {
            assert forall|i: int| 0 <= i < docs.len() implies text_answer(
                #[trigger] docs[i]@,
                plain_plan(),
                o,
                e,
                strings(all@[i]@),
            ) by {
                let doc = docs[i]@;
                assert(is_answered(doc, o, e));
                let full = choose|full: XmlIndex|
                    #[trigger] is_proper(doc, full) && query(full, o, e) is Some;
                assert(text_answer(doc, plan, o, e, strings(all@[i]@)));
                lemma_batches_agree(doc, plan, o, e, strings(all@[i]@), full);
            }
        },
        Err(err) => {
            let k = choose|k: int| #[trigger] first_failure(docs, plan, o, e, err, k);
            let doc = docs[k]@;
            assert(is_answered(doc, o, e));
            let full = choose|full: XmlIndex|
                #[trigger] is_proper(doc, full) && query(full, o, e) is Some;
            lemma_no_failure(doc, plan, o, e, err, full);
        },
    }
}

/// The number that a batch tells for an absolute path is how many nodes it selects from
/// the document root.
pub proof fn lemma_counts_of_paths(doc: Seq<u8>, plan: Plan, o: Oracle, steps: Seq<StepV>, n: int)
    requires
        count_answer(doc, plan, o, ExprV::Path(true, steps), n),
    ensures
        exists|index: XmlIndex| #[trigger]
            indexes(index, doc, plan) && in_context(
                index,
                o,
                ExprV::Path(true, steps),
                XPathNode::Element(DOC_ROOT),
            ).len() == n,
{
    let e = ExprV::Path(true, steps);
    let root = XPathNode::Element(DOC_ROOT);
    let index = choose|index: XmlIndex| #[trigger]
        indexes(index, doc, plan) && (query(index, o, e) matches Some(nodes) && n == nodes.len());
    lemma_absolute_paths(index, o, steps, root, root);
    assert(indexes(index, doc, plan) && in_context(index, o, e, root).len() == n);
}

} // verus!
