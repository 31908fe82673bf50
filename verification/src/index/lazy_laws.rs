//! What is indexed for a query is part of what is indexed otherwise.

use vstd::prelude::*;
use crate::bytes::{is_byte, lemma_scan_to, scan_to};
use crate::index::access::is_element;
use crate::index::lazy::{
    is_wanted, lemma_retained, lemma_sketch_extend_wf, nearest_slot, parsed_for, sketch, Frame,
    Sketch,
};
use crate::index::laws::entry_for;
use crate::index::lexer::{lemma_lex_bounds, lex, LexemeV};
use crate::index::outline::{outline, scan, text_from, Doc, Outline};
use crate::index::structural::parsed;
use crate::index::TagType;
use crate::parallel::in_order;

verus! {

/// The arrays with one entry per tag are equally long.
pub open spec fn same_lengths(d: Doc) -> bool {
    &&& d.ends.len() == d.starts.len()
    &&& d.types.len() == d.starts.len()
    &&& d.names.len() == d.starts.len()
    &&& d.depths.len() == d.starts.len()
    &&& d.parents.len() == d.starts.len()
}

/// Tag `i` of one document and tag `j` of another are the same tag: they agree in
/// place, type, name and depth, and their parents stand at the same place.
pub open spec fn same_tag(d: Doc, i: int, full: Doc, j: int) -> bool {
    &&& 0 <= j < full.starts.len()
    &&& d.starts[i] == full.starts[j]
    &&& d.ends[i] == full.ends[j]
    &&& d.types[i] == full.types[j]
    &&& d.names[i] == full.names[j]
    &&& d.depths[i] == full.depths[j]
    &&& if d.parents[i] == u32::MAX {
        full.parents[j] == u32::MAX
    } else {
        &&& d.parents[i] < i
        &&& full.parents[j] < full.starts.len()
        &&& d.starts[d.parents[i] as int] == full.starts[full.parents[j] as int]
    }
}

/// Tag `i` of a document is one of the tags of another.
pub open spec fn tag_occurs(d: Doc, i: int, full: Doc) -> bool {
    exists|j: int| #[trigger] same_tag(d, i, full, j)
}

/// The range of text `t` of a document is the range of a text of another.
pub open spec fn text_occurs(d: Doc, t: int, full: Doc) -> bool {
    exists|u: int|
        0 <= u < full.texts.len() && (#[trigger] full.texts[u]).start == d.texts[t].start
            && full.texts[u].end == d.texts[t].end
}

/// One document is part of another: all its tags are tags of the other, with the
/// same parents, and all its text ranges are text ranges of the other.
pub open spec fn is_part(d: Doc, full: Doc) -> bool {
    &&& forall|i: int| 0 <= i < d.starts.len() ==> #[trigger] tag_occurs(d, i, full)
    &&& forall|t: int| 0 <= t < d.texts.len() ==> #[trigger] text_occurs(d, t, full)
}

/// There is an entry for a construct.
pub open spec fn has_entry(d: Doc, l: LexemeV) -> bool {
    exists|i: int| 0 <= i < d.starts.len() && #[trigger] d.starts[i] == l.start as u64
}

/// One document continues another.
pub open spec fn continues(d: Doc, e: Doc) -> bool {
    &&& d.starts.is_prefix_of(e.starts)
    &&& d.ends.is_prefix_of(e.ends)
    &&& d.types.is_prefix_of(e.types)
    &&& d.names.is_prefix_of(e.names)
    &&& d.depths.is_prefix_of(e.depths)
    &&& d.parents.is_prefix_of(e.parents)
    &&& d.texts.is_prefix_of(e.texts)
}

proof fn lemma_prefix<A>(a: Seq<A>, b: Seq<A>, i: int)
    requires
        a.is_prefix_of(b),
        0 <= i < a.len(),
    ensures
        a.len() <= b.len(),
        a[i] == b[i],
{
    assert(a == b.subrange(0, a.len() as int));
}

proof fn lemma_occurs_stays(d: Doc, e: Doc, full: Doc, more: Doc, i: int)
    requires
        same_lengths(d),
        same_lengths(full),
        continues(d, e),
        continues(full, more),
        0 <= i < d.starts.len(),
        tag_occurs(d, i, full),
    ensures
        tag_occurs(e, i, more),
{
    let j = choose|j: int| #[trigger] same_tag(d, i, full, j);
    lemma_prefix(d.starts, e.starts, i);
    lemma_prefix(d.ends, e.ends, i);
    lemma_prefix(d.types, e.types, i);
    lemma_prefix(d.names, e.names, i);
    lemma_prefix(d.depths, e.depths, i);
    lemma_prefix(d.parents, e.parents, i);
    lemma_prefix(full.starts, more.starts, j);
    lemma_prefix(full.ends, more.ends, j);
    lemma_prefix(full.types, more.types, j);
    lemma_prefix(full.names, more.names, j);
    lemma_prefix(full.depths, more.depths, j);
    lemma_prefix(full.parents, more.parents, j);
    if d.parents[i] != u32::MAX {
        lemma_prefix(d.starts, e.starts, d.parents[i] as int);
        lemma_prefix(full.starts, more.starts, full.parents[j] as int);
    }
    assert(same_tag(e, i, more, j));
}

/// A document that is part of another stays so when the other grows.
proof fn lemma_part_stays(d: Doc, full: Doc, more: Doc)
    requires
        same_lengths(d),
        same_lengths(full),
        continues(full, more),
        is_part(d, full),
    ensures
        is_part(d, more),
{
    assert(continues(d, d)) by {
        lemma_continues_self(d);
    }
    assert forall|i: int| 0 <= i < d.starts.len() implies #[trigger] tag_occurs(d, i, more) by {
        assert(tag_occurs(d, i, full));
        lemma_occurs_stays(d, d, full, more, i);
    }
    assert forall|t: int| 0 <= t < d.texts.len() implies #[trigger] text_occurs(d, t, more) by {
        assert(text_occurs(d, t, full));
        let u = choose|u: int|
            0 <= u < full.texts.len() && (#[trigger] full.texts[u]).start == d.texts[t].start
                && full.texts[u].end == d.texts[t].end;
        lemma_prefix(full.texts, more.texts, u);
        assert(more.texts[u].start == d.texts[t].start);
    }
}

proof fn lemma_continues_self(d: Doc)
    ensures
        continues(d, d),
{
    assert(d.starts.subrange(0, d.starts.len() as int) =~= d.starts);
    assert(d.ends.subrange(0, d.ends.len() as int) =~= d.ends);
    assert(d.types.subrange(0, d.types.len() as int) =~= d.types);
    assert(d.names.subrange(0, d.names.len() as int) =~= d.names);
    assert(d.depths.subrange(0, d.depths.len() as int) =~= d.depths);
    assert(d.parents.subrange(0, d.parents.len() as int) =~= d.parents);
    assert(d.texts.subrange(0, d.texts.len() as int) =~= d.texts);
}

proof fn lemma_with_tag_continues(d: Doc, kind: TagType, l: LexemeV, depth: int, parent: u32)
    ensures
        continues(d, d.with_tag(kind, l, depth, parent)),
{
    let e = d.with_tag(kind, l, depth, parent);
    assert(e.starts.subrange(0, d.starts.len() as int) =~= d.starts);
    assert(e.ends.subrange(0, d.ends.len() as int) =~= d.ends);
    assert(e.types.subrange(0, d.types.len() as int) =~= d.types);
    assert(e.names.subrange(0, d.names.len() as int) =~= d.names);
    assert(e.depths.subrange(0, d.depths.len() as int) =~= d.depths);
    assert(e.parents.subrange(0, d.parents.len() as int) =~= d.parents);
    assert(e.texts.subrange(0, d.texts.len() as int) =~= d.texts);
}

proof fn lemma_extend_continues(o: Outline, l: LexemeV)
    ensures
        continues(o.doc, o.extend(l).doc),
        same_lengths(o.doc) ==> same_lengths(o.extend(l).doc),
{
    let d = o.doc;
    let e = o.extend(l).doc;
    assert(e.starts.subrange(0, d.starts.len() as int) =~= d.starts);
    assert(e.ends.subrange(0, d.ends.len() as int) =~= d.ends);
    assert(e.types.subrange(0, d.types.len() as int) =~= d.types);
    assert(e.names.subrange(0, d.names.len() as int) =~= d.names);
    assert(e.depths.subrange(0, d.depths.len() as int) =~= d.depths);
    assert(e.parents.subrange(0, d.parents.len() as int) =~= d.parents);
    assert(e.texts.subrange(0, d.texts.len() as int) =~= d.texts);
}

/// A part has no more tags than the whole.
pub proof fn lemma_part_len(d: Doc, full: Doc)
    requires
        is_part(d, full),
        forall|i: int, j: int| 0 <= i < j < d.starts.len() ==> d.starts[i] < d.starts[j],
    ensures
        d.starts.len() <= full.starts.len(),
{
    assert(d.starts.no_duplicates());
    d.starts.unique_seq_to_set();
    assert forall|x: u64| #[trigger] d.starts.to_set().contains(x) implies full.starts.to_set().contains(
        x,
    ) by {
        let i = choose|i: int| 0 <= i < d.starts.len() && d.starts[i] == x;
        assert(tag_occurs(d, i, full));
        let j = choose|j: int| #[trigger] same_tag(d, i, full, j);
        assert(full.starts[j] == x);
    }
    vstd::seq_lib::seq_to_set_is_finite(full.starts);
    vstd::set_lib::lemma_len_subset(d.starts.to_set(), full.starts.to_set());
    full.starts.lemma_cardinality_of_set();
}

/// The open tag at place `m` as a frame and as an entry of the whole document.
pub open spec fn frame_matches(k: Sketch, o: Outline, m: int) -> bool {
    let f = k.frames[m];
    let j = o.open[m] as int;
    &&& j < o.doc.starts.len()
    &&& entry_for(o.doc, j, f.lexeme)
    &&& o.doc.types[j] == TagType::Open
    &&& o.doc.depths[j] == f.depth as u16
    &&& o.doc.parents[j] == (if m == 0 {
        u32::MAX
    } else {
        o.open[m - 1]
    })
    &&& f.slot matches Some(q) ==> q < k.doc.starts.len() && k.doc.starts[q as int]
        == f.lexeme.start as u64
}

/// Reading constructs for a query and reading them all go side by side: what is
/// indexed is part of the whole, and the open tags are the same.
pub open spec fn side_by_side(k: Sketch, o: Outline, n: nat) -> bool {
    &&& k.wf(n)
    &&& same_lengths(o.doc)
    &&& is_part(k.doc, o.doc)
    &&& k.depth == o.depth
    &&& k.last_end == o.last_end
    &&& k.frames.len() == o.open.len()
    &&& forall|m: int| 0 <= m < k.frames.len() ==> #[trigger] frame_matches(k, o, m)
}

/// A new tag of the part that is a tag of the whole keeps the part a part.
proof fn lemma_part_grows(d: Doc, full: Doc, kind: TagType, l: LexemeV, depth: int, parent: u32, j: int)
    requires
        same_lengths(d),
        same_lengths(full),
        is_part(d, full),
        same_tag(d.with_tag(kind, l, depth, parent), d.starts.len() as int, full, j),
    ensures
        is_part(d.with_tag(kind, l, depth, parent), full),
{
    let e = d.with_tag(kind, l, depth, parent);
    lemma_with_tag_continues(d, kind, l, depth, parent);
    lemma_continues_self(full);
    assert forall|i: int| 0 <= i < e.starts.len() implies #[trigger] tag_occurs(e, i, full) by {
        if i < d.starts.len() {
            assert(tag_occurs(d, i, full));
            lemma_occurs_stays(d, e, full, full, i);
        }
    }
    assert forall|t: int| 0 <= t < e.texts.len() implies #[trigger] text_occurs(e, t, full) by {
        assert(text_occurs(d, t, full));
    }
}

/// The nearest entry among frames that all have one is that of the last frame.
proof fn lemma_nearest(frames: Seq<Frame>)
    requires
        frames.len() > 0 ==> frames.last().slot is Some,
    ensures
        nearest_slot(frames) == (if frames.len() == 0 {
            u32::MAX
        } else {
            frames.last().slot->0
        }),
{
}

proof fn lemma_retain_side_by_side(k: Sketch, o: Outline, i: int, n: nat)
    requires
        side_by_side(k, o, n),
        n <= u64::MAX,
        o.doc.starts.len() <= u32::MAX,
        0 <= i < k.frames.len(),
        i > 0 ==> k.frames[i - 1].slot is Some,
        k.retain(i).wf(n),
    ensures
        side_by_side(k.retain(i), o, n),
{
    let r = k.retain(i);
    let f = k.frames[i];
    if f.slot is None {
        let head = k.frames.take(i);
        if i > 0 {
            assert(head.last() == k.frames[i - 1]);
        }
        lemma_nearest(head);
        let parent = nearest_slot(head);
        let size = k.doc.starts.len() as int;
        assert(frame_matches(k, o, i));
        lemma_part_len(k.doc, o.doc);
        if i > 0 {
            assert(frame_matches(k, o, i - 1));
        }
        let j = o.open[i] as int;
        assert(same_tag(r.doc, size, o.doc, j));
        lemma_part_grows(k.doc, o.doc, TagType::Open, f.lexeme, f.depth, parent, j);
        assert forall|m: int| 0 <= m < r.frames.len() implies #[trigger] frame_matches(r, o, m) by {
            assert(frame_matches(k, o, m));
        }
    }
}

proof fn lemma_retained_side_by_side(k: Sketch, o: Outline, c: nat, n: nat)
    requires
        side_by_side(k, o, n),
        n <= u64::MAX,
        o.doc.starts.len() <= u32::MAX,
        c <= k.frames.len(),
    ensures
        side_by_side(k.retained(c), o, n),
    decreases c,
{
    if c > 0 {
        lemma_retained_side_by_side(k, o, (c - 1) as nat, n);
        lemma_retained(k, (c - 1) as nat, n);
        lemma_retained(k, c, n);
        let q = k.retained((c - 1) as nat);
        if c > 1 {
            assert(q.frames[c - 2].slot is Some);
        }
        lemma_retain_side_by_side(q, o, c - 1, n);
    }
}

/// A text that is recorded is recorded in the whole document, too.
proof fn lemma_text_grows(d: Doc, full: Doc, start: int, end: int, parent: u32, u: int)
    requires
        is_part(d, full),
        0 <= u < full.texts.len(),
        full.texts[u].start == start as u64,
        full.texts[u].end == end as u64,
    ensures
        is_part(d.with_text(start, end, parent), full),
{
    let e = d.with_text(start, end, parent);
    assert forall|i: int| 0 <= i < e.starts.len() implies #[trigger] tag_occurs(e, i, full) by {
        assert(tag_occurs(d, i, full));
        let j = choose|j: int| #[trigger] same_tag(d, i, full, j);
        assert(same_tag(e, i, full, j));
    }
    assert forall|t: int| 0 <= t < e.texts.len() implies #[trigger] text_occurs(e, t, full) by {
        if t < d.texts.len() {
            assert(text_occurs(d, t, full));
            let v = choose|v: int|
                0 <= v < full.texts.len() && (#[trigger] full.texts[v]).start == d.texts[t].start
                    && full.texts[v].end == d.texts[t].end;
            assert(full.texts[v].start == e.texts[t].start);
        } else {
            assert(full.texts[u].start == e.texts[t].start);
        }
    }
}

/// The text before a construct is recorded in the whole document.
proof fn lemma_gap_side_by_side(k: Sketch, o: Outline, l: LexemeV, parent: u32)
    requires
        is_part(k.doc, o.extend(l).doc),
        k.last_end == o.last_end,
    ensures
        is_part(k.gap(l.start, parent), o.extend(l).doc),
{
    let from = text_from(k.last_end);
    if from < l.start {
        let u = o.doc.texts.len() as int;
        let texts = o.texts_before(l.start);
        assert(texts[u].start == from as u64);
        assert(o.extend(l).doc.texts[u] == texts[u]);
        lemma_text_grows(k.doc, o.extend(l).doc, from, l.start, parent, u);
    }
}

proof fn lemma_frames_stay(k: Sketch, o: Outline, r: Sketch, x: Outline, m: int)
    requires
        0 <= m,
        m < k.frames.len(),
        m < o.open.len(),
        same_lengths(o.doc),
        frame_matches(k, o, m),
        m < r.frames.len() && r.frames[m] == k.frames[m],
        m < x.open.len() && x.open[m] == o.open[m],
        m > 0 ==> x.open[m - 1] == o.open[m - 1],
        continues(o.doc, x.doc),
        k.doc.starts.is_prefix_of(r.doc.starts),
    ensures
        frame_matches(r, x, m),
{
    let j = o.open[m] as int;
    lemma_prefix(o.doc.starts, x.doc.starts, j);
    lemma_prefix(o.doc.ends, x.doc.ends, j);
    lemma_prefix(o.doc.types, x.doc.types, j);
    lemma_prefix(o.doc.names, x.doc.names, j);
    lemma_prefix(o.doc.depths, x.doc.depths, j);
    lemma_prefix(o.doc.parents, x.doc.parents, j);
    if let Some(q) = k.frames[m].slot {
        lemma_prefix(k.doc.starts, r.doc.starts, q as int);
    }
}

proof fn lemma_close_side_by_side(k: Sketch, o: Outline, l: LexemeV, n: nat)
    requires
        side_by_side(k, o, n),
        n <= u64::MAX,
        o.doc.starts.len() < u32::MAX,
        l.kind == Some(TagType::Close),
        k.close(l).wf(n),
    ensures
        side_by_side(k.close(l), o.extend(l), n),
{
    let r = k.close(l);
    let x = o.extend(l);
    lemma_extend_continues(o, l);
    lemma_part_stays(k.doc, o.doc, x.doc);
    if k.frames.len() > 0 {
        let f = k.frames.last();
        let top = k.frames.len() - 1;
        let frames = k.frames.drop_last();
        assert(frame_matches(k, o, top));
        let doc = k.gap(l.start, nearest_slot(k.frames));
        lemma_gap_side_by_side(k, o, l, nearest_slot(k.frames));
        assert(same_lengths(doc));
        assert(doc.starts == k.doc.starts && doc.parents == k.doc.parents);
        if f.slot is Some {
            if top > 0 {
                assert(frames.last() == k.frames[top - 1]);
                assert(k.frames[top].slot is Some);
                assert(frame_matches(k, o, top - 1));
                let j = o.open[top - 1] as int;
                lemma_prefix(o.doc.starts, x.doc.starts, j);
            }
            lemma_nearest(frames);
            let parent = nearest_slot(frames);
            let depth = r.depth;
            let size = doc.starts.len() as int;
            let j = o.doc.starts.len() as int;
            assert(o.open.drop_last().len() > 0 ==> o.open.drop_last().last() == o.open[top - 1]);
            assert(same_tag(doc.with_tag(TagType::Close, l, depth, parent), size, x.doc, j));
            lemma_part_grows(doc, x.doc, TagType::Close, l, depth, parent, j);
            lemma_with_tag_continues(doc, TagType::Close, l, depth, parent);
        } else {
            lemma_continues_self(k.doc);
        }
        assert forall|m: int| 0 <= m < r.frames.len() implies #[trigger] frame_matches(r, x, m) by {
            assert(frame_matches(k, o, m));
            lemma_frames_stay(k, o, r, x, m);
        }
    }
}

proof fn lemma_open_side_by_side(
    k: Sketch,
    o: Outline,
    s: Seq<u8>,
    l: LexemeV,
    kind: TagType,
    names: Set<Seq<char>>,
)
    requires
        side_by_side(k, o, s.len()),
        s.len() <= u64::MAX,
        o.doc.starts.len() < u32::MAX,
        l.kind == Some(kind),
        is_element(kind),
        k.open(s, kind, l, names).wf(s.len()),
    ensures
        side_by_side(k.open(s, kind, l, names), o.extend(l), s.len()),
        is_wanted(s, l, names) ==> has_entry(k.open(s, kind, l, names).doc, l),
{
    let r = k.open(s, kind, l, names);
    let x = o.extend(l);
    let n = s.len();
    let wanted = is_wanted(s, l, names);
    let count = k.frames.len();
    let base = if wanted {
        k.retained(count)
    } else {
        k
    };
    lemma_extend_continues(o, l);
    lemma_retained(k, count, n);
    lemma_retained_side_by_side(k, o, count, n);
    lemma_part_stays(base.doc, o.doc, x.doc);
    let parent = nearest_slot(base.frames);
    let texted = base.gap(l.start, parent);
    lemma_gap_side_by_side(base, o, l, parent);
    assert(same_lengths(texted));
    assert(texted.starts == base.doc.starts && texted.parents == base.doc.parents);
    let j = o.doc.starts.len() as int;
    let size = texted.starts.len() as int;
    lemma_part_len(base.doc, o.doc);
    if wanted {
        if count > 0 {
            assert(base.frames[count - 1].slot is Some);
            assert(frame_matches(base, o, count - 1));
            lemma_prefix(o.doc.starts, x.doc.starts, o.open[count - 1] as int);
        }
        lemma_nearest(base.frames);
        assert(same_tag(texted.with_tag(kind, l, k.depth, parent), size, x.doc, j));
        lemma_part_grows(texted, x.doc, kind, l, k.depth, parent, j);
        lemma_with_tag_continues(texted, kind, l, k.depth, parent);
        assert(r.doc.starts[size] == l.start as u64);
    } else {
        lemma_continues_self(base.doc);
    }
    assert forall|m: int| 0 <= m < r.frames.len() implies #[trigger] frame_matches(r, x, m) by {
        if m < count {
            assert(frame_matches(base, o, m));
            lemma_frames_stay(base, o, r, x, m);
        } else if count > 0 {
            assert(o.open.last() == o.open[count - 1]);
        }
    }
}

proof fn lemma_extend_side_by_side(
    k: Sketch,
    o: Outline,
    s: Seq<u8>,
    l: LexemeV,
    names: Set<Seq<char>>,
)
    requires
        side_by_side(k, o, s.len()),
        s.len() <= u64::MAX,
        o.extend(l).doc.starts.len() <= u32::MAX,
        k.extend(s, l, names).wf(s.len()),
    ensures
        side_by_side(k.extend(s, l, names), o.extend(l), s.len()),
        (l.kind matches Some(kind) && is_element(kind)) && is_wanted(s, l, names) ==> has_entry(
            k.extend(s, l, names).doc,
            l,
        ),
{
    let r = k.extend(s, l, names);
    let x = o.extend(l);
    lemma_extend_continues(o, l);
    lemma_part_stays(k.doc, o.doc, x.doc);
    match l.kind {
        Some(TagType::Close) => {
            lemma_close_side_by_side(k, o, l, s.len());
        },
        Some(TagType::Open) => {
            lemma_open_side_by_side(k, o, s, l, TagType::Open, names);
        },
        Some(TagType::SelfClose) => {
            lemma_open_side_by_side(k, o, s, l, TagType::SelfClose, names);
        },
        _ => {
            let inner = nearest_slot(k.frames);
            lemma_gap_side_by_side(k, o, l, inner);
            if let Some(t) = l.text {
                if l.kind is Some {
                    let u = x.doc.texts.len() - 1;
                    assert(x.doc.texts[u].start == t.0 as u64);
                    lemma_text_grows(k.gap(l.start, inner), x.doc, t.0, t.1, inner, u);
                }
            }
            lemma_continues_self(k.doc);
            assert forall|m: int| 0 <= m < r.frames.len() implies #[trigger] frame_matches(
                r,
                x,
                m,
            ) by {
                assert(frame_matches(k, o, m));
                lemma_frames_stay(k, o, r, x, m);
            }
        },
    }
}

pub proof fn lemma_retained_prefix(k: Sketch, c: nat)
    ensures
        k.doc.starts.is_prefix_of(k.retained(c).doc.starts),
    decreases c,
{
    let all = k.retained(c).doc.starts;
    if c > 0 {
        lemma_retained_prefix(k, (c - 1) as nat);
        let before = k.retained((c - 1) as nat).doc.starts;
        assert(all.subrange(0, k.doc.starts.len() as int) =~= before.subrange(
            0,
            k.doc.starts.len() as int,
        ));
    } else {
        lemma_continues_self(k.doc);
    }
}

/// Entries stay when more constructs are read.
proof fn lemma_entries_stay(k: Sketch, s: Seq<u8>, l: LexemeV, names: Set<Seq<char>>, m: LexemeV)
    requires
        has_entry(k.doc, m),
    ensures
        has_entry(k.extend(s, l, names).doc, m),
{
    let r = k.extend(s, l, names);
    lemma_retained_prefix(k, k.frames.len());
    let i = choose|i: int| 0 <= i < k.doc.starts.len() && #[trigger] k.doc.starts[i] == m.start as u64;
    lemma_prefix(k.doc.starts, k.retained(k.frames.len()).doc.starts, i);
    assert(r.doc.starts[i] == m.start as u64);
}

pub proof fn lemma_sketch_side_by_side(s: Seq<u8>, ls: Seq<LexemeV>, names: Set<Seq<char>>)
    requires
        s.len() <= u64::MAX,
        in_order(ls, s),
        outline(ls).doc.starts.len() <= u32::MAX,
    ensures
        side_by_side(sketch(s, ls, names), outline(ls), s.len()),
        outline(ls).last_end == (if ls.len() == 0 {
            0
        } else {
            ls.last().end
        }),
        forall|i: int|
            0 <= i < ls.len() && ((#[trigger] ls[i]).kind matches Some(kind) && is_element(kind))
                && is_wanted(s, ls[i], names) ==> has_entry(sketch(s, ls, names).doc, ls[i]),
    decreases ls.len(),
{
    let k = sketch(s, ls, names);
    if ls.len() > 0 {
        let before = ls.drop_last();
        let l = ls.last();
        assert forall|i: int, j: int| 0 <= i < j < before.len() implies before[i].end
            < before[j].start by {
            assert(ls[i].end < ls[j].start);
        }
        lemma_extend_continues(outline(before), l);
        assert(outline(before).doc.starts.len() <= outline(ls).doc.starts.len());
        lemma_sketch_side_by_side(s, before, names);
        let b = sketch(s, before, names);
        assert(l == ls[ls.len() - 1]);
        if before.len() > 0 {
            assert(before.last() == ls[ls.len() - 2]);
            assert(ls[ls.len() - 2].end < ls[ls.len() - 1].start);
        }
        lemma_sketch_extend_wf(b, s, l, names, true);
        lemma_extend_side_by_side(b, outline(before), s, l, names);
        assert forall|i: int|
            0 <= i < ls.len() && ((#[trigger] ls[i]).kind matches Some(kind) && is_element(kind))
                && is_wanted(s, ls[i], names) implies has_entry(k.doc, ls[i]) by {
            if i < before.len() {
                assert(before[i] == ls[i]);
                lemma_entries_stay(b, s, l, names, ls[i]);
            }
        }
    }
}

pub proof fn lemma_scan_in_order(s: Seq<u8>, p: int)
    requires
        0 <= p,
    ensures
        in_order(scan(s, p, true).lexemes, s),
        forall|i: int| #![trigger scan(s, p, true).lexemes[i]]
            0 <= i < scan(s, p, true).lexemes.len() ==> p <= scan(s, p, true).lexemes[i].start,
    decreases s.len() + 1 - p,
{
    let q = scan_to(s, p, is_byte(0x3c));
    let all = scan(s, p, true).lexemes;
    if p < s.len() && q < s.len() {
        lemma_scan_to(s, p, is_byte(0x3c));
        if let Some(l) = lex(s, q, true) {
            lemma_lex_bounds(s, q, true);
            lemma_scan_in_order(s, l.end + 1);
            let rest = scan(s, l.end + 1, true).lexemes;
            assert forall|i: int, j: int| 0 <= i < j < all.len() implies all[i].end
                < all[j].start by {
                assert(all[j] == rest[j - 1]);
                if i > 0 {
                    assert(all[i] == rest[i - 1]);
                }
            }
            assert forall|i: int| #![trigger all[i]] 0 <= i < all.len() implies 0 <= all[i].start
                < s.len() && lex(s, all[i].start, true) == Some(all[i]) && p <= all[i].start by {
                if i > 0 {
                    assert(all[i] == rest[i - 1]);
                }
            }
        }
    }
}

/// Reading a document for a query finds the constructs that reading it whole finds.
/// Where both succeed, they differ on an unclosed comment, CDATA section or declaration
/// only.
pub open spec fn reads_alike(s: Seq<u8>) -> bool {
    scan(s, 0, true) == scan(s, 0, false)
}

/// What is indexed for a query is part of the whole document: every entry is a tag
/// of the document with its place, type, name, depth and parent, every text range
/// is one of the document, and every element whose name is wanted has an entry.
/// The document reads alike for both.
pub proof fn lemma_lazy_is_part(s: Seq<u8>, names: Set<Seq<char>>, d: Doc, full: Doc)
    requires
        s.len() <= u64::MAX,
        names != Set::<Seq<char>>::empty(),
        reads_alike(s),
        parsed_for(s, names) == Ok::<Doc, int>(d),
        parsed(s) == Ok::<Doc, int>(full),
        full.starts.len() <= u32::MAX,
    ensures
        is_part(d, full),
        forall|i: int| #![trigger scan(s, 0, false).lexemes[i]]
            0 <= i < scan(s, 0, false).lexemes.len() ==> {
                let l = scan(s, 0, false).lexemes[i];
                (l.kind matches Some(kind) && is_element(kind)) && is_wanted(s, l, names)
                    ==> has_entry(d, l)
            },
{
    let ls = scan(s, 0, true).lexemes;
    lemma_scan_in_order(s, 0);
    lemma_sketch_side_by_side(s, ls, names);
}

} // verus!
