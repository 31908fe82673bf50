//! Indexing for a query keeps the texts of wanted elements: their close tags stand
//! where they stand otherwise, and so do the texts between.

use vstd::prelude::*;
use crate::bytes::text_of;
use crate::index::laws::{
    lemma_closes_innermost, lemma_open_stack, lemma_open_stack_prefix, lemma_open_until_closed,
    lemma_outline_entries, lemma_outline_nested, open_stack, partner,
};
use crate::index::lazy::{
    is_wanted, lemma_retained, lemma_sketch_extend_wf, sketch, under_wanted, Frame, Sketch,
};
use crate::index::lazy_laws::{
    frame_matches, is_part, lemma_part_len, lemma_retained_prefix, lemma_sketch_side_by_side,
    side_by_side, text_occurs,
};
use crate::index::lexer::{lemma_lex_bounds, LexemeV};
use crate::index::outline::{outline, text_from, Doc, Outline};
use crate::index::{TagType, TextRange};
use crate::parallel::in_order;

verus! {

/// The entries of the frames that have one, outermost first.
pub open spec fn slots(frames: Seq<Frame>) -> Seq<int>
    decreases frames.len(),
{
    if frames.len() == 0 {
        Seq::empty()
    } else {
        match frames.last().slot {
            Some(q) => slots(frames.drop_last()).push(q as int),
            None => slots(frames.drop_last()),
        }
    }
}

/// Frames with an entry stand outside of frames without one.
pub open spec fn outer_first(frames: Seq<Frame>) -> bool {
    forall|i: int, j: int|
        0 <= i < j < frames.len() && (#[trigger] frames[j]).slot is Some ==> (
        #[trigger] frames[i]).slot is Some
}

proof fn lemma_slots(frames: Seq<Frame>)
    requires
        outer_first(frames),
    ensures
        slots(frames).len() <= frames.len(),
        forall|m: int|
            0 <= m < slots(frames).len() ==> (#[trigger] frames[m]).slot is Some && slots(
                frames,
            )[m] == frames[m].slot->0 as int,
        forall|m: int| slots(frames).len() <= m < frames.len() ==> (#[trigger] frames[m]).slot is None,
    decreases frames.len(),
{
    if frames.len() > 0 {
        let rest = frames.drop_last();
        assert forall|i: int, j: int|
            0 <= i < j < rest.len() && (#[trigger] rest[j]).slot is Some implies (
        #[trigger] rest[i]).slot is Some by {
            assert(frames[j].slot is Some);
            assert(frames[i].slot is Some);
        }
        lemma_slots(rest);
        let top = frames.len() - 1;
        if frames[top].slot is Some {
            assert forall|m: int| 0 <= m < rest.len() implies (#[trigger] rest[m]).slot is Some by {
                assert(frames[m].slot is Some);
            }
            assert(slots(rest).len() == rest.len()) by {
                if slots(rest).len() < rest.len() {
                    assert(rest[slots(rest).len() as int].slot is None);
                }
            }
        }
        assert forall|m: int| 0 <= m < slots(frames).len() implies (#[trigger] frames[m]).slot is Some
            && slots(frames)[m] == frames[m].slot->0 as int by {
            if m < slots(rest).len() {
                assert(rest[m] == frames[m]);
            }
        }
        assert forall|m: int| slots(frames).len() <= m < frames.len() implies (
        #[trigger] frames[m]).slot is None by {
            if m < rest.len() {
                assert(rest[m] == frames[m]);
            }
        }
    }
}

/// The stack of open entries is that of the enclosing tags with an entry.
pub open spec fn stacked(k: Sketch) -> bool {
    open_stack(k.doc.types, k.doc.types.len() as int) == slots(k.frames)
}

proof fn lemma_stack_push(types: Seq<TagType>, kind: TagType)
    ensures
        ({
            let n = types.len() as int;
            let st = open_stack(types, n);
            &&& open_stack(types.push(kind), n) == st
            &&& open_stack(types.push(kind), n + 1) == (match kind {
                TagType::Open => st.push(n),
                TagType::Close => if st.len() > 0 {
                    st.drop_last()
                } else {
                    st
                },
                _ => st,
            })
        }),
{
    let n = types.len() as int;
    lemma_open_stack_prefix(types, types.push(kind), n);
}

proof fn lemma_retain_stacked(k: Sketch, i: int, n: nat)
    requires
        k.wf(n),
        stacked(k),
        0 <= i < k.frames.len(),
        forall|j: int| 0 <= j < i ==> (#[trigger] k.frames[j]).slot is Some,
        k.doc.starts.len() <= u32::MAX,
    ensures
        stacked(k.retain(i)),
{
    let r = k.retain(i);
    if k.frames[i].slot is None {
        let size = k.doc.types.len() as int;
        lemma_slots(k.frames);
        assert(outer_first(r.frames)) by {
            assert forall|a: int, b: int|
                0 <= a < b < r.frames.len() && (#[trigger] r.frames[b]).slot is Some implies (
            #[trigger] r.frames[a]).slot is Some by {
                if b > i {
                    assert(k.frames[b].slot is Some);
                    assert(k.frames[i].slot is Some);
                } else if a < i {
                    assert(k.frames[a].slot is Some);
                }
            }
        }
        lemma_slots(r.frames);
        let old_slots = slots(k.frames);
        let new_slots = slots(r.frames);
        assert(old_slots.len() == i) by {
            if old_slots.len() < i {
                assert(k.frames[old_slots.len() as int].slot is None);
            }
            if old_slots.len() > i {
                assert(k.frames[i].slot is Some);
            }
        }
        assert(new_slots.len() == i + 1) by {
            if new_slots.len() < i + 1 {
                assert(r.frames[new_slots.len() as int].slot is None);
                if new_slots.len() < i {
                    assert(k.frames[new_slots.len() as int].slot is Some);
                }
            }
            if new_slots.len() > i + 1 {
                assert(r.frames[i + 1].slot is Some);
                assert(k.frames[i + 1].slot is None);
            }
        }
        lemma_stack_push(k.doc.types, TagType::Open);
        assert(r.doc.types == k.doc.types.push(TagType::Open));
        assert forall|m: int| 0 <= m < new_slots.len() implies new_slots[m] == old_slots.push(
            size,
        )[m] by {
            assert(r.frames[m].slot is Some);
            if m < i {
                assert(k.frames[m] == r.frames[m]);
            }
        }
        assert(new_slots =~= old_slots.push(size));
    }
}

proof fn lemma_retained_stacked(k: Sketch, c: nat, n: nat)
    requires
        k.wf(n),
        n <= u64::MAX,
        stacked(k),
        c <= k.frames.len(),
        k.retained(c).doc.starts.len() <= u32::MAX,
    ensures
        stacked(k.retained(c)),
    decreases c,
{
    if c > 0 {
        let q = k.retained((c - 1) as nat);
        assert(q.doc.starts.len() <= k.retained(c).doc.starts.len());
        lemma_retained_stacked(k, (c - 1) as nat, n);
        lemma_retained(k, (c - 1) as nat, n);
        lemma_retain_stacked(q, c - 1, n);
    }
}

/// Reading a construct keeps the stack of open entries.
proof fn lemma_extend_stacked(k: Sketch, s: Seq<u8>, l: LexemeV, names: Set<Seq<char>>)
    requires
        k.wf(s.len()),
        s.len() <= u64::MAX,
        stacked(k),
        k.extend(s, l, names).doc.starts.len() <= u32::MAX,
        k.extend(s, l, names).wf(s.len()),
    ensures
        stacked(k.extend(s, l, names)),
{
    let r = k.extend(s, l, names);
    let n = s.len();
    match l.kind {
        Some(TagType::Close) => {
            if k.frames.len() > 0 {
                lemma_stack_push(k.doc.types, TagType::Close);
                let f = k.frames.last();
                assert(slots(k.frames) == (match f.slot {
                    Some(q) => slots(k.frames.drop_last()).push(q as int),
                    None => slots(k.frames.drop_last()),
                }));
                if f.slot is Some {
                    assert(slots(k.frames).drop_last() =~= slots(k.frames.drop_last()));
                    assert(r.doc.types == k.doc.types.push(TagType::Close));
                } else {
                    assert(r.doc.types == k.doc.types);
                }
            }
        },
        Some(TagType::Open) | Some(TagType::SelfClose) => {
            let kind = l.kind->0;
            if is_wanted(s, l, names) {
                let count = k.frames.len();
                let base = k.retained(count);
                assert(base.doc.starts.len() <= r.doc.starts.len());
                lemma_retained_stacked(k, count, n);
                lemma_retained(k, count, n);
                lemma_stack_push(base.doc.types, kind);
                assert(r.doc.types == base.doc.types.push(kind));
                if kind == TagType::Open {
                    let f = r.frames.last();
                    assert(r.frames.drop_last() =~= base.frames);
                    assert(f.slot == Some(base.doc.next_tag()));
                    assert(base.doc.types.len() == base.doc.starts.len());
                }
            } else {
                assert(r.doc.types == k.doc.types);
                if kind == TagType::Open {
                    assert(r.frames.drop_last() =~= k.frames);
                }
            }
        },
        _ => {},
    }
}

/// A close tag stays the close tag when more tags follow.
proof fn lemma_partner_stays(a: Seq<TagType>, b: Seq<TagType>, i: int)
    requires
        a.len() <= b.len() <= u32::MAX,
        forall|m: int| 0 <= m < a.len() ==> a[m] == b[m],
        0 <= i < a.len(),
        a[i] == TagType::Open,
        partner(a, i) is Some,
    ensures
        partner(b, i) == partner(a, i),
{
    let c = partner(a, i)->0;
    lemma_open_until_closed(a, i, a.len() as int);
    lemma_open_stack_prefix(a, b, c);
    lemma_closes_innermost(b, c);
}

/// A tag with the same place in the whole document is closed at the same place.
pub open spec fn closes_like(d: Doc, i: int, c: int, full: Doc) -> bool {
    exists|j: int|
        0 <= j < full.starts.len() && #[trigger] full.types[j] == TagType::Open && full.starts[j]
            == d.starts[i] && (partner(full.types, j) matches Some(e) && 0 <= e
            < full.starts.len() && full.starts[e] == d.starts[c])
}

/// Open entries are closed where the tags of the whole document are.
pub open spec fn closed_alike(d: Doc, full: Doc) -> bool {
    forall|i: int| #![trigger d.types[i]]
        0 <= i < d.types.len() && d.types[i] == TagType::Open && partner(d.types, i) is Some
            ==> closes_like(d, i, partner(d.types, i)->0, full)
}

proof fn lemma_closes_like_stays(d: Doc, e: Doc, i: int, c: int, full: Doc, more: Doc)
    requires
        closes_like(d, i, c, full),
        0 <= i < d.starts.len() <= e.starts.len(),
        0 <= c < d.starts.len(),
        e.starts[i] == d.starts[i],
        e.starts[c] == d.starts[c],
        full.types.len() == full.starts.len(),
        more.types.len() == more.starts.len(),
        full.types.len() <= more.types.len() <= u32::MAX,
        forall|m: int| 0 <= m < full.types.len() ==> full.types[m] == more.types[m],
        forall|m: int| 0 <= m < full.starts.len() ==> full.starts[m] == more.starts[m],
    ensures
        closes_like(e, i, c, more),
{
    let j = choose|j: int|
        0 <= j < full.starts.len() && #[trigger] full.types[j] == TagType::Open && full.starts[j]
            == d.starts[i] && (partner(full.types, j) matches Some(x) && 0 <= x
            < full.starts.len() && full.starts[x] == d.starts[c]);
    lemma_partner_stays(full.types, more.types, j);
    assert(more.types[j] == TagType::Open);
}

/// Reading a construct keeps the close tags alike.
proof fn lemma_extend_closed_alike(
    k: Sketch,
    o: Outline,
    s: Seq<u8>,
    l: LexemeV,
    names: Set<Seq<char>>,
)
    requires
        side_by_side(k, o, s.len()),
        s.len() <= u64::MAX,
        stacked(k),
        stacked(k.extend(s, l, names)),
        k.extend(s, l, names).wf(s.len()),
        k.extend(s, l, names).doc.starts.len() <= u32::MAX,
        o.extend(l).doc.starts.len() <= u32::MAX,
        closed_alike(k.doc, o.doc),
        o.open.len() == open_stack(o.doc.types, o.doc.types.len() as int).len(),
        forall|j: int|
            0 <= j < o.open.len() ==> #[trigger] o.open[j] == open_stack(
                o.doc.types,
                o.doc.types.len() as int,
            )[j],
    ensures
        closed_alike(k.extend(s, l, names).doc, o.extend(l).doc),
{
    let r = k.extend(s, l, names);
    let x = o.extend(l);
    let d = r.doc;
    let size = k.doc.types.len() as int;
    lemma_retained_prefix(k, k.frames.len());
    lemma_types_prefix(k, k.frames.len());
    let all = k.retained(k.frames.len()).doc;
    assert(k.doc.starts == all.starts.subrange(0, k.doc.starts.len() as int));
    assert forall|m: int| 0 <= m < size implies d.types[m] == k.doc.types[m] && d.starts[m]
        == k.doc.starts[m] by {
        assert(all.starts.subrange(0, k.doc.starts.len() as int)[m] == all.starts[m]);
    }
    assert forall|i: int| #![trigger d.types[i]]
        0 <= i < d.types.len() && d.types[i] == TagType::Open && partner(d.types, i)
            is Some implies closes_like(d, i, partner(d.types, i)->0, x.doc) by {
        let c = partner(d.types, i)->0;
        lemma_open_until_closed(d.types, i, d.types.len() as int);
        if i < size && partner(k.doc.types, i) is Some {
            assert(k.doc.types[i] == TagType::Open);
            lemma_partner_stays(k.doc.types, d.types, i);
            lemma_open_until_closed(k.doc.types, i, size);
            lemma_closes_like_stays(k.doc, d, i, c, o.doc, x.doc);
        } else {
            if c < size {
                lemma_open_stack_prefix(k.doc.types, d.types, c);
                lemma_closes_innermost(k.doc.types, c);
            }
            assert(c >= size);
            assert(l.kind == Some(TagType::Close)) by {
                if l.kind != Some(TagType::Close) {
                    lemma_no_close(k, s, l, names, c);
                }
            }
            assert(k.frames.len() > 0 && k.frames.last().slot is Some);
            assert(c == size);
            lemma_stack_push(k.doc.types, TagType::Close);
            assert(d.types == k.doc.types.push(TagType::Close));
            let top = k.frames.len() - 1;
            assert(slots(k.frames).last() == k.frames[top].slot->0 as int);
            assert(i == k.frames[top].slot->0);
            assert(frame_matches(k, o, top));
            let j = o.open[top] as int;
            let n = o.doc.types.len() as int;
            lemma_stack_push(o.doc.types, TagType::Close);
            assert(x.doc.types == o.doc.types.push(TagType::Close));
            assert(open_stack(x.doc.types, n).last() == j);
            lemma_closes_innermost(x.doc.types, n);
            assert(x.doc.types[j] == TagType::Open);
            assert(x.doc.starts[n] == l.start as u64);
            assert(d.starts[c] == l.start as u64);
            assert(x.doc.starts[j] == d.starts[i]);
        }
    }
}

proof fn lemma_types_prefix(k: Sketch, c: nat)
    requires
        c <= k.frames.len(),
        k.doc.types.len() == k.doc.starts.len(),
    ensures
        ({
            let all = k.retained(c).doc;
            &&& all.types.len() == all.starts.len()
            &&& k.doc.types.len() <= all.types.len()
            &&& forall|m: int| 0 <= m < k.doc.types.len() ==> all.types[m] == k.doc.types[m]
            &&& forall|m: int|
                k.doc.types.len() <= m < all.types.len() ==> all.types[m] == TagType::Open
        }),
    decreases c,
{
    if c > 0 {
        lemma_types_prefix(k, (c - 1) as nat);
    }
}

/// Only a close tag makes a close entry.
proof fn lemma_no_close(k: Sketch, s: Seq<u8>, l: LexemeV, names: Set<Seq<char>>, c: int)
    requires
        k.doc.types.len() == k.doc.starts.len(),
        l.kind != Some(TagType::Close),
        k.doc.types.len() <= c < k.extend(s, l, names).doc.types.len(),
    ensures
        k.extend(s, l, names).doc.types[c] != TagType::Close,
{
    lemma_types_prefix(k, k.frames.len());
}

// Texts.

/// Texts that are not empty, one after the other, up to a position.
pub open spec fn texts_ordered(texts: Seq<TextRange>, last: int) -> bool {
    &&& forall|u: int| #![trigger texts[u]]
        0 <= u < texts.len() ==> texts[u].start < texts[u].end <= last
    &&& forall|u: int, v: int| 0 <= u < v < texts.len() ==> texts[u].end <= texts[v].start
}

/// The first `cut` tags start before a text, and the others after it.
pub open spec fn is_cut(starts: Seq<u64>, cut: int, t: TextRange) -> bool {
    &&& 0 <= cut <= starts.len()
    &&& forall|a: int| 0 <= a < cut ==> #[trigger] starts[a] < t.start
    &&& forall|a: int| cut <= a < starts.len() ==> #[trigger] starts[a] >= t.end
}

/// A text stands between tags.
pub open spec fn has_cut(starts: Seq<u64>, t: TextRange) -> bool {
    exists|cut: int| is_cut(starts, cut, t)
}

/// The name of a tag is one of the given names.
pub open spec fn wanted_tag(s: Seq<u8>, d: Doc, j: int, names: Set<Seq<char>>) -> bool {
    names.contains(
        text_of(s.subrange(d.names[j].0 as int, d.names[j].0 + d.names[j].1)),
    )
}

/// One of the tags that are open before tag `cut` is wanted.
pub open spec fn some_wanted(s: Seq<u8>, d: Doc, cut: int, names: Set<Seq<char>>) -> bool {
    exists|m: int|
        0 <= m < open_stack(d.types, cut).len() && wanted_tag(
            s,
            d,
            #[trigger] open_stack(d.types, cut)[m],
            names,
        )
}

/// A document has a text with this range.
pub open spec fn has_text(d: Doc, t: TextRange) -> bool {
    exists|v: int|
        0 <= v < d.texts.len() && (#[trigger] d.texts[v]).start == t.start && d.texts[v].end
            == t.end
}

/// Every text under a wanted tag is recorded.
pub open spec fn texts_kept(s: Seq<u8>, d: Doc, full: Doc, names: Set<Seq<char>>) -> bool {
    forall|u: int, cut: int|
        0 <= u < full.texts.len() && #[trigger] is_cut(full.starts, cut, full.texts[u])
            && some_wanted(s, full, cut, names) ==> has_text(d, full.texts[u])
}

/// Tags are not empty and end before a position.
pub open spec fn tags_placed(d: Doc, last: int) -> bool {
    forall|a: int| #![trigger d.starts[a]]
        0 <= a < d.starts.len() ==> d.starts[a] < d.ends[a] <= last
}

/// Every text stands between tags.
pub open spec fn texts_cut(d: Doc) -> bool {
    forall|u: int| 0 <= u < d.texts.len() ==> has_cut(d.starts, #[trigger] d.texts[u])
}

/// A text after a tag starts behind its end, unless the tag is a CDATA section.
pub open spec fn texts_behind(d: Doc) -> bool {
    forall|u: int, a: int|
        #![trigger d.texts[u], d.starts[a]]
        0 <= u < d.texts.len() && 0 <= a < d.starts.len() && d.types[a] != TagType::CData
            && d.starts[a] < d.texts[u].start ==> d.ends[a] < d.texts[u].start
}

/// Where tags and texts of a document stand, up to a position.
pub open spec fn well_placed(d: Doc, last: int) -> bool {
    &&& texts_ordered(d.texts, last)
    &&& tags_placed(d, last)
    &&& texts_cut(d)
    &&& texts_behind(d)
}

/// The frames tell whether their names are wanted, and no name is too long.
pub open spec fn frames_told(s: Seq<u8>, frames: Seq<Frame>, names: Set<Seq<char>>) -> bool {
    forall|m: int| #![trigger frames[m]]
        0 <= m < frames.len() ==> {
            let l = frames[m].lexeme;
            &&& frames[m].wanted == is_wanted(s, l, names)
            &&& 0 <= l.name_start <= l.name_end <= s.len()
            &&& l.name_end - l.name_start < 0x1_0000
        }
}

proof fn lemma_frames_told(k: Sketch, s: Seq<u8>, l: LexemeV, names: Set<Seq<char>>)
    requires
        k.wf(s.len()),
        s.len() <= u64::MAX,
        frames_told(s, k.frames, names),
        0 <= l.name_start <= l.name_end <= s.len(),
        l.name_end - l.name_start < 0x1_0000,
    ensures
        frames_told(s, k.extend(s, l, names).frames, names),
{
    lemma_retained(k, k.frames.len(), s.len());
    let r = k.extend(s, l, names);
    let base = k.retained(k.frames.len());
    assert forall|m: int| #![trigger r.frames[m]] 0 <= m < r.frames.len() implies ({
        let f = r.frames[m];
        &&& f.wanted == is_wanted(s, f.lexeme, names)
        &&& 0 <= f.lexeme.name_start <= f.lexeme.name_end <= s.len()
        &&& f.lexeme.name_end - f.lexeme.name_start < 0x1_0000
    }) by {
        if m < k.frames.len() {
            assert(frames_told(s, k.frames, names));
            assert(k.frames[m].wanted == is_wanted(s, k.frames[m].lexeme, names));
            assert(base.frames[m].lexeme == k.frames[m].lexeme);
            assert(r.frames[m] == k.frames[m] || r.frames[m] == base.frames[m]);
        }
    }
}

/// When a tag on the stack is wanted, the frames show it.
proof fn lemma_wanted_frame(k: Sketch, o: Outline, s: Seq<u8>, names: Set<Seq<char>>)
    requires
        side_by_side(k, o, s.len()),
        s.len() <= u64::MAX,
        frames_told(s, k.frames, names),
        o.open.len() == open_stack(o.doc.types, o.doc.types.len() as int).len(),
        forall|j: int|
            0 <= j < o.open.len() ==> #[trigger] o.open[j] == open_stack(
                o.doc.types,
                o.doc.types.len() as int,
            )[j],
        some_wanted(s, o.doc, o.doc.types.len() as int, names),
    ensures
        under_wanted(k.frames),
{
    let st = open_stack(o.doc.types, o.doc.types.len() as int);
    let m = choose|m: int|
        0 <= m < st.len() && wanted_tag(s, o.doc, #[trigger] st[m], names);
    assert(o.open[m] == st[m]);
    assert(frame_matches(k, o, m));
    let f = k.frames[m];
    assert(f.wanted == is_wanted(s, f.lexeme, names));
    assert((f.lexeme.name_end - f.lexeme.name_start) % 0x1_0000 == f.lexeme.name_end
        - f.lexeme.name_start);
    assert(k.frames[m].wanted);
}

proof fn lemma_has_text_stays(d: Doc, e: Doc, t: TextRange)
    requires
        has_text(d, t),
        d.texts.len() <= e.texts.len(),
        forall|v: int| 0 <= v < d.texts.len() ==> d.texts[v] == e.texts[v],
    ensures
        has_text(e, t),
{
    let v = choose|v: int|
        0 <= v < d.texts.len() && (#[trigger] d.texts[v]).start == t.start && d.texts[v].end
            == t.end;
    assert(e.texts[v].start == t.start);
}

/// What is recorded of the text before a construct, and of a CDATA section.
proof fn lemma_extend_texts(k: Sketch, o: Outline, s: Seq<u8>, l: LexemeV, names: Set<Seq<char>>)
    requires
        k.wf(s.len()),
        s.len() <= u64::MAX,
        k.last_end == o.last_end,
        l.text is Some ==> l.kind == Some(TagType::CData),
    ensures
        ({
            let r = k.extend(s, l, names).doc;
            let x = o.extend(l).doc;
            let n = k.doc.texts.len() as int;
            let m = o.doc.texts.len() as int;
            &&& n <= r.texts.len()
            &&& forall|v: int| 0 <= v < n ==> r.texts[v] == k.doc.texts[v]
            &&& m <= x.texts.len()
            &&& forall|v: int| 0 <= v < m ==> x.texts[v] == o.doc.texts[v]
            &&& under_wanted(k.frames) ==> r.texts.len() - n == x.texts.len() - m && forall|v: int|
                #![trigger r.texts[v]]
                n <= v < r.texts.len() ==> r.texts[v].start == x.texts[v - n + m].start
                    && r.texts[v].end == x.texts[v - n + m].end
            &&& !under_wanted(k.frames) ==> r.texts == k.doc.texts
        }),
{
    lemma_retained(k, k.frames.len(), s.len());
    let base = k.retained(k.frames.len());
    assert(under_wanted(base.frames) == under_wanted(k.frames)) by {
        if under_wanted(k.frames) {
            let i = choose|i: int| 0 <= i < k.frames.len() && (#[trigger] k.frames[i]).wanted;
            assert(base.frames[i].wanted);
        }
        if under_wanted(base.frames) {
            let i = choose|i: int| 0 <= i < base.frames.len() && (#[trigger] base.frames[i]).wanted;
            assert(k.frames[i].wanted);
        }
    }
}

/// Reading a construct keeps tags and texts in their places, and every text under a
/// wanted tag recorded.
#[verifier::spinoff_prover]
#[verifier::rlimit(60)]
proof fn lemma_extend_kept(k: Sketch, o: Outline, s: Seq<u8>, l: LexemeV, names: Set<Seq<char>>)
    requires
        side_by_side(k, o, s.len()),
        s.len() <= u64::MAX,
        frames_told(s, k.frames, names),
        o.open.len() == open_stack(o.doc.types, o.doc.types.len() as int).len(),
        forall|j: int|
            0 <= j < o.open.len() ==> #[trigger] o.open[j] == open_stack(
                o.doc.types,
                o.doc.types.len() as int,
            )[j],
        well_placed(o.doc, o.last_end),
        texts_ordered(k.doc.texts, k.last_end),
        texts_kept(s, k.doc, o.doc, names),
        0 <= l.start <= l.end <= s.len(),
        l.kind is Some ==> l.start < l.end,
        l.text matches Some(t) ==> l.start < t.0 < t.1 <= l.end && l.kind == Some(TagType::CData),
        o.doc.starts.len() > 0 || o.doc.texts.len() > 0 || o.last_end > 0 ==> o.last_end < l.start,
        o.doc.names.len() == o.doc.starts.len(),
    ensures
        well_placed(o.extend(l).doc, l.end),
        texts_ordered(k.extend(s, l, names).doc.texts, l.end),
        texts_kept(s, k.extend(s, l, names).doc, o.extend(l).doc, names),
{
    let r = k.extend(s, l, names).doc;
    let x = o.extend(l).doc;
    let f = o.doc;
    let from = text_from(o.last_end);
    let tags = f.starts.len() as int;
    let n = k.doc.texts.len() as int;
    let m = f.texts.len() as int;
    lemma_extend_texts(k, o, s, l, names);
    assert forall|a: int| #![trigger x.starts[a]] 0 <= a < x.starts.len() implies x.starts[a]
        < x.ends[a] <= l.end && (a < tags ==> x.starts[a] == f.starts[a] && x.ends[a] == f.ends[a]
        && x.ends[a] <= o.last_end) && (a >= tags ==> x.starts[a] == l.start && a == tags) by {
        if a < tags {
            assert(f.starts[a] < f.ends[a]);
        }
    }
    assert(tags_placed(x, l.end));
    assert forall|u: int| #![trigger x.texts[u]] 0 <= u < x.texts.len() implies x.texts[u].start
        < x.texts[u].end <= l.end && (u < m ==> x.texts[u] == f.texts[u] && x.texts[u].end
        <= o.last_end) && (u >= m ==> (x.texts[u].start == from && x.texts[u].end == l.start && u == m
        && from < l.start) || (l.text matches Some(t) && x.texts[u].start == t.0 && x.texts[u].end
        == t.1 && u == x.texts.len() - 1)) by {
        if u < m {
            assert(f.texts[u].start < f.texts[u].end);
        }
    }
    assert(texts_ordered(x.texts, l.end));
    assert(texts_ordered(r.texts, l.end)) by {
        assert forall|u: int| #![trigger r.texts[u]] 0 <= u < r.texts.len() implies r.texts[u].start
            < r.texts[u].end <= l.end && (u < n ==> r.texts[u].end <= o.last_end) by {
            if u < n {
                assert(k.doc.texts[u].start < k.doc.texts[u].end);
            } else {
                assert(x.texts[u - n + m].start < x.texts[u - n + m].end);
            }
        }
        assert forall|u: int, v: int| 0 <= u < v < r.texts.len() implies r.texts[u].end
            <= r.texts[v].start by {
            if u >= n {
                assert(x.texts[u - n + m].end <= x.texts[v - n + m].start);
            } else if v >= n {
                assert(x.texts[v - n + m].start >= from);
            } else {
                assert(k.doc.texts[u].end <= k.doc.texts[v].start);
            }
        }
    }
    assert forall|u: int| 0 <= u < x.texts.len() implies has_cut(x.starts, #[trigger] x.texts[u]) by {
        if u < m {
            assert(has_cut(f.starts, f.texts[u]));
            let cut = choose|cut: int| is_cut(f.starts, cut, f.texts[u]);
            assert(is_cut(x.starts, cut, x.texts[u]));
        } else if x.texts[u].end == l.start {
            assert(is_cut(x.starts, tags, x.texts[u]));
        } else {
            assert(is_cut(x.starts, tags + 1, x.texts[u]));
        }
    }
    assert(texts_cut(x));
    assert forall|u: int, a: int|
        #![trigger x.texts[u], x.starts[a]]
        0 <= u < x.texts.len() && 0 <= a < x.starts.len() && x.types[a] != TagType::CData
            && x.starts[a] < x.texts[u].start implies x.ends[a] < x.texts[u].start by {
        if u < m && a < tags {
            assert(f.texts[u] == x.texts[u]);
            assert(f.starts[a] == x.starts[a]);
            assert(f.types[a] == x.types[a]);
        }
    }
    assert(texts_behind(x));
    assert forall|u: int, cut: int|
        0 <= u < x.texts.len() && #[trigger] is_cut(x.starts, cut, x.texts[u]) && some_wanted(
            s,
            x,
            cut,
            names,
        ) implies has_text(r, x.texts[u]) by {
        let st = open_stack(x.types, cut);
        let w = choose|w: int|
            0 <= w < st.len() && wanted_tag(s, x, #[trigger] st[w], names);
        if u < m {
            if cut > tags {
                assert(x.starts[tags] < x.texts[u].start);
            }
            lemma_open_stack_prefix(x.types, f.types, cut);
            lemma_open_stack(f.types, cut);
            assert(open_stack(f.types, cut)[w] == st[w]);
            assert(x.names[st[w]] == f.names[st[w]]);
            assert(wanted_tag(s, f, open_stack(f.types, cut)[w], names));
            assert(is_cut(f.starts, cut, f.texts[u])) by {
                assert forall|a: int| 0 <= a < cut implies #[trigger] f.starts[a]
                    < f.texts[u].start by {
                    assert(x.starts[a] < x.texts[u].start);
                }
                assert forall|a: int| cut <= a < f.starts.len() implies #[trigger] f.starts[a]
                    >= f.texts[u].end by {
                    assert(x.starts[a] >= x.texts[u].end);
                }
            }
            assert(has_text(k.doc, f.texts[u]));
            lemma_has_text_stays(k.doc, r, x.texts[u]);
        } else {
            assert(cut >= tags) by {
                if cut < tags {
                    assert(x.starts[cut] >= x.texts[u].end);
                }
            }
            if cut > tags {
                assert(x.starts[tags] < x.texts[u].start);
                assert(l.kind == Some(TagType::CData));
                lemma_stack_push(f.types, TagType::CData);
                assert(x.types == f.types.push(TagType::CData));
            } else {
                lemma_open_stack_prefix(x.types, f.types, cut);
            }
            assert(st == open_stack(f.types, tags));
            lemma_open_stack(f.types, tags);
            assert(open_stack(f.types, tags)[w] == st[w]);
            assert(x.names[st[w]] == f.names[st[w]]);
            assert(wanted_tag(s, f, open_stack(f.types, tags)[w], names));
            lemma_wanted_frame(k, o, s, names);
            assert(r.texts[u - m + n].start == x.texts[u].start);
        }
    }
}

/// What holds of reading constructs for a query beside reading them all.
pub open spec fn kept_beside(k: Sketch, o: Outline, s: Seq<u8>, names: Set<Seq<char>>) -> bool {
    &&& side_by_side(k, o, s.len())
    &&& stacked(k)
    &&& closed_alike(k.doc, o.doc)
    &&& frames_told(s, k.frames, names)
    &&& well_placed(o.doc, o.last_end)
    &&& texts_ordered(k.doc.texts, k.last_end)
    &&& texts_kept(s, k.doc, o.doc, names)
}

/// No name of these constructs is longer than a name entry can say.
pub open spec fn short_names(ls: Seq<LexemeV>) -> bool {
    forall|i: int| #![trigger ls[i]]
        0 <= i < ls.len() ==> ls[i].name_end - ls[i].name_start < 0x1_0000
}

pub proof fn lemma_kept_beside(s: Seq<u8>, ls: Seq<LexemeV>, names: Set<Seq<char>>)
    requires
        s.len() <= u64::MAX,
        in_order(ls, s),
        short_names(ls),
        outline(ls).doc.starts.len() <= u32::MAX,
    ensures
        kept_beside(sketch(s, ls, names), outline(ls), s, names),
    decreases ls.len(),
{
    lemma_sketch_side_by_side(s, ls, names);
    if ls.len() > 0 {
        let before = ls.drop_last();
        let l = ls.last();
        assert forall|i: int| #![trigger before[i]] 0 <= i < before.len() implies before[i] == ls[i] by {}
        assert(outline(before).doc.starts.len() <= outline(ls).doc.starts.len());
        lemma_kept_beside(s, before, names);
        lemma_sketch_side_by_side(s, before, names);
        let k = sketch(s, before, names);
        let o = outline(before);
        assert(l == ls[ls.len() - 1]);
        lemma_lex_bounds(s, l.start, true);
        if before.len() > 0 {
            assert(before.last() == ls[ls.len() - 2]);
            assert(ls[ls.len() - 2].end < ls[ls.len() - 1].start);
        }
        lemma_sketch_extend_wf(k, s, l, names, true);
        lemma_outline_nested(before);
        lemma_outline_entries(before);
        lemma_part_len(sketch(s, ls, names).doc, outline(ls).doc);
        lemma_extend_stacked(k, s, l, names);
        lemma_extend_closed_alike(k, o, s, l, names);
        lemma_frames_told(k, s, l, names);
        lemma_extend_kept(k, o, s, l, names);
    }
}

// Close tags.

/// A tag that is closed in the whole document is closed at the same place.
pub proof fn lemma_partner_found(
    k: Sketch,
    o: Outline,
    s: Seq<u8>,
    names: Set<Seq<char>>,
    i: int,
    j: int,
)
    requires
        kept_beside(k, o, s, names),
        o.doc.types.len() == o.doc.starts.len(),
        o.doc.starts.len() <= u32::MAX,
        k.doc.starts.len() <= u32::MAX,
        forall|a: int, b: int| 0 <= a < b < o.doc.starts.len() ==> o.doc.starts[a] < o.doc.starts[b],
        o.open.len() == open_stack(o.doc.types, o.doc.types.len() as int).len(),
        forall|m: int|
            0 <= m < o.open.len() ==> #[trigger] o.open[m] == open_stack(
                o.doc.types,
                o.doc.types.len() as int,
            )[m],
        0 <= i < k.doc.starts.len(),
        k.doc.types[i] == TagType::Open,
        0 <= j < o.doc.starts.len(),
        o.doc.types[j] == TagType::Open,
        o.doc.starts[j] == k.doc.starts[i],
        partner(o.doc.types, j) is Some,
    ensures
        ({
            let c = partner(o.doc.types, j)->0;
            partner(k.doc.types, i) matches Some(e) && i < e < k.doc.starts.len()
                && k.doc.types[e] == TagType::Close && j < c < o.doc.starts.len()
                && k.doc.starts[e] == o.doc.starts[c]
        }),
{
    let size = k.doc.types.len() as int;
    let n = o.doc.types.len() as int;
    lemma_open_until_closed(k.doc.types, i, size);
    lemma_open_until_closed(o.doc.types, j, n);
    if partner(k.doc.types, i) is None {
        lemma_slots(k.frames);
        let st = slots(k.frames);
        assert(st.contains(i));
        let m = choose|m: int| 0 <= m < st.len() && st[m] == i;
        assert(k.frames[m].slot is Some);
        assert(frame_matches(k, o, m));
        let other = o.open[m] as int;
        assert(o.doc.starts[other] == o.doc.starts[j]);
        assert(other == j);
        assert(open_stack(o.doc.types, n)[m] == j);
        assert(open_stack(o.doc.types, n).contains(j));
    } else {
        let e = partner(k.doc.types, i)->0;
        assert(closes_like(k.doc, i, e, o.doc));
        let other = choose|other: int|
            0 <= other < o.doc.starts.len() && #[trigger] o.doc.types[other] == TagType::Open
                && o.doc.starts[other] == k.doc.starts[i] && (partner(
                o.doc.types,
                other,
            ) matches Some(x) && 0 <= x < o.doc.starts.len() && o.doc.starts[x]
                == k.doc.starts[e]);
        assert(other == j);
    }
}

// Lists of texts.

/// The ranges among the first `k` texts that lie in `lo..=hi`.
pub open spec fn inside(texts: Seq<TextRange>, lo: int, hi: int, k: int) -> Seq<(u64, u64)>
    decreases k,
{
    if k <= 0 {
        Seq::empty()
    } else {
        let before = inside(texts, lo, hi, k - 1);
        let t = texts[k - 1];
        if lo <= t.start && t.end <= hi {
            before.push((t.start, t.end))
        } else {
            before
        }
    }
}

proof fn lemma_inside(texts: Seq<TextRange>, lo: int, hi: int, k: int, last: int)
    requires
        texts_ordered(texts, last),
        0 <= k <= texts.len(),
    ensures
        forall|m: int| #![trigger inside(texts, lo, hi, k)[m]]
            0 <= m < inside(texts, lo, hi, k).len() ==> exists|u: int|
                0 <= u < k && (#[trigger] texts[u]).start == inside(texts, lo, hi, k)[m].0
                    && texts[u].end == inside(texts, lo, hi, k)[m].1 && lo <= texts[u].start
                    && texts[u].end <= hi,
        forall|u: int| #![trigger texts[u]]
            0 <= u < k && lo <= texts[u].start && texts[u].end <= hi ==> inside(
                texts,
                lo,
                hi,
                k,
            ).contains((texts[u].start, texts[u].end)),
        forall|a: int, b: int|
            0 <= a < b < inside(texts, lo, hi, k).len() ==> inside(texts, lo, hi, k)[a].0 < inside(
                texts,
                lo,
                hi,
                k,
            )[b].0,
    decreases k,
{
    if k > 0 {
        lemma_inside(texts, lo, hi, k - 1, last);
        let before = inside(texts, lo, hi, k - 1);
        let all = inside(texts, lo, hi, k);
        assert forall|m: int| #![trigger all[m]] 0 <= m < all.len() implies exists|u: int|
            0 <= u < k && (#[trigger] texts[u]).start == all[m].0 && texts[u].end == all[m].1 && lo
                <= texts[u].start && texts[u].end <= hi by {
            if m < before.len() {
                assert(all[m] == before[m]);
            } else {
                assert(texts[k - 1].start == all[m].0);
            }
        }
        assert forall|u: int| #![trigger texts[u]]
            0 <= u < k && lo <= texts[u].start && texts[u].end <= hi implies all.contains(
            (texts[u].start, texts[u].end),
        ) by {
            let pair = (texts[u].start, texts[u].end);
            if u < k - 1 {
                let m = choose|m: int| 0 <= m < before.len() && before[m] == pair;
                assert(all[m] == pair);
            } else {
                assert(all[all.len() - 1] == pair);
            }
        }
        assert forall|a: int, b: int| 0 <= a < b < all.len() implies all[a].0 < all[b].0 by {
            if b == before.len() {
                assert(before[a] == all[a]);
                let u = choose|u: int|
                    0 <= u < k - 1 && (#[trigger] texts[u]).start == before[a].0 && texts[u].end
                        == before[a].1 && lo <= texts[u].start && texts[u].end <= hi;
                assert(texts[u].end <= texts[k - 1].start);
            }
        }
    }
}

/// Ascending lists of ranges with the same elements are equal.
proof fn lemma_same_ranges(a: Seq<(u64, u64)>, b: Seq<(u64, u64)>)
    requires
        forall|i: int, j: int| 0 <= i < j < a.len() ==> a[i].0 < a[j].0,
        forall|i: int, j: int| 0 <= i < j < b.len() ==> b[i].0 < b[j].0,
        forall|i: int| 0 <= i < a.len() ==> b.contains(#[trigger] a[i]),
        forall|i: int| 0 <= i < b.len() ==> a.contains(#[trigger] b[i]),
    ensures
        a == b,
    decreases a.len(),
{
    if a.len() == 0 {
        if b.len() > 0 {
            assert(a.contains(b[0]));
        }
        assert(a =~= b);
    } else {
        assert(b.contains(a[0]));
        let m = a.len() - 1;
        let n = b.len() - 1;
        assert(b.contains(a[m]));
        assert(a.contains(b[n]));
        let i = choose|i: int| 0 <= i < b.len() && b[i] == a[m];
        let j = choose|j: int| 0 <= j < a.len() && a[j] == b[n];
        assert(a[m] == b[n]);
        let c = a.drop_last();
        let d = b.drop_last();
        assert forall|k: int| 0 <= k < c.len() implies d.contains(#[trigger] c[k]) by {
            assert(b.contains(a[k]));
            let w = choose|w: int| 0 <= w < b.len() && b[w] == a[k];
            assert(a[k].0 < a[m].0);
            assert(d[w] == c[k]);
        }
        assert forall|k: int| 0 <= k < d.len() implies c.contains(#[trigger] d[k]) by {
            assert(a.contains(b[k]));
            let w = choose|w: int| 0 <= w < a.len() && a[w] == b[k];
            assert(b[k].0 < b[n].0);
            assert(c[w] == d[k]);
        }
        lemma_same_ranges(c, d);
        assert(a =~= c.push(a[m]));
        assert(b =~= d.push(b[n]));
    }
}

/// The texts in a part of the input are the same in both documents, when every text
/// of the whole document in that part is recorded.
pub proof fn lemma_same_inside(d: Doc, full: Doc, lo: int, hi: int, last: int)
    requires
        texts_ordered(d.texts, last),
        texts_ordered(full.texts, last),
        is_part(d, full),
        forall|u: int| #![trigger full.texts[u]]
            0 <= u < full.texts.len() && lo <= full.texts[u].start && full.texts[u].end <= hi
                ==> has_text(d, full.texts[u]),
    ensures
        inside(d.texts, lo, hi, d.texts.len() as int) == inside(
            full.texts,
            lo,
            hi,
            full.texts.len() as int,
        ),
{
    let n = d.texts.len() as int;
    let m = full.texts.len() as int;
    let a = inside(d.texts, lo, hi, n);
    let b = inside(full.texts, lo, hi, m);
    lemma_inside(d.texts, lo, hi, n, last);
    lemma_inside(full.texts, lo, hi, m, last);
    assert forall|i: int| 0 <= i < a.len() implies b.contains(#[trigger] a[i]) by {
        let u = choose|u: int|
            0 <= u < n && (#[trigger] d.texts[u]).start == a[i].0 && d.texts[u].end == a[i].1 && lo
                <= d.texts[u].start && d.texts[u].end <= hi;
        assert(text_occurs(d, u, full));
        let v = choose|v: int|
            0 <= v < full.texts.len() && (#[trigger] full.texts[v]).start == d.texts[u].start
                && full.texts[v].end == d.texts[u].end;
        assert(b.contains((full.texts[v].start, full.texts[v].end)));
    }
    assert forall|i: int| 0 <= i < b.len() implies a.contains(#[trigger] b[i]) by {
        let v = choose|v: int|
            0 <= v < m && (#[trigger] full.texts[v]).start == b[i].0 && full.texts[v].end
                == b[i].1 && lo <= full.texts[v].start && full.texts[v].end <= hi;
        assert(has_text(d, full.texts[v]));
        let u = choose|u: int|
            0 <= u < d.texts.len() && (#[trigger] d.texts[u]).start == full.texts[v].start
                && d.texts[u].end == full.texts[v].end;
        assert(a.contains((d.texts[u].start, d.texts[u].end)));
    }
    lemma_same_ranges(a, b);
}

/// Every text between a wanted tag and its close tag is recorded.
pub proof fn lemma_content_kept(
    s: Seq<u8>,
    d: Doc,
    full: Doc,
    names: Set<Seq<char>>,
    last: int,
    j: int,
    c: int,
    u: int,
)
    requires
        well_placed(full, last),
        texts_kept(s, d, full, names),
        full.types.len() == full.starts.len(),
        full.starts.len() <= u32::MAX,
        0 <= j < full.starts.len(),
        full.types[j] == TagType::Open,
        partner(full.types, j) == Some(c),
        wanted_tag(s, full, j, names),
        0 <= u < full.texts.len(),
        full.starts[j] <= full.texts[u].start,
        full.texts[u].end <= full.starts[c],
    ensures
        has_text(d, full.texts[u]),
{
    let t = full.texts[u];
    assert(has_cut(full.starts, t));
    let cut = choose|cut: int| is_cut(full.starts, cut, t);
    lemma_open_until_closed(full.types, j, cut);
    if j >= cut {
        assert(full.starts[j] >= t.end);
    }
    if c < cut {
        assert(full.starts[c] < t.start);
    }
    let st = open_stack(full.types, cut);
    let w = choose|w: int| 0 <= w < st.len() && st[w] == j;
    assert(wanted_tag(s, full, st[w], names));
    assert(some_wanted(s, full, cut, names));
}

/// No text lies inside a tag that is no CDATA section.
pub proof fn lemma_no_text_in_tag(full: Doc, last: int, j: int, u: int)
    requires
        well_placed(full, last),
        0 <= j < full.starts.len(),
        full.types[j] != TagType::CData,
        0 <= u < full.texts.len(),
        full.starts[j] <= full.texts[u].start,
    ensures
        full.texts[u].end > full.ends[j],
{
    let t = full.texts[u];
    assert(has_cut(full.starts, t));
    let cut = choose|cut: int| is_cut(full.starts, cut, t);
    if j >= cut {
        assert(full.starts[j] >= t.end);
    }
    assert(full.starts[j] < t.start);
}

} // verus!
