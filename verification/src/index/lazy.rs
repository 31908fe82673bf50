//! Query-driven parsing: indexing only the tags that a query is about.
//!
//! All constructs are scanned, but entries are made only for the elements whose
//! names are wanted and for the ancestors of such elements. Text is recorded
//! only under wanted elements.

use vstd::prelude::*;
use crate::bytes::{find_byte, text_of, text_or_empty};
use crate::error::SimdXmlError;
use crate::index::lexer::{lemma_lex_bounds, lex, scan_construct, Lexeme, LexemeV};
use crate::index::outline::{scan, text_from, Doc, Scan};
use crate::index::structural::{low32, parse_scalar, parsed};
use crate::index::{TagType, TextRange, XmlIndex};
use crate::name_set::NameSet;

verus! {

/// An open tag that encloses the current position: where it stands, at which
/// depth, whether its name is wanted, and the index of its entry, if it has got
/// one.
pub struct Frame {
    pub lexeme: LexemeV,
    pub depth: int,
    pub wanted: bool,
    pub slot: Option<u32>,
}

/// The state of reading constructs in document order for a query: the entries
/// made so far, the enclosing open tags, the current depth, and the end of the
/// last construct.
#[verifier::ext_equal]
pub struct Sketch {
    pub doc: Doc,
    pub frames: Seq<Frame>,
    pub depth: int,
    pub last_end: int,
}

/// Whether the name of a construct is one of the given names.
pub open spec fn is_wanted(s: Seq<u8>, l: LexemeV, names: Set<Seq<char>>) -> bool {
    names.contains(text_of(s.subrange(l.name_start, l.name_end)))
}

/// The entry of the nearest enclosing tag that has one; `u32::MAX` when none
/// has.
pub open spec fn nearest_slot(frames: Seq<Frame>) -> u32
    decreases frames.len(),
{
    if frames.len() == 0 {
        u32::MAX
    } else {
        match frames.last().slot {
            Some(k) => k,
            None => nearest_slot(frames.drop_last()),
        }
    }
}

/// Whether one of the enclosing tags is wanted.
pub open spec fn under_wanted(frames: Seq<Frame>) -> bool {
    exists|i: int| 0 <= i < frames.len() && (#[trigger] frames[i]).wanted
}

impl Doc {
    /// The document with one more tag. Name lengths count modulo 2^16.
    pub open spec fn with_tag(self, kind: TagType, l: LexemeV, depth: int, parent: u32) -> Doc {
        Doc {
            starts: self.starts.push(l.start as u64),
            ends: self.ends.push(l.end as u64),
            types: self.types.push(kind),
            names: self.names.push(
                (l.name_start as u64, ((l.name_end - l.name_start) % 0x1_0000) as u16),
            ),
            depths: self.depths.push(depth as u16),
            parents: self.parents.push(parent),
            texts: self.texts,
        }
    }

    /// The document with one more text range.
    pub open spec fn with_text(self, start: int, end: int, parent: u32) -> Doc {
        Doc {
            texts: self.texts.push(
                TextRange { start: start as u64, end: end as u64, parent_tag: parent },
            ),
            ..self
        }
    }

    /// The index that the next tag gets, modulo 2^32.
    pub open spec fn next_tag(self) -> u32 {
        (self.starts.len() as int % 0x1_0000_0000) as u32
    }
}

impl Sketch {
    pub open spec fn start() -> Sketch {
        Sketch { doc: Doc::empty(), frames: Seq::empty(), depth: 0, last_end: 0 }
    }

    /// Makes an entry for the enclosing tag at place `i`, unless it has one.
    pub open spec fn retain(self, i: int) -> Sketch {
        let f = self.frames[i];
        if f.slot is Some {
            self
        } else {
            Sketch {
                doc: self.doc.with_tag(
                    TagType::Open,
                    f.lexeme,
                    f.depth,
                    nearest_slot(self.frames.take(i)),
                ),
                frames: self.frames.update(i, Frame { slot: Some(self.doc.next_tag()), ..f }),
                ..self
            }
        }
    }

    /// Makes entries for the outermost `k` enclosing tags.
    pub open spec fn retained(self, k: nat) -> Sketch
        decreases k,
    {
        if k == 0 {
            self
        } else {
            self.retained((k - 1) as nat).retain(k - 1)
        }
    }

    /// The document once the text before position `p` is recorded under the
    /// given parent, if there is any and it stands under a wanted element.
    pub open spec fn gap(self, p: int, parent: u32) -> Doc {
        let from = text_from(self.last_end);
        if from < p && under_wanted(self.frames) {
            self.doc.with_text(from, p, parent)
        } else {
            self.doc
        }
    }

    /// Reads a close tag. It gets an entry when the tag it closes has one.
    pub open spec fn close(self, l: LexemeV) -> Sketch {
        let depth = if self.depth > 0 {
            self.depth - 1
        } else {
            self.depth
        };
        if self.frames.len() == 0 {
            Sketch { depth, last_end: l.end, ..self }
        } else {
            let f = self.frames.last();
            let frames = self.frames.drop_last();
            let doc = self.gap(l.start, nearest_slot(self.frames));
            Sketch {
                doc: if f.slot is Some {
                    doc.with_tag(TagType::Close, l, depth, nearest_slot(frames))
                } else {
                    doc
                },
                frames,
                depth,
                last_end: l.end,
            }
        }
    }

    /// Reads an open or self-closing tag. When its name is wanted, it and all
    /// enclosing tags get entries. Depths count modulo 2^16.
    pub open spec fn open(
        self,
        s: Seq<u8>,
        kind: TagType,
        l: LexemeV,
        names: Set<Seq<char>>,
    ) -> Sketch {
        let wanted = is_wanted(s, l, names);
        let base = if wanted {
            self.retained(self.frames.len())
        } else {
            self
        };
        let parent = nearest_slot(base.frames);
        let texted = base.gap(l.start, parent);
        let frame = Frame {
            lexeme: l,
            depth: self.depth,
            wanted,
            slot: if wanted {
                Some(texted.next_tag())
            } else {
                None
            },
        };
        Sketch {
            doc: if wanted {
                texted.with_tag(kind, l, self.depth, parent)
            } else {
                texted
            },
            frames: if kind == TagType::Open {
                base.frames.push(frame)
            } else {
                base.frames
            },
            depth: if kind == TagType::Open {
                (self.depth + 1) % 0x1_0000
            } else {
                self.depth
            },
            last_end: l.end,
        }
    }

    /// Reads one more construct. The text before it, and the text of a CDATA
    /// section, is recorded under a wanted element. Comments, processing
    /// instructions and declarations get no entry.
    pub open spec fn extend(self, s: Seq<u8>, l: LexemeV, names: Set<Seq<char>>) -> Sketch {
        match l.kind {
            Some(TagType::Close) => self.close(l),
            Some(TagType::Open) => self.open(s, TagType::Open, l, names),
            Some(TagType::SelfClose) => self.open(s, TagType::SelfClose, l, names),
            Some(TagType::CData) => {
                let before = self.gap(l.start, nearest_slot(self.frames));
                let doc = match l.text {
                    Some(t) => if under_wanted(self.frames) {
                        before.with_text(t.0, t.1, nearest_slot(self.frames))
                    } else {
                        before
                    },
                    None => before,
                };
                Sketch { doc, last_end: l.end, ..self }
            },
            _ => Sketch {
                doc: self.gap(l.start, nearest_slot(self.frames)),
                last_end: l.end,
                ..self
            },
        }
    }

    /// Consistency with an input of `n` bytes.
    pub open spec fn wf(self, n: nat) -> bool {
        &&& self.doc.wf(n)
        &&& 0 <= self.depth < 0x1_0000
        &&& 0 <= self.last_end <= n
        &&& self.doc.starts.len() > 0 ==> self.doc.starts.last() <= self.last_end
        &&& forall|i: int| #![trigger self.frames[i]]
            0 <= i < self.frames.len() ==> {
                let f = self.frames[i];
                &&& 0 <= f.lexeme.start < n
                &&& f.lexeme.start <= f.lexeme.end <= n
                &&& f.lexeme.start <= self.last_end
                &&& 0 <= f.lexeme.name_start <= f.lexeme.name_end <= n
                &&& 0 <= f.depth < 0x1_0000
                &&& f.wanted ==> f.slot is Some
                &&& f.slot matches Some(k) ==> k < self.doc.starts.len()
                &&& f.slot is None ==> (self.doc.starts.len() > 0 ==> self.doc.starts.last()
                    < f.lexeme.start)
            }
        &&& forall|i: int, j: int|
            0 <= i < j < self.frames.len() ==> (#[trigger] self.frames[i]).lexeme.start < (
            #[trigger] self.frames[j]).lexeme.start
        &&& forall|i: int, j: int|
            0 <= i < j < self.frames.len() && (#[trigger] self.frames[j]).slot is Some ==> (
            #[trigger] self.frames[i]).slot is Some
    }
}

/// What reading the given constructs in order makes for a query.
pub open spec fn sketch(s: Seq<u8>, ls: Seq<LexemeV>, names: Set<Seq<char>>) -> Sketch
    decreases ls.len(),
{
    if ls.len() == 0 {
        Sketch::start()
    } else {
        sketch(s, ls.drop_last(), names).extend(s, ls.last(), names)
    }
}

/// What parsing for a query yields: the document arrays, or the position of the
/// tag that the input ended in. Without names, everything is indexed.
pub open spec fn parsed_for(s: Seq<u8>, names: Set<Seq<char>>) -> std::result::Result<Doc, int> {
    if names == Set::<Seq<char>>::empty() {
        parsed(s)
    } else {
        let found = scan(s, 0, true);
        match found.unclosed {
            Some(p) => Err(p),
            None => Ok(sketch(s, found.lexemes, names).doc),
        }
    }
}

proof fn lemma_with_tag_wf(d: Doc, kind: TagType, l: LexemeV, depth: int, parent: u32, n: nat)
    requires
        d.wf(n),
        n <= u64::MAX,
        0 <= l.start < n,
        l.start <= l.end <= n,
        0 <= l.name_start <= l.name_end <= n,
        d.starts.len() > 0 ==> d.starts.last() < l.start,
        parent == u32::MAX || parent < d.starts.len(),
    ensures
        d.with_tag(kind, l, depth, parent).wf(n),
{
    let e = d.with_tag(kind, l, depth, parent);
    assert((l.name_end - l.name_start) % 0x1_0000 <= l.name_end - l.name_start)
        by (nonlinear_arith)
        requires
            l.name_end - l.name_start >= 0,
    ;
    assert forall|i: int, j: int| 0 <= i < j < e.starts.len() implies e.starts[i] < e.starts[j] by {
        if j == d.starts.len() && i < j - 1 {
            assert(d.starts[i] < d.starts[j - 1]);
        }
    }
    assert forall|i: int| 0 <= i < e.parents.len() implies #[trigger] e.parents[i] == u32::MAX
        || e.parents[i] < i by {
        if i < d.parents.len() {
            assert(e.parents[i] == d.parents[i]);
        }
    }
}

proof fn lemma_nearest_slot(frames: Seq<Frame>, n: nat)
    requires
        forall|i: int|
            0 <= i < frames.len() ==> ((#[trigger] frames[i]).slot matches Some(k) ==> k < n),
    ensures
        nearest_slot(frames) == u32::MAX || nearest_slot(frames) < n,
    decreases frames.len(),
{
    if frames.len() > 0 {
        assert forall|i: int| 0 <= i < frames.drop_last().len() implies ((
        #[trigger] frames.drop_last()[i]).slot matches Some(k) ==> k < n) by {
            assert(frames.drop_last()[i] == frames[i]);
        }
        lemma_nearest_slot(frames.drop_last(), n);
    }
}

/// Making entries for enclosing tags keeps the state consistent.
pub proof fn lemma_retained(o: Sketch, k: nat, n: nat)
    requires
        o.wf(n),
        n <= u64::MAX,
        k <= o.frames.len(),
    ensures
        ({
            let r = o.retained(k);
            &&& r.wf(n)
            &&& r.frames.len() == o.frames.len()
            &&& r.depth == o.depth
            &&& r.last_end == o.last_end
            &&& r.doc.texts == o.doc.texts
            &&& forall|i: int| 0 <= i < k ==> (#[trigger] r.frames[i]).slot is Some
            &&& forall|i: int| #![trigger r.frames[i]]
                0 <= i < o.frames.len() ==> r.frames[i].wanted == o.frames[i].wanted
                    && r.frames[i].lexeme == o.frames[i].lexeme && r.frames[i].depth
                    == o.frames[i].depth
            &&& forall|i: int| k <= i < o.frames.len() ==> r.frames[i] == o.frames[i]
        }),
    decreases k,
{
    if k > 0 {
        lemma_retained(o, (k - 1) as nat, n);
        let q = o.retained((k - 1) as nat);
        let i = k - 1;
        if q.frames[i].slot is None {
            assert forall|j: int| 0 <= j < q.frames.take(i).len() implies ((#[trigger] q.frames.take(
                i,
            )[j]).slot matches Some(v) ==> v < q.doc.starts.len()) by {
                assert(q.frames.take(i)[j] == q.frames[j]);
            }
            lemma_nearest_slot(q.frames.take(i), q.doc.starts.len());
            lemma_with_tag_wf(
                q.doc,
                TagType::Open,
                q.frames[i].lexeme,
                q.frames[i].depth,
                nearest_slot(q.frames.take(i)),
                n,
            );
            let r = q.retain(i);
            assert forall|a: int, b: int| 0 <= a < b < r.frames.len() && (
            #[trigger] r.frames[b]).slot is Some implies (#[trigger] r.frames[a]).slot is Some by {
                if b > i {
                    assert(q.frames[b].slot is Some);
                    assert(q.frames[i].slot is Some);
                }
            }
            assert(r.wf(n));
        }
    }
}

/// Reading a construct that starts after the last one keeps the state
/// consistent.
pub proof fn lemma_sketch_extend_wf(
    o: Sketch,
    s: Seq<u8>,
    l: LexemeV,
    names: Set<Seq<char>>,
    lenient: bool,
)
    requires
        o.wf(s.len()),
        s.len() <= u64::MAX,
        0 <= l.start < s.len(),
        (o.doc.starts.len() > 0 || o.frames.len() > 0) ==> o.last_end < l.start,
        lex(s, l.start, lenient) == Some(l),
    ensures
        o.extend(s, l, names).wf(s.len()),
        o.extend(s, l, names).last_end == l.end,
{
    let n = s.len();
    lemma_lex_bounds(s, l.start, lenient);
    lemma_nearest_slot(o.frames, o.doc.starts.len());
    match l.kind {
        Some(TagType::Close) => {
            if o.frames.len() > 0 {
                let frames = o.frames.drop_last();
                assert forall|i: int| 0 <= i < frames.len() implies ((
                #[trigger] frames[i]).slot matches Some(k) ==> k < o.doc.starts.len()) by {
                    assert(frames[i] == o.frames[i]);
                }
                lemma_nearest_slot(frames, o.doc.starts.len());
                let f = o.frames.last();
                let depth = if o.depth > 0 {
                    o.depth - 1
                } else {
                    o.depth
                };
                let doc = o.gap(l.start, nearest_slot(o.frames));
                assert(doc.wf(n));
                if f.slot is Some {
                    lemma_with_tag_wf(doc, TagType::Close, l, depth, nearest_slot(frames), n);
                    assert forall|i: int| 0 <= i < frames.len() implies (
                    #[trigger] frames[i]).slot is Some by {
                        assert(frames[i] == o.frames[i]);
                        assert(o.frames[o.frames.len() - 1].slot is Some);
                    }
                }
                let r = o.close(l);
                assert forall|i: int| #![trigger r.frames[i]] 0 <= i < r.frames.len() implies r.frames[i]
                    == o.frames[i] by {}
            }
        },
        Some(TagType::Open) | Some(TagType::SelfClose) => {
            let kind = l.kind->0;
            if is_wanted(s, l, names) {
                lemma_retained(o, o.frames.len(), n);
                let base = o.retained(o.frames.len());
                lemma_nearest_slot(base.frames, base.doc.starts.len());
                let parent = nearest_slot(base.frames);
                let texted = base.gap(l.start, parent);
                lemma_retained_starts(o, o.frames.len(), l.start, n);
                assert(texted.wf(n));
                lemma_with_tag_wf(texted, kind, l, o.depth, parent, n);
            }
            let r = o.open(s, kind, l, names);
            assert(r.wf(n));
        },
        _ => {
            assert(o.extend(s, l, names).doc.wf(n));
        },
    }
}

/// Entries made for enclosing tags start before anything that comes after
/// them.
proof fn lemma_retained_starts(o: Sketch, k: nat, p: int, n: nat)
    requires
        o.wf(n),
        n <= u64::MAX,
        k <= o.frames.len(),
        (o.doc.starts.len() > 0 || o.frames.len() > 0) ==> o.last_end < p,
    ensures
        o.retained(k).doc.starts.len() > 0 ==> o.retained(k).doc.starts.last() < p,
    decreases k,
{
    if k > 0 {
        lemma_retained_starts(o, (k - 1) as nat, p, n);
        lemma_retained(o, (k - 1) as nat, n);
        let q = o.retained((k - 1) as nat);
        assert(q.frames[k - 1].lexeme.start <= q.last_end);
    }
}

/// An enclosing open tag: see `Frame`.
#[derive(Clone, Copy)]
struct ParentEntry {
    lexeme: Lexeme,
    depth: u16,
    is_interesting: bool,
    slot: Option<u32>,
}

impl View for ParentEntry {
    type V = Frame;

    closed spec fn view(&self) -> Frame {
        Frame {
            lexeme: self.lexeme@,
            depth: self.depth as int,
            wanted: self.is_interesting,
            slot: self.slot,
        }
    }
}

spec fn frames_of(stack: Seq<ParentEntry>) -> Seq<Frame> {
    Seq::new(stack.len(), |i: int| stack[i]@)
}

/// Whether any of the enclosing tags is wanted.
fn has_interesting_ancestor(stack: &Vec<ParentEntry>) -> (r: bool)
    ensures
        r == under_wanted(frames_of(stack@)),
{
    let n: usize = stack.len();
    let mut i: usize = 0;
    while i < n
        invariant
            n == stack@.len(),
            i <= n,
            forall|j: int| 0 <= j < i ==> !(#[trigger] frames_of(stack@)[j]).wanted,
        decreases n - i,
    {
        if stack[i].is_interesting {
            assert(frames_of(stack@)[i as int].wanted);
            return true;
        }
        i += 1;
    }
    false
}

/// The entry of the nearest of the outermost `k` enclosing tags that has one.
fn find_interesting_parent(stack: &Vec<ParentEntry>, k: usize) -> (r: u32)
    requires
        k <= stack@.len(),
    ensures
        r == nearest_slot(frames_of(stack@).take(k as int)),
{
    let mut i: usize = k;
    while i > 0
        invariant
            i <= k <= stack@.len(),
            nearest_slot(frames_of(stack@).take(k as int)) == nearest_slot(
                frames_of(stack@).take(i as int),
            ),
        decreases i,
    {
        let ghost top = frames_of(stack@).take(i as int);
        assert(top.drop_last() =~= frames_of(stack@).take(i - 1));
        i -= 1;
        if let Some(slot) = stack[i].slot {
            return slot;
        }
    }
    u32::MAX
}

/// Records the text between the end of the last construct and `p` under the
/// given parent, if there is any and it stands under a wanted element.
fn capture_text_if_interesting(
    index: &mut XmlIndex,
    stack: &Vec<ParentEntry>,
    last_end: usize,
    p: usize,
    parent: u32,
)
    requires
        p < old(index).input@.len(),
        last_end < p || last_end == 0,
    ensures
        final(index).input == old(index).input,
        old(index).bare() ==> final(index).bare(),
        final(index).doc() == ({
            let from = text_from(last_end as int);
            if from < p && under_wanted(frames_of(stack@)) {
                old(index).doc().with_text(from, p as int, parent)
            } else {
                old(index).doc()
            }
        }),
{
    let from: usize = if last_end > 0 {
        last_end + 1
    } else {
        0
    };
    if from < p && has_interesting_ancestor(stack) {
        index.push_text(from, p, parent);
    }
}

/// Makes entries for all enclosing tags that have none.
fn retain_ancestors(index: &mut XmlIndex, stack: &mut Vec<ParentEntry>, Ghost(o): Ghost<Sketch>)
    requires
        old(index).doc() == o.doc,
        frames_of(old(stack)@) == o.frames,
        o.wf(old(index).input@.len()),
        old(index).input@.len() <= u64::MAX,
    ensures
        final(index).input == old(index).input,
        old(index).bare() ==> final(index).bare(),
        final(index).doc() == o.retained(o.frames.len()).doc,
        frames_of(final(stack)@) == o.retained(o.frames.len()).frames,
{
    let n: usize = stack.len();
    let mut i: usize = 0;
    while i < n
        invariant
            i <= n,
            n == stack@.len(),
            n == o.frames.len(),
            index.input == old(index).input,
            old(index).bare() ==> index.bare(),
            o.wf(index.input@.len()),
            index.input@.len() <= u64::MAX,
            index.doc() == o.retained(i as nat).doc,
            frames_of(stack@) == o.retained(i as nat).frames,
        decreases n - i,
    {
        let ghost q = o.retained(i as nat);
        proof {
            lemma_retained(o, i as nat, index.input@.len());
            assert(q.frames[i as int] == stack@[i as int]@);
            assert(o.retained((i + 1) as nat) == q.retain(i as int));
        }
        let mut e: ParentEntry = stack[i];
        if e.slot.is_none() {
            let parent: u32 = find_interesting_parent(stack, i);
            let slot: u32 = low32(index.tag_starts.len());
            index.push_tag(TagType::Open, &e.lexeme, e.depth, parent);
            e.slot = Some(slot);
            stack.set(i, e);
            assert(index.doc() =~= q.retain(i as int).doc);
            assert(frames_of(stack@) =~= q.retain(i as int).frames);
        }
        i += 1;
    }
}

/// The lookup tables are built exactly when the index has at least 64 tags and
/// its counts fit them.
pub open spec fn tabled_if_large(index: XmlIndex) -> bool {
    if index.tags() >= 64 && index.tables_fit() {
        &&& index.indexed()
        &&& index.name_ids@.len() == 0
        &&& index.name_table@.len() == 0
        &&& index.name_posting@.len() == 0
    } else {
        index.bare()
    }
}

impl<'a> XmlIndex<'a> {
    /// Builds the lookup tables of an index that is large enough to gain from
    /// them.
    pub(crate) fn tabled_when_large(self) -> (r: XmlIndex<'a>)
        requires
            self.wf(),
            self.bare(),
        ensures
            r.wf(),
            r.input == self.input,
            r.doc() == self.doc(),
            tabled_if_large(r),
    {
        let mut index = self;
        let tags: usize = index.tag_starts.len();
        let texts: usize = index.text_ranges.len();
        if tags >= 64 && tags as u64 <= u32::MAX as u64 && texts as u64 <= u32::MAX as u64 {
            index.build_indices();
        }
        index
    }
}

/// Parses XML for a query: only elements with one of the given names and their
/// ancestors are indexed. With no names, everything is indexed. Fails exactly
/// when the input ends inside a tag.
#[verifier::spinoff_prover]
#[verifier::rlimit(60)]
pub fn parse_for_query<'a>(input: &'a [u8], interesting_names: &NameSet) -> (r: std::result::Result<
    XmlIndex<'a>,
    SimdXmlError,
>)
    ensures
        match r {
            Ok(index) => {
                &&& parsed_for(input@, interesting_names@) == Ok::<Doc, int>(index.doc())
                &&& index.input@ == input@
                &&& index.wf()
                &&& if interesting_names@ == Set::<Seq<char>>::empty() {
                    index.bare()
                } else {
                    tabled_if_large(index)
                }
            },
            Err(e) => e matches SimdXmlError::UnclosedTag(p) && parsed_for(
                input@,
                interesting_names@,
            ) == Err::<Doc, int>(p as int),
        },
{
    if interesting_names.is_empty() {
        return parse_scalar(input);
    }
    let n: usize = input.len();
    let ghost s = input@;
    let ghost names = interesting_names@;
    let mut index = XmlIndex::blank(input);
    let mut pos: usize = 0;
    let mut depth: u16 = 0;
    let mut stack: Vec<ParentEntry> = Vec::new();
    let mut last_end: usize = 0;
    let ghost mut done: Seq<LexemeV> = Seq::empty();
    assert(done + scan(s, 0, true).lexemes =~= scan(s, 0, true).lexemes);
    assert(frames_of(stack@) =~= Seq::empty());
    while pos < n
        invariant
            n == s.len(),
            s == input@,
            names == interesting_names@,
            names != Set::<Seq<char>>::empty(),
            pos <= n,
            index.input == input,
            index.bare(),
            scan(s, 0, true) == (Scan {
                lexemes: done + scan(s, pos as int, true).lexemes,
                unclosed: scan(s, pos as int, true).unclosed,
            }),
            sketch(s, done, names).wf(s.len()),
            index.doc() == sketch(s, done, names).doc,
            frames_of(stack@) == sketch(s, done, names).frames,
            depth == sketch(s, done, names).depth,
            last_end == sketch(s, done, names).last_end,
            last_end == 0 || last_end < pos,
            done.len() > 0 ==> last_end < pos,
            done.len() == 0 ==> sketch(s, done, names) == Sketch::start(),
        decreases n - pos,
    {
        let p: usize = find_byte(input, pos, 0x3c);
        if p >= n {
            assert(scan(s, pos as int, true).lexemes =~= Seq::empty());
            assert(done + Seq::<LexemeV>::empty() =~= done);
            return Ok(index.tabled_when_large());
        }
        let ghost before = sketch(s, done, names);
        let l: Lexeme = match scan_construct(input, p, true) {
            None => {
                return Err(SimdXmlError::UnclosedTag(p));
            },
            Some(l) => l,
        };
        proof {
            lemma_lex_bounds(s, p as int, true);
            lemma_sketch_extend_wf(before, s, l@, names, true);
            let rest = scan(s, l@.end + 1, true);
            assert(done + (seq![l@] + rest.lexemes) =~= done.push(l@) + rest.lexemes);
            assert(done.push(l@).drop_last() =~= done);
            done = done.push(l@);
        }
        match l.kind {
            Some(TagType::Close) => {
                if depth > 0 {
                    depth = depth - 1;
                }
                if stack.len() > 0 {
                    let e: ParentEntry = stack[stack.len() - 1];
                    assert(before.frames.last() == e@);
                    assert(before.frames[before.frames.len() - 1] == e@);
                    let inner: u32 = find_interesting_parent(&stack, stack.len());
                    assert(frames_of(stack@).take(stack@.len() as int) =~= frames_of(stack@));
                    capture_text_if_interesting(&mut index, &stack, last_end, p, inner);
                    stack.pop();
                    assert(frames_of(stack@) =~= before.frames.drop_last());
                    if e.slot.is_some() {
                        let parent: u32 = find_interesting_parent(&stack, stack.len());
                        assert(frames_of(stack@).take(stack@.len() as int) =~= frames_of(stack@));
                        index.push_tag(TagType::Close, &l, depth, parent);
                    }
                }
                assert(index.doc() =~= before.extend(s, l@, names).doc);
                assert(frames_of(stack@) =~= before.extend(s, l@, names).frames);
            },
            Some(TagType::Open) | Some(TagType::SelfClose) => {
                let name = vstd::slice::slice_subrange(input, l.name_start, l.name_end);
                let is_interesting = interesting_names.contains(text_or_empty(name));
                let self_closing = matches!(l.kind, Some(TagType::SelfClose));
                let kind: TagType = if self_closing {
                    TagType::SelfClose
                } else {
                    TagType::Open
                };
                let mut slot: Option<u32> = None;
                if is_interesting {
                    retain_ancestors(&mut index, &mut stack, Ghost(before));
                    proof {
                        lemma_retained(before, before.frames.len(), s.len());
                    }
                }
                let parent: u32 = find_interesting_parent(&stack, stack.len());
                assert(frames_of(stack@).take(stack@.len() as int) =~= frames_of(stack@));
                capture_text_if_interesting(&mut index, &stack, last_end, p, parent);
                if is_interesting {
                    slot = Some(low32(index.tag_starts.len()));
                    index.push_tag(kind, &l, depth, parent);
                }
                if !self_closing {
                    let ghost pushed = frames_of(stack@);
                    let e = ParentEntry { lexeme: l, depth, is_interesting, slot };
                    stack.push(e);
                    assert(frames_of(stack@) =~= pushed.push(e@));
                    depth = depth.wrapping_add(1);
                }
                assert(index.doc() =~= before.extend(s, l@, names).doc);
                assert(frames_of(stack@) =~= before.extend(s, l@, names).frames);
            },
            _ => {
                let parent: u32 = find_interesting_parent(&stack, stack.len());
                assert(frames_of(stack@).take(stack@.len() as int) =~= frames_of(stack@));
                capture_text_if_interesting(&mut index, &stack, last_end, p, parent);
                if matches!(l.kind, Some(TagType::CData)) {
                    if let Some(t) = l.text {
                        if has_interesting_ancestor(&stack) {
                            index.push_text(t.0, t.1, parent);
                        }
                    }
                }
                assert(index.doc() =~= before.extend(s, l@, names).doc);
            },
        }
        last_end = l.end;
        if l.end >= n {
            assert(scan(s, l@.end + 1, true).lexemes =~= Seq::empty());
            assert(done + Seq::<LexemeV>::empty() =~= done);
            return Ok(index.tabled_when_large());
        }
        pos = l.end + 1;
    }
    assert(scan(s, pos as int, true).lexemes =~= Seq::empty());
    assert(done + Seq::<LexemeV>::empty() =~= done);
    Ok(index.tabled_when_large())
}

} // verus!
