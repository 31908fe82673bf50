//! What a sequence of markup constructs says about the document: the tags with
//! their depths and parents, and the text between them.

use vstd::prelude::*;
use crate::bytes::{is_byte, lemma_scan_to, scan_to};
use crate::index::lexer::{lemma_lex_bounds, lex, LexemeV};
use crate::index::{TagType, TextRange};

verus! {

/// The document arrays of an index: one entry per tag, and the text ranges.
#[verifier::ext_equal]
pub struct Doc {
    pub starts: Seq<u64>,
    pub ends: Seq<u64>,
    pub types: Seq<TagType>,
    pub names: Seq<(u64, u16)>,
    pub depths: Seq<u16>,
    pub parents: Seq<u32>,
    pub texts: Seq<TextRange>,
}

/// The state of reading constructs in document order: the document so far, the
/// indices of the open tags that enclose the current position, the current
/// depth, and the end of the last construct.
#[verifier::ext_equal]
pub struct Outline {
    pub doc: Doc,
    pub open: Seq<u32>,
    pub depth: int,
    pub last_end: int,
}

/// The constructs found by a scan, and the position of a tag that the input
/// ended in, if it did.
#[verifier::ext_equal]
pub struct Scan {
    pub lexemes: Seq<LexemeV>,
    pub unclosed: Option<int>,
}

impl Doc {
    pub open spec fn empty() -> Doc {
        Doc {
            starts: Seq::empty(),
            ends: Seq::empty(),
            types: Seq::empty(),
            names: Seq::empty(),
            depths: Seq::empty(),
            parents: Seq::empty(),
            texts: Seq::empty(),
        }
    }

    /// Consistency with an input of `n` bytes: equally long arrays, tags in
    /// document order and inside the input, parents before their children, and
    /// text ranges inside the input under an existing tag.
    pub open spec fn wf(self, n: nat) -> bool {
        &&& self.ends.len() == self.starts.len()
        &&& self.types.len() == self.starts.len()
        &&& self.names.len() == self.starts.len()
        &&& self.depths.len() == self.starts.len()
        &&& self.parents.len() == self.starts.len()
        &&& forall|i: int| #![trigger self.starts[i]]
            0 <= i < self.starts.len() ==> self.starts[i] < n && self.starts[i] <= self.ends[i]
        &&& forall|i: int| 0 <= i < self.ends.len() ==> #[trigger] self.ends[i] <= n
        &&& forall|i: int, j: int|
            0 <= i < j < self.starts.len() ==> self.starts[i] < self.starts[j]
        &&& forall|i: int|
            0 <= i < self.names.len() ==> (#[trigger] self.names[i]).0 + self.names[i].1 <= n
        &&& forall|i: int|
            0 <= i < self.parents.len() ==> #[trigger] self.parents[i] == u32::MAX
                || self.parents[i] < i
        &&& forall|i: int|
            0 <= i < self.texts.len() ==> (#[trigger] self.texts[i]).start <= self.texts[i].end
                <= n && (self.texts[i].parent_tag == u32::MAX || self.texts[i].parent_tag
                < self.starts.len())
    }
}

/// The innermost of the enclosing open tags; `u32::MAX` when there is none.
pub open spec fn innermost(open: Seq<u32>) -> u32 {
    if open.len() == 0 {
        u32::MAX
    } else {
        open.last()
    }
}

/// Where the text after the last construct starts.
pub open spec fn text_from(last_end: int) -> int {
    if last_end > 0 {
        last_end + 1
    } else {
        0
    }
}

impl Outline {
    pub open spec fn start() -> Outline {
        Outline { doc: Doc::empty(), open: Seq::empty(), depth: 0, last_end: 0 }
    }

    /// The text ranges once the text before position `p` is added.
    pub open spec fn texts_before(self, p: int) -> Seq<TextRange> {
        let from = text_from(self.last_end);
        if from < p {
            self.doc.texts.push(
                TextRange {
                    start: from as u64,
                    end: p as u64,
                    parent_tag: innermost(self.open),
                },
            )
        } else {
            self.doc.texts
        }
    }

    /// The enclosing open tags once a construct of this kind has closed what it
    /// closes.
    pub open spec fn open_at(self, kind: TagType) -> Seq<u32> {
        if kind == TagType::Close && self.open.len() > 0 {
            self.open.drop_last()
        } else {
            self.open
        }
    }

    /// The depth that a construct of this kind stands at.
    pub open spec fn depth_at(self, kind: TagType) -> int {
        if kind == TagType::Close && self.depth > 0 {
            self.depth - 1
        } else {
            self.depth
        }
    }

    /// Reads one more construct. Depths count modulo 2^16, tag indices modulo
    /// 2^32 and name lengths modulo 2^16.
    pub open spec fn extend(self, l: LexemeV) -> Outline {
        let texts = self.texts_before(l.start);
        match l.kind {
            None => Outline { doc: Doc { texts, ..self.doc }, last_end: l.end, ..self },
            Some(kind) => {
                let open = self.open_at(kind);
                let depth = self.depth_at(kind);
                let tag = (self.doc.starts.len() as int % 0x1_0000_0000) as u32;
                Outline {
                    doc: Doc {
                        starts: self.doc.starts.push(l.start as u64),
                        ends: self.doc.ends.push(l.end as u64),
                        types: self.doc.types.push(kind),
                        names: self.doc.names.push(
                            (
                                l.name_start as u64,
                                ((l.name_end - l.name_start) % 0x1_0000) as u16,
                            ),
                        ),
                        depths: self.doc.depths.push(depth as u16),
                        parents: self.doc.parents.push(innermost(open)),
                        texts: match l.text {
                            Some(t) => texts.push(
                                TextRange {
                                    start: t.0 as u64,
                                    end: t.1 as u64,
                                    parent_tag: innermost(open),
                                },
                            ),
                            None => texts,
                        },
                    },
                    open: if kind == TagType::Open {
                        open.push(tag)
                    } else {
                        open
                    },
                    depth: if kind == TagType::Open {
                        (depth + 1) % 0x1_0000
                    } else {
                        depth
                    },
                    last_end: l.end,
                }
            },
        }
    }

    /// Consistency with an input of `n` bytes.
    pub open spec fn wf(self, n: nat) -> bool {
        &&& self.doc.wf(n)
        &&& 0 <= self.depth < 0x1_0000
        &&& 0 <= self.last_end <= n
        &&& self.doc.starts.len() > 0 ==> self.doc.starts.last() <= self.last_end
        &&& forall|i: int|
            0 <= i < self.open.len() ==> #[trigger] self.open[i] < self.doc.starts.len()
    }
}

/// The outline after reading the given constructs in order.
pub open spec fn outline(ls: Seq<LexemeV>) -> Outline
    decreases ls.len(),
{
    if ls.len() == 0 {
        Outline::start()
    } else {
        outline(ls.drop_last()).extend(ls.last())
    }
}

/// The constructs of `s` from position `p` on: each starts at the first `<`
/// after the one before it has ended.
pub open spec fn scan(s: Seq<u8>, p: int, lenient: bool) -> Scan
    decreases s.len() + 1 - p,
{
    let q = scan_to(s, p, is_byte(0x3c));
    if p < 0 || q >= s.len() {
        Scan { lexemes: Seq::empty(), unclosed: None }
    } else {
        match lex(s, q, lenient) {
            None => Scan { lexemes: Seq::empty(), unclosed: Some(q) },
            Some(l) => {
                proof {
                    if p < s.len() {
                        lemma_scan_to(s, p, is_byte(0x3c));
                        lemma_lex_bounds(s, q, lenient);
                    }
                }
                let rest = scan(s, l.end + 1, lenient);
                Scan { lexemes: seq![l] + rest.lexemes, unclosed: rest.unclosed }
            },
        }
    }
}

/// A construct that starts after the last one extends a consistent outline to
/// a consistent outline.
pub proof fn lemma_extend_wf(o: Outline, l: LexemeV, s: Seq<u8>, lenient: bool)
    requires
        o.wf(s.len()),
        s.len() <= u64::MAX,
        0 <= l.start < s.len(),
        o.doc.starts.len() > 0 ==> o.last_end < l.start,
        lex(s, l.start, lenient) == Some(l),
    ensures
        o.extend(l).wf(s.len()),
        o.extend(l).last_end == l.end,
{
    lemma_lex_bounds(s, l.start, lenient);
    let e = o.extend(l);
    let n = s.len();
    if let Some(kind) = l.kind {
        assert(((l.name_end - l.name_start) % 0x1_0000) as u16 == (l.name_end - l.name_start)
            % 0x1_0000);
        assert((l.name_end - l.name_start) % 0x1_0000 <= l.name_end - l.name_start)
            by (nonlinear_arith)
            requires
                l.name_end - l.name_start >= 0,
        ;
        assert(o.doc.starts.len() as int % 0x1_0000_0000 <= o.doc.starts.len());
        let open = o.open_at(kind);
        assert forall|i: int| 0 <= i < open.len() implies #[trigger] open[i] < o.doc.starts.len() by {
            assert(open[i] == o.open[i]);
        }
        assert(innermost(open) == u32::MAX || innermost(open) < o.doc.starts.len());
        assert forall|i: int| 0 <= i < e.doc.parents.len() implies #[trigger] e.doc.parents[i]
            == u32::MAX || e.doc.parents[i] < i by {
            if i < o.doc.parents.len() {
                assert(e.doc.parents[i] == o.doc.parents[i]);
            }
        }
    }
}

} // verus!
