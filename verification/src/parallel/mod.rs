//! Chunked parsing.
//!
//! A large document is cut at boundaries between tags. Each chunk is parsed on
//! its own into the positions of its constructs; depths, parents and close tags
//! come from one pass over the joined chunks.

pub mod boundary_laws;
pub mod equivalence;

use vstd::prelude::*;
use crate::bytes::{find_byte, is_ascii_space, is_byte, is_space, lemma_scan_to, scan_to};
use crate::error::SimdXmlError;
use crate::index::lazy::tabled_if_large;
use crate::index::lexer::{lemma_lex_bounds, lex, scan_construct, Lexeme, LexemeV};
use crate::index::outline::{innermost, scan, text_from, Doc, Scan};
use crate::index::structural::{innermost_open, low16, low32, parse_scalar, parsed};
use crate::index::tables::{lemma_pairing_shape, pair_tags, pairing};
use crate::index::{TagType, TextRange, XmlIndex};

verus! {

/// Minimum document size (bytes) to gain from chunked parsing.
pub const MIN_PARALLEL_SIZE: usize = 65536;

/// The arrays that parsing one chunk yields: tags without depth and parent, and
/// text ranges whose parent is not known yet; with the end of the last
/// construct, relative to the chunk.
#[verifier::ext_equal]
pub struct Piece {
    pub starts: Seq<u64>,
    pub ends: Seq<u64>,
    pub types: Seq<TagType>,
    pub names: Seq<(u64, u16)>,
    pub texts: Seq<TextRange>,
}

/// A text range whose parent is not known yet.
pub open spec fn orphan(start: int, end: int) -> TextRange {
    TextRange { start: start as u64, end: end as u64, parent_tag: u32::MAX }
}

/// Whether constructs of this kind have a name.
pub open spec fn has_name(kind: TagType) -> bool {
    kind != TagType::Comment && kind != TagType::CData
}

impl Piece {
    pub open spec fn empty() -> Piece {
        Piece {
            starts: Seq::empty(),
            ends: Seq::empty(),
            types: Seq::empty(),
            names: Seq::empty(),
            texts: Seq::empty(),
        }
    }

    /// Adds the text between the end of the last construct and position `p` of
    /// the chunk that starts at `base`.
    pub open spec fn gap(self, last_end: int, p: int, base: int) -> Piece {
        let from = text_from(last_end);
        if from < p {
            Piece { texts: self.texts.push(orphan(base + from, base + p)), ..self }
        } else {
            self
        }
    }

    /// Adds a construct of the chunk that starts at `base`.
    pub open spec fn with(self, l: LexemeV, base: int) -> Piece {
        match l.kind {
            None => self,
            Some(kind) => Piece {
                starts: self.starts.push((base + l.start) as u64),
                ends: self.ends.push((base + l.end) as u64),
                types: self.types.push(kind),
                names: self.names.push(
                    if has_name(kind) {
                        (
                            (base + l.name_start) as u64,
                            ((l.name_end - l.name_start) % 0x1_0000) as u16,
                        )
                    } else {
                        (0u64, 0u16)
                    },
                ),
                texts: match l.text {
                    Some(t) => self.texts.push(orphan(base + t.0, base + t.1)),
                    None => self.texts,
                },
            },
        }
    }

    /// The arrays of this chunk followed by those of the next.
    pub open spec fn join(self, next: Piece) -> Piece {
        Piece {
            starts: self.starts + next.starts,
            ends: self.ends + next.ends,
            types: self.types + next.types,
            names: self.names + next.names,
            texts: self.texts + next.texts,
        }
    }

    /// Consistency of the arrays with the part `a..b` of an input.
    pub open spec fn within(self, a: int, b: int) -> bool {
        &&& self.ends.len() == self.starts.len()
        &&& self.types.len() == self.starts.len()
        &&& self.names.len() == self.starts.len()
        &&& forall|i: int| #![trigger self.starts[i]]
            0 <= i < self.starts.len() ==> a <= self.starts[i] < b && self.starts[i]
                <= self.ends[i]
        &&& forall|i: int| 0 <= i < self.ends.len() ==> #[trigger] self.ends[i] <= b
        &&& forall|i: int, j: int|
            0 <= i < j < self.starts.len() ==> self.starts[i] < self.starts[j]
        &&& forall|i: int|
            0 <= i < self.names.len() ==> (#[trigger] self.names[i]).0 + self.names[i].1 <= b
        &&& forall|i: int|
            0 <= i < self.texts.len() ==> a <= (#[trigger] self.texts[i]).start
                <= self.texts[i].end <= b
    }
}

/// Where the last of these constructs ends.
pub open spec fn end_of(ls: Seq<LexemeV>) -> int {
    if ls.len() == 0 {
        0
    } else {
        ls.last().end
    }
}

/// The arrays made of these constructs of a chunk that starts at `base`.
pub open spec fn piece(ls: Seq<LexemeV>, base: int) -> Piece
    decreases ls.len(),
{
    if ls.len() == 0 {
        Piece::empty()
    } else {
        let before = ls.drop_last();
        piece(before, base).gap(end_of(before), ls.last().start, base).with(ls.last(), base)
    }
}

/// What parsing a chunk yields. Where the chunk ends inside a tag, the text
/// before that tag is the last thing recorded.
pub open spec fn chunk_of(chunk: Seq<u8>, base: int) -> Piece {
    let found = scan(chunk, 0, true);
    let p = piece(found.lexemes, base);
    match found.unclosed {
        Some(q) => p.gap(end_of(found.lexemes), q, base),
        None => p,
    }
}

/// The arrays of all chunks in order.
pub open spec fn joined(pieces: Seq<Piece>) -> Piece
    decreases pieces.len(),
{
    if pieces.len() == 0 {
        Piece::empty()
    } else {
        joined(pieces.drop_last()).join(pieces.last())
    }
}

/// A single chunk's parse results: see `Piece`.
pub struct ChunkResult {
    pub tag_starts: Vec<u64>,
    pub tag_ends: Vec<u64>,
    pub tag_types: Vec<TagType>,
    pub tag_names: Vec<(u64, u16)>,
    pub text_ranges: Vec<TextRange>,
}

impl View for ChunkResult {
    type V = Piece;

    open spec fn view(&self) -> Piece {
        Piece {
            starts: self.tag_starts@,
            ends: self.tag_ends@,
            types: self.tag_types@,
            names: self.tag_names@,
            texts: self.text_ranges@,
        }
    }
}

/// The pieces that a list of chunk results holds.
pub open spec fn pieces_of(chunks: Seq<ChunkResult>) -> Seq<Piece> {
    Seq::new(chunks.len(), |i: int| chunks[i]@)
}

// Finding boundaries.

/// How far before its target a boundary is looked for.
pub const SEARCH_WINDOW: usize = 4096;

/// Bytes that are not blank.
pub open spec fn is_visible() -> spec_fn(u8) -> bool {
    |b: u8| !is_space(b)
}

/// Whether the next byte that is not blank is a `<`, or there is none.
pub open spec fn markup_follows(s: Seq<u8>, e: int) -> bool {
    let next = scan_to(s, e, is_visible());
    next >= s.len() || s[next] == 0x3c
}

/// Whether the position after a construct, at or before `target`, can be the
/// boundary: it stands within the search window, and markup follows it.
pub open spec fn is_boundary(s: Seq<u8>, e: int, target: int) -> bool {
    e > target - SEARCH_WINDOW && markup_follows(s, e)
}

/// The last position after a construct, at or before `target`, that stands within
/// the search window and that markup follows; or else the position after the first
/// construct that ends behind `target`. Constructs are read from position `p` on,
/// and `best` is the position found so far. What is not closed by a `>` ends the
/// search.
pub open spec fn boundary_from(s: Seq<u8>, p: int, best: Option<int>, target: int) -> Option<int>
    decreases s.len() + 1 - p,
{
    let q = scan_to(s, p, is_byte(0x3c));
    if p < 0 || q >= s.len() {
        best
    } else {
        match lex(s, q, false) {
            None => best,
            Some(l) => {
                proof {
                    if p < s.len() {
                        lemma_scan_to(s, p, is_byte(0x3c));
                        lemma_lex_bounds(s, q, false);
                    }
                }
                let e = l.end + 1;
                if l.end >= s.len() || s[l.end] != 0x3e {
                    best
                } else if e <= target {
                    let now = if is_boundary(s, e, target) {
                        Some(e)
                    } else {
                        best
                    };
                    boundary_from(s, e, now, target)
                } else {
                    match best {
                        Some(b) => Some(b),
                        None => Some(e),
                    }
                }
            },
        }
    }
}

/// A boundary near `target`: the nearest position before it, within the search
/// window, that stands just after a construct and before markup, or else the first
/// one behind it that stands just after a construct.
pub open spec fn safe_boundary(s: Seq<u8>, target: int) -> Option<int> {
    boundary_from(
        s,
        0,
        None,
        if target < s.len() {
            target
        } else {
            s.len() as int
        },
    )
}

/// The split points near the first `k` multiples of the chunk size, each after
/// the one before it and inside the input.
pub open spec fn split_points(s: Seq<u8>, chunk_size: int, k: int) -> Seq<int>
    decreases k,
{
    if k <= 0 {
        Seq::empty()
    } else {
        let before = split_points(s, chunk_size, k - 1);
        let last = if before.len() == 0 {
            0
        } else {
            before.last()
        };
        match safe_boundary(s, k * chunk_size) {
            Some(p) => if last < p < s.len() {
                before.push(p)
            } else {
                before
            },
            None => before,
        }
    }
}

/// Reading constructs from `q` on finds the boundaries that reading them from `p` on
/// finds, for all targets from `target` on.
pub open spec fn resumes(s: Seq<u8>, p: int, q: int, target: int) -> bool {
    forall|t: int|
        t >= target ==> #[trigger] boundary_from(s, p, None, t) == boundary_from(s, q, None, t)
}

/// The values of a list of positions.
pub open spec fn positions(v: Seq<usize>) -> Seq<int> {
    v.map_values(|p: usize| p as int)
}

/// Tests whether markup follows: see `markup_follows`.
fn before_markup(input: &[u8], from: usize) -> (r: bool)
    requires
        from <= input@.len(),
    ensures
        r == markup_follows(input@, from as int),
{
    let n: usize = input.len();
    let mut i: usize = from;
    while i < n && is_ascii_space(input[i])
        invariant
            n == input@.len(),
            from <= i <= n,
            scan_to(input@, from as int, is_visible()) == scan_to(input@, i as int, is_visible()),
        decreases n - i,
    {
        i += 1;
    }
    i >= n || input[i] == 0x3c
}

/// Finds the boundary near `target` that is reached by reading constructs from
/// position `from` on, and where to go on reading for a later target: see
/// `boundary_from` and `resumes`.
fn find_boundary(input: &[u8], from: usize, target: usize) -> (r: (Option<usize>, usize))
    requires
        from <= input@.len(),
    ensures
        match r.0 {
            Some(p) => boundary_from(input@, from as int, None, target as int) == Some(p as int)
                && from < p <= input@.len() && input@[p - 1] == 0x3e,
            None => boundary_from(input@, from as int, None, target as int) is None,
        },
        from <= r.1 <= input@.len(),
        resumes(input@, from as int, r.1 as int, target as int),
{
    let n: usize = input.len();
    let ghost s = input@;
    let mut pos: usize = from;
    let mut best: Option<usize> = None;
    let mut resume: usize = from;
    while pos < n
        invariant
            s == input@,
            n == s.len(),
            from <= pos <= n,
            from <= resume <= n,
            resumes(s, from as int, resume as int, target as int),
            resume + SEARCH_WINDOW <= target || resume == from,
            pos + SEARCH_WINDOW <= target ==> resume == pos,
            boundary_from(s, from as int, None, target as int) == boundary_from(
                s,
                pos as int,
                (match best {
                    Some(b) => Some(b as int),
                    None => None,
                }),
                target as int,
            ),
            best matches Some(b) ==> from < b <= n && s[b - 1] == 0x3e,
        decreases n - pos,
    {
        let p: usize = find_byte(input, pos, 0x3c);
        if p >= n {
            return (best, resume);
        }
        let l: Lexeme = match scan_construct(input, p, false) {
            None => {
                return (best, resume);
            },
            Some(l) => l,
        };
        proof {
            lemma_scan_to(s, pos as int, is_byte(0x3c));
            lemma_lex_bounds(s, p as int, false);
        }
        if l.end >= n || input[l.end] != 0x3e {
            return (best, resume);
        }
        let e: usize = l.end + 1;
        if e > target {
            return (
                match best {
                    Some(b) => Some(b),
                    None => Some(e),
                },
                resume,
            );
        }
        if target - e >= SEARCH_WINDOW {
            assert forall|t: int| t >= target implies #[trigger] boundary_from(
                s,
                from as int,
                None,
                t,
            ) == boundary_from(s, e as int, None, t) by {
                assert(boundary_from(s, from as int, None, t) == boundary_from(
                    s,
                    pos as int,
                    None,
                    t,
                ));
            }
            resume = e;
        } else if before_markup(input, e) {
            best = Some(e);
        }
        pos = e;
    }
    (best, resume)
}

/// Finds a boundary near `target`, just after a `>` that stands between tags, and
/// not inside a comment, a CDATA section or a quoted attribute: see
/// `safe_boundary`.
pub fn find_safe_boundary(input: &[u8], target: usize) -> (r: Option<usize>)
    ensures
        match r {
            Some(p) => safe_boundary(input@, target as int) == Some(p as int) && 0 < p
                <= input@.len() && input@[p - 1] == 0x3e,
            None => safe_boundary(input@, target as int) is None,
        },
{
    let within: usize = if target < input.len() {
        target
    } else {
        input.len()
    };
    find_boundary(input, 0, within).0
}

/// Finds at most `num_chunks - 1` split points, each just after a `>`: see
/// `split_points`.
pub fn find_split_points(input: &[u8], num_chunks: usize) -> (r: Vec<usize>)
    requires
        num_chunks > 0,
    ensures
        positions(r@) == split_points(
            input@,
            input@.len() as int / num_chunks as int,
            num_chunks - 1,
        ),
        r@.len() < num_chunks,
        forall|i: int| #![trigger r@[i]]
            0 <= i < r@.len() ==> 0 < r@[i] < input@.len() && input@[r@[i] - 1] == 0x3e,
        forall|i: int, j: int| 0 <= i < j < r@.len() ==> r@[i] < r@[j],
{
    let n: usize = input.len();
    let chunk_size: usize = n / num_chunks;
    let mut splits: Vec<usize> = Vec::new();
    let mut last: usize = 0;
    let mut from: usize = 0;
    let mut k: usize = 1;
    assert(positions(splits@) =~= split_points(input@, chunk_size as int, 0));
    while k < num_chunks
        invariant
            n == input@.len(),
            chunk_size == n as int / num_chunks as int,
            1 <= k <= num_chunks,
            splits@.len() < k,
            positions(splits@) == split_points(input@, chunk_size as int, k - 1),
            last == (if splits@.len() == 0 {
                0
            } else {
                splits@.last()
            }),
            from <= n,
            resumes(input@, 0, from as int, (k - 1) * chunk_size),
            forall|i: int| #![trigger splits@[i]]
                0 <= i < splits@.len() ==> 0 < splits@[i] < n && input@[splits@[i] - 1] == 0x3e,
            forall|i: int, j: int| 0 <= i < j < splits@.len() ==> splits@[i] < splits@[j],
        decreases num_chunks - k,
    {
        assert(k * chunk_size <= n && (k - 1) * chunk_size <= k * chunk_size) by (nonlinear_arith)
            requires
                1 <= k <= num_chunks,
                chunk_size == n as int / num_chunks as int,
                num_chunks > 0,
        ;
        let target: usize = k * chunk_size;
        let ghost before = split_points(input@, chunk_size as int, k - 1);
        assert(before.len() > 0 ==> before.last() == last);
        let (found, resume) = find_boundary(input, from, target);
        assert(boundary_from(input@, 0, None, target as int) == boundary_from(
            input@,
            from as int,
            None,
            target as int,
        ));
        assert forall|t: int| t >= target implies #[trigger] boundary_from(input@, 0, None, t)
            == boundary_from(input@, resume as int, None, t) by {
            assert(boundary_from(input@, 0, None, t) == boundary_from(
                input@,
                from as int,
                None,
                t,
            ));
        }
        from = resume;
        if let Some(p) = found {
            if p > last && p < n {
                splits.push(p);
                last = p;
                assert(positions(splits@) =~= before.push(p as int));
            }
        }
        k += 1;
    }
    splits
}

// Parsing one chunk.

proof fn lemma_piece_within(ls: Seq<LexemeV>, chunk: Seq<u8>, base: int)
    requires
        base >= 0,
        base + chunk.len() <= u64::MAX,
        in_order(ls, chunk),
    ensures
        piece(ls, base).within(base, base + chunk.len()),
        piece(ls, base).starts.len() > 0 ==> piece(ls, base).starts.last() <= base + end_of(ls),
    decreases ls.len(),
{
    if ls.len() > 0 {
        let before = ls.drop_last();
        let l = ls.last();
        assert forall|i: int| #![trigger before[i]] 0 <= i < before.len() implies before[i] == ls[i] by {}
        lemma_piece_within(before, chunk, base);
        assert(l == ls[ls.len() - 1]);
        lemma_lex_bounds(chunk, l.start, true);
        assert((l.name_end - l.name_start) % 0x1_0000 <= l.name_end - l.name_start)
            by (nonlinear_arith)
            requires
                l.name_end - l.name_start >= 0,
        ;
        if before.len() > 0 {
            assert(before.last() == ls[ls.len() - 2]);
        }
        let p = piece(before, base);
        let g = p.gap(end_of(before), l.start, base);
        assert(g.within(base, base + chunk.len()));
        let w = g.with(l, base);
        assert forall|i: int, j: int| 0 <= i < j < w.starts.len() implies w.starts[i] < w.starts[j] by {
            if j == g.starts.len() && i < j - 1 {
                assert(g.starts[i] < g.starts[j - 1]);
            }
        }
        assert(w.within(base, base + chunk.len()));
    }
}

/// Constructs of a chunk, each starting after the one before it has ended.
pub open spec fn in_order(ls: Seq<LexemeV>, chunk: Seq<u8>) -> bool {
    &&& forall|i: int| #![trigger ls[i]]
        0 <= i < ls.len() ==> 0 <= ls[i].start < chunk.len() && lex(chunk, ls[i].start, true)
            == Some(ls[i])
    &&& forall|i: int, j: int| 0 <= i < j < ls.len() ==> ls[i].end < ls[j].start
}

proof fn lemma_in_order_push(ls: Seq<LexemeV>, l: LexemeV, chunk: Seq<u8>)
    requires
        in_order(ls, chunk),
        0 <= l.start < chunk.len(),
        lex(chunk, l.start, true) == Some(l),
        ls.len() > 0 ==> ls.last().end < l.start,
    ensures
        in_order(ls.push(l), chunk),
        ls.push(l).drop_last() == ls,
{
    let grown = ls.push(l);
    assert(grown.drop_last() =~= ls);
    assert forall|i: int, j: int| 0 <= i < j < grown.len() implies grown[i].end < grown[j].start by {
        if j == ls.len() && i < j - 1 {
            assert(ls[i].end < ls[j - 1].start);
            lemma_lex_bounds(chunk, ls[j - 1].start, true);
        }
    }
}

impl ChunkResult {
    /// Appends a text range whose parent is not known yet.
    fn push_text(&mut self, start: usize, end: usize)
        ensures
            final(self)@ == (Piece {
                texts: old(self)@.texts.push(orphan(start as int, end as int)),
                ..old(self)@
            }),
    {
        self.text_ranges.push(
            TextRange { start: start as u64, end: end as u64, parent_tag: u32::MAX },
        );
    }

    /// Appends a construct of the chunk that starts at `base`.
    fn push_construct(&mut self, l: &Lexeme, base: usize)
        requires
            l.name_start <= l.name_end,
            base + l.start <= usize::MAX,
            base + l.end <= usize::MAX,
            base + l.name_start <= usize::MAX,
            l.text matches Some(t) ==> base + t.0 <= usize::MAX && base + t.1 <= usize::MAX,
        ensures
            final(self)@ == old(self)@.with(l@, base as int),
    {
        if let Some(kind) = l.kind {
            self.tag_starts.push((base + l.start) as u64);
            self.tag_ends.push((base + l.end) as u64);
            self.tag_types.push(kind);
            let name: (u64, u16) = if kind != TagType::Comment && kind != TagType::CData {
                ((base + l.name_start) as u64, low16(l.name_end - l.name_start))
            } else {
                (0, 0)
            };
            self.tag_names.push(name);
            if let Some(t) = l.text {
                self.push_text(base + t.0, base + t.1);
            }
        }
    }
}

/// Parses a single chunk that starts at byte `chunk_start` of the document.
/// Parents of text ranges are left as `u32::MAX`.
pub fn parse_chunk(chunk: &[u8], chunk_start: usize) -> (r: ChunkResult)
    requires
        chunk_start + chunk@.len() <= usize::MAX,
    ensures
        r@ == chunk_of(chunk@, chunk_start as int),
        r@.within(chunk_start as int, chunk_start + chunk@.len()),
{
    let n: usize = chunk.len();
    let ghost s = chunk@;
    let ghost base = chunk_start as int;
    let mut result = ChunkResult {
        tag_starts: Vec::new(),
        tag_ends: Vec::new(),
        tag_types: Vec::new(),
        tag_names: Vec::new(),
        text_ranges: Vec::new(),
    };
    let mut pos: usize = 0;
    let mut last_end: usize = 0;
    let ghost mut done: Seq<LexemeV> = Seq::empty();
    assert(done + scan(s, 0, true).lexemes =~= scan(s, 0, true).lexemes);
    assert(result@ =~= Piece::empty());
    while pos < n
        invariant
            n == s.len(),
            s == chunk@,
            base == chunk_start,
            base + n <= usize::MAX,
            pos <= n,
            in_order(done, s),
            scan(s, 0, true) == (Scan {
                lexemes: done + scan(s, pos as int, true).lexemes,
                unclosed: scan(s, pos as int, true).unclosed,
            }),
            result@ == piece(done, base),
            last_end == end_of(done),
            last_end == 0 || last_end < pos,
            done.len() > 0 ==> last_end < pos,
        decreases n - pos,
    {
        let p: usize = find_byte(chunk, pos, 0x3c);
        if p >= n {
            proof {
                assert(scan(s, pos as int, true).lexemes =~= Seq::empty());
                assert(done + Seq::<LexemeV>::empty() =~= done);
                lemma_piece_within(done, s, base);
            }
            return result;
        }
        let from: usize = if last_end > 0 {
            last_end + 1
        } else {
            0
        };
        if from < p {
            result.push_text(chunk_start + from, chunk_start + p);
        }
        let ghost gapped = piece(done, base).gap(end_of(done), p as int, base);
        assert(result@ =~= gapped);
        let l: Lexeme = match scan_construct(chunk, p, true) {
            None => {
                proof {
                    assert(scan(s, pos as int, true).lexemes =~= Seq::empty());
                    assert(done + Seq::<LexemeV>::empty() =~= done);
                    lemma_piece_within(done, s, base);
                }
                return result;
            },
            Some(l) => l,
        };
        proof {
            lemma_lex_bounds(s, p as int, true);
        }
        result.push_construct(&l, chunk_start);
        proof {
            let rest = scan(s, l@.end + 1, true);
            assert(done + (seq![l@] + rest.lexemes) =~= done.push(l@) + rest.lexemes);
            lemma_in_order_push(done, l@, s);
            done = done.push(l@);
        }
        last_end = l.end;
        if l.end >= n {
            proof {
                assert(scan(s, l@.end + 1, true).lexemes =~= Seq::empty());
                assert(done + Seq::<LexemeV>::empty() =~= done);
                lemma_piece_within(done, s, base);
            }
            return result;
        }
        pos = l.end + 1;
    }
    proof {
        assert(scan(s, pos as int, true).lexemes =~= Seq::empty());
        assert(done + Seq::<LexemeV>::empty() =~= done);
        lemma_piece_within(done, s, base);
    }
    result
}

// Merging chunks.

/// Reading tags in document order: the enclosing open tags, the depth, the depth
/// and parent of each tag read so far, and the parents of the text ranges that
/// stand before them.
#[verifier::ext_equal]
pub struct Levels {
    pub open: Seq<u32>,
    pub depth: int,
    pub depths: Seq<u16>,
    pub parents: Seq<u32>,
    pub owners: Seq<u32>,
}

/// The parents of text ranges once the parent is given to those that start
/// before `limit`.
pub open spec fn owners_until(
    owners: Seq<u32>,
    texts: Seq<TextRange>,
    limit: u64,
    parent: u32,
) -> Seq<u32>
    decreases texts.len() - owners.len(),
{
    if owners.len() < texts.len() && texts[owners.len() as int].start < limit {
        owners_until(owners.push(parent), texts, limit, parent)
    } else {
        owners
    }
}

impl Levels {
    pub open spec fn start() -> Levels {
        Levels {
            open: Seq::empty(),
            depth: 0,
            depths: Seq::empty(),
            parents: Seq::empty(),
            owners: Seq::empty(),
        }
    }

    /// Reads the tag at index `i`, of type `t`, at position `start`. Depths count
    /// modulo 2^16, tag indices modulo 2^32.
    pub open spec fn step(self, t: TagType, start: u64, i: int, texts: Seq<TextRange>) -> Levels {
        let open = if t == TagType::Close && self.open.len() > 0 {
            self.open.drop_last()
        } else {
            self.open
        };
        let depth = if t == TagType::Close && self.depth > 0 {
            self.depth - 1
        } else {
            self.depth
        };
        Levels {
            open: if t == TagType::Open {
                open.push((i % 0x1_0000_0000) as u32)
            } else {
                open
            },
            depth: if t == TagType::Open {
                (depth + 1) % 0x1_0000
            } else {
                depth
            },
            depths: self.depths.push(depth as u16),
            parents: self.parents.push(innermost(open)),
            owners: owners_until(self.owners, texts, start, innermost(self.open)),
        }
    }
}

/// The levels after the first `k` tags.
pub open spec fn levels(p: Piece, k: int) -> Levels
    decreases k,
{
    if k <= 0 {
        Levels::start()
    } else {
        levels(p, k - 1).step(p.types[k - 1], p.starts[k - 1], k - 1, p.texts)
    }
}

/// The parent of each text range: text after the last tag belongs to the
/// innermost tag that is still open.
pub open spec fn owners_of(p: Piece) -> Seq<u32> {
    let end = levels(p, p.types.len() as int);
    Seq::new(
        p.texts.len(),
        |j: int|
            if j < end.owners.len() {
                end.owners[j]
            } else {
                innermost(end.open)
            },
    )
}

/// The document that the arrays of all chunks make.
pub open spec fn merged(p: Piece) -> Doc {
    let end = levels(p, p.types.len() as int);
    Doc {
        starts: p.starts,
        ends: p.ends,
        types: p.types,
        names: p.names,
        depths: end.depths,
        parents: end.parents,
        texts: Seq::new(
            p.texts.len(),
            |j: int| TextRange { parent_tag: owners_of(p)[j], ..p.texts[j] },
        ),
    }
}

/// What giving a parent to text ranges does to the list of parents.
pub proof fn lemma_owners_until(owners: Seq<u32>, texts: Seq<TextRange>, limit: u64, parent: u32)
    requires
        owners.len() <= texts.len(),
    ensures
        ({
            let r = owners_until(owners, texts, limit, parent);
            &&& owners.len() <= r.len() <= texts.len()
            &&& forall|j: int| 0 <= j < owners.len() ==> r[j] == owners[j]
            &&& forall|j: int| owners.len() <= j < r.len() ==> r[j] == parent
            &&& forall|j: int|
                owners.len() <= j < r.len() ==> (#[trigger] texts[j]).start < limit
            &&& r.len() < texts.len() ==> texts[r.len() as int].start >= limit
        }),
    decreases texts.len() - owners.len(),
{
    if owners.len() < texts.len() && texts[owners.len() as int].start < limit {
        lemma_owners_until(owners.push(parent), texts, limit, parent);
    }
}

/// Shape of the levels after `k` tags.
pub proof fn lemma_levels(p: Piece, k: int)
    requires
        0 <= k <= p.types.len(),
        p.starts.len() == p.types.len(),
    ensures
        ({
            let r = levels(p, k);
            &&& r.depths.len() == k
            &&& r.parents.len() == k
            &&& 0 <= r.depth < 0x1_0000
            &&& r.owners.len() <= p.texts.len()
            &&& forall|i: int| 0 <= i < r.open.len() ==> #[trigger] r.open[i] < k
            &&& forall|i: int|
                0 <= i < r.parents.len() ==> #[trigger] r.parents[i] == u32::MAX || r.parents[i]
                    < i
            &&& forall|i: int|
                0 <= i < r.owners.len() ==> #[trigger] r.owners[i] == u32::MAX || r.owners[i] < k
        }),
    decreases k,
{
    if k > 0 {
        lemma_levels(p, k - 1);
        let q = levels(p, k - 1);
        let r = levels(p, k);
        let t = p.types[k - 1];
        lemma_owners_until(q.owners, p.texts, p.starts[k - 1], innermost(q.open));
        let open = if t == TagType::Close && q.open.len() > 0 {
            q.open.drop_last()
        } else {
            q.open
        };
        assert forall|i: int| 0 <= i < open.len() implies #[trigger] open[i] < k - 1 by {
            assert(open[i] == q.open[i]);
        }
        assert((k - 1) % 0x1_0000_0000 <= k - 1);
        assert(innermost(open) == u32::MAX || innermost(open) < k - 1);
        assert(innermost(q.open) == u32::MAX || innermost(q.open) < k - 1);
        assert forall|i: int| 0 <= i < r.parents.len() implies #[trigger] r.parents[i] == u32::MAX
            || r.parents[i] < i by {
            if i < k - 1 {
                assert(r.parents[i] == q.parents[i]);
            }
        }
        assert forall|i: int| 0 <= i < r.owners.len() implies #[trigger] r.owners[i] == u32::MAX
            || r.owners[i] < k by {
            if i < q.owners.len() {
                assert(r.owners[i] == q.owners[i]);
            }
        }
    }
}

/// Chunk arrays inside the input make a consistent document.
pub proof fn lemma_merged_wf(p: Piece, n: nat)
    requires
        p.within(0, n as int),
    ensures
        merged(p).wf(n),
{
    let k = p.types.len() as int;
    lemma_levels(p, k);
    let end = levels(p, k);
    let d = merged(p);
    assert(innermost(end.open) == u32::MAX || innermost(end.open) < k) by {
        if end.open.len() > 0 {
            assert(end.open[end.open.len() - 1] < k);
        }
    }
    assert forall|j: int| 0 <= j < d.texts.len() implies (#[trigger] d.texts[j]).start
        <= d.texts[j].end <= n && (d.texts[j].parent_tag == u32::MAX || d.texts[j].parent_tag
        < d.starts.len()) by {
        assert(p.texts[j].start <= p.texts[j].end <= n);
        if j < end.owners.len() {
            assert(end.owners[j] == u32::MAX || end.owners[j] < k);
        }
    }
}

/// The tables that merging fills: close tags and post-order numbers, when the
/// number of tags fits their entries.
pub open spec fn paired(index: XmlIndex) -> bool {
    &&& index.child_offsets@.len() == 0
    &&& index.child_data@.len() == 0
    &&& index.text_child_offsets@.len() == 0
    &&& index.text_child_data@.len() == 0
    &&& index.name_ids@.len() == 0
    &&& index.name_table@.len() == 0
    &&& index.name_posting@.len() == 0
    &&& if index.tags() <= u32::MAX {
        &&& index.close_map@ == pairing(index.tag_types@, index.tags() as int).close
        &&& index.post_order@ == pairing(index.tag_types@, index.tags() as int).post
    } else {
        &&& index.close_map@.len() == 0
        &&& index.post_order@.len() == 0
    }
}

fn append_all(into: &mut ChunkResult, chunk: &ChunkResult)
    ensures
        final(into)@ == old(into)@.join(chunk@),
{
    let mut i: usize = 0;
    let a: usize = chunk.tag_starts.len();
    while i < a
        invariant
            i <= a,
            a == chunk.tag_starts@.len(),
            into@ == (Piece {
                starts: old(into)@.starts + chunk@.starts.take(i as int),
                ..old(into)@
            }),
        decreases a - i,
    {
        into.tag_starts.push(chunk.tag_starts[i]);
        assert(into@.starts =~= old(into)@.starts + chunk@.starts.take(i + 1));
        i += 1;
    }
    assert(chunk@.starts.take(a as int) =~= chunk@.starts);
    let mut i: usize = 0;
    let a: usize = chunk.tag_ends.len();
    while i < a
        invariant
            i <= a,
            a == chunk.tag_ends@.len(),
            into@ == (Piece {
                starts: old(into)@.starts + chunk@.starts,
                ends: old(into)@.ends + chunk@.ends.take(i as int),
                ..old(into)@
            }),
        decreases a - i,
    {
        into.tag_ends.push(chunk.tag_ends[i]);
        assert(into@.ends =~= old(into)@.ends + chunk@.ends.take(i + 1));
        i += 1;
    }
    assert(chunk@.ends.take(a as int) =~= chunk@.ends);
    let mut i: usize = 0;
    let a: usize = chunk.tag_types.len();
    while i < a
        invariant
            i <= a,
            a == chunk.tag_types@.len(),
            into@ == (Piece {
                starts: old(into)@.starts + chunk@.starts,
                ends: old(into)@.ends + chunk@.ends,
                types: old(into)@.types + chunk@.types.take(i as int),
                ..old(into)@
            }),
        decreases a - i,
    {
        into.tag_types.push(chunk.tag_types[i]);
        assert(into@.types =~= old(into)@.types + chunk@.types.take(i + 1));
        i += 1;
    }
    assert(chunk@.types.take(a as int) =~= chunk@.types);
    let mut i: usize = 0;
    let a: usize = chunk.tag_names.len();
    while i < a
        invariant
            i <= a,
            a == chunk.tag_names@.len(),
            into@ == (Piece {
                starts: old(into)@.starts + chunk@.starts,
                ends: old(into)@.ends + chunk@.ends,
                types: old(into)@.types + chunk@.types,
                names: old(into)@.names + chunk@.names.take(i as int),
                ..old(into)@
            }),
        decreases a - i,
    {
        into.tag_names.push(chunk.tag_names[i]);
        assert(into@.names =~= old(into)@.names + chunk@.names.take(i + 1));
        i += 1;
    }
    assert(chunk@.names.take(a as int) =~= chunk@.names);
    let mut i: usize = 0;
    let a: usize = chunk.text_ranges.len();
    while i < a
        invariant
            i <= a,
            a == chunk.text_ranges@.len(),
            into@ == (Piece {
                starts: old(into)@.starts + chunk@.starts,
                ends: old(into)@.ends + chunk@.ends,
                types: old(into)@.types + chunk@.types,
                names: old(into)@.names + chunk@.names,
                texts: old(into)@.texts + chunk@.texts.take(i as int),
            }),
        decreases a - i,
    {
        into.text_ranges.push(chunk.text_ranges[i]);
        assert(into@.texts =~= old(into)@.texts + chunk@.texts.take(i + 1));
        i += 1;
    }
    assert(chunk@.texts.take(a as int) =~= chunk@.texts);
}

/// Joins the chunks in order.
fn join_chunks(chunks: &Vec<ChunkResult>) -> (r: ChunkResult)
    ensures
        r@ == joined(pieces_of(chunks@)),
{
    let mut all = ChunkResult {
        tag_starts: Vec::new(),
        tag_ends: Vec::new(),
        tag_types: Vec::new(),
        tag_names: Vec::new(),
        text_ranges: Vec::new(),
    };
    let n: usize = chunks.len();
    let mut i: usize = 0;
    let ghost ps = pieces_of(chunks@);
    assert(all@ =~= Piece::empty());
    while i < n
        invariant
            i <= n,
            n == chunks@.len(),
            ps == pieces_of(chunks@),
            all@ == joined(ps.take(i as int)),
        decreases n - i,
    {
        append_all(&mut all, &chunks[i]);
        assert(ps.take(i + 1).drop_last() =~= ps.take(i as int));
        i += 1;
    }
    assert(ps.take(n as int) =~= ps);
    all
}

/// Merges chunk results into a single index: joins the arrays, then computes
/// depths, parents, close tags, post-order numbers and the parents of text
/// ranges.
pub fn merge_chunks<'a>(input: &'a [u8], chunks: Vec<ChunkResult>) -> (r: std::result::Result<
    XmlIndex<'a>,
    SimdXmlError,
>)
    requires
        joined(pieces_of(chunks@)).within(0, input@.len() as int),
    ensures
        r matches Ok(index) && index.input@ == input@ && index.doc() == merged(
            joined(pieces_of(chunks@)),
        ) && index.wf() && paired(index),
{
    let all = join_chunks(&chunks);
    let ghost p = all@;
    let n: usize = all.tag_types.len();
    let m: usize = all.text_ranges.len();
    let mut depths: Vec<u16> = Vec::new();
    let mut parents: Vec<u32> = Vec::new();
    let mut texts: Vec<TextRange> = Vec::new();
    let mut depth: u16 = 0;
    let mut open: Vec<u32> = Vec::new();
    let mut i: usize = 0;
    while i < n
        invariant
            p == all@,
            p.within(0, input@.len() as int),
            n == p.types.len(),
            m == p.texts.len(),
            i <= n,
            depths@ == levels(p, i as int).depths,
            parents@ == levels(p, i as int).parents,
            depth == levels(p, i as int).depth,
            open@ == levels(p, i as int).open,
            texts@.len() == levels(p, i as int).owners.len(),
            texts@.len() <= m,
            forall|j: int| #![trigger texts@[j]]
                0 <= j < texts@.len() ==> texts@[j] == (TextRange {
                    parent_tag: levels(p, i as int).owners[j],
                    ..p.texts[j]
                }),
        decreases n - i,
    {
        let ghost q = levels(p, i as int);
        let tag_pos: u64 = all.tag_starts[i];
        let current: u32 = innermost_open(&open);
        let ghost mut owners = q.owners;
        proof {
            lemma_levels(p, i as int);
        }
        while texts.len() < m && all.text_ranges[texts.len()].start < tag_pos
            invariant
                p == all@,
                m == p.texts.len(),
                texts@.len() <= m,
                texts@.len() == owners.len(),
                owners_until(owners, p.texts, tag_pos, current) == owners_until(
                    q.owners,
                    p.texts,
                    tag_pos,
                    current,
                ),
                forall|j: int| #![trigger texts@[j]]
                    0 <= j < texts@.len() ==> texts@[j] == (TextRange {
                        parent_tag: owners[j],
                        ..p.texts[j]
                    }),
            decreases m - texts@.len(),
        {
            let t = all.text_ranges[texts.len()];
            texts.push(TextRange { start: t.start, end: t.end, parent_tag: current });
            proof {
                owners = owners.push(current);
            }
        }
        let tt = all.tag_types[i];
        if tt == TagType::Close {
            if depth > 0 {
                depth = depth - 1;
            }
            if open.len() > 0 {
                open.pop();
            }
        }
        depths.push(depth);
        parents.push(innermost_open(&open));
        if tt == TagType::Open {
            open.push(low32(i));
            depth = depth.wrapping_add(1);
        }
        assert(owners == levels(p, i + 1).owners);
        i += 1;
    }
    let last: u32 = innermost_open(&open);
    let ghost end = levels(p, n as int);
    while texts.len() < m
        invariant
            p == all@,
            m == p.texts.len(),
            n == p.types.len(),
            end == levels(p, n as int),
            last == innermost(end.open),
            end.owners.len() <= texts@.len() <= m,
            forall|j: int| #![trigger texts@[j]]
                0 <= j < texts@.len() ==> texts@[j] == (TextRange {
                    parent_tag: owners_of(p)[j],
                    ..p.texts[j]
                }),
        decreases m - texts@.len(),
    {
        let t = all.text_ranges[texts.len()];
        texts.push(TextRange { start: t.start, end: t.end, parent_tag: last });
    }
    let mut index = XmlIndex {
        input,
        tag_starts: all.tag_starts,
        tag_ends: all.tag_ends,
        tag_types: all.tag_types,
        tag_names: all.tag_names,
        depths,
        parents,
        text_ranges: texts,
        child_offsets: Vec::new(),
        child_data: Vec::new(),
        text_child_offsets: Vec::new(),
        text_child_data: Vec::new(),
        close_map: Vec::new(),
        post_order: Vec::new(),
        name_ids: Vec::new(),
        name_table: Vec::new(),
        name_posting: Vec::new(),
    };
    if n as u64 <= u32::MAX as u64 {
        let (close_map, post_order) = pair_tags(&index.tag_types);
        index.close_map = close_map;
        index.post_order = post_order;
    }
    proof {
        assert(index.doc() =~= merged(p));
        lemma_merged_wf(p, input@.len());
        if n <= u32::MAX {
            lemma_pairing_shape(p.types, n as int);
        }
    }
    Ok(index)
}

// Parsing in chunks.

/// Where chunk `i` of the input starts when it is cut at the given positions.
pub open spec fn cut_start(splits: Seq<int>, i: int) -> int {
    if i == 0 {
        0
    } else {
        splits[i - 1]
    }
}

/// Where chunk `i` of an input of `n` bytes ends when it is cut at the given
/// positions.
pub open spec fn cut_end(splits: Seq<int>, i: int, n: int) -> int {
    if i < splits.len() {
        splits[i]
    } else {
        n
    }
}

/// What parsing each chunk of the input yields when it is cut at the given
/// positions.
pub open spec fn cut_pieces(s: Seq<u8>, splits: Seq<int>) -> Seq<Piece> {
    Seq::new(
        splits.len() + 1,
        |i: int|
            chunk_of(
                s.subrange(cut_start(splits, i), cut_end(splits, i, s.len() as int)),
                cut_start(splits, i),
            ),
    )
}

/// The number of chunks that an input is cut into for a number of threads.
pub open spec fn chunk_count(n: int, num_threads: int) -> int {
    if num_threads <= n / 32768 {
        num_threads
    } else {
        n / 32768
    }
}

/// What parsing in chunks yields: like parsing in one go for small documents or
/// a single thread; otherwise the merged chunks.
pub open spec fn parsed_in_chunks(s: Seq<u8>, num_threads: int) -> std::result::Result<Doc, int> {
    if num_threads <= 1 || s.len() < MIN_PARALLEL_SIZE {
        parsed(s)
    } else {
        let count = chunk_count(s.len() as int, num_threads);
        let splits = split_points(s, s.len() as int / count, count - 1);
        Ok(merged(joined(cut_pieces(s, splits))))
    }
}

proof fn lemma_join_within(p: Piece, q: Piece, a: int, b: int, c: int)
    requires
        p.within(a, b),
        q.within(b, c),
        a <= b <= c,
    ensures
        p.join(q).within(a, c),
{
    let r = p.join(q);
    assert forall|i: int, j: int| 0 <= i < j < r.starts.len() implies r.starts[i] < r.starts[j] by {
        if i < p.starts.len() && j >= p.starts.len() {
            assert(p.starts[i] < b);
            assert(q.starts[j - p.starts.len()] >= b);
        }
    }
    assert forall|i: int| #![trigger r.starts[i]] 0 <= i < r.starts.len() implies a <= r.starts[i]
        < c && r.starts[i] <= r.ends[i] by {
        if i < p.starts.len() {
            assert(p.starts[i] < b);
        } else {
            assert(q.starts[i - p.starts.len()] >= b);
        }
    }
    assert forall|i: int| 0 <= i < r.ends.len() implies #[trigger] r.ends[i] <= c by {
        if i < p.ends.len() {
            assert(p.ends[i] <= b);
        } else {
            assert(q.ends[i - p.ends.len()] <= c);
        }
    }
    assert forall|i: int| 0 <= i < r.names.len() implies (#[trigger] r.names[i]).0 + r.names[i].1
        <= c by {
        if i < p.names.len() {
            assert(p.names[i].0 + p.names[i].1 <= b);
        } else {
            assert(q.names[i - p.names.len()].0 + q.names[i - p.names.len()].1 <= c);
        }
    }
    assert forall|i: int| 0 <= i < r.texts.len() implies a <= (#[trigger] r.texts[i]).start
        <= r.texts[i].end <= c by {
        if i < p.texts.len() {
            assert(p.texts[i].end <= b);
        } else {
            assert(q.texts[i - p.texts.len()].end <= c);
        }
    }
}

/// Cuts the input near evenly spaced positions for the given number of threads:
/// the bounds of the chunks, in order.
pub fn chunk_bounds(input: &[u8], num_threads: usize) -> (r: Vec<(usize, usize)>)
    requires
        num_threads > 1,
        input@.len() >= MIN_PARALLEL_SIZE,
    ensures
        ({
            let count = chunk_count(input@.len() as int, num_threads as int);
            let splits = split_points(input@, input@.len() as int / count, count - 1);
            &&& r@.len() == splits.len() + 1
            &&& forall|i: int| #![trigger r@[i]]
                0 <= i < r@.len() ==> r@[i].0 == cut_start(splits, i) && r@[i].1 == cut_end(
                    splits,
                    i,
                    input@.len() as int,
                )
        }),
        r@[0].0 == 0,
        r@.last().1 == input@.len(),
        forall|i: int| #![trigger r@[i]]
            0 <= i < r@.len() ==> r@[i].0 <= r@[i].1 <= input@.len() && (i + 1 < r@.len()
                ==> r@[i].1 == r@[i + 1].0),
{
    let n: usize = input.len();
    let most: usize = n / 32768;
    let count: usize = if num_threads <= most {
        num_threads
    } else {
        most
    };
    let splits = find_split_points(input, count);
    let ghost sp = positions(splits@);
    let mut bounds: Vec<(usize, usize)> = Vec::new();
    let m: usize = splits.len();
    let mut i: usize = 0;
    while i < m
        invariant
            n == input@.len(),
            m == splits@.len(),
            sp == positions(splits@),
            i <= m,
            bounds@.len() == i,
            forall|j: int| #![trigger splits@[j]] 0 <= j < m ==> 0 < splits@[j] < n,
            forall|a: int, b: int| 0 <= a < b < m ==> splits@[a] < splits@[b],
            forall|j: int| #![trigger bounds@[j]]
                0 <= j < i ==> bounds@[j].0 == cut_start(sp, j) && bounds@[j].1 == cut_end(
                    sp,
                    j,
                    n as int,
                ) && bounds@[j].0 <= bounds@[j].1 <= n,
        decreases m - i,
    {
        let start: usize = if i == 0 {
            0
        } else {
            splits[i - 1]
        };
        bounds.push((start, splits[i]));
        i += 1;
    }
    let start: usize = if m == 0 {
        0
    } else {
        splits[m - 1]
    };
    bounds.push((start, n));
    bounds
}

/// Parses XML in chunks. Small documents, and any document when `num_threads`
/// is at most 1, are parsed in one go.
pub fn parse_parallel<'a>(input: &'a [u8], num_threads: usize) -> (r: std::result::Result<
    XmlIndex<'a>,
    SimdXmlError,
>)
    ensures
        match r {
            Ok(index) => {
                &&& parsed_in_chunks(input@, num_threads as int) == Ok::<Doc, int>(index.doc())
                &&& index.input@ == input@
                &&& index.wf()
                &&& if num_threads <= 1 || input@.len() < MIN_PARALLEL_SIZE {
                    index.bare()
                } else {
                    paired(index)
                }
            },
            Err(e) => e matches SimdXmlError::UnclosedTag(p) && parsed_in_chunks(
                input@,
                num_threads as int,
            ) == Err::<Doc, int>(p as int),
        },
{
    if num_threads <= 1 || input.len() < MIN_PARALLEL_SIZE {
        return parse_scalar(input);
    }
    let bounds = chunk_bounds(input, num_threads);
    let ghost count = chunk_count(input@.len() as int, num_threads as int);
    let ghost splits = split_points(input@, input@.len() as int / count, count - 1);
    let ghost pieces = cut_pieces(input@, splits);
    let mut chunks: Vec<ChunkResult> = Vec::new();
    let m: usize = bounds.len();
    let mut i: usize = 0;
    assert(pieces_of(chunks@) =~= pieces.take(0));
    while i < m
        invariant
            m == bounds@.len(),
            pieces == cut_pieces(input@, splits),
            pieces.len() == m,
            i <= m,
            bounds@[0].0 == 0,
            forall|j: int| #![trigger bounds@[j]]
                0 <= j < m ==> bounds@[j].0 == cut_start(splits, j) && bounds@[j].1 == cut_end(
                    splits,
                    j,
                    input@.len() as int,
                ),
            forall|j: int| #![trigger bounds@[j]]
                0 <= j < m ==> bounds@[j].0 <= bounds@[j].1 <= input@.len() && (j + 1 < m
                    ==> bounds@[j].1 == bounds@[j + 1].0),
            pieces_of(chunks@) == pieces.take(i as int),
            joined(pieces.take(i as int)).within(
                0,
                if i < m {
                    bounds@[i as int].0 as int
                } else {
                    bounds@[m - 1].1 as int
                },
            ),
        decreases m - i,
    {
        let (start, end) = bounds[i];
        let total: usize = input.len();
        assert(bounds@[i as int].0 <= bounds@[i as int].1 <= total);
        let chunk = vstd::slice::slice_subrange(input, start, end);
        let result = parse_chunk(chunk, start);
        proof {
            let before = pieces.take(i as int);
            assert(result@ == pieces[i as int]);
            assert(pieces.take(i + 1).drop_last() =~= before);
            lemma_join_within(joined(before), result@, 0, start as int, end as int);
        }
        let ghost held = chunks@;
        chunks.push(result);
        assert(pieces_of(chunks@) =~= pieces.take(i + 1));
        i += 1;
    }
    assert(pieces.take(m as int) =~= pieces);
    merge_chunks(input, chunks)
}

/// Parses XML in chunks and builds the lookup tables of an index that is large
/// enough to gain from them.
pub fn parse_parallel_indexed<'a>(input: &'a [u8], num_threads: usize) -> (r: std::result::Result<
    XmlIndex<'a>,
    SimdXmlError,
>)
    ensures
        match r {
            Ok(index) => {
                &&& parsed_in_chunks(input@, num_threads as int) == Ok::<Doc, int>(index.doc())
                &&& index.input@ == input@
                &&& index.wf()
                &&& index.tags() >= 64 && index.tables_fit() ==> tabled_if_large(index)
                &&& !(index.tags() >= 64 && index.tables_fit()) ==> if num_threads <= 1
                    || input@.len() < MIN_PARALLEL_SIZE {
                    index.bare()
                } else {
                    paired(index)
                }
            },
            Err(e) => e matches SimdXmlError::UnclosedTag(p) && parsed_in_chunks(
                input@,
                num_threads as int,
            ) == Err::<Doc, int>(p as int),
        },
{
    match parse_parallel(input, num_threads) {
        Err(e) => Err(e),
        Ok(found) => {
            let mut index = found;
            let tags: usize = index.tag_starts.len();
            let texts: usize = index.text_ranges.len();
            if tags >= 64 && tags as u64 <= u32::MAX as u64 && texts as u64 <= u32::MAX as u64 {
                index.build_indices();
            }
            Ok(index)
        },
    }
}

} // verus!
