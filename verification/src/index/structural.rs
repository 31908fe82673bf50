//! Building an index from XML bytes in one pass.

use vstd::prelude::*;
use crate::bytes::find_byte;
use crate::error::SimdXmlError;
use crate::index::lexer::{lemma_lex_bounds, scan_construct, Lexeme, LexemeV};
use crate::index::outline::{innermost, lemma_extend_wf, outline, scan, Doc, Scan};
use crate::index::{TagType, TextRange, XmlIndex};

verus! {

/// Low 32 bits of a count.
pub(crate) fn low32(x: usize) -> (r: u32)
    ensures
        r == (x as int % 0x1_0000_0000) as u32,
{
    let wide: u64 = x as u64;
    assert(wide as u32 == wide % 0x1_0000_0000) by (bit_vector);
    #[verifier::truncate]
    (wide as u32)
}

/// Low 16 bits of a count.
pub(crate) fn low16(x: usize) -> (r: u16)
    ensures
        r == (x as int % 0x1_0000) as u16,
{
    let wide: u64 = x as u64;
    assert(wide as u16 == wide % 0x1_0000) by (bit_vector);
    #[verifier::truncate]
    (wide as u16)
}

/// The innermost of the enclosing open tags.
pub(crate) fn innermost_open(open: &Vec<u32>) -> (r: u32)
    ensures
        r == innermost(open@),
{
    if open.len() == 0 {
        u32::MAX
    } else {
        open[open.len() - 1]
    }
}

impl<'a> XmlIndex<'a> {
    /// An index of the input with no tags and no lookup tables.
    pub(crate) fn blank(input: &'a [u8]) -> (r: XmlIndex<'a>)
        ensures
            r.input@ == input@,
            r.doc() == Doc::empty(),
            r.bare(),
    {
        XmlIndex {
            input,
            tag_starts: Vec::new(),
            tag_ends: Vec::new(),
            tag_types: Vec::new(),
            tag_names: Vec::new(),
            depths: Vec::new(),
            parents: Vec::new(),
            text_ranges: Vec::new(),
            child_offsets: Vec::new(),
            child_data: Vec::new(),
            text_child_offsets: Vec::new(),
            text_child_data: Vec::new(),
            close_map: Vec::new(),
            post_order: Vec::new(),
            name_ids: Vec::new(),
            name_table: Vec::new(),
            name_posting: Vec::new(),
        }
    }

    /// Appends one tag to the document arrays.
    pub(crate) fn push_tag(&mut self, kind: TagType, l: &Lexeme, depth: u16, parent: u32)
        requires
            l.name_start <= l.name_end,
        ensures
            final(self).input == old(self).input,
            final(self).doc() == (Doc {
                starts: old(self).doc().starts.push(l.start as u64),
                ends: old(self).doc().ends.push(l.end as u64),
                types: old(self).doc().types.push(kind),
                names: old(self).doc().names.push(
                    (l.name_start as u64, ((l.name_end - l.name_start) % 0x1_0000) as u16),
                ),
                depths: old(self).doc().depths.push(depth),
                parents: old(self).doc().parents.push(parent),
                texts: old(self).doc().texts,
            }),
            old(self).bare() ==> final(self).bare(),
    {
        self.tag_starts.push(l.start as u64);
        self.tag_ends.push(l.end as u64);
        self.tag_types.push(kind);
        self.tag_names.push((l.name_start as u64, low16(l.name_end - l.name_start)));
        self.depths.push(depth);
        self.parents.push(parent);
    }

    /// Appends one text range.
    pub(crate) fn push_text(&mut self, start: usize, end: usize, parent: u32)
        ensures
            final(self).input == old(self).input,
            final(self).doc() == (Doc {
                texts: old(self).doc().texts.push(
                    TextRange { start: start as u64, end: end as u64, parent_tag: parent },
                ),
                ..old(self).doc()
            }),
            old(self).bare() ==> final(self).bare(),
    {
        self.text_ranges.push(
            TextRange { start: start as u64, end: end as u64, parent_tag: parent },
        );
    }
}

/// What parsing a document yields: its arrays, or the position of the tag that
/// the input ended in.
pub open spec fn parsed(s: Seq<u8>) -> std::result::Result<Doc, int> {
    let found = scan(s, 0, false);
    match found.unclosed {
        Some(p) => Err(p),
        None => Ok(outline(found.lexemes).doc),
    }
}

/// Builds an index from XML bytes. Every construct becomes a tag, except
/// declarations such as `<!DOCTYPE ...>`; all text between tags is recorded,
/// whitespace included. Fails exactly when the input ends inside a tag.
pub fn parse_scalar<'a>(input: &'a [u8]) -> (r: std::result::Result<XmlIndex<'a>, SimdXmlError>)
    ensures
        match r {
            Ok(index) => parsed(input@) == Ok::<Doc, int>(index.doc()) && index.input@ == input@
                && index.wf() && index.bare(),
            Err(e) => e matches SimdXmlError::UnclosedTag(p) && parsed(input@) == Err::<Doc, int>(
                p as int,
            ),
        },
{
    let n: usize = input.len();
    let ghost s = input@;
    let mut index = XmlIndex::blank(input);
    let mut pos: usize = 0;
    let mut depth: u16 = 0;
    let mut open: Vec<u32> = Vec::new();
    let mut last_end: usize = 0;
    let ghost mut done: Seq<LexemeV> = Seq::empty();
    assert(done + scan(s, 0, false).lexemes =~= scan(s, 0, false).lexemes);
    while pos < n
        invariant
            n == s.len(),
            s == input@,
            pos <= n,
            index.input == input,
            index.bare(),
            scan(s, 0, false) == (Scan {
                lexemes: done + scan(s, pos as int, false).lexemes,
                unclosed: scan(s, pos as int, false).unclosed,
            }),
            outline(done).wf(s.len()),
            index.doc() == outline(done).doc,
            open@ == outline(done).open,
            depth == outline(done).depth,
            last_end == outline(done).last_end,
            last_end == 0 || last_end < pos,
            done.len() > 0 ==> last_end < pos,
            index.doc().starts.len() > 0 ==> last_end < pos,
        decreases n - pos,
    {
        let p: usize = find_byte(input, pos, 0x3c);
        if p >= n {
            assert(scan(s, pos as int, false).lexemes =~= Seq::empty());
            assert(done + Seq::<LexemeV>::empty() =~= done);
            return Ok(index);
        }
        let ghost before = outline(done);
        let text_start: usize = if last_end > 0 {
            last_end + 1
        } else {
            0
        };
        let l: Lexeme = match scan_construct(input, p, false) {
            None => {
                return Err(SimdXmlError::UnclosedTag(p));
            },
            Some(l) => l,
        };
        proof {
            lemma_lex_bounds(s, p as int, false);
            lemma_extend_wf(before, l@, s, false);
            let rest = scan(s, l@.end + 1, false);
            assert(done + (seq![l@] + rest.lexemes) =~= done.push(l@) + rest.lexemes);
            assert(done.push(l@).drop_last() =~= done);
            done = done.push(l@);
        }
        if text_start < p {
            let parent: u32 = innermost_open(&open);
            index.push_text(text_start, p, parent);
        }
        match l.kind {
            None => {},
            Some(kind) => {
                if kind == TagType::Close {
                    if depth > 0 {
                        depth = depth - 1;
                    }
                    if open.len() > 0 {
                        open.pop();
                    }
                }
                let parent: u32 = innermost_open(&open);
                match l.text {
                    Some(t) => index.push_text(t.0, t.1, parent),
                    None => {},
                }
                let tag: u32 = low32(index.tag_starts.len());
                index.push_tag(kind, &l, depth, parent);
                if kind == TagType::Open {
                    open.push(tag);
                    depth = depth.wrapping_add(1);
                }
            },
        }
        assert(index.doc() =~= before.extend(l@).doc);
        last_end = l.end;
        if l.end >= n {
            assert(scan(s, l@.end + 1, false).lexemes =~= Seq::empty());
            assert(done + Seq::<LexemeV>::empty() =~= done);
            return Ok(index);
        }
        pos = l.end + 1;
    }
    assert(scan(s, pos as int, false).lexemes =~= Seq::empty());
    assert(done + Seq::<LexemeV>::empty() =~= done);
    Ok(index)
}

} // verus!
