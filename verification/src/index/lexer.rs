//! Markup scanning: where a construct that starts at a `<` ends, and what it is.

use vstd::prelude::*;
use crate::bytes::{
    find_byte, find_pattern, find_seq, is_ascii_space, is_byte, is_space, lemma_find_seq,
    lemma_scan_to, occurs_at, scan_to, starts_at,
};
use crate::index::TagType;

verus! {

/// A markup construct as positions in the input. `kind` is `None` for a
/// declaration such as `<!DOCTYPE ...>`, which is no tag. `text` is the content
/// range of a terminated, nonempty CDATA section.
pub struct LexemeV {
    pub kind: Option<TagType>,
    pub start: int,
    pub end: int,
    pub name_start: int,
    pub name_end: int,
    pub text: Option<(int, int)>,
}

/// A markup construct found in the input: see `LexemeV`.
#[derive(Clone, Copy)]
pub struct Lexeme {
    pub kind: Option<TagType>,
    pub start: usize,
    pub end: usize,
    pub name_start: usize,
    pub name_end: usize,
    pub text: Option<(usize, usize)>,
}

impl View for Lexeme {
    type V = LexemeV;

    open spec fn view(&self) -> LexemeV {
        LexemeV {
            kind: self.kind,
            start: self.start as int,
            end: self.end as int,
            name_start: self.name_start as int,
            name_end: self.name_end as int,
            text: match self.text {
                Some(t) => Some((t.0 as int, t.1 as int)),
                None => None,
            },
        }
    }
}

/// Bytes that end the name of a close tag.
pub open spec fn ends_close_name() -> spec_fn(u8) -> bool {
    |b: u8| b == 0x3e || is_space(b)
}

/// Bytes that end the name of an open or self-closing tag.
pub open spec fn ends_open_name() -> spec_fn(u8) -> bool {
    |b: u8| b == 0x3e || b == 0x2f || is_space(b)
}

/// Bytes that end the target of a processing instruction.
pub open spec fn ends_target() -> spec_fn(u8) -> bool {
    |b: u8| b == 0x3f || b == 0x3e || is_space(b)
}

pub open spec fn comment_opening() -> Seq<u8> {
    seq![0x2du8, 0x2du8]
}

pub open spec fn comment_closing() -> Seq<u8> {
    seq![0x2du8, 0x2du8, 0x3eu8]
}

pub open spec fn cdata_opening() -> Seq<u8> {
    seq![0x5bu8, 0x43u8, 0x44u8, 0x41u8, 0x54u8, 0x41u8, 0x5bu8]
}

pub open spec fn cdata_closing() -> Seq<u8> {
    seq![0x5du8, 0x5du8, 0x3eu8]
}

pub open spec fn pi_closing() -> Seq<u8> {
    seq![0x3fu8, 0x3eu8]
}

pub open spec fn larger(a: int, b: int) -> int {
    if a >= b {
        a
    } else {
        b
    }
}

/// One past the last `]` at or after `p`, or `p` when there is none.
pub open spec fn after_last_bracket(s: Seq<u8>, p: int) -> int
    decreases s.len() - p,
{
    let i = scan_to(s, p, is_byte(0x5d));
    if 0 <= p <= i < s.len() {
        after_last_bracket(s, i + 1)
    } else {
        p
    }
}

/// Scans over the attributes of a tag from `p`: the position of the `>` that
/// ends the tag, with whether a `/` stands just before it. Quoted values are
/// skipped. When no `>` is found the position is at or past the end of input.
/// A quote that is never closed runs to the end of input; when `lenient`, the
/// quote and the byte after it are skipped instead.
pub open spec fn tag_close(s: Seq<u8>, p: int, lenient: bool) -> (int, bool)
    decreases s.len() + 1 - p,
{
    if p < 0 || p >= s.len() || s[p] == 0x3e {
        (p, false)
    } else if s[p] == 0x2f && p + 1 < s.len() && s[p + 1] == 0x3e {
        (p + 1, true)
    } else if s[p] == 0x22 || s[p] == 0x27 {
        let q = scan_to(s, p + 1, is_byte(s[p]));
        if p < q < s.len() {
            tag_close(s, q + 1, lenient)
        } else if lenient {
            tag_close(s, p + 2, lenient)
        } else {
            (s.len() as int, false)
        }
    } else {
        tag_close(s, p + 1, lenient)
    }
}

/// The construct that starts at the `<` at position `p`, or `None` when the
/// input ends inside a tag. Comments, CDATA sections, declarations and
/// processing instructions that are never closed end near the end of input;
/// when `lenient`, an unclosed CDATA section ends after its last `]` and an
/// unclosed declaration ends where it starts.
pub open spec fn lex(s: Seq<u8>, p: int, lenient: bool) -> Option<LexemeV> {
    let n = s.len() as int;
    if p + 1 >= n {
        None
    } else if s[p + 1] == 0x2f {
        let name_end = scan_to(s, p + 2, ends_close_name());
        let end = scan_to(s, name_end, is_byte(0x3e));
        if end >= n {
            None
        } else {
            Some(
                LexemeV {
                    kind: Some(TagType::Close),
                    start: p,
                    end,
                    name_start: p + 2,
                    name_end,
                    text: None,
                },
            )
        }
    } else if s[p + 1] == 0x21 {
        Some(lex_bang(s, p, lenient))
    } else if s[p + 1] == 0x3f {
        let name_end = scan_to(s, p + 2, ends_target());
        let end = match find_seq(s, name_end, pi_closing()) {
            Some(i) => i + 1,
            None => larger(name_end, n - 1),
        };
        Some(
            LexemeV {
                kind: Some(TagType::PI),
                start: p,
                end,
                name_start: p + 2,
                name_end,
                text: None,
            },
        )
    } else {
        let name_end = scan_to(s, p + 1, ends_open_name());
        let (end, self_closing) = tag_close(s, name_end, lenient);
        if end >= n {
            None
        } else {
            Some(
                LexemeV {
                    kind: Some(
                        if self_closing {
                            TagType::SelfClose
                        } else {
                            TagType::Open
                        },
                    ),
                    start: p,
                    end,
                    name_start: p + 1,
                    name_end,
                    text: None,
                },
            )
        }
    }
}

/// The construct that starts with `<!` at position `p`.
pub open spec fn lex_bang(s: Seq<u8>, p: int, lenient: bool) -> LexemeV {
    let n = s.len() as int;
    if occurs_at(s, p + 2, comment_opening()) {
        let end = match find_seq(s, p + 4, comment_closing()) {
            Some(i) => i + 2,
            None => if lenient {
                n
            } else {
                larger(p + 4, n - 2)
            },
        };
        LexemeV {
            kind: Some(TagType::Comment),
            start: p,
            end,
            name_start: 0,
            name_end: 0,
            text: None,
        }
    } else if occurs_at(s, p + 2, cdata_opening()) {
        let close = find_seq(s, p + 9, cdata_closing());
        let end = match close {
            Some(i) => i + 2,
            None => if lenient {
                after_last_bracket(s, p + 9)
            } else {
                larger(p + 9, n - 2)
            },
        };
        let text = match close {
            Some(i) => if i > p + 9 {
                Some((p + 9, i))
            } else {
                None
            },
            None => None,
        };
        LexemeV { kind: Some(TagType::CData), start: p, end, name_start: 0, name_end: 0, text }
    } else {
        let close = scan_to(s, p, is_byte(0x3e));
        let end = if close < n || !lenient {
            close
        } else {
            p
        };
        LexemeV { kind: None, start: p, end, name_start: 0, name_end: 0, text: None }
    }
}

proof fn lemma_after_last_bracket(s: Seq<u8>, p: int)
    requires
        0 <= p <= s.len(),
    ensures
        p <= after_last_bracket(s, p) <= s.len(),
    decreases s.len() - p,
{
    lemma_scan_to(s, p, is_byte(0x5d));
    let i = scan_to(s, p, is_byte(0x5d));
    if i < s.len() {
        lemma_after_last_bracket(s, i + 1);
    }
}

/// The end of a tag stands at or after where the search starts, at a `>`; the tag
/// of an empty element has a `/` before it.
pub proof fn lemma_tag_close(s: Seq<u8>, p: int, lenient: bool)
    requires
        0 <= p,
    ensures
        p <= tag_close(s, p, lenient).0 || s.len() <= tag_close(s, p, lenient).0,
        tag_close(s, p, lenient).0 < s.len() ==> s[tag_close(s, p, lenient).0] == 0x3e,
        tag_close(s, p, lenient).0 < s.len() && tag_close(s, p, lenient).1 ==> p < tag_close(
            s,
            p,
            lenient,
        ).0 && s[tag_close(s, p, lenient).0 - 1] == 0x2f,
    decreases s.len() + 1 - p,
{
    if p < s.len() && s[p] != 0x3e && !(s[p] == 0x2f && p + 1 < s.len() && s[p + 1] == 0x3e) {
        if s[p] == 0x22 || s[p] == 0x27 {
            lemma_scan_to(s, p + 1, is_byte(s[p]));
            let q = scan_to(s, p + 1, is_byte(s[p]));
            if q < s.len() {
                lemma_tag_close(s, q + 1, lenient);
            } else if lenient {
                lemma_tag_close(s, p + 2, lenient);
            }
        } else {
            lemma_tag_close(s, p + 1, lenient);
        }
    }
}

/// Every construct starts at its `<`, ends at or after it and within the
/// input, keeps its name and its text inside the input, and a tag of an element
/// ends at a `>`.
pub proof fn lemma_lex_bounds(s: Seq<u8>, p: int, lenient: bool)
    requires
        0 <= p < s.len(),
        lex(s, p, lenient) is Some,
    ensures
        ({
            let l = lex(s, p, lenient)->0;
            &&& l.start == p
            &&& p <= l.end <= s.len()
            &&& 0 <= l.name_start <= l.name_end <= s.len()
            &&& l.kind is Some ==> p < l.end
            &&& l.text matches Some(t) ==> p < t.0 < t.1 <= s.len() && t.1 <= l.end && l.kind
                == Some(TagType::CData)
            &&& l.kind == Some(TagType::Open) || l.kind == Some(TagType::Close) || l.kind == Some(
                TagType::SelfClose,
            ) ==> l.end < s.len() && s[l.end] == 0x3e && l.name_end <= l.end
        }),
{
    let n = s.len() as int;
    if s[p + 1] == 0x2f {
        lemma_scan_to(s, p + 2, ends_close_name());
        lemma_scan_to(s, scan_to(s, p + 2, ends_close_name()), is_byte(0x3e));
    } else if s[p + 1] == 0x21 {
        if occurs_at(s, p + 2, comment_opening()) {
            lemma_find_seq(s, p + 4, comment_closing());
        } else if occurs_at(s, p + 2, cdata_opening()) {
            lemma_find_seq(s, p + 9, cdata_closing());
            lemma_after_last_bracket(s, p + 9);
        } else {
            lemma_scan_to(s, p, is_byte(0x3e));
        }
    } else if s[p + 1] == 0x3f {
        lemma_scan_to(s, p + 2, ends_target());
        lemma_find_seq(s, scan_to(s, p + 2, ends_target()), pi_closing());
    } else {
        lemma_scan_to(s, p + 1, ends_open_name());
        lemma_tag_close(s, scan_to(s, p + 1, ends_open_name()), lenient);
    }
}

/// End of the name of a close tag whose name starts at `from`.
fn close_name_end(s: &[u8], from: usize) -> (r: usize)
    requires
        from <= s@.len(),
    ensures
        r == scan_to(s@, from as int, ends_close_name()),
        from <= r <= s@.len(),
{
    let mut pos: usize = from;
    while pos < s.len() && s[pos] != 0x3e && !is_ascii_space(s[pos])
        invariant
            from <= pos <= s@.len(),
            scan_to(s@, from as int, ends_close_name()) == scan_to(
                s@,
                pos as int,
                ends_close_name(),
            ),
        decreases s@.len() - pos,
    {
        pos += 1;
    }
    pos
}

/// End of the name of an open tag whose name starts at `from`.
pub fn open_name_end(s: &[u8], from: usize) -> (r: usize)
    requires
        from <= s@.len(),
    ensures
        r == scan_to(s@, from as int, ends_open_name()),
        from <= r <= s@.len(),
{
    let mut pos: usize = from;
    while pos < s.len() && s[pos] != 0x3e && s[pos] != 0x2f && !is_ascii_space(s[pos])
        invariant
            from <= pos <= s@.len(),
            scan_to(s@, from as int, ends_open_name()) == scan_to(
                s@,
                pos as int,
                ends_open_name(),
            ),
        decreases s@.len() - pos,
    {
        pos += 1;
    }
    pos
}

/// End of the target of a processing instruction whose target starts at `from`.
fn target_end(s: &[u8], from: usize) -> (r: usize)
    requires
        from <= s@.len(),
    ensures
        r == scan_to(s@, from as int, ends_target()),
        from <= r <= s@.len(),
{
    let mut pos: usize = from;
    while pos < s.len() && s[pos] != 0x3f && s[pos] != 0x3e && !is_ascii_space(s[pos])
        invariant
            from <= pos <= s@.len(),
            scan_to(s@, from as int, ends_target()) == scan_to(s@, pos as int, ends_target()),
        decreases s@.len() - pos,
    {
        pos += 1;
    }
    pos
}

/// Finds the `>` that ends a tag: see `tag_close`. `None` when the tag is
/// never closed.
fn find_tag_close(s: &[u8], from: usize, lenient: bool) -> (r: Option<(usize, bool)>)
    requires
        from <= s@.len(),
    ensures
        match r {
            Some(c) => tag_close(s@, from as int, lenient) == (c.0 as int, c.1) && c.0 < s@.len(),
            None => tag_close(s@, from as int, lenient).0 >= s@.len(),
        },
{
    let mut pos: usize = from;
    while pos < s.len()
        invariant
            from <= pos,
            tag_close(s@, from as int, lenient) == tag_close(s@, pos as int, lenient),
        decreases s@.len() - pos,
    {
        let b: u8 = s[pos];
        if b == 0x3e {
            return Some((pos, false));
        }
        if b == 0x2f && pos + 1 < s.len() && s[pos + 1] == 0x3e {
            return Some((pos + 1, true));
        }
        if b == 0x22 || b == 0x27 {
            let q: usize = find_byte(s, pos + 1, b);
            if q < s.len() {
                pos = q + 1;
            } else if lenient {
                if pos + 1 >= s.len() {
                    assert(tag_close(s@, pos + 2, lenient) == (pos + 2, false));
                    return None;
                }
                pos = pos + 2;
            } else {
                return None;
            }
        } else {
            pos = pos + 1;
        }
    }
    None
}

/// Finds one past the last `]` at or after `from`: see `after_last_bracket`.
fn find_after_last_bracket(s: &[u8], from: usize) -> (r: usize)
    requires
        from <= s@.len(),
    ensures
        r == after_last_bracket(s@, from as int),
        from <= r <= s@.len(),
{
    let mut pos: usize = from;
    loop
        invariant
            from <= pos <= s@.len(),
            after_last_bracket(s@, from as int) == after_last_bracket(s@, pos as int),
        decreases s@.len() - pos,
    {
        let i: usize = find_byte(s, pos, 0x5d);
        if i >= s.len() {
            return pos;
        }
        pos = i + 1;
    }
}

/// Scans the construct that starts with `<!` at position `p`.
fn scan_bang(s: &[u8], p: usize, lenient: bool) -> (r: Lexeme)
    requires
        p + 1 < s@.len(),
        s@[p as int] == 0x3c,
    ensures
        r@ == lex_bang(s@, p as int, lenient),
{
    let n: usize = s.len();
    if starts_at(s, p + 2, &[0x2d, 0x2d]) {
        assert([0x2du8, 0x2du8]@ =~= comment_opening());
        assert(comment_opening()[1] == s@[p + 2 + 1]);
        let end: usize = match find_pattern(s, p + 4, &[0x2d, 0x2d, 0x3e]) {
            Some(i) => i + 2,
            None => if lenient {
                n
            } else if p + 4 >= n - 2 {
                p + 4
            } else {
                n - 2
            },
        };
        assert([0x2du8, 0x2du8, 0x3eu8]@ =~= comment_closing());
        Lexeme {
            kind: Some(TagType::Comment),
            start: p,
            end,
            name_start: 0,
            name_end: 0,
            text: None,
        }
    } else if starts_at(s, p + 2, &[0x5b, 0x43, 0x44, 0x41, 0x54, 0x41, 0x5b]) {
        assert([0x2du8, 0x2du8]@ =~= comment_opening());
        assert([0x5bu8, 0x43u8, 0x44u8, 0x41u8, 0x54u8, 0x41u8, 0x5bu8]@ =~= cdata_opening());
        assert([0x5du8, 0x5du8, 0x3eu8]@ =~= cdata_closing());
        match find_pattern(s, p + 9, &[0x5d, 0x5d, 0x3e]) {
            Some(i) => Lexeme {
                kind: Some(TagType::CData),
                start: p,
                end: i + 2,
                name_start: 0,
                name_end: 0,
                text: if i > p + 9 {
                    Some((p + 9, i))
                } else {
                    None
                },
            },
            None => Lexeme {
                kind: Some(TagType::CData),
                start: p,
                end: if lenient {
                    find_after_last_bracket(s, p + 9)
                } else if p + 9 >= n - 2 {
                    p + 9
                } else {
                    n - 2
                },
                name_start: 0,
                name_end: 0,
                text: None,
            },
        }
    } else {
        assert([0x2du8, 0x2du8]@ =~= comment_opening());
        assert([0x5bu8, 0x43u8, 0x44u8, 0x41u8, 0x54u8, 0x41u8, 0x5bu8]@ =~= cdata_opening());
        let close: usize = find_byte(s, p, 0x3e);
        Lexeme {
            kind: None,
            start: p,
            end: if close < n || !lenient {
                close
            } else {
                p
            },
            name_start: 0,
            name_end: 0,
            text: None,
        }
    }
}

/// Scans the construct that starts at the `<` at position `p`: see `lex`.
pub fn scan_construct(s: &[u8], p: usize, lenient: bool) -> (r: Option<Lexeme>)
    requires
        p < s@.len(),
        s@[p as int] == 0x3c,
    ensures
        match r {
            Some(l) => lex(s@, p as int, lenient) == Some(l@),
            None => lex(s@, p as int, lenient) is None,
        },
{
    let n: usize = s.len();
    if n - p <= 1 {
        return None;
    }
    let b: u8 = s[p + 1];
    if b == 0x2f {
        let name_end: usize = close_name_end(s, p + 2);
        let end: usize = find_byte(s, name_end, 0x3e);
        if end >= n {
            return None;
        }
        Some(
            Lexeme {
                kind: Some(TagType::Close),
                start: p,
                end,
                name_start: p + 2,
                name_end,
                text: None,
            },
        )
    } else if b == 0x21 {
        Some(scan_bang(s, p, lenient))
    } else if b == 0x3f {
        let name_end: usize = target_end(s, p + 2);
        assert([0x3fu8, 0x3eu8]@ =~= pi_closing());
        let end: usize = match find_pattern(s, name_end, &[0x3f, 0x3e]) {
            Some(i) => i + 1,
            None => if name_end >= n - 1 {
                name_end
            } else {
                n - 1
            },
        };
        Some(
            Lexeme {
                kind: Some(TagType::PI),
                start: p,
                end,
                name_start: p + 2,
                name_end,
                text: None,
            },
        )
    } else {
        let name_end: usize = open_name_end(s, p + 1);
        match find_tag_close(s, name_end, lenient) {
            None => None,
            Some(c) => Some(
                Lexeme {
                    kind: Some(
                        if c.1 {
                            TagType::SelfClose
                        } else {
                            TagType::Open
                        },
                    ),
                    start: p,
                    end: c.0,
                    name_start: p + 1,
                    name_end,
                    text: None,
                },
            ),
        }
    }
}

} // verus!
