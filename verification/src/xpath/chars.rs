//! Character classes of the XPath grammar.

use vstd::prelude::*;

verus! {

/// Whether `char::is_alphanumeric` holds of the character.
pub uninterp spec fn char_is_alphanumeric(c: char) -> bool;

/// Whether `char::is_alphabetic` holds of the character.
pub uninterp spec fn char_is_alphabetic(c: char) -> bool;

/// Calls `char::is_alphanumeric`. Of the ASCII characters exactly the letters
/// and the digits are alphanumeric.
#[verifier::external_body]
pub(crate) fn is_alphanumeric(c: char) -> (r: bool)
    ensures
        r == char_is_alphanumeric(c),
        (c as u32) < 128 ==> r == ('0' <= c <= '9' || 'A' <= c <= 'Z' || 'a' <= c <= 'z'),
{
    c.is_alphanumeric()
}

/// Calls `char::is_alphabetic`. Of the ASCII characters exactly the letters are
/// alphabetic.
#[verifier::external_body]
pub(crate) fn is_alphabetic(c: char) -> (r: bool)
    ensures
        r == char_is_alphabetic(c),
        (c as u32) < 128 ==> r == ('A' <= c <= 'Z' || 'a' <= c <= 'z'),
{
    c.is_alphabetic()
}

/// Whether the character has the Unicode property `White_Space`.
pub open spec fn is_white(c: char) -> bool {
    let u = c as u32;
    (0x9 <= u <= 0xd) || u == 0x20 || u == 0x85 || u == 0xa0 || u == 0x1680 || (0x2000 <= u
        <= 0x200a) || u == 0x2028 || u == 0x2029 || u == 0x202f || u == 0x205f || u == 0x3000
}

/// Tests for the Unicode property `White_Space`.
pub fn is_white_space(c: char) -> (r: bool)
    ensures
        r == is_white(c),
{
    let u: u32 = c as u32;
    (0x9 <= u && u <= 0xd) || u == 0x20 || u == 0x85 || u == 0xa0 || u == 0x1680 || (0x2000 <= u
        && u <= 0x200a) || u == 0x2028 || u == 0x2029 || u == 0x202f || u == 0x205f || u == 0x3000
}

/// Classes of characters that the grammar reads in runs.
#[derive(Clone, Copy)]
pub enum CharClass {
    /// Space, tab, carriage return and line feed.
    Blank,
    /// Names of functions, axes and node types.
    Word,
    /// Namespace prefixes.
    Prefix,
    /// Names, with or without a prefix.
    QName,
    /// Digits and points.
    Number,
    /// The exponent of a number.
    Exponent,
}

/// Whether a character belongs to a class.
pub open spec fn in_class(c: char, class: CharClass) -> bool {
    match class {
        CharClass::Blank => c == ' ' || c == '\t' || c == '\r' || c == '\n',
        CharClass::Word => char_is_alphanumeric(c) || c == '-',
        CharClass::Prefix => char_is_alphanumeric(c) || c == '-' || c == '_',
        CharClass::QName => char_is_alphanumeric(c) || c == '-' || c == '_' || c == '.' || c
            == ':',
        CharClass::Number => '0' <= c <= '9' || c == '.',
        CharClass::Exponent => '0' <= c <= '9' || c == 'e' || c == 'E' || c == '+' || c == '-',
    }
}

/// Tests whether a character belongs to a class.
pub fn belongs(c: char, class: CharClass) -> (r: bool)
    ensures
        r == in_class(c, class),
{
    match class {
        CharClass::Blank => c == ' ' || c == '\t' || c == '\r' || c == '\n',
        CharClass::Word => is_alphanumeric(c) || c == '-',
        CharClass::Prefix => is_alphanumeric(c) || c == '-' || c == '_',
        CharClass::QName => is_alphanumeric(c) || c == '-' || c == '_' || c == '.' || c == ':',
        CharClass::Number => ('0' <= c && c <= '9') || c == '.',
        CharClass::Exponent => ('0' <= c && c <= '9') || c == 'e' || c == 'E' || c == '+' || c
            == '-',
    }
}

/// The end of the run of characters of a class that starts at `p`.
pub open spec fn run(s: Seq<char>, p: int, class: CharClass) -> int
    decreases s.len() - p,
{
    if 0 <= p < s.len() && in_class(s[p], class) {
        run(s, p + 1, class)
    } else {
        p
    }
}

/// The position after the blanks at `p`.
pub open spec fn skip(s: Seq<char>, p: int) -> int {
    run(s, p, CharClass::Blank)
}

/// The least position at or after `p` that holds `c`, or the length.
pub open spec fn seek(s: Seq<char>, p: int, c: char) -> int
    decreases s.len() - p,
{
    if 0 <= p < s.len() && s[p] != c {
        seek(s, p + 1, c)
    } else {
        p
    }
}

/// Whether the character at `p` is `c`.
pub open spec fn at(s: Seq<char>, p: int, c: char) -> bool {
    0 <= p < s.len() && s[p] == c
}

/// Whether the word stands at `p`.
pub open spec fn word_at(s: Seq<char>, p: int, word: Seq<char>) -> bool {
    0 <= p && p + word.len() <= s.len() && s.subrange(p, p + word.len()) == word
}

/// A run ends at or after its start, and inside the text.
pub proof fn lemma_run(s: Seq<char>, p: int, class: CharClass)
    ensures
        p <= run(s, p, class),
        p <= s.len() ==> run(s, p, class) <= s.len(),
    decreases s.len() - p,
{
    if 0 <= p < s.len() && in_class(s[p], class) {
        lemma_run(s, p + 1, class);
    }
}

/// End of the run of characters of a class that starts at `p`.
pub fn run_end(s: &[char], p: usize, class: CharClass) -> (r: usize)
    requires
        p <= s@.len(),
    ensures
        r == run(s@, p as int, class),
        p <= r <= s@.len(),
{
    let n: usize = s.len();
    let mut q: usize = p;
    while q < n && belongs(s[q], class)
        invariant
            n == s@.len(),
            p <= q <= n,
            run(s@, p as int, class) == run(s@, q as int, class),
        decreases n - q,
    {
        q += 1;
    }
    q
}

/// Position after the blanks at `p`.
pub fn skip_blanks(s: &[char], p: usize) -> (r: usize)
    requires
        p <= s@.len(),
    ensures
        r == skip(s@, p as int),
        p <= r <= s@.len(),
{
    run_end(s, p, CharClass::Blank)
}

/// Position of the first `c` at or after `p`, or the length.
pub fn until(s: &[char], p: usize, c: char) -> (r: usize)
    requires
        p <= s@.len(),
    ensures
        r == seek(s@, p as int, c),
        p <= r <= s@.len(),
        r < s@.len() ==> s@[r as int] == c,
{
    let n: usize = s.len();
    let mut q: usize = p;
    while q < n && s[q] != c
        invariant
            n == s@.len(),
            p <= q <= n,
            seek(s@, p as int, c) == seek(s@, q as int, c),
        decreases n - q,
    {
        q += 1;
    }
    q
}

/// Whether the character at `p` is `c`.
pub fn is_at(s: &[char], p: usize, c: char) -> (r: bool)
    ensures
        r == at(s@, p as int, c),
        s@.len() <= usize::MAX,
{
    p < s.len() && s[p] == c
}

/// Whether the characters in `from..to` spell the word.
pub fn spelled(s: &[char], from: usize, to: usize, word: &str) -> (r: bool)
    requires
        from <= to <= s@.len(),
    ensures
        r == (s@.subrange(from as int, to as int) == word@),
{
    let w: Vec<char> = crate::text::chars_of(word);
    if to - from != w.len() {
        return false;
    }
    let mut i: usize = 0;
    while i < w.len()
        invariant
            from <= to <= s@.len(),
            to - from == w@.len(),
            w@ == word@,
            i <= w@.len(),
            forall|j: int| 0 <= j < i ==> s@[from + j] == #[trigger] w@[j],
        decreases w@.len() - i,
    {
        if s[from + i] != w[i] {
            assert(s@.subrange(from as int, to as int)[i as int] != word@[i as int]);
            return false;
        }
        i += 1;
    }
    assert(s@.subrange(from as int, to as int) =~= word@);
    true
}

/// Whether the word stands at `p`.
pub fn is_word_at(s: &[char], p: usize, word: &str) -> (r: bool)
    requires
        p <= s@.len(),
    ensures
        r == word_at(s@, p as int, word@),
        s@.len() <= usize::MAX,
{
    let w: Vec<char> = crate::text::chars_of(word);
    let n: usize = s.len();
    if w.len() > n - p {
        return false;
    }
    spelled(s, p, p + w.len(), word)
}

/// Of the ASCII characters, exactly tab, line feed, vertical tab, form feed, carriage
/// return and space are white space; tab, line feed, carriage return and space are blank.
pub proof fn lemma_ascii_white(c: char)
    requires
        (c as u32) < 128,
    ensures
        is_white(c) <==> c as u32 == 9 || c as u32 == 10 || c as u32 == 11 || c as u32 == 12 || c as u32
            == 13 || c as u32 == 32,
        in_class(c, CharClass::Blank) <==> c as u32 == 9 || c as u32 == 10 || c as u32 == 13 || c as u32
            == 32,
{
}

} // verus!
