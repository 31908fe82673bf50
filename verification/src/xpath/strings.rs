//! The string functions of XPath, over characters.

use vstd::prelude::*;
use crate::text::{chars_of, string_of};
use crate::xpath::chars::{is_white, is_white_space};

verus! {

/// Whether `part` stands in `s` at position `p`.
pub open spec fn stands_at(s: Seq<char>, p: int, part: Seq<char>) -> bool {
    &&& 0 <= p
    &&& p + part.len() <= s.len()
    &&& forall|j: int| 0 <= j < part.len() ==> #[trigger] part[j] == s[p + j]
}

/// The least position at or after `p` where `part` stands.
pub open spec fn find_part(s: Seq<char>, p: int, part: Seq<char>) -> Option<int>
    decreases s.len() - p,
{
    if p < 0 || p + part.len() > s.len() {
        None
    } else if stands_at(s, p, part) {
        Some(p)
    } else {
        find_part(s, p + 1, part)
    }
}

/// The first `k` characters without white space at either end, and with one
/// blank for each run of white space between.
pub open spec fn normalized(s: Seq<char>, k: int) -> Seq<char>
    decreases k,
{
    if k <= 0 {
        Seq::empty()
    } else {
        let before = normalized(s, k - 1);
        let c = s[k - 1];
        if is_white(c) {
            before
        } else if before.len() > 0 && is_white(s[k - 2]) {
            before.push(' ').push(c)
        } else {
            before.push(c)
        }
    }
}

/// The least position at or after `p` that holds `c`.
pub open spec fn char_position(s: Seq<char>, p: int, c: char) -> Option<int>
    decreases s.len() - p,
{
    if p < 0 || p >= s.len() {
        None
    } else if s[p] == c {
        Some(p)
    } else {
        char_position(s, p + 1, c)
    }
}

/// The first `k` characters, each that occurs in `from` replaced by the
/// character at the same position of `to`, or left out when there is none.
pub open spec fn translated(s: Seq<char>, from: Seq<char>, to: Seq<char>, k: int) -> Seq<char>
    decreases k,
{
    if k <= 0 {
        Seq::empty()
    } else {
        let before = translated(s, from, to, k - 1);
        match char_position(from, 0, s[k - 1]) {
            None => before.push(s[k - 1]),
            Some(p) => if p < to.len() {
                before.push(to[p])
            } else {
                before
            },
        }
    }
}

/// The character with an ASCII capital made small.
pub open spec fn small(c: char) -> char {
    if 'A' <= c <= 'Z' {
        (c as u32 + 32) as char
    } else {
        c
    }
}

/// Whether a language matches the wanted one: they are equal but for ASCII
/// case, or the wanted one is followed by `-`.
pub open spec fn lang_matches(lang: Seq<char>, wanted: Seq<char>) -> bool {
    &&& wanted.len() <= lang.len()
    &&& forall|j: int|
        0 <= j < wanted.len() ==> small(#[trigger] wanted[j]) == small(lang[j])
    &&& lang.len() == wanted.len() || lang[wanted.len() as int] == '-'
}

/// Whether the part stands at a position.
fn is_part_at(s: &[char], p: usize, part: &[char]) -> (r: bool)
    requires
        p <= s@.len(),
    ensures
        r == stands_at(s@, p as int, part@),
{
    let n: usize = s.len();
    if part.len() > n - p {
        return false;
    }
    let mut i: usize = 0;
    while i < part.len()
        invariant
            n == s@.len(),
            p + part@.len() <= n,
            i <= part@.len(),
            forall|j: int| 0 <= j < i ==> #[trigger] part@[j] == s@[p + j],
        decreases part@.len() - i,
    {
        if s[p + i] != part[i] {
            assert(part@[i as int] != s@[p + i]);
            return false;
        }
        i += 1;
    }
    true
}

/// Finds the first place where a part stands.
fn part_position(s: &[char], part: &[char]) -> (r: Option<usize>)
    ensures
        match r {
            Some(i) => find_part(s@, 0, part@) == Some(i as int) && i + part@.len() <= s@.len(),
            None => find_part(s@, 0, part@) is None,
        },
{
    let n: usize = s.len();
    let mut p: usize = 0;
    while p <= n && part.len() <= n - p
        invariant
            n == s@.len(),
            p <= n + 1,
            find_part(s@, 0, part@) == find_part(s@, p as int, part@),
        decreases n + 1 - p,
    {
        if is_part_at(s, p, part) {
            return Some(p);
        }
        if p == n {
            assert(find_part(s@, p + 1, part@) is None);
            return None;
        }
        p += 1;
    }
    None
}

/// Whether a text contains another.
pub fn contains_text(s: &str, part: &str) -> (r: bool)
    ensures
        r == (find_part(s@, 0, part@) is Some),
{
    part_position(chars_of(s).as_slice(), chars_of(part).as_slice()).is_some()
}

/// Whether a text starts with another.
pub fn starts_with_text(s: &str, part: &str) -> (r: bool)
    ensures
        r == stands_at(s@, 0, part@),
{
    is_part_at(chars_of(s).as_slice(), 0, chars_of(part).as_slice())
}

/// What comes before the first occurrence of a part; empty without one.
pub open spec fn text_before(s: Seq<char>, part: Seq<char>) -> Seq<char> {
    match find_part(s, 0, part) {
        Some(i) => s.subrange(0, i),
        None => Seq::empty(),
    }
}

/// What comes after the first occurrence of a part; empty without one.
pub open spec fn text_after(s: Seq<char>, part: Seq<char>) -> Seq<char> {
    match find_part(s, 0, part) {
        Some(i) => s.subrange(i + part.len(), s.len() as int),
        None => Seq::empty(),
    }
}

/// Hands out what comes before the first occurrence of a part.
pub fn before_part(s: &str, part: &str) -> (r: String)
    ensures
        r@ == text_before(s@, part@),
{
    let chars = chars_of(s);
    let wanted = chars_of(part);
    match part_position(chars.as_slice(), wanted.as_slice()) {
        Some(i) => string_of(chars.as_slice(), 0, i),
        None => {
            let none = String::new();
            assert(none@ =~= Seq::empty());
            none
        },
    }
}

/// Hands out what comes after the first occurrence of a part.
pub fn after_part(s: &str, part: &str) -> (r: String)
    ensures
        r@ == text_after(s@, part@),
{
    let chars = chars_of(s);
    let wanted = chars_of(part);
    let n: usize = chars.len();
    let m: usize = wanted.len();
    match part_position(chars.as_slice(), wanted.as_slice()) {
        Some(i) => string_of(chars.as_slice(), i + m, n),
        None => {
            let none = String::new();
            assert(none@ =~= Seq::empty());
            none
        },
    }
}

/// Normalizes the white space of a text.
pub fn normalize_space(s: &str) -> (r: String)
    ensures
        r@ == normalized(s@, s@.len() as int),
{
    let chars = chars_of(s);
    let mut out = String::new();
    let mut empty = true;
    let mut i: usize = 0;
    assert(out@ =~= Seq::empty());
    while i < chars.len()
        invariant
            chars@ == s@,
            i <= chars@.len(),
            out@ == normalized(s@, i as int),
            empty == (out@.len() == 0),
            i == 0 ==> empty,
        decreases chars@.len() - i,
    {
        let c = chars[i];
        if !is_white_space(c) {
            if !empty && is_white_space(chars[i - 1]) {
                out.push(' ');
            }
            out.push(c);
            empty = false;
        }
        i += 1;
    }
    out
}

/// Finds the first position of a character.
fn position_of(s: &[char], c: char) -> (r: Option<usize>)
    ensures
        match r {
            Some(i) => char_position(s@, 0, c) == Some(i as int),
            None => char_position(s@, 0, c) is None,
        },
{
    let mut p: usize = 0;
    while p < s.len()
        invariant
            p <= s@.len(),
            char_position(s@, 0, c) == char_position(s@, p as int, c),
        decreases s@.len() - p,
    {
        if s[p] == c {
            return Some(p);
        }
        p += 1;
    }
    None
}

/// Translates characters: see `translated`.
pub fn translate(s: &str, from: &str, to: &str) -> (r: String)
    ensures
        r@ == translated(s@, from@, to@, s@.len() as int),
{
    let chars = chars_of(s);
    let sources = chars_of(from);
    let targets = chars_of(to);
    let mut out = String::new();
    let mut i: usize = 0;
    assert(out@ =~= Seq::empty());
    while i < chars.len()
        invariant
            chars@ == s@,
            sources@ == from@,
            targets@ == to@,
            i <= chars@.len(),
            out@ == translated(s@, from@, to@, i as int),
        decreases chars@.len() - i,
    {
        let c = chars[i];
        match position_of(sources.as_slice(), c) {
            None => out.push(c),
            Some(p) => if p < targets.len() {
                out.push(targets[p]);
            },
        }
        i += 1;
    }
    out
}

/// Makes an ASCII capital small.
fn make_small(c: char) -> (r: u32)
    ensures
        r == small(c) as u32,
{
    if 'A' <= c && c <= 'Z' {
        c as u32 + 32
    } else {
        c as u32
    }
}

/// Whether a language matches the wanted one: see `lang_matches`.
pub fn matches_lang(lang: &str, wanted: &str) -> (r: bool)
    ensures
        r == lang_matches(lang@, wanted@),
{
    let l = chars_of(lang);
    let w = chars_of(wanted);
    if w.len() > l.len() {
        return false;
    }
    let mut i: usize = 0;
    while i < w.len()
        invariant
            l@ == lang@,
            w@ == wanted@,
            w@.len() <= l@.len(),
            i <= w@.len(),
            forall|j: int| 0 <= j < i ==> small(#[trigger] w@[j]) == small(l@[j]),
        decreases w@.len() - i,
    {
        if make_small(w[i]) != make_small(l[i]) {
            assert(small(w@[i as int]) != small(l@[i as int]));
            return false;
        }
        assert(small(w@[i as int]) == small(l@[i as int]));
        i += 1;
    }
    l.len() == w.len() || l[w.len()] == '-'
}

/// A search finds the first place: the part stands at the position found and at none
/// before it, and where nothing is found it stands nowhere from the start of the
/// search on.
pub proof fn lemma_find_part(s: Seq<char>, p: int, part: Seq<char>)
    requires
        0 <= p,
    ensures
        match find_part(s, p, part) {
            Some(i) => p <= i && i + part.len() <= s.len() && s.subrange(i, i + part.len()) == part
                && forall|j: int| p <= j < i ==> !#[trigger] stands_at(s, j, part),
            None => forall|j: int| p <= j ==> !#[trigger] stands_at(s, j, part),
        },
    decreases s.len() - p,
{
    if p + part.len() <= s.len() {
        if stands_at(s, p, part) {
            assert(s.subrange(p, p + part.len()) =~= part);
        } else {
            lemma_find_part(s, p + 1, part);
        }
    }
}

/// A part stands at a position exactly when the text there reads like the part.
pub proof fn lemma_stands_at(s: Seq<char>, p: int, part: Seq<char>)
    ensures
        stands_at(s, p, part) <==> 0 <= p && p + part.len() <= s.len() && s.subrange(
            p,
            p + part.len(),
        ) == part,
{
    if 0 <= p && p + part.len() <= s.len() && s.subrange(p, p + part.len()) == part {
        assert forall|j: int| 0 <= j < part.len() implies #[trigger] part[j] == s[p + j] by {
            assert(s.subrange(p, p + part.len())[j] == s[p + j]);
        }
    }
    if stands_at(s, p, part) {
        assert(s.subrange(p, p + part.len()) =~= part);
    }
}

/// A text contains a part exactly when it is something, the part and something more.
pub proof fn lemma_contains(s: Seq<char>, part: Seq<char>)
    ensures
        find_part(s, 0, part) is Some <==> exists|a: Seq<char>, b: Seq<char>|
            s == #[trigger] (a + part + b),
{
    lemma_find_part(s, 0, part);
    if let Some(i) = find_part(s, 0, part) {
        let a = s.subrange(0, i);
        let b = s.subrange(i + part.len(), s.len() as int);
        assert(s =~= a + part + b);
    }
    if exists|a: Seq<char>, b: Seq<char>| s == #[trigger] (a + part + b) {
        let (a, b) = choose|a: Seq<char>, b: Seq<char>| s == #[trigger] (a + part + b);
        assert(s.subrange(a.len() as int, (a.len() + part.len()) as int) =~= part);
        lemma_stands_at(s, a.len() as int, part);
        assert(stands_at(s, a.len() as int, part));
    }
}

/// A text starts with another exactly when it is that text and something more.
pub proof fn lemma_starts_with(s: Seq<char>, part: Seq<char>)
    ensures
        stands_at(s, 0, part) <==> exists|b: Seq<char>| s == #[trigger] (part + b),
{
    lemma_stands_at(s, 0, part);
    if stands_at(s, 0, part) {
        let b = s.subrange(part.len() as int, s.len() as int);
        assert(s =~= part + b);
    }
    if exists|b: Seq<char>| s == #[trigger] (part + b) {
        let b = choose|b: Seq<char>| s == #[trigger] (part + b);
        assert(s.subrange(0, part.len() as int) =~= part);
    }
}

/// A part divides a text at its first occurrence: what comes before it, the part and
/// what comes after it make up the text, and the part stands at no smaller position.
/// Without an occurrence both are empty.
pub proof fn lemma_before_and_after(s: Seq<char>, part: Seq<char>)
    ensures
        (exists|a: Seq<char>, b: Seq<char>| s == #[trigger] (a + part + b)) ==> s == text_before(
            s,
            part,
        ) + part + text_after(s, part),
        !(exists|a: Seq<char>, b: Seq<char>| s == #[trigger] (a + part + b)) ==> text_before(
            s,
            part,
        ).len() == 0 && text_after(s, part).len() == 0,
        forall|a: Seq<char>, b: Seq<char>|
            s == #[trigger] (a + part + b) ==> text_before(s, part).len() <= a.len(),
{
    lemma_contains(s, part);
    lemma_find_part(s, 0, part);
    if let Some(i) = find_part(s, 0, part) {
        assert(s =~= text_before(s, part) + part + text_after(s, part));
        assert forall|a: Seq<char>, b: Seq<char>|
            s == #[trigger] (a + part + b) implies text_before(s, part).len() <= a.len() by {
            assert(s.subrange(a.len() as int, (a.len() + part.len()) as int) =~= part);
            lemma_stands_at(s, a.len() as int, part);
            assert(stands_at(s, a.len() as int, part));
        }
    }
}

/// The words of a text: its longest runs without white space, in order. `word` is
/// the word that has been read of the one at hand.
pub open spec fn words(s: Seq<char>, word: Seq<char>) -> Seq<Seq<char>>
    decreases s.len(),
{
    if s.len() == 0 {
        if word.len() > 0 {
            seq![word]
        } else {
            Seq::empty()
        }
    } else if is_white(s[0]) {
        (if word.len() > 0 {
            seq![word]
        } else {
            Seq::empty()
        }) + words(s.drop_first(), Seq::empty())
    } else {
        words(s.drop_first(), word.push(s[0]))
    }
}

/// Words with one blank between each two.
pub open spec fn spaced(all: Seq<Seq<char>>) -> Seq<char>
    decreases all.len(),
{
    if all.len() == 0 {
        Seq::empty()
    } else if all.len() == 1 {
        all[0]
    } else {
        spaced(all.drop_last()) + seq![' '] + all.last()
    }
}

/// One more character at the end of a text.
proof fn lemma_words_push(s: Seq<char>, word: Seq<char>, c: char)
    ensures
        ({
            let before = words(s, word);
            let after = words(s.push(c), word);
            let ends_in_word = if s.len() == 0 {
                word.len() > 0
            } else {
                !is_white(s.last())
            };
            if is_white(c) {
                after == before
            } else if ends_in_word {
                before.len() > 0 && after == before.drop_last().push(before.last().push(c))
            } else {
                after == before.push(seq![c])
            }
        }),
    decreases s.len(),
{
    let t = s.push(c);
    if s.len() == 0 {
        assert(t.drop_first() =~= Seq::empty());
        assert(t[0] == c);
        let none = Seq::<char>::empty();
        assert(words(none, none) =~= Seq::empty());
        if is_white(c) {
            assert(words(t, word) =~= words(s, word));
        } else {
            assert(words(t.drop_first(), word.push(c)) =~= seq![word.push(c)]);
            if word.len() == 0 {
                assert(word.push(c) =~= seq![c]);
                assert(words(t, word) =~= words(s, word).push(seq![c]));
            } else {
                let before = words(s, word);
                assert(before =~= seq![word]);
                assert(words(t, word) =~= before.drop_last().push(before.last().push(c)));
            }
        }
    } else {
        let rest = s.drop_first();
        assert(t.drop_first() =~= rest.push(c));
        assert(t[0] == s[0]);
        if rest.len() > 0 {
            assert(rest.last() == s.last());
        }
        if is_white(s[0]) {
            let none = Seq::<char>::empty();
            let head = if word.len() > 0 {
                seq![word]
            } else {
                Seq::empty()
            };
            lemma_words_push(rest, none, c);
            let before = words(rest, none);
            assert(words(s, word) == head + before);
            assert(words(t, word) == head + words(rest.push(c), none));
            if is_white(c) {
            } else if rest.len() > 0 && !is_white(s.last()) {
                assert(head + before.drop_last().push(before.last().push(c)) =~= (head
                    + before).drop_last().push((head + before).last().push(c)));
            } else {
                assert(head + before.push(seq![c]) =~= (head + before).push(seq![c]));
            }
        } else {
            lemma_words_push(rest, word.push(s[0]), c);
        }
    }
}

/// Normalizing the white space of a text leaves its words, with one blank between
/// each two.
pub proof fn lemma_normalized_words(s: Seq<char>)
    ensures
        normalized(s, s.len() as int) == spaced(words(s, Seq::empty())),
{
    lemma_normalized_prefix(s, s.len() as int);
    assert(s.take(s.len() as int) =~= s);
}

proof fn lemma_normalized_prefix(s: Seq<char>, k: int)
    requires
        0 <= k <= s.len(),
    ensures
        normalized(s, k) == spaced(words(s.take(k), Seq::empty())),
        normalized(s, k).len() > 0 <==> words(s.take(k), Seq::empty()).len() > 0,
        forall|i: int|
            0 <= i < words(s.take(k), Seq::empty()).len() ==> (#[trigger] words(
                s.take(k),
                Seq::empty(),
            )[i]).len() > 0,
    decreases k,
{
    let none = Seq::<char>::empty();
    if k == 0 {
        assert(s.take(0) =~= none);
        assert(words(none, none) =~= Seq::empty());
        assert(spaced(words(none, none)) =~= none);
    } else {
        lemma_normalized_prefix(s, k - 1);
        let t = s.take(k - 1);
        let c = s[k - 1];
        assert(s.take(k) =~= t.push(c));
        lemma_words_push(t, none, c);
        let before = words(t, none);
        let after = words(s.take(k), none);
        let text = normalized(s, k - 1);
        if k >= 2 {
            assert(t.last() == s[k - 2]);
        }
        if !is_white(c) {
            if k >= 2 && !is_white(s[k - 2]) {
                let most = before.drop_last();
                assert(after == most.push(before.last().push(c)));
                assert(after.drop_last() =~= most);
                assert(normalized(s, k) == text.push(c));
                if before.len() == 1 {
                    assert(spaced(after) =~= spaced(before).push(c));
                } else {
                    assert(spaced(after) =~= spaced(before).push(c));
                }
            } else {
                assert(after == before.push(seq![c]));
                assert(after.drop_last() =~= before);
                if before.len() == 0 {
                    assert(spaced(before) =~= none);
                    assert(normalized(s, k) =~= seq![c]);
                } else {
                    assert(spaced(after) =~= spaced(before) + seq![' '] + seq![c]);
                    assert(normalized(s, k) =~= text.push(' ').push(c));
                }
            }
        }
    }
}

/// The first `k` characters of a text are translated like a text of their own.
proof fn lemma_translated_prefix(s: Seq<char>, t: Seq<char>, from: Seq<char>, to: Seq<char>, k: int)
    requires
        0 <= k <= s.len(),
        k <= t.len(),
        s.take(k) == t.take(k),
    ensures
        translated(s, from, to, k) == translated(t, from, to, k),
    decreases k,
{
    if k > 0 {
        assert(s[k - 1] == s.take(k)[k - 1]);
        assert(t[k - 1] == t.take(k)[k - 1]);
        assert(s.take(k - 1) =~= s.take(k).take(k - 1));
        assert(t.take(k - 1) =~= t.take(k).take(k - 1));
        lemma_translated_prefix(s, t, from, to, k - 1);
    }
}

/// Where a character is found it stands, and nowhere before; where it is not found
/// it does not occur.
pub proof fn lemma_char_position(s: Seq<char>, p: int, c: char)
    requires
        0 <= p,
    ensures
        match char_position(s, p, c) {
            Some(i) => p <= i < s.len() && s[i] == c && forall|j: int|
                p <= j < i ==> #[trigger] s[j] != c,
            None => forall|j: int| p <= j < s.len() ==> #[trigger] s[j] != c,
        },
    decreases s.len() - p,
{
    if p < s.len() && s[p] != c {
        lemma_char_position(s, p + 1, c);
    }
}

/// Translating goes character by character: two texts one after the other are
/// translated one after the other.
pub proof fn lemma_translated_joined(a: Seq<char>, b: Seq<char>, from: Seq<char>, to: Seq<char>)
    ensures
        translated(a + b, from, to, (a + b).len() as int) == translated(
            a,
            from,
            to,
            a.len() as int,
        ) + translated(b, from, to, b.len() as int),
    decreases b.len(),
{
    let s = a + b;
    if b.len() == 0 {
        assert(s =~= a);
        assert(translated(b, from, to, 0) =~= Seq::empty());
    } else {
        let most = b.drop_last();
        lemma_translated_joined(a, most, from, to);
        let n = s.len() as int;
        assert(s.take(n - 1) =~= (a + most).take(n - 1));
        lemma_translated_prefix(s, a + most, from, to, n - 1);
        assert(b.take(b.len() - 1) =~= most.take(b.len() - 1));
        lemma_translated_prefix(b, most, from, to, b.len() - 1);
        assert(s[n - 1] == b.last());
        assert(translated(s, from, to, n) =~= translated(a, from, to, a.len() as int)
            + translated(b, from, to, b.len() as int));
    }
}

/// A single character stays when it does not occur in `from`. Otherwise its first
/// place there decides: it becomes the character at that place of `to`, or vanishes
/// when `to` ends before.
pub proof fn lemma_translated_char(c: char, from: Seq<char>, to: Seq<char>)
    ensures
        !from.contains(c) ==> translated(seq![c], from, to, 1) == seq![c],
        forall|i: int|
            0 <= i < from.len() && #[trigger] from[i] == c && (forall|j: int|
                0 <= j < i ==> from[j] != c) ==> translated(seq![c], from, to, 1) == (if i
                < to.len() {
                seq![to[i]]
            } else {
                Seq::empty()
            }),
{
    let s = seq![c];
    lemma_char_position(from, 0, c);
    assert(translated(s, from, to, 0) =~= Seq::empty());
    assert(s[0] == c);
    if !from.contains(c) {
        assert(translated(s, from, to, 1) =~= s);
    }
    assert forall|i: int|
        0 <= i < from.len() && #[trigger] from[i] == c && (forall|j: int|
            0 <= j < i ==> from[j] != c) implies translated(s, from, to, 1) == (if i < to.len() {
        seq![to[i]]
    } else {
        Seq::empty()
    }) by {
        let at = char_position(from, 0, c)->0;
        assert(from[at] == c);
        assert(at == i);
        if i < to.len() {
            assert(translated(s, from, to, 1) =~= seq![to[i]]);
        }
    }
}

/// Whether a character is the ASCII letter with this number, small or capital.
pub open spec fn is_letter(c: char, k: int) -> bool {
    0 <= k < 26 && (c as int == 'a' as int + k || c as int == 'A' as int + k)
}

/// Whether two characters are the same ASCII letter, or are equal.
pub open spec fn same_letter(a: char, b: char) -> bool {
    a == b || exists|k: int| #[trigger] is_letter(a, k) && is_letter(b, k)
}

/// Two characters become the same small character exactly when they are the same
/// letter.
pub proof fn lemma_small(a: char, b: char)
    ensures
        small(a) == small(b) <==> same_letter(a, b),
{
    let x = a as int;
    let y = b as int;
    assert('a' as int == 97 && 'A' as int == 65 && 'Z' as int == 90);
    assert('A' <= a <= 'Z' ==> small(a) as int == x + 32);
    assert('A' <= b <= 'Z' ==> small(b) as int == y + 32);
    if small(a) == small(b) && a != b {
        let k = if 'A' <= a <= 'Z' {
            x - 65
        } else {
            x - 97
        };
        assert(is_letter(a, k) && is_letter(b, k));
    }
}

/// A language matches the wanted one exactly when, letter by letter, it reads like
/// the wanted one, or like the wanted one, a hyphen and something more.
pub proof fn lemma_lang_matches(lang: Seq<char>, wanted: Seq<char>)
    ensures
        lang_matches(lang, wanted) <==> exists|head: Seq<char>, rest: Seq<char>|
            lang == #[trigger] (head + rest) && head.len() == wanted.len() && (forall|j: int|
                0 <= j < wanted.len() ==> same_letter(#[trigger] wanted[j], head[j])) && (
            rest.len() == 0 || rest[0] == '-'),
{
    if lang_matches(lang, wanted) {
        let head = lang.subrange(0, wanted.len() as int);
        let rest = lang.subrange(wanted.len() as int, lang.len() as int);
        assert(lang =~= head + rest);
        assert forall|j: int| 0 <= j < wanted.len() implies same_letter(
            #[trigger] wanted[j],
            head[j],
        ) by {
            lemma_small(wanted[j], lang[j]);
        }
    }
    if exists|head: Seq<char>, rest: Seq<char>|
        lang == #[trigger] (head + rest) && head.len() == wanted.len() && (forall|j: int|
            0 <= j < wanted.len() ==> same_letter(#[trigger] wanted[j], head[j])) && (rest.len()
            == 0 || rest[0] == '-') {
        let (head, rest) = choose|head: Seq<char>, rest: Seq<char>|
            lang == #[trigger] (head + rest) && head.len() == wanted.len() && (forall|j: int|
                0 <= j < wanted.len() ==> same_letter(#[trigger] wanted[j], head[j])) && (
            rest.len() == 0 || rest[0] == '-');
        assert forall|j: int| 0 <= j < wanted.len() implies small(#[trigger] wanted[j]) == small(
            lang[j],
        ) by {
            assert(lang[j] == head[j]);
            lemma_small(wanted[j], lang[j]);
        }
        if rest.len() > 0 {
            assert(lang[wanted.len() as int] == rest[0]);
        }
    }
}

} // verus!
