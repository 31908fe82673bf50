//! Decoding of XML entity and character references.

use std::borrow::Cow;
use vstd::prelude::*;
use vstd::utf8::is_scalar;
use crate::index::XmlIndex;
use crate::text::{char_of, chars_of, string_of};

verus! {

/// The least position at or after `p` that holds `c`, or the length.
pub open spec fn find_char(s: Seq<char>, p: int, c: char) -> int
    decreases s.len() - p,
{
    if p < 0 || p >= s.len() || s[p] == c {
        p
    } else {
        find_char(s, p + 1, c)
    }
}

/// The value of a digit in the given radix (10 or 16).
pub open spec fn digit_value(c: char, radix: int) -> Option<int> {
    if '0' <= c <= '9' {
        Some(c as int - '0' as int)
    } else if radix == 16 && 'a' <= c <= 'f' {
        Some(c as int - 'a' as int + 10)
    } else if radix == 16 && 'A' <= c <= 'F' {
        Some(c as int - 'A' as int + 10)
    } else {
        None
    }
}

/// The number that the digits from `p` on spell after the value `acc`, as long
/// as it stays within 32 bits.
pub open spec fn digits_value(s: Seq<char>, p: int, radix: int, acc: int) -> Option<int>
    decreases s.len() - p,
{
    if p < 0 || p >= s.len() {
        Some(acc)
    } else {
        match digit_value(s[p], radix) {
            None => None,
            Some(d) => if acc * radix + d > u32::MAX {
                None
            } else {
                digits_value(s, p + 1, radix, acc * radix + d)
            },
        }
    }
}

/// The number spelled from `p` on: an optional `+`, then at least one digit.
pub open spec fn number_value(s: Seq<char>, p: int, radix: int) -> Option<int> {
    let q = if p < s.len() && s[p] == '+' {
        p + 1
    } else {
        p
    };
    if q >= s.len() {
        None
    } else {
        digits_value(s, q, radix, 0)
    }
}

/// The character that a reference body such as `#65` or `#x41` stands for, if
/// it stands for one.
pub open spec fn char_reference(e: Seq<char>) -> Option<char> {
    let code = if e.len() > 1 && e[1] == 'x' {
        number_value(e, 2, 16)
    } else {
        number_value(e, 1, 10)
    };
    match code {
        Some(v) => if is_scalar(v as u32) {
            Some(v as char)
        } else {
            None
        },
        None => None,
    }
}

/// What the reference `&e;` expands to: the five predefined entities and
/// character references are replaced, a character reference to no character
/// vanishes, and an unknown entity is kept.
pub open spec fn expand_entity(e: Seq<char>) -> Seq<char> {
    if e == "amp"@ {
        seq!['&']
    } else if e == "lt"@ {
        seq!['<']
    } else if e == "gt"@ {
        seq!['>']
    } else if e == "apos"@ {
        seq!['\'']
    } else if e == "quot"@ {
        seq!['"']
    } else if e.len() > 0 && e[0] == '#' {
        match char_reference(e) {
            Some(c) => seq![c],
            None => Seq::empty(),
        }
    } else {
        seq!['&'] + e + seq![';']
    }
}

/// The text from `p` on with its references expanded. A reference extends to
/// the next `;`, or to the end of the text.
pub open spec fn decoded(s: Seq<char>, p: int) -> Seq<char>
    decreases s.len() + 1 - p,
{
    if p < 0 || p >= s.len() {
        Seq::empty()
    } else if s[p] == '&' {
        proof {
            lemma_find_char(s, p + 1, ';');
        }
        let e = find_char(s, p + 1, ';');
        expand_entity(s.subrange(p + 1, e)) + decoded(s, e + 1)
    } else {
        seq![s[p]] + decoded(s, p + 1)
    }
}

pub proof fn lemma_find_char(s: Seq<char>, p: int, c: char)
    requires
        0 <= p <= s.len(),
    ensures
        p <= find_char(s, p, c) <= s.len(),
    decreases s.len() - p,
{
    if p < s.len() && s[p] != c {
        lemma_find_char(s, p + 1, c);
    }
}

/// A text without `&` decodes to itself.
pub proof fn lemma_decoded_plain(s: Seq<char>, p: int)
    requires
        0 <= p <= s.len(),
        forall|i: int| p <= i < s.len() ==> s[i] != '&',
    ensures
        decoded(s, p) == s.skip(p),
    decreases s.len() - p,
{
    if p < s.len() {
        lemma_decoded_plain(s, p + 1);
        assert(seq![s[p]] + s.skip(p + 1) =~= s.skip(p));
    } else {
        assert(s.skip(p) =~= Seq::empty());
    }
}

/// The text that stands for a character where markup would be read: the five
/// characters of markup are written as references.
pub open spec fn escaped_char(c: char) -> Seq<char> {
    if c == '&' {
        seq!['&', 'a', 'm', 'p', ';']
    } else if c == '<' {
        seq!['&', 'l', 't', ';']
    } else if c == '>' {
        seq!['&', 'g', 't', ';']
    } else if c == '\'' {
        seq!['&', 'a', 'p', 'o', 's', ';']
    } else if c == '"' {
        seq!['&', 'q', 'u', 'o', 't', ';']
    } else {
        seq![c]
    }
}

/// A text with its characters of markup written as references.
pub open spec fn escaped(s: Seq<char>) -> Seq<char>
    decreases s.len(),
{
    if s.len() == 0 {
        Seq::empty()
    } else {
        escaped_char(s[0]) + escaped(s.drop_first())
    }
}

/// A search in the rest of a text finds what a search from there on finds.
proof fn lemma_find_char_skip(s: Seq<char>, k: int, p: int, c: char)
    requires
        0 <= k,
        0 <= p,
        k + p <= s.len(),
    ensures
        find_char(s, k + p, c) == k + find_char(s.skip(k), p, c),
    decreases s.len() - k - p,
{
    if k + p < s.len() && s[k + p] != c {
        lemma_find_char_skip(s, k, p + 1, c);
    }
}

/// Decoding from a position on is decoding the rest.
proof fn lemma_decoded_skip(s: Seq<char>, k: int, p: int)
    requires
        0 <= k <= s.len(),
        0 <= p,
    ensures
        decoded(s, k + p) == decoded(s.skip(k), p),
    decreases s.len() + 1 - k - p,
{
    let t = s.skip(k);
    if k + p < s.len() {
        assert(t[p] == s[k + p]);
        if s[k + p] == '&' {
            lemma_find_char(s, k + p + 1, ';');
            lemma_find_char_skip(s, k, p + 1, ';');
            let e = find_char(t, p + 1, ';');
            assert(s.subrange(k + p + 1, k + e) =~= t.subrange(p + 1, e));
            lemma_decoded_skip(s, k, e + 1);
        } else {
            lemma_decoded_skip(s, k, p + 1);
        }
    }
}

/// Decoding undoes escaping: each reference is decoded once, and what it gives is not
/// decoded again.
pub proof fn lemma_decoding_undoes_escaping(s: Seq<char>)
    ensures
        decoded(escaped(s), 0) == s,
    decreases s.len(),
{
    if s.len() == 0 {
        assert(decoded(escaped(s), 0) =~= s);
    } else {
        let c = s[0];
        let rest = s.drop_first();
        let head = escaped_char(c);
        let t = escaped(s);
        let n = head.len() as int;
        lemma_decoding_undoes_escaping(rest);
        assert(t == head + escaped(rest));
        assert(t.skip(n) =~= escaped(rest));
        lemma_decoded_skip(t, n, 0);
        reveal_strlit("amp");
        reveal_strlit("lt");
        reveal_strlit("gt");
        reveal_strlit("apos");
        reveal_strlit("quot");
        assert forall|i: int| 0 <= i < n implies t[i] == head[i] by {}
        if head[0] == '&' {
            reveal_with_fuel(find_char, 7);
            assert(find_char(t, 1, ';') == n - 1);
            let e = t.subrange(1, n - 1);
            if c == '&' {
                assert(e =~= "amp"@);
            } else if c == '<' {
                assert(e =~= "lt"@);
                assert(e.len() == 2);
            } else if c == '>' {
                assert(e =~= "gt"@);
                assert(e[0] == 'g');
            } else if c == '\'' {
                assert(e =~= "apos"@);
                assert(e.len() == 4);
            } else {
                assert(e =~= "quot"@);
                assert(e.len() == 4 && e[0] == 'q');
            }
            assert("lt"@.len() == 2 && "lt"@[0] == 'l');
            assert("apos"@[0] == 'a');
            assert(expand_entity(e) =~= seq![c]);
        }
        assert(seq![c] + rest =~= s);
    }
}

/// The number with these digits in a radix, the most significant first.
pub open spec fn place_value(ds: Seq<int>, radix: int) -> int
    decreases ds.len(),
{
    if ds.len() == 0 {
        0
    } else {
        radix * place_value(ds.drop_last(), radix) + ds.last()
    }
}

/// Whether the characters are these digits, a letter in lower or in upper case.
pub open spec fn writes_digits(t: Seq<char>, ds: Seq<int>, radix: int) -> bool {
    &&& t.len() == ds.len()
    &&& forall|i: int|
        0 <= i < ds.len() ==> 0 <= #[trigger] ds[i] < radix && (t[i] == "0123456789abcdef"@[ds[i]]
            || t[i] == "0123456789ABCDEF"@[ds[i]])
}

/// A digit has the value that it is written for.
proof fn lemma_digit_value(c: char, d: int, radix: int)
    requires
        radix == 10 || radix == 16,
        0 <= d < radix,
        c == "0123456789abcdef"@[d] || c == "0123456789ABCDEF"@[d],
    ensures
        digit_value(c, radix) == Some(d),
        c != '&' && c != ';' && c != '+' && c != 'x',
{
    reveal_strlit("0123456789abcdef");
    reveal_strlit("0123456789ABCDEF");
}

/// The number of the first digits is no larger than that of all.
proof fn lemma_place_value_grows(ds: Seq<int>, radix: int, k: int)
    requires
        radix == 10 || radix == 16,
        0 <= k <= ds.len(),
        forall|i: int| 0 <= i < ds.len() ==> 0 <= #[trigger] ds[i] < radix,
    ensures
        0 <= place_value(ds.take(k), radix) <= place_value(ds, radix),
    decreases ds.len(),
{
    if k == ds.len() {
        assert(ds.take(k) =~= ds);
        if k > 0 {
            assert forall|i: int| 0 <= i < ds.drop_last().len() implies 0
                <= #[trigger] ds.drop_last()[i] < radix by {
                assert(ds[i] == ds.drop_last()[i]);
            }
            lemma_place_value_grows(ds.drop_last(), radix, k - 1);
            assert(ds.last() == ds[k - 1]);
        }
    } else {
        let most = ds.drop_last();
        assert forall|i: int| 0 <= i < most.len() implies 0 <= #[trigger] most[i] < radix by {
            assert(ds[i] == most[i]);
        }
        lemma_place_value_grows(most, radix, k);
        assert(most.take(k) =~= ds.take(k));
        assert(ds.last() == ds[ds.len() - 1]);
    }
}

/// Reading the first `k` digits.
proof fn lemma_digits_read(e: Seq<char>, q: int, t: Seq<char>, ds: Seq<int>, radix: int, k: int)
    requires
        radix == 10 || radix == 16,
        writes_digits(t, ds, radix),
        0 <= q,
        e.skip(q) == t,
        e.len() == q + t.len(),
        place_value(ds, radix) <= u32::MAX,
        0 <= k <= ds.len(),
    ensures
        digits_value(e, q, radix, 0) == digits_value(
            e,
            q + k,
            radix,
            place_value(ds.take(k), radix),
        ),
    decreases k,
{
    if k == 0 {
        assert(ds.take(0) =~= Seq::empty());
    } else {
        lemma_digits_read(e, q, t, ds, radix, k - 1);
        let d = ds[k - 1];
        assert(e[q + k - 1] == e.skip(q)[k - 1]);
        lemma_digit_value(t[k - 1], d, radix);
        assert(ds.take(k).drop_last() =~= ds.take(k - 1));
        assert(ds.take(k).last() == d);
        lemma_place_value_grows(ds, radix, k);
        let acc = place_value(ds.take(k - 1), radix);
        assert(acc * radix == radix * acc) by (nonlinear_arith);
    }
}

/// A search for a character passes over a text without it.
proof fn lemma_find_char_after(s: Seq<char>, p: int, q: int, c: char)
    requires
        0 <= p <= q < s.len(),
        s[q] == c,
        forall|i: int| p <= i < q ==> s[i] != c,
    ensures
        find_char(s, p, c) == q,
    decreases q - p,
{
    if p < q {
        lemma_find_char_after(s, p + 1, q, c);
    }
}

/// How a numeric reference starts.
pub open spec fn reference_start(hex: bool) -> Seq<char> {
    if hex {
        seq!['&', '#', 'x']
    } else {
        seq!['&', '#']
    }
}

/// The radix of a numeric reference.
pub open spec fn reference_radix(hex: bool) -> int {
    if hex {
        16
    } else {
        10
    }
}

/// A numeric reference stands for the character whose code point its digits spell,
/// in hexadecimal after `#x`, in either case, and in decimal after `#`. What follows
/// is decoded on its own.
pub proof fn lemma_numeric_reference(
    c: char,
    t: Seq<char>,
    ds: Seq<int>,
    hex: bool,
    rest: Seq<char>,
)
    requires
        ds.len() > 0,
        writes_digits(t, ds, reference_radix(hex)),
        place_value(ds, reference_radix(hex)) == c as int,
    ensures
        decoded(reference_start(hex) + t + seq![';'] + rest, 0) == seq![c] + decoded(rest, 0),
{
    let n = c as int;
    let e = lemma_reference_body(t, ds, hex, rest);
    assert(is_scalar(n as u32));
    assert(n as char == c);
    assert(expand_entity(e) =~= seq![c]);
}

/// Digits that spell the number of no character stand for nothing.
pub proof fn lemma_reference_to_no_character(
    t: Seq<char>,
    ds: Seq<int>,
    hex: bool,
    rest: Seq<char>,
)
    requires
        ds.len() > 0,
        writes_digits(t, ds, reference_radix(hex)),
        0xd800 <= place_value(ds, reference_radix(hex)) <= 0xdfff || 0x10ffff < place_value(
            ds,
            reference_radix(hex),
        ) <= u32::MAX,
    ensures
        decoded(reference_start(hex) + t + seq![';'] + rest, 0) == decoded(rest, 0),
{
    let e = lemma_reference_body(t, ds, hex, rest);
    assert(expand_entity(e) =~= Seq::empty());
    assert(Seq::<char>::empty() + decoded(rest, 0) =~= decoded(rest, 0));
}

/// What stands between `&` and `;` in a numeric reference.
proof fn lemma_reference_body(t: Seq<char>, ds: Seq<int>, hex: bool, rest: Seq<char>) -> (e: Seq<
    char,
>)
    requires
        ds.len() > 0,
        writes_digits(t, ds, reference_radix(hex)),
        place_value(ds, reference_radix(hex)) <= u32::MAX,
    ensures
        decoded(reference_start(hex) + t + seq![';'] + rest, 0) == expand_entity(e) + decoded(
            rest,
            0,
        ),
        ({
            let n = place_value(ds, reference_radix(hex));
            expand_entity(e) == if is_scalar(n as u32) {
                seq![n as char]
            } else {
                Seq::empty()
            }
        }),
{
    reveal_strlit("amp");
    reveal_strlit("lt");
    reveal_strlit("gt");
    reveal_strlit("apos");
    reveal_strlit("quot");
    let radix = reference_radix(hex);
    let head = reference_start(hex);
    let n = place_value(ds, radix);
    let s = head + t + seq![';'] + rest;
    let h = head.len() as int;
    let m = h + t.len();
    assert forall|i: int| 0 <= i < t.len() implies #[trigger] t[i] != ';' && t[i] != '+' && t[i]
        != 'x' by {
        assert(0 <= ds[i] < radix);
        lemma_digit_value(t[i], ds[i], radix);
    }
    assert forall|i: int| 1 <= i < m implies s[i] != ';' by {
        if i >= h {
            assert(s[i] == t[i - h]);
        }
    }
    assert(s[m] == ';');
    lemma_find_char_after(s, 1, m, ';');
    let e = s.subrange(1, m);
    assert(e.skip(h - 1) =~= t);
    assert(e[0] == '#');
    assert(e[h - 1] == t[0]);
    assert(s.skip(m + 1) =~= rest);
    lemma_decoded_skip(s, m + 1, 0);
    assert(s[0] == '&');
    assert(decoded(s, 0) == expand_entity(e) + decoded(rest, 0));
    assert("amp"@[0] == 'a' && "lt"@[0] == 'l' && "gt"@[0] == 'g' && "apos"@[0] == 'a'
        && "quot"@[0] == 'q');
    lemma_digits_read(e, h - 1, t, ds, radix, ds.len() as int);
    assert(ds.take(ds.len() as int) =~= ds);
    assert(number_value(e, h - 1, radix) == Some(n));
    if hex {
        assert(e[1] == 'x');
    } else {
        assert(e[1] == t[0]);
    }
    lemma_place_value_grows(ds, radix, ds.len() as int);
    e
}

/// A reference to an entity that is not known is kept as it is.
pub proof fn lemma_unknown_reference(e: Seq<char>, rest: Seq<char>)
    requires
        e.len() > 0 ==> e[0] != '#',
        !e.contains(';'),
        e != "amp"@ && e != "lt"@ && e != "gt"@ && e != "apos"@ && e != "quot"@,
    ensures
        decoded(seq!['&'] + e + seq![';'] + rest, 0) == seq!['&'] + e + seq![';'] + decoded(rest, 0),
{
    let s = seq!['&'] + e + seq![';'] + rest;
    let m = 1 + e.len() as int;
    assert forall|i: int| 1 <= i < m implies s[i] != ';' by {
        assert(s[i] == e[i - 1]);
    }
    lemma_find_char_after(s, 1, m, ';');
    assert(s.subrange(1, m) =~= e);
    assert(s.skip(m + 1) =~= rest);
    lemma_decoded_skip(s, m + 1, 0);
    assert(decoded(s, 0) == expand_entity(e) + decoded(rest, 0));
}

/// A reference that is not closed extends to the end of the text, and decodes as if it
/// were closed there.
pub proof fn lemma_open_reference(e: Seq<char>)
    requires
        !e.contains(';'),
    ensures
        decoded(seq!['&'] + e, 0) == decoded(seq!['&'] + e + seq![';'], 0),
{
    let s = seq!['&'] + e;
    let t = s + seq![';'];
    let m = s.len() as int;
    assert forall|i: int| 1 <= i < m implies s[i] != ';' && t[i] == s[i] by {
        assert(s[i] == e[i - 1]);
    }
    assert(t[m] == ';');
    lemma_find_char_after(t, 1, m, ';');
    lemma_find_char_none(s, 1, ';');
    assert(s.subrange(1, m) =~= e);
    assert(t.subrange(1, m) =~= e);
    assert(decoded(s, m + 1) =~= Seq::empty());
    assert(decoded(t, m + 1) =~= Seq::empty());
}

/// A search for a character that does not occur ends at the end of the text.
proof fn lemma_find_char_none(s: Seq<char>, p: int, c: char)
    requires
        0 <= p <= s.len(),
        forall|i: int| p <= i < s.len() ==> s[i] != c,
    ensures
        find_char(s, p, c) == s.len(),
    decreases s.len() - p,
{
    if p < s.len() {
        lemma_find_char_none(s, p + 1, c);
    }
}

/// Text without references is kept, and what follows it is decoded on its own.
pub proof fn lemma_decoded_after_plain(a: Seq<char>, rest: Seq<char>)
    requires
        !a.contains('&'),
    ensures
        decoded(a + rest, 0) == a + decoded(rest, 0),
    decreases a.len(),
{
    if a.len() == 0 {
        assert(a + rest =~= rest);
        assert(a + decoded(rest, 0) =~= decoded(rest, 0));
    } else {
        let s = a + rest;
        let b = a.drop_first();
        assert(a.contains(a[0]));
        assert forall|i: int| 0 <= i < b.len() implies b[i] != '&' by {
            assert(a[i + 1] == b[i]);
            assert(a.contains(a[i + 1]));
        }
        lemma_decoded_after_plain(b, rest);
        assert(s.skip(1) =~= b + rest);
        lemma_decoded_skip(s, 1, 0);
        assert(seq![a[0]] + (b + decoded(rest, 0)) =~= a + decoded(rest, 0));
    }
}

/// The value of a digit: see `digit_value`.
fn digit_of(c: char, hex: bool) -> (r: Option<u32>)
    ensures
        match r {
            Some(d) => digit_value(
                c,
                if hex {
                    16
                } else {
                    10
                },
            ) == Some(d as int) && d < 16,
            None => digit_value(
                c,
                if hex {
                    16
                } else {
                    10
                },
            ) is None,
        },
{
    if '0' <= c && c <= '9' {
        Some(c as u32 - '0' as u32)
    } else if hex && 'a' <= c && c <= 'f' {
        Some(c as u32 - 'a' as u32 + 10)
    } else if hex && 'A' <= c && c <= 'F' {
        Some(c as u32 - 'A' as u32 + 10)
    } else {
        None
    }
}

/// The number spelled from `p` on: see `number_value`.
fn number_of(s: &[char], p: usize, hex: bool) -> (r: Option<u32>)
    requires
        p <= s@.len(),
    ensures
        match r {
            Some(v) => number_value(
                s@,
                p as int,
                if hex {
                    16
                } else {
                    10
                },
            ) == Some(v as int),
            None => number_value(
                s@,
                p as int,
                if hex {
                    16
                } else {
                    10
                },
            ) is None,
        },
{
    let ghost radix: int = if hex {
        16
    } else {
        10
    };
    let mut i: usize = p;
    if i < s.len() && s[i] == '+' {
        i += 1;
    }
    if i >= s.len() {
        return None;
    }
    let base: u64 = if hex {
        16
    } else {
        10
    };
    let mut acc: u32 = 0;
    while i < s.len()
        invariant
            i <= s@.len(),
            radix == base,
            base == 10 || base == 16,
            hex == (base == 16),
            number_value(s@, p as int, radix) == digits_value(s@, i as int, radix, acc as int),
        decreases s@.len() - i,
    {
        match digit_of(s[i], hex) {
            None => {
                return None;
            },
            Some(d) => {
                assert(acc as u64 * base <= u32::MAX * 16) by (nonlinear_arith)
                    requires
                        0 <= acc <= u32::MAX,
                        base == 10 || base == 16,
                ;
                let next: u64 = acc as u64 * base + d as u64;
                if next > u32::MAX as u64 {
                    return None;
                }
                acc = next as u32;
                i += 1;
            },
        }
    }
    Some(acc)
}

/// The character that a reference body stands for: see `char_reference`.
fn char_reference_of(e: &[char]) -> (r: Option<char>)
    requires
        e@.len() > 0,
    ensures
        r == char_reference(e@),
{
    let code: Option<u32> = if e.len() > 1 && e[1] == 'x' {
        number_of(e, 2, true)
    } else {
        number_of(e, 1, false)
    };
    match code {
        None => None,
        Some(v) => char_of(v),
    }
}

/// Whether the characters spell the given word.
fn spells(e: &[char], word: &str) -> (r: bool)
    ensures
        r == (e@ == word@),
{
    let w: Vec<char> = chars_of(word);
    if e.len() != w.len() {
        return false;
    }
    let mut i: usize = 0;
    while i < e.len()
        invariant
            e@.len() == w@.len(),
            w@ == word@,
            i <= e@.len(),
            forall|j: int| 0 <= j < i ==> e@[j] == w@[j],
        decreases e@.len() - i,
    {
        if e[i] != w[i] {
            return false;
        }
        i += 1;
    }
    assert(e@ =~= word@);
    true
}

/// Appends what the reference `&e;` expands to: see `expand_entity`.
fn push_entity(out: &mut String, e: &[char])
    ensures
        final(out)@ == old(out)@ + expand_entity(e@),
{
    if spells(e, "amp") {
        out.push('&');
    } else if spells(e, "lt") {
        out.push('<');
    } else if spells(e, "gt") {
        out.push('>');
    } else if spells(e, "apos") {
        out.push('\'');
    } else if spells(e, "quot") {
        out.push('"');
    } else if e.len() > 0 && e[0] == '#' {
        match char_reference_of(e) {
            Some(c) => out.push(c),
            None => {},
        }
    } else {
        out.push('&');
        let body = string_of(e, 0, e.len());
        assert(body@ =~= e@);
        out.append(body.as_str());
        out.push(';');
    }
    assert(out@ =~= old(out)@ + expand_entity(e@));
}

impl<'a> XmlIndex<'a> {
    /// Decodes XML entities in a string. Borrows the string when it holds no
    /// reference.
    pub fn decode_entities(s: &str) -> (r: Cow<'_, str>)
        ensures
            r@ == decoded(s@, 0),
            r is Borrowed <==> !s@.contains('&'),
    {
        let chars: Vec<char> = chars_of(s);
        let n: usize = chars.len();
        let mut i: usize = 0;
        while i < n && chars[i] != '&'
            invariant
                chars@ == s@,
                n == chars@.len(),
                i <= n,
                forall|j: int| 0 <= j < i ==> chars@[j] != '&',
            decreases n - i,
        {
            i += 1;
        }
        if i >= n {
            proof {
                lemma_decoded_plain(s@, 0);
                assert(s@.skip(0) =~= s@);
            }
            return Cow::Borrowed(s);
        }
        assert(s@[i as int] == '&');
        let mut out = String::new();
        let mut pos: usize = 0;
        assert(out@ + decoded(s@, 0) =~= decoded(s@, 0));
        while pos < n
            invariant
                chars@ == s@,
                n == chars@.len(),
                pos <= n,
                decoded(s@, 0) == out@ + decoded(s@, pos as int),
            decreases n - pos,
        {
            let ghost before = out@;
            let ghost at = pos as int;
            let c = chars[pos];
            if c == '&' {
                let mut e: usize = pos + 1;
                while e < n && chars[e] != ';'
                    invariant
                        chars@ == s@,
                        n == chars@.len(),
                        pos + 1 <= e <= n,
                        find_char(s@, pos + 1, ';') == find_char(s@, e as int, ';'),
                    decreases n - e,
                {
                    e += 1;
                }
                let body = vstd::slice::slice_subrange(chars.as_slice(), pos + 1, e);
                push_entity(&mut out, body);
                proof {
                    assert(body@ =~= s@.subrange(at + 1, e as int));
                    assert(before + (expand_entity(body@) + decoded(s@, e + 1)) =~= out@ + decoded(
                        s@,
                        e + 1,
                    ));
                }
                if e >= n {
                    assert(decoded(s@, e + 1) =~= Seq::empty());
                    assert(decoded(s@, n as int) =~= Seq::empty());
                    pos = n;
                } else {
                    pos = e + 1;
                }
            } else {
                out.push(c);
                assert(before + (seq![c] + decoded(s@, at + 1)) =~= out@ + decoded(s@, at + 1));
                pos += 1;
            }
        }
        assert(decoded(s@, pos as int) =~= Seq::empty());
        assert(out@ =~= decoded(s@, 0));
        Cow::Owned(out)
    }
}

} // verus!
