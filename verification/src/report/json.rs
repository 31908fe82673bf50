//! JSON arrays of strings.

use vstd::prelude::*;
use crate::text::chars_of;
use crate::xpath::numbers::strings;

verus! {

/// Whether a character is a control character: U+0000 to U+001F, and U+007F to
/// U+009F.
pub open spec fn is_control(c: char) -> bool {
    (c as u32) < 0x20 || 0x7f <= c as u32 <= 0x9f
}

/// A hexadecimal digit.
pub open spec fn hex_digit(d: int) -> char {
    if d < 10 {
        (0x30 + d) as char
    } else {
        (0x57 + d) as char
    }
}

/// A character inside a JSON string: quotes, backslashes and control characters
/// are escaped.
pub open spec fn escaped(c: char) -> Seq<char> {
    if c == '"' {
        seq!['\\', '"']
    } else if c == '\\' {
        seq!['\\', '\\']
    } else if c == '\n' {
        seq!['\\', 'n']
    } else if c == '\r' {
        seq!['\\', 'r']
    } else if c == '\t' {
        seq!['\\', 't']
    } else if is_control(c) {
        seq!['\\', 'u', '0', '0', hex_digit(c as int / 16), hex_digit(c as int % 16)]
    } else {
        seq![c]
    }
}

/// The first `k` characters of a text, escaped.
pub open spec fn escaped_text(s: Seq<char>, k: int) -> Seq<char>
    decreases k,
{
    if k <= 0 {
        Seq::empty()
    } else {
        escaped_text(s, k - 1) + escaped(s[k - 1])
    }
}

/// A text as a JSON string.
pub open spec fn quoted_text(s: Seq<char>) -> Seq<char> {
    seq!['"'] + escaped_text(s, s.len() as int) + seq!['"']
}

/// The first `k` texts as JSON strings with commas between them.
pub open spec fn quoted_list(items: Seq<Seq<char>>, k: int) -> Seq<char>
    decreases k,
{
    if k <= 0 {
        Seq::empty()
    } else if k == 1 {
        quoted_text(items[0])
    } else {
        quoted_list(items, k - 1) + seq![','] + quoted_text(items[k - 1])
    }
}

/// Texts as a JSON array on a line of its own.
pub open spec fn json_line(items: Seq<Seq<char>>) -> Seq<char> {
    seq!['['] + quoted_list(items, items.len() as int) + seq![']', '\n']
}

fn hex(d: u32) -> (r: char)
    requires
        d < 16,
    ensures
        r == hex_digit(d as int),
{
    if d < 10 {
        (0x30u8 + d as u8) as char
    } else {
        (0x57u8 + d as u8) as char
    }
}

/// Appends a character, escaped.
fn push_escaped(out: &mut String, c: char)
    ensures
        final(out)@ == old(out)@ + escaped(c),
{
    let ghost before = out@;
    let code: u32 = c as u32;
    if c == '"' {
        out.push('\\');
        out.push('"');
    } else if c == '\\' {
        out.push('\\');
        out.push('\\');
    } else if c == '\n' {
        out.push('\\');
        out.push('n');
    } else if c == '\r' {
        out.push('\\');
        out.push('r');
    } else if c == '\t' {
        out.push('\\');
        out.push('t');
    } else if code < 0x20 || (0x7f <= code && code <= 0x9f) {
        out.push('\\');
        out.push('u');
        out.push('0');
        out.push('0');
        out.push(hex(code / 16));
        out.push(hex(code % 16));
    } else {
        out.push(c);
    }
    assert(out@ =~= before + escaped(c));
}

/// Appends a text as a JSON string.
fn push_quoted(out: &mut String, item: &str)
    ensures
        final(out)@ == old(out)@ + quoted_text(item@),
{
    let ghost before = out@;
    let chars = chars_of(item);
    let n: usize = chars.len();
    out.push('"');
    let mut i: usize = 0;
    assert(out@ =~= before + (seq!['"'] + escaped_text(item@, 0)));
    while i < n
        invariant
            chars@ == item@,
            n == chars@.len(),
            i <= n,
            out@ == before + (seq!['"'] + escaped_text(item@, i as int)),
        decreases n - i,
    {
        push_escaped(out, chars[i]);
        assert(out@ =~= before + (seq!['"'] + escaped_text(item@, i + 1)));
        i += 1;
    }
    out.push('"');
    assert(out@ =~= before + quoted_text(item@));
}

/// Texts as a JSON array on a line of its own: see `json_line`.
pub fn json_array(items: &Vec<String>) -> (out: String)
    ensures
        out@ == json_line(strings(items@)),
{
    let ghost view = strings(items@);
    let mut out = String::new();
    out.push('[');
    let n: usize = items.len();
    let mut i: usize = 0;
    assert(out@ =~= seq!['['] + quoted_list(view, 0));
    while i < n
        invariant
            view == strings(items@),
            n == items@.len(),
            i <= n,
            out@ == seq!['['] + quoted_list(view, i as int),
        decreases n - i,
    {
        let ghost before = out@;
        if i > 0 {
            out.push(',');
        }
        assert(view[i as int] == items@[i as int]@);
        push_quoted(&mut out, items[i].as_str());
        proof {
            if i > 0 {
                assert(out@ =~= seq!['['] + (quoted_list(view, i as int) + seq![',']
                    + quoted_text(view[i as int])));
            } else {
                assert(out@ =~= seq!['['] + quoted_list(view, 1));
            }
        }
        i += 1;
    }
    out.push(']');
    out.push('\n');
    assert(out@ =~= json_line(view));
    out
}

} // verus!
