//! What printed results tell: counts, lists of texts and JSON can be read back.

use vstd::prelude::*;
use crate::bytes::text_of;
use crate::index::entities::decoded;
use crate::index::XmlIndex;
use crate::report::json::{
    escaped, escaped_text, hex_digit, is_control, json_line, quoted_list, quoted_text,
};
use crate::report::render::{
    all_items, any_match, count_line, count_lines, expanded, fragment, heading, is_blank_text,
    kept_texts, outputs, separated, separator, shown_nodes, shown_texts, shown_value, QueryOptions,
    Shown, Source,
};
use crate::report::statistics::{greatest, named_count};
use crate::text::{all_digits, decimal_value, digits, lemma_digits_spell_the_number};
use crate::xpath::chars::is_white;
use crate::xpath::eval::node_texts;
use crate::xpath::nodes::XPathNode;

verus! {

// Counts.

/// The line that tells a count is the number in decimal and a line end, after the name
/// of the document and a colon where names are shown.
pub proof fn lemma_count_line(o: QueryOptions, name: Seq<char>, n: int) -> (d: Seq<char>)
    requires
        n >= 0,
    ensures
        decimal_value(d) == n,
        all_digits(d),
        d.len() > 0,
        n > 0 ==> d[0] != '0',
        !o.with_name ==> count_line(o, name, n) == d + seq!['\n'],
        o.with_name ==> count_line(o, name, n) == name + seq![':'] + d + seq!['\n'],
{
    lemma_digits_spell_the_number(n);
    assert(Seq::<char>::empty() + digits(n) + seq!['\n'] =~= digits(n) + seq!['\n']);
    digits(n)
}

/// Counting prints how many nodes were selected, and there is a match when there are
/// any.
pub proof fn lemma_count_printed(
    index: XmlIndex,
    nodes: Seq<XPathNode>,
    o: QueryOptions,
    name: Seq<char>,
) -> (d: Seq<char>)
    requires
        o.count,
        !o.with_name,
    ensures
        shown_nodes(index, nodes, o, name).output == d + seq!['\n'],
        decimal_value(d) == nodes.len(),
        all_digits(d),
        nodes.len() > 0 ==> d[0] != '0',
        shown_nodes(index, nodes, o, name).matched <==> nodes.len() != 0,
        shown_nodes(index, nodes, o, name).items.len() == 0,
{
    lemma_count_line(o, name, nodes.len() as int)
}

/// Listing prints the name of a document with a match on a line, and nothing for one
/// without.
pub proof fn lemma_listed_documents(
    index: XmlIndex,
    nodes: Seq<XPathNode>,
    o: QueryOptions,
    name: Seq<char>,
)
    requires
        o.list,
        !o.count,
    ensures
        nodes.len() == 0 ==> shown_nodes(index, nodes, o, name).output.len() == 0,
        nodes.len() != 0 ==> shown_nodes(index, nodes, o, name).output == name.push('\n'),
        shown_nodes(index, nodes, o, name).matched <==> nodes.len() != 0,
{
    assert(name + seq!['\n'] =~= name.push('\n'));
}

// Texts.

/// The texts in an output, each up to a separator. `part` is what has been read of the
/// one at hand.
pub open spec fn pieces(s: Seq<char>, sep: char, part: Seq<char>) -> Seq<Seq<char>>
    decreases s.len(),
{
    if s.len() == 0 {
        Seq::empty()
    } else if s[0] == sep {
        seq![part] + pieces(s.drop_first(), sep, Seq::empty())
    } else {
        pieces(s.drop_first(), sep, part.push(s[0]))
    }
}

/// Reading a text up to the separator after it.
proof fn lemma_piece(t: Seq<char>, sep: char, part: Seq<char>, rest: Seq<char>)
    requires
        !t.contains(sep),
    ensures
        pieces(t + seq![sep] + rest, sep, part) == seq![part + t] + pieces(rest, sep, Seq::empty()),
    decreases t.len(),
{
    let s = t + seq![sep] + rest;
    if t.len() == 0 {
        assert(s[0] == sep);
        assert(s.drop_first() =~= rest);
        assert(part + t =~= part);
    } else {
        let u = t.drop_first();
        assert(t.contains(t[0]));
        assert(s[0] == t[0]);
        assert(s.drop_first() =~= u + seq![sep] + rest);
        assert forall|i: int| 0 <= i < u.len() implies u[i] != sep by {
            assert(t[i + 1] == u[i]);
            assert(t.contains(t[i + 1]));
        }
        lemma_piece(u, sep, part.push(t[0]), rest);
        assert(part.push(t[0]) + u =~= part + t);
    }
}

/// The texts from the first on.
proof fn lemma_separated_first(all: Seq<Seq<char>>, sep: char, k: int)
    requires
        0 < k <= all.len(),
    ensures
        separated(all, sep, k) == all[0] + seq![sep] + separated(all.drop_first(), sep, k - 1),
    decreases k,
{
    let rest = all.drop_first();
    if k == 1 {
        assert(separated(all, sep, 0) =~= Seq::empty());
        assert(separated(rest, sep, 0) =~= Seq::empty());
        assert(separated(all, sep, 1) =~= all[0] + seq![sep] + separated(rest, sep, 0));
    } else {
        lemma_separated_first(all, sep, k - 1);
        assert(rest[k - 2] == all[k - 1]);
        assert(separated(all, sep, k) =~= all[0] + seq![sep] + separated(rest, sep, k - 1));
    }
}

/// Cutting the output at the separators gives back the texts, as long as none holds the
/// separator.
pub proof fn lemma_separated_read_back(all: Seq<Seq<char>>, sep: char)
    requires
        forall|i: int| 0 <= i < all.len() ==> !(#[trigger] all[i]).contains(sep),
    ensures
        pieces(separated(all, sep, all.len() as int), sep, Seq::empty()) == all,
    decreases all.len(),
{
    if all.len() == 0 {
        assert(separated(all, sep, 0) =~= Seq::empty());
        assert(all =~= Seq::empty());
    } else {
        let rest = all.drop_first();
        lemma_separated_first(all, sep, all.len() as int);
        assert forall|i: int| 0 <= i < rest.len() implies !(#[trigger] rest[i]).contains(sep) by {
            assert(rest[i] == all[i + 1]);
        }
        lemma_separated_read_back(rest, sep);
        lemma_piece(all[0], sep, Seq::empty(), separated(rest, sep, rest.len() as int));
        assert(Seq::<char>::empty() + all[0] =~= all[0]);
        assert(seq![all[0]] + rest =~= all);
    }
}

/// The separator is a line end, or a zero character where that is asked for.
pub proof fn lemma_separators(o: QueryOptions)
    ensures
        o.null_separated ==> separator(o) as int == 0,
        !o.null_separated ==> separator(o) as int == 10,
{
}

/// Blank texts are left out unless they are wanted, and the others stay in order: `at`
/// tells where the kept texts stood.
pub proof fn lemma_blank_texts_left_out(all: Seq<Seq<char>>, keep_blank: bool, k: int) -> (at: Seq<
    int,
>)
    requires
        0 <= k <= all.len(),
    ensures
        at.len() == kept_texts(all, keep_blank, k).len(),
        forall|i: int|
            0 <= i < at.len() ==> 0 <= #[trigger] at[i] < k && kept_texts(all, keep_blank, k)[i]
                == all[at[i]],
        forall|i: int, j: int| 0 <= i < j < at.len() ==> at[i] < at[j],
        forall|i: int|
            0 <= i < k ==> (at.contains(i) <==> keep_blank || exists|c: char|
                all[i].contains(c) && !#[trigger] is_white(c)),
    decreases k,
{
    if k == 0 {
        Seq::empty()
    } else {
        let before = lemma_blank_texts_left_out(all, keep_blank, k - 1);
        let t = all[k - 1];
        assert(!before.contains(k - 1));
        if exists|c: char| t.contains(c) && !#[trigger] is_white(c) {
            let c = choose|c: char| t.contains(c) && !#[trigger] is_white(c);
            let w = choose|w: int| 0 <= w < t.len() && t[w] == c;
            assert(!is_white(t[w]));
            assert(!is_blank_text(t));
        } else {
            assert forall|i: int| 0 <= i < t.len() implies is_white(#[trigger] t[i]) by {
                assert(t.contains(t[i]));
            }
        }
        if keep_blank || !is_blank_text(t) {
            let at = before.push(k - 1);
            assert forall|i: int| 0 <= i < k implies (at.contains(i) <==> keep_blank || exists|
                c: char,
            |
                all[i].contains(c) && !#[trigger] is_white(c)) by {
                if i == k - 1 {
                    assert(at[before.len() as int] == i);
                } else {
                    if before.contains(i) {
                        let w = choose|w: int| 0 <= w < before.len() && before[w] == i;
                        assert(at[w] == i);
                    }
                    if at.contains(i) {
                        let w = choose|w: int| 0 <= w < at.len() && at[w] == i;
                        assert(before[w] == i);
                    }
                }
            }
            at
        } else {
            before
        }
    }
}

/// Without JSON, texts are printed one after the other with their references expanded,
/// after the name of the document where names are shown and there is a text; cut at the
/// separators, the rest is the texts. There is a match when there is a text.
pub proof fn lemma_texts_printed(kept: Seq<Seq<char>>, o: QueryOptions, name: Seq<char>)
    requires
        !o.json,
        forall|i: int|
            0 <= i < kept.len() ==> !decoded(#[trigger] kept[i], 0).contains(separator(o)),
    ensures
        ({
            let head = if o.with_name && kept.len() > 0 {
                name.push('\n')
            } else {
                Seq::empty()
            };
            let output = shown_texts(kept, o, name).output;
            &&& output.take(head.len() as int) == head
            &&& pieces(output.skip(head.len() as int), separator(o), Seq::empty()) == Seq::new(
                kept.len(),
                |i: int| decoded(kept[i], 0),
            )
            &&& shown_texts(kept, o, name).matched <==> kept.len() > 0
        }),
{
    let all = expanded(kept);
    let list = Seq::new(kept.len(), |i: int| decoded(kept[i], 0));
    assert(all =~= list);
    assert forall|i: int| 0 <= i < all.len() implies !(#[trigger] all[i]).contains(separator(o)) by {
        assert(!decoded(kept[i], 0).contains(separator(o)));
    }
    lemma_separated_read_back(all, separator(o));
    let head = if o.with_name && kept.len() > 0 {
        name.push('\n')
    } else {
        Seq::empty()
    };
    assert(heading(o, name, kept.len() > 0) =~= head);
    let output = shown_texts(kept, o, name).output;
    let rest = separated(all, separator(o), kept.len() as int);
    assert(output == head + rest);
    assert(output.take(head.len() as int) =~= head);
    assert(output.skip(head.len() as int) =~= rest);
}

/// Raw output prints the markup of the nodes, blank ones left out unless they are
/// wanted, each with a separator after it.
pub proof fn lemma_raw_printed(
    index: XmlIndex,
    nodes: Seq<XPathNode>,
    o: QueryOptions,
    name: Seq<char>,
)
    requires
        o.raw,
        !o.count,
        !o.list,
        !o.with_name,
        forall|i: int|
            0 <= i < nodes.len() ==> !fragment(index, #[trigger] nodes[i]).contains(separator(o)),
    ensures
        ({
            let all = Seq::new(nodes.len(), |i: int| fragment(index, nodes[i]));
            pieces(shown_nodes(index, nodes, o, name).output, separator(o), Seq::empty())
                == kept_texts(all, o.whitespace, all.len() as int)
        }),
{
    let all = nodes.map_values(|n: XPathNode| fragment(index, n));
    let list = Seq::new(nodes.len(), |i: int| fragment(index, nodes[i]));
    assert(all =~= list);
    let kept = kept_texts(all, o.whitespace, all.len() as int);
    let at = lemma_blank_texts_left_out(all, o.whitespace, all.len() as int);
    assert forall|i: int| 0 <= i < kept.len() implies !(#[trigger] kept[i]).contains(separator(o)) by {
        assert(kept[i] == all[at[i]]);
        assert(!fragment(index, nodes[at[i]]).contains(separator(o)));
    }
    lemma_separated_read_back(kept, separator(o));
    let rest = separated(kept, separator(o), kept.len() as int);
    assert(shown_nodes(index, nodes, o, name).output =~= rest);
}

/// Selected nodes are printed as their texts when nothing else is asked for.
pub proof fn lemma_texts_by_default(
    index: XmlIndex,
    nodes: Seq<XPathNode>,
    o: QueryOptions,
    name: Seq<char>,
)
    requires
        !o.count,
        !o.list,
        !o.raw,
    ensures
        ({
            let all = node_texts(index, nodes, nodes.len() as int);
            shown_nodes(index, nodes, o, name) == shown_texts(
                kept_texts(all, o.whitespace, all.len() as int),
                o,
                name,
            )
        }),
{
}

/// The output for several documents is that for each, one after the other, with the
/// items in the same order, and there is a match when one of them has one.
pub proof fn lemma_outputs_in_order(parts: Seq<Shown>, last: Shown)
    ensures
        ({
            let all = parts.push(last);
            let n = parts.len() as int;
            &&& outputs(all, n + 1) == outputs(parts, n) + last.output
            &&& all_items(all, n + 1) == all_items(parts, n) + last.items
            &&& any_match(all, n + 1) <==> any_match(parts, n) || last.matched
        }),
        outputs(parts, 0).len() == 0,
        all_items(parts, 0).len() == 0,
        !any_match(parts, 0),
{
    lemma_first_parts(parts, parts.push(last), parts.len() as int);
}

proof fn lemma_first_parts(a: Seq<Shown>, b: Seq<Shown>, k: int)
    requires
        0 <= k <= a.len(),
        k <= b.len(),
        forall|i: int| 0 <= i < k ==> a[i] == b[i],
    ensures
        outputs(a, k) == outputs(b, k),
        all_items(a, k) == all_items(b, k),
        any_match(a, k) == any_match(b, k),
    decreases k,
{
    if k > 0 {
        lemma_first_parts(a, b, k - 1);
    }
}

// JSON.

/// The value of a hexadecimal digit.
pub open spec fn hex_value(c: char) -> int {
    if '0' <= c <= '9' {
        c as int - '0' as int
    } else if 'a' <= c <= 'f' {
        c as int - 'a' as int + 10
    } else {
        c as int - 'A' as int + 10
    }
}

/// The character of a JSON string that is written at a position, and the position after
/// it. A backslash and `u` are followed by the code in four hexadecimal digits.
pub open spec fn json_char(s: Seq<char>, p: int) -> (char, int) {
    if s[p] != '\\' {
        (s[p], p + 1)
    } else if s[p + 1] == 'n' {
        (10u8 as char, p + 2)
    } else if s[p + 1] == 'r' {
        (13u8 as char, p + 2)
    } else if s[p + 1] == 't' {
        (9u8 as char, p + 2)
    } else if s[p + 1] == 'u' {
        (
            (4096 * hex_value(s[p + 2]) + 256 * hex_value(s[p + 3]) + 16 * hex_value(s[p + 4])
                + hex_value(s[p + 5])) as char,
            p + 6,
        )
    } else {
        (s[p + 1], p + 2)
    }
}

/// The text that a JSON string holds from a position after its opening quote on, and the
/// position after its closing quote.
pub open spec fn json_string(s: Seq<char>, p: int) -> Option<(Seq<char>, int)>
    decreases s.len() + 6 - p,
{
    if p < 0 || p >= s.len() {
        None
    } else if s[p] == '"' {
        Some((Seq::empty(), p + 1))
    } else {
        let (c, q) = json_char(s, p);
        if q <= p {
            None
        } else {
            match json_string(s, q) {
                Some((t, e)) => Some((seq![c] + t, e)),
                None => None,
            }
        }
    }
}

/// The texts of a JSON array from a position on where a string or the closing bracket
/// is due, and the position after the bracket.
pub open spec fn json_items(s: Seq<char>, p: int) -> Option<(Seq<Seq<char>>, int)>
    decreases s.len() - p,
{
    if p < 0 || p >= s.len() {
        None
    } else if s[p] == ']' {
        Some((Seq::empty(), p + 1))
    } else if s[p] != '"' {
        None
    } else {
        match json_string(s, p + 1) {
            None => None,
            Some((t, q)) => if q <= p || q >= s.len() {
                None
            } else if s[q] == ']' {
                Some((seq![t], q + 1))
            } else if s[q] != ',' {
                None
            } else {
                match json_items(s, q + 1) {
                    None => None,
                    Some((rest, e)) => Some((seq![t] + rest, e)),
                }
            },
        }
    }
}

/// Reading an escaped character gives back the character. No control character, quote
/// or backslash stands in it unescaped.
pub proof fn lemma_escaped_char(c: char, s: Seq<char>, p: int)
    requires
        0 <= p,
        p + escaped(c).len() <= s.len(),
        s.subrange(p, p + escaped(c).len()) == escaped(c),
    ensures
        json_char(s, p) == (c, p + escaped(c).len()),
        s[p] != '"',
        escaped(c).len() > 0,
        forall|i: int|
            0 <= i < escaped(c).len() ==> (#[trigger] escaped(c)[i]) as int >= 0x20 && !(0x7f
                <= (escaped(c)[i] as int) <= 0x9f),
{
    let e = escaped(c);
    let t = s.subrange(p, p + e.len());
    assert forall|i: int| 0 <= i < e.len() implies s[p + i] == #[trigger] e[i] by {
        assert(t[i] == s[p + i]);
    }
    assert(s[p] == e[0]);
    assert('\n' as int == 10 && '\r' as int == 13 && '\t' as int == 9);
    if e.len() >= 2 {
        assert(s[p + 1] == e[1]);
    }
    if e.len() == 6 {
        assert(is_control(c));
        let n = c as int;
        assert(0 <= n < 256);
        assert(0 <= n / 16 < 16 && 0 <= n % 16 < 16 && n == 16 * (n / 16) + n % 16);
        assert(s[p + 2] == e[2] && s[p + 3] == e[3] && s[p + 4] == e[4] && s[p + 5] == e[5]);
        assert(e[2] == '0' && e[3] == '0');
        lemma_hex_digit(n / 16);
        lemma_hex_digit(n % 16);
        assert(n as char == c);
    }
}

proof fn lemma_hex_digit(d: int)
    requires
        0 <= d < 16,
    ensures
        hex_value(hex_digit(d)) == d,
        0x30 <= (hex_digit(d) as int) < 0x7f,
{
}

/// The escaped characters after the first `k`.
proof fn lemma_escaped_rest(s: Seq<char>, k: int, n: int) -> (tail: Seq<char>)
    requires
        0 <= k <= n <= s.len(),
    ensures
        escaped_text(s, n) == escaped_text(s, k) + tail,
    decreases n - k,
{
    if k == n {
        assert(escaped_text(s, n) =~= escaped_text(s, k) + Seq::<char>::empty());
        Seq::empty()
    } else {
        let before = lemma_escaped_rest(s, k, n - 1);
        let tail = before + escaped(s[n - 1]);
        assert(escaped_text(s, n) =~= escaped_text(s, k) + tail);
        tail
    }
}

/// Reading a JSON string from its character `k` on.
proof fn lemma_string_from(a: Seq<char>, s: Seq<char>, b: Seq<char>, k: int)
    requires
        0 <= k <= s.len(),
    ensures
        ({
            let n = s.len() as int;
            json_string(
                a + escaped_text(s, n) + seq!['"'] + b,
                (a.len() + escaped_text(s, k).len()) as int,
            ) == Some((s.skip(k), (a.len() + escaped_text(s, n).len() + 1) as int))
        }),
    decreases s.len() - k,
{
    let n = s.len() as int;
    let full = a + escaped_text(s, n) + seq!['"'] + b;
    let p = (a.len() + escaped_text(s, k).len()) as int;
    if k == n {
        assert(full[p] == '"');
        assert(s.skip(n) =~= Seq::empty());
    } else {
        let c = s[k];
        let e = escaped(c);
        let tail = lemma_escaped_rest(s, k + 1, n);
        assert(escaped_text(s, k + 1) == escaped_text(s, k) + e);
        assert(full =~= a + escaped_text(s, k) + e + tail + seq!['"'] + b);
        assert(full.subrange(p, p + e.len()) =~= e);
        lemma_escaped_char(c, full, p);
        lemma_string_from(a, s, b, k + 1);
        assert(p + e.len() == a.len() + escaped_text(s, k + 1).len());
        assert(seq![c] + s.skip(k + 1) =~= s.skip(k));
    }
}

/// Reading a JSON string gives back the text that it was written for.
pub proof fn lemma_json_string_read_back(a: Seq<char>, t: Seq<char>, b: Seq<char>)
    ensures
        json_string(a + quoted_text(t) + b, (a.len() + 1) as int) == Some(
            (t, (a.len() + quoted_text(t).len()) as int),
        ),
        (a + quoted_text(t) + b)[a.len() as int] == '"',
{
    let head = a + seq!['"'];
    lemma_string_from(head, t, b, 0);
    assert(escaped_text(t, 0) =~= Seq::empty());
    assert(t.skip(0) =~= t);
    assert(head + escaped_text(t, t.len() as int) + seq!['"'] + b =~= a + quoted_text(t) + b);
}

/// The strings of a list from the first on.
proof fn lemma_list_first(items: Seq<Seq<char>>, k: int)
    requires
        1 < k <= items.len(),
    ensures
        quoted_list(items, k) == quoted_text(items[0]) + seq![','] + quoted_list(
            items.drop_first(),
            k - 1,
        ),
    decreases k,
{
    let rest = items.drop_first();
    if k == 2 {
        assert(rest[0] == items[1]);
        assert(quoted_list(items, 1) == quoted_text(items[0]));
    } else {
        lemma_list_first(items, k - 1);
        assert(rest[k - 2] == items[k - 1]);
        assert(quoted_list(items, k) =~= quoted_text(items[0]) + seq![','] + quoted_list(
            rest,
            k - 1,
        ));
    }
}

proof fn lemma_items_from(a: Seq<char>, items: Seq<Seq<char>>, b: Seq<char>)
    requires
        items.len() > 0,
    ensures
        ({
            let list = quoted_list(items, items.len() as int);
            json_items(a + list + seq![']'] + b, a.len() as int) == Some(
                (items, (a.len() + list.len() + 1) as int),
            )
        }),
    decreases items.len(),
{
    let n = items.len() as int;
    let list = quoted_list(items, n);
    let full = a + list + seq![']'] + b;
    let p = a.len() as int;
    let first = quoted_text(items[0]);
    if n == 1 {
        let after = seq![']'] + b;
        assert(full =~= a + first + after);
        lemma_json_string_read_back(a, items[0], after);
        assert(full[p + first.len()] == ']');
        assert(seq![items[0]] =~= items);
    } else {
        let rest = items.drop_first();
        lemma_list_first(items, n);
        let more = quoted_list(rest, n - 1);
        let after = seq![','] + more + seq![']'] + b;
        assert(full =~= a + first + after);
        lemma_json_string_read_back(a, items[0], after);
        assert(full[p + first.len()] == ',');
        let head = a + first + seq![','];
        assert(full =~= head + more + seq![']'] + b);
        lemma_items_from(head, rest, b);
        assert(seq![items[0]] + rest =~= items);
    }
}

/// Reading a JSON line gives back the texts that it was written for: the line is one
/// array of strings and a line end.
pub proof fn lemma_json_line_read_back(items: Seq<Seq<char>>)
    ensures
        json_line(items)[0] == '[',
        json_line(items).last() == '\n',
        json_items(json_line(items), 1) == Some((items, json_line(items).len() - 1)),
{
    let n = items.len() as int;
    let s = json_line(items);
    if n == 0 {
        assert(quoted_list(items, 0) =~= Seq::empty());
        assert(s =~= seq!['[', ']', '\n']);
        assert(items =~= Seq::empty());
    } else {
        let list = quoted_list(items, n);
        assert(s =~= seq!['['] + list + seq![']'] + seq!['\n']);
        lemma_items_from(seq!['['], items, seq!['\n']);
    }
}

/// With JSON, the texts of one document are printed as an array of the texts with their
/// references expanded; those of several documents are handed on.
pub proof fn lemma_texts_in_json(kept: Seq<Seq<char>>, o: QueryOptions, name: Seq<char>)
    requires
        o.json,
    ensures
        ({
            let all = Seq::new(kept.len(), |i: int| decoded(kept[i], 0));
            let shown = shown_texts(kept, o, name);
            &&& !o.many ==> json_items(shown.output, 1) == Some((all, shown.output.len() - 1))
                && shown.items.len() == 0
            &&& o.many ==> shown.output.len() == 0 && shown.items == all
            &&& shown.matched <==> kept.len() > 0
        }),
{
    let all = Seq::new(kept.len(), |i: int| decoded(kept[i], 0));
    assert(expanded(kept) =~= all);
    lemma_json_line_read_back(all);
}

/// A value is printed as its text and a separator, after the name of the document where
/// names are shown; in JSON, a text of one document is printed as an array of itself.
pub proof fn lemma_values_printed(
    text: Seq<char>,
    is_string: bool,
    matched: bool,
    o: QueryOptions,
    name: Seq<char>,
)
    ensures
        shown_value(text, is_string, matched, o, name).matched == matched,
        !o.json && !(is_string && o.count) && !o.with_name ==> shown_value(
            text,
            is_string,
            matched,
            o,
            name,
        ).output == text.push(separator(o)),
        !o.json && !(is_string && o.count) && o.with_name ==> shown_value(
            text,
            is_string,
            matched,
            o,
            name,
        ).output == name.push('\n') + text.push(separator(o)),
        o.json && !o.many && is_string ==> json_items(
            shown_value(text, is_string, matched, o, name).output,
            1,
        ) == Some(
            (seq![text], shown_value(text, is_string, matched, o, name).output.len() - 1),
        ),
        o.json && !o.many && !is_string ==> shown_value(text, is_string, matched, o, name).output
            == text.push('\n'),
        o.json && o.many ==> shown_value(text, is_string, matched, o, name).items == seq![text],
{
    lemma_json_line_read_back(seq![text]);
    let shown = shown_value(text, is_string, matched, o, name);
    if !o.json && !(is_string && o.count) {
        if o.with_name {
            assert(shown.output =~= name.push('\n') + text.push(separator(o)));
        } else {
            assert(shown.output =~= text.push(separator(o)));
        }
    }
    if o.json && !o.many && !is_string {
        assert(shown.output =~= text.push('\n'));
    }
}

// Statistics.

/// The greatest depth is one of the depths, and none is above it; without depths it is
/// zero.
pub proof fn lemma_greatest_depth(depths: Seq<u16>, k: int)
    requires
        0 <= k <= depths.len(),
    ensures
        forall|i: int| 0 <= i < k ==> #[trigger] depths[i] <= greatest(depths, k),
        k > 0 ==> exists|i: int| 0 <= i < k && #[trigger] depths[i] == greatest(depths, k),
        k == 0 ==> greatest(depths, k) == 0,
    decreases k,
{
    if k > 0 {
        lemma_greatest_depth(depths, k - 1);
        if k == 1 {
            assert(depths[0] == greatest(depths, 1));
        } else if depths[k - 1] <= greatest(depths, k - 1) {
            let i = choose|i: int|
                0 <= i < k - 1 && #[trigger] depths[i] == greatest(depths, k - 1);
            assert(depths[i] == greatest(depths, k));
        } else {
            assert(depths[k - 1] == greatest(depths, k));
        }
    }
}

/// The count of a name is how many of the first `k` tags are elements of that name: `at`
/// lists them, each once.
pub proof fn lemma_names_counted(index: XmlIndex, name: Seq<char>, k: int) -> (at: Seq<int>)
    requires
        0 <= k <= index.tags(),
    ensures
        at.len() == named_count(index, name, k),
        forall|i: int, j: int| 0 <= i < j < at.len() ==> at[i] < at[j],
        forall|t: int| #[trigger]
            at.contains(t) <==> 0 <= t < k && index.element(t) && index.name_text(t) == name,
    decreases k,
{
    if k == 0 {
        Seq::empty()
    } else {
        let before = lemma_names_counted(index, name, k - 1);
        assert(!before.contains(k - 1));
        if index.element(k - 1) && index.name_text(k - 1) == name {
            let at = before.push(k - 1);
            assert forall|t: int| #[trigger]
                at.contains(t) <==> 0 <= t < k && index.element(t) && index.name_text(t) == name by {
                if at.contains(t) {
                    let w = choose|w: int| 0 <= w < at.len() && at[w] == t;
                    if w < before.len() {
                        assert(before[w] == t);
                        assert(before.contains(t));
                    }
                }
                if before.contains(t) {
                    let w = choose|w: int| 0 <= w < before.len() && before[w] == t;
                    assert(at[w] == t);
                }
                assert(at[before.len() as int] == k - 1);
            }
            assert forall|i: int, j: int| 0 <= i < j < at.len() implies at[i] < at[j] by {
                assert(before.contains(before[i]));
            }
            at
        } else {
            before
        }
    }
}

/// The markup of an element with a close tag starts with its tag and ends with its close
/// tag; that of an element without content is its tag.
pub proof fn lemma_markup(index: XmlIndex, i: int, c: int)
    requires
        index.wf(),
        0 <= i < index.tags(),
        index.close_of(i) == Some(c),
        i <= c < index.tags(),
        index.tag_ends@[c] < index.input@.len(),
    ensures
        index.markup(i) == text_of(
            index.input@.subrange(index.tag_starts@[i] as int, index.tag_ends@[c] + 1),
        ),
        i == c ==> index.markup(i) == text_of(index.tag_bytes(i)),
        fragment(index, XPathNode::Element(i as usize)) == index.markup(i),
{
    let d = index.doc();
    assert(index.tags() == index.tag_starts.len());
    if i < c {
        assert(d.starts[i] < d.starts[c]);
    }
    assert(d.starts[c] <= d.ends[c]);
}

/// The lines that tell counts come in the order of the documents.
pub proof fn lemma_count_lines(
    sources: Seq<Source>,
    counts: Seq<usize>,
    o: QueryOptions,
    k: int,
) -> (d: Seq<char>)
    requires
        0 < k <= counts.len(),
        k <= sources.len(),
    ensures
        decimal_value(d) == counts[k - 1],
        all_digits(d),
        count_lines(sources, counts, o, k) == count_lines(sources, counts, o, k - 1) + (
        if o.with_name {
            sources[k - 1].name@ + seq![':']
        } else {
            Seq::empty()
        }) + d + seq!['\n'],
        count_lines(sources, counts, o, 0).len() == 0,
{
    let d = lemma_count_line(o, sources[k - 1].name@, counts[k - 1] as int);
    let before = count_lines(sources, counts, o, k - 1);
    let head = if o.with_name {
        sources[k - 1].name@ + seq![':']
    } else {
        Seq::empty()
    };
    assert(count_lines(sources, counts, o, k) =~= before + head + d + seq!['\n']);
    d
}

} // verus!
