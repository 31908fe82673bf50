//! Reading an expression that has been written out gives back the expression.

use vstd::prelude::*;
use crate::xpath::ast::{Axis, TestV};
use crate::xpath::chars::{
    at, char_is_alphanumeric, in_class, is_white, run, seek, skip, word_at, CharClass,
};
use crate::xpath::grammar::{
    axis_named, axis_spec, name_test, node_test, quoted, step_head, type_test, wildcard_test,
    StepHead,
};
use crate::xpath::writing::{
    axis_name, is_function_name, is_plain_name, is_plain_test, is_quotable, mark_for, usual_letters,
    write_test, write_text,
};

verus! {

/// What tells names apart: the length, the first two characters and the last.
spec fn signature(name: Seq<char>) -> (nat, char, char, char) {
    (name.len(), name[0], name[1], name.last())
}

proof fn lemma_signatures()
    ensures
        signature("child"@) == (5nat, 'c', 'h', 'd'),
        signature("descendant"@) == (10nat, 'd', 'e', 't'),
        signature("parent"@) == (6nat, 'p', 'a', 't'),
        signature("ancestor"@) == (8nat, 'a', 'n', 'r'),
        signature("following-sibling"@) == (17nat, 'f', 'o', 'g'),
        signature("preceding-sibling"@) == (17nat, 'p', 'r', 'g'),
        signature("following"@) == (9nat, 'f', 'o', 'g'),
        signature("preceding"@) == (9nat, 'p', 'r', 'g'),
        signature("self"@) == (4nat, 's', 'e', 'f'),
        signature("descendant-or-self"@) == (18nat, 'd', 'e', 'f'),
        signature("ancestor-or-self"@) == (16nat, 'a', 'n', 'f'),
        signature("attribute"@) == (9nat, 'a', 't', 'e'),
        signature("namespace"@) == (9nat, 'n', 'a', 'e'),
        signature("text"@) == (4nat, 't', 'e', 't'),
        signature("node"@) == (4nat, 'n', 'o', 'e'),
        signature("comment"@) == (7nat, 'c', 'o', 't'),
        signature("processing-instruction"@) == (22nat, 'p', 'r', 'n'),
{
    reveal_strlit("child");
    reveal_strlit("descendant");
    reveal_strlit("parent");
    reveal_strlit("ancestor");
    reveal_strlit("following-sibling");
    reveal_strlit("preceding-sibling");
    reveal_strlit("following");
    reveal_strlit("preceding");
    reveal_strlit("self");
    reveal_strlit("descendant-or-self");
    reveal_strlit("ancestor-or-self");
    reveal_strlit("attribute");
    reveal_strlit("namespace");
    reveal_strlit("text");
    reveal_strlit("node");
    reveal_strlit("comment");
    reveal_strlit("processing-instruction");
}

/// Reading the name of an axis gives back the axis.
pub proof fn lemma_axis_read_back(axis: Axis)
    ensures
        axis_named(axis_name(axis)) == Some(axis),
{
    lemma_signatures();
}

/// No two axes have the same name, and a word that is not the name of an axis names
/// none.
pub proof fn lemma_axis_names(a: Axis, b: Axis, word: Seq<char>)
    ensures
        axis_name(a) == axis_name(b) ==> a == b,
        axis_named(word) == Some(a) ==> word == axis_name(a),
{
    lemma_signatures();
}

/// A word of small letters and hyphens.
pub open spec fn is_word(w: Seq<char>) -> bool {
    w.len() > 0 && forall|i: int| 0 <= i < w.len() ==> 'a' <= #[trigger] w[i] <= 'z' || w[i] == '-'
}

pub proof fn lemma_axis_is_word(axis: Axis)
    ensures
        is_word(axis_name(axis)),
        'a' <= axis_name(axis)[0] <= 'z',
{
    reveal_strlit("child");
    reveal_strlit("descendant");
    reveal_strlit("parent");
    reveal_strlit("ancestor");
    reveal_strlit("following-sibling");
    reveal_strlit("preceding-sibling");
    reveal_strlit("following");
    reveal_strlit("preceding");
    reveal_strlit("self");
    reveal_strlit("descendant-or-self");
    reveal_strlit("ancestor-or-self");
    reveal_strlit("attribute");
    reveal_strlit("namespace");
    reveal_strlit("text");
    reveal_strlit("node");
    reveal_strlit("comment");
    reveal_strlit("processing-instruction");
}

pub proof fn lemma_types_are_words()
    ensures
        is_word("text"@),
        is_word("node"@),
        is_word("comment"@),
        is_word("processing-instruction"@),
{
    reveal_strlit("child");
    reveal_strlit("descendant");
    reveal_strlit("parent");
    reveal_strlit("ancestor");
    reveal_strlit("following-sibling");
    reveal_strlit("preceding-sibling");
    reveal_strlit("following");
    reveal_strlit("preceding");
    reveal_strlit("self");
    reveal_strlit("descendant-or-self");
    reveal_strlit("ancestor-or-self");
    reveal_strlit("attribute");
    reveal_strlit("namespace");
    reveal_strlit("text");
    reveal_strlit("node");
    reveal_strlit("comment");
    reveal_strlit("processing-instruction");
}

/// A text stands at a position exactly when its two parts stand one after the other.
pub proof fn lemma_word_split(s: Seq<char>, p: int, a: Seq<char>, b: Seq<char>)
    ensures
        word_at(s, p, a + b) <==> word_at(s, p, a) && word_at(s, p + a.len(), b),
{
    let n = a.len() as int;
    let m = b.len() as int;
    let ab = a + b;
    if word_at(s, p, ab) {
        let t = s.subrange(p, p + ab.len());
        assert(s.subrange(p, p + n) =~= t.subrange(0, n));
        assert(t.subrange(0, n) =~= a);
        assert(s.subrange(p + n, p + n + m) =~= t.subrange(n, n + m));
        assert(t.subrange(n, n + m) =~= b);
    }
    if word_at(s, p, a) && word_at(s, p + n, b) {
        assert(s.subrange(p, p + ab.len()) =~= s.subrange(p, p + n) + s.subrange(p + n, p + n + m));
    }
}

/// The characters of a text that stands at a position.
pub proof fn lemma_word_chars(s: Seq<char>, p: int, w: Seq<char>)
    requires
        word_at(s, p, w),
    ensures
        0 <= p,
        p + w.len() <= s.len(),
        forall|i: int| 0 <= i < w.len() ==> #[trigger] w[i] == s[p + i],
        forall|i: int| p <= i < p + w.len() ==> #[trigger] s[i] == w[i - p],
{
    let t = s.subrange(p, p + w.len());
    assert forall|i: int| 0 <= i < w.len() implies #[trigger] w[i] == s[p + i] by {
        assert(t[i] == s[p + i]);
    }
}

/// Where a run of characters ends.
pub proof fn lemma_run_ends(s: Seq<char>, p: int, q: int, class: CharClass)
    requires
        0 <= p <= q <= s.len(),
        forall|i: int| p <= i < q ==> in_class(#[trigger] s[i], class),
        q < s.len() ==> !in_class(s[q], class),
    ensures
        run(s, p, class) == q,
    decreases q - p,
{
    if p < q {
        assert(in_class(s[p], class));
        lemma_run_ends(s, p + 1, q, class);
    }
}

/// Where a search for a character ends.
proof fn lemma_seek_ends(s: Seq<char>, p: int, q: int, c: char)
    requires
        0 <= p <= q < s.len(),
        forall|i: int| p <= i < q ==> #[trigger] s[i] != c,
        s[q] == c,
    ensures
        seek(s, p, c) == q,
    decreases q - p,
{
    if p < q {
        assert(s[p] != c);
        lemma_seek_ends(s, p + 1, q, c);
    }
}

/// A search passes over a text without the character.
proof fn lemma_seek_passes(s: Seq<char>, p: int, q: int, c: char)
    requires
        0 <= p <= q <= s.len(),
        forall|i: int| p <= i < q ==> #[trigger] s[i] != c,
    ensures
        seek(s, p, c) >= q,
    decreases s.len() - p,
{
    if p < q {
        assert(s[p] != c);
        lemma_seek_passes(s, p + 1, q, c);
    } else if p < s.len() && s[p] != c {
        lemma_seek_passes(s, p + 1, p + 1, c);
    }
}

/// Whether what stands at a position ends what comes before it: the text ends, or a
/// character stands there that continues no name and no number. No parenthesis opens
/// behind blanks.
pub open spec fn stops(s: Seq<char>, q: int) -> bool {
    &&& 0 <= q <= s.len()
    &&& q < s.len() ==> s[q] == ' ' || s[q] == '/' || s[q] == '|' || s[q] == ',' || s[q] == '['
        || s[q] == ']' || s[q] == ')'
    &&& !at(s, skip(s, q), '(')
}

/// Reading a word that stands at a position.
pub proof fn lemma_word_run(s: Seq<char>, p: int, w: Seq<char>)
    requires
        usual_letters(),
        is_word(w),
        word_at(s, p, w),
        p + w.len() < s.len() ==> !in_class(s[p + w.len()], CharClass::Word),
    ensures
        run(s, p, CharClass::Word) == p + w.len(),
        s.subrange(p, p + w.len()) == w,
{
    lemma_word_chars(s, p, w);
    assert forall|i: int| p <= i < p + w.len() implies in_class(
        #[trigger] s[i],
        CharClass::Word,
    ) by {
        assert(s[i] == w[i - p]);
        assert(char_is_alphanumeric(s[i]) || s[i] == '-');
    }
    lemma_run_ends(s, p, p + w.len(), CharClass::Word);
}

/// Reading the name of a function that stands at a position.
pub proof fn lemma_word_run_of(s: Seq<char>, p: int, name: Seq<char>)
    requires
        is_function_name(name),
        word_at(s, p, name),
        p + name.len() < s.len() ==> !in_class(s[p + name.len()], CharClass::Word),
    ensures
        run(s, p, CharClass::Word) == p + name.len(),
        s.subrange(p, p + name.len()) == name,
{
    lemma_word_chars(s, p, name);
    assert forall|i: int| p <= i < p + name.len() implies in_class(
        #[trigger] s[i],
        CharClass::Word,
    ) by {
        assert(s[i] == name[i - p]);
    }
    lemma_run_ends(s, p, p + name.len(), CharClass::Word);
}

/// Reading a text in quotation marks gives back the text.
pub proof fn lemma_text_read_back(s: Seq<char>, p: int, t: Seq<char>)
    requires
        is_quotable(t),
        word_at(s, p, write_text(t)),
    ensures
        quoted(s, p) == Some((t, p + write_text(t).len())),
{
    let m = mark_for(t);
    let w = write_text(t);
    lemma_word_chars(s, p, w);
    let e = p + 1 + t.len();
    assert(s[p] == w[0]);
    assert(w[0] == m);
    assert(s[e] == w[e - p]);
    assert forall|i: int| p + 1 <= i < e implies #[trigger] s[i] != m by {
        assert(s[i] == w[i - p]);
        assert(w[i - p] == t[i - p - 1]);
        assert(t.contains(t[i - p - 1]));
    }
    lemma_seek_ends(s, p + 1, e, m);
    assert(s.subrange(p + 1, e) =~= t);
}

/// Blanks that are none.
pub proof fn lemma_no_blank(s: Seq<char>, p: int)
    requires
        p >= s.len() || !in_class(s[p], CharClass::Blank),
    ensures
        skip(s, p) == p,
{
}

/// Reading a node test gives back the node test.
pub proof fn lemma_test_read_back(s: Seq<char>, p: int, t: TestV)
    requires
        usual_letters(),
        is_plain_test(t),
        word_at(s, p, write_test(t)),
        stops(s, p + write_test(t).len()),
    ensures
        node_test(s, p) == Some((t, p + write_test(t).len())),
        write_test(t).len() > 0,
        !is_white(s[p]),
{
    reveal(node_test);
    let w = write_test(t);
    let q = p + w.len();
    lemma_word_chars(s, p, w);
    lemma_signatures();
    lemma_types_are_words();
    match t {
        TestV::Name(name) => {
            lemma_no_type(s, p, name);
            lemma_name_read_back(s, p, name);
            lemma_no_wildcard(s, p, name);
        },
        TestV::Wildcard => {
            reveal(type_test);
            reveal(wildcard_test);
            assert(s[p] == w[0]);
            assert(!char_is_alphanumeric('*'));
            assert(run(s, p, CharClass::Word) == p);
        },
        TestV::NamespacedName(prefix, local) => {
            let head = prefix + seq![':'];
            lemma_word_split(s, p, head, local);
            lemma_word_split(s, p, prefix, seq![':']);
            lemma_word_chars(s, p + prefix.len(), seq![':']);
            assert(s[p + prefix.len()] == ':');
            lemma_prefixed_read_back(s, p, prefix, local);
        },
        TestV::PIName(name) => {
            lemma_target_read_back(s, p, name);
        },
        _ => {
            let word = match t {
                TestV::Text => "text"@,
                TestV::Node => "node"@,
                TestV::Comment => "comment"@,
                _ => "processing-instruction"@,
            };
            reveal(type_test);
            lemma_word_split(s, p, word, seq!['(', ')']);
            let e = p + word.len();
            lemma_word_chars(s, e, seq!['(', ')']);
            assert(s[e] == seq!['(', ')'][0]);
            assert(s[e + 1] == seq!['(', ')'][1]);
            assert(!char_is_alphanumeric('('));
            lemma_word_run(s, p, word);
            lemma_no_blank(s, e);
            lemma_no_blank(s, e + 1);
            lemma_word_chars(s, p, word);
            assert(s[p] == word[0]);
        },
    }
}

proof fn lemma_target_read_back(s: Seq<char>, p: int, name: Seq<char>)
    requires
        usual_letters(),
        is_quotable(name),
        word_at(s, p, write_test(TestV::PIName(name))),
    ensures
        node_test(s, p) == Some(
            (TestV::PIName(name), p + write_test(TestV::PIName(name)).len()),
        ),
        !is_white(s[p]),
{
    reveal(node_test);
    reveal(type_test);
    let word = "processing-instruction"@;
    lemma_signatures();
    lemma_types_are_words();
    let a = word + seq!['('];
    let b = a + write_text(name);
    let e = p + word.len();
    let m = mark_for(name);
    lemma_word_split(s, p, b, seq![')']);
    lemma_word_split(s, p, a, write_text(name));
    lemma_word_split(s, p, word, seq!['(']);
    lemma_word_chars(s, e, seq!['(']);
    assert(s[e] == seq!['('][0]);
    assert(!char_is_alphanumeric('('));
    lemma_word_run(s, p, word);
    lemma_no_blank(s, e);
    let q = e + 1;
    lemma_word_chars(s, q, write_text(name));
    assert(s[q] == write_text(name)[0]);
    assert(s[q] == m);
    lemma_no_blank(s, q);
    lemma_text_read_back(s, q, name);
    let c = q + write_text(name).len();
    lemma_word_chars(s, c, seq![')']);
    assert(s[c] == seq![')'][0]);
    lemma_no_blank(s, c);
    lemma_word_chars(s, p, word);
    assert(s[p] == word[0]);
}

/// A name is no node type: no parenthesis opens behind it.
proof fn lemma_no_type(s: Seq<char>, p: int, name: Seq<char>)
    requires
        usual_letters(),
        is_plain_name(name),
        word_at(s, p, name),
        stops(s, p + name.len()) || at(s, p + name.len(), ':'),
    ensures
        type_test(s, p) is None,
{
    reveal(type_test);
    lemma_word_chars(s, p, name);
    let q = p + name.len();
    let w = run(s, p, CharClass::Word);
    lemma_run_bounded(s, p, q, CharClass::Word);
    if w < q {
        assert(s[w] == name[w - p]);
        assert(in_class(s[w], CharClass::QName));
        assert(!char_is_alphanumeric('('));
        lemma_no_blank_in_name(s[w]);
        lemma_no_blank(s, w);
        assert(s[w] != '(');
    } else if at(s, q, ':') {
        lemma_no_blank(s, q);
    }
}

/// A run does not go beyond a character that is not of its class.
pub proof fn lemma_run_bounded(s: Seq<char>, p: int, q: int, class: CharClass)
    requires
        0 <= p <= q <= s.len(),
        q < s.len() ==> !in_class(s[q], class),
    ensures
        p <= run(s, p, class) <= q,
    decreases q - p,
{
    if p < q && in_class(s[p], class) {
        lemma_run_bounded(s, p + 1, q, class);
    }
}

proof fn lemma_no_blank_in_name(c: char)
    requires
        !is_white(c),
    ensures
        !in_class(c, CharClass::Blank),
{
}

proof fn lemma_no_wildcard(s: Seq<char>, p: int, name: Seq<char>)
    requires
        usual_letters(),
        is_plain_name(name),
        word_at(s, p, name),
        stops(s, p + name.len()),
    ensures
        wildcard_test(s, p) is None,
{
    reveal(wildcard_test);
    lemma_word_chars(s, p, name);
    let q = p + name.len();
    assert(!char_is_alphanumeric('*'));
    assert(s[p] == name[0]);
    assert(in_class(name[0], CharClass::QName));
    let w = run(s, p, CharClass::Prefix);
    lemma_run_bounded(s, p, q, CharClass::Prefix);
    if w < q {
        assert(s[w] == name[w - p]);
    }
}

proof fn lemma_name_read_back(s: Seq<char>, p: int, name: Seq<char>)
    requires
        usual_letters(),
        is_plain_name(name),
        word_at(s, p, name),
        stops(s, p + name.len()),
    ensures
        name_test(s, p) == Some((TestV::Name(name), p + name.len())),
        !is_white(s[p]),
{
    reveal(name_test);
    lemma_word_chars(s, p, name);
    let q = p + name.len();
    assert forall|i: int| p <= i < q implies in_class(#[trigger] s[i], CharClass::QName) by {
        assert(s[i] == name[i - p]);
    }
    assert forall|i: int| p <= i < q implies #[trigger] s[i] != ':' by {
        assert(s[i] == name[i - p]);
    }
    lemma_run_ends(s, p, q, CharClass::QName);
    lemma_seek_passes(s, p, q, ':');
    assert(s.subrange(p, q) =~= name);
    assert(s[p] == name[0]);
}

proof fn lemma_prefixed_read_back(s: Seq<char>, p: int, prefix: Seq<char>, local: Seq<char>)
    requires
        usual_letters(),
        is_plain_test(TestV::NamespacedName(prefix, local)),
        word_at(s, p, prefix),
        at(s, p + prefix.len(), ':'),
        word_at(s, p + prefix.len() + 1, local),
        stops(s, p + prefix.len() + 1 + local.len()),
    ensures
        node_test(s, p) == Some(
            (TestV::NamespacedName(prefix, local), p + prefix.len() + 1 + local.len()),
        ),
        !is_white(s[p]),
{
    reveal(node_test);
    lemma_word_chars(s, p, prefix);
    let c = p + prefix.len();
    lemma_word_chars(s, c + 1, local);
    let q = c + 1 + local.len();
    lemma_no_type(s, p, prefix);
    assert(s[p] == prefix[0]);
    assert(!char_is_alphanumeric('*'));
    assert(!char_is_alphanumeric(':'));
    assert(in_class(prefix[0], CharClass::QName));
    assert forall|i: int| p <= i < c implies #[trigger] s[i] != ':' && in_class(
        s[i],
        CharClass::QName,
    ) by {
        assert(s[i] == prefix[i - p]);
    }
    assert(s.subrange(p, c) =~= prefix);
    assert(s.subrange(c + 1, q) =~= local);
    if local == seq!['*'] {
        reveal(wildcard_test);
        assert(s[c + 1] == local[0]);
        assert forall|i: int| p <= i < c implies in_class(#[trigger] s[i], CharClass::Prefix) by {
            assert(s[i] == prefix[i - p]);
        }
        lemma_run_ends(s, p, c, CharClass::Prefix);
    } else {
        reveal(wildcard_test);
        reveal(name_test);
        let w = run(s, p, CharClass::Prefix);
        lemma_run_bounded(s, p, c, CharClass::Prefix);
        assert(s[c + 1] == local[0]);
        assert(local[0] != '*') by {
            assert(in_class(local[0], CharClass::QName));
        }
        assert forall|i: int| p <= i < q implies in_class(#[trigger] s[i], CharClass::QName) by {
            if i > c {
                assert(s[i] == local[i - c - 1]);
            }
        }
        lemma_run_ends(s, p, q, CharClass::QName);
        lemma_seek_ends(s, p, c, ':');
    }
}

/// Reading the name of an axis, two colons and a node test gives back the axis and the
/// test.
pub proof fn lemma_head_read_back(s: Seq<char>, p: int, axis: Axis, t: TestV)
    requires
        usual_letters(),
        is_plain_test(t),
        word_at(s, p, axis_name(axis) + seq![':', ':'] + write_test(t)),
        stops(s, p + axis_name(axis).len() + 2 + write_test(t).len()),
    ensures
        step_head(s, p) == Some(
            StepHead::Test(axis, t, p + axis_name(axis).len() + 2 + write_test(t).len()),
        ),
{
    reveal(step_head);
    reveal(axis_spec);
    let name = axis_name(axis);
    let colons = seq![':', ':'];
    let w = p + name.len();
    lemma_word_split(s, p, name + colons, write_test(t));
    lemma_word_split(s, p, name, colons);
    lemma_word_chars(s, w, colons);
    assert(s[w] == colons[0] && s[w + 1] == colons[1]);
    lemma_axis_is_word(axis);
    lemma_axis_read_back(axis);
    assert(!char_is_alphanumeric(':'));
    lemma_word_run(s, p, name);
    lemma_word_chars(s, p, name);
    assert(s[p] == name[0]);
    lemma_no_blank(s, p);
    lemma_test_read_back(s, w + 2, t);
    lemma_no_blank_in_name(s[w + 2]);
    lemma_no_blank(s, w + 2);
}

} // verus!
