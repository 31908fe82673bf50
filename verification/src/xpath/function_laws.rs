//! What the core functions give, in terms of their arguments.

use vstd::prelude::*;
use crate::index::XmlIndex;
use crate::xpath::ast::{BinaryOp, ExprV};
use crate::xpath::namespaces::{lemma_name_of_hash, node_uri};
use crate::xpath::nodes::{name_hash, XPathNode, DOC_ROOT};
use crate::xpath::numbers::{Number, OpV, Oracle, ReplyV};
use crate::xpath::semantics::{
    arg, arg_nodes, call_value, element_with_id, filter_all, filtered_by, holder, holds, id_nodes,
    in_context, joined_args, kept_nodes, lang_of, local_part, node_name, selects_nodes, some_left,
    some_pair, some_right, truth, value,
};
use crate::xpath::semantics_unfold::{
    unfold_arg, unfold_arg_nodes, unfold_call, unfold_filter_all, unfold_filtered_by, unfold_holds,
    unfold_in_context, unfold_joined_args, unfold_kept_nodes, unfold_truth, unfold_value,
};
use crate::xpath::strings::{
    find_part, lang_matches, lemma_before_and_after, lemma_contains, lemma_find_part,
    lemma_normalized_words, lemma_stands_at, lemma_starts_with, spaced, stands_at, translated,
    words,
};
use crate::xpath::value_laws::{answers_with, Meaning};
use crate::xpath::values::{
    arithmetic, compare, count, number_value, string_value, string_values, text_value, truthy,
    ValueV,
};

verus! {

/// What tells the names of the functions apart: the length, the first two characters
/// and the last.
spec fn signature(name: Seq<char>) -> (nat, char, char, char) {
    (name.len(), name[0], name[1], name.last())
}

proof fn lemma_signatures()
    ensures
        signature("position"@) == (8nat, 'p', 'o', 'n'),
        signature("last"@) == (4nat, 'l', 'a', 't'),
        signature("count"@) == (5nat, 'c', 'o', 't'),
        signature("contains"@) == (8nat, 'c', 'o', 's'),
        signature("starts-with"@) == (11nat, 's', 't', 'h'),
        signature("string-length"@) == (13nat, 's', 't', 'h'),
        signature("normalize-space"@) == (15nat, 'n', 'o', 'e'),
        signature("not"@) == (3nat, 'n', 'o', 't'),
        signature("true"@) == (4nat, 't', 'r', 'e'),
        signature("false"@) == (5nat, 'f', 'a', 'e'),
        signature("name"@) == (4nat, 'n', 'a', 'e'),
        signature("local-name"@) == (10nat, 'l', 'o', 'e'),
        signature("namespace-uri"@) == (13nat, 'n', 'a', 'i'),
        signature("string"@) == (6nat, 's', 't', 'g'),
        signature("concat"@) == (6nat, 'c', 'o', 't'),
        signature("substring"@) == (9nat, 's', 'u', 'g'),
        signature("floor"@) == (5nat, 'f', 'l', 'r'),
        signature("ceiling"@) == (7nat, 'c', 'e', 'g'),
        signature("round"@) == (5nat, 'r', 'o', 'd'),
        signature("number"@) == (6nat, 'n', 'u', 'r'),
        signature("sum"@) == (3nat, 's', 'u', 'm'),
        signature("translate"@) == (9nat, 't', 'r', 'e'),
        signature("substring-before"@) == (16nat, 's', 'u', 'e'),
        signature("substring-after"@) == (15nat, 's', 'u', 'r'),
        signature("boolean"@) == (7nat, 'b', 'o', 'n'),
        signature("lang"@) == (4nat, 'l', 'a', 'g'),
        signature("id"@) == (2nat, 'i', 'd', 'd'),
{
    reveal_strlit("position");
    reveal_strlit("last");
    reveal_strlit("count");
    reveal_strlit("contains");
    reveal_strlit("starts-with");
    reveal_strlit("string-length");
    reveal_strlit("normalize-space");
    reveal_strlit("not");
    reveal_strlit("true");
    reveal_strlit("false");
    reveal_strlit("name");
    reveal_strlit("local-name");
    reveal_strlit("namespace-uri");
    reveal_strlit("string");
    reveal_strlit("concat");
    reveal_strlit("substring");
    reveal_strlit("floor");
    reveal_strlit("ceiling");
    reveal_strlit("round");
    reveal_strlit("number");
    reveal_strlit("sum");
    reveal_strlit("translate");
    reveal_strlit("substring-before");
    reveal_strlit("substring-after");
    reveal_strlit("boolean");
    reveal_strlit("lang");
    reveal_strlit("id");
}

/// The values of the arguments of a call, and what its first argument selects.
proof fn lemma_call(
    ix: XmlIndex,
    o: Oracle,
    name: Seq<char>,
    args: Seq<ExprV>,
    node: XPathNode,
    pos: usize,
    size: usize,
)
    requires
        name != "id"@,
    ensures
        value(ix, o, ExprV::Call(name, args), node, pos, size) == call_value(
            ix,
            o,
            name,
            args,
            arg(ix, o, args, 0, node, pos, size),
            arg(ix, o, args, 1, node, pos, size),
            arg(ix, o, args, 2, node, pos, size),
            joined_args(ix, o, args, node, pos, size, args.len() as int),
            arg_nodes(ix, o, args, 0, node),
            node,
            pos,
            size,
        ),
        args.len() > 0 ==> arg(ix, o, args, 0, node, pos, size) == value(
            ix,
            o,
            args[0],
            node,
            pos,
            size,
        ),
        args.len() > 1 ==> arg(ix, o, args, 1, node, pos, size) == value(
            ix,
            o,
            args[1],
            node,
            pos,
            size,
        ),
        args.len() > 2 ==> arg(ix, o, args, 2, node, pos, size) == value(
            ix,
            o,
            args[2],
            node,
            pos,
            size,
        ),
        args.len() > 0 ==> arg_nodes(ix, o, args, 0, node) == in_context(ix, o, args[0], node),
        args.len() == 0 ==> arg_nodes(ix, o, args, 0, node).len() == 0,
{
    unfold_value(ix, o, ExprV::Call(name, args), node, pos, size);
    unfold_call(ix, o, name, args, node, pos, size);
    unfold_arg(ix, o, args, 0, node, pos, size);
    unfold_arg(ix, o, args, 1, node, pos, size);
    unfold_arg(ix, o, args, 2, node, pos, size);
    unfold_arg_nodes(ix, o, args, 0, node);
}

/// The text of an argument.
pub open spec fn arg_text(
    ix: XmlIndex,
    o: Oracle,
    args: Seq<ExprV>,
    i: int,
    node: XPathNode,
    pos: usize,
    size: usize,
) -> Seq<char> {
    text_value(o, value(ix, o, args[i], node, pos, size))
}

/// The text that a function of one text is about: that of its argument, or without
/// one that of the node.
pub open spec fn subject(
    ix: XmlIndex,
    o: Oracle,
    args: Seq<ExprV>,
    node: XPathNode,
    pos: usize,
    size: usize,
) -> Seq<char> {
    if args.len() > 0 {
        arg_text(ix, o, args, 0, node, pos, size)
    } else {
        string_value(ix, node)
    }
}

/// `contains` tells whether the first text is something, the second text and something
/// more, and `starts-with` whether it is the second text and something more.
pub proof fn lemma_containment_functions(
    ix: XmlIndex,
    o: Oracle,
    args: Seq<ExprV>,
    node: XPathNode,
    pos: usize,
    size: usize,
)
    requires
        args.len() >= 2,
    ensures
        ({
            let s = arg_text(ix, o, args, 0, node, pos, size);
            let part = arg_text(ix, o, args, 1, node, pos, size);
            &&& value(ix, o, ExprV::Call("contains"@, args), node, pos, size) == ValueV::Bool(
                exists|a: Seq<char>, b: Seq<char>| s == #[trigger] (a + part + b),
            )
            &&& value(ix, o, ExprV::Call("starts-with"@, args), node, pos, size) == ValueV::Bool(
                exists|b: Seq<char>| s == #[trigger] (part + b),
            )
        }),
{
    lemma_signatures();
    let s = arg_text(ix, o, args, 0, node, pos, size);
    let part = arg_text(ix, o, args, 1, node, pos, size);
    lemma_call(ix, o, "contains"@, args, node, pos, size);
    lemma_call(ix, o, "starts-with"@, args, node, pos, size);
    reveal(call_value);
    lemma_contains(s, part);
    lemma_starts_with(s, part);
}

/// `substring-before` and `substring-after` give what stands before and after the first
/// occurrence of the second text in the first: with that text between them they make up
/// the first text, and no occurrence comes earlier. Without one both give nothing.
pub proof fn lemma_division_functions(
    ix: XmlIndex,
    o: Oracle,
    args: Seq<ExprV>,
    node: XPathNode,
    pos: usize,
    size: usize,
)
    requires
        args.len() >= 2,
    ensures
        ({
            let s = arg_text(ix, o, args, 0, node, pos, size);
            let part = arg_text(ix, o, args, 1, node, pos, size);
            value(ix, o, ExprV::Call("substring-before"@, args), node, pos, size) matches ValueV::Str(
                before,
            ) && value(ix, o, ExprV::Call("substring-after"@, args), node, pos, size) matches ValueV::Str(
                after,
            ) && {
                &&& (exists|a: Seq<char>, b: Seq<char>| s == #[trigger] (a + part + b)) ==> s
                    == before + part + after
                &&& forall|a: Seq<char>, b: Seq<char>|
                    s == #[trigger] (a + part + b) ==> before.len() <= a.len()
                &&& !(exists|a: Seq<char>, b: Seq<char>| s == #[trigger] (a + part + b))
                    ==> before.len() == 0 && after.len() == 0
            }
        }),
{
    lemma_signatures();
    let s = arg_text(ix, o, args, 0, node, pos, size);
    let part = arg_text(ix, o, args, 1, node, pos, size);
    lemma_call(ix, o, "substring-before"@, args, node, pos, size);
    lemma_call(ix, o, "substring-after"@, args, node, pos, size);
    reveal(call_value);
    lemma_before_and_after(s, part);
}

/// The functions that count: `position` and `last` tell where in how many nodes a node
/// stands, `count` how many nodes its argument selects, and `string-length` how many
/// characters a text has.
pub proof fn lemma_counting_functions(
    ix: XmlIndex,
    o: Oracle,
    args: Seq<ExprV>,
    node: XPathNode,
    pos: usize,
    size: usize,
    v: Meaning,
)
    requires
        forall|n: usize| answers_with(#[trigger] o(OpV::Count(n)), v, n as int),
    ensures
        value(ix, o, ExprV::Call("position"@, args), node, pos, size) matches ValueV::Num(n) && v(n)
            == pos,
        value(ix, o, ExprV::Call("last"@, args), node, pos, size) matches ValueV::Num(n) && v(n)
            == size,
        args.len() > 0 && in_context(ix, o, args[0], node).len() <= usize::MAX ==> (value(
            ix,
            o,
            ExprV::Call("count"@, args),
            node,
            pos,
            size,
        ) matches ValueV::Num(n) && v(n) == in_context(ix, o, args[0], node).len()),
        subject(ix, o, args, node, pos, size).len() <= usize::MAX ==> (value(
            ix,
            o,
            ExprV::Call("string-length"@, args),
            node,
            pos,
            size,
        ) matches ValueV::Num(n) && v(n) == subject(ix, o, args, node, pos, size).len()),
{
    lemma_signatures();
    lemma_call(ix, o, "position"@, args, node, pos, size);
    lemma_call(ix, o, "last"@, args, node, pos, size);
    lemma_call(ix, o, "count"@, args, node, pos, size);
    lemma_call(ix, o, "string-length"@, args, node, pos, size);
    reveal(call_value);
    assert(answers_with(o(OpV::Count(pos)), v, pos as int));
    assert(answers_with(o(OpV::Count(size)), v, size as int));
    let selected = arg_nodes(ix, o, args, 0, node);
    assert(answers_with(
        o(OpV::Count(selected.len() as usize)),
        v,
        (selected.len() as usize) as int,
    ));
    let own = subject(ix, o, args, node, pos, size);
    assert(answers_with(o(OpV::Count(own.len() as usize)), v, (own.len() as usize) as int));
}

/// `normalize-space` gives the words of a text with one blank between each two, and
/// `string` the text itself.
pub proof fn lemma_text_functions(
    ix: XmlIndex,
    o: Oracle,
    args: Seq<ExprV>,
    node: XPathNode,
    pos: usize,
    size: usize,
)
    ensures
        value(ix, o, ExprV::Call("normalize-space"@, args), node, pos, size) == ValueV::Str(
            spaced(words(subject(ix, o, args, node, pos, size), Seq::empty())),
        ),
        value(ix, o, ExprV::Call("string"@, args), node, pos, size) == ValueV::Str(
            subject(ix, o, args, node, pos, size),
        ),
{
    lemma_signatures();
    lemma_call(ix, o, "normalize-space"@, args, node, pos, size);
    lemma_call(ix, o, "string"@, args, node, pos, size);
    reveal(call_value);
    lemma_normalized_words(subject(ix, o, args, node, pos, size));
}

/// `translate` translates the first text: what it makes of two texts one after the
/// other is what it makes of each, and `lemma_translated_char` says what it makes of a
/// character.
pub proof fn lemma_translate_function(
    ix: XmlIndex,
    o: Oracle,
    args: Seq<ExprV>,
    node: XPathNode,
    pos: usize,
    size: usize,
)
    requires
        args.len() >= 3,
    ensures
        ({
            let s = arg_text(ix, o, args, 0, node, pos, size);
            value(ix, o, ExprV::Call("translate"@, args), node, pos, size) == ValueV::Str(
                translated(
                    s,
                    arg_text(ix, o, args, 1, node, pos, size),
                    arg_text(ix, o, args, 2, node, pos, size),
                    s.len() as int,
                ),
            )
        }),
{
    lemma_signatures();
    lemma_call(ix, o, "translate"@, args, node, pos, size);
    reveal(call_value);
}

/// The texts of all arguments.
pub open spec fn arg_texts(
    ix: XmlIndex,
    o: Oracle,
    args: Seq<ExprV>,
    node: XPathNode,
    pos: usize,
    size: usize,
) -> Seq<Seq<char>> {
    Seq::new(args.len(), |i: int| arg_text(ix, o, args, i, node, pos, size))
}

/// `concat` joins the texts of its arguments in order.
pub proof fn lemma_concat_function(
    ix: XmlIndex,
    o: Oracle,
    args: Seq<ExprV>,
    node: XPathNode,
    pos: usize,
    size: usize,
)
    ensures
        value(ix, o, ExprV::Call("concat"@, args), node, pos, size) == ValueV::Str(
            arg_texts(ix, o, args, node, pos, size).flatten(),
        ),
{
    lemma_signatures();
    lemma_call(ix, o, "concat"@, args, node, pos, size);
    reveal(call_value);
    let all = arg_texts(ix, o, args, node, pos, size);
    lemma_joined_args(ix, o, args, node, pos, size, args.len() as int);
    assert(all.take(args.len() as int) =~= all);
    all.lemma_flatten_and_flatten_alt_are_equivalent();
}

proof fn lemma_joined_args(
    ix: XmlIndex,
    o: Oracle,
    args: Seq<ExprV>,
    node: XPathNode,
    pos: usize,
    size: usize,
    k: int,
)
    requires
        0 <= k <= args.len(),
    ensures
        joined_args(ix, o, args, node, pos, size, k) == arg_texts(
            ix,
            o,
            args,
            node,
            pos,
            size,
        ).take(k).flatten_alt(),
    decreases k,
{
    unfold_joined_args(ix, o, args, node, pos, size, k);
    let all = arg_texts(ix, o, args, node, pos, size);
    if k == 0 {
        assert(all.take(0) =~= Seq::empty());
    } else {
        lemma_joined_args(ix, o, args, node, pos, size, k - 1);
        unfold_arg(ix, o, args, k - 1, node, pos, size);
        assert(all.take(k).drop_last() =~= all.take(k - 1));
        assert(all.take(k).last() == all[k - 1]);
    }
}

/// `substring` gives the characters that the arithmetic marks out from the start, the
/// number of the second argument, for as many as the third argument says.
pub proof fn lemma_substring_function(
    ix: XmlIndex,
    o: Oracle,
    args: Seq<ExprV>,
    node: XPathNode,
    pos: usize,
    size: usize,
    from: usize,
    to: usize,
)
    requires
        args.len() >= 2,
        ({
            let s = arg_text(ix, o, args, 0, node, pos, size);
            let start = number_value(o, value(ix, o, args[1], node, pos, size));
            let length = if args.len() >= 3 {
                Some(number_value(o, value(ix, o, args[2], node, pos, size)))
            } else {
                None
            };
            &&& from <= to <= s.len() <= usize::MAX
            &&& o(OpV::Substring(start, length, s.len() as usize)) == ReplyV::Span(from, to)
        }),
    ensures
        value(ix, o, ExprV::Call("substring"@, args), node, pos, size) matches ValueV::Str(t)
            && t.len() == to - from && forall|i: int|
            0 <= i < to - from ==> #[trigger] t[i] == arg_text(ix, o, args, 0, node, pos, size)[from
                + i],
{
    lemma_signatures();
    lemma_call(ix, o, "substring"@, args, node, pos, size);
    reveal(call_value);
}

/// The truth of an expression that selects nodes is whether there are any, that of
/// another is the truth of its value. `boolean` tells it, `not` tells the opposite, and
/// `true` and `false` are what they are called.
pub proof fn lemma_truth_functions(
    ix: XmlIndex,
    o: Oracle,
    e: ExprV,
    node: XPathNode,
    pos: usize,
    size: usize,
)
    ensures
        selects_nodes(e) ==> truth(ix, o, e, node, pos, size) == (in_context(ix, o, e, node).len()
            != 0),
        !selects_nodes(e) ==> truth(ix, o, e, node, pos, size) == truthy(
            o,
            value(ix, o, e, node, pos, size),
        ),
        value(ix, o, ExprV::Call("boolean"@, seq![e]), node, pos, size) == ValueV::Bool(
            truth(ix, o, e, node, pos, size),
        ),
        value(ix, o, ExprV::Call("not"@, seq![e]), node, pos, size) == ValueV::Bool(
            !truth(ix, o, e, node, pos, size),
        ),
        value(ix, o, ExprV::Call("true"@, Seq::empty()), node, pos, size) == ValueV::Bool(true),
        value(ix, o, ExprV::Call("false"@, Seq::empty()), node, pos, size) == ValueV::Bool(false),
{
    lemma_signatures();
    unfold_truth(ix, o, e, node, pos, size);
    lemma_call(ix, o, "boolean"@, seq![e], node, pos, size);
    lemma_call(ix, o, "not"@, seq![e], node, pos, size);
    lemma_call(ix, o, "true"@, Seq::empty(), node, pos, size);
    lemma_call(ix, o, "false"@, Seq::empty(), node, pos, size);
    reveal(call_value);
    assert(seq![e][0] == e);
}

/// The arithmetic rounds a number to whole numbers, of which `unit` stands for one.
pub open spec fn rounds(o: Oracle, v: Meaning, unit: int, a: Number) -> bool {
    &&& o(OpV::Floor(a)) matches ReplyV::Number(n) && v(n) % unit == 0 && v(n) <= v(a) < v(n) + unit
    &&& o(OpV::Ceiling(a)) matches ReplyV::Number(n) && v(n) % unit == 0 && v(n) - unit < v(a)
        <= v(n)
    &&& o(OpV::Round(a)) matches ReplyV::Number(n) && v(n) % unit == 0 && 2 * v(n) - unit <= 2 * v(
        a,
    ) < 2 * v(n) + unit
}

/// `floor` gives the whole number below, `ceiling` the one above, and `round` the
/// nearest, the upper one of two.
pub proof fn lemma_rounding_functions(
    ix: XmlIndex,
    o: Oracle,
    args: Seq<ExprV>,
    node: XPathNode,
    pos: usize,
    size: usize,
    v: Meaning,
    unit: int,
)
    requires
        args.len() > 0,
        unit > 0,
        rounds(o, v, unit, number_value(o, value(ix, o, args[0], node, pos, size))),
    ensures
        ({
            let a = v(number_value(o, value(ix, o, args[0], node, pos, size)));
            &&& value(ix, o, ExprV::Call("floor"@, args), node, pos, size) matches ValueV::Num(n)
                && v(n) % unit == 0 && v(n) <= a < v(n) + unit
            &&& value(ix, o, ExprV::Call("ceiling"@, args), node, pos, size) matches ValueV::Num(n)
                && v(n) % unit == 0 && v(n) - unit < a <= v(n)
            &&& value(ix, o, ExprV::Call("round"@, args), node, pos, size) matches ValueV::Num(n)
                && v(n) % unit == 0 && 2 * v(n) - unit <= 2 * a < 2 * v(n) + unit
        }),
{
    lemma_signatures();
    lemma_call(ix, o, "floor"@, args, node, pos, size);
    lemma_call(ix, o, "ceiling"@, args, node, pos, size);
    lemma_call(ix, o, "round"@, args, node, pos, size);
    reveal(call_value);
}

/// `number` gives the number of its argument, or the number that the text of the node
/// spells; `sum` adds up what the texts of the selected nodes spell.
pub proof fn lemma_number_functions(
    ix: XmlIndex,
    o: Oracle,
    args: Seq<ExprV>,
    node: XPathNode,
    pos: usize,
    size: usize,
    n: Number,
)
    ensures
        args.len() > 0 ==> value(ix, o, ExprV::Call("number"@, args), node, pos, size)
            == ValueV::Num(number_value(o, value(ix, o, args[0], node, pos, size))),
        args.len() == 0 && o(OpV::Parse(string_value(ix, node))) == ReplyV::Number(n) ==> value(
            ix,
            o,
            ExprV::Call("number"@, args),
            node,
            pos,
            size,
        ) == ValueV::Num(n),
        args.len() > 0 && o(OpV::Sum(string_values(ix, in_context(ix, o, args[0], node))))
            == ReplyV::Number(n) ==> value(ix, o, ExprV::Call("sum"@, args), node, pos, size)
            == ValueV::Num(n),
{
    lemma_signatures();
    lemma_call(ix, o, "number"@, args, node, pos, size);
    lemma_call(ix, o, "sum"@, args, node, pos, size);
    reveal(call_value);
}

/// A name without a colon is its own local part; another is what stands before its
/// first colon, the colon and its local part.
pub proof fn lemma_local_part(name: Seq<char>)
    ensures
        !name.contains(':') ==> local_part(name) == name,
        name.contains(':') ==> exists|prefix: Seq<char>|
            name == #[trigger] (prefix + seq![':'] + local_part(name)) && !prefix.contains(':'),
{
    reveal_strlit(":");
    let colon = ":"@;
    assert(colon =~= seq![':']);
    lemma_find_part(name, 0, colon);
    assert forall|j: int| 0 <= j < name.len() implies (#[trigger] name[j] == ':') == stands_at(
        name,
        j,
        colon,
    ) by {
        assert(colon[0] == ':' && colon.len() == 1);
        if stands_at(name, j, colon) {
            assert(colon[0] == name[j + 0]);
        }
    }
    match find_part(name, 0, colon) {
        Some(i) => {
            let prefix = name.subrange(0, i);
            assert(stands_at(name, i, colon)) by {
                lemma_stands_at(name, i, colon);
            }
            assert(name[i] == ':');
            assert(name =~= prefix + seq![':'] + local_part(name));
            assert forall|j: int| 0 <= j < prefix.len() implies prefix[j] != ':' by {
                assert(prefix[j] == name[j]);
                assert(!stands_at(name, j, colon));
            }
        },
        None => {
            assert forall|j: int| 0 <= j < name.len() implies name[j] != ':' by {
                assert(!stands_at(name, j, colon));
            }
        },
    }
}

/// `name` and `local-name` without an argument tell the name of the node and its local
/// part; with one they tell those of the first node that it selects, and nothing when
/// there is none. `namespace-uri` tells the namespace of the same node.
pub proof fn lemma_name_functions(
    ix: XmlIndex,
    o: Oracle,
    args: Seq<ExprV>,
    node: XPathNode,
    pos: usize,
    size: usize,
)
    ensures
        ({
            let none = Seq::<char>::empty();
            let found = if args.len() == 0 {
                seq![node]
            } else {
                in_context(ix, o, args[0], node)
            };
            &&& value(ix, o, ExprV::Call("name"@, args), node, pos, size) == ValueV::Str(
                if found.len() > 0 {
                    node_name(ix, found[0])
                } else {
                    none
                },
            )
            &&& value(ix, o, ExprV::Call("local-name"@, args), node, pos, size) == ValueV::Str(
                if found.len() > 0 {
                    local_part(node_name(ix, found[0]))
                } else {
                    none
                },
            )
            &&& value(ix, o, ExprV::Call("namespace-uri"@, args), node, pos, size) == ValueV::Str(
                if found.len() > 0 {
                    node_uri(ix, found[0])
                } else {
                    none
                },
            )
        }),
{
    lemma_signatures();
    lemma_call(ix, o, "name"@, args, node, pos, size);
    lemma_call(ix, o, "local-name"@, args, node, pos, size);
    lemma_call(ix, o, "namespace-uri"@, args, node, pos, size);
    reveal(call_value);
    let none = Seq::<char>::empty();
    lemma_local_part(none);
    assert(!none.contains(':'));
}

/// The language of a tag is the `xml:lang` of the tag, or without one the language of
/// its parent.
pub proof fn lemma_language(ix: XmlIndex, tag: int)
    requires
        ix.wf(),
        0 <= tag < ix.tags(),
    ensures
        forall|t: Seq<char>| #[trigger]
            ix.attribute(tag, "xml:lang"@) == Some(t) ==> lang_of(ix, tag) == Some(t),
        ix.attribute(tag, "xml:lang"@) is None ==> lang_of(ix, tag) == (if ix.parents@[tag]
            == u32::MAX {
            None
        } else {
            lang_of(ix, ix.parents@[tag] as int)
        }),
{
    assert(ix.doc().parents[tag] == ix.parents@[tag]);
}

/// `lang` tells whether the language of the node matches the wanted one: see
/// `lemma_lang_matches` and `lemma_language`.
pub proof fn lemma_lang_function(
    ix: XmlIndex,
    o: Oracle,
    args: Seq<ExprV>,
    node: XPathNode,
    pos: usize,
    size: usize,
)
    requires
        args.len() > 0,
    ensures
        ({
            let wanted = arg_text(ix, o, args, 0, node, pos, size);
            value(ix, o, ExprV::Call("lang"@, args), node, pos, size) == ValueV::Bool(
                wanted.len() > 0 && (lang_of(ix, holder(ix, node)) matches Some(l) && lang_matches(
                    l,
                    wanted,
                )),
            )
        }),
{
    lemma_signatures();
    lemma_call(ix, o, "lang"@, args, node, pos, size);
    reveal(call_value);
}

/// `id` with a text selects the first element whose attribute `id` reads so, and
/// nothing when there is none.
pub proof fn lemma_id_function(ix: XmlIndex, o: Oracle, id: Seq<char>, node: XPathNode)
    requires
        ix.tags() <= usize::MAX,
    ensures
        ({
            let found = in_context(ix, o, ExprV::Call("id"@, seq![ExprV::Str(id)]), node);
            &&& found.len() <= 1
            &&& found.len() == 1 ==> (found[0] matches XPathNode::Element(i) && i < ix.tags()
                && ix.element(i as int) && ix.attribute(i as int, "id"@) == Some(id) && forall|
                j: int,
            |
                0 <= j < i && #[trigger] ix.element(j) ==> ix.attribute(j, "id"@) != Some(id))
            &&& found.len() == 0 ==> forall|j: int|
                0 <= j < ix.tags() && #[trigger] ix.element(j) ==> ix.attribute(j, "id"@) != Some(
                    id,
                )
        }),
{
    let args = seq![ExprV::Str(id)];
    unfold_in_context(ix, o, ExprV::Call("id"@, args), node);
    assert(args[0] == ExprV::Str(id));
    assert(id_nodes(ix, args) == element_with_id(ix, id, 0));
    lemma_element_with_id(ix, id, 0);
}

proof fn lemma_element_with_id(ix: XmlIndex, id: Seq<char>, k: int)
    requires
        0 <= k,
        ix.tags() <= usize::MAX,
    ensures
        ({
            let found = element_with_id(ix, id, k);
            &&& found.len() <= 1
            &&& found.len() == 1 ==> (found[0] matches XPathNode::Element(i) && k <= i < ix.tags()
                && ix.element(i as int) && ix.attribute(i as int, "id"@) == Some(id) && forall|
                j: int,
            |
                k <= j < i && #[trigger] ix.element(j) ==> ix.attribute(j, "id"@) != Some(id))
            &&& found.len() == 0 ==> forall|j: int|
                k <= j < ix.tags() && #[trigger] ix.element(j) ==> ix.attribute(j, "id"@) != Some(
                    id,
                )
        }),
    decreases ix.tags() - k,
{
    if k < ix.tags() && !(ix.element(k) && ix.attribute(k, "id"@) == Some(id)) {
        lemma_element_with_id(ix, id, k + 1);
    }
}

/// The value of an expression with an operator: `and` and `or` connect the truth of the
/// sides; comparisons compare the nodes that a side selects, or its value; arithmetic
/// goes by the values.
pub proof fn lemma_operator_values(
    ix: XmlIndex,
    o: Oracle,
    l: ExprV,
    op: BinaryOp,
    r: ExprV,
    node: XPathNode,
    pos: usize,
    size: usize,
)
    ensures
        ({
            let it = value(ix, o, ExprV::Binary(Box::new(l), op, Box::new(r)), node, pos, size);
            let a = value(ix, o, l, node, pos, size);
            let b = value(ix, o, r, node, pos, size);
            let p = truth(ix, o, l, node, pos, size);
            let q = truth(ix, o, r, node, pos, size);
            let left = in_context(ix, o, l, node);
            let right = in_context(ix, o, r, node);
            match op {
                BinaryOp::Or => it == ValueV::Bool(!(!p && !q)),
                BinaryOp::And => it == ValueV::Bool(!(!p || !q)),
                BinaryOp::Add => it == ValueV::Num(arithmetic(o, a, op, b)->0),
                BinaryOp::Sub => it == ValueV::Num(arithmetic(o, a, op, b)->0),
                BinaryOp::Mul => it == ValueV::Num(arithmetic(o, a, op, b)->0),
                BinaryOp::Div => it == ValueV::Num(arithmetic(o, a, op, b)->0),
                BinaryOp::Mod => it == ValueV::Num(arithmetic(o, a, op, b)->0),
                _ => {
                    &&& !selects_nodes(l) && !selects_nodes(r) ==> it == ValueV::Bool(
                        compare(o, a, op, b),
                    )
                    &&& selects_nodes(l) && !selects_nodes(r) ==> it == ValueV::Bool(
                        some_left(ix, o, left, op, b),
                    )
                    &&& !selects_nodes(l) && selects_nodes(r) ==> it == ValueV::Bool(
                        some_right(ix, o, a, op, right),
                    )
                    &&& selects_nodes(l) && selects_nodes(r) ==> it == ValueV::Bool(
                        some_pair(ix, o, left, op, right),
                    )
                },
            }
        }),
{
    unfold_value(ix, o, ExprV::Binary(Box::new(l), op, Box::new(r)), node, pos, size);
}

/// A minus sign negates: where the arithmetic negates, the value stands for the negated
/// integer.
pub proof fn lemma_minus_negates(
    ix: XmlIndex,
    o: Oracle,
    e: ExprV,
    node: XPathNode,
    pos: usize,
    size: usize,
    v: Meaning,
)
    requires
        ({
            let a = number_value(o, value(ix, o, e, node, pos, size));
            answers_with(o(OpV::Negate(a)), v, -v(a))
        }),
    ensures
        value(ix, o, ExprV::Minus(Box::new(e)), node, pos, size) matches ValueV::Num(n) && v(n)
            == -v(number_value(o, value(ix, o, e, node, pos, size))),
{
    unfold_value(ix, o, ExprV::Minus(Box::new(e)), node, pos, size);
}

/// A number as a predicate keeps the node at its position, counted from one, and no
/// other; with no node at that position it keeps none.
pub proof fn lemma_number_predicate(
    ix: XmlIndex,
    o: Oracle,
    t: Seq<char>,
    nodes: Seq<XPathNode>,
    v: Meaning,
    n: Number,
)
    requires
        nodes.len() <= usize::MAX,
        o(OpV::Parse(t)) == ReplyV::Number(n),
        o(OpV::Position(n, nodes.len() as usize)) == ReplyV::Index(
            if 1 <= v(n) <= nodes.len() {
                Some((v(n) - 1) as usize)
            } else {
                None
            },
        ),
    ensures
        filtered_by(ix, o, ExprV::Num(t), nodes) == (if 1 <= v(n) <= nodes.len() {
            seq![nodes[v(n) - 1]]
        } else {
            Seq::empty()
        }),
{
    unfold_filtered_by(ix, o, ExprV::Num(t), nodes);
}

/// Any other predicate keeps the nodes for which it holds, each at its position,
/// counted from one, among all: `at` tells where the kept nodes stood.
pub proof fn lemma_predicate_keeps(ix: XmlIndex, o: Oracle, pred: ExprV, nodes: Seq<XPathNode>) -> (at:
    Seq<int>)
    requires
        !(pred is Num),
    ensures
        at.len() == filtered_by(ix, o, pred, nodes).len(),
        forall|i: int|
            0 <= i < at.len() ==> 0 <= #[trigger] at[i] < nodes.len() && filtered_by(
                ix,
                o,
                pred,
                nodes,
            )[i] == nodes[at[i]],
        forall|i: int, j: int| 0 <= i < j < at.len() ==> at[i] < at[j],
        forall|i: int|
            0 <= i < nodes.len() ==> (at.contains(i) <==> holds(
                ix,
                o,
                pred,
                #[trigger] nodes[i],
                (i + 1) as usize,
                nodes.len() as usize,
            )),
{
    unfold_filtered_by(ix, o, pred, nodes);
    lemma_kept_nodes(ix, o, pred, nodes, nodes.len() as int)
}

proof fn lemma_kept_nodes(
    ix: XmlIndex,
    o: Oracle,
    pred: ExprV,
    nodes: Seq<XPathNode>,
    k: int,
) -> (at: Seq<int>)
    requires
        0 <= k <= nodes.len(),
    ensures
        at.len() == kept_nodes(ix, o, pred, nodes, k).len(),
        forall|i: int|
            0 <= i < at.len() ==> 0 <= #[trigger] at[i] < k && kept_nodes(ix, o, pred, nodes, k)[i]
                == nodes[at[i]],
        forall|i: int, j: int| 0 <= i < j < at.len() ==> at[i] < at[j],
        forall|i: int|
            0 <= i < k ==> (at.contains(i) <==> holds(
                ix,
                o,
                pred,
                #[trigger] nodes[i],
                (i + 1) as usize,
                nodes.len() as usize,
            )),
    decreases k,
{
    unfold_kept_nodes(ix, o, pred, nodes, k);
    if k == 0 {
        Seq::empty()
    } else {
        let before = lemma_kept_nodes(ix, o, pred, nodes, k - 1);
        assert(!before.contains(k - 1));
        if holds(ix, o, pred, nodes[k - 1], k as usize, nodes.len() as usize) {
            let at = before.push(k - 1);
            assert forall|i: int| 0 <= i < k implies (at.contains(i) <==> holds(
                ix,
                o,
                pred,
                #[trigger] nodes[i],
                (i + 1) as usize,
                nodes.len() as usize,
            )) by {
                if i == k - 1 {
                    assert(at[before.len() as int] == i);
                } else {
                    if before.contains(i) {
                        let w = choose|w: int| 0 <= w < before.len() && before[w] == i;
                        assert(at[w] == i);
                    }
                    if at.contains(i) {
                        let w = choose|w: int| 0 <= w < at.len() && at[w] == i;
                        assert(before[w] == i);
                    }
                }
            }
            at
        } else {
            before
        }
    }
}

/// Whether a predicate holds: one that selects nodes when it selects some, a number
/// when it equals the position, and any other by its truth.
pub proof fn lemma_predicate_holds(
    ix: XmlIndex,
    o: Oracle,
    pred: ExprV,
    node: XPathNode,
    pos: usize,
    size: usize,
    here: Number,
)
    requires
        o(OpV::Count(pos)) == ReplyV::Number(here),
    ensures
        selects_nodes(pred) ==> (holds(ix, o, pred, node, pos, size) <==> in_context(
            ix,
            o,
            pred,
            node,
        ).len() != 0),
        !selects_nodes(pred) ==> match value(ix, o, pred, node, pos, size) {
            ValueV::Num(n) => holds(ix, o, pred, node, pos, size) <==> compare(
                o,
                ValueV::Num(here),
                BinaryOp::Eq,
                ValueV::Num(n),
            ),
            ValueV::Str(t) => holds(ix, o, pred, node, pos, size) <==> t.len() > 0,
            ValueV::Bool(b) => holds(ix, o, pred, node, pos, size) <==> b,
        },
{
    unfold_holds(ix, o, pred, node, pos, size);
}

/// Predicates apply one after the other, each to what those before it have kept.
pub proof fn lemma_predicates_in_turn(
    ix: XmlIndex,
    o: Oracle,
    preds: Seq<ExprV>,
    last: ExprV,
    nodes: Seq<XPathNode>,
)
    ensures
        filter_all(ix, o, Seq::empty(), 0, nodes) == nodes,
        filter_all(ix, o, preds.push(last), (preds.len() + 1) as int, nodes) == filtered_by(
            ix,
            o,
            last,
            filter_all(ix, o, preds, preds.len() as int, nodes),
        ),
{
    let all = preds.push(last);
    unfold_filter_all(ix, o, Seq::empty(), 0, nodes);
    unfold_filter_all(ix, o, all, (preds.len() + 1) as int, nodes);
    assert(all[preds.len() as int] == last);
    lemma_first_predicates(ix, o, preds, all, preds.len() as int, nodes);
}

proof fn lemma_first_predicates(
    ix: XmlIndex,
    o: Oracle,
    a: Seq<ExprV>,
    b: Seq<ExprV>,
    k: int,
    nodes: Seq<XPathNode>,
)
    requires
        0 <= k <= a.len(),
        k <= b.len(),
        forall|i: int| 0 <= i < k ==> a[i] == b[i],
    ensures
        filter_all(ix, o, a, k, nodes) == filter_all(ix, o, b, k, nodes),
    decreases k,
{
    unfold_filter_all(ix, o, a, k, nodes);
    unfold_filter_all(ix, o, b, k, nodes);
    if k > 0 {
        lemma_first_predicates(ix, o, a, b, k - 1, nodes);
    }
}

/// Literals: a text is itself, and a number the one that it spells.
pub proof fn lemma_literals(
    ix: XmlIndex,
    o: Oracle,
    t: Seq<char>,
    n: Number,
    node: XPathNode,
    pos: usize,
    size: usize,
)
    ensures
        value(ix, o, ExprV::Str(t), node, pos, size) == ValueV::Str(t),
        o(OpV::Parse(t)) == ReplyV::Number(n) ==> value(ix, o, ExprV::Num(t), node, pos, size)
            == ValueV::Num(n),
{
    unfold_value(ix, o, ExprV::Str(t), node, pos, size);
    unfold_value(ix, o, ExprV::Num(t), node, pos, size);
}

/// The value of an expression that selects nodes is the text of the first of them, and
/// an empty text when there are none.
pub proof fn lemma_value_of_nodes(
    ix: XmlIndex,
    o: Oracle,
    e: ExprV,
    node: XPathNode,
    pos: usize,
    size: usize,
)
    requires
        selects_nodes(e),
    ensures
        ({
            let found = in_context(ix, o, e, node);
            &&& found.len() > 0 ==> value(ix, o, e, node, pos, size) == ValueV::Str(
                string_value(ix, found[0]),
            )
            &&& found.len() == 0 ==> value(ix, o, e, node, pos, size) == ValueV::Str(Seq::empty())
        }),
{
    unfold_value(ix, o, e, node, pos, size);
}

/// Location paths, unions, filters and calls of `id` select nodes; other expressions do
/// not.
pub proof fn lemma_what_selects(e: ExprV)
    ensures
        e is Path || e is Union || e is FilterPath || e is GlobalFilter ==> selects_nodes(e),
        e is Str || e is Num || e is Binary || e is Minus ==> !selects_nodes(e),
        e matches ExprV::Call(name, _) ==> (selects_nodes(e) <==> name == seq!['i', 'd']),
{
    reveal_strlit("id");
    assert("id"@ =~= seq!['i', 'd']);
}

/// The name of a tag is what its entry tells, that of an attribute is the one that its
/// hash was made of, as long as no other of the tag has the same; the document root and
/// texts have none.
pub proof fn lemma_names_of_nodes(ix: XmlIndex, i: usize, t: usize, name: Seq<char>)
    requires
        i < ix.tags(),
    ensures
        node_name(ix, XPathNode::Element(i)) == ix.name_text(i as int),
        node_name(ix, XPathNode::Element(DOC_ROOT)).len() == 0,
        node_name(ix, XPathNode::Text(t)).len() == 0,
        ix.attribute_names(i as int).contains(name) && (forall|k: int|
            0 <= k < ix.attribute_names(i as int).len() ==> name_hash(
                #[trigger] ix.attribute_names(i as int)[k],
            ) == name_hash(name) ==> ix.attribute_names(i as int)[k] == name) ==> node_name(
            ix,
            XPathNode::Attribute(i, name_hash(name)),
        ) == name,
{
    assert(ix.tags() == ix.tag_starts.len());
    let names = ix.attribute_names(i as int);
    if names.contains(name) && (forall|k: int|
        0 <= k < names.len() ==> name_hash(#[trigger] names[k]) == name_hash(name) ==> names[k]
            == name) {
        let w = choose|w: int| 0 <= w < names.len() && names[w] == name;
        assert(names[w] == name);
        lemma_name_of_hash(names, name, 0);
    }
}

/// The tag that decides the language of a node: the tag itself, that of an attribute or
/// a namespace, or the parent of a text.
pub proof fn lemma_holders(ix: XmlIndex, i: usize, h: u64)
    ensures
        holder(ix, XPathNode::Element(i)) == i,
        holder(ix, XPathNode::Attribute(i, h)) == i,
        holder(ix, XPathNode::Namespace(i, h)) == i,
        holder(ix, XPathNode::Text(i)) == ix.text_ranges@[i as int].parent_tag,
{
}

} // verus!
