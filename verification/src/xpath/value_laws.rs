//! What comparisons, connectives and arithmetic on values mean.

use vstd::prelude::*;
use crate::index::XmlIndex;
use crate::xpath::ast::BinaryOp;
use crate::xpath::eval::StandaloneResult;
use crate::xpath::nodes::XPathNode;
use crate::xpath::numbers::{Number, OpV, Oracle, ReplyV};
use crate::xpath::semantics::{some_left, some_pair, some_right};
use crate::xpath::values::{
    arithmetic, compare, number_value, string_value, text_value, truthy, ValueV, XPathValue,
};

verus! {

/// What integers the numbers stand for.
pub type Meaning = spec_fn(Number) -> int;

/// The arithmetic compares two numbers as the integers that they stand for.
pub open spec fn compares(o: Oracle, v: Meaning, a: Number, b: Number) -> bool {
    &&& o(OpV::Less(a, b)) == ReplyV::Flag(v(a) < v(b))
    &&& o(OpV::LessOrEqual(a, b)) == ReplyV::Flag(v(a) <= v(b))
    &&& o(OpV::Equal(a, b)) == ReplyV::Flag(v(a) == v(b))
}

/// Comparing two numbers, in either order, is comparing what they stand for.
pub proof fn lemma_numbers_compared(o: Oracle, v: Meaning, a: Number, b: Number)
    requires
        compares(o, v, a, b),
        compares(o, v, b, a),
    ensures
        compare(o, ValueV::Num(a), BinaryOp::Lt, ValueV::Num(b)) <==> v(a) < v(b),
        compare(o, ValueV::Num(a), BinaryOp::Lte, ValueV::Num(b)) <==> v(a) <= v(b),
        compare(o, ValueV::Num(a), BinaryOp::Gt, ValueV::Num(b)) <==> v(a) > v(b),
        compare(o, ValueV::Num(a), BinaryOp::Gte, ValueV::Num(b)) <==> v(a) >= v(b),
        compare(o, ValueV::Num(a), BinaryOp::Eq, ValueV::Num(b)) <==> v(a) == v(b),
        compare(o, ValueV::Num(a), BinaryOp::Neq, ValueV::Num(b)) <==> v(a) != v(b),
{
}

/// The order comparisons mirror each other: one value is above another exactly when
/// the other is below it.
pub proof fn lemma_order_mirrored(o: Oracle, a: ValueV, b: ValueV)
    ensures
        compare(o, a, BinaryOp::Gte, b) == compare(o, b, BinaryOp::Lte, a),
        compare(o, a, BinaryOp::Gt, b) == compare(o, b, BinaryOp::Lt, a),
{
}

/// The order comparisons are comparisons of numbers: a text counts as the number that
/// it spells, and a truth value as the number 1 or 0.
pub proof fn lemma_order_by_number(o: Oracle, a: ValueV, op: BinaryOp, b: ValueV, n: Number)
    requires
        op == BinaryOp::Lt || op == BinaryOp::Lte || op == BinaryOp::Gt || op == BinaryOp::Gte,
        match a {
            ValueV::Num(m) => n == m,
            ValueV::Str(t) => o(OpV::Parse(t)) == ReplyV::Number(n),
            ValueV::Bool(true) => o(OpV::Count(1)) == ReplyV::Number(n),
            ValueV::Bool(false) => o(OpV::Count(0)) == ReplyV::Number(n),
        },
    ensures
        compare(o, a, op, b) == compare(o, ValueV::Num(n), op, b),
        compare(o, b, op, a) == compare(o, b, op, ValueV::Num(n)),
{
}

/// Texts are equal when they read the same, truth values when they are the same, and a
/// value equals a truth value when it has that truth. A number equals a text that
/// spells an equal number.
pub proof fn lemma_equality(o: Oracle, s: Seq<char>, t: Seq<char>, a: ValueV, b: bool, n: Number, m: Number)
    requires
        o(OpV::Parse(t)) == ReplyV::Number(m),
    ensures
        compare(o, ValueV::Str(s), BinaryOp::Eq, ValueV::Str(t)) <==> s == t,
        compare(o, a, BinaryOp::Eq, ValueV::Bool(b)) <==> truthy(o, a) == b,
        compare(o, ValueV::Bool(b), BinaryOp::Eq, a) <==> truthy(o, a) == b,
        compare(o, ValueV::Num(n), BinaryOp::Eq, ValueV::Str(t)) == compare(
            o,
            ValueV::Num(n),
            BinaryOp::Eq,
            ValueV::Num(m),
        ),
        compare(o, ValueV::Str(t), BinaryOp::Eq, ValueV::Num(n)) == compare(
            o,
            ValueV::Num(m),
            BinaryOp::Eq,
            ValueV::Num(n),
        ),
{
}

/// Two values are either equal or unequal.
pub proof fn lemma_unequal(o: Oracle, a: ValueV, b: ValueV)
    ensures
        compare(o, a, BinaryOp::Neq, b) <==> !compare(o, a, BinaryOp::Eq, b),
{
}

/// Equality does not depend on the side, where the arithmetic finds equal numbers
/// equal from both sides.
pub proof fn lemma_equality_symmetric(o: Oracle, a: ValueV, b: ValueV)
    requires
        forall|n: Number, m: Number| #[trigger] o(OpV::Equal(n, m)) == o(OpV::Equal(m, n)),
    ensures
        compare(o, a, BinaryOp::Eq, b) == compare(o, b, BinaryOp::Eq, a),
        compare(o, a, BinaryOp::Neq, b) == compare(o, b, BinaryOp::Neq, a),
{
    let n = number_value(o, a);
    let m = number_value(o, b);
    assert(o(OpV::Equal(n, m)) == o(OpV::Equal(m, n)));
}

/// The truth of values: a text is true unless it is empty, a truth value is itself, and
/// a number is true when the arithmetic finds it so.
pub proof fn lemma_truth_of_values(o: Oracle, t: Seq<char>, b: bool, n: Number)
    ensures
        truthy(o, ValueV::Str(t)) <==> t.len() != 0,
        truthy(o, ValueV::Bool(b)) <==> b,
        truthy(o, ValueV::Num(n)) <==> o(OpV::IsTruthy(n)) == ReplyV::Flag(true),
{
}

/// The connectives are those of the truth of the two values, and obey De Morgan's law.
pub proof fn lemma_connectives(o: Oracle, a: ValueV, b: ValueV)
    ensures
        compare(o, a, BinaryOp::And, b) == compare(o, b, BinaryOp::And, a),
        compare(o, a, BinaryOp::Or, b) == compare(o, b, BinaryOp::Or, a),
        compare(o, a, BinaryOp::And, ValueV::Bool(true)) == truthy(o, a),
        !compare(o, a, BinaryOp::And, ValueV::Bool(false)),
        compare(o, a, BinaryOp::Or, ValueV::Bool(false)) == truthy(o, a),
        compare(o, a, BinaryOp::Or, ValueV::Bool(true)),
        !compare(o, a, BinaryOp::Or, b) <==> compare(
            o,
            ValueV::Bool(!truthy(o, a)),
            BinaryOp::And,
            ValueV::Bool(!truthy(o, b)),
        ),
{
}

/// The texts of values: a text is itself, a truth value is its name, and a number is
/// what the arithmetic writes for it.
pub proof fn lemma_texts_of_values(o: Oracle, t: Seq<char>, n: Number, written: Seq<char>)
    requires
        o(OpV::Format(n)) == ReplyV::Text(written),
    ensures
        text_value(o, ValueV::Str(t)) == t,
        text_value(o, ValueV::Num(n)) == written,
        text_value(o, ValueV::Bool(true)) == seq!['t', 'r', 'u', 'e'],
        text_value(o, ValueV::Bool(false)) == seq!['f', 'a', 'l', 's', 'e'],
{
    reveal_strlit("true");
    reveal_strlit("false");
    assert("true"@ =~= seq!['t', 'r', 'u', 'e']);
    assert("false"@ =~= seq!['f', 'a', 'l', 's', 'e']);
}

/// The numbers of values: a number is itself, a text is the number that it spells, and
/// a truth value is 1 or 0.
pub proof fn lemma_numbers_of_values(o: Oracle, v: Meaning, t: Seq<char>, n: Number, b: bool)
    requires
        forall|k: usize| k <= 1 ==> (#[trigger] o(OpV::Count(k)) matches ReplyV::Number(m) && v(m) == k),
    ensures
        number_value(o, ValueV::Num(n)) == n,
        o(OpV::Parse(t)) == ReplyV::Number(n) ==> number_value(o, ValueV::Str(t)) == n,
        v(number_value(o, ValueV::Bool(b))) == (if b {
            1int
        } else {
            0int
        }),
{
    assert(o(OpV::Count(1)) matches ReplyV::Number(m) && v(m) == 1);
    assert(o(OpV::Count(0)) matches ReplyV::Number(m) && v(m) == 0);
}

/// The number in an answer stands for this integer.
pub open spec fn answers_with(r: ReplyV, v: Meaning, x: int) -> bool {
    r matches ReplyV::Number(n) && v(n) == x
}

/// The arithmetic reckons with two numbers as with the integers that they stand for.
pub open spec fn reckons(o: Oracle, v: Meaning, a: Number, b: Number) -> bool {
    &&& answers_with(o(OpV::Add(a, b)), v, v(a) + v(b))
    &&& answers_with(o(OpV::Subtract(a, b)), v, v(a) - v(b))
    &&& answers_with(o(OpV::Multiply(a, b)), v, v(a) * v(b))
    &&& v(b) > 0 && v(a) >= 0 ==> answers_with(o(OpV::Remainder(a, b)), v, v(a) % v(b))
    &&& v(b) > 0 && v(a) % v(b) == 0 ==> answers_with(o(OpV::Divide(a, b)), v, v(a) / v(b))
}

/// The arithmetic operators reckon with the numbers of the values, the left one first.
pub proof fn lemma_operators_reckon(o: Oracle, v: Meaning, l: ValueV, r: ValueV)
    requires
        reckons(o, v, number_value(o, l), number_value(o, r)),
    ensures
        ({
            let a = v(number_value(o, l));
            let b = v(number_value(o, r));
            &&& arithmetic(o, l, BinaryOp::Add, r) matches Some(n) && v(n) == a + b
            &&& arithmetic(o, l, BinaryOp::Sub, r) matches Some(n) && v(n) == a - b
            &&& arithmetic(o, l, BinaryOp::Mul, r) matches Some(n) && v(n) == a * b
            &&& b > 0 && a >= 0 ==> (arithmetic(o, l, BinaryOp::Mod, r) matches Some(n) && v(n) == a
                % b)
            &&& b > 0 && a % b == 0 ==> (arithmetic(o, l, BinaryOp::Div, r) matches Some(n) && v(n)
                == a / b)
        }),
{
}

/// The comparison with its sides exchanged.
pub open spec fn exchanged(op: BinaryOp) -> BinaryOp {
    match op {
        BinaryOp::Lt => BinaryOp::Gt,
        BinaryOp::Gt => BinaryOp::Lt,
        BinaryOp::Lte => BinaryOp::Gte,
        BinaryOp::Gte => BinaryOp::Lte,
        other => other,
    }
}

/// A comparison with a set of nodes holds when it holds of some node: of no node when
/// there are none, of the text of the node when there is one, and of two sets together
/// when it holds of one of them.
pub proof fn lemma_some_node_compared(
    ix: XmlIndex,
    o: Oracle,
    a: Seq<XPathNode>,
    b: Seq<XPathNode>,
    x: XPathNode,
    op: BinaryOp,
    r: ValueV,
)
    requires
        !(r is Bool),
    ensures
        !some_left(ix, o, Seq::empty(), op, r),
        !some_right(ix, o, r, op, Seq::empty()),
        some_left(ix, o, seq![x], op, r) == compare(o, ValueV::Str(string_value(ix, x)), op, r),
        some_right(ix, o, r, op, seq![x]) == compare(o, r, op, ValueV::Str(string_value(ix, x))),
        some_left(ix, o, a + b, op, r) == (some_left(ix, o, a, op, r) || some_left(ix, o, b, op, r)),
        some_right(ix, o, r, op, a + b) == (some_right(ix, o, r, op, a) || some_right(
            ix,
            o,
            r,
            op,
            b,
        )),
{
    let one = seq![x];
    assert(one[0] == x);
    let both = a + b;
    assert forall|i: int| 0 <= i < a.len() implies a[i] == both[i] by {}
    assert forall|i: int| 0 <= i < b.len() implies b[i] == both[a.len() + i] by {}
    assert forall|i: int| 0 <= i < both.len() implies both[i] == if i < a.len() {
        a[i]
    } else {
        b[i - a.len()]
    } by {}
    lemma_left_text_joined(ix, o, a, b, op, r);
    lemma_right_text_joined(ix, o, a, b, op, r);
}

proof fn lemma_left_text_joined(
    ix: XmlIndex,
    o: Oracle,
    a: Seq<XPathNode>,
    b: Seq<XPathNode>,
    op: BinaryOp,
    r: ValueV,
)
    requires
        !(r is Bool),
    ensures
        some_left(ix, o, a + b, op, r) == (some_left(ix, o, a, op, r) || some_left(ix, o, b, op, r)),
{
    let both = a + b;
    if some_left(ix, o, both, op, r) {
        let i = choose|i: int|
            0 <= i < both.len() && compare(
                o,
                ValueV::Str(string_value(ix, #[trigger] both[i])),
                op,
                r,
            );
        if i < a.len() {
            assert(both[i] == a[i]);
        } else {
            assert(both[i] == b[i - a.len()]);
        }
    }
    if some_left(ix, o, a, op, r) {
        let i = choose|i: int|
            0 <= i < a.len() && compare(o, ValueV::Str(string_value(ix, #[trigger] a[i])), op, r);
        assert(both[i] == a[i]);
    }
    if some_left(ix, o, b, op, r) {
        let i = choose|i: int|
            0 <= i < b.len() && compare(o, ValueV::Str(string_value(ix, #[trigger] b[i])), op, r);
        assert(both[a.len() + i] == b[i]);
    }
}

proof fn lemma_right_text_joined(
    ix: XmlIndex,
    o: Oracle,
    a: Seq<XPathNode>,
    b: Seq<XPathNode>,
    op: BinaryOp,
    r: ValueV,
)
    requires
        !(r is Bool),
    ensures
        some_right(ix, o, r, op, a + b) == (some_right(ix, o, r, op, a) || some_right(
            ix,
            o,
            r,
            op,
            b,
        )),
{
    let both = a + b;
    if some_right(ix, o, r, op, both) {
        let i = choose|i: int|
            0 <= i < both.len() && compare(
                o,
                r,
                op,
                ValueV::Str(string_value(ix, #[trigger] both[i])),
            );
        if i < a.len() {
            assert(both[i] == a[i]);
        } else {
            assert(both[i] == b[i - a.len()]);
        }
    }
    if some_right(ix, o, r, op, a) {
        let i = choose|i: int|
            0 <= i < a.len() && compare(o, r, op, ValueV::Str(string_value(ix, #[trigger] a[i])));
        assert(both[i] == a[i]);
    }
    if some_right(ix, o, r, op, b) {
        let i = choose|i: int|
            0 <= i < b.len() && compare(o, r, op, ValueV::Str(string_value(ix, #[trigger] b[i])));
        assert(both[a.len() + i] == b[i]);
    }
}

/// A set of nodes compares with a truth value by whether there are nodes.
pub proof fn lemma_nodes_and_truth(ix: XmlIndex, o: Oracle, nodes: Seq<XPathNode>, b: bool)
    ensures
        some_left(ix, o, nodes, BinaryOp::Eq, ValueV::Bool(b)) <==> (nodes.len() > 0) == b,
        some_right(ix, o, ValueV::Bool(b), BinaryOp::Eq, nodes) <==> (nodes.len() > 0) == b,
        some_left(ix, o, nodes, BinaryOp::Neq, ValueV::Bool(b)) <==> (nodes.len() > 0) != b,
        some_right(ix, o, ValueV::Bool(b), BinaryOp::Neq, nodes) <==> (nodes.len() > 0) != b,
{
}

/// Two sets of nodes compare when some node of the one compares with some node of the
/// other.
pub proof fn lemma_some_pair_compared(
    ix: XmlIndex,
    o: Oracle,
    left: Seq<XPathNode>,
    right: Seq<XPathNode>,
    op: BinaryOp,
)
    ensures
        some_pair(ix, o, left, op, right) <==> exists|x: XPathNode, y: XPathNode|
            left.contains(x) && right.contains(y) && #[trigger] compare(
                o,
                ValueV::Str(string_value(ix, x)),
                op,
                ValueV::Str(string_value(ix, y)),
            ),
{
    if some_pair(ix, o, left, op, right) {
        let i = choose|i: int|
            0 <= i < left.len() && some_right(
                ix,
                o,
                ValueV::Str(string_value(ix, #[trigger] left[i])),
                op,
                right,
            );
        let l = ValueV::Str(string_value(ix, left[i]));
        let j = choose|j: int|
            0 <= j < right.len() && compare(
                o,
                l,
                op,
                ValueV::Str(string_value(ix, #[trigger] right[j])),
            );
        assert(left.contains(left[i]) && right.contains(right[j]));
    }
    if exists|x: XPathNode, y: XPathNode|
        left.contains(x) && right.contains(y) && #[trigger] compare(
            o,
            ValueV::Str(string_value(ix, x)),
            op,
            ValueV::Str(string_value(ix, y)),
        ) {
        let (x, y) = choose|x: XPathNode, y: XPathNode|
            left.contains(x) && right.contains(y) && #[trigger] compare(
                o,
                ValueV::Str(string_value(ix, x)),
                op,
                ValueV::Str(string_value(ix, y)),
            );
        let i = choose|i: int| 0 <= i < left.len() && left[i] == x;
        let j = choose|j: int| 0 <= j < right.len() && right[j] == y;
        assert(compare(
            o,
            ValueV::Str(string_value(ix, left[i])),
            op,
            ValueV::Str(string_value(ix, right[j])),
        ));
        assert(some_right(ix, o, ValueV::Str(string_value(ix, left[i])), op, right));
    }
}

/// A set of nodes on one side compares as on the other with the comparison exchanged.
pub proof fn lemma_sides_exchanged(
    ix: XmlIndex,
    o: Oracle,
    nodes: Seq<XPathNode>,
    op: BinaryOp,
    r: ValueV,
)
    requires
        forall|n: Number, m: Number| #[trigger] o(OpV::Equal(n, m)) == o(OpV::Equal(m, n)),
    ensures
        some_left(ix, o, nodes, op, r) == some_right(ix, o, r, exchanged(op), nodes),
{
    assert forall|a: ValueV| #[trigger] compare(o, a, op, r) == compare(o, r, exchanged(op), a) by {
        lemma_equality_symmetric(o, a, r);
        lemma_order_mirrored(o, a, r);
        lemma_order_mirrored(o, r, a);
        lemma_connectives(o, a, r);
    }
    if !(r is Bool) {
        if some_left(ix, o, nodes, op, r) {
            let i = choose|i: int|
                0 <= i < nodes.len() && compare(
                    o,
                    ValueV::Str(string_value(ix, #[trigger] nodes[i])),
                    op,
                    r,
                );
            assert(compare(o, r, exchanged(op), ValueV::Str(string_value(ix, nodes[i]))));
        }
        if some_right(ix, o, r, exchanged(op), nodes) {
            let i = choose|i: int|
                0 <= i < nodes.len() && compare(
                    o,
                    r,
                    exchanged(op),
                    ValueV::Str(string_value(ix, #[trigger] nodes[i])),
                );
            assert(compare(o, ValueV::Str(string_value(ix, nodes[i])), op, r));
        }
    } else {
        let e = ValueV::Bool(nodes.len() > 0);
        assert(compare(o, e, op, r) == compare(o, r, exchanged(op), e));
    }
}

/// The values of texts, numbers and truth values.
pub proof fn lemma_values(t: String, n: Number, b: bool)
    ensures
        XPathValue::String(t)@ == ValueV::Str(t@),
        XPathValue::Number(n)@ == ValueV::Num(n),
        XPathValue::Boolean(b)@ == ValueV::Bool(b),
        StandaloneResult::String(t)@ == ValueV::Str(t@),
        StandaloneResult::Number(n)@ == ValueV::Num(n),
        StandaloneResult::Boolean(b)@ == ValueV::Bool(b),
{
}

} // verus!
