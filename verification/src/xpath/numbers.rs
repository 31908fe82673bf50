//! Numbers. XPath numbers are IEEE 754 doubles, which the library carries as
//! bit patterns; every computation on them is a question put to an arithmetic
//! that the caller hands in.

use vstd::prelude::*;

verus! {

/// The bit pattern of an IEEE 754 double.
#[derive(Debug, Clone, Copy, PartialEq, Eq, Structural)]
pub struct Number {
    pub bits: u64,
}

/// A question about numbers.
pub enum NumberOp {
    /// The number that a text spells, white space around it left out; NaN when
    /// it spells none. Answered with a number.
    Parse(String),
    /// The sum, from left to right, of the numbers that the texts spell; NaN when one
    /// spells none. Answered with a number.
    Sum(Vec<String>),
    /// A count as a number.
    Count(usize),
    /// The negated number.
    Negate(Number),
    /// The sum of two numbers.
    Add(Number, Number),
    /// The difference of two numbers.
    Subtract(Number, Number),
    /// The product of two numbers.
    Multiply(Number, Number),
    /// The quotient of two numbers.
    Divide(Number, Number),
    /// The remainder of a truncating division.
    Remainder(Number, Number),
    /// The largest integer not above the number.
    Floor(Number),
    /// The smallest integer not below the number.
    Ceiling(Number),
    /// The nearest integer, halves rounded up.
    Round(Number),
    /// Whether the first is less than the second. Answered with a flag.
    Less(Number, Number),
    /// Whether the first is not above the second. Answered with a flag.
    LessOrEqual(Number, Number),
    /// Whether the two are equal; NaN equals nothing. Answered with a flag.
    Equal(Number, Number),
    /// Whether the number is neither zero nor NaN. Answered with a flag.
    IsTruthy(Number),
    /// The number as a text. Answered with a text.
    Format(Number),
    /// The index of the position that the number names exactly, among the given
    /// count of positions, which start at 1. Answered with an index.
    Position(Number, usize),
    /// The characters from a position on, as many as asked for, in a text with
    /// the given count of characters. Answered with a span of indices.
    Substring(Number, Option<Number>, usize),
}

/// The answer to a question about numbers.
pub enum NumberReply {
    Number(Number),
    Flag(bool),
    Text(String),
    Index(Option<usize>),
    Span(usize, usize),
}

/// The mathematical value of a `NumberOp`.
pub enum OpV {
    Parse(Seq<char>),
    Sum(Seq<Seq<char>>),
    Count(usize),
    Negate(Number),
    Add(Number, Number),
    Subtract(Number, Number),
    Multiply(Number, Number),
    Divide(Number, Number),
    Remainder(Number, Number),
    Floor(Number),
    Ceiling(Number),
    Round(Number),
    Less(Number, Number),
    LessOrEqual(Number, Number),
    Equal(Number, Number),
    IsTruthy(Number),
    Format(Number),
    Position(Number, usize),
    Substring(Number, Option<Number>, usize),
}

/// The mathematical value of a `NumberReply`.
pub enum ReplyV {
    Number(Number),
    Flag(bool),
    Text(Seq<char>),
    Index(Option<usize>),
    Span(usize, usize),
}

/// The texts of a list of strings.
pub open spec fn strings(v: Seq<String>) -> Seq<Seq<char>> {
    v.map_values(|t: String| t@)
}

impl View for NumberOp {
    type V = OpV;

    open spec fn view(&self) -> OpV {
        match self {
            NumberOp::Parse(t) => OpV::Parse(t@),
            NumberOp::Sum(ts) => OpV::Sum(strings(ts@)),
            NumberOp::Count(n) => OpV::Count(*n),
            NumberOp::Negate(a) => OpV::Negate(*a),
            NumberOp::Add(a, b) => OpV::Add(*a, *b),
            NumberOp::Subtract(a, b) => OpV::Subtract(*a, *b),
            NumberOp::Multiply(a, b) => OpV::Multiply(*a, *b),
            NumberOp::Divide(a, b) => OpV::Divide(*a, *b),
            NumberOp::Remainder(a, b) => OpV::Remainder(*a, *b),
            NumberOp::Floor(a) => OpV::Floor(*a),
            NumberOp::Ceiling(a) => OpV::Ceiling(*a),
            NumberOp::Round(a) => OpV::Round(*a),
            NumberOp::Less(a, b) => OpV::Less(*a, *b),
            NumberOp::LessOrEqual(a, b) => OpV::LessOrEqual(*a, *b),
            NumberOp::Equal(a, b) => OpV::Equal(*a, *b),
            NumberOp::IsTruthy(a) => OpV::IsTruthy(*a),
            NumberOp::Format(a) => OpV::Format(*a),
            NumberOp::Position(a, n) => OpV::Position(*a, *n),
            NumberOp::Substring(a, b, n) => OpV::Substring(*a, *b, *n),
        }
    }
}

impl View for NumberReply {
    type V = ReplyV;

    open spec fn view(&self) -> ReplyV {
        match self {
            NumberReply::Number(a) => ReplyV::Number(*a),
            NumberReply::Flag(b) => ReplyV::Flag(*b),
            NumberReply::Text(t) => ReplyV::Text(t@),
            NumberReply::Index(i) => ReplyV::Index(*i),
            NumberReply::Span(a, b) => ReplyV::Span(*a, *b),
        }
    }
}

/// What an arithmetic answers to each question.
pub type Oracle = spec_fn(OpV) -> ReplyV;

/// The function is an arithmetic: it takes every question, and answers equal
/// questions equally.
pub open spec fn is_arithmetic<F: Fn(NumberOp) -> NumberReply>(f: F) -> bool {
    &&& forall|op: NumberOp| call_requires(f, (op,))
    &&& forall|a: NumberOp, b: NumberOp, ra: NumberReply, rb: NumberReply|
        #![trigger call_ensures(f, (a,), ra), call_ensures(f, (b,), rb)]
        call_ensures(f, (a,), ra) && call_ensures(f, (b,), rb) && a@ == b@ ==> ra@ == rb@
}

/// Whether the function may answer a question like this.
pub open spec fn may_answer<F: Fn(NumberOp) -> NumberReply>(f: F, v: OpV, r: ReplyV) -> bool {
    exists|op: NumberOp, reply: NumberReply|
        op@ == v && reply@ == r && #[trigger] call_ensures(f, (op,), reply)
}

/// What the function answers to each question.
pub open spec fn answers<F: Fn(NumberOp) -> NumberReply>(f: F) -> Oracle {
    |v: OpV| choose|r: ReplyV| may_answer(f, v, r)
}

/// Puts a question to an arithmetic.
pub fn ask<F: Fn(NumberOp) -> NumberReply>(f: &F, op: NumberOp) -> (r: NumberReply)
    requires
        is_arithmetic(*f),
    ensures
        r@ == answers(*f)(op@),
{
    let ghost v = op@;
    let ghost question = op;
    let r = f(op);
    proof {
        assert(may_answer(*f, v, r@));
        let other = choose|x: ReplyV| may_answer(*f, v, x);
        assert(may_answer(*f, v, other));
        let (op2, reply2) = choose|op2: NumberOp, reply2: NumberReply|
            op2@ == v && reply2@ == other && #[trigger] call_ensures(*f, (op2,), reply2);
        assert(call_ensures(*f, (question,), r));
        assert(call_ensures(*f, (op2,), reply2));
    }
    r
}

/// The number in an answer.
pub open spec fn reply_number(r: ReplyV) -> Number {
    match r {
        ReplyV::Number(n) => n,
        _ => Number { bits: 0 },
    }
}

/// The flag in an answer.
pub open spec fn reply_flag(r: ReplyV) -> bool {
    match r {
        ReplyV::Flag(b) => b,
        _ => false,
    }
}

/// The text in an answer.
pub open spec fn reply_text(r: ReplyV) -> Seq<char> {
    match r {
        ReplyV::Text(t) => t,
        _ => Seq::empty(),
    }
}

/// The index in an answer, when it is below the bound.
pub open spec fn reply_index(r: ReplyV, bound: int) -> Option<int> {
    match r {
        ReplyV::Index(Some(i)) => if i < bound {
            Some(i as int)
        } else {
            None
        },
        _ => None,
    }
}

/// The span in an answer, when it lies within the bound.
pub open spec fn reply_span(r: ReplyV, bound: int) -> (int, int) {
    match r {
        ReplyV::Span(a, b) => if a < b <= bound {
            (a as int, b as int)
        } else {
            (0, 0)
        },
        _ => (0, 0),
    }
}

/// Asks for a number.
pub fn ask_number<F: Fn(NumberOp) -> NumberReply>(f: &F, op: NumberOp) -> (r: Number)
    requires
        is_arithmetic(*f),
    ensures
        r == reply_number(answers(*f)(op@)),
{
    match ask(f, op) {
        NumberReply::Number(n) => n,
        _ => Number { bits: 0 },
    }
}

/// Asks for a flag.
pub fn ask_flag<F: Fn(NumberOp) -> NumberReply>(f: &F, op: NumberOp) -> (r: bool)
    requires
        is_arithmetic(*f),
    ensures
        r == reply_flag(answers(*f)(op@)),
{
    match ask(f, op) {
        NumberReply::Flag(b) => b,
        _ => false,
    }
}

/// Asks for a text.
pub fn ask_text<F: Fn(NumberOp) -> NumberReply>(f: &F, op: NumberOp) -> (r: String)
    requires
        is_arithmetic(*f),
    ensures
        r@ == reply_text(answers(*f)(op@)),
{
    match ask(f, op) {
        NumberReply::Text(t) => t,
        _ => {
            let none = String::new();
            assert(none@ =~= Seq::empty());
            none
        },
    }
}

/// Asks for an index below the bound.
pub fn ask_index<F: Fn(NumberOp) -> NumberReply>(f: &F, op: NumberOp, bound: usize) -> (r: Option<
    usize,
>)
    requires
        is_arithmetic(*f),
    ensures
        match r {
            Some(i) => reply_index(answers(*f)(op@), bound as int) == Some(i as int) && i < bound,
            None => reply_index(answers(*f)(op@), bound as int) is None,
        },
{
    match ask(f, op) {
        NumberReply::Index(Some(i)) => if i < bound {
            Some(i)
        } else {
            None
        },
        _ => None,
    }
}

/// Asks for a span within the bound.
pub fn ask_span<F: Fn(NumberOp) -> NumberReply>(f: &F, op: NumberOp, bound: usize) -> (r: (
    usize,
    usize,
))
    requires
        is_arithmetic(*f),
    ensures
        reply_span(answers(*f)(op@), bound as int) == (r.0 as int, r.1 as int),
        r.0 <= r.1 <= bound,
{
    match ask(f, op) {
        NumberReply::Span(a, b) => if a < b && b <= bound {
            (a, b)
        } else {
            (0, 0)
        },
        _ => (0, 0),
    }
}

/// Questions mean what they are called, with their numbers in the order given.
pub proof fn lemma_questions(a: Number, b: Number, n: usize, t: String, ts: Vec<String>)
    ensures
        NumberOp::Parse(t)@ == OpV::Parse(t@),
        NumberOp::Sum(ts)@ matches OpV::Sum(all) && all.len() == ts@.len() && forall|i: int|
            0 <= i < all.len() ==> #[trigger] all[i] == ts@[i]@,
        NumberOp::Count(n)@ == OpV::Count(n),
        NumberOp::Negate(a)@ == OpV::Negate(a),
        NumberOp::Add(a, b)@ == OpV::Add(a, b),
        NumberOp::Subtract(a, b)@ == OpV::Subtract(a, b),
        NumberOp::Multiply(a, b)@ == OpV::Multiply(a, b),
        NumberOp::Divide(a, b)@ == OpV::Divide(a, b),
        NumberOp::Remainder(a, b)@ == OpV::Remainder(a, b),
        NumberOp::Floor(a)@ == OpV::Floor(a),
        NumberOp::Ceiling(a)@ == OpV::Ceiling(a),
        NumberOp::Round(a)@ == OpV::Round(a),
        NumberOp::Less(a, b)@ == OpV::Less(a, b),
        NumberOp::LessOrEqual(a, b)@ == OpV::LessOrEqual(a, b),
        NumberOp::Equal(a, b)@ == OpV::Equal(a, b),
        NumberOp::IsTruthy(a)@ == OpV::IsTruthy(a),
        NumberOp::Format(a)@ == OpV::Format(a),
        NumberOp::Position(a, n)@ == OpV::Position(a, n),
        NumberOp::Substring(a, Some(b), n)@ == OpV::Substring(a, Some(b), n),
        NumberOp::Substring(a, None, n)@ == OpV::Substring(a, None, n),
{
}

/// Answers mean what they are called.
pub proof fn lemma_answers(a: Number, b: bool, t: String, i: Option<usize>, m: usize, n: usize)
    ensures
        NumberReply::Number(a)@ == ReplyV::Number(a),
        NumberReply::Flag(b)@ == ReplyV::Flag(b),
        NumberReply::Text(t)@ == ReplyV::Text(t@),
        NumberReply::Index(i)@ == ReplyV::Index(i),
        NumberReply::Span(m, n)@ == ReplyV::Span(m, n),
{
}

} // verus!
