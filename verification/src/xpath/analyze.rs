//! Static analysis of XPath expressions: which tag names an expression is
//! about.

use vstd::prelude::*;
use crate::name_set::NameSet;
use crate::text::{chars_of, str_eq, string_of};
use crate::xpath::ast::{
    expr_v, exprs_v, lemma_expr_v, lemma_exprs_v, lemma_step_v, lemma_steps_v, step_v, steps_v,
    Axis, ExprV, NodeTest, Step, StepV, TestV, XPathExpr,
};
use crate::xpath::compiled::CompiledXPath;
use crate::xpath::semantics::fusible;

verus! {

/// Result of analyzing an expression for selective parsing.
pub enum SelectivityHint {
    /// The expression references only these tag names; parsing can skip all
    /// other tags.
    Selective(NameSet),
    /// The expression uses wildcards, `node()`, or patterns that need all tags.
    NeedsAll,
}

/// The tags that an expression needs: those with certain names, or all.
#[verifier::ext_equal]
pub struct Needs {
    pub names: Set<Seq<char>>,
    pub all: bool,
}

impl Needs {
    pub open spec fn nothing() -> Needs {
        Needs { names: Set::empty(), all: false }
    }

    pub open spec fn and(self, other: Needs) -> Needs {
        Needs { names: self.names.union(other.names), all: self.all || other.all }
    }
}

/// What the node test of a step needs. A wildcard, alone or after a prefix, needs
/// all tags, and so does `node()`, except on the axes that
/// `//` and `.` abbreviate.
pub open spec fn test_needs(axis: Axis, test: TestV) -> Needs {
    match test {
        TestV::Name(n) => Needs { names: set![n], all: false },
        TestV::NamespacedName(prefix, local) => if local == "*"@ {
            Needs { names: Set::empty(), all: true }
        } else {
            Needs { names: set![prefix + ":"@ + local], all: false }
        },
        TestV::Wildcard => Needs { names: Set::empty(), all: true },
        TestV::Node => Needs {
            names: Set::empty(),
            all: axis != Axis::DescendantOrSelf && axis != Axis::SelfAxis,
        },
        _ => Needs::nothing(),
    }
}

/// What an expression needs.
pub open spec fn needs(e: ExprV) -> Needs
    decreases e, 0int,
{
    match e {
        ExprV::Path(_, steps) => steps_need(steps, steps.len()),
        ExprV::Union(es) => exprs_need(es, es.len()),
        ExprV::FilterPath(inner, steps) => needs(*inner).and(steps_need(steps, steps.len())),
        ExprV::GlobalFilter(inner, preds) => needs(*inner).and(exprs_need(preds, preds.len())),
        ExprV::Binary(l, _, r) => needs(*l).and(needs(*r)),
        ExprV::Call(_, args) => exprs_need(args, args.len()),
        ExprV::Minus(inner) => needs(*inner),
        ExprV::Str(_) => Needs::nothing(),
        ExprV::Num(_) => Needs::nothing(),
    }
}

/// What the first `k` expressions need.
pub open spec fn exprs_need(es: Seq<ExprV>, k: nat) -> Needs
    decreases es, k,
{
    if k == 0 || k > es.len() {
        Needs::nothing()
    } else {
        exprs_need(es, (k - 1) as nat).and(needs(es[k - 1]))
    }
}

/// What a step needs: its test and its predicates.
pub open spec fn step_needs(s: StepV) -> Needs
    decreases s, 0int,
{
    test_needs(s.axis, s.test).and(exprs_need(s.preds, s.preds.len()))
}

/// What the first `k` steps need.
pub open spec fn steps_need(ss: Seq<StepV>, k: nat) -> Needs
    decreases ss, k,
{
    if k == 0 || k > ss.len() {
        Needs::nothing()
    } else {
        steps_need(ss, (k - 1) as nat).and(step_needs(ss[k - 1]))
    }
}

/// The element name that a test asks for, if it asks for one.
pub open spec fn element_name(test: TestV) -> Option<Seq<char>> {
    match test {
        TestV::Name(name) => Some(name),
        TestV::NamespacedName(prefix, local) => if local == "*"@ {
            None
        } else {
            Some(prefix + ":"@ + local)
        },
        _ => None,
    }
}

/// Whether an axis may hold the context node itself.
pub open spec fn holds_self(axis: Axis) -> bool {
    axis == Axis::SelfAxis || axis == Axis::DescendantOrSelf || axis == Axis::AncestorOrSelf
}

/// Whether a step selects elements by name. The names on the attribute and
/// namespace axes are no names of elements, and a namespace node, once selected,
/// stays on the axes that hold the context node itself.
pub open spec fn names_elements(st: StepV, namespaces: bool) -> bool {
    &&& element_name(st.test) is Some
    &&& st.axis != Axis::Attribute
    &&& st.axis != Axis::Namespace
    &&& namespaces ==> !holds_self(st.axis)
}

/// Whether one of the steps from `i` on selects elements by name.
pub open spec fn some_step_names(steps: Seq<StepV>, i: int, namespaces: bool) -> bool
    decreases steps.len() - i,
{
    &&& 0 <= i < steps.len()
    &&& {
        ||| names_elements(steps[i], namespaces)
        ||| some_step_names(steps, i + 1, namespaces || steps[i].axis == Axis::Namespace)
    }
}

/// Whether whatever an expression selects lies behind a step that selects
/// elements by name.
pub open spec fn goes_by_name(e: ExprV) -> bool
    decreases e, 0int,
{
    match e {
        ExprV::Path(_, steps) => some_step_names(steps, 0, false),
        ExprV::Union(parts) => all_go_by_name(parts, parts.len()),
        ExprV::FilterPath(inner, steps) => goes_by_name(*inner) || some_step_names(steps, 0, true),
        ExprV::GlobalFilter(inner, _) => goes_by_name(*inner),
        _ => false,
    }
}

/// Whether the first `k` expressions go by name.
pub open spec fn all_go_by_name(es: Seq<ExprV>, k: nat) -> bool
    decreases es, k,
{
    k == 0 || k > es.len() || (all_go_by_name(es, (k - 1) as nat) && goes_by_name(es[k - 1]))
}

/// What an expression needs some of to select anything: the names that it needs,
/// where it goes by name and does not need all tags.
pub open spec fn filter_needs(e: ExprV) -> Needs {
    if goes_by_name(e) && !needs(e).all {
        needs(e)
    } else {
        Needs { names: Set::empty(), all: true }
    }
}

/// A step to the children of a name.
pub open spec fn names_child(st: StepV) -> bool {
    st.axis == Axis::Child && st.test is Name && st.preds.len() == 0
}

/// Whether the steps from `i` on lead to children of a name, or to descendants of one
/// by `//`, without predicates.
pub open spec fn by_names(steps: Seq<StepV>, i: int) -> bool
    decreases steps.len() - i,
{
    if i < 0 || i >= steps.len() {
        true
    } else if fusible(steps, i) {
        names_child(steps[i + 1]) && by_names(steps, i + 2)
    } else {
        names_child(steps[i]) && by_names(steps, i + 1)
    }
}

/// Whether an expression is a path of names, or a union of such paths.
pub open spec fn is_name_path(e: ExprV) -> bool
    decreases e, 0int,
{
    match e {
        ExprV::Path(_, steps) => steps.len() > 0 && by_names(steps, 0),
        ExprV::Union(parts) => all_name_paths(parts, parts.len()),
        _ => false,
    }
}

/// Whether the first `k` expressions are paths of names.
pub open spec fn all_name_paths(es: Seq<ExprV>, k: nat) -> bool
    decreases es, k,
{
    k == 0 || k > es.len() || (all_name_paths(es, (k - 1) as nat) && is_name_path(es[k - 1]))
}

/// Whether a hint says what is needed.
pub open spec fn hints(h: SelectivityHint, n: Needs) -> bool {
    match h {
        SelectivityHint::Selective(names) => !n.all && names.wf() && names@ == n.names,
        SelectivityHint::NeedsAll => n.all,
    }
}

/// A copy of a string.
fn copy_of(s: &String) -> (r: String)
    ensures
        r@ == s@,
{
    let chars = chars_of(s.as_str());
    let r = string_of(chars.as_slice(), 0, chars.len());
    assert(r@ =~= s@);
    r
}

/// Collects the needs of an expression.
fn collect_names(expr: &XPathExpr, names: &mut NameSet, needs_all: &mut bool)
    requires
        old(names).wf(),
    ensures
        final(names).wf(),
        final(names)@ == old(names)@.union(needs(expr_v(*expr)).names),
        *final(needs_all) == (*old(needs_all) || needs(expr_v(*expr)).all),
    decreases expr_v(*expr), 0int,
{
    let ghost ev = expr_v(*expr);
    proof {
        lemma_expr_v(*expr);
    }
    match expr {
        XPathExpr::LocationPath(path) => {
            assert(decreases_to!(ev => ev->Path_1));
            collect_from_steps(&path.steps, names, needs_all);
            proof {
                lemma_steps_v(path.steps@);
            }
        },
        XPathExpr::Union(exprs) => {
            assert(decreases_to!(ev => ev->Union_0));
            collect_from_exprs(exprs, names, needs_all);
            proof {
                lemma_exprs_v(exprs@);
            }
        },
        XPathExpr::FilterPath(inner, steps) => {
            assert(decreases_to!(ev => ev->FilterPath_0));
            collect_names(inner, names, needs_all);
            assert(decreases_to!(ev => ev->FilterPath_1));
            collect_from_steps(steps, names, needs_all);
            proof {
                lemma_steps_v(steps@);
            }
            assert(names@ =~= old(names)@.union(needs(ev).names));
        },
        XPathExpr::GlobalFilter(inner, preds) => {
            assert(decreases_to!(ev => ev->GlobalFilter_0));
            collect_names(inner, names, needs_all);
            assert(decreases_to!(ev => ev->GlobalFilter_1));
            collect_from_exprs(preds, names, needs_all);
            proof {
                lemma_exprs_v(preds@);
            }
            assert(names@ =~= old(names)@.union(needs(ev).names));
        },
        XPathExpr::BinaryOp(left, _, right) => {
            collect_names(left, names, needs_all);
            collect_names(right, names, needs_all);
            assert(names@ =~= old(names)@.union(needs(ev).names));
        },
        XPathExpr::FunctionCall(_, args) => {
            assert(decreases_to!(ev => ev->Call_1));
            collect_from_exprs(args, names, needs_all);
            proof {
                lemma_exprs_v(args@);
            }
        },
        XPathExpr::UnaryMinus(inner) => {
            collect_names(inner, names, needs_all);
        },
        XPathExpr::StringLiteral(_) | XPathExpr::NumberLiteral(_) => {
            assert(names@ =~= old(names)@.union(needs(ev).names));
        },
    }
}

/// Collects the needs of all expressions.
fn collect_from_exprs(exprs: &Vec<XPathExpr>, names: &mut NameSet, needs_all: &mut bool)
    requires
        old(names).wf(),
    ensures
        final(names).wf(),
        final(names)@ == old(names)@.union(exprs_need(exprs_v(exprs@), exprs@.len()).names),
        *final(needs_all) == (*old(needs_all) || exprs_need(exprs_v(exprs@), exprs@.len()).all),
    decreases exprs_v(exprs@), 1int,
{
    let ghost es = exprs_v(exprs@);
    let n: usize = exprs.len();
    let mut i: usize = 0;
    proof {
        lemma_exprs_v(exprs@);
        assert(names@ =~= old(names)@.union(exprs_need(es, 0).names));
    }
    while i < n
        invariant
            n == exprs@.len(),
            es == exprs_v(exprs@),
            es.len() == n,
            forall|j: int| 0 <= j < n ==> #[trigger] es[j] == expr_v(exprs@[j]),
            i <= n,
            names.wf(),
            names@ == old(names)@.union(exprs_need(es, i as nat).names),
            *needs_all == (*old(needs_all) || exprs_need(es, i as nat).all),
        decreases n - i,
    {
        assert(es[i as int] == expr_v(exprs@[i as int]));
        assert(decreases_to!(es => es[i as int]));
        collect_names(&exprs[i], names, needs_all);
        assert(names@ =~= old(names)@.union(exprs_need(es, (i + 1) as nat).names));
        i += 1;
    }
}

/// Collects the needs of all steps.
fn collect_from_steps(steps: &Vec<Step>, names: &mut NameSet, needs_all: &mut bool)
    requires
        old(names).wf(),
    ensures
        final(names).wf(),
        final(names)@ == old(names)@.union(steps_need(steps_v(steps@), steps@.len()).names),
        *final(needs_all) == (*old(needs_all) || steps_need(steps_v(steps@), steps@.len()).all),
    decreases steps_v(steps@), 1int,
{
    let ghost ss = steps_v(steps@);
    let n: usize = steps.len();
    let mut i: usize = 0;
    proof {
        lemma_steps_v(steps@);
        assert(names@ =~= old(names)@.union(steps_need(ss, 0).names));
    }
    while i < n
        invariant
            n == steps@.len(),
            ss == steps_v(steps@),
            ss.len() == n,
            forall|j: int| 0 <= j < n ==> #[trigger] ss[j] == step_v(steps@[j]),
            i <= n,
            names.wf(),
            names@ == old(names)@.union(steps_need(ss, i as nat).names),
            *needs_all == (*old(needs_all) || steps_need(ss, i as nat).all),
        decreases n - i,
    {
        assert(ss[i as int] == step_v(steps@[i as int]));
        assert(decreases_to!(ss => ss[i as int]));
        collect_from_step(&steps[i], names, needs_all);
        assert(names@ =~= old(names)@.union(steps_need(ss, (i + 1) as nat).names));
        i += 1;
    }
}

/// Collects the needs of a step.
fn collect_from_step(step: &Step, names: &mut NameSet, needs_all: &mut bool)
    requires
        old(names).wf(),
    ensures
        final(names).wf(),
        final(names)@ == old(names)@.union(step_needs(step_v(*step)).names),
        *final(needs_all) == (*old(needs_all) || step_needs(step_v(*step)).all),
    decreases step_v(*step), 2int,
{
    let ghost sv = step_v(*step);
    proof {
        lemma_step_v(*step);
        lemma_exprs_v(step.predicates@);
    }
    match &step.node_test {
        NodeTest::Name(name) => {
            let _ = names.insert(copy_of(name));
        },
        NodeTest::NamespacedName(prefix, local) => {
            if str_eq(local.as_str(), "*") {
                *needs_all = true;
            } else {
                let mut name = copy_of(prefix);
                name.append(":");
                name.append(local.as_str());
                assert(name@ =~= prefix@ + ":"@ + local@);
                let _ = names.insert(name);
            }
        },
        NodeTest::Wildcard => {
            *needs_all = true;
        },
        NodeTest::Node => {
            if step.axis != Axis::DescendantOrSelf && step.axis != Axis::SelfAxis {
                *needs_all = true;
            }
        },
        NodeTest::Text | NodeTest::Comment | NodeTest::PI | NodeTest::PIName(_) => {},
    }
    assert(names@ =~= old(names)@.union(test_needs(sv.axis, sv.test).names));
    assert(decreases_to!(sv => sv.preds));
    collect_from_exprs(&step.predicates, names, needs_all);
    assert(names@ =~= old(names)@.union(step_needs(sv).names));
}

/// Tests whether a step selects elements by name: see `names_elements`.
fn step_names(step: &Step, namespaces: bool) -> (r: bool)
    ensures
        r == names_elements(step_v(*step), namespaces),
{
    proof {
        lemma_step_v(*step);
    }
    let named = match &step.node_test {
        NodeTest::Name(_) => true,
        NodeTest::NamespacedName(_, local) => !str_eq(local.as_str(), "*"),
        _ => false,
    };
    let stays = step.axis == Axis::SelfAxis || step.axis == Axis::DescendantOrSelf || step.axis
        == Axis::AncestorOrSelf;
    named && step.axis != Axis::Attribute && step.axis != Axis::Namespace && !(namespaces && stays)
}

/// Tests whether one of the steps selects elements by name: see `some_step_names`.
fn steps_name(steps: &Vec<Step>, namespaces: bool) -> (r: bool)
    ensures
        r == some_step_names(steps_v(steps@), 0, namespaces),
{
    let ghost ss = steps_v(steps@);
    let n: usize = steps.len();
    let mut i: usize = 0;
    let mut ns = namespaces;
    proof {
        lemma_steps_v(steps@);
    }
    while i < n
        invariant
            n == steps@.len(),
            ss == steps_v(steps@),
            ss.len() == n,
            forall|j: int| 0 <= j < n ==> #[trigger] ss[j] == step_v(steps@[j]),
            i <= n,
            some_step_names(ss, 0, namespaces) == some_step_names(ss, i as int, ns),
        decreases n - i,
    {
        assert(ss[i as int] == step_v(steps@[i as int]));
        if step_names(&steps[i], ns) {
            return true;
        }
        proof {
            lemma_step_v(steps@[i as int]);
        }
        ns = ns || steps[i].axis == Axis::Namespace;
        i += 1;
    }
    false
}

/// Tests whether a step leads to the children of a name: see `names_child`.
fn step_to_child(step: &Step) -> (r: bool)
    ensures
        r == names_child(step_v(*step)),
{
    proof {
        lemma_step_v(*step);
        lemma_exprs_v(step.predicates@);
    }
    let named = matches!(step.node_test, NodeTest::Name(_));
    named && step.axis == Axis::Child && step.predicates.len() == 0
}

/// Tests whether a step leads to a node and all its descendants.
fn step_to_all(step: &Step) -> (r: bool)
    ensures
        ({
            let st = step_v(*step);
            r == (st.axis == Axis::DescendantOrSelf && st.test is Node && st.preds.len() == 0)
        }),
{
    proof {
        lemma_step_v(*step);
        lemma_exprs_v(step.predicates@);
    }
    let any = matches!(step.node_test, NodeTest::Node);
    any && step.axis == Axis::DescendantOrSelf && step.predicates.len() == 0
}

/// Tests whether steps go by names: see `by_names`.
fn steps_by_names(steps: &Vec<Step>) -> (r: bool)
    ensures
        r == by_names(steps_v(steps@), 0),
{
    let ghost ss = steps_v(steps@);
    let n: usize = steps.len();
    let mut i: usize = 0;
    proof {
        lemma_steps_v(steps@);
    }
    while i < n
        invariant
            n == steps@.len(),
            ss == steps_v(steps@),
            ss.len() == n,
            forall|j: int| 0 <= j < n ==> #[trigger] ss[j] == step_v(steps@[j]),
            i <= n,
            by_names(ss, 0) == by_names(ss, i as int),
        decreases n - i,
    {
        assert(ss[i as int] == step_v(steps@[i as int]));
        let child = step_to_child(&steps[i]);
        if step_to_all(&steps[i]) && i + 1 < n {
            assert(ss[i + 1] == step_v(steps@[i + 1]));
            if !step_to_child(&steps[i + 1]) {
                return false;
            }
            i += 2;
        } else if child {
            i += 1;
        } else {
            return false;
        }
    }
    true
}

/// Tests whether an expression is a path of names: see `is_name_path`.
pub fn goes_along_names(expr: &XPathExpr) -> (r: bool)
    ensures
        r == is_name_path(expr_v(*expr)),
    decreases expr_v(*expr),
{
    let ghost ev = expr_v(*expr);
    proof {
        lemma_expr_v(*expr);
    }
    match expr {
        XPathExpr::LocationPath(path) => {
            proof {
                lemma_steps_v(path.steps@);
            }
            path.steps.len() > 0 && steps_by_names(&path.steps)
        },
        XPathExpr::Union(exprs) => {
            let ghost es = exprs_v(exprs@);
            let n: usize = exprs.len();
            let mut i: usize = 0;
            let mut all = true;
            proof {
                lemma_exprs_v(exprs@);
            }
            assert(decreases_to!(ev => ev->Union_0));
            while i < n
                invariant
                    n == exprs@.len(),
                    ev == expr_v(*expr),
                    es == exprs_v(exprs@),
                    es.len() == n,
                    decreases_to!(ev => es),
                    forall|j: int| 0 <= j < n ==> #[trigger] es[j] == expr_v(exprs@[j]),
                    i <= n,
                    all == all_name_paths(es, i as nat),
                decreases n - i,
            {
                assert(es[i as int] == expr_v(exprs@[i as int]));
                assert(decreases_to!(es => es[i as int]));
                let next = goes_along_names(&exprs[i]);
                all = all && next;
                i += 1;
            }
            all
        },
        _ => false,
    }
}

/// Tests whether an expression goes by name: see `goes_by_name`.
pub fn selects_by_name(expr: &XPathExpr) -> (r: bool)
    ensures
        r == goes_by_name(expr_v(*expr)),
    decreases expr_v(*expr),
{
    let ghost ev = expr_v(*expr);
    proof {
        lemma_expr_v(*expr);
    }
    match expr {
        XPathExpr::LocationPath(path) => steps_name(&path.steps, false),
        XPathExpr::Union(exprs) => {
            let ghost es = exprs_v(exprs@);
            let n: usize = exprs.len();
            let mut i: usize = 0;
            let mut all = true;
            proof {
                lemma_exprs_v(exprs@);
            }
            assert(decreases_to!(ev => ev->Union_0));
            while i < n
                invariant
                    n == exprs@.len(),
                    ev == expr_v(*expr),
                    es == exprs_v(exprs@),
                    es.len() == n,
                    decreases_to!(ev => es),
                    forall|j: int| 0 <= j < n ==> #[trigger] es[j] == expr_v(exprs@[j]),
                    i <= n,
                    all == all_go_by_name(es, i as nat),
                decreases n - i,
            {
                assert(es[i as int] == expr_v(exprs@[i as int]));
                assert(decreases_to!(es => es[i as int]));
                let next = selects_by_name(&exprs[i]);
                all = all && next;
                i += 1;
            }
            all
        },
        XPathExpr::FilterPath(inner, steps) => {
            assert(decreases_to!(ev => ev->FilterPath_0));
            selects_by_name(inner) || steps_name(steps, true)
        },
        XPathExpr::GlobalFilter(inner, _) => {
            assert(decreases_to!(ev => ev->GlobalFilter_0));
            selects_by_name(inner)
        },
        _ => false,
    }
}

/// Analyzes an expression: the set of tag names it could match, or that it needs
/// all tags.
pub fn selectivity(expr: &XPathExpr) -> (r: SelectivityHint)
    ensures
        hints(r, needs(expr_v(*expr))),
{
    let mut names = NameSet::new();
    let mut needs_all = false;
    collect_names(expr, &mut names, &mut needs_all);
    assert(names@ =~= needs(expr_v(*expr)).names);
    if needs_all {
        SelectivityHint::NeedsAll
    } else {
        SelectivityHint::Selective(names)
    }
}

impl CompiledXPath {
    /// The tag names that the expression references, or `None` when it needs all
    /// tags.
    pub fn interesting_names(&self) -> (r: Option<NameSet>)
        ensures
            match r {
                Some(names) => !needs(expr_v(self.expr)).all && names.wf() && names@ == needs(
                    expr_v(self.expr),
                ).names,
                None => needs(expr_v(self.expr)).all,
            },
    {
        match selectivity(&self.expr) {
            SelectivityHint::Selective(names) => Some(names),
            SelectivityHint::NeedsAll => None,
        }
    }
}

} // verus!
