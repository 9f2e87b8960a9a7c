//! Running the solver on planned checks.
//!
//! Terms become solver assertions over constants named after the variables
//! of their [`EncodeContext`]; each check runs in a fresh solver limited to
//! [`SOLVER_TIMEOUT_MS`]. Every solver expression carries the formula it
//! stands for ([`crate::formula`]), so the functions here state which
//! formulas each check asks about, and that the answer agrees with their
//! satisfiability. The answers drive the node runs of [`crate::plan`] and
//! the overlap checks of [`crate::obstruction`].

use vstd::prelude::*;

use crate::encode::{
    bool_views, lemma_bool_views_index, lemma_bool_views_len, lemma_bool_views_push, table_view, BoolTerm,
    BoolTermView, CmpOp, EncodeContext, IntTerm, RealTerm, VarRef, VarSort, VarTable,
};
use crate::expr::ConstraintExpr;
use crate::formula::{
    lemma_smt_bools, satisfiable, smt_bool, smt_bools, smt_int, smt_real, var_name, SmtBool, SmtInt, SmtReal,
};
use crate::model::{AilGraph, Node, NodeId};
use crate::obstruction::{
    conclude_overlap, conclusion, is_query, labelled_views, precheck, prepare_overlap, ObstructionResult,
    OverlapAnswer, OverlapQuery, OverlapStep, ResultView,
};
use crate::expr::{constraint_views, ConstraintView};
use crate::model::children_in;
use crate::sorts::{node_context, param_constraints};
use crate::plan::{
    all_encoding_failures, before_results, child_posts_of, encodable, encodable_facts, is_plan, oks,
    parsed_posts, post_results, post_view, query_of, type_assertions, QueryKind,
    answer_views, fact_views, lemma_node_outcome_ends, lemma_plan_outcome, lemma_sort_by_name,
    node_outcome_of, node_promoted, node_step, pair_views, plan_outcome, post_views, query_terms,
    run_errors, sorted_by_name, sorted_pairs, verification_order, verify_error_views, plan_do_node,
    AnswerView, NodePlan, SolverAnswer, VerificationRun, VerifyError, VerifyErrorView,
};
use crate::text::views;
use crate::sheaf::{build_nerve, nerve_of, overlap_views, section_views, CechNerve};
use crate::verified::VerifiedGraph;

verus! {

// ─── the solver's types ─────────────────────────────────────────────────────

#[verifier::external_type_specification]
#[verifier::external_body]
pub struct ExSolverInt(z3::ast::Int);

#[verifier::external_type_specification]
#[verifier::external_body]
pub struct ExSolverReal(z3::ast::Real);

#[verifier::external_type_specification]
#[verifier::external_body]
pub struct ExSolverBool(z3::ast::Bool);

#[verifier::external_type_specification]
#[verifier::external_body]
pub struct ExSolver(z3::Solver);

#[verifier::external_type_specification]
#[verifier::external_body]
pub struct ExSolverModel(z3::Model);

#[verifier::external_type_specification]
#[verifier::external_body]
pub struct ExSolverParams(z3::Params);

/// `s` holds no NUL character: the solver's symbols cannot.
pub open spec fn no_nul(s: Seq<char>) -> bool {
    forall|i: int| 0 <= i < s.len() ==> s[i] != '\0'
}

// ─── solver expressions and the formulas they stand for ────────────────────

/// A solver integer expression and the formula it was built as.
struct IntExpr {
    ast: z3::ast::Int,
    term: Ghost<SmtInt>,
}

/// A solver real expression and the formula it was built as.
struct RealExpr {
    ast: z3::ast::Real,
    term: Ghost<SmtReal>,
}

/// A solver boolean expression and the formula it was built as.
struct BoolExpr {
    ast: z3::ast::Bool,
    term: Ghost<SmtBool>,
}

/// A solver and the formulas asserted in it so far.
struct Session {
    solver: z3::Solver,
    asserted: Ghost<Seq<SmtBool>>,
}

// ─── trusted calls into the solver ──────────────────────────────────────────
//
// Each builder below makes one expression of the solver's API and states the
// formula the expression is: the constant of that name, the numeral, or the
// operation applied to its operands, as the z3 crate's builder of that name
// creates the node of that operation over its arguments.

/// `z3::ast::Int::new_const`: the integer constant named `name`. Making the
/// symbol panics on a name holding a NUL character.
#[verifier::external_body]
fn int_const(name: &str) -> (r: IntExpr)
    requires
        no_nul(name@),
    ensures
        r.term@ == SmtInt::Named(name@),
{
    IntExpr { ast: z3::ast::Int::new_const(name), term: Ghost(SmtInt::Named(name@)) }
}

/// `z3::ast::Int::from_i64`: the integer numeral `n`.
#[verifier::external_body]
fn int_value(n: i64) -> (r: IntExpr)
    ensures
        r.term@ == SmtInt::Num(n as int),
{
    IntExpr { ast: z3::ast::Int::from_i64(n), term: Ghost(SmtInt::Num(n as int)) }
}

/// `z3::ast::Int::add`: the sum `a + b`.
#[verifier::external_body]
fn int_add(a: &IntExpr, b: &IntExpr) -> (r: IntExpr)
    ensures
        r.term@ == SmtInt::Add(Box::new(a.term@), Box::new(b.term@)),
{
    IntExpr {
        ast: z3::ast::Int::add(&[&a.ast, &b.ast]),
        term: Ghost(SmtInt::Add(Box::new(a.term@), Box::new(b.term@))),
    }
}

/// `z3::ast::Int::sub`: the difference `a - b`.
#[verifier::external_body]
fn int_sub(a: &IntExpr, b: &IntExpr) -> (r: IntExpr)
    ensures
        r.term@ == SmtInt::Sub(Box::new(a.term@), Box::new(b.term@)),
{
    IntExpr {
        ast: z3::ast::Int::sub(&[&a.ast, &b.ast]),
        term: Ghost(SmtInt::Sub(Box::new(a.term@), Box::new(b.term@))),
    }
}

/// `z3::ast::Int::mul`: the product `a * b`.
#[verifier::external_body]
fn int_mul(a: &IntExpr, b: &IntExpr) -> (r: IntExpr)
    ensures
        r.term@ == SmtInt::Mul(Box::new(a.term@), Box::new(b.term@)),
{
    IntExpr {
        ast: z3::ast::Int::mul(&[&a.ast, &b.ast]),
        term: Ghost(SmtInt::Mul(Box::new(a.term@), Box::new(b.term@))),
    }
}

/// `z3::ast::Int::div`: the integer quotient `a div b`.
#[verifier::external_body]
fn int_div(a: &IntExpr, b: &IntExpr) -> (r: IntExpr)
    ensures
        r.term@ == SmtInt::Div(Box::new(a.term@), Box::new(b.term@)),
{
    IntExpr { ast: a.ast.div(&b.ast), term: Ghost(SmtInt::Div(Box::new(a.term@), Box::new(b.term@))) }
}

/// `z3::ast::Int::rem`: the remainder `a rem b`.
#[verifier::external_body]
fn int_rem(a: &IntExpr, b: &IntExpr) -> (r: IntExpr)
    ensures
        r.term@ == SmtInt::Rem(Box::new(a.term@), Box::new(b.term@)),
{
    IntExpr { ast: a.ast.rem(&b.ast), term: Ghost(SmtInt::Rem(Box::new(a.term@), Box::new(b.term@))) }
}

/// `z3::ast::Int::to_real`: `a` as a real.
#[verifier::external_body]
fn int_to_real(a: &IntExpr) -> (r: RealExpr)
    ensures
        r.term@ == SmtReal::OfInt(Box::new(a.term@)),
{
    RealExpr { ast: a.ast.to_real(), term: Ghost(SmtReal::OfInt(Box::new(a.term@))) }
}

/// `z3::ast::Int::lt`: the atom `a < b`.
#[verifier::external_body]
fn int_lt(a: &IntExpr, b: &IntExpr) -> (r: BoolExpr)
    ensures
        r.term@ == SmtBool::IntCmp(CmpOp::Lt, a.term@, b.term@),
{
    BoolExpr { ast: a.ast.lt(&b.ast), term: Ghost(SmtBool::IntCmp(CmpOp::Lt, a.term@, b.term@)) }
}

/// `z3::ast::Int::le`: the atom `a <= b`.
#[verifier::external_body]
fn int_le(a: &IntExpr, b: &IntExpr) -> (r: BoolExpr)
    ensures
        r.term@ == SmtBool::IntCmp(CmpOp::Le, a.term@, b.term@),
{
    BoolExpr { ast: a.ast.le(&b.ast), term: Ghost(SmtBool::IntCmp(CmpOp::Le, a.term@, b.term@)) }
}

/// `z3::ast::Int::gt`: the atom `a > b`.
#[verifier::external_body]
fn int_gt(a: &IntExpr, b: &IntExpr) -> (r: BoolExpr)
    ensures
        r.term@ == SmtBool::IntCmp(CmpOp::Gt, a.term@, b.term@),
{
    BoolExpr { ast: a.ast.gt(&b.ast), term: Ghost(SmtBool::IntCmp(CmpOp::Gt, a.term@, b.term@)) }
}

/// `z3::ast::Int::ge`: the atom `a >= b`.
#[verifier::external_body]
fn int_ge(a: &IntExpr, b: &IntExpr) -> (r: BoolExpr)
    ensures
        r.term@ == SmtBool::IntCmp(CmpOp::Ge, a.term@, b.term@),
{
    BoolExpr { ast: a.ast.ge(&b.ast), term: Ghost(SmtBool::IntCmp(CmpOp::Ge, a.term@, b.term@)) }
}

/// `z3::ast::Int::eq`: the atom `a = b` (both integers, so the sorts agree).
#[verifier::external_body]
fn int_eq(a: &IntExpr, b: &IntExpr) -> (r: BoolExpr)
    ensures
        r.term@ == SmtBool::IntCmp(CmpOp::Eq, a.term@, b.term@),
{
    BoolExpr { ast: a.ast.eq(&b.ast), term: Ghost(SmtBool::IntCmp(CmpOp::Eq, a.term@, b.term@)) }
}

/// `z3::ast::Real::new_const`: the real constant named `name`. Making the
/// symbol panics on a name holding a NUL character.
#[verifier::external_body]
fn real_const(name: &str) -> (r: RealExpr)
    requires
        no_nul(name@),
    ensures
        r.term@ == SmtReal::Named(name@),
{
    RealExpr { ast: z3::ast::Real::new_const(name), term: Ghost(SmtReal::Named(name@)) }
}

/// `z3::ast::Real::add`: the sum `a + b`.
#[verifier::external_body]
fn real_add(a: &RealExpr, b: &RealExpr) -> (r: RealExpr)
    ensures
        r.term@ == SmtReal::Add(Box::new(a.term@), Box::new(b.term@)),
{
    RealExpr {
        ast: z3::ast::Real::add(&[&a.ast, &b.ast]),
        term: Ghost(SmtReal::Add(Box::new(a.term@), Box::new(b.term@))),
    }
}

/// `z3::ast::Real::sub`: the difference `a - b`.
#[verifier::external_body]
fn real_sub(a: &RealExpr, b: &RealExpr) -> (r: RealExpr)
    ensures
        r.term@ == SmtReal::Sub(Box::new(a.term@), Box::new(b.term@)),
{
    RealExpr {
        ast: z3::ast::Real::sub(&[&a.ast, &b.ast]),
        term: Ghost(SmtReal::Sub(Box::new(a.term@), Box::new(b.term@))),
    }
}

/// `z3::ast::Real::mul`: the product `a * b`.
#[verifier::external_body]
fn real_mul(a: &RealExpr, b: &RealExpr) -> (r: RealExpr)
    ensures
        r.term@ == SmtReal::Mul(Box::new(a.term@), Box::new(b.term@)),
{
    RealExpr {
        ast: z3::ast::Real::mul(&[&a.ast, &b.ast]),
        term: Ghost(SmtReal::Mul(Box::new(a.term@), Box::new(b.term@))),
    }
}

/// `z3::ast::Real::div`: the quotient `a / b`.
#[verifier::external_body]
fn real_div(a: &RealExpr, b: &RealExpr) -> (r: RealExpr)
    ensures
        r.term@ == SmtReal::Div(Box::new(a.term@), Box::new(b.term@)),
{
    RealExpr { ast: a.ast.div(&b.ast), term: Ghost(SmtReal::Div(Box::new(a.term@), Box::new(b.term@))) }
}

/// `z3::ast::Real::lt`: the atom `a < b`.
#[verifier::external_body]
fn real_lt(a: &RealExpr, b: &RealExpr) -> (r: BoolExpr)
    ensures
        r.term@ == SmtBool::RealCmp(CmpOp::Lt, a.term@, b.term@),
{
    BoolExpr { ast: a.ast.lt(&b.ast), term: Ghost(SmtBool::RealCmp(CmpOp::Lt, a.term@, b.term@)) }
}

/// `z3::ast::Real::le`: the atom `a <= b`.
#[verifier::external_body]
fn real_le(a: &RealExpr, b: &RealExpr) -> (r: BoolExpr)
    ensures
        r.term@ == SmtBool::RealCmp(CmpOp::Le, a.term@, b.term@),
{
    BoolExpr { ast: a.ast.le(&b.ast), term: Ghost(SmtBool::RealCmp(CmpOp::Le, a.term@, b.term@)) }
}

/// `z3::ast::Real::gt`: the atom `a > b`.
#[verifier::external_body]
fn real_gt(a: &RealExpr, b: &RealExpr) -> (r: BoolExpr)
    ensures
        r.term@ == SmtBool::RealCmp(CmpOp::Gt, a.term@, b.term@),
{
    BoolExpr { ast: a.ast.gt(&b.ast), term: Ghost(SmtBool::RealCmp(CmpOp::Gt, a.term@, b.term@)) }
}

/// `z3::ast::Real::ge`: the atom `a >= b`.
#[verifier::external_body]
fn real_ge(a: &RealExpr, b: &RealExpr) -> (r: BoolExpr)
    ensures
        r.term@ == SmtBool::RealCmp(CmpOp::Ge, a.term@, b.term@),
{
    BoolExpr { ast: a.ast.ge(&b.ast), term: Ghost(SmtBool::RealCmp(CmpOp::Ge, a.term@, b.term@)) }
}

/// `z3::ast::Real::eq`: the atom `a = b` (both reals, so the sorts agree).
#[verifier::external_body]
fn real_eq(a: &RealExpr, b: &RealExpr) -> (r: BoolExpr)
    ensures
        r.term@ == SmtBool::RealCmp(CmpOp::Eq, a.term@, b.term@),
{
    BoolExpr { ast: a.ast.eq(&b.ast), term: Ghost(SmtBool::RealCmp(CmpOp::Eq, a.term@, b.term@)) }
}

/// `z3::ast::Bool::new_const`: the boolean constant named `name`. Making
/// the symbol panics on a name holding a NUL character.
#[verifier::external_body]
fn bool_const(name: &str) -> (r: BoolExpr)
    requires
        no_nul(name@),
    ensures
        r.term@ == SmtBool::Named(name@),
{
    BoolExpr { ast: z3::ast::Bool::new_const(name), term: Ghost(SmtBool::Named(name@)) }
}

/// `z3::ast::Bool::from_bool`: the boolean literal `b`.
#[verifier::external_body]
fn bool_value(b: bool) -> (r: BoolExpr)
    ensures
        r.term@ == SmtBool::Lit(b),
{
    BoolExpr { ast: z3::ast::Bool::from_bool(b), term: Ghost(SmtBool::Lit(b)) }
}

/// `z3::ast::Bool::not`: the negation of `a`.
#[verifier::external_body]
fn bool_not(a: &BoolExpr) -> (r: BoolExpr)
    ensures
        r.term@ == SmtBool::Not(Box::new(a.term@)),
{
    BoolExpr { ast: a.ast.not(), term: Ghost(SmtBool::Not(Box::new(a.term@))) }
}

/// The formulas of the expressions `xs`, in order.
spec fn terms_of(xs: Seq<BoolExpr>) -> Seq<SmtBool> {
    xs.map_values(|x: BoolExpr| x.term@)
}

/// `z3::ast::Bool::and`: the conjunction of `xs`, in order. The call
/// asserts that there are at most `u32::MAX` of them.
#[verifier::external_body]
fn bool_and(xs: &Vec<BoolExpr>) -> (r: BoolExpr)
    requires
        xs@.len() <= u32::MAX,
    ensures
        r.term@ == SmtBool::And(terms_of(xs@)),
{
    let asts: Vec<&z3::ast::Bool> = xs.iter().map(|x| &x.ast).collect();
    BoolExpr { ast: z3::ast::Bool::and(&asts), term: Ghost(SmtBool::And(terms_of(xs@))) }
}

/// `z3::ast::Bool::or`: the disjunction of `xs`, in order. The call
/// asserts that there are at most `u32::MAX` of them.
#[verifier::external_body]
fn bool_or(xs: &Vec<BoolExpr>) -> (r: BoolExpr)
    requires
        xs@.len() <= u32::MAX,
    ensures
        r.term@ == SmtBool::Or(terms_of(xs@)),
{
    let asts: Vec<&z3::ast::Bool> = xs.iter().map(|x| &x.ast).collect();
    BoolExpr { ast: z3::ast::Bool::or(&asts), term: Ghost(SmtBool::Or(terms_of(xs@))) }
}

/// `z3::ast::Bool::eq`: the atom `a = b` (both booleans, so the sorts
/// agree).
#[verifier::external_body]
fn bool_eq(a: &BoolExpr, b: &BoolExpr) -> (r: BoolExpr)
    ensures
        r.term@ == SmtBool::Eq(Box::new(a.term@), Box::new(b.term@)),
{
    BoolExpr { ast: a.ast.eq(&b.ast), term: Ghost(SmtBool::Eq(Box::new(a.term@), Box::new(b.term@))) }
}

/// `z3::Solver::new`: a solver with no assertions.
#[verifier::external_body]
fn solver_new() -> (r: Session)
    ensures
        r.asserted@ == Seq::<SmtBool>::empty(),
{
    Session { solver: z3::Solver::new(), asserted: Ghost(Seq::empty()) }
}

/// `z3::Params::new`: an empty parameter set.
/// The result is an opaque solver handle: no clause states what it holds.
#[verifier::external_body]
fn params_new() -> z3::Params {
    z3::Params::new()
}

/// `z3::Params::set_u32`: set parameter `key` to `value`. Making the symbol
/// panics on a key holding a NUL character.
/// The handles are opaque: no clause states the effect.
#[verifier::external_body]
fn params_set_u32(p: &mut z3::Params, key: &str, value: u32)
    requires
        no_nul(key@),
{
    p.set_u32(key, value)
}

/// `z3::Solver::set_params`: configure the solver with `p`. The
/// assertions stay as they are.
#[verifier::external_body]
fn solver_set_params(s: &Session, p: &z3::Params) {
    s.solver.set_params(p)
}

/// `z3::Solver::assert`: add the assertion `a`.
#[verifier::external_body]
fn solver_assert(s: &mut Session, a: &BoolExpr)
    ensures
        final(s).asserted@ == old(s).asserted@.push(a.term@),
{
    s.solver.assert(&a.ast);
    s.asserted = Ghost(s.asserted@.push(a.term@));
}

/// `z3::Solver::assert_and_track`: add the assertion `a`, tracked in unsat
/// cores by the boolean constant `label`. Checks take the label as an
/// assumption, so for a check the assertion stands as `label and a`.
#[verifier::external_body]
fn solver_assert_and_track(s: &mut Session, a: &BoolExpr, label: &BoolExpr)
    ensures
        final(s).asserted@ == old(s).asserted@.push(SmtBool::And(seq![label.term@, a.term@])),
{
    s.solver.assert_and_track(&a.ast, &label.ast);
    s.asserted = Ghost(s.asserted@.push(SmtBool::And(seq![label.term@, a.term@])));
}

/// What a satisfiability check gave.
pub enum Verdict {
    Sat,
    Unsat,
    Unknown,
}

/// `z3::Solver::check`: check the assertions. `Sat` means they have a
/// model and `Unsat` that they have none; `Unknown` (a timeout, say)
/// decides nothing.
#[verifier::external_body]
fn solver_check(s: &Session) -> (r: Verdict)
    ensures
        r is Sat ==> satisfiable(s.asserted@),
        r is Unsat ==> !satisfiable(s.asserted@),
{
    match s.solver.check() {
        z3::SatResult::Sat => Verdict::Sat,
        z3::SatResult::Unsat => Verdict::Unsat,
        z3::SatResult::Unknown => Verdict::Unknown,
    }
}

/// `z3::Solver::get_model`: the model of the last check, if there is one.
/// No clause states whether a model comes back or what it holds.
#[verifier::external_body]
fn solver_model(s: &Session) -> Option<z3::Model> {
    s.solver.get_model()
}

/// `z3::Solver::get_unsat_core`: the tracking labels of the unsat core of
/// the last check, each as its text.
/// No clause states which labels come back: that depends on the solver's search.
#[verifier::external_body]
fn solver_unsat_core(s: &Session) -> Vec<String> {
    s.solver.get_unsat_core().iter().map(|b| b.to_string()).collect()
}

/// `z3::Model::eval` at an integer, with model completion: the text of
/// the value that `m` gives `x`, when it gives one.
/// A constant always gets a value: with model completion, evaluation
/// fails only on quantifiers, on an ill-sorted term or when interrupted.
/// No clause states the value: it is the solver's model.
#[verifier::external_body]
fn eval_int(m: &z3::Model, x: &IntExpr) -> (r: Option<String>)
    ensures
        x.term@ is Named ==> r is Some,
{
    match m.eval(&x.ast, true) {
        Some(v) => Some(v.to_string()),
        None => None,
    }
}

/// `z3::Model::eval` at a real, with model completion: the text of the
/// value that `m` gives `x`, when it gives one.
/// A constant always gets a value: with model completion, evaluation
/// fails only on quantifiers, on an ill-sorted term or when interrupted.
/// No clause states the value: it is the solver's model.
#[verifier::external_body]
fn eval_real(m: &z3::Model, x: &RealExpr) -> (r: Option<String>)
    ensures
        x.term@ is Named ==> r is Some,
{
    match m.eval(&x.ast, true) {
        Some(v) => Some(v.to_string()),
        None => None,
    }
}

/// `z3::Model::eval` at a boolean, with model completion: the text of the
/// value that `m` gives `x`, when it gives one.
/// A constant always gets a value: with model completion, evaluation
/// fails only on quantifiers, on an ill-sorted term or when interrupted.
/// No clause states the value: it is the solver's model.
#[verifier::external_body]
fn eval_bool(m: &z3::Model, x: &BoolExpr) -> (r: Option<String>)
    ensures
        x.term@ is Named ==> r is Some,
{
    match m.eval(&x.ast, true) {
        Some(v) => Some(v.to_string()),
        None => None,
    }
}

// ─── terms as solver expressions ────────────────────────────────────────────

fn free_of_nul(s: &str) -> (b: bool)
    ensures
        b == no_nul(s@),
{
    let n = s.unicode_len();
    let mut i: usize = 0;
    while i < n
        invariant
            n == s@.len(),
            i <= n,
            forall|k: int| 0 <= k < i ==> s@[k] != '\0',
        decreases n - i,
    {
        if s.get_char(i) == '\0' {
            return false;
        }
        i += 1;
    }
    true
}

/// The table of the variables that `v` refers to among: pre-state or
/// current-state.
pub open spec fn table_of(c: (VarTable, VarTable), v: VarRef) -> VarTable {
    if v.old {
        c.1
    } else {
        c.0
    }
}

/// `v` refers to a variable of `c` registered at sort `s` under a name the
/// solver can take.
pub open spec fn var_ok(c: (VarTable, VarTable), v: VarRef, s: VarSort) -> bool {
    &&& v.index < table_of(c, v).len()
    &&& table_of(c, v)[v.index as int].1 == s
    &&& no_nul(table_of(c, v)[v.index as int].0)
}

/// Every variable of the integer term `t` is one of `c` at its sort.
pub open spec fn int_ok(c: (VarTable, VarTable), t: IntTerm) -> bool
    decreases t,
{
    match t {
        IntTerm::Const(_) => true,
        IntTerm::Var(v) => var_ok(c, v, VarSort::Int),
        IntTerm::Add(a, b) => int_ok(c, *a) && int_ok(c, *b),
        IntTerm::Sub(a, b) => int_ok(c, *a) && int_ok(c, *b),
        IntTerm::Mul(a, b) => int_ok(c, *a) && int_ok(c, *b),
        IntTerm::Div(a, b) => int_ok(c, *a) && int_ok(c, *b),
        IntTerm::Mod(a, b) => int_ok(c, *a) && int_ok(c, *b),
    }
}

/// Every variable of the real term `t` is one of `c` at its sort.
pub open spec fn real_ok(c: (VarTable, VarTable), t: RealTerm) -> bool
    decreases t,
{
    match t {
        RealTerm::Rational(_, _) => true,
        RealTerm::Var(v) => var_ok(c, v, VarSort::Real),
        RealTerm::FromInt(i) => int_ok(c, *i),
        RealTerm::Add(a, b) => real_ok(c, *a) && real_ok(c, *b),
        RealTerm::Sub(a, b) => real_ok(c, *a) && real_ok(c, *b),
        RealTerm::Mul(a, b) => real_ok(c, *a) && real_ok(c, *b),
        RealTerm::Div(a, b) => real_ok(c, *a) && real_ok(c, *b),
    }
}

/// The solver can take the boolean term `t`: every variable is one of `c`
/// at its sort, and no conjunction or disjunction has more than
/// `u32::MAX` parts.
pub open spec fn bool_ok(c: (VarTable, VarTable), t: BoolTermView) -> bool
    decreases t,
{
    match t {
        BoolTermView::Const(_) => true,
        BoolTermView::Var(v) => var_ok(c, v, VarSort::Bool),
        BoolTermView::Not(x) => bool_ok(c, *x),
        BoolTermView::And(xs) => xs.len() <= u32::MAX && bools_ok(c, xs),
        BoolTermView::Or(xs) => xs.len() <= u32::MAX && bools_ok(c, xs),
        BoolTermView::IntCmp(_, l, r) => int_ok(c, l) && int_ok(c, r),
        BoolTermView::RealCmp(_, l, r) => real_ok(c, l) && real_ok(c, r),
        BoolTermView::BoolEq(l, r) => bool_ok(c, *l) && bool_ok(c, *r),
    }
}

/// The solver can take each of the terms `xs`.
pub open spec fn bools_ok(c: (VarTable, VarTable), xs: Seq<BoolTermView>) -> bool
    decreases xs,
{
    if xs.len() == 0 {
        true
    } else {
        bools_ok(c, xs.drop_last()) && bool_ok(c, xs.last())
    }
}

proof fn lemma_bools_ok(c: (VarTable, VarTable), xs: Seq<BoolTermView>)
    ensures
        bools_ok(c, xs) <==> forall|i: int| 0 <= i < xs.len() ==> bool_ok(c, #[trigger] xs[i]),
    decreases xs.len(),
{
    if xs.len() > 0 {
        let d = xs.drop_last();
        lemma_bools_ok(c, d);
        if bools_ok(c, xs) {
            assert forall|i: int| 0 <= i < xs.len() implies bool_ok(c, #[trigger] xs[i]) by {
                if i < xs.len() - 1 {
                    assert(xs[i] == d[i]);
                }
            }
        }
        if forall|i: int| 0 <= i < xs.len() ==> bool_ok(c, #[trigger] xs[i]) {
            assert forall|i: int| 0 <= i < d.len() implies bool_ok(c, #[trigger] d[i]) by {
                assert(d[i] == xs[i]);
            }
            assert(bool_ok(c, xs[xs.len() - 1]));
        }
    }
}

/// The registered name and sort of the variable `v`, when `v` refers to
/// one.
fn var_entry(ctx: &EncodeContext, v: VarRef) -> (r: Option<(&str, VarSort)>)
    ensures
        r is Some <==> v.index < table_of(ctx@, v).len(),
        r matches Some(e) ==> e.0@ == table_of(ctx@, v)[v.index as int].0 && e.1 == table_of(
            ctx@,
            v,
        )[v.index as int].1,
{
    let table = if v.old {
        ctx.old_vars()
    } else {
        ctx.vars()
    };
    assert(table_view(table@) == table_of(ctx@, v));
    if v.index < table.len() {
        let entry = &table[v.index];
        Some((entry.0.as_str(), entry.1))
    } else {
        None
    }
}

/// The integer constant of `v`, when `v` refers to an integer variable
/// whose name the solver can take.
fn int_var(ctx: &EncodeContext, v: VarRef) -> (r: Option<IntExpr>)
    ensures
        r is Some <==> var_ok(ctx@, v, VarSort::Int),
        r matches Some(x) ==> x.term@ == SmtInt::Named(var_name(ctx@, v)),
{
    match var_entry(ctx, v) {
        Some((name, VarSort::Int)) => if free_of_nul(name) {
            Some(int_const(name))
        } else {
            None
        },
        _ => None,
    }
}

/// The real constant of `v`, when `v` refers to a real variable whose
/// name the solver can take.
fn real_var(ctx: &EncodeContext, v: VarRef) -> (r: Option<RealExpr>)
    ensures
        r is Some <==> var_ok(ctx@, v, VarSort::Real),
        r matches Some(x) ==> x.term@ == SmtReal::Named(var_name(ctx@, v)),
{
    match var_entry(ctx, v) {
        Some((name, VarSort::Real)) => if free_of_nul(name) {
            Some(real_const(name))
        } else {
            None
        },
        _ => None,
    }
}

/// The boolean constant of `v`, when `v` refers to a boolean variable
/// whose name the solver can take.
fn bool_var(ctx: &EncodeContext, v: VarRef) -> (r: Option<BoolExpr>)
    ensures
        r is Some <==> var_ok(ctx@, v, VarSort::Bool),
        r matches Some(x) ==> x.term@ == SmtBool::Named(var_name(ctx@, v)),
{
    match var_entry(ctx, v) {
        Some((name, VarSort::Bool)) => if free_of_nul(name) {
            Some(bool_const(name))
        } else {
            None
        },
        _ => None,
    }
}

/// The solver expression of an integer term; `None` when the term refers
/// to a variable that the context does not register as an integer.
fn int_expr(ctx: &EncodeContext, t: &IntTerm) -> (r: Option<IntExpr>)
    ensures
        r is Some <==> int_ok(ctx@, *t),
        r matches Some(x) ==> x.term@ == smt_int(ctx@, *t),
    decreases t,
{
    match t {
        IntTerm::Const(n) => Some(int_value(*n)),
        IntTerm::Var(v) => int_var(ctx, *v),
        IntTerm::Add(a, b) => {
            let x = int_expr(ctx, a)?;
            let y = int_expr(ctx, b)?;
            Some(int_add(&x, &y))
        },
        IntTerm::Sub(a, b) => {
            let x = int_expr(ctx, a)?;
            let y = int_expr(ctx, b)?;
            Some(int_sub(&x, &y))
        },
        IntTerm::Mul(a, b) => {
            let x = int_expr(ctx, a)?;
            let y = int_expr(ctx, b)?;
            Some(int_mul(&x, &y))
        },
        IntTerm::Div(a, b) => {
            let x = int_expr(ctx, a)?;
            let y = int_expr(ctx, b)?;
            Some(int_div(&x, &y))
        },
        IntTerm::Mod(a, b) => {
            let x = int_expr(ctx, a)?;
            let y = int_expr(ctx, b)?;
            Some(int_rem(&x, &y))
        },
    }
}

/// The solver expression of a real term; `None` when the term refers to a
/// variable that the context does not register at the sort used.
fn real_expr(ctx: &EncodeContext, t: &RealTerm) -> (r: Option<RealExpr>)
    ensures
        r is Some <==> real_ok(ctx@, *t),
        r matches Some(x) ==> x.term@ == smt_real(ctx@, *t),
    decreases t,
{
    match t {
        RealTerm::Rational(n, d) => {
            let num = int_to_real(&int_value(*n));
            let den = int_to_real(&int_value(*d));
            Some(real_div(&num, &den))
        },
        RealTerm::Var(v) => real_var(ctx, *v),
        RealTerm::FromInt(i) => {
            let x = int_expr(ctx, i)?;
            Some(int_to_real(&x))
        },
        RealTerm::Add(a, b) => {
            let x = real_expr(ctx, a)?;
            let y = real_expr(ctx, b)?;
            Some(real_add(&x, &y))
        },
        RealTerm::Sub(a, b) => {
            let x = real_expr(ctx, a)?;
            let y = real_expr(ctx, b)?;
            Some(real_sub(&x, &y))
        },
        RealTerm::Mul(a, b) => {
            let x = real_expr(ctx, a)?;
            let y = real_expr(ctx, b)?;
            Some(real_mul(&x, &y))
        },
        RealTerm::Div(a, b) => {
            let x = real_expr(ctx, a)?;
            let y = real_expr(ctx, b)?;
            Some(real_div(&x, &y))
        },
    }
}

fn int_atom(op: CmpOp, x: &IntExpr, y: &IntExpr) -> (r: BoolExpr)
    ensures
        r.term@ == SmtBool::IntCmp(op, x.term@, y.term@),
{
    match op {
        CmpOp::Ge => int_ge(x, y),
        CmpOp::Le => int_le(x, y),
        CmpOp::Gt => int_gt(x, y),
        CmpOp::Lt => int_lt(x, y),
        CmpOp::Eq => int_eq(x, y),
    }
}

fn real_atom(op: CmpOp, x: &RealExpr, y: &RealExpr) -> (r: BoolExpr)
    ensures
        r.term@ == SmtBool::RealCmp(op, x.term@, y.term@),
{
    match op {
        CmpOp::Ge => real_ge(x, y),
        CmpOp::Le => real_le(x, y),
        CmpOp::Gt => real_gt(x, y),
        CmpOp::Lt => real_lt(x, y),
        CmpOp::Eq => real_eq(x, y),
    }
}

/// The solver expression of a boolean term; `None` when the term refers
/// to a variable that the context does not register at the sort used.
fn bool_expr(ctx: &EncodeContext, t: &BoolTerm) -> (r: Option<BoolExpr>)
    ensures
        r is Some <==> bool_ok(ctx@, t@),
        r matches Some(x) ==> x.term@ == smt_bool(ctx@, t@),
    decreases t,
{
    match t {
        BoolTerm::Const(b) => Some(bool_value(*b)),
        BoolTerm::Var(v) => bool_var(ctx, *v),
        BoolTerm::Not(x) => {
            let e = bool_expr(ctx, x)?;
            Some(bool_not(&e))
        },
        BoolTerm::And(xs) => {
            proof {
                lemma_bool_views_len(xs@);
            }
            let es = bool_exprs(ctx, xs)?;
            Some(bool_and(&es))
        },
        BoolTerm::Or(xs) => {
            proof {
                lemma_bool_views_len(xs@);
            }
            let es = bool_exprs(ctx, xs)?;
            Some(bool_or(&es))
        },
        BoolTerm::IntCmp(op, l, r) => {
            let x = int_expr(ctx, l)?;
            let y = int_expr(ctx, r)?;
            Some(int_atom(*op, &x, &y))
        },
        BoolTerm::RealCmp(op, l, r) => {
            let x = real_expr(ctx, l)?;
            let y = real_expr(ctx, r)?;
            Some(real_atom(*op, &x, &y))
        },
        BoolTerm::BoolEq(l, r) => {
            let x = bool_expr(ctx, l)?;
            let y = bool_expr(ctx, r)?;
            Some(bool_eq(&x, &y))
        },
    }
}

/// The solver expressions of `v`, when there are at most `u32::MAX` of
/// them and each has one.
fn bool_exprs(ctx: &EncodeContext, v: &Vec<BoolTerm>) -> (r: Option<Vec<BoolExpr>>)
    ensures
        r is Some <==> v@.len() <= u32::MAX && bools_ok(ctx@, bool_views(v@)),
        r matches Some(es) ==> es@.len() == v@.len() && es@.len() <= u32::MAX && terms_of(es@)
            == smt_bools(ctx@, bool_views(v@)),
    decreases v,
{
    proof {
        lemma_bools_ok(ctx@, bool_views(v@));
        lemma_bool_views_len(v@);
    }
    if v.len() > 4294967295 {
        return None;
    }
    let mut out: Vec<BoolExpr> = Vec::new();
    let mut i: usize = 0;
    while i < v.len()
        invariant
            i <= v@.len(),
            v@.len() <= u32::MAX,
            out@.len() == i,
            bool_views(v@).len() == v@.len(),
            bools_ok(ctx@, bool_views(v@)) <==> forall|k: int|
                0 <= k < v@.len() ==> bool_ok(ctx@, #[trigger] bool_views(v@)[k]),
            forall|k: int| 0 <= k < i ==> bool_ok(ctx@, #[trigger] bool_views(v@)[k]),
            forall|k: int| 0 <= k < i ==> (#[trigger] out@[k]).term@ == smt_bool(ctx@, bool_views(v@)[k]),
        decreases v.len() - i,
    {
        proof {
            lemma_bool_views_index(v@, i as int);
        }
        let e = match bool_expr(ctx, &v[i]) {
            Some(e) => e,
            None => {
                assert(!bool_ok(ctx@, bool_views(v@)[i as int]));
                return None;
            },
        };
        out.push(e);
        i += 1;
    }
    proof {
        lemma_smt_bools(ctx@, bool_views(v@));
        assert(terms_of(out@) =~= smt_bools(ctx@, bool_views(v@)));
    }
    Some(out)
}

// ─── checks ─────────────────────────────────────────────────────────────────

/// How long the solver may take for one check, in milliseconds.
pub const SOLVER_TIMEOUT_MS: u32 = 30000;

/// A solver with no assertions whose checks time out after
/// `SOLVER_TIMEOUT_MS`.
fn fresh_solver() -> (r: Session)
    ensures
        r.asserted@ == Seq::<SmtBool>::empty(),
{
    let s = solver_new();
    let mut p = params_new();
    let key = "timeout";
    proof {
        reveal_strlit("timeout");
    }
    params_set_u32(&mut p, key, SOLVER_TIMEOUT_MS);
    solver_set_params(&s, &p);
    s
}

/// `name` is the name of a variable registered in `c`.
pub open spec fn is_registered(c: (VarTable, VarTable), name: Seq<char>) -> bool {
    ||| exists|i: int| 0 <= i < c.0.len() && (#[trigger] c.0[i]).0 == name
    ||| exists|i: int| 0 <= i < c.1.len() && (#[trigger] c.1[i]).0 == name
}

/// `m` is a model over the variables of `c`: its pairs name registered
/// variables and come sorted by name.
pub open spec fn model_over(c: (VarTable, VarTable), m: Seq<(Seq<char>, Seq<char>)>) -> bool {
    &&& sorted_by_name(m)
    &&& forall|k: int| 0 <= k < m.len() ==> is_registered(c, (#[trigger] m[k]).0)
}

/// The names of the entries of `t` that the solver can take (no NUL
/// character), in table order.
pub open spec fn clean_names(t: VarTable) -> Seq<Seq<char>>
    decreases t.len(),
{
    if t.len() == 0 {
        seq![]
    } else {
        let rest = clean_names(t.drop_last());
        if no_nul(t.last().0) {
            rest.push(t.last().0)
        } else {
            rest
        }
    }
}

/// The names of the pairs of a model.
pub open spec fn names_of(m: Seq<(Seq<char>, Seq<char>)>) -> Seq<Seq<char>> {
    m.map_values(|p: (Seq<char>, Seq<char>)| p.0)
}

/// The pre-state table of `c` when `pre_state`, else its current-state
/// table.
pub open spec fn state_table(c: (VarTable, VarTable), pre_state: bool) -> VarTable {
    if pre_state {
        c.1
    } else {
        c.0
    }
}

/// The names of the pairs of `out` from position `from` on.
pub open spec fn names_from(out: Seq<(String, String)>, from: int) -> Seq<Seq<char>> {
    out.subrange(from, out.len() as int).map_values(|p: (String, String)| p.0@)
}

/// Append to `out` the value that `model` gives each variable of one table
/// of `ctx` (pre-state or current-state) whose name the solver can take,
/// in table order.
fn eval_table(
    ctx: &EncodeContext,
    pre_state: bool,
    model: &z3::Model,
    out: &mut Vec<(String, String)>,
)
    requires
        forall|k: int| 0 <= k < old(out)@.len() ==> is_registered(ctx@, (#[trigger] old(out)@[k]).0@),
    ensures
        forall|k: int| 0 <= k < final(out)@.len() ==> is_registered(ctx@, (#[trigger] final(out)@[k]).0@),
        final(out)@.len() >= old(out)@.len(),
        final(out)@.subrange(0, old(out)@.len() as int) == old(out)@,
        names_from(final(out)@, old(out)@.len() as int) == clean_names(state_table(ctx@, pre_state)),
{
    let table = if pre_state {
        ctx.old_vars()
    } else {
        ctx.vars()
    };
    let ghost t = if pre_state {
        ctx@.1
    } else {
        ctx@.0
    };
    let ghost start = out@;
    assert(table_view(table@) == t);
    assert(t.take(0) =~= VarTable::empty());
    assert(names_from(out@, start.len() as int) =~= Seq::<Seq<char>>::empty());
    let mut i: usize = 0;
    while i < table.len()
        invariant
            i <= table@.len(),
            table_view(table@) == t,
            t == if pre_state {
                ctx@.1
            } else {
                ctx@.0
            },
            t.len() == table@.len(),
            out@.len() >= start.len(),
            out@.subrange(0, start.len() as int) == start,
            clean_names(t.take(i as int)) == names_from(out@, start.len() as int),
            forall|k: int| 0 <= k < out@.len() ==> is_registered(ctx@, (#[trigger] out@[k]).0@),
        decreases table.len() - i,
    {
        let name = table[i].0.as_str();
        let ghost before = out@;
        let ghost tk = t.take(i + 1);
        assert(tk.drop_last() =~= t.take(i as int));
        assert(tk.last() == t[i as int]);
        assert(t[i as int].0 == table@[i as int].0@);
        let mut got = false;
        let ghost prev_names = names_from(out@, start.len() as int);
        let clean = free_of_nul(name);
        if clean {
            let value = match table[i].1 {
                VarSort::Int => eval_int(model, &int_const(name)),
                VarSort::Real => eval_real(model, &real_const(name)),
                VarSort::Bool => eval_bool(model, &bool_const(name)),
            };
            match value {
                Some(text) => {
                    out.push((table[i].0.clone(), text));
                    got = true;
                    assert forall|k: int| 0 <= k < out@.len() implies is_registered(
                        ctx@,
                        (#[trigger] out@[k]).0@,
                    ) by {
                        if k < before.len() {
                            assert(out@[k] == before[k]);
                        }
                    }
                    assert(names_from(out@, start.len() as int) =~= names_from(before, start.len() as int).push(
                        t[i as int].0,
                    ));
                },
                None => {},
            }
        }
        proof {
            assert(got == no_nul(t[i as int].0));
            if got {
                assert(names_from(out@, start.len() as int) == prev_names.push(t[i as int].0));
                assert(clean_names(tk) == clean_names(t.take(i as int)).push(tk.last().0));
            } else {
                assert(out@ == before);
                assert(clean_names(tk) == clean_names(t.take(i as int)));
            }
            assert(out@.subrange(0, start.len() as int) =~= start);
        }
        i += 1;
    }
    assert(t.take(table@.len() as int) =~= t);
    assert(clean_names(state_table(ctx@, pre_state)) == names_from(out@, start.len() as int));
}

/// Sorting a model by name keeps its names, each as often.
proof fn lemma_sort_keeps_names(s: Seq<(Seq<char>, Seq<char>)>)
    ensures
        names_of(crate::plan::sort_by_name(s)).to_multiset() == names_of(s).to_multiset(),
    decreases s.len(),
{
    if s.len() == 0 {
        assert(names_of(s) =~= Seq::<Seq<char>>::empty());
    } else {
        let prev = s.drop_last();
        lemma_sort_keeps_names(prev);
        let t = crate::plan::sort_by_name(prev);
        let x = s.last();
        let p = crate::plan::first_after(t, x.0);
        crate::plan::lemma_first_after(t, x.0);
        assert(names_of(t.insert(p, x)) =~= names_of(t).insert(p, x.0));
        vstd::seq_lib::to_multiset_insert(names_of(t), p, x.0);
        assert(s =~= prev.push(x));
        assert(names_of(s) =~= names_of(prev).push(x.0));
        names_of(prev).to_multiset_ensures();
    }
}

impl EncodeContext {
    /// The values that `model` gives the registered variables, current
    /// state and pre-state alike, as `(name, value)` texts sorted by name:
    /// one pair for each variable whose name the solver can take (no NUL
    /// character). The values are the model's.
    pub fn format_model(&self, model: &z3::Model) -> (r: Vec<(String, String)>)
        ensures
            model_over(self@, pair_views(r@)),
            names_of(pair_views(r@)).to_multiset() == (clean_names(self@.0) + clean_names(self@.1)).to_multiset(),
    {
        let mut pairs: Vec<(String, String)> = Vec::new();
        eval_table(self, false, model, &mut pairs);
        let ghost first = pairs@;
        eval_table(self, true, model, &mut pairs);
        let r = sorted_pairs(&pairs);
        proof {
            let m = pair_views(pairs@);
            let s = pair_views(r@);
            assert(names_of(m) =~= names_from(pairs@, 0));
            assert(names_from(first, 0) =~= names_from(pairs@, 0).take(first.len() as int)) by {
                assert(pairs@.subrange(0, first.len() as int) == first);
            }
            assert(names_from(pairs@, 0) =~= names_from(first, 0) + names_from(pairs@, first.len() as int)) by {
                assert(pairs@.subrange(0, first.len() as int) == first);
            }
            assert(first.subrange(0, 0) =~= Seq::<(String, String)>::empty());
            assert(names_from(first, 0) == clean_names(self@.0));
            assert(names_of(m) == clean_names(self@.0) + clean_names(self@.1));
            lemma_sort_keeps_names(m);
            lemma_sort_by_name(m);
            m.to_multiset_ensures();
            s.to_multiset_ensures();
            assert forall|k: int| 0 <= k < s.len() implies is_registered(self@, (#[trigger] s[k]).0) by {
                assert(s.contains(s[k]));
                assert(s.to_multiset().count(s[k]) > 0);
                assert(s.to_multiset() == m.to_multiset());
                assert(m.to_multiset().count(s[k]) > 0);
                assert(m.contains(s[k]));
                let j = choose|j: int| 0 <= j < m.len() && m[j] == s[k];
                assert(m[j].0 == pairs@[j].0@);
            }
        }
        r
    }
}

/// `a` agrees with the formulas `fs`: a satisfiable answer comes only for
/// formulas with a model, an unsatisfiable one only for formulas without.
pub open spec fn answer_fits(a: AnswerView, fs: Seq<SmtBool>) -> bool {
    &&& a is Sat ==> satisfiable(fs)
    &&& a is Unsat ==> !satisfiable(fs)
}

/// Check the conjunction of `terms`, whose variables are those of `ctx`, in
/// a fresh solver: the solver is asked about the formulas of the terms
/// (`smt_bools`), and its answer is returned. A satisfiable answer carries,
/// when the solver gives a model, its value for every registered variable
/// (see `format_model`).
/// Terms that refer to a variable `ctx` does not register at the sort used
/// are not sent to the solver: the check is then undecided.
pub fn solve(terms: &Vec<BoolTerm>, ctx: &EncodeContext) -> (r: SolverAnswer)
    ensures
        answer_fits(r@, smt_bools(ctx@, bool_views(terms@))),
        r matches SolverAnswer::Sat(Some(m)) ==> model_over(ctx@, pair_views(m@)) && names_of(
            pair_views(m@),
        ).to_multiset() == (clean_names(ctx@.0) + clean_names(ctx@.1)).to_multiset(),
        (exists|i: int| 0 <= i < terms@.len() && !bool_ok(ctx@, (#[trigger] terms@[i])@)) ==> r is Unknown,
{
    let mut s = fresh_solver();
    let mut i: usize = 0;
    while i < terms.len()
        invariant
            i <= terms@.len(),
            forall|k: int| 0 <= k < i ==> bool_ok(ctx@, (#[trigger] terms@[k])@),
            s.asserted@.len() == i,
            forall|k: int| 0 <= k < i ==> #[trigger] s.asserted@[k] == smt_bool(ctx@, terms@[k]@),
        decreases terms.len() - i,
    {
        match bool_expr(ctx, &terms[i]) {
            Some(e) => solver_assert(&mut s, &e),
            None => return SolverAnswer::Unknown,
        }
        i += 1;
    }
    proof {
        let views = bool_views(terms@);
        lemma_bool_views_len(terms@);
        lemma_smt_bools(ctx@, views);
        assert forall|k: int| 0 <= k < terms@.len() implies s.asserted@[k] == smt_bools(ctx@, views)[k] by {
            lemma_bool_views_index(terms@, k);
        }
        assert(s.asserted@ =~= smt_bools(ctx@, views));
    }
    match solver_check(&s) {
        Verdict::Sat => match solver_model(&s) {
            Some(m) => SolverAnswer::Sat(Some(ctx.format_model(&m))),
            None => SolverAnswer::Sat(None),
        },
        Verdict::Unsat => SolverAnswer::Unsat,
        Verdict::Unknown => SolverAnswer::Unknown,
    }
}

// ─── node runs ──────────────────────────────────────────────────────────────

/// The assertions of check `kind` of the `Do` node `node` of `nodes`, given
/// the verified postconditions `child_posts` of its children and the facts
/// `promoted` promoted to it: the type constraints of its parameters; then
/// the child postconditions and its preconditions that encode; then the
/// promoted facts that encode; then the negation of the postcondition
/// checked.
pub open spec fn node_query(
    nodes: Seq<Node>,
    node: Node,
    child_posts: Seq<ConstraintView>,
    promoted: Seq<(NodeId, ConstraintView)>,
    kind: QueryKind,
) -> Seq<BoolTermView> {
    let c = node_context((Seq::empty(), Seq::empty()), nodes, node);
    let types = type_assertions(c, param_constraints(nodes, node.metadata.params@));
    let facts = encodable(c, child_posts) + oks(before_results(c, node.contracts@, node.id));
    let lifted = encodable_facts(c, promoted).map_values(|p: (NodeId, BoolTermView)| p.1);
    let posts = post_results(c, node.contracts@, node.id);
    match kind {
        QueryKind::TypeConstraints => types,
        QueryKind::Preconditions => types + facts,
        QueryKind::PromotedFacts => types + facts + lifted,
        QueryKind::Postcondition(i) => if i < posts.len() && posts[i as int].1 is Ok {
            types + facts + lifted + seq![BoolTermView::Not(Box::new(posts[i as int].1->Ok_0))]
        } else {
            types + facts + lifted
        },
    }
}

/// Each of the answers `a` to the checks of the run of `node` agrees with
/// the formulas of the check it answers: the `i`-th answer answers the check
/// that the run asks for after the answers before it (see
/// `node_outcome_of`), made of the formulas of its `node_query`.
pub open spec fn node_answers_fit(
    nodes: Seq<Node>,
    node: Node,
    child_posts: Seq<ConstraintView>,
    promoted: Seq<(NodeId, ConstraintView)>,
    a: Seq<AnswerView>,
) -> bool {
    forall|i: int|
        0 <= i < a.len() ==> match #[trigger] node_outcome_of(nodes, node, promoted, a.take(i)).1 {
            Some(k) => answer_fits(
                a[i],
                smt_bools(
                    node_context((Seq::empty(), Seq::empty()), nodes, node),
                    node_query(nodes, node, child_posts, promoted, k),
                ),
            ),
            None => false,
        }
}

/// `node_answers_fit` for the checks of a plan.
spec fn plan_answers_fit(plan: NodePlan, a: Seq<AnswerView>) -> bool {
    forall|i: int|
        0 <= i < a.len() ==> match #[trigger] plan_outcome(plan, a.take(i)).1 {
            Some(k) => answer_fits(a[i], smt_bools(plan.context@, query_of(plan, k))),
            None => false,
        }
}

/// The checks of a plan are those of the node it plans.
proof fn lemma_query_of(
    plan: NodePlan,
    nodes: Seq<Node>,
    node: Node,
    child_posts: Seq<ConstraintView>,
    promoted: Seq<(NodeId, ConstraintView)>,
    kind: QueryKind,
)
    requires
        is_plan(plan, nodes, node, child_posts, promoted),
    ensures
        query_of(plan, kind) == node_query(nodes, node, child_posts, promoted, kind),
{
    match kind {
        QueryKind::Postcondition(i) => {
            let posts = post_views(plan.posts@);
            assert(posts.len() == plan.posts@.len());
            if i < plan.posts@.len() {
                assert(posts[i as int] == post_view(plan.posts@[i as int]));
            }
        },
        _ => {},
    }
}

proof fn lemma_plan_fits(
    plan: NodePlan,
    nodes: Seq<Node>,
    node: Node,
    child_posts: Seq<ConstraintView>,
    promoted: Seq<(NodeId, ConstraintView)>,
    a: Seq<AnswerView>,
)
    requires
        is_plan(plan, nodes, node, child_posts, promoted),
        plan_answers_fit(plan, a),
    ensures
        node_answers_fit(nodes, node, child_posts, promoted, a),
        plan_outcome(plan, a) == node_outcome_of(nodes, node, promoted, a),
{
    lemma_plan_outcome(plan, nodes, node, child_posts, promoted, a);
    assert forall|i: int| 0 <= i < a.len() implies match #[trigger] node_outcome_of(
        nodes,
        node,
        promoted,
        a.take(i),
    ).1 {
        Some(k) => answer_fits(
            a[i],
            smt_bools(
                node_context((Seq::empty(), Seq::empty()), nodes, node),
                node_query(nodes, node, child_posts, promoted, k),
            ),
        ),
        None => false,
    } by {
        lemma_plan_outcome(plan, nodes, node, child_posts, promoted, a.take(i));
        assert(plan_outcome(plan, a.take(i)) == node_outcome_of(nodes, node, promoted, a.take(i)));
        match plan_outcome(plan, a.take(i)).1 {
            Some(k) => lemma_query_of(plan, nodes, node, child_posts, promoted, k),
            None => {},
        }
    }
}

/// Run the checks of `plan`, each in a fresh solver, until the node's run
/// is over; the answers are returned with the errors.
fn run_checks(plan: &NodePlan) -> (r: (Vec<VerifyError>, Vec<SolverAnswer>))
    ensures
        plan_outcome(*plan, answer_views(r.1@)) == (verify_error_views(r.0@), None::<crate::plan::QueryKind>),
        plan_answers_fit(*plan, answer_views(r.1@)),
{
    let mut answers: Vec<SolverAnswer> = Vec::new();
    let ghost bound = post_views(plan.posts@).len() + 3;
    assert(answer_views(answers@) =~= Seq::<AnswerView>::empty());
    loop
        invariant
            bound == post_views(plan.posts@).len() + 3,
            answers@.len() <= bound,
            plan_answers_fit(*plan, answer_views(answers@)),
        decreases bound - answers@.len(),
    {
        let (errors, next) = node_step(plan, answers.as_slice());
        match next {
            None => {
                return (errors, answers);
            },
            Some(kind) => {
                proof {
                    if answers@.len() >= bound {
                        lemma_node_outcome_ends(
                            plan.node_id,
                            verify_error_views(plan.before_errors@),
                            plan.promoted_terms@.len() > 0,
                            plan.promoted_sources@,
                            post_views(plan.posts@),
                            answer_views(answers@),
                        );
                    }
                }
                let terms = query_terms(plan, kind);
                let a = solve(&terms, &plan.context);
                let ghost before = answer_views(answers@);
                answers.push(a);
                proof {
                    let after = answer_views(answers@);
                    assert(after =~= before.push(a@));
                    assert forall|i: int| 0 <= i < after.len() implies match #[trigger] plan_outcome(
                        *plan,
                        after.take(i),
                    ).1 {
                        Some(k) => answer_fits(after[i], smt_bools(plan.context@, query_of(*plan, k))),
                        None => false,
                    } by {
                        if i < before.len() {
                            assert(after.take(i) =~= before.take(i));
                            assert(plan_outcome(*plan, before.take(i)).1 is Some);
                        } else {
                            assert(after.take(i) =~= before);
                        }
                    }
                }
            },
        }
    }
}

/// Verify the contracts of the `Do` node `node` of `graph`, with the
/// verified postconditions `child_posts` of its `Do` children and the
/// facts `promoted` promoted to it: the checks that `plan_do_node` plans
/// run in turn (see `node_outcome`), each asking the solver about the
/// formulas of its `node_query` (child postconditions among the facts,
/// promoted facts asserted from their check on), and the errors are the
/// node's outcome for the answers the solver gave.
pub fn verify_do_node(
    node: &Node,
    graph: &AilGraph,
    child_posts: &Vec<ConstraintExpr>,
    promoted: &Vec<(NodeId, ConstraintExpr)>,
) -> (r: Vec<VerifyError>)
    ensures
        exists|a: Seq<AnswerView>|
            #[trigger] node_outcome_of(graph@, *node, fact_views(promoted@), a) == (
                verify_error_views(r@),
                None::<crate::plan::QueryKind>,
            ) && node_answers_fit(graph@, *node, constraint_views(child_posts@), fact_views(promoted@), a),
{
    let plan = plan_do_node(node, graph, child_posts, promoted);
    let (errors, answers) = run_checks(&plan);
    proof {
        lemma_plan_fits(
            plan,
            graph@,
            *node,
            constraint_views(child_posts@),
            fact_views(promoted@),
            answer_views(answers@),
        );
    }
    errors
}

/// The verified postconditions recorded by a run that visits the nodes
/// `order` of `nodes` in turn, given the answers `a[i]` to the checks of
/// the `i`-th node visited: a node whose errors are all encoding failures
/// records its parsed postconditions.
pub open spec fn verified_after(nodes: Seq<Node>, order: Seq<int>, a: Seq<Seq<AnswerView>>) -> Seq<
    Option<Seq<ConstraintView>>,
>
    decreases order.len(),
{
    if order.len() == 0 || a.len() != order.len() {
        Seq::new(nodes.len(), |i: int| None::<Seq<ConstraintView>>)
    } else {
        let prev = verified_after(nodes, order.drop_last(), a.drop_last());
        let n = nodes[order.last()];
        if all_encoding_failures(node_outcome_of(nodes, n, node_promoted(n), a.last()).0) {
            prev.update(order.last(), Some(parsed_posts(n.contracts@)))
        } else {
            prev
        }
    }
}

/// The answers `a[j]` to the checks of the `j`-th node visited each fit
/// that node's checks, made with the postconditions its children had
/// verified by then (see `node_answers_fit`).
pub open spec fn run_answers_fit(nodes: Seq<Node>, order: Seq<int>, a: Seq<Seq<AnswerView>>) -> bool {
    forall|j: int|
        0 <= j < order.len() && j < a.len() ==> {
            let n = nodes[order[j]];
            node_answers_fit(
                nodes,
                n,
                child_posts_of(nodes, verified_after(nodes, order.take(j), a.take(j)), children_in(nodes, n.id)),
                node_promoted(n),
                #[trigger] a[j],
            )
        }
}

/// Verify the contracts of every `Do` node of `graph`, deepest first, each
/// node's verified postconditions becoming facts of its parent's checks
/// (see `VerificationRun`). The errors are, node after node in
/// `verification_order`, each node's outcome for the answers the solver
/// gave to its checks, and each answer fits the formulas of the check it
/// answers.
pub fn verify_contracts(graph: &AilGraph) -> (r: Vec<VerifyError>)
    ensures
        exists|a: Seq<Seq<AnswerView>>|
            #[trigger] run_errors(graph@, verification_order(graph@), a) == Some(verify_error_views(r@))
                && run_answers_fit(graph@, verification_order(graph@), a),
{
    let mut run = VerificationRun::new(graph);
    let ghost mut answers: Seq<Seq<AnswerView>> = seq![];
    assert(run@.order.take(0) =~= Seq::<int>::empty());
    assert(run@.verified =~= verified_after(graph@, run@.order.take(0), answers));
    loop
        invariant
            crate::plan::run_fits(run@, graph@),
            run@.order == verification_order(graph@),
            answers.len() == run@.next,
            run_errors(graph@, run@.order.take(run@.next), answers) == Some(run@.errors),
            run@.verified == verified_after(graph@, run@.order.take(run@.next), answers),
            run_answers_fit(graph@, run@.order.take(run@.next), answers),
        decreases run@.order.len() - run@.next,
    {
        match run.plan_next(graph) {
            None => {
                assert(run@.order.take(run@.next) =~= run@.order);
                assert(run_errors(graph@, verification_order(graph@), answers) == Some(run@.errors));
                return run.into_errors();
            },
            Some(plan) => {
                let ghost k = run@.order[run@.next];
                let ghost n = graph@[k];
                let ghost prefix = run@.order.take(run@.next);
                let ghost before = run@.errors;
                let ghost old_answers = answers;
                let ghost old_verified = run@.verified;
                let ghost cp = crate::plan::child_posts_of(
                    graph@,
                    run@.verified,
                    crate::model::children_in(graph@, n.id),
                );
                let (errors, node_answers) = run_checks(&plan);
                proof {
                    lemma_plan_fits(plan, graph@, n, cp, node_promoted(n), answer_views(node_answers@));
                    answers = answers.push(answer_views(node_answers@));
                }
                run.finish_node(graph, errors);
                proof {
                    let taken = run@.order.take(run@.next);
                    assert(taken.drop_last() =~= prefix);
                    assert(taken.last() == k);
                    assert(answers.drop_last() =~= old_answers);
                    assert(run@.verified == verified_after(graph@, taken, answers));
                    assert forall|j: int| 0 <= j < taken.len() && j < answers.len() implies {
                        let m = graph@[taken[j]];
                        node_answers_fit(
                            graph@,
                            m,
                            child_posts_of(
                                graph@,
                                verified_after(graph@, taken.take(j), answers.take(j)),
                                children_in(graph@, m.id),
                            ),
                            node_promoted(m),
                            #[trigger] answers[j],
                        )
                    } by {
                        if j < prefix.len() {
                            assert(taken.take(j) =~= prefix.take(j));
                            assert(answers.take(j) =~= old_answers.take(j));
                            assert(taken[j] == prefix[j]);
                            assert(answers[j] == old_answers[j]);
                        } else {
                            assert(taken.take(j) =~= prefix);
                            assert(answers.take(j) =~= old_answers);
                        }
                    }
                }
            },
        }
    }
}

// ─── overlap checks ─────────────────────────────────────────────────────────

/// The formulas a check of the labelled terms `ls` over the variables of
/// `c` asserts: each term's formula under its label.
pub open spec fn labelled_formulas(c: (VarTable, VarTable), ls: Seq<(Seq<char>, BoolTermView)>) -> Seq<
    SmtBool,
> {
    ls.map_values(
        |l: (Seq<char>, BoolTermView)| SmtBool::And(seq![SmtBool::Named(l.0), smt_bool(c, l.1)]),
    )
}

/// `a` agrees with the formulas `fs` (see `answer_fits`).
pub open spec fn overlap_answer_fits(a: OverlapAnswer, fs: Seq<SmtBool>) -> bool {
    &&& a is Sat ==> satisfiable(fs)
    &&& a is Unsat ==> !satisfiable(fs)
}

/// Check the labelled terms of `q` in a fresh solver, each tracked by a
/// constant named by its label: the solver is asked about
/// `labelled_formulas` of them, and its answer is returned. Labels or terms
/// the solver cannot take leave the check undecided.
fn check_labelled(q: &OverlapQuery) -> (r: OverlapAnswer)
    ensures
        overlap_answer_fits(r, labelled_formulas(q.context@, labelled_views(q.labelled@))),
        (exists|i: int|
            0 <= i < q.labelled@.len() && !(no_nul((#[trigger] q.labelled@[i]).label@) && bool_ok(
                q.context@,
                q.labelled@[i].term@,
            ))) ==> r is Unknown,
{
    let mut s = fresh_solver();
    let ghost fs = labelled_formulas(q.context@, labelled_views(q.labelled@));
    let mut i: usize = 0;
    while i < q.labelled.len()
        invariant
            i <= q.labelled@.len(),
            fs == labelled_formulas(q.context@, labelled_views(q.labelled@)),
            fs.len() == q.labelled@.len(),
            forall|k: int|
                0 <= k < i ==> no_nul((#[trigger] q.labelled@[k]).label@) && bool_ok(
                    q.context@,
                    q.labelled@[k].term@,
                ),
            s.asserted@.len() == i,
            forall|k: int| 0 <= k < i ==> #[trigger] s.asserted@[k] == fs[k],
        decreases q.labelled.len() - i,
    {
        let t = &q.labelled[i];
        if !free_of_nul(t.label.as_str()) {
            return OverlapAnswer::Unknown;
        }
        match bool_expr(&q.context, &t.term) {
            Some(e) => {
                let label = bool_const(t.label.as_str());
                solver_assert_and_track(&mut s, &e, &label);
            },
            None => return OverlapAnswer::Unknown,
        }
        i += 1;
    }
    assert(s.asserted@ =~= fs);
    match solver_check(&s) {
        Verdict::Sat => OverlapAnswer::Sat,
        Verdict::Unsat => OverlapAnswer::Unsat(solver_unsat_core(&s)),
        Verdict::Unknown => OverlapAnswer::Unknown,
    }
}

/// What the check of overlap `idx` may conclude: the precheck's result
/// when there is one, otherwise the conclusion of its query for an answer
/// of the solver that fits the query's labelled formulas.
pub open spec fn overlap_outcome(idx: nat, nerve: CechNerve, nodes: Seq<Node>, r: ResultView) -> bool {
    match precheck(idx, nerve, nodes) {
        Some(res) => r == res,
        None => exists|q: OverlapQuery, a: OverlapAnswer|
            is_query(q, idx, nerve, nodes) && overlap_answer_fits(
                a,
                labelled_formulas(q.context@, labelled_views(q.labelled@)),
            ) && #[trigger] conclusion(q, a) == r,
    }
}

/// What an overlap verdict means: an overlap is reported consistent only
/// when its precheck passes (both sections and nodes present, no parameter
/// declared at two sorts), every constraint of both sides encodes, and the
/// labelled formulas of its check are satisfiable; it is reported
/// contradictory only when the same holds but the formulas are
/// unsatisfiable. A failed precheck gives its result.
pub proof fn lemma_overlap_verdicts(idx: nat, nerve: CechNerve, nodes: Seq<Node>, r: ResultView)
    requires
        overlap_outcome(idx, nerve, nodes, r),
    ensures
        precheck(idx, nerve, nodes) matches Some(res) ==> r == res,
        r.status is Consistent ==> precheck(idx, nerve, nodes) is None && exists|q: OverlapQuery|
            is_query(q, idx, nerve, nodes) && q.encode_errors@.len() == 0 && #[trigger] satisfiable(
                labelled_formulas(q.context@, labelled_views(q.labelled@)),
            ),
        r.status is Contradictory ==> precheck(idx, nerve, nodes) is None && exists|q: OverlapQuery|
            is_query(q, idx, nerve, nodes) && q.encode_errors@.len() == 0 && !#[trigger] satisfiable(
                labelled_formulas(q.context@, labelled_views(q.labelled@)),
            ),
        r.status is Consistent <==> precheck(idx, nerve, nodes) is None && exists|q: OverlapQuery, a: OverlapAnswer|
            is_query(q, idx, nerve, nodes) && a is Sat && q.encode_errors@.len() == 0 && #[trigger] conclusion(q, a)
                == r,
{
    match precheck(idx, nerve, nodes) {
        Some(res) => {},
        None => {
            let (q, a) = choose|q: OverlapQuery, a: OverlapAnswer|
                is_query(q, idx, nerve, nodes) && overlap_answer_fits(
                    a,
                    labelled_formulas(q.context@, labelled_views(q.labelled@)),
                ) && #[trigger] conclusion(q, a) == r;
            match a {
                OverlapAnswer::Unsat(core) => crate::obstruction::lemma_overlap_conclusions(q, core),
                _ => crate::obstruction::lemma_overlap_conclusions(q, vstd::pervasive::arbitrary::<Vec<String>>()),
            }
        },
    }
    lemma_overlap_verdicts_directions(idx, nerve, nodes, r);
}

proof fn lemma_overlap_verdicts_directions(idx: nat, nerve: CechNerve, nodes: Seq<Node>, r: ResultView)
    requires
        overlap_outcome(idx, nerve, nodes, r),
    ensures
        precheck(idx, nerve, nodes) matches Some(res) ==> r == res,
        r.status is Consistent ==> precheck(idx, nerve, nodes) is None && exists|q: OverlapQuery|
            is_query(q, idx, nerve, nodes) && q.encode_errors@.len() == 0 && #[trigger] satisfiable(
                labelled_formulas(q.context@, labelled_views(q.labelled@)),
            ),
        r.status is Contradictory ==> precheck(idx, nerve, nodes) is None && exists|q: OverlapQuery|
            is_query(q, idx, nerve, nodes) && q.encode_errors@.len() == 0 && !#[trigger] satisfiable(
                labelled_formulas(q.context@, labelled_views(q.labelled@)),
            ),
{
    match precheck(idx, nerve, nodes) {
        Some(res) => {},
        None => {
            let (q, a) = choose|q: OverlapQuery, a: OverlapAnswer|
                is_query(q, idx, nerve, nodes) && overlap_answer_fits(
                    a,
                    labelled_formulas(q.context@, labelled_views(q.labelled@)),
                ) && #[trigger] conclusion(q, a) == r;
            assert(views(q.encode_errors@).len() == q.encode_errors@.len());
        },
    }
}

fn check_overlap(idx: usize, nerve: &CechNerve, graph: &AilGraph) -> (r: ObstructionResult)
    requires
        idx < nerve.overlaps@.len(),
    ensures
        overlap_outcome(idx as nat, *nerve, graph@, r@),
{
    match prepare_overlap(idx, nerve, graph) {
        OverlapStep::Decided(res) => res,
        OverlapStep::Check(q) => {
            let a = check_labelled(&q);
            let res = conclude_overlap(&q, &a);
            assert(is_query(q, idx as nat, *nerve, graph@) && overlap_answer_fits(
                a,
                labelled_formulas(q.context@, labelled_views(q.labelled@)),
            ) && conclusion(q, a) == res@);
            res
        },
    }
}

fn obstructions_over(nerve: &CechNerve, graph: &AilGraph) -> (r: Vec<ObstructionResult>)
    ensures
        r@.len() == nerve.overlaps@.len(),
        forall|i: int| 0 <= i < r@.len() ==> overlap_outcome(i as nat, *nerve, graph@, (#[trigger] r@[i])@),
{
    let mut out: Vec<ObstructionResult> = Vec::new();
    let mut i: usize = 0;
    while i < nerve.overlaps.len()
        invariant
            i <= nerve.overlaps@.len(),
            out@.len() == i,
            forall|k: int| 0 <= k < i ==> overlap_outcome(k as nat, *nerve, graph@, (#[trigger] out@[k])@),
        decreases nerve.overlaps.len() - i,
    {
        let res = check_overlap(i, nerve, graph);
        out.push(res);
        i += 1;
    }
    out
}

/// Check every overlap of `nerve` over the verified graph for an
/// obstruction: one result per overlap, in overlap order, each decided
/// without the solver when a section or node is missing or the two nodes
/// declare a parameter at different sorts, and otherwise concluded from
/// the solver's answer to the overlap's labelled terms.
pub fn detect_obstructions(nerve: &CechNerve, verified: &VerifiedGraph) -> (r: Vec<ObstructionResult>)
    ensures
        r@.len() == nerve.overlaps@.len(),
        forall|i: int|
            0 <= i < r@.len() ==> overlap_outcome(i as nat, *nerve, verified.graph_view(), (#[trigger] r@[i])@),
{
    obstructions_over(nerve, verified.graph())
}

/// Build the nerve of `graph` and check its overlaps for obstructions, as
/// diagnostics for a graph whose contracts may not have verified.
pub fn analyze_sheaf_obstructions(graph: &AilGraph) -> (r: (CechNerve, Vec<ObstructionResult>))
    ensures
        section_views(r.0.sections@) == nerve_of(graph@).0,
        overlap_views(r.0.overlaps@) == nerve_of(graph@).1,
        r.1@.len() == r.0.overlaps@.len(),
        forall|i: int| 0 <= i < r.1@.len() ==> overlap_outcome(i as nat, r.0, graph@, (#[trigger] r.1@[i])@),
{
    let nerve = build_nerve(graph);
    let results = obstructions_over(&nerve, graph);
    (nerve, results)
}

} // verus!
