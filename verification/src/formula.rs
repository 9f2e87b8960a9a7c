//! Formulas as the solver receives them.
//!
//! The terms of [`crate::encode`] refer to variables by their place in an
//! [`EncodeContext`](crate::encode::EncodeContext); the solver knows them
//! by name. The formulas here are what the solver's expressions stand for,
//! and the `smt_*` functions give the formula each term becomes.

use vstd::prelude::*;

use crate::encode::{BoolTermView, CmpOp, IntTerm, RealTerm, VarRef, VarTable};
use crate::solve::table_of;

verus! {

/// An integer expression of the solver.
pub enum SmtInt {
    Num(int),
    /// The integer constant with this name.
    Named(Seq<char>),
    Add(Box<SmtInt>, Box<SmtInt>),
    Sub(Box<SmtInt>, Box<SmtInt>),
    Mul(Box<SmtInt>, Box<SmtInt>),
    Div(Box<SmtInt>, Box<SmtInt>),
    Rem(Box<SmtInt>, Box<SmtInt>),
}

/// A real expression of the solver.
pub enum SmtReal {
    /// The real constant with this name.
    Named(Seq<char>),
    /// An integer expression as a real.
    OfInt(Box<SmtInt>),
    Add(Box<SmtReal>, Box<SmtReal>),
    Sub(Box<SmtReal>, Box<SmtReal>),
    Mul(Box<SmtReal>, Box<SmtReal>),
    Div(Box<SmtReal>, Box<SmtReal>),
}

/// A boolean expression of the solver.
pub enum SmtBool {
    Lit(bool),
    /// The boolean constant with this name.
    Named(Seq<char>),
    Not(Box<SmtBool>),
    And(Seq<SmtBool>),
    Or(Seq<SmtBool>),
    IntCmp(CmpOp, SmtInt, SmtInt),
    RealCmp(CmpOp, SmtReal, SmtReal),
    Eq(Box<SmtBool>, Box<SmtBool>),
}

/// The name under which variable `v` of `c` is known to the solver.
pub open spec fn var_name(c: (VarTable, VarTable), v: VarRef) -> Seq<char> {
    table_of(c, v)[v.index as int].0
}

/// The solver expression of the integer term `t`.
pub open spec fn smt_int(c: (VarTable, VarTable), t: IntTerm) -> SmtInt
    decreases t,
{
    match t {
        IntTerm::Const(n) => SmtInt::Num(n as int),
        IntTerm::Var(v) => SmtInt::Named(var_name(c, v)),
        IntTerm::Add(a, b) => SmtInt::Add(Box::new(smt_int(c, *a)), Box::new(smt_int(c, *b))),
        IntTerm::Sub(a, b) => SmtInt::Sub(Box::new(smt_int(c, *a)), Box::new(smt_int(c, *b))),
        IntTerm::Mul(a, b) => SmtInt::Mul(Box::new(smt_int(c, *a)), Box::new(smt_int(c, *b))),
        IntTerm::Div(a, b) => SmtInt::Div(Box::new(smt_int(c, *a)), Box::new(smt_int(c, *b))),
        IntTerm::Mod(a, b) => SmtInt::Rem(Box::new(smt_int(c, *a)), Box::new(smt_int(c, *b))),
    }
}

/// The solver expression of the real term `t`: a rational `n / d` is the
/// quotient of the two integers taken as reals.
pub open spec fn smt_real(c: (VarTable, VarTable), t: RealTerm) -> SmtReal
    decreases t,
{
    match t {
        RealTerm::Rational(n, d) => SmtReal::Div(
            Box::new(SmtReal::OfInt(Box::new(SmtInt::Num(n as int)))),
            Box::new(SmtReal::OfInt(Box::new(SmtInt::Num(d as int)))),
        ),
        RealTerm::Var(v) => SmtReal::Named(var_name(c, v)),
        RealTerm::FromInt(i) => SmtReal::OfInt(Box::new(smt_int(c, *i))),
        RealTerm::Add(a, b) => SmtReal::Add(Box::new(smt_real(c, *a)), Box::new(smt_real(c, *b))),
        RealTerm::Sub(a, b) => SmtReal::Sub(Box::new(smt_real(c, *a)), Box::new(smt_real(c, *b))),
        RealTerm::Mul(a, b) => SmtReal::Mul(Box::new(smt_real(c, *a)), Box::new(smt_real(c, *b))),
        RealTerm::Div(a, b) => SmtReal::Div(Box::new(smt_real(c, *a)), Box::new(smt_real(c, *b))),
    }
}

/// The solver expression of the boolean term `t`.
pub open spec fn smt_bool(c: (VarTable, VarTable), t: BoolTermView) -> SmtBool
    decreases t,
{
    match t {
        BoolTermView::Const(b) => SmtBool::Lit(b),
        BoolTermView::Var(v) => SmtBool::Named(var_name(c, v)),
        BoolTermView::Not(x) => SmtBool::Not(Box::new(smt_bool(c, *x))),
        BoolTermView::And(xs) => SmtBool::And(smt_bools(c, xs)),
        BoolTermView::Or(xs) => SmtBool::Or(smt_bools(c, xs)),
        BoolTermView::IntCmp(op, l, r) => SmtBool::IntCmp(op, smt_int(c, l), smt_int(c, r)),
        BoolTermView::RealCmp(op, l, r) => SmtBool::RealCmp(op, smt_real(c, l), smt_real(c, r)),
        BoolTermView::BoolEq(l, r) => SmtBool::Eq(Box::new(smt_bool(c, *l)), Box::new(smt_bool(c, *r))),
    }
}

/// The solver expressions of the terms `xs`, in order.
pub open spec fn smt_bools(c: (VarTable, VarTable), xs: Seq<BoolTermView>) -> Seq<SmtBool>
    decreases xs,
{
    if xs.len() == 0 {
        seq![]
    } else {
        smt_bools(c, xs.drop_last()).push(smt_bool(c, xs.last()))
    }
}

pub proof fn lemma_smt_bools(c: (VarTable, VarTable), xs: Seq<BoolTermView>)
    ensures
        smt_bools(c, xs).len() == xs.len(),
        forall|i: int| 0 <= i < xs.len() ==> #[trigger] smt_bools(c, xs)[i] == smt_bool(c, xs[i]),
    decreases xs.len(),
{
    if xs.len() > 0 {
        let d = xs.drop_last();
        lemma_smt_bools(c, d);
        assert forall|i: int| 0 <= i < xs.len() implies #[trigger] smt_bools(c, xs)[i] == smt_bool(
            c,
            xs[i],
        ) by {
            if i < xs.len() - 1 {
                assert(xs[i] == d[i]);
            }
        }
    }
}

/// Whether the conjunction of `fs` has a model: what the solver decides
/// when it answers a check.
pub uninterp spec fn satisfiable(fs: Seq<SmtBool>) -> bool;

} // verus!
