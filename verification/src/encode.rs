//! Encoding of contract expressions as solver terms.
//!
//! Integer, real and boolean terms are built over variables registered in an
//! [`EncodeContext`]. Terms refer to a variable by its position in the
//! context; the context holds the variable's solver name (a dotted path such
//! as `sender.balance`, or `old__sender.balance` for its pre-state value)
//! and its sort.

use vstd::prelude::*;

use crate::expr::{
    lemma_value_views_index, lemma_value_views_take, value_views, ArithOp, CompareOp,
    ConstraintExpr, ConstraintView, LiteralValue, LiteralView, ValueExpr, ValueView,
    constraint_views, lemma_constraint_views_take, lemma_constraint_views_index,
};
use crate::text::views;

verus! {

/// The sort of a registered solver variable.
#[derive(Debug, Clone, Copy, PartialEq, Eq, Structural)]
pub enum VarSort {
    Int,
    Real,
    Bool,
}

/// A registered variable: current-state (`old == false`) or pre-state, and
/// its position among the context's variables of that kind.
#[derive(Debug, Clone, Copy, PartialEq, Eq, Structural)]
pub struct VarRef {
    pub old: bool,
    pub index: usize,
}

/// Comparison relations of terms. `!=` is encoded as the negation of `Eq`.
#[derive(Debug, Clone, Copy, PartialEq, Eq, Structural)]
pub enum CmpOp {
    Ge,
    Le,
    Gt,
    Lt,
    Eq,
}

/// An integer term. Division and remainder are Euclidean.
#[derive(Debug)]
pub enum IntTerm {
    Const(i64),
    Var(VarRef),
    Add(Box<IntTerm>, Box<IntTerm>),
    Sub(Box<IntTerm>, Box<IntTerm>),
    Mul(Box<IntTerm>, Box<IntTerm>),
    Div(Box<IntTerm>, Box<IntTerm>),
    Mod(Box<IntTerm>, Box<IntTerm>),
}

/// A real term. `Rational(n, d)` is `n / d`.
#[derive(Debug)]
pub enum RealTerm {
    Rational(i64, i64),
    Var(VarRef),
    FromInt(Box<IntTerm>),
    Add(Box<RealTerm>, Box<RealTerm>),
    Sub(Box<RealTerm>, Box<RealTerm>),
    Mul(Box<RealTerm>, Box<RealTerm>),
    Div(Box<RealTerm>, Box<RealTerm>),
}

/// A boolean term.
#[derive(Debug)]
pub enum BoolTerm {
    Const(bool),
    Var(VarRef),
    Not(Box<BoolTerm>),
    And(Vec<BoolTerm>),
    Or(Vec<BoolTerm>),
    IntCmp(CmpOp, Box<IntTerm>, Box<IntTerm>),
    RealCmp(CmpOp, Box<RealTerm>, Box<RealTerm>),
    BoolEq(Box<BoolTerm>, Box<BoolTerm>),
}

/// The content of a `BoolTerm`.
pub enum BoolTermView {
    Const(bool),
    Var(VarRef),
    Not(Box<BoolTermView>),
    And(Seq<BoolTermView>),
    Or(Seq<BoolTermView>),
    IntCmp(CmpOp, IntTerm, IntTerm),
    RealCmp(CmpOp, RealTerm, RealTerm),
    BoolEq(Box<BoolTermView>, Box<BoolTermView>),
}

/// The views of a sequence of boolean terms.
pub open spec fn bool_views(s: Seq<BoolTerm>) -> Seq<BoolTermView>
    decreases s,
{
    if s.len() == 0 {
        seq![]
    } else {
        bool_views(s.drop_last()).push(bool_view(s.last()))
    }
}

/// The view of a boolean term.
pub open spec fn bool_view(t: BoolTerm) -> BoolTermView
    decreases t,
{
    match t {
        BoolTerm::Const(b) => BoolTermView::Const(b),
        BoolTerm::Var(v) => BoolTermView::Var(v),
        BoolTerm::Not(x) => BoolTermView::Not(Box::new(bool_view(*x))),
        BoolTerm::And(xs) => BoolTermView::And(bool_views(xs@)),
        BoolTerm::Or(xs) => BoolTermView::Or(bool_views(xs@)),
        BoolTerm::IntCmp(op, l, r) => BoolTermView::IntCmp(op, *l, *r),
        BoolTerm::RealCmp(op, l, r) => BoolTermView::RealCmp(op, *l, *r),
        BoolTerm::BoolEq(l, r) => BoolTermView::BoolEq(Box::new(bool_view(*l)), Box::new(bool_view(*r))),
    }
}

impl View for BoolTerm {
    type V = BoolTermView;

    open spec fn view(&self) -> BoolTermView {
        bool_view(*self)
    }
}

/// Why an expression could not be encoded.
#[derive(Debug, Clone, PartialEq, Eq)]
pub enum EncodeError {
    /// A construct that the encoding does not support.
    UnsupportedConstraint { variant: &'static str },
    /// A referenced path is not registered in the context.
    UnboundVariable { name: String },
    /// A term of one sort was needed and another was found.
    SortMismatch { expected: &'static str, found: &'static str },
}

/// The content of an `EncodeError`.
pub enum EncodeErrorView {
    UnsupportedConstraint { variant: Seq<char> },
    UnboundVariable { name: Seq<char> },
    SortMismatch { expected: Seq<char>, found: Seq<char> },
}

impl View for EncodeError {
    type V = EncodeErrorView;

    open spec fn view(&self) -> EncodeErrorView {
        match self {
            EncodeError::UnsupportedConstraint { variant } =>
                EncodeErrorView::UnsupportedConstraint { variant: variant@ },
            EncodeError::UnboundVariable { name } => EncodeErrorView::UnboundVariable {
                name: name@,
            },
            EncodeError::SortMismatch { expected, found } => EncodeErrorView::SortMismatch {
                expected: expected@,
                found: found@,
            },
        }
    }
}

/// An unsupported construct.
pub open spec fn unsupported(v: Seq<char>) -> EncodeErrorView {
    EncodeErrorView::UnsupportedConstraint { variant: v }
}

/// A sort mismatch.
pub open spec fn mismatch(expected: Seq<char>, found: Seq<char>) -> EncodeErrorView {
    EncodeErrorView::SortMismatch { expected, found }
}

// ─── context ────────────────────────────────────────────────────────────────

/// Registered variables: (solver name, sort), current-state then pre-state.
pub type VarTable = Seq<(Seq<char>, VarSort)>;

/// Position of the first variable named `k`, or `-1`.
pub open spec fn key_index(s: VarTable, k: Seq<char>) -> int
    decreases s.len(),
{
    if s.len() == 0 {
        -1
    } else {
        let i = key_index(s.drop_last(), k);
        if i >= 0 {
            i
        } else if s.last().0 == k {
            s.len() - 1
        } else {
            -1
        }
    }
}

/// `s` with `k` registered at sort `sort`: an existing entry is replaced in
/// place, a new one is appended.
pub open spec fn table_insert(s: VarTable, k: Seq<char>, sort: VarSort) -> VarTable {
    let i = key_index(s, k);
    if i >= 0 {
        s.update(i, (k, sort))
    } else {
        s.push((k, sort))
    }
}

/// The key of a dotted path: its segments joined by `.`.
pub open spec fn join_dot(parts: Seq<Seq<char>>) -> Seq<char>
    decreases parts.len(),
{
    if parts.len() == 0 {
        seq![]
    } else if parts.len() == 1 {
        parts[0]
    } else {
        join_dot(parts.drop_last()) + "."@ + parts.last()
    }
}

/// The storage key of a pre-state variable.
pub open spec fn old_key_of(name: Seq<char>) -> Seq<char> {
    "old__"@ + name
}

/// The registration of a current-state path, if any.
pub open spec fn lookup_var(c: (VarTable, VarTable), path: Seq<Seq<char>>) -> Option<
    (VarRef, VarSort),
> {
    let i = key_index(c.0, join_dot(path));
    if i >= 0 {
        Some((VarRef { old: false, index: i as usize }, c.0[i].1))
    } else {
        None
    }
}

/// The registration of a pre-state path, if any.
pub open spec fn lookup_old_var(c: (VarTable, VarTable), path: Seq<Seq<char>>) -> Option<
    (VarRef, VarSort),
> {
    let i = key_index(c.1, old_key_of(join_dot(path)));
    if i >= 0 {
        Some((VarRef { old: true, index: i as usize }, c.1[i].1))
    } else {
        None
    }
}

/// The variables that encoded terms refer to.
#[derive(Debug)]
pub struct EncodeContext {
    vars: Vec<(String, VarSort)>,
    old_vars: Vec<(String, VarSort)>,
}

/// The views of a variable table.
pub open spec fn table_view(v: Seq<(String, VarSort)>) -> VarTable {
    v.map_values(|e: (String, VarSort)| (e.0@, e.1))
}

impl View for EncodeContext {
    type V = (VarTable, VarTable);

    closed spec fn view(&self) -> (VarTable, VarTable) {
        (table_view(self.vars@), table_view(self.old_vars@))
    }
}

proof fn lemma_key_index(s: VarTable, k: Seq<char>)
    ensures
        -1 <= key_index(s, k) < s.len(),
        key_index(s, k) >= 0 ==> s[key_index(s, k)].0 == k,
    decreases s.len(),
{
    if s.len() > 0 {
        lemma_key_index(s.drop_last(), k);
    }
}

proof fn lemma_key_index_prefix(s: VarTable, k: Seq<char>, i: int)
    requires
        0 <= i < s.len(),
        key_index(s.take(i), k) == -1,
        s[i].0 == k,
    ensures
        key_index(s, k) == i,
    decreases s.len(),
{
    if i < s.len() - 1 {
        assert(s.drop_last().take(i) =~= s.take(i));
        lemma_key_index_prefix(s.drop_last(), k, i);
    } else {
        assert(s.drop_last() =~= s.take(i));
    }
}

fn find_key(v: &Vec<(String, VarSort)>, key: &String) -> (r: Option<usize>)
    ensures
        r matches Some(i) ==> i == key_index(table_view(v@), key@) && i < v@.len(),
        r is None ==> key_index(table_view(v@), key@) == -1,
{
    let mut i: usize = 0;
    while i < v.len()
        invariant
            i <= v@.len(),
            key_index(table_view(v@).take(i as int), key@) == -1,
        decreases v.len() - i,
    {
        assert(table_view(v@).take(i + 1).drop_last() =~= table_view(v@).take(i as int));
        if v[i].0 == *key {
            proof {
                lemma_key_index_prefix(table_view(v@), key@, i as int);
            }
            return Some(i);
        }
        i += 1;
    }
    assert(table_view(v@).take(i as int) =~= table_view(v@));
    None
}

fn table_register(v: &mut Vec<(String, VarSort)>, key: String, sort: VarSort) -> (r: usize)
    ensures
        table_view(final(v)@) == table_insert(table_view(old(v)@), key@, sort),
        r == key_index(table_insert(table_view(old(v)@), key@, sort), key@),
        r < final(v)@.len(),
{
    let ghost k = key@;
    match find_key(v, &key) {
        Some(i) => {
            proof {
                lemma_key_index(table_view(v@), k);
            }
            v.set(i, (key, sort));
            assert(table_view(v@) =~= table_view(old(v)@).update(i as int, (k, sort)));
            proof {
                lemma_key_index_update(table_view(old(v)@), k, sort, i as int);
            }
            i
        },
        None => {
            let n = v.len();
            v.push((key, sort));
            assert(table_view(v@) =~= table_view(old(v)@).push((k, sort)));
            proof {
                lemma_key_index_push(table_view(old(v)@), k, sort);
            }
            n
        },
    }
}

proof fn lemma_key_index_update(s: VarTable, k: Seq<char>, sort: VarSort, i: int)
    requires
        i == key_index(s, k),
        0 <= i < s.len(),
    ensures
        key_index(s.update(i, (k, sort)), k) == i,
    decreases s.len(),
{
    let t = s.update(i, (k, sort));
    if i < s.len() - 1 {
        assert(t.drop_last() =~= s.drop_last().update(i, (k, sort)));
        lemma_key_index_update(s.drop_last(), k, sort, i);
    } else {
        assert(t.drop_last() =~= s.drop_last());
    }
}

proof fn lemma_key_index_push(s: VarTable, k: Seq<char>, sort: VarSort)
    requires
        key_index(s, k) == -1,
    ensures
        key_index(s.push((k, sort)), k) == s.len(),
{
    assert(s.push((k, sort)).drop_last() =~= s);
}

/// Join path segments with `.`: `["sender", "balance"]` becomes `sender.balance`.
pub fn var_key(path: &[String]) -> (r: String)
    ensures
        r@ == join_dot(views(path@)),
{
    let mut out = String::new();
    let mut i: usize = 0;
    while i < path.len()
        invariant
            i <= path@.len(),
            out@ == join_dot(views(path@).take(i as int)),
        decreases path.len() - i,
    {
        let ghost before = out@;
        assert(views(path@).take(i + 1).drop_last() =~= views(path@).take(i as int));
        assert(views(path@).take(i + 1).last() == path@[i as int]@);
        if i > 0 {
            out.append(".");
        }
        out.append(path[i].as_str());
        proof {
            if i == 0 {
                assert(views(path@).take(1).len() == 1);
                assert(out@ =~= path@[0]@);
            }
        }
        i += 1;
    }
    assert(views(path@).take(path@.len() as int) =~= views(path@));
    out
}

/// The storage key of a pre-state variable: `sender.balance` becomes
/// `old__sender.balance`.
pub fn old_key(name: &str) -> (r: String)
    ensures
        r@ == old_key_of(name@),
{
    let mut out = String::from_str("old__");
    out.append(name);
    out
}

impl EncodeContext {
    /// An empty context.
    pub fn new() -> (c: EncodeContext)
        ensures
            c@ == (VarTable::empty(), VarTable::empty()),
    {
        let c = EncodeContext { vars: Vec::new(), old_vars: Vec::new() };
        assert(c@.0 =~= VarTable::empty());
        assert(c@.1 =~= VarTable::empty());
        c
    }

    /// The registered current-state variables, in registration order.
    pub fn vars(&self) -> (r: &Vec<(String, VarSort)>)
        ensures
            table_view(r@) == self@.0,
    {
        &self.vars
    }

    /// The registered pre-state variables, in registration order.
    pub fn old_vars(&self) -> (r: &Vec<(String, VarSort)>)
        ensures
            table_view(r@) == self@.1,
    {
        &self.old_vars
    }

    /// Register a current-state variable under `name`.
    pub fn add_var(&mut self, name: &str, sort: VarSort) -> (v: VarRef)
        ensures
            final(self)@ == (table_insert(old(self)@.0, name@, sort), old(self)@.1),
            v == (VarRef {
                old: false,
                index: key_index(final(self)@.0, name@) as usize,
            }),
    {
        let i = table_register(&mut self.vars, String::from_str(name), sort);
        VarRef { old: false, index: i }
    }

    /// Register a pre-state variable for `name` (stored under `old__{name}`).
    pub fn add_old_var(&mut self, name: &str, sort: VarSort) -> (v: VarRef)
        ensures
            final(self)@ == (old(self)@.0, table_insert(old(self)@.1, old_key_of(name@), sort)),
            v == (VarRef {
                old: true,
                index: key_index(final(self)@.1, old_key_of(name@)) as usize,
            }),
    {
        let i = table_register(&mut self.old_vars, old_key(name), sort);
        VarRef { old: true, index: i }
    }

    /// Register an integer variable.
    pub fn add_int_var(&mut self, name: &str) -> (v: VarRef)
        ensures
            final(self)@ == (table_insert(old(self)@.0, name@, VarSort::Int), old(self)@.1),
    {
        self.add_var(name, VarSort::Int)
    }

    /// Register a real variable.
    pub fn add_real_var(&mut self, name: &str) -> (v: VarRef)
        ensures
            final(self)@ == (table_insert(old(self)@.0, name@, VarSort::Real), old(self)@.1),
    {
        self.add_var(name, VarSort::Real)
    }

    /// Register a boolean variable.
    pub fn add_bool_var(&mut self, name: &str) -> (v: VarRef)
        ensures
            final(self)@ == (table_insert(old(self)@.0, name@, VarSort::Bool), old(self)@.1),
    {
        self.add_var(name, VarSort::Bool)
    }

    /// Register an integer pre-state variable.
    pub fn add_old_int_var(&mut self, name: &str) -> (v: VarRef)
        ensures
            final(self)@ == (old(self)@.0, table_insert(
                old(self)@.1,
                old_key_of(name@),
                VarSort::Int,
            )),
    {
        self.add_old_var(name, VarSort::Int)
    }

    /// Register a real pre-state variable.
    pub fn add_old_real_var(&mut self, name: &str) -> (v: VarRef)
        ensures
            final(self)@ == (old(self)@.0, table_insert(
                old(self)@.1,
                old_key_of(name@),
                VarSort::Real,
            )),
    {
        self.add_old_var(name, VarSort::Real)
    }

    /// Register a boolean pre-state variable.
    pub fn add_old_bool_var(&mut self, name: &str) -> (v: VarRef)
        ensures
            final(self)@ == (old(self)@.0, table_insert(
                old(self)@.1,
                old_key_of(name@),
                VarSort::Bool,
            )),
    {
        self.add_old_var(name, VarSort::Bool)
    }

    /// The current-state variable of a dotted path, if registered.
    pub fn get_var(&self, path: &[String]) -> (r: Option<(VarRef, VarSort)>)
        ensures
            r == lookup_var(self@, views(path@)),
    {
        let key = var_key(path);
        match find_key(&self.vars, &key) {
            Some(i) => Some((VarRef { old: false, index: i }, self.vars[i].1)),
            None => None,
        }
    }

    /// The pre-state variable of a dotted path, if registered.
    pub fn get_old_var(&self, path: &[String]) -> (r: Option<(VarRef, VarSort)>)
        ensures
            r == lookup_old_var(self@, views(path@)),
    {
        let key = old_key(var_key(path).as_str());
        match find_key(&self.old_vars, &key) {
            Some(i) => Some((VarRef { old: true, index: i }, self.old_vars[i].1)),
            None => None,
        }
    }

    /// The current-state variable of a path, or `UnboundVariable` naming it.
    pub fn require_var(&self, path: &[String]) -> (r: Result<(VarRef, VarSort), EncodeError>)
        ensures
            r matches Ok(x) ==> lookup_var(self@, views(path@)) == Some(x),
            r matches Err(e) ==> lookup_var(self@, views(path@)) is None && e@
                == (EncodeErrorView::UnboundVariable { name: join_dot(views(path@)) }),
    {
        match self.get_var(path) {
            Some(x) => Ok(x),
            None => Err(EncodeError::UnboundVariable { name: var_key(path) }),
        }
    }

    /// The pre-state variable of a path, or `UnboundVariable` naming
    /// `old(path)`.
    pub fn require_old_var(&self, path: &[String]) -> (r: Result<(VarRef, VarSort), EncodeError>)
        ensures
            r matches Ok(x) ==> lookup_old_var(self@, views(path@)) == Some(x),
            r matches Err(e) ==> lookup_old_var(self@, views(path@)) is None && e@
                == (EncodeErrorView::UnboundVariable {
                name: "old("@ + join_dot(views(path@)) + ")"@,
            }),
    {
        match self.get_old_var(path) {
            Some(x) => Ok(x),
            None => {
                let mut name = String::from_str("old(");
                name.append(var_key(path).as_str());
                name.append(")");
                Err(EncodeError::UnboundVariable { name })
            },
        }
    }
}

// ─── term helpers ───────────────────────────────────────────────────────────

impl IntTerm {
    /// A copy of the term.
    pub fn duplicate(&self) -> (r: IntTerm)
        ensures
            r == *self,
        decreases self,
    {
        match self {
            IntTerm::Const(n) => IntTerm::Const(*n),
            IntTerm::Var(v) => IntTerm::Var(*v),
            IntTerm::Add(a, b) => IntTerm::Add(Box::new(a.duplicate()), Box::new(b.duplicate())),
            IntTerm::Sub(a, b) => IntTerm::Sub(Box::new(a.duplicate()), Box::new(b.duplicate())),
            IntTerm::Mul(a, b) => IntTerm::Mul(Box::new(a.duplicate()), Box::new(b.duplicate())),
            IntTerm::Div(a, b) => IntTerm::Div(Box::new(a.duplicate()), Box::new(b.duplicate())),
            IntTerm::Mod(a, b) => IntTerm::Mod(Box::new(a.duplicate()), Box::new(b.duplicate())),
        }
    }
}

impl RealTerm {
    /// A copy of the term.
    pub fn duplicate(&self) -> (r: RealTerm)
        ensures
            r == *self,
        decreases self,
    {
        match self {
            RealTerm::Rational(n, d) => RealTerm::Rational(*n, *d),
            RealTerm::Var(v) => RealTerm::Var(*v),
            RealTerm::FromInt(i) => RealTerm::FromInt(Box::new(i.duplicate())),
            RealTerm::Add(a, b) => RealTerm::Add(Box::new(a.duplicate()), Box::new(b.duplicate())),
            RealTerm::Sub(a, b) => RealTerm::Sub(Box::new(a.duplicate()), Box::new(b.duplicate())),
            RealTerm::Mul(a, b) => RealTerm::Mul(Box::new(a.duplicate()), Box::new(b.duplicate())),
            RealTerm::Div(a, b) => RealTerm::Div(Box::new(a.duplicate()), Box::new(b.duplicate())),
        }
    }
}

// ─── encoding specification ─────────────────────────────────────────────────

/// The context's content.
pub type Ctx = (VarTable, VarTable);

/// An arithmetic operation on integer terms.
pub open spec fn arith_int(op: ArithOp, l: IntTerm, r: IntTerm) -> IntTerm {
    match op {
        ArithOp::Add => IntTerm::Add(Box::new(l), Box::new(r)),
        ArithOp::Sub => IntTerm::Sub(Box::new(l), Box::new(r)),
        ArithOp::Mul => IntTerm::Mul(Box::new(l), Box::new(r)),
        ArithOp::Div => IntTerm::Div(Box::new(l), Box::new(r)),
        ArithOp::Mod => IntTerm::Mod(Box::new(l), Box::new(r)),
    }
}

/// An arithmetic operation on real terms; remainder is not defined on reals.
pub open spec fn arith_real(op: ArithOp, l: RealTerm, r: RealTerm) -> Result<
    RealTerm,
    EncodeErrorView,
> {
    match op {
        ArithOp::Add => Ok(RealTerm::Add(Box::new(l), Box::new(r))),
        ArithOp::Sub => Ok(RealTerm::Sub(Box::new(l), Box::new(r))),
        ArithOp::Mul => Ok(RealTerm::Mul(Box::new(l), Box::new(r))),
        ArithOp::Div => Ok(RealTerm::Div(Box::new(l), Box::new(r))),
        ArithOp::Mod => Err(unsupported("Mod-on-Real"@)),
    }
}

/// A decimal literal (in ten-thousandths) as a rational, when it fits the
/// 32-bit numerator the solver's rational constructor takes.
pub open spec fn float_real(scaled: i64) -> Result<RealTerm, EncodeErrorView> {
    if scaled > i32::MAX || scaled < i32::MIN {
        Err(unsupported("float-out-of-i32-range"@))
    } else {
        Ok(RealTerm::Rational(scaled, 10000))
    }
}

/// The integer encoding of `old(inner)`: `inner` must be a path registered
/// as an integer pre-state variable.
pub open spec fn enc_old_int(inner: ValueView, c: Ctx) -> Result<IntTerm, EncodeErrorView> {
    match inner {
        ValueView::Ref(path) => match lookup_old_var(c, path) {
            None => Err(EncodeErrorView::UnboundVariable { name: "old("@ + join_dot(path) + ")"@ }),
            Some((v, s)) => if s == VarSort::Int {
                Ok(IntTerm::Var(v))
            } else {
                Err(mismatch("Int"@, "non-Int"@))
            },
        },
        _ => Err(unsupported("Old-non-Ref"@)),
    }
}

/// The integer encoding of a value expression.
pub open spec fn enc_int(e: ValueView, c: Ctx) -> Result<IntTerm, EncodeErrorView>
    decreases e,
{
    match e {
        ValueView::Literal(l) => match l {
            LiteralView::Integer(n) => Ok(IntTerm::Const(n)),
            LiteralView::Float(_) => Err(mismatch("Int"@, "Real"@)),
            LiteralView::Bool(_) => Err(mismatch("Int"@, "Bool"@)),
            LiteralView::Nothing => Err(unsupported("Nothing"@)),
            LiteralView::Text(_) => Err(unsupported("Text-literal"@)),
        },
        ValueView::Ref(path) => match lookup_var(c, path) {
            None => Err(EncodeErrorView::UnboundVariable { name: join_dot(path) }),
            Some((v, s)) => if s == VarSort::Int {
                Ok(IntTerm::Var(v))
            } else {
                Err(mismatch("Int"@, "non-Int"@))
            },
        },
        ValueView::Old(inner) => enc_old_int(*inner, c),
        ValueView::Arithmetic { op, left, right } => match enc_int(*left, c) {
            Err(x) => Err(x),
            Ok(l) => match enc_int(*right, c) {
                Err(x) => Err(x),
                Ok(r) => Ok(arith_int(op, l, r)),
            },
        },
        ValueView::Call { .. } => Err(unsupported("Call"@)),
        ValueView::SetLiteral(_) => Err(unsupported("Set"@)),
    }
}

/// A registered variable as a real term: reals directly, integers promoted.
pub open spec fn real_of_var(v: VarRef, s: VarSort) -> Result<RealTerm, EncodeErrorView> {
    if s == VarSort::Real {
        Ok(RealTerm::Var(v))
    } else if s == VarSort::Int {
        Ok(RealTerm::FromInt(Box::new(IntTerm::Var(v))))
    } else {
        Err(mismatch("Real"@, "Bool"@))
    }
}

/// The real encoding of `old(inner)`.
pub open spec fn enc_old_real(inner: ValueView, c: Ctx) -> Result<RealTerm, EncodeErrorView> {
    match inner {
        ValueView::Ref(path) => match lookup_old_var(c, path) {
            None => Err(EncodeErrorView::UnboundVariable { name: "old("@ + join_dot(path) + ")"@ }),
            Some((v, s)) => real_of_var(v, s),
        },
        _ => Err(unsupported("Old-non-Ref"@)),
    }
}

/// The real encoding of a value expression (integers are promoted).
pub open spec fn enc_real(e: ValueView, c: Ctx) -> Result<RealTerm, EncodeErrorView>
    decreases e,
{
    match e {
        ValueView::Literal(l) => match l {
            LiteralView::Integer(n) => Ok(RealTerm::FromInt(Box::new(IntTerm::Const(n)))),
            LiteralView::Float(f) => float_real(f),
            LiteralView::Bool(_) => Err(mismatch("Real"@, "Bool"@)),
            LiteralView::Nothing => Err(unsupported("Nothing"@)),
            LiteralView::Text(_) => Err(unsupported("Text-literal"@)),
        },
        ValueView::Ref(path) => match lookup_var(c, path) {
            None => Err(EncodeErrorView::UnboundVariable { name: join_dot(path) }),
            Some((v, s)) => real_of_var(v, s),
        },
        ValueView::Old(inner) => enc_old_real(*inner, c),
        ValueView::Arithmetic { op, left, right } => match enc_real(*left, c) {
            Err(x) => Err(x),
            Ok(l) => match enc_real(*right, c) {
                Err(x) => Err(x),
                Ok(r) => arith_real(op, l, r),
            },
        },
        ValueView::Call { .. } => Err(unsupported("Call"@)),
        ValueView::SetLiteral(_) => Err(unsupported("Set"@)),
    }
}

/// The boolean encoding of `old(inner)`.
pub open spec fn enc_old_bool(inner: ValueView, c: Ctx) -> Result<BoolTermView, EncodeErrorView> {
    match inner {
        ValueView::Ref(path) => match lookup_old_var(c, path) {
            None => Err(EncodeErrorView::UnboundVariable { name: "old("@ + join_dot(path) + ")"@ }),
            Some((v, s)) => if s == VarSort::Bool {
                Ok(BoolTermView::Var(v))
            } else {
                Err(mismatch("Bool"@, "non-Bool"@))
            },
        },
        _ => Err(unsupported("Old-non-Ref"@)),
    }
}

/// The boolean encoding of a value expression: a boolean literal, or a path
/// (or `old` of a path) registered as boolean.
pub open spec fn enc_bool(e: ValueView, c: Ctx) -> Result<BoolTermView, EncodeErrorView> {
    match e {
        ValueView::Literal(LiteralView::Bool(b)) => Ok(BoolTermView::Const(b)),
        ValueView::Ref(path) => match lookup_var(c, path) {
            None => Err(EncodeErrorView::UnboundVariable { name: join_dot(path) }),
            Some((v, s)) => if s == VarSort::Bool {
                Ok(BoolTermView::Var(v))
            } else {
                Err(mismatch("Bool"@, "non-Bool"@))
            },
        },
        ValueView::Old(inner) => enc_old_bool(*inner, c),
        _ => Err(mismatch("Bool"@, "non-Bool"@)),
    }
}

/// `e` contains a decimal literal anywhere.
pub open spec fn has_float(e: ValueView) -> bool
    decreases e,
{
    match e {
        ValueView::Literal(LiteralView::Float(_)) => true,
        ValueView::Arithmetic { left, right, .. } => has_float(*left) || has_float(*right),
        ValueView::Old(inner) => has_float(*inner),
        ValueView::Call { args, .. } => list_has_float(args),
        ValueView::SetLiteral(items) => list_has_float(items),
        _ => false,
    }
}

/// Some element of `es` contains a decimal literal.
pub open spec fn list_has_float(es: Seq<ValueView>) -> bool
    decreases es,
{
    if es.len() == 0 {
        false
    } else {
        list_has_float(es.drop_last()) || has_float(es.last())
    }
}

/// Some path (or `old` path) in `e`, through arithmetic, is registered as real.
pub open spec fn refs_real_var(e: ValueView, c: Ctx) -> bool
    decreases e,
{
    match e {
        ValueView::Ref(path) => match lookup_var(c, path) {
            Some((_, s)) => s == VarSort::Real,
            None => false,
        },
        ValueView::Old(inner) => match *inner {
            ValueView::Ref(path) => match lookup_old_var(c, path) {
                Some((_, s)) => s == VarSort::Real,
                None => false,
            },
            _ => refs_real_var(*inner, c),
        },
        ValueView::Arithmetic { left, right, .. } => refs_real_var(*left, c) || refs_real_var(
            *right,
            c,
        ),
        _ => false,
    }
}

/// `e` is a boolean literal.
pub open spec fn is_bool_literal(e: ValueView) -> bool {
    e matches ValueView::Literal(LiteralView::Bool(_))
}

/// `e` is a path (or `old` of a path) registered as boolean.
pub open spec fn refs_bool_var(e: ValueView, c: Ctx) -> bool {
    match e {
        ValueView::Ref(path) => match lookup_var(c, path) {
            Some((_, s)) => s == VarSort::Bool,
            None => false,
        },
        ValueView::Old(inner) => match *inner {
            ValueView::Ref(path) => match lookup_old_var(c, path) {
                Some((_, s)) => s == VarSort::Bool,
                None => false,
            },
            _ => false,
        },
        _ => false,
    }
}

/// A comparison of integer terms.
pub open spec fn cmp_int(op: CompareOp, l: IntTerm, r: IntTerm) -> BoolTermView {
    match op {
        CompareOp::Gte => BoolTermView::IntCmp(CmpOp::Ge, l, r),
        CompareOp::Lte => BoolTermView::IntCmp(CmpOp::Le, l, r),
        CompareOp::Gt => BoolTermView::IntCmp(CmpOp::Gt, l, r),
        CompareOp::Lt => BoolTermView::IntCmp(CmpOp::Lt, l, r),
        CompareOp::Eq => BoolTermView::IntCmp(CmpOp::Eq, l, r),
        CompareOp::Is => BoolTermView::IntCmp(CmpOp::Eq, l, r),
        CompareOp::Neq => BoolTermView::Not(Box::new(BoolTermView::IntCmp(CmpOp::Eq, l, r))),
        CompareOp::IsNot => BoolTermView::Not(Box::new(BoolTermView::IntCmp(CmpOp::Eq, l, r))),
    }
}

/// A comparison of real terms.
pub open spec fn cmp_real(op: CompareOp, l: RealTerm, r: RealTerm) -> BoolTermView {
    match op {
        CompareOp::Gte => BoolTermView::RealCmp(CmpOp::Ge, l, r),
        CompareOp::Lte => BoolTermView::RealCmp(CmpOp::Le, l, r),
        CompareOp::Gt => BoolTermView::RealCmp(CmpOp::Gt, l, r),
        CompareOp::Lt => BoolTermView::RealCmp(CmpOp::Lt, l, r),
        CompareOp::Eq => BoolTermView::RealCmp(CmpOp::Eq, l, r),
        CompareOp::Is => BoolTermView::RealCmp(CmpOp::Eq, l, r),
        CompareOp::Neq => BoolTermView::Not(Box::new(BoolTermView::RealCmp(CmpOp::Eq, l, r))),
        CompareOp::IsNot => BoolTermView::Not(Box::new(BoolTermView::RealCmp(CmpOp::Eq, l, r))),
    }
}

/// A comparison of boolean terms: only equality and inequality.
pub open spec fn cmp_bool(op: CompareOp, l: BoolTermView, r: BoolTermView) -> Result<
    BoolTermView,
    EncodeErrorView,
> {
    match op {
        CompareOp::Eq => Ok(BoolTermView::BoolEq(Box::new(l), Box::new(r))),
        CompareOp::Is => Ok(BoolTermView::BoolEq(Box::new(l), Box::new(r))),
        CompareOp::Neq => Ok(BoolTermView::Not(Box::new(BoolTermView::BoolEq(Box::new(l), Box::new(r))))),
        CompareOp::IsNot => Ok(BoolTermView::Not(Box::new(BoolTermView::BoolEq(Box::new(l), Box::new(r))))),
        _ => Err(unsupported("Bool-ordering"@)),
    }
}

/// Whether a comparison is encoded over booleans.
pub open spec fn compare_uses_bool(l: ValueView, r: ValueView, c: Ctx) -> bool {
    is_bool_literal(l) || is_bool_literal(r) || refs_bool_var(l, c) || refs_bool_var(r, c)
}

/// Whether a (non-boolean) comparison is encoded over reals.
pub open spec fn compare_uses_real(l: ValueView, r: ValueView, c: Ctx) -> bool {
    has_float(l) || has_float(r) || refs_real_var(l, c) || refs_real_var(r, c)
}

/// A comparison: over booleans when either side is a boolean literal or
/// boolean variable; else over reals when either side has a decimal literal
/// or a real variable; else over integers. Left side first.
pub open spec fn enc_compare(op: CompareOp, l: ValueView, r: ValueView, c: Ctx) -> Result<
    BoolTermView,
    EncodeErrorView,
> {
    if compare_uses_bool(l, r, c) {
        match enc_bool(l, c) {
            Err(x) => Err(x),
            Ok(lb) => match enc_bool(r, c) {
                Err(x) => Err(x),
                Ok(rb) => cmp_bool(op, lb, rb),
            },
        }
    } else if compare_uses_real(l, r, c) {
        match enc_real(l, c) {
            Err(x) => Err(x),
            Ok(lr) => match enc_real(r, c) {
                Err(x) => Err(x),
                Ok(rr) => Ok(cmp_real(op, lr, rr)),
            },
        }
    } else {
        match enc_int(l, c) {
            Err(x) => Err(x),
            Ok(li) => match enc_int(r, c) {
                Err(x) => Err(x),
                Ok(ri) => Ok(cmp_int(op, li, ri)),
            },
        }
    }
}

/// `v == item` over reals for each item, in order; the first failing item's
/// error otherwise.
pub open spec fn real_eqs(v: RealTerm, items: Seq<ValueView>, c: Ctx) -> Result<
    Seq<BoolTermView>,
    EncodeErrorView,
>
    decreases items.len(),
{
    if items.len() == 0 {
        Ok(seq![])
    } else {
        match real_eqs(v, items.drop_last(), c) {
            Err(x) => Err(x),
            Ok(ds) => match enc_real(items.last(), c) {
                Err(x) => Err(x),
                Ok(i) => Ok(ds.push(BoolTermView::RealCmp(CmpOp::Eq, v, i))),
            },
        }
    }
}

/// `v == item` over integers for each item, in order.
pub open spec fn int_eqs(v: IntTerm, items: Seq<ValueView>, c: Ctx) -> Result<
    Seq<BoolTermView>,
    EncodeErrorView,
>
    decreases items.len(),
{
    if items.len() == 0 {
        Ok(seq![])
    } else {
        match int_eqs(v, items.drop_last(), c) {
            Err(x) => Err(x),
            Ok(ds) => match enc_int(items.last(), c) {
                Err(x) => Err(x),
                Ok(i) => Ok(ds.push(BoolTermView::IntCmp(CmpOp::Eq, v, i))),
            },
        }
    }
}

/// Membership in a literal set: the disjunction of equalities (false for
/// the empty set); a collection that is not a set literal is unsupported.
pub open spec fn enc_in(value: ValueView, collection: ValueView, c: Ctx) -> Result<
    BoolTermView,
    EncodeErrorView,
> {
    match collection {
        ValueView::SetLiteral(items) => if items.len() == 0 {
            Ok(BoolTermView::Const(false))
        } else if has_float(value) || list_has_float(items) {
            match enc_real(value, c) {
                Err(x) => Err(x),
                Ok(v) => match real_eqs(v, items, c) {
                    Err(x) => Err(x),
                    Ok(ds) => Ok(BoolTermView::Or(ds)),
                },
            }
        } else {
            match enc_int(value, c) {
                Err(x) => Err(x),
                Ok(v) => match int_eqs(v, items, c) {
                    Err(x) => Err(x),
                    Ok(ds) => Ok(BoolTermView::Or(ds)),
                },
            }
        },
        _ => Err(unsupported("In-dynamic"@)),
    }
}

/// The encoding of a constraint.
pub open spec fn enc_constraint(e: ConstraintView, c: Ctx) -> Result<BoolTermView, EncodeErrorView>
    decreases e,
{
    match e {
        ConstraintView::Compare { op, left, right } => enc_compare(op, left, right, c),
        ConstraintView::And(children) => match enc_list(children, c) {
            Err(x) => Err(x),
            Ok(bs) => Ok(BoolTermView::And(bs)),
        },
        ConstraintView::Or(children) => match enc_list(children, c) {
            Err(x) => Err(x),
            Ok(bs) => Ok(BoolTermView::Or(bs)),
        },
        ConstraintView::Not(inner) => match enc_constraint(*inner, c) {
            Err(x) => Err(x),
            Ok(b) => Ok(BoolTermView::Not(Box::new(b))),
        },
        ConstraintView::In { value, collection } => enc_in(value, collection, c),
        ConstraintView::Matches { .. } => Err(unsupported("Matches"@)),
        ConstraintView::ForAll { .. } => Err(unsupported("ForAll"@)),
        ConstraintView::Exists { .. } => Err(unsupported("Exists"@)),
    }
}

/// The encodings of `cs`, in order; the first failing one's error otherwise.
pub open spec fn enc_list(cs: Seq<ConstraintView>, c: Ctx) -> Result<
    Seq<BoolTermView>,
    EncodeErrorView,
>
    decreases cs,
{
    if cs.len() == 0 {
        Ok(seq![])
    } else {
        match enc_list(cs.drop_last(), c) {
            Err(x) => Err(x),
            Ok(bs) => match enc_constraint(cs.last(), c) {
                Err(x) => Err(x),
                Ok(b) => Ok(bs.push(b)),
            },
        }
    }
}

// ─── result views ───────────────────────────────────────────────────────────

/// The view of an integer encoding result.
pub open spec fn int_result(r: Result<IntTerm, EncodeError>) -> Result<IntTerm, EncodeErrorView> {
    match r {
        Ok(t) => Ok(t),
        Err(e) => Err(e@),
    }
}

/// The view of a real encoding result.
pub open spec fn real_result(r: Result<RealTerm, EncodeError>) -> Result<
    RealTerm,
    EncodeErrorView,
> {
    match r {
        Ok(t) => Ok(t),
        Err(e) => Err(e@),
    }
}

/// The view of a boolean encoding result.
pub open spec fn bool_result(r: Result<BoolTerm, EncodeError>) -> Result<
    BoolTermView,
    EncodeErrorView,
> {
    match r {
        Ok(t) => Ok(t@),
        Err(e) => Err(e@),
    }
}

// ─── encoding ───────────────────────────────────────────────────────────────

fn apply_arith_int(op: ArithOp, l: IntTerm, r: IntTerm) -> (t: IntTerm)
    ensures
        t == arith_int(op, l, r),
{
    match op {
        ArithOp::Add => IntTerm::Add(Box::new(l), Box::new(r)),
        ArithOp::Sub => IntTerm::Sub(Box::new(l), Box::new(r)),
        ArithOp::Mul => IntTerm::Mul(Box::new(l), Box::new(r)),
        ArithOp::Div => IntTerm::Div(Box::new(l), Box::new(r)),
        ArithOp::Mod => IntTerm::Mod(Box::new(l), Box::new(r)),
    }
}

fn apply_arith_real(op: ArithOp, l: RealTerm, r: RealTerm) -> (t: Result<RealTerm, EncodeError>)
    ensures
        real_result(t) == arith_real(op, l, r),
{
    match op {
        ArithOp::Add => Ok(RealTerm::Add(Box::new(l), Box::new(r))),
        ArithOp::Sub => Ok(RealTerm::Sub(Box::new(l), Box::new(r))),
        ArithOp::Mul => Ok(RealTerm::Mul(Box::new(l), Box::new(r))),
        ArithOp::Div => Ok(RealTerm::Div(Box::new(l), Box::new(r))),
        ArithOp::Mod => Err(EncodeError::UnsupportedConstraint { variant: "Mod-on-Real" }),
    }
}

/// A decimal literal (in ten-thousandths) as a rational term; values whose
/// numerator does not fit 32 bits are refused.
pub fn f64_to_real(scaled: i64) -> (t: Result<RealTerm, EncodeError>)
    ensures
        real_result(t) == float_real(scaled),
{
    if scaled > i32::MAX as i64 || scaled < i32::MIN as i64 {
        return Err(EncodeError::UnsupportedConstraint { variant: "float-out-of-i32-range" });
    }
    Ok(RealTerm::Rational(scaled, 10000))
}

fn encode_old_int(inner: &ValueExpr, ctx: &EncodeContext) -> (t: Result<IntTerm, EncodeError>)
    ensures
        int_result(t) == enc_old_int(inner@, ctx@),
{
    match inner {
        ValueExpr::Ref(path) => match ctx.require_old_var(path.as_slice()) {
            Err(e) => Err(e),
            Ok((v, s)) => {
                if s == VarSort::Int {
                    Ok(IntTerm::Var(v))
                } else {
                    Err(EncodeError::SortMismatch { expected: "Int", found: "non-Int" })
                }
            },
        },
        _ => Err(EncodeError::UnsupportedConstraint { variant: "Old-non-Ref" }),
    }
}

/// Encode a value expression as an integer term. Decimal literals and
/// boolean values are sort mismatches; text, `Nothing`, calls and sets are
/// unsupported.
pub fn encode_value_int(expr: &ValueExpr, ctx: &EncodeContext) -> (t: Result<IntTerm, EncodeError>)
    ensures
        int_result(t) == enc_int(expr@, ctx@),
    decreases expr,
{
    match expr {
        ValueExpr::Literal(l) => match l {
            LiteralValue::Integer(n) => Ok(IntTerm::Const(*n)),
            LiteralValue::Float(_) => Err(EncodeError::SortMismatch { expected: "Int", found: "Real" }),
            LiteralValue::Bool(_) => Err(EncodeError::SortMismatch { expected: "Int", found: "Bool" }),
            LiteralValue::Nothing => Err(EncodeError::UnsupportedConstraint { variant: "Nothing" }),
            LiteralValue::Text(_) => Err(EncodeError::UnsupportedConstraint { variant: "Text-literal" }),
        },
        ValueExpr::Ref(path) => match ctx.require_var(path.as_slice()) {
            Err(e) => Err(e),
            Ok((v, s)) => {
                if s == VarSort::Int {
                    Ok(IntTerm::Var(v))
                } else {
                    Err(EncodeError::SortMismatch { expected: "Int", found: "non-Int" })
                }
            },
        },
        ValueExpr::Old(inner) => encode_old_int(inner, ctx),
        ValueExpr::Arithmetic { op, left, right } => {
            let l = match encode_value_int(left, ctx) {
                Ok(t) => t,
                Err(e) => return Err(e),
            };
            let r = match encode_value_int(right, ctx) {
                Ok(t) => t,
                Err(e) => return Err(e),
            };
            Ok(apply_arith_int(*op, l, r))
        },
        ValueExpr::Call { .. } => Err(EncodeError::UnsupportedConstraint { variant: "Call" }),
        ValueExpr::SetLiteral(_) => Err(EncodeError::UnsupportedConstraint { variant: "Set" }),
    }
}

fn real_from_var(v: VarRef, s: VarSort) -> (t: Result<RealTerm, EncodeError>)
    ensures
        real_result(t) == real_of_var(v, s),
{
    if s == VarSort::Real {
        Ok(RealTerm::Var(v))
    } else if s == VarSort::Int {
        Ok(RealTerm::FromInt(Box::new(IntTerm::Var(v))))
    } else {
        Err(EncodeError::SortMismatch { expected: "Real", found: "Bool" })
    }
}

fn encode_old_real(inner: &ValueExpr, ctx: &EncodeContext) -> (t: Result<RealTerm, EncodeError>)
    ensures
        real_result(t) == enc_old_real(inner@, ctx@),
{
    match inner {
        ValueExpr::Ref(path) => match ctx.require_old_var(path.as_slice()) {
            Err(e) => Err(e),
            Ok((v, s)) => real_from_var(v, s),
        },
        _ => Err(EncodeError::UnsupportedConstraint { variant: "Old-non-Ref" }),
    }
}

/// Encode a value expression as a real term; integer literals and integer
/// variables are promoted.
pub fn encode_value_real(expr: &ValueExpr, ctx: &EncodeContext) -> (t: Result<RealTerm, EncodeError>)
    ensures
        real_result(t) == enc_real(expr@, ctx@),
    decreases expr,
{
    match expr {
        ValueExpr::Literal(l) => match l {
            LiteralValue::Integer(n) => Ok(RealTerm::FromInt(Box::new(IntTerm::Const(*n)))),
            LiteralValue::Float(f) => f64_to_real(*f),
            LiteralValue::Bool(_) => Err(EncodeError::SortMismatch { expected: "Real", found: "Bool" }),
            LiteralValue::Nothing => Err(EncodeError::UnsupportedConstraint { variant: "Nothing" }),
            LiteralValue::Text(_) => Err(EncodeError::UnsupportedConstraint { variant: "Text-literal" }),
        },
        ValueExpr::Ref(path) => match ctx.require_var(path.as_slice()) {
            Err(e) => Err(e),
            Ok((v, s)) => real_from_var(v, s),
        },
        ValueExpr::Old(inner) => encode_old_real(inner, ctx),
        ValueExpr::Arithmetic { op, left, right } => {
            let l = match encode_value_real(left, ctx) {
                Ok(t) => t,
                Err(e) => return Err(e),
            };
            let r = match encode_value_real(right, ctx) {
                Ok(t) => t,
                Err(e) => return Err(e),
            };
            apply_arith_real(*op, l, r)
        },
        ValueExpr::Call { .. } => Err(EncodeError::UnsupportedConstraint { variant: "Call" }),
        ValueExpr::SetLiteral(_) => Err(EncodeError::UnsupportedConstraint { variant: "Set" }),
    }
}

fn encode_old_bool(inner: &ValueExpr, ctx: &EncodeContext) -> (t: Result<BoolTerm, EncodeError>)
    ensures
        bool_result(t) == enc_old_bool(inner@, ctx@),
{
    match inner {
        ValueExpr::Ref(path) => match ctx.require_old_var(path.as_slice()) {
            Err(e) => Err(e),
            Ok((v, s)) => {
                if s == VarSort::Bool {
                    Ok(BoolTerm::Var(v))
                } else {
                    Err(EncodeError::SortMismatch { expected: "Bool", found: "non-Bool" })
                }
            },
        },
        _ => Err(EncodeError::UnsupportedConstraint { variant: "Old-non-Ref" }),
    }
}

/// Encode a value expression as a boolean term: only boolean literals and
/// boolean-registered paths (or `old` of them) succeed.
pub fn encode_value_bool(expr: &ValueExpr, ctx: &EncodeContext) -> (t: Result<BoolTerm, EncodeError>)
    ensures
        bool_result(t) == enc_bool(expr@, ctx@),
{
    match expr {
        ValueExpr::Literal(LiteralValue::Bool(b)) => Ok(BoolTerm::Const(*b)),
        ValueExpr::Ref(path) => match ctx.require_var(path.as_slice()) {
            Err(e) => Err(e),
            Ok((v, s)) => {
                if s == VarSort::Bool {
                    Ok(BoolTerm::Var(v))
                } else {
                    Err(EncodeError::SortMismatch { expected: "Bool", found: "non-Bool" })
                }
            },
        },
        ValueExpr::Old(inner) => encode_old_bool(inner, ctx),
        _ => Err(EncodeError::SortMismatch { expected: "Bool", found: "non-Bool" }),
    }
}

// ─── comparisons, membership, constraints ──────────────────────────────────

/// The view of a list encoding result.
pub open spec fn bools_result(r: Result<Vec<BoolTerm>, EncodeError>) -> Result<
    Seq<BoolTermView>,
    EncodeErrorView,
> {
    match r {
        Ok(v) => Ok(bool_views(v@)),
        Err(e) => Err(e@),
    }
}

/// Pushing a term pushes its view.
pub proof fn lemma_bool_views_push(s: Seq<BoolTerm>, b: BoolTerm)
    ensures
        bool_views(s.push(b)) == bool_views(s).push(b@),
{
    assert(s.push(b).drop_last() =~= s);
}

/// Views keep the number of terms.
pub proof fn lemma_bool_views_len(s: Seq<BoolTerm>)
    ensures
        bool_views(s).len() == s.len(),
    decreases s.len(),
{
    if s.len() > 0 {
        lemma_bool_views_len(s.drop_last());
    }
}

/// The view of a sequence of terms holds the view of each term.
pub proof fn lemma_bool_views_index(s: Seq<BoolTerm>, i: int)
    requires
        0 <= i < s.len(),
    ensures
        bool_views(s).len() == s.len(),
        bool_views(s)[i] == s[i]@,
    decreases s.len(),
{
    lemma_bool_views_len(s);
    if i < s.len() - 1 {
        lemma_bool_views_index(s.drop_last(), i);
    }
}

proof fn lemma_int_eqs_err(v: IntTerm, items: Seq<ValueView>, i: int, c: Ctx)
    requires
        0 <= i <= items.len(),
        int_eqs(v, items.take(i), c) is Err,
    ensures
        int_eqs(v, items, c) == int_eqs(v, items.take(i), c),
    decreases items.len(),
{
    if i == items.len() {
        assert(items.take(i) =~= items);
    } else {
        assert(items.drop_last().take(i) =~= items.take(i));
        lemma_int_eqs_err(v, items.drop_last(), i, c);
    }
}

proof fn lemma_real_eqs_err(v: RealTerm, items: Seq<ValueView>, i: int, c: Ctx)
    requires
        0 <= i <= items.len(),
        real_eqs(v, items.take(i), c) is Err,
    ensures
        real_eqs(v, items, c) == real_eqs(v, items.take(i), c),
    decreases items.len(),
{
    if i == items.len() {
        assert(items.take(i) =~= items);
    } else {
        assert(items.drop_last().take(i) =~= items.take(i));
        lemma_real_eqs_err(v, items.drop_last(), i, c);
    }
}

proof fn lemma_enc_list_err(cs: Seq<ConstraintView>, i: int, c: Ctx)
    requires
        0 <= i <= cs.len(),
        enc_list(cs.take(i), c) is Err,
    ensures
        enc_list(cs, c) == enc_list(cs.take(i), c),
    decreases cs.len(),
{
    if i == cs.len() {
        assert(cs.take(i) =~= cs);
    } else {
        assert(cs.drop_last().take(i) =~= cs.take(i));
        lemma_enc_list_err(cs.drop_last(), i, c);
    }
}

fn value_has_float(expr: &ValueExpr) -> (b: bool)
    ensures
        b == has_float(expr@),
    decreases expr,
{
    match expr {
        ValueExpr::Literal(LiteralValue::Float(_)) => true,
        ValueExpr::Arithmetic { left, right, .. } => value_has_float(left) || value_has_float(right),
        ValueExpr::Old(inner) => value_has_float(inner),
        ValueExpr::Call { args, .. } => values_have_float(args),
        ValueExpr::SetLiteral(items) => values_have_float(items),
        _ => false,
    }
}

fn values_have_float(items: &Vec<ValueExpr>) -> (b: bool)
    ensures
        b == list_has_float(value_views(items@)),
    decreases items,
{
    let mut i: usize = 0;
    assert(value_views(items@.take(0)) =~= seq![]);
    while i < items.len()
        invariant
            i <= items.len(),
            !list_has_float(value_views(items@.take(i as int))),
        decreases items.len() - i,
    {
        proof {
            lemma_value_views_take(items@, i + 1);
            lemma_value_views_take(items@, i as int);
            lemma_value_views_index(items@, i as int);
            assert(value_views(items@).take(i + 1).drop_last() =~= value_views(items@).take(
                i as int,
            ));
        }
        if value_has_float(&items[i]) {
            proof {
                lemma_list_has_float_prefix(value_views(items@), i + 1);
            }
            return true;
        }
        i += 1;
    }
    assert(items@.take(items.len() as int) =~= items@);
    false
}

proof fn lemma_list_has_float_prefix(es: Seq<ValueView>, i: int)
    requires
        0 <= i <= es.len(),
        list_has_float(es.take(i)),
    ensures
        list_has_float(es),
    decreases es.len(),
{
    if i == es.len() {
        assert(es.take(i) =~= es);
    } else {
        assert(es.drop_last().take(i) =~= es.take(i));
        lemma_list_has_float_prefix(es.drop_last(), i);
    }
}

fn value_refs_real_var(expr: &ValueExpr, ctx: &EncodeContext) -> (b: bool)
    ensures
        b == refs_real_var(expr@, ctx@),
    decreases expr, 0nat,
{
    match expr {
        ValueExpr::Ref(path) => match ctx.get_var(path.as_slice()) {
            Some((_, s)) => s == VarSort::Real,
            None => false,
        },
        ValueExpr::Old(inner) => old_refs_real_var(inner, ctx),
        ValueExpr::Arithmetic { left, right, .. } => value_refs_real_var(left, ctx)
            || value_refs_real_var(right, ctx),
        _ => false,
    }
}

fn old_refs_real_var(inner: &ValueExpr, ctx: &EncodeContext) -> (b: bool)
    ensures
        b == (match inner@ {
            ValueView::Ref(path) => match lookup_old_var(ctx@, path) {
                Some((_, s)) => s == VarSort::Real,
                None => false,
            },
            _ => refs_real_var(inner@, ctx@),
        }),
    decreases inner, 1nat,
{
    match inner {
        ValueExpr::Ref(path) => match ctx.get_old_var(path.as_slice()) {
            Some((_, s)) => s == VarSort::Real,
            None => false,
        },
        _ => value_refs_real_var(inner, ctx),
    }
}

fn value_refs_bool_var(expr: &ValueExpr, ctx: &EncodeContext) -> (b: bool)
    ensures
        b == refs_bool_var(expr@, ctx@),
{
    match expr {
        ValueExpr::Ref(path) => match ctx.get_var(path.as_slice()) {
            Some((_, s)) => s == VarSort::Bool,
            None => false,
        },
        ValueExpr::Old(inner) => old_refs_bool_var(inner, ctx),
        _ => false,
    }
}

fn old_refs_bool_var(inner: &ValueExpr, ctx: &EncodeContext) -> (b: bool)
    ensures
        b == (match inner@ {
            ValueView::Ref(path) => match lookup_old_var(ctx@, path) {
                Some((_, s)) => s == VarSort::Bool,
                None => false,
            },
            _ => false,
        }),
{
    match inner {
        ValueExpr::Ref(path) => match ctx.get_old_var(path.as_slice()) {
            Some((_, s)) => s == VarSort::Bool,
            None => false,
        },
        _ => false,
    }
}

fn value_is_bool_literal(expr: &ValueExpr) -> (b: bool)
    ensures
        b == is_bool_literal(expr@),
{
    match expr {
        ValueExpr::Literal(LiteralValue::Bool(_)) => true,
        _ => false,
    }
}

fn compare_ints(op: CompareOp, l: IntTerm, r: IntTerm) -> (t: BoolTerm)
    ensures
        t@ == cmp_int(op, l, r),
{
    match op {
        CompareOp::Gte => BoolTerm::IntCmp(CmpOp::Ge, Box::new(l), Box::new(r)),
        CompareOp::Lte => BoolTerm::IntCmp(CmpOp::Le, Box::new(l), Box::new(r)),
        CompareOp::Gt => BoolTerm::IntCmp(CmpOp::Gt, Box::new(l), Box::new(r)),
        CompareOp::Lt => BoolTerm::IntCmp(CmpOp::Lt, Box::new(l), Box::new(r)),
        CompareOp::Eq | CompareOp::Is => BoolTerm::IntCmp(CmpOp::Eq, Box::new(l), Box::new(r)),
        CompareOp::Neq | CompareOp::IsNot => {
            let ghost (gl, gr) = (l, r);
            let eq = BoolTerm::IntCmp(CmpOp::Eq, Box::new(l), Box::new(r));
            assert(eq@ == BoolTermView::IntCmp(CmpOp::Eq, gl, gr));
            BoolTerm::Not(Box::new(eq))
        },
    }
}

fn compare_reals(op: CompareOp, l: RealTerm, r: RealTerm) -> (t: BoolTerm)
    ensures
        t@ == cmp_real(op, l, r),
{
    match op {
        CompareOp::Gte => BoolTerm::RealCmp(CmpOp::Ge, Box::new(l), Box::new(r)),
        CompareOp::Lte => BoolTerm::RealCmp(CmpOp::Le, Box::new(l), Box::new(r)),
        CompareOp::Gt => BoolTerm::RealCmp(CmpOp::Gt, Box::new(l), Box::new(r)),
        CompareOp::Lt => BoolTerm::RealCmp(CmpOp::Lt, Box::new(l), Box::new(r)),
        CompareOp::Eq | CompareOp::Is => BoolTerm::RealCmp(CmpOp::Eq, Box::new(l), Box::new(r)),
        CompareOp::Neq | CompareOp::IsNot => {
            let ghost (gl, gr) = (l, r);
            let eq = BoolTerm::RealCmp(CmpOp::Eq, Box::new(l), Box::new(r));
            assert(eq@ == BoolTermView::RealCmp(CmpOp::Eq, gl, gr));
            BoolTerm::Not(Box::new(eq))
        },
    }
}

fn compare_bools(op: CompareOp, l: BoolTerm, r: BoolTerm) -> (t: Result<BoolTerm, EncodeError>)
    ensures
        bool_result(t) == cmp_bool(op, l@, r@),
{
    match op {
        CompareOp::Eq | CompareOp::Is => Ok(BoolTerm::BoolEq(Box::new(l), Box::new(r))),
        CompareOp::Neq | CompareOp::IsNot => {
            let ghost (gl, gr) = (l@, r@);
            let eq = BoolTerm::BoolEq(Box::new(l), Box::new(r));
            assert(eq@ == BoolTermView::BoolEq(Box::new(gl), Box::new(gr)));
            Ok(BoolTerm::Not(Box::new(eq)))
        },
        _ => Err(EncodeError::UnsupportedConstraint { variant: "Bool-ordering" }),
    }
}

/// Encode a comparison. It is taken over booleans when either side is a
/// boolean literal or a boolean-registered path; otherwise over reals when
/// either side holds a decimal literal or a real-registered path; otherwise
/// over integers.
pub fn encode_compare(
    op: CompareOp,
    left: &ValueExpr,
    right: &ValueExpr,
    ctx: &EncodeContext,
) -> (t: Result<BoolTerm, EncodeError>)
    ensures
        bool_result(t) == enc_compare(op, left@, right@, ctx@),
{
    let use_bool = value_is_bool_literal(left) || value_is_bool_literal(right)
        || value_refs_bool_var(left, ctx) || value_refs_bool_var(right, ctx);
    if use_bool {
        let l = match encode_value_bool(left, ctx) {
            Ok(t) => t,
            Err(e) => return Err(e),
        };
        let r = match encode_value_bool(right, ctx) {
            Ok(t) => t,
            Err(e) => return Err(e),
        };
        return compare_bools(op, l, r);
    }
    let use_real = value_has_float(left) || value_has_float(right)
        || value_refs_real_var(left, ctx) || value_refs_real_var(right, ctx);
    if use_real {
        let l = match encode_value_real(left, ctx) {
            Ok(t) => t,
            Err(e) => return Err(e),
        };
        let r = match encode_value_real(right, ctx) {
            Ok(t) => t,
            Err(e) => return Err(e),
        };
        Ok(compare_reals(op, l, r))
    } else {
        let l = match encode_value_int(left, ctx) {
            Ok(t) => t,
            Err(e) => return Err(e),
        };
        let r = match encode_value_int(right, ctx) {
            Ok(t) => t,
            Err(e) => return Err(e),
        };
        Ok(compare_ints(op, l, r))
    }
}

fn int_equalities(v: &IntTerm, items: &Vec<ValueExpr>, ctx: &EncodeContext) -> (r: Result<
    Vec<BoolTerm>,
    EncodeError,
>)
    ensures
        bools_result(r) == int_eqs(*v, value_views(items@), ctx@),
{
    let ghost vs = value_views(items@);
    proof {
        lemma_value_views_take(items@, 0);
    }
    let mut out: Vec<BoolTerm> = Vec::new();
    let mut i: usize = 0;
    assert(vs.take(0) =~= seq![]);
    while i < items.len()
        invariant
            i <= items.len(),
            vs == value_views(items@),
            vs.len() == items@.len(),
            int_eqs(*v, vs.take(i as int), ctx@) == Ok::<Seq<BoolTermView>, EncodeErrorView>(
                bool_views(out@),
            ),
        decreases items.len() - i,
    {
        proof {
            lemma_value_views_index(items@, i as int);
            assert(vs.take(i + 1).drop_last() =~= vs.take(i as int));
        }
        match encode_value_int(&items[i], ctx) {
            Err(e) => {
                proof {
                    lemma_int_eqs_err(*v, vs, i + 1, ctx@);
                }
                return Err(e);
            },
            Ok(t) => {
                let ghost before = out@;
                let ghost tv = t;
                let d = BoolTerm::IntCmp(CmpOp::Eq, Box::new(v.duplicate()), Box::new(t));
                out.push(d);
                proof {
                    lemma_bool_views_push(before, d);
                    assert(d@ == BoolTermView::IntCmp(CmpOp::Eq, *v, tv));
                }
            },
        }
        i += 1;
    }
    assert(vs.take(items.len() as int) =~= vs);
    Ok(out)
}

fn real_equalities(v: &RealTerm, items: &Vec<ValueExpr>, ctx: &EncodeContext) -> (r: Result<
    Vec<BoolTerm>,
    EncodeError,
>)
    ensures
        bools_result(r) == real_eqs(*v, value_views(items@), ctx@),
{
    let ghost vs = value_views(items@);
    proof {
        lemma_value_views_take(items@, 0);
    }
    let mut out: Vec<BoolTerm> = Vec::new();
    let mut i: usize = 0;
    assert(vs.take(0) =~= seq![]);
    while i < items.len()
        invariant
            i <= items.len(),
            vs == value_views(items@),
            vs.len() == items@.len(),
            real_eqs(*v, vs.take(i as int), ctx@) == Ok::<Seq<BoolTermView>, EncodeErrorView>(
                bool_views(out@),
            ),
        decreases items.len() - i,
    {
        proof {
            lemma_value_views_index(items@, i as int);
            assert(vs.take(i + 1).drop_last() =~= vs.take(i as int));
        }
        match encode_value_real(&items[i], ctx) {
            Err(e) => {
                proof {
                    lemma_real_eqs_err(*v, vs, i + 1, ctx@);
                }
                return Err(e);
            },
            Ok(t) => {
                let ghost before = out@;
                let ghost tv = t;
                let d = BoolTerm::RealCmp(CmpOp::Eq, Box::new(v.duplicate()), Box::new(t));
                out.push(d);
                proof {
                    lemma_bool_views_push(before, d);
                    assert(d@ == BoolTermView::RealCmp(CmpOp::Eq, *v, tv));
                }
            },
        }
        i += 1;
    }
    assert(vs.take(items.len() as int) =~= vs);
    Ok(out)
}

/// Encode membership `value in collection`. The collection must be a set
/// literal: the result is the disjunction of `value == item` over its items
/// (false for the empty set), over reals when a decimal literal occurs on
/// either side, else over integers.
pub fn encode_in(value: &ValueExpr, collection: &ValueExpr, ctx: &EncodeContext) -> (t: Result<
    BoolTerm,
    EncodeError,
>)
    ensures
        bool_result(t) == enc_in(value@, collection@, ctx@),
{
    match collection {
        ValueExpr::SetLiteral(items) => {
            proof {
                lemma_value_views_take(items@, 0);
            }
            if items.len() == 0 {
                return Ok(BoolTerm::Const(false));
            }
            let use_real = value_has_float(value) || values_have_float(items);
            if use_real {
                let v = match encode_value_real(value, ctx) {
                    Ok(t) => t,
                    Err(e) => return Err(e),
                };
                match real_equalities(&v, items, ctx) {
                    Ok(ds) => Ok(BoolTerm::Or(ds)),
                    Err(e) => Err(e),
                }
            } else {
                let v = match encode_value_int(value, ctx) {
                    Ok(t) => t,
                    Err(e) => return Err(e),
                };
                match int_equalities(&v, items, ctx) {
                    Ok(ds) => Ok(BoolTerm::Or(ds)),
                    Err(e) => Err(e),
                }
            }
        },
        _ => Err(EncodeError::UnsupportedConstraint { variant: "In-dynamic" }),
    }
}

/// Encode a constraint as a boolean term. Every path it references must be
/// registered in `ctx`; `Matches`, `ForAll`, `Exists` and membership in a
/// non-literal collection are unsupported. Children of `And` / `Or` are
/// encoded in order and the first failure is returned.
pub fn encode_constraint(expr: &ConstraintExpr, ctx: &EncodeContext) -> (t: Result<
    BoolTerm,
    EncodeError,
>)
    ensures
        bool_result(t) == enc_constraint(expr@, ctx@),
    decreases expr,
{
    match expr {
        ConstraintExpr::Compare { op, left, right } => encode_compare(*op, left, right, ctx),
        ConstraintExpr::And(children) => match encode_constraints(children, ctx) {
            Ok(bs) => Ok(BoolTerm::And(bs)),
            Err(e) => Err(e),
        },
        ConstraintExpr::Or(children) => match encode_constraints(children, ctx) {
            Ok(bs) => Ok(BoolTerm::Or(bs)),
            Err(e) => Err(e),
        },
        ConstraintExpr::Not(inner) => match encode_constraint(inner, ctx) {
            Ok(b) => {
                let ghost bv = b@;
                let n = BoolTerm::Not(Box::new(b));
                assert(n@ == BoolTermView::Not(Box::new(bv)));
                Ok(n)
            },
            Err(e) => Err(e),
        },
        ConstraintExpr::In { value, collection } => encode_in(value, collection, ctx),
        ConstraintExpr::Matches { .. } => Err(EncodeError::UnsupportedConstraint { variant: "Matches" }),
        ConstraintExpr::ForAll { .. } => Err(EncodeError::UnsupportedConstraint { variant: "ForAll" }),
        ConstraintExpr::Exists { .. } => Err(EncodeError::UnsupportedConstraint { variant: "Exists" }),
    }
}

fn encode_constraints(children: &Vec<ConstraintExpr>, ctx: &EncodeContext) -> (r: Result<
    Vec<BoolTerm>,
    EncodeError,
>)
    ensures
        bools_result(r) == enc_list(constraint_views(children@), ctx@),
    decreases children,
{
    let ghost cs = constraint_views(children@);
    proof {
        lemma_constraint_views_take(children@, 0);
    }
    let mut out: Vec<BoolTerm> = Vec::new();
    let mut i: usize = 0;
    assert(cs.take(0) =~= seq![]);
    while i < children.len()
        invariant
            i <= children.len(),
            cs == constraint_views(children@),
            cs.len() == children@.len(),
            enc_list(cs.take(i as int), ctx@) == Ok::<Seq<BoolTermView>, EncodeErrorView>(
                bool_views(out@),
            ),
        decreases children.len() - i,
    {
        proof {
            lemma_constraint_views_index(children@, i as int);
            assert(cs.take(i + 1).drop_last() =~= cs.take(i as int));
        }
        match encode_constraint(&children[i], ctx) {
            Err(e) => {
                proof {
                    lemma_enc_list_err(cs, i + 1, ctx@);
                }
                return Err(e);
            },
            Ok(b) => {
                let ghost before = out@;
                out.push(b);
                proof {
                    lemma_bool_views_push(before, b);
                }
            },
        }
        i += 1;
    }
    assert(cs.take(children.len() as int) =~= cs);
    Ok(out)
}

impl BoolTerm {
    /// A copy of the term.
    pub fn duplicate(&self) -> (r: BoolTerm)
        ensures
            r@ == self@,
        decreases self,
    {
        match self {
            BoolTerm::Const(b) => BoolTerm::Const(*b),
            BoolTerm::Var(v) => BoolTerm::Var(*v),
            BoolTerm::Not(x) => {
                let d = x.duplicate();
                let r = BoolTerm::Not(Box::new(d));
                assert(r@ == BoolTermView::Not(Box::new(x@)));
                r
            },
            BoolTerm::And(xs) => BoolTerm::And(duplicate_terms(xs)),
            BoolTerm::Or(xs) => BoolTerm::Or(duplicate_terms(xs)),
            BoolTerm::IntCmp(op, l, r) => BoolTerm::IntCmp(
                *op,
                Box::new(l.duplicate()),
                Box::new(r.duplicate()),
            ),
            BoolTerm::RealCmp(op, l, r) => BoolTerm::RealCmp(
                *op,
                Box::new(l.duplicate()),
                Box::new(r.duplicate()),
            ),
            BoolTerm::BoolEq(l, r) => {
                let dl = l.duplicate();
                let dr = r.duplicate();
                let t = BoolTerm::BoolEq(Box::new(dl), Box::new(dr));
                assert(t@ == BoolTermView::BoolEq(Box::new(l@), Box::new(r@)));
                t
            },
        }
    }
}

/// Copies of the terms of `v`, in order.
pub fn duplicate_terms(v: &Vec<BoolTerm>) -> (r: Vec<BoolTerm>)
    ensures
        bool_views(r@) == bool_views(v@),
    decreases v,
{
    let mut out: Vec<BoolTerm> = Vec::new();
    let mut i: usize = 0;
    assert(v@.take(0) =~= Seq::<BoolTerm>::empty());
    while i < v.len()
        invariant
            i <= v@.len(),
            bool_views(out@) == bool_views(v@.take(i as int)),
        decreases v.len() - i,
    {
        assert(v@.take(i + 1).drop_last() =~= v@.take(i as int));
        let d = v[i].duplicate();
        proof {
            lemma_bool_views_push(out@, d);
        }
        out.push(d);
        i += 1;
    }
    assert(v@.take(v@.len() as int) =~= v@);
    out
}

// ─── laws of the context ────────────────────────────────────────────────────

proof fn lemma_table_insert_found(t: VarTable, k: Seq<char>, sort: VarSort)
    ensures
        0 <= key_index(table_insert(t, k, sort), k) < table_insert(t, k, sort).len(),
        table_insert(t, k, sort)[key_index(table_insert(t, k, sort), k)] == (k, sort),
{
    lemma_key_index(t, k);
    let i = key_index(t, k);
    if i >= 0 {
        lemma_key_index_update(t, k, sort, i);
    } else {
        lemma_key_index_push(t, k, sort);
    }
}

proof fn lemma_key_index_other_update(t: VarTable, k: Seq<char>, sort: VarSort, i: int, k2: Seq<char>)
    requires
        0 <= i < t.len(),
        t[i].0 == k,
        k2 != k,
    ensures
        key_index(t.update(i, (k, sort)), k2) == key_index(t, k2),
    decreases t.len(),
{
    let u = t.update(i, (k, sort));
    if i < t.len() - 1 {
        assert(u.drop_last() =~= t.drop_last().update(i, (k, sort)));
        lemma_key_index_other_update(t.drop_last(), k, sort, i, k2);
    } else {
        assert(u.drop_last() =~= t.drop_last());
    }
}

proof fn lemma_key_index_other_push(t: VarTable, k: Seq<char>, sort: VarSort, k2: Seq<char>)
    requires
        k2 != k,
    ensures
        key_index(t.push((k, sort)), k2) == key_index(t, k2),
{
    assert(t.push((k, sort)).drop_last() =~= t);
}

proof fn lemma_table_insert_other(t: VarTable, k: Seq<char>, sort: VarSort, k2: Seq<char>)
    requires
        k2 != k,
    ensures
        key_index(table_insert(t, k, sort), k2) == key_index(t, k2),
        key_index(t, k2) >= 0 ==> table_insert(t, k, sort)[key_index(t, k2)] == t[key_index(t, k2)],
{
    lemma_key_index(t, k);
    lemma_key_index(t, k2);
    let i = key_index(t, k);
    if i >= 0 {
        lemma_key_index_other_update(t, k, sort, i, k2);
    } else {
        lemma_key_index_other_push(t, k, sort, k2);
    }
}

/// Registering a variable under the key of `path` makes `path` resolve to
/// a variable of that sort, current-state or pre-state as registered; the
/// paths with other keys resolve as before.
pub proof fn lemma_registered_var_found(c: Ctx, path: Seq<Seq<char>>, other: Seq<Seq<char>>, sort: VarSort)
    ensures
        lookup_var((table_insert(c.0, join_dot(path), sort), c.1), path) matches Some((v, t)) && t
            == sort && !v.old,
        lookup_old_var((c.0, table_insert(c.1, old_key_of(join_dot(path)), sort)), path) matches Some(
            (v, t),
        ) && t == sort && v.old,
        join_dot(other) != join_dot(path) ==> lookup_var(
            (table_insert(c.0, join_dot(path), sort), c.1),
            other,
        ) == lookup_var(c, other),
        join_dot(other) != join_dot(path) ==> lookup_old_var(
            (c.0, table_insert(c.1, old_key_of(join_dot(path)), sort)),
            other,
        ) == lookup_old_var(c, other),
{
    let k = join_dot(path);
    lemma_table_insert_found(c.0, k, sort);
    lemma_table_insert_found(c.1, old_key_of(k), sort);
    if join_dot(other) != k {
        lemma_table_insert_other(c.0, k, sort, join_dot(other));
        assert(old_key_of(join_dot(other)) != old_key_of(k)) by {
            if old_key_of(join_dot(other)) == old_key_of(k) {
                reveal_strlit("old__");
                assert(join_dot(other) =~= old_key_of(join_dot(other)).skip(5));
                assert(k =~= old_key_of(k).skip(5));
            }
        }
        lemma_table_insert_other(c.1, old_key_of(k), sort, old_key_of(join_dot(other)));
    }
}

// ─── laws of comparison encoding ────────────────────────────────────────────

/// Inequality encodes as the negation of equality: `l != r` is encoded
/// exactly as `not (l == r)` (and `is not` as `not (l is r)`), over
/// integers, reals and booleans alike, and `is` exactly as `==`. So in every
/// model the formula of `l != r` holds exactly when that of `l == r` does
/// not.
pub proof fn lemma_inequality_negates_equality(l: ValueView, r: ValueView, c: Ctx)
    ensures
        enc_constraint(ConstraintView::Compare { op: CompareOp::Neq, left: l, right: r }, c) == enc_constraint(
            ConstraintView::Not(Box::new(ConstraintView::Compare { op: CompareOp::Eq, left: l, right: r })),
            c,
        ),
        enc_constraint(ConstraintView::Compare { op: CompareOp::IsNot, left: l, right: r }, c) == enc_constraint(
            ConstraintView::Not(Box::new(ConstraintView::Compare { op: CompareOp::Is, left: l, right: r })),
            c,
        ),
        enc_constraint(ConstraintView::Compare { op: CompareOp::Is, left: l, right: r }, c) == enc_constraint(
            ConstraintView::Compare { op: CompareOp::Eq, left: l, right: r },
            c,
        ),
{
}

} // verus!
