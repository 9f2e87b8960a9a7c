//! The contract expression language: constraint and value expressions,
//! their views (the same trees with texts as character sequences), and
//! copying and comparison by view.

use vstd::prelude::*;

use crate::text::views;

verus! {

/// Comparison operators of a `Compare` constraint.
#[derive(Debug, Clone, Copy, PartialEq, Eq, Structural)]
pub enum CompareOp {
    Gte,
    Lte,
    Gt,
    Lt,
    Eq,
    Neq,
    Is,
    IsNot,
}

/// Arithmetic operators of an `Arithmetic` value expression.
#[derive(Debug, Clone, Copy, PartialEq, Eq, Structural)]
pub enum ArithOp {
    Add,
    Sub,
    Mul,
    Div,
    Mod,
}

/// A literal value.
///
/// A decimal literal is carried as its value in ten-thousandths, rounded to
/// the nearest integer (`3.14` is `Float(31400)`): four decimal places is the
/// precision the solver encoding works with.
#[derive(Debug, Clone)]
pub enum LiteralValue {
    Integer(i64),
    Float(i64),
    Text(String),
    Bool(bool),
    Nothing,
}

/// A value expression: literals, (dotted) references, `old(..)` snapshots,
/// arithmetic, calls and set literals.
#[derive(Debug)]
pub enum ValueExpr {
    Literal(LiteralValue),
    Ref(Vec<String>),
    Old(Box<ValueExpr>),
    Arithmetic { op: ArithOp, left: Box<ValueExpr>, right: Box<ValueExpr> },
    Call { name: String, args: Vec<ValueExpr> },
    SetLiteral(Vec<ValueExpr>),
}

/// A boolean constraint expression.
#[derive(Debug)]
pub enum ConstraintExpr {
    Compare { op: CompareOp, left: ValueExpr, right: ValueExpr },
    In { value: ValueExpr, collection: ValueExpr },
    Matches { value: ValueExpr, pattern: String },
    And(Vec<ConstraintExpr>),
    Or(Vec<ConstraintExpr>),
    Not(Box<ConstraintExpr>),
    ForAll { variable: String, collection: ValueExpr, condition: Box<ConstraintExpr> },
    Exists { variable: String, collection: ValueExpr, condition: Box<ConstraintExpr> },
}

/// The content of a `LiteralValue`.
pub enum LiteralView {
    Integer(i64),
    Float(i64),
    Text(Seq<char>),
    Bool(bool),
    Nothing,
}

/// The content of a `ValueExpr`.
pub enum ValueView {
    Literal(LiteralView),
    Ref(Seq<Seq<char>>),
    Old(Box<ValueView>),
    Arithmetic { op: ArithOp, left: Box<ValueView>, right: Box<ValueView> },
    Call { name: Seq<char>, args: Seq<ValueView> },
    SetLiteral(Seq<ValueView>),
}

/// The content of a `ConstraintExpr`.
pub enum ConstraintView {
    Compare { op: CompareOp, left: ValueView, right: ValueView },
    In { value: ValueView, collection: ValueView },
    Matches { value: ValueView, pattern: Seq<char> },
    And(Seq<ConstraintView>),
    Or(Seq<ConstraintView>),
    Not(Box<ConstraintView>),
    ForAll { variable: Seq<char>, collection: ValueView, condition: Box<ConstraintView> },
    Exists { variable: Seq<char>, collection: ValueView, condition: Box<ConstraintView> },
}

impl View for LiteralValue {
    type V = LiteralView;

    open spec fn view(&self) -> LiteralView {
        match self {
            LiteralValue::Integer(n) => LiteralView::Integer(*n),
            LiteralValue::Float(n) => LiteralView::Float(*n),
            LiteralValue::Text(t) => LiteralView::Text(t@),
            LiteralValue::Bool(b) => LiteralView::Bool(*b),
            LiteralValue::Nothing => LiteralView::Nothing,
        }
    }
}

/// The views of a sequence of value expressions.
pub open spec fn value_views(s: Seq<ValueExpr>) -> Seq<ValueView>
    decreases s,
{
    if s.len() == 0 {
        seq![]
    } else {
        value_views(s.drop_last()).push(value_view(s.last()))
    }
}

/// The view of a value expression.
pub open spec fn value_view(e: ValueExpr) -> ValueView
    decreases e,
{
    match e {
        ValueExpr::Literal(l) => ValueView::Literal(l@),
        ValueExpr::Ref(parts) => ValueView::Ref(views(parts@)),
        ValueExpr::Old(inner) => ValueView::Old(Box::new(value_view(*inner))),
        ValueExpr::Arithmetic { op, left, right } => ValueView::Arithmetic {
            op,
            left: Box::new(value_view(*left)),
            right: Box::new(value_view(*right)),
        },
        ValueExpr::Call { name, args } => ValueView::Call { name: name@, args: value_views(args@) },
        ValueExpr::SetLiteral(elems) => ValueView::SetLiteral(value_views(elems@)),
    }
}

/// The views of a sequence of constraints.
pub open spec fn constraint_views(s: Seq<ConstraintExpr>) -> Seq<ConstraintView>
    decreases s,
{
    if s.len() == 0 {
        seq![]
    } else {
        constraint_views(s.drop_last()).push(constraint_view(s.last()))
    }
}

/// The view of a constraint.
pub open spec fn constraint_view(e: ConstraintExpr) -> ConstraintView
    decreases e,
{
    match e {
        ConstraintExpr::Compare { op, left, right } => ConstraintView::Compare {
            op,
            left: value_view(left),
            right: value_view(right),
        },
        ConstraintExpr::In { value, collection } => ConstraintView::In {
            value: value_view(value),
            collection: value_view(collection),
        },
        ConstraintExpr::Matches { value, pattern } => ConstraintView::Matches {
            value: value_view(value),
            pattern: pattern@,
        },
        ConstraintExpr::And(children) => ConstraintView::And(constraint_views(children@)),
        ConstraintExpr::Or(children) => ConstraintView::Or(constraint_views(children@)),
        ConstraintExpr::Not(child) => ConstraintView::Not(Box::new(constraint_view(*child))),
        ConstraintExpr::ForAll { variable, collection, condition } => ConstraintView::ForAll {
            variable: variable@,
            collection: value_view(collection),
            condition: Box::new(constraint_view(*condition)),
        },
        ConstraintExpr::Exists { variable, collection, condition } => ConstraintView::Exists {
            variable: variable@,
            collection: value_view(collection),
            condition: Box::new(constraint_view(*condition)),
        },
    }
}

impl View for ValueExpr {
    type V = ValueView;

    open spec fn view(&self) -> ValueView {
        value_view(*self)
    }
}

impl View for ConstraintExpr {
    type V = ConstraintView;

    open spec fn view(&self) -> ConstraintView {
        constraint_view(*self)
    }
}

/// `value_views` of a prefix is the prefix of `value_views`.
pub proof fn lemma_value_views_take(s: Seq<ValueExpr>, i: int)
    requires
        0 <= i <= s.len(),
    ensures
        value_views(s.take(i)) == value_views(s).take(i),
        value_views(s).len() == s.len(),
    decreases s.len(),
{
    if s.len() > 0 {
        if i < s.len() {
            assert(s.drop_last().take(i) =~= s.take(i));
            lemma_value_views_take(s.drop_last(), i);
            assert(value_views(s).take(i) =~= value_views(s.drop_last()).take(i));
        } else {
            lemma_value_views_take(s.drop_last(), 0);
            assert(s.take(i) =~= s);
            assert(value_views(s).take(i) =~= value_views(s));
        }
    }
}

/// `constraint_views` of a prefix is the prefix of `constraint_views`.
pub proof fn lemma_constraint_views_take(s: Seq<ConstraintExpr>, i: int)
    requires
        0 <= i <= s.len(),
    ensures
        constraint_views(s.take(i)) == constraint_views(s).take(i),
        constraint_views(s).len() == s.len(),
    decreases s.len(),
{
    if s.len() > 0 {
        if i < s.len() {
            assert(s.drop_last().take(i) =~= s.take(i));
            lemma_constraint_views_take(s.drop_last(), i);
            assert(constraint_views(s).take(i) =~= constraint_views(s.drop_last()).take(i));
        } else {
            lemma_constraint_views_take(s.drop_last(), 0);
            assert(s.take(i) =~= s);
            assert(constraint_views(s).take(i) =~= constraint_views(s));
        }
    }
}

/// Element `i` of `value_views(s)` is the view of `s[i]`.
pub proof fn lemma_value_views_index(s: Seq<ValueExpr>, i: int)
    requires
        0 <= i < s.len(),
    ensures
        value_views(s)[i] == value_view(s[i]),
        value_views(s).len() == s.len(),
    decreases s.len(),
{
    lemma_value_views_take(s, 0);
    if i < s.len() - 1 {
        lemma_value_views_index(s.drop_last(), i);
    } else {
        lemma_value_views_take(s.drop_last(), 0);
    }
}

/// Element `i` of `constraint_views(s)` is the view of `s[i]`.
pub proof fn lemma_constraint_views_index(s: Seq<ConstraintExpr>, i: int)
    requires
        0 <= i < s.len(),
    ensures
        constraint_views(s)[i] == constraint_view(s[i]),
        constraint_views(s).len() == s.len(),
    decreases s.len(),
{
    lemma_constraint_views_take(s, 0);
    if i < s.len() - 1 {
        lemma_constraint_views_index(s.drop_last(), i);
    } else {
        lemma_constraint_views_take(s.drop_last(), 0);
    }
}

fn duplicate_strings(v: &Vec<String>) -> (r: Vec<String>)
    ensures
        views(r@) == views(v@),
{
    let mut out: Vec<String> = Vec::new();
    let mut i: usize = 0;
    while i < v.len()
        invariant
            i <= v@.len(),
            views(out@) == views(v@.take(i as int)),
        decreases v.len() - i,
    {
        let ghost before = out@;
        out.push(v[i].clone());
        assert(out@ =~= before.push(v@[i as int]));
        assert(v@.take(i + 1) =~= v@.take(i as int).push(v@[i as int]));
        assert(views(out@) =~= views(before).push(v@[i as int]@));
        assert(views(v@.take(i + 1)) =~= views(v@.take(i as int)).push(v@[i as int]@));
        i += 1;
    }
    assert(v@.take(v@.len() as int) =~= v@);
    out
}

fn strings_equal(a: &Vec<String>, b: &Vec<String>) -> (r: bool)
    ensures
        r == (views(a@) == views(b@)),
{
    if a.len() != b.len() {
        assert(views(a@).len() != views(b@).len());
        return false;
    }
    let mut i: usize = 0;
    while i < a.len()
        invariant
            a@.len() == b@.len(),
            i <= a@.len(),
            forall|k: int| 0 <= k < i ==> a@[k]@ == b@[k]@,
        decreases a.len() - i,
    {
        if a[i] != b[i] {
            assert(views(a@)[i as int] != views(b@)[i as int]);
            return false;
        }
        i += 1;
    }
    assert(views(a@) =~= views(b@));
    true
}

impl LiteralValue {
    /// A copy with the same view.
    pub fn duplicate(&self) -> (r: LiteralValue)
        ensures
            r@ == self@,
    {
        match self {
            LiteralValue::Integer(n) => LiteralValue::Integer(*n),
            LiteralValue::Float(n) => LiteralValue::Float(*n),
            LiteralValue::Text(t) => LiteralValue::Text(t.clone()),
            LiteralValue::Bool(b) => LiteralValue::Bool(*b),
            LiteralValue::Nothing => LiteralValue::Nothing,
        }
    }

    /// `true` when both literals have the same view.
    pub fn same(&self, other: &LiteralValue) -> (r: bool)
        ensures
            r == (self@ == other@),
    {
        match (self, other) {
            (LiteralValue::Integer(a), LiteralValue::Integer(b)) => *a == *b,
            (LiteralValue::Float(a), LiteralValue::Float(b)) => *a == *b,
            (LiteralValue::Text(a), LiteralValue::Text(b)) => *a == *b,
            (LiteralValue::Bool(a), LiteralValue::Bool(b)) => *a == *b,
            (LiteralValue::Nothing, LiteralValue::Nothing) => true,
            _ => false,
        }
    }
}

impl ValueExpr {
    /// A copy with the same view.
    pub fn duplicate(&self) -> (r: ValueExpr)
        ensures
            r@ == self@,
        decreases self,
    {
        match self {
            ValueExpr::Literal(l) => ValueExpr::Literal(l.duplicate()),
            ValueExpr::Ref(parts) => ValueExpr::Ref(duplicate_strings(parts)),
            ValueExpr::Old(inner) => ValueExpr::Old(Box::new(inner.duplicate())),
            ValueExpr::Arithmetic { op, left, right } => ValueExpr::Arithmetic {
                op: *op,
                left: Box::new(left.duplicate()),
                right: Box::new(right.duplicate()),
            },
            ValueExpr::Call { name, args } => ValueExpr::Call {
                name: name.clone(),
                args: duplicate_values(args),
            },
            ValueExpr::SetLiteral(elems) => ValueExpr::SetLiteral(duplicate_values(elems)),
        }
    }

    /// `true` when both expressions have the same view.
    pub fn same(&self, other: &ValueExpr) -> (r: bool)
        ensures
            r == (self@ == other@),
        decreases self,
    {
        match (self, other) {
            (ValueExpr::Literal(a), ValueExpr::Literal(b)) => a.same(b),
            (ValueExpr::Ref(a), ValueExpr::Ref(b)) => strings_equal(a, b),
            (ValueExpr::Old(a), ValueExpr::Old(b)) => a.same(b),
            (
                ValueExpr::Arithmetic { op: o1, left: l1, right: r1 },
                ValueExpr::Arithmetic { op: o2, left: l2, right: r2 },
            ) => *o1 == *o2 && l1.same(l2) && r1.same(r2),
            (ValueExpr::Call { name: n1, args: a1 }, ValueExpr::Call { name: n2, args: a2 }) =>
                *n1 == *n2 && values_same(a1, a2),
            (ValueExpr::SetLiteral(a), ValueExpr::SetLiteral(b)) => values_same(a, b),
            _ => false,
        }
    }
}

fn duplicate_values(v: &Vec<ValueExpr>) -> (r: Vec<ValueExpr>)
    ensures
        value_views(r@) == value_views(v@),
    decreases v,
{
    let mut out: Vec<ValueExpr> = Vec::new();
    let mut i: usize = 0;
    while i < v.len()
        invariant
            i <= v@.len(),
            value_views(out@) == value_views(v@.take(i as int)),
        decreases v.len() - i,
    {
        assert(v@.take(i + 1).drop_last() =~= v@.take(i as int));
        let d = v[i].duplicate();
        let ghost before = out@;
        out.push(d);
        assert(out@.drop_last() =~= before);
        i += 1;
    }
    assert(v@.take(v@.len() as int) =~= v@);
    out
}

fn values_same(a: &Vec<ValueExpr>, b: &Vec<ValueExpr>) -> (r: bool)
    ensures
        r == (value_views(a@) == value_views(b@)),
    decreases a,
{
    proof {
        lemma_value_views_take(a@, 0);
        lemma_value_views_take(b@, 0);
    }
    if a.len() != b.len() {
        return false;
    }
    let mut i: usize = 0;
    while i < a.len()
        invariant
            a@.len() == b@.len(),
            i <= a@.len(),
            value_views(a@.take(i as int)) == value_views(b@.take(i as int)),
        decreases a.len() - i,
    {
        assert(a@.take(i + 1).drop_last() =~= a@.take(i as int));
        assert(b@.take(i + 1).drop_last() =~= b@.take(i as int));
        if !a[i].same(&b[i]) {
            proof {
                lemma_value_views_index(a@, i as int);
                lemma_value_views_index(b@, i as int);
            }
            return false;
        }
        i += 1;
    }
    assert(a@.take(a@.len() as int) =~= a@);
    assert(b@.take(b@.len() as int) =~= b@);
    true
}

impl ConstraintExpr {
    /// A copy with the same view.
    pub fn duplicate(&self) -> (r: ConstraintExpr)
        ensures
            r@ == self@,
        decreases self,
    {
        match self {
            ConstraintExpr::Compare { op, left, right } => ConstraintExpr::Compare {
                op: *op,
                left: left.duplicate(),
                right: right.duplicate(),
            },
            ConstraintExpr::In { value, collection } => ConstraintExpr::In {
                value: value.duplicate(),
                collection: collection.duplicate(),
            },
            ConstraintExpr::Matches { value, pattern } => ConstraintExpr::Matches {
                value: value.duplicate(),
                pattern: pattern.clone(),
            },
            ConstraintExpr::And(children) => ConstraintExpr::And(duplicate_constraints(children)),
            ConstraintExpr::Or(children) => ConstraintExpr::Or(duplicate_constraints(children)),
            ConstraintExpr::Not(child) => ConstraintExpr::Not(Box::new(child.duplicate())),
            ConstraintExpr::ForAll { variable, collection, condition } => ConstraintExpr::ForAll {
                variable: variable.clone(),
                collection: collection.duplicate(),
                condition: Box::new(condition.duplicate()),
            },
            ConstraintExpr::Exists { variable, collection, condition } => ConstraintExpr::Exists {
                variable: variable.clone(),
                collection: collection.duplicate(),
                condition: Box::new(condition.duplicate()),
            },
        }
    }

    /// `true` when both constraints have the same view.
    pub fn same(&self, other: &ConstraintExpr) -> (r: bool)
        ensures
            r == (self@ == other@),
        decreases self,
    {
        match (self, other) {
            (
                ConstraintExpr::Compare { op: o1, left: l1, right: r1 },
                ConstraintExpr::Compare { op: o2, left: l2, right: r2 },
            ) => *o1 == *o2 && l1.same(l2) && r1.same(r2),
            (
                ConstraintExpr::In { value: v1, collection: c1 },
                ConstraintExpr::In { value: v2, collection: c2 },
            ) => v1.same(v2) && c1.same(c2),
            (
                ConstraintExpr::Matches { value: v1, pattern: p1 },
                ConstraintExpr::Matches { value: v2, pattern: p2 },
            ) => v1.same(v2) && *p1 == *p2,
            (ConstraintExpr::And(a), ConstraintExpr::And(b)) => constraints_same(a, b),
            (ConstraintExpr::Or(a), ConstraintExpr::Or(b)) => constraints_same(a, b),
            (ConstraintExpr::Not(a), ConstraintExpr::Not(b)) => a.same(b),
            (
                ConstraintExpr::ForAll { variable: x1, collection: c1, condition: d1 },
                ConstraintExpr::ForAll { variable: x2, collection: c2, condition: d2 },
            ) => *x1 == *x2 && c1.same(c2) && d1.same(d2),
            (
                ConstraintExpr::Exists { variable: x1, collection: c1, condition: d1 },
                ConstraintExpr::Exists { variable: x2, collection: c2, condition: d2 },
            ) => *x1 == *x2 && c1.same(c2) && d1.same(d2),
            _ => false,
        }
    }
}

/// Copies of `v`, with the same views.
pub fn duplicate_constraints(v: &Vec<ConstraintExpr>) -> (r: Vec<ConstraintExpr>)
    ensures
        constraint_views(r@) == constraint_views(v@),
    decreases v,
{
    let mut out: Vec<ConstraintExpr> = Vec::new();
    let mut i: usize = 0;
    while i < v.len()
        invariant
            i <= v@.len(),
            constraint_views(out@) == constraint_views(v@.take(i as int)),
        decreases v.len() - i,
    {
        assert(v@.take(i + 1).drop_last() =~= v@.take(i as int));
        let d = v[i].duplicate();
        let ghost before = out@;
        out.push(d);
        assert(out@.drop_last() =~= before);
        i += 1;
    }
    assert(v@.take(v@.len() as int) =~= v@);
    out
}

fn constraints_same(a: &Vec<ConstraintExpr>, b: &Vec<ConstraintExpr>) -> (r: bool)
    ensures
        r == (constraint_views(a@) == constraint_views(b@)),
    decreases a,
{
    proof {
        lemma_constraint_views_take(a@, 0);
        lemma_constraint_views_take(b@, 0);
    }
    if a.len() != b.len() {
        return false;
    }
    let mut i: usize = 0;
    while i < a.len()
        invariant
            a@.len() == b@.len(),
            i <= a@.len(),
            constraint_views(a@.take(i as int)) == constraint_views(b@.take(i as int)),
        decreases a.len() - i,
    {
        assert(a@.take(i + 1).drop_last() =~= a@.take(i as int));
        assert(b@.take(i + 1).drop_last() =~= b@.take(i as int));
        if !a[i].same(&b[i]) {
            proof {
                lemma_constraint_views_index(a@, i as int);
                lemma_constraint_views_index(b@, i as int);
            }
            return false;
        }
        i += 1;
    }
    assert(a@.take(a@.len() as int) =~= a@);
    assert(b@.take(b@.len() as int) =~= b@);
    true
}

} // verus!
