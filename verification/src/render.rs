//! The text of a contract expression, written in the contract language:
//! `sender.balance >= old(amount) + 1`, `for all item in items, item > 0`.
//! Compound operands are parenthesized: an arithmetic operand of an
//! arithmetic expression, and a conjunction or disjunction inside another
//! constraint.

use vstd::prelude::*;

use crate::encode::{join_dot, var_key};
use crate::expr::{
    lemma_constraint_views_index, lemma_constraint_views_take, lemma_value_views_index,
    lemma_value_views_take, constraint_views, value_views, ArithOp, CompareOp, ConstraintExpr,
    ConstraintView, LiteralValue, LiteralView, ValueExpr, ValueView,
};
use crate::obstruction::{decimal, digit_str, digit_text};

verus! {

// ─── numbers ────────────────────────────────────────────────────────────────

/// The decimal text of the integer `n`, with a leading `-` when negative.
pub open spec fn int_text(n: int) -> Seq<char> {
    if n < 0 {
        "-"@ + decimal((-n) as nat)
    } else {
        decimal(n as nat)
    }
}

/// The digits after the point of the fraction `f` ten-thousandths
/// (`0 < f < 10000`), without trailing zeros.
pub open spec fn fraction_text(f: nat) -> Seq<char> {
    let d1 = digit_text(f / 1000);
    let d2 = digit_text((f / 100) % 10);
    let d3 = digit_text((f / 10) % 10);
    let d4 = digit_text(f % 10);
    if f % 1000 == 0 {
        d1
    } else if f % 100 == 0 {
        d1 + d2
    } else if f % 10 == 0 {
        d1 + d2 + d3
    } else {
        d1 + d2 + d3 + d4
    }
}

/// The text of the decimal number `n` ten-thousandths: its whole part,
/// then a point and the fraction when there is one.
pub open spec fn scaled_text(n: int) -> Seq<char> {
    let m: nat = if n < 0 {
        (-n) as nat
    } else {
        n as nat
    };
    let sign = if n < 0 {
        "-"@
    } else {
        ""@
    };
    if m % 10000 == 0 {
        sign + decimal(m / 10000)
    } else {
        sign + decimal(m / 10000) + "."@ + fraction_text(m % 10000)
    }
}

fn decimal_u64(n: u64) -> (r: String)
    ensures
        r@ == decimal(n as nat),
    decreases n,
{
    if n < 10 {
        String::from_str(digit_str(n as usize))
    } else {
        let mut s = decimal_u64(n / 10);
        s.append(digit_str((n % 10) as usize));
        s
    }
}

fn magnitude(n: i64) -> (m: u64)
    ensures
        m as int == if n < 0 {
            -n
        } else {
            n as int
        },
{
    if n < 0 {
        let w: i128 = n as i128;
        (-w) as u64
    } else {
        n as u64
    }
}

fn int_string(n: i64) -> (r: String)
    ensures
        r@ == int_text(n as int),
{
    let mut out = if n < 0 {
        String::from_str("-")
    } else {
        String::new()
    };
    let d = decimal_u64(magnitude(n));
    out.append(d.as_str());
    proof {
        reveal_strlit("-");
    }
    out
}

fn fraction_string(f: u64) -> (r: String)
    requires
        0 < f < 10000,
    ensures
        r@ == fraction_text(f as nat),
{
    let mut out = String::from_str(digit_str((f / 1000) as usize));
    if f % 1000 != 0 {
        out.append(digit_str(((f / 100) % 10) as usize));
        if f % 100 != 0 {
            out.append(digit_str(((f / 10) % 10) as usize));
            if f % 10 != 0 {
                out.append(digit_str((f % 10) as usize));
            }
        }
    }
    out
}

fn scaled_string(n: i64) -> (r: String)
    ensures
        r@ == scaled_text(n as int),
{
    let m = magnitude(n);
    let mut out = if n < 0 {
        String::from_str("-")
    } else {
        String::new()
    };
    proof {
        reveal_strlit("-");
        reveal_strlit(".");
        reveal_strlit("");
    }
    let ghost sign = if n < 0 {
        "-"@
    } else {
        ""@
    };
    assert(out@ =~= sign);
    let whole = decimal_u64(m / 10000);
    out.append(whole.as_str());
    if m % 10000 != 0 {
        out.append(".");
        let f = fraction_string(m % 10000);
        out.append(f.as_str());
        assert(out@ =~= sign + decimal((m / 10000) as nat) + "."@ + fraction_text((m % 10000) as nat));
    } else {
        assert(out@ =~= sign + decimal((m / 10000) as nat));
    }
    out
}

// ─── texts of expressions ───────────────────────────────────────────────────

/// The text of a literal: a decimal number, a quoted text, `true`,
/// `false` or `nothing`.
pub open spec fn literal_text(l: LiteralView) -> Seq<char> {
    match l {
        LiteralView::Integer(n) => int_text(n as int),
        LiteralView::Float(n) => scaled_text(n as int),
        LiteralView::Text(t) => "\""@ + t + "\""@,
        LiteralView::Bool(b) => if b {
            "true"@
        } else {
            "false"@
        },
        LiteralView::Nothing => "nothing"@,
    }
}

/// The symbol of an arithmetic operator.
pub open spec fn arith_symbol(op: ArithOp) -> Seq<char> {
    match op {
        ArithOp::Add => "+"@,
        ArithOp::Sub => "-"@,
        ArithOp::Mul => "*"@,
        ArithOp::Div => "/"@,
        ArithOp::Mod => "%"@,
    }
}

/// The symbol of a comparison operator.
pub open spec fn compare_symbol(op: CompareOp) -> Seq<char> {
    match op {
        CompareOp::Gte => ">="@,
        CompareOp::Lte => "<="@,
        CompareOp::Gt => ">"@,
        CompareOp::Lt => "<"@,
        CompareOp::Eq => "=="@,
        CompareOp::Neq => "!="@,
        CompareOp::Is => "is"@,
        CompareOp::IsNot => "is not"@,
    }
}

/// `t` in parentheses when `paren`.
pub open spec fn parenthesized(t: Seq<char>, paren: bool) -> Seq<char> {
    if paren {
        "("@ + t + ")"@
    } else {
        t
    }
}

/// The text of a value expression.
pub open spec fn render_value(v: ValueView) -> Seq<char>
    decreases v,
{
    match v {
        ValueView::Literal(l) => literal_text(l),
        ValueView::Ref(parts) => join_dot(parts),
        ValueView::Old(inner) => "old("@ + render_value(*inner) + ")"@,
        ValueView::Arithmetic { op, left, right } => parenthesized(render_value(*left), *left is Arithmetic)
            + " "@ + arith_symbol(op) + " "@ + parenthesized(render_value(*right), *right is Arithmetic),
        ValueView::Call { name, args } => name + "("@ + render_values(args) + ")"@,
        ValueView::SetLiteral(elems) => "{"@ + render_values(elems) + "}"@,
    }
}

/// The texts of the value expressions `vs`, separated by `, `.
pub open spec fn render_values(vs: Seq<ValueView>) -> Seq<char>
    decreases vs,
{
    if vs.len() == 0 {
        seq![]
    } else if vs.len() == 1 {
        render_value(vs[0])
    } else {
        render_values(vs.drop_last()) + ", "@ + render_value(vs.last())
    }
}

/// `c` is a conjunction or a disjunction.
pub open spec fn is_junction(c: ConstraintView) -> bool {
    c is And || c is Or
}

/// The text of a constraint.
pub open spec fn render_constraint(c: ConstraintView) -> Seq<char>
    decreases c,
{
    match c {
        ConstraintView::Compare { op, left, right } => render_value(left) + " "@ + compare_symbol(op) + " "@
            + render_value(right),
        ConstraintView::In { value, collection } => render_value(value) + " in "@ + render_value(collection),
        ConstraintView::Matches { value, pattern } => render_value(value) + " matches \""@ + pattern + "\""@,
        ConstraintView::And(children) => render_constraints(children, " and "@),
        ConstraintView::Or(children) => render_constraints(children, " or "@),
        ConstraintView::Not(child) => "not "@ + parenthesized(render_constraint(*child), is_junction(*child)),
        ConstraintView::ForAll { variable, collection, condition } => "for all "@ + variable + " in "@
            + render_value(collection) + ", "@ + render_constraint(*condition),
        ConstraintView::Exists { variable, collection, condition } => "exists "@ + variable + " in "@
            + render_value(collection) + ", "@ + render_constraint(*condition),
    }
}

/// The texts of the constraints `cs`, each parenthesized when it is a
/// conjunction or disjunction, separated by `sep`.
pub open spec fn render_constraints(cs: Seq<ConstraintView>, sep: Seq<char>) -> Seq<char>
    decreases cs,
{
    if cs.len() == 0 {
        seq![]
    } else {
        let last = parenthesized(render_constraint(cs.last()), is_junction(cs.last()));
        if cs.len() == 1 {
            last
        } else {
            render_constraints(cs.drop_last(), sep) + sep + last
        }
    }
}

// ─── writing the texts ──────────────────────────────────────────────────────

fn literal_string(l: &LiteralValue) -> (r: String)
    ensures
        r@ == literal_text(l@),
{
    proof {
        reveal_strlit("\"");
        reveal_strlit("true");
        reveal_strlit("false");
        reveal_strlit("nothing");
    }
    match l {
        LiteralValue::Integer(n) => int_string(*n),
        LiteralValue::Float(n) => scaled_string(*n),
        LiteralValue::Text(t) => {
            let mut out = String::from_str("\"");
            out.append(t.as_str());
            out.append("\"");
            out
        },
        LiteralValue::Bool(b) => if *b {
            String::from_str("true")
        } else {
            String::from_str("false")
        },
        LiteralValue::Nothing => String::from_str("nothing"),
    }
}

fn arith_str(op: ArithOp) -> (r: &'static str)
    ensures
        r@ == arith_symbol(op),
{
    match op {
        ArithOp::Add => "+",
        ArithOp::Sub => "-",
        ArithOp::Mul => "*",
        ArithOp::Div => "/",
        ArithOp::Mod => "%",
    }
}

fn compare_str(op: CompareOp) -> (r: &'static str)
    ensures
        r@ == compare_symbol(op),
{
    match op {
        CompareOp::Gte => ">=",
        CompareOp::Lte => "<=",
        CompareOp::Gt => ">",
        CompareOp::Lt => "<",
        CompareOp::Eq => "==",
        CompareOp::Neq => "!=",
        CompareOp::Is => "is",
        CompareOp::IsNot => "is not",
    }
}

fn push_parenthesized(out: &mut String, t: &str, paren: bool)
    ensures
        final(out)@ == old(out)@ + parenthesized(t@, paren),
{
    proof {
        reveal_strlit("(");
        reveal_strlit(")");
    }
    if paren {
        out.append("(");
        out.append(t);
        out.append(")");
    } else {
        out.append(t);
    }
}

/// The text of a value expression (see `render_value`).
pub fn value_text(v: &ValueExpr) -> (r: String)
    ensures
        r@ == render_value(v@),
    decreases v,
{
    proof {
        reveal_strlit(" ");
        reveal_strlit("old(");
        reveal_strlit(")");
        reveal_strlit("(");
        reveal_strlit("{");
        reveal_strlit("}");
    }
    match v {
        ValueExpr::Literal(l) => literal_string(l),
        ValueExpr::Ref(parts) => var_key(parts.as_slice()),
        ValueExpr::Old(inner) => {
            let mut out = String::from_str("old(");
            let t = value_text(inner);
            out.append(t.as_str());
            out.append(")");
            out
        },
        ValueExpr::Arithmetic { op, left, right } => {
            let mut out = String::new();
            let l = value_text(left);
            let left_compound = match &**left {
                ValueExpr::Arithmetic { .. } => true,
                _ => false,
            };
            push_parenthesized(&mut out, l.as_str(), left_compound);
            out.append(" ");
            out.append(arith_str(*op));
            out.append(" ");
            let r = value_text(right);
            let right_compound = match &**right {
                ValueExpr::Arithmetic { .. } => true,
                _ => false,
            };
            push_parenthesized(&mut out, r.as_str(), right_compound);
            out
        },
        ValueExpr::Call { name, args } => {
            let mut out = name.clone();
            out.append("(");
            let t = values_text(args);
            out.append(t.as_str());
            out.append(")");
            out
        },
        ValueExpr::SetLiteral(elems) => {
            let mut out = String::from_str("{");
            let t = values_text(elems);
            out.append(t.as_str());
            out.append("}");
            out
        },
    }
}

/// The texts of the value expressions `vs`, separated by `, `.
pub fn values_text(vs: &Vec<ValueExpr>) -> (r: String)
    ensures
        r@ == render_values(value_views(vs@)),
    decreases vs,
{
    proof {
        reveal_strlit(", ");
        lemma_value_views_take(vs@, 0);
    }
    let ghost all = value_views(vs@);
    let mut out = String::new();
    let mut i: usize = 0;
    while i < vs.len()
        invariant
            i <= vs@.len(),
            all == value_views(vs@),
            all.len() == vs@.len(),
            out@ == render_values(all.take(i as int)),
        decreases vs.len() - i,
    {
        proof {
            lemma_value_views_index(vs@, i as int);
        }
        let t = value_text(&vs[i]);
        let ghost pre = all.take(i as int);
        let ghost cur = all.take(i + 1);
        assert(cur.drop_last() =~= pre);
        assert(cur.last() == all[i as int]);
        if i > 0 {
            out.append(", ");
        }
        out.append(t.as_str());
        proof {
            if i == 0 {
                assert(cur[0] == all[0]);
                assert(out@ =~= render_values(cur));
            }
        }
        i += 1;
    }
    assert(all.take(vs@.len() as int) =~= all);
    out
}

fn is_junction_expr(c: &ConstraintExpr) -> (b: bool)
    ensures
        b == is_junction(c@),
{
    match c {
        ConstraintExpr::And(_) => true,
        ConstraintExpr::Or(_) => true,
        _ => false,
    }
}

/// The text of a constraint (see `render_constraint`).
pub fn constraint_text(c: &ConstraintExpr) -> (r: String)
    ensures
        r@ == render_constraint(c@),
    decreases c,
{
    proof {
        reveal_strlit(" ");
        reveal_strlit(" in ");
        reveal_strlit(" matches \"");
        reveal_strlit("\"");
        reveal_strlit(" and ");
        reveal_strlit(" or ");
        reveal_strlit("not ");
        reveal_strlit("for all ");
        reveal_strlit("exists ");
        reveal_strlit(", ");
    }
    match c {
        ConstraintExpr::Compare { op, left, right } => {
            let mut out = value_text(left);
            out.append(" ");
            out.append(compare_str(*op));
            out.append(" ");
            let r = value_text(right);
            out.append(r.as_str());
            out
        },
        ConstraintExpr::In { value, collection } => {
            let mut out = value_text(value);
            out.append(" in ");
            let r = value_text(collection);
            out.append(r.as_str());
            out
        },
        ConstraintExpr::Matches { value, pattern } => {
            let mut out = value_text(value);
            out.append(" matches \"");
            out.append(pattern.as_str());
            out.append("\"");
            out
        },
        ConstraintExpr::And(children) => constraints_text(children, " and "),
        ConstraintExpr::Or(children) => constraints_text(children, " or "),
        ConstraintExpr::Not(child) => {
            let mut out = String::from_str("not ");
            let t = constraint_text(child);
            push_parenthesized(&mut out, t.as_str(), is_junction_expr(child));
            out
        },
        ConstraintExpr::ForAll { variable, collection, condition } => {
            let mut out = String::from_str("for all ");
            out.append(variable.as_str());
            out.append(" in ");
            let t = value_text(collection);
            out.append(t.as_str());
            out.append(", ");
            let u = constraint_text(condition);
            out.append(u.as_str());
            out
        },
        ConstraintExpr::Exists { variable, collection, condition } => {
            let mut out = String::from_str("exists ");
            out.append(variable.as_str());
            out.append(" in ");
            let t = value_text(collection);
            out.append(t.as_str());
            out.append(", ");
            let u = constraint_text(condition);
            out.append(u.as_str());
            out
        },
    }
}

/// The texts of the constraints `cs` (see `render_constraints`).
pub fn constraints_text(cs: &Vec<ConstraintExpr>, sep: &str) -> (r: String)
    ensures
        r@ == render_constraints(constraint_views(cs@), sep@),
    decreases cs,
{
    proof {
        lemma_constraint_views_take(cs@, 0);
    }
    let ghost all = constraint_views(cs@);
    let mut out = String::new();
    let mut i: usize = 0;
    while i < cs.len()
        invariant
            i <= cs@.len(),
            all == constraint_views(cs@),
            all.len() == cs@.len(),
            out@ == render_constraints(all.take(i as int), sep@),
        decreases cs.len() - i,
    {
        proof {
            lemma_constraint_views_index(cs@, i as int);
        }
        let t = constraint_text(&cs[i]);
        let ghost pre = all.take(i as int);
        let ghost cur = all.take(i + 1);
        assert(cur.drop_last() =~= pre);
        assert(cur.last() == all[i as int]);
        if i > 0 {
            out.append(sep);
        }
        push_parenthesized(&mut out, t.as_str(), is_junction_expr(&cs[i]));
        proof {
            if i == 0 {
                assert(out@ =~= render_constraints(cur, sep@));
            }
        }
        i += 1;
    }
    assert(all.take(cs@.len() as int) =~= all);
    out
}

} // verus!
