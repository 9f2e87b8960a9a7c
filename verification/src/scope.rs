//! Reference collection over contract expressions: which variables an
//! expression names directly (outside `old(..)`, excluding quantifier-bound
//! names), and whether it uses `old(..)` at all.

use vstd::prelude::*;

use crate::expr::{
    constraint_views, lemma_constraint_views_take, lemma_value_views_take, value_views,
    ConstraintExpr, ConstraintView, ValueExpr, ValueView,
};
use crate::text::{vec_contains, views};

verus! {

/// The root names referenced by `e`, in order, with repetitions.
///
/// A reference counts when it is not inside `old(..)` and its root is not
/// bound by an enclosing quantifier; only the first path segment is taken.
pub open spec fn value_refs(e: ValueView, inside_old: bool, bound: Seq<Seq<char>>) -> Seq<Seq<char>>
    decreases e,
{
    match e {
        ValueView::Ref(parts) => {
            if !inside_old && parts.len() > 0 && !bound.contains(parts[0]) {
                seq![parts[0]]
            } else {
                seq![]
            }
        },
        ValueView::Old(inner) => value_refs(*inner, true, bound),
        ValueView::Arithmetic { left, right, .. } => value_refs(*left, inside_old, bound)
            + value_refs(*right, inside_old, bound),
        ValueView::Call { args, .. } => value_list_refs(args, inside_old, bound),
        ValueView::SetLiteral(elems) => value_list_refs(elems, inside_old, bound),
        ValueView::Literal(_) => seq![],
    }
}

/// `value_refs` of each element of `es`, concatenated in order.
pub open spec fn value_list_refs(es: Seq<ValueView>, inside_old: bool, bound: Seq<Seq<char>>) -> Seq<
    Seq<char>,
>
    decreases es,
{
    if es.len() == 0 {
        seq![]
    } else {
        value_list_refs(es.drop_last(), inside_old, bound) + value_refs(es.last(), inside_old, bound)
    }
}

/// The root names referenced by a constraint (see `value_refs`). Quantifiers
/// evaluate their collection in the outer scope and bind their variable in
/// the condition.
pub open spec fn constraint_refs(e: ConstraintView, inside_old: bool, bound: Seq<Seq<char>>) -> Seq<
    Seq<char>,
>
    decreases e,
{
    match e {
        ConstraintView::Compare { left, right, .. } => value_refs(left, inside_old, bound)
            + value_refs(right, inside_old, bound),
        ConstraintView::In { value, collection } => value_refs(value, inside_old, bound)
            + value_refs(collection, inside_old, bound),
        ConstraintView::Matches { value, .. } => value_refs(value, inside_old, bound),
        ConstraintView::And(children) => constraint_list_refs(children, inside_old, bound),
        ConstraintView::Or(children) => constraint_list_refs(children, inside_old, bound),
        ConstraintView::Not(child) => constraint_refs(*child, inside_old, bound),
        ConstraintView::ForAll { variable, collection, condition } => value_refs(
            collection,
            inside_old,
            bound,
        ) + constraint_refs(*condition, inside_old, bound.push(variable)),
        ConstraintView::Exists { variable, collection, condition } => value_refs(
            collection,
            inside_old,
            bound,
        ) + constraint_refs(*condition, inside_old, bound.push(variable)),
    }
}

/// `constraint_refs` of each element of `cs`, concatenated in order.
pub open spec fn constraint_list_refs(
    cs: Seq<ConstraintView>,
    inside_old: bool,
    bound: Seq<Seq<char>>,
) -> Seq<Seq<char>>
    decreases cs,
{
    if cs.len() == 0 {
        seq![]
    } else {
        constraint_list_refs(cs.drop_last(), inside_old, bound) + constraint_refs(
            cs.last(),
            inside_old,
            bound,
        )
    }
}

/// The top-level names of a whole contract expression.
pub open spec fn top_level_refs(e: ConstraintView) -> Seq<Seq<char>> {
    constraint_refs(e, false, seq![])
}

/// `e` contains an `old(..)` anywhere.
pub open spec fn value_has_old(e: ValueView) -> bool
    decreases e,
{
    match e {
        ValueView::Old(_) => true,
        ValueView::Arithmetic { left, right, .. } => value_has_old(*left) || value_has_old(*right),
        ValueView::Call { args, .. } => value_list_has_old(args),
        ValueView::SetLiteral(elems) => value_list_has_old(elems),
        ValueView::Ref(_) => false,
        ValueView::Literal(_) => false,
    }
}

/// Some element of `es` contains an `old(..)`.
pub open spec fn value_list_has_old(es: Seq<ValueView>) -> bool
    decreases es,
{
    if es.len() == 0 {
        false
    } else {
        value_list_has_old(es.drop_last()) || value_has_old(es.last())
    }
}

/// `e` contains an `old(..)` anywhere.
pub open spec fn constraint_has_old(e: ConstraintView) -> bool
    decreases e,
{
    match e {
        ConstraintView::Compare { left, right, .. } => value_has_old(left) || value_has_old(right),
        ConstraintView::In { value, collection } => value_has_old(value) || value_has_old(
            collection,
        ),
        ConstraintView::Matches { value, .. } => value_has_old(value),
        ConstraintView::And(children) => constraint_list_has_old(children),
        ConstraintView::Or(children) => constraint_list_has_old(children),
        ConstraintView::Not(child) => constraint_has_old(*child),
        ConstraintView::ForAll { collection, condition, .. } => value_has_old(collection)
            || constraint_has_old(*condition),
        ConstraintView::Exists { collection, condition, .. } => value_has_old(collection)
            || constraint_has_old(*condition),
    }
}

/// Some element of `cs` contains an `old(..)`.
pub open spec fn constraint_list_has_old(cs: Seq<ConstraintView>) -> bool
    decreases cs,
{
    if cs.len() == 0 {
        false
    } else {
        constraint_list_has_old(cs.drop_last()) || constraint_has_old(cs.last())
    }
}

/// Collect the top-level variable names directly referenced in `expr`:
/// names inside `old(..)` and quantifier-bound names are left out, and of a
/// dotted path only the root is taken. Order and repetitions follow the tree.
pub fn collect_top_level_refs(expr: &ConstraintExpr) -> (names: Vec<String>)
    ensures
        views(names@) == top_level_refs(expr@),
{
    let mut names: Vec<String> = Vec::new();
    let bound: Vec<String> = Vec::new();
    assert(views(bound@) =~= seq![]);
    collect_refs_in_constraint(expr, false, &bound, &mut names);
    assert(views(names@) =~= seq![] + top_level_refs(expr@));
    names
}

/// `true` when `expr` uses `old(..)` anywhere in the tree.
pub fn check_has_old(expr: &ConstraintExpr) -> (b: bool)
    ensures
        b == constraint_has_old(expr@),
{
    has_old_in_constraint(expr)
}

fn push_name(out: &mut Vec<String>, n: String)
    ensures
        views(final(out)@) == views(old(out)@).push(n@),
{
    out.push(n);
    assert(views(out@) =~= views(old(out)@).push(n@));
}

fn collect_refs_in_value(
    expr: &ValueExpr,
    inside_old: bool,
    bound: &Vec<String>,
    out: &mut Vec<String>,
)
    ensures
        views(final(out)@) == views(old(out)@) + value_refs(expr@, inside_old, views(bound@)),
    decreases expr,
{
    let ghost start = views(out@);
    match expr {
        ValueExpr::Ref(parts) => {
            proof {
                if parts@.len() > 0 {
                    assert(views(parts@)[0] == parts@[0]@);
                }
            }
            if !inside_old && parts.len() > 0 {
                if !vec_contains(bound, &parts[0]) {
                    push_name(out, parts[0].clone());
                }
            }
            assert(views(out@) =~= start + value_refs(expr@, inside_old, views(bound@)));
        },
        ValueExpr::Old(inner) => {
            collect_refs_in_value(inner, true, bound, out);
        },
        ValueExpr::Arithmetic { left, right, .. } => {
            collect_refs_in_value(left, inside_old, bound, out);
            collect_refs_in_value(right, inside_old, bound, out);
            assert(views(out@) =~= start + value_refs(expr@, inside_old, views(bound@)));
        },
        ValueExpr::Call { args, .. } => {
            collect_refs_in_values(args, inside_old, bound, out);
        },
        ValueExpr::SetLiteral(elems) => {
            collect_refs_in_values(elems, inside_old, bound, out);
        },
        ValueExpr::Literal(_) => {
            assert(views(out@) =~= start + value_refs(expr@, inside_old, views(bound@)));
        },
    }
}

fn collect_refs_in_values(
    exprs: &Vec<ValueExpr>,
    inside_old: bool,
    bound: &Vec<String>,
    out: &mut Vec<String>,
)
    ensures
        views(final(out)@) == views(old(out)@) + value_list_refs(
            value_views(exprs@),
            inside_old,
            views(bound@),
        ),
    decreases exprs,
{
    let ghost start = views(out@);
    let mut i: usize = 0;
    assert(value_views(exprs@.take(0)) =~= seq![]);
    while i < exprs.len()
        invariant
            i <= exprs.len(),
            views(out@) == start + value_list_refs(
                value_views(exprs@.take(i as int)),
                inside_old,
                views(bound@),
            ),
        decreases exprs.len() - i,
    {
        assert(exprs@.take(i + 1).drop_last() =~= exprs@.take(i as int));
        assert(value_views(exprs@.take(i + 1)).drop_last() == value_views(exprs@.take(i as int)));
        collect_refs_in_value(&exprs[i], inside_old, bound, out);
        assert(views(out@) =~= start + value_list_refs(
            value_views(exprs@.take(i + 1)),
            inside_old,
            views(bound@),
        ));
        i += 1;
    }
    assert(exprs@.take(exprs.len() as int) =~= exprs@);
}

fn collect_refs_in_constraint(
    expr: &ConstraintExpr,
    inside_old: bool,
    bound: &Vec<String>,
    out: &mut Vec<String>,
)
    ensures
        views(final(out)@) == views(old(out)@) + constraint_refs(
            expr@,
            inside_old,
            views(bound@),
        ),
    decreases expr,
{
    let ghost start = views(out@);
    match expr {
        ConstraintExpr::Compare { left, right, .. } => {
            collect_refs_in_value(left, inside_old, bound, out);
            collect_refs_in_value(right, inside_old, bound, out);
            assert(views(out@) =~= start + constraint_refs(expr@, inside_old, views(bound@)));
        },
        ConstraintExpr::In { value, collection } => {
            collect_refs_in_value(value, inside_old, bound, out);
            collect_refs_in_value(collection, inside_old, bound, out);
            assert(views(out@) =~= start + constraint_refs(expr@, inside_old, views(bound@)));
        },
        ConstraintExpr::Matches { value, .. } => {
            collect_refs_in_value(value, inside_old, bound, out);
        },
        ConstraintExpr::And(children) => {
            collect_refs_in_constraints(children, inside_old, bound, out);
        },
        ConstraintExpr::Or(children) => {
            collect_refs_in_constraints(children, inside_old, bound, out);
        },
        ConstraintExpr::Not(child) => {
            collect_refs_in_constraint(child, inside_old, bound, out);
        },
        ConstraintExpr::ForAll { variable, collection, condition } => {
            collect_refs_in_value(collection, inside_old, bound, out);
            let mut inner_bound = duplicate_names(bound);
            inner_bound.push(variable.clone());
            assert(views(inner_bound@) =~= views(bound@).push(variable@));
            collect_refs_in_constraint(condition, inside_old, &inner_bound, out);
            assert(views(out@) =~= start + constraint_refs(expr@, inside_old, views(bound@)));
        },
        ConstraintExpr::Exists { variable, collection, condition } => {
            collect_refs_in_value(collection, inside_old, bound, out);
            let mut inner_bound = duplicate_names(bound);
            inner_bound.push(variable.clone());
            assert(views(inner_bound@) =~= views(bound@).push(variable@));
            collect_refs_in_constraint(condition, inside_old, &inner_bound, out);
            assert(views(out@) =~= start + constraint_refs(expr@, inside_old, views(bound@)));
        },
    }
}

fn duplicate_names(v: &Vec<String>) -> (r: Vec<String>)
    ensures
        r@ == v@,
{
    let mut out: Vec<String> = Vec::new();
    let mut i: usize = 0;
    while i < v.len()
        invariant
            i <= v@.len(),
            out@ == v@.take(i as int),
        decreases v.len() - i,
    {
        out.push(v[i].clone());
        assert(out@ =~= v@.take(i + 1));
        i += 1;
    }
    assert(v@.take(v@.len() as int) =~= v@);
    out
}

fn collect_refs_in_constraints(
    exprs: &Vec<ConstraintExpr>,
    inside_old: bool,
    bound: &Vec<String>,
    out: &mut Vec<String>,
)
    ensures
        views(final(out)@) == views(old(out)@) + constraint_list_refs(
            constraint_views(exprs@),
            inside_old,
            views(bound@),
        ),
    decreases exprs,
{
    let ghost start = views(out@);
    let mut i: usize = 0;
    assert(constraint_views(exprs@.take(0)) =~= seq![]);
    while i < exprs.len()
        invariant
            i <= exprs.len(),
            views(out@) == start + constraint_list_refs(
                constraint_views(exprs@.take(i as int)),
                inside_old,
                views(bound@),
            ),
        decreases exprs.len() - i,
    {
        assert(exprs@.take(i + 1).drop_last() =~= exprs@.take(i as int));
        assert(constraint_views(exprs@.take(i + 1)).drop_last() == constraint_views(
            exprs@.take(i as int),
        ));
        collect_refs_in_constraint(&exprs[i], inside_old, bound, out);
        assert(views(out@) =~= start + constraint_list_refs(
            constraint_views(exprs@.take(i + 1)),
            inside_old,
            views(bound@),
        ));
        i += 1;
    }
    assert(exprs@.take(exprs.len() as int) =~= exprs@);
}

fn has_old_in_value(expr: &ValueExpr) -> (b: bool)
    ensures
        b == value_has_old(expr@),
    decreases expr,
{
    match expr {
        ValueExpr::Old(_) => true,
        ValueExpr::Arithmetic { left, right, .. } => has_old_in_value(left) || has_old_in_value(
            right,
        ),
        ValueExpr::Call { args, .. } => has_old_in_values(args),
        ValueExpr::SetLiteral(elems) => has_old_in_values(elems),
        ValueExpr::Ref(_) => false,
        ValueExpr::Literal(_) => false,
    }
}

proof fn lemma_value_list_has_old_prefix(es: Seq<ValueView>, k: int)
    requires
        0 <= k <= es.len(),
        value_list_has_old(es.take(k)),
    ensures
        value_list_has_old(es),
    decreases es.len() - k,
{
    if k < es.len() {
        assert(es.take(k + 1).drop_last() =~= es.take(k));
        lemma_value_list_has_old_prefix(es, k + 1);
    } else {
        assert(es.take(k) =~= es);
    }
}

proof fn lemma_constraint_list_has_old_prefix(cs: Seq<ConstraintView>, k: int)
    requires
        0 <= k <= cs.len(),
        constraint_list_has_old(cs.take(k)),
    ensures
        constraint_list_has_old(cs),
    decreases cs.len() - k,
{
    if k < cs.len() {
        assert(cs.take(k + 1).drop_last() =~= cs.take(k));
        lemma_constraint_list_has_old_prefix(cs, k + 1);
    } else {
        assert(cs.take(k) =~= cs);
    }
}

fn has_old_in_values(exprs: &Vec<ValueExpr>) -> (b: bool)
    ensures
        b == value_list_has_old(value_views(exprs@)),
    decreases exprs,
{
    let mut i: usize = 0;
    assert(value_views(exprs@.take(0)) =~= seq![]);
    while i < exprs.len()
        invariant
            i <= exprs.len(),
            !value_list_has_old(value_views(exprs@.take(i as int))),
        decreases exprs.len() - i,
    {
        assert(exprs@.take(i + 1).drop_last() =~= exprs@.take(i as int));
        assert(value_views(exprs@.take(i + 1)).drop_last() == value_views(exprs@.take(i as int)));
        if has_old_in_value(&exprs[i]) {
            proof {
                lemma_value_views_take(exprs@, i + 1);
                lemma_value_list_has_old_prefix(value_views(exprs@), i as int + 1);
            }
            return true;
        }
        i += 1;
    }
    assert(exprs@.take(exprs.len() as int) =~= exprs@);
    false
}

fn has_old_in_constraint(expr: &ConstraintExpr) -> (b: bool)
    ensures
        b == constraint_has_old(expr@),
    decreases expr,
{
    match expr {
        ConstraintExpr::Compare { left, right, .. } => has_old_in_value(left) || has_old_in_value(
            right,
        ),
        ConstraintExpr::In { value, collection } => has_old_in_value(value) || has_old_in_value(
            collection,
        ),
        ConstraintExpr::Matches { value, .. } => has_old_in_value(value),
        ConstraintExpr::And(children) => has_old_in_constraints(children),
        ConstraintExpr::Or(children) => has_old_in_constraints(children),
        ConstraintExpr::Not(child) => has_old_in_constraint(child),
        ConstraintExpr::ForAll { collection, condition, .. } => has_old_in_value(collection)
            || has_old_in_constraint(condition),
        ConstraintExpr::Exists { collection, condition, .. } => has_old_in_value(collection)
            || has_old_in_constraint(condition),
    }
}

fn has_old_in_constraints(exprs: &Vec<ConstraintExpr>) -> (b: bool)
    ensures
        b == constraint_list_has_old(constraint_views(exprs@)),
    decreases exprs,
{
    let mut i: usize = 0;
    assert(constraint_views(exprs@.take(0)) =~= seq![]);
    while i < exprs.len()
        invariant
            i <= exprs.len(),
            !constraint_list_has_old(constraint_views(exprs@.take(i as int))),
        decreases exprs.len() - i,
    {
        assert(exprs@.take(i + 1).drop_last() =~= exprs@.take(i as int));
        assert(constraint_views(exprs@.take(i + 1)).drop_last() == constraint_views(
            exprs@.take(i as int),
        ));
        if has_old_in_constraint(&exprs[i]) {
            proof {
                lemma_constraint_views_take(exprs@, i + 1);
                lemma_constraint_list_has_old_prefix(constraint_views(exprs@), i as int + 1);
            }
            return true;
        }
        i += 1;
    }
    assert(exprs@.take(exprs.len() as int) =~= exprs@);
    false
}

// ─── laws of reference collection ───────────────────────────────────────────

/// No name of `s` is in `bound`.
pub open spec fn none_bound(s: Seq<Seq<char>>, bound: Seq<Seq<char>>) -> bool {
    forall|k: int| 0 <= k < s.len() ==> !bound.contains(#[trigger] s[k])
}

proof fn lemma_none_bound_concat(a: Seq<Seq<char>>, b: Seq<Seq<char>>, bound: Seq<Seq<char>>)
    requires
        none_bound(a, bound),
        none_bound(b, bound),
    ensures
        none_bound(a + b, bound),
{
    assert forall|k: int| 0 <= k < (a + b).len() implies !bound.contains(#[trigger] (a + b)[k]) by {
        if k < a.len() {
            assert((a + b)[k] == a[k]);
        } else {
            assert((a + b)[k] == b[k - a.len()]);
        }
    }
}

proof fn lemma_none_bound_push(s: Seq<Seq<char>>, bound: Seq<Seq<char>>, v: Seq<char>)
    requires
        none_bound(s, bound.push(v)),
    ensures
        none_bound(s, bound),
{
    assert forall|k: int| 0 <= k < s.len() implies !bound.contains(#[trigger] s[k]) by {
        if bound.contains(s[k]) {
            let j = choose|j: int| 0 <= j < bound.len() && bound[j] == s[k];
            assert(bound.push(v)[j] == s[k]);
        }
    }
}

proof fn lemma_value_refs_law(e: ValueView, inside_old: bool, bound: Seq<Seq<char>>)
    ensures
        value_refs(e, true, bound) == Seq::<Seq<char>>::empty(),
        none_bound(value_refs(e, inside_old, bound), bound),
    decreases e,
{
    match e {
        ValueView::Ref(parts) => {},
        ValueView::Old(inner) => {
            lemma_value_refs_law(*inner, true, bound);
        },
        ValueView::Arithmetic { left, right, .. } => {
            lemma_value_refs_law(*left, inside_old, bound);
            lemma_value_refs_law(*right, inside_old, bound);
            lemma_none_bound_concat(value_refs(*left, inside_old, bound), value_refs(*right, inside_old, bound), bound);
            assert(value_refs(*left, true, bound) + value_refs(*right, true, bound) =~= Seq::<Seq<char>>::empty());
        },
        ValueView::Call { args, .. } => {
            lemma_value_list_refs_law(args, inside_old, bound);
        },
        ValueView::SetLiteral(elems) => {
            lemma_value_list_refs_law(elems, inside_old, bound);
        },
        ValueView::Literal(_) => {},
    }
}

proof fn lemma_value_list_refs_law(es: Seq<ValueView>, inside_old: bool, bound: Seq<Seq<char>>)
    ensures
        value_list_refs(es, true, bound) == Seq::<Seq<char>>::empty(),
        none_bound(value_list_refs(es, inside_old, bound), bound),
    decreases es,
{
    if es.len() > 0 {
        lemma_value_list_refs_law(es.drop_last(), inside_old, bound);
        lemma_value_refs_law(es.last(), inside_old, bound);
        lemma_none_bound_concat(
            value_list_refs(es.drop_last(), inside_old, bound),
            value_refs(es.last(), inside_old, bound),
            bound,
        );
        assert(value_list_refs(es.drop_last(), true, bound) + value_refs(es.last(), true, bound)
            =~= Seq::<Seq<char>>::empty());
    }
}

proof fn lemma_constraint_refs_law(e: ConstraintView, inside_old: bool, bound: Seq<Seq<char>>)
    ensures
        constraint_refs(e, true, bound) == Seq::<Seq<char>>::empty(),
        none_bound(constraint_refs(e, inside_old, bound), bound),
    decreases e,
{
    let empty = Seq::<Seq<char>>::empty();
    match e {
        ConstraintView::Compare { left, right, .. } => {
            lemma_value_refs_law(left, inside_old, bound);
            lemma_value_refs_law(right, inside_old, bound);
            lemma_none_bound_concat(value_refs(left, inside_old, bound), value_refs(right, inside_old, bound), bound);
            assert(empty + empty =~= empty);
        },
        ConstraintView::In { value, collection } => {
            lemma_value_refs_law(value, inside_old, bound);
            lemma_value_refs_law(collection, inside_old, bound);
            lemma_none_bound_concat(
                value_refs(value, inside_old, bound),
                value_refs(collection, inside_old, bound),
                bound,
            );
            assert(empty + empty =~= empty);
        },
        ConstraintView::Matches { value, .. } => {
            lemma_value_refs_law(value, inside_old, bound);
        },
        ConstraintView::And(children) => {
            lemma_constraint_list_refs_law(children, inside_old, bound);
        },
        ConstraintView::Or(children) => {
            lemma_constraint_list_refs_law(children, inside_old, bound);
        },
        ConstraintView::Not(child) => {
            lemma_constraint_refs_law(*child, inside_old, bound);
        },
        ConstraintView::ForAll { variable, collection, condition } => {
            lemma_value_refs_law(collection, inside_old, bound);
            lemma_constraint_refs_law(*condition, inside_old, bound.push(variable));
            lemma_none_bound_push(constraint_refs(*condition, inside_old, bound.push(variable)), bound, variable);
            lemma_none_bound_concat(
                value_refs(collection, inside_old, bound),
                constraint_refs(*condition, inside_old, bound.push(variable)),
                bound,
            );
            assert(empty + empty =~= empty);
        },
        ConstraintView::Exists { variable, collection, condition } => {
            lemma_value_refs_law(collection, inside_old, bound);
            lemma_constraint_refs_law(*condition, inside_old, bound.push(variable));
            lemma_none_bound_push(constraint_refs(*condition, inside_old, bound.push(variable)), bound, variable);
            lemma_none_bound_concat(
                value_refs(collection, inside_old, bound),
                constraint_refs(*condition, inside_old, bound.push(variable)),
                bound,
            );
            assert(empty + empty =~= empty);
        },
    }
}

proof fn lemma_constraint_list_refs_law(cs: Seq<ConstraintView>, inside_old: bool, bound: Seq<Seq<char>>)
    ensures
        constraint_list_refs(cs, true, bound) == Seq::<Seq<char>>::empty(),
        none_bound(constraint_list_refs(cs, inside_old, bound), bound),
    decreases cs,
{
    if cs.len() > 0 {
        lemma_constraint_list_refs_law(cs.drop_last(), inside_old, bound);
        lemma_constraint_refs_law(cs.last(), inside_old, bound);
        lemma_none_bound_concat(
            constraint_list_refs(cs.drop_last(), inside_old, bound),
            constraint_refs(cs.last(), inside_old, bound),
            bound,
        );
        assert(constraint_list_refs(cs.drop_last(), true, bound) + constraint_refs(cs.last(), true, bound)
            =~= Seq::<Seq<char>>::empty());
    }
}

/// What reference collection leaves out: nothing under `old(..)` counts,
/// and no name bound by an enclosing quantifier is ever reported. In
/// particular `old(x)` adds no top-level reference, and in
/// `forall v in c: cond` the variable `v` is not one within `cond`.
pub proof fn lemma_refs_left_out(e: ConstraintView, bound: Seq<Seq<char>>)
    ensures
        constraint_refs(e, true, bound) == Seq::<Seq<char>>::empty(),
        forall|k: int|
            0 <= k < constraint_refs(e, false, bound).len() ==> !bound.contains(
                #[trigger] constraint_refs(e, false, bound)[k],
            ),
        forall|inner: ValueView| value_refs(ValueView::Old(Box::new(inner)), false, bound) == Seq::<
            Seq<char>,
        >::empty(),
{
    lemma_constraint_refs_law(e, false, bound);
    lemma_constraint_refs_law(e, true, bound);
    assert forall|inner: ValueView| value_refs(ValueView::Old(Box::new(inner)), false, bound) == Seq::<
        Seq<char>,
    >::empty() by {
        lemma_value_refs_law(inner, true, bound);
    }
}

/// A reference outside `old(..)` whose root is not bound is reported by
/// its first segment, alone.
pub proof fn lemma_ref_reported(parts: Seq<Seq<char>>, bound: Seq<Seq<char>>)
    requires
        parts.len() > 0,
        !bound.contains(parts[0]),
    ensures
        value_refs(ValueView::Ref(parts), false, bound) == seq![parts[0]],
{
}

} // verus!
