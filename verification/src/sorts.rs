//! Solver sorts of AIL types, the constraints that built-in semantic types
//! put on a value, and the encoding context of a `Do` node.
//!
//! A type reference resolves, in this order, to a primitive (`integer`,
//! `number`, `text`, `bool` and their spellings), a built-in semantic type,
//! or the first node of the graph that carries that name: a `Define` alias
//! resolves to its base type, anything else is uninterpreted.

use vstd::prelude::*;

use crate::encode::{
    key_index, old_key_of, real_of_var, table_insert, unsupported, mismatch, BoolTerm,
    BoolTermView, CmpOp, lemma_bool_views_push, Ctx, EncodeContext, EncodeError, EncodeErrorView, IntTerm, RealTerm,
    VarRef, VarSort, bool_views, bools_result, join_dot, lookup_var,
};
use crate::model::{AilGraph, Field, Node, Param, Pattern};
use crate::text::text_equal;

verus! {

/// The solver sort of an AIL type.
#[derive(Debug, Clone, Copy, PartialEq, Eq, Structural)]
pub enum Z3Sort {
    Int,
    Real,
    Bool,
    /// Records, text and unknown types: no scalar representation.
    Uninterpreted,
}

/// Built-in semantic types.
#[derive(Debug, Clone, Copy, PartialEq, Eq, Structural)]
pub enum BuiltinSemanticType {
    PositiveInteger,
    NonNegativeInteger,
    PositiveAmount,
    Percentage,
    NonEmptyText,
    EmailAddress,
    Identifier,
}

/// The built-in semantic type spelled `n`, if any.
pub open spec fn builtin_named(n: Seq<char>) -> Option<BuiltinSemanticType> {
    if n == "PositiveInteger"@ {
        Some(BuiltinSemanticType::PositiveInteger)
    } else if n == "NonNegativeInteger"@ {
        Some(BuiltinSemanticType::NonNegativeInteger)
    } else if n == "PositiveAmount"@ {
        Some(BuiltinSemanticType::PositiveAmount)
    } else if n == "Percentage"@ {
        Some(BuiltinSemanticType::Percentage)
    } else if n == "NonEmptyText"@ {
        Some(BuiltinSemanticType::NonEmptyText)
    } else if n == "EmailAddress"@ {
        Some(BuiltinSemanticType::EmailAddress)
    } else if n == "Identifier"@ {
        Some(BuiltinSemanticType::Identifier)
    } else {
        None
    }
}

/// The sort of a built-in semantic type.
pub open spec fn builtin_sort(b: BuiltinSemanticType) -> Z3Sort {
    match b {
        BuiltinSemanticType::PositiveInteger => Z3Sort::Int,
        BuiltinSemanticType::NonNegativeInteger => Z3Sort::Int,
        BuiltinSemanticType::PositiveAmount => Z3Sort::Real,
        BuiltinSemanticType::Percentage => Z3Sort::Real,
        _ => Z3Sort::Uninterpreted,
    }
}

/// Whether a built-in type constrains a number.
pub open spec fn is_numeric(b: BuiltinSemanticType) -> bool {
    builtin_sort(b) != Z3Sort::Uninterpreted
}

/// The sort of a primitive type name, if `n` is one.
pub open spec fn primitive_sort(n: Seq<char>) -> Option<Z3Sort> {
    if n == "integer"@ || n == "Integer"@ {
        Some(Z3Sort::Int)
    } else if n == "number"@ || n == "Number"@ {
        Some(Z3Sort::Real)
    } else if n == "text"@ || n == "Text"@ || n == "string"@ || n == "String"@ {
        Some(Z3Sort::Uninterpreted)
    } else if n == "bool"@ || n == "Bool"@ || n == "boolean"@ || n == "Boolean"@ {
        Some(Z3Sort::Bool)
    } else {
        None
    }
}

/// `node` carries the name `n`.
pub open spec fn has_name(node: Node, n: Seq<char>) -> bool {
    node.metadata.name is Some && node.metadata.name->0@ == n
}

/// Index of the first node named `n` that `keep` admits, or `-1`.
pub open spec fn first_index(nodes: Seq<Node>, n: Seq<char>, keep: spec_fn(Node) -> bool) -> int
    decreases nodes.len(),
{
    if nodes.len() == 0 {
        -1
    } else {
        let k = first_index(nodes.drop_last(), n, keep);
        if k >= 0 {
            k
        } else if has_name(nodes.last(), n) && keep(nodes.last()) {
            nodes.len() - 1
        } else {
            -1
        }
    }
}

/// Every node.
pub open spec fn any_node() -> spec_fn(Node) -> bool {
    |n: Node| true
}

/// Nodes of one pattern.
pub open spec fn of_pattern(p: Pattern) -> spec_fn(Node) -> bool {
    |n: Node| n.pattern == p
}

/// The deepest alias chain that sort resolution follows.
pub const MAX_SORT_DEPTH: u8 = 16;

/// The sort of type `t`, resolving `Define` aliases at most
/// `MAX_SORT_DEPTH` times beyond `depth`.
pub open spec fn sort_of(nodes: Seq<Node>, t: Seq<char>, depth: int) -> Z3Sort
    decreases 17 - depth,
{
    if depth > 16 {
        Z3Sort::Uninterpreted
    } else if primitive_sort(t) is Some {
        primitive_sort(t)->0
    } else if builtin_named(t) is Some {
        builtin_sort(builtin_named(t)->0)
    } else {
        let k = first_index(nodes, t, any_node());
        if k >= 0 && nodes[k].pattern == Pattern::Define && nodes[k].metadata.base_type is Some {
            sort_of(nodes, nodes[k].metadata.base_type->0@, depth + 1)
        } else {
            Z3Sort::Uninterpreted
        }
    }
}

/// The built-in type that alias `t` stands for through a chain of `Define`
/// nodes (the first `Define` of each name), followed at most 8 links deep.
pub open spec fn define_builtin(nodes: Seq<Node>, t: Seq<char>, depth: int) -> Option<
    BuiltinSemanticType,
>
    decreases 8 - depth,
{
    if depth >= 8 {
        None
    } else {
        let k = first_index(nodes, t, of_pattern(Pattern::Define));
        if k < 0 || nodes[k].metadata.base_type is None {
            None
        } else {
            let base = nodes[k].metadata.base_type->0@;
            if builtin_named(base) is Some {
                builtin_named(base)
            } else {
                define_builtin(nodes, base, depth + 1)
            }
        }
    }
}

/// The type constraints that the parameters `ps` carry: a numeric built-in
/// type, or an alias that resolves to any built-in type.
pub open spec fn param_constraints(nodes: Seq<Node>, ps: Seq<Param>) -> Seq<
    (Seq<char>, BuiltinSemanticType),
>
    decreases ps.len(),
{
    if ps.len() == 0 {
        seq![]
    } else {
        let rest = param_constraints(nodes, ps.drop_last());
        let p = ps.last();
        match builtin_named(p.type_ref@) {
            Some(b) => if is_numeric(b) {
                rest.push((p.name@, b))
            } else {
                rest
            },
            None => match define_builtin(nodes, p.type_ref@, 0) {
                Some(b) => rest.push((p.name@, b)),
                None => rest,
            },
        }
    }
}

/// The variable sort of a scalar solver sort.
pub open spec fn var_sort(s: Z3Sort) -> VarSort {
    match s {
        Z3Sort::Int => VarSort::Int,
        Z3Sort::Real => VarSort::Real,
        _ => VarSort::Bool,
    }
}

/// `name` registered as a current-state variable and, when `with_old`, as a
/// pre-state variable too.
pub open spec fn register(c: Ctx, name: Seq<char>, s: VarSort, with_old: bool) -> Ctx {
    (
        table_insert(c.0, name, s),
        if with_old {
            table_insert(c.1, old_key_of(name), s)
        } else {
            c.1
        },
    )
}

/// The registrations for the fields of record `record_name` under `prefix`:
/// scalar fields as `prefix.field` (current and pre-state), record fields
/// expanded in turn. `fuel` bounds the nesting.
pub open spec fn expand_record(c: Ctx, nodes: Seq<Node>, prefix: Seq<char>, record_name: Seq<char>, fuel: nat) -> Ctx
    decreases fuel, 0nat,
{
    let k = first_index(nodes, record_name, of_pattern(Pattern::Describe));
    if k < 0 || fuel == 0 {
        c
    } else {
        expand_fields(c, nodes, prefix, nodes[k].metadata.fields@, (fuel - 1) as nat)
    }
}

/// The registrations for the fields `fs` under `prefix`, in order.
pub open spec fn expand_fields(c: Ctx, nodes: Seq<Node>, prefix: Seq<char>, fs: Seq<Field>, fuel: nat) -> Ctx
    decreases fuel, 1nat, fs.len(),
{
    if fs.len() == 0 {
        c
    } else {
        let c1 = expand_fields(c, nodes, prefix, fs.drop_last(), fuel);
        let f = fs.last();
        let path = prefix + "."@ + f.name@;
        let s = sort_of(nodes, f.type_ref@, 0);
        if s == Z3Sort::Uninterpreted {
            expand_record(c1, nodes, path, f.type_ref@, fuel)
        } else {
            register(c1, path, var_sort(s), true)
        }
    }
}

/// The registrations of one name of type `t`: a scalar directly, a record
/// by its fields.
pub open spec fn register_typed(c: Ctx, nodes: Seq<Node>, name: Seq<char>, t: Seq<char>, with_old: bool) -> Ctx {
    let s = sort_of(nodes, t, 0);
    if s == Z3Sort::Uninterpreted {
        expand_record(c, nodes, name, t, nodes.len())
    } else {
        register(c, name, var_sort(s), with_old)
    }
}

/// The registrations of the parameters `ps`, in order.
pub open spec fn register_params(c: Ctx, nodes: Seq<Node>, ps: Seq<Param>) -> Ctx
    decreases ps.len(),
{
    if ps.len() == 0 {
        c
    } else {
        let c1 = register_params(c, nodes, ps.drop_last());
        register_typed(c1, nodes, ps.last().name@, ps.last().type_ref@, true)
    }
}

/// `c` with the variables of node `n`: its parameters, then `result` for
/// its return type (current state only; a record result is expanded with
/// pre-state fields too).
pub open spec fn node_context(c: Ctx, nodes: Seq<Node>, n: Node) -> Ctx {
    let c1 = register_params(c, nodes, n.metadata.params@);
    match n.metadata.return_type {
        Some(t) => register_typed(c1, nodes, "result"@, t@, false),
        None => c1,
    }
}

/// The assertions a built-in type puts on a variable of sort `s`.
pub open spec fn type_terms(b: BuiltinSemanticType, v: VarRef, s: VarSort) -> Result<
    Seq<BoolTermView>,
    EncodeErrorView,
> {
    match b {
        BuiltinSemanticType::PositiveInteger => if s == VarSort::Int {
            Ok(seq![BoolTermView::IntCmp(CmpOp::Gt, IntTerm::Var(v), IntTerm::Const(0))])
        } else {
            Err(mismatch("Int"@, "non-Int"@))
        },
        BuiltinSemanticType::NonNegativeInteger => if s == VarSort::Int {
            Ok(seq![BoolTermView::IntCmp(CmpOp::Ge, IntTerm::Var(v), IntTerm::Const(0))])
        } else {
            Err(mismatch("Int"@, "non-Int"@))
        },
        BuiltinSemanticType::PositiveAmount => match real_of_var(v, s) {
            Ok(r) => Ok(seq![BoolTermView::RealCmp(CmpOp::Gt, r, RealTerm::Rational(0, 1))]),
            Err(e) => Err(e),
        },
        BuiltinSemanticType::Percentage => match real_of_var(v, s) {
            Ok(r) => Ok(
                seq![
                    BoolTermView::RealCmp(CmpOp::Ge, r, RealTerm::Rational(0, 1)),
                    BoolTermView::RealCmp(CmpOp::Le, r, RealTerm::Rational(100, 1)),
                ],
            ),
            Err(e) => Err(e),
        },
        _ => Err(unsupported("type-text"@)),
    }
}

impl BuiltinSemanticType {
    /// The built-in semantic type spelled `name` (its variant's name).
    pub fn from_name(name: &str) -> (r: Option<BuiltinSemanticType>)
        ensures
            r == builtin_named(name@),
    {
        if text_equal(name, "PositiveInteger") {
            Some(BuiltinSemanticType::PositiveInteger)
        } else if text_equal(name, "NonNegativeInteger") {
            Some(BuiltinSemanticType::NonNegativeInteger)
        } else if text_equal(name, "PositiveAmount") {
            Some(BuiltinSemanticType::PositiveAmount)
        } else if text_equal(name, "Percentage") {
            Some(BuiltinSemanticType::Percentage)
        } else if text_equal(name, "NonEmptyText") {
            Some(BuiltinSemanticType::NonEmptyText)
        } else if text_equal(name, "EmailAddress") {
            Some(BuiltinSemanticType::EmailAddress)
        } else if text_equal(name, "Identifier") {
            Some(BuiltinSemanticType::Identifier)
        } else {
            None
        }
    }
}

fn primitive_sort_of(t: &str) -> (r: Option<Z3Sort>)
    ensures
        r == primitive_sort(t@),
{
    if text_equal(t, "integer") || text_equal(t, "Integer") {
        Some(Z3Sort::Int)
    } else if text_equal(t, "number") || text_equal(t, "Number") {
        Some(Z3Sort::Real)
    } else if text_equal(t, "text") || text_equal(t, "Text") || text_equal(t, "string")
        || text_equal(t, "String") {
        Some(Z3Sort::Uninterpreted)
    } else if text_equal(t, "bool") || text_equal(t, "Bool") || text_equal(t, "boolean")
        || text_equal(t, "Boolean") {
        Some(Z3Sort::Bool)
    } else {
        None
    }
}

fn sort_of_builtin(b: BuiltinSemanticType) -> (s: Z3Sort)
    ensures
        s == builtin_sort(b),
{
    match b {
        BuiltinSemanticType::PositiveInteger | BuiltinSemanticType::NonNegativeInteger => Z3Sort::Int,
        BuiltinSemanticType::PositiveAmount | BuiltinSemanticType::Percentage => Z3Sort::Real,
        _ => Z3Sort::Uninterpreted,
    }
}

proof fn lemma_first_index(nodes: Seq<Node>, n: Seq<char>, keep: spec_fn(Node) -> bool)
    ensures
        -1 <= first_index(nodes, n, keep) < nodes.len(),
        first_index(nodes, n, keep) >= 0 ==> has_name(nodes[first_index(nodes, n, keep)], n)
            && keep(nodes[first_index(nodes, n, keep)]),
    decreases nodes.len(),
{
    if nodes.len() > 0 {
        lemma_first_index(nodes.drop_last(), n, keep);
    }
}

/// Index of the first node named `name` that `keep` admits.
fn find_first(nodes: &Vec<Node>, name: &str, pattern: Option<Pattern>) -> (r: Option<usize>)
    ensures
        r matches Some(k) ==> k == first_index(
            nodes@,
            name@,
            match pattern {
                Some(p) => of_pattern(p),
                None => any_node(),
            },
        ),
        r is None ==> first_index(
            nodes@,
            name@,
            match pattern {
                Some(p) => of_pattern(p),
                None => any_node(),
            },
        ) == -1,
{
    let ghost keep = match pattern {
        Some(p) => of_pattern(p),
        None => any_node(),
    };
    let mut i: usize = 0;
    while i < nodes.len()
        invariant
            i <= nodes@.len(),
            first_index(nodes@.take(i as int), name@, keep) == -1,
            keep == (match pattern {
                Some(p) => of_pattern(p),
                None => any_node(),
            }),
        decreases nodes.len() - i,
    {
        assert(nodes@.take(i + 1).drop_last() =~= nodes@.take(i as int));
        let node = &nodes[i];
        let admitted = match pattern {
            Some(p) => node.pattern == p,
            None => true,
        };
        let named = match &node.metadata.name {
            Some(n) => text_equal(n.as_str(), name),
            None => false,
        };
        if named && admitted {
            proof {
                lemma_first_index_at(nodes@, name@, keep, i + 1);
            }
            return Some(i);
        }
        i += 1;
    }
    assert(nodes@.take(nodes@.len() as int) =~= nodes@);
    None
}

proof fn lemma_first_index_at(nodes: Seq<Node>, n: Seq<char>, keep: spec_fn(Node) -> bool, k: int)
    requires
        0 < k <= nodes.len(),
        first_index(nodes.take(k - 1), n, keep) == -1,
        has_name(nodes[k - 1], n) && keep(nodes[k - 1]),
    ensures
        first_index(nodes, n, keep) == k - 1,
    decreases nodes.len(),
{
    if k < nodes.len() {
        assert(nodes.drop_last().take(k - 1) =~= nodes.take(k - 1));
        lemma_first_index_at(nodes.drop_last(), n, keep, k);
    } else {
        assert(nodes.take(k).drop_last() =~= nodes.take(k - 1));
        assert(nodes.take(k) =~= nodes);
    }
}

fn sort_for_type_ref_at(type_ref: &str, graph: &AilGraph, depth: u8) -> (s: Z3Sort)
    requires
        depth <= 17,
    ensures
        s == sort_of(graph@, type_ref@, depth as int),
    decreases 17 - depth,
{
    if depth > MAX_SORT_DEPTH {
        return Z3Sort::Uninterpreted;
    }
    if let Some(s) = primitive_sort_of(type_ref) {
        return s;
    }
    if let Some(b) = BuiltinSemanticType::from_name(type_ref) {
        return sort_of_builtin(b);
    }
    let nodes = graph.all_nodes();
    match find_first(nodes, type_ref, None) {
        Some(k) => {
            proof {
                lemma_first_index(graph@, type_ref@, any_node());
            }
            let node = &nodes[k];
            if node.pattern == Pattern::Define {
                match &node.metadata.base_type {
                    Some(base) => sort_for_type_ref_at(base.as_str(), graph, depth + 1),
                    None => Z3Sort::Uninterpreted,
                }
            } else {
                Z3Sort::Uninterpreted
            }
        },
        None => Z3Sort::Uninterpreted,
    }
}

/// The solver sort of a type reference. Unknown names and records are
/// `Uninterpreted`, never `Int`.
pub fn sort_for_type_ref(type_ref: &str, graph: &AilGraph) -> (s: Z3Sort)
    ensures
        s == sort_of(graph@, type_ref@, 0),
{
    sort_for_type_ref_at(type_ref, graph, 0)
}

fn define_to_builtin(type_ref: &str, graph: &AilGraph, depth: u8) -> (r: Option<BuiltinSemanticType>)
    requires
        depth <= 8,
    ensures
        r == define_builtin(graph@, type_ref@, depth as int),
    decreases 8 - depth,
{
    if depth >= 8 {
        return None;
    }
    let nodes = graph.all_nodes();
    match find_first(nodes, type_ref, Some(Pattern::Define)) {
        None => None,
        Some(k) => {
            proof {
                lemma_first_index(graph@, type_ref@, of_pattern(Pattern::Define));
            }
            match &nodes[k].metadata.base_type {
                None => None,
                Some(base) => match BuiltinSemanticType::from_name(base.as_str()) {
                    Some(b) => Some(b),
                    None => define_to_builtin(base.as_str(), graph, depth + 1),
                },
            }
        },
    }
}

/// The built-in type that the alias `type_ref` resolves to through `Define`
/// nodes, if any.
pub fn resolve_define_to_builtin(type_ref: &str, graph: &AilGraph) -> (r: Option<BuiltinSemanticType>)
    ensures
        r == define_builtin(graph@, type_ref@, 0),
{
    define_to_builtin(type_ref, graph, 0)
}

/// The first `Describe` node named `record_name`, if any.
pub fn find_describe_node<'a>(graph: &'a AilGraph, record_name: &str) -> (r: Option<&'a Node>)
    ensures
        r matches Some(n) ==> first_index(graph@, record_name@, of_pattern(Pattern::Describe)) >= 0
            && *n == graph@[first_index(graph@, record_name@, of_pattern(Pattern::Describe))],
        r is None ==> first_index(graph@, record_name@, of_pattern(Pattern::Describe)) == -1,
{
    let nodes = graph.all_nodes();
    match find_first(nodes, record_name, Some(Pattern::Describe)) {
        Some(k) => {
            proof {
                lemma_first_index(graph@, record_name@, of_pattern(Pattern::Describe));
            }
            Some(&nodes[k])
        },
        None => None,
    }
}

/// The `(parameter, built-in type)` pairs whose type constraints hold for
/// the parameters of `node`, in parameter order.
pub fn collect_param_type_constraints(node: &Node, graph: &AilGraph) -> (r: Vec<
    (String, BuiltinSemanticType),
>)
    ensures
        r@.map_values(|e: (String, BuiltinSemanticType)| (e.0@, e.1)) == param_constraints(
            graph@,
            node.metadata.params@,
        ),
{
    let params = &node.metadata.params;
    let mut out: Vec<(String, BuiltinSemanticType)> = Vec::new();
    let mut i: usize = 0;
    while i < params.len()
        invariant
            i <= params@.len(),
            params == &node.metadata.params,
            out@.map_values(|e: (String, BuiltinSemanticType)| (e.0@, e.1)) == param_constraints(
                graph@,
                params@.take(i as int),
            ),
        decreases params.len() - i,
    {
        assert(params@.take(i + 1).drop_last() =~= params@.take(i as int));
        let p = &params[i];
        let ghost before = out@;
        match BuiltinSemanticType::from_name(p.type_ref.as_str()) {
            Some(b) => {
                if sort_of_builtin(b) != Z3Sort::Uninterpreted {
                    out.push((p.name.clone(), b));
                }
            },
            None => match resolve_define_to_builtin(p.type_ref.as_str(), graph) {
                Some(b) => out.push((p.name.clone(), b)),
                None => {},
            },
        }
        assert(out@.map_values(|e: (String, BuiltinSemanticType)| (e.0@, e.1)) =~= param_constraints(
            graph@,
            params@.take(i + 1),
        ));
        i += 1;
    }
    assert(params@.take(params@.len() as int) =~= params@);
    out
}

fn register_scalar(enc: &mut EncodeContext, name: &str, s: Z3Sort, with_old: bool)
    requires
        s != Z3Sort::Uninterpreted,
    ensures
        final(enc)@ == register(old(enc)@, name@, var_sort(s), with_old),
{
    let vs = match s {
        Z3Sort::Int => VarSort::Int,
        Z3Sort::Real => VarSort::Real,
        _ => VarSort::Bool,
    };
    enc.add_var(name, vs);
    if with_old {
        enc.add_old_var(name, vs);
    }
}

fn dotted(prefix: &str, name: &str) -> (r: String)
    ensures
        r@ == prefix@ + "."@ + name@,
{
    let mut out = String::from_str(prefix);
    out.append(".");
    out.append(name);
    out
}

fn expand_record_fields(
    enc: &mut EncodeContext,
    graph: &AilGraph,
    prefix: &str,
    record_name: &str,
    fuel: usize,
)
    ensures
        final(enc)@ == expand_record(old(enc)@, graph@, prefix@, record_name@, fuel as nat),
    decreases fuel, 0nat,
{
    match find_describe_node(graph, record_name) {
        None => {},
        Some(describe) => {
            if fuel > 0 {
                expand_field_list(enc, graph, prefix, &describe.metadata.fields, fuel - 1);
            }
        },
    }
}

fn expand_field_list(
    enc: &mut EncodeContext,
    graph: &AilGraph,
    prefix: &str,
    fields: &Vec<Field>,
    fuel: usize,
)
    ensures
        final(enc)@ == expand_fields(old(enc)@, graph@, prefix@, fields@, fuel as nat),
    decreases fuel, 1nat,
{
    let ghost start = enc@;
    let mut i: usize = 0;
    assert(fields@.take(0) =~= seq![]);
    while i < fields.len()
        invariant
            i <= fields@.len(),
            enc@ == expand_fields(start, graph@, prefix@, fields@.take(i as int), fuel as nat),
        decreases fields.len() - i,
    {
        assert(fields@.take(i + 1).drop_last() =~= fields@.take(i as int));
        let f = &fields[i];
        let path = dotted(prefix, f.name.as_str());
        let s = sort_for_type_ref(f.type_ref.as_str(), graph);
        if s == Z3Sort::Uninterpreted {
            expand_record_fields(enc, graph, path.as_str(), f.type_ref.as_str(), fuel);
        } else {
            register_scalar(enc, path.as_str(), s, true);
        }
        i += 1;
    }
    assert(fields@.take(fields@.len() as int) =~= fields@);
}

fn register_name(enc: &mut EncodeContext, graph: &AilGraph, name: &str, t: &str, with_old: bool)
    ensures
        final(enc)@ == register_typed(old(enc)@, graph@, name@, t@, with_old),
{
    let s = sort_for_type_ref(t, graph);
    if s == Z3Sort::Uninterpreted {
        expand_record_fields(enc, graph, name, t, graph.node_count());
    } else {
        register_scalar(enc, name, s, with_old);
    }
}

/// Register the variables of `node` in `enc`: every parameter whose type is
/// scalar as a current-state and a pre-state variable, record parameters by
/// their scalar fields (`param.field`, nested records in turn), then
/// `result` for a scalar return type (current state only) or `result.field`
/// for a record return type. Text and unknown types register nothing.
///
/// Record nesting is followed at most as deep as the graph has nodes; only a
/// record that contains itself nests deeper.
pub fn populate_encode_context(enc: &mut EncodeContext, node: &Node, graph: &AilGraph)
    ensures
        final(enc)@ == node_context(old(enc)@, graph@, *node),
{
    let ghost start = enc@;
    let params = &node.metadata.params;
    let mut i: usize = 0;
    assert(params@.take(0) =~= seq![]);
    while i < params.len()
        invariant
            i <= params@.len(),
            params == &node.metadata.params,
            enc@ == register_params(start, graph@, params@.take(i as int)),
        decreases params.len() - i,
    {
        assert(params@.take(i + 1).drop_last() =~= params@.take(i as int));
        register_name(enc, graph, params[i].name.as_str(), params[i].type_ref.as_str(), true);
        i += 1;
    }
    assert(params@.take(params@.len() as int) =~= params@);
    match &node.metadata.return_type {
        Some(t) => register_name(enc, graph, "result", t.as_str(), false),
        None => {},
    }
}

/// A fresh encoding context holding the variables of `node` (see
/// `populate_encode_context`).
pub fn build_encode_context(node: &Node, graph: &AilGraph) -> (enc: EncodeContext)
    ensures
        enc@ == node_context((Seq::empty(), Seq::empty()), graph@, *node),
{
    let mut enc = EncodeContext::new();
    populate_encode_context(&mut enc, node, graph);
    enc
}

/// The assertions that built-in type `builtin` puts on the variable `v` of
/// sort `sort`: `> 0` or `>= 0` on integers for the integer types, `> 0` or
/// `0 <= v <= 100` on reals (integers promoted) for amounts and
/// percentages. Text types cannot be encoded.
pub fn encode_type_constraint(builtin: BuiltinSemanticType, v: VarRef, sort: VarSort) -> (r: Result<
    Vec<BoolTerm>,
    EncodeError,
>)
    ensures
        bools_result(r) == type_terms(builtin, v, sort),
{
    match builtin {
        BuiltinSemanticType::PositiveInteger | BuiltinSemanticType::NonNegativeInteger => {
            if sort != VarSort::Int {
                return Err(EncodeError::SortMismatch { expected: "Int", found: "non-Int" });
            }
            let op = if builtin == BuiltinSemanticType::PositiveInteger {
                CmpOp::Gt
            } else {
                CmpOp::Ge
            };
            let t = BoolTerm::IntCmp(op, Box::new(IntTerm::Var(v)), Box::new(IntTerm::Const(0)));
            let mut out: Vec<BoolTerm> = Vec::new();
            proof {
                lemma_bool_views_push(out@, t);
            }
            out.push(t);
            assert(bool_views(out@) =~= seq![t@]);
            Ok(out)
        },
        BuiltinSemanticType::PositiveAmount | BuiltinSemanticType::Percentage => {
            let r = if sort == VarSort::Real {
                RealTerm::Var(v)
            } else if sort == VarSort::Int {
                RealTerm::FromInt(Box::new(IntTerm::Var(v)))
            } else {
                return Err(EncodeError::SortMismatch { expected: "Real", found: "Bool" });
            };
            let mut out: Vec<BoolTerm> = Vec::new();
            if builtin == BuiltinSemanticType::PositiveAmount {
                let t = BoolTerm::RealCmp(CmpOp::Gt, Box::new(r), Box::new(RealTerm::Rational(0, 1)));
                proof {
                    lemma_bool_views_push(out@, t);
                }
                out.push(t);
                assert(bool_views(out@) =~= seq![t@]);
            } else {
                let r2 = r.duplicate();
                let lo = BoolTerm::RealCmp(CmpOp::Ge, Box::new(r), Box::new(RealTerm::Rational(0, 1)));
                let hi = BoolTerm::RealCmp(CmpOp::Le, Box::new(r2), Box::new(RealTerm::Rational(100, 1)));
                proof {
                    lemma_bool_views_push(out@, lo);
                }
                out.push(lo);
                proof {
                    lemma_bool_views_push(out@, hi);
                }
                out.push(hi);
                assert(bool_views(out@) =~= seq![lo@, hi@]);
            }
            Ok(out)
        },
        _ => Err(EncodeError::UnsupportedConstraint { variant: "type-text" }),
    }
}

// ─── laws of sort resolution ────────────────────────────────────────────────

/// Each name of `names` is an alias: neither primitive nor built-in, its
/// first node is a `Define` with a base type, and that base is again in
/// `names`. A cycle of `Define` nodes is such a set.
pub open spec fn alias_loop(nodes: Seq<Node>, names: Set<Seq<char>>) -> bool {
    forall|t: Seq<char>|
        #![trigger names.contains(t)]
        names.contains(t) ==> {
            let k = first_index(nodes, t, any_node());
            &&& primitive_sort(t) is None
            &&& builtin_named(t) is None
            &&& k >= 0
            &&& nodes[k].pattern == Pattern::Define
            &&& nodes[k].metadata.base_type is Some
            &&& names.contains(nodes[k].metadata.base_type->0@)
        }
}

/// Sort resolution always ends, and aliases that never reach a primitive
/// or built-in type, a cycle of `Define` nodes among them, resolve to
/// `Uninterpreted` once `MAX_SORT_DEPTH` links have been followed.
pub proof fn lemma_alias_loop_uninterpreted(nodes: Seq<Node>, names: Set<Seq<char>>, t: Seq<char>, depth: int)
    requires
        alias_loop(nodes, names),
        names.contains(t),
    ensures
        sort_of(nodes, t, depth) == Z3Sort::Uninterpreted,
    decreases 17 - depth,
{
    if depth <= 16 {
        let k = first_index(nodes, t, any_node());
        lemma_alias_loop_uninterpreted(nodes, names, nodes[k].metadata.base_type->0@, depth + 1);
    }
}

/// A `Define` alias resolves to the sort of its base type, one link
/// deeper.
pub proof fn lemma_define_resolves_to_base(nodes: Seq<Node>, t: Seq<char>, depth: int)
    requires
        depth <= 16,
        primitive_sort(t) is None,
        builtin_named(t) is None,
        first_index(nodes, t, any_node()) >= 0,
        nodes[first_index(nodes, t, any_node())].pattern == Pattern::Define,
        nodes[first_index(nodes, t, any_node())].metadata.base_type is Some,
    ensures
        sort_of(nodes, t, depth) == sort_of(
            nodes,
            nodes[first_index(nodes, t, any_node())].metadata.base_type->0@,
            depth + 1,
        ),
{
}

// ─── laws of type assertions ────────────────────────────────────────────────

/// What each built-in type asserts of a variable `v` of sort `s`, atom by
/// atom, so that every model of the assertions satisfies the type:
/// `PositiveInteger` is `v > 0` and `NonNegativeInteger` `v >= 0` over an
/// integer; `PositiveAmount` is `v > 0` and `Percentage` `0 <= v <= 100`
/// over a real, an integer variable being taken as a real; the other types
/// and the other sorts assert nothing and are refused.
pub proof fn lemma_type_assertions_force_the_type(v: VarRef, s: VarSort)
    ensures
        type_terms(BuiltinSemanticType::PositiveInteger, v, s) is Ok <==> s == VarSort::Int,
        type_terms(BuiltinSemanticType::NonNegativeInteger, v, s) is Ok <==> s == VarSort::Int,
        type_terms(BuiltinSemanticType::PositiveAmount, v, s) is Ok <==> s != VarSort::Bool,
        type_terms(BuiltinSemanticType::Percentage, v, s) is Ok <==> s != VarSort::Bool,
        s == VarSort::Int ==> type_terms(BuiltinSemanticType::PositiveInteger, v, s)->Ok_0.len() == 1
            && type_terms(BuiltinSemanticType::PositiveInteger, v, s)->Ok_0.contains(
            BoolTermView::IntCmp(CmpOp::Gt, IntTerm::Var(v), IntTerm::Const(0)),
        ),
        s == VarSort::Int ==> type_terms(BuiltinSemanticType::NonNegativeInteger, v, s)->Ok_0.len() == 1
            && type_terms(BuiltinSemanticType::NonNegativeInteger, v, s)->Ok_0.contains(
            BoolTermView::IntCmp(CmpOp::Ge, IntTerm::Var(v), IntTerm::Const(0)),
        ),
        s == VarSort::Real ==> type_terms(BuiltinSemanticType::PositiveAmount, v, s)->Ok_0.len() == 1
            && type_terms(BuiltinSemanticType::PositiveAmount, v, s)->Ok_0.contains(
            BoolTermView::RealCmp(CmpOp::Gt, RealTerm::Var(v), RealTerm::Rational(0, 1)),
        ),
        s == VarSort::Int ==> type_terms(BuiltinSemanticType::PositiveAmount, v, s)->Ok_0.len() == 1
            && type_terms(BuiltinSemanticType::PositiveAmount, v, s)->Ok_0.contains(
            BoolTermView::RealCmp(
                CmpOp::Gt,
                RealTerm::FromInt(Box::new(IntTerm::Var(v))),
                RealTerm::Rational(0, 1),
            ),
        ),
        s == VarSort::Real ==> type_terms(BuiltinSemanticType::Percentage, v, s)->Ok_0.len() == 2
            && type_terms(BuiltinSemanticType::Percentage, v, s)->Ok_0.contains(
            BoolTermView::RealCmp(CmpOp::Ge, RealTerm::Var(v), RealTerm::Rational(0, 1)),
        ) && type_terms(BuiltinSemanticType::Percentage, v, s)->Ok_0.contains(
            BoolTermView::RealCmp(CmpOp::Le, RealTerm::Var(v), RealTerm::Rational(100, 1)),
        ),
        s == VarSort::Int ==> type_terms(BuiltinSemanticType::Percentage, v, s)->Ok_0.len() == 2
            && type_terms(BuiltinSemanticType::Percentage, v, s)->Ok_0.contains(
            BoolTermView::RealCmp(
                CmpOp::Ge,
                RealTerm::FromInt(Box::new(IntTerm::Var(v))),
                RealTerm::Rational(0, 1),
            ),
        ) && type_terms(BuiltinSemanticType::Percentage, v, s)->Ok_0.contains(
            BoolTermView::RealCmp(
                CmpOp::Le,
                RealTerm::FromInt(Box::new(IntTerm::Var(v))),
                RealTerm::Rational(100, 1),
            ),
        ),
{
    let pa = type_terms(BuiltinSemanticType::PositiveAmount, v, s);
    let pc = type_terms(BuiltinSemanticType::Percentage, v, s);
    let pi = type_terms(BuiltinSemanticType::PositiveInteger, v, s);
    let nn = type_terms(BuiltinSemanticType::NonNegativeInteger, v, s);
    let zero = RealTerm::Rational(0, 1);
    let hundred = RealTerm::Rational(100, 1);
    if s == VarSort::Int {
        assert(pi->Ok_0[0] == BoolTermView::IntCmp(CmpOp::Gt, IntTerm::Var(v), IntTerm::Const(0)));
        assert(nn->Ok_0[0] == BoolTermView::IntCmp(CmpOp::Ge, IntTerm::Var(v), IntTerm::Const(0)));
        let r = RealTerm::FromInt(Box::new(IntTerm::Var(v)));
        assert(real_of_var(v, s) == Ok::<RealTerm, EncodeErrorView>(r));
        assert(pa->Ok_0[0] == BoolTermView::RealCmp(CmpOp::Gt, r, zero));
        assert(pc->Ok_0[0] == BoolTermView::RealCmp(CmpOp::Ge, r, zero));
        assert(pc->Ok_0[1] == BoolTermView::RealCmp(CmpOp::Le, r, hundred));
    } else if s == VarSort::Real {
        let r = RealTerm::Var(v);
        assert(real_of_var(v, s) == Ok::<RealTerm, EncodeErrorView>(r));
        assert(pa->Ok_0[0] == BoolTermView::RealCmp(CmpOp::Gt, r, zero));
        assert(pc->Ok_0[0] == BoolTermView::RealCmp(CmpOp::Ge, r, zero));
        assert(pc->Ok_0[1] == BoolTermView::RealCmp(CmpOp::Le, r, hundred));
    }
}

/// Every assertion of a parameter's built-in type is among the node's type
/// assertions: when `(name, b)` is a type constraint of `pcs` and `name` is
/// registered in `c` as `v` at sort `s`, each atom of `type_terms(b, v, s)`
/// is asserted.
pub proof fn lemma_type_assertions_include(
    c: Ctx,
    pcs: Seq<(Seq<char>, BuiltinSemanticType)>,
    k: int,
    t: BoolTermView,
)
    requires
        0 <= k < pcs.len(),
        lookup_var(c, seq![pcs[k].0]) is Some,
        ({
            let e = lookup_var(c, seq![pcs[k].0])->0;
            type_terms(pcs[k].1, e.0, e.1) matches Ok(ts) && ts.contains(t)
        }),
    ensures
        crate::plan::type_assertions(c, pcs).contains(t),
    decreases pcs.len(),
{
    let d = pcs.drop_last();
    let rest = crate::plan::type_assertions(c, d);
    if k < pcs.len() - 1 {
        assert(d[k] == pcs[k]);
        lemma_type_assertions_include(c, d, k, t);
        let j = choose|j: int| 0 <= j < rest.len() && rest[j] == t;
        match lookup_var(c, seq![pcs.last().0]) {
            None => {},
            Some((v, s)) => match type_terms(pcs.last().1, v, s) {
                Ok(ts) => {
                    assert((rest + ts)[j] == t);
                },
                Err(_) => {},
            },
        }
    } else {
        let e = lookup_var(c, seq![pcs[k].0])->0;
        let ts = type_terms(pcs[k].1, e.0, e.1)->Ok_0;
        let j = choose|j: int| 0 <= j < ts.len() && ts[j] == t;
        assert((rest + ts)[rest.len() + j] == t);
    }
}

} // verus!
