//! Verification of the contracts of `Do` nodes, as decisions over solver
//! answers.
//!
//! For one `Do` node the library builds a [`NodePlan`]: the solver terms of
//! its type constraints, of the facts it may assume (verified child
//! postconditions and its own preconditions), of the facts promoted to it
//! by preceding `check` nodes, and of each postcondition. A run then asks
//! for a sequence of satisfiability checks ([`QueryKind`]); [`node_step`]
//! says, from the answers received so far, which check comes next or which
//! errors the node has. Over a whole graph, [`VerificationRun`] visits the
//! `Do` nodes deepest first and passes verified postconditions up to their
//! parents.

use vstd::prelude::*;

use crate::encode::{
    bool_views, enc_constraint, lemma_bool_views_push, BoolTerm, BoolTermView, Ctx,
    EncodeContext, EncodeError, EncodeErrorView, VarSort, duplicate_terms, encode_constraint,
    bool_result, lookup_var,
};
use crate::expr::{constraint_views, ConstraintExpr, ConstraintView, lemma_constraint_views_take};
use crate::model::{
    children_in, depth_at, index_of, parents_first, AilGraph, Contract, ContractKind, Node, NodeId, Pattern,
    PromotedFact,
};
use crate::sorts::{
    build_encode_context, collect_param_type_constraints, encode_type_constraint, node_context,
    param_constraints, type_terms, BuiltinSemanticType,
};
use crate::text::{lemma_text_lt_total, lemma_text_lt_trans, text_less, text_lt, views};

verus! {

// ─── errors and answers ─────────────────────────────────────────────────────

/// Why a `Do` node's contracts did not verify.
#[derive(Debug)]
pub enum VerifyError {
    /// The constraints implied by the parameter types are unsatisfiable.
    UnsatTypeConstraints { node_id: NodeId },
    /// The preconditions cannot all hold at once.
    ContradictoryPreconditions { node_id: NodeId, counterexample: String },
    /// A postcondition does not follow from what the node may assume.
    PostconditionNotEntailed { node_id: NodeId, contract_expr: String, counterexample: String },
    /// The solver gave no answer in time.
    SolverTimeout { node_id: NodeId, contract_expr: String },
    /// A contract could not be encoded.
    EncodingFailed { node_id: NodeId, inner: EncodeError },
    /// Facts promoted by `check` nodes contradict the node's preconditions.
    PromotedFactContradiction {
        node_id: NodeId,
        source_check_ids: Vec<NodeId>,
        counterexample: String,
    },
}

/// The content of a `VerifyError`.
pub enum VerifyErrorView {
    UnsatTypeConstraints { node_id: NodeId },
    ContradictoryPreconditions { node_id: NodeId, counterexample: Seq<char> },
    PostconditionNotEntailed { node_id: NodeId, contract_expr: Seq<char>, counterexample: Seq<char> },
    SolverTimeout { node_id: NodeId, contract_expr: Seq<char> },
    EncodingFailed { node_id: NodeId, inner: EncodeErrorView },
    PromotedFactContradiction {
        node_id: NodeId,
        source_check_ids: Seq<NodeId>,
        counterexample: Seq<char>,
    },
}

impl View for VerifyError {
    type V = VerifyErrorView;

    open spec fn view(&self) -> VerifyErrorView {
        match self {
            VerifyError::UnsatTypeConstraints { node_id } =>
                VerifyErrorView::UnsatTypeConstraints { node_id: *node_id },
            VerifyError::ContradictoryPreconditions { node_id, counterexample } =>
                VerifyErrorView::ContradictoryPreconditions {
                node_id: *node_id,
                counterexample: counterexample@,
            },
            VerifyError::PostconditionNotEntailed { node_id, contract_expr, counterexample } =>
                VerifyErrorView::PostconditionNotEntailed {
                node_id: *node_id,
                contract_expr: contract_expr@,
                counterexample: counterexample@,
            },
            VerifyError::SolverTimeout { node_id, contract_expr } =>
                VerifyErrorView::SolverTimeout { node_id: *node_id, contract_expr: contract_expr@ },
            VerifyError::EncodingFailed { node_id, inner } =>
                VerifyErrorView::EncodingFailed { node_id: *node_id, inner: inner@ },
            VerifyError::PromotedFactContradiction { node_id, source_check_ids, counterexample } =>
                VerifyErrorView::PromotedFactContradiction {
                node_id: *node_id,
                source_check_ids: source_check_ids@,
                counterexample: counterexample@,
            },
        }
    }
}

/// The views of a sequence of errors.
pub open spec fn verify_error_views(s: Seq<VerifyError>) -> Seq<VerifyErrorView> {
    s.map_values(|e: VerifyError| e@)
}

impl EncodeError {
    /// A copy of the error.
    pub fn duplicate(&self) -> (r: EncodeError)
        ensures
            r@ == self@,
    {
        match self {
            EncodeError::UnsupportedConstraint { variant } =>
                EncodeError::UnsupportedConstraint { variant: *variant },
            EncodeError::UnboundVariable { name } => EncodeError::UnboundVariable {
                name: name.clone(),
            },
            EncodeError::SortMismatch { expected, found } => EncodeError::SortMismatch {
                expected: *expected,
                found: *found,
            },
        }
    }
}

impl VerifyError {
    /// A copy of the error.
    pub fn duplicate(&self) -> (r: VerifyError)
        ensures
            r@ == self@,
    {
        match self {
            VerifyError::UnsatTypeConstraints { node_id } =>
                VerifyError::UnsatTypeConstraints { node_id: *node_id },
            VerifyError::ContradictoryPreconditions { node_id, counterexample } =>
                VerifyError::ContradictoryPreconditions {
                node_id: *node_id,
                counterexample: counterexample.clone(),
            },
            VerifyError::PostconditionNotEntailed { node_id, contract_expr, counterexample } =>
                VerifyError::PostconditionNotEntailed {
                node_id: *node_id,
                contract_expr: contract_expr.clone(),
                counterexample: counterexample.clone(),
            },
            VerifyError::SolverTimeout { node_id, contract_expr } => VerifyError::SolverTimeout {
                node_id: *node_id,
                contract_expr: contract_expr.clone(),
            },
            VerifyError::EncodingFailed { node_id, inner } => VerifyError::EncodingFailed {
                node_id: *node_id,
                inner: inner.duplicate(),
            },
            VerifyError::PromotedFactContradiction { node_id, source_check_ids, counterexample } =>
                VerifyError::PromotedFactContradiction {
                node_id: *node_id,
                source_check_ids: copy_ids(source_check_ids),
                counterexample: counterexample.clone(),
            },
        }
    }

    /// Whether the error ends the node's checks early (all but
    /// `EncodingFailed`, after which the remaining contracts are still checked).
    pub fn is_node_fatal(&self) -> (b: bool)
        ensures
            b == !(self@ is EncodingFailed),
    {
        match self {
            VerifyError::EncodingFailed { .. } => false,
            _ => true,
        }
    }
}

fn copy_ids(v: &Vec<NodeId>) -> (r: Vec<NodeId>)
    ensures
        r@ == v@,
{
    let mut out: Vec<NodeId> = Vec::new();
    let mut i: usize = 0;
    while i < v.len()
        invariant
            i <= v@.len(),
            out@ == v@.take(i as int),
        decreases v.len() - i,
    {
        out.push(v[i]);
        assert(out@ =~= v@.take(i + 1));
        i += 1;
    }
    assert(v@.take(v@.len() as int) =~= v@);
    out
}

/// A solver's answer to one satisfiability check. A satisfiable answer
/// carries the model, when the solver gave one, as `(variable, value)`
/// pairs for the registered variables that it interprets.
#[derive(Debug)]
pub enum SolverAnswer {
    Sat(Option<Vec<(String, String)>>),
    Unsat,
    Unknown,
}

/// A model as `(variable, value)` texts.
pub type ModelView = Seq<(Seq<char>, Seq<char>)>;

/// The texts of model pairs.
pub open spec fn pair_views(s: Seq<(String, String)>) -> ModelView {
    s.map_values(|p: (String, String)| (p.0@, p.1@))
}

/// The content of a `SolverAnswer`.
pub enum AnswerView {
    Sat(Option<ModelView>),
    Unsat,
    Unknown,
}

impl View for SolverAnswer {
    type V = AnswerView;

    open spec fn view(&self) -> AnswerView {
        match self {
            SolverAnswer::Sat(m) => AnswerView::Sat(
                match m {
                    Some(v) => Some(pair_views(v@)),
                    None => None,
                },
            ),
            SolverAnswer::Unsat => AnswerView::Unsat,
            SolverAnswer::Unknown => AnswerView::Unknown,
        }
    }
}

/// The views of a sequence of answers.
pub open spec fn answer_views(s: Seq<SolverAnswer>) -> Seq<AnswerView> {
    s.map_values(|a: SolverAnswer| a@)
}

// ─── counterexamples ────────────────────────────────────────────────────────

/// Index of the first pair of `s` whose name sorts after `k`, or `s.len()`.
pub open spec fn first_after(s: ModelView, k: Seq<char>) -> int
    decreases s.len(),
{
    if s.len() == 0 {
        0
    } else {
        let j = first_after(s.drop_last(), k);
        if j < s.len() - 1 {
            j
        } else if text_lt(k, s.last().0) {
            s.len() - 1
        } else {
            s.len() as int
        }
    }
}

/// `s` with `x` inserted after every pair whose name does not sort after it.
pub open spec fn insert_by_name(s: ModelView, x: (Seq<char>, Seq<char>)) -> ModelView {
    s.insert(first_after(s, x.0), x)
}

/// The pairs of `s` stably sorted by name.
pub open spec fn sort_by_name(s: ModelView) -> ModelView
    decreases s.len(),
{
    if s.len() == 0 {
        s
    } else {
        insert_by_name(sort_by_name(s.drop_last()), s.last())
    }
}

/// `name = value` for each pair, joined by `, `.
pub open spec fn join_pairs(s: ModelView) -> Seq<char>
    decreases s.len(),
{
    if s.len() == 0 {
        seq![]
    } else if s.len() == 1 {
        s[0].0 + " = "@ + s[0].1
    } else {
        join_pairs(s.drop_last()) + ", "@ + s.last().0 + " = "@ + s.last().1
    }
}

/// The counterexample text of a satisfiable answer's model: the pairs
/// sorted by name, `<empty model>` when there are none, `<no model>` when
/// the solver gave no model.
pub open spec fn counterexample_of(m: Option<ModelView>) -> Seq<char> {
    match m {
        None => "<no model>"@,
        Some(pairs) => if pairs.len() == 0 {
            "<empty model>"@
        } else {
            join_pairs(sort_by_name(pairs))
        },
    }
}

pub proof fn lemma_first_after(s: ModelView, k: Seq<char>)
    ensures
        0 <= first_after(s, k) <= s.len(),
        first_after(s, k) < s.len() ==> text_lt(k, s[first_after(s, k)].0),
        forall|j: int| 0 <= j < first_after(s, k) ==> !text_lt(k, #[trigger] s[j].0),
    decreases s.len(),
{
    if s.len() > 0 {
        lemma_first_after(s.drop_last(), k);
        assert forall|j: int| 0 <= j < first_after(s, k) implies !text_lt(k, #[trigger] s[j].0) by {
            if j < s.len() - 1 {
                assert(s.drop_last()[j] == s[j]);
            }
        }
    }
}

fn position_after(s: &Vec<(String, String)>, k: &String) -> (r: usize)
    ensures
        r == first_after(pair_views(s@), k@),
{
    let ghost ps = pair_views(s@);
    let mut i: usize = 0;
    while i < s.len()
        invariant
            i <= s@.len(),
            ps == pair_views(s@),
            first_after(ps.take(i as int), k@) == i,
        decreases s.len() - i,
    {
        assert(ps.take(i + 1).drop_last() =~= ps.take(i as int));
        if text_less(k.as_str(), s[i].0.as_str()) {
            proof {
                lemma_first_after_prefix(ps, k@, i + 1);
            }
            return i;
        }
        i += 1;
    }
    assert(ps.take(s@.len() as int) =~= ps);
    i
}

proof fn lemma_first_after_prefix(s: ModelView, k: Seq<char>, n: int)
    requires
        0 < n <= s.len(),
        first_after(s.take(n - 1), k) == n - 1,
        text_lt(k, s[n - 1].0),
    ensures
        first_after(s, k) == n - 1,
    decreases s.len(),
{
    if n < s.len() {
        assert(s.drop_last().take(n - 1) =~= s.take(n - 1));
        lemma_first_after_prefix(s.drop_last(), k, n);
    } else {
        assert(s.take(n - 1) =~= s.drop_last());
    }
}

pub(crate) fn sorted_pairs(m: &Vec<(String, String)>) -> (r: Vec<(String, String)>)
    ensures
        pair_views(r@) == sort_by_name(pair_views(m@)),
{
    let ghost ms = pair_views(m@);
    let mut out: Vec<(String, String)> = Vec::new();
    let mut i: usize = 0;
    assert(ms.take(0) =~= Seq::<(Seq<char>, Seq<char>)>::empty());
    while i < m.len()
        invariant
            i <= m@.len(),
            ms == pair_views(m@),
            pair_views(out@) == sort_by_name(ms.take(i as int)),
        decreases m.len() - i,
    {
        assert(ms.take(i + 1).drop_last() =~= ms.take(i as int));
        let j = position_after(&out, &m[i].0);
        proof {
            lemma_first_after(pair_views(out@), m@[i as int].0@);
        }
        let ghost before = out@;
        out.insert(j, (m[i].0.clone(), m[i].1.clone()));
        assert(pair_views(out@) =~= pair_views(before).insert(j as int, (m@[i as int].0@, m@[i as int].1@)));
        i += 1;
    }
    assert(ms.take(m@.len() as int) =~= ms);
    out
}

fn join_model(s: &Vec<(String, String)>) -> (r: String)
    ensures
        r@ == join_pairs(pair_views(s@)),
{
    let ghost ps = pair_views(s@);
    let mut out = String::new();
    let mut i: usize = 0;
    assert(ps.take(0) =~= Seq::<(Seq<char>, Seq<char>)>::empty());
    while i < s.len()
        invariant
            i <= s@.len(),
            ps == pair_views(s@),
            out@ == join_pairs(ps.take(i as int)),
        decreases s.len() - i,
    {
        assert(ps.take(i + 1).drop_last() =~= ps.take(i as int));
        if i > 0 {
            out.append(", ");
        }
        out.append(s[i].0.as_str());
        out.append(" = ");
        out.append(s[i].1.as_str());
        proof {
            if i == 0 {
                assert(ps.take(1).len() == 1 && ps.take(1)[0] == ps[0]);
            }
        }
        assert(out@ =~= join_pairs(ps.take(i + 1)));
        i += 1;
    }
    assert(ps.take(s@.len() as int) =~= ps);
    out
}

/// Format a model for a counterexample: `name = value` pairs sorted by
/// name and joined by `, `; `<empty model>` for no pairs, `<no model>` when
/// the solver gave none.
pub fn format_counterexample(model: &Option<Vec<(String, String)>>) -> (r: String)
    ensures
        r@ == counterexample_of(
            match model {
                Some(v) => Some(pair_views(v@)),
                None => None,
            },
        ),
{
    match model {
        None => String::from_str("<no model>"),
        Some(pairs) => {
            if pairs.len() == 0 {
                String::from_str("<empty model>")
            } else {
                let sorted = sorted_pairs(pairs);
                join_model(&sorted)
            }
        },
    }
}

// ─── the plan of one node ───────────────────────────────────────────────────

/// The encoding of a contract: its term, or the error that a parse or
/// encoding failure is reported as.
pub open spec fn contract_term(c: Ctx, k: Contract, id: NodeId) -> Result<
    BoolTermView,
    VerifyErrorView,
> {
    match k.parsed {
        Err(m) => Err(
            VerifyErrorView::EncodingFailed {
                node_id: id,
                inner: EncodeErrorView::UnboundVariable { name: "parse error: "@ + m@ },
            },
        ),
        Ok(e) => match enc_constraint(e@, c) {
            Ok(t) => Ok(t),
            Err(x) => Err(VerifyErrorView::EncodingFailed { node_id: id, inner: x }),
        },
    }
}

/// The encodings of the `Before` contracts of `cs`, in order.
pub open spec fn before_results(c: Ctx, cs: Seq<Contract>, id: NodeId) -> Seq<
    Result<BoolTermView, VerifyErrorView>,
>
    decreases cs.len(),
{
    if cs.len() == 0 {
        seq![]
    } else if cs.last().kind == ContractKind::Before {
        before_results(c, cs.drop_last(), id).push(contract_term(c, cs.last(), id))
    } else {
        before_results(c, cs.drop_last(), id)
    }
}

/// Whether a contract kind is a postcondition.
pub open spec fn is_post(k: ContractKind) -> bool {
    k == ContractKind::After || k == ContractKind::Always
}

/// The `After` and `Always` contracts of `cs` with their encodings, in order.
pub open spec fn post_results(c: Ctx, cs: Seq<Contract>, id: NodeId) -> Seq<
    (Seq<char>, Result<BoolTermView, VerifyErrorView>),
>
    decreases cs.len(),
{
    if cs.len() == 0 {
        seq![]
    } else if is_post(cs.last().kind) {
        post_results(c, cs.drop_last(), id).push(
            (cs.last().expression@, contract_term(c, cs.last(), id)),
        )
    } else {
        post_results(c, cs.drop_last(), id)
    }
}

/// The terms of the successful encodings of `rs`.
pub open spec fn oks(rs: Seq<Result<BoolTermView, VerifyErrorView>>) -> Seq<BoolTermView>
    decreases rs.len(),
{
    if rs.len() == 0 {
        seq![]
    } else {
        match rs.last() {
            Ok(t) => oks(rs.drop_last()).push(t),
            Err(_) => oks(rs.drop_last()),
        }
    }
}

/// The errors of the failed encodings of `rs`.
pub open spec fn errs(rs: Seq<Result<BoolTermView, VerifyErrorView>>) -> Seq<VerifyErrorView>
    decreases rs.len(),
{
    if rs.len() == 0 {
        seq![]
    } else {
        match rs.last() {
            Ok(_) => errs(rs.drop_last()),
            Err(e) => errs(rs.drop_last()).push(e),
        }
    }
}

/// The terms of the constraints of `es` that encode; the others are left
/// out.
pub open spec fn encodable(c: Ctx, es: Seq<ConstraintView>) -> Seq<BoolTermView>
    decreases es.len(),
{
    if es.len() == 0 {
        seq![]
    } else {
        match enc_constraint(es.last(), c) {
            Ok(t) => encodable(c, es.drop_last()).push(t),
            Err(_) => encodable(c, es.drop_last()),
        }
    }
}

/// The promoted facts of `ps` that encode, with their sources.
pub open spec fn encodable_facts(c: Ctx, ps: Seq<(NodeId, ConstraintView)>) -> Seq<
    (NodeId, BoolTermView),
>
    decreases ps.len(),
{
    if ps.len() == 0 {
        seq![]
    } else {
        match enc_constraint(ps.last().1, c) {
            Ok(t) => encodable_facts(c, ps.drop_last()).push((ps.last().0, t)),
            Err(_) => encodable_facts(c, ps.drop_last()),
        }
    }
}

/// `s` without repetitions, each id at its first place.
pub open spec fn distinct_ids(s: Seq<NodeId>) -> Seq<NodeId>
    decreases s.len(),
{
    if s.len() == 0 {
        seq![]
    } else if distinct_ids(s.drop_last()).contains(s.last()) {
        distinct_ids(s.drop_last())
    } else {
        distinct_ids(s.drop_last()).push(s.last())
    }
}

/// The assertions of the type constraints `pcs` on the variables of `c`:
/// constraints on unregistered names, and those that cannot be encoded,
/// are left out.
pub open spec fn type_assertions(c: Ctx, pcs: Seq<(Seq<char>, BuiltinSemanticType)>) -> Seq<
    BoolTermView,
>
    decreases pcs.len(),
{
    if pcs.len() == 0 {
        seq![]
    } else {
        let rest = type_assertions(c, pcs.drop_last());
        match lookup_var(c, seq![pcs.last().0]) {
            None => rest,
            Some((v, s)) => match type_terms(pcs.last().1, v, s) {
                Ok(ts) => rest + ts,
                Err(_) => rest,
            },
        }
    }
}

/// A postcondition to check: its text and its encoding.
#[derive(Debug)]
pub struct PostCheck {
    pub contract_expr: String,
    pub encoded: Result<BoolTerm, VerifyError>,
}

/// The content of a `PostCheck`.
pub open spec fn post_view(p: PostCheck) -> (Seq<char>, Result<BoolTermView, VerifyErrorView>) {
    (
        p.contract_expr@,
        match p.encoded {
            Ok(t) => Ok(t@),
            Err(e) => Err(e@),
        },
    )
}

/// The contents of a sequence of `PostCheck`s.
pub open spec fn post_views(s: Seq<PostCheck>) -> Seq<(Seq<char>, Result<BoolTermView, VerifyErrorView>)> {
    s.map_values(|p: PostCheck| post_view(p))
}

/// What the verification of one `Do` node checks.
#[derive(Debug)]
pub struct NodePlan {
    pub node_id: NodeId,
    /// The variables that the terms refer to.
    pub context: EncodeContext,
    /// The constraints of the parameter types.
    pub type_terms: Vec<BoolTerm>,
    /// Verified child postconditions, then the node's preconditions.
    pub fact_terms: Vec<BoolTerm>,
    /// The preconditions that could not be encoded.
    pub before_errors: Vec<VerifyError>,
    /// Facts promoted by preceding `check` nodes.
    pub promoted_terms: Vec<BoolTerm>,
    /// The `check` nodes the promoted facts come from, each once.
    pub promoted_sources: Vec<NodeId>,
    /// The postconditions, in contract order.
    pub posts: Vec<PostCheck>,
}

/// A satisfiability check of a node run.
#[derive(Debug, Clone, Copy, PartialEq, Eq, Structural)]
pub enum QueryKind {
    /// The type constraints alone.
    TypeConstraints,
    /// Type constraints and facts.
    Preconditions,
    /// Type constraints, facts and promoted facts.
    PromotedFacts,
    /// All of the above and the negation of postcondition `i`.
    Postcondition(usize),
}

fn contract_encoding(ctx: &EncodeContext, k: &Contract, id: NodeId) -> (r: Result<BoolTerm, VerifyError>)
    ensures
        (match r {
            Ok(t) => Ok(t@),
            Err(e) => Err(e@),
        }) == contract_term(ctx@, *k, id),
{
    match &k.parsed {
        Err(m) => {
            let mut name = String::from_str("parse error: ");
            name.append(m.as_str());
            Err(VerifyError::EncodingFailed { node_id: id, inner: EncodeError::UnboundVariable { name } })
        },
        Ok(e) => match encode_constraint(e, ctx) {
            Ok(t) => Ok(t),
            Err(x) => Err(VerifyError::EncodingFailed { node_id: id, inner: x }),
        },
    }
}

fn encodable_terms(ctx: &EncodeContext, es: &Vec<ConstraintExpr>, out: &mut Vec<BoolTerm>)
    ensures
        bool_views(final(out)@) == bool_views(old(out)@) + encodable(ctx@, constraint_views(es@)),
{
    let ghost cs = constraint_views(es@);
    let ghost start = bool_views(out@);
    proof {
        lemma_constraint_views_take(es@, 0);
    }
    let mut i: usize = 0;
    assert(cs.take(0) =~= Seq::<ConstraintView>::empty());
    assert(start + encodable(ctx@, cs.take(0)) =~= start);
    while i < es.len()
        invariant
            i <= es@.len(),
            cs == constraint_views(es@),
            cs.len() == es@.len(),
            bool_views(out@) == start + encodable(ctx@, cs.take(i as int)),
        decreases es.len() - i,
    {
        proof {
            crate::expr::lemma_constraint_views_index(es@, i as int);
            assert(cs.take(i + 1).drop_last() =~= cs.take(i as int));
        }
        match encode_constraint(&es[i], ctx) {
            Ok(t) => {
                proof {
                    lemma_bool_views_push(out@, t);
                }
                out.push(t);
                assert(bool_views(out@) =~= start + encodable(ctx@, cs.take(i + 1)));
            },
            Err(_) => {},
        }
        i += 1;
    }
    assert(cs.take(es@.len() as int) =~= cs);
}

fn type_constraint_terms(ctx: &EncodeContext, node: &Node, graph: &AilGraph) -> (r: Vec<BoolTerm>)
    ensures
        bool_views(r@) == type_assertions(ctx@, param_constraints(graph@, node.metadata.params@)),
{
    let pcs = collect_param_type_constraints(node, graph);
    let ghost ps = pcs@.map_values(|e: (String, BuiltinSemanticType)| (e.0@, e.1));
    let mut out: Vec<BoolTerm> = Vec::new();
    let mut i: usize = 0;
    assert(ps.take(0) =~= Seq::<(Seq<char>, BuiltinSemanticType)>::empty());
    while i < pcs.len()
        invariant
            i <= pcs@.len(),
            ps == pcs@.map_values(|e: (String, BuiltinSemanticType)| (e.0@, e.1)),
            bool_views(out@) == type_assertions(ctx@, ps.take(i as int)),
        decreases pcs.len() - i,
    {
        assert(ps.take(i + 1).drop_last() =~= ps.take(i as int));
        let path: Vec<String> = vec![pcs[i].0.clone()];
        assert(views(path@) =~= seq![ps[i as int].0]);
        match ctx.get_var(path.as_slice()) {
            None => {},
            Some((v, sort)) => match encode_type_constraint(pcs[i].1, v, sort) {
                Ok(ts) => {
                    let mut j: usize = 0;
                    let ghost before = bool_views(out@);
                    assert(ts@.take(0) =~= Seq::<BoolTerm>::empty());
                    while j < ts.len()
                        invariant
                            j <= ts@.len(),
                            bool_views(out@) == before + bool_views(ts@.take(j as int)),
                        decreases ts.len() - j,
                    {
                        assert(ts@.take(j + 1).drop_last() =~= ts@.take(j as int));
                        let d = ts[j].duplicate();
                        proof {
                            lemma_bool_views_push(out@, d);
                        }
                        out.push(d);
                        assert(bool_views(out@) =~= before + bool_views(ts@.take(j + 1)));
                        j += 1;
                    }
                    assert(ts@.take(ts@.len() as int) =~= ts@);
                },
                Err(_) => {},
            },
        }
        i += 1;
    }
    assert(ps.take(pcs@.len() as int) =~= ps);
    out
}

fn before_terms(
    ctx: &EncodeContext,
    node: &Node,
    facts: &mut Vec<BoolTerm>,
    errors: &mut Vec<VerifyError>,
)
    ensures
        bool_views(final(facts)@) == bool_views(old(facts)@) + oks(
            before_results(ctx@, node.contracts@, node.id),
        ),
        verify_error_views(final(errors)@) == verify_error_views(old(errors)@) + errs(
            before_results(ctx@, node.contracts@, node.id),
        ),
{
    let cs = &node.contracts;
    let ghost f0 = bool_views(facts@);
    let ghost e0 = verify_error_views(errors@);
    let mut i: usize = 0;
    assert(cs@.take(0) =~= Seq::<Contract>::empty());
    assert(f0 + oks(before_results(ctx@, cs@.take(0), node.id)) =~= f0);
    assert(e0 + errs(before_results(ctx@, cs@.take(0), node.id)) =~= e0);
    while i < cs.len()
        invariant
            i <= cs@.len(),
            cs == &node.contracts,
            bool_views(facts@) == f0 + oks(before_results(ctx@, cs@.take(i as int), node.id)),
            verify_error_views(errors@) == e0 + errs(before_results(ctx@, cs@.take(i as int), node.id)),
        decreases cs.len() - i,
    {
        assert(cs@.take(i + 1).drop_last() =~= cs@.take(i as int));
        if cs[i].kind == ContractKind::Before {
            let ghost br = before_results(ctx@, cs@.take(i as int), node.id);
            assert(before_results(ctx@, cs@.take(i + 1), node.id) == br.push(
                contract_term(ctx@, cs@[i as int], node.id),
            ));
            assert(br.push(contract_term(ctx@, cs@[i as int], node.id)).drop_last() =~= br);
            match contract_encoding(ctx, &cs[i], node.id) {
                Ok(t) => {
                    proof {
                        lemma_bool_views_push(facts@, t);
                    }
                    facts.push(t);
                    assert(bool_views(facts@) =~= f0 + oks(before_results(ctx@, cs@.take(i + 1), node.id)));
                },
                Err(e) => {
                    let ghost before = errors@;
                    errors.push(e);
                    assert(verify_error_views(errors@) =~= verify_error_views(before).push(e@));
                    assert(verify_error_views(errors@) =~= e0 + errs(before_results(ctx@, cs@.take(i + 1), node.id)));
                },
            }
        }
        i += 1;
    }
    assert(cs@.take(cs@.len() as int) =~= cs@);
}

fn post_checks(ctx: &EncodeContext, node: &Node) -> (r: Vec<PostCheck>)
    ensures
        post_views(r@) == post_results(ctx@, node.contracts@, node.id),
{
    let cs = &node.contracts;
    let mut out: Vec<PostCheck> = Vec::new();
    let mut i: usize = 0;
    assert(cs@.take(0) =~= Seq::<Contract>::empty());
    while i < cs.len()
        invariant
            i <= cs@.len(),
            cs == &node.contracts,
            post_views(out@) == post_results(ctx@, cs@.take(i as int), node.id),
        decreases cs.len() - i,
    {
        assert(cs@.take(i + 1).drop_last() =~= cs@.take(i as int));
        if cs[i].kind == ContractKind::After || cs[i].kind == ContractKind::Always {
            let encoded = contract_encoding(ctx, &cs[i], node.id);
            let p = PostCheck { contract_expr: cs[i].expression.clone(), encoded };
            let ghost before = out@;
            out.push(p);
            assert(post_views(out@) =~= post_views(before).push(post_view(p)));
        }
        i += 1;
    }
    assert(cs@.take(cs@.len() as int) =~= cs@);
    out
}

/// The views of promoted facts: source and constraint.
pub open spec fn fact_views(s: Seq<(NodeId, ConstraintExpr)>) -> Seq<(NodeId, ConstraintView)> {
    s.map_values(|p: (NodeId, ConstraintExpr)| (p.0, p.1@))
}

fn promoted_terms(
    ctx: &EncodeContext,
    promoted: &Vec<(NodeId, ConstraintExpr)>,
) -> (r: (Vec<BoolTerm>, Vec<NodeId>))
    ensures
        bool_views(r.0@) == encodable_facts(ctx@, fact_views(promoted@)).map_values(
            |p: (NodeId, BoolTermView)| p.1,
        ),
        r.1@ == distinct_ids(
            encodable_facts(ctx@, fact_views(promoted@)).map_values(|p: (NodeId, BoolTermView)| p.0),
        ),
{
    let ghost fs = fact_views(promoted@);
    let mut terms: Vec<BoolTerm> = Vec::new();
    let mut sources: Vec<NodeId> = Vec::new();
    let mut i: usize = 0;
    assert(fs.take(0) =~= Seq::<(NodeId, ConstraintView)>::empty());
    assert(encodable_facts(ctx@, fs.take(0)).map_values(|p: (NodeId, BoolTermView)| p.0)
        =~= Seq::<NodeId>::empty());
    assert(encodable_facts(ctx@, fs.take(0)).map_values(|p: (NodeId, BoolTermView)| p.1)
        =~= Seq::<BoolTermView>::empty());
    while i < promoted.len()
        invariant
            i <= promoted@.len(),
            fs == fact_views(promoted@),
            bool_views(terms@) == encodable_facts(ctx@, fs.take(i as int)).map_values(
                |p: (NodeId, BoolTermView)| p.1,
            ),
            sources@ == distinct_ids(
                encodable_facts(ctx@, fs.take(i as int)).map_values(|p: (NodeId, BoolTermView)| p.0),
            ),
        decreases promoted.len() - i,
    {
        assert(fs.take(i + 1).drop_last() =~= fs.take(i as int));
        match encode_constraint(&promoted[i].1, ctx) {
            Ok(t) => {
                let ghost ef = encodable_facts(ctx@, fs.take(i as int));
                let ghost ef1 = encodable_facts(ctx@, fs.take(i + 1));
                assert(ef1 == ef.push((promoted@[i as int].0, t@)));
                assert(ef1.map_values(|p: (NodeId, BoolTermView)| p.0) =~= ef.map_values(
                    |p: (NodeId, BoolTermView)| p.0,
                ).push(promoted@[i as int].0));
                assert(ef1.map_values(|p: (NodeId, BoolTermView)| p.1) =~= ef.map_values(
                    |p: (NodeId, BoolTermView)| p.1,
                ).push(t@));
                let src = promoted[i].0;
                proof {
                    lemma_bool_views_push(terms@, t);
                    assert(ef1.map_values(|p: (NodeId, BoolTermView)| p.0).drop_last() =~= ef.map_values(
                        |p: (NodeId, BoolTermView)| p.0,
                    ));
                }
                terms.push(t);
                if !contains_id(&sources, src) {
                    sources.push(src);
                }
            },
            Err(_) => {},
        }
        i += 1;
    }
    assert(fs.take(promoted@.len() as int) =~= fs);
    (terms, sources)
}

fn contains_id(v: &Vec<NodeId>, x: NodeId) -> (b: bool)
    ensures
        b == v@.contains(x),
{
    let mut i: usize = 0;
    while i < v.len()
        invariant
            i <= v@.len(),
            forall|k: int| 0 <= k < i ==> v@[k] != x,
        decreases v.len() - i,
    {
        if v[i] == x {
            assert(v@[i as int] == x);
            return true;
        }
        i += 1;
    }
    false
}

/// `plan` is the plan of node `node` of `nodes`, given the verified child
/// postconditions and the promoted facts.
pub open spec fn is_plan(
    plan: NodePlan,
    nodes: Seq<Node>,
    node: Node,
    child_posts: Seq<ConstraintView>,
    promoted: Seq<(NodeId, ConstraintView)>,
) -> bool {
    &&& plan.node_id == node.id
    &&& plan.context@ == node_context((Seq::empty(), Seq::empty()), nodes, node)
    &&& bool_views(plan.type_terms@) == type_assertions(
        plan.context@,
        param_constraints(nodes, node.metadata.params@),
    )
    &&& bool_views(plan.fact_terms@) == encodable(plan.context@, child_posts) + oks(
        before_results(plan.context@, node.contracts@, node.id),
    )
    &&& verify_error_views(plan.before_errors@) == errs(
        before_results(plan.context@, node.contracts@, node.id),
    )
    &&& bool_views(plan.promoted_terms@) == encodable_facts(plan.context@, promoted).map_values(
        |p: (NodeId, BoolTermView)| p.1,
    )
    &&& plan.promoted_sources@ == distinct_ids(
        encodable_facts(plan.context@, promoted).map_values(|p: (NodeId, BoolTermView)| p.0),
    )
    &&& post_views(plan.posts@) == post_results(plan.context@, node.contracts@, node.id)
}

/// Plan the verification of a `Do` node. `child_posts` are the verified
/// postconditions of its `Do` children and `promoted` the facts promoted to
/// it, each with its source `check` node. Child postconditions and promoted
/// facts that cannot be encoded are left out; preconditions that cannot be
/// parsed or encoded become `EncodingFailed` errors; postconditions keep
/// their encoding failure for the run to report.
pub fn plan_do_node(
    node: &Node,
    graph: &AilGraph,
    child_posts: &Vec<ConstraintExpr>,
    promoted: &Vec<(NodeId, ConstraintExpr)>,
) -> (plan: NodePlan)
    ensures
        is_plan(plan, graph@, *node, constraint_views(child_posts@), fact_views(promoted@)),
{
    let context = build_encode_context(node, graph);
    let type_terms = type_constraint_terms(&context, node, graph);
    let mut fact_terms: Vec<BoolTerm> = Vec::new();
    encodable_terms(&context, child_posts, &mut fact_terms);
    let mut before_errors: Vec<VerifyError> = Vec::new();
    assert(verify_error_views(before_errors@) =~= Seq::<VerifyErrorView>::empty());
    before_terms(&context, node, &mut fact_terms, &mut before_errors);
    let (promoted_terms, promoted_sources) = promoted_terms(&context, promoted);
    let posts = post_checks(&context, node);
    NodePlan {
        node_id: node.id,
        context,
        type_terms,
        fact_terms,
        before_errors,
        promoted_terms,
        promoted_sources,
        posts,
    }
}

// ─── the run of one node ────────────────────────────────────────────────────

/// What a postcondition check's answer reports: nothing when the negation
/// is unsatisfiable (the postcondition follows), a counterexample when it
/// is satisfiable, a timeout otherwise.
pub open spec fn post_error(id: NodeId, text: Seq<char>, a: AnswerView) -> Seq<VerifyErrorView> {
    match a {
        AnswerView::Unsat => seq![],
        AnswerView::Sat(m) => seq![
            VerifyErrorView::PostconditionNotEntailed {
                node_id: id,
                contract_expr: text,
                counterexample: counterexample_of(m),
            },
        ],
        AnswerView::Unknown => seq![VerifyErrorView::SolverTimeout { node_id: id, contract_expr: text }],
    }
}

/// The errors of the postconditions from `from` on, given the answers `a`
/// to their checks in order, and the next check when an answer is missing.
/// A postcondition that could not be encoded reports its error and takes
/// no check.
pub open spec fn posts_outcome(
    id: NodeId,
    posts: Seq<(Seq<char>, Result<BoolTermView, VerifyErrorView>)>,
    a: Seq<AnswerView>,
    from: int,
) -> (Seq<VerifyErrorView>, Option<QueryKind>)
    decreases posts.len() - from,
{
    if from < 0 || from >= posts.len() {
        (seq![], None)
    } else {
        match posts[from].1 {
            Err(e) => {
                let r = posts_outcome(id, posts, a, from + 1);
                (seq![e] + r.0, r.1)
            },
            Ok(_) => if a.len() == 0 {
                (seq![], Some(QueryKind::Postcondition(from as usize)))
            } else {
                let r = posts_outcome(id, posts, a.drop_first(), from + 1);
                (post_error(id, posts[from].0, a[0]) + r.0, r.1)
            },
        }
    }
}

/// The errors of a node run given the answers `a` so far, and the next
/// check to make, if any. The checks come in this order, and the run stops
/// at the first that fails:
/// - the type constraints: unsatisfiable reports `UnsatTypeConstraints`,
///   no answer a timeout on `<type constraints>`;
/// - the facts: the preconditions that could not be encoded are reported,
///   then unsatisfiable reports `ContradictoryPreconditions`, no answer a
///   timeout on `<precondition satisfiability check>`;
/// - when there are promoted facts, all of it with them: unsatisfiable
///   reports `PromotedFactContradiction` with their sources, no answer a
///   timeout on `<promoted fact check>`;
/// - each postcondition, negated, on top (see `posts_outcome`).
pub open spec fn node_outcome(
    id: NodeId,
    before_errors: Seq<VerifyErrorView>,
    has_promoted: bool,
    sources: Seq<NodeId>,
    posts: Seq<(Seq<char>, Result<BoolTermView, VerifyErrorView>)>,
    a: Seq<AnswerView>,
) -> (Seq<VerifyErrorView>, Option<QueryKind>) {
    if a.len() == 0 {
        (seq![], Some(QueryKind::TypeConstraints))
    } else if a[0] is Unsat {
        (seq![VerifyErrorView::UnsatTypeConstraints { node_id: id }], None)
    } else if a[0] is Unknown {
        (seq![VerifyErrorView::SolverTimeout { node_id: id, contract_expr: "<type constraints>"@ }], None)
    } else if a.len() == 1 {
        (before_errors, Some(QueryKind::Preconditions))
    } else if a[1] is Unsat {
        (
            before_errors.push(
                VerifyErrorView::ContradictoryPreconditions {
                    node_id: id,
                    counterexample: "<no model — preconditions are contradictory>"@,
                },
            ),
            None,
        )
    } else if a[1] is Unknown {
        (
            before_errors.push(
                VerifyErrorView::SolverTimeout {
                    node_id: id,
                    contract_expr: "<precondition satisfiability check>"@,
                },
            ),
            None,
        )
    } else if has_promoted {
        if a.len() == 2 {
            (before_errors, Some(QueryKind::PromotedFacts))
        } else if a[2] is Unsat {
            (
                before_errors.push(
                    VerifyErrorView::PromotedFactContradiction {
                        node_id: id,
                        source_check_ids: sources,
                        counterexample: "<no model — promoted facts contradict preconditions>"@,
                    },
                ),
                None,
            )
        } else if a[2] is Unknown {
            (
                before_errors.push(
                    VerifyErrorView::SolverTimeout { node_id: id, contract_expr: "<promoted fact check>"@ },
                ),
                None,
            )
        } else {
            let r = posts_outcome(id, posts, a.skip(3), 0);
            (before_errors + r.0, r.1)
        }
    } else {
        let r = posts_outcome(id, posts, a.skip(2), 0);
        (before_errors + r.0, r.1)
    }
}

/// `node_outcome` for a plan.
pub open spec fn plan_outcome(plan: NodePlan, a: Seq<AnswerView>) -> (Seq<VerifyErrorView>, Option<QueryKind>) {
    node_outcome(
        plan.node_id,
        verify_error_views(plan.before_errors@),
        plan.promoted_terms@.len() > 0,
        plan.promoted_sources@,
        post_views(plan.posts@),
        a,
    )
}

/// The outcome of the run of `node`, one of `nodes`, with the facts
/// `promoted` promoted to it, given the answers `a` to its checks: the
/// `node_outcome` of the node's plan, which the verified child
/// postconditions do not change (they only enter the checks).
pub open spec fn node_outcome_of(
    nodes: Seq<Node>,
    node: Node,
    promoted: Seq<(NodeId, ConstraintView)>,
    a: Seq<AnswerView>,
) -> (Seq<VerifyErrorView>, Option<QueryKind>) {
    let c = node_context((Seq::empty(), Seq::empty()), nodes, node);
    let facts = encodable_facts(c, promoted);
    node_outcome(
        node.id,
        errs(before_results(c, node.contracts@, node.id)),
        facts.len() > 0,
        distinct_ids(facts.map_values(|p: (NodeId, BoolTermView)| p.0)),
        post_results(c, node.contracts@, node.id),
        a,
    )
}

/// The outcome of a plan is that of the node it plans.
pub proof fn lemma_plan_outcome(
    plan: NodePlan,
    nodes: Seq<Node>,
    node: Node,
    child_posts: Seq<ConstraintView>,
    promoted: Seq<(NodeId, ConstraintView)>,
    a: Seq<AnswerView>,
)
    requires
        is_plan(plan, nodes, node, child_posts, promoted),
    ensures
        plan_outcome(plan, a) == node_outcome_of(nodes, node, promoted, a),
{
    crate::encode::lemma_bool_views_len(plan.promoted_terms@);
}

proof fn lemma_posts_outcome_ends(
    id: NodeId,
    posts: Seq<(Seq<char>, Result<BoolTermView, VerifyErrorView>)>,
    a: Seq<AnswerView>,
    from: int,
)
    requires
        0 <= from,
        a.len() >= posts.len() - from,
    ensures
        posts_outcome(id, posts, a, from).1 is None,
    decreases posts.len() - from,
{
    if from < posts.len() {
        match posts[from].1 {
            Err(_) => lemma_posts_outcome_ends(id, posts, a, from + 1),
            Ok(_) => lemma_posts_outcome_ends(id, posts, a.drop_first(), from + 1),
        }
    }
}

/// A node run asks for at most three checks more than it has
/// postconditions.
pub proof fn lemma_node_outcome_ends(
    id: NodeId,
    before_errors: Seq<VerifyErrorView>,
    has_promoted: bool,
    sources: Seq<NodeId>,
    posts: Seq<(Seq<char>, Result<BoolTermView, VerifyErrorView>)>,
    a: Seq<AnswerView>,
)
    requires
        a.len() >= posts.len() + 3,
    ensures
        node_outcome(id, before_errors, has_promoted, sources, posts, a).1 is None,
{
    lemma_posts_outcome_ends(id, posts, a.skip(3), 0);
    lemma_posts_outcome_ends(id, posts, a.skip(2), 0);
}

fn duplicate_errors(v: &Vec<VerifyError>) -> (r: Vec<VerifyError>)
    ensures
        verify_error_views(r@) == verify_error_views(v@),
{
    let mut out: Vec<VerifyError> = Vec::new();
    let mut i: usize = 0;
    while i < v.len()
        invariant
            i <= v@.len(),
            verify_error_views(out@) == verify_error_views(v@.take(i as int)),
        decreases v.len() - i,
    {
        push_error(&mut out, v[i].duplicate());
        assert(verify_error_views(v@.take(i + 1)) =~= verify_error_views(v@.take(i as int)).push(v@[i as int]@));
        i += 1;
    }
    assert(v@.take(v@.len() as int) =~= v@);
    out
}

fn push_error(out: &mut Vec<VerifyError>, e: VerifyError)
    ensures
        verify_error_views(final(out)@) == verify_error_views(old(out)@).push(e@),
{
    out.push(e);
    assert(verify_error_views(out@) =~= verify_error_views(old(out)@).push(e@));
}

fn posts_step(id: NodeId, posts: &Vec<PostCheck>, answers: &[SolverAnswer], k: usize) -> (r: (
    Vec<VerifyError>,
    Option<QueryKind>,
))
    requires
        k <= answers@.len(),
    ensures
        (verify_error_views(r.0@), r.1) == posts_outcome(
            id,
            post_views(posts@),
            answer_views(answers@).skip(k as int),
            0,
        ),
{
    let ghost ps = post_views(posts@);
    let ghost av = answer_views(answers@);
    let mut out: Vec<VerifyError> = Vec::new();
    let mut i: usize = 0;
    let mut j: usize = k;
    assert(verify_error_views(out@) =~= Seq::<VerifyErrorView>::empty());
    assert(posts_outcome(id, ps, av.skip(k as int), 0).0 =~= Seq::<VerifyErrorView>::empty() + posts_outcome(id, ps, av.skip(k as int), 0).0);
    while i < posts.len()
        invariant
            i <= posts@.len(),
            k <= j <= answers@.len(),
            ps == post_views(posts@),
            av == answer_views(answers@),
            ps.len() == posts@.len(),
            av.len() == answers@.len(),
            posts_outcome(id, ps, av.skip(k as int), 0) == (
                verify_error_views(out@) + posts_outcome(id, ps, av.skip(j as int), i as int).0,
                posts_outcome(id, ps, av.skip(j as int), i as int).1,
            ),
        decreases posts.len() - i,
    {
        let ghost pre = verify_error_views(out@);
        let ghost rest = posts_outcome(id, ps, av.skip(j as int), i + 1);
        assert(ps[i as int] == post_view(posts@[i as int]));
        match &posts[i].encoded {
            Err(e) => {
                push_error(&mut out, e.duplicate());
                assert(pre.push(ps[i as int].1->Err_0) + rest.0 =~= pre + (seq![ps[i as int].1->Err_0] + rest.0));
            },
            Ok(_) => {
                if j == answers.len() {
                    assert(av.skip(j as int).len() == 0);
                    return (out, Some(QueryKind::Postcondition(i)));
                }
                let ghost rest2 = posts_outcome(id, ps, av.skip(j + 1), i + 1);
                assert(av.skip(j as int).drop_first() =~= av.skip(j + 1));
                assert(av.skip(j as int)[0] == answers@[j as int]@);
                let text = &posts[i].contract_expr;
                let ghost perr = post_error(id, ps[i as int].0, av[j as int]);
                match &answers[j] {
                    SolverAnswer::Unsat => {
                        assert(pre + (perr + rest2.0) =~= pre + rest2.0);
                    },
                    SolverAnswer::Sat(m) => {
                        let counterexample = format_counterexample(m);
                        push_error(
                            &mut out,
                            VerifyError::PostconditionNotEntailed {
                                node_id: id,
                                contract_expr: text.clone(),
                                counterexample,
                            },
                        );
                        assert(verify_error_views(out@) + rest2.0 =~= pre + (perr + rest2.0));
                    },
                    SolverAnswer::Unknown => {
                        push_error(
                            &mut out,
                            VerifyError::SolverTimeout { node_id: id, contract_expr: text.clone() },
                        );
                        assert(verify_error_views(out@) + rest2.0 =~= pre + (perr + rest2.0));
                    },
                }
                j += 1;
            },
        }
        i += 1;
    }
    assert(verify_error_views(out@) + Seq::<VerifyErrorView>::empty() =~= verify_error_views(out@));
    (out, None)
}

/// The errors of a node run given the answers received so far, and the
/// next check to make (`None` when the run is over); see `node_outcome`.
pub fn node_step(plan: &NodePlan, answers: &[SolverAnswer]) -> (r: (Vec<VerifyError>, Option<QueryKind>))
    ensures
        (verify_error_views(r.0@), r.1) == plan_outcome(*plan, answer_views(answers@)),
{
    let id = plan.node_id;
    let ghost av = answer_views(answers@);
    if answers.len() == 0 {
        let out: Vec<VerifyError> = Vec::new();
        assert(verify_error_views(out@) =~= Seq::<VerifyErrorView>::empty());
        return (out, Some(QueryKind::TypeConstraints));
    }
    assert(av[0] == answers@[0]@);
    match &answers[0] {
        SolverAnswer::Unsat => {
            let mut out: Vec<VerifyError> = Vec::new();
            push_error(&mut out, VerifyError::UnsatTypeConstraints { node_id: id });
            assert(verify_error_views(out@) =~= seq![VerifyErrorView::UnsatTypeConstraints { node_id: id }]);
            return (out, None);
        },
        SolverAnswer::Unknown => {
            let mut out: Vec<VerifyError> = Vec::new();
            push_error(
                &mut out,
                VerifyError::SolverTimeout {
                    node_id: id,
                    contract_expr: String::from_str("<type constraints>"),
                },
            );
            assert(verify_error_views(out@) =~= seq![
                VerifyErrorView::SolverTimeout { node_id: id, contract_expr: "<type constraints>"@ },
            ]);
            return (out, None);
        },
        SolverAnswer::Sat(_) => {},
    }
    let mut out = duplicate_errors(&plan.before_errors);
    if answers.len() == 1 {
        return (out, Some(QueryKind::Preconditions));
    }
    assert(av[1] == answers@[1]@);
    match &answers[1] {
        SolverAnswer::Unsat => {
            push_error(
                &mut out,
                VerifyError::ContradictoryPreconditions {
                    node_id: id,
                    counterexample: String::from_str("<no model — preconditions are contradictory>"),
                },
            );
            return (out, None);
        },
        SolverAnswer::Unknown => {
            push_error(
                &mut out,
                VerifyError::SolverTimeout {
                    node_id: id,
                    contract_expr: String::from_str("<precondition satisfiability check>"),
                },
            );
            return (out, None);
        },
        SolverAnswer::Sat(_) => {},
    }
    let mut k: usize = 2;
    if plan.promoted_terms.len() > 0 {
        if answers.len() == 2 {
            return (out, Some(QueryKind::PromotedFacts));
        }
        assert(av[2] == answers@[2]@);
        match &answers[2] {
            SolverAnswer::Unsat => {
                push_error(
                    &mut out,
                    VerifyError::PromotedFactContradiction {
                        node_id: id,
                        source_check_ids: copy_ids(&plan.promoted_sources),
                        counterexample: String::from_str(
                            "<no model — promoted facts contradict preconditions>",
                        ),
                    },
                );
                return (out, None);
            },
            SolverAnswer::Unknown => {
                push_error(
                    &mut out,
                    VerifyError::SolverTimeout {
                        node_id: id,
                        contract_expr: String::from_str("<promoted fact check>"),
                    },
                );
                return (out, None);
            },
            SolverAnswer::Sat(_) => {},
        }
        k = 3;
    }
    let (rest, next) = posts_step(id, &plan.posts, answers, k);
    let ghost before = verify_error_views(out@);
    let mut i: usize = 0;
    while i < rest.len()
        invariant
            i <= rest@.len(),
            verify_error_views(out@) == before + verify_error_views(rest@.take(i as int)),
        decreases rest.len() - i,
    {
        let ghost prev = verify_error_views(out@);
        push_error(&mut out, rest[i].duplicate());
        assert(verify_error_views(rest@.take(i + 1)) =~= verify_error_views(rest@.take(i as int)).push(rest@[i as int]@));
        assert(verify_error_views(out@) =~= before + verify_error_views(rest@.take(i + 1)));
        i += 1;
    }
    assert(rest@.take(rest@.len() as int) =~= rest@);
    (out, next)
}

/// The assertions of a check: the type constraints, then the facts, then
/// the promoted facts, then the negation of the postcondition checked.
pub open spec fn query_of(plan: NodePlan, kind: QueryKind) -> Seq<BoolTermView> {
    let types = bool_views(plan.type_terms@);
    let facts = bool_views(plan.fact_terms@);
    let promoted = bool_views(plan.promoted_terms@);
    match kind {
        QueryKind::TypeConstraints => types,
        QueryKind::Preconditions => types + facts,
        QueryKind::PromotedFacts => types + facts + promoted,
        QueryKind::Postcondition(i) => if i < plan.posts@.len() && plan.posts@[i as int].encoded is Ok {
            types + facts + promoted + seq![
                BoolTermView::Not(Box::new(plan.posts@[i as int].encoded->Ok_0@)),
            ]
        } else {
            types + facts + promoted
        },
    }
}

fn append_terms(out: &mut Vec<BoolTerm>, v: &Vec<BoolTerm>)
    ensures
        bool_views(final(out)@) == bool_views(old(out)@) + bool_views(v@),
{
    let ghost start = bool_views(out@);
    let mut i: usize = 0;
    assert(v@.take(0) =~= Seq::<BoolTerm>::empty());
    assert(start + bool_views(v@.take(0)) =~= start);
    while i < v.len()
        invariant
            i <= v@.len(),
            bool_views(out@) == start + bool_views(v@.take(i as int)),
        decreases v.len() - i,
    {
        assert(v@.take(i + 1).drop_last() =~= v@.take(i as int));
        let d = v[i].duplicate();
        proof {
            lemma_bool_views_push(out@, d);
        }
        out.push(d);
        assert(bool_views(out@) =~= start + bool_views(v@.take(i + 1)));
        i += 1;
    }
    assert(v@.take(v@.len() as int) =~= v@);
}

/// The assertions of the check `kind` (see `query_of`).
pub fn query_terms(plan: &NodePlan, kind: QueryKind) -> (r: Vec<BoolTerm>)
    ensures
        bool_views(r@) == query_of(*plan, kind),
{
    let mut out = duplicate_terms(&plan.type_terms);
    if kind == QueryKind::TypeConstraints {
        return out;
    }
    append_terms(&mut out, &plan.fact_terms);
    if kind == QueryKind::Preconditions {
        return out;
    }
    append_terms(&mut out, &plan.promoted_terms);
    match kind {
        QueryKind::Postcondition(i) => {
            if i < plan.posts.len() {
                match &plan.posts[i].encoded {
                    Ok(t) => {
                        let d = t.duplicate();
                        let n = BoolTerm::Not(Box::new(d));
                        assert(n@ == BoolTermView::Not(Box::new(t@)));
                        proof {
                            lemma_bool_views_push(out@, n);
                        }
                        out.push(n);
                    },
                    Err(_) => {},
                }
            }
        },
        _ => {},
    }
    out
}

// ─── the run over a graph ───────────────────────────────────────────────────

/// Indices among the first `n` nodes of the `Do` nodes at depth `d`.
pub open spec fn do_at_depth(nodes: Seq<Node>, d: nat, n: int) -> Seq<int>
    decreases n,
{
    if n <= 0 || n > nodes.len() {
        seq![]
    } else if nodes[n - 1].pattern == Pattern::Do && depth_at(nodes, n - 1) == d {
        do_at_depth(nodes, d, n - 1).push(n - 1)
    } else {
        do_at_depth(nodes, d, n - 1)
    }
}

/// The `Do` nodes at depths `d` down to 0: deepest first, and in graph
/// order within one depth.
pub open spec fn do_order_from(nodes: Seq<Node>, d: int) -> Seq<int>
    decreases d + 1,
{
    if d < 0 {
        seq![]
    } else {
        do_at_depth(nodes, d as nat, nodes.len() as int) + do_order_from(nodes, d - 1)
    }
}

/// The order in which the `Do` nodes are verified: by depth, deepest first;
/// in graph order within one depth.
pub open spec fn verification_order(nodes: Seq<Node>) -> Seq<int> {
    do_order_from(nodes, nodes.len() as int)
}

/// The postconditions of `cs` that parsed.
pub open spec fn parsed_posts(cs: Seq<Contract>) -> Seq<ConstraintView>
    decreases cs.len(),
{
    if cs.len() == 0 {
        seq![]
    } else if is_post(cs.last().kind) && cs.last().parsed is Ok {
        parsed_posts(cs.drop_last()).push(cs.last().parsed->Ok_0@)
    } else {
        parsed_posts(cs.drop_last())
    }
}

/// The verified postconditions of the `Do` children `kids` (in order), as
/// recorded in `verified` by node index.
pub open spec fn child_posts_of(
    nodes: Seq<Node>,
    verified: Seq<Option<Seq<ConstraintView>>>,
    kids: Seq<NodeId>,
) -> Seq<ConstraintView>
    decreases kids.len(),
{
    if kids.len() == 0 {
        seq![]
    } else {
        let rest = child_posts_of(nodes, verified, kids.drop_last());
        let j = index_of(nodes, kids.last());
        if 0 <= j < verified.len() && nodes[j].pattern == Pattern::Do && verified[j] is Some {
            rest + verified[j]->0
        } else {
            rest
        }
    }
}

/// The facts promoted to a node, each with its source: the parsed
/// conditions, a top-level conjunction split into its conjuncts.
pub open spec fn promoted_of(fs: Seq<PromotedFact>) -> Seq<(NodeId, ConstraintView)>
    decreases fs.len(),
{
    if fs.len() == 0 {
        seq![]
    } else {
        let rest = promoted_of(fs.drop_last());
        let f = fs.last();
        match f.parsed {
            Err(_) => rest,
            Ok(e) => match e@ {
                ConstraintView::And(children) => rest + children.map_values(
                    |c: ConstraintView| (f.source_node, c),
                ),
                other => rest.push((f.source_node, other)),
            },
        }
    }
}

/// The facts promoted to node `n`.
pub open spec fn node_promoted(n: Node) -> Seq<(NodeId, ConstraintView)> {
    match n.context {
        Some(p) => promoted_of(p.promoted_facts@),
        None => seq![],
    }
}

/// The indices of a sequence of positions.
pub open spec fn ints(s: Seq<usize>) -> Seq<int> {
    s.map_values(|x: usize| x as int)
}

proof fn lemma_depth_bound(nodes: Seq<Node>, i: int)
    requires
        0 <= i < nodes.len(),
    ensures
        depth_at(nodes, i) <= i + 1,
    decreases i,
{
    match nodes[i].parent {
        None => {},
        Some(p) => {
            let j = index_of(nodes, p);
            if 0 <= j < i {
                lemma_depth_bound(nodes, j);
            }
        },
    }
}

fn node_depths(graph: &AilGraph) -> (r: Vec<usize>)
    ensures
        r@.len() == graph@.len(),
        forall|i: int| 0 <= i < r@.len() ==> r@[i] == depth_at(graph@, i),
{
    let nodes = graph.all_nodes();
    let mut out: Vec<usize> = Vec::new();
    let mut i: usize = 0;
    while i < nodes.len()
        invariant
            i <= nodes@.len(),
            nodes@ == graph@,
            out@.len() == i,
            forall|k: int| 0 <= k < i ==> out@[k] == depth_at(graph@, k),
        decreases nodes.len() - i,
    {
        proof {
            lemma_depth_bound(graph@, i as int);
        }
        let d: usize = match nodes[i].parent {
            None => 0,
            Some(p) => match graph.index_of(p) {
                Some(j) => {
                    if j < i {
                        proof {
                            lemma_depth_bound(graph@, j as int);
                        }
                        1 + out[j]
                    } else {
                        1
                    }
                },
                None => 1,
            },
        };
        out.push(d);
        i += 1;
    }
    out
}

/// The order in which the `Do` nodes of `graph` are verified, as node
/// indices: deepest first, graph order within one depth.
pub fn verification_order_of(graph: &AilGraph) -> (r: Vec<usize>)
    ensures
        ints(r@) == verification_order(graph@),
{
    let nodes = graph.all_nodes();
    let depths = node_depths(graph);
    let n = nodes.len();
    let mut out: Vec<usize> = Vec::new();
    let mut d: usize = n;
    let ghost top = n as int;
    assert(ints(out@) =~= Seq::<int>::empty());
    loop
        invariant
            nodes@ == graph@,
            n == graph@.len(),
            d <= n,
            depths@.len() == n,
            forall|i: int| 0 <= i < n ==> depths@[i] == depth_at(graph@, i),
            verification_order(graph@) == ints(out@) + do_order_from(graph@, d as int),
        decreases d,
    {
        let ghost before = ints(out@);
        let mut i: usize = 0;
        assert(do_at_depth(graph@, d as nat, 0) =~= Seq::<int>::empty());
        while i < n
            invariant
                i <= n,
                nodes@ == graph@,
                n == graph@.len(),
                depths@.len() == n,
                forall|k: int| 0 <= k < n ==> depths@[k] == depth_at(graph@, k),
                ints(out@) == before + do_at_depth(graph@, d as nat, i as int),
            decreases n - i,
        {
            assert(depths@[i as int] == depth_at(graph@, i as int));
            if nodes[i].pattern == Pattern::Do && depths[i] == d {
                let ghost prev = out@;
                out.push(i);
                assert(ints(out@) =~= ints(prev).push(i as int));
                assert(ints(out@) =~= before + do_at_depth(graph@, d as nat, i + 1));
            }
            i += 1;
        }
        assert(do_order_from(graph@, d as int) == do_at_depth(graph@, d as nat, n as int) + do_order_from(graph@, d - 1));
        assert(ints(out@) + do_order_from(graph@, d - 1) =~= before + do_order_from(graph@, d as int));
        if d == 0 {
            assert(do_order_from(graph@, -1) =~= Seq::<int>::empty());
            assert(ints(out@) + do_order_from(graph@, -1) =~= ints(out@));
            return out;
        }
        d -= 1;
    }
}

fn parsed_post_exprs(cs: &Vec<Contract>) -> (r: Vec<ConstraintExpr>)
    ensures
        constraint_views(r@) == parsed_posts(cs@),
{
    let mut out: Vec<ConstraintExpr> = Vec::new();
    let mut i: usize = 0;
    assert(cs@.take(0) =~= Seq::<Contract>::empty());
    assert(constraint_views(out@) =~= Seq::<ConstraintView>::empty());
    while i < cs.len()
        invariant
            i <= cs@.len(),
            constraint_views(out@) == parsed_posts(cs@.take(i as int)),
        decreases cs.len() - i,
    {
        assert(cs@.take(i + 1).drop_last() =~= cs@.take(i as int));
        if cs[i].kind == ContractKind::After || cs[i].kind == ContractKind::Always {
            match &cs[i].parsed {
                Ok(e) => {
                    let d = e.duplicate();
                    let ghost before = out@;
                    out.push(d);
                    assert(out@.drop_last() =~= before);
                },
                Err(_) => {},
            }
        }
        i += 1;
    }
    assert(cs@.take(cs@.len() as int) =~= cs@);
    out
}

fn push_constraint(out: &mut Vec<ConstraintExpr>, e: ConstraintExpr)
    ensures
        constraint_views(final(out)@) == constraint_views(old(out)@).push(e@),
{
    out.push(e);
    assert(out@.drop_last() =~= old(out)@);
}

/// Verified postconditions, by node index.
pub open spec fn verified_views(v: Seq<Option<Vec<ConstraintExpr>>>) -> Seq<Option<Seq<ConstraintView>>> {
    v.map_values(
        |o: Option<Vec<ConstraintExpr>>| match o {
            Some(cs) => Some(constraint_views(cs@)),
            None => None,
        },
    )
}

fn collect_child_posts(
    graph: &AilGraph,
    id: NodeId,
    verified: &Vec<Option<Vec<ConstraintExpr>>>,
) -> (r: Vec<ConstraintExpr>)
    ensures
        constraint_views(r@) == child_posts_of(graph@, verified_views(verified@), children_in(graph@, id)),
{
    let kids = graph.children(id);
    let ghost vv = verified_views(verified@);
    let mut out: Vec<ConstraintExpr> = Vec::new();
    let mut i: usize = 0;
    assert(kids@.take(0) =~= Seq::<NodeId>::empty());
    assert(constraint_views(out@) =~= Seq::<ConstraintView>::empty());
    while i < kids.len()
        invariant
            i <= kids@.len(),
            kids@ == children_in(graph@, id),
            vv == verified_views(verified@),
            vv.len() == verified@.len(),
            constraint_views(out@) == child_posts_of(graph@, vv, kids@.take(i as int)),
        decreases kids.len() - i,
    {
        assert(kids@.take(i + 1).drop_last() =~= kids@.take(i as int));
        match graph.index_of(kids[i]) {
            Some(j) => {
                proof {
                    crate::model::lemma_index_of_bounds(graph@, kids@[i as int]);
                }
                if j < verified.len() && graph.all_nodes()[j].pattern == Pattern::Do {
                    match &verified[j] {
                        Some(posts) => {
                            let ghost start = constraint_views(out@);
                            let mut k: usize = 0;
                            assert(vv[j as int] == Some(constraint_views(posts@)));
                            proof {
                                lemma_constraint_views_take(posts@, 0);
                            }
                            assert(start + constraint_views(posts@.take(0)) =~= start);
                            while k < posts.len()
                                invariant
                                    k <= posts@.len(),
                                    constraint_views(out@) == start + constraint_views(posts@.take(k as int)),
                                decreases posts.len() - k,
                            {
                                assert(posts@.take(k + 1).drop_last() =~= posts@.take(k as int));
                                push_constraint(&mut out, posts[k].duplicate());
                                assert(constraint_views(out@) =~= start + constraint_views(posts@.take(k + 1)));
                                k += 1;
                            }
                            assert(posts@.take(posts@.len() as int) =~= posts@);
                        },
                        None => {},
                    }
                }
            },
            None => {},
        }
        i += 1;
    }
    assert(kids@.take(kids@.len() as int) =~= kids@);
    out
}

fn collect_promoted(node: &Node) -> (r: Vec<(NodeId, ConstraintExpr)>)
    ensures
        fact_views(r@) == node_promoted(*node),
{
    let mut out: Vec<(NodeId, ConstraintExpr)> = Vec::new();
    assert(fact_views(out@) =~= Seq::<(NodeId, ConstraintView)>::empty());
    match &node.context {
        None => out,
        Some(packet) => {
            let fs = &packet.promoted_facts;
            let mut i: usize = 0;
            assert(fs@.take(0) =~= Seq::<PromotedFact>::empty());
            while i < fs.len()
                invariant
                    i <= fs@.len(),
                    fact_views(out@) == promoted_of(fs@.take(i as int)),
                decreases fs.len() - i,
            {
                assert(fs@.take(i + 1).drop_last() =~= fs@.take(i as int));
                let src = fs[i].source_node;
                match &fs[i].parsed {
                    Err(_) => {},
                    Ok(e) => match e {
                        ConstraintExpr::And(children) => {
                            let ghost start = fact_views(out@);
                            let ghost cv = constraint_views(children@);
                            proof {
                                lemma_constraint_views_take(children@, 0);
                            }
                            let mut k: usize = 0;
                            assert(start + cv.take(0).map_values(|c: ConstraintView| (src, c)) =~= start);
                            while k < children.len()
                                invariant
                                    k <= children@.len(),
                                    cv == constraint_views(children@),
                                    cv.len() == children@.len(),
                                    fact_views(out@) == start + cv.take(k as int).map_values(
                                        |c: ConstraintView| (src, c),
                                    ),
                                decreases children.len() - k,
                            {
                                proof {
                                    crate::expr::lemma_constraint_views_index(children@, k as int);
                                }
                                let d = children[k].duplicate();
                                let ghost before = out@;
                                out.push((src, d));
                                assert(fact_views(out@) =~= fact_views(before).push((src, d@)));
                                assert(cv.take(k + 1).map_values(|c: ConstraintView| (src, c)) =~= cv.take(
                                    k as int,
                                ).map_values(|c: ConstraintView| (src, c)).push((src, cv[k as int])));
                                assert(fact_views(out@) =~= start + cv.take(k + 1).map_values(
                                    |c: ConstraintView| (src, c),
                                ));
                                k += 1;
                            }
                            assert(cv.take(children@.len() as int) =~= cv);
                        },
                        _ => {
                            let d = e.duplicate();
                            let ghost before = out@;
                            out.push((src, d));
                            assert(fact_views(out@) =~= fact_views(before).push((src, d@)));
                        },
                    },
                }
                i += 1;
            }
            assert(fs@.take(fs@.len() as int) =~= fs@);
            out
        },
    }
}

/// The state of a verification run over a graph.
pub struct RunView {
    /// The node indices in visiting order.
    pub order: Seq<int>,
    /// How many nodes of `order` are done.
    pub next: int,
    /// The verified postconditions recorded so far, by node index.
    pub verified: Seq<Option<Seq<ConstraintView>>>,
    /// The errors reported so far.
    pub errors: Seq<VerifyErrorView>,
}

/// A verification run over the `Do` nodes of a graph: it visits them in
/// `verification_order`, and a node that finished without a node-fatal
/// error passes its parsed postconditions on to its parent.
pub struct VerificationRun {
    order: Vec<usize>,
    next: usize,
    verified: Vec<Option<Vec<ConstraintExpr>>>,
    errors: Vec<VerifyError>,
}

impl View for VerificationRun {
    type V = RunView;

    closed spec fn view(&self) -> RunView {
        RunView {
            order: ints(self.order@),
            next: self.next as int,
            verified: verified_views(self.verified@),
            errors: verify_error_views(self.errors@),
        }
    }
}

/// `r` is a run over the nodes `nodes`.
pub open spec fn run_fits(r: RunView, nodes: Seq<Node>) -> bool {
    &&& r.verified.len() == nodes.len()
    &&& 0 <= r.next <= r.order.len()
    &&& forall|k: int| 0 <= k < r.order.len() ==> 0 <= #[trigger] r.order[k] < nodes.len()
}

/// The errors of a node leave its postconditions usable by its parent.
pub open spec fn all_encoding_failures(errors: Seq<VerifyErrorView>) -> bool {
    forall|i: int| 0 <= i < errors.len() ==> (#[trigger] errors[i]) is EncodingFailed
}

proof fn lemma_order_in_range(nodes: Seq<Node>, d: int)
    ensures
        forall|k: int|
            0 <= k < do_order_from(nodes, d).len() ==> 0 <= #[trigger] do_order_from(nodes, d)[k]
                < nodes.len(),
    decreases d + 1,
{
    if d >= 0 {
        lemma_do_at_depth_in_range(nodes, d as nat, nodes.len() as int);
        lemma_order_in_range(nodes, d - 1);
        let a = do_at_depth(nodes, d as nat, nodes.len() as int);
        let b = do_order_from(nodes, d - 1);
        assert forall|k: int| 0 <= k < (a + b).len() implies 0 <= #[trigger] (a + b)[k] < nodes.len() by {
            if k < a.len() {
                assert((a + b)[k] == a[k]);
            } else {
                assert((a + b)[k] == b[k - a.len()]);
            }
        }
    }
}

proof fn lemma_do_at_depth_in_range(nodes: Seq<Node>, d: nat, n: int)
    ensures
        forall|k: int|
            0 <= k < do_at_depth(nodes, d, n).len() ==> 0 <= #[trigger] do_at_depth(nodes, d, n)[k]
                < nodes.len() && do_at_depth(nodes, d, n)[k] < n,
    decreases n,
{
    if n > 0 && n <= nodes.len() {
        lemma_do_at_depth_in_range(nodes, d, n - 1);
        let a = do_at_depth(nodes, d, n - 1);
        assert forall|k: int| 0 <= k < do_at_depth(nodes, d, n).len() implies 0
            <= #[trigger] do_at_depth(nodes, d, n)[k] < nodes.len() && do_at_depth(nodes, d, n)[k]
            < n by {
            if k < a.len() {
                assert(do_at_depth(nodes, d, n)[k] == a[k]);
            }
        }
    }
}

impl VerificationRun {
    /// A run that has visited no node yet.
    pub fn new(graph: &AilGraph) -> (r: VerificationRun)
        ensures
            r@.order == verification_order(graph@),
            r@.next == 0,
            r@.verified == Seq::new(graph@.len(), |i: int| None::<Seq<ConstraintView>>),
            r@.errors == Seq::<VerifyErrorView>::empty(),
            run_fits(r@, graph@),
    {
        let order = verification_order_of(graph);
        let mut verified: Vec<Option<Vec<ConstraintExpr>>> = Vec::new();
        let mut i: usize = 0;
        while i < graph.node_count()
            invariant
                i <= graph@.len(),
                verified_views(verified@) == Seq::new(i as nat, |k: int| None::<Seq<ConstraintView>>),
            decreases graph@.len() - i,
        {
            let ghost before = verified@;
            verified.push(None);
            assert(verified@ == before.push(None));
            assert(verified_views(verified@) =~= verified_views(before).push(None));
            assert(verified_views(verified@) =~= Seq::new((i + 1) as nat, |k: int| None::<Seq<ConstraintView>>));
            i += 1;
        }
        let errors: Vec<VerifyError> = Vec::new();
        let r = VerificationRun { order, next: 0, verified, errors };
        assert(r@.errors =~= Seq::<VerifyErrorView>::empty());
        proof {
            lemma_order_in_range(graph@, graph@.len() as int);
        }
        r
    }

    /// The index of the node to verify next, if any is left.
    pub fn current_node(&self) -> (r: Option<usize>)
        ensures
            r matches Some(k) ==> 0 <= self@.next < self@.order.len() && k == self@.order[self@.next],
            r is None ==> !(0 <= self@.next < self@.order.len()),
    {
        if self.next < self.order.len() {
            Some(self.order[self.next])
        } else {
            None
        }
    }

    /// The plan of the node to verify next, with the verified postconditions
    /// of its `Do` children and the facts promoted to it.
    pub fn plan_next(&self, graph: &AilGraph) -> (r: Option<NodePlan>)
        requires
            run_fits(self@, graph@),
        ensures
            r is None <==> self@.next >= self@.order.len(),
            r matches Some(p) ==> self@.next < self@.order.len() && {
                let n = graph@[self@.order[self@.next]];
                is_plan(
                    p,
                    graph@,
                    n,
                    child_posts_of(graph@, self@.verified, children_in(graph@, n.id)),
                    node_promoted(n),
                )
            },
    {
        match self.current_node() {
            None => None,
            Some(k) => {
                assert(self@.order[self@.next] == k);
                let node = &graph.all_nodes()[k];
                let child_posts = collect_child_posts(graph, node.id, &self.verified);
                let promoted = collect_promoted(node);
                Some(plan_do_node(node, graph, &child_posts, &promoted))
            },
        }
    }

    /// Record the errors of the node verified last and move on. Unless one
    /// of them is node-fatal, the node's parsed postconditions become
    /// available to its parent.
    pub fn finish_node(&mut self, graph: &AilGraph, node_errors: Vec<VerifyError>)
        requires
            run_fits(old(self)@, graph@),
            old(self)@.next < old(self)@.order.len(),
        ensures
            run_fits(final(self)@, graph@),
            final(self)@.order == old(self)@.order,
            final(self)@.next == old(self)@.next + 1,
            final(self)@.errors == old(self)@.errors + verify_error_views(node_errors@),
            final(self)@.verified == if all_encoding_failures(verify_error_views(node_errors@)) {
                old(self)@.verified.update(
                    old(self)@.order[old(self)@.next],
                    Some(parsed_posts(graph@[old(self)@.order[old(self)@.next]].contracts@)),
                )
            } else {
                old(self)@.verified
            },
    {
        let k = self.order[self.next];
        let mut fatal = false;
        let mut i: usize = 0;
        while i < node_errors.len()
            invariant
                i <= node_errors@.len(),
                fatal == !all_encoding_failures(verify_error_views(node_errors@.take(i as int))),
            decreases node_errors.len() - i,
        {
            assert(verify_error_views(node_errors@.take(i + 1)) =~= verify_error_views(
                node_errors@.take(i as int),
            ).push(node_errors@[i as int]@));
            let ghost pre = verify_error_views(node_errors@.take(i as int));
            let ghost post = verify_error_views(node_errors@.take(i + 1));
            let f = node_errors[i].is_node_fatal();
            assert(all_encoding_failures(post) == (all_encoding_failures(pre) && !f)) by {
                if all_encoding_failures(pre) && !f {
                    assert forall|j: int| 0 <= j < post.len() implies (#[trigger] post[j]) is EncodingFailed by {
                        if j < pre.len() {
                            assert(post[j] == pre[j]);
                        }
                    }
                }
                if all_encoding_failures(post) {
                    assert(post[i as int] is EncodingFailed);
                    assert forall|j: int| 0 <= j < pre.len() implies (#[trigger] pre[j]) is EncodingFailed by {
                        assert(post[j] == pre[j]);
                    }
                }
            }
            if f {
                fatal = true;
            }
            i += 1;
        }
        assert(node_errors@.take(node_errors@.len() as int) =~= node_errors@);
        if !fatal {
            let posts = parsed_post_exprs(&graph.all_nodes()[k].contracts);
            self.verified.set(k, Some(posts));
            assert(verified_views(self.verified@) =~= verified_views(old(self).verified@).update(
                k as int,
                Some(parsed_posts(graph@[k as int].contracts@)),
            ));
        }
        let mut es = node_errors;
        let ghost before = self.errors@;
        self.errors.append(&mut es);
        assert(verify_error_views(self.errors@) =~= verify_error_views(before) + verify_error_views(
            node_errors@,
        ));
        let len = self.order.len();
        assert(self.next < len);
        self.next = self.next + 1;
    }

    /// The errors reported so far.
    pub fn errors(&self) -> (r: &Vec<VerifyError>)
        ensures
            verify_error_views(r@) == self@.errors,
    {
        &self.errors
    }

    /// The errors of the run.
    pub fn into_errors(self) -> (r: Vec<VerifyError>)
        ensures
            verify_error_views(r@) == self@.errors,
    {
        self.errors
    }
}

/// The errors of a run that visits the nodes `order` of `nodes` in turn,
/// given the answers `a[i]` to the checks of the `i`-th node visited;
/// `None` when the answers do not complete every node's run.
pub open spec fn run_errors(nodes: Seq<Node>, order: Seq<int>, a: Seq<Seq<AnswerView>>) -> Option<
    Seq<VerifyErrorView>,
>
    decreases order.len(),
{
    if a.len() != order.len() {
        None
    } else if order.len() == 0 {
        Some(seq![])
    } else {
        match run_errors(nodes, order.drop_last(), a.drop_last()) {
            None => None,
            Some(e) => {
                let n = nodes[order.last()];
                let out = node_outcome_of(nodes, n, node_promoted(n), a.last());
                if out.1 is Some {
                    None
                } else {
                    Some(e + out.0)
                }
            },
        }
    }
}

// ─── laws of the visiting order ─────────────────────────────────────────────

proof fn lemma_do_at_depth(nodes: Seq<Node>, d: nat, n: int)
    ensures
        forall|k: int|
            0 <= k < do_at_depth(nodes, d, n).len() ==> {
                let x = #[trigger] do_at_depth(nodes, d, n)[k];
                &&& 0 <= x < n
                &&& x < nodes.len()
                &&& nodes[x].pattern == Pattern::Do
                &&& depth_at(nodes, x) == d
            },
        forall|k1: int, k2: int|
            0 <= k1 < k2 < do_at_depth(nodes, d, n).len() ==> #[trigger] do_at_depth(nodes, d, n)[k1]
                < #[trigger] do_at_depth(nodes, d, n)[k2],
        forall|i: int|
            0 <= i < n && n <= nodes.len() && nodes[i].pattern == Pattern::Do && depth_at(nodes, i)
                == d ==> #[trigger] do_at_depth(nodes, d, n).contains(i),
    decreases n,
{
    if n > 0 && n <= nodes.len() {
        lemma_do_at_depth(nodes, d, n - 1);
        let a = do_at_depth(nodes, d, n - 1);
        let b = do_at_depth(nodes, d, n);
        if nodes[n - 1].pattern == Pattern::Do && depth_at(nodes, n - 1) == d {
            assert(b == a.push(n - 1));
            assert forall|k: int| 0 <= k < b.len() implies {
                let x = #[trigger] b[k];
                &&& 0 <= x < n
                &&& x < nodes.len()
                &&& nodes[x].pattern == Pattern::Do
                &&& depth_at(nodes, x) == d
            } by {
                if k < a.len() {
                    assert(b[k] == a[k]);
                }
            }
            assert forall|k1: int, k2: int| 0 <= k1 < k2 < b.len() implies #[trigger] b[k1] < #[trigger] b[k2] by {
                assert(b[k1] == a[k1]);
                if k2 < a.len() {
                    assert(b[k2] == a[k2]);
                }
            }
            assert forall|i: int|
                0 <= i < n && n <= nodes.len() && nodes[i].pattern == Pattern::Do && depth_at(nodes, i)
                    == d implies #[trigger] b.contains(i) by {
                if i < n - 1 {
                    assert(a.contains(i));
                    let k = choose|k: int| 0 <= k < a.len() && a[k] == i;
                    assert(b[k] == a[k]);
                } else {
                    assert(b[b.len() - 1] == i);
                }
            }
        } else {
            assert forall|i: int|
                0 <= i < n && n <= nodes.len() && nodes[i].pattern == Pattern::Do && depth_at(nodes, i)
                    == d implies #[trigger] b.contains(i) by {
                assert(i != n - 1);
                assert(a.contains(i));
            }
        }
    }
}

proof fn lemma_do_order_from(nodes: Seq<Node>, d: int)
    ensures
        forall|k: int|
            0 <= k < do_order_from(nodes, d).len() ==> {
                let x = #[trigger] do_order_from(nodes, d)[k];
                &&& 0 <= x < nodes.len()
                &&& nodes[x].pattern == Pattern::Do
                &&& depth_at(nodes, x) <= d
            },
        forall|k1: int, k2: int|
            0 <= k1 < k2 < do_order_from(nodes, d).len() ==> depth_at(
                nodes,
                #[trigger] do_order_from(nodes, d)[k1],
            ) >= depth_at(nodes, #[trigger] do_order_from(nodes, d)[k2]) && do_order_from(nodes, d)[k1]
                != do_order_from(nodes, d)[k2],
        forall|i: int|
            0 <= i < nodes.len() && nodes[i].pattern == Pattern::Do && depth_at(nodes, i) <= d
                ==> #[trigger] do_order_from(nodes, d).contains(i),
    decreases d + 1,
{
    if d >= 0 {
        lemma_do_order_from(nodes, d - 1);
        lemma_do_at_depth(nodes, d as nat, nodes.len() as int);
        let a = do_at_depth(nodes, d as nat, nodes.len() as int);
        let b = do_order_from(nodes, d - 1);
        let o = do_order_from(nodes, d);
        assert(o == a + b);
        assert forall|k: int| 0 <= k < o.len() implies {
            let x = #[trigger] o[k];
            &&& 0 <= x < nodes.len()
            &&& nodes[x].pattern == Pattern::Do
            &&& depth_at(nodes, x) <= d
        } by {
            if k < a.len() {
                assert(o[k] == a[k]);
            } else {
                assert(o[k] == b[k - a.len()]);
            }
        }
        assert forall|k1: int, k2: int| 0 <= k1 < k2 < o.len() implies depth_at(nodes, #[trigger] o[k1])
            >= depth_at(nodes, #[trigger] o[k2]) && o[k1] != o[k2] by {
            if k2 < a.len() {
                assert(o[k1] == a[k1] && o[k2] == a[k2]);
            } else if k1 < a.len() {
                assert(o[k1] == a[k1] && o[k2] == b[k2 - a.len()]);
            } else {
                assert(o[k1] == b[k1 - a.len()] && o[k2] == b[k2 - a.len()]);
            }
        }
        assert forall|i: int|
            0 <= i < nodes.len() && nodes[i].pattern == Pattern::Do && depth_at(nodes, i) <= d implies #[trigger] o.contains(
            i,
        ) by {
            if depth_at(nodes, i) == d {
                assert(a.contains(i));
                let k = choose|k: int| 0 <= k < a.len() && a[k] == i;
                assert(o[k] == a[k]);
            } else {
                assert(b.contains(i));
                let k = choose|k: int| 0 <= k < b.len() && b[k] == i;
                assert(o[k + a.len()] == b[k]);
            }
        }
    }
}

/// The visiting order holds every `Do` node of the graph exactly once and
/// nothing else, deepest first; so a `Do` node is verified before its `Do`
/// parent, whose check can then use its postconditions.
pub proof fn lemma_verification_order(nodes: Seq<Node>)
    ensures
        forall|k: int|
            0 <= k < verification_order(nodes).len() ==> 0 <= #[trigger] verification_order(nodes)[k]
                < nodes.len() && nodes[verification_order(nodes)[k]].pattern == Pattern::Do,
        forall|i: int|
            0 <= i < nodes.len() && nodes[i].pattern == Pattern::Do ==> #[trigger] verification_order(
                nodes,
            ).contains(i),
        forall|k1: int, k2: int|
            0 <= k1 < k2 < verification_order(nodes).len() ==> #[trigger] verification_order(nodes)[k1]
                != #[trigger] verification_order(nodes)[k2] && depth_at(
                nodes,
                verification_order(nodes)[k1],
            ) >= depth_at(nodes, verification_order(nodes)[k2]),
        parents_first(nodes) ==> forall|k1: int, k2: int|
            0 <= k1 < verification_order(nodes).len() && 0 <= k2 < verification_order(nodes).len()
                && nodes[#[trigger] verification_order(nodes)[k1]].parent is Some && index_of(
                nodes,
                nodes[verification_order(nodes)[k1]].parent->0,
            ) == #[trigger] verification_order(nodes)[k2] ==> k1 < k2,
{
    let o = verification_order(nodes);
    lemma_do_order_from(nodes, nodes.len() as int);
    assert forall|i: int| 0 <= i < nodes.len() && nodes[i].pattern == Pattern::Do implies #[trigger] o.contains(i) by {
        lemma_depth_bound(nodes, i);
    }
    if parents_first(nodes) {
        assert forall|k1: int, k2: int|
            0 <= k1 < o.len() && 0 <= k2 < o.len() && nodes[#[trigger] o[k1]].parent is Some && index_of(
                nodes,
                nodes[o[k1]].parent->0,
            ) == #[trigger] o[k2] implies k1 < k2 by {
            let c = o[k1];
            let j = o[k2];
            assert(0 <= index_of(nodes, nodes[c].parent->0) < c);
            assert(depth_at(nodes, c) == 1 + depth_at(nodes, j));
            if k2 < k1 {
                assert(depth_at(nodes, o[k2]) >= depth_at(nodes, o[k1]));
            }
        }
    }
}

// ─── laws of counterexamples ────────────────────────────────────────────────

/// Pairs ordered by name.
pub open spec fn sorted_by_name(s: ModelView) -> bool {
    forall|i: int, j: int| 0 <= i < j < s.len() ==> !text_lt((#[trigger] s[j]).0, (#[trigger] s[i]).0)
}

/// The pairs of a counterexample are ordered by name and are those of the
/// model, none lost or added.
pub proof fn lemma_sort_by_name(s: ModelView)
    ensures
        sorted_by_name(sort_by_name(s)),
        sort_by_name(s).to_multiset() == s.to_multiset(),
    decreases s.len(),
{
    if s.len() > 0 {
        let prev = s.drop_last();
        lemma_sort_by_name(prev);
        let t = sort_by_name(prev);
        let x = s.last();
        let p = first_after(t, x.0);
        lemma_first_after(t, x.0);
        let u = t.insert(p, x);
        assert(sort_by_name(s) == u);
        assert forall|i: int, j: int| 0 <= i < j < u.len() implies !text_lt((#[trigger] u[j]).0, (#[trigger] u[i]).0) by {
            if j < p {
                assert(u[i] == t[i] && u[j] == t[j]);
            } else if j == p {
                assert(u[i] == t[i]);
            } else if i < p {
                assert(u[i] == t[i] && u[j] == t[j - 1]);
                if text_lt(t[j - 1].0, t[i].0) {
                    assert(!text_lt(t[j - 1].0, t[i].0));
                }
            } else if i == p {
                assert(u[j] == t[j - 1]);
                assert(text_lt(x.0, t[p].0));
                if text_lt(t[j - 1].0, x.0) {
                    lemma_text_lt_trans(t[j - 1].0, x.0, t[p].0);
                    if j - 1 > p {
                        assert(!text_lt(t[j - 1].0, t[p].0));
                    } else {
                        lemma_text_lt_total(t[p].0, t[p].0);
                    }
                }
            } else {
                assert(u[i] == t[i - 1] && u[j] == t[j - 1]);
            }
        }
        vstd::seq_lib::to_multiset_insert(t, p, x);
        assert(s =~= prev.push(x));
        prev.to_multiset_ensures();
    }
}

} // verus!
