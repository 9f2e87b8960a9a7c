//! Static contract checks: scope of before- and after-contracts, `old(..)`
//! placement, raised errors, template phases, and parse failures.

use vstd::prelude::*;

use crate::model::{
    children_in, index_of, lemma_index_of_bounds, named_in, AilGraph, Contract, ContractKind, Node,
    NodeId, Pattern, ScopeVariable, ScopeVariableKind,
};
use crate::scope::{check_has_old, collect_top_level_refs, constraint_has_old, top_level_refs};
use crate::text::{first_token, first_token_of, vec_contains, views};

verus! {

/// A contract-level error found by the static checks.
#[derive(Debug)]
pub enum ContractError {
    /// A before-contract names a variable that is not an input parameter.
    BeforeContractIllegalRef { node_id: NodeId, contract_expr: String, illegal_ref: String },
    /// A before-contract uses `old(..)`.
    BeforeContractUsesOld { node_id: NodeId, contract_expr: String },
    /// An after-contract names a variable that is neither a parameter nor `result`.
    AfterContractIllegalRef { node_id: NodeId, contract_expr: String, illegal_ref: String },
    /// A raise names an error that the enclosing function does not declare.
    RaiseUnknownError { node_id: NodeId, error_name: String, known_errors: Vec<String> },
    /// A function following a template lacks one of the template's phases.
    FollowingMissingPhase { node_id: NodeId, template_name: String, missing_phase: String },
    /// A contract's text did not parse.
    ContractParseError { node_id: NodeId, contract_expr: String, message: String },
}

/// The content of a `ContractError`, with texts as character sequences.
pub enum ContractErrorView {
    BeforeContractIllegalRef { node_id: NodeId, contract_expr: Seq<char>, illegal_ref: Seq<char> },
    BeforeContractUsesOld { node_id: NodeId, contract_expr: Seq<char> },
    AfterContractIllegalRef { node_id: NodeId, contract_expr: Seq<char>, illegal_ref: Seq<char> },
    RaiseUnknownError { node_id: NodeId, error_name: Seq<char>, known_errors: Seq<Seq<char>> },
    FollowingMissingPhase { node_id: NodeId, template_name: Seq<char>, missing_phase: Seq<char> },
    ContractParseError { node_id: NodeId, contract_expr: Seq<char>, message: Seq<char> },
}

impl View for ContractError {
    type V = ContractErrorView;

    open spec fn view(&self) -> ContractErrorView {
        match self {
            ContractError::BeforeContractIllegalRef { node_id, contract_expr, illegal_ref } =>
                ContractErrorView::BeforeContractIllegalRef {
                node_id: *node_id,
                contract_expr: contract_expr@,
                illegal_ref: illegal_ref@,
            },
            ContractError::BeforeContractUsesOld { node_id, contract_expr } =>
                ContractErrorView::BeforeContractUsesOld {
                node_id: *node_id,
                contract_expr: contract_expr@,
            },
            ContractError::AfterContractIllegalRef { node_id, contract_expr, illegal_ref } =>
                ContractErrorView::AfterContractIllegalRef {
                node_id: *node_id,
                contract_expr: contract_expr@,
                illegal_ref: illegal_ref@,
            },
            ContractError::RaiseUnknownError { node_id, error_name, known_errors } =>
                ContractErrorView::RaiseUnknownError {
                node_id: *node_id,
                error_name: error_name@,
                known_errors: views(known_errors@),
            },
            ContractError::FollowingMissingPhase { node_id, template_name, missing_phase } =>
                ContractErrorView::FollowingMissingPhase {
                node_id: *node_id,
                template_name: template_name@,
                missing_phase: missing_phase@,
            },
            ContractError::ContractParseError { node_id, contract_expr, message } =>
                ContractErrorView::ContractParseError {
                node_id: *node_id,
                contract_expr: contract_expr@,
                message: message@,
            },
        }
    }
}

fn copy_strings(v: &Vec<String>) -> (r: Vec<String>)
    ensures
        views(r@) == views(v@),
{
    let mut out: Vec<String> = Vec::new();
    let mut i: usize = 0;
    while i < v.len()
        invariant
            i <= v@.len(),
            views(out@) == views(v@.take(i as int)),
        decreases v.len() - i,
    {
        let ghost before = out@;
        out.push(v[i].clone());
        assert(views(out@) =~= views(before).push(v@[i as int]@));
        assert(views(v@.take(i + 1)) =~= views(v@.take(i as int)).push(v@[i as int]@));
        i += 1;
    }
    assert(v@.take(v@.len() as int) =~= v@);
    out
}

impl ContractError {
    /// A copy of the error.
    pub fn duplicate(&self) -> (r: ContractError)
        ensures
            r@ == self@,
    {
        match self {
            ContractError::BeforeContractIllegalRef { node_id, contract_expr, illegal_ref } =>
                ContractError::BeforeContractIllegalRef {
                node_id: *node_id,
                contract_expr: contract_expr.clone(),
                illegal_ref: illegal_ref.clone(),
            },
            ContractError::BeforeContractUsesOld { node_id, contract_expr } =>
                ContractError::BeforeContractUsesOld {
                node_id: *node_id,
                contract_expr: contract_expr.clone(),
            },
            ContractError::AfterContractIllegalRef { node_id, contract_expr, illegal_ref } =>
                ContractError::AfterContractIllegalRef {
                node_id: *node_id,
                contract_expr: contract_expr.clone(),
                illegal_ref: illegal_ref.clone(),
            },
            ContractError::RaiseUnknownError { node_id, error_name, known_errors } =>
                ContractError::RaiseUnknownError {
                node_id: *node_id,
                error_name: error_name.clone(),
                known_errors: copy_strings(known_errors),
            },
            ContractError::FollowingMissingPhase { node_id, template_name, missing_phase } =>
                ContractError::FollowingMissingPhase {
                node_id: *node_id,
                template_name: template_name.clone(),
                missing_phase: missing_phase.clone(),
            },
            ContractError::ContractParseError { node_id, contract_expr, message } =>
                ContractError::ContractParseError {
                node_id: *node_id,
                contract_expr: contract_expr.clone(),
                message: message.clone(),
            },
        }
    }
}

/// The views of a sequence of errors.
pub open spec fn error_views(s: Seq<ContractError>) -> Seq<ContractErrorView> {
    s.map_values(|e: ContractError| e@)
}

// ─── scope ──────────────────────────────────────────────────────────────────

/// Names of the `Parameter` variables of a scope, in order.
pub open spec fn scope_params(scope: Seq<ScopeVariable>) -> Seq<Seq<char>>
    decreases scope.len(),
{
    if scope.len() == 0 {
        seq![]
    } else if scope.last().kind == ScopeVariableKind::Parameter {
        scope_params(scope.drop_last()).push(scope.last().name@)
    } else {
        scope_params(scope.drop_last())
    }
}

/// The parameter names visible to `node` (none when it has no context).
pub open spec fn parameter_scope(node: Node) -> Seq<Seq<char>> {
    match node.context {
        Some(p) => scope_params(p.scope@),
        None => seq![],
    }
}

/// The names an after-contract of `node` may use: its parameters and `result`.
pub open spec fn after_scope(node: Node) -> Seq<Seq<char>> {
    parameter_scope(node).push("result"@)
}

// ─── before / after contracts ───────────────────────────────────────────────

/// One `BeforeContractIllegalRef` per reference not in `allowed`, in order.
pub open spec fn illegal_before(
    id: NodeId,
    text: Seq<char>,
    refs: Seq<Seq<char>>,
    allowed: Seq<Seq<char>>,
) -> Seq<ContractErrorView>
    decreases refs.len(),
{
    if refs.len() == 0 {
        seq![]
    } else if allowed.contains(refs.last()) {
        illegal_before(id, text, refs.drop_last(), allowed)
    } else {
        illegal_before(id, text, refs.drop_last(), allowed).push(
            ContractErrorView::BeforeContractIllegalRef {
                node_id: id,
                contract_expr: text,
                illegal_ref: refs.last(),
            },
        )
    }
}

/// One `AfterContractIllegalRef` per reference not in `allowed`, in order.
pub open spec fn illegal_after(
    id: NodeId,
    text: Seq<char>,
    refs: Seq<Seq<char>>,
    allowed: Seq<Seq<char>>,
) -> Seq<ContractErrorView>
    decreases refs.len(),
{
    if refs.len() == 0 {
        seq![]
    } else if allowed.contains(refs.last()) {
        illegal_after(id, text, refs.drop_last(), allowed)
    } else {
        illegal_after(id, text, refs.drop_last(), allowed).push(
            ContractErrorView::AfterContractIllegalRef {
                node_id: id,
                contract_expr: text,
                illegal_ref: refs.last(),
            },
        )
    }
}

/// The errors of one before-contract: a parse error; or `BeforeContractUsesOld`
/// (and nothing more) when it uses `old(..)`; or one error per reference that
/// is not an input parameter.
pub open spec fn before_contract_errors(id: NodeId, c: Contract, allowed: Seq<Seq<char>>) -> Seq<
    ContractErrorView,
> {
    match c.parsed {
        Err(m) => seq![
            ContractErrorView::ContractParseError {
                node_id: id,
                contract_expr: c.expression@,
                message: m@,
            },
        ],
        Ok(e) => if constraint_has_old(e@) {
            seq![
                ContractErrorView::BeforeContractUsesOld {
                    node_id: id,
                    contract_expr: c.expression@,
                },
            ]
        } else {
            illegal_before(id, c.expression@, top_level_refs(e@), allowed)
        },
    }
}

/// The errors of one after-contract: a parse error, or one error per
/// top-level reference outside `allowed` (references inside `old(..)` are
/// always allowed).
pub open spec fn after_contract_errors(id: NodeId, c: Contract, allowed: Seq<Seq<char>>) -> Seq<
    ContractErrorView,
> {
    match c.parsed {
        Err(m) => seq![
            ContractErrorView::ContractParseError {
                node_id: id,
                contract_expr: c.expression@,
                message: m@,
            },
        ],
        Ok(e) => illegal_after(id, c.expression@, top_level_refs(e@), allowed),
    }
}

/// The errors of all before-contracts among `cs`, in order.
pub open spec fn before_errors(id: NodeId, cs: Seq<Contract>, allowed: Seq<Seq<char>>) -> Seq<
    ContractErrorView,
>
    decreases cs.len(),
{
    if cs.len() == 0 {
        seq![]
    } else if cs.last().kind == ContractKind::Before {
        before_errors(id, cs.drop_last(), allowed) + before_contract_errors(id, cs.last(), allowed)
    } else {
        before_errors(id, cs.drop_last(), allowed)
    }
}

/// The errors of all after-contracts among `cs`, in order.
pub open spec fn after_errors(id: NodeId, cs: Seq<Contract>, allowed: Seq<Seq<char>>) -> Seq<
    ContractErrorView,
>
    decreases cs.len(),
{
    if cs.len() == 0 {
        seq![]
    } else if cs.last().kind == ContractKind::After {
        after_errors(id, cs.drop_last(), allowed) + after_contract_errors(id, cs.last(), allowed)
    } else {
        after_errors(id, cs.drop_last(), allowed)
    }
}

/// The parameter names visible to `node`, from its context packet.
pub fn build_parameter_scope(node: &Node) -> (r: Vec<String>)
    ensures
        views(r@) == parameter_scope(*node),
{
    let mut out: Vec<String> = Vec::new();
    match &node.context {
        None => {
            assert(views(out@) =~= seq![]);
        },
        Some(packet) => {
            let scope = &packet.scope;
            let mut i: usize = 0;
            while i < scope.len()
                invariant
                    i <= scope@.len(),
                    views(out@) == scope_params(scope@.take(i as int)),
                decreases scope.len() - i,
            {
                assert(scope@.take(i + 1).drop_last() =~= scope@.take(i as int));
                if scope[i].kind == ScopeVariableKind::Parameter {
                    out.push(scope[i].name.clone());
                }
                assert(views(out@) =~= scope_params(scope@.take(i + 1)));
                i += 1;
            }
            assert(scope@.take(scope@.len() as int) =~= scope@);
        },
    }
    out
}

/// The names allowed in after-contracts of `node`: parameters and `result`.
pub fn build_after_allowed_set(node: &Node) -> (r: Vec<String>)
    ensures
        views(r@) == after_scope(*node),
{
    let mut out = build_parameter_scope(node);
    let ghost before = out@;
    out.push(String::from_str("result"));
    assert(views(out@) =~= views(before).push("result"@));
    out
}

fn push_error(errors: &mut Vec<ContractError>, e: ContractError)
    ensures
        error_views(final(errors)@) == error_views(old(errors)@).push(e@),
{
    errors.push(e);
    assert(error_views(errors@) =~= error_views(old(errors)@).push(e@));
}

fn push_illegal_refs(
    errors: &mut Vec<ContractError>,
    id: NodeId,
    text: &String,
    refs: &Vec<String>,
    allowed: &Vec<String>,
    before: bool,
)
    ensures
        error_views(final(errors)@) == error_views(old(errors)@) + (if before {
            illegal_before(id, text@, views(refs@), views(allowed@))
        } else {
            illegal_after(id, text@, views(refs@), views(allowed@))
        }),
{
    let ghost start = error_views(errors@);
    let mut k: usize = 0;
    while k < refs.len()
        invariant
            k <= refs@.len(),
            error_views(errors@) == start + (if before {
                illegal_before(id, text@, views(refs@.take(k as int)), views(allowed@))
            } else {
                illegal_after(id, text@, views(refs@.take(k as int)), views(allowed@))
            }),
        decreases refs.len() - k,
    {
        assert(views(refs@.take(k + 1)).drop_last() =~= views(refs@.take(k as int)));
        assert(views(refs@.take(k + 1)).last() == refs@[k as int]@);
        if !vec_contains(allowed, &refs[k]) {
            let e = if before {
                ContractError::BeforeContractIllegalRef {
                    node_id: id,
                    contract_expr: text.clone(),
                    illegal_ref: refs[k].clone(),
                }
            } else {
                ContractError::AfterContractIllegalRef {
                    node_id: id,
                    contract_expr: text.clone(),
                    illegal_ref: refs[k].clone(),
                }
            };
            push_error(errors, e);
        }
        k += 1;
    }
    assert(refs@.take(refs@.len() as int) =~= refs@);
}

/// Check every before-contract of `node`: no `old(..)`, and only input
/// parameters may be referenced. Errors are appended to `errors`.
pub fn check_before_contracts(node: &Node, errors: &mut Vec<ContractError>)
    ensures
        error_views(final(errors)@) == error_views(old(errors)@) + before_errors(
            node.id,
            node.contracts@,
            parameter_scope(*node),
        ),
{
    let allowed = build_parameter_scope(node);
    let ghost start = error_views(errors@);
    let mut i: usize = 0;
    while i < node.contracts.len()
        invariant
            i <= node.contracts@.len(),
            views(allowed@) == parameter_scope(*node),
            error_views(errors@) == start + before_errors(
                node.id,
                node.contracts@.take(i as int),
                parameter_scope(*node),
            ),
        decreases node.contracts.len() - i,
    {
        assert(node.contracts@.take(i + 1).drop_last() =~= node.contracts@.take(i as int));
        let c = &node.contracts[i];
        if c.kind == ContractKind::Before {
            let ghost mid = error_views(errors@);
            match &c.parsed {
                Err(m) => {
                    push_error(
                        errors,
                        ContractError::ContractParseError {
                            node_id: node.id,
                            contract_expr: c.expression.clone(),
                            message: m.clone(),
                        },
                    );
                },
                Ok(e) => {
                    if check_has_old(e) {
                        push_error(
                            errors,
                            ContractError::BeforeContractUsesOld {
                                node_id: node.id,
                                contract_expr: c.expression.clone(),
                            },
                        );
                    } else {
                        let refs = collect_top_level_refs(e);
                        push_illegal_refs(errors, node.id, &c.expression, &refs, &allowed, true);
                    }
                },
            }
            assert(error_views(errors@) =~= mid + before_contract_errors(
                node.id,
                *c,
                parameter_scope(*node),
            ));
        }
        i += 1;
    }
    assert(node.contracts@.take(node.contracts@.len() as int) =~= node.contracts@);
}

/// Check every after-contract of `node`: top-level references (outside
/// `old(..)`) must be input parameters or `result`. Errors are appended.
pub fn check_after_contracts(node: &Node, errors: &mut Vec<ContractError>)
    ensures
        error_views(final(errors)@) == error_views(old(errors)@) + after_errors(
            node.id,
            node.contracts@,
            after_scope(*node),
        ),
{
    let allowed = build_after_allowed_set(node);
    let ghost start = error_views(errors@);
    let mut i: usize = 0;
    while i < node.contracts.len()
        invariant
            i <= node.contracts@.len(),
            views(allowed@) == after_scope(*node),
            error_views(errors@) == start + after_errors(
                node.id,
                node.contracts@.take(i as int),
                after_scope(*node),
            ),
        decreases node.contracts.len() - i,
    {
        assert(node.contracts@.take(i + 1).drop_last() =~= node.contracts@.take(i as int));
        let c = &node.contracts[i];
        if c.kind == ContractKind::After {
            let ghost mid = error_views(errors@);
            match &c.parsed {
                Err(m) => {
                    push_error(
                        errors,
                        ContractError::ContractParseError {
                            node_id: node.id,
                            contract_expr: c.expression.clone(),
                            message: m.clone(),
                        },
                    );
                },
                Ok(e) => {
                    let refs = collect_top_level_refs(e);
                    push_illegal_refs(errors, node.id, &c.expression, &refs, &allowed, false);
                },
            }
            assert(error_views(errors@) =~= mid + after_contract_errors(
                node.id,
                *c,
                after_scope(*node),
            ));
        }
        i += 1;
    }
    assert(node.contracts@.take(node.contracts@.len() as int) =~= node.contracts@);
}

// ─── raise ──────────────────────────────────────────────────────────────────

/// The nearest ancestor `Do` of the node at index `i`, walking parents.
pub open spec fn enclosing_do_at(nodes: Seq<Node>, i: int) -> Option<NodeId>
    decreases i,
{
    if i < 0 || i >= nodes.len() {
        None
    } else {
        match nodes[i].parent {
            None => None,
            Some(p) => {
                let j = index_of(nodes, p);
                if j < 0 {
                    None
                } else if nodes[j].pattern == Pattern::Do {
                    Some(p)
                } else if j < i {
                    enclosing_do_at(nodes, j)
                } else {
                    None
                }
            },
        }
    }
}

/// Names of the `Error` nodes among `targets`, in order.
pub open spec fn declared_in(nodes: Seq<Node>, targets: Seq<NodeId>) -> Seq<Seq<char>>
    decreases targets.len(),
{
    if targets.len() == 0 {
        seq![]
    } else {
        let k = index_of(nodes, targets.last());
        let rest = declared_in(nodes, targets.drop_last());
        if k >= 0 && nodes[k].pattern == Pattern::Error && nodes[k].metadata.name is Some {
            rest.push(nodes[k].metadata.name->0@)
        } else {
            rest
        }
    }
}

/// The errors that the `Do` node `do_id` declares through its diagonal refs.
pub open spec fn declared_errors(nodes: Seq<Node>, do_id: NodeId) -> Seq<Seq<char>> {
    let k = index_of(nodes, do_id);
    if k >= 0 {
        declared_in(nodes, nodes[k].diagonal_refs@)
    } else {
        seq![]
    }
}

/// The error of a `Raise` node whose first token names an error that the
/// enclosing `Do` does not declare; nothing when it has no expression or no
/// enclosing `Do`.
pub open spec fn raise_errors(nodes: Seq<Node>, node: Node) -> Seq<ContractErrorView> {
    match node.expression {
        None => seq![],
        Some(text) => match first_token(text@) {
            None => seq![],
            Some(name) => match enclosing_do_at(nodes, index_of(nodes, node.id)) {
                None => seq![],
                Some(d) => {
                    let known = declared_errors(nodes, d);
                    if known.contains(name) {
                        seq![]
                    } else {
                        seq![
                            ContractErrorView::RaiseUnknownError {
                                node_id: node.id,
                                error_name: name,
                                known_errors: known,
                            },
                        ]
                    }
                },
            },
        },
    }
}

/// The error name of a raise expression: its first whitespace-delimited token.
pub fn extract_error_name(expr: &String) -> (r: Option<String>)
    ensures
        r matches Some(t) ==> first_token(expr@) == Some(t@),
        r is None ==> first_token(expr@) is None,
{
    first_token_of(expr.as_str())
}

/// Walk up the parents of `start_id` until a `Do` node is reached.
pub fn find_enclosing_do(graph: &AilGraph, start_id: NodeId) -> (r: Option<NodeId>)
    ensures
        r == enclosing_do_at(graph@, index_of(graph@, start_id)),
{
    graph.assert_well_formed();
    let nodes = graph.all_nodes();
    let ghost start = index_of(graph@, start_id);
    let mut cur = graph.index_of(start_id);
    proof {
        lemma_index_of_bounds(graph@, start_id);
    }
    loop
        invariant
            nodes@ == graph@,
            crate::model::parents_first(nodes@),
            start == index_of(graph@, start_id),
            match cur {
                Some(k) => 0 <= k < nodes@.len() && enclosing_do_at(nodes@, k as int)
                    == enclosing_do_at(nodes@, start),
                None => enclosing_do_at(nodes@, start) is None,
            },
        decreases
            match cur {
                Some(k) => k + 1,
                None => 0,
            },
    {
        match cur {
            None => {
                return None;
            },
            Some(k) => {
                match nodes[k].parent {
                    None => {
                        return None;
                    },
                    Some(p) => {
                        proof {
                            assert(nodes@[k as int].parent is Some);
                            lemma_index_of_bounds(nodes@, p);
                        }
                        match graph.index_of(p) {
                            None => {
                                return None;
                            },
                            Some(j) => {
                                if nodes[j].pattern == Pattern::Do {
                                    return Some(p);
                                }
                                cur = Some(j);
                            },
                        }
                    },
                }
            },
        }
    }
}

/// Names of the `Error` nodes reachable by outgoing diagonal refs of `do_id`.
pub fn collect_declared_errors(graph: &AilGraph, do_id: NodeId) -> (r: Vec<String>)
    ensures
        views(r@) == declared_errors(graph@, do_id),
{
    let mut out: Vec<String> = Vec::new();
    match graph.get_node(do_id) {
        None => {
            assert(views(out@) =~= seq![]);
        },
        Some(d) => {
            let targets = &d.diagonal_refs;
            let mut i: usize = 0;
            while i < targets.len()
                invariant
                    i <= targets@.len(),
                    views(out@) == declared_in(graph@, targets@.take(i as int)),
                decreases targets.len() - i,
            {
                assert(targets@.take(i + 1).drop_last() =~= targets@.take(i as int));
                proof {
                    lemma_index_of_bounds(graph@, targets@[i as int]);
                }
                match graph.get_node(targets[i]) {
                    Some(t) => {
                        if t.pattern == Pattern::Error {
                            match &t.metadata.name {
                                Some(n) => {
                                    out.push(n.clone());
                                },
                                None => {},
                            }
                        }
                    },
                    None => {},
                }
                assert(views(out@) =~= declared_in(graph@, targets@.take(i + 1)));
                i += 1;
            }
            assert(targets@.take(targets@.len() as int) =~= targets@);
        },
    }
    out
}

/// Check that a `Raise` node names an error declared by its enclosing `Do`.
pub fn check_raise_error_refs(graph: &AilGraph, node: &Node, errors: &mut Vec<ContractError>)
    ensures
        error_views(final(errors)@) == error_views(old(errors)@) + raise_errors(graph@, *node),
{
    let text = match &node.expression {
        Some(t) => t,
        None => {
            assert(error_views(errors@) =~= error_views(old(errors)@) + seq![]);
            return ;
        },
    };
    let error_name = match extract_error_name(text) {
        Some(n) => n,
        None => {
            assert(error_views(errors@) =~= error_views(old(errors)@) + seq![]);
            return ;
        },
    };
    let enclosing = match find_enclosing_do(graph, node.id) {
        Some(d) => d,
        None => {
            assert(error_views(errors@) =~= error_views(old(errors)@) + seq![]);
            return ;
        },
    };
    let known_errors = collect_declared_errors(graph, enclosing);
    if !vec_contains(&known_errors, &error_name) {
        push_error(
            errors,
            ContractError::RaiseUnknownError { node_id: node.id, error_name, known_errors },
        );
    } else {
        assert(error_views(errors@) =~= error_views(old(errors)@) + seq![]);
    }
}

// ─── template phases ────────────────────────────────────────────────────────

/// Names of the nodes among `ids` that exist and are named, in order.
pub open spec fn names_of(nodes: Seq<Node>, ids: Seq<NodeId>) -> Seq<Seq<char>>
    decreases ids.len(),
{
    if ids.len() == 0 {
        seq![]
    } else {
        let k = index_of(nodes, ids.last());
        let rest = names_of(nodes, ids.drop_last());
        if k >= 0 && nodes[k].metadata.name is Some {
            rest.push(nodes[k].metadata.name->0@)
        } else {
            rest
        }
    }
}

/// `s` with later repetitions removed.
pub open spec fn distinct(s: Seq<Seq<char>>) -> Seq<Seq<char>>
    decreases s.len(),
{
    if s.len() == 0 {
        seq![]
    } else if distinct(s.drop_last()).contains(s.last()) {
        distinct(s.drop_last())
    } else {
        distinct(s.drop_last()).push(s.last())
    }
}

/// One `FollowingMissingPhase` per phase of `required` not in `implemented`.
pub open spec fn missing_phase_errors(
    id: NodeId,
    template: Seq<char>,
    required: Seq<Seq<char>>,
    implemented: Seq<Seq<char>>,
) -> Seq<ContractErrorView>
    decreases required.len(),
{
    if required.len() == 0 {
        seq![]
    } else if implemented.contains(required.last()) {
        missing_phase_errors(id, template, required.drop_last(), implemented)
    } else {
        missing_phase_errors(id, template, required.drop_last(), implemented).push(
            ContractErrorView::FollowingMissingPhase {
                node_id: id,
                template_name: template,
                missing_phase: required.last(),
            },
        )
    }
}

/// Missing-phase errors against each template node among `templates`.
pub open spec fn template_errors(
    nodes: Seq<Node>,
    id: NodeId,
    template: Seq<char>,
    templates: Seq<NodeId>,
) -> Seq<ContractErrorView>
    decreases templates.len(),
{
    if templates.len() == 0 {
        seq![]
    } else {
        template_errors(nodes, id, template, templates.drop_last()) + missing_phase_errors(
            id,
            template,
            distinct(names_of(nodes, children_in(nodes, templates.last()))),
            names_of(nodes, children_in(nodes, id)),
        )
    }
}

/// The template-phase errors of a `Do` node that follows a template: every
/// (distinct) named child of each node named like the template must have a
/// namesake among the node's named children. Nodes that use a shared pattern
/// are exempt.
pub open spec fn following_errors(nodes: Seq<Node>, node: Node) -> Seq<ContractErrorView> {
    if node.metadata.using_pattern_name is Some {
        seq![]
    } else {
        match node.metadata.following_template_name {
            None => seq![],
            Some(t) => template_errors(nodes, node.id, t@, named_in(nodes, t@)),
        }
    }
}

/// Names of the named children of `node_id`, in order.
pub fn collect_named_children(graph: &AilGraph, node_id: NodeId) -> (r: Vec<String>)
    ensures
        views(r@) == names_of(graph@, children_in(graph@, node_id)),
{
    let kids = graph.children(node_id);
    let mut out: Vec<String> = Vec::new();
    let mut i: usize = 0;
    while i < kids.len()
        invariant
            i <= kids@.len(),
            kids@ == children_in(graph@, node_id),
            views(out@) == names_of(graph@, kids@.take(i as int)),
        decreases kids.len() - i,
    {
        assert(kids@.take(i + 1).drop_last() =~= kids@.take(i as int));
        proof {
            lemma_index_of_bounds(graph@, kids@[i as int]);
        }
        match graph.get_node(kids[i]) {
            Some(c) => {
                match &c.metadata.name {
                    Some(n) => {
                        out.push(n.clone());
                    },
                    None => {},
                }
            },
            None => {},
        }
        assert(views(out@) =~= names_of(graph@, kids@.take(i + 1)));
        i += 1;
    }
    assert(kids@.take(kids@.len() as int) =~= kids@);
    out
}

fn distinct_names(v: &Vec<String>) -> (r: Vec<String>)
    ensures
        views(r@) == distinct(views(v@)),
{
    let mut out: Vec<String> = Vec::new();
    let mut i: usize = 0;
    while i < v.len()
        invariant
            i <= v@.len(),
            views(out@) == distinct(views(v@.take(i as int))),
        decreases v.len() - i,
    {
        assert(views(v@.take(i + 1)).drop_last() =~= views(v@.take(i as int)));
        assert(views(v@.take(i + 1)).last() == v@[i as int]@);
        if !vec_contains(&out, &v[i]) {
            out.push(v[i].clone());
        }
        assert(views(out@) =~= distinct(views(v@.take(i + 1))));
        i += 1;
    }
    assert(v@.take(v@.len() as int) =~= v@);
    out
}

/// Check that a `Do` node following a template provides all of its phases.
pub fn check_following_template_phases(
    graph: &AilGraph,
    node: &Node,
    errors: &mut Vec<ContractError>,
)
    ensures
        error_views(final(errors)@) == error_views(old(errors)@) + following_errors(
            graph@,
            *node,
        ),
{
    if node.metadata.using_pattern_name.is_some() {
        assert(error_views(errors@) =~= error_views(old(errors)@) + seq![]);
        return ;
    }
    let template_name = match &node.metadata.following_template_name {
        Some(t) => t,
        None => {
            assert(error_views(errors@) =~= error_views(old(errors)@) + seq![]);
            return ;
        },
    };
    let template_ids = graph.find_by_name(template_name);
    let implemented = collect_named_children(graph, node.id);
    let ghost start = error_views(errors@);
    let mut t: usize = 0;
    while t < template_ids.len()
        invariant
            t <= template_ids@.len(),
            template_ids@ == named_in(graph@, template_name@),
            views(implemented@) == names_of(graph@, children_in(graph@, node.id)),
            error_views(errors@) == start + template_errors(
                graph@,
                node.id,
                template_name@,
                template_ids@.take(t as int),
            ),
        decreases template_ids.len() - t,
    {
        assert(template_ids@.take(t + 1).drop_last() =~= template_ids@.take(t as int));
        let required = distinct_names(&collect_named_children(graph, template_ids[t]));
        let ghost mid = error_views(errors@);
        let mut k: usize = 0;
        while k < required.len()
            invariant
                k <= required@.len(),
                views(implemented@) == names_of(graph@, children_in(graph@, node.id)),
                error_views(errors@) == mid + missing_phase_errors(
                    node.id,
                    template_name@,
                    views(required@.take(k as int)),
                    views(implemented@),
                ),
            decreases required.len() - k,
        {
            assert(views(required@.take(k + 1)).drop_last() =~= views(required@.take(k as int)));
            assert(views(required@.take(k + 1)).last() == required@[k as int]@);
            if !vec_contains(&implemented, &required[k]) {
                push_error(
                    errors,
                    ContractError::FollowingMissingPhase {
                        node_id: node.id,
                        template_name: template_name.clone(),
                        missing_phase: required[k].clone(),
                    },
                );
            }
            k += 1;
        }
        assert(required@.take(required@.len() as int) =~= required@);
        assert(error_views(errors@) =~= start + template_errors(
            graph@,
            node.id,
            template_name@,
            template_ids@.take(t + 1),
        ));
        t += 1;
    }
    assert(template_ids@.take(template_ids@.len() as int) =~= template_ids@);
}

// ─── all checks ─────────────────────────────────────────────────────────────

/// All static errors of one node, in the order the checks run.
pub open spec fn node_errors(nodes: Seq<Node>, node: Node) -> Seq<ContractErrorView> {
    before_errors(node.id, node.contracts@, parameter_scope(node)) + after_errors(
        node.id,
        node.contracts@,
        after_scope(node),
    ) + (if node.pattern == Pattern::Raise {
        raise_errors(nodes, node)
    } else {
        seq![]
    }) + (if node.pattern == Pattern::Do {
        following_errors(nodes, node)
    } else {
        seq![]
    })
}

/// Static errors of the nodes `ns` of graph `nodes`, node by node.
pub open spec fn static_errors_of(nodes: Seq<Node>, ns: Seq<Node>) -> Seq<ContractErrorView>
    decreases ns.len(),
{
    if ns.len() == 0 {
        seq![]
    } else {
        static_errors_of(nodes, ns.drop_last()) + node_errors(nodes, ns.last())
    }
}

/// Every static contract error of the graph.
pub open spec fn static_errors(nodes: Seq<Node>) -> Seq<ContractErrorView> {
    static_errors_of(nodes, nodes)
}

/// Run all static contract checks over every node of `graph` and return the
/// errors found; an empty result means every contract passed. Errors on one
/// node do not stop the checks on the others.
pub fn check_static_contracts(graph: &AilGraph) -> (errors: Vec<ContractError>)
    ensures
        error_views(errors@) == static_errors(graph@),
{
    let nodes = graph.all_nodes();
    let mut errors: Vec<ContractError> = Vec::new();
    let mut i: usize = 0;
    while i < nodes.len()
        invariant
            nodes@ == graph@,
            i <= nodes@.len(),
            error_views(errors@) == static_errors_of(graph@, nodes@.take(i as int)),
        decreases nodes.len() - i,
    {
        assert(nodes@.take(i + 1).drop_last() =~= nodes@.take(i as int));
        let node = &nodes[i];
        let ghost mid = error_views(errors@);
        check_before_contracts(node, &mut errors);
        check_after_contracts(node, &mut errors);
        let ghost after_scopes = error_views(errors@);
        if node.pattern == Pattern::Raise {
            check_raise_error_refs(graph, node, &mut errors);
        }
        let ghost after_raise = error_views(errors@);
        if node.pattern == Pattern::Do {
            check_following_template_phases(graph, node, &mut errors);
        }
        assert(error_views(errors@) =~= mid + node_errors(graph@, *node));
        i += 1;
    }
    assert(nodes@.take(nodes@.len() as int) =~= nodes@);
    errors
}

// ─── laws of the before-contract check ──────────────────────────────────────

proof fn lemma_seq_push_has<A>(s: Seq<A>, x: A, c: A)
    ensures
        s.push(x).contains(c) <==> s.contains(c) || c == x,
{
    if s.contains(c) {
        let i = choose|i: int| 0 <= i < s.len() && s[i] == c;
        assert(s.push(x)[i] == c);
    }
    if c == x {
        assert(s.push(x)[s.len() as int] == c);
    }
    if s.push(x).contains(c) {
        let i = choose|i: int| 0 <= i < s.push(x).len() && s.push(x)[i] == c;
        if i < s.len() {
            assert(s[i] == c);
        }
    }
}

proof fn lemma_illegal_before_has(
    id: NodeId,
    text: Seq<char>,
    refs: Seq<Seq<char>>,
    allowed: Seq<Seq<char>>,
    r: Seq<char>,
)
    ensures
        illegal_before(id, text, refs, allowed).contains(
            ContractErrorView::BeforeContractIllegalRef { node_id: id, contract_expr: text, illegal_ref: r },
        ) <==> refs.contains(r) && !allowed.contains(r),
    decreases refs.len(),
{
    let e = ContractErrorView::BeforeContractIllegalRef { node_id: id, contract_expr: text, illegal_ref: r };
    if refs.len() > 0 {
        let d = refs.drop_last();
        lemma_illegal_before_has(id, text, d, allowed, r);
        lemma_seq_push_has(d, refs.last(), r);
        assert(d.push(refs.last()) =~= refs);
        if !allowed.contains(refs.last()) {
            lemma_seq_push_has(
                illegal_before(id, text, d, allowed),
                ContractErrorView::BeforeContractIllegalRef {
                    node_id: id,
                    contract_expr: text,
                    illegal_ref: refs.last(),
                },
                e,
            );
        }
    }
}

proof fn lemma_before_errors_has(id: NodeId, cs: Seq<Contract>, allowed: Seq<Seq<char>>, e: ContractErrorView)
    ensures
        before_errors(id, cs, allowed).contains(e) <==> exists|i: int|
            0 <= i < cs.len() && (#[trigger] cs[i]).kind == ContractKind::Before && before_contract_errors(
                id,
                cs[i],
                allowed,
            ).contains(e),
    decreases cs.len(),
{
    if cs.len() > 0 {
        let d = cs.drop_last();
        lemma_before_errors_has(id, d, allowed, e);
        let last = cs.len() - 1;
        if cs[last].kind == ContractKind::Before {
            crate::summary::lemma_concat_has(before_errors(id, d, allowed), before_contract_errors(id, cs[last], allowed), e);
        }
        if exists|i: int|
            0 <= i < cs.len() && (#[trigger] cs[i]).kind == ContractKind::Before && before_contract_errors(
                id,
                cs[i],
                allowed,
            ).contains(e) {
            let i = choose|i: int|
                0 <= i < cs.len() && (#[trigger] cs[i]).kind == ContractKind::Before && before_contract_errors(
                    id,
                    cs[i],
                    allowed,
                ).contains(e);
            if i < last {
                assert(d[i] == cs[i]);
            }
        }
        if exists|i: int|
            0 <= i < d.len() && (#[trigger] d[i]).kind == ContractKind::Before && before_contract_errors(
                id,
                d[i],
                allowed,
            ).contains(e) {
            let i = choose|i: int|
                0 <= i < d.len() && (#[trigger] d[i]).kind == ContractKind::Before && before_contract_errors(
                    id,
                    d[i],
                    allowed,
                ).contains(e);
            assert(d[i] == cs[i]);
        }
    }
}

/// The before-contract check reports exactly what the before-contracts
/// give, each on its own: an error is among `before_errors` if and only if
/// some before-contract of `cs` gives it. A contract that does not parse
/// gives its parse error alone, one that uses `old(..)` gives
/// `BeforeContractUsesOld` alone, and any other gives a
/// `BeforeContractIllegalRef` for a name exactly when the name is a
/// top-level reference of the contract that is not in `allowed`.
pub proof fn lemma_before_check_exact(
    id: NodeId,
    cs: Seq<Contract>,
    allowed: Seq<Seq<char>>,
    e: ContractErrorView,
    c: Contract,
    r: Seq<char>,
)
    ensures
        before_errors(id, cs, allowed).contains(e) <==> exists|i: int|
            0 <= i < cs.len() && (#[trigger] cs[i]).kind == ContractKind::Before && before_contract_errors(
                id,
                cs[i],
                allowed,
            ).contains(e),
        c.parsed is Err ==> before_contract_errors(id, c, allowed).len() == 1
            && before_contract_errors(id, c, allowed)[0] is ContractParseError,
        c.parsed is Ok && constraint_has_old(c.parsed->Ok_0@) ==> before_contract_errors(id, c, allowed)
            == seq![ContractErrorView::BeforeContractUsesOld { node_id: id, contract_expr: c.expression@ }],
        c.parsed is Ok && !constraint_has_old(c.parsed->Ok_0@) ==> (before_contract_errors(id, c, allowed).contains(
            ContractErrorView::BeforeContractIllegalRef {
                node_id: id,
                contract_expr: c.expression@,
                illegal_ref: r,
            },
        ) <==> top_level_refs(c.parsed->Ok_0@).contains(r) && !allowed.contains(r)),
{
    lemma_before_errors_has(id, cs, allowed, e);
    if c.parsed is Ok {
        lemma_illegal_before_has(id, c.expression@, top_level_refs(c.parsed->Ok_0@), allowed, r);
    }
}

// ─── laws of scopes ─────────────────────────────────────────────────────────

/// The names a before-contract may use are exactly the names of the scope
/// variables of kind `Parameter`: a let, fetch or loop binding alone does
/// not make a name usable.
pub proof fn lemma_scope_params_exact(scope: Seq<ScopeVariable>, x: Seq<char>)
    ensures
        scope_params(scope).contains(x) <==> exists|i: int|
            0 <= i < scope.len() && (#[trigger] scope[i]).kind == ScopeVariableKind::Parameter
                && scope[i].name@ == x,
    decreases scope.len(),
{
    if scope.len() > 0 {
        let d = scope.drop_last();
        lemma_scope_params_exact(d, x);
        let last = scope.len() - 1;
        if scope[last].kind == ScopeVariableKind::Parameter {
            lemma_seq_push_has(scope_params(d), scope[last].name@, x);
        }
        if exists|i: int|
            0 <= i < scope.len() && (#[trigger] scope[i]).kind == ScopeVariableKind::Parameter
                && scope[i].name@ == x {
            let i = choose|i: int|
                0 <= i < scope.len() && (#[trigger] scope[i]).kind == ScopeVariableKind::Parameter
                    && scope[i].name@ == x;
            if i < last {
                assert(d[i] == scope[i]);
            }
        }
        if exists|i: int|
            0 <= i < d.len() && (#[trigger] d[i]).kind == ScopeVariableKind::Parameter && d[i].name@ == x {
            let i = choose|i: int|
                0 <= i < d.len() && (#[trigger] d[i]).kind == ScopeVariableKind::Parameter && d[i].name@ == x;
            assert(d[i] == scope[i]);
        }
    }
}

/// `node`'s scope has a variable of kind `Parameter` named `r`; a node
/// without a context packet has none.
pub open spec fn has_parameter(node: Node, r: Seq<char>) -> bool {
    match node.context {
        Some(p) => exists|i: int|
            0 <= i < p.scope@.len() && (#[trigger] p.scope@[i]).kind == ScopeVariableKind::Parameter
                && p.scope@[i].name@ == r,
        None => false,
    }
}

/// A top-level reference of a before-contract of `node` (one that parses
/// and uses no `old(..)`) is reported as illegal exactly when no variable
/// of the node's scope of kind `Parameter` has its name: a name that the
/// scope lists only as a let, fetch or loop binding is illegal.
pub proof fn lemma_before_refs_need_parameters(node: Node, c: Contract, r: Seq<char>)
    requires
        c.parsed is Ok,
        !constraint_has_old(c.parsed->Ok_0@),
    ensures
        before_contract_errors(node.id, c, parameter_scope(node)).contains(
            ContractErrorView::BeforeContractIllegalRef {
                node_id: node.id,
                contract_expr: c.expression@,
                illegal_ref: r,
            },
        ) <==> top_level_refs(c.parsed->Ok_0@).contains(r) && !has_parameter(node, r),
{
    lemma_illegal_before_has(node.id, c.expression@, top_level_refs(c.parsed->Ok_0@), parameter_scope(node), r);
    match node.context {
        Some(p) => lemma_scope_params_exact(p.scope@, r),
        None => {},
    }
}

} // verus!
