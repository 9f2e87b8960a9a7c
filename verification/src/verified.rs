//! The contract stage: a graph whose contracts pass the static checks and
//! solver verification becomes a [`VerifiedGraph`].

use vstd::prelude::*;

use crate::checks::{check_static_contracts, error_views, static_errors, ContractError, ContractErrorView};
use crate::model::AilGraph;
use crate::plan::{run_errors, verification_order, verify_error_views, AnswerView, VerifyError, VerifyErrorView};
use crate::solve::{run_answers_fit, verify_contracts};
use crate::summary::{summary_of, ContractSummary};

verus! {

/// An error of the contract stage.
#[derive(Debug)]
pub enum ContractStageError {
    /// A static contract check failed.
    StaticCheck(ContractError),
    /// Solver verification failed.
    Z3Verify(VerifyError),
}

/// The content of a `ContractStageError`.
pub enum StageErrorView {
    StaticCheck(ContractErrorView),
    Z3Verify(VerifyErrorView),
}

impl View for ContractStageError {
    type V = StageErrorView;

    open spec fn view(&self) -> StageErrorView {
        match self {
            ContractStageError::StaticCheck(e) => StageErrorView::StaticCheck(e@),
            ContractStageError::Z3Verify(e) => StageErrorView::Z3Verify(e@),
        }
    }
}

/// The views of a sequence of stage errors.
pub open spec fn stage_error_views(s: Seq<ContractStageError>) -> Seq<StageErrorView> {
    s.map_values(|e: ContractStageError| e@)
}

/// A graph whose contracts passed verification, with its contract summary.
pub struct VerifiedGraph {
    graph: AilGraph,
    summary: ContractSummary,
}

impl VerifiedGraph {
    /// The graph.
    pub closed spec fn graph_view(&self) -> Seq<crate::model::Node> {
        self.graph@
    }

    /// The verified graph.
    pub fn graph(&self) -> (g: &AilGraph)
        ensures
            g@ == self.graph_view(),
    {
        &self.graph
    }

    /// The typed graph: the graph itself, whose nodes carry the type
    /// information that the checks read.
    pub fn typed(&self) -> (g: &AilGraph)
        ensures
            g@ == self.graph_view(),
    {
        &self.graph
    }

    /// The contract summary of the graph's `Do` nodes.
    pub fn contract_summary(&self) -> (s: &ContractSummary)
        ensures
            s@ == summary_of(self.graph_view()),
    {
        proof {
            use_type_invariant(self);
        }
        &self.summary
    }

    /// The graph, giving up the verified wrapper.
    pub fn into_inner(self) -> (g: AilGraph)
        ensures
            g@ == self.graph_view(),
    {
        self.graph
    }

    #[verifier::type_invariant]
    spec fn summary_matches(self) -> bool {
        self.summary@ == summary_of(self.graph@)
    }
}

/// What the contract stage gives once the static checks passed and the
/// solver reported the errors `e`: the verified graph when there are none,
/// otherwise those errors, in order.
pub open spec fn solver_stage_result(
    nodes: Seq<crate::model::Node>,
    e: Seq<VerifyErrorView>,
    r: Result<VerifiedGraph, Vec<ContractStageError>>,
) -> bool {
    if e.len() == 0 {
        r matches Ok(v) && v.graph_view() == nodes
    } else {
        r matches Err(es) && stage_error_views(es@) == e.map_values(|x: VerifyErrorView| StageErrorView::Z3Verify(x))
    }
}

/// Run the contract stage: the static checks first, and when any fails,
/// every static error, in node order, without running the solver;
/// otherwise solver verification of every `Do` node (`verify_contracts`),
/// whose errors, if any, are the stage's errors.
pub fn verify(graph: AilGraph) -> (r: Result<VerifiedGraph, Vec<ContractStageError>>)
    ensures
        static_errors(graph@).len() > 0 ==> (r matches Err(es) && stage_error_views(es@)
            == static_errors(graph@).map_values(|e: ContractErrorView| StageErrorView::StaticCheck(e))),
        static_errors(graph@).len() == 0 ==> exists|a: Seq<Seq<AnswerView>>|
            #[trigger] run_errors(graph@, verification_order(graph@), a) is Some && run_answers_fit(
                graph@,
                verification_order(graph@),
                a,
            ) && solver_stage_result(graph@, run_errors(graph@, verification_order(graph@), a)->0, r),
{
    let errors = check_static_contracts(&graph);
    if errors.len() > 0 {
        let mut out: Vec<ContractStageError> = Vec::new();
        let mut i: usize = 0;
        while i < errors.len()
            invariant
                i <= errors@.len(),
                stage_error_views(out@) == error_views(errors@.take(i as int)).map_values(
                    |e: ContractErrorView| StageErrorView::StaticCheck(e),
                ),
            decreases errors.len() - i,
        {
            let e = errors[i].duplicate();
            let ghost before = out@;
            out.push(ContractStageError::StaticCheck(e));
            assert(stage_error_views(out@) =~= stage_error_views(before).push(
                StageErrorView::StaticCheck(errors@[i as int]@),
            ));
            assert(error_views(errors@.take(i + 1)) =~= error_views(errors@.take(i as int)).push(
                errors@[i as int]@,
            ));
            assert(stage_error_views(out@) =~= error_views(errors@.take(i + 1)).map_values(
                |e: ContractErrorView| StageErrorView::StaticCheck(e),
            ));
            i += 1;
        }
        assert(errors@.take(errors@.len() as int) =~= errors@);
        return Err(out);
    }
    let solver_errors = verify_contracts(&graph);
    let ghost nodes = graph@;
    let ghost a = choose|a: Seq<Seq<AnswerView>>|
        #[trigger] run_errors(nodes, verification_order(nodes), a) == Some(verify_error_views(solver_errors@))
            && run_answers_fit(nodes, verification_order(nodes), a);
    let summary = ContractSummary::from_graph(&graph);
    let r = conclude_solver_stage(VerifiedGraph { graph, summary }, solver_errors);
    assert(run_errors(nodes, verification_order(nodes), a) is Some && run_answers_fit(
        nodes,
        verification_order(nodes),
        a,
    ) && solver_stage_result(
        nodes,
        run_errors(nodes, verification_order(nodes), a)->0,
        r,
    ));
    r
}

/// The contract stage after solver verification: the graph stays verified
/// when the solver reported no error; otherwise the solver's errors are
/// the stage's errors, in order.
pub fn conclude_solver_stage(verified: VerifiedGraph, solver_errors: Vec<VerifyError>) -> (r: Result<
    VerifiedGraph,
    Vec<ContractStageError>,
>)
    ensures
        r is Ok <==> solver_errors@.len() == 0,
        r matches Ok(v) ==> v.graph_view() == verified.graph_view(),
        r matches Err(es) ==> stage_error_views(es@) == verify_error_views(solver_errors@).map_values(
            |e: VerifyErrorView| StageErrorView::Z3Verify(e),
        ),
{
    if solver_errors.len() == 0 {
        return Ok(verified);
    }
    let mut out: Vec<ContractStageError> = Vec::new();
    let mut i: usize = 0;
    let n = solver_errors.len();
    while i < n
        invariant
            i <= n,
            n == solver_errors@.len(),
            stage_error_views(out@) == verify_error_views(solver_errors@.take(i as int)).map_values(
                |e: VerifyErrorView| StageErrorView::Z3Verify(e),
            ),
        decreases n - i,
    {
        let e = solver_errors[i].duplicate();
        let ghost before = out@;
        out.push(ContractStageError::Z3Verify(e));
        assert(stage_error_views(out@) =~= stage_error_views(before).push(
            StageErrorView::Z3Verify(solver_errors@[i as int]@),
        ));
        assert(verify_error_views(solver_errors@.take(i + 1)) =~= verify_error_views(
            solver_errors@.take(i as int),
        ).push(solver_errors@[i as int]@));
        assert(stage_error_views(out@) =~= verify_error_views(solver_errors@.take(i + 1)).map_values(
            |e: VerifyErrorView| StageErrorView::Z3Verify(e),
        ));
        i += 1;
    }
    assert(solver_errors@.take(n as int) =~= solver_errors@);
    Err(out)
}

} // verus!
