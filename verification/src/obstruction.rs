//! H1 obstruction detection over the overlaps of a Čech nerve.
//!
//! For each overlap the constraints of both sections (own and inherited,
//! each side without repetitions) are encoded in one context built from
//! both nodes, every term labelled under a label that names its side and
//! position. One satisfiability check then decides: satisfiable means the
//! overlap is consistent; unsatisfiable means it is contradictory, and the
//! labels of the unsatisfiable core say which constraints of each side take
//! part. Whatever prevents a sound answer (a missing section or node,
//! parameters of one name but different sorts, a constraint that cannot be
//! encoded, no answer, an empty core) makes the result `Unknown`.

use vstd::prelude::*;

use crate::encode::{bool_views, enc_constraint, BoolTerm, BoolTermView, EncodeContext, EncodeError, EncodeErrorView, encode_constraint, lemma_bool_views_push};
use crate::expr::{constraint_views, ConstraintExpr, ConstraintView, lemma_constraint_views_take, lemma_constraint_views_index};
use crate::model::{index_of, AilGraph, Node, NodeId, Param};
use crate::sheaf::{section_views, CechNerve, SectionView, SheafSection};
use crate::sorts::{node_context, populate_encode_context, sort_for_type_ref, sort_of, Z3Sort};
use crate::render::render_constraint;
use crate::text::{lemma_text_lt_total, lemma_text_lt_trans, slice_contains, text_less, text_lt, views};

verus! {

// ─── texts ──────────────────────────────────────────────────────────────────

/// The text of a decimal digit.
pub open spec fn digit_text(d: nat) -> Seq<char> {
    if d == 0 {
        "0"@
    } else if d == 1 {
        "1"@
    } else if d == 2 {
        "2"@
    } else if d == 3 {
        "3"@
    } else if d == 4 {
        "4"@
    } else if d == 5 {
        "5"@
    } else if d == 6 {
        "6"@
    } else if d == 7 {
        "7"@
    } else if d == 8 {
        "8"@
    } else {
        "9"@
    }
}

/// The decimal text of `n`, as `Display` writes an unsigned integer.
pub open spec fn decimal(n: nat) -> Seq<char>
    decreases n,
{
    if n < 10 {
        digit_text(n)
    } else {
        decimal(n / 10) + digit_text(n % 10)
    }
}

pub(crate) fn digit_str(d: usize) -> (r: &'static str)
    requires
        d < 10,
    ensures
        r@ == digit_text(d as nat),
{
    if d == 0 {
        "0"
    } else if d == 1 {
        "1"
    } else if d == 2 {
        "2"
    } else if d == 3 {
        "3"
    } else if d == 4 {
        "4"
    } else if d == 5 {
        "5"
    } else if d == 6 {
        "6"
    } else if d == 7 {
        "7"
    } else if d == 8 {
        "8"
    } else {
        "9"
    }
}

/// The decimal text of `n`.
pub fn decimal_text(n: usize) -> (r: String)
    ensures
        r@ == decimal(n as nat),
    decreases n,
{
    if n < 10 {
        String::from_str(digit_str(n))
    } else {
        let mut s = decimal_text(n / 10);
        s.append(digit_str(n % 10));
        s
    }
}

/// The lowercase hexadecimal digit of `d`.
pub open spec fn hex_digit(d: int) -> char {
    if d < 10 {
        (48 + d) as char
    } else {
        (87 + d) as char
    }
}

/// The `k`-th of the 32 hexadecimal digits of `v`, most significant first.
pub open spec fn nibble(v: u128, k: int) -> int {
    (v as int / vstd::arithmetic::power::pow(16, (31 - k) as nat)) % 16
}

/// The hyphenated text of the UUID whose 128-bit value is `v`: its 32
/// lowercase hexadecimal digits, most significant first, grouped 8-4-4-4-12.
pub open spec fn uuid_text(v: u128) -> Seq<char> {
    Seq::new(
        36,
        |i: int|
            if i == 8 || i == 13 || i == 18 || i == 23 {
                '-'
            } else {
                hex_digit(
                    nibble(
                        v,
                        if i < 8 {
                            i
                        } else if i < 13 {
                            i - 1
                        } else if i < 18 {
                            i - 2
                        } else if i < 23 {
                            i - 3
                        } else {
                            i - 4
                        },
                    ),
                )
            },
    )
}

/// `uuid::Uuid::from_u128(id).to_string()`: the UUID's hyphenated
/// lowercase text (`Display` writes `LowerHex`, which writes the hyphenated
/// form of the big-endian bytes).
#[verifier::external_body]
fn node_id_text(id: NodeId) -> (r: String)
    ensures
        r@ == uuid_text(id),
{
    uuid::Uuid::from_u128(id).to_string()
}

/// What `Debug` writes for a text: the text quoted, with the characters
/// that need it escaped.
pub uninterp spec fn debug_quoted(s: Seq<char>) -> Seq<char>;

/// `format!("{:?}", s)` for a `&str`.
#[verifier::external_body]
fn debug_str(s: &str) -> (r: String)
    ensures
        r@ == debug_quoted(s@),
{
    format!("{:?}", s)
}

/// The `Debug` text of an encoding error.
pub open spec fn encode_error_debug(e: EncodeErrorView) -> Seq<char> {
    match e {
        EncodeErrorView::UnsupportedConstraint { variant } => "UnsupportedConstraint { variant: "@
            + debug_quoted(variant) + " }"@,
        EncodeErrorView::UnboundVariable { name } => "UnboundVariable { name: "@ + debug_quoted(name)
            + " }"@,
        EncodeErrorView::SortMismatch { expected, found } => "SortMismatch { expected: "@
            + debug_quoted(expected) + ", found: "@ + debug_quoted(found) + " }"@,
    }
}

fn encode_error_text(e: &EncodeError) -> (r: String)
    ensures
        r@ == encode_error_debug(e@),
{
    match e {
        EncodeError::UnsupportedConstraint { variant } => {
            let mut s = String::from_str("UnsupportedConstraint { variant: ");
            s.append(debug_str(variant).as_str());
            s.append(" }");
            s
        },
        EncodeError::UnboundVariable { name } => {
            let mut s = String::from_str("UnboundVariable { name: ");
            s.append(debug_str(name.as_str()).as_str());
            s.append(" }");
            s
        },
        EncodeError::SortMismatch { expected, found } => {
            let mut s = String::from_str("SortMismatch { expected: ");
            s.append(debug_str(expected).as_str());
            s.append(", found: ");
            s.append(debug_str(found).as_str());
            s.append(" }");
            s
        },
    }
}

/// The name of a sort, as `Debug` writes it.
pub open spec fn sort_name(s: Z3Sort) -> Seq<char> {
    match s {
        Z3Sort::Int => "Int"@,
        Z3Sort::Real => "Real"@,
        Z3Sort::Bool => "Bool"@,
        Z3Sort::Uninterpreted => "Uninterpreted"@,
    }
}

fn sort_name_str(s: Z3Sort) -> (r: &'static str)
    ensures
        r@ == sort_name(s),
{
    match s {
        Z3Sort::Int => "Int",
        Z3Sort::Real => "Real",
        Z3Sort::Bool => "Bool",
        Z3Sort::Uninterpreted => "Uninterpreted",
    }
}

// ─── results ────────────────────────────────────────────────────────────────

/// The outcome of the check of one overlap.
#[derive(Debug)]
pub enum ObstructionStatus {
    /// The combined constraints are jointly satisfiable.
    Consistent,
    /// The combined constraints are unsatisfiable; these constraints of each
    /// side take part in the unsatisfiable core (at least one in all), each
    /// list sorted by the constraints' texts (`render_constraint`).
    Contradictory { conflicting_a: Vec<ConstraintExpr>, conflicting_b: Vec<ConstraintExpr> },
    /// No sound answer; `reason` names the overlap and the cause.
    Unknown { reason: String },
}

/// The check of one overlap: its position among the nerve's overlaps, its
/// two nodes, and the outcome.
#[derive(Debug)]
pub struct ObstructionResult {
    pub overlap_index: usize,
    pub node_a: NodeId,
    pub node_b: NodeId,
    pub status: ObstructionStatus,
}

/// The content of an `ObstructionStatus`.
pub enum StatusView {
    Consistent,
    Contradictory { conflicting_a: Seq<ConstraintView>, conflicting_b: Seq<ConstraintView> },
    Unknown { reason: Seq<char> },
}

/// The content of an `ObstructionResult`.
pub struct ResultView {
    pub overlap_index: int,
    pub node_a: NodeId,
    pub node_b: NodeId,
    pub status: StatusView,
}

impl View for ObstructionResult {
    type V = ResultView;

    open spec fn view(&self) -> ResultView {
        ResultView {
            overlap_index: self.overlap_index as int,
            node_a: self.node_a,
            node_b: self.node_b,
            status: match &self.status {
                ObstructionStatus::Consistent => StatusView::Consistent,
                ObstructionStatus::Contradictory { conflicting_a, conflicting_b } =>
                    StatusView::Contradictory {
                    conflicting_a: constraint_views(conflicting_a@),
                    conflicting_b: constraint_views(conflicting_b@),
                },
                ObstructionStatus::Unknown { reason } => StatusView::Unknown { reason: reason@ },
            },
        }
    }
}

// ─── specification ──────────────────────────────────────────────────────────

/// The last section of `s` for node `id`, if any.
pub open spec fn last_section(s: Seq<SectionView>, id: NodeId) -> Option<SectionView>
    decreases s.len(),
{
    if s.len() == 0 {
        None
    } else if s.last().node_id == id {
        Some(s.last())
    } else {
        last_section(s.drop_last(), id)
    }
}

/// `overlap {idx}: ` and `rest`.
pub open spec fn overlap_reason(idx: nat, rest: Seq<char>) -> Seq<char> {
    "overlap "@ + decimal(idx) + ": "@ + rest
}

/// The first parameter of `pb` named like `p` whose sort differs from
/// `p`'s, reported as a conflict.
pub open spec fn conflict_with(nodes: Seq<Node>, p: Param, pb: Seq<Param>) -> Option<Seq<char>>
    decreases pb.len(),
{
    if pb.len() == 0 {
        None
    } else {
        match conflict_with(nodes, p, pb.drop_last()) {
            Some(m) => Some(m),
            None => {
                let q = pb.last();
                let sa = sort_of(nodes, p.type_ref@, 0);
                let sb = sort_of(nodes, q.type_ref@, 0);
                if p.name@ == q.name@ && sa != sb {
                    Some(
                        "sort conflict on param `"@ + p.name@ + "`: "@ + sort_name(sa) + " vs "@
                            + sort_name(sb),
                    )
                } else {
                    None
                }
            },
        }
    }
}

/// The first sort conflict between the parameters `pa` and `pb`, taking the
/// parameters of `pa` in order and, for each, those of `pb` in order.
pub open spec fn sort_conflict(nodes: Seq<Node>, pa: Seq<Param>, pb: Seq<Param>) -> Option<Seq<char>>
    decreases pa.len(),
{
    if pa.len() == 0 {
        None
    } else {
        match sort_conflict(nodes, pa.drop_last(), pb) {
            Some(m) => Some(m),
            None => conflict_with(nodes, pa.last(), pb),
        }
    }
}

/// `s` without repetitions, each constraint at its first place.
pub open spec fn dedup(s: Seq<ConstraintView>) -> Seq<ConstraintView>
    decreases s.len(),
{
    if s.len() == 0 {
        seq![]
    } else if dedup(s.drop_last()).contains(s.last()) {
        dedup(s.drop_last())
    } else {
        dedup(s.drop_last()).push(s.last())
    }
}

/// The label of the term of constraint `ci` of side `side` of overlap `idx`.
pub open spec fn label_text(idx: nat, side: Seq<char>, ci: nat) -> Seq<char> {
    "lbl_"@ + side + "_"@ + decimal(idx) + "_"@ + decimal(ci)
}

/// The encoding failures of one side, as texts `side_{s}[{ci}]: {error}`.
pub open spec fn side_errors(c: (Seq<(Seq<char>, crate::encode::VarSort)>, Seq<(Seq<char>, crate::encode::VarSort)>), side: Seq<char>, cs: Seq<ConstraintView>) -> Seq<Seq<char>>
    decreases cs.len(),
{
    if cs.len() == 0 {
        seq![]
    } else {
        let rest = side_errors(c, side, cs.drop_last());
        match enc_constraint(cs.last(), c) {
            Ok(_) => rest,
            Err(e) => rest.push(
                "side_"@ + side + "["@ + decimal((cs.len() - 1) as nat) + "]: "@ + encode_error_debug(e),
            ),
        }
    }
}

/// The texts of `s` joined by `sep`.
pub open spec fn join_texts(s: Seq<Seq<char>>, sep: Seq<char>) -> Seq<char>
    decreases s.len(),
{
    if s.len() == 0 {
        seq![]
    } else if s.len() == 1 {
        s[0]
    } else {
        join_texts(s.drop_last(), sep) + sep + s.last()
    }
}

/// The constraints of `side` whose labels are in `core`, in side order.
pub open spec fn core_part(idx: nat, name: Seq<char>, side: Seq<ConstraintView>, core: Seq<Seq<char>>, n: int) -> Seq<ConstraintView>
    decreases n,
{
    if n <= 0 || n > side.len() {
        seq![]
    } else if core.contains(label_text(idx, name, (n - 1) as nat)) {
        core_part(idx, name, side, core, n - 1).push(side[n - 1])
    } else {
        core_part(idx, name, side, core, n - 1)
    }
}

/// Number of leading constraints of `s` whose text does not order after
/// the text of `x`.
pub open spec fn text_pos(s: Seq<ConstraintView>, x: ConstraintView) -> int
    decreases s.len(),
{
    if s.len() == 0 || text_lt(render_constraint(x), render_constraint(s[0])) {
        0
    } else {
        1 + text_pos(s.drop_first(), x)
    }
}

/// `s` stably sorted by the constraints' texts (`render_constraint`).
pub open spec fn sort_by_text(s: Seq<ConstraintView>) -> Seq<ConstraintView>
    decreases s.len(),
{
    if s.len() == 0 {
        seq![]
    } else {
        let t = sort_by_text(s.drop_last());
        t.insert(text_pos(t, s.last()), s.last())
    }
}

/// The texts of the constraints of `s` never decrease.
pub open spec fn sorted_by_text(s: Seq<ConstraintView>) -> bool {
    forall|i: int, j: int|
        0 <= i < j < s.len() ==> !text_lt(render_constraint(#[trigger] s[j]), render_constraint(#[trigger] s[i]))
}

/// The labelled terms of one side: `(label, term)` for each constraint that
/// encodes, the label naming the side and the constraint's position.
pub open spec fn side_labelled(c: (Seq<(Seq<char>, crate::encode::VarSort)>, Seq<(Seq<char>, crate::encode::VarSort)>), idx: nat, side: Seq<char>, cs: Seq<ConstraintView>) -> Seq<(Seq<char>, BoolTermView)>
    decreases cs.len(),
{
    if cs.len() == 0 {
        seq![]
    } else {
        let rest = side_labelled(c, idx, side, cs.drop_last());
        match enc_constraint(cs.last(), c) {
            Ok(t) => rest.push((label_text(idx, side, (cs.len() - 1) as nat), t)),
            Err(_) => rest,
        }
    }
}

/// A term asserted under a tracking label.
#[derive(Debug)]
pub struct LabelledTerm {
    pub label: String,
    pub term: BoolTerm,
}

/// The views of labelled terms.
pub open spec fn labelled_views(s: Seq<LabelledTerm>) -> Seq<(Seq<char>, BoolTermView)> {
    s.map_values(|t: LabelledTerm| (t.label@, t.term@))
}

/// The satisfiability check of one overlap.
#[derive(Debug)]
pub struct OverlapQuery {
    pub overlap_index: usize,
    pub node_a: NodeId,
    pub node_b: NodeId,
    /// The variables of both nodes.
    pub context: EncodeContext,
    /// The constraints of each side, without repetitions.
    pub side_a: Vec<ConstraintExpr>,
    pub side_b: Vec<ConstraintExpr>,
    /// The terms to assert, each under its label: side `a`, then side `b`.
    pub labelled: Vec<LabelledTerm>,
    /// The constraints that could not be encoded.
    pub encode_errors: Vec<String>,
}

/// What the library decides about an overlap before any solver call.
#[derive(Debug)]
pub enum OverlapStep {
    /// The result needs no solver.
    Decided(ObstructionResult),
    /// The check to make.
    Check(OverlapQuery),
}

/// A solver's answer to an overlap check: for an unsatisfiable one, the
/// labels of the unsatisfiable core.
#[derive(Debug)]
pub enum OverlapAnswer {
    Sat,
    Unsat(Vec<String>),
    Unknown,
}

/// An `Unknown` result for overlap `idx`.
pub open spec fn unknown_result(idx: nat, a: NodeId, b: NodeId, reason: Seq<char>) -> ResultView {
    ResultView {
        overlap_index: idx as int,
        node_a: a,
        node_b: b,
        status: StatusView::Unknown { reason: overlap_reason(idx, reason) },
    }
}

/// The conclusion of an overlap check from the solver's answer.
pub open spec fn conclusion(q: OverlapQuery, answer: OverlapAnswer) -> ResultView {
    let idx = q.overlap_index as nat;
    let errors = views(q.encode_errors@);
    match answer {
        OverlapAnswer::Sat => if errors.len() == 0 {
            ResultView {
                overlap_index: idx as int,
                node_a: q.node_a,
                node_b: q.node_b,
                status: StatusView::Consistent,
            }
        } else {
            unknown_result(
                idx,
                q.node_a,
                q.node_b,
                "SAT result with partial encoding — "@ + join_texts(errors, "; "@),
            )
        },
        OverlapAnswer::Unsat(core) => if errors.len() > 0 {
            unknown_result(
                idx,
                q.node_a,
                q.node_b,
                "UNSAT result with partial encoding — "@ + join_texts(errors, "; "@),
            )
        } else {
            let sa = constraint_views(q.side_a@);
            let sb = constraint_views(q.side_b@);
            let ca = core_part(idx, "a"@, sa, views(core@), sa.len() as int);
            let cb = core_part(idx, "b"@, sb, views(core@), sb.len() as int);
            if ca.len() == 0 && cb.len() == 0 {
                unknown_result(
                    idx,
                    q.node_a,
                    q.node_b,
                    "UNSAT core empty — no tracked labels attributable"@,
                )
            } else {
                ResultView {
                    overlap_index: idx as int,
                    node_a: q.node_a,
                    node_b: q.node_b,
                    status: StatusView::Contradictory {
                        conflicting_a: sort_by_text(ca),
                        conflicting_b: sort_by_text(cb),
                    },
                }
            }
        },
        OverlapAnswer::Unknown => unknown_result(
            idx,
            q.node_a,
            q.node_b,
            "Z3 returned Unknown (timeout or resource limit)"@,
        ),
    }
}

// ─── preparation ────────────────────────────────────────────────────────────

fn find_last_section(secs: &Vec<SheafSection>, id: NodeId) -> (r: Option<usize>)
    ensures
        r matches Some(k) ==> k < secs@.len() && last_section(section_views(secs@), id) == Some(
            secs@[k as int]@,
        ),
        r is None ==> last_section(section_views(secs@), id) is None,
{
    let ghost sv = section_views(secs@);
    let mut i: usize = secs.len();
    assert(sv.take(i as int) =~= sv);
    while i > 0
        invariant
            i <= secs@.len(),
            sv == section_views(secs@),
            last_section(sv, id) == last_section(sv.take(i as int), id),
        decreases i,
    {
        assert(sv.take(i as int).drop_last() =~= sv.take(i - 1));
        assert(sv.take(i as int).last() == secs@[i - 1]@);
        if secs[i - 1].node_id == id {
            return Some(i - 1);
        }
        i -= 1;
    }
    None
}

fn conflict_with_param(graph: &AilGraph, p: &Param, pb: &Vec<Param>) -> (r: Option<String>)
    ensures
        r matches Some(m) ==> conflict_with(graph@, *p, pb@) == Some(m@),
        r is None ==> conflict_with(graph@, *p, pb@) is None,
{
    let mut i: usize = 0;
    assert(pb@.take(0) =~= Seq::<Param>::empty());
    while i < pb.len()
        invariant
            i <= pb@.len(),
            conflict_with(graph@, *p, pb@.take(i as int)) is None,
        decreases pb.len() - i,
    {
        assert(pb@.take(i + 1).drop_last() =~= pb@.take(i as int));
        let q = &pb[i];
        if p.name == q.name {
            let sa = sort_for_type_ref(p.type_ref.as_str(), graph);
            let sb = sort_for_type_ref(q.type_ref.as_str(), graph);
            if sa != sb {
                let mut m = String::from_str("sort conflict on param `");
                m.append(p.name.as_str());
                m.append("`: ");
                m.append(sort_name_str(sa));
                m.append(" vs ");
                m.append(sort_name_str(sb));
                proof {
                    lemma_conflict_prefix(graph@, *p, pb@, i + 1);
                }
                return Some(m);
            }
        }
        i += 1;
    }
    assert(pb@.take(pb@.len() as int) =~= pb@);
    None
}

proof fn lemma_conflict_prefix(nodes: Seq<Node>, p: Param, pb: Seq<Param>, n: int)
    requires
        0 < n <= pb.len(),
        conflict_with(nodes, p, pb.take(n)) is Some,
    ensures
        conflict_with(nodes, p, pb) == conflict_with(nodes, p, pb.take(n)),
    decreases pb.len(),
{
    if n < pb.len() {
        assert(pb.drop_last().take(n) =~= pb.take(n));
        lemma_conflict_prefix(nodes, p, pb.drop_last(), n);
    } else {
        assert(pb.take(n) =~= pb);
    }
}

proof fn lemma_sort_conflict_prefix(nodes: Seq<Node>, pa: Seq<Param>, pb: Seq<Param>, n: int)
    requires
        0 < n <= pa.len(),
        sort_conflict(nodes, pa.take(n), pb) is Some,
    ensures
        sort_conflict(nodes, pa, pb) == sort_conflict(nodes, pa.take(n), pb),
    decreases pa.len(),
{
    if n < pa.len() {
        assert(pa.drop_last().take(n) =~= pa.take(n));
        lemma_sort_conflict_prefix(nodes, pa.drop_last(), pb, n);
    } else {
        assert(pa.take(n) =~= pa);
    }
}

/// The first sort conflict between the parameters of `a` and `b`: a name
/// both declare, with types of different sorts.
pub fn check_sort_conflict(node_a: &Node, node_b: &Node, graph: &AilGraph) -> (r: Option<String>)
    ensures
        r matches Some(m) ==> sort_conflict(graph@, node_a.metadata.params@, node_b.metadata.params@)
            == Some(m@),
        r is None ==> sort_conflict(graph@, node_a.metadata.params@, node_b.metadata.params@) is None,
{
    let pa = &node_a.metadata.params;
    let pb = &node_b.metadata.params;
    let mut i: usize = 0;
    assert(pa@.take(0) =~= Seq::<Param>::empty());
    while i < pa.len()
        invariant
            i <= pa@.len(),
            pa == &node_a.metadata.params,
            pb == &node_b.metadata.params,
            sort_conflict(graph@, pa@.take(i as int), pb@) is None,
        decreases pa.len() - i,
    {
        assert(pa@.take(i + 1).drop_last() =~= pa@.take(i as int));
        match conflict_with_param(graph, &pa[i], pb) {
            Some(m) => {
                proof {
                    lemma_sort_conflict_prefix(graph@, pa@, pb@, i + 1);
                }
                return Some(m);
            },
            None => {},
        }
        i += 1;
    }
    assert(pa@.take(pa@.len() as int) =~= pa@);
    None
}

fn contains_constraint(v: &Vec<ConstraintExpr>, c: &ConstraintExpr) -> (b: bool)
    ensures
        b == constraint_views(v@).contains(c@),
{
    proof {
        lemma_constraint_views_take(v@, 0);
    }
    let mut i: usize = 0;
    while i < v.len()
        invariant
            i <= v@.len(),
            constraint_views(v@).len() == v@.len(),
            forall|k: int| 0 <= k < i ==> constraint_views(v@)[k] != c@,
        decreases v.len() - i,
    {
        proof {
            lemma_constraint_views_index(v@, i as int);
        }
        if v[i].same(c) {
            return true;
        }
        i += 1;
    }
    false
}

fn push_unique(out: &mut Vec<ConstraintExpr>, src: &Vec<ConstraintExpr>)
    ensures
        constraint_views(final(out)@) == dedup_onto(constraint_views(old(out)@), constraint_views(src@)),
{
    let ghost start = constraint_views(out@);
    proof {
        lemma_constraint_views_take(src@, 0);
    }
    let ghost sv = constraint_views(src@);
    let mut i: usize = 0;
    assert(sv.take(0) =~= Seq::<ConstraintView>::empty());
    while i < src.len()
        invariant
            i <= src@.len(),
            sv == constraint_views(src@),
            sv.len() == src@.len(),
            constraint_views(out@) == dedup_onto(start, sv.take(i as int)),
        decreases src.len() - i,
    {
        proof {
            lemma_constraint_views_index(src@, i as int);
        }
        assert(sv.take(i + 1).drop_last() =~= sv.take(i as int));
        if !contains_constraint(out, &src[i]) {
            let d = src[i].duplicate();
            let ghost before = out@;
            out.push(d);
            assert(out@.drop_last() =~= before);
        }
        i += 1;
    }
    assert(sv.take(src@.len() as int) =~= sv);
}

/// `acc` extended by the constraints of `s` that it does not hold yet, in
/// order.
pub open spec fn dedup_onto(acc: Seq<ConstraintView>, s: Seq<ConstraintView>) -> Seq<ConstraintView>
    decreases s.len(),
{
    if s.len() == 0 {
        acc
    } else if dedup_onto(acc, s.drop_last()).contains(s.last()) {
        dedup_onto(acc, s.drop_last())
    } else {
        dedup_onto(acc, s.drop_last()).push(s.last())
    }
}

proof fn lemma_dedup_onto_append(acc: Seq<ConstraintView>, s: Seq<ConstraintView>, t: Seq<ConstraintView>)
    ensures
        dedup_onto(dedup_onto(acc, s), t) == dedup_onto(acc, s + t),
    decreases t.len(),
{
    if t.len() == 0 {
        assert(s + t =~= s);
    } else {
        lemma_dedup_onto_append(acc, s, t.drop_last());
        assert((s + t).drop_last() =~= s + t.drop_last());
        assert((s + t).last() == t.last());
    }
}

proof fn lemma_dedup_is_onto_empty(s: Seq<ConstraintView>)
    ensures
        dedup(s) == dedup_onto(seq![], s),
    decreases s.len(),
{
    if s.len() > 0 {
        lemma_dedup_is_onto_empty(s.drop_last());
    }
}

/// The constraints of a section, own then inherited, without repetitions.
fn section_side(sec: &SheafSection) -> (r: Vec<ConstraintExpr>)
    ensures
        constraint_views(r@) == dedup(sec@.constraints + sec@.inherited),
{
    let mut out: Vec<ConstraintExpr> = Vec::new();
    assert(constraint_views(out@) =~= Seq::<ConstraintView>::empty());
    push_unique(&mut out, &sec.constraints);
    push_unique(&mut out, &sec.inherited);
    proof {
        lemma_dedup_onto_append(seq![], sec@.constraints, sec@.inherited);
        lemma_dedup_is_onto_empty(sec@.constraints + sec@.inherited);
    }
    out
}

fn label_of(idx: usize, side: &str, ci: usize) -> (r: String)
    ensures
        r@ == label_text(idx as nat, side@, ci as nat),
{
    let mut s = String::from_str("lbl_");
    s.append(side);
    s.append("_");
    s.append(decimal_text(idx).as_str());
    s.append("_");
    s.append(decimal_text(ci).as_str());
    s
}

fn track_side(
    ctx: &EncodeContext,
    idx: usize,
    side: &str,
    cs: &Vec<ConstraintExpr>,
    labelled: &mut Vec<LabelledTerm>,
    errors: &mut Vec<String>,
)
    ensures
        labelled_views(final(labelled)@) == labelled_views(old(labelled)@) + side_labelled(
            ctx@,
            idx as nat,
            side@,
            constraint_views(cs@),
        ),
        views(final(errors)@) == views(old(errors)@) + side_errors(ctx@, side@, constraint_views(cs@)),
{
    let ghost t0 = labelled_views(labelled@);
    let ghost e0 = views(errors@);
    let ghost cv = constraint_views(cs@);
    proof {
        lemma_constraint_views_take(cs@, 0);
    }
    let mut i: usize = 0;
    assert(cv.take(0) =~= Seq::<ConstraintView>::empty());
    assert(t0 + side_labelled(ctx@, idx as nat, side@, cv.take(0)) =~= t0);
    assert(e0 + side_errors(ctx@, side@, cv.take(0)) =~= e0);
    while i < cs.len()
        invariant
            i <= cs@.len(),
            cv == constraint_views(cs@),
            cv.len() == cs@.len(),
            labelled_views(labelled@) == t0 + side_labelled(ctx@, idx as nat, side@, cv.take(i as int)),
            views(errors@) == e0 + side_errors(ctx@, side@, cv.take(i as int)),
        decreases cs.len() - i,
    {
        proof {
            lemma_constraint_views_index(cs@, i as int);
        }
        assert(cv.take(i + 1).drop_last() =~= cv.take(i as int));
        assert(cv.take(i + 1).len() - 1 == i);
        match encode_constraint(&cs[i], ctx) {
            Ok(t) => {
                let label = label_of(idx, side, i);
                let ghost before = labelled@;
                labelled.push(LabelledTerm { label, term: t });
                assert(labelled_views(labelled@) =~= labelled_views(before).push((label@, t@)));
                assert(labelled_views(labelled@) =~= t0 + side_labelled(ctx@, idx as nat, side@, cv.take(i + 1)));
            },
            Err(e) => {
                let mut m = String::from_str("side_");
                m.append(side);
                m.append("[");
                m.append(decimal_text(i).as_str());
                m.append("]: ");
                m.append(encode_error_text(&e).as_str());
                let ghost before = errors@;
                errors.push(m);
                assert(views(errors@) =~= views(before).push(m@));
                assert(views(errors@) =~= e0 + side_errors(ctx@, side@, cv.take(i + 1)));
            },
        }
        i += 1;
    }
    assert(cv.take(cs@.len() as int) =~= cv);
}

/// The result of overlap `idx` when no solver check is needed: a missing
/// section or graph node, or a sort conflict between the two nodes'
/// parameters.
pub open spec fn precheck(idx: nat, nerve: CechNerve, nodes: Seq<Node>) -> Option<ResultView> {
    let ov = nerve.overlaps@[idx as int];
    let secs = section_views(nerve.sections@);
    let a = ov.node_a;
    let b = ov.node_b;
    if last_section(secs, a) is None {
        Some(unknown_result(idx, a, b, "section missing for node_a "@ + uuid_text(a)))
    } else if last_section(secs, b) is None {
        Some(unknown_result(idx, a, b, "section missing for node_b "@ + uuid_text(b)))
    } else if index_of(nodes, a) < 0 {
        Some(unknown_result(idx, a, b, "graph node missing for node_a "@ + uuid_text(a)))
    } else if index_of(nodes, b) < 0 {
        Some(unknown_result(idx, a, b, "graph node missing for node_b "@ + uuid_text(b)))
    } else {
        match sort_conflict(
            nodes,
            nodes[index_of(nodes, a)].metadata.params@,
            nodes[index_of(nodes, b)].metadata.params@,
        ) {
            Some(m) => Some(unknown_result(idx, a, b, m)),
            None => None,
        }
    }
}

/// `q` is the check of overlap `idx` of `nerve` over the graph `nodes`.
pub open spec fn is_query(q: OverlapQuery, idx: nat, nerve: CechNerve, nodes: Seq<Node>) -> bool {
    let ov = nerve.overlaps@[idx as int];
    let secs = section_views(nerve.sections@);
    let sa = last_section(secs, ov.node_a)->0;
    let sb = last_section(secs, ov.node_b)->0;
    let na = nodes[index_of(nodes, ov.node_a)];
    let nb = nodes[index_of(nodes, ov.node_b)];
    let c = node_context(node_context((Seq::empty(), Seq::empty()), nodes, na), nodes, nb);
    let side_a = dedup(sa.constraints + sa.inherited);
    let side_b = dedup(sb.constraints + sb.inherited);
    &&& q.overlap_index == idx
    &&& q.node_a == ov.node_a
    &&& q.node_b == ov.node_b
    &&& q.context@ == c
    &&& constraint_views(q.side_a@) == side_a
    &&& constraint_views(q.side_b@) == side_b
    &&& labelled_views(q.labelled@) == side_labelled(c, idx, "a"@, side_a) + side_labelled(
        c,
        idx,
        "b"@,
        side_b,
    )
    &&& views(q.encode_errors@) == side_errors(c, "a"@, side_a) + side_errors(c, "b"@, side_b)
}

fn unknown(idx: usize, a: NodeId, b: NodeId, reason: String) -> (r: ObstructionResult)
    ensures
        r@ == unknown_result(idx as nat, a, b, reason@),
{
    let mut m = String::from_str("overlap ");
    m.append(decimal_text(idx).as_str());
    m.append(": ");
    m.append(reason.as_str());
    ObstructionResult { overlap_index: idx, node_a: a, node_b: b, status: ObstructionStatus::Unknown { reason: m } }
}

fn missing(what: &str, id: NodeId) -> (r: String)
    ensures
        r@ == what@ + uuid_text(id),
{
    let mut m = String::from_str(what);
    m.append(node_id_text(id).as_str());
    m
}

/// Prepare the check of overlap `idx` of `nerve`: decide it at once when a
/// section or graph node is missing or the two nodes declare a parameter
/// at different sorts; otherwise build the labelled terms of both sides.
pub fn prepare_overlap(idx: usize, nerve: &CechNerve, graph: &AilGraph) -> (r: OverlapStep)
    requires
        idx < nerve.overlaps@.len(),
    ensures
        r matches OverlapStep::Decided(res) ==> precheck(idx as nat, *nerve, graph@) == Some(res@),
        r matches OverlapStep::Check(q) ==> precheck(idx as nat, *nerve, graph@) is None && is_query(
            q,
            idx as nat,
            *nerve,
            graph@,
        ),
{
    let ov = &nerve.overlaps[idx];
    let a = ov.node_a;
    let b = ov.node_b;
    let ka = match find_last_section(&nerve.sections, a) {
        Some(k) => k,
        None => return OverlapStep::Decided(unknown(idx, a, b, missing("section missing for node_a ", a))),
    };
    let kb = match find_last_section(&nerve.sections, b) {
        Some(k) => k,
        None => return OverlapStep::Decided(unknown(idx, a, b, missing("section missing for node_b ", b))),
    };
    let node_a = match graph.get_node(a) {
        Some(n) => n,
        None => return OverlapStep::Decided(unknown(idx, a, b, missing("graph node missing for node_a ", a))),
    };
    let node_b = match graph.get_node(b) {
        Some(n) => n,
        None => return OverlapStep::Decided(unknown(idx, a, b, missing("graph node missing for node_b ", b))),
    };
    match check_sort_conflict(node_a, node_b, graph) {
        Some(m) => return OverlapStep::Decided(unknown(idx, a, b, m)),
        None => {},
    }
    let mut context = EncodeContext::new();
    populate_encode_context(&mut context, node_a, graph);
    populate_encode_context(&mut context, node_b, graph);
    let side_a = section_side(&nerve.sections[ka]);
    let side_b = section_side(&nerve.sections[kb]);
    let mut labelled: Vec<LabelledTerm> = Vec::new();
    let mut encode_errors: Vec<String> = Vec::new();
    assert(labelled_views(labelled@) =~= Seq::<(Seq<char>, BoolTermView)>::empty());
    assert(views(encode_errors@) =~= Seq::<Seq<char>>::empty());
    track_side(&context, idx, "a", &side_a, &mut labelled, &mut encode_errors);
    track_side(&context, idx, "b", &side_b, &mut labelled, &mut encode_errors);
    OverlapStep::Check(
        OverlapQuery { overlap_index: idx, node_a: a, node_b: b, context, side_a, side_b, labelled, encode_errors },
    )
}

fn join_errors(v: &Vec<String>) -> (r: String)
    ensures
        r@ == join_texts(views(v@), "; "@),
{
    let ghost vs = views(v@);
    let mut out = String::new();
    let mut i: usize = 0;
    assert(vs.take(0) =~= Seq::<Seq<char>>::empty());
    while i < v.len()
        invariant
            i <= v@.len(),
            vs == views(v@),
            out@ == join_texts(vs.take(i as int), "; "@),
        decreases v.len() - i,
    {
        assert(vs.take(i + 1).drop_last() =~= vs.take(i as int));
        if i > 0 {
            out.append("; ");
        }
        out.append(v[i].as_str());
        proof {
            if i == 0 {
                assert(vs.take(1).len() == 1);
            }
        }
        assert(out@ =~= join_texts(vs.take(i + 1), "; "@));
        i += 1;
    }
    assert(vs.take(v@.len() as int) =~= vs);
    out
}

fn core_constraints(idx: usize, side_name: &str, side: &Vec<ConstraintExpr>, core: &Vec<String>) -> (r: Vec<ConstraintExpr>)
    ensures
        constraint_views(r@) == core_part(
            idx as nat,
            side_name@,
            constraint_views(side@),
            views(core@),
            side@.len() as int,
        ),
{
    let ghost sv = constraint_views(side@);
    proof {
        lemma_constraint_views_take(side@, 0);
    }
    let mut out: Vec<ConstraintExpr> = Vec::new();
    let mut i: usize = 0;
    assert(constraint_views(out@) =~= Seq::<ConstraintView>::empty());
    while i < side.len()
        invariant
            i <= side@.len(),
            sv == constraint_views(side@),
            sv.len() == side@.len(),
            constraint_views(out@) == core_part(idx as nat, side_name@, sv, views(core@), i as int),
        decreases side.len() - i,
    {
        proof {
            lemma_constraint_views_index(side@, i as int);
        }
        let label = label_of(idx, side_name, i);
        if slice_contains(core.as_slice(), &label) {
            let d = side[i].duplicate();
            let ghost before = out@;
            out.push(d);
            assert(out@.drop_last() =~= before);
        }
        i += 1;
    }
    out
}

fn text_position(texts: &Vec<String>, t: &String, shown: Ghost<Seq<ConstraintView>>, x: Ghost<ConstraintView>) -> (p: usize)
    requires
        texts@.len() == shown@.len(),
        forall|k: int| 0 <= k < texts@.len() ==> (#[trigger] texts@[k])@ == render_constraint(shown@[k]),
        t@ == render_constraint(x@),
    ensures
        p as int == text_pos(shown@, x@),
        p <= texts@.len(),
{
    let ghost s = shown@;
    let mut j: usize = 0;
    assert(s.skip(0) =~= s);
    while j < texts.len() && !text_less(t.as_str(), texts[j].as_str())
        invariant
            j <= texts@.len(),
            texts@.len() == s.len(),
            forall|k: int| 0 <= k < texts@.len() ==> (#[trigger] texts@[k])@ == render_constraint(s[k]),
            t@ == render_constraint(x@),
            text_pos(s, x@) == j + text_pos(s.skip(j as int), x@),
        decreases texts.len() - j,
    {
        assert(s.skip(j as int)[0] == s[j as int]);
        assert(s.skip(j as int).drop_first() =~= s.skip(j + 1));
        j += 1;
    }
    if j < texts.len() {
        assert(s.skip(j as int)[0] == s[j as int]);
    } else {
        assert(s.skip(j as int).len() == 0);
    }
    j
}

/// `v` stably sorted by the constraints' texts (see `sort_by_text`).
fn sort_constraints_by_text(v: &Vec<ConstraintExpr>) -> (r: Vec<ConstraintExpr>)
    ensures
        constraint_views(r@) == sort_by_text(constraint_views(v@)),
{
    let ghost sv = constraint_views(v@);
    proof {
        lemma_constraint_views_take(v@, 0);
    }
    let mut out: Vec<ConstraintExpr> = Vec::new();
    let mut texts: Vec<String> = Vec::new();
    let mut i: usize = 0;
    assert(sv.take(0) =~= Seq::<ConstraintView>::empty());
    assert(constraint_views(out@) =~= Seq::<ConstraintView>::empty());
    while i < v.len()
        invariant
            i <= v@.len(),
            sv == constraint_views(v@),
            sv.len() == v@.len(),
            constraint_views(out@) == sort_by_text(sv.take(i as int)),
            texts@.len() == out@.len(),
            forall|k: int| 0 <= k < texts@.len() ==> (#[trigger] texts@[k])@ == render_constraint(
                constraint_views(out@)[k],
            ),
        decreases v.len() - i,
    {
        proof {
            lemma_constraint_views_index(v@, i as int);
            lemma_constraint_views_take(out@, 0);
        }
        let ghost ov = constraint_views(out@);
        let ghost x = sv[i as int];
        assert(sv.take(i + 1).drop_last() =~= sv.take(i as int));
        assert(sv.take(i + 1).last() == x);
        let t = crate::render::constraint_text(&v[i]);
        let p = text_position(&texts, &t, Ghost(ov), Ghost(x));
        let d = v[i].duplicate();
        let ghost old_out = out@;
        let ghost old_texts = texts@;
        out.insert(p, d);
        texts.insert(p, t);
        proof {
            lemma_constraint_views_take(out@, 0);
            let nv = constraint_views(out@);
            let want = ov.insert(p as int, x);
            assert forall|k: int| 0 <= k < nv.len() implies nv[k] == want[k] by {
                lemma_constraint_views_index(out@, k);
                if k < p {
                    assert(out@[k] == old_out[k]);
                    lemma_constraint_views_index(old_out, k);
                } else if k > p {
                    assert(out@[k] == old_out[k - 1]);
                    lemma_constraint_views_index(old_out, k - 1);
                }
            }
            assert(nv =~= want);
            assert forall|k: int| 0 <= k < texts@.len() implies (#[trigger] texts@[k])@ == render_constraint(
                nv[k],
            ) by {
                if k < p {
                    assert(texts@[k] == old_texts[k]);
                } else if k > p {
                    assert(texts@[k] == old_texts[k - 1]);
                }
            }
        }
        i += 1;
    }
    assert(sv.take(v@.len() as int) =~= sv);
    out
}

/// The result of an overlap check from the solver's answer: satisfiable is
/// consistent, unsatisfiable is contradictory with the constraints of each
/// side whose labels are in the core, each list sorted by the constraints'
/// texts; both unknown when some constraint
/// could not be encoded, when the core names no constraint, or when the
/// solver gave no answer.
pub fn conclude_overlap(q: &OverlapQuery, answer: &OverlapAnswer) -> (r: ObstructionResult)
    ensures
        r@ == conclusion(*q, *answer),
{
    let idx = q.overlap_index;
    match answer {
        OverlapAnswer::Sat => {
            if q.encode_errors.len() == 0 {
                ObstructionResult {
                    overlap_index: idx,
                    node_a: q.node_a,
                    node_b: q.node_b,
                    status: ObstructionStatus::Consistent,
                }
            } else {
                let mut m = String::from_str("SAT result with partial encoding — ");
                m.append(join_errors(&q.encode_errors).as_str());
                unknown(idx, q.node_a, q.node_b, m)
            }
        },
        OverlapAnswer::Unsat(core) => {
            if q.encode_errors.len() > 0 {
                let mut m = String::from_str("UNSAT result with partial encoding — ");
                m.append(join_errors(&q.encode_errors).as_str());
                return unknown(idx, q.node_a, q.node_b, m);
            }
            let ca = core_constraints(idx, "a", &q.side_a, core);
            let cb = core_constraints(idx, "b", &q.side_b, core);
            proof {
                lemma_constraint_views_take(ca@, 0);
                lemma_constraint_views_take(cb@, 0);
                lemma_constraint_views_take(q.side_a@, 0);
                lemma_constraint_views_take(q.side_b@, 0);
            }
            if ca.len() == 0 && cb.len() == 0 {
                let r = unknown(
                    idx,
                    q.node_a,
                    q.node_b,
                    String::from_str("UNSAT core empty — no tracked labels attributable"),
                );
                r
            } else {
                let sa = sort_constraints_by_text(&ca);
                let sb = sort_constraints_by_text(&cb);
                ObstructionResult {
                    overlap_index: idx,
                    node_a: q.node_a,
                    node_b: q.node_b,
                    status: ObstructionStatus::Contradictory { conflicting_a: sa, conflicting_b: sb },
                }
            }
        },
        OverlapAnswer::Unknown => unknown(
            idx,
            q.node_a,
            q.node_b,
            String::from_str("Z3 returned Unknown (timeout or resource limit)"),
        ),
    }
}

// ─── laws ───────────────────────────────────────────────────────────────────

proof fn lemma_core_part(idx: nat, name: Seq<char>, side: Seq<ConstraintView>, core: Seq<Seq<char>>, n: int)
    ensures
        forall|k: int|
            0 <= k < core_part(idx, name, side, core, n).len() ==> side.contains(
                #[trigger] core_part(idx, name, side, core, n)[k],
            ),
    decreases n,
{
    if n > 0 && n <= side.len() {
        lemma_core_part(idx, name, side, core, n - 1);
        let prev = core_part(idx, name, side, core, n - 1);
        let all = core_part(idx, name, side, core, n);
        assert forall|k: int| 0 <= k < all.len() implies side.contains(#[trigger] all[k]) by {
            if k < prev.len() {
                assert(all[k] == prev[k]);
            } else {
                assert(all[k] == side[n - 1]);
            }
        }
    }
}

proof fn lemma_text_pos(s: Seq<ConstraintView>, x: ConstraintView)
    requires
        sorted_by_text(s),
    ensures
        0 <= text_pos(s, x) <= s.len(),
        forall|k: int| 0 <= k < text_pos(s, x) ==> !text_lt(render_constraint(x), render_constraint(#[trigger] s[k])),
        forall|k: int| text_pos(s, x) <= k < s.len() ==> text_lt(render_constraint(x), render_constraint(#[trigger] s[k])),
    decreases s.len(),
{
    if s.len() > 0 {
        let t = s.drop_first();
        assert forall|i: int, j: int| 0 <= i < j < t.len() implies !text_lt(
            render_constraint(#[trigger] t[j]),
            render_constraint(#[trigger] t[i]),
        ) by {
            assert(t[i] == s[i + 1] && t[j] == s[j + 1]);
        }
        if !text_lt(render_constraint(x), render_constraint(s[0])) {
            lemma_text_pos(t, x);
            assert forall|k: int| 0 <= k < text_pos(s, x) implies !text_lt(
                render_constraint(x),
                render_constraint(#[trigger] s[k]),
            ) by {
                if k > 0 {
                    assert(s[k] == t[k - 1]);
                }
            }
            assert forall|k: int| text_pos(s, x) <= k < s.len() implies text_lt(
                render_constraint(x),
                render_constraint(#[trigger] s[k]),
            ) by {
                assert(s[k] == t[k - 1]);
            }
        } else {
            assert forall|k: int| 0 <= k < s.len() implies text_lt(
                render_constraint(x),
                render_constraint(#[trigger] s[k]),
            ) by {
                if k > 0 {
                    let a = render_constraint(s[0]);
                    let b = render_constraint(s[k]);
                    assert(!text_lt(b, a));
                    lemma_text_lt_total(a, b);
                    if a != b {
                        lemma_text_lt_trans(render_constraint(x), a, b);
                    }
                }
            }
        }
    }
}

/// Sorting by text keeps the constraints, each as often, and orders them
/// by their texts.
pub proof fn lemma_sort_by_text(s: Seq<ConstraintView>)
    ensures
        sorted_by_text(sort_by_text(s)),
        sort_by_text(s).len() == s.len(),
        sort_by_text(s).to_multiset() == s.to_multiset(),
    decreases s.len(),
{
    if s.len() > 0 {
        let prev = s.drop_last();
        lemma_sort_by_text(prev);
        let t = sort_by_text(prev);
        let x = s.last();
        let p = text_pos(t, x);
        lemma_text_pos(t, x);
        let u = t.insert(p, x);
        assert(sort_by_text(s) == u);
        assert forall|i: int, j: int| 0 <= i < j < u.len() implies !text_lt(
            render_constraint(#[trigger] u[j]),
            render_constraint(#[trigger] u[i]),
        ) by {
            if j < p {
                assert(u[i] == t[i] && u[j] == t[j]);
            } else if j == p {
                assert(u[i] == t[i]);
            } else if i < p {
                assert(u[i] == t[i] && u[j] == t[j - 1]);
            } else if i == p {
                assert(u[j] == t[j - 1]);
                lemma_text_lt_total(render_constraint(x), render_constraint(t[j - 1]));
            } else {
                assert(u[i] == t[i - 1] && u[j] == t[j - 1]);
            }
        }
        let a = t.take(p);
        let b = t.skip(p);
        assert(u =~= a + seq![x] + b);
        assert(t =~= a + b);
        vstd::seq_lib::lemma_multiset_commutative(a + seq![x], b);
        vstd::seq_lib::lemma_multiset_commutative(a, seq![x]);
        vstd::seq_lib::lemma_multiset_commutative(a, b);
        assert(s =~= prev.push(x));
        prev.to_multiset_ensures();
        let e = Seq::<ConstraintView>::empty();
        e.to_multiset_ensures();
        assert(seq![x] =~= e.push(x));
        assert(u.to_multiset() =~= s.to_multiset());
    } else {
        assert(s =~= Seq::<ConstraintView>::empty());
    }
}

/// What each answer of the solver concludes for a prepared check: a
/// satisfiable answer gives `Consistent` exactly when every constraint of
/// both sides encoded; an unsatisfiable one gives `Contradictory` exactly
/// when every constraint encoded and the core names a constraint of either
/// side; no answer gives `Unknown`.
pub proof fn lemma_overlap_conclusions(q: OverlapQuery, core: Vec<String>)
    ensures
        conclusion(q, OverlapAnswer::Sat).status is Consistent <==> q.encode_errors@.len() == 0,
        conclusion(q, OverlapAnswer::Unsat(core)).status is Contradictory <==> q.encode_errors@.len() == 0 && (
        core_part(
            q.overlap_index as nat,
            "a"@,
            constraint_views(q.side_a@),
            views(core@),
            q.side_a@.len() as int,
        ).len() > 0 || core_part(
            q.overlap_index as nat,
            "b"@,
            constraint_views(q.side_b@),
            views(core@),
            q.side_b@.len() as int,
        ).len() > 0),
        conclusion(q, OverlapAnswer::Unknown).status is Unknown,
        !(conclusion(q, OverlapAnswer::Sat).status is Contradictory),
        !(conclusion(q, OverlapAnswer::Unsat(core)).status is Consistent),
{
    assert(views(q.encode_errors@).len() == q.encode_errors@.len());
    lemma_constraint_views_take(q.side_a@, 0);
    lemma_constraint_views_take(q.side_b@, 0);
}

proof fn lemma_sorted_keeps(s: Seq<ConstraintView>)
    ensures
        forall|k: int| 0 <= k < sort_by_text(s).len() ==> s.contains(#[trigger] sort_by_text(s)[k]),
{
    lemma_sort_by_text(s);
    let u = sort_by_text(s);
    assert forall|k: int| 0 <= k < u.len() implies s.contains(#[trigger] u[k]) by {
        u.to_multiset_ensures();
        s.to_multiset_ensures();
        assert(u.to_multiset().count(u[k]) > 0);
    }
}

/// A contradictory overlap names at least one conflicting constraint, and
/// each constraint it names is one of its side's; an overlap is only ever
/// consistent or contradictory when every constraint of both sides was
/// encoded.
pub proof fn lemma_conclusion_attributed(q: OverlapQuery, answer: OverlapAnswer)
    ensures
        conclusion(q, answer).status matches StatusView::Contradictory { conflicting_a, conflicting_b }
            ==> sorted_by_text(conflicting_a) && sorted_by_text(conflicting_b),
        conclusion(q, answer).status matches StatusView::Contradictory { conflicting_a, conflicting_b }
            ==> conflicting_a.len() + conflicting_b.len() > 0 && (forall|k: int|
            0 <= k < conflicting_a.len() ==> constraint_views(q.side_a@).contains(
                #[trigger] conflicting_a[k],
            )) && (forall|k: int|
            0 <= k < conflicting_b.len() ==> constraint_views(q.side_b@).contains(
                #[trigger] conflicting_b[k],
            )),
        !(conclusion(q, answer).status is Unknown) ==> q.encode_errors@.len() == 0,
{
    match answer {
        OverlapAnswer::Unsat(core) => {
            let sa = constraint_views(q.side_a@);
            let sb = constraint_views(q.side_b@);
            let ca = core_part(q.overlap_index as nat, "a"@, sa, views(core@), sa.len() as int);
            let cb = core_part(q.overlap_index as nat, "b"@, sb, views(core@), sb.len() as int);
            lemma_core_part(q.overlap_index as nat, "a"@, sa, views(core@), sa.len() as int);
            lemma_core_part(q.overlap_index as nat, "b"@, sb, views(core@), sb.len() as int);
            lemma_sort_by_text(ca);
            lemma_sort_by_text(cb);
            lemma_sorted_keeps(ca);
            lemma_sorted_keeps(cb);
        },
        _ => {},
    }
}

} // verus!
