//! The decisions of semantic coverage that need no arithmetic on vectors:
//! which children a node's coverage is computed over, the checks of the
//! embedding vectors' lengths, which basis vector carries each child's
//! projection, the concept list that missing aspects are sought among, and
//! the preview of a child's intent.

use vstd::prelude::*;

use crate::model::{index_of, AilGraph, Node, NodeId};
use crate::text::{is_blank, str_trim, trim};

verus! {

/// The number of characters an intent preview keeps.
pub const INTENT_PREVIEW_LEN: usize = 60;

/// The default concepts, all lower case and distinct.
pub open spec fn default_concepts() -> Seq<Seq<char>> {
    seq![
        "input validation"@,
        "authentication"@,
        "authorization"@,
        "rate limiting"@,
        "cross-site request forgery protection"@,
        "secrets management"@,
        "error handling"@,
        "retry logic"@,
        "idempotency"@,
        "transaction"@,
        "concurrency control"@,
        "deadlock prevention"@,
        "saga pattern"@,
        "circuit breaker"@,
        "timeout handling"@,
        "graceful degradation"@,
        "rollback"@,
        "caching"@,
        "persistence"@,
        "pagination"@,
        "sorting"@,
        "filtering"@,
        "data migration"@,
        "schema validation"@,
        "serialization"@,
        "deserialization"@,
        "data consistency"@,
        "event sourcing"@,
        "logging"@,
        "observability"@,
        "metrics collection"@,
        "tracing"@,
        "audit trail"@,
        "feature flag"@,
        "configuration management"@,
        "notification"@,
        "scheduling"@,
        "background job"@,
        "webhook delivery"@,
        "resource cleanup"@,
    ]
}

/// The texts of a sequence of string slices.
pub open spec fn str_views(s: Seq<&str>) -> Seq<Seq<char>> {
    s.map_values(|x: &str| x@)
}

/// The default concept list, in its fixed order.
pub fn default_concept_list() -> (r: Vec<&'static str>)
    ensures
        str_views(r@) == default_concepts(),
{
    let r: Vec<&'static str> = vec![
        "input validation",
        "authentication",
        "authorization",
        "rate limiting",
        "cross-site request forgery protection",
        "secrets management",
        "error handling",
        "retry logic",
        "idempotency",
        "transaction",
        "concurrency control",
        "deadlock prevention",
        "saga pattern",
        "circuit breaker",
        "timeout handling",
        "graceful degradation",
        "rollback",
        "caching",
        "persistence",
        "pagination",
        "sorting",
        "filtering",
        "data migration",
        "schema validation",
        "serialization",
        "deserialization",
        "data consistency",
        "event sourcing",
        "logging",
        "observability",
        "metrics collection",
        "tracing",
        "audit trail",
        "feature flag",
        "configuration management",
        "notification",
        "scheduling",
        "background job",
        "webhook delivery",
        "resource cleanup",
    ];
    assert(str_views(r@) =~= default_concepts());
    r
}

/// The trimmed extra concepts of `extras` that are not blank, in order.
pub open spec fn trimmed_extras(extras: Seq<Seq<char>>) -> Seq<Seq<char>>
    decreases extras.len(),
{
    if extras.len() == 0 {
        seq![]
    } else if trim(extras.last()).len() == 0 {
        trimmed_extras(extras.drop_last())
    } else {
        trimmed_extras(extras.drop_last()).push(trim(extras.last()))
    }
}

/// The concepts to compare against: the default list, then each extra
/// concept trimmed, blank ones left out.
pub fn combined_concepts<'a>(extras: &'a [String]) -> (r: Vec<&'a str>)
    ensures
        str_views(r@) == default_concepts() + trimmed_extras(crate::text::views(extras@)),
{
    let mut out: Vec<&'a str> = default_concept_list();
    let ghost ev = crate::text::views(extras@);
    let mut i: usize = 0;
    assert(ev.take(0) =~= Seq::<Seq<char>>::empty());
    assert(default_concepts() + trimmed_extras(ev.take(0)) =~= default_concepts());
    while i < extras.len()
        invariant
            i <= extras@.len(),
            ev == crate::text::views(extras@),
            str_views(out@) == default_concepts() + trimmed_extras(ev.take(i as int)),
        decreases extras.len() - i,
    {
        assert(ev.take(i + 1).drop_last() =~= ev.take(i as int));
        assert(ev.take(i + 1).last() == extras@[i as int]@);
        let t = str_trim(extras[i].as_str());
        if !is_blank(t) {
            proof {
                assert(trim(t@) == t@) by {
                    lemma_trim_idempotent(extras@[i as int]@);
                }
            }
            let ghost before = out@;
            out.push(t);
            assert(str_views(out@) =~= str_views(before).push(t@));
            assert(str_views(out@) =~= default_concepts() + trimmed_extras(ev.take(i + 1)));
        } else {
            proof {
                lemma_trim_idempotent(extras@[i as int]@);
            }
        }
        i += 1;
    }
    assert(ev.take(extras@.len() as int) =~= ev);
    out
}

proof fn lemma_trim_idempotent(s: Seq<char>)
    ensures
        trim(trim(s)) == trim(s),
{
    crate::text::lemma_trim_idempotent(s);
}

/// The preview of an intent: its first 60 characters, followed by `…` when
/// it has more.
pub open spec fn preview_of(intent: Seq<char>) -> Seq<char> {
    if intent.len() <= INTENT_PREVIEW_LEN {
        intent
    } else {
        intent.take(INTENT_PREVIEW_LEN as int) + "…"@
    }
}

/// Truncate an intent to `INTENT_PREVIEW_LEN` characters (not bytes, so a
/// multi-byte character is never split), appending `…` when characters were
/// cut.
pub fn truncate_preview(intent: &str) -> (r: String)
    ensures
        r@ == preview_of(intent@),
{
    let n = intent.unicode_len();
    if n <= INTENT_PREVIEW_LEN {
        return String::from_str(intent);
    }
    let mut out = String::from_str(intent.substring_char(0, INTENT_PREVIEW_LEN));
    out.append("…");
    assert(intent@.subrange(0, INTENT_PREVIEW_LEN as int) =~= intent@.take(INTENT_PREVIEW_LEN as int));
    out
}

/// Why coverage could not be computed.
#[derive(Debug)]
pub enum CoverageError {
    /// The node does not exist in the graph.
    NodeNotFound(NodeId),
    /// The embedding provider failed, with its message.
    Embedding(String),
    /// The embedding provider reported dimension 0.
    ZeroDimension,
    /// The provider returned a vector of another length than its dimension.
    DimensionMismatch { expected: usize, actual: usize },
}

/// The indices in `nodes` of the children `kids` that count for coverage:
/// those present in the graph whose intent is not blank, in child order.
pub open spec fn coverage_children_of(nodes: Seq<Node>, kids: Seq<NodeId>) -> Seq<int>
    decreases kids.len(),
{
    if kids.len() == 0 {
        seq![]
    } else {
        let rest = coverage_children_of(nodes, kids.drop_last());
        let j = index_of(nodes, kids.last());
        if j >= 0 && trim(nodes[j].intent@).len() != 0 {
            rest.push(j)
        } else {
            rest
        }
    }
}

/// The children that the coverage of node `id` is computed over, as
/// indices into the graph's nodes: its children whose intent is not blank,
/// in child order. An unknown node is `NodeNotFound`; an empty result means
/// the node is a leaf, whose coverage is not applicable.
pub fn coverage_children(graph: &AilGraph, id: NodeId) -> (r: Result<Vec<usize>, CoverageError>)
    ensures
        r is Err <==> index_of(graph@, id) < 0,
        r matches Err(e) ==> e == CoverageError::NodeNotFound(id),
        r matches Ok(ix) ==> ix@.map_values(|k: usize| k as int) == coverage_children_of(
            graph@,
            crate::model::children_in(graph@, id),
        ),
{
    if graph.index_of(id).is_none() {
        return Err(CoverageError::NodeNotFound(id));
    }
    let kids = graph.children(id);
    let mut out: Vec<usize> = Vec::new();
    let mut i: usize = 0;
    assert(kids@.take(0) =~= Seq::<NodeId>::empty());
    assert(out@.map_values(|k: usize| k as int) =~= Seq::<int>::empty());
    while i < kids.len()
        invariant
            i <= kids@.len(),
            kids@ == crate::model::children_in(graph@, id),
            out@.map_values(|k: usize| k as int) == coverage_children_of(graph@, kids@.take(i as int)),
        decreases kids.len() - i,
    {
        assert(kids@.take(i + 1).drop_last() =~= kids@.take(i as int));
        assert(kids@.take(i + 1).last() == kids@[i as int]);
        match graph.index_of(kids[i]) {
            Some(j) => {
                proof {
                    crate::model::lemma_index_of_bounds(graph@, kids@[i as int]);
                }
                if !is_blank(graph.all_nodes()[j].intent.as_str()) {
                    let ghost before = out@;
                    out.push(j);
                    assert(out@.map_values(|k: usize| k as int) =~= before.map_values(|k: usize| k as int).push(
                        j as int,
                    ));
                }
            },
            None => {},
        }
        i += 1;
    }
    assert(kids@.take(kids@.len() as int) =~= kids@);
    Ok(out)
}

/// Check the provider's dimension before embedding: 0 is `ZeroDimension`.
pub fn check_dimension(dim: usize) -> (r: Result<(), CoverageError>)
    ensures
        r is Ok <==> dim != 0,
        r matches Err(e) ==> e == CoverageError::ZeroDimension,
{
    if dim == 0 {
        Err(CoverageError::ZeroDimension)
    } else {
        Ok(())
    }
}

/// Check the lengths of the embedded vectors against the dimension `dim`:
/// the first vector of another length is a `DimensionMismatch`.
pub fn check_vector_lengths(dim: usize, lens: &Vec<usize>) -> (r: Result<(), CoverageError>)
    ensures
        r is Ok <==> forall|k: int| 0 <= k < lens@.len() ==> lens@[k] == dim,
        r matches Err(e) ==> exists|k: int|
            0 <= k < lens@.len() && lens@[k] != dim && (forall|m: int| 0 <= m < k ==> lens@[m] == dim)
                && e == (CoverageError::DimensionMismatch { expected: dim, actual: #[trigger] lens@[k] }),
{
    let mut i: usize = 0;
    while i < lens.len()
        invariant
            i <= lens@.len(),
            forall|m: int| 0 <= m < i ==> lens@[m] == dim,
        decreases lens.len() - i,
    {
        if lens[i] != dim {
            let e = CoverageError::DimensionMismatch { expected: dim, actual: lens[i] };
            assert(lens@[i as int] != dim);
            return Err(e);
        }
        i += 1;
    }
    Ok(())
}

/// Which basis vector carries the projection of each of `n` children,
/// given the child index of each basis vector in basis order: the last
/// basis vector of a child, or none (its projection is zero).
pub fn basis_slots(n: usize, accepted: &Vec<usize>) -> (r: Vec<Option<usize>>)
    requires
        forall|p: int| 0 <= p < accepted@.len() ==> accepted@[p] < n,
    ensures
        r@.len() == n,
        forall|c: int|
            0 <= c < n ==> match #[trigger] r@[c] {
                Some(p) => p < accepted@.len() && accepted@[p as int] == c && forall|q: int|
                    p < q < accepted@.len() ==> accepted@[q] != c,
                None => forall|q: int| 0 <= q < accepted@.len() ==> accepted@[q] != c,
            },
{
    let mut slots: Vec<Option<usize>> = Vec::new();
    let mut c: usize = 0;
    while c < n
        invariant
            c <= n,
            slots@.len() == c,
            forall|k: int| 0 <= k < c ==> slots@[k] is None,
        decreases n - c,
    {
        slots.push(None);
        c += 1;
    }
    let mut p: usize = 0;
    while p < accepted.len()
        invariant
            p <= accepted@.len(),
            slots@.len() == n,
            forall|q: int| 0 <= q < accepted@.len() ==> accepted@[q] < n,
            forall|c: int|
                0 <= c < n ==> match #[trigger] slots@[c] {
                    Some(x) => x < p && accepted@[x as int] == c && forall|q: int|
                        x < q < p ==> accepted@[q] != c,
                    None => forall|q: int| 0 <= q < p ==> accepted@[q] != c,
                },
        decreases accepted.len() - p,
    {
        let c = accepted[p];
        slots.set(c, Some(p));
        p += 1;
    }
    slots
}

// ─── laws of coverage ───────────────────────────────────────────────────────

/// The child `k` counts for coverage: it is a node of `nodes` whose trimmed
/// intent is not empty, whatever its pattern.
pub open spec fn counts_for_coverage(nodes: Seq<Node>, k: NodeId) -> bool {
    index_of(nodes, k) >= 0 && trim(nodes[index_of(nodes, k)].intent@).len() != 0
}

/// Coverage is computed over every child that is in the graph and whose
/// trimmed intent is not empty, whatever its pattern (`do`, `check`,
/// `describe`, ...), in child order and each once per listing.
pub proof fn lemma_coverage_over_every_nonblank_child(nodes: Seq<Node>, kids: Seq<NodeId>)
    ensures
        coverage_children_of(nodes, kids) == kids.filter(|k: NodeId| counts_for_coverage(nodes, k)).map_values(
            |k: NodeId| index_of(nodes, k),
        ),
    decreases kids.len(),
{
    reveal(Seq::filter);
    if kids.len() > 0 {
        lemma_coverage_over_every_nonblank_child(nodes, kids.drop_last());
        let f = kids.drop_last().filter(|k: NodeId| counts_for_coverage(nodes, k));
        if counts_for_coverage(nodes, kids.last()) {
            assert(f.push(kids.last()).map_values(|k: NodeId| index_of(nodes, k)) =~= f.map_values(
                |k: NodeId| index_of(nodes, k),
            ).push(index_of(nodes, kids.last())));
        }
    } else {
        assert(kids.filter(|k: NodeId| counts_for_coverage(nodes, k)).map_values(|k: NodeId| index_of(nodes, k))
            =~= Seq::<int>::empty());
    }
}

} // verus!
