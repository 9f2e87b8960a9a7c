//! Which cached context packets a change of one node makes stale.
//!
//! A node's context packet depends on its ancestors (inherited
//! constraints), its preceding siblings (scope and promoted facts), its
//! descendants and the nodes it refers to. When node `a` changes, the
//! packets to drop are those of:
//! 1. `a` and its descendants;
//! 2. its ancestors;
//! 3. its later siblings, by position under the same parent and along
//!    sibling edges, with their descendants;
//! 4. the nodes that refer to `a` by a diagonal edge;
//! 5. when `a` is a `check` node, whose fact is promoted to what follows
//!    it, the later siblings of `a` and of each of its ancestors, with
//!    their descendants.

use vstd::prelude::*;

use crate::model::NodeId;
use crate::store::EdgeKind;

verus! {

/// A stored node as the invalidation rules see it.
#[derive(Debug, Clone, Copy)]
pub struct StoredNode {
    pub id: NodeId,
    pub parent: Option<NodeId>,
    pub position: i64,
    /// The node is a `check` node.
    pub is_check: bool,
}

/// A stored edge.
#[derive(Debug, Clone, Copy)]
pub struct StoredEdge {
    pub source: NodeId,
    pub target: NodeId,
    pub kind: EdgeKind,
}

/// A way of moving from node to node.
#[derive(Debug, Clone, Copy, PartialEq, Eq, Structural)]
pub enum StepKind {
    /// From a node to a child.
    Down,
    /// From a node to its parent.
    Up,
    /// Along a sibling edge, to the next sibling.
    Next,
}

/// One step of kind `k` leads from `from` to `to`.
pub open spec fn step(rows: Seq<StoredNode>, edges: Seq<StoredEdge>, k: StepKind, from: NodeId, to: NodeId) -> bool {
    match k {
        StepKind::Down => exists|i: int| 0 <= i < rows.len() && (#[trigger] rows[i]).id == to && rows[i].parent == Some(from),
        StepKind::Up => exists|i: int| 0 <= i < rows.len() && (#[trigger] rows[i]).id == from && rows[i].parent == Some(to),
        StepKind::Next => exists|i: int|
            0 <= i < edges.len() && (#[trigger] edges[i]).source == from && edges[i].target == to && edges[i].kind
                == EdgeKind::Eh,
    }
}

/// `p` is a walk of at least one step of kind `k`.
pub open spec fn is_walk(rows: Seq<StoredNode>, edges: Seq<StoredEdge>, k: StepKind, p: Seq<NodeId>) -> bool {
    &&& p.len() >= 2
    &&& forall|i: int| 0 <= i < p.len() - 1 ==> #[trigger] step(rows, edges, k, p[i], p[i + 1])
}

/// `x` is reached from `a` by one or more steps of kind `k`.
pub open spec fn reach(rows: Seq<StoredNode>, edges: Seq<StoredEdge>, k: StepKind, a: NodeId, x: NodeId) -> bool {
    exists|p: Seq<NodeId>| #[trigger] is_walk(rows, edges, k, p) && p[0] == a && p.last() == x
}

/// `x` is one of `seeds` or reached from one of them by steps of kind `k`.
pub open spec fn from_seeds(
    rows: Seq<StoredNode>,
    edges: Seq<StoredEdge>,
    k: StepKind,
    seeds: Seq<NodeId>,
    x: NodeId,
) -> bool {
    seeds.contains(x) || exists|y: NodeId| seeds.contains(y) && #[trigger] reach(rows, edges, k, y, x)
}

/// `x` is `y` or one of its descendants.
pub open spec fn below(rows: Seq<StoredNode>, edges: Seq<StoredEdge>, y: NodeId, x: NodeId) -> bool {
    x == y || reach(rows, edges, StepKind::Down, y, x)
}

/// `y` is a node under `parent` at a position after `pos`.
pub open spec fn later_under(rows: Seq<StoredNode>, parent: NodeId, pos: i64, y: NodeId) -> bool {
    exists|j: int|
        0 <= j < rows.len() && (#[trigger] rows[j]).parent == Some(parent) && rows[j].position > pos && rows[j].id == y
}

/// `y` comes after `a` under the same parent.
pub open spec fn later_sibling(rows: Seq<StoredNode>, a: NodeId, y: NodeId) -> bool {
    exists|i: int|
        0 <= i < rows.len() && (#[trigger] rows[i]).id == a && rows[i].parent is Some && later_under(
            rows,
            rows[i].parent->0,
            rows[i].position,
            y,
        )
}

/// `a` is a `check` node.
pub open spec fn is_check_node(rows: Seq<StoredNode>, a: NodeId) -> bool {
    exists|i: int| 0 <= i < rows.len() && (#[trigger] rows[i]).id == a && rows[i].is_check
}

/// The packet of `x` is stale once `a` changes (see the module's rules).
pub open spec fn affected(rows: Seq<StoredNode>, edges: Seq<StoredEdge>, a: NodeId, x: NodeId) -> bool {
    ||| below(rows, edges, a, x)
    ||| reach(rows, edges, StepKind::Up, a, x)
    ||| exists|y: NodeId| #[trigger] later_sibling(rows, a, y) && below(rows, edges, y, x)
    ||| exists|y: NodeId| #[trigger] reach(rows, edges, StepKind::Next, a, y) && below(rows, edges, y, x)
    ||| exists|e: int|
        0 <= e < edges.len() && (#[trigger] edges[e]).target == a && edges[e].kind == EdgeKind::Ed
            && edges[e].source == x
    ||| is_check_node(rows, a) && exists|c: NodeId, y: NodeId|
        (c == a || reach(rows, edges, StepKind::Up, a, c)) && #[trigger] later_sibling(rows, c, y) && below(
            rows,
            edges,
            y,
            x,
        )
}

// ─── walks ──────────────────────────────────────────────────────────────────

proof fn lemma_step_reach(rows: Seq<StoredNode>, edges: Seq<StoredEdge>, k: StepKind, a: NodeId, x: NodeId)
    requires
        step(rows, edges, k, a, x),
    ensures
        reach(rows, edges, k, a, x),
{
    let p = seq![a, x];
    assert(is_walk(rows, edges, k, p)) by {
        assert forall|i: int| 0 <= i < p.len() - 1 implies #[trigger] step(rows, edges, k, p[i], p[i + 1]) by {
            assert(i == 0);
        }
    }
}

proof fn lemma_reach_step(
    rows: Seq<StoredNode>,
    edges: Seq<StoredEdge>,
    k: StepKind,
    a: NodeId,
    y: NodeId,
    x: NodeId,
)
    requires
        reach(rows, edges, k, a, y),
        step(rows, edges, k, y, x),
    ensures
        reach(rows, edges, k, a, x),
{
    let p = choose|p: Seq<NodeId>| #[trigger] is_walk(rows, edges, k, p) && p[0] == a && p.last() == y;
    let q = p.push(x);
    assert(is_walk(rows, edges, k, q)) by {
        assert forall|i: int| 0 <= i < q.len() - 1 implies #[trigger] step(rows, edges, k, q[i], q[i + 1]) by {
            if i < p.len() - 1 {
                assert(q[i] == p[i] && q[i + 1] == p[i + 1]);
                assert(step(rows, edges, k, p[i], p[i + 1]));
            } else {
                assert(q[i] == y && q[i + 1] == x);
            }
        }
    }
    assert(q[0] == a && q.last() == x);
}

/// A set of nodes closed under steps of kind `k` holds every node that a
/// walk from one of its nodes ends at.
proof fn lemma_closed_walk(rows: Seq<StoredNode>, edges: Seq<StoredEdge>, k: StepKind, s: Seq<NodeId>, p: Seq<NodeId>)
    requires
        is_walk(rows, edges, k, p),
        s.contains(p[0]),
        forall|z: NodeId, w: NodeId| s.contains(z) && #[trigger] step(rows, edges, k, z, w) ==> s.contains(w),
    ensures
        s.contains(p.last()),
    decreases p.len(),
{
    let last = p.len() - 2;
    assert(step(rows, edges, k, p[last], p[last + 1]));
    assert(p[last + 1] == p.last());
    if p.len() > 2 {
        let q = p.drop_last();
        assert(is_walk(rows, edges, k, q)) by {
            assert forall|i: int| 0 <= i < q.len() - 1 implies #[trigger] step(rows, edges, k, q[i], q[i + 1]) by {
                assert(q[i] == p[i] && q[i + 1] == p[i + 1]);
                assert(step(rows, edges, k, p[i], p[i + 1]));
            }
        }
        lemma_closed_walk(rows, edges, k, s, q);
        assert(q.last() == p[p.len() - 2]);
    } else {
        assert(p[p.len() - 2] == p[0]);
    }
}

/// A list without repetitions whose items all occur in `u` is no longer
/// than `u`.
proof fn lemma_distinct_bound(s: Seq<NodeId>, u: Seq<NodeId>)
    requires
        s.no_duplicates(),
        forall|k: int| 0 <= k < s.len() ==> u.contains(#[trigger] s[k]),
    ensures
        s.len() <= u.len(),
{
    s.unique_seq_to_set();
    u.lemma_cardinality_of_set();
    assert(s.to_set().subset_of(u.to_set())) by {
        assert forall|x: NodeId| s.to_set().contains(x) implies u.to_set().contains(x) by {
            let k = choose|k: int| 0 <= k < s.len() && s[k] == x;
            assert(u.contains(s[k]));
        }
    }
    vstd::seq_lib::seq_to_set_is_finite(u);
    vstd::set_lib::lemma_len_subset(s.to_set(), u.to_set());
}

// ─── single steps ───────────────────────────────────────────────────────────

/// The node ids a stored node or edge mentions: every step leads to one.
pub open spec fn mentioned(rows: Seq<StoredNode>, edges: Seq<StoredEdge>) -> Seq<NodeId> {
    rows.map_values(|r: StoredNode| r.id) + rows.map_values(
        |r: StoredNode| match r.parent {
            Some(p) => p,
            None => r.id,
        },
    ) + edges.map_values(|e: StoredEdge| e.target)
}

proof fn lemma_step_mentioned(rows: Seq<StoredNode>, edges: Seq<StoredEdge>, k: StepKind, a: NodeId, x: NodeId)
    requires
        step(rows, edges, k, a, x),
    ensures
        mentioned(rows, edges).contains(x),
{
    let m = mentioned(rows, edges);
    let n = rows.len() as int;
    match k {
        StepKind::Down => {
            let i = choose|i: int| 0 <= i < rows.len() && (#[trigger] rows[i]).id == x && rows[i].parent == Some(a);
            assert(m[i] == x);
        },
        StepKind::Up => {
            let i = choose|i: int| 0 <= i < rows.len() && (#[trigger] rows[i]).id == a && rows[i].parent == Some(x);
            assert(m[n + i] == x);
        },
        StepKind::Next => {
            let i = choose|i: int|
                0 <= i < edges.len() && (#[trigger] edges[i]).source == a && edges[i].target == x && edges[i].kind
                    == EdgeKind::Eh;
            assert(m[2 * n + i] == x);
        },
    }
}

/// Where one step of kind `k` leads from `from`.
fn successors(rows: &Vec<StoredNode>, edges: &Vec<StoredEdge>, k: StepKind, from: NodeId) -> (r: Vec<NodeId>)
    ensures
        forall|x: NodeId| r@.contains(x) <==> step(rows@, edges@, k, from, x),
{
    let mut out: Vec<NodeId> = Vec::new();
    match k {
        StepKind::Down | StepKind::Up => {
            let mut i: usize = 0;
            while i < rows.len()
                invariant
                    i <= rows@.len(),
                    k == StepKind::Down || k == StepKind::Up,
                    forall|x: NodeId|
                        out@.contains(x) <==> exists|j: int|
                            0 <= j < i && if k == StepKind::Down {
                                (#[trigger] rows@[j]).id == x && rows@[j].parent == Some(from)
                            } else {
                                (#[trigger] rows@[j]).id == from && rows@[j].parent == Some(x)
                            },
                decreases rows.len() - i,
            {
                let r = rows[i];
                let ghost before = out@;
                if k == StepKind::Down {
                    if r.parent == Some(from) {
                        out.push(r.id);
                    }
                } else if r.id == from {
                    match r.parent {
                        Some(p) => out.push(p),
                        None => {},
                    }
                }
                assert forall|x: NodeId|
                    out@.contains(x) <==> exists|j: int|
                        0 <= j < i + 1 && if k == StepKind::Down {
                            (#[trigger] rows@[j]).id == x && rows@[j].parent == Some(from)
                        } else {
                            (#[trigger] rows@[j]).id == from && rows@[j].parent == Some(x)
                        } by {
                    if out@.contains(x) {
                        if before.contains(x) {
                        } else {
                            assert(out@.last() == x);
                            assert(rows@[i as int] == r);
                        }
                    }
                    if exists|j: int|
                        0 <= j < i + 1 && if k == StepKind::Down {
                            (#[trigger] rows@[j]).id == x && rows@[j].parent == Some(from)
                        } else {
                            (#[trigger] rows@[j]).id == from && rows@[j].parent == Some(x)
                        } {
                        let j = choose|j: int|
                            0 <= j < i + 1 && if k == StepKind::Down {
                                (#[trigger] rows@[j]).id == x && rows@[j].parent == Some(from)
                            } else {
                                (#[trigger] rows@[j]).id == from && rows@[j].parent == Some(x)
                            };
                        if j < i {
                            assert(before.contains(x));
                            let w = choose|w: int| 0 <= w < before.len() && before[w] == x;
                            assert(out@[w] == x);
                        } else {
                            assert(rows@[j] == r);
                            assert(out@.last() == x);
                        }
                    }
                }
                i += 1;
            }
        },
        StepKind::Next => {
            let mut i: usize = 0;
            while i < edges.len()
                invariant
                    i <= edges@.len(),
                    forall|x: NodeId|
                        out@.contains(x) <==> exists|j: int|
                            0 <= j < i && (#[trigger] edges@[j]).source == from && edges@[j].target == x
                                && edges@[j].kind == EdgeKind::Eh,
                decreases edges.len() - i,
            {
                let e = edges[i];
                let ghost before = out@;
                if e.source == from && e.kind == EdgeKind::Eh {
                    out.push(e.target);
                }
                assert forall|x: NodeId|
                    out@.contains(x) <==> exists|j: int|
                        0 <= j < i + 1 && (#[trigger] edges@[j]).source == from && edges@[j].target == x
                            && edges@[j].kind == EdgeKind::Eh by {
                    if out@.contains(x) {
                        if !before.contains(x) {
                            assert(out@.last() == x);
                            assert(edges@[i as int] == e);
                        }
                    }
                    if exists|j: int|
                        0 <= j < i + 1 && (#[trigger] edges@[j]).source == from && edges@[j].target == x
                            && edges@[j].kind == EdgeKind::Eh {
                        let j = choose|j: int|
                            0 <= j < i + 1 && (#[trigger] edges@[j]).source == from && edges@[j].target == x
                                && edges@[j].kind == EdgeKind::Eh;
                        if j < i {
                            assert(before.contains(x));
                            let w = choose|w: int| 0 <= w < before.len() && before[w] == x;
                            assert(out@[w] == x);
                        } else {
                            assert(edges@[j] == e);
                            assert(out@.last() == x);
                        }
                    }
                }
                i += 1;
            }
        },
    }
    out
}

// ─── lists without repetitions ──────────────────────────────────────────────

fn contains_id(v: &Vec<NodeId>, x: NodeId) -> (b: bool)
    ensures
        b == v@.contains(x),
{
    let mut i: usize = 0;
    while i < v.len()
        invariant
            i <= v@.len(),
            forall|k: int| 0 <= k < i ==> v@[k] != x,
        decreases v.len() - i,
    {
        if v[i] == x {
            return true;
        }
        i += 1;
    }
    false
}

/// Append the items of `v` that `out` does not hold yet.
fn append_new(out: &mut Vec<NodeId>, v: &Vec<NodeId>)
    requires
        old(out)@.no_duplicates(),
    ensures
        final(out)@.no_duplicates(),
        forall|x: NodeId| final(out)@.contains(x) <==> (old(out)@.contains(x) || v@.contains(x)),
        final(out)@.len() >= old(out)@.len(),
        forall|j: int| 0 <= j < old(out)@.len() ==> final(out)@[j] == old(out)@[j],
{
    let mut i: usize = 0;
    while i < v.len()
        invariant
            i <= v@.len(),
            out@.no_duplicates(),
            out@.len() >= old(out)@.len(),
            forall|j: int| 0 <= j < old(out)@.len() ==> out@[j] == old(out)@[j],
            forall|x: NodeId| out@.contains(x) <==> (old(out)@.contains(x) || v@.take(i as int).contains(x)),
        decreases v.len() - i,
    {
        let x = v[i];
        let ghost before = out@;
        if !contains_id(out, x) {
            out.push(x);
            assert(out@.no_duplicates()) by {
                assert forall|a: int, b: int| 0 <= a < out@.len() && 0 <= b < out@.len() && a != b implies out@[a]
                    != out@[b] by {
                    if a < before.len() && b < before.len() {
                        assert(out@[a] == before[a] && out@[b] == before[b]);
                    } else if a < before.len() {
                        assert(out@[a] == before[a]);
                        assert(before.contains(before[a]));
                    } else {
                        assert(out@[b] == before[b]);
                        assert(before.contains(before[b]));
                    }
                }
            }
        }
        let ghost t = v@.take(i + 1);
        assert(t =~= v@.take(i as int).push(x));
        assert(out@ == before || out@ == before.push(x));
        assert(before.contains(x) || out@ == before.push(x));
        assert forall|y: NodeId| out@.contains(y) implies (old(out)@.contains(y) || t.contains(y)) by {
            let w = choose|w: int| 0 <= w < out@.len() && out@[w] == y;
            if w < before.len() {
                assert(before[w] == y);
                assert(before.contains(y));
                if v@.take(i as int).contains(y) {
                    let q = choose|q: int| 0 <= q < i && v@.take(i as int)[q] == y;
                    assert(t[q] == y);
                }
            } else {
                assert(y == x);
                assert(t[i as int] == x);
            }
        }
        assert forall|y: NodeId| old(out)@.contains(y) implies #[trigger] out@.contains(y) by {
            assert(before.contains(y));
            let w = choose|w: int| 0 <= w < before.len() && before[w] == y;
            assert(out@[w] == y);
        }
        assert forall|y: NodeId| #[trigger] t.contains(y) implies out@.contains(y) by {
            let in_before = v@.take(i as int).contains(y);
            if in_before {
                assert(before.contains(y));
                let w = choose|w: int| 0 <= w < before.len() && before[w] == y;
                assert(out@[w] == y);
            } else {
                let q = choose|q: int| 0 <= q < i + 1 && t[q] == y;
                if q < i {
                    assert(v@.take(i as int)[q] == y);
                    assert(false);
                }
                assert(y == x);
                if before.contains(x) {
                    let w = choose|w: int| 0 <= w < before.len() && before[w] == x;
                    assert(out@[w] == x);
                } else {
                    assert(out@[before.len() as int] == x);
                }
            }
        }
        assert forall|y: NodeId| out@.contains(y) <==> (old(out)@.contains(y) || v@.take(i + 1).contains(y)) by {
            if out@.contains(y) {
                assert(old(out)@.contains(y) || t.contains(y));
            }
            if old(out)@.contains(y) || t.contains(y) {
                assert(out@.contains(y));
            }
        }
        i += 1;
    }
    assert(v@.take(v@.len() as int) =~= v@);
}

// ─── closures ───────────────────────────────────────────────────────────────

/// The seeds with every node reached from them by steps of kind `k`,
/// each once.
pub fn closure(rows: &Vec<StoredNode>, edges: &Vec<StoredEdge>, k: StepKind, seeds: &Vec<NodeId>) -> (r: Vec<NodeId>)
    ensures
        r@.no_duplicates(),
        forall|x: NodeId| r@.contains(x) <==> from_seeds(rows@, edges@, k, seeds@, x),
{
    let ghost u = seeds@ + mentioned(rows@, edges@);
    let mut out: Vec<NodeId> = Vec::new();
    assert(out@.no_duplicates());
    append_new(&mut out, seeds);
    assert forall|z: NodeId| out@.contains(z) implies u.contains(z) && seeds@.contains(z) by {
        assert(!Seq::<NodeId>::empty().contains(z));
        assert(seeds@.contains(z));
        let w = choose|w: int| 0 <= w < seeds@.len() && seeds@[w] == z;
        assert(u[w] == z);
    }
    let mut i: usize = 0;
    while i < out.len()
        invariant
            i <= out@.len(),
            out@.no_duplicates(),
            u == seeds@ + mentioned(rows@, edges@),
            forall|z: NodeId| out@.contains(z) ==> u.contains(z),
            forall|z: NodeId| out@.contains(z) ==> from_seeds(rows@, edges@, k, seeds@, z),
            forall|z: NodeId| seeds@.contains(z) ==> out@.contains(z),
            forall|j: int, w: NodeId| 0 <= j < i && #[trigger] step(rows@, edges@, k, out@[j], w) ==> out@.contains(w),
        decreases u.len() - i,
    {
        proof {
            assert forall|m: int| 0 <= m < out@.len() implies u.contains(#[trigger] out@[m]) by {
                assert(out@.contains(out@[m]));
            }
            lemma_distinct_bound(out@, u);
        }
        let z = out[i];
        let next = successors(rows, edges, k, z);
        let ghost before = out@;
        proof {
            assert(out@.contains(z));
            assert forall|w: NodeId| next@.contains(w) implies from_seeds(rows@, edges@, k, seeds@, w) && u.contains(w) by {
                assert(step(rows@, edges@, k, z, w));
                lemma_step_mentioned(rows@, edges@, k, z, w);
                let m = mentioned(rows@, edges@);
                let t = choose|t: int| 0 <= t < m.len() && m[t] == w;
                assert(u[seeds@.len() + t] == w);
                if seeds@.contains(z) {
                    lemma_step_reach(rows@, edges@, k, z, w);
                } else {
                    let y = choose|y: NodeId| seeds@.contains(y) && #[trigger] reach(rows@, edges@, k, y, z);
                    lemma_reach_step(rows@, edges@, k, y, z, w);
                }
            }
        }
        append_new(&mut out, &next);
        assert forall|y: NodeId| #[trigger] out@.contains(y) implies from_seeds(rows@, edges@, k, seeds@, y) && u.contains(y) by {
            assert(before.contains(y) || next@.contains(y));
            if before.contains(y) {
                assert(from_seeds(rows@, edges@, k, seeds@, y));
                assert(u.contains(y));
            } else {
                assert(next@.contains(y));
                assert(step(rows@, edges@, k, z, y));
                lemma_step_mentioned(rows@, edges@, k, z, y);
                let m = mentioned(rows@, edges@);
                let t = choose|t: int| 0 <= t < m.len() && m[t] == y;
                assert(u[seeds@.len() + t] == y);
                if seeds@.contains(z) {
                    lemma_step_reach(rows@, edges@, k, z, y);
                } else {
                    let x = choose|x: NodeId| seeds@.contains(x) && #[trigger] reach(rows@, edges@, k, x, z);
                    lemma_reach_step(rows@, edges@, k, x, z, y);
                }
            }
        }
        assert forall|j: int, w: NodeId| 0 <= j < i + 1 && #[trigger] step(rows@, edges@, k, out@[j], w) implies out@.contains(
            w,
        ) by {
            assert(out@[j] == before[j]);
            if j < i {
                assert(step(rows@, edges@, k, before[j], w));
                assert(before.contains(w));
            } else {
                assert(next@.contains(w));
            }
        }
        i += 1;
    }
    proof {
        assert forall|x: NodeId| from_seeds(rows@, edges@, k, seeds@, x) implies out@.contains(x) by {
            if !seeds@.contains(x) {
                let y = choose|y: NodeId| seeds@.contains(y) && #[trigger] reach(rows@, edges@, k, y, x);
                let p = choose|p: Seq<NodeId>| #[trigger] is_walk(rows@, edges@, k, p) && p[0] == y && p.last() == x;
                assert forall|z: NodeId, w: NodeId| out@.contains(z) && #[trigger] step(rows@, edges@, k, z, w) implies out@.contains(
                    w,
                ) by {
                    let j = choose|j: int| 0 <= j < out@.len() && out@[j] == z;
                    assert(step(rows@, edges@, k, out@[j], w));
                }
                lemma_closed_walk(rows@, edges@, k, out@, p);
            }
        }
    }
    out
}

// ─── the rules ──────────────────────────────────────────────────────────────

fn nodes_under(rows: &Vec<StoredNode>, parent: NodeId, pos: i64) -> (r: Vec<NodeId>)
    ensures
        r@.no_duplicates(),
        forall|y: NodeId| r@.contains(y) <==> later_under(rows@, parent, pos, y),
{
    let mut out: Vec<NodeId> = Vec::new();
    let mut j: usize = 0;
    while j < rows.len()
        invariant
            j <= rows@.len(),
            out@.no_duplicates(),
            forall|y: NodeId|
                out@.contains(y) <==> exists|m: int|
                    0 <= m < j && (#[trigger] rows@[m]).parent == Some(parent) && rows@[m].position > pos
                        && rows@[m].id == y,
        decreases rows.len() - j,
    {
        let r = rows[j];
        let one = if r.parent == Some(parent) && r.position > pos {
            vec![r.id]
        } else {
            Vec::new()
        };
        let ghost before = out@;
        append_new(&mut out, &one);
        assert forall|y: NodeId|
            out@.contains(y) <==> exists|m: int|
                0 <= m < j + 1 && (#[trigger] rows@[m]).parent == Some(parent) && rows@[m].position > pos
                    && rows@[m].id == y by {
            assert(rows@[j as int] == r);
            if one@.contains(y) {
                assert(one@[0] == y);
            }
            if exists|m: int|
                0 <= m < j + 1 && (#[trigger] rows@[m]).parent == Some(parent) && rows@[m].position > pos
                    && rows@[m].id == y {
                let m = choose|m: int|
                    0 <= m < j + 1 && (#[trigger] rows@[m]).parent == Some(parent) && rows@[m].position > pos
                        && rows@[m].id == y;
                if m == j {
                    assert(one@[0] == y);
                    assert(one@.contains(y));
                }
            }
        }
        j += 1;
    }
    out
}

/// The nodes that come after `a` under the same parent, each once.
fn later_siblings(rows: &Vec<StoredNode>, a: NodeId) -> (r: Vec<NodeId>)
    ensures
        r@.no_duplicates(),
        forall|y: NodeId| r@.contains(y) <==> later_sibling(rows@, a, y),
{
    let mut out: Vec<NodeId> = Vec::new();
    let mut i: usize = 0;
    while i < rows.len()
        invariant
            i <= rows@.len(),
            out@.no_duplicates(),
            forall|y: NodeId|
                out@.contains(y) <==> exists|m: int|
                    0 <= m < i && (#[trigger] rows@[m]).id == a && rows@[m].parent is Some && later_under(
                        rows@,
                        rows@[m].parent->0,
                        rows@[m].position,
                        y,
                    ),
        decreases rows.len() - i,
    {
        let r = rows[i];
        let ghost before = out@;
        let found = match r.parent {
            Some(p) => if r.id == a {
                nodes_under(rows, p, r.position)
            } else {
                Vec::new()
            },
            None => Vec::new(),
        };
        assert(forall|y: NodeId|
            #[trigger] found@.contains(y) <==> (r.id == a && r.parent is Some && later_under(
                rows@,
                r.parent->0,
                r.position,
                y,
            )));
        append_new(&mut out, &found);
        assert forall|y: NodeId|
            out@.contains(y) <==> exists|m: int|
                0 <= m < i + 1 && (#[trigger] rows@[m]).id == a && rows@[m].parent is Some && later_under(
                    rows@,
                    rows@[m].parent->0,
                    rows@[m].position,
                    y,
                ) by {
            assert(rows@[i as int] == r);
            if out@.contains(y) {
                if before.contains(y) {
                    let m = choose|m: int|
                        0 <= m < i && (#[trigger] rows@[m]).id == a && rows@[m].parent is Some && later_under(
                            rows@,
                            rows@[m].parent->0,
                            rows@[m].position,
                            y,
                        );
                    assert(0 <= m < i + 1);
                } else {
                    assert(found@.contains(y));
                    assert(rows@[i as int].id == a && rows@[i as int].parent is Some);
                }
            }
            if exists|m: int|
                0 <= m < i + 1 && (#[trigger] rows@[m]).id == a && rows@[m].parent is Some && later_under(
                    rows@,
                    rows@[m].parent->0,
                    rows@[m].position,
                    y,
                ) {
                let m = choose|m: int|
                    0 <= m < i + 1 && (#[trigger] rows@[m]).id == a && rows@[m].parent is Some && later_under(
                        rows@,
                        rows@[m].parent->0,
                        rows@[m].position,
                        y,
                    );
                if m == i {
                    assert(found@.contains(y));
                } else {
                    assert(before.contains(y));
                }
            }
        }
        i += 1;
    }
    out
}

/// The nodes that refer to `a` by a diagonal edge.
fn diagonal_sources(edges: &Vec<StoredEdge>, a: NodeId) -> (r: Vec<NodeId>)
    ensures
        forall|x: NodeId|
            r@.contains(x) <==> exists|e: int|
                0 <= e < edges@.len() && (#[trigger] edges@[e]).target == a && edges@[e].kind == EdgeKind::Ed
                    && edges@[e].source == x,
{
    let mut out: Vec<NodeId> = Vec::new();
    let mut i: usize = 0;
    while i < edges.len()
        invariant
            i <= edges@.len(),
            forall|x: NodeId|
                out@.contains(x) <==> exists|e: int|
                    0 <= e < i && (#[trigger] edges@[e]).target == a && edges@[e].kind == EdgeKind::Ed
                        && edges@[e].source == x,
        decreases edges.len() - i,
    {
        let e = edges[i];
        let ghost before = out@;
        if e.target == a && e.kind == EdgeKind::Ed {
            out.push(e.source);
        }
        assert forall|x: NodeId|
            out@.contains(x) <==> exists|m: int|
                0 <= m < i + 1 && (#[trigger] edges@[m]).target == a && edges@[m].kind == EdgeKind::Ed
                    && edges@[m].source == x by {
            assert(edges@[i as int] == e);
            if out@.contains(x) && !before.contains(x) {
                assert(out@.last() == x);
            }
            if exists|m: int|
                0 <= m < i + 1 && (#[trigger] edges@[m]).target == a && edges@[m].kind == EdgeKind::Ed
                    && edges@[m].source == x {
                let m = choose|m: int|
                    0 <= m < i + 1 && (#[trigger] edges@[m]).target == a && edges@[m].kind == EdgeKind::Ed
                        && edges@[m].source == x;
                if m < i {
                    assert(before.contains(x));
                    let w = choose|w: int| 0 <= w < before.len() && before[w] == x;
                    assert(out@[w] == x);
                } else {
                    assert(out@.last() == x);
                }
            }
        }
        i += 1;
    }
    out
}

fn is_check(rows: &Vec<StoredNode>, a: NodeId) -> (b: bool)
    ensures
        b == is_check_node(rows@, a),
{
    let mut i: usize = 0;
    while i < rows.len()
        invariant
            i <= rows@.len(),
            forall|m: int| 0 <= m < i ==> !((#[trigger] rows@[m]).id == a && rows@[m].is_check),
        decreases rows.len() - i,
    {
        if rows[i].id == a && rows[i].is_check {
            return true;
        }
        i += 1;
    }
    false
}

/// The nodes whose cached context packets a change of `changed` makes
/// stale, each once (see `affected` and the module's rules).
pub fn affected_ids(rows: &Vec<StoredNode>, edges: &Vec<StoredEdge>, changed: NodeId) -> (r: Vec<NodeId>)
    ensures
        r@.no_duplicates(),
        forall|x: NodeId| r@.contains(x) <==> affected(rows@, edges@, changed, x),
{
    let start = vec![changed];
    assert(start@ =~= seq![changed]);
    let down = closure(rows, edges, StepKind::Down, &start);
    let up = closure(rows, edges, StepKind::Up, &start);
    let sibs = later_siblings(rows, changed);
    let sibs_down = closure(rows, edges, StepKind::Down, &sibs);
    let chain = closure(rows, edges, StepKind::Next, &start);
    let chain_down = closure(rows, edges, StepKind::Down, &chain);
    let diag = diagonal_sources(edges, changed);
    let check = is_check(rows, changed);
    let mut promo: Vec<NodeId> = Vec::new();
    if check {
        let mut i: usize = 0;
        while i < up.len()
            invariant
                i <= up@.len(),
                promo@.no_duplicates(),
                forall|y: NodeId|
                    promo@.contains(y) <==> exists|m: int| 0 <= m < i && later_sibling(rows@, #[trigger] up@[m], y),
            decreases up.len() - i,
        {
            let found = later_siblings(rows, up[i]);
            let ghost before = promo@;
            append_new(&mut promo, &found);
            assert forall|y: NodeId|
                promo@.contains(y) <==> exists|m: int| 0 <= m < i + 1 && later_sibling(rows@, #[trigger] up@[m], y) by {
                if promo@.contains(y) {
                    if before.contains(y) {
                        let m = choose|m: int| 0 <= m < i && later_sibling(rows@, #[trigger] up@[m], y);
                        assert(0 <= m < i + 1);
                    } else {
                        assert(found@.contains(y));
                        assert(later_sibling(rows@, up@[i as int], y));
                    }
                }
                if exists|m: int| 0 <= m < i + 1 && later_sibling(rows@, #[trigger] up@[m], y) {
                    let m = choose|m: int| 0 <= m < i + 1 && later_sibling(rows@, #[trigger] up@[m], y);
                    if m == i {
                        assert(found@.contains(y));
                    } else {
                        assert(before.contains(y));
                    }
                }
            }
            i += 1;
        }
    }
    let promo_down = closure(rows, edges, StepKind::Down, &promo);
    let mut out: Vec<NodeId> = Vec::new();
    append_new(&mut out, &down);
    append_new(&mut out, &up);
    append_new(&mut out, &sibs_down);
    append_new(&mut out, &chain_down);
    append_new(&mut out, &diag);
    let ghost five = out@;
    if check {
        append_new(&mut out, &promo_down);
    }
    assert forall|x: NodeId| #[trigger] out@.contains(x) <==> (down@.contains(x) || up@.contains(x) || sibs_down@.contains(x)
        || chain_down@.contains(x) || diag@.contains(x) || (check && promo_down@.contains(x))) by {
        assert(five.contains(x) <==> (down@.contains(x) || up@.contains(x) || sibs_down@.contains(x)
            || chain_down@.contains(x) || diag@.contains(x)));
    }
    proof {
        let rs = rows@;
        let es = edges@;
        let a = changed;
        assert forall|x: NodeId| out@.contains(x) <==> affected(rs, es, a, x) by {
            assert(down@.contains(x) <==> below(rs, es, a, x)) by {
                if from_seeds(rs, es, StepKind::Down, start@, x) && !start@.contains(x) {
                    let y = choose|y: NodeId| start@.contains(y) && #[trigger] reach(rs, es, StepKind::Down, y, x);
                    assert(y == a);
                }
                if reach(rs, es, StepKind::Down, a, x) {
                    assert(start@.contains(a));
                }
            }
            assert(up@.contains(x) <==> (x == a || reach(rs, es, StepKind::Up, a, x))) by {
                if from_seeds(rs, es, StepKind::Up, start@, x) && !start@.contains(x) {
                    let y = choose|y: NodeId| start@.contains(y) && #[trigger] reach(rs, es, StepKind::Up, y, x);
                    assert(y == a);
                }
                if reach(rs, es, StepKind::Up, a, x) {
                    assert(start@.contains(a));
                }
                if x == a {
                    assert(start@[0] == a);
                }
            }
            assert(sibs_down@.contains(x) <==> exists|y: NodeId| #[trigger] later_sibling(rs, a, y) && below(
                rs,
                es,
                y,
                x,
            )) by {
                if sibs_down@.contains(x) {
                    if sibs@.contains(x) {
                        assert(later_sibling(rs, a, x) && below(rs, es, x, x));
                    } else {
                        let y = choose|y: NodeId| sibs@.contains(y) && #[trigger] reach(rs, es, StepKind::Down, y, x);
                        assert(later_sibling(rs, a, y) && below(rs, es, y, x));
                    }
                }
                if exists|y: NodeId| #[trigger] later_sibling(rs, a, y) && below(rs, es, y, x) {
                    let y = choose|y: NodeId| #[trigger] later_sibling(rs, a, y) && below(rs, es, y, x);
                    assert(sibs@.contains(y));
                    if x != y {
                        assert(reach(rs, es, StepKind::Down, y, x));
                    }
                }
            }
            assert(chain_down@.contains(x) <==> (below(rs, es, a, x) || exists|y: NodeId| #[trigger] reach(
                rs,
                es,
                StepKind::Next,
                a,
                y,
            ) && below(rs, es, y, x))) by {
                assert forall|y: NodeId| chain@.contains(y) <==> (y == a || reach(rs, es, StepKind::Next, a, y)) by {
                    if from_seeds(rs, es, StepKind::Next, start@, y) && !start@.contains(y) {
                        let z = choose|z: NodeId| start@.contains(z) && #[trigger] reach(rs, es, StepKind::Next, z, y);
                        assert(z == a);
                    }
                    if reach(rs, es, StepKind::Next, a, y) {
                        assert(start@.contains(a));
                    }
                    if y == a {
                        assert(start@[0] == a);
                    }
                }
                if chain_down@.contains(x) {
                    if chain@.contains(x) {
                        assert(below(rs, es, x, x));
                    } else {
                        let y = choose|y: NodeId| chain@.contains(y) && #[trigger] reach(rs, es, StepKind::Down, y, x);
                        assert(below(rs, es, y, x));
                    }
                }
                if below(rs, es, a, x) {
                    assert(chain@.contains(a));
                    if x != a {
                        assert(reach(rs, es, StepKind::Down, a, x));
                    }
                }
                if exists|y: NodeId| #[trigger] reach(rs, es, StepKind::Next, a, y) && below(rs, es, y, x) {
                    let y = choose|y: NodeId| #[trigger] reach(rs, es, StepKind::Next, a, y) && below(rs, es, y, x);
                    assert(chain@.contains(y));
                    if x != y {
                        assert(reach(rs, es, StepKind::Down, y, x));
                    }
                }
            }
            if check {
                assert(promo_down@.contains(x) <==> exists|c: NodeId, y: NodeId|
                    (c == a || reach(rs, es, StepKind::Up, a, c)) && #[trigger] later_sibling(rs, c, y) && below(
                        rs,
                        es,
                        y,
                        x,
                    )) by {
                    assert forall|y: NodeId| promo@.contains(y) <==> exists|c: NodeId|
                        (c == a || reach(rs, es, StepKind::Up, a, c)) && #[trigger] later_sibling(rs, c, y) by {
                        if promo@.contains(y) {
                            let m = choose|m: int| 0 <= m < up@.len() && later_sibling(rs, #[trigger] up@[m], y);
                            assert(up@.contains(up@[m]));
                        }
                        if exists|c: NodeId| (c == a || reach(rs, es, StepKind::Up, a, c)) && #[trigger] later_sibling(
                            rs,
                            c,
                            y,
                        ) {
                            let c = choose|c: NodeId|
                                (c == a || reach(rs, es, StepKind::Up, a, c)) && #[trigger] later_sibling(rs, c, y);
                            assert(up@.contains(c));
                            let m = choose|m: int| 0 <= m < up@.len() && up@[m] == c;
                            assert(later_sibling(rs, up@[m], y));
                        }
                    }
                    if promo_down@.contains(x) {
                        if promo@.contains(x) {
                            let c = choose|c: NodeId|
                                (c == a || reach(rs, es, StepKind::Up, a, c)) && #[trigger] later_sibling(rs, c, x);
                            assert(below(rs, es, x, x));
                        } else {
                            let y = choose|y: NodeId| promo@.contains(y) && #[trigger] reach(rs, es, StepKind::Down, y, x);
                            let c = choose|c: NodeId|
                                (c == a || reach(rs, es, StepKind::Up, a, c)) && #[trigger] later_sibling(rs, c, y);
                            assert(below(rs, es, y, x));
                        }
                    }
                    if exists|c: NodeId, y: NodeId|
                        (c == a || reach(rs, es, StepKind::Up, a, c)) && #[trigger] later_sibling(rs, c, y) && below(
                            rs,
                            es,
                            y,
                            x,
                        ) {
                        let (c, y) = choose|c: NodeId, y: NodeId|
                            (c == a || reach(rs, es, StepKind::Up, a, c)) && #[trigger] later_sibling(rs, c, y) && below(
                                rs,
                                es,
                                y,
                                x,
                            );
                        assert(promo@.contains(y));
                        if x != y {
                            assert(reach(rs, es, StepKind::Down, y, x));
                        }
                    }
                }
            }
            if x == a {
                assert(below(rs, es, a, x));
            }
        }
    }
    out
}

} // verus!
