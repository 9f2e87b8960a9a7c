//! The graph of AIL nodes that the contract checks read: nodes with their
//! pattern, metadata, contracts (already parsed), structural parent,
//! outgoing diagonal references, and the context packet that the context
//! engine computed for them.
//!
//! The structural children of a node are the nodes whose `parent` is that
//! node, in the order in which they were added; this order is also the
//! sibling order. A graph only accepts a node whose parent it already holds,
//! so every parent stands before its children.

use vstd::prelude::*;

use crate::expr::ConstraintExpr;

verus! {

/// Node identifier: the 128-bit value of the node's UUID. Ordering two ids
/// numerically is the same as ordering their hyphenated hexadecimal text.
pub type NodeId = u128;

/// The structural pattern of a node.
#[derive(Debug, Clone, Copy, PartialEq, Eq, Structural)]
pub enum Pattern {
    Describe,
    Define,
    Error,
    Do,
    Promise,
    Let,
    Check,
    ForEach,
    Match,
    Fetch,
    Save,
    Update,
    Remove,
    Return,
    Raise,
    Together,
    Retry,
}

/// When a contract holds: before execution, after it, or throughout.
#[derive(Debug, Clone, Copy, PartialEq, Eq, Structural)]
pub enum ContractKind {
    Before,
    After,
    Always,
}

/// A contract: its kind, its source text, and the result of parsing that
/// text (the parsed expression, or the parser's message).
#[derive(Debug)]
pub struct Contract {
    pub kind: ContractKind,
    pub expression: String,
    pub parsed: Result<ConstraintExpr, String>,
}

/// A declared input parameter.
#[derive(Debug)]
pub struct Param {
    pub name: String,
    pub type_ref: String,
}

/// A field of a record (`Describe`) type.
#[derive(Debug)]
pub struct Field {
    pub name: String,
    pub type_ref: String,
}

/// Node metadata read by the checks.
#[derive(Debug)]
pub struct NodeMetadata {
    pub name: Option<String>,
    pub params: Vec<Param>,
    pub return_type: Option<String>,
    pub base_type: Option<String>,
    pub fields: Vec<Field>,
    pub following_template_name: Option<String>,
    pub using_pattern_name: Option<String>,
}

/// The kind of a variable visible in a node's scope.
#[derive(Debug, Clone, Copy, PartialEq, Eq, Structural)]
pub enum ScopeVariableKind {
    Parameter,
    LetBinding,
    FetchBinding,
    LoopVariable,
}

/// A variable visible in a node's scope.
#[derive(Debug)]
pub struct ScopeVariable {
    pub name: String,
    pub kind: ScopeVariableKind,
}

/// A constraint inherited from an enclosing node.
#[derive(Debug)]
pub struct InheritedConstraint {
    pub expression: String,
    pub parsed: Result<ConstraintExpr, String>,
}

/// A fact promoted by a preceding `Check` node.
#[derive(Debug)]
pub struct PromotedFact {
    pub condition: String,
    pub parsed: Result<ConstraintExpr, String>,
    pub source_node: NodeId,
}

/// The context packet computed for a node: its scope, the constraints it
/// inherits and the facts promoted to it.
#[derive(Debug)]
pub struct ContextPacket {
    pub scope: Vec<ScopeVariable>,
    pub inherited_constraints: Vec<InheritedConstraint>,
    pub promoted_facts: Vec<PromotedFact>,
}

/// A node of the graph.
///
/// `context` is `None` when no context packet could be computed for it.
#[derive(Debug)]
pub struct Node {
    pub id: NodeId,
    pub intent: String,
    pub pattern: Pattern,
    pub expression: Option<String>,
    pub contracts: Vec<Contract>,
    pub metadata: NodeMetadata,
    pub parent: Option<NodeId>,
    pub diagonal_refs: Vec<NodeId>,
    pub context: Option<ContextPacket>,
}

/// Why a node was not added to a graph.
#[derive(Debug, Clone, Copy, PartialEq, Eq, Structural)]
pub enum GraphError {
    DuplicateNodeId(NodeId),
    UnknownParent(NodeId),
}

/// Index of the first node of `nodes` with id `id`, or `-1`.
pub open spec fn index_of(nodes: Seq<Node>, id: NodeId) -> int
    decreases nodes.len(),
{
    if nodes.len() == 0 {
        -1
    } else {
        let k = index_of(nodes.drop_last(), id);
        if k >= 0 {
            k
        } else if nodes.last().id == id {
            nodes.len() - 1
        } else {
            -1
        }
    }
}

/// Ids of the nodes of `nodes` whose parent is `id`, in order.
pub open spec fn children_in(nodes: Seq<Node>, id: NodeId) -> Seq<NodeId>
    decreases nodes.len(),
{
    if nodes.len() == 0 {
        seq![]
    } else if nodes.last().parent == Some(id) {
        children_in(nodes.drop_last(), id).push(nodes.last().id)
    } else {
        children_in(nodes.drop_last(), id)
    }
}

/// Ids of the nodes of `nodes` whose name is `name`, in order.
pub open spec fn named_in(nodes: Seq<Node>, name: Seq<char>) -> Seq<NodeId>
    decreases nodes.len(),
{
    if nodes.len() == 0 {
        seq![]
    } else if nodes.last().metadata.name is Some && nodes.last().metadata.name->0@ == name {
        named_in(nodes.drop_last(), name).push(nodes.last().id)
    } else {
        named_in(nodes.drop_last(), name)
    }
}

/// Every parent stands before its child, and ids are unique.
pub open spec fn parents_first(nodes: Seq<Node>) -> bool {
    &&& forall|i: int|
        #![trigger nodes[i]]
        0 <= i < nodes.len() && nodes[i].parent is Some ==> 0 <= index_of(
            nodes,
            nodes[i].parent->0,
        ) < i
    &&& forall|i: int, j: int|
        #![trigger nodes[i], nodes[j]]
        0 <= i < j < nodes.len() ==> nodes[i].id != nodes[j].id
}

/// Parent-walk depth of the node at index `i`: the number of `parent` steps
/// until a node without a parent (or whose parent is not in the graph).
pub open spec fn depth_at(nodes: Seq<Node>, i: int) -> nat
    decreases i,
{
    if i < 0 || i >= nodes.len() {
        0
    } else {
        match nodes[i].parent {
            None => 0,
            Some(p) => {
                let j = index_of(nodes, p);
                if 0 <= j < i {
                    1 + depth_at(nodes, j)
                } else {
                    1
                }
            },
        }
    }
}

/// The parent of the node with id `id`; `None` for a root or an absent node.
pub open spec fn parent_of(nodes: Seq<Node>, id: NodeId) -> Option<NodeId> {
    if index_of(nodes, id) >= 0 {
        nodes[index_of(nodes, id)].parent
    } else {
        None
    }
}

/// The siblings that precede `id` under the same parent, in order.
pub open spec fn siblings_before_of(nodes: Seq<Node>, id: NodeId) -> Seq<NodeId> {
    if index_of(nodes, id) >= 0 && nodes[index_of(nodes, id)].parent is Some {
        children_in(nodes.take(index_of(nodes, id)), nodes[index_of(nodes, id)].parent->0)
    } else {
        Seq::<NodeId>::empty()
    }
}

/// A graph of nodes in which every parent precedes its children.
pub struct AilGraph {
    nodes: Vec<Node>,
}

impl View for AilGraph {
    type V = Seq<Node>;

    closed spec fn view(&self) -> Seq<Node> {
        self.nodes@
    }
}

pub proof fn lemma_index_of_bounds(nodes: Seq<Node>, id: NodeId)
    ensures
        -1 <= index_of(nodes, id) < nodes.len(),
        index_of(nodes, id) >= 0 ==> nodes[index_of(nodes, id)].id == id,
        index_of(nodes, id) == -1 ==> forall|k: int| 0 <= k < nodes.len() ==> nodes[k].id != id,
    decreases nodes.len(),
{
    if nodes.len() > 0 {
        lemma_index_of_bounds(nodes.drop_last(), id);
        assert forall|k: int| 0 <= k < nodes.len() - 1 implies nodes.drop_last()[k] == nodes[k] by {}
    }
}

proof fn lemma_index_of_unique(nodes: Seq<Node>, id: NodeId, k: int)
    requires
        0 <= k < nodes.len(),
        nodes[k].id == id,
    ensures
        0 <= index_of(nodes, id) <= k,
    decreases nodes.len(),
{
    lemma_index_of_bounds(nodes, id);
    if k < nodes.len() - 1 {
        lemma_index_of_unique(nodes.drop_last(), id, k);
    } else {
        lemma_index_of_bounds(nodes.drop_last(), id);
    }
}

proof fn lemma_index_of_push(nodes: Seq<Node>, n: Node, id: NodeId)
    requires
        index_of(nodes, id) >= 0,
    ensures
        index_of(nodes.push(n), id) == index_of(nodes, id),
{
    assert(nodes.push(n).drop_last() =~= nodes);
}

impl AilGraph {
    #[verifier::type_invariant]
    spec fn inv(&self) -> bool {
        parents_first(self.nodes@)
    }

    /// The graph's well-formedness: parents precede children, ids are unique.
    pub fn assert_well_formed(&self)
        ensures
            parents_first(self@),
    {
        proof {
            use_type_invariant(self);
        }
    }

    /// An empty graph.
    pub fn new() -> (g: AilGraph)
        ensures
            g@ == Seq::<Node>::empty(),
    {
        AilGraph { nodes: Vec::new() }
    }

    /// Add `node`. Refused when a node with the same id is present, or when
    /// the node's parent is not present yet.
    pub fn add_node(&mut self, node: Node) -> (r: Result<(), GraphError>)
        ensures
            r == Ok::<(), GraphError>(()) <==> (index_of(old(self)@, node.id) == -1 && (
            node.parent is Some ==> index_of(old(self)@, node.parent->0) >= 0)),
            r matches Ok(_) ==> final(self)@ == old(self)@.push(node),
            r matches Err(GraphError::DuplicateNodeId(x)) ==> x == node.id && index_of(
                old(self)@,
                node.id,
            ) >= 0 && final(self)@ == old(self)@,
            r matches Err(GraphError::UnknownParent(x)) ==> node.parent == Some(x) && index_of(
                old(self)@,
                node.id,
            ) == -1 && final(self)@ == old(self)@,
    {
        proof {
            use_type_invariant(&*self);
        }
        if self.index_of(node.id).is_some() {
            return Err(GraphError::DuplicateNodeId(node.id));
        }
        if let Some(p) = node.parent {
            if self.index_of(p).is_none() {
                return Err(GraphError::UnknownParent(p));
            }
        }
        proof {
            let s = self.nodes@;
            let t = s.push(node);
            lemma_index_of_bounds(s, node.id);
            assert forall|i: int|
                #![trigger t[i]]
                0 <= i < t.len() && t[i].parent is Some implies 0 <= index_of(
                t,
                t[i].parent->0,
            ) < i by {
                let p = t[i].parent->0;
                if i < s.len() {
                    assert(t[i] == s[i]);
                    lemma_index_of_push(s, node, p);
                } else {
                    lemma_index_of_bounds(s, p);
                    lemma_index_of_push(s, node, p);
                }
            }
            assert forall|i: int, j: int|
                #![trigger t[i], t[j]]
                0 <= i < j < t.len() implies t[i].id != t[j].id by {
                if j == s.len() {
                    assert(t[i] == s[i]);
                } else {
                    assert(t[i] == s[i] && t[j] == s[j]);
                }
            }
        }
        let mut nodes: Vec<Node> = Vec::new();
        std::mem::swap(&mut nodes, &mut self.nodes);
        nodes.push(node);
        self.nodes = nodes;
        Ok(())
    }

    /// All nodes, in insertion order.
    pub fn all_nodes(&self) -> (ns: &Vec<Node>)
        ensures
            ns@ == self@,
    {
        &self.nodes
    }

    /// Number of nodes.
    pub fn node_count(&self) -> (n: usize)
        ensures
            n == self@.len(),
    {
        self.nodes.len()
    }

    /// Position of the node with id `id`.
    pub fn index_of(&self, id: NodeId) -> (r: Option<usize>)
        ensures
            r matches Some(k) ==> k == index_of(self@, id),
            r is None ==> index_of(self@, id) == -1,
    {
        let mut i: usize = 0;
        while i < self.nodes.len()
            invariant
                i <= self.nodes@.len(),
                index_of(self.nodes@.take(i as int), id) == -1,
            decreases self.nodes.len() - i,
        {
            assert(self.nodes@.take(i + 1).drop_last() =~= self.nodes@.take(i as int));
            if self.nodes[i].id == id {
                proof {
                    lemma_index_of_prefix(self.nodes@, id, i as int + 1);
                }
                return Some(i);
            }
            i += 1;
        }
        assert(self.nodes@.take(i as int) =~= self.nodes@);
        None
    }

    /// The node with id `id`.
    pub fn get_node(&self, id: NodeId) -> (r: Option<&Node>)
        ensures
            r matches Some(n) ==> index_of(self@, id) >= 0 && *n == self@[index_of(self@, id)],
            r is None ==> index_of(self@, id) == -1,
    {
        match self.index_of(id) {
            Some(k) => {
                proof {
                    lemma_index_of_bounds(self@, id);
                }
                Some(&self.nodes[k])
            },
            None => None,
        }
    }

    /// The structural parent of `id`; `None` for a root or an absent node.
    pub fn parent(&self, id: NodeId) -> (r: Option<NodeId>)
        ensures
            r == parent_of(self@, id),
    {
        match self.get_node(id) {
            Some(n) => n.parent,
            None => None,
        }
    }

    /// The structural children of `id`, in order.
    pub fn children(&self, id: NodeId) -> (r: Vec<NodeId>)
        ensures
            r@ == children_in(self@, id),
    {
        let r = children_upto(&self.nodes, self.nodes.len(), id);
        assert(self.nodes@.take(self.nodes@.len() as int) =~= self.nodes@);
        r
    }

    /// The siblings that precede `id` under the same parent, in order.
    pub fn siblings_before(&self, id: NodeId) -> (r: Vec<NodeId>)
        ensures
            r@ == siblings_before_of(self@, id),
    {
        match self.index_of(id) {
            Some(k) => {
                proof {
                    lemma_index_of_bounds(self@, id);
                }
                match self.nodes[k].parent {
                    Some(p) => children_upto(&self.nodes, k, p),
                    None => Vec::new(),
                }
            },
            None => Vec::new(),
        }
    }

    /// Ids of the nodes named `name`, in order.
    pub fn find_by_name(&self, name: &String) -> (r: Vec<NodeId>)
        ensures
            r@ == named_in(self@, name@),
    {
        let mut out: Vec<NodeId> = Vec::new();
        let mut i: usize = 0;
        while i < self.nodes.len()
            invariant
                i <= self.nodes@.len(),
                out@ == named_in(self.nodes@.take(i as int), name@),
            decreases self.nodes.len() - i,
        {
            assert(self.nodes@.take(i + 1).drop_last() =~= self.nodes@.take(i as int));
            let matches = match &self.nodes[i].metadata.name {
                Some(n) => *n == *name,
                None => false,
            };
            if matches {
                out.push(self.nodes[i].id);
            }
            i += 1;
        }
        assert(self.nodes@.take(i as int) =~= self.nodes@);
        out
    }

    /// The parent-walk depth of `id` (0 for a root or an absent node).
    pub fn depth(&self, id: NodeId) -> (d: usize)
        ensures
            d == depth_at(self@, index_of(self@, id)),
    {
        proof {
            use_type_invariant(self);
            lemma_index_of_bounds(self@, id);
        }
        let mut d: usize = 0;
        let n = self.nodes.len();
        let mut cur = self.index_of(id);
        let ghost start = index_of(self@, id);
        loop
            invariant
                parents_first(self.nodes@),
                start == index_of(self.nodes@, id),
                n == self.nodes@.len(),
                d <= self.nodes@.len(),
                match cur {
                    Some(k) => 0 <= k < self.nodes@.len() && d + depth_at(self.nodes@, k as int)
                        == depth_at(self.nodes@, start) && d + k <= self.nodes@.len(),
                    None => d == depth_at(self.nodes@, start),
                },
            decreases
                match cur {
                    Some(k) => k + 1,
                    None => 0,
                },
        {
            match cur {
                None => {
                    return d;
                },
                Some(k) => {
                    match self.nodes[k].parent {
                        None => {
                            assert(depth_at(self.nodes@, k as int) == 0);
                            return d;
                        },
                        Some(p) => {
                            proof {
                                assert(self.nodes@[k as int].parent is Some);
                                lemma_index_of_bounds(self.nodes@, p);
                                assert(0 <= index_of(self.nodes@, p) < k);
                            }
                            assert(d + 1 <= self.nodes@.len());
                            d = d + 1;
                            cur = self.index_of(p);
                        },
                    }
                },
            }
        }
    }
}

proof fn lemma_index_of_prefix(nodes: Seq<Node>, id: NodeId, k: int)
    requires
        0 < k <= nodes.len(),
        index_of(nodes.take(k - 1), id) == -1,
        nodes[k - 1].id == id,
    ensures
        index_of(nodes, id) == k - 1,
{
    lemma_index_of_bounds(nodes.take(k - 1), id);
    assert(nodes.take(k).drop_last() =~= nodes.take(k - 1));
    lemma_index_of_bounds(nodes.take(k), id);
    lemma_index_of_unique(nodes, id, k - 1);
    if index_of(nodes, id) < k - 1 {
        lemma_index_of_bounds(nodes, id);
        assert(nodes.take(k - 1)[index_of(nodes, id)].id == id);
    }
}

/// Ids of the nodes among the first `upto` of `nodes` whose parent is `id`.
fn children_upto(nodes: &Vec<Node>, upto: usize, id: NodeId) -> (r: Vec<NodeId>)
    requires
        upto <= nodes@.len(),
    ensures
        r@ == children_in(nodes@.take(upto as int), id),
{
    let mut out: Vec<NodeId> = Vec::new();
    let mut i: usize = 0;
    while i < upto
        invariant
            i <= upto <= nodes@.len(),
            out@ == children_in(nodes@.take(i as int), id),
        decreases upto - i,
    {
        assert(nodes@.take(i + 1).drop_last() =~= nodes@.take(i as int));
        if nodes[i].parent == Some(id) {
            out.push(nodes[i].id);
        }
        i += 1;
    }
    out
}

} // verus!
