use ail_contract::invalidation::{affected_ids, closure, StepKind, StoredEdge, StoredNode};
use ail_contract::model::NodeId;
use ail_contract::store::EdgeKind;

fn row(id: NodeId, parent: Option<NodeId>, position: i64) -> StoredNode {
    StoredNode { id, parent, position, is_check: false }
}

fn check_row(id: NodeId, parent: Option<NodeId>, position: i64) -> StoredNode {
    StoredNode { id, parent, position, is_check: true }
}

fn edge(source: NodeId, target: NodeId, kind: EdgeKind) -> StoredEdge {
    StoredEdge { source, target, kind }
}

fn sorted(mut v: Vec<NodeId>) -> Vec<NodeId> {
    v.sort();
    v
}

/// 1 ─┬─ 2 ─── 5
///    ├─ 3 ─── 6
///    └─ 4
fn tree() -> Vec<StoredNode> {
    vec![row(1, None, 0), row(2, Some(1), 0), row(3, Some(1), 1), row(4, Some(1), 2), row(5, Some(2), 0), row(6, Some(3), 0)]
}

#[test]
fn invalidate_cascades_to_descendants_and_ancestors() {
    let rows = tree();
    assert_eq!(sorted(affected_ids(&rows, &vec![], 2)), vec![1, 2, 3, 4, 5, 6]);
    assert_eq!(sorted(affected_ids(&rows, &vec![], 4)), vec![1, 4]);
    assert_eq!(sorted(affected_ids(&rows, &vec![], 5)), vec![1, 2, 5]);
}

#[test]
fn invalidate_cascades_to_next_siblings_with_their_subtrees() {
    let rows = tree();
    assert_eq!(sorted(affected_ids(&rows, &vec![], 3)), vec![1, 3, 4, 6]);
}

#[test]
fn invalidate_follows_sibling_edges_between_roots() {
    let rows = vec![row(10, None, 0), row(11, None, 0), row(12, None, 0), row(13, Some(12), 0)];
    let edges = vec![edge(10, 11, EdgeKind::Eh), edge(11, 12, EdgeKind::Eh)];
    assert_eq!(sorted(affected_ids(&rows, &edges, 10)), vec![10, 11, 12, 13]);
    assert_eq!(sorted(affected_ids(&rows, &edges, 12)), vec![12, 13]);
}

#[test]
fn invalidate_reaches_diagonal_referrers_only() {
    let rows = vec![row(1, None, 0), row(2, None, 0), row(3, None, 0)];
    let edges = vec![edge(2, 1, EdgeKind::Ed), edge(1, 3, EdgeKind::Ed)];
    assert_eq!(sorted(affected_ids(&rows, &edges, 1)), vec![1, 2]);
}

#[test]
fn invalidate_check_node_reaches_later_siblings_of_ancestors() {
    // 1 ─┬─ 2 ─┬─ 4 (check) ─── 7
    //    │     └─ 5
    //    └─ 3 ─── 6
    let rows = vec![
        row(1, None, 0),
        row(2, Some(1), 0),
        row(3, Some(1), 1),
        check_row(4, Some(2), 0),
        row(5, Some(2), 1),
        row(6, Some(3), 0),
        row(7, Some(4), 0),
    ];
    assert_eq!(sorted(affected_ids(&rows, &vec![], 4)), vec![1, 2, 3, 4, 5, 6, 7]);
    let plain: Vec<StoredNode> = rows.iter().map(|r| StoredNode { is_check: false, ..*r }).collect();
    assert_eq!(sorted(affected_ids(&plain, &vec![], 4)), vec![1, 2, 4, 5, 7]);
}

#[test]
fn invalidate_lists_each_node_once_even_on_a_cycle() {
    let rows = vec![row(1, Some(2), 0), row(2, Some(1), 0)];
    let ids = affected_ids(&rows, &vec![], 1);
    assert_eq!(sorted(ids), vec![1, 2]);
}

#[test]
fn closure_over_steps() {
    let rows = tree();
    assert_eq!(sorted(closure(&rows, &vec![], StepKind::Down, &vec![1])), vec![1, 2, 3, 4, 5, 6]);
    assert_eq!(sorted(closure(&rows, &vec![], StepKind::Up, &vec![6])), vec![1, 3, 6]);
    assert_eq!(closure(&rows, &vec![], StepKind::Next, &vec![4, 4]), vec![4]);
}

fn stale(rows: &[StoredNode], edges: &[StoredEdge], changed: NodeId, id: NodeId) -> bool {
    affected_ids(&rows.to_vec(), &edges.to_vec(), changed).contains(&id)
}

#[test]
fn t073_invalidate_on_node_change() {
    let rows = vec![row(1, None, 0)];
    assert!(stale(&rows, &[], 1, 1), "cache must be stale after update_node");
}

#[test]
fn t073_invalidate_cascades_to_descendants() {
    let rows = vec![row(1, None, 0), row(2, Some(1), 0), row(3, Some(2), 0)];
    assert!(stale(&rows, &[], 1, 2), "child must be stale");
    assert!(stale(&rows, &[], 1, 3), "grandchild must be stale");
}

#[test]
fn t073_invalidate_cascades_to_ancestors() {
    let rows = vec![row(1, None, 0), row(2, Some(1), 0), row(3, Some(2), 0)];
    assert!(stale(&rows, &[], 3, 2), "child must be stale");
    assert!(stale(&rows, &[], 3, 1), "root must be stale");
}

#[test]
fn t073_invalidate_cascades_to_next_siblings() {
    let rows = vec![row(1, None, 0), row(2, Some(1), 0), row(3, Some(1), 1), row(4, Some(1), 2)];
    assert!(stale(&rows, &[], 2, 3), "s2 must be stale");
    assert!(stale(&rows, &[], 2, 4), "s3 must be stale");
}

#[test]
fn t073_invalidate_diagonal_type_change() {
    let (type_id, func_id) = (1, 2);
    let rows = vec![row(type_id, None, 0), row(func_id, None, 0)];
    let edges = vec![edge(func_id, type_id, EdgeKind::Ed)];
    assert!(stale(&rows, &edges, type_id, func_id), "func cache must be stale after referenced type changes");
}

#[test]
fn t073_invalidate_diagonal_function_change() {
    let (callee, caller) = (1, 2);
    let rows = vec![row(callee, None, 0), row(caller, None, 0)];
    let edges = vec![edge(caller, callee, EdgeKind::Ed)];
    assert!(stale(&rows, &edges, callee, caller), "caller cache must be stale after called function changes");
}

#[test]
fn t073_bulk_invalidation_efficiency() {
    let mut rows = vec![row(0, None, 0)];
    for i in 1..=9u128 {
        rows.push(row(i, Some(i - 1), 0));
    }
    let ids = affected_ids(&rows, &vec![], 5);
    assert_eq!(ids.len(), 10);
    assert!(ids.contains(&0), "root must be stale");
    assert!(ids.contains(&9), "leaf must be stale");
    assert!(ids.contains(&5), "mid must be stale");
}

#[test]
fn t073_add_node_invalidates_parent() {
    let (parent, child) = (1, 2);
    let rows = vec![row(parent, None, 0), row(child, Some(parent), 0)];
    assert!(stale(&rows, &[], child, parent), "parent cache must be stale after new child added");
}

#[test]
fn t073_remove_node_invalidates_siblings() {
    let rows = vec![row(1, None, 0), row(2, Some(1), 0), row(3, Some(1), 1), row(4, Some(1), 2)];
    assert!(stale(&rows, &[], 2, 3), "s2 must be stale after s1 removed");
    assert!(stale(&rows, &[], 2, 4), "s3 must be stale after s1 removed");
}

#[test]
fn t073_move_node_invalidates_old_and_new_parent() {
    let (old_parent, new_parent, child) = (1, 2, 3);
    let before_move = vec![row(old_parent, None, 0), row(new_parent, None, 0), row(child, Some(old_parent), 0)];
    assert!(stale(&before_move, &[], child, old_parent), "old parent must be stale after child detached");
    let after_move = vec![row(old_parent, None, 0), row(new_parent, None, 0), row(child, Some(new_parent), 0)];
    assert!(stale(&after_move, &[], child, new_parent), "new parent must be stale after child attached");
}

#[test]
fn t073_update_contract_invalidates_subtree() {
    let (parent, child) = (1, 2);
    let rows = vec![row(parent, None, 0), row(child, Some(parent), 0)];
    assert!(stale(&rows, &[], parent, child), "child cache must be stale after parent contract added");
}
