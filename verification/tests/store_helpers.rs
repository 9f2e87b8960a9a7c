use ail_contract::coverage::{
    basis_slots, check_dimension, check_vector_lengths, coverage_children, CoverageError,
};
use ail_contract::model::{AilGraph, ContractKind, Node, NodeId, NodeMetadata, Pattern};
use ail_contract::store::{
    check_model_for_save, child_placement, contract_kind_from_text, contract_kind_text, countable_table_name,
    edge_kind_str, embedding_model_status, first_word, next_position, path_label, pattern_from_text,
    pattern_text, search_is_empty, search_row_limit, EdgeKind, EmbeddingModelStatus, PathWalk, MAX_PATH_DEPTH,
};

fn metadata() -> NodeMetadata {
    NodeMetadata {
        name: None,
        params: vec![],
        return_type: None,
        base_type: None,
        fields: vec![],
        following_template_name: None,
        using_pattern_name: None,
    }
}

fn node(id: NodeId, intent: &str, pattern: Pattern, parent: Option<NodeId>) -> Node {
    Node {
        id,
        intent: intent.to_string(),
        pattern,
        expression: None,
        contracts: vec![],
        metadata: metadata(),
        parent,
        diagonal_refs: vec![],
        context: None,
    }
}

// ─── embedding index ────────────────────────────────────────────────────────

#[test]
fn embedding_status_empty_ignores_the_recorded_model() {
    assert_eq!(embedding_model_status(0, Some("old-model".to_string()), "new-model"), EmbeddingModelStatus::Empty);
    assert_eq!(embedding_model_status(0, None, "new-model"), EmbeddingModelStatus::Empty);
}

#[test]
fn embedding_status_compatible_without_record_or_same_model() {
    assert_eq!(embedding_model_status(3, None, "m"), EmbeddingModelStatus::Compatible);
    assert_eq!(embedding_model_status(3, Some("m".to_string()), "m"), EmbeddingModelStatus::Compatible);
}

#[test]
fn embedding_status_changed_names_the_stored_model() {
    assert_eq!(
        embedding_model_status(3, Some("old".to_string()), "new"),
        EmbeddingModelStatus::Changed { stored: "old".to_string() }
    );
}

#[test]
fn saving_vectors_of_another_model_is_refused() {
    assert_eq!(check_model_for_save(&None, "m", false), Ok(()));
    assert_eq!(check_model_for_save(&Some("m".to_string()), "m", true), Ok(()));
    assert_eq!(
        check_model_for_save(&Some("a".to_string()), "b", false),
        Err("model mismatch: index built with 'a', cannot add vector from 'b'; call clear_embeddings() first".to_string())
    );
    assert_eq!(
        check_model_for_save(&Some("a".to_string()), "b", true),
        Err("model mismatch: index built with 'a', cannot bulk-save from 'b'; call clear_embeddings() first".to_string())
    );
}

// ─── tables, search and paths ───────────────────────────────────────────────

#[test]
fn only_known_tables_are_counted() {
    for t in ["nodes", "contracts", "edges", "project_meta", "cic_cache", "search_fts", "embeddings", "coverage_cache"] {
        assert_eq!(countable_table_name(t), Ok(t));
    }
    assert_eq!(countable_table_name("users; DROP TABLE nodes"), Err("unknown table: users; DROP TABLE nodes".to_string()));
}

#[test]
fn search_guards() {
    assert!(search_is_empty("anything", 0));
    assert!(search_is_empty("   \t", 5));
    assert!(!search_is_empty("wallet", 5));
    assert_eq!(search_row_limit(10), 10);
    assert_eq!(search_row_limit(usize::MAX), i64::MAX);
}

#[test]
fn first_word_and_path_labels() {
    assert_eq!(first_word("  transfer money now"), "transfer");
    assert_eq!(first_word(""), "");
    assert_eq!(first_word("   "), "   ");
    assert_eq!(path_label(Some("wallet".to_string()), "manage wallets"), "wallet");
    assert_eq!(path_label(None, "manage wallets"), "manage");
}

#[test]
fn path_walk_reverses_and_stops_at_the_depth_limit() {
    let mut walk = PathWalk::new();
    assert_eq!(walk.visit(Some("leaf".to_string()), "x", "c"), Ok(()));
    assert_eq!(walk.visit(None, "middle node", "b"), Ok(()));
    assert_eq!(walk.visit(Some("root".to_string()), "y", "a"), Ok(()));
    assert_eq!(walk.into_path(), vec!["root".to_string(), "middle".to_string(), "leaf".to_string()]);

    let mut deep = PathWalk::new();
    for _ in 0..MAX_PATH_DEPTH {
        assert!(deep.visit(None, "n", "id").is_ok());
    }
    assert_eq!(
        deep.visit(None, "n", "id-9"),
        Err("build_path: cycle or excessive depth detected at node id-9".to_string())
    );
    assert_eq!(deep.into_path().len(), MAX_PATH_DEPTH);
}

// ─── stored texts ───────────────────────────────────────────────────────────

#[test]
fn t072_sqlite_all_pattern_variants_roundtrip() {
    let all = [
        Pattern::Describe,
        Pattern::Define,
        Pattern::Error,
        Pattern::Do,
        Pattern::Promise,
        Pattern::Let,
        Pattern::Check,
        Pattern::ForEach,
        Pattern::Match,
        Pattern::Fetch,
        Pattern::Save,
        Pattern::Update,
        Pattern::Remove,
        Pattern::Return,
        Pattern::Raise,
        Pattern::Together,
        Pattern::Retry,
    ];
    for p in all {
        assert_eq!(pattern_from_text(pattern_text(p)), Some(p));
    }
    assert_eq!(pattern_text(Pattern::ForEach), "for_each");
    assert_eq!(pattern_text(Pattern::Do), "do");
    assert_eq!(pattern_from_text("Do"), None);
    assert_eq!(pattern_from_text("loop"), None);
}

#[test]
fn contract_kind_texts_round_trip() {
    for k in [ContractKind::Before, ContractKind::After, ContractKind::Always] {
        assert_eq!(contract_kind_from_text(contract_kind_text(k)), Some(k));
    }
    assert_eq!(contract_kind_text(ContractKind::Always), "always");
    assert_eq!(contract_kind_from_text("during"), None);
}

#[test]
fn edge_kind_texts() {
    assert_eq!(edge_kind_str(EdgeKind::Ev), "ev");
    assert_eq!(edge_kind_str(EdgeKind::Eh), "eh");
    assert_eq!(edge_kind_str(EdgeKind::Ed), "ed");
}

#[test]
fn placements_of_children_and_contracts() {
    assert_eq!(child_placement(0, None), Some((1, 0)));
    assert_eq!(child_placement(2, Some(4)), Some((3, 5)));
    assert_eq!(child_placement(i64::MAX, None), None);
    assert_eq!(child_placement(1, Some(i64::MAX)), None);
    assert_eq!(next_position(None), Some(0));
    assert_eq!(next_position(Some(6)), Some(7));
    assert_eq!(next_position(Some(i64::MAX)), None);
}

// ─── coverage decisions ─────────────────────────────────────────────────────

#[test]
fn coverage_children_skip_blank_intents() {
    let mut graph = AilGraph::new();
    graph.add_node(node(1, "manage wallets", Pattern::Describe, None)).unwrap();
    graph.add_node(node(2, "create a wallet", Pattern::Do, Some(1))).unwrap();
    graph.add_node(node(3, "   ", Pattern::Do, Some(1))).unwrap();
    graph.add_node(node(4, "close a wallet", Pattern::Do, Some(1))).unwrap();
    graph.add_node(node(5, "leaf step", Pattern::Do, Some(2))).unwrap();
    let kids = coverage_children(&graph, 1).unwrap();
    let ids: Vec<NodeId> = kids.iter().map(|&k| graph.all_nodes()[k].id).collect();
    assert_eq!(ids, vec![2, 4]);
    assert!(coverage_children(&graph, 5).unwrap().is_empty());
    assert!(matches!(coverage_children(&graph, 99), Err(CoverageError::NodeNotFound(99))));
}

#[test]
fn coverage_vector_checks() {
    assert!(matches!(check_dimension(0), Err(CoverageError::ZeroDimension)));
    assert!(check_dimension(384).is_ok());
    assert!(check_vector_lengths(3, &vec![3, 3, 3]).is_ok());
    assert!(matches!(
        check_vector_lengths(3, &vec![3, 2, 4]),
        Err(CoverageError::DimensionMismatch { expected: 3, actual: 2 })
    ));
}

#[test]
fn basis_slots_map_children_to_basis_vectors() {
    assert_eq!(basis_slots(4, &vec![0, 2, 3]), vec![Some(0), None, Some(1), Some(2)]);
    assert_eq!(basis_slots(2, &vec![]), vec![None, None]);
}
