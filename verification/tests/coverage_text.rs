use ail_contract::coverage::{combined_concepts, default_concept_list, truncate_preview, INTENT_PREVIEW_LEN};

#[test]
fn default_concept_list_has_40_entries() {
    let list = default_concept_list();
    assert_eq!(list.len(), 40, "expected exactly 40 concepts, got {}", list.len());
}

#[test]
fn default_concept_list_all_lowercase() {
    for concept in default_concept_list() {
        assert_eq!(concept, concept.to_lowercase(), "concept not lowercase: {concept}");
    }
}

#[test]
fn default_concept_list_no_duplicates() {
    let list = default_concept_list();
    for (i, a) in list.iter().enumerate() {
        for b in list.iter().skip(i + 1) {
            assert_ne!(a, b, "duplicate concept found: {a}");
        }
    }
}

#[test]
fn combined_concepts_skips_blank_and_whitespace() {
    let extras = vec!["".to_string(), "   ".to_string(), "idempotency".to_string()];
    let result = combined_concepts(&extras);
    assert_eq!(result.len(), default_concept_list().len() + 1);
    assert!(result.contains(&"idempotency"));
    assert!(!result.contains(&""));
    assert!(!result.contains(&"   "));
}

#[test]
fn combined_concepts_trims_extras_and_keeps_order() {
    let extras = vec!["  audit log ".to_string(), "\tquota\n".to_string()];
    let result = combined_concepts(&extras);
    let defaults = default_concept_list();
    assert_eq!(&result[..defaults.len()], &defaults[..]);
    assert_eq!(&result[defaults.len()..], &["audit log", "quota"]);
}

#[test]
fn combined_concepts_without_extras_is_the_default_list() {
    let result = combined_concepts(&[]);
    assert_eq!(result, default_concept_list());
}

#[test]
fn truncate_preview_empty() {
    assert_eq!(truncate_preview(""), "");
}

#[test]
fn truncate_preview_short() {
    let s = "hello world";
    assert_eq!(truncate_preview(s), "hello world");
}

#[test]
fn truncate_preview_exactly_60_chars() {
    let s: String = "a".repeat(60);
    let result = truncate_preview(&s);
    assert_eq!(result, s);
    assert!(!result.contains('…'));
}

#[test]
fn truncate_preview_long_ascii() {
    let s: String = "a".repeat(80);
    let result = truncate_preview(&s);
    let char_count: usize = result.chars().count();
    assert_eq!(char_count, 61, "expected 60 chars + '…', got {char_count}");
    assert!(result.ends_with('…'));
}

#[test]
fn truncate_preview_multibyte_no_panic() {
    let s = "Xử lý đầu vào và xác thực dữ liệu trong hệ thống thanh toán";
    let result = truncate_preview(s);
    assert!(result.chars().count() <= 61);
    let emoji_s: String = "🎉".repeat(80);
    let emoji_result = truncate_preview(&emoji_s);
    assert!(emoji_result.chars().count() <= 61);
}

#[test]
fn truncate_preview_61_chars_keeps_first_60() {
    let s: String = format!("{}b", "é".repeat(60));
    let result = truncate_preview(&s);
    assert_eq!(result, format!("{}…", "é".repeat(60)));
    assert_eq!(INTENT_PREVIEW_LEN, 60);
}
