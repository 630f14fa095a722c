use commonplace::embeddings::{
    any_cache_model_entry, any_hub_model_dir, is_cache_model_entry, is_hub_model_dir, make_id,
};

#[test]
fn embedding_id_joins_topic_and_text() {
    assert_eq!(make_id("prefs", "- 2026-04-28: hi"), "prefs::- 2026-04-28: hi");
}

#[test]
fn model_directory_names() {
    assert!(is_hub_model_dir("models--Qdrant--all-MiniLM-L6-v2-onnx"));
    assert!(is_hub_model_dir("fast-all_minilm_l6"));
    assert!(!is_hub_model_dir("models--Qdrant--all-minilm"));
    assert!(!is_hub_model_dir(""));
    assert!(is_cache_model_entry("sentence-minilm"));
    assert!(is_cache_model_entry("MiniLM-L6"));
    assert!(!is_cache_model_entry("Minilm"));
}

#[test]
fn model_directory_listings() {
    let hub = vec!["models--other".to_string(), "models--Qdrant--all-MiniLM-L6-v2".to_string()];
    assert!(any_hub_model_dir(&hub));
    assert!(!any_hub_model_dir(&vec!["models--other".to_string()]));
    assert!(!any_hub_model_dir(&Vec::new()));
    assert!(any_cache_model_entry(&vec!["hub".to_string(), "fast-minilm".to_string()]));
    assert!(!any_cache_model_entry(&vec!["hub".to_string()]));
}
