//! Embedding store, settings, responses and texts.
use obsidian_vault::embeddings::{
    after_response, api_settings, daemon_cache_path, embedding_cache_path, embeddings_url,
    is_switched_off, legacy_cache_path, migrate_legacy_cache_to_daemon_store, note_embed_text,
    only_embedding, parse_embedding_response, parse_usize_env, prepare_embed_text,
    probed_dimension, read_env_with_fallback, resolve_provider, ApiStep, ApiVariables,
    EmbeddingStore, EmbeddingTasks, LegacyCacheMigration, MAX_BODY_WORDS,
};
use obsidian_vault::error::VaultError;
use obsidian_vault::models::{EmbeddingProvider, FileStat, Heading, NoteMetadata};

fn json(text: &str) -> serde_json::Value {
    serde_json::from_str(text).unwrap()
}

/// A similarity key: the dot product in thousandths.
fn key(a: &[f32], b: &[f32]) -> i64 {
    let dot: f32 = a.iter().zip(b).map(|(x, y)| x * y).sum();
    (dot * 1000.0) as i64
}

fn make_store() -> EmbeddingStore<f32> {
    let mut store = EmbeddingStore::new(3);
    store.insert("a.md".to_string(), vec![1.0, 0.0, 0.0]);
    store.insert("b.md".to_string(), vec![0.0, 1.0, 0.0]);
    store.insert("c.md".to_string(), vec![0.7, 0.7, 0.0]);
    store
}

// ── EmbeddingStore ─────────────────────────────────────────────

#[test]
fn query_returns_top_k_sorted() {
    let store = make_store();
    let query = vec![1.0, 0.0, 0.0];
    let results = store.query(|v: &[f32]| key(&query, v), 2);
    assert_eq!(results.len(), 2);
    assert_eq!(results[0].0, "a.md", "exact match should rank first");
    assert!(results[0].1 > results[1].1, "results should be sorted by descending score");
}

#[test]
fn query_top_k_exceeding_store_size() {
    let store = make_store();
    let query = vec![1.0, 0.0, 0.0];
    let results = store.query(|v: &[f32]| key(&query, v), 100);
    assert_eq!(results.len(), 3);
}

#[test]
fn insert_remove_updates_results() {
    let mut store = make_store();
    assert_eq!(store.len(), 3);

    store.remove("a.md");
    assert_eq!(store.len(), 2);
    assert!(store.get("a.md").is_none());

    let query = vec![1.0, 0.0, 0.0];
    let results = store.query(|v: &[f32]| key(&query, v), 10);
    assert!(!results.iter().any(|(p, _)| p == "a.md"));

    store.insert("d.md".to_string(), vec![0.9, 0.1, 0.0]);
    assert_eq!(store.len(), 3);
    let results = store.query(|v: &[f32]| key(&query, v), 1);
    assert_eq!(results[0].0, "d.md");
}

#[test]
fn get_returns_embedding() {
    let store = make_store();
    let vec = store.get("a.md").unwrap();
    assert_eq!(vec, &[1.0, 0.0, 0.0]);
    assert!(store.get("nonexistent.md").is_none());
}

#[test]
fn persistence_roundtrip() {
    let store = make_store();
    let bytes = bincode::serde::encode_to_vec(store.entries(), bincode::config::standard()).unwrap();
    let (entries, _): (Vec<(String, Vec<f32>)>, usize) =
        bincode::serde::decode_from_slice(&bytes, bincode::config::standard()).unwrap();
    let loaded = EmbeddingStore::from_entries(store.dim(), entries);

    assert_eq!(loaded.dim(), store.dim());
    assert_eq!(loaded.len(), store.len());

    let query = vec![1.0, 0.0, 0.0];
    let original_results = store.query(|v: &[f32]| key(&query, v), 3);
    let loaded_results = loaded.query(|v: &[f32]| key(&query, v), 3);
    assert_eq!(original_results, loaded_results);
    assert!(loaded.is_current(3, 3));
    assert!(!loaded.is_current(3, 2));
}

#[test]
fn empty_store_query() {
    let store: EmbeddingStore<f32> = EmbeddingStore::new(3);
    assert!(store.is_empty());
    let results = store.query(|v: &[f32]| key(&[1.0, 0.0, 0.0], v), 10);
    assert!(results.is_empty());
}

#[test]
fn vectors_of_another_dimension_are_skipped() {
    let mut store = make_store();
    store.insert("e.md".to_string(), vec![1.0]);
    assert!(store.get("e.md").is_none());
    let entries = vec![("x.md".to_string(), vec![1u8, 2]), ("y.md".to_string(), vec![1])];
    let loaded = EmbeddingStore::from_entries(2, entries);
    assert_eq!(loaded.len(), 1);
    let mut batch: EmbeddingStore<u8> = EmbeddingStore::new(1);
    let paths = vec!["p.md".to_string(), "q.md".to_string()];
    batch.insert_all(&paths, vec![vec![7]]);
    assert_eq!(batch.get("p.md"), Some(&[7u8][..]));
    assert_eq!(batch.len(), 1);
}

// ── tasks ──────────────────────────────────────────────────────

#[test]
fn only_the_latest_task_is_committed() {
    let mut tasks = EmbeddingTasks::new();
    let first = tasks.next_embedding_generation("a.md");
    assert!(tasks.should_commit_embedding_task("a.md", first, true));
    assert!(!tasks.should_commit_embedding_task("a.md", first, false));
    let second = tasks.next_embedding_generation("a.md");
    assert_eq!((first, second), (1, 2));
    assert!(!tasks.should_commit_embedding_task("a.md", first, true));
    assert_eq!(tasks.current_embedding_generation("a.md"), Some(2));
    tasks.clear_embedding_generation("a.md");
    assert!(!tasks.should_commit_embedding_task("a.md", second, true));
}

// ── prepare_embed_text ─────────────────────────────────────────

#[test]
fn prepare_embed_text_truncates_body() {
    let long_body: String = (0..600)
        .map(|i| format!("word{i}"))
        .collect::<Vec<_>>()
        .join(" ");
    let result = prepare_embed_text("Title", &vec![], &long_body);

    let word_count = result.lines().last().unwrap().split_whitespace().count();
    assert_eq!(word_count, MAX_BODY_WORDS);
}

#[test]
fn prepare_embed_text_joins_headings() {
    let headings = vec!["Introduction".to_string(), "Summary".to_string()];
    let result = prepare_embed_text("My Note", &headings, "Some body text.");

    assert!(result.starts_with("My Note\n"));
    assert!(result.contains("Introduction | Summary"));
    assert!(result.ends_with("Some body text."));
}

#[test]
fn prepare_embed_text_no_headings() {
    let result = prepare_embed_text("Title", &vec![], "Body here.");
    assert_eq!(result, "Title\nBody here.");
}

#[test]
fn prepare_embed_text_short_body_unchanged() {
    let body = "Short body with a few words.";
    let result = prepare_embed_text("T", &vec![], body);
    assert!(result.contains(body));
}

#[test]
fn text_of_an_indexed_note() {
    let meta = NoteMetadata {
        path: "n.md".to_string(),
        title: "n".to_string(),
        tags: vec![],
        frontmatter: None,
        headings: vec![Heading { level: 1, text: "H".to_string(), line: 3 }],
        links: vec![],
        block_refs: vec![],
        stat: FileStat { size: 0, created: None, modified: None },
    };
    assert_eq!(note_embed_text(&meta, "---\na: 1\n---\n# H\n\n  two   words"), "n\nH\n# H two words");
}

// ── caches ─────────────────────────────────────────────────────

#[test]
fn migrate_legacy_cache_copies_once_and_keeps_source() {
    let (first, source) = migrate_legacy_cache_to_daemon_store("/v", "/s", "id", false, true, false);
    let migrated_path = match first {
        LegacyCacheMigration::Migrated(path) => path,
        other => panic!("expected migrated outcome, got: {other:?}"),
    };
    assert_eq!(migrated_path, "/s/vaults/id/embeddings.bin");
    assert_eq!(source.as_deref(), Some("/v/.obsidian/obsidian-mcp/embeddings.bin"));

    let (second, source) = migrate_legacy_cache_to_daemon_store("/v", "/s", "id", true, true, false);
    assert!(matches!(second, LegacyCacheMigration::AlreadyPresent(p) if p == migrated_path));
    assert!(source.is_none());
}

#[test]
fn migrate_legacy_cache_without_source_is_noop() {
    let (outcome, source) =
        migrate_legacy_cache_to_daemon_store("/v", "/s", "id", false, false, false);
    assert!(matches!(outcome, LegacyCacheMigration::NotFound));
    assert!(source.is_none());
}

#[test]
fn migrate_legacy_cache_checks_daemon_store_first() {
    let (outcome, _) = migrate_legacy_cache_to_daemon_store("/v", "/s", "id", true, false, false);
    let target = daemon_cache_path("/s", "id");
    assert!(matches!(outcome, LegacyCacheMigration::AlreadyPresent(p) if p == target));
}

#[test]
fn migrate_legacy_cache_uses_new_source_as_fallback() {
    let (outcome, source) =
        migrate_legacy_cache_to_daemon_store("/v", "/s", "id", false, false, true);
    assert!(matches!(outcome, LegacyCacheMigration::Migrated(_)));
    assert_eq!(source.as_deref(), Some("/v/.obsidian-mcp/embeddings/embeddings.bin"));
}

#[test]
fn migrate_legacy_cache_prefers_legacy_over_new() {
    let (_, source) = migrate_legacy_cache_to_daemon_store("/v", "/s", "id", false, true, true);
    assert_eq!(source, Some(legacy_cache_path("/v")));
    assert_eq!(embedding_cache_path("/d"), "/d/embeddings/embeddings.bin");
}

// ── resolve_provider ──────────────────────────────────────────

#[test]
fn resolve_provider_explicit_local() {
    let result = resolve_provider(Some(EmbeddingProvider::Local), true, true);
    assert_eq!(result, EmbeddingProvider::Local);
}

#[test]
fn resolve_provider_explicit_api() {
    let result = resolve_provider(Some(EmbeddingProvider::Api), true, true);
    assert_eq!(result, EmbeddingProvider::Api);
}

#[test]
fn resolve_provider_none_infers_from_features() {
    assert_eq!(resolve_provider(None, true, true), EmbeddingProvider::Local);
    assert_eq!(resolve_provider(None, true, false), EmbeddingProvider::Local);
    assert_eq!(resolve_provider(None, false, true), EmbeddingProvider::Api);
}

// ── API responses ─────────────────────────────────────────────

fn parse(resp: &serde_json::Value) -> Result<Vec<Vec<f32>>, VaultError> {
    let vectors = parse_embedding_response(resp)?;
    Ok(vectors
        .iter()
        .map(|v| v.iter().map(|x| x.as_f64().unwrap() as f32).collect())
        .collect())
}

fn embedding_error(resp: &serde_json::Value) -> String {
    match parse(resp) {
        Err(VaultError::Embedding(m)) => m,
        other => panic!("unexpected: {other:?}"),
    }
}

#[test]
fn parse_valid_single_embedding() {
    let resp = json(r#"{"data": [{"embedding": [0.1, 0.2, 0.3]}]}"#);
    let result = parse(&resp).unwrap();
    assert_eq!(result.len(), 1);
    assert_eq!(result[0].len(), 3);
    assert!((result[0][0] - 0.1).abs() < 1e-6);
}

#[test]
fn parse_valid_multiple_embeddings() {
    let resp = json(r#"{"data": [{"embedding": [0.1, 0.2]}, {"embedding": [0.3, 0.4]}]}"#);
    let result = parse(&resp).unwrap();
    assert_eq!(result.len(), 2);
    assert_eq!(result[0], vec![0.1f32, 0.2]);
    assert_eq!(result[1], vec![0.3f32, 0.4]);
}

#[test]
fn parse_missing_data_field() {
    let resp = json(r#"{"object": "list"}"#);
    assert!(embedding_error(&resp).contains("missing 'data' array"));
}

#[test]
fn parse_missing_embedding_in_item() {
    let resp = json(r#"{"data": [{"index": 0}]}"#);
    assert!(embedding_error(&resp).contains("missing 'embedding' array"));
}

#[test]
fn parse_non_numeric_value_in_vector() {
    let resp = json(r#"{"data": [{"embedding": [0.1, "bad", 0.3]}]}"#);
    assert!(embedding_error(&resp).contains("non-numeric value"));
}

#[test]
fn parse_reorders_by_index_field() {
    let resp = json(
        r#"{"data": [{"index": 1, "embedding": [0.3, 0.4]}, {"index": 0, "embedding": [0.1, 0.2]}]}"#,
    );
    let result = parse(&resp).unwrap();
    assert_eq!(result.len(), 2);
    assert_eq!(result[0], vec![0.1f32, 0.2]);
    assert_eq!(result[1], vec![0.3f32, 0.4]);
}

#[test]
fn parse_falls_back_to_array_order_without_index() {
    let resp = json(r#"{"data": [{"embedding": [0.1, 0.2]}, {"embedding": [0.3, 0.4]}]}"#);
    let result = parse(&resp).unwrap();
    assert_eq!(result[0], vec![0.1f32, 0.2]);
    assert_eq!(result[1], vec![0.3f32, 0.4]);
}

#[test]
fn parse_empty_data_array() {
    let resp = json(r#"{"data": []}"#);
    let result = parse(&resp).unwrap();
    assert!(result.is_empty());
}

#[test]
fn parse_empty_embedding_vector() {
    let resp = json(r#"{"data": [{"embedding": []}]}"#);
    let result = parse(&resp).unwrap();
    assert_eq!(result.len(), 1);
    assert!(result[0].is_empty());
}

#[test]
fn indices_that_are_no_whole_numbers_are_ignored() {
    let resp = json(
        r#"{"data": [{"index": 1.5, "embedding": [1]}, {"index": -1, "embedding": [2]}, {"index": 0, "embedding": [3]}]}"#,
    );
    assert_eq!(parse(&resp).unwrap(), vec![vec![1.0f32], vec![3.0], vec![2.0]]);
}

#[test]
fn probes_and_single_texts() {
    assert_eq!(probed_dimension(&vec![vec![0u8; 4]]).unwrap(), 4);
    assert!(matches!(probed_dimension::<u8>(&vec![]), Err(VaultError::Embedding(_))));
    assert!(matches!(probed_dimension::<u8>(&vec![vec![]]), Err(VaultError::Embedding(_))));
    assert_eq!(only_embedding(vec![vec![1u8], vec![2]]).unwrap(), vec![2]);
    assert!(matches!(only_embedding::<u8>(vec![]), Err(VaultError::Embedding(_))));
}

#[test]
fn refused_rates_are_tried_again() {
    assert_eq!(after_response(429, Some("7"), 0), ApiStep::Retry { wait: 7, attempt: 1 });
    assert_eq!(after_response(429, Some("900"), 0), ApiStep::Retry { wait: 30, attempt: 1 });
    assert_eq!(after_response(429, Some("soon"), 1), ApiStep::Retry { wait: 2, attempt: 2 });
    assert_eq!(after_response(429, None, 2), ApiStep::Retry { wait: 4, attempt: 3 });
    assert_eq!(after_response(429, None, 3), ApiStep::Fail);
    assert_eq!(after_response(200, None, 0), ApiStep::Read);
    assert_eq!(after_response(204, None, 3), ApiStep::Read);
    assert_eq!(after_response(500, Some("7"), 0), ApiStep::Fail);
}

#[test]
fn addresses_end_without_double_slash() {
    assert_eq!(embeddings_url("https://x/v1//"), "https://x/v1/embeddings");
    assert_eq!(embeddings_url("https://x"), "https://x/embeddings");
}

// ── settings ──────────────────────────────────────────────────

#[test]
fn read_env_with_fallback_primary_wins() {
    let result = read_env_with_fallback(Some("primary_value"), Some("fallback_value"));
    assert_eq!(result, Some("primary_value".to_string()));
}

#[test]
fn read_env_with_fallback_uses_fallback() {
    let result = read_env_with_fallback(None, Some("fallback_value"));
    assert_eq!(result, Some("fallback_value".to_string()));
}

#[test]
fn read_env_with_fallback_returns_none_when_both_missing() {
    assert_eq!(read_env_with_fallback(None, None), None);
}

#[test]
fn read_env_with_fallback_ignores_empty_primary() {
    let result = read_env_with_fallback(Some("  "), Some("valid"));
    assert_eq!(result, Some("valid".to_string()));
}

#[test]
fn parse_usize_env_valid() {
    assert_eq!(parse_usize_env(Some("384")), Some(384));
    assert_eq!(parse_usize_env(Some(" +12 ")), Some(12));
}

#[test]
fn parse_usize_env_invalid() {
    assert_eq!(parse_usize_env(Some("not_a_number")), None);
    assert_eq!(parse_usize_env(Some("")), None);
    assert_eq!(parse_usize_env(Some("+")), None);
    assert_eq!(parse_usize_env(Some("99999999999999999999999")), None);
    assert_eq!(parse_usize_env(Some("18446744073709551615")), Some(usize::MAX));
}

#[test]
fn parse_usize_env_missing() {
    assert_eq!(parse_usize_env(None), None);
}

#[test]
fn settings_of_the_api() {
    let mut vars = ApiVariables {
        api_key: None,
        openai_key: Some(" k "),
        api_base: None,
        openai_base: None,
        api_model: None,
        openai_model: None,
        dim: Some("8"),
    };
    let settings = api_settings(&vars, "model").unwrap();
    assert_eq!(settings.api_key, "k");
    assert_eq!(settings.base_url, "https://api.openai.com/v1");
    assert_eq!(settings.model, "model");
    assert_eq!(settings.dim, Some(8));
    vars.openai_key = None;
    assert!(matches!(api_settings(&vars, "model"), Err(VaultError::Embedding(m)) if m.contains("API key required")));
    assert!(is_switched_off(Some("FALSE")));
    assert!(is_switched_off(Some("0")));
    assert!(!is_switched_off(Some("true")));
    assert!(!is_switched_off(None));
}

#[test]
fn spellings_of_a_path_share_an_embedding() {
    let mut store = make_store();
    store.insert("./x//y.md".to_string(), vec![0.0, 0.0, 1.0]);
    assert_eq!(store.len(), 4);
    store.insert("./x/y.md".to_string(), vec![0.0, 1.0, 1.0]);
    assert_eq!(store.len(), 4);
    assert_eq!(store.get("./x/./y.md"), Some(&[0.0, 1.0, 1.0][..]));
    store.remove("./x//y.md");
    assert_eq!(store.len(), 3);

    let mut tasks = EmbeddingTasks::new();
    let first = tasks.next_embedding_generation("x/y.md");
    let second = tasks.next_embedding_generation("x//y.md");
    assert!(!tasks.should_commit_embedding_task("x/y.md", first, true));
    assert!(tasks.should_commit_embedding_task("x/./y.md", second, true));
}
