use gaia_ai_agent_template::config::{
    is_remote_url, rule_for_key, validate_batch, validate_config_command, ConfigRule,
    ConfigUpdate, PathFacts, ValidationError,
};

fn no_fs() -> PathFacts {
    PathFacts { file_exists: false, under_base_dir: false }
}

fn update(key: &str, value: &str) -> ConfigUpdate {
    ConfigUpdate::new(key.to_string(), value.to_string())
}

#[test]
fn port_accepts_plain_number() {
    assert!(validate_config_command("port", "8080", &no_fs()).is_ok());
}

#[test]
fn port_rejects_negative_and_text() {
    assert!(matches!(
        validate_config_command("port", "-1", &no_fs()),
        Err(ValidationError::InvalidNumber { .. })
    ));
    assert!(matches!(
        validate_config_command("port", "abc", &no_fs()),
        Err(ValidationError::InvalidNumber { .. })
    ));
}

#[test]
fn ctx_size_keys_accept_numbers() {
    assert!(validate_config_command("chat-ctx-size", "4096", &no_fs()).is_ok());
    assert!(validate_config_command("embedding-ctx-size", "0", &no_fs()).is_ok());
}

#[test]
fn number_bounds_match_u32() {
    assert!(validate_config_command("port", "4294967295", &no_fs()).is_ok());
    assert!(matches!(
        validate_config_command("port", "4294967296", &no_fs()),
        Err(ValidationError::InvalidNumber { .. })
    ));
    assert!(validate_config_command("port", "+8080", &no_fs()).is_ok());
}

#[test]
fn score_threshold_accepts_interval_ends() {
    assert!(validate_config_command("qdrant-score-threshold", "0.0", &no_fs()).is_ok());
    assert!(validate_config_command("qdrant-score-threshold", "1.0", &no_fs()).is_ok());
}

#[test]
fn score_threshold_rejects_out_of_range() {
    assert!(matches!(
        validate_config_command("qdrant-score-threshold", "-0.01", &no_fs()),
        Err(ValidationError::OutOfRange { .. })
    ));
    assert!(matches!(
        validate_config_command("qdrant-score-threshold", "1.01", &no_fs()),
        Err(ValidationError::OutOfRange { .. })
    ));
}

#[test]
fn score_threshold_rejects_non_numbers() {
    assert!(matches!(
        validate_config_command("qdrant-score-threshold", "abc", &no_fs()),
        Err(ValidationError::InvalidNumber { .. })
    ));
    assert!(matches!(
        validate_config_command("qdrant-score-threshold", "", &no_fs()),
        Err(ValidationError::InvalidNumber { .. })
    ));
    assert!(matches!(
        validate_config_command("qdrant-score-threshold", ".", &no_fs()),
        Err(ValidationError::InvalidNumber { .. })
    ));
    assert!(matches!(
        validate_config_command("qdrant-score-threshold", "1e", &no_fs()),
        Err(ValidationError::InvalidNumber { .. })
    ));
    assert!(matches!(
        validate_config_command("qdrant-score-threshold", "e3", &no_fs()),
        Err(ValidationError::InvalidNumber { .. })
    ));
    assert!(matches!(
        validate_config_command("qdrant-score-threshold", "1e2.5", &no_fs()),
        Err(ValidationError::InvalidNumber { .. })
    ));
    assert!(matches!(
        validate_config_command("qdrant-score-threshold", "--0.5", &no_fs()),
        Err(ValidationError::InvalidNumber { .. })
    ));
    assert!(matches!(
        validate_config_command("qdrant-score-threshold", "infinit", &no_fs()),
        Err(ValidationError::InvalidNumber { .. })
    ));
}

#[test]
fn score_threshold_reads_exponent_forms() {
    assert!(validate_config_command("qdrant-score-threshold", "1e-3", &no_fs()).is_ok());
    assert!(validate_config_command("qdrant-score-threshold", "5E-1", &no_fs()).is_ok());
    assert!(validate_config_command("qdrant-score-threshold", "1e0", &no_fs()).is_ok());
    assert!(validate_config_command("qdrant-score-threshold", "10e-1", &no_fs()).is_ok());
    assert!(validate_config_command("qdrant-score-threshold", "+1.25e-1", &no_fs()).is_ok());
    assert!(validate_config_command("qdrant-score-threshold", "0.5e+0", &no_fs()).is_ok());
    assert!(matches!(
        validate_config_command("qdrant-score-threshold", ".5e1", &no_fs()),
        Err(ValidationError::OutOfRange { .. })
    ));
    assert!(matches!(
        validate_config_command("qdrant-score-threshold", "1e1", &no_fs()),
        Err(ValidationError::OutOfRange { .. })
    ));
    assert!(matches!(
        validate_config_command("qdrant-score-threshold", "1.0000001e0", &no_fs()),
        Err(ValidationError::OutOfRange { .. })
    ));
}

#[test]
fn score_threshold_extreme_exponents_compare_exactly() {
    assert!(
        validate_config_command("qdrant-score-threshold", "0e999999999999999999999999", &no_fs())
            .is_ok()
    );
    assert!(
        validate_config_command("qdrant-score-threshold", "1e-999999999999999999999999", &no_fs())
            .is_ok()
    );
    assert!(matches!(
        validate_config_command("qdrant-score-threshold", "1e999999999999999999999999", &no_fs()),
        Err(ValidationError::OutOfRange { .. })
    ));
    // The exact value is a negative rational, however small its magnitude.
    assert!(matches!(
        validate_config_command("qdrant-score-threshold", "-1e-999999999999999999999999", &no_fs()),
        Err(ValidationError::OutOfRange { .. })
    ));
}

#[test]
fn score_threshold_keywords_parse_but_never_lie_in_range() {
    for value in ["nan", "NaN", "inf", "-inf", "+inf", "Infinity", "INFINITY"] {
        assert!(matches!(
            validate_config_command("qdrant-score-threshold", value, &no_fs()),
            Err(ValidationError::OutOfRange { .. })
        ));
    }
}

#[test]
fn score_threshold_interior_and_edge_forms() {
    assert!(validate_config_command("qdrant-score-threshold", "0.5", &no_fs()).is_ok());
    assert!(validate_config_command("qdrant-score-threshold", ".5", &no_fs()).is_ok());
    assert!(validate_config_command("qdrant-score-threshold", "0.000", &no_fs()).is_ok());
    assert!(validate_config_command("qdrant-score-threshold", "1.000", &no_fs()).is_ok());
    assert!(validate_config_command("qdrant-score-threshold", "-0.0", &no_fs()).is_ok());
    assert!(validate_config_command("qdrant-score-threshold", "0.0000001", &no_fs()).is_ok());
    assert!(matches!(
        validate_config_command("qdrant-score-threshold", "5.", &no_fs()),
        Err(ValidationError::OutOfRange { .. })
    ));
    assert!(matches!(
        validate_config_command("qdrant-score-threshold", "1.0000001", &no_fs()),
        Err(ValidationError::OutOfRange { .. })
    ));
}

#[test]
fn qdrant_limit_must_be_positive() {
    assert!(validate_config_command("qdrant-limit", "5", &no_fs()).is_ok());
    assert!(matches!(
        validate_config_command("qdrant-limit", "0", &no_fs()),
        Err(ValidationError::InvalidNumber { .. })
    ));
    assert!(matches!(
        validate_config_command("qdrant-limit", "abc", &no_fs()),
        Err(ValidationError::InvalidNumber { .. })
    ));
}

#[test]
fn rag_policy_is_a_closed_enum() {
    assert!(validate_config_command("rag-policy", "system-message", &no_fs()).is_ok());
    assert!(validate_config_command("rag-policy", "last-user-message", &no_fs()).is_ok());
    assert!(matches!(
        validate_config_command("rag-policy", "first-user-message", &no_fs()),
        Err(ValidationError::InvalidEnumValue { .. })
    ));
}

#[test]
fn url_keys_accept_well_formed_urls() {
    assert!(validate_config_command("chat-url", "https://example.com/v1", &no_fs()).is_ok());
    assert!(validate_config_command("embedding-url", "http://localhost:8080", &no_fs()).is_ok());
    assert!(validate_config_command("snapshot", "https://example.com/snap.tar", &no_fs()).is_ok());
}

#[test]
fn url_keys_accept_any_well_formed_absolute_url() {
    // The rule is a plain disjunction: any absolute URL passes, whatever its
    // scheme or case, with no file needed.
    assert!(validate_config_command("chat-url", "ftp://example.com", &no_fs()).is_ok());
    assert!(validate_config_command("chat-url", "HTTP://example.com", &no_fs()).is_ok());
    assert!(validate_config_command("snapshot", "file:///srv/snap.tar", &no_fs()).is_ok());
}

#[test]
fn url_keys_reject_malformed_urls() {
    // Starts with the scheme but does not parse as an absolute URL.
    assert!(matches!(
        validate_config_command("chat-url", "https://", &no_fs()),
        Err(ValidationError::InvalidUrlOrPath { .. })
    ));
}

#[test]
fn url_keys_fall_back_to_local_files() {
    let present = PathFacts { file_exists: true, under_base_dir: true };
    let outside = PathFacts { file_exists: true, under_base_dir: false };
    let missing = PathFacts { file_exists: false, under_base_dir: false };
    assert!(validate_config_command("snapshot", "model.gguf", &present).is_ok());
    assert!(matches!(
        validate_config_command("snapshot", "model.gguf", &outside),
        Err(ValidationError::InvalidUrlOrPath { .. })
    ));
    assert!(matches!(
        validate_config_command("snapshot", "model.gguf", &missing),
        Err(ValidationError::InvalidUrlOrPath { .. })
    ));
}

#[test]
fn base_requires_an_existing_path() {
    let present = PathFacts { file_exists: true, under_base_dir: false };
    assert!(validate_config_command("base", "/opt/node", &present).is_ok());
    assert!(matches!(
        validate_config_command("base", "/opt/node", &no_fs()),
        Err(ValidationError::PathNotFound { .. })
    ));
}

#[test]
fn free_text_keys_accept_anything() {
    assert!(validate_config_command("prompt-template", "llama-3-chat", &no_fs()).is_ok());
    assert!(validate_config_command("system-prompt", "", &no_fs()).is_ok());
    assert!(validate_config_command("rag-prompt", "context:", &no_fs()).is_ok());
    assert!(validate_config_command("reverse-prompt", "</s>", &no_fs()).is_ok());
}

#[test]
fn unknown_key_is_rejected_by_name() {
    match validate_config_command("frobnicate", "1", &no_fs()) {
        Err(ValidationError::UnknownKey { key }) => assert_eq!(key, "frobnicate"),
        other => panic!("expected UnknownKey, got {:?}", other),
    }
}

#[test]
fn rule_table_covers_every_documented_key() {
    for key in [
        "chat-url",
        "embedding-url",
        "snapshot",
        "chat-ctx-size",
        "embedding-ctx-size",
        "port",
        "qdrant-limit",
        "qdrant-score-threshold",
        "rag-policy",
        "base",
        "prompt-template",
        "system-prompt",
        "rag-prompt",
        "reverse-prompt",
    ] {
        assert!(rule_for_key(key).is_some(), "missing rule for {}", key);
    }
    assert!(rule_for_key("model").is_none());
}

#[test]
fn remote_urls_are_told_apart_from_paths() {
    assert!(is_remote_url("https://example.com/file.bin"));
    assert!(is_remote_url("http://example.com"));
    assert!(!is_remote_url("/home/user/gaianet/file.bin"));
    assert!(!is_remote_url("ftp://example.com"));
    assert!(!is_remote_url("http:/half"));
}

#[test]
fn rule_check_applies_directly() {
    let rule = ConfigRule::PositiveInteger;
    assert!(rule.check("3", &no_fs()));
    assert!(!rule.check("0", &no_fs()));
}

#[test]
fn batch_accepts_all_valid_pairs() {
    let updates = vec![update("port", "8080"), update("rag-policy", "system-message")];
    let facts = vec![no_fs(), no_fs()];
    assert!(validate_batch(&updates, &facts).is_ok());
}

#[test]
fn batch_reports_first_error_in_input_order() {
    let updates = vec![update("port", "abc"), update("frobnicate", "1")];
    let facts = vec![no_fs(), no_fs()];
    assert!(matches!(
        validate_batch(&updates, &facts),
        Err(ValidationError::InvalidNumber { .. })
    ));
}

#[test]
fn batch_with_unknown_key_fails_with_unknown_key() {
    let updates = vec![update("port", "8080"), update("frobnicate", "1")];
    let facts = vec![no_fs(), no_fs()];
    match validate_batch(&updates, &facts) {
        Err(ValidationError::UnknownKey { key }) => assert_eq!(key, "frobnicate"),
        _ => panic!("expected UnknownKey"),
    }
}

#[test]
fn empty_batch_is_valid() {
    let updates: Vec<ConfigUpdate> = Vec::new();
    let facts: Vec<PathFacts> = Vec::new();
    assert!(validate_batch(&updates, &facts).is_ok());
}
