use narrative_attribution::models::AuthorType;

#[test]
fn author_tokens_round_trip_and_aliases_map_in() {
    for t in [AuthorType::Human, AuthorType::AiAgent, AuthorType::AiTab, AuthorType::Mixed] {
        assert_eq!(AuthorType::from_token(t.token()), t);
    }
    assert_eq!(AuthorType::from_token("ai_assist"), AuthorType::AiTab);
    assert_eq!(AuthorType::from_token(""), AuthorType::Human);
    assert_eq!(AuthorType::from_token("something-else"), AuthorType::Human);
    assert_eq!(AuthorType::Mixed.token(), "mixed");
}

use narrative_attribution::prefs::{default_prefs, update_prefs, AttributionPrefsUpdate};

#[test]
fn prefs_update_replaces_set_fields_and_clears_retention() {
    let current = default_prefs(7);
    assert!(current.show_line_overlays);
    let next = update_prefs(
        &current,
        &AttributionPrefsUpdate {
            cache_prompt_metadata: Some(true),
            store_prompt_text: None,
            show_line_overlays: Some(false),
            retention_days: Some(30),
            clear_retention_days: None,
        },
    );
    assert!(next.cache_prompt_metadata && !next.store_prompt_text && !next.show_line_overlays);
    assert_eq!(next.retention_days, Some(30));
    let cleared = update_prefs(
        &next,
        &AttributionPrefsUpdate {
            cache_prompt_metadata: None,
            store_prompt_text: None,
            show_line_overlays: None,
            retention_days: Some(5),
            clear_retention_days: Some(true),
        },
    );
    assert_eq!(cleared.retention_days, None);
    assert_eq!(cleared.repo_id, 7);
}

use narrative_attribution::cli::{git_ai_cli_status, git_ai_cli_unavailable};

#[test]
fn cli_status_from_outcome() {
    let ok = git_ai_cli_status(true, "git-ai 1.2.3".to_string(), String::new());
    assert!(ok.available);
    assert_eq!(ok.version.as_deref(), Some("git-ai 1.2.3"));
    assert_eq!(ok.error, None);
    let silent = git_ai_cli_status(true, String::new(), String::new());
    assert_eq!(silent.version, None);
    let failed = git_ai_cli_status(false, "x".to_string(), String::new());
    assert!(!failed.available);
    assert_eq!(failed.error.as_deref(), Some("git-ai CLI not available"));
    let failed2 = git_ai_cli_status(false, String::new(), "boom".to_string());
    assert_eq!(failed2.error.as_deref(), Some("boom"));
    assert_eq!(git_ai_cli_unavailable("timed out".to_string()).error.as_deref(), Some("timed out"));
}

use narrative_attribution::models::AttributionError;

#[test]
fn error_messages() {
    assert_eq!(AttributionError::DatabaseError("locked".to_string()).message(), "Database error: locked");
    assert_eq!(AttributionError::SessionNotFound.message(), "Session not found");
}
