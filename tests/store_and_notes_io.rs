use narrative_attribution::notes_io::{export_summary, AttributionNoteMetaTable, NoteExportStatus};
use narrative_attribution::lens::build_line_meta;
use narrative_attribution::extract::{ChangeKind, ChangedRange, FileChangedRanges};
use narrative_attribution::models::{AuthorType, LineAttributionCommitRow, SessionMetaRow};
use narrative_attribution::notes::parse_attribution_note;
use narrative_attribution::notes_io::{
    export_note_files, export_note_sources, import_attribution_notes_batch, note_meta_input,
    AttributionNoteBatchSummary, NoteImportStatus,
};
use narrative_attribution::store::{
    parse_session_files, plan_line_attributions, EnsureOutcome, LineAttributionStore, LinkedSessionRow,
};

fn session(id: &str, tool: &str, files: Option<&str>) -> LinkedSessionRow {
    LinkedSessionRow {
        session_id: id.to_string(),
        tool: tool.to_string(),
        model: Some("m".to_string()),
        files: files.map(|f| f.to_string()),
    }
}

fn change(path: &str, ranges: &[(i32, i32, ChangeKind)]) -> FileChangedRanges {
    FileChangedRanges {
        file_path: path.to_string(),
        ranges: ranges.iter().map(|&(s, e, k)| ChangedRange { start_line: s, end_line: e, kind: k }).collect(),
    }
}

fn summary(rows: &[LineAttributionCommitRow]) -> Vec<(String, i32, i32, Option<String>, AuthorType, Option<i32>)> {
    rows.iter()
        .map(|r| (r.file_path.clone(), r.start_line, r.end_line, r.session_id.clone(), r.author_type, r.ai_percentage))
        .collect()
}

#[test]
fn ensure_computes_rows_from_sessions() {
    let mut store = LineAttributionStore::new();
    let sessions = vec![session("S1", "codex", Some("[\"a.py\"]")), session("S2", "aider", Some("[\"b.py\"]"))];
    let changes = vec![
        change("a.py", &[(10, 12, ChangeKind::Added)]),
        change("c.py", &[(1, 1, ChangeKind::Modified)]),
    ];
    let c = "c1".to_string();
    let out = store.ensure_line_attributions_for_commit(1, &c, &Some("k1".to_string()), &sessions, &changes);
    assert_eq!(out, EnsureOutcome::Computed);
    let rows = store.fetch_line_attributions_for_commit(1, &c);
    assert_eq!(
        summary(&rows),
        vec![
            ("a.py".to_string(), 10, 12, Some("S1".to_string()), AuthorType::AiAgent, None),
            ("c.py".to_string(), 1, 1, Some("S1".to_string()), AuthorType::Mixed, Some(50)),
        ]
    );
    assert_eq!(rows[0].tool.as_deref(), Some("codex"));
}

#[test]
fn ensure_twice_yields_identical_rows() {
    let mut store = LineAttributionStore::new();
    let sessions = vec![session("S1", "codex", None)];
    let changes = vec![change("a.py", &[(1, 3, ChangeKind::Added)])];
    let c = "c1".to_string();
    store.ensure_line_attributions_for_commit(1, &c, &Some("k".to_string()), &sessions, &changes);
    let first = summary(&store.fetch_line_attributions_for_commit(1, &c));
    let out = store.ensure_line_attributions_for_commit(1, &c, &Some("k".to_string()), &sessions, &changes);
    assert_eq!(out, EnsureOutcome::Present);
    assert_eq!(summary(&store.fetch_line_attributions_for_commit(1, &c)), first);
    assert_eq!(store.rows.len(), 3 - 2);
}

#[test]
fn ensure_without_sessions_is_absent_and_stays_absent() {
    let mut store = LineAttributionStore::new();
    let c = "c1".to_string();
    let out = store.ensure_line_attributions_for_commit(1, &c, &Some("k".to_string()), &vec![], &vec![]);
    assert_eq!(out, EnsureOutcome::Absent);
    let again = store.ensure_line_attributions_for_commit(1, &c, &Some("k".to_string()), &vec![], &vec![]);
    assert_eq!(again, EnsureOutcome::Absent);
    assert!(store.rows.is_empty());
    assert_eq!(store.keys.len(), 1);
}

#[test]
fn amended_commit_recovers_rows_of_its_twin() {
    let mut store = LineAttributionStore::new();
    let c1 = "c1".to_string();
    let c2 = "c2".to_string();
    let key = Some("same-key".to_string());
    let sessions = vec![session("S1", "codex", None)];
    let changes = vec![change("a.py", &[(10, 12, ChangeKind::Added)]), change("b.py", &[(2, 2, ChangeKind::Modified)])];
    store.ensure_line_attributions_for_commit(1, &c1, &key, &sessions, &changes);
    let out = store.ensure_line_attributions_for_commit(1, &c2, &key, &vec![], &vec![]);
    assert_eq!(out, EnsureOutcome::Recovered);
    let r1 = store.fetch_line_attributions_for_commit(1, &c1);
    let r2 = store.fetch_line_attributions_for_commit(1, &c2);
    assert_eq!(summary(&r1), summary(&r2));
    assert_eq!(r2.len(), 2);
}

#[test]
fn donor_must_share_repository_and_key() {
    let mut store = LineAttributionStore::new();
    let sessions = vec![session("S1", "codex", None)];
    let changes = vec![change("a.py", &[(1, 1, ChangeKind::Added)])];
    store.ensure_line_attributions_for_commit(1, &"c1".to_string(), &Some("k".to_string()), &sessions, &changes);
    let other_repo = store.ensure_line_attributions_for_commit(2, &"c2".to_string(), &Some("k".to_string()), &vec![], &vec![]);
    assert_eq!(other_repo, EnsureOutcome::Absent);
    let other_key = store.ensure_line_attributions_for_commit(1, &"c3".to_string(), &Some("z".to_string()), &vec![], &vec![]);
    assert_eq!(other_key, EnsureOutcome::Absent);
}

#[test]
fn unmatched_files_go_to_the_first_session_and_matched_to_all() {
    let sessions = vec![
        session("S1", "codex", Some("not json")),
        session("S2", "aider", Some("[\"a.py\", \"x\"]")),
        session("S3", "cursor", Some("[\"a.py\"]")),
    ];
    let rows = plan_line_attributions(&sessions, &vec![change("a.py", &[(1, 1, ChangeKind::Added)]), change("z.py", &[(4, 5, ChangeKind::Added)])]);
    let who: Vec<(String, String)> = rows.iter().map(|r| (r.file_path.clone(), r.session_id.clone().unwrap())).collect();
    assert_eq!(
        who,
        vec![
            ("a.py".to_string(), "S2".to_string()),
            ("a.py".to_string(), "S3".to_string()),
            ("z.py".to_string(), "S1".to_string()),
        ]
    );
    assert_eq!(parse_session_files(&Some("[\"p\", \"q\"]".to_string())), vec!["p".to_string(), "q".to_string()]);
    assert!(parse_session_files(&Some("{}".to_string())).is_empty());
    assert!(parse_session_files(&None).is_empty());
}

#[test]
fn import_with_unparsable_json_tail_keeps_the_file_section() {
    let mut store = LineAttributionStore::new();
    let c = "c9".to_string();
    let note = parse_attribution_note("a.py\n  s1 1-3\n  s2 8\nb.py\n  s1 2\n---\n{not json");
    assert_eq!(note.json_text, "{not json");
    let summary = store.import_attribution_note(1, &c, Some(&note), &vec![], &None);
    assert_eq!(summary.status, NoteImportStatus::Imported);
    assert_eq!(summary.imported_ranges, 3);
    assert_eq!(summary.imported_sessions, 2);
    let rows = store.fetch_line_attributions_for_commit(1, &c);
    assert_eq!(rows.len(), 3);
    assert!(rows.iter().all(|r| r.tool.is_none() && r.model.is_none() && r.author_type == AuthorType::AiAgent));
    assert!(note.sources.is_empty());
    let meta = note_meta_input("refs/notes/ai", &"h".to_string(), &note);
    assert!(!meta.metadata_available);
    assert_eq!(meta.prompt_count, 0);
}

#[test]
fn import_replaces_rows_and_uses_known_sessions() {
    let mut store = LineAttributionStore::new();
    let c = "c1".to_string();
    store.ensure_line_attributions_for_commit(1, &c, &None, &vec![session("OLD", "x", None)], &vec![change("a.py", &[(1, 9, ChangeKind::Added)])]);
    let known = vec![(
        "s1".to_string(),
        SessionMetaRow { tool: Some("codex".to_string()), model: Some("gpt".to_string()), conversation_id: None, trace_available: None },
    )];
    let note = parse_attribution_note("a.py\n  s1 4-5\n---\n");
    let summary = store.import_attribution_note(1, &c, Some(&note), &known, &Some("computed".to_string()));
    assert_eq!(summary.status, NoteImportStatus::Imported);
    let rows = store.fetch_line_attributions_for_commit(1, &c);
    assert_eq!(rows.len(), 1);
    assert_eq!(rows[0].session_id.as_deref(), Some("s1"));
    assert_eq!(rows[0].tool.as_deref(), Some("codex"));
    assert_eq!(store.keys[0].rewrite_key, "computed");
    assert_eq!(store.keys[0].algorithm, "patch-id");
}

#[test]
fn import_of_missing_or_empty_note() {
    let mut store = LineAttributionStore::new();
    let c = "c1".to_string();
    assert_eq!(store.import_attribution_note(1, &c, None, &vec![], &None).status, NoteImportStatus::Missing);
    let empty = parse_attribution_note("---\n{}");
    let s = store.import_attribution_note(1, &c, Some(&empty), &vec![], &None);
    assert_eq!(s.status, NoteImportStatus::Invalid);
    assert_eq!(s.imported_ranges, 0);
}

#[test]
fn batch_tally_counts_each_outcome() {
    let t = import_attribution_notes_batch(&vec![
        Some(NoteImportStatus::Imported),
        Some(NoteImportStatus::Missing),
        None,
        Some(NoteImportStatus::Invalid),
        Some(NoteImportStatus::Imported),
    ]);
    assert_eq!(t, AttributionNoteBatchSummary { total: 5, imported: 2, missing: 2, failed: 1 });
}

#[test]
fn export_groups_rows_by_file_and_session() {
    let rows = vec![
        LineAttributionCommitRow { file_path: "a.py".to_string(), start_line: 1, end_line: 2, session_id: Some("s1".to_string()), author_type: AuthorType::AiTab, ai_percentage: None, tool: None, model: None },
        LineAttributionCommitRow { file_path: "b.py".to_string(), start_line: 3, end_line: 3, session_id: None, author_type: AuthorType::Human, ai_percentage: None, tool: None, model: None },
        LineAttributionCommitRow { file_path: "a.py".to_string(), start_line: 7, end_line: 8, session_id: Some("s1".to_string()), author_type: AuthorType::AiAgent, ai_percentage: None, tool: Some("codex".to_string()), model: None },
    ];
    let files = export_note_files(&rows);
    assert_eq!(files.len(), 1);
    assert_eq!(files[0].ranges.len(), 2);
    let known = vec![(
        "s1".to_string(),
        SessionMetaRow { tool: Some("other".to_string()), model: Some("gpt".to_string()), conversation_id: Some("conv".to_string()), trace_available: None },
    )];
    let sources = export_note_sources(&rows, &known);
    assert_eq!(sources.len(), 1);
    let m = &sources[0].1;
    assert_eq!(m.tool.as_deref(), Some("codex"));
    assert_eq!(m.model.as_deref(), Some("gpt"));
    assert_eq!(m.checkpoint_kind.as_deref(), Some("ai_tab"));
    assert_eq!(m.conversation_id.as_deref(), Some("conv"));
}

#[test]
fn file_rows_come_sorted_by_first_line_with_trace_flags() {
    let mut store = LineAttributionStore::new();
    let c = "c1".to_string();
    let note = parse_attribution_note("a.py\n  s2 5\n  s1 1-5\n  s3 5\nb.py\n  s1 1\n---\n");
    store.import_attribution_note(1, &c, Some(&note), &vec![], &None);
    let rows = store.fetch_line_attributions(1, &c, &"a.py".to_string(), &vec!["s3".to_string()]);
    let order: Vec<(String, i32, i32)> =
        rows.iter().map(|r| (r.session_id.clone().unwrap(), r.start_line, r.trace_available)).collect();
    assert_eq!(order, vec![("s1".to_string(), 1, 0), ("s2".to_string(), 5, 0), ("s3".to_string(), 5, 1)]);
    let metas = build_line_meta(5, &rows);
    assert_eq!(metas[4].session_id.as_deref(), Some("s1"));
    assert_eq!(metas[4].author_type, AuthorType::Mixed);
    assert!(metas[4].trace_available);
    assert_eq!(metas[0].author_type, AuthorType::AiAgent);
}

#[test]
fn export_step_and_note_meta_records() {
    let mut store = LineAttributionStore::new();
    let c = "c1".to_string();
    assert!(store.export_attribution_note(1, &c, &vec![], &Some("k".to_string())).is_none());
    assert!(store.keys.is_empty());
    assert_eq!(export_summary(&c, false).status, NoteExportStatus::Empty);
    store.ensure_line_attributions_for_commit(1, &c, &None, &vec![session("S1", "codex", None)], &vec![change("a.py", &[(1, 2, ChangeKind::Added)])]);
    let (files, sources) = store.export_attribution_note(1, &c, &vec![], &Some("k".to_string())).unwrap();
    assert_eq!(files.len(), 1);
    assert_eq!(sources[0].1.checkpoint_kind.as_deref(), Some("ai_agent"));
    assert_eq!(store.keys[0].rewrite_key, "k");

    let mut metas = AttributionNoteMetaTable::new();
    let note = parse_attribution_note("a.py\n  s1 1\n---\n");
    let meta = note_meta_input("refs/notes/ai", &"h1".to_string(), &note);
    metas.record_note_import(1, &c, NoteImportStatus::Imported, Some(meta));
    assert_eq!(metas.records.len(), 1);
    assert_eq!(metas.records[0].meta.note_hash, "h1");
    let meta2 = note_meta_input("refs/notes/ai", &"h2".to_string(), &note);
    metas.record_note_import(1, &c, NoteImportStatus::Imported, Some(meta2));
    assert_eq!(metas.records.len(), 1);
    assert_eq!(metas.records[0].meta.note_hash, "h2");
    metas.record_note_import(1, &c, NoteImportStatus::Missing, None);
    assert!(metas.records.is_empty());
}
