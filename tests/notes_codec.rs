use narrative_attribution::notes::{
    apply_note_payload, build_attribution_note, build_note_payload, parse_attribution_note,
    NoteAgentId, NoteFile, NotePayload, NoteRange, NoteSourceMeta, NoteSourcePayload,
};
use std::collections::BTreeSet;

fn nr(sid: &str, s: i32, e: i32) -> NoteRange {
    NoteRange { session_id: sid.to_string(), start_line: s, end_line: e }
}

fn line_set(files: &[NoteFile]) -> BTreeSet<(String, String, i32)> {
    let mut out = BTreeSet::new();
    for f in files {
        for r in &f.ranges {
            for l in r.start_line..=r.end_line.max(r.start_line) {
                out.insert((f.path.clone(), r.session_id.clone(), l));
            }
        }
    }
    out
}

#[test]
fn parse_reads_files_sessions_and_json_tail() {
    let msg = "src/a.py\n  s1 1-3,5\n  s2 7\nsrc/b.py\n\ts3 10-12\n---\n{\"schema_version\": \"x\"}\n";
    let note = parse_attribution_note(msg);
    assert_eq!(note.files.len(), 2);
    assert_eq!(note.files[0].path, "src/a.py");
    let a: Vec<(String, i32, i32)> =
        note.files[0].ranges.iter().map(|r| (r.session_id.clone(), r.start_line, r.end_line)).collect();
    assert_eq!(a, vec![("s1".to_string(), 1, 3), ("s1".to_string(), 5, 5), ("s2".to_string(), 7, 7)]);
    assert_eq!(note.files[1].ranges.len(), 1);
    assert_eq!(note.json_text, "{\"schema_version\": \"x\"}");
    assert!(note.sources.is_empty());
}

#[test]
fn parse_drops_malformed_and_zero_tokens() {
    let msg = "f.rs\n  s1 0,abc,-4,3-x, 8 ,2-5,5-0,6--1\n  lonely\n---\n";
    let note = parse_attribution_note(msg);
    let got: Vec<(i32, i32)> = note.files[0].ranges.iter().map(|r| (r.start_line, r.end_line)).collect();
    assert_eq!(got, vec![(3, 3), (8, 8), (2, 5)]);
    assert_eq!(note.json_text, "");
}

#[test]
fn parse_ignores_indented_lines_before_any_file() {
    let note = parse_attribution_note("  s1 1-2\nf.rs\n  s1 4\n");
    assert_eq!(note.files.len(), 1);
    assert_eq!(note.files[0].ranges.len(), 1);
    assert_eq!(note.json_text, "");
}

#[test]
fn separator_must_be_exact() {
    let note = parse_attribution_note("f.rs\n  s1 1\n --- \n---\ntail");
    assert_eq!(note.files.len(), 1);
    assert_eq!(note.json_text, "tail");
}

#[test]
fn build_writes_merged_ranges_per_session() {
    let files = vec![NoteFile {
        path: "a.py".to_string(),
        ranges: vec![nr("s1", 5, 6), nr("s2", 1, 1), nr("s1", 1, 3), nr("s1", 4, 4), nr("s1", 9, 9)],
    }];
    let text = build_attribution_note(&files, "{}");
    assert_eq!(text, "a.py\n  s1 1-6,9\n  s2 1\n---\n{}");
}

#[test]
fn build_with_no_files_is_separator_and_json() {
    assert_eq!(build_attribution_note(&vec![], "{\"a\":1}"), "---\n{\"a\":1}");
}

#[test]
fn round_trip_keeps_merged_range_sets() {
    let files = vec![
        NoteFile { path: "src/z.rs".to_string(), ranges: vec![nr("sA", 10, 20), nr("sB", 15, 15), nr("sA", 18, 25)] },
        NoteFile { path: "src/a.rs".to_string(), ranges: vec![nr("sC", 1, 1), nr("sC", 3, 4)] },
        NoteFile { path: "empty.rs".to_string(), ranges: vec![] },
    ];
    let text = build_attribution_note(&files, "{\"schema_version\":\"1\"}");
    let parsed = parse_attribution_note(&text);
    assert_eq!(line_set(&parsed.files), line_set(&files));
    let paths: Vec<&str> = parsed.files.iter().map(|f| f.path.as_str()).collect();
    assert_eq!(paths, vec!["empty.rs", "src/a.rs", "src/z.rs"]);
    assert_eq!(parsed.json_text, "{\"schema_version\":\"1\"}");
}

#[test]
fn payload_fills_sources_and_rewrite_key() {
    let mut note = parse_attribution_note("f.rs\n  s1 1\n---\n{}");
    let payload = NotePayload {
        schema_version: Some("v".to_string()),
        base_commit_sha: None,
        rewrite_key: Some("k".to_string()),
        rewrite_algorithm: None,
        sources: Some(vec![
            (
                "s1".to_string(),
                NoteSourcePayload {
                    agent_id: Some(NoteAgentId { tool: Some("codex".to_string()), id: Some("c1".to_string()), model: None }),
                    checkpoint_kind: Some("ai_tab".to_string()),
                    model: Some("m-legacy".to_string()),
                },
            ),
            ("s2".to_string(), NoteSourcePayload { agent_id: None, checkpoint_kind: None, model: Some("m2".to_string()) }),
        ]),
    };
    apply_note_payload(&mut note, payload);
    assert_eq!(note.rewrite_key.as_deref(), Some("k"));
    assert_eq!(note.schema_version.as_deref(), Some("v"));
    assert_eq!(note.sources.len(), 2);
    let m = &note.sources[0].1;
    assert_eq!(m.tool.as_deref(), Some("codex"));
    assert_eq!(m.model.as_deref(), Some("m-legacy"));
    assert_eq!(m.conversation_id.as_deref(), Some("c1"));
    assert_eq!(note.sources[1].1.tool, None);
    assert_eq!(note.sources[1].1.model.as_deref(), Some("m2"));
}

#[test]
fn note_payload_defaults_agent_id_to_session() {
    let sources = vec![
        ("s1".to_string(), NoteSourceMeta { tool: Some("codex".to_string()), model: None, checkpoint_kind: None, conversation_id: None }),
        ("s2".to_string(), NoteSourceMeta { tool: None, model: None, checkpoint_kind: Some("ai_tab".to_string()), conversation_id: Some("conv".to_string()) }),
    ];
    let p = build_note_payload("abc", &sources, Some("key".to_string()), Some("patch-id".to_string()));
    assert_eq!(p.schema_version, "narrative/attribution/1.0.0");
    assert_eq!(p.base_commit_sha, "abc");
    assert_eq!(p.messages_redacted, Some(true));
    assert_eq!(p.sources[0].1.agent_id.as_ref().unwrap().id.as_deref(), Some("s1"));
    assert_eq!(p.sources[1].1.agent_id.as_ref().unwrap().id.as_deref(), Some("conv"));
    assert_eq!(p.sources[1].1.messages_redacted, Some(true));
}

#[test]
fn build_sorts_files_by_path_and_sessions_by_id() {
    let files = vec![
        NoteFile { path: "b.py".to_string(), ranges: vec![nr("S1", 2, 2)] },
        NoteFile {
            path: "a.py".to_string(),
            ranges: vec![nr("S2", 7, 7), nr("S1", 3, 5), nr("S1", 1, 2), nr("S1", 8, 8)],
        },
    ];
    let text = build_attribution_note(&files, "{}");
    assert_eq!(text, "a.py\n  S1 1-5,8\n  S2 7\nb.py\n  S1 2\n---\n{}");
}
