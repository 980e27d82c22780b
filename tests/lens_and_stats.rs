use narrative_attribution::lens::{build_line_meta, get_file_source_lens};
use narrative_attribution::models::{AuthorType, LineAttributionCommitRow, LineAttributionRow};
use narrative_attribution::stats::{compute_contribution_from_attributions, ContributionStats, FileLineCount};

fn lrow(s: i32, e: i32, sid: Option<&str>, t: AuthorType, pct: Option<i32>, tool: Option<&str>) -> LineAttributionRow {
    LineAttributionRow {
        start_line: s,
        end_line: e,
        session_id: sid.map(|x| x.to_string()),
        author_type: t,
        ai_percentage: pct,
        tool: tool.map(|x| x.to_string()),
        model: None,
        trace_available: 0,
    }
}

fn crow(path: &str, s: i32, e: i32, sid: &str, t: AuthorType, tool: Option<&str>, model: Option<&str>) -> LineAttributionCommitRow {
    LineAttributionCommitRow {
        file_path: path.to_string(),
        start_line: s,
        end_line: e,
        session_id: Some(sid.to_string()),
        author_type: t,
        ai_percentage: None,
        tool: tool.map(|x| x.to_string()),
        model: model.map(|x| x.to_string()),
    }
}

#[test]
fn two_sessions_on_one_line_make_it_mixed_at_fifty() {
    let rows = vec![
        lrow(5, 5, Some("S1"), AuthorType::AiAgent, None, Some("codex")),
        lrow(5, 5, Some("S2"), AuthorType::AiAgent, None, Some("aider")),
    ];
    let metas = build_line_meta(10, &rows);
    assert_eq!(metas.len(), 10);
    assert_eq!(metas[4].author_type, AuthorType::Mixed);
    assert_eq!(metas[4].ai_percentage, Some(50));
    assert_eq!(metas[4].session_id.as_deref(), Some("S1"));
    assert_eq!(metas[4].tool.as_deref(), Some("codex"));
    assert_eq!(metas[3].author_type, AuthorType::Human);
}

#[test]
fn same_session_twice_stays_agent_and_mixed_row_brings_percentage() {
    let rows = vec![
        lrow(1, 2, Some("S1"), AuthorType::AiAgent, None, None),
        lrow(2, 2, Some("S1"), AuthorType::AiAgent, None, Some("codex")),
        lrow(3, 3, Some("S1"), AuthorType::Mixed, Some(50), None),
        lrow(3, 3, Some("S2"), AuthorType::Mixed, Some(70), None),
    ];
    let metas = build_line_meta(3, &rows);
    assert_eq!(metas[1].author_type, AuthorType::AiAgent);
    assert_eq!(metas[1].tool.as_deref(), Some("codex"));
    assert_eq!(metas[2].author_type, AuthorType::Mixed);
    assert_eq!(metas[2].ai_percentage, Some(70));
}

#[test]
fn rows_are_clamped_to_the_file() {
    let rows = vec![lrow(-3, 2, Some("S1"), AuthorType::AiTab, None, None), lrow(4, 100, None, AuthorType::AiAgent, None, None)];
    let metas = build_line_meta(5, &rows);
    assert_eq!(metas.len(), 5);
    assert_eq!(metas[0].author_type, AuthorType::AiTab);
    assert_eq!(metas[2].author_type, AuthorType::Human);
    assert_eq!(metas[4].author_type, AuthorType::AiAgent);
    assert_eq!(build_line_meta(0, &rows).len(), 0);
}

#[test]
fn trace_availability_is_sticky() {
    let mut a = lrow(1, 1, Some("S1"), AuthorType::AiAgent, None, None);
    a.trace_available = 1;
    let b = lrow(1, 1, Some("S1"), AuthorType::AiAgent, None, None);
    let metas = build_line_meta(1, &vec![a, b]);
    assert!(metas[0].trace_available);
}

#[test]
fn page_past_the_end_is_empty_with_total() {
    let lines: Vec<String> = (1..=4).map(|i| format!("line {}", i)).collect();
    let page = get_file_source_lens(&lines, &vec![], 4, 10);
    assert!(page.lines.is_empty());
    assert_eq!(page.total_lines, 4);
    assert!(!page.has_more);
    let page = get_file_source_lens(&lines, &vec![], 99, 1);
    assert!(page.lines.is_empty());
    assert_eq!(page.total_lines, 4);
}

#[test]
fn page_slices_and_reports_more() {
    let lines: Vec<String> = (1..=5).map(|i| format!("l{}", i)).collect();
    let rows = vec![lrow(2, 3, Some("S1"), AuthorType::AiAgent, None, Some("codex"))];
    let page = get_file_source_lens(&lines, &rows, 1, 2);
    assert_eq!(page.lines.len(), 2);
    assert_eq!(page.lines[0].line_number, 2);
    assert_eq!(page.lines[0].content, "l2");
    assert_eq!(page.lines[0].author_type, AuthorType::AiAgent);
    assert!(page.has_more);
    let last = get_file_source_lens(&lines, &rows, 3, 2);
    assert_eq!(last.lines.len(), 2);
    assert!(!last.has_more);
    assert_eq!(get_file_source_lens(&vec![], &rows, 0, 5).total_lines, 0);
}

#[test]
fn scenario_single_session_adds_three_lines() {
    let n: usize = 40;
    let rows = vec![crow("a.py", 10, 12, "S1", AuthorType::AiAgent, Some("codex"), None)];
    let files = vec![FileLineCount { file_path: "a.py".to_string(), total_lines: Some(n) }];
    let s = compute_contribution_from_attributions(&rows, &files).unwrap();
    assert_eq!(s.ai_agent_lines, 3);
    assert_eq!(s.human_lines, (n - 3) as u64);
    assert_eq!(s.total_lines, n as u64);
    let pct = s.ai_lines() as f64 / s.total_lines as f64 * 100.0;
    assert!((pct - 300.0 / n as f64).abs() < 1e-9);
    assert_eq!(s.primary_tool.as_deref(), Some("codex"));
    let b = s.tool_breakdown.unwrap();
    assert_eq!(b.len(), 1);
    assert_eq!(b[0].line_count, 3);
}

#[test]
fn stats_counts_sum_to_total_and_pick_top_tool() {
    let rows = vec![
        crow("a.py", 1, 2, "S1", AuthorType::AiAgent, Some("codex"), Some("gpt")),
        crow("a.py", 2, 2, "S2", AuthorType::AiTab, Some("tab"), None),
        crow("b.py", 1, 3, "S3", AuthorType::AiTab, None, None),
        crow("gone.py", 1, 3, "S3", AuthorType::AiTab, None, None),
    ];
    let files = vec![
        FileLineCount { file_path: "a.py".to_string(), total_lines: Some(4) },
        FileLineCount { file_path: "b.py".to_string(), total_lines: Some(3) },
        FileLineCount { file_path: "gone.py".to_string(), total_lines: None },
    ];
    let s = compute_contribution_from_attributions(&rows, &files).unwrap();
    assert_eq!(s.total_lines, 7);
    assert_eq!(s.human_lines + s.ai_agent_lines + s.ai_assist_lines + s.collaborative_lines, s.total_lines);
    assert_eq!(s.collaborative_lines, 1);
    assert_eq!(s.ai_agent_lines, 1);
    assert_eq!(s.ai_assist_lines, 3);
    assert_eq!(s.primary_tool.as_deref(), Some("unknown"));
    let b = s.tool_breakdown.clone().unwrap();
    let counts: Vec<u64> = b.iter().map(|e| e.line_count).collect();
    assert_eq!(counts, vec![3, 1]);
    assert_eq!(b[1].tool, "codex");
    assert_eq!(compute_contribution_from_attributions(&vec![], &files).is_none(), true);
}

#[test]
fn human_only_stats() {
    let s = ContributionStats::human_only(12);
    assert_eq!(s.human_lines, 12);
    assert_eq!(s.total_lines, 12);
    assert_eq!(s.ai_lines(), 0);
}
