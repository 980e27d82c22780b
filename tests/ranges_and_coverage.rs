use narrative_attribution::coverage::{compute_attribution_coverage, AttributionCoverageSummary};
use narrative_attribution::extract::{ChangeKind, ChangedRange, FileChangedRanges};
use narrative_attribution::models::{AuthorType, LineAttributionCommitRow};
use narrative_attribution::ranges::{count_intersection, merge_ranges, sum_ranges};

fn row(path: &str, start: i32, end: i32) -> LineAttributionCommitRow {
    LineAttributionCommitRow {
        file_path: path.to_string(),
        start_line: start,
        end_line: end,
        session_id: Some("s1".to_string()),
        author_type: AuthorType::AiAgent,
        ai_percentage: None,
        tool: Some("codex".to_string()),
        model: None,
    }
}

fn changed(path: &str, ranges: &[(i32, i32)]) -> FileChangedRanges {
    FileChangedRanges {
        file_path: path.to_string(),
        ranges: ranges
            .iter()
            .map(|&(s, e)| ChangedRange { start_line: s, end_line: e, kind: ChangeKind::Added })
            .collect(),
    }
}

#[test]
fn merge_sorts_and_combines_touching_ranges() {
    let merged = merge_ranges(vec![(10, 12), (1, 3), (4, 5), (8, 8), (11, 20)]);
    assert_eq!(merged, vec![(1, 5), (8, 8), (10, 20)]);
}

#[test]
fn merge_keeps_a_gap_of_one_line_apart() {
    let merged = merge_ranges(vec![(1, 2), (4, 5)]);
    assert_eq!(merged, vec![(1, 2), (4, 5)]);
}

#[test]
fn merge_normalizes_inverted_range_and_handles_empty() {
    assert_eq!(merge_ranges(vec![]), Vec::<(i32, i32)>::new());
    assert_eq!(merge_ranges(vec![(7, 3)]), vec![(7, 7)]);
}

#[test]
fn merge_output_is_sorted_disjoint_and_same_union() {
    let input = vec![(5, 9), (1, 1), (2, 2), (20, 25), (7, 12), (30, 30)];
    let merged = merge_ranges(input.clone());
    for w in merged.windows(2) {
        assert!(w[0].1 + 1 < w[1].0);
    }
    for line in 0..40 {
        let in_input = input.iter().any(|&(s, e)| s <= line && line <= e);
        let in_merged = merged.iter().any(|&(s, e)| s <= line && line <= e);
        assert_eq!(in_input, in_merged, "line {}", line);
    }
}

#[test]
fn sum_and_intersection_of_merged_lists() {
    let a = vec![(1, 5), (10, 12)];
    let b = vec![(4, 10), (12, 30)];
    assert_eq!(sum_ranges(&a), 8);
    assert_eq!(count_intersection(&a, &b), 4);
    assert_eq!(count_intersection(&a, &vec![]), 0);
}

#[test]
fn coverage_counts_attributed_changed_lines() {
    let files = vec![changed("a.py", &[(10, 12), (20, 21)]), changed("b.py", &[(1, 4)])];
    let rows = vec![row("a.py", 11, 30), row("c.py", 1, 100)];
    let c = compute_attribution_coverage(&files, &rows).unwrap();
    assert_eq!(c, AttributionCoverageSummary { total_changed_lines: 9, attributed_lines: 4 });
    let percent = c.attributed_lines as f64 / c.total_changed_lines as f64 * 100.0;
    assert!((0.0..=100.0).contains(&percent));
}

#[test]
fn coverage_is_none_without_changed_lines_or_rows() {
    let rows = vec![row("a.py", 1, 3)];
    assert_eq!(compute_attribution_coverage(&vec![changed("a.py", &[])], &rows), None);
    assert_eq!(compute_attribution_coverage(&vec![], &rows), None);
    assert_eq!(compute_attribution_coverage(&vec![changed("a.py", &[(1, 2)])], &vec![]), None);
}

#[test]
fn coverage_is_full_when_everything_is_attributed() {
    let files = vec![changed("a.py", &[(1, 3)])];
    let rows = vec![row("a.py", 1, 2), row("a.py", 3, 3)];
    let c = compute_attribution_coverage(&files, &rows).unwrap();
    assert_eq!(c.attributed_lines, c.total_changed_lines);
    assert_eq!(c.total_changed_lines, 3);
}
