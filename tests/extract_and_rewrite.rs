use narrative_attribution::extract::{
    collect_changed_ranges, collect_changed_ranges_by_file, ChangeKind, DiffLine, DiffOrigin,
};
use narrative_attribution::rewrite::{
    compute_note_hash, compute_rewrite_key, hex_digest, normalize_patch_line, rewrite_key_input,
};

fn add(path: &str, n: u32, text: &str) -> DiffLine {
    DiffLine { path: Some(path.to_string()), origin: DiffOrigin::Addition, new_lineno: Some(n), content: text.to_string() }
}

fn del(path: &str, text: &str) -> DiffLine {
    DiffLine { path: Some(path.to_string()), origin: DiffOrigin::Deletion, new_lineno: None, content: text.to_string() }
}

fn hunk(path: &str) -> DiffLine {
    DiffLine { path: Some(path.to_string()), origin: DiffOrigin::Other, new_lineno: None, content: "@@ -1 +1 @@".to_string() }
}

#[test]
fn adjacent_added_lines_collapse_into_one_range() {
    let lines = vec![hunk("a.py"), add("a.py", 10, "x"), add("a.py", 11, "y"), add("a.py", 12, "z")];
    let ranges = collect_changed_ranges(&lines, &"a.py".to_string());
    assert_eq!(ranges.len(), 1);
    assert_eq!((ranges[0].start_line, ranges[0].end_line), (10, 12));
    assert_eq!(ranges[0].kind, ChangeKind::Added);
}

#[test]
fn replacement_is_modified_and_gap_starts_new_range() {
    let lines = vec![
        hunk("a.py"),
        del("a.py", "old"),
        add("a.py", 3, "new"),
        add("a.py", 4, "new2"),
        hunk("a.py"),
        add("a.py", 9, "more"),
    ];
    let ranges = collect_changed_ranges(&lines, &"a.py".to_string());
    assert_eq!(ranges.len(), 2);
    assert_eq!((ranges[0].start_line, ranges[0].end_line, ranges[0].kind), (3, 4, ChangeKind::Modified));
    assert_eq!((ranges[1].start_line, ranges[1].end_line, ranges[1].kind), (9, 9, ChangeKind::Added));
}

#[test]
fn non_consecutive_additions_split() {
    let lines = vec![add("a.py", 1, "a"), add("a.py", 3, "b")];
    let ranges = collect_changed_ranges(&lines, &"a.py".to_string());
    assert_eq!(ranges.len(), 2);
}

#[test]
fn ranges_by_file_keep_first_appearance_order() {
    let lines = vec![
        hunk("b.py"),
        add("b.py", 1, "x"),
        hunk("a.py"),
        del("a.py", "gone"),
        DiffLine { path: Some("c.bin".to_string()), origin: DiffOrigin::Other, new_lineno: None, content: String::new() },
    ];
    let files = collect_changed_ranges_by_file(&lines);
    let names: Vec<&str> = files.iter().map(|f| f.file_path.as_str()).collect();
    assert_eq!(names, vec!["b.py", "a.py", "c.bin"]);
    assert_eq!(files[0].ranges.len(), 1);
    assert!(files[1].ranges.is_empty());
    assert!(files[2].ranges.is_empty());
}

#[test]
fn normalize_removes_all_whitespace() {
    let line: Vec<char> = " let  x =\t1 ;\u{3000}".chars().collect();
    let out: String = normalize_patch_line(&line).into_iter().collect();
    assert_eq!(out, "letx=1;");
}

#[test]
fn rewrite_key_ignores_whitespace_and_context() {
    let a = vec![hunk("a.py"), add("a.py", 1, "x = 1\n")];
    let b = vec![hunk("a.py"), add("a.py", 7, "  x=1  ")];
    assert_eq!(compute_rewrite_key(&a, "tree1"), compute_rewrite_key(&b, "tree2"));
    let c = vec![add("a.py", 1, "x = 2")];
    assert_ne!(compute_rewrite_key(&a, "tree1"), compute_rewrite_key(&c, "tree1"));
    assert_eq!(compute_rewrite_key(&a, "t").len(), 64);
}

#[test]
fn rewrite_key_input_layout_and_header_skip() {
    let lines = vec![
        del("a.py", "--- a/a.py"),
        add("a.py", 1, "+++ b/a.py"),
        del("a.py", "old line"),
        add("a.py", 1, "new line\r\n"),
    ];
    assert_eq!(rewrite_key_input(&lines, "tree"), "a.py\n-\noldline\na.py\n+\nnewline\n");
}

#[test]
fn rewrite_key_falls_back_to_tree_id() {
    let lines = vec![hunk("a.py")];
    assert_eq!(rewrite_key_input(&lines, "abc123"), "abc123");
    assert_eq!(compute_rewrite_key(&lines, "abc123"), compute_note_hash("abc123"));
}

#[test]
fn note_hash_is_sha256_hex() {
    assert_eq!(
        compute_note_hash(""),
        "e3b0c44298fc1c149afbf4c8996fb92427ae41e4649b934ca495991b7852b855"
    );
    assert_eq!(hex_digest(&vec![0x00, 0xab, 0x0f]), "00ab0f");
}
