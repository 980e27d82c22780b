//! Changed-line ranges of a commit, from the events of a zero-context diff.
//!
//! Each file's events drive a small state machine: an open run of added
//! lines, the kind of that run, and whether a deletion was just seen. A
//! deletion closes the run; an addition extends it when it directly follows
//! the run's last line and otherwise starts a new run (a replacement when a
//! deletion was just seen); any other event closes the run and forgets the
//! deletion.

use vstd::prelude::*;

verus! {

/// Whether a changed range was inserted into the file or replaced old lines.
#[derive(Clone, Copy, Debug, PartialEq, Eq, Structural)]
pub enum ChangeKind {
    Added,
    Modified,
}

/// A run of consecutive new lines `start_line..=end_line` (1-based).
#[derive(Clone, Copy, Debug, PartialEq, Eq, Structural)]
pub struct ChangedRange {
    pub start_line: i32,
    pub end_line: i32,
    pub kind: ChangeKind,
}

/// What a line of the diff is.
#[derive(Clone, Copy, Debug, PartialEq, Eq, Structural)]
pub enum DiffOrigin {
    /// A line present only in the new file.
    Addition,
    /// A line present only in the old file.
    Deletion,
    /// Anything else: context, a hunk header, a file header.
    Other,
}

/// One event of a diff, as the repository reports it.
#[derive(Clone, Debug)]
pub struct DiffLine {
    /// The new path of the file, or its old path when it has no new one.
    pub path: Option<String>,
    pub origin: DiffOrigin,
    /// The line number in the new file, for lines that have one.
    pub new_lineno: Option<u32>,
    /// The line's text without its line terminator.
    pub content: String,
}

/// The changed ranges of one file.
#[derive(Clone, Debug)]
pub struct FileChangedRanges {
    pub file_path: String,
    pub ranges: Vec<ChangedRange>,
}

/// The extractor's state for one file.
#[derive(Clone, Copy, Debug, PartialEq, Eq, Structural)]
pub struct RangeState {
    pub current_start: Option<i32>,
    pub previous_line: Option<i32>,
    pub current_kind: Option<ChangeKind>,
    pub saw_deletion: bool,
}

/// The state before the first event.
pub open spec fn initial_state() -> RangeState {
    RangeState { current_start: None, previous_line: None, current_kind: None, saw_deletion: false }
}

/// Closes the open run, if any: it is appended to `out`.
pub open spec fn flush_spec(st: RangeState, out: Seq<ChangedRange>) -> (RangeState, Seq<ChangedRange>) {
    let out2 = match (st.current_start, st.previous_line, st.current_kind) {
        (Some(s), Some(p), Some(k)) => out.push(ChangedRange { start_line: s, end_line: p, kind: k }),
        _ => out,
    };
    (RangeState { current_start: None, previous_line: None, current_kind: None, ..st }, out2)
}

/// The effect of one event.
pub open spec fn step_spec(st: RangeState, out: Seq<ChangedRange>, line: DiffLine) -> (RangeState, Seq<ChangedRange>) {
    match line.origin {
        DiffOrigin::Deletion => {
            let f = flush_spec(st, out);
            (RangeState { saw_deletion: true, ..f.0 }, f.1)
        },
        DiffOrigin::Addition => match line.new_lineno {
            None => (st, out),
            Some(n) => {
                let nl = n as i32;
                if st.current_start is Some && st.previous_line is Some && nl == st.previous_line->0 + 1 {
                    (RangeState { previous_line: Some(nl), ..st }, out)
                } else {
                    let f = flush_spec(st, out);
                    (
                        RangeState {
                            current_start: Some(nl),
                            previous_line: Some(nl),
                            current_kind: Some(
                                if f.0.saw_deletion {
                                    ChangeKind::Modified
                                } else {
                                    ChangeKind::Added
                                },
                            ),
                            ..f.0
                        },
                        f.1,
                    )
                }
            },
        },
        DiffOrigin::Other => {
            let f = flush_spec(st, out);
            (RangeState { saw_deletion: false, ..f.0 }, f.1)
        },
    }
}

/// The state and the closed runs after a sequence of events.
pub open spec fn run_spec(lines: Seq<DiffLine>) -> (RangeState, Seq<ChangedRange>)
    decreases lines.len(),
{
    if lines.len() == 0 {
        (initial_state(), Seq::empty())
    } else {
        let r = run_spec(lines.drop_last());
        step_spec(r.0, r.1, lines.last())
    }
}

/// The changed ranges of a sequence of events of one file: the closed runs,
/// then the run still open at the end.
pub open spec fn extract_spec(lines: Seq<DiffLine>) -> Seq<ChangedRange> {
    let r = run_spec(lines);
    flush_spec(r.0, r.1).1
}

/// Whether an event belongs to the file `path`.
pub open spec fn line_in_file(line: DiffLine, path: Seq<char>) -> bool {
    line.path matches Some(p) && p@ == path
}

/// The events of one file, in order.
pub open spec fn lines_of_file(lines: Seq<DiffLine>, path: Seq<char>) -> Seq<DiffLine>
    decreases lines.len(),
{
    if lines.len() == 0 {
        Seq::empty()
    } else if line_in_file(lines.last(), path) {
        lines_of_file(lines.drop_last(), path).push(lines.last())
    } else {
        lines_of_file(lines.drop_last(), path)
    }
}

/// The files that the events name, in order of first appearance.
pub open spec fn files_of(lines: Seq<DiffLine>) -> Seq<Seq<char>>
    decreases lines.len(),
{
    if lines.len() == 0 {
        Seq::empty()
    } else {
        let prev = files_of(lines.drop_last());
        match lines.last().path {
            Some(p) => if prev.contains(p@) {
                prev
            } else {
                prev.push(p@)
            },
            None => prev,
        }
    }
}

/// Every run that the machine holds or has closed is a proper range.
pub open spec fn runs_proper(st: RangeState, out: Seq<ChangedRange>) -> bool {
    &&& forall|k: int| 0 <= k < out.len() ==> (#[trigger] out[k]).start_line <= out[k].end_line
    &&& (st.current_start is Some <==> st.previous_line is Some)
    &&& (st.current_start is Some <==> st.current_kind is Some)
    &&& st.current_start is Some ==> st.current_start->0 <= st.previous_line->0
}

/// Whether two strings hold the same text.
pub fn text_eq(a: &String, b: &String) -> (r: bool)
    ensures
        r == (a@ == b@),
{
    *a == *b
}

/// Closes the open run, if any, appending it to `ranges`.
pub fn flush_range(state: &mut RangeState, ranges: &mut Vec<ChangedRange>)
    ensures
        (*final(state), final(ranges)@) == flush_spec(*old(state), old(ranges)@),
{
    if let (Some(start), Some(prev), Some(kind)) = (state.current_start, state.previous_line, state.current_kind) {
        ranges.push(ChangedRange { start_line: start, end_line: prev, kind });
    }
    state.current_start = None;
    state.previous_line = None;
    state.current_kind = None;
}

/// Feeds one event to the machine.
pub fn step_range(state: &mut RangeState, ranges: &mut Vec<ChangedRange>, line: &DiffLine)
    ensures
        (*final(state), final(ranges)@) == step_spec(*old(state), old(ranges)@, *line),
{
    match line.origin {
        DiffOrigin::Deletion => {
            flush_range(state, ranges);
            state.saw_deletion = true;
        },
        DiffOrigin::Addition => {
            if let Some(n) = line.new_lineno {
                let nl = n as i32;
                let extends = match (state.current_start, state.previous_line) {
                    (Some(_), Some(prev)) => (nl as i64) == (prev as i64) + 1,
                    _ => false,
                };
                if extends {
                    state.previous_line = Some(nl);
                } else {
                    flush_range(state, ranges);
                    state.current_start = Some(nl);
                    state.previous_line = Some(nl);
                    state.current_kind = Some(
                        if state.saw_deletion {
                            ChangeKind::Modified
                        } else {
                            ChangeKind::Added
                        },
                    );
                }
            }
        },
        DiffOrigin::Other => {
            flush_range(state, ranges);
            state.saw_deletion = false;
        },
    }
}

proof fn lemma_step_proper(st: RangeState, out: Seq<ChangedRange>, line: DiffLine)
    requires
        runs_proper(st, out),
    ensures
        runs_proper(step_spec(st, out, line).0, step_spec(st, out, line).1),
{
}

proof fn lemma_run_proper(lines: Seq<DiffLine>)
    ensures
        runs_proper(run_spec(lines).0, run_spec(lines).1),
        runs_proper(flush_spec(run_spec(lines).0, run_spec(lines).1).0, extract_spec(lines)),
    decreases lines.len(),
{
    if lines.len() > 0 {
        lemma_run_proper(lines.drop_last());
        let r = run_spec(lines.drop_last());
        lemma_step_proper(r.0, r.1, lines.last());
    }
}

/// The changed ranges of the file `file_path`, from the events of a diff.
pub fn collect_changed_ranges(lines: &Vec<DiffLine>, file_path: &String) -> (ranges: Vec<ChangedRange>)
    ensures
        ranges@ == extract_spec(lines_of_file(lines@, file_path@)),
        forall|k: int| 0 <= k < ranges@.len() ==> (#[trigger] ranges@[k]).start_line <= ranges@[k].end_line,
{
    let mut state = RangeState { current_start: None, previous_line: None, current_kind: None, saw_deletion: false };
    let mut ranges: Vec<ChangedRange> = Vec::new();
    let mut i: usize = 0;
    while i < lines.len()
        invariant
            i <= lines@.len(),
            (state, ranges@) == run_spec(lines_of_file(lines@.take(i as int), file_path@)),
        decreases lines@.len() - i,
    {
        proof {
            assert(lines@.take(i as int + 1).drop_last() =~= lines@.take(i as int));
            assert(lines@.take(i as int + 1).last() == lines@[i as int]);
        }
        let line = &lines[i];
        let in_file = match &line.path {
            Some(p) => text_eq(p, file_path),
            None => false,
        };
        if in_file {
            proof {
                let f = lines_of_file(lines@.take(i as int + 1), file_path@);
                assert(f.drop_last() == lines_of_file(lines@.take(i as int), file_path@));
            }
            step_range(&mut state, &mut ranges, line);
        }
        i = i + 1;
    }
    proof {
        assert(lines@.take(lines@.len() as int) =~= lines@);
        lemma_run_proper(lines_of_file(lines@, file_path@));
    }
    flush_range(&mut state, &mut ranges);
    ranges
}

/// The changed ranges of every file that the events name, in order of first
/// appearance.
pub fn collect_changed_ranges_by_file(lines: &Vec<DiffLine>) -> (files: Vec<FileChangedRanges>)
    ensures
        files@.len() == files_of(lines@).len(),
        forall|k: int| 0 <= k < files@.len() ==> {
            &&& (#[trigger] files@[k]).file_path@ == files_of(lines@)[k]
            &&& files@[k].ranges@ == extract_spec(lines_of_file(lines@, files_of(lines@)[k]))
        },
{
    let mut paths: Vec<String> = Vec::new();
    let mut i: usize = 0;
    while i < lines.len()
        invariant
            i <= lines@.len(),
            paths@.len() == files_of(lines@.take(i as int)).len(),
            forall|k: int| 0 <= k < paths@.len() ==> (#[trigger] paths@[k])@ == files_of(lines@.take(i as int))[k],
        decreases lines@.len() - i,
    {
        proof {
            assert(lines@.take(i as int + 1).drop_last() =~= lines@.take(i as int));
            assert(lines@.take(i as int + 1).last() == lines@[i as int]);
        }
        if let Some(p) = &lines[i].path {
            let ghost prev = files_of(lines@.take(i as int));
            let mut seen = false;
            let mut k: usize = 0;
            while k < paths.len()
                invariant
                    k <= paths@.len(),
                    paths@.len() == prev.len(),
                    forall|m: int| 0 <= m < paths@.len() ==> (#[trigger] paths@[m])@ == prev[m],
                    seen <==> exists|m: int| 0 <= m < k && prev[m] == p@,
                decreases paths@.len() - k,
            {
                if text_eq(&paths[k], p) {
                    seen = true;
                }
                k = k + 1;
            }
            proof {
                if prev.contains(p@) {
                    let m = choose|m: int| 0 <= m < prev.len() && prev[m] == p@;
                    assert(seen);
                }
            }
            if !seen {
                paths.push(p.clone());
            }
        }
        i = i + 1;
    }
    proof {
        assert(lines@.take(lines@.len() as int) =~= lines@);
    }
    let mut files: Vec<FileChangedRanges> = Vec::new();
    let mut j: usize = 0;
    while j < paths.len()
        invariant
            j <= paths@.len(),
            paths@.len() == files_of(lines@).len(),
            forall|k: int| 0 <= k < paths@.len() ==> (#[trigger] paths@[k])@ == files_of(lines@)[k],
            files@.len() == j,
            forall|k: int| 0 <= k < j ==> {
                &&& (#[trigger] files@[k]).file_path@ == files_of(lines@)[k]
                &&& files@[k].ranges@ == extract_spec(lines_of_file(lines@, files_of(lines@)[k]))
            },
        decreases paths@.len() - j,
    {
        let ranges = collect_changed_ranges(lines, &paths[j]);
        files.push(FileChangedRanges { file_path: paths[j].clone(), ranges });
        j = j + 1;
    }
    files
}

} // verus!
