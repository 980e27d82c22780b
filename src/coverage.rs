//! How much of a commit's changed lines carry an attribution.

use vstd::prelude::*;

use crate::cover::canonical;
use crate::extract::{ChangedRange, FileChangedRanges};
use crate::models::LineAttributionCommitRow;
use crate::ranges::{count_intersection, intersection_len, merge_ranges, sum_ranges, total_len};

verus! {

/// Changed and attributed line counts of a commit. The coverage percentage
/// is `attributed_lines / total_changed_lines * 100`.
#[derive(Clone, Copy, Debug, PartialEq, Eq, Structural)]
pub struct AttributionCoverageSummary {
    pub total_changed_lines: u64,
    pub attributed_lines: u64,
}

/// The intervals of a list of changed ranges.
pub open spec fn changed_pairs(rs: Seq<ChangedRange>) -> Seq<(i32, i32)> {
    rs.map_values(|r: ChangedRange| (r.start_line, r.end_line))
}

/// The intervals of the rows of one file.
pub open spec fn attributed_pairs(rows: Seq<LineAttributionCommitRow>, path: Seq<char>) -> Seq<(i32, i32)>
    decreases rows.len(),
{
    if rows.len() == 0 {
        Seq::empty()
    } else if rows.last().file_path@ == path {
        attributed_pairs(rows.drop_last(), path).push((rows.last().start_line, rows.last().end_line))
    } else {
        attributed_pairs(rows.drop_last(), path)
    }
}

/// Number of changed lines over all files.
pub open spec fn changed_total(files: Seq<FileChangedRanges>) -> int
    decreases files.len(),
{
    if files.len() == 0 {
        0
    } else {
        changed_total(files.drop_last()) + total_len(canonical(changed_pairs(files.last().ranges@)))
    }
}

/// Number of changed lines that some row of the same file covers.
pub open spec fn attributed_total(files: Seq<FileChangedRanges>, rows: Seq<LineAttributionCommitRow>) -> int
    decreases files.len(),
{
    if files.len() == 0 {
        0
    } else {
        attributed_total(files.drop_last(), rows) + intersection_len(
            canonical(changed_pairs(files.last().ranges@)),
            canonical(attributed_pairs(rows, files.last().file_path@)),
        )
    }
}

proof fn lemma_total_len_nonneg(rs: Seq<(i32, i32)>)
    ensures
        total_len(rs) >= 0,
    decreases rs.len(),
{
    if rs.len() > 0 {
        lemma_total_len_nonneg(rs.drop_last());
    }
}

proof fn lemma_changed_nonneg(files: Seq<FileChangedRanges>)
    ensures
        changed_total(files) >= 0,
    decreases files.len(),
{
    if files.len() > 0 {
        lemma_changed_nonneg(files.drop_last());
        lemma_total_len_nonneg(canonical(changed_pairs(files.last().ranges@)));
    }
}

proof fn lemma_changed_prefix(files: Seq<FileChangedRanges>, i: int)
    requires
        0 <= i <= files.len(),
    ensures
        0 <= changed_total(files.take(i)) <= changed_total(files),
    decreases files.len() - i,
{
    if i < files.len() {
        lemma_changed_prefix(files, i + 1);
        assert(files.take(i + 1).drop_last() =~= files.take(i));
        lemma_total_len_nonneg(canonical(changed_pairs(files[i].ranges@)));
    } else {
        assert(files.take(i) =~= files);
    }
    lemma_changed_nonneg(files.take(i));
}

/// The intervals of a file's changed ranges.
fn changed_intervals(ranges: &Vec<ChangedRange>) -> (r: Vec<(i32, i32)>)
    ensures
        r@ == changed_pairs(ranges@),
{
    let mut r: Vec<(i32, i32)> = Vec::new();
    let mut i: usize = 0;
    while i < ranges.len()
        invariant
            i <= ranges@.len(),
            r@ == changed_pairs(ranges@.take(i as int)),
        decreases ranges@.len() - i,
    {
        r.push((ranges[i].start_line, ranges[i].end_line));
        i = i + 1;
        proof {
            assert(changed_pairs(ranges@.take(i as int)) =~= changed_pairs(ranges@.take(i - 1)).push(
                (ranges@[i - 1].start_line, ranges@[i - 1].end_line),
            ));
        }
    }
    proof {
        assert(ranges@.take(ranges@.len() as int) =~= ranges@);
    }
    r
}

/// The intervals of the rows of one file.
fn file_intervals(rows: &Vec<LineAttributionCommitRow>, path: &String) -> (r: Vec<(i32, i32)>)
    ensures
        r@ == attributed_pairs(rows@, path@),
{
    let mut r: Vec<(i32, i32)> = Vec::new();
    let mut i: usize = 0;
    while i < rows.len()
        invariant
            i <= rows@.len(),
            r@ == attributed_pairs(rows@.take(i as int), path@),
        decreases rows@.len() - i,
    {
        proof {
            assert(rows@.take(i as int + 1).drop_last() =~= rows@.take(i as int));
            assert(rows@.take(i as int + 1).last() == rows@[i as int]);
        }
        if crate::extract::text_eq(&rows[i].file_path, path) {
            r.push((rows[i].start_line, rows[i].end_line));
        }
        i = i + 1;
    }
    proof {
        assert(rows@.take(rows@.len() as int) =~= rows@);
    }
    r
}

/// Coverage of a commit's changed lines by its attribution rows.
///
/// There is none when the commit has no rows or no changed line; otherwise
/// the changed lines are the merged changed ranges of every file, and the
/// attributed ones those that a merged row interval of the same file covers.
pub fn compute_attribution_coverage(
    changed_by_file: &Vec<FileChangedRanges>,
    attributions: &Vec<LineAttributionCommitRow>,
) -> (r: Option<AttributionCoverageSummary>)
    requires
        changed_total(changed_by_file@) <= u64::MAX,
    ensures
        r is None <==> (attributions@.len() == 0 || changed_total(changed_by_file@) == 0),
        r matches Some(c) ==> {
            &&& c.total_changed_lines == changed_total(changed_by_file@)
            &&& c.attributed_lines == attributed_total(changed_by_file@, attributions@)
            &&& c.attributed_lines <= c.total_changed_lines
            &&& c.total_changed_lines > 0
        },
{
    if attributions.len() == 0 {
        return None;
    }
    let ghost files = changed_by_file@;
    let mut total: u64 = 0;
    let mut attributed: u64 = 0;
    let mut i: usize = 0;
    while i < changed_by_file.len()
        invariant
            files == changed_by_file@,
            changed_total(files) <= u64::MAX,
            i <= files.len(),
            total == changed_total(files.take(i as int)),
            attributed == attributed_total(files.take(i as int), attributions@),
            attributed <= total,
        decreases files.len() - i,
    {
        let file = &changed_by_file[i];
        let changed = merge_ranges(changed_intervals(&file.ranges));
        let attr = merge_ranges(file_intervals(attributions, &file.file_path));
        let file_total = sum_ranges(&changed);
        let file_attributed = count_intersection(&changed, &attr);
        proof {
            assert(files.take(i as int + 1).drop_last() =~= files.take(i as int));
            assert(files.take(i as int + 1).last() == files[i as int]);
            lemma_changed_prefix(files, i as int + 1);
        }
        total = total + file_total;
        attributed = attributed + file_attributed;
        i = i + 1;
    }
    proof {
        assert(files.take(files.len() as int) =~= files);
    }
    if total == 0 {
        None
    } else {
        Some(AttributionCoverageSummary { total_changed_lines: total, attributed_lines: attributed })
    }
}

} // verus!
