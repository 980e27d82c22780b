//! The reconciler: one verdict per line of a file, folded from its possibly
//! overlapping attribution rows, and a page of the result.

use vstd::prelude::*;

use crate::models::{AuthorType, LineAttributionRow};

verus! {

/// The verdict on one line.
#[derive(Clone, Debug)]
pub struct LineMeta {
    pub author_type: AuthorType,
    pub session_id: Option<String>,
    pub ai_percentage: Option<u8>,
    pub tool: Option<String>,
    pub model: Option<String>,
    pub trace_available: bool,
}

/// A line with its verdict, ready for display.
#[derive(Clone, Debug)]
pub struct SourceLine {
    pub line_number: u32,
    pub content: String,
    pub author_type: AuthorType,
    pub session_id: Option<String>,
    pub ai_percentage: Option<u8>,
    pub tool: Option<String>,
    pub model: Option<String>,
    pub trace_available: bool,
}

/// A request for a page of a file's verdicts.
#[derive(Clone, Debug)]
pub struct SourceLensRequest {
    pub repo_id: i64,
    pub commit_sha: String,
    pub file_path: String,
    pub offset: u32,
    pub limit: u32,
}

/// A page of a file's verdicts.
#[derive(Clone, Debug)]
pub struct SourceLensPage {
    pub lines: Vec<SourceLine>,
    pub total_lines: u32,
    pub has_more: bool,
}

/// The verdict of a line that no row covers.
pub open spec fn default_meta() -> LineMeta {
    LineMeta {
        author_type: AuthorType::Human,
        session_id: None,
        ai_percentage: None,
        tool: None,
        model: None,
        trace_available: false,
    }
}

/// The text of an optional string.
pub open spec fn opt_view(o: Option<String>) -> Option<Seq<char>> {
    match o {
        Some(s) => Some(s@),
        None => None,
    }
}

/// A stored percentage as the verdict holds it (one byte).
pub open spec fn pct_byte(p: Option<i32>) -> Option<u8> {
    match p {
        Some(v) => Some(v as u8),
        None => None,
    }
}

/// Whether a row conflicts with a verdict that is no longer the default:
/// the author types differ, or neither is mixed and both name distinct
/// sessions.
pub open spec fn should_mix(meta: LineMeta, attr: LineAttributionRow) -> bool {
    meta.author_type != attr.author_type || (attr.author_type != AuthorType::Mixed
        && meta.session_id is Some && attr.session_id is Some && opt_view(meta.session_id)
        != opt_view(attr.session_id))
}

/// Folds one row into the verdict of a line it covers.
///
/// A line still at the default human verdict takes the row wholesale.
/// Otherwise a conflict makes the line mixed at 50%; without one, a mixed
/// row brings its percentage. Session, tool and model are filled in only
/// where unset; trace availability is sticky.
pub open spec fn apply_spec(meta: LineMeta, attr: LineAttributionRow) -> LineMeta {
    if meta.author_type == AuthorType::Human {
        LineMeta {
            author_type: attr.author_type,
            session_id: attr.session_id,
            ai_percentage: pct_byte(attr.ai_percentage),
            tool: attr.tool,
            model: attr.model,
            trace_available: attr.trace_available > 0,
        }
    } else {
        let mix = should_mix(meta, attr);
        LineMeta {
            author_type: if mix {
                AuthorType::Mixed
            } else {
                meta.author_type
            },
            ai_percentage: if mix {
                Some(50u8)
            } else if attr.author_type == AuthorType::Mixed && attr.ai_percentage is Some {
                pct_byte(attr.ai_percentage)
            } else {
                meta.ai_percentage
            },
            session_id: if meta.session_id is None {
                attr.session_id
            } else {
                meta.session_id
            },
            tool: if meta.tool is None {
                attr.tool
            } else {
                meta.tool
            },
            model: if meta.model is None {
                attr.model
            } else {
                meta.model
            },
            trace_available: meta.trace_available || attr.trace_available > 0,
        }
    }
}

/// The first line of a row, at least 1.
pub open spec fn row_first(attr: LineAttributionRow) -> int {
    if attr.start_line < 1 {
        1
    } else {
        attr.start_line as int
    }
}

/// The last line of a row, at least its first.
pub open spec fn row_last(attr: LineAttributionRow) -> int {
    if attr.end_line < row_first(attr) {
        row_first(attr)
    } else {
        attr.end_line as int
    }
}

/// Whether a row covers the 1-based line `line`.
pub open spec fn row_covers(attr: LineAttributionRow, line: int) -> bool {
    row_first(attr) <= line <= row_last(attr)
}

/// The verdict on `line`: the rows that cover it folded in order into the
/// default verdict.
pub open spec fn verdict(attrs: Seq<LineAttributionRow>, line: int) -> LineMeta
    decreases attrs.len(),
{
    if attrs.len() == 0 {
        default_meta()
    } else if row_covers(attrs.last(), line) {
        apply_spec(verdict(attrs.drop_last(), line), attrs.last())
    } else {
        verdict(attrs.drop_last(), line)
    }
}

/// A copy of an optional string.
pub fn clone_opt(o: &Option<String>) -> (r: Option<String>)
    ensures
        r == *o,
{
    match o {
        Some(s) => Some(s.clone()),
        None => None,
    }
}

/// Whether two optional strings hold the same text.
fn opt_text_eq(a: &Option<String>, b: &Option<String>) -> (r: bool)
    ensures
        r == (opt_view(*a) == opt_view(*b)),
{
    match (a, b) {
        (Some(x), Some(y)) => crate::extract::text_eq(x, y),
        (None, None) => true,
        _ => false,
    }
}

/// The default verdict.
pub fn default_line_meta() -> (r: LineMeta)
    ensures
        r == default_meta(),
{
    LineMeta {
        author_type: AuthorType::Human,
        session_id: None,
        ai_percentage: None,
        tool: None,
        model: None,
        trace_available: false,
    }
}

/// Folds one row into the verdict of a line it covers.
pub fn apply_line_attr(meta: &mut LineMeta, attr: &LineAttributionRow)
    ensures
        *final(meta) == apply_spec(*old(meta), *attr),
{
    let incoming_trace = attr.trace_available > 0;
    if meta.author_type == AuthorType::Human {
        meta.author_type = attr.author_type;
        meta.session_id = clone_opt(&attr.session_id);
        meta.ai_percentage = match attr.ai_percentage {
            Some(v) => Some(v as u8),
            None => None,
        };
        meta.tool = clone_opt(&attr.tool);
        meta.model = clone_opt(&attr.model);
        meta.trace_available = incoming_trace;
        return;
    }
    let mix = meta.author_type != attr.author_type || (attr.author_type != AuthorType::Mixed
        && meta.session_id.is_some() && attr.session_id.is_some() && !opt_text_eq(
        &meta.session_id,
        &attr.session_id,
    ));
    if mix {
        meta.author_type = AuthorType::Mixed;
        meta.ai_percentage = Some(50);
    } else if attr.author_type == AuthorType::Mixed {
        if let Some(v) = attr.ai_percentage {
            meta.ai_percentage = Some(v as u8);
        }
    }
    if meta.session_id.is_none() {
        meta.session_id = clone_opt(&attr.session_id);
    }
    if meta.tool.is_none() {
        meta.tool = clone_opt(&attr.tool);
    }
    if meta.model.is_none() {
        meta.model = clone_opt(&attr.model);
    }
    meta.trace_available = meta.trace_available || incoming_trace;
}

/// One verdict for each line `1..=total_lines`, folding the rows in order.
pub fn build_line_meta(total_lines: usize, attrs: &Vec<LineAttributionRow>) -> (lines: Vec<LineMeta>)
    ensures
        lines@.len() == total_lines,
        forall|i: int| 0 <= i < total_lines ==> #[trigger] lines@[i] == verdict(attrs@, i + 1),
{
    let mut lines: Vec<LineMeta> = Vec::new();
    let mut n: usize = 0;
    while n < total_lines
        invariant
            n <= total_lines,
            lines@.len() == n,
            forall|i: int| 0 <= i < n ==> #[trigger] lines@[i] == default_meta(),
        decreases total_lines - n,
    {
        lines.push(default_line_meta());
        n = n + 1;
    }
    proof {
        assert(attrs@.take(0) =~= Seq::<LineAttributionRow>::empty());
    }
    let mut k: usize = 0;
    while k < attrs.len()
        invariant
            k <= attrs@.len(),
            lines@.len() == total_lines,
            forall|i: int| 0 <= i < total_lines ==> #[trigger] lines@[i] == verdict(attrs@.take(k as int), i + 1),
        decreases attrs@.len() - k,
    {
        let attr = &attrs[k];
        let ghost pre = attrs@.take(k as int);
        let ghost post = attrs@.take(k as int + 1);
        proof {
            assert(post.drop_last() =~= pre);
            assert(post.last() == attrs@[k as int]);
        }
        let first: i32 = if attr.start_line < 1 { 1 } else { attr.start_line };
        let last: i32 = if attr.end_line < first { first } else { attr.end_line };
        let mut line: usize = first as usize;
        let stop: usize = if (last as usize) < total_lines { last as usize } else { total_lines };
        while line <= stop
            invariant
                lines@.len() == total_lines,
                1 <= first <= line,
                stop <= total_lines,
                first == row_first(*attr),
                last == row_last(*attr),
                stop <= last,
                *attr == attrs@[k as int],
                post.len() > 0,
                post.drop_last() == pre,
                post.last() == *attr,
                forall|i: int| 0 <= i < total_lines ==> #[trigger] lines@[i] == (if row_covers(*attr, i + 1) && i + 1 < line {
                    verdict(post, i + 1)
                } else {
                    verdict(pre, i + 1)
                }),
            decreases stop + 1 - line,
        {
            let idx = line - 1;
            let mut meta = default_line_meta();
            std::mem::swap(&mut meta, &mut lines[idx]);
            proof {
                assert(meta == verdict(pre, line as int));
                assert(row_covers(*attr, line as int));
                assert(verdict(post, line as int) == apply_spec(verdict(pre, line as int), *attr));
            }
            apply_line_attr(&mut meta, attr);
            let ghost before = lines@;
            lines.set(idx, meta);
            proof {
                assert forall|i: int| 0 <= i < total_lines implies #[trigger] lines@[i] == (if row_covers(*attr, i + 1) && i + 1 < line + 1 {
                    verdict(post, i + 1)
                } else {
                    verdict(pre, i + 1)
                }) by {
                    if i != idx {
                        assert(lines@[i] == before[i]);
                    }
                }
            }
            line = line + 1;
        }
        proof {
            assert forall|i: int| 0 <= i < total_lines implies #[trigger] lines@[i] == verdict(post, i + 1) by {
                if !row_covers(*attr, i + 1) {
                } else {
                    assert(i + 1 <= stop);
                }
            }
        }
        k = k + 1;
    }
    proof {
        assert(attrs@.take(attrs@.len() as int) =~= attrs@);
    }
    lines
}

/// A page of verdicts: lines `offset + 1 ..` of the file, at most `limit` of
/// them, with the line count of the whole file and whether lines follow the
/// page.
pub fn get_file_source_lens(
    file_lines: &Vec<String>,
    attrs: &Vec<LineAttributionRow>,
    offset: u32,
    limit: u32,
) -> (page: SourceLensPage)
    requires
        file_lines@.len() <= u32::MAX,
    ensures
        page.total_lines == file_lines@.len(),
        offset >= file_lines@.len() ==> page.lines@.len() == 0 && !page.has_more,
        offset < file_lines@.len() ==> {
            let end = if offset + limit < file_lines@.len() {
                offset + limit
            } else {
                file_lines@.len() as int
            };
            &&& page.lines@.len() == end - offset
            &&& page.has_more == (offset + limit < file_lines@.len())
            &&& forall|k: int| 0 <= k < page.lines@.len() ==> {
                let line = #[trigger] page.lines@[k];
                let meta = verdict(attrs@, offset + k + 1);
                &&& line.line_number == offset + k + 1
                &&& line.content@ == file_lines@[offset + k]@
                &&& line.author_type == meta.author_type
                &&& line.session_id == meta.session_id
                &&& line.ai_percentage == meta.ai_percentage
                &&& line.tool == meta.tool
                &&& line.model == meta.model
                &&& line.trace_available == meta.trace_available
            }
        },
{
    let n = file_lines.len();
    if (offset as usize) >= n {
        return SourceLensPage { lines: Vec::new(), total_lines: n as u32, has_more: false };
    }
    let metas = build_line_meta(n, attrs);
    let want: u64 = (offset as u64) + (limit as u64);
    let end: usize = if want < n as u64 { want as usize } else { n };
    let mut lines: Vec<SourceLine> = Vec::new();
    let mut i: usize = offset as usize;
    while i < end
        invariant
            offset <= i <= end <= n,
            n == file_lines@.len(),
            n <= u32::MAX,
            metas@.len() == n,
            forall|j: int| 0 <= j < n ==> #[trigger] metas@[j] == verdict(attrs@, j + 1),
            lines@.len() == i - offset,
            forall|k: int| 0 <= k < lines@.len() ==> {
                let line = #[trigger] lines@[k];
                let meta = verdict(attrs@, offset + k + 1);
                &&& line.line_number == offset + k + 1
                &&& line.content@ == file_lines@[offset + k]@
                &&& line.author_type == meta.author_type
                &&& line.session_id == meta.session_id
                &&& line.ai_percentage == meta.ai_percentage
                &&& line.tool == meta.tool
                &&& line.model == meta.model
                &&& line.trace_available == meta.trace_available
            },
        decreases end - i,
    {
        let meta = &metas[i];
        lines.push(
            SourceLine {
                line_number: (i + 1) as u32,
                content: file_lines[i].clone(),
                author_type: meta.author_type,
                session_id: clone_opt(&meta.session_id),
                ai_percentage: meta.ai_percentage,
                tool: clone_opt(&meta.tool),
                model: clone_opt(&meta.model),
                trace_available: meta.trace_available,
            },
        );
        i = i + 1;
    }
    SourceLensPage { lines, total_lines: n as u32, has_more: want < n as u64 }
}

} // verus!
