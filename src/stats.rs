//! Contribution statistics of a commit, from the verdicts on the lines of the
//! files its rows name.

use vstd::prelude::*;

use crate::extract::text_eq;
use crate::lens::{build_line_meta, clone_opt, opt_view, verdict, LineMeta};
use crate::models::{AuthorType, LineAttributionCommitRow, LineAttributionRow};
use crate::roundtrip::lemma_same_members;
use crate::store::{lemma_insert_multiset, sort_rows_by_start, sorted_rows};

verus! {

/// Lines of a commit by author type, and the tools behind the AI lines.
/// The AI share is `(ai_agent_lines + ai_assist_lines + collaborative_lines)
/// / total_lines`.
#[derive(Clone, Debug)]
pub struct ContributionStats {
    pub human_lines: u64,
    pub ai_agent_lines: u64,
    pub ai_assist_lines: u64,
    pub collaborative_lines: u64,
    pub total_lines: u64,
    pub tool_breakdown: Option<Vec<ToolStats>>,
    pub primary_tool: Option<String>,
    pub model: Option<String>,
}

/// AI lines of one tool and model.
#[derive(Clone, Debug)]
pub struct ToolStats {
    pub tool: String,
    pub model: Option<String>,
    pub line_count: u64,
}

/// How many lines a file has at the commit; `None` when it could not be read.
#[derive(Clone, Debug)]
pub struct FileLineCount {
    pub file_path: String,
    pub total_lines: Option<usize>,
}

impl ContributionStats {
    /// Stats of a commit whose lines are all human.
    pub fn human_only(total_lines: u64) -> (s: ContributionStats)
        ensures
            s.human_lines == total_lines,
            s.total_lines == total_lines,
            s.ai_agent_lines == 0 && s.ai_assist_lines == 0 && s.collaborative_lines == 0,
            s.tool_breakdown is None && s.primary_tool is None && s.model is None,
    {
        ContributionStats {
            human_lines: total_lines,
            ai_agent_lines: 0,
            ai_assist_lines: 0,
            collaborative_lines: 0,
            total_lines,
            tool_breakdown: None,
            primary_tool: None,
            model: None,
        }
    }

    /// Lines with some AI contribution.
    pub fn ai_lines(&self) -> (n: u64)
        requires
            self.ai_agent_lines + self.ai_assist_lines + self.collaborative_lines <= u64::MAX,
        ensures
            n == self.ai_agent_lines + self.ai_assist_lines + self.collaborative_lines,
    {
        self.ai_agent_lines + self.ai_assist_lines + self.collaborative_lines
    }
}

/// A commit row as the reconciler reads it (no trace).
pub open spec fn lens_row(r: LineAttributionCommitRow) -> LineAttributionRow {
    LineAttributionRow {
        start_line: r.start_line,
        end_line: r.end_line,
        session_id: r.session_id,
        author_type: r.author_type,
        ai_percentage: r.ai_percentage,
        tool: r.tool,
        model: r.model,
        trace_available: 0,
    }
}

/// The rows of one file, as the reconciler reads them, in order.
pub open spec fn file_lens_rows(rows: Seq<LineAttributionCommitRow>, path: Seq<char>) -> Seq<LineAttributionRow>
    decreases rows.len(),
{
    if rows.len() == 0 {
        Seq::empty()
    } else if rows.last().file_path@ == path {
        file_lens_rows(rows.drop_last(), path).push(lens_row(rows.last()))
    } else {
        file_lens_rows(rows.drop_last(), path)
    }
}

/// The files that rows name, in order of first appearance.
pub open spec fn row_files(rows: Seq<LineAttributionCommitRow>) -> Seq<Seq<char>>
    decreases rows.len(),
{
    if rows.len() == 0 {
        Seq::empty()
    } else {
        let prev = row_files(rows.drop_last());
        if prev.contains(rows.last().file_path@) {
            prev
        } else {
            prev.push(rows.last().file_path@)
        }
    }
}

/// Index of the first entry of a file, or the number of entries.
pub open spec fn count_index(files: Seq<FileLineCount>, path: Seq<char>) -> int
    decreases files.len(),
{
    if files.len() == 0 {
        0
    } else {
        let p = count_index(files.drop_last(), path);
        if p < files.len() - 1 {
            p
        } else if files.last().file_path@ == path {
            files.len() - 1
        } else {
            files.len() as int
        }
    }
}

/// The line count of the first entry of a file; none when there is no entry
/// or the file could not be read.
pub open spec fn line_count_of(files: Seq<FileLineCount>, path: Seq<char>) -> Option<usize> {
    let p = count_index(files, path);
    if p < files.len() {
        files[p].total_lines
    } else {
        None
    }
}

/// The verdicts on the lines of one file, its rows folded in order of first
/// line.
pub open spec fn file_verdicts(rows: Seq<LineAttributionCommitRow>, path: Seq<char>, n: nat) -> Seq<LineMeta> {
    Seq::new(n, |i: int| verdict(sorted_rows(file_lens_rows(rows, path)), i + 1))
}

/// The verdicts on every line of the files that the rows name, file by
/// file; files without a line count contribute nothing.
pub open spec fn commit_verdicts(rows: Seq<LineAttributionCommitRow>, paths: Seq<Seq<char>>, files: Seq<FileLineCount>) -> Seq<LineMeta>
    decreases paths.len(),
{
    if paths.len() == 0 {
        Seq::empty()
    } else {
        let n = match line_count_of(files, paths.last()) {
            Some(n) => n as nat,
            None => 0,
        };
        commit_verdicts(rows, paths.drop_last(), files) + file_verdicts(rows, paths.last(), n)
    }
}

/// Number of verdicts of one author type.
pub open spec fn count_type(metas: Seq<LineMeta>, t: AuthorType) -> int
    decreases metas.len(),
{
    if metas.len() == 0 {
        0
    } else {
        count_type(metas.drop_last(), t) + if metas.last().author_type == t {
            1int
        } else {
            0
        }
    }
}

/// The breakdown entry that a verdict counts toward.
pub open spec fn tool_key(m: LineMeta) -> (Seq<char>, Option<Seq<char>>) {
    (
        match m.tool {
            Some(t) => t@,
            None => "unknown"@,
        },
        opt_view(m.model),
    )
}

/// Whether a verdict counts toward the tool breakdown.
pub open spec fn is_tool_line(m: LineMeta) -> bool {
    m.author_type == AuthorType::AiAgent || m.author_type == AuthorType::AiTab
}

/// Number of verdicts that count toward the breakdown under a key.
pub open spec fn count_key(metas: Seq<LineMeta>, key: (Seq<char>, Option<Seq<char>>)) -> int
    decreases metas.len(),
{
    if metas.len() == 0 {
        0
    } else {
        count_key(metas.drop_last(), key) + if is_tool_line(metas.last()) && tool_key(metas.last()) == key {
            1int
        } else {
            0
        }
    }
}

/// The key of a breakdown entry.
pub open spec fn entry_key(e: ToolStats) -> (Seq<char>, Option<Seq<char>>) {
    (e.tool@, opt_view(e.model))
}

/// A breakdown of `metas`: one entry per key with its count, every key that
/// counts at least once present, and no key twice.
pub open spec fn is_breakdown(b: Seq<ToolStats>, metas: Seq<LineMeta>) -> bool {
    &&& forall|k: int| 0 <= k < b.len() ==> (#[trigger] b[k]).line_count == count_key(metas, entry_key(b[k]))
    &&& forall|k: int| 0 <= k < b.len() ==> (#[trigger] b[k]).line_count > 0
    &&& forall|i: int, j: int| 0 <= i < j < b.len() ==> entry_key(#[trigger] b[i]) != entry_key(#[trigger] b[j])
    &&& forall|k: int| 0 <= k < metas.len() && is_tool_line(#[trigger] metas[k]) ==> exists|e: int| 0 <= e < b.len() && entry_key(b[e]) == tool_key(metas[k])
}

/// Counts gathered so far.
struct StatsTally {
    human: u64,
    agent: u64,
    assist: u64,
    mixed: u64,
    breakdown: Vec<ToolStats>,
}

/// The tally of `metas`.
spec fn tally_of(t: StatsTally, metas: Seq<LineMeta>) -> bool {
    &&& t.human == count_type(metas, AuthorType::Human)
    &&& t.agent == count_type(metas, AuthorType::AiAgent)
    &&& t.assist == count_type(metas, AuthorType::AiTab)
    &&& t.mixed == count_type(metas, AuthorType::Mixed)
    &&& is_breakdown(t.breakdown@, metas)
}

proof fn lemma_count_key_witness(metas: Seq<LineMeta>, key: (Seq<char>, Option<Seq<char>>))
    requires
        count_key(metas, key) > 0,
    ensures
        exists|k: int| 0 <= k < metas.len() && is_tool_line(#[trigger] metas[k]) && tool_key(metas[k]) == key,
    decreases metas.len(),
{
    let d = metas.drop_last();
    if count_key(d, key) > 0 {
        lemma_count_key_witness(d, key);
        let k = choose|k: int| 0 <= k < d.len() && is_tool_line(#[trigger] d[k]) && tool_key(d[k]) == key;
        assert(metas[k] == d[k]);
    } else {
        assert(is_tool_line(metas[metas.len() - 1]));
    }
}

proof fn lemma_count_type_sum(metas: Seq<LineMeta>)
    ensures
        count_type(metas, AuthorType::Human) + count_type(metas, AuthorType::AiAgent) + count_type(metas, AuthorType::AiTab)
            + count_type(metas, AuthorType::Mixed) == metas.len(),
        0 <= count_type(metas, AuthorType::Human) && 0 <= count_type(metas, AuthorType::AiAgent),
        0 <= count_type(metas, AuthorType::AiTab) && 0 <= count_type(metas, AuthorType::Mixed),
    decreases metas.len(),
{
    if metas.len() > 0 {
        lemma_count_type_sum(metas.drop_last());
    }
}

proof fn lemma_count_key_le(metas: Seq<LineMeta>, key: (Seq<char>, Option<Seq<char>>))
    ensures
        0 <= count_key(metas, key) <= metas.len(),
    decreases metas.len(),
{
    if metas.len() > 0 {
        lemma_count_key_le(metas.drop_last(), key);
    }
}

fn opt_eq(a: &Option<String>, b: &Option<String>) -> (r: bool)
    ensures
        r == (opt_view(*a) == opt_view(*b)),
{
    match (a, b) {
        (Some(x), Some(y)) => text_eq(x, y),
        (None, None) => true,
        _ => false,
    }
}

impl StatsTally {
    /// Adds one verdict.
    fn add(&mut self, m: &LineMeta, Ghost(seen): Ghost<Seq<LineMeta>>)
        requires
            tally_of(*old(self), seen),
            seen.len() < u64::MAX,
        ensures
            tally_of(*final(self), seen.push(*m)),
    {
        let ghost after = seen.push(*m);
        proof {
            lemma_count_type_sum(seen);
            assert(after.drop_last() =~= seen);
        }
        match m.author_type {
            AuthorType::Human => self.human = self.human + 1,
            AuthorType::AiAgent => self.agent = self.agent + 1,
            AuthorType::AiTab => self.assist = self.assist + 1,
            AuthorType::Mixed => self.mixed = self.mixed + 1,
        }
        let ghost b0 = self.breakdown@;
        if m.author_type == AuthorType::AiAgent || m.author_type == AuthorType::AiTab {
            let tool = match &m.tool {
                Some(t) => t.clone(),
                None => "unknown".to_owned(),
            };
            let ghost key = tool_key(*m);
            let mut p: usize = 0;
            while p < self.breakdown.len() && !(text_eq(&self.breakdown[p].tool, &tool) && opt_eq(&self.breakdown[p].model, &m.model))
                invariant
                    p <= self.breakdown@.len(),
                    self.breakdown@ == b0,
                    tool@ == key.0,
                    key == tool_key(*m),
                    forall|k: int| 0 <= k < p ==> entry_key(b0[k]) != key,
                decreases self.breakdown@.len() - p,
            {
                p = p + 1;
            }
            if p < self.breakdown.len() {
                proof {
                    lemma_count_key_le(seen, key);
                    assert(entry_key(b0[p as int]) == key);
                }
                let mut e = ToolStats { tool: String::new(), model: None, line_count: 0 };
                std::mem::swap(&mut e, &mut self.breakdown[p]);
                e.line_count = e.line_count + 1;
                self.breakdown.set(p, e);
                proof {
                    let b = self.breakdown@;
                    assert forall|k: int| 0 <= k < b.len() implies (#[trigger] b[k]).line_count == count_key(after, entry_key(b[k])) by {
                        if k != p {
                            assert(b[k] == b0[k]);
                        }
                    }
                    assert forall|k: int| 0 <= k < after.len() && is_tool_line(#[trigger] after[k]) implies exists|e: int| 0 <= e < b.len() && entry_key(b[e]) == tool_key(after[k]) by {
                        if k < seen.len() {
                            assert(after[k] == seen[k]);
                            let e = choose|e: int| 0 <= e < b0.len() && entry_key(b0[e]) == tool_key(seen[k]);
                            if e != p {
                                assert(b[e] == b0[e]);
                            }
                            assert(entry_key(b[e]) == tool_key(after[k]));
                        } else {
                            assert(entry_key(b[p as int]) == tool_key(after[k]));
                        }
                    }
                    assert forall|i: int, j: int| 0 <= i < j < b.len() implies entry_key(#[trigger] b[i]) != entry_key(#[trigger] b[j]) by {
                        assert(entry_key(b[i]) == entry_key(b0[i]));
                        assert(entry_key(b[j]) == entry_key(b0[j]));
                    }
                }
            } else {
                proof {
                    lemma_count_key_le(seen, key);
                    if count_key(seen, key) > 0 {
                        lemma_count_key_witness(seen, key);
                        let k = choose|k: int| 0 <= k < seen.len() && is_tool_line(#[trigger] seen[k]) && tool_key(seen[k]) == key;
                        let e = choose|e: int| 0 <= e < b0.len() && entry_key(b0[e]) == tool_key(seen[k]);
                        assert(entry_key(b0[e]) != key);
                    }
                    assert(count_key(after, key) == 1);
                }
                let e = ToolStats { tool, model: clone_opt(&m.model), line_count: 1 };
                self.breakdown.push(e);
                proof {
                    let b = self.breakdown@;
                    assert(entry_key(e) == key);
                    assert forall|k: int| 0 <= k < b.len() implies (#[trigger] b[k]).line_count == count_key(after, entry_key(b[k])) by {
                        if k < b0.len() {
                            assert(b[k] == b0[k]);
                        }
                    }
                    assert forall|k: int| 0 <= k < after.len() && is_tool_line(#[trigger] after[k]) implies exists|e: int| 0 <= e < b.len() && entry_key(b[e]) == tool_key(after[k]) by {
                        if k < seen.len() {
                            assert(after[k] == seen[k]);
                            let e = choose|e: int| 0 <= e < b0.len() && entry_key(b0[e]) == tool_key(seen[k]);
                            assert(b[e] == b0[e]);
                        } else {
                            assert(entry_key(b[b0.len() as int]) == tool_key(after[k]));
                        }
                    }
                    assert forall|i: int, j: int| 0 <= i < j < b.len() implies entry_key(#[trigger] b[i]) != entry_key(#[trigger] b[j]) by {
                        assert(b[i] == b0[i]);
                        if j < b0.len() {
                            assert(b[j] == b0[j]);
                        }
                    }
                }
            }
        } else {
            proof {
                let b = self.breakdown@;
                assert forall|k: int| 0 <= k < b.len() implies (#[trigger] b[k]).line_count == count_key(after, entry_key(b[k])) by {}
                assert forall|k: int| 0 <= k < after.len() && is_tool_line(#[trigger] after[k]) implies exists|e: int| 0 <= e < b.len() && entry_key(b[e]) == tool_key(after[k]) by {
                    assert(k < seen.len());
                    assert(after[k] == seen[k]);
                }
            }
        }
    }
}

/// The files that rows name, in order of first appearance.
fn distinct_row_files(rows: &Vec<LineAttributionCommitRow>) -> (paths: Vec<String>)
    ensures
        paths@.len() == row_files(rows@).len(),
        forall|k: int| 0 <= k < paths@.len() ==> (#[trigger] paths@[k])@ == row_files(rows@)[k],
{
    let mut paths: Vec<String> = Vec::new();
    let mut i: usize = 0;
    while i < rows.len()
        invariant
            i <= rows@.len(),
            paths@.len() == row_files(rows@.take(i as int)).len(),
            forall|k: int| 0 <= k < paths@.len() ==> (#[trigger] paths@[k])@ == row_files(rows@.take(i as int))[k],
        decreases rows@.len() - i,
    {
        proof {
            assert(rows@.take(i as int + 1).drop_last() =~= rows@.take(i as int));
            assert(rows@.take(i as int + 1).last() == rows@[i as int]);
        }
        let p = &rows[i].file_path;
        let ghost prev = row_files(rows@.take(i as int));
        let mut seen = false;
        let mut k: usize = 0;
        while k < paths.len()
            invariant
                k <= paths@.len(),
                paths@.len() == prev.len(),
                forall|m: int| 0 <= m < paths@.len() ==> (#[trigger] paths@[m])@ == prev[m],
                seen <==> exists|m: int| 0 <= m < k && prev[m] == p@,
            decreases paths@.len() - k,
        {
            if text_eq(&paths[k], p) {
                seen = true;
            }
            k = k + 1;
        }
        proof {
            if prev.contains(p@) {
                let m = choose|m: int| 0 <= m < prev.len() && prev[m] == p@;
                assert(seen);
            }
        }
        if !seen {
            paths.push(p.clone());
        }
        i = i + 1;
    }
    proof {
        assert(rows@.take(rows@.len() as int) =~= rows@);
    }
    paths
}

/// The first line count given for a file.
fn find_line_count(files: &Vec<FileLineCount>, path: &String) -> (r: Option<usize>)
    ensures
        r == line_count_of(files@, path@),
{
    let mut p: usize = 0;
    while p < files.len() && !text_eq(&files[p].file_path, path)
        invariant
            p <= files@.len(),
            forall|k: int| 0 <= k < p ==> files@[k].file_path@ != path@,
        decreases files@.len() - p,
    {
        p = p + 1;
    }
    proof {
        lemma_count_index(files@, path@, p as int);
    }
    if p < files.len() {
        files[p].total_lines
    } else {
        None
    }
}

proof fn lemma_count_index(files: Seq<FileLineCount>, path: Seq<char>, p: int)
    requires
        0 <= p <= files.len(),
        forall|k: int| 0 <= k < p ==> files[k].file_path@ != path,
        p < files.len() ==> files[p].file_path@ == path,
    ensures
        count_index(files, path) == p,
    decreases files.len(),
{
    if files.len() > 0 {
        let d = files.drop_last();
        if p < files.len() - 1 {
            lemma_count_index(d, path, p);
        } else {
            lemma_count_index(d, path, d.len() as int);
        }
    }
}

/// The rows of one file, as the reconciler reads them.
fn file_rows_for_lens(rows: &Vec<LineAttributionCommitRow>, path: &String) -> (out: Vec<LineAttributionRow>)
    ensures
        out@ == file_lens_rows(rows@, path@),
{
    let mut out: Vec<LineAttributionRow> = Vec::new();
    let mut i: usize = 0;
    while i < rows.len()
        invariant
            i <= rows@.len(),
            out@ == file_lens_rows(rows@.take(i as int), path@),
        decreases rows@.len() - i,
    {
        proof {
            assert(rows@.take(i as int + 1).drop_last() =~= rows@.take(i as int));
            assert(rows@.take(i as int + 1).last() == rows@[i as int]);
        }
        let r = &rows[i];
        if text_eq(&r.file_path, path) {
            out.push(LineAttributionRow {
                start_line: r.start_line,
                end_line: r.end_line,
                session_id: clone_opt(&r.session_id),
                author_type: r.author_type,
                ai_percentage: r.ai_percentage,
                tool: clone_opt(&r.tool),
                model: clone_opt(&r.model),
                trace_available: 0,
            });
        }
        i = i + 1;
    }
    proof {
        assert(rows@.take(rows@.len() as int) =~= rows@);
    }
    out
}

/// Contribution statistics of a commit from its rows: each file that the
/// rows name and whose line count is known is reconciled line by line (its
/// rows taken in order of first line), and
/// the verdicts are counted by author type; AI agent and completion lines
/// are also counted by tool and model, and the tool with the most lines is
/// the primary one. There are none when the commit has no rows.
#[verifier::rlimit(40)]
pub fn compute_contribution_from_attributions(
    rows: &Vec<LineAttributionCommitRow>,
    files: &Vec<FileLineCount>,
) -> (r: Option<ContributionStats>)
    requires
        commit_verdicts(rows@, row_files(rows@), files@).len() < u64::MAX,
    ensures
        r is None <==> rows@.len() == 0,
        r matches Some(s) ==> {
            let metas = commit_verdicts(rows@, row_files(rows@), files@);
            &&& s.human_lines == count_type(metas, AuthorType::Human)
            &&& s.ai_agent_lines == count_type(metas, AuthorType::AiAgent)
            &&& s.ai_assist_lines == count_type(metas, AuthorType::AiTab)
            &&& s.collaborative_lines == count_type(metas, AuthorType::Mixed)
            &&& s.total_lines == metas.len()
            &&& s.total_lines == s.human_lines + s.ai_agent_lines + s.ai_assist_lines + s.collaborative_lines
            &&& (s.tool_breakdown is None <==> (forall|k: int| 0 <= k < metas.len() ==> !is_tool_line(#[trigger] metas[k])))
            &&& s.tool_breakdown matches Some(b) ==> {
                &&& is_breakdown(b@, metas)
                &&& counts_descending(b@)
                &&& b@.len() > 0
                &&& opt_view(s.primary_tool) == Some(b@[0].tool@)
                &&& opt_view(s.model) == opt_view(b@[0].model)
            }
            &&& s.tool_breakdown is None ==> s.primary_tool is None && s.model is None
        },
{
    if rows.len() == 0 {
        return None;
    }
    let paths = distinct_row_files(rows);
    let ghost ps = row_files(rows@);
    let mut tally = StatsTally { human: 0, agent: 0, assist: 0, mixed: 0, breakdown: Vec::new() };
    let ghost mut seen: Seq<LineMeta> = Seq::empty();
    let mut i: usize = 0;
    proof {
        assert(ps.take(0) =~= Seq::<Seq<char>>::empty());
    }
    while i < paths.len()
        invariant
            i <= paths@.len(),
            paths@.len() == ps.len(),
            ps == row_files(rows@),
            forall|k: int| 0 <= k < paths@.len() ==> (#[trigger] paths@[k])@ == ps[k],
            seen == commit_verdicts(rows@, ps.take(i as int), files@),
            tally_of(tally, seen),
            commit_verdicts(rows@, ps, files@).len() < u64::MAX,
        decreases paths@.len() - i,
    {
        let path = &paths[i];
        proof {
            assert(ps.take(i as int + 1).drop_last() =~= ps.take(i as int));
            assert(ps.take(i as int + 1).last() == path@);
            lemma_verdicts_prefix_len(rows@, ps, files@, i as int + 1);
        }
        let n: usize = match find_line_count(files, path) {
            Some(n) => n,
            None => 0,
        };
        let lens_rows = sort_rows_by_start(file_rows_for_lens(rows, path));
        let metas = build_line_meta(n, &lens_rows);
        let ghost fv = file_verdicts(rows@, path@, n as nat);
        proof {
            assert(metas@ =~= fv);
        }
        let ghost base = seen;
        let mut k: usize = 0;
        while k < metas.len()
            invariant
                k <= metas@.len(),
                metas@ == fv,
                seen == base + fv.take(k as int),
                tally_of(tally, seen),
                base + fv == commit_verdicts(rows@, ps.take(i as int + 1), files@),
                commit_verdicts(rows@, ps.take(i as int + 1), files@).len() < u64::MAX,
            decreases metas@.len() - k,
        {
            proof {
                assert(fv.take(k as int + 1) =~= fv.take(k as int).push(fv[k as int]));
                assert(seen.len() < u64::MAX);
            }
            tally.add(&metas[k], Ghost(seen));
            proof {
                seen = seen.push(fv[k as int]);
                assert(seen =~= base + fv.take(k as int + 1));
            }
            k = k + 1;
        }
        proof {
            assert(fv.take(fv.len() as int) =~= fv);
        }
        i = i + 1;
    }
    proof {
        assert(ps.take(ps.len() as int) =~= ps);
        lemma_count_type_sum(seen);
    }
    let total = tally.human + tally.agent + tally.assist + tally.mixed;
    let StatsTally { human, agent, assist, mixed, breakdown } = tally;
    if breakdown.len() == 0 {
        proof {
            assert forall|k: int| 0 <= k < seen.len() implies !is_tool_line(#[trigger] seen[k]) by {
                if is_tool_line(seen[k]) {
                    let e = choose|e: int| 0 <= e < breakdown@.len() && entry_key(breakdown@[e]) == tool_key(seen[k]);
                }
            }
        }
        return Some(ContributionStats {
            human_lines: human,
            ai_agent_lines: agent,
            ai_assist_lines: assist,
            collaborative_lines: mixed,
            total_lines: total,
            tool_breakdown: None,
            primary_tool: None,
            model: None,
        });
    }
    let ghost unsorted = breakdown@;
    proof {
        let b = breakdown@;
        assert(b[0].line_count > 0);
        assert(b[0].line_count == count_key(seen, entry_key(b[0])));
        if forall|k: int| 0 <= k < seen.len() ==> !is_tool_line(#[trigger] seen[k]) {
            lemma_count_key_zero(seen, entry_key(b[0]));
        }
    }
    let breakdown = sort_breakdown(breakdown);
    proof {
        lemma_sorted_breakdown(unsorted, breakdown@, seen);
    }
    let primary_tool = Some(breakdown[0].tool.clone());
    let model = clone_opt(&breakdown[0].model);
    Some(ContributionStats {
        human_lines: human,
        ai_agent_lines: agent,
        ai_assist_lines: assist,
        collaborative_lines: mixed,
        total_lines: total,
        tool_breakdown: Some(breakdown),
        primary_tool,
        model,
    })
}

/// Line counts from largest to smallest.
pub open spec fn counts_descending(b: Seq<ToolStats>) -> bool {
    forall|i: int, j: int| 0 <= i <= j < b.len() ==> (#[trigger] b[i]).line_count >= (#[trigger] b[j]).line_count
}

/// No two entries share a key.
pub open spec fn keys_distinct(b: Seq<ToolStats>) -> bool {
    forall|i: int, j: int| 0 <= i < j < b.len() ==> entry_key(#[trigger] b[i]) != entry_key(#[trigger] b[j])
}

proof fn lemma_sorted_breakdown(unsorted: Seq<ToolStats>, b: Seq<ToolStats>, seen: Seq<LineMeta>)
    requires
        is_breakdown(unsorted, seen),
        keys_distinct(b),
        b.to_multiset() == unsorted.to_multiset(),
    ensures
        is_breakdown(b, seen),
{
    lemma_same_members(b, unsorted);
    assert forall|k: int| 0 <= k < b.len() implies (#[trigger] b[k]).line_count == count_key(seen, entry_key(b[k])) && b[k].line_count > 0 by {
        assert(b.contains(b[k]));
        let p = choose|p: int| 0 <= p < unsorted.len() && unsorted[p] == b[k];
    }
    assert forall|k: int| 0 <= k < seen.len() && is_tool_line(#[trigger] seen[k]) implies exists|e: int| 0 <= e < b.len() && entry_key(b[e]) == tool_key(seen[k]) by {
        let e = choose|e: int| 0 <= e < unsorted.len() && entry_key(unsorted[e]) == tool_key(seen[k]);
        assert(unsorted.contains(unsorted[e]));
        assert(b.contains(unsorted[e]));
        let a = choose|a: int| 0 <= a < b.len() && b[a] == unsorted[e];
    }
}

proof fn lemma_breakdown_insert(all: Seq<ToolStats>, i: int, before: Seq<ToolStats>, pos: int)
    requires
        0 <= i < all.len(),
        0 <= pos <= before.len(),
        keys_distinct(all),
        counts_descending(before),
        keys_distinct(before),
        before.to_multiset() == all.take(i).to_multiset(),
        forall|a: int| 0 <= a < pos ==> (#[trigger] before[a]).line_count >= all[i].line_count,
        pos < before.len() ==> !(before[pos].line_count >= all[i].line_count),
    ensures
        counts_descending(before.insert(pos, all[i])),
        keys_distinct(before.insert(pos, all[i])),
        before.insert(pos, all[i]).to_multiset() == all.take(i + 1).to_multiset(),
{
    let x = all[i];
    before.insert_ensures(pos, x);
    let o = before.insert(pos, x);
    lemma_insert_multiset(before, pos, x);
    assert(all.take(i + 1) =~= all.take(i).push(x));
    all.take(i).to_multiset_ensures();
    lemma_same_members(before, all.take(i));
    assert forall|a: int, b2: int| 0 <= a <= b2 < o.len() implies (#[trigger] o[a]).line_count >= (#[trigger] o[b2]).line_count by {
        if a < pos && b2 < pos {
        } else if a < pos && b2 == pos {
        } else if a < pos {
            assert(o[b2] == before[b2 - 1]);
        } else if a == pos && b2 == pos {
        } else if a == pos {
            assert(o[b2] == before[b2 - 1]);
        } else {
            assert(o[a] == before[a - 1]);
            assert(o[b2] == before[b2 - 1]);
        }
    }
    assert forall|a: int, b2: int| 0 <= a < b2 < o.len() implies entry_key(#[trigger] o[a]) != entry_key(#[trigger] o[b2]) by {
        let pa = if a < pos { a } else { a - 1 };
        let pb = if b2 < pos { b2 } else { b2 - 1 };
        if a == pos {
            assert(o[b2] == before[pb]);
            assert(before.contains(before[pb]));
            let q = choose|q: int| 0 <= q < i && all.take(i)[q] == before[pb];
            assert(all[q] == all.take(i)[q]);
        } else if b2 == pos {
            assert(o[a] == before[pa]);
            assert(before.contains(before[pa]));
            let q = choose|q: int| 0 <= q < i && all.take(i)[q] == before[pa];
            assert(all[q] == all.take(i)[q]);
        } else {
            assert(o[a] == before[pa] && o[b2] == before[pb]);
        }
    }
}

/// Sorts breakdown entries by line count, largest first, keeping the same
/// entries.
pub fn sort_breakdown(b: Vec<ToolStats>) -> (out: Vec<ToolStats>)
    requires
        keys_distinct(b@),
    ensures
        counts_descending(out@),
        keys_distinct(out@),
        out@.to_multiset() == b@.to_multiset(),
{
    let ghost all = b@;
    let mut rest = b;
    let mut out: Vec<ToolStats> = Vec::new();
    let mut i: usize = 0;
    proof {
        assert(out@ =~= all.take(0));
    }
    while i < rest.len()
        invariant
            i <= rest@.len(),
            rest@.len() == all.len(),
            keys_distinct(all),
            forall|k: int| i <= k < all.len() ==> rest@[k] == all[k],
            counts_descending(out@),
            keys_distinct(out@),
            out@.to_multiset() == all.take(i as int).to_multiset(),
        decreases rest@.len() - i,
    {
        let mut x = ToolStats { tool: String::new(), model: None, line_count: 0 };
        std::mem::swap(&mut x, &mut rest[i]);
        let c = x.line_count;
        let mut pos: usize = 0;
        while pos < out.len() && out[pos].line_count >= c
            invariant
                pos <= out@.len(),
                forall|a: int| 0 <= a < pos ==> (#[trigger] out@[a]).line_count >= c,
            decreases out@.len() - pos,
        {
            pos = pos + 1;
        }
        let ghost before = out@;
        proof {
            assert(x == all[i as int]);
            lemma_breakdown_insert(all, i as int, before, pos as int);
        }
        out.insert(pos, x);
        i = i + 1;
    }
    proof {
        assert(all.take(all.len() as int) =~= all);
    }
    out
}

proof fn lemma_count_key_zero(metas: Seq<LineMeta>, key: (Seq<char>, Option<Seq<char>>))
    requires
        forall|k: int| 0 <= k < metas.len() ==> !is_tool_line(#[trigger] metas[k]),
    ensures
        count_key(metas, key) == 0,
    decreases metas.len(),
{
    if metas.len() > 0 {
        let d = metas.drop_last();
        assert forall|k: int| 0 <= k < d.len() implies !is_tool_line(#[trigger] d[k]) by {
            assert(d[k] == metas[k]);
        }
        lemma_count_key_zero(d, key);
        assert(!is_tool_line(metas[metas.len() - 1]));
    }
}

proof fn lemma_verdicts_prefix_len(rows: Seq<LineAttributionCommitRow>, ps: Seq<Seq<char>>, files: Seq<FileLineCount>, n: int)
    requires
        0 <= n <= ps.len(),
    ensures
        commit_verdicts(rows, ps.take(n), files).len() <= commit_verdicts(rows, ps, files).len(),
    decreases ps.len() - n,
{
    if n < ps.len() {
        assert(ps.take(n + 1).drop_last() =~= ps.take(n));
        lemma_verdicts_prefix_len(rows, ps, files, n + 1);
    } else {
        assert(ps.take(n) =~= ps);
    }
}

} // verus!
