//! Moving attribution between the store and notes: importing a parsed note
//! replaces a commit's rows; exporting builds a note's files and sources from
//! them.

use vstd::prelude::*;

use crate::extract::text_eq;
use crate::lens::{clone_opt, opt_view};
use crate::models::{AuthorType, LineAttributionCommitRow, SessionMetaRow};
use crate::notes::{files_view, sessions_of, FileView, NoteFile, NoteRange, NoteSourceMeta, ParsedAttributionNote};
use crate::store::{rows_of, rows_view, tag_rows, upsert_spec, LineAttributionStore, RowView, StoredRow, StoredView};

verus! {

/// How importing a note ended.
#[derive(Clone, Copy, Debug, PartialEq, Eq, Structural)]
pub enum NoteImportStatus {
    Imported,
    Missing,
    Invalid,
}

/// How exporting a note ended.
#[derive(Clone, Copy, Debug, PartialEq, Eq, Structural)]
pub enum NoteExportStatus {
    Exported,
    Empty,
}

/// The result of importing the note of a commit.
#[derive(Clone, Debug)]
pub struct AttributionNoteImportSummary {
    pub commit_sha: String,
    pub status: NoteImportStatus,
    pub imported_ranges: u32,
    pub imported_sessions: u32,
}

/// The tally of a batch of imports.
#[derive(Clone, Copy, Debug, PartialEq, Eq, Structural)]
pub struct AttributionNoteBatchSummary {
    pub total: u32,
    pub imported: u32,
    pub missing: u32,
    pub failed: u32,
}

/// The result of exporting the note of a commit.
#[derive(Clone, Debug)]
pub struct AttributionNoteExportSummary {
    pub commit_sha: String,
    pub status: NoteExportStatus,
}

/// What is recorded of an imported note.
#[derive(Clone, Debug)]
pub struct AttributionNoteMetaInput {
    pub note_ref: String,
    pub note_hash: String,
    pub schema_version: Option<String>,
    pub metadata_available: bool,
    pub metadata_cached: bool,
    pub prompt_count: usize,
}

/// The first entry of a session in a keyed list.
pub open spec fn lookup<T>(entries: Seq<(String, T)>, sid: Seq<char>) -> Option<T>
    decreases entries.len(),
{
    if entries.len() == 0 {
        None
    } else {
        let prev = lookup(entries.drop_last(), sid);
        if prev is Some {
            prev
        } else if entries.last().0@ == sid {
            Some(entries.last().1)
        } else {
            None
        }
    }
}

/// The first of two optional values that is set.
pub open spec fn first_set(a: Option<String>, b: Option<String>) -> Option<Seq<char>> {
    match a {
        Some(x) => Some(x@),
        None => opt_view(b),
    }
}

/// The author type of a checkpoint kind: inline completions (`ai_tab`, or
/// its legacy name `ai_assist`) are `ai_tab`; anything else is the agent's.
pub open spec fn checkpoint_author(kind: Option<String>) -> AuthorType {
    match kind {
        Some(k) => if k@ == "ai_tab"@ || k@ == "ai_assist"@ {
            AuthorType::AiTab
        } else {
            AuthorType::AiAgent
        },
        None => AuthorType::AiAgent,
    }
}

/// The row stored for one range of an imported note: tool and model from
/// the note's source entry, else from what is known of the session.
pub open spec fn imported_row(
    path: Seq<char>,
    r: NoteRange,
    sources: Seq<(String, NoteSourceMeta)>,
    known: Seq<(String, SessionMetaRow)>,
) -> RowView {
    let src = lookup(sources, r.session_id@);
    let sm = lookup(known, r.session_id@);
    let src_tool = match src { Some(m) => m.tool, None => None };
    let src_model = match src { Some(m) => m.model, None => None };
    let sm_tool = match sm { Some(m) => m.tool, None => None };
    let sm_model = match sm { Some(m) => m.model, None => None };
    (
        path,
        r.start_line,
        r.end_line,
        Some(r.session_id@),
        checkpoint_author(match src { Some(m) => m.checkpoint_kind, None => None }),
        None,
        first_set(src_tool, sm_tool),
        first_set(src_model, sm_model),
    )
}

/// The rows of one imported file.
pub open spec fn imported_file_rows(
    path: Seq<char>,
    ranges: Seq<NoteRange>,
    sources: Seq<(String, NoteSourceMeta)>,
    known: Seq<(String, SessionMetaRow)>,
) -> Seq<RowView>
    decreases ranges.len(),
{
    if ranges.len() == 0 {
        Seq::empty()
    } else {
        imported_file_rows(path, ranges.drop_last(), sources, known).push(imported_row(path, ranges.last(), sources, known))
    }
}

/// The rows stored for an imported note, file by file.
pub open spec fn imported_rows(
    files: Seq<NoteFile>,
    sources: Seq<(String, NoteSourceMeta)>,
    known: Seq<(String, SessionMetaRow)>,
) -> Seq<RowView>
    decreases files.len(),
{
    if files.len() == 0 {
        Seq::empty()
    } else {
        imported_rows(files.drop_last(), sources, known) + imported_file_rows(files.last().path@, files.last().ranges@, sources, known)
    }
}

/// The stored rows of every commit but one.
pub open spec fn rows_without(rows: Seq<StoredView>, repo: i64, commit: Seq<char>) -> Seq<StoredView>
    decreases rows.len(),
{
    if rows.len() == 0 {
        Seq::empty()
    } else if rows.last().0 == repo && rows.last().1 == commit {
        rows_without(rows.drop_last(), repo, commit)
    } else {
        rows_without(rows.drop_last(), repo, commit).push(rows.last())
    }
}

/// Finds the first entry of a session.
fn find_entry<T>(entries: &Vec<(String, T)>, sid: &String) -> (r: Option<usize>)
    ensures
        r matches Some(i) ==> i < entries@.len() && lookup(entries@, sid@) == Some(entries@[i as int].1),
        r is None ==> lookup(entries@, sid@) is None,
{
    let mut i: usize = 0;
    while i < entries.len()
        invariant
            i <= entries@.len(),
            lookup(entries@.take(i as int), sid@) is None,
        decreases entries@.len() - i,
    {
        proof {
            assert(entries@.take(i as int + 1).drop_last() =~= entries@.take(i as int));
        }
        if text_eq(&entries[i].0, sid) {
            proof {
                lemma_lookup_prefix(entries@, sid@, i as int + 1);
            }
            return Some(i);
        }
        i = i + 1;
    }
    proof {
        assert(entries@.take(entries@.len() as int) =~= entries@);
    }
    None
}

proof fn lemma_lookup_prefix<T>(entries: Seq<(String, T)>, sid: Seq<char>, n: int)
    requires
        0 < n <= entries.len(),
        lookup(entries.take(n), sid) is Some,
    ensures
        lookup(entries, sid) == lookup(entries.take(n), sid),
    decreases entries.len() - n,
{
    if n < entries.len() {
        assert(entries.take(n + 1).drop_last() =~= entries.take(n));
        lemma_lookup_prefix(entries, sid, n + 1);
    } else {
        assert(entries.take(n) =~= entries);
    }
}

/// Whether a checkpoint kind names an inline completion.
fn is_tab_kind(kind: &Option<String>) -> (r: bool)
    ensures
        r == (checkpoint_author(*kind) == AuthorType::AiTab),
{
    match kind {
        Some(k) => *k == "ai_tab".to_owned() || *k == "ai_assist".to_owned(),
        None => false,
    }
}

/// The first of two optional values that is set.
fn first_of(a: &Option<String>, b: &Option<String>) -> (r: Option<String>)
    ensures
        opt_view(r) == first_set(*a, *b),
{
    match a {
        Some(x) => Some(x.clone()),
        None => clone_opt(b),
    }
}

/// The row stored for one range of an imported note.
fn imported_row_of(
    path: &String,
    r: &NoteRange,
    sources: &Vec<(String, NoteSourceMeta)>,
    known: &Vec<(String, SessionMetaRow)>,
) -> (row: LineAttributionCommitRow)
    ensures
        row@ == imported_row(path@, *r, sources@, known@),
{
    let (src_tool, src_model, tab) = match find_entry(sources, &r.session_id) {
        Some(i) => {
            let m = &sources[i].1;
            (clone_opt(&m.tool), clone_opt(&m.model), is_tab_kind(&m.checkpoint_kind))
        },
        None => (None, None, false),
    };
    let (sm_tool, sm_model) = match find_entry(known, &r.session_id) {
        Some(i) => (clone_opt(&known[i].1.tool), clone_opt(&known[i].1.model)),
        None => (None, None),
    };
    LineAttributionCommitRow {
        file_path: path.clone(),
        start_line: r.start_line,
        end_line: r.end_line,
        session_id: Some(r.session_id.clone()),
        author_type: if tab { AuthorType::AiTab } else { AuthorType::AiAgent },
        ai_percentage: None,
        tool: first_of(&src_tool, &sm_tool),
        model: first_of(&src_model, &sm_model),
    }
}

/// The rows stored for an imported note.
pub fn note_rows(parsed: &ParsedAttributionNote, known: &Vec<(String, SessionMetaRow)>) -> (rows: Vec<LineAttributionCommitRow>)
    ensures
        rows_view(rows@) == imported_rows(parsed.files@, parsed.sources@, known@),
{
    let mut rows: Vec<LineAttributionCommitRow> = Vec::new();
    let mut i: usize = 0;
    proof {
        assert(rows_view(rows@) =~= Seq::<RowView>::empty());
    }
    while i < parsed.files.len()
        invariant
            i <= parsed.files@.len(),
            rows_view(rows@) == imported_rows(parsed.files@.take(i as int), parsed.sources@, known@),
        decreases parsed.files@.len() - i,
    {
        let f = &parsed.files[i];
        proof {
            assert(parsed.files@.take(i as int + 1).drop_last() =~= parsed.files@.take(i as int));
            assert(parsed.files@.take(i as int + 1).last() == *f);
        }
        let ghost base = rows_view(rows@);
        let mut k: usize = 0;
        while k < f.ranges.len()
            invariant
                k <= f.ranges@.len(),
                rows_view(rows@) == base + imported_file_rows(f.path@, f.ranges@.take(k as int), parsed.sources@, known@),
            decreases f.ranges@.len() - k,
        {
            proof {
                assert(f.ranges@.take(k as int + 1).drop_last() =~= f.ranges@.take(k as int));
                assert(f.ranges@.take(k as int + 1).last() == f.ranges@[k as int]);
            }
            let row = imported_row_of(&f.path, &f.ranges[k], &parsed.sources, known);
            let ghost before = rows@;
            rows.push(row);
            k = k + 1;
            proof {
                assert(rows_view(rows@) =~= rows_view(before).push(row@));
            }
        }
        proof {
            assert(f.ranges@.take(f.ranges@.len() as int) =~= f.ranges@);
        }
        i = i + 1;
    }
    proof {
        assert(parsed.files@.take(parsed.files@.len() as int) =~= parsed.files@);
    }
    rows
}

impl LineAttributionStore {
    /// Removes every row of a commit.
    pub fn delete_line_attributions(&mut self, repo_id: i64, commit_sha: &String)
        ensures
            final(self)@.0 == rows_without(old(self)@.0, repo_id, commit_sha@),
            final(self)@.1 == old(self)@.1,
            final(self).wf() == old(self).wf(),
    {
        let ghost rows = self@.0;
        let mut kept: Vec<StoredRow> = Vec::new();
        let mut old_rows: Vec<StoredRow> = Vec::new();
        std::mem::swap(&mut old_rows, &mut self.rows);
        proof {
            assert(old_rows@.map_values(|r: StoredRow| r@) == rows);
        }
        let mut i: usize = 0;
        while i < old_rows.len()
            invariant
                i <= old_rows@.len(),
                rows == old_rows@.map_values(|r: StoredRow| r@),
                kept@.map_values(|r: StoredRow| r@) == rows_without(rows.take(i as int), repo_id, commit_sha@),
            decreases old_rows@.len() - i,
        {
            proof {
                assert(rows.take(i as int + 1).drop_last() =~= rows.take(i as int));
                assert(rows.take(i as int + 1).last() == old_rows@[i as int]@);
            }
            let r = &old_rows[i];
            if !(r.repo_id == repo_id && text_eq(&r.commit_sha, commit_sha)) {
                let c = StoredRow { repo_id: r.repo_id, commit_sha: r.commit_sha.clone(), row: crate::store::copy_row(&r.row) };
                let ghost before = kept@;
                kept.push(c);
                proof {
                    assert(kept@.map_values(|r: StoredRow| r@) =~= before.map_values(|r: StoredRow| r@).push(c@));
                }
            }
            i = i + 1;
        }
        proof {
            assert(rows.take(rows.len() as int) =~= rows);
        }
        self.rows = kept;
    }

    /// Replaces the rows of a commit with those of an imported note; returns
    /// the number of ranges stored.
    pub fn store_line_attributions_from_note(
        &mut self,
        repo_id: i64,
        commit_sha: &String,
        parsed: &ParsedAttributionNote,
        known: &Vec<(String, SessionMetaRow)>,
    ) -> (n: usize)
        ensures
            final(self)@.0 == rows_without(old(self)@.0, repo_id, commit_sha@) + tag_rows(
                imported_rows(parsed.files@, parsed.sources@, known@),
                repo_id,
                commit_sha@,
            ),
            final(self)@.1 == old(self)@.1,
            final(self).wf() == old(self).wf(),
            n == imported_rows(parsed.files@, parsed.sources@, known@).len(),
    {
        self.delete_line_attributions(repo_id, commit_sha);
        let rows = note_rows(parsed, known);
        self.insert_rows(repo_id, commit_sha, &rows);
        rows.len()
    }
}

/// The ranges of all files, in order.
pub open spec fn all_ranges(files: Seq<FileView>) -> Seq<(Seq<char>, i32, i32)>
    decreases files.len(),
{
    if files.len() == 0 {
        Seq::empty()
    } else {
        all_ranges(files.drop_last()) + files.last().1
    }
}

/// Number of distinct sessions among the ranges of a note's files.
fn count_sessions(files: &Vec<NoteFile>) -> (n: usize)
    ensures
        n == sessions_of(all_ranges(files_view(files@))).len(),
{
    let ghost fv = files_view(files@);
    let mut seen: Vec<String> = Vec::new();
    let mut i: usize = 0;
    proof {
        assert(fv.take(0) =~= Seq::<FileView>::empty());
    }
    while i < files.len()
        invariant
            i <= files@.len(),
            fv == files_view(files@),
            seen@.len() == sessions_of(all_ranges(fv.take(i as int))).len(),
            forall|m: int| 0 <= m < seen@.len() ==> (#[trigger] seen@[m])@ == sessions_of(all_ranges(fv.take(i as int)))[m],
        decreases files@.len() - i,
    {
        let f = &files[i];
        let ghost base = all_ranges(fv.take(i as int));
        proof {
            assert(fv.take(i as int + 1).drop_last() =~= fv.take(i as int));
            assert(fv.take(i as int + 1).last() == f@);
        }
        let mut k: usize = 0;
        while k < f.ranges.len()
            invariant
                k <= f.ranges@.len(),
                seen@.len() == sessions_of(base + f@.1.take(k as int)).len(),
                forall|m: int| 0 <= m < seen@.len() ==> (#[trigger] seen@[m])@ == sessions_of(base + f@.1.take(k as int))[m],
            decreases f.ranges@.len() - k,
        {
            let sid = &f.ranges[k].session_id;
            let ghost cur = base + f@.1.take(k as int);
            let ghost prev = sessions_of(cur);
            proof {
                assert((base + f@.1.take(k as int + 1)).drop_last() =~= cur);
                assert((base + f@.1.take(k as int + 1)).last() == f.ranges@[k as int]@);
            }
            let mut found = false;
            let mut m: usize = 0;
            while m < seen.len()
                invariant
                    m <= seen@.len(),
                    seen@.len() == prev.len(),
                    forall|q: int| 0 <= q < seen@.len() ==> (#[trigger] seen@[q])@ == prev[q],
                    found <==> exists|q: int| 0 <= q < m && prev[q] == sid@,
                decreases seen@.len() - m,
            {
                if text_eq(&seen[m], sid) {
                    found = true;
                }
                m = m + 1;
            }
            proof {
                if prev.contains(sid@) {
                    let q = choose|q: int| 0 <= q < prev.len() && prev[q] == sid@;
                    assert(found);
                }
            }
            if !found {
                seen.push(sid.clone());
            }
            k = k + 1;
        }
        proof {
            assert(f@.1.take(f@.1.len() as int) =~= f@.1);
        }
        i = i + 1;
    }
    proof {
        assert(fv.take(fv.len() as int) =~= fv);
    }
    seen.len()
}

impl LineAttributionStore {
    /// Imports the note of a commit (`None` when the commit has no note).
    ///
    /// A missing note or one whose file section holds no file changes
    /// nothing and says so. Otherwise the note's rows replace the commit's,
    /// and its rewrite key (the note's own, else `computed_key`) is stored
    /// with the note's algorithm or the default one.
    pub fn import_attribution_note(
        &mut self,
        repo_id: i64,
        commit_sha: &String,
        note: Option<&ParsedAttributionNote>,
        known: &Vec<(String, SessionMetaRow)>,
        computed_key: &Option<String>,
    ) -> (summary: AttributionNoteImportSummary)
        requires
            old(self).wf(),
        ensures
            final(self).wf(),
            summary.commit_sha@ == commit_sha@,
            note is None ==> summary.status == NoteImportStatus::Missing && final(self)@ == old(self)@
                && summary.imported_ranges == 0 && summary.imported_sessions == 0,
            note matches Some(p) ==> {
                if p.files@.len() == 0 {
                    &&& summary.status == NoteImportStatus::Invalid
                    &&& final(self)@ == old(self)@
                    &&& summary.imported_ranges == 0
                    &&& summary.imported_sessions == 0
                } else {
                    let rows = rows_without(old(self)@.0, repo_id, commit_sha@) + tag_rows(
                        imported_rows(p.files@, p.sources@, known@),
                        repo_id,
                        commit_sha@,
                    );
                    let key = match p.rewrite_key {
                        Some(k) => Some(k),
                        None => *computed_key,
                    };
                    let alg = match p.rewrite_algorithm {
                        Some(a) => a@,
                        None => "patch-id"@,
                    };
                    &&& summary.status == NoteImportStatus::Imported
                    &&& final(self)@.0 == rows
                    &&& final(self)@.1 == match key {
                        Some(k) => upsert_spec(old(self)@.1, repo_id, commit_sha@, k@, alg),
                        None => old(self)@.1,
                    }
                    &&& summary.imported_ranges == imported_rows(p.files@, p.sources@, known@).len() as u32
                    &&& summary.imported_sessions == sessions_of(all_ranges(files_view(p.files@))).len() as u32
                }
            },
    {
        let parsed = match note {
            None => {
                return AttributionNoteImportSummary {
                    commit_sha: commit_sha.clone(),
                    status: NoteImportStatus::Missing,
                    imported_ranges: 0,
                    imported_sessions: 0,
                };
            },
            Some(p) => p,
        };
        if parsed.files.len() == 0 {
            return AttributionNoteImportSummary {
                commit_sha: commit_sha.clone(),
                status: NoteImportStatus::Invalid,
                imported_ranges: 0,
                imported_sessions: 0,
            };
        }
        let n = self.store_line_attributions_from_note(repo_id, commit_sha, parsed, known);
        let sessions = count_sessions(&parsed.files);
        let algorithm = match &parsed.rewrite_algorithm {
            Some(a) => a.clone(),
            None => crate::rewrite::REWRITE_KEY_ALGORITHM.to_owned(),
        };
        proof {
            reveal_strlit("patch-id");
        }
        let key = match &parsed.rewrite_key {
            Some(k) => Some(k.clone()),
            None => clone_opt(computed_key),
        };
        if let Some(k) = &key {
            self.store_rewrite_key(repo_id, commit_sha, k, &algorithm);
        }
        AttributionNoteImportSummary {
            commit_sha: commit_sha.clone(),
            status: NoteImportStatus::Imported,
            imported_ranges: n as u32,
            imported_sessions: sessions as u32,
        }
    }
}

/// What is recorded of an imported note: where it was found, its digest,
/// its schema version, and how many sources it describes.
pub fn note_meta_input(note_ref: &str, note_hash: &String, parsed: &ParsedAttributionNote) -> (m: AttributionNoteMetaInput)
    ensures
        m.note_ref@ == note_ref@,
        m.note_hash@ == note_hash@,
        m.schema_version == parsed.schema_version,
        m.metadata_available == (parsed.sources@.len() > 0),
        !m.metadata_cached,
        m.prompt_count == parsed.sources@.len(),
{
    AttributionNoteMetaInput {
        note_ref: note_ref.to_owned(),
        note_hash: note_hash.clone(),
        schema_version: clone_opt(&parsed.schema_version),
        metadata_available: parsed.sources.len() > 0,
        metadata_cached: false,
        prompt_count: parsed.sources.len(),
    }
}

/// Number of imports that ended with a given status.
pub open spec fn count_status(outcomes: Seq<Option<NoteImportStatus>>, s: Option<NoteImportStatus>) -> int
    decreases outcomes.len(),
{
    if outcomes.len() == 0 {
        0
    } else {
        count_status(outcomes.drop_last(), s) + if outcomes.last() == s {
            1int
        } else {
            0
        }
    }
}

proof fn lemma_count_bound(outcomes: Seq<Option<NoteImportStatus>>, s: Option<NoteImportStatus>)
    ensures
        0 <= count_status(outcomes, s) <= outcomes.len(),
    decreases outcomes.len(),
{
    if outcomes.len() > 0 {
        lemma_count_bound(outcomes.drop_last(), s);
    }
}

/// Tallies a batch of imports: each one imported, without a usable note
/// (missing or invalid), or failed (`None`).
pub fn import_attribution_notes_batch(outcomes: &Vec<Option<NoteImportStatus>>) -> (t: AttributionNoteBatchSummary)
    requires
        outcomes@.len() <= u32::MAX,
    ensures
        t.imported == count_status(outcomes@, Some(NoteImportStatus::Imported)),
        t.missing == count_status(outcomes@, Some(NoteImportStatus::Missing)) + count_status(
            outcomes@,
            Some(NoteImportStatus::Invalid),
        ),
        t.failed == count_status(outcomes@, None),
        t.total == outcomes@.len(),
{
    let mut imported: u32 = 0;
    let mut missing: u32 = 0;
    let mut failed: u32 = 0;
    let mut i: usize = 0;
    while i < outcomes.len()
        invariant
            i <= outcomes@.len() <= u32::MAX,
            imported == count_status(outcomes@.take(i as int), Some(NoteImportStatus::Imported)),
            missing == count_status(outcomes@.take(i as int), Some(NoteImportStatus::Missing)) + count_status(
                outcomes@.take(i as int),
                Some(NoteImportStatus::Invalid),
            ),
            failed == count_status(outcomes@.take(i as int), None),
            imported + missing + failed == i,
        decreases outcomes@.len() - i,
    {
        proof {
            assert(outcomes@.take(i as int + 1).drop_last() =~= outcomes@.take(i as int));
            assert(outcomes@.take(i as int + 1).last() == outcomes@[i as int]);
        }
        match outcomes[i] {
            Some(NoteImportStatus::Imported) => imported = imported + 1,
            Some(_) => missing = missing + 1,
            None => failed = failed + 1,
        }
        i = i + 1;
    }
    proof {
        assert(outcomes@.take(outcomes@.len() as int) =~= outcomes@);
    }
    AttributionNoteBatchSummary { total: imported + missing + failed, imported, missing, failed }
}

/// A source entry as values: tool, model, checkpoint kind, conversation.
pub type SourceView = (Option<Seq<char>>, Option<Seq<char>>, Option<Seq<char>>, Option<Seq<char>>);

impl View for NoteSourceMeta {
    type V = SourceView;

    open spec fn view(&self) -> SourceView {
        (opt_view(self.tool), opt_view(self.model), opt_view(self.checkpoint_kind), opt_view(self.conversation_id))
    }
}

/// Index of the file with a given path, or the number of files.
pub open spec fn file_pos(files: Seq<FileView>, path: Seq<char>) -> int
    decreases files.len(),
{
    if files.len() == 0 {
        0
    } else {
        let p = file_pos(files.drop_last(), path);
        if p < files.len() - 1 {
            p
        } else if files.last().0 == path {
            files.len() - 1
        } else {
            files.len() as int
        }
    }
}

/// The files of an exported note: the rows that name a session, grouped by
/// file in order of first appearance.
pub open spec fn export_files(rows: Seq<RowView>) -> Seq<FileView>
    decreases rows.len(),
{
    if rows.len() == 0 {
        Seq::empty()
    } else {
        let prev = export_files(rows.drop_last());
        let r = rows.last();
        match r.3 {
            None => prev,
            Some(sid) => {
                let p = file_pos(prev, r.0);
                if p < prev.len() {
                    prev.update(p, (prev[p].0, prev[p].1.push((sid, r.1, r.2))))
                } else {
                    prev.push((r.0, seq![(sid, r.1, r.2)]))
                }
            },
        }
    }
}

/// The checkpoint kind written for a row's author type.
pub open spec fn kind_token(a: AuthorType) -> Seq<char> {
    if a == AuthorType::AiTab {
        "ai_tab"@
    } else {
        "ai_agent"@
    }
}

/// Index of the entry of a session, or the number of entries.
pub open spec fn source_pos(sources: Seq<(Seq<char>, SourceView)>, sid: Seq<char>) -> int
    decreases sources.len(),
{
    if sources.len() == 0 {
        0
    } else {
        let p = source_pos(sources.drop_last(), sid);
        if p < sources.len() - 1 {
            p
        } else if sources.last().0 == sid {
            sources.len() - 1
        } else {
            sources.len() as int
        }
    }
}

/// The sources of an exported note, before what is known of the sessions
/// is added: one per session in order of first appearance, with the first
/// tool and model that its rows name and the kind of its first row.
pub open spec fn export_sources(rows: Seq<RowView>) -> Seq<(Seq<char>, SourceView)>
    decreases rows.len(),
{
    if rows.len() == 0 {
        Seq::empty()
    } else {
        let prev = export_sources(rows.drop_last());
        let r = rows.last();
        match r.3 {
            None => prev,
            Some(sid) => {
                let p = source_pos(prev, sid);
                if p < prev.len() {
                    let m = prev[p].1;
                    prev.update(
                        p,
                        (
                            sid,
                            (
                                if m.0 is None {
                                    r.6
                                } else {
                                    m.0
                                },
                                if m.1 is None {
                                    r.7
                                } else {
                                    m.1
                                },
                                m.2,
                                m.3,
                            ),
                        ),
                    )
                } else {
                    prev.push((sid, (r.6, r.7, Some(kind_token(r.4)), None)))
                }
            },
        }
    }
}

/// A source entry completed with what is known of its session.
pub open spec fn completed_source(m: SourceView, known: Option<SessionMetaRow>) -> SourceView {
    match known {
        None => m,
        Some(k) => (
            if m.0 is None {
                opt_view(k.tool)
            } else {
                m.0
            },
            if m.1 is None {
                opt_view(k.model)
            } else {
                m.1
            },
            m.2,
            if m.3 is None {
                opt_view(k.conversation_id)
            } else {
                m.3
            },
        ),
    }
}

fn find_file(files: &Vec<NoteFile>, path: &String) -> (p: usize)
    ensures
        p == file_pos(files_view(files@), path@),
{
    let ghost fv = files_view(files@);
    let mut p: usize = 0;
    while p < files.len() && !text_eq(&files[p].path, path)
        invariant
            p <= files@.len(),
            fv == files_view(files@),
            forall|k: int| 0 <= k < p ==> fv[k].0 != path@,
        decreases files@.len() - p,
    {
        p = p + 1;
    }
    proof {
        lemma_file_pos(fv, path@, p as int);
    }
    p
}

proof fn lemma_file_pos(files: Seq<FileView>, path: Seq<char>, p: int)
    requires
        0 <= p <= files.len(),
        forall|k: int| 0 <= k < p ==> files[k].0 != path,
        p < files.len() ==> files[p].0 == path,
    ensures
        file_pos(files, path) == p,
    decreases files.len(),
{
    if files.len() > 0 {
        let d = files.drop_last();
        if p < files.len() - 1 {
            lemma_file_pos(d, path, p);
        } else {
            lemma_file_pos(d, path, d.len() as int);
        }
    }
}

fn find_source(sources: &Vec<(String, NoteSourceMeta)>, sid: &String) -> (p: usize)
    ensures
        p == source_pos(sources@.map_values(|e: (String, NoteSourceMeta)| (e.0@, e.1@)), sid@),
{
    let ghost sv = sources@.map_values(|e: (String, NoteSourceMeta)| (e.0@, e.1@));
    let mut p: usize = 0;
    while p < sources.len() && !text_eq(&sources[p].0, sid)
        invariant
            p <= sources@.len(),
            sv == sources@.map_values(|e: (String, NoteSourceMeta)| (e.0@, e.1@)),
            forall|k: int| 0 <= k < p ==> sv[k].0 != sid@,
        decreases sources@.len() - p,
    {
        p = p + 1;
    }
    proof {
        lemma_source_pos(sv, sid@, p as int);
    }
    p
}

proof fn lemma_source_pos(sources: Seq<(Seq<char>, SourceView)>, sid: Seq<char>, p: int)
    requires
        0 <= p <= sources.len(),
        forall|k: int| 0 <= k < p ==> sources[k].0 != sid,
        p < sources.len() ==> sources[p].0 == sid,
    ensures
        source_pos(sources, sid) == p,
    decreases sources.len(),
{
    if sources.len() > 0 {
        let d = sources.drop_last();
        if p < sources.len() - 1 {
            lemma_source_pos(d, sid, p);
        } else {
            lemma_source_pos(d, sid, d.len() as int);
        }
    }
}

/// The views of a list of source entries.
pub open spec fn sources_view(sources: Seq<(String, NoteSourceMeta)>) -> Seq<(Seq<char>, SourceView)> {
    sources.map_values(|e: (String, NoteSourceMeta)| (e.0@, e.1@))
}

/// The files of an exported note, from the rows of a commit.
pub fn export_note_files(rows: &Vec<LineAttributionCommitRow>) -> (files: Vec<NoteFile>)
    ensures
        files_view(files@) == export_files(rows_view(rows@)),
{
    let ghost rv = rows_view(rows@);
    let mut files: Vec<NoteFile> = Vec::new();
    let mut i: usize = 0;
    proof {
        assert(files_view(files@) =~= Seq::<FileView>::empty());
    }
    while i < rows.len()
        invariant
            i <= rows@.len(),
            rv == rows_view(rows@),
            files_view(files@) == export_files(rv.take(i as int)),
        decreases rows@.len() - i,
    {
        proof {
            assert(rv.take(i as int + 1).drop_last() =~= rv.take(i as int));
            assert(rv.take(i as int + 1).last() == rows@[i as int]@);
        }
        let row = &rows[i];
        if let Some(sid) = &row.session_id {
            let p = find_file(&files, &row.file_path);
            let nr = NoteRange { session_id: sid.clone(), start_line: row.start_line, end_line: row.end_line };
            let ghost before = files_view(files@);
            if p < files.len() {
                let mut f = NoteFile { path: String::new(), ranges: Vec::new() };
                std::mem::swap(&mut f, &mut files[p]);
                let ghost fr = f.ranges@;
                f.ranges.push(nr);
                proof {
                    assert(f.ranges@.map_values(|r: NoteRange| r@) =~= fr.map_values(|r: NoteRange| r@).push(nr@));
                }
                files.set(p, f);
                proof {
                    assert(files_view(files@) =~= before.update(p as int, (before[p as int].0, before[p as int].1.push(nr@))));
                }
            } else {
                let mut ranges: Vec<NoteRange> = Vec::new();
                ranges.push(nr);
                let f = NoteFile { path: row.file_path.clone(), ranges };
                files.push(f);
                proof {
                    assert(f.ranges@.map_values(|r: NoteRange| r@) =~= seq![nr@]);
                    assert(files_view(files@) =~= before.push(f@));
                }
            }
        }
        i = i + 1;
    }
    proof {
        assert(rv.take(rv.len() as int) =~= rv);
    }
    files
}

/// The sources of an exported note, from the rows of a commit and what is
/// known of their sessions.
pub fn export_note_sources(
    rows: &Vec<LineAttributionCommitRow>,
    known: &Vec<(String, SessionMetaRow)>,
) -> (sources: Vec<(String, NoteSourceMeta)>)
    ensures
        sources@.len() == export_sources(rows_view(rows@)).len(),
        forall|k: int| 0 <= k < sources@.len() ==> {
            let e = export_sources(rows_view(rows@))[k];
            &&& (#[trigger] sources@[k]).0@ == e.0
            &&& sources@[k].1@ == completed_source(e.1, lookup(known@, e.0))
        },
{
    let ghost rv = rows_view(rows@);
    let mut sources: Vec<(String, NoteSourceMeta)> = Vec::new();
    let mut i: usize = 0;
    proof {
        assert(sources_view(sources@) =~= Seq::<(Seq<char>, SourceView)>::empty());
    }
    while i < rows.len()
        invariant
            i <= rows@.len(),
            rv == rows_view(rows@),
            sources_view(sources@) == export_sources(rv.take(i as int)),
        decreases rows@.len() - i,
    {
        proof {
            assert(rv.take(i as int + 1).drop_last() =~= rv.take(i as int));
            assert(rv.take(i as int + 1).last() == rows@[i as int]@);
        }
        let row = &rows[i];
        if let Some(sid) = &row.session_id {
            let p = find_source(&sources, sid);
            let ghost before = sources_view(sources@);
            if p < sources.len() {
                let tool = if sources[p].1.tool.is_none() { clone_opt(&row.tool) } else { clone_opt(&sources[p].1.tool) };
                let model = if sources[p].1.model.is_none() { clone_opt(&row.model) } else { clone_opt(&sources[p].1.model) };
                let e = (sid.clone(), NoteSourceMeta {
                    tool,
                    model,
                    checkpoint_kind: clone_opt(&sources[p].1.checkpoint_kind),
                    conversation_id: clone_opt(&sources[p].1.conversation_id),
                });
                sources.set(p, e);
                proof {
                    assert(sources_view(sources@) =~= before.update(p as int, (e.0@, e.1@)));
                }
            } else {
                let kind = if row.author_type == AuthorType::AiTab { "ai_tab".to_owned() } else { "ai_agent".to_owned() };
                let e = (sid.clone(), NoteSourceMeta {
                    tool: clone_opt(&row.tool),
                    model: clone_opt(&row.model),
                    checkpoint_kind: Some(kind),
                    conversation_id: None,
                });
                sources.push(e);
                proof {
                    assert(sources_view(sources@) =~= before.push((e.0@, e.1@)));
                }
            }
        }
        i = i + 1;
    }
    proof {
        assert(rv.take(rv.len() as int) =~= rv);
    }
    let ghost es = sources_view(sources@);
    let mut out: Vec<(String, NoteSourceMeta)> = Vec::new();
    let mut j: usize = 0;
    while j < sources.len()
        invariant
            j <= sources@.len(),
            es == sources_view(sources@),
            es == export_sources(rv),
            rv == rows_view(rows@),
            out@.len() == j,
            forall|k: int| 0 <= k < j ==> {
                let e = es[k];
                &&& (#[trigger] out@[k]).0@ == e.0
                &&& out@[k].1@ == completed_source(e.1, lookup(known@, e.0))
            },
        decreases sources@.len() - j,
    {
        let (sid, m) = &sources[j];
        let e = match find_entry(known, sid) {
            Some(q) => {
                let k = &known[q].1;
                (sid.clone(), NoteSourceMeta {
                    tool: if m.tool.is_none() { clone_opt(&k.tool) } else { clone_opt(&m.tool) },
                    model: if m.model.is_none() { clone_opt(&k.model) } else { clone_opt(&m.model) },
                    checkpoint_kind: clone_opt(&m.checkpoint_kind),
                    conversation_id: if m.conversation_id.is_none() { clone_opt(&k.conversation_id) } else { clone_opt(&m.conversation_id) },
                })
            },
            None => (sid.clone(), NoteSourceMeta {
                tool: clone_opt(&m.tool),
                model: clone_opt(&m.model),
                checkpoint_kind: clone_opt(&m.checkpoint_kind),
                conversation_id: clone_opt(&m.conversation_id),
            }),
        };
        out.push(e);
        j = j + 1;
    }
    out
}

// ----- export step -----

impl LineAttributionStore {
    /// Prepares the export of a commit's note. With no rows there is nothing
    /// to export (`None`, the store unchanged). Otherwise the commit's
    /// rewrite key (when known) is stored under the default algorithm, and
    /// the note's files and sources are returned.
    pub fn export_attribution_note(
        &mut self,
        repo_id: i64,
        commit_sha: &String,
        known: &Vec<(String, SessionMetaRow)>,
        rewrite_key: &Option<String>,
    ) -> (r: Option<(Vec<NoteFile>, Vec<(String, NoteSourceMeta)>)>)
        requires
            old(self).wf(),
        ensures
            final(self).wf(),
            rows_of(old(self)@.0, repo_id, commit_sha@).len() == 0 ==> r is None && final(self)@ == old(self)@,
            rows_of(old(self)@.0, repo_id, commit_sha@).len() > 0 ==> {
                let rows = rows_of(old(self)@.0, repo_id, commit_sha@);
                let files = match r {
                    Some(p) => p.0@,
                    None => Seq::empty(),
                };
                let sources = match r {
                    Some(p) => p.1@,
                    None => Seq::empty(),
                };
                &&& r is Some
                &&& files_view(files) == export_files(rows)
                &&& sources.len() == export_sources(rows).len()
                &&& forall|k: int| 0 <= k < sources.len() ==> {
                    let e = export_sources(rows)[k];
                    &&& (#[trigger] sources[k]).0@ == e.0
                    &&& sources[k].1@ == completed_source(e.1, lookup(known@, e.0))
                }
                &&& final(self)@.0 == old(self)@.0
                &&& final(self)@.1 == match *rewrite_key {
                    Some(k) => upsert_spec(old(self)@.1, repo_id, commit_sha@, k@, "patch-id"@),
                    None => old(self)@.1,
                }
            },
    {
        let rows = self.fetch_line_attributions_for_commit(repo_id, commit_sha);
        if rows.len() == 0 {
            return None;
        }
        let files = export_note_files(&rows);
        let sources = export_note_sources(&rows, known);
        let algorithm = crate::rewrite::REWRITE_KEY_ALGORITHM.to_owned();
        proof {
            reveal_strlit("patch-id");
        }
        if let Some(k) = rewrite_key {
            self.store_rewrite_key(repo_id, commit_sha, k, &algorithm);
        }
        Some((files, sources))
    }
}

/// The result of an export: exported when there was something to write.
pub fn export_summary(commit_sha: &String, exported: bool) -> (s: AttributionNoteExportSummary)
    ensures
        s.commit_sha@ == commit_sha@,
        s.status == (if exported {
            NoteExportStatus::Exported
        } else {
            NoteExportStatus::Empty
        }),
{
    AttributionNoteExportSummary {
        commit_sha: commit_sha.clone(),
        status: if exported { NoteExportStatus::Exported } else { NoteExportStatus::Empty },
    }
}

// ----- note metadata -----

/// What is recorded of the imported note of a commit.
#[derive(Clone, Debug)]
pub struct AttributionNoteMetaRow {
    pub repo_id: i64,
    pub commit_sha: String,
    pub meta: AttributionNoteMetaInput,
}

/// The recorded notes, at most one per commit.
#[derive(Clone, Debug)]
pub struct AttributionNoteMetaTable {
    pub records: Vec<AttributionNoteMetaRow>,
}

/// A recorded note as values: repository, commit, note ref, hash, schema
/// version, whether metadata is available and cached, source count.
pub type MetaView = (i64, Seq<char>, Seq<char>, Seq<char>, Option<Seq<char>>, bool, bool, usize);

impl View for AttributionNoteMetaRow {
    type V = MetaView;

    open spec fn view(&self) -> MetaView {
        (
            self.repo_id,
            self.commit_sha@,
            self.meta.note_ref@,
            self.meta.note_hash@,
            opt_view(self.meta.schema_version),
            self.meta.metadata_available,
            self.meta.metadata_cached,
            self.meta.prompt_count,
        )
    }
}

/// The records of every commit but one.
pub open spec fn metas_without(ms: Seq<MetaView>, repo: i64, commit: Seq<char>) -> Seq<MetaView>
    decreases ms.len(),
{
    if ms.len() == 0 {
        Seq::empty()
    } else if ms.last().0 == repo && ms.last().1 == commit {
        metas_without(ms.drop_last(), repo, commit)
    } else {
        metas_without(ms.drop_last(), repo, commit).push(ms.last())
    }
}

/// The record of a commit's imported note.
pub open spec fn meta_record(repo: i64, commit: Seq<char>, m: AttributionNoteMetaInput) -> MetaView {
    (repo, commit, m.note_ref@, m.note_hash@, opt_view(m.schema_version), m.metadata_available, m.metadata_cached, m.prompt_count)
}

/// Whether a commit has a record.
pub open spec fn has_meta(ms: Seq<MetaView>, repo: i64, commit: Seq<char>) -> bool {
    exists|i: int| 0 <= i < ms.len() && (#[trigger] ms[i]).0 == repo && ms[i].1 == commit
}

proof fn lemma_metas_without(ms: Seq<MetaView>, repo: i64, commit: Seq<char>)
    ensures
        !has_meta(metas_without(ms, repo, commit), repo, commit),
    decreases ms.len(),
{
    if ms.len() > 0 {
        lemma_metas_without(ms.drop_last(), repo, commit);
        let w = metas_without(ms, repo, commit);
        let p = metas_without(ms.drop_last(), repo, commit);
        if !(ms.last().0 == repo && ms.last().1 == commit) {
            assert forall|i: int| 0 <= i < w.len() implies !((#[trigger] w[i]).0 == repo && w[i].1 == commit) by {
                if i < p.len() {
                    assert(w[i] == p[i]);
                }
            }
        }
    }
}

fn copy_meta(m: &AttributionNoteMetaInput) -> (c: AttributionNoteMetaInput)
    ensures
        c.note_ref@ == m.note_ref@,
        c.note_hash@ == m.note_hash@,
        opt_view(c.schema_version) == opt_view(m.schema_version),
        c.metadata_available == m.metadata_available,
        c.metadata_cached == m.metadata_cached,
        c.prompt_count == m.prompt_count,
{
    AttributionNoteMetaInput {
        note_ref: m.note_ref.clone(),
        note_hash: m.note_hash.clone(),
        schema_version: clone_opt(&m.schema_version),
        metadata_available: m.metadata_available,
        metadata_cached: m.metadata_cached,
        prompt_count: m.prompt_count,
    }
}

impl AttributionNoteMetaTable {
    /// The records as values.
    pub open spec fn view_records(&self) -> Seq<MetaView> {
        self.records@.map_values(|r: AttributionNoteMetaRow| r@)
    }

    /// An empty table.
    pub fn new() -> (t: AttributionNoteMetaTable)
        ensures
            t.view_records().len() == 0,
    {
        AttributionNoteMetaTable { records: Vec::new() }
    }

    /// Removes the record of a commit.
    pub fn clear_attribution_note_meta(&mut self, repo_id: i64, commit_sha: &String)
        ensures
            final(self).view_records() == metas_without(old(self).view_records(), repo_id, commit_sha@),
            !has_meta(final(self).view_records(), repo_id, commit_sha@),
    {
        let ghost ms = self.view_records();
        let mut kept: Vec<AttributionNoteMetaRow> = Vec::new();
        let mut i: usize = 0;
        while i < self.records.len()
            invariant
                i <= self.records@.len(),
                ms == self.view_records(),
                kept@.map_values(|r: AttributionNoteMetaRow| r@) == metas_without(ms.take(i as int), repo_id, commit_sha@),
            decreases self.records@.len() - i,
        {
            proof {
                assert(ms.take(i as int + 1).drop_last() =~= ms.take(i as int));
                assert(ms.take(i as int + 1).last() == self.records@[i as int]@);
            }
            let r = &self.records[i];
            if !(r.repo_id == repo_id && text_eq(&r.commit_sha, commit_sha)) {
                let c = AttributionNoteMetaRow { repo_id: r.repo_id, commit_sha: r.commit_sha.clone(), meta: copy_meta(&r.meta) };
                let ghost before = kept@;
                kept.push(c);
                proof {
                    assert(kept@.map_values(|r: AttributionNoteMetaRow| r@) =~= before.map_values(|r: AttributionNoteMetaRow| r@).push(c@));
                }
            }
            i = i + 1;
        }
        proof {
            assert(ms.take(ms.len() as int) =~= ms);
            lemma_metas_without(ms, repo_id, commit_sha@);
        }
        self.records = kept;
    }

    /// Sets the record of a commit, replacing any previous one.
    pub fn upsert_attribution_note_meta(&mut self, repo_id: i64, commit_sha: &String, meta: AttributionNoteMetaInput)
        ensures
            final(self).view_records() == metas_without(old(self).view_records(), repo_id, commit_sha@).push(
                meta_record(repo_id, commit_sha@, meta),
            ),
    {
        self.clear_attribution_note_meta(repo_id, commit_sha);
        let ghost before = self.records@;
        let rec = AttributionNoteMetaRow { repo_id, commit_sha: commit_sha.clone(), meta };
        self.records.push(rec);
        proof {
            assert(self.view_records() =~= before.map_values(|r: AttributionNoteMetaRow| r@).push(rec@));
        }
    }

    /// Records the outcome of importing a commit's note: an imported note's
    /// record replaces the previous one; a missing or invalid note leaves no
    /// record.
    pub fn record_note_import(
        &mut self,
        repo_id: i64,
        commit_sha: &String,
        status: NoteImportStatus,
        meta: Option<AttributionNoteMetaInput>,
    )
        ensures
            status != NoteImportStatus::Imported ==> final(self).view_records() == metas_without(
                old(self).view_records(),
                repo_id,
                commit_sha@,
            ) && !has_meta(final(self).view_records(), repo_id, commit_sha@),
            status == NoteImportStatus::Imported ==> match meta {
                Some(m) => final(self).view_records() == metas_without(old(self).view_records(), repo_id, commit_sha@).push(
                    meta_record(repo_id, commit_sha@, m),
                ),
                None => final(self).view_records() == old(self).view_records(),
            },
    {
        if status != NoteImportStatus::Imported {
            self.clear_attribution_note_meta(repo_id, commit_sha);
        } else if let Some(m) = meta {
            self.upsert_attribution_note_meta(repo_id, commit_sha, m);
        }
    }
}

} // verus!
