//! The line-attribution store: attribution rows and rewrite keys of
//! commits, with the idempotent step that populates a commit's rows.
//!
//! Populating a commit that has no rows first tries to recover them from a
//! donor commit with the same rewrite key; failing that, it attributes the
//! commit's changed ranges to the sessions linked to it: added ranges to the
//! agent, replaced ones as mixed at 50% (a coarse estimate). Files that no
//! linked session recorded go to the first linked session.

use vstd::prelude::*;

use crate::extract::{ChangeKind, ChangedRange, FileChangedRanges};
use crate::lens::{clone_opt, opt_view};
use crate::models::{AuthorType, LineAttributionCommitRow, LineAttributionRow};
use crate::extract::text_eq;

verus! {

/// A row as values: file, lines, session, author type, percentage, tool,
/// model.
pub type RowView = (Seq<char>, i32, i32, Option<Seq<char>>, AuthorType, Option<i32>, Option<Seq<char>>, Option<Seq<char>>);

impl View for LineAttributionCommitRow {
    type V = RowView;

    open spec fn view(&self) -> RowView {
        (
            self.file_path@,
            self.start_line,
            self.end_line,
            opt_view(self.session_id),
            self.author_type,
            self.ai_percentage,
            opt_view(self.tool),
            opt_view(self.model),
        )
    }
}

/// A stored row: the repository and commit it belongs to, and the row.
#[derive(Clone, Debug)]
pub struct StoredRow {
    pub repo_id: i64,
    pub commit_sha: String,
    pub row: LineAttributionCommitRow,
}

/// The current rewrite key of a commit.
#[derive(Clone, Debug)]
pub struct RewriteKeyRecord {
    pub repo_id: i64,
    pub commit_sha: String,
    pub rewrite_key: String,
    pub algorithm: String,
}

/// A session linked to a commit, with the files it recorded as a JSON array
/// of paths.
#[derive(Clone, Debug)]
pub struct LinkedSessionRow {
    pub session_id: String,
    pub tool: String,
    pub model: Option<String>,
    pub files: Option<String>,
}

/// How `ensure_line_attributions_for_commit` ended.
#[derive(Clone, Copy, Debug, PartialEq, Eq, Structural)]
pub enum EnsureOutcome {
    /// The commit already had rows.
    Present,
    /// Rows were copied from a commit with the same rewrite key.
    Recovered,
    /// Rows were computed from the linked sessions and the changed ranges.
    Computed,
    /// No rows could be made; a valid end state.
    Absent,
}

/// Rows and rewrite keys. Rewrite key records are kept from least to most
/// recently updated, at most one per commit.
#[derive(Clone, Debug)]
pub struct LineAttributionStore {
    pub rows: Vec<StoredRow>,
    pub keys: Vec<RewriteKeyRecord>,
}

/// A stored row as values.
pub type StoredView = (i64, Seq<char>, RowView);

/// A rewrite key record as values.
pub type KeyView = (i64, Seq<char>, Seq<char>, Seq<char>);

impl View for StoredRow {
    type V = StoredView;

    open spec fn view(&self) -> StoredView {
        (self.repo_id, self.commit_sha@, self.row@)
    }
}

impl View for RewriteKeyRecord {
    type V = KeyView;

    open spec fn view(&self) -> KeyView {
        (self.repo_id, self.commit_sha@, self.rewrite_key@, self.algorithm@)
    }
}

/// The store as values.
pub type StoreView = (Seq<StoredView>, Seq<KeyView>);

impl View for LineAttributionStore {
    type V = StoreView;

    open spec fn view(&self) -> StoreView {
        (self.rows@.map_values(|r: StoredRow| r@), self.keys@.map_values(|k: RewriteKeyRecord| k@))
    }
}

/// At most one rewrite key record per commit.
pub open spec fn keys_unique(keys: Seq<KeyView>) -> bool {
    forall|i: int, j: int| 0 <= i < j < keys.len() ==> !((#[trigger] keys[i]).0 == (#[trigger] keys[j]).0 && keys[i].1 == keys[j].1)
}

impl LineAttributionStore {
    /// The store's invariant.
    pub open spec fn wf(&self) -> bool {
        keys_unique(self@.1)
    }
}

/// Whether the commit has rows.
pub open spec fn has_rows(rows: Seq<StoredView>, repo: i64, commit: Seq<char>) -> bool {
    exists|i: int| 0 <= i < rows.len() && (#[trigger] rows[i]).0 == repo && rows[i].1 == commit
}

/// The rows of a commit, in order.
pub open spec fn rows_of(rows: Seq<StoredView>, repo: i64, commit: Seq<char>) -> Seq<RowView>
    decreases rows.len(),
{
    if rows.len() == 0 {
        Seq::empty()
    } else if rows.last().0 == repo && rows.last().1 == commit {
        rows_of(rows.drop_last(), repo, commit).push(rows.last().2)
    } else {
        rows_of(rows.drop_last(), repo, commit)
    }
}

/// Rows attached to a commit.
pub open spec fn tag_rows(rvs: Seq<RowView>, repo: i64, commit: Seq<char>) -> Seq<StoredView> {
    rvs.map_values(|rv: RowView| (repo, commit, rv))
}

/// Index of the record of a commit, or the number of records.
pub open spec fn key_index(keys: Seq<KeyView>, repo: i64, commit: Seq<char>) -> int
    decreases keys.len(),
{
    if keys.len() == 0 {
        0
    } else {
        let p = key_index(keys.drop_last(), repo, commit);
        if p < keys.len() - 1 {
            p
        } else if keys.last().0 == repo && keys.last().1 == commit {
            keys.len() - 1
        } else {
            keys.len() as int
        }
    }
}

/// The records after setting a commit's key: its old record goes, the new
/// one becomes the most recent.
pub open spec fn upsert_spec(keys: Seq<KeyView>, repo: i64, commit: Seq<char>, key: Seq<char>, alg: Seq<char>) -> Seq<KeyView> {
    let p = key_index(keys, repo, commit);
    let rest = if p < keys.len() {
        keys.remove(p)
    } else {
        keys
    };
    rest.push((repo, commit, key, alg))
}

/// Whether a record names a donor for `commit`: same repository and key,
/// another commit, one that has rows.
pub open spec fn is_donor(rows: Seq<StoredView>, k: KeyView, repo: i64, key: Seq<char>, commit: Seq<char>) -> bool {
    k.0 == repo && k.2 == key && k.1 != commit && has_rows(rows, repo, k.1)
}

/// The most recently updated donor, if any.
pub open spec fn donor_spec(rows: Seq<StoredView>, keys: Seq<KeyView>, repo: i64, key: Seq<char>, commit: Seq<char>) -> Option<Seq<char>>
    decreases keys.len(),
{
    if keys.len() == 0 {
        None
    } else if is_donor(rows, keys.last(), repo, key, commit) {
        Some(keys.last().1)
    } else {
        donor_spec(rows, keys.drop_last(), repo, key, commit)
    }
}

/// Relies on `serde_json::from_str::<Vec<String>>`: the strings when the
/// text is a JSON array of strings.
pub uninterp spec fn json_string_array(s: Seq<char>) -> Option<Seq<Seq<char>>>;

/// Relies on `serde_json::from_str::<Vec<String>>`: the strings of a JSON
/// array of strings, or nothing when the text is not one.
#[verifier::external_body]
fn parse_string_array(s: &str) -> (r: Option<Vec<String>>)
    ensures
        r matches Some(v) ==> json_string_array(s@) == Some(v@.map_values(|x: String| x@)),
        r is None ==> json_string_array(s@) is None,
{
    serde_json::from_str::<Vec<String>>(s).ok()
}

/// The files that a session recorded: none when it recorded nothing or the
/// record is not a JSON array of strings.
pub open spec fn session_files_spec(files: Option<String>) -> Seq<Seq<char>> {
    match files {
        Some(s) => match json_string_array(s@) {
            Some(v) => v,
            None => Seq::empty(),
        },
        None => Seq::empty(),
    }
}

/// Reads the files that a session recorded.
pub fn parse_session_files(raw: &Option<String>) -> (files: Vec<String>)
    ensures
        files@.map_values(|x: String| x@) == session_files_spec(*raw),
{
    match raw {
        Some(s) => match parse_string_array(s.as_str()) {
            Some(v) => v,
            None => Vec::new(),
        },
        None => Vec::new(),
    }
}

/// The sessions that a file goes to: those that recorded it, or the first.
pub open spec fn matched_sessions(files: Seq<Seq<Seq<char>>>, path: Seq<char>) -> Seq<int>
    decreases files.len(),
{
    if files.len() == 0 {
        Seq::empty()
    } else if files.last().contains(path) {
        matched_sessions(files.drop_last(), path).push(files.len() - 1)
    } else {
        matched_sessions(files.drop_last(), path)
    }
}

/// The sessions that a file's rows go to.
pub open spec fn target_sessions(files: Seq<Seq<Seq<char>>>, path: Seq<char>) -> Seq<int> {
    let m = matched_sessions(files, path);
    if m.len() == 0 {
        seq![0int]
    } else {
        m
    }
}

/// The row of one changed range and one session: added ranges go to the
/// agent; replaced ones are mixed at 50%.
pub open spec fn planned_row(path: Seq<char>, r: ChangedRange, s: LinkedSessionRow) -> RowView {
    (
        path,
        r.start_line,
        r.end_line,
        Some(s.session_id@),
        if r.kind == ChangeKind::Added {
            AuthorType::AiAgent
        } else {
            AuthorType::Mixed
        },
        if r.kind == ChangeKind::Added {
            None
        } else {
            Some(50i32)
        },
        Some(s.tool@),
        opt_view(s.model),
    )
}

/// The rows of one changed range, one per target session.
pub open spec fn range_rows(path: Seq<char>, r: ChangedRange, sessions: Seq<LinkedSessionRow>, targets: Seq<int>) -> Seq<RowView> {
    targets.map_values(|t: int| planned_row(path, r, sessions[t]))
}

/// The rows of one file's changed ranges.
pub open spec fn file_rows(path: Seq<char>, ranges: Seq<ChangedRange>, sessions: Seq<LinkedSessionRow>, targets: Seq<int>) -> Seq<RowView>
    decreases ranges.len(),
{
    if ranges.len() == 0 {
        Seq::empty()
    } else {
        file_rows(path, ranges.drop_last(), sessions, targets) + range_rows(path, ranges.last(), sessions, targets)
    }
}

/// The rows computed for a commit from its linked sessions and changed
/// ranges.
pub open spec fn plan_spec(sessions: Seq<LinkedSessionRow>, changes: Seq<FileChangedRanges>) -> Seq<RowView>
    decreases changes.len(),
{
    if changes.len() == 0 {
        Seq::empty()
    } else {
        let f = changes.last();
        let files = sessions.map_values(|s: LinkedSessionRow| session_files_spec(s.files));
        plan_spec(sessions, changes.drop_last()) + file_rows(f.file_path@, f.ranges@, sessions, target_sessions(files, f.file_path@))
    }
}

/// The store after `ensure_line_attributions_for_commit`, and how it ended.
pub open spec fn ensure_spec(
    st: StoreView,
    repo: i64,
    commit: Seq<char>,
    key: Option<Seq<char>>,
    sessions: Seq<LinkedSessionRow>,
    changes: Seq<FileChangedRanges>,
) -> (StoreView, EnsureOutcome) {
    if has_rows(st.0, repo, commit) {
        (st, EnsureOutcome::Present)
    } else {
        let keys1 = match key {
            Some(k) => upsert_spec(st.1, repo, commit, k, "patch-id"@),
            None => st.1,
        };
        let donor = match key {
            Some(k) => donor_spec(st.0, keys1, repo, k, commit),
            None => None,
        };
        match donor {
            Some(d) => ((st.0 + tag_rows(rows_of(st.0, repo, d), repo, commit), keys1), EnsureOutcome::Recovered),
            None => if sessions.len() == 0 {
                ((st.0, keys1), EnsureOutcome::Absent)
            } else {
                let planned = plan_spec(sessions, changes);
                let keys2 = match key {
                    Some(k) => upsert_spec(keys1, repo, commit, k, "patch-id"@),
                    None => keys1,
                };
                (
                    (st.0 + tag_rows(planned, repo, commit), keys2),
                    if planned.len() == 0 {
                        EnsureOutcome::Absent
                    } else {
                        EnsureOutcome::Computed
                    },
                )
            },
        }
    }
}

/// A copy of a row.
pub fn copy_row(r: &LineAttributionCommitRow) -> (c: LineAttributionCommitRow)
    ensures
        c@ == r@,
{
    LineAttributionCommitRow {
        file_path: r.file_path.clone(),
        start_line: r.start_line,
        end_line: r.end_line,
        session_id: clone_opt(&r.session_id),
        author_type: r.author_type,
        ai_percentage: r.ai_percentage,
        tool: clone_opt(&r.tool),
        model: clone_opt(&r.model),
    }
}

/// The views of a list of rows.
pub open spec fn rows_view(rows: Seq<LineAttributionCommitRow>) -> Seq<RowView> {
    rows.map_values(|r: LineAttributionCommitRow| r@)
}

impl LineAttributionStore {
    /// An empty store.
    pub fn new() -> (st: LineAttributionStore)
        ensures
            st@.0.len() == 0,
            st@.1.len() == 0,
            st.wf(),
    {
        let st = LineAttributionStore { rows: Vec::new(), keys: Vec::new() };
        proof {
            assert(st@.0 =~= Seq::<StoredView>::empty());
            assert(st@.1 =~= Seq::<KeyView>::empty());
        }
        st
    }

    /// Whether the commit has rows.
    pub fn line_attributions_exist(&self, repo_id: i64, commit_sha: &String) -> (r: bool)
        ensures
            r == has_rows(self@.0, repo_id, commit_sha@),
    {
        let ghost rows = self@.0;
        let mut i: usize = 0;
        while i < self.rows.len()
            invariant
                i <= self.rows@.len(),
                rows == self@.0,
                forall|k: int| 0 <= k < i ==> !((#[trigger] rows[k]).0 == repo_id && rows[k].1 == commit_sha@),
            decreases self.rows@.len() - i,
        {
            let r = &self.rows[i];
            proof {
                assert(rows[i as int] == r@);
            }
            if r.repo_id == repo_id && text_eq(&r.commit_sha, commit_sha) {
                return true;
            }
            i = i + 1;
        }
        false
    }

    /// The rows of a commit, in the order they were stored.
    pub fn fetch_line_attributions_for_commit(&self, repo_id: i64, commit_sha: &String) -> (out: Vec<LineAttributionCommitRow>)
        ensures
            rows_view(out@) == rows_of(self@.0, repo_id, commit_sha@),
    {
        let ghost rows = self@.0;
        let mut out: Vec<LineAttributionCommitRow> = Vec::new();
        let mut i: usize = 0;
        while i < self.rows.len()
            invariant
                i <= self.rows@.len(),
                rows == self@.0,
                rows_view(out@) == rows_of(rows.take(i as int), repo_id, commit_sha@),
            decreases self.rows@.len() - i,
        {
            proof {
                assert(rows.take(i as int + 1).drop_last() =~= rows.take(i as int));
                assert(rows.take(i as int + 1).last() == self.rows@[i as int]@);
            }
            let r = &self.rows[i];
            if r.repo_id == repo_id && text_eq(&r.commit_sha, commit_sha) {
                let ghost before = out@;
                let c = copy_row(&r.row);
                out.push(c);
                proof {
                    assert(rows_view(out@) =~= rows_view(before).push(c@));
                }
            }
            i = i + 1;
        }
        proof {
            assert(rows.take(rows.len() as int) =~= rows);
        }
        out
    }

    /// Appends rows to a commit.
    pub fn insert_rows(&mut self, repo_id: i64, commit_sha: &String, rows: &Vec<LineAttributionCommitRow>)
        ensures
            final(self)@.0 == old(self)@.0 + tag_rows(rows_view(rows@), repo_id, commit_sha@),
            final(self)@.1 == old(self)@.1,
            final(self).wf() == old(self).wf(),
    {
        let ghost base = self@.0;
        let mut i: usize = 0;
        while i < rows.len()
            invariant
                i <= rows@.len(),
                self@.0 == base + tag_rows(rows_view(rows@.take(i as int)), repo_id, commit_sha@),
                self@.1 == old(self)@.1,
            decreases rows@.len() - i,
        {
            let ghost before = self.rows@;
            let rec = StoredRow { repo_id, commit_sha: commit_sha.clone(), row: copy_row(&rows[i]) };
            self.rows.push(rec);
            i = i + 1;
            proof {
                assert(self.rows@ == before.push(rec));
                assert(self@.0 =~= before.map_values(|r: StoredRow| r@).push(rec@));
                assert(tag_rows(rows_view(rows@.take(i as int)), repo_id, commit_sha@) =~= tag_rows(
                    rows_view(rows@.take(i - 1)),
                    repo_id,
                    commit_sha@,
                ).push((repo_id, commit_sha@, rows@[i - 1]@)));
            }
        }
        proof {
            assert(rows@.take(rows@.len() as int) =~= rows@);
        }
    }

    /// Sets the rewrite key of a commit, replacing its previous one.
    pub fn store_rewrite_key(&mut self, repo_id: i64, commit_sha: &String, rewrite_key: &String, algorithm: &String)
        requires
            old(self).wf(),
        ensures
            final(self).wf(),
            final(self)@.0 == old(self)@.0,
            final(self)@.1 == upsert_spec(old(self)@.1, repo_id, commit_sha@, rewrite_key@, algorithm@),
    {
        let ghost keys = self@.1;
        let mut p: usize = 0;
        while p < self.keys.len() && !(self.keys[p].repo_id == repo_id && text_eq(&self.keys[p].commit_sha, commit_sha))
            invariant
                p <= self.keys@.len(),
                keys == self@.1,
                forall|k: int| 0 <= k < p ==> !((#[trigger] keys[k]).0 == repo_id && keys[k].1 == commit_sha@),
            decreases self.keys@.len() - p,
        {
            p = p + 1;
        }
        proof {
            if p < keys.len() {
                assert(keys[p as int] == self.keys@[p as int]@);
            }
            lemma_key_index(keys, repo_id, commit_sha@, p as int);
        }
        if p < self.keys.len() {
            let ghost before = self.keys@;
            self.keys.remove(p);
            proof {
                assert(self.keys@.map_values(|k: RewriteKeyRecord| k@) =~= keys.remove(p as int));
            }
        }
        let ghost mid = self.keys@;
        let rec = RewriteKeyRecord {
            repo_id,
            commit_sha: commit_sha.clone(),
            rewrite_key: rewrite_key.clone(),
            algorithm: algorithm.clone(),
        };
        self.keys.push(rec);
        proof {
            assert(self@.1 =~= mid.map_values(|k: RewriteKeyRecord| k@).push(rec@));
            let nk = self@.1;
            assert forall|i: int, j: int| 0 <= i < j < nk.len() implies !((#[trigger] nk[i]).0 == (#[trigger] nk[j]).0 && nk[i].1 == nk[j].1) by {
                let rest = mid.map_values(|k: RewriteKeyRecord| k@);
                if j == nk.len() - 1 {
                    assert(nk[i] == rest[i]);
                    if p < keys.len() {
                        let q = if i < p { i } else { i + 1 };
                        assert(rest[i] == keys[q]);
                        if q > p {
                            assert(!(keys[p as int].0 == keys[q].0 && keys[p as int].1 == keys[q].1));
                        }
                    } else {
                        assert(rest[i] == keys[i]);
                    }
                } else {
                    assert(nk[i] == rest[i] && nk[j] == rest[j]);
                    if p < keys.len() {
                        let qi = if i < p { i } else { i + 1 };
                        let qj = if j < p { j } else { j + 1 };
                        assert(rest[i] == keys[qi] && rest[j] == keys[qj]);
                    } else {
                        assert(rest[i] == keys[i] && rest[j] == keys[j]);
                    }
                }
            }
        }
    }

    /// The most recently updated commit of the same repository with the
    /// same rewrite key, other than `commit_sha`, that has rows.
    pub fn find_commit_by_rewrite_key(&self, repo_id: i64, rewrite_key: &String, commit_sha: &String) -> (r: Option<String>)
        ensures
            opt_view(r) == donor_spec(self@.0, self@.1, repo_id, rewrite_key@, commit_sha@),
    {
        let ghost keys = self@.1;
        let mut i: usize = self.keys.len();
        proof {
            assert(keys.take(keys.len() as int) =~= keys);
        }
        while i > 0
            invariant
                i <= self.keys@.len(),
                keys == self@.1,
                donor_spec(self@.0, keys, repo_id, rewrite_key@, commit_sha@) == donor_spec(self@.0, keys.take(i as int), repo_id, rewrite_key@, commit_sha@),
            decreases i,
        {
            let k = &self.keys[i - 1];
            proof {
                assert(keys.take(i as int).last() == k@);
                assert(keys.take(i as int).drop_last() =~= keys.take(i - 1));
            }
            if k.repo_id == repo_id && text_eq(&k.rewrite_key, rewrite_key) && !text_eq(&k.commit_sha, commit_sha)
                && self.line_attributions_exist(repo_id, &k.commit_sha) {
                return Some(k.commit_sha.clone());
            }
            i = i - 1;
        }
        proof {
            assert(keys.take(0).len() == 0);
        }
        None
    }

    /// Copies the rows of one commit to another; returns how many.
    pub fn copy_line_attributions(&mut self, repo_id: i64, source_commit: &String, target_commit: &String) -> (n: usize)
        ensures
            final(self)@.0 == old(self)@.0 + tag_rows(rows_of(old(self)@.0, repo_id, source_commit@), repo_id, target_commit@),
            final(self)@.1 == old(self)@.1,
            final(self).wf() == old(self).wf(),
            n == rows_of(old(self)@.0, repo_id, source_commit@).len(),
    {
        let rows = self.fetch_line_attributions_for_commit(repo_id, source_commit);
        self.insert_rows(repo_id, target_commit, &rows);
        rows.len()
    }
}

proof fn lemma_key_index(keys: Seq<KeyView>, repo: i64, commit: Seq<char>, p: int)
    requires
        0 <= p <= keys.len(),
        forall|k: int| 0 <= k < p ==> !((#[trigger] keys[k]).0 == repo && keys[k].1 == commit),
        p < keys.len() ==> keys[p].0 == repo && keys[p].1 == commit,
    ensures
        key_index(keys, repo, commit) == p,
    decreases keys.len(),
{
    if keys.len() > 0 {
        let d = keys.drop_last();
        if p < keys.len() - 1 {
            lemma_key_index(d, repo, commit, p);
        } else {
            lemma_key_index(d, repo, commit, d.len() as int);
        }
    }
}

/// Whether a list of paths holds `path`.
fn contains_path(files: &Vec<String>, path: &String) -> (r: bool)
    ensures
        r == files@.map_values(|x: String| x@).contains(path@),
{
    let ghost fv = files@.map_values(|x: String| x@);
    let mut i: usize = 0;
    while i < files.len()
        invariant
            i <= files@.len(),
            fv == files@.map_values(|x: String| x@),
            forall|k: int| 0 <= k < i ==> fv[k] != path@,
        decreases files@.len() - i,
    {
        if text_eq(&files[i], path) {
            proof {
                assert(fv[i as int] == path@);
            }
            return true;
        }
        i = i + 1;
    }
    false
}

/// The sessions that a file's rows go to.
fn targets_for(session_files: &Vec<Vec<String>>, path: &String) -> (t: Vec<usize>)
    ensures
        t@.map_values(|x: usize| x as int) == target_sessions(
            session_files@.map_values(|v: Vec<String>| v@.map_values(|x: String| x@)),
            path@,
        ),
{
    let ghost fs = session_files@.map_values(|v: Vec<String>| v@.map_values(|x: String| x@));
    let mut t: Vec<usize> = Vec::new();
    let mut i: usize = 0;
    while i < session_files.len()
        invariant
            i <= session_files@.len(),
            fs == session_files@.map_values(|v: Vec<String>| v@.map_values(|x: String| x@)),
            t@.map_values(|x: usize| x as int) == matched_sessions(fs.take(i as int), path@),
        decreases session_files@.len() - i,
    {
        proof {
            assert(fs.take(i as int + 1).drop_last() =~= fs.take(i as int));
            assert(fs.take(i as int + 1).last() == fs[i as int]);
        }
        let ghost before = t@;
        if contains_path(&session_files[i], path) {
            t.push(i);
            proof {
                assert(t@.map_values(|x: usize| x as int) =~= before.map_values(|x: usize| x as int).push(i as int));
            }
        }
        i = i + 1;
    }
    proof {
        assert(fs.take(fs.len() as int) =~= fs);
    }
    if t.len() == 0 {
        let mut z: Vec<usize> = Vec::new();
        z.push(0);
        proof {
            assert(z@.map_values(|x: usize| x as int) =~= seq![0int]);
        }
        z
    } else {
        t
    }
}

/// The rows computed for a commit: for each file, each of its changed
/// ranges, and each session it goes to, one row.
pub fn plan_line_attributions(sessions: &Vec<LinkedSessionRow>, changes: &Vec<FileChangedRanges>) -> (rows: Vec<LineAttributionCommitRow>)
    requires
        sessions@.len() > 0,
    ensures
        rows_view(rows@) == plan_spec(sessions@, changes@),
{
    let mut session_files: Vec<Vec<String>> = Vec::new();
    let mut s: usize = 0;
    while s < sessions.len()
        invariant
            s <= sessions@.len(),
            session_files@.len() == s,
            forall|k: int| 0 <= k < s ==> (#[trigger] session_files@[k])@.map_values(|x: String| x@)
                == session_files_spec(sessions@[k].files),
        decreases sessions@.len() - s,
    {
        session_files.push(parse_session_files(&sessions[s].files));
        s = s + 1;
    }
    let ghost fs = session_files@.map_values(|v: Vec<String>| v@.map_values(|x: String| x@));
    proof {
        assert(fs =~= sessions@.map_values(|x: LinkedSessionRow| session_files_spec(x.files)));
    }
    let mut rows: Vec<LineAttributionCommitRow> = Vec::new();
    let mut i: usize = 0;
    proof {
        assert(rows_view(rows@) =~= Seq::<RowView>::empty());
    }
    while i < changes.len()
        invariant
            i <= changes@.len(),
            sessions@.len() > 0,
            fs == session_files@.map_values(|v: Vec<String>| v@.map_values(|x: String| x@)),
            fs == sessions@.map_values(|x: LinkedSessionRow| session_files_spec(x.files)),
            session_files@.len() == sessions@.len(),
            rows_view(rows@) == plan_spec(sessions@, changes@.take(i as int)),
        decreases changes@.len() - i,
    {
        let f = &changes[i];
        proof {
            assert(changes@.take(i as int + 1).drop_last() =~= changes@.take(i as int));
            assert(changes@.take(i as int + 1).last() == *f);
        }
        let targets = targets_for(&session_files, &f.file_path);
        let ghost tv = targets@.map_values(|x: usize| x as int);
        proof {
            assert forall|k: int| 0 <= k < targets@.len() implies (#[trigger] targets@[k]) < sessions@.len() by {
                assert(tv[k] == targets@[k] as int);
                lemma_targets_in_range(fs, f.file_path@);
            }
        }
        let ghost base = rows_view(rows@);
        let mut r: usize = 0;
        while r < f.ranges.len()
            invariant
                r <= f.ranges@.len(),
                forall|k: int| 0 <= k < targets@.len() ==> (#[trigger] targets@[k]) < sessions@.len(),
                tv == targets@.map_values(|x: usize| x as int),
                rows_view(rows@) == base + file_rows(f.file_path@, f.ranges@.take(r as int), sessions@, tv),
            decreases f.ranges@.len() - r,
        {
            let range = f.ranges[r];
            proof {
                assert(f.ranges@.take(r as int + 1).drop_last() =~= f.ranges@.take(r as int));
                assert(f.ranges@.take(r as int + 1).last() == range);
            }
            let ghost mid = rows_view(rows@);
            let mut t: usize = 0;
            while t < targets.len()
                invariant
                    t <= targets@.len(),
                    forall|k: int| 0 <= k < targets@.len() ==> (#[trigger] targets@[k]) < sessions@.len(),
                    tv == targets@.map_values(|x: usize| x as int),
                    rows_view(rows@) == mid + tv.take(t as int).map_values(|x: int| planned_row(f.file_path@, range, sessions@[x])),
                decreases targets@.len() - t,
            {
                let sess = &sessions[targets[t]];
                let added = match range.kind {
                    ChangeKind::Added => true,
                    ChangeKind::Modified => false,
                };
                let row = LineAttributionCommitRow {
                    file_path: f.file_path.clone(),
                    start_line: range.start_line,
                    end_line: range.end_line,
                    session_id: Some(sess.session_id.clone()),
                    author_type: if added { AuthorType::AiAgent } else { AuthorType::Mixed },
                    ai_percentage: if added { None } else { Some(50) },
                    tool: Some(sess.tool.clone()),
                    model: clone_opt(&sess.model),
                };
                let ghost before = rows@;
                rows.push(row);
                t = t + 1;
                proof {
                    assert(row@ == planned_row(f.file_path@, range, sessions@[tv[t - 1]]));
                    assert(rows_view(rows@) =~= rows_view(before).push(row@));
                    assert(tv.take(t as int).map_values(|x: int| planned_row(f.file_path@, range, sessions@[x])) =~= tv.take(t - 1).map_values(
                        |x: int| planned_row(f.file_path@, range, sessions@[x]),
                    ).push(planned_row(f.file_path@, range, sessions@[tv[t - 1]])));
                }
            }
            proof {
                assert(tv.take(tv.len() as int) =~= tv);
                assert(range_rows(f.file_path@, range, sessions@, tv) == tv.map_values(|x: int| planned_row(f.file_path@, range, sessions@[x])));
                assert(rows_view(rows@) =~= base + file_rows(f.file_path@, f.ranges@.take(r as int + 1), sessions@, tv));
            }
            r = r + 1;
        }
        proof {
            assert(f.ranges@.take(f.ranges@.len() as int) =~= f.ranges@);
        }
        i = i + 1;
    }
    proof {
        assert(changes@.take(changes@.len() as int) =~= changes@);
    }
    rows
}

proof fn lemma_targets_in_range(fs: Seq<Seq<Seq<char>>>, path: Seq<char>)
    ensures
        forall|k: int| 0 <= k < target_sessions(fs, path).len() ==> 0 <= #[trigger] target_sessions(fs, path)[k] < fs.len() || (
            fs.len() == 0 && target_sessions(fs, path)[k] == 0),
{
    lemma_matched_in_range(fs, path);
}

proof fn lemma_matched_in_range(fs: Seq<Seq<Seq<char>>>, path: Seq<char>)
    ensures
        forall|k: int| 0 <= k < matched_sessions(fs, path).len() ==> 0 <= #[trigger] matched_sessions(fs, path)[k] < fs.len(),
    decreases fs.len(),
{
    if fs.len() > 0 {
        let d = fs.drop_last();
        lemma_matched_in_range(d, path);
        let m = matched_sessions(fs, path);
        let pm = matched_sessions(d, path);
        assert forall|k: int| 0 <= k < m.len() implies 0 <= #[trigger] m[k] < fs.len() by {
            if k < pm.len() {
                assert(m[k] == pm[k]);
            }
        }
    }
}

impl LineAttributionStore {
    /// Makes sure a commit has rows, if any can be had.
    ///
    /// Nothing changes when the commit has rows. Otherwise its rewrite key
    /// (when known) is stored, and the rows of the most recently updated
    /// commit with the same key are copied; failing that, rows are computed
    /// from the linked sessions (see `plan_line_attributions`) and the key is
    /// stored again. With no linked session the commit stays without rows.
    pub fn ensure_line_attributions_for_commit(
        &mut self,
        repo_id: i64,
        commit_sha: &String,
        rewrite_key: &Option<String>,
        sessions: &Vec<LinkedSessionRow>,
        changes: &Vec<FileChangedRanges>,
    ) -> (outcome: EnsureOutcome)
        requires
            old(self).wf(),
        ensures
            final(self).wf(),
            (final(self)@, outcome) == ensure_spec(old(self)@, repo_id, commit_sha@, opt_view(*rewrite_key), sessions@, changes@),
    {
        if self.line_attributions_exist(repo_id, commit_sha) {
            return EnsureOutcome::Present;
        }
        let algorithm = crate::rewrite::REWRITE_KEY_ALGORITHM.to_owned();
        proof {
            reveal_strlit("patch-id");
        }
        if let Some(key) = rewrite_key {
            self.store_rewrite_key(repo_id, commit_sha, key, &algorithm);
            if let Some(donor) = self.find_commit_by_rewrite_key(repo_id, key, commit_sha) {
                self.copy_line_attributions(repo_id, &donor, commit_sha);
                return EnsureOutcome::Recovered;
            }
        }
        if sessions.len() == 0 {
            return EnsureOutcome::Absent;
        }
        let planned = plan_line_attributions(sessions, changes);
        self.insert_rows(repo_id, commit_sha, &planned);
        if let Some(key) = rewrite_key {
            self.store_rewrite_key(repo_id, commit_sha, key, &algorithm);
        }
        if planned.len() == 0 {
            EnsureOutcome::Absent
        } else {
            EnsureOutcome::Computed
        }
    }
}

proof fn lemma_donor_remove(rows: Seq<StoredView>, keys: Seq<KeyView>, p: int, repo: i64, key: Seq<char>, commit: Seq<char>)
    requires
        0 <= p < keys.len(),
        keys[p].1 == commit,
    ensures
        donor_spec(rows, keys.remove(p), repo, key, commit) == donor_spec(rows, keys, repo, key, commit),
    decreases keys.len(),
{
    if p == keys.len() - 1 {
        assert(keys.remove(p) =~= keys.drop_last());
    } else {
        let r = keys.remove(p);
        assert(r.last() == keys.last());
        assert(r.drop_last() =~= keys.drop_last().remove(p));
        lemma_donor_remove(rows, keys.drop_last(), p, repo, key, commit);
    }
}

/// Setting a commit's own rewrite key does not change which donor the
/// commit finds.
proof fn lemma_donor_upsert(rows: Seq<StoredView>, keys: Seq<KeyView>, repo: i64, commit: Seq<char>, k: Seq<char>, alg: Seq<char>, key: Seq<char>)
    ensures
        donor_spec(rows, upsert_spec(keys, repo, commit, k, alg), repo, key, commit) == donor_spec(rows, keys, repo, key, commit),
{
    let p = key_index(keys, repo, commit);
    lemma_key_index_found(keys, repo, commit);
    let u = upsert_spec(keys, repo, commit, k, alg);
    assert(u.drop_last() == (if p < keys.len() { keys.remove(p) } else { keys }));
    if p < keys.len() {
        lemma_donor_remove(rows, keys, p, repo, key, commit);
    }
}

proof fn lemma_key_index_found(keys: Seq<KeyView>, repo: i64, commit: Seq<char>)
    ensures
        0 <= key_index(keys, repo, commit) <= keys.len(),
        key_index(keys, repo, commit) < keys.len() ==> keys[key_index(keys, repo, commit)].1 == commit,
    decreases keys.len(),
{
    if keys.len() > 0 {
        lemma_key_index_found(keys.drop_last(), repo, commit);
    }
}

proof fn lemma_rows_of_nonempty(rows: Seq<StoredView>, repo: i64, commit: Seq<char>)
    requires
        has_rows(rows, repo, commit),
    ensures
        rows_of(rows, repo, commit).len() > 0,
    decreases rows.len(),
{
    let i = choose|i: int| 0 <= i < rows.len() && (#[trigger] rows[i]).0 == repo && rows[i].1 == commit;
    if i < rows.len() - 1 {
        let d = rows.drop_last();
        assert(d[i] == rows[i]);
        lemma_rows_of_nonempty(d, repo, commit);
    }
}

proof fn lemma_tagged_has_rows(rows: Seq<StoredView>, rvs: Seq<RowView>, repo: i64, commit: Seq<char>)
    requires
        rvs.len() > 0,
    ensures
        has_rows(rows + tag_rows(rvs, repo, commit), repo, commit),
{
    let all = rows + tag_rows(rvs, repo, commit);
    assert(all[rows.len() as int] == (repo, commit, rvs[0]));
}

/// Populating a commit twice leaves the same rows as populating it once:
/// after the first call the commit either has rows, so that the second call
/// changes nothing, or no rows could be made, and the second call finds the
/// same donor (none) and plans the same rows (none).
pub proof fn lemma_ensure_idempotent(
    st: StoreView,
    repo: i64,
    commit: Seq<char>,
    key: Option<Seq<char>>,
    sessions: Seq<LinkedSessionRow>,
    changes: Seq<FileChangedRanges>,
)
    ensures
        ensure_spec(ensure_spec(st, repo, commit, key, sessions, changes).0, repo, commit, key, sessions, changes).0.0
            == ensure_spec(st, repo, commit, key, sessions, changes).0.0,
{
    let s1 = ensure_spec(st, repo, commit, key, sessions, changes).0;
    if has_rows(st.0, repo, commit) {
        return;
    }
    let keys1 = match key {
        Some(k) => upsert_spec(st.1, repo, commit, k, "patch-id"@),
        None => st.1,
    };
    let donor = match key {
        Some(k) => donor_spec(st.0, keys1, repo, k, commit),
        None => None,
    };
    if let Some(k) = key {
        lemma_donor_upsert(st.0, st.1, repo, commit, k, "patch-id"@, k);
    }
    match donor {
        Some(d) => {
            let k = key->0;
            lemma_donor_is_donor(st.0, keys1, repo, k, commit);
            lemma_rows_of_nonempty(st.0, repo, d);
            lemma_tagged_has_rows(st.0, rows_of(st.0, repo, d), repo, commit);
        },
        None => {
            let planned = plan_spec(sessions, changes);
            if sessions.len() > 0 && planned.len() > 0 {
                lemma_tagged_has_rows(st.0, planned, repo, commit);
            } else {
                if sessions.len() > 0 {
                    assert(st.0 + tag_rows(planned, repo, commit) =~= st.0);
                }
                assert(s1.0 == st.0);
                if let Some(k) = key {
                    let keys2 = s1.1;
                    lemma_donor_upsert(st.0, keys2, repo, commit, k, "patch-id"@, k);
                    if sessions.len() > 0 {
                        lemma_donor_upsert(st.0, keys1, repo, commit, k, "patch-id"@, k);
                    }
                }
            }
        },
    }
}

proof fn lemma_donor_is_donor(rows: Seq<StoredView>, keys: Seq<KeyView>, repo: i64, key: Seq<char>, commit: Seq<char>)
    requires
        donor_spec(rows, keys, repo, key, commit) is Some,
    ensures
        has_rows(rows, repo, donor_spec(rows, keys, repo, key, commit)->0),
    decreases keys.len(),
{
    if !is_donor(rows, keys.last(), repo, key, commit) {
        lemma_donor_is_donor(rows, keys.drop_last(), repo, key, commit);
    }
}

pub proof fn lemma_insert_multiset<A>(s: Seq<A>, i: int, x: A)
    requires
        0 <= i <= s.len(),
    ensures
        s.insert(i, x).to_multiset() == s.to_multiset().insert(x),
{
    let t = s.insert(i, x);
    s.insert_ensures(i, x);
    assert(t.remove(i) =~= s);
    t.to_multiset_ensures();
    assert(t.contains(x)) by {
        assert(t[i] == x);
    }
    assert(t.to_multiset() =~= s.to_multiset().insert(x));
}

/// Index of the first row that starts after line `v`, or the number of rows.
pub open spec fn first_after(s: Seq<LineAttributionRow>, v: i32) -> int
    decreases s.len(),
{
    if s.len() == 0 {
        0
    } else {
        let p = first_after(s.drop_last(), v);
        if p < s.len() - 1 {
            p
        } else if s.last().start_line > v {
            s.len() - 1
        } else {
            s.len() as int
        }
    }
}

/// Rows sorted by first line by insertion: each row goes after every row
/// already placed that starts on the same line or before, so rows that
/// start on the same line keep their order.
pub open spec fn sorted_rows(rows: Seq<LineAttributionRow>) -> Seq<LineAttributionRow>
    decreases rows.len(),
{
    if rows.len() == 0 {
        Seq::empty()
    } else {
        let s = sorted_rows(rows.drop_last());
        s.insert(first_after(s, rows.last().start_line), rows.last())
    }
}

proof fn lemma_first_after(s: Seq<LineAttributionRow>, v: i32, p: int)
    requires
        0 <= p <= s.len(),
        forall|k: int| 0 <= k < p ==> (#[trigger] s[k]).start_line <= v,
        p < s.len() ==> s[p].start_line > v,
    ensures
        first_after(s, v) == p,
    decreases s.len(),
{
    if s.len() > 0 {
        let d = s.drop_last();
        if p < s.len() - 1 {
            lemma_first_after(d, v, p);
        } else {
            lemma_first_after(d, v, d.len() as int);
        }
    }
}

/// Sorts rows by first line, keeping the order of rows that start on the
/// same line.
pub fn sort_rows_by_start(rows: Vec<LineAttributionRow>) -> (out: Vec<LineAttributionRow>)
    ensures
        out@ == sorted_rows(rows@),
        out@.to_multiset() == rows@.to_multiset(),
        forall|i: int, j: int| 0 <= i <= j < out@.len() ==> (#[trigger] out@[i]).start_line <= (#[trigger] out@[j]).start_line,
{
    let mut out: Vec<LineAttributionRow> = Vec::new();
    let mut rest = rows;
    let ghost all = rest@;
    let mut i: usize = 0;
    proof {
        assert(out@ =~= all.take(0));
        assert(all.take(0) =~= Seq::<LineAttributionRow>::empty());
    }
    while i < rest.len()
        invariant
            i <= rest@.len(),
            rest@.len() == all.len(),
            forall|k: int| i <= k < all.len() ==> rest@[k] == all[k],
            out@ == sorted_rows(all.take(i as int)),
            out@.to_multiset() == all.take(i as int).to_multiset(),
            forall|a: int, b: int| 0 <= a <= b < out@.len() ==> (#[trigger] out@[a]).start_line <= (#[trigger] out@[b]).start_line,
        decreases rest@.len() - i,
    {
        let start = rest[i].start_line;
        let mut pos: usize = 0;
        while pos < out.len() && out[pos].start_line <= start
            invariant
                pos <= out@.len(),
                forall|a: int| 0 <= a < pos ==> (#[trigger] out@[a]).start_line <= start,
            decreases out@.len() - pos,
        {
            pos = pos + 1;
        }
        let mut x = LineAttributionRow {
            start_line: 0,
            end_line: 0,
            session_id: None,
            author_type: AuthorType::Human,
            ai_percentage: None,
            tool: None,
            model: None,
            trace_available: 0,
        };
        std::mem::swap(&mut x, &mut rest[i]);
        let ghost before = out@;
        proof {
            assert(x == all[i as int]);
            lemma_first_after(before, start, pos as int);
            assert(all.take(i as int + 1).drop_last() =~= all.take(i as int));
            assert(all.take(i as int + 1).last() == x);
        }
        out.insert(pos, x);
        proof {
            lemma_insert_multiset(before, pos as int, all[i as int]);
            assert(all.take(i as int + 1) =~= all.take(i as int).push(all[i as int]));
            all.take(i as int).to_multiset_ensures();
            before.insert_ensures(pos as int, all[i as int]);
            assert forall|a: int, b: int| 0 <= a <= b < out@.len() implies (#[trigger] out@[a]).start_line <= (#[trigger] out@[b]).start_line by {
                if a < pos && b < pos {
                } else if a < pos && b == pos {
                } else if a < pos {
                    assert(out@[b] == before[b - 1]);
                } else if a == pos && b == pos {
                } else if a == pos {
                    assert(out@[b] == before[b - 1]);
                    assert(before[pos as int].start_line <= before[b - 1].start_line);
                } else {
                    assert(out@[a] == before[a - 1]);
                    assert(out@[b] == before[b - 1]);
                }
            }
        }
        i = i + 1;
    }
    proof {
        assert(all.take(all.len() as int) =~= all);
    }
    out
}

/// The row of a file as the reconciler reads it, with whether its session
/// has a trace.
pub open spec fn file_row(r: LineAttributionCommitRow, traced: Seq<Seq<char>>) -> LineAttributionRow {
    LineAttributionRow {
        start_line: r.start_line,
        end_line: r.end_line,
        session_id: r.session_id,
        author_type: r.author_type,
        ai_percentage: r.ai_percentage,
        tool: r.tool,
        model: r.model,
        trace_available: match r.session_id {
            Some(s) => if traced.contains(s@) {
                1
            } else {
                0
            },
            None => 0,
        },
    }
}

/// The rows of one file of a commit, in the order they were stored.
pub open spec fn file_rows_of(rows: Seq<StoredView>, commit_rows: Seq<StoredRow>, repo: i64, commit: Seq<char>, path: Seq<char>, traced: Seq<Seq<char>>) -> Seq<LineAttributionRow>
    decreases commit_rows.len(),
{
    if commit_rows.len() == 0 {
        Seq::empty()
    } else {
        let r = commit_rows.last();
        let prev = file_rows_of(rows, commit_rows.drop_last(), repo, commit, path, traced);
        if r.repo_id == repo && r.commit_sha@ == commit && r.row.file_path@ == path {
            prev.push(file_row(r.row, traced))
        } else {
            prev
        }
    }
}

impl LineAttributionStore {
    /// The rows of one file of a commit, sorted by first line (rows that
    /// start on the same line keep their stored order, see `sorted_rows`),
    /// each marked with whether its session is among `traced`.
    pub fn fetch_line_attributions(
        &self,
        repo_id: i64,
        commit_sha: &String,
        file_path: &String,
        traced: &Vec<String>,
    ) -> (out: Vec<LineAttributionRow>)
        ensures
            out@ == sorted_rows(file_rows_of(self@.0, self.rows@, repo_id, commit_sha@, file_path@, traced@.map_values(|t: String| t@))),
            out@.to_multiset() == file_rows_of(self@.0, self.rows@, repo_id, commit_sha@, file_path@, traced@.map_values(|t: String| t@)).to_multiset(),
            forall|i: int, j: int| 0 <= i <= j < out@.len() ==> (#[trigger] out@[i]).start_line <= (#[trigger] out@[j]).start_line,
    {
        let ghost tv = traced@.map_values(|t: String| t@);
        let mut picked: Vec<LineAttributionRow> = Vec::new();
        let mut i: usize = 0;
        while i < self.rows.len()
            invariant
                i <= self.rows@.len(),
                tv == traced@.map_values(|t: String| t@),
                picked@ == file_rows_of(self@.0, self.rows@.take(i as int), repo_id, commit_sha@, file_path@, tv),
            decreases self.rows@.len() - i,
        {
            proof {
                assert(self.rows@.take(i as int + 1).drop_last() =~= self.rows@.take(i as int));
                assert(self.rows@.take(i as int + 1).last() == self.rows@[i as int]);
            }
            let r = &self.rows[i];
            if r.repo_id == repo_id && text_eq(&r.commit_sha, commit_sha) && text_eq(&r.row.file_path, file_path) {
                let trace: i32 = match &r.row.session_id {
                    Some(s) => {
                        let mut found = false;
                        let mut k: usize = 0;
                        while k < traced.len()
                            invariant
                                k <= traced@.len(),
                                tv == traced@.map_values(|t: String| t@),
                                found <==> exists|m: int| 0 <= m < k && tv[m] == s@,
                            decreases traced@.len() - k,
                        {
                            proof {
                                assert(tv[k as int] == traced@[k as int]@);
                            }
                            if text_eq(&traced[k], s) {
                                found = true;
                            }
                            k = k + 1;
                        }
                        proof {
                            if tv.contains(s@) {
                                let m = choose|m: int| 0 <= m < tv.len() && tv[m] == s@;
                                assert(found);
                            }
                        }
                        if found { 1 } else { 0 }
                    },
                    None => 0,
                };
                picked.push(LineAttributionRow {
                    start_line: r.row.start_line,
                    end_line: r.row.end_line,
                    session_id: clone_opt(&r.row.session_id),
                    author_type: r.row.author_type,
                    ai_percentage: r.row.ai_percentage,
                    tool: clone_opt(&r.row.tool),
                    model: clone_opt(&r.row.model),
                    trace_available: trace,
                });
            }
            i = i + 1;
        }
        proof {
            assert(self.rows@.take(self.rows@.len() as int) =~= self.rows@);
        }
        sort_rows_by_start(picked)
    }
}

impl LineAttributionStore {
    /// Whether the store's invariant holds: at most one rewrite key record
    /// per commit.
    pub fn wf_holds(&self) -> (r: bool)
        ensures
            r == self.wf(),
    {
        let ghost keys = self@.1;
        let mut j: usize = 0;
        while j < self.keys.len()
            invariant
                j <= self.keys@.len(),
                keys == self@.1,
                forall|a: int, b: int| 0 <= a < b < j ==> !((#[trigger] keys[a]).0 == (#[trigger] keys[b]).0 && keys[a].1 == keys[b].1),
            decreases self.keys@.len() - j,
        {
            let mut i: usize = 0;
            while i < j
                invariant
                    i <= j < self.keys@.len(),
                    keys == self@.1,
                    forall|a: int| 0 <= a < i ==> !((#[trigger] keys[a]).0 == keys[j as int].0 && keys[a].1 == keys[j as int].1),
                decreases j - i,
            {
                proof {
                    assert(keys[i as int] == self.keys@[i as int]@);
                    assert(keys[j as int] == self.keys@[j as int]@);
                }
                if self.keys[i].repo_id == self.keys[j].repo_id && text_eq(&self.keys[i].commit_sha, &self.keys[j].commit_sha) {
                    return false;
                }
                i = i + 1;
            }
            j = j + 1;
        }
        true
    }
}

proof fn lemma_rows_of_tagged_other(rows: Seq<StoredView>, rvs: Seq<RowView>, repo: i64, other: Seq<char>, commit: Seq<char>)
    requires
        other != commit,
    ensures
        rows_of(rows + tag_rows(rvs, repo, other), repo, commit) == rows_of(rows, repo, commit),
    decreases rvs.len(),
{
    if rvs.len() == 0 {
        assert(rows + tag_rows(rvs, repo, other) =~= rows);
    } else {
        let r0 = rvs.drop_last();
        lemma_rows_of_tagged_other(rows, r0, repo, other, commit);
        let all = rows + tag_rows(rvs, repo, other);
        assert(all.drop_last() =~= rows + tag_rows(r0, repo, other));
        assert(all.last() == (repo, other, rvs.last()));
    }
}

proof fn lemma_rows_of_tagged_same(rows: Seq<StoredView>, rvs: Seq<RowView>, repo: i64, commit: Seq<char>)
    ensures
        rows_of(rows + tag_rows(rvs, repo, commit), repo, commit) == rows_of(rows, repo, commit) + rvs,
    decreases rvs.len(),
{
    if rvs.len() == 0 {
        assert(rows + tag_rows(rvs, repo, commit) =~= rows);
        assert(rows_of(rows, repo, commit) + rvs =~= rows_of(rows, repo, commit));
    } else {
        let r0 = rvs.drop_last();
        lemma_rows_of_tagged_same(rows, r0, repo, commit);
        let all = rows + tag_rows(rvs, repo, commit);
        assert(all.drop_last() =~= rows + tag_rows(r0, repo, commit));
        assert(all.last() == (repo, commit, rvs.last()));
        assert(rows_of(rows, repo, commit) + rvs =~= (rows_of(rows, repo, commit) + r0).push(rvs.last()));
    }
}

/// Recovery after a rewrite: when a commit without rows shares its rewrite
/// key with another commit of the repository that has rows (the most
/// recently updated such commit), populating it copies that commit's rows
/// unchanged, leaves the donor's rows as they were, and records the key.
pub proof fn lemma_recover_from_twin(
    st: StoreView,
    repo: i64,
    donor: Seq<char>,
    commit: Seq<char>,
    key: Seq<char>,
    sessions: Seq<LinkedSessionRow>,
    changes: Seq<FileChangedRanges>,
)
    requires
        !has_rows(st.0, repo, commit),
        donor_spec(st.0, st.1, repo, key, commit) == Some(donor),
    ensures
        ensure_spec(st, repo, commit, Some(key), sessions, changes).1 == EnsureOutcome::Recovered,
        rows_of(ensure_spec(st, repo, commit, Some(key), sessions, changes).0.0, repo, commit) == rows_of(st.0, repo, donor),
        rows_of(ensure_spec(st, repo, commit, Some(key), sessions, changes).0.0, repo, donor) == rows_of(st.0, repo, donor),
        ensure_spec(st, repo, commit, Some(key), sessions, changes).0.1 == upsert_spec(st.1, repo, commit, key, "patch-id"@),
{
    lemma_donor_upsert(st.0, st.1, repo, commit, key, "patch-id"@, key);
    let keys1 = upsert_spec(st.1, repo, commit, key, "patch-id"@);
    assert(donor_spec(st.0, keys1, repo, key, commit) == Some(donor));
    lemma_donor_is_donor(st.0, st.1, repo, key, commit);
    lemma_donor_differs(st.0, st.1, repo, key, commit);
    let copied = rows_of(st.0, repo, donor);
    lemma_rows_of_tagged_same(st.0, copied, repo, commit);
    lemma_rows_of_none(st.0, repo, commit);
    assert(rows_of(st.0, repo, commit) + copied =~= copied);
    lemma_rows_of_tagged_other(st.0, copied, repo, commit, donor);
}

proof fn lemma_donor_differs(rows: Seq<StoredView>, keys: Seq<KeyView>, repo: i64, key: Seq<char>, commit: Seq<char>)
    requires
        donor_spec(rows, keys, repo, key, commit) is Some,
    ensures
        donor_spec(rows, keys, repo, key, commit)->0 != commit,
    decreases keys.len(),
{
    if !is_donor(rows, keys.last(), repo, key, commit) {
        lemma_donor_differs(rows, keys.drop_last(), repo, key, commit);
    }
}

proof fn lemma_rows_of_none(rows: Seq<StoredView>, repo: i64, commit: Seq<char>)
    requires
        !has_rows(rows, repo, commit),
    ensures
        rows_of(rows, repo, commit).len() == 0,
    decreases rows.len(),
{
    if rows.len() > 0 {
        let d = rows.drop_last();
        assert(!has_rows(d, repo, commit)) by {
            if has_rows(d, repo, commit) {
                let i = choose|i: int| 0 <= i < d.len() && (#[trigger] d[i]).0 == repo && d[i].1 == commit;
                assert(rows[i] == d[i]);
            }
        }
        lemma_rows_of_none(d, repo, commit);
        assert(!(rows[rows.len() - 1].0 == repo && rows[rows.len() - 1].1 == commit));
    }
}

} // verus!
