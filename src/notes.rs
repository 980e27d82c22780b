//! The attribution note: per-file text blocks, a `---` separator line, then
//! a JSON object with source metadata.
//!
//! ```text
//! src/a.py
//!   s1 10-12,20
//!   s2 5
//! ---
//! {"schema_version": "...", ...}
//! ```
//!
//! The text blocks are read and written here. The JSON object is a document
//! of its own: it is parsed into a [`NotePayload`] and written from a
//! [`AttributionNotePayload`] by the caller.

use vstd::prelude::*;

use crate::cover::canonical;
use crate::lens::clone_opt;
use crate::order::{sort_files, sort_note_files, sort_strings, sort_texts};
use crate::ranges::merge_ranges;
use crate::text::{
    dec, push_decimal,
    chars_of, is_ws, is_whitespace, lines_of, parse_i32, parse_i32_spec, split_lines,
    string_of, trim, trim_chars, trim_end,
};

verus! {

/// Namespace of the notes that are read and written.
pub const ATTRIBUTION_NOTES_REF: &'static str = "refs/notes/narrative-attribution";

/// Legacy namespace, read when the current one holds no note.
pub const LEGACY_ATTRIBUTION_NOTES_REF: &'static str = "refs/notes/ai";

/// Schema version written into every note.
pub const ATTRIBUTION_SCHEMA_VERSION: &'static str = "narrative/attribution/1.0.0";

/// Lines `start_line..=end_line` of a file, attributed to a session.
#[derive(Clone, Debug)]
pub struct NoteRange {
    pub session_id: String,
    pub start_line: i32,
    pub end_line: i32,
}

/// The ranges of one file.
#[derive(Clone, Debug)]
pub struct NoteFile {
    pub path: String,
    pub ranges: Vec<NoteRange>,
}

/// What a note says of a session.
#[derive(Clone, Debug)]
pub struct NoteSourceMeta {
    pub tool: Option<String>,
    pub model: Option<String>,
    pub checkpoint_kind: Option<String>,
    pub conversation_id: Option<String>,
}

/// A note as read: its files, its sources, and the JSON text that followed
/// the separator.
#[derive(Clone, Debug)]
pub struct ParsedAttributionNote {
    pub files: Vec<NoteFile>,
    pub sources: Vec<(String, NoteSourceMeta)>,
    pub rewrite_key: Option<String>,
    pub rewrite_algorithm: Option<String>,
    pub schema_version: Option<String>,
    pub json_text: String,
}

impl View for NoteRange {
    type V = (Seq<char>, i32, i32);

    open spec fn view(&self) -> (Seq<char>, i32, i32) {
        (self.session_id@, self.start_line, self.end_line)
    }
}

/// A note file as text: its path and its ranges.
pub type FileView = (Seq<char>, Seq<(Seq<char>, i32, i32)>);

impl View for NoteFile {
    type V = FileView;

    open spec fn view(&self) -> FileView {
        (self.path@, self.ranges@.map_values(|r: NoteRange| r@))
    }
}

/// The views of a list of files.
pub open spec fn files_view(files: Seq<NoteFile>) -> Seq<FileView> {
    files.map_values(|f: NoteFile| f@)
}

// ----- words and pieces -----

/// Splitting state of `split_whitespace`: finished words and the current one.
pub open spec fn words_state(s: Seq<char>) -> (Seq<Seq<char>>, Seq<char>)
    decreases s.len(),
{
    if s.len() == 0 {
        (Seq::empty(), Seq::empty())
    } else {
        let prev = words_state(s.drop_last());
        if is_ws(s.last()) {
            if prev.1.len() > 0 {
                (prev.0.push(prev.1), Seq::empty())
            } else {
                prev
            }
        } else {
            (prev.0, prev.1.push(s.last()))
        }
    }
}

/// The whitespace-separated words of `s`.
pub open spec fn words(s: Seq<char>) -> Seq<Seq<char>> {
    let st = words_state(s);
    if st.1.len() > 0 {
        st.0.push(st.1)
    } else {
        st.0
    }
}

/// Words joined by single spaces.
pub open spec fn join_space(ws: Seq<Seq<char>>) -> Seq<char>
    decreases ws.len(),
{
    if ws.len() == 0 {
        Seq::empty()
    } else if ws.len() == 1 {
        ws[0]
    } else {
        join_space(ws.drop_last()) + seq![' '] + ws.last()
    }
}

/// Splitting state at commas: finished pieces and the current one.
pub open spec fn pieces_state(s: Seq<char>) -> (Seq<Seq<char>>, Seq<char>)
    decreases s.len(),
{
    if s.len() == 0 {
        (Seq::empty(), Seq::empty())
    } else {
        let prev = pieces_state(s.drop_last());
        if s.last() == ',' {
            (prev.0.push(prev.1), Seq::empty())
        } else {
            (prev.0, prev.1.push(s.last()))
        }
    }
}

/// The pieces of `s` between commas (one more than there are commas).
pub open spec fn comma_pieces(s: Seq<char>) -> Seq<Seq<char>> {
    let st = pieces_state(s);
    st.0.push(st.1)
}

/// Index of the first `-` in `s`, or its length.
pub open spec fn dash_index(s: Seq<char>) -> int
    decreases s.len(),
{
    if s.len() == 0 {
        0
    } else {
        let p = dash_index(s.drop_last());
        if p < s.len() - 1 {
            p
        } else if s.last() == '-' {
            s.len() - 1
        } else {
            s.len() as int
        }
    }
}

/// The range that one token denotes: `N` or `N-M`, with `N > 0` and
/// `M > 0`; a missing or unreadable `M` stands for `N`. Other tokens denote
/// nothing.
pub open spec fn token_range(tok: Seq<char>) -> Option<(i32, i32)> {
    let p = dash_index(tok);
    if p < tok.len() {
        let start = match parse_i32_spec(trim(tok.take(p))) {
            Some(v) => v,
            None => 0i32,
        };
        let end = match parse_i32_spec(trim(tok.skip(p + 1))) {
            Some(v) => v,
            None => start,
        };
        if start > 0 && end > 0 {
            Some((start, end))
        } else {
            None
        }
    } else {
        match parse_i32_spec(tok) {
            Some(v) => if v > 0 {
                Some((v, v))
            } else {
                None
            },
            None => None,
        }
    }
}

/// The ranges of a comma-separated list of tokens, in order; tokens that
/// denote nothing are dropped.
pub open spec fn ranges_of_pieces(pieces: Seq<Seq<char>>) -> Seq<(i32, i32)>
    decreases pieces.len(),
{
    if pieces.len() == 0 {
        Seq::empty()
    } else {
        let prev = ranges_of_pieces(pieces.drop_last());
        let tok = trim(pieces.last());
        if tok.len() > 0 && token_range(tok) is Some {
            prev.push(token_range(tok)->0)
        } else {
            prev
        }
    }
}

/// The session and ranges of an indented line: its first word, and the
/// ranges of the remaining words joined by spaces.
pub open spec fn session_line(te: Seq<char>) -> Option<(Seq<char>, Seq<(i32, i32)>)> {
    let ws = words(te);
    if ws.len() == 0 {
        None
    } else {
        let rest = join_space(ws.drop_first());
        if rest.len() == 0 {
            None
        } else {
            Some((ws[0], ranges_of_pieces(comma_pieces(rest))))
        }
    }
}

/// Tags each range with a session.
pub open spec fn tag_ranges(sid: Seq<char>, rs: Seq<(i32, i32)>) -> Seq<(Seq<char>, i32, i32)> {
    rs.map_values(|r: (i32, i32)| (sid, r.0, r.1))
}

/// Reading state of the file section: finished files and the open one.
pub open spec fn section_state(lines: Seq<Seq<char>>) -> (Seq<FileView>, Option<FileView>)
    decreases lines.len(),
{
    if lines.len() == 0 {
        (Seq::empty(), None)
    } else {
        let prev = section_state(lines.drop_last());
        let te = trim_end(lines.last());
        if trim(te).len() == 0 {
            prev
        } else if te[0] != ' ' && te[0] != '\t' {
            let done = match prev.1 {
                Some(f) => prev.0.push(f),
                None => prev.0,
            };
            (done, Some((trim(te), Seq::empty())))
        } else {
            match prev.1 {
                None => prev,
                Some(f) => match session_line(te) {
                    None => prev,
                    Some(sl) => (prev.0, Some((f.0, f.1 + tag_ranges(sl.0, sl.1)))),
                },
            }
        }
    }
}

/// The files of a file section.
pub open spec fn section_files(lines: Seq<Seq<char>>) -> Seq<FileView> {
    let st = section_state(lines);
    match st.1 {
        Some(f) => st.0.push(f),
        None => st.0,
    }
}

/// Index of the first line that is exactly `---`, or the number of lines.
pub open spec fn separator_index(lines: Seq<Seq<char>>) -> int
    decreases lines.len(),
{
    if lines.len() == 0 {
        0
    } else {
        let p = separator_index(lines.drop_last());
        if p < lines.len() - 1 {
            p
        } else if lines.last() == "---"@ {
            lines.len() - 1
        } else {
            lines.len() as int
        }
    }
}

/// Lines joined by `\n`.
pub open spec fn join_lines(ls: Seq<Seq<char>>) -> Seq<char>
    decreases ls.len(),
{
    if ls.len() == 0 {
        Seq::empty()
    } else if ls.len() == 1 {
        ls[0]
    } else {
        join_lines(ls.drop_last()) + seq!['\n'] + ls.last()
    }
}

/// The files of a note: those of the lines before the separator.
pub open spec fn note_files(message: Seq<char>) -> Seq<FileView> {
    let ls = lines_of(message);
    section_files(ls.take(separator_index(ls)))
}

/// The JSON text of a note: the lines after the separator, joined and
/// trimmed (empty when there is no separator).
pub open spec fn note_json(message: Seq<char>) -> Seq<char> {
    let ls = lines_of(message);
    let p = separator_index(ls);
    if p < ls.len() {
        trim(join_lines(ls.skip(p + 1)))
    } else {
        Seq::empty()
    }
}

/// The whitespace-separated words of `s`.
pub fn split_words(s: &Vec<char>) -> (r: Vec<Vec<char>>)
    ensures
        r@.len() == words(s@).len(),
        forall|k: int| 0 <= k < r@.len() ==> (#[trigger] r@[k])@ == words(s@)[k],
{
    let mut done: Vec<Vec<char>> = Vec::new();
    let mut cur: Vec<char> = Vec::new();
    let mut i: usize = 0;
    while i < s.len()
        invariant
            i <= s@.len(),
            done@.len() == words_state(s@.take(i as int)).0.len(),
            forall|k: int| 0 <= k < done@.len() ==> (#[trigger] done@[k])@ == words_state(s@.take(i as int)).0[k],
            cur@ == words_state(s@.take(i as int)).1,
        decreases s@.len() - i,
    {
        proof {
            assert(s@.take(i as int + 1).drop_last() =~= s@.take(i as int));
            assert(s@.take(i as int + 1).last() == s@[i as int]);
        }
        let c = s[i];
        if is_whitespace(c) {
            if cur.len() > 0 {
                let mut w = Vec::new();
                std::mem::swap(&mut w, &mut cur);
                done.push(w);
            }
        } else {
            cur.push(c);
        }
        i = i + 1;
    }
    proof {
        assert(s@.take(s@.len() as int) =~= s@);
    }
    if cur.len() > 0 {
        done.push(cur);
    }
    done
}

/// Words from index `from` on, joined by single spaces.
fn join_words_from(ws: &Vec<Vec<char>>, from: usize) -> (r: Vec<char>)
    requires
        from <= ws@.len(),
    ensures
        r@ == join_space(ws@.skip(from as int).map_values(|w: Vec<char>| w@)),
{
    let ghost vs = ws@.skip(from as int).map_values(|w: Vec<char>| w@);
    let mut r: Vec<char> = Vec::new();
    let mut i: usize = from;
    proof {
        assert(vs.take(0) =~= Seq::<Seq<char>>::empty());
    }
    while i < ws.len()
        invariant
            from <= i <= ws@.len(),
            vs == ws@.skip(from as int).map_values(|w: Vec<char>| w@),
            r@ == join_space(vs.take(i - from)),
        decreases ws@.len() - i,
    {
        let ghost t = vs.take(i - from + 1);
        proof {
            assert(t.drop_last() =~= vs.take(i - from));
            assert(t.last() == ws@[i as int]@);
        }
        if i > from {
            r.push(' ');
        }
        let w = &ws[i];
        let mut k: usize = 0;
        let ghost base = r@;
        while k < w.len()
            invariant
                k <= w@.len(),
                r@ == base + w@.take(k as int),
            decreases w@.len() - k,
        {
            r.push(w[k]);
            k = k + 1;
            proof {
                assert(w@.take(k as int) =~= w@.take(k - 1).push(w@[k - 1]));
                assert(r@ =~= base + w@.take(k as int));
            }
        }
        proof {
            assert(w@.take(w@.len() as int) =~= w@);
            if i == from {
                assert(t.len() == 1);
                assert(r@ =~= t[0]);
            } else {
                assert(r@ =~= join_space(t.drop_last()) + seq![' '] + t.last());
            }
        }
        i = i + 1;
    }
    proof {
        assert(vs.take(ws@.len() - from) =~= vs);
    }
    r
}

/// The pieces of `s` between commas.
pub fn split_commas(s: &Vec<char>) -> (r: Vec<Vec<char>>)
    ensures
        r@.len() == comma_pieces(s@).len(),
        forall|k: int| 0 <= k < r@.len() ==> (#[trigger] r@[k])@ == comma_pieces(s@)[k],
{
    let mut done: Vec<Vec<char>> = Vec::new();
    let mut cur: Vec<char> = Vec::new();
    let mut i: usize = 0;
    while i < s.len()
        invariant
            i <= s@.len(),
            done@.len() == pieces_state(s@.take(i as int)).0.len(),
            forall|k: int| 0 <= k < done@.len() ==> (#[trigger] done@[k])@ == pieces_state(s@.take(i as int)).0[k],
            cur@ == pieces_state(s@.take(i as int)).1,
        decreases s@.len() - i,
    {
        proof {
            assert(s@.take(i as int + 1).drop_last() =~= s@.take(i as int));
            assert(s@.take(i as int + 1).last() == s@[i as int]);
        }
        let c = s[i];
        if c == ',' {
            let mut w = Vec::new();
            std::mem::swap(&mut w, &mut cur);
            done.push(w);
        } else {
            cur.push(c);
        }
        i = i + 1;
    }
    proof {
        assert(s@.take(s@.len() as int) =~= s@);
    }
    done.push(cur);
    done
}

/// The characters `s[from..to]`.
fn slice_chars(s: &Vec<char>, from: usize, to: usize) -> (r: Vec<char>)
    requires
        from <= to <= s@.len(),
    ensures
        r@ == s@.subrange(from as int, to as int),
{
    let mut r: Vec<char> = Vec::new();
    let mut k: usize = from;
    while k < to
        invariant
            from <= k <= to <= s@.len(),
            r@ == s@.subrange(from as int, k as int),
        decreases to - k,
    {
        r.push(s[k]);
        k = k + 1;
        proof {
            assert(r@ =~= s@.subrange(from as int, k as int));
        }
    }
    r
}

/// The range that one token denotes, if any.
pub fn parse_token_range(tok: &Vec<char>) -> (r: Option<(i32, i32)>)
    ensures
        r == token_range(tok@),
{
    let mut p: usize = 0;
    while p < tok.len() && tok[p] != '-'
        invariant
            p <= tok@.len(),
            forall|k: int| 0 <= k < p ==> tok@[k] != '-',
        decreases tok@.len() - p,
    {
        p = p + 1;
    }
    proof {
        lemma_dash_index(tok@, p as int);
    }
    if p < tok.len() {
        let start = match parse_i32(&trim_chars(&slice_chars(tok, 0, p))) {
            Some(v) => v,
            None => 0,
        };
        let end = match parse_i32(&trim_chars(&slice_chars(tok, p + 1, tok.len()))) {
            Some(v) => v,
            None => start,
        };
        proof {
            assert(tok@.subrange(0, p as int) =~= tok@.take(p as int));
            assert(tok@.subrange(p + 1, tok@.len() as int) =~= tok@.skip(p + 1));
        }
        if start > 0 && end > 0 {
            Some((start, end))
        } else {
            None
        }
    } else {
        match parse_i32(tok) {
            Some(v) => if v > 0 {
                Some((v, v))
            } else {
                None
            },
            None => None,
        }
    }
}

pub proof fn lemma_dash_index(s: Seq<char>, p: int)
    requires
        0 <= p <= s.len(),
        forall|k: int| 0 <= k < p ==> s[k] != '-',
        p < s.len() ==> s[p] == '-',
    ensures
        dash_index(s) == p,
    decreases s.len(),
{
    if s.len() > 0 {
        let d = s.drop_last();
        if p < s.len() - 1 {
            lemma_dash_index(d, p);
        } else {
            lemma_dash_index(d, d.len() as int);
        }
    }
}

/// The ranges of a comma-separated list of tokens.
pub fn parse_ranges(text: &Vec<char>) -> (r: Vec<(i32, i32)>)
    ensures
        r@ == ranges_of_pieces(comma_pieces(text@)),
{
    let pieces = split_commas(text);
    let ghost ps = comma_pieces(text@);
    let mut r: Vec<(i32, i32)> = Vec::new();
    let mut i: usize = 0;
    while i < pieces.len()
        invariant
            i <= pieces@.len(),
            pieces@.len() == ps.len(),
            forall|k: int| 0 <= k < pieces@.len() ==> (#[trigger] pieces@[k])@ == ps[k],
            r@ == ranges_of_pieces(ps.take(i as int)),
        decreases pieces@.len() - i,
    {
        proof {
            assert(ps.take(i as int + 1).drop_last() =~= ps.take(i as int));
            assert(ps.take(i as int + 1).last() == pieces@[i as int]@);
        }
        let tok = trim_chars(&pieces[i]);
        if tok.len() > 0 {
            if let Some(range) = parse_token_range(&tok) {
                r.push(range);
            }
        }
        i = i + 1;
    }
    proof {
        assert(ps.take(ps.len() as int) =~= ps);
    }
    r
}

/// Removes trailing whitespace.
fn trim_end_chars(s: &Vec<char>) -> (r: Vec<char>)
    ensures
        r@ == trim_end(s@),
{
    let mut hi: usize = s.len();
    proof {
        assert(s@.subrange(0, s@.len() as int) =~= s@);
    }
    while hi > 0 && is_whitespace(s[hi - 1])
        invariant
            hi <= s@.len(),
            trim_end(s@) == trim_end(s@.subrange(0, hi as int)),
        decreases hi,
    {
        proof {
            assert(s@.subrange(0, hi as int).drop_last() =~= s@.subrange(0, hi - 1));
        }
        hi = hi - 1;
    }
    proof {
        if hi > 0 {
            assert(s@.subrange(0, hi as int).last() == s@[hi - 1]);
        }
    }
    slice_chars(s, 0, hi)
}

/// The view of an optional open file.
pub open spec fn opt_file_view(f: Option<NoteFile>) -> Option<FileView> {
    match f {
        Some(f) => Some(f@),
        None => None,
    }
}

/// Appends the ranges of an indented line to the open file.
fn push_tagged(file: &mut NoteFile, sid: &String, ranges: &Vec<(i32, i32)>)
    ensures
        final(file)@ == (old(file)@.0, old(file)@.1 + tag_ranges(sid@, ranges@)),
{
    let ghost base = file.ranges@.map_values(|r: NoteRange| r@);
    let mut k: usize = 0;
    while k < ranges.len()
        invariant
            k <= ranges@.len(),
            file.path == old(file).path,
            file.ranges@.map_values(|r: NoteRange| r@) == base + tag_ranges(sid@, ranges@.take(k as int)),
        decreases ranges@.len() - k,
    {
        let (a, b) = ranges[k];
        let ghost prev = file.ranges@;
        let nr = NoteRange { session_id: sid.clone(), start_line: a, end_line: b };
        file.ranges.push(nr);
        k = k + 1;
        proof {
            assert(nr@ == (sid@, a, b));
            assert(file.ranges@.map_values(|r: NoteRange| r@) =~= prev.map_values(|r: NoteRange| r@).push(nr@));
            assert(tag_ranges(sid@, ranges@.take(k as int)) =~= tag_ranges(sid@, ranges@.take(k - 1)).push((sid@, a, b)));
            assert(file.ranges@.map_values(|r: NoteRange| r@) =~= base + tag_ranges(sid@, ranges@.take(k as int)));
        }
    }
    proof {
        assert(ranges@.take(ranges@.len() as int) =~= ranges@);
    }
}

/// Reads the file section of a note.
pub fn parse_file_section(lines: &Vec<Vec<char>>, count: usize) -> (files: Vec<NoteFile>)
    requires
        count <= lines@.len(),
    ensures
        files_view(files@) == section_files(lines@.take(count as int).map_values(|l: Vec<char>| l@)),
{
    let ghost ls = lines@.take(count as int).map_values(|l: Vec<char>| l@);
    let mut done: Vec<NoteFile> = Vec::new();
    let mut current: Option<NoteFile> = None;
    let mut i: usize = 0;
    proof {
        assert(ls.take(0) =~= Seq::<Seq<char>>::empty());
        assert(files_view(done@) =~= Seq::<FileView>::empty());
    }
    while i < count
        invariant
            count <= lines@.len(),
            i <= count,
            ls == lines@.take(count as int).map_values(|l: Vec<char>| l@),
            files_view(done@) == section_state(ls.take(i as int)).0,
            opt_file_view(current) == section_state(ls.take(i as int)).1,
        decreases count - i,
    {
        proof {
            assert(ls.take(i as int + 1).drop_last() =~= ls.take(i as int));
            assert(ls.take(i as int + 1).last() == lines@[i as int]@);
        }
        let te = trim_end_chars(&lines[i]);
        let blank = trim_chars(&te).len() == 0;
        if blank {
        } else if te[0] != ' ' && te[0] != '\t' {
            let path = string_of(&trim_chars(&te));
            let ghost before = files_view(done@);
            match current {
                Some(f) => {
                    done.push(f);
                    proof {
                        assert(files_view(done@) =~= before.push(f@));
                    }
                },
                None => {},
            }
            current = Some(NoteFile { path, ranges: Vec::new() });
            proof {
                assert(current->0.ranges@.map_values(|r: NoteRange| r@) =~= Seq::<(Seq<char>, i32, i32)>::empty());
            }
        } else if current.is_some() {
            let ws = split_words(&te);
            if ws.len() > 0 {
                let rest = join_words_from(&ws, 1);
                proof {
                    let vs = ws@.skip(1).map_values(|w: Vec<char>| w@);
                    assert(vs =~= words(te@).drop_first());
                }
                if rest.len() > 0 {
                    let sid = string_of(&ws[0]);
                    let ranges = parse_ranges(&rest);
                    let mut f = current.unwrap();
                    push_tagged(&mut f, &sid, &ranges);
                    current = Some(f);
                }
            }
        }
        i = i + 1;
    }
    proof {
        assert(ls.take(count as int) =~= ls);
    }
    let ghost before = files_view(done@);
    if let Some(f) = current {
        done.push(f);
        proof {
            assert(files_view(done@) =~= before.push(f@));
        }
    }
    done
}

/// Index of the first line that is exactly `---`, or the number of lines.
fn find_separator(lines: &Vec<Vec<char>>) -> (p: usize)
    ensures
        p == separator_index(lines@.map_values(|l: Vec<char>| l@)),
{
    let ghost ls = lines@.map_values(|l: Vec<char>| l@);
    let mut p: usize = 0;
    while p < lines.len() && !is_separator(&lines[p])
        invariant
            p <= lines@.len(),
            ls == lines@.map_values(|l: Vec<char>| l@),
            forall|k: int| 0 <= k < p ==> ls[k] != "---"@,
        decreases lines@.len() - p,
    {
        p = p + 1;
    }
    proof {
        lemma_separator_index(ls, p as int);
    }
    p
}

pub proof fn lemma_separator_index(ls: Seq<Seq<char>>, p: int)
    requires
        0 <= p <= ls.len(),
        forall|k: int| 0 <= k < p ==> ls[k] != "---"@,
        p < ls.len() ==> ls[p] == "---"@,
    ensures
        separator_index(ls) == p,
    decreases ls.len(),
{
    if ls.len() > 0 {
        let d = ls.drop_last();
        if p < ls.len() - 1 {
            lemma_separator_index(d, p);
        } else {
            lemma_separator_index(d, d.len() as int);
        }
    }
}

/// Whether a line is exactly `---`.
fn is_separator(line: &Vec<char>) -> (r: bool)
    ensures
        r == (line@ == "---"@),
{
    proof {
        reveal_strlit("---");
    }
    let r = line.len() == 3 && line[0] == '-' && line[1] == '-' && line[2] == '-';
    proof {
        if r {
            assert(line@ =~= "---"@);
        }
    }
    r
}

/// Lines from index `from` on, joined by `\n`.
fn join_lines_from(lines: &Vec<Vec<char>>, from: usize) -> (r: Vec<char>)
    requires
        from <= lines@.len(),
    ensures
        r@ == join_lines(lines@.map_values(|l: Vec<char>| l@).skip(from as int)),
{
    let ghost vs = lines@.map_values(|l: Vec<char>| l@).skip(from as int);
    let mut r: Vec<char> = Vec::new();
    let mut i: usize = from;
    proof {
        assert(vs.take(0) =~= Seq::<Seq<char>>::empty());
    }
    while i < lines.len()
        invariant
            from <= i <= lines@.len(),
            vs == lines@.map_values(|l: Vec<char>| l@).skip(from as int),
            r@ == join_lines(vs.take(i - from)),
        decreases lines@.len() - i,
    {
        let ghost t = vs.take(i - from + 1);
        proof {
            assert(t.drop_last() =~= vs.take(i - from));
            assert(t.last() == lines@[i as int]@);
        }
        if i > from {
            r.push('\n');
        }
        let w = &lines[i];
        let mut k: usize = 0;
        let ghost base = r@;
        while k < w.len()
            invariant
                k <= w@.len(),
                r@ == base + w@.take(k as int),
            decreases w@.len() - k,
        {
            r.push(w[k]);
            k = k + 1;
            proof {
                assert(w@.take(k as int) =~= w@.take(k - 1).push(w@[k - 1]));
                assert(r@ =~= base + w@.take(k as int));
            }
        }
        proof {
            assert(w@.take(w@.len() as int) =~= w@);
            if i == from {
                assert(r@ =~= t[0]);
            } else {
                assert(r@ =~= join_lines(t.drop_last()) + seq!['\n'] + t.last());
            }
        }
        i = i + 1;
    }
    proof {
        assert(vs.take(lines@.len() - from) =~= vs);
    }
    r
}

/// Reads a note: the files of its file section and the JSON text after the
/// separator. Malformed range tokens are dropped; the sources and the
/// rewrite key come from the JSON text (see `apply_note_payload`).
pub fn parse_attribution_note(message: &str) -> (note: ParsedAttributionNote)
    ensures
        files_view(note.files@) == note_files(message@),
        note.json_text@ == note_json(message@),
        note.sources@.len() == 0,
        note.rewrite_key is None,
        note.rewrite_algorithm is None,
        note.schema_version is None,
{
    let chars = chars_of(message);
    let lines = split_lines(&chars);
    let ghost ls = lines_of(chars@);
    proof {
        assert(lines@.map_values(|l: Vec<char>| l@) =~= ls);
    }
    let sep = find_separator(&lines);
    let files = parse_file_section(&lines, sep);
    proof {
        assert(lines@.take(sep as int).map_values(|l: Vec<char>| l@) =~= ls.take(sep as int));
    }
    let json_text = if sep < lines.len() {
        string_of(&trim_chars(&join_lines_from(&lines, sep + 1)))
    } else {
        String::new()
    };
    ParsedAttributionNote {
        files,
        sources: Vec::new(),
        rewrite_key: None,
        rewrite_algorithm: None,
        schema_version: None,
        json_text,
    }
}

// ----- the JSON object -----

/// The agent of a source, as a note's JSON object gives it.
#[derive(Clone, Debug)]
pub struct NoteAgentId {
    pub tool: Option<String>,
    pub id: Option<String>,
    pub model: Option<String>,
}

/// A source entry of a note's JSON object.
#[derive(Clone, Debug)]
pub struct NoteSourcePayload {
    pub agent_id: Option<NoteAgentId>,
    pub checkpoint_kind: Option<String>,
    pub model: Option<String>,
}

/// The JSON object of a note, as read. Its sources map is found under
/// `sources` or under the legacy name `prompts`.
#[derive(Clone, Debug)]
pub struct NotePayload {
    pub schema_version: Option<String>,
    pub base_commit_sha: Option<String>,
    pub rewrite_key: Option<String>,
    pub rewrite_algorithm: Option<String>,
    pub sources: Option<Vec<(String, NoteSourcePayload)>>,
}

/// The agent of a source, as written.
#[derive(Clone, Debug)]
pub struct AttributionAgentId {
    pub tool: Option<String>,
    pub id: Option<String>,
    pub model: Option<String>,
}

/// A source entry, as written. Message bodies are never embedded.
#[derive(Clone, Debug)]
pub struct AttributionNoteSource {
    pub agent_id: Option<AttributionAgentId>,
    pub checkpoint_kind: Option<String>,
    pub messages_redacted: Option<bool>,
}

/// The JSON object of a note, as written.
#[derive(Clone, Debug)]
pub struct AttributionNotePayload {
    pub schema_version: String,
    pub base_commit_sha: String,
    pub rewrite_key: Option<String>,
    pub rewrite_algorithm: Option<String>,
    pub sources: Vec<(String, AttributionNoteSource)>,
    pub messages_redacted: Option<bool>,
}

/// What a source entry says of its session: tool and conversation from the
/// agent, model from the agent or else from the entry.
pub open spec fn source_meta(p: NoteSourcePayload) -> NoteSourceMeta {
    NoteSourceMeta {
        tool: match p.agent_id {
            Some(a) => a.tool,
            None => None,
        },
        model: match p.agent_id {
            Some(a) => match a.model {
                Some(m) => Some(m),
                None => p.model,
            },
            None => p.model,
        },
        checkpoint_kind: p.checkpoint_kind,
        conversation_id: match p.agent_id {
            Some(a) => a.id,
            None => None,
        },
    }
}

/// Takes the rewrite key and the sources of a note from its JSON object.
pub fn apply_note_payload(note: &mut ParsedAttributionNote, payload: NotePayload)
    ensures
        final(note).files == old(note).files,
        final(note).json_text == old(note).json_text,
        final(note).rewrite_key == payload.rewrite_key,
        final(note).rewrite_algorithm == payload.rewrite_algorithm,
        final(note).schema_version == payload.schema_version,
        payload.sources is None ==> final(note).sources == old(note).sources,
        payload.sources matches Some(ps) ==> {
            &&& final(note).sources@.len() == ps@.len()
            &&& forall|k: int| 0 <= k < ps@.len() ==> (#[trigger] final(note).sources@[k]).0 == ps@[k].0
                && final(note).sources@[k].1 == source_meta(ps@[k].1)
        },
{
    note.rewrite_key = payload.rewrite_key;
    note.rewrite_algorithm = payload.rewrite_algorithm;
    note.schema_version = payload.schema_version;
    if let Some(ps) = payload.sources {
        let mut out: Vec<(String, NoteSourceMeta)> = Vec::new();
        let mut i: usize = 0;
        while i < ps.len()
            invariant
                i <= ps@.len(),
                out@.len() == i,
                forall|k: int| 0 <= k < i ==> (#[trigger] out@[k]).0 == ps@[k].0 && out@[k].1 == source_meta(ps@[k].1),
            decreases ps@.len() - i,
        {
            let (sid, src) = &ps[i];
            let (tool, agent_model, conversation_id) = match &src.agent_id {
                Some(a) => (clone_opt(&a.tool), clone_opt(&a.model), clone_opt(&a.id)),
                None => (None, None, None),
            };
            let model = match agent_model {
                Some(m) => Some(m),
                None => clone_opt(&src.model),
            };
            out.push((sid.clone(), NoteSourceMeta {
                tool,
                model,
                checkpoint_kind: clone_opt(&src.checkpoint_kind),
                conversation_id,
            }));
            i = i + 1;
        }
        note.sources = out;
    }
}

/// The JSON entry written for a source: the agent's id is the conversation
/// id, or else the session id.
pub open spec fn source_payload(sid: String, m: NoteSourceMeta) -> AttributionNoteSource {
    AttributionNoteSource {
        agent_id: Some(
            AttributionAgentId {
                tool: m.tool,
                id: match m.conversation_id {
                    Some(c) => Some(c),
                    None => Some(sid),
                },
                model: m.model,
            },
        ),
        checkpoint_kind: m.checkpoint_kind,
        messages_redacted: Some(true),
    }
}

/// The JSON entries written for the sources, in order.
pub fn build_sources_payload(sources: &Vec<(String, NoteSourceMeta)>) -> (out: Vec<(String, AttributionNoteSource)>)
    ensures
        out@.len() == sources@.len(),
        forall|k: int| 0 <= k < sources@.len() ==> (#[trigger] out@[k]).0 == sources@[k].0 && out@[k].1
            == source_payload(sources@[k].0, sources@[k].1),
{
    let mut out: Vec<(String, AttributionNoteSource)> = Vec::new();
    let mut i: usize = 0;
    while i < sources.len()
        invariant
            i <= sources@.len(),
            out@.len() == i,
            forall|k: int| 0 <= k < i ==> (#[trigger] out@[k]).0 == sources@[k].0 && out@[k].1 == source_payload(
                sources@[k].0,
                sources@[k].1,
            ),
        decreases sources@.len() - i,
    {
        let (sid, meta) = &sources[i];
        let id = match &meta.conversation_id {
            Some(c) => Some(c.clone()),
            None => Some(sid.clone()),
        };
        out.push((sid.clone(), AttributionNoteSource {
            agent_id: Some(AttributionAgentId { tool: clone_opt(&meta.tool), id, model: clone_opt(&meta.model) }),
            checkpoint_kind: clone_opt(&meta.checkpoint_kind),
            messages_redacted: Some(true),
        }));
        i = i + 1;
    }
    out
}

/// The JSON object written into a note of `commit_sha`.
pub fn build_note_payload(
    commit_sha: &str,
    sources: &Vec<(String, NoteSourceMeta)>,
    rewrite_key: Option<String>,
    rewrite_algorithm: Option<String>,
) -> (p: AttributionNotePayload)
    ensures
        p.schema_version@ == ATTRIBUTION_SCHEMA_VERSION@,
        p.base_commit_sha@ == commit_sha@,
        p.rewrite_key == rewrite_key,
        p.rewrite_algorithm == rewrite_algorithm,
        p.messages_redacted == Some(true),
        p.sources@.len() == sources@.len(),
        forall|k: int| 0 <= k < sources@.len() ==> (#[trigger] p.sources@[k]).0 == sources@[k].0
            && p.sources@[k].1 == source_payload(sources@[k].0, sources@[k].1),
{
    AttributionNotePayload {
        schema_version: ATTRIBUTION_SCHEMA_VERSION.to_owned(),
        base_commit_sha: commit_sha.to_owned(),
        rewrite_key,
        rewrite_algorithm,
        sources: build_sources_payload(sources),
        messages_redacted: Some(true),
    }
}

// ----- writing the file section -----

/// The sessions of a file's ranges, in order of first appearance.
pub open spec fn sessions_of(rs: Seq<(Seq<char>, i32, i32)>) -> Seq<Seq<char>>
    decreases rs.len(),
{
    if rs.len() == 0 {
        Seq::empty()
    } else {
        let prev = sessions_of(rs.drop_last());
        if prev.contains(rs.last().0) {
            prev
        } else {
            prev.push(rs.last().0)
        }
    }
}

/// The intervals of one session's ranges, in order.
pub open spec fn session_pairs(rs: Seq<(Seq<char>, i32, i32)>, sid: Seq<char>) -> Seq<(i32, i32)>
    decreases rs.len(),
{
    if rs.len() == 0 {
        Seq::empty()
    } else if rs.last().0 == sid {
        session_pairs(rs.drop_last(), sid).push((rs.last().1, rs.last().2))
    } else {
        session_pairs(rs.drop_last(), sid)
    }
}

/// One range as written: `N` for a single line, else `N-M`.
pub open spec fn render_range(r: (i32, i32)) -> Seq<char> {
    if r.0 == r.1 {
        dec(r.0 as int)
    } else {
        dec(r.0 as int) + seq!['-'] + dec(r.1 as int)
    }
}

/// Ranges as written, separated by commas.
pub open spec fn render_ranges(rs: Seq<(i32, i32)>) -> Seq<char>
    decreases rs.len(),
{
    if rs.len() == 0 {
        Seq::empty()
    } else if rs.len() == 1 {
        render_range(rs[0])
    } else {
        render_ranges(rs.drop_last()) + seq![','] + render_range(rs.last())
    }
}

/// The line of one session: indented, the session id, then its merged ranges.
pub open spec fn session_text(sid: Seq<char>, rs: Seq<(Seq<char>, i32, i32)>) -> Seq<char> {
    seq![' ', ' '] + sid + seq![' '] + render_ranges(canonical(session_pairs(rs, sid)))
}

/// The lines of a file block: its path, then one line per session, in
/// ascending order of session id.
pub open spec fn block_lines(f: FileView) -> Seq<Seq<char>> {
    seq![f.0] + sort_texts(sessions_of(f.1)).map_values(|sid: Seq<char>| session_text(sid, f.1))
}

/// The blocks of files, one after another in the given order.
pub open spec fn blocks_lines(files: Seq<FileView>) -> Seq<Seq<char>>
    decreases files.len(),
{
    if files.len() == 0 {
        Seq::empty()
    } else {
        blocks_lines(files.drop_last()) + block_lines(files.last())
    }
}

/// The lines of the file section: the blocks of the files in ascending
/// order of path (files with the same path keep their order).
pub open spec fn section_lines(files: Seq<FileView>) -> Seq<Seq<char>> {
    blocks_lines(sort_files(files))
}

/// A whole note: the file section, the separator line, the JSON text.
pub open spec fn note_text(files: Seq<FileView>, json: Seq<char>) -> Seq<char> {
    join_lines(section_lines(files) + seq!["---"@, json])
}

/// The distinct sessions of a file, in order of first appearance.
fn file_sessions(f: &NoteFile) -> (r: Vec<String>)
    ensures
        r@.len() == sessions_of(f@.1).len(),
        forall|k: int| 0 <= k < r@.len() ==> (#[trigger] r@[k])@ == sessions_of(f@.1)[k],
{
    let ghost rs = f@.1;
    let mut out: Vec<String> = Vec::new();
    let mut i: usize = 0;
    while i < f.ranges.len()
        invariant
            i <= f.ranges@.len(),
            rs == f@.1,
            out@.len() == sessions_of(rs.take(i as int)).len(),
            forall|k: int| 0 <= k < out@.len() ==> (#[trigger] out@[k])@ == sessions_of(rs.take(i as int))[k],
        decreases f.ranges@.len() - i,
    {
        proof {
            assert(rs.take(i as int + 1).drop_last() =~= rs.take(i as int));
            assert(rs.take(i as int + 1).last() == f.ranges@[i as int]@);
        }
        let sid = &f.ranges[i].session_id;
        let ghost prev = sessions_of(rs.take(i as int));
        let mut seen = false;
        let mut k: usize = 0;
        while k < out.len()
            invariant
                k <= out@.len(),
                out@.len() == prev.len(),
                forall|m: int| 0 <= m < out@.len() ==> (#[trigger] out@[m])@ == prev[m],
                seen <==> exists|m: int| 0 <= m < k && prev[m] == sid@,
            decreases out@.len() - k,
        {
            if crate::extract::text_eq(&out[k], sid) {
                seen = true;
            }
            k = k + 1;
        }
        proof {
            if prev.contains(sid@) {
                let m = choose|m: int| 0 <= m < prev.len() && prev[m] == sid@;
                assert(seen);
            }
        }
        if !seen {
            out.push(sid.clone());
        }
        i = i + 1;
    }
    proof {
        assert(rs.take(f.ranges@.len() as int) =~= rs);
    }
    out
}

/// The intervals of one session's ranges in a file.
fn file_session_pairs(f: &NoteFile, sid: &String) -> (r: Vec<(i32, i32)>)
    ensures
        r@ == session_pairs(f@.1, sid@),
{
    let ghost rs = f@.1;
    let mut out: Vec<(i32, i32)> = Vec::new();
    let mut i: usize = 0;
    while i < f.ranges.len()
        invariant
            i <= f.ranges@.len(),
            rs == f@.1,
            out@ == session_pairs(rs.take(i as int), sid@),
        decreases f.ranges@.len() - i,
    {
        proof {
            assert(rs.take(i as int + 1).drop_last() =~= rs.take(i as int));
            assert(rs.take(i as int + 1).last() == f.ranges@[i as int]@);
        }
        let r = &f.ranges[i];
        if crate::extract::text_eq(&r.session_id, sid) {
            out.push((r.start_line, r.end_line));
        }
        i = i + 1;
    }
    proof {
        assert(rs.take(f.ranges@.len() as int) =~= rs);
    }
    out
}

/// Appends the characters of `s` to `out`.
fn push_all(out: &mut Vec<char>, s: &Vec<char>)
    ensures
        final(out)@ == old(out)@ + s@,
{
    let mut k: usize = 0;
    while k < s.len()
        invariant
            k <= s@.len(),
            out@ == old(out)@ + s@.take(k as int),
        decreases s@.len() - k,
    {
        out.push(s[k]);
        k = k + 1;
        proof {
            assert(s@.take(k as int) =~= s@.take(k - 1).push(s@[k - 1]));
            assert(out@ =~= old(out)@ + s@.take(k as int));
        }
    }
    proof {
        assert(s@.take(s@.len() as int) =~= s@);
    }
}

/// Writes ranges separated by commas.
fn render_range_list(rs: &Vec<(i32, i32)>) -> (r: Vec<char>)
    ensures
        r@ == render_ranges(rs@),
{
    let mut out: Vec<char> = Vec::new();
    let mut i: usize = 0;
    while i < rs.len()
        invariant
            i <= rs@.len(),
            out@ == render_ranges(rs@.take(i as int)),
        decreases rs@.len() - i,
    {
        proof {
            assert(rs@.take(i as int + 1).drop_last() =~= rs@.take(i as int));
            assert(rs@.take(i as int + 1).last() == rs@[i as int]);
        }
        let ghost before = out@;
        if i > 0 {
            out.push(',');
        }
        let (a, b) = rs[i];
        push_decimal(&mut out, a);
        if a != b {
            out.push('-');
            push_decimal(&mut out, b);
        }
        proof {
            if i == 0 {
                assert(out@ =~= render_range(rs@[0]));
            } else {
                assert(out@ =~= before + seq![','] + render_range(rs@[i as int]));
            }
        }
        i = i + 1;
    }
    proof {
        assert(rs@.take(rs@.len() as int) =~= rs@);
    }
    out
}

/// A copy of a note file.
fn copy_note_file(f: &NoteFile) -> (c: NoteFile)
    ensures
        c@ == f@,
{
    let mut ranges: Vec<NoteRange> = Vec::new();
    let mut i: usize = 0;
    while i < f.ranges.len()
        invariant
            i <= f.ranges@.len(),
            ranges@.map_values(|r: NoteRange| r@) == f.ranges@.take(i as int).map_values(|r: NoteRange| r@),
        decreases f.ranges@.len() - i,
    {
        let r = &f.ranges[i];
        let c = NoteRange { session_id: r.session_id.clone(), start_line: r.start_line, end_line: r.end_line };
        let ghost before = ranges@;
        ranges.push(c);
        i = i + 1;
        proof {
            assert(c@ == f.ranges@[i - 1]@);
            assert(ranges@ == before.push(c));
            assert(f.ranges@.take(i as int) =~= f.ranges@.take(i - 1).push(f.ranges@[i - 1]));
            assert(ranges@.map_values(|r: NoteRange| r@) =~= before.map_values(|r: NoteRange| r@).push(c@));
            assert(f.ranges@.take(i as int).map_values(|r: NoteRange| r@) =~= f.ranges@.take(i - 1).map_values(|r: NoteRange| r@).push(f.ranges@[i - 1]@));
            assert(ranges@.map_values(|r: NoteRange| r@) =~= f.ranges@.take(i as int).map_values(|r: NoteRange| r@));
        }
    }
    proof {
        assert(f.ranges@.take(f.ranges@.len() as int) =~= f.ranges@);
    }
    NoteFile { path: f.path.clone(), ranges }
}

/// The lines of the file section of a note.
fn section_text_lines(files: &Vec<NoteFile>) -> (lines: Vec<Vec<char>>)
    ensures
        lines@.map_values(|l: Vec<char>| l@) == section_lines(files_view(files@)),
{
    let mut copies: Vec<NoteFile> = Vec::new();
    let mut c: usize = 0;
    while c < files.len()
        invariant
            c <= files@.len(),
            files_view(copies@) == files_view(files@.take(c as int)),
        decreases files@.len() - c,
    {
        let f = copy_note_file(&files[c]);
        let ghost before = copies@;
        copies.push(f);
        c = c + 1;
        proof {
            assert(copies@ == before.push(f));
            assert(files@.take(c as int) =~= files@.take(c - 1).push(files@[c - 1]));
            assert(files_view(copies@) =~= files_view(before).push(f@));
            assert(files_view(files@.take(c as int)) =~= files_view(files@.take(c - 1)).push(files@[c - 1]@));
            assert(files_view(copies@) =~= files_view(files@.take(c as int)));
        }
    }
    proof {
        assert(files@.take(files@.len() as int) =~= files@);
    }
    let sorted = sort_note_files(copies);
    let ghost fv = files_view(sorted@);
    let mut lines: Vec<Vec<char>> = Vec::new();
    let mut i: usize = 0;
    proof {
        assert(fv.take(0) =~= Seq::<FileView>::empty());
        assert(lines@.map_values(|l: Vec<char>| l@) =~= Seq::<Seq<char>>::empty());
    }
    while i < sorted.len()
        invariant
            i <= sorted@.len(),
            fv == files_view(sorted@),
            fv == sort_files(files_view(files@)),
            lines@.map_values(|l: Vec<char>| l@) == blocks_lines(fv.take(i as int)),
        decreases sorted@.len() - i,
    {
        let f = &sorted[i];
        proof {
            assert(fv.take(i as int + 1).drop_last() =~= fv.take(i as int));
            assert(fv.take(i as int + 1).last() == f@);
        }
        let ghost base = lines@.map_values(|l: Vec<char>| l@);
        lines.push(chars_of(f.path.as_str()));
        let distinct = file_sessions(f);
        proof {
            assert(distinct@.map_values(|t: String| t@) =~= sessions_of(f@.1));
        }
        let sessions = sort_strings(distinct);
        let ghost ss = sort_texts(sessions_of(f@.1));
        proof {
            assert(sessions@.map_values(|t: String| t@) == ss);
            assert(lines@.map_values(|l: Vec<char>| l@) =~= base + seq![f@.0]);
        }
        let mut k: usize = 0;
        while k < sessions.len()
            invariant
                k <= sessions@.len(),
                sessions@.map_values(|t: String| t@) == ss,
                lines@.map_values(|l: Vec<char>| l@) == base + seq![f@.0] + ss.take(k as int).map_values(
                    |sid: Seq<char>| session_text(sid, f@.1),
                ),
            decreases sessions@.len() - k,
        {
            let sid = &sessions[k];
            proof {
                assert(sid@ == ss[k as int]);
            }
            let merged = merge_ranges(file_session_pairs(f, sid));
            let mut line: Vec<char> = Vec::new();
            line.push(' ');
            line.push(' ');
            push_all(&mut line, &chars_of(sid.as_str()));
            line.push(' ');
            push_all(&mut line, &render_range_list(&merged));
            proof {
                assert(line@ =~= session_text(sid@, f@.1));
            }
            let ghost prev = lines@.map_values(|l: Vec<char>| l@);
            lines.push(line);
            k = k + 1;
            proof {
                assert(ss.take(k as int).map_values(|sid: Seq<char>| session_text(sid, f@.1)) =~= ss.take(k - 1).map_values(
                    |sid: Seq<char>| session_text(sid, f@.1),
                ).push(session_text(ss[k - 1], f@.1)));
                assert(lines@.map_values(|l: Vec<char>| l@) =~= prev.push(line@));
            }
        }
        proof {
            assert(ss.take(ss.len() as int) =~= ss);
            assert(lines@.map_values(|l: Vec<char>| l@) =~= base + block_lines(f@));
        }
        i = i + 1;
    }
    proof {
        assert(fv.take(fv.len() as int) =~= fv);
    }
    lines
}

/// Writes a note: the file section (the files in ascending order of path,
/// each as its path, then one line per session in ascending order of
/// session id with its merged ranges), the separator line, then the JSON
/// text.
pub fn build_attribution_note(files: &Vec<NoteFile>, payload_json: &str) -> (note: String)
    ensures
        note@ == note_text(files_view(files@), payload_json@),
{
    let mut lines = section_text_lines(files);
    let ghost sl = section_lines(files_view(files@));
    lines.push(chars_of("---"));
    lines.push(chars_of(payload_json));
    proof {
        assert(lines@.map_values(|l: Vec<char>| l@) =~= sl + seq!["---"@, payload_json@]);
        assert(lines@.map_values(|l: Vec<char>| l@).skip(0) =~= lines@.map_values(|l: Vec<char>| l@));
    }
    string_of(&join_lines_from(&lines, 0))
}

} // verus!
