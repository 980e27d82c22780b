//! The order of texts (by code point, as strings compare) and insertion
//! sorts of note files by path and of session ids.

use vstd::prelude::*;

use crate::notes::{FileView, NoteFile, files_view};
use crate::store::lemma_insert_multiset;
use crate::text::chars_of;

verus! {

/// Whether `a` comes before `b`: at the first differing character the
/// smaller code point wins, and a proper prefix comes first.
pub open spec fn text_lt(a: Seq<char>, b: Seq<char>) -> bool
    decreases a.len(),
{
    if a.len() == 0 {
        b.len() > 0
    } else if b.len() == 0 {
        false
    } else if a[0] != b[0] {
        a[0] < b[0]
    } else {
        text_lt(a.drop_first(), b.drop_first())
    }
}

pub proof fn lemma_lt_irreflexive(a: Seq<char>)
    ensures
        !text_lt(a, a),
    decreases a.len(),
{
    if a.len() > 0 {
        lemma_lt_irreflexive(a.drop_first());
    }
}

pub proof fn lemma_lt_asymmetric(a: Seq<char>, b: Seq<char>)
    ensures
        !(text_lt(a, b) && text_lt(b, a)),
    decreases a.len(),
{
    if a.len() > 0 && b.len() > 0 && a[0] == b[0] {
        lemma_lt_asymmetric(a.drop_first(), b.drop_first());
    }
}

pub proof fn lemma_lt_transitive(a: Seq<char>, b: Seq<char>, c: Seq<char>)
    requires
        text_lt(a, b),
        text_lt(b, c),
    ensures
        text_lt(a, c),
    decreases a.len(),
{
    if a.len() > 0 && b.len() > 0 && c.len() > 0 && a[0] == b[0] && b[0] == c[0] {
        lemma_lt_transitive(a.drop_first(), b.drop_first(), c.drop_first());
    }
}

pub proof fn lemma_lt_total(a: Seq<char>, b: Seq<char>)
    requires
        a != b,
    ensures
        text_lt(a, b) || text_lt(b, a),
    decreases a.len(),
{
    if a.len() > 0 && b.len() > 0 && a[0] == b[0] {
        if a.drop_first() == b.drop_first() {
            assert(a.drop_first().len() == a.len() - 1);
            assert(b.drop_first().len() == b.len() - 1);
            assert forall|i: int| 0 <= i < a.len() implies a[i] == b[i] by {
                if i > 0 {
                    assert(a[i] == a.drop_first()[i - 1]);
                    assert(b[i] == b.drop_first()[i - 1]);
                }
            }
            assert(a.len() == b.len());
            assert(a =~= b);
        } else {
            lemma_lt_total(a.drop_first(), b.drop_first());
        }
    } else if a.len() == 0 && b.len() == 0 {
        assert(a =~= b);
    }
}

/// Whether `a` comes before `b` as text.
pub fn text_less(a: &String, b: &String) -> (r: bool)
    ensures
        r == text_lt(a@, b@),
{
    let x = chars_of(a.as_str());
    let y = chars_of(b.as_str());
    let mut i: usize = 0;
    proof {
        assert(x@.skip(0) =~= x@);
        assert(y@.skip(0) =~= y@);
    }
    while i < x.len() && i < y.len() && x[i] == y[i]
        invariant
            i <= x@.len() && i <= y@.len(),
            text_lt(a@, b@) == text_lt(x@.skip(i as int), y@.skip(i as int)),
        decreases x@.len() - i,
    {
        proof {
            assert(x@.skip(i as int).drop_first() =~= x@.skip(i as int + 1));
            assert(y@.skip(i as int).drop_first() =~= y@.skip(i as int + 1));
        }
        i = i + 1;
    }
    proof {
        if i < x@.len() {
            assert(x@.skip(i as int)[0] == x@[i as int]);
        }
        if i < y@.len() {
            assert(y@.skip(i as int)[0] == y@[i as int]);
        }
    }
    if i == x.len() {
        i < y.len()
    } else if i == y.len() {
        false
    } else {
        x[i] < y[i]
    }
}

// ----- files by path -----

/// Index of the first file whose path comes after `p`, or the number of
/// files.
pub open spec fn file_slot(s: Seq<FileView>, p: Seq<char>) -> int
    decreases s.len(),
{
    if s.len() == 0 {
        0
    } else {
        let q = file_slot(s.drop_last(), p);
        if q < s.len() - 1 {
            q
        } else if text_lt(p, s.last().0) {
            s.len() - 1
        } else {
            s.len() as int
        }
    }
}

/// Files sorted by path by insertion: each file goes after every file
/// already placed whose path does not come after its own.
pub open spec fn sort_files(files: Seq<FileView>) -> Seq<FileView>
    decreases files.len(),
{
    if files.len() == 0 {
        Seq::empty()
    } else {
        let s = sort_files(files.drop_last());
        s.insert(file_slot(s, files.last().0), files.last())
    }
}

proof fn lemma_file_slot(s: Seq<FileView>, p: Seq<char>, q: int)
    requires
        0 <= q <= s.len(),
        forall|k: int| 0 <= k < q ==> !text_lt(p, (#[trigger] s[k]).0),
        q < s.len() ==> text_lt(p, s[q].0),
    ensures
        file_slot(s, p) == q,
    decreases s.len(),
{
    if s.len() > 0 {
        let d = s.drop_last();
        if q < s.len() - 1 {
            lemma_file_slot(d, p, q);
        } else {
            lemma_file_slot(d, p, d.len() as int);
        }
    }
}

proof fn lemma_file_slot_bounds(s: Seq<FileView>, p: Seq<char>)
    ensures
        0 <= file_slot(s, p) <= s.len(),
        forall|k: int| 0 <= k < file_slot(s, p) ==> !text_lt(p, (#[trigger] s[k]).0),
        file_slot(s, p) < s.len() ==> text_lt(p, s[file_slot(s, p)].0),
    decreases s.len(),
{
    if s.len() > 0 {
        let d = s.drop_last();
        lemma_file_slot_bounds(d, p);
        assert forall|k: int| 0 <= k < d.len() implies d[k] == s[k] by {}
    }
}

/// Paths in order: no later path comes before an earlier one.
pub open spec fn paths_ascending(s: Seq<FileView>) -> bool {
    forall|i: int, j: int| 0 <= i <= j < s.len() ==> !text_lt((#[trigger] s[j]).0, (#[trigger] s[i]).0)
}

/// Sorting files orders them by path and keeps the same files.
pub proof fn lemma_sort_files(files: Seq<FileView>)
    ensures
        paths_ascending(sort_files(files)),
        sort_files(files).to_multiset() == files.to_multiset(),
        sort_files(files).len() == files.len(),
    decreases files.len(),
{
    if files.len() > 0 {
        let d = files.drop_last();
        lemma_sort_files(d);
        let s = sort_files(d);
        let x = files.last();
        let q = file_slot(s, x.0);
        lemma_file_slot_bounds(s, x.0);
        s.insert_ensures(q, x);
        lemma_insert_multiset(s, q, x);
        assert(files =~= d.push(x));
        d.to_multiset_ensures();
        assert(d.push(x).to_multiset() =~= d.to_multiset().insert(x));
        let out = s.insert(q, x);
        assert(out.to_multiset() == s.to_multiset().insert(x));
        assert(out.to_multiset() == files.to_multiset());
        assert forall|i: int, j: int| 0 <= i <= j < out.len() implies !text_lt((#[trigger] out[j]).0, (#[trigger] out[i]).0) by {
            if i == j {
                lemma_lt_irreflexive(out[i].0);
            } else if j < q {
            } else if i < q && j == q {
                if text_lt(x.0, s[i].0) {
                } else {
                    lemma_lt_asymmetric(x.0, s[i].0);
                    if x.0 != s[i].0 {
                        lemma_lt_total(x.0, s[i].0);
                    } else {
                        lemma_lt_irreflexive(x.0);
                    }
                }
            } else if i < q {
                assert(out[j] == s[j - 1]);
                if text_lt(s[j - 1].0, s[i].0) {
                }
            } else if i == q {
                assert(out[j] == s[j - 1]);
                assert(text_lt(x.0, s[q].0));
                if q < j - 1 {
                    if text_lt(s[j - 1].0, x.0) {
                        if s[j - 1].0 == s[q].0 {
                        } else {
                            lemma_lt_total(s[j - 1].0, s[q].0);
                            if text_lt(s[q].0, s[j - 1].0) {
                                lemma_lt_transitive(x.0, s[q].0, s[j - 1].0);
                                lemma_lt_asymmetric(x.0, s[j - 1].0);
                            }
                        }
                        lemma_lt_transitive(s[j - 1].0, x.0, s[q].0);
                    }
                } else {
                    lemma_lt_asymmetric(x.0, s[q].0);
                }
            } else {
                assert(out[i] == s[i - 1]);
                assert(out[j] == s[j - 1]);
            }
        }
    } else {
        assert(files =~= Seq::<FileView>::empty());
    }
}

/// Sorts note files by path, keeping the order of files with the same path.
pub fn sort_note_files(files: Vec<NoteFile>) -> (out: Vec<NoteFile>)
    ensures
        files_view(out@) == sort_files(files_view(files@)),
{
    let ghost all = files_view(files@);
    let mut rest = files;
    let mut out: Vec<NoteFile> = Vec::new();
    let mut i: usize = 0;
    proof {
        assert(files_view(out@) =~= sort_files(all.take(0)));
    }
    while i < rest.len()
        invariant
            i <= rest@.len(),
            rest@.len() == all.len(),
            forall|k: int| i <= k < all.len() ==> (#[trigger] rest@[k])@ == all[k],
            files_view(out@) == sort_files(all.take(i as int)),
        decreases rest@.len() - i,
    {
        let mut x = NoteFile { path: String::new(), ranges: Vec::new() };
        std::mem::swap(&mut x, &mut rest[i]);
        let ghost before = files_view(out@);
        let mut pos: usize = 0;
        while pos < out.len() && !text_less(&x.path, &out[pos].path)
            invariant
                pos <= out@.len(),
                before == files_view(out@),
                forall|k: int| 0 <= k < pos ==> !text_lt(x@.0, (#[trigger] before[k]).0),
            decreases out@.len() - pos,
        {
            pos = pos + 1;
        }
        proof {
            assert(x@ == all[i as int]);
            lemma_file_slot(before, x@.0, pos as int);
            assert(all.take(i as int + 1).drop_last() =~= all.take(i as int));
            assert(all.take(i as int + 1).last() == x@);
        }
        let ghost xv = x@;
        let ghost ov = out@;
        out.insert(pos, x);
        proof {
            assert(files_view(out@) =~= before.insert(pos as int, xv)) by {
                ov.insert_ensures(pos as int, out@[pos as int]);
                before.insert_ensures(pos as int, xv);
            }
        }
        i = i + 1;
    }
    proof {
        assert(all.take(all.len() as int) =~= all);
    }
    out
}

// ----- session ids -----

/// Index of the first text that comes after `p`, or the number of texts.
pub open spec fn text_slot(s: Seq<Seq<char>>, p: Seq<char>) -> int
    decreases s.len(),
{
    if s.len() == 0 {
        0
    } else {
        let q = text_slot(s.drop_last(), p);
        if q < s.len() - 1 {
            q
        } else if text_lt(p, s.last()) {
            s.len() - 1
        } else {
            s.len() as int
        }
    }
}

/// Texts sorted by insertion.
pub open spec fn sort_texts(ts: Seq<Seq<char>>) -> Seq<Seq<char>>
    decreases ts.len(),
{
    if ts.len() == 0 {
        Seq::empty()
    } else {
        let s = sort_texts(ts.drop_last());
        s.insert(text_slot(s, ts.last()), ts.last())
    }
}

proof fn lemma_text_slot(s: Seq<Seq<char>>, p: Seq<char>, q: int)
    requires
        0 <= q <= s.len(),
        forall|k: int| 0 <= k < q ==> !text_lt(p, #[trigger] s[k]),
        q < s.len() ==> text_lt(p, s[q]),
    ensures
        text_slot(s, p) == q,
    decreases s.len(),
{
    if s.len() > 0 {
        let d = s.drop_last();
        if q < s.len() - 1 {
            lemma_text_slot(d, p, q);
        } else {
            lemma_text_slot(d, p, d.len() as int);
        }
    }
}

proof fn lemma_text_slot_bounds(s: Seq<Seq<char>>, p: Seq<char>)
    ensures
        0 <= text_slot(s, p) <= s.len(),
        forall|k: int| 0 <= k < text_slot(s, p) ==> !text_lt(p, #[trigger] s[k]),
        text_slot(s, p) < s.len() ==> text_lt(p, s[text_slot(s, p)]),
    decreases s.len(),
{
    if s.len() > 0 {
        let d = s.drop_last();
        lemma_text_slot_bounds(d, p);
        assert forall|k: int| 0 <= k < d.len() implies d[k] == s[k] by {}
    }
}

/// Texts in order: no later text comes before an earlier one.
pub open spec fn texts_ascending(s: Seq<Seq<char>>) -> bool {
    forall|i: int, j: int| 0 <= i <= j < s.len() ==> !text_lt(#[trigger] s[j], #[trigger] s[i])
}

/// Sorting texts orders them and keeps the same texts.
pub proof fn lemma_sort_texts(ts: Seq<Seq<char>>)
    ensures
        texts_ascending(sort_texts(ts)),
        sort_texts(ts).to_multiset() == ts.to_multiset(),
        sort_texts(ts).len() == ts.len(),
    decreases ts.len(),
{
    if ts.len() > 0 {
        let d = ts.drop_last();
        lemma_sort_texts(d);
        let s = sort_texts(d);
        let x = ts.last();
        let q = text_slot(s, x);
        lemma_text_slot_bounds(s, x);
        s.insert_ensures(q, x);
        lemma_insert_multiset(s, q, x);
        assert(ts =~= d.push(x));
        d.to_multiset_ensures();
        assert(d.push(x).to_multiset() =~= d.to_multiset().insert(x));
        let out = s.insert(q, x);
        assert(out.to_multiset() == ts.to_multiset());
        assert forall|i: int, j: int| 0 <= i <= j < out.len() implies !text_lt(#[trigger] out[j], #[trigger] out[i]) by {
            if i == j {
                lemma_lt_irreflexive(out[i]);
            } else if j < q {
            } else if i < q && j == q {
                if !text_lt(x, s[i]) {
                    lemma_lt_asymmetric(x, s[i]);
                    if x != s[i] {
                        lemma_lt_total(x, s[i]);
                    } else {
                        lemma_lt_irreflexive(x);
                    }
                }
            } else if i < q {
                assert(out[j] == s[j - 1]);
            } else if i == q {
                assert(out[j] == s[j - 1]);
                if q < j - 1 {
                    if text_lt(s[j - 1], x) {
                        if s[j - 1] != s[q] {
                            lemma_lt_total(s[j - 1], s[q]);
                            if text_lt(s[q], s[j - 1]) {
                                lemma_lt_transitive(x, s[q], s[j - 1]);
                                lemma_lt_asymmetric(x, s[j - 1]);
                            }
                        }
                        lemma_lt_transitive(s[j - 1], x, s[q]);
                    }
                } else {
                    lemma_lt_asymmetric(x, s[q]);
                }
            } else {
                assert(out[i] == s[i - 1]);
                assert(out[j] == s[j - 1]);
            }
        }
    } else {
        assert(ts =~= Seq::<Seq<char>>::empty());
    }
}

/// Sorts texts.
pub fn sort_strings(ts: Vec<String>) -> (out: Vec<String>)
    ensures
        out@.map_values(|t: String| t@) == sort_texts(ts@.map_values(|t: String| t@)),
{
    let ghost all = ts@.map_values(|t: String| t@);
    let mut out: Vec<String> = Vec::new();
    let mut i: usize = 0;
    proof {
        assert(out@.map_values(|t: String| t@) =~= sort_texts(all.take(0)));
    }
    while i < ts.len()
        invariant
            i <= ts@.len(),
            all == ts@.map_values(|t: String| t@),
            out@.map_values(|t: String| t@) == sort_texts(all.take(i as int)),
        decreases ts@.len() - i,
    {
        let x = ts[i].clone();
        let ghost before = out@.map_values(|t: String| t@);
        let mut pos: usize = 0;
        while pos < out.len() && !text_less(&x, &out[pos])
            invariant
                pos <= out@.len(),
                before == out@.map_values(|t: String| t@),
                forall|k: int| 0 <= k < pos ==> !text_lt(x@, #[trigger] before[k]),
            decreases out@.len() - pos,
        {
            pos = pos + 1;
        }
        proof {
            assert(x@ == all[i as int]);
            lemma_text_slot(before, x@, pos as int);
            assert(all.take(i as int + 1).drop_last() =~= all.take(i as int));
            assert(all.take(i as int + 1).last() == x@);
        }
        let ghost ov = out@;
        out.insert(pos, x);
        proof {
            assert(out@.map_values(|t: String| t@) =~= before.insert(pos as int, x@)) by {
                ov.insert_ensures(pos as int, x);
                before.insert_ensures(pos as int, x@);
            }
        }
        i = i + 1;
    }
    proof {
        assert(all.take(all.len() as int) =~= all);
    }
    out
}

} // verus!
