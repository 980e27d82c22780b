//! Laws of the note codec: every range read from a note is 1-based and
//! names a session id, and a note built from well-formed files parses to
//! files that attribute exactly the same lines to the same sessions.

use vstd::prelude::*;

use crate::cover::{canonical, covered, in_range, is_merged, lemma_canonical_exists, same_cover};
use crate::notes::{
    block_lines, blocks_lines, join_lines, lemma_separator_index, note_files, note_text, section_files, section_lines,
    section_state, separator_index, session_pairs, sessions_of, tag_ranges, FileView, comma_pieces, dash_index, join_space, lemma_dash_index, pieces_state, ranges_of_pieces, render_range,
    render_ranges, session_line, session_text, token_range, words, words_state,
};
use crate::order::{lemma_sort_files, lemma_sort_texts, paths_ascending, sort_files, sort_texts};
use crate::text::{lines_of, lines_state, strip_cr, all_digits, dec, dec_nat, digits_value, is_digit, is_ws, parse_i32_spec, trim, trim_end, trim_start};

verus! {

proof fn lemma_dec_nat_digits(n: nat)
    ensures
        dec_nat(n).len() > 0,
        all_digits(dec_nat(n)),
        digits_value(dec_nat(n)) == n,
    decreases n,
{
    if n >= 10 {
        lemma_dec_nat_digits(n / 10);
        let p = dec_nat(n / 10);
        let d = dec_nat(n);
        let c = ((48 + n % 10) as u8) as char;
        assert(d == p.push(c));
        assert(d.drop_last() =~= p);
        assert(c as int == 48 + n % 10);
        assert forall|k: int| 0 <= k < d.len() implies is_digit(#[trigger] d[k]) by {
            if k < p.len() {
                assert(d[k] == p[k]);
            }
        }
        assert('0' as int == 48);
        assert(digits_value(d) == digits_value(p) * 10 + (c as int - '0' as int));
        assert((n / 10) * 10 + n % 10 == n) by (nonlinear_arith);
    } else {
        let d = dec_nat(n);
        let c = ((48 + n) as u8) as char;
        assert(d == seq![c]);
        assert(c as int == 48 + n);
        assert(d.drop_last() =~= Seq::<char>::empty());
        assert(is_digit(d[0]));
        assert('0' as int == 48);
        assert(digits_value(d) == digits_value(d.drop_last()) * 10 + (d.last() as int - '0' as int));
        assert(digits_value(d.drop_last()) == 0);
    }
}

/// A positive `i32` written in decimal reads back as itself.
pub proof fn lemma_decimal_round_trip(n: i32)
    requires
        n > 0,
    ensures
        parse_i32_spec(dec(n as int)) == Some(n),
        all_digits(dec(n as int)),
        dec(n as int).len() > 0,
{
    let d = dec(n as int);
    lemma_dec_nat_digits(n as nat);
    assert(d == dec_nat(n as nat));
    assert(is_digit(d[0]));
}

proof fn lemma_no_dash(s: Seq<char>)
    requires
        all_digits(s),
    ensures
        dash_index(s) == s.len(),
{
    assert forall|k: int| 0 <= k < s.len() implies s[k] != '-' by {
        assert(is_digit(s[k]));
    }
    lemma_dash_index(s, s.len() as int);
}

proof fn lemma_digits_trim(s: Seq<char>)
    requires
        all_digits(s),
        s.len() > 0,
    ensures
        trim(s) == s,
{
    assert(is_digit(s[0]));
    assert(!is_ws(s[0]));
    assert(trim_start(s) == s);
    assert(is_digit(s.last()));
    assert(trim_end(s) == s);
}

/// A range with `1 <= start <= end`, as written, reads back as itself.
pub proof fn lemma_token_round_trip(r: (i32, i32))
    requires
        1 <= r.0 <= r.1,
    ensures
        token_range(render_range(r)) == Some(r),
{
    lemma_decimal_round_trip(r.0);
    lemma_decimal_round_trip(r.1);
    let a = dec(r.0 as int);
    let b = dec(r.1 as int);
    if r.0 == r.1 {
        lemma_no_dash(a);
    } else {
        let t = a + seq!['-'] + b;
        assert(render_range(r) == t);
        assert forall|k: int| 0 <= k < a.len() implies t[k] != '-' by {
            assert(t[k] == a[k]);
            assert(is_digit(a[k]));
        }
        assert(t[a.len() as int] == '-');
        lemma_dash_index(t, a.len() as int);
        assert(t.take(a.len() as int) =~= a);
        assert(t.skip(a.len() as int + 1) =~= b);
        lemma_digits_trim(a);
        lemma_digits_trim(b);
    }
}

/// Characters that a written range may hold.
spec fn range_char(c: char) -> bool {
    is_digit(c) || c == '-'
}

proof fn lemma_render_chars(r: (i32, i32))
    requires
        1 <= r.0 <= r.1,
    ensures
        render_range(r).len() > 0,
        forall|k: int| 0 <= k < render_range(r).len() ==> range_char(#[trigger] render_range(r)[k]),
        is_digit(render_range(r)[0]),
        is_digit(render_range(r).last()),
{
    lemma_decimal_round_trip(r.0);
    lemma_decimal_round_trip(r.1);
    let a = dec(r.0 as int);
    let b = dec(r.1 as int);
    if r.0 != r.1 {
        let t = a + seq!['-'] + b;
        assert forall|k: int| 0 <= k < t.len() implies range_char(#[trigger] t[k]) by {
            if k < a.len() {
                assert(t[k] == a[k]);
            } else if k > a.len() {
                assert(t[k] == b[k - a.len() - 1]);
            }
        }
        assert(t[0] == a[0]);
        assert(t.last() == b.last());
        assert(is_digit(b[b.len() - 1]));
    } else {
        assert(is_digit(a[a.len() - 1]));
    }
}

proof fn lemma_pieces_plain(p: Seq<char>, a: Seq<char>)
    requires
        forall|k: int| 0 <= k < a.len() ==> #[trigger] a[k] != ',',
    ensures
        pieces_state(p + a) == (pieces_state(p).0, pieces_state(p).1 + a),
    decreases a.len(),
{
    if a.len() == 0 {
        assert(p + a =~= p);
        assert(pieces_state(p).1 + a =~= pieces_state(p).1);
    } else {
        let a0 = a.drop_last();
        lemma_pieces_plain(p, a0);
        assert((p + a).drop_last() =~= p + a0);
        assert((p + a).last() == a.last());
        assert(pieces_state(p).1 + a =~= (pieces_state(p).1 + a0).push(a.last()));
    }
}

/// Well-formed intervals: each starts at line 1 or later and ends at or
/// after its start.
pub open spec fn proper_ranges(rs: Seq<(i32, i32)>) -> bool {
    forall|k: int| 0 <= k < rs.len() ==> 1 <= (#[trigger] rs[k]).0 <= rs[k].1
}

proof fn lemma_pieces_of_render(t: Seq<(i32, i32)>)
    requires
        t.len() > 0,
        proper_ranges(t),
    ensures
        pieces_state(render_ranges(t)) == (t.drop_last().map_values(|r: (i32, i32)| render_range(r)), render_range(t.last())),
    decreases t.len(),
{
    let tok = render_range(t.last());
    lemma_render_chars(t.last());
    assert forall|k: int| 0 <= k < tok.len() implies #[trigger] tok[k] != ',' by {
        assert(range_char(tok[k]));
    }
    if t.len() == 1 {
        lemma_pieces_plain(Seq::empty(), tok);
        assert(Seq::<char>::empty() + tok =~= tok);
        assert(pieces_state(Seq::<char>::empty()) == (Seq::<Seq<char>>::empty(), Seq::<char>::empty()));
        assert(t.drop_last().map_values(|r: (i32, i32)| render_range(r)) =~= Seq::<Seq<char>>::empty());
        assert(render_ranges(t) == render_range(t[0]));
    } else {
        let t0 = t.drop_last();
        assert forall|k: int| 0 <= k < t0.len() implies 1 <= (#[trigger] t0[k]).0 <= t0[k].1 by {
            assert(t0[k] == t[k]);
        }
        lemma_pieces_of_render(t0);
        let head = render_ranges(t0) + seq![','];
        assert(head.drop_last() =~= render_ranges(t0));
        assert(head.last() == ',');
        lemma_pieces_plain(head, tok);
        assert(render_ranges(t) == head + tok);
        assert(t0.drop_last().map_values(|r: (i32, i32)| render_range(r)).push(render_range(t0.last())) =~= t0.map_values(
            |r: (i32, i32)| render_range(r),
        ));
    }
}

proof fn lemma_token_trim(r: (i32, i32))
    requires
        1 <= r.0 <= r.1,
    ensures
        trim(render_range(r)) == render_range(r),
{
    lemma_render_chars(r);
    let t = render_range(r);
    assert(!is_ws(t[0]));
    assert(trim_start(t) == t);
    assert(!is_ws(t.last()));
    assert(trim_end(t) == t);
}

proof fn lemma_ranges_of_render(t: Seq<(i32, i32)>)
    requires
        proper_ranges(t),
    ensures
        ranges_of_pieces(t.map_values(|r: (i32, i32)| render_range(r))) == t,
    decreases t.len(),
{
    let ps = t.map_values(|r: (i32, i32)| render_range(r));
    if t.len() == 0 {
        assert(ps.len() == 0);
        assert(ranges_of_pieces(ps) =~= t);
    } else {
        let t0 = t.drop_last();
        assert forall|k: int| 0 <= k < t0.len() implies 1 <= (#[trigger] t0[k]).0 <= t0[k].1 by {
            assert(t0[k] == t[k]);
        }
        lemma_ranges_of_render(t0);
        assert(ps.drop_last() =~= t0.map_values(|r: (i32, i32)| render_range(r)));
        lemma_token_trim(t.last());
        lemma_token_round_trip(t.last());
        lemma_render_chars(t.last());
        assert(ranges_of_pieces(ps) =~= t);
    }
}

proof fn lemma_words_plain(p: Seq<char>, a: Seq<char>)
    requires
        forall|k: int| 0 <= k < a.len() ==> !is_ws(#[trigger] a[k]),
    ensures
        words_state(p + a) == (words_state(p).0, words_state(p).1 + a),
    decreases a.len(),
{
    if a.len() == 0 {
        assert(p + a =~= p);
        assert(words_state(p).1 + a =~= words_state(p).1);
    } else {
        let a0 = a.drop_last();
        lemma_words_plain(p, a0);
        assert((p + a).drop_last() =~= p + a0);
        assert((p + a).last() == a.last());
        assert(words_state(p).1 + a =~= (words_state(p).1 + a0).push(a.last()));
    }
}

/// A session id that a note can carry: not empty, without whitespace.
pub open spec fn is_session_id(s: Seq<char>) -> bool {
    s.len() > 0 && forall|k: int| 0 <= k < s.len() ==> !is_ws(#[trigger] s[k])
}

/// The line written for a session reads back as that session with the
/// written ranges.
proof fn lemma_session_line_round_trip(sid: Seq<char>, t: Seq<(i32, i32)>)
    requires
        is_session_id(sid),
        t.len() > 0,
        proper_ranges(t),
    ensures
        session_line(seq![' ', ' '] + sid + seq![' '] + render_ranges(t)) == Some((sid, t)),
        trim_end(seq![' ', ' '] + sid + seq![' '] + render_ranges(t)) == seq![' ', ' '] + sid + seq![' '] + render_ranges(t),
        trim(seq![' ', ' '] + sid + seq![' '] + render_ranges(t)).len() > 0,
{
    let rr = render_ranges(t);
    lemma_pieces_of_render(t);
    lemma_render_chars(t.last());
    let tokens = t.map_values(|r: (i32, i32)| render_range(r));
    assert(comma_pieces(rr) =~= tokens);
    lemma_ranges_of_render(t);
    lemma_render_all_chars(t);
    let sp2 = seq![' ', ' '];
    assert(is_ws(' '));
    assert(sp2.drop_last() =~= seq![' ']);
    assert(seq![' '].drop_last() =~= Seq::<char>::empty());
    assert(seq![' '].last() == ' ');
    assert(sp2.last() == ' ');
    assert(words_state(Seq::<char>::empty()) == (Seq::<Seq<char>>::empty(), Seq::<char>::empty()));
    assert(words_state(seq![' ']) == (Seq::<Seq<char>>::empty(), Seq::<char>::empty()));
    assert(words_state(sp2) == (Seq::<Seq<char>>::empty(), Seq::<char>::empty()));
    lemma_words_plain(sp2, sid);
    let x = sp2 + sid;
    let y = x.push(' ');
    assert(y.drop_last() =~= x);
    assert(words_state(y) == (seq![sid], Seq::<char>::empty()));
    lemma_words_plain(y, rr);
    let te = sp2 + sid + seq![' '] + rr;
    assert(te =~= y + rr);
    assert(words_state(te) == (seq![sid], Seq::<char>::empty() + rr));
    assert(Seq::<char>::empty() + rr =~= rr);
    assert(words(te) =~= seq![sid, rr]);
    assert(seq![sid, rr].drop_first() =~= seq![rr]);
    assert(join_space(seq![rr]) == rr);
    assert(te.last() == rr.last());
    assert(!is_ws(te.last()));
    assert(trim_end(te) == te);
    let u = sid + seq![' '] + rr;
    assert(te.drop_first().drop_first() =~= u);
    assert(trim_start(te) == trim_start(te.drop_first()));
    assert(trim_start(te.drop_first()) == trim_start(u));
    assert(u[0] == sid[0]);
    assert(trim_start(u) == u);
    assert(u.last() == rr.last());
    assert(trim_end(u) == u);
}

proof fn lemma_render_all_chars(t: Seq<(i32, i32)>)
    requires
        proper_ranges(t),
        t.len() > 0,
    ensures
        render_ranges(t).len() > 0,
        forall|k: int| 0 <= k < render_ranges(t).len() ==> !is_ws(#[trigger] render_ranges(t)[k]),
        render_ranges(t).last() == render_range(t.last()).last(),
    decreases t.len(),
{
    lemma_render_chars(t.last());
    let tok = render_range(t.last());
    assert forall|k: int| 0 <= k < tok.len() implies !is_ws(#[trigger] tok[k]) by {
        assert(range_char(tok[k]));
    }
    if t.len() > 1 {
        let t0 = t.drop_last();
        assert forall|k: int| 0 <= k < t0.len() implies 1 <= (#[trigger] t0[k]).0 <= t0[k].1 by {
            assert(t0[k] == t[k]);
        }
        lemma_render_all_chars(t0);
        let r0 = render_ranges(t0);
        let all = r0 + seq![','] + tok;
        assert(render_ranges(t) == all);
        assert forall|k: int| 0 <= k < all.len() implies !is_ws(#[trigger] all[k]) by {
            if k < r0.len() {
                assert(all[k] == r0[k]);
            } else if k > r0.len() {
                assert(all[k] == tok[k - r0.len() - 1]);
            }
        }
    }
}

// ----- lines -----

/// A line that the line splitter gives back unchanged and that is not the
/// separator.
spec fn plain_line(l: Seq<char>) -> bool {
    &&& forall|k: int| 0 <= k < l.len() ==> #[trigger] l[k] != '\n'
    &&& l.len() > 0 ==> l.last() != '\r'
    &&& l != "---"@
}

proof fn lemma_lines_plain(p: Seq<char>, a: Seq<char>)
    requires
        forall|k: int| 0 <= k < a.len() ==> #[trigger] a[k] != '\n',
    ensures
        lines_state(p + a) == (lines_state(p).0, lines_state(p).1 + a),
    decreases a.len(),
{
    if a.len() == 0 {
        assert(p + a =~= p);
        assert(lines_state(p).1 + a =~= lines_state(p).1);
    } else {
        let a0 = a.drop_last();
        lemma_lines_plain(p, a0);
        assert((p + a).drop_last() =~= p + a0);
        assert((p + a).last() == a.last());
        assert(lines_state(p).1 + a =~= (lines_state(p).1 + a0).push(a.last()));
    }
}

proof fn lemma_lines_prefix(p: Seq<char>, q: Seq<char>)
    ensures
        lines_state(p + q).0.len() >= lines_state(p).0.len(),
        lines_state(p + q).0.take(lines_state(p).0.len() as int) == lines_state(p).0,
    decreases q.len(),
{
    if q.len() == 0 {
        assert(p + q =~= p);
        assert(lines_state(p).0.take(lines_state(p).0.len() as int) =~= lines_state(p).0);
    } else {
        let q0 = q.drop_last();
        lemma_lines_prefix(p, q0);
        assert((p + q).drop_last() =~= p + q0);
        let a = lines_state(p + q0).0;
        let n = lines_state(p).0.len() as int;
        if q.last() == '\n' {
            assert(a.push(strip_cr(lines_state(p + q0).1)).take(n) =~= a.take(n));
        }
    }
}

proof fn lemma_join_state(l: Seq<Seq<char>>)
    requires
        l.len() > 0,
        forall|k: int| 0 <= k < l.len() - 1 ==> plain_line(#[trigger] l[k]),
        forall|k: int| 0 <= k < l.last().len() ==> #[trigger] l.last()[k] != '\n',
    ensures
        lines_state(join_lines(l)) == (l.drop_last(), l.last()),
    decreases l.len(),
{
    if l.len() == 1 {
        assert(l[0] == l.last());
        lemma_lines_plain(Seq::empty(), l[0]);
        assert(Seq::<char>::empty() + l[0] =~= l[0]);
        assert(l.drop_last() =~= Seq::<Seq<char>>::empty());
    } else {
        let l0 = l.drop_last();
        assert forall|k: int| 0 <= k < l0.len() - 1 implies plain_line(#[trigger] l0[k]) by {
            assert(l0[k] == l[k]);
        }
        assert(l0.last() == l[l.len() - 2]);
        assert(plain_line(l[l.len() - 2]));
        lemma_join_state(l0);
        let head = join_lines(l0) + seq!['\n'];
        assert(head.drop_last() =~= join_lines(l0));
        assert(head.last() == '\n');
        assert(strip_cr(l0.last()) == l0.last());
        assert(l0.drop_last().push(l0.last()) =~= l0);
        lemma_lines_plain(head, l.last());
        assert(join_lines(l) == head + l.last());
        assert(Seq::<char>::empty() + l.last() =~= l.last());
    }
}

/// The lines of a note up to its separator are the lines of its file
/// section.
proof fn lemma_note_lines(sl: Seq<Seq<char>>, json: Seq<char>)
    requires
        forall|k: int| 0 <= k < sl.len() ==> plain_line(#[trigger] sl[k]),
    ensures
        separator_index(lines_of(join_lines(sl + seq!["---"@, json]))) == sl.len(),
        lines_of(join_lines(sl + seq!["---"@, json])).take(sl.len() as int) == sl,
{
    reveal_strlit("---");
    let m = sl.push("---"@);
    let all = sl + seq!["---"@, json];
    assert(all.drop_last() =~= m);
    assert(all.last() == json);
    assert(m.last() == "---"@);
    assert forall|k: int| 0 <= k < m.len() - 1 implies plain_line(#[trigger] m[k]) by {
        assert(m[k] == sl[k]);
    }
    assert forall|k: int| 0 <= k < m.last().len() implies #[trigger] m.last()[k] != '\n' by {}
    lemma_join_state(m);
    assert(m.drop_last() =~= sl);
    let head = join_lines(m) + seq!['\n'];
    assert(head.drop_last() =~= join_lines(m));
    assert(head.last() == '\n');
    assert(strip_cr("---"@) == "---"@);
    assert(lines_state(head) == (m, Seq::<char>::empty()));
    assert(join_lines(all) == head + json);
    lemma_lines_prefix(head, json);
    let st = lines_state(head + json);
    let ls = lines_of(head + json);
    assert(ls.len() >= m.len());
    assert(ls.take(m.len() as int) =~= m) by {
        if st.1.len() > 0 {
            assert(st.0.push(st.1).take(m.len() as int) =~= st.0.take(m.len() as int));
        }
    }
    assert forall|k: int| 0 <= k < sl.len() implies ls[k] != "---"@ by {
        assert(ls[k] == ls.take(m.len() as int)[k]);
        assert(ls[k] == sl[k]);
    }
    assert(ls[sl.len() as int] == ls.take(m.len() as int)[sl.len() as int]);
    lemma_separator_index(ls, sl.len() as int);
    assert(ls.take(sl.len() as int) =~= sl) by {
        assert forall|k: int| 0 <= k < sl.len() implies ls.take(sl.len() as int)[k] == sl[k] by {
            assert(ls[k] == ls.take(m.len() as int)[k]);
        }
    }
}

// ----- blocks -----

/// A path that a note can carry: not empty, without surrounding whitespace
/// or line breaks, and not the separator.
pub open spec fn is_note_path(p: Seq<char>) -> bool {
    &&& p.len() > 0
    &&& !is_ws(p[0])
    &&& !is_ws(p.last())
    &&& forall|k: int| 0 <= k < p.len() ==> #[trigger] p[k] != '\n'
    &&& p != "---"@
}

/// Files that a note can carry: writable paths and session ids, and ranges
/// with `1 <= start <= end`.
pub open spec fn note_files_wf(files: Seq<FileView>) -> bool {
    forall|i: int| 0 <= i < files.len() ==> {
        &&& is_note_path(#[trigger] files[i].0)
        &&& forall|k: int| 0 <= k < files[i].1.len() ==> {
            &&& is_session_id((#[trigger] files[i].1[k]).0)
            &&& 1 <= files[i].1[k].1 <= files[i].1[k].2
        }
    }
}

/// The ranges of a file's ranges with writable session ids and proper
/// lines.
spec fn ranges_wf(rs: Seq<(Seq<char>, i32, i32)>) -> bool {
    forall|k: int| 0 <= k < rs.len() ==> is_session_id((#[trigger] rs[k]).0) && 1 <= rs[k].1 <= rs[k].2
}

/// The ranges read back for a list of sessions: each session's merged
/// ranges, in order.
pub open spec fn session_concat(sids: Seq<Seq<char>>, rs: Seq<(Seq<char>, i32, i32)>) -> Seq<(Seq<char>, i32, i32)>
    decreases sids.len(),
{
    if sids.len() == 0 {
        Seq::empty()
    } else {
        session_concat(sids.drop_last(), rs) + tag_ranges(sids.last(), canonical(session_pairs(rs, sids.last())))
    }
}

/// A file as read back from its block.
pub open spec fn parsed_block(f: FileView) -> FileView {
    (f.0, session_concat(sort_texts(sessions_of(f.1)), f.1))
}

proof fn lemma_sessions_member(rs: Seq<(Seq<char>, i32, i32)>)
    ensures
        forall|sid: Seq<char>| sessions_of(rs).contains(sid) <==> exists|k: int| 0 <= k < rs.len() && (#[trigger] rs[k]).0 == sid,
        forall|j: int| 0 <= j < sessions_of(rs).len() ==> is_session_id(#[trigger] sessions_of(rs)[j]) || !ranges_wf(rs),
    decreases rs.len(),
{
    if rs.len() > 0 {
        let r0 = rs.drop_last();
        lemma_sessions_member(r0);
        let p = sessions_of(r0);
        assert forall|sid: Seq<char>| sessions_of(rs).contains(sid) <==> exists|k: int| 0 <= k < rs.len() && (#[trigger] rs[k]).0 == sid by {
            if sessions_of(rs).contains(sid) {
                let j = choose|j: int| 0 <= j < sessions_of(rs).len() && sessions_of(rs)[j] == sid;
                if j < p.len() && sessions_of(rs)[j] == p[j] {
                    assert(p.contains(sid));
                    let k = choose|k: int| 0 <= k < r0.len() && (#[trigger] r0[k]).0 == sid;
                    assert(rs[k] == r0[k]);
                } else {
                    assert(rs[rs.len() - 1].0 == sid);
                }
            }
            if exists|k: int| 0 <= k < rs.len() && (#[trigger] rs[k]).0 == sid {
                let k = choose|k: int| 0 <= k < rs.len() && (#[trigger] rs[k]).0 == sid;
                if k < r0.len() {
                    assert(r0[k] == rs[k]);
                    assert(p.contains(sid));
                    let j = choose|j: int| 0 <= j < p.len() && p[j] == sid;
                    assert(sessions_of(rs)[j] == sid);
                } else if !p.contains(sid) {
                    assert(sessions_of(rs)[p.len() as int] == sid);
                }
            }
        }
        if ranges_wf(rs) {
            assert(ranges_wf(r0)) by {
                assert forall|k: int| 0 <= k < r0.len() implies is_session_id((#[trigger] r0[k]).0) && 1 <= r0[k].1 <= r0[k].2 by {
                    assert(r0[k] == rs[k]);
                }
            }
            assert forall|j: int| 0 <= j < sessions_of(rs).len() implies is_session_id(#[trigger] sessions_of(rs)[j]) by {
                if j < p.len() {
                    assert(sessions_of(rs)[j] == p[j]);
                } else {
                    assert(sessions_of(rs)[j] == rs.last().0);
                    assert(rs.last() == rs[rs.len() - 1]);
                }
            }
        }
    }
}

proof fn lemma_pairs_cover(rs: Seq<(Seq<char>, i32, i32)>, sid: Seq<char>)
    requires
        ranges_wf(rs),
    ensures
        forall|x: int| covered(session_pairs(rs, sid), x) <==> exists|k: int| 0 <= k < rs.len() && (#[trigger] rs[k]).0 == sid && rs[k].1 <= x <= rs[k].2,
        forall|j: int| 0 <= j < session_pairs(rs, sid).len() ==> 1 <= (#[trigger] session_pairs(rs, sid)[j]).0,
    decreases rs.len(),
{
    if rs.len() > 0 {
        let r0 = rs.drop_last();
        assert(ranges_wf(r0)) by {
            assert forall|k: int| 0 <= k < r0.len() implies is_session_id((#[trigger] r0[k]).0) && 1 <= r0[k].1 <= r0[k].2 by {
                assert(r0[k] == rs[k]);
            }
        }
        lemma_pairs_cover(r0, sid);
        let p0 = session_pairs(r0, sid);
        let pp = session_pairs(rs, sid);
        let l = rs[rs.len() - 1];
        assert(rs.last() == l);
        assert forall|x: int| covered(pp, x) <==> exists|k: int| 0 <= k < rs.len() && (#[trigger] rs[k]).0 == sid && rs[k].1 <= x <= rs[k].2 by {
            if covered(pp, x) {
                let j = choose|j: int| 0 <= j < pp.len() && #[trigger] in_range(pp[j], x);
                if j < p0.len() && pp[j] == p0[j] {
                    assert(covered(p0, x));
                    let k = choose|k: int| 0 <= k < r0.len() && (#[trigger] r0[k]).0 == sid && r0[k].1 <= x <= r0[k].2;
                    assert(rs[k] == r0[k]);
                } else {
                    assert(l.0 == sid);
                    assert(pp[j] == (l.1, l.2));
                }
            }
            if exists|k: int| 0 <= k < rs.len() && (#[trigger] rs[k]).0 == sid && rs[k].1 <= x <= rs[k].2 {
                let k = choose|k: int| 0 <= k < rs.len() && (#[trigger] rs[k]).0 == sid && rs[k].1 <= x <= rs[k].2;
                if k < r0.len() {
                    assert(r0[k] == rs[k]);
                    assert(covered(p0, x));
                    let j = choose|j: int| 0 <= j < p0.len() && #[trigger] in_range(p0[j], x);
                    assert(pp[j] == p0[j]);
                } else {
                    assert(pp[pp.len() - 1] == (l.1, l.2));
                    assert(in_range(pp[pp.len() - 1], x));
                }
            }
        }
        assert forall|j: int| 0 <= j < pp.len() implies 1 <= (#[trigger] pp[j]).0 by {
            if j < p0.len() && pp[j] == p0[j] {
            } else {
                assert(pp[j] == (l.1, l.2));
            }
        }
    }
}

/// The merged ranges of a session that a file names are non-empty and
/// proper.
proof fn lemma_canon_session(rs: Seq<(Seq<char>, i32, i32)>, sid: Seq<char>)
    requires
        ranges_wf(rs),
        sessions_of(rs).contains(sid),
    ensures
        canonical(session_pairs(rs, sid)).len() > 0,
        proper_ranges(canonical(session_pairs(rs, sid))),
        is_merged(canonical(session_pairs(rs, sid))),
        same_cover(canonical(session_pairs(rs, sid)), session_pairs(rs, sid)),
{
    lemma_sessions_member(rs);
    lemma_pairs_cover(rs, sid);
    let pairs = session_pairs(rs, sid);
    let c = canonical(pairs);
    lemma_canonical_exists(pairs);
    let k = choose|k: int| 0 <= k < rs.len() && (#[trigger] rs[k]).0 == sid;
    assert(covered(pairs, rs[k].1 as int));
    assert(covered(c, rs[k].1 as int));
    assert forall|j: int| 0 <= j < c.len() implies 1 <= (#[trigger] c[j]).0 <= c[j].1 by {
        assert(in_range(c[j], c[j].0 as int));
        assert(covered(c, c[j].0 as int));
        assert(covered(pairs, c[j].0 as int));
        let q = choose|q: int| 0 <= q < pairs.len() && #[trigger] in_range(pairs[q], c[j].0 as int);
    }
}

proof fn lemma_session_text_plain(sid: Seq<char>, rs: Seq<(Seq<char>, i32, i32)>)
    requires
        ranges_wf(rs),
        sessions_of(rs).contains(sid),
        is_session_id(sid),
    ensures
        plain_line(session_text(sid, rs)),
        session_line(session_text(sid, rs)) == Some((sid, canonical(session_pairs(rs, sid)))),
        trim_end(session_text(sid, rs)) == session_text(sid, rs),
        trim(session_text(sid, rs)).len() > 0,
        session_text(sid, rs)[0] == ' ',
{
    lemma_canon_session(rs, sid);
    let t = canonical(session_pairs(rs, sid));
    lemma_session_line_round_trip(sid, t);
    lemma_render_all_chars(t);
    lemma_render_chars(t.last());
    let rr = render_ranges(t);
    let line = seq![' ', ' '] + sid + seq![' '] + rr;
    assert(session_text(sid, rs) == line);
    reveal_strlit("---");
    assert(line[0] == ' ');
    assert("---"@[0] == '-');
    assert forall|k: int| 0 <= k < line.len() implies #[trigger] line[k] != '\n' by {
        if k >= 2 && k < 2 + sid.len() {
            assert(line[k] == sid[k - 2]);
            assert(!is_ws(sid[k - 2]));
        } else if k >= 3 + sid.len() {
            assert(line[k] == rr[k - 3 - sid.len()]);
            assert(!is_ws(rr[k - 3 - sid.len()]));
        }
    }
    assert(line.last() == rr.last());
    assert(is_digit(rr.last()));
}

proof fn lemma_path_line(p: Seq<char>)
    requires
        is_note_path(p),
    ensures
        trim_end(p) == p,
        trim(p) == p,
        p[0] != ' ' && p[0] != '\t',
        plain_line(p),
{
    assert(trim_end(p) == p);
    assert(trim_start(p) == p);
    assert(is_ws(' ') && is_ws('\t') && is_ws('\r'));
}

proof fn lemma_sorted_sids(rs: Seq<(Seq<char>, i32, i32)>)
    ensures
        forall|sid: Seq<char>| #[trigger] sort_texts(sessions_of(rs)).contains(sid) <==> sessions_of(rs).contains(sid),
{
    lemma_sort_texts(sessions_of(rs));
    lemma_same_members(sort_texts(sessions_of(rs)), sessions_of(rs));
}

pub proof fn lemma_same_members<A>(a: Seq<A>, b: Seq<A>)
    requires
        a.to_multiset() == b.to_multiset(),
    ensures
        forall|x: A| #[trigger] a.contains(x) <==> b.contains(x),
{
    a.to_multiset_ensures();
    b.to_multiset_ensures();
    assert forall|x: A| #[trigger] a.contains(x) <==> b.contains(x) by {
        assert(a.to_multiset().count(x) == b.to_multiset().count(x));
        assert(a.contains(x) <==> a.to_multiset().count(x) > 0);
        assert(b.contains(x) <==> b.to_multiset().count(x) > 0);
    }
}

proof fn lemma_block_sessions(x1: Seq<Seq<char>>, f: FileView, done: Seq<FileView>, k: int)
    requires
        0 <= k <= sort_texts(sessions_of(f.1)).len(),
        ranges_wf(f.1),
        forall|j: int| 0 <= j < sort_texts(sessions_of(f.1)).len() ==> is_session_id(#[trigger] sort_texts(sessions_of(f.1))[j])
            && sessions_of(f.1).contains(sort_texts(sessions_of(f.1))[j]),
        section_state(x1) == (done, Some((f.0, Seq::<(Seq<char>, i32, i32)>::empty()))),
    ensures
        section_state(x1 + sort_texts(sessions_of(f.1)).map_values(|sid: Seq<char>| session_text(sid, f.1)).take(k)) == (
            done,
            Some((f.0, session_concat(sort_texts(sessions_of(f.1)).take(k), f.1))),
        ),
    decreases k,
{
    let sids = sort_texts(sessions_of(f.1));
    let texts = sids.map_values(|sid: Seq<char>| session_text(sid, f.1));
    if k == 0 {
        assert(x1 + texts.take(0) =~= x1);
        assert(session_concat(sids.take(0), f.1) =~= Seq::<(Seq<char>, i32, i32)>::empty());
    } else {
        lemma_block_sessions(x1, f, done, k - 1);
        let sid = sids[k - 1];
        assert(sessions_of(f.1).contains(sid));
        lemma_session_text_plain(sid, f.1);
        let y = x1 + texts.take(k);
        assert(y.drop_last() =~= x1 + texts.take(k - 1));
        assert(y.last() == session_text(sid, f.1));
        assert(sids.take(k).drop_last() =~= sids.take(k - 1));
        assert(sids.take(k).last() == sid);
    }
}

/// Reading a file's block after some lines closes the open file and leaves
/// the block's file open.
proof fn lemma_block(x: Seq<Seq<char>>, f: FileView)
    requires
        is_note_path(f.0),
        ranges_wf(f.1),
    ensures
        section_state(x + block_lines(f)) == (
            match section_state(x).1 {
                Some(c) => section_state(x).0.push(c),
                None => section_state(x).0,
            },
            Some(parsed_block(f)),
        ),
        forall|k: int| 0 <= k < block_lines(f).len() ==> plain_line(#[trigger] block_lines(f)[k]),
{
    let st = section_state(x);
    let done = match st.1 {
        Some(c) => st.0.push(c),
        None => st.0,
    };
    let sids = sort_texts(sessions_of(f.1));
    lemma_sorted_sids(f.1);
    let texts = sids.map_values(|sid: Seq<char>| session_text(sid, f.1));
    lemma_path_line(f.0);
    lemma_sessions_member(f.1);
    let x1 = x.push(f.0);
    assert(x1.drop_last() =~= x);
    assert(section_state(x1) == (done, Some((f.0, Seq::<(Seq<char>, i32, i32)>::empty()))));
    assert forall|j: int| 0 <= j < sids.len() implies is_session_id(#[trigger] sids[j]) && sessions_of(f.1).contains(sids[j]) by {
        assert(sids.contains(sids[j]));
        let q = choose|q: int| 0 <= q < sessions_of(f.1).len() && sessions_of(f.1)[q] == sids[j];
    }
    lemma_block_sessions(x1, f, done, sids.len() as int);
    assert(texts.take(sids.len() as int) =~= texts);
    assert(sids.take(sids.len() as int) =~= sids);
    assert(block_lines(f) =~= seq![f.0] + texts);
    assert(x + block_lines(f) =~= x1 + texts);
    assert forall|k: int| 0 <= k < block_lines(f).len() implies plain_line(#[trigger] block_lines(f)[k]) by {
        if k > 0 {
            assert(block_lines(f)[k] == texts[k - 1]);
            assert(sids.contains(sids[k - 1]));
            lemma_session_text_plain(sids[k - 1], f.1);
            lemma_session_text_plain(sids[k - 1], f.1);
        }
    }
}

/// Reading the file section of well-formed files gives each file back as
/// read from its block, in order.
proof fn lemma_section(files: Seq<FileView>)
    requires
        note_files_wf(files),
    ensures
        section_files(blocks_lines(files)) == files.map_values(|f: FileView| parsed_block(f)),
        forall|k: int| 0 <= k < blocks_lines(files).len() ==> plain_line(#[trigger] blocks_lines(files)[k]),
        files.len() == 0 ==> section_state(blocks_lines(files)) == (Seq::<FileView>::empty(), None::<FileView>),
        files.len() > 0 ==> section_state(blocks_lines(files)) == (
            files.drop_last().map_values(|f: FileView| parsed_block(f)),
            Some(parsed_block(files.last())),
        ),
    decreases files.len(),
{
    if files.len() == 0 {
        assert(blocks_lines(files) =~= Seq::<Seq<char>>::empty());
        assert(files.map_values(|f: FileView| parsed_block(f)) =~= Seq::<FileView>::empty());
    } else {
        let f0 = files.drop_last();
        assert(note_files_wf(f0)) by {
            assert forall|i: int| 0 <= i < f0.len() implies is_note_path(#[trigger] f0[i].0) && forall|k: int| 0 <= k < f0[i].1.len() ==> {
                &&& is_session_id((#[trigger] f0[i].1[k]).0)
                &&& 1 <= f0[i].1[k].1 <= f0[i].1[k].2
            } by {
                assert(f0[i] == files[i]);
            }
        }
        lemma_section(f0);
        let f = files.last();
        assert(f == files[files.len() - 1]);
        assert(ranges_wf(f.1)) by {
            assert forall|k: int| 0 <= k < f.1.len() implies is_session_id((#[trigger] f.1[k]).0) && 1 <= f.1[k].1 <= f.1[k].2 by {
                assert(files[files.len() - 1].1[k] == f.1[k]);
            }
        }
        lemma_block(blocks_lines(f0), f);
        assert(blocks_lines(files) == blocks_lines(f0) + block_lines(f));
        if f0.len() > 0 {
            assert(f0.drop_last().map_values(|g: FileView| parsed_block(g)).push(parsed_block(f0.last())) =~= f0.map_values(
                |g: FileView| parsed_block(g),
            ));
        } else {
            assert(f0.map_values(|g: FileView| parsed_block(g)) =~= Seq::<FileView>::empty());
        }
        assert(files.drop_last().map_values(|g: FileView| parsed_block(g)).push(parsed_block(files.last())) =~= files.map_values(
            |g: FileView| parsed_block(g),
        ));
        let a = blocks_lines(f0);
        let b = block_lines(f);
        assert forall|k: int| 0 <= k < (a + b).len() implies plain_line(#[trigger] (a + b)[k]) by {
            if k < a.len() {
                assert((a + b)[k] == a[k]);
            } else {
                assert((a + b)[k] == b[k - a.len()]);
            }
        }
    }
}

// ----- the law -----

/// Whether some file named `path` attributes `line` to session `sid`.
pub open spec fn note_covers(files: Seq<FileView>, path: Seq<char>, sid: Seq<char>, line: int) -> bool {
    exists|i: int, k: int|
        0 <= i < files.len() && 0 <= k < files[i].1.len() && files[i].0 == path && (#[trigger] files[i].1[k]).0 == sid
            && files[i].1[k].1 <= line <= files[i].1[k].2
}

/// Whether a file's ranges attribute `line` to session `sid`.
spec fn ranges_cover(rs: Seq<(Seq<char>, i32, i32)>, sid: Seq<char>, line: int) -> bool {
    exists|k: int| 0 <= k < rs.len() && (#[trigger] rs[k]).0 == sid && rs[k].1 <= line <= rs[k].2
}

proof fn lemma_concat_covers(sids: Seq<Seq<char>>, rs: Seq<(Seq<char>, i32, i32)>, sid: Seq<char>, x: int)
    requires
        ranges_wf(rs),
        forall|j: int| 0 <= j < sids.len() ==> sessions_of(rs).contains(#[trigger] sids[j]),
    ensures
        ranges_cover(session_concat(sids, rs), sid, x) <==> (sids.contains(sid) && covered(canonical(session_pairs(rs, sid)), x)),
    decreases sids.len(),
{
    if sids.len() > 0 {
        let s0 = sids.drop_last();
        assert forall|j: int| 0 <= j < s0.len() implies sessions_of(rs).contains(#[trigger] s0[j]) by {
            assert(s0[j] == sids[j]);
        }
        lemma_concat_covers(s0, rs, sid, x);
        let last = sids.last();
        assert(sids[sids.len() - 1] == last);
        lemma_canon_session(rs, last);
        let c = canonical(session_pairs(rs, last));
        let a = session_concat(s0, rs);
        let t = tag_ranges(last, c);
        let sc = session_concat(sids, rs);
        assert(sc == a + t);
        if ranges_cover(sc, sid, x) {
            let k = choose|k: int| 0 <= k < sc.len() && (#[trigger] sc[k]).0 == sid && sc[k].1 <= x <= sc[k].2;
            if k < a.len() {
                assert(sc[k] == a[k]);
                assert(ranges_cover(a, sid, x));
                let j = choose|j: int| 0 <= j < s0.len() && s0[j] == sid;
                assert(sids[j] == sid);
            } else {
                let j = k - a.len();
                assert(sc[k] == t[j]);
                assert(t[j] == (last, c[j].0, c[j].1));
                assert(in_range(c[j], x));
                assert(sids.contains(sid));
            }
        }
        if sids.contains(sid) && covered(canonical(session_pairs(rs, sid)), x) {
            if sid == last {
                let j = choose|j: int| 0 <= j < c.len() && #[trigger] in_range(c[j], x);
                assert(c[j].0 <= c[j].1);
                assert(sc[a.len() + j] == t[j]);
            } else {
                let q = choose|q: int| 0 <= q < sids.len() && sids[q] == sid;
                assert(q < s0.len());
                assert(s0[q] == sid);
                assert(ranges_cover(a, sid, x));
                let k = choose|k: int| 0 <= k < a.len() && (#[trigger] a[k]).0 == sid && a[k].1 <= x <= a[k].2;
                assert(sc[k] == a[k]);
            }
        }
    }
}

proof fn lemma_block_covers(f: FileView, sid: Seq<char>, x: int)
    requires
        ranges_wf(f.1),
    ensures
        ranges_cover(parsed_block(f).1, sid, x) <==> ranges_cover(f.1, sid, x),
{
    let sids = sort_texts(sessions_of(f.1));
    lemma_sorted_sids(f.1);
    assert forall|j: int| 0 <= j < sids.len() implies sessions_of(f.1).contains(#[trigger] sids[j]) by {
        assert(sids.contains(sids[j]));
    }
    lemma_concat_covers(sids, f.1, sid, x);
    lemma_sessions_member(f.1);
    lemma_pairs_cover(f.1, sid);
    let pairs = session_pairs(f.1, sid);
    lemma_canonical_exists(pairs);
    if ranges_cover(f.1, sid, x) {
        let k = choose|k: int| 0 <= k < f.1.len() && (#[trigger] f.1[k]).0 == sid && f.1[k].1 <= x <= f.1[k].2;
        assert(sessions_of(f.1).contains(sid));
        assert(sids.contains(sid));
        assert(covered(pairs, x));
    }
    if sids.contains(sid) && covered(canonical(pairs), x) {
        assert(covered(pairs, x));
    }
}

/// Round trip of the note codec: a note written from well-formed files (and
/// any JSON text) reads back as the files in ascending order of path, and
/// each file attributes exactly the same lines to the same sessions.
pub proof fn lemma_note_round_trip(files: Seq<FileView>, json: Seq<char>)
    requires
        note_files_wf(files),
    ensures
        note_files(note_text(files, json)).len() == files.len(),
        forall|i: int| 0 <= i < files.len() ==> (#[trigger] note_files(note_text(files, json))[i]).0 == sort_files(files)[i].0,
        paths_ascending(note_files(note_text(files, json))),
        forall|path: Seq<char>, sid: Seq<char>, line: int|
            #[trigger] note_covers(note_files(note_text(files, json)), path, sid, line) <==> note_covers(files, path, sid, line),
{
    let sorted = sort_files(files);
    lemma_sort_files(files);
    lemma_same_members(sorted, files);
    assert(note_files_wf(sorted)) by {
        assert forall|i: int| 0 <= i < sorted.len() implies is_note_path(#[trigger] sorted[i].0) && forall|k: int| 0 <= k < sorted[i].1.len() ==> {
            &&& is_session_id((#[trigger] sorted[i].1[k]).0)
            &&& 1 <= sorted[i].1[k].1 <= sorted[i].1[k].2
        } by {
            assert(sorted.contains(sorted[i]));
            assert(files.contains(sorted[i]));
            let j = choose|j: int| 0 <= j < files.len() && files[j] == sorted[i];
        }
    }
    lemma_section(sorted);
    let sl = section_lines(files);
    lemma_note_lines(sl, json);
    let parsed = note_files(note_text(files, json));
    assert(parsed == sorted.map_values(|f: FileView| parsed_block(f)));
    assert(paths_ascending(parsed)) by {
        assert forall|i: int, j: int| 0 <= i <= j < parsed.len() implies !crate::order::text_lt((#[trigger] parsed[j]).0, (#[trigger] parsed[i]).0) by {
            assert(parsed[i].0 == sorted[i].0 && parsed[j].0 == sorted[j].0);
        }
    }
    assert forall|path: Seq<char>, sid: Seq<char>, line: int|
        #[trigger] note_covers(parsed, path, sid, line) <==> note_covers(files, path, sid, line) by {
        lemma_covers_sorted(files, sorted, path, sid, line);
    }
}

proof fn lemma_file_wf(files: Seq<FileView>, i: int)
    requires
        note_files_wf(files),
        0 <= i < files.len(),
    ensures
        ranges_wf(files[i].1),
{
    let f = files[i];
    assert(is_note_path(files[i].0));
    assert forall|q: int| 0 <= q < f.1.len() implies is_session_id((#[trigger] f.1[q]).0) && 1 <= f.1[q].1 <= f.1[q].2 by {
        assert(files[i].1[q] == f.1[q]);
    }
}

proof fn lemma_covers_sorted(files: Seq<FileView>, sorted: Seq<FileView>, path: Seq<char>, sid: Seq<char>, line: int)
    requires
        note_files_wf(files),
        note_files_wf(sorted),
        forall|f: FileView| #[trigger] sorted.contains(f) <==> files.contains(f),
    ensures
        note_covers(sorted.map_values(|f: FileView| parsed_block(f)), path, sid, line) <==> note_covers(files, path, sid, line),
{
    let parsed = sorted.map_values(|f: FileView| parsed_block(f));
    if note_covers(parsed, path, sid, line) {
        let (i, k) = choose|i: int, k: int|
            0 <= i < parsed.len() && 0 <= k < parsed[i].1.len() && parsed[i].0 == path && (#[trigger] parsed[i].1[k]).0 == sid
                && parsed[i].1[k].1 <= line <= parsed[i].1[k].2;
        let f = sorted[i];
        assert(parsed[i] == parsed_block(f));
        lemma_file_wf(sorted, i);
        assert(ranges_cover(parsed_block(f).1, sid, line));
        lemma_block_covers(f, sid, line);
        let q = choose|q: int| 0 <= q < f.1.len() && (#[trigger] f.1[q]).0 == sid && f.1[q].1 <= line <= f.1[q].2;
        assert(sorted.contains(f));
        let j = choose|j: int| 0 <= j < files.len() && files[j] == f;
        assert(files[j].1[q] == f.1[q]);
    }
    if note_covers(files, path, sid, line) {
        let (j, k) = choose|j: int, k: int|
            0 <= j < files.len() && 0 <= k < files[j].1.len() && files[j].0 == path && (#[trigger] files[j].1[k]).0 == sid
                && files[j].1[k].1 <= line <= files[j].1[k].2;
        let f = files[j];
        assert(files.contains(f));
        assert(sorted.contains(f));
        let i = choose|i: int| 0 <= i < sorted.len() && sorted[i] == f;
        lemma_file_wf(files, j);
        assert(ranges_cover(f.1, sid, line)) by {
            assert(files[j].1[k] == f.1[k]);
        }
        lemma_block_covers(f, sid, line);
        assert(parsed[i] == parsed_block(f));
        let q = choose|q: int| 0 <= q < parsed[i].1.len() && (#[trigger] parsed[i].1[q]).0 == sid && parsed[i].1[q].1 <= line <= parsed[i].1[q].2;
    }
}

// ----- what a note can hold -----

/// Ranges that name a session id and 1-based lines.
pub open spec fn ranges_positive(rs: Seq<(Seq<char>, i32, i32)>) -> bool {
    forall|k: int| 0 <= k < rs.len() ==> is_session_id((#[trigger] rs[k]).0) && rs[k].1 >= 1 && rs[k].2 >= 1
}

proof fn lemma_words_clean(s: Seq<char>)
    ensures
        forall|j: int| 0 <= j < words_state(s).0.len() ==> is_session_id(#[trigger] words_state(s).0[j]),
        forall|k: int| 0 <= k < words_state(s).1.len() ==> !is_ws(#[trigger] words_state(s).1[k]),
        forall|j: int| 0 <= j < words(s).len() ==> is_session_id(#[trigger] words(s)[j]),
    decreases s.len(),
{
    if s.len() > 0 {
        lemma_words_clean(s.drop_last());
        let p = words_state(s.drop_last());
        let st = words_state(s);
        if !is_ws(s.last()) {
            assert forall|k: int| 0 <= k < st.1.len() implies !is_ws(#[trigger] st.1[k]) by {
                if k < p.1.len() {
                    assert(st.1[k] == p.1[k]);
                }
            }
        } else if p.1.len() > 0 {
            assert forall|j: int| 0 <= j < st.0.len() implies is_session_id(#[trigger] st.0[j]) by {
                if j < p.0.len() {
                    assert(st.0[j] == p.0[j]);
                }
            }
        }
    }
    let st = words_state(s);
    if st.1.len() > 0 {
        assert forall|j: int| 0 <= j < words(s).len() implies is_session_id(#[trigger] words(s)[j]) by {
            if j < st.0.len() {
                assert(words(s)[j] == st.0[j]);
            }
        }
    }
}

proof fn lemma_pieces_positive(ps: Seq<Seq<char>>)
    ensures
        forall|k: int| 0 <= k < ranges_of_pieces(ps).len() ==> (#[trigger] ranges_of_pieces(ps)[k]).0 >= 1 && ranges_of_pieces(ps)[k].1 >= 1,
    decreases ps.len(),
{
    if ps.len() > 0 {
        lemma_pieces_positive(ps.drop_last());
        let p = ranges_of_pieces(ps.drop_last());
        let r = ranges_of_pieces(ps);
        assert forall|k: int| 0 <= k < r.len() implies (#[trigger] r[k]).0 >= 1 && r[k].1 >= 1 by {
            if k < p.len() {
                assert(r[k] == p[k]);
            }
        }
    }
}

proof fn lemma_session_line_positive(te: Seq<char>)
    ensures
        session_line(te) matches Some(sl) ==> is_session_id(sl.0) && ranges_positive(tag_ranges(sl.0, sl.1)),
{
    lemma_words_clean(te);
    let ws = words(te);
    let rest = join_space(ws.drop_first());
    lemma_pieces_positive(comma_pieces(rest));
}

proof fn lemma_section_positive(lines: Seq<Seq<char>>)
    ensures
        forall|i: int| 0 <= i < section_state(lines).0.len() ==> ranges_positive((#[trigger] section_state(lines).0[i]).1),
        section_state(lines).1 matches Some(f) ==> ranges_positive(f.1),
    decreases lines.len(),
{
    if lines.len() > 0 {
        let d = lines.drop_last();
        lemma_section_positive(d);
        let p = section_state(d);
        let st = section_state(lines);
        let te = trim_end(lines.last());
        if trim(te).len() == 0 {
        } else if te[0] != ' ' && te[0] != '\t' {
            assert forall|i: int| 0 <= i < st.0.len() implies ranges_positive((#[trigger] st.0[i]).1) by {
                if i < p.0.len() {
                    assert(st.0[i] == p.0[i]);
                }
            }
            assert(ranges_positive(Seq::<(Seq<char>, i32, i32)>::empty()));
        } else {
            match p.1 {
                None => {},
                Some(f) => match session_line(te) {
                    None => {},
                    Some(sl) => {
                        lemma_session_line_positive(te);
                        let n = f.1 + tag_ranges(sl.0, sl.1);
                        assert forall|k: int| 0 <= k < n.len() implies is_session_id((#[trigger] n[k]).0) && n[k].1 >= 1 && n[k].2 >= 1 by {
                            if k < f.1.len() {
                                assert(n[k] == f.1[k]);
                            } else {
                                assert(n[k] == tag_ranges(sl.0, sl.1)[k - f.1.len()]);
                            }
                        }
                    },
                },
            }
        }
    }
}

/// Every range read from a note names a session id (non-empty, without
/// whitespace) and has a first and a last line of at least 1.
pub proof fn lemma_note_ranges_positive(message: Seq<char>)
    ensures
        forall|i: int| 0 <= i < note_files(message).len() ==> ranges_positive((#[trigger] note_files(message)[i]).1),
{
    let ls = lines_of(message);
    let lines = ls.take(separator_index(ls));
    lemma_section_positive(lines);
    let st = section_state(lines);
    let fs = note_files(message);
    assert forall|i: int| 0 <= i < fs.len() implies ranges_positive((#[trigger] fs[i]).1) by {
        if i < st.0.len() {
            assert(fs[i] == st.0[i]);
        }
    }
}

} // verus!
