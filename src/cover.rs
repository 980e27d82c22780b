//! Which lines a list of closed intervals covers, and the merged form of
//! such a list.

use vstd::prelude::*;

verus! {

/// The last line of an interval; an interval whose end lies before its start
/// stands for its start line alone.
pub open spec fn range_end(r: (i32, i32)) -> int {
    if r.1 < r.0 {
        r.0 as int
    } else {
        r.1 as int
    }
}

/// Whether `line` lies in the interval `r`.
pub open spec fn in_range(r: (i32, i32), line: int) -> bool {
    r.0 <= line && line <= range_end(r)
}

/// Whether `line` lies in some interval of `rs`.
pub open spec fn covered(rs: Seq<(i32, i32)>, line: int) -> bool {
    exists|k: int| 0 <= k < rs.len() && #[trigger] in_range(rs[k], line)
}

/// A merged list: every interval is proper, and each one ends at least two
/// lines before the next one starts (so intervals are sorted, disjoint and
/// not adjacent).
pub open spec fn is_merged(rs: Seq<(i32, i32)>) -> bool {
    &&& forall|k: int| 0 <= k < rs.len() ==> (#[trigger] rs[k]).0 <= rs[k].1
    &&& forall|k: int| 0 <= k < rs.len() - 1 ==> (#[trigger] rs[k]).1 + 1 < rs[k + 1].0
}

/// In a merged list, the interval at `i` ends at least two lines before the
/// interval at `j > i` starts.
pub proof fn lemma_merged_before(rs: Seq<(i32, i32)>, i: int, j: int)
    requires
        is_merged(rs),
        0 <= i < j < rs.len(),
    ensures
        rs[i].1 + 1 < rs[j].0,
    decreases j - i,
{
    if j > i + 1 {
        lemma_merged_before(rs, i, j - 1);
        assert(rs[j - 1].0 <= rs[j - 1].1);
        assert(rs[j - 1].1 + 1 < rs[j].0);
    }
}

/// In a merged list, any earlier interval ends at least two lines before any
/// later one starts.
pub proof fn lemma_merged_pairwise(rs: Seq<(i32, i32)>)
    requires
        is_merged(rs),
    ensures
        forall|i: int, j: int| 0 <= i < j < rs.len() ==> (#[trigger] rs[i]).1 + 1 < (#[trigger] rs[j]).0,
{
    assert forall|i: int, j: int| 0 <= i < j < rs.len() implies (#[trigger] rs[i]).1 + 1 < (#[trigger] rs[j]).0 by {
        lemma_merged_before(rs, i, j);
    }
}

/// Two lists cover the same lines.
pub open spec fn same_cover(a: Seq<(i32, i32)>, b: Seq<(i32, i32)>) -> bool {
    forall|line: int| covered(a, line) <==> covered(b, line)
}

/// The merged form of a list of intervals: the merged list that covers the
/// same lines (it exists, `lemma_canonical_exists`, and is unique,
/// `lemma_merged_unique`).
pub closed spec fn canonical(rs: Seq<(i32, i32)>) -> Seq<(i32, i32)> {
    choose|m: Seq<(i32, i32)>| is_merged(m) && same_cover(m, rs)
}

proof fn lemma_merged_tail(m: Seq<(i32, i32)>)
    requires
        is_merged(m),
        m.len() > 0,
    ensures
        is_merged(m.drop_first()),
        forall|line: int| covered(m.drop_first(), line) <==> (covered(m, line) && line > m[0].1 + 1),
{
    let t = m.drop_first();
    assert forall|k: int| 0 <= k < t.len() - 1 implies (#[trigger] t[k]).1 + 1 < t[k + 1].0 by {
        assert(t[k] == m[k + 1] && t[k + 1] == m[k + 2]);
    }
    assert forall|line: int| covered(t, line) <==> (covered(m, line) && line > m[0].1 + 1) by {
        if covered(t, line) {
            let k = choose|k: int| 0 <= k < t.len() && #[trigger] in_range(t[k], line);
            assert(in_range(m[k + 1], line));
            lemma_merged_before(m, 0, k + 1);
        }
        if covered(m, line) && line > m[0].1 + 1 {
            let k = choose|k: int| 0 <= k < m.len() && #[trigger] in_range(m[k], line);
            assert(k != 0);
            assert(in_range(t[k - 1], line));
        }
    }
}

/// The first start of a non-empty merged list is its least covered line.
proof fn lemma_merged_first(m: Seq<(i32, i32)>, line: int)
    requires
        is_merged(m),
        covered(m, line),
    ensures
        m.len() > 0,
        m[0].0 <= line,
        line <= m[0].1 + 1 ==> line <= m[0].1,
{
    let k = choose|k: int| 0 <= k < m.len() && #[trigger] in_range(m[k], line);
    if k > 0 {
        lemma_merged_before(m, 0, k);
    }
}

proof fn lemma_merged_same_first(a: Seq<(i32, i32)>, b: Seq<(i32, i32)>)
    requires
        is_merged(a),
        is_merged(b),
        same_cover(a, b),
        a.len() > 0,
    ensures
        b.len() > 0,
        a[0] == b[0],
{
    assert(in_range(a[0], a[0].0 as int));
    assert(covered(a, a[0].0 as int));
    lemma_merged_first(b, a[0].0 as int);
    assert(in_range(b[0], b[0].0 as int));
    assert(covered(b, b[0].0 as int));
    lemma_merged_first(a, b[0].0 as int);
    assert(in_range(a[0], a[0].1 as int));
    assert(covered(b, a[0].1 as int));
    lemma_merged_first(b, a[0].1 as int);
    assert(in_range(b[0], b[0].1 as int));
    assert(covered(a, b[0].1 as int));
    lemma_merged_first(a, b[0].1 as int);
    if a[0].1 < b[0].1 {
        let x = a[0].1 + 1;
        assert(in_range(b[0], x));
        assert(covered(b, x));
        lemma_merged_first(a, x);
    } else if b[0].1 < a[0].1 {
        let x = b[0].1 + 1;
        assert(in_range(a[0], x));
        assert(covered(a, x));
        lemma_merged_first(b, x);
    }
}

proof fn lemma_tails_same_cover(a: Seq<(i32, i32)>, b: Seq<(i32, i32)>)
    requires
        is_merged(a),
        is_merged(b),
        same_cover(a, b),
        a.len() > 0,
        b.len() > 0,
        a[0] == b[0],
    ensures
        is_merged(a.drop_first()),
        is_merged(b.drop_first()),
        same_cover(a.drop_first(), b.drop_first()),
{
    lemma_merged_tail(a);
    lemma_merged_tail(b);
    assert forall|line: int| covered(a.drop_first(), line) <==> covered(b.drop_first(), line) by {
        assert(covered(a, line) <==> covered(b, line));
    }
}

proof fn lemma_head_tail_eq(a: Seq<(i32, i32)>, b: Seq<(i32, i32)>)
    requires
        a.len() > 0,
        b.len() > 0,
        a[0] == b[0],
        a.drop_first() == b.drop_first(),
    ensures
        a == b,
{
    assert(a.drop_first().len() == a.len() - 1);
    assert(b.drop_first().len() == b.len() - 1);
    assert(a.len() == b.len());
    assert forall|k: int| 0 <= k < a.len() implies a[k] == b[k] by {
        if k > 0 {
            assert(a[k] == a.drop_first()[k - 1]);
            assert(b[k] == b.drop_first()[k - 1]);
        }
    }
    assert(a =~= b);
}

/// Two merged lists that cover the same lines are equal.
pub proof fn lemma_merged_unique(a: Seq<(i32, i32)>, b: Seq<(i32, i32)>)
    requires
        is_merged(a),
        is_merged(b),
        same_cover(a, b),
    ensures
        a == b,
    decreases a.len(),
{
    if a.len() == 0 {
        if b.len() > 0 {
            assert(in_range(b[0], b[0].0 as int));
            assert(covered(b, b[0].0 as int));
        }
        assert(b.len() == 0);
        assert(b =~= a);
    } else {
        lemma_merged_same_first(a, b);
        lemma_tails_same_cover(a, b);
        let ta = a.drop_first();
        let tb = b.drop_first();
        lemma_merged_unique(ta, tb);
        lemma_head_tail_eq(a, b);
    }
}

/// A merged list that covers the same lines as `rs` is its merged form.
pub proof fn lemma_canonical(rs: Seq<(i32, i32)>, m: Seq<(i32, i32)>)
    requires
        is_merged(m),
        same_cover(m, rs),
    ensures
        canonical(rs) == m,
        is_merged(canonical(rs)),
{
    let c = canonical(rs);
    assert(is_merged(c) && same_cover(c, rs));
    assert(same_cover(c, m));
    lemma_merged_unique(c, m);
}

/// Order of intervals by start, then end.
pub open spec fn interval_leq(a: (i32, i32), b: (i32, i32)) -> bool {
    a.0 < b.0 || (a.0 == b.0 && a.1 <= b.1)
}

/// Left-to-right merge of intervals sorted by start: each one extends the
/// last merged interval when it starts at most one line after its end.
pub open spec fn merge_fold(s: Seq<(i32, i32)>) -> Seq<(i32, i32)>
    decreases s.len(),
{
    if s.len() == 0 {
        Seq::empty()
    } else {
        let m = merge_fold(s.drop_last());
        let r = s.last();
        let ne = if r.1 < r.0 {
            r.0
        } else {
            r.1
        };
        if m.len() > 0 && r.0 <= m.last().1 + 1 {
            m.update(m.len() - 1, (m.last().0, if m.last().1 < ne {
                ne
            } else {
                m.last().1
            }))
        } else {
            m.push((r.0, ne))
        }
    }
}

proof fn lemma_merge_fold(s: Seq<(i32, i32)>)
    requires
        forall|i: int, j: int| 0 <= i <= j < s.len() ==> (#[trigger] s[i]).0 <= (#[trigger] s[j]).0,
    ensures
        is_merged(merge_fold(s)),
        same_cover(merge_fold(s), s),
        s.len() > 0 ==> merge_fold(s).len() > 0 && merge_fold(s).last().0 <= s.last().0,
    decreases s.len(),
{
    if s.len() > 0 {
        let pre = s.drop_last();
        assert forall|i: int, j: int| 0 <= i <= j < pre.len() implies (#[trigger] pre[i]).0 <= (#[trigger] pre[j]).0 by {
            assert(pre[i] == s[i] && pre[j] == s[j]);
        }
        lemma_merge_fold(pre);
        let m = merge_fold(pre);
        let r = s.last();
        let ne = if r.1 < r.0 { r.0 } else { r.1 };
        let out = merge_fold(s);
        assert(s == pre.push(r));
        if pre.len() > 0 {
            assert(pre.last() == s[s.len() - 2]);
            assert(m.last().0 <= r.0);
        }
        if m.len() > 0 && r.0 <= m.last().1 + 1 {
            let n = m.len();
            let last = m.last();
            assert forall|line: int| covered(out, line) <==> covered(s, line) by {
                if covered(out, line) {
                    let k = choose|k: int| 0 <= k < out.len() && #[trigger] in_range(out[k], line);
                    if k == n - 1 {
                        if line <= last.1 {
                            assert(in_range(m[k], line));
                            assert(covered(m, line));
                            let q = choose|q: int| 0 <= q < pre.len() && #[trigger] in_range(pre[q], line);
                            assert(s[q] == pre[q]);
                        } else {
                            assert(in_range(s[s.len() - 1], line));
                        }
                    } else {
                        assert(out[k] == m[k]);
                        assert(covered(m, line));
                        let q = choose|q: int| 0 <= q < pre.len() && #[trigger] in_range(pre[q], line);
                        assert(s[q] == pre[q]);
                    }
                }
                if covered(s, line) {
                    let q = choose|q: int| 0 <= q < s.len() && #[trigger] in_range(s[q], line);
                    if q == s.len() - 1 {
                        assert(in_range(out[n - 1], line));
                    } else {
                        assert(in_range(pre[q], line));
                        assert(covered(m, line));
                        let k = choose|k: int| 0 <= k < m.len() && #[trigger] in_range(m[k], line);
                        if k == n - 1 {
                            assert(in_range(out[k], line));
                        } else {
                            assert(out[k] == m[k]);
                        }
                    }
                }
            }
            assert forall|k: int| 0 <= k < out.len() - 1 implies (#[trigger] out[k]).1 + 1 < out[k + 1].0 by {
                assert(out[k] == m[k]);
                if k + 1 < n - 1 {
                    assert(out[k + 1] == m[k + 1]);
                }
            }
        } else {
            let n = m.len();
            assert forall|line: int| covered(out, line) <==> covered(s, line) by {
                if covered(out, line) {
                    let k = choose|k: int| 0 <= k < out.len() && #[trigger] in_range(out[k], line);
                    if k == n {
                        assert(in_range(s[s.len() - 1], line));
                    } else {
                        assert(out[k] == m[k]);
                        assert(covered(m, line));
                        let q = choose|q: int| 0 <= q < pre.len() && #[trigger] in_range(pre[q], line);
                        assert(s[q] == pre[q]);
                    }
                }
                if covered(s, line) {
                    let q = choose|q: int| 0 <= q < s.len() && #[trigger] in_range(s[q], line);
                    if q == s.len() - 1 {
                        assert(in_range(out[n as int], line));
                    } else {
                        assert(in_range(pre[q], line));
                        assert(covered(m, line));
                        let k = choose|k: int| 0 <= k < m.len() && #[trigger] in_range(m[k], line);
                        assert(out[k] == m[k]);
                    }
                }
            }
            assert forall|k: int| 0 <= k < out.len() - 1 implies (#[trigger] out[k]).1 + 1 < out[k + 1].0 by {
                assert(out[k] == m[k]);
                if k + 1 < n {
                    assert(out[k + 1] == m[k + 1]);
                }
            }
        }
    }
}

/// Every list of intervals has a merged form: a merged list that covers the
/// same lines.
pub proof fn lemma_canonical_exists(rs: Seq<(i32, i32)>)
    ensures
        is_merged(canonical(rs)),
        same_cover(canonical(rs), rs),
{
    let leq = |a: (i32, i32), b: (i32, i32)| interval_leq(a, b);
    assert(vstd::relations::total_ordering(leq)) by {
        assert(vstd::relations::reflexive(leq));
        assert(vstd::relations::antisymmetric(leq));
        assert(vstd::relations::transitive(leq));
        assert(vstd::relations::strongly_connected(leq));
    }
    let s = rs.sort_by(leq);
    rs.lemma_sort_by_ensures(leq);
    assert forall|i: int, j: int| 0 <= i <= j < s.len() implies (#[trigger] s[i]).0 <= (#[trigger] s[j]).0 by {
        if i < j {
            assert(leq(s[i], s[j]));
        }
    }
    lemma_merge_fold(s);
    let m = merge_fold(s);
    rs.to_multiset_ensures();
    s.to_multiset_ensures();
    assert forall|line: int| covered(s, line) <==> covered(rs, line) by {
        if covered(s, line) {
            let k = choose|k: int| 0 <= k < s.len() && #[trigger] in_range(s[k], line);
            assert(s.contains(s[k]));
            assert(rs.contains(s[k]));
            let q = choose|q: int| 0 <= q < rs.len() && rs[q] == s[k];
            assert(in_range(rs[q], line));
        }
        if covered(rs, line) {
            let q = choose|q: int| 0 <= q < rs.len() && #[trigger] in_range(rs[q], line);
            assert(rs.contains(rs[q]));
            assert(s.to_multiset().count(rs[q]) > 0);
            assert(s.contains(rs[q]));
            let k = choose|k: int| 0 <= k < s.len() && s[k] == rs[q];
            assert(in_range(s[k], line));
        }
    }
    lemma_canonical(rs, m);
}

} // verus!
