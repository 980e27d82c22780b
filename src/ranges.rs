//! Closed line intervals: merging into a canonical form, total length, and
//! the length of the intersection of two merged lists.

use vstd::prelude::*;

use crate::cover::{canonical, covered, in_range, is_merged, lemma_canonical, lemma_merged_before};

verus! {

/// Number of lines in one interval (zero for an interval whose end lies
/// before its start).
pub open spec fn span_len(r: (i32, i32)) -> int {
    if r.1 < r.0 {
        0
    } else {
        r.1 - r.0 + 1
    }
}

/// Sum of the interval lengths of `rs`.
pub open spec fn total_len(rs: Seq<(i32, i32)>) -> int
    decreases rs.len(),
{
    if rs.len() == 0 {
        0
    } else {
        total_len(rs.drop_last()) + span_len(rs.last())
    }
}

/// The total length of a non-empty merged list is at most the span from its
/// first start to its last end.
pub proof fn lemma_merged_total_bound(rs: Seq<(i32, i32)>)
    requires
        is_merged(rs),
        rs.len() > 0,
    ensures
        0 <= total_len(rs) <= rs.last().1 - rs[0].0 + 1,
    decreases rs.len(),
{
    let p = rs.drop_last();
    assert(total_len(rs) == total_len(p) + span_len(rs.last()));
    if rs.len() == 1 {
        assert(total_len(p) == 0);
    } else {
        assert(p.last() == rs[rs.len() - 2] && p[0] == rs[0]);
        assert(is_merged(p)) by {
            assert forall|k: int| 0 <= k < p.len() - 1 implies (#[trigger] p[k]).1 + 1 < p[k + 1].0 by {
                assert(p[k] == rs[k] && p[k + 1] == rs[k + 1]);
            }
        }
        lemma_merged_total_bound(p);
        assert(rs[rs.len() - 2].1 + 1 < rs.last().0);
    }
}

proof fn lemma_insert_keeps_order(before: Seq<(i32, i32)>, pos: int, x: (i32, i32))
    requires
        0 <= pos <= before.len(),
        forall|a: int, b: int| 0 <= a <= b < before.len() ==> (#[trigger] before[a]).0 <= (#[trigger] before[b]).0,
        forall|a: int| 0 <= a < pos ==> (#[trigger] before[a]).0 <= x.0,
        pos < before.len() ==> !(before[pos].0 <= x.0),
    ensures
        forall|a: int, b: int| 0 <= a <= b < before.len() + 1 ==> (#[trigger] before.insert(pos, x)[a]).0 <= (#[trigger] before.insert(pos, x)[b]).0,
{
    before.insert_ensures(pos, x);
    let out = before.insert(pos, x);
    assert forall|a: int, b: int| 0 <= a <= b < out.len() implies (#[trigger] out[a]).0 <= (#[trigger] out[b]).0 by {
        if a < pos && b < pos {
        } else if a < pos && b == pos {
        } else if a < pos {
            assert(out[b] == before[b - 1]);
        } else if a == pos && b == pos {
        } else if a == pos {
            assert(out[b] == before[b - 1]);
            assert(before[pos].0 <= before[b - 1].0);
        } else {
            assert(out[a] == before[a - 1]);
            assert(out[b] == before[b - 1]);
        }
    }
}

proof fn lemma_insert_members(before: Seq<(i32, i32)>, pre: Seq<(i32, i32)>, pos: int, x: (i32, i32))
    requires
        0 <= pos <= before.len(),
        forall|y: (i32, i32)| before.contains(y) <==> pre.contains(y),
    ensures
        forall|y: (i32, i32)| before.insert(pos, x).contains(y) <==> pre.push(x).contains(y),
{
    before.insert_ensures(pos, x);
    let out = before.insert(pos, x);
    let post = pre.push(x);
    assert forall|y: (i32, i32)| out.contains(y) <==> post.contains(y) by {
        if out.contains(y) {
            let k = choose|k: int| 0 <= k < out.len() && out[k] == y;
            if k == pos {
                assert(post[pre.len() as int] == y);
            } else {
                if k < pos {
                    assert(before[k] == y);
                } else {
                    assert(before[k - 1] == y);
                }
                assert(before.contains(y));
                let m = choose|m: int| 0 <= m < pre.len() && pre[m] == y;
                assert(post[m] == y);
            }
        }
        if post.contains(y) {
            let m = choose|m: int| 0 <= m < post.len() && post[m] == y;
            if m == pre.len() {
                assert(out[pos] == y);
            } else {
                assert(pre[m] == y);
                assert(pre.contains(y));
                let k = choose|k: int| 0 <= k < before.len() && before[k] == y;
                if k < pos {
                    assert(out[k] == y);
                } else {
                    assert(out[k + 1] == y);
                }
            }
        }
    }
}

/// Sorts intervals by start line (insertion sort), keeping the same elements.
fn sort_by_start(v: &Vec<(i32, i32)>) -> (r: Vec<(i32, i32)>)
    ensures
        r@.len() == v@.len(),
        forall|i: int, j: int| 0 <= i <= j < r@.len() ==> (#[trigger] r@[i]).0 <= (#[trigger] r@[j]).0,
        forall|x: (i32, i32)| r@.contains(x) <==> v@.contains(x),
{
    let mut out: Vec<(i32, i32)> = Vec::new();
    let mut i: usize = 0;
    while i < v.len()
        invariant
            i <= v.len(),
            out@.len() == i,
            forall|a: int, b: int| 0 <= a <= b < out@.len() ==> (#[trigger] out@[a]).0 <= (#[trigger] out@[b]).0,
            forall|x: (i32, i32)| out@.contains(x) <==> v@.subrange(0, i as int).contains(x),
        decreases v.len() - i,
    {
        let x = v[i];
        let mut pos: usize = 0;
        while pos < out.len() && out[pos].0 <= x.0
            invariant
                pos <= out@.len(),
                forall|a: int| 0 <= a < pos ==> (#[trigger] out@[a]).0 <= x.0,
            decreases out@.len() - pos,
        {
            pos = pos + 1;
        }
        let ghost before = out@;
        out.insert(pos, x);
        proof {
            lemma_insert_keeps_order(before, pos as int, x);
            lemma_insert_members(before, v@.subrange(0, i as int), pos as int, x);
            assert(v@.subrange(0, i as int + 1) == v@.subrange(0, i as int).push(x));
        }
        i = i + 1;
    }
    proof {
        assert(v@.subrange(0, v@.len() as int) == v@);
    }
    out
}

/// Merges intervals into canonical form: intervals are taken with their
/// normalized end, sorted by start, and combined whenever the next one starts
/// no more than one line after the current one ends.
///
/// The result is a merged list that covers exactly the lines that the input
/// covers.
pub fn merge_ranges(ranges: Vec<(i32, i32)>) -> (merged: Vec<(i32, i32)>)
    ensures
        is_merged(merged@),
        forall|line: int| covered(merged@, line) <==> covered(ranges@, line),
        merged@ == canonical(ranges@),
{
    let sorted = sort_by_start(&ranges);
    let mut merged: Vec<(i32, i32)> = Vec::new();
    let mut i: usize = 0;
    while i < sorted.len()
        invariant
            i <= sorted@.len(),
            forall|a: int, b: int| 0 <= a <= b < sorted@.len() ==> (#[trigger] sorted@[a]).0 <= (#[trigger] sorted@[b]).0,
            is_merged(merged@),
            i > 0 ==> merged@.len() > 0 && merged@.last().0 <= sorted@[i - 1].0,
            i == 0 ==> merged@.len() == 0,
            forall|line: int| covered(merged@, line) <==> covered(sorted@.subrange(0, i as int), line),
        decreases sorted@.len() - i,
    {
        let (start, end) = sorted[i];
        let norm_end = if end < start { start } else { end };
        let ghost old_merged = merged@;
        let ghost pre = sorted@.subrange(0, i as int);
        let ghost post = sorted@.subrange(0, i as int + 1);
        proof {
            assert(post == pre.push(sorted@[i as int]));
        }
        let n = merged.len();
        if n > 0 && (start as i64) <= (merged[n - 1].1 as i64) + 1 {
            let last = merged[n - 1];
            let new_end = if last.1 < norm_end { norm_end } else { last.1 };
            merged.set(n - 1, (last.0, new_end));
            proof {
                assert(last.0 <= start);
                assert forall|line: int| covered(merged@, line) <==> covered(post, line) by {
                    if covered(merged@, line) {
                        let k = choose|k: int| 0 <= k < merged@.len() && #[trigger] in_range(merged@[k], line);
                        if k == n - 1 {
                            if line <= last.1 {
                                assert(in_range(old_merged[k], line));
                                assert(covered(old_merged, line));
                                assert(covered(pre, line));
                                let m = choose|m: int| 0 <= m < pre.len() && #[trigger] in_range(pre[m], line);
                                assert(post[m] == pre[m]);
                            } else {
                                assert(in_range(post[i as int], line));
                            }
                        } else {
                            assert(merged@[k] == old_merged[k]);
                            assert(covered(old_merged, line));
                            let m = choose|m: int| 0 <= m < pre.len() && #[trigger] in_range(pre[m], line);
                            assert(post[m] == pre[m]);
                        }
                    }
                    if covered(post, line) {
                        let m = choose|m: int| 0 <= m < post.len() && #[trigger] in_range(post[m], line);
                        if m == i {
                            assert(in_range(merged@[n - 1], line));
                        } else {
                            assert(in_range(pre[m], line));
                            assert(covered(old_merged, line));
                            let k = choose|k: int| 0 <= k < old_merged.len() && #[trigger] in_range(old_merged[k], line);
                            if k == n - 1 {
                                assert(in_range(merged@[k], line));
                            } else {
                                assert(merged@[k] == old_merged[k]);
                            }
                        }
                    }
                }
            }
        } else {
            merged.push((start, norm_end));
            proof {
                assert forall|line: int| covered(merged@, line) <==> covered(post, line) by {
                    if covered(merged@, line) {
                        let k = choose|k: int| 0 <= k < merged@.len() && #[trigger] in_range(merged@[k], line);
                        if k == n {
                            assert(in_range(post[i as int], line));
                        } else {
                            assert(merged@[k] == old_merged[k]);
                            assert(covered(old_merged, line));
                            let m = choose|m: int| 0 <= m < pre.len() && #[trigger] in_range(pre[m], line);
                            assert(post[m] == pre[m]);
                        }
                    }
                    if covered(post, line) {
                        let m = choose|m: int| 0 <= m < post.len() && #[trigger] in_range(post[m], line);
                        if m == i {
                            assert(in_range(merged@[n as int], line));
                        } else {
                            assert(in_range(pre[m], line));
                            assert(covered(old_merged, line));
                            let k = choose|k: int| 0 <= k < old_merged.len() && #[trigger] in_range(old_merged[k], line);
                            assert(merged@[k] == old_merged[k]);
                        }
                    }
                }
            }
        }
        i = i + 1;
    }
    proof {
        assert(sorted@.subrange(0, sorted@.len() as int) == sorted@);
        assert forall|line: int| covered(sorted@, line) <==> covered(ranges@, line) by {
            if covered(sorted@, line) {
                let k = choose|k: int| 0 <= k < sorted@.len() && #[trigger] in_range(sorted@[k], line);
                assert(sorted@.contains(sorted@[k]));
                assert(ranges@.contains(sorted@[k]));
                let m = choose|m: int| 0 <= m < ranges@.len() && ranges@[m] == sorted@[k];
                assert(in_range(ranges@[m], line));
            }
            if covered(ranges@, line) {
                let m = choose|m: int| 0 <= m < ranges@.len() && #[trigger] in_range(ranges@[m], line);
                assert(ranges@.contains(ranges@[m]));
                assert(sorted@.contains(ranges@[m]));
                let k = choose|k: int| 0 <= k < sorted@.len() && sorted@[k] == ranges@[m];
                assert(in_range(sorted@[k], line));
            }
        }
        lemma_canonical(ranges@, merged@);
    }
    merged
}

/// Number of lines that two proper intervals share.
pub open spec fn overlap(a: (i32, i32), b: (i32, i32)) -> int {
    let lo = if a.0 < b.0 { b.0 as int } else { a.0 as int };
    let hi = if a.1 < b.1 { a.1 as int } else { b.1 as int };
    if hi < lo {
        0
    } else {
        hi - lo + 1
    }
}

/// Sum of the overlaps of `c` with each interval of `bs`.
pub open spec fn row_overlap(c: (i32, i32), bs: Seq<(i32, i32)>) -> int
    decreases bs.len(),
{
    if bs.len() == 0 {
        0
    } else {
        row_overlap(c, bs.drop_last()) + overlap(c, bs.last())
    }
}

/// Sum over every pair of an interval of `cs` and one of `bs` of their
/// overlap. For two merged lists this is the number of lines both cover.
pub open spec fn intersection_len(cs: Seq<(i32, i32)>, bs: Seq<(i32, i32)>) -> int
    decreases cs.len(),
{
    if cs.len() == 0 {
        0
    } else {
        intersection_len(cs.drop_last(), bs) + row_overlap(cs.last(), bs)
    }
}

/// Lines of `c` that lie at or below `hi`.
spec fn lines_up_to(c: (i32, i32), hi: int) -> int {
    let top = if c.1 < hi { c.1 as int } else { hi };
    if top < c.0 {
        0
    } else {
        top - c.0 + 1
    }
}

proof fn lemma_row_overlap_bound(c: (i32, i32), bs: Seq<(i32, i32)>)
    requires
        is_merged(bs),
        c.0 <= c.1,
        bs.len() > 0,
    ensures
        0 <= row_overlap(c, bs) <= lines_up_to(c, bs.last().1 as int),
    decreases bs.len(),
{
    let p = bs.drop_last();
    if bs.len() > 1 {
        assert(is_merged(p)) by {
            assert forall|k: int| 0 <= k < p.len() - 1 implies (#[trigger] p[k]).1 + 1 < p[k + 1].0 by {
                assert(p[k] == bs[k] && p[k + 1] == bs[k + 1]);
            }
        }
        lemma_row_overlap_bound(c, p);
        assert(p.last() == bs[bs.len() - 2]);
        assert(bs[bs.len() - 2].1 + 1 < bs.last().0);
    } else {
        assert(row_overlap(c, p) == 0);
    }
}

proof fn lemma_intersection_bound(cs: Seq<(i32, i32)>, bs: Seq<(i32, i32)>)
    requires
        is_merged(cs),
        is_merged(bs),
    ensures
        0 <= intersection_len(cs, bs) <= total_len(cs),
    decreases cs.len(),
{
    if cs.len() > 0 {
        let p = cs.drop_last();
        assert(is_merged(p)) by {
            assert forall|k: int| 0 <= k < p.len() - 1 implies (#[trigger] p[k]).1 + 1 < p[k + 1].0 by {
                assert(p[k] == cs[k] && p[k + 1] == cs[k + 1]);
            }
        }
        lemma_intersection_bound(p, bs);
        assert(cs.last().0 <= cs.last().1);
        if bs.len() > 0 {
            lemma_row_overlap_bound(cs.last(), bs);
        }
    }
}

proof fn lemma_row_overlap_tail_zero(c: (i32, i32), bs: Seq<(i32, i32)>, j: int)
    requires
        0 <= j <= bs.len(),
        forall|k: int| j <= k < bs.len() ==> overlap(c, #[trigger] bs[k]) == 0,
    ensures
        row_overlap(c, bs) == row_overlap(c, bs.take(j)),
    decreases bs.len() - j,
{
    if j < bs.len() {
        lemma_row_overlap_tail_zero(c, bs, j + 1);
        assert(bs.take(j + 1).drop_last() =~= bs.take(j));
        assert(bs.take(j + 1).last() == bs[j]);
    } else {
        assert(bs.take(j) =~= bs);
    }
}

proof fn lemma_intersection_tail_zero(cs: Seq<(i32, i32)>, bs: Seq<(i32, i32)>, i: int)
    requires
        0 <= i <= cs.len(),
        forall|k: int| i <= k < cs.len() ==> row_overlap(#[trigger] cs[k], bs) == 0,
    ensures
        intersection_len(cs, bs) == intersection_len(cs.take(i), bs),
    decreases cs.len() - i,
{
    if i < cs.len() {
        lemma_intersection_tail_zero(cs, bs, i + 1);
        assert(cs.take(i + 1).drop_last() =~= cs.take(i));
        assert(cs.take(i + 1).last() == cs[i]);
    } else {
        assert(cs.take(i) =~= cs);
    }
}

proof fn lemma_row_prefix_le(c: (i32, i32), bs: Seq<(i32, i32)>, j: int)
    requires
        0 <= j <= bs.len(),
    ensures
        row_overlap(c, bs.take(j)) <= row_overlap(c, bs),
    decreases bs.len() - j,
{
    if j < bs.len() {
        lemma_row_prefix_le(c, bs, j + 1);
        assert(bs.take(j + 1).drop_last() =~= bs.take(j));
    } else {
        assert(bs.take(j) =~= bs);
    }
}

proof fn lemma_intersection_prefix_le(cs: Seq<(i32, i32)>, bs: Seq<(i32, i32)>, i: int)
    requires
        0 <= i <= cs.len(),
        is_merged(cs),
        is_merged(bs),
    ensures
        intersection_len(cs.take(i), bs) <= intersection_len(cs, bs),
    decreases cs.len() - i,
{
    if i < cs.len() {
        lemma_intersection_prefix_le(cs, bs, i + 1);
        assert(cs.take(i + 1).drop_last() =~= cs.take(i));
        assert(cs.take(i + 1).last() == cs[i]);
        assert(cs[i].0 <= cs[i].1);
        if bs.len() > 0 {
            lemma_row_overlap_bound(cs[i], bs);
        }
    } else {
        assert(cs.take(i) =~= cs);
    }
}

/// Total number of lines in a merged list.
pub fn sum_ranges(ranges: &Vec<(i32, i32)>) -> (total: u64)
    requires
        is_merged(ranges@),
    ensures
        total == total_len(ranges@),
{
    let mut total: u64 = 0;
    let mut i: usize = 0;
    while i < ranges.len()
        invariant
            i <= ranges@.len(),
            is_merged(ranges@),
            total == total_len(ranges@.take(i as int)),
        decreases ranges@.len() - i,
    {
        proof {
            let t = ranges@.take(i as int + 1);
            assert(t.drop_last() =~= ranges@.take(i as int));
            assert(t.last() == ranges@[i as int]);
            assert(is_merged(t)) by {
                assert forall|k: int| 0 <= k < t.len() - 1 implies (#[trigger] t[k]).1 + 1 < t[k + 1].0 by {
                    assert(t[k] == ranges@[k] && t[k + 1] == ranges@[k + 1]);
                }
            }
            lemma_merged_total_bound(t);
        }
        let (start, end) = ranges[i];
        let len: u64 = if end < start { 0 } else { ((end as i64) - (start as i64) + 1) as u64 };
        total = total + len;
        i = i + 1;
    }
    proof {
        assert(ranges@.take(ranges@.len() as int) =~= ranges@);
    }
    total
}

/// What the sweep has counted once it stands at `(i, j)`: every pair of a
/// row before `i` with any interval, and row `i` with the intervals before `j`.
#[verifier::opaque]
spec fn sweep_count(cs: Seq<(i32, i32)>, bs: Seq<(i32, i32)>, i: int, j: int) -> int {
    intersection_len(cs.take(i), bs) + (if i < cs.len() {
        row_overlap(cs[i], bs.take(j))
    } else {
        0
    })
}

/// Rows after `i` share no line with the intervals before `j`.
#[verifier::opaque]
spec fn passed_zero(cs: Seq<(i32, i32)>, bs: Seq<(i32, i32)>, i: int, j: int) -> bool {
    forall|a: int, b: int| i < a < cs.len() && 0 <= b < j ==> overlap(#[trigger] cs[a], #[trigger] bs[b]) == 0
}

proof fn lemma_take_steps(cs: Seq<(i32, i32)>, bs: Seq<(i32, i32)>, i: int, j: int)
    requires
        0 <= i < cs.len(),
        0 <= j < bs.len(),
    ensures
        intersection_len(cs.take(i + 1), bs) == intersection_len(cs.take(i), bs) + row_overlap(cs[i], bs),
        row_overlap(cs[i], bs.take(j + 1)) == row_overlap(cs[i], bs.take(j)) + overlap(cs[i], bs[j]),
{
    assert(cs.take(i + 1).drop_last() =~= cs.take(i));
    assert(cs.take(i + 1).last() == cs[i]);
    assert(bs.take(j + 1).drop_last() =~= bs.take(j));
    assert(bs.take(j + 1).last() == bs[j]);
}

/// Row `i` is finished: it shares nothing with the intervals from `from` on.
proof fn lemma_row_done(cs: Seq<(i32, i32)>, bs: Seq<(i32, i32)>, i: int, j: int, from: int)
    requires
        is_merged(cs),
        is_merged(bs),
        0 <= i < cs.len(),
        0 <= j <= from <= bs.len(),
        from <= j + 1,
        forall|k: int| from <= k < bs.len() ==> overlap(cs[i], #[trigger] bs[k]) == 0,
        passed_zero(cs, bs, i, j),
    ensures
        sweep_count(cs, bs, i + 1, j) == sweep_count(cs, bs, i, j) + (if from == j + 1 {
            overlap(cs[i], bs[j])
        } else {
            0
        }),
        passed_zero(cs, bs, i + 1, j),
{
    reveal(sweep_count);
    reveal(passed_zero);
    lemma_row_overlap_tail_zero(cs[i], bs, from);
    assert(cs.take(i + 1).drop_last() =~= cs.take(i));
    assert(cs.take(i + 1).last() == cs[i]);
    if from == j + 1 {
        assert(bs.take(j + 1).drop_last() =~= bs.take(j));
        assert(bs.take(j + 1).last() == bs[j]);
    }
    if i + 1 < cs.len() {
        let bt = bs.take(j);
        assert forall|k: int| 0 <= k < bt.len() implies overlap(cs[i + 1], #[trigger] bt[k]) == 0 by {
            assert(bt[k] == bs[k]);
        }
        lemma_row_overlap_tail_zero(cs[i + 1], bt, 0);
        assert(bt.take(0) =~= Seq::<(i32, i32)>::empty());
    }
}

/// Interval `j` is finished: no later row shares a line with it.
proof fn lemma_interval_done(cs: Seq<(i32, i32)>, bs: Seq<(i32, i32)>, i: int, j: int)
    requires
        is_merged(cs),
        0 <= i < cs.len(),
        0 <= j < bs.len(),
        bs[j].1 <= cs[i].1,
        passed_zero(cs, bs, i, j),
    ensures
        sweep_count(cs, bs, i, j + 1) == sweep_count(cs, bs, i, j) + overlap(cs[i], bs[j]),
        passed_zero(cs, bs, i, j + 1),
{
    reveal(sweep_count);
    reveal(passed_zero);
    lemma_take_steps(cs, bs, i, j);
    assert forall|a: int, b: int| i < a < cs.len() && 0 <= b < j + 1 implies overlap(#[trigger] cs[a], #[trigger] bs[b]) == 0 by {
        if b == j {
            lemma_merged_before(cs, i, a);
        }
    }
}

proof fn lemma_sweep_bound(cs: Seq<(i32, i32)>, bs: Seq<(i32, i32)>, i: int, j: int)
    requires
        is_merged(cs),
        is_merged(bs),
        0 <= i < cs.len(),
        0 <= j < bs.len(),
    ensures
        sweep_count(cs, bs, i, j + 1) <= intersection_len(cs, bs) <= total_len(cs) <= 0x1_0000_0000,
{
    reveal(sweep_count);
    reveal(passed_zero);
    lemma_take_steps(cs, bs, i, j);
    lemma_row_prefix_le(cs[i], bs, j + 1);
    lemma_intersection_prefix_le(cs, bs, i + 1);
    lemma_intersection_bound(cs, bs);
    lemma_merged_total_bound(cs);
}

proof fn lemma_sweep_step(cs: Seq<(i32, i32)>, bs: Seq<(i32, i32)>, i: int, j: int)
    requires
        0 <= i < cs.len(),
        0 <= j < bs.len(),
    ensures
        sweep_count(cs, bs, i, j + 1) == sweep_count(cs, bs, i, j) + overlap(cs[i], bs[j]),
{
    reveal(sweep_count);
    lemma_take_steps(cs, bs, i, j);
}

/// An interval that ends before interval `j` ends shares nothing with the
/// intervals after `j`, nor with `j` itself when it ends before `j` starts.
proof fn lemma_after_interval(c: (i32, i32), bs: Seq<(i32, i32)>, j: int, from: int)
    requires
        is_merged(bs),
        0 <= j < bs.len(),
        from == j || from == j + 1,
        from == j ==> c.1 < bs[j].0,
        from == j + 1 ==> c.1 < bs[j].1,
    ensures
        forall|k: int| from <= k < bs.len() ==> overlap(c, #[trigger] bs[k]) == 0,
{
    assert forall|k: int| from <= k < bs.len() implies overlap(c, #[trigger] bs[k]) == 0 by {
        if k > j {
            lemma_merged_before(bs, j, k);
        }
    }
}

proof fn lemma_sweep_end(cs: Seq<(i32, i32)>, bs: Seq<(i32, i32)>, i: int, j: int)
    requires
        0 <= i <= cs.len(),
        0 <= j <= bs.len(),
        i == cs.len() || j == bs.len(),
        passed_zero(cs, bs, i, j),
    ensures
        sweep_count(cs, bs, i, j) == intersection_len(cs, bs),
{
    reveal(sweep_count);
    reveal(passed_zero);
    if i < cs.len() {
        assert(bs.take(j) =~= bs);
        assert forall|k: int| i + 1 <= k < cs.len() implies row_overlap(#[trigger] cs[k], bs) == 0 by {
            assert forall|b: int| 0 <= b < bs.len() implies overlap(cs[k], #[trigger] bs[b]) == 0 by {}
            lemma_row_overlap_tail_zero(cs[k], bs, 0);
            assert(bs.take(0) =~= Seq::<(i32, i32)>::empty());
        }
        lemma_intersection_tail_zero(cs, bs, i + 1);
        assert(cs.take(i + 1).drop_last() =~= cs.take(i));
        assert(cs.take(i + 1).last() == cs[i]);
    } else {
        assert(cs.take(i) =~= cs);
    }
}

/// Number of lines covered by both merged lists, by a two-pointer sweep.
#[verifier::rlimit(40)]
pub fn count_intersection(changed: &Vec<(i32, i32)>, attributed: &Vec<(i32, i32)>) -> (count: u64)
    requires
        is_merged(changed@),
        is_merged(attributed@),
    ensures
        count == intersection_len(changed@, attributed@),
        count <= total_len(changed@),
{
    let ghost cs = changed@;
    let ghost bs = attributed@;
    proof {
        lemma_intersection_bound(cs, bs);
        reveal(sweep_count);
        reveal(passed_zero);
        assert(cs.take(0) =~= Seq::<(i32, i32)>::empty());
        if cs.len() > 0 {
            assert(bs.take(0) =~= Seq::<(i32, i32)>::empty());
        }
    }
    let mut i: usize = 0;
    let mut j: usize = 0;
    let mut count: u64 = 0;
    while i < changed.len() && j < attributed.len()
        invariant
            cs == changed@,
            bs == attributed@,
            is_merged(cs),
            is_merged(bs),
            i <= cs.len(),
            j <= bs.len(),
            count == sweep_count(cs, bs, i as int, j as int),
            passed_zero(cs, bs, i as int, j as int),
        decreases cs.len() - i + bs.len() - j,
    {
        let (c_start, c_end) = changed[i];
        let (a_start, a_end) = attributed[j];
        if c_end < a_start {
            proof {
                lemma_after_interval(cs[i as int], bs, j as int, j as int);
                lemma_row_done(cs, bs, i as int, j as int, j as int);
            }
            i = i + 1;
        } else if a_end < c_start {
            proof {
                lemma_interval_done(cs, bs, i as int, j as int);
            }
            j = j + 1;
        } else {
            let lo: i32 = if c_start < a_start { a_start } else { c_start };
            let hi: i32 = if c_end < a_end { c_end } else { a_end };
            proof {
                lemma_sweep_step(cs, bs, i as int, j as int);
                lemma_sweep_bound(cs, bs, i as int, j as int);
                assert(overlap(cs[i as int], bs[j as int]) == hi - lo + 1);
            }
            count = count + ((hi as i64) - (lo as i64) + 1) as u64;
            if c_end < a_end {
                proof {
                    lemma_after_interval(cs[i as int], bs, j as int, j as int + 1);
                    lemma_row_done(cs, bs, i as int, j as int, j as int + 1);
                }
                i = i + 1;
            } else {
                proof {
                    lemma_interval_done(cs, bs, i as int, j as int);
                }
                j = j + 1;
            }
        }
    }
    proof {
        lemma_sweep_end(cs, bs, i as int, j as int);
        lemma_intersection_bound(cs, bs);
    }
    count
}

} // verus!
