//! Line extraction from the Hough accumulator.
//!
//! Every accumulator cell whose value exceeds `threshold * max_grad` is
//! emitted as a line candidate; the candidates are sorted by score
//! descending and then clustered: walking the sorted list, each kept line
//! absorbs the score of every weaker candidate within a small window of
//! distance bins and cyclic orientation bins. The clustering is
//! deliberately order-dependent and the list is not re-sorted afterwards.

use vstd::prelude::*;

use crate::detect::GradientVotesResult;
use crate::sums::sum64;

verus! {

/// Largest cyclic orientation-bin distance at which two candidates are
/// clustered.
pub const MAX_ANG_ERROR: u32 = 4;

/// The distance-bin matching window as a Q16.16 fraction of the diagonal
/// (about one percent).
pub const HOUGH_MATCH_RATIO: i64 = 655;

/// One line candidate: an orientation bin, a distance bin and the absorbed
/// accumulator evidence.
#[derive(Clone, Copy, PartialEq, Eq, Structural, Debug)]
pub struct Line {
    pub angle: u8,
    pub bin: usize,
    pub score: i64,
}

/// The line candidate for accumulator cell `c`.
pub open spec fn line_of_cell(buf: Seq<i64>, c: int) -> Line {
    Line { angle: (c % 256) as u8, bin: (c / 256) as usize, score: buf[c] }
}

/// The candidates of the first `c` accumulator cells whose value exceeds
/// `tv`, in cell order.
pub open spec fn collect_upto(buf: Seq<i64>, tv: int, c: int) -> Seq<Line>
    decreases c,
{
    if c <= 0 {
        Seq::empty()
    } else if buf[c - 1] > tv {
        collect_upto(buf, tv, c - 1).push(line_of_cell(buf, c - 1))
    } else {
        collect_upto(buf, tv, c - 1)
    }
}

/// Sum of the scores of a candidate list.
pub open spec fn lscore_sum(s: Seq<Line>) -> int
    decreases s.len(),
{
    if s.len() == 0 {
        0
    } else {
        lscore_sum(s.drop_last()) + s.last().score
    }
}

/// Every candidate scores above `tv` and indexes a distance bin below
/// `nb`.
pub open spec fn lines_ok(s: Seq<Line>, nb: int, tv: int) -> bool {
    forall|m: int| 0 <= m < s.len() ==> (#[trigger] s[m]).score > tv && s[m].bin < nb
}

/// Stable descending insertion by score: `x` goes after every element that
/// scores at least `x.score`.
pub open spec fn insert_desc(s: Seq<Line>, x: Line) -> Seq<Line>
    decreases s.len(),
{
    if s.len() == 0 {
        seq![x]
    } else if s.last().score < x.score {
        insert_desc(s.drop_last(), x).push(s.last())
    } else {
        s.push(x)
    }
}

/// Stable insertion sort by score, descending.
pub open spec fn sort_desc(s: Seq<Line>) -> Seq<Line>
    decreases s.len(),
{
    if s.len() == 0 {
        Seq::empty()
    } else {
        insert_desc(sort_desc(s.drop_last()), s.last())
    }
}

/// Scores are nonincreasing along the list.
pub open spec fn sorted_desc(s: Seq<Line>) -> bool {
    forall|m: int, n: int| 0 <= m <= n < s.len() ==> (#[trigger] s[m]).score >= (#[trigger] s[n]).score
}

/// Whether two candidates are close enough to cluster: distance bins
/// within `mbe` and orientation bins within `MAX_ANG_ERROR` cyclically.
pub open spec fn near(a: Line, b: Line, mbe: int) -> bool {
    let bd = if a.bin >= b.bin {
        a.bin - b.bin
    } else {
        b.bin - a.bin
    };
    let d = (a.angle - b.angle) % 256;
    let cd = if d < 256 - d {
        d
    } else {
        256 - d
    };
    bd <= mbe && cd <= MAX_ANG_ERROR
}

/// `a` with `b`'s score absorbed.
pub open spec fn absorb(a: Line, b: Line) -> Line {
    Line { angle: a.angle, bin: a.bin, score: (a.score + b.score) as i64 }
}

/// The inner clustering scan: successors of `i` from `j` on are removed
/// and absorbed into `i` when they are near it.
pub open spec fn nms_inner(s: Seq<Line>, i: int, j: int, mbe: int) -> Seq<Line>
    decreases 2 * s.len() - j,
{
    if j >= s.len() || j < 0 || i < 0 || i >= s.len() {
        s
    } else if near(s[i], s[j], mbe) {
        nms_inner(s.update(i, absorb(s[i], s[j])).remove(j), i, j, mbe)
    } else {
        nms_inner(s, i, j + 1, mbe)
    }
}

/// The outer clustering scan over every kept index, with a step budget
/// that the caller sets to the initial length (the list only shrinks, so
/// that budget always suffices).
pub open spec fn nms_outer(s: Seq<Line>, i: int, fuel: int, mbe: int) -> Seq<Line>
    decreases fuel,
{
    if i >= s.len() || fuel <= 0 {
        s
    } else {
        nms_outer(nms_inner(s, i, i + 1, mbe), i + 1, fuel - 1, mbe)
    }
}

/// The whole clustering pass.
pub open spec fn spec_nms(s: Seq<Line>, mbe: int) -> Seq<Line> {
    nms_outer(s, 0, s.len() as int, mbe)
}

/// Candidates emitted so far score exactly their cell's value, exceed the
/// threshold, appear in strictly increasing cell order, and cover every
/// qualifying cell.
pub proof fn lemma_collect_props(buf: Seq<i64>, tv: int, c: int, nb: int)
    requires
        0 <= c <= buf.len(),
        buf.len() == nb * 256,
        0 <= nb <= 23200,
        forall|q: int| 0 <= q < buf.len() ==> #[trigger] buf[q] >= 0,
    ensures
        forall|m: int|
            0 <= m < collect_upto(buf, tv, c).len() ==> {
                let l = #[trigger] collect_upto(buf, tv, c)[m];
                &&& l.bin * 256 + l.angle < c
                &&& l.bin < nb
                &&& buf[l.bin * 256 + l.angle] == l.score
                &&& l.score > tv
            },
        forall|cc: int|
            0 <= cc < c && buf[cc] > tv ==> #[trigger] collect_upto(buf, tv, c).contains(
                line_of_cell(buf, cc),
            ),
        lscore_sum(collect_upto(buf, tv, c)) <= sum64(buf.take(c)),
        tv >= 0 ==> lscore_sum(collect_upto(buf, tv, c)) >= 0,
    decreases c,
{
    if c > 0 {
        lemma_collect_props(buf, tv, c - 1, nb);
        crate::sums::lemma_prefix_sum_step(buf, c - 1);
        let prev = collect_upto(buf, tv, c - 1);
        let cur = collect_upto(buf, tv, c);
        if buf[c - 1] > tv {
            let l = line_of_cell(buf, c - 1);
            assert(0 <= (c - 1) / 256 && (c - 1) / 256 < nb && 0 <= (c - 1) % 256 < 256) by {
                vstd::arithmetic::div_mod::lemma_mod_bound(c - 1, 256);
                vstd::arithmetic::div_mod::lemma_div_pos_is_pos(c - 1, 256);
                assert((c - 1) / 256 < nb) by (nonlinear_arith)
                    requires
                        0 <= c - 1 < nb * 256,
                        256 * ((c - 1) / 256) <= c - 1,
                {
                    vstd::arithmetic::div_mod::lemma_fundamental_div_mod(c - 1, 256);
                }
            }
            assert(l.bin == (c - 1) / 256 && l.angle == (c - 1) % 256);
            assert(l.bin * 256 + l.angle == c - 1) by {
                vstd::arithmetic::div_mod::lemma_fundamental_div_mod(c - 1, 256);
            }
            assert(l.bin < nb);
            assert(cur.drop_last() =~= prev);
            assert(lscore_sum(cur) == lscore_sum(prev) + buf[c - 1]);
            assert forall|cc: int| 0 <= cc < c && buf[cc] > tv implies #[trigger] cur.contains(
                line_of_cell(buf, cc),
            ) by {
                if cc < c - 1 {
                    assert(prev.contains(line_of_cell(buf, cc)));
                    let m = choose|m: int|
                        0 <= m < prev.len() && prev[m] == line_of_cell(buf, cc);
                    assert(cur[m] == line_of_cell(buf, cc));
                } else {
                    assert(cur[cur.len() - 1] == line_of_cell(buf, cc));
                }
            }
        } else {
            assert forall|cc: int| 0 <= cc < c && buf[cc] > tv implies #[trigger] cur.contains(
                line_of_cell(buf, cc),
            ) by {
                assert(prev.contains(line_of_cell(buf, cc)));
            }
        }
    }
}

/// Updating one candidate moves the score sum by the difference.
pub proof fn lemma_lsum_update(s: Seq<Line>, i: int, v: Line)
    requires
        0 <= i < s.len(),
    ensures
        lscore_sum(s.update(i, v)) == lscore_sum(s) - s[i].score + v.score,
    decreases s.len(),
{
    let t = s.update(i, v);
    if i == s.len() - 1 {
        assert(t.drop_last() =~= s.drop_last());
    } else {
        assert(t.drop_last() =~= s.drop_last().update(i, v));
        lemma_lsum_update(s.drop_last(), i, v);
    }
}

/// Removing one candidate subtracts its score from the sum.
pub proof fn lemma_lsum_remove(s: Seq<Line>, j: int)
    requires
        0 <= j < s.len(),
    ensures
        lscore_sum(s.remove(j)) == lscore_sum(s) - s[j].score,
    decreases s.len(),
{
    let t = s.remove(j);
    if j == s.len() - 1 {
        assert(t =~= s.drop_last());
    } else {
        assert(t.drop_last() =~= s.drop_last().remove(j));
        lemma_lsum_remove(s.drop_last(), j);
    }
}

/// Every candidate's score is at most the sum, for nonnegative lists.
pub proof fn lemma_lelem_le_lsum(s: Seq<Line>, i: int)
    requires
        0 <= i < s.len(),
        forall|m: int| 0 <= m < s.len() ==> (#[trigger] s[m]).score >= 0,
    ensures
        s[i].score <= lscore_sum(s),
        lscore_sum(s) >= 0,
    decreases s.len(),
{
    if i == s.len() - 1 {
        lemma_lsum_nonneg(s.drop_last());
    } else {
        lemma_lelem_le_lsum(s.drop_last(), i);
    }
}

/// A nonnegative candidate list has a nonnegative score sum.
pub proof fn lemma_lsum_nonneg(s: Seq<Line>)
    requires
        forall|m: int| 0 <= m < s.len() ==> (#[trigger] s[m]).score >= 0,
    ensures
        lscore_sum(s) >= 0,
    decreases s.len(),
{
    if s.len() > 0 {
        lemma_lsum_nonneg(s.drop_last());
    }
}

/// Two distinct candidates together score at most the sum.
pub proof fn lemma_pair_le_lsum(s: Seq<Line>, i: int, j: int)
    requires
        0 <= i < s.len(),
        0 <= j < s.len(),
        i != j,
        forall|m: int| 0 <= m < s.len() ==> (#[trigger] s[m]).score >= 0,
    ensures
        s[i].score + s[j].score <= lscore_sum(s),
{
    lemma_lsum_remove(s, j);
    let t = s.remove(j);
    let ii = if i < j {
        i
    } else {
        i - 1
    };
    assert(t[ii] == s[i]);
    lemma_lelem_le_lsum(t, ii);
}

/// Insertion keeps the candidate properties, the score sum, and
/// sortedness.
pub proof fn lemma_insert_desc_props(s: Seq<Line>, x: Line, nb: int, tv: int)
    requires
        lines_ok(s, nb, tv),
        x.score > tv,
        x.bin < nb,
    ensures
        insert_desc(s, x).len() == s.len() + 1,
        lines_ok(insert_desc(s, x), nb, tv),
        lscore_sum(insert_desc(s, x)) == lscore_sum(s) + x.score,
        sorted_desc(s) ==> sorted_desc(insert_desc(s, x)),
    decreases s.len(),
{
    let r = insert_desc(s, x);
    if s.len() == 0 {
        assert(r =~= seq![x]);
        assert(r.drop_last() =~= Seq::<Line>::empty());
        assert(lscore_sum(r) == lscore_sum(r.drop_last()) + r.last().score);
        assert(r.last() == x);
        assert(lscore_sum(r.drop_last()) == 0);
    } else if s.last().score < x.score {
        assert(lines_ok(s.drop_last(), nb, tv)) by {
            assert(forall|m: int|
                0 <= m < s.drop_last().len() ==> (#[trigger] s.drop_last()[m]) == s[m]);
        }
        lemma_insert_desc_props(s.drop_last(), x, nb, tv);
        let inner = insert_desc(s.drop_last(), x);
        assert(r == inner.push(s.last()));
        assert(r.drop_last() =~= inner);
        assert(lscore_sum(r) == lscore_sum(inner) + s.last().score);
        assert(lscore_sum(s) == lscore_sum(s.drop_last()) + s.last().score);
        assert(lines_ok(r, nb, tv)) by {
            assert(forall|m: int| 0 <= m < inner.len() ==> r[m] == (#[trigger] inner[m]));
        }
        if sorted_desc(s) {
            assert(sorted_desc(s.drop_last()));
            assert(sorted_desc(inner));
            assert forall|m: int, n: int| 0 <= m <= n < r.len() implies (#[trigger] r[m]).score
                >= (#[trigger] r[n]).score by {
                if n < r.len() - 1 {
                    assert(r[m] == inner[m] && r[n] == inner[n]);
                } else if m < r.len() - 1 {
                    assert(r[m] == inner[m] && r[n] == s.last());
                    lemma_insert_last_ge(s.drop_last(), x, s.last());
                }
            }
        }
    } else {
        assert(r == s.push(x));
        assert(r.drop_last() =~= s);
        assert(lscore_sum(r) == lscore_sum(s) + x.score);
        if sorted_desc(s) {
            assert forall|m: int, n: int| 0 <= m <= n < r.len() implies (#[trigger] r[m]).score
                >= (#[trigger] r[n]).score by {
                if n == r.len() - 1 && m < n {
                    assert(r[m] == s[m] && r[n] == x);
                    assert(s[m].score >= s[s.len() - 1].score);
                }
            }
        }
    }
}

/// Every element of an insertion result scores at least `y.score` when
/// every input element and the inserted one do.
proof fn lemma_insert_last_ge(s: Seq<Line>, x: Line, y: Line)
    requires
        forall|m: int| 0 <= m < s.len() ==> (#[trigger] s[m]).score >= y.score,
        x.score >= y.score,
    ensures
        forall|m: int|
            0 <= m < insert_desc(s, x).len() ==> (#[trigger] insert_desc(s, x)[m]).score
                >= y.score,
    decreases s.len(),
{
    let r = insert_desc(s, x);
    if s.len() == 0 {
        assert(r =~= seq![x]);
    } else if s.last().score < x.score {
        assert(forall|m: int|
            0 <= m < s.drop_last().len() ==> (#[trigger] s.drop_last()[m]).score >= y.score);
        lemma_insert_last_ge(s.drop_last(), x, y);
        let inner = insert_desc(s.drop_last(), x);
        assert forall|m: int| 0 <= m < r.len() implies (#[trigger] r[m]).score >= y.score by {
            if m < r.len() - 1 {
                assert(r[m] == inner[m]);
            } else {
                assert(r[m] == s.last());
                assert(s[s.len() - 1].score >= y.score);
            }
        }
    } else {
        assert forall|m: int| 0 <= m < r.len() implies (#[trigger] r[m]).score >= y.score by {
            if m < r.len() - 1 {
                assert(r[m] == s[m]);
            }
        }
    }
}

/// Sorting keeps the candidate properties and the score sum, and sorts.
pub proof fn lemma_sort_desc_props(s: Seq<Line>, nb: int, tv: int)
    requires
        lines_ok(s, nb, tv),
    ensures
        sort_desc(s).len() == s.len(),
        lines_ok(sort_desc(s), nb, tv),
        lscore_sum(sort_desc(s)) == lscore_sum(s),
        sorted_desc(sort_desc(s)),
    decreases s.len(),
{
    if s.len() > 0 {
        assert(lines_ok(s.drop_last(), nb, tv));
        lemma_sort_desc_props(s.drop_last(), nb, tv);
        assert(s.last().score > tv && s.last().bin < nb);
        lemma_insert_desc_props(sort_desc(s.drop_last()), s.last(), nb, tv);
    }
}

/// The inner clustering scan keeps the candidate properties and the score
/// sum, and never lengthens the list.
pub proof fn lemma_nms_inner_props(s: Seq<Line>, i: int, j: int, mbe: int, nb: int, tv: int)
    requires
        lines_ok(s, nb, tv),
        tv >= 0,
        lscore_sum(s) <= 0x4000_0000_0000,
        0 <= i < s.len(),
        i < j,
    ensures
        lines_ok(nms_inner(s, i, j, mbe), nb, tv),
        lscore_sum(nms_inner(s, i, j, mbe)) == lscore_sum(s),
        i < nms_inner(s, i, j, mbe).len() <= s.len(),
    decreases s.len() - j,
{
    if j < s.len() {
        if near(s[i], s[j], mbe) {
            lemma_pair_le_lsum(s, i, j);
            assert(absorb(s[i], s[j]).score == s[i].score + s[j].score);
            let u = s.update(i, absorb(s[i], s[j]));
            lemma_lsum_update(s, i, absorb(s[i], s[j]));
            lemma_lsum_remove(u, j);
            let t = u.remove(j);
            assert(lines_ok(t, nb, tv)) by {
                assert forall|m: int| 0 <= m < t.len() implies (#[trigger] t[m]).score > tv
                    && t[m].bin < nb by {
                    if m < j {
                        assert(t[m] == u[m]);
                    } else {
                        assert(t[m] == u[m + 1]);
                    }
                }
            }
            lemma_nms_inner_props(t, i, j, mbe, nb, tv);
        } else {
            lemma_nms_inner_props(s, i, j + 1, mbe, nb, tv);
        }
    }
}

/// The outer clustering scan keeps the candidate properties and the score
/// sum.
pub proof fn lemma_nms_outer_props(s: Seq<Line>, i: int, fuel: int, mbe: int, nb: int, tv: int)
    requires
        lines_ok(s, nb, tv),
        tv >= 0,
        lscore_sum(s) <= 0x4000_0000_0000,
        0 <= i,
    ensures
        lines_ok(nms_outer(s, i, fuel, mbe), nb, tv),
        lscore_sum(nms_outer(s, i, fuel, mbe)) == lscore_sum(s),
        nms_outer(s, i, fuel, mbe).len() <= s.len(),
    decreases fuel,
{
    if i < s.len() && fuel > 0 {
        lemma_nms_inner_props(s, i, i + 1, mbe, nb, tv);
        lemma_nms_outer_props(nms_inner(s, i, i + 1, mbe), i + 1, fuel - 1, mbe, nb, tv);
    }
}

/// The split point of a stable descending insertion: when everything from
/// `k` on scores below `x` and the element before `k` (if any) does not,
/// `x` lands exactly at `k`.
proof fn lemma_insert_desc_split(s: Seq<Line>, x: Line, k: int)
    requires
        0 <= k <= s.len(),
        forall|m: int| k <= m < s.len() ==> (#[trigger] s[m]).score < x.score,
        k > 0 ==> s[k - 1].score >= x.score,
    ensures
        insert_desc(s, x) == s.take(k) + seq![x] + s.skip(k),
    decreases s.len(),
{
    if k == s.len() {
        if s.len() == 0 {
            assert(insert_desc(s, x) =~= s.take(k) + seq![x] + s.skip(k));
        } else {
            assert(insert_desc(s, x) == s.push(x));
            assert(s.push(x) =~= s.take(k) + seq![x] + s.skip(k));
        }
    } else {
        assert(s[s.len() - 1].score < x.score);
        assert(s.len() > 0);
        let inner = insert_desc(s.drop_last(), x);
        assert(forall|m: int|
            k <= m < s.drop_last().len() ==> (#[trigger] s.drop_last()[m]).score < x.score);
        lemma_insert_desc_split(s.drop_last(), x, k);
        assert(insert_desc(s, x) == inner.push(s.last()));
        assert((s.drop_last().take(k) + seq![x] + s.drop_last().skip(k)).push(s.last()) =~= s.take(
            k,
        ) + seq![x] + s.skip(k));
    }
}

/// Sorts the candidate list by score, descending and stable.
pub(crate) fn sort_lines(lines: &mut Vec<Line>)
    ensures
        final(lines)@ == sort_desc(old(lines)@),
{
    let ghost orig = lines@;
    let n = lines.len();
    if n <= 1 {
        proof {
            if orig.len() == 0 {
                assert(sort_desc(orig) =~= orig);
            } else {
                assert(orig.drop_last() =~= Seq::<Line>::empty());
                assert(sort_desc(orig.drop_last()) =~= Seq::<Line>::empty());
                assert(insert_desc(Seq::<Line>::empty(), orig.last()) =~= orig);
            }
        }
        return ;
    }
    proof {
        let s1 = orig.take(1);
        assert(s1.drop_last() =~= Seq::<Line>::empty());
        assert(sort_desc(s1.drop_last()) =~= Seq::<Line>::empty());
        assert(sort_desc(s1) == insert_desc(Seq::<Line>::empty(), s1.last()));
        assert(insert_desc(Seq::<Line>::empty(), s1.last()) =~= seq![orig[0]]);
        assert(lines@ =~= sort_desc(s1) + orig.skip(1));
    }
    let mut idx: usize = 1;
    while idx < n
        invariant
            n == lines@.len(),
            n == orig.len(),
            1 <= idx <= n,
            lines@ == sort_desc(orig.take(idx as int)) + orig.skip(idx as int),
        decreases n - idx,
    {
        let ghost sorted = sort_desc(orig.take(idx as int));
        proof {
            assert(sorted.len() == idx) by {
                lemma_sort_len(orig.take(idx as int));
            }
        }
        let v = lines[idx];
        assert(v == orig[idx as int]) by {
            assert(lines@[idx as int] == orig.skip(idx as int)[0]);
        }
        let mut k: usize = idx;
        while k > 0 && lines[k - 1].score < v.score
            invariant
                n == lines@.len(),
                n == orig.len(),
                1 <= idx < n,
                0 <= k <= idx,
                sorted == sort_desc(orig.take(idx as int)),
                sorted.len() == idx,
                v == orig[idx as int],
                forall|m: int| 0 <= m < k ==> lines@[m] == sorted[m],
                forall|m: int| k < m <= idx ==> lines@[m] == sorted[m - 1],
                forall|m: int| idx < m < n ==> lines@[m] == orig[m],
                forall|m: int| k <= m < idx ==> (#[trigger] sorted[m]).score < v.score,
            decreases k,
        {
            let moved = lines[k - 1];
            lines.set(k, moved);
            k = k - 1;
        }
        lines.set(k, v);
        proof {
            lemma_insert_desc_split(sorted, v, k as int);
            assert(lines@ =~= sorted.take(k as int) + seq![v] + sorted.skip(k as int) + orig.skip(
                idx + 1,
            ));
            assert(orig.take(idx + 1).drop_last() =~= orig.take(idx as int));
            assert(orig.take(idx + 1).last() == orig[idx as int]);
            assert(sort_desc(orig.take(idx + 1)) == insert_desc(sorted, v));
            assert(lines@ =~= sort_desc(orig.take(idx + 1)) + orig.skip(idx + 1));
        }
        idx = idx + 1;
    }
    proof {
        assert(orig.take(n as int) =~= orig);
        assert(orig.skip(n as int) =~= Seq::<Line>::empty());
        assert(lines@ =~= sort_desc(orig));
    }
}

/// Sorting preserves length.
proof fn lemma_sort_len(s: Seq<Line>)
    ensures
        sort_desc(s).len() == s.len(),
    decreases s.len(),
{
    if s.len() > 0 {
        lemma_sort_len(s.drop_last());
        lemma_insert_len(sort_desc(s.drop_last()), s.last());
    }
}

/// Insertion grows the length by one.
proof fn lemma_insert_len(s: Seq<Line>, x: Line)
    ensures
        insert_desc(s, x).len() == s.len() + 1,
    decreases s.len(),
{
    if s.len() > 0 && s.last().score < x.score {
        lemma_insert_len(s.drop_last(), x);
    }
}

/// The absolute vote threshold: the fraction `threshold / 2^16` of the
/// accumulator maximum, rounded down.
pub open spec fn threshold_val(threshold: int, max_grad: int) -> int {
    threshold * max_grad / 65536
}

/// The clustering window in distance bins: about one percent of the
/// diagonal, plus one.
pub open spec fn mbe_of(diag: int) -> int {
    diag * (HOUGH_MATCH_RATIO as int) / 65536 + 1
}

/// Emits one candidate per accumulator cell whose value exceeds
/// `threshold / 2^16` of the maximum, in cell order.
pub fn collect_lines(result: &GradientVotesResult, threshold: u32) -> (lines: Vec<Line>)
    requires
        result.wf(),
        threshold < 65536,
    ensures
        lines@ == collect_upto(
            result.buf@,
            threshold_val(threshold as int, result.max_grad as int),
            result.num_bins * 256,
        ),
        lines_ok(
            lines@,
            result.num_bins as int,
            threshold_val(threshold as int, result.max_grad as int),
        ),
        lscore_sum(lines@) <= sum64(result.buf@),
        forall|m: int|
            0 <= m < lines@.len() ==> (#[trigger] lines@[m]).score * 65536 > threshold
                * result.max_grad,
        forall|cc: int|
            0 <= cc < result.buf@.len() && result.buf@[cc] * 65536 > threshold * result.max_grad
                ==> #[trigger] lines@.contains(line_of_cell(result.buf@, cc)),
{
    proof {
        crate::sums::lemma_max_le_sum(result.buf@);
        crate::sums::lemma_sum_nonneg(result.buf@);
        assert(threshold * result.max_grad <= 65536 * 0x4000_0000_0000) by (nonlinear_arith)
            requires
                0 <= threshold <= 65536,
                0 <= result.max_grad <= 0x4000_0000_0000,
        ;
    }
    let tv: i64 = (threshold as i64) * result.max_grad / 65536;
    let ghost tvs = threshold_val(threshold as int, result.max_grad as int);
    assert(tv == tvs && tv >= 0) by {
        vstd::arithmetic::div_mod::lemma_div_pos_is_pos(
            (threshold * result.max_grad) as int,
            65536,
        );
    }
    let nbuf = result.buf.len();
    let mut lines: Vec<Line> = Vec::new();
    let mut c: usize = 0;
    while c < nbuf
        invariant
            result.wf(),
            threshold < 65536,
            tv == tvs,
            tv >= 0,
            nbuf == result.buf@.len(),
            c <= nbuf,
            lines@ == collect_upto(result.buf@, tvs, c as int),
        decreases nbuf - c,
    {
        let val = result.buf[c];
        if val > tv {
            let ln = Line { angle: (c % 256) as u8, bin: c / 256, score: val };
            assert(ln == line_of_cell(result.buf@, c as int)) by {
                vstd::arithmetic::div_mod::lemma_mod_bound(c as int, 256);
                vstd::arithmetic::div_mod::lemma_div_pos_is_pos(c as int, 256);
            }
            lines.push(ln);
        }
        c = c + 1;
    }
    proof {
        lemma_collect_props(result.buf@, tvs, nbuf as int, result.num_bins as int);
        assert(result.buf@.take(nbuf as int) =~= result.buf@);
        assert forall|m: int| 0 <= m < lines@.len() implies (#[trigger] lines@[m]).score * 65536
            > threshold * result.max_grad by {
            vstd::arithmetic::div_mod::lemma_fundamental_div_mod(
                threshold * result.max_grad,
                65536,
            );
            vstd::arithmetic::div_mod::lemma_mod_bound(threshold * result.max_grad, 65536);
            assert(lines@[m].score > tvs);
            assert(lines@[m].score * 65536 >= (tvs + 1) * 65536) by (nonlinear_arith)
                requires
                    lines@[m].score >= tvs + 1,
            ;
        }
        assert forall|cc: int|
            0 <= cc < result.buf@.len() && result.buf@[cc] * 65536 > threshold * result.max_grad
            implies #[trigger] lines@.contains(line_of_cell(result.buf@, cc)) by {
            vstd::arithmetic::div_mod::lemma_fundamental_div_mod(
                threshold * result.max_grad,
                65536,
            );
            vstd::arithmetic::div_mod::lemma_mod_bound(threshold * result.max_grad, 65536);
            assert(result.buf@[cc] > tvs) by (nonlinear_arith)
                requires
                    result.buf@[cc] * 65536 > threshold * result.max_grad,
                    threshold * result.max_grad == 65536 * tvs + (threshold * result.max_grad)
                        % 65536,
                    0 <= (threshold * result.max_grad) % 65536 < 65536,
            ;
        }
    }
    lines
}

/// Clusters a sorted candidate list: each kept line absorbs the score of
/// every weaker nearby successor.
fn cluster_lines(lines: &mut Vec<Line>, mbe: usize, nb: usize, tv: i64)
    requires
        tv >= 0,
        lines_ok(old(lines)@, nb as int, tv as int),
        lscore_sum(old(lines)@) <= 0x4000_0000_0000,
    ensures
        final(lines)@ == spec_nms(old(lines)@, mbe as int),
{
    let ghost s0 = lines@;
    let ghost fuel0 = s0.len() as int;
    let mut i: usize = 0;
    while i < lines.len()
        invariant
            tv >= 0,
            fuel0 == s0.len(),
            i <= lines@.len() <= s0.len(),
            lines_ok(lines@, nb as int, tv as int),
            lscore_sum(lines@) <= 0x4000_0000_0000,
            nms_outer(s0, 0, fuel0, mbe as int) == nms_outer(
                lines@,
                i as int,
                fuel0 - i,
                mbe as int,
            ),
        decreases lines@.len() - i,
    {
        let ghost s_outer = lines@;
        let mut j: usize = i + 1;
        while j < lines.len()
            invariant
                tv >= 0,
                i < lines@.len() <= s_outer.len(),
                i < j,
                lines_ok(lines@, nb as int, tv as int),
                lscore_sum(lines@) == lscore_sum(s_outer),
                lscore_sum(lines@) <= 0x4000_0000_0000,
                nms_inner(s_outer, i as int, i + 1, mbe as int) == nms_inner(
                    lines@,
                    i as int,
                    j as int,
                    mbe as int,
                ),
            decreases lines@.len() - j,
        {
            let li = lines[i];
            let lj = lines[j];
            let bd = if li.bin >= lj.bin {
                li.bin - lj.bin
            } else {
                lj.bin - li.bin
            };
            let d: u32 = if li.angle >= lj.angle {
                (li.angle - lj.angle) as u32
            } else {
                256 - ((lj.angle - li.angle) as u32)
            };
            assert(d == (li.angle - lj.angle) % 256);
            let cd = if d < 256 - d {
                d
            } else {
                256 - d
            };
            let hit = bd <= mbe && cd <= MAX_ANG_ERROR;
            assert(hit == near(li, lj, mbe as int));
            if hit {
                proof {
                    lemma_pair_le_lsum(lines@, i as int, j as int);
                }
                let merged = Line { angle: li.angle, bin: li.bin, score: li.score + lj.score };
                assert(merged == absorb(li, lj));
                let ghost before = lines@;
                lines.set(i, merged);
                lines.remove(j);
                proof {
                    lemma_lsum_update(before, i as int, merged);
                    lemma_lsum_remove(before.update(i as int, merged), j as int);
                    let t = before.update(i as int, merged).remove(j as int);
                    assert(lines@ == t);
                    assert(lines_ok(t, nb as int, tv as int)) by {
                        let u = before.update(i as int, merged);
                        assert forall|m: int| 0 <= m < t.len() implies (#[trigger] t[m]).score
                            > tv && t[m].bin < nb by {
                            if m < j {
                                assert(t[m] == u[m]);
                            } else {
                                assert(t[m] == u[m + 1]);
                            }
                        }
                    }
                }
            } else {
                j = j + 1;
            }
        }
        proof {
            assert(nms_inner(s_outer, i as int, i + 1, mbe as int) == lines@);
            assert(i < s_outer.len() && fuel0 - i >= 1);
            assert(nms_outer(s_outer, i as int, fuel0 - i, mbe as int) == nms_outer(
                nms_inner(s_outer, i as int, i + 1, mbe as int),
                i + 1,
                (fuel0 - i) - 1,
                mbe as int,
            ));
            assert(nms_outer(s_outer, i as int, fuel0 - i, mbe as int) == nms_outer(
                lines@,
                i + 1,
                fuel0 - i - 1,
                mbe as int,
            ));
        }
        i = i + 1;
    }
}

/// Extracts line candidates above the threshold from the accumulator,
/// sorts them by score descending, and clusters nearby candidates; each
/// returned line has absorbed the evidence of the candidates it displaced,
/// so every returned score still exceeds `threshold / 2^16` of the
/// accumulator maximum.
pub fn edges(result: &GradientVotesResult, threshold: u32) -> (r: Vec<Line>)
    requires
        result.wf(),
        threshold < 65536,
    ensures
        r@ == spec_nms(
            sort_desc(
                collect_upto(
                    result.buf@,
                    threshold_val(threshold as int, result.max_grad as int),
                    result.num_bins * 256,
                ),
            ),
            mbe_of(result.diag as int),
        ),
        lines_ok(r@, result.num_bins as int, threshold_val(threshold as int, result.max_grad as int)),
        forall|m: int|
            0 <= m < r@.len() ==> (#[trigger] r@[m]).score * 65536 > threshold * result.max_grad,
        lscore_sum(r@) <= sum64(result.buf@),
{
    let ghost tvs = threshold_val(threshold as int, result.max_grad as int);
    let mut lines = collect_lines(result, threshold);
    let ghost collected = lines@;
    proof {
        assert(tvs >= 0) by {
            crate::sums::lemma_max_le_sum(result.buf@);
            crate::sums::lemma_sum_nonneg(result.buf@);
            vstd::arithmetic::div_mod::lemma_div_pos_is_pos(
                (threshold * result.max_grad) as int,
                65536,
            );
            assert(threshold * result.max_grad >= 0) by (nonlinear_arith)
                requires
                    threshold >= 0,
                    result.max_grad >= 0,
            ;
        }
        lemma_sort_desc_props(collected, result.num_bins as int, tvs);
    }
    sort_lines(&mut lines);
    let tv: i64 = {
        proof {
            crate::sums::lemma_max_le_sum(result.buf@);
            crate::sums::lemma_sum_nonneg(result.buf@);
            assert(threshold * result.max_grad <= 65536 * 0x4000_0000_0000) by (nonlinear_arith)
                requires
                    0 <= threshold <= 65536,
                    0 <= result.max_grad <= 0x4000_0000_0000,
            ;
        }
        (threshold as i64) * result.max_grad / 65536
    };
    let mbe = (result.diag as i64) * HOUGH_MATCH_RATIO / 65536 + 1;
    assert(mbe == mbe_of(result.diag as int) && 1 <= mbe <= 233);
    cluster_lines(&mut lines, mbe as usize, result.num_bins, tv);
    proof {
        lemma_nms_outer_props(
            sort_desc(collected),
            0,
            sort_desc(collected).len() as int,
            mbe_of(result.diag as int),
            result.num_bins as int,
            tvs,
        );
        crate::sums::lemma_sum_nonneg(result.buf@);
        assert forall|m: int| 0 <= m < lines@.len() implies (#[trigger] lines@[m]).score * 65536
            > threshold * result.max_grad by {
            vstd::arithmetic::div_mod::lemma_fundamental_div_mod(
                threshold * result.max_grad,
                65536,
            );
            vstd::arithmetic::div_mod::lemma_mod_bound(threshold * result.max_grad, 65536);
            assert(lines@[m].score > tvs);
            assert(lines@[m].score * 65536 >= (tvs + 1) * 65536) by (nonlinear_arith)
                requires
                    lines@[m].score >= tvs + 1,
            ;
        }
    }
    lines
}

/// A prefix of a nonnegative candidate list sums to no more than the
/// whole.
pub proof fn lemma_lsum_take(s: Seq<Line>, n: int)
    requires
        0 <= n <= s.len(),
        forall|m: int| 0 <= m < s.len() ==> (#[trigger] s[m]).score >= 0,
    ensures
        lscore_sum(s.take(n)) <= lscore_sum(s),
        lscore_sum(s.take(n)) >= 0,
    decreases s.len() - n,
{
    if n == s.len() {
        assert(s.take(n) =~= s);
        lemma_lsum_nonneg(s);
    } else {
        assert(s.take(n + 1).drop_last() =~= s.take(n));
        assert(s.take(n + 1).last() == s[n]);
        lemma_lsum_take(s, n + 1);
        lemma_lsum_nonneg(s.take(n));
    }
}

/// A lower threshold admits every candidate a higher one admits: the
/// pre-clustering line list at threshold `tv1` is a superset of the list
/// at any threshold `tv2 >= tv1`.
pub proof fn lemma_collect_superset(buf: Seq<i64>, tv1: int, tv2: int, c: int, nb: int)
    requires
        tv1 <= tv2,
        0 <= c <= buf.len(),
        buf.len() == nb * 256,
        0 <= nb <= 23200,
        forall|q: int| 0 <= q < buf.len() ==> #[trigger] buf[q] >= 0,
    ensures
        forall|l: Line|
            #[trigger] collect_upto(buf, tv2, c).contains(l) ==> collect_upto(
                buf,
                tv1,
                c,
            ).contains(l),
{
    lemma_collect_props(buf, tv1, c, nb);
    lemma_collect_props(buf, tv2, c, nb);
    assert forall|l: Line| #[trigger] collect_upto(buf, tv2, c).contains(l) implies collect_upto(
        buf,
        tv1,
        c,
    ).contains(l) by {
        let m = choose|m: int|
            0 <= m < collect_upto(buf, tv2, c).len() && collect_upto(buf, tv2, c)[m] == l;
        assert(buf[l.bin * 256 + l.angle] == l.score && l.score > tv2 && l.bin * 256 + l.angle
            < c);
        assert(l.bin * 256 + l.angle >= 0) by (nonlinear_arith)
            requires
                l.bin >= 0,
                l.angle >= 0,
        ;
        assert(collect_upto(buf, tv1, c).contains(line_of_cell(buf, l.bin * 256 + l.angle)));
        assert(line_of_cell(buf, l.bin * 256 + l.angle) == l) by {
            vstd::arithmetic::div_mod::lemma_fundamental_div_mod_converse(
                l.bin * 256 + l.angle,
                256,
                l.bin as int,
                l.angle as int,
            );
        }
    }
}

/// With a zero threshold, exactly the cells holding positive evidence are
/// emitted.
pub proof fn lemma_zero_threshold_emits_positive(buf: Seq<i64>, c: int, nb: int)
    requires
        0 <= c <= buf.len(),
        buf.len() == nb * 256,
        0 <= nb <= 23200,
        forall|q: int| 0 <= q < buf.len() ==> #[trigger] buf[q] >= 0,
    ensures
        forall|cc: int|
            0 <= cc < c && buf[cc] > 0 ==> #[trigger] collect_upto(buf, 0, c).contains(
                line_of_cell(buf, cc),
            ),
        forall|m: int|
            0 <= m < collect_upto(buf, 0, c).len() ==> (#[trigger] collect_upto(buf, 0, c)[m]).score
                > 0,
{
    lemma_collect_props(buf, 0, c, nb);
}

} // verus!
