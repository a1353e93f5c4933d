//! Splitting a text into contiguous byte ranges whose interior boundaries
//! all sit at line starts.

use vstd::prelude::*;
use crate::aggregate::{aggregate_text, failures, lemma_aggregate_bounds, lemma_text_concat};
use crate::record::{NEWLINE, lines, line_aligned};
use crate::station_map::merge_maps;
use crate::stats::{Summary, value_in_range};

verus! {

/// A half-open byte range `[start, end)`.
#[derive(Clone, Copy, Debug, PartialEq, Eq, Structural)]
pub struct PartitionRange {
    pub start: usize,
    pub end: usize,
}

impl PartitionRange {
    pub open spec fn view(&self) -> (int, int) {
        (self.start as int, self.end as int)
    }
}

/// Position `p` of `d` begins a line: it is the start, or follows a terminator.
pub open spec fn begins_line(d: Seq<u8>, p: int) -> bool {
    p == 0 || (0 < p <= d.len() && d[p - 1] == NEWLINE)
}

/// The first position at or after `b` that begins a line, or the end of `d`.
pub open spec fn align(d: Seq<u8>, b: int) -> int
    decreases d.len() - b,
{
    if b >= d.len() {
        d.len() as int
    } else if b <= 0 || d[b - 1] == NEWLINE {
        if b < 0 { 0 } else { b }
    } else {
        align(d, b + 1)
    }
}

/// The `i`-th cut for `n` workers: the even proposal `i * (len / n)` moved
/// forward to a line start; the last cut is the end.
pub open spec fn cut(d: Seq<u8>, n: int, i: int) -> int {
    if i >= n { d.len() as int } else { align(d, i * (d.len() as int / n)) }
}

/// The non-empty ranges between the first `k + 1` cuts.
pub open spec fn ranges_upto(d: Seq<u8>, n: int, k: int) -> Seq<(int, int)>
    decreases k,
{
    if k <= 0 {
        seq![]
    } else {
        let prev = ranges_upto(d, n, k - 1);
        if cut(d, n, k - 1) < cut(d, n, k) {
            prev.push((cut(d, n, k - 1), cut(d, n, k)))
        } else {
            prev
        }
    }
}

/// The ranges for `n` workers: the non-empty ranges between consecutive
/// cuts, or one empty range for an empty text.
pub open spec fn planned_ranges(d: Seq<u8>, n: int) -> Seq<(int, int)> {
    if d.len() == 0 { seq![(0, 0)] } else { ranges_upto(d, n, n) }
}

/// Ranges that cover `d` from start to end, in order, without gap or
/// overlap, each beginning at a line start.
pub open spec fn covers(d: Seq<u8>, rs: Seq<(int, int)>) -> bool {
    &&& rs.len() >= 1
    &&& rs[0].0 == 0
    &&& rs.last().1 == d.len()
    &&& forall|i: int| 0 <= i < rs.len() ==> 0 <= #[trigger] rs[i].0 <= rs[i].1 <= d.len()
    &&& forall|i: int| 0 <= i < rs.len() - 1 ==> #[trigger] rs[i].1 == rs[i + 1].0
    &&& forall|i: int| 0 <= i < rs.len() ==> begins_line(d, #[trigger] rs[i].0)
}

/// The text of a range.
pub open spec fn range_text(d: Seq<u8>, r: (int, int)) -> Seq<u8> {
    d.subrange(r.0, r.1)
}

/// The statistics of each range, merged in range order.
pub open spec fn partitioned_aggregate(d: Seq<u8>, rs: Seq<(int, int)>) -> Map<Seq<u8>, Summary>
    decreases rs.len(),
{
    if rs.len() == 0 {
        Map::empty()
    } else {
        merge_maps(partitioned_aggregate(d, rs.drop_last()), aggregate_text(range_text(d, rs.last())))
    }
}

/// The lines of each range, one range after the other.
pub open spec fn partitioned_lines(d: Seq<u8>, rs: Seq<(int, int)>) -> Seq<Seq<u8>>
    decreases rs.len(),
{
    if rs.len() == 0 {
        seq![]
    } else {
        partitioned_lines(d, rs.drop_last()) + lines(range_text(d, rs.last()))
    }
}

/// The sum over the ranges of their numbers of lines.
pub open spec fn line_count_sum(d: Seq<u8>, rs: Seq<(int, int)>) -> int
    decreases rs.len(),
{
    if rs.len() == 0 {
        0
    } else {
        line_count_sum(d, rs.drop_last()) + lines(range_text(d, rs.last())).len()
    }
}

/// The sum over the ranges of their numbers of non-record lines.
pub open spec fn failure_sum(d: Seq<u8>, rs: Seq<(int, int)>) -> int
    decreases rs.len(),
{
    if rs.len() == 0 {
        0
    } else {
        failure_sum(d, rs.drop_last()) + failures(lines(range_text(d, rs.last())))
    }
}

pub proof fn lemma_align(d: Seq<u8>, b: int)
    requires
        0 <= b <= d.len(),
    ensures
        b <= align(d, b) <= d.len(),
        align(d, b) < d.len() ==> begins_line(d, align(d, b)),
        forall|j: int| b <= j < align(d, b) ==> !begins_line(d, j),
    decreases d.len() - b,
{
    if b < d.len() && !(b <= 0 || d[b - 1] == NEWLINE) {
        lemma_align(d, b + 1);
    }
}

pub proof fn lemma_align_monotone(d: Seq<u8>, b1: int, b2: int)
    requires
        0 <= b1 <= b2 <= d.len(),
    ensures
        align(d, b1) <= align(d, b2),
    decreases d.len() - b1,
{
    lemma_align(d, b2);
    if b1 < b2 && !(b1 <= 0 || d[b1 - 1] == NEWLINE) {
        lemma_align_monotone(d, b1 + 1, b2);
    }
}

proof fn lemma_proposal(len: int, n: int, i: int)
    requires
        0 <= len,
        1 <= n,
        0 <= i <= n,
    ensures
        0 <= i * (len / n) <= len,
        i < n ==> i * (len / n) <= (i + 1) * (len / n),
{
    assert(0 <= len / n);
    assert(n * (len / n) <= len) by (nonlinear_arith)
        requires 1 <= n, 0 <= len;
    assert(i * (len / n) <= n * (len / n)) by (nonlinear_arith)
        requires 0 <= i <= n, 0 <= len / n;
    assert(0 <= i * (len / n)) by (nonlinear_arith)
        requires 0 <= i, 0 <= len / n;
    assert(i * (len / n) <= (i + 1) * (len / n)) by (nonlinear_arith)
        requires 0 <= len / n;
}

pub proof fn lemma_cut(d: Seq<u8>, n: int, i: int)
    requires
        1 <= n,
        0 <= i <= n,
    ensures
        0 <= cut(d, n, i) <= d.len(),
        i == 0 ==> cut(d, n, i) == 0,
        i < n ==> cut(d, n, i) <= cut(d, n, i + 1),
        cut(d, n, i) < d.len() ==> begins_line(d, cut(d, n, i)),
{
    lemma_proposal(d.len() as int, n, i);
    if i < n {
        lemma_align(d, i * (d.len() as int / n));
        lemma_proposal(d.len() as int, n, i + 1);
        if i + 1 < n {
            lemma_align_monotone(d, i * (d.len() as int / n), (i + 1) * (d.len() as int / n));
        }
    }
}

/// What the first `k` cuts produce: nothing while they are all zero, else
/// non-empty ranges from `0` to `cut(k)` that cover their span.
pub proof fn lemma_ranges_upto(d: Seq<u8>, n: int, k: int)
    requires
        1 <= n,
        0 <= k <= n,
    ensures
        ranges_upto(d, n, k).len() <= k,
        cut(d, n, k) == 0 ==> ranges_upto(d, n, k).len() == 0,
        cut(d, n, k) > 0 ==> {
            let rs = ranges_upto(d, n, k);
            &&& rs.len() >= 1
            &&& rs[0].0 == 0
            &&& rs.last().1 == cut(d, n, k)
            &&& forall|i: int| 0 <= i < rs.len() ==> 0 <= #[trigger] rs[i].0 < rs[i].1 <= d.len()
            &&& forall|i: int| 0 <= i < rs.len() - 1 ==> #[trigger] rs[i].1 == rs[i + 1].0
            &&& forall|i: int| 0 <= i < rs.len() ==> begins_line(d, #[trigger] rs[i].0)
        },
    decreases k,
{
    lemma_cut(d, n, k);
    if k > 0 {
        lemma_ranges_upto(d, n, k - 1);
        lemma_cut(d, n, k - 1);
        let prev = ranges_upto(d, n, k - 1);
        let rs = ranges_upto(d, n, k);
        if cut(d, n, k - 1) < cut(d, n, k) {
            assert(rs == prev.push((cut(d, n, k - 1), cut(d, n, k))));
            assert forall|i: int| 0 <= i < rs.len() - 1 implies #[trigger] rs[i].1 == rs[i + 1].0 by {
                if i < rs.len() - 2 {
                    assert(rs[i] == prev[i] && rs[i + 1] == prev[i + 1]);
                }
            }
            assert forall|i: int| 0 <= i < rs.len() implies 0 <= #[trigger] rs[i].0 < rs[i].1 <= d.len()
                && begins_line(d, rs[i].0) by {
                if i < rs.len() - 1 {
                    assert(rs[i] == prev[i]);
                }
            }
        }
    }
}

/// The ranges for `n` workers cover the text, and none is empty unless the
/// text is.
pub proof fn lemma_partition_covers(d: Seq<u8>, n: int)
    requires
        1 <= n,
    ensures
        covers(d, planned_ranges(d, n)),
        planned_ranges(d, n).len() <= n,
        d.len() > 0 ==> forall|i: int| 0 <= i < planned_ranges(d, n).len()
            ==> #[trigger] planned_ranges(d, n)[i].0 < planned_ranges(d, n)[i].1,
{
    if d.len() > 0 {
        lemma_ranges_upto(d, n, n);
    }
}

/// The ranges as pairs of positions.
pub open spec fn range_views(rs: Seq<PartitionRange>) -> Seq<(int, int)> {
    rs.map_values(|r: PartitionRange| r@)
}

/// The first line start at or after `b`, or the end of `data`.
pub fn align_at(data: &[u8], b: usize) -> (r: usize)
    requires
        b <= data@.len(),
    ensures
        r == align(data@, b as int),
{
    let mut i = b;
    while i < data.len() && !(i == 0 || data[i - 1] == NEWLINE)
        invariant
            b <= i <= data@.len(),
            align(data@, b as int) == align(data@, i as int),
        decreases data@.len() - i,
    {
        i = i + 1;
    }
    i
}

/// Splits `data` into at most `workers` ranges: the even split by
/// `len / workers`, each interior boundary moved forward to the next line
/// start, empty ranges dropped. An empty text gives the single range `[0, 0)`.
pub fn partition(data: &[u8], workers: usize) -> (r: Vec<PartitionRange>)
    requires
        workers >= 1,
    ensures
        range_views(r@) == planned_ranges(data@, workers as int),
        covers(data@, range_views(r@)),
        r@.len() <= workers,
        data@.len() > 0 ==> forall|i: int| 0 <= i < r@.len() ==> #[trigger] r@[i].start < r@[i].end,
{
    proof {
        lemma_partition_covers(data@, workers as int);
    }
    let len = data.len();
    if len == 0 {
        let r = vec![PartitionRange { start: 0, end: 0 }];
        assert(range_views(r@) =~= seq![(0int, 0int)]);
        return r;
    }
    let chunk = len / workers;
    let ghost d = data@;
    let ghost n = workers as int;
    let mut out: Vec<PartitionRange> = Vec::new();
    let mut prev: usize = 0;
    let mut i: usize = 0;
    proof {
        lemma_cut(d, n, 0);
        assert(range_views(out@) =~= ranges_upto(d, n, 0));
    }
    while i < workers
        invariant
            d == data@,
            n == workers as int,
            len == d.len(),
            chunk as int == len as int / n,
            1 <= n,
            i <= workers,
            prev as int == cut(d, n, i as int),
            range_views(out@) == ranges_upto(d, n, i as int),
        decreases workers - i,
    {
        proof {
            lemma_proposal(len as int, n, i + 1);
        }
        let c = if i + 1 == workers { len } else { align_at(data, (i + 1) * chunk) };
        assert(c as int == cut(d, n, i + 1));
        let ghost before = out@;
        if prev < c {
            out.push(PartitionRange { start: prev, end: c });
            assert(range_views(out@) =~= range_views(before).push((prev as int, c as int)));
        }
        prev = c;
        i = i + 1;
    }
    proof {
        lemma_partition_covers(data@, workers as int);
        assert(range_views(out@) == planned_ranges(d, n));
        assert forall|j: int| 0 <= j < out@.len() implies #[trigger] out@[j].start < out@[j].end by {
            assert(planned_ranges(d, n)[j].0 < planned_ranges(d, n)[j].1);
            assert(range_views(out@)[j] == (out@[j].start as int, out@[j].end as int));
        }
    }
    out
}

proof fn lemma_merge_empty_left(m: Map<Seq<u8>, Summary>)
    requires
        forall|k: Seq<u8>| #[trigger] m.contains_key(k) ==> value_in_range(m[k].min) && value_in_range(m[k].max),
    ensures
        merge_maps(Map::empty(), m) == m,
{
    assert(merge_maps(Map::empty(), m) =~= m);
}

/// Over covering ranges, the statistics, the lines and the failures of the
/// ranges add up to those of the whole text.
pub proof fn lemma_covering_ranges(d: Seq<u8>, rs: Seq<(int, int)>)
    requires
        covers(d, rs),
    ensures
        partitioned_aggregate(d, rs) == aggregate_text(d),
        partitioned_lines(d, rs) == lines(d),
        line_count_sum(d, rs) == lines(d).len(),
        failure_sum(d, rs) == failures(lines(d)),
{
    lemma_covering_prefix(d, rs, rs.len() as int);
    assert(rs.subrange(0, rs.len() as int) =~= rs);
    assert(d.subrange(0, d.len() as int) =~= d);
}

proof fn lemma_covering_prefix(d: Seq<u8>, rs: Seq<(int, int)>, j: int)
    requires
        covers(d, rs),
        1 <= j <= rs.len(),
    ensures
        partitioned_aggregate(d, rs.subrange(0, j)) == aggregate_text(d.subrange(0, rs[j - 1].1)),
        partitioned_lines(d, rs.subrange(0, j)) == lines(d.subrange(0, rs[j - 1].1)),
        line_count_sum(d, rs.subrange(0, j)) == lines(d.subrange(0, rs[j - 1].1)).len(),
        failure_sum(d, rs.subrange(0, j)) == failures(lines(d.subrange(0, rs[j - 1].1))),
    decreases j,
{
    let p = rs.subrange(0, j);
    let r = rs[j - 1];
    assert(p.last() == r);
    assert(0 <= r.0 <= r.1 <= d.len());
    if j == 1 {
        assert(p.drop_last() =~= Seq::<(int, int)>::empty());
        assert(rs[0].0 == 0);
        lemma_aggregate_bounds(lines(range_text(d, r)));
        lemma_merge_empty_left(aggregate_text(range_text(d, r)));
        assert(partitioned_lines(d, p.drop_last()) == Seq::<Seq<u8>>::empty());
        assert(partitioned_aggregate(d, p.drop_last()) == Map::<Seq<u8>, Summary>::empty());
        assert(range_text(d, r) == d.subrange(0, r.1));
        assert(line_count_sum(d, p.drop_last()) == 0);
        assert(failure_sum(d, p.drop_last()) == 0);
        assert(Seq::<Seq<u8>>::empty() + lines(range_text(d, r)) =~= lines(range_text(d, r)));
    } else {
        lemma_covering_prefix(d, rs, j - 1);
        assert(p.drop_last() =~= rs.subrange(0, j - 1));
        assert(rs[j - 2].1 == r.0);
        let a = d.subrange(0, r.0);
        let b = d.subrange(r.0, r.1);
        assert(begins_line(d, rs[j - 1].0));
        assert(line_aligned(a)) by {
            if a.len() > 0 {
                assert(a.last() == d[r.0 - 1]);
            }
        }
        assert(a + b =~= d.subrange(0, r.1));
        lemma_text_concat(a, b);
        assert(range_text(d, r) == b);
        assert(partitioned_aggregate(d, p) == merge_maps(partitioned_aggregate(d, p.drop_last()), aggregate_text(b)));
        assert(partitioned_lines(d, p) == partitioned_lines(d, p.drop_last()) + lines(b));
    }
}

/// The number of workers does not change the statistics: aggregating the
/// ranges for `n1` workers and for `n2` workers gives the same map, that of
/// the whole text.
pub proof fn lemma_partition_invariance(d: Seq<u8>, n1: int, n2: int)
    requires
        1 <= n1,
        1 <= n2,
    ensures
        partitioned_aggregate(d, planned_ranges(d, n1)) == partitioned_aggregate(d, planned_ranges(d, n2)),
        partitioned_aggregate(d, planned_ranges(d, n1)) == aggregate_text(d),
        failure_sum(d, planned_ranges(d, n1)) == failure_sum(d, planned_ranges(d, n2)),
{
    lemma_partition_covers(d, n1);
    lemma_partition_covers(d, n2);
    lemma_covering_ranges(d, planned_ranges(d, n1));
    lemma_covering_ranges(d, planned_ranges(d, n2));
}

/// Every line is counted once: the lines of the ranges for `n` workers,
/// taken in order, are the lines of the text, and their numbers add up.
pub proof fn lemma_partition_coverage(d: Seq<u8>, n: int)
    requires
        1 <= n,
    ensures
        partitioned_lines(d, planned_ranges(d, n)) == lines(d),
        line_count_sum(d, planned_ranges(d, n)) == lines(d).len(),
{
    lemma_partition_covers(d, n);
    lemma_covering_ranges(d, planned_ranges(d, n));
}

} // verus!
