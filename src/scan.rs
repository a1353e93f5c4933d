//! Scanning one byte range into private statistics, and merging the
//! results of all ranges.

use vstd::prelude::*;
use crate::aggregate::{aggregate, aggregate_text, failures};
use crate::partition::{
    covers, failure_sum, line_count_sum, lemma_covering_ranges, partition,
    partitioned_aggregate, range_text, range_views,
};
use crate::record::{
    NEWLINE, find_byte, lemma_lines_concat, lemma_lines_len, lemma_lines_one, lemma_parse_record_in_range,
    line_aligned, lines, parse_record_at,
};
use crate::station_map::{StationMap, get_or_identity, merge_maps};
use crate::stats::{Stats, combine, observe, single};

verus! {

/// What one scanner hands to the merge: statistics per key, the number of
/// lines that were not records, and the number of lines seen.
pub struct Partial {
    pub map: StationMap,
    pub failures: u64,
    pub lines: u64,
}

impl Partial {
    /// The map is well formed, and no count exceeds the lines seen.
    pub open spec fn wf(&self) -> bool {
        &&& self.map.wf()
        &&& self.failures <= self.lines
        &&& forall|k: Seq<u8>| #[trigger] self.map@.contains_key(k) ==> self.map@[k].count <= self.lines
    }

    /// The result of scanning exactly the text `t`.
    pub open spec fn describes(&self, t: Seq<u8>) -> bool {
        &&& self.map@ == aggregate_text(t)
        &&& self.failures == failures(lines(t))
        &&& self.lines == lines(t).len()
    }
}

/// Scans the lines of `data[start..end]`, folding each record into a
/// private map and counting the lines that are not records.
pub fn scan_range(data: &[u8], start: usize, end: usize) -> (r: Partial)
    requires
        start <= end <= data@.len(),
    ensures
        r.wf(),
        r.describes(data@.subrange(start as int, end as int)),
{
    let mut map = StationMap::new();
    let mut nfail: u64 = 0;
    let mut nlines: u64 = 0;
    let mut pos = start;
    proof {
        assert(data@.subrange(start as int, start as int) =~= Seq::<u8>::empty());
        assert(lines(Seq::<u8>::empty()) =~= Seq::<Seq<u8>>::empty());
    }
    while pos < end
        invariant
            start <= pos <= end <= data@.len(),
            pos < end ==> line_aligned(data@.subrange(start as int, pos as int)),
            map.wf(),
            map@ == aggregate(lines(data@.subrange(start as int, pos as int))),
            nfail == failures(lines(data@.subrange(start as int, pos as int))),
            nlines == lines(data@.subrange(start as int, pos as int)).len(),
            nlines <= pos - start,
            nfail <= nlines,
            forall|k: Seq<u8>| #[trigger] map@.contains_key(k) ==> map@[k].count <= nlines,
        decreases end - pos,
    {
        let ghost seg = data@.subrange(start as int, pos as int);
        let ghost ls = lines(seg);
        let nl = find_byte(data, pos, end, NEWLINE);
        let ghost l = data@.subrange(pos as int, nl as int);
        let next = if nl < end { nl + 1 } else { end };
        proof {
            assert forall|j: int| 0 <= j < l.len() implies l[j] != NEWLINE by {
                assert(l[j] == data@[pos + j]);
            }
            lemma_lines_one(l);
            if nl < end {
                assert(data@.subrange(start as int, next as int) =~= seg + l.push(NEWLINE));
                lemma_lines_concat(seg, l.push(NEWLINE));
            } else {
                assert(data@.subrange(start as int, next as int) =~= seg + l);
                lemma_lines_concat(seg, l);
            }
            assert(lines(data@.subrange(start as int, next as int)) =~= ls.push(l));
            assert(ls.push(l).drop_last() =~= ls);
            lemma_parse_record_in_range(l);
        }
        match parse_record_at(data, pos, nl) {
            Some((p, v)) => {
                let one = Stats { min: v, max: v, count: 1, sum: v as i128 };
                proof {
                    assert(one@ == single(v as int));
                    assert(combine(get_or_identity(map@, data@.subrange(pos as int, p as int)), one@)
                        == observe(get_or_identity(map@, data@.subrange(pos as int, p as int)), v as int));
                }
                map.absorb(data, pos, p, one);
            },
            None => {
                nfail = nfail + 1;
            },
        }
        nlines = nlines + 1;
        pos = next;
        proof {
            if pos < end {
                let s2 = data@.subrange(start as int, pos as int);
                assert(s2.last() == data@[nl as int]);
            }
        }
    }
    proof {
        assert(data@.subrange(start as int, pos as int) == data@.subrange(start as int, end as int));
    }
    Partial { map, failures: nfail, lines: nlines }
}

/// The maps of `ps`, merged in order.
pub open spec fn merged_maps(ps: Seq<Partial>) -> Map<Seq<u8>, crate::stats::Summary>
    decreases ps.len(),
{
    if ps.len() == 0 {
        Map::empty()
    } else {
        merge_maps(merged_maps(ps.drop_last()), ps.last().map@)
    }
}

pub open spec fn total_failures(ps: Seq<Partial>) -> int
    decreases ps.len(),
{
    if ps.len() == 0 { 0 } else { total_failures(ps.drop_last()) + ps.last().failures }
}

pub open spec fn total_lines(ps: Seq<Partial>) -> int
    decreases ps.len(),
{
    if ps.len() == 0 { 0 } else { total_lines(ps.drop_last()) + ps.last().lines }
}

proof fn lemma_total_lines_prefix(ps: Seq<Partial>, j: int)
    requires
        0 <= j <= ps.len(),
    ensures
        total_lines(ps.subrange(0, j)) <= total_lines(ps),
        0 <= total_lines(ps.subrange(0, j)),
    decreases ps.len(),
{
    if j == ps.len() {
        assert(ps.subrange(0, j) =~= ps);
        if ps.len() > 0 {
            lemma_total_lines_prefix(ps.drop_last(), 0);
            assert(ps.drop_last().subrange(0, 0) =~= Seq::<Partial>::empty());
        }
    } else {
        lemma_total_lines_prefix(ps.drop_last(), j);
        assert(ps.subrange(0, j) =~= ps.drop_last().subrange(0, j));
    }
}

/// Merges the results of all scanners: maps key by key, counters by sum.
pub fn merge_partials(parts: &Vec<Partial>) -> (r: Partial)
    requires
        forall|i: int| 0 <= i < parts@.len() ==> (#[trigger] parts@[i]).wf(),
        total_lines(parts@) <= u64::MAX,
    ensures
        r.wf(),
        r.map@ == merged_maps(parts@),
        r.failures == total_failures(parts@),
        r.lines == total_lines(parts@),
{
    let mut map = StationMap::new();
    let mut nfail: u64 = 0;
    let mut nlines: u64 = 0;
    let mut j: usize = 0;
    proof {
        assert(parts@.subrange(0, 0) =~= Seq::<Partial>::empty());
    }
    while j < parts.len()
        invariant
            j <= parts@.len(),
            forall|i: int| 0 <= i < parts@.len() ==> (#[trigger] parts@[i]).wf(),
            total_lines(parts@) <= u64::MAX,
            map.wf(),
            map@ == merged_maps(parts@.subrange(0, j as int)),
            nfail == total_failures(parts@.subrange(0, j as int)),
            nlines == total_lines(parts@.subrange(0, j as int)),
            nfail <= nlines,
            forall|k: Seq<u8>| #[trigger] map@.contains_key(k) ==> map@[k].count <= nlines,
        decreases parts@.len() - j,
    {
        let part = &parts[j];
        let ghost pre = parts@.subrange(0, j as int);
        let ghost post = parts@.subrange(0, j + 1);
        proof {
            assert(post.drop_last() =~= pre);
            assert(post.last() == parts@[j as int]);
            assert(part.wf());
            lemma_total_lines_prefix(parts@, j + 1);
        }
        let ghost m0 = map@;
        map.merge(&part.map);
        nfail = nfail + part.failures;
        nlines = nlines + part.lines;
        j = j + 1;
        proof {
            assert forall|k: Seq<u8>| #[trigger] map@.contains_key(k) implies map@[k].count <= nlines by {
                assert(map@[k] == combine(get_or_identity(m0, k), get_or_identity(part.map@, k)));
            }
        }
    }
    proof {
        assert(parts@.subrange(0, j as int) =~= parts@);
    }
    Partial { map, failures: nfail, lines: nlines }
}

proof fn lemma_partials_match(d: Seq<u8>, rs: Seq<(int, int)>, ps: Seq<Partial>)
    requires
        ps.len() == rs.len(),
        forall|i: int| 0 <= i < ps.len() ==> (#[trigger] ps[i]).describes(range_text(d, rs[i])),
    ensures
        merged_maps(ps) == partitioned_aggregate(d, rs),
        total_failures(ps) == failure_sum(d, rs),
        total_lines(ps) == line_count_sum(d, rs),
    decreases ps.len(),
{
    if ps.len() > 0 {
        lemma_partials_match(d, rs.drop_last(), ps.drop_last());
        assert(ps.last().describes(range_text(d, rs.last())));
    }
}

/// Aggregates `data` with `workers` scanners, one range after the other:
/// partition, scan each range, merge.
pub fn aggregate_file(data: &[u8], workers: usize) -> (r: Partial)
    requires
        workers >= 1,
    ensures
        r.wf(),
        r.describes(data@),
{
    let ranges = partition(data, workers);
    let ghost rv = range_views(ranges@);
    let mut parts: Vec<Partial> = Vec::new();
    let mut i: usize = 0;
    while i < ranges.len()
        invariant
            i <= ranges@.len(),
            rv == range_views(ranges@),
            covers(data@, rv),
            parts@.len() == i,
            forall|j: int| 0 <= j < i ==> (#[trigger] parts@[j]).wf(),
            forall|j: int| 0 <= j < i ==> (#[trigger] parts@[j]).describes(range_text(data@, rv[j])),
        decreases ranges@.len() - i,
    {
        let r = ranges[i];
        proof {
            assert(rv[i as int] == (r.start as int, r.end as int));
            assert(0 <= rv[i as int].0 <= rv[i as int].1 <= data@.len());
        }
        let p = scan_range(data, r.start, r.end);
        parts.push(p);
        i = i + 1;
    }
    proof {
        lemma_partials_match(data@, rv, parts@);
        lemma_covering_ranges(data@, rv);
        lemma_lines_len(data@);
    }
    merge_partials(&parts)
}

} // verus!
