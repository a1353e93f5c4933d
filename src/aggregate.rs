//! What the aggregation of a sequence of lines is, and the laws it obeys.

use vstd::prelude::*;
use crate::record::{lemma_parse_record_in_range, parse_record, lines, line_aligned, lemma_lines_concat};
use crate::station_map::{get_or_identity, merge_maps};
use crate::stats::{Summary, combine, identity, observe, single, value_in_range};

verus! {

/// Folds one line into a map: a record updates its key, anything else
/// leaves the map as it is.
pub open spec fn step(m: Map<Seq<u8>, Summary>, l: Seq<u8>) -> Map<Seq<u8>, Summary> {
    match parse_record(l) {
        Some((k, v)) => m.insert(k, observe(get_or_identity(m, k), v)),
        None => m,
    }
}

/// Statistics per key over a sequence of lines, folded in order.
pub open spec fn aggregate(ls: Seq<Seq<u8>>) -> Map<Seq<u8>, Summary>
    decreases ls.len(),
{
    if ls.len() == 0 {
        Map::empty()
    } else {
        step(aggregate(ls.drop_last()), ls.last())
    }
}

/// Number of lines that are not records.
pub open spec fn failures(ls: Seq<Seq<u8>>) -> int
    decreases ls.len(),
{
    if ls.len() == 0 {
        0
    } else {
        failures(ls.drop_last()) + if parse_record(ls.last()) is None { 1int } else { 0int }
    }
}

/// A line that parses as a record.
pub open spec fn is_record(l: Seq<u8>) -> bool {
    parse_record(l) is Some
}

/// Statistics per key of a whole text.
pub open spec fn aggregate_text(d: Seq<u8>) -> Map<Seq<u8>, Summary> {
    aggregate(lines(d))
}

/// The bounds of every state of an aggregate are values that occurred.
pub proof fn lemma_aggregate_bounds(ls: Seq<Seq<u8>>)
    ensures
        forall|k: Seq<u8>| #[trigger] aggregate(ls).contains_key(k) ==> value_in_range(aggregate(ls)[k].min)
            && value_in_range(aggregate(ls)[k].max),
    decreases ls.len(),
{
    if ls.len() > 0 {
        let m = aggregate(ls.drop_last());
        lemma_aggregate_bounds(ls.drop_last());
        lemma_parse_record_in_range(ls.last());
        if let Some((k, v)) = parse_record(ls.last()) {
            assert forall|kk: Seq<u8>| #[trigger] aggregate(ls).contains_key(kk) implies value_in_range(aggregate(ls)[kk].min)
                && value_in_range(aggregate(ls)[kk].max) by {
                if kk != k {
                    assert(m.contains_key(kk));
                } else if m.contains_key(k) {
                    assert(value_in_range(m[k].min));
                }
            }
        }
    }
}

/// The aggregate of two sequences of lines, one after the other, merges the
/// aggregates of each.
pub proof fn lemma_aggregate_concat(l1: Seq<Seq<u8>>, l2: Seq<Seq<u8>>)
    ensures
        aggregate(l1 + l2) == merge_maps(aggregate(l1), aggregate(l2)),
        failures(l1 + l2) == failures(l1) + failures(l2),
    decreases l2.len(),
{
    let a1 = aggregate(l1);
    if l2.len() == 0 {
        assert(l1 + l2 =~= l1);
        lemma_aggregate_bounds(l1);
        assert forall|k: Seq<u8>| #[trigger] a1.contains_key(k) implies combine(a1[k], identity()) == a1[k] by {
            assert(value_in_range(a1[k].min));
        }
        assert(aggregate(l2) =~= Map::<Seq<u8>, Summary>::empty());
        assert(merge_maps(a1, aggregate(l2)) =~= a1);
    } else {
        let l2p = l2.drop_last();
        let x = l2.last();
        assert((l1 + l2).drop_last() =~= l1 + l2p);
        assert((l1 + l2).last() == x);
        lemma_aggregate_concat(l1, l2p);
        let a2 = aggregate(l2p);
        let mm = merge_maps(a1, a2);
        if let Some((k, v)) = parse_record(x) {
            assert(get_or_identity(mm, k) == combine(get_or_identity(a1, k), get_or_identity(a2, k)));
            assert(aggregate(l1 + l2) =~= merge_maps(a1, aggregate(l2)));
        } else {
            assert(aggregate(l1 + l2) =~= merge_maps(a1, aggregate(l2)));
        }
    }
}

/// The lines that are records, in their order.
pub open spec fn records_only(ls: Seq<Seq<u8>>) -> Seq<Seq<u8>>
    decreases ls.len(),
{
    if ls.len() == 0 {
        ls
    } else if is_record(ls.last()) {
        records_only(ls.drop_last()).push(ls.last())
    } else {
        records_only(ls.drop_last())
    }
}

/// Lines that are not records change nothing: the aggregate equals that of
/// the same lines with every non-record removed.
pub proof fn lemma_malformed_lines_ignored(ls: Seq<Seq<u8>>)
    ensures
        aggregate(ls) == aggregate(records_only(ls)),
    decreases ls.len(),
{
    if ls.len() > 0 {
        lemma_malformed_lines_ignored(ls.drop_last());
        if is_record(ls.last()) {
            let r = records_only(ls);
            assert(r.drop_last() =~= records_only(ls.drop_last()));
        }
    }
}

/// The same statement at the level of texts: a text whose lines are those
/// of another with its non-records removed has the same statistics.
pub proof fn lemma_malformed_text_ignored(d: Seq<u8>, stripped: Seq<u8>)
    requires
        lines(stripped) == records_only(lines(d)),
    ensures
        aggregate_text(d) == aggregate_text(stripped),
{
    lemma_malformed_lines_ignored(lines(d));
}

/// An empty text has no statistics.
pub proof fn lemma_empty_text()
    ensures
        aggregate_text(Seq::<u8>::empty()) == Map::<Seq<u8>, Summary>::empty(),
        failures(lines(Seq::<u8>::empty())) == 0,
{
    assert(lines(Seq::<u8>::empty()) =~= Seq::<Seq<u8>>::empty());
}

/// A text of one record without terminator gives one key, whose state holds
/// that value alone.
pub proof fn lemma_single_record(d: Seq<u8>, k: Seq<u8>, v: int)
    requires
        forall|j: int| 0 <= j < d.len() ==> d[j] != crate::record::NEWLINE,
        parse_record(d) == Some((k, v)),
    ensures
        aggregate_text(d) == map![k => single(v)],
{
    assert(d.len() > 0);
    crate::record::lemma_lines_one(d);
    assert(lines(d) == seq![d]);
    assert(seq![d].drop_last() =~= Seq::<Seq<u8>>::empty());
    assert(aggregate(seq![d].drop_last()) == Map::<Seq<u8>, Summary>::empty());
    assert(seq![d].last() == d);
    lemma_parse_record_in_range(d);
    assert(aggregate(seq![d]) =~= map![k => single(v)]);
}

/// Two texts, the first ending at a line boundary: the statistics of the
/// whole merge those of the parts.
pub proof fn lemma_text_concat(a: Seq<u8>, b: Seq<u8>)
    requires
        line_aligned(a),
    ensures
        aggregate_text(a + b) == merge_maps(aggregate_text(a), aggregate_text(b)),
        failures(lines(a + b)) == failures(lines(a)) + failures(lines(b)),
        lines(a + b) == lines(a) + lines(b),
        lines(a + b).len() == lines(a).len() + lines(b).len(),
{
    lemma_lines_concat(a, b);
    lemma_aggregate_concat(lines(a), lines(b));
}

} // verus!
