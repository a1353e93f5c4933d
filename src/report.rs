//! The textual report: `{key=min/max/mean, ...}` in ascending key order.

use vstd::prelude::*;
use crate::record::{DOT, FRACTION_DIGITS, MINUS, ZERO};
use crate::station_map::StationMap;
use crate::stats::{Stats, Summary, VALUE_LIMIT, observed, single, value_in_range};

verus! {

pub const SCALE: u64 = 1_000_000;
pub const EQUALS: u8 = 61;
pub const SLASH: u8 = 47;
pub const OPEN_BRACE: u8 = 123;
pub const CLOSE_BRACE: u8 = 125;
pub const COMMA: u8 = 44;
pub const SPACE: u8 = 32;

/// Decimal digits of `n`, without leading zeros.
pub open spec fn decimal(n: nat) -> Seq<u8>
    decreases n,
{
    if n < 10 {
        seq![(ZERO + n) as u8]
    } else {
        decimal(n / 10).push((ZERO + n % 10) as u8)
    }
}

/// The last `k` decimal digits of `f`, with leading zeros.
pub open spec fn padded(f: nat, k: nat) -> Seq<u8>
    decreases k,
{
    if k == 0 {
        seq![]
    } else {
        padded(f / 10, (k - 1) as nat).push((ZERO + f % 10) as u8)
    }
}

/// The `k`-digit fraction `f` without its trailing zeros, keeping at least
/// one digit.
pub open spec fn fraction_text(f: nat, k: nat) -> Seq<u8>
    decreases k,
{
    if k > 1 && f % 10 == 0 {
        fraction_text(f / 10, (k - 1) as nat)
    } else {
        padded(f, k)
    }
}

/// A fixed-point value as text: sign, integer digits, `.`, fraction digits.
pub open spec fn render_value(v: int) -> Seq<u8> {
    let m = if v < 0 { -v } else { v };
    let sign = if v < 0 { seq![MINUS] } else { seq![] };
    sign + decimal((m / SCALE as int) as nat) + seq![DOT] + fraction_text((m % SCALE as int) as nat, FRACTION_DIGITS as nat)
}

/// The mean `sum / count` rounded to the nearest unit, halves away from zero.
pub open spec fn mean_of(s: Summary) -> int {
    if s.sum >= 0 {
        (2 * s.sum + s.count) / (2 * s.count)
    } else {
        -((2 * -s.sum + s.count) / (2 * s.count))
    }
}

/// `min/max/mean`.
pub open spec fn render_summary(s: Summary) -> Seq<u8> {
    render_value(s.min) + seq![SLASH] + render_value(s.max) + seq![SLASH] + render_value(mean_of(s))
}

/// `key=min/max/mean`.
pub open spec fn render_entry(e: (Seq<u8>, Summary)) -> Seq<u8> {
    e.0 + seq![EQUALS] + render_summary(e.1)
}

/// The entries, separated by `", "`.
pub open spec fn entries_text(es: Seq<(Seq<u8>, Summary)>) -> Seq<u8>
    decreases es.len(),
{
    if es.len() == 0 {
        seq![]
    } else if es.len() == 1 {
        render_entry(es[0])
    } else {
        entries_text(es.drop_last()) + seq![COMMA, SPACE] + render_entry(es.last())
    }
}

/// The whole report: the entries between braces.
pub open spec fn render_report(es: Seq<(Seq<u8>, Summary)>) -> Seq<u8> {
    seq![OPEN_BRACE] + entries_text(es) + seq![CLOSE_BRACE]
}

/// The mean of a single value is that value.
pub proof fn lemma_mean_single(v: int)
    ensures
        mean_of(single(v)) == v,
{
    if v >= 0 {
        assert((2 * v + 1) / 2 == v);
    } else {
        assert((2 * -v + 1) / 2 == -v);
    }
}

/// The rounded mean of an observed state lies within the value range.
pub proof fn lemma_mean_in_range(s: Summary)
    requires
        observed(s),
    ensures
        value_in_range(mean_of(s)),
{
    let c = s.count;
    let a = if s.sum >= 0 { s.sum } else { -s.sum };
    let l = VALUE_LIMIT as int;
    assert(a <= c * l);
    let q = (2 * a + c) / (2 * c);
    assert(q * (2 * c) <= 2 * a + c) by (nonlinear_arith)
        requires c >= 1, q == (2 * a + c) / (2 * c), a >= 0;
    assert(q <= l) by (nonlinear_arith)
        requires q * (2 * c) <= 2 * a + c, a <= c * l, c >= 1;
    assert(q >= 0) by (nonlinear_arith)
        requires c >= 1, q == (2 * a + c) / (2 * c), a >= 0;
}

/// The report of a map with no key is `{}`.
pub proof fn lemma_empty_report(map: &StationMap)
    requires
        map.wf(),
        map@ == Map::<Seq<u8>, Summary>::empty(),
    ensures
        render_report(map.sorted()) == seq![OPEN_BRACE, CLOSE_BRACE],
{
    map.lemma_wf();
    if map.sorted().len() > 0 {
        assert(map@.contains_key(map.sorted()[0].0));
    }
    assert(render_report(map.sorted()) =~= seq![OPEN_BRACE, CLOSE_BRACE]);
}

fn push_bytes(out: &mut Vec<u8>, src: &[u8])
    ensures
        final(out)@ == old(out)@ + src@,
{
    let mut i: usize = 0;
    while i < src.len()
        invariant
            i <= src@.len(),
            out@ == old(out)@ + src@.subrange(0, i as int),
        decreases src@.len() - i,
    {
        out.push(src[i]);
        i = i + 1;
        assert(out@ =~= old(out)@ + src@.subrange(0, i as int));
    }
    assert(src@.subrange(0, i as int) =~= src@);
}

fn push_decimal(out: &mut Vec<u8>, n: u64)
    ensures
        final(out)@ == old(out)@ + decimal(n as nat),
    decreases n,
{
    if n >= 10 {
        push_decimal(out, n / 10);
    }
    out.push(ZERO + (n % 10) as u8);
    assert(out@ =~= old(out)@ + decimal(n as nat));
}

fn push_padded(out: &mut Vec<u8>, f: u64, k: u64)
    ensures
        final(out)@ == old(out)@ + padded(f as nat, k as nat),
    decreases k,
{
    if k > 0 {
        push_padded(out, f / 10, k - 1);
        out.push(ZERO + (f % 10) as u8);
    }
    assert(out@ =~= old(out)@ + padded(f as nat, k as nat));
}

fn push_value(out: &mut Vec<u8>, v: i64)
    requires
        value_in_range(v as int),
    ensures
        final(out)@ == old(out)@ + render_value(v as int),
{
    if v < 0 {
        out.push(MINUS);
    }
    let m: u64 = if v < 0 { (-v) as u64 } else { v as u64 };
    push_decimal(out, m / SCALE);
    out.push(DOT);
    let mut f = m % SCALE;
    let mut k: u64 = FRACTION_DIGITS as u64;
    while k > 1 && f % 10 == 0
        invariant
            1 <= k <= FRACTION_DIGITS,
            fraction_text(f as nat, k as nat) == fraction_text((m % SCALE) as nat, FRACTION_DIGITS as nat),
        decreases k,
    {
        f = f / 10;
        k = k - 1;
    }
    push_padded(out, f, k);
    assert(out@ =~= old(out)@ + render_value(v as int));
}

/// The rounded mean of an observed state.
pub fn mean(s: &Stats) -> (r: i64)
    requires
        observed(s@),
    ensures
        r as int == mean_of(s@),
{
    proof {
        lemma_mean_in_range(s@);
    }
    let c = s.count as u128;
    let a: u128 = if s.sum >= 0 { s.sum as u128 } else { (-s.sum) as u128 };
    proof {
        assert(a <= c * (VALUE_LIMIT as int)) by (nonlinear_arith)
            requires a <= s@.count * (VALUE_LIMIT as int), c == s@.count;
        assert(c * (VALUE_LIMIT as int) <= 18_446_744_073_709_551_615 * 999_999_999_999_999_999) by (nonlinear_arith)
            requires c <= 18_446_744_073_709_551_615, c >= 0;
    }
    let q = (2 * a + c) / (2 * c);
    if s.sum >= 0 { q as i64 } else { -(q as i64) }
}

impl Stats {
    /// `min/max/mean` of an observed state.
    pub fn render(&self) -> (r: Vec<u8>)
        requires
            observed(self@),
        ensures
            r@ == render_summary(self@),
    {
        let mut out: Vec<u8> = Vec::new();
        push_value(&mut out, self.min);
        out.push(SLASH);
        push_value(&mut out, self.max);
        out.push(SLASH);
        let m = mean(self);
        proof {
            lemma_mean_in_range(self@);
        }
        push_value(&mut out, m);
        assert(out@ =~= render_summary(self@));
        out
    }
}

/// The report of a map: `{key=min/max/mean, ...}`, keys ascending.
pub fn format_report(map: &StationMap) -> (r: Vec<u8>)
    requires
        map.wf(),
    ensures
        r@ == render_report(map.sorted()),
{
    let ghost es = map.sorted();
    proof {
        map.lemma_wf();
    }
    let n = map.len();
    let mut out: Vec<u8> = Vec::new();
    out.push(OPEN_BRACE);
    let mut i: usize = 0;
    proof {
        assert(es.subrange(0, 0) =~= Seq::<(Seq<u8>, Summary)>::empty());
        assert(out@ =~= seq![OPEN_BRACE] + entries_text(es.subrange(0, 0)));
    }
    while i < n
        invariant
            map.wf(),
            es == map.sorted(),
            n == es.len(),
            i <= n,
            out@ == seq![OPEN_BRACE] + entries_text(es.subrange(0, i as int)),
        decreases n - i,
    {
        let e = map.entry(i);
        let ghost before = out@;
        if i > 0 {
            out.push(COMMA);
            out.push(SPACE);
        }
        push_bytes(&mut out, e.key.as_slice());
        out.push(EQUALS);
        let text = e.stats.render();
        push_bytes(&mut out, text.as_slice());
        proof {
            let p = es.subrange(0, i + 1);
            assert(p.drop_last() =~= es.subrange(0, i as int));
            assert(p.last() == es[i as int]);
            if i == 0 {
                assert(out@ =~= seq![OPEN_BRACE] + entries_text(p));
            } else {
                assert(out@ =~= seq![OPEN_BRACE] + entries_text(p));
            }
        }
        i = i + 1;
    }
    out.push(CLOSE_BRACE);
    assert(es.subrange(0, n as int) =~= es);
    out
}

} // verus!
