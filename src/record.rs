//! The text format: lines of `key;value`, and the decimal values in them.

use vstd::prelude::*;
use crate::stats::{VALUE_LIMIT, value_in_range};

verus! {

pub const NEWLINE: u8 = 10;
pub const CARRIAGE_RETURN: u8 = 13;
pub const DELIMITER: u8 = 59;
pub const DOT: u8 = 46;
pub const MINUS: u8 = 45;
pub const PLUS: u8 = 43;
pub const ZERO: u8 = 48;

/// Values are held as integers counting units of ten to the minus this many.
pub const FRACTION_DIGITS: usize = 6;

/// Index of the first `b` in `s`, or `s.len()` where there is none.
pub open spec fn first_pos(s: Seq<u8>, b: u8) -> int
    decreases s.len(),
{
    if s.len() == 0 {
        0
    } else if s[0] == b {
        0
    } else {
        1 + first_pos(s.drop_first(), b)
    }
}

pub proof fn lemma_first_pos(s: Seq<u8>, b: u8)
    ensures
        0 <= first_pos(s, b) <= s.len(),
        forall|j: int| 0 <= j < first_pos(s, b) ==> s[j] != b,
        first_pos(s, b) < s.len() ==> s[first_pos(s, b)] == b,
    decreases s.len(),
{
    if s.len() > 0 && s[0] != b {
        lemma_first_pos(s.drop_first(), b);
        assert forall|j: int| 0 <= j < first_pos(s, b) implies s[j] != b by {
            if j > 0 {
                assert(s[j] == s.drop_first()[j - 1]);
            }
        }
    }
}

/// `first_pos` is the index `i` whenever no `b` comes before `i` and `i` is a
/// `b` or the end.
pub proof fn lemma_first_pos_at(s: Seq<u8>, b: u8, i: int)
    requires
        0 <= i <= s.len(),
        forall|j: int| 0 <= j < i ==> s[j] != b,
        i < s.len() ==> s[i] == b,
    ensures
        first_pos(s, b) == i,
{
    lemma_first_pos(s, b);
    if first_pos(s, b) < i {
        assert(s[first_pos(s, b)] == b);
    }
    if first_pos(s, b) > i {
        assert(s[i] != b);
    }
}

/// The lines of a text: the pieces between line terminators, where a final
/// piece without terminator counts as a line when it is not empty.
pub open spec fn lines(d: Seq<u8>) -> Seq<Seq<u8>>
    decreases d.len(),
{
    if d.len() == 0 {
        seq![]
    } else {
        let p = first_pos(d, NEWLINE);
        proof {
            lemma_first_pos(d, NEWLINE);
        }
        if p < d.len() {
            seq![d.subrange(0, p)] + lines(d.subrange(p + 1, d.len() as int))
        } else {
            seq![d]
        }
    }
}

/// A text that is empty or ends with a line terminator.
pub open spec fn line_aligned(d: Seq<u8>) -> bool {
    d.len() == 0 || d.last() == NEWLINE
}

/// A text that ends at a line boundary can be split off without changing
/// the lines of what follows.
pub proof fn lemma_lines_concat(a: Seq<u8>, b: Seq<u8>)
    requires
        line_aligned(a),
    ensures
        lines(a + b) == lines(a) + lines(b),
    decreases a.len(),
{
    if a.len() == 0 {
        assert(a + b =~= b);
        assert(lines(a) =~= seq![]);
        assert(lines(a) + lines(b) =~= lines(b));
    } else {
        let p = first_pos(a, NEWLINE);
        lemma_first_pos(a, NEWLINE);
        assert(p < a.len());
        let ab = a + b;
        assert forall|j: int| 0 <= j < p implies ab[j] != NEWLINE by {
            assert(ab[j] == a[j]);
        }
        assert(ab[p] == a[p]);
        lemma_first_pos_at(ab, NEWLINE, p);
        let rest = a.subrange(p + 1, a.len() as int);
        assert(ab.subrange(0, p) =~= a.subrange(0, p));
        assert(ab.subrange(p + 1, ab.len() as int) =~= rest + b);
        if rest.len() > 0 {
            assert(rest.last() == a.last());
        }
        lemma_lines_concat(rest, b);
        assert(lines(ab) =~= seq![a.subrange(0, p)] + (lines(rest) + lines(b)));
        assert(lines(a) =~= seq![a.subrange(0, p)] + lines(rest));
        assert(lines(a) + lines(b) =~= seq![a.subrange(0, p)] + (lines(rest) + lines(b)));
    }
}

/// A text has no more lines than bytes.
pub proof fn lemma_lines_len(d: Seq<u8>)
    ensures
        lines(d).len() <= d.len(),
    decreases d.len(),
{
    if d.len() > 0 {
        lemma_first_pos(d, NEWLINE);
        let p = first_pos(d, NEWLINE);
        if p < d.len() {
            lemma_lines_len(d.subrange(p + 1, d.len() as int));
        }
    }
}

/// One line followed by its terminator.
pub proof fn lemma_lines_one(l: Seq<u8>)
    requires
        forall|j: int| 0 <= j < l.len() ==> l[j] != NEWLINE,
    ensures
        lines(l.push(NEWLINE)) == seq![l],
        l.len() > 0 ==> lines(l) == seq![l],
{
    let d = l.push(NEWLINE);
    lemma_first_pos_at(d, NEWLINE, l.len() as int);
    assert(d.subrange(0, l.len() as int) =~= l);
    assert(d.subrange(l.len() as int + 1, d.len() as int) =~= Seq::<u8>::empty());
    assert(lines(Seq::<u8>::empty()) =~= seq![]);
    assert(lines(d) =~= seq![l]);
    if l.len() > 0 {
        lemma_first_pos_at(l, NEWLINE, l.len() as int);
    }
}

pub open spec fn is_digit(b: u8) -> bool {
    ZERO <= b <= ZERO + 9
}

pub open spec fn all_digits(s: Seq<u8>) -> bool {
    forall|j: int| 0 <= j < s.len() ==> is_digit(#[trigger] s[j])
}

/// The number that a string of decimal digits spells.
pub open spec fn digits_value(s: Seq<u8>) -> int
    decreases s.len(),
{
    if s.len() == 0 {
        0
    } else {
        digits_value(s.drop_last()) * 10 + (s.last() - ZERO)
    }
}

/// The first `FRACTION_DIGITS` digits of a fractional part, padded with zeros.
pub open spec fn scaled_fraction(f: Seq<u8>) -> Seq<u8> {
    if f.len() >= FRACTION_DIGITS {
        f.subrange(0, FRACTION_DIGITS as int)
    } else {
        f + Seq::new((FRACTION_DIGITS - f.len()) as nat, |i: int| ZERO)
    }
}

pub open spec fn has_sign(t: Seq<u8>) -> bool {
    t.len() > 0 && (t[0] == MINUS || t[0] == PLUS)
}

/// The text after an optional sign.
pub open spec fn unsigned_part(t: Seq<u8>) -> Seq<u8> {
    if has_sign(t) { t.drop_first() } else { t }
}

pub open spec fn integer_part(t: Seq<u8>) -> Seq<u8> {
    let body = unsigned_part(t);
    body.subrange(0, first_pos(body, DOT))
}

pub open spec fn fraction_part(t: Seq<u8>) -> Seq<u8> {
    let body = unsigned_part(t);
    let d = first_pos(body, DOT);
    if d < body.len() { body.subrange(d + 1, body.len() as int) } else { seq![] }
}

/// The digits of a value's magnitude, in units of the fixed-point scale.
pub open spec fn scaled_digits(t: Seq<u8>) -> Seq<u8> {
    integer_part(t) + scaled_fraction(fraction_part(t))
}

/// A decimal literal: optional sign, digits, and an optional `.` with more
/// digits, at least one digit in all. Fraction digits beyond the scale are
/// dropped. A literal whose magnitude exceeds `VALUE_LIMIT` is refused.
pub open spec fn parse_value(t: Seq<u8>) -> Option<int> {
    let ip = integer_part(t);
    let fp = fraction_part(t);
    let m = digits_value(scaled_digits(t));
    if all_digits(ip) && all_digits(fp) && ip.len() + fp.len() > 0 && m <= VALUE_LIMIT {
        Some(if t.len() > 0 && t[0] == MINUS { -m } else { m })
    } else {
        None
    }
}

/// A line without its trailing carriage return, if it has one.
pub open spec fn line_content(l: Seq<u8>) -> Seq<u8> {
    if l.len() > 0 && l.last() == CARRIAGE_RETURN { l.drop_last() } else { l }
}

/// A record: the key before the first delimiter, the value after it.
pub open spec fn parse_record(l: Seq<u8>) -> Option<(Seq<u8>, int)> {
    let c = line_content(l);
    let p = first_pos(c, DELIMITER);
    if p < c.len() {
        match parse_value(c.subrange(p + 1, c.len() as int)) {
            Some(v) => Some((c.subrange(0, p), v)),
            None => None,
        }
    } else {
        None
    }
}

proof fn lemma_digits_step(d: Seq<u8>, k: int)
    requires
        0 <= k < d.len(),
    ensures
        digits_value(d.subrange(0, k + 1)) == digits_value(d.subrange(0, k)) * 10 + (d[k] - ZERO),
{
    assert(d.subrange(0, k + 1).drop_last() =~= d.subrange(0, k));
}

proof fn lemma_digits_prefix(d: Seq<u8>, k: int)
    requires
        all_digits(d),
        0 <= k <= d.len(),
    ensures
        0 <= digits_value(d.subrange(0, k)) <= digits_value(d),
        0 <= digits_value(d),
    decreases d.len(),
{
    if d.len() > 0 {
        let e = d.drop_last();
        assert(all_digits(e)) by {
            assert forall|j: int| 0 <= j < e.len() implies is_digit(#[trigger] e[j]) by {
                assert(e[j] == d[j]);
            }
        }
        lemma_digits_prefix(e, if k < d.len() { k } else { 0 });
        assert(is_digit(d[d.len() - 1]));
        if k < d.len() {
            assert(d.subrange(0, k) =~= e.subrange(0, k));
        } else {
            assert(d.subrange(0, k) =~= d);
        }
    } else {
        assert(d.subrange(0, k) =~= d);
    }
}

/// A parsed value is within the library's range.
pub proof fn lemma_parse_value_in_range(t: Seq<u8>)
    ensures
        parse_value(t) matches Some(v) ==> value_in_range(v),
{
    let ip = integer_part(t);
    let fp = fraction_part(t);
    let dd = scaled_digits(t);
    if all_digits(ip) && all_digits(fp) {
        let sf = scaled_fraction(fp);
        assert(all_digits(sf)) by {
            assert forall|j: int| 0 <= j < sf.len() implies is_digit(#[trigger] sf[j]) by {
                if j < fp.len() {
                    assert(sf[j] == fp[j]);
                }
            }
        }
        assert(all_digits(dd)) by {
            assert forall|j: int| 0 <= j < dd.len() implies is_digit(#[trigger] dd[j]) by {
                if j < ip.len() {
                    assert(dd[j] == ip[j]);
                } else {
                    assert(dd[j] == sf[j - ip.len()]);
                }
            }
        }
        lemma_digits_prefix(dd, 0);
    }
}

/// The value of a parsed record is within the library's range.
pub proof fn lemma_parse_record_in_range(l: Seq<u8>)
    ensures
        parse_record(l) matches Some((k, v)) ==> value_in_range(v),
{
    let c = line_content(l);
    let p = first_pos(c, DELIMITER);
    if p < c.len() {
        lemma_parse_value_in_range(c.subrange(p + 1, c.len() as int));
    }
}

/// Position of the first `b` in `data[start..end]`, or `end`.
pub fn find_byte(data: &[u8], start: usize, end: usize, b: u8) -> (r: usize)
    requires
        start <= end <= data@.len(),
    ensures
        r == start + first_pos(data@.subrange(start as int, end as int), b),
        start <= r <= end,
        forall|j: int| start <= j < r ==> data@[j] != b,
        r < end ==> data@[r as int] == b,
{
    let mut i = start;
    while i < end && data[i] != b
        invariant
            start <= i <= end <= data@.len(),
            forall|j: int| start <= j < i ==> data@[j] != b,
        decreases end - i,
    {
        i = i + 1;
    }
    proof {
        let t = data@.subrange(start as int, end as int);
        lemma_first_pos_at(t, b, i - start);
    }
    i
}

/// Parses the decimal literal `data[start..end]` into fixed-point units.
pub fn parse_value_at(data: &[u8], start: usize, end: usize) -> (r: Option<i64>)
    requires
        start <= end <= data@.len(),
    ensures
        r matches Some(v) ==> parse_value(data@.subrange(start as int, end as int)) == Some(v as int),
        r is None ==> parse_value(data@.subrange(start as int, end as int)) is None,
{
    let ghost t = data@.subrange(start as int, end as int);
    let neg = start < end && data[start] == MINUS;
    proof {
        if start < end {
            assert(t[0] == data@[start as int]);
        }
    }
    let s0 = if start < end && (data[start] == MINUS || data[start] == PLUS) { start + 1 } else { start };
    let ghost body = data@.subrange(s0 as int, end as int);
    proof {
        assert(unsigned_part(t) =~= body);
        lemma_first_pos(body, DOT);
    }
    let ghost ip = integer_part(t);
    let ghost fp = fraction_part(t);
    let ghost dd = scaled_digits(t);
    let ghost ok = all_digits(ip) && all_digits(fp);
    let mut acc: u64 = 0;
    let mut i = s0;
    while i < end && data[i] != DOT
        invariant
            s0 <= i <= end <= data@.len(),
            t == data@.subrange(start as int, end as int),
            ip == integer_part(t),
            fp == fraction_part(t),
            dd == scaled_digits(t),
            ok == (all_digits(ip) && all_digits(fp)),
            neg == (t.len() > 0 && t[0] == MINUS),
            body == data@.subrange(s0 as int, end as int),
            ip == body.subrange(0, first_pos(body, DOT)),
            dd == ip + scaled_fraction(fp),
            0 <= first_pos(body, DOT) <= body.len(),
            forall|j: int| s0 <= j < i ==> is_digit(#[trigger] data@[j]),
            i - s0 <= first_pos(body, DOT),
            acc == digits_value(dd.subrange(0, i - s0)),
            acc <= VALUE_LIMIT,
            ok ==> all_digits(dd),
        decreases end - i,
    {
        proof {
            lemma_first_pos(body, DOT);
            assert(body[i - s0] == data@[i as int]);
            assert(i - s0 < first_pos(body, DOT));
            assert(dd[i - s0] == data@[i as int]);
        }
        let c = data[i];
        if c < ZERO || c > ZERO + 9 {
            proof { assert(!is_digit(ip[i - s0])); }
            return None;
        }
        proof { lemma_digits_step(dd, i - s0); }
        acc = acc * 10 + (c - ZERO) as u64;
        if acc > VALUE_LIMIT as u64 {
            proof {
                if ok {
                    lemma_digits_prefix(dd, i - s0 + 1);
                }
            }
            return None;
        }
        i = i + 1;
    }
    proof {
        lemma_first_pos_at(body, DOT, i - s0);
        assert(ip =~= data@.subrange(s0 as int, i as int));
    }
    let fstart = if i < end { i + 1 } else { end };
    proof {
        assert(fp =~= data@.subrange(fstart as int, end as int));
        assert(ip.len() == i - s0);
    }
    let mut k: usize = 0;
    let mut j = fstart;
    while j < end
        invariant
            fstart <= j <= end <= data@.len(),
            t == data@.subrange(start as int, end as int),
            ip == integer_part(t),
            fp == fraction_part(t),
            dd == scaled_digits(t),
            ok == (all_digits(ip) && all_digits(fp)),
            neg == (t.len() > 0 && t[0] == MINUS),
            fp == data@.subrange(fstart as int, end as int),
            dd == ip + scaled_fraction(fp),
            ip.len() == i - s0,
            all_digits(ip),
            forall|m: int| fstart <= m < j ==> is_digit(#[trigger] data@[m]),
            k == (if j - fstart < FRACTION_DIGITS { j - fstart } else { FRACTION_DIGITS as int }),
            acc == digits_value(dd.subrange(0, ip.len() + k)),
            acc <= VALUE_LIMIT,
            ok ==> all_digits(dd),
        decreases end - j,
    {
        let c = data[j];
        if c < ZERO || c > ZERO + 9 {
            proof { assert(!is_digit(fp[j - fstart])); }
            return None;
        }
        if k < FRACTION_DIGITS {
            proof {
                assert(dd[ip.len() + k] == data@[j as int]);
                lemma_digits_step(dd, ip.len() + k);
            }
            acc = acc * 10 + (c - ZERO) as u64;
            if acc > VALUE_LIMIT as u64 {
                proof {
                    if ok {
                        lemma_digits_prefix(dd, ip.len() + k + 1);
                    }
                }
                return None;
            }
            k = k + 1;
        }
        j = j + 1;
    }
    proof {
        assert(all_digits(fp)) by {
            assert forall|m: int| 0 <= m < fp.len() implies is_digit(#[trigger] fp[m]) by {
                assert(fp[m] == data@[fstart + m]);
            }
        }
        assert(ok);
    }
    while k < FRACTION_DIGITS
        invariant
            k <= FRACTION_DIGITS,
            t == data@.subrange(start as int, end as int),
            ip == integer_part(t),
            fp == fraction_part(t),
            dd == scaled_digits(t),
            ok == (all_digits(ip) && all_digits(fp)),
            neg == (t.len() > 0 && t[0] == MINUS),
            k >= fp.len() || k == FRACTION_DIGITS,
            ip.len() + fp.len() == (i - s0) + (end - fstart),
            dd == ip + scaled_fraction(fp),
            acc == digits_value(dd.subrange(0, ip.len() + k)),
            acc <= VALUE_LIMIT,
            all_digits(dd),
        decreases FRACTION_DIGITS - k,
    {
        proof {
            assert(dd[ip.len() + k] == ZERO);
            lemma_digits_step(dd, ip.len() + k);
        }
        acc = acc * 10;
        if acc > VALUE_LIMIT as u64 {
            proof { lemma_digits_prefix(dd, ip.len() + k + 1); }
            return None;
        }
        k = k + 1;
    }
    proof {
        assert(dd.subrange(0, ip.len() + k) =~= dd);
    }
    if (i - s0) + (end - fstart) == 0 {
        return None;
    }
    let v = acc as i64;
    if neg { Some(-v) } else { Some(v) }
}

/// Parses the line `data[start..end]` (without its terminator) as a record.
/// On success returns the position of the delimiter, so that the key is
/// `data[start..p]`, and the value.
pub fn parse_record_at(data: &[u8], start: usize, end: usize) -> (r: Option<(usize, i64)>)
    requires
        start <= end <= data@.len(),
    ensures
        parse_record(data@.subrange(start as int, end as int)) matches Some((key, v)) ==> {
            &&& r matches Some((p, w))
            &&& start <= p < end
            &&& data@.subrange(start as int, p as int) == key
            &&& w as int == v
        },
        parse_record(data@.subrange(start as int, end as int)) is None ==> r is None,
{
    let ghost l = data@.subrange(start as int, end as int);
    let cend = if start < end && data[end - 1] == CARRIAGE_RETURN { end - 1 } else { end };
    proof {
        assert(line_content(l) =~= data@.subrange(start as int, cend as int));
    }
    let p = find_byte(data, start, cend, DELIMITER);
    if p >= cend {
        return None;
    }
    proof {
        let c = line_content(l);
        assert(c.subrange(p - start + 1, c.len() as int) =~= data@.subrange(p + 1, cend as int));
        assert(c.subrange(0, p - start) =~= data@.subrange(start as int, p as int));
    }
    match parse_value_at(data, p + 1, cend) {
        Some(v) => Some((p, v)),
        None => None,
    }
}

} // verus!
