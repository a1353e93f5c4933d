//! Byte-lexicographic order on keys.

use vstd::prelude::*;

verus! {

/// `a` sorts strictly before `b`, comparing bytes from the front; a proper
/// prefix sorts first.
pub open spec fn key_lt(a: Seq<u8>, b: Seq<u8>) -> bool
    decreases a.len(),
{
    if a.len() == 0 {
        b.len() > 0
    } else if b.len() == 0 {
        false
    } else if a[0] != b[0] {
        a[0] < b[0]
    } else {
        key_lt(a.drop_first(), b.drop_first())
    }
}

pub proof fn lemma_key_lt_irreflexive(a: Seq<u8>)
    ensures
        !key_lt(a, a),
    decreases a.len(),
{
    if a.len() > 0 {
        lemma_key_lt_irreflexive(a.drop_first());
    }
}

pub proof fn lemma_key_lt_transitive(a: Seq<u8>, b: Seq<u8>, c: Seq<u8>)
    requires
        key_lt(a, b),
        key_lt(b, c),
    ensures
        key_lt(a, c),
    decreases a.len(),
{
    if a.len() > 0 && b.len() > 0 && c.len() > 0 && a[0] == b[0] && b[0] == c[0] {
        lemma_key_lt_transitive(a.drop_first(), b.drop_first(), c.drop_first());
    }
}

/// Two different keys are ordered one way or the other, never both.
pub proof fn lemma_key_lt_total(a: Seq<u8>, b: Seq<u8>)
    ensures
        a != b ==> (key_lt(a, b) || key_lt(b, a)),
        !(key_lt(a, b) && key_lt(b, a)),
    decreases a.len(),
{
    if a.len() > 0 && b.len() > 0 && a[0] == b[0] {
        lemma_key_lt_total(a.drop_first(), b.drop_first());
        if a.drop_first() == b.drop_first() {
            assert(a =~= seq![a[0]] + a.drop_first());
            assert(b =~= seq![b[0]] + b.drop_first());
        }
    }
    if a.len() == 0 && b.len() == 0 {
        assert(a =~= b);
    }
}

proof fn lemma_key_lt_skip(a: Seq<u8>, b: Seq<u8>, i: int)
    requires
        0 <= i <= a.len(),
        i <= b.len(),
        a.subrange(0, i) == b.subrange(0, i),
    ensures
        key_lt(a, b) == key_lt(a.subrange(i, a.len() as int), b.subrange(i, b.len() as int)),
        (a == b) == (a.subrange(i, a.len() as int) == b.subrange(i, b.len() as int)),
    decreases i,
{
    assert(a.subrange(0, a.len() as int) =~= a);
    assert(b.subrange(0, b.len() as int) =~= b);
    if i > 0 {
        assert(a[0] == a.subrange(0, i)[0]);
        assert(b[0] == b.subrange(0, i)[0]);
        let a1 = a.drop_first();
        let b1 = b.drop_first();
        assert(a1.subrange(0, i - 1) =~= a.subrange(0, i).drop_first());
        assert(b1.subrange(0, i - 1) =~= b.subrange(0, i).drop_first());
        lemma_key_lt_skip(a1, b1, i - 1);
        assert(a1.subrange(i - 1, a1.len() as int) =~= a.subrange(i, a.len() as int));
        assert(b1.subrange(i - 1, b1.len() as int) =~= b.subrange(i, b.len() as int));
        if a1 == b1 {
            assert(a =~= seq![a[0]] + a1);
            assert(b =~= seq![b[0]] + b1);
        }
    }
}

/// Compares `data[start..end]` with `key`: negative when it sorts first,
/// zero when equal, positive when it sorts after.
pub fn compare_key(data: &[u8], start: usize, end: usize, key: &[u8]) -> (r: i8)
    requires
        start <= end <= data@.len(),
    ensures
        (r == 0) == (data@.subrange(start as int, end as int) == key@),
        (r < 0) == key_lt(data@.subrange(start as int, end as int), key@),
        (r > 0) == key_lt(key@, data@.subrange(start as int, end as int)),
{
    let ghost a = data@.subrange(start as int, end as int);
    let ghost b = key@;
    let n = end - start;
    let mut i: usize = 0;
    while i < n && i < key.len() && data[start + i] == key[i]
        invariant
            n == end - start,
            start <= end <= data@.len(),
            a == data@.subrange(start as int, end as int),
            b == key@,
            i <= n,
            i <= key@.len(),
            a.subrange(0, i as int) =~= b.subrange(0, i as int),
        decreases n - i,
    {
        proof {
            assert(a[i as int] == data@[start + i]);
        }
        i = i + 1;
        proof {
            assert forall|j: int| 0 <= j < i implies a.subrange(0, i as int)[j] == b.subrange(0, i as int)[j] by {
                if j < i - 1 {
                    assert(a.subrange(0, i - 1)[j] == b.subrange(0, i - 1)[j]);
                }
            }
        }
    }
    proof {
        lemma_key_lt_skip(a, b, i as int);
        lemma_key_lt_total(a, b);
        let a2 = a.subrange(i as int, a.len() as int);
        let b2 = b.subrange(i as int, b.len() as int);
        if i < n {
            assert(a2[0] == data@[start + i]);
        }
        if i < key.len() {
            assert(b2[0] == key@[i as int]);
        }
        if i == n && i == key.len() {
            assert(a2 =~= b2);
        }
        if i < n && i < key.len() {
            assert(a2 != b2);
        }
        if i == n && i < key.len() {
            assert(a2.len() != b2.len());
        }
        if i < n && i == key.len() {
            assert(a2.len() != b2.len());
        }
    }
    if i == n {
        if i == key.len() { 0 } else { -1 }
    } else if i == key.len() {
        1
    } else if data[start + i] < key[i] {
        -1
    } else {
        1
    }
}

} // verus!
