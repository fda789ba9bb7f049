//! The median of timing samples.
use vstd::prelude::*;
use std::time::Duration;

verus! {

/// How many of `s` are below `v`.
pub open spec fn count_below(s: Seq<u128>, v: u128) -> nat
    decreases s.len(),
{
    if s.len() == 0 {
        0
    } else {
        count_below(s.drop_last(), v) + if s.last() < v {
            1nat
        } else {
            0nat
        }
    }
}

/// How many of `s` are at most `v`.
pub open spec fn count_upto(s: Seq<u128>, v: u128) -> nat
    decreases s.len(),
{
    if s.len() == 0 {
        0
    } else {
        count_upto(s.drop_last(), v) + if s.last() <= v {
            1nat
        } else {
            0nat
        }
    }
}

/// `v` is what stands at position `m` once `s` is sorted: fewer than `m + 1`
/// values lie below it and more than `m` lie at or below it.
pub open spec fn at_rank(s: Seq<u128>, m: int, v: u128) -> bool {
    count_below(s, v) <= m < count_upto(s, v)
}

proof fn lemma_counts_monotone(s: Seq<u128>, v: u128, w: u128)
    requires
        v <= w,
    ensures
        count_below(s, v) <= count_below(s, w),
        count_upto(s, v) <= count_upto(s, w),
        count_below(s, v) <= count_upto(s, v) <= s.len(),
    decreases s.len(),
{
    if s.len() > 0 {
        lemma_counts_monotone(s.drop_last(), v, w);
    }
}

/// Every position of a non-empty sequence is held, in sorted order, by one of
/// its values.
pub proof fn lemma_rank_exists(s: Seq<u128>, m: int) -> (k: int)
    requires
        0 <= m < s.len(),
    ensures
        0 <= k < s.len(),
        at_rank(s, m, s[k]),
    decreases s.len(),
{
    let p = s.drop_last();
    let x = s.last();
    let n = s.len() - 1;
    if p.len() == 0 {
        assert(count_below(p, x) == 0 && count_upto(p, x) == 0);
        n
    } else {
        let ka: int = if m < p.len() {
            lemma_rank_exists(p, m)
        } else {
            0
        };
        let kb: int = if m >= 1 {
            lemma_rank_exists(p, m - 1)
        } else {
            0
        };
        if m < p.len() && x >= p[ka] {
            assert(s[ka] == p[ka]);
            ka
        } else if m >= 1 && x < p[kb] {
            assert(s[kb] == p[kb]);
            kb
        } else {
            lemma_counts_monotone(p, x, x);
            if m >= 1 {
                lemma_counts_monotone(p, p[kb], x);
            }
            if m < p.len() {
                lemma_counts_monotone(p, x, p[ka]);
            }
            assert(s[n] == x);
            n
        }
    }
}

fn count_pair(keys: &[u128], v: u128) -> (r: (usize, usize))
    ensures
        r.0 == count_below(keys@, v),
        r.1 == count_upto(keys@, v),
{
    let mut below: usize = 0;
    let mut upto: usize = 0;
    let mut i: usize = 0;
    while i < keys.len()
        invariant
            i <= keys.len(),
            below == count_below(keys@.take(i as int), v),
            upto == count_upto(keys@.take(i as int), v),
            below <= i,
            upto <= i,
        decreases keys.len() - i,
    {
        assert(keys@.take(i + 1).drop_last() =~= keys@.take(i as int));
        if keys[i] < v {
            below = below + 1;
        }
        if keys[i] <= v {
            upto = upto + 1;
        }
        i = i + 1;
    }
    assert(keys@.take(i as int) =~= keys@);
    (below, upto)
}

/// The position of a value that stands in the middle (at position half the
/// length, rounded down) once `keys` is sorted.
pub fn median_rank(keys: &[u128]) -> (r: usize)
    requires
        keys.len() > 0,
    ensures
        r < keys.len(),
        at_rank(keys@, (keys.len() / 2) as int, keys@[r as int]),
{
    let m = keys.len() / 2;
    let ghost w = lemma_rank_exists(keys@, m as int);
    let mut i: usize = 0;
    while i < keys.len()
        invariant
            i <= keys.len(),
            m == keys.len() / 2,
            0 <= w < keys.len(),
            at_rank(keys@, m as int, keys@[w]),
            forall|j: int| 0 <= j < i ==> !at_rank(keys@, m as int, #[trigger] keys@[j]),
        decreases keys.len() - i,
    {
        let (below, upto) = count_pair(keys, keys[i]);
        if below <= m && m < upto {
            return i;
        }
        i = i + 1;
    }
    assert(!at_rank(keys@, m as int, keys@[w]));
    0
}

/// The length of a duration in whole nanoseconds.
pub uninterp spec fn duration_nanos(d: Duration) -> u128;

/// `Duration::as_nanos`: the total whole nanoseconds of `d`.
#[verifier::external_body]
fn nanos_of(d: &Duration) -> (r: u128)
    ensures
        r == duration_nanos(*d),
{
    d.as_nanos()
}

/// The lengths of `samples` in nanoseconds.
pub open spec fn sample_nanos(samples: Seq<Duration>) -> Seq<u128> {
    Seq::new(samples.len(), |i: int| duration_nanos(samples[i]))
}

/// `r` is one of `samples`, and the middle one once they are sorted by length.
pub open spec fn is_median_sample(samples: Seq<Duration>, r: Duration) -> bool {
    &&& exists|k: int| 0 <= k < samples.len() && samples[k] == r
    &&& at_rank(sample_nanos(samples), (samples.len() / 2) as int, duration_nanos(r))
}

/// The median of non-empty timing samples: the one at position half the
/// length, rounded down, once they are sorted.
pub fn median_duration(samples: Vec<Duration>) -> (r: Duration)
    requires
        samples.len() > 0,
    ensures
        is_median_sample(samples@, r),
{
    let mut keys: Vec<u128> = Vec::new();
    let mut i: usize = 0;
    while i < samples.len()
        invariant
            i <= samples.len(),
            keys@ == sample_nanos(samples@).take(i as int),
        decreases samples.len() - i,
    {
        keys.push(nanos_of(&samples[i]));
        i = i + 1;
        assert(keys@ =~= sample_nanos(samples@).take(i as int));
    }
    assert(keys@ =~= sample_nanos(samples@));
    let k = median_rank(keys.as_slice());
    samples[k]
}

} // verus!
