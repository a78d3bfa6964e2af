//! The weighted-distance sampling utility shared by the team balancer.
//!
//! For a target value and a list of candidate values, each candidate gets the
//! weight `(total - d_i)^stability`, where `d_i` is its absolute distance to
//! the target and `total` the sum of all distances.  These are the usual
//! closeness weights `(1 - d_i/total)^stability` scaled by the constant
//! `total^stability`, so normalizing yields the same distribution while every
//! intermediate value stays an exact integer.  When every weight is zero
//! (all candidates equidistant from the target, or a single candidate holding
//! the whole distance mass) the draw falls back to a uniform one.

use vstd::arithmetic::power::lemma_pow1;
use vstd::arithmetic::power::lemma_pow_adds;
use vstd::arithmetic::power::lemma_pow_increases;
use vstd::arithmetic::power::pow;
use vstd::prelude::*;

verus! {

/// Absolute distance between two values.
pub open spec fn dist(t: int, c: int) -> nat {
    if t >= c {
        (t - c) as nat
    } else {
        (c - t) as nat
    }
}

/// Distance of every candidate to the target.
pub open spec fn dists(target: int, cands: Seq<i64>) -> Seq<nat> {
    Seq::new(cands.len(), |i: int| dist(target, cands[i] as int))
}

/// Sum of a sequence of naturals.
pub open spec fn sum(s: Seq<nat>) -> nat
    decreases s.len(),
{
    if s.len() == 0 {
        0
    } else {
        sum(s.drop_last()) + s.last()
    }
}

/// The unnormalized sampling weight of every candidate:
/// `(total - d_i)^stability`.
pub open spec fn raw_weights(target: int, cands: Seq<i64>, stability: nat) -> Seq<nat> {
    let ds = dists(target, cands);
    let total = sum(ds);
    Seq::new(
        ds.len(),
        |i: int|
            if ds[i] <= total {
                pow((total - ds[i]) as int, stability) as nat
            } else {
                0
            },
    )
}

/// The effective sampling weights: the raw ones, or all ones when every raw
/// weight is zero (the uniform fallback).
pub open spec fn weights(target: int, cands: Seq<i64>, stability: nat) -> Seq<nat> {
    let w = raw_weights(target, cands, stability);
    if sum(w) == 0 {
        Seq::new(cands.len(), |i: int| 1nat)
    } else {
        w
    }
}

/// The cumulative weight of candidates `0 ..= i`.
pub open spec fn cum_weight(target: int, cands: Seq<i64>, stability: nat, i: int) -> nat {
    sum(weights(target, cands, stability).take(i + 1))
}

/// The sum of all effective weights; positive whenever there is a candidate.
pub open spec fn total_weight(target: int, cands: Seq<i64>, stability: nat) -> nat {
    sum(weights(target, cands, stability))
}

/// Adding the `i`-th element extends a prefix sum.
pub proof fn lemma_sum_take_succ(s: Seq<nat>, i: int)
    requires
        0 <= i < s.len(),
    ensures
        sum(s.take(i + 1)) == sum(s.take(i)) + s[i],
{
    assert(s.take(i + 1).drop_last() =~= s.take(i));
    assert(s.take(i + 1).last() == s[i]);
}

/// A prefix sum never exceeds a longer prefix sum.
pub proof fn lemma_sum_take_mono(s: Seq<nat>, i: int, j: int)
    requires
        0 <= i <= j <= s.len(),
    ensures
        sum(s.take(i)) <= sum(s.take(j)),
    decreases j - i,
{
    if i < j {
        lemma_sum_take_mono(s, i, j - 1);
        lemma_sum_take_succ(s, j - 1);
    }
}

/// A full prefix is the whole sequence.
pub proof fn lemma_sum_take_all(s: Seq<nat>)
    ensures
        sum(s.take(s.len() as int)) == sum(s),
{
    assert(s.take(s.len() as int) =~= s);
}

/// Every element is at most the sum of the sequence.
pub proof fn lemma_sum_elem_le(s: Seq<nat>, i: int)
    requires
        0 <= i < s.len(),
    ensures
        s[i] <= sum(s),
    decreases s.len(),
{
    if i == s.len() - 1 {
    } else {
        lemma_sum_elem_le(s.drop_last(), i);
    }
}

/// A sequence of elements bounded by `b` sums to at most `len * b`.
pub proof fn lemma_sum_bound(s: Seq<nat>, b: nat)
    requires
        forall|i: int| 0 <= i < s.len() ==> #[trigger] s[i] <= b,
    ensures
        sum(s) <= s.len() * b,
    decreases s.len(),
{
    if s.len() > 0 {
        lemma_sum_bound(s.drop_last(), b);
        assert((s.len() - 1) * b + b == s.len() * b) by (nonlinear_arith);
    }
}

/// A constant sequence of ones sums to its length.
pub proof fn lemma_sum_ones(n: nat)
    ensures
        sum(Seq::new(n, |i: int| 1nat)) == n,
    decreases n,
{
    if n > 0 {
        lemma_sum_ones((n - 1) as nat);
        assert(Seq::new(n, |i: int| 1nat).drop_last() =~= Seq::new((n - 1) as nat, |i: int| 1nat));
    }
}

/// A power of a nonnegative base is nonnegative.
pub proof fn lemma_pow_nonneg(b: int, e: nat)
    requires
        b >= 0,
    ensures
        pow(b, e) >= 0,
    decreases e,
{
    if e == 0 {
        vstd::arithmetic::power::lemma_pow0(b);
    } else {
        lemma_pow_nonneg(b, (e - 1) as nat);
        lemma_pow_adds(b, (e - 1) as nat, 1nat);
        lemma_pow1(b);
        assert(pow(b, (e - 1) as nat) * b >= 0) by (nonlinear_arith)
            requires
                b >= 0,
                pow(b, (e - 1) as nat) >= 0,
        ;
    }
}

/// Raising to a power is monotone in the base.
pub proof fn lemma_pow_le_base(a: nat, b: nat, e: nat)
    requires
        a <= b,
    ensures
        pow(a as int, e) <= pow(b as int, e),
    decreases e,
{
    if e == 0 {
        vstd::arithmetic::power::lemma_pow0(a as int);
        vstd::arithmetic::power::lemma_pow0(b as int);
    } else {
        lemma_pow_le_base(a, b, (e - 1) as nat);
        lemma_pow_nonneg(a as int, (e - 1) as nat);
        lemma_pow_nonneg(b as int, (e - 1) as nat);
        lemma_pow_adds(a as int, (e - 1) as nat, 1nat);
        lemma_pow_adds(b as int, (e - 1) as nat, 1nat);
        lemma_pow1(a as int);
        lemma_pow1(b as int);
        assert(pow(a as int, (e - 1) as nat) * (a as int) <= pow(b as int, (e - 1) as nat) * (
        b as int)) by (nonlinear_arith)
            requires
                0 <= a <= b,
                0 <= pow(a as int, (e - 1) as nat) <= pow(b as int, (e - 1) as nat),
        ;
    }
}

/// The index the draw lands on, scanning from candidate `i`: the first
/// index whose cumulative weight exceeds the reduced draw `r`, or the last
/// index if none does.
pub open spec fn pick_from(target: int, cands: Seq<i64>, stability: nat, r: nat, i: int) -> int
    decreases cands.len() - i,
{
    if i + 1 >= cands.len() {
        i
    } else if r < cum_weight(target, cands, stability, i) {
        i
    } else {
        pick_from(target, cands, stability, r, i + 1)
    }
}

/// The index a weighted draw picks: the raw draw is reduced modulo the total
/// weight, and the first candidate whose cumulative weight exceeds it wins.
pub open spec fn pick_index(target: int, cands: Seq<i64>, stability: nat, draw: u128) -> int {
    pick_from(
        target,
        cands,
        stability,
        (draw as nat) % total_weight(target, cands, stability),
        0,
    )
}

/// The picked index stays within the candidate range.
pub proof fn lemma_pick_from_range(target: int, cands: Seq<i64>, stability: nat, r: nat, i: int)
    requires
        0 <= i < cands.len(),
    ensures
        i <= pick_from(target, cands, stability, r, i) < cands.len(),
    decreases cands.len() - i,
{
    if i + 1 < cands.len() && r >= cum_weight(target, cands, stability, i) {
        lemma_pick_from_range(target, cands, stability, r, i + 1);
    }
}

/// With at least one candidate, the total weight is positive: either some
/// raw weight is nonzero, or the uniform fallback contributes one per
/// candidate.
pub proof fn lemma_total_weight_pos(target: int, cands: Seq<i64>, stability: nat)
    requires
        cands.len() > 0,
    ensures
        total_weight(target, cands, stability) >= 1,
{
    let w = raw_weights(target, cands, stability);
    if sum(w) == 0 {
        lemma_sum_ones(cands.len());
    }
}

/// LAW: the cumulative weight table is non-decreasing, and its final entry
/// equals the (positive) total weight — so the normalized cumulative
/// distribution is non-decreasing and ends exactly at one.
pub proof fn lemma_cumulative_distribution(target: int, cands: Seq<i64>, stability: nat)
    requires
        cands.len() > 0,
    ensures
        forall|i: int, j: int|
            0 <= i <= j < cands.len() ==> cum_weight(target, cands, stability, i) <= cum_weight(
                target,
                cands,
                stability,
                j,
            ),
        cum_weight(target, cands, stability, cands.len() - 1) == total_weight(
            target,
            cands,
            stability,
        ),
        total_weight(target, cands, stability) >= 1,
{
    let w = weights(target, cands, stability);
    assert(w.len() == cands.len());
    assert forall|i: int, j: int| 0 <= i <= j < cands.len() implies cum_weight(
        target,
        cands,
        stability,
        i,
    ) <= cum_weight(target, cands, stability, j) by {
        lemma_sum_take_mono(w, i + 1, j + 1);
    }
    lemma_sum_take_all(w);
    lemma_total_weight_pos(target, cands, stability);
}

/// LAW: when every candidate is equidistant from the target, every candidate
/// gets the same weight, so each cumulative step is equal (a uniform draw).
pub proof fn lemma_uniform_fallback(target: int, cands: Seq<i64>, stability: nat)
    requires
        cands.len() > 0,
        forall|i: int|
            0 <= i < cands.len() ==> #[trigger] dists(target, cands)[i] == dists(target, cands)[0],
    ensures
        forall|i: int|
            0 <= i < cands.len() ==> #[trigger] weights(target, cands, stability)[i] == weights(
                target,
                cands,
                stability,
            )[0],
        forall|i: int|
            0 <= i < cands.len() ==> #[trigger] cum_weight(target, cands, stability, i) == (i + 1)
                * weights(target, cands, stability)[0],
{
    let w = weights(target, cands, stability);
    assert forall|i: int| 0 <= i < cands.len() implies #[trigger] w[i] == w[0] by {}
    assert forall|i: int| 0 <= i < cands.len() implies #[trigger] cum_weight(
        target,
        cands,
        stability,
        i,
    ) == (i + 1) * w[0] by {
        lemma_uniform_cum(target, cands, stability, i);
    }
}

proof fn lemma_uniform_cum(target: int, cands: Seq<i64>, stability: nat, i: int)
    requires
        0 <= i < cands.len(),
        forall|j: int|
            0 <= j < cands.len() ==> #[trigger] weights(target, cands, stability)[j] == weights(
                target,
                cands,
                stability,
            )[0],
    ensures
        cum_weight(target, cands, stability, i) == (i + 1) * weights(target, cands, stability)[0],
    decreases i,
{
    let w = weights(target, cands, stability);
    lemma_sum_take_succ(w, i);
    assert(w[i] == w[0]);
    if i == 0 {
        assert(sum(w.take(0)) == 0) by {
            assert(w.take(0) =~= Seq::<nat>::empty());
        }
        assert(cum_weight(target, cands, stability, 0) == sum(w.take(0)) + w[0]);
    } else {
        lemma_uniform_cum(target, cands, stability, i - 1);
        assert(sum(w.take(i)) == i * w[0]);
        assert(cum_weight(target, cands, stability, i) == i * w[0] + w[0]);
        assert(i * w[0] + w[0] == (i + 1) * w[0]) by (nonlinear_arith);
    }
}

/// `pow(b, e)` written out for the small exponents the engine admits.
proof fn lemma_pow_small(b: int, e: nat)
    requires
        e <= 3,
    ensures
        e == 0 ==> pow(b, e) == 1,
        e == 1 ==> pow(b, e) == b,
        e == 2 ==> pow(b, e) == b * b,
        e == 3 ==> pow(b, e) == b * (b * b),
{
    vstd::arithmetic::power::lemma_pow0(b);
    lemma_pow1(b);
    lemma_pow_adds(b, 1nat, 1nat);
    lemma_pow_adds(b, 1nat, 2nat);
}

/// With ratings, pool size and stability within the engine limits, the
/// summed raw weights fit in 128 bits, so the exec weight computation is
/// exact.
pub proof fn lemma_weights_fit(target: int, cands: Seq<i64>, stability: nat)
    requires
        -0x400_0000 <= target <= 0x400_0000,
        forall|i: int| 0 <= i < cands.len() ==> -0x400_0000 <= #[trigger] cands[i] <= 0x400_0000,
        cands.len() <= 0x400,
        stability <= 3,
    ensures
        sum(raw_weights(target, cands, stability)) <= u128::MAX,
{
    let ds = dists(target, cands);
    let total = sum(ds);
    let w = raw_weights(target, cands, stability);
    assert forall|i: int| 0 <= i < ds.len() implies #[trigger] ds[i] <= 0x800_0000 by {}
    lemma_sum_bound(ds, 0x800_0000);
    let b: int = 0x20_0000_0000;  // 0x400 * 0x800_0000, bound on `total`
    assert(total <= b);
    let bb: int = if stability == 0 {
        1
    } else if stability == 1 {
        b
    } else if stability == 2 {
        b * b
    } else {
        b * (b * b)
    };
    assert forall|i: int| 0 <= i < w.len() implies #[trigger] w[i] <= bb by {
        lemma_sum_elem_le(ds, i);
        let base = (total - ds[i]) as int;
        lemma_pow_small(base, stability);
        lemma_pow_nonneg(base, stability);
        assert(0 <= base <= b);
        if stability == 2 {
            assert(base * base <= b * b) by (nonlinear_arith)
                requires
                    0 <= base <= b,
            ;
        }
        if stability == 3 {
            assert(base * (base * base) <= b * (b * b)) by (nonlinear_arith)
                requires
                    0 <= base <= b,
            ;
        }
    }
    lemma_sum_bound(w, bb as nat);
    assert(w.len() * bb <= 0x400 * bb) by (nonlinear_arith)
        requires
            0 <= w.len() <= 0x400,
            bb >= 0,
    ;
    assert(0x400 * bb <= u128::MAX);
}

/// The absolute distance between two ratings, as the engine computes it.
pub fn abs_dist(a: i64, b: i64) -> (d: u64)
    ensures
        d as nat == dist(a as int, b as int),
{
    let wide: i128 = a as i128 - b as i128;
    if wide >= 0 {
        wide as u64
    } else {
        (-wide) as u64
    }
}

/// `base` raised to the `e`-th power, in exact 128-bit arithmetic.
pub fn pow_u128(base: u128, e: u32) -> (r: u128)
    requires
        pow(base as int, e as nat) <= u128::MAX,
    ensures
        r as int == pow(base as int, e as nat),
{
    proof {
        vstd::arithmetic::power::lemma_pow0(base as int);
    }
    let mut acc: u128 = 1;
    let mut k: u32 = 0;
    while k < e
        invariant
            k <= e,
            acc as int == pow(base as int, k as nat),
            pow(base as int, e as nat) <= u128::MAX,
        decreases e - k,
    {
        proof {
            lemma_pow_adds(base as int, k as nat, 1nat);
            lemma_pow1(base as int);
            lemma_pow_nonneg(base as int, k as nat);
            assert(pow(base as int, (k + 1) as nat) == pow(base as int, k as nat) * (base as int));
            if base >= 1 {
                lemma_pow_increases(base as nat, (k + 1) as nat, e as nat);
                assert((base as nat) as int == base as int);
                assert(pow(base as int, (k + 1) as nat) <= pow(base as int, e as nat));
            } else {
                assert(acc as int * base as int == 0) by (nonlinear_arith)
                    requires
                        base == 0,
                ;
            }
            assert(acc as int * base as int <= u128::MAX);
        }
        acc = acc * base;
        k = k + 1;
    }
    acc
}

/// The cumulative (unnormalized) weight table for one weighted draw: entry
/// `i` holds the summed weights of candidates `0 ..= i`.  Dividing each entry
/// by the last one yields the cumulative probability distribution of the
/// weighted sampling rule; the last entry equals the total weight.
pub fn get_prob(target: i64, others: &Vec<i64>, stability: u32) -> (cum: Vec<u128>)
    requires
        sum(raw_weights(target as int, others@, stability as nat)) <= u128::MAX,
    ensures
        cum@.len() == others@.len(),
        forall|i: int|
            0 <= i < cum@.len() ==> #[trigger] cum@[i] as nat == cum_weight(
                target as int,
                others@,
                stability as nat,
                i,
            ),
{
    let ghost dseq = dists(target as int, others@);
    let ghost wseq = raw_weights(target as int, others@, stability as nat);
    let n = others.len();

    let mut ds: Vec<u64> = Vec::new();
    let mut total: u128 = 0;
    for i in 0..n
        invariant
            others@.len() == n,
            dseq == dists(target as int, others@),
            ds@.len() == i,
            forall|j: int| 0 <= j < i ==> #[trigger] ds@[j] as nat == dseq[j],
            total as nat == sum(dseq.take(i as int)),
            total <= (i as int) * (u64::MAX as int),
    {
        let d = abs_dist(target, others[i]);
        proof {
            lemma_sum_take_succ(dseq, i as int);
        }
        total = total + d as u128;
        ds.push(d);
    }
    proof {
        lemma_sum_take_all(dseq);
    }

    let mut w: Vec<u128> = Vec::new();
    let mut wsum: u128 = 0;
    for i in 0..n
        invariant
            others@.len() == n,
            ds@.len() == n,
            dseq == dists(target as int, others@),
            wseq == raw_weights(target as int, others@, stability as nat),
            forall|j: int| 0 <= j < n ==> #[trigger] ds@[j] as nat == dseq[j],
            total as nat == sum(dseq),
            sum(wseq) <= u128::MAX,
            w@.len() == i,
            forall|j: int| 0 <= j < i ==> #[trigger] w@[j] as nat == wseq[j],
            wsum as nat == sum(wseq.take(i as int)),
    {
        proof {
            lemma_sum_elem_le(dseq, i as int);
            lemma_sum_elem_le(wseq, i as int);
            lemma_sum_take_succ(wseq, i as int);
            lemma_sum_take_mono(wseq, i + 1, wseq.len() as int);
            lemma_sum_take_all(wseq);
            lemma_pow_nonneg((total - ds@[i as int]) as int, stability as nat);
        }
        let base = total - ds[i] as u128;
        let wi = pow_u128(base, stability);
        w.push(wi);
        wsum = wsum + wi;
    }
    proof {
        lemma_sum_take_all(wseq);
    }

    let ghost eff = weights(target as int, others@, stability as nat);
    let mut cum: Vec<u128> = Vec::new();
    if wsum == 0 {
        // every raw weight is zero: uniform fallback
        proof {
            assert(eff =~= Seq::new(others@.len(), |i: int| 1nat));
        }
        let mut i: usize = 0;
        while i < n
            invariant
                i <= n,
                n <= usize::MAX,
                eff == Seq::new(n as nat, |j: int| 1nat),
                others@.len() == n,
                eff == weights(target as int, others@, stability as nat),
                cum@.len() == i,
                forall|j: int| 0 <= j < i ==> #[trigger] cum@[j] as nat == j + 1,
            decreases n - i,
        {
            cum.push((i + 1) as u128);
            i = i + 1;
        }
        proof {
            assert forall|j: int| 0 <= j < cum@.len() implies #[trigger] cum@[j] as nat
                == cum_weight(target as int, others@, stability as nat, j) by {
                assert(eff.take(j + 1) =~= Seq::new((j + 1) as nat, |k: int| 1nat));
                lemma_sum_ones((j + 1) as nat);
            }
        }
    } else {
        proof {
            assert(eff == wseq);
        }
        let mut last: u128 = 0;
        let mut i: usize = 0;
        while i < n
            invariant
                i <= n,
                others@.len() == n,
                w@.len() == n,
                wseq == raw_weights(target as int, others@, stability as nat),
                eff == wseq,
                eff == weights(target as int, others@, stability as nat),
                forall|j: int| 0 <= j < n ==> #[trigger] w@[j] as nat == wseq[j],
                sum(wseq) <= u128::MAX,
                cum@.len() == i,
                last as nat == sum(wseq.take(i as int)),
                forall|j: int|
                    0 <= j < i ==> #[trigger] cum@[j] as nat == sum(wseq.take(j + 1)),
            decreases n - i,
        {
            proof {
                lemma_sum_take_succ(wseq, i as int);
                lemma_sum_take_mono(wseq, i + 1, wseq.len() as int);
                lemma_sum_take_all(wseq);
            }
            last = last + w[i];
            cum.push(last);
            i = i + 1;
        }
    }
    cum
}

/// One weighted draw: reduces the raw `draw` modulo the total weight and
/// returns the first candidate index whose cumulative weight exceeds it.
/// Candidates closer to the target therefore win with higher probability,
/// sharpened by `stability`; the result is exactly [`pick_index`].
pub fn weighted_pick(target: i64, others: &Vec<i64>, stability: u32, draw: u128) -> (idx: usize)
    requires
        others@.len() >= 1,
        sum(raw_weights(target as int, others@, stability as nat)) <= u128::MAX,
    ensures
        idx < others@.len(),
        idx as int == pick_index(target as int, others@, stability as nat, draw),
{
    let ghost t = target as int;
    let ghost s = stability as nat;
    let cum = get_prob(target, others, stability);
    let n = others.len();
    proof {
        lemma_cumulative_distribution(t, others@, s);
    }
    let total = cum[n - 1];
    let r = draw % total;
    let ghost rn = (draw as nat) % total_weight(t, others@, s);
    let mut i: usize = 0;
    while i < n - 1
        invariant
            i < n,
            n == others@.len(),
            n == cum@.len(),
            t == target as int,
            s == stability as nat,
            rn == (draw as nat) % total_weight(t, others@, s),
            forall|j: int| 0 <= j < n ==> #[trigger] cum@[j] as nat == cum_weight(t, others@, s, j),
            r as nat == rn,
            pick_from(t, others@, s, rn, 0) == pick_from(t, others@, s, rn, i as int),
        decreases n - i,
    {
        if r < cum[i] {
            proof {
                assert(pick_from(t, others@, s, rn, i as int) == i as int);
            }
            return i;
        }
        proof {
            assert(pick_from(t, others@, s, rn, i as int) == pick_from(t, others@, s, rn, i + 1));
        }
        i = i + 1;
    }
    proof {
        assert(pick_from(t, others@, s, rn, n - 1) == n - 1);
    }
    n - 1
}

} // verus!
