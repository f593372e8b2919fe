//! 95th-percentile aggregation over batches of nullable 64-bit integers.
//!
//! The crate offers one stateless primitive: given a batch of optional
//! `i64` values (a column slice handed over by a host query engine, nulls
//! included), it discards the nulls, sorts what remains — the working
//! sample — and selects the 95th percentile of that sample. An empty
//! working sample yields `None`; that is a normal outcome, not an error.
//!
//! Two selection policies are provided, chosen by [`Policy`]:
//!
//! * [`Policy::LinearInterpolation`] (the default): the zero-based rank is
//!   `0.95 * (n - 1)`; the result interpolates linearly between the two
//!   neighbouring order statistics and is truncated toward zero. Since
//!   `0.95 = 19/20`, the rank and the interpolation are computed here as
//!   exact integer arithmetic with denominator 20.
//! * [`Policy::NearestRankCeiling`]: the single order statistic at the
//!   zero-based index `ceil(0.95 * n) - 1`, the smallest index such that at
//!   least 95 % of the sample lies at or below it.
//!
//! Every function is total over all inputs, performs no I/O, and shares no
//! state between invocations: the result is a function of the input batch
//! (and the policy) alone.

use vstd::prelude::*;
use vstd::relations::{sorted_by, total_ordering};
use vstd::seq_lib::lemma_sorted_unique;
use vstd::seq_lib::group_to_multiset_ensures;
use vstd::multiset::Multiset;
use vstd::arithmetic::div_mod::{
    lemma_div_is_ordered, lemma_div_multiples_vanish, lemma_div_pos_is_pos,
    lemma_fundamental_div_mod, lemma_fundamental_div_mod_converse, lemma_mod_bound,
};

verus! {

/// How the 95th percentile is selected from the sorted working sample.
#[derive(Clone, Copy, Debug, PartialEq, Eq, Structural)]
pub enum Policy {
    /// Linear interpolation at the zero-based rank `0.95 * (n - 1)`, the
    /// conventional statistical definition; the interpolated value is
    /// truncated toward zero.
    LinearInterpolation,
    /// The order statistic at the zero-based index `ceil(0.95 * n) - 1`.
    NearestRankCeiling,
}

impl Default for Policy {
    /// Linear interpolation is the canonical policy.
    fn default() -> (r: Self)
        ensures
            r == Policy::LinearInterpolation,
    {
        Policy::LinearInterpolation
    }
}

/// The ascending order on sample values.
pub open spec fn value_leq() -> spec_fn(i64, i64) -> bool {
    |a: i64, b: i64| a <= b
}

/// `value_leq()` is a total order, as the sorting lemmas of `vstd` require.
pub proof fn lemma_value_leq_total_ordering()
    ensures
        total_ordering(value_leq()),
{
    let leq = value_leq();
    assert forall|x: i64, y: i64| !(#[trigger] leq(x, y)) implies leq(y, x) by {}
}

/// The working sample: the present values of the batch, nulls discarded.
pub open spec fn working_sample(x: Seq<Option<i64>>) -> Seq<i64>
    decreases x.len(),
{
    if x.len() == 0 {
        Seq::empty()
    } else {
        match x.last() {
            Some(v) => working_sample(x.drop_last()).push(v),
            None => working_sample(x.drop_last()),
        }
    }
}

/// The working sample in ascending order.
pub open spec fn sorted_sample(x: Seq<Option<i64>>) -> Seq<i64> {
    working_sample(x).sort_by(value_leq())
}

/// The quotient `a / d` truncated toward zero (`d > 0`), as the cast of a
/// non-integral quotient to an integer type truncates.
pub open spec fn div_trunc(a: int, d: int) -> int
    recommends
        d > 0,
{
    if a >= 0 {
        a / d
    } else {
        -((-a) / d)
    }
}

/// The 95th percentile of a sorted, non-empty sample under linear
/// interpolation: with `q = 19 * (n - 1)`, the zero-based rank is `q / 20`;
/// on an exact rank the order statistic itself, otherwise the linear
/// interpolation between the two neighbouring order statistics, truncated
/// toward zero.
pub open spec fn linear_p95(s: Seq<i64>) -> int
    recommends
        s.len() >= 1,
{
    let q = 19 * (s.len() - 1);
    let lo = q / 20;
    let rem = q % 20;
    if rem == 0 {
        s[lo] as int
    } else {
        div_trunc((20 - rem) * s[lo] + rem * s[lo + 1], 20)
    }
}

/// The 95th percentile of a sorted, non-empty sample under the
/// nearest-rank-ceiling policy: the order statistic at the zero-based index
/// `ceil(0.95 * n) - 1`, which equals `(19 * n - 1) / 20`.
pub open spec fn nearest_rank_p95(s: Seq<i64>) -> int
    recommends
        s.len() >= 1,
{
    s[(19 * s.len() - 1) / 20] as int
}

/// The 95th percentile of a sorted, non-empty sample under the given policy.
pub open spec fn p95_of_sorted(s: Seq<i64>, policy: Policy) -> int
    recommends
        s.len() >= 1,
{
    match policy {
        Policy::LinearInterpolation => linear_p95(s),
        Policy::NearestRankCeiling => nearest_rank_p95(s),
    }
}

/// The full aggregation: `None` exactly when the batch holds no present
/// value, otherwise the 95th percentile of the sorted working sample.
pub open spec fn p95_spec(x: Seq<Option<i64>>, policy: Policy) -> Option<int> {
    if working_sample(x).len() == 0 {
        None
    } else {
        Some(p95_of_sorted(sorted_sample(x), policy))
    }
}

/// The sample is in ascending order.
pub open spec fn ascending(s: Seq<i64>) -> bool {
    forall|p: int, q: int| 0 <= p <= q < s.len() ==> #[trigger] s[p] <= #[trigger] s[q]
}

/// `ascending` coincides with `vstd`'s `sorted_by` under `value_leq()`.
pub proof fn lemma_ascending_sorted_by(s: Seq<i64>)
    ensures
        ascending(s) <==> sorted_by(s, value_leq()),
{
    let leq = value_leq();
    if ascending(s) {
        assert forall|p: int, q: int| 0 <= p < q < s.len() implies #[trigger] leq(s[p], s[q]) by {
            assert(s[p] <= s[q]);
        }
    }
    if sorted_by(s, leq) {
        assert forall|p: int, q: int| 0 <= p <= q < s.len() implies #[trigger] s[p]
            <= #[trigger] s[q] by {
            if p < q {
                assert(leq(s[p], s[q]));
            }
        }
    }
}

/// Truncating division by a positive divisor is monotone in the dividend.
pub proof fn lemma_div_trunc_ordered(a: int, b: int, d: int)
    requires
        a <= b,
        0 < d,
    ensures
        div_trunc(a, d) <= div_trunc(b, d),
{
    if a >= 0 {
        lemma_div_is_ordered(a, b, d);
    } else if b < 0 {
        lemma_div_is_ordered(-b, -a, d);
    } else {
        lemma_div_pos_is_pos(-a, d);
        lemma_div_pos_is_pos(b, d);
    }
}

/// Truncating division is exact on multiples of the divisor.
pub proof fn lemma_div_trunc_multiple(a: int, d: int)
    requires
        0 < d,
    ensures
        div_trunc(d * a, d) == a,
{
    if a >= 0 {
        lemma_div_multiples_vanish(a, d);
    } else {
        assert(-(d * a) == d * (-a)) by (nonlinear_arith);
        lemma_div_multiples_vanish(-a, d);
    }
}

/// A dividend between two multiples of the divisor has its truncated
/// quotient between the two factors.
pub proof fn lemma_div_trunc_between(lo: int, hi: int, num: int, d: int)
    requires
        0 < d,
        d * lo <= num,
        num <= d * hi,
    ensures
        lo <= div_trunc(num, d) <= hi,
{
    lemma_div_trunc_ordered(d * lo, num, d);
    lemma_div_trunc_ordered(num, d * hi, d);
    lemma_div_trunc_multiple(lo, d);
    lemma_div_trunc_multiple(hi, d);
}

/// Bounds on the rank arithmetic of the linear-interpolation policy: for a
/// sample of length `n`, the lower index stays below `n`, and whenever the
/// rank is fractional the upper index `lo + 1` does as well. A singleton
/// sample always has the exact rank 0.
proof fn lemma_linear_indices(n: int)
    requires
        1 <= n,
    ensures
        0 <= 19 * (n - 1) % 20 < 20,
        0 <= 19 * (n - 1) / 20 <= n - 1,
        19 * (n - 1) % 20 != 0 ==> 19 * (n - 1) / 20 + 1 <= n - 1,
        n == 1 ==> 19 * (n - 1) % 20 == 0 && 19 * (n - 1) / 20 == 0,
{
    let q = 19 * (n - 1);
    lemma_fundamental_div_mod(q, 20);
    lemma_mod_bound(q, 20);
    lemma_div_pos_is_pos(q, 20);
    if n == 1 {
        lemma_fundamental_div_mod_converse(0, 20, 0, 0);
    } else if n <= 21 {
        // 19 * (n - 1) == (n - 2) * 20 + (21 - n), with 0 <= 21 - n < 20
        lemma_fundamental_div_mod_converse(q, 20, n - 2, 21 - n);
    }
}

/// The index read by the nearest-rank-ceiling policy is always valid for a
/// non-empty sample.
proof fn lemma_nearest_index(n: int)
    requires
        1 <= n,
    ensures
        0 <= (19 * n - 1) / 20 < n,
{
    let q = 19 * n - 1;
    lemma_fundamental_div_mod(q, 20);
    lemma_mod_bound(q, 20);
    lemma_div_pos_is_pos(q, 20);
}

/// Extracts the working sample: the present values of the batch, in order
/// of appearance.
fn extract_sample(values: &Vec<Option<i64>>) -> (sample: Vec<i64>)
    ensures
        sample@ == working_sample(values@),
{
    let mut sample: Vec<i64> = Vec::new();
    let mut i: usize = 0;
    while i < values.len()
        invariant
            i <= values@.len(),
            sample@ == working_sample(values@.take(i as int)),
        decreases values@.len() - i,
    {
        match values[i] {
            Some(v) => sample.push(v),
            None => {},
        }
        i = i + 1;
        proof {
            let t = values@.take(i as int);
            assert(t.drop_last() =~= values@.take(i - 1));
            assert(t.last() == values@[i - 1]);
        }
    }
    proof {
        assert(values@.take(values@.len() as int) =~= values@);
    }
    sample
}

/// Sorts the sample in ascending order by straight insertion, keeping the
/// multiset of values intact.
fn sort_sample(v: &mut Vec<i64>)
    ensures
        ascending(final(v)@),
        final(v)@.to_multiset() == old(v)@.to_multiset(),
        final(v)@.len() == old(v)@.len(),
{
    if v.len() < 2 {
        return ;
    }
    let ghost orig = v@;
    let mut i: usize = 1;
    while i < v.len()
        invariant
            1 <= i <= v@.len(),
            v@.len() == orig.len(),
            v@.to_multiset() == orig.to_multiset(),
            ascending(v@.take(i as int)),
        decreases v@.len() - i,
    {
        let x = v[i];
        let mut j: usize = i;
        while j > 0 && v[j - 1] > x
            invariant
                j <= i < v@.len(),
                x == v@[i as int],
                ascending(v@.take(i as int)),
                forall|k: int| j <= k < i ==> #[trigger] v@[k] > x,
            decreases j,
        {
            j = j - 1;
        }
        let ghost before = v@;
        let y = v.remove(i);
        v.insert(j, y);
        proof {
            broadcast use group_to_multiset_ensures;

            let after = v@;
            assert(after =~= before.remove(i as int).insert(j as int, x));
            before.remove_ensures(i as int);
            before.remove(i as int).insert_ensures(j as int, x);
            assert(after.to_multiset() == orig.to_multiset()) by {
                assert(0 <= (i as int) && (i as int) < before.len());
                assert(before[i as int] == x);
                assert(before.remove(i as int).to_multiset() == before.to_multiset().remove(x));
                assert(0 <= j as int <= before.remove(i as int).len());
                assert(after == before.remove(i as int).insert(j as int, x));
                assert(after.to_multiset() == before.remove(i as int).to_multiset().insert(x));
                assert(before.to_multiset().contains(x));
                assert(after.to_multiset() =~= before.to_multiset());
            }
            assert forall|p: int, q: int| 0 <= p <= q < i + 1 implies #[trigger] after[p]
                <= #[trigger] after[q] by {
                let t = before.take(i as int);
                if p < j {
                    assert(before[p] == t[p]);
                }
                if q < j {
                    assert(before[q] == t[q]);
                }
                if j < p {
                    assert(after[p] == before[p - 1]);
                }
                if j < q {
                    assert(after[q] == before[q - 1]);
                }
                if j > 0 {
                    assert(before[j - 1] == t[j - 1]);
                    assert(before[j - 1] <= x);
                }
                assert(forall|a: int, b: int|
                    0 <= a <= b < i ==> #[trigger] t[a] <= #[trigger] t[b]);
                assert(forall|k: int| 0 <= k < i ==> t[k] == before[k]);
            }
            assert(ascending(after.take(i + 1))) by {
                assert(forall|k: int| 0 <= k < i + 1 ==> after.take(i + 1)[k] == after[k]);
            }
        }
        i = i + 1;
    }
    proof {
        assert(v@.take(v@.len() as int) =~= v@);
    }
}

/// Divides `num` by `d`, truncating the quotient toward zero.
fn div_trunc_by(num: i128, d: u64) -> (r: i128)
    requires
        0 < d,
        i128::MIN < num,
    ensures
        r == div_trunc(num as int, d as int),
{
    if num >= 0 {
        let q = (num as u128) / (d as u128);
        proof {
            lemma_div_pos_is_pos(num as int, d as int);
            vstd::arithmetic::div_mod::lemma_div_is_ordered_by_denominator(num as int, 1, d as int);
            vstd::arithmetic::div_mod::lemma_div_basics(num as int);
        }
        q as i128
    } else {
        let mag = (-num) as u128;
        let q = mag / (d as u128);
        proof {
            lemma_div_pos_is_pos(mag as int, d as int);
            vstd::arithmetic::div_mod::lemma_div_is_ordered_by_denominator(mag as int, 1, d as int);
            vstd::arithmetic::div_mod::lemma_div_basics(mag as int);
        }
        -(q as i128)
    }
}

/// Computes the 95th percentile of the batch under the given policy:
/// `None` exactly when every entry is null, otherwise the percentile of the
/// sorted working sample, as [`p95_spec`] defines it.
pub fn p95_with_policy(values: Vec<Option<i64>>, policy: Policy) -> (result: Option<i64>)
    ensures
        result is Some <==> working_sample(values@).len() > 0,
        match result {
            Some(v) => p95_spec(values@, policy) == Some(v as int),
            None => p95_spec(values@, policy) is None,
        },
{
    let mut sample = extract_sample(&values);
    if sample.len() == 0 {
        return None;
    }
    sort_sample(&mut sample);
    proof {
        broadcast use group_to_multiset_ensures;

        lemma_value_leq_total_ordering();
        lemma_ascending_sorted_by(sample@);
        working_sample(values@).lemma_sort_by_ensures(value_leq());
        lemma_sorted_unique(sample@, sorted_sample(values@), value_leq());
        assert(sample@ == sorted_sample(values@));
    }
    let n = sample.len();
    match policy {
        Policy::LinearInterpolation => {
            proof {
                lemma_linear_indices(n as int);
            }
            let q: u128 = 19u128 * ((n - 1) as u128);
            let lo = (q / 20u128) as usize;
            let rem: u128 = q % 20u128;
            proof {
                assert(q == 19 * (sample@.len() - 1));
                assert(lo == 19 * (sample@.len() - 1) / 20);
                assert(rem == 19 * (sample@.len() - 1) % 20);
            }
            if rem == 0 {
                proof {
                    assert(linear_p95(sample@) == sample@[lo as int] as int);
                }
                Some(sample[lo])
            } else {
                let a = sample[lo];
                let b = sample[lo + 1];
                let c1: i128 = (20u128 - rem) as i128;
                let c2: i128 = rem as i128;
                proof {
                    assert(a <= b);
                    assert(1 <= c1 <= 19 && 1 <= c2 <= 19 && c1 + c2 == 20);
                    assert({
                        let p1 = (a as int) * (c1 as int);
                        let p2 = (b as int) * (c2 as int);
                        20 * (a as int) <= p1 + p2 <= 20 * (b as int) && i128::MIN < p1 < i128::MAX
                            && i128::MIN < p2 < i128::MAX
                    }) by (nonlinear_arith)
                        requires
                            a <= b,
                            i64::MIN <= a <= i64::MAX,
                            i64::MIN <= b <= i64::MAX,
                            1 <= c1 <= 19,
                            1 <= c2 <= 19,
                            c1 + c2 == 20,
                    ;
                }
                let num: i128 = (a as i128) * c1 + (b as i128) * c2;
                let t = div_trunc_by(num, 20);
                proof {
                    lemma_div_trunc_between(a as int, b as int, num as int, 20);
                    assert(num == (20 - (rem as int)) * (a as int) + (rem as int) * (b as int));
                    assert(linear_p95(sample@) == div_trunc(num as int, 20));
                    assert(a <= t <= b);
                    assert((t as i64) as int == div_trunc(num as int, 20));
                }
                Some(t as i64)
            }
        },
        Policy::NearestRankCeiling => {
            proof {
                lemma_nearest_index(n as int);
            }
            let idx = ((19u128 * (n as u128) - 1) / 20u128) as usize;
            proof {
                assert(idx == (19 * sample@.len() - 1) / 20);
                assert(nearest_rank_p95(sample@) == sample@[idx as int] as int);
            }
            Some(sample[idx])
        },
    }
}

/// Computes the 95th percentile of the batch under the canonical
/// linear-interpolation policy.
pub fn p95(values: Vec<Option<i64>>) -> (result: Option<i64>)
    ensures
        result is Some <==> working_sample(values@).len() > 0,
        match result {
            Some(v) => p95_spec(values@, Policy::LinearInterpolation) == Some(v as int),
            None => p95_spec(values@, Policy::LinearInterpolation) is None,
        },
{
    p95_with_policy(values, Policy::LinearInterpolation)
}

/// The result of a non-empty sample lies between the sample's minimum and
/// maximum, under either policy: the percentile of an ascending sample `s`
/// is bounded by `s[0]` and `s[s.len() - 1]`.
pub proof fn lemma_p95_in_range(s: Seq<i64>, policy: Policy)
    requires
        ascending(s),
        s.len() >= 1,
    ensures
        s[0] <= p95_of_sorted(s, policy),
        p95_of_sorted(s, policy) <= s[s.len() - 1],
{
    let n = s.len() as int;
    match policy {
        Policy::LinearInterpolation => {
            lemma_linear_indices(n);
            let q = 19 * (n - 1);
            let lo = q / 20;
            let rem = q % 20;
            if rem == 0 {
                assert(s[0] <= s[lo] && s[lo] <= s[n - 1]);
            } else {
                let a = s[lo];
                let b = s[lo + 1];
                assert(a <= b);
                let num = (20 - rem) * (a as int) + rem * (b as int);
                assert(20 * (a as int) <= num <= 20 * (b as int)) by (nonlinear_arith)
                    requires
                        a <= b,
                        0 < rem < 20,
                        num == (20 - rem) * (a as int) + rem * (b as int),
                ;
                lemma_div_trunc_between(a as int, b as int, num, 20);
                assert(s[0] <= a && b <= s[n - 1]);
            }
        },
        Policy::NearestRankCeiling => {
            lemma_nearest_index(n);
            let idx = (19 * n - 1) / 20;
            assert(s[0] <= s[idx] && s[idx] <= s[n - 1]);
        },
    }
}

/// The sorted sample is the working sample in ascending order: it holds the
/// same values, the same number of times.
pub proof fn lemma_sorted_sample_properties(x: Seq<Option<i64>>)
    ensures
        ascending(sorted_sample(x)),
        sorted_sample(x).to_multiset() == working_sample(x).to_multiset(),
        sorted_sample(x).len() == working_sample(x).len(),
{
    broadcast use group_to_multiset_ensures;

    lemma_value_leq_total_ordering();
    working_sample(x).lemma_sort_by_ensures(value_leq());
    lemma_ascending_sorted_by(sorted_sample(x));
    assert(sorted_sample(x).len() == sorted_sample(x).to_multiset().len());
    assert(working_sample(x).len() == working_sample(x).to_multiset().len());
}

/// The aggregation of a batch with a non-empty working sample is present
/// and lies between the sample's minimum and maximum.
pub proof fn lemma_p95_in_sample_range(x: Seq<Option<i64>>, policy: Policy)
    requires
        working_sample(x).len() > 0,
    ensures
        p95_spec(x, policy) is Some,
        sorted_sample(x)[0] <= p95_spec(x, policy)->Some_0,
        p95_spec(x, policy)->Some_0 <= sorted_sample(x)[sorted_sample(x).len() - 1],
{
    lemma_sorted_sample_properties(x);
    lemma_p95_in_range(sorted_sample(x), policy);
}

/// Both policies agree on a singleton working sample: the percentile of a
/// batch whose only present value is `v` is `v` itself.
pub proof fn lemma_p95_singleton(x: Seq<Option<i64>>, v: i64, policy: Policy)
    requires
        working_sample(x) == seq![v],
    ensures
        p95_spec(x, policy) == Some(v as int),
{
    broadcast use group_to_multiset_ensures;

    lemma_value_leq_total_ordering();
    working_sample(x).lemma_sort_by_ensures(value_leq());
    lemma_sorted_unique(sorted_sample(x), seq![v], value_leq());
    assert(sorted_sample(x) =~= seq![v]);
    let s = seq![v];
    lemma_linear_indices(1);
    lemma_fundamental_div_mod_converse(18, 20, 0, 18);
    assert(p95_of_sorted(s, policy) == v as int);
}

/// The percentile is monotone in the sample values: raising any values of
/// an ascending sample pointwise, keeping the length, never lowers the
/// result, under either policy.
pub proof fn lemma_p95_pointwise_monotone(s: Seq<i64>, t: Seq<i64>, policy: Policy)
    requires
        s.len() == t.len(),
        s.len() >= 1,
        forall|k: int| 0 <= k < s.len() ==> #[trigger] s[k] <= #[trigger] t[k],
    ensures
        p95_of_sorted(s, policy) <= p95_of_sorted(t, policy),
{
    let n = s.len() as int;
    match policy {
        Policy::LinearInterpolation => {
            lemma_linear_indices(n);
            let q = 19 * (n - 1);
            let lo = q / 20;
            let rem = q % 20;
            if rem == 0 {
                assert(s[lo] <= t[lo]);
            } else {
                let nums = (20 - rem) * (s[lo] as int) + rem * (s[lo + 1] as int);
                let numt = (20 - rem) * (t[lo] as int) + rem * (t[lo + 1] as int);
                assert(nums <= numt) by (nonlinear_arith)
                    requires
                        s[lo] <= t[lo],
                        s[lo + 1] <= t[lo + 1],
                        0 < rem < 20,
                        nums == (20 - rem) * (s[lo] as int) + rem * (s[lo + 1] as int),
                        numt == (20 - rem) * (t[lo] as int) + rem * (t[lo + 1] as int),
                ;
                lemma_div_trunc_ordered(nums, numt, 20);
            }
        },
        Policy::NearestRankCeiling => {
            lemma_nearest_index(n);
            assert(s[(19 * n - 1) / 20] <= t[(19 * n - 1) / 20]);
        },
    }
}

/// The order of the batch is irrelevant: two batches whose working samples
/// hold the same values (as multisets) have the same percentile under
/// either policy.
pub proof fn lemma_p95_multiset_determined(x: Seq<Option<i64>>, y: Seq<Option<i64>>, policy: Policy)
    requires
        working_sample(x).to_multiset() == working_sample(y).to_multiset(),
    ensures
        p95_spec(x, policy) == p95_spec(y, policy),
{
    broadcast use group_to_multiset_ensures;

    lemma_value_leq_total_ordering();
    working_sample(x).lemma_sort_by_ensures(value_leq());
    working_sample(y).lemma_sort_by_ensures(value_leq());
    lemma_sorted_unique(sorted_sample(x), sorted_sample(y), value_leq());
    assert(sorted_sample(x) == sorted_sample(y));
    assert(working_sample(x).len() == working_sample(x).to_multiset().len());
    assert(working_sample(y).len() == working_sample(y).to_multiset().len());
}

/// Replacing the present value at position `k` of the batch swaps that one
/// value for the new one in the working sample's multiset.
proof fn lemma_working_sample_update(x: Seq<Option<i64>>, k: int, b: i64)
    requires
        0 <= k < x.len(),
        x[k] is Some,
    ensures
        working_sample(x).to_multiset().contains(x[k]->Some_0),
        working_sample(x.update(k, Some(b))).to_multiset() == working_sample(
            x,
        ).to_multiset().remove(x[k]->Some_0).insert(b),
    decreases x.len(),
{
    broadcast use group_to_multiset_ensures;
    broadcast use vstd::multiset::group_multiset_axioms;

    let a = x[k]->Some_0;
    let y = x.update(k, Some(b));
    if k == x.len() - 1 {
        let m = working_sample(x.drop_last()).to_multiset();
        assert(y.drop_last() =~= x.drop_last());
        assert(x.last() == Some(a) && y.last() == Some(b));
        assert(working_sample(x) == working_sample(x.drop_last()).push(a));
        assert(working_sample(y) == working_sample(y.drop_last()).push(b));
        assert(working_sample(x).to_multiset() == m.insert(a));
        assert(working_sample(y).to_multiset() == m.insert(b));
        assert(m.insert(a).remove(a).insert(b) =~= m.insert(b));
    } else {
        assert(x.drop_last()[k] == x[k]);
        lemma_working_sample_update(x.drop_last(), k, b);
        assert(y.drop_last() =~= x.drop_last().update(k, Some(b)));
        assert(y.last() == x.last());
        let mx = working_sample(x.drop_last()).to_multiset();
        let my = working_sample(y.drop_last()).to_multiset();
        match x.last() {
            Some(v) => {
                assert(working_sample(x) == working_sample(x.drop_last()).push(v));
                assert(working_sample(y) == working_sample(y.drop_last()).push(v));
                assert(working_sample(x).to_multiset() == mx.insert(v));
                assert(working_sample(y).to_multiset() == my.insert(v));
                assert(mx.insert(v).remove(a).insert(b) =~= mx.remove(a).insert(b).insert(v));
            },
            None => {},
        }
    }
}

/// The last slot at which a value can be inserted into an ascending sample
/// while keeping it ascending: the number of values at most that value.
spec fn insert_pos(s: Seq<i64>, b: i64) -> int
    decreases s.len(),
{
    if s.len() == 0 {
        0
    } else if s.last() <= b {
        s.len() as int
    } else {
        insert_pos(s.drop_last(), b)
    }
}

/// In an ascending sample, everything before `insert_pos` is at most the
/// inserted value and everything at or after it is strictly greater.
proof fn lemma_insert_pos(s: Seq<i64>, b: i64)
    requires
        ascending(s),
    ensures
        0 <= insert_pos(s, b) <= s.len(),
        forall|i: int| 0 <= i < insert_pos(s, b) ==> #[trigger] s[i] <= b,
        forall|i: int| insert_pos(s, b) <= i < s.len() ==> b < #[trigger] s[i],
    decreases s.len(),
{
    if s.len() == 0 {
    } else if s.last() <= b {
        assert forall|i: int| 0 <= i < s.len() implies #[trigger] s[i] <= b by {
            assert(s[i] <= s[s.len() - 1]);
        }
    } else {
        let d = s.drop_last();
        assert(ascending(d)) by {
            assert(forall|i: int| 0 <= i < d.len() ==> #[trigger] d[i] == s[i]);
        }
        lemma_insert_pos(d, b);
        let q = insert_pos(s, b);
        assert forall|i: int| 0 <= i < q implies #[trigger] s[i] <= b by {
            assert(d[i] <= b);
        }
        assert forall|i: int| q <= i < s.len() implies b < #[trigger] s[i] by {
            if i < d.len() {
                assert(b < d[i]);
            } else {
                assert(s[i] == s.last());
            }
        }
    }
}

/// Replacing one occurrence of `a` in an ascending sample by `b >= a` and
/// re-sorting dominates the original sample pointwise.
#[verifier::rlimit(50)]
proof fn lemma_sorted_replace_dominates(s: Seq<i64>, t: Seq<i64>, a: i64, b: i64)
    requires
        ascending(s),
        ascending(t),
        a <= b,
        s.to_multiset().contains(a),
        t.to_multiset() == s.to_multiset().remove(a).insert(b),
    ensures
        t.len() == s.len(),
        forall|k: int| 0 <= k < s.len() ==> #[trigger] s[k] <= #[trigger] t[k],
{
    vstd::seq_lib::to_multiset_contains(s, a);
    assert(s.contains(a));
    let p = choose|p: int| 0 <= p < s.len() && s[p] == a;
    let s1 = s.remove(p);
    s.remove_ensures(p);
    assert(ascending(s1)) by {
        assert forall|i: int, j: int| 0 <= i <= j < s1.len() implies #[trigger] s1[i]
            <= #[trigger] s1[j] by {
            if j < p {
                assert(s1[i] == s[i] && s1[j] == s[j]);
            } else if i < p {
                assert(s1[i] == s[i] && s1[j] == s[j + 1]);
            } else {
                assert(s1[i] == s[i + 1] && s1[j] == s[j + 1]);
            }
        }
    }
    let q = insert_pos(s1, b);
    lemma_insert_pos(s1, b);
    let t0 = s1.insert(q, b);
    s1.insert_ensures(q, b);
    assert(ascending(t0)) by {
        assert forall|i: int, j: int| 0 <= i <= j < t0.len() implies #[trigger] t0[i]
            <= #[trigger] t0[j] by {
            if j < q {
                assert(t0[i] == s1[i] && t0[j] == s1[j]);
            } else if j == q {
                if i < q {
                    assert(t0[i] == s1[i] && s1[i] <= b);
                }
            } else if i < q {
                assert(t0[i] == s1[i] && t0[j] == s1[j - 1]);
                assert(s1[i] <= b && b < s1[j - 1]);
            } else if i == q {
                assert(t0[j] == s1[j - 1] && b < s1[j - 1]);
            } else {
                assert(t0[i] == s1[i - 1] && t0[j] == s1[j - 1]);
            }
        }
    }
    vstd::seq_lib::to_multiset_remove(s, p);
    assert(s1.to_multiset() == s.to_multiset().remove(a));
    vstd::seq_lib::to_multiset_insert(s1, q, b);
    assert(t0.to_multiset() == s1.to_multiset().insert(b));
    lemma_value_leq_total_ordering();
    lemma_ascending_sorted_by(t);
    lemma_ascending_sorted_by(t0);
    lemma_sorted_unique(t, t0, value_leq());
    assert(t =~= t0);
    assert(p <= q) by {
        if q < p {
            assert(s1[q] == s[q]);
            assert(s[q] <= s[p]);
            assert(b < s1[q]);
        }
    }
    assert forall|k: int| 0 <= k < s.len() implies #[trigger] s[k] <= #[trigger] t[k] by {
        if k < p {
            assert(t0[k] == s1[k] && s1[k] == s[k]);
        } else if k < q {
            assert(t0[k] == s1[k] && s1[k] == s[k + 1]);
            assert(s[k] <= s[k + 1]);
        } else if k == q {
            assert(t0[k] == b);
            if q == p {
                assert(s[p] == a);
            } else {
                assert(s1[q - 1] == s[q]);
                assert(s1[q - 1] <= b);
            }
        } else {
            assert(t0[k] == s1[k - 1] && s1[k - 1] == s[k]);
        }
    }
}

/// Replacing any present value of the batch by a larger one, holding all
/// else fixed, never lowers the percentile, under either policy.
pub proof fn lemma_p95_replace_monotone(x: Seq<Option<i64>>, k: int, b: i64, policy: Policy)
    requires
        0 <= k < x.len(),
        x[k] is Some,
        x[k]->Some_0 <= b,
    ensures
        p95_spec(x, policy) is Some,
        p95_spec(x.update(k, Some(b)), policy) is Some,
        p95_spec(x, policy)->Some_0 <= p95_spec(x.update(k, Some(b)), policy)->Some_0,
{
    broadcast use group_to_multiset_ensures;
    broadcast use vstd::multiset::group_multiset_axioms;

    let a = x[k]->Some_0;
    let y = x.update(k, Some(b));
    lemma_working_sample_update(x, k, b);
    lemma_value_leq_total_ordering();
    working_sample(x).lemma_sort_by_ensures(value_leq());
    working_sample(y).lemma_sort_by_ensures(value_leq());
    let s = sorted_sample(x);
    let t = sorted_sample(y);
    lemma_ascending_sorted_by(s);
    lemma_ascending_sorted_by(t);
    assert(working_sample(x).len() > 0) by {
        if working_sample(x).len() == 0 {
            assert(working_sample(x) =~= Seq::<i64>::empty());
            assert(working_sample(x).to_multiset() =~= Multiset::<i64>::empty());
        }
    }
    assert(s.to_multiset().contains(a));
    assert(t.to_multiset() == s.to_multiset().remove(a).insert(b));
    lemma_sorted_replace_dominates(s, t, a, b);
    assert(s.len() == s.to_multiset().len());
    assert(working_sample(x).len() == working_sample(x).to_multiset().len());
    assert(t.len() == t.to_multiset().len());
    assert(working_sample(y).len() == working_sample(y).to_multiset().len());
    lemma_p95_pointwise_monotone(s, t, policy);
}

} // verus!
