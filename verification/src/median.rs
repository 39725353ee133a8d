//! The median of the submitted prices, and what it guarantees.
use vstd::prelude::*;
use vstd::multiset::*;
use vstd::relations::{sorted_by, total_ordering};
use vstd::seq_lib::*;

use soroban_sdk::{Env, Vec as HostVec};

use crate::host::{holds_only_i128, host_prices, insert_price, new_prices, price_at, prices_len};

verus! {

broadcast use {group_to_multiset_ensures, group_multiset_axioms};

/// Ascending order on prices.
pub open spec fn ascending() -> spec_fn(i128, i128) -> bool {
    |a: i128, b: i128| a <= b
}

/// The prices in ascending order.
pub open spec fn sorted_prices(s: Seq<i128>) -> Seq<i128> {
    s.sort_by(ascending())
}

/// Rust's signed division by two: it rounds toward zero.
pub open spec fn halve(x: int) -> int {
    if x >= 0 {
        x / 2
    } else {
        -((-x) / 2)
    }
}

/// The median of a non-empty list of prices: the middle price once sorted, or,
/// for an even count, the mean of the two middle prices rounded toward zero.
pub open spec fn median_of(s: Seq<i128>) -> int {
    let t = sorted_prices(s);
    let n = s.len() as int;
    if n % 2 == 1 {
        t[n / 2] as int
    } else {
        halve(t[n / 2 - 1] + t[n / 2])
    }
}

/// Whether computing the median stays within `i128`: for an even count the two
/// middle prices are added before they are halved, and that sum must fit.
pub open spec fn median_fits(s: Seq<i128>) -> bool {
    let t = sorted_prices(s);
    let n = s.len() as int;
    n % 2 == 0 && n > 0 ==> i128::MIN <= t[n / 2 - 1] + t[n / 2] <= i128::MAX
}

/// Whether a price lies within `[lo, hi]`.
pub open spec fn in_band(lo: int, hi: int) -> spec_fn(i128) -> bool {
    |x: i128| lo <= x && x <= hi
}

/// How many of the prices lie within `[lo, hi]`.
pub open spec fn count_within(s: Seq<i128>, lo: int, hi: int) -> nat {
    s.to_multiset().filter(in_band(lo, hi)).len()
}

proof fn lemma_ascending_total()
    ensures
        total_ordering(ascending()),
{
}

proof fn lemma_sorted_prices(s: Seq<i128>)
    ensures
        sorted_prices(s).to_multiset() == s.to_multiset(),
        sorted_by(sorted_prices(s), ascending()),
        sorted_prices(s).len() == s.len(),
{
    s.lemma_sort_by_ensures(ascending());
    assert(sorted_prices(s).to_multiset().len() == s.to_multiset().len());
}

/// An ascending rearrangement of the prices is the sorted list.
proof fn lemma_sorted_prices_unique(s: Seq<i128>, t: Seq<i128>)
    requires
        sorted_by(t, ascending()),
        t.to_multiset() == s.to_multiset(),
    ensures
        t == sorted_prices(s),
{
    lemma_sorted_prices(s);
    lemma_ascending_total();
    lemma_sorted_unique(t, sorted_prices(s), ascending());
}

proof fn lemma_sorted_index(t: Seq<i128>, i: int, j: int)
    requires
        sorted_by(t, ascending()),
        0 <= i <= j < t.len(),
    ensures
        t[i] <= t[j],
{
    if i < j {
        assert(ascending()(t[i], t[j]));
    }
}

proof fn lemma_filter_insert(m: Multiset<i128>, x: i128, p: spec_fn(i128) -> bool)
    ensures
        m.insert(x).filter(p).len() == m.filter(p).len() + (if p(x) { 1int } else { 0int }),
{
    if p(x) {
        assert(m.insert(x).filter(p) =~= m.filter(p).insert(x));
    } else {
        assert(m.insert(x).filter(p) =~= m.filter(p));
    }
}

proof fn lemma_count_push(s: Seq<i128>, x: i128, lo: int, hi: int)
    ensures
        count_within(s.push(x), lo, hi) == count_within(s, lo, hi) + (if lo <= x <= hi {
            1int
        } else {
            0int
        }),
{
    lemma_filter_insert(s.to_multiset(), x, in_band(lo, hi));
}

proof fn lemma_count_concat(a: Seq<i128>, b: Seq<i128>, lo: int, hi: int)
    ensures
        count_within(a + b, lo, hi) == count_within(a, lo, hi) + count_within(b, lo, hi),
{
    lemma_multiset_commutative(a, b);
    let p = in_band(lo, hi);
    assert((a + b).to_multiset().filter(p) =~= a.to_multiset().filter(p).add(
        b.to_multiset().filter(p),
    ));
}

proof fn lemma_count_le_len(s: Seq<i128>, lo: int, hi: int)
    ensures
        count_within(s, lo, hi) <= s.len(),
    decreases s.len(),
{
    if s.len() == 0 {
        assert(s.to_multiset().filter(in_band(lo, hi)) =~= Multiset::empty());
    } else {
        lemma_count_le_len(s.drop_last(), lo, hi);
        lemma_count_push(s.drop_last(), s.last(), lo, hi);
        assert(s.drop_last().push(s.last()) =~= s);
    }
}

proof fn lemma_count_none(s: Seq<i128>, lo: int, hi: int)
    requires
        forall|i: int| 0 <= i < s.len() ==> !(lo <= #[trigger] s[i] <= hi),
    ensures
        count_within(s, lo, hi) == 0,
    decreases s.len(),
{
    if s.len() == 0 {
        assert(s.to_multiset().filter(in_band(lo, hi)) =~= Multiset::empty());
    } else {
        lemma_count_none(s.drop_last(), lo, hi);
        lemma_count_push(s.drop_last(), s.last(), lo, hi);
        assert(s.drop_last().push(s.last()) =~= s);
    }
}

proof fn lemma_count_all(s: Seq<i128>, lo: int, hi: int)
    requires
        forall|i: int| 0 <= i < s.len() ==> lo <= #[trigger] s[i] <= hi,
    ensures
        count_within(s, lo, hi) == s.len(),
    decreases s.len(),
{
    if s.len() == 0 {
        assert(s.to_multiset().filter(in_band(lo, hi)) =~= Multiset::empty());
    } else {
        lemma_count_all(s.drop_last(), lo, hi);
        lemma_count_push(s.drop_last(), s.last(), lo, hi);
        assert(s.drop_last().push(s.last()) =~= s);
    }
}

/// Sorts the prices in ascending order into a new host vector: each price in
/// turn is inserted after the smaller or equal prices already placed.
pub(crate) fn sort_prices(env: &Env, prices: &HostVec<i128>) -> (sorted: HostVec<i128>)
    requires
        holds_only_i128(*prices),
    ensures
        host_prices(sorted) == sorted_prices(host_prices(*prices)),
        holds_only_i128(sorted),
{
    let ghost input = host_prices(*prices);
    let n = prices_len(prices);
    let mut sorted = new_prices(env);
    let mut i: u32 = 0;
    while i < n
        invariant
            i <= n,
            n == input.len(),
            input == host_prices(*prices),
            holds_only_i128(*prices),
            holds_only_i128(sorted),
            host_prices(sorted).len() == i,
            sorted_by(host_prices(sorted), ascending()),
            host_prices(sorted).to_multiset() == input.take(i as int).to_multiset(),
        decreases n - i,
    {
        let x = price_at(prices, i).unwrap();
        let mut pos: u32 = 0;
        while pos < i && price_at(&sorted, pos).unwrap() <= x
            invariant
                pos <= i,
                holds_only_i128(sorted),
                host_prices(sorted).len() == i,
                forall|k: int| 0 <= k < pos ==> host_prices(sorted)[k] <= x,
            decreases i - pos,
        {
            pos = pos + 1;
        }
        let ghost before = host_prices(sorted);
        proof {
            assert forall|k: int| pos <= k < before.len() implies x < before[k] by {
                lemma_sorted_index(before, pos as int, k);
            }
        }
        insert_price(&mut sorted, pos, x);
        proof {
            let after = host_prices(sorted);
            assert forall|a: int, b: int| 0 <= a < b < after.len() implies #[trigger] ascending()(
                after[a],
                after[b],
            ) by {
                if b < pos {
                    lemma_sorted_index(before, a, b);
                } else if b == pos {
                } else if a < pos {
                    lemma_sorted_index(before, a, b - 1);
                } else if a == pos {
                } else {
                    lemma_sorted_index(before, a - 1, b - 1);
                }
            }
            assert(input.take(i + 1) =~= input.take(i as int).push(x));
        }
        i = i + 1;
    }
    proof {
        assert(input.take(input.len() as int) =~= input);
        lemma_sorted_prices_unique(input, host_prices(sorted));
    }
    sorted
}

/// The median of a non-empty list of prices.
pub(crate) fn median(env: &Env, prices: &HostVec<i128>) -> (m: i128)
    requires
        holds_only_i128(*prices),
        host_prices(*prices).len() > 0,
        median_fits(host_prices(*prices)),
    ensures
        m == median_of(host_prices(*prices)),
{
    proof {
        lemma_sorted_prices(host_prices(*prices));
    }
    let sorted = sort_prices(env, prices);
    let n = prices_len(&sorted);
    if n % 2 == 1 {
        price_at(&sorted, n / 2).unwrap()
    } else {
        let a = price_at(&sorted, n / 2 - 1).unwrap();
        let b = price_at(&sorted, n / 2).unwrap();
        (a + b) / 2
    }
}

/// Whether the median of these prices can be computed within `i128`.
pub(crate) fn median_fits_i128(env: &Env, prices: &HostVec<i128>) -> (fits: bool)
    requires
        holds_only_i128(*prices),
    ensures
        fits == median_fits(host_prices(*prices)),
{
    proof {
        lemma_sorted_prices(host_prices(*prices));
    }
    let sorted = sort_prices(env, prices);
    let n = prices_len(&sorted);
    if n == 0 || n % 2 == 1 {
        true
    } else {
        let a = price_at(&sorted, n / 2 - 1).unwrap();
        let b = price_at(&sorted, n / 2).unwrap();
        if b >= 0 {
            a <= i128::MAX - b
        } else {
            a >= i128::MIN - b
        }
    }
}

/// The median does not depend on the order of the prices.
pub proof fn lemma_median_order_independent(s1: Seq<i128>, s2: Seq<i128>)
    requires
        s1.to_multiset() == s2.to_multiset(),
    ensures
        median_of(s1) == median_of(s2),
        median_fits(s1) == median_fits(s2),
{
    lemma_sorted_prices(s1);
    lemma_sorted_prices(s2);
    lemma_sorted_prices_unique(s2, sorted_prices(s1));
    assert(s1.len() == s2.len());
}

/// Outlier resistance: if more than half of the prices lie within `[lo, hi]`,
/// so does the median, however far off the other prices are.
pub proof fn lemma_majority_bounds_median(prices: Seq<i128>, lo: int, hi: int)
    requires
        prices.len() > 0,
        2 * count_within(prices, lo, hi) > prices.len(),
    ensures
        lo <= median_of(prices) <= hi,
{
    let t = sorted_prices(prices);
    let n = prices.len() as int;
    lemma_sorted_prices(prices);
    // the multiset of `t` is that of `prices`, so are the counts
    assert(count_within(t, lo, hi) == count_within(prices, lo, hi));
    let low = (n - 1) / 2;
    let high = n / 2;
    if t[low] < lo {
        let head = t.take(low + 1);
        let tail = t.skip(low + 1);
        assert forall|i: int| 0 <= i < head.len() implies !(lo <= #[trigger] head[i] <= hi) by {
            lemma_sorted_index(t, i, low);
        }
        lemma_count_none(head, lo, hi);
        lemma_count_le_len(tail, lo, hi);
        assert(head + tail =~= t);
        lemma_count_concat(head, tail, lo, hi);
        assert(false);
    }
    if t[high] > hi {
        let head = t.take(high);
        let tail = t.skip(high);
        assert forall|i: int| 0 <= i < tail.len() implies !(lo <= #[trigger] tail[i] <= hi) by {
            lemma_sorted_index(t, high, high + i);
        }
        lemma_count_none(tail, lo, hi);
        lemma_count_le_len(head, lo, hi);
        assert(head + tail =~= t);
        lemma_count_concat(head, tail, lo, hi);
        assert(false);
    }
    lemma_sorted_index(t, low, high);
}

/// The median lies between the smallest and the largest price.
pub proof fn lemma_median_within_prices(prices: Seq<i128>, lo: int, hi: int)
    requires
        prices.len() > 0,
        forall|i: int| 0 <= i < prices.len() ==> lo <= #[trigger] prices[i] <= hi,
    ensures
        lo <= median_of(prices) <= hi,
{
    lemma_count_all(prices, lo, hi);
    lemma_majority_bounds_median(prices, lo, hi);
}


/// A single price is its own median.
pub proof fn lemma_median_single(x: i128)
    ensures
        median_of(seq![x]) == x,
        median_fits(seq![x]),
{
    let s = seq![x];
    assert forall|a: int, b: int| 0 <= a < b < s.len() implies #[trigger] ascending()(
        s[a],
        s[b],
    ) by {}
    lemma_sorted_prices_unique(s, s);
}




/// Raising prices never lowers the median: if each price of `s1` is at most the
/// price at the same place in `s2`, the median of `s1` is at most that of `s2`.
pub proof fn lemma_median_monotone(s1: Seq<i128>, s2: Seq<i128>)
    requires
        s1.len() == s2.len(),
        s1.len() > 0,
        forall|i: int| 0 <= i < s1.len() ==> s1[i] <= s2[i],
    ensures
        median_of(s1) <= median_of(s2),
{
    let t1 = sorted_prices(s1);
    let t2 = sorted_prices(s2);
    let n = s1.len() as int;
    lemma_sorted_prices(s1);
    lemma_sorted_prices(s2);
    assert forall|k: int| 0 <= k < n implies t1[k] <= t2[k] by {
        lemma_order_statistic_monotone(s1, s2, k);
    }
    if n % 2 == 0 {
        assert(t1[n / 2 - 1] + t1[n / 2] <= t2[n / 2 - 1] + t2[n / 2]);
    }
}

/// Pointwise smaller prices have at least as many at or below any bound.
proof fn lemma_count_below_monotone(s1: Seq<i128>, s2: Seq<i128>, v: int)
    requires
        s1.len() == s2.len(),
        forall|i: int| 0 <= i < s1.len() ==> s1[i] <= s2[i],
    ensures
        count_within(s2, i128::MIN as int, v) <= count_within(s1, i128::MIN as int, v),
    decreases s1.len(),
{
    if s1.len() > 0 {
        let r1 = s1.drop_last();
        let r2 = s2.drop_last();
        assert forall|i: int| 0 <= i < r1.len() implies r1[i] <= r2[i] by {
            assert(r1[i] == s1[i] && r2[i] == s2[i]);
        }
        lemma_count_below_monotone(r1, r2, v);
        lemma_count_push(r1, s1.last(), i128::MIN as int, v);
        lemma_count_push(r2, s2.last(), i128::MIN as int, v);
        assert(r1.push(s1.last()) =~= s1);
        assert(r2.push(s2.last()) =~= s2);
        assert(s1.last() == s1[s1.len() - 1] && s2.last() == s2[s2.len() - 1]);
    } else {
        lemma_count_none(s1, i128::MIN as int, v);
        lemma_count_none(s2, i128::MIN as int, v);
    }
}

/// The `k`-th smallest price of pointwise smaller prices is no larger.
proof fn lemma_order_statistic_monotone(s1: Seq<i128>, s2: Seq<i128>, k: int)
    requires
        s1.len() == s2.len(),
        0 <= k < s1.len(),
        forall|i: int| 0 <= i < s1.len() ==> s1[i] <= s2[i],
    ensures
        sorted_prices(s1)[k] <= sorted_prices(s2)[k],
{
    let t1 = sorted_prices(s1);
    let t2 = sorted_prices(s2);
    let lo = i128::MIN as int;
    let v = t2[k] as int;
    lemma_sorted_prices(s1);
    lemma_sorted_prices(s2);
    // at least k + 1 prices of `s2` are at most `v`
    let head2 = t2.take(k + 1);
    let tail2 = t2.skip(k + 1);
    assert forall|i: int| 0 <= i < head2.len() implies lo <= #[trigger] head2[i] <= v by {
        lemma_sorted_index(t2, i, k);
    }
    lemma_count_all(head2, lo, v);
    assert(head2 + tail2 =~= t2);
    lemma_count_concat(head2, tail2, lo, v);
    assert(count_within(t2, lo, v) == count_within(s2, lo, v));
    lemma_count_below_monotone(s1, s2, v);
    assert(count_within(t1, lo, v) == count_within(s1, lo, v));
    if t1[k] > v {
        // then only the first k prices of `s1` can be at most `v`
        let head1 = t1.take(k);
        let tail1 = t1.skip(k);
        assert forall|i: int| 0 <= i < tail1.len() implies !(lo <= #[trigger] tail1[i] <= v) by {
            lemma_sorted_index(t1, k, k + i);
        }
        lemma_count_none(tail1, lo, v);
        lemma_count_le_len(head1, lo, v);
        assert(head1 + tail1 =~= t1);
        lemma_count_concat(head1, tail1, lo, v);
        assert(false);
    }
}


/// The median read off the prices in ascending order `t` (any ascending
/// arrangement of the same prices): for an odd count `n`, the middle price
/// `t[n / 2]`; for an even count, the sum of the two middle prices
/// `t[n / 2 - 1] + t[n / 2]` halved and rounded toward zero, for every even
/// count. Computing it stays within `i128` exactly when that sum does.
pub proof fn law_median_is_middle(s: Seq<i128>, t: Seq<i128>)
    requires
        s.len() > 0,
        t.to_multiset() == s.to_multiset(),
        forall|i: int, j: int| 0 <= i <= j < t.len() ==> t[i] <= t[j],
    ensures
        t.len() == s.len(),
        s.len() % 2 == 1 ==> median_of(s) == t[(s.len() as int) / 2],
        s.len() % 2 == 0 ==> ({
            let sum = t[(s.len() as int) / 2 - 1] + t[(s.len() as int) / 2];
            &&& sum >= 0 ==> 0 <= sum - 2 * median_of(s) <= 1
            &&& sum < 0 ==> 0 <= 2 * median_of(s) - sum <= 1
        }),
        median_fits(s) <==> (s.len() % 2 == 1 || i128::MIN <= t[(s.len() as int) / 2 - 1]
            + t[(s.len() as int) / 2] <= i128::MAX),
{
    assert forall|a: int, b: int| 0 <= a < b < t.len() implies #[trigger] ascending()(
        t[a],
        t[b],
    ) by {}
    lemma_sorted_prices_unique(s, t);
    lemma_sorted_prices(s);
}

} // verus!
