//! What holds of the oracle across its requests.
use vstd::prelude::*;
use vstd::multiset::group_multiset_axioms;
use vstd::seq_lib::{group_to_multiset_ensures, lemma_multiset_commutative};

use crate::contract::{
    is_stale, latest_timestamp, live_prices, other_than, price_gap, OracleView,
};
use crate::median::{
    count_within, median_fits, lemma_majority_bounds_median, lemma_median_order_independent,
    lemma_median_single, lemma_median_within_prices, law_median_is_middle, median_of,
};
use crate::types::{EntryView, FeedView};

verus! {

/// Outlier resistance of a feed: when more than half of the prices that an
/// aggregation takes into account lie within `[lo, hi]`, the aggregated price
/// lies there too, whatever the other publishers submitted.
pub proof fn law_majority_sets_feed_price(s: OracleView, asset: Seq<u8>, lo: int, hi: int)
    requires
        s.live_prices(asset).len() > 0,
        2 * count_within(s.live_prices(asset), lo, hi) > s.live_prices(asset).len(),
    ensures
        lo <= s.aggregated(asset).price <= hi,
{
    let prices = s.live_prices(asset);
    lemma_majority_bounds_median(prices, lo, hi);
    lemma_median_within_prices(prices, i128::MIN as int, i128::MAX as int);
}

/// The circuit breaker in plain terms: a price it lets through, when it is on
/// and the asset has a positive median, differs from that median by less than
/// `max_deviation_bps + 1` basis points of it.
pub proof fn law_breaker_bound(s: OracleView, asset: Seq<u8>, price: i128)
    requires
        s.breaker_applies(asset),
        !s.breaker_trips(asset, price),
    ensures
        price_gap(price as int, s.feeds[asset].price as int) * 10000 < (s.max_deviation_bps as int
            + 1) * s.feeds[asset].price,
{
    let m = s.feeds[asset].price as int;
    let g = price_gap(price as int, m);
    let limit = s.max_deviation_bps as int;
    assert(g >= 0);
    assert((g * 10000) / m <= limit);
    assert(g * 10000 < (limit + 1) * m) by (nonlinear_arith)
        requires
            m > 0,
            g >= 0,
            (g * 10000) / m <= limit,
    ;
}

/// With the circuit breaker off, no price is refused for its deviation.
pub proof fn law_breaker_off(s: OracleView, asset: Seq<u8>, price: i128)
    requires
        s.max_deviation_bps == 0,
    ensures
        !s.breaker_trips(asset, price),
{
}

/// Entries of publishers that are not trusted (never added, or removed since)
/// do not count in an aggregation.
pub proof fn law_untrusted_entries_ignored(
    pubs: Seq<Seq<char>>,
    entries: Map<(Seq<u8>, Seq<char>), EntryView>,
    asset: Seq<u8>,
    entry: EntryView,
)
    requires
        !pubs.contains(entry.publisher),
    ensures
        live_prices(pubs, entries.insert((asset, entry.publisher), entry), asset) == live_prices(
            pubs,
            entries,
            asset,
        ),
        latest_timestamp(pubs, entries.insert((asset, entry.publisher), entry), asset)
            == latest_timestamp(pubs, entries, asset),
    decreases pubs.len(),
{
    if pubs.len() > 0 {
        assert(pubs.last() != entry.publisher) by {
            assert(pubs[pubs.len() - 1] == pubs.last());
        }
        assert(!pubs.drop_last().contains(entry.publisher)) by {
            if pubs.drop_last().contains(entry.publisher) {
                let k = choose|k: int|
                    0 <= k < pubs.drop_last().len() && pubs.drop_last()[k] == entry.publisher;
                assert(pubs[k] == entry.publisher);
            }
        }
        law_untrusted_entries_ignored(pubs.drop_last(), entries, asset, entry);
    }
}

/// A submission for one asset pair leaves what an aggregation of any other
/// pair takes into account as it was.
pub proof fn law_other_assets_untouched(
    pubs: Seq<Seq<char>>,
    entries: Map<(Seq<u8>, Seq<char>), EntryView>,
    asset: Seq<u8>,
    entry: EntryView,
    other: Seq<u8>,
)
    requires
        other != asset,
    ensures
        live_prices(pubs, entries.insert((asset, entry.publisher), entry), other) == live_prices(
            pubs,
            entries,
            other,
        ),
        latest_timestamp(pubs, entries.insert((asset, entry.publisher), entry), other)
            == latest_timestamp(pubs, entries, other),
    decreases pubs.len(),
{
    if pubs.len() > 0 {
        law_other_assets_untouched(pubs.drop_last(), entries, asset, entry, other);
    }
}

/// An accepted submission creates or replaces the feed of its asset pair with
/// a fresh aggregation, stores its entry, and leaves the admin, the publishers,
/// the breaker limit, every other pair's feed and every other entry as they were.
pub proof fn law_submission_updates_its_feed(
    s: OracleView,
    asset: Seq<u8>,
    entry: EntryView,
    other: Seq<u8>,
    key: (Seq<u8>, Seq<char>),
)
    requires
        other != asset,
        key != (asset, entry.publisher),
    ensures
        s.after_submission(asset, entry).admin == s.admin,
        s.after_submission(asset, entry).publishers == s.publishers,
        s.after_submission(asset, entry).max_deviation_bps == s.max_deviation_bps,
        s.after_submission(asset, entry).entries.contains_key(key) == s.entries.contains_key(key),
        s.entries.contains_key(key) ==> s.after_submission(asset, entry).entries[key]
            == s.entries[key],
        s.after_submission(asset, entry).feeds.contains_key(asset),
        s.after_submission(asset, entry).feeds[asset] == s.with_entry(asset, entry).aggregated(
            asset,
        ),
        s.after_submission(asset, entry).feeds.contains_key(other) == s.feeds.contains_key(other),
        s.feeds.contains_key(other) ==> s.after_submission(asset, entry).feeds[other]
            == s.feeds[other],
        s.after_submission(asset, entry).entries[(asset, entry.publisher)] == entry,
{
}

proof fn lemma_no_live_prices(
    pubs: Seq<Seq<char>>,
    entries: Map<(Seq<u8>, Seq<char>), EntryView>,
    asset: Seq<u8>,
)
    requires
        forall|k: int| 0 <= k < pubs.len() ==> !entries.contains_key((asset, #[trigger] pubs[k])),
    ensures
        live_prices(pubs, entries, asset) == Seq::<i128>::empty(),
        latest_timestamp(pubs, entries, asset) == 0,
    decreases pubs.len(),
{
    if pubs.len() > 0 {
        assert(!entries.contains_key((asset, pubs[pubs.len() - 1])));
        assert forall|k: int| 0 <= k < pubs.drop_last().len() implies !entries.contains_key(
            (asset, #[trigger] pubs.drop_last()[k]),
        ) by {
            assert(pubs.drop_last()[k] == pubs[k]);
        }
        lemma_no_live_prices(pubs.drop_last(), entries, asset);
    }
}

proof fn lemma_lone_live_price(
    pubs: Seq<Seq<char>>,
    entries: Map<(Seq<u8>, Seq<char>), EntryView>,
    asset: Seq<u8>,
    publisher: Seq<char>,
)
    requires
        pubs.no_duplicates(),
        pubs.contains(publisher),
        entries.contains_key((asset, publisher)),
        forall|k: int|
            0 <= k < pubs.len() && #[trigger] pubs[k] != publisher ==> !entries.contains_key(
                (asset, pubs[k]),
            ),
    ensures
        live_prices(pubs, entries, asset) == seq![entries[(asset, publisher)].price],
        latest_timestamp(pubs, entries, asset) == entries[(asset, publisher)].timestamp,
    decreases pubs.len(),
{
    let rest = pubs.drop_last();
    assert forall|k: int|
        0 <= k < rest.len() && #[trigger] rest[k] != publisher implies !entries.contains_key(
            (asset, rest[k]),
        ) by {
        assert(rest[k] == pubs[k]);
    }
    if pubs.last() == publisher {
        assert forall|k: int| 0 <= k < rest.len() implies !entries.contains_key(
            (asset, #[trigger] rest[k]),
        ) by {
            assert(rest[k] == pubs[k]);
            assert(pubs[k] != pubs[pubs.len() - 1]);
        }
        lemma_no_live_prices(rest, entries, asset);
        assert(seq![entries[(asset, publisher)].price] =~= Seq::<i128>::empty().push(
            entries[(asset, publisher)].price,
        ));
    } else {
        let k = choose|k: int| 0 <= k < pubs.len() && pubs[k] == publisher;
        assert(k != pubs.len() - 1);
        assert(rest[k] == publisher);
        assert(rest.no_duplicates()) by {
            assert forall|a: int, b: int|
                0 <= a < rest.len() && 0 <= b < rest.len() && a != b implies rest[a] != rest[b] by {
                assert(rest[a] == pubs[a] && rest[b] == pubs[b]);
            }
        }
        assert(!entries.contains_key((asset, pubs[pubs.len() - 1])));
        lemma_lone_live_price(rest, entries, asset, publisher);
    }
}

/// A lone publisher sets the price: when no other trusted publisher has an
/// entry for the asset pair, an accepted submission makes its feed the
/// submitted price and time, from one source.
pub proof fn law_lone_publisher_sets_price(s: OracleView, asset: Seq<u8>, entry: EntryView)
    requires
        s.publishers.no_duplicates(),
        s.publishers.contains(entry.publisher),
        forall|k: int|
            0 <= k < s.publishers.len() && #[trigger] s.publishers[k] != entry.publisher
                ==> !s.entries.contains_key((asset, s.publishers[k])),
    ensures
        s.after_submission(asset, entry).feeds[asset] == (FeedView {
            asset,
            price: entry.price,
            timestamp: entry.timestamp,
            num_sources: 1,
        }),
{
    let stored = s.with_entry(asset, entry);
    assert forall|k: int|
        0 <= k < s.publishers.len() && #[trigger] s.publishers[k] != entry.publisher
            implies !stored.entries.contains_key((asset, s.publishers[k])) by {}
    lemma_lone_live_price(s.publishers, stored.entries, asset, entry.publisher);
    lemma_median_single(entry.price);
}


proof fn lemma_filter_keeps_all(pubs: Seq<Seq<char>>, p: Seq<char>)
    requires
        !pubs.contains(p),
    ensures
        pubs.filter(other_than(p)) == pubs,
    decreases pubs.len(),
{
    if pubs.len() > 0 {
        let rest = pubs.drop_last();
        assert(!rest.contains(p)) by {
            if rest.contains(p) {
                let k = choose|k: int| 0 <= k < rest.len() && rest[k] == p;
                assert(pubs[k] == p);
            }
        }
        assert(pubs.last() != p) by {
            assert(pubs[pubs.len() - 1] == pubs.last());
        }
        lemma_filter_keeps_all(rest, p);
        rest.lemma_filter_push(pubs.last(), other_than(p));
        assert(rest.push(pubs.last()) =~= pubs);
    } else {
        reveal(Seq::filter);
        assert(pubs.filter(other_than(p)) =~= pubs);
    }
}

/// Adding a publisher and then removing it gives back the list as it was.
pub proof fn law_add_then_remove(pubs: Seq<Seq<char>>, p: Seq<char>)
    requires
        !pubs.contains(p),
    ensures
        pubs.push(p).filter(other_than(p)) == pubs,
{
    pubs.lemma_filter_push(p, other_than(p));
    lemma_filter_keeps_all(pubs, p);
}

/// Removing a publisher drops it and keeps every other one.
pub proof fn law_remove_drops_only_it(pubs: Seq<Seq<char>>, p: Seq<char>, q: Seq<char>)
    ensures
        !pubs.filter(other_than(p)).contains(p),
        q != p ==> (pubs.filter(other_than(p)).contains(q) == pubs.contains(q)),
{
    let kept = pubs.filter(other_than(p));
    if kept.contains(p) {
        let k = choose|k: int| 0 <= k < kept.len() && kept[k] == p;
        pubs.lemma_filter_pred(other_than(p), k);
    }
    if q != p {
        if kept.contains(q) {
            let k = choose|k: int| 0 <= k < kept.len() && kept[k] == q;
            pubs.lemma_filter_contains_rev(other_than(p), q);
        }
        if pubs.contains(q) {
            let k = choose|k: int| 0 <= k < pubs.len() && pubs[k] == q;
            pubs.lemma_filter_contains(other_than(p), k);
        }
    }
}


proof fn lemma_live_prices_concat(
    a: Seq<Seq<char>>,
    b: Seq<Seq<char>>,
    entries: Map<(Seq<u8>, Seq<char>), EntryView>,
    asset: Seq<u8>,
)
    ensures
        live_prices(a + b, entries, asset) == live_prices(a, entries, asset) + live_prices(
            b,
            entries,
            asset,
        ),
        latest_timestamp(a + b, entries, asset) == (if latest_timestamp(a, entries, asset)
            >= latest_timestamp(b, entries, asset) {
            latest_timestamp(a, entries, asset)
        } else {
            latest_timestamp(b, entries, asset)
        }),
    decreases b.len(),
{
    if b.len() == 0 {
        assert(a + b =~= a);
        assert(live_prices(a, entries, asset) + live_prices(b, entries, asset) =~= live_prices(
            a,
            entries,
            asset,
        ));
    } else {
        assert((a + b).drop_last() =~= a + b.drop_last());
        assert((a + b).last() == b.last());
        lemma_live_prices_concat(a, b.drop_last(), entries, asset);
        let key = (asset, b.last());
        if entries.contains_key(key) {
            let front = live_prices(a, entries, asset);
            let back = live_prices(b.drop_last(), entries, asset);
            assert(front + back.push(entries[key].price) =~= (front + back).push(
                entries[key].price,
            ));
        }
    }
}

/// The order in which the publishers were added does not matter: the same
/// publishers in any order give the same median, the same number of sources
/// and the same latest time.
pub proof fn law_publisher_order_irrelevant(
    pubs1: Seq<Seq<char>>,
    pubs2: Seq<Seq<char>>,
    entries: Map<(Seq<u8>, Seq<char>), EntryView>,
    asset: Seq<u8>,
)
    requires
        pubs1.to_multiset() == pubs2.to_multiset(),
    ensures
        live_prices(pubs1, entries, asset).to_multiset() == live_prices(
            pubs2,
            entries,
            asset,
        ).to_multiset(),
        live_prices(pubs1, entries, asset).len() == live_prices(pubs2, entries, asset).len(),
        median_of(live_prices(pubs1, entries, asset)) == median_of(
            live_prices(pubs2, entries, asset),
        ),
        latest_timestamp(pubs1, entries, asset) == latest_timestamp(pubs2, entries, asset),
    decreases pubs1.len(),
{
    broadcast use {group_to_multiset_ensures, group_multiset_axioms};

    let l1 = live_prices(pubs1, entries, asset);
    let l2 = live_prices(pubs2, entries, asset);
    if pubs1.len() == 0 {
        assert(pubs2.to_multiset().len() == 0);
        assert(pubs2.len() == 0);
        assert(l1 =~= l2);
    } else {
        let x = pubs1.last();
        let rest = pubs1.drop_last();
        assert(rest.push(x) =~= pubs1);
        assert(pubs2.to_multiset().count(x) > 0);
        assert(pubs2.contains(x));
        let j = choose|j: int| 0 <= j < pubs2.len() && pubs2[j] == x;
        let other = pubs2.remove(j);
        assert(other.to_multiset() =~= rest.to_multiset());
        law_publisher_order_irrelevant(rest, other, entries, asset);
        let head = pubs2.subrange(0, j);
        let tail = pubs2.subrange(j + 1, pubs2.len() as int);
        let single = seq![x];
        assert(pubs2 =~= head + single + tail);
        assert(other =~= head + tail);
        lemma_live_prices_concat(head, single, entries, asset);
        lemma_live_prices_concat(head + single, tail, entries, asset);
        lemma_live_prices_concat(head, tail, entries, asset);
        assert(single.drop_last() =~= Seq::<Seq<char>>::empty());
        let hp = live_prices(head, entries, asset);
        let sp = live_prices(single, entries, asset);
        let tp = live_prices(tail, entries, asset);
        lemma_multiset_commutative(hp, sp);
        lemma_multiset_commutative(hp + sp, tp);
        lemma_multiset_commutative(hp, tp);
        lemma_live_prices_concat(rest, single, entries, asset);
        assert(rest + single =~= pubs1);
        lemma_multiset_commutative(live_prices(rest, entries, asset), sp);
        assert(l2.to_multiset() =~= l1.to_multiset());
        assert(l1.to_multiset().len() == l2.to_multiset().len());
        lemma_median_order_independent(l1, l2);
    }
}


/// An aggregation finds nothing, and so leaves the oracle unchanged, exactly
/// when no trusted publisher has an entry for the asset pair; then its
/// arithmetic precondition holds without more.
pub proof fn law_aggregate_finds_nothing(s: OracleView, asset: Seq<u8>)
    ensures
        s.live_prices(asset).len() == 0 <==> forall|k: int|
            0 <= k < s.publishers.len() ==> !s.entries.contains_key(
                (asset, #[trigger] s.publishers[k]),
            ),
        s.live_prices(asset).len() == 0 ==> median_fits(s.live_prices(asset)),
{
    lemma_live_prices_empty_iff(s.publishers, s.entries, asset);
}

proof fn lemma_live_prices_empty_iff(
    pubs: Seq<Seq<char>>,
    entries: Map<(Seq<u8>, Seq<char>), EntryView>,
    asset: Seq<u8>,
)
    ensures
        live_prices(pubs, entries, asset).len() == 0 <==> forall|k: int|
            0 <= k < pubs.len() ==> !entries.contains_key((asset, #[trigger] pubs[k])),
    decreases pubs.len(),
{
    if pubs.len() > 0 {
        let rest = pubs.drop_last();
        lemma_live_prices_empty_iff(rest, entries, asset);
        if live_prices(pubs, entries, asset).len() == 0 {
            assert forall|k: int| 0 <= k < pubs.len() implies !entries.contains_key(
                (asset, #[trigger] pubs[k]),
            ) by {
                if k < pubs.len() - 1 {
                    assert(rest[k] == pubs[k]);
                }
            }
        } else {
            if live_prices(rest, entries, asset).len() > 0 {
                let k = choose|k: int|
                    0 <= k < rest.len() && entries.contains_key((asset, #[trigger] rest[k]));
                assert(pubs[k] == rest[k]);
            } else {
                assert(entries.contains_key((asset, pubs[pubs.len() - 1])));
            }
        }
    }
}

proof fn lemma_live_prices_agree(
    pubs: Seq<Seq<char>>,
    e1: Map<(Seq<u8>, Seq<char>), EntryView>,
    e2: Map<(Seq<u8>, Seq<char>), EntryView>,
    asset: Seq<u8>,
)
    requires
        forall|k: int|
            0 <= k < pubs.len() ==> (e1.contains_key((asset, #[trigger] pubs[k]))
                == e2.contains_key((asset, pubs[k]))),
        forall|k: int|
            0 <= k < pubs.len() && e1.contains_key((asset, #[trigger] pubs[k])) ==> e1[(
                asset,
                pubs[k],
            )] == e2[(asset, pubs[k])],
    ensures
        live_prices(pubs, e1, asset) == live_prices(pubs, e2, asset),
        latest_timestamp(pubs, e1, asset) == latest_timestamp(pubs, e2, asset),
    decreases pubs.len(),
{
    if pubs.len() > 0 {
        let rest = pubs.drop_last();
        assert forall|k: int| 0 <= k < rest.len() implies (e1.contains_key(
            (asset, #[trigger] rest[k]),
        ) == e2.contains_key((asset, rest[k]))) && (e1.contains_key((asset, rest[k])) ==> e1[(
            asset,
            rest[k],
        )] == e2[(asset, rest[k])]) by {
            assert(rest[k] == pubs[k]);
        }
        lemma_live_prices_agree(rest, e1, e2, asset);
        assert(pubs.last() == pubs[pubs.len() - 1]);
    }
}

/// An aggregation reads only the entries of trusted publishers: two states
/// with the same publishers whose entries agree for those publishers (they
/// may differ for anyone else, such as a removed publisher) aggregate the
/// asset pair alike, and alike meet its arithmetic precondition.
pub proof fn law_aggregate_reads_only_publishers(s1: OracleView, s2: OracleView, asset: Seq<u8>)
    requires
        s1.publishers == s2.publishers,
        forall|k: int|
            0 <= k < s1.publishers.len() ==> (s1.entries.contains_key(
                (asset, #[trigger] s1.publishers[k]),
            ) == s2.entries.contains_key((asset, s1.publishers[k]))),
        forall|k: int|
            0 <= k < s1.publishers.len() && s1.entries.contains_key(
                (asset, #[trigger] s1.publishers[k]),
            ) ==> s1.entries[(asset, s1.publishers[k])] == s2.entries[(asset, s1.publishers[k])],
    ensures
        s1.live_prices(asset) == s2.live_prices(asset),
        s1.aggregated(asset) == s2.aggregated(asset),
        median_fits(s1.live_prices(asset)) == median_fits(s2.live_prices(asset)),
{
    lemma_live_prices_agree(s1.publishers, s1.entries, s2.entries, asset);
}

/// An aggregation does not depend on the order in which the publishers were
/// added: the same publishers and entries in another order give the same
/// feed, and alike meet its arithmetic precondition.
pub proof fn law_aggregate_order_irrelevant(s1: OracleView, s2: OracleView, asset: Seq<u8>)
    requires
        s1.publishers.to_multiset() == s2.publishers.to_multiset(),
        s1.entries == s2.entries,
    ensures
        s1.aggregated(asset) == s2.aggregated(asset),
        median_fits(s1.live_prices(asset)) == median_fits(s2.live_prices(asset)),
{
    law_publisher_order_irrelevant(s1.publishers, s2.publishers, s1.entries, asset);
    lemma_median_order_independent(s1.live_prices(asset), s2.live_prices(asset));
}


/// Whether a publisher has an entry for `asset`.
pub open spec fn has_entry_for(
    entries: Map<(Seq<u8>, Seq<char>), EntryView>,
    asset: Seq<u8>,
) -> spec_fn(Seq<char>) -> bool {
    |p: Seq<char>| entries.contains_key((asset, p))
}

/// The price of a publisher's entry for `asset`.
pub open spec fn entry_price_for(
    entries: Map<(Seq<u8>, Seq<char>), EntryView>,
    asset: Seq<u8>,
) -> spec_fn(Seq<char>) -> i128 {
    |p: Seq<char>| entries[(asset, p)].price
}

/// The prices an aggregation takes into account are those of the trusted
/// publishers that have an entry for the asset pair, one per publisher, in
/// the order the publishers were added.
pub proof fn law_live_prices_are_trusted_entries(
    pubs: Seq<Seq<char>>,
    entries: Map<(Seq<u8>, Seq<char>), EntryView>,
    asset: Seq<u8>,
)
    ensures
        live_prices(pubs, entries, asset) == pubs.filter(has_entry_for(entries, asset)).map_values(
            entry_price_for(entries, asset),
        ),
    decreases pubs.len(),
{
    let has = has_entry_for(entries, asset);
    let price = entry_price_for(entries, asset);
    if pubs.len() == 0 {
        reveal(Seq::filter);
        assert(pubs.filter(has).map_values(price) =~= Seq::<i128>::empty());
    } else {
        let rest = pubs.drop_last();
        let x = pubs.last();
        law_live_prices_are_trusted_entries(rest, entries, asset);
        rest.lemma_filter_push(x, has);
        assert(rest.push(x) =~= pubs);
        if has(x) {
            assert(rest.filter(has).push(x).map_values(price) =~= rest.filter(has).map_values(
                price,
            ).push(price(x)));
        }
    }
}

proof fn lemma_latest_bounds(
    pubs: Seq<Seq<char>>,
    entries: Map<(Seq<u8>, Seq<char>), EntryView>,
    asset: Seq<u8>,
)
    ensures
        forall|k: int|
            0 <= k < pubs.len() && entries.contains_key((asset, #[trigger] pubs[k]))
                ==> entries[(asset, pubs[k])].timestamp <= latest_timestamp(pubs, entries, asset),
        latest_timestamp(pubs, entries, asset) == 0 || exists|k: int|
            0 <= k < pubs.len() && entries.contains_key((asset, #[trigger] pubs[k]))
                && latest_timestamp(pubs, entries, asset) == entries[(asset, pubs[k])].timestamp,
    decreases pubs.len(),
{
    if pubs.len() > 0 {
        let rest = pubs.drop_last();
        lemma_latest_bounds(rest, entries, asset);
        let last = pubs.len() - 1;
        assert(pubs[last] == pubs.last());
        assert forall|k: int|
            0 <= k < pubs.len() && entries.contains_key((asset, #[trigger] pubs[k]))
            implies entries[(asset, pubs[k])].timestamp <= latest_timestamp(
            pubs,
            entries,
            asset,
        ) by {
            if k < last {
                assert(rest[k] == pubs[k]);
            }
        }
        if latest_timestamp(pubs, entries, asset) != 0 {
            if latest_timestamp(pubs, entries, asset) != latest_timestamp(rest, entries, asset) {
                assert(entries.contains_key((asset, pubs[last])));
            } else {
                let k = choose|k: int|
                    0 <= k < rest.len() && entries.contains_key((asset, #[trigger] rest[k]))
                        && latest_timestamp(rest, entries, asset) == entries[(
                        asset,
                        rest[k],
                    )].timestamp;
                assert(rest[k] == pubs[k]);
            }
        }
    }
}

/// What an aggregation of an asset pair computes, from the entries of the
/// trusted publishers that have one (`trusted`, with prices arranged in
/// ascending order as `t`): the number of sources is how many they are, for
/// any number; the time is the latest of their timestamps (0 when there is
/// none); the price, for an odd count `n`, is the middle price `t[n / 2]`, and
/// for an even count the two middle prices `t[n / 2 - 1] + t[n / 2]` halved and
/// rounded toward zero.
pub proof fn law_aggregated_feed(s: OracleView, asset: Seq<u8>, t: Seq<i128>)
    requires
        s.publishers.len() <= u32::MAX,
        t.to_multiset() == s.publishers.filter(has_entry_for(s.entries, asset)).map_values(
            entry_price_for(s.entries, asset),
        ).to_multiset(),
        forall|i: int, j: int| 0 <= i <= j < t.len() ==> t[i] <= t[j],
    ensures
        ({
            let trusted = s.publishers.filter(has_entry_for(s.entries, asset));
            let n = trusted.len() as int;
            let feed = s.aggregated(asset);
            &&& feed.asset == asset
            &&& feed.num_sources == n
            &&& t.len() == n
            &&& forall|k: int|
                0 <= k < s.publishers.len() && s.entries.contains_key(
                    (asset, #[trigger] s.publishers[k]),
                ) ==> s.entries[(asset, s.publishers[k])].timestamp <= feed.timestamp
            &&& feed.timestamp == 0 || exists|k: int|
                0 <= k < s.publishers.len() && s.entries.contains_key(
                    (asset, #[trigger] s.publishers[k]),
                ) && feed.timestamp == s.entries[(asset, s.publishers[k])].timestamp
            &&& n > 0 && n % 2 == 1 ==> feed.price == t[n / 2]
            &&& n > 0 && n % 2 == 0 ==> {
                let sum = t[n / 2 - 1] + t[n / 2];
                &&& sum >= 0 ==> 0 <= sum - 2 * feed.price <= 1
                &&& sum < 0 ==> 0 <= 2 * feed.price - sum <= 1
            }
        }),
{
    let prices = s.live_prices(asset);
    law_live_prices_are_trusted_entries(s.publishers, s.entries, asset);
    let trusted = s.publishers.filter(has_entry_for(s.entries, asset));
    s.publishers.lemma_filter_len(has_entry_for(s.entries, asset));
    assert(prices.len() == trusted.len());
    lemma_latest_bounds(s.publishers, s.entries, asset);
    if prices.len() > 0 {
        law_median_is_middle(prices, t);
        lemma_median_within_prices(prices, i128::MIN as int, i128::MAX as int);
    } else {
        assert(t.to_multiset().len() == 0) by {
            broadcast use {group_to_multiset_ensures, group_multiset_axioms};
        }
        assert(t.len() == 0) by {
            broadcast use group_to_multiset_ensures;
        }
    }
}

/// The circuit breaker refuses exactly the prices too far from a positive
/// median: with the limit on (`L > 0`) and the asset's median `m > 0`,
/// whatever its size, a price `p` is refused exactly when
/// `|p - m| * 10000 >= (L + 1) * m`, that is when its deviation rounded down
/// exceeds `L` basis points, below the median as well as above it; with the
/// limit off, no feed, or a median of 0 or less, nothing is refused.
pub proof fn law_breaker_refuses_exactly(s: OracleView, asset: Seq<u8>, price: i128)
    ensures
        s.breaker_trips(asset, price) <==> ({
            &&& s.max_deviation_bps > 0
            &&& s.feeds.contains_key(asset)
            &&& s.feeds[asset].price > 0
            &&& (if price >= s.feeds[asset].price {
                price - s.feeds[asset].price
            } else {
                s.feeds[asset].price - price
            }) * 10000 >= (s.max_deviation_bps + 1) * s.feeds[asset].price
        }),
{
    if s.max_deviation_bps > 0 && s.feeds.contains_key(asset) && s.feeds[asset].price > 0 {
        let m = s.feeds[asset].price as int;
        let g = price_gap(price as int, m);
        let limit = s.max_deviation_bps as int;
        assert(g == (if price >= m {
            price - m
        } else {
            m - price
        }));
        assert(g >= 0);
        assert((g * 10000) / m > limit <==> g * 10000 >= (limit + 1) * m) by (nonlinear_arith)
            requires
                m > 0,
                g >= 0,
                limit >= 0,
        {
            assert(g * 10000 == m * ((g * 10000) / m) + (g * 10000) % m);
            assert(0 <= (g * 10000) % m < m);
        }
    }
}

/// A feed is stale exactly when the ledger time is more than `max_age_secs`
/// seconds past its timestamp; a feed at most that old, or stamped later than
/// the ledger time, is fresh.
pub proof fn law_stale_exactly(now: u64, timestamp: u64, max_age_secs: u64)
    ensures
        is_stale(now, timestamp, max_age_secs) <==> now > timestamp + max_age_secs,
{
}


/// A submission stays within `i128` arithmetic unless it comes from a trusted
/// publisher and either the deviation product `|p - m| * 10000` against a
/// positive median `m` (breaker on) exceeds `i128::MAX`, or the price is let
/// through and the median of the prices it would aggregate cannot be computed
/// within `i128`.
pub proof fn law_submission_fits_exactly(s: OracleView, asset: Seq<u8>, entry: EntryView)
    ensures
        s.submission_fits(asset, entry) <==> (s.publishers.contains(entry.publisher) ==> {
            &&& (s.max_deviation_bps > 0 && s.feeds.contains_key(asset) && s.feeds[asset].price > 0)
                ==> (if entry.price >= s.feeds[asset].price {
                entry.price - s.feeds[asset].price
            } else {
                s.feeds[asset].price - entry.price
            }) * 10000 <= i128::MAX
            &&& !s.breaker_trips(asset, entry.price) ==> median_fits(
                s.with_entry(asset, entry).live_prices(asset),
            )
        }),
{
}

} // verus!
