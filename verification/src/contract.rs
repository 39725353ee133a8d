//! The oracle contract: its state and the requests it answers.
//!
//! An `OracleContract` value is an initialized oracle: its admin, the trusted
//! publishers in the order they were added, the circuit-breaker limit, the
//! aggregated feed of each asset pair in ledger key order, and the latest
//! price entry of each (asset pair, publisher).
use vstd::prelude::*;

use soroban_sdk::{Env, Vec as HostVec};

use crate::feeds::{
    assets_ascending, feed_assets, feed_map, feed_pairs, lemma_sorted_unique_keys,
    list_assets, locate_feed, put_feed, byte_views,
};
use crate::keyed::{
    has_key, keyed_map, lemma_keyed_absent, lemma_keyed_empty, lemma_keyed_index,
    lemma_keyed_push, lemma_keyed_update, unique_keys,
};
use crate::host::{holds_only_i128, host_prices, new_prices, prices_len, push_price};
use crate::median::{median, median_fits, median_fits_i128, median_of};
use crate::order::{bytes_lt, compare_bytes, lemma_bytes_lt_transitive, KeyOrder};
use crate::types::{
    copy_bytes, Address, EntryView, FeedData, FeedView, OracleError, PriceEntry, PriceUpdated,
};

verus! {

/// What the oracle's state means.
pub struct OracleView {
    /// Who may manage the publishers and the circuit breaker.
    pub admin: Seq<char>,
    /// The trusted publishers, in the order they were added.
    pub publishers: Seq<Seq<char>>,
    /// Largest accepted deviation from the current median, in basis points;
    /// 0 turns the circuit breaker off.
    pub max_deviation_bps: u32,
    /// The aggregated feed of each asset pair.
    pub feeds: Map<Seq<u8>, FeedView>,
    /// The latest entry of each (asset pair, publisher).
    pub entries: Map<(Seq<u8>, Seq<char>), EntryView>,
}

/// The text of each address.
pub open spec fn address_views(v: Seq<Address>) -> Seq<Seq<char>> {
    v.map_values(|a: Address| a@)
}

/// Stored entries as ((asset, publisher), entry) pairs.
pub open spec fn entry_pairs(v: Seq<(Vec<u8>, PriceEntry)>) -> Seq<(
    (Seq<u8>, Seq<char>),
    EntryView,
)> {
    v.map_values(|e: (Vec<u8>, PriceEntry)| ((e.0@, e.1.publisher@), e.1@))
}

/// The prices of the entries for `asset`, taken publisher by publisher in
/// registration order, from the publishers that have one.
pub open spec fn live_prices(
    pubs: Seq<Seq<char>>,
    entries: Map<(Seq<u8>, Seq<char>), EntryView>,
    asset: Seq<u8>,
) -> Seq<i128>
    decreases pubs.len(),
{
    if pubs.len() == 0 {
        Seq::empty()
    } else {
        let rest = live_prices(pubs.drop_last(), entries, asset);
        let key = (asset, pubs.last());
        if entries.contains_key(key) {
            rest.push(entries[key].price)
        } else {
            rest
        }
    }
}

/// The latest timestamp among those entries, or 0 when there is none.
pub open spec fn latest_timestamp(
    pubs: Seq<Seq<char>>,
    entries: Map<(Seq<u8>, Seq<char>), EntryView>,
    asset: Seq<u8>,
) -> u64
    decreases pubs.len(),
{
    if pubs.len() == 0 {
        0
    } else {
        let rest = latest_timestamp(pubs.drop_last(), entries, asset);
        let key = (asset, pubs.last());
        if entries.contains_key(key) && entries[key].timestamp > rest {
            entries[key].timestamp
        } else {
            rest
        }
    }
}

/// Every name but `p`.
pub open spec fn other_than(p: Seq<char>) -> spec_fn(Seq<char>) -> bool {
    |q: Seq<char>| q != p
}

/// How far `price` is from `median`.
pub open spec fn price_gap(price: int, median: int) -> int {
    if price > median {
        price - median
    } else {
        median - price
    }
}

/// The deviation of `price` from `median` in basis points, rounded down.
pub open spec fn deviation_bps(price: int, median: int) -> int {
    (price_gap(price, median) * 10000) / median
}

/// Whether a feed updated at `timestamp` is older than `max_age_secs` at `now`
/// (a timestamp in the future counts as age 0).
pub open spec fn is_stale(now: u64, timestamp: u64, max_age_secs: u64) -> bool {
    (if now > timestamp {
        now - timestamp
    } else {
        0
    }) > max_age_secs
}

impl OracleView {
    /// The prices that an aggregation of `asset` takes into account.
    pub open spec fn live_prices(self, asset: Seq<u8>) -> Seq<i128> {
        live_prices(self.publishers, self.entries, asset)
    }

    /// The feed that an aggregation of `asset` computes: the median of the live
    /// prices, the latest of their timestamps, and how many there are.
    pub open spec fn aggregated(self, asset: Seq<u8>) -> FeedView {
        let prices = self.live_prices(asset);
        FeedView {
            asset,
            price: median_of(prices) as i128,
            timestamp: latest_timestamp(self.publishers, self.entries, asset),
            num_sources: prices.len() as u32,
        }
    }

    /// The state with `entry` stored as the entry of its publisher for `asset`.
    pub open spec fn with_entry(self, asset: Seq<u8>, entry: EntryView) -> OracleView {
        OracleView {
            admin: self.admin,
            publishers: self.publishers,
            max_deviation_bps: self.max_deviation_bps,
            feeds: self.feeds,
            entries: self.entries.insert((asset, entry.publisher), entry),
        }
    }

    /// The state with `feed` stored as the feed of its asset.
    pub open spec fn with_feed(self, feed: FeedView) -> OracleView {
        OracleView {
            admin: self.admin,
            publishers: self.publishers,
            max_deviation_bps: self.max_deviation_bps,
            feeds: self.feeds.insert(feed.asset, feed),
            entries: self.entries,
        }
    }

    /// The circuit breaker is on and `asset` has a positive median to compare with.
    pub open spec fn breaker_applies(self, asset: Seq<u8>) -> bool {
        &&& self.max_deviation_bps > 0
        &&& self.feeds.contains_key(asset)
        &&& self.feeds[asset].price > 0
    }

    /// A submission of `price` for `asset` deviates too far from the current median.
    pub open spec fn breaker_trips(self, asset: Seq<u8>, price: i128) -> bool {
        &&& self.breaker_applies(asset)
        &&& deviation_bps(price as int, self.feeds[asset].price as int)
            > self.max_deviation_bps as int
    }

    /// The state after an accepted submission: the entry stored, then the
    /// asset's feed aggregated anew.
    pub open spec fn after_submission(self, asset: Seq<u8>, entry: EntryView) -> OracleView {
        let stored = self.with_entry(asset, entry);
        stored.with_feed(stored.aggregated(asset))
    }

    /// A submission stays within `i128` arithmetic: the deviation check, when it
    /// is made, and the median, when it is computed.
    pub open spec fn submission_fits(self, asset: Seq<u8>, entry: EntryView) -> bool {
        self.publishers.contains(entry.publisher) ==> {
            &&& self.breaker_applies(asset) ==> price_gap(
                entry.price as int,
                self.feeds[asset].price as int,
            ) * 10000 <= i128::MAX
            &&& !self.breaker_trips(asset, entry.price) ==> median_fits(
                self.with_entry(asset, entry).live_prices(asset),
            )
        }
    }
}

/// An initialized oracle.
pub struct OracleContract {
    admin: Address,
    publishers: Vec<Address>,
    max_deviation_bps: u32,
    feeds: Vec<FeedData>,
    entries: Vec<(Vec<u8>, PriceEntry)>,
}

impl View for OracleContract {
    type V = OracleView;

    closed spec fn view(&self) -> OracleView {
        OracleView {
            admin: self.admin@,
            publishers: address_views(self.publishers@),
            max_deviation_bps: self.max_deviation_bps,
            feeds: feed_map(self.feeds@),
            entries: keyed_map(entry_pairs(self.entries@)),
        }
    }
}

/// Whether stored parts make a valid oracle: no publisher twice (and no more
/// than a ledger vector holds), feeds in key order, one entry per key.
pub open spec fn parts_valid(
    publishers: Seq<Address>,
    feeds: Seq<FeedData>,
    entries: Seq<(Vec<u8>, PriceEntry)>,
) -> bool {
    &&& address_views(publishers).no_duplicates()
    &&& publishers.len() <= u32::MAX
    &&& assets_ascending(feed_assets(feeds))
    &&& unique_keys(entry_pairs(entries))
}

impl OracleContract {
    /// The state is well formed.
    pub closed spec fn wf(&self) -> bool {
        parts_valid(self.publishers@, self.feeds@, self.entries@)
    }

    /// No publisher is ever listed twice, and the list fits a ledger vector.
    pub proof fn law_publishers_listed_once(&self)
        requires
            self.wf(),
        ensures
            self@.publishers.no_duplicates(),
            self@.publishers.len() <= u32::MAX,
    {
    }

    /// Sets up an oracle run by `admin`, with no publishers, no feeds and the
    /// circuit breaker off.
    pub fn initialize(admin: Address) -> (oracle: OracleContract)
        ensures
            oracle.wf(),
            oracle@.admin == admin@,
            oracle@.publishers == Seq::<Seq<char>>::empty(),
            oracle@.max_deviation_bps == 0,
            oracle@.feeds == Map::<Seq<u8>, FeedView>::empty(),
            oracle@.entries == Map::<(Seq<u8>, Seq<char>), EntryView>::empty(),
    {
        let oracle = OracleContract {
            admin,
            publishers: Vec::new(),
            max_deviation_bps: 0,
            feeds: Vec::new(),
            entries: Vec::new(),
        };
        proof {
            lemma_keyed_empty(feed_pairs(oracle.feeds@));
            lemma_keyed_empty(entry_pairs(oracle.entries@));
            assert(address_views(oracle.publishers@) =~= Seq::<Seq<char>>::empty());
        }
        oracle
    }

    /// Transfers the admin role.
    pub fn set_admin(&mut self, new_admin: Address)
        requires
            old(self).wf(),
        ensures
            final(self).wf(),
            final(self)@ == (OracleView { admin: new_admin@, ..old(self)@ }),
    {
        self.admin = new_admin;
    }

    /// The admin.
    pub fn admin(&self) -> (admin: &Address)
        ensures
            admin@ == self@.admin,
    {
        &self.admin
    }

    /// Sets the largest accepted deviation from the current median, in basis
    /// points (1000 = 10%); 0 turns the circuit breaker off.
    pub fn set_max_deviation_bps(&mut self, max_bps: u32)
        requires
            old(self).wf(),
        ensures
            final(self).wf(),
            final(self)@ == (OracleView { max_deviation_bps: max_bps, ..old(self)@ }),
    {
        self.max_deviation_bps = max_bps;
    }

    /// The circuit-breaker limit in basis points (0 = off).
    pub fn get_max_deviation_bps(&self) -> (max_bps: u32)
        ensures
            max_bps == self@.max_deviation_bps,
    {
        self.max_deviation_bps
    }
    /// Whether `publisher` is a trusted publisher.
    fn is_publisher(&self, publisher: &Address) -> (found: bool)
        ensures
            found == self@.publishers.contains(publisher@),
    {
        let mut i: usize = 0;
        while i < self.publishers.len()
            invariant
                i <= self.publishers.len(),
                forall|k: int| 0 <= k < i ==> self.publishers@[k]@ != publisher@,
            decreases self.publishers.len() - i,
        {
            if self.publishers[i].same_as(publisher) {
                proof {
                    assert(address_views(self.publishers@)[i as int] == publisher@);
                }
                return true;
            }
            i = i + 1;
        }
        proof {
            if address_views(self.publishers@).contains(publisher@) {
                let k = choose|k: int|
                    0 <= k < address_views(self.publishers@).len() && address_views(
                        self.publishers@,
                    )[k] == publisher@;
                assert(self.publishers@[k]@ == publisher@);
            }
        }
        false
    }

    /// Refuses anyone but a trusted publisher.
    pub fn require_publisher(&self, publisher: &Address) -> (r: Result<(), OracleError>)
        ensures
            r is Ok <==> self@.publishers.contains(publisher@),
            r is Err ==> r == Err::<(), OracleError>(OracleError::Unauthorized),
    {
        if self.is_publisher(publisher) {
            Ok(())
        } else {
            Err(OracleError::Unauthorized)
        }
    }

    /// Adds a trusted publisher at the end of the list; refused when it is
    /// already there.
    pub fn add_publisher(&mut self, publisher: Address) -> (r: Result<(), OracleError>)
        requires
            old(self).wf(),
            old(self)@.publishers.contains(publisher@) || old(self)@.publishers.len() < u32::MAX,
        ensures
            final(self).wf(),
            old(self)@.publishers.contains(publisher@) ==> r == Err::<(), OracleError>(
                OracleError::PublisherAlreadyExists,
            ) && final(self)@ == old(self)@,
            !old(self)@.publishers.contains(publisher@) ==> r == Ok::<(), OracleError>(())
                && final(self)@ == (OracleView {
                publishers: old(self)@.publishers.push(publisher@),
                ..old(self)@
            }),
    {
        if self.is_publisher(&publisher) {
            return Err(OracleError::PublisherAlreadyExists);
        }
        let ghost before = self.publishers@;
        let ghost name = publisher@;
        self.publishers.push(publisher);
        proof {
            assert(address_views(self.publishers@) =~= address_views(before).push(name));
            let v = address_views(self.publishers@);
            assert forall|i: int, j: int|
                0 <= i < v.len() && 0 <= j < v.len() && i != j implies v[i] != v[j] by {
                if i < before.len() && j < before.len() {
                    assert(v[i] == address_views(before)[i] && v[j] == address_views(before)[j]);
                } else if i < before.len() {
                    assert(v[i] == address_views(before)[i]);
                } else {
                    assert(v[j] == address_views(before)[j]);
                }
            }
        }
        Ok(())
    }

    /// Removes a trusted publisher, keeping the others in order; refused when
    /// it is not there. Its stored entries stay, but no longer count.
    pub fn remove_publisher(&mut self, publisher: &Address) -> (r: Result<(), OracleError>)
        requires
            old(self).wf(),
        ensures
            final(self).wf(),
            !old(self)@.publishers.contains(publisher@) ==> r == Err::<(), OracleError>(
                OracleError::PublisherNotFound,
            ) && final(self)@ == old(self)@,
            old(self)@.publishers.contains(publisher@) ==> r == Ok::<(), OracleError>(())
                && final(self)@ == (OracleView {
                publishers: old(self)@.publishers.filter(other_than(publisher@)),
                ..old(self)@
            }),
    {
        let ghost pubs = address_views(self.publishers@);
        let ghost keep = other_than(publisher@);
        let mut kept: Vec<Address> = Vec::new();
        let mut found = false;
        let mut i: usize = 0;
        while i < self.publishers.len()
            invariant
                i <= self.publishers.len(),
                pubs == address_views(self.publishers@),
                pubs.no_duplicates(),
                keep == other_than(publisher@),
                address_views(kept@) == pubs.take(i as int).filter(keep),
                address_views(kept@).no_duplicates(),
                forall|k: int|
                    0 <= k < kept@.len() ==> pubs.take(i as int).contains(
                        #[trigger] address_views(kept@)[k],
                    ),
                found == pubs.take(i as int).contains(publisher@),
            decreases self.publishers.len() - i,
        {
            let ghost prev = kept@;
            assert(pubs.take(i + 1) =~= pubs.take(i as int).push(pubs[i as int]));
            if self.publishers[i].same_as(publisher) {
                found = true;
            } else {
                let p = self.publishers[i].clone();
                kept.push(p);
                proof {
                    assert(address_views(kept@) =~= address_views(prev).push(pubs[i as int]));
                    // the new name is not among the kept ones: those come before it
                    let names = address_views(kept@);
                    assert forall|a: int, b: int|
                        0 <= a < names.len() && 0 <= b < names.len() && a != b implies names[a]
                        != names[b] by {
                        if a < prev.len() && b < prev.len() {
                            assert(address_views(kept@)[a] == address_views(prev)[a]);
                            assert(address_views(kept@)[b] == address_views(prev)[b]);
                        } else {
                            let c = if a < prev.len() { a } else { b };
                            assert(address_views(kept@)[c] == address_views(prev)[c]);
                            assert(pubs.take(i as int).contains(address_views(prev)[c]));
                            let k = choose|k: int|
                                0 <= k < i && pubs.take(i as int)[k] == address_views(prev)[c];
                            assert(pubs[k] == pubs.take(i as int)[k]);
                        }
                    }
                    assert forall|k: int| 0 <= k < kept@.len() implies pubs.take(i + 1).contains(
                        #[trigger] address_views(kept@)[k],
                    ) by {
                        if k < prev.len() {
                            assert(address_views(kept@)[k] == address_views(prev)[k]);
                            assert(pubs.take(i as int).contains(address_views(prev)[k]));
                            let j = choose|j: int|
                                0 <= j < i && pubs.take(i as int)[j] == address_views(prev)[k];
                            assert(pubs.take(i + 1)[j] == pubs.take(i as int)[j]);
                        } else {
                            assert(pubs.take(i + 1)[i as int] == pubs[i as int]);
                        }
                    }
                }
            }
            proof {
                pubs.take(i as int).lemma_filter_push(pubs[i as int], keep);
                if found {
                    if !pubs.take(i as int).contains(publisher@) {
                        assert(pubs.take(i + 1)[i as int] == publisher@);
                    }
                } else {
                    if pubs.take(i + 1).contains(publisher@) {
                        let j = choose|j: int|
                            0 <= j < i + 1 && #[trigger] pubs.take(i + 1)[j] == publisher@;
                        if j < i {
                            assert(pubs.take(i as int)[j] == publisher@);
                        }
                    }
                }
            }
            i = i + 1;
        }
        proof {
            assert(pubs.take(pubs.len() as int) =~= pubs);
        }
        if !found {
            return Err(OracleError::PublisherNotFound);
        }
        proof {
            pubs.lemma_filter_len(keep);
        }
        self.publishers = kept;
        Ok(())
    }

    /// The trusted publishers, in the order they were added.
    pub fn get_publishers(&self) -> (publishers: Vec<Address>)
        ensures
            address_views(publishers@) == self@.publishers,
    {
        let mut out: Vec<Address> = Vec::new();
        let mut i: usize = 0;
        while i < self.publishers.len()
            invariant
                i <= self.publishers.len(),
                address_views(out@) == address_views(self.publishers@).take(i as int),
            decreases self.publishers.len() - i,
        {
            let ghost prev = out@;
            let p = self.publishers[i].clone();
            out.push(p);
            proof {
                assert(address_views(out@) =~= address_views(prev).push(p@));
                assert(address_views(out@) =~= address_views(self.publishers@).take(i + 1));
            }
            i = i + 1;
        }
        proof {
            assert(address_views(self.publishers@).take(self.publishers.len() as int)
                =~= address_views(self.publishers@));
        }
        out
    }

    /// How many trusted publishers there are.
    pub fn get_publisher_count(&self) -> (count: u32)
        requires
            self.wf(),
        ensures
            count == self@.publishers.len(),
    {
        self.publishers.len() as u32
    }
    /// Where the entry of `publisher` for `asset` is stored, if there is one.
    fn find_entry(&self, asset: &Vec<u8>, publisher: &Address) -> (r: Option<usize>)
        ensures
            match r {
                Some(i) => i < self.entries.len() && entry_pairs(self.entries@)[i as int].0 == (
                    asset@,
                    publisher@,
                ),
                None => !has_key(entry_pairs(self.entries@), (asset@, publisher@)),
            },
    {
        let mut i: usize = 0;
        while i < self.entries.len()
            invariant
                i <= self.entries.len(),
                forall|k: int|
                    0 <= k < i ==> #[trigger] entry_pairs(self.entries@)[k].0 != (
                        asset@,
                        publisher@,
                    ),
            decreases self.entries.len() - i,
        {
            let same_asset = compare_bytes(self.entries[i].0.as_slice(), asset.as_slice())
                == KeyOrder::Equal;
            if same_asset && self.entries[i].1.publisher.same_as(publisher) {
                return Some(i);
            }
            proof {
                assert(entry_pairs(self.entries@)[i as int].0 == (
                    self.entries@[i as int].0@,
                    self.entries@[i as int].1.publisher@,
                ));
            }
            i = i + 1;
        }
        None
    }

    /// Stores `entry` as the entry of its publisher for `asset`, in place of
    /// any earlier one.
    fn put_entry(&mut self, asset: &Vec<u8>, entry: PriceEntry)
        requires
            old(self).wf(),
        ensures
            final(self).wf(),
            final(self)@ == old(self)@.with_entry(asset@, entry@),
    {
        let ghost before = entry_pairs(self.entries@);
        let ghost key = (asset@, entry.publisher@);
        let ghost value = entry@;
        match self.find_entry(asset, &entry.publisher) {
            Some(i) => {
                proof {
                    lemma_keyed_update(before, i as int, value);
                }
                self.entries[i] = (copy_bytes(asset), entry);
                proof {
                    assert(entry_pairs(self.entries@) =~= before.update(i as int, (key, value)));
                }
            },
            None => {
                proof {
                    lemma_keyed_push(before, key, value);
                }
                self.entries.push((copy_bytes(asset), entry));
                proof {
                    assert(entry_pairs(self.entries@) =~= before.push((key, value)));
                }
            },
        }
    }

    /// The live prices of `asset` and their latest timestamp, as they are or,
    /// given `pending`, as they would be once it is stored.
    fn gather(&self, env: &Env, asset: &Vec<u8>, pending: Option<&PriceEntry>) -> (r: (
        HostVec<i128>,
        u64,
    ))
        requires
            self.wf(),
        ensures
            ({
                let v = match pending {
                    Some(e) => self@.with_entry(asset@, e@),
                    None => self@,
                };
                &&& host_prices(r.0) == v.live_prices(asset@)
                &&& holds_only_i128(r.0)
                &&& r.1 == latest_timestamp(v.publishers, v.entries, asset@)
            }),
    {
        let ghost v = match pending {
            Some(e) => self@.with_entry(asset@, e@),
            None => self@,
        };
        let ghost pubs = self@.publishers;
        let mut prices = new_prices(env);
        let mut latest: u64 = 0;
        let mut i: usize = 0;
        while i < self.publishers.len()
            invariant
                i <= self.publishers.len(),
                self.wf(),
                pubs == self@.publishers,
                pubs == v.publishers,
                v == (match pending {
                    Some(e) => self@.with_entry(asset@, e@),
                    None => self@,
                }),
                host_prices(prices) == live_prices(pubs.take(i as int), v.entries, asset@),
                holds_only_i128(prices),
                pubs.len() <= u32::MAX,
                latest == latest_timestamp(pubs.take(i as int), v.entries, asset@),
            decreases self.publishers.len() - i,
        {
            let who = &self.publishers[i];
            let ghost key = (asset@, who@);
            assert(pubs[i as int] == who@);
            let mut hit: Option<(i128, u64)> = None;
            if let Some(e) = pending {
                if e.publisher.same_as(who) {
                    hit = Some((e.price, e.timestamp));
                }
            }
            if hit.is_none() {
                if let Some(j) = self.find_entry(asset, who) {
                    hit = Some((self.entries[j].1.price, self.entries[j].1.timestamp));
                    proof {
                        lemma_keyed_index(entry_pairs(self.entries@), j as int);
                    }
                } else {
                    proof {
                        lemma_keyed_absent(entry_pairs(self.entries@), key);
                    }
                }
            }
            proof {
                assert(match hit {
                    Some(h) => v.entries.contains_key(key) && v.entries[key].price == h.0
                        && v.entries[key].timestamp == h.1,
                    None => !v.entries.contains_key(key),
                });
                assert(pubs.take(i + 1).drop_last() =~= pubs.take(i as int));
                assert(pubs.take(i + 1).last() == who@);
            }
            proof {
                lemma_live_prices_len(pubs.take(i as int), v.entries, asset@);
            }
            if let Some((price, timestamp)) = hit {
                push_price(&mut prices, price);
                if timestamp > latest {
                    latest = timestamp;
                }
            }
            i = i + 1;
        }
        proof {
            assert(pubs.take(pubs.len() as int) =~= pubs);
        }
        (prices, latest)
    }

    /// Recomputes the feed of `asset` from the live prices and stores it;
    /// when there are none, nothing changes.
    pub fn aggregate(&mut self, env: &Env, asset: &Vec<u8>) -> (r: Option<FeedData>)
        requires
            old(self).wf(),
            median_fits(old(self)@.live_prices(asset@)),
        ensures
            final(self).wf(),
            old(self)@.live_prices(asset@).len() == 0 ==> r is None && final(self)@ == old(
                self,
            )@,
            old(self)@.live_prices(asset@).len() > 0 ==> match r {
                Some(feed) => feed@ == old(self)@.aggregated(asset@) && final(self)@ == old(
                    self,
                )@.with_feed(feed@),
                None => false,
            },
    {
        let (prices, latest) = self.gather(env, asset, None);
        let count = prices_len(&prices);
        if count == 0 {
            return None;
        }
        let price = median(env, &prices);
        let feed = FeedData { asset: copy_bytes(asset), price, timestamp: latest, num_sources: count };
        put_feed(&mut self.feeds, feed.clone());
        Some(feed)
    }

    /// Submits `price` for `asset`, taken at `timestamp`, on behalf of
    /// `publisher`; refused unless `publisher` is trusted, and refused when the
    /// price deviates from the asset's current median by more than the circuit
    /// breaker allows. An accepted price is stored as the publisher's entry, the
    /// asset's feed is aggregated anew from the live prices, and the new feed is
    /// returned as the event to publish.
    pub fn submit_price(
        &mut self,
        env: &Env,
        publisher: &Address,
        asset: &Vec<u8>,
        price: i128,
        timestamp: u64,
    ) -> (r: Result<PriceUpdated, OracleError>)
        requires
            old(self).wf(),
            old(self)@.submission_fits(
                asset@,
                EntryView { price, timestamp, publisher: publisher@ },
            ),
        ensures
            final(self).wf(),
            !old(self)@.publishers.contains(publisher@) ==> r == Err::<PriceUpdated, OracleError>(
                OracleError::Unauthorized,
            ) && final(self)@ == old(self)@,
            old(self)@.publishers.contains(publisher@) && old(self)@.breaker_trips(asset@, price)
                ==> r == Err::<PriceUpdated, OracleError>(OracleError::PriceDeviationExceeded)
                && final(self)@ == old(self)@,
            old(self)@.publishers.contains(publisher@) && !old(self)@.breaker_trips(asset@, price)
                ==> match r {
                Ok(event) => final(self)@ == old(self)@.after_submission(
                    asset@,
                    EntryView { price, timestamp, publisher: publisher@ },
                ) && event@ == final(self)@.feeds[asset@],
                Err(_) => false,
            },
    {
        if !self.is_publisher(publisher) {
            return Err(OracleError::Unauthorized);
        }
        // Circuit breaker: refuse a price too far from the current median.

        if self.max_deviation_bps > 0 {
            let (found, pos) = locate_feed(&self.feeds, asset);
            proof {
                lemma_sorted_unique_keys(self.feeds@);
                if found {
                    lemma_keyed_index(feed_pairs(self.feeds@), pos as int);
                } else {
                    lemma_keyed_absent(feed_pairs(self.feeds@), asset@);
                }
            }
            if found {
                let median = self.feeds[pos].price;
                if median > 0 {
                    let diff = if price > median {
                        price - median
                    } else {
                        median - price
                    };
                    let deviation = (diff * 10_000) / median;
                    if deviation > self.max_deviation_bps as i128 {
                        return Err(OracleError::PriceDeviationExceeded);
                    }
                }
            }
        }
        let entry = PriceEntry { price, timestamp, publisher: publisher.clone() };
        let ghost stored = self@.with_entry(asset@, entry@);
        self.put_entry(asset, entry);
        proof {
            lemma_live_prices_nonempty(stored.publishers, stored.entries, asset@, publisher@);
        }
        match self.aggregate(env, asset) {
            Some(feed) => Ok(
                PriceUpdated {
                    asset: feed.asset,
                    price: feed.price,
                    timestamp: feed.timestamp,
                    num_sources: feed.num_sources,
                },
            ),
            None => Err(OracleError::InsufficientSources),
        }
    }
}

/// There are no more live prices than publishers.
proof fn lemma_live_prices_len(
    pubs: Seq<Seq<char>>,
    entries: Map<(Seq<u8>, Seq<char>), EntryView>,
    asset: Seq<u8>,
)
    ensures
        live_prices(pubs, entries, asset).len() <= pubs.len(),
    decreases pubs.len(),
{
    if pubs.len() > 0 {
        lemma_live_prices_len(pubs.drop_last(), entries, asset);
    }
}

/// A trusted publisher with an entry for `asset` makes its live prices non-empty.
proof fn lemma_live_prices_nonempty(
    pubs: Seq<Seq<char>>,
    entries: Map<(Seq<u8>, Seq<char>), EntryView>,
    asset: Seq<u8>,
    publisher: Seq<char>,
)
    requires
        pubs.contains(publisher),
        entries.contains_key((asset, publisher)),
    ensures
        live_prices(pubs, entries, asset).len() > 0,
    decreases pubs.len(),
{
    if pubs.last() != publisher {
        let k = choose|k: int| 0 <= k < pubs.len() && pubs[k] == publisher;
        assert(pubs.drop_last()[k] == publisher);
        lemma_live_prices_nonempty(pubs.drop_last(), entries, asset, publisher);
    }
}


impl OracleContract {
    /// Whether a submission stays within `i128` arithmetic (see
    /// `OracleView::submission_fits`); a submission that does not would
    /// overflow, and callers refuse it before it reaches `submit_price`.
    pub fn submission_fits(
        &self,
        env: &Env,
        publisher: &Address,
        asset: &Vec<u8>,
        price: i128,
        timestamp: u64,
    ) -> (fits: bool)
        requires
            self.wf(),
        ensures
            fits == self@.submission_fits(
                asset@,
                EntryView { price, timestamp, publisher: publisher@ },
            ),
    {
        if !self.is_publisher(publisher) {
            return true;
        }
        let mut trips = false;
        if self.max_deviation_bps > 0 {
            let (found, pos) = locate_feed(&self.feeds, asset);
            proof {
                lemma_sorted_unique_keys(self.feeds@);
                if found {
                    lemma_keyed_index(feed_pairs(self.feeds@), pos as int);
                } else {
                    lemma_keyed_absent(feed_pairs(self.feeds@), asset@);
                }
            }
            if found {
                let median = self.feeds[pos].price;
                if median > 0 {
                    let limit: i128 = i128::MAX / 10_000;
                    let gap_fits = if price > median {
                        price - median <= limit
                    } else {
                        price >= median - limit
                    };
                    if !gap_fits {
                        return false;
                    }
                    let diff = if price > median {
                        price - median
                    } else {
                        median - price
                    };
                    let deviation = (diff * 10_000) / median;
                    trips = deviation > self.max_deviation_bps as i128;
                }
            }
        }
        if trips {
            return true;
        }
        let entry = PriceEntry { price, timestamp, publisher: publisher.clone() };
        let (prices, _) = self.gather(env, asset, Some(&entry));
        median_fits_i128(env, &prices)
    }

    /// The aggregated feed of `asset`; refused when it has none.
    pub fn get_price(&self, asset: &Vec<u8>) -> (r: Result<FeedData, OracleError>)
        requires
            self.wf(),
        ensures
            self@.feeds.contains_key(asset@) ==> match r {
                Ok(feed) => feed@ == self@.feeds[asset@],
                Err(_) => false,
            },
            !self@.feeds.contains_key(asset@) ==> r == Err::<FeedData, OracleError>(
                OracleError::FeedNotFound,
            ),
    {
        let (found, pos) = locate_feed(&self.feeds, asset);
        proof {
            lemma_sorted_unique_keys(self.feeds@);
            if found {
                lemma_keyed_index(feed_pairs(self.feeds@), pos as int);
            } else {
                lemma_keyed_absent(feed_pairs(self.feeds@), asset@);
            }
        }
        if found {
            Ok(self.feeds[pos].clone())
        } else {
            Err(OracleError::FeedNotFound)
        }
    }

    /// The aggregated feed of `asset`, provided it was updated no more than
    /// `max_age_secs` before `now`, the ledger time; refused when there is no
    /// feed, or when it is stale.
    pub fn get_price_fresh(&self, asset: &Vec<u8>, max_age_secs: u64, now: u64) -> (r: Result<
        FeedData,
        OracleError,
    >)
        requires
            self.wf(),
        ensures
            !self@.feeds.contains_key(asset@) ==> r == Err::<FeedData, OracleError>(
                OracleError::FeedNotFound,
            ),
            self@.feeds.contains_key(asset@) && is_stale(
                now,
                self@.feeds[asset@].timestamp,
                max_age_secs,
            ) ==> r == Err::<FeedData, OracleError>(OracleError::StalePrice),
            self@.feeds.contains_key(asset@) && !is_stale(
                now,
                self@.feeds[asset@].timestamp,
                max_age_secs,
            ) ==> match r {
                Ok(feed) => feed@ == self@.feeds[asset@],
                Err(_) => false,
            },
    {
        let feed = match self.get_price(asset) {
            Ok(feed) => feed,
            Err(e) => {
                return Err(e);
            },
        };
        if now.saturating_sub(feed.timestamp) > max_age_secs {
            return Err(OracleError::StalePrice);
        }
        Ok(feed)
    }

    /// The asset pairs that have a feed, in ledger key order.
    pub fn get_assets(&self) -> (assets: Vec<Vec<u8>>)
        requires
            self.wf(),
        ensures
            assets_ascending(byte_views(assets@)),
            forall|a: Seq<u8>|
                self@.feeds.contains_key(a) <==> #[trigger] byte_views(assets@).contains(a),
    {
        let assets = list_assets(&self.feeds);
        proof {
            let names = feed_assets(self.feeds@);
            let pairs = feed_pairs(self.feeds@);
            assert forall|a: Seq<u8>|
                self@.feeds.contains_key(a) <==> #[trigger] names.contains(a) by {
                if names.contains(a) {
                    let k = choose|k: int| 0 <= k < names.len() && names[k] == a;
                    assert(pairs[k].0 == a);
                }
                if self@.feeds.contains_key(a) {
                    let k = choose|k: int| 0 <= k < pairs.len() && #[trigger] pairs[k].0 == a;
                    assert(names[k] == a);
                }
            }
        }
        assets
    }

    /// The feeds, in ledger key order.
    pub fn feed_table(&self) -> (feeds: &Vec<FeedData>)
        requires
            self.wf(),
        ensures
            assets_ascending(feed_assets(feeds@)),
            feed_map(feeds@) == self@.feeds,
    {
        &self.feeds
    }
}


/// Whether no address occurs twice.
fn distinct_addresses(v: &Vec<Address>) -> (distinct: bool)
    ensures
        distinct == address_views(v@).no_duplicates(),
{
    let ghost names = address_views(v@);
    let mut i: usize = 0;
    while i < v.len()
        invariant
            i <= v.len(),
            names == address_views(v@),
            forall|a: int, b: int|
                0 <= a < i && 0 <= b < v.len() && a != b ==> names[a] != names[b],
        decreases v.len() - i,
    {
        let mut j: usize = 0;
        while j < v.len()
            invariant
                i < v.len(),
                j <= v.len(),
                names == address_views(v@),
                forall|a: int, b: int|
                    0 <= a < i && 0 <= b < v.len() && a != b ==> names[a] != names[b],
                forall|b: int| 0 <= b < j && b != i ==> names[i as int] != names[b],
            decreases v.len() - j,
        {
            if j != i && v[i].same_as(&v[j]) {
                proof {
                    assert(names[i as int] == names[j as int]);
                }
                return false;
            }
            j = j + 1;
        }
        i = i + 1;
    }
    true
}

/// Whether the feeds are in strictly ascending key order.
fn feeds_in_key_order(v: &Vec<FeedData>) -> (ordered: bool)
    ensures
        ordered == assets_ascending(feed_assets(v@)),
{
    let ghost names = feed_assets(v@);
    if v.len() == 0 {
        return true;
    }
    let mut i: usize = 1;
    while i < v.len()
        invariant
            1 <= i <= v.len(),
            names == feed_assets(v@),
            assets_ascending(names.take(i as int)),
        decreases v.len() - i,
    {
        let order = compare_bytes(v[i - 1].asset.as_slice(), v[i].asset.as_slice());
        match order {
            KeyOrder::Less => {},
            _ => {
                proof {
                    assert(!bytes_lt(names[i - 1], names[i as int]));
                }
                return false;
            },
        }
        proof {
            let t = names.take(i + 1);
            assert forall|a: int, b: int| 0 <= a < b < t.len() implies bytes_lt(
                #[trigger] t[a],
                #[trigger] t[b],
            ) by {
                assert(t[a] == names[a] && t[b] == names[b]);
                if b < i {
                    assert(names.take(i as int)[a] == names[a]);
                    assert(names.take(i as int)[b] == names[b]);
                } else if a < i - 1 {
                    assert(names.take(i as int)[a] == names[a]);
                    assert(names.take(i as int)[i - 1] == names[i - 1]);
                    lemma_bytes_lt_transitive(
                        names[a],
                        names[i - 1],
                        names[b],
                    );
                }
            }
        }
        i = i + 1;
    }
    proof {
        assert(names.take(v.len() as int) =~= names);
    }
    true
}

/// Whether no (asset, publisher) key occurs twice among the entries.
fn distinct_entry_keys(v: &Vec<(Vec<u8>, PriceEntry)>) -> (distinct: bool)
    ensures
        distinct == unique_keys(entry_pairs(v@)),
{
    let ghost pairs = entry_pairs(v@);
    let mut i: usize = 0;
    while i < v.len()
        invariant
            i <= v.len(),
            pairs == entry_pairs(v@),
            forall|a: int, b: int|
                0 <= a < i && 0 <= b < v.len() && a != b ==> pairs[a].0 != pairs[b].0,
        decreases v.len() - i,
    {
        let mut j: usize = 0;
        while j < v.len()
            invariant
                i < v.len(),
                j <= v.len(),
                pairs == entry_pairs(v@),
                forall|a: int, b: int|
                    0 <= a < i && 0 <= b < v.len() && a != b ==> pairs[a].0 != pairs[b].0,
                forall|b: int| 0 <= b < j && b != i ==> pairs[i as int].0 != pairs[b].0,
            decreases v.len() - j,
        {
            let same_asset = compare_bytes(v[i].0.as_slice(), v[j].0.as_slice()) == KeyOrder::Equal;
            if j != i && same_asset && v[i].1.publisher.same_as(&v[j].1.publisher) {
                proof {
                    assert(pairs[i as int].0 == pairs[j as int].0);
                }
                return false;
            }
            j = j + 1;
        }
        i = i + 1;
    }
    true
}

impl OracleContract {
    /// Rebuilds an oracle from its stored parts; `None` when they do not make
    /// a valid one (see `parts_valid`).
    pub fn restore(
        admin: Address,
        publishers: Vec<Address>,
        max_deviation_bps: u32,
        feeds: Vec<FeedData>,
        entries: Vec<(Vec<u8>, PriceEntry)>,
    ) -> (r: Option<OracleContract>)
        ensures
            r is Some <==> parts_valid(publishers@, feeds@, entries@),
            match r {
                Some(oracle) => oracle.wf() && oracle@ == (OracleView {
                    admin: admin@,
                    publishers: address_views(publishers@),
                    max_deviation_bps,
                    feeds: feed_map(feeds@),
                    entries: keyed_map(entry_pairs(entries@)),
                }),
                None => true,
            },
    {
        if publishers.len() > 0xffff_ffff {
            return None;
        }
        if !distinct_addresses(&publishers) || !feeds_in_key_order(&feeds) || !distinct_entry_keys(
            &entries,
        ) {
            return None;
        }
        Some(OracleContract { admin, publishers, max_deviation_bps, feeds, entries })
    }
}

} // verus!
