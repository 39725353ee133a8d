//! The table of aggregated feeds, kept in the ledger's key order.
use vstd::prelude::*;

use crate::keyed::{
    has_key, keyed_map, lemma_keyed_insert, lemma_keyed_update, unique_keys,
};
use crate::order::{
    bytes_lt, compare_bytes, lemma_bytes_lt_irreflexive, lemma_bytes_lt_transitive, KeyOrder,
};
use crate::types::{copy_bytes, FeedData, FeedView};

verus! {

/// Assets in strictly ascending key order (so no asset occurs twice).
pub open spec fn assets_ascending(assets: Seq<Seq<u8>>) -> bool {
    forall|i: int, j: int|
        0 <= i < j < assets.len() ==> bytes_lt(
            #[trigger] assets[i],
            #[trigger] assets[j],
        )
}

/// The bytes of each byte string.
pub open spec fn byte_views(v: Seq<Vec<u8>>) -> Seq<Seq<u8>> {
    v.map_values(|a: Vec<u8>| a@)
}

/// The asset of each feed, in table order.
pub open spec fn feed_assets(feeds: Seq<FeedData>) -> Seq<Seq<u8>> {
    feeds.map_values(|f: FeedData| f.asset@)
}

/// The table as asset/feed pairs.
pub open spec fn feed_pairs(feeds: Seq<FeedData>) -> Seq<(Seq<u8>, FeedView)> {
    feeds.map_values(|f: FeedData| (f.asset@, f@))
}

/// The table read as a map from asset to feed.
pub open spec fn feed_map(feeds: Seq<FeedData>) -> Map<Seq<u8>, FeedView> {
    keyed_map(feed_pairs(feeds))
}

/// A table in key order has distinct assets.
pub proof fn lemma_sorted_unique_keys(feeds: Seq<FeedData>)
    requires
        assets_ascending(feed_assets(feeds)),
    ensures
        unique_keys(feed_pairs(feeds)),
{
    let pairs = feed_pairs(feeds);
    let assets = feed_assets(feeds);
    assert forall|i: int, j: int|
        0 <= i < pairs.len() && 0 <= j < pairs.len() && i != j implies #[trigger] pairs[i].0
        != #[trigger] pairs[j].0 by {
        if i < j {
            assert(bytes_lt(assets[i], assets[j]));
            lemma_bytes_lt_irreflexive(assets[i]);
        } else {
            assert(bytes_lt(assets[j], assets[i]));
            lemma_bytes_lt_irreflexive(assets[j]);
        }
    }
}

/// Where `asset` stands in a table in key order: `(true, i)` when the feed at
/// `i` is that of `asset`; `(false, i)` when no feed is, `i` being the place
/// where it would go.
pub fn locate_feed(feeds: &Vec<FeedData>, asset: &Vec<u8>) -> (r: (bool, usize))
    requires
        assets_ascending(feed_assets(feeds@)),
    ensures
        r.1 <= feeds.len(),
        r.0 ==> r.1 < feeds.len() && feeds@[r.1 as int].asset@ == asset@,
        !r.0 ==> !has_key(feed_pairs(feeds@), asset@),
        !r.0 ==> forall|i: int|
            0 <= i < r.1 ==> bytes_lt(#[trigger] feeds@[i].asset@, asset@),
        !r.0 ==> forall|i: int|
            r.1 <= i < feeds.len() ==> bytes_lt(
                asset@,
                #[trigger] feeds@[i].asset@,
            ),
{
    let key = asset.as_slice();
    let mut i: usize = 0;
    while i < feeds.len()
        invariant
            i <= feeds.len(),
            key@ == asset@,
            assets_ascending(feed_assets(feeds@)),
            forall|k: int|
                0 <= k < i ==> bytes_lt(#[trigger] feeds@[k].asset@, asset@),
        decreases feeds.len() - i,
    {
        let here = feeds[i].asset.as_slice();
        match compare_bytes(key, here) {
            KeyOrder::Equal => {
                return (true, i);
            },
            KeyOrder::Less => {
                proof {
                    let assets = feed_assets(feeds@);
                    assert forall|k: int| i <= k < feeds.len() implies bytes_lt(
                        asset@,
                        #[trigger] feeds@[k].asset@,
                    ) by {
                        if k > i {
                            assert(bytes_lt(assets[i as int], assets[k]));
                            lemma_bytes_lt_transitive(
                                asset@,
                                assets[i as int],
                                assets[k],
                            );
                        }
                    }
                    lemma_no_feed(feeds@, asset@);
                }
                return (false, i);
            },
            KeyOrder::Greater => {},
        }
        i = i + 1;
    }
    proof {
        lemma_no_feed(feeds@, asset@);
    }
    (false, i)
}

/// An asset whose key differs from every key in the table has no feed.
proof fn lemma_no_feed(feeds: Seq<FeedData>, asset: Seq<u8>)
    requires
        forall|k: int|
            0 <= k < feeds.len() ==> bytes_lt(
                #[trigger] feeds[k].asset@,
                asset,
            ) || bytes_lt(asset, feeds[k].asset@),
    ensures
        !has_key(feed_pairs(feeds), asset),
{
    let pairs = feed_pairs(feeds);
    if has_key(pairs, asset) {
        let k = choose|k: int| 0 <= k < pairs.len() && #[trigger] pairs[k].0 == asset;
        assert(feeds[k].asset@ == asset);
        lemma_bytes_lt_irreflexive(asset);
    }
}

/// Sets the feed of `feed.asset`, in place of any earlier one, keeping key order.
pub fn put_feed(feeds: &mut Vec<FeedData>, feed: FeedData)
    requires
        assets_ascending(feed_assets(old(feeds)@)),
    ensures
        assets_ascending(feed_assets(final(feeds)@)),
        feed_map(final(feeds)@) == feed_map(old(feeds)@).insert(feed@.asset, feed@),
{
    proof {
        lemma_sorted_unique_keys(feeds@);
    }
    let (found, pos) = locate_feed(feeds, &feed.asset);
    let ghost before = feeds@;
    let ghost fv = feed@;
    if found {
        proof {
            lemma_keyed_update(feed_pairs(before), pos as int, fv);
        }
        feeds[pos] = feed;
        proof {
            assert(feed_pairs(feeds@) =~= feed_pairs(before).update(
                pos as int,
                (feed_pairs(before)[pos as int].0, fv),
            ));
            assert(feed_assets(feeds@) =~= feed_assets(before));
        }
    } else {
        proof {
            lemma_keyed_insert(feed_pairs(before), pos as int, fv.asset, fv);
        }
        feeds.insert(pos, feed);
        proof {
            assert(feed_pairs(feeds@) =~= feed_pairs(before).insert(pos as int, (fv.asset, fv)));
            let assets = feed_assets(feeds@);
            let old_assets = feed_assets(before);
            assert forall|i: int, j: int| 0 <= i < j < assets.len() implies bytes_lt(
                #[trigger] assets[i],
                #[trigger] assets[j],
            ) by {
                if j < pos {
                    assert(assets[i] == old_assets[i] && assets[j] == old_assets[j]);
                } else if j == pos {
                    assert(assets[i] == old_assets[i]);
                } else if i < pos {
                    assert(assets[i] == old_assets[i] && assets[j] == old_assets[j - 1]);
                    lemma_bytes_lt_transitive(
                        old_assets[i],
                        fv.asset,
                        old_assets[j - 1],
                    );
                } else if i == pos {
                    assert(assets[j] == old_assets[j - 1]);
                } else {
                    assert(assets[i] == old_assets[i - 1] && assets[j] == old_assets[j - 1]);
                }
            }
        }
    }
}

/// The assets of the table, in key order.
pub fn list_assets(feeds: &Vec<FeedData>) -> (assets: Vec<Vec<u8>>)
    ensures
        byte_views(assets@) == feed_assets(feeds@),
{
    let mut assets: Vec<Vec<u8>> = Vec::new();
    let mut i: usize = 0;
    while i < feeds.len()
        invariant
            i <= feeds.len(),
            byte_views(assets@) == feed_assets(feeds@).take(i as int),
        decreases feeds.len() - i,
    {
        let ghost prev = assets@;
        let name = copy_bytes(&feeds[i].asset);
        assets.push(name);
        proof {
            assert(assets@ == prev.push(name));
            assert(byte_views(prev).len() == prev.len());
            assert(prev.len() == i);
            assert forall|k: int| 0 <= k <= i implies #[trigger] byte_views(assets@)[k]
                == feed_assets(feeds@).take(i + 1)[k] by {
                if k < i {
                    assert(assets@[k] == prev[k]);
                    assert(byte_views(prev)[k] == feed_assets(feeds@).take(i as int)[k]);
                } else {
                    assert(assets@[k] == name);
                    assert(name@ == feeds@[k].asset@);
                }
            }
            assert(byte_views(assets@) =~= feed_assets(feeds@).take(i + 1));
        }
        i = i + 1;
    }
    proof {
        assert(feed_assets(feeds@).take(feeds.len() as int) =~= feed_assets(feeds@));
    }
    assets
}

} // verus!
