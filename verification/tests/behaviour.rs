use oracle_core::contract::OracleContract;
use oracle_core::order::{compare_bytes, KeyOrder};
use oracle_core::types::{Address, FeedData, OracleError, PriceEntry, PriceUpdated};
use soroban_sdk::Env;

fn bytes(text: &str) -> Vec<u8> {
    text.as_bytes().to_vec()
}

fn address(name: &str) -> Address {
    Address::new(String::from(name))
}

fn oracle_with(names: &[&str]) -> (Env, OracleContract, Vec<Address>) {
    let env = Env::default();
    let mut oracle = OracleContract::initialize(address("GADMIN"));
    let mut pubs = Vec::new();
    for name in names {
        let p = address(name);
        oracle.add_publisher(p.clone()).unwrap();
        pubs.push(p);
    }
    (env, oracle, pubs)
}

fn submit(
    env: &Env,
    oracle: &mut OracleContract,
    publisher: &Address,
    asset: &str,
    price: i128,
    timestamp: u64,
) -> Result<PriceUpdated, OracleError> {
    let asset = bytes(asset);
    assert!(oracle.submission_fits(env, publisher, &asset, price, timestamp));
    oracle.submit_price(env, publisher, &asset, price, timestamp)
}

fn feed(oracle: &OracleContract, asset: &str) -> FeedData {
    oracle.get_price(&bytes(asset)).ok().expect("feed")
}

fn names(addresses: &[Address]) -> Vec<String> {
    addresses.iter().map(|a| a.strkey.clone()).collect()
}

#[test]
fn majority_resists_outliers() {
    let (env, mut oracle, pubs) = oracle_with(&["GA", "GB", "GC", "GD", "GE"]);
    let prices = [100, 1_000_000, 101, -5, 102];
    for (p, price) in pubs.iter().zip(prices.iter()) {
        submit(&env, &mut oracle, p, "XLM/USD", *price, 10).unwrap();
    }
    let f = feed(&oracle, "XLM/USD");
    assert_eq!(f.price, 101);
    assert_eq!(f.num_sources, 5);
}

#[test]
fn even_median_rounds_toward_zero() {
    let (env, mut oracle, pubs) = oracle_with(&["GA", "GB"]);
    submit(&env, &mut oracle, &pubs[0], "N/A", -3, 1).unwrap();
    submit(&env, &mut oracle, &pubs[1], "N/A", -4, 1).unwrap();
    assert_eq!(feed(&oracle, "N/A").price, -3);
    submit(&env, &mut oracle, &pubs[1], "N/A", 4, 1).unwrap();
    // (-3 + 4) / 2 rounds toward zero
    assert_eq!(feed(&oracle, "N/A").price, 0);
}

#[test]
fn breaker_boundary_in_basis_points() {
    let (env, mut oracle, pubs) = oracle_with(&["GA", "GB"]);
    oracle.set_max_deviation_bps(1000);
    submit(&env, &mut oracle, &pubs[0], "XLM/USD", 1_000_0000, 1).unwrap();
    // exactly 10%
    submit(&env, &mut oracle, &pubs[1], "XLM/USD", 1_100_0000, 1).unwrap();
    assert_eq!(feed(&oracle, "XLM/USD").price, 1_050_0000);
    // 10.01% from the median 1.05 is refused, 9.5% is not
    let r = submit(&env, &mut oracle, &pubs[1], "XLM/USD", 1_155_1051, 2);
    assert!(matches!(r, Err(OracleError::PriceDeviationExceeded)));
    submit(&env, &mut oracle, &pubs[1], "XLM/USD", 1_149_7500, 2).unwrap();
}

#[test]
fn breaker_skips_non_positive_median() {
    let (env, mut oracle, pubs) = oracle_with(&["GA", "GB"]);
    oracle.set_max_deviation_bps(1);
    submit(&env, &mut oracle, &pubs[0], "ODD", -10, 1).unwrap();
    submit(&env, &mut oracle, &pubs[1], "ODD", 1_000_000, 1).unwrap();
    assert_eq!(feed(&oracle, "ODD").num_sources, 2);
}

#[test]
fn breaker_on_new_asset_has_nothing_to_compare() {
    let (env, mut oracle, pubs) = oracle_with(&["GA"]);
    oracle.set_max_deviation_bps(1);
    submit(&env, &mut oracle, &pubs[0], "NEW", 123, 1).unwrap();
    assert_eq!(feed(&oracle, "NEW").price, 123);
}

#[test]
fn remove_unknown_publisher_is_refused() {
    let (_, mut oracle, _) = oracle_with(&["GA"]);
    assert_eq!(oracle.remove_publisher(&address("GZ")), Err(OracleError::PublisherNotFound));
    assert_eq!(oracle.get_publisher_count(), 1);
}

#[test]
fn missing_feed_is_refused() {
    let (_, oracle, _) = oracle_with(&[]);
    assert!(matches!(oracle.get_price(&bytes("XLM/USD")), Err(OracleError::FeedNotFound)));
    assert!(matches!(
        oracle.get_price_fresh(&bytes("XLM/USD"), 60, 0),
        Err(OracleError::FeedNotFound)
    ));
}

#[test]
fn assets_listed_in_key_order() {
    let (env, mut oracle, pubs) = oracle_with(&["GA"]);
    for asset in ["XLM/USD", "BTC/USD", "ETH/USD", "ABC", "AB", "B"] {
        submit(&env, &mut oracle, &pubs[0], asset, 1, 1).unwrap();
    }
    submit(&env, &mut oracle, &pubs[0], "BTC/USD", 2, 2).unwrap();
    assert_eq!(
        oracle.get_assets(),
        ["AB", "ABC", "B", "BTC/USD", "ETH/USD", "XLM/USD"].map(bytes).to_vec()
    );
}

#[test]
fn removed_publisher_no_longer_counts() {
    let (env, mut oracle, pubs) = oracle_with(&["GA", "GB"]);
    submit(&env, &mut oracle, &pubs[0], "XLM/USD", 10, 1).unwrap();
    submit(&env, &mut oracle, &pubs[1], "XLM/USD", 30, 1).unwrap();
    assert_eq!(feed(&oracle, "XLM/USD").price, 20);
    oracle.remove_publisher(&pubs[1]).unwrap();
    let r = submit(&env, &mut oracle, &pubs[1], "XLM/USD", 30, 2);
    assert!(matches!(r, Err(OracleError::Unauthorized)));
    submit(&env, &mut oracle, &pubs[0], "XLM/USD", 12, 3).unwrap();
    let f = feed(&oracle, "XLM/USD");
    assert_eq!(f.price, 12);
    assert_eq!(f.num_sources, 1);
}

#[test]
fn feed_time_is_latest_entry() {
    let (env, mut oracle, pubs) = oracle_with(&["GA", "GB"]);
    submit(&env, &mut oracle, &pubs[0], "XLM/USD", 10, 2_000).unwrap();
    submit(&env, &mut oracle, &pubs[1], "XLM/USD", 10, 1_000).unwrap();
    assert_eq!(feed(&oracle, "XLM/USD").timestamp, 2_000);
}

#[test]
fn freshness_window() {
    let (env, mut oracle, pubs) = oracle_with(&["GA"]);
    submit(&env, &mut oracle, &pubs[0], "XLM/USD", 10, 1_000).unwrap();
    let asset = bytes("XLM/USD");
    // exactly at the limit, and a feed stamped later than now
    assert!(oracle.get_price_fresh(&asset, 60, 1_060).is_ok());
    assert!(oracle.get_price_fresh(&asset, 0, 500).is_ok());
    assert!(matches!(oracle.get_price_fresh(&asset, 60, 1_061), Err(OracleError::StalePrice)));
}

#[test]
fn resubmission_replaces_entry() {
    let (env, mut oracle, pubs) = oracle_with(&["GA"]);
    submit(&env, &mut oracle, &pubs[0], "XLM/USD", 10, 1).unwrap();
    submit(&env, &mut oracle, &pubs[0], "XLM/USD", 14, 2).unwrap();
    let f = feed(&oracle, "XLM/USD");
    assert_eq!((f.price, f.timestamp, f.num_sources), (14, 2, 1));
}

#[test]
fn other_assets_untouched() {
    let (env, mut oracle, pubs) = oracle_with(&["GA", "GB"]);
    submit(&env, &mut oracle, &pubs[0], "XLM/USD", 10, 1).unwrap();
    submit(&env, &mut oracle, &pubs[1], "BTC/USD", 99, 5).unwrap();
    let f = feed(&oracle, "XLM/USD");
    assert_eq!((f.price, f.timestamp, f.num_sources), (10, 1, 1));
}

#[test]
fn add_then_remove_restores_list() {
    let (_, mut oracle, _) = oracle_with(&["GA", "GB"]);
    oracle.add_publisher(address("GC")).unwrap();
    assert_eq!(names(&oracle.get_publishers()), vec!["GA", "GB", "GC"]);
    oracle.remove_publisher(&address("GC")).unwrap();
    assert_eq!(names(&oracle.get_publishers()), vec!["GA", "GB"]);
}

#[test]
fn remove_keeps_order() {
    let (_, mut oracle, _) = oracle_with(&["GA", "GB", "GC"]);
    oracle.remove_publisher(&address("GB")).unwrap();
    assert_eq!(names(&oracle.get_publishers()), vec!["GA", "GC"]);
}

#[test]
fn admin_transfer() {
    let (_, mut oracle, _) = oracle_with(&[]);
    assert_eq!(oracle.admin().strkey, "GADMIN");
    oracle.set_admin(address("GNEW"));
    assert_eq!(oracle.admin().strkey, "GNEW");
}

#[test]
fn aggregate_without_prices_keeps_state() {
    let (env, mut oracle, _) = oracle_with(&["GA"]);
    assert!(oracle.aggregate(&env, &bytes("XLM/USD")).is_none());
    assert_eq!(oracle.get_assets().len(), 0);
}

#[test]
fn overflowing_submissions_are_detected() {
    let (env, mut oracle, pubs) = oracle_with(&["GA", "GB"]);
    let asset = bytes("BIG");
    submit(&env, &mut oracle, &pubs[0], "BIG", i128::MAX, 1).unwrap();
    // the two middle prices would be added past i128::MAX
    assert!(!oracle.submission_fits(&env, &pubs[1], &asset, i128::MAX, 1));
    assert!(oracle.submission_fits(&env, &pubs[1], &asset, 0, 1));
    // the deviation check would overflow
    oracle.set_max_deviation_bps(1);
    assert!(!oracle.submission_fits(&env, &pubs[1], &asset, i128::MIN, 1));
    // nothing overflows for a stranger, who is refused
    assert!(oracle.submission_fits(&env, &address("GZ"), &asset, i128::MIN, 1));
}

#[test]
fn restore_round_trip() {
    let (env, mut oracle, pubs) = oracle_with(&["GA", "GB"]);
    oracle.set_max_deviation_bps(700);
    submit(&env, &mut oracle, &pubs[0], "XLM/USD", 10, 1).unwrap();
    submit(&env, &mut oracle, &pubs[0], "BTC/USD", 20, 1).unwrap();
    let feeds: Vec<FeedData> = oracle.feed_table().iter().map(|f| f.clone()).collect();
    let entries = vec![(
        bytes("XLM/USD"),
        PriceEntry { price: 10, timestamp: 1, publisher: pubs[0].clone() },
    )];
    let mut restored = OracleContract::restore(
        oracle.admin().clone(),
        oracle.get_publishers(),
        oracle.get_max_deviation_bps(),
        feeds,
        entries,
    )
    .expect("valid parts");
    assert_eq!(restored.get_assets(), ["BTC/USD", "XLM/USD"].map(bytes).to_vec());
    assert_eq!(restored.get_max_deviation_bps(), 700);
    submit(&env, &mut restored, &pubs[1], "XLM/USD", 10, 3).unwrap();
    let f = feed(&restored, "XLM/USD");
    assert_eq!((f.price, f.timestamp, f.num_sources), (10, 3, 2));
}

#[test]
fn restore_refuses_invalid_parts() {
    let feed_of = |asset: &str| FeedData {
        asset: bytes(asset),
        price: 1,
        timestamp: 1,
        num_sources: 1,
    };
    let entry = |asset: &str| {
        (bytes(asset), PriceEntry { price: 1, timestamp: 1, publisher: address("GA") })
    };
    let twice = vec![address("GA"), address("GA")];
    assert!(OracleContract::restore(address("GX"), twice, 0, vec![], vec![]).is_none());
    let unordered = vec![feed_of("XLM/USD"), feed_of("BTC/USD")];
    assert!(OracleContract::restore(address("GX"), vec![], 0, unordered, vec![]).is_none());
    let repeated = vec![feed_of("BTC/USD"), feed_of("BTC/USD")];
    assert!(OracleContract::restore(address("GX"), vec![], 0, repeated, vec![]).is_none());
    let same_key = vec![entry("XLM/USD"), entry("XLM/USD")];
    assert!(OracleContract::restore(address("GX"), vec![], 0, vec![], same_key).is_none());
    let fine = vec![entry("XLM/USD"), entry("BTC/USD")];
    assert!(OracleContract::restore(address("GX"), vec![], 0, vec![], fine).is_some());
}

#[test]
fn error_codes() {
    let all = [
        OracleError::Unauthorized,
        OracleError::FeedNotFound,
        OracleError::StalePrice,
        OracleError::InsufficientSources,
        OracleError::PublisherAlreadyExists,
        OracleError::PublisherNotFound,
        OracleError::PriceDeviationExceeded,
    ];
    let codes: Vec<u32> = all.iter().map(|e| e.code()).collect();
    assert_eq!(codes, vec![1, 2, 3, 4, 5, 6, 7]);
}

#[test]
fn byte_order() {
    assert_eq!(compare_bytes(b"AB", b"ABC"), KeyOrder::Less);
    assert_eq!(compare_bytes(b"B", b"ABC"), KeyOrder::Greater);
    assert_eq!(compare_bytes(b"XLM", b"XLM"), KeyOrder::Equal);
    assert_eq!(compare_bytes(b"", b"A"), KeyOrder::Less);
    assert_eq!(compare_bytes(b"a", b"B"), KeyOrder::Greater);
}

#[test]
fn publisher_order_irrelevant() {
    let (env, mut first, pubs) = oracle_with(&["GA", "GB", "GC", "GD"]);
    let (_, mut second, _) = oracle_with(&["GD", "GB", "GA", "GC"]);
    let prices = [(0, 40, 7), (1, 10, 9), (2, 30, 8), (3, 20, 6)];
    for (k, price, time) in prices {
        submit(&env, &mut first, &pubs[k], "XLM/USD", price, time).unwrap();
    }
    for (k, price, time) in prices.iter().rev() {
        submit(&env, &mut second, &pubs[*k], "XLM/USD", *price, *time).unwrap();
    }
    let a = feed(&first, "XLM/USD");
    let b = feed(&second, "XLM/USD");
    assert_eq!((a.price, a.timestamp, a.num_sources), (25, 9, 4));
    assert_eq!((b.price, b.timestamp, b.num_sources), (25, 9, 4));
}

#[test]
fn raising_a_price_never_lowers_the_feed() {
    let (env, mut oracle, pubs) = oracle_with(&["GA", "GB", "GC", "GD"]);
    for (p, price) in pubs.iter().zip([10, 40, 20, 30]) {
        submit(&env, &mut oracle, p, "XLM/USD", price, 1).unwrap();
    }
    assert_eq!(feed(&oracle, "XLM/USD").price, 25);
    submit(&env, &mut oracle, &pubs[0], "XLM/USD", 35, 2).unwrap();
    assert_eq!(feed(&oracle, "XLM/USD").price, 32);
    submit(&env, &mut oracle, &pubs[1], "XLM/USD", 1_000, 3).unwrap();
    assert_eq!(feed(&oracle, "XLM/USD").price, 32);
}

#[test]
fn asset_names_are_any_bytes() {
    let (env, mut oracle, pubs) = oracle_with(&["GA"]);
    let odd = vec![0xff, 0x00, b'X'];
    assert!(oracle.submission_fits(&env, &pubs[0], &odd, 5, 1));
    let event = oracle.submit_price(&env, &pubs[0], &odd, 5, 1).ok().unwrap();
    assert_eq!(event.asset, odd);
    assert_eq!(oracle.get_price(&odd).ok().unwrap().price, 5);
    assert_eq!(oracle.get_assets(), vec![odd]);
}
