use oracle_core::contract::OracleContract;
use oracle_core::types::{Address, FeedData, OracleError, PriceEntry, PriceUpdated};
use soroban_sdk::Env;

fn bytes(text: &str) -> Vec<u8> {
    text.as_bytes().to_vec()
}

fn address(name: &str) -> Address {
    Address::new(String::from(name))
}

fn setup() -> (Env, OracleContract) {
    let env = Env::default();
    let oracle = OracleContract::initialize(address("GADMIN"));
    (env, oracle)
}

/// Submits as a caller of the library must: only what stays within `i128`.
fn submit(
    env: &Env,
    oracle: &mut OracleContract,
    publisher: &Address,
    asset: &str,
    price: i128,
    timestamp: u64,
) -> Result<PriceUpdated, OracleError> {
    let asset = bytes(asset);
    assert!(oracle.submission_fits(env, publisher, &asset, price, timestamp));
    oracle.submit_price(env, publisher, &asset, price, timestamp)
}

fn price_of(oracle: &OracleContract, asset: &str) -> FeedData {
    match oracle.get_price(&bytes(asset)) {
        Ok(feed) => feed,
        Err(e) => panic!("no feed: {:?}", e),
    }
}

#[test]
fn test_initialize() {
    let (_, oracle) = setup();
    assert_eq!(oracle.get_publishers().len(), 0);
}

#[test]
fn test_get_publisher_count() {
    let (_, mut oracle) = setup();
    assert_eq!(oracle.get_publisher_count(), 0);
    let pub1 = address("GPUB1");
    let pub2 = address("GPUB2");
    oracle.add_publisher(pub1.clone()).unwrap();
    assert_eq!(oracle.get_publisher_count(), 1);
    oracle.add_publisher(pub2.clone()).unwrap();
    assert_eq!(oracle.get_publisher_count(), 2);
    oracle.remove_publisher(&pub1).unwrap();
    assert_eq!(oracle.get_publisher_count(), 1);
}

#[test]
fn test_add_remove_publisher() {
    let (_, mut oracle) = setup();
    let pub1 = address("GPUB1");
    oracle.add_publisher(pub1.clone()).unwrap();
    assert_eq!(oracle.get_publishers().len(), 1);
    oracle.remove_publisher(&pub1).unwrap();
    assert_eq!(oracle.get_publishers().len(), 0);
}

#[test]
fn test_duplicate_publisher() {
    let (_, mut oracle) = setup();
    let pub1 = address("GPUB1");
    oracle.add_publisher(pub1.clone()).unwrap();
    assert_eq!(oracle.add_publisher(pub1.clone()), Err(OracleError::PublisherAlreadyExists));
    assert_eq!(oracle.get_publisher_count(), 1);
}

#[test]
fn test_single_publisher_price() {
    let (env, mut oracle) = setup();
    let pub1 = address("GPUB1");
    oracle.add_publisher(pub1.clone()).unwrap();

    submit(&env, &mut oracle, &pub1, "XLM/USD", 1_200_0000, 1_000_000).unwrap();

    let feed = price_of(&oracle, "XLM/USD");
    assert_eq!(feed.price, 1_200_0000);
    assert_eq!(feed.num_sources, 1);
}

#[test]
fn test_median_three_publishers() {
    let (env, mut oracle) = setup();
    let pub1 = address("GPUB1");
    let pub2 = address("GPUB2");
    let pub3 = address("GPUB3");
    oracle.add_publisher(pub1.clone()).unwrap();
    oracle.add_publisher(pub2.clone()).unwrap();
    oracle.add_publisher(pub3.clone()).unwrap();

    // prices: 1.0, 1.2, 1.4 -> median = 1.2
    submit(&env, &mut oracle, &pub1, "XLM/USD", 1_000_0000, 1_000_000).unwrap();
    submit(&env, &mut oracle, &pub2, "XLM/USD", 1_200_0000, 1_000_000).unwrap();
    submit(&env, &mut oracle, &pub3, "XLM/USD", 1_400_0000, 1_000_000).unwrap();

    let feed = price_of(&oracle, "XLM/USD");
    assert_eq!(feed.price, 1_200_0000);
    assert_eq!(feed.num_sources, 3);
}

#[test]
fn test_median_even_publishers() {
    let (env, mut oracle) = setup();
    let pub1 = address("GPUB1");
    let pub2 = address("GPUB2");
    oracle.add_publisher(pub1.clone()).unwrap();
    oracle.add_publisher(pub2.clone()).unwrap();

    // prices: 60000, 62000 -> median = 61000
    submit(&env, &mut oracle, &pub1, "BTC/USD", 60_000_0000000, 1_000_000).unwrap();
    submit(&env, &mut oracle, &pub2, "BTC/USD", 62_000_0000000, 1_000_000).unwrap();

    let feed = price_of(&oracle, "BTC/USD");
    assert_eq!(feed.price, 61_000_0000000);
}

#[test]
fn test_get_price_fresh_passes() {
    let (env, mut oracle) = setup();
    let pub1 = address("GPUB1");
    oracle.add_publisher(pub1.clone()).unwrap();

    submit(&env, &mut oracle, &pub1, "XLM/USD", 1_200_0000, 1_000_000).unwrap();

    let feed = oracle.get_price_fresh(&bytes("XLM/USD"), 60, 1_000_000).unwrap();
    assert_eq!(feed.price, 1_200_0000);
}

#[test]
fn test_get_price_fresh_stale() {
    let (env, mut oracle) = setup();
    let pub1 = address("GPUB1");
    oracle.add_publisher(pub1.clone()).unwrap();

    submit(&env, &mut oracle, &pub1, "XLM/USD", 1_200_0000, 1_000_000).unwrap();

    let fresh = oracle.get_price_fresh(&bytes("XLM/USD"), 60, 1_000_120);
    assert!(matches!(fresh, Err(OracleError::StalePrice)));
}

#[test]
fn test_unauthorized_publisher_submit() {
    let (env, mut oracle) = setup();
    let rogue = address("GROGUE");
    let r = submit(&env, &mut oracle, &rogue, "XLM/USD", 1_200_0000, 1_000_000);
    assert!(matches!(r, Err(OracleError::Unauthorized)));
    assert_eq!(oracle.get_assets().len(), 0);
}

#[test]
fn test_multiple_assets() {
    let (env, mut oracle) = setup();
    let pub1 = address("GPUB1");
    oracle.add_publisher(pub1.clone()).unwrap();

    submit(&env, &mut oracle, &pub1, "XLM/USD", 1_200_0000, 1_000_000).unwrap();
    submit(&env, &mut oracle, &pub1, "BTC/USD", 60_000_0000000, 1_000_000).unwrap();

    assert_eq!(oracle.get_assets().len(), 2);
}

#[test]
fn test_price_updated_event_emitted() {
    let (env, mut oracle) = setup();
    let pub1 = address("GPUB1");
    oracle.add_publisher(pub1.clone()).unwrap();

    // No feed before submission
    assert_eq!(oracle.get_assets().len(), 0);

    let event = submit(&env, &mut oracle, &pub1, "XLM/USD", 1_200_0000, 1_000_000).unwrap();

    // The submission yields the event to publish
    assert_eq!(event.asset, b"XLM/USD".to_vec());
    assert_eq!(event.price, 1_200_0000);
    assert_eq!(event.timestamp, 1_000_000);
    assert_eq!(event.num_sources, 1);
}

#[test]
fn test_circuit_breaker_allows_within_deviation() {
    let (env, mut oracle) = setup();
    let pub1 = address("GPUB1");
    let pub2 = address("GPUB2");
    oracle.add_publisher(pub1.clone()).unwrap();
    oracle.add_publisher(pub2.clone()).unwrap();
    // 10% max deviation
    oracle.set_max_deviation_bps(1000);

    // Establish baseline median = 1.0
    submit(&env, &mut oracle, &pub1, "XLM/USD", 1_000_0000, 1_000_000).unwrap();
    // 5% deviation - should pass
    submit(&env, &mut oracle, &pub2, "XLM/USD", 1_050_0000, 1_000_000).unwrap();

    let feed = price_of(&oracle, "XLM/USD");
    assert_eq!(feed.num_sources, 2);
}

#[test]
fn test_circuit_breaker_rejects_excessive_deviation() {
    let (env, mut oracle) = setup();
    let pub1 = address("GPUB1");
    let pub2 = address("GPUB2");
    oracle.add_publisher(pub1.clone()).unwrap();
    oracle.add_publisher(pub2.clone()).unwrap();
    // 10% max deviation
    oracle.set_max_deviation_bps(1000);

    // Establish baseline median = 1.0
    submit(&env, &mut oracle, &pub1, "XLM/USD", 1_000_0000, 1_000_000).unwrap();
    // 50% deviation - should be rejected
    let r = submit(&env, &mut oracle, &pub2, "XLM/USD", 1_500_0000, 1_000_000);
    assert!(matches!(r, Err(OracleError::PriceDeviationExceeded)));
    assert_eq!(price_of(&oracle, "XLM/USD").num_sources, 1);
}

#[test]
fn test_circuit_breaker_disabled_by_default() {
    let (env, mut oracle) = setup();
    let pub1 = address("GPUB1");
    let pub2 = address("GPUB2");
    oracle.add_publisher(pub1.clone()).unwrap();
    oracle.add_publisher(pub2.clone()).unwrap();
    // No set_max_deviation_bps call - defaults to 0 (disabled)

    submit(&env, &mut oracle, &pub1, "XLM/USD", 1_000_0000, 1_000_000).unwrap();
    // 10x deviation - allowed because circuit breaker is off
    submit(&env, &mut oracle, &pub2, "XLM/USD", 10_000_0000, 1_000_000).unwrap();

    let feed = price_of(&oracle, "XLM/USD");
    assert_eq!(feed.num_sources, 2);
}

#[test]
fn test_get_max_deviation_bps() {
    let (_, mut oracle) = setup();
    assert_eq!(oracle.get_max_deviation_bps(), 0);
    oracle.set_max_deviation_bps(500);
    assert_eq!(oracle.get_max_deviation_bps(), 500);
}
