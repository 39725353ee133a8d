//! The values the oracle keeps and hands out.
use vstd::prelude::*;

verus! {

/// An account or contract address, held as its strkey text (`G...`, `C...`).
pub struct Address {
    pub strkey: String,
}

impl View for Address {
    type V = Seq<char>;

    open spec fn view(&self) -> Seq<char> {
        self.strkey@
    }
}

impl Address {
    pub fn new(strkey: String) -> (a: Address)
        ensures
            a@ == strkey@,
    {
        Address { strkey }
    }

    /// Whether both name the same address.
    pub fn same_as(&self, other: &Address) -> (b: bool)
        ensures
            b == (self@ == other@),
    {
        self.strkey == other.strkey
    }
}

impl Clone for Address {
    fn clone(&self) -> (c: Self)
        ensures
            c@ == self@,
    {
        Address { strkey: self.strkey.clone() }
    }
}

/// A copy of a byte string.
pub fn copy_bytes(v: &Vec<u8>) -> (copy: Vec<u8>)
    ensures
        copy@ == v@,
{
    let mut copy: Vec<u8> = Vec::new();
    let mut i: usize = 0;
    while i < v.len()
        invariant
            i <= v.len(),
            copy@ == v@.take(i as int),
        decreases v.len() - i,
    {
        copy.push(v[i]);
        assert(v@.take(i + 1) =~= v@.take(i as int).push(v@[i as int]));
        i = i + 1;
    }
    assert(v@.take(v.len() as int) =~= v@);
    copy
}

/// What a price entry means: the price, when it was taken, and who sent it.
pub struct EntryView {
    pub price: i128,
    pub timestamp: u64,
    pub publisher: Seq<char>,
}

/// A single price entry submitted by a publisher.
pub struct PriceEntry {
    /// Price scaled by 1e7 (1 XLM = 1_0000000).
    pub price: i128,
    /// Unix timestamp, in seconds.
    pub timestamp: u64,
    pub publisher: Address,
}

impl View for PriceEntry {
    type V = EntryView;

    open spec fn view(&self) -> EntryView {
        EntryView { price: self.price, timestamp: self.timestamp, publisher: self.publisher@ }
    }
}

impl Clone for PriceEntry {
    fn clone(&self) -> (c: Self)
        ensures
            c@ == self@,
    {
        PriceEntry {
            price: self.price,
            timestamp: self.timestamp,
            publisher: self.publisher.clone(),
        }
    }
}

/// What an aggregated feed means: the asset pair, its median price, the time
/// of its latest entry, and how many publishers contributed.
pub struct FeedView {
    pub asset: Seq<u8>,
    pub price: i128,
    pub timestamp: u64,
    pub num_sources: u32,
}

/// Aggregated feed data of one asset pair.
pub struct FeedData {
    /// The asset pair, such as `XLM/USD`, as the bytes of its ledger string.
    pub asset: Vec<u8>,
    /// Median price, scaled by 1e7.
    pub price: i128,
    /// Timestamp of the latest entry.
    pub timestamp: u64,
    /// How many publishers contributed.
    pub num_sources: u32,
}

impl View for FeedData {
    type V = FeedView;

    open spec fn view(&self) -> FeedView {
        FeedView {
            asset: self.asset@,
            price: self.price,
            timestamp: self.timestamp,
            num_sources: self.num_sources,
        }
    }
}

impl Clone for FeedData {
    fn clone(&self) -> (c: Self)
        ensures
            c@ == self@,
    {
        FeedData {
            asset: copy_bytes(&self.asset),
            price: self.price,
            timestamp: self.timestamp,
            num_sources: self.num_sources,
        }
    }
}

/// The event that a price submission publishes: the asset pair and its new feed.
pub struct PriceUpdated {
    pub asset: Vec<u8>,
    pub price: i128,
    pub timestamp: u64,
    pub num_sources: u32,
}

impl View for PriceUpdated {
    type V = FeedView;

    open spec fn view(&self) -> FeedView {
        FeedView {
            asset: self.asset@,
            price: self.price,
            timestamp: self.timestamp,
            num_sources: self.num_sources,
        }
    }
}

/// Why a request was refused.
#[derive(PartialEq, Eq, Structural, Debug, Clone, Copy)]
pub enum OracleError {
    Unauthorized,
    FeedNotFound,
    StalePrice,
    InsufficientSources,
    PublisherAlreadyExists,
    PublisherNotFound,
    PriceDeviationExceeded,
}

/// The number under which each error is published.
pub open spec fn error_code(e: OracleError) -> u32 {
    match e {
        OracleError::Unauthorized => 1,
        OracleError::FeedNotFound => 2,
        OracleError::StalePrice => 3,
        OracleError::InsufficientSources => 4,
        OracleError::PublisherAlreadyExists => 5,
        OracleError::PublisherNotFound => 6,
        OracleError::PriceDeviationExceeded => 7,
    }
}

impl OracleError {
    /// The number under which this error is published.
    pub fn code(&self) -> (c: u32)
        ensures
            c == error_code(*self),
    {
        match self {
            OracleError::Unauthorized => 1,
            OracleError::FeedNotFound => 2,
            OracleError::StalePrice => 3,
            OracleError::InsufficientSources => 4,
            OracleError::PublisherAlreadyExists => 5,
            OracleError::PublisherNotFound => 6,
            OracleError::PriceDeviationExceeded => 7,
        }
    }
}

} // verus!
