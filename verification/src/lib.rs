pub mod contract;
pub mod feeds;
pub mod host;
pub mod keyed;
pub mod laws;
pub mod median;
pub mod order;
pub mod types;
