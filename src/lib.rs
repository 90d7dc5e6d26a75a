//! Settlement core of a decentralized exchange: a multi-asset balance
//! ledger, an order book with automatic pairwise matching, and the
//! deposit / withdrawal steps that move custody in and out of the ledger.

pub mod account;
pub mod balances;
pub mod types;
pub mod book;
pub mod exchange;
pub mod bridge;
pub mod laws;
pub mod nft;
pub mod rates;
