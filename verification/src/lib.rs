use vstd::prelude::*;

pub mod blockchain;
pub mod codec;
pub mod crypto;
pub mod error;
pub mod network;
pub mod node;
pub mod wallet;
pub mod sha256;
pub mod types;
pub mod u256;
pub mod util;

verus! {

/// Initial block reward, in whole coins.
pub const INITIAL_REWARD: u64 = 50;

/// Number of blocks between reward halvings.
pub const HALVING_INTERVAL: u64 = 210;

/// Intended seconds between consecutive blocks.
pub const IDEAL_BLOCK_TIME: u64 = 10;

/// Number of blocks between difficulty adjustments.
pub const DIFFICULTY_UPDATE_INTERVAL: u64 = 50;

/// Seconds a transaction may sit in the mempool before cleanup evicts it.
pub const MAX_MEMPOOL_TRANSACTION_AGE: u64 = 600;

/// Maximum number of transactions in a block, coinbase included.
pub const BLOCK_TRANSACTION_CAP: usize = 20;

} // verus!
