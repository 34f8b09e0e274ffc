//! A small proof-of-work blockchain: blocks, signed transactions, a
//! transaction pool and a miner, with their rules stated and proved.
use vstd::prelude::*;

pub mod address_map;
pub mod block;
pub mod crypto;
pub mod encoding;
pub mod ledger;
pub mod mempool;
pub mod merkle;
pub mod p2p;
pub mod transaction;

verus! {

/// The sender address of the reward transaction that opens every block.
pub const COINBASE_ADDR: &'static str = "COINBASE";

/// The reward for mining a block, before fees.
pub const REWARD: u64 = 50;

/// The time, in seconds, that a block is meant to take.
pub const INIT_TARGET_TIME: u64 = 2;

/// How many blocks pass between two difficulty adjustments.
pub const INIT_ADJ_INTERVAL: u32 = 4;

} // verus!
