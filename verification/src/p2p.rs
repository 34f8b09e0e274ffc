//! The messages that nodes exchange.
use vstd::prelude::*;
use crate::block::Block;
use crate::transaction::Transaction;

verus! {

/// A message between nodes: a newly mined block, or a newly signed transaction.
#[derive(Debug, Clone, PartialEq)]
pub enum P2PMessage {
    NewBlock(Block),
    NewTransaction(Transaction),
}

} // verus!
