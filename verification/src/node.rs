//! The state a full node keeps.

use crate::blockchain::BlockChain;
use crate::utxo::{Transaction, UTXO};
use vstd::prelude::*;

verus! {

/// A node: its chain, the transactions waiting to be mined, its ledger and
/// the difficulty the network asks for.
#[derive(Debug)]
pub struct Node {
    blockchain: BlockChain,
    mempool: Vec<Transaction>,
    utxo: UTXO,
    network_difficulty: usize,
}

} // verus!
