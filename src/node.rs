use vstd::prelude::*;

use crate::cache::TxResult;
use crate::chain::{BlockChainTip, BlockHash, OutPoint, Txid};

verus! {

/// An entry of the node's "list since block" answer: a wallet output and the
/// descriptors, in their string form, whose scripts it pays to.
#[derive(Debug, Clone)]
pub struct LSBlockEntry {
    pub outpoint: OutPoint,
    pub amount: u64,
    pub block_height: Option<i32>,
    pub address: String,
    pub parent_descs: Vec<String>,
}

/// The node's statistics on one block. `confirmations` is -1 for a block that
/// is not part of the node's best chain.
#[derive(Debug, Clone, Copy)]
pub struct BlockStats {
    pub confirmations: i32,
    pub previous_blockhash: Option<BlockHash>,
    pub blockhash: BlockHash,
    pub height: i32,
    pub time: u32,
}

/// Why the node did not take a transaction for broadcast.
#[derive(Debug, Clone)]
pub enum RpcError {
    /// The node answered and refused the transaction.
    Server(String),
    /// The node could not be reached or answered outside its protocol.
    Transport(String),
}

/// The primitive queries to the full node, one request and one response
/// each. Nothing is assumed of the answers: two identical queries may be
/// answered differently.
pub trait BitcoindRpc {
    fn get_block_hash(&self, height: i32) -> Option<BlockHash>;

    fn chain_tip(&self) -> BlockChainTip;

    fn list_since_block(&self, hash: &BlockHash) -> Vec<LSBlockEntry>;

    fn get_transaction(&self, txid: &Txid) -> Option<TxResult>;

    fn is_in_mempool(&self, txid: &Txid) -> bool;

    fn is_spent(&self, op: &OutPoint) -> bool;

    fn get_spender_txid(&self, op: &OutPoint) -> Option<Txid>;

    fn get_block_stats(&self, hash: &BlockHash) -> BlockStats;

    fn broadcast_tx(&self, tx: &Vec<u8>) -> Result<(), RpcError>;

    fn start_rescan(&self, desc: &String, timestamp: u32) -> Result<(), String>;

    fn tip_before_timestamp(&self, timestamp: u32) -> Option<BlockChainTip>;
}

} // verus!
