use vstd::prelude::*;

use crate::bitcoind::{
    broadcast_outcome, classify_confirmations, detect_spends, filter_received,
    find_common_ancestor, genesis_tip, lemma_no_descriptor_receives, is_candidate, lemma_confirmed_from_member,
    lemma_spent_from_member, resolve_spends, tip_in_chain, BroadcastError,
};
use crate::cache::CachedTxGetter;
use crate::chain::{contains_outpoint, Block, BlockChainTip, OutPoint, Txid, UTxO};
use crate::node::{BitcoindRpc, BlockStats};

verus! {

/// Everything the reconciliation asks of the Bitcoin backend. The contracts
/// hold whatever the node answers.
pub trait BitcoinInterface {
    /// The genesis tip; `None` only if the backend is misconfigured.
    fn genesis_block(&self) -> (r: Option<BlockChainTip>)
        ensures
            r matches Some(g) ==> g.height == 0,
    ;

    /// The best block.
    fn chain_tip(&self) -> BlockChainTip;

    /// The timestamp in the best block's header.
    fn tip_time(&self) -> u32;

    /// Whether this former tip is still part of the best chain.
    fn is_in_chain(&self, tip: &BlockChainTip) -> bool;

    /// The wallet's coins received since `tip`, restricted to `descs`.
    fn received_coins(&self, tip: &BlockChainTip, descs: &Vec<String>) -> (r: Vec<UTxO>)
        ensures
            descs@.len() == 0 ==> r@.len() == 0,
    ;

    /// The coins of `outpoints` that were confirmed, with height and time,
    /// and those whose unconfirmed creating transaction left the mempool.
    fn confirmed_coins(&self, outpoints: &Vec<OutPoint>) -> (r: (
        Vec<(OutPoint, i32, u32)>,
        Vec<OutPoint>,
    ))
        ensures
            forall|k: int|
                0 <= k < r.0@.len() ==> contains_outpoint(outpoints@, (#[trigger] r.0@[k]).0),
            forall|k: int| 0 <= k < r.1@.len() ==> contains_outpoint(outpoints@, #[trigger] r.1@[k]),
            forall|k: int, l: int|
                0 <= k < r.0@.len() && 0 <= l < r.1@.len() ==> (#[trigger] r.0@[k]).0
                    != #[trigger] r.1@[l],
    ;

    /// The coins of `outpoints` being spent, with the spending txid.
    fn spending_coins(&self, outpoints: &Vec<OutPoint>) -> (r: Vec<(OutPoint, Txid)>)
        ensures
            forall|k: int| 0 <= k < r@.len() ==> contains_outpoint(outpoints@, (#[trigger] r@[k]).0),
    ;

    /// The coins of `outpoints` whose spend is confirmed, with the txid of
    /// the spend that confirmed and its block.
    fn spent_coins(&self, outpoints: &Vec<(OutPoint, Txid)>) -> (r: Vec<(OutPoint, Txid, Block)>)
        ensures
            forall|k: int| 0 <= k < r@.len() ==> is_candidate(outpoints@, (#[trigger] r@[k]).0),
    ;

    /// The most recent block of the best chain that `tip` descends from.
    fn common_ancestor(&self, tip: &BlockChainTip) -> (r: Option<BlockChainTip>)
        ensures
            r matches Some(a) ==> a.height <= tip.height,
    ;

    /// Broadcast this consensus-serialized transaction.
    fn broadcast_tx(&self, tx: &Vec<u8>) -> Result<(), BroadcastError>;

    /// Have the backend rescan the chain for this descriptor from `timestamp`.
    fn start_rescan(&self, desc: &String, timestamp: u32) -> Result<(), String>;

    /// The last tip whose timestamp is below `timestamp`.
    fn block_before_date(&self, timestamp: u32) -> Option<BlockChainTip>;

    /// A wallet transaction, serialized, with the block that confirmed it.
    fn wallet_transaction(&self, txid: &Txid) -> Option<(Vec<u8>, Option<Block>)>;
}

/// The backend that talks to a full node through its primitive queries.
pub struct BitcoinD<C> {
    pub rpc: C,
}

impl<C: BitcoindRpc> BitcoinD<C> {
    pub fn new(rpc: C) -> (r: BitcoinD<C>)
        ensures
            r.rpc == rpc,
    {
        BitcoinD { rpc }
    }
}

impl<C: BitcoindRpc> BitcoinInterface for BitcoinD<C> {
    fn genesis_block(&self) -> (r: Option<BlockChainTip>) {
        genesis_tip(self.rpc.get_block_hash(0))
    }

    fn chain_tip(&self) -> BlockChainTip {
        self.rpc.chain_tip()
    }

    fn tip_time(&self) -> u32 {
        let tip = self.rpc.chain_tip();
        self.rpc.get_block_stats(&tip.hash).time
    }

    fn is_in_chain(&self, tip: &BlockChainTip) -> bool {
        tip_in_chain(tip, self.rpc.get_block_hash(tip.height))
    }

    fn received_coins(&self, tip: &BlockChainTip, descs: &Vec<String>) -> (r: Vec<UTxO>) {
        let entries = self.rpc.list_since_block(&tip.hash);
        proof {
            if descs@.len() == 0 {
                lemma_no_descriptor_receives(entries@, descs@);
            }
        }
        filter_received(&entries, descs)
    }

    fn confirmed_coins(&self, outpoints: &Vec<OutPoint>) -> (r: (
        Vec<(OutPoint, i32, u32)>,
        Vec<OutPoint>,
    )) {
        let mut cache = CachedTxGetter::new();
        let mut mempool: Vec<Option<bool>> = Vec::new();
        let r = classify_confirmations(&self.rpc, &mut cache, &mut mempool, outpoints);
        proof {
            assert forall|k: int| 0 <= k < r.0@.len() implies contains_outpoint(
                outpoints@,
                (#[trigger] r.0@[k]).0,
            ) by {
                lemma_confirmed_from_member(outpoints@, cache@, k);
            }
        }
        r
    }

    fn spending_coins(&self, outpoints: &Vec<OutPoint>) -> (r: Vec<(OutPoint, Txid)>) {
        let mut answers: Vec<(bool, Option<Txid>)> = Vec::new();
        detect_spends(&self.rpc, &mut answers, outpoints)
    }

    fn spent_coins(&self, outpoints: &Vec<(OutPoint, Txid)>) -> (r: Vec<(OutPoint, Txid, Block)>) {
        let mut cache = CachedTxGetter::new();
        let r = resolve_spends(&self.rpc, &mut cache, outpoints);
        proof {
            assert forall|k: int| 0 <= k < r@.len() implies is_candidate(
                outpoints@,
                (#[trigger] r@[k]).0,
            ) by {
                lemma_spent_from_member(outpoints@, cache@, k);
            }
        }
        r
    }

    fn common_ancestor(&self, tip: &BlockChainTip) -> (r: Option<BlockChainTip>) {
        let mut walk: Vec<BlockStats> = Vec::new();
        find_common_ancestor(&self.rpc, tip, &mut walk)
    }

    fn broadcast_tx(&self, tx: &Vec<u8>) -> Result<(), BroadcastError> {
        broadcast_outcome(self.rpc.broadcast_tx(tx))
    }

    fn start_rescan(&self, desc: &String, timestamp: u32) -> Result<(), String> {
        self.rpc.start_rescan(desc, timestamp)
    }

    fn block_before_date(&self, timestamp: u32) -> Option<BlockChainTip> {
        self.rpc.tip_before_timestamp(timestamp)
    }

    fn wallet_transaction(&self, txid: &Txid) -> Option<(Vec<u8>, Option<Block>)> {
        match self.rpc.get_transaction(txid) {
            Some(res) => Some((res.tx, res.block)),
            None => None,
        }
    }
}

} // verus!
