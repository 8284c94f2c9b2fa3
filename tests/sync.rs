use std::cell::Cell;
use std::collections::{HashMap, HashSet};

use liana_sync::bitcoind::{
    broadcast_outcome, classify_confirmations, detect_spends, expires, filter_received,
    find_common_ancestor, genesis_tip, next_ancestor, parent_tip, spend_of, tip_in_chain,
    BroadcastError, Walk,
};
use liana_sync::cache::{CachedTxGetter, TxResult};
use liana_sync::chain::{Block, BlockChainTip, Hash256, OutPoint, Txid, UTxO};
use liana_sync::interface::{BitcoinD, BitcoinInterface};
use liana_sync::node::{BitcoindRpc, BlockStats, LSBlockEntry, RpcError};
use liana_sync::reconcile::{
    apply_delta, baseline, new_received, rollback, sync_pass, BlockInfo, Coin, CoinState, Delta,
    WalletState,
};

fn h(n: u8) -> Hash256 {
    Hash256 { bytes: [n; 32] }
}

fn op(n: u8, vout: u32) -> OutPoint {
    OutPoint { txid: h(n), vout }
}

fn block(height: i32, time: u32) -> Block {
    Block { hash: h(height as u8), height, time }
}

fn confirmed_tx(height: i32, time: u32) -> TxResult {
    TxResult { block: Some(block(height, time)), conflicting_txs: vec![], tx: vec![1, 2, 3] }
}

fn pending_tx(conflicts: Vec<Txid>) -> TxResult {
    TxResult { block: None, conflicting_txs: conflicts, tx: vec![4, 5] }
}

fn entry(o: OutPoint, amount: u64, height: Option<i32>, descs: &[&str]) -> LSBlockEntry {
    LSBlockEntry {
        outpoint: o,
        amount,
        block_height: height,
        address: "bc1qexample".to_string(),
        parent_descs: descs.iter().map(|d| d.to_string()).collect(),
    }
}

#[derive(Default)]
struct MockNode {
    tip: Option<BlockChainTip>,
    chain: HashMap<i32, Hash256>,
    lsb: Vec<LSBlockEntry>,
    txs: HashMap<Hash256, TxResult>,
    mempool: HashSet<Hash256>,
    spenders: HashMap<OutPoint, Option<Txid>>,
    stats: HashMap<Hash256, BlockStats>,
    tx_queries: Cell<usize>,
    broadcast_answer: Option<Result<(), RpcError>>,
}

impl BitcoindRpc for MockNode {
    fn get_block_hash(&self, height: i32) -> Option<Hash256> {
        self.chain.get(&height).copied()
    }
    fn chain_tip(&self) -> BlockChainTip {
        self.tip.unwrap()
    }
    fn list_since_block(&self, _hash: &Hash256) -> Vec<LSBlockEntry> {
        self.lsb.clone()
    }
    fn get_transaction(&self, txid: &Txid) -> Option<TxResult> {
        self.tx_queries.set(self.tx_queries.get() + 1);
        self.txs.get(txid).cloned()
    }
    fn is_in_mempool(&self, txid: &Txid) -> bool {
        self.mempool.contains(txid)
    }
    fn is_spent(&self, op: &OutPoint) -> bool {
        self.spenders.contains_key(op)
    }
    fn get_spender_txid(&self, op: &OutPoint) -> Option<Txid> {
        self.spenders.get(op).copied().flatten()
    }
    fn get_block_stats(&self, hash: &Hash256) -> BlockStats {
        self.stats[hash]
    }
    fn broadcast_tx(&self, _tx: &Vec<u8>) -> Result<(), RpcError> {
        self.broadcast_answer.clone().unwrap_or(Ok(()))
    }
    fn start_rescan(&self, _desc: &String, _timestamp: u32) -> Result<(), String> {
        Ok(())
    }
    fn tip_before_timestamp(&self, _timestamp: u32) -> Option<BlockChainTip> {
        None
    }
}

fn node_at(height: i32) -> MockNode {
    let mut node = MockNode::default();
    for i in 0..=height {
        node.chain.insert(i, h(i as u8));
    }
    node.tip = Some(BlockChainTip { hash: h(height as u8), height });
    node
}

fn coin(o: OutPoint, amount: u64) -> Coin {
    Coin { outpoint: o, amount, block_info: None, spend_txid: None, spend_block: None }
}

fn descs() -> Vec<String> {
    vec!["wsh(main)".to_string()]
}

fn empty_delta(tip: BlockChainTip) -> Delta {
    Delta {
        new_tip: tip,
        received: vec![],
        confirmed: vec![],
        expired: vec![],
        spending: vec![],
        spent: vec![],
    }
}

#[test]
fn received_coin_confirms() {
    let mut node = node_at(120);
    let o = op(10, 0);
    node.lsb.push(entry(o, 5000, Some(100), &["wsh(main)"]));
    node.txs.insert(h(10), confirmed_tx(100, 1_600_000_100));
    let bit = BitcoinD::new(node);
    let genesis = bit.genesis_block().unwrap();
    assert_eq!(genesis.height, 0);
    let mut state = WalletState { tip: genesis, coins: vec![] };
    let res = sync_pass(&bit, &mut state, &descs()).unwrap();
    assert_eq!(res.reorg, None);
    assert_eq!(res.delta.received.len(), 1);
    assert_eq!(res.delta.confirmed, vec![(o, 100, 1_600_000_100)]);
    assert_eq!(state.coins.len(), 1);
    assert_eq!(state.coins[0].amount, 5000);
    assert_eq!(
        state.coins[0].state(),
        CoinState::Confirmed(BlockInfo { height: 100, time: 1_600_000_100 })
    );
    assert_eq!(state.tip.height, 120);
}

#[test]
fn spending_then_spent() {
    let mut node = node_at(140);
    let o = op(10, 1);
    let x = h(50);
    node.spenders.insert(o, Some(x));
    node.txs.insert(x, pending_tx(vec![]));
    let mut confirmed = coin(o, 700);
    confirmed.block_info = Some(BlockInfo { height: 90, time: 900 });
    let mut state = WalletState { tip: node.tip.unwrap(), coins: vec![confirmed] };
    let bit = BitcoinD::new(node);
    let first = sync_pass(&bit, &mut state, &descs()).unwrap();
    assert_eq!(first.delta.spending, vec![(o, x)]);
    assert!(first.delta.spent.is_empty());
    assert_eq!(state.coins[0].state(), CoinState::Spending(x));

    let mut node = bit.rpc;
    for i in 141..=150 {
        node.chain.insert(i, h(i as u8));
    }
    node.tip = Some(BlockChainTip { hash: h(150), height: 150 });
    node.txs.insert(x, confirmed_tx(150, 1500));
    let bit = BitcoinD::new(node);
    let second = sync_pass(&bit, &mut state, &descs()).unwrap();
    assert_eq!(second.delta.spent, vec![(o, x, block(150, 1500))]);
    assert_eq!(
        state.coins[0].state(),
        CoinState::Spent(x, BlockInfo { height: 150, time: 1500 })
    );
}

fn reorged_node() -> MockNode {
    let mut node = node_at(197);
    for i in 198..=201 {
        node.chain.insert(i, h((i - 90) as u8));
    }
    node.tip = Some(BlockChainTip { hash: h(111), height: 201 });
    let stale = |hash: u8, prev: u8, height: i32| BlockStats {
        confirmations: -1,
        previous_blockhash: Some(h(prev)),
        blockhash: h(hash),
        height,
        time: 0,
    };
    node.stats.insert(h(200), stale(200, 199, 200));
    node.stats.insert(h(199), stale(199, 198, 199));
    node.stats.insert(h(198), stale(198, 197, 198));
    node.stats.insert(
        h(197),
        BlockStats {
            confirmations: 5,
            previous_blockhash: Some(h(196)),
            blockhash: h(197),
            height: 197,
            time: 1970,
        },
    );
    node
}

#[test]
fn reorg_rolls_back_to_ancestor() {
    let mut node = reorged_node();
    let high = op(20, 0);
    let low = op(21, 0);
    node.txs.insert(h(20), pending_tx(vec![]));
    node.mempool.insert(h(20));
    let old_tip = BlockChainTip { hash: h(200), height: 200 };
    assert!(!tip_in_chain(&old_tip, node.get_block_hash(200)));
    let mut walk = Vec::new();
    assert_eq!(
        find_common_ancestor(&node, &old_tip, &mut walk),
        Some(BlockChainTip { hash: h(197), height: 197 })
    );
    let heights: Vec<i32> = walk.iter().map(|s| s.height).collect();
    assert_eq!(heights, vec![200, 199, 198, 197]);
    let mut c1 = coin(high, 1);
    c1.block_info = Some(BlockInfo { height: 199, time: 1990 });
    let mut c2 = coin(low, 2);
    c2.block_info = Some(BlockInfo { height: 150, time: 1500 });
    let mut state = WalletState { tip: old_tip, coins: vec![c1, c2] };
    let bit = BitcoinD::new(node);
    let res = sync_pass(&bit, &mut state, &descs()).unwrap();
    assert_eq!(res.reorg, Some(BlockChainTip { hash: h(197), height: 197 }));
    assert!(res.delta.confirmed.is_empty());
    assert_eq!(state.coins[0].state(), CoinState::Unconfirmed);
    assert_eq!(
        state.coins[1].state(),
        CoinState::Confirmed(BlockInfo { height: 150, time: 1500 })
    );
    assert_eq!(state.tip.height, 201);
}

#[test]
fn dropped_transaction_expires() {
    let mut node = node_at(10);
    let o = op(30, 2);
    node.txs.insert(h(30), pending_tx(vec![]));
    let mut state = WalletState { tip: node.tip.unwrap(), coins: vec![coin(o, 42)] };
    let bit = BitcoinD::new(node);
    let res = sync_pass(&bit, &mut state, &descs()).unwrap();
    assert_eq!(res.delta.expired, vec![o]);
    assert!(state.coins.is_empty());
}

#[test]
fn missing_ancestor_changes_nothing() {
    let mut node = node_at(5);
    node.stats.insert(
        h(9),
        BlockStats { confirmations: -1, previous_blockhash: None, blockhash: h(9), height: 9, time: 0 },
    );
    let old_tip = BlockChainTip { hash: h(9), height: 9 };
    let mut state = WalletState { tip: old_tip, coins: vec![coin(op(1, 0), 3)] };
    let bit = BitcoinD::new(node);
    assert!(sync_pass(&bit, &mut state, &descs()).is_none());
    assert_eq!(state.tip, old_tip);
    assert_eq!(state.coins, vec![coin(op(1, 0), 3)]);
}

#[test]
fn second_pass_on_unchanged_node_is_empty() {
    let mut node = node_at(50);
    let a = op(40, 0);
    let b = op(41, 0);
    let c = op(42, 0);
    node.lsb.push(entry(a, 10, Some(45), &["wsh(main)"]));
    node.lsb.push(entry(b, 20, None, &["wsh(main)"]));
    node.lsb.push(entry(c, 30, None, &["wsh(other)"]));
    node.txs.insert(h(40), confirmed_tx(45, 450));
    node.txs.insert(h(41), pending_tx(vec![]));
    node.mempool.insert(h(41));
    node.spenders.insert(a, Some(h(60)));
    node.txs.insert(h(60), pending_tx(vec![]));
    let mut state = WalletState { tip: node.tip.unwrap(), coins: vec![] };
    let bit = BitcoinD::new(node);
    let first = sync_pass(&bit, &mut state, &descs()).unwrap();
    assert_eq!(first.delta.received.len(), 2);
    assert_eq!(first.delta.spending, vec![(a, h(60))]);
    let snapshot = state.coins.clone();
    let second = sync_pass(&bit, &mut state, &descs()).unwrap();
    assert!(second.delta.received.is_empty());
    assert!(second.delta.confirmed.is_empty());
    assert!(second.delta.expired.is_empty());
    assert!(second.delta.spending.is_empty());
    assert!(second.delta.spent.is_empty());
    assert_eq!(state.coins, snapshot);
}

#[test]
fn confirmed_and_expired_are_disjoint() {
    let mut node = node_at(10);
    node.txs.insert(h(1), confirmed_tx(8, 80));
    node.txs.insert(h(2), pending_tx(vec![]));
    node.txs.insert(h(3), pending_tx(vec![]));
    node.mempool.insert(h(3));
    let ops = vec![op(1, 0), op(2, 0), op(3, 0), op(4, 0), op(1, 1), op(2, 0)];
    let bit = BitcoinD::new(node);
    let (confirmed, expired) = bit.confirmed_coins(&ops);
    assert_eq!(confirmed, vec![(op(1, 0), 8, 80), (op(1, 1), 8, 80)]);
    assert_eq!(expired, vec![op(2, 0), op(2, 0)]);
    for (o, _, _) in &confirmed {
        assert!(!expired.contains(o));
    }
    assert_eq!(bit.rpc.tx_queries.get(), 4);
}

#[test]
fn conflicting_spend_replaces_recorded_spender() {
    let mut node = node_at(160);
    let o = op(10, 0);
    let x = h(70);
    let y = h(71);
    let z = h(72);
    node.txs.insert(x, pending_tx(vec![z, y]));
    node.txs.insert(y, confirmed_tx(150, 1500));
    node.txs.insert(z, pending_tx(vec![x]));
    let bit = BitcoinD::new(node);
    let spent = bit.spent_coins(&vec![(o, x)]);
    assert_eq!(spent, vec![(o, y, block(150, 1500))]);
}

#[test]
fn unknown_spender_is_skipped() {
    let node = node_at(10);
    let bit = BitcoinD::new(node);
    assert!(bit.spent_coins(&vec![(op(1, 0), h(99))]).is_empty());
}

#[test]
fn cache_queries_each_txid_once() {
    let mut node = node_at(10);
    node.txs.insert(h(1), confirmed_tx(5, 50));
    let mut cache = CachedTxGetter::new();
    let first = cache.get_transaction(&node, &h(1));
    let second = cache.get_transaction(&node, &h(1));
    let missing = cache.get_transaction(&node, &h(2));
    let missing_again = cache.get_transaction(&node, &h(2));
    assert_eq!(first, Some(confirmed_tx(5, 50)));
    assert_eq!(first, second);
    assert_eq!(missing, None);
    assert_eq!(missing_again, None);
    assert_eq!(cache.queries(), 2);
    assert_eq!(node.tx_queries.get(), 2);
}

#[test]
fn spending_coins_skips_unnamed_spender() {
    let mut node = node_at(10);
    node.spenders.insert(op(1, 0), Some(h(9)));
    node.spenders.insert(op(2, 0), None);
    let bit = BitcoinD::new(node);
    let r = bit.spending_coins(&vec![op(1, 0), op(2, 0), op(3, 0)]);
    assert_eq!(r, vec![(op(1, 0), h(9))]);
}

#[test]
fn received_coins_filter_by_descriptor() {
    let entries = vec![
        entry(op(1, 0), 10, Some(3), &["wsh(other)", "wsh(main)"]),
        entry(op(2, 0), 20, None, &["wsh(other)"]),
        entry(op(3, 0), 30, None, &[]),
    ];
    let r = filter_received(&entries, &descs());
    assert_eq!(
        r,
        vec![UTxO {
            outpoint: op(1, 0),
            amount: 10,
            block_height: Some(3),
            address: "bc1qexample".to_string(),
        }]
    );
    assert!(filter_received(&entries, &vec![]).is_empty());
}

#[test]
fn new_received_skips_known_and_repeated() {
    let u = |o: OutPoint| UTxO { outpoint: o, amount: 1, block_height: None, address: String::new() };
    let coins = vec![coin(op(1, 0), 1)];
    let r = new_received(&coins, &vec![u(op(1, 0)), u(op(2, 0)), u(op(2, 0)), u(op(3, 0))]);
    assert_eq!(r, vec![u(op(2, 0)), u(op(3, 0))]);
}

#[test]
fn rollback_demotes_only_above_height() {
    let mut a = coin(op(1, 0), 1);
    a.block_info = Some(BlockInfo { height: 199, time: 1 });
    a.spend_txid = Some(h(5));
    a.spend_block = Some(BlockInfo { height: 200, time: 2 });
    let mut b = coin(op(2, 0), 1);
    b.block_info = Some(BlockInfo { height: 197, time: 1 });
    let mut coins = vec![a, b];
    rollback(&mut coins, 197);
    assert_eq!(coins[0].block_info, None);
    assert_eq!(coins[0].state(), CoinState::Spending(h(5)));
    assert_eq!(coins[1], b);
}

#[test]
fn apply_delta_records_each_kind() {
    let tip = BlockChainTip { hash: h(9), height: 9 };
    let mut d = empty_delta(tip);
    d.received.push(UTxO { outpoint: op(5, 0), amount: 9, block_height: None, address: String::new() });
    d.confirmed.push((op(1, 0), 7, 70));
    d.spending.push((op(2, 0), h(8)));
    d.spent.push((op(3, 0), h(9), block(8, 80)));
    d.expired.push(op(4, 0));
    let coins = vec![coin(op(1, 0), 1), coin(op(2, 0), 2), coin(op(3, 0), 3), coin(op(4, 0), 4)];
    let r = apply_delta(&coins, &d);
    assert_eq!(r.len(), 4);
    assert_eq!(r[0].state(), CoinState::Confirmed(BlockInfo { height: 7, time: 70 }));
    assert_eq!(r[1].state(), CoinState::Spending(h(8)));
    assert_eq!(r[2].state(), CoinState::Spent(h(9), BlockInfo { height: 8, time: 80 }));
    assert_eq!(r[3], coin(op(5, 0), 9));
    assert_eq!(apply_delta(&coins, &empty_delta(tip)), coins);
}

#[test]
fn small_node_operations() {
    let tip = BlockChainTip { hash: h(3), height: 3 };
    assert!(tip_in_chain(&tip, Some(h(3))));
    assert!(!tip_in_chain(&tip, Some(h(4))));
    assert!(!tip_in_chain(&tip, None));
    assert_eq!(genesis_tip(Some(h(0))), Some(BlockChainTip { hash: h(0), height: 0 }));
    assert_eq!(genesis_tip(None), None);
    assert_eq!(broadcast_outcome(Ok(())), Ok(()));
    assert_eq!(
        broadcast_outcome(Err(RpcError::Server("insufficient fee".to_string()))),
        Err(BroadcastError::Rejected("insufficient fee".to_string()))
    );
    assert_eq!(
        broadcast_outcome(Err(RpcError::Transport("eof".to_string()))),
        Err(BroadcastError::Fault("eof".to_string()))
    );
}

#[test]
fn backend_forwards_simple_queries() {
    let mut node = node_at(4);
    node.stats.insert(
        h(4),
        BlockStats { confirmations: 1, previous_blockhash: Some(h(3)), blockhash: h(4), height: 4, time: 444 },
    );
    node.txs.insert(h(7), confirmed_tx(2, 20));
    node.broadcast_answer = Some(Err(RpcError::Server("rejected".to_string())));
    let bit = BitcoinD::new(node);
    assert_eq!(bit.tip_time(), 444);
    assert!(bit.is_in_chain(&BlockChainTip { hash: h(2), height: 2 }));
    assert_eq!(bit.wallet_transaction(&h(7)), Some((vec![1, 2, 3], Some(block(2, 20)))));
    assert_eq!(bit.wallet_transaction(&h(8)), None);
    assert_eq!(bit.broadcast_tx(&vec![0]), Err(BroadcastError::Rejected("rejected".to_string())));
    assert_eq!(
        bit.common_ancestor(&BlockChainTip { hash: h(4), height: 4 }),
        Some(BlockChainTip { hash: h(4), height: 4 })
    );
}

#[test]
fn hash_equality_is_bytewise() {
    let mut a = h(1);
    assert!(a.equals(&h(1)));
    a.bytes[31] = 2;
    assert!(!a.equals(&h(1)));
    assert!(op(1, 0).equals(&op(1, 0)));
    assert!(!op(1, 0).equals(&op(1, 1)));
}

fn stats(confirmations: i32, prev: Option<u8>, hash: u8, height: i32) -> BlockStats {
    BlockStats { confirmations, previous_blockhash: prev.map(h), blockhash: h(hash), height, time: 0 }
}

#[test]
fn ancestor_steps() {
    let tip = BlockChainTip { hash: h(9), height: 9 };
    assert_eq!(next_ancestor(&tip, &stats(3, Some(8), 9, 9)), Walk::Found(tip));
    assert_eq!(next_ancestor(&tip, &stats(-1, Some(8), 9, 9)), Walk::Parent(h(8)));
    assert_eq!(next_ancestor(&tip, &stats(-1, None, 9, 9)), Walk::Lost);
    assert_eq!(parent_tip(&tip, &stats(-1, None, 8, 8)), Some(BlockChainTip { hash: h(8), height: 8 }));
    assert_eq!(parent_tip(&tip, &stats(-1, None, 8, 9)), None);
    assert_eq!(parent_tip(&tip, &stats(-1, None, 8, -1)), None);
}

#[test]
fn ancestor_walk_ends_without_parent() {
    let mut node = node_at(3);
    node.stats.insert(h(9), stats(-1, Some(8), 9, 9));
    node.stats.insert(h(8), stats(-1, None, 8, 8));
    let mut walk = Vec::new();
    assert_eq!(find_common_ancestor(&node, &BlockChainTip { hash: h(9), height: 9 }, &mut walk), None);
    assert_eq!(walk.len(), 2);
}

#[test]
fn canonical_tip_is_its_own_ancestor() {
    let mut node = node_at(3);
    node.stats.insert(h(3), stats(1, Some(2), 3, 3));
    let tip = BlockChainTip { hash: h(3), height: 3 };
    let mut walk = Vec::new();
    assert_eq!(find_common_ancestor(&node, &tip, &mut walk), Some(tip));
    assert_eq!(walk.len(), 1);
}

#[test]
fn spend_and_expiry_decisions() {
    assert_eq!(spend_of(op(1, 0), true, Some(h(5))), Some((op(1, 0), h(5))));
    assert_eq!(spend_of(op(1, 0), true, None), None);
    assert_eq!(spend_of(op(1, 0), false, Some(h(5))), None);
    assert!(expires(&Some(pending_tx(vec![])), false));
    assert!(!expires(&Some(pending_tx(vec![])), true));
    assert!(!expires(&Some(confirmed_tx(3, 30)), false));
    assert!(!expires(&None, false));
    let a = BlockChainTip { hash: h(7), height: 7 };
    assert_eq!(baseline(true, None), Some(None));
    assert_eq!(baseline(false, Some(a)), Some(Some(a)));
    assert_eq!(baseline(false, None), None);
}

#[test]
fn detect_spends_records_answers() {
    let mut node = node_at(10);
    node.spenders.insert(op(1, 0), Some(h(9)));
    node.spenders.insert(op(2, 0), None);
    let mut answers = vec![(true, Some(h(1)))];
    let r = detect_spends(&node, &mut answers, &vec![op(1, 0), op(2, 0), op(3, 0)]);
    assert_eq!(r, vec![(op(1, 0), h(9))]);
    assert_eq!(answers, vec![(true, Some(h(1))), (true, Some(h(9))), (true, None), (false, None)]);
}

#[test]
fn classify_records_mempool_answers() {
    let mut node = node_at(10);
    node.txs.insert(h(1), confirmed_tx(8, 80));
    node.txs.insert(h(2), pending_tx(vec![]));
    node.txs.insert(h(3), pending_tx(vec![]));
    node.mempool.insert(h(3));
    let mut cache = CachedTxGetter::new();
    let mut mempool = Vec::new();
    let (confirmed, expired) =
        classify_confirmations(&node, &mut cache, &mut mempool, &vec![op(1, 0), op(2, 0), op(3, 0), op(4, 0)]);
    assert_eq!(confirmed, vec![(op(1, 0), 8, 80)]);
    assert_eq!(expired, vec![op(2, 0)]);
    assert_eq!(mempool, vec![None, Some(false), Some(true), None]);
    assert_eq!(cache.queries(), 4);
}
