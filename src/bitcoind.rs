use vstd::prelude::*;

use crate::cache::{opt_view, tx_block, tx_conflicts, CachedTxGetter, TxResult, TxView};
use crate::chain::{contains_outpoint, Block, BlockChainTip, BlockHash, OutPoint, Txid, UTxO};
use crate::node::{BitcoindRpc, BlockStats, LSBlockEntry, RpcError};

verus! {

/// The block that confirmed a looked-up transaction, if it was found and is
/// confirmed.
pub open spec fn confirming_block(v: Option<TxView>) -> Option<Block> {
    match v {
        Some(t) => t.0,
        None => None,
    }
}

/// A looked-up transaction that the wallet knows and that is not confirmed.
pub open spec fn is_pending(v: Option<TxView>) -> bool {
    v is Some && tx_block(v->0) is None
}

/// Every lookup recorded in `m1` is recorded, with the same result, in `m2`.
pub open spec fn extends(m1: Map<Txid, Option<TxView>>, m2: Map<Txid, Option<TxView>>) -> bool {
    forall|t: Txid| #[trigger] m1.contains_key(t) ==> m2.contains_key(t) && m2[t] == m1[t]
}

/// The confirmed coins among `ops`, in order, given the lookups `m`.
pub open spec fn confirmed_from(ops: Seq<OutPoint>, m: Map<Txid, Option<TxView>>) -> Seq<
    (OutPoint, i32, u32),
>
    decreases ops.len(),
{
    if ops.len() == 0 {
        seq![]
    } else {
        let prev = confirmed_from(ops.drop_last(), m);
        let op = ops.last();
        match confirming_block(m[op.txid]) {
            Some(b) => prev.push((op, b.height, b.time)),
            None => prev,
        }
    }
}

/// Every transaction id of `ops` has been looked up in `m`.
pub open spec fn all_looked_up(ops: Seq<OutPoint>, m: Map<Txid, Option<TxView>>) -> bool {
    forall|i: int| 0 <= i < ops.len() ==> m.contains_key(#[trigger] ops[i].txid)
}

pub proof fn lemma_confirmed_from_stable(
    ops: Seq<OutPoint>,
    m1: Map<Txid, Option<TxView>>,
    m2: Map<Txid, Option<TxView>>,
)
    requires
        all_looked_up(ops, m1),
        extends(m1, m2),
    ensures
        confirmed_from(ops, m1) == confirmed_from(ops, m2),
    decreases ops.len(),
{
    if ops.len() > 0 {
        let op = ops.last();
        assert(m1.contains_key(ops[ops.len() - 1].txid));
        assert(m1.dom().contains(op.txid));
        assert(m1[op.txid] == m2[op.txid]);
        assert forall|i: int| 0 <= i < ops.drop_last().len() implies m1.contains_key(
            #[trigger] ops.drop_last()[i].txid,
        ) by {
            assert(ops.drop_last()[i] == ops[i]);
        }
        lemma_confirmed_from_stable(ops.drop_last(), m1, m2);
    }
}

/// The confirmed spends found for the spender candidates `cands`: a
/// candidate whose recorded spender is confirmed gives that spender and its
/// block; otherwise each confirmed transaction conflicting with the recorded
/// spender gives that transaction and its block.
pub open spec fn spent_from(cands: Seq<(OutPoint, Txid)>, m: Map<Txid, Option<TxView>>) -> Seq<
    (OutPoint, Txid, Block),
>
    decreases cands.len(),
{
    if cands.len() == 0 {
        seq![]
    } else {
        let (op, txid) = cands.last();
        spent_from(cands.drop_last(), m) + resolve_spend(op, txid, m)
    }
}

pub open spec fn resolve_spend(op: OutPoint, txid: Txid, m: Map<Txid, Option<TxView>>) -> Seq<
    (OutPoint, Txid, Block),
> {
    match m[txid] {
        None => seq![],
        Some(v) => match v.0 {
            Some(b) => seq![(op, txid, b)],
            None => confirmed_conflicts(op, v.1, m),
        },
    }
}

pub open spec fn confirmed_conflicts(op: OutPoint, ts: Seq<Txid>, m: Map<Txid, Option<TxView>>) -> Seq<
    (OutPoint, Txid, Block),
>
    decreases ts.len(),
{
    if ts.len() == 0 {
        seq![]
    } else {
        let prev = confirmed_conflicts(op, ts.drop_last(), m);
        match confirming_block(m[ts.last()]) {
            Some(b) => prev.push((op, ts.last(), b)),
            None => prev,
        }
    }
}

/// Every lookup that `resolve_spend` reads has been made in `m`.
pub open spec fn spend_looked_up(txid: Txid, m: Map<Txid, Option<TxView>>) -> bool {
    &&& m.contains_key(txid)
    &&& is_pending(m[txid]) ==> forall|k: int|
        0 <= k < tx_conflicts(m[txid]->0).len() ==> m.contains_key(#[trigger] tx_conflicts(m[txid]->0)[k])
}

pub open spec fn spends_looked_up(cands: Seq<(OutPoint, Txid)>, m: Map<Txid, Option<TxView>>) -> bool {
    forall|i: int| 0 <= i < cands.len() ==> spend_looked_up(#[trigger] cands[i].1, m)
}

pub proof fn lemma_conflicts_stable(
    op: OutPoint,
    ts: Seq<Txid>,
    m1: Map<Txid, Option<TxView>>,
    m2: Map<Txid, Option<TxView>>,
)
    requires
        forall|k: int| 0 <= k < ts.len() ==> m1.contains_key(#[trigger] ts[k]),
        extends(m1, m2),
    ensures
        confirmed_conflicts(op, ts, m1) == confirmed_conflicts(op, ts, m2),
    decreases ts.len(),
{
    if ts.len() > 0 {
        assert(m1.contains_key(ts[ts.len() - 1]));
        assert(m1.dom().contains(ts.last()));
        assert(m1[ts.last()] == m2[ts.last()]);
        assert forall|k: int| 0 <= k < ts.drop_last().len() implies m1.contains_key(
            #[trigger] ts.drop_last()[k],
        ) by {
            assert(ts.drop_last()[k] == ts[k]);
        }
        lemma_conflicts_stable(op, ts.drop_last(), m1, m2);
    }
}

pub proof fn lemma_spent_from_stable(
    cands: Seq<(OutPoint, Txid)>,
    m1: Map<Txid, Option<TxView>>,
    m2: Map<Txid, Option<TxView>>,
)
    requires
        spends_looked_up(cands, m1),
        extends(m1, m2),
    ensures
        spent_from(cands, m1) == spent_from(cands, m2),
    decreases cands.len(),
{
    if cands.len() > 0 {
        let (op, txid) = cands.last();
        assert(spend_looked_up(cands[cands.len() - 1].1, m1));
        assert(m1.dom().contains(txid));
        assert(m1[txid] == m2[txid]);
        if is_pending(m1[txid]) {
            lemma_conflicts_stable(op, tx_conflicts(m1[txid]->0), m1, m2);
        }
        assert forall|i: int| 0 <= i < cands.drop_last().len() implies spend_looked_up(
            #[trigger] cands.drop_last()[i].1,
            m1,
        ) by {
            assert(cands.drop_last()[i] == cands[i]);
        }
        lemma_spent_from_stable(cands.drop_last(), m1, m2);
    }
}

/// Why a broadcast did not go through.
#[derive(Debug, Clone, PartialEq, Eq)]
pub enum BroadcastError {
    /// The node refused the transaction; the reason is for the user.
    Rejected(String),
    /// The node broke its protocol: the caller should stop rather than
    /// guess at recovery.
    Fault(String),
}

/// A tip is still in the best chain if the node's block at its height is
/// the tip's block.
pub fn tip_in_chain(tip: &BlockChainTip, hash_at_height: Option<BlockHash>) -> (r: bool)
    ensures
        r == (hash_at_height == Some(tip.hash)),
{
    match hash_at_height {
        Some(h) => h.equals(&tip.hash),
        None => false,
    }
}

/// The genesis tip, from the node's hash of the block at height 0.
pub fn genesis_tip(hash: Option<BlockHash>) -> (r: Option<BlockChainTip>)
    ensures
        r == match hash {
            Some(h) => Some(BlockChainTip { hash: h, height: 0 }),
            None => None::<BlockChainTip>,
        },
{
    match hash {
        Some(h) => Some(BlockChainTip { hash: h, height: 0 }),
        None => None,
    }
}

/// Sort the node's answer to a broadcast: a refusal is an ordinary error,
/// anything else a fault.
pub fn broadcast_outcome(res: Result<(), RpcError>) -> (r: Result<(), BroadcastError>)
    ensures
        match res {
            Ok(()) => r is Ok,
            Err(RpcError::Server(m)) => r == Err::<(), BroadcastError>(BroadcastError::Rejected(m)),
            Err(RpcError::Transport(m)) => r == Err::<(), BroadcastError>(BroadcastError::Fault(m)),
        },
{
    match res {
        Ok(()) => Ok(()),
        Err(RpcError::Server(m)) => Err(BroadcastError::Rejected(m)),
        Err(RpcError::Transport(m)) => Err(BroadcastError::Fault(m)),
    }
}

/// One of the parent descriptors is one of the wallet's descriptors.
pub open spec fn desc_matches(parents: Seq<String>, descs: Seq<String>) -> bool {
    exists|i: int, j: int| 0 <= i < parents.len() && 0 <= j < descs.len() && parents[i]@ == descs[j]@
}

pub open spec fn utxo_of(e: LSBlockEntry) -> UTxO {
    UTxO {
        outpoint: e.outpoint,
        amount: e.amount,
        block_height: e.block_height,
        address: e.address,
    }
}

/// The outputs of `entries` that pay to one of `descs`, in order.
pub open spec fn received_from(entries: Seq<LSBlockEntry>, descs: Seq<String>) -> Seq<UTxO>
    decreases entries.len(),
{
    if entries.len() == 0 {
        seq![]
    } else {
        let prev = received_from(entries.drop_last(), descs);
        let e = entries.last();
        if desc_matches(e.parent_descs@, descs) {
            prev.push(utxo_of(e))
        } else {
            prev
        }
    }
}

/// With no descriptor to match, nothing is received.
pub proof fn lemma_no_descriptor_receives(entries: Seq<LSBlockEntry>, descs: Seq<String>)
    requires
        descs.len() == 0,
    ensures
        received_from(entries, descs).len() == 0,
    decreases entries.len(),
{
    if entries.len() > 0 {
        lemma_no_descriptor_receives(entries.drop_last(), descs);
    }
}

fn any_desc_matches(parents: &Vec<String>, descs: &Vec<String>) -> (r: bool)
    ensures
        r == desc_matches(parents@, descs@),
{
    let mut i: usize = 0;
    while i < parents.len()
        invariant
            0 <= i <= parents@.len(),
            forall|a: int, b: int|
                0 <= a < i && 0 <= b < descs@.len() ==> parents@[a]@ != descs@[b]@,
        decreases parents@.len() - i,
    {
        let mut j: usize = 0;
        while j < descs.len()
            invariant
                0 <= i < parents@.len(),
                0 <= j <= descs@.len(),
                forall|a: int, b: int|
                    0 <= a < i && 0 <= b < descs@.len() ==> parents@[a]@ != descs@[b]@,
                forall|b: int| 0 <= b < j ==> parents@[i as int]@ != descs@[b]@,
            decreases descs@.len() - j,
        {
            if parents[i] == descs[j] {
                return true;
            }
            j = j + 1;
        }
        i = i + 1;
    }
    false
}

/// Keep the entries of a "list since block" answer that pay to one of the
/// wallet's descriptors.
pub fn filter_received(entries: &Vec<LSBlockEntry>, descs: &Vec<String>) -> (r: Vec<UTxO>)
    ensures
        r@ == received_from(entries@, descs@),
{
    let mut r: Vec<UTxO> = Vec::new();
    let mut i: usize = 0;
    while i < entries.len()
        invariant
            0 <= i <= entries@.len(),
            r@ == received_from(entries@.subrange(0, i as int), descs@),
        decreases entries@.len() - i,
    {
        let e = &entries[i];
        proof {
            assert(entries@.subrange(0, i + 1).drop_last() =~= entries@.subrange(0, i as int));
        }
        if any_desc_matches(&e.parent_descs, descs) {
            r.push(
                UTxO {
                    outpoint: e.outpoint,
                    amount: e.amount,
                    block_height: e.block_height,
                    address: e.address.clone(),
                },
            );
        }
        i = i + 1;
    }
    proof {
        assert(entries@.subrange(0, entries@.len() as int) =~= entries@);
    }
    r
}

/// Whether a coin expired: its creating transaction is known to the wallet,
/// unconfirmed, and no longer in the mempool.
pub fn expires(res: &Option<TxResult>, in_mempool: bool) -> (r: bool)
    ensures
        r == (is_pending(opt_view(*res)) && !in_mempool),
{
    match res {
        Some(t) => t.block.is_none() && !in_mempool,
        None => false,
    }
}

/// The expired coins among `ops`, in order, given the lookups `m` and the
/// mempool answers `mem`, one per outpoint (`None` where the mempool was not
/// asked).
pub open spec fn expired_from(ops: Seq<OutPoint>, m: Map<Txid, Option<TxView>>, mem: Seq<Option<bool>>) -> Seq<
    OutPoint,
>
    decreases ops.len(),
{
    if ops.len() == 0 || mem.len() == 0 {
        seq![]
    } else {
        let prev = expired_from(ops.drop_last(), m, mem.drop_last());
        if is_pending(m[ops.last().txid]) && mem.last() == Some(false) {
            prev.push(ops.last())
        } else {
            prev
        }
    }
}

pub proof fn lemma_expired_from_stable(
    ops: Seq<OutPoint>,
    mem: Seq<Option<bool>>,
    m1: Map<Txid, Option<TxView>>,
    m2: Map<Txid, Option<TxView>>,
)
    requires
        all_looked_up(ops, m1),
        extends(m1, m2),
    ensures
        expired_from(ops, m1, mem) == expired_from(ops, m2, mem),
    decreases ops.len(),
{
    if ops.len() > 0 && mem.len() > 0 {
        let op = ops.last();
        assert(m1.contains_key(ops[ops.len() - 1].txid));
        assert(m1[op.txid] == m2[op.txid]);
        assert forall|i: int| 0 <= i < ops.drop_last().len() implies m1.contains_key(
            #[trigger] ops.drop_last()[i].txid,
        ) by {
            assert(ops.drop_last()[i] == ops[i]);
        }
        lemma_expired_from_stable(ops.drop_last(), mem.drop_last(), m1, m2);
    }
}

/// Sort `ops` by the state of their creating transaction: confirmed, with
/// height and time, or dropped from the mempool. Transactions are looked up
/// through `cache`, and the mempool answers are appended to `mempool`, one
/// per outpoint. An outpoint whose transaction the wallet does not know, or
/// that is still in the mempool, is in neither list.
pub fn classify_confirmations<C: BitcoindRpc>(
    rpc: &C,
    cache: &mut CachedTxGetter,
    mempool: &mut Vec<Option<bool>>,
    ops: &Vec<OutPoint>,
) -> (r: (Vec<(OutPoint, i32, u32)>, Vec<OutPoint>))
    requires
        old(cache).wf(),
    ensures
        final(cache).wf(),
        extends(old(cache)@, final(cache)@),
        all_looked_up(ops@, final(cache)@),
        final(cache)@.dom() =~= old(cache)@.dom().union(looked_up_ids(ops@)),
        final(cache).spec_queries() == final(cache)@.dom().len(),
        final(mempool)@.len() == old(mempool)@.len() + ops@.len(),
        final(mempool)@.take(old(mempool)@.len() as int) == old(mempool)@,
        forall|i: int|
            0 <= i < ops@.len() ==> (#[trigger] final(mempool)@[old(mempool)@.len() + i] is Some)
                == is_pending(final(cache)@[ops@[i].txid]),
        r.0@ == confirmed_from(ops@, final(cache)@),
        r.1@ == expired_from(ops@, final(cache)@, final(mempool)@.skip(old(mempool)@.len() as int)),
        forall|k: int|
            0 <= k < r.1@.len() ==> contains_outpoint(ops@, #[trigger] r.1@[k]) && is_pending(
                final(cache)@[r.1@[k].txid],
            ),
        forall|k: int, l: int|
            0 <= k < r.0@.len() && 0 <= l < r.1@.len() ==> (#[trigger] r.0@[k]).0 != #[trigger] r.1@[l],
{
    let mut confirmed: Vec<(OutPoint, i32, u32)> = Vec::new();
    let mut expired: Vec<OutPoint> = Vec::new();
    let ghost start = cache@;
    let ghost mem0 = mempool@;
    let mut i: usize = 0;
    while i < ops.len()
        invariant
            0 <= i <= ops@.len(),
            cache.wf(),
            extends(start, cache@),
            cache@.dom() =~= start.dom().union(looked_up_ids(ops@.subrange(0, i as int))),
            all_looked_up(ops@.subrange(0, i as int), cache@),
            mempool@.len() == mem0.len() + i,
            mempool@.take(mem0.len() as int) == mem0,
            forall|j: int|
                0 <= j < i ==> (#[trigger] mempool@[mem0.len() + j] is Some) == is_pending(
                    cache@[ops@[j].txid],
                ),
            confirmed@ == confirmed_from(ops@.subrange(0, i as int), cache@),
            expired@ == expired_from(ops@.subrange(0, i as int), cache@, mempool@.skip(mem0.len() as int)),
            forall|k: int|
                0 <= k < expired@.len() ==> contains_outpoint(
                    ops@,
                    #[trigger] expired@[k],
                ) && cache@.contains_key(expired@[k].txid) && is_pending(cache@[expired@[k].txid]),
        decreases ops@.len() - i,
    {
        let op = ops[i];
        let ghost before = cache@;
        let ghost mem_before = mempool@;
        let res = cache.get_transaction(rpc, &op.txid);
        proof {
            let pre = ops@.subrange(0, i as int);
            let cur = ops@.subrange(0, i + 1);
            assert(extends(before, cache@));
            lemma_confirmed_from_stable(pre, before, cache@);
            lemma_expired_from_stable(pre, mempool@.skip(mem0.len() as int), before, cache@);
            assert(cur.drop_last() =~= pre);
            assert forall|j: int| 0 <= j < cur.len() implies cache@.contains_key(
                #[trigger] cur[j].txid,
            ) by {
                if j < i {
                    assert(cur[j] == pre[j]);
                    assert(before.contains_key(pre[j].txid));
                }
            }
            assert forall|k: int| 0 <= k < expired@.len() implies cache@.contains_key(
                (#[trigger] expired@[k]).txid,
            ) && is_pending(cache@[expired@[k].txid]) by {
                assert(before.contains_key(expired@[k].txid));
            }
            assert forall|j: int| 0 <= j < i implies (#[trigger] mempool@[mem0.len() + j] is Some)
                == is_pending(cache@[ops@[j].txid]) by {
                assert(pre[j] == ops@[j]);
                assert(before.contains_key(pre[j].txid));
            }
            assert(looked_up_ids(cur) =~= looked_up_ids(pre).insert(op.txid)) by {
                assert forall|t: Txid| looked_up_ids(cur).contains(t) implies looked_up_ids(pre).insert(op.txid).contains(t) by {
                    let j = choose|j: int| 0 <= j < cur.len() && cur[j].txid == t;
                    if j < i {
                        assert(cur[j] == pre[j]);
                    }
                }
                assert forall|t: Txid| looked_up_ids(pre).insert(op.txid).contains(t) implies looked_up_ids(cur).contains(t) by {
                    if t == op.txid {
                        assert(cur[i as int] == op);
                    } else {
                        let j = choose|j: int| 0 <= j < pre.len() && pre[j].txid == t;
                        assert(cur[j] == pre[j]);
                    }
                }
            }
        }
        let mut answer: Option<bool> = None;
        match &res {
            Some(tx) => {
                match tx.block {
                    Some(b) => {
                        confirmed.push((op, b.height, b.time));
                    },
                    None => {
                        let in_mempool = rpc.is_in_mempool(&op.txid);
                        answer = Some(in_mempool);
                        if expires(&res, in_mempool) {
                            expired.push(op);
                            proof {
                                assert(ops@[i as int] == op);
                            }
                        }
                    },
                }
            },
            None => {},
        }
        mempool.push(answer);
        proof {
            let pre = ops@.subrange(0, i as int);
            let cur = ops@.subrange(0, i + 1);
            assert(mempool@.skip(mem0.len() as int) =~= mem_before.skip(mem0.len() as int).push(answer));
            assert(mempool@.skip(mem0.len() as int).drop_last() =~= mem_before.skip(mem0.len() as int));
            assert(mempool@.take(mem0.len() as int) =~= mem0);
            assert(cur.last() == op);
            assert forall|j: int| 0 <= j < i + 1 implies (#[trigger] mempool@[mem0.len() + j] is Some)
                == is_pending(cache@[ops@[j].txid]) by {
                if j < i {
                    assert(mempool@[mem0.len() + j] == mem_before[mem0.len() + j]);
                }
            }
        }
        i = i + 1;
    }
    proof {
        cache.lemma_queries_counted();
        assert(ops@.subrange(0, ops@.len() as int) =~= ops@);
        assert forall|k: int, l: int|
            0 <= k < confirmed@.len() && 0 <= l < expired@.len() implies (
            #[trigger] confirmed@[k]).0 != #[trigger] expired@[l] by {
            lemma_confirmed_from_member(ops@, cache@, k);
        }
    }
    (confirmed, expired)
}

/// The transaction ids of `ops`.
pub open spec fn looked_up_ids(ops: Seq<OutPoint>) -> Set<Txid> {
    Set::new(|t: Txid| exists|j: int| 0 <= j < ops.len() && ops[j].txid == t)
}

/// Each coin reported confirmed comes with the block of its transaction.
pub proof fn lemma_confirmed_from_member(ops: Seq<OutPoint>, m: Map<Txid, Option<TxView>>, k: int)
    requires
        0 <= k < confirmed_from(ops, m).len(),
    ensures
        contains_outpoint(ops, confirmed_from(ops, m)[k].0),
        confirming_block(m[confirmed_from(ops, m)[k].0.txid]) is Some,
    decreases ops.len(),
{
    let prev = confirmed_from(ops.drop_last(), m);
    if k < prev.len() {
        lemma_confirmed_from_member(ops.drop_last(), m, k);
        let op = prev[k].0;
        let i = choose|i: int| 0 <= i < ops.drop_last().len() && ops.drop_last()[i] == op;
        assert(ops[i] == op);
    } else {
        assert(ops[ops.len() - 1] == ops.last());
    }
}

/// Find the confirmed spends among the spender candidates `cands`, each an
/// outpoint with the transaction recorded as spending it. Where the recorded
/// spender is not confirmed, a confirmed transaction that conflicts with it
/// is reported in its place.
pub fn resolve_spends<C: BitcoindRpc>(
    rpc: &C,
    cache: &mut CachedTxGetter,
    cands: &Vec<(OutPoint, Txid)>,
) -> (r: Vec<(OutPoint, Txid, Block)>)
    requires
        old(cache).wf(),
    ensures
        final(cache).wf(),
        extends(old(cache)@, final(cache)@),
        spends_looked_up(cands@, final(cache)@),
        final(cache).spec_queries() == final(cache)@.dom().len(),
        r@ == spent_from(cands@, final(cache)@),
{
    let mut spent: Vec<(OutPoint, Txid, Block)> = Vec::new();
    let ghost start = cache@;
    let mut i: usize = 0;
    while i < cands.len()
        invariant
            0 <= i <= cands@.len(),
            cache.wf(),
            extends(start, cache@),
            spends_looked_up(cands@.subrange(0, i as int), cache@),
            spent@ == spent_from(cands@.subrange(0, i as int), cache@),
        decreases cands@.len() - i,
    {
        let (op, txid) = cands[i];
        let ghost pre = cands@.subrange(0, i as int);
        let ghost cur = cands@.subrange(0, i + 1);
        let ghost m0 = cache@;
        let res = cache.get_transaction(rpc, &txid);
        proof {
            lemma_spends_looked_up_grow(pre, m0, cache@);
            lemma_spent_from_stable(pre, m0, cache@);
            assert(cur.drop_last() =~= pre);
            assert(cur.last() == (op, txid));
        }
        match res {
            None => {
                proof {
                    lemma_spends_looked_up_push(pre, cur, cache@);
                }
            },
            Some(tx) => {
                match tx.block {
                    Some(b) => {
                        spent.push((op, txid, b));
                        proof {
                            lemma_spends_looked_up_push(pre, cur, cache@);
                            assert(spent@ =~= spent_from(cur, cache@));
                        }
                    },
                    None => {
                        let ghost m1 = cache@;
                        let ghost ts = tx.conflicting_txs@;
                        let ghost base = spent@;
                        let mut k: usize = 0;
                        while k < tx.conflicting_txs.len()
                            invariant
                                0 <= k <= ts.len(),
                                ts == tx.conflicting_txs@,
                                cache.wf(),
                                extends(start, cache@),
                                extends(m1, cache@),
                                m1.contains_key(txid),
                                m1[txid] == Some(tx@),
                                spends_looked_up(pre, cache@),
                                base == spent_from(pre, cache@),
                                forall|j: int| 0 <= j < k ==> cache@.contains_key(#[trigger] ts[j]),
                                spent@ == base + confirmed_conflicts(op, ts.subrange(0, k as int), cache@),
                            decreases ts.len() - k,
                        {
                            let t = tx.conflicting_txs[k];
                            let ghost m2 = cache@;
                            let c = cache.get_transaction(rpc, &t);
                            proof {
                                lemma_spends_looked_up_grow(pre, m2, cache@);
                                lemma_spent_from_stable(pre, m2, cache@);
                                lemma_conflicts_stable(op, ts.subrange(0, k as int), m2, cache@);
                                assert(ts.subrange(0, k + 1).drop_last() =~= ts.subrange(0, k as int));
                                assert(ts.subrange(0, k + 1).last() == t);
                                assert forall|j: int| 0 <= j < k + 1 implies cache@.contains_key(#[trigger] ts[j]) by {
                                    if j < k {
                                        assert(m2.contains_key(ts[j]));
                                    }
                                }
                            }
                            match c {
                                Some(ctx) => {
                                    match ctx.block {
                                        Some(b) => {
                                            spent.push((op, t, b));
                                        },
                                        None => {},
                                    }
                                },
                                None => {},
                            }
                            proof {
                                assert(spent@ =~= base + confirmed_conflicts(op, ts.subrange(0, k + 1), cache@));
                            }
                            k = k + 1;
                        }
                        proof {
                            assert(ts.subrange(0, ts.len() as int) =~= ts);
                            assert(cache@[txid] == m1[txid]);
                            lemma_spends_looked_up_push(pre, cur, cache@);
                            assert(spent@ =~= spent_from(cur, cache@));
                        }
                    },
                }
            },
        }
        i = i + 1;
    }
    proof {
        cache.lemma_queries_counted();
        assert(cands@.subrange(0, cands@.len() as int) =~= cands@);
    }
    spent
}

proof fn lemma_spends_looked_up_grow(
    cands: Seq<(OutPoint, Txid)>,
    m1: Map<Txid, Option<TxView>>,
    m2: Map<Txid, Option<TxView>>,
)
    requires
        spends_looked_up(cands, m1),
        extends(m1, m2),
    ensures
        spends_looked_up(cands, m2),
{
    assert forall|i: int| 0 <= i < cands.len() implies spend_looked_up(#[trigger] cands[i].1, m2) by {
        let t = cands[i].1;
        assert(spend_looked_up(t, m1));
        assert(m1.contains_key(t));
        if is_pending(m2[t]) {
            assert forall|k: int| 0 <= k < tx_conflicts(m2[t]->0).len() implies m2.contains_key(
                #[trigger] tx_conflicts(m2[t]->0)[k],
            ) by {
                assert(m1.contains_key(tx_conflicts(m1[t]->0)[k]));
            }
        }
    }
}

proof fn lemma_spends_looked_up_push(
    pre: Seq<(OutPoint, Txid)>,
    cur: Seq<(OutPoint, Txid)>,
    m: Map<Txid, Option<TxView>>,
)
    requires
        spends_looked_up(pre, m),
        cur.len() == pre.len() + 1,
        cur.drop_last() == pre,
        spend_looked_up(cur.last().1, m),
    ensures
        spends_looked_up(cur, m),
{
    assert forall|i: int| 0 <= i < cur.len() implies spend_looked_up(#[trigger] cur[i].1, m) by {
        if i < pre.len() {
            assert(cur[i] == pre[i]);
        }
    }
}

/// Whether `op` is the outpoint of one of the spender candidates.
pub open spec fn is_candidate(cands: Seq<(OutPoint, Txid)>, op: OutPoint) -> bool {
    exists|i: int| 0 <= i < cands.len() && cands[i].0 == op
}

/// Each spend found is the spend of one of the candidates.
pub proof fn lemma_spent_from_member(
    cands: Seq<(OutPoint, Txid)>,
    m: Map<Txid, Option<TxView>>,
    k: int,
)
    requires
        0 <= k < spent_from(cands, m).len(),
    ensures
        is_candidate(cands, spent_from(cands, m)[k].0),
    decreases cands.len(),
{
    let prev = spent_from(cands.drop_last(), m);
    let (op, txid) = cands.last();
    if k < prev.len() {
        lemma_spent_from_member(cands.drop_last(), m, k);
        let i = choose|i: int|
            0 <= i < cands.drop_last().len() && cands.drop_last()[i].0 == prev[k].0;
        assert(cands[i] == cands.drop_last()[i]);
    } else {
        lemma_resolve_spend_outpoint(op, txid, m, k - prev.len());
        assert(cands[cands.len() - 1] == cands.last());
    }
}

proof fn lemma_resolve_spend_outpoint(op: OutPoint, txid: Txid, m: Map<Txid, Option<TxView>>, k: int)
    requires
        0 <= k < resolve_spend(op, txid, m).len(),
    ensures
        resolve_spend(op, txid, m)[k].0 == op,
{
    if m[txid] is Some && tx_block(m[txid]->0) is None {
        lemma_conflicts_outpoint(op, tx_conflicts(m[txid]->0), m, k);
    }
}

proof fn lemma_conflicts_outpoint(op: OutPoint, ts: Seq<Txid>, m: Map<Txid, Option<TxView>>, k: int)
    requires
        0 <= k < confirmed_conflicts(op, ts, m).len(),
    ensures
        confirmed_conflicts(op, ts, m)[k].0 == op,
    decreases ts.len(),
{
    if k < confirmed_conflicts(op, ts.drop_last(), m).len() {
        lemma_conflicts_outpoint(op, ts.drop_last(), m, k);
    }
}

/// The spend reported for `op`, given whether the node reports it spent and
/// the spender it names.
pub open spec fn spend_of_spec(op: OutPoint, spent: bool, spender: Option<Txid>) -> Option<(OutPoint, Txid)> {
    if spent {
        match spender {
            Some(t) => Some((op, t)),
            None => None,
        }
    } else {
        None
    }
}

pub fn spend_of(op: OutPoint, spent: bool, spender: Option<Txid>) -> (r: Option<(OutPoint, Txid)>)
    ensures
        r == spend_of_spec(op, spent, spender),
{
    if spent {
        match spender {
            Some(t) => Some((op, t)),
            None => None,
        }
    } else {
        None
    }
}

/// The spends of `ops`, in order, given the node's answers, one per
/// outpoint: whether it is spent, and the spender it names.
pub open spec fn spends_from(ops: Seq<OutPoint>, answers: Seq<(bool, Option<Txid>)>) -> Seq<(OutPoint, Txid)>
    decreases ops.len(),
{
    if ops.len() == 0 || answers.len() == 0 {
        seq![]
    } else {
        let prev = spends_from(ops.drop_last(), answers.drop_last());
        match spend_of_spec(ops.last(), answers.last().0, answers.last().1) {
            Some(e) => prev.push(e),
            None => prev,
        }
    }
}

/// Ask the node which of `ops` are spent, and by which transaction; the
/// answers are appended to `answers`, one per outpoint (the spender is asked
/// only of a spent outpoint). An outpoint reported spent whose spender the
/// node cannot name is left out.
pub fn detect_spends<C: BitcoindRpc>(
    rpc: &C,
    answers: &mut Vec<(bool, Option<Txid>)>,
    ops: &Vec<OutPoint>,
) -> (r: Vec<(OutPoint, Txid)>)
    ensures
        final(answers)@.len() == old(answers)@.len() + ops@.len(),
        final(answers)@.take(old(answers)@.len() as int) == old(answers)@,
        forall|i: int|
            0 <= i < ops@.len() ==> !(#[trigger] final(answers)@[old(answers)@.len() + i]).0
                ==> final(answers)@[old(answers)@.len() + i].1 is None,
        r@ == spends_from(ops@, final(answers)@.skip(old(answers)@.len() as int)),
        r@.len() <= ops@.len(),
        forall|k: int| 0 <= k < r@.len() ==> contains_outpoint(ops@, (#[trigger] r@[k]).0),
{
    let mut spending: Vec<(OutPoint, Txid)> = Vec::new();
    let ghost start = answers@;
    let mut i: usize = 0;
    while i < ops.len()
        invariant
            0 <= i <= ops@.len(),
            answers@.len() == start.len() + i,
            answers@.take(start.len() as int) == start,
            forall|j: int|
                0 <= j < i ==> !(#[trigger] answers@[start.len() + j]).0 ==> answers@[start.len() + j].1 is None,
            spending@ == spends_from(ops@.subrange(0, i as int), answers@.skip(start.len() as int)),
            spending@.len() <= i,
            forall|k: int| 0 <= k < spending@.len() ==> contains_outpoint(ops@, (#[trigger] spending@[k]).0),
        decreases ops@.len() - i,
    {
        let op = ops[i];
        let ghost before = answers@;
        let spent = rpc.is_spent(&op);
        let spender = if spent {
            rpc.get_spender_txid(&op)
        } else {
            None
        };
        answers.push((spent, spender));
        proof {
            let pre = ops@.subrange(0, i as int);
            let cur = ops@.subrange(0, i + 1);
            assert(cur.drop_last() =~= pre);
            assert(cur.last() == op);
            assert(answers@.skip(start.len() as int) =~= before.skip(start.len() as int).push((spent, spender)));
            assert(answers@.skip(start.len() as int).drop_last() =~= before.skip(start.len() as int));
            assert(answers@.take(start.len() as int) =~= start);
            assert forall|j: int| 0 <= j < i + 1 implies !(#[trigger] answers@[start.len() + j]).0
                ==> answers@[start.len() + j].1 is None by {
                if j < i {
                    assert(answers@[start.len() + j] == before[start.len() + j]);
                }
            }
        }
        match spend_of(op, spent, spender) {
            Some(e) => {
                spending.push(e);
                proof {
                    assert(ops@[i as int] == op);
                }
            },
            None => {},
        }
        i = i + 1;
    }
    proof {
        assert(ops@.subrange(0, ops@.len() as int) =~= ops@);
    }
    spending
}

/// One step of the walk back to the common ancestor, from the statistics of
/// the current candidate.
#[derive(Debug, Clone, Copy, PartialEq, Eq)]
pub enum Walk {
    /// The candidate is in the best chain: it is the common ancestor.
    Found(BlockChainTip),
    /// The candidate is not: go on with its parent.
    Parent(BlockHash),
    /// The candidate is not, and the node names no parent.
    Lost,
}

pub open spec fn next_ancestor_spec(ancestor: BlockChainTip, stats: BlockStats) -> Walk {
    if stats.confirmations != -1 {
        Walk::Found(ancestor)
    } else {
        match stats.previous_blockhash {
            Some(h) => Walk::Parent(h),
            None => Walk::Lost,
        }
    }
}

pub fn next_ancestor(ancestor: &BlockChainTip, stats: &BlockStats) -> (r: Walk)
    ensures
        r == next_ancestor_spec(*ancestor, *stats),
{
    if stats.confirmations != -1 {
        Walk::Found(*ancestor)
    } else {
        match stats.previous_blockhash {
            Some(h) => Walk::Parent(h),
            None => Walk::Lost,
        }
    }
}

/// The next candidate, from the statistics of the current one's parent;
/// `None` if the parent does not stand below it.
pub open spec fn parent_tip_spec(ancestor: BlockChainTip, parent: BlockStats) -> Option<BlockChainTip> {
    if 0 <= parent.height < ancestor.height {
        Some(BlockChainTip { hash: parent.blockhash, height: parent.height })
    } else {
        None
    }
}

pub fn parent_tip(ancestor: &BlockChainTip, parent: &BlockStats) -> (r: Option<BlockChainTip>)
    ensures
        r == parent_tip_spec(*ancestor, *parent),
{
    if 0 <= parent.height && parent.height < ancestor.height {
        Some(BlockChainTip { hash: parent.blockhash, height: parent.height })
    } else {
        None
    }
}

/// Where the walk from `ancestor` arrives, given the statistics of each
/// block it visits in turn, the first being those of `ancestor` itself.
pub open spec fn walk_result(ancestor: BlockChainTip, walk: Seq<BlockStats>) -> Option<BlockChainTip>
    decreases walk.len(),
{
    if walk.len() == 0 {
        None
    } else {
        match next_ancestor_spec(ancestor, walk[0]) {
            Walk::Found(a) => Some(a),
            Walk::Lost => None,
            Walk::Parent(_) => if walk.len() < 2 {
                None
            } else {
                match parent_tip_spec(ancestor, walk[1]) {
                    Some(p) => walk_result(p, walk.drop_first()),
                    None => None,
                }
            },
        }
    }
}

/// Walk back from `tip` while the node reports the block as out of its best
/// chain, and return the first block that is in it. The statistics the node
/// gave for each block visited are appended to `walk`. `None` if the node
/// has no parent to go on with, or its parents do not go down in height.
pub fn find_common_ancestor<C: BitcoindRpc>(
    rpc: &C,
    tip: &BlockChainTip,
    walk: &mut Vec<BlockStats>,
) -> (r: Option<BlockChainTip>)
    ensures
        final(walk)@.len() > old(walk)@.len(),
        final(walk)@.take(old(walk)@.len() as int) == old(walk)@,
        r == walk_result(*tip, final(walk)@.skip(old(walk)@.len() as int)),
        r matches Some(a) ==> a.height <= tip.height,
        r matches Some(a) ==> a == *tip || (0 <= a.height < tip.height),
{
    let ghost start = walk@;
    let mut stats: BlockStats = rpc.get_block_stats(&tip.hash);
    let mut ancestor: BlockChainTip = *tip;
    walk.push(stats);
    proof {
        assert(walk@.take(start.len() as int) =~= start);
        assert forall|ext: Seq<BlockStats>| #[trigger] walk_result(*tip, walk@.skip(start.len() as int) + ext)
            == walk_result(ancestor, seq![stats] + ext) by {
            assert(walk@.skip(start.len() as int) + ext =~= seq![stats] + ext);
        }
    }
    loop
        invariant
            ancestor.height <= tip.height,
            ancestor == *tip || (0 <= ancestor.height < tip.height),
            start == old(walk)@,
            walk@.len() > start.len(),
            walk@.take(start.len() as int) == start,
            forall|ext: Seq<BlockStats>| #[trigger] walk_result(*tip, walk@.skip(start.len() as int) + ext)
                == walk_result(ancestor, seq![stats] + ext),
        decreases ancestor.height + 1,
    {
        let ghost w = walk@.skip(start.len() as int);
        match next_ancestor(&ancestor, &stats) {
            Walk::Found(a) => {
                proof {
                    assert(w + Seq::<BlockStats>::empty() =~= w);
                    assert(walk_result(*tip, w + Seq::<BlockStats>::empty()) == walk_result(ancestor, seq![stats] + Seq::<BlockStats>::empty()));
                    assert(seq![stats] + Seq::<BlockStats>::empty() =~= seq![stats]);
                    assert(seq![stats][0] == stats);
                }
                return Some(a);
            },
            Walk::Lost => {
                proof {
                    assert(w + Seq::<BlockStats>::empty() =~= w);
                    assert(walk_result(*tip, w + Seq::<BlockStats>::empty()) == walk_result(ancestor, seq![stats] + Seq::<BlockStats>::empty()));
                    assert(seq![stats] + Seq::<BlockStats>::empty() =~= seq![stats]);
                    assert(seq![stats][0] == stats);
                }
                return None;
            },
            Walk::Parent(prev) => {
                let next = rpc.get_block_stats(&prev);
                let ghost old_anc = ancestor;
                let ghost old_stats = stats;
                walk.push(next);
                proof {
                    assert(walk@.take(start.len() as int) =~= start);
                    assert(walk@.skip(start.len() as int) =~= w.push(next));
                    assert forall|ext: Seq<BlockStats>| #[trigger] walk_result(old_anc, seq![old_stats] + (seq![next] + ext))
                        == match parent_tip_spec(old_anc, next) {
                            Some(p) => walk_result(p, seq![next] + ext),
                            None => None,
                        } by {
                        let full = seq![old_stats] + (seq![next] + ext);
                        assert(full[0] == old_stats);
                        assert(full[1] == next);
                        assert(full.drop_first() =~= seq![next] + ext);
                    }
                    assert forall|ext: Seq<BlockStats>| walk_result(*tip, walk@.skip(start.len() as int) + ext)
                        == #[trigger] walk_result(old_anc, seq![old_stats] + (seq![next] + ext)) by {
                        assert(w.push(next) + ext =~= w + (seq![next] + ext));
                    }
                }
                match parent_tip(&ancestor, &next) {
                    Some(p) => {
                        proof {
                            assert forall|ext: Seq<BlockStats>| #[trigger] walk_result(*tip, walk@.skip(start.len() as int) + ext)
                                == walk_result(p, seq![next] + ext) by {
                                assert(walk_result(old_anc, seq![old_stats] + (seq![next] + ext)) == walk_result(p, seq![next] + ext));
                            }
                        }
                        stats = next;
                        ancestor = p;
                    },
                    None => {
                        proof {
                            let e = Seq::<BlockStats>::empty();
                            assert(walk@.skip(start.len() as int) + e =~= walk@.skip(start.len() as int));
                            assert(walk_result(old_anc, seq![old_stats] + (seq![next] + e)) == None::<BlockChainTip>);
                        }
                        return None;
                    },
                }
            },
        }
    }
}

/// When the recorded spender is known and unconfirmed, and exactly one of
/// the transactions conflicting with it is confirmed, the spend found is that
/// conflicting transaction with its block.
pub proof fn lemma_conflict_substitution(
    op: OutPoint,
    txid: Txid,
    m: Map<Txid, Option<TxView>>,
    winner: int,
)
    requires
        is_pending(m[txid]),
        0 <= winner < tx_conflicts(m[txid]->0).len(),
        confirming_block(m[tx_conflicts(m[txid]->0)[winner]]) is Some,
        forall|k: int|
            0 <= k < tx_conflicts(m[txid]->0).len() && k != winner ==> confirming_block(
                m[#[trigger] tx_conflicts(m[txid]->0)[k]],
            ) is None,
    ensures
        resolve_spend(op, txid, m) == seq![
            (
                op,
                tx_conflicts(m[txid]->0)[winner],
                confirming_block(m[tx_conflicts(m[txid]->0)[winner]])->0,
            ),
        ],
{
    let ts = tx_conflicts(m[txid]->0);
    lemma_single_conflict(op, ts, m, winner);
}

proof fn lemma_single_conflict(op: OutPoint, ts: Seq<Txid>, m: Map<Txid, Option<TxView>>, winner: int)
    requires
        0 <= winner < ts.len(),
        confirming_block(m[ts[winner]]) is Some,
        forall|k: int| 0 <= k < ts.len() && k != winner ==> confirming_block(m[#[trigger] ts[k]]) is None,
    ensures
        confirmed_conflicts(op, ts, m) == seq![(op, ts[winner], confirming_block(m[ts[winner]])->0)],
    decreases ts.len(),
{
    let pre = ts.drop_last();
    if winner < ts.len() - 1 {
        assert forall|k: int| 0 <= k < pre.len() && k != winner implies confirming_block(
            m[#[trigger] pre[k]],
        ) is None by {
            assert(pre[k] == ts[k]);
        }
        assert(pre[winner] == ts[winner]);
        lemma_single_conflict(op, pre, m, winner);
        assert(confirming_block(m[ts[ts.len() - 1]]) is None);
    } else {
        lemma_no_conflict(op, pre, m);
    }
}

proof fn lemma_no_conflict(op: OutPoint, ts: Seq<Txid>, m: Map<Txid, Option<TxView>>)
    requires
        forall|k: int| 0 <= k < ts.len() ==> confirming_block(m[#[trigger] ts[k]]) is None,
    ensures
        confirmed_conflicts(op, ts, m) == Seq::<(OutPoint, Txid, Block)>::empty(),
    decreases ts.len(),
{
    if ts.len() > 0 {
        let pre = ts.drop_last();
        assert forall|k: int| 0 <= k < pre.len() implies confirming_block(m[#[trigger] pre[k]]) is None by {
            assert(pre[k] == ts[k]);
        }
        lemma_no_conflict(op, pre, m);
        assert(confirming_block(m[ts[ts.len() - 1]]) is None);
    }
}

/// In a list of spender candidates where an outpoint occurs once, with a
/// recorded spender that is known and unconfirmed, and exactly one confirmed
/// transaction conflicting with it: the spends found hold exactly one entry
/// for that outpoint, and it is the conflicting transaction with its block.
pub proof fn lemma_conflict_substitution_in_list(
    cands: Seq<(OutPoint, Txid)>,
    m: Map<Txid, Option<TxView>>,
    i: int,
    winner: int,
)
    requires
        0 <= i < cands.len(),
        forall|j: int| 0 <= j < cands.len() && j != i ==> (#[trigger] cands[j]).0 != cands[i].0,
        is_pending(m[cands[i].1]),
        0 <= winner < tx_conflicts(m[cands[i].1]->0).len(),
        confirming_block(m[tx_conflicts(m[cands[i].1]->0)[winner]]) is Some,
        forall|k: int|
            0 <= k < tx_conflicts(m[cands[i].1]->0).len() && k != winner ==> confirming_block(
                m[#[trigger] tx_conflicts(m[cands[i].1]->0)[k]],
            ) is None,
    ensures
        ({
            let c = tx_conflicts(m[cands[i].1]->0)[winner];
            let e = (cands[i].0, c, confirming_block(m[c])->0);
            exists|k: int|
                0 <= k < spent_from(cands, m).len() && spent_from(cands, m)[k] == e && forall|k2: int|
                    0 <= k2 < spent_from(cands, m).len() && (#[trigger] spent_from(cands, m)[k2]).0
                        == cands[i].0 ==> k2 == k
        }),
    decreases cands.len(),
{
    let (op, txid) = cands[i];
    let c = tx_conflicts(m[txid]->0)[winner];
    let e = (op, c, confirming_block(m[c])->0);
    let pre = cands.drop_last();
    let sp = spent_from(pre, m);
    let (lop, ltxid) = cands.last();
    let r = resolve_spend(lop, ltxid, m);
    let s = spent_from(cands, m);
    assert(s == sp + r);
    if i == cands.len() - 1 {
        lemma_conflict_substitution(op, txid, m, winner);
        assert(r == seq![e]);
        assert forall|k2: int| 0 <= k2 < s.len() && (#[trigger] s[k2]).0 == op implies k2 == sp.len() by {
            if k2 < sp.len() {
                lemma_spent_from_member(pre, m, k2);
                let j = choose|j: int| 0 <= j < pre.len() && pre[j].0 == sp[k2].0;
                assert(pre[j] == cands[j]);
            }
        }
        assert(s[sp.len() as int] == e);
    } else {
        assert forall|j: int| 0 <= j < pre.len() && j != i implies (#[trigger] pre[j]).0 != pre[i].0 by {
            assert(pre[j] == cands[j]);
        }
        assert(pre[i] == cands[i]);
        lemma_conflict_substitution_in_list(pre, m, i, winner);
        let k = choose|k: int|
            0 <= k < sp.len() && sp[k] == e && forall|k2: int|
                0 <= k2 < sp.len() && (#[trigger] sp[k2]).0 == op ==> k2 == k;
        assert(lop != op) by {
            assert(cands[cands.len() - 1] == cands.last());
        }
        assert forall|k2: int| 0 <= k2 < s.len() && (#[trigger] s[k2]).0 == op implies k2 == k by {
            if k2 >= sp.len() {
                lemma_resolve_spend_outpoint(lop, ltxid, m, k2 - sp.len());
            } else {
                assert(s[k2] == sp[k2]);
            }
        }
        assert(s[k] == sp[k]);
    }
}

} // verus!
