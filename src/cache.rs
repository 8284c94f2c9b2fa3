use vstd::prelude::*;

use crate::chain::{Block, Txid};
use crate::node::BitcoindRpc;

verus! {

/// What the node's wallet knows of one transaction: the block that confirmed
/// it, if any, the ids of the transactions that conflict with it, and its
/// consensus serialization.
#[derive(Debug, Clone, PartialEq, Eq)]
pub struct TxResult {
    pub block: Option<Block>,
    pub conflicting_txs: Vec<Txid>,
    pub tx: Vec<u8>,
}

/// The mathematical content of a `TxResult`.
pub type TxView = (Option<Block>, Seq<Txid>, Seq<u8>);

impl View for TxResult {
    type V = TxView;

    open spec fn view(&self) -> TxView {
        (self.block, self.conflicting_txs@, self.tx@)
    }
}

pub open spec fn tx_block(t: TxView) -> Option<Block> {
    t.0
}

pub open spec fn tx_conflicts(t: TxView) -> Seq<Txid> {
    t.1
}

/// The view of an optional lookup result.
pub open spec fn opt_view(r: Option<TxResult>) -> Option<TxView> {
    match r {
        Some(t) => Some(t@),
        None => None,
    }
}

pub fn copy_vec<T: Copy>(v: &Vec<T>) -> (r: Vec<T>)
    ensures
        r@ == v@,
{
    let mut r: Vec<T> = Vec::new();
    let mut i: usize = 0;
    while i < v.len()
        invariant
            0 <= i <= v@.len(),
            r@ == v@.subrange(0, i as int),
        decreases v@.len() - i,
    {
        r.push(v[i]);
        i = i + 1;
    }
    proof {
        assert(r@ =~= v@);
    }
    r
}

impl TxResult {
    pub fn duplicate(&self) -> (r: TxResult)
        ensures
            r@ == self@,
    {
        TxResult {
            block: self.block,
            conflicting_txs: copy_vec(&self.conflicting_txs),
            tx: copy_vec(&self.tx),
        }
    }
}

fn duplicate_opt(r: &Option<TxResult>) -> (c: Option<TxResult>)
    ensures
        opt_view(c) == opt_view(*r),
{
    match r {
        Some(t) => Some(t.duplicate()),
        None => None,
    }
}

/// Memoizes the node's transaction lookups for the length of one
/// reconciliation pass: each distinct transaction id is asked of the node at
/// most once, and a repeated lookup returns what the first one returned.
pub struct CachedTxGetter {
    entries: Vec<(Txid, Option<TxResult>)>,
    known: Ghost<Map<Txid, Option<TxView>>>,
}

impl CachedTxGetter {
    /// The lookups made so far, by transaction id.
    pub closed spec fn view(&self) -> Map<Txid, Option<TxView>> {
        self.known@
    }

    /// The number of queries made to the node so far.
    pub closed spec fn spec_queries(&self) -> nat {
        self.entries@.len()
    }

    pub closed spec fn wf(&self) -> bool {
        &&& self.entries@.len() == self.known@.dom().len()
        &&& self.known@.dom().finite()
        &&& forall|i: int|
            0 <= i < self.entries@.len() ==> {
                &&& #[trigger] self.known@.contains_key(self.entries@[i].0)
                &&& self.known@[self.entries@[i].0] == opt_view(self.entries@[i].1)
            }
        &&& forall|t: Txid|
            #[trigger] self.known@.contains_key(t) ==> exists|i: int|
                0 <= i < self.entries@.len() && self.entries@[i].0 == t
    }

    pub fn new() -> (c: CachedTxGetter)
        ensures
            c.wf(),
            c@ == Map::<Txid, Option<TxView>>::empty(),
            c.spec_queries() == 0,
    {
        CachedTxGetter { entries: Vec::new(), known: Ghost(Map::empty()) }
    }

    /// One query has been made for each transaction id looked up.
    pub proof fn lemma_queries_counted(&self)
        requires
            self.wf(),
        ensures
            self.spec_queries() == self@.dom().len(),
    {
    }

    /// The number of queries made to the node so far.
    pub fn queries(&self) -> (n: usize)
        ensures
            n == self.spec_queries(),
    {
        self.entries.len()
    }

    fn find(&self, txid: &Txid) -> (r: Option<usize>)
        requires
            self.wf(),
        ensures
            match r {
                Some(i) => i < self.entries@.len() && self.entries@[i as int].0 == *txid,
                None => !self@.contains_key(*txid),
            },
    {
        let mut i: usize = 0;
        while i < self.entries.len()
            invariant
                self.wf(),
                0 <= i <= self.entries@.len(),
                forall|j: int| 0 <= j < i ==> self.entries@[j].0 != *txid,
            decreases self.entries@.len() - i,
        {
            if self.entries[i].0.equals(txid) {
                return Some(i);
            }
            i = i + 1;
        }
        None
    }

    /// Look a transaction up, asking the node only if this id was not looked
    /// up before.
    pub fn get_transaction<C: BitcoindRpc>(&mut self, rpc: &C, txid: &Txid) -> (r: Option<TxResult>)
        requires
            old(self).wf(),
        ensures
            final(self).wf(),
            final(self)@.contains_key(*txid),
            opt_view(r) == final(self)@[*txid],
            final(self).spec_queries() == final(self)@.dom().len(),
            old(self)@.contains_key(*txid) ==> final(self)@ == old(self)@,
            old(self)@.contains_key(*txid) ==> final(self).spec_queries() == old(self).spec_queries(),
            !old(self)@.contains_key(*txid) ==> final(self)@ == old(self)@.insert(*txid, opt_view(r)),
            !old(self)@.contains_key(*txid) ==> final(self).spec_queries() == old(self).spec_queries() + 1,
    {
        match self.find(txid) {
            Some(i) => duplicate_opt(&self.entries[i].1),
            None => {
                let res = rpc.get_transaction(txid);
                let kept = duplicate_opt(&res);
                let ghost before = self.entries@;
                self.entries.push((*txid, kept));
                self.known = Ghost(self.known@.insert(*txid, opt_view(res)));
                proof {
                    assert(self.entries@[before.len() as int].0 == *txid);
                    assert forall|t: Txid| #[trigger] self.known@.contains_key(t) implies exists|
                        i: int,
                    | 0 <= i < self.entries@.len() && self.entries@[i].0 == t by {
                        if t != *txid {
                            let k = choose|k: int| 0 <= k < before.len() && before[k].0 == t;
                            assert(self.entries@[k] == before[k]);
                        } else {
                            assert(self.entries@[before.len() as int].0 == t);
                        }
                    }
                    assert forall|i: int| 0 <= i < self.entries@.len() implies {
                        &&& #[trigger] self.known@.contains_key(self.entries@[i].0)
                        &&& self.known@[self.entries@[i].0] == opt_view(self.entries@[i].1)
                    } by {
                        if i < before.len() {
                            assert(self.entries@[i] == before[i]);
                            assert(before[i].0 != *txid);
                        }
                    }
                }
                res
            }
        }
    }
}

} // verus!
