use vstd::prelude::*;

use crate::chain::{contains_outpoint, find_outpoint, Block, BlockChainTip, OutPoint, Txid, UTxO};
use crate::bitcoind::is_candidate;
use crate::interface::BitcoinInterface;
use crate::stability::{distinct_outpoints, lemma_applied_distinct, lemma_fresh_distinct};

verus! {

/// Height and time of the block that confirmed a transaction.
#[derive(Debug, Clone, Copy, PartialEq, Eq)]
pub struct BlockInfo {
    pub height: i32,
    pub time: u32,
}

/// A wallet coin and what is known of its creation and its spend.
#[derive(Debug, Clone, Copy, PartialEq, Eq)]
pub struct Coin {
    pub outpoint: OutPoint,
    pub amount: u64,
    pub block_info: Option<BlockInfo>,
    pub spend_txid: Option<Txid>,
    pub spend_block: Option<BlockInfo>,
}

/// Where a coin stands in its life.
#[derive(Debug, Clone, Copy, PartialEq, Eq)]
pub enum CoinState {
    Unconfirmed,
    Confirmed(BlockInfo),
    Spending(Txid),
    Spent(Txid, BlockInfo),
}

pub open spec fn state_of(c: Coin) -> CoinState {
    match (c.spend_txid, c.spend_block) {
        (Some(t), Some(b)) => CoinState::Spent(t, b),
        (Some(t), None) => CoinState::Spending(t),
        _ => match c.block_info {
            Some(b) => CoinState::Confirmed(b),
            None => CoinState::Unconfirmed,
        },
    }
}

impl WalletState {
    /// The coin set holds at most one coin per outpoint.
    pub open spec fn wf(&self) -> bool {
        distinct_outpoints(self.coins@)
    }
}

impl Coin {
    pub fn state(&self) -> (r: CoinState)
        ensures
            r == state_of(*self),
    {
        match (self.spend_txid, self.spend_block) {
            (Some(t), Some(b)) => CoinState::Spent(t, b),
            (Some(t), None) => CoinState::Spending(t),
            _ => match self.block_info {
                Some(b) => CoinState::Confirmed(b),
                None => CoinState::Unconfirmed,
            },
        }
    }
}

/// What one reconciliation pass found, to be applied to the coin set.
#[derive(Debug, Clone)]
pub struct Delta {
    pub new_tip: BlockChainTip,
    pub received: Vec<UTxO>,
    pub confirmed: Vec<(OutPoint, i32, u32)>,
    pub expired: Vec<OutPoint>,
    pub spending: Vec<(OutPoint, Txid)>,
    pub spent: Vec<(OutPoint, Txid, Block)>,
}

// ---------------------------------------------------------------- rollback

/// A coin as it stands once every block above `height` is discarded.
pub open spec fn demote(c: Coin, height: int) -> Coin {
    Coin {
        block_info: match c.block_info {
            Some(b) => if b.height > height { None } else { Some(b) },
            None => None,
        },
        spend_block: match c.spend_block {
            Some(b) => if b.height > height { None } else { Some(b) },
            None => None,
        },
        ..c
    }
}

pub open spec fn rolled_back(coins: Seq<Coin>, height: int) -> Seq<Coin> {
    coins.map_values(|c: Coin| demote(c, height))
}

fn demote_coin(c: Coin, height: i32) -> (r: Coin)
    ensures
        r == demote(c, height as int),
{
    let block_info = match c.block_info {
        Some(b) => if b.height > height { None } else { Some(b) },
        None => None,
    };
    let spend_block = match c.spend_block {
        Some(b) => if b.height > height { None } else { Some(b) },
        None => None,
    };
    Coin { block_info, spend_block, ..c }
}

/// Forget every confirmation, of a coin or of its spend, that a block above
/// `height` gave.
pub fn rollback(coins: &mut Vec<Coin>, height: i32)
    ensures
        final(coins)@ == rolled_back(old(coins)@, height as int),
{
    let ghost orig = coins@;
    let mut i: usize = 0;
    while i < coins.len()
        invariant
            0 <= i <= coins@.len(),
            coins@.len() == orig.len(),
            forall|j: int| 0 <= j < i ==> coins@[j] == demote(orig[j], height as int),
            forall|j: int| i <= j < orig.len() ==> coins@[j] == orig[j],
        decreases coins@.len() - i,
    {
        let c = demote_coin(coins[i], height);
        coins.set(i, c);
        i = i + 1;
    }
    proof {
        assert(coins@ =~= rolled_back(orig, height as int));
    }
}

// --------------------------------------------------------------- discovery

/// Whether the coin set holds a coin at `op`.
pub open spec fn has_coin(coins: Seq<Coin>, op: OutPoint) -> bool {
    exists|i: int| 0 <= i < coins.len() && coins[i].outpoint == op
}

pub open spec fn has_utxo(us: Seq<UTxO>, op: OutPoint) -> bool {
    exists|i: int| 0 <= i < us.len() && us[i].outpoint == op
}

/// The reported outputs that the coin set does not hold yet, each once, in
/// the order of their first report.
pub open spec fn fresh_utxos(coins: Seq<Coin>, us: Seq<UTxO>) -> Seq<UTxO>
    decreases us.len(),
{
    if us.len() == 0 {
        seq![]
    } else {
        let prev = fresh_utxos(coins, us.drop_last());
        let u = us.last();
        if has_coin(coins, u.outpoint) || has_utxo(prev, u.outpoint) {
            prev
        } else {
            prev.push(u)
        }
    }
}

fn coin_at(coins: &Vec<Coin>, op: &OutPoint) -> (r: bool)
    ensures
        r == has_coin(coins@, *op),
{
    let mut i: usize = 0;
    while i < coins.len()
        invariant
            0 <= i <= coins@.len(),
            forall|j: int| 0 <= j < i ==> coins@[j].outpoint != *op,
        decreases coins@.len() - i,
    {
        if coins[i].outpoint.equals(op) {
            return true;
        }
        i = i + 1;
    }
    false
}

fn utxo_at(us: &Vec<UTxO>, op: &OutPoint) -> (r: bool)
    ensures
        r == has_utxo(us@, *op),
{
    let mut i: usize = 0;
    while i < us.len()
        invariant
            0 <= i <= us@.len(),
            forall|j: int| 0 <= j < i ==> us@[j].outpoint != *op,
        decreases us@.len() - i,
    {
        if us[i].outpoint.equals(op) {
            return true;
        }
        i = i + 1;
    }
    false
}

/// Keep the reported outputs that are new to the coin set.
pub fn new_received(coins: &Vec<Coin>, us: &Vec<UTxO>) -> (r: Vec<UTxO>)
    ensures
        r@ == fresh_utxos(coins@, us@),
{
    let mut r: Vec<UTxO> = Vec::new();
    let mut i: usize = 0;
    while i < us.len()
        invariant
            0 <= i <= us@.len(),
            r@ == fresh_utxos(coins@, us@.subrange(0, i as int)),
        decreases us@.len() - i,
    {
        proof {
            assert(us@.subrange(0, i + 1).drop_last() =~= us@.subrange(0, i as int));
        }
        let u = &us[i];
        if !coin_at(coins, &u.outpoint) && !utxo_at(&r, &u.outpoint) {
            r.push(u.duplicate());
        }
        i = i + 1;
    }
    proof {
        assert(us@.subrange(0, us@.len() as int) =~= us@);
    }
    r
}

// --------------------------------------------------------------- selection

pub open spec fn utxo_outpoints(us: Seq<UTxO>) -> Seq<OutPoint> {
    us.map_values(|u: UTxO| u.outpoint)
}

/// The outpoints of the coins whose creation is not confirmed.
pub open spec fn unconfirmed_outpoints(coins: Seq<Coin>) -> Seq<OutPoint>
    decreases coins.len(),
{
    if coins.len() == 0 {
        seq![]
    } else {
        let prev = unconfirmed_outpoints(coins.drop_last());
        if coins.last().block_info is None {
            prev.push(coins.last().outpoint)
        } else {
            prev
        }
    }
}

/// The outpoints of the coins with no known spender.
pub open spec fn unspent_outpoints(coins: Seq<Coin>) -> Seq<OutPoint>
    decreases coins.len(),
{
    if coins.len() == 0 {
        seq![]
    } else {
        let prev = unspent_outpoints(coins.drop_last());
        if coins.last().spend_txid is None {
            prev.push(coins.last().outpoint)
        } else {
            prev
        }
    }
}

/// The coins with a known spender whose spend is not confirmed, with that
/// spender.
pub open spec fn spending_candidates(coins: Seq<Coin>) -> Seq<(OutPoint, Txid)>
    decreases coins.len(),
{
    if coins.len() == 0 {
        seq![]
    } else {
        let prev = spending_candidates(coins.drop_last());
        let c = coins.last();
        match (c.spend_txid, c.spend_block) {
            (Some(t), None) => prev.push((c.outpoint, t)),
            _ => prev,
        }
    }
}

/// The outpoints whose confirmation is to be asked: the unconfirmed coins,
/// then the newly received ones.
pub fn to_be_confirmed(coins: &Vec<Coin>, received: &Vec<UTxO>) -> (r: Vec<OutPoint>)
    ensures
        r@ == unconfirmed_outpoints(coins@) + utxo_outpoints(received@),
{
    let mut r: Vec<OutPoint> = Vec::new();
    let mut i: usize = 0;
    while i < coins.len()
        invariant
            0 <= i <= coins@.len(),
            r@ == unconfirmed_outpoints(coins@.subrange(0, i as int)),
        decreases coins@.len() - i,
    {
        proof {
            assert(coins@.subrange(0, i + 1).drop_last() =~= coins@.subrange(0, i as int));
        }
        if coins[i].block_info.is_none() {
            r.push(coins[i].outpoint);
        }
        i = i + 1;
    }
    proof {
        assert(coins@.subrange(0, coins@.len() as int) =~= coins@);
    }
    append_outpoints(&mut r, received);
    r
}

/// The outpoints whose spend is to be asked: the coins with no known
/// spender, then the newly received ones.
pub fn to_be_spent(coins: &Vec<Coin>, received: &Vec<UTxO>) -> (r: Vec<OutPoint>)
    ensures
        r@ == unspent_outpoints(coins@) + utxo_outpoints(received@),
{
    let mut r: Vec<OutPoint> = Vec::new();
    let mut i: usize = 0;
    while i < coins.len()
        invariant
            0 <= i <= coins@.len(),
            r@ == unspent_outpoints(coins@.subrange(0, i as int)),
        decreases coins@.len() - i,
    {
        proof {
            assert(coins@.subrange(0, i + 1).drop_last() =~= coins@.subrange(0, i as int));
        }
        if coins[i].spend_txid.is_none() {
            r.push(coins[i].outpoint);
        }
        i = i + 1;
    }
    proof {
        assert(coins@.subrange(0, coins@.len() as int) =~= coins@);
    }
    append_outpoints(&mut r, received);
    r
}

fn append_outpoints(r: &mut Vec<OutPoint>, us: &Vec<UTxO>)
    ensures
        final(r)@ == old(r)@ + utxo_outpoints(us@),
{
    let ghost start = r@;
    let mut i: usize = 0;
    while i < us.len()
        invariant
            0 <= i <= us@.len(),
            r@ == start + utxo_outpoints(us@.subrange(0, i as int)),
        decreases us@.len() - i,
    {
        r.push(us[i].outpoint);
        proof {
            assert(utxo_outpoints(us@.subrange(0, i + 1)) =~= utxo_outpoints(
                us@.subrange(0, i as int),
            ).push(us@[i as int].outpoint));
        }
        i = i + 1;
    }
    proof {
        assert(us@.subrange(0, us@.len() as int) =~= us@);
    }
}

/// The spends whose confirmation is to be asked: those of the coins already
/// being spent, then those just detected.
pub fn spend_candidates(coins: &Vec<Coin>, spending: &Vec<(OutPoint, Txid)>) -> (r: Vec<
    (OutPoint, Txid),
>)
    ensures
        r@ == spending_candidates(coins@) + spending@,
{
    let mut r: Vec<(OutPoint, Txid)> = Vec::new();
    let mut i: usize = 0;
    while i < coins.len()
        invariant
            0 <= i <= coins@.len(),
            r@ == spending_candidates(coins@.subrange(0, i as int)),
        decreases coins@.len() - i,
    {
        proof {
            assert(coins@.subrange(0, i + 1).drop_last() =~= coins@.subrange(0, i as int));
        }
        let c = coins[i];
        match (c.spend_txid, c.spend_block) {
            (Some(t), None) => r.push((c.outpoint, t)),
            _ => {},
        }
        i = i + 1;
    }
    proof {
        assert(coins@.subrange(0, coins@.len() as int) =~= coins@);
    }
    let ghost first = r@;
    let mut k: usize = 0;
    while k < spending.len()
        invariant
            0 <= k <= spending@.len(),
            r@ == first + spending@.subrange(0, k as int),
        decreases spending@.len() - k,
    {
        r.push(spending[k]);
        proof {
            assert(spending@.subrange(0, k + 1) =~= spending@.subrange(0, k as int).push(
                spending@[k as int],
            ));
        }
        k = k + 1;
    }
    proof {
        assert(spending@.subrange(0, spending@.len() as int) =~= spending@);
    }
    r
}

// -------------------------------------------------------------- the update

/// The coin a newly received output becomes.
pub open spec fn coin_of(u: UTxO) -> Coin {
    Coin { outpoint: u.outpoint, amount: u.amount, block_info: None, spend_txid: None, spend_block: None }
}

/// A coin after the confirmations of `s` that name it; the last one wins.
pub open spec fn confirm_with(c: Coin, s: Seq<(OutPoint, i32, u32)>) -> Coin
    decreases s.len(),
{
    if s.len() == 0 {
        c
    } else {
        let c1 = confirm_with(c, s.drop_last());
        let e = s.last();
        if e.0 == c.outpoint {
            Coin { block_info: Some(BlockInfo { height: e.1, time: e.2 }), ..c1 }
        } else {
            c1
        }
    }
}

/// A coin after the spends detected in `s` that name it.
pub open spec fn mark_spending(c: Coin, s: Seq<(OutPoint, Txid)>) -> Coin
    decreases s.len(),
{
    if s.len() == 0 {
        c
    } else {
        let c1 = mark_spending(c, s.drop_last());
        let e = s.last();
        if e.0 == c.outpoint {
            Coin { spend_txid: Some(e.1), ..c1 }
        } else {
            c1
        }
    }
}

/// A coin after the confirmed spends of `s` that name it: the spender is the
/// transaction that confirmed, which may replace the one recorded.
pub open spec fn mark_spent(c: Coin, s: Seq<(OutPoint, Txid, Block)>) -> Coin
    decreases s.len(),
{
    if s.len() == 0 {
        c
    } else {
        let c1 = mark_spent(c, s.drop_last());
        let e = s.last();
        if e.0 == c.outpoint {
            Coin {
                spend_txid: Some(e.1),
                spend_block: Some(BlockInfo { height: e.2.height, time: e.2.time }),
                ..c1
            }
        } else {
            c1
        }
    }
}

/// A coin after the confirmations, spends and confirmed spends of a delta.
pub open spec fn updated_with(
    c: Coin,
    confirmed: Seq<(OutPoint, i32, u32)>,
    spending: Seq<(OutPoint, Txid)>,
    spent: Seq<(OutPoint, Txid, Block)>,
) -> Coin {
    mark_spent(mark_spending(confirm_with(c, confirmed), spending), spent)
}

pub open spec fn updated(c: Coin, d: Delta) -> Coin {
    updated_with(c, d.confirmed@, d.spending@, d.spent@)
}

/// The coins whose outpoint is not among `expired`, in order.
pub open spec fn without_expired(s: Seq<Coin>, expired: Seq<OutPoint>) -> Seq<Coin>
    decreases s.len(),
{
    if s.len() == 0 {
        seq![]
    } else {
        let prev = without_expired(s.drop_last(), expired);
        if contains_outpoint(expired, s.last().outpoint) {
            prev
        } else {
            prev.push(s.last())
        }
    }
}

/// The coin set after a delta: the received outputs join as unconfirmed
/// coins, confirmations and spends are recorded, expired coins leave.
pub open spec fn applied(coins: Seq<Coin>, d: Delta) -> Seq<Coin> {
    applied_with(coins, d.received@, d.confirmed@, d.expired@, d.spending@, d.spent@)
}

/// The coin set after the parts of a delta.
pub open spec fn applied_with(
    coins: Seq<Coin>,
    received: Seq<UTxO>,
    confirmed: Seq<(OutPoint, i32, u32)>,
    expired: Seq<OutPoint>,
    spending: Seq<(OutPoint, Txid)>,
    spent: Seq<(OutPoint, Txid, Block)>,
) -> Seq<Coin> {
    without_expired(
        (coins + received.map_values(|u: UTxO| coin_of(u))).map_values(
            |c: Coin| updated_with(c, confirmed, spending, spent),
        ),
        expired,
    )
}

fn confirm_coin(c: Coin, s: &Vec<(OutPoint, i32, u32)>) -> (r: Coin)
    ensures
        r == confirm_with(c, s@),
{
    let mut r = c;
    let mut i: usize = 0;
    while i < s.len()
        invariant
            0 <= i <= s@.len(),
            r == confirm_with(c, s@.subrange(0, i as int)),
        decreases s@.len() - i,
    {
        proof {
            assert(s@.subrange(0, i + 1).drop_last() =~= s@.subrange(0, i as int));
        }
        let e = s[i];
        if e.0.equals(&c.outpoint) {
            r = Coin { block_info: Some(BlockInfo { height: e.1, time: e.2 }), ..r };
        }
        i = i + 1;
    }
    proof {
        assert(s@.subrange(0, s@.len() as int) =~= s@);
    }
    r
}

fn spending_coin(c: Coin, s: &Vec<(OutPoint, Txid)>) -> (r: Coin)
    ensures
        r == mark_spending(c, s@),
{
    let mut r = c;
    let mut i: usize = 0;
    while i < s.len()
        invariant
            0 <= i <= s@.len(),
            r == mark_spending(c, s@.subrange(0, i as int)),
        decreases s@.len() - i,
    {
        proof {
            assert(s@.subrange(0, i + 1).drop_last() =~= s@.subrange(0, i as int));
        }
        let e = s[i];
        if e.0.equals(&c.outpoint) {
            r = Coin { spend_txid: Some(e.1), ..r };
        }
        i = i + 1;
    }
    proof {
        assert(s@.subrange(0, s@.len() as int) =~= s@);
    }
    r
}

fn spent_coin(c: Coin, s: &Vec<(OutPoint, Txid, Block)>) -> (r: Coin)
    ensures
        r == mark_spent(c, s@),
{
    let mut r = c;
    let mut i: usize = 0;
    while i < s.len()
        invariant
            0 <= i <= s@.len(),
            r == mark_spent(c, s@.subrange(0, i as int)),
        decreases s@.len() - i,
    {
        proof {
            assert(s@.subrange(0, i + 1).drop_last() =~= s@.subrange(0, i as int));
        }
        let e = s[i];
        if e.0.equals(&c.outpoint) {
            r = Coin {
                spend_txid: Some(e.1),
                spend_block: Some(BlockInfo { height: e.2.height, time: e.2.time }),
                ..r
            };
        }
        i = i + 1;
    }
    proof {
        assert(s@.subrange(0, s@.len() as int) =~= s@);
    }
    r
}

fn update_coin(c: Coin, d: &Delta) -> (r: Coin)
    ensures
        r == updated(c, *d),
{
    let c1 = confirm_coin(c, &d.confirmed);
    let c2 = spending_coin(c1, &d.spending);
    spent_coin(c2, &d.spent)
}

/// Apply a delta to the coin set.
pub fn apply_delta(coins: &Vec<Coin>, d: &Delta) -> (r: Vec<Coin>)
    ensures
        r@ == applied(coins@, *d),
{
    let mut all: Vec<Coin> = Vec::new();
    let mut i: usize = 0;
    while i < coins.len()
        invariant
            0 <= i <= coins@.len(),
            all@ == coins@.subrange(0, i as int),
        decreases coins@.len() - i,
    {
        all.push(coins[i]);
        proof {
            assert(coins@.subrange(0, i + 1) =~= coins@.subrange(0, i as int).push(coins@[i as int]));
        }
        i = i + 1;
    }
    let ghost news = d.received@.map_values(|u: UTxO| coin_of(u));
    let mut k: usize = 0;
    while k < d.received.len()
        invariant
            0 <= k <= d.received@.len(),
            coins@.subrange(0, coins@.len() as int) == coins@,
            news == d.received@.map_values(|u: UTxO| coin_of(u)),
            all@ == coins@ + news.subrange(0, k as int),
        decreases d.received@.len() - k,
    {
        let u = &d.received[k];
        all.push(
            Coin { outpoint: u.outpoint, amount: u.amount, block_info: None, spend_txid: None, spend_block: None },
        );
        proof {
            assert(news.subrange(0, k + 1) =~= news.subrange(0, k as int).push(news[k as int]));
        }
        k = k + 1;
    }
    proof {
        assert(news.subrange(0, news.len() as int) =~= news);
        assert(all@ =~= coins@ + news);
    }
    let ghost ups = all@.map_values(|c: Coin| updated_with(c, d.confirmed@, d.spending@, d.spent@));
    let mut r: Vec<Coin> = Vec::new();
    let mut j: usize = 0;
    while j < all.len()
        invariant
            0 <= j <= all@.len(),
            ups == all@.map_values(|c: Coin| updated_with(c, d.confirmed@, d.spending@, d.spent@)),
            r@ == without_expired(ups.subrange(0, j as int), d.expired@),
        decreases all@.len() - j,
    {
        proof {
            assert(ups.subrange(0, j + 1).drop_last() =~= ups.subrange(0, j as int));
        }
        let c = update_coin(all[j], d);
        if !find_outpoint(&d.expired, &c.outpoint) {
            r.push(c);
        }
        j = j + 1;
    }
    proof {
        assert(ups.subrange(0, ups.len() as int) =~= ups);
    }
    r
}

// ---------------------------------------------------------------- the pass

/// The wallet's view of the chain: the last tip it synchronized to, and its
/// coins.
#[derive(Debug, Clone)]
pub struct WalletState {
    pub tip: BlockChainTip,
    pub coins: Vec<Coin>,
}

/// What a pass did: the common ancestor it rolled back to, if the former
/// tip had left the best chain, and the delta it applied.
#[derive(Debug, Clone)]
pub struct PassResult {
    pub reorg: Option<BlockChainTip>,
    pub delta: Delta,
}

/// The coin set the pass starts from: after a reorganization, the coins as
/// they stand at the common ancestor.
pub open spec fn baseline_coins(coins: Seq<Coin>, reorg: Option<BlockChainTip>) -> Seq<Coin> {
    match reorg {
        Some(a) => rolled_back(coins, a.height as int),
        None => coins,
    }
}

/// Where a pass starts, from whether the former tip is still in the best
/// chain and, if it is not, the common ancestor the backend found:
/// `Some(None)` to go on from the former tip, `Some(Some(a))` to roll back to
/// `a`, `None` to give up the pass for want of an ancestor.
pub fn baseline(in_chain: bool, ancestor: Option<BlockChainTip>) -> (r: Option<Option<BlockChainTip>>)
    ensures
        in_chain ==> r == Some(None::<BlockChainTip>),
        !in_chain ==> r == match ancestor {
            Some(a) => Some(Some(a)),
            None => None::<Option<BlockChainTip>>,
        },
{
    if in_chain {
        Some(None)
    } else {
        match ancestor {
            Some(a) => Some(Some(a)),
            None => None,
        }
    }
}

/// One reconciliation pass of the wallet against the backend. If the
/// former tip left the best chain, the coin set is first rolled back to the
/// common ancestor; if no ancestor is found, the pass changes nothing and
/// returns `None`. Then the new coins are discovered, confirmations, expiries
/// and spends are asked of the backend, the resulting delta is applied and
/// the tip advances to the backend's tip as read at the end of the pass.
pub fn sync_pass<B: BitcoinInterface>(bit: &B, state: &mut WalletState, descs: &Vec<String>) -> (r:
    Option<PassResult>)
    ensures
        old(state).wf() ==> final(state).wf(),
        r is None ==> final(state).tip == old(state).tip && final(state).coins@ == old(
            state,
        ).coins@,
        r matches Some(p) ==> {
            let base = baseline_coins(old(state).coins@, p.reorg);
            let d = p.delta;
            &&& p.reorg matches Some(a) ==> a.height <= old(state).tip.height
            &&& final(state).coins@ == applied(base, d)
            &&& final(state).tip == d.new_tip
            &&& forall|k: int| 0 <= k < d.received@.len() ==> !has_coin(base, (#[trigger] d.received@[k]).outpoint)
            &&& forall|k: int|
                0 <= k < d.confirmed@.len() ==> contains_outpoint(
                    unconfirmed_outpoints(base) + utxo_outpoints(d.received@),
                    (#[trigger] d.confirmed@[k]).0,
                )
            &&& forall|k: int|
                0 <= k < d.expired@.len() ==> contains_outpoint(
                    unconfirmed_outpoints(base) + utxo_outpoints(d.received@),
                    #[trigger] d.expired@[k],
                )
            &&& forall|k: int, l: int|
                0 <= k < d.confirmed@.len() && 0 <= l < d.expired@.len() ==> (#[trigger] d.confirmed@[k]).0
                    != #[trigger] d.expired@[l]
            &&& forall|k: int|
                0 <= k < d.spending@.len() ==> contains_outpoint(
                    unspent_outpoints(base) + utxo_outpoints(d.received@),
                    (#[trigger] d.spending@[k]).0,
                )
            &&& forall|k: int|
                0 <= k < d.spent@.len() ==> is_candidate(
                    spending_candidates(base) + d.spending@,
                    (#[trigger] d.spent@[k]).0,
                )
        },
{
    let in_chain = bit.is_in_chain(&state.tip);
    let ancestor = if in_chain {
        None
    } else {
        bit.common_ancestor(&state.tip)
    };
    let reorg = match baseline(in_chain, ancestor) {
        None => {
            return None;
        },
        Some(reorg) => reorg,
    };
    match reorg {
        Some(a) => {
            rollback(&mut state.coins, a.height);
            state.tip = a;
        },
        None => {},
    }
    let ghost base = state.coins@;
    let reported = bit.received_coins(&state.tip, descs);
    let received = new_received(&state.coins, &reported);
    proof {
        lemma_fresh_distinct(base, reported@);
        if old(state).wf() {
            assert forall|i: int, j: int| 0 <= i < j < base.len() implies base[i].outpoint != base[j].outpoint by {
                assert(base[i].outpoint == old(state).coins@[i].outpoint);
                assert(base[j].outpoint == old(state).coins@[j].outpoint);
            }
        }
    }
    let (confirmed, expired) = bit.confirmed_coins(&to_be_confirmed(&state.coins, &received));
    let spending = bit.spending_coins(&to_be_spent(&state.coins, &received));
    let spent = bit.spent_coins(&spend_candidates(&state.coins, &spending));
    let new_tip = bit.chain_tip();
    let delta = Delta { new_tip, received, confirmed, expired, spending, spent };
    state.coins = apply_delta(&state.coins, &delta);
    state.tip = new_tip;
    proof {
        if old(state).wf() {
            lemma_applied_distinct(base, delta.received@, delta.confirmed@, delta.expired@, delta.spending@, delta.spent@);
        }
    }
    Some(PassResult { reorg, delta })
}

/// After a rollback to `height`, a coin that was confirmed strictly above
/// that height is unconfirmed again, and one confirmed at or below it keeps
/// its confirmation; the same holds of the confirmation of its spend.
pub proof fn lemma_rollback_demotes(coins: Seq<Coin>, height: int, i: int)
    requires
        0 <= i < coins.len(),
    ensures
        rolled_back(coins, height).len() == coins.len(),
        rolled_back(coins, height)[i].outpoint == coins[i].outpoint,
        rolled_back(coins, height)[i].spend_txid == coins[i].spend_txid,
        coins[i].block_info matches Some(b) && b.height > height ==> rolled_back(
            coins,
            height,
        )[i].block_info is None,
        coins[i].block_info matches Some(b) && b.height <= height ==> rolled_back(
            coins,
            height,
        )[i].block_info == coins[i].block_info,
        coins[i].spend_block matches Some(b) && b.height > height ==> rolled_back(
            coins,
            height,
        )[i].spend_block is None,
        coins[i].spend_block matches Some(b) && b.height <= height ==> rolled_back(
            coins,
            height,
        )[i].spend_block == coins[i].spend_block,
{
}

} // verus!
