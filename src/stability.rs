use vstd::prelude::*;

use crate::bitcoind::is_candidate;
use crate::chain::{contains_outpoint, Block, OutPoint, Txid, UTxO};
use crate::reconcile::{
    applied_with, coin_of, confirm_with, fresh_utxos, has_coin, has_utxo, mark_spending, mark_spent,
    spending_candidates, unconfirmed_outpoints, unspent_outpoints, updated_with, utxo_outpoints,
    without_expired, Coin,
};

verus! {

pub open spec fn names_confirmed(s: Seq<(OutPoint, i32, u32)>, op: OutPoint) -> bool {
    exists|i: int| 0 <= i < s.len() && s[i].0 == op
}

pub open spec fn names_spent(s: Seq<(OutPoint, Txid, Block)>, op: OutPoint) -> bool {
    exists|i: int| 0 <= i < s.len() && s[i].0 == op
}

proof fn lemma_confirm_with(c: Coin, s: Seq<(OutPoint, i32, u32)>)
    ensures
        confirm_with(c, s).outpoint == c.outpoint,
        confirm_with(c, s).spend_txid == c.spend_txid,
        confirm_with(c, s).spend_block == c.spend_block,
        names_confirmed(s, c.outpoint) ==> confirm_with(c, s).block_info is Some,
        !names_confirmed(s, c.outpoint) ==> confirm_with(c, s) == c,
    decreases s.len(),
{
    if s.len() > 0 {
        let pre = s.drop_last();
        lemma_confirm_with(c, pre);
        if names_confirmed(s, c.outpoint) && s.last().0 != c.outpoint {
            let i = choose|i: int| 0 <= i < s.len() && s[i].0 == c.outpoint;
            assert(pre[i] == s[i]);
        }
        if names_confirmed(pre, c.outpoint) {
            let i = choose|i: int| 0 <= i < pre.len() && pre[i].0 == c.outpoint;
            assert(s[i] == pre[i]);
        }
    }
}

proof fn lemma_mark_spending(c: Coin, s: Seq<(OutPoint, Txid)>)
    ensures
        mark_spending(c, s).outpoint == c.outpoint,
        mark_spending(c, s).block_info == c.block_info,
        mark_spending(c, s).spend_block == c.spend_block,
        is_candidate(s, c.outpoint) ==> (mark_spending(c, s).spend_txid is Some && s.contains(
            (c.outpoint, mark_spending(c, s).spend_txid->0),
        )),
        !is_candidate(s, c.outpoint) ==> mark_spending(c, s) == c,
    decreases s.len(),
{
    if s.len() > 0 {
        let pre = s.drop_last();
        lemma_mark_spending(c, pre);
        if s.last().0 == c.outpoint {
            assert(s[s.len() - 1] == s.last());
        } else {
            if is_candidate(s, c.outpoint) {
                let i = choose|i: int| 0 <= i < s.len() && s[i].0 == c.outpoint;
                assert(pre[i] == s[i]);
                let t = mark_spending(c, pre).spend_txid->0;
                let j = choose|j: int| 0 <= j < pre.len() && pre[j] == (c.outpoint, t);
                assert(s[j] == pre[j]);
            }
            if is_candidate(pre, c.outpoint) {
                let i = choose|i: int| 0 <= i < pre.len() && pre[i].0 == c.outpoint;
                assert(s[i] == pre[i]);
            }
        }
    }
}

proof fn lemma_mark_spent(c: Coin, s: Seq<(OutPoint, Txid, Block)>)
    ensures
        mark_spent(c, s).outpoint == c.outpoint,
        mark_spent(c, s).block_info == c.block_info,
        names_spent(s, c.outpoint) ==> mark_spent(c, s).spend_block is Some,
        names_spent(s, c.outpoint) ==> mark_spent(c, s).spend_txid is Some,
        !names_spent(s, c.outpoint) ==> mark_spent(c, s) == c,
    decreases s.len(),
{
    if s.len() > 0 {
        let pre = s.drop_last();
        lemma_mark_spent(c, pre);
        if names_spent(s, c.outpoint) && s.last().0 != c.outpoint {
            let i = choose|i: int| 0 <= i < s.len() && s[i].0 == c.outpoint;
            assert(pre[i] == s[i]);
        }
        if names_spent(pre, c.outpoint) {
            let i = choose|i: int| 0 <= i < pre.len() && pre[i].0 == c.outpoint;
            assert(s[i] == pre[i]);
        }
    }
}

proof fn lemma_without_expired_member(s: Seq<Coin>, e: Seq<OutPoint>, j: int)
    requires
        0 <= j < without_expired(s, e).len(),
    ensures
        s.contains(without_expired(s, e)[j]),
        !contains_outpoint(e, without_expired(s, e)[j].outpoint),
    decreases s.len(),
{
    let pre = s.drop_last();
    if j < without_expired(pre, e).len() {
        lemma_without_expired_member(pre, e, j);
        let i = choose|i: int| 0 <= i < pre.len() && pre[i] == without_expired(pre, e)[j];
        assert(s[i] == pre[i]);
    } else {
        assert(s[s.len() - 1] == s.last());
    }
}

proof fn lemma_without_expired_keep(s: Seq<Coin>, e: Seq<OutPoint>, i: int)
    requires
        0 <= i < s.len(),
        !contains_outpoint(e, s[i].outpoint),
    ensures
        without_expired(s, e).contains(s[i]),
    decreases s.len(),
{
    let pre = s.drop_last();
    if i < s.len() - 1 {
        assert(pre[i] == s[i]);
        lemma_without_expired_keep(pre, e, i);
        let j = choose|j: int| 0 <= j < without_expired(pre, e).len() && without_expired(pre, e)[j] == s[i];
        assert(without_expired(s, e)[j] == without_expired(pre, e)[j]);
    } else {
        assert(s.last() == s[i]);
        let w = without_expired(s, e);
        assert(w[w.len() - 1] == s[i]);
    }
}

proof fn lemma_unconfirmed_outpoints(s: Seq<Coin>, op: OutPoint)
    ensures
        contains_outpoint(unconfirmed_outpoints(s), op) <==> exists|i: int|
            0 <= i < s.len() && s[i].outpoint == op && s[i].block_info is None,
    decreases s.len(),
{
    if s.len() > 0 {
        let pre = s.drop_last();
        lemma_unconfirmed_outpoints(pre, op);
        let u = unconfirmed_outpoints(s);
        let up = unconfirmed_outpoints(pre);
        if contains_outpoint(u, op) {
            let k = choose|k: int| 0 <= k < u.len() && u[k] == op;
            if k < up.len() {
                assert(up[k] == u[k]);
                let i = choose|i: int| 0 <= i < pre.len() && pre[i].outpoint == op && pre[i].block_info is None;
                assert(s[i] == pre[i]);
            } else {
                assert(s[s.len() - 1] == s.last());
            }
        }
        if exists|i: int| 0 <= i < s.len() && s[i].outpoint == op && s[i].block_info is None {
            let i = choose|i: int| 0 <= i < s.len() && s[i].outpoint == op && s[i].block_info is None;
            if i < pre.len() {
                assert(pre[i] == s[i]);
                let k = choose|k: int| 0 <= k < up.len() && up[k] == op;
                assert(u[k] == up[k]);
            } else {
                assert(u[u.len() - 1] == op);
            }
        }
    }
}

proof fn lemma_unspent_outpoints(s: Seq<Coin>, op: OutPoint)
    ensures
        contains_outpoint(unspent_outpoints(s), op) <==> exists|i: int|
            0 <= i < s.len() && s[i].outpoint == op && s[i].spend_txid is None,
    decreases s.len(),
{
    if s.len() > 0 {
        let pre = s.drop_last();
        lemma_unspent_outpoints(pre, op);
        let u = unspent_outpoints(s);
        let up = unspent_outpoints(pre);
        if contains_outpoint(u, op) {
            let k = choose|k: int| 0 <= k < u.len() && u[k] == op;
            if k < up.len() {
                assert(up[k] == u[k]);
                let i = choose|i: int| 0 <= i < pre.len() && pre[i].outpoint == op && pre[i].spend_txid is None;
                assert(s[i] == pre[i]);
            } else {
                assert(s[s.len() - 1] == s.last());
            }
        }
        if exists|i: int| 0 <= i < s.len() && s[i].outpoint == op && s[i].spend_txid is None {
            let i = choose|i: int| 0 <= i < s.len() && s[i].outpoint == op && s[i].spend_txid is None;
            if i < pre.len() {
                assert(pre[i] == s[i]);
                let k = choose|k: int| 0 <= k < up.len() && up[k] == op;
                assert(u[k] == up[k]);
            } else {
                assert(u[u.len() - 1] == op);
            }
        }
    }
}

proof fn lemma_spending_candidates(s: Seq<Coin>, op: OutPoint, t: Txid)
    ensures
        spending_candidates(s).contains((op, t)) <==> exists|i: int|
            0 <= i < s.len() && s[i].outpoint == op && s[i].spend_txid == Some(t) && s[i].spend_block is None,
    decreases s.len(),
{
    if s.len() > 0 {
        let pre = s.drop_last();
        lemma_spending_candidates(pre, op, t);
        let u = spending_candidates(s);
        let up = spending_candidates(pre);
        if u.contains((op, t)) {
            let k = choose|k: int| 0 <= k < u.len() && u[k] == (op, t);
            if k < up.len() {
                assert(up[k] == u[k]);
                let i = choose|i: int|
                    0 <= i < pre.len() && pre[i].outpoint == op && pre[i].spend_txid == Some(t)
                        && pre[i].spend_block is None;
                assert(s[i] == pre[i]);
            } else {
                assert(s[s.len() - 1] == s.last());
            }
        }
        if exists|i: int|
            0 <= i < s.len() && s[i].outpoint == op && s[i].spend_txid == Some(t) && s[i].spend_block is None {
            let i = choose|i: int|
                0 <= i < s.len() && s[i].outpoint == op && s[i].spend_txid == Some(t) && s[i].spend_block is None;
            if i < pre.len() {
                assert(pre[i] == s[i]);
                let k = choose|k: int| 0 <= k < up.len() && up[k] == (op, t);
                assert(u[k] == up[k]);
            } else {
                assert(u[u.len() - 1] == (op, t));
            }
        }
    }
}

proof fn lemma_utxo_outpoints(us: Seq<UTxO>, op: OutPoint)
    ensures
        contains_outpoint(utxo_outpoints(us), op) <==> has_utxo(us, op),
{
    let m = utxo_outpoints(us);
    if has_utxo(us, op) {
        let i = choose|i: int| 0 <= i < us.len() && us[i].outpoint == op;
        assert(m[i] == op);
    }
    if contains_outpoint(m, op) {
        let i = choose|i: int| 0 <= i < m.len() && m[i] == op;
        assert(us[i].outpoint == op);
    }
}

/// Every reported output is either held already or among the fresh ones.
proof fn lemma_fresh_cover(coins: Seq<Coin>, us: Seq<UTxO>, i: int)
    requires
        0 <= i < us.len(),
    ensures
        has_coin(coins, us[i].outpoint) || has_utxo(fresh_utxos(coins, us), us[i].outpoint),
    decreases us.len(),
{
    let pre = us.drop_last();
    let f = fresh_utxos(coins, us);
    let fp = fresh_utxos(coins, pre);
    if i < pre.len() {
        assert(pre[i] == us[i]);
        lemma_fresh_cover(coins, pre, i);
        if has_utxo(fp, us[i].outpoint) {
            let k = choose|k: int| 0 <= k < fp.len() && fp[k].outpoint == us[i].outpoint;
            assert(f[k] == fp[k]);
        }
    } else {
        if !has_coin(coins, us[i].outpoint) && !has_utxo(fp, us[i].outpoint) {
            assert(f[f.len() - 1] == us[i]);
        } else if has_utxo(fp, us[i].outpoint) {
            let k = choose|k: int| 0 <= k < fp.len() && fp[k].outpoint == us[i].outpoint;
            assert(f[k] == fp[k]);
        }
    }
}

/// A backend whose state does not change between passes, given by its
/// answer for each single item: the outputs it reports as received, the
/// confirmation of an outpoint's creating transaction, whether that
/// transaction was dropped from the mempool, the spender of an outpoint, and
/// the confirmed spend that settles an outpoint spent by a given transaction.
pub struct FixedNode {
    pub reported: Seq<UTxO>,
    pub confirmation: spec_fn(OutPoint) -> Option<(i32, u32)>,
    pub dropped: spec_fn(OutPoint) -> bool,
    pub spender: spec_fn(OutPoint) -> Option<Txid>,
    pub settled: spec_fn(OutPoint, Txid) -> Option<(Txid, Block)>,
}

pub open spec fn confirm_answers(ops: Seq<OutPoint>, n: FixedNode) -> Seq<(OutPoint, i32, u32)>
    decreases ops.len(),
{
    if ops.len() == 0 {
        seq![]
    } else {
        let prev = confirm_answers(ops.drop_last(), n);
        let op = ops.last();
        match (n.confirmation)(op) {
            Some((h, t)) => prev.push((op, h, t)),
            None => prev,
        }
    }
}

pub open spec fn expire_answers(ops: Seq<OutPoint>, n: FixedNode) -> Seq<OutPoint>
    decreases ops.len(),
{
    if ops.len() == 0 {
        seq![]
    } else {
        let prev = expire_answers(ops.drop_last(), n);
        let op = ops.last();
        if (n.confirmation)(op) is None && (n.dropped)(op) {
            prev.push(op)
        } else {
            prev
        }
    }
}

pub open spec fn spend_answers(ops: Seq<OutPoint>, n: FixedNode) -> Seq<(OutPoint, Txid)>
    decreases ops.len(),
{
    if ops.len() == 0 {
        seq![]
    } else {
        let prev = spend_answers(ops.drop_last(), n);
        let op = ops.last();
        match (n.spender)(op) {
            Some(t) => prev.push((op, t)),
            None => prev,
        }
    }
}

pub open spec fn settle_answers(cands: Seq<(OutPoint, Txid)>, n: FixedNode) -> Seq<(OutPoint, Txid, Block)>
    decreases cands.len(),
{
    if cands.len() == 0 {
        seq![]
    } else {
        let prev = settle_answers(cands.drop_last(), n);
        let (op, t) = cands.last();
        match (n.settled)(op, t) {
            Some((t2, b)) => prev.push((op, t2, b)),
            None => prev,
        }
    }
}

pub open spec fn fixed_received(coins: Seq<Coin>, n: FixedNode) -> Seq<UTxO> {
    fresh_utxos(coins, n.reported)
}

pub open spec fn fixed_to_confirm(coins: Seq<Coin>, n: FixedNode) -> Seq<OutPoint> {
    unconfirmed_outpoints(coins) + utxo_outpoints(fixed_received(coins, n))
}

pub open spec fn fixed_to_spend(coins: Seq<Coin>, n: FixedNode) -> Seq<OutPoint> {
    unspent_outpoints(coins) + utxo_outpoints(fixed_received(coins, n))
}

pub open spec fn fixed_confirmed(coins: Seq<Coin>, n: FixedNode) -> Seq<(OutPoint, i32, u32)> {
    confirm_answers(fixed_to_confirm(coins, n), n)
}

pub open spec fn fixed_expired(coins: Seq<Coin>, n: FixedNode) -> Seq<OutPoint> {
    expire_answers(fixed_to_confirm(coins, n), n)
}

pub open spec fn fixed_spending(coins: Seq<Coin>, n: FixedNode) -> Seq<(OutPoint, Txid)> {
    spend_answers(fixed_to_spend(coins, n), n)
}

pub open spec fn fixed_candidates(coins: Seq<Coin>, n: FixedNode) -> Seq<(OutPoint, Txid)> {
    spending_candidates(coins) + fixed_spending(coins, n)
}

pub open spec fn fixed_spent(coins: Seq<Coin>, n: FixedNode) -> Seq<(OutPoint, Txid, Block)> {
    settle_answers(fixed_candidates(coins, n), n)
}

/// The coin set after a pass, without reorganization, against `n`.
pub open spec fn fixed_pass(coins: Seq<Coin>, n: FixedNode) -> Seq<Coin> {
    applied_with(
        coins,
        fixed_received(coins, n),
        fixed_confirmed(coins, n),
        fixed_expired(coins, n),
        fixed_spending(coins, n),
        fixed_spent(coins, n),
    )
}

proof fn lemma_confirm_answers(ops: Seq<OutPoint>, n: FixedNode, op: OutPoint)
    ensures
        contains_outpoint(ops, op) && (n.confirmation)(op) is Some ==> names_confirmed(confirm_answers(ops, n), op),
        (forall|i: int| 0 <= i < ops.len() ==> (n.confirmation)(#[trigger] ops[i]) is None) ==> confirm_answers(
            ops,
            n,
        ).len() == 0,
    decreases ops.len(),
{
    if ops.len() > 0 {
        let pre = ops.drop_last();
        lemma_confirm_answers(pre, n, op);
        let a = confirm_answers(ops, n);
        let ap = confirm_answers(pre, n);
        if contains_outpoint(ops, op) && (n.confirmation)(op) is Some {
            let i = choose|i: int| 0 <= i < ops.len() && ops[i] == op;
            if i < pre.len() {
                assert(pre[i] == ops[i]);
                let k = choose|k: int| 0 <= k < ap.len() && ap[k].0 == op;
                assert(a[k] == ap[k]);
            } else {
                assert(a[a.len() - 1].0 == op);
            }
        }
        if forall|i: int| 0 <= i < ops.len() ==> (n.confirmation)(#[trigger] ops[i]) is None {
            assert forall|i: int| 0 <= i < pre.len() implies (n.confirmation)(#[trigger] pre[i]) is None by {
                assert(pre[i] == ops[i]);
            }
            assert((n.confirmation)(ops[ops.len() - 1]) is None);
        }
    }
}

proof fn lemma_expire_answers(ops: Seq<OutPoint>, n: FixedNode, op: OutPoint)
    ensures
        contains_outpoint(ops, op) && (n.confirmation)(op) is None && (n.dropped)(op) ==> contains_outpoint(
            expire_answers(ops, n),
            op,
        ),
        contains_outpoint(expire_answers(ops, n), op) ==> (n.confirmation)(op) is None && (n.dropped)(op),
        (forall|i: int|
            0 <= i < ops.len() ==> !((n.confirmation)(#[trigger] ops[i]) is None && (n.dropped)(ops[i])))
            ==> expire_answers(ops, n).len() == 0,
    decreases ops.len(),
{
    if ops.len() > 0 {
        let pre = ops.drop_last();
        lemma_expire_answers(pre, n, op);
        let a = expire_answers(ops, n);
        let ap = expire_answers(pre, n);
        if contains_outpoint(ops, op) && (n.confirmation)(op) is None && (n.dropped)(op) {
            let i = choose|i: int| 0 <= i < ops.len() && ops[i] == op;
            if i < pre.len() {
                assert(pre[i] == ops[i]);
                let k = choose|k: int| 0 <= k < ap.len() && ap[k] == op;
                assert(a[k] == ap[k]);
            } else {
                assert(a[a.len() - 1] == op);
            }
        }
        if contains_outpoint(a, op) {
            let k = choose|k: int| 0 <= k < a.len() && a[k] == op;
            if k < ap.len() {
                assert(ap[k] == a[k]);
            }
        }
        if forall|i: int|
            0 <= i < ops.len() ==> !((n.confirmation)(#[trigger] ops[i]) is None && (n.dropped)(ops[i])) {
            assert forall|i: int| 0 <= i < pre.len() implies !((n.confirmation)(#[trigger] pre[i]) is None
                && (n.dropped)(pre[i])) by {
                assert(pre[i] == ops[i]);
            }
            assert(!((n.confirmation)(ops[ops.len() - 1]) is None && (n.dropped)(ops[ops.len() - 1])));
        }
    }
}

proof fn lemma_spend_answers(ops: Seq<OutPoint>, n: FixedNode, op: OutPoint)
    ensures
        contains_outpoint(ops, op) && (n.spender)(op) is Some ==> is_candidate(spend_answers(ops, n), op),
        (forall|i: int| 0 <= i < ops.len() ==> (n.spender)(#[trigger] ops[i]) is None) ==> spend_answers(
            ops,
            n,
        ).len() == 0,
    decreases ops.len(),
{
    if ops.len() > 0 {
        let pre = ops.drop_last();
        lemma_spend_answers(pre, n, op);
        let a = spend_answers(ops, n);
        let ap = spend_answers(pre, n);
        if contains_outpoint(ops, op) && (n.spender)(op) is Some {
            let i = choose|i: int| 0 <= i < ops.len() && ops[i] == op;
            if i < pre.len() {
                assert(pre[i] == ops[i]);
                let k = choose|k: int| 0 <= k < ap.len() && ap[k].0 == op;
                assert(a[k] == ap[k]);
            } else {
                assert(a[a.len() - 1].0 == op);
            }
        }
        if forall|i: int| 0 <= i < ops.len() ==> (n.spender)(#[trigger] ops[i]) is None {
            assert forall|i: int| 0 <= i < pre.len() implies (n.spender)(#[trigger] pre[i]) is None by {
                assert(pre[i] == ops[i]);
            }
            assert((n.spender)(ops[ops.len() - 1]) is None);
        }
    }
}

proof fn lemma_settle_answers(cands: Seq<(OutPoint, Txid)>, n: FixedNode, op: OutPoint, t: Txid)
    ensures
        cands.contains((op, t)) && (n.settled)(op, t) is Some ==> names_spent(settle_answers(cands, n), op),
        (forall|i: int| 0 <= i < cands.len() ==> (n.settled)((#[trigger] cands[i]).0, cands[i].1) is None)
            ==> settle_answers(cands, n).len() == 0,
    decreases cands.len(),
{
    if cands.len() > 0 {
        let pre = cands.drop_last();
        lemma_settle_answers(pre, n, op, t);
        let a = settle_answers(cands, n);
        let ap = settle_answers(pre, n);
        if cands.contains((op, t)) && (n.settled)(op, t) is Some {
            let i = choose|i: int| 0 <= i < cands.len() && cands[i] == (op, t);
            if i < pre.len() {
                assert(pre[i] == cands[i]);
                let k = choose|k: int| 0 <= k < ap.len() && ap[k].0 == op;
                assert(a[k] == ap[k]);
            } else {
                assert(cands.last() == (op, t));
                assert(a[a.len() - 1].0 == op);
            }
        }
        if forall|i: int| 0 <= i < cands.len() ==> (n.settled)((#[trigger] cands[i]).0, cands[i].1) is None {
            assert forall|i: int| 0 <= i < pre.len() implies (n.settled)((#[trigger] pre[i]).0, pre[i].1) is None by {
                assert(pre[i] == cands[i]);
            }
            assert((n.settled)(cands[cands.len() - 1].0, cands[cands.len() - 1].1) is None);
        }
    }
}

proof fn lemma_fresh_empty(coins: Seq<Coin>, us: Seq<UTxO>)
    requires
        forall|i: int| 0 <= i < us.len() ==> has_coin(coins, (#[trigger] us[i]).outpoint),
    ensures
        fresh_utxos(coins, us).len() == 0,
    decreases us.len(),
{
    if us.len() > 0 {
        let pre = us.drop_last();
        assert forall|i: int| 0 <= i < pre.len() implies has_coin(coins, (#[trigger] pre[i]).outpoint) by {
            assert(pre[i] == us[i]);
        }
        lemma_fresh_empty(coins, pre);
        assert(has_coin(coins, us[us.len() - 1].outpoint));
    }
}

/// The coins a pass starts from, with the received outputs joined.
pub open spec fn fixed_all(coins: Seq<Coin>, n: FixedNode) -> Seq<Coin> {
    coins + fixed_received(coins, n).map_values(|u: UTxO| coin_of(u))
}

pub open spec fn fixed_update(c: Coin, coins: Seq<Coin>, n: FixedNode) -> Coin {
    updated_with(c, fixed_confirmed(coins, n), fixed_spending(coins, n), fixed_spent(coins, n))
}

/// Each coin after a pass is the update of a coin the pass started from, and
/// its outpoint was not reported expired.
proof fn lemma_origin(coins: Seq<Coin>, n: FixedNode, k: int) -> (j: int)
    requires
        0 <= k < fixed_pass(coins, n).len(),
    ensures
        0 <= j < fixed_all(coins, n).len(),
        fixed_pass(coins, n)[k] == fixed_update(fixed_all(coins, n)[j], coins, n),
        fixed_pass(coins, n)[k].outpoint == fixed_all(coins, n)[j].outpoint,
        !contains_outpoint(fixed_expired(coins, n), fixed_pass(coins, n)[k].outpoint),
{
    let all = fixed_all(coins, n);
    let ups = all.map_values(
        |c: Coin| updated_with(c, fixed_confirmed(coins, n), fixed_spending(coins, n), fixed_spent(coins, n)),
    );
    assert(fixed_pass(coins, n) == without_expired(ups, fixed_expired(coins, n)));
    lemma_without_expired_member(ups, fixed_expired(coins, n), k);
    let j = choose|j: int| 0 <= j < ups.len() && ups[j] == fixed_pass(coins, n)[k];
    lemma_update_parts(all[j], coins, n);
    j
}

proof fn lemma_update_parts(c: Coin, coins: Seq<Coin>, n: FixedNode)
    ensures
        fixed_update(c, coins, n).outpoint == c.outpoint,
{
    let y1 = confirm_with(c, fixed_confirmed(coins, n));
    let y2 = mark_spending(y1, fixed_spending(coins, n));
    lemma_confirm_with(c, fixed_confirmed(coins, n));
    lemma_mark_spending(y1, fixed_spending(coins, n));
    lemma_mark_spent(y2, fixed_spent(coins, n));
}

/// What a starting coin was asked about in the pass.
proof fn lemma_asked(coins: Seq<Coin>, n: FixedNode, j: int)
    requires
        0 <= j < fixed_all(coins, n).len(),
    ensures
        fixed_all(coins, n)[j].block_info is None ==> contains_outpoint(
            fixed_to_confirm(coins, n),
            fixed_all(coins, n)[j].outpoint,
        ),
        fixed_all(coins, n)[j].spend_txid is None ==> contains_outpoint(
            fixed_to_spend(coins, n),
            fixed_all(coins, n)[j].outpoint,
        ),
        fixed_all(coins, n)[j].spend_txid is Some && fixed_all(coins, n)[j].spend_block is None
            ==> fixed_candidates(coins, n).contains(
            (fixed_all(coins, n)[j].outpoint, fixed_all(coins, n)[j].spend_txid->0),
        ),
{
    let all = fixed_all(coins, n);
    let c = all[j];
    let op = c.outpoint;
    let rs = fixed_received(coins, n);
    if j < coins.len() {
        assert(c == coins[j]);
        lemma_unconfirmed_outpoints(coins, op);
        lemma_unspent_outpoints(coins, op);
        if c.block_info is None {
            let u = unconfirmed_outpoints(coins);
            let k = choose|k: int| 0 <= k < u.len() && u[k] == op;
            assert(fixed_to_confirm(coins, n)[k] == op);
        }
        if c.spend_txid is None {
            let u = unspent_outpoints(coins);
            let k = choose|k: int| 0 <= k < u.len() && u[k] == op;
            assert(fixed_to_spend(coins, n)[k] == op);
        }
        if c.spend_txid is Some && c.spend_block is None {
            let t = c.spend_txid->0;
            lemma_spending_candidates(coins, op, t);
            let sc = spending_candidates(coins);
            let k = choose|k: int| 0 <= k < sc.len() && sc[k] == (op, t);
            assert(fixed_candidates(coins, n)[k] == (op, t));
        }
    } else {
        let r = j - coins.len();
        assert(c == coin_of(rs[r]));
        assert(has_utxo(rs, op));
        lemma_utxo_outpoints(rs, op);
        let uo = utxo_outpoints(rs);
        let k = choose|k: int| 0 <= k < uo.len() && uo[k] == op;
        assert(fixed_to_confirm(coins, n)[unconfirmed_outpoints(coins).len() + k] == op);
        assert(fixed_to_spend(coins, n)[unspent_outpoints(coins).len() + k] == op);
    }
}

/// A reported output is held after the pass, unless the node reports its
/// transaction both unconfirmed and dropped.
proof fn lemma_reported_held(coins: Seq<Coin>, n: FixedNode, i: int)
    requires
        0 <= i < n.reported.len(),
        !((n.confirmation)(n.reported[i].outpoint) is None && (n.dropped)(n.reported[i].outpoint)),
    ensures
        has_coin(fixed_pass(coins, n), n.reported[i].outpoint),
{
    let op = n.reported[i].outpoint;
    let all = fixed_all(coins, n);
    let rs = fixed_received(coins, n);
    lemma_fresh_cover(coins, n.reported, i);
    let idx: int = if has_coin(coins, op) {
        let j = choose|j: int| 0 <= j < coins.len() && coins[j].outpoint == op;
        assert(all[j] == coins[j]);
        j
    } else {
        let k = choose|k: int| 0 <= k < rs.len() && rs[k].outpoint == op;
        assert(all[coins.len() + k] == coin_of(rs[k]));
        coins.len() + k
    };
    assert(all[idx].outpoint == op);
    let ups = all.map_values(
        |c: Coin| updated_with(c, fixed_confirmed(coins, n), fixed_spending(coins, n), fixed_spent(coins, n)),
    );
    lemma_update_parts(all[idx], coins, n);
    assert(ups[idx].outpoint == op);
    lemma_expire_answers(fixed_to_confirm(coins, n), n, op);
    lemma_without_expired_keep(ups, fixed_expired(coins, n), idx);
    let w = without_expired(ups, fixed_expired(coins, n));
    let m = choose|m: int| 0 <= m < w.len() && w[m] == ups[idx];
    assert(fixed_pass(coins, n)[m].outpoint == op);
}

/// An unconfirmed coin after the pass was asked about and found neither
/// confirmed nor dropped.
proof fn lemma_unconfirmed_after(coins: Seq<Coin>, n: FixedNode, op: OutPoint)
    requires
        contains_outpoint(unconfirmed_outpoints(fixed_pass(coins, n)), op),
    ensures
        (n.confirmation)(op) is None,
        !(n.dropped)(op),
{
    let c1 = fixed_pass(coins, n);
    lemma_unconfirmed_outpoints(c1, op);
    let k = choose|k: int| 0 <= k < c1.len() && c1[k].outpoint == op && c1[k].block_info is None;
    let j = lemma_origin(coins, n, k);
    let y0 = fixed_all(coins, n)[j];
    let y1 = confirm_with(y0, fixed_confirmed(coins, n));
    let y2 = mark_spending(y1, fixed_spending(coins, n));
    lemma_confirm_with(y0, fixed_confirmed(coins, n));
    lemma_mark_spending(y1, fixed_spending(coins, n));
    lemma_mark_spent(y2, fixed_spent(coins, n));
    assert(y0.block_info is None);
    lemma_asked(coins, n, j);
    lemma_confirm_answers(fixed_to_confirm(coins, n), n, op);
    lemma_expire_answers(fixed_to_confirm(coins, n), n, op);
}

/// A coin with no known spender after the pass was asked about and found
/// unspent.
proof fn lemma_unspent_after(coins: Seq<Coin>, n: FixedNode, op: OutPoint)
    requires
        contains_outpoint(unspent_outpoints(fixed_pass(coins, n)), op),
    ensures
        (n.spender)(op) is None,
{
    let c1 = fixed_pass(coins, n);
    lemma_unspent_outpoints(c1, op);
    let k = choose|k: int| 0 <= k < c1.len() && c1[k].outpoint == op && c1[k].spend_txid is None;
    let j = lemma_origin(coins, n, k);
    let y0 = fixed_all(coins, n)[j];
    let y1 = confirm_with(y0, fixed_confirmed(coins, n));
    let y2 = mark_spending(y1, fixed_spending(coins, n));
    lemma_confirm_with(y0, fixed_confirmed(coins, n));
    lemma_mark_spending(y1, fixed_spending(coins, n));
    lemma_mark_spent(y2, fixed_spent(coins, n));
    assert(y0.spend_txid is None);
    lemma_asked(coins, n, j);
    lemma_spend_answers(fixed_to_spend(coins, n), n, op);
}

/// A coin being spent after the pass had its spend asked about and found
/// unsettled.
proof fn lemma_spending_after(coins: Seq<Coin>, n: FixedNode, op: OutPoint, t: Txid)
    requires
        spending_candidates(fixed_pass(coins, n)).contains((op, t)),
    ensures
        (n.settled)(op, t) is None,
{
    let c1 = fixed_pass(coins, n);
    lemma_spending_candidates(c1, op, t);
    let k = choose|k: int|
        0 <= k < c1.len() && c1[k].outpoint == op && c1[k].spend_txid == Some(t) && c1[k].spend_block is None;
    let j = lemma_origin(coins, n, k);
    let y0 = fixed_all(coins, n)[j];
    let y1 = confirm_with(y0, fixed_confirmed(coins, n));
    let y2 = mark_spending(y1, fixed_spending(coins, n));
    lemma_confirm_with(y0, fixed_confirmed(coins, n));
    lemma_mark_spending(y1, fixed_spending(coins, n));
    lemma_mark_spent(y2, fixed_spent(coins, n));
    lemma_asked(coins, n, j);
    let cands = fixed_candidates(coins, n);
    if is_candidate(fixed_spending(coins, n), op) {
        let sp = fixed_spending(coins, n);
        let m = choose|m: int| 0 <= m < sp.len() && sp[m] == (op, t);
        assert(cands[spending_candidates(coins).len() + m] == (op, t));
    }
    assert(cands.contains((op, t)));
    lemma_settle_answers(cands, n, op, t);
}

/// Reconciliation is idempotent, as modelled by `fixed_pass`: the pass of
/// `sync_pass` without reorganization, with the backend's answers given item
/// by item by a `FixedNode`. Against such a backend whose state did not
/// change, a second pass finds nothing to receive, confirm, expire, spend or
/// settle, and leaves the coin set as the first pass left it. The backend must not report as received an output whose
/// transaction it reports both unconfirmed and dropped from the mempool:
/// such a coin expires and is rediscovered on every pass.
pub proof fn lemma_second_pass_is_empty(coins: Seq<Coin>, n: FixedNode)
    requires
        forall|i: int|
            0 <= i < n.reported.len() ==> !((n.confirmation)((#[trigger] n.reported[i]).outpoint) is None
                && (n.dropped)(n.reported[i].outpoint)),
    ensures
        fixed_received(fixed_pass(coins, n), n).len() == 0,
        fixed_confirmed(fixed_pass(coins, n), n).len() == 0,
        fixed_expired(fixed_pass(coins, n), n).len() == 0,
        fixed_spending(fixed_pass(coins, n), n).len() == 0,
        fixed_spent(fixed_pass(coins, n), n).len() == 0,
        fixed_pass(fixed_pass(coins, n), n) == fixed_pass(coins, n),
{
    let c1 = fixed_pass(coins, n);
    assert forall|i: int| 0 <= i < n.reported.len() implies has_coin(c1, (#[trigger] n.reported[i]).outpoint) by {
        lemma_reported_held(coins, n, i);
    }
    lemma_fresh_empty(c1, n.reported);
    let r2 = fixed_received(c1, n);
    assert(utxo_outpoints(r2) =~= Seq::<OutPoint>::empty());
    let to_confirm = fixed_to_confirm(c1, n);
    assert(to_confirm =~= unconfirmed_outpoints(c1));
    assert forall|i: int| 0 <= i < to_confirm.len() implies (n.confirmation)(#[trigger] to_confirm[i]) is None
        && !(n.dropped)(to_confirm[i]) by {
        lemma_unconfirmed_after(coins, n, to_confirm[i]);
    }
    let some_op: OutPoint = arbitrary();
    lemma_confirm_answers(to_confirm, n, some_op);
    lemma_expire_answers(to_confirm, n, some_op);
    let to_spend = fixed_to_spend(c1, n);
    assert(to_spend =~= unspent_outpoints(c1));
    assert forall|i: int| 0 <= i < to_spend.len() implies (n.spender)(#[trigger] to_spend[i]) is None by {
        lemma_unspent_after(coins, n, to_spend[i]);
    }
    lemma_spend_answers(to_spend, n, some_op);
    let cands = fixed_candidates(c1, n);
    assert(cands =~= spending_candidates(c1));
    assert forall|i: int| 0 <= i < cands.len() implies (n.settled)((#[trigger] cands[i]).0, cands[i].1) is None by {
        assert(spending_candidates(c1).contains(cands[i]));
        lemma_spending_after(coins, n, cands[i].0, cands[i].1);
    }
    lemma_settle_answers(cands, n, some_op, some_op.txid);
    lemma_empty_parts_keep(c1, n);
}

/// Applying a delta with no parts leaves the coin set as it is.
proof fn lemma_empty_parts_keep(c1: Seq<Coin>, n: FixedNode)
    requires
        fixed_received(c1, n).len() == 0,
        fixed_confirmed(c1, n).len() == 0,
        fixed_expired(c1, n).len() == 0,
        fixed_spending(c1, n).len() == 0,
        fixed_spent(c1, n).len() == 0,
    ensures
        fixed_pass(c1, n) == c1,
{
    let all = fixed_all(c1, n);
    assert(all =~= c1);
    let ups = all.map_values(
        |c: Coin| updated_with(c, fixed_confirmed(c1, n), fixed_spending(c1, n), fixed_spent(c1, n)),
    );
    assert forall|i: int| 0 <= i < ups.len() implies ups[i] == c1[i] by {
        lemma_confirm_with(c1[i], fixed_confirmed(c1, n));
        lemma_mark_spending(c1[i], fixed_spending(c1, n));
        lemma_mark_spent(c1[i], fixed_spent(c1, n));
    }
    assert(ups =~= c1);
    lemma_without_none_expired(c1, fixed_expired(c1, n));
}

proof fn lemma_without_none_expired(s: Seq<Coin>, e: Seq<OutPoint>)
    requires
        e.len() == 0,
    ensures
        without_expired(s, e) == s,
    decreases s.len(),
{
    if s.len() > 0 {
        lemma_without_none_expired(s.drop_last(), e);
        assert(s.drop_last().push(s.last()) =~= s);
    }
}

/// No two coins share an outpoint.
pub open spec fn distinct_outpoints(coins: Seq<Coin>) -> bool {
    forall|i: int, j: int| 0 <= i < j < coins.len() ==> coins[i].outpoint != coins[j].outpoint
}

pub open spec fn distinct_utxos(us: Seq<UTxO>) -> bool {
    forall|i: int, j: int| 0 <= i < j < us.len() ==> us[i].outpoint != us[j].outpoint
}

/// The fresh outputs are distinct and none is held already.
pub proof fn lemma_fresh_distinct(coins: Seq<Coin>, us: Seq<UTxO>)
    ensures
        distinct_utxos(fresh_utxos(coins, us)),
        forall|k: int|
            0 <= k < fresh_utxos(coins, us).len() ==> !has_coin(coins, (#[trigger] fresh_utxos(coins, us)[k]).outpoint),
    decreases us.len(),
{
    if us.len() > 0 {
        let pre = us.drop_last();
        lemma_fresh_distinct(coins, pre);
        let f = fresh_utxos(coins, us);
        let fp = fresh_utxos(coins, pre);
        if !(has_coin(coins, us.last().outpoint) || has_utxo(fp, us.last().outpoint)) {
            assert forall|i: int, j: int| 0 <= i < j < f.len() implies f[i].outpoint != f[j].outpoint by {
                if j == f.len() - 1 {
                    assert(f[i] == fp[i]);
                } else {
                    assert(f[i] == fp[i] && f[j] == fp[j]);
                }
            }
            assert forall|k: int| 0 <= k < f.len() implies !has_coin(coins, (#[trigger] f[k]).outpoint) by {
                if k < fp.len() {
                    assert(f[k] == fp[k]);
                }
            }
        }
    }
}

proof fn lemma_without_expired_distinct(s: Seq<Coin>, e: Seq<OutPoint>)
    requires
        distinct_outpoints(s),
    ensures
        distinct_outpoints(without_expired(s, e)),
    decreases s.len(),
{
    if s.len() > 0 {
        let pre = s.drop_last();
        assert(distinct_outpoints(pre)) by {
            assert forall|i: int, j: int| 0 <= i < j < pre.len() implies pre[i].outpoint != pre[j].outpoint by {
                assert(pre[i] == s[i] && pre[j] == s[j]);
            }
        }
        lemma_without_expired_distinct(pre, e);
        let w = without_expired(s, e);
        let wp = without_expired(pre, e);
        if !contains_outpoint(e, s.last().outpoint) {
            assert forall|i: int, j: int| 0 <= i < j < w.len() implies w[i].outpoint != w[j].outpoint by {
                if j == w.len() - 1 {
                    lemma_without_expired_member(pre, e, i);
                    let m = choose|m: int| 0 <= m < pre.len() && pre[m] == wp[i];
                    assert(s[m] == pre[m]);
                    assert(w[i] == wp[i]);
                    assert(w[j] == s[s.len() - 1]);
                } else {
                    assert(w[i] == wp[i] && w[j] == wp[j]);
                }
            }
        }
    }
}

/// Applying fresh received outputs and any updates keeps one coin per
/// outpoint.
pub proof fn lemma_applied_distinct(
    coins: Seq<Coin>,
    received: Seq<UTxO>,
    confirmed: Seq<(OutPoint, i32, u32)>,
    expired: Seq<OutPoint>,
    spending: Seq<(OutPoint, Txid)>,
    spent: Seq<(OutPoint, Txid, Block)>,
)
    requires
        distinct_outpoints(coins),
        distinct_utxos(received),
        forall|k: int| 0 <= k < received.len() ==> !has_coin(coins, (#[trigger] received[k]).outpoint),
    ensures
        distinct_outpoints(applied_with(coins, received, confirmed, expired, spending, spent)),
{
    let all = coins + received.map_values(|u: UTxO| coin_of(u));
    assert forall|i: int, j: int| 0 <= i < j < all.len() implies all[i].outpoint != all[j].outpoint by {
        if j >= coins.len() {
            let rj = j - coins.len();
            assert(all[j].outpoint == received[rj].outpoint);
            if i < coins.len() {
                assert(all[i] == coins[i]);
            } else {
                assert(all[i].outpoint == received[i - coins.len()].outpoint);
            }
        } else {
            assert(all[i] == coins[i] && all[j] == coins[j]);
        }
    }
    let ups = all.map_values(|c: Coin| updated_with(c, confirmed, spending, spent));
    assert forall|i: int| 0 <= i < ups.len() implies (#[trigger] ups[i]).outpoint == all[i].outpoint by {
        let y1 = confirm_with(all[i], confirmed);
        lemma_confirm_with(all[i], confirmed);
        lemma_mark_spending(y1, spending);
        lemma_mark_spent(mark_spending(y1, spending), spent);
    }
    assert(distinct_outpoints(ups));
    lemma_without_expired_distinct(ups, expired);
}

} // verus!
