//! Keeps a wallet's view of its coins in step with a full Bitcoin node:
//! the node's primitive queries, the backend operations built on them, and
//! the reconciliation pass that turns their answers into coin updates.
use vstd::prelude::*;

pub mod actions;
pub mod bitcoind;
pub mod cache;
pub mod chain;
pub mod installer;
pub mod interface;
pub mod node;
pub mod reconcile;
pub mod stability;

verus! {

} // verus!
