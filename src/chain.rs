use vstd::prelude::*;

verus! {

/// A 256-bit hash, as the 32 bytes of its serialized form. Used for both
/// transaction ids and block hashes.
#[derive(Debug, Clone, Copy, PartialEq, Eq, Hash)]
pub struct Hash256 {
    pub bytes: [u8; 32],
}

pub type Txid = Hash256;

pub type BlockHash = Hash256;

impl Hash256 {
    /// Byte-wise equality of two hashes.
    pub fn equals(&self, other: &Hash256) -> (r: bool)
        ensures
            r == (*self == *other),
    {
        let mut i: usize = 0;
        while i < 32
            invariant
                0 <= i <= 32,
                forall|j: int| 0 <= j < i ==> self.bytes@[j] == other.bytes@[j],
            decreases 32 - i,
        {
            if self.bytes[i] != other.bytes[i] {
                return false;
            }
            i = i + 1;
        }
        proof {
            assert(self.bytes@ =~= other.bytes@);
            vstd::array::axiom_array_ext_equal(self.bytes, other.bytes);
        }
        true
    }
}

/// A reference to one output of one transaction.
#[derive(Debug, Clone, Copy, PartialEq, Eq, Hash)]
pub struct OutPoint {
    pub txid: Txid,
    pub vout: u32,
}

impl OutPoint {
    pub fn equals(&self, other: &OutPoint) -> (r: bool)
        ensures
            r == (*self == *other),
    {
        self.vout == other.vout && self.txid.equals(&other.txid)
    }
}

/// Information about a block.
#[derive(Debug, Clone, Copy, PartialEq, Eq)]
pub struct Block {
    pub hash: BlockHash,
    pub height: i32,
    pub time: u32,
}

/// Information about the best block in the chain.
#[derive(Debug, Clone, Copy, PartialEq, Eq)]
pub struct BlockChainTip {
    pub hash: BlockHash,
    pub height: i32,
}

impl BlockChainTip {
    pub fn equals(&self, other: &BlockChainTip) -> (r: bool)
        ensures
            r == (*self == *other),
    {
        self.height == other.height && self.hash.equals(&other.hash)
    }
}

/// A wallet output as reported by the node, before the wallet classifies it.
/// The amount is in satoshis; the block height is absent while unconfirmed.
#[derive(Debug, Clone, PartialEq, Eq)]
pub struct UTxO {
    pub outpoint: OutPoint,
    pub amount: u64,
    pub block_height: Option<i32>,
    pub address: String,
}

impl UTxO {
    pub fn duplicate(&self) -> (r: UTxO)
        ensures
            r == *self,
    {
        UTxO {
            outpoint: self.outpoint,
            amount: self.amount,
            block_height: self.block_height,
            address: self.address.clone(),
        }
    }
}

/// Whether `op` is one of the outpoints of `ops`.
pub open spec fn contains_outpoint(ops: Seq<OutPoint>, op: OutPoint) -> bool {
    exists|i: int| 0 <= i < ops.len() && ops[i] == op
}

/// Linear search for an outpoint in a list.
pub fn find_outpoint(ops: &Vec<OutPoint>, op: &OutPoint) -> (r: bool)
    ensures
        r == contains_outpoint(ops@, *op),
{
    let mut i: usize = 0;
    while i < ops.len()
        invariant
            0 <= i <= ops@.len(),
            forall|j: int| 0 <= j < i ==> ops@[j] != *op,
        decreases ops@.len() - i,
    {
        if ops[i].equals(op) {
            return true;
        }
        i = i + 1;
    }
    false
}

} // verus!
