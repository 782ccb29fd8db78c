use vstd::prelude::*;

verus! {

/// Why the chain core refused a block or a transaction.
#[derive(Clone, Copy, Debug, PartialEq, Eq, Structural)]
pub enum BtcError {
    /// Linkage or proof of work of the header is wrong.
    InvalidBlock,
    /// The timestamp does not increase.
    InvalidBlockHeader,
    /// The header's Merkle root is not that of the transactions.
    InvalidMerkleRoot,
    /// A missing output, an empty block, a malformed coinbase or unbalanced values.
    InvalidTransaction,
    /// A signature does not verify.
    InvalidSignature,
    /// One output spent twice, or produced twice, within a block.
    DoubleSpending,
}

} // verus!
