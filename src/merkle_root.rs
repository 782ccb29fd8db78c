use vstd::prelude::*;

use crate::transaction::{tx_hash, Transaction, TransactionView};
use crate::u256::u256_be;
use crate::bytes::u64_be;

verus! {

/// Canonical encoding of a pair of hashes, as a two-element array.
pub open spec fn enc_pair(l: crate::hash::Hash, r: crate::hash::Hash) -> Seq<u8> {
    u64_be(2) + u256_be(l.0) + u256_be(r.0)
}

pub open spec fn pair_hash(l: crate::hash::Hash, r: crate::hash::Hash) -> crate::hash::Hash {
    crate::hash::digest_hash(enc_pair(l, r))
}

/// One level up the tree: adjacent hashes paired, the last paired with itself when alone.
pub open spec fn merkle_next(layer: Seq<crate::hash::Hash>) -> Seq<crate::hash::Hash> {
    Seq::new(
        ((layer.len() + 1) / 2) as nat,
        |i: int|
            pair_hash(
                layer[2 * i],
                if 2 * i + 1 < layer.len() {
                    layer[2 * i + 1]
                } else {
                    layer[2 * i]
                },
            ),
    )
}

/// Levels up until at most one hash is left.
pub open spec fn merkle_reduce(layer: Seq<crate::hash::Hash>) -> Seq<crate::hash::Hash>
    decreases layer.len(),
{
    if layer.len() <= 1 {
        layer
    } else {
        merkle_reduce(merkle_next(layer))
    }
}

/// The Merkle root of a transaction list; the zero hash for an empty list.
pub open spec fn merkle_root_of(txs: Seq<TransactionView>) -> MerkleRoot {
    if txs.len() == 0 {
        MerkleRoot(crate::hash::Hash(crate::u256::U256 { w0: 0, w1: 0, w2: 0, w3: 0 }))
    } else {
        MerkleRoot(merkle_reduce(txs.map_values(|t: TransactionView| tx_hash(t)))[0])
    }
}

/// The Merkle root depends on the transactions alone: structurally equal lists
/// give equal roots.
pub proof fn lemma_merkle_root_deterministic(a: Seq<TransactionView>, b: Seq<TransactionView>)
    requires
        a == b,
    ensures
        merkle_root_of(a) == merkle_root_of(b),
{
}

/// The root of a single transaction is that transaction's hash.
pub proof fn lemma_merkle_root_single(t: TransactionView)
    ensures
        merkle_root_of(seq![t]) == MerkleRoot(tx_hash(t)),
{
    let leaves = seq![t].map_values(|x: TransactionView| tx_hash(x));
    assert(leaves.len() == 1);
    assert(merkle_reduce(leaves) == leaves);
}

pub proof fn lemma_merkle_reduce_len(layer: Seq<crate::hash::Hash>)
    requires
        layer.len() >= 1,
    ensures
        merkle_reduce(layer).len() == 1,
    decreases layer.len(),
{
    if layer.len() > 1 {
        lemma_merkle_reduce_len(merkle_next(layer));
    }
}

/// The root of the hash tree over a block's transactions.
#[derive(Clone, Copy, Debug, PartialEq, Eq, Structural)]
pub struct MerkleRoot(pub crate::hash::Hash);

fn hash_pair(l: &crate::hash::Hash, r: &crate::hash::Hash) -> (h: crate::hash::Hash)
    ensures
        h == pair_hash(*l, *r),
{
    let mut out: Vec<u8> = Vec::new();
    crate::bytes::push_u64(&mut out, 2);
    l.0.push_be(&mut out);
    r.0.push_be(&mut out);
    assert(out@ =~= enc_pair(*l, *r));
    crate::hash::Hash::hash(&out)
}

impl MerkleRoot {
    /// Hashes each transaction, then pairs adjacent hashes level by level.
    pub fn calculate(transactions: &[Transaction]) -> (r: MerkleRoot)
        ensures
            r == merkle_root_of(transactions@.map_values(|t: Transaction| t@)),
    {
        let ghost txs = transactions@.map_values(|t: Transaction| t@);
        let ghost leaves = txs.map_values(|t: TransactionView| tx_hash(t));
        if transactions.len() == 0 {
            return MerkleRoot(crate::hash::Hash::zero());
        }
        let mut layer: Vec<crate::hash::Hash> = Vec::new();
        let mut i: usize = 0;
        while i < transactions.len()
            invariant
                0 <= i <= transactions@.len(),
                txs == transactions@.map_values(|t: Transaction| t@),
                leaves == txs.map_values(|t: TransactionView| tx_hash(t)),
                layer@ == leaves.take(i as int),
            decreases transactions@.len() - i,
        {
            let h = transactions[i].hash();
            assert(txs.len() == transactions@.len());
            assert(txs[i as int] == transactions@[i as int]@);
            assert(leaves[i as int] == tx_hash(txs[i as int]));
            layer.push(h);
            assert(layer@ =~= leaves.take(i + 1));
            i += 1;
        }
        assert(layer@ =~= leaves);
        while layer.len() > 1
            invariant
                layer@.len() >= 1,
                merkle_reduce(layer@) == merkle_reduce(leaves),
            decreases layer@.len(),
        {
            let ghost cur = layer@;
            let n = layer.len();
            let half = n / 2 + n % 2;
            assert(half == (n + 1) / 2);
            let mut next: Vec<crate::hash::Hash> = Vec::new();
            let mut k: usize = 0;
            while k < half
                invariant
                    n == cur.len(),
                    cur == layer@,
                    n > 1,
                    half == (n + 1) / 2,
                    0 <= k <= half,
                    next@ == merkle_next(cur).take(k as int),
                decreases half - k,
            {
                assert(2 * k < n);
                let left = layer[2 * k];
                let right = if 2 * k + 1 < n {
                    layer[2 * k + 1]
                } else {
                    left
                };
                let h = hash_pair(&left, &right);
                assert(h == merkle_next(cur)[k as int]);
                next.push(h);
                assert(next@ =~= merkle_next(cur).take(k + 1));
                k += 1;
            }
            assert(next@ =~= merkle_next(cur));
            layer = next;
        }
        proof {
            lemma_merkle_reduce_len(leaves);
        }
        MerkleRoot(layer[0])
    }
}

} // verus!
