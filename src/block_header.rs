use vstd::prelude::*;

use crate::bytes::u64_be;
use crate::merkle_root::MerkleRoot;
use crate::u256::{u256_be, U256};

verus! {

/// Relies on `chrono::Utc::now`: the current time, in milliseconds since the Unix epoch.
#[verifier::external_body]
pub(crate) fn now_millis() -> (r: i64) {
    chrono::Utc::now().timestamp_millis()
}

/// A block's header; the timestamp is in milliseconds since the Unix epoch (UTC).
#[derive(Clone, Copy, Debug, PartialEq, Eq, Structural)]
pub struct BlockHeader {
    pub timestamp: i64,
    pub nonce: u64,
    pub prev_block_hash: crate::hash::Hash,
    pub merkle_root: MerkleRoot,
    pub target: U256,
}

/// Canonical encoding of a header.
pub open spec fn enc_header(h: BlockHeader) -> Seq<u8> {
    u64_be(h.timestamp as u64) + u64_be(h.nonce) + u256_be(h.prev_block_hash.0) + u256_be(
        h.merkle_root.0.0,
    ) + u256_be(h.target)
}

pub open spec fn header_hash(h: BlockHeader) -> crate::hash::Hash {
    crate::hash::digest_hash(enc_header(h))
}

/// The header with another nonce.
pub open spec fn with_nonce(h: BlockHeader, n: u64) -> BlockHeader {
    BlockHeader { nonce: n, ..h }
}

/// Proof of work: the header's hash is at most its own target.
pub open spec fn pow_valid(h: BlockHeader) -> bool {
    header_hash(h).0.value() <= h.target.value()
}

impl BlockHeader {
    pub fn new(
        timestamp: i64,
        nonce: u64,
        prev_block_hash: crate::hash::Hash,
        merkle_root: MerkleRoot,
        target: U256,
    ) -> (r: BlockHeader)
        ensures
            r == (BlockHeader { timestamp, nonce, prev_block_hash, merkle_root, target }),
    {
        BlockHeader { timestamp, nonce, prev_block_hash, merkle_root, target }
    }

    pub fn encode_into(&self, out: &mut Vec<u8>)
        ensures
            final(out)@ == old(out)@ + enc_header(*self),
    {
        crate::bytes::push_u64(out, self.timestamp as u64);
        crate::bytes::push_u64(out, self.nonce);
        self.prev_block_hash.0.push_be(out);
        self.merkle_root.0.0.push_be(out);
        self.target.push_be(out);
        assert(final(out)@ =~= old(out)@ + enc_header(*self));
    }

    pub fn hash(&self) -> (r: crate::hash::Hash)
        ensures
            r == header_hash(*self),
    {
        let mut out: Vec<u8> = Vec::new();
        self.encode_into(&mut out);
        assert(out@ =~= enc_header(*self));
        crate::hash::Hash::hash(&out)
    }

    /// Tries up to `steps` further nonces; on overflow the nonce restarts at zero
    /// with a fresh timestamp. True once the header meets its target.
    pub fn mine(&mut self, steps: usize) -> (r: bool)
        ensures
            r == pow_valid(*final(self)),
            final(self).prev_block_hash == old(self).prev_block_hash,
            final(self).merkle_root == old(self).merkle_root,
            final(self).target == old(self).target,
            pow_valid(*old(self)) ==> *final(self) == *old(self),
            old(self).nonce + steps <= u64::MAX ==> final(self).timestamp == old(self).timestamp
                && old(self).nonce <= final(self).nonce <= old(self).nonce + steps
                && (!r ==> final(self).nonce == old(self).nonce + steps)
                && forall|n: u64| old(self).nonce <= n < final(self).nonce ==> !pow_valid(
                #[trigger] with_nonce(*old(self), n),
            ),
    {
        if self.hash().matches_target(self.target) {
            return true;
        }
        let ghost start = *self;
        let ghost mut wrapped = false;
        let mut i: usize = 0;
        while i < steps
            invariant
                0 <= i <= steps,
                start == *old(self),
                self.prev_block_hash == old(self).prev_block_hash,
                self.merkle_root == old(self).merkle_root,
                self.target == old(self).target,
                !pow_valid(*self),
                !pow_valid(*old(self)),
                !wrapped ==> *self == with_nonce(start, (start.nonce + i) as u64) && start.nonce + i <= u64::MAX,
                !wrapped ==> forall|n: u64| start.nonce <= n <= self.nonce ==> !pow_valid(#[trigger] with_nonce(start, n)),
                start.nonce + steps <= u64::MAX ==> !wrapped,
            decreases steps - i,
        {
            if self.nonce < u64::MAX {
                self.nonce = self.nonce + 1;
            } else {
                self.nonce = 0;
                self.timestamp = now_millis();
                proof { wrapped = true; }
            }
            if self.hash().matches_target(self.target) {
                return true;
            }
            proof {
                if !wrapped {
                    assert(*self == with_nonce(start, self.nonce));
                    assert forall|n: u64| start.nonce <= n <= self.nonce implies !pow_valid(#[trigger] with_nonce(start, n)) by {
                        if n == self.nonce {
                        } else {
                            assert(n <= self.nonce - 1);
                        }
                    }
                }
            }
            i += 1;
        }
        false
    }

    pub fn target(&self) -> (r: U256)
        ensures
            r == self.target,
    {
        self.target
    }

    pub fn timestamp(&self) -> (r: i64)
        ensures
            r == self.timestamp,
    {
        self.timestamp
    }

    pub fn nonce(&self) -> (r: u64)
        ensures
            r == self.nonce,
    {
        self.nonce
    }

    pub fn prev_block_hash(&self) -> (r: &crate::hash::Hash)
        ensures
            *r == self.prev_block_hash,
    {
        &self.prev_block_hash
    }

    pub fn merkle_root(&self) -> (r: &MerkleRoot)
        ensures
            *r == self.merkle_root,
    {
        &self.merkle_root
    }
}

} // verus!
