use vstd::prelude::*;

use crate::u256::{u256_be, u256_of_be, U256};

verus! {

/// What `sha256::digest` returns for a byte string: its SHA-256 digest in hex.
pub uninterp spec fn sha256_hex_of(data: Seq<u8>) -> Seq<char>;

/// A lowercase hexadecimal digit.
pub open spec fn is_lower_hex(c: char) -> bool {
    ('0' <= c && c <= '9') || ('a' <= c && c <= 'f')
}

/// A hexadecimal digit in either case.
pub open spec fn is_hex(c: char) -> bool {
    is_lower_hex(c) || ('A' <= c && c <= 'F')
}

/// The value of one hexadecimal digit.
pub open spec fn hex_val(c: char) -> int {
    if '0' <= c && c <= '9' {
        c as int - '0' as int
    } else if 'a' <= c && c <= 'f' {
        c as int - 'a' as int + 10
    } else {
        c as int - 'A' as int + 10
    }
}

/// The bytes that a string of hexadecimal digit pairs spells.
pub open spec fn hex_bytes(s: Seq<char>) -> Seq<u8> {
    Seq::new((s.len() / 2) as nat, |i: int| (hex_val(s[2 * i]) * 16 + hex_val(s[2 * i + 1])) as u8)
}

/// Relies on `sha256::digest`: the SHA-256 digest of the bytes, as 64 lowercase
/// hex digits (it hex-encodes the 32-byte digest).
#[verifier::external_body]
fn sha256_hex(data: &Vec<u8>) -> (r: String)
    ensures
        r@ == sha256_hex_of(data@),
        r@.len() == 64,
        forall|i: int| 0 <= i < r@.len() ==> is_lower_hex(#[trigger] r@[i]),
{
    sha256::digest(data)
}

/// Relies on `hex::decode`: an even number of hex digits (either case) decodes to
/// one byte per pair; anything else is an error.
#[verifier::external_body]
fn hex_decode(s: &String) -> (r: Option<Vec<u8>>)
    ensures
        r is Some <==> (s@.len() % 2 == 0 && forall|i: int| 0 <= i < s@.len() ==> is_hex(#[trigger] s@[i])),
        r is Some ==> r->0@ == hex_bytes(s@),
{
    hex::decode(s).ok()
}

/// Hashing depends on the encoded bytes alone: equal encodings give equal hashes,
/// in every run.
pub proof fn lemma_hash_deterministic(a: Seq<u8>, b: Seq<u8>)
    requires
        a == b,
    ensures
        digest_hash(a) == digest_hash(b),
{
}

/// A 256-bit digest, read as a big-endian number.
#[derive(Clone, Copy, Debug, PartialEq, Eq, Structural)]
pub struct Hash(pub U256);

/// The hash of a byte string: SHA-256, read as a big-endian number.
pub open spec fn digest_hash(data: Seq<u8>) -> Hash {
    Hash(u256_of_be(hex_bytes(sha256_hex_of(data))))
}

impl Hash {
    /// Hashes the canonical encoding of a value.
    pub fn hash(data: &Vec<u8>) -> (r: Hash)
        ensures
            r == digest_hash(data@),
    {
        let hex = sha256_hex(data);
        match hex_decode(&hex) {
            Some(bytes) => {
                let r = U256::read_be(&bytes, 0).unwrap();
                assert(bytes@.subrange(0, 32) =~= bytes@);
                Hash(r)
            },
            None => {
                assert(forall|i: int| 0 <= i < hex@.len() ==> is_hex(#[trigger] hex@[i]));
                Hash(U256::zero())
            },
        }
    }

    /// Proof-of-work test: the hash, as a number, is at most `target`.
    pub fn matches_target(&self, target: U256) -> (r: bool)
        ensures
            r == (self.0.value() <= target.value()),
    {
        self.0.le(&target)
    }

    pub fn zero() -> (r: Hash)
        ensures
            r.0.value() == 0,
            r == Hash(U256 { w0: 0, w1: 0, w2: 0, w3: 0 }),
    {
        Hash(U256::zero())
    }

    /// The 32 big-endian bytes of the hash.
    pub fn as_bytes(&self) -> (r: Vec<u8>)
        ensures
            r@ == u256_be(self.0),
    {
        let mut out: Vec<u8> = Vec::new();
        self.0.push_be(&mut out);
        assert(out@ =~= u256_be(self.0));
        out
    }
}

} // verus!
