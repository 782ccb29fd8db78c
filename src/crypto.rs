use vstd::prelude::*;

use crate::u256::u256_be;

verus! {

/// The number that bytes spell, most significant first.
pub open spec fn be_value(s: Seq<u8>) -> nat
    decreases s.len(),
{
    if s.len() == 0 {
        0
    } else {
        (be_value(s.drop_last()) * 256 + s.last()) as nat
    }
}

/// The order of the secp256k1 group.
pub open spec fn secp256k1_order() -> nat {
    crate::u256::U256 {
        w3: 0xFFFF_FFFF_FFFF_FFFF,
        w2: 0xFFFF_FFFF_FFFF_FFFE,
        w1: 0xBAAE_DCE6_AF48_A03B,
        w0: 0xBFD2_5E8C_D036_4141,
    }.value()
}

/// What `SigningKey::<Secp256k1>::from_slice` accepts as a secret scalar: 24 to 32
/// bytes (shorter ones zero-padded on the left) spelling a number in `1..n`.
pub open spec fn is_valid_secret(secret: Seq<u8>) -> bool {
    24 <= secret.len() <= 32 && 0 < be_value(secret) < secp256k1_order()
}

/// The compressed SEC1 encoding of the public key of a secp256k1 secret.
pub uninterp spec fn public_of(secret: Seq<u8>) -> Seq<u8>;

/// The deterministic (RFC 6979) secp256k1 ECDSA signature of `msg` under `secret`.
pub uninterp spec fn signature_of(secret: Seq<u8>, msg: Seq<u8>) -> Seq<u8>;

/// Whether `sig` is a valid secp256k1 ECDSA signature of `msg` under the public key `public`.
pub uninterp spec fn signature_accepted(public: Seq<u8>, sig: Seq<u8>, msg: Seq<u8>) -> bool;

/// Relies on `ecdsa::SigningKey::from_slice` (through `SecretKey::from_slice` and
/// `ScalarPrimitive::from_bytes`): whether the bytes are a usable secret.
#[verifier::external_body]
fn secret_is_valid(secret: &Vec<u8>) -> (r: bool)
    ensures
        r == is_valid_secret(secret@),
{
    ecdsa::SigningKey::<k256::Secp256k1>::from_slice(secret).is_ok()
}

/// Relies on `ecdsa::SigningKey::random` with `rand_core::OsRng`: a fresh random
/// secret, returned as the 32 bytes of `to_bytes`, which `from_slice` accepts back.
#[verifier::external_body]
fn random_secret() -> (r: Vec<u8>)
    ensures
        is_valid_secret(r@),
{
    ecdsa::SigningKey::<k256::Secp256k1>::random(&mut rand_core::OsRng).to_bytes().to_vec()
}

/// Relies on `ecdsa::SigningKey::verifying_key` and `VerifyingKey::to_encoded_point(true)`.
#[verifier::external_body]
fn derive_public(secret: &Vec<u8>) -> (r: Vec<u8>)
    requires
        is_valid_secret(secret@),
    ensures
        r@ == public_of(secret@),
{
    let key = ecdsa::SigningKey::<k256::Secp256k1>::from_slice(secret).unwrap();
    key.verifying_key().to_encoded_point(true).as_bytes().to_vec()
}

/// Relies on `ecdsa::signature::Signer::sign` of `ecdsa::SigningKey<Secp256k1>`
/// (RFC 6979, so the result depends on the key and the message alone), returned
/// as the bytes of `Signature::to_bytes`. k256 signs with a low `s`, which its
/// verifier accepts, so the signature verifies under the key's public key.
#[verifier::external_body]
fn sign_bytes(secret: &Vec<u8>, msg: &Vec<u8>) -> (r: Vec<u8>)
    requires
        is_valid_secret(secret@),
    ensures
        r@ == signature_of(secret@, msg@),
        signature_accepted(public_of(secret@), r@, msg@),
{
    let key = ecdsa::SigningKey::<k256::Secp256k1>::from_slice(secret).unwrap();
    let sig: ecdsa::Signature<k256::Secp256k1> = ecdsa::signature::Signer::sign(&key, msg);
    sig.to_bytes().to_vec()
}

/// Relies on `ecdsa::signature::Verifier::verify` of `ecdsa::VerifyingKey<Secp256k1>`;
/// bytes that are no key or no signature are not accepted.
#[verifier::external_body]
fn verify_bytes(public: &Vec<u8>, sig: &Vec<u8>, msg: &Vec<u8>) -> (r: bool)
    ensures
        r == signature_accepted(public@, sig@, msg@),
{
    let Ok(key) = ecdsa::VerifyingKey::<k256::Secp256k1>::from_sec1_bytes(public) else {
        return false;
    };
    let Ok(sig) = ecdsa::Signature::<k256::Secp256k1>::from_slice(sig) else {
        return false;
    };
    ecdsa::signature::Verifier::verify(&key, msg, &sig).is_ok()
}

/// A secp256k1 public key, held as its compressed SEC1 encoding.
pub struct PublicKey {
    bytes: Vec<u8>,
}

impl View for PublicKey {
    type V = Seq<u8>;

    closed spec fn view(&self) -> Seq<u8> {
        self.bytes@
    }
}

impl PublicKey {
    pub fn from_bytes(bytes: Vec<u8>) -> (r: PublicKey)
        ensures
            r@ == bytes@,
    {
        PublicKey { bytes }
    }

    pub fn as_bytes(&self) -> (r: &Vec<u8>)
        ensures
            r@ == self@,
    {
        &self.bytes
    }
}

impl Clone for PublicKey {
    fn clone(&self) -> (r: Self)
        ensures
            r@ == self@,
    {
        PublicKey { bytes: self.bytes.clone() }
    }
}

impl PartialEq for PublicKey {
    fn eq(&self, other: &PublicKey) -> (r: bool) {
        bytes_eq(&self.bytes, &other.bytes)
    }
}

impl vstd::std_specs::cmp::PartialEqSpecImpl for PublicKey {
    open spec fn obeys_eq_spec() -> bool {
        true
    }

    open spec fn eq_spec(&self, other: &PublicKey) -> bool {
        self@ == other@
    }
}

impl Eq for PublicKey {}

/// Lexicographic order of byte strings, a proper prefix first.
pub open spec fn bytes_lt(a: Seq<u8>, b: Seq<u8>) -> bool
    decreases a.len(),
{
    if a.len() == 0 {
        b.len() > 0
    } else if b.len() == 0 {
        false
    } else if a[0] != b[0] {
        a[0] < b[0]
    } else {
        bytes_lt(a.skip(1), b.skip(1))
    }
}

impl PublicKey {
    /// The total order of keys: by their compressed encodings, byte by byte.
    pub fn precedes(&self, other: &PublicKey) -> (r: bool)
        ensures
            r == bytes_lt(self@, other@),
    {
        let a = &self.bytes;
        let b = &other.bytes;
        let mut i: usize = 0;
        assert(a@.skip(0) =~= a@);
        assert(b@.skip(0) =~= b@);
        assert(a@ == self@ && b@ == other@);
        while i < a.len() && i < b.len()
            invariant
                0 <= i <= a@.len(),
                i <= b@.len(),
                a@ == self@,
                b@ == other@,
                bytes_lt(a@, b@) == bytes_lt(a@.skip(i as int), b@.skip(i as int)),
            decreases a@.len() - i,
        {
            assert(a@.skip(i as int)[0] == a@[i as int]);
            assert(b@.skip(i as int)[0] == b@[i as int]);
            assert(a@.skip(i as int).len() > 0 && b@.skip(i as int).len() > 0);
            if a[i] != b[i] {
                assert(bytes_lt(a@.skip(i as int), b@.skip(i as int)) == (a@[i as int] < b@[i as int]));
                return a[i] < b[i];
            }
            assert(a@.skip(i as int).skip(1) =~= a@.skip(i + 1));
            assert(b@.skip(i as int).skip(1) =~= b@.skip(i + 1));
            i += 1;
        }
        assert(a@.skip(i as int).len() == a@.len() - i);
        assert(b@.skip(i as int).len() == b@.len() - i);
        i < b.len()
    }
}

/// Byte-wise equality of two byte strings.
pub fn bytes_eq(a: &Vec<u8>, b: &Vec<u8>) -> (r: bool)
    ensures
        r == (a@ == b@),
{
    if a.len() != b.len() {
        return false;
    }
    let mut i: usize = 0;
    while i < a.len()
        invariant
            a@.len() == b@.len(),
            0 <= i <= a@.len(),
            a@.subrange(0, i as int) == b@.subrange(0, i as int),
        decreases a@.len() - i,
    {
        if a[i] != b[i] {
            return false;
        }
        assert(a@.subrange(0, i + 1) =~= a@.subrange(0, i as int).push(a@[i as int]));
        assert(b@.subrange(0, i + 1) =~= b@.subrange(0, i as int).push(b@[i as int]));
        i += 1;
    }
    assert(a@ =~= a@.subrange(0, i as int));
    assert(b@ =~= b@.subrange(0, i as int));
    true
}

/// A secp256k1 secret key, held as the bytes of its scalar.
pub struct PrivateKey {
    bytes: Vec<u8>,
}

impl View for PrivateKey {
    type V = Seq<u8>;

    closed spec fn view(&self) -> Seq<u8> {
        self.bytes@
    }
}

impl PrivateKey {
    #[verifier::type_invariant]
    closed spec fn usable(&self) -> bool {
        is_valid_secret(self.bytes@)
    }

    /// A fresh random key.
    pub fn new() -> (r: PrivateKey)
        ensures
            is_valid_secret(r@),
    {
        PrivateKey { bytes: random_secret() }
    }

    /// The key whose secret scalar is `bytes`, if they are one.
    pub fn from_bytes(bytes: Vec<u8>) -> (r: Option<PrivateKey>)
        ensures
            r is Some <==> is_valid_secret(bytes@),
            r is Some ==> r->0@ == bytes@,
    {
        if secret_is_valid(&bytes) {
            Some(PrivateKey { bytes })
        } else {
            None
        }
    }

    pub fn as_bytes(&self) -> (r: &Vec<u8>)
        ensures
            r@ == self@,
            is_valid_secret(self@),
    {
        proof { use_type_invariant(self); }
        &self.bytes
    }

    pub fn public_key(&self) -> (r: PublicKey)
        ensures
            r@ == public_of(self@),
    {
        proof { use_type_invariant(self); }
        PublicKey { bytes: derive_public(&self.bytes) }
    }
}

impl Clone for PrivateKey {
    fn clone(&self) -> (r: Self)
        ensures
            r@ == self@,
    {
        proof { use_type_invariant(self); }
        PrivateKey { bytes: self.bytes.clone() }
    }
}

impl Default for PrivateKey {
    fn default() -> (r: PrivateKey)
        ensures
            is_valid_secret(r@),
    {
        PrivateKey::new()
    }
}

/// An ECDSA signature over secp256k1, held as its 64 bytes `r || s`.
pub struct Signature {
    bytes: Vec<u8>,
}

impl View for Signature {
    type V = Seq<u8>;

    closed spec fn view(&self) -> Seq<u8> {
        self.bytes@
    }
}

impl Clone for Signature {
    fn clone(&self) -> (r: Self)
        ensures
            r@ == self@,
    {
        Signature { bytes: self.bytes.clone() }
    }
}

impl Signature {
    pub fn from_bytes(bytes: Vec<u8>) -> (r: Signature)
        ensures
            r@ == bytes@,
    {
        Signature { bytes }
    }

    pub fn as_bytes(&self) -> (r: &Vec<u8>)
        ensures
            r@ == self@,
    {
        &self.bytes
    }

    /// Signs the big-endian bytes of `output_hash`.
    pub fn sign_output(output_hash: &crate::hash::Hash, private_key: &PrivateKey) -> (r: Signature)
        ensures
            r@ == signature_of(private_key@, u256_be(output_hash.0)),
            signature_accepted(public_of(private_key@), r@, u256_be(output_hash.0)),
    {
        let msg = output_hash.as_bytes();
        let secret = private_key.as_bytes();
        Signature { bytes: sign_bytes(secret, &msg) }
    }

    /// Whether this is a signature of the big-endian bytes of `output_hash` under `public_key`.
    pub fn verify(&self, output_hash: &crate::hash::Hash, public_key: &PublicKey) -> (r: bool)
        ensures
            r == signature_accepted(public_key@, self@, u256_be(output_hash.0)),
    {
        let msg = output_hash.as_bytes();
        verify_bytes(&public_key.bytes, &self.bytes, &msg)
    }
}

} // verus!
