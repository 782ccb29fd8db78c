use vstd::prelude::*;

use crate::bytes::{
    concat_enc, enc_bytes, enc_seq, lemma_concat_enc_step, push_bytes, push_u128, push_u64,
    u128_be, u64_be,
};
use crate::crypto::{PublicKey, Signature};
use crate::u256::u256_be;

verus! {

/// A payment of `value` base units to `pubkey`; `unique_id` keeps equal payments apart.
pub struct TransactionOutput {
    value: u64,
    unique_id: u128,
    pubkey: PublicKey,
}

pub struct OutputView {
    pub value: u64,
    pub unique_id: u128,
    pub pubkey: Seq<u8>,
}

impl View for TransactionOutput {
    type V = OutputView;

    closed spec fn view(&self) -> OutputView {
        OutputView { value: self.value, unique_id: self.unique_id, pubkey: self.pubkey@ }
    }
}

/// Canonical encoding of an output.
pub open spec fn enc_output(o: OutputView) -> Seq<u8> {
    u64_be(o.value) + u128_be(o.unique_id) + enc_bytes(o.pubkey)
}

impl Clone for TransactionOutput {
    fn clone(&self) -> (r: Self)
        ensures
            r@ == self@,
    {
        TransactionOutput { value: self.value, unique_id: self.unique_id, pubkey: self.pubkey.clone() }
    }
}

impl TransactionOutput {
    pub fn new(value: u64, unique_id: u128, pubkey: PublicKey) -> (r: TransactionOutput)
        ensures
            r@ == (OutputView { value, unique_id, pubkey: pubkey@ }),
    {
        TransactionOutput { value, unique_id, pubkey }
    }

    pub fn value(&self) -> (r: u64)
        ensures
            r == self@.value,
    {
        self.value
    }

    pub fn unique_id(&self) -> (r: u128)
        ensures
            r == self@.unique_id,
    {
        self.unique_id
    }

    pub fn pubkey(&self) -> (r: &PublicKey)
        ensures
            r@ == self@.pubkey,
    {
        &self.pubkey
    }

    pub fn encode_into(&self, out: &mut Vec<u8>)
        ensures
            final(out)@ == old(out)@ + enc_output(self@),
    {
        push_u64(out, self.value);
        push_u128(out, self.unique_id);
        push_bytes(out, self.pubkey.as_bytes());
        assert(final(out)@ =~= old(out)@ + enc_output(self@));
    }

    /// The hash of the output's canonical encoding.
    pub fn hash(&self) -> (r: crate::hash::Hash)
        ensures
            r == crate::hash::digest_hash(enc_output(self@)),
    {
        let mut out: Vec<u8> = Vec::new();
        self.encode_into(&mut out);
        assert(out@ =~= enc_output(self@));
        crate::hash::Hash::hash(&out)
    }
}

/// A reference to an output being spent, with the spender's signature over its hash.
pub struct TransactionInput {
    prev_transaction_output_hash: crate::hash::Hash,
    signature: Signature,
}

pub struct InputView {
    pub prev: crate::hash::Hash,
    pub signature: Seq<u8>,
}

impl View for TransactionInput {
    type V = InputView;

    closed spec fn view(&self) -> InputView {
        InputView { prev: self.prev_transaction_output_hash, signature: self.signature@ }
    }
}

/// Canonical encoding of an input.
pub open spec fn enc_input(i: InputView) -> Seq<u8> {
    u256_be(i.prev.0) + enc_bytes(i.signature)
}

impl Clone for TransactionInput {
    fn clone(&self) -> (r: Self)
        ensures
            r@ == self@,
    {
        TransactionInput {
            prev_transaction_output_hash: self.prev_transaction_output_hash,
            signature: self.signature.clone(),
        }
    }
}

impl TransactionInput {
    pub fn new(prev_transaction_output_hash: crate::hash::Hash, signature: Signature) -> (r: TransactionInput)
        ensures
            r@ == (InputView { prev: prev_transaction_output_hash, signature: signature@ }),
    {
        TransactionInput { prev_transaction_output_hash, signature }
    }

    pub fn prev_transaction_output_hash(&self) -> (r: &crate::hash::Hash)
        ensures
            *r == self@.prev,
    {
        &self.prev_transaction_output_hash
    }

    pub fn signature(&self) -> (r: &Signature)
        ensures
            r@ == self@.signature,
    {
        &self.signature
    }

    pub fn encode_into(&self, out: &mut Vec<u8>)
        ensures
            final(out)@ == old(out)@ + enc_input(self@),
    {
        self.prev_transaction_output_hash.0.push_be(out);
        push_bytes(out, self.signature.as_bytes());
        assert(final(out)@ =~= old(out)@ + enc_input(self@));
    }
}

/// Ordered inputs and outputs; a coinbase has no inputs.
pub struct Transaction {
    pub inputs: Vec<TransactionInput>,
    pub outputs: Vec<TransactionOutput>,
}

pub struct TransactionView {
    pub inputs: Seq<InputView>,
    pub outputs: Seq<OutputView>,
}

impl View for Transaction {
    type V = TransactionView;

    open spec fn view(&self) -> TransactionView {
        TransactionView {
            inputs: self.inputs@.map_values(|i: TransactionInput| i@),
            outputs: self.outputs@.map_values(|o: TransactionOutput| o@),
        }
    }
}

/// Canonical encoding of a transaction.
pub open spec fn enc_transaction(t: TransactionView) -> Seq<u8> {
    enc_seq(t.inputs, |i: InputView| enc_input(i)) + enc_seq(t.outputs, |o: OutputView| enc_output(o))
}

/// The hash of a transaction.
pub open spec fn tx_hash(t: TransactionView) -> crate::hash::Hash {
    crate::hash::digest_hash(enc_transaction(t))
}

impl Clone for Transaction {
    fn clone(&self) -> (r: Self)
        ensures
            r@ == self@,
    {
        let mut inputs: Vec<TransactionInput> = Vec::new();
        let mut i: usize = 0;
        while i < self.inputs.len()
            invariant
                0 <= i <= self.inputs@.len(),
                inputs@.map_values(|x: TransactionInput| x@) == self@.inputs.take(i as int),
            decreases self.inputs@.len() - i,
        {
            let c = self.inputs[i].clone();
            let ghost before = inputs@;
            inputs.push(c);
            assert(inputs@ == before.push(c));
            assert(before.push(c).map_values(|x: TransactionInput| x@) =~= before.map_values(
                |x: TransactionInput| x@,
            ).push(c@));
            assert(self@.inputs.take(i + 1) =~= self@.inputs.take(i as int).push(c@));
            i += 1;
        }
        let mut outputs: Vec<TransactionOutput> = Vec::new();
        let mut j: usize = 0;
        while j < self.outputs.len()
            invariant
                0 <= j <= self.outputs@.len(),
                outputs@.map_values(|x: TransactionOutput| x@) == self@.outputs.take(j as int),
            decreases self.outputs@.len() - j,
        {
            let c = self.outputs[j].clone();
            let ghost before = outputs@;
            outputs.push(c);
            assert(outputs@ == before.push(c));
            assert(before.push(c).map_values(|x: TransactionOutput| x@) =~= before.map_values(
                |x: TransactionOutput| x@,
            ).push(c@));
            assert(self@.outputs.take(j + 1) =~= self@.outputs.take(j as int).push(c@));
            j += 1;
        }
        assert(self@.inputs.take(i as int) =~= self@.inputs);
        assert(self@.outputs.take(j as int) =~= self@.outputs);
        Transaction { inputs, outputs }
    }
}

impl Transaction {
    pub fn new(inputs: Vec<TransactionInput>, outputs: Vec<TransactionOutput>) -> (r: Transaction)
        ensures
            r.inputs == inputs,
            r.outputs == outputs,
    {
        Transaction { inputs, outputs }
    }

    pub fn inputs(&self) -> (r: &Vec<TransactionInput>)
        ensures
            r == &self.inputs,
    {
        &self.inputs
    }

    pub fn outputs(&self) -> (r: &Vec<TransactionOutput>)
        ensures
            r == &self.outputs,
    {
        &self.outputs
    }

    pub fn encode_into(&self, out: &mut Vec<u8>)
        ensures
            final(out)@ == old(out)@ + enc_transaction(self@),
    {
        let ghost start = out@;
        let ghost v = self@;
        push_u64(out, self.inputs.len() as u64);
        let mut i: usize = 0;
        while i < self.inputs.len()
            invariant
                0 <= i <= self.inputs@.len(),
                v == self@,
                out@ == start + u64_be(v.inputs.len() as u64) + concat_enc(
                    v.inputs.take(i as int),
                    |x: InputView| enc_input(x),
                ),
            decreases self.inputs@.len() - i,
        {
            self.inputs[i].encode_into(out);
            proof {
                lemma_concat_enc_step(v.inputs, |x: InputView| enc_input(x), i as int);
            }
            i += 1;
        }
        assert(v.inputs.take(i as int) =~= v.inputs);
        let ghost mid = out@;
        push_u64(out, self.outputs.len() as u64);
        let mut j: usize = 0;
        while j < self.outputs.len()
            invariant
                0 <= j <= self.outputs@.len(),
                v == self@,
                out@ == mid + u64_be(v.outputs.len() as u64) + concat_enc(
                    v.outputs.take(j as int),
                    |x: OutputView| enc_output(x),
                ),
            decreases self.outputs@.len() - j,
        {
            self.outputs[j].encode_into(out);
            proof {
                lemma_concat_enc_step(v.outputs, |x: OutputView| enc_output(x), j as int);
            }
            j += 1;
        }
        assert(v.outputs.take(j as int) =~= v.outputs);
        assert(final(out)@ =~= old(out)@ + enc_transaction(self@));
    }

    /// The hash of the transaction's canonical encoding.
    pub fn hash(&self) -> (r: crate::hash::Hash)
        ensures
            r == tx_hash(self@),
    {
        let mut out: Vec<u8> = Vec::new();
        self.encode_into(&mut out);
        assert(out@ =~= enc_transaction(self@));
        crate::hash::Hash::hash(&out)
    }
}

} // verus!
