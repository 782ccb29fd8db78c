use vstd::prelude::*;

use crate::block_header::{enc_header, BlockHeader};
use crate::bytes::{concat_enc, enc_seq, lemma_concat_enc_step, push_u64, u64_be};
use crate::crypto::signature_accepted;
use crate::error::BtcError;
use crate::transaction::{
    enc_output, enc_transaction, InputView, OutputView, Transaction, TransactionView,
};
use crate::u256::u256_be;
use crate::utxo::UtxoSet;

verus! {

/// Block subsidy before any halving: 50 coins of 10^8 base units.
pub const INITIAL_REWARD: u64 = 50;

/// Blocks between two halvings of the subsidy.
pub const HALVING_INTERVAL: u64 = 210_000;

/// Non-coinbase transactions a template may carry.
pub const BLOCK_TRANSACTION_CAP: usize = 20;

/// Value sums are kept below 2^128; a sum that would reach it is refused.
pub open spec fn sum_limit() -> int {
    u128::MAX as int + 1
}

/// The subsidy of a block at `height`: `50 * 10^8 >> (height / HALVING_INTERVAL)`,
/// zero once the shift reaches the width of the word.
pub open spec fn block_reward(height: u64) -> u64 {
    let halvings = height / 210_000;
    if halvings >= 64 {
        0
    } else {
        5_000_000_000u64 >> halvings
    }
}

pub fn calculate_block_reward(height: u64) -> (r: u64)
    ensures
        r == block_reward(height),
{
    let halvings = height / HALVING_INTERVAL;
    if halvings >= 64 {
        0
    } else {
        (INITIAL_REWARD * 100_000_000) >> halvings
    }
}

pub struct BlockView {
    pub header: BlockHeader,
    pub transactions: Seq<TransactionView>,
}

/// Canonical encoding of a block.
pub open spec fn enc_block(b: BlockView) -> Seq<u8> {
    enc_header(b.header) + enc_seq(b.transactions, |t: TransactionView| enc_transaction(t))
}

/// Sum of the values of outputs.
pub open spec fn output_sum(outs: Seq<OutputView>) -> nat
    decreases outs.len(),
{
    if outs.len() == 0 {
        0
    } else {
        (output_sum(outs.drop_last()) + outs.last().value) as nat
    }
}

/// The inputs of one transaction checked in order against `utxos`, given the keys
/// already spent in the block: the keys spent afterwards and the inputs' total value.
pub open spec fn check_inputs(
    inputs: Seq<InputView>,
    utxos: Map<crate::hash::Hash, (bool, OutputView)>,
    seen: Seq<crate::hash::Hash>,
) -> Result<(Seq<crate::hash::Hash>, nat), BtcError>
    decreases inputs.len(),
{
    if inputs.len() == 0 {
        Ok((seen, 0))
    } else {
        match check_inputs(inputs.drop_last(), utxos, seen) {
            Err(e) => Err(e),
            Ok((spent, total)) => {
                let i = inputs.last();
                if !utxos.contains_key(i.prev) {
                    Err(BtcError::InvalidTransaction)
                } else if spent.contains(i.prev) {
                    Err(BtcError::DoubleSpending)
                } else if !signature_accepted(utxos[i.prev].1.pubkey, i.signature, u256_be(i.prev.0)) {
                    Err(BtcError::InvalidSignature)
                } else {
                    Ok((spent.push(i.prev), (total + utxos[i.prev].1.value) as nat))
                }
            },
        }
    }
}

/// The non-coinbase transactions checked in order: each input resolves, is spent
/// once in the block and is signed; each transaction spends at least what it pays.
pub open spec fn check_transactions(
    txs: Seq<TransactionView>,
    utxos: Map<crate::hash::Hash, (bool, OutputView)>,
) -> Result<Seq<crate::hash::Hash>, BtcError>
    decreases txs.len(),
{
    if txs.len() == 0 {
        Ok(seq![])
    } else {
        match check_transactions(txs.drop_last(), utxos) {
            Err(e) => Err(e),
            Ok(spent) => match check_inputs(txs.last().inputs, utxos, spent) {
                Err(e) => Err(e),
                Ok((spent2, total_in)) => if total_in < output_sum(txs.last().outputs) {
                    Err(BtcError::InvalidTransaction)
                } else {
                    Ok(spent2)
                },
            },
        }
    }
}

/// Running state of the fee computation: keys spent, output hashes seen, value totals.
pub struct FeeState {
    pub spent: Seq<crate::hash::Hash>,
    pub produced: Seq<crate::hash::Hash>,
    pub total_in: nat,
    pub total_out: nat,
}

pub open spec fn fee_inputs(
    inputs: Seq<InputView>,
    utxos: Map<crate::hash::Hash, (bool, OutputView)>,
    st: FeeState,
) -> Result<FeeState, BtcError>
    decreases inputs.len(),
{
    if inputs.len() == 0 {
        Ok(st)
    } else {
        match fee_inputs(inputs.drop_last(), utxos, st) {
            Err(e) => Err(e),
            Ok(s) => {
                let h = inputs.last().prev;
                if s.spent.contains(h) {
                    Err(BtcError::DoubleSpending)
                } else if !utxos.contains_key(h) {
                    Err(BtcError::InvalidTransaction)
                } else if s.total_in + utxos[h].1.value >= sum_limit() {
                    Err(BtcError::InvalidTransaction)
                } else {
                    Ok(FeeState { spent: s.spent.push(h), total_in: (s.total_in + utxos[h].1.value) as nat, ..s })
                }
            },
        }
    }
}

pub open spec fn fee_outputs(outputs: Seq<OutputView>, st: FeeState) -> Result<FeeState, BtcError>
    decreases outputs.len(),
{
    if outputs.len() == 0 {
        Ok(st)
    } else {
        match fee_outputs(outputs.drop_last(), st) {
            Err(e) => Err(e),
            Ok(s) => {
                let o = outputs.last();
                let h = crate::hash::digest_hash(enc_output(o));
                if s.produced.contains(h) {
                    Err(BtcError::DoubleSpending)
                } else if s.total_out + o.value >= sum_limit() {
                    Err(BtcError::InvalidTransaction)
                } else {
                    Ok(FeeState { produced: s.produced.push(h), total_out: (s.total_out + o.value) as nat, ..s })
                }
            },
        }
    }
}

pub open spec fn fee_transactions(
    txs: Seq<TransactionView>,
    utxos: Map<crate::hash::Hash, (bool, OutputView)>,
) -> Result<FeeState, BtcError>
    decreases txs.len(),
{
    if txs.len() == 0 {
        Ok(FeeState { spent: seq![], produced: seq![], total_in: 0, total_out: 0 })
    } else {
        match fee_transactions(txs.drop_last(), utxos) {
            Err(e) => Err(e),
            Ok(s) => match fee_inputs(txs.last().inputs, utxos, s) {
                Err(e) => Err(e),
                Ok(s2) => fee_outputs(txs.last().outputs, s2),
            },
        }
    }
}

/// The transactions after the coinbase.
pub open spec fn non_coinbase(txs: Seq<TransactionView>) -> Seq<TransactionView> {
    if txs.len() == 0 {
        txs
    } else {
        txs.skip(1)
    }
}

/// Fees of a block: what its non-coinbase transactions spend minus what they pay.
pub open spec fn miner_fees(
    txs: Seq<TransactionView>,
    utxos: Map<crate::hash::Hash, (bool, OutputView)>,
) -> Result<u64, BtcError> {
    match fee_transactions(non_coinbase(txs), utxos) {
        Err(e) => Err(e),
        Ok(s) => if s.total_in < s.total_out || s.total_in - s.total_out > u64::MAX {
            Err(BtcError::InvalidTransaction)
        } else {
            Ok((s.total_in - s.total_out) as u64)
        },
    }
}

/// The coinbase has no inputs, some outputs, and pays exactly subsidy plus fees.
pub open spec fn coinbase_check(
    txs: Seq<TransactionView>,
    height: u64,
    utxos: Map<crate::hash::Hash, (bool, OutputView)>,
) -> Result<(), BtcError> {
    if txs.len() == 0 || txs[0].inputs.len() != 0 || txs[0].outputs.len() == 0 {
        Err(BtcError::InvalidTransaction)
    } else {
        match miner_fees(txs, utxos) {
            Err(e) => Err(e),
            Ok(fees) => if output_sum(txs[0].outputs) != block_reward(height) + fees {
                Err(BtcError::InvalidTransaction)
            } else {
                Ok(())
            },
        }
    }
}

/// All transaction rules of a block at `height`.
pub open spec fn transactions_check(
    txs: Seq<TransactionView>,
    height: u64,
    utxos: Map<crate::hash::Hash, (bool, OutputView)>,
) -> Result<(), BtcError> {
    if txs.len() == 0 {
        Err(BtcError::InvalidTransaction)
    } else {
        match coinbase_check(txs, height, utxos) {
            Err(e) => Err(e),
            Ok(_) => match check_transactions(txs.skip(1), utxos) {
                Err(e) => Err(e),
                Ok(_) => Ok(()),
            },
        }
    }
}

/// A header and its ordered transactions, the coinbase first.
pub struct Block {
    header: BlockHeader,
    transactions: Vec<Transaction>,
}

impl View for Block {
    type V = BlockView;

    closed spec fn view(&self) -> BlockView {
        BlockView {
            header: self.header,
            transactions: self.transactions@.map_values(|t: Transaction| t@),
        }
    }
}

proof fn lemma_output_sum_step(s: Seq<OutputView>, i: int)
    requires
        0 <= i < s.len(),
    ensures
        output_sum(s.take(i + 1)) == output_sum(s.take(i)) + s[i].value,
{
    assert(s.take(i + 1).drop_last() =~= s.take(i));
}

/// Sum of output values; below 2^128 since there are fewer than 2^64 outputs.
fn sum_outputs(outs: &Vec<crate::transaction::TransactionOutput>) -> (r: u128)
    ensures
        r == output_sum(outs@.map_values(|o: crate::transaction::TransactionOutput| o@)),
{
    let ghost v = outs@.map_values(|o: crate::transaction::TransactionOutput| o@);
    let mut total: u128 = 0;
    let mut i: usize = 0;
    while i < outs.len()
        invariant
            0 <= i <= outs@.len(),
            v == outs@.map_values(|o: crate::transaction::TransactionOutput| o@),
            total == output_sum(v.take(i as int)),
            total <= i * 0xFFFF_FFFF_FFFF_FFFFu128,
        decreases outs@.len() - i,
    {
        proof { lemma_output_sum_step(v, i as int); }
        total = total + outs[i].value() as u128;
        i += 1;
    }
    assert(v.take(i as int) =~= v);
    total
}

/// Sum of output values.
pub fn sum_outputs_pub(outs: &Vec<crate::transaction::TransactionOutput>) -> (r: u128)
    ensures
        r == output_sum(outs@.map_values(|o: crate::transaction::TransactionOutput| o@)),
{
    sum_outputs(outs)
}

fn hashes_contain(v: &Vec<crate::hash::Hash>, h: &crate::hash::Hash) -> (r: bool)
    ensures
        r == v@.contains(*h),
{
    let mut i: usize = 0;
    while i < v.len()
        invariant
            0 <= i <= v@.len(),
            forall|j: int| 0 <= j < i ==> v@[j] != *h,
        decreases v@.len() - i,
    {
        if v[i] == *h {
            return true;
        }
        i += 1;
    }
    false
}

/// Exec counterpart of `FeeState`.
struct FeeAcc {
    spent: Vec<crate::hash::Hash>,
    produced: Vec<crate::hash::Hash>,
    total_in: u128,
    total_out: u128,
}

impl View for FeeAcc {
    type V = FeeState;

    closed spec fn view(&self) -> FeeState {
        FeeState {
            spent: self.spent@,
            produced: self.produced@,
            total_in: self.total_in as nat,
            total_out: self.total_out as nat,
        }
    }
}

pub proof fn lemma_take_last<A>(s: Seq<A>, i: int)
    requires
        0 <= i < s.len(),
    ensures
        s.take(i + 1).drop_last() == s.take(i),
        s.take(i + 1).last() == s[i],
        s.take(i + 1).len() == i + 1,
{
    assert(s.take(i + 1).drop_last() =~= s.take(i));
}

proof fn lemma_fee_inputs_err(v: Seq<InputView>, u: Map<crate::hash::Hash, (bool, OutputView)>, st: FeeState, i: int)
    requires
        0 <= i <= v.len(),
        fee_inputs(v.take(i), u, st) is Err,
    ensures
        fee_inputs(v, u, st) == fee_inputs(v.take(i), u, st),
    decreases v.len() - i,
{
    if i < v.len() {
        lemma_take_last(v, i);
        lemma_fee_inputs_err(v, u, st, i + 1);
    } else {
        assert(v.take(i) =~= v);
    }
}

proof fn lemma_fee_outputs_err(v: Seq<OutputView>, st: FeeState, i: int)
    requires
        0 <= i <= v.len(),
        fee_outputs(v.take(i), st) is Err,
    ensures
        fee_outputs(v, st) == fee_outputs(v.take(i), st),
    decreases v.len() - i,
{
    if i < v.len() {
        lemma_take_last(v, i);
        lemma_fee_outputs_err(v, st, i + 1);
    } else {
        assert(v.take(i) =~= v);
    }
}

proof fn lemma_check_inputs_err(v: Seq<InputView>, u: Map<crate::hash::Hash, (bool, OutputView)>, sp: Seq<crate::hash::Hash>, i: int)
    requires
        0 <= i <= v.len(),
        check_inputs(v.take(i), u, sp) is Err,
    ensures
        check_inputs(v, u, sp) == check_inputs(v.take(i), u, sp),
    decreases v.len() - i,
{
    if i < v.len() {
        lemma_take_last(v, i);
        lemma_check_inputs_err(v, u, sp, i + 1);
    } else {
        assert(v.take(i) =~= v);
    }
}

proof fn lemma_fee_transactions_err(v: Seq<TransactionView>, u: Map<crate::hash::Hash, (bool, OutputView)>, i: int)
    requires
        0 <= i <= v.len(),
        fee_transactions(v.take(i), u) is Err,
    ensures
        fee_transactions(v, u) == fee_transactions(v.take(i), u),
    decreases v.len() - i,
{
    if i < v.len() {
        lemma_take_last(v, i);
        lemma_fee_transactions_err(v, u, i + 1);
    } else {
        assert(v.take(i) =~= v);
    }
}

proof fn lemma_check_transactions_err(v: Seq<TransactionView>, u: Map<crate::hash::Hash, (bool, OutputView)>, i: int)
    requires
        0 <= i <= v.len(),
        check_transactions(v.take(i), u) is Err,
    ensures
        check_transactions(v, u) == check_transactions(v.take(i), u),
    decreases v.len() - i,
{
    if i < v.len() {
        lemma_take_last(v, i);
        lemma_check_transactions_err(v, u, i + 1);
    } else {
        assert(v.take(i) =~= v);
    }
}

fn fee_inputs_exec(
    inputs: &Vec<crate::transaction::TransactionInput>,
    utxos: &UtxoSet,
    acc: &mut FeeAcc,
) -> (r: Result<(), BtcError>)
    ensures
        match fee_inputs(inputs@.map_values(|i: crate::transaction::TransactionInput| i@), utxos@, old(acc)@) {
            Ok(s) => r is Ok && final(acc)@ == s,
            Err(e) => r == Err::<(), BtcError>(e),
        },
{
    let ghost v = inputs@.map_values(|i: crate::transaction::TransactionInput| i@);
    let ghost st0 = acc@;
    let mut i: usize = 0;
    while i < inputs.len()
        invariant
            0 <= i <= inputs@.len(),
            v == inputs@.map_values(|i: crate::transaction::TransactionInput| i@),
            st0 == old(acc)@,
            fee_inputs(v.take(i as int), utxos@, st0) == Ok::<FeeState, BtcError>(acc@),
        decreases inputs@.len() - i,
    {
        proof {
            lemma_take_last(v, i as int);
            assert(v[i as int] == inputs@[i as int]@);
        }
        let h = *inputs[i].prev_transaction_output_hash();
        if hashes_contain(&acc.spent, &h) {
            assert(fee_inputs(v.take(i + 1), utxos@, st0) == Err::<FeeState, BtcError>(BtcError::DoubleSpending));
            proof { lemma_fee_inputs_err(v, utxos@, st0, i + 1); }
            return Err(BtcError::DoubleSpending);
        }
        let value = match utxos.get(&h) {
            Some(entry) => entry.output.value(),
            None => {
                proof { lemma_fee_inputs_err(v, utxos@, st0, i + 1); }
                return Err(BtcError::InvalidTransaction);
            },
        };
        if acc.total_in > u128::MAX - value as u128 {
            proof { lemma_fee_inputs_err(v, utxos@, st0, i + 1); }
            return Err(BtcError::InvalidTransaction);
        }
        acc.total_in = acc.total_in + value as u128;
        acc.spent.push(h);
        i += 1;
    }
    assert(v.take(i as int) =~= v);
    Ok(())
}

fn fee_outputs_exec(outputs: &Vec<crate::transaction::TransactionOutput>, acc: &mut FeeAcc) -> (r: Result<(), BtcError>)
    ensures
        match fee_outputs(outputs@.map_values(|o: crate::transaction::TransactionOutput| o@), old(acc)@) {
            Ok(s) => r is Ok && final(acc)@ == s,
            Err(e) => r == Err::<(), BtcError>(e),
        },
{
    let ghost v = outputs@.map_values(|o: crate::transaction::TransactionOutput| o@);
    let ghost st0 = acc@;
    let mut i: usize = 0;
    while i < outputs.len()
        invariant
            0 <= i <= outputs@.len(),
            v == outputs@.map_values(|o: crate::transaction::TransactionOutput| o@),
            st0 == old(acc)@,
            fee_outputs(v.take(i as int), st0) == Ok::<FeeState, BtcError>(acc@),
        decreases outputs@.len() - i,
    {
        proof { lemma_take_last(v, i as int); }
        let h = outputs[i].hash();
        if hashes_contain(&acc.produced, &h) {
            proof { lemma_fee_outputs_err(v, st0, i + 1); }
            return Err(BtcError::DoubleSpending);
        }
        let value = outputs[i].value();
        if acc.total_out > u128::MAX - value as u128 {
            proof { lemma_fee_outputs_err(v, st0, i + 1); }
            return Err(BtcError::InvalidTransaction);
        }
        acc.total_out = acc.total_out + value as u128;
        acc.produced.push(h);
        i += 1;
    }
    assert(v.take(i as int) =~= v);
    Ok(())
}

/// Inputs of one transaction checked against the UTXO set; returns their total value.
fn check_inputs_exec(
    inputs: &Vec<crate::transaction::TransactionInput>,
    utxos: &UtxoSet,
    spent: &mut Vec<crate::hash::Hash>,
) -> (r: Result<u128, BtcError>)
    ensures
        match check_inputs(inputs@.map_values(|i: crate::transaction::TransactionInput| i@), utxos@, old(spent)@) {
            Ok((sp, total)) => r == Ok::<u128, BtcError>(total as u128) && total <= u128::MAX && final(spent)@ == sp,
            Err(e) => r == Err::<u128, BtcError>(e),
        },
{
    let ghost v = inputs@.map_values(|i: crate::transaction::TransactionInput| i@);
    let ghost sp0 = spent@;
    let mut total: u128 = 0;
    let mut i: usize = 0;
    while i < inputs.len()
        invariant
            0 <= i <= inputs@.len(),
            v == inputs@.map_values(|i: crate::transaction::TransactionInput| i@),
            sp0 == old(spent)@,
            check_inputs(v.take(i as int), utxos@, sp0) == Ok::<(Seq<crate::hash::Hash>, nat), BtcError>((spent@, total as nat)),
            total <= i * 0xFFFF_FFFF_FFFF_FFFFu128,
        decreases inputs@.len() - i,
    {
        proof { lemma_take_last(v, i as int); }
        let input = &inputs[i];
        let h = *input.prev_transaction_output_hash();
        let entry = match utxos.get(&h) {
            Some(entry) => entry,
            None => {
                proof { lemma_check_inputs_err(v, utxos@, sp0, i + 1); }
                return Err(BtcError::InvalidTransaction);
            },
        };
        if hashes_contain(spent, &h) {
            proof { lemma_check_inputs_err(v, utxos@, sp0, i + 1); }
            return Err(BtcError::DoubleSpending);
        }
        if !input.signature().verify(&h, entry.output.pubkey()) {
            proof { lemma_check_inputs_err(v, utxos@, sp0, i + 1); }
            return Err(BtcError::InvalidSignature);
        }
        total = total + entry.output.value() as u128;
        spent.push(h);
        i += 1;
    }
    assert(v.take(i as int) =~= v);
    Ok(total)
}

impl Clone for Block {
    fn clone(&self) -> (r: Self)
        ensures
            r@ == self@,
    {
        let mut transactions: Vec<Transaction> = Vec::new();
        let mut i: usize = 0;
        while i < self.transactions.len()
            invariant
                0 <= i <= self.transactions@.len(),
                transactions@.map_values(|t: Transaction| t@) == self@.transactions.take(i as int),
            decreases self.transactions@.len() - i,
        {
            let c = self.transactions[i].clone();
            let ghost before = transactions@;
            transactions.push(c);
            assert(transactions@.map_values(|t: Transaction| t@) =~= before.map_values(|t: Transaction| t@).push(c@));
            assert(self@.transactions.take(i + 1) =~= self@.transactions.take(i as int).push(c@));
            i += 1;
        }
        assert(self@.transactions.take(i as int) =~= self@.transactions);
        Block { header: self.header, transactions }
    }
}

impl Block {
    pub fn new(header: BlockHeader, transactions: Vec<Transaction>) -> (r: Block)
        ensures
            r@ == (BlockView { header, transactions: transactions@.map_values(|t: Transaction| t@) }),
    {
        Block { header, transactions }
    }

    pub fn header(&self) -> (r: &BlockHeader)
        ensures
            *r == self@.header,
    {
        &self.header
    }

    pub fn transactions(&self) -> (r: &Vec<Transaction>)
        ensures
            r@.map_values(|t: Transaction| t@) == self@.transactions,
    {
        &self.transactions
    }

    /// Searches nonces for the header; see `BlockHeader::mine`.
    pub fn mine(&mut self, steps: usize) -> (r: bool)
        ensures
            r == crate::block_header::pow_valid(final(self)@.header),
            final(self)@.transactions == old(self)@.transactions,
            final(self)@.header.prev_block_hash == old(self)@.header.prev_block_hash,
            final(self)@.header.merkle_root == old(self)@.header.merkle_root,
            final(self)@.header.target == old(self)@.header.target,
            crate::block_header::pow_valid(old(self)@.header) ==> final(self)@ == old(self)@,
            old(self)@.header.nonce + steps <= u64::MAX ==> final(self)@.header.timestamp == old(self)@.header.timestamp
                && old(self)@.header.nonce <= final(self)@.header.nonce <= old(self)@.header.nonce + steps
                && (!r ==> final(self)@.header.nonce == old(self)@.header.nonce + steps)
                && forall|n: u64| old(self)@.header.nonce <= n < final(self)@.header.nonce ==> !crate::block_header::pow_valid(
                #[trigger] crate::block_header::with_nonce(old(self)@.header, n),
            ),
    {
        self.header.mine(steps)
    }

    pub fn encode_into(&self, out: &mut Vec<u8>)
        ensures
            final(out)@ == old(out)@ + enc_block(self@),
    {
        let ghost start = out@;
        let ghost v = self@.transactions;
        self.header.encode_into(out);
        push_u64(out, self.transactions.len() as u64);
        let mut i: usize = 0;
        while i < self.transactions.len()
            invariant
                0 <= i <= self.transactions@.len(),
                v == self@.transactions,
                out@ == start + enc_header(self@.header) + u64_be(v.len() as u64) + concat_enc(
                    v.take(i as int),
                    |t: TransactionView| enc_transaction(t),
                ),
            decreases self.transactions@.len() - i,
        {
            self.transactions[i].encode_into(out);
            proof {
                lemma_concat_enc_step(v, |t: TransactionView| enc_transaction(t), i as int);
            }
            i += 1;
        }
        assert(v.take(i as int) =~= v);
        assert(final(out)@ =~= old(out)@ + enc_block(self@));
    }

    pub fn hash(&self) -> (r: crate::hash::Hash)
        ensures
            r == block_hash(self@),
    {
        let mut out: Vec<u8> = Vec::new();
        self.encode_into(&mut out);
        assert(out@ =~= enc_block(self@));
        crate::hash::Hash::hash(&out)
    }

    /// Fees that the non-coinbase transactions leave to the miner.
    pub fn calculated_miner_fees(&self, utxos: &UtxoSet) -> (r: Result<u64, BtcError>)
        ensures
            r == miner_fees(self@.transactions, utxos@),
    {
        let ghost txs = non_coinbase(self@.transactions);
        let mut acc = FeeAcc { spent: Vec::new(), produced: Vec::new(), total_in: 0, total_out: 0 };
        let mut k: usize = 1;
        if self.transactions.len() == 0 {
            k = 0;
        }
        let ghost base: int = k as int;
        assert(txs.take(0) =~= Seq::<TransactionView>::empty());
        while k < self.transactions.len()
            invariant
                base <= k <= self.transactions@.len(),
                base == if self@.transactions.len() == 0 { 0int } else { 1int },
                txs == non_coinbase(self@.transactions),
                txs.len() == self@.transactions.len() - base,
                fee_transactions(txs.take(k - base), utxos@) == Ok::<FeeState, BtcError>(acc@),
            decreases self.transactions@.len() - k,
        {
            proof {
                lemma_take_last(txs, k - base);
                assert(txs[k - base] == self@.transactions[k as int]);
            }
            let tx = &self.transactions[k];
            match fee_inputs_exec(&tx.inputs, utxos, &mut acc) {
                Ok(()) => {},
                Err(e) => {
                    proof { lemma_fee_transactions_err(txs, utxos@, k - base + 1); }
                    return Err(e);
                },
            }
            match fee_outputs_exec(&tx.outputs, &mut acc) {
                Ok(()) => {},
                Err(e) => {
                    proof { lemma_fee_transactions_err(txs, utxos@, k - base + 1); }
                    return Err(e);
                },
            }
            k += 1;
        }
        assert(txs.take(k - base) =~= txs);
        if acc.total_in < acc.total_out {
            return Err(BtcError::InvalidTransaction);
        }
        let fee = acc.total_in - acc.total_out;
        if fee > u64::MAX as u128 {
            return Err(BtcError::InvalidTransaction);
        }
        Ok(fee as u64)
    }

    /// The coinbase rules, for a block at `predicted_block_height`.
    pub fn verify_coinbase_transaction(&self, predicted_block_height: u64, utxos: &UtxoSet) -> (r: Result<(), BtcError>)
        ensures
            r == coinbase_check(self@.transactions, predicted_block_height, utxos@),
    {
        if self.transactions.len() == 0 {
            return Err(BtcError::InvalidTransaction);
        }
        let coinbase = &self.transactions[0];
        if coinbase.inputs.len() != 0 || coinbase.outputs.len() == 0 {
            return Err(BtcError::InvalidTransaction);
        }
        let fees = match self.calculated_miner_fees(utxos) {
            Ok(f) => f,
            Err(e) => {
                return Err(e);
            },
        };
        let reward = calculate_block_reward(predicted_block_height);
        let total = sum_outputs(&coinbase.outputs);
        if total != reward as u128 + fees as u128 {
            return Err(BtcError::InvalidTransaction);
        }
        Ok(())
    }

    /// All transaction rules, for a block at `predicted_block_height`.
    pub fn verify_transactions(&self, predicted_block_height: u64, utxos: &UtxoSet) -> (r: Result<(), BtcError>)
        ensures
            r == transactions_check(self@.transactions, predicted_block_height, utxos@),
    {
        if self.transactions.len() == 0 {
            return Err(BtcError::InvalidTransaction);
        }
        match self.verify_coinbase_transaction(predicted_block_height, utxos) {
            Ok(()) => {},
            Err(e) => {
                return Err(e);
            },
        }
        let ghost txs = self@.transactions.skip(1);
        let mut spent: Vec<crate::hash::Hash> = Vec::new();
        let mut k: usize = 1;
        assert(txs.take(0) =~= Seq::<TransactionView>::empty());
        while k < self.transactions.len()
            invariant
                1 <= k <= self.transactions@.len(),
                txs == self@.transactions.skip(1),
                coinbase_check(self@.transactions, predicted_block_height, utxos@) == Ok::<(), BtcError>(()),
                check_transactions(txs.take(k - 1), utxos@) == Ok::<Seq<crate::hash::Hash>, BtcError>(spent@),
            decreases self.transactions@.len() - k,
        {
            proof {
                lemma_take_last(txs, k - 1);
                assert(txs[k - 1] == self@.transactions[k as int]);
                assert(self@.transactions[k as int] == self.transactions@[k as int]@);
            }
            let tx = &self.transactions[k];
            let ghost spent_before = spent@;
            let total_in = match check_inputs_exec(&tx.inputs, utxos, &mut spent) {
                Ok(t) => t,
                Err(e) => {
                    assert(check_inputs(txs[k - 1].inputs, utxos@, spent_before) == Err::<(Seq<crate::hash::Hash>, nat), BtcError>(e));
                    assert(check_transactions(txs.take(k as int), utxos@) == Err::<Seq<crate::hash::Hash>, BtcError>(e));
                    proof { lemma_check_transactions_err(txs, utxos@, k as int); }
                    return Err(e);
                },
            };
            let total_out = sum_outputs(&tx.outputs);
            assert(txs[k - 1].outputs == tx.outputs@.map_values(|o: crate::transaction::TransactionOutput| o@));
            if total_in < total_out {
                assert(check_transactions(txs.take(k as int), utxos@) == Err::<Seq<crate::hash::Hash>, BtcError>(BtcError::InvalidTransaction));
                proof { lemma_check_transactions_err(txs, utxos@, k as int); }
                return Err(BtcError::InvalidTransaction);
            }
            k += 1;
        }
        assert(txs.take(k - 1) =~= txs);
        Ok(())
    }
}

pub open spec fn block_hash(b: BlockView) -> crate::hash::Hash {
    crate::hash::digest_hash(enc_block(b))
}

/// How many inputs the transactions hold.
pub open spec fn input_count(txs: Seq<TransactionView>) -> nat
    decreases txs.len(),
{
    if txs.len() == 0 {
        0
    } else {
        input_count(txs.drop_last()) + txs.last().inputs.len()
    }
}

/// How many outputs the transactions hold.
pub open spec fn output_count(txs: Seq<TransactionView>) -> nat
    decreases txs.len(),
{
    if txs.len() == 0 {
        0
    } else {
        output_count(txs.drop_last()) + txs.last().outputs.len()
    }
}

/// One input key spent twice within the same transaction.
pub open spec fn spends_twice(t: TransactionView) -> bool {
    exists|a: int, b: int| 0 <= a < b < t.inputs.len() && #[trigger] t.inputs[a].prev == #[trigger] t.inputs[b].prev
}

proof fn lemma_fee_inputs_shape(
    ins: Seq<InputView>,
    utxos: Map<crate::hash::Hash, (bool, OutputView)>,
    st: FeeState,
)
    requires
        forall|i: int| 0 <= i < ins.len() ==> utxos.contains_key(#[trigger] ins[i].prev),
        st.total_in + ins.len() * 0xFFFF_FFFF_FFFF_FFFF < sum_limit(),
    ensures
        fee_inputs(ins, utxos, st) is Err ==> fee_inputs(ins, utxos, st) == Err::<FeeState, BtcError>(BtcError::DoubleSpending),
        fee_inputs(ins, utxos, st) is Ok ==> ({
            let s = fee_inputs(ins, utxos, st)->Ok_0;
            &&& s.spent == st.spent + ins.map_values(|i: InputView| i.prev)
            &&& s.total_in <= st.total_in + ins.len() * 0xFFFF_FFFF_FFFF_FFFF
            &&& s.produced == st.produced
            &&& s.total_out == st.total_out
            &&& !spends_twice(TransactionView { inputs: ins, outputs: seq![] })
        }),
    decreases ins.len(),
{
    if ins.len() > 0 {
        let pre = ins.drop_last();
        lemma_fee_inputs_shape(pre, utxos, st);
        assert(ins[ins.len() - 1] == ins.last());
        if fee_inputs(ins, utxos, st) is Ok {
            let s1 = fee_inputs(pre, utxos, st)->Ok_0;
            let h = ins.last().prev;
            assert(ins.map_values(|i: InputView| i.prev) =~= pre.map_values(|i: InputView| i.prev).push(h));
            assert(!s1.spent.contains(h));
            let t = TransactionView { inputs: ins, outputs: seq![] };
            let tp = TransactionView { inputs: pre, outputs: seq![] };
            assert forall|a: int, b: int| 0 <= a < b < ins.len() implies #[trigger] ins[a].prev != #[trigger] ins[b].prev by {
                if b < ins.len() - 1 {
                    assert(pre[a] == ins[a] && pre[b] == ins[b]);
                    if ins[a].prev == ins[b].prev {
                        assert(tp.inputs[a].prev == tp.inputs[b].prev);
                        assert(spends_twice(tp));
                    }
                } else {
                    assert(s1.spent[st.spent.len() + a] == ins[a].prev);
                }
            }
        }
    }
}

proof fn lemma_fee_outputs_shape(outs: Seq<OutputView>, st: FeeState)
    requires
        st.total_out + outs.len() * 0xFFFF_FFFF_FFFF_FFFF < sum_limit(),
    ensures
        fee_outputs(outs, st) is Err ==> fee_outputs(outs, st) == Err::<FeeState, BtcError>(BtcError::DoubleSpending),
        fee_outputs(outs, st) is Ok ==> ({
            let s = fee_outputs(outs, st)->Ok_0;
            &&& s.spent == st.spent
            &&& s.total_in == st.total_in
            &&& s.total_out <= st.total_out + outs.len() * 0xFFFF_FFFF_FFFF_FFFF
        }),
    decreases outs.len(),
{
    if outs.len() > 0 {
        lemma_fee_outputs_shape(outs.drop_last(), st);
    }
}

proof fn lemma_fee_transactions_shape(txs: Seq<TransactionView>, utxos: Map<crate::hash::Hash, (bool, OutputView)>)
    requires
        forall|j: int, i: int| 0 <= j < txs.len() && 0 <= i < txs[j].inputs.len() ==> utxos.contains_key(#[trigger] txs[j].inputs[i].prev),
        input_count(txs) * 0xFFFF_FFFF_FFFF_FFFF < sum_limit(),
        output_count(txs) * 0xFFFF_FFFF_FFFF_FFFF < sum_limit(),
    ensures
        fee_transactions(txs, utxos) is Err ==> fee_transactions(txs, utxos) == Err::<FeeState, BtcError>(BtcError::DoubleSpending),
        fee_transactions(txs, utxos) is Ok ==> ({
            let s = fee_transactions(txs, utxos)->Ok_0;
            &&& s.total_in <= input_count(txs) * 0xFFFF_FFFF_FFFF_FFFF
            &&& s.total_out <= output_count(txs) * 0xFFFF_FFFF_FFFF_FFFF
            &&& forall|j: int| 0 <= j < txs.len() ==> !spends_twice(#[trigger] txs[j])
        }),
    decreases txs.len(),
{
    if txs.len() > 0 {
        let pre = txs.drop_last();
        let t = txs.last();
        assert forall|j: int, i: int| 0 <= j < pre.len() && 0 <= i < pre[j].inputs.len() implies utxos.contains_key(#[trigger] pre[j].inputs[i].prev) by {
            assert(pre[j] == txs[j]);
        }
        lemma_fee_transactions_shape(pre, utxos);
        if fee_transactions(pre, utxos) is Ok {
            let s1 = fee_transactions(pre, utxos)->Ok_0;
            assert(t == txs[txs.len() - 1]);
            assert forall|i: int| 0 <= i < t.inputs.len() implies utxos.contains_key(#[trigger] t.inputs[i].prev) by {
                assert(t.inputs[i] == txs[txs.len() - 1].inputs[i]);
            }
            lemma_fee_inputs_shape(t.inputs, utxos, s1);
            if fee_inputs(t.inputs, utxos, s1) is Ok {
                let s2 = fee_inputs(t.inputs, utxos, s1)->Ok_0;
                lemma_fee_outputs_shape(t.outputs, s2);
                if fee_transactions(txs, utxos) is Ok {
                    assert forall|j: int| 0 <= j < txs.len() implies !spends_twice(#[trigger] txs[j]) by {
                        if j < txs.len() - 1 {
                            assert(pre[j] == txs[j]);
                        } else {
                            if spends_twice(t) {
                                let (a, b) = choose|a: int, b: int| 0 <= a < b < t.inputs.len() && #[trigger] t.inputs[a].prev == #[trigger] t.inputs[b].prev;
                                let tv = TransactionView { inputs: t.inputs, outputs: seq![] };
                                assert(tv.inputs[a].prev == tv.inputs[b].prev);
                                assert(spends_twice(tv));
                            }
                        }
                    }
                }
            }
        }
    }
}

/// A block whose coinbase is well formed and one of whose other transactions
/// spends the same indexed key twice is refused with `DoubleSpending` (given
/// fewer than 2^64 inputs and outputs, so no value sum can overflow first).
pub proof fn lemma_double_spend_in_block(
    txs: Seq<TransactionView>,
    height: u64,
    utxos: Map<crate::hash::Hash, (bool, OutputView)>,
    j: int,
)
    requires
        txs.len() > 0,
        txs[0].inputs.len() == 0,
        txs[0].outputs.len() > 0,
        1 <= j < txs.len(),
        spends_twice(txs[j]),
        forall|k: int, i: int| 1 <= k < txs.len() && 0 <= i < txs[k].inputs.len() ==> utxos.contains_key(#[trigger] txs[k].inputs[i].prev),
        input_count(txs.skip(1)) * 0xFFFF_FFFF_FFFF_FFFF < sum_limit(),
        output_count(txs.skip(1)) * 0xFFFF_FFFF_FFFF_FFFF < sum_limit(),
    ensures
        transactions_check(txs, height, utxos) == Err::<(), BtcError>(BtcError::DoubleSpending),
{
    let rest = txs.skip(1);
    assert(non_coinbase(txs) == rest);
    assert forall|k: int, i: int| 0 <= k < rest.len() && 0 <= i < rest[k].inputs.len() implies utxos.contains_key(#[trigger] rest[k].inputs[i].prev) by {
        assert(rest[k] == txs[k + 1]);
    }
    lemma_fee_transactions_shape(rest, utxos);
    assert(rest[j - 1] == txs[j]);
    assert(fee_transactions(rest, utxos) is Err);
}

} // verus!
