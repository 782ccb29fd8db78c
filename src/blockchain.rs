use vstd::prelude::*;

use crate::block::{transactions_check, Block, BlockView};
use crate::block_header::{header_hash, pow_valid, BlockHeader};
use crate::error::BtcError;
use crate::merkle_root::{merkle_root_of, MerkleRoot};
use crate::transaction::{enc_output, OutputView, Transaction, TransactionView};
use crate::u256::U256;
use crate::utxo::UtxoSet;

verus! {

/// Seconds a block should take.
pub const IDEAL_BLOCK_TIME: u64 = 600;

/// Blocks between two difficulty adjustments.
pub const DIFFICULTY_UPDATE_INTERVAL: u64 = 2016;

/// Seconds a transaction may wait in the mempool.
pub const MAX_MEMPOOL_TX_AGE: u64 = 600;

/// The easiest target allowed: the top 16 bits zero, all others one.
pub open spec fn min_target_value() -> nat {
    U256 {
        w0: 0xFFFF_FFFF_FFFF_FFFF,
        w1: 0xFFFF_FFFF_FFFF_FFFF,
        w2: 0xFFFF_FFFF_FFFF_FFFF,
        w3: 0x0000_FFFF_FFFF_FFFF,
    }.value()
}

pub fn min_target() -> (r: U256)
    ensures
        r.value() == min_target_value(),
{
    U256 {
        w0: 0xFFFF_FFFF_FFFF_FFFF,
        w1: 0xFFFF_FFFF_FFFF_FFFF,
        w2: 0xFFFF_FFFF_FFFF_FFFF,
        w3: 0x0000_FFFF_FFFF_FFFF,
    }
}

/// Whole seconds from `start` to `end` (milliseconds), rounded toward zero.
pub open spec fn seconds_between(start: i64, end: i64) -> int {
    let d = end - start;
    if d >= 0 {
        d / 1000
    } else {
        -((-d) / 1000)
    }
}

/// The retargeting rule: `target * dt / (IDEAL_BLOCK_TIME * DIFFICULTY_UPDATE_INTERVAL)`,
/// rounded down (zero for a non-positive `dt`), held within a factor of four of
/// `target`, and never above the easiest target.
pub open spec fn retarget(target: nat, dt: int) -> nat {
    let scaled: nat = if dt <= 0 {
        0
    } else {
        (target * dt / 1_209_600) as nat
    };
    let clamped: nat = if scaled < target / 4 {
        target / 4
    } else if scaled > target * 4 {
        target * 4
    } else {
        scaled
    };
    if clamped <= min_target_value() {
        clamped
    } else {
        min_target_value()
    }
}

pub struct MempoolEntryView {
    pub timestamp: i64,
    pub transaction: TransactionView,
    pub fee: nat,
}

/// A waiting transaction, its arrival time (ms) and the fee it offers.
pub struct MempoolEntry {
    pub timestamp: i64,
    pub transaction: Transaction,
    pub fee: u128,
}

impl MempoolEntry {
    pub fn clone_entry(&self) -> (r: MempoolEntry)
        ensures
            r@ == self@,
    {
        MempoolEntry { timestamp: self.timestamp, transaction: self.transaction.clone(), fee: self.fee }
    }
}

impl View for MempoolEntry {
    type V = MempoolEntryView;

    open spec fn view(&self) -> MempoolEntryView {
        MempoolEntryView { timestamp: self.timestamp, transaction: self.transaction@, fee: self.fee as nat }
    }
}

pub struct ChainView {
    pub utxos: Map<crate::hash::Hash, (bool, OutputView)>,
    pub target: U256,
    pub blocks: Seq<BlockView>,
    pub mempool: Seq<MempoolEntryView>,
}

/// The target after the chain reached `blocks`: unchanged unless their number is a
/// positive multiple of the adjustment interval.
pub open spec fn adjusted_target(target: U256, blocks: Seq<BlockView>) -> nat {
    if blocks.len() == 0 || blocks.len() % 2016 != 0 {
        target.value()
    } else {
        retarget(
            target.value(),
            seconds_between(
                blocks[blocks.len() - 2016].header.timestamp,
                blocks.last().header.timestamp,
            ),
        )
    }
}

/// Whether `add_block` accepts `b` on top of `c`, and if not, why.
pub open spec fn block_admission(c: ChainView, b: BlockView) -> Result<(), BtcError> {
    if c.blocks.len() == 0 {
        if b.header.prev_block_hash.0.value() == 0 {
            Ok(())
        } else {
            Err(BtcError::InvalidBlock)
        }
    } else {
        let last = c.blocks.last().header;
        if b.header.prev_block_hash != header_hash(last) {
            Err(BtcError::InvalidBlock)
        } else if !pow_valid(b.header) {
            Err(BtcError::InvalidBlock)
        } else if b.header.merkle_root != merkle_root_of(b.transactions) {
            Err(BtcError::InvalidMerkleRoot)
        } else if b.header.timestamp <= last.timestamp {
            Err(BtcError::InvalidBlockHeader)
        } else {
            transactions_check(b.transactions, c.blocks.len() as u64, c.utxos)
        }
    }
}

/// The key of an output in the UTXO index: the hash of the output itself.
pub open spec fn output_key(o: OutputView) -> crate::hash::Hash {
    crate::hash::digest_hash(enc_output(o))
}

pub open spec fn spend_inputs(
    m: Map<crate::hash::Hash, (bool, OutputView)>,
    ins: Seq<crate::transaction::InputView>,
) -> Map<crate::hash::Hash, (bool, OutputView)>
    decreases ins.len(),
{
    if ins.len() == 0 {
        m
    } else {
        spend_inputs(m, ins.drop_last()).remove(ins.last().prev)
    }
}

pub open spec fn add_outputs(
    m: Map<crate::hash::Hash, (bool, OutputView)>,
    outs: Seq<OutputView>,
) -> Map<crate::hash::Hash, (bool, OutputView)>
    decreases outs.len(),
{
    if outs.len() == 0 {
        m
    } else {
        add_outputs(m, outs.drop_last()).insert(output_key(outs.last()), (false, outs.last()))
    }
}

/// A transaction applied to the index: what it spends leaves, what it pays enters unreserved.
pub open spec fn apply_transaction(
    m: Map<crate::hash::Hash, (bool, OutputView)>,
    t: TransactionView,
) -> Map<crate::hash::Hash, (bool, OutputView)> {
    add_outputs(spend_inputs(m, t.inputs), t.outputs)
}

pub open spec fn apply_transactions(
    m: Map<crate::hash::Hash, (bool, OutputView)>,
    txs: Seq<TransactionView>,
) -> Map<crate::hash::Hash, (bool, OutputView)>
    decreases txs.len(),
{
    if txs.len() == 0 {
        m
    } else {
        apply_transaction(apply_transactions(m, txs.drop_last()), txs.last())
    }
}

pub open spec fn apply_blocks(
    m: Map<crate::hash::Hash, (bool, OutputView)>,
    blocks: Seq<BlockView>,
) -> Map<crate::hash::Hash, (bool, OutputView)>
    decreases blocks.len(),
{
    if blocks.len() == 0 {
        m
    } else {
        apply_transactions(apply_blocks(m, blocks.drop_last()), blocks.last().transactions)
    }
}

/// The UTXO index of a chain: every transaction of every block applied in order.
pub open spec fn utxos_of(blocks: Seq<BlockView>) -> Map<crate::hash::Hash, (bool, OutputView)> {
    apply_blocks(Map::empty(), blocks)
}

fn apply_transaction_exec(utxos: &mut UtxoSet, tx: &Transaction)
    ensures
        final(utxos)@ == apply_transaction(old(utxos)@, tx@),
{
    let ghost v = tx@;
    let mut i: usize = 0;
    while i < tx.inputs.len()
        invariant
            0 <= i <= v.inputs.len(),
            v == tx@,
            utxos@ == spend_inputs(old(utxos)@, v.inputs.take(i as int)),
        decreases v.inputs.len() - i,
    {
        proof {
            crate::block::lemma_take_last(v.inputs, i as int);
            assert(v.inputs[i as int] == tx.inputs@[i as int]@);
        }
        utxos.remove(tx.inputs[i].prev_transaction_output_hash());
        i += 1;
    }
    assert(v.inputs.take(i as int) =~= v.inputs);
    let ghost mid = utxos@;
    let mut j: usize = 0;
    while j < tx.outputs.len()
        invariant
            0 <= j <= v.outputs.len(),
            v == tx@,
            utxos@ == add_outputs(mid, v.outputs.take(j as int)),
        decreases v.outputs.len() - j,
    {
        proof {
            crate::block::lemma_take_last(v.outputs, j as int);
            assert(v.outputs[j as int] == tx.outputs@[j as int]@);
        }
        let h = tx.outputs[j].hash();
        utxos.insert(h, false, tx.outputs[j].clone());
        j += 1;
    }
    assert(v.outputs.take(j as int) =~= v.outputs);
}

/// All inputs resolve in `utxos` and no two spend the same key.
pub open spec fn inputs_admissible(
    ins: Seq<crate::transaction::InputView>,
    utxos: Map<crate::hash::Hash, (bool, OutputView)>,
) -> bool {
    &&& forall|i: int| 0 <= i < ins.len() ==> utxos.contains_key(#[trigger] ins[i].prev)
    &&& forall|i: int, j: int| 0 <= i < j < ins.len() ==> #[trigger] ins[i].prev != #[trigger] ins[j].prev
}

/// Whether a waiting transaction spends key `h`.
pub open spec fn spends(e: MempoolEntryView, h: crate::hash::Hash) -> bool {
    exists|j: int| 0 <= j < e.transaction.inputs.len() && #[trigger] e.transaction.inputs[j].prev == h
}

/// Position of the first waiting transaction that spends key `h`.
pub open spec fn first_spender(pool: Seq<MempoolEntryView>, h: crate::hash::Hash) -> Option<int>
    decreases pool.len(),
{
    if pool.len() == 0 {
        None
    } else if spends(pool[0], h) {
        Some(0)
    } else {
        match first_spender(pool.skip(1), h) {
            Some(k) => Some(k + 1),
            None => None,
        }
    }
}

pub open spec fn unreserve(m: Map<crate::hash::Hash, (bool, OutputView)>, h: crate::hash::Hash) -> Map<crate::hash::Hash, (bool, OutputView)> {
    if m.contains_key(h) {
        m.insert(h, (false, m[h].1))
    } else {
        m
    }
}

pub open spec fn unreserve_inputs(
    m: Map<crate::hash::Hash, (bool, OutputView)>,
    ins: Seq<crate::transaction::InputView>,
) -> Map<crate::hash::Hash, (bool, OutputView)>
    decreases ins.len(),
{
    if ins.len() == 0 {
        m
    } else {
        unreserve(unreserve_inputs(m, ins.drop_last()), ins.last().prev)
    }
}

/// One input of an incoming transaction that spends a reserved key: the waiting
/// transaction that already spends that key leaves and everything it spends is
/// unreserved; with no such transaction, the key alone is unreserved.
pub open spec fn displace_one(
    st: (Map<crate::hash::Hash, (bool, OutputView)>, Seq<MempoolEntryView>),
    h: crate::hash::Hash,
) -> (Map<crate::hash::Hash, (bool, OutputView)>, Seq<MempoolEntryView>) {
    if st.0.contains_key(h) && st.0[h].0 {
        match first_spender(st.1, h) {
            Some(k) => (unreserve_inputs(st.0, st.1[k].transaction.inputs), st.1.remove(k)),
            None => (unreserve(st.0, h), st.1),
        }
    } else {
        st
    }
}

pub open spec fn displace(
    st: (Map<crate::hash::Hash, (bool, OutputView)>, Seq<MempoolEntryView>),
    ins: Seq<crate::transaction::InputView>,
) -> (Map<crate::hash::Hash, (bool, OutputView)>, Seq<MempoolEntryView>)
    decreases ins.len(),
{
    if ins.len() == 0 {
        st
    } else {
        displace_one(displace(st, ins.drop_last()), ins.last().prev)
    }
}

/// Total value of the outputs that the inputs spend.
pub open spec fn input_total(
    ins: Seq<crate::transaction::InputView>,
    utxos: Map<crate::hash::Hash, (bool, OutputView)>,
) -> nat
    decreases ins.len(),
{
    if ins.len() == 0 {
        0
    } else {
        (input_total(ins.drop_last(), utxos) + utxos[ins.last().prev].1.value) as nat
    }
}

/// Where an entry offering `fee` goes: after every entry offering at least as much.
pub open spec fn insert_position(pool: Seq<MempoolEntryView>, fee: nat) -> int
    decreases pool.len(),
{
    if pool.len() == 0 || pool[0].fee < fee {
        0
    } else {
        insert_position(pool.skip(1), fee) + 1
    }
}

/// A mempool entry.
pub open spec fn mempool_entry(timestamp: i64, transaction: TransactionView, fee: nat) -> MempoolEntryView {
    MempoolEntryView { timestamp, transaction, fee }
}

/// Whether an entry has waited longer than the allowed age at `now` (both in ms).
pub open spec fn expired(e: MempoolEntryView, now: i64) -> bool {
    seconds_between(e.timestamp, now) > 600
}

/// Whether an input of an expired entry spends key `h`.
pub open spec fn released_by(pool: Seq<MempoolEntryView>, now: i64, h: crate::hash::Hash) -> bool {
    exists|k: int, j: int|
        0 <= k < pool.len() && expired(pool[k], now) && 0 <= j < pool[k].transaction.inputs.len()
            && #[trigger] pool[k].transaction.inputs[j].prev == h
}

fn spends_exec(e: &MempoolEntry, h: &crate::hash::Hash) -> (r: bool)
    ensures
        r == spends(e@, *h),
{
    let ins = &e.transaction.inputs;
    let ghost v = e@.transaction.inputs;
    let mut j: usize = 0;
    while j < ins.len()
        invariant
            0 <= j <= v.len(),
            v == ins@.map_values(|x: crate::transaction::TransactionInput| x@),
            v == e@.transaction.inputs,
            forall|i: int| 0 <= i < j ==> (#[trigger] v[i]).prev != *h,
        decreases v.len() - j,
    {
        assert(v[j as int] == ins@[j as int]@);
        if *ins[j].prev_transaction_output_hash() == *h {
            assert(v[j as int].prev == *h);
            return true;
        }
        j += 1;
    }
    false
}

proof fn lemma_first_spender_skip(v: Seq<MempoolEntryView>, h: crate::hash::Hash, k: int)
    requires
        0 <= k <= v.len(),
        forall|i: int| 0 <= i < k ==> !spends(#[trigger] v[i], h),
    ensures
        first_spender(v, h) == match first_spender(v.skip(k), h) {
            Some(x) => Some(x + k),
            None => None::<int>,
        },
    decreases k,
{
    if k == 0 {
        assert(v.skip(0) =~= v);
    } else {
        assert forall|i: int| 0 <= i < k - 1 implies !spends(#[trigger] v.skip(1)[i], h) by {
            assert(v.skip(1)[i] == v[i + 1]);
        }
        lemma_first_spender_skip(v.skip(1), h, k - 1);
        assert(v.skip(1).skip(k - 1) =~= v.skip(k));
    }
}

proof fn lemma_first_spender_bound(v: Seq<MempoolEntryView>, h: crate::hash::Hash)
    ensures
        first_spender(v, h) is Some ==> 0 <= first_spender(v, h)->0 < v.len(),
    decreases v.len(),
{
    if v.len() > 0 {
        lemma_first_spender_bound(v.skip(1), h);
    }
}

fn find_spender(pool: &Vec<MempoolEntry>, h: &crate::hash::Hash) -> (r: Option<usize>)
    ensures
        r is Some <==> first_spender(pool@.map_values(|e: MempoolEntry| e@), *h) is Some,
        r is Some ==> first_spender(pool@.map_values(|e: MempoolEntry| e@), *h)->0 == r->0 as int,
{
    let ghost v = pool@.map_values(|e: MempoolEntry| e@);
    let mut k: usize = 0;
    while k < pool.len()
        invariant
            0 <= k <= v.len(),
            v == pool@.map_values(|e: MempoolEntry| e@),
            forall|i: int| 0 <= i < k ==> !spends(#[trigger] v[i], *h),
        decreases v.len() - k,
    {
        assert(v[k as int] == pool@[k as int]@);
        if spends_exec(&pool[k], h) {
            proof {
                lemma_first_spender_skip(v, *h, k as int);
                assert(v.skip(k as int)[0] == v[k as int]);
                assert(first_spender(v.skip(k as int), *h) == Some(0int));
            }
            return Some(k);
        }
        k += 1;
    }
    proof {
        lemma_first_spender_skip(v, *h, k as int);
        assert(v.skip(k as int).len() == 0);
    }
    None
}

fn unreserve_inputs_exec(utxos: &mut UtxoSet, ins: &Vec<crate::transaction::TransactionInput>)
    ensures
        final(utxos)@ == unreserve_inputs(old(utxos)@, ins@.map_values(|i: crate::transaction::TransactionInput| i@)),
{
    let ghost v = ins@.map_values(|i: crate::transaction::TransactionInput| i@);
    let mut i: usize = 0;
    while i < ins.len()
        invariant
            0 <= i <= v.len(),
            v == ins@.map_values(|i: crate::transaction::TransactionInput| i@),
            utxos@ == unreserve_inputs(old(utxos)@, v.take(i as int)),
        decreases v.len() - i,
    {
        proof {
            crate::block::lemma_take_last(v, i as int);
            assert(v[i as int] == ins@[i as int]@);
        }
        utxos.set_reserved(ins[i].prev_transaction_output_hash(), false);
        i += 1;
    }
    assert(v.take(i as int) =~= v);
}

proof fn lemma_unreserve_inputs_dom(m: Map<crate::hash::Hash, (bool, OutputView)>, ins: Seq<crate::transaction::InputView>)
    ensures
        unreserve_inputs(m, ins).dom() == m.dom(),
    decreases ins.len(),
{
    if ins.len() > 0 {
        lemma_unreserve_inputs_dom(m, ins.drop_last());
        let m2 = unreserve_inputs(m, ins.drop_last());
        if m2.contains_key(ins.last().prev) {
            assert(m2.insert(ins.last().prev, (false, m2[ins.last().prev].1)).dom() =~= m2.dom());
        }
    }
}

proof fn lemma_displace_dom(
    st: (Map<crate::hash::Hash, (bool, OutputView)>, Seq<MempoolEntryView>),
    ins: Seq<crate::transaction::InputView>,
)
    ensures
        displace(st, ins).0.dom() == st.0.dom(),
    decreases ins.len(),
{
    if ins.len() > 0 {
        lemma_displace_dom(st, ins.drop_last());
        let s2 = displace(st, ins.drop_last());
        let h = ins.last().prev;
        if s2.0.contains_key(h) && s2.0[h].0 {
            match first_spender(s2.1, h) {
                Some(k) => {
                    lemma_unreserve_inputs_dom(s2.0, s2.1[k].transaction.inputs);
                },
                None => {
                    assert(s2.0.insert(h, (false, s2.0[h].1)).dom() =~= s2.0.dom());
                },
            }
        }
    }
}

/// `m2` has the keys and outputs of `m`, and reserves nothing that `m` did not.
pub open spec fn only_unreserves(
    m: Map<crate::hash::Hash, (bool, OutputView)>,
    m2: Map<crate::hash::Hash, (bool, OutputView)>,
) -> bool {
    &&& m2.dom() == m.dom()
    &&& forall|h: crate::hash::Hash| #[trigger] m2.contains_key(h) ==> m2[h].1 == m[h].1 && (m2[h].0 ==> m[h].0)
}

proof fn lemma_unreserve_inputs_only_unreserves(m: Map<crate::hash::Hash, (bool, OutputView)>, ins: Seq<crate::transaction::InputView>)
    ensures
        only_unreserves(m, unreserve_inputs(m, ins)),
    decreases ins.len(),
{
    lemma_unreserve_inputs_dom(m, ins);
    if ins.len() > 0 {
        lemma_unreserve_inputs_only_unreserves(m, ins.drop_last());
    }
}

/// Admitting a transaction keeps every indexed key and output and sets no
/// reservation: displacement only clears flags.
pub proof fn lemma_admission_only_unreserves(
    st: (Map<crate::hash::Hash, (bool, OutputView)>, Seq<MempoolEntryView>),
    ins: Seq<crate::transaction::InputView>,
)
    ensures
        only_unreserves(st.0, displace(st, ins).0),
    decreases ins.len(),
{
    lemma_displace_dom(st, ins);
    if ins.len() > 0 {
        lemma_admission_only_unreserves(st, ins.drop_last());
        let s2 = displace(st, ins.drop_last());
        let h = ins.last().prev;
        if s2.0.contains_key(h) && s2.0[h].0 {
            match first_spender(s2.1, h) {
                Some(k) => {
                    lemma_unreserve_inputs_only_unreserves(s2.0, s2.1[k].transaction.inputs);
                },
                None => {},
            }
        }
    }
}

proof fn lemma_unreserve_inputs_clears(m: Map<crate::hash::Hash, (bool, OutputView)>, ins: Seq<crate::transaction::InputView>)
    ensures
        forall|i: int| 0 <= i < ins.len() && #[trigger] unreserve_inputs(m, ins).contains_key(ins[i].prev)
            ==> !unreserve_inputs(m, ins)[ins[i].prev].0,
    decreases ins.len(),
{
    if ins.len() > 0 {
        let pre = ins.drop_last();
        lemma_unreserve_inputs_clears(m, pre);
        let m1 = unreserve_inputs(m, pre);
        assert forall|i: int| 0 <= i < ins.len() && #[trigger] unreserve_inputs(m, ins).contains_key(ins[i].prev)
            implies !unreserve_inputs(m, ins)[ins[i].prev].0 by {
            if i < ins.len() - 1 {
                assert(pre[i] == ins[i]);
                assert(unreserve_inputs(m, pre).contains_key(pre[i].prev));
            }
        }
    }
}

/// A waiting transaction `a` that spends reserved key `u` is displaced by an
/// incoming transaction spending `u`: it leaves the mempool and every key it
/// spends is unreserved.
pub proof fn lemma_double_spend_displaces(
    utxos: Map<crate::hash::Hash, (bool, OutputView)>,
    a: MempoolEntryView,
    ins: Seq<crate::transaction::InputView>,
)
    requires
        ins.len() == 1,
        spends(a, ins[0].prev),
        utxos.contains_key(ins[0].prev),
        utxos[ins[0].prev].0,
    ensures
        displace((utxos, seq![a]), ins) == (unreserve_inputs(utxos, a.transaction.inputs), Seq::<MempoolEntryView>::empty()),
        forall|i: int| 0 <= i < a.transaction.inputs.len()
            && #[trigger] displace((utxos, seq![a]), ins).0.contains_key(a.transaction.inputs[i].prev)
            ==> !displace((utxos, seq![a]), ins).0[a.transaction.inputs[i].prev].0,
{
    let st = (utxos, seq![a]);
    assert(ins.drop_last() =~= Seq::<crate::transaction::InputView>::empty());
    assert(displace(st, ins.drop_last()) == st);
    assert(seq![a][0] == a);
    assert(first_spender(seq![a], ins[0].prev) == Some(0int));
    assert(seq![a].remove(0) =~= Seq::<MempoolEntryView>::empty());
    lemma_unreserve_inputs_clears(utxos, a.transaction.inputs);
}

proof fn lemma_insert_position_skip(v: Seq<MempoolEntryView>, fee: nat, k: int)
    requires
        0 <= k <= v.len(),
        forall|i: int| 0 <= i < k ==> (#[trigger] v[i]).fee >= fee,
    ensures
        insert_position(v, fee) == insert_position(v.skip(k), fee) + k,
    decreases k,
{
    if k == 0 {
        assert(v.skip(0) =~= v);
    } else {
        assert forall|i: int| 0 <= i < k - 1 implies (#[trigger] v.skip(1)[i]).fee >= fee by {
            assert(v.skip(1)[i] == v[i + 1]);
        }
        lemma_insert_position_skip(v.skip(1), fee, k - 1);
        assert(v.skip(1).skip(k - 1) =~= v.skip(k));
    }
}

/// Keys spent by the expired entries of the pool, in pool order.
pub open spec fn released_keys(pool: Seq<MempoolEntryView>, now: i64) -> Seq<crate::hash::Hash>
    decreases pool.len(),
{
    if pool.len() == 0 {
        seq![]
    } else if expired(pool.last(), now) {
        released_keys(pool.drop_last(), now) + pool.last().transaction.inputs.map_values(
            |i: crate::transaction::InputView| i.prev,
        )
    } else {
        released_keys(pool.drop_last(), now)
    }
}

pub open spec fn unreserve_keys(
    m: Map<crate::hash::Hash, (bool, OutputView)>,
    keys: Seq<crate::hash::Hash>,
) -> Map<crate::hash::Hash, (bool, OutputView)>
    decreases keys.len(),
{
    if keys.len() == 0 {
        m
    } else {
        unreserve(unreserve_keys(m, keys.drop_last()), keys.last())
    }
}

fn is_expired(timestamp: i64, now: i64) -> (r: bool)
    ensures
        r == (seconds_between(timestamp, now) > 600),
{
    let d: i128 = now as i128 - timestamp as i128;
    let secs: i128 = if d >= 0 { d / 1000 } else { -((-d) / 1000) };
    secs > 600
}

/// Whether a waiting transaction also appears in the block.
pub open spec fn mined_in(e: MempoolEntryView, b: BlockView) -> bool {
    exists|j: int| 0 <= j < b.transactions.len() && #[trigger] crate::transaction::tx_hash(b.transactions[j]) == crate::transaction::tx_hash(e.transaction)
}

/// Every block that `add_block` accepts on a non-empty chain meets its own target.
pub proof fn lemma_accepted_block_meets_target(c: ChainView, b: BlockView)
    requires
        c.blocks.len() > 0,
        block_admission(c, b) is Ok,
    ensures
        header_hash(b.header).0.value() <= b.header.target.value(),
{
}

/// Keys that a list of inputs spends.
pub open spec fn input_keys(ins: Seq<crate::transaction::InputView>) -> Set<crate::hash::Hash>
    decreases ins.len(),
{
    if ins.len() == 0 {
        Set::empty()
    } else {
        input_keys(ins.drop_last()).insert(ins.last().prev)
    }
}

/// Keys of a list of outputs.
pub open spec fn output_keys(outs: Seq<OutputView>) -> Set<crate::hash::Hash>
    decreases outs.len(),
{
    if outs.len() == 0 {
        Set::empty()
    } else {
        output_keys(outs.drop_last()).insert(output_key(outs.last()))
    }
}

/// Keys of every output that the transactions produce.
pub open spec fn produced(txs: Seq<TransactionView>) -> Set<crate::hash::Hash>
    decreases txs.len(),
{
    if txs.len() == 0 {
        Set::empty()
    } else {
        produced(txs.drop_last()).union(output_keys(txs.last().outputs))
    }
}

/// Keys of every output that the transactions' inputs reference.
pub open spec fn referenced(txs: Seq<TransactionView>) -> Set<crate::hash::Hash>
    decreases txs.len(),
{
    if txs.len() == 0 {
        Set::empty()
    } else {
        referenced(txs.drop_last()).union(input_keys(txs.last().inputs))
    }
}

/// No transaction spends an output that it, or a later transaction, produces.
pub open spec fn no_forward_spend(txs: Seq<TransactionView>) -> bool {
    forall|i: int, j: int|
        0 <= i <= j < txs.len() ==> output_keys(#[trigger] txs[j].outputs).disjoint(
            input_keys(#[trigger] txs[i].inputs),
        )
}

/// Every transaction of the chain, block after block.
pub open spec fn chain_transactions(blocks: Seq<BlockView>) -> Seq<TransactionView>
    decreases blocks.len(),
{
    if blocks.len() == 0 {
        seq![]
    } else {
        chain_transactions(blocks.drop_last()) + blocks.last().transactions
    }
}

proof fn lemma_spend_inputs_dom(m: Map<crate::hash::Hash, (bool, OutputView)>, ins: Seq<crate::transaction::InputView>)
    ensures
        spend_inputs(m, ins).dom() == m.dom().difference(input_keys(ins)),
    decreases ins.len(),
{
    if ins.len() == 0 {
        assert(m.dom().difference(Set::empty()) =~= m.dom());
    } else {
        lemma_spend_inputs_dom(m, ins.drop_last());
        assert(spend_inputs(m, ins).dom() =~= m.dom().difference(input_keys(ins)));
    }
}

proof fn lemma_add_outputs_dom(m: Map<crate::hash::Hash, (bool, OutputView)>, outs: Seq<OutputView>)
    ensures
        add_outputs(m, outs).dom() == m.dom().union(output_keys(outs)),
    decreases outs.len(),
{
    if outs.len() == 0 {
        assert(m.dom().union(Set::empty()) =~= m.dom());
    } else {
        lemma_add_outputs_dom(m, outs.drop_last());
        assert(add_outputs(m, outs).dom() =~= m.dom().union(output_keys(outs)));
    }
}

proof fn lemma_apply_transactions_dom(m: Map<crate::hash::Hash, (bool, OutputView)>, txs: Seq<TransactionView>)
    requires
        no_forward_spend(txs),
    ensures
        apply_transactions(m, txs).dom() == m.dom().union(produced(txs)).difference(referenced(txs)),
    decreases txs.len(),
{
    if txs.len() == 0 {
        assert(m.dom().union(Set::empty()).difference(Set::empty()) =~= m.dom());
    } else {
        let pre = txs.drop_last();
        let t = txs.last();
        assert forall|i: int, j: int| 0 <= i <= j < pre.len() implies output_keys(#[trigger] pre[j].outputs).disjoint(
            input_keys(#[trigger] pre[i].inputs)) by {
            assert(pre[i] == txs[i] && pre[j] == txs[j]);
        }
        lemma_apply_transactions_dom(m, pre);
        let before = apply_transactions(m, pre);
        lemma_spend_inputs_dom(before, t.inputs);
        lemma_add_outputs_dom(spend_inputs(before, t.inputs), t.outputs);
        let pt = output_keys(t.outputs);
        assert forall|k: crate::hash::Hash| pt.contains(k) implies !referenced(txs).contains(k) by {
            lemma_referenced_members(txs, k);
            if referenced(txs).contains(k) {
                let i = choose|i: int| 0 <= i < txs.len() && input_keys(txs[i].inputs).contains(k);
                assert(output_keys(txs[txs.len() - 1].outputs).disjoint(input_keys(txs[i].inputs)));
            }
        }
        assert(apply_transactions(m, txs).dom() =~= m.dom().union(produced(txs)).difference(referenced(txs)));
    }
}

proof fn lemma_referenced_members(txs: Seq<TransactionView>, k: crate::hash::Hash)
    ensures
        referenced(txs).contains(k) <==> exists|i: int| 0 <= i < txs.len() && #[trigger] input_keys(txs[i].inputs).contains(k),
    decreases txs.len(),
{
    if txs.len() > 0 {
        lemma_referenced_members(txs.drop_last(), k);
        if referenced(txs.drop_last()).contains(k) {
            let i = choose|i: int| 0 <= i < txs.drop_last().len() && #[trigger] input_keys(txs.drop_last()[i].inputs).contains(k);
            assert(txs[i] == txs.drop_last()[i]);
        }
        if exists|i: int| 0 <= i < txs.len() && #[trigger] input_keys(txs[i].inputs).contains(k) {
            let i = choose|i: int| 0 <= i < txs.len() && #[trigger] input_keys(txs[i].inputs).contains(k);
            if i < txs.len() - 1 {
                assert(txs.drop_last()[i] == txs[i]);
            }
        }
    }
}

proof fn lemma_apply_transactions_append(
    m: Map<crate::hash::Hash, (bool, OutputView)>,
    a: Seq<TransactionView>,
    b: Seq<TransactionView>,
)
    ensures
        apply_transactions(m, a + b) == apply_transactions(apply_transactions(m, a), b),
    decreases b.len(),
{
    if b.len() == 0 {
        assert(a + b =~= a);
    } else {
        lemma_apply_transactions_append(m, a, b.drop_last());
        assert((a + b).drop_last() =~= a + b.drop_last());
        assert((a + b).last() == b.last());
    }
}

proof fn lemma_apply_blocks_flat(m: Map<crate::hash::Hash, (bool, OutputView)>, blocks: Seq<BlockView>)
    ensures
        apply_blocks(m, blocks) == apply_transactions(m, chain_transactions(blocks)),
    decreases blocks.len(),
{
    if blocks.len() > 0 {
        lemma_apply_blocks_flat(m, blocks.drop_last());
        lemma_apply_transactions_append(m, chain_transactions(blocks.drop_last()), blocks.last().transactions);
    }
}

/// Every entry is unreserved and sits under the hash of its own output.
pub open spec fn index_well_keyed(m: Map<crate::hash::Hash, (bool, OutputView)>) -> bool {
    forall|h: crate::hash::Hash| #[trigger] m.contains_key(h) ==> !m[h].0 && output_key(m[h].1) == h
}

proof fn lemma_apply_transactions_well_keyed(m: Map<crate::hash::Hash, (bool, OutputView)>, txs: Seq<TransactionView>)
    requires
        index_well_keyed(m),
    ensures
        index_well_keyed(apply_transactions(m, txs)),
    decreases txs.len(),
{
    if txs.len() > 0 {
        lemma_apply_transactions_well_keyed(m, txs.drop_last());
        let before = apply_transactions(m, txs.drop_last());
        lemma_spend_inputs_well_keyed(before, txs.last().inputs);
        lemma_add_outputs_well_keyed(spend_inputs(before, txs.last().inputs), txs.last().outputs);
    }
}

proof fn lemma_spend_inputs_well_keyed(m: Map<crate::hash::Hash, (bool, OutputView)>, ins: Seq<crate::transaction::InputView>)
    requires
        index_well_keyed(m),
    ensures
        index_well_keyed(spend_inputs(m, ins)),
    decreases ins.len(),
{
    if ins.len() > 0 {
        lemma_spend_inputs_well_keyed(m, ins.drop_last());
    }
}

proof fn lemma_add_outputs_well_keyed(m: Map<crate::hash::Hash, (bool, OutputView)>, outs: Seq<OutputView>)
    requires
        index_well_keyed(m),
    ensures
        index_well_keyed(add_outputs(m, outs)),
    decreases outs.len(),
{
    if outs.len() > 0 {
        lemma_add_outputs_well_keyed(m, outs.drop_last());
    }
}

/// After `rebuild_utxos`, every indexed output is unreserved and keyed by its own hash.
pub proof fn lemma_rebuilt_utxos_well_keyed(blocks: Seq<BlockView>)
    ensures
        index_well_keyed(utxos_of(blocks)),
{
    let m = Map::<crate::hash::Hash, (bool, OutputView)>::empty();
    lemma_apply_blocks_flat(m, blocks);
    lemma_apply_transactions_well_keyed(m, chain_transactions(blocks));
}

/// After `rebuild_utxos`, the indexed keys are exactly the keys of every output the
/// chain ever produced minus every key its inputs referenced, provided no
/// transaction spends an output produced by itself or by a later transaction.
pub proof fn lemma_rebuilt_utxos_are_unspent_outputs(blocks: Seq<BlockView>)
    requires
        no_forward_spend(chain_transactions(blocks)),
    ensures
        utxos_of(blocks).dom() == produced(chain_transactions(blocks)).difference(
            referenced(chain_transactions(blocks)),
        ),
{
    let m = Map::<crate::hash::Hash, (bool, OutputView)>::empty();
    lemma_apply_blocks_flat(m, blocks);
    lemma_apply_transactions_dom(m, chain_transactions(blocks));
    assert(m.dom().union(produced(chain_transactions(blocks))) =~= produced(chain_transactions(blocks)));
}

/// The chain state of one node: accepted blocks, the UTXO index, the current
/// target and the mempool (sorted by descending fee).
pub struct Blockchain {
    utxos: UtxoSet,
    target: U256,
    blocks: Vec<Block>,
    mempool: Vec<MempoolEntry>,
}

impl View for Blockchain {
    type V = ChainView;

    closed spec fn view(&self) -> ChainView {
        ChainView {
            utxos: self.utxos@,
            target: self.target,
            blocks: self.blocks@.map_values(|b: Block| b@),
            mempool: self.mempool@.map_values(|e: MempoolEntry| e@),
        }
    }
}

impl Blockchain {
    /// An empty chain at the easiest target.
    pub fn new() -> (r: Blockchain)
        ensures
            r@.blocks.len() == 0,
            r@.mempool.len() == 0,
            r@.utxos == Map::<crate::hash::Hash, (bool, OutputView)>::empty(),
            r@.target.value() == min_target_value(),
    {
        let r = Blockchain { utxos: UtxoSet::new(), target: min_target(), blocks: Vec::new(), mempool: Vec::new() };
        assert(r@.blocks =~= Seq::<BlockView>::empty());
        assert(r@.mempool =~= Seq::<MempoolEntryView>::empty());
        r
    }

    pub fn utxos(&self) -> (r: &UtxoSet)
        ensures
            r@ == self@.utxos,
    {
        &self.utxos
    }

    pub fn target(&self) -> (r: U256)
        ensures
            r == self@.target,
    {
        self.target
    }

    pub fn blocks(&self) -> (r: &Vec<Block>)
        ensures
            r@.map_values(|b: Block| b@) == self@.blocks,
    {
        &self.blocks
    }

    pub fn block_height(&self) -> (r: u64)
        ensures
            r == self@.blocks.len(),
    {
        self.blocks.len() as u64
    }

    pub fn mempool(&self) -> (r: &Vec<MempoolEntry>)
        ensures
            r@.map_values(|e: MempoolEntry| e@) == self@.mempool,
    {
        &self.mempool
    }

    /// The subsidy of the next block.
    pub fn calculate_block_reward(&self) -> (r: u64)
        ensures
            r == crate::block::block_reward(self@.blocks.len() as u64),
    {
        crate::block::calculate_block_reward(self.blocks.len() as u64)
    }

    /// Appends `block` if it extends the chain validly; see `block_admission`. The
    /// mempool loses the transactions the block carries, then the target is adjusted.
    /// The UTXO index is left as it was (`rebuild_utxos` refreshes it).
    #[verifier::rlimit(60)]
    pub fn add_block(&mut self, block: Block) -> (r: Result<(), BtcError>)
        ensures
            r == block_admission(old(self)@, block@),
            r is Ok ==> final(self)@.blocks == old(self)@.blocks.push(block@)
                && final(self)@.utxos == old(self)@.utxos
                && final(self)@.mempool == old(self)@.mempool.filter(|e: MempoolEntryView| !mined_in(e, block@))
                && final(self)@.target.value() == adjusted_target(old(self)@.target, old(self)@.blocks.push(block@)),
            r is Err ==> final(self)@ == old(self)@,
    {
        let n = self.blocks.len();
        if n == 0 {
            if block.header().prev_block_hash.0.w0 != 0 || block.header().prev_block_hash.0.w1 != 0
                || block.header().prev_block_hash.0.w2 != 0 || block.header().prev_block_hash.0.w3 != 0 {
                proof { crate::u256::lemma_value_zero_iff(block@.header.prev_block_hash.0); }
                return Err(BtcError::InvalidBlock);
            }
            proof { crate::u256::lemma_value_zero_iff(block@.header.prev_block_hash.0); }
        } else {
            proof {
                assert(self.blocks@.map_values(|b: Block| b@).last() == self.blocks@[n - 1]@);
            }
            let last_header = *self.blocks[n - 1].header();
            let last_hash = last_header.hash();
            let header = *block.header();
            if header.prev_block_hash != last_hash {
                return Err(BtcError::InvalidBlock);
            }
            if !header.hash().matches_target(header.target) {
                return Err(BtcError::InvalidBlock);
            }
            let root = MerkleRoot::calculate(block.transactions().as_slice());
            if header.merkle_root != root {
                return Err(BtcError::InvalidMerkleRoot);
            }
            if header.timestamp <= last_header.timestamp {
                return Err(BtcError::InvalidBlockHeader);
            }
            match block.verify_transactions(n as u64, &self.utxos) {
                Ok(()) => {},
                Err(e) => {
                    return Err(e);
                },
            }
        }
        let ghost bv = block@;
        let ghost m = self@.mempool;
        let ghost pred = |e: MempoolEntryView| !mined_in(e, bv);
        let mut block_hashes: Vec<crate::hash::Hash> = Vec::new();
        let mut j: usize = 0;
        while j < block.transactions().len()
            invariant
                0 <= j <= bv.transactions.len(),
                bv == block@,
                block_hashes@ == bv.transactions.take(j as int).map_values(|t: TransactionView| crate::transaction::tx_hash(t)),
            decreases bv.transactions.len() - j,
        {
            let txs_ref = block.transactions();
            let h = txs_ref[j].hash();
            assert(txs_ref@.map_values(|t: Transaction| t@)[j as int] == txs_ref@[j as int]@);
            block_hashes.push(h);
            assert(block_hashes@ =~= bv.transactions.take(j + 1).map_values(|t: TransactionView| crate::transaction::tx_hash(t)));
            j += 1;
        }
        assert(bv.transactions.take(j as int) =~= bv.transactions);
        let mut kept: Vec<MempoolEntry> = Vec::new();
        let mut i: usize = 0;
        while i < self.mempool.len()
            invariant
                0 <= i <= m.len(),
                m == self@.mempool,
                self@ == old(self)@,
                bv == block@,
                block_hashes@ == bv.transactions.map_values(|t: TransactionView| crate::transaction::tx_hash(t)),
                pred == |e: MempoolEntryView| !mined_in(e, bv),
                kept@.map_values(|e: MempoolEntry| e@) == m.take(i as int).filter(pred),
            decreases m.len() - i,
        {
            proof {
                assert(m.take(i + 1) =~= m.take(i as int).push(m[i as int]));
                lemma_filter_push(m.take(i as int), m[i as int], pred);
                assert(m[i as int] == self.mempool@[i as int]@);
            }
            let h = self.mempool[i].transaction.hash();
            let found = hash_list_contains(&block_hashes, &h);
            proof {
                if found {
                    let j = choose|j: int| 0 <= j < block_hashes@.len() && block_hashes@[j] == h;
                    assert(crate::transaction::tx_hash(bv.transactions[j]) == h);
                    assert(mined_in(m[i as int], bv));
                } else {
                    assert forall|j: int| 0 <= j < bv.transactions.len() implies #[trigger] crate::transaction::tx_hash(bv.transactions[j]) != crate::transaction::tx_hash(m[i as int].transaction) by {
                        assert(block_hashes@[j] == crate::transaction::tx_hash(bv.transactions[j]));
                    }
                    assert(!mined_in(m[i as int], bv));
                }
            }
            if !found {
                let c = self.mempool[i].clone_entry();
                let ghost before = kept@;
                kept.push(c);
                assert(kept@.map_values(|e: MempoolEntry| e@) =~= before.map_values(|e: MempoolEntry| e@).push(c@));
            }
            i += 1;
        }
        assert(m.take(i as int) =~= m);
        self.mempool = kept;
        self.blocks.push(block);
        self.try_adjust_target();
        Ok(())
    }

    /// Admits `transaction` at time `now` (ms): its inputs must resolve and be
    /// distinct; reserved keys it spends displace the waiting transactions that
    /// already spend them; it must spend at least what it pays; it then joins the mempool after
    /// every entry offering at least its fee. Signatures are checked when it enters a block.
    pub fn add_transaction_to_mempool_at(&mut self, transaction: Transaction, now: i64) -> (r: Result<(), BtcError>)
        ensures
            !inputs_admissible(transaction@.inputs, old(self)@.utxos) ==> r == Err::<(), BtcError>(BtcError::InvalidTransaction)
                && final(self)@ == old(self)@,
            inputs_admissible(transaction@.inputs, old(self)@.utxos) ==> ({
                let st = displace((old(self)@.utxos, old(self)@.mempool), transaction@.inputs);
                let total_in = input_total(transaction@.inputs, st.0);
                let total_out = crate::block::output_sum(transaction@.outputs);
                &&& final(self)@.utxos == st.0
                &&& final(self)@.blocks == old(self)@.blocks
                &&& final(self)@.target == old(self)@.target
                &&& if total_in < total_out {
                    r == Err::<(), BtcError>(BtcError::InvalidTransaction) && final(self)@.mempool == st.1
                } else {
                    r is Ok && final(self)@.mempool == st.1.insert(
                        insert_position(st.1, (total_in - total_out) as nat),
                        MempoolEntryView { timestamp: now, transaction: transaction@, fee: (total_in - total_out) as nat },
                    )
                }
            }),
    {
        let ghost v = transaction@.inputs;
        let n = transaction.inputs.len();
        let mut seen: Vec<crate::hash::Hash> = Vec::new();
        let mut i: usize = 0;
        while i < n
            invariant
                0 <= i <= n,
                n == v.len(),
                v == transaction@.inputs,
                self@ == old(self)@,
                seen@.len() == i,
                forall|k: int| 0 <= k < i ==> seen@[k] == #[trigger] v[k].prev,
                forall|k: int| 0 <= k < i ==> self@.utxos.contains_key(#[trigger] v[k].prev),
                forall|a: int, b: int| 0 <= a < b < i ==> #[trigger] v[a].prev != #[trigger] v[b].prev,
            decreases n - i,
        {
            assert(v[i as int] == transaction.inputs@[i as int]@);
            let h = *transaction.inputs[i].prev_transaction_output_hash();
            if !self.utxos.contains_key(&h) {
                return Err(BtcError::InvalidTransaction);
            }
            if hash_list_contains(&seen, &h) {
                proof {
                    let k = choose|k: int| 0 <= k < seen@.len() && seen@[k] == h;
                    assert(v[k].prev == v[i as int].prev);
                }
                return Err(BtcError::InvalidTransaction);
            }
            seen.push(h);
            i += 1;
        }
        let ghost u0 = self@.utxos;
        let ghost pool0 = self@.mempool;
        let mut d: usize = 0;
        while d < n
            invariant
                0 <= d <= n,
                n == v.len(),
                v == transaction@.inputs,
                inputs_admissible(v, u0),
                u0 == old(self)@.utxos,
                pool0 == old(self)@.mempool,
                self@.blocks == old(self)@.blocks,
                self@.target == old(self)@.target,
                (self@.utxos, self@.mempool) == displace((u0, pool0), v.take(d as int)),
            decreases n - d,
        {
            proof {
                crate::block::lemma_take_last(v, d as int);
                assert(v[d as int] == transaction.inputs@[d as int]@);
            }
            let h = *transaction.inputs[d].prev_transaction_output_hash();
            let ghost cur = (self@.utxos, self@.mempool);
            let reserved = match self.utxos.get(&h) {
                Some(e) => e.reserved,
                None => false,
            };
            assert(reserved == (cur.0.contains_key(h) && cur.0[h].0));
            assert(displace((u0, pool0), v.take(d + 1)) == displace_one(cur, h));
            if reserved {
                match find_spender(&self.mempool, &h) {
                    Some(k) => {
                        proof {
                            lemma_first_spender_bound(self@.mempool, h);
                            assert(self.mempool@.map_values(|e: MempoolEntry| e@) == cur.1);
                            assert(first_spender(cur.1, h) is Some);
                            let kk = first_spender(cur.1, h)->0;
                            assert(0 <= kk < cur.1.len());
                            assert(kk == k as int);
                            assert(self@.mempool[k as int] == self.mempool@[k as int]@);
                        }
                        unreserve_inputs_exec(&mut self.utxos, &self.mempool[k].transaction.inputs);
                        let ghost before = self.mempool@;
                        let _gone = self.mempool.remove(k);
                        proof {
                            assert(self.mempool@.map_values(|e: MempoolEntry| e@) =~= before.map_values(|e: MempoolEntry| e@).remove(k as int));
                            assert(self@.mempool == cur.1.remove(k as int));
                            assert(self@.utxos == unreserve_inputs(cur.0, cur.1[k as int].transaction.inputs));
                            assert(first_spender(cur.1, h) == Some(k as int));
                            assert((self@.utxos, self@.mempool) == displace_one(cur, h));
                        }
                    },
                    None => {
                        self.utxos.set_reserved(&h, false);
                        assert(first_spender(cur.1, h) is None);
                        assert(self@.mempool == cur.1);
                        assert((self@.utxos, self@.mempool) == displace_one(cur, h));
                    },
                }
            } else {
                assert((self@.utxos, self@.mempool) == displace_one(cur, h));
            }
            d += 1;
        }
        assert(v.take(d as int) =~= v);
        let ghost st = displace((u0, pool0), v);
        proof {
            lemma_displace_dom((u0, pool0), v);
        }
        let mut total_in: u128 = 0;
        let mut t: usize = 0;
        while t < n
            invariant
                0 <= t <= n,
                n == v.len(),
                v == transaction@.inputs,
                inputs_admissible(v, u0),
                st.0.dom() == u0.dom(),
                self@.utxos == st.0,
                total_in == input_total(v.take(t as int), st.0),
                total_in <= t * 0xFFFF_FFFF_FFFF_FFFFu128,
            decreases n - t,
        {
            proof {
                crate::block::lemma_take_last(v, t as int);
                assert(v[t as int] == transaction.inputs@[t as int]@);
                assert(st.0.contains_key(v[t as int].prev));
            }
            let h = transaction.inputs[t].prev_transaction_output_hash();
            match self.utxos.get(h) {
                Some(e) => {
                    total_in = total_in + e.output.value() as u128;
                },
                None => {
                    assert(false);
                },
            }
            t += 1;
        }
        assert(v.take(t as int) =~= v);
        let total_out = crate::block::sum_outputs_pub(&transaction.outputs);
        if total_in < total_out {
            return Err(BtcError::InvalidTransaction);
        }
        let fee = total_in - total_out;
        let ghost pool = self@.mempool;
        let mut k: usize = 0;
        let len = self.mempool.len();
        assert(pool.len() == len);
        while k < len && self.mempool[k].fee >= fee
            invariant
                0 <= k <= len,
                len == pool.len(),
                len == self.mempool@.len(),
                pool == self@.mempool,
                forall|i: int| 0 <= i < k ==> (#[trigger] pool[i]).fee >= fee,
            decreases len - k,
        {
            assert(pool[k as int] == self.mempool@[k as int]@);
            k += 1;
        }
        proof {
            lemma_insert_position_skip(pool, fee as nat, k as int);
            if k < pool.len() {
                assert(pool[k as int] == self.mempool@[k as int]@);
                assert(pool.skip(k as int)[0] == pool[k as int]);
                assert(pool[k as int].fee < fee);
            }
        }
        let entry = MempoolEntry { timestamp: now, transaction, fee };
        let ghost ev = entry@;
        let ghost before = self.mempool@;
        self.mempool.insert(k, entry);
        assert(self.mempool@.map_values(|e: MempoolEntry| e@) =~= before.map_values(|e: MempoolEntry| e@).insert(k as int, ev));
        Ok(())
    }

    /// Drops the entries older than the allowed age at `now` (ms) and clears the
    /// reservation of every key they spend.
    pub fn cleanup_mempool_at(&mut self, now: i64)
        ensures
            final(self)@.mempool == old(self)@.mempool.filter(|e: MempoolEntryView| !expired(e, now)),
            final(self)@.utxos == unreserve_keys(old(self)@.utxos, released_keys(old(self)@.mempool, now)),
            final(self)@.blocks == old(self)@.blocks,
            final(self)@.target == old(self)@.target,
    {
        let ghost m = self@.mempool;
        let ghost pred = |e: MempoolEntryView| !expired(e, now);
        let mut kept: Vec<MempoolEntry> = Vec::new();
        let mut released: Vec<crate::hash::Hash> = Vec::new();
        let mut i: usize = 0;
        while i < self.mempool.len()
            invariant
                0 <= i <= m.len(),
                m == self@.mempool,
                self@ == old(self)@,
                pred == |e: MempoolEntryView| !expired(e, now),
                kept@.map_values(|e: MempoolEntry| e@) == m.take(i as int).filter(pred),
                released@ == released_keys(m.take(i as int), now),
            decreases m.len() - i,
        {
            proof {
                crate::block::lemma_take_last(m, i as int);
                lemma_filter_push(m.take(i as int), m[i as int], pred);
                assert(m.take(i + 1) =~= m.take(i as int).push(m[i as int]));
                assert(m[i as int] == self.mempool@[i as int]@);
            }
            let entry = &self.mempool[i];
            if is_expired(entry.timestamp, now) {
                let ghost before = released@;
                let ins = &entry.transaction.inputs;
                let ghost iv = entry@.transaction.inputs;
                let mut j: usize = 0;
                while j < ins.len()
                    invariant
                        0 <= j <= iv.len(),
                        iv == ins@.map_values(|x: crate::transaction::TransactionInput| x@),
                        released@ == before + iv.take(j as int).map_values(|x: crate::transaction::InputView| x.prev),
                    decreases iv.len() - j,
                {
                    assert(iv[j as int] == ins@[j as int]@);
                    released.push(*ins[j].prev_transaction_output_hash());
                    assert(iv.take(j + 1).map_values(|x: crate::transaction::InputView| x.prev) =~= iv.take(j as int).map_values(|x: crate::transaction::InputView| x.prev).push(iv[j as int].prev));
                    j += 1;
                }
                assert(iv.take(j as int) =~= iv);
            } else {
                let c = entry.clone_entry();
                let ghost kb = kept@;
                kept.push(c);
                assert(kept@.map_values(|e: MempoolEntry| e@) =~= kb.map_values(|e: MempoolEntry| e@).push(c@));
            }
            i += 1;
        }
        assert(m.take(i as int) =~= m);
        self.mempool = kept;
        let ghost keys = released@;
        let ghost u0 = self@.utxos;
        let mut k: usize = 0;
        while k < released.len()
            invariant
                0 <= k <= keys.len(),
                keys == released@,
                u0 == old(self)@.utxos,
                self@.mempool == m.filter(pred),
                self@.blocks == old(self)@.blocks,
                self@.target == old(self)@.target,
                self@.utxos == unreserve_keys(u0, keys.take(k as int)),
            decreases keys.len() - k,
        {
            proof { crate::block::lemma_take_last(keys, k as int); }
            self.utxos.set_reserved(&released[k], false);
            k += 1;
        }
        assert(keys.take(k as int) =~= keys);
    }

    /// Drops aged entries as of the current time; see `cleanup_mempool_at`.
    pub fn cleanup_mempool(&mut self)
        ensures
            final(self)@.blocks == old(self)@.blocks,
            final(self)@.target == old(self)@.target,
            exists|now: i64|
                final(self)@.mempool == old(self)@.mempool.filter(|e: MempoolEntryView| !expired(e, now))
                    && final(self)@.utxos == #[trigger] unreserve_keys(old(self)@.utxos, released_keys(old(self)@.mempool, now)),
    {
        let now = crate::block_header::now_millis();
        self.cleanup_mempool_at(now);
        assert(final(self)@.utxos == unreserve_keys(old(self)@.utxos, released_keys(old(self)@.mempool, now)));
    }

    /// Whether a template still extends the tip: its parent is the last header's
    /// hash, or zero on an empty chain.
    pub fn validate_template(&self, block: &Block) -> (r: bool)
        ensures
            r == (block@.header.prev_block_hash == if self@.blocks.len() == 0 {
                crate::hash::Hash(U256 { w0: 0, w1: 0, w2: 0, w3: 0 })
            } else {
                header_hash(self@.blocks.last().header)
            }),
    {
        let expected = if self.blocks.len() == 0 {
            crate::hash::Hash::zero()
        } else {
            proof {
                assert(self@.blocks.last() == self.blocks@[self.blocks@.len() - 1]@);
            }
            self.blocks[self.blocks.len() - 1].header().hash()
        };
        block.header().prev_block_hash == expected
    }

    /// A block for a miner paying `pubkey`: a coinbase of subsidy plus fees, then
    /// up to `BLOCK_TRANSACTION_CAP` mempool transactions from the front (highest
    /// fees), over the tip, at the current target, with nonce zero.
    pub fn create_template(&self, pubkey: &crate::crypto::PublicKey, timestamp: i64, unique_id: u128) -> (r: Result<Block, BtcError>)
        ensures
            ({
                let picked = self@.mempool.take(
                    if self@.mempool.len() < 20 { self@.mempool.len() as int } else { 20int },
                ).map_values(|e: MempoolEntryView| e.transaction);
                let placeholder = TransactionView {
                    inputs: seq![],
                    outputs: seq![OutputView { value: 0, unique_id, pubkey: pubkey@ }],
                };
                match crate::block::miner_fees(seq![placeholder] + picked, self@.utxos) {
                    Err(e) => r == Err::<Block, BtcError>(e),
                    Ok(fees) => if crate::block::block_reward(self@.blocks.len() as u64) + fees > u64::MAX {
                        r == Err::<Block, BtcError>(BtcError::InvalidTransaction)
                    } else {
                        let coinbase = TransactionView {
                            inputs: seq![],
                            outputs: seq![OutputView {
                                value: (crate::block::block_reward(self@.blocks.len() as u64) + fees) as u64,
                                unique_id,
                                pubkey: pubkey@,
                            }],
                        };
                        let txs = seq![coinbase] + picked;
                        r matches Ok(b) && b@ == BlockView {
                            header: BlockHeader {
                                timestamp,
                                nonce: 0,
                                prev_block_hash: if self@.blocks.len() == 0 {
                                    crate::hash::Hash(U256 { w0: 0, w1: 0, w2: 0, w3: 0 })
                                } else {
                                    header_hash(self@.blocks.last().header)
                                },
                                merkle_root: merkle_root_of(txs),
                                target: self@.target,
                            },
                            transactions: txs,
                        }
                    },
                }
            }),
    {
        let count = if self.mempool.len() < 20 { self.mempool.len() } else { 20 };
        let ghost picked = self@.mempool.take(count as int).map_values(|e: MempoolEntryView| e.transaction);
        let placeholder = Transaction::new(
            Vec::new(),
            vec![crate::transaction::TransactionOutput::new(0, unique_id, pubkey.clone())],
        );
        let mut txs: Vec<Transaction> = Vec::new();
        txs.push(placeholder);
        let ghost pv = txs@[0]@;
        let mut i: usize = 0;
        while i < count
            invariant
                0 <= i <= count,
                count <= self.mempool@.len(),
                picked == self@.mempool.take(count as int).map_values(|e: MempoolEntryView| e.transaction),
                txs@.map_values(|t: Transaction| t@) == seq![pv] + picked.take(i as int),
            decreases count - i,
        {
            assert(self@.mempool[i as int] == self.mempool@[i as int]@);
            let c = self.mempool[i].transaction.clone();
            let ghost before = txs@;
            txs.push(c);
            assert(txs@.map_values(|t: Transaction| t@) =~= before.map_values(|t: Transaction| t@).push(c@));
            assert(seq![pv] + picked.take(i + 1) =~= (seq![pv] + picked.take(i as int)).push(c@));
            i += 1;
        }
        assert(picked.take(i as int) =~= picked);
        assert(txs@.map_values(|t: Transaction| t@)[0] == pv);
        assert(txs@[0]@ == pv);
        assert(pv == (TransactionView { inputs: seq![], outputs: seq![OutputView { value: 0, unique_id, pubkey: pubkey@ }] })) by {
            assert(txs@[0]@.inputs =~= Seq::<crate::transaction::InputView>::empty());
            assert(txs@[0]@.outputs =~= seq![OutputView { value: 0, unique_id, pubkey: pubkey@ }]);
        }
        let prev = if self.blocks.len() == 0 {
            crate::hash::Hash::zero()
        } else {
            proof {
                assert(self@.blocks.last() == self.blocks@[self.blocks@.len() - 1]@);
            }
            self.blocks[self.blocks.len() - 1].header().hash()
        };
        let provisional = Block::new(BlockHeader::new(timestamp, 0, prev, MerkleRoot(prev), self.target), txs);
        let fees = match provisional.calculated_miner_fees(&self.utxos) {
            Ok(f) => f,
            Err(e) => {
                return Err(e);
            },
        };
        let reward = self.calculate_block_reward();
        if reward > u64::MAX - fees {
            return Err(BtcError::InvalidTransaction);
        }
        let coinbase = Transaction::new(
            Vec::new(),
            vec![crate::transaction::TransactionOutput::new(reward + fees, unique_id, pubkey.clone())],
        );
        let ghost cv = coinbase@;
        assert(cv.inputs =~= Seq::<crate::transaction::InputView>::empty());
        let prov = provisional.transactions();
        let ghost all = seq![pv] + picked;
        assert(prov@.map_values(|t: Transaction| t@) == all);
        let mut finals: Vec<Transaction> = Vec::new();
        finals.push(coinbase);
        assert(finals@.map_values(|t: Transaction| t@) =~= seq![cv] + picked.take(0));
        let mut j: usize = 1;
        while j < prov.len()
            invariant
                1 <= j <= prov@.len(),
                prov@.len() == all.len(),
                all == seq![pv] + picked,
                prov@.map_values(|t: Transaction| t@) == all,
                finals@.map_values(|t: Transaction| t@) == seq![cv] + picked.take(j - 1),
            decreases prov@.len() - j,
        {
            assert(all[j as int] == prov@[j as int]@);
            assert(all[j as int] == picked[j - 1]);
            let c = prov[j].clone();
            let ghost before = finals@;
            finals.push(c);
            assert(finals@.map_values(|t: Transaction| t@) =~= before.map_values(|t: Transaction| t@).push(c@));
            assert(seq![cv] + picked.take(j as int) =~= (seq![cv] + picked.take(j - 1)).push(c@));
            j += 1;
        }
        assert(picked.take(j - 1) =~= picked);
        assert(cv == (TransactionView {
            inputs: seq![],
            outputs: seq![OutputView { value: (reward + fees) as u64, unique_id, pubkey: pubkey@ }],
        })) by {
            assert(cv.inputs =~= Seq::<crate::transaction::InputView>::empty());
            assert(cv.outputs =~= seq![OutputView { value: (reward + fees) as u64, unique_id, pubkey: pubkey@ }]);
        }
        assert(finals@.map_values(|t: Transaction| t@) == seq![cv] + picked);
        let fin = finals.as_slice();
        assert(fin@ == finals@);
        let root = MerkleRoot::calculate(fin);
        let b = Block::new(BlockHeader::new(timestamp, 0, prev, root, self.target), finals);
        assert(b@.transactions == seq![cv] + picked);
        Ok(b)
    }

    /// How many blocks this chain has beyond `height`; negative when it has fewer.
    pub fn ask_difference(&self, height: u32) -> (r: i128)
        ensures
            r == self@.blocks.len() - height,
    {
        self.blocks.len() as i128 - height as i128
    }

    /// Admits `transaction` stamped with the current time; see `add_transaction_to_mempool_at`.
    pub fn add_transaction_to_mempool(&mut self, transaction: Transaction) -> (r: Result<(), BtcError>)
        ensures
            !inputs_admissible(transaction@.inputs, old(self)@.utxos) ==> r == Err::<(), BtcError>(BtcError::InvalidTransaction)
                && final(self)@ == old(self)@,
            inputs_admissible(transaction@.inputs, old(self)@.utxos) ==> ({
                let st = displace((old(self)@.utxos, old(self)@.mempool), transaction@.inputs);
                let total_in = input_total(transaction@.inputs, st.0);
                let total_out = crate::block::output_sum(transaction@.outputs);
                &&& final(self)@.utxos == st.0
                &&& final(self)@.blocks == old(self)@.blocks
                &&& final(self)@.target == old(self)@.target
                &&& if total_in < total_out {
                    r == Err::<(), BtcError>(BtcError::InvalidTransaction) && final(self)@.mempool == st.1
                } else {
                    r is Ok && exists|now: i64| final(self)@.mempool == st.1.insert(
                        insert_position(st.1, (total_in - total_out) as nat),
                        #[trigger] mempool_entry(now, transaction@, (total_in - total_out) as nat),
                    )
                }
            }),
    {
        let now = crate::block_header::now_millis();
        let ghost tv = transaction@;
        let ghost st = displace((old(self)@.utxos, old(self)@.mempool), tv.inputs);
        let ghost fee = (input_total(tv.inputs, st.0) - crate::block::output_sum(tv.outputs)) as nat;
        let r = self.add_transaction_to_mempool_at(transaction, now);
        assert(mempool_entry(now, tv, fee) == MempoolEntryView { timestamp: now, transaction: tv, fee });
        r
    }

    /// Sets the soft-reservation flag of an unspent output, if it is indexed.
    pub fn set_reserved(&mut self, h: &crate::hash::Hash, flag: bool)
        ensures
            final(self)@.utxos == if old(self)@.utxos.contains_key(*h) {
                old(self)@.utxos.insert(*h, (flag, old(self)@.utxos[*h].1))
            } else {
                old(self)@.utxos
            },
            final(self)@.blocks == old(self)@.blocks,
            final(self)@.target == old(self)@.target,
            final(self)@.mempool == old(self)@.mempool,
    {
        self.utxos.set_reserved(h, flag);
    }

    /// Recomputes the UTXO index from the blocks alone.
    pub fn rebuild_utxos(&mut self)
        ensures
            final(self)@.utxos == utxos_of(old(self)@.blocks),
            final(self)@.blocks == old(self)@.blocks,
            final(self)@.target == old(self)@.target,
            final(self)@.mempool == old(self)@.mempool,
    {
        let ghost bs = self@.blocks;
        self.utxos.clear();
        let mut b: usize = 0;
        while b < self.blocks.len()
            invariant
                0 <= b <= bs.len(),
                bs == self@.blocks,
                self@.target == old(self)@.target,
                self@.mempool == old(self)@.mempool,
                self@.utxos == apply_blocks(Map::empty(), bs.take(b as int)),
            decreases bs.len() - b,
        {
            proof {
                crate::block::lemma_take_last(bs, b as int);
                assert(bs[b as int] == self.blocks@[b as int]@);
            }
            let txs = self.blocks[b].transactions();
            let ghost tv = bs[b as int].transactions;
            let ghost start = self.utxos@;
            let mut t: usize = 0;
            while t < txs.len()
                invariant
                    0 <= t <= tv.len(),
                    tv == txs@.map_values(|x: Transaction| x@),
                    bs == self@.blocks,
                    self@.target == old(self)@.target,
                    self@.mempool == old(self)@.mempool,
                    self.utxos@ == apply_transactions(start, tv.take(t as int)),
                decreases tv.len() - t,
            {
                proof {
                    crate::block::lemma_take_last(tv, t as int);
                    assert(tv[t as int] == txs@[t as int]@);
                }
                apply_transaction_exec(&mut self.utxos, &txs[t]);
                t += 1;
            }
            assert(tv.take(t as int) =~= tv);
            b += 1;
        }
        assert(bs.take(b as int) =~= bs);
    }

    /// Recomputes the target where the chain length is a positive multiple of the
    /// adjustment interval.
    pub fn try_adjust_target(&mut self)
        ensures
            final(self)@.target.value() == adjusted_target(old(self)@.target, old(self)@.blocks),
            final(self)@.blocks == old(self)@.blocks,
            final(self)@.utxos == old(self)@.utxos,
            final(self)@.mempool == old(self)@.mempool,
    {
        let n = self.blocks.len();
        if n == 0 || n % 2016 != 0 {
            return;
        }
        proof {
            assert(self.blocks@.map_values(|b: Block| b@)[n - 2016] == self.blocks@[n - 2016]@);
            assert(self.blocks@.map_values(|b: Block| b@).last() == self.blocks@[n - 1]@);
        }
        let start = self.blocks[n - 2016].header().timestamp;
        let end = self.blocks[n - 1].header().timestamp;
        let diff: i128 = end as i128 - start as i128;
        let secs: i128 = if diff >= 0 { diff / 1000 } else { -((-diff) / 1000) };
        self.target = retarget_exec(self.target, secs);
    }
}

pub proof fn lemma_filter_push<A>(s: Seq<A>, x: A, f: spec_fn(A) -> bool)
    ensures
        s.push(x).filter(f) == if f(x) {
            s.filter(f).push(x)
        } else {
            s.filter(f)
        },
{
    reveal(Seq::filter);
    assert(s.push(x).drop_last() =~= s);
}

fn hash_list_contains(v: &Vec<crate::hash::Hash>, h: &crate::hash::Hash) -> (r: bool)
    ensures
        r == v@.contains(*h),
{
    let mut i: usize = 0;
    while i < v.len()
        invariant
            0 <= i <= v@.len(),
            forall|j: int| 0 <= j < i ==> v@[j] != *h,
        decreases v@.len() - i,
    {
        if v[i] == *h {
            return true;
        }
        i += 1;
    }
    false
}

impl Default for Blockchain {
    fn default() -> (r: Blockchain)
        ensures
            r@.blocks.len() == 0,
            r@.mempool.len() == 0,
            r@.utxos == Map::<crate::hash::Hash, (bool, OutputView)>::empty(),
            r@.target.value() == min_target_value(),
    {
        Blockchain::new()
    }
}

proof fn lemma_scaled_split(target: int, q: int, r: int, dt: int, t: int)
    requires
        t > 0,
        dt > 0,
        0 <= r < t,
        target == q * t + r,
    ensures
        target * dt / t == q * dt + (r * dt) / t,
{
    vstd::arithmetic::div_mod::lemma_fundamental_div_mod(r * dt, t);
    vstd::arithmetic::div_mod::lemma_mod_pos_bound(r * dt, t);
    let x = target * dt;
    let qq = q * dt + (r * dt) / t;
    let rr = (r * dt) % t;
    assert(x == t * qq + rr) by (nonlinear_arith)
        requires
            x == target * dt,
            target == q * t + r,
            qq == q * dt + (r * dt) / t,
            rr == (r * dt) % t,
            r * dt == t * ((r * dt) / t) + (r * dt) % t,
    ;
    vstd::arithmetic::div_mod::lemma_fundamental_div_mod_converse(x, t, qq, rr);
}

proof fn lemma_scaled_at_least(target: int, dt: int, t: int)
    requires
        t > 0,
        dt >= 4 * t,
        target >= 0,
    ensures
        target * dt / t >= target * 4,
{
    assert(target * dt >= (target * 4) * t) by (nonlinear_arith)
        requires
            dt >= 4 * t,
            target >= 0,
            t > 0,
    ;
    vstd::arithmetic::div_mod::lemma_div_is_ordered((target * 4) * t, target * dt, t);
    vstd::arithmetic::div_mod::lemma_div_multiples_vanish(target * 4, t);
    assert((target * 4) * t == t * (target * 4)) by (nonlinear_arith);
}

proof fn lemma_scaled_at_most(target: int, dt: int, t: int)
    requires
        t > 0,
        0 <= dt <= 4 * t,
        target >= 0,
    ensures
        target * dt / t <= target * 4,
{
    assert(target * dt <= (target * 4) * t) by (nonlinear_arith)
        requires
            dt <= 4 * t,
            target >= 0,
            t > 0,
    ;
    vstd::arithmetic::div_mod::lemma_div_is_ordered(target * dt, (target * 4) * t, t);
    vstd::arithmetic::div_mod::lemma_div_multiples_vanish(target * 4, t);
    assert((target * 4) * t == t * (target * 4)) by (nonlinear_arith);
}

/// The retargeting rule on a target and an elapsed time in seconds.
pub fn retarget_exec(target: U256, dt: i128) -> (r: U256)
    ensures
        r.value() == retarget(target.value(), dt as int),
{
    let ideal: u64 = 1_209_600;
    let (lo, _) = target.div_rem_u64(4);
    let hi = target.checked_mul_u64(4);
    let min_t = min_target();
    let clamped: U256;
    if dt <= 0 {
        clamped = lo;
    } else if dt >= 4 * ideal as i128 {
        proof { lemma_scaled_at_least(target.value() as int, dt as int, 1_209_600); }
        match hi {
            Some(h) => {
                clamped = h;
            },
            None => {
                return min_t;
            },
        }
    } else {
        let d = dt as u64;
        let (q, rem) = target.div_rem_u64(ideal);
        proof {
            vstd::arithmetic::div_mod::lemma_fundamental_div_mod(target.value() as int, 1_209_600);
            lemma_scaled_split(target.value() as int, q.value() as int, rem as int, d as int, 1_209_600);
            assert(rem as int * d as int <= 1_209_600 * 4_838_400) by (nonlinear_arith)
                requires rem < 1_209_600, d < 4_838_400;
        }
        let low_part = (rem * d) / ideal;
        let scaled = match q.checked_mul_u64(d) {
            Some(a) => a.checked_add_u64(low_part),
            None => None,
        };
        match scaled {
            Some(s) => {
                if s.lt(&lo) {
                    clamped = lo;
                } else {
                    match hi {
                        Some(h) => {
                            if h.lt(&s) {
                                clamped = h;
                            } else {
                                clamped = s;
                            }
                        },
                        None => {
                            clamped = s;
                        },
                    }
                }
            },
            None => {
                proof {
                    let sc = target.value() * d / 1_209_600;
                    assert(sc == q.value() * d + low_part);
                    assert(sc >= crate::u256::u256_bound());
                    lemma_scaled_at_most(target.value() as int, d as int, 1_209_600);
                    assert(min_target_value() < crate::u256::u256_bound());
                    assert(target.value() / 4 < crate::u256::u256_bound() / 4 + 1);
                }
                return min_t;
            },
        }
    }
    clamped.min(min_t)
}

} // verus!
