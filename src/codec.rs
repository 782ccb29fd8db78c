use vstd::prelude::*;

use crate::bytes::{concat_enc, enc_bytes, enc_seq, u128_be, u64_be, u64_of_be};
use crate::transaction::{enc_input, enc_output, enc_transaction, InputView, OutputView, TransactionView};
use crate::u256::{u256_be, u256_of_be, U256};
use crate::block::{enc_block, BlockView};
use crate::block_header::{enc_header, BlockHeader};
use crate::merkle_root::MerkleRoot;

verus! {

pub open spec fn input_views(v: Seq<crate::transaction::TransactionInput>) -> Seq<InputView> {
    v.map_values(|x: crate::transaction::TransactionInput| x@)
}

pub open spec fn output_views(v: Seq<crate::transaction::TransactionOutput>) -> Seq<OutputView> {
    v.map_values(|x: crate::transaction::TransactionOutput| x@)
}

pub open spec fn transaction_views(v: Seq<crate::transaction::Transaction>) -> Seq<TransactionView> {
    v.map_values(|x: crate::transaction::Transaction| x@)
}

/// Reading a value off the front of bytes: the value and what follows it.
pub type Parsed<A> = Option<(A, Seq<u8>)>;

pub open spec fn parse_u64(s: Seq<u8>) -> Parsed<u64> {
    if s.len() >= 8 {
        Some((u64_of_be(s.take(8)), s.skip(8)))
    } else {
        None
    }
}

pub open spec fn parse_u128(s: Seq<u8>) -> Parsed<u128> {
    match parse_u64(s) {
        Some((hi, r)) => match parse_u64(r) {
            Some((lo, r2)) => Some((((hi as u128) << 64u128 | lo as u128), r2)),
            None => None,
        },
        None => None,
    }
}

pub open spec fn parse_u256(s: Seq<u8>) -> Parsed<U256> {
    if s.len() >= 32 {
        Some((u256_of_be(s.take(32)), s.skip(32)))
    } else {
        None
    }
}

pub open spec fn parse_bytes(s: Seq<u8>) -> Parsed<Seq<u8>> {
    match parse_u64(s) {
        Some((n, r)) => if r.len() >= n {
            Some((r.take(n as int), r.skip(n as int)))
        } else {
            None
        },
        None => None,
    }
}

pub open spec fn parse_output(s: Seq<u8>) -> Parsed<OutputView> {
    match parse_u64(s) {
        Some((value, r1)) => match parse_u128(r1) {
            Some((unique_id, r2)) => match parse_bytes(r2) {
                Some((pubkey, r3)) => Some((OutputView { value, unique_id, pubkey }, r3)),
                None => None,
            },
            None => None,
        },
        None => None,
    }
}

pub open spec fn parse_input(s: Seq<u8>) -> Parsed<InputView> {
    match parse_u256(s) {
        Some((prev, r1)) => match parse_bytes(r1) {
            Some((signature, r2)) => Some((InputView { prev: crate::hash::Hash(prev), signature }, r2)),
            None => None,
        },
        None => None,
    }
}

/// `n` items read one after another with `f`.
pub open spec fn parse_items<A>(n: nat, s: Seq<u8>, f: spec_fn(Seq<u8>) -> Parsed<A>) -> Parsed<Seq<A>>
    decreases n,
{
    if n == 0 {
        Some((seq![], s))
    } else {
        match parse_items((n - 1) as nat, s, f) {
            Some((items, r)) => match f(r) {
                Some((x, r2)) => Some((items.push(x), r2)),
                None => None,
            },
            None => None,
        }
    }
}

/// A count, then that many items.
pub open spec fn parse_seq<A>(s: Seq<u8>, f: spec_fn(Seq<u8>) -> Parsed<A>) -> Parsed<Seq<A>> {
    match parse_u64(s) {
        Some((n, r)) => parse_items(n as nat, r, f),
        None => None,
    }
}

pub open spec fn input_parser() -> spec_fn(Seq<u8>) -> Parsed<InputView> {
    |x: Seq<u8>| parse_input(x)
}

pub open spec fn output_parser() -> spec_fn(Seq<u8>) -> Parsed<OutputView> {
    |x: Seq<u8>| parse_output(x)
}

pub open spec fn transaction_parser() -> spec_fn(Seq<u8>) -> Parsed<TransactionView> {
    |x: Seq<u8>| parse_transaction(x)
}

pub open spec fn parse_transaction(s: Seq<u8>) -> Parsed<TransactionView> {
    match parse_seq(s, input_parser()) {
        Some((inputs, r)) => match parse_seq(r, output_parser()) {
            Some((outputs, r2)) => Some((TransactionView { inputs, outputs }, r2)),
            None => None,
        },
        None => None,
    }
}

pub proof fn lemma_parse_u64(x: u64, rest: Seq<u8>)
    ensures
        parse_u64(u64_be(x) + rest) == Some((x, rest)),
{
    crate::bytes::lemma_u64_be_round_trip(x);
    assert((u64_be(x) + rest).take(8) =~= u64_be(x));
    assert((u64_be(x) + rest).skip(8) =~= rest);
}

pub proof fn lemma_parse_u128(x: u128, rest: Seq<u8>)
    ensures
        parse_u128(u128_be(x) + rest) == Some((x, rest)),
{
    let hi = (x >> 64u128) as u64;
    let lo = x as u64;
    assert(u128_be(x) + rest =~= u64_be(hi) + (u64_be(lo) + rest));
    lemma_parse_u64(hi, u64_be(lo) + rest);
    lemma_parse_u64(lo, rest);
    assert(((hi as u128) << 64u128 | lo as u128) == x) by (bit_vector)
        requires
            hi == (x >> 64u128) as u64,
            lo == x as u64,
    ;
}

pub proof fn lemma_parse_u256(t: U256, rest: Seq<u8>)
    ensures
        parse_u256(u256_be(t) + rest) == Some((t, rest)),
{
    crate::u256::lemma_u256_be_round_trip(t);
    assert((u256_be(t) + rest).take(32) =~= u256_be(t));
    assert((u256_be(t) + rest).skip(32) =~= rest);
}

pub proof fn lemma_parse_bytes(b: Seq<u8>, rest: Seq<u8>)
    requires
        b.len() <= u64::MAX,
    ensures
        parse_bytes(enc_bytes(b) + rest) == Some((b, rest)),
{
    assert(enc_bytes(b) + rest =~= u64_be(b.len() as u64) + (b + rest));
    lemma_parse_u64(b.len() as u64, b + rest);
    assert((b + rest).take(b.len() as int) =~= b);
    assert((b + rest).skip(b.len() as int) =~= rest);
}

/// Output fields that the encoding can carry: a key of fewer than 2^64 bytes.
pub open spec fn output_encodable(o: OutputView) -> bool {
    o.pubkey.len() <= u64::MAX
}

pub open spec fn input_encodable(i: InputView) -> bool {
    i.signature.len() <= u64::MAX
}

pub proof fn lemma_parse_output(o: OutputView, rest: Seq<u8>)
    requires
        output_encodable(o),
    ensures
        parse_output(enc_output(o) + rest) == Some((o, rest)),
{
    assert(enc_output(o) + rest =~= u64_be(o.value) + (u128_be(o.unique_id) + (enc_bytes(o.pubkey) + rest)));
    lemma_parse_u64(o.value, u128_be(o.unique_id) + (enc_bytes(o.pubkey) + rest));
    lemma_parse_u128(o.unique_id, enc_bytes(o.pubkey) + rest);
    lemma_parse_bytes(o.pubkey, rest);
}

pub proof fn lemma_parse_input(i: InputView, rest: Seq<u8>)
    requires
        input_encodable(i),
    ensures
        parse_input(enc_input(i) + rest) == Some((i, rest)),
{
    assert(enc_input(i) + rest =~= u256_be(i.prev.0) + (enc_bytes(i.signature) + rest));
    lemma_parse_u256(i.prev.0, enc_bytes(i.signature) + rest);
    lemma_parse_bytes(i.signature, rest);
}

pub proof fn lemma_parse_items<A>(
    items: Seq<A>,
    rest: Seq<u8>,
    enc: spec_fn(A) -> Seq<u8>,
    f: spec_fn(Seq<u8>) -> Parsed<A>,
    ok: spec_fn(A) -> bool,
)
    requires
        forall|i: int| 0 <= i < items.len() ==> #[trigger] ok(items[i]),
        forall|x: A, r: Seq<u8>| ok(x) ==> #[trigger] f(enc(x) + r) == Some((x, r)),
    ensures
        parse_items(items.len(), concat_enc(items, enc) + rest, f) == Some((items, rest)),
    decreases items.len(),
{
    if items.len() > 0 {
        let last = items.last();
        let pre = items.drop_last();
        assert(forall|i: int| 0 <= i < pre.len() ==> pre[i] == items[i]);
        assert(concat_enc(items, enc) + rest =~= concat_enc(pre, enc) + (enc(last) + rest));
        lemma_parse_items(pre, enc(last) + rest, enc, f, ok);
        assert(ok(items[items.len() - 1]));
        assert(f(enc(last) + rest) == Some((last, rest)));
        assert(pre.push(last) =~= items);
    } else {
        assert(concat_enc(items, enc) + rest =~= rest);
        assert(items =~= seq![]);
    }
}

pub proof fn lemma_parse_seq<A>(
    items: Seq<A>,
    rest: Seq<u8>,
    enc: spec_fn(A) -> Seq<u8>,
    f: spec_fn(Seq<u8>) -> Parsed<A>,
    ok: spec_fn(A) -> bool,
)
    requires
        items.len() <= u64::MAX,
        forall|i: int| 0 <= i < items.len() ==> #[trigger] ok(items[i]),
        forall|x: A, r: Seq<u8>| ok(x) ==> #[trigger] f(enc(x) + r) == Some((x, r)),
    ensures
        parse_seq(enc_seq(items, enc) + rest, f) == Some((items, rest)),
{
    assert(enc_seq(items, enc) + rest =~= u64_be(items.len() as u64) + (concat_enc(items, enc) + rest));
    lemma_parse_u64(items.len() as u64, concat_enc(items, enc) + rest);
    lemma_parse_items(items, rest, enc, f, ok);
}

/// Transactions whose parts the encoding can carry.
pub open spec fn transaction_encodable(t: TransactionView) -> bool {
    &&& t.inputs.len() <= u64::MAX
    &&& t.outputs.len() <= u64::MAX
    &&& forall|i: int| 0 <= i < t.inputs.len() ==> input_encodable(#[trigger] t.inputs[i])
    &&& forall|i: int| 0 <= i < t.outputs.len() ==> output_encodable(#[trigger] t.outputs[i])
}

/// Reading back the canonical encoding of a transaction gives the same transaction.
pub proof fn lemma_transaction_round_trip(t: TransactionView, rest: Seq<u8>)
    requires
        transaction_encodable(t),
    ensures
        parse_transaction(enc_transaction(t) + rest) == Some((t, rest)),
{
    let ei = |i: InputView| enc_input(i);
    let eo = |o: OutputView| enc_output(o);
    let pi = input_parser();
    let po = output_parser();
    assert forall|x: InputView, r: Seq<u8>| input_encodable(x) implies #[trigger] pi(ei(x) + r) == Some((x, r)) by {
        lemma_parse_input(x, r);
    }
    assert forall|x: OutputView, r: Seq<u8>| output_encodable(x) implies #[trigger] po(eo(x) + r) == Some((x, r)) by {
        lemma_parse_output(x, r);
    }
    let tail = enc_seq(t.outputs, eo) + rest;
    assert(enc_transaction(t) + rest =~= enc_seq(t.inputs, ei) + tail);
    lemma_parse_seq(t.inputs, tail, ei, pi, |x: InputView| input_encodable(x));
    lemma_parse_seq(t.outputs, rest, eo, po, |x: OutputView| output_encodable(x));
}

pub open spec fn parse_header(s: Seq<u8>) -> Parsed<BlockHeader> {
    match parse_u64(s) {
        Some((ts, r1)) => match parse_u64(r1) {
            Some((nonce, r2)) => match parse_u256(r2) {
                Some((prev, r3)) => match parse_u256(r3) {
                    Some((root, r4)) => match parse_u256(r4) {
                        Some((target, r5)) => Some((
                            BlockHeader {
                                timestamp: ts as i64,
                                nonce,
                                prev_block_hash: crate::hash::Hash(prev),
                                merkle_root: MerkleRoot(crate::hash::Hash(root)),
                                target,
                            },
                            r5,
                        )),
                        None => None,
                    },
                    None => None,
                },
                None => None,
            },
            None => None,
        },
        None => None,
    }
}

pub open spec fn parse_block(s: Seq<u8>) -> Parsed<BlockView> {
    match parse_header(s) {
        Some((header, r)) => match parse_seq(r, transaction_parser()) {
            Some((transactions, r2)) => Some((BlockView { header, transactions }, r2)),
            None => None,
        },
        None => None,
    }
}

proof fn lemma_i64_u64_round_trip(t: i64)
    ensures
        ((t as u64) as i64) == t,
{
    assert(((t as u64) as i64) == t) by (bit_vector);
}

#[verifier::rlimit(100)]
pub proof fn lemma_header_round_trip(h: BlockHeader, rest: Seq<u8>)
    ensures
        parse_header(enc_header(h) + rest) == Some((h, rest)),
{
    let t = h.timestamp;
    let r4 = u256_be(h.target) + rest;
    let r3 = u256_be(h.merkle_root.0.0) + r4;
    let r2 = u256_be(h.prev_block_hash.0) + r3;
    let r1 = u64_be(h.nonce) + r2;
    assert(enc_header(h) + rest =~= u64_be(t as u64) + r1);
    lemma_parse_u64(t as u64, r1);
    lemma_parse_u64(h.nonce, r2);
    lemma_parse_u256(h.prev_block_hash.0, r3);
    lemma_parse_u256(h.merkle_root.0.0, r4);
    lemma_parse_u256(h.target, rest);
    lemma_i64_u64_round_trip(t);
    assert(parse_u64(enc_header(h) + rest) == Some((t as u64, r1)));
    assert(parse_u64(r1) == Some((h.nonce, r2)));
    assert(parse_u256(r2) == Some((h.prev_block_hash.0, r3)));
    assert(parse_u256(r3) == Some((h.merkle_root.0.0, r4)));
    assert(parse_u256(r4) == Some((h.target, rest)));
}

/// Blocks whose parts the encoding can carry.
pub open spec fn block_encodable(b: BlockView) -> bool {
    &&& b.transactions.len() <= u64::MAX
    &&& forall|i: int| 0 <= i < b.transactions.len() ==> transaction_encodable(#[trigger] b.transactions[i])
}

/// Reading back the canonical encoding of a block gives the same block.
pub proof fn lemma_block_round_trip(b: BlockView, rest: Seq<u8>)
    requires
        block_encodable(b),
    ensures
        parse_block(enc_block(b) + rest) == Some((b, rest)),
{
    let et = |t: TransactionView| enc_transaction(t);
    let pt = transaction_parser();
    assert forall|x: TransactionView, r: Seq<u8>| transaction_encodable(x) implies #[trigger] pt(et(x) + r) == Some((x, r)) by {
        lemma_transaction_round_trip(x, r);
    }
    let tail = enc_seq(b.transactions, et) + rest;
    assert(enc_block(b) + rest =~= enc_header(b.header) + tail);
    lemma_header_round_trip(b.header, tail);
    lemma_parse_seq(b.transactions, rest, et, pt, |x: TransactionView| transaction_encodable(x));
}

proof fn lemma_parse_items_fail<A>(n: nat, m: nat, s: Seq<u8>, f: spec_fn(Seq<u8>) -> Parsed<A>)
    requires
        n <= m,
        parse_items(n, s, f) is None,
    ensures
        parse_items(m, s, f) is None,
    decreases m - n,
{
    if n < m {
        lemma_parse_items_fail((n + 1) as nat, m, s, f);
    }
}

pub proof fn lemma_parse_items_fail_pub<A>(n: nat, m: nat, s: Seq<u8>, f: spec_fn(Seq<u8>) -> Parsed<A>)
    requires
        n <= m,
        parse_items(n, s, f) is None,
    ensures
        parse_items(m, s, f) is None,
{
    lemma_parse_items_fail(n, m, s, f);
}

proof fn lemma_skip_take(data: Seq<u8>, pos: int, n: int)
    requires
        0 <= pos,
        0 <= n,
        pos + n <= data.len(),
    ensures
        data.skip(pos).take(n) == data.subrange(pos, pos + n),
        data.skip(pos).skip(n) == data.skip(pos + n),
        data.skip(pos).len() >= n,
{
    assert(data.skip(pos).take(n) =~= data.subrange(pos, pos + n));
    assert(data.skip(pos).skip(n) =~= data.skip(pos + n));
}

pub(crate) fn decode_u64(data: &Vec<u8>, pos: &mut usize) -> (r: Option<u64>)
    requires
        *old(pos) <= data@.len(),
    ensures
        *final(pos) <= data@.len(),
        match parse_u64(data@.skip(*old(pos) as int)) {
            Some((x, rest)) => r == Some(x) && rest == data@.skip(*final(pos) as int),
            None => r is None,
        },
{
    let len = data.len();
    match crate::bytes::read_u64(data, *pos) {
        Some(x) => {
            assert(*pos + 8 <= len);
            proof { lemma_skip_take(data@, *pos as int, 8); }
            *pos = *pos + 8;
            Some(x)
        },
        None => None,
    }
}

pub(crate) fn decode_u128(data: &Vec<u8>, pos: &mut usize) -> (r: Option<u128>)
    requires
        *old(pos) <= data@.len(),
    ensures
        *final(pos) <= data@.len(),
        match parse_u128(data@.skip(*old(pos) as int)) {
            Some((x, rest)) => r == Some(x) && rest == data@.skip(*final(pos) as int),
            None => r is None,
        },
{
    let hi = match decode_u64(data, pos) {
        Some(v) => v,
        None => {
            return None;
        },
    };
    let lo = match decode_u64(data, pos) {
        Some(v) => v,
        None => {
            return None;
        },
    };
    Some(((hi as u128) << 64u128) | lo as u128)
}

pub(crate) fn decode_u256(data: &Vec<u8>, pos: &mut usize) -> (r: Option<U256>)
    requires
        *old(pos) <= data@.len(),
    ensures
        *final(pos) <= data@.len(),
        match parse_u256(data@.skip(*old(pos) as int)) {
            Some((x, rest)) => r == Some(x) && rest == data@.skip(*final(pos) as int),
            None => r is None,
        },
{
    let len = data.len();
    match U256::read_be(data, *pos) {
        Some(t) => {
            assert(*pos + 32 <= len);
            proof { lemma_skip_take(data@, *pos as int, 32); }
            *pos = *pos + 32;
            Some(t)
        },
        None => None,
    }
}

pub(crate) fn decode_bytes(data: &Vec<u8>, pos: &mut usize) -> (r: Option<Vec<u8>>)
    requires
        *old(pos) <= data@.len(),
    ensures
        *final(pos) <= data@.len(),
        match parse_bytes(data@.skip(*old(pos) as int)) {
            Some((x, rest)) => r matches Some(v) && v@ == x && rest == data@.skip(*final(pos) as int),
            None => r is None,
        },
{
    let n = match decode_u64(data, pos) {
        Some(v) => v,
        None => {
            return None;
        },
    };
    let p = *pos;
    let len = data.len();
    if ((len - p) as u64) < n {
        return None;
    }
    let n = n as usize;
    assert(p + n <= len);
    let mut out: Vec<u8> = Vec::new();
    let mut i: usize = 0;
    while i < n
        invariant
            0 <= i <= n,
            len == data@.len(),
            p + n <= len,
            out@ == data@.subrange(p as int, p + i),
        decreases n - i,
    {
        out.push(data[p + i]);
        assert(out@ =~= data@.subrange(p as int, p + i + 1));
        i += 1;
    }
    proof { lemma_skip_take(data@, p as int, n as int); }
    *pos = p + n;
    Some(out)
}

pub(crate) fn decode_output(data: &Vec<u8>, pos: &mut usize) -> (r: Option<crate::transaction::TransactionOutput>)
    requires
        *old(pos) <= data@.len(),
    ensures
        *final(pos) <= data@.len(),
        match parse_output(data@.skip(*old(pos) as int)) {
            Some((x, rest)) => r matches Some(v) && v@ == x && rest == data@.skip(*final(pos) as int),
            None => r is None,
        },
{
    let value = match decode_u64(data, pos) {
        Some(v) => v,
        None => {
            return None;
        },
    };
    let unique_id = match decode_u128(data, pos) {
        Some(v) => v,
        None => {
            return None;
        },
    };
    let pubkey = match decode_bytes(data, pos) {
        Some(v) => v,
        None => {
            return None;
        },
    };
    let key = crate::crypto::PublicKey::from_bytes(pubkey);
    Some(crate::transaction::TransactionOutput::new(value, unique_id, key))
}

pub(crate) fn decode_input(data: &Vec<u8>, pos: &mut usize) -> (r: Option<crate::transaction::TransactionInput>)
    requires
        *old(pos) <= data@.len(),
    ensures
        *final(pos) <= data@.len(),
        match parse_input(data@.skip(*old(pos) as int)) {
            Some((x, rest)) => r matches Some(v) && v@ == x && rest == data@.skip(*final(pos) as int),
            None => r is None,
        },
{
    let prev = match decode_u256(data, pos) {
        Some(v) => v,
        None => {
            return None;
        },
    };
    let sig = match decode_bytes(data, pos) {
        Some(v) => v,
        None => {
            return None;
        },
    };
    let signature = crate::crypto::Signature::from_bytes(sig);
    Some(crate::transaction::TransactionInput::new(crate::hash::Hash(prev), signature))
}

pub(crate) fn decode_inputs(data: &Vec<u8>, pos: &mut usize) -> (r: Option<Vec<crate::transaction::TransactionInput>>)
    requires
        *old(pos) <= data@.len(),
    ensures
        *final(pos) <= data@.len(),
        match parse_seq(data@.skip(*old(pos) as int), input_parser()) {
            Some((xs, rest)) => r matches Some(v) && input_views(v@) == xs && rest == data@.skip(*final(pos) as int),
            None => r is None,
        },
{
    let n = match decode_u64(data, pos) {
        Some(v) => v,
        None => {
            return None;
        },
    };
    let ghost r0 = data@.skip(*pos as int);
    let mut items: Vec<crate::transaction::TransactionInput> = Vec::new();
    let mut k: u64 = 0;
    assert(input_views(items@) =~= Seq::<InputView>::empty());
    while k < n
        invariant
            *pos <= data@.len(),
            k <= n,
            parse_u64(data@.skip(*old(pos) as int)) == Some((n, r0)),
            parse_items(k as nat, r0, input_parser()) == Some((input_views(items@), data@.skip(*pos as int))),
        decreases n - k,
    {
        let ghost before = items@;
        let ghost p_before = *pos;
        match decode_input(data, pos) {
            Some(x) => {
                items.push(x);
                assert(input_views(items@) =~= input_views(before).push(x@));
            },
            None => {
                proof {
                    lemma_parse_items_fail((k + 1) as nat, n as nat, r0, input_parser());
                }
                return None;
            },
        }
        k += 1;
    }
    Some(items)
}

pub(crate) fn decode_outputs(data: &Vec<u8>, pos: &mut usize) -> (r: Option<Vec<crate::transaction::TransactionOutput>>)
    requires
        *old(pos) <= data@.len(),
    ensures
        *final(pos) <= data@.len(),
        match parse_seq(data@.skip(*old(pos) as int), output_parser()) {
            Some((xs, rest)) => r matches Some(v) && output_views(v@) == xs && rest == data@.skip(*final(pos) as int),
            None => r is None,
        },
{
    let n = match decode_u64(data, pos) {
        Some(v) => v,
        None => {
            return None;
        },
    };
    let ghost r0 = data@.skip(*pos as int);
    let mut items: Vec<crate::transaction::TransactionOutput> = Vec::new();
    let mut k: u64 = 0;
    assert(output_views(items@) =~= Seq::<OutputView>::empty());
    while k < n
        invariant
            *pos <= data@.len(),
            k <= n,
            parse_u64(data@.skip(*old(pos) as int)) == Some((n, r0)),
            parse_items(k as nat, r0, output_parser()) == Some((output_views(items@), data@.skip(*pos as int))),
        decreases n - k,
    {
        let ghost before = items@;
        let ghost p_before = *pos;
        match decode_output(data, pos) {
            Some(x) => {
                items.push(x);
                assert(output_views(items@) =~= output_views(before).push(x@));
            },
            None => {
                proof {
                    lemma_parse_items_fail((k + 1) as nat, n as nat, r0, output_parser());
                }
                return None;
            },
        }
        k += 1;
    }
    Some(items)
}

pub(crate) fn decode_transactions(data: &Vec<u8>, pos: &mut usize) -> (r: Option<Vec<crate::transaction::Transaction>>)
    requires
        *old(pos) <= data@.len(),
    ensures
        *final(pos) <= data@.len(),
        match parse_seq(data@.skip(*old(pos) as int), transaction_parser()) {
            Some((xs, rest)) => r matches Some(v) && transaction_views(v@) == xs && rest == data@.skip(*final(pos) as int),
            None => r is None,
        },
{
    let n = match decode_u64(data, pos) {
        Some(v) => v,
        None => {
            return None;
        },
    };
    let ghost r0 = data@.skip(*pos as int);
    let mut items: Vec<crate::transaction::Transaction> = Vec::new();
    let mut k: u64 = 0;
    assert(transaction_views(items@) =~= Seq::<TransactionView>::empty());
    while k < n
        invariant
            *pos <= data@.len(),
            k <= n,
            parse_u64(data@.skip(*old(pos) as int)) == Some((n, r0)),
            parse_items(k as nat, r0, transaction_parser()) == Some((transaction_views(items@), data@.skip(*pos as int))),
        decreases n - k,
    {
        let ghost before = items@;
        let ghost p_before = *pos;
        match decode_transaction(data, pos) {
            Some(x) => {
                items.push(x);
                assert(transaction_views(items@) =~= transaction_views(before).push(x@));
            },
            None => {
                proof {
                    lemma_parse_items_fail((k + 1) as nat, n as nat, r0, transaction_parser());
                }
                return None;
            },
        }
        k += 1;
    }
    Some(items)
}

pub(crate) fn decode_transaction(data: &Vec<u8>, pos: &mut usize) -> (r: Option<crate::transaction::Transaction>)
    requires
        *old(pos) <= data@.len(),
    ensures
        *final(pos) <= data@.len(),
        match parse_transaction(data@.skip(*old(pos) as int)) {
            Some((x, rest)) => r matches Some(v) && v@ == x && rest == data@.skip(*final(pos) as int),
            None => r is None,
        },
{
    let inputs = match decode_inputs(data, pos) {
        Some(v) => v,
        None => {
            return None;
        },
    };
    let outputs = match decode_outputs(data, pos) {
        Some(v) => v,
        None => {
            return None;
        },
    };
    let t = crate::transaction::Transaction::new(inputs, outputs);
    assert(t@.inputs =~= input_views(inputs@));
    assert(t@.outputs =~= output_views(outputs@));
    Some(t)
}

pub(crate) fn decode_header(data: &Vec<u8>, pos: &mut usize) -> (r: Option<BlockHeader>)
    requires
        *old(pos) <= data@.len(),
    ensures
        *final(pos) <= data@.len(),
        match parse_header(data@.skip(*old(pos) as int)) {
            Some((x, rest)) => r == Some(x) && rest == data@.skip(*final(pos) as int),
            None => r is None,
        },
{
    let ts = match decode_u64(data, pos) {
        Some(v) => v,
        None => {
            return None;
        },
    };
    let nonce = match decode_u64(data, pos) {
        Some(v) => v,
        None => {
            return None;
        },
    };
    let prev = match decode_u256(data, pos) {
        Some(v) => v,
        None => {
            return None;
        },
    };
    let root = match decode_u256(data, pos) {
        Some(v) => v,
        None => {
            return None;
        },
    };
    let target = match decode_u256(data, pos) {
        Some(v) => v,
        None => {
            return None;
        },
    };
    Some(BlockHeader {
        timestamp: ts as i64,
        nonce,
        prev_block_hash: crate::hash::Hash(prev),
        merkle_root: MerkleRoot(crate::hash::Hash(root)),
        target,
    })
}

impl crate::transaction::Transaction {
    /// The canonical encoding of the transaction.
    pub fn encode(&self) -> (r: Vec<u8>)
        ensures
            r@ == enc_transaction(self@),
    {
        let mut out: Vec<u8> = Vec::new();
        self.encode_into(&mut out);
        assert(out@ =~= enc_transaction(self@));
        out
    }

    /// Reads a transaction that fills `data` exactly.
    pub fn decode(data: &Vec<u8>) -> (r: Option<crate::transaction::Transaction>)
        ensures
            match parse_transaction(data@) {
                Some((x, rest)) => if rest.len() == 0 {
                    r matches Some(v) && v@ == x
                } else {
                    r is None
                },
                None => r is None,
            },
    {
        let mut pos: usize = 0;
        assert(data@.skip(0) =~= data@);
        let t = match decode_transaction(data, &mut pos) {
            Some(t) => t,
            None => {
                return None;
            },
        };
        if pos != data.len() {
            return None;
        }
        Some(t)
    }
}

impl crate::block::Block {
    /// The canonical encoding of the block.
    pub fn encode(&self) -> (r: Vec<u8>)
        ensures
            r@ == enc_block(self@),
    {
        let mut out: Vec<u8> = Vec::new();
        self.encode_into(&mut out);
        assert(out@ =~= enc_block(self@));
        out
    }

    /// Reads a block that fills `data` exactly.
    pub fn decode(data: &Vec<u8>) -> (r: Option<crate::block::Block>)
        ensures
            match parse_block(data@) {
                Some((x, rest)) => if rest.len() == 0 {
                    r matches Some(v) && v@ == x
                } else {
                    r is None
                },
                None => r is None,
            },
    {
        let mut pos: usize = 0;
        assert(data@.skip(0) =~= data@);
        let header = match decode_header(data, &mut pos) {
            Some(h) => h,
            None => {
                return None;
            },
        };
        let transactions = match decode_transactions(data, &mut pos) {
            Some(t) => t,
            None => {
                return None;
            },
        };
        if pos != data.len() {
            return None;
        }
        let b = crate::block::Block::new(header, transactions);
        assert(b@.transactions =~= transaction_views(transactions@));
        Some(b)
    }
}

/// Decoding the encoding of a transaction gives back an equal transaction.
pub proof fn lemma_transaction_decode_encode(t: TransactionView)
    requires
        transaction_encodable(t),
    ensures
        parse_transaction(enc_transaction(t)) == Some((t, Seq::<u8>::empty())),
{
    lemma_transaction_round_trip(t, Seq::empty());
    assert(enc_transaction(t) + Seq::<u8>::empty() =~= enc_transaction(t));
}

/// Decoding the encoding of a block gives back an equal block.
pub proof fn lemma_block_decode_encode(b: BlockView)
    requires
        block_encodable(b),
    ensures
        parse_block(enc_block(b)) == Some((b, Seq::<u8>::empty())),
{
    lemma_block_round_trip(b, Seq::empty());
    assert(enc_block(b) + Seq::<u8>::empty() =~= enc_block(b));
}

pub(crate) fn decode_block_parts(data: &Vec<u8>, pos: &mut usize) -> (r: Option<crate::block::Block>)
    requires
        *old(pos) <= data@.len(),
    ensures
        *final(pos) <= data@.len(),
        match parse_block(data@.skip(*old(pos) as int)) {
            Some((x, rest)) => r matches Some(v) && v@ == x && rest == data@.skip(*final(pos) as int),
            None => r is None,
        },
{
    let header = match decode_header(data, pos) {
        Some(h) => h,
        None => {
            return None;
        },
    };
    let transactions = match decode_transactions(data, pos) {
        Some(t) => t,
        None => {
            return None;
        },
    };
    let b = crate::block::Block::new(header, transactions);
    assert(b@.transactions =~= transaction_views(transactions@));
    Some(b)
}

} // verus!
