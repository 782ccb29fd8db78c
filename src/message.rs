use vstd::prelude::*;

use crate::block::{enc_block, Block, BlockView};
use crate::bytes::{concat_enc, enc_bytes, enc_seq, u64_be};
use crate::codec::{
    block_encodable, lemma_block_round_trip, lemma_parse_bytes, lemma_parse_output, lemma_parse_seq,
    lemma_parse_u64, lemma_transaction_round_trip, output_encodable, parse_block, parse_bytes,
    parse_output, parse_seq, parse_transaction, parse_u64, transaction_encodable, Parsed,
};
use crate::codec::{decode_block_parts, decode_bytes, decode_output, decode_transaction, decode_u64};
use crate::crypto::PublicKey;
use crate::transaction::{enc_output, enc_transaction, OutputView, Transaction, TransactionOutput, TransactionView};

verus! {

/// What peers, miners and wallets send one another.
pub enum Message {
    /// Ask for the unspent outputs paying a key.
    FetchUTXOs(PublicKey),
    /// Unspent outputs, each with its reservation flag.
    UTXOs(Vec<(TransactionOutput, bool)>),
    /// A wallet hands in a transaction.
    SubmitTransaction(Transaction),
    /// A node passes a transaction on.
    NewTransaction(Transaction),
    /// Ask for a block template paying a key.
    FetchTemplate(PublicKey),
    /// A block template.
    Template(Block),
    /// Ask whether a template still extends the tip.
    ValidateTemplate(Block),
    /// Whether the template does.
    TemplateValidity(bool),
    /// A miner hands in a solved block.
    SubmitTemplate(Block),
    /// Ask for known peers.
    DiscoverNodes,
    /// Known peer addresses, each as its UTF-8 bytes.
    NodeList(Vec<Vec<u8>>),
    /// Ask how many blocks the peer has beyond this height.
    AskDifference(u32),
    /// The answer to `AskDifference`.
    Difference(i32),
    /// Ask for the block at this index.
    FetchBlock(usize),
    /// A node passes a block on.
    NewBlock(Block),
}

pub enum MessageView {
    FetchUTXOs(Seq<u8>),
    UTXOs(Seq<(OutputView, bool)>),
    SubmitTransaction(TransactionView),
    NewTransaction(TransactionView),
    FetchTemplate(Seq<u8>),
    Template(BlockView),
    ValidateTemplate(BlockView),
    TemplateValidity(bool),
    SubmitTemplate(BlockView),
    DiscoverNodes,
    NodeList(Seq<Seq<u8>>),
    AskDifference(u32),
    Difference(i32),
    FetchBlock(usize),
    NewBlock(BlockView),
}

pub open spec fn utxo_views(v: Seq<(TransactionOutput, bool)>) -> Seq<(OutputView, bool)> {
    v.map_values(|p: (TransactionOutput, bool)| (p.0@, p.1))
}

pub open spec fn byte_views(v: Seq<Vec<u8>>) -> Seq<Seq<u8>> {
    v.map_values(|b: Vec<u8>| b@)
}

impl View for Message {
    type V = MessageView;

    open spec fn view(&self) -> MessageView {
        match self {
            Message::FetchUTXOs(k) => MessageView::FetchUTXOs(k@),
            Message::UTXOs(v) => MessageView::UTXOs(utxo_views(v@)),
            Message::SubmitTransaction(t) => MessageView::SubmitTransaction(t@),
            Message::NewTransaction(t) => MessageView::NewTransaction(t@),
            Message::FetchTemplate(k) => MessageView::FetchTemplate(k@),
            Message::Template(b) => MessageView::Template(b@),
            Message::ValidateTemplate(b) => MessageView::ValidateTemplate(b@),
            Message::TemplateValidity(x) => MessageView::TemplateValidity(*x),
            Message::SubmitTemplate(b) => MessageView::SubmitTemplate(b@),
            Message::DiscoverNodes => MessageView::DiscoverNodes,
            Message::NodeList(v) => MessageView::NodeList(byte_views(v@)),
            Message::AskDifference(x) => MessageView::AskDifference(*x),
            Message::Difference(x) => MessageView::Difference(*x),
            Message::FetchBlock(x) => MessageView::FetchBlock(*x),
            Message::NewBlock(b) => MessageView::NewBlock(b@),
        }
    }
}

pub open spec fn enc_bool(b: bool) -> Seq<u8> {
    seq![if b { 1u8 } else { 0u8 }]
}

pub open spec fn enc_utxo(p: (OutputView, bool)) -> Seq<u8> {
    enc_output(p.0) + enc_bool(p.1)
}

/// Canonical encoding of a message: a tag byte, then the payload.
pub open spec fn enc_message(m: MessageView) -> Seq<u8> {
    match m {
        MessageView::FetchUTXOs(k) => seq![0u8] + enc_bytes(k),
        MessageView::UTXOs(v) => seq![1u8] + enc_seq(v, |p: (OutputView, bool)| enc_utxo(p)),
        MessageView::SubmitTransaction(t) => seq![2u8] + enc_transaction(t),
        MessageView::NewTransaction(t) => seq![3u8] + enc_transaction(t),
        MessageView::FetchTemplate(k) => seq![4u8] + enc_bytes(k),
        MessageView::Template(b) => seq![5u8] + enc_block(b),
        MessageView::ValidateTemplate(b) => seq![6u8] + enc_block(b),
        MessageView::TemplateValidity(x) => seq![7u8] + enc_bool(x),
        MessageView::SubmitTemplate(b) => seq![8u8] + enc_block(b),
        MessageView::DiscoverNodes => seq![9u8],
        MessageView::NodeList(v) => seq![10u8] + enc_seq(v, |b: Seq<u8>| enc_bytes(b)),
        MessageView::AskDifference(x) => seq![11u8] + u64_be(x as u64),
        MessageView::Difference(x) => seq![12u8] + u64_be((x as i64) as u64),
        MessageView::FetchBlock(x) => seq![13u8] + u64_be(x as u64),
        MessageView::NewBlock(b) => seq![14u8] + enc_block(b),
    }
}

pub open spec fn parse_bool(s: Seq<u8>) -> Parsed<bool> {
    if s.len() >= 1 && s[0] <= 1 {
        Some((s[0] == 1, s.skip(1)))
    } else {
        None
    }
}

pub open spec fn parse_utxo(s: Seq<u8>) -> Parsed<(OutputView, bool)> {
    match parse_output(s) {
        Some((o, r)) => match parse_bool(r) {
            Some((b, r2)) => Some(((o, b), r2)),
            None => None,
        },
        None => None,
    }
}

pub open spec fn utxo_parser() -> spec_fn(Seq<u8>) -> Parsed<(OutputView, bool)> {
    |x: Seq<u8>| parse_utxo(x)
}

pub open spec fn bytes_parser() -> spec_fn(Seq<u8>) -> Parsed<Seq<u8>> {
    |x: Seq<u8>| parse_bytes(x)
}

/// Reads the payload of the message with tag `tag`.
pub open spec fn parse_payload(tag: u8, r: Seq<u8>) -> Parsed<MessageView> {
    if tag < 5 {
        parse_payload_low(tag, r)
    } else if tag < 10 {
        parse_payload_mid(tag, r)
    } else {
        parse_payload_high(tag, r)
    }
}

pub open spec fn parse_payload_low(tag: u8, r: Seq<u8>) -> Parsed<MessageView> {
        if tag == 0 {
            match parse_bytes(r) { Some((k, r2)) => Some((MessageView::FetchUTXOs(k), r2)), None => None }
        } else if tag == 1 {
            match parse_seq(r, utxo_parser()) { Some((v, r2)) => Some((MessageView::UTXOs(v), r2)), None => None }
        } else if tag == 2 {
            match parse_transaction(r) { Some((t, r2)) => Some((MessageView::SubmitTransaction(t), r2)), None => None }
        } else if tag == 3 {
            match parse_transaction(r) { Some((t, r2)) => Some((MessageView::NewTransaction(t), r2)), None => None }
        } else if tag == 4 {
            match parse_bytes(r) { Some((k, r2)) => Some((MessageView::FetchTemplate(k), r2)), None => None }
        } else {
            None
        }
}

pub open spec fn parse_payload_mid(tag: u8, r: Seq<u8>) -> Parsed<MessageView> {
        if tag == 5 {
            match parse_block(r) { Some((b, r2)) => Some((MessageView::Template(b), r2)), None => None }
        } else if tag == 6 {
            match parse_block(r) { Some((b, r2)) => Some((MessageView::ValidateTemplate(b), r2)), None => None }
        } else if tag == 7 {
            match parse_bool(r) { Some((x, r2)) => Some((MessageView::TemplateValidity(x), r2)), None => None }
        } else if tag == 8 {
            match parse_block(r) { Some((b, r2)) => Some((MessageView::SubmitTemplate(b), r2)), None => None }
        } else if tag == 9 {
            Some((MessageView::DiscoverNodes, r))
        } else {
            None
        }
}

pub open spec fn parse_payload_high(tag: u8, r: Seq<u8>) -> Parsed<MessageView> {
        if tag == 10 {
            match parse_seq(r, bytes_parser()) { Some((v, r2)) => Some((MessageView::NodeList(v), r2)), None => None }
        } else if tag == 11 {
            match parse_u64(r) {
                Some((x, r2)) => if x <= u32::MAX { Some((MessageView::AskDifference(x as u32), r2)) } else { None },
                None => None,
            }
        } else if tag == 12 {
            match parse_u64(r) {
                Some((x, r2)) => if i32::MIN <= (x as i64) <= i32::MAX {
                    Some((MessageView::Difference((x as i64) as i32), r2))
                } else {
                    None
                },
                None => None,
            }
        } else if tag == 13 {
            match parse_u64(r) {
                Some((x, r2)) => if x <= usize::MAX { Some((MessageView::FetchBlock(x as usize), r2)) } else { None },
                None => None,
            }
        } else if tag == 14 {
            match parse_block(r) { Some((b, r2)) => Some((MessageView::NewBlock(b), r2)), None => None }
        } else {
            None
        }
}

/// Reads a whole message; the bytes must hold exactly one.
pub open spec fn parse_message(s: Seq<u8>) -> Option<MessageView> {
    if s.len() == 0 {
        None
    } else {
        match parse_payload(s[0], s.skip(1)) {
            Some((m, rest)) => if rest.len() == 0 { Some(m) } else { None },
            None => None,
        }
    }
}

/// The tag byte of each kind of message.
pub open spec fn message_tag(m: MessageView) -> u8 {
    enc_message(m)[0]
}

/// Messages whose parts the encoding can carry (lengths below 2^64).
pub open spec fn message_encodable(m: MessageView) -> bool {
    match m {
        MessageView::FetchUTXOs(k) => k.len() <= u64::MAX,
        MessageView::UTXOs(v) => v.len() <= u64::MAX && forall|i: int| 0 <= i < v.len() ==> output_encodable(#[trigger] v[i].0),
        MessageView::SubmitTransaction(t) => transaction_encodable(t),
        MessageView::NewTransaction(t) => transaction_encodable(t),
        MessageView::FetchTemplate(k) => k.len() <= u64::MAX,
        MessageView::Template(b) => block_encodable(b),
        MessageView::ValidateTemplate(b) => block_encodable(b),
        MessageView::SubmitTemplate(b) => block_encodable(b),
        MessageView::NodeList(v) => v.len() <= u64::MAX && forall|i: int| 0 <= i < v.len() ==> (#[trigger] v[i]).len() <= u64::MAX,
        MessageView::NewBlock(b) => block_encodable(b),
        _ => true,
    }
}

/// Every message reads back, from its canonical encoding, as an equal message.
pub proof fn lemma_message_round_trip(m: MessageView)
    requires
        message_encodable(m),
    ensures
        parse_message(enc_message(m)) == Some(m),
{
    let e = Seq::<u8>::empty();
    let s = enc_message(m);
    let body = s.skip(1);
    assert(s.len() >= 1);
    lemma_payload_round_trip(m);
}

#[verifier::rlimit(60)]
proof fn lemma_payload_round_trip_low(m: MessageView)
    requires
        message_encodable(m),
        enc_message(m)[0] < 5,
    ensures
        parse_payload(enc_message(m)[0], enc_message(m).skip(1)) == Some((m, Seq::<u8>::empty())),
{
    let e = Seq::<u8>::empty();
    let s = enc_message(m);
    let body = s.skip(1);
    match m {
        MessageView::FetchUTXOs(k) => {
            assert(body =~= enc_bytes(k) + e);
            lemma_parse_bytes(k, e);
        },
        MessageView::UTXOs(v) => {
            let enc_f = |p: (OutputView, bool)| enc_utxo(p);
            let ok = |p: (OutputView, bool)| output_encodable(p.0);
            assert forall|x: (OutputView, bool), r: Seq<u8>| ok(x) implies #[trigger] utxo_parser()(enc_f(x) + r) == Some((x, r)) by {
                assert(enc_f(x) + r =~= enc_output(x.0) + (enc_bool(x.1) + r));
                lemma_parse_output(x.0, enc_bool(x.1) + r);
                assert((enc_bool(x.1) + r).skip(1) =~= r);
            }
            assert(body =~= enc_seq(v, enc_f) + e);
            lemma_parse_seq(v, e, enc_f, utxo_parser(), ok);
        },
        MessageView::SubmitTransaction(t) => {
            assert(body =~= enc_transaction(t) + e);
            lemma_transaction_round_trip(t, e);
        },
        MessageView::NewTransaction(t) => {
            assert(body =~= enc_transaction(t) + e);
            lemma_transaction_round_trip(t, e);
        },
        MessageView::FetchTemplate(k) => {
            assert(body =~= enc_bytes(k) + e);
            lemma_parse_bytes(k, e);
        },
        _ => {},
    }
}

#[verifier::rlimit(60)]
proof fn lemma_payload_round_trip_mid(m: MessageView)
    requires
        message_encodable(m),
        5 <= enc_message(m)[0] < 10,
    ensures
        parse_payload(enc_message(m)[0], enc_message(m).skip(1)) == Some((m, Seq::<u8>::empty())),
{
    let e = Seq::<u8>::empty();
    let s = enc_message(m);
    let body = s.skip(1);
    match m {
        MessageView::Template(b) => {
            assert(body =~= enc_block(b) + e);
            lemma_block_round_trip(b, e);
        },
        MessageView::ValidateTemplate(b) => {
            assert(body =~= enc_block(b) + e);
            lemma_block_round_trip(b, e);
        },
        MessageView::TemplateValidity(x) => {
            assert(body =~= enc_bool(x));
            assert(body.skip(1) =~= e);
        },
        MessageView::SubmitTemplate(b) => {
            assert(body =~= enc_block(b) + e);
            lemma_block_round_trip(b, e);
        },
        MessageView::DiscoverNodes => {
            assert(body =~= e);
        },
        _ => {},
    }
}

#[verifier::rlimit(60)]
proof fn lemma_payload_round_trip_high(m: MessageView)
    requires
        message_encodable(m),
        10 <= enc_message(m)[0],
    ensures
        parse_payload(enc_message(m)[0], enc_message(m).skip(1)) == Some((m, Seq::<u8>::empty())),
{
    let e = Seq::<u8>::empty();
    let s = enc_message(m);
    let body = s.skip(1);
    match m {
        MessageView::NodeList(v) => {
            let enc_f = |b: Seq<u8>| enc_bytes(b);
            let ok = |b: Seq<u8>| b.len() <= u64::MAX;
            assert forall|x: Seq<u8>, r: Seq<u8>| ok(x) implies #[trigger] bytes_parser()(enc_f(x) + r) == Some((x, r)) by {
                lemma_parse_bytes(x, r);
            }
            assert(body =~= enc_seq(v, enc_f) + e);
            lemma_parse_seq(v, e, enc_f, bytes_parser(), ok);
        },
        MessageView::AskDifference(x) => {
            assert(body =~= u64_be(x as u64) + e);
            lemma_parse_u64(x as u64, e);
        },
        MessageView::Difference(x) => {
            assert(body =~= u64_be((x as i64) as u64) + e);
            lemma_parse_u64((x as i64) as u64, e);
            assert((((x as i64) as u64) as i64) == x as i64) by (bit_vector);
        },
        MessageView::FetchBlock(x) => {
            assert(body =~= u64_be(x as u64) + e);
            lemma_parse_u64(x as u64, e);
        },
        MessageView::NewBlock(b) => {
            assert(body =~= enc_block(b) + e);
            lemma_block_round_trip(b, e);
        },
        _ => {},
    }
}

proof fn lemma_payload_round_trip(m: MessageView)
    requires
        message_encodable(m),
    ensures
        parse_payload(enc_message(m)[0], enc_message(m).skip(1)) == Some((m, Seq::<u8>::empty())),
{
    let t = enc_message(m)[0];
    if t < 5 {
        lemma_payload_round_trip_low(m);
    } else if t < 10 {
        lemma_payload_round_trip_mid(m);
    } else {
        lemma_payload_round_trip_high(m);
    }
}

fn decode_bool(data: &Vec<u8>, pos: &mut usize) -> (r: Option<bool>)
    requires
        *old(pos) <= data@.len(),
    ensures
        *final(pos) <= data@.len(),
        match parse_bool(data@.skip(*old(pos) as int)) {
            Some((x, rest)) => r == Some(x) && rest == data@.skip(*final(pos) as int),
            None => r is None,
        },
{
    if *pos < data.len() && data[*pos] <= 1 {
        let b = data[*pos] == 1;
        assert(data@.skip(*pos as int)[0] == data@[*pos as int]);
        assert(data@.skip(*pos as int).skip(1) =~= data@.skip(*pos + 1));
        *pos = *pos + 1;
        Some(b)
    } else {
        None
    }
}

fn decode_utxos(data: &Vec<u8>, pos: &mut usize) -> (r: Option<Vec<(TransactionOutput, bool)>>)
    requires
        *old(pos) <= data@.len(),
    ensures
        *final(pos) <= data@.len(),
        match parse_seq(data@.skip(*old(pos) as int), utxo_parser()) {
            Some((xs, rest)) => r matches Some(v) && utxo_views(v@) == xs && rest == data@.skip(*final(pos) as int),
            None => r is None,
        },
{
    let n = match decode_u64(data, pos) {
        Some(v) => v,
        None => {
            return None;
        },
    };
    let ghost r0 = data@.skip(*pos as int);
    let mut items: Vec<(TransactionOutput, bool)> = Vec::new();
    let mut k: u64 = 0;
    assert(utxo_views(items@) =~= Seq::<(OutputView, bool)>::empty());
    while k < n
        invariant
            *pos <= data@.len(),
            k <= n,
            parse_u64(data@.skip(*old(pos) as int)) == Some((n, r0)),
            crate::codec::parse_items(k as nat, r0, utxo_parser()) == Some((utxo_views(items@), data@.skip(*pos as int))),
        decreases n - k,
    {
        let ghost before = items@;
        let ghost p_before = *pos;
        let o = match decode_output(data, pos) {
            Some(o) => o,
            None => {
                proof { crate::codec::lemma_parse_items_fail_pub((k + 1) as nat, n as nat, r0, utxo_parser()); }
                return None;
            },
        };
        let b = match decode_bool(data, pos) {
            Some(b) => b,
            None => {
                proof { crate::codec::lemma_parse_items_fail_pub((k + 1) as nat, n as nat, r0, utxo_parser()); }
                return None;
            },
        };
        let ghost ov = o@;
        items.push((o, b));
        assert(utxo_views(items@) =~= utxo_views(before).push((ov, b)));
        k += 1;
    }
    Some(items)
}

fn decode_node_list(data: &Vec<u8>, pos: &mut usize) -> (r: Option<Vec<Vec<u8>>>)
    requires
        *old(pos) <= data@.len(),
    ensures
        *final(pos) <= data@.len(),
        match parse_seq(data@.skip(*old(pos) as int), bytes_parser()) {
            Some((xs, rest)) => r matches Some(v) && byte_views(v@) == xs && rest == data@.skip(*final(pos) as int),
            None => r is None,
        },
{
    let n = match decode_u64(data, pos) {
        Some(v) => v,
        None => {
            return None;
        },
    };
    let ghost r0 = data@.skip(*pos as int);
    let mut items: Vec<Vec<u8>> = Vec::new();
    let mut k: u64 = 0;
    assert(byte_views(items@) =~= Seq::<Seq<u8>>::empty());
    while k < n
        invariant
            *pos <= data@.len(),
            k <= n,
            parse_u64(data@.skip(*old(pos) as int)) == Some((n, r0)),
            crate::codec::parse_items(k as nat, r0, bytes_parser()) == Some((byte_views(items@), data@.skip(*pos as int))),
        decreases n - k,
    {
        let ghost before = items@;
        let ghost p_before = *pos;
        match decode_bytes(data, pos) {
            Some(x) => {
                let ghost xv = x@;
                items.push(x);
                assert(byte_views(items@) =~= byte_views(before).push(xv));
            },
            None => {
                proof { crate::codec::lemma_parse_items_fail_pub((k + 1) as nat, n as nat, r0, bytes_parser()); }
                return None;
            },
        }
        k += 1;
    }
    Some(items)
}

impl Message {
    /// The canonical encoding of the message.
    pub fn encode(&self) -> (r: Vec<u8>)
        ensures
            r@ == enc_message(self@),
    {
        let mut out: Vec<u8> = Vec::new();
        match self {
            Message::FetchUTXOs(k) => {
                out.push(0u8);
                crate::bytes::push_bytes(&mut out, k.as_bytes());
            },
            Message::UTXOs(v) => {
                out.push(1u8);
                crate::bytes::push_u64(&mut out, v.len() as u64);
                let ghost start = out@;
                let ghost vv = utxo_views(v@);
                let mut i: usize = 0;
                while i < v.len()
                    invariant
                        0 <= i <= v@.len(),
                        vv == utxo_views(v@),
                        out@ == start + concat_enc(vv.take(i as int), |p: (OutputView, bool)| enc_utxo(p)),
                    decreases v@.len() - i,
                {
                    proof {
                        crate::bytes::lemma_concat_enc_step(vv, |p: (OutputView, bool)| enc_utxo(p), i as int);
                    }
                    let ghost before = out@;
                    v[i].0.encode_into(&mut out);
                    out.push(if v[i].1 { 1u8 } else { 0u8 });
                    assert(out@ =~= before + enc_utxo(vv[i as int]));
                    i += 1;
                }
                assert(vv.take(i as int) =~= vv);
            },
            Message::SubmitTransaction(t) => {
                out.push(2u8);
                t.encode_into(&mut out);
            },
            Message::NewTransaction(t) => {
                out.push(3u8);
                t.encode_into(&mut out);
            },
            Message::FetchTemplate(k) => {
                out.push(4u8);
                crate::bytes::push_bytes(&mut out, k.as_bytes());
            },
            Message::Template(b) => {
                out.push(5u8);
                b.encode_into(&mut out);
            },
            Message::ValidateTemplate(b) => {
                out.push(6u8);
                b.encode_into(&mut out);
            },
            Message::TemplateValidity(x) => {
                out.push(7u8);
                out.push(if *x { 1u8 } else { 0u8 });
            },
            Message::SubmitTemplate(b) => {
                out.push(8u8);
                b.encode_into(&mut out);
            },
            Message::DiscoverNodes => {
                out.push(9u8);
            },
            Message::NodeList(v) => {
                out.push(10u8);
                crate::bytes::push_u64(&mut out, v.len() as u64);
                let ghost start = out@;
                let ghost vv = byte_views(v@);
                let mut i: usize = 0;
                while i < v.len()
                    invariant
                        0 <= i <= v@.len(),
                        vv == byte_views(v@),
                        out@ == start + concat_enc(vv.take(i as int), |b: Seq<u8>| enc_bytes(b)),
                    decreases v@.len() - i,
                {
                    proof {
                        crate::bytes::lemma_concat_enc_step(vv, |b: Seq<u8>| enc_bytes(b), i as int);
                    }
                    crate::bytes::push_bytes(&mut out, &v[i]);
                    i += 1;
                }
                assert(vv.take(i as int) =~= vv);
            },
            Message::AskDifference(x) => {
                out.push(11u8);
                crate::bytes::push_u64(&mut out, *x as u64);
            },
            Message::Difference(x) => {
                out.push(12u8);
                crate::bytes::push_u64(&mut out, (*x as i64) as u64);
            },
            Message::FetchBlock(x) => {
                out.push(13u8);
                crate::bytes::push_u64(&mut out, *x as u64);
            },
            Message::NewBlock(b) => {
                out.push(14u8);
                b.encode_into(&mut out);
            },
        }
        assert(out@ =~= enc_message(self@));
        out
    }

    /// Reads a message that fills `data` exactly.
    pub fn decode(data: &Vec<u8>) -> (r: Option<Message>)
        ensures
            match parse_message(data@) {
                Some(m) => r matches Some(x) && x@ == m,
                None => r is None,
            },
    {
        if data.len() == 0 {
            return None;
        }
        let tag = data[0];
        let mut pos: usize = 1;
        let m = if tag == 0 || tag == 4 {
            let k = match decode_bytes(data, &mut pos) {
                Some(k) => k,
                None => {
                    return None;
                },
            };
            let key = PublicKey::from_bytes(k);
            if tag == 0 { Message::FetchUTXOs(key) } else { Message::FetchTemplate(key) }
        } else if tag == 1 {
            match decode_utxos(data, &mut pos) {
                Some(v) => Message::UTXOs(v),
                None => {
                    return None;
                },
            }
        } else if tag == 2 || tag == 3 {
            let t = match decode_transaction(data, &mut pos) {
                Some(t) => t,
                None => {
                    return None;
                },
            };
            if tag == 2 { Message::SubmitTransaction(t) } else { Message::NewTransaction(t) }
        } else if tag == 5 || tag == 6 || tag == 8 || tag == 14 {
            let b = match decode_block_parts(data, &mut pos) {
                Some(b) => b,
                None => {
                    return None;
                },
            };
            if tag == 5 {
                Message::Template(b)
            } else if tag == 6 {
                Message::ValidateTemplate(b)
            } else if tag == 8 {
                Message::SubmitTemplate(b)
            } else {
                Message::NewBlock(b)
            }
        } else if tag == 7 {
            match decode_bool(data, &mut pos) {
                Some(x) => Message::TemplateValidity(x),
                None => {
                    return None;
                },
            }
        } else if tag == 9 {
            Message::DiscoverNodes
        } else if tag == 10 {
            match decode_node_list(data, &mut pos) {
                Some(v) => Message::NodeList(v),
                None => {
                    return None;
                },
            }
        } else if tag == 11 || tag == 12 || tag == 13 {
            let x = match decode_u64(data, &mut pos) {
                Some(x) => x,
                None => {
                    return None;
                },
            };
            if tag == 11 {
                if x > u32::MAX as u64 {
                    return None;
                }
                Message::AskDifference(x as u32)
            } else if tag == 12 {
                let y = x as i64;
                if y < i32::MIN as i64 || y > i32::MAX as i64 {
                    return None;
                }
                Message::Difference(y as i32)
            } else {
                if x > usize::MAX as u64 {
                    return None;
                }
                Message::FetchBlock(x as usize)
            }
        } else {
            return None;
        };
        if pos != data.len() {
            return None;
        }
        Some(m)
    }
}

} // verus!
