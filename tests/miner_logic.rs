use btclib::block::Block;
use btclib::block_header::BlockHeader;
use btclib::blockchain::{min_target, Blockchain};
use btclib::crypto::PrivateKey;
use btclib::merkle_root::MerkleRoot;
use btclib::message::Message;
use btclib::miner::{miner_step, MinerAction, MinerEvent, MinerState};
use btclib::transaction::{Transaction, TransactionOutput};
use btclib::u256::U256;
use btclib::wallet::{get_balance, OwnedUtxo};

fn new_unique_id() -> u128 {
    uuid::Uuid::new_v4().as_u128()
}

fn block() -> Block {
    let key = PrivateKey::new();
    let txs = vec![Transaction::new(vec![], vec![TransactionOutput::new(1, new_unique_id(), key.public_key())])];
    let root = MerkleRoot::calculate(&txs);
    Block::new(BlockHeader::new(1_000, 0, btclib::hash::Hash::zero(), root, min_target()), txs)
}

#[test]
fn tick_while_idle_fetches_a_template() {
    let key = PrivateKey::new().public_key();
    let (state, action) = miner_step(MinerState { mining: false, template: None }, &key, MinerEvent::Tick);
    assert!(!state.mining);
    match action {
        MinerAction::Send(Message::FetchTemplate(k)) => assert!(k == key),
        _ => panic!("expected FetchTemplate"),
    }
}

#[test]
fn template_starts_mining_and_tick_revalidates() {
    let key = PrivateKey::new().public_key();
    let b = block();
    let h = b.hash();
    let (state, action) = miner_step(MinerState { mining: false, template: None }, &key, MinerEvent::Template(b));
    assert!(state.mining);
    assert!(matches!(action, MinerAction::Wait));
    let (state, action) = miner_step(state, &key, MinerEvent::Tick);
    match action {
        MinerAction::Send(Message::ValidateTemplate(t)) => assert_eq!(t.hash(), h),
        _ => panic!("expected ValidateTemplate"),
    }
    let (state, _) = miner_step(state, &key, MinerEvent::Validity(true));
    assert!(state.mining);
    let (state, _) = miner_step(state, &key, MinerEvent::Validity(false));
    assert!(!state.mining);
}

#[test]
fn mined_block_is_submitted_and_unexpected_fails() {
    let key = PrivateKey::new().public_key();
    let b = block();
    let h = b.hash();
    let (state, action) = miner_step(MinerState { mining: true, template: None }, &key, MinerEvent::Mined(b));
    assert!(!state.mining);
    match action {
        MinerAction::Send(Message::SubmitTemplate(s)) => assert_eq!(s.hash(), h),
        _ => panic!("expected SubmitTemplate"),
    }
    let (_, action) = miner_step(state, &key, MinerEvent::Unexpected);
    assert!(matches!(action, MinerAction::Fail));
}

#[test]
fn failed_mining_tries_exactly_the_step_budget() {
    let impossible = U256::zero();
    let mut header = BlockHeader::new(1_000, 7, btclib::hash::Hash::zero(), MerkleRoot(btclib::hash::Hash::zero()), impossible);
    assert!(!header.mine(50));
    assert_eq!(header.nonce, 57);
    assert_eq!(header.timestamp, 1_000);
}

#[test]
fn public_keys_are_ordered_by_encoding() {
    let a = btclib::crypto::PublicKey::from_bytes(vec![2, 1, 2]);
    let b = btclib::crypto::PublicKey::from_bytes(vec![2, 1, 3]);
    let c = btclib::crypto::PublicKey::from_bytes(vec![2, 1]);
    assert!(a.precedes(&b));
    assert!(!b.precedes(&a));
    assert!(c.precedes(&a));
    assert!(!a.precedes(&a));
}

#[test]
fn test_core_get_balance_with_utxos() {
    let key = PrivateKey::default();
    let utxos: Vec<OwnedUtxo> = [100u64, 200, 300]
        .iter()
        .map(|v| OwnedUtxo { key_index: 0, reserved: false, output: TransactionOutput::new(*v, new_unique_id(), key.public_key()) })
        .collect();
    assert_eq!(get_balance(&utxos), 600);
    assert_eq!(get_balance(&vec![]), 0);
}

#[test]
fn utxos_owned_by_a_key() {
    let key = PrivateKey::new();
    let other = PrivateKey::new();
    let mine = TransactionOutput::new(5_000_000_000, new_unique_id(), key.public_key());
    let txs = vec![Transaction::new(vec![], vec![mine.clone(), TransactionOutput::new(3, new_unique_id(), other.public_key())])];
    let root = MerkleRoot::calculate(&txs);
    let mut chain = Blockchain::new();
    chain.add_block(Block::new(BlockHeader::new(1_000, 0, btclib::hash::Hash::zero(), root, min_target()), txs)).unwrap();
    chain.rebuild_utxos();
    assert_eq!(chain.utxos().len(), 2);
    let owned = chain.utxos().owned_by(&key.public_key());
    assert_eq!(owned.len(), 1);
    assert_eq!(owned[0].0.hash(), mine.hash());
    assert!(!owned[0].1);
}
