use btclib::block::{calculate_block_reward, Block};
use btclib::block_header::BlockHeader;
use btclib::blockchain::min_target;
use btclib::crypto::{PrivateKey, Signature};
use btclib::merkle_root::MerkleRoot;
use btclib::transaction::{Transaction, TransactionInput, TransactionOutput};
use btclib::u256::U256;
use btclib::utxo::UtxoSet;

fn new_unique_id() -> u128 {
    uuid::Uuid::new_v4().as_u128()
}

fn now_millis() -> i64 {
    chrono::Utc::now().timestamp_millis()
}

fn create_test_transaction(value: u64) -> Transaction {
    let private_key = PrivateKey::new();
    Transaction::new(
        vec![],
        vec![TransactionOutput::new(value, new_unique_id(), private_key.public_key())],
    )
}

fn create_test_merkle_root() -> MerkleRoot {
    MerkleRoot::calculate(&[create_test_transaction(1000)])
}

#[test]
fn test_transaction_new() {
    let tx = create_test_transaction(1000);
    assert_eq!(tx.inputs.len(), 0);
    assert_eq!(tx.outputs.len(), 1);
    assert_eq!(tx.outputs[0].value(), 1000);
}

#[test]
fn test_transaction_hash_deterministic() {
    let tx = create_test_transaction(1000);
    assert_eq!(tx.hash(), tx.hash());
}

#[test]
fn test_transaction_different_hashes() {
    let tx1 = create_test_transaction(1000);
    let tx2 = create_test_transaction(2000);
    assert_ne!(tx1.hash(), tx2.hash());
}

#[test]
fn test_transaction_empty_inputs_outputs() {
    let tx = Transaction::new(vec![], vec![]);
    assert_eq!(tx.inputs.len(), 0);
    assert_eq!(tx.outputs.len(), 0);
}

#[test]
fn test_transaction_input_creation() {
    let private_key = PrivateKey::default();
    let prev_hash = btclib::hash::Hash::zero();
    let signature = Signature::sign_output(&prev_hash, &private_key);
    let input = TransactionInput::new(prev_hash, signature);
    assert_eq!(*input.prev_transaction_output_hash(), btclib::hash::Hash::zero());
}

#[test]
fn test_transaction_input_signature_verification() {
    let private_key = PrivateKey::default();
    let public_key = private_key.public_key();
    let prev_hash = btclib::hash::Hash::zero();
    let signature = Signature::sign_output(&prev_hash, &private_key);
    assert!(signature.verify(&prev_hash, &public_key));
}

#[test]
fn test_transaction_output_creation() {
    let private_key = PrivateKey::default();
    let output = TransactionOutput::new(1000, new_unique_id(), private_key.public_key());
    assert_eq!(output.value(), 1000);
}

#[test]
fn test_transaction_output_hash_deterministic() {
    let private_key = PrivateKey::default();
    let output = TransactionOutput::new(1000, new_unique_id(), private_key.public_key());
    assert_eq!(output.hash(), output.hash());
}

#[test]
fn test_transaction_output_different_hashes() {
    let private_key = PrivateKey::default();
    let output1 = TransactionOutput::new(1000, new_unique_id(), private_key.public_key());
    let output2 = TransactionOutput::new(2000, new_unique_id(), private_key.public_key());
    assert_ne!(output1.hash(), output2.hash());
}

#[test]
fn output_hash_depends_on_unique_id_only_difference() {
    let private_key = PrivateKey::default();
    let a = TransactionOutput::new(5, 1, private_key.public_key());
    let b = TransactionOutput::new(5, 2, private_key.public_key());
    let a2 = TransactionOutput::new(5, 1, private_key.public_key());
    assert_ne!(a.hash(), b.hash());
    assert_eq!(a.hash(), a2.hash());
}

#[test]
fn test_merkle_root_single_transaction() {
    let merkle_root = MerkleRoot::calculate(&[create_test_transaction(1000)]);
    let merkle_root2 = MerkleRoot::calculate(&[create_test_transaction(1000)]);
    assert_ne!(merkle_root, merkle_root2);
}

#[test]
fn single_transaction_root_is_its_hash() {
    let tx = create_test_transaction(1000);
    assert_eq!(MerkleRoot::calculate(&[tx.clone()]), MerkleRoot(tx.hash()));
}

#[test]
fn empty_transaction_list_has_zero_root() {
    assert_eq!(MerkleRoot::calculate(&[]), MerkleRoot(btclib::hash::Hash::zero()));
}

#[test]
fn test_merkle_root_same_transaction() {
    let tx = create_test_transaction(1000);
    assert_eq!(MerkleRoot::calculate(&[tx.clone()]), MerkleRoot::calculate(&[tx]));
}

#[test]
fn test_merkle_root_two_transactions() {
    let tx1 = create_test_transaction(1000);
    let tx2 = create_test_transaction(2000);
    let merkle_root = MerkleRoot::calculate(&[tx1.clone(), tx2.clone()]);
    assert_eq!(merkle_root, MerkleRoot::calculate(&[tx1, tx2]));
}

#[test]
fn test_merkle_root_odd_number_transactions() {
    let tx1 = create_test_transaction(1000);
    let tx2 = create_test_transaction(2000);
    let tx3 = create_test_transaction(3000);
    let merkle_root = MerkleRoot::calculate(&[tx1.clone(), tx2.clone(), tx3.clone()]);
    assert_eq!(merkle_root, MerkleRoot::calculate(&[tx1, tx2, tx3]));
}

#[test]
fn test_merkle_root_order_matters() {
    let tx1 = create_test_transaction(1000);
    let tx2 = create_test_transaction(2000);
    let merkle_root1 = MerkleRoot::calculate(&[tx1.clone(), tx2.clone()]);
    let merkle_root2 = MerkleRoot::calculate(&[tx2, tx1]);
    assert_ne!(merkle_root1, merkle_root2);
}

#[test]
fn test_merkle_root_many_transactions() {
    let transactions: Vec<Transaction> = (0..8).map(|i| create_test_transaction(i * 1000)).collect();
    let merkle_root = MerkleRoot::calculate(&transactions);
    assert_eq!(merkle_root, MerkleRoot::calculate(&transactions));
}

#[test]
fn test_merkle_root_clone_and_eq() {
    let merkle_root = MerkleRoot::calculate(&[create_test_transaction(1000)]);
    let cloned = merkle_root.clone();
    assert_eq!(merkle_root, cloned);
}

#[test]
fn test_merkle_root_debug_format() {
    let merkle_root = MerkleRoot::calculate(&[create_test_transaction(1000)]);
    let debug_str = format!("{:?}", merkle_root);
    assert!(debug_str.contains("MerkleRoot"));
}

#[test]
fn test_block_header_creation() {
    let header = BlockHeader::new(now_millis(), 0, btclib::hash::Hash::zero(), create_test_merkle_root(), min_target());
    assert_eq!(header.nonce, 0);
    assert_eq!(header.prev_block_hash, btclib::hash::Hash::zero());
    assert_eq!(header.target, min_target());
}

#[test]
fn test_block_header_hash_deterministic() {
    let header = BlockHeader::new(now_millis(), 0, btclib::hash::Hash::zero(), create_test_merkle_root(), min_target());
    assert_eq!(header.hash(), header.hash());
}

#[test]
fn test_block_header_nonce_increment() {
    let target = U256::from_limbs([
        0xFFFF_FFFF_FFFF_FFFF,
        0xFFFF_FFFF_FFFF_FFFF,
        0xFFFF_FFFF_FFFF_FFFF,
        0x0000_0000_0000_00FF,
    ]);
    let mut header = BlockHeader::new(now_millis(), 0, btclib::hash::Hash::zero(), create_test_merkle_root(), target);
    let initial_nonce = header.nonce;
    header.mine(100000);
    assert_ne!(header.nonce, initial_nonce);
}

#[test]
fn test_block_header_mine_with_easy_target() {
    let easy_target = U256::max_value().div_rem_u64(100).0;
    let mut header = BlockHeader::new(now_millis(), 0, btclib::hash::Hash::zero(), create_test_merkle_root(), easy_target);
    let result = header.mine(100000);
    assert!(result);
    assert!(header.hash().matches_target(header.target));
}

#[test]
fn test_block_header_different_nonce_different_hash() {
    let timestamp = now_millis();
    let merkle_root = create_test_merkle_root();
    let header1 = BlockHeader::new(timestamp, 0, btclib::hash::Hash::zero(), merkle_root, min_target());
    let header2 = BlockHeader::new(timestamp, 1, btclib::hash::Hash::zero(), merkle_root, min_target());
    assert_ne!(header1.hash(), header2.hash());
}

fn create_block(transactions: Vec<Transaction>) -> Block {
    let merkle_root = MerkleRoot::calculate(&transactions);
    let header = BlockHeader::new(now_millis(), 0, btclib::hash::Hash::zero(), merkle_root, min_target());
    Block::new(header, transactions)
}

#[test]
fn block_test_block_creation() {
    let block = create_block(vec![create_test_transaction(5000000000)]);
    assert_eq!(block.transactions().len(), 1);
}

#[test]
fn test_block_hash_deterministic() {
    let block = create_block(vec![create_test_transaction(5000000000)]);
    assert_eq!(block.hash(), block.hash());
}

#[test]
fn test_block_verify_empty_transactions() {
    let block = create_block(vec![]);
    let utxos = UtxoSet::new();
    assert!(block.verify_transactions(0, &utxos).is_err());
}

#[test]
fn test_block_verify_coinbase_no_inputs() {
    let block = create_block(vec![create_test_transaction(5000000000)]);
    let utxos = UtxoSet::new();
    assert!(block.verify_coinbase_transaction(0, &utxos).is_ok());
}

#[test]
fn test_calculated_miner_fees_no_transactions() {
    let block = create_block(vec![create_test_transaction(5000000000)]);
    let utxos = UtxoSet::new();
    let fees = block.calculated_miner_fees(&utxos);
    assert!(fees.is_ok());
    assert_eq!(fees.unwrap(), 0);
}

#[test]
fn coinbase_paying_wrong_reward_is_invalid() {
    let block = create_block(vec![create_test_transaction(5000000001)]);
    let utxos = UtxoSet::new();
    assert_eq!(
        block.verify_coinbase_transaction(0, &utxos),
        Err(btclib::error::BtcError::InvalidTransaction)
    );
}

#[test]
fn halving_schedule() {
    assert_eq!(calculate_block_reward(0), 5_000_000_000);
    assert_eq!(calculate_block_reward(209_999), 5_000_000_000);
    assert_eq!(calculate_block_reward(210_000), 2_500_000_000);
    assert_eq!(calculate_block_reward(420_000), 1_250_000_000);
    assert_eq!(calculate_block_reward(u64::MAX), 0);
}

#[test]
fn signature_rejects_other_hash_or_key() {
    let sk = PrivateKey::new();
    let other = PrivateKey::new();
    let h = create_test_transaction(1).hash();
    let sig = Signature::sign_output(&h, &sk);
    assert!(sig.verify(&h, &sk.public_key()));
    assert!(!sig.verify(&btclib::hash::Hash::zero(), &sk.public_key()));
    assert!(!sig.verify(&h, &other.public_key()));
}

#[test]
fn hash_of_known_bytes() {
    let h = btclib::hash::Hash::hash(&b"hello".to_vec());
    let bytes = h.as_bytes();
    assert_eq!(bytes.len(), 32);
    assert_eq!(bytes[0], 0x2c);
    assert_eq!(bytes[31], 0x24);
    assert_eq!(h.0.w3, 0x2cf24dba5fb0a30e);
}

#[test]
fn matches_target_is_less_or_equal() {
    let h = btclib::hash::Hash(U256::from_limbs([5, 0, 0, 0]));
    assert!(h.matches_target(U256::from_limbs([5, 0, 0, 0])));
    assert!(h.matches_target(U256::from_limbs([0, 1, 0, 0])));
    assert!(!h.matches_target(U256::from_limbs([4, 0, 0, 0])));
}

#[test]
fn u256_arithmetic() {
    let max = U256::max_value();
    assert_eq!(max.checked_add_u64(1), None);
    assert_eq!(max.checked_mul_u64(2), None);
    let (q, r) = U256::from_limbs([10, 0, 0, 1]).div_rem_u64(4);
    assert_eq!(q, U256::from_limbs([2, 0, 0x4000_0000_0000_0000, 0]));
    assert_eq!(r, 2);
    assert_eq!(U256::from_limbs([3, 0, 0, 0]).checked_mul_u64(4), Some(U256::from_limbs([12, 0, 0, 0])));
    assert!(U256::from_limbs([0, 0, 0, 1]).lt(&U256::from_limbs([0, 0, 0, 2])));
}

#[test]
fn test_transaction_serialization() {
    let tx = create_test_transaction(1000);
    let buffer = tx.encode();
    let loaded_tx = Transaction::decode(&buffer).expect("Failed to deserialize transaction");
    assert_eq!(tx.outputs.len(), loaded_tx.outputs.len());
    assert_eq!(tx.outputs[0].value(), loaded_tx.outputs[0].value());
    assert_eq!(tx.hash(), loaded_tx.hash());
}

#[test]
fn test_block_serialization() {
    let block = create_block(vec![create_test_transaction(5000000000)]);
    let buffer = block.encode();
    let loaded_block = Block::decode(&buffer).expect("Failed to deserialize block");
    assert_eq!(block.transactions().len(), loaded_block.transactions().len());
    assert_eq!(block.hash(), loaded_block.hash());
}

#[test]
fn decoding_rejects_trailing_and_truncated_bytes() {
    let tx = create_test_transaction(7);
    let mut longer = tx.encode();
    longer.push(0);
    assert!(Transaction::decode(&longer).is_none());
    let mut shorter = tx.encode();
    shorter.pop();
    assert!(Transaction::decode(&shorter).is_none());
}

#[test]
fn secret_key_bytes_must_be_in_range() {
    assert!(PrivateKey::from_bytes(vec![0u8; 32]).is_none());
    assert!(PrivateKey::from_bytes(vec![1u8; 23]).is_none());
    assert!(PrivateKey::from_bytes(vec![1u8; 24]).is_some());
    assert!(PrivateKey::from_bytes(vec![1u8; 32]).is_some());
    assert!(PrivateKey::from_bytes(vec![1u8; 33]).is_none());
    let order = vec![
        0xFF, 0xFF, 0xFF, 0xFF, 0xFF, 0xFF, 0xFF, 0xFF, 0xFF, 0xFF, 0xFF, 0xFF, 0xFF, 0xFF, 0xFF, 0xFE,
        0xBA, 0xAE, 0xDC, 0xE6, 0xAF, 0x48, 0xA0, 0x3B, 0xBF, 0xD2, 0x5E, 0x8C, 0xD0, 0x36, 0x41, 0x41,
    ];
    assert!(PrivateKey::from_bytes(order.clone()).is_none());
    let mut below = order;
    below[31] = 0x40;
    assert!(PrivateKey::from_bytes(below).is_some());
}
