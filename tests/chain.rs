use btclib::block::Block;
use btclib::block_header::BlockHeader;
use btclib::blockchain::{min_target, retarget_exec, Blockchain};
use btclib::crypto::{PrivateKey, Signature};
use btclib::error::BtcError;
use btclib::merkle_root::MerkleRoot;
use btclib::transaction::{Transaction, TransactionInput, TransactionOutput};
use btclib::u256::U256;

fn new_unique_id() -> u128 {
    uuid::Uuid::new_v4().as_u128()
}

fn now_millis() -> i64 {
    chrono::Utc::now().timestamp_millis()
}

fn create_coinbase_transaction(value: u64) -> Transaction {
    let private_key = PrivateKey::default();
    Transaction::new(
        vec![],
        vec![TransactionOutput::new(value, new_unique_id(), private_key.public_key())],
    )
}

fn create_genesis_block() -> Block {
    let transactions = vec![create_coinbase_transaction(5000000000)];
    let merkle_root = MerkleRoot::calculate(&transactions);
    let header = BlockHeader::new(now_millis(), 0, btclib::hash::Hash::zero(), merkle_root, min_target());
    Block::new(header, transactions)
}

fn create_mined_genesis_block() -> Block {
    let transactions = vec![create_coinbase_transaction(5000000000)];
    let merkle_root = MerkleRoot::calculate(&transactions);
    let mut header = BlockHeader::new(now_millis(), 0, btclib::hash::Hash::zero(), merkle_root, min_target());
    header.mine(1000000);
    Block::new(header, transactions)
}

#[test]
fn test_blockchain_new() {
    let blockchain = Blockchain::default();
    assert_eq!(blockchain.block_height(), 0);
    assert_eq!(blockchain.blocks().len(), 0);
    assert_eq!(blockchain.mempool().len(), 0);
}

#[test]
fn test_blockchain_add_genesis_block() {
    let mut blockchain = Blockchain::default();
    let result = blockchain.add_block(create_genesis_block());
    assert!(result.is_ok());
    assert_eq!(blockchain.block_height(), 1);
}

#[test]
fn test_blockchain_reject_invalid_prev_hash() {
    let mut blockchain = Blockchain::default();
    let transactions = vec![create_coinbase_transaction(5000000000)];
    let merkle_root = MerkleRoot::calculate(&transactions);
    let header = BlockHeader::new(
        now_millis(),
        0,
        btclib::hash::Hash::hash(&b"invalid".to_vec()),
        merkle_root,
        min_target(),
    );
    let result = blockchain.add_block(Block::new(header, transactions));
    assert!(result.is_err());
}

#[test]
fn test_blockchain_reject_invalid_target() {
    let mut blockchain = Blockchain::default();
    blockchain.add_block(create_mined_genesis_block()).unwrap();
    let transactions = vec![create_coinbase_transaction(5000000000)];
    let merkle_root = MerkleRoot::calculate(&transactions);
    let last_hash = blockchain.blocks().last().unwrap().header().hash();
    let mut header = BlockHeader::new(now_millis() + 1000, 0, last_hash, merkle_root, min_target());
    while header.hash().matches_target(header.target) {
        header.nonce += 1;
    }
    let result = blockchain.add_block(Block::new(header, transactions));
    assert!(result.is_err());
}

#[test]
fn test_blockchain_reject_invalid_merkle_root() {
    let mut blockchain = Blockchain::default();
    blockchain.add_block(create_mined_genesis_block()).unwrap();
    let transactions = vec![create_coinbase_transaction(5000000000)];
    let wrong_merkle = MerkleRoot::calculate(&[create_coinbase_transaction(1000)]);
    let last_hash = blockchain.blocks().last().unwrap().header().hash();
    let mut header = BlockHeader::new(now_millis() + 1000, 0, last_hash, wrong_merkle, min_target());
    header.mine(1000000);
    let result = blockchain.add_block(Block::new(header, transactions));
    assert!(result.is_err());
}

#[test]
fn test_blockchain_reject_invalid_timestamp() {
    let mut blockchain = Blockchain::default();
    let first_block = create_mined_genesis_block();
    let first_timestamp = first_block.header().timestamp();
    blockchain.add_block(first_block).unwrap();
    let transactions = vec![create_coinbase_transaction(5000000000)];
    let merkle_root = MerkleRoot::calculate(&transactions);
    let last_hash = blockchain.blocks().last().unwrap().header().hash();
    let mut header = BlockHeader::new(first_timestamp - 1000, 0, last_hash, merkle_root, min_target());
    header.mine(1000000);
    let result = blockchain.add_block(Block::new(header, transactions));
    assert!(result.is_err());
}

#[test]
fn test_blockchain_utxos() {
    let blockchain = Blockchain::default();
    assert_eq!(blockchain.utxos().len(), 0);
}

#[test]
fn test_blockchain_target() {
    let blockchain = Blockchain::default();
    assert_eq!(blockchain.target(), min_target());
}

#[test]
fn test_blockchain_rebuild_utxos() {
    let mut blockchain = Blockchain::default();
    blockchain.rebuild_utxos();
    assert_eq!(blockchain.utxos().len(), 0);
}

#[test]
fn test_blockchain_rebuild_utxos_with_blocks() {
    let mut blockchain = Blockchain::default();
    blockchain.add_block(create_genesis_block()).unwrap();
    assert_eq!(blockchain.utxos().len(), 0);
    blockchain.rebuild_utxos();
    assert!(blockchain.utxos().len() > 0);
}

#[test]
fn test_blockchain_cleanup_mempool() {
    let mut blockchain = Blockchain::default();
    blockchain.cleanup_mempool();
    assert_eq!(blockchain.mempool().len(), 0);
}

#[test]
fn test_blockchain_add_transaction_to_mempool_no_utxos() {
    let mut blockchain = Blockchain::default();
    let private_key = PrivateKey::default();
    let fake_hash = btclib::hash::Hash::zero();
    let signature = Signature::sign_output(&fake_hash, &private_key);
    let tx = Transaction::new(
        vec![TransactionInput::new(fake_hash, signature)],
        vec![TransactionOutput::new(1000, new_unique_id(), private_key.public_key())],
    );
    assert!(blockchain.add_transaction_to_mempool(tx).is_err());
}

#[test]
fn test_blockchain_add_transaction_duplicate_inputs() {
    let mut blockchain = Blockchain::default();
    blockchain.add_block(create_genesis_block()).unwrap();
    blockchain.rebuild_utxos();
    let private_key = PrivateKey::default();
    let utxo_hash = blockchain.utxos().entries()[0].hash;
    let signature = Signature::sign_output(&utxo_hash, &private_key);
    let tx = Transaction::new(
        vec![
            TransactionInput::new(utxo_hash, signature.clone()),
            TransactionInput::new(utxo_hash, signature),
        ],
        vec![TransactionOutput::new(1000, new_unique_id(), private_key.public_key())],
    );
    assert!(blockchain.add_transaction_to_mempool(tx).is_err());
}

#[test]
fn test_blockchain_add_transaction_invalid_value() {
    let mut blockchain = Blockchain::default();
    blockchain.add_block(create_genesis_block()).unwrap();
    blockchain.rebuild_utxos();
    let private_key = PrivateKey::default();
    let entry = blockchain.utxos().entries()[0].clone();
    let signature = Signature::sign_output(&entry.hash, &private_key);
    let tx = Transaction::new(
        vec![TransactionInput::new(entry.hash, signature)],
        vec![TransactionOutput::new(entry.output.value() + 1000, new_unique_id(), private_key.public_key())],
    );
    assert!(blockchain.add_transaction_to_mempool(tx).is_err());
}

#[test]
fn test_blockchain_add_valid_transaction_to_mempool() {
    let mut blockchain = Blockchain::default();
    blockchain.add_block(create_genesis_block()).unwrap();
    blockchain.rebuild_utxos();
    let private_key = PrivateKey::default();
    let entry = blockchain.utxos().entries()[0].clone();
    let signature = Signature::sign_output(&entry.hash, &private_key);
    let tx = Transaction::new(
        vec![TransactionInput::new(entry.hash, signature)],
        vec![TransactionOutput::new(entry.output.value() - 100, new_unique_id(), private_key.public_key())],
    );
    assert!(blockchain.add_transaction_to_mempool(tx).is_ok());
    assert_eq!(blockchain.mempool().len(), 1);
    assert_eq!(blockchain.mempool()[0].fee, 100);
}

#[test]
fn test_blockchain_try_adjust_target_empty() {
    let mut blockchain = Blockchain::default();
    let initial_target = blockchain.target();
    blockchain.try_adjust_target();
    assert_eq!(blockchain.target(), initial_target);
}

#[test]
fn test_blockchain_try_adjust_target_not_at_interval() {
    let mut blockchain = Blockchain::default();
    blockchain.add_block(create_genesis_block()).unwrap();
    let initial_target = blockchain.target();
    blockchain.try_adjust_target();
    assert_eq!(blockchain.target(), initial_target);
}

#[test]
fn test_blockchain_blocks_accessor() {
    let mut blockchain = Blockchain::default();
    assert_eq!(blockchain.blocks().len(), 0);
    blockchain.add_block(create_genesis_block()).unwrap();
    assert_eq!(blockchain.blocks().len(), 1);
}

#[test]
fn test_blockchain_mempool_accessor() {
    let blockchain = Blockchain::default();
    assert_eq!(blockchain.mempool().len(), 0);
}

/// A block paying `reward + fees` to a fresh key on top of `chain`, mined.
fn next_block(chain: &Blockchain, timestamp: i64, extra: Vec<Transaction>, fees: u64) -> Block {
    let reward = chain.calculate_block_reward();
    let mut transactions = vec![create_coinbase_transaction(reward + fees)];
    transactions.extend(extra);
    let merkle_root = MerkleRoot::calculate(&transactions);
    let last_hash = chain.blocks().last().unwrap().header().hash();
    let mut header = BlockHeader::new(timestamp, 0, last_hash, merkle_root, chain.target());
    assert!(header.mine(10_000_000));
    Block::new(header, transactions)
}

#[test]
fn genesis_acceptance() {
    let key = PrivateKey::new();
    let transactions = vec![Transaction::new(
        vec![],
        vec![TransactionOutput::new(50 * 100_000_000, new_unique_id(), key.public_key())],
    )];
    let merkle_root = MerkleRoot::calculate(&transactions);
    let header = BlockHeader::new(now_millis(), 0, btclib::hash::Hash::zero(), merkle_root, min_target());
    let mut chain = Blockchain::new();
    assert_eq!(chain.add_block(Block::new(header, transactions)), Ok(()));
    assert_eq!(chain.block_height(), 1);
}

#[test]
fn pow_gate_rejects_hash_above_target() {
    let mut chain = Blockchain::new();
    chain.add_block(create_genesis_block()).unwrap();
    let transactions = vec![create_coinbase_transaction(5000000000)];
    let merkle_root = MerkleRoot::calculate(&transactions);
    let last_hash = chain.blocks()[0].header().hash();
    let ts = chain.blocks()[0].header().timestamp() + 1000;
    let mut header = BlockHeader::new(ts, 0, last_hash, merkle_root, min_target());
    while header.hash().matches_target(min_target()) {
        header.nonce += 1;
    }
    assert_eq!(chain.add_block(Block::new(header, transactions)), Err(BtcError::InvalidBlock));
    assert_eq!(chain.block_height(), 1);
}

#[test]
fn second_block_accepted_and_equal_timestamp_rejected() {
    let mut chain = Blockchain::new();
    chain.add_block(create_genesis_block()).unwrap();
    chain.rebuild_utxos();
    let ts = chain.blocks()[0].header().timestamp();
    let same_time = next_block(&chain, ts, vec![], 0);
    assert_eq!(chain.add_block(same_time), Err(BtcError::InvalidBlockHeader));
    let later = next_block(&chain, ts + 1000, vec![], 0);
    assert_eq!(chain.add_block(later), Ok(()));
    assert_eq!(chain.block_height(), 2);
    assert!(chain.blocks()[1].header().hash().matches_target(chain.blocks()[1].header().target));
}

#[test]
fn empty_block_rejected_after_genesis() {
    let mut chain = Blockchain::new();
    chain.add_block(create_genesis_block()).unwrap();
    let ts = chain.blocks()[0].header().timestamp() + 1000;
    let last_hash = chain.blocks()[0].header().hash();
    let mut header = BlockHeader::new(ts, 0, last_hash, MerkleRoot::calculate(&[]), min_target());
    assert!(header.mine(10_000_000));
    assert_eq!(chain.add_block(Block::new(header, vec![])), Err(BtcError::InvalidTransaction));
}

#[test]
fn wrong_parent_rejected_as_invalid_block() {
    let mut chain = Blockchain::new();
    chain.add_block(create_genesis_block()).unwrap();
    let ts = chain.blocks()[0].header().timestamp() + 1000;
    let transactions = vec![create_coinbase_transaction(5000000000)];
    let merkle_root = MerkleRoot::calculate(&transactions);
    let mut header = BlockHeader::new(ts, 0, btclib::hash::Hash::zero(), merkle_root, min_target());
    assert!(header.mine(10_000_000));
    assert_eq!(chain.add_block(Block::new(header, transactions)), Err(BtcError::InvalidBlock));
}

/// A genesis block paying `key`, the chain built on it and the UTXO key of that payment.
fn funded_chain(key: &PrivateKey) -> (Blockchain, btclib::hash::Hash, u64) {
    let output = TransactionOutput::new(5000000000, new_unique_id(), key.public_key());
    let utxo_hash = output.hash();
    let transactions = vec![Transaction::new(vec![], vec![output])];
    let merkle_root = MerkleRoot::calculate(&transactions);
    let header = BlockHeader::new(now_millis(), 0, btclib::hash::Hash::zero(), merkle_root, min_target());
    let mut chain = Blockchain::new();
    chain.add_block(Block::new(header, transactions)).unwrap();
    chain.rebuild_utxos();
    (chain, utxo_hash, 5000000000)
}

fn spend(key: &PrivateKey, utxo: btclib::hash::Hash, value: u64) -> Transaction {
    Transaction::new(
        vec![TransactionInput::new(utxo, Signature::sign_output(&utxo, key))],
        vec![TransactionOutput::new(value, new_unique_id(), key.public_key())],
    )
}

#[test]
fn double_spend_within_block_is_detected() {
    let key = PrivateKey::new();
    let (mut chain, utxo, _) = funded_chain(&key);
    let ts = chain.blocks()[0].header().timestamp() + 1000;
    let tx = Transaction::new(
        vec![
            TransactionInput::new(utxo, Signature::sign_output(&utxo, &key)),
            TransactionInput::new(utxo, Signature::sign_output(&utxo, &key)),
        ],
        vec![TransactionOutput::new(1, new_unique_id(), key.public_key())],
    );
    let block = next_block(&chain, ts, vec![tx], 0);
    assert_eq!(chain.add_block(block), Err(BtcError::DoubleSpending));
}

#[test]
fn spending_block_accepted_and_index_rebuilt() {
    let key = PrivateKey::new();
    let (mut chain, utxo, value) = funded_chain(&key);
    let ts = chain.blocks()[0].header().timestamp() + 1000;
    let tx = spend(&key, utxo, value - 10);
    let paid = tx.outputs[0].hash();
    let block = next_block(&chain, ts, vec![tx], 10);
    assert_eq!(chain.add_block(block), Ok(()));
    chain.rebuild_utxos();
    assert!(!chain.utxos().contains_key(&utxo));
    assert!(chain.utxos().contains_key(&paid));
    assert_eq!(chain.utxos().len(), 2);
}

#[test]
fn bad_signature_rejected() {
    let key = PrivateKey::new();
    let thief = PrivateKey::new();
    let (mut chain, utxo, value) = funded_chain(&key);
    let ts = chain.blocks()[0].header().timestamp() + 1000;
    let tx = spend(&thief, utxo, value);
    let block = next_block(&chain, ts, vec![tx], 0);
    assert_eq!(chain.add_block(block), Err(BtcError::InvalidSignature));
}

#[test]
fn mempool_displaces_conflicting_spender() {
    let key = PrivateKey::new();
    let (mut chain, utxo, value) = funded_chain(&key);
    let a = spend(&key, utxo, value - 10);
    let a_hash = a.hash();
    assert_eq!(chain.add_transaction_to_mempool(a), Ok(()));
    chain.set_reserved(&utxo, true);
    assert!(chain.utxos().get(&utxo).unwrap().reserved);
    let b = spend(&key, utxo, value - 20);
    let b_hash = b.hash();
    assert_eq!(chain.add_transaction_to_mempool(b), Ok(()));
    assert_eq!(chain.mempool().len(), 1);
    assert_eq!(chain.mempool()[0].transaction.hash(), b_hash);
    assert_ne!(a_hash, b_hash);
    assert!(!chain.utxos().get(&utxo).unwrap().reserved);
}

#[test]
fn mempool_orders_by_descending_fee_and_expires() {
    let key = PrivateKey::new();
    let (mut chain, utxo, value) = funded_chain(&key);
    let low = spend(&key, utxo, value - 1);
    let high = spend(&key, utxo, value - 50);
    assert_eq!(chain.add_transaction_to_mempool_at(low, 1_000), Ok(()));
    assert_eq!(chain.add_transaction_to_mempool_at(high, 2_000), Ok(()));
    assert_eq!(chain.mempool()[0].fee, 50);
    assert_eq!(chain.mempool()[1].fee, 1);
    chain.cleanup_mempool_at(1_000 + 600_999);
    assert_eq!(chain.mempool().len(), 2);
    chain.cleanup_mempool_at(1_000 + 601_000);
    assert_eq!(chain.mempool().len(), 1);
    assert_eq!(chain.mempool()[0].timestamp, 2_000);
}

#[test]
fn mined_transactions_leave_mempool() {
    let key = PrivateKey::new();
    let (mut chain, utxo, value) = funded_chain(&key);
    let tx = spend(&key, utxo, value - 10);
    assert_eq!(chain.add_transaction_to_mempool(tx.clone()), Ok(()));
    assert_eq!(chain.mempool().len(), 1);
    let ts = chain.blocks()[0].header().timestamp() + 1000;
    let block = next_block(&chain, ts, vec![tx], 10);
    assert_eq!(chain.add_block(block), Ok(()));
    assert_eq!(chain.mempool().len(), 0);
}

#[test]
fn retarget_halves_when_blocks_come_twice_as_fast() {
    let target = min_target();
    let half_ideal: i128 = 600 * 2016 / 2;
    let expected = target.div_rem_u64(2).0;
    assert_eq!(retarget_exec(target, half_ideal), expected);
}

#[test]
fn retarget_clamps_to_easiest_target() {
    let target = min_target();
    assert_eq!(retarget_exec(target, 600 * 2016 * 10), min_target());
    let small = U256::from_limbs([1_000_000, 0, 0, 0]);
    assert_eq!(retarget_exec(small, 600 * 2016 * 10), U256::from_limbs([4_000_000, 0, 0, 0]));
    assert_eq!(retarget_exec(small, 0), U256::from_limbs([250_000, 0, 0, 0]));
    assert_eq!(retarget_exec(small, 1), U256::from_limbs([250_000, 0, 0, 0]));
}

#[test]
fn validate_template_and_difference() {
    let mut chain = Blockchain::new();
    let genesis = create_genesis_block();
    assert!(chain.validate_template(&genesis));
    chain.add_block(genesis).unwrap();
    let tip = chain.blocks()[0].header().hash();
    let header = BlockHeader::new(now_millis(), 0, tip, MerkleRoot::calculate(&[]), min_target());
    assert!(chain.validate_template(&Block::new(header, vec![])));
    assert!(!chain.validate_template(&create_genesis_block()));
    assert_eq!(chain.ask_difference(0), 1);
    assert_eq!(chain.ask_difference(3), -2);
}

#[test]
fn mined_template_is_accepted() {
    let key = PrivateKey::new();
    let (mut chain, utxo, value) = funded_chain(&key);
    assert_eq!(chain.add_transaction_to_mempool(spend(&key, utxo, value - 25)), Ok(()));
    let ts = chain.blocks()[0].header().timestamp() + 1000;
    let mut template = chain.create_template(&key.public_key(), ts, new_unique_id()).unwrap();
    assert_eq!(template.transactions().len(), 2);
    assert_eq!(template.transactions()[0].outputs[0].value(), 5_000_000_000 + 25);
    assert!(chain.validate_template(&template));
    assert!(template.mine(10_000_000));
    assert_eq!(chain.add_block(template), Ok(()));
    assert_eq!(chain.mempool().len(), 0);
}
