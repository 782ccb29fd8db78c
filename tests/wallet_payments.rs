use btclib::crypto::{PrivateKey, Signature};
use btclib::transaction::{TransactionOutput};
use btclib::wallet::{create_transaction, OwnedUtxo, WalletError};

fn new_unique_id() -> u128 {
    uuid::Uuid::new_v4().as_u128()
}

/// The fixed fee of the wallet configuration these cases use.
const FEE: u64 = 10;

fn owned(key: &PrivateKey, value: u64, reserved: bool) -> OwnedUtxo {
    OwnedUtxo {
        key_index: 0,
        reserved,
        output: TransactionOutput::new(value, new_unique_id(), key.public_key()),
    }
}

#[test]
fn test_core_create_transaction_insufficient_funds() {
    let private = PrivateKey::default();
    let utxos = vec![owned(&private, 50, false)];
    let recipient = PrivateKey::default().public_key();
    let keys = vec![private];
    let result = create_transaction(&keys, &utxos, &recipient, 100, FEE, 1, 2);
    assert_eq!(result.err(), Some(WalletError::InsufficientFunds));
}

#[test]
fn test_core_create_transaction_success() {
    let private = PrivateKey::default();
    let utxos = vec![owned(&private, 100, false), owned(&private, 200, false)];
    let recipient = PrivateKey::default().public_key();
    let keys = vec![private];
    let transaction = create_transaction(&keys, &utxos, &recipient, 50, FEE, 1, 2).unwrap();
    assert_eq!(transaction.outputs().len(), 2);
    assert_eq!(transaction.outputs()[0].value(), 50);
    assert_eq!(transaction.outputs()[1].value(), 40);
    assert_eq!(transaction.inputs().len(), 1);
    let input = &transaction.inputs()[0];
    assert_eq!(*input.prev_transaction_output_hash(), utxos[0].output.hash());
    assert!(input.signature().verify(&utxos[0].output.hash(), &keys[0].public_key()));
    assert!(*transaction.outputs()[1].pubkey() == keys[0].public_key());
}

#[test]
fn test_core_create_transaction_exact_amount() {
    let private = PrivateKey::default();
    let utxos = vec![owned(&private, 110, false)];
    let recipient = PrivateKey::default().public_key();
    let keys = vec![private];
    let transaction = create_transaction(&keys, &utxos, &recipient, 100, FEE, 1, 2).unwrap();
    assert_eq!(transaction.outputs().len(), 1);
    assert_eq!(transaction.outputs()[0].value(), 100);
}

#[test]
fn test_core_create_transaction_skips_marked_utxos() {
    let private = PrivateKey::default();
    let utxos = vec![
        owned(&private, 100, true),
        owned(&private, 200, false),
        owned(&private, 300, true),
    ];
    let recipient = PrivateKey::default().public_key();
    let keys = vec![private];
    let transaction = create_transaction(&keys, &utxos, &recipient, 150, FEE, 1, 2).unwrap();
    assert_eq!(transaction.inputs().len(), 1);
    assert_eq!(transaction.outputs().len(), 2);
    assert_eq!(transaction.outputs()[0].value(), 150);
    assert_eq!(transaction.outputs()[1].value(), 40);
}

#[test]
fn signatures_come_from_the_owning_key() {
    let first = PrivateKey::default();
    let second = PrivateKey::default();
    let mut spend = owned(&second, 500, false);
    spend.key_index = 1;
    let utxos = vec![spend];
    let recipient = PrivateKey::default().public_key();
    let keys = vec![first, second];
    let t = create_transaction(&keys, &utxos, &recipient, 100, 0, 1, 2).unwrap();
    let h = utxos[0].output.hash();
    let expected = Signature::sign_output(&h, &keys[1]);
    assert_eq!(t.inputs()[0].signature().as_bytes(), expected.as_bytes());
    assert_eq!(t.outputs()[1].value(), 400);
}
