use btclib::block::Block;
use btclib::block_header::BlockHeader;
use btclib::blockchain::min_target;
use btclib::crypto::PrivateKey;
use btclib::merkle_root::MerkleRoot;
use btclib::message::Message;
use btclib::network::{frame, frame_length};
use btclib::transaction::{Transaction, TransactionOutput};

fn new_unique_id() -> u128 {
    uuid::Uuid::new_v4().as_u128()
}

fn now_millis() -> i64 {
    chrono::Utc::now().timestamp_millis()
}

fn create_test_transaction() -> Transaction {
    let private = PrivateKey::default();
    let output = TransactionOutput::new(100, new_unique_id(), private.public_key());
    Transaction::new(vec![], vec![output])
}

fn create_test_block() -> Block {
    let tx = create_test_transaction();
    let header = BlockHeader::new(
        now_millis(),
        0,
        btclib::hash::Hash::zero(),
        MerkleRoot::calculate(&[tx.clone()]),
        min_target(),
    );
    Block::new(header, vec![tx])
}

#[test]
fn test_message_encode_decode() {
    let tx = create_test_transaction();
    let msg = Message::NewTransaction(tx.clone());
    let encoded = msg.encode();
    let decoded = Message::decode(&encoded).unwrap();
    if let Message::NewTransaction(decoded_tx) = decoded {
        assert_eq!(tx.hash(), decoded_tx.hash());
    } else {
        panic!("Decoded message type mismatch");
    }
}

#[test]
fn test_message_fetch_utxos() {
    let public = PrivateKey::default().public_key();
    let msg = Message::FetchUTXOs(public.clone());
    let decoded = Message::decode(&msg.encode()).unwrap();
    if let Message::FetchUTXOs(decoded_public) = decoded {
        assert!(public == decoded_public);
    } else {
        panic!("Decoded message type mismatch");
    }
}

#[test]
fn test_message_utxos() {
    let public = PrivateKey::default().public_key();
    let output = TransactionOutput::new(100, new_unique_id(), public);
    let msg = Message::UTXOs(vec![(output.clone(), false)]);
    let decoded = Message::decode(&msg.encode()).unwrap();
    if let Message::UTXOs(decoded_utxos) = decoded {
        assert_eq!(decoded_utxos.len(), 1);
        assert_eq!(decoded_utxos[0].0.hash(), output.hash());
        assert_eq!(decoded_utxos[0].1, false);
    } else {
        panic!("Decoded message type mismatch");
    }
}

#[test]
fn test_message_submit_transaction() {
    let tx = create_test_transaction();
    let decoded = Message::decode(&Message::SubmitTransaction(tx.clone()).encode()).unwrap();
    if let Message::SubmitTransaction(decoded_tx) = decoded {
        assert_eq!(tx.hash(), decoded_tx.hash());
    } else {
        panic!("Decoded message type mismatch");
    }
}

#[test]
fn test_message_fetch_template() {
    let public = PrivateKey::default().public_key();
    let decoded = Message::decode(&Message::FetchTemplate(public.clone()).encode()).unwrap();
    if let Message::FetchTemplate(decoded_public) = decoded {
        assert!(public == decoded_public);
    } else {
        panic!("Decoded message type mismatch");
    }
}

#[test]
fn test_message_template() {
    let block = create_test_block();
    let decoded = Message::decode(&Message::Template(block.clone()).encode()).unwrap();
    if let Message::Template(decoded_block) = decoded {
        assert_eq!(block.hash(), decoded_block.hash());
    } else {
        panic!("Decoded message type mismatch");
    }
}

#[test]
fn test_message_validate_template() {
    let block = create_test_block();
    let decoded = Message::decode(&Message::ValidateTemplate(block.clone()).encode()).unwrap();
    if let Message::ValidateTemplate(decoded_block) = decoded {
        assert_eq!(block.hash(), decoded_block.hash());
    } else {
        panic!("Decoded message type mismatch");
    }
}

#[test]
fn test_message_template_validity() {
    let decoded = Message::decode(&Message::TemplateValidity(true).encode()).unwrap();
    if let Message::TemplateValidity(valid) = decoded {
        assert!(valid);
    } else {
        panic!("Decoded message type mismatch");
    }
}

#[test]
fn test_message_submit_template() {
    let block = create_test_block();
    let decoded = Message::decode(&Message::SubmitTemplate(block.clone()).encode()).unwrap();
    if let Message::SubmitTemplate(decoded_block) = decoded {
        assert_eq!(block.hash(), decoded_block.hash());
    } else {
        panic!("Decoded message type mismatch");
    }
}

#[test]
fn test_message_discover_nodes() {
    let decoded = Message::decode(&Message::DiscoverNodes.encode()).unwrap();
    assert!(matches!(decoded, Message::DiscoverNodes));
}

#[test]
fn test_message_node_list() {
    let nodes = vec![b"127.0.0.1:8333".to_vec(), b"192.168.1.1:8333".to_vec()];
    let decoded = Message::decode(&Message::NodeList(nodes.clone()).encode()).unwrap();
    if let Message::NodeList(decoded_nodes) = decoded {
        assert_eq!(decoded_nodes, nodes);
    } else {
        panic!("Decoded message type mismatch");
    }
}

#[test]
fn test_message_ask_difference() {
    let decoded = Message::decode(&Message::AskDifference(100).encode()).unwrap();
    if let Message::AskDifference(height) = decoded {
        assert_eq!(height, 100);
    } else {
        panic!("Decoded message type mismatch");
    }
}

#[test]
fn test_message_difference() {
    let decoded = Message::decode(&Message::Difference(42).encode()).unwrap();
    if let Message::Difference(diff) = decoded {
        assert_eq!(diff, 42);
    } else {
        panic!("Decoded message type mismatch");
    }
}

#[test]
fn negative_difference_round_trips() {
    let decoded = Message::decode(&Message::Difference(-7).encode()).unwrap();
    assert!(matches!(decoded, Message::Difference(-7)));
}

#[test]
fn test_message_fetch_block() {
    let decoded = Message::decode(&Message::FetchBlock(10).encode()).unwrap();
    if let Message::FetchBlock(height) = decoded {
        assert_eq!(height, 10);
    } else {
        panic!("Decoded message type mismatch");
    }
}

#[test]
fn test_message_new_block() {
    let block = create_test_block();
    let decoded = Message::decode(&Message::NewBlock(block.clone()).encode()).unwrap();
    if let Message::NewBlock(decoded_block) = decoded {
        assert_eq!(block.hash(), decoded_block.hash());
    } else {
        panic!("Decoded message type mismatch");
    }
}

#[test]
fn test_message_send_receive() {
    let tx = create_test_transaction();
    let framed = frame(&Message::NewTransaction(tx.clone()).encode());
    let len = frame_length(&framed[0..8].to_vec()).unwrap();
    let received = Message::decode(&framed[8..8 + len].to_vec()).unwrap();
    if let Message::NewTransaction(received_tx) = received {
        assert_eq!(tx.hash(), received_tx.hash());
    } else {
        panic!("Received message type mismatch");
    }
}

#[test]
fn unknown_tag_and_empty_input_are_refused() {
    assert!(Message::decode(&vec![]).is_none());
    assert!(Message::decode(&vec![15u8]).is_none());
    assert!(Message::decode(&vec![7u8, 2u8]).is_none());
}
