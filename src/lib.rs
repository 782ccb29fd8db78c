//! Consensus core of a small proof-of-work ledger: 256-bit targets, hashing,
//! signatures, transactions, blocks, the chain state machine and the wire
//! framing of the peer protocol.

pub mod block;
pub mod block_header;
pub mod blockchain;
pub mod bytes;
pub mod codec;
pub mod crypto;
pub mod error;
pub mod hash;
pub mod merkle_root;
pub mod message;
pub mod miner;
pub mod network;
pub mod transaction;
pub mod u256;
pub mod utxo;
pub mod wallet;
