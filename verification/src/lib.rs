//! A proof-of-work ledger node: the data model, the binary codec, the block
//! validation rules, the transaction pool and the mining search, each with a
//! machine-checked contract.
//!
//! The modules, leaves first: [`errors`]; the data model in [`state`] with
//! its order in [`ordering`] and its text in [`text`]; the canonical codec in
//! [`codec`], [`wire`] and [`network`]; the two wire protocols in [`endian`],
//! [`p2p`] and [`client2node`]; digests, signatures and the calendar in
//! [`crypto`] and [`time`]; the ledger and the chain in [`ledger`] and
//! [`storage`]; the transaction pool in [`pool`]; the miner in [`miner`]; the
//! routing table in [`connector`]; and the decisions of a node in [`node`].

pub mod errors;
pub mod state;
pub mod ordering;
pub mod text;
pub mod utils;
pub mod codec;
pub mod wire;
pub mod network;
pub mod endian;
pub mod p2p;
pub mod client2node;
pub mod crypto;
pub mod time;
pub mod ledger;
pub mod storage;
pub mod pool;
pub mod miner;
pub mod connector;
pub mod node;
