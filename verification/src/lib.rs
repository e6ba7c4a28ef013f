//! A single-node core of a DAG-structured ledger: signed transactions,
//! proof-of-work blocks with several parents, the unspent-output set, a
//! fee-ordered mempool and the decisions of the gossip protocol.
//!
//! Every function carries a contract over a mathematical model of the data,
//! and the bodies are proved against those contracts. Hashing, hex coding,
//! ECDSA, sorting, the clock and the thread pool are the work of `sha2`,
//! `hex`, `secp256k1`, std, `chrono` and `rayon`; they are reached through a
//! handful of small functions whose contracts are taken on trust and say so in
//! their documentation.
//!
//! The modules, from the leaves up:
//! - `hexcode`, `digest`, `signature`, `lexical`: the trusted boundary and the
//!   mathematics around it;
//! - `transaction`, `block`: the hash-addressed data and proof of work;
//! - `mempool`, `utxo`, `validation`: the waiting transactions, the unspent
//!   outputs, and when a block is valid against them;
//! - `blockchain`, `mining`, `p2p`: the ledger, a round of parallel mining,
//!   and what a message from a peer does;
//! - `integrity`, `history`, `value`, `rounds`: theorems about the hashes,
//!   about a round of mining and about any
//!   history of accepted blocks.

pub mod hexcode;
pub mod digest;
pub mod signature;
pub mod lexical;
pub mod transaction;
pub mod block;
pub mod mempool;
pub mod utxo;
pub mod validation;
pub mod blockchain;
pub mod mining;
pub mod p2p;
pub mod integrity;
pub mod history;
pub mod value;
pub mod rounds;
