//! Consensus core of a proof-of-work BlockDAG: block admission, tip selection,
//! total ordering, rewards and transaction execution, with every rule stated
//! as a contract and proved.

pub mod account;
pub mod address;
pub mod admission;
pub mod audit;
pub mod block;
pub mod blockchain;
pub mod blockdag;
pub mod boot;
pub mod chain_state;
pub mod chain_sync;
pub mod config;
pub mod coordinator;
pub mod difficulty;
pub mod elgamal;
pub mod error;
pub mod events;
pub mod executor;
pub mod globals;
pub mod hash;
pub mod immutable;
pub mod integrate;
pub mod invariants;
pub mod ledger;
pub mod mempool;
pub mod order;
pub mod reachability;
pub mod restore;
pub mod rewind;
pub mod serializer;
pub mod storage;
pub mod sync;
pub mod template;
pub mod transaction;
pub mod tx_verify;
pub mod undo;
pub mod wallet;
pub mod websocket;
pub mod work;
