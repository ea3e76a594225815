//! A minimal append-only ledger: hash-linked blocks produced by a
//! proof-of-work search, holding transfers that are resolved against an
//! unspent-output model.
//!
//! The ledger is held in memory. A chain lives in a [`store::BlockStore`],
//! the image of a key-value database: a program reads the database into the
//! store, works on the chain, and writes the newest block and the tip back.
//! Times are given by the caller.
//!
//! - [`tx`], [`transaction`]: inputs, outputs and transactions.
//! - [`wire`], [`layout`]: the stored layout of these, byte by byte.
//! - [`digest`]: SHA-256, hexadecimal digits, and the difficulty target.
//! - [`block`]: blocks and the proof-of-work search.
//! - [`store`], [`blockchain`]: the store, the chain in it, and its walk.
//! - [`refs`], [`utxo`]: unspent outputs, balances and the choice of inputs.
//! - [`integrity`], [`conservation`], [`tamper`]: what holds of every chain.

pub mod error;
pub mod text;
pub mod tx;
pub mod digest;
pub mod wire;
pub mod transaction;
pub mod layout;
pub mod block;
pub mod store;
pub mod refs;
pub mod utxo;
pub mod blockchain;
pub mod integrity;
pub mod conservation;
pub mod tamper;
