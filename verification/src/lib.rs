//! A transaction pool for a UTXO ledger: admission, conflict detection,
//! eviction, gossip decisions and lifecycle notifications.
//!
//! - [`resolver`]: what a transaction consumes and creates, and what it
//!   collides with.
//! - [`model`]: the mathematical state of the pool and what each operation
//!   makes of it.
//! - [`pool`]: the admission engine, with its [`index`] of consumed outputs.
//! - [`gossip`]: which admitted transactions go out to peers.
//! - [`fanout`]: the status and update streams and their subscribers.
//! - [`service`]: the request interface that ties these together.
//! - [`laws`]: what holds of the pool in every state.
//! - [`order`]: subsequences, in which the laws on delivery are stated.
//! - [`wallet`]: what a wallet decides when it builds transactions for the
//!   pool.

pub mod fanout;
pub mod gossip;
pub mod ids;
pub mod index;
pub mod laws;
pub mod model;
pub mod order;
pub mod pool;
pub mod resolver;
pub mod service;
pub mod status;
pub mod transaction;
pub mod wallet;
