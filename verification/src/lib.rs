//! Wallet core of a shielded-transaction client.
//!
//! The wallet holds spending keys, tracks the notes it owns together with
//! the authentication paths that prove their coins to be in the ledger's
//! commitment tree, and keeps the public keys of the bridge. Nothing here
//! touches a file or a socket: rows to store and leaves to observe go in
//! and out as plain values.
//!
//! * [`codec`]: the byte format of everything that is stored.
//! * [`keys`]: scalars, spending keys and public keys.
//! * [`note`]: notes, coins and nullifiers.
//! * [`tree_model`] and [`merkle`]: the commitment tree and its paths.
//! * [`notestore`]: the owned notes and their upkeep.
//! * [`cashier`]: the bridge's keys.
//! * [`store`]: the three relations the wallet writes.
//! * [`walletdb`]: the wallet as a whole.
//! * [`config`]: the settings of client and daemon.
//! * [`location`]: which names may stand for a wallet file.
//! * [`primitives`]: what is taken on trust from the Sapling libraries.

pub mod cashier;
pub mod codec;
pub mod config;
pub mod error;
pub mod keys;
pub mod location;
pub mod merkle;
pub mod note;
pub mod notestore;
pub mod primitives;
pub mod store;
pub mod tree_model;
pub mod walletdb;
