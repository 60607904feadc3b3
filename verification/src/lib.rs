//! actdb is a small, synchronous, embedded key-value database.
//!
//! A database is a single file that holds one lexicographically ordered byte
//! keyspace. Reads use stable snapshots and a write transaction atomically
//! publishes all of its changes at commit.
pub mod body;
pub mod branch;
pub mod cache;
pub mod canonical;
pub mod collect;
pub mod commit;
pub mod compact;
pub mod db;
pub mod demand;
pub mod error;
pub mod fault;
pub mod finish;
pub mod format;
pub mod free;
pub mod graft;
pub mod insert;
pub mod io;
pub mod keep;
pub mod layout;
pub mod model;
pub mod node;
pub mod open;
pub mod options;
pub mod order;
pub mod outcome;
pub mod page;
pub mod plan;
pub mod publish;
pub mod reader;
pub mod recovery;
pub mod remove;
pub mod rows;
pub mod settle;
pub mod share;
pub mod space;
pub mod spots;
pub mod store;
pub mod tree;
pub mod txn;
pub mod write;

pub use db::Database;
pub use error::{Error, Result};
pub use io::Storage;
pub use options::{Durability, Options};
pub use txn::{Bound, DatabaseStats, ReadTxn, Scan, ValueGuard};
pub use write::WriteTxn;
