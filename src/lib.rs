//! An in-memory key/value server library: the wire codec, the command model,
//! the nibble trie and the streams built on it, the databases, the snapshot
//! reader and the replication bookkeeping of master and replica.
use vstd::prelude::*;

pub mod command;
pub mod db;
pub mod rdb;
pub mod resp;
pub mod server;
pub mod stream;
pub mod trie;
pub mod utils;

verus! {

} // verus!
