//! A peer-to-peer replicated document database.
//!
//! Documents live in named collections and are replicated across peers.
//! Concurrent edits are reconciled with a CRDT model built on per-peer
//! vector clocks; selected collections are encrypted at rest.

pub mod assoc;
pub mod clock;
pub mod codec;
pub mod collection;
pub mod crypto;
pub mod database;
pub mod network;
pub mod query;
pub mod resolver;
pub mod storage;
pub mod types;
pub mod value;

use vstd::prelude::*;
use crate::types::DbError;
use crate::database::DistributedDatabase;
use crate::database::DistributedDbOptions;
use crate::database::DistributedOptions;
use crate::storage::FileStorage;
use crate::network::NetworkManager;

verus! {

/// Configuration of a database instance.
pub struct Options {
    pub data_dir: String,
    pub distributed_enabled: bool,
    pub distributed_network_id: String,
    pub distributed_bootstrap_peers: Vec<String>,
}

/// The public face of the database.
pub struct DB {
    db: DistributedDatabase,
}

impl DB {
    /// Opens a database rooted at the configured data directory; an empty
    /// data directory is rejected.
    pub fn new(opts: Options) -> (r: Result<DB, DbError>)
        ensures
            (r matches Err(e) && e is Validation) <==> opts.data_dir@.len() == 0,
    {
        if opts.data_dir.as_str().is_empty() {
            return Err(DbError::Validation("DataDir cannot be empty".to_owned()));
        }
        let storage = FileStorage::new(opts.data_dir);
        let network = match NetworkManager::new() {
            Ok(n) => n,
            Err(e) => {
                return Err(e);
            },
        };
        let db_opts = DistributedDbOptions {
            distributed: DistributedOptions {
                enabled: opts.distributed_enabled,
                network_id: opts.distributed_network_id,
                bootstrap_peers: opts.distributed_bootstrap_peers,
            },
        };
        match DistributedDatabase::new(db_opts, storage, network) {
            Ok(db) => Ok(DB { db }),
            Err(e) => Err(e),
        }
    }

    /// Registers a network.
    pub fn create_network(&mut self, cfg: crate::types::NetworkConfig) -> (r: Result<
        String,
        DbError,
    >) {
        self.db.create_network(cfg)
    }

    /// Registers the named collection; an empty name is rejected.
    pub fn collection(&mut self, name: &str) -> (r: Result<(), DbError>)
        ensures
            (r matches Err(e) && e is Validation) <==> name@.len() == 0,
    {
        if name.is_empty() {
            return Err(DbError::Validation("collection name cannot be empty".to_owned()));
        }
        self.db.collection(name)
    }

    /// The underlying database, for advanced use.
    pub fn raw(&mut self) -> (r: &mut DistributedDatabase) {
        &mut self.db
    }

    /// Stops the underlying network manager.
    pub fn shutdown(self) -> (r: Result<(), DbError>) {
        let mut db = self.db;
        db.shutdown()
    }

    /// Unwraps the underlying database.
    pub fn into_inner(self) -> (r: DistributedDatabase) {
        self.db
    }
}

} // verus!
