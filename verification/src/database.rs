//! The database: a registry of named collections over one storage and
//! one network manager.

use vstd::prelude::*;
use crate::types::NetworkConfig;
use crate::types::CRDTOperation;
use crate::types::OperationType;
use crate::types::MessageType;
use crate::types::DbError;
use crate::value::Value;
use crate::value::JVal;
use crate::value::jfields_of;
use crate::value::jget;
use crate::value::jhas;
use crate::value::str_eq;
use crate::storage::FileStorage;
use crate::storage::stored_doc_wf;
use crate::storage::sensitive_collection;
use crate::network::NetworkManager;
use crate::network::Broadcast;
use crate::collection::DistributedCollection;
use crate::collection::rendered_doc_ok;
use crate::resolver::doc_wf;

verus! {

/// Options of the database.
pub struct DistributedDbOptions {
    pub distributed: DistributedOptions,
}

/// Replication options of the database.
pub struct DistributedOptions {
    pub enabled: bool,
    pub network_id: String,
    pub bootstrap_peers: Vec<String>,
}

/// A registry of named collections bound to shared storage and network
/// state.
pub struct DistributedDatabase {
    storage: FileStorage,
    network: NetworkManager,
    collections: Vec<DistributedCollection>,
    distributed: bool,
}

impl DistributedDatabase {
    /// The storage this database writes through.
    pub closed spec fn spec_storage(self) -> FileStorage {
        self.storage
    }

    /// The network manager this database announces through.
    pub closed spec fn spec_network(self) -> NetworkManager {
        self.network
    }

    /// Creates a database over the given storage and network; the network
    /// manager is initialized immediately.
    pub fn new(opts: DistributedDbOptions, storage: FileStorage, network: NetworkManager) -> (r:
        Result<DistributedDatabase, DbError>)
        ensures
            r is Ok,
            r matches Ok(db) ==> db.spec_storage() == storage,
    {
        let mut network = network;
        let _ = network.initialize();
        Ok(
            DistributedDatabase {
                storage,
                network,
                collections: Vec::new(),
                distributed: opts.distributed.enabled,
            },
        )
    }

    /// Whether a collection is registered under `name`.
    pub closed spec fn has_collection(self, name: Seq<char>) -> bool {
        exists|i: int|
            0 <= i < self.collections@.len() && (#[trigger] self.collections@[i]).spec_name()
                == name
    }

    /// Registers the named collection, creating it lazily: a known name
    /// is left alone, an unknown one gains exactly one entry.
    pub fn collection(&mut self, name: &str) -> (r: Result<(), DbError>)
        ensures
            r is Ok,
            final(self).has_collection(name@),
            old(self).has_collection(name@) ==> final(self).spec_collection_count() == old(
                self,
            ).spec_collection_count(),
            !old(self).has_collection(name@) ==> final(self).spec_collection_count() == old(
                self,
            ).spec_collection_count() + 1,
    {
        let _ = self.collection_index(name);
        Ok(())
    }

    /// Position of the named collection, registering it first if needed.
    fn collection_index(&mut self, name: &str) -> (r: usize)
        ensures
            r < final(self).spec_collection_count(),
            final(self).collections@[r as int].spec_name() == name@,
            final(self).has_collection(name@),
            final(self).spec_storage() == old(self).spec_storage(),
            final(self).spec_network() == old(self).spec_network(),
            old(self).has_collection(name@) ==> *final(self) == *old(self),
            !old(self).has_collection(name@) ==> final(self).spec_collection_count() == old(
                self,
            ).spec_collection_count() + 1,
    {
        let mut i: usize = 0;
        while i < self.collections.len()
            invariant
                i <= self.collections@.len(),
                forall|j: int|
                    0 <= j < i ==> (#[trigger] self.collections@[j]).spec_name() != name@,
            decreases self.collections@.len() - i,
        {
            if str_eq(self.collections[i].get_name(), name) {
                return i;
            }
            i = i + 1;
        }
        let handle = DistributedCollection::new(name.to_owned());
        self.collections.push(handle);
        proof {
            assert(self.collections@[self.collections@.len() - 1].spec_name() == name@);
        }
        self.collections.len() - 1
    }

    /// How many collections are registered.
    pub closed spec fn spec_collection_count(self) -> nat {
        self.collections@.len()
    }

    /// Inserts a document into the named collection; any due broadcast
    /// plan is returned for the caller to send. A plain document of a
    /// non-sensitive collection is persisted with its payload, tombstone
    /// flag and authoring peer pinned.
    pub fn insert(&mut self, collection: &str, doc: Vec<(String, Value)>) -> (r: Result<
        (Vec<(String, Value)>, Option<Broadcast>),
        DbError,
    >)
        requires
            stored_doc_wf(jfields_of(doc@)),
        ensures
            r matches Ok(t) ==> t.0 == doc,
            r is Ok && !sensitive_collection(collection@) && !jhas(jfields_of(doc@), "blob"@)
                ==> (jget(jfields_of(doc@), "id"@) matches Some(JVal::Str(s)) && s.len() > 0 && (
            final(self).spec_storage().stored_doc(collection@, s) matches Some(m1) && {
                &&& jget(m1, "id"@) == Some(JVal::Str(s))
                &&& jget(m1, "payload"@) == Some(JVal::Obj(jfields_of(doc@)))
                &&& jget(m1, "deleted"@) == Some(JVal::Bool(false))
                &&& jget(m1, "peerId"@) == Some(
                    JVal::Str(old(self).spec_network().spec_peer_id()),
                )
            })),
    {
        let ci = self.collection_index(collection);
        let mut handle = self.collections.remove(ci);
        let out = handle.insert(&mut self.storage, &self.network, doc);
        self.collections.push(handle);
        out
    }

    /// Applies an inbound operation to the named collection: a deletion
    /// with no local version leaves a pinned tombstone, and a carried
    /// document with no local version is stored as its rendering.
    pub fn apply_operation(&mut self, collection: &str, op: &CRDTOperation) -> (r: Result<
        (),
        DbError,
    >)
        requires
            op.data matches Some(d) ==> doc_wf(d),
            op.document_id@.len() > 0,
        ensures
            op.op_type == OperationType::Delete && old(self).spec_storage().stored_doc(
                collection@,
                op.document_id@,
            ) is None && !sensitive_collection(collection@) ==> (r is Ok && (final(self).spec_storage().stored_doc(collection@, op.document_id@) matches Some(m1) && {
                &&& jget(m1, "deleted"@) == Some(JVal::Bool(true))
                &&& jget(m1, "id"@) == Some(JVal::Str(op.document_id@))
                &&& jget(m1, "timestamp"@) == Some(JVal::Int(op.timestamp))
                &&& jget(m1, "payload"@) is None
            })),
            op.op_type != OperationType::Delete && !sensitive_collection(collection@) ==> (
            op.data matches Some(d) ==> (d.id@ == op.document_id@ && (d.payload matches Some(pd)
                ==> !jhas(jfields_of(pd@), "blob"@)) && old(self).spec_storage().stored_doc(
                collection@,
                op.document_id@,
            ) is None ==> (r is Ok && (final(self).spec_storage().stored_doc(
                collection@,
                op.document_id@,
            ) matches Some(m1) && rendered_doc_ok(d, m1))))),
    {
        let ci = self.collection_index(collection);
        let mut handle = self.collections.remove(ci);
        let out = handle.apply_operation(&mut self.storage, op);
        self.collections.push(handle);
        out
    }

    /// Patches a document of the named collection: one document changes
    /// when it existed, none otherwise, and a miss leaves the store
    /// untouched.
    pub fn update(&mut self, collection: &str, id: &str, patch: Vec<(String, Value)>) -> (r:
        Result<(i32, Option<Broadcast>), DbError>)
        requires
            stored_doc_wf(jfields_of(patch@)),
        ensures
            r matches Ok(t) ==> (t.0 == 0 || t.0 == 1),
            r matches Ok(t) && t.0 == 0 ==> old(self).spec_storage().stored_doc(
                collection@,
                id@,
            ) is None && final(self).spec_storage() == old(self).spec_storage(),
            r matches Ok(t) && t.0 == 1 ==> old(self).spec_storage().stored_doc(
                collection@,
                id@,
            ) is Some,
    {
        let ci = self.collection_index(collection);
        let mut handle = self.collections.remove(ci);
        let out = handle.update(&mut self.storage, &self.network, id, patch);
        self.collections.push(handle);
        out
    }

    /// Deletes a document of the named collection; afterwards nothing is
    /// stored under its id.
    pub fn delete(&mut self, collection: &str, id: &str) -> (r: Result<
        (i32, Option<Broadcast>),
        DbError,
    >)
        ensures
            r matches Ok(t) ==> t.0 == 1,
            r is Ok ==> final(self).spec_storage().stored_doc(collection@, id@) is None,
    {
        let ci = self.collection_index(collection);
        let mut handle = self.collections.remove(ci);
        let out = handle.delete(&mut self.storage, &self.network, id);
        self.collections.push(handle);
        out
    }

    /// Reads a document of the named collection through the collection
    /// view: a missing document answers `None`, and so does a stored
    /// deletion tombstone.
    pub fn find(&self, collection: &str, id: &str) -> (r: Result<
        Option<Vec<(String, Value)>>,
        DbError,
    >)
        ensures
            self.spec_storage().stored_doc(collection@, id@) is None ==> (r matches Ok(d) && d
                is None),
            r matches Ok(Some(d)) ==> (self.spec_storage().stored_doc(collection@, id@)
                matches Some(m) && crate::storage::read_back_ok(
                self.spec_storage(),
                m,
                jfields_of(d@),
            ) && jget(jfields_of(d@), "deleted"@) != Some(JVal::Bool(true))),
            self.spec_storage().stored_doc(collection@, id@) matches Some(m) ==> (jget(
                m,
                "encrypted"@,
            ) != Some(JVal::Bool(true)) ==> (if jget(m, "deleted"@) == Some(JVal::Bool(true)) {
                r matches Ok(d) && d is None
            } else {
                r matches Ok(d) && d is Some
            })),
    {
        let view = DistributedCollection::new(collection.to_owned());
        view.find(&self.storage, id)
    }

    /// Reads every document of the named collection: each element reads
    /// back from its own stored document, and every plain stored
    /// document is listed.
    pub fn find_all(&self, collection: &str) -> (r: Result<Vec<Vec<(String, Value)>>, DbError>)
        ensures
            r is Ok,
            r matches Ok(v) ==> (forall|j: int|
                0 <= j < v@.len() ==> crate::storage::from_some_stored(
                    self.spec_storage(),
                    collection@,
                    jfields_of((#[trigger] v@[j])@),
                )),
            r matches Ok(v) ==> crate::storage::listed_once(self.spec_storage(), collection@, v@),
            r matches Ok(v) ==> (forall|i: int|
                0 <= i < self.spec_storage().collection_ids(collection@).len() ==> (
                self.spec_storage().stored_doc(
                    collection@,
                    #[trigger] self.spec_storage().collection_ids(collection@)[i],
                ) matches Some(m) ==> (jget(m, "encrypted"@) != Some(JVal::Bool(true))
                    ==> crate::storage::read_back_listed(self.spec_storage(), m, v@)))),
    {
        self.storage.find_all(collection)
    }

    /// Attaches the named collection to a network: the network records
    /// the collection and an announcement plan is returned.
    pub fn attach_collection(&mut self, collection: &str, network_id: &str) -> (r: Result<
        Broadcast,
        DbError,
    >)
        ensures
            r matches Ok(b) ==> b.message.msg_type == MessageType::CollectionAnnounce,
            old(self).spec_network().has_network(network_id@) ==> (final(self).spec_network().network_at(network_id@) matches Some(c)
                && crate::types::coll_names(c.collections@).contains(collection@)),
            !old(self).spec_network().spec_initialized() ==> r is Err,
    {
        let ci = self.collection_index(collection);
        let mut handle = self.collections.remove(ci);
        let out = handle.attach_to_network(&mut self.network, network_id);
        self.collections.push(handle);
        out
    }

    /// Registers a network.
    pub fn create_network(&mut self, cfg: NetworkConfig) -> (r: Result<String, DbError>)
        ensures
            r is Ok,
            r matches Ok(id) ==> id@ == cfg.network_id@,
            final(self).spec_network().has_network(cfg.network_id@),
    {
        self.network.create_network(cfg)
    }

    /// Joins a network, returning the bootstrap addresses to dial.
    pub fn join_network(&mut self, network_id: &str, bootstrap_peers: Vec<String>) -> (r: Result<
        Vec<String>,
        DbError,
    >)
        ensures
            r matches Ok(addrs) ==> addrs@ == bootstrap_peers@,
    {
        self.network.join_network(network_id, bootstrap_peers)
    }

    /// Leaves a network.
    pub fn leave_network(&mut self, network_id: &str) -> (r: Result<(), DbError>) {
        self.network.leave_network(network_id)
    }

    /// Shuts the network layer down.
    pub fn shutdown(&mut self) -> (r: Result<(), DbError>) {
        self.network.shutdown()
    }

    /// The underlying network manager.
    pub fn raw_network(&self) -> (r: &NetworkManager)
        ensures
            *r == self.spec_network(),
    {
        &self.network
    }

    /// The underlying network manager, for the transport to report into.
    pub fn raw_network_mut(&mut self) -> (r: &mut NetworkManager) {
        &mut self.network
    }

    /// The underlying storage, for persistence to read from.
    pub fn raw_storage(&self) -> (r: &FileStorage)
        ensures
            *r == self.spec_storage(),
    {
        &self.storage
    }

    /// Installs the master encryption key on the underlying storage.
    pub fn set_master_key(&mut self, key_pair: crate::crypto::PQCKeyPair) {
        self.storage.set_master_key(key_pair);
    }
}

} // verus!
