//! Document, operation, protocol-message, and configuration shapes
//! shared across the replication layers.

use vstd::prelude::*;
use crate::clock::VectorClock;
use crate::clock::vc_eq;
use crate::value::Value;
use crate::value::JVal;
use crate::value::jfields_of;
use crate::value::str_eq;
use crate::value::copy_fields;
use crate::value::copy_strings;

verus! {

/// Classification of a stored entry.
#[derive(Clone, Copy, Debug, PartialEq, Eq, Structural)]
pub enum EntryType {
    Memory,
    Auth,
}

/// Entry type named by a string; unrecognized names default to `Memory`.
pub open spec fn spec_entry_type_of(s: Seq<char>) -> EntryType {
    if s == "AUTH"@ {
        EntryType::Auth
    } else {
        EntryType::Memory
    }
}

impl vstd::std_specs::convert::FromSpecImpl<&str> for EntryType {
    open spec fn obeys_from_spec() -> bool {
        true
    }

    open spec fn from_spec(s: &str) -> EntryType {
        spec_entry_type_of(s@)
    }
}

impl From<&str> for EntryType {
    /// Reads an entry type from its name, defaulting to `Memory`.
    fn from(s: &str) -> (r: EntryType) {
        if str_eq(s, "AUTH") {
            EntryType::Auth
        } else {
            EntryType::Memory
        }
    }
}

impl core::str::FromStr for EntryType {
    type Err = String;

    /// Reads an entry type from its name; an unknown name is an error.
    fn from_str(s: &str) -> (r: Result<EntryType, String>) {
        if str_eq(s, "MEMORY") {
            Ok(EntryType::Memory)
        } else if str_eq(s, "AUTH") {
            Ok(EntryType::Auth)
        } else {
            Err("unknown entry type: ".to_owned().concat(s))
        }
    }
}

impl EntryType {
    /// The name of this entry type.
    pub fn as_str(&self) -> (r: &'static str)
        ensures
            *self == EntryType::Memory ==> r@ == "MEMORY"@,
            *self == EntryType::Auth ==> r@ == "AUTH"@,
    {
        match self {
            EntryType::Memory => "MEMORY",
            EntryType::Auth => "AUTH",
        }
    }
}

/// Kind of a replicated change.
#[derive(Clone, Copy, Debug, PartialEq, Eq, Structural)]
pub enum OperationType {
    Insert,
    Update,
    Delete,
}

/// Protocol message kinds.
#[derive(Clone, Copy, Debug, PartialEq, Eq, Hash, Structural)]
pub enum MessageType {
    SyncRequest,
    SyncResponse,
    Operation,
    Heartbeat,
    CollectionAnnounce,
    CollectionRequest,
}

impl MessageType {
    /// The wire tag of this message type.
    pub fn as_str(&self) -> (r: &'static str)
        ensures
            *self == MessageType::SyncRequest ==> r@ == "sync_request"@,
            *self == MessageType::SyncResponse ==> r@ == "sync_response"@,
            *self == MessageType::Operation ==> r@ == "operation"@,
            *self == MessageType::Heartbeat ==> r@ == "heartbeat"@,
            *self == MessageType::CollectionAnnounce ==> r@ == "collection_announce"@,
            *self == MessageType::CollectionRequest ==> r@ == "collection_request"@,
    {
        match self {
            MessageType::SyncRequest => "sync_request",
            MessageType::SyncResponse => "sync_response",
            MessageType::Operation => "operation",
            MessageType::Heartbeat => "heartbeat",
            MessageType::CollectionAnnounce => "collection_announce",
            MessageType::CollectionRequest => "collection_request",
        }
    }
}

/// A document together with its CRDT metadata.
pub struct DistributedDocument {
    pub id: String,
    pub entry_type: EntryType,
    pub payload: Option<Vec<(String, Value)>>,
    pub vector: VectorClock,
    pub timestamp: i64,
    pub peer_id: String,
    /// Optional marker; the value `post-pending` stages the document for
    /// posting on the next sync. Absent means a normal document.
    pub stage: Option<String>,
    /// Tombstone flag: a deleted document is retained under the vector
    /// clock at which the deletion occurred.
    pub deleted: bool,
}

/// Model of an optional field list.
pub open spec fn payload_model(p: Option<Vec<(String, Value)>>) -> Option<
    Seq<(Seq<char>, JVal)>,
> {
    match p {
        Some(v) => Some(jfields_of(v@)),
        None => None,
    }
}

/// Model of an optional string.
pub open spec fn opt_str_model(s: Option<String>) -> Option<Seq<char>> {
    match s {
        Some(v) => Some(v@),
        None => None,
    }
}

/// Two documents that agree on every observable field.
pub open spec fn doc_equiv(a: DistributedDocument, b: DistributedDocument) -> bool {
    &&& a.id@ == b.id@
    &&& a.entry_type == b.entry_type
    &&& payload_model(a.payload) == payload_model(b.payload)
    &&& vc_eq(a.vector, b.vector)
    &&& a.timestamp == b.timestamp
    &&& a.peer_id@ == b.peer_id@
    &&& opt_str_model(a.stage) == opt_str_model(b.stage)
    &&& a.deleted == b.deleted
}

impl DistributedDocument {
    /// Returns a copy that agrees with this document on every field.
    pub fn clone(&self) -> (r: DistributedDocument)
        ensures
            doc_equiv(r, *self),
    {
        DistributedDocument {
            id: self.id.clone(),
            entry_type: self.entry_type,
            payload: match &self.payload {
                Some(fields) => Some(copy_fields(fields)),
                None => None,
            },
            vector: self.vector.clone(),
            timestamp: self.timestamp,
            peer_id: self.peer_id.clone(),
            stage: match &self.stage {
                Some(s) => Some(s.clone()),
                None => None,
            },
            deleted: self.deleted,
        }
    }
}

/// A replicable change: an envelope around a document mutation.
pub struct CRDTOperation {
    pub id: String,
    pub op_type: OperationType,
    pub collection: String,
    pub document_id: String,
    pub data: Option<DistributedDocument>,
    pub vector: VectorClock,
    pub timestamp: i64,
    pub peer_id: String,
}

/// Encryption settings of a network.
pub struct EncryptionConfig {
    pub enabled: bool,
    pub shared_secret: String,
}

/// Replication settings of a network.
pub struct ReplicationConfig {
    pub factor: i32,
    /// One of `full`, `partial` or `leader`.
    pub strategy: String,
}

/// Peer discovery settings of a network.
pub struct DiscoveryConfig {
    pub mdns: bool,
    pub bootstrap: bool,
}

/// Per-network configuration.
pub struct NetworkConfig {
    pub network_id: String,
    pub name: String,
    /// Participating collections, each with a shared flag.
    pub collections: Vec<(String, bool)>,
    pub bootstrap_peers: Vec<String>,
    /// Network to which staged entries are posted.
    pub default_posting_network: String,
    /// Entry classifications that are automatically staged for posting.
    pub auto_post_classifications: Vec<EntryType>,
    /// Entries are private unless staged or configured otherwise.
    pub private_by_default: bool,
    pub encryption: EncryptionConfig,
    pub replication: ReplicationConfig,
    pub discovery: DiscoveryConfig,
}

/// Names in a list of (name, flag) pairs.
pub open spec fn coll_names(s: Seq<(String, bool)>) -> Seq<Seq<char>> {
    s.map(|i: int, e: (String, bool)| e.0@)
}

/// Field-wise agreement of two network configurations, the collections
/// with their shared flags included.
pub open spec fn config_eq(a: NetworkConfig, b: NetworkConfig) -> bool {
    &&& a.network_id@ == b.network_id@
    &&& a.name@ == b.name@
    &&& a.collections@.len() == b.collections@.len()
    &&& forall|j: int|
        0 <= j < a.collections@.len() ==> (#[trigger] a.collections@[j]).0@
            == b.collections@[j].0@ && a.collections@[j].1 == b.collections@[j].1
    &&& a.bootstrap_peers@ == b.bootstrap_peers@
    &&& a.default_posting_network@ == b.default_posting_network@
    &&& a.auto_post_classifications@ == b.auto_post_classifications@
    &&& a.private_by_default == b.private_by_default
    &&& a.encryption.enabled == b.encryption.enabled
    &&& a.encryption.shared_secret@ == b.encryption.shared_secret@
    &&& a.replication.factor == b.replication.factor
    &&& a.replication.strategy@ == b.replication.strategy@
    &&& a.discovery == b.discovery
}

impl NetworkConfig {
    /// Returns a copy that agrees with this configuration on every field.
    pub fn clone(&self) -> (r: NetworkConfig)
        ensures
            r.network_id@ == self.network_id@,
            r.name@ == self.name@,
            coll_names(r.collections@) == coll_names(self.collections@),
            r.collections@.len() == self.collections@.len(),
            forall|j: int|
                0 <= j < r.collections@.len() ==> (#[trigger] r.collections@[j]).0@
                    == self.collections@[j].0@ && r.collections@[j].1 == self.collections@[j].1,
            config_eq(r, *self),
            r.bootstrap_peers@ == self.bootstrap_peers@,
            r.default_posting_network@ == self.default_posting_network@,
            r.auto_post_classifications@ == self.auto_post_classifications@,
            r.private_by_default == self.private_by_default,
            r.encryption.enabled == self.encryption.enabled,
            r.encryption.shared_secret@ == self.encryption.shared_secret@,
            r.replication.factor == self.replication.factor,
            r.replication.strategy@ == self.replication.strategy@,
            r.discovery == self.discovery,
    {
        let mut collections: Vec<(String, bool)> = Vec::new();
        let mut i: usize = 0;
        while i < self.collections.len()
            invariant
                i <= self.collections@.len(),
                collections@.len() == i,
                forall|j: int|
                    0 <= j < i ==> #[trigger] collections@[j].0@ == self.collections@[j].0@
                        && collections@[j].1 == self.collections@[j].1,
            decreases self.collections@.len() - i,
        {
            collections.push((self.collections[i].0.clone(), self.collections[i].1));
            i = i + 1;
        }
        proof {
            assert(coll_names(collections@) =~= coll_names(self.collections@));
        }
        let mut auto_post: Vec<EntryType> = Vec::new();
        let mut k: usize = 0;
        while k < self.auto_post_classifications.len()
            invariant
                k <= self.auto_post_classifications@.len(),
                auto_post@ =~= self.auto_post_classifications@.subrange(0, k as int),
            decreases self.auto_post_classifications@.len() - k,
        {
            auto_post.push(self.auto_post_classifications[k]);
            k = k + 1;
        }
        proof {
            assert(auto_post@ =~= self.auto_post_classifications@);
        }
        NetworkConfig {
            network_id: self.network_id.clone(),
            name: self.name.clone(),
            collections,
            bootstrap_peers: copy_strings(&self.bootstrap_peers),
            default_posting_network: self.default_posting_network.clone(),
            auto_post_classifications: auto_post,
            private_by_default: self.private_by_default,
            encryption: EncryptionConfig {
                enabled: self.encryption.enabled,
                shared_secret: self.encryption.shared_secret.clone(),
            },
            replication: ReplicationConfig {
                factor: self.replication.factor,
                strategy: self.replication.strategy.clone(),
            },
            discovery: DiscoveryConfig {
                mdns: self.discovery.mdns,
                bootstrap: self.discovery.bootstrap,
            },
        }
    }
}

/// Observed metadata of a remote peer.
pub struct PeerInfo {
    pub peer_id: String,
    pub addrs: Vec<String>,
    pub protocols: Vec<String>,
    /// Last measured round-trip latency, in milliseconds.
    pub latency_ms: i64,
    /// Last-seen wall clock, in epoch seconds.
    pub last_seen: i64,
    pub collections: Vec<String>,
}

/// Synchronization state of one collection on one network.
pub struct SyncState {
    pub collection: String,
    pub network_id: String,
    pub local_vector: VectorClock,
    /// Last sync wall clock, in epoch seconds.
    pub last_sync: i64,
    pub pending_operations: Vec<CRDTOperation>,
    /// Ids of documents staged for posting on the next sync.
    pub staged_entries: Vec<String>,
    pub sync_in_progress: bool,
}

/// Counters of one network.
pub struct NetworkStats {
    pub network_id: String,
    pub connected_peers: i32,
    pub total_peers: i32,
    pub collections_shared: i32,
    pub operations_sent: i64,
    pub operations_received: i64,
    pub bytes_transferred: i64,
    /// Average round-trip latency, in milliseconds.
    pub average_latency_ms: i64,
}

impl NetworkStats {
    /// Returns a copy that agrees with these counters on every field.
    pub fn clone(&self) -> (r: NetworkStats)
        ensures
            r.network_id@ == self.network_id@,
            r.connected_peers == self.connected_peers,
            r.total_peers == self.total_peers,
            r.collections_shared == self.collections_shared,
            r.operations_sent == self.operations_sent,
            r.operations_received == self.operations_received,
            r.bytes_transferred == self.bytes_transferred,
            r.average_latency_ms == self.average_latency_ms,
    {
        NetworkStats {
            network_id: self.network_id.clone(),
            connected_peers: self.connected_peers,
            total_peers: self.total_peers,
            collections_shared: self.collections_shared,
            operations_sent: self.operations_sent,
            operations_received: self.operations_received,
            bytes_transferred: self.bytes_transferred,
            average_latency_ms: self.average_latency_ms,
        }
    }
}

/// Envelope of every protocol message.
#[derive(Debug)]
pub struct ProtocolMessage {
    pub msg_type: MessageType,
    pub network_id: String,
    pub sender_id: String,
    /// Authoring wall clock, in epoch seconds.
    pub timestamp: i64,
    pub payload: Value,
}

/// Error kinds surfaced by the library.
#[derive(Debug, PartialEq)]
pub enum DbError {
    /// A caller-supplied value is malformed (missing id, empty name).
    Validation(String),
    /// A document, peer or key that was asked for does not exist.
    NotFound(String),
    /// A key is unusable or an envelope cannot be decrypted.
    Crypto(String),
    /// A message or envelope is malformed.
    Protocol(String),
    /// An underlying read or write failed.
    Io(String),
    /// A network operation ran before initialization.
    NotInitialized,
}

} // verus!
