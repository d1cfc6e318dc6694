//! Peer-to-peer membership and messaging state.
//!
//! The manager owns the process-wide networking state: the peer identity,
//! the known networks with their collections and counters, the known
//! peers, and the set of open connections. Wire transport is left to the
//! caller: broadcast and directed sends return a plan naming the message
//! and the target peers, and the caller reports handshakes back.

use vstd::prelude::*;
use crate::types::NetworkConfig;
use crate::types::EncryptionConfig;
use crate::types::ReplicationConfig;
use crate::types::DiscoveryConfig;
use crate::types::NetworkStats;
use crate::types::PeerInfo;
use crate::types::ProtocolMessage;
use crate::types::DbError;
use crate::types::coll_names;
use crate::value::copy_strings;
use crate::value::Value;
use crate::value::JVal;
use crate::value::jget;
use crate::value::jfields_of;
use crate::value::lemma_jfields_index;
use crate::value::lemma_jget_at;
use crate::assoc::amodel;
use crate::assoc::akeys_distinct;
use crate::assoc::ahas;
use crate::assoc::aget;
use crate::assoc::afind;
use crate::assoc::lemma_aget_at;
use crate::assoc::lemma_aget_push;
use crate::assoc::lemma_aget_update;
use crate::assoc::lemma_aget_remove;

verus! {

/// A set of sends for the caller to perform: the same message, one frame
/// per target peer, each written independently.
#[derive(Debug)]
pub struct Broadcast {
    pub message: ProtocolMessage,
    pub targets: Vec<String>,
}

/// Peer-to-peer networking state.
pub struct NetworkManager {
    peer_id: String,
    networks: Vec<(String, NetworkConfig)>,
    peers: Vec<(String, PeerInfo)>,
    connections: Vec<String>,
    stats: Vec<(String, NetworkStats)>,
    initialized: bool,
}

/// Views of a list of strings.
pub open spec fn str_views(s: Seq<String>) -> Seq<Seq<char>> {
    s.map(|i: int, e: String| e@)
}

/// Whether `c0` agrees field-wise with some registered configuration.
pub open spec fn some_network_like(nm: NetworkManager, c0: NetworkConfig) -> bool {
    exists|id: Seq<char>|
        #![trigger nm.network_at(id)]
        nm.network_at(id) matches Some(c) && crate::types::config_eq(c0, c)
}

impl NetworkManager {
    #[verifier::type_invariant]
    spec fn wf(self) -> bool {
        &&& akeys_distinct(amodel(self.networks@))
        &&& akeys_distinct(amodel(self.peers@))
        &&& akeys_distinct(amodel(self.stats@))
        &&& forall|i: int, j: int|
            0 <= i < j < self.connections@.len() ==> self.connections@[i]@
                != self.connections@[j]@
    }

    /// This process's peer identifier.
    pub closed spec fn spec_peer_id(self) -> Seq<char> {
        self.peer_id@
    }

    /// Whether the manager has been initialized.
    pub closed spec fn spec_initialized(self) -> bool {
        self.initialized
    }

    /// The configuration registered for a network id, if any.
    pub closed spec fn network_at(self, id: Seq<char>) -> Option<NetworkConfig> {
        aget(amodel(self.networks@), id)
    }

    /// Whether a network id is registered.
    pub open spec fn has_network(self, id: Seq<char>) -> bool {
        self.network_at(id) is Some
    }

    /// The counters registered for a network id, if any.
    pub closed spec fn stats_at(self, id: Seq<char>) -> Option<NetworkStats> {
        aget(amodel(self.stats@), id)
    }

    /// The ids of the peers with an open connection, in order.
    pub closed spec fn spec_connections(self) -> Seq<Seq<char>> {
        str_views(self.connections@)
    }

    /// Whether a peer has an open connection.
    pub open spec fn connected(self, peer: Seq<char>) -> bool {
        self.spec_connections().contains(peer)
    }

    /// The info recorded for a peer id, if any.
    pub closed spec fn peer_at(self, id: Seq<char>) -> Option<PeerInfo> {
        aget(amodel(self.peers@), id)
    }

    /// Creates a manager with the given stable peer identity, not yet
    /// initialized and with no networks, peers or connections.
    pub fn with_peer_id(peer_id: String) -> (r: NetworkManager)
        ensures
            r.spec_peer_id() == peer_id@,
            !r.spec_initialized(),
            forall|id: Seq<char>| #[trigger] r.network_at(id) is None,
            forall|id: Seq<char>| #[trigger] r.stats_at(id) is None,
            forall|id: Seq<char>| #[trigger] r.peer_at(id) is None,
            r.spec_connections().len() == 0,
    {
        let r = NetworkManager {
            peer_id,
            networks: Vec::new(),
            peers: Vec::new(),
            connections: Vec::new(),
            stats: Vec::new(),
            initialized: false,
        };
        proof {
            assert forall|id: Seq<char>| #[trigger] r.network_at(id) is None by {
                assert(!ahas(amodel(r.networks@), id));
            }
            assert forall|id: Seq<char>| #[trigger] r.stats_at(id) is None by {
                assert(!ahas(amodel(r.stats@), id));
            }
            assert forall|id: Seq<char>| #[trigger] r.peer_at(id) is None by {
                assert(!ahas(amodel(r.peers@), id));
            }
        }
        r
    }

    /// Creates a manager with a fresh random peer identity. Fails only
    /// when the system's randomness source does.
    pub fn new() -> (r: Result<NetworkManager, DbError>)
        ensures
            r matches Ok(nm) ==> {
                &&& !nm.spec_initialized()
                &&& forall|id: Seq<char>| #[trigger] nm.network_at(id) is None
                &&& forall|id: Seq<char>| #[trigger] nm.stats_at(id) is None
                &&& forall|id: Seq<char>| #[trigger] nm.peer_at(id) is None
                &&& nm.spec_connections().len() == 0
                &&& nm.spec_peer_id().len() == 36
            },
            r matches Err(e) ==> e is Crypto,
    {
        match crate::crypto::new_uuid_string() {
            Ok(id) => Ok(Self::with_peer_id(id)),
            Err(e) => Err(e),
        }
    }

    /// Marks the manager initialized. Initializing twice changes nothing:
    /// the operation is idempotent.
    pub fn initialize(&mut self) -> (r: Result<(), DbError>)
        ensures
            r is Ok,
            final(self).spec_initialized(),
            is_initialized_state(*old(self), *final(self)),
            old(self).spec_initialized() ==> *final(self) == *old(self),
            same_tables(*old(self), *final(self)),
    {
        proof {
            use_type_invariant(&*self);
        }
        if !self.initialized {
            self.initialized = true;
        }
        Ok(())
    }

    /// This process's peer identifier.
    pub fn get_peer_id(&self) -> (r: String)
        ensures
            r@ == self.spec_peer_id(),
    {
        self.peer_id.clone()
    }

    /// Registers `cfg` under its network id with an empty collection set
    /// and zeroed counters; registering a known id changes nothing. The
    /// manager initializes itself first. Returns the network id.
    pub fn create_network(&mut self, cfg: NetworkConfig) -> (r: Result<String, DbError>)
        ensures
            r matches Ok(id) ==> id@ == cfg.network_id@,
            final(self).spec_initialized(),
            r is Ok,
            final(self).has_network(cfg.network_id@),
            old(self).has_network(cfg.network_id@) ==> (forall|id: Seq<char>| #[trigger] final(self).network_at(id) == old(self).network_at(id)),
            old(self).has_network(cfg.network_id@) ==> (forall|id: Seq<char>| #[trigger] final(self).stats_at(id) == old(self).stats_at(id)),
            !old(self).has_network(cfg.network_id@) ==> (final(self).network_at(cfg.network_id@)
                matches Some(c) && {
                &&& c.network_id@ == cfg.network_id@
                &&& c.name@ == cfg.name@
                &&& c.collections@.len() == 0
                &&& c.bootstrap_peers@ == cfg.bootstrap_peers@
                &&& c.default_posting_network@ == cfg.default_posting_network@
                &&& c.auto_post_classifications@ == cfg.auto_post_classifications@
                &&& c.private_by_default == cfg.private_by_default
                &&& c.encryption == cfg.encryption
                &&& c.replication == cfg.replication
                &&& c.discovery == cfg.discovery
            }),
            !old(self).has_network(cfg.network_id@) ==> (final(self).stats_at(cfg.network_id@)
                matches Some(st) && {
                &&& st.network_id@ == cfg.network_id@
                &&& st.connected_peers == 0
                &&& st.total_peers == 0
                &&& st.collections_shared == 0
                &&& st.operations_sent == 0
                &&& st.operations_received == 0
                &&& st.bytes_transferred == 0
                &&& st.average_latency_ms == 0
            }),
            forall|id: Seq<char>|
                id != cfg.network_id@ ==> #[trigger] final(self).network_at(id) == old(
                    self,
                ).network_at(id),
            forall|id: Seq<char>|
                id != cfg.network_id@ ==> #[trigger] final(self).stats_at(id) == old(
                    self,
                ).stats_at(id),
            final(self).spec_connections() == old(self).spec_connections(),
            final(self).spec_peer_id() == old(self).spec_peer_id(),
            forall|id: Seq<char>| #[trigger] final(self).peer_at(id) == old(self).peer_at(id),
    {
        proof {
            use_type_invariant(&*self);
        }
        let _ = self.initialize();
        proof {
            use_type_invariant(&*self);
        }
        let ghost nm0 = amodel(self.networks@);
        let ghost sm0 = amodel(self.stats@);
        match afind(&self.networks, cfg.network_id.as_str()) {
            Some(i) => {
                proof {
                    lemma_aget_at(nm0, i as int);
                }
                Ok(cfg.network_id)
            },
            None => {
                proof {
                    assert(!ahas(nm0, cfg.network_id@));
                }
                let mut cfg = cfg;
                let id_for_entry = cfg.network_id.clone();
                let id_for_stats = cfg.network_id.clone();
                let id_result = cfg.network_id.clone();
                cfg.collections = Vec::new();
                let ghost cfgv = cfg;
                let ghost nid = cfg.network_id@;
                let mut networks: Vec<(String, NetworkConfig)> = Vec::new();
                std::mem::swap(&mut networks, &mut self.networks);
                networks.push((id_for_entry, cfg));
                proof {
                    assert(amodel(networks@) =~= nm0.push((nid, cfgv)));
                    assert forall|id: Seq<char>| true implies #[trigger] aget(
                        amodel(networks@),
                        id,
                    ) == if id == nid {
                        Some(cfgv)
                    } else {
                        aget(nm0, id)
                    } by {
                        lemma_aget_push(nm0, nid, cfgv, id);
                    }
                }
                self.networks = networks;
                let stats_entry = NetworkStats {
                    network_id: id_for_stats,
                    connected_peers: 0,
                    total_peers: 0,
                    collections_shared: 0,
                    operations_sent: 0,
                    operations_received: 0,
                    bytes_transferred: 0,
                    average_latency_ms: 0,
                };
                let key_for_stats = stats_entry.network_id.clone();
                let mut stats: Vec<(String, NetworkStats)> = Vec::new();
                std::mem::swap(&mut stats, &mut self.stats);
                stats_upsert(&mut stats, key_for_stats, stats_entry);
                self.stats = stats;
                Ok(id_result)
            },
        }
    }

    /// Registers a default configuration for `network_id` when it is
    /// unknown, with zeroed counters. Dialing the bootstrap peers and the
    /// handshake are the caller's part; it reports each accepted peer
    /// through `register_peer`. Returns the addresses to dial.
    pub fn join_network(&mut self, network_id: &str, bootstrap_peers: Vec<String>) -> (r: Result<
        Vec<String>,
        DbError,
    >)
        ensures
            r matches Ok(addrs) ==> addrs@ == bootstrap_peers@,
            final(self).spec_initialized(),
            r is Ok,
            final(self).has_network(network_id@),
            forall|id: Seq<char>|
                id != network_id@ ==> #[trigger] final(self).network_at(id) == old(
                    self,
                ).network_at(id),
            old(self).has_network(network_id@) ==> (forall|id: Seq<char>| #[trigger] final(self).network_at(id) == old(self).network_at(id)),
            !old(self).has_network(network_id@) ==> (final(self).network_at(network_id@)
                matches Some(c) && {
                &&& c.network_id@ == network_id@
                &&& c.name@ == "Network "@ + network_id@
                &&& c.collections@.len() == 0
                &&& c.bootstrap_peers@.len() == 0
                &&& c.default_posting_network@.len() == 0
                &&& c.auto_post_classifications@.len() == 0
                &&& c.private_by_default == true
                &&& c.encryption.enabled == false && c.encryption.shared_secret@.len() == 0
                &&& c.replication.factor == 0 && c.replication.strategy@.len() == 0
                &&& c.discovery.mdns == false && c.discovery.bootstrap == false
            }),
            !old(self).has_network(network_id@) ==> (final(self).stats_at(network_id@)
                matches Some(st) && {
                &&& st.network_id@ == network_id@
                &&& st.connected_peers == 0
                &&& st.total_peers == 0
                &&& st.collections_shared == 0
                &&& st.operations_sent == 0
                &&& st.operations_received == 0
                &&& st.bytes_transferred == 0
                &&& st.average_latency_ms == 0
            }),
            final(self).spec_connections() == old(self).spec_connections(),
            final(self).spec_peer_id() == old(self).spec_peer_id(),
            forall|id: Seq<char>| #[trigger] final(self).peer_at(id) == old(self).peer_at(id),
    {
        proof {
            use_type_invariant(&*self);
        }
        let _ = self.initialize();
        proof {
            use_type_invariant(&*self);
        }
        let ghost nm0 = amodel(self.networks@);
        let ghost sm0 = amodel(self.stats@);
        match afind(&self.networks, network_id) {
            Some(i) => {
                proof {
                    lemma_aget_at(nm0, i as int);
                }
            },
            None => {
                proof {
                    assert(!ahas(nm0, network_id@));
                }
                let cfg = NetworkConfig {
                    network_id: network_id.to_owned(),
                    name: "Network ".to_owned().concat(network_id),
                    collections: Vec::new(),
                    bootstrap_peers: Vec::new(),
                    default_posting_network: String::new(),
                    auto_post_classifications: Vec::new(),
                    private_by_default: true,
                    encryption: EncryptionConfig { enabled: false, shared_secret: String::new() },
                    replication: ReplicationConfig { factor: 0, strategy: String::new() },
                    discovery: DiscoveryConfig { mdns: false, bootstrap: false },
                };
                let ghost cfgv = cfg;
                let ghost nid = network_id@;
                let mut networks: Vec<(String, NetworkConfig)> = Vec::new();
                std::mem::swap(&mut networks, &mut self.networks);
                networks.push((network_id.to_owned(), cfg));
                proof {
                    assert(amodel(networks@) =~= nm0.push((nid, cfgv)));
                    assert forall|id: Seq<char>| true implies #[trigger] aget(
                        amodel(networks@),
                        id,
                    ) == if id == nid {
                        Some(cfgv)
                    } else {
                        aget(nm0, id)
                    } by {
                        lemma_aget_push(nm0, nid, cfgv, id);
                    }
                }
                self.networks = networks;
                let stats_entry = NetworkStats {
                    network_id: network_id.to_owned(),
                    connected_peers: 0,
                    total_peers: 0,
                    collections_shared: 0,
                    operations_sent: 0,
                    operations_received: 0,
                    bytes_transferred: 0,
                    average_latency_ms: 0,
                };
                let mut stats: Vec<(String, NetworkStats)> = Vec::new();
                std::mem::swap(&mut stats, &mut self.stats);
                stats_upsert(&mut stats, network_id.to_owned(), stats_entry);
                self.stats = stats;
            },
        }
        Ok(bootstrap_peers)
    }

    /// Records a peer reported by the caller after a successful handshake:
    /// the connection and the peer's observed metadata.
    pub fn register_peer(&mut self, peer_id: String, addr: String, now: i64)
        ensures
            final(self).connected(peer_id@),
            final(self).peer_at(peer_id@) matches Some(p) && p.peer_id@ == peer_id@
                && p.last_seen == now,
            forall|id: Seq<char>|
                id != peer_id@ ==> #[trigger] final(self).peer_at(id) == old(self).peer_at(id),
            forall|p: Seq<char>| #[trigger] old(self).connected(p) ==> final(self).connected(p),
            old(self).connected(peer_id@) ==> final(self).spec_connections() == old(
                self,
            ).spec_connections(),
            forall|id: Seq<char>| #[trigger] final(self).network_at(id) == old(self).network_at(
                id,
            ),
            final(self).spec_initialized() == old(self).spec_initialized(),
            final(self).spec_peer_id() == old(self).spec_peer_id(),
    {
        proof {
            use_type_invariant(&*self);
        }
        let ghost pm0 = amodel(self.peers@);
        let ghost conns0 = self.connections@;
        // record the connection if it is new
        let mut have = false;
        let mut i: usize = 0;
        while i < self.connections.len()
            invariant
                i <= self.connections@.len(),
                conns0 == self.connections@,
                have <==> exists|j: int| 0 <= j < i && conns0[j]@ == peer_id@,
            decreases self.connections@.len() - i,
        {
            if self.connections[i].eq(&peer_id) {
                have = true;
                proof {
                    assert(0 <= i < i + 1 && conns0[i as int]@ == peer_id@);
                }
            }
            i = i + 1;
        }
        if !have {
            let mut connections: Vec<String> = Vec::new();
            std::mem::swap(&mut connections, &mut self.connections);
            connections.push(peer_id.clone());
            proof {
                assert(str_views(connections@) =~= str_views(conns0).push(peer_id@));
                assert(str_views(connections@).contains(peer_id@)) by {
                    assert(str_views(connections@)[conns0.len() as int] == peer_id@);
                }
                assert forall|p: Seq<char>| str_views(conns0).contains(p) implies str_views(
                    connections@,
                ).contains(p) by {
                    let j = choose|j: int|
                        0 <= j < str_views(conns0).len() && str_views(conns0)[j] == p;
                    assert(str_views(connections@)[j] == p);
                }
            }
            self.connections = connections;
        } else {
            proof {
                let j = choose|j: int| 0 <= j < conns0.len() && conns0[j]@ == peer_id@;
                assert(str_views(conns0)[j] == peer_id@);
                assert(self.spec_connections().contains(peer_id@));
            }
        }
        // record the peer info
        let info = PeerInfo {
            peer_id: peer_id.clone(),
            addrs: {
                let mut a: Vec<String> = Vec::new();
                a.push(addr);
                a
            },
            protocols: Vec::new(),
            latency_ms: 0,
            last_seen: now,
            collections: Vec::new(),
        };
        let ghost infov = info;
        let ghost pid = peer_id@;
        let mut peers: Vec<(String, PeerInfo)> = Vec::new();
        std::mem::swap(&mut peers, &mut self.peers);
        match afind(&peers, peer_id.as_str()) {
            Some(i2) => {
                let ghost key0 = pm0[i2 as int].0;
                peers[i2] = (peer_id, info);
                proof {
                    assert(amodel(peers@) =~= pm0.update(i2 as int, (key0, infov)));
                    assert forall|id: Seq<char>| true implies #[trigger] aget(amodel(peers@), id)
                        == if id == key0 {
                        Some(infov)
                    } else {
                        aget(pm0, id)
                    } by {
                        lemma_aget_update(pm0, i2 as int, infov, id);
                    }
                }
            },
            None => {
                peers.push((peer_id, info));
                proof {
                    assert(amodel(peers@) =~= pm0.push((pid, infov)));
                    assert(!ahas(pm0, pid));
                    assert forall|id: Seq<char>| true implies #[trigger] aget(amodel(peers@), id)
                        == if id == pid {
                        Some(infov)
                    } else {
                        aget(pm0, id)
                    } by {
                        lemma_aget_push(pm0, pid, infov, id);
                    }
                }
            },
        }
        self.peers = peers;
    }

    /// Removes a network and its counters; open connections remain, since
    /// they may serve other networks.
    pub fn leave_network(&mut self, network_id: &str) -> (r: Result<(), DbError>)
        ensures
            r is Ok,
            final(self).network_at(network_id@) is None,
            forall|id: Seq<char>|
                id != network_id@ ==> #[trigger] final(self).network_at(id) == old(
                    self,
                ).network_at(id),
            final(self).stats_at(network_id@) is None,
            forall|id: Seq<char>|
                id != network_id@ ==> #[trigger] final(self).stats_at(id) == old(self).stats_at(
                    id,
                ),
            forall|id: Seq<char>| #[trigger] final(self).peer_at(id) == old(self).peer_at(id),
            final(self).spec_connections() == old(self).spec_connections(),
            final(self).spec_initialized() == old(self).spec_initialized(),
            final(self).spec_peer_id() == old(self).spec_peer_id(),
    {
        proof {
            use_type_invariant(&*self);
        }
        let ghost nm0 = amodel(self.networks@);
        let ghost sm0 = amodel(self.stats@);
        let mut networks: Vec<(String, NetworkConfig)> = Vec::new();
        std::mem::swap(&mut networks, &mut self.networks);
        match afind(&networks, network_id) {
            Some(i) => {
                let ghost key0 = nm0[i as int].0;
                let _ = networks.remove(i);
                proof {
                    assert(amodel(networks@) =~= nm0.remove(i as int));
                    assert forall|id: Seq<char>| true implies #[trigger] aget(
                        amodel(networks@),
                        id,
                    ) == if id == key0 {
                        None::<NetworkConfig>
                    } else {
                        aget(nm0, id)
                    } by {
                        lemma_aget_remove(nm0, i as int, id);
                    }
                }
            },
            None => {
                proof {
                    assert(!ahas(amodel(networks@), network_id@));
                }
            },
        }
        self.networks = networks;
        let mut stats: Vec<(String, NetworkStats)> = Vec::new();
        std::mem::swap(&mut stats, &mut self.stats);
        match afind(&stats, network_id) {
            Some(i) => {
                let ghost key0 = sm0[i as int].0;
                let _ = stats.remove(i);
                proof {
                    assert(amodel(stats@) =~= sm0.remove(i as int));
                    assert forall|id: Seq<char>| true implies #[trigger] aget(amodel(stats@), id)
                        == if id == key0 {
                        None::<NetworkStats>
                    } else {
                        aget(sm0, id)
                    } by {
                        lemma_aget_remove(sm0, i as int, id);
                    }
                }
            },
            None => {
                proof {
                    assert(!ahas(amodel(stats@), network_id@));
                }
            },
        }
        self.stats = stats;
        Ok(())
    }

    /// Clears the initialized flag and closes every connection.
    pub fn shutdown(&mut self) -> (r: Result<(), DbError>)
        ensures
            r is Ok,
            !final(self).spec_initialized(),
            final(self).spec_connections().len() == 0,
            forall|id: Seq<char>| #[trigger] final(self).network_at(id) == old(self).network_at(
                id,
            ),
            final(self).spec_peer_id() == old(self).spec_peer_id(),
    {
        proof {
            use_type_invariant(&*self);
        }
        self.initialized = false;
        let mut connections: Vec<String> = Vec::new();
        std::mem::swap(&mut connections, &mut self.connections);
        Ok(())
    }

    /// Plans a broadcast: the message is to be written, framed as one
    /// newline-terminated record, to every open connection independently;
    /// a failed write to one target must not stop the others. Fails when
    /// the manager is not initialized.
    pub fn broadcast_message(&self, network_id: &str, msg: ProtocolMessage) -> (r: Result<
        Broadcast,
        DbError,
    >)
        ensures
            !self.spec_initialized() ==> (r matches Err(e) && e is NotInitialized),
            self.spec_initialized() ==> (r matches Ok(b) && b.message == msg && str_views(
                b.targets@,
            ) == self.spec_connections() && (forall|i: int, j: int|
                0 <= i < j < b.targets@.len() ==> b.targets@[i]@ != b.targets@[j]@)),
    {
        proof {
            use_type_invariant(&*self);
        }
        // every open connection is written to, whichever networks it serves
        let _ = network_id;
        if !self.initialized {
            return Err(DbError::NotInitialized);
        }
        let targets = copy_strings(&self.connections);
        Ok(Broadcast { message: msg, targets })
    }

    /// Plans a directed send to one connected peer. Fails when the
    /// manager is not initialized, and with a not-found error when the
    /// peer has no open connection.
    pub fn send_to_peer(&self, peer_id: &str, network_id: &str, msg: ProtocolMessage) -> (r:
        Result<Broadcast, DbError>)
        ensures
            !self.spec_initialized() ==> (r matches Err(e) && e is NotInitialized),
            self.spec_initialized() && !self.connected(peer_id@) ==> (r matches Err(e) && e
                is NotFound),
            self.spec_initialized() && self.connected(peer_id@) ==> (r matches Ok(b) && b.message
                == msg && b.targets@.len() == 1 && b.targets@[0]@ == peer_id@),
    {
        proof {
            use_type_invariant(&*self);
        }
        let _ = network_id;
        if !self.initialized {
            return Err(DbError::NotInitialized);
        }
        let mut i: usize = 0;
        let mut have = false;
        while i < self.connections.len()
            invariant
                i <= self.connections@.len(),
                have <==> exists|j: int| 0 <= j < i && self.connections@[j]@ == peer_id@,
            decreases self.connections@.len() - i,
        {
            if crate::value::str_eq(self.connections[i].as_str(), peer_id) {
                have = true;
                proof {
                    assert(0 <= i < i + 1 && self.connections@[i as int]@ == peer_id@);
                }
            }
            i = i + 1;
        }
        if !have {
            proof {
                assert(!self.connected(peer_id@)) by {
                    if self.spec_connections().contains(peer_id@) {
                        let j = choose|j: int|
                            0 <= j < self.spec_connections().len() && self.spec_connections()[j]
                                == peer_id@;
                        assert(self.connections@[j]@ == peer_id@);
                    }
                }
            }
            return Err(DbError::NotFound("peer not connected".to_owned()));
        }
        proof {
            let j = choose|j: int|
                0 <= j < self.connections@.len() && self.connections@[j]@ == peer_id@;
            assert(self.spec_connections()[j] == peer_id@);
        }
        let mut targets: Vec<String> = Vec::new();
        targets.push(peer_id.to_owned());
        Ok(Broadcast { message: msg, targets })
    }

    /// Adds `collection_name` to a known network's collection set,
    /// refreshes its counters, and plans a collection announcement to
    /// every open connection.
    pub fn add_collection_to_network(&mut self, network_id: &str, collection_name: &str) -> (r:
        Result<Broadcast, DbError>)
        ensures
            !old(self).spec_initialized() ==> (r matches Err(e) && e is NotInitialized),
            old(self).spec_initialized() ==> (r matches Ok(b) && b.message.msg_type
                == crate::types::MessageType::CollectionAnnounce && b.message.network_id@
                == network_id@ && b.message.sender_id@ == old(self).spec_peer_id() && str_views(
                b.targets@,
            ) == old(self).spec_connections() && (b.message.payload@ matches JVal::Obj(om)
                && jget(om, "collection"@) == Some(JVal::Str(collection_name@)))),
            old(self).has_network(network_id@) && old(self).stats_at(network_id@) is Some ==> (
            final(self).stats_at(network_id@) matches Some(st) && (final(self).network_at(
                network_id@,
            ) matches Some(c) && st.collections_shared as int == (if c.collections@.len()
                > i32::MAX as int {
                i32::MAX as int
            } else {
                c.collections@.len() as int
            }))),
            old(self).has_network(network_id@) ==> (final(self).network_at(network_id@)
                matches Some(c) && coll_names(c.collections@).contains(collection_name@)),
            !old(self).has_network(network_id@) ==> (forall|id: Seq<char>| #[trigger] final(self).network_at(id) == old(self).network_at(id)),
            forall|id: Seq<char>|
                id != network_id@ ==> #[trigger] final(self).network_at(id) == old(
                    self,
                ).network_at(id),
            final(self).spec_connections() == old(self).spec_connections(),
            final(self).spec_initialized() == old(self).spec_initialized(),
            final(self).spec_peer_id() == old(self).spec_peer_id(),
    {
        proof {
            use_type_invariant(&*self);
        }
        let ghost nm0 = amodel(self.networks@);
        let mut networks: Vec<(String, NetworkConfig)> = Vec::new();
        std::mem::swap(&mut networks, &mut self.networks);
        let mut new_len: Option<usize> = None;
        match afind(&networks, network_id) {
            Some(i) => {
                let ghost key0 = nm0[i as int].0;
                proof {
                    lemma_aget_at(nm0, i as int);
                }
                let (kname, mut cfg) = networks.remove(i);
                let mut t: usize = 0;
                let mut found = false;
                while t < cfg.collections.len()
                    invariant
                        t <= cfg.collections@.len(),
                        found <==> exists|u: int|
                            0 <= u < t && cfg.collections@[u].0@ == collection_name@,
                    decreases cfg.collections@.len() - t,
                {
                    if crate::value::str_eq(cfg.collections[t].0.as_str(), collection_name) {
                        found = true;
                        cfg.collections[t] = (cfg.collections[t].0.clone(), true);
                        proof {
                            assert(0 <= t < t + 1 && cfg.collections@[t as int].0@
                                == collection_name@);
                        }
                    }
                    t = t + 1;
                }
                if !found {
                    cfg.collections.push((collection_name.to_owned(), true));
                }
                proof {
                    if found {
                        let u = choose|u: int|
                            0 <= u < cfg.collections@.len() && cfg.collections@[u].0@
                                == collection_name@;
                        assert(coll_names(cfg.collections@)[u] == collection_name@);
                    } else {
                        assert(coll_names(cfg.collections@).last() == collection_name@);
                    }
                    assert(coll_names(cfg.collections@).contains(collection_name@));
                }
                new_len = Some(cfg.collections.len());
                let ghost cfgv = cfg;
                networks.push((kname, cfg));
                proof {
                    assert(amodel(networks@) =~= nm0.remove(i as int).push((key0, cfgv)));
                    assert forall|id: Seq<char>| true implies #[trigger] aget(
                        amodel(networks@),
                        id,
                    ) == if id == key0 {
                        Some(cfgv)
                    } else {
                        aget(nm0, id)
                    } by {
                        lemma_aget_remove(nm0, i as int, id);
                        lemma_aget_push(nm0.remove(i as int), key0, cfgv, id);
                    }
                }
            },
            None => {
                proof {
                    assert(!ahas(amodel(networks@), network_id@));
                }
            },
        }
        self.networks = networks;
        match new_len {
            Some(n) => {
                let ghost sm0 = amodel(self.stats@);
                let mut stats: Vec<(String, NetworkStats)> = Vec::new();
                std::mem::swap(&mut stats, &mut self.stats);
                match afind(&stats, network_id) {
                    Some(si) => {
                        let ghost skey0 = sm0[si as int].0;
                        let shared = if n > (i32::MAX as usize) {
                            i32::MAX
                        } else {
                            n as i32
                        };
                        let old_entry = stats[si].1.clone();
                        let skey = stats[si].0.clone();
                        let entry = NetworkStats {
                            network_id: old_entry.network_id,
                            connected_peers: old_entry.connected_peers,
                            total_peers: old_entry.total_peers,
                            collections_shared: shared,
                            operations_sent: old_entry.operations_sent,
                            operations_received: old_entry.operations_received,
                            bytes_transferred: old_entry.bytes_transferred,
                            average_latency_ms: old_entry.average_latency_ms,
                        };
                        let ghost entv = entry;
                        stats[si] = (skey, entry);
                        proof {
                            assert(amodel(stats@) =~= sm0.update(si as int, (skey0, entv))) by {
                                assert(stats@[si as int].0@ == skey0);
                            }
                            assert forall|id: Seq<char>| true implies #[trigger] aget(
                                amodel(stats@),
                                id,
                            ) == if id == skey0 {
                                Some(entv)
                            } else {
                                aget(sm0, id)
                            } by {
                                lemma_aget_update(sm0, si as int, entv, id);
                            }
                        }
                    },
                    None => {
                        proof {
                            assert(!ahas(amodel(stats@), network_id@));
                        }
                    },
                }
                self.stats = stats;
            },
            None => {},
        }
        // plan the announcement
        if !self.initialized {
            return Err(DbError::NotInitialized);
        }
        let mut payload: Vec<(String, Value)> = Vec::new();
        payload.push(("collection".to_owned(), Value::Str(collection_name.to_owned())));
        proof {
            lemma_jfields_index(payload@);
            assert(jfields_of(payload@)[0] == ("collection"@, JVal::Str(collection_name@)));
            lemma_jget_at(jfields_of(payload@), 0);
        }
        let msg = ProtocolMessage {
            msg_type: crate::types::MessageType::CollectionAnnounce,
            network_id: network_id.to_owned(),
            sender_id: self.peer_id.clone(),
            timestamp: crate::crypto::now_seconds(),
            payload: Value::Obj(payload),
        };
        let targets = copy_strings(&self.connections);
        Ok(Broadcast { message: msg, targets })
    }

    /// Removes `collection_name` from a known network's collection set
    /// and refreshes its counters.
    pub fn remove_collection_from_network(&mut self, network_id: &str, collection_name: &str)
        -> (r: Result<(), DbError>)
        ensures
            r is Ok,
            old(self).has_network(network_id@) ==> (final(self).network_at(network_id@)
                matches Some(c) && !coll_names(c.collections@).contains(collection_name@)),
            forall|id: Seq<char>|
                id != network_id@ ==> #[trigger] final(self).network_at(id) == old(
                    self,
                ).network_at(id),
            final(self).spec_connections() == old(self).spec_connections(),
            final(self).spec_initialized() == old(self).spec_initialized(),
            final(self).spec_peer_id() == old(self).spec_peer_id(),
    {
        proof {
            use_type_invariant(&*self);
        }
        let ghost nm0 = amodel(self.networks@);
        let mut networks: Vec<(String, NetworkConfig)> = Vec::new();
        std::mem::swap(&mut networks, &mut self.networks);
        match afind(&networks, network_id) {
            Some(i) => {
                let ghost key0 = nm0[i as int].0;
                proof {
                    lemma_aget_at(nm0, i as int);
                }
                let (kname, mut cfg) = networks.remove(i);
                let mut kept: Vec<(String, bool)> = Vec::new();
                let mut t: usize = 0;
                while t < cfg.collections.len()
                    invariant
                        t <= cfg.collections@.len(),
                        forall|u: int|
                            0 <= u < kept@.len() ==> (#[trigger] kept@[u]).0@ != collection_name@,
                    decreases cfg.collections@.len() - t,
                {
                    if !crate::value::str_eq(cfg.collections[t].0.as_str(), collection_name) {
                        kept.push((cfg.collections[t].0.clone(), cfg.collections[t].1));
                    }
                    t = t + 1;
                }
                cfg.collections = kept;
                proof {
                    assert(!coll_names(cfg.collections@).contains(collection_name@)) by {
                        if coll_names(cfg.collections@).contains(collection_name@) {
                            let u = choose|u: int|
                                0 <= u < coll_names(cfg.collections@).len() && coll_names(
                                    cfg.collections@,
                                )[u] == collection_name@;
                            assert(cfg.collections@[u].0@ == collection_name@);
                        }
                    }
                }
                let ghost cfgv = cfg;
                networks.push((kname, cfg));
                proof {
                    assert(amodel(networks@) =~= nm0.remove(i as int).push((key0, cfgv)));
                    assert forall|id: Seq<char>| true implies #[trigger] aget(
                        amodel(networks@),
                        id,
                    ) == if id == key0 {
                        Some(cfgv)
                    } else {
                        aget(nm0, id)
                    } by {
                        lemma_aget_remove(nm0, i as int, id);
                        lemma_aget_push(nm0.remove(i as int), key0, cfgv, id);
                    }
                }
            },
            None => {
                proof {
                    assert(!ahas(amodel(networks@), network_id@));
                }
            },
        }
        self.networks = networks;
        Ok(())
    }

    /// The names of the collections of a network; empty for an unknown id.
    pub fn get_network_collections(&self, network_id: &str) -> (r: Vec<String>)
        ensures
            self.network_at(network_id@) matches Some(c) ==> str_views(r@) == coll_names(
                c.collections@,
            ),
            self.network_at(network_id@) is None ==> r@.len() == 0,
    {
        proof {
            use_type_invariant(&*self);
        }
        let mut out: Vec<String> = Vec::new();
        match afind(&self.networks, network_id) {
            Some(i) => {
                proof {
                    lemma_aget_at(amodel(self.networks@), i as int);
                }
                let cfg = &self.networks[i].1;
                let mut t: usize = 0;
                while t < cfg.collections.len()
                    invariant
                        t <= cfg.collections@.len(),
                        out@.len() == t,
                        forall|u: int|
                            0 <= u < t ==> (#[trigger] out@[u])@ == cfg.collections@[u].0@,
                    decreases cfg.collections@.len() - t,
                {
                    out.push(cfg.collections[t].0.clone());
                    t = t + 1;
                }
                proof {
                    assert(str_views(out@) =~= coll_names(cfg.collections@));
                }
            },
            None => {
                proof {
                    assert(!ahas(amodel(self.networks@), network_id@));
                }
            },
        }
        out
    }

    /// A copy of the counters of a network, if it is known.
    pub fn get_network_stats(&self, network_id: &str) -> (r: Option<NetworkStats>)
        ensures
            match r {
                Some(st) => self.stats_at(network_id@) matches Some(s) && st.network_id@
                    == s.network_id@ && st.connected_peers == s.connected_peers
                    && st.total_peers == s.total_peers && st.collections_shared
                    == s.collections_shared && st.operations_sent == s.operations_sent
                    && st.operations_received == s.operations_received && st.bytes_transferred
                    == s.bytes_transferred && st.average_latency_ms == s.average_latency_ms,
                None => self.stats_at(network_id@) is None,
            },
    {
        proof {
            use_type_invariant(&*self);
        }
        match afind(&self.stats, network_id) {
            Some(i) => {
                proof {
                    lemma_aget_at(amodel(self.stats@), i as int);
                }
                Some(self.stats[i].1.clone())
            },
            None => {
                proof {
                    assert(!ahas(amodel(self.stats@), network_id@));
                }
                None
            },
        }
    }

    /// Copies of every registered network configuration: one entry per
    /// registered network, each agreeing field-wise with a registered
    /// configuration, and every registered network represented.
    pub fn get_networks(&self) -> (r: Vec<NetworkConfig>)
        ensures
            r@.len() == self.network_count(),
            forall|i: int| 0 <= i < r@.len() ==> some_network_like(*self, #[trigger] r@[i]),
            forall|id: Seq<char>|
                #[trigger] self.has_network(id) ==> exists|i: int|
                    #![trigger r@[i]]
                    0 <= i < r@.len() && (self.network_at(id) matches Some(c)
                        && crate::types::config_eq(r@[i], c)),
    {
        proof {
            use_type_invariant(&*self);
        }
        let mut out: Vec<NetworkConfig> = Vec::new();
        let mut i: usize = 0;
        while i < self.networks.len()
            invariant
                i <= self.networks@.len(),
                out@.len() == i,
                akeys_distinct(amodel(self.networks@)),
                forall|j: int|
                    0 <= j < i ==> crate::types::config_eq(
                        #[trigger] out@[j],
                        self.networks@[j].1,
                    ),
            decreases self.networks@.len() - i,
        {
            out.push(self.networks[i].1.clone());
            i = i + 1;
        }
        proof {
            assert forall|i2: int| 0 <= i2 < out@.len() implies some_network_like(
                *self,
                #[trigger] out@[i2],
            ) by {
                lemma_aget_at(amodel(self.networks@), i2);
                let key = self.networks@[i2].0@;
                assert(self.network_at(key) == Some(self.networks@[i2].1));
                assert(self.network_at(key) matches Some(c) && crate::types::config_eq(
                    out@[i2],
                    c,
                ));
            }
            assert forall|id: Seq<char>| #[trigger] self.has_network(id) implies exists|i2: int|
                #![trigger out@[i2]]
                0 <= i2 < out@.len() && (self.network_at(id) matches Some(c)
                    && crate::types::config_eq(out@[i2], c)) by {
                assert(ahas(amodel(self.networks@), id));
                let j = choose|j: int|
                    0 <= j < amodel(self.networks@).len() && amodel(self.networks@)[j].0 == id;
                lemma_aget_at(amodel(self.networks@), j);
                assert(self.network_at(id) == Some(self.networks@[j].1));
                assert(0 <= j < out@.len() && (self.network_at(id) matches Some(c)
                    && crate::types::config_eq(out@[j], c)));
            }
        }
        out
    }

    /// How many networks are registered.
    pub closed spec fn network_count(self) -> nat {
        self.networks@.len()
    }
}


/// Binds `entry` under `key` in a counter table, replacing any earlier
/// binding.
fn stats_upsert(stats: &mut Vec<(String, NetworkStats)>, key: String, entry: NetworkStats)
    requires
        akeys_distinct(amodel(old(stats)@)),
    ensures
        akeys_distinct(amodel(final(stats)@)),
        aget(amodel(final(stats)@), key@) == Some(entry),
        forall|id: Seq<char>|
            id != key@ ==> #[trigger] aget(amodel(final(stats)@), id) == aget(
                amodel(old(stats)@),
                id,
            ),
{
    let ghost sm0 = amodel(stats@);
    let ghost stv = entry;
    match afind(stats, key.as_str()) {
        Some(i) => {
            let ghost key0 = sm0[i as int].0;
            stats[i] = (key, entry);
            proof {
                assert(amodel(stats@) =~= sm0.update(i as int, (key0, stv))) by {
                    assert(stats@[i as int].0@ == key0);
                }
                assert forall|id: Seq<char>| true implies #[trigger] aget(amodel(stats@), id)
                    == if id == key0 {
                    Some(stv)
                } else {
                    aget(sm0, id)
                } by {
                    lemma_aget_update(sm0, i as int, stv, id);
                }
            }
        },
        None => {
            let ghost kk = key@;
            stats.push((key, entry));
            proof {
                assert(amodel(stats@) =~= sm0.push((kk, stv)));
                assert(!ahas(sm0, kk));
                assert forall|id: Seq<char>| true implies #[trigger] aget(amodel(stats@), id)
                    == if id == kk {
                    Some(stv)
                } else {
                    aget(sm0, id)
                } by {
                    lemma_aget_push(sm0, kk, stv, id);
                }
            }
        },
    }
}

/// The two states agree on every table and on the peer identity.
pub closed spec fn same_tables(pre: NetworkManager, post: NetworkManager) -> bool {
    &&& post.networks == pre.networks
    &&& post.peers == pre.peers
    &&& post.connections == pre.connections
    &&& post.stats == pre.stats
    &&& post.peer_id == pre.peer_id
}

/// What `initialize` does to the state: sets the flag and keeps all else.
pub open spec fn is_initialized_state(pre: NetworkManager, post: NetworkManager) -> bool {
    &&& post.spec_initialized()
    &&& post.spec_peer_id() == pre.spec_peer_id()
    &&& forall|id: Seq<char>| #[trigger] post.network_at(id) == pre.network_at(id)
    &&& forall|id: Seq<char>| #[trigger] post.stats_at(id) == pre.stats_at(id)
    &&& forall|id: Seq<char>| #[trigger] post.peer_at(id) == pre.peer_at(id)
    &&& post.spec_connections() == pre.spec_connections()
}

/// Law: initialization is idempotent: running it on an already
/// initialized state changes nothing observable.
pub proof fn law_initialize_idempotent(s0: NetworkManager, s1: NetworkManager, s2: NetworkManager)
    requires
        is_initialized_state(s0, s1),
        is_initialized_state(s1, s2),
    ensures
        s2.spec_initialized() == s1.spec_initialized(),
        s2.spec_peer_id() == s1.spec_peer_id(),
        forall|id: Seq<char>| #[trigger] s2.network_at(id) == s1.network_at(id),
        forall|id: Seq<char>| #[trigger] s2.stats_at(id) == s1.stats_at(id),
        forall|id: Seq<char>| #[trigger] s2.peer_at(id) == s1.peer_at(id),
        s2.spec_connections() == s1.spec_connections(),
{
}

} // verus!
