use knirvbase::network::NetworkManager;
use knirvbase::types::DbError;
use knirvbase::types::DiscoveryConfig;
use knirvbase::types::EncryptionConfig;
use knirvbase::types::MessageType;
use knirvbase::types::NetworkConfig;
use knirvbase::types::ProtocolMessage;
use knirvbase::types::ReplicationConfig;
use knirvbase::value::Value;

fn config(id: &str) -> NetworkConfig {
    NetworkConfig {
        network_id: id.to_string(),
        name: format!("Network {}", id),
        collections: Vec::new(),
        bootstrap_peers: Vec::new(),
        default_posting_network: String::new(),
        auto_post_classifications: Vec::new(),
        private_by_default: true,
        encryption: EncryptionConfig { enabled: false, shared_secret: String::new() },
        replication: ReplicationConfig { factor: 0, strategy: String::new() },
        discovery: DiscoveryConfig { mdns: false, bootstrap: false },
    }
}

fn message(net: &str) -> ProtocolMessage {
    ProtocolMessage {
        msg_type: MessageType::Heartbeat,
        network_id: net.to_string(),
        sender_id: "a-1".to_string(),
        timestamp: 1,
        payload: Value::Null,
    }
}

#[test]
fn initialize_is_idempotent() {
    let mut nm = NetworkManager::with_peer_id("a-1".to_string());
    nm.initialize().unwrap();
    nm.create_network(config("n1")).unwrap();
    let before = nm.get_networks().len();
    nm.initialize().unwrap();
    assert_eq!(nm.get_networks().len(), before);
    assert_eq!(nm.get_peer_id(), "a-1");
}

#[test]
fn create_network_registers_once() {
    let mut nm = NetworkManager::with_peer_id("a-1".to_string());
    let id = nm.create_network(config("n1")).unwrap();
    assert_eq!(id, "n1");
    assert_eq!(nm.get_networks().len(), 1);
    // a duplicate id changes nothing
    nm.create_network(config("n1")).unwrap();
    assert_eq!(nm.get_networks().len(), 1);
    let stats = nm.get_network_stats("n1").unwrap();
    assert_eq!(stats.network_id, "n1");
    assert_eq!(stats.connected_peers, 0);
    assert_eq!(stats.operations_sent, 0);
}

#[test]
fn join_network_synthesizes_a_default_configuration() {
    let mut nm = NetworkManager::with_peer_id("a-1".to_string());
    let addrs = nm
        .join_network("n9", vec!["127.0.0.1:9999".to_string()])
        .unwrap();
    assert_eq!(addrs, vec!["127.0.0.1:9999".to_string()]);
    assert_eq!(nm.get_networks().len(), 1);
    assert!(nm.get_network_stats("n9").is_some());
}

#[test]
fn leave_network_removes_it_but_keeps_connections() {
    let mut nm = NetworkManager::with_peer_id("a-1".to_string());
    nm.initialize().unwrap();
    nm.create_network(config("n1")).unwrap();
    nm.register_peer("b-1".to_string(), "127.0.0.1:1".to_string(), 10);
    nm.leave_network("n1").unwrap();
    assert_eq!(nm.get_networks().len(), 0);
    assert!(nm.get_network_stats("n1").is_none());
    // the connection still serves other networks
    let b = nm.broadcast_message("other", message("other")).unwrap();
    assert_eq!(b.targets.len(), 1);
}

#[test]
fn broadcast_plans_one_frame_per_connection() {
    let mut nm = NetworkManager::with_peer_id("a-1".to_string());
    nm.initialize().unwrap();
    nm.register_peer("b-1".to_string(), "127.0.0.1:1".to_string(), 10);
    nm.register_peer("c-1".to_string(), "127.0.0.1:2".to_string(), 10);
    nm.register_peer("d-1".to_string(), "127.0.0.1:3".to_string(), 10);
    // registering the same peer again adds no second connection
    nm.register_peer("b-1".to_string(), "127.0.0.1:1".to_string(), 11);
    let b = nm.broadcast_message("n1", message("n1")).unwrap();
    assert_eq!(b.targets.len(), 3);
    let mut targets = b.targets.clone();
    targets.sort();
    targets.dedup();
    assert_eq!(targets.len(), 3);
    assert_eq!(b.message.msg_type, MessageType::Heartbeat);
}

#[test]
fn broadcast_before_initialize_is_refused() {
    let nm = NetworkManager::with_peer_id("a-1".to_string());
    let e = nm.broadcast_message("n1", message("n1")).unwrap_err();
    assert_eq!(e, DbError::NotInitialized);
}

#[test]
fn send_to_unknown_peer_is_not_connected() {
    let mut nm = NetworkManager::with_peer_id("a-1".to_string());
    nm.initialize().unwrap();
    let e = nm.send_to_peer("ghost", "n1", message("n1")).unwrap_err();
    assert_eq!(e, DbError::NotFound("peer not connected".to_string()));
}

#[test]
fn send_to_connected_peer_targets_only_it() {
    let mut nm = NetworkManager::with_peer_id("a-1".to_string());
    nm.initialize().unwrap();
    nm.register_peer("b-1".to_string(), "127.0.0.1:1".to_string(), 10);
    nm.register_peer("c-1".to_string(), "127.0.0.1:2".to_string(), 10);
    let b = nm.send_to_peer("b-1", "n1", message("n1")).unwrap();
    assert_eq!(b.targets, vec!["b-1".to_string()]);
}

#[test]
fn collection_announcements_and_membership() {
    let mut nm = NetworkManager::with_peer_id("a-1".to_string());
    nm.initialize().unwrap();
    nm.create_network(config("n1")).unwrap();
    let b = nm.add_collection_to_network("n1", "mem").unwrap();
    assert_eq!(b.message.msg_type, MessageType::CollectionAnnounce);
    assert_eq!(b.message.network_id, "n1");
    assert_eq!(b.message.sender_id, "a-1");
    assert_eq!(nm.get_network_collections("n1"), vec!["mem".to_string()]);
    let stats = nm.get_network_stats("n1").unwrap();
    assert_eq!(stats.collections_shared, 1);
    nm.remove_collection_from_network("n1", "mem").unwrap();
    assert_eq!(nm.get_network_collections("n1").len(), 0);
    assert_eq!(nm.get_network_collections("unknown").len(), 0);
}

#[test]
fn shutdown_clears_connections_and_the_flag() {
    let mut nm = NetworkManager::with_peer_id("a-1".to_string());
    nm.initialize().unwrap();
    nm.register_peer("b-1".to_string(), "127.0.0.1:1".to_string(), 10);
    nm.shutdown().unwrap();
    let e = nm.broadcast_message("n1", message("n1")).unwrap_err();
    assert_eq!(e, DbError::NotInitialized);
    nm.initialize().unwrap();
    let b = nm.broadcast_message("n1", message("n1")).unwrap();
    assert_eq!(b.targets.len(), 0);
}
