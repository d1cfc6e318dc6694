use knirvbase::clock::VectorClock;
use knirvbase::collection::DistributedCollection;
use knirvbase::network::NetworkManager;
use knirvbase::storage::FileStorage;
use knirvbase::types::CRDTOperation;
use knirvbase::types::DistributedDocument;
use knirvbase::types::EntryType;
use knirvbase::types::MessageType;
use knirvbase::types::OperationType;
use knirvbase::value::Value;

fn field<'a>(doc: &'a [(String, Value)], k: &str) -> Option<&'a Value> {
    doc.iter().find(|(name, _)| name == k).map(|(_, v)| v)
}

fn vector_field(doc: &[(String, Value)]) -> Vec<(String, i64)> {
    match field(doc, "vector").unwrap() {
        Value::Obj(entries) => entries
            .iter()
            .map(|(k, v)| match v {
                Value::Int(c) => (k.clone(), *c),
                _ => panic!("counter is not an integer"),
            })
            .collect(),
        _ => panic!("vector is not an object"),
    }
}

fn copy_doc(d: &[(String, Value)]) -> Vec<(String, Value)> {
    d.iter().map(|(k, v)| (k.clone(), v.deep_copy())).collect()
}

fn clock_of(entries: &[(&str, u64)]) -> VectorClock {
    let v: Vec<(String, u64)> = entries.iter().map(|(k, c)| (k.to_string(), *c)).collect();
    VectorClock::from_entries(&v)
}

#[test]
fn monotonic_local_writes() {
    let mut storage = FileStorage::new("/data".to_string());
    let network = NetworkManager::with_peer_id("a-1".to_string());
    let mut coll = DistributedCollection::new("mem".to_string());

    let doc = vec![
        ("id".to_string(), Value::Str("d1".to_string())),
        ("value".to_string(), Value::Str("x".to_string())),
    ];
    coll.insert(&mut storage, &network, doc).unwrap();

    let patch = vec![("value".to_string(), Value::Str("y".to_string()))];
    let (n, _) = coll.update(&mut storage, &network, "d1", patch).unwrap();
    assert_eq!(n, 1);

    let found = storage.find("mem", "d1").unwrap().unwrap();
    assert_eq!(field(&found, "id"), Some(&Value::Str("d1".to_string())));
    assert_eq!(field(&found, "value"), Some(&Value::Str("y".to_string())));
    assert_eq!(vector_field(&found), vec![("a-1".to_string(), 2)]);
}

#[test]
fn update_of_absent_document_changes_nothing() {
    let mut storage = FileStorage::new("/data".to_string());
    let network = NetworkManager::with_peer_id("a-1".to_string());
    let mut coll = DistributedCollection::new("mem".to_string());
    let (n, plan) = coll
        .update(&mut storage, &network, "ghost", vec![])
        .unwrap();
    assert_eq!(n, 0);
    assert!(plan.is_none());
}

#[test]
fn causal_replication() {
    // peer A inserts and broadcasts
    let mut storage_a = FileStorage::new("/a".to_string());
    let mut network_a = NetworkManager::with_peer_id("a-1".to_string());
    network_a.initialize().unwrap();
    network_a.create_network(config_id()).unwrap();
    let mut coll_a = DistributedCollection::new("mem".to_string());
    coll_a.attach_to_network(&mut network_a, "n1").unwrap();
    let doc = vec![
        ("id".to_string(), Value::Str("d2".to_string())),
        ("v".to_string(), Value::Str("a".to_string())),
    ];
    let (_, plan) = coll_a.insert(&mut storage_a, &network_a, copy_doc(&doc)).unwrap();
    let plan = plan.unwrap();
    assert_eq!(plan.message.msg_type, MessageType::Operation);

    // peer B receives the operation and applies it
    let mut storage_b = FileStorage::new("/b".to_string());
    let mut coll_b = DistributedCollection::new("mem".to_string());
    let op = CRDTOperation {
        id: "op-1".to_string(),
        op_type: OperationType::Insert,
        collection: "mem".to_string(),
        document_id: "d2".to_string(),
        data: Some(DistributedDocument {
            id: "d2".to_string(),
            entry_type: EntryType::Memory,
            payload: Some(doc),
            vector: clock_of(&[("a-1", 1)]),
            timestamp: 100,
            peer_id: "a-1".to_string(),
            stage: None,
            deleted: false,
        }),
        vector: clock_of(&[("a-1", 1)]),
        timestamp: 100,
        peer_id: "a-1".to_string(),
    };
    coll_b.apply_operation(&mut storage_b, &op).unwrap();

    let found = storage_b.find("mem", "d2").unwrap().unwrap();
    let payload = match field(&found, "payload").unwrap() {
        Value::Obj(p) => copy_doc(p),
        _ => panic!("payload is not an object"),
    };
    assert_eq!(field(&payload, "v"), Some(&Value::Str("a".to_string())));
    assert_eq!(vector_field(&found), vec![("a-1".to_string(), 1)]);
}

fn config_id() -> knirvbase::types::NetworkConfig {
    knirvbase::types::NetworkConfig {
        network_id: "n1".to_string(),
        name: "Network n1".to_string(),
        collections: Vec::new(),
        bootstrap_peers: Vec::new(),
        default_posting_network: String::new(),
        auto_post_classifications: Vec::new(),
        private_by_default: true,
        encryption: knirvbase::types::EncryptionConfig {
            enabled: false,
            shared_secret: String::new(),
        },
        replication: knirvbase::types::ReplicationConfig { factor: 0, strategy: String::new() },
        discovery: knirvbase::types::DiscoveryConfig { mdns: false, bootstrap: false },
    }
}

#[test]
fn deletion_tombstone_survives_stale_arrivals() {
    // B holds a replica of d3 authored by A
    let mut storage_b = FileStorage::new("/b".to_string());
    let mut coll_b = DistributedCollection::new("mem".to_string());
    let insert_op = CRDTOperation {
        id: "op-1".to_string(),
        op_type: OperationType::Insert,
        collection: "mem".to_string(),
        document_id: "d3".to_string(),
        data: Some(DistributedDocument {
            id: "d3".to_string(),
            entry_type: EntryType::Memory,
            payload: None,
            vector: clock_of(&[("a-1", 1)]),
            timestamp: 100,
            peer_id: "a-1".to_string(),
            stage: None,
            deleted: false,
        }),
        vector: clock_of(&[("a-1", 1)]),
        timestamp: 100,
        peer_id: "a-1".to_string(),
    };
    coll_b.apply_operation(&mut storage_b, &insert_op).unwrap();

    // A deletes d3; B applies the tombstone
    let delete_op = CRDTOperation {
        id: "op-2".to_string(),
        op_type: OperationType::Delete,
        collection: "mem".to_string(),
        document_id: "d3".to_string(),
        data: None,
        vector: clock_of(&[("a-1", 2)]),
        timestamp: 101,
        peer_id: "a-1".to_string(),
    };
    coll_b.apply_operation(&mut storage_b, &delete_op).unwrap();
    // a tombstoned document is never returned by find ...
    assert!(coll_b.find(&storage_b, "d3").unwrap().is_none());
    // ... but the tombstone and its vector stay stored for reconciliation
    let found = storage_b.find("mem", "d3").unwrap().unwrap();
    assert_eq!(field(&found, "deleted"), Some(&Value::Bool(true)));

    // a pre-delete version arrives late: its vector is dominated, so the
    // tombstone stays
    coll_b.apply_operation(&mut storage_b, &insert_op).unwrap();
    assert!(coll_b.find(&storage_b, "d3").unwrap().is_none());
    let still = storage_b.find("mem", "d3").unwrap().unwrap();
    assert_eq!(field(&still, "deleted"), Some(&Value::Bool(true)));
    assert_eq!(vector_field(&still), vec![("a-1".to_string(), 2)]);
}

#[test]
fn broadcast_fans_out_to_every_open_connection() {
    let mut storage = FileStorage::new("/a".to_string());
    let mut network = NetworkManager::with_peer_id("a-1".to_string());
    network.initialize().unwrap();
    network.create_network(config_id()).unwrap();
    network.register_peer("b-1".to_string(), "127.0.0.1:1".to_string(), 1);
    network.register_peer("c-1".to_string(), "127.0.0.1:2".to_string(), 1);
    network.register_peer("d-1".to_string(), "127.0.0.1:3".to_string(), 1);
    let mut coll = DistributedCollection::new("mem".to_string());
    coll.attach_to_network(&mut network, "n1").unwrap();
    let doc = vec![("id".to_string(), Value::Str("d4".to_string()))];
    let (_, plan) = coll.insert(&mut storage, &network, doc).unwrap();
    let plan = plan.unwrap();
    // one independent frame per connection; writing them, and surviving a
    // target that fails mid-way, is the transport's part
    assert_eq!(plan.targets.len(), 3);
}

#[test]
fn delete_emits_a_tombstone_operation() {
    let mut storage = FileStorage::new("/a".to_string());
    let mut network = NetworkManager::with_peer_id("a-1".to_string());
    network.initialize().unwrap();
    network.create_network(config_id()).unwrap();
    let mut coll = DistributedCollection::new("mem".to_string());
    coll.attach_to_network(&mut network, "n1").unwrap();
    let doc = vec![("id".to_string(), Value::Str("d5".to_string()))];
    coll.insert(&mut storage, &network, doc).unwrap();
    let (n, plan) = coll.delete(&mut storage, &network, "d5").unwrap();
    assert_eq!(n, 1);
    assert!(plan.is_some());
    assert_eq!(storage.find("mem", "d5").unwrap(), None);
}

#[test]
fn operation_without_document_is_a_protocol_error() {
    let mut storage = FileStorage::new("/b".to_string());
    let mut coll = DistributedCollection::new("mem".to_string());
    let op = CRDTOperation {
        id: "op-9".to_string(),
        op_type: OperationType::Insert,
        collection: "mem".to_string(),
        document_id: "d9".to_string(),
        data: None,
        vector: clock_of(&[("a-1", 1)]),
        timestamp: 1,
        peer_id: "a-1".to_string(),
    };
    let e = coll.apply_operation(&mut storage, &op).unwrap_err();
    assert_eq!(
        e,
        knirvbase::types::DbError::Protocol("operation missing document".to_string())
    );
}

#[test]
fn force_sync_clears_the_running_flag() {
    let mut coll = DistributedCollection::new("mem".to_string());
    coll.force_sync().unwrap();
}

#[test]
fn update_broadcast_carries_the_merged_document() {
    let mut storage = FileStorage::new("/a".to_string());
    let mut network = NetworkManager::with_peer_id("a-1".to_string());
    network.initialize().unwrap();
    network.create_network(config_id()).unwrap();
    network.register_peer("b-1".to_string(), "127.0.0.1:1".to_string(), 1);
    let mut coll = DistributedCollection::new("mem".to_string());
    coll.attach_to_network(&mut network, "n1").unwrap();
    let doc = vec![
        ("id".to_string(), Value::Str("d6".to_string())),
        ("value".to_string(), Value::Str("x".to_string())),
    ];
    coll.insert(&mut storage, &network, doc).unwrap();
    // a patch replaces top-level fields of the stored form; the carried
    // payload changes through a patch that names it
    let patch = vec![(
        "payload".to_string(),
        Value::Obj(vec![
            ("id".to_string(), Value::Str("d6".to_string())),
            ("value".to_string(), Value::Str("y".to_string())),
        ]),
    )];
    let (n, plan) = coll.update(&mut storage, &network, "d6", patch).unwrap();
    assert_eq!(n, 1);
    let plan = plan.unwrap();
    // the operation names itself an update and carries the post-update
    // document, so a receiving peer can apply it
    let payload = match &plan.message.payload {
        Value::Obj(fields) => copy_doc(fields),
        _ => panic!("payload is not an object"),
    };
    assert_eq!(field(&payload, "opType"), Some(&Value::Str("update".to_string())));
    let data = match field(&payload, "data") {
        Some(Value::Obj(fields)) => copy_doc(fields),
        _ => panic!("update carries no document"),
    };
    let inner = match field(&data, "payload") {
        Some(Value::Obj(fields)) => copy_doc(fields),
        _ => panic!("carried document has no payload"),
    };
    assert_eq!(field(&inner, "value"), Some(&Value::Str("y".to_string())));
}
