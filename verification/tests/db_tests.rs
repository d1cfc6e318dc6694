use knirvbase::collection::DistributedCollection;
use knirvbase::query::KNIRVQLParser;
use knirvbase::query::QueryType;
use knirvbase::types::DbError;
use knirvbase::types::EntryType;
use knirvbase::types::MessageType;
use knirvbase::value::Value;
use knirvbase::storage::FileStorage;
use knirvbase::Options;
use knirvbase::DB;

fn options(dir: &str) -> Options {
    Options {
        data_dir: dir.to_string(),
        distributed_enabled: true,
        distributed_network_id: String::new(),
        distributed_bootstrap_peers: Vec::new(),
    }
}

#[test]
fn empty_data_dir_is_rejected() {
    match DB::new(options("")) {
        Err(e) => assert_eq!(e, DbError::Validation("DataDir cannot be empty".to_string())),
        Ok(_) => panic!("an empty data directory must be rejected"),
    }
}

#[test]
fn database_opens_and_serves_collections() {
    let mut db = DB::new(options("/data")).unwrap();
    db.collection("mem").unwrap();
    let e = db.collection("").unwrap_err();
    assert_eq!(e, DbError::Validation("collection name cannot be empty".to_string()));

    let doc = vec![
        ("id".to_string(), Value::Str("d1".to_string())),
        ("value".to_string(), Value::Str("x".to_string())),
    ];
    db.raw().insert("mem", doc).unwrap();
    let found = db.raw().find("mem", "d1").unwrap().unwrap();
    assert!(found.iter().any(|(k, _)| k == "id"));
    let all = db.raw().find_all("mem").unwrap();
    assert_eq!(all.len(), 1);
    db.raw().delete("mem", "d1").unwrap();
    assert_eq!(db.raw().find("mem", "d1").unwrap(), None);
    db.shutdown().unwrap();
}

#[test]
fn query_parser_recognizes_retrieval() {
    let parser = KNIRVQLParser::new();
    let q = parser.parse("GET MEMORY WHERE source = \"web\"").unwrap();
    assert_eq!(q.query_type, QueryType::Get);
    assert_eq!(q.collection, "default");
    match parser.parse("DROP everything") {
        Err(e) => assert_eq!(e, DbError::Validation("unsupported query type".to_string())),
        Ok(_) => panic!("only retrieval queries are recognized"),
    }
    assert!(parser.parse("GE").is_err());
}

#[test]
fn query_executes_retrievals_only() {
    let parser = KNIRVQLParser::new();
    let q = parser.parse("GET x").unwrap();
    let storage = FileStorage::new("/data".to_string());
    let coll = DistributedCollection::new("default".to_string());
    let out = q.execute(&storage, &coll).unwrap();
    assert_eq!(out.len(), 0);
}

#[test]
fn entry_types_read_and_print() {
    assert_eq!(EntryType::from("MEMORY"), EntryType::Memory);
    assert_eq!(EntryType::from("AUTH"), EntryType::Auth);
    assert_eq!(EntryType::from("junk"), EntryType::Memory);
    assert_eq!("MEMORY".parse::<EntryType>().unwrap(), EntryType::Memory);
    assert_eq!("AUTH".parse::<EntryType>().unwrap(), EntryType::Auth);
    assert!("junk".parse::<EntryType>().is_err());
    assert_eq!(EntryType::Memory.as_str(), "MEMORY");
    assert_eq!(EntryType::Auth.as_str(), "AUTH");
}

#[test]
fn message_types_have_wire_tags() {
    assert_eq!(MessageType::SyncRequest.as_str(), "sync_request");
    assert_eq!(MessageType::SyncResponse.as_str(), "sync_response");
    assert_eq!(MessageType::Operation.as_str(), "operation");
    assert_eq!(MessageType::Heartbeat.as_str(), "heartbeat");
    assert_eq!(MessageType::CollectionAnnounce.as_str(), "collection_announce");
    assert_eq!(MessageType::CollectionRequest.as_str(), "collection_request");
}

#[test]
fn values_copy_deeply() {
    let v = Value::Obj(vec![(
        "a".to_string(),
        Value::Arr(vec![Value::Int(1), Value::Null]),
    )]);
    assert_eq!(v.deep_copy(), v);
}
