use base64::Engine;
use knirvbase::crypto::PQCKeyPair;
use knirvbase::storage::FileStorage;
use knirvbase::types::DbError;
use knirvbase::value::Value;

fn field<'a>(doc: &'a [(String, Value)], k: &str) -> Option<&'a Value> {
    doc.iter().find(|(name, _)| name == k).map(|(_, v)| v)
}

fn copy_doc(d: &[(String, Value)]) -> Vec<(String, Value)> {
    d.iter().map(|(k, v)| (k.clone(), v.deep_copy())).collect()
}

fn plain_doc(id: &str) -> Vec<(String, Value)> {
    vec![
        ("id".to_string(), Value::Str(id.to_string())),
        ("kind".to_string(), Value::Str("note".to_string())),
        ("count".to_string(), Value::Int(7)),
    ]
}

#[test]
fn insert_then_find_returns_the_document() {
    let mut st = FileStorage::new("/data".to_string());
    let doc = plain_doc("x1");
    st.insert("mem", copy_doc(&doc)).unwrap();
    let found = st.find("mem", "x1").unwrap().unwrap();
    assert_eq!(found, doc);
}

#[test]
fn find_on_absent_document_is_none() {
    let st = FileStorage::new("/data".to_string());
    assert_eq!(st.find("mem", "nope").unwrap(), None);
}

#[test]
fn insert_without_id_is_a_validation_error() {
    let mut st = FileStorage::new("/data".to_string());
    let doc = vec![("kind".to_string(), Value::Str("note".to_string()))];
    let e = st.insert("mem", doc).unwrap_err();
    assert!(matches!(e, DbError::Validation(_)));
    let empty_id = vec![("id".to_string(), Value::Str(String::new()))];
    let e2 = st.insert("mem", empty_id).unwrap_err();
    assert!(matches!(e2, DbError::Validation(_)));
}

#[test]
fn update_merges_fields_and_requires_presence() {
    let mut st = FileStorage::new("/data".to_string());
    st.insert("mem", plain_doc("u1")).unwrap();
    let patch = vec![("count".to_string(), Value::Int(8))];
    st.update("mem", "u1", patch).unwrap();
    let found = st.find("mem", "u1").unwrap().unwrap();
    assert_eq!(field(&found, "count"), Some(&Value::Int(8)));
    assert_eq!(field(&found, "kind"), Some(&Value::Str("note".to_string())));

    let e = st.update("mem", "absent", vec![]).unwrap_err();
    assert_eq!(e, DbError::NotFound("document not found".to_string()));
}

#[test]
fn delete_removes_document_and_blob() {
    let mut st = FileStorage::new("/data".to_string());
    st.insert("mem", plain_doc("d1")).unwrap();
    st.delete("mem", "d1").unwrap();
    assert_eq!(st.find("mem", "d1").unwrap(), None);
    // deleting what is absent is a silent no-op
    st.delete("mem", "d1").unwrap();
}

#[test]
fn memory_blob_is_externalized_and_reinlined() {
    let mut st = FileStorage::new("/data".to_string());
    let payload = vec![
        ("blob".to_string(), Value::Str("0123456789".to_string())),
        ("note".to_string(), Value::Str("n".to_string())),
    ];
    let doc = vec![
        ("id".to_string(), Value::Str("m1".to_string())),
        ("entryType".to_string(), Value::Str("MEMORY".to_string())),
        ("payload".to_string(), Value::Obj(payload)),
    ];
    st.insert("mem", doc).unwrap();

    // on disk: the payload carries a reference, and the blob sits at
    // <base>/<collection>/blobs/<id>
    let raw = st.read_stored("mem", "m1").unwrap();
    let raw_payload = match field(&raw, "payload").unwrap() {
        Value::Obj(p) => copy_doc(p),
        _ => panic!("payload is not an object"),
    };
    assert!(field(&raw_payload, "blob").is_none());
    let path = match field(&raw_payload, "blobRef").unwrap() {
        Value::Str(s) => s.clone(),
        _ => panic!("blobRef is not a string"),
    };
    assert_eq!(path, "/data/mem/blobs/m1");
    assert_eq!(st.get_blob(&path), Some(Value::Str("0123456789".to_string())));

    // read back: the payload carries the blob again, byte-identical
    let found = st.find("mem", "m1").unwrap().unwrap();
    let found_payload = match field(&found, "payload").unwrap() {
        Value::Obj(p) => copy_doc(p),
        _ => panic!("payload is not an object"),
    };
    assert_eq!(field(&found_payload, "blob"), Some(&Value::Str("0123456789".to_string())));
    assert!(field(&found_payload, "blobRef").is_none());
}

#[test]
fn sensitive_collection_is_encrypted_at_rest() {
    let mut st = FileStorage::new("/data".to_string());
    let master = PQCKeyPair::generate("master".to_string(), "encryption".to_string()).unwrap();
    let master_id = master.id.clone();
    st.set_master_key(master);

    let payload = vec![
        ("username".to_string(), Value::Str("alice".to_string())),
        ("hash".to_string(), Value::Str("h".to_string())),
        ("salt".to_string(), Value::Str("s".to_string())),
    ];
    let doc = vec![
        ("id".to_string(), Value::Str("u1".to_string())),
        ("payload".to_string(), Value::Obj(copy_doc(&payload))),
    ];
    st.insert("credentials", doc).unwrap();

    // on disk: sensitive fields are strings, marked, and the document
    // carries the encryption flags
    let raw = st.read_stored("credentials", "u1").unwrap();
    assert_eq!(field(&raw, "encrypted"), Some(&Value::Bool(true)));
    assert_eq!(field(&raw, "encryption_key_id"), Some(&Value::Str(master_id)));
    let raw_payload = match field(&raw, "payload").unwrap() {
        Value::Obj(p) => copy_doc(p),
        _ => panic!("payload is not an object"),
    };
    assert!(matches!(field(&raw_payload, "hash"), Some(Value::Str(_))));
    assert!(matches!(field(&raw_payload, "salt"), Some(Value::Str(_))));
    assert_ne!(field(&raw_payload, "hash"), Some(&Value::Str("h".to_string())));
    assert_eq!(field(&raw_payload, "hash_encrypted"), Some(&Value::Bool(true)));
    assert_eq!(field(&raw_payload, "salt_encrypted"), Some(&Value::Bool(true)));
    assert_eq!(field(&raw_payload, "username"), Some(&Value::Str("alice".to_string())));

    // read back: the payload returns unchanged
    let found = st.find("credentials", "u1").unwrap().unwrap();
    let found_payload = match field(&found, "payload").unwrap() {
        Value::Obj(p) => copy_doc(p),
        _ => panic!("payload is not an object"),
    };
    assert_eq!(&found_payload, &payload);
    assert!(field(&found, "encrypted").is_none());
    assert!(field(&found, "encryption_key_id").is_none());
}

#[test]
fn on_disk_envelope_is_base64_json() {
    let mut st = FileStorage::new("/data".to_string());
    let master = PQCKeyPair::generate("master".to_string(), "encryption".to_string()).unwrap();
    let master_id = master.id.clone();
    st.set_master_key(master);
    let doc = vec![
        ("id".to_string(), Value::Str("u2".to_string())),
        (
            "payload".to_string(),
            Value::Obj(vec![("hash".to_string(), Value::Str("h".to_string()))]),
        ),
    ];
    st.insert("credentials", doc).unwrap();
    let raw = st.read_stored("credentials", "u2").unwrap();
    let raw_payload = match field(&raw, "payload").unwrap() {
        Value::Obj(p) => copy_doc(p),
        _ => panic!("payload is not an object"),
    };
    let envelope = match field(&raw_payload, "hash").unwrap() {
        Value::Str(s) => s.clone(),
        _ => panic!("envelope is not a string"),
    };
    let bytes = base64::engine::general_purpose::STANDARD.decode(&envelope).unwrap();
    let parsed: serde_json::Value = serde_json::from_slice(&bytes).unwrap();
    assert_eq!(parsed["payload"]["key_id"].as_str().unwrap(), master_id);
    assert_eq!(parsed["payload"]["algorithm"].as_str().unwrap(), "AES-256-GCM");
    assert!(parsed["payload"]["ciphertext"].is_string());
    assert!(parsed["signature"].is_string());
}

#[test]
fn sensitive_insert_without_master_key_fails() {
    let mut st = FileStorage::new("/data".to_string());
    let doc = vec![
        ("id".to_string(), Value::Str("u3".to_string())),
        (
            "payload".to_string(),
            Value::Obj(vec![("hash".to_string(), Value::Str("h".to_string()))]),
        ),
    ];
    let e = st.insert("credentials", doc).unwrap_err();
    assert_eq!(e, DbError::Crypto("no master key set for encryption".to_string()));
}

#[test]
fn sensitivity_table_matches_the_design() {
    let st = FileStorage::new("/data".to_string());
    for c in ["credentials", "pqc_keys", "sessions", "audit_log", "threat_events",
        "access_control"] {
        assert!(st.is_encrypted_collection(c));
    }
    assert!(!st.is_encrypted_collection("mem"));
    assert!(!st.is_encrypted_collection(""));
}

#[test]
fn find_all_returns_each_document() {
    let mut st = FileStorage::new("/data".to_string());
    st.insert("mem", plain_doc("a")).unwrap();
    st.insert("mem", plain_doc("b")).unwrap();
    let all = st.find_all("mem").unwrap();
    assert_eq!(all.len(), 2);
    let empty = st.find_all("other").unwrap();
    assert_eq!(empty.len(), 0);
}
