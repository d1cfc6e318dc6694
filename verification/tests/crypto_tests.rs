use knirvbase::codec::decode_value_bytes;
use knirvbase::codec::encode_value_bytes;
use knirvbase::crypto::EncryptionManager;
use knirvbase::crypto::PQCKeyPair;
use knirvbase::types::DbError;
use knirvbase::value::Value;

#[test]
fn generate_makes_a_fresh_active_key() {
    let kp = PQCKeyPair::generate("k".to_string(), "encryption".to_string()).unwrap();
    assert_eq!(kp.id.len(), 36);
    assert_eq!(kp.name, "k");
    assert_eq!(kp.purpose, "encryption");
    assert_eq!(kp.algorithm, "Mock-PQC");
    assert_eq!(kp.status, "active");
    assert_eq!(kp.public_key.len(), 32);
    assert_eq!(kp.private_key, kp.public_key);
    assert!(kp.is_active());
    assert!(!kp.is_expired());
}

#[test]
fn key_pair_seals_and_opens() {
    let kp = PQCKeyPair::generate("k".to_string(), "encryption".to_string()).unwrap();
    let ct = kp.encrypt(b"hello").unwrap();
    assert_eq!(ct.len(), 5 + 28);
    let pt = kp.decrypt(&ct).unwrap();
    assert_eq!(pt, b"hello");
    // the nonce is fresh every time, so two ciphertexts differ
    let ct2 = kp.encrypt(b"hello").unwrap();
    assert_ne!(ct, ct2);
}

#[test]
fn short_key_material_is_digested() {
    // key material that is not exactly 32 bytes goes through the digest
    let kp = PQCKeyPair {
        id: "key-1".to_string(),
        name: "short".to_string(),
        purpose: "encryption".to_string(),
        algorithm: "Mock-PQC".to_string(),
        created_at: 0,
        expires_at: None,
        status: "active".to_string(),
        public_key: b"seventeen-bytes!!".to_vec(),
        private_key: b"seventeen-bytes!!".to_vec(),
    };
    let ct = kp.encrypt(b"payload").unwrap();
    let pt = kp.decrypt(&ct).unwrap();
    assert_eq!(pt, b"payload");
}

#[test]
fn truncated_ciphertext_is_rejected() {
    let kp = PQCKeyPair::generate("k".to_string(), "encryption".to_string()).unwrap();
    let e = kp.decrypt(&[1, 2, 3]).unwrap_err();
    assert_eq!(e, DbError::Crypto("ciphertext too short".to_string()));
}

#[test]
fn signature_token_is_opaque_and_accepted() {
    let kp = PQCKeyPair::generate("k".to_string(), "signature".to_string()).unwrap();
    let sig = kp.sign(b"msg").unwrap();
    assert_eq!(sig.len(), 64);
    assert!(kp.verify(b"msg", &sig));
    assert!(kp.verify(b"other", &sig));
}

#[test]
fn encrypt_data_round_trips_through_the_envelope() {
    let mut em = EncryptionManager::new();
    let kp = em.generate_data_encryption_key("data".to_string()).unwrap();
    let env = em.encrypt_data(b"secret bytes", kp.id.as_str()).unwrap();
    let back = em.decrypt_data(env.as_str()).unwrap();
    assert_eq!(back, b"secret bytes");
}

#[test]
fn master_key_resolves_when_not_cached() {
    let mut em = EncryptionManager::new();
    let master = PQCKeyPair::generate("m".to_string(), "encryption".to_string()).unwrap();
    let id = master.id.clone();
    em.set_master_key(master);
    let env = em.encrypt_data(b"x", id.as_str()).unwrap();
    assert_eq!(em.decrypt_data(env.as_str()).unwrap(), b"x");
}

#[test]
fn unknown_key_is_not_found() {
    let em = EncryptionManager::new();
    let e = em.encrypt_data(b"x", "missing").unwrap_err();
    assert!(matches!(e, DbError::NotFound(_)));
}

#[test]
fn inactive_key_is_rejected() {
    let mut em = EncryptionManager::new();
    let mut kp = PQCKeyPair::generate("k".to_string(), "encryption".to_string()).unwrap();
    kp.status = "revoked".to_string();
    let id = kp.id.clone();
    em.cache_key(id.clone(), kp);
    let e = em.encrypt_data(b"x", id.as_str()).unwrap_err();
    assert_eq!(e, DbError::Crypto("key is not active".to_string()));
}

#[test]
fn expired_key_is_rejected() {
    let mut em = EncryptionManager::new();
    let mut kp = PQCKeyPair::generate("k".to_string(), "encryption".to_string()).unwrap();
    kp.expires_at = Some(1);
    let id = kp.id.clone();
    em.cache_key(id.clone(), kp);
    let e = em.encrypt_data(b"x", id.as_str()).unwrap_err();
    assert_eq!(e, DbError::Crypto("key is not active".to_string()));
}

#[test]
fn removed_key_is_gone() {
    let mut em = EncryptionManager::new();
    let kp = em.generate_data_encryption_key("d".to_string()).unwrap();
    let id = kp.id.clone();
    em.remove_key(id.as_str());
    let e = em.encrypt_data(b"x", id.as_str()).unwrap_err();
    assert!(matches!(e, DbError::NotFound(_)));
}

#[test]
fn malformed_envelope_is_rejected() {
    let em = EncryptionManager::new();
    assert!(matches!(em.decrypt_data("%%%not-base64%%%"), Err(DbError::Crypto(_))));
    // valid base64 of bytes that are not an envelope
    assert!(matches!(em.decrypt_data("aGVsbG8="), Err(DbError::Crypto(_))));
}

#[test]
fn value_codec_round_trips() {
    let v = Value::Obj(vec![
        ("name".to_string(), Value::Str("caf\u{00e9}".to_string())),
        ("n".to_string(), Value::Int(-42)),
        ("ok".to_string(), Value::Bool(true)),
        ("nothing".to_string(), Value::Null),
        (
            "items".to_string(),
            Value::Arr(vec![Value::Int(1), Value::Str("two".to_string())]),
        ),
    ]);
    let bytes = encode_value_bytes(&v);
    let back = decode_value_bytes(&bytes).unwrap();
    assert_eq!(back, v);
}

#[test]
fn value_codec_rejects_garbage() {
    assert!(decode_value_bytes(&[9, 9, 9]).is_none());
    assert!(decode_value_bytes(&[]).is_none());
    // a truncated string record
    assert!(decode_value_bytes(&[3, 0, 0, 0, 0, 0, 0, 0, 5, b'a']).is_none());
}
