use knirvbase::clock::VectorClock;
use knirvbase::collection::select_missing_operations;
use knirvbase::resolver::CRDTResolver;
use knirvbase::types::CRDTOperation;
use knirvbase::types::DistributedDocument;
use knirvbase::types::EntryType;
use knirvbase::types::OperationType;
use knirvbase::value::Value;

fn clock_of(entries: &[(&str, u64)]) -> VectorClock {
    let v: Vec<(String, u64)> = entries.iter().map(|(k, c)| (k.to_string(), *c)).collect();
    VectorClock::from_entries(&v)
}

fn doc(id: &str, vector: VectorClock, ts: i64, payload: Vec<(String, Value)>) -> DistributedDocument {
    DistributedDocument {
        id: id.to_string(),
        entry_type: EntryType::Memory,
        payload: Some(payload),
        vector,
        timestamp: ts,
        peer_id: "p".to_string(),
        stage: None,
        deleted: false,
    }
}

fn payload_field(d: &DistributedDocument, k: &str) -> Value {
    let p = d.payload.as_ref().unwrap();
    for (name, v) in p.iter() {
        if name == k {
            return v.deep_copy();
        }
    }
    panic!("missing field");
}

#[test]
fn dominant_local_wins() {
    let r = CRDTResolver::new();
    let local = doc("d", clock_of(&[("a", 2)]), 10, vec![("k".to_string(), Value::Int(1))]);
    let remote = doc("d", clock_of(&[("a", 1)]), 20, vec![("k".to_string(), Value::Int(9))]);
    let merged = r.merge_documents(&local, &remote);
    assert_eq!(payload_field(&merged, "k"), Value::Int(1));
    assert_eq!(merged.timestamp, 10);
}

#[test]
fn newer_remote_wins() {
    let r = CRDTResolver::new();
    let local = doc("d", clock_of(&[("a", 1)]), 10, vec![("k".to_string(), Value::Int(1))]);
    let remote = doc("d", clock_of(&[("a", 2)]), 20, vec![("k".to_string(), Value::Int(9))]);
    let merged = r.merge_documents(&local, &remote);
    assert_eq!(payload_field(&merged, "k"), Value::Int(9));
    assert_eq!(merged.timestamp, 20);
}

#[test]
fn concurrent_merge_converges_on_both_peers() {
    let r = CRDTResolver::new();
    // starting state: vector {a-1:1, b-1:1}, payload {k1:1, k2:2}; A set
    // k2 to 99, B set k1 to 42, concurrently
    let a_doc = doc(
        "d",
        clock_of(&[("a-1", 2), ("b-1", 1)]),
        10,
        vec![("k1".to_string(), Value::Int(1)), ("k2".to_string(), Value::Int(99))],
    );
    let b_doc = doc(
        "d",
        clock_of(&[("a-1", 1), ("b-1", 2)]),
        11,
        vec![("k1".to_string(), Value::Int(42)), ("k2".to_string(), Value::Int(2))],
    );
    // each conflicting field is decided the same way on both peers
    let on_a = r.merge_documents(&a_doc, &b_doc);
    assert_eq!(payload_field(&on_a, "k1"), Value::Int(42));
    assert_eq!(payload_field(&on_a, "k2"), Value::Int(99));
    assert_eq!(on_a.vector.get_counter(&"a-1".to_string()), 2);
    assert_eq!(on_a.vector.get_counter(&"b-1".to_string()), 2);
    assert_eq!(on_a.timestamp, 11);
    // on peer B the roles are swapped and the outcome is the same
    let on_b = r.merge_documents(&b_doc, &a_doc);
    assert_eq!(payload_field(&on_b, "k1"), Value::Int(42));
    assert_eq!(payload_field(&on_b, "k2"), Value::Int(99));
    // both sides converge on the vector: the pointwise maximum
    assert_eq!(on_b.vector.get_counter(&"a-1".to_string()), 2);
    assert_eq!(on_b.vector.get_counter(&"b-1".to_string()), 2);
    assert_eq!(on_b.timestamp, 11);
    assert!(a_doc.vector.happens_before(&on_a.vector));
    assert!(b_doc.vector.happens_before(&on_a.vector));
}

#[test]
fn concurrent_merge_agrees_on_fields_one_side_carries() {
    let r = CRDTResolver::new();
    let a_doc = doc(
        "d",
        clock_of(&[("a", 2), ("b", 1)]),
        10,
        vec![("left".to_string(), Value::Int(1))],
    );
    let b_doc = doc(
        "d",
        clock_of(&[("a", 1), ("b", 2)]),
        10,
        vec![("right".to_string(), Value::Int(2))],
    );
    let on_a = r.merge_documents(&a_doc, &b_doc);
    let on_b = r.merge_documents(&b_doc, &a_doc);
    assert_eq!(payload_field(&on_a, "left"), Value::Int(1));
    assert_eq!(payload_field(&on_a, "right"), Value::Int(2));
    assert_eq!(payload_field(&on_b, "left"), Value::Int(1));
    assert_eq!(payload_field(&on_b, "right"), Value::Int(2));
}

#[test]
fn concurrent_tombstone_survives() {
    let r = CRDTResolver::new();
    let mut local = doc("d", clock_of(&[("a", 2), ("b", 1)]), 10, vec![]);
    local.deleted = true;
    let remote = doc("d", clock_of(&[("a", 1), ("b", 2)]), 11, vec![]);
    let merged = r.merge_documents(&local, &remote);
    assert!(merged.deleted);
}

fn op(id: &str, doc_id: &str, ts: i64) -> CRDTOperation {
    CRDTOperation {
        id: id.to_string(),
        op_type: OperationType::Insert,
        collection: "c".to_string(),
        document_id: doc_id.to_string(),
        data: None,
        vector: VectorClock::new(),
        timestamp: ts,
        peer_id: "p".to_string(),
    }
}

#[test]
fn resolve_conflicts_keeps_most_recent_per_document() {
    let r = CRDTResolver::new();
    let ops = vec![op("1", "x", 5), op("2", "y", 9), op("3", "x", 7), op("4", "z", 1)];
    let kept = r.resolve_conflicts(ops);
    assert_eq!(kept.len(), 3);
    // descending by timestamp
    assert!(kept[0].timestamp >= kept[1].timestamp);
    assert!(kept[1].timestamp >= kept[2].timestamp);
    // one operation per document id, the most recent one
    let x = kept.iter().find(|o| o.document_id == "x").unwrap();
    assert_eq!(x.timestamp, 7);
    let y = kept.iter().find(|o| o.document_id == "y").unwrap();
    assert_eq!(y.timestamp, 9);
    let z = kept.iter().find(|o| o.document_id == "z").unwrap();
    assert_eq!(z.timestamp, 1);
}

#[test]
fn resolve_conflicts_of_empty_batch_is_empty() {
    let r = CRDTResolver::new();
    let kept = r.resolve_conflicts(vec![]);
    assert_eq!(kept.len(), 0);
}

#[test]
fn equal_timestamps_tie_break_by_peer_id() {
    let r = CRDTResolver::new();
    let mut a = op("1", "x", 5);
    a.peer_id = "a-1".to_string();
    let mut b = op("2", "x", 5);
    b.peer_id = "b-1".to_string();
    let kept = r.resolve_conflicts(vec![a, b]);
    assert_eq!(kept.len(), 1);
    // the lexicographically greater peer id wins the tie
    assert_eq!(kept[0].peer_id, "b-1");
}

#[test]
fn equal_timestamps_prefer_the_dominating_vector() {
    let r = CRDTResolver::new();
    // same timestamp; a's vector is strictly dominated by b's, so b is
    // kept although its peer id is lexicographically smaller
    let mut a = op("1", "x", 5);
    a.peer_id = "z-9".to_string();
    a.vector = clock_of(&[("p", 1)]);
    let mut b = op("2", "x", 5);
    b.peer_id = "a-1".to_string();
    b.vector = clock_of(&[("p", 2)]);
    let kept = r.resolve_conflicts(vec![a, b]);
    assert_eq!(kept.len(), 1);
    assert_eq!(kept[0].peer_id, "a-1");
}

#[test]
fn sync_selection_keeps_undominated_operations() {
    let requester = clock_of(&[("a", 2)]);
    let mut seen = op("1", "x", 1);
    seen.vector = clock_of(&[("a", 1)]);
    let mut unseen = op("2", "y", 2);
    unseen.vector = clock_of(&[("a", 3)]);
    let mut concurrent = op("3", "z", 3);
    concurrent.vector = clock_of(&[("b", 1)]);
    let picked = select_missing_operations(vec![seen, unseen, concurrent], &requester);
    assert_eq!(picked.len(), 2);
    assert_eq!(picked[0].document_id, "y");
    assert_eq!(picked[1].document_id, "z");
}
