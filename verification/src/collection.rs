//! A replicated collection: local writes go to storage and are announced
//! to the network; inbound operations are reconciled through the resolver
//! and persisted.

use vstd::prelude::*;
use crate::clock::VectorClock;
use crate::clock::is_increment_of;
use crate::clock::is_merge_of;
use crate::clock::vc_leq;
use crate::clock::vc_eq;
use crate::types::DistributedDocument;
use crate::types::CRDTOperation;
use crate::types::OperationType;
use crate::types::MessageType;
use crate::types::ProtocolMessage;
use crate::types::SyncState;
use crate::types::EntryType;
use crate::types::DbError;
use crate::types::doc_equiv;
use crate::types::payload_model;
use crate::value::Value;
use crate::value::JVal;
use crate::value::jval_of;
use crate::value::jfields_of;
use crate::value::jkeys_distinct;
use crate::value::jget;
use crate::value::jhas;
use crate::value::obj_get;
use crate::value::obj_set;
use crate::value::copy_fields;
use crate::value::lemma_jfields_index;
use crate::value::lemma_jget_at;
use crate::storage::FileStorage;
use crate::storage::stored_doc_wf;
use crate::storage::doc_id_of;
use crate::storage::sensitive_collection;
use crate::storage::payload_obj;
use crate::network::NetworkManager;
use crate::network::Broadcast;
use crate::resolver::CRDTResolver;
use crate::resolver::doc_wf;
use crate::resolver::is_doc_merge_of;

verus! {

/// Kind tag of an operation on the wire.
impl OperationType {
    /// The wire tag of this operation kind.
    pub fn as_str(&self) -> (r: &'static str)
        ensures
            *self == OperationType::Insert ==> r@ == "insert"@,
            *self == OperationType::Update ==> r@ == "update"@,
            *self == OperationType::Delete ==> r@ == "delete"@,
    {
        match self {
            OperationType::Insert => "insert",
            OperationType::Update => "update",
            OperationType::Delete => "delete",
        }
    }
}

/// Renders a vector clock as an object of positive counters.
pub fn vector_to_value(v: &VectorClock) -> (r: Value)
    ensures
        r@ matches JVal::Obj(vm) && (forall|t: int|
            0 <= t < vm.len() ==> (#[trigger] vm[t]).1 == JVal::Int(
                #[verifier::truncate] (v.counter(vm[t].0) as i64),
            ) && v.counter(vm[t].0) > 0) && jkeys_distinct(vm),
{
    let entries = v.to_entries();
    let mut fields: Vec<(String, Value)> = Vec::new();
    let mut i: usize = 0;
    proof {
        lemma_jfields_index(fields@);
    }
    while i < entries.len()
        invariant
            i <= entries@.len(),
            fields@.len() == i,
            forall|t: int|
                0 <= t < entries@.len() ==> v.counter((#[trigger] entries@[t]).0@) == entries@[
                    t
                ].1 && entries@[t].1 > 0,
            forall|t: int, u: int|
                0 <= t < u < entries@.len() ==> entries@[t].0@ != entries@[u].0@,
            forall|t: int|
                0 <= t < i ==> (#[trigger] fields@[t]).0@ == entries@[t].0@ && fields@[t].1
                    == Value::Int(#[verifier::truncate] (entries@[t].1 as i64)),
        decreases entries@.len() - i,
    {
        fields.push(
            (entries[i].0.clone(), Value::Int(#[verifier::truncate] (entries[i].1 as i64))),
        );
        i = i + 1;
    }
    let r = Value::Obj(fields);
    proof {
        lemma_jfields_index(fields@);
        let vm = jfields_of(fields@);
        assert forall|t: int|
            0 <= t < vm.len() implies (#[trigger] vm[t]).1 == JVal::Int(
            #[verifier::truncate] (v.counter(vm[t].0) as i64),
        ) && v.counter(vm[t].0) > 0 by {
            assert(vm[t] == (fields@[t].0@, jval_of(fields@[t].1)));
            assert(fields@[t].0@ == entries@[t].0@);
        }
        assert(jkeys_distinct(vm));
    }
    r
}

/// The counter a rendered clock object assigns to peer `q`: the value of
/// a positive integer field, zero otherwise.
pub open spec fn counter_of_model(vm: Seq<(Seq<char>, JVal)>, q: Seq<char>) -> u64 {
    match jget(vm, q) {
        Some(JVal::Int(c)) => if c > 0 {
            c as u64
        } else {
            0
        },
        _ => 0,
    }
}

/// Reads a vector clock back from an object of counters: positive
/// integer fields count, everything else is ignored.
#[verifier::loop_isolation(false)]
pub fn value_to_vector(v: &Value) -> (r: VectorClock)
    ensures
        v@ matches JVal::Obj(vm) ==> (jkeys_distinct(vm) ==> forall|q: Seq<char>| #[trigger] r.counter(
            q,
        ) == counter_of_model(vm, q)),
        !(v@ is Obj) ==> forall|q: Seq<char>| #[trigger] r.counter(q) == 0,
{
    let mut entries: Vec<(String, u64)> = Vec::new();
    match v {
        Value::Obj(fields) => {
            let ghost vm = jfields_of(fields@);
            let ghost wf = jkeys_distinct(vm);
            proof {
                lemma_jfields_index(fields@);
            }
            let mut i: usize = 0;
            while i < fields.len()
                invariant
                    i <= fields@.len(),
                    forall|u: int, w: int|
                        0 <= u < w < entries@.len() ==> entries@[u].0@ != entries@[w].0@ || !wf,
                    forall|u: int|
                        0 <= u < entries@.len() ==> (#[trigger] entries@[u]).1 > 0,
                    wf ==> (forall|k: int|
                        0 <= k < i ==> (counter_of_model(vm, #[trigger] vm[k].0) > 0
                            ==> exists|u: int|
                            0 <= u < entries@.len() && (#[trigger] entries@[u]).0@ == vm[k].0
                                && entries@[u].1 == counter_of_model(vm, vm[k].0))),
                    forall|u: int|
                        0 <= u < entries@.len() ==> exists|k: int|
                            0 <= k < i && (#[trigger] entries@[u]).0@ == vm[k].0 && (wf
                                ==> entries@[u].1 == counter_of_model(vm, vm[k].0)),
                decreases fields@.len() - i,
            {
                let ghost e0 = entries@;
                let ghost ii = i as int;
                proof {
                    if wf {
                        lemma_jget_at(vm, ii);
                    }
                }
                match &fields[i].1 {
                    Value::Int(c) => {
                        if *c > 0 {
                            entries.push((fields[i].0.clone(), *c as u64));
                            proof {
                                assert(entries@.last().0@ == vm[ii].0);
                                assert(forall|u: int| 0 <= u < e0.len() ==> entries@[u] == e0[u]);
                                if wf {
                                    assert(jget(vm, vm[ii].0) == Some(JVal::Int(
                                        fields@[ii].1->Int_0,
                                    )));
                                    assert(entries@.last().1 == counter_of_model(vm, vm[ii].0));
                                    assert forall|u: int, w: int|
                                        0 <= u < w < entries@.len() implies entries@[u].0@
                                        != entries@[w].0@ || !wf by {
                                        if w == entries@.len() - 1 && entries@[u].0@
                                            == vm[ii].0 {
                                            let k0 = choose|k0: int|
                                                0 <= k0 < ii && (#[trigger] e0[u]).0@ == vm[
                                                    k0
                                                ].0 && (wf ==> e0[u].1 == counter_of_model(
                                                    vm,
                                                    vm[k0].0,
                                                ));
                                            assert(vm[k0].0 == vm[ii].0);
                                        }
                                    }
                                }
                            }
                        }
                    },
                    _ => {},
                }
                i = i + 1;
            }
            let r = VectorClock::from_entries(&entries);
            proof {
                if wf {
                    assert forall|q: Seq<char>| true implies #[trigger] r.counter(q)
                        == counter_of_model(vm, q) by {
                        if jhas(vm, q) {
                            let k = choose|k: int| 0 <= k < vm.len() && vm[k].0 == q;
                            lemma_jget_at(vm, k);
                            if counter_of_model(vm, q) > 0 {
                                let u = choose|u: int|
                                    0 <= u < entries@.len() && (#[trigger] entries@[u]).0@
                                        == vm[k].0 && entries@[u].1 == counter_of_model(
                                        vm,
                                        vm[k].0,
                                    );
                                assert(entries@[u].1 > 0);
                                assert(forall|w: int|
                                    0 <= w < u ==> (#[trigger] entries@[w]).0@ != entries@[
                                        u
                                    ].0@);
                                assert(r.counter(entries@[u].0@) == entries@[u].1);
                            } else {
                                assert forall|u: int|
                                    0 <= u < entries@.len() implies (#[trigger] entries@[
                                    u
                                ]).0@ != q by {
                                    if entries@[u].0@ == q {
                                        let k2 = choose|k2: int|
                                            0 <= k2 < vm.len() && (#[trigger] entries@[u]).0@
                                                == vm[k2].0 && (wf ==> entries@[u].1
                                                == counter_of_model(vm, vm[k2].0));
                                        assert(vm[k2].0 == q);
                                        assert(k2 == k);
                                    }
                                }
                                assert(r.counter(q) == 0);
                            }
                        } else {
                            assert forall|u: int|
                                0 <= u < entries@.len() implies (#[trigger] entries@[u]).0@
                                != q by {
                                if entries@[u].0@ == q {
                                    let k2 = choose|k2: int|
                                        0 <= k2 < vm.len() && (#[trigger] entries@[u]).0@ == vm[
                                            k2
                                        ].0 && (wf ==> entries@[u].1 == counter_of_model(
                                            vm,
                                            vm[k2].0,
                                        ));
                                }
                            }
                            assert(r.counter(q) == 0);
                        }
                    }
                }
            }
            return r;
        },
        _ => {},
    }
    let r = VectorClock::from_entries(&entries);
    proof {
        assert forall|q: Seq<char>| true implies #[trigger] r.counter(q) == 0 by {
            assert(forall|u: int| 0 <= u < entries@.len() ==> (#[trigger] entries@[u]).0@ != q);
        }
    }
    r
}

/// The stored rendering of a document: every field of the document
/// stands under its own name, the vector as an object of its positive
/// counters.
pub open spec fn rendered_doc_ok(d: DistributedDocument, m: Seq<(Seq<char>, JVal)>) -> bool {
    &&& stored_doc_wf(m)
    &&& jget(m, "id"@) == Some(JVal::Str(d.id@))
    &&& (d.entry_type == EntryType::Memory ==> jget(m, "entryType"@) == Some(
        JVal::Str("MEMORY"@),
    ))
    &&& (d.entry_type == EntryType::Auth ==> jget(m, "entryType"@) == Some(JVal::Str("AUTH"@)))
    &&& (d.payload matches Some(p) ==> jget(m, "payload"@) == Some(JVal::Obj(jfields_of(p@))))
    &&& (d.payload is None ==> jget(m, "payload"@) is None)
    &&& jget(m, "timestamp"@) == Some(JVal::Int(d.timestamp))
    &&& jget(m, "peerId"@) == Some(JVal::Str(d.peer_id@))
    &&& (d.stage matches Some(s) ==> jget(m, "stage"@) == Some(JVal::Str(s@)))
    &&& (d.stage is None ==> jget(m, "stage"@) is None)
    &&& jget(m, "deleted"@) == Some(JVal::Bool(d.deleted))
    &&& (jget(m, "vector"@) matches Some(JVal::Obj(vm)) && jkeys_distinct(vm) && (forall|t: int|
        0 <= t < vm.len() ==> (#[trigger] vm[t]).1 == JVal::Int(
            #[verifier::truncate] (d.vector.counter(vm[t].0) as i64),
        ) && d.vector.counter(vm[t].0) > 0))
    &&& doc_id_of(m) == (if d.id@.len() > 0 {
        Some(d.id@)
    } else {
        None::<Seq<char>>
    })
    &&& forall|f: Seq<char>|
        f != "id"@ && f != "entryType"@ && f != "payload"@ && f != "vector"@ && f != "timestamp"@
            && f != "peerId"@ && f != "stage"@ && f != "deleted"@ ==> #[trigger] jget(m, f)
            is None
}

/// What a parse of the stored form `m` reads into a document: each typed
/// field carries over, the vector by its positive integer counters.
pub open spec fn parsed_doc_ok(m: Seq<(Seq<char>, JVal)>, d: DistributedDocument) -> bool {
    &&& (jget(m, "id"@) matches Some(JVal::Str(s)) ==> d.id@ == s)
    &&& ((jget(m, "deleted"@) == Some(JVal::Bool(true))) <==> d.deleted)
    &&& (jget(m, "payload"@) matches Some(JVal::Obj(p)) ==> (d.payload matches Some(dp)
        && jfields_of(dp@) == p))
    &&& (!(jget(m, "payload"@) matches Some(JVal::Obj(p2))) ==> d.payload is None)
    &&& (jget(m, "entryType"@) == Some(JVal::Str("MEMORY"@)) ==> d.entry_type
        == EntryType::Memory)
    &&& (jget(m, "timestamp"@) matches Some(JVal::Int(t)) ==> d.timestamp == t)
    &&& (jget(m, "peerId"@) matches Some(JVal::Str(s)) ==> d.peer_id@ == s)
    &&& (jget(m, "vector"@) matches Some(JVal::Obj(vm)) ==> (jkeys_distinct(vm) ==> forall|
        q: Seq<char>,
    | #[trigger] d.vector.counter(q) == counter_of_model(vm, q)))
    &&& (jget(m, "vector"@) is None ==> forall|q: Seq<char>| #[trigger] d.vector.counter(q) == 0)
}

/// Renders a document with its CRDT metadata as a storage object.
pub fn doc_to_obj(d: &DistributedDocument) -> (r: Vec<(String, Value)>)
    requires
        doc_wf(*d),
    ensures
        rendered_doc_ok(*d, jfields_of(r@)),
{
    proof {
        reveal_strlit("id");
        reveal_strlit("entryType");
        reveal_strlit("payload");
        reveal_strlit("vector");
        reveal_strlit("timestamp");
        reveal_strlit("peerId");
        reveal_strlit("stage");
        reveal_strlit("deleted");
        assert("id"@.len() == 2 && "entryType"@.len() == 9 && "payload"@.len() == 7 && "vector"@
            .len() == 6 && "timestamp"@.len() == 9 && "peerId"@.len() == 6 && "stage"@.len() == 5
            && "deleted"@.len() == 7);
        assert("entryType"@[0] == 'e' && "timestamp"@[0] == 't');
        assert("payload"@[0] == 'p' && "deleted"@[0] == 'd');
        assert("vector"@[0] == 'v' && "peerId"@[0] == 'p');
    }
    let mut out: Vec<(String, Value)> = Vec::new();
    obj_set(&mut out, "id".to_owned(), Value::Str(d.id.clone()));
    obj_set(&mut out, "entryType".to_owned(), Value::Str(d.entry_type.as_str().to_owned()));
    match &d.payload {
        Some(p) => {
            obj_set(&mut out, "payload".to_owned(), Value::Obj(copy_fields(p)));
        },
        None => {},
    }
    obj_set(&mut out, "vector".to_owned(), vector_to_value(&d.vector));
    obj_set(&mut out, "timestamp".to_owned(), Value::Int(d.timestamp));
    obj_set(&mut out, "peerId".to_owned(), Value::Str(d.peer_id.clone()));
    match &d.stage {
        Some(s) => {
            obj_set(&mut out, "stage".to_owned(), Value::Str(s.clone()));
        },
        None => {},
    }
    obj_set(&mut out, "deleted".to_owned(), Value::Bool(d.deleted));
    out
}

/// Reads a document with its CRDT metadata back from a storage object.
/// Missing or differently-typed fields take their defaults.
pub fn obj_to_doc(m: &Vec<(String, Value)>) -> (d: DistributedDocument)
    requires
        stored_doc_wf(jfields_of(m@)),
    ensures
        doc_wf(d),
        parsed_doc_ok(jfields_of(m@), d),
{
    proof {
        reveal_strlit("MEMORY");
        reveal_strlit("AUTH");
        assert("MEMORY"@.len() == 6 && "AUTH"@.len() == 4);
    }
    let id = match obj_get(m, &"id".to_owned()) {
        Some(v) => match v {
            Value::Str(s) => s.clone(),
            _ => String::new(),
        },
        None => String::new(),
    };
    let entry_type = match obj_get(m, &"entryType".to_owned()) {
        Some(v) => match v {
            Value::Str(s) => EntryType::from(s.as_str()),
            _ => EntryType::Memory,
        },
        None => EntryType::Memory,
    };
    let payload = match obj_get(m, &"payload".to_owned()) {
        Some(v) => match v {
            Value::Obj(p) => Some(copy_fields(p)),
            _ => None,
        },
        None => None,
    };
    let vector = match obj_get(m, &"vector".to_owned()) {
        Some(v) => value_to_vector(v),
        None => VectorClock::new(),
    };
    let timestamp = match obj_get(m, &"timestamp".to_owned()) {
        Some(v) => match v {
            Value::Int(t) => *t,
            _ => 0,
        },
        None => 0,
    };
    let peer_id = match obj_get(m, &"peerId".to_owned()) {
        Some(v) => match v {
            Value::Str(s) => s.clone(),
            _ => String::new(),
        },
        None => String::new(),
    };
    let stage = match obj_get(m, &"stage".to_owned()) {
        Some(v) => match v {
            Value::Str(s) => Some(s.clone()),
            _ => None,
        },
        None => None,
    };
    let deleted = match obj_get(m, &"deleted".to_owned()) {
        Some(v) => v.is_true(),
        None => false,
    };
    DistributedDocument { id, entry_type, payload, vector, timestamp, peer_id, stage, deleted }
}

/// Renders an operation as a message payload object.
pub fn op_to_value(op: &CRDTOperation) -> (r: Value)
    requires
        op.data matches Some(d) ==> doc_wf(d),
    ensures
        r@ matches JVal::Obj(om) && {
            &&& jget(om, "documentId"@) == Some(JVal::Str(op.document_id@))
            &&& jget(om, "collection"@) == Some(JVal::Str(op.collection@))
            &&& jget(om, "id"@) == Some(JVal::Str(op.id@))
            &&& (op.op_type == OperationType::Insert ==> jget(om, "opType"@) == Some(
                JVal::Str("insert"@),
            ))
            &&& (op.op_type == OperationType::Update ==> jget(om, "opType"@) == Some(
                JVal::Str("update"@),
            ))
            &&& (op.op_type == OperationType::Delete ==> jget(om, "opType"@) == Some(
                JVal::Str("delete"@),
            ))
            &&& jget(om, "timestamp"@) == Some(JVal::Int(op.timestamp))
            &&& jget(om, "peerId"@) == Some(JVal::Str(op.peer_id@))
            &&& (op.data matches Some(d) ==> (jget(om, "data"@) matches Some(JVal::Obj(dm))
                && rendered_doc_ok(d, dm)))
            &&& (op.data is None ==> jget(om, "data"@) is None)
            &&& (jget(om, "vector"@) matches Some(JVal::Obj(vm)) && jkeys_distinct(vm) && (
            forall|t: int|
                0 <= t < vm.len() ==> (#[trigger] vm[t]).1 == JVal::Int(
                    #[verifier::truncate] (op.vector.counter(vm[t].0) as i64),
                ) && op.vector.counter(vm[t].0) > 0))
        },
{
    proof {
        reveal_strlit("id");
        reveal_strlit("opType");
        reveal_strlit("collection");
        reveal_strlit("documentId");
        reveal_strlit("data");
        reveal_strlit("vector");
        reveal_strlit("timestamp");
        reveal_strlit("peerId");
        assert("id"@.len() == 2 && "opType"@.len() == 6 && "collection"@.len() == 10
            && "documentId"@.len() == 10 && "data"@.len() == 4 && "vector"@.len() == 6
            && "timestamp"@.len() == 9 && "peerId"@.len() == 6);
        assert("collection"@[0] == 'c' && "documentId"@[0] == 'd');
        assert("opType"@[0] == 'o' && "vector"@[0] == 'v' && "peerId"@[0] == 'p');
    }
    let mut out: Vec<(String, Value)> = Vec::new();
    obj_set(&mut out, "id".to_owned(), Value::Str(op.id.clone()));
    obj_set(&mut out, "opType".to_owned(), Value::Str(op.op_type.as_str().to_owned()));
    obj_set(&mut out, "collection".to_owned(), Value::Str(op.collection.clone()));
    obj_set(&mut out, "documentId".to_owned(), Value::Str(op.document_id.clone()));
    match &op.data {
        Some(d) => {
            obj_set(&mut out, "data".to_owned(), Value::Obj(doc_to_obj(d)));
        },
        None => {},
    }
    obj_set(&mut out, "vector".to_owned(), vector_to_value(&op.vector));
    obj_set(&mut out, "timestamp".to_owned(), Value::Int(op.timestamp));
    obj_set(&mut out, "peerId".to_owned(), Value::Str(op.peer_id.clone()));
    Value::Obj(out)
}


/// Selects the operations a sync response should carry: exactly those
/// whose vectors the requester's local vector does not dominate, in the
/// order given (see the sync exchange of the wire protocol).
pub fn select_missing_operations(
    operations: Vec<CRDTOperation>,
    requester: &VectorClock,
) -> (r: Vec<CRDTOperation>)
    ensures
        forall|i: int|
            0 <= i < r@.len() ==> crate::resolver::op_among(#[trigger] r@[i], operations@)
                && !vc_leq(r@[i].vector, *requester),
        forall|j: int|
            0 <= j < operations@.len() ==> (!vc_leq(
                (#[trigger] operations@[j]).vector,
                *requester,
            ) ==> crate::resolver::op_among(operations@[j], r@)),
{
    let ghost ops0 = operations@;
    let mut ops = operations;
    let mut out: Vec<CRDTOperation> = Vec::new();
    while ops.len() > 0
        invariant
            ops@.len() <= ops0.len(),
            ops@ == ops0.skip(ops0.len() - ops@.len()),
            forall|i: int|
                0 <= i < out@.len() ==> crate::resolver::op_among(#[trigger] out@[i], ops0)
                    && !vc_leq(out@[i].vector, *requester),
            forall|j: int|
                0 <= j < ops0.len() - ops@.len() ==> (!vc_leq(
                    (#[trigger] ops0[j]).vector,
                    *requester,
                ) ==> crate::resolver::op_among(ops0[j], out@)),
        decreases ops@.len(),
    {
        let ghost k = ops0.len() - ops@.len();
        let ghost ops_pre = ops@;
        let op = ops.remove(0);
        let ghost opv = op;
        proof {
            assert(opv == ops_pre[0]);
            assert(ops_pre[0] == ops0[k as int]);
            assert(ops@ =~= ops0.skip(k + 1 as int)) by {
                assert(forall|t: int| 0 <= t < ops@.len() ==> ops@[t] == ops_pre[t + 1]);
                assert(forall|t: int|
                    0 <= t < ops_pre.len() ==> ops_pre[t] == ops0[k + t]);
            }
        }
        let keep = !op.vector.happens_before(requester);
        let ghost out0 = out@;
        if keep {
            out.push(op);
            proof {
                assert(forall|i: int| 0 <= i < out0.len() ==> out@[i] == out0[i]);
                assert(out@[out0.len() as int] == opv);
                assert(crate::resolver::op_among(opv, ops0)) by {
                    assert(ops0[k as int] == opv);
                }
                assert(crate::resolver::op_among(opv, out@)) by {
                    assert(out@[out0.len() as int] == opv);
                }
            }
        }
        proof {
            assert forall|j: int|
                0 <= j < ops0.len() - ops@.len() implies (!vc_leq(
                (#[trigger] ops0[j]).vector,
                *requester,
            ) ==> crate::resolver::op_among(ops0[j], out@)) by {
                if j < k {
                    if !vc_leq(ops0[j].vector, *requester) {
                        assert(crate::resolver::op_among(ops0[j], out0));
                        let u = choose|u: int| 0 <= u < out0.len() && out0[u] == ops0[j];
                        assert(out@[u] == ops0[j]);
                    }
                } else {
                    assert(j == k);
                    assert(ops0[j] == opv);
                }
            }
        }
    }
    out
}

/// A named collection bound to storage and a network.
pub struct DistributedCollection {
    name: String,
    network_id: Option<String>,
    resolver: CRDTResolver,
    sync_state: SyncState,
}

impl DistributedCollection {
    /// This collection's name.
    pub closed spec fn spec_name(self) -> Seq<char> {
        self.name@
    }

    /// The network this collection is attached to, if any.
    pub closed spec fn spec_network_id(self) -> Option<Seq<char>> {
        match self.network_id {
            Some(n) => Some(n@),
            None => None,
        }
    }

    /// This collection's local vector clock.
    pub closed spec fn spec_vector(self) -> VectorClock {
        self.sync_state.local_vector
    }

    /// Whether a sync pass is marked as running.
    pub closed spec fn spec_sync_in_progress(self) -> bool {
        self.sync_state.sync_in_progress
    }

    /// This collection's name.
    pub fn get_name(&self) -> (r: &str)
        ensures
            r@ == self.spec_name(),
    {
        self.name.as_str()
    }

    /// Creates a detached collection with a fresh sync state.
    pub fn new(name: String) -> (r: DistributedCollection)
        ensures
            r.spec_name() == name@,
            r.spec_network_id() is None,
            forall|p: Seq<char>| #[trigger] r.spec_vector().counter(p) == 0,
    {
        let sync_name = name.clone();
        DistributedCollection {
            name,
            network_id: None,
            resolver: CRDTResolver::new(),
            sync_state: SyncState {
                collection: sync_name,
                network_id: String::new(),
                local_vector: VectorClock::new(),
                last_sync: crate::crypto::now_seconds(),
                pending_operations: Vec::new(),
                staged_entries: Vec::new(),
                sync_in_progress: false,
            },
        }
    }

    /// Builds the protocol message that announces `op` on `network_id`.
    fn operation_message(
        &self,
        network: &NetworkManager,
        network_id: &String,
        op: &CRDTOperation,
    ) -> (r: ProtocolMessage)
        requires
            op.data matches Some(d) ==> doc_wf(d),
        ensures
            r.msg_type == MessageType::Operation,
            r.network_id@ == network_id@,
            r.sender_id@ == network.spec_peer_id(),
            r.payload@ matches JVal::Obj(om) && {
                &&& jget(om, "documentId"@) == Some(JVal::Str(op.document_id@))
                &&& jget(om, "collection"@) == Some(JVal::Str(op.collection@))
                &&& (op.op_type == OperationType::Insert ==> jget(om, "opType"@) == Some(
                    JVal::Str("insert"@),
                ))
                &&& (op.op_type == OperationType::Update ==> jget(om, "opType"@) == Some(
                    JVal::Str("update"@),
                ))
                &&& (op.op_type == OperationType::Delete ==> jget(om, "opType"@) == Some(
                    JVal::Str("delete"@),
                ))
                &&& (op.data matches Some(d) ==> (jget(om, "data"@) matches Some(JVal::Obj(dm))
                    && rendered_doc_ok(d, dm)))
                &&& (op.data is None ==> jget(om, "data"@) is None)
                &&& (jget(om, "vector"@) matches Some(JVal::Obj(vm)) && jkeys_distinct(vm) && (
                forall|t: int|
                    0 <= t < vm.len() ==> (#[trigger] vm[t]).1 == JVal::Int(
                        #[verifier::truncate] (op.vector.counter(vm[t].0) as i64),
                    ) && op.vector.counter(vm[t].0) > 0))
            },
    {
        ProtocolMessage {
            msg_type: MessageType::Operation,
            network_id: network_id.clone(),
            sender_id: network.get_peer_id(),
            timestamp: crate::crypto::now_seconds(),
            payload: op_to_value(op),
        }
    }

    /// Inserts a document: stamps it with this peer's next vector clock,
    /// persists it, and, when the collection is attached to a network,
    /// plans an insert-operation broadcast. Returns the document back,
    /// with the broadcast plan when one is due.
    pub fn insert(
        &mut self,
        storage: &mut FileStorage,
        network: &NetworkManager,
        doc: Vec<(String, Value)>,
    ) -> (r: Result<(Vec<(String, Value)>, Option<Broadcast>), DbError>)
        requires
            stored_doc_wf(jfields_of(doc@)),
        ensures
            r matches Ok(t) ==> t.0 == doc,
            r is Ok ==> is_increment_of(
                final(self).spec_vector(),
                old(self).spec_vector(),
                network.spec_peer_id(),
            ),
            r matches Ok(t) ==> (match old(self).spec_network_id() {
                Some(nid) => t.1 matches Some(b) && b.message.msg_type == MessageType::Operation
                    && b.message.network_id@ == nid && crate::network::str_views(b.targets@)
                    == network.spec_connections() && (b.message.payload@ matches JVal::Obj(om)
                    && jget(om, "collection"@) == Some(JVal::Str(old(self).spec_name()))),
                None => t.1 is None,
            }),
            r is Ok ==> final(self).spec_network_id() == old(self).spec_network_id(),
            final(self).spec_name() == old(self).spec_name(),
            old(self).spec_network_id() is Some && !network.spec_initialized() ==> r is Err,
            r is Ok && !crate::storage::sensitive_collection(old(self).spec_name()) && !jhas(
                jfields_of(doc@),
                "blob"@,
            ) ==> (jget(jfields_of(doc@), "id"@) matches Some(JVal::Str(s)) && s.len() > 0 && (
            final(storage).stored_doc(old(self).spec_name(), s) matches Some(m1) && {
                &&& jget(m1, "id"@) == Some(JVal::Str(s))
                &&& jget(m1, "payload"@) == Some(JVal::Obj(jfields_of(doc@)))
                &&& jget(m1, "deleted"@) == Some(JVal::Bool(false))
                &&& jget(m1, "peerId"@) == Some(JVal::Str(network.spec_peer_id()))
                &&& jget(m1, "entryType"@) == Some(
                    JVal::Str(
                        match jget(jfields_of(doc@), "entryType"@) {
                            Some(JVal::Str(es)) => if crate::types::spec_entry_type_of(es)
                                == EntryType::Auth {
                                "AUTH"@
                            } else {
                                "MEMORY"@
                            },
                            _ => "MEMORY"@,
                        },
                    ),
                )
                &&& (jget(m1, "vector"@) matches Some(JVal::Obj(vm)) && jkeys_distinct(vm) && (
                forall|t2: int|
                    0 <= t2 < vm.len() ==> (#[trigger] vm[t2]).1 == JVal::Int(
                        #[verifier::truncate] (final(self).spec_vector().counter(vm[t2].0)
                            as i64),
                    ) && final(self).spec_vector().counter(vm[t2].0) > 0))
                &&& jget(m1, "timestamp"@) matches Some(JVal::Int(ts2))
                &&& jget(m1, "stage"@) is None
                &&& (forall|f: Seq<char>|
                    f != "id"@ && f != "entryType"@ && f != "payload"@ && f != "vector"@ && f
                        != "timestamp"@ && f != "peerId"@ && f != "stage"@ && f != "deleted"@
                        ==> #[trigger] jget(m1, f) is None)
            })),
    {
        let peer = network.get_peer_id();
        if self.sync_state.local_vector.get_counter(&peer) == u64::MAX {
            return Err(DbError::Validation("vector clock counter exhausted".to_owned()));
        }
        let id = match obj_get(&doc, &"id".to_owned()) {
            Some(v) => match v {
                Value::Str(s) => s.clone(),
                _ => String::new(),
            },
            None => String::new(),
        };
        let entry_type = match obj_get(&doc, &"entryType".to_owned()) {
            Some(v) => match v {
                Value::Str(s) => EntryType::from(s.as_str()),
                _ => EntryType::Memory,
            },
            None => EntryType::Memory,
        };
        let next_vector = self.sync_state.local_vector.clone().increment(peer.clone());
        let ddoc = DistributedDocument {
            id: id.clone(),
            entry_type,
            payload: Some(copy_fields(&doc)),
            vector: next_vector.clone(),
            timestamp: crate::crypto::now_seconds(),
            peer_id: peer.clone(),
            stage: None,
            deleted: false,
        };
        let storage_obj = doc_to_obj(&ddoc);
        match storage.insert(self.name.as_str(), storage_obj) {
            Ok(_) => {},
            Err(e) => {
                return Err(e);
            },
        }
        let plan: Option<Broadcast> = match &self.network_id {
            Some(nid) => {
                let op_id = match crate::crypto::new_uuid_string() {
                    Ok(op_id) => op_id,
                    Err(e) => {
                        return Err(e);
                    },
                };
                let op = CRDTOperation {
                    id: op_id,
                    op_type: OperationType::Insert,
                    collection: self.name.clone(),
                    document_id: id.clone(),
                    data: Some(ddoc),
                    vector: next_vector.clone(),
                    timestamp: crate::crypto::now_seconds(),
                    peer_id: peer.clone(),
                };
                let msg = self.operation_message(network, nid, &op);
                match network.broadcast_message(nid.as_str(), msg) {
                    Ok(b) => Some(b),
                    Err(e) => {
                        return Err(e);
                    },
                }
            },
            None => None,
        };
        self.sync_state.local_vector = next_vector;
        Ok((doc, plan))
    }

    /// Applies an inbound operation: merges it against any local version
    /// through the resolver (a deletion becomes a tombstone unless the
    /// local version dominates it), persists the outcome, and absorbs the
    /// operation's vector into the local clock.
    pub fn apply_operation(&mut self, storage: &mut FileStorage, op: &CRDTOperation) -> (r:
        Result<(), DbError>)
        requires
            op.data matches Some(d) ==> doc_wf(d),
            op.document_id@.len() > 0,
        ensures
            r is Ok ==> is_merge_of(
                final(self).spec_vector(),
                old(self).spec_vector(),
                op.vector,
            ),
            final(self).spec_name() == old(self).spec_name(),
            final(self).spec_network_id() == old(self).spec_network_id(),
            op.op_type == OperationType::Delete && old(storage).stored_doc(
                old(self).spec_name(),
                op.document_id@,
            ) is None && !sensitive_collection(old(self).spec_name()) ==> (r is Ok && (final(storage).stored_doc(old(self).spec_name(), op.document_id@) matches Some(m1) && {
                &&& jget(m1, "deleted"@) == Some(JVal::Bool(true))
                &&& jget(m1, "id"@) == Some(JVal::Str(op.document_id@))
                &&& jget(m1, "timestamp"@) == Some(JVal::Int(op.timestamp))
                &&& jget(m1, "payload"@) is None
            })),
            op.op_type == OperationType::Delete && !sensitive_collection(old(self).spec_name())
                ==> (old(storage).stored_doc(old(self).spec_name(), op.document_id@)
                matches Some(m) ==> (jget(m, "encrypted"@) != Some(JVal::Bool(true)) && old(storage).reinline_path(m) is None ==> r is Ok)),
            op.op_type != OperationType::Delete && !sensitive_collection(old(self).spec_name())
                ==> (op.data matches Some(d) ==> (d.id@ == op.document_id@ && (d.payload
                matches Some(pd) ==> !jhas(jfields_of(pd@), "blob"@)) && old(storage).stored_doc(
                old(self).spec_name(),
                op.document_id@,
            ) is None ==> (r is Ok && (final(storage).stored_doc(
                old(self).spec_name(),
                op.document_id@,
            ) matches Some(m1) && rendered_doc_ok(d, m1))))),
            op.op_type != OperationType::Delete && !sensitive_collection(old(self).spec_name())
                ==> (op.data matches Some(d) ==> (old(storage).stored_doc(
                old(self).spec_name(),
                op.document_id@,
            ) matches Some(m) ==> (jget(m, "encrypted"@) != Some(JVal::Bool(true)) && old(storage).reinline_path(m) is None && doc_id_of(m) == Some(op.document_id@) && d.id@
                == op.document_id@ && (d.payload matches Some(pd) ==> !jhas(
                jfields_of(pd@),
                "blob"@,
            )) && (payload_obj(m) matches Some(pm) ==> !jhas(pm, "blob"@)) ==> (r is Ok
                && exists|ld: DistributedDocument, mg: DistributedDocument|
                #![trigger parsed_doc_ok(m, ld), is_doc_merge_of(mg, ld, d)]
                parsed_doc_ok(m, ld) && is_doc_merge_of(mg, ld, d) && (final(storage).stored_doc(
                    old(self).spec_name(),
                    op.document_id@,
                ) matches Some(m1) && rendered_doc_ok(mg, m1)))))),
    {
        match op.op_type {
            OperationType::Delete => {
                let local = match storage.find(self.name.as_str(), op.document_id.as_str()) {
                    Ok(l) => l,
                    Err(e) => {
                        return Err(e);
                    },
                };
                let dominated = match &local {
                    Some(obj) => {
                        let local_doc = obj_to_doc(obj);
                        op.vector.happens_before(&local_doc.vector) && !local_doc.vector.happens_before(
                            &op.vector,
                        )
                    },
                    None => false,
                };
                if !dominated {
                    let tombstone = DistributedDocument {
                        id: op.document_id.clone(),
                        entry_type: EntryType::Memory,
                        payload: None,
                        vector: op.vector.clone(),
                        timestamp: op.timestamp,
                        peer_id: op.peer_id.clone(),
                        stage: None,
                        deleted: true,
                    };
                    let obj = doc_to_obj(&tombstone);
                    match storage.insert(self.name.as_str(), obj) {
                        Ok(_) => {},
                        Err(e) => {
                            return Err(e);
                        },
                    }
                }
            },
            _ => {
                let data = match &op.data {
                    Some(d) => d,
                    None => {
                        return Err(DbError::Protocol("operation missing document".to_owned()));
                    },
                };
                let local = match storage.find(self.name.as_str(), op.document_id.as_str()) {
                    Ok(l) => l,
                    Err(e) => {
                        return Err(e);
                    },
                };
                let ghost had_local = local is Some;
                let ghost lm: Seq<(Seq<char>, JVal)> = match &local {
                    Some(obj) => jfields_of(obj@),
                    None => Seq::empty(),
                };
                let ghost mut parsed_local: Option<DistributedDocument> = None;
                let merged = match &local {
                    Some(obj) => {
                        let local_doc = obj_to_doc(obj);
                        proof {
                            parsed_local = Some(local_doc);
                        }
                        self.resolver.merge_documents(&local_doc, data)
                    },
                    None => data.clone(),
                };
                proof {
                    assert(doc_wf(merged)) by {
                        match &local {
                            Some(obj) => {},
                            None => {},
                        }
                    }
                }
                let obj = doc_to_obj(&merged);
                let ghost om = jfields_of(obj@);
                proof {
                    assert(rendered_doc_ok(merged, om));
                }
                match storage.insert(self.name.as_str(), obj) {
                    Ok(_) => {},
                    Err(e) => {
                        return Err(e);
                    },
                }
                proof {
                    if !had_local {
                        // the stored rendering of the clone carries the
                        // carried document's own fields
                        assert(doc_equiv(merged, *data));
                        assert(rendered_doc_ok(*data, om)) by {
                            match jget(om, "vector"@) {
                                Some(JVal::Obj(vm)) => {
                                    assert forall|t: int|
                                        0 <= t < vm.len() implies (#[trigger] vm[t]).1
                                        == JVal::Int(
                                        #[verifier::truncate] (data.vector.counter(vm[t].0)
                                            as i64),
                                    ) && data.vector.counter(vm[t].0) > 0 by {
                                        assert(merged.vector.counter(vm[t].0)
                                            == data.vector.counter(vm[t].0));
                                    }
                                },
                                _ => {},
                            }
                            match &merged.payload {
                                Some(p) => {
                                    assert(payload_model(merged.payload) == payload_model(
                                        data.payload,
                                    ));
                                },
                                None => {},
                            }
                        }
                    } else {
                        match parsed_local {
                            Some(ldv) => {
                                assert(parsed_doc_ok(lm, ldv) && is_doc_merge_of(
                                    merged,
                                    ldv,
                                    *data,
                                ));
                                let name0 = self.spec_name();
                                let prem = !sensitive_collection(name0) && doc_id_of(lm)
                                    == Some(op.document_id@) && data.id@ == op.document_id@ && (
                                payload_model(data.payload) matches Some(pdm) ==> !jhas(
                                    pdm,
                                    "blob"@,
                                )) && (payload_obj(lm) matches Some(pm) ==> !jhas(pm, "blob"@));
                                if prem {
                                    if vc_leq(ldv.vector, data.vector) {
                                        assert(doc_equiv(merged, *data));
                                        assert(merged.id@ == op.document_id@);
                                    } else if vc_leq(data.vector, ldv.vector) {
                                        assert(doc_equiv(merged, ldv));
                                        assert(ldv.id@ == op.document_id@);
                                        assert(merged.id@ == op.document_id@);
                                    } else {
                                        assert(merged.id@ == ldv.id@);
                                        assert(ldv.id@ == op.document_id@);
                                    }
                                    assert(doc_id_of(om) == Some(op.document_id@));
                                    assert(!crate::storage::blob_case(om)) by {
                                        match jget(om, "payload"@) {
                                            Some(JVal::Obj(p)) => {
                                                assert(jget(p, "blob"@) is None) by {
                                                    if vc_leq(ldv.vector, data.vector) {
                                                        assert(payload_model(merged.payload)
                                                            == payload_model(data.payload));
                                                    } else if vc_leq(
                                                        data.vector,
                                                        ldv.vector,
                                                    ) {
                                                        assert(payload_model(merged.payload)
                                                            == payload_model(ldv.payload));
                                                    } else {
                                                        match (
                                                            payload_model(ldv.payload),
                                                            payload_model(data.payload),
                                                        ) {
                                                            (Some(lq), Some(rq)) => {
                                                                assert(jget(p, "blob"@)
                                                                    == crate::resolver::joined_field(
                                                                    lq,
                                                                    rq,
                                                                    "blob"@,
                                                                ));
                                                                assert(jget(lq, "blob"@)
                                                                    is None && jget(
                                                                    rq,
                                                                    "blob"@,
                                                                ) is None);
                                                            },
                                                            _ => {
                                                                assert(payload_model(
                                                                    merged.payload,
                                                                ) == payload_model(
                                                                    ldv.payload,
                                                                ));
                                                            },
                                                        }
                                                    }
                                                }
                                                assert(!jhas(p, "blob"@));
                                            },
                                            _ => {},
                                        }
                                    }
                                    assert(storage.stored_doc(name0, op.document_id@)
                                        matches Some(m1) && rendered_doc_ok(merged, m1));
                                }
                            },
                            None => {},
                        }
                    }
                }
            },
        }
        let merged_vector = self.sync_state.local_vector.clone().merge(&op.vector);
        self.sync_state.local_vector = merged_vector;
        Ok(())
    }

    /// Patches a document's top-level fields, stamps the next vector
    /// clock onto it, and, when attached, plans an update-operation
    /// broadcast. Returns how many documents changed: one when the
    /// document existed, zero otherwise.
    pub fn update(
        &mut self,
        storage: &mut FileStorage,
        network: &NetworkManager,
        id: &str,
        patch: Vec<(String, Value)>,
    ) -> (r: Result<(i32, Option<Broadcast>), DbError>)
        requires
            stored_doc_wf(jfields_of(patch@)),
        ensures
            r matches Ok(t) && t.0 == 0 ==> old(storage).stored_doc(
                old(self).spec_name(),
                id@,
            ) is None,
            r matches Ok(t) && t.0 == 1 ==> old(storage).stored_doc(
                old(self).spec_name(),
                id@,
            ) is Some && is_increment_of(
                final(self).spec_vector(),
                old(self).spec_vector(),
                network.spec_peer_id(),
            ),
            r matches Ok(t) ==> (t.0 == 0 || t.0 == 1),
            r matches Ok(t) && t.0 == 0 ==> *final(storage) == *old(storage),
            final(self).spec_name() == old(self).spec_name(),
            r matches Ok(t) ==> (t.0 == 1 ==> match old(self).spec_network_id() {
                Some(nid) => t.1 matches Some(b) && b.message.msg_type == MessageType::Operation
                    && b.message.network_id@ == nid && crate::network::str_views(b.targets@)
                    == network.spec_connections() && (b.message.payload@ matches JVal::Obj(om)
                    && {
                    &&& jget(om, "opType"@) == Some(JVal::Str("update"@))
                    &&& jget(om, "documentId"@) == Some(JVal::Str(id@))
                    &&& jget(om, "collection"@) == Some(JVal::Str(old(self).spec_name()))
                    &&& (jget(om, "vector"@) matches Some(JVal::Obj(vm)) && jkeys_distinct(vm)
                        && (forall|t2: int|
                        0 <= t2 < vm.len() ==> (#[trigger] vm[t2]).1 == JVal::Int(
                            #[verifier::truncate] (final(self).spec_vector().counter(vm[t2].0)
                                as i64),
                        ) && final(self).spec_vector().counter(vm[t2].0) > 0))
                    &&& (final(storage).stored_doc(old(self).spec_name(), id@)
                        matches Some(m1) ==> (jget(m1, "encrypted"@) != Some(JVal::Bool(true))
                        && final(storage).reinline_path(m1) is None ==> (jget(om, "data"@)
                        matches Some(JVal::Obj(dm)) && exists|pd: DistributedDocument|
                        #![trigger parsed_doc_ok(m1, pd), rendered_doc_ok(pd, dm)]
                        parsed_doc_ok(m1, pd) && rendered_doc_ok(pd, dm))))
                }),
                None => t.1 is None,
            }),
            old(self).spec_network_id() is None && old(self).spec_vector().counter(
                network.spec_peer_id(),
            ) < u64::MAX ==> (old(storage).stored_doc(old(self).spec_name(), id@)
                matches Some(m) ==> ((jget(m, "encrypted"@) != Some(JVal::Bool(true)) && old(
                storage,
            ).reinline_path(m) is None && !sensitive_collection(old(self).spec_name())
                && doc_id_of(m) == Some(id@) && !jhas(jfields_of(patch@), "id"@)
                && !crate::storage::merged_blob_case(jfields_of(patch@), m)) ==> (r
                matches Ok(t) && t.0 == 1 && t.1 is None && (final(storage).stored_doc(
                old(self).spec_name(),
                id@,
            ) matches Some(m1) && {
                &&& forall|f: Seq<char>|
                    f != "vector"@ && f != "timestamp"@ ==> #[trigger] jget(m1, f)
                        == crate::storage::merged_field(jfields_of(patch@), m, f)
                &&& jget(m1, "vector"@) matches Some(JVal::Obj(vm)) && jkeys_distinct(vm) && (
                forall|t2: int|
                    0 <= t2 < vm.len() ==> (#[trigger] vm[t2]).1 == JVal::Int(
                        #[verifier::truncate] (final(self).spec_vector().counter(vm[t2].0)
                            as i64),
                    ) && final(self).spec_vector().counter(vm[t2].0) > 0)
            })))),
    {
        proof {
            reveal_strlit("id");
            reveal_strlit("vector");
            reveal_strlit("timestamp");
            reveal_strlit("entryType");
            reveal_strlit("payload");
            assert("id"@.len() == 2 && "vector"@.len() == 6 && "timestamp"@.len() == 9
                && "entryType"@.len() == 9 && "payload"@.len() == 7);
            assert("entryType"@[0] == 'e' && "timestamp"@[0] == 't');
        }
        let exists_doc = match storage.find(self.name.as_str(), id) {
            Ok(Some(_)) => true,
            Ok(None) => false,
            Err(e) => {
                return Err(e);
            },
        };
        if !exists_doc {
            return Ok((0, None));
        }
        let peer = network.get_peer_id();
        if self.sync_state.local_vector.get_counter(&peer) == u64::MAX {
            return Err(DbError::Validation("vector clock counter exhausted".to_owned()));
        }
        let next_vector = self.sync_state.local_vector.clone().increment(peer.clone());
        let ghost pm0 = jfields_of(patch@);
        let mut patch = patch;
        let vec_value = vector_to_value(&next_vector);
        let ghost vecm = vec_value@;
        obj_set(&mut patch, "vector".to_owned(), vec_value);
        obj_set(&mut patch, "timestamp".to_owned(), Value::Int(crate::crypto::now_seconds()));
        let ghost pm1 = jfields_of(patch@);
        proof {
            assert(jget(pm1, "vector"@) == Some(vecm));
            assert(jget(pm1, "id"@) == jget(pm0, "id"@));
            assert(jget(pm1, "entryType"@) == jget(pm0, "entryType"@));
            assert(jget(pm1, "payload"@) == jget(pm0, "payload"@));
            assert(forall|f: Seq<char>|
                f != "vector"@ && f != "timestamp"@ ==> #[trigger] jget(pm1, f) == jget(pm0, f));
        }
        match storage.update(self.name.as_str(), id, patch) {
            Ok(_) => {},
            Err(e) => {
                return Err(e);
            },
        }
        let plan: Option<Broadcast> = match &self.network_id {
            Some(nid) => {
                // the operation carries the post-update document, so a
                // receiving peer can apply it (a data-less update is
                // rejected there as a protocol error)
                let data_doc: Option<DistributedDocument> = match storage.find(
                    self.name.as_str(),
                    id,
                ) {
                    Ok(Some(d2)) => Some(obj_to_doc(&d2)),
                    Ok(None) => None,
                    Err(e) => {
                        return Err(e);
                    },
                };
                let op_id = match crate::crypto::new_uuid_string() {
                    Ok(op_id) => op_id,
                    Err(e) => {
                        return Err(e);
                    },
                };
                let op = CRDTOperation {
                    id: op_id,
                    op_type: OperationType::Update,
                    collection: self.name.clone(),
                    document_id: id.to_owned(),
                    data: data_doc,
                    vector: next_vector.clone(),
                    timestamp: crate::crypto::now_seconds(),
                    peer_id: peer.clone(),
                };
                let msg = self.operation_message(network, nid, &op);
                match network.broadcast_message(nid.as_str(), msg) {
                    Ok(b) => Some(b),
                    Err(e) => {
                        return Err(e);
                    },
                }
            },
            None => None,
        };
        self.sync_state.local_vector = next_vector;
        Ok((1, plan))
    }

    /// Deletes a document and, when attached, plans a delete-operation
    /// broadcast carrying the next vector clock.
    pub fn delete(
        &mut self,
        storage: &mut FileStorage,
        network: &NetworkManager,
        id: &str,
    ) -> (r: Result<(i32, Option<Broadcast>), DbError>)
        ensures
            r matches Ok(t) ==> t.0 == 1,
            final(self).spec_name() == old(self).spec_name(),
            r is Ok ==> final(storage).stored_doc(old(self).spec_name(), id@) is None,
            old(self).spec_network_id() is None ==> (r matches Ok(t) && t.1 is None),
            r matches Ok(t) ==> (match old(self).spec_network_id() {
                Some(nid) => t.1 matches Some(b) && b.message.msg_type == MessageType::Operation
                    && b.message.network_id@ == nid && crate::network::str_views(b.targets@)
                    == network.spec_connections() && is_increment_of(
                    final(self).spec_vector(),
                    old(self).spec_vector(),
                    network.spec_peer_id(),
                ) && (b.message.payload@ matches JVal::Obj(om) && {
                    &&& jget(om, "opType"@) == Some(JVal::Str("delete"@))
                    &&& jget(om, "documentId"@) == Some(JVal::Str(id@))
                    &&& jget(om, "collection"@) == Some(JVal::Str(old(self).spec_name()))
                    &&& (jget(om, "vector"@) matches Some(JVal::Obj(vm)) && jkeys_distinct(vm)
                        && (forall|t2: int|
                        0 <= t2 < vm.len() ==> (#[trigger] vm[t2]).1 == JVal::Int(
                            #[verifier::truncate] (final(self).spec_vector().counter(vm[t2].0)
                                as i64),
                        ) && final(self).spec_vector().counter(vm[t2].0) > 0))
                }),
                None => t.1 is None,
            }),
            old(self).spec_network_id() is Some && !network.spec_initialized() ==> r is Err,
    {
        match storage.delete(self.name.as_str(), id) {
            Ok(_) => {},
            Err(e) => {
                return Err(e);
            },
        }
        let plan: Option<Broadcast> = match &self.network_id {
            Some(nid) => {
                let peer = network.get_peer_id();
                if self.sync_state.local_vector.get_counter(&peer) == u64::MAX {
                    return Err(DbError::Validation("vector clock counter exhausted".to_owned()));
                }
                let next_vector = self.sync_state.local_vector.clone().increment(peer.clone());
                let op_id = match crate::crypto::new_uuid_string() {
                    Ok(op_id) => op_id,
                    Err(e) => {
                        return Err(e);
                    },
                };
                let op = CRDTOperation {
                    id: op_id,
                    op_type: OperationType::Delete,
                    collection: self.name.clone(),
                    document_id: id.to_owned(),
                    data: None,
                    vector: next_vector.clone(),
                    timestamp: crate::crypto::now_seconds(),
                    peer_id: peer,
                };
                let msg = self.operation_message(network, nid, &op);
                let b = match network.broadcast_message(nid.as_str(), msg) {
                    Ok(b) => Some(b),
                    Err(e) => {
                        return Err(e);
                    },
                };
                self.sync_state.local_vector = next_vector;
                b
            },
            None => None,
        };
        Ok((1, plan))
    }

    /// Reads a document through storage. A deletion tombstone is never
    /// returned: it answers `None`, though the stored tombstone and its
    /// vector stay behind for reconciliation.
    pub fn find(&self, storage: &FileStorage, id: &str) -> (r: Result<
        Option<Vec<(String, Value)>>,
        DbError,
    >)
        ensures
            storage.stored_doc(self.spec_name(), id@) is None ==> (r matches Ok(d) && d
                is None),
            r matches Ok(Some(d)) ==> (storage.stored_doc(self.spec_name(), id@)
                matches Some(m) && crate::storage::read_back_ok(*storage, m, jfields_of(d@))
                && jget(jfields_of(d@), "deleted"@) != Some(JVal::Bool(true))),
            storage.stored_doc(self.spec_name(), id@) matches Some(m) ==> (jget(m, "encrypted"@)
                != Some(JVal::Bool(true)) ==> (if jget(m, "deleted"@) == Some(
                JVal::Bool(true),
            ) {
                r matches Ok(d) && d is None
            } else {
                r matches Ok(d) && d is Some
            })),
    {
        proof {
            reveal_strlit("deleted");
            reveal_strlit("payload");
            reveal_strlit("encrypted");
            assert("deleted"@.len() == 7 && "payload"@.len() == 7 && "encrypted"@.len() == 9);
            assert("deleted"@[0] == 'd' && "payload"@[0] == 'p');
            assert("deleted"@ != "payload"@);
        }
        let found = match storage.find(self.name.as_str(), id) {
            Ok(found) => found,
            Err(e) => {
                return Err(e);
            },
        };
        match found {
            Some(d) => {
                let deleted = match obj_get(&d, &"deleted".to_owned()) {
                    Some(v) => v.is_true(),
                    None => false,
                };
                if deleted {
                    proof {
                        match storage.stored_doc(self.spec_name(), id@) {
                            Some(m) => {
                                if jget(m, "encrypted"@) != Some(JVal::Bool(true)) {
                                    assert(jget(jfields_of(d@), "deleted"@) == jget(
                                        m,
                                        "deleted"@,
                                    ));
                                }
                            },
                            None => {},
                        }
                    }
                    Ok(None)
                } else {
                    proof {
                        match storage.stored_doc(self.spec_name(), id@) {
                            Some(m) => {
                                if jget(m, "encrypted"@) != Some(JVal::Bool(true)) {
                                    assert(jget(jfields_of(d@), "deleted"@) == jget(
                                        m,
                                        "deleted"@,
                                    ));
                                }
                            },
                            None => {},
                        }
                    }
                    Ok(Some(d))
                }
            },
            None => Ok(None),
        }
    }

    /// Reads every document of this collection through storage: each
    /// element reads back from one stored document, each plain stored
    /// document is listed, and no stored document is listed twice.
    pub fn find_all(&self, storage: &FileStorage) -> (r: Result<
        Vec<Vec<(String, Value)>>,
        DbError,
    >)
        ensures
            r is Ok,
            r matches Ok(v) ==> crate::storage::listed_once(*storage, self.spec_name(), v@),
            r matches Ok(v) ==> (forall|i: int|
                0 <= i < storage.collection_ids(self.spec_name()).len() ==> (storage.stored_doc(
                    self.spec_name(),
                    #[trigger] storage.collection_ids(self.spec_name())[i],
                ) matches Some(m) ==> (jget(m, "encrypted"@) != Some(JVal::Bool(true))
                    ==> crate::storage::read_back_listed(*storage, m, v@)))),
    {
        storage.find_all(self.name.as_str())
    }

    /// Attaches this collection to a network: records the id, registers
    /// the collection with the network manager, and stamps the sync
    /// state. The registration plans a collection announcement.
    pub fn attach_to_network(&mut self, network: &mut NetworkManager, network_id: &str) -> (r:
        Result<Broadcast, DbError>)
        ensures
            final(self).spec_network_id() == Some(network_id@),
            final(self).spec_name() == old(self).spec_name(),
            r matches Ok(b) ==> b.message.msg_type == MessageType::CollectionAnnounce,
            old(network).has_network(network_id@) ==> (final(network).network_at(network_id@)
                matches Some(c) && crate::types::coll_names(c.collections@).contains(
                old(self).spec_name(),
            )),
            !old(network).spec_initialized() ==> r is Err,
    {
        self.network_id = Some(network_id.to_owned());
        let b = match network.add_collection_to_network(network_id, self.name.as_str()) {
            Ok(b) => b,
            Err(e) => {
                return Err(e);
            },
        };
        self.sync_state.network_id = network_id.to_owned();
        Ok(b)
    }

    /// Detaches this collection from its network, removing it from the
    /// network's collection set.
    pub fn detach_from_network(&mut self, network: &mut NetworkManager) -> (r: Result<
        (),
        DbError,
    >)
        ensures
            r is Ok,
            final(self).spec_network_id() is None,
            final(self).spec_name() == old(self).spec_name(),
    {
        match &self.network_id {
            Some(nid) => {
                match network.remove_collection_from_network(nid.as_str(), self.name.as_str()) {
                    Ok(_) => {},
                    Err(e) => {
                        return Err(e);
                    },
                }
            },
            None => {},
        }
        self.network_id = None;
        Ok(())
    }

    /// Stamps the sync state: records the time and clears the running
    /// flag.
    pub fn force_sync(&mut self) -> (r: Result<(), DbError>)
        ensures
            r is Ok,
            !final(self).spec_sync_in_progress(),
            final(self).spec_name() == old(self).spec_name(),
            final(self).spec_network_id() == old(self).spec_network_id(),
            vc_eq(final(self).spec_vector(), old(self).spec_vector()),
    {
        self.sync_state.last_sync = crate::crypto::now_seconds();
        self.sync_state.sync_in_progress = false;
        Ok(())
    }
}

} // verus!
