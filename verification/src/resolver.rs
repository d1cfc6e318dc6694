//! Conflict resolution for replicated documents.
//!
//! The resolver is pure: it classifies two document versions by their
//! vector clocks and either picks the causally newer one or, for
//! concurrent versions, merges them field by field with remote-wins.

use vstd::prelude::*;
use vstd::utf8::encode_utf8;
use crate::clock::vc_leq;
use crate::clock::vc_eq;
use crate::clock::is_merge_of;
use crate::types::DistributedDocument;
use crate::types::CRDTOperation;
use crate::types::doc_equiv;
use crate::types::payload_model;
use crate::types::opt_str_model;
use crate::value::Value;
use crate::value::JVal;
use crate::value::jget;
use crate::value::jhas;
use crate::value::jfields_of;
use crate::value::jkeys_distinct;
use crate::value::copy_fields;
use crate::value::bytes_lex_le;
use crate::value::lemma_lex_total;
use crate::value::lemma_lex_trans;
use crate::value::lemma_lex_antisym;
use crate::value::bytes_le;
use crate::codec::enc_jval;
use crate::codec::encode_value_bytes;
use crate::codec::jval_bounded;
use crate::codec::lemma_enc_jval_injective;
use crate::value::obj_set;
use crate::value::obj_get;
use crate::value::lemma_jfields_index;
use crate::value::lemma_jget_at;

verus! {

/// The larger of two timestamps.
pub open spec fn max_i64(a: i64, b: i64) -> i64 {
    if a >= b {
        a
    } else {
        b
    }
}

/// A document whose payload, when present, has pairwise distinct field names.
pub open spec fn doc_wf(d: DistributedDocument) -> bool {
    match d.payload {
        Some(p) => jkeys_distinct(jfields_of(p@)),
        None => true,
    }
}

/// Field `k` of a document's payload, absent when the payload is absent.
pub open spec fn pget(d: DistributedDocument, k: Seq<char>) -> Option<JVal> {
    match d.payload {
        Some(p) => jget(jfields_of(p@), k),
        None => None,
    }
}

/// The survivor of two concurrent values of one field: the one whose
/// byte encoding is lexicographically greater. Both peers order the same
/// two encodings the same way, so concurrent merges converge field by
/// field whichever side is called local.
pub open spec fn jval_join(a: JVal, b: JVal) -> JVal {
    if bytes_lex_le(enc_jval(a), enc_jval(b)) {
        b
    } else {
        a
    }
}

/// The field a concurrent merge keeps under `k`: a field only one side
/// carries passes through; a field both sides carry is decided by
/// `jval_join`.
pub open spec fn joined_field(
    lm: Seq<(Seq<char>, JVal)>,
    rm: Seq<(Seq<char>, JVal)>,
    k: Seq<char>,
) -> Option<JVal> {
    match (jget(lm, k), jget(rm, k)) {
        (Some(lv), Some(rv)) => Some(jval_join(lv, rv)),
        (None, rv) => rv,
        (lv, None) => lv,
    }
}

/// The payload of a field-level merge: fields of both sides are joined
/// pointwise by `joined_field`.
pub open spec fn merged_payload_ok(
    m: Option<Vec<(String, Value)>>,
    lp: Option<Vec<(String, Value)>>,
    rp: Option<Vec<(String, Value)>>,
) -> bool {
    match (lp, rp) {
        (Some(l), Some(r)) => {
            &&& m is Some
            &&& jkeys_distinct(jfields_of(m->Some_0@))
            &&& forall|k: Seq<char>| #[trigger] jget(jfields_of(m->Some_0@), k) == joined_field(
                jfields_of(l@),
                jfields_of(r@),
                k,
            )
        },
        _ => payload_model(m) == payload_model(lp),
    }
}

/// What `merge_documents` returns: the remote version when it is causally
/// newer or equal, the local version when it is newer, and otherwise a
/// field-level merge that keeps `local`'s identity, takes the pointwise
/// maximum of the vectors and the later timestamp, lets remote fields win,
/// and tombstones the result when either side is deleted.
pub open spec fn is_doc_merge_of(
    m: DistributedDocument,
    local: DistributedDocument,
    remote: DistributedDocument,
) -> bool {
    if vc_leq(local.vector, remote.vector) {
        doc_equiv(m, remote)
    } else if vc_leq(remote.vector, local.vector) {
        doc_equiv(m, local)
    } else {
        &&& m.id@ == local.id@
        &&& m.entry_type == local.entry_type
        &&& m.peer_id@ == local.peer_id@
        &&& opt_str_model(m.stage) == opt_str_model(local.stage)
        &&& is_merge_of(m.vector, local.vector, remote.vector)
        &&& m.timestamp == max_i64(local.timestamp, remote.timestamp)
        &&& m.deleted == (local.deleted || remote.deleted)
        &&& merged_payload_ok(m.payload, local.payload, remote.payload)
    }
}

/// Whether `x` is one of the operations in `s`.
pub open spec fn op_among(x: CRDTOperation, s: Seq<CRDTOperation>) -> bool {
    exists|j: int| 0 <= j < s.len() && s[j] == x
}

/// `x` does not outrank `y`: it is older; or tied in time with a
/// lighter vector clock — the weight is a linear extension of the
/// dominance order (see `law_weight_monotone`), so a dominated vector
/// never outranks a dominating one; or tied in both with a peer id
/// that is lexicographically no greater.
pub open spec fn op_le(x: CRDTOperation, y: CRDTOperation) -> bool {
    ||| x.timestamp < y.timestamp
    ||| (x.timestamp == y.timestamp && x.vector.spec_weight() < y.vector.spec_weight())
    ||| (x.timestamp == y.timestamp && x.vector.spec_weight() == y.vector.spec_weight()
        && bytes_lex_le(encode_utf8(x.peer_id@), encode_utf8(y.peer_id@)))
}

/// The outranking order is total.
proof fn lemma_op_le_total(x: CRDTOperation, y: CRDTOperation)
    ensures
        op_le(x, y) || op_le(y, x),
{
    lemma_lex_total(encode_utf8(x.peer_id@), encode_utf8(y.peer_id@));
}

/// The outranking order is transitive.
proof fn lemma_op_le_trans(x: CRDTOperation, y: CRDTOperation, z: CRDTOperation)
    requires
        op_le(x, y),
        op_le(y, z),
    ensures
        op_le(x, z),
{
    if x.timestamp == y.timestamp && y.timestamp == z.timestamp && x.vector.spec_weight()
        == y.vector.spec_weight() && y.vector.spec_weight() == z.vector.spec_weight() {
        lemma_lex_trans(
            encode_utf8(x.peer_id@),
            encode_utf8(y.peer_id@),
            encode_utf8(z.peer_id@),
        );
    }
}

/// Law: the tie rule respects vector dominance. At equal timestamps an
/// operation whose vector is strictly dominated never outranks the
/// dominating one, so the operation `resolve_conflicts` keeps for an id
/// is never strictly dominated by a same-timestamp candidate.
pub proof fn law_tie_break_respects_dominance(x: CRDTOperation, y: CRDTOperation)
    requires
        x.vector.wf(),
        y.vector.wf(),
        x.timestamp == y.timestamp,
        vc_leq(x.vector, y.vector),
        !vc_leq(y.vector, x.vector),
    ensures
        op_le(x, y),
        !op_le(y, x),
{
    crate::clock::law_weight_monotone(x.vector, y.vector);
}

/// Resolves conflicts between replicated document versions.
pub struct CRDTResolver;

impl CRDTResolver {
    /// Returns a new resolver.
    pub fn new() -> (r: CRDTResolver) {
        CRDTResolver
    }

    /// Merges two versions of the same document under CRDT rules.
    pub fn merge_documents(
        &self,
        local: &DistributedDocument,
        remote: &DistributedDocument,
    ) -> (r: DistributedDocument)
        requires
            doc_wf(*local),
            doc_wf(*remote),
        ensures
            is_doc_merge_of(r, *local, *remote),
    {
        let cmp = local.vector.compare(&remote.vector);
        match cmp {
            crate::clock::ComparisonResult::Equal => remote.clone(),
            crate::clock::ComparisonResult::Before => remote.clone(),
            crate::clock::ComparisonResult::After => local.clone(),
            crate::clock::ComparisonResult::Concurrent => {
                let merged_payload: Option<Vec<(String, Value)>> = match (
                    &local.payload,
                    &remote.payload,
                ) {
                    (Some(lfields), Some(rfields)) => {
                        let mut base = copy_fields(lfields);
                        let ghost lp_m = jfields_of(lfields@);
                        let ghost rp_m = jfields_of(rfields@);
                        proof {
                            lemma_jfields_index(rfields@);
                        }
                        let mut i: usize = 0;
                        while i < rfields.len()
                            invariant
                                i <= rfields@.len(),
                                doc_wf(*local),
                                doc_wf(*remote),
                                local.payload matches Some(lf) && lp_m == jfields_of(lf@),
                                remote.payload matches Some(rf) && rp_m == jfields_of(rf@)
                                    && rf@ == rfields@,
                                rp_m.len() == rfields@.len(),
                                forall|t: int|
                                    0 <= t < rfields@.len() ==> #[trigger] rp_m[t] == (
                                        rfields@[t].0@,
                                        jval_of_at(rfields@, t),
                                    ),
                                jkeys_distinct(jfields_of(base@)),
                                forall|k: Seq<char>| #[trigger] jget(jfields_of(base@), k)
                                    == if exists|t: int| 0 <= t < i && rp_m[t].0 == k {
                                    joined_field(lp_m, rp_m, k)
                                } else {
                                    jget(lp_m, k)
                                },
                            decreases rfields@.len() - i,
                        {
                            let k = rfields[i].0.clone();
                            let v = rfields[i].1.deep_copy();
                            let ghost kk = k@;
                            let ghost vm = v@;
                            let ghost base0 = jfields_of(base@);
                            proof {
                                lemma_jget_at(rp_m, i as int);
                                assert(jget(rp_m, kk) == Some(vm));
                                // a fresh remote key: the base still carries
                                // the local value under it
                                assert(!(exists|t: int| 0 <= t < i && rp_m[t].0 == kk));
                                assert(jget(base0, kk) == jget(lp_m, kk));
                            }
                            let take = match obj_get(&base, &k) {
                                Some(lv) => {
                                    let el = encode_value_bytes(lv);
                                    let er = encode_value_bytes(&v);
                                    bytes_le(&el, &er)
                                },
                                None => true,
                            };
                            if take {
                                obj_set(&mut base, k, v);
                            }
                            let ghost ii = i as int;
                            proof {
                                assert(jget(jfields_of(base@), kk) == joined_field(
                                    lp_m,
                                    rp_m,
                                    kk,
                                )) by {
                                    match jget(lp_m, kk) {
                                        Some(lv) => {
                                            if take {
                                                assert(bytes_lex_le(enc_jval(lv), enc_jval(vm)));
                                            } else {
                                                assert(jget(jfields_of(base@), kk) == jget(
                                                    base0,
                                                    kk,
                                                ));
                                            }
                                        },
                                        None => {},
                                    }
                                }
                                assert forall|p: Seq<char>| true implies #[trigger] jget(
                                    jfields_of(base@),
                                    p,
                                ) == if exists|t: int| 0 <= t < ii + 1 && rp_m[t].0 == p {
                                    joined_field(lp_m, rp_m, p)
                                } else {
                                    jget(lp_m, p)
                                } by {
                                    if p == kk {
                                        assert(0 <= ii < ii + 1 && rp_m[ii].0 == p);
                                    } else {
                                        assert(jget(jfields_of(base@), p) == jget(base0, p));
                                        assert((exists|t: int| 0 <= t < ii + 1 && rp_m[t].0 == p)
                                            <==> (exists|t: int| 0 <= t < ii && rp_m[t].0 == p));
                                    }
                                }
                            }
                            i = i + 1;
                        }
                        proof {
                            assert forall|k: Seq<char>| true implies #[trigger] jget(
                                jfields_of(base@),
                                k,
                            ) == joined_field(lp_m, rp_m, k) by {
                                if jhas(rp_m, k) {
                                    let t = choose|t: int| 0 <= t < rp_m.len() && rp_m[t].0 == k;
                                    assert(0 <= t < i && rp_m[t].0 == k);
                                } else {
                                    assert(jget(rp_m, k) is None);
                                }
                            }
                        }
                        Some(base)
                    },
                    (Some(lfields), None) => Some(copy_fields(lfields)),
                    (None, _) => None,
                };
                let vector = local.vector.clone().merge(&remote.vector);
                let timestamp = if local.timestamp >= remote.timestamp {
                    local.timestamp
                } else {
                    remote.timestamp
                };
                DistributedDocument {
                    id: local.id.clone(),
                    entry_type: local.entry_type,
                    payload: merged_payload,
                    vector,
                    timestamp,
                    peer_id: local.peer_id.clone(),
                    stage: match &local.stage {
                        Some(s) => Some(s.clone()),
                        None => None,
                    },
                    deleted: local.deleted || remote.deleted,
                }
            },
        }
    }

    /// Selects, for each document id, a most-recent operation: the result is
    /// ordered by descending timestamp, names each document id once, and the
    /// kept operation outranks every operation on its id (`op_le`). Among
    /// operations with equal timestamps the vector clocks decide, compared
    /// through their weight, so a strictly dominating vector always wins
    /// (see `law_tie_break_respects_dominance`); a remaining tie falls to
    /// the lexicographically greatest authoring peer id (by UTF-8 bytes).
    #[verifier::rlimit(100)]
    pub fn resolve_conflicts(&self, operations: Vec<CRDTOperation>) -> (r: Vec<CRDTOperation>)
        ensures
            forall|i: int| 0 <= i < r@.len() ==> op_among(#[trigger] r@[i], operations@),
            forall|i: int, j: int| 0 <= i < j < r@.len() ==> r@[i].timestamp >= r@[j].timestamp,
            forall|i: int, j: int|
                0 <= i < j < r@.len() ==> r@[i].document_id@ != r@[j].document_id@,
            forall|j: int|
                0 <= j < operations@.len() ==> exists|i: int|
                    0 <= i < r@.len() && (#[trigger] r@[i]).document_id@ == (
                    #[trigger] operations@[j]).document_id@ && op_le(operations@[j], r@[i]),
    {
        let ghost ops0 = operations@;
        let mut remaining = operations;
        let mut out: Vec<CRDTOperation> = Vec::new();
        while remaining.len() > 0
            invariant
                forall|i: int| 0 <= i < out@.len() ==> op_among(#[trigger] out@[i], ops0),
                forall|k: int|
                    0 <= k < remaining@.len() ==> op_among(#[trigger] remaining@[k], ops0),
                forall|i: int, j: int|
                    0 <= i < j < out@.len() ==> out@[i].timestamp >= out@[j].timestamp,
                forall|i: int, j: int|
                    0 <= i < j < out@.len() ==> out@[i].document_id@ != out@[j].document_id@,
                forall|i: int, k: int|
                    #![trigger out@[i].timestamp, remaining@[k].timestamp]
                    0 <= i < out@.len() && 0 <= k < remaining@.len() ==> op_le(
                        remaining@[k],
                        out@[i],
                    ),
                forall|j: int|
                    0 <= j < ops0.len() ==> (exists|i: int|
                        0 <= i < out@.len() && (#[trigger] out@[i]).document_id@ == (
                        #[trigger] ops0[j]).document_id@ && op_le(ops0[j], out@[i])) || (exists|
                        k: int,
                    | 0 <= k < remaining@.len() && remaining@[k] == ops0[j]),
            decreases remaining@.len(),
        {
            let mut m: usize = 0;
            let mut i: usize = 1;
            proof {
                lemma_op_le_total(remaining@[0], remaining@[0]);
            }
            while i < remaining.len()
                invariant
                    remaining@.len() > 0,
                    m < i,
                    i <= remaining@.len(),
                    forall|t: int|
                        0 <= t < i ==> op_le(#[trigger] remaining@[t], remaining@[m as int]),
                decreases remaining@.len() - i,
            {
                let wi = remaining[i].vector.weight();
                let wm = remaining[m].vector.weight();
                let take = remaining[i].timestamp > remaining[m].timestamp || (remaining[
                    i
                ].timestamp == remaining[m].timestamp && (wi > wm || (wi == wm
                    && !crate::value::str_lex_le(
                    remaining[i].peer_id.as_str(),
                    remaining[m].peer_id.as_str(),
                ))));
                proof {
                    let ghost mm = m as int;
                    let ghost ii = i as int;
                    lemma_op_le_total(remaining@[ii], remaining@[mm]);
                    lemma_op_le_total(remaining@[ii], remaining@[ii]);
                    if take {
                        assert(op_le(remaining@[mm], remaining@[ii]));
                        assert forall|t: int|
                            0 <= t < ii + 1 implies op_le(
                            #[trigger] remaining@[t],
                            remaining@[ii],
                        ) by {
                            if t < ii {
                                lemma_op_le_trans(
                                    remaining@[t],
                                    remaining@[mm],
                                    remaining@[ii],
                                );
                            }
                        }
                    } else {
                        assert(op_le(remaining@[ii], remaining@[mm]));
                    }
                }
                if take {
                    m = i;
                }
                i = i + 1;
            }
            let ghost rem0 = remaining@;
            proof {
                // capture the dominance facts over this round's snapshot
                assert forall|i0: int, k: int|
                    0 <= i0 < out@.len() && 0 <= k < rem0.len() implies op_le(
                    rem0[k],
                    out@[i0],
                ) by {
                    assert(rem0[k] == remaining@[k]);
                    assert(op_le(remaining@[k], out@[i0]));
                }
            }
            let op = remaining.remove(m);
            let ghost opv = op;
            let mut found = false;
            let mut t: usize = 0;
            while t < out.len()
                invariant
                    t <= out@.len(),
                    found <==> exists|u: int|
                        0 <= u < t && #[trigger] out@[u].document_id@ == opv.document_id@,
                    op == opv,
                decreases out@.len() - t,
            {
                if out[t].document_id.eq(&op.document_id) {
                    found = true;
                    proof {
                        assert(0 <= t < t + 1 && out@[t as int].document_id@ == opv.document_id@);
                    }
                }
                t = t + 1;
            }
            let ghost out0 = out@;
            if !found {
                out.push(op);
            }
            proof {
                assert(rem0[m as int] == opv);
                assert(forall|k: int| 0 <= k < m ==> remaining@[k] == rem0[k]);
                assert(forall|k: int|
                    m <= k < remaining@.len() ==> remaining@[k] == rem0[k + 1]);
                assert forall|k: int|
                    0 <= k < remaining@.len() implies op_among(
                    #[trigger] remaining@[k],
                    ops0,
                ) by {
                    if k < m {
                        assert(op_among(rem0[k], ops0));
                    } else {
                        assert(op_among(rem0[k + 1], ops0));
                    }
                }
                assert(forall|k: int|
                    0 <= k < remaining@.len() ==> op_le(#[trigger] remaining@[k], opv));
                assert(op_among(opv, ops0));
                if !found {
                    assert(forall|i0: int| 0 <= i0 < out0.len() ==> out@[i0] == out0[i0]);
                    assert(out@[out0.len() as int] == opv);
                }
                assert forall|i0: int, k: int|
                    0 <= i0 < out@.len() && 0 <= k < remaining@.len() implies op_le(
                    remaining@[k],
                    out@[i0],
                ) by {
                    if k < m {
                        assert(remaining@[k] == rem0[k]);
                    } else {
                        assert(remaining@[k] == rem0[k + 1]);
                    }
                    if i0 < out0.len() {
                        assert(out@[i0] == out0[i0]);
                    } else {
                        assert(out@[i0] == opv);
                    }
                }
                assert forall|i0: int, j0: int|
                    0 <= i0 < j0 < out@.len() implies out@[i0].timestamp >= out@[
                    j0
                ].timestamp by {
                    if j0 < out0.len() {
                        assert(out@[i0] == out0[i0] && out@[j0] == out0[j0]);
                    } else {
                        assert(out@[j0] == opv);
                        assert(out@[i0] == out0[i0]);
                        assert(out0[i0].timestamp >= rem0[m as int].timestamp);
                    }
                }
                assert forall|j: int|
                    0 <= j < ops0.len() implies (exists|i0: int|
                    0 <= i0 < out@.len() && (#[trigger] out@[i0]).document_id@ == (
                    #[trigger] ops0[j]).document_id@ && op_le(ops0[j], out@[i0])) || (exists|
                    k: int,
                | 0 <= k < remaining@.len() && remaining@[k] == ops0[j]) by {
                    if exists|i0: int|
                        0 <= i0 < out0.len() && (#[trigger] out0[i0]).document_id@ == ops0[
                            j
                        ].document_id@ && op_le(ops0[j], out0[i0]) {
                        let i0 = choose|i0: int|
                            0 <= i0 < out0.len() && (#[trigger] out0[i0]).document_id@ == ops0[
                                j
                            ].document_id@ && op_le(ops0[j], out0[i0]);
                        assert(out@[i0] == out0[i0]);
                    } else if exists|k: int| 0 <= k < rem0.len() && rem0[k] == ops0[j] {
                        let k = choose|k: int| 0 <= k < rem0.len() && rem0[k] == ops0[j];
                        if k == m {
                            if found {
                                let u = choose|u: int|
                                    0 <= u < out0.len() && #[trigger] out0[u].document_id@
                                        == opv.document_id@;
                                assert(out@[u] == out0[u]);
                                assert(op_le(rem0[m as int], out0[u]));
                            } else {
                                assert(out@[out0.len() as int].document_id@ == ops0[
                                    j
                                ].document_id@);
                                lemma_op_le_total(opv, opv);
                            }
                        } else if k < m {
                            assert(remaining@[k] == rem0[k]);
                        } else {
                            assert(remaining@[k - 1] == rem0[k]);
                        }
                    }
                }
            }
        }
        out
    }
}

/// Model of the value stored at position `t` of a field list.
pub open spec fn jval_of_at(s: Seq<(String, Value)>, t: int) -> JVal {
    crate::value::jval_of(s[t].1)
}

/// Law: the resolver is deterministic: two results of merging the same
/// two documents agree on every observable field.
pub proof fn law_resolver_deterministic(
    local: DistributedDocument,
    remote: DistributedDocument,
    m1: DistributedDocument,
    m2: DistributedDocument,
)
    requires
        is_doc_merge_of(m1, local, remote),
        is_doc_merge_of(m2, local, remote),
    ensures
        m1.id@ == m2.id@,
        m1.timestamp == m2.timestamp,
        m1.deleted == m2.deleted,
        vc_eq(m1.vector, m2.vector),
        forall|k: Seq<char>| #[trigger] pget(m1, k) == pget(m2, k),
{
    assert forall|p: Seq<char>|
        #[trigger] m1.vector.counter(p) == m2.vector.counter(p) by {
        if vc_leq(local.vector, remote.vector) {
            assert(m1.vector.counter(p) <= remote.vector.counter(p));
            assert(remote.vector.counter(p) <= m1.vector.counter(p));
            assert(m2.vector.counter(p) <= remote.vector.counter(p));
            assert(remote.vector.counter(p) <= m2.vector.counter(p));
        } else if vc_leq(remote.vector, local.vector) {
            assert(m1.vector.counter(p) <= local.vector.counter(p));
            assert(local.vector.counter(p) <= m1.vector.counter(p));
            assert(m2.vector.counter(p) <= local.vector.counter(p));
            assert(local.vector.counter(p) <= m2.vector.counter(p));
        } else {
            assert(m1.vector.counter(p) == crate::clock::max64(
                local.vector.counter(p),
                remote.vector.counter(p),
            ));
            assert(m2.vector.counter(p) == crate::clock::max64(
                local.vector.counter(p),
                remote.vector.counter(p),
            ));
        }
    }
    assert forall|k: Seq<char>| #[trigger] pget(m1, k) == pget(m2, k) by {
        if vc_leq(local.vector, remote.vector) {
            assert(payload_model(m1.payload) == payload_model(remote.payload));
            assert(payload_model(m2.payload) == payload_model(remote.payload));
        } else if vc_leq(remote.vector, local.vector) {
            assert(payload_model(m1.payload) == payload_model(local.payload));
            assert(payload_model(m2.payload) == payload_model(local.payload));
        } else {
            if local.payload is Some && remote.payload is Some {
                assert(jget(jfields_of(m1.payload->Some_0@), k) == jget(
                    jfields_of(m2.payload->Some_0@),
                    k,
                ));
            } else {
                assert(payload_model(m1.payload) == payload_model(local.payload));
                assert(payload_model(m2.payload) == payload_model(local.payload));
            }
        }
    }
}

/// Law: when the local vector dominates the remote vector, the merged
/// document equals the local document.
pub proof fn law_resolver_dominant_local(
    local: DistributedDocument,
    remote: DistributedDocument,
    m: DistributedDocument,
)
    requires
        is_doc_merge_of(m, local, remote),
        vc_leq(remote.vector, local.vector),
        !vc_leq(local.vector, remote.vector),
    ensures
        doc_equiv(m, local),
{
}

/// Law: the merged document's vector dominates both inputs' vectors.
pub proof fn law_resolver_vector_dominates(
    local: DistributedDocument,
    remote: DistributedDocument,
    m: DistributedDocument,
)
    requires
        is_doc_merge_of(m, local, remote),
    ensures
        vc_leq(local.vector, m.vector),
        vc_leq(remote.vector, m.vector),
{
    assert forall|p: Seq<char>|
        #[trigger] local.vector.counter(p) <= m.vector.counter(p) && #[trigger] remote.vector.counter(
            p,
        ) <= m.vector.counter(p) by {
        if vc_leq(local.vector, remote.vector) {
            assert(local.vector.counter(p) <= remote.vector.counter(p));
            assert(remote.vector.counter(p) <= m.vector.counter(p));
        } else if vc_leq(remote.vector, local.vector) {
            assert(remote.vector.counter(p) <= local.vector.counter(p));
            assert(local.vector.counter(p) <= m.vector.counter(p));
        } else {
            assert(m.vector.counter(p) == crate::clock::max64(
                local.vector.counter(p),
                remote.vector.counter(p),
            ));
        }
    }
}

/// Law: concurrent merges converge. For concurrent versions with
/// payloads on both sides, merging in either order yields the same
/// vector, timestamp and tombstone flag, and the same value for every
/// field; a field both sides carry is decided the same way on both
/// peers because `jval_join` orders the two encodings, not the two
/// roles. (The per-field equality asks that a conflicting field's two
/// values have encodings whose lengths fit the codec's length words,
/// which every machine-held value satisfies.)
pub proof fn law_resolver_symmetric(
    local: DistributedDocument,
    remote: DistributedDocument,
    m1: DistributedDocument,
    m2: DistributedDocument,
)
    requires
        is_doc_merge_of(m1, local, remote),
        is_doc_merge_of(m2, remote, local),
        !vc_leq(local.vector, remote.vector),
        !vc_leq(remote.vector, local.vector),
        local.payload is Some,
        remote.payload is Some,
    ensures
        vc_eq(m1.vector, m2.vector),
        m1.timestamp == m2.timestamp,
        m1.deleted == m2.deleted,
        forall|k: Seq<char>|
            (match (
                jget(jfields_of(local.payload->Some_0@), k),
                jget(jfields_of(remote.payload->Some_0@), k),
            ) {
                (Some(lv), Some(rv)) => jval_bounded(lv) && jval_bounded(rv),
                _ => true,
            }) ==> #[trigger] pget(m1, k) == pget(m2, k),
{
    crate::clock::law_merge_commutative(local.vector, remote.vector, m1.vector, m2.vector);
    let lf = jfields_of(local.payload->Some_0@);
    let rf = jfields_of(remote.payload->Some_0@);
    assert forall|k: Seq<char>|
        (match (jget(lf, k), jget(rf, k)) {
            (Some(lv), Some(rv)) => jval_bounded(lv) && jval_bounded(rv),
            _ => true,
        }) implies #[trigger] pget(m1, k) == pget(m2, k) by {
        assert(jget(jfields_of(m1.payload->Some_0@), k) == joined_field(lf, rf, k));
        assert(jget(jfields_of(m2.payload->Some_0@), k) == joined_field(rf, lf, k));
        match (jget(lf, k), jget(rf, k)) {
            (Some(lv), Some(rv)) => {
                let el = enc_jval(lv);
                let er = enc_jval(rv);
                lemma_lex_total(el, er);
                if bytes_lex_le(el, er) && bytes_lex_le(er, el) {
                    lemma_lex_antisym(el, er);
                    lemma_enc_jval_injective(lv, rv);
                    assert(lv == rv);
                }
                assert(jval_join(lv, rv) == jval_join(rv, lv));
            },
            _ => {},
        }
    }
}

} // verus!
