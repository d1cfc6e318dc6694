//! Per-collection document storage with blob externalization and
//! selective at-rest encryption.
//!
//! The store models a directory tree: one directory per collection holding
//! one document per id, and a blob area addressed by path. Documents in
//! sensitive collections have their sensitive payload fields individually
//! encrypted before they are stored.

use vstd::prelude::*;
use vstd::utf8::encode_utf8;
use crate::value::Value;
use crate::value::JVal;
use crate::value::jval_of;
use crate::value::jfields_of;
use crate::value::jkeys_distinct;
use crate::value::jhas;
use crate::value::jget;
use crate::value::obj_get;
use crate::value::obj_set;
use crate::value::obj_remove;
use crate::value::copy_fields;
use crate::value::str_eq;
use crate::value::lemma_jfields_index;
use crate::value::lemma_jget_at;
use crate::assoc::amodel;
use crate::assoc::akeys_distinct;
use crate::assoc::ahas;
use crate::assoc::aget;
use crate::assoc::afind;
use crate::assoc::lemma_aget_at;
use crate::assoc::lemma_aget_push;
use crate::assoc::lemma_aget_remove;
use crate::crypto::EncryptionManager;
use crate::crypto::PQCKeyPair;
use crate::types::DbError;

verus! {


/// Kind of a secondary index.
#[derive(Clone, Copy, Debug, PartialEq, Eq, Structural)]
pub enum IndexType {
    BTree,
    GIN,
    HNSW,
}

/// Description of a secondary index over a collection.
pub struct Index {
    pub name: String,
    pub collection: String,
    pub index_type: IndexType,
    pub fields: Vec<String>,
    pub unique: bool,
    pub partial_expr: Option<String>,
    pub options: Option<Vec<(String, Value)>>,
}

/// Collections whose payloads are encrypted at rest.
pub open spec fn sensitive_collection(c: Seq<char>) -> bool {
    ||| c == "credentials"@
    ||| c == "pqc_keys"@
    ||| c == "sessions"@
    ||| c == "audit_log"@
    ||| c == "threat_events"@
    ||| c == "access_control"@
}

/// Payload fields that are encrypted at rest, per collection.
pub open spec fn sensitive_field(c: Seq<char>, f: Seq<char>) -> bool {
    ||| (c == "credentials"@ && (f == "hash"@ || f == "salt"@))
    ||| (c == "pqc_keys"@ && (f == "kyber_private_key"@ || f == "dilithium_private_key"@))
    ||| (c == "sessions"@ && f == "token_hash"@)
    ||| (c == "audit_log"@ && f == "details"@)
    ||| (c == "threat_events"@ && f == "indicators"@)
    ||| (c == "access_control"@ && f == "permissions"@)
}

/// Path of the blob belonging to document `id` of `coll`.
pub open spec fn blob_path_of(base: Seq<char>, coll: Seq<char>, id: Seq<char>) -> Seq<char> {
    base + "/"@ + coll + "/blobs/"@ + id
}

/// The document id named by a document model: a non-empty string under
/// the `id` field.
pub open spec fn doc_id_of(m: Seq<(Seq<char>, JVal)>) -> Option<Seq<char>> {
    match jget(m, "id"@) {
        Some(JVal::Str(s)) => if s.len() > 0 {
            Some(s)
        } else {
            None
        },
        _ => None,
    }
}

/// A document model fit for storage: distinct field names, also inside
/// the payload object when one is present.
pub open spec fn stored_doc_wf(m: Seq<(Seq<char>, JVal)>) -> bool {
    &&& jkeys_distinct(m)
    &&& match jget(m, "payload"@) {
        Some(JVal::Obj(p)) => jkeys_distinct(p),
        _ => true,
    }
}

/// A document that asks for blob externalization: a `MEMORY` entry whose
/// payload object carries a `blob` field.
pub open spec fn blob_case(m: Seq<(Seq<char>, JVal)>) -> bool {
    &&& jget(m, "entryType"@) == Some(JVal::Str("MEMORY"@))
    &&& match jget(m, "payload"@) {
        Some(JVal::Obj(p)) => jhas(p, "blob"@),
        _ => false,
    }
}


/// Payload object of a document model, when one is present.
pub open spec fn payload_obj(m: Seq<(Seq<char>, JVal)>) -> Option<Seq<(Seq<char>, JVal)>> {
    match jget(m, "payload"@) {
        Some(JVal::Obj(p)) => Some(p),
        _ => None,
    }
}

/// Whether `g` is the at-rest sentinel name of some sensitive field of `c`.
pub open spec fn sentinel_of(c: Seq<char>, g: Seq<char>) -> bool {
    exists|f: Seq<char>| #[trigger] sensitive_field(c, f) && g == f + "_encrypted"@
}

/// The at-rest form of a payload: each sensitive field is replaced by an
/// envelope string and marked with a sentinel; every other field passes
/// through unchanged.
pub open spec fn encrypted_payload_ok(
    mgr: crate::crypto::EncryptionManager,
    c: Seq<char>,
    kid: Seq<char>,
    p0: Seq<(Seq<char>, JVal)>,
    p1: Seq<(Seq<char>, JVal)>,
) -> bool {
    &&& jkeys_distinct(p1)
    &&& forall|f: Seq<char>|
        sensitive_field(c, f) && jhas(p0, f) ==> (#[trigger] jget(p1, f) matches Some(
            JVal::Str(env),
        ) && (mgr.resolves(kid) matches Some(k) && crate::crypto::envelope_for(
            env,
            k,
            kid,
            crate::codec::enc_jval(jget(p0, f)->Some_0),
        )))
    &&& forall|f: Seq<char>|
        sensitive_field(c, f) && jhas(p0, f) && !jhas(p0, f + "_encrypted"@)
            ==> #[trigger] jget(p1, f + "_encrypted"@) == Some(JVal::Bool(true))
    &&& forall|g: Seq<char>|
        !sensitive_field(c, g) && !sentinel_of(c, g) ==> #[trigger] jget(p1, g) == jget(p0, g)
}

/// Equal concatenations with a common suffix have equal prefixes.
proof fn lemma_concat_cancel_right(a: Seq<char>, b: Seq<char>, c: Seq<char>)
    requires
        a + c == b + c,
    ensures
        a == b,
{
    assert((a + c).len() == a.len() + c.len());
    assert((b + c).len() == b.len() + c.len());
    assert(a.len() == b.len());
    assert forall|i: int| 0 <= i < a.len() implies a[i] == b[i] by {
        assert((a + c)[i] == a[i]);
        assert((b + c)[i] == b[i]);
    }
    assert(a =~= b);
}

/// No sensitive field name has the shape of a sentinel name.
proof fn lemma_sensitive_not_sentinel(c: Seq<char>, f: Seq<char>, g: Seq<char>)
    requires
        sensitive_field(c, f),
    ensures
        f != g + "_encrypted"@,
{
    reveal_strlit("hash");
    reveal_strlit("salt");
    reveal_strlit("kyber_private_key");
    reveal_strlit("dilithium_private_key");
    reveal_strlit("token_hash");
    reveal_strlit("details");
    reveal_strlit("indicators");
    reveal_strlit("permissions");
    reveal_strlit("_encrypted");
    if f == g + "_encrypted"@ {
        assert(f.len() == g.len() + 10);
        assert(f[g.len() as int] == '_');
        if f == "token_hash"@ {
            assert(f[0] == 't');
        } else if f == "kyber_private_key"@ {
            assert(f[7] == 'i');
        } else if f == "dilithium_private_key"@ {
            assert(f[11] == 'v');
        } else if f == "indicators"@ {
            assert(f[0] == 'i');
        } else if f == "permissions"@ {
            assert(f[1] == 'e');
        }
    }
}


/// Whether `g` has the shape of an at-rest sentinel name: its UTF-8 bytes
/// end in the bytes of `_encrypted`.
pub open spec fn is_sentinel_name(g: Seq<char>) -> bool {
    &&& encode_utf8(g).len() >= 10
    &&& encode_utf8(g).subrange(
        encode_utf8(g).len() - 10,
        encode_utf8(g).len() as int,
    ) == encode_utf8("_encrypted"@)
}

/// The in-memory form of an at-rest payload: each field marked by a
/// sentinel is an envelope whose plaintext decodes to the field value;
/// unmarked fields pass through; sentinel-shaped names are dropped.
pub open spec fn decrypted_payload_ok(
    mgr: crate::crypto::EncryptionManager,
    p: Seq<(Seq<char>, JVal)>,
    dp: Seq<(Seq<char>, JVal)>,
) -> bool {
    &&& jkeys_distinct(dp)
    &&& forall|g: Seq<char>|
        (!is_sentinel_name(g) && jget(p, g + "_encrypted"@) == Some(JVal::Bool(true)) && jget(
            p,
            g,
        ) is Some && jget(p, g)->Some_0 is Str) ==> (#[trigger] jget(dp, g) matches Some(w)
            && exists|bytes: Seq<u8>|
            crate::crypto::decrypts_under(mgr, jget(p, g)->Some_0->Str_0, bytes)
                && crate::codec::enc_jval(w) == bytes)
    &&& forall|g: Seq<char>|
        (!is_sentinel_name(g) && jget(p, g + "_encrypted"@) != Some(JVal::Bool(true)))
            ==> #[trigger] jget(dp, g) == jget(p, g)
    &&& forall|g: Seq<char>| is_sentinel_name(g) ==> #[trigger] jget(dp, g) is None
}

/// Checks whether a field name has the sentinel shape.
fn is_sentinel_key(g: &str) -> (r: bool)
    ensures
        r == is_sentinel_name(g@),
{
    let gb = g.as_bytes();
    let sb = "_encrypted".as_bytes();
    proof {
        assert(sb@ == encode_utf8("_encrypted"@));
        reveal_strlit("_encrypted");
        assert(sb@.len() == 10) by {
            reveal_strlit("_encrypted");
            assert(vstd::utf8::is_ascii_chars("_encrypted"@));
            vstd::utf8::is_ascii_chars_encode_utf8("_encrypted"@);
        }
    }
    if gb.len() < 10 {
        return false;
    }
    let start = gb.len() - 10;
    let mut i: usize = 0;
    while i < 10
        invariant
            i <= 10,
            gb@ == encode_utf8(g@),
            sb@ == encode_utf8("_encrypted"@),
            sb@.len() == 10,
            gb@.len() >= 10,
            gb@.len() <= usize::MAX,
            start == gb@.len() - 10,
            forall|j: int| 0 <= j < i ==> gb@[start + j] == sb@[j],
        decreases 10 - i,
    {
        if gb[start + i] != sb[i] {
            return false;
        }
        i = i + 1;
    }
    proof {
        assert(gb@.subrange(gb@.len() - 10, gb@.len() as int) =~= sb@);
    }
    true
}


/// The field a shallow merge of `patch` over `m` carries under `f`.
pub open spec fn merged_field(
    pm: Seq<(Seq<char>, JVal)>,
    m: Seq<(Seq<char>, JVal)>,
    f: Seq<char>,
) -> Option<JVal> {
    if jhas(pm, f) {
        jget(pm, f)
    } else {
        jget(m, f)
    }
}

/// Whether a shallow merge of `patch` over `m` asks for blob
/// externalization when re-stored.
pub open spec fn merged_blob_case(
    pm: Seq<(Seq<char>, JVal)>,
    m: Seq<(Seq<char>, JVal)>,
) -> bool {
    &&& merged_field(pm, m, "entryType"@) == Some(JVal::Str("MEMORY"@))
    &&& match merged_field(pm, m, "payload"@) {
        Some(JVal::Obj(p)) => jhas(p, "blob"@),
        _ => false,
    }
}


/// What a read returns for the stored form `m`: the exact model for a
/// plain document, the blob re-inlined form for a plain `MEMORY` document
/// with a stored blob, and the decrypted form for an encrypted one.
pub open spec fn read_back_ok(
    st: FileStorage,
    m: Seq<(Seq<char>, JVal)>,
    dm: Seq<(Seq<char>, JVal)>,
) -> bool {
    &&& (jget(m, "encrypted"@) != Some(JVal::Bool(true)) && st.reinline_path(m) is None ==> dm
        == m)
    &&& (jget(m, "encrypted"@) != Some(JVal::Bool(true)) ==> (st.reinline_path(m)
        matches Some(bp) ==> {
        let p0 = payload_obj(m)->Some_0;
        &&& forall|f: Seq<char>| f != "payload"@ ==> #[trigger] jget(dm, f) == jget(m, f)
        &&& payload_obj(dm) matches Some(p1) && {
            &&& jget(p1, "blob"@) == st.blob_at(bp)
            &&& jget(p1, "blobRef"@) is None
            &&& forall|g: Seq<char>|
                g != "blob"@ && g != "blobRef"@ ==> #[trigger] jget(p1, g) == jget(p0, g)
        }
    }))
    &&& (jget(m, "encrypted"@) == Some(JVal::Bool(true)) && jget(m, "entryType"@) != Some(
        JVal::Str("MEMORY"@),
    ) ==> {
        &&& jget(dm, "encrypted"@) is None
        &&& jget(dm, "encryption_key_id"@) is None
        &&& forall|f: Seq<char>|
            f != "payload"@ && f != "encrypted"@ && f != "encryption_key_id"@ ==> #[trigger] jget(
                dm,
                f,
            ) == jget(m, f)
        &&& (payload_obj(m) matches Some(p) ==> (payload_obj(dm) matches Some(dp)
            && decrypted_payload_ok(st.spec_manager(), p, dp)))
    })
}


/// Whether `dm` reads back from some stored document of `coll`.
pub open spec fn from_some_stored(
    st: FileStorage,
    coll: Seq<char>,
    dm: Seq<(Seq<char>, JVal)>,
) -> bool {
    exists|i: int|
        0 <= i < st.collection_ids(coll).len() && (st.stored_doc(
            coll,
            #[trigger] st.collection_ids(coll)[i],
        ) matches Some(m) && read_back_ok(st, m, dm))
}

/// An order-preserving injection from a listing into the stored
/// documents of `coll`: element `j` reads back from the stored document
/// at position `picks[j]`, and the positions strictly increase, so no
/// stored document is listed twice.
pub open spec fn listing_picks(
    st: FileStorage,
    coll: Seq<char>,
    picks: Seq<int>,
    v: Seq<Vec<(String, Value)>>,
) -> bool {
    &&& picks.len() == v.len()
    &&& forall|j: int, k: int| 0 <= j < k < picks.len() ==> picks[j] < picks[k]
    &&& forall|j: int|
        0 <= j < picks.len() ==> 0 <= #[trigger] picks[j] < st.collection_ids(coll).len() && (
        st.stored_doc(coll, st.collection_ids(coll)[picks[j]]) matches Some(m) && read_back_ok(
            st,
            m,
            jfields_of(v[j]@),
        ))
}

/// Whether some order-preserving injection ties every element of `v` to
/// its own stored document of `coll`.
pub open spec fn listed_once(
    st: FileStorage,
    coll: Seq<char>,
    v: Seq<Vec<(String, Value)>>,
) -> bool {
    exists|picks: Seq<int>| listing_picks(st, coll, picks, v)
}

/// Whether some listed document reads back from the stored form `m`.
pub open spec fn read_back_listed(
    st: FileStorage,
    m: Seq<(Seq<char>, JVal)>,
    v: Seq<Vec<(String, Value)>>,
) -> bool {
    exists|j: int| 0 <= j < v.len() && read_back_ok(st, m, jfields_of((#[trigger] v[j])@))
}

/// File-tree backed storage: documents by collection and id, blobs by
/// path, and the encryption registry for sensitive collections.
pub struct FileStorage {
    base_dir: String,
    dirs: Vec<(String, Vec<(String, Vec<(String, Value)>)>)>,
    blobs: Vec<(String, Value)>,
    encryption_mgr: EncryptionManager,
}

impl FileStorage {
    #[verifier::type_invariant]
    spec fn wf(self) -> bool {
        &&& akeys_distinct(amodel(self.dirs@))
        &&& forall|ci: int|
            0 <= ci < self.dirs@.len() ==> akeys_distinct(
                amodel((#[trigger] self.dirs@[ci]).1@),
            )
        &&& forall|ci: int, di: int|
            0 <= ci < self.dirs@.len() && 0 <= di < self.dirs@[ci].1@.len() ==> stored_doc_wf(
                jfields_of((#[trigger] self.dirs@[ci].1@[di]).1@),
            )
        &&& akeys_distinct(amodel(self.blobs@))
    }

    /// The configured base directory.
    pub closed spec fn spec_base(self) -> Seq<char> {
        self.base_dir@
    }

    /// The stored (on-disk) form of document `id` in collection `coll`.
    pub closed spec fn stored_doc(self, coll: Seq<char>, id: Seq<char>) -> Option<
        Seq<(Seq<char>, JVal)>,
    > {
        match aget(amodel(self.dirs@), coll) {
            Some(dir) => match aget(amodel(dir@), id) {
                Some(d) => Some(jfields_of(d@)),
                None => None,
            },
            None => None,
        }
    }

    /// Whether collection `coll` exists in the store.
    pub closed spec fn has_collection(self, coll: Seq<char>) -> bool {
        ahas(amodel(self.dirs@), coll)
    }

    /// The document ids of collection `coll`, in storage order.
    pub closed spec fn collection_ids(self, coll: Seq<char>) -> Seq<Seq<char>> {
        match aget(amodel(self.dirs@), coll) {
            Some(dir) => dir@.map(|i: int, e: (String, Vec<(String, Value)>)| e.0@),
            None => Seq::empty(),
        }
    }

    /// The blob stored at `path`, if any.
    pub closed spec fn blob_at(self, path: Seq<char>) -> Option<JVal> {
        match aget(amodel(self.blobs@), path) {
            Some(v) => Some(v@),
            None => None,
        }
    }

    /// The encryption registry's state.
    pub closed spec fn spec_manager(self) -> EncryptionManager {
        self.encryption_mgr
    }


    /// The blob path a stored document would re-inline on read: present
    /// when the document is a `MEMORY` entry whose payload names a stored
    /// blob.
    pub open spec fn reinline_path(self, m: Seq<(Seq<char>, JVal)>) -> Option<Seq<char>> {
        if jget(m, "entryType"@) == Some(JVal::Str("MEMORY"@)) {
            match payload_obj(m) {
                Some(p) => match jget(p, "blobRef"@) {
                    Some(JVal::Str(path)) => if self.blob_at(path) is Some {
                        Some(path)
                    } else {
                        None
                    },
                    _ => None,
                },
                None => None,
            }
        } else {
            None
        }
    }

    /// Creates an empty store rooted at `base_dir`.
    pub fn new(base_dir: String) -> (r: FileStorage)
        ensures
            r.spec_base() == base_dir@,
            forall|c: Seq<char>, i: Seq<char>| #[trigger] r.stored_doc(c, i) is None,
            forall|p: Seq<char>| #[trigger] r.blob_at(p) is None,
            r.spec_manager().spec_master() is None,
    {
        let r = FileStorage {
            base_dir,
            dirs: Vec::new(),
            blobs: Vec::new(),
            encryption_mgr: EncryptionManager::new(),
        };
        proof {
            assert(amodel(r.dirs@).len() == 0);
            assert(amodel(r.blobs@).len() == 0);
            assert forall|c: Seq<char>, i: Seq<char>| #[trigger] r.stored_doc(c, i) is None by {
                assert(!ahas(amodel(r.dirs@), c));
            }
            assert forall|p: Seq<char>| #[trigger] r.blob_at(p) is None by {
                assert(!ahas(amodel(r.blobs@), p));
            }
        }
        r
    }

    /// Installs the master key for at-rest encryption.
    pub fn set_master_key(&mut self, key_pair: PQCKeyPair)
        ensures
            final(self).spec_manager().spec_master() == Some(key_pair),
            forall|id: Seq<char>| #[trigger] final(self).spec_manager().cache_lookup(id) == old(
                self,
            ).spec_manager().cache_lookup(id),
            forall|c: Seq<char>, i: Seq<char>| #[trigger] final(self).stored_doc(c, i) == old(
                self,
            ).stored_doc(c, i),
            forall|p: Seq<char>| #[trigger] final(self).blob_at(p) == old(self).blob_at(p),
            final(self).spec_base() == old(self).spec_base(),
    {
        proof {
            use_type_invariant(&*self);
        }
        let mut mgr = EncryptionManager::new();
        std::mem::swap(&mut mgr, &mut self.encryption_mgr);
        mgr.set_master_key(key_pair);
        self.encryption_mgr = mgr;
    }

    /// Whether `collection` holds sensitive data and is encrypted at rest.
    pub fn is_encrypted_collection(&self, collection: &str) -> (r: bool)
        ensures
            r == sensitive_collection(collection@),
    {
        str_eq(collection, "credentials") || str_eq(collection, "pqc_keys") || str_eq(
            collection,
            "sessions",
        ) || str_eq(collection, "audit_log") || str_eq(collection, "threat_events") || str_eq(
            collection,
            "access_control",
        )
    }

    /// Whether `field_name` of `collection` is encrypted at rest.
    fn is_sensitive_field(&self, collection: &str, field_name: &str) -> (r: bool)
        ensures
            r == sensitive_field(collection@, field_name@),
    {
        let in_credentials = str_eq(collection, "credentials") && (str_eq(field_name, "hash")
            || str_eq(field_name, "salt"));
        let in_pqc_keys = str_eq(collection, "pqc_keys") && (str_eq(
            field_name,
            "kyber_private_key",
        ) || str_eq(field_name, "dilithium_private_key"));
        let in_sessions = str_eq(collection, "sessions") && str_eq(field_name, "token_hash");
        let in_audit_log = str_eq(collection, "audit_log") && str_eq(field_name, "details");
        let in_threat_events = str_eq(collection, "threat_events") && str_eq(
            field_name,
            "indicators",
        );
        let in_access_control = str_eq(collection, "access_control") && str_eq(
            field_name,
            "permissions",
        );
        in_credentials || in_pqc_keys || in_sessions || in_audit_log || in_threat_events
            || in_access_control
    }

    /// The full path of the blob belonging to document `id` of `collection`.
    fn blob_path(&self, collection: &str, id: &str) -> (r: String)
        ensures
            r@ == blob_path_of(self.spec_base(), collection@, id@),
    {
        self.base_dir.clone().concat("/").concat(collection).concat("/blobs/").concat(id)
    }

    /// Removes the document `id` of `collection` and its blob, if either
    /// exists; removing what is absent is a silent no-op.
    pub fn delete(&mut self, collection: &str, id: &str) -> (r: Result<(), DbError>)
        ensures
            r is Ok,
            final(self).stored_doc(collection@, id@) is None,
            forall|c: Seq<char>, i: Seq<char>|
                !(c == collection@ && i == id@) ==> #[trigger] final(self).stored_doc(c, i) == old(
                    self,
                ).stored_doc(c, i),
            final(self).blob_at(blob_path_of(old(self).spec_base(), collection@, id@)) is None,
            forall|p: Seq<char>|
                p != blob_path_of(old(self).spec_base(), collection@, id@)
                    ==> #[trigger] final(self).blob_at(p) == old(self).blob_at(p),
            final(self).spec_base() == old(self).spec_base(),
            final(self).spec_manager() == old(self).spec_manager(),
    {
        proof {
            use_type_invariant(&*self);
        }
        let ghost dm0 = amodel(self.dirs@);
        let mut dirs: Vec<(String, Vec<(String, Vec<(String, Value)>)>)> = Vec::new();
        std::mem::swap(&mut dirs, &mut self.dirs);
        match afind(&dirs, collection) {
            Some(ci) => {
                let ghost cname = dm0[ci as int].0;
                let (name, mut docs) = dirs.remove(ci);
                let ghost docs0 = amodel(docs@);
                proof {
                    lemma_aget_at(dm0, ci as int);
                }
                match afind(&docs, id) {
                    Some(di) => {
                        let ghost dname = docs0[di as int].0;
                        let _ = docs.remove(di);
                        proof {
                            assert(amodel(docs@) =~= docs0.remove(di as int));
                            assert forall|i: Seq<char>| true implies #[trigger] aget(
                                amodel(docs@),
                                i,
                            ) == if i == dname {
                                None::<Vec<(String, Value)>>
                            } else {
                                aget(docs0, i)
                            } by {
                                lemma_aget_remove(docs0, di as int, i);
                            }
                        }
                    },
                    None => {
                        proof {
                            assert(!ahas(amodel(docs@), id@));
                        }
                    },
                }
                let ghost docs1 = amodel(docs@);
                dirs.push((name, docs));
                proof {
                    assert(amodel(dirs@) =~= dm0.remove(ci as int).push((cname, docs))) by {
                        assert(amodel(dirs@).len() == dm0.len());
                        assert forall|t: int|
                            0 <= t < amodel(dirs@).len() implies amodel(dirs@)[t] == dm0.remove(
                            ci as int,
                        ).push((cname, docs))[t] by {}
                    }
                    assert forall|c: Seq<char>| true implies #[trigger] aget(amodel(dirs@), c)
                        == if c == cname {
                        Some(docs)
                    } else {
                        aget(dm0, c)
                    } by {
                        lemma_aget_remove(dm0, ci as int, c);
                        lemma_aget_push(dm0.remove(ci as int), cname, docs, c);
                    }
                }
            },
            None => {
                proof {
                    assert(!ahas(amodel(dirs@), collection@));
                }
            },
        }
        self.dirs = dirs;
        // remove any blob for this document
        let path = self.blob_path(collection, id);
        let ghost bm0 = amodel(self.blobs@);
        let mut blobs: Vec<(String, Value)> = Vec::new();
        std::mem::swap(&mut blobs, &mut self.blobs);
        match afind(&blobs, path.as_str()) {
            Some(bi) => {
                let ghost bname = bm0[bi as int].0;
                let _ = blobs.remove(bi);
                proof {
                    assert(amodel(blobs@) =~= bm0.remove(bi as int));
                    assert forall|p: Seq<char>| true implies #[trigger] aget(amodel(blobs@), p)
                        == if p == bname {
                        None::<Value>
                    } else {
                        aget(bm0, p)
                    } by {
                        lemma_aget_remove(bm0, bi as int, p);
                    }
                }
            },
            None => {
                proof {
                    assert(!ahas(amodel(blobs@), path@));
                }
            },
        }
        self.blobs = blobs;
        Ok(())
    }

    /// Stores `doc` as the on-disk form of document `id` in `collection`,
    /// replacing any earlier version.
    fn put_doc(&mut self, collection: &str, id: &str, doc: Vec<(String, Value)>)
        requires
            stored_doc_wf(jfields_of(doc@)),
        ensures
            final(self).stored_doc(collection@, id@) == Some(jfields_of(doc@)),
            forall|c: Seq<char>, i: Seq<char>|
                !(c == collection@ && i == id@) ==> #[trigger] final(self).stored_doc(c, i) == old(
                    self,
                ).stored_doc(c, i),
            forall|p: Seq<char>| #[trigger] final(self).blob_at(p) == old(self).blob_at(p),
            final(self).spec_base() == old(self).spec_base(),
            final(self).spec_manager() == old(self).spec_manager(),
    {
        proof {
            use_type_invariant(&*self);
        }
        let ghost dm0 = amodel(self.dirs@);
        let ghost docm = jfields_of(doc@);
        let mut dirs: Vec<(String, Vec<(String, Vec<(String, Value)>)>)> = Vec::new();
        std::mem::swap(&mut dirs, &mut self.dirs);
        let ghost od = dirs@;
        match afind(&dirs, collection) {
            Some(ci) => {
                let ghost cname = dm0[ci as int].0;
                let (name, mut docs) = dirs.remove(ci);
                let ghost docsv0 = docs@;
                let ghost docs0 = amodel(docs@);
                proof {
                    lemma_aget_at(dm0, ci as int);
                }
                match afind(&docs, id) {
                    Some(di) => {
                        let ghost dname = docs0[di as int].0;
                        docs[di] = (docs[di].0.clone(), doc);
                        proof {
                            assert(amodel(docs@) =~= docs0.update(
                                di as int,
                                (docs0[di as int].0, docs@[di as int].1),
                            )) by {
                                assert(docs@[di as int].0@ == docs0[di as int].0);
                            }
                            assert forall|i: Seq<char>| true implies #[trigger] aget(
                                amodel(docs@),
                                i,
                            ) == if i == dname {
                                Some(docs@[di as int].1)
                            } else {
                                aget(docs0, i)
                            } by {
                                crate::assoc::lemma_aget_update(
                                    docs0,
                                    di as int,
                                    docs@[di as int].1,
                                    i,
                                );
                            }
                            assert(jfields_of(docs@[di as int].1@) == docm);
                        }
                    },
                    None => {
                        let ghost dn = id@;
                        docs.push((id.to_owned(), doc));
                        proof {
                            assert(amodel(docs@) =~= docs0.push((dn, docs@.last().1)));
                            assert(!ahas(docs0, dn));
                            assert forall|i: Seq<char>| true implies #[trigger] aget(
                                amodel(docs@),
                                i,
                            ) == if i == dn {
                                Some(docs@.last().1)
                            } else {
                                aget(docs0, i)
                            } by {
                                lemma_aget_push(docs0, dn, docs@.last().1, i);
                            }
                            assert(jfields_of(docs@.last().1@) == docm);
                        }
                    },
                }
                let ghost docs1 = docs@;
                dirs.push((name, docs));
                proof {
                    assert forall|c: Seq<char>| true implies #[trigger] aget(amodel(dirs@), c)
                        == if c == cname {
                        Some(dirs@.last().1)
                    } else {
                        aget(dm0, c)
                    } by {
                        assert(amodel(dirs@) =~= dm0.remove(ci as int).push(
                            (cname, dirs@.last().1),
                        ));
                        lemma_aget_remove(dm0, ci as int, c);
                        lemma_aget_push(dm0.remove(ci as int), cname, dirs@.last().1, c);
                    }
                    assert(dirs@.last().1@ == docs1);
                    assert(akeys_distinct(amodel(dirs@))) by {
                        assert(amodel(dirs@) =~= dm0.remove(ci as int).push(
                            (cname, dirs@.last().1),
                        ));
                        lemma_aget_remove(dm0, ci as int, cname);
                        lemma_aget_push(dm0.remove(ci as int), cname, dirs@.last().1, cname);
                    }
                    assert(akeys_distinct(amodel(docs1)));
                    assert forall|di2: int|
                        0 <= di2 < docs1.len() implies stored_doc_wf(
                        jfields_of((#[trigger] docs1[di2]).1@),
                    ) by {
                        assert(docsv0 == od[ci as int].1@);
                        if docs1[di2].1@ == docsv0[di2].1@ {
                        } else {
                            assert(jfields_of(docs1[di2].1@) == docm);
                        }
                    }
                    assert forall|t: int|
                        0 <= t < dirs@.len() && t < dirs@.len() - 1 implies akeys_distinct(
                        amodel((#[trigger] dirs@[t]).1@),
                    ) && (forall|di2: int|
                        0 <= di2 < dirs@[t].1@.len() ==> stored_doc_wf(
                            jfields_of((#[trigger] dirs@[t].1@[di2]).1@),
                        )) by {
                        if t < ci {
                            assert(dirs@[t] == od[t]);
                        } else {
                            assert(dirs@[t] == od[t + 1]);
                        }
                    }
                    assert(dirs@.last().1@ == docs1);
                }
            },
            None => {
                proof {
                    assert(!ahas(dm0, collection@));
                }
                let mut docs: Vec<(String, Vec<(String, Value)>)> = Vec::new();
                docs.push((id.to_owned(), doc));
                let ghost docs1 = docs@;
                dirs.push((collection.to_owned(), docs));
                proof {
                    assert(amodel(docs1).len() == 1);
                    assert(amodel(docs1)[0] == (id@, docs1[0].1));
                    assert forall|i: Seq<char>| true implies #[trigger] aget(amodel(docs1), i)
                        == if i == id@ {
                        Some(docs1[0].1)
                    } else {
                        None::<Vec<(String, Value)>>
                    } by {
                        if i == id@ {
                            lemma_aget_at(amodel(docs1), 0);
                        } else {
                            assert(forall|t: int|
                                0 <= t < amodel(docs1).len() ==> amodel(docs1)[t].0 != i);
                        }
                    }
                    assert(jfields_of(docs1[0].1@) == docm);
                    assert forall|c: Seq<char>| true implies #[trigger] aget(amodel(dirs@), c)
                        == if c == collection@ {
                        Some(dirs@.last().1)
                    } else {
                        aget(dm0, c)
                    } by {
                        assert(amodel(dirs@) =~= dm0.push((collection@, dirs@.last().1)));
                        lemma_aget_push(dm0, collection@, dirs@.last().1, c);
                    }
                    assert(dirs@.last().1@ == docs1);
                    assert(akeys_distinct(amodel(dirs@))) by {
                        assert(amodel(dirs@) =~= dm0.push((collection@, dirs@.last().1)));
                        lemma_aget_push(dm0, collection@, dirs@.last().1, collection@);
                    }
                    assert(akeys_distinct(amodel(docs1))) by {
                        assert(amodel(docs1).len() == 1);
                    }
                    assert forall|t: int|
                        0 <= t < dirs@.len() && t < dirs@.len() - 1 implies akeys_distinct(
                        amodel((#[trigger] dirs@[t]).1@),
                    ) && (forall|di2: int|
                        0 <= di2 < dirs@[t].1@.len() ==> stored_doc_wf(
                            jfields_of((#[trigger] dirs@[t].1@[di2]).1@),
                        )) by {
                        assert(dirs@[t] == od[t]);
                    }
                }
            },
        }
        self.dirs = dirs;
    }

    /// Stores `blob` at `path`, replacing any earlier blob there.
    fn put_blob(&mut self, path: String, blob: Value)
        ensures
            final(self).blob_at(path@) == Some(blob@),
            forall|p: Seq<char>| p != path@ ==> #[trigger] final(self).blob_at(p) == old(
                self,
            ).blob_at(p),
            forall|c: Seq<char>, i: Seq<char>| #[trigger] final(self).stored_doc(c, i) == old(
                self,
            ).stored_doc(c, i),
            final(self).spec_base() == old(self).spec_base(),
            final(self).spec_manager() == old(self).spec_manager(),
    {
        proof {
            use_type_invariant(&*self);
        }
        let ghost bm0 = amodel(self.blobs@);
        let ghost blobm = blob@;
        let mut blobs: Vec<(String, Value)> = Vec::new();
        std::mem::swap(&mut blobs, &mut self.blobs);
        match afind(&blobs, path.as_str()) {
            Some(bi) => {
                let ghost bname = bm0[bi as int].0;
                blobs[bi] = (blobs[bi].0.clone(), blob);
                proof {
                    assert(amodel(blobs@) =~= bm0.update(
                        bi as int,
                        (bm0[bi as int].0, blobs@[bi as int].1),
                    )) by {
                        assert(blobs@[bi as int].0@ == bm0[bi as int].0);
                    }
                    assert forall|p: Seq<char>| true implies #[trigger] aget(amodel(blobs@), p)
                        == if p == bname {
                        Some(blobs@[bi as int].1)
                    } else {
                        aget(bm0, p)
                    } by {
                        crate::assoc::lemma_aget_update(bm0, bi as int, blobs@[bi as int].1, p);
                    }
                    assert(blobs@[bi as int].1@ == blobm);
                    assert(akeys_distinct(amodel(blobs@))) by {
                        crate::assoc::lemma_aget_update(
                            bm0,
                            bi as int,
                            blobs@[bi as int].1,
                            bname,
                        );
                        assert(amodel(blobs@) =~= bm0.update(
                            bi as int,
                            (bm0[bi as int].0, blobs@[bi as int].1),
                        ));
                    }
                }
            },
            None => {
                let ghost pn = path@;
                blobs.push((path, blob));
                proof {
                    assert(amodel(blobs@) =~= bm0.push((pn, blobs@.last().1)));
                    assert(!ahas(bm0, pn));
                    assert forall|p: Seq<char>| true implies #[trigger] aget(amodel(blobs@), p)
                        == if p == pn {
                        Some(blobs@.last().1)
                    } else {
                        aget(bm0, p)
                    } by {
                        lemma_aget_push(bm0, pn, blobs@.last().1, p);
                    }
                    assert(blobs@.last().1@ == blobm);
                    assert(akeys_distinct(amodel(blobs@))) by {
                        lemma_aget_push(bm0, pn, blobs@.last().1, pn);
                    }
                }
            },
        }
        self.blobs = blobs;
    }

    /// Builds the at-rest form of a payload: sensitive fields are replaced
    /// by envelope strings and marked with sentinels; the rest passes
    /// through.
    fn encrypt_payload(&self, collection: &str, payload: &Vec<(String, Value)>, key_id: &String)
        -> (r: Result<Vec<(String, Value)>, DbError>)
        requires
            jkeys_distinct(jfields_of(payload@)),
        ensures
            r matches Ok(ep) ==> encrypted_payload_ok(
                self.spec_manager(),
                collection@,
                key_id@,
                jfields_of(payload@),
                jfields_of(ep@),
            ),
            r matches Err(e) ==> e is Crypto,
    {
        proof {
            use_type_invariant(&*self);
        }
        let ghost pm = jfields_of(payload@);
        let ghost coll = collection@;
        proof {
            lemma_jfields_index(payload@);
            reveal_strlit("_encrypted");
        }
        let mut ep: Vec<(String, Value)> = Vec::new();
        let mut t: usize = 0;
        while t < payload.len()
            invariant
                t <= payload@.len(),
                jkeys_distinct(pm),
                pm == jfields_of(payload@),
                pm.len() == payload@.len(),
                coll == collection@,
                forall|u: int|
                    0 <= u < pm.len() ==> #[trigger] pm[u] == (
                        payload@[u].0@,
                        crate::value::jval_of(payload@[u].1),
                    ),
                jkeys_distinct(jfields_of(ep@)),
                forall|u: int|
                    0 <= u < t && sensitive_field(coll, pm[u].0) ==> (#[trigger] jget(
                        jfields_of(ep@),
                        pm[u].0,
                    ) matches Some(JVal::Str(env)) && (self.spec_manager().resolves(key_id@)
                        matches Some(k) && crate::crypto::envelope_for(
                        env,
                        k,
                        key_id@,
                        crate::codec::enc_jval(pm[u].1),
                    ))),
                forall|u: int|
                    0 <= u < t && sensitive_field(coll, #[trigger] pm[u].0) && !jhas(
                        pm,
                        pm[u].0 + "_encrypted"@,
                    ) ==> jget(jfields_of(ep@), pm[u].0 + "_encrypted"@) == Some(
                        JVal::Bool(true),
                    ),
                forall|u: int|
                    0 <= u < t && !sensitive_field(coll, #[trigger] pm[u].0) && !sentinel_of(
                        coll,
                        pm[u].0,
                    ) ==> jget(jfields_of(ep@), pm[u].0) == Some(pm[u].1),
                forall|g: Seq<char>|
                    (forall|u: int|
                        0 <= u < t ==> #[trigger] pm[u].0 != g && (sensitive_field(coll, pm[u].0)
                            ==> pm[u].0 + "_encrypted"@ != g)) ==> #[trigger] jget(
                        jfields_of(ep@),
                        g,
                    ) is None,
            decreases payload@.len() - t,
        {
            let ghost tt = t as int;
            let ghost ep0 = jfields_of(ep@);
            let f = payload[t].0.clone();
            if self.is_sensitive_field(collection, f.as_str()) {
                let bytes = crate::codec::encode_value_bytes(&payload[t].1);
                let env = match self.encryption_mgr.encrypt_data(bytes.as_slice(), key_id.as_str())
                    {
                    Ok(e) => e,
                    Err(_) => {
                        return Err(DbError::Crypto("encryption failed".to_owned()));
                    },
                };
                let ghost envv = env@;
                obj_set(&mut ep, f, Value::Str(env));
                let ghost ep1 = jfields_of(ep@);
                let f2 = payload[t].0.clone().concat("_encrypted");
                let ghost f2v = f2@;
                obj_set(&mut ep, f2, Value::Bool(true));
                proof {
                    let ep2 = jfields_of(ep@);
                    assert(f2v == pm[tt].0 + "_encrypted"@);
                    assert(pm[tt].0 != f2v) by {
                        reveal_strlit("_encrypted");
                        assert((pm[tt].0 + "_encrypted"@).len() == pm[tt].0.len() + 10);
                    }
                    assert(jget(ep2, pm[tt].0) == jget(ep1, pm[tt].0));
                    assert(jget(ep2, pm[tt].0) matches Some(JVal::Str(e2)) && e2 == envv);
                    assert forall|u: int|
                        0 <= u < tt + 1 && sensitive_field(coll, pm[u].0) implies (#[trigger] jget(
                        ep2,
                        pm[u].0,
                    ) matches Some(JVal::Str(env2)) && (self.spec_manager().resolves(key_id@)
                        matches Some(k) && crate::crypto::envelope_for(
                        env2,
                        k,
                        key_id@,
                        crate::codec::enc_jval(pm[u].1),
                    ))) by {
                        if u < tt {
                            assert(pm[u].0 != pm[tt].0);
                            lemma_sensitive_not_sentinel(coll, pm[u].0, pm[tt].0);
                            assert(jget(ep2, pm[u].0) == jget(ep0, pm[u].0));
                        }
                    }
                    assert forall|u: int|
                        0 <= u < tt + 1 && sensitive_field(coll, #[trigger] pm[u].0) && !jhas(
                            pm,
                            pm[u].0 + "_encrypted"@,
                        ) implies jget(ep2, pm[u].0 + "_encrypted"@) == Some(
                        JVal::Bool(true),
                    ) by {
                        if u < tt {
                            assert(pm[tt].0 != pm[u].0 + "_encrypted"@) by {
                                if pm[tt].0 == pm[u].0 + "_encrypted"@ {
                                    assert(0 <= tt < pm.len() && pm[tt].0 == pm[u].0
                                        + "_encrypted"@);
                                    assert(jhas(pm, pm[u].0 + "_encrypted"@));
                                }
                            }
                            assert(f2v != pm[u].0 + "_encrypted"@) by {
                                if f2v == pm[u].0 + "_encrypted"@ {
                                    lemma_concat_cancel_right(
                                        pm[tt].0,
                                        pm[u].0,
                                        "_encrypted"@,
                                    );
                                }
                            }
                            assert(jget(ep2, pm[u].0 + "_encrypted"@) == jget(
                                ep0,
                                pm[u].0 + "_encrypted"@,
                            ));
                        }
                    }
                    assert forall|u: int|
                        0 <= u < tt + 1 && !sensitive_field(coll, #[trigger] pm[u].0)
                            && !sentinel_of(coll, pm[u].0) implies jget(ep2, pm[u].0) == Some(
                        pm[u].1,
                    ) by {
                        if u < tt {
                            assert(pm[u].0 != pm[tt].0);
                            assert(f2v != pm[u].0) by {
                                if f2v == pm[u].0 {
                                    assert(sensitive_field(coll, pm[tt].0) && pm[u].0 == pm[tt].0
                                        + "_encrypted"@);
                                    assert(sentinel_of(coll, pm[u].0));
                                }
                            }
                            assert(jget(ep2, pm[u].0) == jget(ep0, pm[u].0));
                        }
                    }
                    assert forall|g: Seq<char>|
                        (forall|u: int|
                            0 <= u < tt + 1 ==> #[trigger] pm[u].0 != g && (sensitive_field(
                                coll,
                                pm[u].0,
                            ) ==> pm[u].0 + "_encrypted"@ != g)) implies #[trigger] jget(
                        ep2,
                        g,
                    ) is None by {
                        assert(pm[tt].0 != g);
                        assert(f2v != g);
                        assert(jget(ep2, g) == jget(ep0, g));
                        assert(forall|u: int|
                            0 <= u < tt ==> #[trigger] pm[u].0 != g && (sensitive_field(
                                coll,
                                pm[u].0,
                            ) ==> pm[u].0 + "_encrypted"@ != g));
                    }
                }
            } else {
                let c = payload[t].1.deep_copy();
                obj_set(&mut ep, f, c);
                proof {
                    let ep2 = jfields_of(ep@);
                    assert forall|u: int|
                        0 <= u < tt + 1 && sensitive_field(coll, pm[u].0) implies (#[trigger] jget(
                        ep2,
                        pm[u].0,
                    ) matches Some(JVal::Str(env2)) && (self.spec_manager().resolves(key_id@)
                        matches Some(k) && crate::crypto::envelope_for(
                        env2,
                        k,
                        key_id@,
                        crate::codec::enc_jval(pm[u].1),
                    ))) by {
                        if u < tt {
                            assert(pm[u].0 != pm[tt].0);
                            assert(jget(ep2, pm[u].0) == jget(ep0, pm[u].0));
                        }
                    }
                    assert forall|u: int|
                        0 <= u < tt + 1 && sensitive_field(coll, #[trigger] pm[u].0) && !jhas(
                            pm,
                            pm[u].0 + "_encrypted"@,
                        ) implies jget(ep2, pm[u].0 + "_encrypted"@) == Some(
                        JVal::Bool(true),
                    ) by {
                        if u < tt {
                            assert(pm[tt].0 != pm[u].0 + "_encrypted"@) by {
                                if pm[tt].0 == pm[u].0 + "_encrypted"@ {
                                    assert(jhas(pm, pm[u].0 + "_encrypted"@));
                                }
                            }
                            assert(jget(ep2, pm[u].0 + "_encrypted"@) == jget(
                                ep0,
                                pm[u].0 + "_encrypted"@,
                            ));
                        }
                    }
                    assert forall|u: int|
                        0 <= u < tt + 1 && !sensitive_field(coll, #[trigger] pm[u].0)
                            && !sentinel_of(coll, pm[u].0) implies jget(ep2, pm[u].0) == Some(
                        pm[u].1,
                    ) by {
                        if u < tt {
                            assert(pm[u].0 != pm[tt].0);
                            assert(jget(ep2, pm[u].0) == jget(ep0, pm[u].0));
                        }
                    }
                    assert forall|g: Seq<char>|
                        (forall|u: int|
                            0 <= u < tt + 1 ==> #[trigger] pm[u].0 != g && (sensitive_field(
                                coll,
                                pm[u].0,
                            ) ==> pm[u].0 + "_encrypted"@ != g)) implies #[trigger] jget(
                        ep2,
                        g,
                    ) is None by {
                        assert(pm[tt].0 != g);
                        assert(jget(ep2, g) == jget(ep0, g));
                        assert(forall|u: int|
                            0 <= u < tt ==> #[trigger] pm[u].0 != g && (sensitive_field(
                                coll,
                                pm[u].0,
                            ) ==> pm[u].0 + "_encrypted"@ != g));
                    }
                }
            }
            t = t + 1;
        }
        proof {
            let p1 = jfields_of(ep@);
            assert forall|f: Seq<char>|
                sensitive_field(coll, f) && jhas(pm, f) implies (#[trigger] jget(p1, f)
                matches Some(JVal::Str(env)) && (self.spec_manager().resolves(key_id@)
                matches Some(k) && crate::crypto::envelope_for(
                env,
                k,
                key_id@,
                crate::codec::enc_jval(jget(pm, f)->Some_0),
            ))) by {
                let u = choose|u: int| 0 <= u < pm.len() && pm[u].0 == f;
                lemma_jget_at(pm, u);
            }
            assert forall|f: Seq<char>|
                sensitive_field(coll, f) && jhas(pm, f) && !jhas(pm, f + "_encrypted"@)
                implies #[trigger] jget(p1, f + "_encrypted"@) == Some(JVal::Bool(true)) by {
                let u = choose|u: int| 0 <= u < pm.len() && pm[u].0 == f;
            }
            assert forall|g: Seq<char>|
                !sensitive_field(coll, g) && !sentinel_of(coll, g) implies #[trigger] jget(p1, g)
                == jget(pm, g) by {
                if jhas(pm, g) {
                    let u = choose|u: int| 0 <= u < pm.len() && pm[u].0 == g;
                    lemma_jget_at(pm, u);
                } else {
                    assert(forall|u: int|
                        0 <= u < pm.len() ==> #[trigger] pm[u].0 != g && (sensitive_field(
                            coll,
                            pm[u].0,
                        ) ==> pm[u].0 + "_encrypted"@ != g)) by {
                        assert forall|u: int| 0 <= u < pm.len() implies #[trigger] pm[u].0 != g
                            && (sensitive_field(coll, pm[u].0) ==> pm[u].0 + "_encrypted"@
                            != g) by {
                            if sensitive_field(coll, pm[u].0) && pm[u].0 + "_encrypted"@ == g {
                                assert(sentinel_of(coll, g));
                            }
                        }
                    }
                }
            }
        }
        Ok(ep)
    }

    /// Inserts `doc` into `collection` under its `id` field. A `MEMORY`
    /// document's payload blob is externalized to the blob area first; in a
    /// sensitive collection the payload's sensitive fields are then
    /// encrypted under the master key. A failed insert leaves the store
    /// unchanged.
    pub fn insert(&mut self, collection: &str, doc: Vec<(String, Value)>) -> (r: Result<
        (),
        DbError,
    >)
        requires
            stored_doc_wf(jfields_of(doc@)),
        ensures
            (r matches Err(e) && e is Validation) <==> doc_id_of(jfields_of(doc@)) is None,
            r matches Err(_) ==> *final(self) == *old(self),
            doc_id_of(jfields_of(doc@)) is Some && !sensitive_collection(collection@) ==> r is Ok,
            doc_id_of(jfields_of(doc@)) is Some && sensitive_collection(collection@) && old(
                self,
            ).spec_manager().spec_master() is None ==> (r matches Err(e) && e is Crypto),
            r is Ok ==> (doc_id_of(jfields_of(doc@)) matches Some(id) && {
                &&& forall|c: Seq<char>, i: Seq<char>|
                    !(c == collection@ && i == id) ==> #[trigger] final(self).stored_doc(c, i)
                        == old(self).stored_doc(c, i)
                &&& forall|p: Seq<char>|
                    p != blob_path_of(old(self).spec_base(), collection@, id)
                        ==> #[trigger] final(self).blob_at(p) == old(self).blob_at(p)
                &&& !blob_case(jfields_of(doc@)) ==> (forall|p: Seq<char>|
                    #[trigger] final(self).blob_at(p) == old(self).blob_at(p))
                &&& final(self).spec_base() == old(self).spec_base()
                &&& final(self).spec_manager() == old(self).spec_manager()
            }),
            r is Ok && !sensitive_collection(collection@) && !blob_case(jfields_of(doc@)) ==> (
            doc_id_of(jfields_of(doc@)) matches Some(id) && final(self).stored_doc(collection@, id)
                == Some(jfields_of(doc@))),
            r is Ok && !sensitive_collection(collection@) && blob_case(jfields_of(doc@)) ==> (
            doc_id_of(jfields_of(doc@)) matches Some(id) && (final(self).stored_doc(
                collection@,
                id,
            ) matches Some(m1) && {
                let m0 = jfields_of(doc@);
                let p0 = payload_obj(m0)->Some_0;
                let path = blob_path_of(old(self).spec_base(), collection@, id);
                &&& forall|f: Seq<char>|
                    f != "payload"@ ==> #[trigger] jget(m1, f) == jget(m0, f)
                &&& payload_obj(m1) matches Some(p1) && {
                    &&& jget(p1, "blob"@) is None
                    &&& jget(p1, "blobRef"@) == Some(JVal::Str(path))
                    &&& forall|g: Seq<char>|
                        g != "blob"@ && g != "blobRef"@ ==> #[trigger] jget(p1, g) == jget(p0, g)
                    &&& jkeys_distinct(p1)
                }
                &&& final(self).blob_at(path) == jget(p0, "blob"@)
            })),
            r is Ok && sensitive_collection(collection@) && !blob_case(jfields_of(doc@))
                && payload_obj(jfields_of(doc@)) is Some ==> (doc_id_of(jfields_of(doc@))
                matches Some(id) && (final(self).stored_doc(collection@, id) matches Some(m1)
                && (old(self).spec_manager().spec_master() matches Some(mk) && {
                let m0 = jfields_of(doc@);
                &&& jget(m1, "encrypted"@) == Some(JVal::Bool(true))
                &&& jget(m1, "encryption_key_id"@) == Some(JVal::Str(mk.id@))
                &&& forall|f: Seq<char>|
                    f != "payload"@ && f != "encrypted"@ && f != "encryption_key_id"@
                        ==> #[trigger] jget(m1, f) == jget(m0, f)
                &&& payload_obj(m1) matches Some(p1) && encrypted_payload_ok(
                    old(self).spec_manager(),
                    collection@,
                    mk.id@,
                    payload_obj(m0)->Some_0,
                    p1,
                )
            }))),
            r is Ok && sensitive_collection(collection@) && !blob_case(jfields_of(doc@))
                && payload_obj(jfields_of(doc@)) is None ==> (doc_id_of(jfields_of(doc@))
                matches Some(id) && (final(self).stored_doc(collection@, id) matches Some(m1)
                && (forall|f: Seq<char>| #[trigger] jget(m1, f) == jget(jfields_of(doc@), f)))),
            r is Ok && sensitive_collection(collection@) && blob_case(jfields_of(doc@)) ==> (
            doc_id_of(jfields_of(doc@)) matches Some(id) && (old(self).spec_manager().spec_master()
                matches Some(mk) && (final(self).stored_doc(collection@, id) matches Some(m1)
                && exists|pb: Seq<(Seq<char>, JVal)>|
                #![trigger jget(pb, "blobRef"@)]
                {
                    let m0 = jfields_of(doc@);
                    let p0 = payload_obj(m0)->Some_0;
                    let path = blob_path_of(old(self).spec_base(), collection@, id);
                    &&& jget(pb, "blob"@) is None
                    &&& jget(pb, "blobRef"@) == Some(JVal::Str(path))
                    &&& (forall|g: Seq<char>|
                        g != "blob"@ && g != "blobRef"@ ==> #[trigger] jget(pb, g) == jget(
                            p0,
                            g,
                        ))
                    &&& jget(m1, "encrypted"@) == Some(JVal::Bool(true))
                    &&& jget(m1, "encryption_key_id"@) == Some(JVal::Str(mk.id@))
                    &&& (forall|f: Seq<char>|
                        f != "payload"@ && f != "encrypted"@ && f != "encryption_key_id"@
                            ==> #[trigger] jget(m1, f) == jget(m0, f))
                    &&& payload_obj(m1) matches Some(p1) && encrypted_payload_ok(
                        old(self).spec_manager(),
                        collection@,
                        mk.id@,
                        pb,
                        p1,
                    )
                    &&& final(self).blob_at(path) == jget(p0, "blob"@)
                }))),
    {
        proof {
            use_type_invariant(&*self);
        }
        let ghost m0 = jfields_of(doc@);
        let id_key = "id".to_owned();
        let id: String = match obj_get(&doc, &id_key) {
            Some(v) => match v {
                Value::Str(s) => {
                    if s.as_str().is_empty() {
                        return Err(
                            DbError::Validation("document must have an 'id' field".to_owned()),
                        );
                    }
                    s.clone()
                },
                _ => {
                    return Err(
                        DbError::Validation("document must have an 'id' field".to_owned()),
                    );
                },
            },
            None => {
                return Err(DbError::Validation("document must have an 'id' field".to_owned()));
            },
        };
        proof {
            assert(doc_id_of(m0) == Some(id@));
        }
        let mut doc = doc;
        // blob externalization for MEMORY documents
        let et_key = "entryType".to_owned();
        let pl_key = "payload".to_owned();
        let blob_key = "blob".to_owned();
        let is_memory = match obj_get(&doc, &et_key) {
            Some(v) => match v {
                Value::Str(s) => str_eq(s.as_str(), "MEMORY"),
                _ => false,
            },
            None => false,
        };
        let has_blob = if is_memory {
            match obj_get(&doc, &pl_key) {
                Some(v) => match v {
                    Value::Obj(p) => {
                        match obj_get(p, &blob_key) {
                            Some(_) => true,
                            None => false,
                        }
                    },
                    _ => false,
                },
                None => false,
            }
        } else {
            false
        };
        proof {
            assert(has_blob == blob_case(m0));
        }
        let mut pending_blob: Option<(String, Value)> = None;
        if has_blob {
            let path = self.blob_path(collection, id.as_str());
            let p_taken = match obj_remove(&mut doc, &pl_key) {
                Some(v) => v,
                None => {
                    proof {
                        assert(false);
                    }
                    Value::Null
                },
            };
            let mut p = match p_taken {
                Value::Obj(p) => p,
                _ => {
                    proof {
                        assert(false);
                    }
                    Vec::new()
                },
            };
            let ghost p0m = jfields_of(p@);
            proof {
                assert(jget(m0, "payload"@) == Some(JVal::Obj(p0m)));
            }
            let blob = match obj_remove(&mut p, &blob_key) {
                Some(b) => b,
                None => {
                    proof {
                        assert(false);
                    }
                    Value::Null
                },
            };
            let ghost blobm = blob@;
            obj_set(&mut p, "blobRef".to_owned(), Value::Str(path.clone()));
            let ghost p1m = jfields_of(p@);
            obj_set(&mut doc, "payload".to_owned(), Value::Obj(p));
            proof {
                reveal_strlit("blob");
                reveal_strlit("blobRef");
                assert("blob"@.len() == 4 && "blobRef"@.len() == 7);
                assert("blob"@ != "blobRef"@);
                assert(jget(p1m, "blob"@) is None);
                assert(jget(p1m, "blobRef"@) == Some(JVal::Str(path@)));
                assert(jget(jfields_of(doc@), "payload"@) == Some(JVal::Obj(p1m)));
                assert(jget(p0m, "blob"@) == Some(blobm));
            }
            pending_blob = Some((path, blob));
        }
        let ghost mb = jfields_of(doc@);
        // at-rest encryption for sensitive collections
        let ghost mgr0 = self.spec_manager();
        if self.is_encrypted_collection(collection) {
            let master = self.encryption_mgr.get_master_key();
            let mk = match master {
                Some(mk) => mk,
                None => {
                    return Err(DbError::Crypto("no master key set for encryption".to_owned()));
                },
            };
            let is_obj_payload = match obj_get(&doc, &pl_key) {
                Some(v) => match v {
                    Value::Obj(_) => true,
                    _ => false,
                },
                None => false,
            };
            if is_obj_payload {
                let p_taken = match obj_remove(&mut doc, &pl_key) {
                    Some(v) => v,
                    None => {
                        proof {
                            assert(false);
                        }
                        Value::Null
                    },
                };
                let p = match p_taken {
                    Value::Obj(p) => p,
                    _ => {
                        proof {
                            assert(false);
                        }
                        Vec::new()
                    },
                };
                let ghost psm = jfields_of(p@);
                let ep = match self.encrypt_payload(collection, &p, &mk.id) {
                    Ok(ep) => ep,
                    Err(e) => {
                        return Err(e);
                    },
                };
                let ghost epm = jfields_of(ep@);
                obj_set(&mut doc, "payload".to_owned(), Value::Obj(ep));
                obj_set(&mut doc, "encrypted".to_owned(), Value::Bool(true));
                obj_set(&mut doc, "encryption_key_id".to_owned(), Value::Str(mk.id.clone()));
                proof {
                    reveal_strlit("payload");
                    reveal_strlit("encrypted");
                    reveal_strlit("encryption_key_id");
                    assert("payload"@.len() == 7 && "encrypted"@.len() == 9
                        && "encryption_key_id"@.len() == 17);
                    assert(jget(jfields_of(doc@), "payload"@) == Some(JVal::Obj(epm)));
                    assert(jget(jfields_of(doc@), "encrypted"@) == Some(JVal::Bool(true)));
                    assert(jget(jfields_of(doc@), "encryption_key_id"@) == Some(
                        JVal::Str(mk.id@),
                    ));
                    assert(encrypted_payload_ok(mgr0, collection@, mk.id@, psm, epm));
                }
            }
        }
        // commit
        match pending_blob {
            Some((path, blob)) => {
                self.put_blob(path, blob);
            },
            None => {},
        }
        self.put_doc(collection, id.as_str(), doc);
        Ok(())
    }

    /// Rebuilds the in-memory form of an at-rest payload: marked fields are
    /// decrypted and decoded, unmarked fields pass through, and sentinel
    /// names are dropped.
    fn decrypt_payload(&self, payload: &Vec<(String, Value)>) -> (r: Result<
        Vec<(String, Value)>,
        DbError,
    >)
        requires
            jkeys_distinct(jfields_of(payload@)),
        ensures
            r matches Ok(dp) ==> decrypted_payload_ok(
                self.spec_manager(),
                jfields_of(payload@),
                jfields_of(dp@),
            ),
    {
        proof {
            use_type_invariant(&*self);
        }
        let ghost pm = jfields_of(payload@);
        proof {
            lemma_jfields_index(payload@);
        }
        let mut dp: Vec<(String, Value)> = Vec::new();
        let mut t: usize = 0;
        while t < payload.len()
            invariant
                t <= payload@.len(),
                jkeys_distinct(pm),
                pm == jfields_of(payload@),
                pm.len() == payload@.len(),
                forall|u: int|
                    0 <= u < pm.len() ==> #[trigger] pm[u] == (
                        payload@[u].0@,
                        crate::value::jval_of(payload@[u].1),
                    ),
                jkeys_distinct(jfields_of(dp@)),
                forall|u: int|
                    0 <= u < t && !is_sentinel_name(#[trigger] pm[u].0) && jget(
                        pm,
                        pm[u].0 + "_encrypted"@,
                    ) == Some(JVal::Bool(true)) && pm[u].1 is Str ==> (jget(
                        jfields_of(dp@),
                        pm[u].0,
                    ) matches Some(w) && exists|bytes: Seq<u8>|
                        crate::crypto::decrypts_under(
                            self.spec_manager(),
                            pm[u].1->Str_0,
                            bytes,
                        ) && crate::codec::enc_jval(w) == bytes),
                forall|u: int|
                    0 <= u < t && !is_sentinel_name(#[trigger] pm[u].0) && jget(
                        pm,
                        pm[u].0 + "_encrypted"@,
                    ) != Some(JVal::Bool(true)) ==> jget(jfields_of(dp@), pm[u].0) == Some(
                        pm[u].1,
                    ),
                forall|g: Seq<char>|
                    (forall|u: int|
                        0 <= u < t ==> (#[trigger] pm[u].0 != g || is_sentinel_name(pm[u].0) || (
                        jget(pm, pm[u].0 + "_encrypted"@) == Some(JVal::Bool(true)) && !(pm[u].1
                            is Str)))) ==> #[trigger] jget(jfields_of(dp@), g) is None,
            decreases payload@.len() - t,
        {
            let ghost tt = t as int;
            let ghost dp0 = jfields_of(dp@);
            let g = payload[t].0.clone();
            if is_sentinel_key(g.as_str()) {
                proof {
                    assert(jfields_of(dp@) == dp0);
                }
            } else {
                let sentinel = g.clone().concat("_encrypted");
                let marked = match obj_get(payload, &sentinel) {
                    Some(w) => w.is_true(),
                    None => false,
                };
                if marked {
                    match &payload[t].1 {
                        Value::Str(env) => {
                            let bytes = match self.encryption_mgr.decrypt_data(env.as_str()) {
                                Ok(b) => b,
                                Err(e) => {
                                    return Err(e);
                                },
                            };
                            let ghost bytesm = bytes@;
                            let w = match crate::codec::decode_value_bytes(bytes.as_slice()) {
                                Some(w) => w,
                                None => {
                                    return Err(
                                        DbError::Crypto("malformed plaintext".to_owned()),
                                    );
                                },
                            };
                            let ghost wm = w@;
                            obj_set(&mut dp, g, w);
                            proof {
                                assert(jget(jfields_of(dp@), pm[tt].0) == Some(wm));
                                assert(crate::crypto::decrypts_under(
                                    self.spec_manager(),
                                    pm[tt].1->Str_0,
                                    bytesm,
                                ));
                                assert(crate::codec::enc_jval(wm) == bytesm);
                            }
                        },
                        _ => {
                            proof {
                                assert(jfields_of(dp@) == dp0);
                            }
                        },
                    }
                } else {
                    let c = payload[t].1.deep_copy();
                    obj_set(&mut dp, g, c);
                    proof {
                        assert(jget(jfields_of(dp@), pm[tt].0) == Some(pm[tt].1));
                    }
                }
            }
            proof {
                let dp2 = jfields_of(dp@);
                assert forall|u: int|
                    0 <= u < tt + 1 && !is_sentinel_name(#[trigger] pm[u].0) && jget(
                        pm,
                        pm[u].0 + "_encrypted"@,
                    ) == Some(JVal::Bool(true)) && pm[u].1 is Str implies (jget(dp2, pm[u].0)
                    matches Some(w) && exists|bytes: Seq<u8>|
                        crate::crypto::decrypts_under(
                            self.spec_manager(),
                            pm[u].1->Str_0,
                            bytes,
                        ) && crate::codec::enc_jval(w) == bytes) by {
                    if u < tt {
                        assert(pm[u].0 != pm[tt].0);
                        assert(jget(dp2, pm[u].0) == jget(dp0, pm[u].0));
                    }
                }
                assert forall|u: int|
                    0 <= u < tt + 1 && !is_sentinel_name(#[trigger] pm[u].0) && jget(
                        pm,
                        pm[u].0 + "_encrypted"@,
                    ) != Some(JVal::Bool(true)) implies jget(dp2, pm[u].0) == Some(pm[u].1) by {
                    if u < tt {
                        assert(pm[u].0 != pm[tt].0);
                        assert(jget(dp2, pm[u].0) == jget(dp0, pm[u].0));
                    }
                }
                assert forall|g2: Seq<char>|
                    (forall|u: int|
                        0 <= u < tt + 1 ==> (#[trigger] pm[u].0 != g2 || is_sentinel_name(
                            pm[u].0,
                        ) || (jget(pm, pm[u].0 + "_encrypted"@) == Some(JVal::Bool(true)) && !(
                        pm[u].1 is Str)))) implies #[trigger] jget(dp2, g2) is None by {
                    assert(pm[tt].0 != g2 || is_sentinel_name(pm[tt].0) || (jget(
                        pm,
                        pm[tt].0 + "_encrypted"@,
                    ) == Some(JVal::Bool(true)) && !(pm[tt].1 is Str)));
                    assert(jget(dp2, g2) == jget(dp0, g2));
                    assert(forall|u: int|
                        0 <= u < tt ==> (#[trigger] pm[u].0 != g2 || is_sentinel_name(pm[u].0)
                            || (jget(pm, pm[u].0 + "_encrypted"@) == Some(JVal::Bool(true)) && !(
                        pm[u].1 is Str))));
                }
            }
            t = t + 1;
        }
        proof {
            let p1 = jfields_of(dp@);
            assert forall|g: Seq<char>|
                (!is_sentinel_name(g) && jget(pm, g + "_encrypted"@) == Some(JVal::Bool(true))
                    && jget(pm, g) is Some && jget(pm, g)->Some_0 is Str) implies (#[trigger] jget(
                p1,
                g,
            ) matches Some(w) && exists|bytes: Seq<u8>|
                crate::crypto::decrypts_under(self.spec_manager(), jget(pm, g)->Some_0->Str_0, bytes)
                    && crate::codec::enc_jval(w) == bytes) by {
                let u = choose|u: int| 0 <= u < pm.len() && pm[u].0 == g;
                lemma_jget_at(pm, u);
            }
            assert forall|g: Seq<char>|
                (!is_sentinel_name(g) && jget(pm, g + "_encrypted"@) != Some(JVal::Bool(true)))
                implies #[trigger] jget(p1, g) == jget(pm, g) by {
                if jhas(pm, g) {
                    let u = choose|u: int| 0 <= u < pm.len() && pm[u].0 == g;
                    lemma_jget_at(pm, u);
                } else {
                    assert(forall|u: int|
                        0 <= u < pm.len() ==> (#[trigger] pm[u].0 != g || is_sentinel_name(
                            pm[u].0,
                        ) || (jget(pm, pm[u].0 + "_encrypted"@) == Some(JVal::Bool(true)) && !(
                        pm[u].1 is Str))));
                }
            }
            assert forall|g: Seq<char>| is_sentinel_name(g) implies #[trigger] jget(p1, g)
                is None by {
                assert(forall|u: int|
                    0 <= u < pm.len() ==> (#[trigger] pm[u].0 != g || is_sentinel_name(
                        pm[u].0,
                    ) || (jget(pm, pm[u].0 + "_encrypted"@) == Some(JVal::Bool(true)) && !(pm[u].1
                        is Str))));
            }
        }
        Ok(dp)
    }

    /// Reads document `id` of `collection`: decrypts an encrypted document
    /// and re-inlines an externalized blob. Returns `None` when the
    /// document does not exist.
    pub fn find(&self, collection: &str, id: &str) -> (r: Result<
        Option<Vec<(String, Value)>>,
        DbError,
    >)
        ensures
            (self.stored_doc(collection@, id@) is None) <==> (r matches Ok(d) && d is None),
            self.stored_doc(collection@, id@) matches Some(m) && jget(m, "encrypted"@) != Some(
                JVal::Bool(true),
            ) ==> r is Ok,
            r matches Ok(Some(d)) ==> stored_doc_wf(jfields_of(d@)),
            self.stored_doc(collection@, id@) matches Some(m) ==> (jget(m, "encrypted"@) != Some(
                JVal::Bool(true),
            ) && self.reinline_path(m) is None ==> (r matches Ok(Some(d)) ==> jfields_of(d@)
                == m)),
            self.stored_doc(collection@, id@) matches Some(m) ==> (self.reinline_path(m)
                matches Some(bp) ==> (jget(m, "encrypted"@) != Some(JVal::Bool(true)) ==> (r
                matches Ok(Some(d)) ==> {
                let dm = jfields_of(d@);
                let p0 = payload_obj(m)->Some_0;
                &&& forall|f: Seq<char>|
                    f != "payload"@ ==> #[trigger] jget(dm, f) == jget(m, f)
                &&& payload_obj(dm) matches Some(p1) && {
                    &&& jget(p1, "blob"@) == self.blob_at(bp)
                    &&& jget(p1, "blobRef"@) is None
                    &&& forall|g: Seq<char>|
                        g != "blob"@ && g != "blobRef"@ ==> #[trigger] jget(p1, g) == jget(p0, g)
                }
            }))),
            self.stored_doc(collection@, id@) matches Some(m) ==> (r matches Ok(Some(d))
                ==> read_back_ok(*self, m, jfields_of(d@))),
            self.stored_doc(collection@, id@) matches Some(m) ==> (jget(m, "encrypted"@) == Some(
                JVal::Bool(true),
            ) && jget(m, "entryType"@) != Some(JVal::Str("MEMORY"@)) ==> (r matches Ok(Some(d))
                ==> {
                let dm = jfields_of(d@);
                &&& jget(dm, "encrypted"@) is None
                &&& jget(dm, "encryption_key_id"@) is None
                &&& forall|f: Seq<char>|
                    f != "payload"@ && f != "encrypted"@ && f != "encryption_key_id"@
                        ==> #[trigger] jget(dm, f) == jget(m, f)
                &&& payload_obj(m) matches Some(p) ==> (payload_obj(dm) matches Some(dp)
                    && decrypted_payload_ok(self.spec_manager(), p, dp))
            })),
    {
        proof {
            use_type_invariant(&*self);
            reveal_strlit("blob");
            reveal_strlit("blobRef");
            reveal_strlit("payload");
            reveal_strlit("encrypted");
            reveal_strlit("encryption_key_id");
            reveal_strlit("entryType");
            assert("blob"@.len() == 4 && "blobRef"@.len() == 7 && "payload"@.len() == 7
                && "encrypted"@.len() == 9 && "encryption_key_id"@.len() == 17
                && "entryType"@.len() == 9);
            assert("payload"@[0] == 'p' && "blobRef"@[0] == 'b');
            assert("payload"@ != "blobRef"@);
            assert("encrypted"@[2] == 'c' && "entryType"@[2] == 't');
            assert("encrypted"@ != "entryType"@);
        }
        let ci = match afind(&self.dirs, collection) {
            Some(ci) => ci,
            None => {
                proof {
                    assert(!ahas(amodel(self.dirs@), collection@));
                }
                return Ok(None);
            },
        };
        proof {
            lemma_aget_at(amodel(self.dirs@), ci as int);
        }
        let docs = &self.dirs[ci].1;
        let di = match afind(docs, id) {
            Some(di) => di,
            None => {
                proof {
                    assert(!ahas(amodel(docs@), id@));
                }
                return Ok(None);
            },
        };
        proof {
            lemma_aget_at(amodel(docs@), di as int);
        }
        let ghost m = jfields_of(docs@[di as int].1@);
        proof {
            assert(self.stored_doc(collection@, id@) == Some(m));
            assert(stored_doc_wf(m));
        }
        let mut d = copy_fields(&docs[di].1);
        // decrypt an encrypted document
        let enc_key = "encrypted".to_owned();
        let is_enc = match obj_get(&d, &enc_key) {
            Some(v) => v.is_true(),
            None => false,
        };
        if is_enc {
            let pl_key = "payload".to_owned();
            let is_obj = match obj_get(&d, &pl_key) {
                Some(v) => match v {
                    Value::Obj(_) => true,
                    _ => false,
                },
                None => false,
            };
            if is_obj {
                let p_taken = match obj_remove(&mut d, &pl_key) {
                    Some(v) => v,
                    None => {
                        proof {
                            assert(false);
                        }
                        Value::Null
                    },
                };
                let p = match p_taken {
                    Value::Obj(p) => p,
                    _ => {
                        proof {
                            assert(false);
                        }
                        Vec::new()
                    },
                };
                let dp = match self.decrypt_payload(&p) {
                    Ok(dp) => dp,
                    Err(e) => {
                        return Err(e);
                    },
                };
                obj_set(&mut d, "payload".to_owned(), Value::Obj(dp));
            }
            let _ = obj_remove(&mut d, &enc_key);
            let _ = obj_remove(&mut d, &"encryption_key_id".to_owned());
        }
        // re-inline an externalized blob
        let et_key = "entryType".to_owned();
        let is_memory = match obj_get(&d, &et_key) {
            Some(v) => match v {
                Value::Str(s) => str_eq(s.as_str(), "MEMORY"),
                _ => false,
            },
            None => false,
        };
        if is_memory {
            let pl_key2 = "payload".to_owned();
            let br_key = "blobRef".to_owned();
            let do_inline = match obj_get(&d, &pl_key2) {
                Some(v) => match v {
                    Value::Obj(p) => match obj_get(p, &br_key) {
                        Some(w) => match w {
                            Value::Str(path) => match afind(&self.blobs, path.as_str()) {
                                Some(_) => true,
                                None => false,
                            },
                            _ => false,
                        },
                        None => false,
                    },
                    _ => false,
                },
                None => false,
            };
            if do_inline {
                let p_taken = match obj_remove(&mut d, &pl_key2) {
                    Some(v) => v,
                    None => {
                        proof {
                            assert(false);
                        }
                        Value::Null
                    },
                };
                let mut p = match p_taken {
                    Value::Obj(p) => p,
                    _ => {
                        proof {
                            assert(false);
                        }
                        Vec::new()
                    },
                };
                let path_taken = match obj_remove(&mut p, &br_key) {
                    Some(v) => v,
                    None => {
                        proof {
                            assert(false);
                        }
                        Value::Null
                    },
                };
                let path = match path_taken {
                    Value::Str(path) => path,
                    _ => {
                        proof {
                            assert(false);
                        }
                        String::new()
                    },
                };
                let bi = match afind(&self.blobs, path.as_str()) {
                    Some(bi) => bi,
                    None => {
                        proof {
                            assert(false);
                        }
                        0
                    },
                };
                proof {
                    lemma_aget_at(amodel(self.blobs@), bi as int);
                }
                let b = self.blobs[bi].1.deep_copy();
                obj_set(&mut p, "blob".to_owned(), b);
                obj_set(&mut d, "payload".to_owned(), Value::Obj(p));
            }
        }
        Ok(Some(d))
    }

    /// Applies `patch` over the top-level fields of document `id` and
    /// re-stores the result. Fails with a not-found error when the
    /// document does not exist.
    pub fn update(&mut self, collection: &str, id: &str, patch: Vec<(String, Value)>) -> (r:
        Result<(), DbError>)
        requires
            stored_doc_wf(jfields_of(patch@)),
        ensures
            (old(self).stored_doc(collection@, id@) is None) <==> (r matches Err(e) && e
                is NotFound),
            r matches Err(_) ==> *final(self) == *old(self),
            r is Ok ==> (final(self).spec_base() == old(self).spec_base()
                && final(self).spec_manager() == old(self).spec_manager()),
            old(self).stored_doc(collection@, id@) matches Some(m) ==> (jget(m, "encrypted"@)
                != Some(JVal::Bool(true)) && old(self).reinline_path(m) is None
                && !sensitive_collection(collection@) && doc_id_of(m) == Some(id@) && !jhas(
                jfields_of(patch@),
                "id"@,
            ) ==> r is Ok),
            old(self).stored_doc(collection@, id@) matches Some(m) ==> (jget(m, "encrypted"@)
                != Some(JVal::Bool(true)) && old(self).reinline_path(m) is None
                && !sensitive_collection(collection@) && !merged_blob_case(
                jfields_of(patch@),
                m,
            ) && doc_id_of(m) == Some(id@) && !jhas(jfields_of(patch@), "id"@) ==> (r
                matches Ok(u)
                ==> (final(self).stored_doc(collection@, id@) matches Some(m1) && (forall|
                f: Seq<char>,
            |
                #[trigger] jget(m1, f) == merged_field(jfields_of(patch@), m, f))))),
            r is Ok ==> (forall|c2: Seq<char>, i2: Seq<char>|
                c2 != collection@ ==> #[trigger] final(self).stored_doc(c2, i2) == old(
                    self,
                ).stored_doc(c2, i2)),
            old(self).stored_doc(collection@, id@) matches Some(m) ==> (jget(m, "encrypted"@)
                != Some(JVal::Bool(true)) && old(self).reinline_path(m) is None && doc_id_of(m)
                == Some(id@) && !jhas(jfields_of(patch@), "id"@) ==> (r is Ok ==> (forall|
                i2: Seq<char>,
            |
                i2 != id@ ==> #[trigger] final(self).stored_doc(collection@, i2) == old(
                    self,
                ).stored_doc(collection@, i2)))),
    {
        proof {
            use_type_invariant(&*self);
        }
        let found = match self.find(collection, id) {
            Ok(Some(d)) => d,
            Ok(None) => {
                return Err(DbError::NotFound("document not found".to_owned()));
            },
            Err(e) => {
                return Err(
                    match e {
                        DbError::NotFound(s) => DbError::Crypto(s),
                        other => other,
                    },
                );
            },
        };
        let ghost fm = jfields_of(found@);
        let ghost pm = jfields_of(patch@);
        proof {
            lemma_jfields_index(patch@);
        }
        let mut merged = found;
        let mut t: usize = 0;
        while t < patch.len()
            invariant
                t <= patch@.len(),
                pm == jfields_of(patch@),
                pm.len() == patch@.len(),
                forall|u: int|
                    0 <= u < pm.len() ==> #[trigger] pm[u] == (
                        patch@[u].0@,
                        crate::value::jval_of(patch@[u].1),
                    ),
                jkeys_distinct(pm),
                jkeys_distinct(jfields_of(merged@)),
                stored_doc_wf(fm),
                forall|f: Seq<char>| #[trigger] jget(jfields_of(merged@), f) == if (exists|u: int|
                    0 <= u < t && pm[u].0 == f) {
                    jget(pm, f)
                } else {
                    jget(fm, f)
                },
            decreases patch@.len() - t,
        {
            let ghost tt = t as int;
            let ghost mg0 = jfields_of(merged@);
            let k = patch[t].0.clone();
            let v = patch[t].1.deep_copy();
            obj_set(&mut merged, k, v);
            proof {
                lemma_jget_at(pm, tt);
                assert forall|f: Seq<char>| true implies #[trigger] jget(jfields_of(merged@), f)
                    == if (exists|u: int| 0 <= u < tt + 1 && pm[u].0 == f) {
                    jget(pm, f)
                } else {
                    jget(fm, f)
                } by {
                    if f == pm[tt].0 {
                        assert(0 <= tt < tt + 1 && pm[tt].0 == f);
                    } else {
                        assert(jget(jfields_of(merged@), f) == jget(mg0, f));
                        assert((exists|u: int| 0 <= u < tt + 1 && pm[u].0 == f) <==> (exists|
                            u: int,
                        | 0 <= u < tt && pm[u].0 == f));
                    }
                }
            }
            t = t + 1;
        }
        let ghost mm = jfields_of(merged@);
        proof {
            assert forall|f: Seq<char>| true implies #[trigger] jget(mm, f) == if jhas(pm, f) {
                jget(pm, f)
            } else {
                jget(fm, f)
            } by {
                if jhas(pm, f) {
                    let u = choose|u: int| 0 <= u < pm.len() && pm[u].0 == f;
                    assert(0 <= u < t && pm[u].0 == f);
                }
            }
            // the merged document keeps a well-formed payload
            assert(stored_doc_wf(mm)) by {
                reveal_strlit("payload");
                match jget(mm, "payload"@) {
                    Some(JVal::Obj(mp)) => {
                        if jhas(pm, "payload"@) {
                            assert(jget(pm, "payload"@) == Some(JVal::Obj(mp)));
                        } else {
                            assert(jget(fm, "payload"@) == Some(JVal::Obj(mp)));
                        }
                    },
                    _ => {},
                }
            }
        }
        let ghost st0 = *self;
        let res = self.insert(collection, merged);
        match res {
            Ok(u) => {
                proof {
                    reveal_strlit("id");
                    reveal_strlit("entryType");
                    match old(self).stored_doc(collection@, id@) {
                        Some(m) => {
                            if jget(m, "encrypted"@) != Some(JVal::Bool(true)) && old(
                                self,
                            ).reinline_path(m) is None && !sensitive_collection(collection@)
                                && jget(m, "entryType"@) != Some(JVal::Str("MEMORY"@)) && !jhas(
                                pm,
                                "entryType"@,
                            ) && doc_id_of(m) == Some(id@) && !jhas(pm, "id"@) {
                                assert(fm == m);
                                assert(jget(mm, "entryType"@) == jget(m, "entryType"@));
                                assert(!blob_case(mm));
                                assert(jget(mm, "id"@) == jget(m, "id"@));
                                assert(doc_id_of(mm) == Some(id@));
                                assert(self.stored_doc(collection@, id@) == Some(mm));
                            }
                        },
                        None => {},
                    }
                }
                Ok(u)
            },
            Err(e) => Err(
                match e {
                    DbError::NotFound(s) => DbError::Crypto(s),
                    other => other,
                },
            ),
        }
    }

    /// Reads every document of `collection` that `find` would return,
    /// skipping documents that cannot be read.
    #[verifier::rlimit(100)]
    pub fn find_all(&self, collection: &str) -> (r: Result<Vec<Vec<(String, Value)>>, DbError>)
        ensures
            r is Ok,
            !self.has_collection(collection@) ==> (r matches Ok(v) && v@.len() == 0),
            r matches Ok(v) ==> forall|j: int|
                0 <= j < v@.len() ==> stored_doc_wf(jfields_of((#[trigger] v@[j])@)),
            r matches Ok(v) ==> (forall|j: int|
                0 <= j < v@.len() ==> from_some_stored(
                    *self,
                    collection@,
                    jfields_of((#[trigger] v@[j])@),
                )),
            r matches Ok(v) ==> (forall|i: int|
                0 <= i < self.collection_ids(collection@).len() ==> (self.stored_doc(
                    collection@,
                    #[trigger] self.collection_ids(collection@)[i],
                ) matches Some(m) ==> (jget(m, "encrypted"@) != Some(JVal::Bool(true))
                    ==> read_back_listed(*self, m, v@)))),
            r matches Ok(v) ==> listed_once(*self, collection@, v@),
    {
        proof {
            use_type_invariant(&*self);
        }
        let mut out: Vec<Vec<(String, Value)>> = Vec::new();
        let ghost mut picks: Seq<int> = Seq::empty();
        let ci = match afind(&self.dirs, collection) {
            Some(ci) => ci,
            None => {
                proof {
                    assert(!ahas(amodel(self.dirs@), collection@));
                    assert(self.collection_ids(collection@).len() == 0);
                    assert(listing_picks(*self, collection@, picks, out@));
                    assert(listed_once(*self, collection@, out@)) by {
                        assert(listing_picks(*self, collection@, picks, out@));
                    }
                }
                return Ok(out);
            },
        };
        proof {
            assert(amodel(self.dirs@)[ci as int].0 == collection@);
            assert(self.has_collection(collection@));
            lemma_aget_at(amodel(self.dirs@), ci as int);
        }
        let docs = &self.dirs[ci].1;
        let ghost ids = self.collection_ids(collection@);
        proof {
            assert(ids.len() == docs@.len());
            assert(forall|i: int| 0 <= i < ids.len() ==> ids[i] == (#[trigger] docs@[i]).0@);
        }
        let mut t: usize = 0;
        while t < docs.len()
            invariant
                t <= docs@.len(),
                forall|j: int|
                    0 <= j < out@.len() ==> stored_doc_wf(jfields_of((#[trigger] out@[j])@)),
                docs == &self.dirs[ci as int].1,
                ci < self.dirs@.len(),
                self.has_collection(collection@),
                ids == self.collection_ids(collection@),
                ids.len() == docs@.len(),
                forall|i: int| 0 <= i < ids.len() ==> ids[i] == (#[trigger] docs@[i]).0@,
                forall|j: int|
                    0 <= j < out@.len() ==> from_some_stored(
                        *self,
                        collection@,
                        jfields_of((#[trigger] out@[j])@),
                    ),
                forall|i: int|
                    0 <= i < t ==> (self.stored_doc(collection@, #[trigger] ids[i])
                        matches Some(m) ==> (jget(m, "encrypted"@) != Some(JVal::Bool(true))
                        ==> read_back_listed(*self, m, out@))),
                picks.len() == out@.len(),
                forall|j: int, k: int| 0 <= j < k < picks.len() ==> picks[j] < picks[k],
                forall|j: int|
                    0 <= j < picks.len() ==> 0 <= #[trigger] picks[j] < t as int && (
                    self.stored_doc(collection@, ids[picks[j]]) matches Some(m) && read_back_ok(
                        *self,
                        m,
                        jfields_of((out@[j])@),
                    )),
            decreases docs@.len() - t,
        {
            let ghost out0 = out@;
            let ghost picks0 = picks;
            let ghost tt = t as int;
            match self.find(collection, docs[t].0.as_str()) {
                Ok(Some(d)) => {
                    let ghost dm = jfields_of(d@);
                    out.push(d);
                    proof {
                        picks = picks.push(tt);
                        assert(out@[out0.len() as int] == out@.last());
                        assert(forall|j: int| 0 <= j < out0.len() ==> out@[j] == out0[j]);
                        assert(forall|j: int| 0 <= j < picks0.len() ==> picks[j] == picks0[j]);
                        assert(picks[picks0.len() as int] == tt);
                        assert(ids[tt] == docs@[tt].0@);
                        assert(self.stored_doc(collection@, ids[tt]) is Some);
                        assert(from_some_stored(*self, collection@, dm)) by {
                            assert(0 <= tt < ids.len() && (self.stored_doc(
                                collection@,
                                ids[tt],
                            ) matches Some(m) && read_back_ok(*self, m, dm)));
                        }
                    }
                },
                Ok(None) => {},
                Err(_) => {},
            }
            proof {
                assert forall|j: int|
                    0 <= j < picks.len() implies 0 <= #[trigger] picks[j] < tt + 1 && (
                    self.stored_doc(collection@, ids[picks[j]]) matches Some(m) && read_back_ok(
                        *self,
                        m,
                        jfields_of((out@[j])@),
                    )) by {
                    if j < picks0.len() {
                        assert(picks[j] == picks0[j]);
                        assert(out@[j] == out0[j]);
                    }
                }
                assert forall|j: int| #![trigger out@[j]]
                    0 <= j < out@.len() implies from_some_stored(
                    *self,
                    collection@,
                    jfields_of((out@[j])@),
                ) by {
                    if j < out0.len() {
                        assert(out@[j] == out0[j]);
                    }
                }
                assert forall|i: int| #![trigger ids[i]]
                    0 <= i < tt + 1 implies (self.stored_doc(collection@, ids[i])
                    matches Some(m) ==> (jget(m, "encrypted"@) != Some(JVal::Bool(true))
                    ==> read_back_listed(*self, m, out@))) by {
                    match self.stored_doc(collection@, ids[i]) {
                        Some(m) => {
                            if jget(m, "encrypted"@) != Some(JVal::Bool(true)) {
                                if i < tt {
                                    if read_back_listed(*self, m, out0) {
                                        let j = choose|j: int|
                                            0 <= j < out0.len() && read_back_ok(
                                                *self,
                                                m,
                                                jfields_of((#[trigger] out0[j])@),
                                            );
                                        assert(out@[j] == out0[j]);
                                        assert(read_back_ok(
                                            *self,
                                            m,
                                            jfields_of((out@[j])@),
                                        ));
                                        assert(read_back_listed(*self, m, out@));
                                    }
                                } else {
                                    assert(ids[tt] == docs@[tt].0@);
                                    assert(out@[out0.len() as int] == out@.last());
                                    assert(read_back_ok(
                                        *self,
                                        m,
                                        jfields_of((out@[out0.len() as int])@),
                                    ));
                                    assert(read_back_listed(*self, m, out@));
                                }
                            }
                        },
                        None => {},
                    }
                }
            }
            t = t + 1;
        }
        proof {
            assert(listing_picks(*self, collection@, picks, out@));
            assert(listed_once(*self, collection@, out@)) by {
                assert(listing_picks(*self, collection@, picks, out@));
            }
        }
        Ok(out)
    }

    /// The raw on-disk form of a document, without decryption or blob
    /// re-inlining.
    pub fn read_stored(&self, collection: &str, id: &str) -> (r: Option<Vec<(String, Value)>>)
        ensures
            match r {
                Some(d) => self.stored_doc(collection@, id@) == Some(jfields_of(d@)),
                None => self.stored_doc(collection@, id@) is None,
            },
    {
        proof {
            use_type_invariant(&*self);
        }
        let ci = match afind(&self.dirs, collection) {
            Some(ci) => ci,
            None => {
                proof {
                    assert(!ahas(amodel(self.dirs@), collection@));
                }
                return None;
            },
        };
        proof {
            lemma_aget_at(amodel(self.dirs@), ci as int);
        }
        let docs = &self.dirs[ci].1;
        let di = match afind(docs, id) {
            Some(di) => di,
            None => {
                proof {
                    assert(!ahas(amodel(docs@), id@));
                }
                return None;
            },
        };
        proof {
            lemma_aget_at(amodel(docs@), di as int);
        }
        Some(copy_fields(&docs[di].1))
    }

    /// The blob stored at `path`, if any.
    pub fn get_blob(&self, path: &str) -> (r: Option<Value>)
        ensures
            match r {
                Some(b) => self.blob_at(path@) == Some(b@),
                None => self.blob_at(path@) is None,
            },
    {
        proof {
            use_type_invariant(&*self);
        }
        match afind(&self.blobs, path) {
            Some(bi) => {
                proof {
                    lemma_aget_at(amodel(self.blobs@), bi as int);
                }
                Some(self.blobs[bi].1.deep_copy())
            },
            None => {
                proof {
                    assert(!ahas(amodel(self.blobs@), path@));
                }
                None
            },
        }
    }

    /// The full path of the blob belonging to document `id` of
    /// `collection`, as it stands on disk.
    pub fn blob_path_for(&self, collection: &str, id: &str) -> (r: String)
        ensures
            r@ == blob_path_of(self.spec_base(), collection@, id@),
    {
        self.blob_path(collection, id)
    }
}

} // verus!







