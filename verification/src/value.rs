//! Self-describing document values and their mathematical model.
//!
//! A document is a JSON-like object: a list of named fields with distinct
//! names. Executable values are modelled in specifications by [`JVal`],
//! where strings become character sequences and collections become `Seq`s.

use vstd::prelude::*;
use vstd::utf8::encode_utf8;

verus! {

/// A JSON-compatible value carried in document payloads.
#[derive(Debug, PartialEq)]
pub enum Value {
    Null,
    Bool(bool),
    Int(i64),
    Str(String),
    Arr(Vec<Value>),
    Obj(Vec<(String, Value)>),
}

/// Mathematical model of a [`Value`].
pub enum JVal {
    Null,
    Bool(bool),
    Int(i64),
    Str(Seq<char>),
    Arr(Seq<JVal>),
    Obj(Seq<(Seq<char>, JVal)>),
}

/// Model of a value: strings as character sequences, collections as `Seq`s.
pub open spec fn jval_of(v: Value) -> JVal
    decreases v,
{
    match v {
        Value::Null => JVal::Null,
        Value::Bool(b) => JVal::Bool(b),
        Value::Int(i) => JVal::Int(i),
        Value::Str(s) => JVal::Str(s@),
        Value::Arr(items) => JVal::Arr(jlist_of(items@)),
        Value::Obj(fields) => JVal::Obj(jfields_of(fields@)),
    }
}

/// Model of a sequence of values.
pub open spec fn jlist_of(s: Seq<Value>) -> Seq<JVal>
    decreases s,
{
    if s.len() == 0 {
        Seq::empty()
    } else {
        seq![jval_of(s[0])] + jlist_of(s.drop_first())
    }
}

/// Model of a field list.
pub open spec fn jfields_of(s: Seq<(String, Value)>) -> Seq<(Seq<char>, JVal)>
    decreases s,
{
    if s.len() == 0 {
        Seq::empty()
    } else {
        seq![(s[0].0@, jval_of(s[0].1))] + jfields_of(s.drop_first())
    }
}

impl View for Value {
    type V = JVal;

    open spec fn view(&self) -> JVal {
        jval_of(*self)
    }
}

/// The model of a value list has one model entry per value.
pub proof fn lemma_jlist_index(s: Seq<Value>)
    ensures
        jlist_of(s).len() == s.len(),
        forall|i: int| 0 <= i < s.len() ==> #[trigger] jlist_of(s)[i] == jval_of(s[i]),
    decreases s.len(),
{
    if s.len() > 0 {
        lemma_jlist_index(s.drop_first());
        assert forall|i: int| 0 <= i < s.len() implies #[trigger] jlist_of(s)[i] == jval_of(
            s[i],
        ) by {
            if i > 0 {
                assert(jlist_of(s)[i] == jlist_of(s.drop_first())[i - 1]);
                assert(s.drop_first()[i - 1] == s[i]);
            }
        }
    }
}

/// The model of a field list has one model entry per field.
pub proof fn lemma_jfields_index(s: Seq<(String, Value)>)
    ensures
        jfields_of(s).len() == s.len(),
        forall|i: int| 0 <= i < s.len() ==> #[trigger] jfields_of(s)[i] == (
            s[i].0@,
            jval_of(s[i].1),
        ),
    decreases s.len(),
{
    if s.len() > 0 {
        lemma_jfields_index(s.drop_first());
        assert forall|i: int| 0 <= i < s.len() implies #[trigger] jfields_of(s)[i] == (
            s[i].0@,
            jval_of(s[i].1),
        ) by {
            if i > 0 {
                assert(jfields_of(s)[i] == jfields_of(s.drop_first())[i - 1]);
                assert(s.drop_first()[i - 1] == s[i]);
            }
        }
    }
}

/// The names of a model field list are pairwise distinct.
pub open spec fn jkeys_distinct(s: Seq<(Seq<char>, JVal)>) -> bool {
    forall|i: int, j: int| 0 <= i < j < s.len() ==> s[i].0 != s[j].0
}

/// Whether a model field list carries field `k`.
pub open spec fn jhas(s: Seq<(Seq<char>, JVal)>, k: Seq<char>) -> bool {
    exists|i: int| 0 <= i < s.len() && s[i].0 == k
}

/// Value of field `k` in a model field list, when it is present.
pub open spec fn jget(s: Seq<(Seq<char>, JVal)>, k: Seq<char>) -> Option<JVal> {
    if jhas(s, k) {
        Some(s[choose|i: int| 0 <= i < s.len() && s[i].0 == k].1)
    } else {
        None
    }
}

/// With distinct names, the entry that holds `k` gives the field value.
pub proof fn lemma_jget_at(s: Seq<(Seq<char>, JVal)>, i: int)
    requires
        jkeys_distinct(s),
        0 <= i < s.len(),
    ensures
        jget(s, s[i].0) == Some(s[i].1),
{
    let k = s[i].0;
    assert(0 <= i < s.len() && s[i].0 == k);
    let j = choose|j: int| 0 <= j < s.len() && s[j].0 == k;
    if i < j {
        assert(s[i].0 != s[j].0);
    } else if j < i {
        assert(s[j].0 != s[i].0);
    }
}

/// Appending a fresh field leaves every other field as it was.
pub proof fn lemma_jget_push(s: Seq<(Seq<char>, JVal)>, k: Seq<char>, v: JVal, p: Seq<char>)
    requires
        jkeys_distinct(s),
        !jhas(s, k),
    ensures
        jkeys_distinct(s.push((k, v))),
        jget(s.push((k, v)), p) == if p == k {
            Some(v)
        } else {
            jget(s, p)
        },
{
    let t = s.push((k, v));
    assert(forall|i: int| 0 <= i < s.len() ==> t[i] == s[i]);
    assert(t[s.len() as int] == (k, v));
    assert(forall|i: int| 0 <= i < s.len() ==> s[i].0 != k);
    if p == k {
        lemma_jget_at(t, s.len() as int);
    } else {
        if jhas(s, p) {
            let i = choose|i: int| 0 <= i < s.len() && s[i].0 == p;
            lemma_jget_at(s, i);
            lemma_jget_at(t, i);
        } else {
            assert(forall|i: int| 0 <= i < t.len() ==> t[i].0 != p);
        }
    }
}

/// Replacing the value of an existing field changes only that field.
pub proof fn lemma_jget_update(s: Seq<(Seq<char>, JVal)>, i: int, v: JVal, p: Seq<char>)
    requires
        jkeys_distinct(s),
        0 <= i < s.len(),
    ensures
        jkeys_distinct(s.update(i, (s[i].0, v))),
        jget(s.update(i, (s[i].0, v)), p) == if p == s[i].0 {
            Some(v)
        } else {
            jget(s, p)
        },
{
    let t = s.update(i, (s[i].0, v));
    assert(t[i] == (s[i].0, v));
    assert(forall|j: int| 0 <= j < s.len() && j != i ==> t[j] == s[j]);
    assert(jkeys_distinct(t));
    if p == s[i].0 {
        lemma_jget_at(t, i);
    } else {
        if jhas(s, p) {
            let j = choose|j: int| 0 <= j < s.len() && s[j].0 == p;
            lemma_jget_at(s, j);
            lemma_jget_at(t, j);
        } else {
            assert(forall|j: int| 0 <= j < t.len() ==> t[j].0 != p);
        }
    }
}

/// Removing the entry at `i` drops that field and keeps every other.
pub proof fn lemma_jget_remove(s: Seq<(Seq<char>, JVal)>, i: int, p: Seq<char>)
    requires
        jkeys_distinct(s),
        0 <= i < s.len(),
    ensures
        jkeys_distinct(s.remove(i)),
        jget(s.remove(i), p) == if p == s[i].0 {
            None::<JVal>
        } else {
            jget(s, p)
        },
{
    let t = s.remove(i);
    assert(forall|j: int| 0 <= j < i ==> t[j] == s[j]);
    assert(forall|j: int| i <= j < t.len() ==> t[j] == s[j + 1]);
    assert(jkeys_distinct(t));
    if p == s[i].0 {
        assert(forall|j: int| 0 <= j < t.len() ==> t[j].0 != p);
    } else {
        if jhas(s, p) {
            let j = choose|j: int| 0 <= j < s.len() && s[j].0 == p;
            lemma_jget_at(s, j);
            if j < i {
                lemma_jget_at(t, j);
            } else {
                assert(t[j - 1] == s[j]);
                lemma_jget_at(t, j - 1);
            }
        } else {
            assert(forall|j: int| 0 <= j < t.len() ==> t[j].0 != p);
        }
    }
}

impl Value {
    /// Returns a copy with the same model.
    #[verifier::loop_isolation(false)]
    pub fn deep_copy(&self) -> (r: Value)
        ensures
            r@ == self@,
        decreases self,
    {
        match self {
            Value::Null => Value::Null,
            Value::Bool(b) => Value::Bool(*b),
            Value::Int(i) => Value::Int(*i),
            Value::Str(s) => Value::Str(s.clone()),
            Value::Arr(items) => {
                let mut out: Vec<Value> = Vec::new();
                let mut i: usize = 0;
                proof {
                    lemma_jlist_index(items@);
                }
                while i < items.len()
                    invariant
                        i <= items@.len(),
                        jlist_of(out@).len() == i,
                        forall|j: int|
                            0 <= j < i ==> #[trigger] jlist_of(out@)[j] == jlist_of(items@)[j],
                        jlist_of(items@).len() == items@.len(),
                        forall|j: int|
                            0 <= j < items@.len() ==> #[trigger] jlist_of(items@)[j] == jval_of(
                                items@[j],
                            ),
                    decreases items@.len() - i,
                {
                    let ghost out0 = out@;
                    proof {
                        assert(decreases_to!(*self => self->Arr_0));
                        assert(self->Arr_0 == *items);
                        assert(decreases_to!(*items => items@));
                        assert(decreases_to!(items@ => items@[i as int]));
                        assert(decreases_to!(*self => items@[i as int]));
                    }
                    let c = items[i].deep_copy();
                    let ghost cm = c@;
                    out.push(c);
                    proof {
                        lemma_jlist_index(out@);
                        lemma_jlist_index(out0);
                        assert forall|j: int|
                            0 <= j < i + 1 implies #[trigger] jlist_of(out@)[j] == jlist_of(
                            items@,
                        )[j] by {
                            if j < i {
                                assert(out@[j] == out0[j]);
                                assert(jlist_of(out0)[j] == jlist_of(items@)[j]);
                            } else {
                                assert(out@[j] == out@.last());
                                assert(jval_of(out@[j]) == cm);
                            }
                        }
                    }
                    i = i + 1;
                }
                proof {
                    assert(jlist_of(out@) =~= jlist_of(items@));
                }
                Value::Arr(out)
            },
            Value::Obj(fields) => {
                let mut out: Vec<(String, Value)> = Vec::new();
                let mut i: usize = 0;
                proof {
                    lemma_jfields_index(fields@);
                }
                while i < fields.len()
                    invariant
                        i <= fields@.len(),
                        jfields_of(out@).len() == i,
                        forall|j: int|
                            0 <= j < i ==> #[trigger] jfields_of(out@)[j] == jfields_of(fields@)[j],
                        jfields_of(fields@).len() == fields@.len(),
                        forall|j: int|
                            0 <= j < fields@.len() ==> #[trigger] jfields_of(fields@)[j] == (
                                fields@[j].0@,
                                jval_of(fields@[j].1),
                            ),
                    decreases fields@.len() - i,
                {
                    let ghost out0 = out@;
                    let k = fields[i].0.clone();
                    proof {
                        assert(decreases_to!(*self => self->Obj_0));
                        assert(self->Obj_0 == *fields);
                        assert(decreases_to!(*fields => fields@));
                        assert(decreases_to!(fields@ => fields@[i as int]));
                        assert(decreases_to!(fields@[i as int] => fields@[i as int].1));
                        assert(decreases_to!(*self => fields@[i as int].1));
                    }
                    let c = fields[i].1.deep_copy();
                    let ghost cm = c@;
                    out.push((k, c));
                    proof {
                        lemma_jfields_index(out@);
                        lemma_jfields_index(out0);
                        assert forall|j: int|
                            0 <= j < i + 1 implies #[trigger] jfields_of(out@)[j] == jfields_of(
                            fields@,
                        )[j] by {
                            if j < i {
                                assert(out@[j] == out0[j]);
                                assert(jfields_of(out0)[j] == jfields_of(fields@)[j]);
                            } else {
                                assert(out@[j] == out@.last());
                                assert(jval_of(out@[j].1) == cm);
                                assert(out@[j].0@ == fields@[j].0@);
                            }
                        }
                    }
                    i = i + 1;
                }
                proof {
                    assert(jfields_of(out@) =~= jfields_of(fields@));
                }
                Value::Obj(out)
            },
        }
    }

    /// The string this value holds, if it is a string.
    pub fn as_str(&self) -> (r: Option<&String>)
        ensures
            match r {
                Some(s) => self@ == JVal::Str(s@),
                None => !(self@ is Str),
            },
    {
        match self {
            Value::Str(s) => Some(s),
            _ => None,
        }
    }

    /// Whether this value is the boolean `true`.
    pub fn is_true(&self) -> (r: bool)
        ensures
            r == (self@ == JVal::Bool(true)),
    {
        match self {
            Value::Bool(b) => *b,
            _ => false,
        }
    }
}

/// Fields of an executable object, in model form.
pub open spec fn obj_model(o: Seq<(String, Value)>) -> Seq<(Seq<char>, JVal)> {
    jfields_of(o)
}

/// Position of field `k` in an object, if it is present.
pub fn obj_find(o: &Vec<(String, Value)>, k: &String) -> (r: Option<usize>)
    ensures
        match r {
            Some(i) => i < o@.len() && o@[i as int].0@ == k@,
            None => forall|i: int| 0 <= i < o@.len() ==> o@[i].0@ != k@,
        },
{
    let mut i: usize = 0;
    while i < o.len()
        invariant
            i <= o@.len(),
            forall|j: int| 0 <= j < i ==> o@[j].0@ != k@,
        decreases o@.len() - i,
    {
        if o[i].0.eq(k) {
            return Some(i);
        }
        i = i + 1;
    }
    None
}

/// Reads field `k` of an object.
pub fn obj_get<'a>(o: &'a Vec<(String, Value)>, k: &String) -> (r: Option<&'a Value>)
    requires
        jkeys_distinct(obj_model(o@)),
    ensures
        match r {
            Some(v) => jget(obj_model(o@), k@) == Some(v@),
            None => jget(obj_model(o@), k@) is None,
        },
{
    proof {
        lemma_jfields_index(o@);
    }
    match obj_find(o, k) {
        Some(i) => {
            proof {
                lemma_jget_at(obj_model(o@), i as int);
            }
            Some(&o[i].1)
        },
        None => {
            proof {
                assert(forall|i: int|
                    0 <= i < obj_model(o@).len() ==> obj_model(o@)[i].0 != k@);
            }
            None
        },
    }
}

/// Writes field `k` of an object, replacing any earlier value.
pub fn obj_set(o: &mut Vec<(String, Value)>, k: String, v: Value)
    requires
        jkeys_distinct(obj_model(old(o)@)),
    ensures
        jkeys_distinct(obj_model(final(o)@)),
        jget(obj_model(final(o)@), k@) == Some(v@),
        forall|p: Seq<char>| p != k@ ==> #[trigger] jget(obj_model(final(o)@), p) == jget(
            obj_model(old(o)@),
            p,
        ),
{
    proof {
        lemma_jfields_index(old(o)@);
    }
    let ghost m0 = obj_model(o@);
    match obj_find(o, &k) {
        Some(i) => {
            let ghost key0 = m0[i as int].0;
            o[i] = (k, v);
            proof {
                lemma_jfields_index(o@);
                assert(obj_model(o@) =~= m0.update(i as int, (key0, jval_of(v))));
                assert forall|p: Seq<char>| true implies #[trigger] jget(obj_model(o@), p)
                    == if p == key0 { Some(jval_of(v)) } else { jget(m0, p) } by {
                    lemma_jget_update(m0, i as int, jval_of(v), p);
                }
            }
        },
        None => {
            let ghost kk = k@;
            o.push((k, v));
            proof {
                lemma_jfields_index(o@);
                assert(obj_model(o@) =~= m0.push((kk, jval_of(v))));
                assert(!jhas(m0, kk)) by {
                    lemma_jfields_index(old(o)@);
                }
                assert forall|p: Seq<char>| true implies #[trigger] jget(obj_model(o@), p)
                    == if p == kk { Some(jval_of(v)) } else { jget(m0, p) } by {
                    lemma_jget_push(m0, kk, jval_of(v), p);
                }
            }
        },
    }
}

/// Removes field `k` from an object, returning its value when present.
pub fn obj_remove(o: &mut Vec<(String, Value)>, k: &String) -> (r: Option<Value>)
    requires
        jkeys_distinct(obj_model(old(o)@)),
    ensures
        jkeys_distinct(obj_model(final(o)@)),
        jget(obj_model(final(o)@), k@) is None,
        forall|p: Seq<char>| p != k@ ==> #[trigger] jget(obj_model(final(o)@), p) == jget(
            obj_model(old(o)@),
            p,
        ),
        match r {
            Some(v) => jget(obj_model(old(o)@), k@) == Some(v@),
            None => jget(obj_model(old(o)@), k@) is None,
        },
{
    proof {
        lemma_jfields_index(old(o)@);
    }
    let ghost m0 = obj_model(o@);
    match obj_find(o, k) {
        Some(i) => {
            proof {
                lemma_jget_at(m0, i as int);
            }
            let (_, v) = o.remove(i);
            proof {
                lemma_jfields_index(o@);
                assert(obj_model(o@) =~= m0.remove(i as int));
                assert forall|p: Seq<char>| true implies #[trigger] jget(obj_model(o@), p)
                    == if p == m0[i as int].0 { None::<JVal> } else { jget(m0, p) } by {
                    lemma_jget_remove(m0, i as int, p);
                }
            }
            Some(v)
        },
        None => {
            proof {
                assert(forall|i: int| 0 <= i < m0.len() ==> m0[i].0 != k@);
            }
            None
        },
    }
}

/// Compares two string slices; equality of their UTF-8 bytes coincides
/// with equality of their character sequences.
#[verifier::loop_isolation(false)]
pub fn str_eq(a: &str, b: &str) -> (r: bool)
    ensures
        r == (a@ == b@),
{
    let ab = a.as_bytes();
    let bb = b.as_bytes();
    proof {
        vstd::utf8::encode_utf8_decode_utf8(a@);
        vstd::utf8::encode_utf8_decode_utf8(b@);
    }
    if ab.len() != bb.len() {
        return false;
    }
    let mut i: usize = 0;
    while i < ab.len()
        invariant
            i <= ab@.len(),
            forall|j: int| 0 <= j < i ==> ab@[j] == bb@[j],
        decreases ab@.len() - i,
    {
        if ab[i] != bb[i] {
            return false;
        }
        i = i + 1;
    }
    proof {
        assert(ab@ =~= bb@);
    }
    true
}

/// Returns a copy of a field list with the same model.
#[verifier::loop_isolation(false)]
pub fn copy_fields(fields: &Vec<(String, Value)>) -> (r: Vec<(String, Value)>)
    ensures
        jfields_of(r@) == jfields_of(fields@),
{
    let mut out: Vec<(String, Value)> = Vec::new();
    let mut i: usize = 0;
    proof {
        lemma_jfields_index(fields@);
    }
    while i < fields.len()
        invariant
            i <= fields@.len(),
            jfields_of(out@).len() == i,
            forall|j: int| 0 <= j < i ==> #[trigger] jfields_of(out@)[j] == jfields_of(fields@)[j],
    decreases fields@.len() - i,
    {
        let ghost out0 = out@;
        let k = fields[i].0.clone();
        let c = fields[i].1.deep_copy();
        let ghost cm = c@;
        out.push((k, c));
        proof {
            lemma_jfields_index(out@);
            lemma_jfields_index(out0);
            assert forall|j: int|
                0 <= j < i + 1 implies #[trigger] jfields_of(out@)[j] == jfields_of(
                fields@,
            )[j] by {
                if j < i {
                    assert(out@[j] == out0[j]);
                    assert(jfields_of(out0)[j] == jfields_of(fields@)[j]);
                } else {
                    assert(out@[j] == out@.last());
                    assert(jval_of(out@[j].1) == cm);
                    assert(out@[j].0@ == fields@[j].0@);
                }
            }
        }
        i = i + 1;
    }
    proof {
        assert(jfields_of(out@) =~= jfields_of(fields@));
    }
    out
}

/// Returns a copy of a string list with the same view.
pub fn copy_strings(v: &Vec<String>) -> (r: Vec<String>)
    ensures
        r@ == v@,
{
    let mut out: Vec<String> = Vec::new();
    let mut i: usize = 0;
    while i < v.len()
        invariant
            i <= v@.len(),
            out@ =~= v@.subrange(0, i as int),
        decreases v@.len() - i,
    {
        out.push(v[i].clone());
        i = i + 1;
    }
    proof {
        assert(out@ =~= v@);
    }
    out
}

/// Lexicographic order on byte sequences: a strict prefix comes first,
/// otherwise the first differing byte decides.
pub open spec fn bytes_lex_le(a: Seq<u8>, b: Seq<u8>) -> bool
    decreases a.len(),
{
    if a.len() == 0 {
        true
    } else if b.len() == 0 {
        false
    } else if a[0] < b[0] {
        true
    } else if a[0] > b[0] {
        false
    } else {
        bytes_lex_le(a.drop_first(), b.drop_first())
    }
}

/// Dropping an equal head keeps the lexicographic order.
proof fn lemma_lex_skip(a: Seq<u8>, b: Seq<u8>, i: int)
    requires
        0 <= i < a.len() && i < b.len(),
        forall|j: int| 0 <= j <= i ==> a[j] == b[j],
    ensures
        bytes_lex_le(a, b) == bytes_lex_le(a.skip(i + 1), b.skip(i + 1)),
    decreases i,
{
    assert(a.skip(1) =~= a.drop_first());
    assert(b.skip(1) =~= b.drop_first());
    if i == 0 {
    } else {
        assert(forall|j: int|
            0 <= j <= i - 1 ==> a.drop_first()[j] == b.drop_first()[j]) by {
            assert(forall|j: int| 0 <= j <= i - 1 ==> a.drop_first()[j] == a[j + 1]);
            assert(forall|j: int| 0 <= j <= i - 1 ==> b.drop_first()[j] == b[j + 1]);
        }
        lemma_lex_skip(a.drop_first(), b.drop_first(), i - 1);
        assert(a.drop_first().skip(i) =~= a.skip(i + 1));
        assert(b.drop_first().skip(i) =~= b.skip(i + 1));
    }
}

/// Compares two string slices lexicographically by their UTF-8 bytes.
#[verifier::loop_isolation(false)]
pub fn str_lex_le(a: &str, b: &str) -> (r: bool)
    ensures
        r == bytes_lex_le(encode_utf8(a@), encode_utf8(b@)),
{
    let ab = a.as_bytes();
    let bb = b.as_bytes();
    let mut i: usize = 0;
    proof {
        assert(ab@.skip(0) =~= ab@);
        assert(bb@.skip(0) =~= bb@);
    }
    while i < ab.len() && i < bb.len()
        invariant
            i <= ab@.len() && i <= bb@.len(),
            forall|j: int| 0 <= j < i ==> ab@[j] == bb@[j],
            bytes_lex_le(ab@, bb@) == bytes_lex_le(ab@.skip(i as int), bb@.skip(i as int)),
        decreases ab@.len() - i,
    {
        if ab[i] < bb[i] {
            proof {
                assert(ab@.skip(i as int)[0] == ab@[i as int]);
                assert(bb@.skip(i as int)[0] == bb@[i as int]);
            }
            return true;
        }
        if ab[i] > bb[i] {
            proof {
                assert(ab@.skip(i as int)[0] == ab@[i as int]);
                assert(bb@.skip(i as int)[0] == bb@[i as int]);
            }
            return false;
        }
        proof {
            lemma_lex_skip(ab@.skip(i as int), bb@.skip(i as int), 0);
            assert(ab@.skip(i as int).skip(1) =~= ab@.skip(i + 1 as int));
            assert(bb@.skip(i as int).skip(1) =~= bb@.skip(i + 1 as int));
        }
        i = i + 1;
    }
    proof {
        if i >= ab@.len() {
            assert(ab@.skip(i as int).len() == 0);
        } else {
            assert(bb@.skip(i as int).len() == 0);
            assert(ab@.skip(i as int).len() > 0);
        }
    }
    i >= ab.len()
}

/// The lexicographic order is antisymmetric: two sequences that each
/// precede the other are equal.
pub proof fn lemma_lex_antisym(a: Seq<u8>, b: Seq<u8>)
    requires
        bytes_lex_le(a, b),
        bytes_lex_le(b, a),
    ensures
        a == b,
    decreases a.len(),
{
    if a.len() == 0 {
        assert(b.len() == 0);
        assert(a =~= b);
    } else {
        assert(b.len() > 0);
        assert(a[0] == b[0]);
        lemma_lex_antisym(a.drop_first(), b.drop_first());
        assert(a.drop_first() == b.drop_first());
        assert(a.len() == b.len());
        assert forall|j: int| 0 <= j < a.len() implies a[j] == b[j] by {
            if j >= 1 {
                assert(a[j] == a.drop_first()[j - 1]);
                assert(b[j] == b.drop_first()[j - 1]);
            }
        }
        assert(a =~= b);
    }
}

/// Compares two byte vectors lexicographically.
#[verifier::loop_isolation(false)]
pub fn bytes_le(a: &Vec<u8>, b: &Vec<u8>) -> (r: bool)
    ensures
        r == bytes_lex_le(a@, b@),
{
    let mut i: usize = 0;
    proof {
        assert(a@.skip(0) =~= a@);
        assert(b@.skip(0) =~= b@);
    }
    while i < a.len() && i < b.len()
        invariant
            i <= a@.len() && i <= b@.len(),
            bytes_lex_le(a@, b@) == bytes_lex_le(a@.skip(i as int), b@.skip(i as int)),
        decreases a@.len() - i,
    {
        if a[i] < b[i] {
            proof {
                assert(a@.skip(i as int)[0] == a@[i as int]);
                assert(b@.skip(i as int)[0] == b@[i as int]);
            }
            return true;
        }
        if a[i] > b[i] {
            proof {
                assert(a@.skip(i as int)[0] == a@[i as int]);
                assert(b@.skip(i as int)[0] == b@[i as int]);
            }
            return false;
        }
        proof {
            lemma_lex_skip(a@.skip(i as int), b@.skip(i as int), 0);
            assert(a@.skip(i as int).skip(1) =~= a@.skip(i + 1 as int));
            assert(b@.skip(i as int).skip(1) =~= b@.skip(i + 1 as int));
        }
        i = i + 1;
    }
    proof {
        if i >= a@.len() {
            assert(a@.skip(i as int).len() == 0);
        } else {
            assert(b@.skip(i as int).len() == 0);
            assert(a@.skip(i as int).len() > 0);
        }
    }
    i >= a.len()
}

/// The lexicographic order is total.
pub proof fn lemma_lex_total(a: Seq<u8>, b: Seq<u8>)
    ensures
        bytes_lex_le(a, b) || bytes_lex_le(b, a),
    decreases a.len(),
{
    if a.len() > 0 && b.len() > 0 && a[0] == b[0] {
        lemma_lex_total(a.drop_first(), b.drop_first());
    }
}

/// The lexicographic order is transitive.
pub proof fn lemma_lex_trans(a: Seq<u8>, b: Seq<u8>, c: Seq<u8>)
    requires
        bytes_lex_le(a, b),
        bytes_lex_le(b, c),
    ensures
        bytes_lex_le(a, c),
    decreases a.len(),
{
    if a.len() > 0 && b.len() > 0 && c.len() > 0 && a[0] == b[0] && b[0] == c[0] {
        lemma_lex_trans(a.drop_first(), b.drop_first(), c.drop_first());
    }
}

} // verus!
