//! A tag-length-value byte encoding for document values.
//!
//! The encryption layer serializes a payload field to bytes before sealing
//! it; this codec defines that format. The decoder is proved sound: a value
//! it returns re-encodes to exactly the bytes it consumed.

use vstd::prelude::*;
use vstd::utf8::encode_utf8;
use crate::value::Value;
use crate::value::JVal;
use crate::value::jval_of;
use crate::value::jlist_of;
use crate::value::jfields_of;
use crate::value::lemma_jlist_index;
use crate::value::lemma_jfields_index;

verus! {

/// Big-endian bytes of a 64-bit counter.
pub open spec fn enc_u64(n: u64) -> Seq<u8> {
    seq![
        (n >> 56) as u8,
        (n >> 48) as u8,
        (n >> 40) as u8,
        (n >> 32) as u8,
        (n >> 24) as u8,
        (n >> 16) as u8,
        (n >> 8) as u8,
        n as u8,
    ]
}

/// Byte encoding of a character sequence: its UTF-8 bytes, length-prefixed.
pub open spec fn enc_str(s: Seq<char>) -> Seq<u8> {
    seq![3u8] + enc_u64(encode_utf8(s).len() as u64) + encode_utf8(s)
}

/// Byte encoding of a value model: a tag byte, then the contents, with
/// lengths and counts as big-endian 64-bit fields.
pub open spec fn enc_jval(v: JVal) -> Seq<u8>
    decreases v,
{
    match v {
        JVal::Null => seq![0u8],
        JVal::Bool(b) => seq![1u8, if b { 1u8 } else { 0u8 }],
        JVal::Int(i) => seq![2u8] + enc_u64(i as u64),
        JVal::Str(s) => enc_str(s),
        JVal::Arr(items) => seq![4u8] + enc_u64(items.len() as u64) + enc_jseq(items),
        JVal::Obj(fields) => seq![5u8] + enc_u64(fields.len() as u64) + enc_jfields(fields),
    }
}

/// Byte encoding of a sequence of value models.
pub open spec fn enc_jseq(s: Seq<JVal>) -> Seq<u8>
    decreases s,
{
    if s.len() == 0 {
        Seq::empty()
    } else {
        enc_jval(s[0]) + enc_jseq(s.drop_first())
    }
}

/// Byte encoding of a field list model: alternating names and values.
pub open spec fn enc_jfields(s: Seq<(Seq<char>, JVal)>) -> Seq<u8>
    decreases s,
{
    if s.len() == 0 {
        Seq::empty()
    } else {
        enc_str(s[0].0) + enc_jval(s[0].1) + enc_jfields(s.drop_first())
    }
}

/// Encoding one more element appends its bytes.
proof fn lemma_enc_jseq_push(s: Seq<JVal>, x: JVal)
    ensures
        enc_jseq(s.push(x)) == enc_jseq(s) + enc_jval(x),
    decreases s.len(),
{
    if s.len() == 0 {
        assert(s.push(x).drop_first() =~= s);
        assert(s.push(x)[0] == x);
        assert(enc_jseq(s.push(x)) =~= enc_jseq(s) + enc_jval(x));
    } else {
        assert(s.push(x).drop_first() =~= s.drop_first().push(x));
        lemma_enc_jseq_push(s.drop_first(), x);
        assert(enc_jseq(s.push(x)) == enc_jval(s[0]) + enc_jseq(s.drop_first().push(x)));
        assert(enc_jseq(s.push(x)) =~= enc_jseq(s) + enc_jval(x));
    }
}

/// Encoding one more field appends its name and value bytes.
proof fn lemma_enc_jfields_push(s: Seq<(Seq<char>, JVal)>, k: Seq<char>, v: JVal)
    ensures
        enc_jfields(s.push((k, v))) == enc_jfields(s) + enc_str(k) + enc_jval(v),
    decreases s.len(),
{
    if s.len() == 0 {
        assert(s.push((k, v)).drop_first() =~= s);
        assert(s.push((k, v))[0] == (k, v));
        assert(enc_jfields(s.push((k, v))) =~= enc_jfields(s) + enc_str(k) + enc_jval(v));
    } else {
        assert(s.push((k, v)).drop_first() =~= s.drop_first().push((k, v)));
        lemma_enc_jfields_push(s.drop_first(), k, v);
        assert(enc_jfields(s.push((k, v))) =~= enc_jfields(s) + enc_str(k) + enc_jval(v));
    }
}

/// Appends the big-endian bytes of `n`.
pub(crate) fn push_u64(out: &mut Vec<u8>, n: u64)
    ensures
        final(out)@ == old(out)@ + enc_u64(n),
{
    let ghost o0 = out@;
    out.push(#[verifier::truncate] ((n >> 56) as u8));
    out.push(#[verifier::truncate] ((n >> 48) as u8));
    out.push(#[verifier::truncate] ((n >> 40) as u8));
    out.push(#[verifier::truncate] ((n >> 32) as u8));
    out.push(#[verifier::truncate] ((n >> 24) as u8));
    out.push(#[verifier::truncate] ((n >> 16) as u8));
    out.push(#[verifier::truncate] ((n >> 8) as u8));
    out.push(#[verifier::truncate] (n as u8));
    proof {
        assert(out@ =~= o0 + enc_u64(n));
    }
}

/// Appends the bytes of a slice.
pub(crate) fn push_bytes(out: &mut Vec<u8>, bytes: &[u8])
    ensures
        final(out)@ == old(out)@ + bytes@,
{
    let ghost o0 = out@;
    let mut i: usize = 0;
    while i < bytes.len()
        invariant
            i <= bytes@.len(),
            out@ == o0 + bytes@.subrange(0, i as int),
        decreases bytes@.len() - i,
    {
        out.push(bytes[i]);
        proof {
            assert(out@ =~= o0 + bytes@.subrange(0, i + 1 as int));
        }
        i = i + 1;
    }
    proof {
        assert(out@ =~= o0 + bytes@);
    }
}

/// Appends the encoding of `v`.
#[verifier::loop_isolation(false)]
pub fn encode_value(v: &Value, out: &mut Vec<u8>)
    ensures
        final(out)@ == old(out)@ + enc_jval(v@),
    decreases v,
{
    let ghost o0 = out@;
    match v {
        Value::Null => {
            out.push(0u8);
            proof {
                assert(out@ =~= o0 + enc_jval(v@));
            }
        },
        Value::Bool(b) => {
            out.push(1u8);
            out.push(if *b {
                1u8
            } else {
                0u8
            });
            proof {
                assert(out@ =~= o0 + enc_jval(v@));
            }
        },
        Value::Int(i) => {
            out.push(2u8);
            push_u64(out, #[verifier::truncate] (*i as u64));
            proof {
                assert(out@ =~= o0 + enc_jval(v@));
            }
        },
        Value::Str(s) => {
            let bytes = s.as_str().as_bytes();
            out.push(3u8);
            push_u64(out, bytes.len() as u64);
            push_bytes(out, bytes);
            proof {
                assert(bytes@ == encode_utf8(s@));
                assert(out@ =~= o0 + enc_jval(v@));
            }
        },
        Value::Arr(items) => {
            out.push(4u8);
            push_u64(out, items.len() as u64);
            let ghost hdr = out@;
            proof {
                lemma_jlist_index(items@);
            }
            let mut i: usize = 0;
            while i < items.len()
                invariant
                    i <= items@.len(),
                    out@ == hdr + enc_jseq(jlist_of(items@.subrange(0, i as int))),
                decreases items@.len() - i,
            {
                let ghost pre = items@.subrange(0, i as int);
                proof {
                    assert(decreases_to!(*v => v->Arr_0));
                    assert(v->Arr_0 == *items);
                    assert(decreases_to!(*items => items@));
                    assert(decreases_to!(items@ => items@[i as int]));
                    assert(decreases_to!(*v => items@[i as int]));
                }
                encode_value(&items[i], out);
                proof {
                    assert(items@.subrange(0, i + 1 as int) =~= pre.push(items@[i as int]));
                    lemma_jlist_push(pre, items@[i as int]);
                    lemma_enc_jseq_push(jlist_of(pre), jval_of(items@[i as int]));
                    assert(out@ =~= hdr + enc_jseq(jlist_of(items@.subrange(0, i + 1 as int))));
                }
                i = i + 1;
            }
            proof {
                assert(items@.subrange(0, items@.len() as int) =~= items@);
                assert(out@ =~= o0 + enc_jval(v@));
            }
        },
        Value::Obj(fields) => {
            out.push(5u8);
            push_u64(out, fields.len() as u64);
            let ghost hdr = out@;
            proof {
                lemma_jfields_index(fields@);
            }
            let mut i: usize = 0;
            while i < fields.len()
                invariant
                    i <= fields@.len(),
                    out@ == hdr + enc_jfields(jfields_of(fields@.subrange(0, i as int))),
                decreases fields@.len() - i,
            {
                let ghost pre = fields@.subrange(0, i as int);
                let kb = fields[i].0.as_str().as_bytes();
                out.push(3u8);
                push_u64(out, kb.len() as u64);
                push_bytes(out, kb);
                proof {
                    assert(decreases_to!(*v => v->Obj_0));
                    assert(v->Obj_0 == *fields);
                    assert(decreases_to!(*fields => fields@));
                    assert(decreases_to!(fields@ => fields@[i as int]));
                    assert(decreases_to!(fields@[i as int] => fields@[i as int].1));
                    assert(decreases_to!(*v => fields@[i as int].1));
                }
                encode_value(&fields[i].1, out);
                proof {
                    assert(fields@.subrange(0, i + 1 as int) =~= pre.push(fields@[i as int]));
                    lemma_jfields_push(pre, fields@[i as int]);
                    lemma_enc_jfields_push(
                        jfields_of(pre),
                        fields@[i as int].0@,
                        jval_of(fields@[i as int].1),
                    );
                    assert(kb@ == encode_utf8(fields@[i as int].0@));
                    assert(out@ =~= hdr + enc_jfields(jfields_of(fields@.subrange(0, i + 1 as int))));
                }
                i = i + 1;
            }
            proof {
                assert(fields@.subrange(0, fields@.len() as int) =~= fields@);
                assert(out@ =~= o0 + enc_jval(v@));
            }
        },
    }
}

/// Extending a value list by one extends its model by that value's model.
proof fn lemma_jlist_push(s: Seq<Value>, x: Value)
    ensures
        jlist_of(s.push(x)) == jlist_of(s).push(jval_of(x)),
{
    lemma_jlist_index(s);
    lemma_jlist_index(s.push(x));
    assert(jlist_of(s.push(x)) =~= jlist_of(s).push(jval_of(x)));
}

/// Extending a field list by one extends its model by that field's model.
proof fn lemma_jfields_push(s: Seq<(String, Value)>, x: (String, Value))
    ensures
        jfields_of(s.push(x)) == jfields_of(s).push((x.0@, jval_of(x.1))),
{
    lemma_jfields_index(s);
    lemma_jfields_index(s.push(x));
    assert(jfields_of(s.push(x)) =~= jfields_of(s).push((x.0@, jval_of(x.1))));
}

/// Encodes a value to a fresh byte vector.
pub fn encode_value_bytes(v: &Value) -> (r: Vec<u8>)
    ensures
        r@ == enc_jval(v@),
{
    let mut out: Vec<u8> = Vec::new();
    encode_value(v, &mut out);
    proof {
        assert(out@ =~= enc_jval(v@));
    }
    out
}

/// Relies on String::from_utf8: it succeeds exactly on valid UTF-8 input
/// and returns the string whose bytes are the input; bytes that are not
/// the UTF-8 encoding of any character sequence are rejected.
#[verifier::external_body]
pub(crate) fn string_from_utf8(v: Vec<u8>) -> (r: Option<String>)
    ensures
        r matches Some(s) ==> encode_utf8(s@) == v@,
        r is None ==> !(exists|s: Seq<char>| encode_utf8(s) == v@),
{
    String::from_utf8(v).ok()
}

/// Reassembling eight big-endian bytes gives back those bytes.
proof fn lemma_u64_bytes(b0: u8, b1: u8, b2: u8, b3: u8, b4: u8, b5: u8, b6: u8, b7: u8)
    ensures
        enc_u64(
            ((b0 as u64) << 56) | ((b1 as u64) << 48) | ((b2 as u64) << 40) | ((b3 as u64) << 32)
                | ((b4 as u64) << 24) | ((b5 as u64) << 16) | ((b6 as u64) << 8) | (b7 as u64),
        ) =~= seq![b0, b1, b2, b3, b4, b5, b6, b7],
{
    let n = ((b0 as u64) << 56) | ((b1 as u64) << 48) | ((b2 as u64) << 40) | ((b3 as u64) << 32)
        | ((b4 as u64) << 24) | ((b5 as u64) << 16) | ((b6 as u64) << 8) | (b7 as u64);
    assert((n >> 56) as u8 == b0 && (n >> 48) as u8 == b1 && (n >> 40) as u8 == b2 && (n >> 32)
        as u8 == b3 && (n >> 24) as u8 == b4 && (n >> 16) as u8 == b5 && (n >> 8) as u8 == b6 && n
        as u8 == b7) by (bit_vector)
        requires
            n == ((b0 as u64) << 56) | ((b1 as u64) << 48) | ((b2 as u64) << 40) | ((b3 as u64)
                << 32) | ((b4 as u64) << 24) | ((b5 as u64) << 16) | ((b6 as u64) << 8) | (
            b7 as u64),
    ;
}

/// Reads a big-endian 64-bit field.
fn read_u64(bytes: &[u8], pos: usize) -> (r: Option<(u64, usize)>)
    ensures
        r matches Some((n, end)) ==> pos + 8 == end <= bytes@.len() && enc_u64(n) == bytes@.subrange(
            pos as int,
            end as int,
        ),
{
    if pos >= bytes.len() || bytes.len() - pos < 8 {
        return None;
    }
    let n = ((bytes[pos] as u64) << 56) | ((bytes[pos + 1] as u64) << 48) | ((bytes[pos + 2]
        as u64) << 40) | ((bytes[pos + 3] as u64) << 32) | ((bytes[pos + 4] as u64) << 24) | ((
    bytes[pos + 5] as u64) << 16) | ((bytes[pos + 6] as u64) << 8) | (bytes[pos + 7] as u64);
    proof {
        lemma_u64_bytes(
            bytes@[pos as int],
            bytes@[pos as int + 1],
            bytes@[pos as int + 2],
            bytes@[pos as int + 3],
            bytes@[pos as int + 4],
            bytes@[pos as int + 5],
            bytes@[pos as int + 6],
            bytes@[pos as int + 7],
        );
        assert(bytes@.subrange(pos as int, pos as int + 8) =~= seq![
            bytes@[pos as int],
            bytes@[pos as int + 1],
            bytes@[pos as int + 2],
            bytes@[pos as int + 3],
            bytes@[pos as int + 4],
            bytes@[pos as int + 5],
            bytes@[pos as int + 6],
            bytes@[pos as int + 7],
        ]);
    }
    Some((n, pos + 8))
}

/// Copies `bytes[from..to]` into a fresh vector.
pub(crate) fn bytes_range(bytes: &[u8], from: usize, to: usize) -> (r: Vec<u8>)
    requires
        from <= to <= bytes@.len(),
    ensures
        r@ == bytes@.subrange(from as int, to as int),
{
    let mut out: Vec<u8> = Vec::new();
    let mut i: usize = from;
    while i < to
        invariant
            from <= i <= to <= bytes@.len(),
            out@ == bytes@.subrange(from as int, i as int),
        decreases to - i,
    {
        out.push(bytes[i]);
        proof {
            assert(out@ =~= bytes@.subrange(from as int, i + 1 as int));
        }
        i = i + 1;
    }
    out
}

/// Decodes one value starting at `pos`. A returned value re-encodes to
/// exactly the bytes between `pos` and the returned end position.
#[verifier::loop_isolation(false)]
#[verifier::rlimit(100)]
pub fn decode_value_at(bytes: &[u8], pos: usize) -> (r: Option<(Value, usize)>)
    ensures
        r matches Some((v, end)) ==> pos < end <= bytes@.len() && enc_jval(v@) == bytes@.subrange(
            pos as int,
            end as int,
        ),
    decreases bytes@.len() - pos,
{
    if pos >= bytes.len() {
        return None;
    }
    let tag = bytes[pos];
    if tag == 0 {
        let v = Value::Null;
        proof {
            assert(enc_jval(jval_of(v)) =~= bytes@.subrange(pos as int, pos as int + 1));
        }
        Some((v, pos + 1))
    } else if tag == 1 {
        if pos + 1 >= bytes.len() {
            return None;
        }
        let b = bytes[pos + 1];
        if b != 0 && b != 1 {
            return None;
        }
        let v = Value::Bool(b == 1);
        proof {
            assert(enc_jval(jval_of(v)) =~= bytes@.subrange(pos as int, pos as int + 2));
        }
        Some((v, pos + 2))
    } else if tag == 2 {
        match read_u64(bytes, pos + 1) {
            Some((n, end)) => {
                let v = Value::Int(#[verifier::truncate] (n as i64));
                proof {
                    assert((n as i64) as u64 == n) by (bit_vector);
                    assert(enc_jval(jval_of(v)) =~= bytes@.subrange(pos as int, end as int));
                }
                Some((v, end))
            },
            None => None,
        }
    } else if tag == 3 {
        match read_u64(bytes, pos + 1) {
            Some((n, mid)) => {
                if n > (bytes.len() - mid) as u64 {
                    return None;
                }
                let l = n as usize;
                let raw = bytes_range(bytes, mid, mid + l);
                let ghost rawm = raw@;
                match string_from_utf8(raw) {
                    Some(s) => {
                        let v = Value::Str(s);
                        proof {
                            assert(encode_utf8(s@) == rawm);
                            assert(enc_jval(jval_of(v)) =~= bytes@.subrange(
                                pos as int,
                                mid + l as int,
                            ));
                        }
                        Some((v, mid + l))
                    },
                    None => None,
                }
            },
            None => None,
        }
    } else if tag == 4 {
        match read_u64(bytes, pos + 1) {
            Some((n, mid)) => {
                if n > (bytes.len() - mid) as u64 {
                    return None;
                }
                let count = n as usize;
                let mut items: Vec<Value> = Vec::new();
                let mut cur: usize = mid;
                let mut k: usize = 0;
                while k < count
                    invariant
                        k <= count,
                        items@.len() == k,
                        mid <= cur <= bytes@.len(),
                        k < count ==> pos < cur,
                        k > 0 ==> pos < cur,
                        enc_jseq(jlist_of(items@)) == bytes@.subrange(mid as int, cur as int),
                    decreases count - k,
                {
                    match decode_value_at(bytes, cur) {
                        Some((item, end)) => {
                            let ghost items0 = items@;
                            proof {
                                lemma_jlist_push(items0, item);
                                lemma_enc_jseq_push(jlist_of(items0), jval_of(item));
                                assert(bytes@.subrange(mid as int, end as int) =~= bytes@.subrange(
                                    mid as int,
                                    cur as int,
                                ) + bytes@.subrange(cur as int, end as int));
                            }
                            items.push(item);
                            cur = end;
                        },
                        None => {
                            return None;
                        },
                    }
                    k = k + 1;
                }
                let v = Value::Arr(items);
                if cur <= pos {
                    return None;
                }
                proof {
                    assert(jlist_of(v->Arr_0@).len() == count) by {
                        lemma_jlist_index(v->Arr_0@);
                    }
                    assert(enc_jval(jval_of(v)) =~= bytes@.subrange(pos as int, cur as int));
                }
                Some((v, cur))
            },
            None => None,
        }
    } else if tag == 5 {
        match read_u64(bytes, pos + 1) {
            Some((n, mid)) => {
                if n > (bytes.len() - mid) as u64 {
                    return None;
                }
                let count = n as usize;
                let mut fields: Vec<(String, Value)> = Vec::new();
                let mut cur: usize = mid;
                let mut k: usize = 0;
                while k < count
                    invariant
                        k <= count,
                        fields@.len() == k,
                        mid <= cur <= bytes@.len(),
                        k > 0 ==> pos < cur,
                        enc_jfields(jfields_of(fields@)) == bytes@.subrange(mid as int, cur as int),
                    decreases count - k,
                {
                    let key = match decode_value_at(bytes, cur) {
                        Some((Value::Str(ks), kend)) => (ks, kend),
                        _ => {
                            return None;
                        },
                    };
                    let (ks, kend) = key;
                    match decode_value_at(bytes, kend) {
                        Some((item, end)) => {
                            let ghost fields0 = fields@;
                            let ghost ksm = ks@;
                            let ghost itemm = item@;
                            proof {
                                lemma_jfields_push(fields0, (ks, item));
                                lemma_enc_jfields_push(jfields_of(fields0), ksm, itemm);
                                assert(bytes@.subrange(mid as int, end as int) =~= bytes@.subrange(
                                    mid as int,
                                    cur as int,
                                ) + bytes@.subrange(cur as int, kend as int) + bytes@.subrange(
                                    kend as int,
                                    end as int,
                                ));
                            }
                            fields.push((ks, item));
                            cur = end;
                        },
                        None => {
                            return None;
                        },
                    }
                    k = k + 1;
                }
                let v = Value::Obj(fields);
                if cur <= pos {
                    return None;
                }
                proof {
                    assert(jfields_of(v->Obj_0@).len() == count) by {
                        lemma_jfields_index(v->Obj_0@);
                    }
                    assert(enc_jval(jval_of(v)) =~= bytes@.subrange(pos as int, cur as int));
                }
                Some((v, cur))
            },
            None => None,
        }
    } else {
        None
    }
}

/// Decodes a complete byte buffer into one value; the returned value
/// re-encodes to exactly the input bytes.
pub fn decode_value_bytes(bytes: &[u8]) -> (r: Option<Value>)
    ensures
        r matches Some(v) ==> enc_jval(v@) == bytes@,
{
    match decode_value_at(bytes, 0) {
        Some((v, end)) => {
            if end == bytes.len() {
                proof {
                    assert(bytes@.subrange(0, bytes@.len() as int) =~= bytes@);
                }
                Some(v)
            } else {
                None
            }
        },
        None => None,
    }
}

/// A value model whose string and collection lengths fit the encoding's
/// 64-bit length fields; every value built by executable code is of this
/// shape.
pub open spec fn jval_bounded(v: JVal) -> bool
    decreases v,
{
    match v {
        JVal::Str(s) => encode_utf8(s).len() <= u64::MAX,
        JVal::Arr(items) => items.len() <= u64::MAX && (forall|i: int|
            0 <= i < items.len() ==> jval_bounded(#[trigger] items[i])),
        JVal::Obj(fields) => fields.len() <= u64::MAX && (forall|i: int|
            0 <= i < fields.len() ==> encode_utf8((#[trigger] fields[i]).0).len() <= u64::MAX
                && jval_bounded(fields[i].1)),
        _ => true,
    }
}

/// Equal big-endian renderings come from equal counters.
proof fn lemma_enc_u64_injective(n1: u64, n2: u64)
    requires
        enc_u64(n1) == enc_u64(n2),
    ensures
        n1 == n2,
{
    assert(enc_u64(n1)[0] == enc_u64(n2)[0] && enc_u64(n1)[1] == enc_u64(n2)[1] && enc_u64(
        n1,
    )[2] == enc_u64(n2)[2] && enc_u64(n1)[3] == enc_u64(n2)[3] && enc_u64(n1)[4] == enc_u64(
        n2,
    )[4] && enc_u64(n1)[5] == enc_u64(n2)[5] && enc_u64(n1)[6] == enc_u64(n2)[6] && enc_u64(
        n1,
    )[7] == enc_u64(n2)[7]);
    assert(n1 == n2) by (bit_vector)
        requires
            (n1 >> 56) as u8 == (n2 >> 56) as u8 && (n1 >> 48) as u8 == (n2 >> 48) as u8 && (n1
                >> 40) as u8 == (n2 >> 40) as u8 && (n1 >> 32) as u8 == (n2 >> 32) as u8 && (n1
                >> 24) as u8 == (n2 >> 24) as u8 && (n1 >> 16) as u8 == (n2 >> 16) as u8 && (n1
                >> 8) as u8 == (n2 >> 8) as u8 && n1 as u8 == n2 as u8,
    ;
}

/// Equal concatenations with equal-length heads split into equal parts.
proof fn lemma_concat_cancel(a1: Seq<u8>, a2: Seq<u8>, u: Seq<u8>, w: Seq<u8>)
    requires
        a1 + u == a2 + w,
        a1.len() == a2.len(),
    ensures
        a1 == a2 && u == w,
{
    assert((a1 + u).len() == a1.len() + u.len());
    assert((a2 + w).len() == a2.len() + w.len());
    assert forall|t: int| #![trigger a1[t]] 0 <= t < a1.len() implies a1[t] == a2[t] by {
        assert((a1 + u)[t] == a1[t]);
        assert((a2 + w)[t] == a2[t]);
    }
    assert(a1 =~= a2);
    assert(u.len() == w.len());
    assert forall|t: int| #![trigger u[t]] 0 <= t < u.len() implies u[t] == w[t] by {
        assert((a1 + u)[a1.len() + t] == u[t]);
        assert((a2 + w)[a2.len() + t] == w[t]);
    }
    assert(u =~= w);
}

/// Cancellation for the length-prefixed string form.
proof fn lemma_enc_str_cancel(s1: Seq<char>, s2: Seq<char>, u: Seq<u8>, w: Seq<u8>)
    requires
        enc_str(s1) + u == enc_str(s2) + w,
        encode_utf8(s1).len() <= u64::MAX,
        encode_utf8(s2).len() <= u64::MAX,
    ensures
        s1 == s2 && u == w,
{
    let b1 = encode_utf8(s1);
    let b2 = encode_utf8(s2);
    let h1 = seq![3u8] + enc_u64(b1.len() as u64);
    let h2 = seq![3u8] + enc_u64(b2.len() as u64);
    assert(h1.len() == 9 && h2.len() == 9);
    assert(enc_str(s1) =~= h1 + b1);
    assert(enc_str(s2) =~= h2 + b2);
    assert((h1 + (b1 + u)) =~= (enc_str(s1) + u));
    assert((h2 + (b2 + w)) =~= (enc_str(s2) + w));
    lemma_concat_cancel(h1, h2, b1 + u, b2 + w);
    lemma_concat_cancel(seq![3u8], seq![3u8], enc_u64(b1.len() as u64), enc_u64(
        b2.len() as u64,
    ));
    lemma_enc_u64_injective(b1.len() as u64, b2.len() as u64);
    lemma_concat_cancel(b1, b2, u, w);
    vstd::utf8::encode_utf8_decode_utf8(s1);
    vstd::utf8::encode_utf8_decode_utf8(s2);
}

/// Two encodings followed by arbitrary tails coincide only when the
/// values and the tails do: the encoding is a prefix code.
proof fn lemma_enc_cancel(x: JVal, y: JVal, u: Seq<u8>, w: Seq<u8>)
    requires
        enc_jval(x) + u == enc_jval(y) + w,
        jval_bounded(x),
        jval_bounded(y),
    ensures
        x == y && u == w,
    decreases x,
{
    let lhs = enc_jval(x) + u;
    assert(lhs[0] == enc_jval(x)[0] && lhs[0] == enc_jval(y)[0]);
    match (x, y) {
        (JVal::Null, JVal::Null) => {
            lemma_concat_cancel(enc_jval(x), enc_jval(y), u, w);
        },
        (JVal::Bool(b1), JVal::Bool(b2)) => {
            lemma_concat_cancel(enc_jval(x), enc_jval(y), u, w);
            assert(enc_jval(x)[1] == enc_jval(y)[1]);
        },
        (JVal::Int(i1), JVal::Int(i2)) => {
            lemma_concat_cancel(enc_jval(x), enc_jval(y), u, w);
            lemma_concat_cancel(seq![2u8], seq![2u8], enc_u64(i1 as u64), enc_u64(i2 as u64));
            lemma_enc_u64_injective(i1 as u64, i2 as u64);
            assert(i1 == i2) by (bit_vector)
                requires
                    i1 as u64 == i2 as u64,
            ;
        },
        (JVal::Str(s1), JVal::Str(s2)) => {
            lemma_enc_str_cancel(s1, s2, u, w);
        },
        (JVal::Arr(items1), JVal::Arr(items2)) => {
            let h1 = seq![4u8] + enc_u64(items1.len() as u64);
            let h2 = seq![4u8] + enc_u64(items2.len() as u64);
            assert(h1.len() == 9 && h2.len() == 9);
            assert(enc_jval(x) =~= h1 + enc_jseq(items1));
            assert(enc_jval(y) =~= h2 + enc_jseq(items2));
            assert((h1 + (enc_jseq(items1) + u)) =~= (enc_jval(x) + u));
            assert((h2 + (enc_jseq(items2) + w)) =~= (enc_jval(y) + w));
            lemma_concat_cancel(h1, h2, enc_jseq(items1) + u, enc_jseq(items2) + w);
            lemma_concat_cancel(seq![4u8], seq![4u8], enc_u64(items1.len() as u64), enc_u64(
                items2.len() as u64,
            ));
            lemma_enc_u64_injective(items1.len() as u64, items2.len() as u64);
            lemma_enc_jseq_cancel(items1, items2, u, w);
        },
        (JVal::Obj(fields1), JVal::Obj(fields2)) => {
            let h1 = seq![5u8] + enc_u64(fields1.len() as u64);
            let h2 = seq![5u8] + enc_u64(fields2.len() as u64);
            assert(h1.len() == 9 && h2.len() == 9);
            assert(enc_jval(x) =~= h1 + enc_jfields(fields1));
            assert(enc_jval(y) =~= h2 + enc_jfields(fields2));
            assert((h1 + (enc_jfields(fields1) + u)) =~= (enc_jval(x) + u));
            assert((h2 + (enc_jfields(fields2) + w)) =~= (enc_jval(y) + w));
            lemma_concat_cancel(h1, h2, enc_jfields(fields1) + u, enc_jfields(fields2) + w);
            lemma_concat_cancel(seq![5u8], seq![5u8], enc_u64(fields1.len() as u64), enc_u64(
                fields2.len() as u64,
            ));
            lemma_enc_u64_injective(fields1.len() as u64, fields2.len() as u64);
            lemma_enc_jfields_cancel(fields1, fields2, u, w);
        },
        _ => {
            // the tag bytes differ between different variants
            assert(false);
        },
    }
}

/// Cancellation for equal-length value lists.
proof fn lemma_enc_jseq_cancel(s1: Seq<JVal>, s2: Seq<JVal>, u: Seq<u8>, w: Seq<u8>)
    requires
        enc_jseq(s1) + u == enc_jseq(s2) + w,
        s1.len() == s2.len(),
        forall|i: int| 0 <= i < s1.len() ==> jval_bounded(#[trigger] s1[i]),
        forall|i: int| 0 <= i < s2.len() ==> jval_bounded(#[trigger] s2[i]),
    ensures
        s1 == s2 && u == w,
    decreases s1,
{
    if s1.len() == 0 {
        assert(enc_jseq(s1) + u =~= u);
        assert(enc_jseq(s2) + w =~= w);
        assert(s1 =~= s2);
    } else {
        assert((enc_jval(s1[0]) + (enc_jseq(s1.drop_first()) + u)) =~= (enc_jseq(s1) + u));
        assert((enc_jval(s2[0]) + (enc_jseq(s2.drop_first()) + w)) =~= (enc_jseq(s2) + w));
        lemma_enc_cancel(s1[0], s2[0], enc_jseq(s1.drop_first()) + u, enc_jseq(s2.drop_first())
            + w);
        lemma_enc_jseq_cancel(s1.drop_first(), s2.drop_first(), u, w);
        assert(s1 =~= s2) by {
            assert(forall|t: int|
                1 <= t < s1.len() ==> s1[t] == s1.drop_first()[t - 1] && s2[t]
                    == s2.drop_first()[t - 1]);
        }
    }
}

/// Cancellation for equal-length field lists.
proof fn lemma_enc_jfields_cancel(
    s1: Seq<(Seq<char>, JVal)>,
    s2: Seq<(Seq<char>, JVal)>,
    u: Seq<u8>,
    w: Seq<u8>,
)
    requires
        enc_jfields(s1) + u == enc_jfields(s2) + w,
        s1.len() == s2.len(),
        forall|i: int|
            0 <= i < s1.len() ==> encode_utf8((#[trigger] s1[i]).0).len() <= u64::MAX
                && jval_bounded(s1[i].1),
        forall|i: int|
            0 <= i < s2.len() ==> encode_utf8((#[trigger] s2[i]).0).len() <= u64::MAX
                && jval_bounded(s2[i].1),
    ensures
        s1 == s2 && u == w,
    decreases s1,
{
    if s1.len() == 0 {
        assert(enc_jfields(s1) + u =~= u);
        assert(enc_jfields(s2) + w =~= w);
        assert(s1 =~= s2);
    } else {
        let t1 = enc_jval(s1[0].1) + (enc_jfields(s1.drop_first()) + u);
        let t2 = enc_jval(s2[0].1) + (enc_jfields(s2.drop_first()) + w);
        assert((enc_str(s1[0].0) + t1) =~= (enc_jfields(s1) + u));
        assert((enc_str(s2[0].0) + t2) =~= (enc_jfields(s2) + w));
        lemma_enc_str_cancel(s1[0].0, s2[0].0, t1, t2);
        lemma_enc_cancel(s1[0].1, s2[0].1, enc_jfields(s1.drop_first()) + u, enc_jfields(
            s2.drop_first(),
        ) + w);
        lemma_enc_jfields_cancel(s1.drop_first(), s2.drop_first(), u, w);
        assert(s1 =~= s2) by {
            assert(forall|t: int|
                1 <= t < s1.len() ==> s1[t] == s1.drop_first()[t - 1] && s2[t]
                    == s2.drop_first()[t - 1]);
        }
    }
}

/// Law: the byte encoding names each value model uniquely, so a decoded
/// value is the one that was encoded.
pub proof fn lemma_enc_jval_injective(a: JVal, b: JVal)
    requires
        enc_jval(a) == enc_jval(b),
        jval_bounded(a),
        jval_bounded(b),
    ensures
        a == b,
{
    assert((enc_jval(a) + Seq::<u8>::empty()) =~= (enc_jval(b) + Seq::<u8>::empty()));
    lemma_enc_cancel(a, b, Seq::empty(), Seq::empty());
}

/// Every encoding is at least one byte long.
proof fn lemma_enc_pos(v: JVal)
    ensures
        enc_jval(v).len() >= 1,
{
    match v {
        JVal::Null => {},
        JVal::Bool(b) => {},
        JVal::Int(i) => {},
        JVal::Str(s) => {},
        JVal::Arr(items) => {},
        JVal::Obj(fields) => {},
    }
}

/// A list encoding is as long as the list, and contains each element's
/// encoding.
proof fn lemma_enc_jseq_len(s: Seq<JVal>)
    ensures
        enc_jseq(s).len() >= s.len(),
        forall|i: int|
            0 <= i < s.len() ==> enc_jval(#[trigger] s[i]).len() <= enc_jseq(s).len(),
    decreases s,
{
    if s.len() > 0 {
        lemma_enc_pos(s[0]);
        lemma_enc_jseq_len(s.drop_first());
        assert forall|i: int|
            0 <= i < s.len() implies enc_jval(#[trigger] s[i]).len() <= enc_jseq(s).len() by {
            if i > 0 {
                assert(s[i] == s.drop_first()[i - 1]);
            }
        }
    }
}

/// A field-list encoding is as long as the list, and contains each name's
/// bytes and each value's encoding.
proof fn lemma_enc_jfields_len(s: Seq<(Seq<char>, JVal)>)
    ensures
        enc_jfields(s).len() >= s.len(),
        forall|i: int|
            0 <= i < s.len() ==> encode_utf8((#[trigger] s[i]).0).len() <= enc_jfields(s).len()
                && enc_jval(s[i].1).len() <= enc_jfields(s).len(),
    decreases s,
{
    if s.len() > 0 {
        lemma_enc_pos(s[0].1);
        lemma_enc_jfields_len(s.drop_first());
        assert forall|i: int|
            0 <= i < s.len() implies encode_utf8((#[trigger] s[i]).0).len() <= enc_jfields(
            s,
        ).len() && enc_jval(s[i].1).len() <= enc_jfields(s).len() by {
            if i > 0 {
                assert(s[i] == s.drop_first()[i - 1]);
            }
        }
    }
}

/// Law: a value whose encoding fits in memory is bounded, so equality of
/// encodings decides equality of the values decoded from them.
pub proof fn lemma_enc_bounded(v: JVal)
    requires
        enc_jval(v).len() <= u64::MAX,
    ensures
        jval_bounded(v),
    decreases v,
{
    match v {
        JVal::Str(s) => {},
        JVal::Arr(items) => {
            lemma_enc_jseq_len(items);
            assert forall|i: int| 0 <= i < items.len() implies jval_bounded(
                #[trigger] items[i],
            ) by {
                lemma_enc_bounded(items[i]);
            }
        },
        JVal::Obj(fields) => {
            lemma_enc_jfields_len(fields);
            assert forall|i: int|
                0 <= i < fields.len() implies encode_utf8((#[trigger] fields[i]).0).len()
                <= u64::MAX && jval_bounded(fields[i].1) by {
                lemma_enc_bounded(fields[i].1);
            }
        },
        _ => {},
    }
}

} // verus!
