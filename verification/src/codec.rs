use vstd::prelude::*;

use crate::errors::KvStoreError;
use crate::value::{arr_views, doc_view, obj_views, DocValue, DocView};
use crate::wire::{be32, be64, to_unsigned64};
use vstd::slice::{slice_index_get, slice_subrange};
use vstd::string::*;
use vstd::utf8::encode_utf8;

verus! {

broadcast use
    vstd::slice::axiom_spec_len,
    vstd::std_specs::vec::axiom_vec_index_decreases,
    vstd::std_specs::vec::axiom_vec_decreases_to_view,
    vstd::seq::axiom_seq_index_decreases,
    vstd::seq::axiom_seq_subrange_decreases;

// The compact binary wire format.  One document value is laid out as a
// one-byte tag followed by a fixed-width payload or length:
//
//   null          c0
//   false / true  c2 / c3
//   integer       d3  <8-byte big-endian two's complement>
//   string        db  <4-byte big-endian byte length>  <UTF-8 bytes>
//   array         dd  <4-byte big-endian element count>  <elements>
//   object        df  <4-byte big-endian field count>  <key string, value>*
//
// Every value has exactly one encoding, so decoding an encoded value
// recovers it, and equal byte strings decode to equal values.

pub const TAG_NULL: u8 = 0xc0;
pub const TAG_FALSE: u8 = 0xc2;
pub const TAG_TRUE: u8 = 0xc3;
pub const TAG_INT: u8 = 0xd3;
pub const TAG_STR: u8 = 0xdb;
pub const TAG_ARR: u8 = 0xdd;
pub const TAG_OBJ: u8 = 0xdf;

/// Field and element counts, and string byte lengths, are carried in four
/// bytes: this is the first count that does not fit.
pub const COUNT_LIMIT: u64 = 0x1_0000_0000;

/// The encoding of one string: tag, byte length, UTF-8 bytes.
pub open spec fn enc_str(s: Seq<char>) -> Seq<u8> {
    seq![TAG_STR] + be32(encode_utf8(s).len() as u32) + encode_utf8(s)
}

/// The encoding of one document value.
pub open spec fn enc(v: DocView) -> Seq<u8>
    decreases v,
{
    match v {
        DocView::Null => seq![TAG_NULL],
        DocView::Bool(b) => if b {
            seq![TAG_TRUE]
        } else {
            seq![TAG_FALSE]
        },
        DocView::Int(i) => seq![TAG_INT] + be64(to_unsigned64(i) as u64),
        DocView::Str(s) => enc_str(s),
        DocView::Arr(elems) => seq![TAG_ARR] + be32(elems.len() as u32) + enc_elems(elems),
        DocView::Obj(fields) => seq![TAG_OBJ] + be32(fields.len() as u32) + enc_fields(fields),
    }
}

/// The concatenated encodings of a sequence of array elements.
pub open spec fn enc_elems(s: Seq<DocView>) -> Seq<u8>
    decreases s,
{
    if s.len() == 0 {
        Seq::empty()
    } else {
        enc(s[0]) + enc_elems(s.drop_first())
    }
}

/// The concatenated encodings of a sequence of object fields.
pub open spec fn enc_fields(s: Seq<(Seq<char>, DocView)>) -> Seq<u8>
    decreases s,
{
    if s.len() == 0 {
        Seq::empty()
    } else {
        enc_str(s[0].0) + enc(s[0].1) + enc_fields(s.drop_first())
    }
}

/// Whether a string's UTF-8 form fits the four-byte length field.
pub open spec fn str_encodable(s: Seq<char>) -> bool {
    encode_utf8(s).len() < COUNT_LIMIT
}

/// Whether a value can be encoded: every integer fits 64 signed bits
/// (always true of views of stored values), and every string length and
/// collection count fits the four-byte field.
pub open spec fn encodable(v: DocView) -> bool
    decreases v,
{
    match v {
        DocView::Null => true,
        DocView::Bool(_) => true,
        DocView::Int(i) => -0x8000_0000_0000_0000 <= i < 0x8000_0000_0000_0000,
        DocView::Str(s) => str_encodable(s),
        DocView::Arr(elems) => elems.len() < COUNT_LIMIT && elems_encodable(elems),
        DocView::Obj(fields) => fields.len() < COUNT_LIMIT && fields_encodable(fields),
    }
}

/// Every element of the sequence is encodable.
pub open spec fn elems_encodable(s: Seq<DocView>) -> bool
    decreases s,
{
    if s.len() == 0 {
        true
    } else {
        encodable(s[0]) && elems_encodable(s.drop_first())
    }
}

/// Every field of the sequence has an encodable key and value.
pub open spec fn fields_encodable(s: Seq<(Seq<char>, DocView)>) -> bool
    decreases s,
{
    if s.len() == 0 {
        true
    } else {
        str_encodable(s[0].0) && encodable(s[0].1) && fields_encodable(s.drop_first())
    }
}

/// `elems_encodable` is elementwise encodability.
pub proof fn lemma_elems_encodable_index(s: Seq<DocView>)
    ensures
        elems_encodable(s) <==> (forall|i: int| 0 <= i < s.len() ==> encodable(#[trigger] s[i])),
    decreases s.len(),
{
    if s.len() > 0 {
        lemma_elems_encodable_index(s.drop_first());
        assert(forall|i: int|
            0 < i < s.len() ==> #[trigger] s[i] == s.drop_first()[i - 1]);
        if elems_encodable(s) {
            assert(forall|i: int| 0 <= i < s.len() ==> encodable(#[trigger] s[i]));
        }
        if forall|i: int| 0 <= i < s.len() ==> encodable(#[trigger] s[i]) {
            assert(forall|i: int|
                0 <= i < s.drop_first().len() ==> encodable(#[trigger] s.drop_first()[i]));
        }
    }
}

/// `fields_encodable` is fieldwise encodability.
pub proof fn lemma_fields_encodable_index(s: Seq<(Seq<char>, DocView)>)
    ensures
        fields_encodable(s) <==> (forall|i: int|
            0 <= i < s.len() ==> str_encodable((#[trigger] s[i]).0) && encodable(s[i].1)),
    decreases s.len(),
{
    if s.len() > 0 {
        lemma_fields_encodable_index(s.drop_first());
        assert(forall|i: int|
            0 < i < s.len() ==> #[trigger] s[i] == s.drop_first()[i - 1]);
        if fields_encodable(s) {
            assert forall|i: int|
                0 <= i < s.len() implies str_encodable((#[trigger] s[i]).0) && encodable(
                s[i].1,
            ) by {
                if i > 0 {
                    assert(s[i] == s.drop_first()[i - 1]);
                    assert(str_encodable((s.drop_first()[i - 1]).0) && encodable(
                        s.drop_first()[i - 1].1,
                    ));
                }
            }
        }
        if forall|i: int| 0 <= i < s.len() ==> str_encodable((#[trigger] s[i]).0) && encodable(
            s[i].1,
        ) {
            assert forall|i: int|
                0 <= i < s.drop_first().len() implies str_encodable(
                (#[trigger] s.drop_first()[i]).0,
            ) && encodable(s.drop_first()[i].1) by {
                assert(s.drop_first()[i] == s[i + 1]);
                assert(str_encodable((s[i + 1]).0) && encodable(s[i + 1].1));
            }
        }
    }
}

/// Appending one element appends its encoding.
pub proof fn lemma_enc_elems_snoc(s: Seq<DocView>, v: DocView)
    ensures
        enc_elems(s.push(v)) == enc_elems(s) + enc(v),
    decreases s.len(),
{
    if s.len() == 0 {
        assert(s.push(v).drop_first() =~= Seq::<DocView>::empty());
        assert(s.push(v)[0] == v);
        assert(enc_elems(s.push(v)) == enc(s.push(v)[0]) + enc_elems(s.push(v).drop_first()));
        assert(enc_elems(s.push(v)) =~= enc(v) + Seq::<u8>::empty());
        assert(enc(v) + Seq::<u8>::empty() =~= enc(v));
        assert(enc_elems(s) + enc(v) =~= enc(v));
    } else {
        assert(s.push(v).drop_first() =~= s.drop_first().push(v));
        assert(s.push(v)[0] == s[0]);
        assert(enc_elems(s.push(v)) == enc(s.push(v)[0]) + enc_elems(s.push(v).drop_first()));
        lemma_enc_elems_snoc(s.drop_first(), v);
        assert(enc_elems(s.push(v)) =~= enc(s[0]) + (enc_elems(s.drop_first()) + enc(v)));
        assert(enc(s[0]) + (enc_elems(s.drop_first()) + enc(v)) =~= (enc(s[0]) + enc_elems(
            s.drop_first(),
        )) + enc(v));
    }
}

/// Appending one field appends its key and value encodings.
pub proof fn lemma_enc_fields_snoc(s: Seq<(Seq<char>, DocView)>, k: Seq<char>, v: DocView)
    ensures
        enc_fields(s.push((k, v))) == enc_fields(s) + enc_str(k) + enc(v),
    decreases s.len(),
{
    if s.len() == 0 {
        assert(s.push((k, v)).drop_first() =~= Seq::<(Seq<char>, DocView)>::empty());
        assert(s.push((k, v))[0] == (k, v));
        assert(enc_fields(s.push((k, v))) == enc_str(s.push((k, v))[0].0) + enc(
            s.push((k, v))[0].1,
        ) + enc_fields(s.push((k, v)).drop_first()));
        assert(enc_fields(s.push((k, v))) =~= enc_str(k) + enc(v) + Seq::<u8>::empty());
        assert(enc_str(k) + enc(v) + Seq::<u8>::empty() =~= enc_str(k) + enc(v));
        assert(enc_fields(s) + enc_str(k) + enc(v) =~= enc_str(k) + enc(v));
    } else {
        assert(s.push((k, v)).drop_first() =~= s.drop_first().push((k, v)));
        assert(s.push((k, v))[0] == s[0]);
        assert(enc_fields(s.push((k, v))) == enc_str(s.push((k, v))[0].0) + enc(
            s.push((k, v))[0].1,
        ) + enc_fields(s.push((k, v)).drop_first()));
        lemma_enc_fields_snoc(s.drop_first(), k, v);
        assert(enc_fields(s.push((k, v))) =~= enc_str(s[0].0) + enc(s[0].1) + (enc_fields(
            s.drop_first(),
        ) + enc_str(k) + enc(v)));
        assert(enc_str(s[0].0) + enc(s[0].1) + (enc_fields(s.drop_first()) + enc_str(k) + enc(v))
            =~= (enc_str(s[0].0) + enc(s[0].1) + enc_fields(s.drop_first())) + enc_str(k) + enc(v));
    }
}

/// Appends the four big-endian bytes of `n`.
fn push_be32(out: &mut Vec<u8>, n: u32)
    ensures
        final(out)@ == old(out)@ + be32(n),
{
    out.push((n >> 24) as u8);
    out.push((n >> 16) as u8);
    out.push((n >> 8) as u8);
    out.push(n as u8);
    assert(out@ =~= old(out)@ + be32(n));
}

/// Appends the eight big-endian bytes of `n`.
fn push_be64(out: &mut Vec<u8>, n: u64)
    ensures
        final(out)@ == old(out)@ + be64(n),
{
    out.push((n >> 56) as u8);
    out.push((n >> 48) as u8);
    out.push((n >> 40) as u8);
    out.push((n >> 32) as u8);
    out.push((n >> 24) as u8);
    out.push((n >> 16) as u8);
    out.push((n >> 8) as u8);
    out.push(n as u8);
    assert(out@ =~= old(out)@ + be64(n));
}

/// Appends the encoding of one string, or reports why it has none.
fn encode_str_into(s: &str, out: &mut Vec<u8>) -> (r: Result<(), KvStoreError>)
    ensures
        r is Ok ==> final(out)@ == old(out)@ + enc_str(s@) && str_encodable(s@),
        r is Err ==> !str_encodable(s@) && r matches Err(KvStoreError::SerializationError(_)),
{
    let mut bytes = s.as_bytes_vec();
    if bytes.len() as u64 >= COUNT_LIMIT {
        return Err(KvStoreError::SerializationError("string longer than the length field".to_owned()));
    }
    out.push(TAG_STR);
    push_be32(out, bytes.len() as u32);
    out.append(&mut bytes);
    assert(out@ =~= old(out)@ + enc_str(s@));
    Ok(())
}

/// Appends the encoding of `v`, or reports why it has none.
#[verifier::loop_isolation(false)]
fn encode_into(v: &DocValue, out: &mut Vec<u8>) -> (r: Result<(), KvStoreError>)
    ensures
        r is Ok ==> final(out)@ == old(out)@ + enc(v@) && encodable(v@),
        r is Err ==> !encodable(v@) && r matches Err(KvStoreError::SerializationError(_)),
    decreases v,
{
    match v {
        DocValue::Null => {
            out.push(TAG_NULL);
            assert(out@ =~= old(out)@ + enc(v@));
            Ok(())
        },
        DocValue::Bool(b) => {
            out.push(if *b { TAG_TRUE } else { TAG_FALSE });
            assert(out@ =~= old(out)@ + enc(v@));
            Ok(())
        },
        DocValue::Int(i) => {
            out.push(TAG_INT);
            push_be64(out, crate::wire::i64_bits(*i));
            assert(out@ =~= old(out)@ + enc(v@));
            Ok(())
        },
        DocValue::Str(s) => {
            let r = encode_str_into(s.as_str(), out);
            match r {
                Ok(()) => Ok(()),
                Err(e) => Err(e),
            }
        },
        DocValue::Arr(elems) => {
            if elems.len() as u64 >= COUNT_LIMIT {
                proof {
                    lemma_elems_encodable_index(arr_views(elems@));
                    crate::value::lemma_arr_views_len(elems@);
                }
                return Err(KvStoreError::SerializationError("array longer than the count field".to_owned()));
            }
            out.push(TAG_ARR);
            push_be32(out, elems.len() as u32);
            let ghost header = old(out)@ + seq![TAG_ARR] + be32(elems@.len() as u32);
            assert(out@ =~= header);
            let mut idx: usize = 0;
            while idx < elems.len()
                invariant
                    idx <= elems.len(),
                    out@ == header + enc_elems(arr_views(elems@.take(idx as int))),
                    elems_encodable(arr_views(elems@.take(idx as int))),
                decreases elems.len() - idx,
            {
                let r = encode_into(&elems[idx], out);
                proof {
                    crate::value::lemma_arr_views_len(elems@.take(idx as int));
                }
                match r {
                    Ok(()) => {},
                    Err(e) => {
                        proof {
                            crate::value::lemma_arr_views_index(elems@, idx as int);
                            lemma_elems_encodable_index(arr_views(elems@));
                            crate::value::lemma_arr_views_len(elems@);
                        }
                        return Err(e);
                    },
                }
                proof {
                    assert(elems@.take(idx + 1).drop_last() =~= elems@.take(idx as int));
                    assert(elems@.take(idx + 1).last() == elems@[idx as int]);
                    assert(elems@.take(idx + 1) =~= elems@.take(idx as int).push(
                        elems@[idx as int],
                    ));
                    crate::value::lemma_arr_views_snoc(elems@.take(idx as int), elems@[idx as int]);
                    assert(arr_views(elems@.take(idx as int)).push(doc_view(elems@[idx as int]))
                        =~= arr_views(elems@.take(idx as int)) + seq![
                        doc_view(elems@[idx as int]),
                    ]);
                    assert(arr_views(elems@.take(idx as int + 1)) == arr_views(
                        elems@.take(idx as int),
                    ).push(doc_view(elems@[idx as int])));
                    lemma_enc_elems_snoc(
                        arr_views(elems@.take(idx as int)),
                        doc_view(elems@[idx as int]),
                    );
                    lemma_elems_encodable_snoc(
                        arr_views(elems@.take(idx as int)),
                        doc_view(elems@[idx as int]),
                    );
                    assert(out@ =~= header + enc_elems(arr_views(elems@.take(idx as int + 1))));
                }
                idx = idx + 1;
            }
            proof {
                assert(elems@.take(elems@.len() as int) =~= elems@);
                crate::value::lemma_arr_views_len(elems@);
                assert(enc(v@) == seq![TAG_ARR] + be32(arr_views(elems@).len() as u32)
                    + enc_elems(arr_views(elems@)));
                assert(out@ =~= old(out)@ + enc(v@));
            }
            Ok(())
        },
        DocValue::Obj(fields) => {
            if fields.len() as u64 >= COUNT_LIMIT {
                proof {
                    lemma_fields_encodable_index(obj_views(fields@));
                    crate::value::lemma_obj_views_len(fields@);
                }
                return Err(KvStoreError::SerializationError("object longer than the count field".to_owned()));
            }
            out.push(TAG_OBJ);
            push_be32(out, fields.len() as u32);
            let ghost header = old(out)@ + seq![TAG_OBJ] + be32(fields@.len() as u32);
            assert(out@ =~= header);
            let mut idx: usize = 0;
            while idx < fields.len()
                invariant
                    idx <= fields.len(),
                    out@ == header + enc_fields(obj_views(fields@.take(idx as int))),
                    fields_encodable(obj_views(fields@.take(idx as int))),
                decreases fields.len() - idx,
            {
                let r = encode_str_into(fields[idx].0.as_str(), out);
                proof {
                    crate::value::lemma_obj_views_len(fields@.take(idx as int));
                }
                match r {
                    Ok(()) => {},
                    Err(e) => {
                        proof {
                            crate::value::lemma_obj_views_index(fields@, idx as int);
                            lemma_fields_encodable_index(obj_views(fields@));
                            crate::value::lemma_obj_views_len(fields@);
                        }
                        return Err(e);
                    },
                }
                let r2 = encode_into(&fields[idx].1, out);
                match r2 {
                    Ok(()) => {},
                    Err(e) => {
                        proof {
                            crate::value::lemma_obj_views_index(fields@, idx as int);
                            lemma_fields_encodable_index(obj_views(fields@));
                            crate::value::lemma_obj_views_len(fields@);
                        }
                        return Err(e);
                    },
                }
                proof {
                    assert(fields@.take(idx + 1).drop_last() =~= fields@.take(idx as int));
                    assert(fields@.take(idx + 1) =~= fields@.take(idx as int).push(
                        fields@[idx as int],
                    ));
                    crate::value::lemma_obj_views_snoc(
                        fields@.take(idx as int),
                        fields@[idx as int],
                    );
                    assert(obj_views(fields@.take(idx as int)).push(
                        (fields@[idx as int].0@, doc_view(fields@[idx as int].1)),
                    ) =~= obj_views(fields@.take(idx as int)) + seq![
                        (fields@[idx as int].0@, doc_view(fields@[idx as int].1)),
                    ]);
                    assert(obj_views(fields@.take(idx as int + 1)) == obj_views(
                        fields@.take(idx as int),
                    ).push((fields@[idx as int].0@, doc_view(fields@[idx as int].1))));
                    lemma_enc_fields_snoc(
                        obj_views(fields@.take(idx as int)),
                        fields@[idx as int].0@,
                        doc_view(fields@[idx as int].1),
                    );
                    lemma_fields_encodable_snoc(
                        obj_views(fields@.take(idx as int)),
                        fields@[idx as int].0@,
                        doc_view(fields@[idx as int].1),
                    );
                    assert(out@ =~= header + enc_fields(obj_views(fields@.take(idx as int + 1))));
                }
                idx = idx + 1;
            }
            proof {
                assert(fields@.take(fields@.len() as int) =~= fields@);
                crate::value::lemma_obj_views_len(fields@);
                assert(enc(v@) == seq![TAG_OBJ] + be32(obj_views(fields@).len() as u32)
                    + enc_fields(obj_views(fields@)));
                assert(out@ =~= old(out)@ + enc(v@));
            }
            Ok(())
        },
    }
}

/// Appending one encodable element keeps the sequence encodable.
pub proof fn lemma_elems_encodable_snoc(s: Seq<DocView>, v: DocView)
    requires
        elems_encodable(s),
        encodable(v),
    ensures
        elems_encodable(s.push(v)),
{
    lemma_elems_encodable_index(s);
    lemma_elems_encodable_index(s.push(v));
    assert(forall|i: int| 0 <= i < s.len() ==> s.push(v)[i] == #[trigger] s[i]);
    assert(s.push(v)[s.len() as int] == v);
}

/// Appending one encodable field keeps the sequence encodable.
pub proof fn lemma_fields_encodable_snoc(s: Seq<(Seq<char>, DocView)>, k: Seq<char>, v: DocView)
    requires
        fields_encodable(s),
        str_encodable(k),
        encodable(v),
    ensures
        fields_encodable(s.push((k, v))),
{
    lemma_fields_encodable_index(s);
    lemma_fields_encodable_index(s.push((k, v)));
    assert(forall|i: int| 0 <= i < s.len() ==> s.push((k, v))[i] == #[trigger] s[i]);
    assert(s.push((k, v))[s.len() as int] == (k, v));
}

/// The binary codec: encodes document values into the compact wire format
/// above and decodes them back.
pub struct MessagePackSerializer;

impl MessagePackSerializer {
    /// Encodes a value.  Succeeds exactly when every string length and
    /// collection count fits the wire format's four-byte fields, and then
    /// returns the value's unique encoding.
    pub fn serialize(&self, value: &DocValue) -> (r: Result<Vec<u8>, KvStoreError>)
        ensures
            r matches Ok(b) ==> b@ == enc(value@) && encodable(value@),
            r is Err ==> !encodable(value@) && r matches Err(
                KvStoreError::SerializationError(_),
            ),
    {
        let mut out: Vec<u8> = Vec::new();
        match encode_into(value, &mut out) {
            Ok(()) => {
                assert(out@ =~= enc(value@));
                Ok(out)
            },
            Err(e) => Err(e),
        }
    }
}

/// The value decoded at position `pos`, with the position just past it;
/// absent when the bytes there are not a canonical encoding.
pub open spec fn dec(b: Seq<u8>, pos: int) -> Option<(DocView, int)>
    decreases b.len() - pos, 0int, 0int,
{
    if pos < 0 || pos >= b.len() {
        None
    } else {
        let tag = b[pos];
        if tag == TAG_NULL {
            Some((DocView::Null, pos + 1))
        } else if tag == TAG_FALSE {
            Some((DocView::Bool(false), pos + 1))
        } else if tag == TAG_TRUE {
            Some((DocView::Bool(true), pos + 1))
        } else if tag == TAG_INT {
            if pos + 9 <= b.len() {
                Some(
                    (
                        DocView::Int(
                            crate::wire::to_signed64(
                                crate::wire::be64_val(
                                    b[pos + 1],
                                    b[pos + 2],
                                    b[pos + 3],
                                    b[pos + 4],
                                    b[pos + 5],
                                    b[pos + 6],
                                    b[pos + 7],
                                    b[pos + 8],
                                ) as int,
                            ),
                        ),
                        pos + 9,
                    ),
                )
            } else {
                None
            }
        } else if tag == TAG_STR {
            if pos + 5 <= b.len() {
                let n = crate::wire::be32_val(b[pos + 1], b[pos + 2], b[pos + 3], b[pos + 4]) as int;
                if pos + 5 + n <= b.len() {
                    let chunk = b.subrange(pos + 5, pos + 5 + n);
                    if vstd::utf8::valid_utf8(chunk) {
                        Some((DocView::Str(vstd::utf8::decode_utf8(chunk)), pos + 5 + n))
                    } else {
                        None
                    }
                } else {
                    None
                }
            } else {
                None
            }
        } else if tag == TAG_ARR {
            if pos + 5 <= b.len() {
                let n = crate::wire::be32_val(b[pos + 1], b[pos + 2], b[pos + 3], b[pos + 4]) as int;
                match dec_elems_at(b, pos + 5, n) {
                    Some((vs, end)) => Some((DocView::Arr(vs), end)),
                    None => None,
                }
            } else {
                None
            }
        } else if tag == TAG_OBJ {
            if pos + 5 <= b.len() {
                let n = crate::wire::be32_val(b[pos + 1], b[pos + 2], b[pos + 3], b[pos + 4]) as int;
                match dec_fields_at(b, pos + 5, n) {
                    Some((fs, end)) => Some((DocView::Obj(fs), end)),
                    None => None,
                }
            } else {
                None
            }
        } else {
            None
        }
    }
}

/// `n` array elements decoded one after another from position `pos`.
pub open spec fn dec_elems_at(b: Seq<u8>, pos: int, n: int) -> Option<(Seq<DocView>, int)>
    decreases b.len() - pos, 1int, n,
{
    if n <= 0 {
        Some((Seq::empty(), pos))
    } else {
        match dec(b, pos) {
            Some((v, p2)) => if pos < p2 <= b.len() {
                match dec_elems_at(b, p2, n - 1) {
                    Some((vs, end)) => Some((seq![v] + vs, end)),
                    None => None,
                }
            } else {
                None
            },
            None => None,
        }
    }
}

/// `n` object fields (key string, then value) decoded one after another
/// from position `pos`.
pub open spec fn dec_fields_at(b: Seq<u8>, pos: int, n: int) -> Option<
    (Seq<(Seq<char>, DocView)>, int),
>
    decreases b.len() - pos, 1int, n,
{
    if n <= 0 {
        Some((Seq::empty(), pos))
    } else {
        match dec(b, pos) {
            Some((kv, p2)) => match kv {
                DocView::Str(k) => if pos < p2 <= b.len() {
                    match dec(b, p2) {
                        Some((v, p3)) => if p2 < p3 <= b.len() {
                            match dec_fields_at(b, p3, n - 1) {
                                Some((fs, end)) => Some((seq![(k, v)] + fs, end)),
                                None => None,
                            }
                        } else {
                            None
                        },
                        None => None,
                    }
                } else {
                    None
                },
                _ => None,
            },
            None => None,
        }
    }
}

/// The one value a whole byte string decodes to, with nothing trailing.
pub open spec fn whole_dec(b: Seq<u8>) -> Option<DocView> {
    match dec(b, 0) {
        Some((v, p)) => if p == b.len() {
            Some(v)
        } else {
            None
        },
        None => None,
    }
}

/// Every encoding is at least one byte long.
pub proof fn lemma_enc_len_pos(v: DocView)
    ensures
        enc(v).len() >= 1,
{
    match v {
        DocView::Null => {},
        DocView::Bool(_) => {},
        DocView::Int(_) => {},
        DocView::Str(s) => {},
        DocView::Arr(elems) => {},
        DocView::Obj(fields) => {},
    }
}

/// A subrange equal to `e` gives the bytes of `b` pointwise.
proof fn lemma_bytes_at(b: Seq<u8>, pos: int, e: Seq<u8>)
    requires
        0 <= pos,
        pos + e.len() <= b.len(),
        b.subrange(pos, pos + e.len()) == e,
    ensures
        forall|i: int| 0 <= i < e.len() ==> b[pos + i] == #[trigger] e[i],
{
    assert forall|i: int| 0 <= i < e.len() implies b[pos + i] == #[trigger] e[i] by {
        assert(e[i] == b.subrange(pos, pos + e.len())[i]);
    }
}

/// Decoding at the start of an encoded string yields that string.
proof fn lemma_dec_str(s: Seq<char>, b: Seq<u8>, pos: int)
    requires
        str_encodable(s),
        0 <= pos,
        pos + enc_str(s).len() <= b.len(),
        b.subrange(pos, pos + enc_str(s).len()) == enc_str(s),
    ensures
        dec(b, pos) == Some((DocView::Str(s), pos + enc_str(s).len())),
{
    let u = encode_utf8(s);
    let l = u.len() as int;
    let lw = l as u32;
    lemma_bytes_at(b, pos, enc_str(s));
    assert(enc_str(s).len() == 5 + l);
    assert(b[pos] == enc_str(s)[0]);
    assert(enc_str(s)[0] == TAG_STR);
    assert(b[pos + 1] == enc_str(s)[1] && enc_str(s)[1] == be32(lw)[0]);
    assert(b[pos + 2] == enc_str(s)[2] && enc_str(s)[2] == be32(lw)[1]);
    assert(b[pos + 3] == enc_str(s)[3] && enc_str(s)[3] == be32(lw)[2]);
    assert(b[pos + 4] == enc_str(s)[4] && enc_str(s)[4] == be32(lw)[3]);
    crate::wire::lemma_be32_roundtrip(lw);
    assert(crate::wire::be32_val(b[pos + 1], b[pos + 2], b[pos + 3], b[pos + 4]) == lw);
    assert(lw as int == l);
    let chunk = b.subrange(pos + 5, pos + 5 + l);
    assert forall|i: int| 0 <= i < l implies chunk[i] == u[i] by {
        assert(b[pos + (5 + i)] == enc_str(s)[5 + i]);
        assert(enc_str(s)[5 + i] == u[i]);
    }
    assert(chunk =~= u);
    vstd::utf8::encode_utf8_valid_utf8(s);
    vstd::utf8::encode_utf8_decode_utf8(s);
    assert(dec(b, pos) == Some((DocView::Str(s), pos + 5 + l)));
}

/// Decoding at the start of an encoded value yields that value: the
/// decoder inverts the encoder wherever the encoder is defined.
pub proof fn lemma_dec_enc(v: DocView, b: Seq<u8>, pos: int)
    requires
        encodable(v),
        0 <= pos,
        pos + enc(v).len() <= b.len(),
        b.subrange(pos, pos + enc(v).len()) == enc(v),
    ensures
        dec(b, pos) == Some((v, pos + enc(v).len())),
    decreases v,
{
    lemma_bytes_at(b, pos, enc(v));
    match v {
        DocView::Null => {
            assert(b[pos + 0] == enc(v)[0]);
        },
        DocView::Bool(bb) => {
            assert(b[pos + 0] == enc(v)[0]);
        },
        DocView::Int(i) => {
            assert(b[pos + 0] == enc(v)[0]);
            let u = crate::wire::to_unsigned64(i) as u64;
            assert forall|j: int| 1 <= j < 9 implies #[trigger] b[pos + j] == crate::wire::be64(
                u,
            )[j - 1] by {
                assert(b[pos + j] == enc(v)[j]);
            }
            crate::wire::lemma_be64_roundtrip(u);
            assert(crate::wire::be64_val(
                b[pos + 1],
                b[pos + 2],
                b[pos + 3],
                b[pos + 4],
                b[pos + 5],
                b[pos + 6],
                b[pos + 7],
                b[pos + 8],
            ) == u);
            crate::wire::lemma_signed64_roundtrip(i);
        },
        DocView::Str(s) => {
            lemma_dec_str(s, b, pos);
        },
        DocView::Arr(elems) => {
            let body = enc_elems(elems);
            let lw = elems.len() as u32;
            assert(enc(v).len() == 5 + body.len());
            assert(b[pos + 0] == enc(v)[0]);
            assert(enc(v)[0] == TAG_ARR);
            assert forall|j: int| 1 <= j < 5 implies #[trigger] b[pos + j] == be32(lw)[j - 1] by {
                assert(b[pos + j] == enc(v)[j]);
            }
            crate::wire::lemma_be32_roundtrip(lw);
            assert(crate::wire::be32_val(b[pos + 1], b[pos + 2], b[pos + 3], b[pos + 4]) == lw);
            assert(lw as int == elems.len());
            let sub = b.subrange(pos + 5, pos + 5 + body.len());
            assert forall|i: int| 0 <= i < body.len() implies sub[i] == body[i] by {
                assert(b[pos + (5 + i)] == enc(v)[5 + i]);
                assert(enc(v)[5 + i] == body[i]);
            }
            assert(sub =~= body);
            lemma_dec_elems_enc(elems, b, pos + 5);
            assert(dec_elems_at(b, pos + 5, elems.len() as int) == Some(
                (elems, pos + 5 + body.len()),
            ));
        },
        DocView::Obj(fields) => {
            let body = enc_fields(fields);
            let lw = fields.len() as u32;
            assert(enc(v).len() == 5 + body.len());
            assert(b[pos + 0] == enc(v)[0]);
            assert(enc(v)[0] == TAG_OBJ);
            assert forall|j: int| 1 <= j < 5 implies #[trigger] b[pos + j] == be32(lw)[j - 1] by {
                assert(b[pos + j] == enc(v)[j]);
            }
            crate::wire::lemma_be32_roundtrip(lw);
            assert(crate::wire::be32_val(b[pos + 1], b[pos + 2], b[pos + 3], b[pos + 4]) == lw);
            assert(lw as int == fields.len());
            let sub = b.subrange(pos + 5, pos + 5 + body.len());
            assert forall|i: int| 0 <= i < body.len() implies sub[i] == body[i] by {
                assert(b[pos + (5 + i)] == enc(v)[5 + i]);
                assert(enc(v)[5 + i] == body[i]);
            }
            assert(sub =~= body);
            lemma_dec_fields_enc(fields, b, pos + 5);
            assert(dec_fields_at(b, pos + 5, fields.len() as int) == Some(
                (fields, pos + 5 + body.len()),
            ));
        },
    }
}

/// Decoding at the start of encoded elements yields those elements.
pub proof fn lemma_dec_elems_enc(elems: Seq<DocView>, b: Seq<u8>, pos: int)
    requires
        elems_encodable(elems),
        0 <= pos,
        pos + enc_elems(elems).len() <= b.len(),
        b.subrange(pos, pos + enc_elems(elems).len()) == enc_elems(elems),
    ensures
        dec_elems_at(b, pos, elems.len() as int) == Some(
            (elems, pos + enc_elems(elems).len()),
        ),
    decreases elems,
{
    if elems.len() == 0 {
        assert(enc_elems(elems).len() == 0);
    } else {
        let head = elems[0];
        let rest = elems.drop_first();
        let eh = enc(head);
        let er = enc_elems(rest);
        assert(enc_elems(elems) == eh + er);
        lemma_bytes_at(b, pos, enc_elems(elems));
        let subh = b.subrange(pos, pos + eh.len());
        assert forall|i: int| 0 <= i < eh.len() implies subh[i] == eh[i] by {
            assert(b[pos + i] == enc_elems(elems)[i]);
            assert(enc_elems(elems)[i] == eh[i]);
        }
        assert(subh =~= eh);
        lemma_dec_enc(head, b, pos);
        lemma_enc_len_pos(head);
        let p2 = pos + eh.len();
        let subr = b.subrange(p2, p2 + er.len());
        assert forall|i: int| 0 <= i < er.len() implies subr[i] == er[i] by {
            assert(b[pos + (eh.len() + i)] == enc_elems(elems)[eh.len() + i]);
            assert(enc_elems(elems)[eh.len() + i] == er[i]);
        }
        assert(subr =~= er);
        lemma_dec_elems_enc(rest, b, p2);
        assert(seq![head] + rest =~= elems);
    }
}

/// Decoding at the start of encoded fields yields those fields.
pub proof fn lemma_dec_fields_enc(fields: Seq<(Seq<char>, DocView)>, b: Seq<u8>, pos: int)
    requires
        fields_encodable(fields),
        0 <= pos,
        pos + enc_fields(fields).len() <= b.len(),
        b.subrange(pos, pos + enc_fields(fields).len()) == enc_fields(fields),
    ensures
        dec_fields_at(b, pos, fields.len() as int) == Some(
            (fields, pos + enc_fields(fields).len()),
        ),
    decreases fields,
{
    if fields.len() == 0 {
        assert(enc_fields(fields).len() == 0);
    } else {
        let k = fields[0].0;
        let val = fields[0].1;
        let rest = fields.drop_first();
        let ek = enc_str(k);
        let ev = enc(val);
        let er = enc_fields(rest);
        assert(enc_fields(fields) == ek + ev + er);
        lemma_bytes_at(b, pos, enc_fields(fields));
        let subk = b.subrange(pos, pos + ek.len());
        assert forall|i: int| 0 <= i < ek.len() implies subk[i] == ek[i] by {
            assert(b[pos + i] == enc_fields(fields)[i]);
            assert(enc_fields(fields)[i] == (ek + ev)[i]);
        }
        assert(subk =~= ek);
        lemma_dec_str(k, b, pos);
        let p2 = pos + ek.len();
        let subv = b.subrange(p2, p2 + ev.len());
        assert forall|i: int| 0 <= i < ev.len() implies subv[i] == ev[i] by {
            assert(b[pos + (ek.len() + i)] == enc_fields(fields)[ek.len() + i]);
            assert(enc_fields(fields)[ek.len() + i] == (ek + ev)[ek.len() + i]);
        }
        assert(subv =~= ev);
        lemma_dec_enc(val, b, p2);
        lemma_enc_len_pos(val);
        let p3 = p2 + ev.len();
        let subr = b.subrange(p3, p3 + er.len());
        assert forall|i: int| 0 <= i < er.len() implies subr[i] == er[i] by {
            assert(b[pos + (ek.len() + ev.len() + i)] == enc_fields(fields)[ek.len() + ev.len()
                + i]);
            assert(enc_fields(fields)[ek.len() + ev.len() + i] == er[i]);
        }
        assert(subr =~= er);
        lemma_dec_fields_enc(rest, b, p3);
        assert(seq![(k, val)] + rest =~= fields);
    }
}

/// A fresh decode failure.
fn bad_bytes() -> (e: KvStoreError)
    ensures
        e matches KvStoreError::DeserializationError(_),
{
    KvStoreError::DeserializationError("not a canonical encoding".to_owned())
}

/// Relies on core::str::from_utf8: it succeeds exactly on valid UTF-8
/// and returns the characters the bytes decode to.
#[verifier::external_body]
fn utf8_to_string(b: &[u8]) -> (r: Option<String>)
    ensures
        r is Some <==> vstd::utf8::valid_utf8(b@),
        r matches Some(s) ==> s@ == vstd::utf8::decode_utf8(b@),
{
    match core::str::from_utf8(b) {
        Ok(s) => Some(s.to_owned()),
        Err(_) => None,
    }
}

/// Reads a four-byte big-endian value.
fn read_u32_at(b: &[u8], pos: usize) -> (r: u32)
    requires
        pos + 4 <= b@.len() <= usize::MAX,
    ensures
        r == crate::wire::be32_val(
            b@[pos as int],
            b@[pos as int + 1],
            b@[pos as int + 2],
            b@[pos as int + 3],
        ),
{
    let b0 = *slice_index_get(b, pos);
    let b1 = *slice_index_get(b, pos + 1);
    let b2 = *slice_index_get(b, pos + 2);
    let b3 = *slice_index_get(b, pos + 3);
    ((b0 as u32) << 24) | ((b1 as u32) << 16) | ((b2 as u32) << 8) | (b3 as u32)
}

/// Reads an eight-byte big-endian value.
fn read_u64_at(b: &[u8], pos: usize) -> (r: u64)
    requires
        pos + 8 <= b@.len() <= usize::MAX,
    ensures
        r == crate::wire::be64_val(
            b@[pos as int],
            b@[pos as int + 1],
            b@[pos as int + 2],
            b@[pos as int + 3],
            b@[pos as int + 4],
            b@[pos as int + 5],
            b@[pos as int + 6],
            b@[pos as int + 7],
        ),
{
    let b0 = *slice_index_get(b, pos);
    let b1 = *slice_index_get(b, pos + 1);
    let b2 = *slice_index_get(b, pos + 2);
    let b3 = *slice_index_get(b, pos + 3);
    let b4 = *slice_index_get(b, pos + 4);
    let b5 = *slice_index_get(b, pos + 5);
    let b6 = *slice_index_get(b, pos + 6);
    let b7 = *slice_index_get(b, pos + 7);
    ((b0 as u64) << 56) | ((b1 as u64) << 48) | ((b2 as u64) << 40) | ((b3 as u64) << 32) | ((
    b4 as u64) << 24) | ((b5 as u64) << 16) | ((b6 as u64) << 8) | (b7 as u64)
}

/// Decodes the value at position `pos`, mirroring [`dec`] exactly.
fn decode_at(b: &[u8], pos: usize) -> (r: Result<(DocValue, usize), KvStoreError>)
    ensures
        r matches Ok(vp) ==> dec(b@, pos as int) == Some((vp.0@, vp.1 as int)) && pos < vp.1
            <= b@.len(),
        r is Err ==> dec(b@, pos as int) is None && r matches Err(
            KvStoreError::DeserializationError(_),
        ),
    decreases b@.len() - pos, 0int, 0int,
{
    if pos >= b.len() {
        return Err(bad_bytes());
    }
    let tag = *slice_index_get(b, pos);
    if tag == TAG_NULL {
        Ok((DocValue::Null, pos + 1))
    } else if tag == TAG_FALSE {
        Ok((DocValue::Bool(false), pos + 1))
    } else if tag == TAG_TRUE {
        Ok((DocValue::Bool(true), pos + 1))
    } else if tag == TAG_INT {
        if b.len() - pos >= 9 {
            let u = read_u64_at(b, pos + 1);
            let i = crate::wire::i64_from_bits(u);
            Ok((DocValue::Int(i), pos + 9))
        } else {
            Err(bad_bytes())
        }
    } else if tag == TAG_STR {
        if b.len() - pos >= 5 {
            let n = read_u32_at(b, pos + 1) as usize;
            if n <= b.len() - (pos + 5) {
                let chunk = slice_subrange(b, pos + 5, pos + 5 + n);
                match utf8_to_string(chunk) {
                    Some(s) => Ok((DocValue::Str(s), pos + 5 + n)),
                    None => Err(bad_bytes()),
                }
            } else {
                Err(bad_bytes())
            }
        } else {
            Err(bad_bytes())
        }
    } else if tag == TAG_ARR {
        if b.len() - pos >= 5 {
            let n = read_u32_at(b, pos + 1);
            match decode_elems_at(b, pos + 5, n) {
                Ok((vs, end)) => Ok((DocValue::Arr(vs), end)),
                Err(e) => Err(e),
            }
        } else {
            Err(bad_bytes())
        }
    } else if tag == TAG_OBJ {
        if b.len() - pos >= 5 {
            let n = read_u32_at(b, pos + 1);
            match decode_fields_at(b, pos + 5, n) {
                Ok((fs, end)) => Ok((DocValue::Obj(fs), end)),
                Err(e) => Err(e),
            }
        } else {
            Err(bad_bytes())
        }
    } else {
        Err(bad_bytes())
    }
}

/// Decodes `n` array elements from position `pos`, mirroring
/// [`dec_elems_at`] exactly.
fn decode_elems_at(b: &[u8], pos: usize, n: u32) -> (r: Result<
    (Vec<DocValue>, usize),
    KvStoreError,
>)
    requires
        pos <= b@.len(),
    ensures
        r matches Ok(ve) ==> dec_elems_at(b@, pos as int, n as int) == Some(
            (arr_views(ve.0@), ve.1 as int),
        ) && pos <= ve.1 <= b@.len(),
        r is Err ==> dec_elems_at(b@, pos as int, n as int) is None && r matches Err(
            KvStoreError::DeserializationError(_),
        ),
    decreases b@.len() - pos, 1int, n,
{
    if n == 0 {
        let vs: Vec<DocValue> = Vec::new();
        assert(arr_views(vs@) =~= Seq::<DocView>::empty());
        Ok((vs, pos))
    } else {
        match decode_at(b, pos) {
            Ok((v, p2)) => {
                match decode_elems_at(b, p2, n - 1) {
                    Ok((tail, end)) => {
                        let mut vs = tail;
                        let ghost prev = vs@;
                        vs.insert(0, v);
                        proof {
                            assert(vs@.drop_first() =~= prev);
                            assert(vs@[0] == v);
                            assert(arr_views(vs@) == seq![doc_view(vs@[0])] + arr_views(
                                vs@.drop_first(),
                            ));
                        }
                        Ok((vs, end))
                    },
                    Err(e) => Err(e),
                }
            },
            Err(e) => Err(e),
        }
    }
}

/// Decodes `n` object fields from position `pos`, mirroring
/// [`dec_fields_at`] exactly.
fn decode_fields_at(b: &[u8], pos: usize, n: u32) -> (r: Result<
    (Vec<(String, DocValue)>, usize),
    KvStoreError,
>)
    requires
        pos <= b@.len(),
    ensures
        r matches Ok(fe) ==> dec_fields_at(b@, pos as int, n as int) == Some(
            (obj_views(fe.0@), fe.1 as int),
        ) && pos <= fe.1 <= b@.len(),
        r is Err ==> dec_fields_at(b@, pos as int, n as int) is None && r matches Err(
            KvStoreError::DeserializationError(_),
        ),
    decreases b@.len() - pos, 1int, n,
{
    if n == 0 {
        let fs: Vec<(String, DocValue)> = Vec::new();
        assert(obj_views(fs@) =~= Seq::<(Seq<char>, DocView)>::empty());
        Ok((fs, pos))
    } else {
        match decode_at(b, pos) {
            Ok((kv, p2)) => {
                match kv {
                    DocValue::Str(k) => {
                        match decode_at(b, p2) {
                            Ok((v, p3)) => {
                                match decode_fields_at(b, p3, n - 1) {
                                    Ok((tail, end)) => {
                                        let mut fs = tail;
                                        let ghost prev = fs@;
                                        fs.insert(0, (k, v));
                                        proof {
                                            assert(fs@.drop_first() =~= prev);
                                            assert(obj_views(fs@) == seq![
                                                (fs@[0].0@, doc_view(fs@[0].1)),
                                            ] + obj_views(fs@.drop_first()));
                                        }
                                        Ok((fs, end))
                                    },
                                    Err(e) => Err(e),
                                }
                            },
                            Err(e) => Err(e),
                        }
                    },
                    _ => {
                        proof {
                            let kvv = kv@;
                            assert(!(kvv is Str));
                        }
                        Err(bad_bytes())
                    },
                }
            },
            Err(e) => Err(e),
        }
    }
}

impl MessagePackSerializer {
    /// Decodes a value.  Succeeds exactly when the bytes are the
    /// encoding of one value with nothing trailing, and then returns
    /// that value.
    pub fn deserialize(&self, bytes: &[u8]) -> (r: Result<DocValue, KvStoreError>)
        ensures
            r matches Ok(v) ==> whole_dec(bytes@) == Some(v@),
            r is Err <==> whole_dec(bytes@) is None,
            r is Err ==> r matches Err(KvStoreError::DeserializationError(_)),
    {
        match decode_at(bytes, 0) {
            Ok((v, p)) => {
                if p == bytes.len() {
                    Ok(v)
                } else {
                    Err(bad_bytes())
                }
            },
            Err(e) => Err(e),
        }
    }
}

/// Decoding an encoded value recovers it, consuming the whole byte
/// string: the codec is symmetric.
pub proof fn lemma_codec_roundtrip(v: DocView)
    requires
        encodable(v),
    ensures
        whole_dec(enc(v)) == Some(v),
{
    assert(enc(v).subrange(0, enc(v).len() as int) =~= enc(v));
    lemma_dec_enc(v, enc(v), 0);
}

/// Any byte string produced by the encoder re-encodes to itself after a
/// decode: encode of decode is the identity on encoder output.
pub proof fn lemma_decode_then_encode(b: Seq<u8>, v: DocView)
    requires
        encodable(v),
        b == enc(v),
    ensures
        whole_dec(b) matches Some(w) && enc(w) == b,
{
    lemma_codec_roundtrip(v);
}

/// Equal encodings come from equal values: each value has one encoding
/// and each encoding one value.
pub proof fn lemma_enc_injective(v1: DocView, v2: DocView)
    requires
        encodable(v1),
        encodable(v2),
        enc(v1) == enc(v2),
    ensures
        v1 == v2,
{
    lemma_codec_roundtrip(v1);
    lemma_codec_roundtrip(v2);
}

} // verus!
