use vstd::prelude::*;

use crate::codec::{enc, encodable, whole_dec, MessagePackSerializer};
use crate::errors::KvStoreError;
use crate::value::{doc_view, DocValue};
use vstd::string::*;

verus! {

// The store's decision layer: the parts of each operation that compute
// and decide, taken out of the engine calls.  The caller performs the
// engine read or write and hands these functions plain values; they
// return exactly what the operation's contract demands.

/// Decides a typed read from what the engine found under a key: the
/// decoded record when bytes are present and canonical; the key
/// reported as not found when nothing is there; a decode failure when
/// the bytes are not a canonical encoding.
pub fn read_value(found: Option<Vec<u8>>, key: &str) -> (r: Result<DocValue, KvStoreError>)
    ensures
        found is None ==> (r matches Err(KvStoreError::KeyNotFound(k)) && k@ == key@),
        found matches Some(b) ==> ({
            &&& (r matches Ok(v) ==> whole_dec(b@) == Some(v@))
            &&& (r is Err <==> whole_dec(b@) is None)
            &&& (r is Err ==> r matches Err(KvStoreError::DeserializationError(_)))
        }),
{
    match found {
        Some(b) => MessagePackSerializer.deserialize(b.as_slice()),
        None => Err(KvStoreError::KeyNotFound(key.to_owned())),
    }
}

/// Encodes a batch of typed writes, all of them or none: on success
/// every pair carries its key and its value's encoding; if any value
/// has no encoding, nothing is handed to the engine.
#[verifier::loop_isolation(false)]
pub fn encode_batch(items: &Vec<(String, DocValue)>) -> (r: Result<
    Vec<(String, Vec<u8>)>,
    KvStoreError,
>)
    ensures
        r matches Ok(out) ==> out@.len() == items@.len() && (forall|i: int|
            0 <= i < items@.len() ==> (#[trigger] out@[i]).0@ == items@[i].0@ && out@[i].1@ == enc(
                doc_view(items@[i].1),
            ) && encodable(doc_view(items@[i].1))),
        r is Err <==> (exists|i: int|
            0 <= i < items@.len() && !encodable(doc_view((#[trigger] items@[i]).1))),
        r is Err ==> r matches Err(KvStoreError::SerializationError(_)),
{
    let codec = MessagePackSerializer;
    let mut out: Vec<(String, Vec<u8>)> = Vec::new();
    let mut i: usize = 0;
    while i < items.len()
        invariant
            i <= items@.len(),
            out@.len() == i,
            forall|j: int|
                0 <= j < i ==> (#[trigger] out@[j]).0@ == items@[j].0@ && out@[j].1@ == enc(
                    doc_view(items@[j].1),
                ) && encodable(doc_view(items@[j].1)),
        decreases items@.len() - i,
    {
        match codec.serialize(&items[i].1) {
            Ok(b) => {
                let key = items[i].0.clone();
                out.push((key, b));
            },
            Err(e) => {
                return Err(e);
            },
        }
        i = i + 1;
    }
    assert forall|k: int| 0 <= k < items@.len() implies encodable(
        doc_view((#[trigger] items@[k]).1),
    ) by {
        assert((#[trigger] out@[k]).0@ == items@[k].0@);
    }
    Ok(out)
}

/// Decides a collection-scoped operation's first step: the operation
/// may go ahead exactly when the named collection resolves.
pub fn require_collection(cf_exists: bool, cf: &str) -> (r: Result<(), KvStoreError>)
    ensures
        cf_exists <==> r is Ok,
        !cf_exists ==> (r matches Err(KvStoreError::InvalidColumnFamily(n)) && n@ == cf@),
{
    if cf_exists {
        Ok(())
    } else {
        Err(KvStoreError::InvalidColumnFamily(cf.to_owned()))
    }
}

/// Decides a delete: the collection must resolve, and the key must hold
/// a record before it is deleted — deleting a missing key reports it as
/// not found and changes nothing.
pub fn delete_check(cf_exists: bool, cf: &str, found: bool, key: &str) -> (r: Result<
    (),
    KvStoreError,
>)
    ensures
        !cf_exists ==> (r matches Err(KvStoreError::InvalidColumnFamily(n)) && n@ == cf@),
        cf_exists && !found ==> (r matches Err(KvStoreError::KeyNotFound(k)) && k@ == key@),
        cf_exists && found <==> r is Ok,
{
    if !cf_exists {
        Err(KvStoreError::InvalidColumnFamily(cf.to_owned()))
    } else if !found {
        Err(KvStoreError::KeyNotFound(key.to_owned()))
    } else {
        Ok(())
    }
}

/// Decides which collections an opening store asks the engine for: the
/// cataloged ones when the directory already holds an initialized
/// database, the default collection alone otherwise.
pub fn open_plan(initialized: bool, listed: Vec<String>) -> (r: Vec<String>)
    ensures
        initialized ==> r@ == listed@,
        !initialized ==> r@.len() == 1 && r@[0]@ == "default"@,
{
    if initialized {
        listed
    } else {
        let mut v: Vec<String> = Vec::new();
        v.push("default".to_owned());
        v
    }
}

} // verus!
