use vstd::prelude::*;

use crate::codec::{enc, encodable, whole_dec};
use crate::value::DocView;

verus! {

// The store's mathematical model.  A database is a finite map from
// collection names to collections; a collection is a finite map from keys
// to the byte strings stored under them.  The engine adapter realizes
// exactly these transitions: a write is an insert, a delete a removal, a
// batch a fold of inserts, and creating a collection inserts an empty one
// if the name is new.  The laws below are proved of the model once and
// hold of every store that realizes it.

/// The database after a record is written: the collection gains the pair,
/// replacing any record under the same key (last-writer-wins).
pub open spec fn put_record(
    db: Map<Seq<char>, Map<Seq<char>, Seq<u8>>>,
    cf: Seq<char>,
    key: Seq<char>,
    val: Seq<u8>,
) -> Map<Seq<char>, Map<Seq<char>, Seq<u8>>> {
    db.insert(cf, db[cf].insert(key, val))
}

/// The database after a record is deleted.
pub open spec fn remove_record(
    db: Map<Seq<char>, Map<Seq<char>, Seq<u8>>>,
    cf: Seq<char>,
    key: Seq<char>,
) -> Map<Seq<char>, Map<Seq<char>, Seq<u8>>> {
    db.insert(cf, db[cf].remove(key))
}

/// The database after a collection is asked for: created empty when the
/// name is new, untouched when it is already present.
pub open spec fn ensure_collection(
    db: Map<Seq<char>, Map<Seq<char>, Seq<u8>>>,
    name: Seq<char>,
) -> Map<Seq<char>, Map<Seq<char>, Seq<u8>>> {
    if db.contains_key(name) {
        db
    } else {
        db.insert(name, Map::empty())
    }
}

/// A collection after a batch of writes is applied in order.
pub open spec fn apply_puts(
    col: Map<Seq<char>, Seq<u8>>,
    items: Seq<(Seq<char>, Seq<u8>)>,
) -> Map<Seq<char>, Seq<u8>>
    decreases items.len(),
{
    if items.len() == 0 {
        col
    } else {
        apply_puts(col.insert(items[0].0, items[0].1), items.drop_first())
    }
}

/// Writing a typed record and reading the same key back yields the
/// written value: the stored bytes are the value's encoding, and decoding
/// them recovers it.
pub proof fn lemma_insert_then_get(
    db: Map<Seq<char>, Map<Seq<char>, Seq<u8>>>,
    cf: Seq<char>,
    key: Seq<char>,
    v: DocView,
)
    requires
        encodable(v),
    ensures
        put_record(db, cf, key, enc(v))[cf].contains_key(key),
        whole_dec(put_record(db, cf, key, enc(v))[cf][key]) == Some(v),
{
    crate::codec::lemma_codec_roundtrip(v);
}

/// After a delete the key is absent: a lookup finds nothing, and the
/// typed read of an absent key reports the key as not found.
pub proof fn lemma_delete_then_absent(
    db: Map<Seq<char>, Map<Seq<char>, Seq<u8>>>,
    cf: Seq<char>,
    key: Seq<char>,
)
    ensures
        !remove_record(db, cf, key)[cf].contains_key(key),
{
}

/// Asking twice for the same collection is the same as asking once:
/// creation is idempotent.
pub proof fn lemma_create_idempotent(db: Map<Seq<char>, Map<Seq<char>, Seq<u8>>>, name: Seq<char>)
    ensures
        ensure_collection(ensure_collection(db, name), name) == ensure_collection(db, name),
        ensure_collection(db, name).contains_key(name),
{
}

/// The last value a batch writes under a key, if it writes the key at
/// all: the batch's later entries win over its earlier ones.
pub open spec fn batch_lookup(items: Seq<(Seq<char>, Seq<u8>)>, k: Seq<char>) -> Option<Seq<u8>>
    decreases items.len(),
{
    if items.len() == 0 {
        None
    } else {
        match batch_lookup(items.drop_first(), k) {
            Some(v) => Some(v),
            None => if items[0].0 == k {
                Some(items[0].1)
            } else {
                None
            },
        }
    }
}

/// After a batch is applied, every key the batch wrote holds the last
/// value the batch wrote under it, and every other key is untouched.
/// With the engine's atomic write, an observer therefore sees either the
/// whole batch or none of it.
pub proof fn lemma_batch_visibility(col: Map<Seq<char>, Seq<u8>>, items: Seq<(Seq<char>, Seq<u8>)>)
    ensures
        forall|k: Seq<char>|
            #[trigger] apply_puts(col, items).contains_key(k) == (col.contains_key(k)
                || batch_lookup(items, k) is Some),
        forall|k: Seq<char>|
            apply_puts(col, items).contains_key(k) ==> #[trigger] apply_puts(col, items)[k]
                == (match batch_lookup(items, k) {
                Some(v) => v,
                None => col[k],
            }),
    decreases items.len(),
{
    if items.len() > 0 {
        let col2 = col.insert(items[0].0, items[0].1);
        let rest = items.drop_first();
        lemma_batch_visibility(col2, rest);
        assert(apply_puts(col, items) == apply_puts(col2, rest));
        assert forall|k: Seq<char>| #[trigger] apply_puts(col, items).contains_key(k) == (
        col.contains_key(k) || batch_lookup(items, k) is Some) by {
            assert(batch_lookup(items, k) == (match batch_lookup(rest, k) {
                Some(v) => Some(v),
                None => if items[0].0 == k {
                    Some(items[0].1)
                } else {
                    None
                },
            }));
            assert(apply_puts(col2, rest).contains_key(k) == (col2.contains_key(k)
                || batch_lookup(rest, k) is Some));
        }
        assert forall|k: Seq<char>| apply_puts(col, items).contains_key(k) implies #[trigger] apply_puts(
            col,
            items,
        )[k] == (match batch_lookup(items, k) {
            Some(v) => v,
            None => col[k],
        }) by {
            assert(batch_lookup(items, k) == (match batch_lookup(rest, k) {
                Some(v) => Some(v),
                None => if items[0].0 == k {
                    Some(items[0].1)
                } else {
                    None
                },
            }));
            assert(apply_puts(col2, rest)[k] == (match batch_lookup(rest, k) {
                Some(v) => v,
                None => col2[k],
            }));
        }
    }
}

} // verus!
