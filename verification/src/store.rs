//! The embedded database, as the verified code sees it.
//!
//! The database is a `sled::Db`. What it holds is modelled as one map from
//! (partition name, key) to value. The functions that reach into the
//! database are believed, not proved: each makes one kind of access and
//! states what that access does to the map.
//!
//! The statements hold of a database that is reached through one handle
//! only, which is how the registry keeps it.

use crate::error::TableError;
use vstd::prelude::*;

verus! {

/// Makes `sled::Db` known to the verifier as an opaque type.
#[verifier::external_type_specification]
#[verifier::external_body]
pub struct ExDb(sled::Db);

/// Makes `sled::Error` known to the verifier as an opaque type.
#[verifier::external_type_specification]
#[verifier::external_body]
pub struct ExStoreError(sled::Error);

/// A place in the database: the partition's name and the key within it.
pub type Slot = (Seq<char>, Seq<u8>);

/// What the database holds: the value stored at each slot.
pub uninterp spec fn db_entries(db: sled::Db) -> Map<(Seq<char>, Seq<u8>), Seq<u8>>;

/// The value at `slot` as an optional byte sequence.
pub open spec fn entry_at(entries: Map<Slot, Seq<u8>>, slot: Slot) -> Option<Seq<u8>> {
    if entries.contains_key(slot) {
        Some(entries[slot])
    } else {
        None
    }
}

/// The view of an optional byte vector.
pub open spec fn opt_bytes(v: Option<Vec<u8>>) -> Option<Seq<u8>> {
    match v {
        Some(b) => Some(b@),
        None => None,
    }
}

/// Two states of the database agree everywhere outside partition `tree`.
pub open spec fn same_outside(a: Map<Slot, Seq<u8>>, b: Map<Slot, Seq<u8>>, tree: Seq<char>) -> bool {
    forall|s: Slot|
        #![trigger entry_at(a, s)]
        #![trigger entry_at(b, s)]
        s.0 != tree ==> entry_at(a, s) == entry_at(b, s)
}

/// Calls `sled::Db::open_tree` on `tree` and `sled::Tree::get` on the
/// partition it returns. Believed: a successful read returns the value
/// stored at the slot, if any. A read changes nothing, so the handle is
/// taken by shared reference.
#[verifier::external_body]
pub(crate) fn store_get(db: &sled::Db, tree: &str, key: &[u8]) -> (r: Result<
    Option<Vec<u8>>,
    sled::Error,
>)
    ensures
        r is Ok ==> opt_bytes(r->Ok_0) == entry_at(db_entries(*db), (tree@, key@)),
{
    let partition = db.open_tree(tree)?;
    let found = partition.get(key)?;
    Ok(found.map(|v| v.to_vec()))
}

/// Calls `sled::Db::open_tree` on `tree` and `sled::Tree::insert` on the
/// partition it returns. Believed: on success the slot holds `value`,
/// every other slot is as before, and the value that the slot held before
/// is returned. On failure every other slot is as before, and the slot
/// itself holds either what it held or `value`.
#[verifier::external_body]
pub(crate) fn store_insert(db: &mut sled::Db, tree: &str, key: &[u8], value: &[u8]) -> (r: Result<
    Option<Vec<u8>>,
    sled::Error,
>)
    ensures
        r is Ok ==> db_entries(*final(db)) == db_entries(*old(db)).insert((tree@, key@), value@),
        r is Ok ==> opt_bytes(r->Ok_0) == entry_at(db_entries(*old(db)), (tree@, key@)),
        r is Err ==> db_entries(*final(db)) == db_entries(*old(db)) || db_entries(*final(db))
            == db_entries(*old(db)).insert((tree@, key@), value@),
{
    let partition = db.open_tree(tree)?;
    let previous = partition.insert(key, value)?;
    Ok(previous.map(|v| v.to_vec()))
}

/// Calls `sled::Db::open_tree` on `tree` and `sled::Tree::remove` on the
/// partition it returns. Believed: on success the slot is empty, every
/// other slot is as before, and the value that the slot held before is
/// returned. On failure every other slot is as before, and the slot itself
/// either holds what it held or is empty.
#[verifier::external_body]
pub(crate) fn store_remove(db: &mut sled::Db, tree: &str, key: &[u8]) -> (r: Result<
    Option<Vec<u8>>,
    sled::Error,
>)
    ensures
        r is Ok ==> db_entries(*final(db)) == db_entries(*old(db)).remove((tree@, key@)),
        r is Ok ==> opt_bytes(r->Ok_0) == entry_at(db_entries(*old(db)), (tree@, key@)),
        r is Err ==> db_entries(*final(db)) == db_entries(*old(db)) || db_entries(*final(db))
            == db_entries(*old(db)).remove((tree@, key@)),
{
    let partition = db.open_tree(tree)?;
    let previous = partition.remove(key)?;
    Ok(previous.map(|v| v.to_vec()))
}

/// `a` comes before `b` in the order of byte strings: at the first place
/// where they differ `a` has the smaller byte, or `a` ends first.
pub open spec fn bytes_before(a: Seq<u8>, b: Seq<u8>) -> bool
    decreases a.len(),
{
    if b.len() == 0 {
        false
    } else if a.len() == 0 {
        true
    } else if a[0] != b[0] {
        a[0] < b[0]
    } else {
        bytes_before(a.skip(1), b.skip(1))
    }
}

/// No byte string comes before itself.
pub proof fn lemma_bytes_before_irreflexive(a: Seq<u8>)
    ensures
        !bytes_before(a, a),
    decreases a.len(),
{
    if a.len() > 0 {
        lemma_bytes_before_irreflexive(a.skip(1));
    }
}

/// The keys and values of a list of records as mathematical values.
pub open spec fn records_view(records: Vec<(Vec<u8>, Vec<u8>)>) -> Seq<(Seq<u8>, Seq<u8>)> {
    Seq::new(records@.len(), |i: int| (records@[i].0@, records@[i].1@))
}

/// `records` lists what partition `tree` holds: every record is in the
/// partition, every key of the partition has its record, and the keys
/// ascend in the order of byte strings.
pub open spec fn is_scan(
    records: Seq<(Seq<u8>, Seq<u8>)>,
    entries: Map<Slot, Seq<u8>>,
    tree: Seq<char>,
) -> bool {
    &&& forall|i: int, j: int|
        0 <= i < j < records.len() ==> bytes_before(#[trigger] records[i].0, #[trigger] records[j].0)
    &&& forall|i: int|
        0 <= i < records.len() ==> entry_at(entries, (tree, #[trigger] records[i].0)) == Some(
            records[i].1,
        )
    &&& forall|k: Seq<u8>| #[trigger]
        entries.contains_key((tree, k)) ==> exists|i: int|
            0 <= i < records.len() && #[trigger] records[i].0 == k
}

/// The slots of partition `tree`.
pub open spec fn slots_of(tree: Seq<char>) -> Set<Slot> {
    Set::new(|s: Slot| s.0 == tree)
}

/// Calls `sled::Db::open_tree` on `tree` and `sled::Tree::iter` on the
/// partition it returns, and collects what the iterator hands out.
/// Believed: a successful scan lists every record of the partition once,
/// in ascending order of the keys.
#[verifier::external_body]
pub(crate) fn store_scan(db: &sled::Db, tree: &str) -> (r: Result<
    Vec<(Vec<u8>, Vec<u8>)>,
    sled::Error,
>)
    ensures
        r is Ok ==> is_scan(records_view(r->Ok_0), db_entries(*db), tree@),
{
    let partition = db.open_tree(tree)?;
    partition.iter().map(|item| item.map(|(key, value)| (key.to_vec(), value.to_vec()))).collect()
}

/// Calls `sled::Db::open_tree` on `tree` and then `sled::Db::drop_tree`.
/// The partition is opened first so that the handle has it among its open
/// partitions when the drop starts: a drop that finds it there unroots it,
/// while a drop that does not find it there returns at once and leaves
/// what the database holds, which is how an earlier drop that failed
/// half-way leaves a partition. Believed: on success partition `tree`
/// holds nothing and every other partition is as before; on failure every
/// other partition is as before. Nothing is said of the flag that the call
/// returns.
#[verifier::external_body]
pub(crate) fn store_drop(db: &mut sled::Db, tree: &str) -> (r: Result<bool, sled::Error>)
    ensures
        r is Ok ==> db_entries(*final(db)) == db_entries(*old(db)).remove_keys(slots_of(tree@)),
        r is Err ==> same_outside(db_entries(*old(db)), db_entries(*final(db)), tree@),
{
    db.open_tree(tree)?;
    db.drop_tree(tree)
}

/// Writes a `sled::Error` out through its `Display` impl. Nothing is
/// claimed of the text.
#[verifier::external_body]
pub(crate) fn store_error_text(e: &sled::Error) -> (text: String) {
    format!("{}", e)
}

/// A failure of the database as a failure of the table storage: a storage
/// failure that carries the database's own description.
pub fn storage_failure(e: &sled::Error) -> (r: TableError)
    ensures
        r is Storage,
{
    TableError::Storage(store_error_text(e))
}

/// What the registry makes of what the database returned: a value is
/// handed on as it is, a failure becomes a storage failure.
pub fn settled<T>(r: Result<T, sled::Error>) -> (out: Result<T, TableError>)
    ensures
        match r {
            Ok(v) => out == Ok::<T, TableError>(v),
            Err(_) => out is Err && out->Err_0 is Storage,
        },
{
    match r {
        Ok(v) => Ok(v),
        Err(e) => Err(storage_failure(&e)),
    }
}

} // verus!
