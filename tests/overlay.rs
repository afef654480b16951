use std::collections::BTreeMap;

use overlaydb::keccak::content_key;
use overlaydb::{BatchOp, DBTransaction, DeletionMode, Error, Lookup, OverlayDB};

type Store = BTreeMap<Vec<u8>, Vec<u8>>;

fn apply(store: &mut Store, t: &DBTransaction) {
    for op in t.ops().iter() {
        match op {
            BatchOp::Put(k, v) => {
                store.insert(k.clone(), v.clone());
            }
            BatchOp::Delete(k) => {
                store.remove(k);
            }
        }
    }
}

fn commit(db: &mut OverlayDB, store: &mut Store) -> Result<usize, Error> {
    let keys = db.pending_keys();
    let present: Vec<bool> = keys.iter().map(|k| store.contains_key(k)).collect();
    let t = db.commit(&present)?;
    apply(store, &t);
    Ok(t.len())
}

fn get(db: &mut OverlayDB, store: &Store, key: &[u8]) -> Option<Vec<u8>> {
    match db.lookup(key) {
        Lookup::Found(v) => Some(v),
        Lookup::Deleted => None,
        Lookup::Backing => db.read_through(key, store.get(key).cloned()),
    }
}

fn hex(b: &[u8]) -> String {
    b.iter().map(|x| format!("{:02x}", x)).collect()
}

#[test]
fn delete_ignore() {
    let mut store = Store::new();
    let mut db = OverlayDB::new(DeletionMode::Ignore);

    let hash = db.insert(b"dog");
    commit(&mut db, &mut store).unwrap();

    db.remove(&hash);
    commit(&mut db, &mut store).unwrap();

    assert!(get(&mut db, &store, &hash).is_some())
}

#[test]
fn delete_remove() {
    let mut store = Store::new();
    let mut db = OverlayDB::new(DeletionMode::Remove);

    let hash = db.insert(b"dog");
    commit(&mut db, &mut store).unwrap();

    db.remove(&hash);
    commit(&mut db, &mut store).unwrap();

    assert!(get(&mut db, &store, &hash).is_none())
}

#[test]
#[should_panic]
fn double_remove() {
    let mut store = Store::new();
    let mut db = OverlayDB::new(DeletionMode::Remove);

    let hash = db.insert(b"cat");
    assert!(commit(&mut db, &mut store).is_ok());

    db.remove(&hash);
    db.remove(&hash);

    commit(&mut db, &mut store).unwrap();
}

#[test]
#[should_panic]
fn deletion_invalid() {
    let mut store = Store::new();
    let mut db = OverlayDB::new(DeletionMode::Remove);

    let hash = content_key(b"hello");
    db.remove(&hash);
    commit(&mut db, &mut store).unwrap();
}

#[test]
#[should_panic]
fn insertion_invalid() {
    let mut store = Store::new();
    let mut db = OverlayDB::new(DeletionMode::Remove);

    db.insert(b"bad juju");
    assert!(commit(&mut db, &mut store).is_ok());

    db.insert(b"bad juju");
    commit(&mut db, &mut store).unwrap();
}

#[test]
fn content_key_is_keccak256() {
    assert_eq!(
        hex(&content_key(b"")),
        "c5d2460186f7233c927e7db2dcc703c0e500b653ca82273b7bfad8045d85a470"
    );
    assert_eq!(content_key(b"dog").len(), 32);
    assert_ne!(content_key(b"dog"), b"dog".to_vec());
}

#[test]
fn balanced_operations_leave_store_alone() {
    let mut store = Store::new();
    let mut db = OverlayDB::new(DeletionMode::Remove);
    let k = db.insert(b"fish");
    db.remove(&k);
    db.insert(b"fish");
    db.remove(&k);
    assert_eq!(commit(&mut db, &mut store), Ok(0));
    assert!(store.is_empty());

    store.insert(k.clone(), b"fish".to_vec());
    db.remove(&k);
    db.insert(b"fish");
    assert_eq!(commit(&mut db, &mut store), Ok(0));
    assert_eq!(store.get(&k), Some(&b"fish".to_vec()));
}

#[test]
fn inserted_value_readable_after_commit() {
    let mut store = Store::new();
    let mut db = OverlayDB::new(DeletionMode::Remove);
    let k = db.insert(b"horse");
    assert_eq!(k, content_key(b"horse"));
    assert_eq!(commit(&mut db, &mut store), Ok(1));
    assert_eq!(get(&mut db, &store, &k), Some(b"horse".to_vec()));
}

#[test]
fn insert_then_remove_in_one_epoch_is_noop() {
    let mut store = Store::new();
    let mut db = OverlayDB::new(DeletionMode::Remove);
    let k = db.insert(b"goat");
    db.remove(&k);
    assert_eq!(db.raw(&k), Some((b"goat".to_vec(), 0)));
    assert_eq!(commit(&mut db, &mut store), Ok(0));
    assert!(store.is_empty());
    assert_eq!(get(&mut db, &store, &k), None);
}

#[test]
fn remove_of_absent_key_is_deletion_invalid() {
    let mut store = Store::new();
    let mut db = OverlayDB::new(DeletionMode::Remove);
    let hash = content_key(b"hello");
    db.remove(&hash);
    assert_eq!(commit(&mut db, &mut store), Err(Error::DeletionInvalid(hash)));
    assert!(store.is_empty());
}

#[test]
fn reinsert_of_stored_key_is_insertion_invalid() {
    let mut store = Store::new();
    let mut db = OverlayDB::new(DeletionMode::Remove);
    let k = db.insert(b"bad juju");
    assert_eq!(commit(&mut db, &mut store), Ok(1));
    db.insert(b"bad juju");
    assert_eq!(commit(&mut db, &mut store), Err(Error::InsertionInvalid(k.clone())));
    assert_eq!(store.get(&k), Some(&b"bad juju".to_vec()));
}

#[test]
fn ignore_mode_tolerates_reinsert() {
    let mut store = Store::new();
    let mut db = OverlayDB::new(DeletionMode::Ignore);
    let k = db.insert(b"bad juju");
    assert_eq!(commit(&mut db, &mut store), Ok(1));
    db.insert(b"bad juju");
    assert_eq!(commit(&mut db, &mut store), Ok(0));
    assert_eq!(store.get(&k), Some(&b"bad juju".to_vec()));
}

#[test]
fn double_insert_is_invalid_reference_count() {
    let mut store = Store::new();
    let mut db = OverlayDB::new(DeletionMode::Remove);
    let k = db.insert(b"cow");
    db.insert(b"cow");
    assert_eq!(commit(&mut db, &mut store), Err(Error::InvalidReferenceCount(k, 2)));
    assert!(store.is_empty());
}

#[test]
fn failed_commit_writes_nothing() {
    let mut store = Store::new();
    let mut db = OverlayDB::new(DeletionMode::Remove);
    db.insert(b"one");
    db.remove(&content_key(b"missing"));
    db.insert(b"two");
    assert!(commit(&mut db, &mut store).is_err());
    assert!(store.is_empty());
    assert_eq!(db.pending_keys().len(), 0);
}

#[test]
fn ignore_mode_keeps_removed_content() {
    let mut store = Store::new();
    let mut db = OverlayDB::new(DeletionMode::Ignore);
    let k = db.insert(b"dog");
    commit(&mut db, &mut store).unwrap();
    db.remove(&k);
    assert_eq!(commit(&mut db, &mut store), Ok(0));
    assert_eq!(store.get(&k), Some(&b"dog".to_vec()));
    assert_eq!(get(&mut db, &store, &k), Some(b"dog".to_vec()));
}

#[test]
fn remove_mode_round_trip_through_store() {
    let mut store = Store::new();
    let mut db = OverlayDB::new(DeletionMode::Remove);
    let hd = db.insert(b"dog");
    assert_eq!(hd, content_key(b"dog"));
    commit(&mut db, &mut store).unwrap();
    assert_eq!(get(&mut db, &store, &hd), Some(b"dog".to_vec()));
    assert_eq!(db.raw(&hd), Some((b"dog".to_vec(), 0)));
    db.remove(&hd);
    assert!(matches!(db.lookup(&hd), Lookup::Deleted));
    assert_eq!(commit(&mut db, &mut store), Ok(1));
    assert_eq!(get(&mut db, &store, &hd), None);
}

#[test]
fn removed_key_under_ignore_reads_backing() {
    let mut db = OverlayDB::new(DeletionMode::Ignore);
    let k = content_key(b"x");
    db.remove(&k);
    assert!(matches!(db.lookup(&k), Lookup::Backing));
}

#[test]
fn emplace_and_revert() {
    let mut db = OverlayDB::new(DeletionMode::Remove);
    db.emplace(b"key".to_vec(), b"value".to_vec());
    assert!(matches!(db.lookup(b"key"), Lookup::Found(ref v) if v == b"value"));
    assert_eq!(db.pending_keys(), vec![b"key".to_vec()]);
    db.revert();
    assert_eq!(db.raw(b"key"), None);
    assert!(db.pending_keys().is_empty());
}

#[test]
fn insert_after_placeholder_takes_value() {
    let mut store = Store::new();
    let mut db = OverlayDB::new(DeletionMode::Ignore);
    let k = content_key(b"eel");
    db.remove(&k);
    assert_eq!(db.raw(&k), Some((Vec::new(), -1)));
    db.insert(b"eel");
    db.insert(b"eel");
    assert_eq!(db.raw(&k), Some((b"eel".to_vec(), 1)));
    assert_eq!(commit(&mut db, &mut store), Ok(1));
    assert_eq!(store.get(&k), Some(&b"eel".to_vec()));
}

#[test]
fn aux_entries_are_kept_apart() {
    let mut store = Store::new();
    let mut db = OverlayDB::new(DeletionMode::Remove);
    db.insert_aux(b"meta".to_vec(), b"1".to_vec());
    db.insert_aux(b"meta".to_vec(), b"2".to_vec());
    assert_eq!(db.get_aux(b"meta"), Some(b"2".to_vec()));
    assert_eq!(commit(&mut db, &mut store), Ok(0));
    assert_eq!(db.get_aux(b"meta"), Some(b"2".to_vec()));
    db.remove_aux(b"meta");
    assert_eq!(db.get_aux(b"meta"), None);
}

#[test]
fn read_through_caches_at_zero() {
    let mut store = Store::new();
    let k = content_key(b"owl");
    store.insert(k.clone(), b"owl".to_vec());
    let mut db = OverlayDB::new(DeletionMode::Remove);
    assert_eq!(get(&mut db, &store, &k), Some(b"owl".to_vec()));
    assert_eq!(db.raw(&k), Some((b"owl".to_vec(), 0)));
    assert!(db.pending_keys().is_empty());
    assert_eq!(db.mode(), DeletionMode::Remove);
}

#[test]
fn keys_merge_store_and_overlay() {
    let mut db = OverlayDB::new(DeletionMode::Remove);
    let stored = content_key(b"stored");
    let fresh = db.insert(b"fresh");
    db.remove(&stored);
    let cancelled = db.insert(b"gone");
    db.remove(&cancelled);
    let (keys, counts) = db.keys(&vec![stored.clone(), b"other".to_vec(), stored.clone()]);
    let mut merged: Vec<(Vec<u8>, i64)> = keys.into_iter().zip(counts.into_iter()).collect();
    merged.sort();
    let mut expected = vec![(stored, 0), (b"other".to_vec(), 1), (fresh, 1)];
    expected.sort();
    assert_eq!(merged, expected);
}

#[test]
fn get_with_stored_value() {
    let mut db = OverlayDB::new(DeletionMode::Remove);
    let k = db.insert(b"yak");
    assert_eq!(db.get(&k, None), Some(b"yak".to_vec()));
    db.remove(&k);
    assert_eq!(db.get(&k, Some(b"old".to_vec())), Some(b"old".to_vec()));
    db.remove(&k);
    assert_eq!(db.get(&k, Some(b"old".to_vec())), None);
    let other = content_key(b"other");
    db.remove(&other);
    assert_eq!(db.get(&other, Some(b"other".to_vec())), None);
    assert!(!db.contains(&other, Some(b"other".to_vec())));
    let third = content_key(b"third");
    assert!(db.contains(&third, Some(b"third".to_vec())));
    assert_eq!(db.raw(&third), Some((b"third".to_vec(), 0)));
}
