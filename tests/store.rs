use std::collections::BTreeMap;

use overlaydb::database::{prefix_match, resume_skips};
use overlaydb::{BatchOp, DBTransaction, Database, DatabaseConfig, Error, StoreRead, WriteQue};

type Engine = BTreeMap<Vec<u8>, Vec<u8>>;

fn apply(engine: &mut Engine, t: &DBTransaction) {
    for op in t.ops().iter() {
        match op {
            BatchOp::Put(k, v) => {
                engine.insert(k.clone(), v.clone());
            }
            BatchOp::Delete(k) => {
                engine.remove(k);
            }
        }
    }
}

fn open_default(db: &mut Database) -> Result<(), Error> {
    db.begin_open()?;
    db.finish_open(Ok(()))
}

fn close(db: &mut Database, engine: &mut Engine) -> Result<(), Error> {
    for b in db.close()?.iter() {
        apply(engine, b);
    }
    Ok(())
}

fn flush_all(db: &mut Database, engine: &mut Engine) -> Result<(), Error> {
    for b in db.flush_all()?.iter() {
        apply(engine, b);
    }
    Ok(())
}

fn get(db: &Database, engine: &Engine, key: &[u8]) -> Result<Option<Vec<u8>>, Error> {
    match db.get(key)? {
        StoreRead::Cached(v) => Ok(Some(v)),
        StoreRead::Removed => Ok(None),
        StoreRead::Engine => Ok(engine.get(key).cloned()),
    }
}

fn is_empty(db: &Database, engine: &Engine) -> Result<bool, Error> {
    db.ensure_open()?;
    Ok(engine.is_empty())
}

#[test]
fn can_be_created() {
    let db = Database::new();
    let engine = Engine::new();
    assert!(is_empty(&db, &engine).is_err());
}

#[test]
fn can_be_open_empty() {
    let mut db = Database::new();
    let engine = Engine::new();
    open_default(&mut db).unwrap();

    assert!(is_empty(&db, &engine).is_ok());
}

#[test]
fn can_store_key() {
    let mut db = Database::new();
    let mut engine = Engine::new();
    open_default(&mut db).unwrap();

    db.put("xxx".as_bytes(), "1".as_bytes()).unwrap();
    flush_all(&mut db, &mut engine).unwrap();
    assert!(!is_empty(&db, &engine).unwrap());
}

#[test]
fn can_retrieve() {
    let mut db = Database::new();
    let mut engine = Engine::new();
    open_default(&mut db).unwrap();
    db.put("xxx".as_bytes(), "1".as_bytes()).unwrap();
    close(&mut db, &mut engine).unwrap();

    open_default(&mut db).unwrap();
    assert_eq!(get(&db, &engine, "xxx".as_bytes()).unwrap().unwrap(), "1".as_bytes().to_vec());
}

#[test]
fn reopen_reads_flushed_value() {
    let mut db = Database::new();
    let mut engine = Engine::new();
    open_default(&mut db).unwrap();
    db.put(b"xxx", b"1").unwrap();
    flush_all(&mut db, &mut engine).unwrap();
    close(&mut db, &mut engine).unwrap();
    let mut reopened = Database::new();
    open_default(&mut reopened).unwrap();
    assert_eq!(get(&reopened, &engine, b"xxx").unwrap(), Some(b"1".to_vec()));
}

#[test]
fn open_twice_is_already_open() {
    let mut db = Database::new();
    open_default(&mut db).unwrap();
    assert_eq!(open_default(&mut db), Err(Error::AlreadyOpen));
    assert!(db.is_open());
}

#[test]
fn closed_store_refuses_operations() {
    let mut db = Database::new();
    let mut engine = Engine::new();
    assert_eq!(db.put(b"a", b"b"), Err(Error::IsClosed));
    assert_eq!(db.delete(b"a"), Err(Error::IsClosed));
    assert!(matches!(db.get(b"a"), Err(Error::IsClosed)));
    assert!(matches!(db.flush(), Err(Error::IsClosed)));
    assert!(matches!(db.flush_all(), Err(Error::IsClosed)));
    assert!(matches!(db.iter(), Err(Error::IsClosed)));
    assert_eq!(close(&mut db, &mut engine), Err(Error::IsClosed));
    open_default(&mut db).unwrap();
    close(&mut db, &mut engine).unwrap();
    assert_eq!(close(&mut db, &mut engine), Err(Error::IsClosed));
}

#[test]
fn failed_engine_open_leaves_store_closed() {
    let mut db = Database::new();
    db.begin_open().unwrap();
    assert_eq!(
        db.finish_open(Err("no such directory".to_string())),
        Err(Error::BackingStoreFailure("no such directory".to_string()))
    );
    assert!(!db.is_open());
}

#[test]
fn default_config() {
    let c = DatabaseConfig::default();
    assert_eq!(c.prefix_size, None);
    assert_eq!(c.max_open_files, 256);
    assert!(c.create_if_missing);
    assert!(!c.use_fsync);
}

#[test]
fn reads_see_unflushed_writes() {
    let mut db = Database::new();
    let mut engine = Engine::new();
    open_default(&mut db).unwrap();
    db.put(b"k", b"v").unwrap();
    assert!(matches!(db.get(b"k"), Ok(StoreRead::Cached(ref v)) if v == b"v"));
    assert!(engine.is_empty());
    db.delete(b"k").unwrap();
    assert!(matches!(db.get(b"k"), Ok(StoreRead::Removed)));
    flush_all(&mut db, &mut engine).unwrap();
    assert!(engine.is_empty());
    assert!(matches!(db.get(b"k"), Ok(StoreRead::Engine)));
}

#[test]
fn delete_reaches_engine() {
    let mut db = Database::new();
    let mut engine = Engine::new();
    open_default(&mut db).unwrap();
    db.put(b"k", b"v").unwrap();
    flush_all(&mut db, &mut engine).unwrap();
    assert_eq!(engine.get(b"k".as_slice()), Some(&b"v".to_vec()));
    db.delete(b"k").unwrap();
    let t = db.flush().unwrap();
    assert_eq!(t.len(), 1);
    apply(&mut engine, &t);
    assert!(engine.is_empty());
}

#[test]
fn iterator_handles_increase_and_are_not_reused() {
    let mut db = Database::new();
    let mut engine = Engine::new();
    open_default(&mut db).unwrap();
    let a = db.iter().unwrap();
    let b = db.iter().unwrap();
    assert_eq!(a, 1);
    assert_eq!(b, 2);
    assert!(db.is_live(a) && db.is_live(b));
    db.dispose_iter(b).unwrap();
    assert!(!db.is_live(b));
    assert!(db.is_live(a));
    let c = db.iter().unwrap();
    assert_eq!(c, 3);
    assert!(!db.is_live(42));
    close(&mut db, &mut engine).unwrap();
    assert!(!db.is_live(a));
}

#[test]
fn prefix_match_needs_leading_bytes() {
    let hit = Some((b"abcd".to_vec(), b"v".to_vec()));
    assert_eq!(prefix_match(hit, b"ab"), Some(b"v".to_vec()));
    let miss = Some((b"abd".to_vec(), b"v".to_vec()));
    assert_eq!(prefix_match(miss, b"abc"), None);
    let short = Some((b"a".to_vec(), b"v".to_vec()));
    assert_eq!(prefix_match(short, b"abc"), None);
    assert_eq!(prefix_match(None, b"a"), None);
}

#[test]
fn rewrite_flushes_latest_value() {
    let mut que = WriteQue::new(4);
    let mut engine = Engine::new();
    que.write(b"A".to_vec(), b"v1".to_vec());
    que.write(b"A".to_vec(), b"v2".to_vec());
    let t = que.flush(10);
    assert_eq!(t.len(), 1);
    apply(&mut engine, &t);
    assert!(que.is_empty());
    assert_eq!(engine.get(b"A".as_slice()), Some(&b"v2".to_vec()));
    assert_eq!(engine.len(), 1);
    assert_eq!(que.get(b"A"), Some(b"v2".to_vec()));
}

#[test]
fn overflow_evicts_oldest_key() {
    let cap: usize = 3;
    let mut que = WriteQue::new(cap);
    let mut engine = Engine::new();
    for i in 0..=cap {
        que.write(vec![i as u8], vec![10 + i as u8]);
    }
    let t = que.flush(100);
    apply(&mut engine, &t);
    assert_eq!(que.get(&[0]), None);
    for i in 1..=cap {
        assert_eq!(que.get(&[i as u8]), Some(vec![10 + i as u8]));
    }
    for i in 0..=cap {
        assert_eq!(engine.get(&vec![i as u8]), Some(&vec![10 + i as u8]));
    }
}

#[test]
fn flush_pops_at_most_the_batch_asked() {
    let mut que = WriteQue::new(8);
    que.write(b"a".to_vec(), b"1".to_vec());
    que.write(b"b".to_vec(), b"2".to_vec());
    que.write(b"c".to_vec(), b"3".to_vec());
    que.remove(b"a".to_vec());
    let first = que.flush(2);
    assert_eq!(first.len(), 2);
    assert!(matches!(&first.ops()[0], BatchOp::Delete(k) if k == b"a"));
    assert!(matches!(&first.ops()[1], BatchOp::Put(k, v) if k == b"b" && v == b"2"));
    assert!(!que.is_empty());
    let second = que.flush(2);
    assert_eq!(second.len(), 1);
    assert!(matches!(&second.ops()[0], BatchOp::Put(k, v) if k == b"c" && v == b"3"));
    assert!(que.is_empty());
    assert_eq!(que.flush(2).len(), 0);
}

#[test]
fn transaction_keeps_order() {
    let mut t = DBTransaction::new();
    t.put(b"k", b"v");
    t.delete(b"k");
    assert_eq!(t.len(), 2);
    let mut engine = Engine::new();
    apply(&mut engine, &t);
    assert!(engine.is_empty());
}

#[test]
fn rewrite_past_capacity_keeps_latest() {
    let mut que = WriteQue::new(0);
    let mut engine = Engine::new();
    que.write(b"A".to_vec(), b"v1".to_vec());
    que.write(b"A".to_vec(), b"v2".to_vec());
    let t = que.flush(10);
    assert_eq!(t.len(), 1);
    assert!(matches!(&t.ops()[0], BatchOp::Put(k, v) if k == b"A" && v == b"v2"));
    apply(&mut engine, &t);
    assert_eq!(engine.get(b"A".as_slice()), Some(&b"v2".to_vec()));
    assert_eq!(que.get(b"A"), None);
}

#[test]
fn small_cache_store_keeps_latest_across_close() {
    let mut db = Database::with_cache_len(0);
    let mut engine = Engine::new();
    open_default(&mut db).unwrap();
    db.put(b"A", b"v1").unwrap();
    db.put(b"A", b"v2").unwrap();
    db.put(b"B", b"w").unwrap();
    db.delete(b"B").unwrap();
    flush_all(&mut db, &mut engine).unwrap();
    assert_eq!(get(&db, &engine, b"A").unwrap(), Some(b"v2".to_vec()));
    db.put(b"A", b"v3").unwrap();
    close(&mut db, &mut engine).unwrap();
    open_default(&mut db).unwrap();
    assert_eq!(get(&db, &engine, b"A").unwrap(), Some(b"v3".to_vec()));
    assert_eq!(get(&db, &engine, b"B").unwrap(), None);
}

#[test]
fn resume_skips_only_the_last_key() {
    assert!(resume_skips(&Some(b"k".to_vec()), b"k"));
    assert!(!resume_skips(&Some(b"k".to_vec()), b"l"));
    assert!(!resume_skips(&None, b"k"));
}
