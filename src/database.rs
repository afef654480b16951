//! The persistent store's own state: whether the engine is open, the write
//! cache in front of it, and the table of open iterator handles.
//!
//! Reads and writes of the engine are made by the caller: this type decides
//! when they are allowed and what is to be written.
use vstd::prelude::*;
use crate::bytes::{is_prefix_of, starts_with};
use crate::error::Error;
use crate::transaction::{DBTransaction, OpView};
use crate::write_cache::{
    empty_que, flush_spec, lemma_flush_all_persists, lemma_flush_compose, lemma_flush_log, persists_latest,
    que_remove, que_write, QueView, WriteQue,
    FLUSH_BATCH_SIZE,
};

verus! {

/// How many keys the write cache holds before flushing evicts.
pub const DEFAULT_CACHE_LEN: usize = 12288;

/// Engine settings for `open`.
#[derive(Clone, Copy, Debug, PartialEq, Eq)]
pub struct DatabaseConfig {
    /// Length of the fixed key prefix that a hash-indexed block layout is
    /// built on, if any.
    pub prefix_size: Option<usize>,
    /// Most files the engine keeps open.
    pub max_open_files: i32,
    /// Whether a missing database is created.
    pub create_if_missing: bool,
    /// Whether writes are synced with fsync.
    pub use_fsync: bool,
}

impl Default for DatabaseConfig {
    fn default() -> (r: DatabaseConfig)
        ensures
            r.prefix_size is None,
            r.max_open_files == 256,
            r.create_if_missing,
            !r.use_fsync,
    {
        DatabaseConfig { prefix_size: None, max_open_files: 256, create_if_missing: true, use_fsync: false }
    }
}

/// What a read finds before the engine is asked.
#[derive(Debug)]
pub enum StoreRead {
    /// The write cache holds a value not yet flushed.
    Cached(Vec<u8>),
    /// A remove of the key waits in the write cache: the key is absent.
    Removed,
    /// The engine holds the answer.
    Engine,
}

/// The sequence of all writes of a sequence of batches, in order.
pub open spec fn concat_batches(bs: Seq<DBTransaction>) -> Seq<OpView>
    decreases bs.len(),
{
    if bs.len() == 0 {
        Seq::empty()
    } else {
        concat_batches(bs.drop_last()) + bs.last()@
    }
}

/// The store's state over plain values.
pub struct DatabaseView {
    pub open: bool,
    pub que: QueView,
    /// The handle the next iterator gets.
    pub next_handle: nat,
    /// Handles of open iterators.
    pub handles: Set<u64>,
}

/// State of a persistent store: open or closed, its write cache, and its
/// iterator handles.
#[derive(Clone)]
pub struct Database {
    is_open: bool,
    write_que: WriteQue,
    next_iterator: u64,
    iterators: Vec<u64>,
}

impl View for Database {
    type V = DatabaseView;

    closed spec fn view(&self) -> DatabaseView {
        DatabaseView {
            open: self.is_open,
            que: self.write_que@,
            next_handle: self.next_iterator as nat,
            handles: self.iterators@.to_set(),
        }
    }
}

impl Database {
    /// The write cache is well formed, handles are positive and every open
    /// handle was handed out before.
    pub closed spec fn wf(&self) -> bool {
        &&& self.write_que.wf()
        &&& self.next_iterator >= 1
        &&& forall|i: int| 0 <= i < self.iterators@.len() ==> #[trigger] self.iterators@[i] < self.next_iterator
    }

    /// A closed store whose write cache holds `cache_len` keys.
    pub fn with_cache_len(cache_len: usize) -> (r: Database)
        ensures
            r.wf(),
            !r@.open,
            r@.que == empty_que(cache_len as nat),
            r@.next_handle == 1,
            r@.handles == Set::<u64>::empty(),
    {
        let r = Database { is_open: false, write_que: WriteQue::new(cache_len), next_iterator: 1, iterators: Vec::new() };
        assert(r@.handles =~= Set::<u64>::empty());
        r
    }

    /// A closed store with the default write cache.
    pub fn new() -> (r: Database)
        ensures
            r.wf(),
            !r@.open,
            r@.que == empty_que(DEFAULT_CACHE_LEN as nat),
            r@.next_handle == 1,
            r@.handles == Set::<u64>::empty(),
    {
        Database::with_cache_len(DEFAULT_CACHE_LEN)
    }

    /// Whether the engine is open.
    pub fn is_open(&self) -> (r: bool)
        ensures
            r == self@.open,
    {
        self.is_open
    }

    /// The handle the next iterator gets.
    pub fn next_handle(&self) -> (r: u64)
        ensures
            r == self@.next_handle,
    {
        self.next_iterator
    }

    /// Fails with `IsClosed` when the engine is not open; operations that
    /// read or write the engine directly go through this first.
    pub fn ensure_open(&self) -> (r: Result<(), Error>)
        ensures
            r is Ok <==> self@.open,
            r is Err ==> r == Err::<(), Error>(Error::IsClosed),
    {
        if self.is_open {
            Ok(())
        } else {
            Err(Error::IsClosed)
        }
    }

    /// First half of `open`: fails with `AlreadyOpen` when the engine is open.
    pub fn begin_open(&self) -> (r: Result<(), Error>)
        ensures
            r is Ok <==> !self@.open,
            r is Err ==> r == Err::<(), Error>(Error::AlreadyOpen),
    {
        if self.is_open {
            Err(Error::AlreadyOpen)
        } else {
            Ok(())
        }
    }

    /// Second half of `open`, given how opening the engine went: the store is
    /// open exactly when it did.
    pub fn finish_open(&mut self, engine: Result<(), String>) -> (r: Result<(), Error>)
        requires
            old(self).wf(),
            !old(self)@.open,
        ensures
            final(self).wf(),
            final(self)@.open == (engine is Ok),
            final(self)@.que == old(self)@.que,
            final(self)@.next_handle == old(self)@.next_handle,
            final(self)@.handles == old(self)@.handles,
            match engine {
                Ok(()) => r is Ok,
                Err(m) => r == Err::<(), Error>(Error::BackingStoreFailure(m)),
            },
    {
        match engine {
            Ok(()) => {
                self.is_open = true;
                Ok(())
            },
            Err(m) => Err(Error::BackingStoreFailure(m)),
        }
    }

    /// Queues a write of `value` under `key` in the write cache.
    pub fn put(&mut self, key: &[u8], value: &[u8]) -> (r: Result<(), Error>)
        requires
            old(self).wf(),
        ensures
            final(self).wf(),
            r is Ok <==> old(self)@.open,
            r is Err ==> r == Err::<(), Error>(Error::IsClosed) && final(self)@ == old(self)@,
            r is Ok ==> final(self)@ == (DatabaseView {
                que: que_write(old(self)@.que, key@, value@),
                ..old(self)@
            }),
    {
        if !self.is_open {
            return Err(Error::IsClosed);
        }
        self.write_que.write(crate::bytes::copy_bytes(key), crate::bytes::copy_bytes(value));
        Ok(())
    }

    /// Queues a delete of `key` in the write cache.
    pub fn delete(&mut self, key: &[u8]) -> (r: Result<(), Error>)
        requires
            old(self).wf(),
        ensures
            final(self).wf(),
            r is Ok <==> old(self)@.open,
            r is Err ==> r == Err::<(), Error>(Error::IsClosed) && final(self)@ == old(self)@,
            r is Ok ==> final(self)@ == (DatabaseView {
                que: que_remove(old(self)@.que, key@),
                ..old(self)@
            }),
    {
        if !self.is_open {
            return Err(Error::IsClosed);
        }
        self.write_que.remove(crate::bytes::copy_bytes(key));
        Ok(())
    }

    /// Reads `key` from the write cache; on a miss the engine is to be read.
    pub fn get(&self, key: &[u8]) -> (r: Result<StoreRead, Error>)
        requires
            self.wf(),
        ensures
            r is Err <==> !self@.open,
            r is Err ==> r == Err::<StoreRead, Error>(Error::IsClosed),
            match r {
                Ok(StoreRead::Cached(v)) => self@.que.cache.contains_key(key@) && v@ == self@.que.cache[key@],
                Ok(StoreRead::Removed) => !self@.que.cache.contains_key(key@) && self@.que.log.contains(key@),
                Ok(StoreRead::Engine) => !self@.que.cache.contains_key(key@) && !self@.que.log.contains(key@),
                Err(_) => true,
            },
    {
        if !self.is_open {
            return Err(Error::IsClosed);
        }
        match self.write_que.get(key) {
            Some(v) => Ok(StoreRead::Cached(v)),
            None => {
                if self.write_que.pending_removal(key) {
                    Ok(StoreRead::Removed)
                } else {
                    Ok(StoreRead::Engine)
                }
            },
        }
    }

    /// Pops one batch of the write log and returns the writes to apply.
    pub fn flush(&mut self) -> (r: Result<DBTransaction, Error>)
        requires
            old(self).wf(),
        ensures
            final(self).wf(),
            r is Ok <==> old(self)@.open,
            r is Err ==> r == Err::<DBTransaction, Error>(Error::IsClosed) && final(self)@ == old(self)@,
            r matches Ok(t) ==> (final(self)@.que, t@) == flush_spec(old(self)@.que, FLUSH_BATCH_SIZE as nat)
                && final(self)@.open == old(self)@.open && final(self)@.next_handle == old(self)@.next_handle
                && final(self)@.handles == old(self)@.handles,
    {
        if !self.is_open {
            return Err(Error::IsClosed);
        }
        Ok(self.write_que.flush(FLUSH_BATCH_SIZE))
    }

    fn flush_que(&mut self) -> (r: Vec<DBTransaction>)
        requires
            old(self).wf(),
        ensures
            final(self).wf(),
            (final(self)@.que, concat_batches(r@)) == flush_spec(old(self)@.que, old(self)@.que.log.len()),
            final(self)@.que.log.len() == 0,
            persists_latest(old(self)@.que, concat_batches(r@)),
            final(self)@.open == old(self)@.open,
            final(self)@.next_handle == old(self)@.next_handle,
            final(self)@.handles == old(self)@.handles,
    {
        let ghost q0 = self.write_que@;
        let ghost mut done: nat = 0;
        let mut out: Vec<DBTransaction> = Vec::new();
        while !self.write_que.is_empty()
            invariant
                self.wf(),
                done <= q0.log.len(),
                (self.write_que@, concat_batches(out@)) == flush_spec(q0, done),
                self.write_que@.log.len() == q0.log.len() - done,
                self.is_open == old(self).is_open,
                self.next_iterator == old(self).next_iterator,
                self.iterators == old(self).iterators,
            decreases self.write_que@.log.len(),
        {
            let ghost before = self.write_que@;
            let t = self.write_que.flush(FLUSH_BATCH_SIZE);
            proof {
                lemma_flush_log(before, FLUSH_BATCH_SIZE as nat);
                let step: nat = if (FLUSH_BATCH_SIZE as nat) < before.log.len() {
                    FLUSH_BATCH_SIZE as nat
                } else {
                    before.log.len()
                };
                lemma_flush_compose(q0, done, step);
                lemma_flush_steps_equal(before, step, FLUSH_BATCH_SIZE as nat);
                done = done + step;
            }
            let ghost out0 = out@;
            out.push(t);
            assert(out@.drop_last() =~= out0);
            assert(concat_batches(out@) == concat_batches(out0) + t@);
        }
        proof {
            lemma_flush_log(q0, done);
            lemma_flush_log(q0, q0.log.len());
            old(self).write_que.lemma_view_ok();
            lemma_flush_all_persists(q0);
        }
        out
    }

    /// The write cache is finite and its log holds each key at most once.
    pub proof fn lemma_que_ok(&self)
        requires
            self.wf(),
        ensures
            self@.que.cache.dom().finite(),
            crate::assoc::distinct(self@.que.log),
    {
        self.write_que.lemma_view_ok();
    }

    /// Flushes the whole write log; returns the batches to apply, in order.
    pub fn flush_all(&mut self) -> (r: Result<Vec<DBTransaction>, Error>)
        requires
            old(self).wf(),
        ensures
            final(self).wf(),
            r is Ok <==> old(self)@.open,
            r is Err ==> r == Err::<Vec<DBTransaction>, Error>(Error::IsClosed) && final(self)@ == old(self)@,
            r matches Ok(bs) ==> (final(self)@.que, concat_batches(bs@)) == flush_spec(
                old(self)@.que,
                old(self)@.que.log.len(),
            ) && final(self)@.que.log.len() == 0 && persists_latest(old(self)@.que, concat_batches(bs@))
                && final(self)@.open && final(self)@.next_handle
                == old(self)@.next_handle && final(self)@.handles == old(self)@.handles,
    {
        if !self.is_open {
            return Err(Error::IsClosed);
        }
        Ok(self.flush_que())
    }

    /// Flushes the whole write log and closes the store; returns the batches
    /// to apply before the engine is released. Open iterators are dropped.
    pub fn close(&mut self) -> (r: Result<Vec<DBTransaction>, Error>)
        requires
            old(self).wf(),
        ensures
            final(self).wf(),
            r is Ok <==> old(self)@.open,
            r is Err ==> r == Err::<Vec<DBTransaction>, Error>(Error::IsClosed) && final(self)@ == old(self)@,
            r matches Ok(bs) ==> (final(self)@.que, concat_batches(bs@)) == flush_spec(
                old(self)@.que,
                old(self)@.que.log.len(),
            ) && final(self)@.que.log.len() == 0 && persists_latest(old(self)@.que, concat_batches(bs@))
                && !final(self)@.open && final(self)@.next_handle
                == old(self)@.next_handle && final(self)@.handles == Set::<u64>::empty(),
    {
        if !self.is_open {
            return Err(Error::IsClosed);
        }
        let batches = self.flush_que();
        self.is_open = false;
        self.iterators = Vec::new();
        assert(self@.handles =~= Set::<u64>::empty());
        Ok(batches)
    }

    /// Hands out a new iterator handle, larger than every earlier one.
    pub fn iter(&mut self) -> (r: Result<u64, Error>)
        requires
            old(self).wf(),
            old(self)@.next_handle < u64::MAX,
        ensures
            final(self).wf(),
            r is Ok <==> old(self)@.open,
            r is Err ==> r == Err::<u64, Error>(Error::IsClosed) && final(self)@ == old(self)@,
            r matches Ok(h) ==> h == old(self)@.next_handle && !old(self)@.handles.contains(h)
                && final(self)@ == (DatabaseView {
                next_handle: (h + 1) as nat,
                handles: old(self)@.handles.insert(h),
                ..old(self)@
            }),
    {
        if !self.is_open {
            return Err(Error::IsClosed);
        }
        let h = self.next_iterator;
        let ghost its = self.iterators@;
        assert(!its.to_set().contains(h)) by {
            if its.to_set().contains(h) {
                let i = choose|i: int| 0 <= i < its.len() && its[i] == h;
                assert(its[i] < h);
            }
        }
        self.iterators.push(h);
        self.next_iterator = h + 1;
        assert(self.iterators@.to_set() =~= its.to_set().insert(h)) by {
            assert forall|x: u64| self.iterators@.to_set().contains(x) implies its.to_set().insert(h).contains(x) by {
                let i = choose|i: int| 0 <= i < self.iterators@.len() && self.iterators@[i] == x;
                if i < its.len() {
                    assert(its[i] == x);
                }
            }
            assert forall|x: u64| its.to_set().insert(h).contains(x) implies self.iterators@.to_set().contains(x) by {
                if x == h {
                    assert(self.iterators@[its.len() as int] == h);
                } else {
                    let i = choose|i: int| 0 <= i < its.len() && its[i] == x;
                    assert(self.iterators@[i] == x);
                }
            }
        }
        Ok(h)
    }

    /// Whether `handle` names an open iterator; advancing an unknown handle
    /// yields nothing.
    pub fn is_live(&self, handle: u64) -> (r: bool)
        ensures
            r == self@.handles.contains(handle),
    {
        let mut i: usize = 0;
        while i < self.iterators.len()
            invariant
                i <= self.iterators@.len(),
                forall|j: int| 0 <= j < i ==> self.iterators@[j] != handle,
            decreases self.iterators@.len() - i,
        {
            if self.iterators[i] == handle {
                assert(self.iterators@.to_set().contains(handle)) by {
                    assert(self.iterators@[i as int] == handle);
                }
                return true;
            }
            i = i + 1;
        }
        false
    }

    /// Releases `handle`; its number is never handed out again.
    pub fn dispose_iter(&mut self, handle: u64) -> (r: Result<(), Error>)
        requires
            old(self).wf(),
        ensures
            final(self).wf(),
            r is Ok,
            final(self)@ == (DatabaseView { handles: old(self)@.handles.remove(handle), ..old(self)@ }),
    {
        let mut kept: Vec<u64> = Vec::new();
        let mut i: usize = 0;
        let ghost its = self.iterators@;
        while i < self.iterators.len()
            invariant
                self.iterators@ == its,
                i <= its.len(),
                forall|j: int| 0 <= j < kept@.len() ==> #[trigger] kept@[j] < self.next_iterator,
                forall|x: u64| kept@.to_set().contains(x) <==> (x != handle && exists|j: int| 0 <= j < i && its[j] == x),
                forall|j: int| 0 <= j < its.len() ==> #[trigger] its[j] < self.next_iterator,
            decreases its.len() - i,
        {
            let h = self.iterators[i];
            if h != handle {
                let ghost k0 = kept@;
                kept.push(h);
                assert forall|x: u64| kept@.to_set().contains(x) <==> (x != handle && exists|j: int| 0 <= j < i + 1 && its[j] == x) by {
                    if kept@.to_set().contains(x) {
                        let j = choose|j: int| 0 <= j < kept@.len() && kept@[j] == x;
                        if j < k0.len() {
                            assert(k0.to_set().contains(x));
                        } else {
                            assert(its[i as int] == x);
                        }
                    }
                    if x != handle && exists|j: int| 0 <= j < i + 1 && its[j] == x {
                        let j = choose|j: int| 0 <= j < i + 1 && its[j] == x;
                        if j < i {
                            assert(k0.to_set().contains(x));
                            let a = choose|a: int| 0 <= a < k0.len() && k0[a] == x;
                            assert(kept@[a] == x);
                        } else {
                            assert(kept@[k0.len() as int] == x);
                        }
                    }
                }
            } else {
                assert forall|x: u64| kept@.to_set().contains(x) <==> (x != handle && exists|j: int| 0 <= j < i + 1 && its[j] == x) by {
                    if x != handle && exists|j: int| 0 <= j < i + 1 && its[j] == x {
                        let j = choose|j: int| 0 <= j < i + 1 && its[j] == x;
                        assert(j < i);
                    }
                }
            }
            i = i + 1;
        }
        self.iterators = kept;
        assert(self@.handles =~= old(self)@.handles.remove(handle)) by {
            assert forall|x: u64| old(self)@.handles.remove(handle).contains(x) implies self@.handles.contains(x) by {
                let j = choose|j: int| 0 <= j < its.len() && its[j] == x;
            }
        }
        Ok(())
    }
}

/// Popping up to `n` entries from a log of at most `n` entries pops them all,
/// as popping exactly that many does.
proof fn lemma_flush_steps_equal(q: QueView, step: nat, n: nat)
    requires
        step == (if n < q.log.len() { n } else { q.log.len() }),
    ensures
        flush_spec(q, n) == flush_spec(q, step),
{
    if step < n {
        lemma_flush_log(q, step);
        crate::write_cache::lemma_flush_more(q, step, n);
    }
}

/// Whether an iterator resumed at the key it last handed out must skip the
/// first entry found: exactly when that entry is the one already handed out.
pub fn resume_skips(last: &Option<Vec<u8>>, found: &[u8]) -> (r: bool)
    ensures
        r == (match last {
            Some(k) => k@ == found@,
            None => false,
        }),
{
    match last {
        Some(k) => crate::bytes::bytes_eq(k.as_slice(), found),
        None => false,
    }
}

/// The value that a prefix lookup yields, given the first engine entry whose
/// key is not below `prefix`: its value when its key starts with `prefix`.
pub fn prefix_match(first: Option<(Vec<u8>, Vec<u8>)>, prefix: &[u8]) -> (r: Option<Vec<u8>>)
    ensures
        match first {
            Some((k, v)) => if is_prefix_of(prefix@, k@) {
                r == Some(v)
            } else {
                r is None
            },
            None => r is None,
        },
{
    match first {
        Some((k, v)) => {
            if starts_with(k.as_slice(), prefix) {
                Some(v)
            } else {
                None
            }
        },
        None => None,
    }
}

} // verus!
