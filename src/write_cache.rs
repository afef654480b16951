//! The write cache: an in-memory buffer and FIFO write log in front of the
//! durable engine.
use std::collections::VecDeque;
use vstd::prelude::*;
use crate::assoc::{
    assoc_map, distinct, find_key, keys_view, lemma_assoc_absent, lemma_assoc_index, lemma_assoc_len,
    lemma_assoc_push, lemma_assoc_remove, lemma_assoc_update,
};
use crate::bytes::{bytes_eq, copy_bytes};
use crate::transaction::{
    apply_ops, lemma_apply_deletes, lemma_apply_puts, lemma_apply_untouched, DBTransaction, OpView,
};

verus! {

/// How many log entries one flush pops at most.
pub const FLUSH_BATCH_SIZE: usize = 1048;

/// The write cache over plain values.
pub struct QueView {
    /// Latest value of each cached key.
    pub cache: Map<Seq<u8>, Seq<u8>>,
    /// Keys written or removed, oldest first; repeats are kept.
    pub log: Seq<Seq<u8>>,
    /// How many keys the cache holds before flushing evicts.
    pub capacity: nat,
}

/// The write cache after `write(k, v)`.
pub open spec fn que_write(q: QueView, k: Seq<u8>, v: Seq<u8>) -> QueView {
    QueView { cache: q.cache.insert(k, v), log: log_once(q.log, k), capacity: q.capacity }
}

/// The log with `k` appended, unless it already waits there: each key is
/// logged at most once, so no stale entry outlives an eviction.
pub open spec fn log_once(log: Seq<Seq<u8>>, k: Seq<u8>) -> Seq<Seq<u8>> {
    if log.contains(k) {
        log
    } else {
        log.push(k)
    }
}

/// The write cache after `remove(k)`.
pub open spec fn que_remove(q: QueView, k: Seq<u8>) -> QueView {
    QueView { cache: q.cache.remove(k), log: log_once(q.log, k), capacity: q.capacity }
}

/// The write cache after writing `vs[i]` under `ks[i]`, in order.
pub open spec fn que_writes(q: QueView, ks: Seq<Seq<u8>>, vs: Seq<Seq<u8>>) -> QueView
    decreases ks.len(),
{
    if ks.len() == 0 || vs.len() == 0 {
        q
    } else {
        que_write(que_writes(q, ks.drop_last(), vs.drop_last()), ks.last(), vs.last())
    }
}

/// An empty write cache holding `capacity` keys.
pub open spec fn empty_que(capacity: nat) -> QueView {
    QueView { cache: Map::empty(), log: Seq::empty(), capacity }
}

/// The write that flushing stages for `k`: its cached value, or a delete when
/// the cache does not hold it.
pub open spec fn staged_op(cache: Map<Seq<u8>, Seq<u8>>, k: Seq<u8>) -> OpView {
    if cache.contains_key(k) {
        OpView::Put(k, cache[k])
    } else {
        OpView::Delete(k)
    }
}

/// Pops the oldest log entry: stages its current state, and evicts it from the
/// cache when the cache holds more keys than its capacity.
pub open spec fn flush_step(q: QueView) -> (QueView, OpView)
    recommends
        q.log.len() > 0,
{
    let k = q.log[0];
    let cache = if q.cache.len() > q.capacity {
        q.cache.remove(k)
    } else {
        q.cache
    };
    (QueView { cache, log: q.log.subrange(1, q.log.len() as int), capacity: q.capacity }, staged_op(q.cache, k))
}

/// Pops up to `n` log entries, oldest first, and the writes staged for them.
pub open spec fn flush_spec(q: QueView, n: nat) -> (QueView, Seq<OpView>)
    decreases n,
{
    if n == 0 {
        (q, Seq::empty())
    } else {
        let (q1, ops) = flush_spec(q, (n - 1) as nat);
        if q1.log.len() == 0 {
            (q1, ops)
        } else {
            let (q2, op) = flush_step(q1);
            (q2, ops.push(op))
        }
    }
}

/// Coalescing write buffer with a bounded cache and a write log that holds
/// each key at most once.
#[derive(Clone)]
pub struct WriteQue {
    keys: Vec<Vec<u8>>,
    values: Vec<Vec<u8>>,
    write_log: VecDeque<Vec<u8>>,
    cache_len: usize,
}

impl View for WriteQue {
    type V = QueView;

    closed spec fn view(&self) -> QueView {
        QueView {
            cache: assoc_map(keys_view(self.keys@), keys_view(self.values@)),
            log: keys_view(self.write_log@),
            capacity: self.cache_len as nat,
        }
    }
}

impl WriteQue {
    /// The cache's keys are distinct, each with one value; the log holds each
    /// key at most once.
    pub closed spec fn wf(&self) -> bool {
        &&& distinct(keys_view(self.write_log@))
        &&& self.keys@.len() == self.values@.len()
        &&& distinct(keys_view(self.keys@))
    }

    proof fn lemma_cache_len(&self)
        requires
            self.wf(),
        ensures
            self@.cache.dom().finite(),
            self@.cache.len() == self.keys@.len(),
    {
        lemma_assoc_len(keys_view(self.keys@), keys_view(self.values@));
    }

    /// The cache is finite and the log holds each key at most once.
    pub proof fn lemma_view_ok(&self)
        requires
            self.wf(),
        ensures
            self@.cache.dom().finite(),
            distinct(self@.log),
    {
        self.lemma_cache_len();
    }

    /// Whether `key` waits in the log.
    fn logged(&self, key: &[u8]) -> (r: bool)
        ensures
            r == self@.log.contains(key@),
    {
        let mut i: usize = 0;
        while i < self.write_log.len()
            invariant
                i <= self.write_log@.len(),
                forall|j: int| 0 <= j < i ==> self.write_log@[j]@ != key@,
            decreases self.write_log@.len() - i,
        {
            if bytes_eq(self.write_log[i].as_slice(), key) {
                assert(self@.log[i as int] == key@);
                return true;
            }
            i = i + 1;
        }
        false
    }

    /// Appends `key` to the log unless it already waits there.
    fn log_key(&mut self, key: Vec<u8>)
        requires
            distinct(keys_view(old(self).write_log@)),
        ensures
            distinct(keys_view(final(self).write_log@)),
            final(self)@.log == log_once(old(self)@.log, key@),
            final(self).keys == old(self).keys,
            final(self).values == old(self).values,
            final(self).cache_len == old(self).cache_len,
    {
        if !self.logged(key.as_slice()) {
            let ghost log0 = self@.log;
            self.write_log.push_back(key);
            assert(self@.log =~= log0.push(key@));
        }
    }

    /// An empty cache holding at most `cache_len` keys between flushes.
    pub fn new(cache_len: usize) -> (r: WriteQue)
        ensures
            r.wf(),
            r@ == empty_que(cache_len as nat),
    {
        let r = WriteQue { keys: Vec::new(), values: Vec::new(), write_log: VecDeque::new(), cache_len };
        assert(r@.cache =~= Map::<Seq<u8>, Seq<u8>>::empty());
        assert(r@.log =~= Seq::<Seq<u8>>::empty());
        r
    }

    /// Caches `val` as the latest value of `key` and logs the key.
    pub fn write(&mut self, key: Vec<u8>, val: Vec<u8>)
        requires
            old(self).wf(),
        ensures
            final(self).wf(),
            final(self)@ == que_write(old(self)@, key@, val@),
    {
        let ghost ks = keys_view(self.keys@);
        let ghost vs = keys_view(self.values@);
        match find_key(&self.keys, key.as_slice()) {
            Some(i) => {
                self.values.set(i, val);
                proof {
                    assert(keys_view(self.values@) =~= vs.update(i as int, val@));
                    lemma_assoc_update(ks, vs, i as int, val@);
                }
            },
            None => {
                self.keys.push(copy_bytes(key.as_slice()));
                self.values.push(val);
                proof {
                    assert(keys_view(self.keys@) =~= ks.push(key@));
                    assert(keys_view(self.values@) =~= vs.push(val@));
                    lemma_assoc_push(ks, vs, key@, val@);
                }
            },
        }
        self.log_key(key);
    }

    /// Drops `key` from the cache and logs it, so that flushing deletes it.
    pub fn remove(&mut self, key: Vec<u8>)
        requires
            old(self).wf(),
        ensures
            final(self).wf(),
            final(self)@ == que_remove(old(self)@, key@),
    {
        let ghost ks = keys_view(self.keys@);
        let ghost vs = keys_view(self.values@);
        match find_key(&self.keys, key.as_slice()) {
            Some(i) => {
                self.keys.remove(i);
                self.values.remove(i);
                proof {
                    assert(keys_view(self.keys@) =~= ks.remove(i as int));
                    assert(keys_view(self.values@) =~= vs.remove(i as int));
                    lemma_assoc_remove(ks, vs, i as int);
                }
            },
            None => {
                proof {
                    lemma_assoc_absent(ks, vs, key@);
                    assert(self@.cache =~= old(self)@.cache.remove(key@));
                }
            },
        }
        self.log_key(key);
    }

    /// The cached value of `key`, if any.
    pub fn get(&self, key: &[u8]) -> (r: Option<Vec<u8>>)
        requires
            self.wf(),
        ensures
            match r {
                Some(v) => self@.cache.contains_key(key@) && v@ == self@.cache[key@],
                None => !self@.cache.contains_key(key@),
            },
    {
        match find_key(&self.keys, key) {
            Some(i) => {
                proof {
                    lemma_assoc_index(keys_view(self.keys@), keys_view(self.values@), i as int);
                }
                Some(copy_bytes(self.values[i].as_slice()))
            },
            None => {
                proof {
                    lemma_assoc_absent(keys_view(self.keys@), keys_view(self.values@), key@);
                }
                None
            },
        }
    }

    /// Whether `key` waits in the log with no cached value: a remove not yet
    /// flushed.
    pub fn pending_removal(&self, key: &[u8]) -> (r: bool)
        requires
            self.wf(),
        ensures
            r == (self@.log.contains(key@) && !self@.cache.contains_key(key@)),
    {
        match find_key(&self.keys, key) {
            Some(i) => {
                proof { lemma_assoc_index(keys_view(self.keys@), keys_view(self.values@), i as int); }
                false
            },
            None => {
                proof { lemma_assoc_absent(keys_view(self.keys@), keys_view(self.values@), key@); }
                self.logged(key)
            },
        }
    }

    /// Whether the write log is empty.
    pub fn is_empty(&self) -> (r: bool)
        ensures
            r == (self@.log.len() == 0),
    {
        self.write_log.len() == 0
    }

    /// Pops up to `keys` log entries, oldest first, and returns the batch of
    /// writes staged for them against the cache as it is now.
    pub fn flush(&mut self, keys: usize) -> (r: DBTransaction)
        requires
            old(self).wf(),
        ensures
            final(self).wf(),
            (final(self)@, r@) == flush_spec(old(self)@, keys as nat),
    {
        let mut batch = DBTransaction::new();
        let mut so_far: usize = 0;
        while so_far < keys
            invariant
                so_far <= keys,
                self.wf(),
                (self@, batch@) == flush_spec(old(self)@, so_far as nat),
            decreases keys - so_far,
        {
            let ghost q0 = self@;
            let ghost ops0 = batch@;
            let ghost log0 = self.write_log@;
            let next = match self.write_log.pop_front() {
                Some(k) => k,
                None => {
                    assert(flush_spec(old(self)@, (so_far + 1) as nat) == (q0, ops0));
                    proof { lemma_flush_more(old(self)@, so_far as nat, keys as nat); }
                    return batch;
                },
            };
            assert(keys_view(self.write_log@) =~= q0.log.subrange(1, q0.log.len() as int));
            assert(distinct(keys_view(self.write_log@))) by {
                let l = keys_view(self.write_log@);
                assert forall|a: int, b: int| 0 <= a < l.len() && 0 <= b < l.len() && a != b implies l[a] != l[b] by {
                    assert(l[a] == q0.log[a + 1]);
                    assert(l[b] == q0.log[b + 1]);
                }
            }
            assert(next@ == q0.log[0]);
            proof { self.lemma_cache_len(); }
            let ghost ks = keys_view(self.keys@);
            let ghost vs = keys_view(self.values@);
            if self.keys.len() > self.cache_len {
                match find_key(&self.keys, next.as_slice()) {
                    Some(i) => {
                        proof { lemma_assoc_index(ks, vs, i as int); }
                        let value = self.values.remove(i);
                        self.keys.remove(i);
                        proof {
                            assert(keys_view(self.keys@) =~= ks.remove(i as int));
                            assert(keys_view(self.values@) =~= vs.remove(i as int));
                            lemma_assoc_remove(ks, vs, i as int);
                        }
                        batch.put(next.as_slice(), value.as_slice());
                    },
                    None => {
                        proof {
                            lemma_assoc_absent(ks, vs, next@);
                            assert(q0.cache.remove(next@) =~= q0.cache);
                        }
                        batch.delete(next.as_slice());
                    },
                }
            } else {
                match find_key(&self.keys, next.as_slice()) {
                    Some(i) => {
                        proof { lemma_assoc_index(ks, vs, i as int); }
                        batch.put(next.as_slice(), self.values[i].as_slice());
                    },
                    None => {
                        proof { lemma_assoc_absent(ks, vs, next@); }
                        batch.delete(next.as_slice());
                    },
                }
            }
            so_far = so_far + 1;
            assert(self@ == flush_step(q0).0);
        }
        batch
    }
}

/// Once the log is empty, popping more entries changes nothing.
pub proof fn lemma_flush_more(q: QueView, n: nat, m: nat)
    requires
        n <= m,
        flush_spec(q, n).0.log.len() == 0,
    ensures
        flush_spec(q, m) == flush_spec(q, n),
    decreases m - n,
{
    if n < m {
        lemma_flush_more(q, n, (m - 1) as nat);
    }
}

/// Flushing pops `min(n, log length)` entries from the front of the log.
pub proof fn lemma_flush_log(q: QueView, n: nat)
    ensures
        flush_spec(q, n).0.log == q.log.subrange(
            if n < q.log.len() { n as int } else { q.log.len() as int },
            q.log.len() as int,
        ),
        flush_spec(q, n).0.capacity == q.capacity,
    decreases n,
{
    if n == 0 {
        assert(q.log.subrange(0, q.log.len() as int) =~= q.log);
    } else {
        lemma_flush_log(q, (n - 1) as nat);
        let q1 = flush_spec(q, (n - 1) as nat).0;
        if q1.log.len() > 0 {
            assert(q1.log.subrange(1, q1.log.len() as int) =~= q.log.subrange(n as int, q.log.len() as int));
        }
    }
}

/// Popping `a` entries and then `b` more is popping `a + b`.
pub proof fn lemma_flush_compose(q: QueView, a: nat, b: nat)
    ensures
        flush_spec(q, a + b) == (
            flush_spec(flush_spec(q, a).0, b).0,
            flush_spec(q, a).1 + flush_spec(flush_spec(q, a).0, b).1,
        ),
    decreases b,
{
    let (q1, ops1) = flush_spec(q, a);
    if b == 0 {
        assert(ops1 + Seq::<OpView>::empty() =~= ops1);
    } else {
        lemma_flush_compose(q, a, (b - 1) as nat);
        let (q2, ops2) = flush_spec(q1, (b - 1) as nat);
        assert(flush_spec(q, (a + b - 1) as nat) == (q2, ops1 + ops2));
        if q2.log.len() > 0 {
            let (q3, op) = flush_step(q2);
            assert((ops1 + ops2).push(op) =~= ops1 + ops2.push(op));
        }
    }
}

/// The `j`-th write a flush stages is for the `j`-th key of the log.
pub proof fn lemma_flush_keys(q: QueView, n: nat)
    ensures
        flush_spec(q, n).1.len() == (if n < q.log.len() { n } else { q.log.len() }),
        forall|j: int| 0 <= j < flush_spec(q, n).1.len() ==> (#[trigger] flush_spec(q, n).1[j]).key() == q.log[j],
    decreases n,
{
    if n > 0 {
        lemma_flush_keys(q, (n - 1) as nat);
        lemma_flush_log(q, (n - 1) as nat);
        let (q1, ops) = flush_spec(q, (n - 1) as nat);
        if q1.log.len() > 0 {
            assert(q1.log[0] == q.log[n - 1]);
            let ops2 = flush_spec(q, n).1;
            assert forall|j: int| 0 <= j < ops2.len() implies (#[trigger] ops2[j]).key() == q.log[j] by {
                if j < ops.len() {
                    assert(ops2[j] == ops[j]);
                }
            }
        }
    }
}

/// Flushing only evicts: it never adds a key to the cache.
pub proof fn lemma_flush_shrinks(q: QueView, n: nat, k: Seq<u8>)
    requires
        !q.cache.contains_key(k),
    ensures
        !flush_spec(q, n).0.cache.contains_key(k),
    decreases n,
{
    if n > 0 {
        lemma_flush_shrinks(q, (n - 1) as nat, k);
    }
}

/// What a full flush owes the store, key by key: a logged key ends with its
/// cached value, or absent when the cache does not hold it (its last operation
/// was a remove); every other key is left as the store held it.
pub open spec fn persists_latest(q: QueView, ops: Seq<OpView>) -> bool {
    forall|store: Map<Seq<u8>, Seq<u8>>, k: Seq<u8>|
        #![trigger apply_ops(store, ops).contains_key(k)]
        {
            &&& (q.log.contains(k) && q.cache.contains_key(k)) ==> apply_ops(store, ops).contains_key(k)
                && apply_ops(store, ops)[k] == q.cache[k]
            &&& (q.log.contains(k) && !q.cache.contains_key(k)) ==> !apply_ops(store, ops).contains_key(k)
            &&& !q.log.contains(k) ==> apply_ops(store, ops).contains_key(k) == store.contains_key(k)
                && (store.contains_key(k) ==> apply_ops(store, ops)[k] == store[k])
        }
}

/// Logging a key once keeps the log free of repeats.
pub proof fn lemma_log_once(log: Seq<Seq<u8>>, k: Seq<u8>)
    requires
        distinct(log),
    ensures
        distinct(log_once(log, k)),
        log_once(log, k).contains(k),
        forall|x: Seq<u8>| #[trigger] log.contains(x) ==> log_once(log, x).len() == log.len(),
{
    if !log.contains(k) {
        let l = log.push(k);
        assert forall|a: int, b: int| 0 <= a < l.len() && 0 <= b < l.len() && a != b implies l[a] != l[b] by {
            if a < log.len() && b < log.len() {
            } else if a < log.len() {
                assert(l[a] == log[a]);
                if l[a] == l[b] {
                    assert(log.contains(k));
                }
            } else {
                assert(l[b] == log[b]);
                if l[a] == l[b] {
                    assert(log.contains(k));
                }
            }
        }
        assert(l[log.len() as int] == k);
    }
}

/// With a log free of repeats, each popped key is staged against the cache as
/// it was before the flush: evictions only drop keys already popped.
pub proof fn lemma_flush_distinct(q: QueView, n: nat)
    requires
        distinct(q.log),
    ensures
        flush_spec(q, n).1.len() == (if n < q.log.len() { n } else { q.log.len() }),
        forall|j: int| 0 <= j < flush_spec(q, n).1.len() ==> #[trigger] flush_spec(q, n).1[j] == staged_op(q.cache, q.log[j]),
        forall|i: int|
            (if n < q.log.len() { n as int } else { q.log.len() as int }) <= i < q.log.len() ==> (
            #[trigger] flush_spec(q, n).0.cache.contains_key(q.log[i])) == q.cache.contains_key(q.log[i])
                && (q.cache.contains_key(q.log[i]) ==> flush_spec(q, n).0.cache[q.log[i]] == q.cache[q.log[i]]),
    decreases n,
{
    if n > 0 {
        let m = (n - 1) as nat;
        lemma_flush_distinct(q, m);
        lemma_flush_log(q, m);
        let (q1, ops) = flush_spec(q, m);
        if q1.log.len() > 0 {
            assert(q1.log[0] == q.log[m as int]);
            let k = q.log[m as int];
            assert(flush_spec(q, m).0.cache.contains_key(q.log[m as int]) == q.cache.contains_key(q.log[m as int]));
            let ops2 = flush_spec(q, n).1;
            assert forall|j: int| 0 <= j < ops2.len() implies #[trigger] ops2[j] == staged_op(q.cache, q.log[j]) by {
                if j < ops.len() {
                    assert(ops2[j] == ops[j]);
                }
            }
            let c2 = flush_spec(q, n).0.cache;
            assert forall|i: int| n <= i < q.log.len() implies (#[trigger] c2.contains_key(q.log[i])) == q.cache.contains_key(q.log[i])
                && (q.cache.contains_key(q.log[i]) ==> c2[q.log[i]] == q.cache[q.log[i]]) by {
                assert(q.log[i] != k);
                assert(q1.cache.contains_key(q.log[i]) == q.cache.contains_key(q.log[i]));
            }
        }
    }
}

/// Flushing a log free of repeats to the end leaves each logged key with its
/// latest state, and every other key as it was.
pub proof fn lemma_flush_all_persists(q: QueView)
    requires
        distinct(q.log),
    ensures
        persists_latest(q, flush_spec(q, q.log.len()).1),
        flush_spec(q, q.log.len()).0.log.len() == 0,
{
    let n = q.log.len();
    let ops = flush_spec(q, n).1;
    lemma_flush_distinct(q, n);
    lemma_flush_log(q, n);
    assert forall|store: Map<Seq<u8>, Seq<u8>>, k: Seq<u8>|
        #![trigger apply_ops(store, ops).contains_key(k)]
        {
            &&& (q.log.contains(k) && q.cache.contains_key(k)) ==> apply_ops(store, ops).contains_key(k)
                && apply_ops(store, ops)[k] == q.cache[k]
            &&& (q.log.contains(k) && !q.cache.contains_key(k)) ==> !apply_ops(store, ops).contains_key(k)
            &&& !q.log.contains(k) ==> apply_ops(store, ops).contains_key(k) == store.contains_key(k)
                && (store.contains_key(k) ==> apply_ops(store, ops)[k] == store[k])
        } by {
        if q.log.contains(k) {
            let i = choose|i: int| 0 <= i < q.log.len() && q.log[i] == k;
            assert(ops[i] == staged_op(q.cache, q.log[i]));
            assert(ops[i].key() == k);
            if q.cache.contains_key(k) {
                assert forall|j: int| 0 <= j < ops.len() && (#[trigger] ops[j]).key() == k implies ops[j] == OpView::Put(k, q.cache[k]) by {
                    assert(ops[j] == staged_op(q.cache, q.log[j]));
                    assert(q.log[j] == k);
                }
                lemma_apply_puts(store, ops, k, q.cache[k]);
            } else {
                assert forall|j: int| 0 <= j < ops.len() && (#[trigger] ops[j]).key() == k implies ops[j] == OpView::Delete(k) by {
                    assert(ops[j] == staged_op(q.cache, q.log[j]));
                    assert(q.log[j] == k);
                }
                lemma_apply_deletes(store, ops, k);
            }
        } else {
            assert forall|j: int| 0 <= j < ops.len() implies (#[trigger] ops[j]).key() != k by {
                assert(ops[j] == staged_op(q.cache, q.log[j]));
                assert(q.log[j] != k) by {
                    if q.log[j] == k {
                        assert(q.log.contains(k));
                    }
                }
            }
            lemma_apply_untouched(store, ops, k);
        }
    }
}

/// Writing a key twice and flushing the whole log leaves the second value in
/// the store, whatever the cache's capacity.
pub proof fn lemma_rewrite_flushes_latest(
    q: QueView,
    a: Seq<u8>,
    v1: Seq<u8>,
    v2: Seq<u8>,
    store: Map<Seq<u8>, Seq<u8>>,
)
    requires
        distinct(q.log),
    ensures
        ({
            let q2 = que_write(que_write(q, a, v1), a, v2);
            let (q3, ops) = flush_spec(q2, q2.log.len());
            &&& apply_ops(store, ops).contains_key(a)
            &&& apply_ops(store, ops)[a] == v2
            &&& q3.log.len() == 0
        }),
{
    let q1 = que_write(q, a, v1);
    let q2 = que_write(q1, a, v2);
    lemma_log_once(q.log, a);
    lemma_log_once(q1.log, a);
    lemma_flush_all_persists(q2);
    let ops = flush_spec(q2, q2.log.len()).1;
    assert(apply_ops(store, ops).contains_key(a) == apply_ops(store, ops).contains_key(a));
}

/// Writing distinct keys, in order, to an empty cache gives the map of keys to
/// values and logs the keys in order.
pub proof fn lemma_fresh_writes(capacity: nat, ks: Seq<Seq<u8>>, vs: Seq<Seq<u8>>)
    requires
        ks.len() == vs.len(),
        distinct(ks),
    ensures
        que_writes(empty_que(capacity), ks, vs) == (QueView { cache: assoc_map(ks, vs), log: ks, capacity }),
    decreases ks.len(),
{
    if ks.len() == 0 {
        assert(assoc_map(ks, vs) =~= Map::<Seq<u8>, Seq<u8>>::empty());
        assert(ks =~= Seq::<Seq<u8>>::empty());
    } else {
        let ks0 = ks.drop_last();
        let vs0 = vs.drop_last();
        assert(distinct(ks0));
        lemma_fresh_writes(capacity, ks0, vs0);
        assert forall|i: int| 0 <= i < ks0.len() implies ks0[i] != ks.last() by {
            assert(ks0[i] == ks[i]);
        }
        lemma_assoc_push(ks0, vs0, ks.last(), vs.last());
        assert(ks0.push(ks.last()) =~= ks);
        assert(vs0.push(vs.last()) =~= vs);
    }
}

/// With room for `capacity` keys, writing `capacity + 1` distinct keys and
/// then flushing evicts the oldest key from the cache, while the flushed batch
/// still puts its value in the store.
pub proof fn lemma_overflow_evicts_oldest(
    capacity: nat,
    ks: Seq<Seq<u8>>,
    vs: Seq<Seq<u8>>,
    n: nat,
    store: Map<Seq<u8>, Seq<u8>>,
)
    requires
        ks.len() == capacity + 1,
        vs.len() == capacity + 1,
        distinct(ks),
        n >= 1,
    ensures
        ({
            let (q2, ops) = flush_spec(que_writes(empty_que(capacity), ks, vs), n);
            &&& !q2.cache.contains_key(ks[0])
            &&& ops[0] == OpView::Put(ks[0], vs[0])
            &&& apply_ops(store, ops).contains_key(ks[0])
            &&& apply_ops(store, ops)[ks[0]] == vs[0]
        }),
{
    let q = que_writes(empty_que(capacity), ks, vs);
    lemma_fresh_writes(capacity, ks, vs);
    lemma_assoc_len(ks, vs);
    lemma_assoc_index(ks, vs, 0);
    lemma_flush_compose(q, 1, (n - 1) as nat);
    assert(flush_spec(q, 0) == (q, Seq::<OpView>::empty()));
    let (q1, ops1) = flush_spec(q, 1);
    assert(ops1 == Seq::<OpView>::empty().push(OpView::Put(ks[0], vs[0])));
    assert(!q1.cache.contains_key(ks[0]));
    lemma_flush_shrinks(q1, (n - 1) as nat, ks[0]);
    let ops = flush_spec(q, n).1;
    assert(n == 1 + (n - 1) as nat);
    assert(ops[0] == ops1[0]);
    lemma_flush_keys(q, n);
    assert forall|j: int| 0 <= j < ops.len() && (#[trigger] ops[j]).key() == ks[0] implies ops[j] == OpView::Put(ks[0], vs[0]) by {
        assert(ops[j].key() == ks[j]);
        if j != 0 {
            assert(ks[j] != ks[0]);
        }
    }
    assert(ops[0].key() == ks[0]);
    lemma_apply_puts(store, ops, ks[0], vs[0]);
}

} // verus!
