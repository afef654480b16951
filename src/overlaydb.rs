//! The overlay database: counted insertions and removals buffered in memory and
//! reconciled, on commit, into one batch for the backing store.
//!
//! The backing store is read and written by the caller. Reads go through
//! `lookup`, then, when it answers `Lookup::Backing`, through `read_through`
//! with what the store held. A commit goes through `pending_keys`, then
//! `commit` with whether the store holds each of those keys; the batch it
//! returns is written to the store as one atomic write.
use vstd::prelude::*;
use crate::assoc::{assoc_map, distinct, keys_view};
use crate::bytes::copy_bytes;
use crate::error::{CommitFault, Error};
use crate::keccak::keccak_of;
use crate::memory_overlay::{
    dec_rc, denote_spec, emplace_spec, live, merged_counts, pending_view, remove_spec, MemoryOverlay, OverlayView, Pending,
};
use crate::transaction::{
    apply_ops, lemma_apply_deletes, lemma_apply_puts, lemma_apply_untouched, DBTransaction, OpView,
};

verus! {

/// How net deletions are treated when the overlay is committed.
#[derive(Clone, Copy, Debug, PartialEq, Eq, Structural)]
pub enum DeletionMode {
    /// Keep the content in the backing store; the deletion is accounting only.
    Ignore,
    /// Remove the content from the backing store.
    Remove,
}

/// One drained entry reconciled against the batch staged so far: `present`
/// tells whether the backing store holds the entry's key.
pub open spec fn commit_step(
    acc: Result<Seq<OpView>, CommitFault>,
    e: (Seq<u8>, Seq<u8>, int),
    present: bool,
    mode: DeletionMode,
) -> Result<Seq<OpView>, CommitFault> {
    match acc {
        Err(f) => Err(f),
        Ok(ops) => if e.2 == 0 {
            Ok(ops)
        } else if e.2 == 1 {
            if !present {
                Ok(ops.push(OpView::Put(e.0, e.1)))
            } else if mode == DeletionMode::Remove {
                Err(CommitFault::InsertionInvalid(e.0))
            } else {
                Ok(ops)
            }
        } else if e.2 == -1 {
            if mode == DeletionMode::Remove {
                if !present {
                    Err(CommitFault::DeletionInvalid(e.0))
                } else {
                    Ok(ops.push(OpView::Delete(e.0)))
                }
            } else {
                Ok(ops)
            }
        } else {
            Err(CommitFault::InvalidReferenceCount(e.0, e.2))
        },
    }
}

/// The batch for the first `n` drained entries, or the fault of the first
/// entry that breaks the commit rules.
pub open spec fn reconcile_spec(
    entries: Seq<(Seq<u8>, Seq<u8>, int)>,
    present: Seq<bool>,
    mode: DeletionMode,
    n: nat,
) -> Result<Seq<OpView>, CommitFault>
    decreases n,
{
    if n == 0 {
        Ok(Seq::empty())
    } else {
        commit_step(
            reconcile_spec(entries, present, mode, (n - 1) as nat),
            entries[n - 1],
            present[n - 1],
            mode,
        )
    }
}

/// The batch for all drained entries, or the first fault.
pub open spec fn reconcile_all(
    entries: Seq<(Seq<u8>, Seq<u8>, int)>,
    present: Seq<bool>,
    mode: DeletionMode,
) -> Result<Seq<OpView>, CommitFault> {
    reconcile_spec(entries, present, mode, entries.len())
}

/// Once a fault is found, later entries keep it.
pub proof fn lemma_fault_sticks(
    entries: Seq<(Seq<u8>, Seq<u8>, int)>,
    present: Seq<bool>,
    mode: DeletionMode,
    n: nat,
    m: nat,
)
    requires
        n <= m,
        reconcile_spec(entries, present, mode, n) is Err,
    ensures
        reconcile_spec(entries, present, mode, m) == reconcile_spec(entries, present, mode, n),
    decreases m - n,
{
    if n < m {
        lemma_fault_sticks(entries, present, mode, n, (m - 1) as nat);
    }
}

/// Checks the drained entries against the commit rules, in order, and stages
/// the writes they call for; `present[i]` tells whether the backing store
/// holds the key of `entries[i]`. Stops at the first entry that breaks a rule.
pub fn reconcile(entries: &Vec<Pending>, present: &Vec<bool>, mode: DeletionMode) -> (r: Result<
    DBTransaction,
    Error,
>)
    requires
        entries@.len() == present@.len(),
    ensures
        match r {
            Ok(t) => reconcile_all(pending_view(entries@), present@, mode) == Ok::<
                Seq<OpView>,
                CommitFault,
            >(t@),
            Err(e) => e.fault() is Some && reconcile_all(pending_view(entries@), present@, mode)
                == Err::<Seq<OpView>, CommitFault>(e.fault().unwrap()),
        },
{
    let ghost es = pending_view(entries@);
    let mut batch = DBTransaction::new();
    let mut i: usize = 0;
    while i < entries.len()
        invariant
            i <= entries@.len(),
            entries@.len() == present@.len(),
            es == pending_view(entries@),
            reconcile_spec(es, present@, mode, i as nat) == Ok::<Seq<OpView>, CommitFault>(batch@),
        decreases entries@.len() - i,
    {
        let e = &entries[i];
        let p = present[i];
        assert(es[i as int] == e@);
        if e.rc == 0 {
        } else if e.rc == 1 {
            if !p {
                batch.put(e.key.as_slice(), e.value.as_slice());
            } else if mode == DeletionMode::Remove {
                let err = Error::InsertionInvalid(copy_bytes(e.key.as_slice()));
                proof { lemma_fault_sticks(es, present@, mode, (i + 1) as nat, es.len()); }
                return Err(err);
            }
        } else if e.rc == -1 {
            if mode == DeletionMode::Remove {
                if !p {
                    let err = Error::DeletionInvalid(copy_bytes(e.key.as_slice()));
                    proof { lemma_fault_sticks(es, present@, mode, (i + 1) as nat, es.len()); }
                    return Err(err);
                }
                batch.delete(e.key.as_slice());
            }
        } else {
            let err = Error::InvalidReferenceCount(copy_bytes(e.key.as_slice()), e.rc);
            proof { lemma_fault_sticks(es, present@, mode, (i + 1) as nat, es.len()); }
            return Err(err);
        }
        i = i + 1;
    }
    Ok(batch)
}

/// Whether a drained entry breaks a commit rule.
pub open spec fn faulty(e: (Seq<u8>, Seq<u8>, int), present: bool, mode: DeletionMode) -> bool {
    ||| (e.2 == 1 && present && mode == DeletionMode::Remove)
    ||| (e.2 == -1 && !present && mode == DeletionMode::Remove)
    ||| (e.2 != 0 && e.2 != 1 && e.2 != -1)
}

/// Whether `op` is the write a commit stages for entry `e`: a put of an
/// inserted entry that the store lacks, or, under `Remove`, a delete of a
/// removed entry that the store holds.
pub open spec fn staged_for(op: OpView, e: (Seq<u8>, Seq<u8>, int), present: bool, mode: DeletionMode) -> bool {
    ||| (op == OpView::Put(e.0, e.1) && e.2 == 1 && !present)
    ||| (op == OpView::Delete(e.0) && e.2 == -1 && mode == DeletionMode::Remove && present)
}

/// A commit succeeds exactly when no drained entry breaks a rule.
pub proof fn lemma_reconcile_ok(
    entries: Seq<(Seq<u8>, Seq<u8>, int)>,
    present: Seq<bool>,
    mode: DeletionMode,
    n: nat,
)
    requires
        n <= entries.len(),
        n <= present.len(),
    ensures
        reconcile_spec(entries, present, mode, n) is Ok <==> forall|i: int|
            0 <= i < n ==> !faulty(#[trigger] entries[i], present[i], mode),
    decreases n,
{
    if n > 0 {
        let m = (n - 1) as nat;
        lemma_reconcile_ok(entries, present, mode, m);
        if reconcile_spec(entries, present, mode, m) is Err {
            let i = choose|i: int| 0 <= i < m && faulty(#[trigger] entries[i], present[i], mode);
        }
    }
}

/// The `j`-th write of a successful commit over the first `n` entries is the
/// one staged for the entry at the position returned.
pub proof fn lemma_reconcile_source(
    entries: Seq<(Seq<u8>, Seq<u8>, int)>,
    present: Seq<bool>,
    mode: DeletionMode,
    n: nat,
    j: int,
) -> (i: int)
    requires
        n <= entries.len(),
        n <= present.len(),
        reconcile_spec(entries, present, mode, n) is Ok,
        0 <= j < reconcile_spec(entries, present, mode, n)->Ok_0.len(),
    ensures
        0 <= i < n,
        staged_for(reconcile_spec(entries, present, mode, n)->Ok_0[j], entries[i], present[i], mode),
    decreases n,
{
    let m = (n - 1) as nat;
    let prev = reconcile_spec(entries, present, mode, m);
    let e = entries[m as int];
    assert(prev is Ok);
    let ops = prev->Ok_0;
    let ops2 = reconcile_spec(entries, present, mode, n)->Ok_0;
    if j < ops.len() {
        assert(ops2[j] == ops[j]);
        lemma_reconcile_source(entries, present, mode, m, j)
    } else {
        if e.2 == 1 {
            assert(ops2 == ops.push(OpView::Put(e.0, e.1)));
        } else {
            assert(ops2 == ops.push(OpView::Delete(e.0)));
        }
        m as int
    }
}

/// A successful commit stages a put for every inserted entry that the store
/// lacks.
pub proof fn lemma_reconcile_puts(
    entries: Seq<(Seq<u8>, Seq<u8>, int)>,
    present: Seq<bool>,
    mode: DeletionMode,
    n: nat,
)
    requires
        n <= entries.len(),
        n <= present.len(),
    ensures
        reconcile_spec(entries, present, mode, n) matches Ok(ops) ==> forall|i: int|
            0 <= i < n && (#[trigger] entries[i]).2 == 1 && !present[i] ==> exists|j: int|
                0 <= j < ops.len() && ops[j] == OpView::Put(entries[i].0, entries[i].1),
    decreases n,
{
    if n > 0 {
        let m = (n - 1) as nat;
        lemma_reconcile_puts(entries, present, mode, m);
        if let Ok(ops) = reconcile_spec(entries, present, mode, m) {
            if let Ok(ops2) = reconcile_spec(entries, present, mode, n) {
                assert forall|i: int| 0 <= i < n && (#[trigger] entries[i]).2 == 1 && !present[i] implies exists|j: int|
                    0 <= j < ops2.len() && ops2[j] == OpView::Put(entries[i].0, entries[i].1) by {
                    if i < m {
                        let j = choose|j: int| 0 <= j < ops.len() && ops[j] == OpView::Put(entries[i].0, entries[i].1);
                        assert(ops2[j] == ops[j]);
                    } else {
                        assert(ops2[ops.len() as int] == OpView::Put(entries[i].0, entries[i].1));
                    }
                }
            }
        }
    }
}

/// What a read finds in the overlay.
#[derive(Debug)]
pub enum Lookup {
    /// The overlay holds a referenced value.
    Found(Vec<u8>),
    /// The key is slated for deletion from the backing store: nothing is read.
    Deleted,
    /// The answer is in the backing store.
    Backing,
}

/// A read answer over plain values.
pub enum LookupView {
    Found(Seq<u8>),
    Deleted,
    Backing,
}

impl View for Lookup {
    type V = LookupView;

    open spec fn view(&self) -> LookupView {
        match self {
            Lookup::Found(v) => LookupView::Found(v@),
            Lookup::Deleted => LookupView::Deleted,
            Lookup::Backing => LookupView::Backing,
        }
    }
}

/// What a read of `key` finds in the overlay: a positive count gives its value;
/// a count of -1 under `Remove` means deleted; anything else asks the backing
/// store.
pub open spec fn lookup_spec(entries: Map<Seq<u8>, (Seq<u8>, int)>, mode: DeletionMode, key: Seq<u8>) -> LookupView {
    if entries.contains_key(key) && entries[key].1 > 0 {
        LookupView::Found(entries[key].0)
    } else if entries.contains_key(key) && entries[key].1 == -1 && mode == DeletionMode::Remove {
        LookupView::Deleted
    } else {
        LookupView::Backing
    }
}

/// The view of an optional byte vector.
pub open spec fn opt_view(o: Option<Vec<u8>>) -> Option<Seq<u8>> {
    match o {
        Some(v) => Some(v@),
        None => None,
    }
}

/// What a store model holds under `k`.
pub open spec fn stored_at(store: Map<Seq<u8>, Seq<u8>>, k: Seq<u8>) -> Option<Seq<u8>> {
    if store.contains_key(k) {
        Some(store[k])
    } else {
        None
    }
}

/// What a read of `key` answers, given what the backing store holds for it.
pub open spec fn get_spec(
    entries: Map<Seq<u8>, (Seq<u8>, int)>,
    mode: DeletionMode,
    key: Seq<u8>,
    stored: Option<Seq<u8>>,
) -> Option<Seq<u8>> {
    match lookup_spec(entries, mode, key) {
        LookupView::Found(v) => Some(v),
        LookupView::Deleted => None,
        LookupView::Backing => stored,
    }
}

/// A memory overlay of counted operations over a backing store.
pub struct OverlayDB {
    overlay: MemoryOverlay,
    mode: DeletionMode,
}

impl View for OverlayDB {
    type V = OverlayView;

    closed spec fn view(&self) -> OverlayView {
        self.overlay@
    }
}

impl OverlayDB {
    pub closed spec fn wf(&self) -> bool {
        self.overlay.wf()
    }

    /// The deletion mode fixed at construction.
    pub closed spec fn spec_mode(&self) -> DeletionMode {
        self.mode
    }

    /// The overlay's entries in the order a commit drains them.
    pub closed spec fn entry_seq(&self) -> Seq<(Seq<u8>, Seq<u8>, int)> {
        self.overlay.entry_seq()
    }

    /// What a commit reconciles: the entries whose count is not zero, in order.
    pub open spec fn pending(&self) -> Seq<(Seq<u8>, Seq<u8>, int)> {
        live(self.entry_seq())
    }

    /// The `j`-th pending entry is what the overlay holds for its key, with a
    /// count that is not zero.
    pub proof fn lemma_pending_entry(&self, j: int)
        requires
            self.wf(),
            0 <= j < self.pending().len(),
        ensures
            self@.entries.contains_key(self.pending()[j].0),
            self.pending()[j].1 == self@.entries[self.pending()[j].0].0,
            self.pending()[j].2 == self@.entries[self.pending()[j].0].1,
            self.pending()[j].2 != 0,
    {
        self.overlay.lemma_live_entry(j);
    }

    /// The pending entries hold each key at most once.
    pub proof fn lemma_pending_distinct(&self)
        requires
            self.wf(),
        ensures
            forall|i: int, j: int|
                0 <= i < self.pending().len() && 0 <= j < self.pending().len() && i != j
                    ==> #[trigger] self.pending()[i].0 != #[trigger] self.pending()[j].0,
    {
        self.overlay.lemma_live_distinct();
    }

    /// A key that the overlay holds with a count that is not zero is pending,
    /// at the position returned.
    pub proof fn lemma_pending_covers(&self, k: Seq<u8>) -> (j: int)
        requires
            self.wf(),
            self@.entries.contains_key(k),
            self@.entries[k].1 != 0,
        ensures
            0 <= j < self.pending().len(),
            self.pending()[j].0 == k,
    {
        self.overlay.lemma_live_covers(k)
    }

    /// An empty overlay committing under `mode`.
    pub fn new(mode: DeletionMode) -> (r: OverlayDB)
        ensures
            r.wf(),
            r.spec_mode() == mode,
            r@.entries == Map::<Seq<u8>, (Seq<u8>, int)>::empty(),
            r@.aux == Map::<Seq<u8>, Seq<u8>>::empty(),
    {
        OverlayDB { overlay: MemoryOverlay::new(), mode }
    }

    /// The deletion mode.
    pub fn mode(&self) -> (r: DeletionMode)
        ensures
            r == self.spec_mode(),
    {
        self.mode
    }

    /// Adds one reference to `value` under its content key, which it returns.
    pub fn insert(&mut self, value: &[u8]) -> (key: Vec<u8>)
        requires
            old(self).wf(),
        ensures
            key@ == keccak_of(value@),
            final(self).wf(),
            final(self).spec_mode() == old(self).spec_mode(),
            final(self)@.entries == emplace_spec(old(self)@.entries, key@, value@),
            final(self)@.aux == old(self)@.aux,
            !old(self)@.entries.contains_key(key@) ==> final(self).entry_seq() == old(self).entry_seq().push(
                (key@, value@, 1int),
            ),
    {
        self.overlay.insert(value)
    }

    /// Adds one reference to `value` under `key`, taken as its content key.
    pub fn emplace(&mut self, key: Vec<u8>, value: Vec<u8>)
        requires
            old(self).wf(),
        ensures
            final(self).wf(),
            final(self).spec_mode() == old(self).spec_mode(),
            final(self)@.entries == emplace_spec(old(self)@.entries, key@, value@),
            final(self)@.aux == old(self)@.aux,
    {
        self.overlay.emplace(key, value)
    }

    /// Drops one reference to `key`.
    pub fn remove(&mut self, key: &[u8])
        requires
            old(self).wf(),
        ensures
            final(self).wf(),
            final(self).spec_mode() == old(self).spec_mode(),
            final(self)@.entries == remove_spec(old(self)@.entries, key@),
            final(self)@.aux == old(self)@.aux,
            forall|i: int|
                0 <= i < old(self).entry_seq().len() && (#[trigger] old(self).entry_seq()[i]).0 == key@
                    ==> final(self).entry_seq() == old(self).entry_seq().update(
                    i,
                    (key@, old(self).entry_seq()[i].1, dec_rc(old(self).entry_seq()[i].2)),
                ),
    {
        self.overlay.remove(key)
    }

    /// Stores an auxiliary entry, replacing any earlier one.
    pub fn insert_aux(&mut self, key: Vec<u8>, value: Vec<u8>)
        requires
            old(self).wf(),
        ensures
            final(self).wf(),
            final(self).spec_mode() == old(self).spec_mode(),
            final(self)@.entries == old(self)@.entries,
            final(self).pending() == old(self).pending(),
            final(self)@.aux == old(self)@.aux.insert(key@, value@),
    {
        self.overlay.insert_aux(key, value)
    }

    /// The auxiliary entry under `key`, if any.
    pub fn get_aux(&self, key: &[u8]) -> (r: Option<Vec<u8>>)
        requires
            self.wf(),
        ensures
            match r {
                Some(v) => self@.aux.contains_key(key@) && v@ == self@.aux[key@],
                None => !self@.aux.contains_key(key@),
            },
    {
        self.overlay.get_aux(key)
    }

    /// Drops the auxiliary entry under `key`.
    pub fn remove_aux(&mut self, key: &[u8])
        requires
            old(self).wf(),
        ensures
            final(self).wf(),
            final(self).spec_mode() == old(self).spec_mode(),
            final(self)@.entries == old(self)@.entries,
            final(self).pending() == old(self).pending(),
            final(self)@.aux == old(self)@.aux.remove(key@),
    {
        self.overlay.remove_aux(key)
    }

    /// The value and count the overlay holds for `key`, if any.
    pub fn raw(&self, key: &[u8]) -> (r: Option<(Vec<u8>, i32)>)
        requires
            self.wf(),
        ensures
            match r {
                Some((v, rc)) => self@.entries.contains_key(key@) && self@.entries[key@] == (
                    v@,
                    rc as int,
                ),
                None => !self@.entries.contains_key(key@),
            },
    {
        self.overlay.raw(key)
    }

    /// What a read of `key` finds in the overlay.
    pub fn lookup(&self, key: &[u8]) -> (r: Lookup)
        requires
            self.wf(),
        ensures
            r@ == lookup_spec(self@.entries, self.spec_mode(), key@),
    {
        match self.overlay.raw(key) {
            Some((v, rc)) => {
                if rc > 0 {
                    Lookup::Found(v)
                } else if rc == -1 && self.mode == DeletionMode::Remove {
                    Lookup::Deleted
                } else {
                    Lookup::Backing
                }
            },
            None => Lookup::Backing,
        }
    }

    /// Finishes a read that `lookup` sent to the backing store: what the store
    /// held is cached in the overlay at count 0 and returned.
    pub fn read_through(&mut self, key: &[u8], stored: Option<Vec<u8>>) -> (r: Option<Vec<u8>>)
        requires
            old(self).wf(),
        ensures
            final(self).wf(),
            final(self).spec_mode() == old(self).spec_mode(),
            r == stored,
            final(self)@.entries == match stored {
                Some(v) => denote_spec(old(self)@.entries, key@, v@),
                None => old(self)@.entries,
            },
            final(self).pending() == old(self).pending(),
            final(self)@.aux == old(self)@.aux,
    {
        match stored {
            Some(v) => {
                self.overlay.denote(key, copy_bytes(v.as_slice()));
                Some(v)
            },
            None => None,
        }
    }

    /// Reads `key`, given what the backing store holds under it: a value the
    /// overlay references comes first, a key slated for deletion reads as
    /// absent, and otherwise the stored value is cached at count 0 and
    /// returned.
    pub fn get(&mut self, key: &[u8], stored: Option<Vec<u8>>) -> (r: Option<Vec<u8>>)
        requires
            old(self).wf(),
        ensures
            final(self).wf(),
            final(self).spec_mode() == old(self).spec_mode(),
            match r {
                Some(v) => get_spec(old(self)@.entries, old(self).spec_mode(), key@, opt_view(stored))
                    == Some(v@),
                None => get_spec(old(self)@.entries, old(self).spec_mode(), key@, opt_view(stored)) is None,
            },
            final(self).pending() == old(self).pending(),
            final(self)@.aux == old(self)@.aux,
            final(self)@.entries == match (lookup_spec(old(self)@.entries, old(self).spec_mode(), key@), stored) {
                (LookupView::Backing, Some(v)) => denote_spec(old(self)@.entries, key@, v@),
                _ => old(self)@.entries,
            },
    {
        match self.lookup(key) {
            Lookup::Found(v) => Some(v),
            Lookup::Deleted => None,
            Lookup::Backing => self.read_through(key, stored),
        }
    }

    /// Whether a read of `key` finds a value, given what the backing store
    /// holds under it.
    pub fn contains(&mut self, key: &[u8], stored: Option<Vec<u8>>) -> (r: bool)
        requires
            old(self).wf(),
        ensures
            final(self).wf(),
            final(self).spec_mode() == old(self).spec_mode(),
            r == get_spec(old(self)@.entries, old(self).spec_mode(), key@, opt_view(stored)) is Some,
            final(self).pending() == old(self).pending(),
            final(self)@.aux == old(self)@.aux,
    {
        self.get(key, stored).is_some()
    }

    /// The merged reference counts, given the keys of the backing store: one
    /// for each stored key plus the overlay's count for each key it holds with
    /// a count that is not zero; as parallel vectors of distinct keys and counts.
    pub fn keys(&self, backing_keys: &Vec<Vec<u8>>) -> (r: (Vec<Vec<u8>>, Vec<i64>))
        requires
            self.wf(),
        ensures
            r.0@.len() == r.1@.len(),
            distinct(keys_view(r.0@)),
            assoc_map(keys_view(r.0@), r.1@.map_values(|c: i64| c as int)) == merged_counts(
                keys_view(backing_keys@),
                self@.entries,
            ),
    {
        self.overlay.merged_keys(backing_keys)
    }

    /// The keys a commit has to look up in the backing store, in order.
    pub fn pending_keys(&self) -> (r: Vec<Vec<u8>>)
        requires
            self.wf(),
        ensures
            r@.len() == self.pending().len(),
            forall|i: int| 0 <= i < r@.len() ==> #[trigger] r@[i]@ == self.pending()[i].0,
    {
        let mut out: Vec<Vec<u8>> = Vec::new();
        let drained = self.drain_copy();
        let mut i: usize = 0;
        while i < drained.len()
            invariant
                i <= drained@.len(),
                pending_view(drained@) == self.pending(),
                out@.len() == i,
                forall|j: int| 0 <= j < i ==> #[trigger] out@[j]@ == self.pending()[j].0,
            decreases drained@.len() - i,
        {
            assert(pending_view(drained@)[i as int] == drained@[i as int]@);
            out.push(copy_bytes(drained[i].key.as_slice()));
            i = i + 1;
        }
        out
    }

    fn drain_copy(&self) -> (r: Vec<Pending>)
        requires
            self.wf(),
        ensures
            pending_view(r@) == self.pending(),
    {
        self.overlay.pending()
    }

    /// Drains the overlay and reconciles its entries into the batch to write
    /// to the backing store; `present[i]` tells whether the store holds the
    /// `i`-th key of `pending_keys`. On a fault nothing is staged and the
    /// drained entries are dropped all the same.
    pub fn commit(&mut self, present: &Vec<bool>) -> (r: Result<DBTransaction, Error>)
        requires
            old(self).wf(),
            present@.len() == old(self).pending().len(),
        ensures
            final(self).wf(),
            final(self).spec_mode() == old(self).spec_mode(),
            final(self)@.entries == Map::<Seq<u8>, (Seq<u8>, int)>::empty(),
            final(self)@.aux == old(self)@.aux,
            match r {
                Ok(t) => reconcile_all(old(self).pending(), present@, old(self).spec_mode()) == Ok::<
                    Seq<OpView>,
                    CommitFault,
                >(t@),
                Err(e) => e.fault() is Some && reconcile_all(
                    old(self).pending(),
                    present@,
                    old(self).spec_mode(),
                ) == Err::<Seq<OpView>, CommitFault>(e.fault().unwrap()),
            },
    {
        let drained = self.overlay.drain();
        reconcile(&drained, present, self.mode)
    }

    /// Discards every counted operation since the last commit.
    pub fn revert(&mut self)
        requires
            old(self).wf(),
        ensures
            final(self).wf(),
            final(self).spec_mode() == old(self).spec_mode(),
            final(self)@.entries == Map::<Seq<u8>, (Seq<u8>, int)>::empty(),
            final(self)@.aux == old(self)@.aux,
    {
        self.overlay.clear()
    }
}

/// A key whose inserts and removes cancel out since the last commit is left
/// alone by the commit: no staged write touches it, so the backing store keeps
/// whatever it held under that key.
pub proof fn lemma_balanced_key_untouched(
    db: OverlayDB,
    present: Seq<bool>,
    k: Seq<u8>,
    store: Map<Seq<u8>, Seq<u8>>,
)
    requires
        db.wf(),
        present.len() == db.pending().len(),
        !db@.entries.contains_key(k) || db@.entries[k].1 == 0,
    ensures
        reconcile_all(db.pending(), present, db.spec_mode()) matches Ok(ops) ==> {
            &&& forall|j: int| 0 <= j < ops.len() ==> (#[trigger] ops[j]).key() != k
            &&& apply_ops(store, ops).contains_key(k) == store.contains_key(k)
            &&& store.contains_key(k) ==> apply_ops(store, ops)[k] == store[k]
        },
{
    let p = db.pending();
    let mode = db.spec_mode();
    if let Ok(ops) = reconcile_all(p, present, mode) {
        assert forall|j: int| 0 <= j < ops.len() implies (#[trigger] ops[j]).key() != k by {
            let i = lemma_reconcile_source(p, present, mode, p.len(), j);
            db.lemma_pending_entry(i);
        }
        lemma_apply_untouched(store, ops, k);
    }
}

/// When every pending count cancels out, a commit succeeds and writes nothing.
pub proof fn lemma_balanced_commit_is_empty(db: OverlayDB, present: Seq<bool>)
    requires
        db.wf(),
        present.len() == db.pending().len(),
        forall|k: Seq<u8>| #[trigger] db@.entries.contains_key(k) ==> db@.entries[k].1 == 0,
    ensures
        reconcile_all(db.pending(), present, db.spec_mode()) == Ok::<Seq<OpView>, CommitFault>(
            Seq::empty(),
        ),
{
    if db.pending().len() > 0 {
        db.lemma_pending_entry(0);
    }
}

/// Inserting a value and removing its key in the same epoch leaves the key's
/// count where it was: zero for a key the overlay did not hold.
pub proof fn lemma_insert_then_remove(m: Map<Seq<u8>, (Seq<u8>, int)>, v: Seq<u8>)
    requires
        m.contains_key(keccak_of(v)) ==> m[keccak_of(v)].1 < i32::MAX,
        m.contains_key(keccak_of(v)) ==> m[keccak_of(v)].1 >= i32::MIN,
    ensures
        ({
            let k = keccak_of(v);
            let after = remove_spec(emplace_spec(m, k, v), k);
            &&& after.contains_key(k)
            &&& after[k].1 == (if m.contains_key(k) { m[k].1 } else { 0 })
        }),
{
}

/// When every faulty entry fails with the same fault `f`, a failing commit
/// fails with `f`.
pub proof fn lemma_only_fault(
    entries: Seq<(Seq<u8>, Seq<u8>, int)>,
    present: Seq<bool>,
    mode: DeletionMode,
    n: nat,
    f: CommitFault,
)
    requires
        n <= entries.len(),
        n <= present.len(),
        forall|i: int| 0 <= i < n && faulty(#[trigger] entries[i], present[i], mode) ==> commit_step(
            Ok(Seq::empty()),
            entries[i],
            present[i],
            mode,
        ) == Err::<Seq<OpView>, CommitFault>(f),
    ensures
        reconcile_spec(entries, present, mode, n) is Err ==> reconcile_spec(entries, present, mode, n)
            == Err::<Seq<OpView>, CommitFault>(f),
    decreases n,
{
    if n > 0 {
        let m = (n - 1) as nat;
        lemma_only_fault(entries, present, mode, m, f);
        if reconcile_spec(entries, present, mode, m) is Ok && reconcile_spec(entries, present, mode, n) is Err {
            assert(faulty(entries[m as int], present[m as int], mode));
        }
    }
}

/// Under `Remove`, removing a key that the backing store lacks makes the commit
/// fail, with `DeletionInvalid` for that key when no other entry breaks a rule.
pub proof fn lemma_remove_of_absent_key_fails(db: OverlayDB, present: Seq<bool>, k: Seq<u8>)
    requires
        db.wf(),
        db.spec_mode() == DeletionMode::Remove,
        present.len() == db.pending().len(),
        db@.entries.contains_key(k),
        db@.entries[k].1 == -1,
        forall|j: int| 0 <= j < db.pending().len() && (#[trigger] db.pending()[j]).0 == k ==> !present[j],
    ensures
        reconcile_all(db.pending(), present, db.spec_mode()) is Err,
        (forall|j: int| 0 <= j < db.pending().len() && (#[trigger] db.pending()[j]).0 != k
            ==> !faulty(db.pending()[j], present[j], db.spec_mode())) ==> reconcile_all(
            db.pending(),
            present,
            db.spec_mode(),
        ) == Err::<Seq<OpView>, CommitFault>(CommitFault::DeletionInvalid(k)),
{
    let p = db.pending();
    let mode = db.spec_mode();
    let j = db.lemma_pending_covers(k);
    db.lemma_pending_entry(j);
    assert(faulty(p[j], present[j], mode));
    lemma_reconcile_ok(p, present, mode, p.len());
    if forall|j: int| 0 <= j < p.len() && (#[trigger] p[j]).0 != k ==> !faulty(p[j], present[j], mode) {
        assert forall|i: int| 0 <= i < p.len() && faulty(#[trigger] p[i], present[i], mode) implies commit_step(
            Ok(Seq::empty()),
            p[i],
            present[i],
            mode,
        ) == Err::<Seq<OpView>, CommitFault>(CommitFault::DeletionInvalid(k)) by {
            db.lemma_pending_entry(i);
        }
        lemma_only_fault(p, present, mode, p.len(), CommitFault::DeletionInvalid(k));
    }
}

/// Under `Remove`, inserting content whose key the backing store already holds
/// makes the commit fail, with `InsertionInvalid` for that key when no other
/// entry breaks a rule.
pub proof fn lemma_insert_of_present_key_fails(db: OverlayDB, present: Seq<bool>, k: Seq<u8>)
    requires
        db.wf(),
        db.spec_mode() == DeletionMode::Remove,
        present.len() == db.pending().len(),
        db@.entries.contains_key(k),
        db@.entries[k].1 == 1,
        forall|j: int| 0 <= j < db.pending().len() && (#[trigger] db.pending()[j]).0 == k ==> present[j],
    ensures
        reconcile_all(db.pending(), present, db.spec_mode()) is Err,
        (forall|j: int| 0 <= j < db.pending().len() && (#[trigger] db.pending()[j]).0 != k
            ==> !faulty(db.pending()[j], present[j], db.spec_mode())) ==> reconcile_all(
            db.pending(),
            present,
            db.spec_mode(),
        ) == Err::<Seq<OpView>, CommitFault>(CommitFault::InsertionInvalid(k)),
{
    let p = db.pending();
    let mode = db.spec_mode();
    let j = db.lemma_pending_covers(k);
    db.lemma_pending_entry(j);
    assert(faulty(p[j], present[j], mode));
    lemma_reconcile_ok(p, present, mode, p.len());
    if forall|j: int| 0 <= j < p.len() && (#[trigger] p[j]).0 != k ==> !faulty(p[j], present[j], mode) {
        assert forall|i: int| 0 <= i < p.len() && faulty(#[trigger] p[i], present[i], mode) implies commit_step(
            Ok(Seq::empty()),
            p[i],
            present[i],
            mode,
        ) == Err::<Seq<OpView>, CommitFault>(CommitFault::InsertionInvalid(k)) by {
            db.lemma_pending_entry(i);
        }
        lemma_only_fault(p, present, mode, p.len(), CommitFault::InsertionInvalid(k));
    }
}

/// Under `Ignore`, a commit stages no delete: whatever the backing store held
/// stays, with the same value.
pub proof fn lemma_ignore_keeps_store(db: OverlayDB, present: Seq<bool>, store: Map<Seq<u8>, Seq<u8>>)
    requires
        db.wf(),
        db.spec_mode() == DeletionMode::Ignore,
        present.len() == db.pending().len(),
        forall|j: int| 0 <= j < db.pending().len() ==> present[j] == store.contains_key(#[trigger] db.pending()[j].0),
    ensures
        reconcile_all(db.pending(), present, db.spec_mode()) matches Ok(ops) ==> {
            &&& forall|j: int| 0 <= j < ops.len() ==> !((#[trigger] ops[j]) is Delete)
            &&& forall|k: Seq<u8>| #[trigger] store.contains_key(k) ==> apply_ops(store, ops).contains_key(k)
                && apply_ops(store, ops)[k] == store[k]
                && get_spec(Map::empty(), DeletionMode::Ignore, k, stored_at(apply_ops(store, ops), k)) == Some(store[k])
        },
{
    let p = db.pending();
    let mode = db.spec_mode();
    if let Ok(ops) = reconcile_all(p, present, mode) {
        assert forall|j: int| 0 <= j < ops.len() implies !((#[trigger] ops[j]) is Delete) by {
            let i = lemma_reconcile_source(p, present, mode, p.len(), j);
        }
        assert forall|k: Seq<u8>| #[trigger] store.contains_key(k) implies apply_ops(store, ops).contains_key(k)
            && apply_ops(store, ops)[k] == store[k] by {
            assert forall|j: int| 0 <= j < ops.len() implies (#[trigger] ops[j]).key() != k by {
                let i = lemma_reconcile_source(p, present, mode, p.len(), j);
                assert(present[i] == store.contains_key(p[i].0));
            }
            lemma_apply_untouched(store, ops, k);
        }
    }
}

/// A value inserted once since the last commit, under a key that the backing
/// store lacks, is in the store after the commit's batch is written.
pub proof fn lemma_commit_persists_insert(
    db: OverlayDB,
    present: Seq<bool>,
    store: Map<Seq<u8>, Seq<u8>>,
    k: Seq<u8>,
)
    requires
        db.wf(),
        present.len() == db.pending().len(),
        forall|j: int| 0 <= j < db.pending().len() ==> present[j] == store.contains_key(#[trigger] db.pending()[j].0),
        db@.entries.contains_key(k),
        db@.entries[k].1 == 1,
        !store.contains_key(k),
    ensures
        reconcile_all(db.pending(), present, db.spec_mode()) matches Ok(ops) ==> apply_ops(store, ops).contains_key(k)
            && apply_ops(store, ops)[k] == db@.entries[k].0
            && get_spec(Map::empty(), db.spec_mode(), k, stored_at(apply_ops(store, ops), k)) == Some(db@.entries[k].0),
{
    let p = db.pending();
    let mode = db.spec_mode();
    let v = db@.entries[k].0;
    lemma_reconcile_puts(p, present, mode, p.len());
    if let Ok(ops) = reconcile_all(p, present, mode) {
        let i = db.lemma_pending_covers(k);
        db.lemma_pending_entry(i);
        assert(present[i] == store.contains_key(p[i].0));
        assert(p[i].2 == 1 && !present[i]);
        let j0 = choose|j: int| 0 <= j < ops.len() && ops[j] == OpView::Put(p[i].0, p[i].1);
        assert(ops[j0].key() == k);
        assert forall|j: int| 0 <= j < ops.len() && (#[trigger] ops[j]).key() == k implies ops[j] == OpView::Put(k, v) by {
            let b = lemma_reconcile_source(p, present, mode, p.len(), j);
            db.lemma_pending_entry(b);
            assert(present[b] == store.contains_key(p[b].0));
        }
        lemma_apply_puts(store, ops, k, v);
    }
}

/// Inserting a value and removing its key in one epoch, when the key was not
/// in the overlay nor in the backing store, leaves it unread after the commit.
pub proof fn lemma_insert_remove_reads_none(db: OverlayDB, present: Seq<bool>, v: Seq<u8>, store: Map<Seq<u8>, Seq<u8>>)
    requires
        db.wf(),
        present.len() == db.pending().len(),
        db@.entries.contains_key(keccak_of(v)),
        db@.entries[keccak_of(v)].1 == 0,
        !store.contains_key(keccak_of(v)),
    ensures
        reconcile_all(db.pending(), present, db.spec_mode()) matches Ok(ops) ==> get_spec(
            Map::empty(),
            db.spec_mode(),
            keccak_of(v),
            stored_at(apply_ops(store, ops), keccak_of(v)),
        ) is None,
{
    lemma_balanced_key_untouched(db, present, keccak_of(v), store);
}

/// Under `Remove`, a successful commit of entries that all break no rule
/// stages exactly one write per pending entry.
pub proof fn lemma_reconcile_len(
    entries: Seq<(Seq<u8>, Seq<u8>, int)>,
    present: Seq<bool>,
    n: nat,
)
    requires
        n <= entries.len(),
        n <= present.len(),
        forall|i: int| 0 <= i < n ==> (#[trigger] entries[i]).2 != 0,
    ensures
        reconcile_spec(entries, present, DeletionMode::Remove, n) matches Ok(ops) ==> ops.len() == n,
    decreases n,
{
    if n > 0 {
        lemma_reconcile_len(entries, present, (n - 1) as nat);
        assert(entries[n - 1].2 != 0);
    }
}

/// Under `Remove`, a successful commit writes one batch entry per pending key,
/// and removes from the store each key whose net count is -1.
pub proof fn lemma_commit_applies_removes(
    db: OverlayDB,
    present: Seq<bool>,
    store: Map<Seq<u8>, Seq<u8>>,
    k: Seq<u8>,
)
    requires
        db.wf(),
        db.spec_mode() == DeletionMode::Remove,
        present.len() == db.pending().len(),
        forall|j: int| 0 <= j < db.pending().len() ==> present[j] == store.contains_key(#[trigger] db.pending()[j].0),
    ensures
        reconcile_all(db.pending(), present, db.spec_mode()) matches Ok(ops) ==> {
            &&& ops.len() == db.pending().len()
            &&& (db@.entries.contains_key(k) && db@.entries[k].1 == -1) ==> !apply_ops(store, ops).contains_key(k)
        },
{
    let p = db.pending();
    let mode = db.spec_mode();
    assert forall|i: int| 0 <= i < p.len() implies (#[trigger] p[i]).2 != 0 by {
        db.lemma_pending_entry(i);
    }
    lemma_reconcile_len(p, present, p.len());
    if let Ok(ops) = reconcile_all(p, present, mode) {
        if db@.entries.contains_key(k) && db@.entries[k].1 == -1 {
            let i = db.lemma_pending_covers(k);
            db.lemma_pending_entry(i);
            lemma_reconcile_ok(p, present, mode, p.len());
            assert(!faulty(p[i], present[i], mode));
            lemma_reconcile_puts(p, present, mode, p.len());
            let j0 = lemma_reconcile_delete_staged(p, present, p.len(), i);
            assert(ops[j0].key() == k);
            assert forall|j: int| 0 <= j < ops.len() && (#[trigger] ops[j]).key() == k implies ops[j] == OpView::Delete(k) by {
                let b = lemma_reconcile_source(p, present, mode, p.len(), j);
                db.lemma_pending_entry(b);
            }
            lemma_apply_deletes(store, ops, k);
        }
    }
}

/// Under `Remove`, a successful commit stages a delete for each removed entry.
proof fn lemma_reconcile_delete_staged(
    entries: Seq<(Seq<u8>, Seq<u8>, int)>,
    present: Seq<bool>,
    n: nat,
    i: int,
) -> (j: int)
    requires
        n <= entries.len(),
        n <= present.len(),
        0 <= i < n,
        entries[i].2 == -1,
        reconcile_spec(entries, present, DeletionMode::Remove, n) is Ok,
    ensures
        0 <= j < reconcile_spec(entries, present, DeletionMode::Remove, n)->Ok_0.len(),
        reconcile_spec(entries, present, DeletionMode::Remove, n)->Ok_0[j] == OpView::Delete(entries[i].0),
    decreases n,
{
    let m = (n - 1) as nat;
    let ops = reconcile_spec(entries, present, DeletionMode::Remove, m)->Ok_0;
    let ops2 = reconcile_spec(entries, present, DeletionMode::Remove, n)->Ok_0;
    if i < m {
        let j = lemma_reconcile_delete_staged(entries, present, m, i);
        assert(ops2[j] == ops[j]);
        j
    } else {
        assert(ops2 == ops.push(OpView::Delete(entries[i].0)));
        ops.len() as int
    }
}

/// Inserting a value whose key the overlay does not hold and then removing
/// that key leaves the pending entries as they were: the next commit answers
/// and writes exactly what it would have without the pair.
pub proof fn lemma_insert_remove_keeps_pending(db0: OverlayDB, db1: OverlayDB, db2: OverlayDB, v: Seq<u8>)
    requires
        db0.wf(),
        !db0@.entries.contains_key(keccak_of(v)),
        db1.entry_seq() == db0.entry_seq().push((keccak_of(v), v, 1int)),
        forall|i: int|
            0 <= i < db1.entry_seq().len() && (#[trigger] db1.entry_seq()[i]).0 == keccak_of(v)
                ==> db2.entry_seq() == db1.entry_seq().update(
                i,
                (keccak_of(v), db1.entry_seq()[i].1, dec_rc(db1.entry_seq()[i].2)),
            ),
    ensures
        db2.pending() == db0.pending(),
{
    let s0 = db0.entry_seq();
    let s1 = db1.entry_seq();
    let n = s0.len() as int;
    assert(s1[n].0 == keccak_of(v));
    let s2 = db2.entry_seq();
    assert(s2 == s1.update(n, (keccak_of(v), v, 0int)));
    assert(s2.drop_last() =~= s0);
}

} // verus!
