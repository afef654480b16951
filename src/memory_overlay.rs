//! The memory overlay: a content-addressed map from key to value and signed
//! reference count, plus auxiliary entries kept without counting.
use vstd::prelude::*;
use crate::assoc::{
    assoc_map, distinct, find_key, keys_view, lemma_assoc_absent, lemma_assoc_index,
    lemma_assoc_push, lemma_assoc_remove, lemma_assoc_update,
};
use crate::bytes::copy_bytes;
use crate::keccak::{content_key, keccak_of};

verus! {

/// A count raised by one, held at the largest `i32`.
pub open spec fn inc_rc(rc: int) -> int {
    if rc < i32::MAX {
        rc + 1
    } else {
        rc
    }
}

/// A count lowered by one, held at the smallest `i32`.
pub open spec fn dec_rc(rc: int) -> int {
    if rc > i32::MIN {
        rc - 1
    } else {
        rc
    }
}

/// The entries after one more reference to `key` holding `value`: the value is
/// taken when the entry is new or holds no reference (a placeholder or a
/// cached read).
pub open spec fn emplace_spec(m: Map<Seq<u8>, (Seq<u8>, int)>, key: Seq<u8>, value: Seq<u8>) -> Map<
    Seq<u8>,
    (Seq<u8>, int),
> {
    if m.contains_key(key) {
        let (v0, rc) = m[key];
        m.insert(key, (if rc <= 0 { value } else { v0 }, inc_rc(rc)))
    } else {
        m.insert(key, (value, 1))
    }
}

/// The entries after one reference to `key` is dropped; an absent key gets an
/// empty placeholder at -1.
pub open spec fn remove_spec(m: Map<Seq<u8>, (Seq<u8>, int)>, key: Seq<u8>) -> Map<
    Seq<u8>,
    (Seq<u8>, int),
> {
    if m.contains_key(key) {
        m.insert(key, (m[key].0, dec_rc(m[key].1)))
    } else {
        m.insert(key, (Seq::empty(), -1))
    }
}

/// The entries after a value read from the backing store is cached at count 0;
/// an entry already there is kept.
pub open spec fn denote_spec(m: Map<Seq<u8>, (Seq<u8>, int)>, key: Seq<u8>, value: Seq<u8>) -> Map<
    Seq<u8>,
    (Seq<u8>, int),
> {
    if m.contains_key(key) {
        m
    } else {
        m.insert(key, (value, 0))
    }
}

/// The entries whose count is not zero, in order.
pub open spec fn live(s: Seq<(Seq<u8>, Seq<u8>, int)>) -> Seq<(Seq<u8>, Seq<u8>, int)>
    decreases s.len(),
{
    if s.len() == 0 {
        s
    } else if s.last().2 != 0 {
        live(s.drop_last()).push(s.last())
    } else {
        live(s.drop_last())
    }
}

/// The merged reference counts: one for each key of the backing store, plus
/// the overlay's count for each key it holds with a count that is not zero.
pub open spec fn merged_counts(backing: Seq<Seq<u8>>, entries: Map<Seq<u8>, (Seq<u8>, int)>) -> Map<
    Seq<u8>,
    int,
> {
    Map::new(
        |k: Seq<u8>| backing.contains(k) || (entries.contains_key(k) && entries[k].1 != 0),
        |k: Seq<u8>|
            (if backing.contains(k) { 1int } else { 0int }) + (if entries.contains_key(k) && entries[k].1 != 0 {
                entries[k].1
            } else {
                0int
            }),
    )
}

/// The counts of the first `i` overlay entries merged over those of `base`.
pub open spec fn merge_prefix(
    base: Map<Seq<u8>, int>,
    ks: Seq<Seq<u8>>,
    rcs: Seq<int>,
    i: int,
) -> Map<Seq<u8>, int> {
    Map::new(
        |k: Seq<u8>| base.contains_key(k) || exists|j: int| 0 <= j < i && ks[j] == k && rcs[j] != 0,
        |k: Seq<u8>|
            (if base.contains_key(k) { base[k] } else { 0int }) + (if exists|j: int| 0 <= j < i && ks[j] == k && rcs[j] != 0 {
                rcs[choose|j: int| 0 <= j < i && ks[j] == k && rcs[j] != 0]
            } else {
                0int
            }),
    )
}

proof fn lemma_merge_step(base: Map<Seq<u8>, int>, ks: Seq<Seq<u8>>, rcs: Seq<int>, n: int)
    requires
        distinct(ks),
        ks.len() == rcs.len(),
        0 <= n < ks.len(),
    ensures
        rcs[n] == 0 ==> merge_prefix(base, ks, rcs, n + 1) == merge_prefix(base, ks, rcs, n),
        rcs[n] != 0 ==> merge_prefix(base, ks, rcs, n + 1) == merge_prefix(base, ks, rcs, n).insert(
            ks[n],
            (if merge_prefix(base, ks, rcs, n).contains_key(ks[n]) {
                merge_prefix(base, ks, rcs, n)[ks[n]]
            } else {
                0int
            }) + rcs[n],
        ),
{
    let m0 = merge_prefix(base, ks, rcs, n);
    let m1 = merge_prefix(base, ks, rcs, n + 1);
    assert(!(exists|j: int| 0 <= j < n && ks[j] == ks[n] && rcs[j] != 0));
    assert forall|k: Seq<u8>| k != ks[n] implies (#[trigger] m1.contains_key(k)) == m0.contains_key(k) && (m1.contains_key(k) ==> m1[k] == m0[k]) by {
        if exists|j: int| 0 <= j < n + 1 && ks[j] == k && rcs[j] != 0 {
            let j1 = choose|j: int| 0 <= j < n + 1 && ks[j] == k && rcs[j] != 0;
            assert(j1 < n);
            let j0 = choose|j: int| 0 <= j < n && ks[j] == k && rcs[j] != 0;
            assert(j1 == j0);
        }
    }
    if rcs[n] == 0 {
        if exists|j: int| 0 <= j < n + 1 && ks[j] == ks[n] && rcs[j] != 0 {
            let j1 = choose|j: int| 0 <= j < n + 1 && ks[j] == ks[n] && rcs[j] != 0;
            assert(j1 == n);
        }
        assert(m1 =~= m0);
    } else {
        let j1 = choose|j: int| 0 <= j < n + 1 && ks[j] == ks[n] && rcs[j] != 0;
        assert(j1 == n);
        assert(m1 =~= m0.insert(ks[n], (if m0.contains_key(ks[n]) { m0[ks[n]] } else { 0int }) + rcs[n]));
    }
}

proof fn lemma_merge_final(
    base: Map<Seq<u8>, int>,
    ks: Seq<Seq<u8>>,
    vals: Seq<(Seq<u8>, int)>,
    rcs: Seq<int>,
    backing: Seq<Seq<u8>>,
)
    requires
        distinct(ks),
        ks.len() == vals.len(),
        ks.len() == rcs.len(),
        forall|j: int| 0 <= j < vals.len() ==> (#[trigger] vals[j]).1 == rcs[j],
        forall|k: Seq<u8>| #[trigger] base.contains_key(k) ==> base[k] == 1,
        forall|k: Seq<u8>| #[trigger] base.contains_key(k) <==> backing.contains(k),
    ensures
        merge_prefix(base, ks, rcs, ks.len() as int) == merged_counts(backing, assoc_map(ks, vals)),
{
    let e = assoc_map(ks, vals);
    let m1 = merge_prefix(base, ks, rcs, ks.len() as int);
    let m2 = merged_counts(backing, e);
    assert forall|k: Seq<u8>| #[trigger] m1.contains_key(k) == m2.contains_key(k) && (m1.contains_key(k) ==> m1[k] == m2[k]) by {
        if e.contains_key(k) {
            let j = choose|j: int| 0 <= j < ks.len() && ks[j] == k;
            lemma_assoc_index(ks, vals, j);
        }
        if exists|j: int| 0 <= j < ks.len() && ks[j] == k && rcs[j] != 0 {
            let j = choose|j: int| 0 <= j < ks.len() && ks[j] == k && rcs[j] != 0;
            lemma_assoc_index(ks, vals, j);
        }
    }
    assert(m1 =~= m2);
}

/// One entry handed out by `drain`.
#[derive(Debug)]
pub struct Pending {
    pub key: Vec<u8>,
    pub value: Vec<u8>,
    pub rc: i32,
}

impl View for Pending {
    type V = (Seq<u8>, Seq<u8>, int);

    open spec fn view(&self) -> (Seq<u8>, Seq<u8>, int) {
        (self.key@, self.value@, self.rc as int)
    }
}

/// The views of a sequence of drained entries.
pub open spec fn pending_view(s: Seq<Pending>) -> Seq<(Seq<u8>, Seq<u8>, int)> {
    s.map_values(|p: Pending| p@)
}

/// The overlay over plain values.
pub struct OverlayView {
    /// Each key's value and net reference count.
    pub entries: Map<Seq<u8>, (Seq<u8>, int)>,
    /// Auxiliary entries, without counts.
    pub aux: Map<Seq<u8>, Seq<u8>>,
}

/// In-memory overlay of counted, content-addressed entries.
pub struct MemoryOverlay {
    keys: Vec<Vec<u8>>,
    values: Vec<Vec<u8>>,
    rcs: Vec<i32>,
    aux_keys: Vec<Vec<u8>>,
    aux_values: Vec<Vec<u8>>,
}

pub open spec fn entry_vals(values: Seq<Vec<u8>>, rcs: Seq<i32>) -> Seq<(Seq<u8>, int)> {
    Seq::new(values.len(), |i: int| (values[i]@, rcs[i] as int))
}

impl View for MemoryOverlay {
    type V = OverlayView;

    closed spec fn view(&self) -> OverlayView {
        OverlayView {
            entries: assoc_map(keys_view(self.keys@), entry_vals(self.values@, self.rcs@)),
            aux: assoc_map(keys_view(self.aux_keys@), keys_view(self.aux_values@)),
        }
    }
}

impl MemoryOverlay {
    /// Keys are distinct, each with one value and one count.
    pub closed spec fn wf(&self) -> bool {
        &&& self.keys@.len() == self.values@.len()
        &&& self.keys@.len() == self.rcs@.len()
        &&& distinct(keys_view(self.keys@))
        &&& self.aux_keys@.len() == self.aux_values@.len()
        &&& distinct(keys_view(self.aux_keys@))
    }

    /// The entries in the order `drain` hands them out.
    pub closed spec fn entry_seq(&self) -> Seq<(Seq<u8>, Seq<u8>, int)> {
        Seq::new(self.keys@.len(), |i: int| (self.keys@[i]@, self.values@[i]@, self.rcs@[i] as int))
    }

    /// The `j`-th entry that `drain` hands out is what the overlay holds for
    /// its key, with a count that is not zero.
    pub proof fn lemma_live_entry(&self, j: int)
        requires
            self.wf(),
            0 <= j < live(self.entry_seq()).len(),
        ensures
            self@.entries.contains_key(live(self.entry_seq())[j].0),
            live(self.entry_seq())[j] == (
                live(self.entry_seq())[j].0,
                self@.entries[live(self.entry_seq())[j].0].0,
                self@.entries[live(self.entry_seq())[j].0].1,
            ),
            live(self.entry_seq())[j].2 != 0,
    {
        let s = self.entry_seq();
        lemma_live_from(s);
        let i = choose|i: int| 0 <= i < s.len() && #[trigger] s[i] == #[trigger] live(s)[j];
        lemma_assoc_index(keys_view(self.keys@), entry_vals(self.values@, self.rcs@), i);
    }

    /// Every key held with a count that is not zero is handed out by `drain`.
    pub proof fn lemma_live_covers(&self, k: Seq<u8>) -> (j: int)
        requires
            self.wf(),
            self@.entries.contains_key(k),
            self@.entries[k].1 != 0,
        ensures
            0 <= j < live(self.entry_seq()).len(),
            live(self.entry_seq())[j].0 == k,
    {
        let s = self.entry_seq();
        let ks = keys_view(self.keys@);
        lemma_live_from(s);
        let i = choose|i: int| 0 <= i < ks.len() && ks[i] == k;
        lemma_assoc_index(ks, entry_vals(self.values@, self.rcs@), i);
        assert(s[i].2 != 0);
        let j = choose|j: int| 0 <= j < live(s).len() && live(s)[j] == s[i];
        assert(live(s)[j].0 == k);
        j
    }

    /// `drain` hands out each key at most once.
    pub proof fn lemma_live_distinct(&self)
        requires
            self.wf(),
        ensures
            forall|i: int, j: int|
                0 <= i < live(self.entry_seq()).len() && 0 <= j < live(self.entry_seq()).len() && i != j
                    ==> #[trigger] live(self.entry_seq())[i].0 != #[trigger] live(self.entry_seq())[j].0,
    {
        let s = self.entry_seq();
        assert forall|a: int, b: int| 0 <= a < s.len() && 0 <= b < s.len() && a != b implies s[a].0 != s[b].0 by {
            assert(keys_view(self.keys@)[a] == s[a].0);
            assert(keys_view(self.keys@)[b] == s[b].0);
        }
        lemma_live_keys_distinct(s);
    }

    /// An empty overlay.
    pub fn new() -> (r: MemoryOverlay)
        ensures
            r.wf(),
            r@.entries == Map::<Seq<u8>, (Seq<u8>, int)>::empty(),
            r@.aux == Map::<Seq<u8>, Seq<u8>>::empty(),
    {
        let r = MemoryOverlay {
            keys: Vec::new(),
            values: Vec::new(),
            rcs: Vec::new(),
            aux_keys: Vec::new(),
            aux_values: Vec::new(),
        };
        assert(r@.entries =~= Map::<Seq<u8>, (Seq<u8>, int)>::empty());
        assert(r@.aux =~= Map::<Seq<u8>, Seq<u8>>::empty());
        r
    }

    /// Adds one reference to `key`, holding `value`.
    pub fn emplace(&mut self, key: Vec<u8>, value: Vec<u8>)
        requires
            old(self).wf(),
        ensures
            final(self).wf(),
            final(self)@.entries == emplace_spec(old(self)@.entries, key@, value@),
            final(self)@.aux == old(self)@.aux,
            !old(self)@.entries.contains_key(key@) ==> final(self).entry_seq() == old(self).entry_seq().push(
                (key@, value@, 1int),
            ),
    {
        let ghost ks = keys_view(self.keys@);
        let ghost vs = entry_vals(self.values@, self.rcs@);
        match find_key(&self.keys, key.as_slice()) {
            Some(i) => {
                proof { lemma_assoc_index(ks, vs, i as int); }
                let rc = self.rcs[i];
                if rc <= 0 {
                    self.values.set(i, value);
                }
                let new_rc: i32 = if rc < i32::MAX { rc + 1 } else { rc };
                self.rcs.set(i, new_rc);
                proof {
                    let nv = (if rc <= 0 { value@ } else { old(self)@.entries[key@].0 }, new_rc as int);
                    assert(entry_vals(self.values@, self.rcs@) =~= vs.update(i as int, nv));
                    lemma_assoc_update(ks, vs, i as int, nv);
                }
            },
            None => {
                proof { lemma_assoc_absent(ks, vs, key@); }
                self.keys.push(key);
                self.values.push(value);
                self.rcs.push(1);
                proof {
                    assert(self.entry_seq() =~= old(self).entry_seq().push((key@, value@, 1int)));
                    assert(keys_view(self.keys@) =~= ks.push(key@));
                    assert(entry_vals(self.values@, self.rcs@) =~= vs.push((value@, 1int)));
                    lemma_assoc_push(ks, vs, key@, (value@, 1int));
                }
            },
        }
    }

    /// Adds one reference to `value` under its content key, which it returns.
    pub fn insert(&mut self, value: &[u8]) -> (key: Vec<u8>)
        requires
            old(self).wf(),
        ensures
            key@ == keccak_of(value@),
            final(self).wf(),
            final(self)@.entries == emplace_spec(old(self)@.entries, key@, value@),
            final(self)@.aux == old(self)@.aux,
            !old(self)@.entries.contains_key(key@) ==> final(self).entry_seq() == old(self).entry_seq().push(
                (key@, value@, 1int),
            ),
    {
        let key = content_key(value);
        self.emplace(copy_bytes(key.as_slice()), copy_bytes(value));
        key
    }

    /// Drops one reference to `key`.
    pub fn remove(&mut self, key: &[u8])
        requires
            old(self).wf(),
        ensures
            final(self).wf(),
            final(self)@.entries == remove_spec(old(self)@.entries, key@),
            final(self)@.aux == old(self)@.aux,
            forall|i: int|
                0 <= i < old(self).entry_seq().len() && (#[trigger] old(self).entry_seq()[i]).0 == key@
                    ==> final(self).entry_seq() == old(self).entry_seq().update(
                    i,
                    (key@, old(self).entry_seq()[i].1, dec_rc(old(self).entry_seq()[i].2)),
                ),
    {
        let ghost ks = keys_view(self.keys@);
        let ghost vs = entry_vals(self.values@, self.rcs@);
        match find_key(&self.keys, key) {
            Some(i) => {
                proof { lemma_assoc_index(ks, vs, i as int); }
                let rc = self.rcs[i];
                let new_rc: i32 = if rc > i32::MIN { rc - 1 } else { rc };
                self.rcs.set(i, new_rc);
                proof {
                    let s0 = old(self).entry_seq();
                    assert forall|a: int| 0 <= a < s0.len() && (#[trigger] s0[a]).0 == key@ implies self.entry_seq() == s0.update(
                        a,
                        (key@, s0[a].1, dec_rc(s0[a].2)),
                    ) by {
                        assert(ks[a] == s0[a].0);
                        assert(ks[i as int] == key@);
                        assert(a == i);
                        assert(self.entry_seq() =~= s0.update(a, (key@, s0[a].1, dec_rc(s0[a].2))));
                    }
                    let nv = (old(self)@.entries[key@].0, new_rc as int);
                    assert(entry_vals(self.values@, self.rcs@) =~= vs.update(i as int, nv));
                    lemma_assoc_update(ks, vs, i as int, nv);
                }
            },
            None => {
                proof { lemma_assoc_absent(ks, vs, key@); }
                self.keys.push(copy_bytes(key));
                self.values.push(Vec::new());
                self.rcs.push(-1);
                proof {
                    assert forall|a: int| 0 <= a < old(self).entry_seq().len() implies (#[trigger] old(self).entry_seq()[a]).0 != key@ by {
                        assert(ks[a] == old(self).entry_seq()[a].0);
                    }
                    assert(keys_view(self.keys@) =~= ks.push(key@));
                    assert(entry_vals(self.values@, self.rcs@) =~= vs.push((Seq::<u8>::empty(), -1int)));
                    lemma_assoc_push(ks, vs, key@, (Seq::<u8>::empty(), -1int));
                }
            },
        }
    }

    /// Caches a value read from the backing store at count 0, unless `key`
    /// already has an entry.
    pub fn denote(&mut self, key: &[u8], value: Vec<u8>)
        requires
            old(self).wf(),
        ensures
            final(self).wf(),
            final(self)@.entries == denote_spec(old(self)@.entries, key@, value@),
            final(self)@.aux == old(self)@.aux,
            live(final(self).entry_seq()) == live(old(self).entry_seq()),
    {
        let ghost ks = keys_view(self.keys@);
        let ghost vs = entry_vals(self.values@, self.rcs@);
        match find_key(&self.keys, key) {
            Some(i) => {
                proof { lemma_assoc_index(ks, vs, i as int); }
            },
            None => {
                proof { lemma_assoc_absent(ks, vs, key@); }
                self.keys.push(copy_bytes(key));
                self.values.push(value);
                self.rcs.push(0);
                proof {
                    let s0 = old(self).entry_seq();
                    assert(self.entry_seq().drop_last() =~= s0);
                    assert(self.entry_seq().last().2 == 0);
                    assert(keys_view(self.keys@) =~= ks.push(key@));
                    assert(entry_vals(self.values@, self.rcs@) =~= vs.push((value@, 0int)));
                    lemma_assoc_push(ks, vs, key@, (value@, 0int));
                }
            },
        }
    }

    /// The value and count held for `key`, if any.
    pub fn raw(&self, key: &[u8]) -> (r: Option<(Vec<u8>, i32)>)
        requires
            self.wf(),
        ensures
            match r {
                Some((v, rc)) => self@.entries.contains_key(key@) && self@.entries[key@] == (
                    v@,
                    rc as int,
                ),
                None => !self@.entries.contains_key(key@),
            },
    {
        let ghost ks = keys_view(self.keys@);
        let ghost vs = entry_vals(self.values@, self.rcs@);
        match find_key(&self.keys, key) {
            Some(i) => {
                proof { lemma_assoc_index(ks, vs, i as int); }
                Some((copy_bytes(self.values[i].as_slice()), self.rcs[i]))
            },
            None => {
                proof { lemma_assoc_absent(ks, vs, key@); }
                None
            },
        }
    }

    /// Hands out every entry whose count is not zero, in order, and empties
    /// the counted entries; auxiliary entries stay.
    pub fn drain(&mut self) -> (r: Vec<Pending>)
        requires
            old(self).wf(),
        ensures
            final(self).wf(),
            pending_view(r@) == live(old(self).entry_seq()),
            final(self)@.entries == Map::<Seq<u8>, (Seq<u8>, int)>::empty(),
            final(self)@.aux == old(self)@.aux,
    {
        let out = self.pending();
        self.clear();
        out
    }

    /// A copy of what `drain` would hand out, leaving the overlay as it is.
    pub fn pending(&self) -> (r: Vec<Pending>)
        requires
            self.wf(),
        ensures
            pending_view(r@) == live(self.entry_seq()),
    {
        let mut out: Vec<Pending> = Vec::new();
        let ghost s = self.entry_seq();
        let mut i: usize = 0;
        while i < self.keys.len()
            invariant
                self.wf(),
                s == self.entry_seq(),
                i <= s.len(),
                pending_view(out@) == live(s.subrange(0, i as int)),
            decreases s.len() - i,
        {
            assert(s.subrange(0, i + 1).drop_last() =~= s.subrange(0, i as int));
            if self.rcs[i] != 0 {
                let p = Pending {
                    key: copy_bytes(self.keys[i].as_slice()),
                    value: copy_bytes(self.values[i].as_slice()),
                    rc: self.rcs[i],
                };
                out.push(p);
            }
            i = i + 1;
            assert(pending_view(out@) =~= live(s.subrange(0, i as int)));
        }
        assert(s.subrange(0, s.len() as int) =~= s);
        out
    }

    /// The merged reference counts over the keys of the backing store, as
    /// parallel vectors of distinct keys and counts.
    pub fn merged_keys(&self, backing: &Vec<Vec<u8>>) -> (r: (Vec<Vec<u8>>, Vec<i64>))
        requires
            self.wf(),
        ensures
            r.0@.len() == r.1@.len(),
            distinct(keys_view(r.0@)),
            assoc_map(keys_view(r.0@), r.1@.map_values(|c: i64| c as int)) == merged_counts(
                keys_view(backing@),
                self@.entries,
            ),
    {
        let mut out_keys: Vec<Vec<u8>> = Vec::new();
        let mut counts: Vec<i64> = Vec::new();
        let ghost bs = keys_view(backing@);
        let mut i: usize = 0;
        while i < backing.len()
            invariant
                i <= backing@.len(),
                bs == keys_view(backing@),
                out_keys@.len() == counts@.len(),
                distinct(keys_view(out_keys@)),
                forall|j: int| 0 <= j < counts@.len() ==> #[trigger] counts@[j] == 1,
                forall|k: Seq<u8>| #[trigger] keys_view(out_keys@).contains(k) <==> exists|j: int| 0 <= j < i && bs[j] == k,
            decreases backing@.len() - i,
        {
            let ghost ks0 = keys_view(out_keys@);
            let ghost cs0 = counts@;
            let ghost b = bs[i as int];
            match find_key(&out_keys, backing[i].as_slice()) {
                Some(x) => {
                    assert(ks0[x as int] == b);
                },
                None => {
                    proof {
                        lemma_assoc_push(ks0, cs0.map_values(|c: i64| c as int), b, 1int);
                    }
                    out_keys.push(copy_bytes(backing[i].as_slice()));
                    counts.push(1);
                    assert(keys_view(out_keys@) =~= ks0.push(b));
                },
            }
            proof {
                let ks1 = keys_view(out_keys@);
                assert forall|k: Seq<u8>| #[trigger] ks1.contains(k) <==> exists|j: int| 0 <= j < i + 1 && bs[j] == k by {
                    if exists|j: int| 0 <= j < i + 1 && bs[j] == k {
                        let j = choose|j: int| 0 <= j < i + 1 && bs[j] == k;
                        if j < i {
                            assert(ks0.contains(k));
                            let a = choose|a: int| 0 <= a < ks0.len() && ks0[a] == k;
                            assert(ks1[a] == k);
                        } else if ks1.len() == ks0.len() {
                            assert(ks0.contains(b));
                            let a = choose|a: int| 0 <= a < ks0.len() && ks0[a] == b;
                            assert(ks1[a] == k);
                        } else {
                            assert(ks1[ks0.len() as int] == k);
                        }
                    }
                    if ks1.contains(k) {
                        let a = choose|a: int| 0 <= a < ks1.len() && ks1[a] == k;
                        if a < ks0.len() {
                            assert(ks0[a] == k);
                            assert(ks0.contains(k));
                        } else {
                            assert(bs[i as int] == k);
                        }
                    }
                }
            }
            i = i + 1;
        }
        let ghost base = assoc_map(keys_view(out_keys@), counts@.map_values(|c: i64| c as int));
        let ghost eks = keys_view(self.keys@);
        let ghost ercs = self.rcs@.map_values(|c: i32| c as int);
        assert(merge_prefix(base, eks, ercs, 0) =~= base);
        proof {
            assert forall|k: Seq<u8>| #[trigger] base.contains_key(k) implies base[k] == 1 by {
                let a = choose|a: int| 0 <= a < keys_view(out_keys@).len() && keys_view(out_keys@)[a] == k;
                lemma_assoc_index(keys_view(out_keys@), counts@.map_values(|c: i64| c as int), a);
            }
            assert forall|k: Seq<u8>| #[trigger] base.contains_key(k) <==> bs.contains(k) by {
                if base.contains_key(k) {
                    let a = choose|a: int| 0 <= a < keys_view(out_keys@).len() && keys_view(out_keys@)[a] == k;
                    assert(keys_view(out_keys@).contains(k));
                }
                if bs.contains(k) {
                    let j = choose|j: int| 0 <= j < bs.len() && bs[j] == k;
                    assert(exists|j: int| 0 <= j < i && bs[j] == k);
                    assert(keys_view(out_keys@).contains(k));
                    let a = choose|a: int| 0 <= a < keys_view(out_keys@).len() && keys_view(out_keys@)[a] == k;
                }
            }
        }
        let mut n: usize = 0;
        while n < self.keys.len()
            invariant
                self.wf(),
                n <= self.keys@.len(),
                eks == keys_view(self.keys@),
                ercs == self.rcs@.map_values(|c: i32| c as int),
                out_keys@.len() == counts@.len(),
                distinct(keys_view(out_keys@)),
                forall|k: Seq<u8>| #[trigger] base.contains_key(k) ==> base[k] == 1,
                forall|k: Seq<u8>| #[trigger] base.contains_key(k) <==> bs.contains(k),
                assoc_map(keys_view(out_keys@), counts@.map_values(|c: i64| c as int)) == merge_prefix(base, eks, ercs, n as int),
            decreases self.keys@.len() - n,
        {
            let ghost ks0 = keys_view(out_keys@);
            let ghost cs0 = counts@.map_values(|c: i64| c as int);
            let ghost m = merge_prefix(base, eks, ercs, n as int);
            proof { lemma_merge_step(base, eks, ercs, n as int); }
            let rc = self.rcs[n];
            if rc != 0 {
                match find_key(&out_keys, self.keys[n].as_slice()) {
                    Some(j) => {
                        proof {
                            lemma_assoc_index(ks0, cs0, j as int);
                            assert(m.contains_key(eks[n as int]));
                            assert(!(exists|a: int| 0 <= a < n && eks[a] == eks[n as int] && ercs[a] != 0));
                            assert(base.contains_key(eks[n as int]));
                        }
                        let c = counts[j];
                        counts.set(j, c + rc as i64);
                        proof {
                            assert(counts@.map_values(|c: i64| c as int) =~= cs0.update(j as int, cs0[j as int] + rc as int));
                            lemma_assoc_update(ks0, cs0, j as int, cs0[j as int] + rc as int);
                        }
                    },
                    None => {
                        proof {
                            lemma_assoc_push(ks0, cs0, eks[n as int], rc as int);
                            lemma_assoc_absent(ks0, cs0, eks[n as int]);
                        }
                        out_keys.push(copy_bytes(self.keys[n].as_slice()));
                        counts.push(rc as i64);
                        assert(keys_view(out_keys@) =~= ks0.push(eks[n as int]));
                        assert(counts@.map_values(|c: i64| c as int) =~= cs0.push(rc as int));
                    },
                }
            }
            n = n + 1;
        }
        proof {
            lemma_merge_final(base, eks, entry_vals(self.values@, self.rcs@), ercs, bs);
        }
        (out_keys, counts)
    }

    /// Empties the counted entries; auxiliary entries stay.
    pub fn clear(&mut self)
        requires
            old(self).wf(),
        ensures
            final(self).wf(),
            final(self)@.entries == Map::<Seq<u8>, (Seq<u8>, int)>::empty(),
            final(self)@.aux == old(self)@.aux,
    {
        self.keys = Vec::new();
        self.values = Vec::new();
        self.rcs = Vec::new();
        assert(self@.entries =~= Map::<Seq<u8>, (Seq<u8>, int)>::empty());
    }

    /// Stores an auxiliary entry, replacing any earlier one.
    pub fn insert_aux(&mut self, key: Vec<u8>, value: Vec<u8>)
        requires
            old(self).wf(),
        ensures
            final(self).wf(),
            final(self)@.entries == old(self)@.entries,
            final(self).entry_seq() == old(self).entry_seq(),
            final(self)@.aux == old(self)@.aux.insert(key@, value@),
    {
        let ghost ks = keys_view(self.aux_keys@);
        let ghost vs = keys_view(self.aux_values@);
        match find_key(&self.aux_keys, key.as_slice()) {
            Some(i) => {
                self.aux_values.set(i, value);
                proof {
                    assert(keys_view(self.aux_values@) =~= vs.update(i as int, value@));
                    lemma_assoc_update(ks, vs, i as int, value@);
                }
            },
            None => {
                self.aux_keys.push(key);
                self.aux_values.push(value);
                proof {
                    assert(keys_view(self.aux_keys@) =~= ks.push(key@));
                    assert(keys_view(self.aux_values@) =~= vs.push(value@));
                    lemma_assoc_push(ks, vs, key@, value@);
                }
            },
        }
    }

    /// The auxiliary entry under `key`, if any.
    pub fn get_aux(&self, key: &[u8]) -> (r: Option<Vec<u8>>)
        requires
            self.wf(),
        ensures
            match r {
                Some(v) => self@.aux.contains_key(key@) && v@ == self@.aux[key@],
                None => !self@.aux.contains_key(key@),
            },
    {
        let ghost ks = keys_view(self.aux_keys@);
        let ghost vs = keys_view(self.aux_values@);
        match find_key(&self.aux_keys, key) {
            Some(i) => {
                proof { lemma_assoc_index(ks, vs, i as int); }
                Some(copy_bytes(self.aux_values[i].as_slice()))
            },
            None => {
                proof { lemma_assoc_absent(ks, vs, key@); }
                None
            },
        }
    }

    /// Drops the auxiliary entry under `key`.
    pub fn remove_aux(&mut self, key: &[u8])
        requires
            old(self).wf(),
        ensures
            final(self).wf(),
            final(self)@.entries == old(self)@.entries,
            final(self).entry_seq() == old(self).entry_seq(),
            final(self)@.aux == old(self)@.aux.remove(key@),
    {
        let ghost ks = keys_view(self.aux_keys@);
        let ghost vs = keys_view(self.aux_values@);
        match find_key(&self.aux_keys, key) {
            Some(i) => {
                self.aux_keys.remove(i);
                self.aux_values.remove(i);
                proof {
                    assert(keys_view(self.aux_keys@) =~= ks.remove(i as int));
                    assert(keys_view(self.aux_values@) =~= vs.remove(i as int));
                    lemma_assoc_remove(ks, vs, i as int);
                }
            },
            None => {
                proof {
                    lemma_assoc_absent(ks, vs, key@);
                    assert(self@.aux =~= old(self)@.aux.remove(key@));
                }
            },
        }
    }
}

/// Every entry of `live(s)` is an entry of `s` with a count that is not zero,
/// and every such entry of `s` is in `live(s)`.
pub proof fn lemma_live_from(s: Seq<(Seq<u8>, Seq<u8>, int)>)
    ensures
        forall|j: int| 0 <= j < live(s).len() ==> exists|i: int| 0 <= i < s.len() && #[trigger] s[i] == #[trigger] live(s)[j],
        forall|j: int| 0 <= j < live(s).len() ==> (#[trigger] live(s)[j]).2 != 0,
        forall|i: int| 0 <= i < s.len() && (#[trigger] s[i]).2 != 0 ==> exists|j: int| 0 <= j < live(s).len() && live(s)[j] == s[i],
    decreases s.len(),
{
    if s.len() > 0 {
        let pre = s.drop_last();
        lemma_live_from(pre);
        assert forall|j: int| 0 <= j < live(s).len() implies exists|i: int| 0 <= i < s.len() && #[trigger] s[i] == #[trigger] live(s)[j] by {
            if j < live(pre).len() {
                let i = choose|i: int| 0 <= i < pre.len() && #[trigger] pre[i] == #[trigger] live(pre)[j];
                assert(s[i] == pre[i]);
            } else {
                assert(s[s.len() - 1] == s.last());
            }
        }
        assert forall|i: int| 0 <= i < s.len() && (#[trigger] s[i]).2 != 0 implies exists|j: int| 0 <= j < live(s).len() && live(s)[j] == s[i] by {
            if i < pre.len() {
                assert(pre[i] == s[i]);
                let j = choose|j: int| 0 <= j < live(pre).len() && live(pre)[j] == pre[i];
                assert(live(s)[j] == live(pre)[j]);
            } else {
                assert(live(s)[live(pre).len() as int] == s[i]);
            }
        }
    }
}

/// The `j`-th entry of `live(s)` is the entry of `s` at the position returned.
pub proof fn lemma_live_index(s: Seq<(Seq<u8>, Seq<u8>, int)>, j: int) -> (i: int)
    requires
        0 <= j < live(s).len(),
    ensures
        0 <= i < s.len(),
        s[i] == live(s)[j],
    decreases s.len(),
{
    let pre = s.drop_last();
    if j < live(pre).len() {
        let i = lemma_live_index(pre, j);
        assert(s[i] == pre[i]);
        i
    } else {
        (s.len() - 1) as int
    }
}

/// Dropping entries keeps keys distinct.
pub proof fn lemma_live_keys_distinct(s: Seq<(Seq<u8>, Seq<u8>, int)>)
    requires
        forall|a: int, b: int| 0 <= a < s.len() && 0 <= b < s.len() && a != b ==> s[a].0 != s[b].0,
    ensures
        forall|i: int, j: int|
            0 <= i < live(s).len() && 0 <= j < live(s).len() && i != j ==> #[trigger] live(s)[i].0
                != #[trigger] live(s)[j].0,
    decreases s.len(),
{
    if s.len() > 0 {
        let pre = s.drop_last();
        assert forall|a: int, b: int| 0 <= a < pre.len() && 0 <= b < pre.len() && a != b implies pre[a].0 != pre[b].0 by {
            assert(pre[a] == s[a] && pre[b] == s[b]);
        }
        lemma_live_keys_distinct(pre);
        if s.last().2 != 0 {
            let l = live(s);
            let n = live(pre).len() as int;
            assert forall|i: int, j: int| 0 <= i < l.len() && 0 <= j < l.len() && i != j implies #[trigger] l[i].0 != #[trigger] l[j].0 by {
                if i == n || j == n {
                    let o = if i == n { j } else { i };
                    let a = lemma_live_index(pre, o);
                    assert(pre[a] == s[a]);
                    assert(s.last() == s[s.len() - 1]);
                } else {
                    assert(l[i] == live(pre)[i] && l[j] == live(pre)[j]);
                }
            }
        }
    }
}

} // verus!
