//! Ordered batches of puts and deletes, applied atomically by the engine.
use vstd::prelude::*;
use crate::bytes::copy_bytes;

verus! {

/// One write of a batch.
#[derive(Debug)]
pub enum BatchOp {
    /// Store `value` under `key`.
    Put(Vec<u8>, Vec<u8>),
    /// Remove `key`.
    Delete(Vec<u8>),
}

/// A batch write over plain values.
pub enum OpView {
    Put(Seq<u8>, Seq<u8>),
    Delete(Seq<u8>),
}

impl OpView {
    pub open spec fn key(self) -> Seq<u8> {
        match self {
            OpView::Put(k, _) => k,
            OpView::Delete(k) => k,
        }
    }
}

impl View for BatchOp {
    type V = OpView;

    open spec fn view(&self) -> OpView {
        match self {
            BatchOp::Put(k, v) => OpView::Put(k@, v@),
            BatchOp::Delete(k) => OpView::Delete(k@),
        }
    }
}

/// The views of a sequence of batch writes.
pub open spec fn ops_view(ops: Seq<BatchOp>) -> Seq<OpView> {
    ops.map_values(|o: BatchOp| o@)
}

/// The store after one write.
pub open spec fn apply_op(store: Map<Seq<u8>, Seq<u8>>, op: OpView) -> Map<Seq<u8>, Seq<u8>> {
    match op {
        OpView::Put(k, v) => store.insert(k, v),
        OpView::Delete(k) => store.remove(k),
    }
}

/// The store after a sequence of writes, applied in order.
pub open spec fn apply_ops(store: Map<Seq<u8>, Seq<u8>>, ops: Seq<OpView>) -> Map<
    Seq<u8>,
    Seq<u8>,
>
    decreases ops.len(),
{
    if ops.len() == 0 {
        store
    } else {
        apply_op(apply_ops(store, ops.drop_last()), ops.last())
    }
}

/// Writes that never touch `k` leave it as the store held it.
pub proof fn lemma_apply_untouched(store: Map<Seq<u8>, Seq<u8>>, ops: Seq<OpView>, k: Seq<u8>)
    requires
        forall|j: int| 0 <= j < ops.len() ==> (#[trigger] ops[j]).key() != k,
    ensures
        apply_ops(store, ops).contains_key(k) == store.contains_key(k),
        store.contains_key(k) ==> apply_ops(store, ops)[k] == store[k],
    decreases ops.len(),
{
    if ops.len() > 0 {
        let pre = ops.drop_last();
        assert forall|j: int| 0 <= j < pre.len() implies (#[trigger] pre[j]).key() != k by {
            assert(pre[j] == ops[j]);
        }
        lemma_apply_untouched(store, pre, k);
        assert(ops.last() == ops[ops.len() - 1]);
    }
}

/// When every write touching `k` puts `v`, and one does, the store ends with
/// `v` under `k`.
pub proof fn lemma_apply_puts(store: Map<Seq<u8>, Seq<u8>>, ops: Seq<OpView>, k: Seq<u8>, v: Seq<u8>)
    requires
        forall|j: int| 0 <= j < ops.len() && (#[trigger] ops[j]).key() == k ==> ops[j] == OpView::Put(k, v),
        exists|j: int| 0 <= j < ops.len() && (#[trigger] ops[j]).key() == k,
    ensures
        apply_ops(store, ops).contains_key(k),
        apply_ops(store, ops)[k] == v,
    decreases ops.len(),
{
    let n = ops.len() - 1;
    let pre = ops.drop_last();
    assert(ops.last() == ops[n]);
    if ops[n].key() != k {
        let j = choose|j: int| 0 <= j < ops.len() && (#[trigger] ops[j]).key() == k;
        assert(pre[j] == ops[j]);
        assert forall|i: int| 0 <= i < pre.len() && (#[trigger] pre[i]).key() == k implies pre[i] == OpView::Put(k, v) by {
            assert(pre[i] == ops[i]);
        }
        lemma_apply_puts(store, pre, k, v);
    }
}

/// When every write touching `k` deletes it, and one does, the store ends
/// without `k`.
pub proof fn lemma_apply_deletes(store: Map<Seq<u8>, Seq<u8>>, ops: Seq<OpView>, k: Seq<u8>)
    requires
        forall|j: int| 0 <= j < ops.len() && (#[trigger] ops[j]).key() == k ==> ops[j] == OpView::Delete(k),
        exists|j: int| 0 <= j < ops.len() && (#[trigger] ops[j]).key() == k,
    ensures
        !apply_ops(store, ops).contains_key(k),
    decreases ops.len(),
{
    let n = ops.len() - 1;
    let pre = ops.drop_last();
    assert(ops.last() == ops[n]);
    if ops[n].key() != k {
        let j = choose|j: int| 0 <= j < ops.len() && (#[trigger] ops[j]).key() == k;
        assert(pre[j] == ops[j]);
        assert forall|i: int| 0 <= i < pre.len() && (#[trigger] pre[i]).key() == k implies pre[i] == OpView::Delete(k) by {
            assert(pre[i] == ops[i]);
        }
        lemma_apply_deletes(store, pre, k);
    }
}

/// An ordered collection of puts and deletes, applied as one atomic write.
#[derive(Debug)]
pub struct DBTransaction {
    ops: Vec<BatchOp>,
}

impl View for DBTransaction {
    type V = Seq<OpView>;

    closed spec fn view(&self) -> Seq<OpView> {
        ops_view(self.ops@)
    }
}

impl DBTransaction {
    /// An empty batch.
    pub fn new() -> (r: DBTransaction)
        ensures
            r@ == Seq::<OpView>::empty(),
    {
        let r = DBTransaction { ops: Vec::new() };
        assert(r@ =~= Seq::<OpView>::empty());
        r
    }

    /// Appends a put of `value` under `key`.
    pub fn put(&mut self, key: &[u8], value: &[u8])
        ensures
            final(self)@ == old(self)@.push(OpView::Put(key@, value@)),
    {
        let k = copy_bytes(key);
        let v = copy_bytes(value);
        self.ops.push(BatchOp::Put(k, v));
        assert(self@ =~= old(self)@.push(OpView::Put(key@, value@)));
    }

    /// Appends a delete of `key`.
    pub fn delete(&mut self, key: &[u8])
        ensures
            final(self)@ == old(self)@.push(OpView::Delete(key@)),
    {
        let k = copy_bytes(key);
        self.ops.push(BatchOp::Delete(k));
        assert(self@ =~= old(self)@.push(OpView::Delete(key@)));
    }

    /// The writes of the batch, in order.
    pub fn ops(&self) -> (r: &Vec<BatchOp>)
        ensures
            ops_view(r@) == self@,
    {
        &self.ops
    }

    /// The number of writes in the batch.
    pub fn len(&self) -> (r: usize)
        ensures
            r == self@.len(),
    {
        self.ops.len()
    }
}

} // verus!
