//! The content-addressed blob store.
//!
//! `put` interns a blob: structurally identical content always receives the
//! same address, so an unchanged subtree reuses its parent's blob instead
//! of being copied.  A `put` only records the blob; it becomes durable when
//! the pending write handed to the fan-out queue is executed, which
//! [`mark_durable`] models.  Blobs are immutable once stored: the store
//! only ever grows, and every blob references only earlier blobs.

use vstd::prelude::*;

use crate::node::Blob;
use crate::node::blob_eq;
use crate::node::blob_eqv;
use crate::shard::blob_ok;
use crate::shard::store_extends;

verus! {

pub struct Store {
    pub blobs: Vec<Blob>,
    pub durable: Vec<bool>,
}

/// Every blob is consistent at its position and no two blobs share their
/// content, so content equality and address equality coincide.
pub open spec fn store_wf(st: Store) -> bool {
    &&& st.blobs@.len() == st.durable@.len()
    &&& forall|i: int| 0 <= i < st.blobs@.len() ==> blob_ok(st.blobs@, i)
    &&& forall|i: int, j: int|
        0 <= i < j < st.blobs@.len() ==> !blob_eqv(st.blobs@[i], st.blobs@[j])
}

impl Store {
    /// An empty store.
    pub fn new() -> (st: Store)
        ensures
            store_wf(st),
            st.blobs@.len() == 0,
    {
        Store { blobs: Vec::new(), durable: Vec::new() }
    }

    /// The number of blobs held.
    pub fn len(&self) -> (n: usize)
        ensures
            n == self.blobs@.len(),
    {
        self.blobs.len()
    }

    /// Reads the blob at `id`.
    pub fn get(&self, id: usize) -> (b: &Blob)
        requires
            id < self.blobs@.len(),
        ensures
            *b == self.blobs@[id as int],
    {
        &self.blobs[id]
    }

    /// Whether the write for blob `id` has completed.
    pub fn is_durable(&self, id: usize) -> (r: bool)
        requires
            store_wf(*self),
            id < self.blobs@.len(),
        ensures
            r == self.durable@[id as int],
    {
        self.durable[id]
    }

    /// Interns a blob and returns its content address.  Content already
    /// present keeps its address and its durability; new content is
    /// appended, not yet durable.
    pub fn put(&mut self, b: Blob) -> (id: usize)
        requires
            store_wf(*old(self)),
            blob_ok(old(self).blobs@.push(b), old(self).blobs@.len() as int),
        ensures
            store_wf(*final(self)),
            store_extends(old(self).blobs@, final(self).blobs@),
            final(self).blobs@.len() <= old(self).blobs@.len() + 1,
            id < final(self).blobs@.len(),
            blob_eqv(final(self).blobs@[id as int], b),
            forall|i: int|
                0 <= i < old(self).durable@.len() ==> final(self).durable@[i]
                    == old(self).durable@[i],
            id < old(self).blobs@.len() ==> final(self).blobs@ == old(self).blobs@,
            id == old(self).blobs@.len() ==> final(self).blobs@ == old(self).blobs@.push(b)
                && !final(self).durable@[id as int],
    {
        let n = self.blobs.len();
        let mut i: usize = 0;
        while i < n
            invariant
                n == self.blobs@.len(),
                0 <= i <= n,
                self.blobs@ == old(self).blobs@,
                self.durable@ == old(self).durable@,
                store_wf(*old(self)),
                store_wf(*self),
                forall|j: int| 0 <= j < i ==> !blob_eqv(self.blobs@[j], b),
            decreases n - i,
        {
            if blob_eq(&self.blobs[i], &b) {
                return i;
            }
            i = i + 1;
        }
        self.blobs.push(b);
        self.durable.push(false);
        proof {
            assert forall|k: int| 0 <= k < self.blobs@.len() implies blob_ok(self.blobs@, k) by {
                if k < old(self).blobs@.len() {
                    assert(blob_ok(old(self).blobs@, k));
                    crate::shard::lemma_blob_ok_frame(old(self).blobs@, self.blobs@, k);
                } else {
                    assert(self.blobs@ =~= old(self).blobs@.push(b));
                }
            }
            assert(self.blobs@ =~= old(self).blobs@.push(b));
        }
        n
    }

    /// Records that the write for blob `id` has completed.
    pub fn mark_durable(&mut self, id: usize)
        requires
            store_wf(*old(self)),
            id < old(self).blobs@.len(),
        ensures
            store_wf(*final(self)),
            final(self).blobs@ == old(self).blobs@,
            final(self).durable@.len() == old(self).durable@.len(),
            final(self).durable@[id as int],
            forall|i: int|
                0 <= i < old(self).durable@.len() && i != id ==> final(self).durable@[i]
                    == old(self).durable@[i],
    {
        self.durable.set(id, true);
    }
}

/// Content addressing is a function of content alone: in a consistent
/// store, two blobs with structurally identical content occupy one
/// position, so rebuilding the same node always reuses its address.
pub proof fn lemma_address_determined(st: Store, i: int, j: int)
    requires
        store_wf(st),
        0 <= i < st.blobs@.len(),
        0 <= j < st.blobs@.len(),
        blob_eqv(st.blobs@[i], st.blobs@[j]),
    ensures
        i == j,
{
    if i < j {
        assert(!blob_eqv(st.blobs@[i], st.blobs@[j]));
    }
    if j < i {
        assert(blob_eqv(st.blobs@[j], st.blobs@[i])) by {
            crate::node::lemma_blob_eqv_sym(st.blobs@[i], st.blobs@[j]);
        }
        assert(!blob_eqv(st.blobs@[j], st.blobs@[i]));
    }
}

/// Blob `i` is listed in the pending-write queue.
pub open spec fn queued(q: Seq<usize>, i: int) -> bool {
    exists|k: int| 0 <= k < q.len() && q[k] as int == i
}

/// Every queued id names a blob of the store.
pub open spec fn queue_wf(q: Seq<usize>, s: Seq<Blob>) -> bool {
    forall|k: int| 0 <= k < q.len() ==> (#[trigger] q[k]) < s.len()
}

/// One step of the engine against store and queue: the store only grows,
/// durability already recorded is kept, the queue only grows, and every
/// blob the step added is queued for writing.
pub open spec fn step_ok(a: Store, q1: Seq<usize>, b: Store, q2: Seq<usize>) -> bool {
    &&& store_extends(a.blobs@, b.blobs@)
    &&& b.durable@.len() >= a.durable@.len()
    &&& forall|i: int| 0 <= i < a.durable@.len() ==> b.durable@[i] == a.durable@[i]
    &&& q2.len() >= q1.len()
    &&& forall|i: int| 0 <= i < q1.len() ==> q2[i] == q1[i]
    &&& forall|i: int| a.blobs@.len() <= i < b.blobs@.len() ==> queued(q2, i)
}

pub proof fn lemma_step_ok_refl(a: Store, q1: Seq<usize>)
    ensures
        step_ok(a, q1, a, q1),
{
}

pub proof fn lemma_step_ok_trans(
    a: Store,
    q1: Seq<usize>,
    b: Store,
    q2: Seq<usize>,
    c: Store,
    q3: Seq<usize>,
)
    requires
        step_ok(a, q1, b, q2),
        step_ok(b, q2, c, q3),
    ensures
        step_ok(a, q1, c, q3),
{
    assert forall|i: int| a.blobs@.len() <= i < c.blobs@.len() implies queued(q3, i) by {
        if i < b.blobs@.len() {
            assert(queued(q2, i));
            let k = choose|k: int| 0 <= k < q2.len() && q2[k] as int == i;
            assert(q3[k] == q2[k]);
        }
    }
}

} // verus!
