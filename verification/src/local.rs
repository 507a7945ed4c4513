//! What a core keeps for itself: its reservation and the subtrees of its last
//! frees.
use vstd::prelude::*;
use crate::entry::ReservedTree;

verus! {

/// The data of one core.
#[derive(Debug, Clone, Copy)]
pub struct Local<const L: usize> {
    /// The subtree that the core has reserved, if any, and the free frames it
    /// holds of it.
    pub entry: ReservedTree,
    /// The subtrees of the last `L` frees, as a ring.
    pub frees: [usize; L],
    /// Where the newest entry of the ring stands.
    pub frees_i: usize,
}

/// The place after `at` in a ring of `len` places.
pub open spec fn ring_next(at: int, len: int) -> int {
    if at + 1 < len {
        at + 1
    } else {
        0
    }
}

/// The ring after `chunk` was recorded.
pub open spec fn ring_push(frees: Seq<usize>, at: int, chunk: usize) -> Seq<usize> {
    if frees.len() > 0 {
        frees.update(ring_next(at, frees.len() as int), chunk)
    } else {
        frees
    }
}

/// Whether every entry of the ring is `chunk`.
pub open spec fn ring_related(frees: Seq<usize>, chunk: usize) -> bool {
    frees.len() > 0 && forall|k: int| 0 <= k < frees.len() ==> #[trigger] frees[k] == chunk
}

/// A frees-push that is not yet recorded.
#[derive(Debug, Clone, Copy, PartialEq, Eq, Structural)]
pub struct LocalFreePush(pub usize);

impl<const L: usize> Local<L> {
    /// Whether the ring index is in range.
    pub open spec fn wf(&self) -> bool {
        L > 0 ==> self.frees_i < L
    }

    /// The data of a core that has reserved nothing and freed nothing.
    pub fn new() -> (r: Self)
        ensures
            r.wf(),
            r.entry == (ReservedTree {
                free: 0,
                locked: false,
                start_raw: crate::entry::START_RAW_MAX,
            }),
            r.frees_i == 0,
            forall|k: int| 0 <= k < L ==> #[trigger] r.frees@[k] == usize::MAX,
    {
        Local { entry: ReservedTree::new(), frees: [usize::MAX;L], frees_i: 0 }
    }

    /// Records `chunk`, the subtree of a free, in place of the oldest entry.
    pub fn frees_push(&mut self, chunk: usize)
        requires
            old(self).wf(),
        ensures
            final(self).wf(),
            final(self).entry == old(self).entry,
            final(self).frees@ == ring_push(old(self).frees@, old(self).frees_i as int, chunk),
            L > 0 ==> final(self).frees_i == ring_next(old(self).frees_i as int, L as int),
    {
        if L > 0 {
            let next: usize = if self.frees_i + 1 < L {
                self.frees_i + 1
            } else {
                0
            };
            let ghost prev = self.frees@;
            self.frees_i = next;
            self.frees[next] = chunk;
            assert(self.frees@ == prev.update(next as int, chunk));
        }
    }

    /// Takes note of `chunk` for a push that `LocalFreePush::finish` records.
    pub fn defer_frees_push(&self, chunk: usize) -> (r: LocalFreePush)
        ensures
            r == LocalFreePush(chunk),
    {
        LocalFreePush(chunk)
    }

    /// Whether all recorded frees went to the subtree `chunk`.
    pub fn frees_related(&self, chunk: usize) -> (r: bool)
        ensures
            r == ring_related(self.frees@, chunk),
    {
        if L == 0 {
            return false;
        }
        let mut k: usize = 0;
        while k < L
            invariant
                k <= L,
                forall|j: int| 0 <= j < k ==> #[trigger] self.frees@[j] == chunk,
            decreases L - k,
        {
            if self.frees[k] != chunk {
                return false;
            }
            k = k + 1;
        }
        true
    }
}

impl LocalFreePush {
    /// Records the push in `local`.
    pub fn finish<const L: usize>(self, local: &mut Local<L>)
        requires
            old(local).wf(),
        ensures
            final(local).wf(),
            final(local).entry == old(local).entry,
            final(local).frees@ == ring_push(old(local).frees@, old(local).frees_i as int, self.0),
            L > 0 ==> final(local).frees_i == ring_next(old(local).frees_i as int, L as int),
    {
        local.frees_push(self.0);
    }
}

} // verus!
