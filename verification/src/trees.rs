//! The array of tree entries, and the search for a subtree to reserve.
use vstd::prelude::*;
use core::ops::Range;
use crate::entry::{ReservedTree, Tree, TREE_FREE_MAX};
use crate::lower::N;
use crate::bitfield::cyc_pos;
use crate::util::{align_down, div_ceil, spec_align_down, spec_div_ceil};
use crate::Error;

verus! {

/// A subtree with fewer free frames is not reserved.
pub const ALMOST_ALLOCATED: usize = 1024;

/// A subtree with at least as many free frames counts as empty.
pub const ALMOST_FREE: usize = 15360;

/// Largest number of subtrees.
pub const MAX_TREES: usize = 0x40_0000;

/// Number of tree entries that share a cache line.
pub const ENTRIES_PER_CACHELINE: usize = 32;

/// Whether the subtree of entry `t` can be reserved: no core has it, and it
/// can serve a request of the largest order.
pub open spec fn reservable(t: Tree) -> bool {
    !t.reserved && t.free >= ALMOST_ALLOCATED
}

/// Whether the subtree of entry `t` can be reserved and is almost entirely free.
pub open spec fn empty_like(t: Tree) -> bool {
    !t.reserved && t.free >= ALMOST_FREE
}

/// Whether the subtree of entry `t` can be reserved and is not almost entirely
/// free.
pub open spec fn partial_like(t: Tree) -> bool {
    !t.reserved && ALMOST_ALLOCATED <= t.free < ALMOST_FREE
}

/// Number of frames of subtree `i` that lie in a region of `frames` frames.
pub open spec fn span_of(frames: int, i: int) -> int {
    if frames - i * N < N {
        frames - i * N
    } else {
        N as int
    }
}

/// What reserving subtree `i` makes of the entries `before`, and what the core
/// gets for it.
pub open spec fn reserved_at(before: Seq<Tree>, after: Seq<Tree>, e: ReservedTree, i: int) -> bool {
    &&& 0 <= i < before.len()
    &&& reservable(before[i])
    &&& after == before.update(i, Tree { free: 0, reserved: true })
    &&& e == (ReservedTree { free: before[i].free, locked: false, start_raw: (i * N / 64) as u64 })
    &&& e.spec_start() == i * N
    &&& e.spec_has_start()
    &&& e.wf()
}

/// How many entries next to the cache line of the start the search for a
/// subtree tries first: a quarter of a core's share of the array.
pub open spec fn spec_vicinity(len: int, cores: int) -> int {
    if (len / cores) / 4 > 1 {
        (len / cores) / 4
    } else {
        1
    }
}

/// The `i`-th entry that the search near `start` tries: with odd `i` the entry
/// `(i + 1) / 2` places before the cache line of `start`, with even `i` the entry
/// `i / 2` places after it, around the array. The cache line is that of `start`
/// counted from the end of the array on.
pub open spec fn near(start: int, len: int, i: int) -> int {
    let base = spec_align_down(start % len + len, ENTRIES_PER_CACHELINE as int);
    if i % 2 == 0 {
        (base + (i + 1) / 2) % len
    } else {
        (base + (len - ((i + 1) / 2) % len)) % len
    }
}

/// Whether no subtree near `start` can be reserved.
pub open spec fn none_near(trees: Seq<Tree>, cores: int, start: int) -> bool {
    forall|k: int|
        1 <= k < spec_vicinity(trees.len() as int, cores) ==> !reservable(
            trees[#[trigger] near(start, trees.len() as int, k)],
        )
}

/// Whether `idx` is the first subtree near `start` that can be reserved.
pub open spec fn chose_near(trees: Seq<Tree>, cores: int, start: int, idx: int) -> bool {
    exists|i: int|
        1 <= i < spec_vicinity(trees.len() as int, cores) && #[trigger] near(
            start,
            trees.len() as int,
            i,
        ) == idx && forall|k: int|
            1 <= k < i ==> !reservable(trees[#[trigger] near(start, trees.len() as int, k)])
}

/// Whether `idx` is the first subtree from `start` on, around the array, that
/// is almost entirely free, if `empty`, and else the first that can be reserved
/// and is not almost entirely free.
pub open spec fn first_from(trees: Seq<Tree>, start: int, idx: int, empty: bool) -> bool {
    let len = trees.len() as int;
    &&& if empty {
        empty_like(trees[idx])
    } else {
        partial_like(trees[idx])
    }
    &&& forall|j: int|
        0 <= j < len && cyc_pos(start % len, j, len) < cyc_pos(start % len, idx, len) ==> !(
        if empty {
            empty_like(#[trigger] trees[j])
        } else {
            partial_like(trees[j])
        })
}

/// Whether `idx` is the subtree that the search for a subtree in use finds: the
/// first near `start` that can be reserved, or if there is none, the first from
/// `start` on that can be reserved and is not almost entirely free.
pub open spec fn chose_partial(trees: Seq<Tree>, cores: int, start: int, idx: int) -> bool {
    chose_near(trees, cores, start, idx) || (none_near(trees, cores, start) && first_from(
        trees,
        start,
        idx,
        false,
    ))
}

/// The tree entries of an allocator.
pub struct Trees {
    /// One entry per subtree.
    pub entries: Vec<Tree>,
}

impl View for Trees {
    type V = Seq<Tree>;

    open spec fn view(&self) -> Seq<Tree> {
        self.entries@
    }
}

impl Trees {
    /// Whether there is at least one entry, and not more than can be addressed.
    pub open spec fn wf(&self) -> bool {
        &&& 0 < self@.len() <= MAX_TREES
        &&& (self@.len() - 1) * N <= usize::MAX
        &&& forall|i: int| 0 <= i < self@.len() ==> #[trigger] self@[i].free <= N
    }

    /// The entries for a region of `frames` frames, all free or all allocated.
    pub fn init(frames: usize, free_all: bool) -> (r: Self)
        requires
            frames > 0,
            spec_div_ceil(frames as int, N as int) <= MAX_TREES,
        ensures
            r.wf(),
            r@.len() == spec_div_ceil(frames as int, N as int),
            forall|i: int|
                0 <= i < r@.len() ==> #[trigger] r@[i] == (Tree {
                    free: if free_all {
                        span_of(frames as int, i) as usize
                    } else {
                        0
                    },
                    reserved: false,
                }),
    {
        let len = div_ceil(frames, N);
        let mut entries: Vec<Tree> = Vec::new();
        let mut i: usize = 0;
        while i < len
            invariant
                i <= len,
                len == spec_div_ceil(frames as int, N as int),
                frames > 0,
                entries@.len() == i,
                forall|j: int|
                    0 <= j < i ==> #[trigger] entries@[j] == (Tree {
                        free: if free_all {
                            span_of(frames as int, j) as usize
                        } else {
                            0
                        },
                        reserved: false,
                    }),
            decreases len - i,
        {
            let free: usize = if !free_all {
                0
            } else if frames - i * N < N {
                frames - i * N
            } else {
                N
            };
            entries.push(Tree::new_with(free, false));
            i = i + 1;
        }
        Trees { entries }
    }

    /// Number of entries.
    pub fn len(&self) -> (r: usize)
        ensures
            r == self@.len(),
    {
        self.entries.len()
    }

    /// A subtree with fewer free frames is not reserved.
    pub fn almost_allocated() -> (r: usize)
        ensures
            r == ALMOST_ALLOCATED,
    {
        ALMOST_ALLOCATED
    }

    /// A subtree with at least as many free frames counts as empty.
    pub fn almost_free() -> (r: usize)
        ensures
            r == ALMOST_FREE,
    {
        ALMOST_FREE
    }

    /// Reserves subtree `idx` if it is not reserved and its counter lies in
    /// `range`.
    fn try_reserve(&mut self, idx: usize, range: Range<usize>) -> (r: Option<ReservedTree>)
        requires
            old(self).wf(),
            idx < old(self)@.len(),
            range.start >= ALMOST_ALLOCATED,
        ensures
            final(self).wf(),
            match r {
                Some(e) => {
                    &&& reserved_at(old(self)@, final(self)@, e, idx as int)
                    &&& range.start <= old(self)@[idx as int].free < range.end
                },
                None => {
                    &&& final(self)@ == old(self)@
                    &&& old(self)@[idx as int].spec_reserve(range) is None
                },
            },
    {
        let old_entry = self.entries[idx];
        match old_entry.reserve(range) {
            Some(entry) => {
                self.entries[idx] = entry;
                let start: usize = idx * N;
                assert(start / 64 == idx * 256);
                Some(ReservedTree::new_with(old_entry.free(), start))
            },
            None => None,
        }
    }

    /// Gives up the subtree of the reservation `entry` and adds the frames that
    /// the core still held to the entry of the subtree.
    pub fn unreserve(&mut self, entry: ReservedTree, frames: usize) -> (r: Result<(), Error>)
        requires
            old(self).wf(),
            entry.spec_has_start() ==> entry.spec_start() / (N as int) < old(self)@.len(),
            entry.spec_has_start() ==> entry.spec_start() <= frames,
        ensures
            final(self).wf(),
            !entry.spec_has_start() ==> r is Ok && final(self)@ == old(self)@,
            entry.spec_has_start() ==> match old(self)@[entry.spec_start() / (N as int)].spec_unreserve_add(
                entry.free,
                span_of(frames as int, entry.spec_start() / (N as int)) as usize,
            ) {
                Some(t) => r is Ok && final(self)@ == old(self)@.update(
                    entry.spec_start() / (N as int),
                    t,
                ),
                None => r == Err::<(), Error>(Error::Corruption) && final(self)@ == old(self)@,
            },
    {
        if !entry.has_start() {
            return Ok(());
        }
        let i: usize = entry.start() / N;
        let rest: usize = frames - i * N;
        let max: usize = if rest < N {
            rest
        } else {
            N
        };
        match self.entries[i].unreserve_add(entry.free(), max) {
            Some(t) => {
                self.entries[i] = t;
                Ok(())
            },
            None => Err(Error::Corruption),
        }
    }

    /// Reserves the first almost entirely free subtree from `start` on, around
    /// the array.
    pub fn reserve_empty(&mut self, start: usize) -> (r: Result<ReservedTree, Error>)
        requires
            old(self).wf(),
        ensures
            final(self).wf(),
            match r {
                Ok(e) => {
                    &&& reserved_at(
                        old(self)@,
                        final(self)@,
                        e,
                        e.spec_start() / (N as int),
                    )
                    &&& first_from(
                        old(self)@,
                        start as int,
                        e.spec_start() / (N as int),
                        true,
                    )
                },
                Err(x) => {
                    &&& x == Error::Memory
                    &&& final(self)@ == old(self)@
                    &&& forall|j: int| 0 <= j < old(self)@.len() ==> !empty_like(#[trigger] old(self)@[j])
                },
            },
    {
        let len = self.entries.len();
        let first: usize = start % len;
        let mut i: usize = 0;
        while i < len
            invariant
                i <= len,
                first < len,
                first == start % len,
                len == self@.len(),
                len == old(self)@.len(),
                self.wf(),
                self@ == old(self)@,
                forall|j: int|
                    0 <= j < len && crate::bitfield::cyc_pos(first as int, j, len as int) < i
                        ==> !empty_like(#[trigger] old(self)@[j]),
            decreases len - i,
        {
            let idx: usize = if i < len - first {
                first + i
            } else {
                i - (len - first)
            };
            assert(crate::bitfield::cyc_pos(first as int, idx as int, len as int) == i);
            match self.try_reserve(idx, ALMOST_FREE..(TREE_FREE_MAX + 1)) {
                Some(e) => {
                    assert(e.spec_start() / (N as int) == idx);
                    assert(first as int == start as int % (old(self)@.len() as int));
                    assert forall|j: int|
                        0 <= j < old(self)@.len() && crate::bitfield::cyc_pos(
                            first as int,
                            j,
                            len as int,
                        ) < crate::bitfield::cyc_pos(
                            first as int,
                            idx as int,
                            len as int,
                        ) implies !empty_like(#[trigger] old(self)@[j]) by {}
                    return Ok(e);
                },
                None => {},
            }
            i = i + 1;
        }
        Err(Error::Memory)
    }

    /// Reserves the first subtree near `start` that can serve a request of the
    /// largest order: the entries next to the cache line of `start` are tried
    /// in turn, one before it, one after it, two before it, and so on, within a
    /// quarter of a core's share of the array.
    fn reserve_near(&mut self, cores: usize, start: usize) -> (r: Option<ReservedTree>)
        requires
            old(self).wf(),
            cores > 0,
        ensures
            final(self).wf(),
            match r {
                Some(e) => {
                    &&& reserved_at(
                        old(self)@,
                        final(self)@,
                        e,
                        e.spec_start() / (N as int),
                    )
                    &&& chose_near(
                        old(self)@,
                        cores as int,
                        start as int,
                        e.spec_start() / (N as int),
                    )
                },
                None => {
                    &&& final(self)@ == old(self)@
                    &&& none_near(old(self)@, cores as int, start as int)
                },
            },
    {
        let len = self.entries.len();
        let share: usize = (len / cores) / 4;
        let vicinity: usize = if share > 1 {
            share
        } else {
            1
        };
        let base: usize = align_down(start % len + len, ENTRIES_PER_CACHELINE);
        let mut i: usize = 1;
        while i < vicinity
            invariant
                1 <= i <= vicinity,
                vicinity == spec_vicinity(len as int, cores as int),
                vicinity <= len,
                base < 2 * len,
                base == spec_align_down(
                    start as int % (len as int) + len,
                    ENTRIES_PER_CACHELINE as int,
                ),
                len == self@.len(),
                len == old(self)@.len(),
                self.wf(),
                self@ == old(self)@,
                forall|k: int|
                    1 <= k < i ==> !reservable(
                        old(self)@[#[trigger] near(start as int, len as int, k)],
                    ),
            decreases vicinity - i,
        {
            let step: usize = (i + 1) / 2;
            let idx: usize = if i % 2 == 0 {
                (base + step) % len
            } else {
                (base + (len - step % len)) % len
            };
            assert(idx == near(start as int, len as int, i as int));
            match self.try_reserve(idx, ALMOST_ALLOCATED..(TREE_FREE_MAX + 1)) {
                Some(e) => {
                    assert(e.spec_start() / (N as int) == idx);
                    assert(chose_near(old(self)@, cores as int, start as int, idx as int)) by {
                        assert(1 <= i < spec_vicinity(len as int, cores as int) && near(
                            start as int,
                            len as int,
                            i as int,
                        ) == idx);
                    }
                    return Some(e);
                },
                None => {},
            }
            i = i + 1;
        }
        None
    }

    /// Reserves a subtree that can serve a request of the largest order.
    ///
    /// First the neighbourhood of `start` is tried; there any such subtree is
    /// taken. Then the whole array is searched from `start` on for one that is not
    /// almost entirely free.
    pub fn reserve_partial(&mut self, cores: usize, start: usize) -> (r: Result<
        ReservedTree,
        Error,
    >)
        requires
            old(self).wf(),
            cores > 0,
        ensures
            final(self).wf(),
            match r {
                Ok(e) => {
                    &&& reserved_at(
                        old(self)@,
                        final(self)@,
                        e,
                        e.spec_start() / (N as int),
                    )
                    &&& chose_partial(
                        old(self)@,
                        cores as int,
                        start as int,
                        e.spec_start() / (N as int),
                    )
                },
                Err(x) => {
                    &&& x == Error::Memory
                    &&& final(self)@ == old(self)@
                    &&& none_near(old(self)@, cores as int, start as int)
                    &&& forall|j: int|
                        0 <= j < old(self)@.len() ==> !partial_like(#[trigger] old(self)@[j])
                },
            },
    {
        match self.reserve_near(cores, start) {
            Some(e) => {
                return Ok(e);
            },
            None => {},
        }
        let len = self.entries.len();
        let first: usize = start % len;
        let mut k: usize = 0;
        while k < len
            invariant
                k <= len,
                first < len,
                first == start % len,
                len == self@.len(),
                len == old(self)@.len(),
                self.wf(),
                self@ == old(self)@,
                none_near(old(self)@, cores as int, start as int),
                forall|j: int|
                    0 <= j < len && cyc_pos(first as int, j, len as int) < k ==> !partial_like(
                        #[trigger] old(self)@[j],
                    ),
            decreases len - k,
        {
            let idx: usize = if k < len - first {
                first + k
            } else {
                k - (len - first)
            };
            assert(cyc_pos(first as int, idx as int, len as int) == k);
            match self.try_reserve(idx, ALMOST_ALLOCATED..ALMOST_FREE) {
                Some(e) => {
                    assert(e.spec_start() / (N as int) == idx);
                    assert(first_from(old(self)@, start as int, idx as int, false));
                    return Ok(e);
                },
                None => {},
            }
            k = k + 1;
        }
        Err(Error::Memory)
    }

    /// Reserves a subtree that can serve a request of the largest order, for one
    /// of `cores` cores that last worked near subtree `start`.
    ///
    /// Subtrees that are in use are preferred to almost entirely free ones,
    /// unless `prioritize_empty` asks for the opposite.
    pub fn reserve(&mut self, cores: usize, start: usize, prioritize_empty: bool) -> (r: Result<
        ReservedTree,
        Error,
    >)
        requires
            old(self).wf(),
            cores > 0,
        ensures
            final(self).wf(),
            match r {
                Ok(e) => {
                    let idx = e.spec_start() / (N as int);
                    let empty = first_from(old(self)@, start as int, idx, true);
                    let partial = chose_partial(old(self)@, cores as int, start as int, idx);
                    &&& reserved_at(old(self)@, final(self)@, e, idx)
                    &&& if prioritize_empty {
                        empty || (partial && forall|j: int|
                            0 <= j < old(self)@.len() ==> !empty_like(#[trigger] old(self)@[j]))
                    } else {
                        partial || (empty && none_near(old(self)@, cores as int, start as int)
                            && forall|j: int|
                            0 <= j < old(self)@.len() ==> !partial_like(#[trigger] old(self)@[j]))
                    }
                    &&& prioritize_empty && (exists|j: int|
                        0 <= j < old(self)@.len() && empty_like(#[trigger] old(self)@[j]))
                        ==> empty_like(old(self)@[idx])
                },
                Err(x) => {
                    &&& x == Error::Memory
                    &&& final(self)@ == old(self)@
                    &&& forall|j: int| 0 <= j < old(self)@.len() ==> !reservable(#[trigger] old(self)@[j])
                },
            },
    {
        if prioritize_empty {
            match self.reserve_empty(start) {
                Err(_) => self.reserve_partial(cores, start),
                r => r,
            }
        } else {
            match self.reserve_partial(cores, start) {
                Err(_) => self.reserve_empty(start),
                r => r,
            }
        }
    }
}

} // verus!
