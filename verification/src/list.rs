//! Lists of indices that are threaded through a buffer of links.
//!
//! An element of the buffer that is in no list holds `Next::Outside`; an element
//! of a list holds the index of the element that follows it, or `Next::End`.
use vstd::prelude::*;
use crate::entry::Next;
use crate::Error;

verus! {

/// Whether the elements `items`, in this order, form the list that begins with
/// `start` in the buffer `buf`.
pub open spec fn chain(buf: Seq<Next>, start: Next, items: Seq<usize>) -> bool
    decreases items.len(),
{
    if items.len() == 0 {
        start == Next::End
    } else {
        &&& start == Next::Link(items[0])
        &&& items[0] < buf.len()
        &&& chain(buf, buf[items[0] as int], items.drop_first())
    }
}

/// No element of a list holds `Next::Outside`.
pub proof fn lemma_chain_inside(buf: Seq<Next>, start: Next, items: Seq<usize>, k: int)
    requires
        chain(buf, start, items),
        0 <= k < items.len(),
    ensures
        items[k] < buf.len(),
        buf[items[k] as int] != Next::Outside,
    decreases items.len(),
{
    let rest = items.drop_first();
    assert(chain(buf, buf[items[0] as int], rest));
    if k > 0 {
        lemma_chain_inside(buf, buf[items[0] as int], rest, k - 1);
        assert(rest[k - 1] == items[k]);
    } else if rest.len() > 0 {
        assert(buf[items[0] as int] == Next::Link(rest[0]));
    } else {
        assert(buf[items[0] as int] == Next::End);
    }
}

/// A list stays what it is when an element outside of it is overwritten.
pub proof fn lemma_chain_update(
    buf: Seq<Next>,
    start: Next,
    items: Seq<usize>,
    idx: int,
    link: Next,
)
    requires
        chain(buf, start, items),
        0 <= idx < buf.len(),
        forall|k: int| 0 <= k < items.len() ==> #[trigger] items[k] != idx,
    ensures
        chain(buf.update(idx, link), start, items),
    decreases items.len(),
{
    if items.len() > 0 {
        let rest = items.drop_first();
        assert(items[0] != idx);
        assert forall|k: int| 0 <= k < rest.len() implies #[trigger] rest[k] != idx by {
            assert(rest[k] == items[k + 1]);
        }
        lemma_chain_update(buf, buf[items[0] as int], rest, idx, link);
    }
}

/// Whether no index occurs twice in `items`.
pub open spec fn distinct(items: Seq<usize>) -> bool {
    forall|a: int, b: int| 0 <= a < b < items.len() ==> items[a] != items[b]
}

/// A stack of indices in a buffer of links.
pub struct AtomicStack {
    start: Next,
    items: Ghost<Seq<usize>>,
}

impl View for AtomicStack {
    type V = Seq<usize>;

    /// The indices on the stack, the top first.
    closed spec fn view(&self) -> Seq<usize> {
        self.items@
    }
}

impl AtomicStack {
    /// Whether the stack is a list in `buf`, without repetition.
    pub closed spec fn wf(&self, buf: Seq<Next>) -> bool {
        &&& chain(buf, self.start, self.items@)
        &&& distinct(self.items@)
    }

    /// The indices on a stack are indices of the buffer whose elements are not
    /// outside.
    pub proof fn lemma_inside(&self, buf: Seq<Next>, k: int)
        requires
            self.wf(buf),
            0 <= k < self@.len(),
        ensures
            self@[k] < buf.len(),
            buf[self@[k] as int] != Next::Outside,
            forall|j: int| 0 <= j < self@.len() && j != k ==> self@[j] != self@[k],
    {
        lemma_chain_inside(buf, self.start, self.items@, k);
        assert forall|j: int| 0 <= j < self@.len() && j != k implies self@[j] != self@[k] by {
            if j < k {
                assert(self.items@[j] != self.items@[k]);
            } else {
                assert(self.items@[k] != self.items@[j]);
            }
        }
    }

    /// A stack stays one when an element outside of it is overwritten.
    pub proof fn lemma_update(&self, buf: Seq<Next>, idx: int, link: Next)
        requires
            self.wf(buf),
            0 <= idx < buf.len(),
            forall|k: int| 0 <= k < self@.len() ==> #[trigger] self@[k] != idx,
        ensures
            self.wf(buf.update(idx, link)),
    {
        assert forall|k: int| 0 <= k < self.items@.len() implies #[trigger] self.items@[k]
            != idx by {
            assert(self@[k] != idx);
        }
        lemma_chain_update(buf, self.start, self.items@, idx, link);
    }

    /// An empty stack.
    pub fn new() -> (r: Self)
        ensures
            r@.len() == 0,
            forall|buf: Seq<Next>| #[trigger] r.wf(buf),
    {
        AtomicStack { start: Next::End, items: Ghost(Seq::empty()) }
    }

    /// The stack of the indices `0 .. len`, in this order, for a buffer in which
    /// every element holds the index after its own, and the last `Next::End`.
    pub fn full(buf: &Vec<Next>) -> (r: Self)
        requires
            buf@.len() > 0,
            forall|i: int|
                0 <= i < buf@.len() ==> #[trigger] buf@[i] == if i + 1 < buf@.len() {
                    Next::Link((i + 1) as usize)
                } else {
                    Next::End
                },
        ensures
            r.wf(buf@),
            r@ == Seq::new(buf@.len(), |i: int| i as usize),
    {
        let ghost items = Seq::new(buf@.len(), |i: int| i as usize);
        let len = buf.len();
        proof {
            assert(len == buf@.len());
            lemma_chain_range(buf@, 0);
            assert(items.subrange(0, items.len() as int) =~= items);
        }
        AtomicStack { start: Next::Link(0), items: Ghost(items) }
    }

    /// Puts the element `idx`, which is in no list, on the stack.
    pub fn push(&mut self, buf: &mut Vec<Next>, idx: usize)
        requires
            old(self).wf(old(buf)@),
            idx < old(buf)@.len(),
            old(buf)@[idx as int] == Next::Outside,
        ensures
            final(self).wf(final(buf)@),
            final(self)@ == seq![idx] + old(self)@,
            final(buf)@ == old(buf)@.update(idx as int, final(buf)@[idx as int]),
            final(buf)@[idx as int] != Next::Outside,
    {
        let ghost before = buf@;
        let ghost items = self.items@;
        proof {
            assert forall|k: int| 0 <= k < items.len() implies #[trigger] items[k] != idx by {
                lemma_chain_inside(before, self.start, items, k);
            }
            lemma_chain_update(before, self.start, items, idx as int, self.start);
        }
        buf[idx] = self.start;
        self.start = Next::Link(idx);
        self.items = Ghost(seq![idx] + items);
        proof {
            let now = seq![idx] + items;
            assert(now.drop_first() =~= items);
            assert(buf@ == before.update(idx as int, buf@[idx as int]));
        }
    }

    /// Takes the top element from the stack; it is in no list afterwards.
    pub fn pop(&mut self, buf: &mut Vec<Next>) -> (r: Option<usize>)
        requires
            old(self).wf(old(buf)@),
        ensures
            final(self).wf(final(buf)@),
            final(buf)@.len() == old(buf)@.len(),
            match r {
                Some(idx) => {
                    &&& old(self)@.len() > 0
                    &&& idx == old(self)@[0]
                    &&& final(self)@ == old(self)@.drop_first()
                    &&& final(buf)@ == old(buf)@.update(idx as int, Next::Outside)
                },
                None => old(self)@.len() == 0 && final(self)@ == old(self)@ && final(buf)@ == old(
                    buf,
                )@,
            },
    {
        let ghost before = buf@;
        let ghost items = self.items@;
        match self.start {
            Next::Link(idx) => {
                let ghost rest = items.drop_first();
                proof {
                    assert(items.len() > 0);
                    assert forall|k: int| 0 <= k < rest.len() implies #[trigger] rest[k]
                        != idx by {
                        assert(rest[k] == items[k + 1]);
                    }
                    lemma_chain_update(before, before[idx as int], rest, idx as int, Next::Outside);
                    assert forall|a: int, b: int| 0 <= a < b < rest.len() implies rest[a]
                        != rest[b] by {
                        assert(rest[a] == items[a + 1] && rest[b] == items[b + 1]);
                    }
                }
                let next = buf[idx];
                self.start = next;
                buf[idx] = Next::Outside;
                self.items = Ghost(rest);
                Some(idx)
            },
            _ => {
                assert(items.len() == 0);
                None
            },
        }
    }
}

/// In a buffer in which every element holds the index after its own, the
/// indices from `from` on form a list.
pub proof fn lemma_chain_range(buf: Seq<Next>, from: int)
    requires
        0 <= from <= buf.len() <= usize::MAX,
        forall|i: int|
            0 <= i < buf.len() ==> #[trigger] buf[i] == if i + 1 < buf.len() {
                Next::Link((i + 1) as usize)
            } else {
                Next::End
            },
    ensures
        chain(
            buf,
            if from < buf.len() {
                Next::Link(from as usize)
            } else {
                Next::End
            },
            Seq::new(buf.len(), |i: int| i as usize).subrange(from, buf.len() as int),
        ),
        distinct(Seq::new(buf.len(), |i: int| i as usize)),
    decreases buf.len() - from,
{
    let all = Seq::new(buf.len(), |i: int| i as usize);
    let items = all.subrange(from, buf.len() as int);
    if from < buf.len() {
        lemma_chain_range(buf, from + 1);
        assert(items.drop_first() =~= all.subrange(from + 1, buf.len() as int));
        assert(items[0] == from as usize);
        assert(buf[from] == if from + 1 < buf.len() {
            Next::Link((from + 1) as usize)
        } else {
            Next::End
        });
    }
    assert forall|a: int, b: int| 0 <= a < b < all.len() implies all[a] != all[b] by {
        assert(all[a] == a as usize && all[b] == b as usize);
    }
}

/// Smallest number of frames per core that a list allocator asks for.
pub const MIN_PAGES: usize = 262144;

/// Sum of the first `n` counters.
pub open spec fn sum_counters(counters: Seq<usize>, n: int) -> int
    decreases n,
{
    if n <= 0 {
        0
    } else {
        sum_counters(counters, n - 1) + counters[n - 1]
    }
}

/// Replacing one counter changes the sum by the difference of the two.
pub proof fn lemma_sum_counters_update(counters: Seq<usize>, c: int, x: usize, n: int)
    requires
        0 <= c < counters.len(),
        0 <= n <= counters.len(),
    ensures
        c < n ==> sum_counters(counters.update(c, x), n) == sum_counters(counters, n)
            - counters[c] + x,
        c >= n ==> sum_counters(counters.update(c, x), n) == sum_counters(counters, n),
    decreases n,
{
    if n > 0 {
        lemma_sum_counters_update(counters, c, x, n - 1);
    }
}

/// A multiple of `m` that is less than `m` away from zero is zero.
pub proof fn lemma_small_multiple(x: int, k: int, m: int)
    requires
        m > 0,
        x == k * m,
        -m < x < m,
    ensures
        x == 0,
{
    assert(k == 0) by (nonlinear_arith)
        requires
            m > 0,
            -m < k * m < m,
    ;
}

/// Number of elements among the first `n` of `buf` that are in no list.
pub open spec fn outside(buf: Seq<Next>, n: int) -> nat
    decreases n,
{
    if n <= 0 {
        0
    } else {
        outside(buf, n - 1) + if buf[n - 1] == Next::Outside {
            1nat
        } else {
            0nat
        }
    }
}

/// Overwriting one element changes the number of elements that are in no list
/// by one, if it changes whether this element is in a list.
pub proof fn lemma_outside_update(buf: Seq<Next>, idx: int, link: Next, n: int)
    requires
        0 <= idx < buf.len(),
        0 <= n <= buf.len(),
    ensures
        outside(buf.update(idx, link), n) + (if idx < n && buf[idx] == Next::Outside {
            1nat
        } else {
            0nat
        }) == outside(buf, n) + (if idx < n && link == Next::Outside {
            1nat
        } else {
            0nat
        }),
    decreases n,
{
    if n > 0 {
        lemma_outside_update(buf, idx, link, n - 1);
    }
}

/// How many elements of a buffer are in no list, if all are, or none is.
pub proof fn lemma_outside_all(buf: Seq<Next>, n: int, all: bool)
    requires
        0 <= n <= buf.len(),
        forall|i: int| 0 <= i < buf.len() ==> (#[trigger] buf[i] == Next::Outside) == all,
    ensures
        outside(buf, n) == if all {
            n
        } else {
            0
        },
    decreases n,
{
    if n > 0 {
        lemma_outside_all(buf, n - 1, all);
    }
}

/// An allocator of single frames that keeps the free frames on a stack.
///
/// Every core counts the frames it took, less those it gave back; the counters
/// wrap around, and so does their sum, which is the number of allocated frames.
/// Of frames that are allocated from the start, every core counts the same
/// share, and the first core what is left over.
pub struct ListCAS {
    offset: u64,
    len: usize,
    frames: Vec<Next>,
    local: Vec<usize>,
    list: AtomicStack,
    wraps: Ghost<int>,
}

impl ListCAS {
    /// The free frames, the one that is handed out next first.
    pub closed spec fn free(&self) -> Seq<usize> {
        self.list@
    }

    /// Number of managed frames.
    pub closed spec fn spec_frames(&self) -> nat {
        self.len as nat
    }

    /// Number of the first managed frame in the memory of the machine.
    pub closed spec fn spec_offset(&self) -> u64 {
        self.offset
    }

    /// Number of cores.
    pub closed spec fn spec_cores(&self) -> nat {
        self.local@.len()
    }

    /// Whether the allocator is consistent: the free frames form the list, a
    /// frame is outside of it if and only if it is allocated, and the counters
    /// of the cores add up to the number of allocated frames.
    pub closed spec fn wf(&self) -> bool {
        &&& self.len > 0
        &&& self.frames@.len() == self.len
        &&& self.local@.len() > 0
        &&& (self.offset + self.len) * 4096 <= u64::MAX
        &&& self.list.wf(self.frames@)
        &&& forall|i: int|
            0 <= i < self.len && #[trigger] self.frames@[i] != Next::Outside ==> exists|k: int|
                0 <= k < self.list@.len() && #[trigger] self.list@[k] == i
        &&& self.list@.len() + outside(self.frames@, self.len as int) == self.len
        &&& sum_counters(self.local@, self.local@.len() as int) == (self.len - self.list@.len())
            + self.wraps@ * (usize::MAX + 1)
    }

    /// The free frames are frames of the allocator, each once; so there are at
    /// most as many as frames.
    pub proof fn lemma_free(&self, k: int)
        requires
            self.wf(),
            0 <= k < self.free().len(),
        ensures
            self.free()[k] < self.spec_frames(),
            self.free().len() <= self.spec_frames(),
            forall|j: int| 0 <= j < self.free().len() && j != k ==> self.free()[j] != self.free()[k],
    {
        self.list.lemma_inside(self.frames@, k);
    }

    /// Creates an allocator for `cores` cores over the `len` frames at address
    /// `base`, all free or all allocated.
    pub fn new(cores: usize, base: u64, len: usize, free_all: bool) -> (r: Result<Self, Error>)
        requires
            base + len * 4096 <= u64::MAX,
        ensures
            match r {
                Ok(a) => {
                    &&& a.wf()
                    &&& a.spec_frames() == len
                    &&& a.spec_offset() == base / 4096
                    &&& a.spec_cores() == cores
                    &&& a.free() == if free_all {
                        Seq::new(len as nat, |i: int| i as usize)
                    } else {
                        Seq::<usize>::empty()
                    }
                },
                Err(e) => e == Error::Memory && (cores == 0 || len < cores * MIN_PAGES),
            },
    {
        if cores == 0 || len / MIN_PAGES < cores {
            assert(cores == 0 || len < cores * MIN_PAGES) by (nonlinear_arith)
                requires
                    cores == 0 || len / 262144 < cores,
                    MIN_PAGES == 262144,
            ;
            return Err(Error::Memory);
        }
        assert(len >= cores * MIN_PAGES && len > 0) by (nonlinear_arith)
            requires
                cores > 0,
                len / 262144 >= cores,
                MIN_PAGES == 262144,
        ;
        let share: usize = if free_all {
            0
        } else {
            len / cores
        };
        let rest: usize = if free_all {
            0
        } else {
            len % cores
        };
        assert(cores * share + rest == if free_all {
            0
        } else {
            len as int
        }) by (nonlinear_arith)
            requires
                cores > 0,
                free_all ==> share == 0 && rest == 0,
                !free_all ==> share == len / cores && rest == len % cores,
        ;
        let mut local: Vec<usize> = Vec::new();
        let mut c: usize = 0;
        while c < cores
            invariant
                c <= cores,
                local@.len() == c,
                cores * share + rest <= len,
                cores * share + rest == if free_all {
                    0
                } else {
                    len as int
                },
                sum_counters(local@, c as int) == if c == 0 {
                    0
                } else {
                    c * share + rest
                },
            decreases cores - c,
        {
            let ghost before = local@;
            assert(share + rest <= len && (c + 1) * share + rest <= len && (c + 1) * share == c
                * share + share) by (nonlinear_arith)
                requires
                    cores * share + rest <= len,
                    c < cores,
            ;
            let counter = if c == 0 {
                share + rest
            } else {
                share
            };
            local.push(counter);
            proof {
                lemma_sum_counters_same(local@, before, c as int);
            }
            c = c + 1;
        }
        let mut frames: Vec<Next> = Vec::new();
        let mut i: usize = 0;
        while i < len
            invariant
                i <= len,
                frames@.len() == i,
                local@.len() == cores,
                sum_counters(local@, cores as int) == if free_all {
                    0
                } else {
                    len as int
                },
                forall|k: int|
                    0 <= k < i ==> #[trigger] frames@[k] == if !free_all {
                        Next::Outside
                    } else if k + 1 < len {
                        Next::Link((k + 1) as usize)
                    } else {
                        Next::End
                    },
            decreases len - i,
        {
            let next = if !free_all {
                Next::Outside
            } else if i + 1 < len {
                Next::Link(i + 1)
            } else {
                Next::End
            };
            frames.push(next);
            i = i + 1;
        }
        let list = if free_all {
            AtomicStack::full(&frames)
        } else {
            AtomicStack::new()
        };
        let alloc = ListCAS {
            offset: base / 4096,
            len,
            frames,
            local,
            list,
            wraps: Ghost(0),
        };
        proof {
            assert((alloc.offset + alloc.len) * 4096 <= u64::MAX) by {
                assert(alloc.offset * 4096 <= base);
            }
            if free_all {
                assert forall|i: int|
                    0 <= i < len && #[trigger] alloc.frames@[i] != Next::Outside implies exists|
                    k: int,
                |
                    0 <= k < alloc.list@.len() && #[trigger] alloc.list@[k] == i by {
                    assert(alloc.list@[i] == i);
                }
            }
            lemma_outside_all(alloc.frames@, len as int, !free_all);
            assert(alloc.wraps@ == 0);
            assert(alloc.list@.len() == if free_all {
                len as int
            } else {
                0
            });
            assert(alloc.free() =~= if free_all {
                Seq::new(len as nat, |i: int| i as usize)
            } else {
                Seq::<usize>::empty()
            });
        }
        Ok(alloc)
    }

    /// Number of managed frames.
    pub fn pages(&self) -> (r: usize)
        ensures
            r == self.spec_frames(),
    {
        self.len
    }

    /// The address of frame `pfn`.
    pub fn from_pfn(&self, pfn: usize) -> (r: u64)
        requires
            self.wf(),
            pfn < self.spec_frames(),
        ensures
            r == (self.spec_offset() + pfn) * 4096,
    {
        (self.offset + pfn as u64) * 4096
    }

    /// The frame at address `addr`, if that is the address of a frame of the
    /// allocator.
    pub fn to_pfn(&self, addr: u64) -> (r: Result<usize, Error>)
        requires
            self.wf(),
        ensures
            match r {
                Ok(pfn) => pfn < self.spec_frames() && addr == (self.spec_offset() + pfn) * 4096,
                Err(e) => e == Error::Address && (addr % 4096 != 0 || addr / 4096
                    < self.spec_offset() || addr / 4096 - self.spec_offset() >= self.spec_frames()),
            },
    {
        if addr % 4096 != 0 {
            return Err(Error::Address);
        }
        let off = addr / 4096;
        if off < self.offset {
            return Err(Error::Address);
        }
        let pfn = off - self.offset;
        if pfn < self.len as u64 {
            Ok(pfn as usize)
        } else {
            Err(Error::Address)
        }
    }

    /// Allocates a frame for core `core`: the first of the free frames.
    pub fn get(&mut self, core: usize, order: usize) -> (r: Result<u64, Error>)
        requires
            old(self).wf(),
            core < old(self).spec_cores(),
        ensures
            final(self).wf(),
            final(self).spec_frames() == old(self).spec_frames(),
            final(self).spec_offset() == old(self).spec_offset(),
            final(self).spec_cores() == old(self).spec_cores(),
            match r {
                Ok(addr) => {
                    &&& order == 0
                    &&& old(self).free().len() > 0
                    &&& addr == (old(self).spec_offset() + old(self).free()[0]) * 4096
                    &&& final(self).free() == old(self).free().drop_first()
                },
                Err(e) => {
                    &&& e == Error::Memory
                    &&& order != 0 || old(self).free().len() == 0
                    &&& final(self).free() == old(self).free()
                },
            },
    {
        if order != 0 {
            return Err(Error::Memory);
        }
        let ghost frames = self.frames@;
        let ghost items = self.list@;
        match self.list.pop(&mut self.frames) {
            Some(pfn) => {
                proof {
                    old(self).list.lemma_inside(frames, 0);
                    lemma_outside_update(frames, pfn as int, Next::Outside, self.len as int);
                    assert forall|i: int|
                        0 <= i < self.len && #[trigger] self.frames@[i]
                            != Next::Outside implies exists|k: int|
                        0 <= k < self.list@.len() && #[trigger] self.list@[k] == i by {
                        assert(frames[i] != Next::Outside);
                        let k = choose|k: int| 0 <= k < items.len() && #[trigger] items[k] == i;
                        assert(k > 0);
                        assert(self.list@[k - 1] == i);
                    }
                }
                self.count(core, true);
                proof {
                    assert(self.list.wf(self.frames@));
                }
                Ok(self.from_pfn(pfn))
            },
            None => Err(Error::Memory),
        }
    }

    /// Gives the frame at address `addr` back, on behalf of core `core`.
    pub fn put(&mut self, core: usize, addr: u64, order: usize) -> (r: Result<(), Error>)
        requires
            old(self).wf(),
            core < old(self).spec_cores(),
        ensures
            final(self).wf(),
            final(self).spec_frames() == old(self).spec_frames(),
            final(self).spec_offset() == old(self).spec_offset(),
            final(self).spec_cores() == old(self).spec_cores(),
            match r {
                Ok(()) => {
                    let pfn = addr / 4096 - old(self).spec_offset();
                    &&& order == 0
                    &&& addr % 4096 == 0
                    &&& 0 <= pfn < old(self).spec_frames()
                    &&& !old(self).free().contains(pfn as usize)
                    &&& final(self).free() == seq![pfn as usize] + old(self).free()
                },
                Err(e) => {
                    &&& final(self).free() == old(self).free()
                    &&& e == if order != 0 {
                        Error::Memory
                    } else {
                        Error::Address
                    }
                    &&& order != 0 || addr % 4096 != 0 || addr / 4096 < old(self).spec_offset()
                        || addr / 4096 - old(self).spec_offset() >= old(self).spec_frames() || old(
                        self,
                    ).free().contains((addr / 4096 - old(self).spec_offset()) as usize)
                },
            },
    {
        if order != 0 {
            return Err(Error::Memory);
        }
        let pfn = match self.to_pfn(addr) {
            Ok(pfn) => pfn,
            Err(e) => {
                return Err(e);
            },
        };
        let ghost frames = self.frames@;
        let ghost items = self.list@;
        match self.frames[pfn] {
            Next::Outside => {},
            _ => {
                proof {
                    let k = choose|k: int| 0 <= k < items.len() && #[trigger] items[k] == pfn;
                    assert(items.contains(pfn));
                }
                return Err(Error::Address);
            },
        }
        proof {
            if items.contains(pfn) {
                let k = choose|k: int| 0 <= k < items.len() && items[k] == pfn;
                old(self).list.lemma_inside(frames, k);
            }
        }
        self.list.push(&mut self.frames, pfn);
        proof {
            lemma_outside_update(frames, pfn as int, self.frames@[pfn as int], self.len as int);
            assert forall|i: int|
                0 <= i < self.len && #[trigger] self.frames@[i] != Next::Outside implies exists|
                k: int,
            |
                0 <= k < self.list@.len() && #[trigger] self.list@[k] == i by {
                if i == pfn {
                    assert(self.list@[0] == i);
                } else {
                    assert(frames[i] != Next::Outside);
                    let k = choose|k: int| 0 <= k < items.len() && #[trigger] items[k] == i;
                    assert(self.list@[k + 1] == i);
                }
            }
        }
        self.count(core, false);
        Ok(())
    }

    /// Counts a frame that core `core` took, or one that it gave back.
    fn count(&mut self, core: usize, taken: bool)
        requires
            core < old(self).local@.len(),
            sum_counters(old(self).local@, old(self).local@.len() as int) == (old(self).len
                - old(self).list@.len()) + (if taken {
                -1int
            } else {
                1int
            }) + old(self).wraps@ * (usize::MAX + 1),
        ensures
            final(self).offset == old(self).offset,
            final(self).len == old(self).len,
            final(self).frames == old(self).frames,
            final(self).list == old(self).list,
            final(self).local@.len() == old(self).local@.len(),
            sum_counters(final(self).local@, final(self).local@.len() as int) == (final(self).len
                - final(self).list@.len()) + final(self).wraps@ * (usize::MAX + 1),
    {
        let counter = self.local[core];
        let next = if taken {
            counter.wrapping_add(1)
        } else {
            counter.wrapping_sub(1)
        };
        let ghost turn: int = if taken {
            if counter == usize::MAX {
                -1int
            } else {
                0int
            }
        } else {
            if counter == 0 {
                1int
            } else {
                0int
            }
        };
        proof {
            lemma_sum_counters_update(self.local@, core as int, next, self.local@.len() as int);
            let m = usize::MAX + 1;
            assert((self.wraps@ + turn) * m == self.wraps@ * m + turn * m) by (nonlinear_arith);
        }
        self.local[core] = next;
        self.wraps = Ghost(self.wraps@ + turn);
    }

    /// Number of free frames, as the counters of the cores tell it.
    pub fn dbg_free_pages(&self) -> (r: usize)
        requires
            self.wf(),
        ensures
            r == self.free().len(),
    {
        let mut total: usize = 0;
        let ghost mut turns: int = 0;
        let mut c: usize = 0;
        while c < self.local.len()
            invariant
                c <= self.local@.len(),
                total + turns * (usize::MAX + 1) == sum_counters(self.local@, c as int),
            decreases self.local@.len() - c,
        {
            let counter = self.local[c];
            proof {
                let m = usize::MAX + 1;
                if total + counter > usize::MAX {
                    assert((turns + 1) * m == turns * m + m) by (nonlinear_arith);
                    turns = turns + 1;
                }
            }
            total = total.wrapping_add(counter);
            c = c + 1;
        }
        proof {
            let m = usize::MAX + 1;
            let allocated = self.len - self.list@.len();
            assert((self.wraps@ - turns) * m == self.wraps@ * m - turns * m) by (nonlinear_arith);
            lemma_small_multiple(total - allocated, self.wraps@ - turns, m);
        }
        self.len - total
    }
}

/// Counters that agree on the first `n` places have the same sum there.
pub proof fn lemma_sum_counters_same(a: Seq<usize>, b: Seq<usize>, n: int)
    requires
        forall|i: int| 0 <= i < n ==> a[i] == b[i],
    ensures
        sum_counters(a, n) == sum_counters(b, n),
    decreases n,
{
    if n > 0 {
        lemma_sum_counters_same(a, b, n - 1);
    }
}

/// Appending to a list: the element `idx`, which is not in the list, follows its
/// last element and becomes the last.
pub proof fn lemma_chain_append(buf: Seq<Next>, start: Next, items: Seq<usize>, idx: usize)
    requires
        chain(buf, start, items),
        distinct(items),
        items.len() > 0,
        idx < buf.len(),
        forall|k: int| 0 <= k < items.len() ==> #[trigger] items[k] != idx,
    ensures
        chain(
            buf.update(idx as int, Next::End).update(items.last() as int, Next::Link(idx)),
            start,
            items.push(idx),
        ),
    decreases items.len(),
{
    let last = items.last();
    let after = buf.update(idx as int, Next::End).update(last as int, Next::Link(idx));
    let rest = items.drop_first();
    let more = items.push(idx);
    assert(more.drop_first() =~= rest.push(idx));
    assert(more[0] == items[0]);
    lemma_chain_inside(buf, start, items, items.len() - 1);
    if rest.len() == 0 {
        assert(items[0] == last);
        assert(after[last as int] == Next::Link(idx));
        let tail = rest.push(idx);
        assert(tail.drop_first() =~= Seq::<usize>::empty());
        assert(tail[0] == idx);
        assert(after[idx as int] == Next::End);
        assert(chain(after, after[idx as int], tail.drop_first()));
        assert(chain(after, Next::Link(idx), tail));
    } else {
        assert(rest.last() == last);
        assert forall|k: int| 0 <= k < rest.len() implies #[trigger] rest[k] != idx by {
            assert(rest[k] == items[k + 1]);
        }
        assert forall|a: int, b: int| 0 <= a < b < rest.len() implies rest[a] != rest[b] by {
            assert(rest[a] == items[a + 1] && rest[b] == items[b + 1]);
        }
        lemma_chain_append(buf, buf[items[0] as int], rest, idx);
        assert(items[0] != last) by {
            assert(items[items.len() - 1] == last);
        }
        assert(items[0] != idx);
        assert(after[items[0] as int] == buf[items[0] as int]);
    }
}

/// A list of indices in a buffer of links, with a first and a last element.
pub struct BufList {
    start: Option<usize>,
    end: Option<usize>,
    items: Ghost<Seq<usize>>,
}

impl View for BufList {
    type V = Seq<usize>;

    /// The indices in the list, the first first.
    closed spec fn view(&self) -> Seq<usize> {
        self.items@
    }
}

impl BufList {
    /// Whether the list is a list in `buf`, without repetition, that ends with
    /// the element it knows as its last.
    pub closed spec fn wf(&self, buf: Seq<Next>) -> bool {
        &&& chain(
            buf,
            match self.start {
                Some(i) => Next::Link(i),
                None => Next::End,
            },
            self.items@,
        )
        &&& distinct(self.items@)
        &&& self.end == if self.items@.len() > 0 {
            Some(self.items@.last())
        } else {
            None
        }
    }

    /// The indices in a list are indices of the buffer, each once.
    pub proof fn lemma_inside(&self, buf: Seq<Next>, k: int)
        requires
            self.wf(buf),
            0 <= k < self@.len(),
        ensures
            self@[k] < buf.len(),
            forall|j: int| 0 <= j < self@.len() && j != k ==> self@[j] != self@[k],
    {
        lemma_chain_inside(
            buf,
            match self.start {
                Some(i) => Next::Link(i),
                None => Next::End,
            },
            self.items@,
            k,
        );
        assert forall|j: int| 0 <= j < self@.len() && j != k implies self@[j] != self@[k] by {
            if j < k {
                assert(self.items@[j] != self.items@[k]);
            } else {
                assert(self.items@[k] != self.items@[j]);
            }
        }
    }

    /// An empty list.
    pub fn new() -> (r: Self)
        ensures
            r@.len() == 0,
            forall|buf: Seq<Next>| #[trigger] r.wf(buf),
    {
        BufList { start: None, end: None, items: Ghost(Seq::empty()) }
    }

    /// Puts the element `idx`, which is not in the list, in front of it.
    pub fn push(&mut self, buf: &mut Vec<Next>, idx: usize)
        requires
            old(self).wf(old(buf)@),
            idx < old(buf)@.len(),
            !old(self)@.contains(idx),
        ensures
            final(self).wf(final(buf)@),
            final(self)@ == seq![idx] + old(self)@,
            final(buf)@ == old(buf)@.update(idx as int, final(buf)@[idx as int]),
    {
        let ghost before = buf@;
        let ghost items = self.items@;
        let link = match self.start {
            Some(i) => Next::Link(i),
            None => Next::End,
        };
        proof {
            assert forall|k: int| 0 <= k < items.len() implies #[trigger] items[k] != idx by {
                assert(items.contains(items[k]));
            }
            lemma_chain_update(before, link, items, idx as int, link);
        }
        buf[idx] = link;
        if self.start.is_none() {
            self.end = Some(idx);
        }
        self.start = Some(idx);
        self.items = Ghost(seq![idx] + items);
        proof {
            let now = seq![idx] + items;
            assert(now.drop_first() =~= items);
            assert(buf@ == before.update(idx as int, link));
            assert forall|a: int, b: int| 0 <= a < b < now.len() implies now[a] != now[b] by {
                if a > 0 {
                    assert(now[a] == items[a - 1] && now[b] == items[b - 1]);
                } else {
                    assert(now[b] == items[b - 1]);
                }
            }
            if items.len() > 0 {
                assert(now.last() == items.last());
            }
        }
    }

    /// Puts the element `idx`, which is not in the list, behind it.
    pub fn push_back(&mut self, buf: &mut Vec<Next>, idx: usize)
        requires
            old(self).wf(old(buf)@),
            idx < old(buf)@.len(),
            !old(self)@.contains(idx),
        ensures
            final(self).wf(final(buf)@),
            final(self)@ == old(self)@.push(idx),
            final(buf)@.len() == old(buf)@.len(),
    {
        let ghost before = buf@;
        let ghost items = self.items@;
        let ghost link = match self.start {
            Some(i) => Next::Link(i),
            None => Next::End,
        };
        proof {
            assert forall|k: int| 0 <= k < items.len() implies #[trigger] items[k] != idx by {
                assert(items.contains(items[k]));
            }
            if items.len() > 0 {
                lemma_chain_append(before, link, items, idx);
                lemma_chain_inside(before, link, items, items.len() - 1);
            }
        }
        buf[idx] = Next::End;
        match self.end {
            Some(end) => {
                buf[end] = Next::Link(idx);
            },
            None => {},
        }
        self.end = Some(idx);
        if self.start.is_none() {
            self.start = Some(idx);
        }
        self.items = Ghost(items.push(idx));
        proof {
            let now = items.push(idx);
            assert forall|a: int, b: int| 0 <= a < b < now.len() implies now[a] != now[b] by {
                if b < items.len() {
                    assert(now[a] == items[a] && now[b] == items[b]);
                } else {
                    assert(now[a] == items[a]);
                }
            }
            assert(now.last() == idx);
            if items.len() == 0 {
                assert(now.drop_first() =~= items);
                assert(now[0] == idx);
                assert(buf@[idx as int] == Next::End);
                assert(chain(buf@, buf@[idx as int], now.drop_first()));
                assert(chain(buf@, Next::Link(idx), now));
            } else {
                let last = items.last();
                assert(old(self).end == Some(last));
                assert(items[items.len() - 1] != idx);
                assert(buf@ == before.update(idx as int, Next::End).update(
                    last as int,
                    Next::Link(idx),
                ));
            }
        }
    }

    /// Takes the first element from the list.
    pub fn pop(&mut self, buf: &mut Vec<Next>) -> (r: Option<usize>)
        requires
            old(self).wf(old(buf)@),
        ensures
            final(self).wf(final(buf)@),
            final(buf)@.len() == old(buf)@.len(),
            match r {
                Some(idx) => {
                    &&& old(self)@.len() > 0
                    &&& idx == old(self)@[0]
                    &&& final(self)@ == old(self)@.drop_first()
                    &&& final(buf)@ == old(buf)@.update(idx as int, Next::End)
                },
                None => old(self)@.len() == 0 && final(self)@ == old(self)@ && final(buf)@ == old(
                    buf,
                )@,
            },
    {
        let ghost before = buf@;
        let ghost items = self.items@;
        match self.start {
            Some(idx) => {
                let ghost rest = items.drop_first();
                proof {
                    assert(items.len() > 0);
                    assert forall|k: int| 0 <= k < rest.len() implies #[trigger] rest[k]
                        != idx by {
                        assert(rest[k] == items[k + 1]);
                    }
                    lemma_chain_update(before, before[idx as int], rest, idx as int, Next::End);
                    assert forall|a: int, b: int| 0 <= a < b < rest.len() implies rest[a]
                        != rest[b] by {
                        assert(rest[a] == items[a + 1] && rest[b] == items[b + 1]);
                    }
                    if rest.len() > 0 {
                        assert(rest.last() == items.last());
                        assert(before[idx as int] == Next::Link(rest[0]));
                    } else {
                        assert(before[idx as int] == Next::End);
                    }
                }
                let next = buf[idx];
                buf[idx] = Next::End;
                self.start = match next {
                    Next::Link(i) => Some(i),
                    _ => None,
                };
                if self.start.is_none() {
                    self.end = None;
                }
                self.items = Ghost(rest);
                Some(idx)
            },
            None => {
                assert(items.len() == 0);
                None
            },
        }
    }

    /// Takes all elements from the list.
    pub fn clear(&mut self, buf: &mut Vec<Next>)
        requires
            old(self).wf(old(buf)@),
        ensures
            final(self).wf(final(buf)@),
            final(self)@.len() == 0,
            final(buf)@.len() == old(buf)@.len(),
            forall|i: int|
                0 <= i < old(buf)@.len() ==> #[trigger] final(buf)@[i] == if exists|k: int|
                    0 <= k < old(self)@.len() && old(self)@[k] == i {
                    Next::End
                } else {
                    old(buf)@[i]
                },
    {
        let ghost all = self@;
        let ghost mut n: int = 0;
        loop
            invariant
                self.wf(buf@),
                buf@.len() == old(buf)@.len(),
                all == old(self)@,
                0 <= n <= all.len(),
                self@ == all.subrange(n, all.len() as int),
                forall|i: int|
                    0 <= i < buf@.len() ==> #[trigger] buf@[i] == if exists|k: int|
                        0 <= k < n && all[k] == i {
                        Next::End
                    } else {
                        old(buf)@[i]
                    },
            decreases all.len() - n,
        {
            let ghost before = buf@;
            match self.pop(buf) {
                Some(idx) => {
                    proof {
                        assert(idx == all[n]);
                        assert(self@ =~= all.subrange(n + 1, all.len() as int));
                        assert forall|i: int| 0 <= i < buf@.len() implies #[trigger] buf@[i]
                            == if exists|k: int| 0 <= k < n + 1 && all[k] == i {
                            Next::End
                        } else {
                            old(buf)@[i]
                        } by {
                            if i == idx {
                                assert(all[n] == i);
                            } else {
                                assert(buf@[i] == before[i]);
                                if exists|k: int| 0 <= k < n + 1 && all[k] == i {
                                    let k = choose|k: int| 0 <= k < n + 1 && all[k] == i;
                                    assert(k < n);
                                }
                            }
                        }
                        n = n + 1;
                    }
                },
                None => {
                    proof {
                        assert(n == all.len());
                    }
                    return ;
                },
            }
        }
    }
}

} // verus!
