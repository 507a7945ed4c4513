//! The lower allocator: it hands out and takes back frames within one subtree.
//!
//! Every chunk of 512 frames has a bitfield and an entry. The entry counts the
//! zero bits of the bitfield, or marks the chunk as one huge frame; the bitfield
//! of a huge frame is empty.
use vstd::prelude::*;
use crate::bitfield::{
    cyc,
    cyc_pos,
    lemma_whole_word,
    lemma_seq_zeros_bound,
    lemma_seq_zeros_prefix,
    lemma_seq_zeros_extremes,
    seq_bit,
    seq_first_fit,
    seq_no_fit,
    seq_run_free,
    seq_run_full,
    seq_zeros,
    Bitfield,
};
use crate::entry::{Child, ChildPair, CHILD_HUGE};
use crate::util::{
    div_ceil,
    lemma_mod_mul,
    lemma_mod_sum,
    lemma_pow2_divides,
    lemma_pow2_values,
    lemma_pow2_monotonic,
    pow2,
    pow2_usize,
    spec_div_ceil,
};
use crate::Error;

verus! {

/// Number of chunks of a subtree.
pub const HP: usize = 32;

/// Number of frames of a chunk.
pub const CHUNK: usize = 512;

/// Number of frames of a subtree.
pub const N: usize = 16384;

/// Order of a chunk, which can be allocated as one huge frame.
pub const HUGE_ORDER: usize = 9;

/// Largest order: two neighbouring chunks.
pub const MAX_ORDER: usize = 10;

/// How a new allocator treats the state that the memory may hold.
#[derive(Debug, Clone, Copy, PartialEq, Eq, Structural)]
pub enum Init {
    /// The bookkeeping lives outside the managed memory and starts afresh.
    Volatile,
    /// The bookkeeping lives at the end of the managed memory and starts afresh.
    Overwrite,
    /// The bookkeeping lives at the end of the managed memory and is taken over.
    Recover,
}

/// What a lower allocator holds, as plain values.
pub struct LowerView {
    /// Number of managed frames.
    pub frames: nat,
    /// The words of the bitfield of every chunk.
    pub fields: Seq<Seq<u64>>,
    /// The entry of every chunk, for whole subtrees.
    pub children: Seq<Child>,
}

/// Sum of the free counters of the entries `lo .. hi`.
pub open spec fn sum_free(children: Seq<Child>, lo: int, hi: int) -> nat
    decreases hi - lo,
{
    if hi <= lo {
        0
    } else {
        sum_free(children, lo, hi - 1) + children[hi - 1].spec_free()
    }
}

/// Number of entries among the first `n` that count a whole chunk as free.
pub open spec fn count_full(children: Seq<Child>, n: int) -> nat
    decreases n,
{
    if n <= 0 {
        0
    } else {
        count_full(children, n - 1) + if children[n - 1].spec_free() == CHUNK {
            1nat
        } else {
            0nat
        }
    }
}

/// A sum of counters splits at any index in between.
pub proof fn lemma_sum_free_split(children: Seq<Child>, lo: int, mid: int, hi: int)
    requires
        lo <= mid <= hi,
    ensures
        sum_free(children, lo, hi) == sum_free(children, lo, mid) + sum_free(children, mid, hi),
    decreases hi - mid,
{
    if hi > mid {
        lemma_sum_free_split(children, lo, mid, hi - 1);
    }
}

/// Entries outside `lo .. hi` do not count in the sum over `lo .. hi`.
pub proof fn lemma_sum_free_same(a: Seq<Child>, b: Seq<Child>, lo: int, hi: int)
    requires
        forall|c: int| lo <= c < hi ==> #[trigger] a[c].spec_free() == b[c].spec_free(),
    ensures
        sum_free(a, lo, hi) == sum_free(b, lo, hi),
    decreases hi - lo,
{
    if hi > lo {
        lemma_sum_free_same(a, b, lo, hi - 1);
    }
}

/// Replacing the entry `c` changes a sum that covers `c` by the difference of the
/// two counters, and leaves every other sum as it was.
pub proof fn lemma_sum_free_update(children: Seq<Child>, c: int, e: Child, lo: int, hi: int)
    requires
        0 <= c < children.len(),
        0 <= lo <= hi <= children.len(),
    ensures
        lo <= c < hi ==> sum_free(children.update(c, e), lo, hi) + children[c].spec_free()
            == sum_free(children, lo, hi) + e.spec_free(),
        !(lo <= c < hi) ==> sum_free(children.update(c, e), lo, hi) == sum_free(children, lo, hi),
{
    let after = children.update(c, e);
    if lo <= c < hi {
        lemma_sum_free_split(children, lo, c, hi);
        lemma_sum_free_split(children, c, c + 1, hi);
        lemma_sum_free_split(after, lo, c, hi);
        lemma_sum_free_split(after, c, c + 1, hi);
        lemma_sum_free_same(children, after, lo, c);
        lemma_sum_free_same(children, after, c + 1, hi);
        assert(sum_free(children, c, c + 1) == children[c].spec_free()) by {
            assert(sum_free(children, c, c) == 0);
        }
        assert(sum_free(after, c, c + 1) == e.spec_free()) by {
            assert(sum_free(after, c, c) == 0);
        }
    } else {
        lemma_sum_free_same(children, after, lo, hi);
    }
}

impl LowerView {
    /// Number of chunks that have a bitfield.
    pub open spec fn chunks(self) -> int {
        spec_div_ceil(self.frames as int, CHUNK as int)
    }

    /// Number of subtrees.
    pub open spec fn trees(self) -> int {
        spec_div_ceil(self.frames as int, N as int)
    }

    /// Whether the vectors have the lengths that the number of frames asks for.
    pub open spec fn shape(self) -> bool {
        &&& self.frames > 0
        &&& self.fields.len() == self.chunks()
        &&& self.children.len() == self.trees() * HP
        &&& forall|c: int| 0 <= c < self.fields.len() ==> (#[trigger] self.fields[c]).len() == 8
    }

    /// Whether the bits of chunk `c` that stand for no frame of the region are set,
    /// and whether a chunk without a bitfield has no free frame.
    pub open spec fn chunk_bounded(self, c: int) -> bool {
        if c < self.fields.len() {
            forall|k: int|
                0 <= k < CHUNK && c * CHUNK + k >= self.frames ==> #[trigger] seq_bit(
                    self.fields[c],
                    k,
                )
        } else {
            self.children[c] == (Child { count: 0 })
        }
    }

    /// Whether the entry of chunk `c` agrees with its bitfield: it counts the zero
    /// bits, or marks a huge frame over an empty bitfield.
    pub open spec fn chunk_counted(self, c: int) -> bool {
        c < self.fields.len() ==> {
            let e = self.children[c];
            if e.spec_allocated() {
                seq_zeros(self.fields[c]) == CHUNK
            } else {
                e.count == seq_zeros(self.fields[c])
            }
        }
    }

    /// Whether the allocator is consistent.
    pub open spec fn wf(self) -> bool {
        &&& self.shape()
        &&& forall|c: int| 0 <= c < self.children.len() ==> #[trigger] self.chunk_bounded(c)
        &&& forall|c: int| 0 <= c < self.children.len() ==> #[trigger] self.chunk_counted(c)
    }

    /// Whether chunk `c` is allocated as one huge frame.
    pub open spec fn huge(self, c: int) -> bool {
        self.children[c].spec_allocated()
    }

    /// Whether frame `f` is allocated.
    pub open spec fn allocated(self, f: int) -> bool {
        self.huge(f / (CHUNK as int)) || seq_bit(self.fields[f / (CHUNK as int)], f % (CHUNK as int))
    }

    /// Number of free frames in subtree `t`, as its entries count them.
    pub open spec fn tree_free(self, t: int) -> nat {
        sum_free(self.children, t * HP, t * HP + HP)
    }

    /// Number of free frames, as the entries count them.
    pub open spec fn free_frames(self) -> nat {
        sum_free(self.children, 0, self.children.len() as int)
    }

    /// Number of places that a search for `order` visits in a subtree: chunks, or
    /// pairs of chunks for the largest order.
    pub open spec fn slots(order: nat) -> int {
        if order == MAX_ORDER {
            HP as int / 2
        } else {
            HP as int
        }
    }

    /// The chunk at which place `s` of subtree `t` begins.
    pub open spec fn slot_chunk(t: int, order: nat, s: int) -> int {
        if order == MAX_ORDER {
            t * HP + 2 * s
        } else {
            t * HP + s
        }
    }

    /// The place of its subtree to which chunk `c` belongs.
    pub open spec fn slot_of(c: int, order: nat) -> int {
        if order == MAX_ORDER {
            (c % (HP as int)) / 2
        } else {
            c % (HP as int)
        }
    }

    /// Whether a request of `order` can be served at chunk `c`: by a free aligned
    /// run of its bitfield, by the entirely free chunk, or by it and its equally
    /// free neighbour.
    #[verifier::opaque]
    pub open spec fn candidate(self, c: int, order: nat) -> bool {
        if order < HUGE_ORDER {
            &&& !self.huge(c)
            &&& self.children[c].count >= pow2(order)
            &&& !seq_no_fit(self.fields[c], order)
        } else if order == HUGE_ORDER {
            self.children[c].spec_free() == CHUNK
        } else {
            self.children[c].spec_free() == CHUNK && self.children[c + 1].spec_free() == CHUNK
        }
    }

    /// Whether no place that the search from frame `start` visits before chunk `c`
    /// can serve a request of `order`.
    pub open spec fn searched_first(self, start: int, order: nat, c: int) -> bool {
        forall|j: int|
            0 <= j < cyc_pos(
                Self::slot_of(start / (CHUNK as int), order),
                Self::slot_of(c, order),
                Self::slots(order),
            ) ==> !self.candidate(
                Self::slot_chunk(
                    start / (N as int),
                    order,
                    #[trigger] cyc(Self::slot_of(start / (CHUNK as int), order), j, Self::slots(order)),
                ),
                order,
            )
    }

    /// Whether no place of subtree `t` can serve a request of `order`.
    pub open spec fn none_fits(self, t: int, order: nat) -> bool {
        forall|s: int|
            0 <= s < Self::slots(order) ==> !self.candidate(
                #[trigger] Self::slot_chunk(t, order, s),
                order,
            )
    }

    /// What taking the `2^order` frames at `frame` has done: `self` is the state
    /// before, `after` the state after it. Below order 9 the run is the one that
    /// the search in the bitfield of the chunk finds first from word `word` on.
    #[verifier::opaque]
    pub open spec fn took(self, after: LowerView, order: nat, frame: int, word: int) -> bool {
        let c = frame / (CHUNK as int);
        &&& frame % (pow2(order) as int) == 0
        &&& 0 <= frame
        &&& frame + pow2(order) <= self.frames
        &&& self.candidate(c, order)
        &&& order == MAX_ORDER ==> c % 2 == 0
        &&& order < HUGE_ORDER ==> seq_first_fit(
            self.fields[c],
            word,
            order,
            frame % (CHUNK as int),
        )
        &&& forall|f: int| frame <= f < frame + pow2(order) ==> !#[trigger] self.allocated(f)
        &&& forall|f: int|
            0 <= f < self.frames ==> #[trigger] after.allocated(f) == (self.allocated(f) || frame
                <= f < frame + pow2(order))
        &&& forall|d: int|
            0 <= d < self.children.len() ==> #[trigger] after.huge(d) == (self.huge(d) || (order
                >= HUGE_ORDER && frame <= d * CHUNK < frame + pow2(order)))
        &&& after.free_frames() + pow2(order) == self.free_frames()
        &&& forall|t: int|
            0 <= t < self.trees() ==> #[trigger] after.tree_free(t) + (if t == frame / (N as int) {
                pow2(order)
            } else {
                0
            }) == self.tree_free(t)
    }

    /// The word of its bitfield at which the search from frame `start` begins in
    /// chunk `c`: the word of `start` in the chunk of `start`, the first word in
    /// every other chunk.
    pub open spec fn first_word(start: int, c: int) -> int {
        if c % (HP as int) == (start / (CHUNK as int)) % (HP as int) {
            (start / 64) % 8
        } else {
            0
        }
    }

    /// What a successful `get` of `order` near frame `start` that returned `frame`
    /// has done: `self` is the state before, `after` the state after it.
    pub open spec fn got(self, after: LowerView, start: int, order: nat, frame: int) -> bool {
        &&& frame / (N as int) == start / (N as int)
        &&& self.searched_first(start, order, frame / (CHUNK as int))
        &&& self.took(after, order, frame, Self::first_word(start, frame / (CHUNK as int)))
    }

    /// Whether the `2^order` frames at `frame` can be given back: the run is
    /// aligned, lies in the region and is allocated. Orders 9 and 10 ask for huge
    /// frames; below, set bits or a huge frame are accepted.
    pub open spec fn can_put(self, frame: int, order: nat) -> bool {
        let c = frame / (CHUNK as int);
        &&& order <= MAX_ORDER
        &&& 0 <= frame
        &&& frame % (pow2(order) as int) == 0
        &&& frame + pow2(order) <= self.frames
        &&& if order == MAX_ORDER {
            self.huge(c) && self.huge(c + 1)
        } else if order == HUGE_ORDER {
            self.huge(c)
        } else {
            self.huge(c) || seq_run_full(
                self.fields[c],
                frame % (CHUNK as int),
                pow2(order) as int,
            )
        }
    }

    /// What a successful `put` of the `2^order` frames at `frame` has done: `self`
    /// is the state before, `after` the state after it.
    pub open spec fn put_done(self, after: LowerView, frame: int, order: nat) -> bool {
        &&& forall|f: int| frame <= f < frame + pow2(order) ==> #[trigger] self.allocated(f)
        &&& forall|f: int|
            0 <= f < self.frames ==> #[trigger] after.allocated(f) == (self.allocated(f) && !(frame
                <= f < frame + pow2(order)))
        &&& forall|d: int|
            0 <= d < self.children.len() ==> #[trigger] after.huge(d) == (self.huge(d) && !(d
                * CHUNK <= frame < (d + 1) * CHUNK || frame <= d * CHUNK < frame + pow2(order)))
        &&& after.free_frames() == self.free_frames() + pow2(order)
        &&& forall|t: int|
            0 <= t < self.trees() ==> #[trigger] after.tree_free(t) == self.tree_free(t) + (if t
                == frame / (N as int) {
                pow2(order)
            } else {
                0
            })
    }

    /// Whether chunk `c` can be recovered: its entry never counts more free frames
    /// than its bitfield has zero bits, and a huge frame lies entirely in the
    /// region.
    pub open spec fn chunk_recoverable(self, c: int) -> bool {
        c < self.fields.len() ==> {
            if self.huge(c) {
                (c + 1) * CHUNK <= self.frames
            } else {
                self.children[c].count <= seq_zeros(self.fields[c])
            }
        }
    }

    /// Whether the state can be recovered: it has the right shape, the bits that
    /// stand for no frame are set, and no counter is too high.
    pub open spec fn recoverable(self) -> bool {
        &&& self.shape()
        &&& forall|c: int| 0 <= c < self.children.len() ==> #[trigger] self.chunk_bounded(c)
        &&& forall|c: int| 0 <= c < self.children.len() ==> #[trigger] self.chunk_recoverable(c)
    }

    /// By how many frames the counter of chunk `c` is too low.
    pub open spec fn drift(self, c: int) -> nat {
        if c < self.fields.len() && !self.huge(c) && self.children[c].count <= seq_zeros(
            self.fields[c],
        ) {
            (seq_zeros(self.fields[c]) - self.children[c].count) as nat
        } else {
            0
        }
    }

    /// By how many frames the counters of the chunks `lo .. hi` are too low.
    pub open spec fn sum_drift(self, lo: int, hi: int) -> nat
        decreases hi - lo,
    {
        if hi <= lo {
            0
        } else {
            self.sum_drift(lo, hi - 1) + self.drift(hi - 1)
        }
    }

    /// What recovery makes of chunk `c`: the counter follows the bitfield, and the
    /// bitfield of a huge frame is emptied.
    pub open spec fn chunk_recovered(self, after: LowerView, c: int) -> bool {
        &&& after.chunk_bounded(c)
        &&& after.chunk_counted(c)
        &&& c < self.fields.len() ==> {
            &&& after.huge(c) == self.huge(c)
            &&& !self.huge(c) ==> after.fields[c] == self.fields[c]
            &&& after.children[c].spec_free() == self.children[c].spec_free() + self.drift(c)
        }
        &&& c >= self.fields.len() ==> after.children[c] == self.children[c]
    }

    /// Number of frames of subtree `t` that lie in the region.
    pub open spec fn tree_span(self, t: int) -> int {
        if self.frames - t * N < N {
            self.frames - t * N
        } else {
            N as int
        }
    }
}

/// The lower allocator.
pub struct Lower {
    begin: u64,
    len: usize,
    bitfields: Vec<Bitfield<8>>,
    children: Vec<Child>,
    persistent: bool,
}

impl View for Lower {
    type V = LowerView;

    closed spec fn view(&self) -> LowerView {
        LowerView {
            frames: self.len as nat,
            fields: Seq::new(self.bitfields.len() as nat, |c: int| self.bitfields[c]@),
            children: self.children@,
        }
    }
}

/// What changing the bitfield and the entry of one chunk does to the counters of
/// the allocator, if the chunk stays consistent and its counter grows by `delta`.
pub proof fn lemma_chunk_change(before: LowerView, after: LowerView, c: int, delta: int)
    requires
        before.wf(),
        0 <= c < before.children.len(),
        after.frames == before.frames,
        after.fields.len() == before.fields.len(),
        after.children.len() == before.children.len(),
        forall|d: int| 0 <= d < before.fields.len() && d != c ==> #[trigger] after.fields[d] == before.fields[d],
        forall|d: int|
            0 <= d < before.children.len() && d != c ==> #[trigger] after.children[d] == before.children[d],
        c < before.fields.len() ==> after.fields[c].len() == 8,
        after.chunk_bounded(c),
        after.chunk_counted(c),
        after.children[c].spec_free() == before.children[c].spec_free() + delta,
    ensures
        after.wf(),
        after.free_frames() == before.free_frames() + delta,
        forall|t: int|
            0 <= t < before.trees() ==> #[trigger] after.tree_free(t) == before.tree_free(t) + (if t
                == c / (HP as int) {
                delta
            } else {
                0
            }),
{
    assert(after.children =~= before.children.update(c, after.children[c]));
    assert forall|d: int| 0 <= d < after.children.len() implies #[trigger] after.chunk_bounded(
        d,
    ) by {
        if d != c {
            assert(before.chunk_bounded(d));
            if d < before.fields.len() {
                assert(after.fields[d] == before.fields[d]);
            }
        }
    }
    assert forall|d: int| 0 <= d < after.children.len() implies #[trigger] after.chunk_counted(
        d,
    ) by {
        if d != c {
            assert(before.chunk_counted(d));
            if d < before.fields.len() {
                assert(after.fields[d] == before.fields[d]);
            }
        }
    }
    assert forall|d: int| 0 <= d < after.fields.len() implies (#[trigger] after.fields[d]).len()
        == 8 by {
        if d != c {
            assert(after.fields[d] == before.fields[d]);
        }
    }
    lemma_sum_free_update(before.children, c, after.children[c], 0, before.children.len() as int);
    assert forall|t: int| 0 <= t < before.trees() implies #[trigger] after.tree_free(t)
        == before.tree_free(t) + (if t == c / (HP as int) {
        delta
    } else {
        0
    }) by {
        lemma_sum_free_update(before.children, c, after.children[c], t * HP, t * HP + HP);
    }
}

/// What setting the first fitting run of chunk `idx`, found from word `word` on,
/// and lowering the counter of the chunk amounts to.
pub proof fn lemma_took_small(
    before: LowerView,
    after: LowerView,
    order: nat,
    idx: int,
    off: int,
    word: int,
)
    requires
        before.wf(),
        order < HUGE_ORDER,
        0 <= idx < before.fields.len(),
        !before.huge(idx),
        before.children[idx].count >= pow2(order),
        after.frames == before.frames,
        after.children == before.children.update(
            idx,
            Child { count: (before.children[idx].count - pow2(order)) as u16 },
        ),
        after.fields.len() == before.fields.len(),
        forall|d: int|
            0 <= d < before.fields.len() && d != idx ==> #[trigger] after.fields[d] == before.fields[d],
        after.fields[idx].len() == 8,
        off % (pow2(order) as int) == 0,
        0 <= off,
        off + pow2(order) <= CHUNK,
        seq_run_free(before.fields[idx], off, pow2(order) as int),
        seq_first_fit(before.fields[idx], word, order, off),
        forall|k: int|
            0 <= k < CHUNK ==> (#[trigger] seq_bit(after.fields[idx], k)) == (seq_bit(
                before.fields[idx],
                k,
            ) || off <= k < off + pow2(order)),
        seq_zeros(after.fields[idx]) + pow2(order) == seq_zeros(before.fields[idx]),
    ensures
        after.wf(),
        before.took(after, order, idx * CHUNK + off, word),
{
    reveal(LowerView::took);
    reveal(LowerView::candidate);
    lemma_pow2_values();
    lemma_pow2_monotonic(order, 8);
    let num = pow2(order) as int;
    let frame = idx * CHUNK + off;
    let words = before.fields[idx];
    let now = after.fields[idx];
    assert(before.chunk_bounded(idx));
    assert(before.chunk_counted(idx));
    assert(after.chunk_bounded(idx)) by {
        assert forall|k: int| 0 <= k < CHUNK && idx * CHUNK + k >= after.frames implies #[trigger] seq_bit(
            now,
            k,
        ) by {
            assert(seq_bit(words, k));
        }
    }
    lemma_chunk_change(before, after, idx, -num);
    assert(frame + num <= before.frames) by {
        let k = off + num - 1;
        assert(!seq_bit(words, k));
    }
    lemma_pow2_divides(order, 9, 512);
    lemma_mod_mul(idx, 512, num);
    lemma_mod_sum(idx * 512, off, num);
    assert(frame / (CHUNK as int) == idx && frame % (CHUNK as int) == off);
    assert(frame / (N as int) == idx / (HP as int));
    assert(!seq_no_fit(words, order));
    assert forall|f: int| frame <= f < frame + num implies !#[trigger] before.allocated(f) by {
        assert(f / (CHUNK as int) == idx);
        assert(!seq_bit(words, f - idx * CHUNK));
    }
    assert forall|f: int| 0 <= f < before.frames implies #[trigger] after.allocated(f) == (
    before.allocated(f) || frame <= f < frame + num) by {
        let d = f / (CHUNK as int);
        if d == idx {
            let k = f % (CHUNK as int);
            assert(seq_bit(now, k) == (seq_bit(words, k) || off <= k < off + num));
        } else {
            assert(after.fields[d] == before.fields[d]);
        }
    }
    assert forall|d: int| 0 <= d < before.children.len() implies #[trigger] after.huge(d) == (
    before.huge(d) || (order >= HUGE_ORDER && frame <= d * CHUNK < frame + num)) by {}
}

/// What marking the entirely free chunk `c` as a huge frame amounts to.
pub proof fn lemma_mark_huge(before: LowerView, after: LowerView, c: int)
    requires
        before.wf(),
        0 <= c < before.children.len(),
        before.children[c].spec_free() == CHUNK,
        after.frames == before.frames,
        after.fields == before.fields,
        after.children == before.children.update(c, Child { count: CHILD_HUGE }),
    ensures
        after.wf(),
        c < before.fields.len(),
        (c + 1) * CHUNK <= before.frames,
        forall|f: int| c * CHUNK <= f < (c + 1) * CHUNK ==> !#[trigger] before.allocated(f),
        forall|f: int|
            0 <= f < before.frames ==> #[trigger] after.allocated(f) == (before.allocated(f) || c
                * CHUNK <= f < (c + 1) * CHUNK),
        forall|d: int|
            0 <= d < before.children.len() ==> #[trigger] after.huge(d) == (before.huge(d) || d
                == c),
        after.free_frames() + CHUNK == before.free_frames(),
        forall|t: int|
            0 <= t < before.trees() ==> #[trigger] after.tree_free(t) + (if t == c / (HP as int) {
                CHUNK as int
            } else {
                0
            }) == before.tree_free(t),
{
    assert(before.chunk_bounded(c));
    assert(before.chunk_counted(c));
    let words = before.fields[c];
    lemma_seq_zeros_extremes(words);
    assert forall|k: int| 0 <= k < CHUNK implies !#[trigger] seq_bit(words, k) by {
        lemma_whole_word(words, k / 64);
    }
    assert((c + 1) * CHUNK <= before.frames) by {
        assert(!seq_bit(words, 511));
    }
    lemma_chunk_change(before, after, c, -(CHUNK as int));
    assert forall|f: int| c * CHUNK <= f < (c + 1) * CHUNK implies !#[trigger] before.allocated(
        f,
    ) by {
        assert(f / (CHUNK as int) == c);
        assert(!seq_bit(words, f % (CHUNK as int)));
    }
    assert forall|f: int| 0 <= f < before.frames implies #[trigger] after.allocated(f) == (
    before.allocated(f) || c * CHUNK <= f < (c + 1) * CHUNK) by {
        let d = f / (CHUNK as int);
        if d == c {
        } else {
            assert(after.children[d] == before.children[d]);
        }
    }
}

/// What turning the huge frame of chunk `c` back into a free chunk amounts to.
pub proof fn lemma_unmark_huge(before: LowerView, after: LowerView, c: int)
    requires
        before.wf(),
        0 <= c < before.children.len(),
        before.huge(c),
        after.frames == before.frames,
        after.fields == before.fields,
        after.children == before.children.update(c, Child { count: CHUNK as u16 }),
    ensures
        after.wf(),
        c < before.fields.len(),
        (c + 1) * CHUNK <= before.frames,
        forall|f: int| c * CHUNK <= f < (c + 1) * CHUNK ==> #[trigger] before.allocated(f),
        forall|f: int|
            0 <= f < before.frames ==> #[trigger] after.allocated(f) == (before.allocated(f) && !(c
                * CHUNK <= f < (c + 1) * CHUNK)),
        forall|d: int|
            0 <= d < before.children.len() ==> #[trigger] after.huge(d) == (before.huge(d) && d
                != c),
        after.free_frames() == before.free_frames() + CHUNK,
        forall|t: int|
            0 <= t < before.trees() ==> #[trigger] after.tree_free(t) == before.tree_free(t) + (if t
                == c / (HP as int) {
                CHUNK as int
            } else {
                0
            }),
{
    assert(before.chunk_bounded(c));
    assert(before.chunk_counted(c));
    let words = before.fields[c];
    lemma_seq_zeros_extremes(words);
    assert forall|k: int| 0 <= k < CHUNK implies !#[trigger] seq_bit(words, k) by {
        lemma_whole_word(words, k / 64);
    }
    assert((c + 1) * CHUNK <= before.frames) by {
        assert(!seq_bit(words, 511));
    }
    lemma_chunk_change(before, after, c, CHUNK as int);
    assert forall|f: int| c * CHUNK <= f < (c + 1) * CHUNK implies #[trigger] before.allocated(
        f,
    ) by {
        assert(f / (CHUNK as int) == c);
    }
    assert forall|f: int| 0 <= f < before.frames implies #[trigger] after.allocated(f) == (
    before.allocated(f) && !(c * CHUNK <= f < (c + 1) * CHUNK)) by {
        let d = f / (CHUNK as int);
        if d == c {
            assert(!seq_bit(words, f % (CHUNK as int)));
        } else {
            assert(after.children[d] == before.children[d]);
        }
    }
}

/// What splitting the huge frame of chunk `c` into 512 allocated frames amounts
/// to: no frame changes hands.
pub proof fn lemma_split_huge(before: LowerView, after: LowerView, c: int)
    requires
        before.wf(),
        0 <= c < before.fields.len(),
        before.huge(c),
        after.frames == before.frames,
        after.fields.len() == before.fields.len(),
        forall|d: int|
            0 <= d < before.fields.len() && d != c ==> #[trigger] after.fields[d] == before.fields[d],
        after.fields[c].len() == 8,
        forall|k: int| 0 <= k < CHUNK ==> #[trigger] seq_bit(after.fields[c], k),
        seq_zeros(after.fields[c]) == 0,
        after.children == before.children.update(c, Child { count: 0 }),
    ensures
        after.wf(),
        forall|f: int| 0 <= f < before.frames ==> #[trigger] after.allocated(f) == before.allocated(f),
        forall|d: int|
            0 <= d < before.children.len() ==> #[trigger] after.huge(d) == (before.huge(d) && d
                != c),
        after.free_frames() == before.free_frames(),
        forall|t: int| 0 <= t < before.trees() ==> #[trigger] after.tree_free(t) == before.tree_free(t),
{
    lemma_chunk_change(before, after, c, 0);
    assert forall|f: int| 0 <= f < before.frames implies #[trigger] after.allocated(f)
        == before.allocated(f) by {
        let d = f / (CHUNK as int);
        if d == c {
            assert(seq_bit(after.fields[c], f % (CHUNK as int)));
        } else {
            assert(after.children[d] == before.children[d]);
            assert(after.fields[d] == before.fields[d]);
        }
    }
}

/// What clearing the full run at `frame` in the bitfield of its chunk and raising
/// the counter of the chunk amounts to.
pub proof fn lemma_put_small(before: LowerView, after: LowerView, frame: int, order: nat)
    requires
        before.wf(),
        order < HUGE_ORDER,
        0 <= frame,
        frame % (pow2(order) as int) == 0,
        frame + pow2(order) <= before.frames,
        !before.huge(frame / (CHUNK as int)),
        after.frames == before.frames,
        after.fields.len() == before.fields.len(),
        forall|d: int|
            0 <= d < before.fields.len() && d != frame / (CHUNK as int) ==> #[trigger] after.fields[d]
                == before.fields[d],
        after.fields[frame / (CHUNK as int)].len() == 8,
        seq_run_full(
            before.fields[frame / (CHUNK as int)],
            frame % (CHUNK as int),
            pow2(order) as int,
        ),
        forall|k: int|
            0 <= k < CHUNK ==> (#[trigger] seq_bit(after.fields[frame / (CHUNK as int)], k)) == (
            if frame % (CHUNK as int) <= k < frame % (CHUNK as int) + pow2(order) {
                false
            } else {
                seq_bit(before.fields[frame / (CHUNK as int)], k)
            }),
        seq_zeros(after.fields[frame / (CHUNK as int)]) == seq_zeros(
            before.fields[frame / (CHUNK as int)],
        ) + pow2(order),
        after.children == before.children.update(
            frame / (CHUNK as int),
            Child { count: (before.children[frame / (CHUNK as int)].count + pow2(order)) as u16 },
        ),
    ensures
        after.wf(),
        before.can_put(frame, order),
        before.put_done(after, frame, order),
{
    lemma_pow2_values();
    lemma_pow2_monotonic(order, 8);
    let num = pow2(order) as int;
    let c = frame / (CHUNK as int);
    let off = frame % (CHUNK as int);
    let words = before.fields[c];
    let now = after.fields[c];
    assert(c < before.fields.len());
    assert(before.chunk_bounded(c));
    assert(before.chunk_counted(c));
    lemma_seq_zeros_bound(now);
    lemma_pow2_divides(order, 9, 512);
    assert(off + num <= CHUNK) by {
        lemma_mod_mul(c, 512, num);
        assert(frame == c * 512 + off);
        // off is a multiple of num below 512
        crate::util::lemma_mod_diff(frame, c * 512, num);
        crate::util::lemma_mod_fits(off, num, 512);
    }
    assert(after.chunk_bounded(c)) by {
        assert forall|k: int| 0 <= k < CHUNK && c * CHUNK + k >= after.frames implies #[trigger] seq_bit(
            now,
            k,
        ) by {
            assert(seq_bit(words, k));
        }
    }
    lemma_chunk_change(before, after, c, num);
    assert forall|f: int| frame <= f < frame + num implies #[trigger] before.allocated(f) by {
        assert(f / (CHUNK as int) == c);
        assert(seq_bit(words, f - c * CHUNK));
    }
    assert forall|f: int| 0 <= f < before.frames implies #[trigger] after.allocated(f) == (
    before.allocated(f) && !(frame <= f < frame + num)) by {
        let d = f / (CHUNK as int);
        if d == c {
            let k = f % (CHUNK as int);
            assert(seq_bit(now, k) == (if off <= k < off + num {
                false
            } else {
                seq_bit(words, k)
            }));
        } else {
            assert(after.fields[d] == before.fields[d]);
        }
    }
    assert(frame / (N as int) == c / (HP as int));
}

/// What marking the entirely free chunks `idx` and `idx + 1` as huge frames
/// amounts to; `mid` is the state between the two steps.
pub proof fn lemma_took_max(before: LowerView, mid: LowerView, after: LowerView, idx: int)
    requires
        before.wf(),
        0 <= idx,
        idx + 1 < before.children.len(),
        idx % 2 == 0,
        before.children[idx].spec_free() == CHUNK,
        before.children[idx + 1].spec_free() == CHUNK,
        mid.frames == before.frames,
        mid.fields == before.fields,
        mid.children == before.children.update(idx, Child { count: CHILD_HUGE }),
        after.frames == before.frames,
        after.fields == before.fields,
        after.children == mid.children.update(idx + 1, Child { count: CHILD_HUGE }),
    ensures
        after.wf(),
        before.took(after, MAX_ORDER as nat, idx * CHUNK, 0),
{
    reveal(LowerView::took);
    reveal(LowerView::candidate);
    lemma_pow2_values();
    lemma_mark_huge(before, mid, idx);
    lemma_mark_huge(mid, after, idx + 1);
    let frame = idx * CHUNK;
    let half = idx / 2;
    assert(idx == 2 * half);
    assert(frame == half * 1024);
    assert(frame / (CHUNK as int) == idx);
    assert(frame % 1024 == 0);
    let t = idx / (HP as int);
    let r = idx % (HP as int);
    assert(idx == t * 32 + r && 0 <= r < 32);
    assert(r % 2 == 0) by {
        assert(r == 2 * (half - t * 16));
    }
    assert((idx + 1) / (HP as int) == t) by {
        assert(idx + 1 == t * 32 + (r + 1));
    }
    assert(frame / (N as int) == t) by {
        assert(frame == t * 16384 + r * 512);
    }
    assert(before.candidate(idx, MAX_ORDER as nat));
    assert forall|d: int| 0 <= d < before.children.len() implies #[trigger] after.huge(d) == (
    before.huge(d) || (frame <= d * CHUNK < frame + 1024)) by {
        assert(mid.huge(d) == (before.huge(d) || d == idx));
    }
    assert forall|f: int| frame <= f < frame + 1024 implies !#[trigger] before.allocated(f) by {
        if f >= (idx + 1) * CHUNK {
            assert(!mid.allocated(f));
            assert(mid.allocated(f) == (before.allocated(f) || idx * CHUNK <= f < (idx + 1)
                * CHUNK));
        }
    }
    assert forall|f: int| 0 <= f < before.frames implies #[trigger] after.allocated(f) == (
    before.allocated(f) || frame <= f < frame + 1024) by {
        assert(mid.allocated(f) == (before.allocated(f) || idx * CHUNK <= f < (idx + 1) * CHUNK));
    }
    assert forall|tt: int| 0 <= tt < before.trees() implies #[trigger] after.tree_free(tt) + (if tt
        == t {
        1024int
    } else {
        0
    }) == before.tree_free(tt) by {
        assert(mid.tree_free(tt) + (if tt == t {
            512int
        } else {
            0
        }) == before.tree_free(tt));
    }
}

/// What marking the entirely free chunk `idx` as a huge frame amounts to, as a
/// request of order 9.
pub proof fn lemma_took_huge(before: LowerView, after: LowerView, idx: int)
    requires
        before.wf(),
        0 <= idx < before.children.len(),
        before.children[idx].spec_free() == CHUNK,
        after.frames == before.frames,
        after.fields == before.fields,
        after.children == before.children.update(idx, Child { count: CHILD_HUGE }),
    ensures
        after.wf(),
        before.took(after, HUGE_ORDER as nat, idx * CHUNK, 0),
{
    reveal(LowerView::took);
    reveal(LowerView::candidate);
    lemma_pow2_values();
    lemma_mark_huge(before, after, idx);
    let frame = idx * CHUNK;
    assert(frame / (CHUNK as int) == idx);
    assert(frame / (N as int) == idx / (HP as int));
    assert(frame % 512 == 0);
}

/// A chunk that counts 512 free frames has no allocated frame; any other chunk
/// with a bitfield has one.
pub proof fn lemma_chunk_free(v: LowerView, c: int)
    requires
        v.wf(),
        0 <= c < v.children.len(),
    ensures
        v.children[c].spec_free() == CHUNK ==> c < v.fields.len() && (c + 1) * CHUNK <= v.frames
            && forall|k: int| 0 <= k < CHUNK ==> !#[trigger] v.allocated(c * CHUNK + k),
        v.children[c].spec_free() != CHUNK && c < v.fields.len() ==> exists|k: int|
            0 <= k < CHUNK && #[trigger] v.allocated(c * CHUNK + k),
{
    assert(v.chunk_bounded(c));
    assert(v.chunk_counted(c));
    if c < v.fields.len() {
        let words = v.fields[c];
        lemma_seq_zeros_extremes(words);
        if v.children[c].spec_free() == CHUNK {
            assert forall|k: int| 0 <= k < CHUNK implies !#[trigger] seq_bit(words, k) by {
                lemma_whole_word(words, k / 64);
            }
            assert(!seq_bit(words, 511));
            assert forall|k: int| 0 <= k < CHUNK implies !#[trigger] v.allocated(c * CHUNK + k) by {
                assert((c * CHUNK + k) / (CHUNK as int) == c);
                assert((c * CHUNK + k) % (CHUNK as int) == k);
                assert(!seq_bit(words, k));
            }
        } else if v.huge(c) {
            assert(v.allocated(c * CHUNK + 0)) by {
                assert((c * CHUNK) / (CHUNK as int) == c);
            }
        } else {
            let w = choose|w: int| 0 <= w < words.len() && #[trigger] words[w] != 0;
            lemma_whole_word(words, w);
            let k = choose|k: int| w * 64 <= k < w * 64 + 64 && #[trigger] seq_bit(words, k);
            assert((c * CHUNK + k) / (CHUNK as int) == c);
            assert((c * CHUNK + k) % (CHUNK as int) == k);
            assert(v.allocated(c * CHUNK + k));
        }
    }
}

/// The free frames of a subtree fit its span, and those of the allocator its
/// region.
pub proof fn lemma_free_frames_bound(v: LowerView)
    requires
        v.wf(),
    ensures
        v.free_frames() <= v.frames,
        forall|t: int| 0 <= t < v.trees() ==> #[trigger] v.tree_free(t) <= v.tree_span(t),
{
    assert forall|c: int| 0 <= c < v.children.len() implies (#[trigger] v.children[c]).spec_free()
        <= initial_free(v.frames, c) by {
        lemma_child_bound(v, c);
    }
    lemma_sum_below_initial(v.children, v.frames, 0, v.children.len() as int);
    assert forall|t: int| 0 <= t < v.trees() implies #[trigger] v.tree_free(t) <= v.tree_span(
        t,
    ) by {
        lemma_sum_below_initial(v.children, v.frames, t * HP, t * HP + HP);
    }
}

/// The counter of a chunk is at most the number of its frames in the region.
pub proof fn lemma_child_bound(v: LowerView, c: int)
    requires
        v.wf(),
        0 <= c < v.children.len(),
    ensures
        v.children[c].spec_free() <= initial_free(v.frames, c),
{
    assert(v.chunk_bounded(c));
    assert(v.chunk_counted(c));
    if c < v.fields.len() && !v.huge(c) {
        let words = v.fields[c];
        let limit = initial_free(v.frames, c) as int;
        crate::bitfield::lemma_seq_zeros_tail(words, limit);
    }
}

/// Counters that stay below those of an entirely free region add up to at most
/// the frames of the region that the chunks cover.
pub proof fn lemma_sum_below_initial(children: Seq<Child>, frames: nat, lo: int, hi: int)
    requires
        0 <= lo <= hi <= children.len(),
        forall|c: int|
            0 <= c < children.len() ==> (#[trigger] children[c]).spec_free() <= initial_free(
                frames,
                c,
            ),
    ensures
        sum_free(children, lo, hi) + (if frames < lo * CHUNK {
            frames as int
        } else {
            lo * CHUNK
        }) <= (if frames < hi * CHUNK {
            frames as int
        } else {
            hi * CHUNK
        }),
    decreases hi - lo,
{
    if hi > lo {
        lemma_sum_below_initial(children, frames, lo, hi - 1);
    }
}

/// What recovering chunk `first + i`, after the chunks `first .. first + i`,
/// keeps and adds.
pub proof fn lemma_recover_step(
    orig: LowerView,
    before: LowerView,
    after: LowerView,
    first: int,
    i: int,
)
    requires
        0 <= first,
        0 <= i,
        first + i < orig.children.len(),
        orig.recoverable(),
        before.recoverable(),
        before.frames == orig.frames,
        after.frames == orig.frames,
        before.children.len() == orig.children.len(),
        before.fields.len() == orig.fields.len(),
        after.children.len() == orig.children.len(),
        after.fields.len() == orig.fields.len(),
        forall|c: int| first <= c < first + i ==> #[trigger] orig.chunk_recovered(before, c),
        forall|c: int|
            0 <= c < orig.children.len() && !(first <= c < first + i) ==> #[trigger] before.children[c]
                == orig.children[c],
        forall|c: int|
            0 <= c < orig.fields.len() && !(first <= c < first + i) ==> #[trigger] before.fields[c]
                == orig.fields[c],
        forall|d: int|
            0 <= d < before.children.len() && d != first + i ==> #[trigger] after.children[d]
                == before.children[d],
        forall|d: int|
            0 <= d < before.fields.len() && d != first + i ==> #[trigger] after.fields[d]
                == before.fields[d],
        first + i < orig.fields.len() ==> after.fields[first + i].len() == 8,
        orig.chunk_recovered(after, first + i),
        sum_free(before.children, first, first + i) == sum_free(orig.children, first, first + i)
            + orig.sum_drift(first, first + i),
    ensures
        after.recoverable(),
        forall|c: int| first <= c < first + i + 1 ==> #[trigger] orig.chunk_recovered(after, c),
        forall|c: int|
            0 <= c < orig.children.len() && !(first <= c < first + i + 1) ==> #[trigger] after.children[c]
                == orig.children[c],
        forall|c: int|
            0 <= c < orig.fields.len() && !(first <= c < first + i + 1) ==> #[trigger] after.fields[c]
                == orig.fields[c],
        sum_free(after.children, first, first + i + 1) == sum_free(
            orig.children,
            first,
            first + i + 1,
        ) + orig.sum_drift(first, first + i + 1),
        sum_free(after.children, first, first + i + 1) == sum_free(
            before.children,
            first,
            first + i,
        ) + after.children[first + i].spec_free(),
        after.children[first + i].spec_free() <= CHUNK,
{
    let c = first + i;
    assert(orig.chunk_bounded(c));
    assert(orig.chunk_recoverable(c));
    assert forall|d: int| 0 <= d < after.fields.len() implies (#[trigger] after.fields[d]).len()
        == 8 by {
        if d != c {
            assert(after.fields[d] == before.fields[d]);
        }
    }
    assert forall|d: int| 0 <= d < after.children.len() implies #[trigger] after.chunk_bounded(
        d,
    ) by {
        if d != c {
            assert(before.chunk_bounded(d));
            assert(after.children[d] == before.children[d]);
            if d < before.fields.len() {
                assert(after.fields[d] == before.fields[d]);
            }
        }
    }
    assert forall|d: int| 0 <= d < after.children.len() implies #[trigger] after.chunk_recoverable(
        d,
    ) by {
        if d != c {
            assert(before.chunk_recoverable(d));
            assert(after.children[d] == before.children[d]);
            if d < before.fields.len() {
                assert(after.fields[d] == before.fields[d]);
            }
        } else if c < after.fields.len() {
            assert(after.chunk_counted(c));
            lemma_seq_zeros_bound(after.fields[c]);
        }
    }
    assert forall|d: int| first <= d < first + i + 1 implies #[trigger] orig.chunk_recovered(
        after,
        d,
    ) by {
        if d != c {
            assert(orig.chunk_recovered(before, d));
            assert(after.children[d] == before.children[d]);
            if d < before.fields.len() {
                assert(after.fields[d] == before.fields[d]);
            }
        }
    }
    lemma_sum_free_same(before.children, after.children, first, first + i);
    if c < after.fields.len() {
        lemma_seq_zeros_bound(after.fields[c]);
        assert(after.chunk_counted(c));
    }
}

/// From order 9 on, what was taken does not depend on a word of a bitfield.
pub proof fn lemma_took_word(before: LowerView, after: LowerView, order: nat, frame: int, word: int)
    requires
        order >= HUGE_ORDER,
        before.took(after, order, frame, 0),
    ensures
        before.took(after, order, frame, word),
{
    reveal(LowerView::took);
}

/// A frame that was taken at the `j`-th place of the search from frame `start`,
/// after all places before it had been refused, is what `get` promises.
pub proof fn lemma_got(
    before: LowerView,
    after: LowerView,
    start: int,
    order: nat,
    frame: int,
    j: int,
    word: int,
)
    requires
        0 <= start,
        order <= MAX_ORDER,
        0 <= j < LowerView::slots(order),
        ({
            let offset = LowerView::slot_of(start / (CHUNK as int), order);
            let i = cyc(offset, j, LowerView::slots(order));
            let c = LowerView::slot_chunk(start / (N as int), order, i);
            &&& frame / (CHUNK as int) == c
            &&& 0 <= frame - c * CHUNK < CHUNK
            &&& forall|jj: int|
                0 <= jj < j ==> !before.candidate(
                    LowerView::slot_chunk(
                        start / (N as int),
                        order,
                        #[trigger] cyc(offset, jj, LowerView::slots(order)),
                    ),
                    order,
                )
        }),
        order < HUGE_ORDER ==> word == if j == 0 {
            (start / 64) % 8
        } else {
            0
        },
        order >= HUGE_ORDER ==> word == 0,
        before.took(after, order, frame, word),
    ensures
        before.got(after, start, order, frame),
{
    let t = start / (N as int);
    let slots = LowerView::slots(order);
    let offset = LowerView::slot_of(start / (CHUNK as int), order);
    let i = cyc(offset, j, slots);
    let c = LowerView::slot_chunk(t, order, i);
    assert(0 <= offset < slots);
    lemma_slot(t, order, i, frame - c * CHUNK);
    assert(cyc_pos(offset, i, slots) == j);
    assert(before.searched_first(start, order, c));
    if order >= HUGE_ORDER {
        lemma_took_word(before, after, order, frame, LowerView::first_word(start, c));
    } else {
        assert((c % (HP as int) == (start / (CHUNK as int)) % (HP as int)) == (j == 0));
    }
}

/// If every place of the search from frame `start` was refused, none fits.
pub proof fn lemma_none_fits(before: LowerView, start: int, order: nat)
    requires
        0 <= start,
        order <= MAX_ORDER,
        forall|jj: int|
            0 <= jj < LowerView::slots(order) ==> !before.candidate(
                LowerView::slot_chunk(
                    start / (N as int),
                    order,
                    #[trigger] cyc(
                        LowerView::slot_of(start / (CHUNK as int), order),
                        jj,
                        LowerView::slots(order),
                    ),
                ),
                order,
            ),
    ensures
        before.none_fits(start / (N as int), order),
{
    let slots = LowerView::slots(order);
    let offset = LowerView::slot_of(start / (CHUNK as int), order);
    assert(0 <= offset < slots);
    assert forall|s: int| 0 <= s < slots implies !before.candidate(
        #[trigger] LowerView::slot_chunk(start / (N as int), order, s),
        order,
    ) by {
        let jj = cyc_pos(offset, s, slots);
        assert(cyc(offset, jj, slots) == s);
    }
}

/// The drift of the chunks `lo .. hi` splits at any index in between.
pub proof fn lemma_sum_drift_split(v: LowerView, lo: int, mid: int, hi: int)
    requires
        lo <= mid <= hi,
    ensures
        v.sum_drift(lo, hi) == v.sum_drift(lo, mid) + v.sum_drift(mid, hi),
    decreases hi - mid,
{
    if hi > mid {
        lemma_sum_drift_split(v, lo, mid, hi - 1);
    }
}

/// The drift of the chunks `lo .. hi` depends on the entries and bitfields of
/// these chunks alone.
pub proof fn lemma_sum_drift_same(a: LowerView, b: LowerView, lo: int, hi: int)
    requires
        0 <= lo,
        a.fields.len() == b.fields.len(),
        forall|c: int| lo <= c < hi ==> #[trigger] a.children[c] == b.children[c],
        forall|c: int| lo <= c < hi && c < a.fields.len() ==> #[trigger] a.fields[c] == b.fields[c],
    ensures
        a.sum_drift(lo, hi) == b.sum_drift(lo, hi),
    decreases hi - lo,
{
    if hi > lo {
        lemma_sum_drift_same(a, b, lo, hi - 1);
        assert(a.children[hi - 1] == b.children[hi - 1]);
        if hi - 1 < a.fields.len() {
            assert(a.fields[hi - 1] == b.fields[hi - 1]);
        }
    }
}

/// A consistent state has no drift.
pub proof fn lemma_no_drift(v: LowerView, lo: int, hi: int)
    requires
        0 <= lo <= hi <= v.children.len(),
        forall|c: int| lo <= c < hi ==> #[trigger] v.chunk_counted(c),
    ensures
        v.sum_drift(lo, hi) == 0,
    decreases hi - lo,
{
    if hi > lo {
        lemma_no_drift(v, lo, hi - 1);
        assert(v.chunk_counted(hi - 1));
    }
}

/// An aligned run of 1024 frames in the region covers two chunks that have
/// entries.
pub proof fn lemma_pair_in_range(v: LowerView, frame: int)
    requires
        v.shape(),
        0 <= frame,
        frame % 1024 == 0,
        frame + 1024 <= v.frames,
    ensures
        frame / (CHUNK as int) + 1 < v.children.len(),
        frame / (CHUNK as int) + 1 < v.fields.len(),
        (frame / (CHUNK as int)) % 2 == 0,
        frame == (frame / (CHUNK as int)) * CHUNK,
        pow2(MAX_ORDER as nat) == 1024,
{
    lemma_pow2_values();
    let c = frame / (CHUNK as int);
    let h = frame / 1024;
    assert(frame == h * 1024);
    assert(c == 2 * h);
    assert((c + 2) * 512 <= v.frames);
    assert(c + 2 <= v.chunks());
    assert(v.chunks() <= v.trees() * 32);
}

/// What turning the huge frames of the chunks `c` and `c + 1` back into free
/// chunks amounts to; `mid` is the state between the two steps.
pub proof fn lemma_put_max(before: LowerView, mid: LowerView, after: LowerView, c: int)
    requires
        before.wf(),
        0 <= c,
        c % 2 == 0,
        c + 1 < before.children.len(),
        (c + 2) * CHUNK <= before.frames,
        before.huge(c),
        before.huge(c + 1),
        mid.frames == before.frames,
        mid.fields == before.fields,
        mid.children == before.children.update(c, Child { count: CHUNK as u16 }),
        after.frames == before.frames,
        after.fields == before.fields,
        after.children == mid.children.update(c + 1, Child { count: CHUNK as u16 }),
    ensures
        after.wf(),
        before.can_put(c * CHUNK, MAX_ORDER as nat),
        before.put_done(after, c * CHUNK, MAX_ORDER as nat),
{
    lemma_pow2_values();
    let frame = c * CHUNK;
    let h = c / 2;
    assert(c == 2 * h);
    assert(frame == h * 1024);
    assert(frame % 1024 == 0);
    assert(frame / (CHUNK as int) == c);
    lemma_unmark_huge(before, mid, c);
    lemma_unmark_huge(mid, after, c + 1);
    let t = c / (HP as int);
    let r = c % (HP as int);
    assert(c == t * 32 + r && 0 <= r < 32);
    assert(r % 2 == 0) by {
        assert(r == 2 * (h - t * 16));
    }
    assert((c + 1) / (HP as int) == t) by {
        assert(c + 1 == t * 32 + (r + 1));
    }
    assert(frame / (N as int) == t) by {
        assert(frame == t * 16384 + r * 512);
    }
    assert forall|f: int| frame <= f < frame + 1024 implies #[trigger] before.allocated(f) by {
        if f >= (c + 1) * CHUNK {
            assert(f / (CHUNK as int) == c + 1);
        } else {
            assert(f / (CHUNK as int) == c);
        }
    }
    assert forall|f: int| 0 <= f < before.frames implies #[trigger] after.allocated(f) == (
    before.allocated(f) && !(frame <= f < frame + 1024)) by {
        assert(mid.allocated(f) == (before.allocated(f) && !(c * CHUNK <= f < (c + 1) * CHUNK)));
    }
    assert forall|d: int| 0 <= d < before.children.len() implies #[trigger] after.huge(d) == (
    before.huge(d) && !(d * CHUNK <= frame < (d + 1) * CHUNK || frame <= d * CHUNK < frame
        + 1024)) by {
        assert(mid.huge(d) == (before.huge(d) && d != c));
    }
    assert forall|tt: int| 0 <= tt < before.trees() implies #[trigger] after.tree_free(tt)
        == before.tree_free(tt) + (if tt == t {
        1024int
    } else {
        0
    }) by {
        assert(mid.tree_free(tt) == before.tree_free(tt) + (if tt == t {
            512int
        } else {
            0
        }));
    }
}

/// A chunk of a subtree whose free frames are all the frames it has in the
/// region counts all of its frames in the region as free.
pub proof fn lemma_free_tree_chunk(v: LowerView, t: int, c: int)
    requires
        v.wf(),
        0 <= t < v.trees(),
        v.tree_free(t) == v.tree_span(t),
        t * HP <= c < t * HP + HP,
    ensures
        v.children[c].spec_free() == initial_free(v.frames, c),
{
    let lo = t * HP;
    let hi = t * HP + HP;
    assert forall|d: int| 0 <= d < v.children.len() implies (#[trigger] v.children[d]).spec_free()
        <= initial_free(v.frames, d) by {
        lemma_child_bound(v, d);
    }
    lemma_sum_free_split(v.children, lo, c, hi);
    lemma_sum_free_split(v.children, c, c + 1, hi);
    lemma_sum_below_initial(v.children, v.frames, lo, c);
    lemma_sum_below_initial(v.children, v.frames, c + 1, hi);
    assert(sum_free(v.children, c, c + 1) == v.children[c].spec_free()) by {
        assert(sum_free(v.children, c, c) == 0);
    }
}

/// A subtree whose free frames are all the frames it has in the region, at
/// least 1024, can serve a request of every order.
pub proof fn lemma_free_tree_fits(v: LowerView, t: int, order: nat)
    requires
        v.wf(),
        0 <= t < v.trees(),
        v.tree_free(t) == v.tree_span(t),
        v.tree_span(t) >= 1024,
        order <= MAX_ORDER,
    ensures
        !v.none_fits(t, order),
{
    reveal(LowerView::candidate);
    lemma_pow2_values();
    lemma_pow2_monotonic(order, 10);
    let c = t * HP;
    lemma_free_tree_chunk(v, t, c);
    lemma_free_tree_chunk(v, t, c + 1);
    assert(v.children[c].spec_free() == CHUNK);
    assert(v.children[c + 1].spec_free() == CHUNK);
    assert(LowerView::slot_chunk(t, order, 0) == c);
    if order < HUGE_ORDER {
        lemma_chunk_free(v, c);
        let words = v.fields[c];
        assert(v.chunk_counted(c));
        lemma_seq_zeros_extremes(words);
        assert forall|k: int| 0 <= k < CHUNK implies !#[trigger] seq_bit(words, k) by {
            lemma_whole_word(words, k / 64);
        }
        assert(seq_run_free(words, 0, pow2(order) as int));
        assert(!seq_no_fit(words, order));
    }
    assert(v.candidate(LowerView::slot_chunk(t, order, 0), order));
}

/// Where the frame at offset `off` of place `i` of subtree `t` lies.
pub proof fn lemma_slot(t: int, order: nat, i: int, off: int)
    requires
        0 <= t,
        0 <= i < LowerView::slots(order),
        0 <= off < CHUNK,
    ensures
        ({
            let c = LowerView::slot_chunk(t, order, i);
            let frame = c * CHUNK + off;
            &&& frame / (CHUNK as int) == c
            &&& frame / (N as int) == t
            &&& LowerView::slot_of(c, order) == i
            &&& c % (HP as int) == if order == MAX_ORDER {
                2 * i
            } else {
                i
            }
        }),
{
    let c = LowerView::slot_chunk(t, order, i);
    let r = c - t * 32;
    assert(0 <= r < 32);
    assert(c % 32 == r);
    assert(c * 512 + off == t * 16384 + (r * 512 + off));
}

/// The number of free frames that a chunk of an entirely free region has.
pub open spec fn initial_free(frames: nat, c: int) -> nat {
    if frames >= (c + 1) * CHUNK {
        CHUNK as nat
    } else if frames >= c * CHUNK {
        (frames - c * CHUNK) as nat
    } else {
        0
    }
}

/// The counters of an entirely free region add up to its frames.
pub proof fn lemma_sum_initial(children: Seq<Child>, frames: nat, hi: int)
    requires
        0 <= hi <= children.len(),
        forall|c: int|
            0 <= c < children.len() ==> (#[trigger] children[c]).spec_free() == initial_free(
                frames,
                c,
            ),
    ensures
        sum_free(children, 0, hi) == if frames < hi * CHUNK {
            frames
        } else {
            (hi * CHUNK) as nat
        },
    decreases hi,
{
    if hi > 0 {
        lemma_sum_initial(children, frames, hi - 1);
    }
}

/// The counters of a region without free frames add up to nothing.
pub proof fn lemma_sum_zero(children: Seq<Child>, lo: int, hi: int)
    requires
        0 <= lo <= hi <= children.len(),
        forall|c: int| 0 <= c < children.len() ==> (#[trigger] children[c]).spec_free() == 0,
    ensures
        sum_free(children, lo, hi) == 0,
    decreases hi - lo,
{
    if hi > lo {
        lemma_sum_zero(children, lo, hi - 1);
    }
}

impl Lower {
    /// Whether the allocator is consistent.
    pub open spec fn wf(&self) -> bool {
        self@.wf()
    }

    /// Marks every frame of the region as free.
    pub fn free_all(&mut self)
        requires
            old(self)@.shape(),
        ensures
            final(self)@.wf(),
            final(self)@.frames == old(self)@.frames,
            final(self).spec_begin() == old(self).spec_begin(),
            final(self).spec_persistent() == old(self).spec_persistent(),
            forall|c: int|
                0 <= c < final(self)@.children.len() ==> !(#[trigger] final(self)@.children[c]).spec_allocated()
                    && final(self)@.children[c].spec_free() == initial_free(final(self)@.frames, c),
            forall|f: int| 0 <= f < final(self)@.frames ==> !#[trigger] final(self)@.allocated(f),
            final(self)@.free_frames() == final(self)@.frames,
            forall|t: int|
                0 <= t < final(self)@.trees() ==> #[trigger] final(self)@.tree_free(t)
                    == final(self)@.tree_span(t),
    {
        let frames = self.len;
        let mut c: usize = 0;
        while c < self.children.len()
            invariant
                c <= self.children.len(),
                self@.shape(),
                frames == self.len,
                self.len == old(self).len,
                self.begin == old(self).begin,
                self.persistent == old(self).persistent,
                forall|d: int|
                    0 <= d < c ==> !(#[trigger] self.children@[d]).spec_allocated()
                        && self.children@[d].spec_free() == initial_free(frames as nat, d),
            decreases self.children.len() - c,
        {
            let free: usize = if frames / CHUNK > c {
                CHUNK
            } else if frames / CHUNK == c {
                frames % CHUNK
            } else {
                0
            };
            let ghost before = self@;
            self.children[c] = Child::new_free(free);
            assert(self@.fields =~= before.fields);
            c = c + 1;
        }
        let mut b: usize = 0;
        while b < self.bitfields.len()
            invariant
                b <= self.bitfields.len(),
                self@.shape(),
                frames == self.len,
                self.len == old(self).len,
                self.begin == old(self).begin,
                self.persistent == old(self).persistent,
                forall|d: int|
                    0 <= d < self.children.len() ==> !(#[trigger] self.children@[d]).spec_allocated()
                        && self.children@[d].spec_free() == initial_free(frames as nat, d),
                forall|d: int|
                    0 <= d < b ==> seq_zeros(#[trigger] self@.fields[d]) == initial_free(
                        frames as nat,
                        d,
                    ),
                forall|d: int, k: int|
                    0 <= d < b && 0 <= k < CHUNK ==> #[trigger] seq_bit(self@.fields[d], k) == (d
                        * CHUNK + k >= frames),
            decreases self.bitfields.len() - b,
        {
            let ghost before = self@;
            if frames / CHUNK > b {
                self.bitfields[b].fill(false);
                proof {
                    let words = self.bitfields[b as int]@;
                    lemma_seq_zeros_extremes(words);
                    assert forall|k: int| 0 <= k < CHUNK implies !#[trigger] seq_bit(words, k) by {
                        crate::bitfield::lemma_whole_word(words, k / 64);
                    }
                }
            } else {
                let end: usize = frames - b * CHUNK;
                self.bitfields[b].set(0..end, false);
                self.bitfields[b].set(end..CHUNK, true);
                proof {
                    let words = self.bitfields[b as int]@;
                    lemma_seq_zeros_prefix(words, end as int);
                }
            }
            proof {
                let after = self@;
                assert(after.fields.len() == before.fields.len());
                assert forall|d: int| 0 <= d < after.fields.len() implies (
                #[trigger] after.fields[d]).len() == 8 by {
                    if d != b {
                        assert(after.fields[d] == before.fields[d]);
                    }
                }
                assert forall|d: int| 0 <= d < b implies seq_zeros(#[trigger] after.fields[d])
                    == initial_free(frames as nat, d) by {
                    assert(after.fields[d] == before.fields[d]);
                }
                assert forall|d: int, k: int| 0 <= d < b && 0 <= k < CHUNK implies #[trigger] seq_bit(
                    after.fields[d],
                    k,
                ) == (d * CHUNK + k >= frames) by {
                    assert(after.fields[d] == before.fields[d]);
                }
            }
            b = b + 1;
        }
        proof {
            let v = self@;
            assert forall|d: int| 0 <= d < v.children.len() implies #[trigger] v.chunk_bounded(
                d,
            ) by {}
            assert forall|d: int| 0 <= d < v.children.len() implies #[trigger] v.chunk_counted(
                d,
            ) by {}
            lemma_sum_initial(v.children, v.frames, v.children.len() as int);
            assert forall|t: int| 0 <= t < v.trees() implies #[trigger] v.tree_free(t)
                == v.tree_span(t) by {
                lemma_sum_initial(v.children, v.frames, t * HP);
                lemma_sum_initial(v.children, v.frames, t * HP + HP);
                lemma_sum_free_split(v.children, 0, t * HP, t * HP + HP);
            }
        }
    }

    /// Takes `2^order` frames, of an order below 9, from chunk `idx` if its entry
    /// and its bitfield allow it. The bitfield is searched from word `word` on.
    fn take_small(&mut self, idx: usize, word: usize, order: usize) -> (r: Result<
        Option<usize>,
        Error,
    >)
        requires
            old(self).wf(),
            order < HUGE_ORDER,
            idx < old(self)@.children.len(),
        ensures
            final(self).wf(),
            final(self)@.frames == old(self)@.frames,
            final(self).spec_begin() == old(self).spec_begin(),
            final(self).spec_persistent() == old(self).spec_persistent(),
            match r {
                Ok(Some(frame)) => idx * CHUNK <= frame < idx * CHUNK + CHUNK && old(self)@.took(
                    final(self)@,
                    order as nat,
                    frame as int,
                    word as int,
                ),
                Ok(None) => final(self)@ == old(self)@ && !old(self)@.candidate(
                    idx as int,
                    order as nat,
                ),
                Err(_) => false,
            },
    {
        reveal(LowerView::candidate);
        proof {
            lemma_pow2_values();
            lemma_pow2_monotonic(order as nat, 8);
        }
        let num = pow2_usize(order);
        let ghost before = self@;
        let entry = self.children[idx];
        assert(before.chunk_bounded(idx as int));
        match entry.dec(num) {
            Some(dec) => {
                assert(idx < self.bitfields.len());
                self.children[idx] = dec;
                let ghost words = self.bitfields[idx as int]@;
                assert(words == before.fields[idx as int]);
                match self.bitfields[idx].set_first_zeros(word, order) {
                    Ok(off) => {
                        proof {
                            let after = self@;
                            let now = self.bitfields[idx as int]@;
                            assert(after.fields =~= before.fields.update(idx as int, now));
                            assert(after.children =~= before.children.update(idx as int, dec));
                            lemma_took_small(
                                before,
                                after,
                                order as nat,
                                idx as int,
                                off as int,
                                word as int,
                            );
                        }
                        Ok(Some(idx * CHUNK + off))
                    },
                    Err(_) => {
                        proof {
                            assert(before.chunk_counted(idx as int));
                            lemma_seq_zeros_bound(before.fields[idx as int]);
                        }
                        match dec.inc(CHUNK, num) {
                            Some(back) => {
                                self.children[idx] = back;
                            },
                            None => {
                                return Err(Error::Corruption);
                            },
                        }
                        proof {
                            assert(self@.children =~= before.children);
                            assert(self@.fields =~= before.fields);
                        }
                        Ok(None)
                    },
                }
            },
            None => Ok(None),
        }
    }

    /// Marks chunk `idx` as a huge frame if it is entirely free.
    fn take_huge(&mut self, idx: usize) -> (r: Option<usize>)
        requires
            old(self).wf(),
            idx < old(self)@.children.len(),
        ensures
            final(self).wf(),
            final(self)@.frames == old(self)@.frames,
            final(self).spec_begin() == old(self).spec_begin(),
            final(self).spec_persistent() == old(self).spec_persistent(),
            match r {
                Some(frame) => frame == idx * CHUNK && old(self)@.took(
                    final(self)@,
                    HUGE_ORDER as nat,
                    frame as int,
                    0,
                ),
                None => final(self)@ == old(self)@ && !old(self)@.candidate(
                    idx as int,
                    HUGE_ORDER as nat,
                ),
            },
    {
        reveal(LowerView::candidate);
        let ghost before = self@;
        match self.children[idx].mark_allocated(CHUNK) {
            Some(marked) => {
                self.children[idx] = marked;
                proof {
                    let after = self@;
                    assert(after.fields =~= before.fields);
                    lemma_took_huge(before, after, idx as int);
                    lemma_mark_huge(before, after, idx as int);
                }
                Some(idx * CHUNK)
            },
            None => None,
        }
    }

    /// Marks the chunks `idx` and `idx + 1` as huge frames if both are entirely
    /// free.
    fn take_max(&mut self, idx: usize) -> (r: Option<usize>)
        requires
            old(self).wf(),
            idx % 2 == 0,
            idx + 1 < old(self)@.children.len(),
        ensures
            final(self).wf(),
            final(self)@.frames == old(self)@.frames,
            final(self).spec_begin() == old(self).spec_begin(),
            final(self).spec_persistent() == old(self).spec_persistent(),
            match r {
                Some(frame) => frame == idx * CHUNK && old(self)@.took(
                    final(self)@,
                    MAX_ORDER as nat,
                    frame as int,
                    0,
                ),
                None => final(self)@ == old(self)@ && !old(self)@.candidate(
                    idx as int,
                    MAX_ORDER as nat,
                ),
            },
    {
        reveal(LowerView::candidate);
        let ghost before = self@;
        let pair = ChildPair(self.children[idx], self.children[idx + 1]);
        let mark = |v: Child| -> (m: Option<Child>)
            ensures
                m == v.spec_mark_allocated(CHUNK),
            { v.mark_allocated(CHUNK) };
        match pair.map(mark) {
            Some(marked) => {
                self.children[idx] = marked.0;
                let ghost mid = self@;
                self.children[idx + 1] = marked.1;
                proof {
                    let after = self@;
                    assert(mid.fields =~= before.fields);
                    assert(after.fields =~= before.fields);
                    lemma_took_max(before, mid, after, idx as int);
                    lemma_mark_huge(before, mid, idx as int);
                }
                Some(idx * CHUNK)
            },
            None => None,
        }
    }

    /// Allocates `2^order` frames in the subtree of frame `start`.
    ///
    /// Below order 9 the chunks are searched from the chunk of `start` on, around
    /// the subtree, for a free aligned run in their bitfields; in the first chunk
    /// the search starts at the word of `start`. Order 9 takes the first entirely
    /// free chunk, order 10 the first pair of entirely free chunks.
    pub fn get(&mut self, start: usize, order: usize) -> (r: Result<usize, Error>)
        requires
            old(self).wf(),
            order <= MAX_ORDER,
            start < old(self)@.frames,
        ensures
            final(self).wf(),
            final(self)@.frames == old(self)@.frames,
            final(self).spec_begin() == old(self).spec_begin(),
            final(self).spec_persistent() == old(self).spec_persistent(),
            match r {
                Ok(frame) => old(self)@.got(final(self)@, start as int, order as nat, frame as int),
                Err(e) => {
                    &&& e == Error::Memory
                    &&& final(self)@ == old(self)@
                    &&& old(self)@.none_fits(start as int / N as int, order as nat)
                },
            },
    {
        let t: usize = start / N;
        let first: usize = t * HP;
        let chunk: usize = (start / CHUNK) % HP;
        let start_word: usize = (start / 64) % 8;
        let slots: usize = if order == MAX_ORDER {
            HP / 2
        } else {
            HP
        };
        let offset: usize = if order == MAX_ORDER {
            chunk / 2
        } else {
            chunk
        };
        assert(first + HP <= self.children.len()) by {
            assert(self@.shape());
        }
        let mut j: usize = 0;
        while j < slots
            invariant
                j <= slots,
                self@ == old(self)@,
                self.begin == old(self).begin,
                self.persistent == old(self).persistent,
                self.wf(),
                order <= MAX_ORDER,
                t == start / N,
                first == t * HP,
                first + HP <= self.children.len(),
                slots == LowerView::slots(order as nat),
                offset == LowerView::slot_of(start as int / (CHUNK as int), order as nat),
                offset < slots,
                start_word == (start / 64) % 8,
                forall|jj: int|
                    0 <= jj < j ==> !old(self)@.candidate(
                        LowerView::slot_chunk(
                            start as int / (N as int),
                            order as nat,
                            #[trigger] cyc(
                                LowerView::slot_of(start as int / (CHUNK as int), order as nat),
                                jj,
                                LowerView::slots(order as nat),
                            ),
                        ),
                        order as nat,
                    ),
            decreases slots - j,
        {
            let i: usize = if j < slots - offset {
                offset + j
            } else {
                j - (slots - offset)
            };
            assert(i == cyc(offset as int, j as int, slots as int));
            let idx: usize = if order == MAX_ORDER {
                first + 2 * i
            } else {
                first + i
            };
            assert(idx == LowerView::slot_chunk(t as int, order as nat, i as int));
            let word: usize = if order < HUGE_ORDER && j == 0 {
                start_word
            } else {
                0
            };
            let found: Option<usize> = if order == MAX_ORDER {
                assert(idx % 2 == 0) by {
                    assert(idx == (t * 16 + i) * 2);
                }
                self.take_max(idx)
            } else if order == HUGE_ORDER {
                self.take_huge(idx)
            } else {
                match self.take_small(idx, word, order) {
                    Ok(found) => found,
                    Err(e) => {
                        return Err(e);
                    },
                }
            };
            match found {
                Some(frame) => {
                    proof {
                        lemma_got(
                            old(self)@,
                            self@,
                            start as int,
                            order as nat,
                            frame as int,
                            j as int,
                            word as int,
                        );
                    }
                    return Ok(frame);
                },
                None => {},
            }
            j = j + 1;
        }
        proof {
            lemma_none_fits(old(self)@, start as int, order as nat);
        }
        Err(Error::Memory)
    }

    /// Gives back a run of an order below 9 whose chunk is no huge frame: clears
    /// its bits, then raises the counter of the chunk.
    fn put_small(&mut self, frame: usize, order: usize) -> (r: Result<(), Error>)
        requires
            old(self).wf(),
            order < HUGE_ORDER,
            frame as int % pow2(order as nat) as int == 0,
            frame + pow2(order as nat) <= old(self)@.frames,
            !old(self)@.huge(frame as int / CHUNK as int),
        ensures
            final(self).wf(),
            final(self)@.frames == old(self)@.frames,
            final(self).spec_begin() == old(self).spec_begin(),
            final(self).spec_persistent() == old(self).spec_persistent(),
            match r {
                Ok(()) => {
                    &&& old(self)@.can_put(frame as int, order as nat)
                    &&& old(self)@.put_done(final(self)@, frame as int, order as nat)
                },
                Err(e) => {
                    &&& e == Error::Address
                    &&& !old(self)@.can_put(frame as int, order as nat)
                    &&& final(self)@ == old(self)@
                },
            },
    {
        proof {
            lemma_pow2_values();
            lemma_pow2_monotonic(order as nat, 8);
            lemma_pow2_divides(order as nat, 9, 512);
        }
        let num = pow2_usize(order);
        let c: usize = frame / CHUNK;
        let off: usize = frame % CHUNK;
        let ghost before = self@;
        proof {
            assert(before.chunk_bounded(c as int));
            assert(before.chunk_counted(c as int));
            lemma_mod_mul(c as int, 512, num as int);
            crate::util::lemma_mod_diff(frame as int, c * 512, num as int);
            crate::util::lemma_mod_fits(off as int, num as int, 512);
        }
        let ghost words = self.bitfields[c as int]@;
        match self.bitfields[c].toggle(off, order, true) {
            Ok(()) => {},
            Err(_) => {
                proof {
                    assert(self@.fields =~= before.fields);
                }
                return Err(Error::Address);
            },
        }
        proof {
            self.bitfields[c as int].lemma_view_len();
            lemma_seq_zeros_bound(self.bitfields[c as int]@);
        }
        match self.children[c].inc(CHUNK, num) {
            Some(entry) => {
                self.children[c] = entry;
            },
            None => {
                return Err(Error::Corruption);
            },
        }
        proof {
            let after = self@;
            self.bitfields[c as int].lemma_view_len();
            assert(after.fields[c as int] == self.bitfields[c as int]@);
            assert forall|d: int| 0 <= d < before.fields.len() && d != c implies #[trigger] after.fields[d]
                == before.fields[d] by {}
            assert(after.children =~= before.children.update(
                c as int,
                Child { count: (before.children[c as int].count + num) as u16 },
            ));
            lemma_put_small(before, after, frame as int, order as nat);
        }
        Ok(())
    }

    /// Gives back a run of an order below 9 that is part of a huge frame: the
    /// huge frame is first split into 512 allocated frames.
    fn partial_put_huge(&mut self, frame: usize, order: usize) -> (r: Result<(), Error>)
        requires
            old(self).wf(),
            order < HUGE_ORDER,
            frame as int % pow2(order as nat) as int == 0,
            frame + pow2(order as nat) <= old(self)@.frames,
            old(self)@.huge(frame as int / CHUNK as int),
        ensures
            final(self).wf(),
            final(self)@.frames == old(self)@.frames,
            final(self).spec_begin() == old(self).spec_begin(),
            final(self).spec_persistent() == old(self).spec_persistent(),
            r is Ok,
            old(self)@.can_put(frame as int, order as nat),
            old(self)@.put_done(final(self)@, frame as int, order as nat),
    {
        proof {
            lemma_pow2_values();
            lemma_pow2_monotonic(order as nat, 8);
            lemma_pow2_divides(order as nat, 9, 512);
        }
        let c: usize = frame / CHUNK;
        let ghost before = self@;
        let ghost num = pow2(order as nat) as int;
        proof {
            assert(before.chunk_bounded(c as int));
            assert(before.chunk_counted(c as int));
            lemma_seq_zeros_extremes(before.fields[c as int]);
            assert forall|k: int| 0 <= k < CHUNK implies !#[trigger] seq_bit(
                before.fields[c as int],
                k,
            ) by {
                lemma_whole_word(before.fields[c as int], k / 64);
            }
        }
        match self.bitfields[c].toggle(0, HUGE_ORDER, false) {
            Ok(()) => {
                self.children[c] = Child::new();
            },
            Err(_) => {
                return Err(Error::Corruption);
            },
        }
        let ghost mid = self@;
        proof {
            self.bitfields[c as int].lemma_view_len();
            assert(mid.fields[c as int] == self.bitfields[c as int]@);
            assert forall|d: int| 0 <= d < before.fields.len() && d != c implies #[trigger] mid.fields[d]
                == before.fields[d] by {}
            assert(mid.children =~= before.children.update(c as int, Child { count: 0 }));
            lemma_split_huge(before, mid, c as int);
            assert(!mid.huge(c as int));
        }
        let r = self.put_small(frame, order);
        proof {
            let off = frame as int % (CHUNK as int);
            lemma_mod_mul(c as int, 512, num);
            crate::util::lemma_mod_diff(frame as int, c * 512, num);
            crate::util::lemma_mod_fits(off, num, 512);
            assert(seq_run_full(mid.fields[c as int], off, num));
            assert(mid.can_put(frame as int, order as nat));
            let after = self@;
            assert forall|f: int| frame <= f < frame + num implies #[trigger] before.allocated(
                f,
            ) by {
                assert(f / (CHUNK as int) == c);
            }
            assert forall|f: int| 0 <= f < before.frames implies #[trigger] after.allocated(f) == (
            before.allocated(f) && !(frame <= f < frame + num)) by {
                assert(mid.allocated(f) == before.allocated(f));
            }
            assert forall|d: int| 0 <= d < before.children.len() implies #[trigger] after.huge(d)
                == (before.huge(d) && !(d * CHUNK <= frame < (d + 1) * CHUNK || frame <= d * CHUNK
                < frame + num)) by {
                assert(mid.huge(d) == (before.huge(d) && d != c));
            }
            assert forall|t: int| 0 <= t < before.trees() implies #[trigger] after.tree_free(t)
                == before.tree_free(t) + (if t == frame as int / (N as int) {
                num
            } else {
                0
            }) by {
                assert(mid.tree_free(t) == before.tree_free(t));
            }
        }
        r
    }

    /// Gives back two neighbouring huge frames at once.
    pub fn put_max(&mut self, frame: usize) -> (r: Result<(), Error>)
        requires
            old(self).wf(),
            frame % 1024 == 0,
            frame + 1024 <= old(self)@.frames,
        ensures
            final(self).wf(),
            final(self)@.frames == old(self)@.frames,
            final(self).spec_begin() == old(self).spec_begin(),
            final(self).spec_persistent() == old(self).spec_persistent(),
            match r {
                Ok(()) => {
                    &&& old(self)@.can_put(frame as int, MAX_ORDER as nat)
                    &&& old(self)@.put_done(final(self)@, frame as int, MAX_ORDER as nat)
                },
                Err(e) => {
                    &&& e == Error::Address
                    &&& !old(self)@.can_put(frame as int, MAX_ORDER as nat)
                    &&& final(self)@ == old(self)@
                },
            },
    {
        let c: usize = frame / CHUNK;
        let ghost before = self@;
        proof {
            lemma_pair_in_range(before, frame as int);
        }
        let pair = ChildPair(self.children[c], self.children[c + 1]);
        let huge = ChildPair(Child::new_frame(), Child::new_frame());
        if pair == huge {
            self.children[c] = Child::new_free(CHUNK);
            let ghost mid = self@;
            self.children[c + 1] = Child::new_free(CHUNK);
            proof {
                let after = self@;
                assert(mid.fields =~= before.fields);
                assert(after.fields =~= before.fields);
                lemma_put_max(before, mid, after, c as int);
            }
            Ok(())
        } else {
            Err(Error::Address)
        }
    }

    /// Gives back one huge frame.
    fn put_huge(&mut self, frame: usize) -> (r: Result<(), Error>)
        requires
            old(self).wf(),
            frame % 512 == 0,
            frame + 512 <= old(self)@.frames,
        ensures
            final(self).wf(),
            final(self)@.frames == old(self)@.frames,
            final(self).spec_begin() == old(self).spec_begin(),
            final(self).spec_persistent() == old(self).spec_persistent(),
            match r {
                Ok(()) => {
                    &&& old(self)@.can_put(frame as int, HUGE_ORDER as nat)
                    &&& old(self)@.put_done(final(self)@, frame as int, HUGE_ORDER as nat)
                },
                Err(e) => {
                    &&& e == Error::Address
                    &&& !old(self)@.can_put(frame as int, HUGE_ORDER as nat)
                    &&& final(self)@ == old(self)@
                },
            },
    {
        proof {
            lemma_pow2_values();
        }
        let c: usize = frame / CHUNK;
        let ghost before = self@;
        if self.children[c] == Child::new_frame() {
            self.children[c] = Child::new_free(CHUNK);
            proof {
                let after = self@;
                assert(after.fields =~= before.fields);
                lemma_unmark_huge(before, after, c as int);
                assert(frame as int / (N as int) == c as int / (HP as int));
            }
            Ok(())
        } else {
            Err(Error::Address)
        }
    }

    /// Gives the `2^order` frames at `frame` back.
    ///
    /// The run has to be aligned to its size, to lie in the region and to be
    /// allocated: as huge frames for orders 9 and 10, and below as set bits or as
    /// part of a huge frame, which is then split.
    pub fn put(&mut self, frame: usize, order: usize) -> (r: Result<(), Error>)
        requires
            old(self).wf(),
        ensures
            final(self).wf(),
            final(self)@.frames == old(self)@.frames,
            final(self).spec_begin() == old(self).spec_begin(),
            final(self).spec_persistent() == old(self).spec_persistent(),
            match r {
                Ok(()) => {
                    &&& old(self)@.can_put(frame as int, order as nat)
                    &&& old(self)@.put_done(final(self)@, frame as int, order as nat)
                },
                Err(e) => {
                    &&& e == Error::Address
                    &&& !old(self)@.can_put(frame as int, order as nat)
                    &&& final(self)@ == old(self)@
                },
            },
    {
        if order > MAX_ORDER {
            return Err(Error::Address);
        }
        proof {
            lemma_pow2_values();
            lemma_pow2_monotonic(order as nat, 10);
        }
        let num = pow2_usize(order);
        if frame % num != 0 || frame >= self.len || num > self.len - frame {
            return Err(Error::Address);
        }
        if order == MAX_ORDER {
            self.put_max(frame)
        } else if order == HUGE_ORDER {
            self.put_huge(frame)
        } else {
            let c: usize = frame / CHUNK;
            if self.children[c].allocated() {
                self.partial_put_huge(frame, order)
            } else {
                self.put_small(frame, order)
            }
        }
    }

    /// Marks every frame of the region as allocated: whole chunks as huge
    /// frames, the frames of a last, partial chunk one by one.
    pub fn reserve_all(&mut self)
        requires
            old(self)@.shape(),
        ensures
            final(self)@.wf(),
            final(self)@.frames == old(self)@.frames,
            final(self).spec_begin() == old(self).spec_begin(),
            final(self).spec_persistent() == old(self).spec_persistent(),
            forall|c: int|
                0 <= c < final(self)@.children.len() ==> (#[trigger] final(self)@.children[c]) == (
                if (c + 1) * CHUNK <= final(self)@.frames {
                    Child { count: CHILD_HUGE }
                } else {
                    Child { count: 0 }
                }),
            forall|f: int| 0 <= f < final(self)@.frames ==> #[trigger] final(self)@.allocated(f),
            final(self)@.free_frames() == 0,
            forall|t: int| 0 <= t < final(self)@.trees() ==> #[trigger] final(self)@.tree_free(t) == 0,
    {
        let frames = self.len;
        let mut c: usize = 0;
        while c < self.children.len()
            invariant
                c <= self.children.len(),
                self@.shape(),
                frames == self.len,
                self.len == old(self).len,
                self.begin == old(self).begin,
                self.persistent == old(self).persistent,
                forall|d: int|
                    0 <= d < c ==> (#[trigger] self.children@[d]) == (if (d + 1) * CHUNK <= frames {
                        Child { count: CHILD_HUGE }
                    } else {
                        Child { count: 0 }
                    }),
            decreases self.children.len() - c,
        {
            let entry = if frames / CHUNK > c {
                Child::new_frame()
            } else {
                Child::new()
            };
            let ghost before = self@;
            self.children[c] = entry;
            assert(self@.fields =~= before.fields);
            c = c + 1;
        }
        let mut b: usize = 0;
        while b < self.bitfields.len()
            invariant
                b <= self.bitfields.len(),
                self@.shape(),
                frames == self.len,
                self.len == old(self).len,
                self.begin == old(self).begin,
                self.persistent == old(self).persistent,
                forall|d: int|
                    0 <= d < self.children.len() ==> (#[trigger] self.children@[d]) == (if (d + 1)
                        * CHUNK <= frames {
                        Child { count: CHILD_HUGE }
                    } else {
                        Child { count: 0 }
                    }),
                forall|d: int|
                    0 <= d < b ==> seq_zeros(#[trigger] self@.fields[d]) == (if (d + 1) * CHUNK
                        <= frames {
                        CHUNK as nat
                    } else {
                        0nat
                    }),
                forall|d: int, k: int|
                    0 <= d < b && 0 <= k < CHUNK ==> #[trigger] seq_bit(self@.fields[d], k) == ((d
                        + 1) * CHUNK > frames),
            decreases self.bitfields.len() - b,
        {
            let ghost before = self@;
            let full = frames / CHUNK <= b;
            self.bitfields[b].fill(full);
            proof {
                let words = self.bitfields[b as int]@;
                lemma_seq_zeros_extremes(words);
                assert forall|k: int| 0 <= k < CHUNK implies #[trigger] seq_bit(words, k)
                    == full by {
                    lemma_whole_word(words, k / 64);
                }
                let after = self@;
                assert(after.fields.len() == before.fields.len());
                assert forall|d: int| 0 <= d < after.fields.len() implies (
                #[trigger] after.fields[d]).len() == 8 by {
                    if d != b {
                        assert(after.fields[d] == before.fields[d]);
                    }
                }
                assert forall|d: int| 0 <= d < b implies seq_zeros(#[trigger] after.fields[d]) == (
                if (d + 1) * CHUNK <= frames {
                    CHUNK as nat
                } else {
                    0nat
                }) by {
                    assert(after.fields[d] == before.fields[d]);
                }
                assert forall|d: int, k: int| 0 <= d < b && 0 <= k < CHUNK implies #[trigger] seq_bit(
                    after.fields[d],
                    k,
                ) == ((d + 1) * CHUNK > frames) by {
                    assert(after.fields[d] == before.fields[d]);
                }
            }
            b = b + 1;
        }
        proof {
            let v = self@;
            assert forall|d: int| 0 <= d < v.children.len() implies #[trigger] v.chunk_bounded(
                d,
            ) by {}
            assert forall|d: int| 0 <= d < v.children.len() implies #[trigger] v.chunk_counted(
                d,
            ) by {}
            assert forall|d: int| 0 <= d < v.children.len() implies (#[trigger] v.children[d]).spec_free()
                == 0 by {}
            lemma_sum_zero(v.children, 0, v.children.len() as int);
            assert forall|t: int| 0 <= t < v.trees() implies #[trigger] v.tree_free(t) == 0 by {
                lemma_sum_zero(v.children, t * HP, t * HP + HP);
            }
            assert forall|f: int| 0 <= f < v.frames implies #[trigger] v.allocated(f) by {
                let d = f / (CHUNK as int);
                let k = f % (CHUNK as int);
                if (d + 1) * CHUNK <= frames {
                } else {
                    assert(seq_bit(v.fields[d], k));
                }
            }
        }
    }

    /// Whether the `2^order` frames at `frame` are all free.
    pub fn is_free(&self, frame: usize, order: usize) -> (r: bool)
        requires
            self.wf(),
        ensures
            r == (order <= MAX_ORDER && frame as int % pow2(order as nat) as int == 0 && frame
                + pow2(order as nat) <= self@.frames && forall|f: int|
                frame <= f < frame + pow2(order as nat) ==> !#[trigger] self@.allocated(f)),
    {
        if order > MAX_ORDER {
            return false;
        }
        proof {
            lemma_pow2_values();
            lemma_pow2_monotonic(order as nat, 10);
        }
        let num = pow2_usize(order);
        if frame % num != 0 || frame >= self.len || num > self.len - frame {
            return false;
        }
        let c: usize = frame / CHUNK;
        let ghost v = self@;
        proof {
            assert(v.chunk_bounded(c as int));
            assert(v.chunk_counted(c as int));
            if order == MAX_ORDER {
                lemma_pow2_divides(9, 10, frame as int);
                assert(frame == c * CHUNK);
            } else {
                lemma_pow2_divides(order as nat, 9, 512);
                lemma_mod_mul(c as int, 512, num as int);
                crate::util::lemma_mod_diff(frame as int, c * 512, num as int);
                crate::util::lemma_mod_fits(frame as int % 512, num as int, 512);
            }
        }
        if order == MAX_ORDER {
            assert(c + 1 < self.children.len()) by {
                assert(c + 1 < v.chunks() || c + 1 == v.chunks());
            }
            let first = self.children[c];
            let second = self.children[c + 1];
            proof {
                assert(v.chunk_bounded(c + 1));
                assert(v.chunk_counted(c + 1));
                lemma_chunk_free(v, c as int);
                lemma_chunk_free(v, c + 1);
                if first.spec_free() == CHUNK && second.spec_free() == CHUNK {
                    assert forall|f: int| frame <= f < frame + 1024 implies !#[trigger] v.allocated(
                        f,
                    ) by {
                        if f >= (c + 1) * CHUNK {
                            let k = f - (c + 1) * CHUNK;
                            assert(!v.allocated((c + 1) * CHUNK + k));
                        } else {
                            let k = f - c * CHUNK;
                            assert(!v.allocated(c * CHUNK + k));
                        }
                    }
                } else if first.spec_free() != CHUNK {
                    let k = choose|k: int| 0 <= k < CHUNK && #[trigger] v.allocated(c * CHUNK + k);
                    assert(v.allocated(c * CHUNK + k));
                } else {
                    let k = choose|k: int| 0 <= k < CHUNK && #[trigger] v.allocated((c + 1) * CHUNK + k);
                    assert(v.allocated((c + 1) * CHUNK + k));
                }
            }
            first.free() == CHUNK && second.free() == CHUNK
        } else {
            let entry = self.children[c];
            if entry.allocated() {
                proof {
                    assert(v.allocated(frame as int));
                }
                false
            } else if entry.free() == CHUNK {
                proof {
                    lemma_chunk_free(v, c as int);
                    assert forall|f: int| frame <= f < frame + num implies !#[trigger] v.allocated(
                        f,
                    ) by {
                        let k = f - c * CHUNK;
                        assert(!v.allocated(c * CHUNK + k));
                    }
                }
                true
            } else {
                let off: usize = frame % CHUNK;
                proof {
                    lemma_pow2_divides(order as nat, 9, 512);
                    lemma_mod_mul(c as int, 512, num as int);
                    crate::util::lemma_mod_diff(frame as int, c * 512, num as int);
                    crate::util::lemma_mod_fits(off as int, num as int, 512);
                }
                let r = self.bitfields[c].is_zero(off, order);
                proof {
                    let words = v.fields[c as int];
                    if r {
                        assert forall|f: int| frame <= f < frame + num implies !#[trigger] v.allocated(
                            f,
                        ) by {
                            assert(f / (CHUNK as int) == c);
                            assert(!seq_bit(words, f - c * CHUNK));
                        }
                    } else {
                        let k = choose|k: int| off <= k < off + num && #[trigger] seq_bit(words, k);
                        assert(v.allocated(c * CHUNK + k));
                    }
                }
                r
            }
        }
    }

    /// Number of allocated frames.
    pub fn allocated_frames(&self) -> (r: usize)
        requires
            self.wf(),
        ensures
            r == self@.frames - self@.free_frames(),
            self@.free_frames() <= self@.frames,
    {
        proof {
            lemma_free_frames_bound(self@);
        }
        let mut free: usize = 0;
        let mut c: usize = 0;
        while c < self.children.len()
            invariant
                c <= self.children.len(),
                free == sum_free(self.children@, 0, c as int),
                sum_free(self.children@, 0, self.children.len() as int) <= self.len,
            decreases self.children.len() - c,
        {
            proof {
                lemma_sum_free_split(self.children@, 0, c + 1, self.children.len() as int);
            }
            free = free + self.children[c].free();
            c = c + 1;
        }
        self.len - free
    }

    /// Number of frames at the end of a region of `len` frames that the persistent
    /// bookkeeping takes: 64 bytes of bitfield and 2 bytes of entry per chunk.
    pub open spec fn spec_metadata_frames(len: int) -> int {
        spec_div_ceil(spec_div_ceil(len, CHUNK as int) * 66, 4096)
    }

    /// Number of frames at the end of a region of `len` frames that the persistent
    /// bookkeeping takes.
    pub fn metadata_frames(len: usize) -> (r: usize)
        ensures
            r == Self::spec_metadata_frames(len as int),
            len >= 4096 ==> r < len,
    {
        let chunks = div_ceil(len, CHUNK);
        assert(chunks * 66 <= usize::MAX && (len >= 4096 ==> chunks * 66 + 4096 <= len * 4096))
            by (nonlinear_arith)
            requires
                chunks <= len,
                (chunks - 1) * 512 < len || chunks == 0,
                usize::MAX >= 0xffff_ffff,
        ;
        let r = div_ceil(chunks * 66, 4096);
        assert(len >= 4096 ==> r < len) by (nonlinear_arith)
            requires
                len >= 4096 ==> chunks * 66 + 4096 <= len * 4096,
                chunks * 66 > 0 ==> (r - 1) * 4096 < chunks * 66,
                chunks * 66 == 0 ==> r == 0,
        ;
        r
    }

    /// Creates the allocator for `len` frames from frame number `begin` on.
    ///
    /// With `Init::Volatile` all `len` frames are managed; otherwise the last
    /// frames of the region are set aside for the bookkeeping. With
    /// `Init::Recover` the bookkeeping is left empty, to be filled by `restore`
    /// and `recover`; otherwise all frames start free or allocated, as `free_all`
    /// says.
    pub fn new(cores: usize, begin: u64, len: usize, init: Init, free_all: bool) -> (r: Self)
        requires
            len > 0,
            init != Init::Volatile ==> Self::spec_metadata_frames(len as int) < len,
        ensures
            r@.frames == if init == Init::Volatile {
                len as int
            } else {
                len - Self::spec_metadata_frames(len as int)
            },
            r@.shape(),
            r.spec_begin() == begin,
            r.spec_persistent() == (init != Init::Volatile),
            init != Init::Recover ==> r.wf(),
            init != Init::Recover && free_all ==> r@.free_frames() == r@.frames && (forall|f: int|
                0 <= f < r@.frames ==> !#[trigger] r@.allocated(f)) && (forall|t: int|
                0 <= t < r@.trees() ==> #[trigger] r@.tree_free(t) == r@.tree_span(t)),
            init != Init::Recover && !free_all ==> r@.free_frames() == 0 && (forall|f: int|
                0 <= f < r@.frames ==> #[trigger] r@.allocated(f)) && (forall|t: int|
                0 <= t < r@.trees() ==> #[trigger] r@.tree_free(t) == 0),
    {
        let frames: usize = match init {
            Init::Volatile => len,
            _ => len - Self::metadata_frames(len),
        };
        let num_fields = div_ceil(frames, CHUNK);
        let num_trees = div_ceil(frames, N);
        assert(num_trees * HP <= usize::MAX) by {
            assert(num_trees <= frames / 16384 + 1);
            assert(frames / 16384 <= usize::MAX / 16384);
            assert(usize::MAX >= 0xffff_ffff);
        }
        let num_children = num_trees * HP;
        let mut bitfields: Vec<Bitfield<8>> = Vec::new();
        let mut b: usize = 0;
        while b < num_fields
            invariant
                b <= num_fields,
                bitfields.len() == b,
            decreases num_fields - b,
        {
            bitfields.push(Bitfield::new());
            b = b + 1;
        }
        let mut children: Vec<Child> = Vec::new();
        let mut c: usize = 0;
        while c < num_children
            invariant
                c <= num_children,
                children.len() == c,
            decreases num_children - c,
        {
            children.push(Child::new());
            c = c + 1;
        }
        let persistent = match init {
            Init::Volatile => false,
            _ => true,
        };
        let mut alloc = Lower { begin, len: frames, bitfields, children, persistent };
        proof {
            assert forall|d: int| 0 <= d < alloc@.fields.len() implies (
            #[trigger] alloc@.fields[d]).len() == 8 by {
                alloc.bitfields[d].lemma_view_len();
            }
        }
        match init {
            Init::Recover => {},
            _ => {
                if free_all {
                    alloc.free_all();
                } else {
                    alloc.reserve_all();
                }
            },
        }
        alloc
    }

    /// The words of all bitfields, chunk after chunk.
    pub fn words(&self) -> (r: Vec<u64>)
        requires
            self@.shape(),
        ensures
            r@.len() == 8 * self@.fields.len(),
            forall|c: int, w: int|
                0 <= c < self@.fields.len() && 0 <= w < 8 ==> #[trigger] self@.fields[c][w] == r@[c
                    * 8 + w],
    {
        let mut out: Vec<u64> = Vec::new();
        let mut c: usize = 0;
        while c < self.bitfields.len()
            invariant
                c <= self.bitfields.len(),
                out@.len() == 8 * c,
                forall|d: int, w: int|
                    0 <= d < c && 0 <= w < 8 ==> #[trigger] self@.fields[d][w] == out@[d * 8 + w],
            decreases self.bitfields.len() - c,
        {
            let mut w: usize = 0;
            while w < 8
                invariant
                    w <= 8,
                    c < self.bitfields.len(),
                    out@.len() == 8 * c + w,
                    forall|d: int, x: int|
                        0 <= d < c && 0 <= x < 8 ==> #[trigger] self@.fields[d][x] == out@[d * 8
                            + x],
                    forall|x: int| 0 <= x < w ==> #[trigger] self@.fields[c as int][x] == out@[c * 8 + x],
                decreases 8 - w,
            {
                out.push(self.bitfields[c].get_entry(w));
                w = w + 1;
            }
            c = c + 1;
        }
        out
    }

    /// The counters of all entries, as they are stored: 65535 marks a huge frame.
    pub fn counts(&self) -> (r: Vec<u16>)
        ensures
            r@.len() == self@.children.len(),
            forall|c: int| 0 <= c < r@.len() ==> #[trigger] r@[c] == self@.children[c].count,
    {
        let mut out: Vec<u16> = Vec::new();
        let mut c: usize = 0;
        while c < self.children.len()
            invariant
                c <= self.children.len(),
                out@.len() == c,
                forall|d: int| 0 <= d < c ==> #[trigger] out@[d] == self.children@[d].count,
            decreases self.children.len() - c,
        {
            out.push(self.children[c].count);
            c = c + 1;
        }
        out
    }

    /// Takes over stored bitfield words and counters, if there are as many as the
    /// allocator holds. Returns whether it did.
    pub fn restore(&mut self, words: &Vec<u64>, counts: &Vec<u16>) -> (r: bool)
        requires
            old(self)@.shape(),
        ensures
            final(self)@.shape(),
            final(self)@.frames == old(self)@.frames,
            final(self).spec_begin() == old(self).spec_begin(),
            final(self).spec_persistent() == old(self).spec_persistent(),
            r == (words@.len() == 8 * old(self)@.fields.len() && counts@.len() == old(
                self,
            )@.children.len()),
            !r ==> final(self)@ == old(self)@,
            r ==> forall|c: int, w: int|
                0 <= c < final(self)@.fields.len() && 0 <= w < 8 ==> #[trigger] final(self)@.fields[c][w]
                    == words@[c * 8 + w],
            r ==> forall|c: int|
                0 <= c < counts@.len() ==> (#[trigger] final(self)@.children[c]).count == counts@[c],
    {
        if self.bitfields.len() > usize::MAX / 8 {
            proof {
                assert(words@.len() != 8 * self@.fields.len());
            }
            return false;
        }
        if words.len() != 8 * self.bitfields.len() || counts.len() != self.children.len() {
            return false;
        }
        let mut c: usize = 0;
        while c < self.children.len()
            invariant
                c <= self.children.len(),
                self@.shape(),
                self.len == old(self).len,
                self.begin == old(self).begin,
                self.persistent == old(self).persistent,
                counts@.len() == self.children.len(),
                forall|d: int| 0 <= d < c ==> (#[trigger] self.children@[d]).count == counts@[d],
            decreases self.children.len() - c,
        {
            let ghost before = self@;
            self.children[c] = Child { count: counts[c] };
            assert(self@.fields =~= before.fields);
            c = c + 1;
        }
        let mut b: usize = 0;
        while b < self.bitfields.len()
            invariant
                b <= self.bitfields.len(),
                self@.shape(),
                self.len == old(self).len,
                self.begin == old(self).begin,
                self.persistent == old(self).persistent,
                self.bitfields.len() * 8 <= usize::MAX,
                words@.len() == 8 * self.bitfields.len(),
                forall|d: int| 0 <= d < self.children.len() ==> (#[trigger] self.children@[d]).count == counts@[d],
                forall|d: int, w: int|
                    0 <= d < b && 0 <= w < 8 ==> #[trigger] self@.fields[d][w] == words@[d * 8 + w],
            decreases self.bitfields.len() - b,
        {
            let ghost before = self@;
            let mut w: usize = 0;
            while w < 8
                invariant
                    w <= 8,
                    b < self.bitfields.len(),
                    self.bitfields.len() * 8 <= usize::MAX,
                    self.bitfields.len() == before.fields.len(),
                    self.children@ == before.children,
                    self.len == old(self).len,
                    self.begin == old(self).begin,
                    self.persistent == old(self).persistent,
                    words@.len() == 8 * self.bitfields.len(),
                    forall|d: int|
                        0 <= d < self.bitfields.len() && d != b ==> #[trigger] self@.fields[d] == before.fields[d],
                    self@.fields[b as int].len() == 8,
                    forall|x: int| 0 <= x < w ==> #[trigger] self@.fields[b as int][x] == words@[b * 8 + x],
                decreases 8 - w,
            {
                let ghost cur = self@;
                self.bitfields[b].put_entry(w, words[b * 8 + w]);
                proof {
                    assert forall|d: int|
                        0 <= d < self.bitfields.len() && d != b implies #[trigger] self@.fields[d]
                        == before.fields[d] by {
                        assert(self@.fields[d] == cur.fields[d]);
                    }
                }
                w = w + 1;
            }
            proof {
                let after = self@;
                assert forall|d: int| 0 <= d < after.fields.len() implies (
                #[trigger] after.fields[d]).len() == 8 by {
                    if d != b {
                        assert(after.fields[d] == before.fields[d]);
                    }
                }
                assert forall|d: int, x: int| 0 <= d < b && 0 <= x < 8 implies #[trigger] after.fields[d][x]
                    == words@[d * 8 + x] by {
                    assert(after.fields[d] == before.fields[d]);
                }
            }
            b = b + 1;
        }
        true
    }

    /// Recovers the subtree of frame `start` and returns the number of its free
    /// frames.
    ///
    /// If `deep`, the counters are not trusted: the zero bits of every chunk that
    /// is neither huge nor counted as entirely free are counted anew, and the
    /// bitfield of a huge frame is emptied.
    pub fn recover(&mut self, start: usize, deep: bool) -> (r: Result<usize, Error>)
        requires
            old(self)@.recoverable(),
            start < old(self)@.frames,
            !deep ==> forall|c: int|
                (start / N) * HP <= c < (start / N) * HP + HP ==> #[trigger] old(self)@.chunk_counted(c),
        ensures
            final(self)@.recoverable(),
            final(self)@.frames == old(self)@.frames,
            final(self).spec_begin() == old(self).spec_begin(),
            final(self).spec_persistent() == old(self).spec_persistent(),
            forall|c: int|
                (start / N) * HP <= c < (start / N) * HP + HP ==> #[trigger] old(self)@.chunk_recovered(
                    final(self)@,
                    c,
                ),
            forall|c: int|
                0 <= c < old(self)@.children.len() && !((start / N) * HP <= c < (start / N) * HP
                    + HP) ==> #[trigger] final(self)@.children[c] == old(self)@.children[c],
            forall|c: int|
                0 <= c < old(self)@.fields.len() && !((start / N) * HP <= c < (start / N) * HP + HP)
                    ==> #[trigger] final(self)@.fields[c] == old(self)@.fields[c],
            r == Ok::<usize, Error>(final(self)@.tree_free(start as int / N as int) as usize),
            final(self)@.tree_free(start as int / N as int) <= N,
            final(self)@.tree_free(start as int / N as int) == old(self)@.tree_free(
                start as int / N as int,
            ) + old(self)@.sum_drift((start / N) * HP, (start / N) * HP + HP),
    {
        let t: usize = start / N;
        let first: usize = t * HP;
        let mut frames: usize = 0;
        let mut i: usize = 0;
        while i < HP
            invariant
                i <= HP,
                t == start / N,
                first == t * HP,
                first + HP <= self.children.len(),
                self@.recoverable(),
                old(self)@.recoverable(),
                self.len == old(self).len,
                self.begin == old(self).begin,
                self.persistent == old(self).persistent,
                self@.children.len() == old(self)@.children.len(),
                self@.fields.len() == old(self)@.fields.len(),
                !deep ==> forall|c: int|
                    first <= c < first + HP ==> #[trigger] old(self)@.chunk_counted(c),
                forall|c: int|
                    first <= c < first + i ==> #[trigger] old(self)@.chunk_recovered(self@, c),
                forall|c: int|
                    0 <= c < self.children.len() && !(first <= c < first + i)
                        ==> #[trigger] self@.children[c] == old(self)@.children[c],
                forall|c: int|
                    0 <= c < self.bitfields.len() && !(first <= c < first + i)
                        ==> #[trigger] self@.fields[c] == old(self)@.fields[c],
                frames == sum_free(self@.children, first as int, first + i),
                frames <= i * CHUNK,
                sum_free(self@.children, first as int, first + i) == sum_free(
                    old(self)@.children,
                    first as int,
                    first + i,
                ) + old(self)@.sum_drift(first as int, first + i),
            decreases HP - i,
        {
            let c: usize = first + i;
            let ghost before = self@;
            let ghost orig = old(self)@;
            proof {
                assert(before.chunk_bounded(c as int));
                assert(before.chunk_recoverable(c as int));
                assert(orig.chunk_bounded(c as int));
                assert(orig.chunk_recoverable(c as int));
                assert(before.children[c as int] == orig.children[c as int]);
                if c < self.bitfields.len() {
                    assert(before.fields[c as int] == orig.fields[c as int]);
                    lemma_seq_zeros_bound(before.fields[c as int]);
                    lemma_seq_zeros_extremes(before.fields[c as int]);
                }
            }
            if c >= self.bitfields.len() {
                self.children[c] = Child::new();
                proof {
                    assert(self@.fields =~= before.fields);
                    assert(self@.children =~= before.children);
                    assert(orig.chunk_recovered(self@, c as int));
                }
            } else {
                let entry = self.children[c];
                let free = entry.free();
                if deep {
                    if entry.allocated() {
                        let zeros = self.bitfields[c].count_zeros();
                        if zeros != CHUNK {
                            self.bitfields[c].fill(false);
                            proof {
                                let now = self.bitfields[c as int]@;
                                self.bitfields[c as int].lemma_view_len();
                                lemma_seq_zeros_extremes(now);
                                assert forall|k: int| 0 <= k < CHUNK implies !#[trigger] seq_bit(
                                    now,
                                    k,
                                ) by {
                                    lemma_whole_word(now, k / 64);
                                }
                            }
                        }
                        proof {
                            assert(self@.children =~= before.children);
                            assert(self@.fields[c as int] == self.bitfields[c as int]@);
                            assert(orig.chunk_recovered(self@, c as int));
                        }
                    } else if free == CHUNK {
                        proof {
                            assert(self@.fields =~= before.fields);
                            assert(orig.chunk_recovered(self@, c as int));
                        }
                    } else {
                        let zeros = self.bitfields[c].count_zeros();
                        if free != zeros {
                            self.children[c] = Child::new_free(zeros);
                        }
                        proof {
                            assert(self@.fields =~= before.fields);
                            assert(orig.chunk_recovered(self@, c as int));
                        }
                    }
                } else {
                    proof {
                        assert(orig.chunk_counted(c as int));
                        assert(self@.fields =~= before.fields);
                        assert(orig.chunk_recovered(self@, c as int));
                    }
                }
            }
            proof {
                let after = self@;
                assert(after.children.len() == before.children.len());
                assert forall|d: int|
                    0 <= d < before.children.len() && d != c implies #[trigger] after.children[d]
                    == before.children[d] by {}
                assert forall|d: int| 0 <= d < before.fields.len() && d != c implies #[trigger] after.fields[d]
                    == before.fields[d] by {}
                assert(orig.chunk_recovered(after, c as int));
                lemma_recover_step(orig, before, after, first as int, i as int);
            }
            frames = frames + self.children[c].free();
            i = i + 1;
        }
        Ok(frames)
    }

    /// Whether the bits of chunk `c` that stand for no frame of the region are
    /// all set.
    fn check_tail(&self, c: usize) -> (r: bool)
        requires
            self@.shape(),
            c < self@.fields.len(),
        ensures
            r == forall|k: int|
                0 <= k < CHUNK && c * CHUNK + k >= self@.frames ==> #[trigger] seq_bit(
                    self@.fields[c as int],
                    k,
                ),
    {
        let frames = self.len;
        if frames / CHUNK > c {
            return true;
        }
        let from: usize = frames - c * CHUNK;
        let mut k: usize = from;
        while k < CHUNK
            invariant
                from <= k <= CHUNK,
                c < self.bitfields.len(),
                from == self@.frames - c * CHUNK,
                forall|j: int| from <= j < k ==> #[trigger] seq_bit(self@.fields[c as int], j),
            decreases CHUNK - k,
        {
            if !self.bitfields[c].get(k) {
                assert(!seq_bit(self@.fields[c as int], k as int));
                return false;
            }
            k = k + 1;
        }
        true
    }

    /// Whether the state can be recovered; if not `deep`, also whether every
    /// counter agrees with its bitfield, as after an orderly end.
    pub fn check(&self, deep: bool) -> (r: bool)
        requires
            self@.shape(),
        ensures
            r == (self@.recoverable() && (deep || forall|c: int|
                0 <= c < self@.children.len() ==> #[trigger] self@.chunk_counted(c))),
    {
        let frames = self.len;
        let ghost v = self@;
        let mut c: usize = 0;
        while c < self.children.len()
            invariant
                c <= self.children.len(),
                v == self@,
                v.shape(),
                frames == v.frames,
                forall|d: int| 0 <= d < c ==> #[trigger] v.chunk_bounded(d),
                forall|d: int| 0 <= d < c ==> #[trigger] v.chunk_recoverable(d),
                !deep ==> forall|d: int| 0 <= d < c ==> #[trigger] v.chunk_counted(d),
            decreases self.children.len() - c,
        {
            let entry = self.children[c];
            if c >= self.bitfields.len() {
                if entry != Child::new() {
                    assert(!v.chunk_bounded(c as int));
                    return false;
                }
            } else {
                if !self.check_tail(c) {
                    assert(!v.chunk_bounded(c as int));
                    return false;
                }
                let zeros = self.bitfields[c].count_zeros();
                if entry.allocated() {
                    if frames / CHUNK <= c {
                        assert(!v.chunk_recoverable(c as int));
                        return false;
                    }
                    if !deep && zeros != CHUNK {
                        assert(!v.chunk_counted(c as int));
                        return false;
                    }
                } else {
                    if entry.free() > zeros {
                        assert(!v.chunk_recoverable(c as int));
                        return false;
                    }
                    if !deep && entry.free() != zeros {
                        assert(!v.chunk_counted(c as int));
                        return false;
                    }
                }
            }
            c = c + 1;
        }
        true
    }

    /// The entry of chunk `c`.
    pub fn child(&self, c: usize) -> (r: Child)
        requires
            c < self@.children.len(),
        ensures
            r == self@.children[c as int],
    {
        self.children[c]
    }

    /// The bitfield of chunk `c`.
    pub fn field(&self, c: usize) -> (r: Bitfield<8>)
        requires
            c < self@.fields.len(),
        ensures
            r@ == self@.fields[c as int],
    {
        self.bitfields[c]
    }

    /// Number of chunk entries.
    pub fn chunks(&self) -> (r: usize)
        ensures
            r == self@.children.len(),
    {
        self.children.len()
    }

    /// Number of chunks that are entirely free.
    pub fn free_huge_frames(&self) -> (r: usize)
        ensures
            r == count_full(self@.children, self@.children.len() as int),
    {
        let mut count: usize = 0;
        let mut c: usize = 0;
        while c < self.children.len()
            invariant
                c <= self.children.len(),
                count == count_full(self.children@, c as int),
                count <= c,
            decreases self.children.len() - c,
        {
            if self.children[c].free() == CHUNK {
                count = count + 1;
            }
            c = c + 1;
        }
        count
    }

    /// Number of managed frames.
    pub fn frames(&self) -> (r: usize)
        ensures
            r == self@.frames,
    {
        self.len
    }

    /// Number of the first managed frame in the memory of the machine.
    pub closed spec fn spec_begin(&self) -> u64 {
        self.begin
    }

    /// Number of the first managed frame in the memory of the machine.
    pub fn begin(&self) -> (r: u64)
        ensures
            r == self.spec_begin(),
    {
        self.begin
    }

    /// Whether the bookkeeping is meant to outlive the allocator.
    pub closed spec fn spec_persistent(&self) -> bool {
        self.persistent
    }

    /// Whether the bookkeeping is meant to outlive the allocator.
    pub fn persistent(&self) -> (r: bool)
        ensures
            r == self.spec_persistent(),
    {
        self.persistent
    }
}

} // verus!
