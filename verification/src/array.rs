//! The allocator: a lower allocator, the tree entries over it and the
//! reservations of the cores.
//!
//! A core takes frames from the subtree it has reserved. The free frames of a
//! subtree are counted in three places that always agree: the entries of its
//! chunks add up to what its tree entry and the reservation of its core hold
//! together.
use vstd::prelude::*;
use crate::entry::{ReservedTree, Tree, START_RAW_MAX};
use crate::local::Local;
use crate::lower::{
    lemma_free_frames_bound,
    Init,
    Lower,
    LowerView,
    CHUNK,
    HP,
    HUGE_ORDER,
    MAX_ORDER,
    N,
};
use crate::trees::{reserved_at, span_of, Trees, ALMOST_ALLOCATED, MAX_TREES};
use crate::util::{lemma_pow2_monotonic, lemma_pow2_values, pow2, pow2_usize, spec_div_ceil};
use crate::{Error, CAS_RETRIES, MAGIC};

verus! {

/// Number of frees that a core remembers.
pub const RECENT_FREES: usize = 4;

/// The persistent header of an allocator.
#[derive(Debug, Clone, Copy, PartialEq, Eq, Structural)]
pub struct Meta {
    /// `MAGIC`, if the header is valid.
    pub magic: u64,
    /// Number of managed frames.
    pub frames: u64,
    /// Whether the allocator is in use, or was when the machine stopped.
    pub crashed: bool,
}

/// The state of a lower allocator for `frames` frames that the stored words and
/// counters describe.
pub open spec fn image_view(frames: nat, words: Seq<u64>, counts: Seq<u16>) -> LowerView {
    LowerView {
        frames,
        fields: Seq::new((words.len() / 8) as nat, |c: int| words.subrange(c * 8, c * 8 + 8)),
        children: Seq::new(counts.len(), |c: int| crate::entry::Child { count: counts[c] }),
    }
}

/// What an allocator holds, as plain values.
pub struct ArrayView {
    /// Address of the first managed frame.
    pub base: u64,
    /// The lower allocator.
    pub lower: LowerView,
    /// The entry of every subtree.
    pub trees: Seq<Tree>,
    /// The reservation of every core.
    pub locals: Seq<ReservedTree>,
}

/// Sum of the counters of the tree entries `0 .. n`.
pub open spec fn sum_trees(trees: Seq<Tree>, n: int) -> nat
    decreases n,
{
    if n <= 0 {
        0
    } else {
        sum_trees(trees, n - 1) + trees[n - 1].free as nat
    }
}

/// Sum of the counters of the reservations `0 .. n`.
pub open spec fn sum_locals(locals: Seq<ReservedTree>, n: int) -> nat
    decreases n,
{
    if n <= 0 {
        0
    } else {
        sum_locals(locals, n - 1) + locals[n - 1].free as nat
    }
}

/// A sum of counters grows with the number of entries.
pub proof fn lemma_sum_trees_grows(trees: Seq<Tree>, n: int, m: int)
    requires
        n <= m,
    ensures
        sum_trees(trees, n) <= sum_trees(trees, m),
    decreases m - n,
{
    if n < m {
        lemma_sum_trees_grows(trees, n, m - 1);
    }
}

/// A sum of counters grows with the number of reservations.
pub proof fn lemma_sum_locals_grows(locals: Seq<ReservedTree>, n: int, m: int)
    requires
        n <= m,
    ensures
        sum_locals(locals, n) <= sum_locals(locals, m),
    decreases m - n,
{
    if n < m {
        lemma_sum_locals_grows(locals, n, m - 1);
    }
}

/// Replacing one tree entry changes the sum by the difference of the counters.
pub proof fn lemma_sum_trees_update(trees: Seq<Tree>, i: int, t: Tree, n: int)
    requires
        0 <= i < trees.len(),
        0 <= n <= trees.len(),
    ensures
        i < n ==> sum_trees(trees.update(i, t), n) + trees[i].free == sum_trees(trees, n) + t.free,
        i >= n ==> sum_trees(trees.update(i, t), n) == sum_trees(trees, n),
    decreases n,
{
    if n > 0 {
        lemma_sum_trees_update(trees, i, t, n - 1);
    }
}

/// Replacing one reservation changes the sum by the difference of the counters.
pub proof fn lemma_sum_locals_update(locals: Seq<ReservedTree>, c: int, e: ReservedTree, n: int)
    requires
        0 <= c < locals.len(),
        0 <= n <= locals.len(),
    ensures
        c < n ==> sum_locals(locals.update(c, e), n) + locals[c].free == sum_locals(locals, n)
            + e.free,
        c >= n ==> sum_locals(locals.update(c, e), n) == sum_locals(locals, n),
    decreases n,
{
    if n > 0 {
        lemma_sum_locals_update(locals, c, e, n - 1);
    }
}

/// Tree entries that count what the chunk entries of their subtrees count add up
/// to the free frames of the lower allocator.
pub proof fn lemma_sum_trees_lower(lower: LowerView, trees: Seq<Tree>, n: int)
    requires
        lower.shape(),
        0 <= n <= trees.len(),
        trees.len() == lower.trees(),
        forall|i: int| 0 <= i < trees.len() ==> (#[trigger] trees[i]).free == lower.tree_free(i),
    ensures
        sum_trees(trees, n) == crate::lower::sum_free(lower.children, 0, n * HP),
    decreases n,
{
    if n > 0 {
        lemma_sum_trees_lower(lower, trees, n - 1);
        crate::lower::lemma_sum_free_split(lower.children, 0, (n - 1) * HP, n * HP);
        assert(trees[n - 1].free == lower.tree_free(n - 1));
    }
}

/// What the recovery of subtree `t` adds to what the recovery of the subtrees
/// before it has established: `image` is the stored state, `before` and `after`
/// are the states around the step.
pub proof fn lemma_recovered_tree(image: LowerView, before: LowerView, after: LowerView, t: int)
    requires
        0 <= t < image.trees(),
        image.shape(),
        before.children.len() == image.children.len(),
        before.fields.len() == image.fields.len(),
        after.children.len() == image.children.len(),
        after.fields.len() == image.fields.len(),
        before.frames == image.frames,
        after.frames == image.frames,
        forall|c: int| 0 <= c < t * HP ==> #[trigger] image.chunk_recovered(before, c),
        forall|c: int|
            t * HP <= c < image.children.len() ==> #[trigger] before.children[c] == image.children[c],
        forall|c: int|
            t * HP <= c < image.fields.len() ==> #[trigger] before.fields[c] == image.fields[c],
        forall|c: int| t * HP <= c < t * HP + HP ==> #[trigger] before.chunk_recovered(after, c),
        forall|c: int|
            0 <= c < before.children.len() && !(t * HP <= c < t * HP + HP) ==> #[trigger] after.children[c]
                == before.children[c],
        forall|c: int|
            0 <= c < before.fields.len() && !(t * HP <= c < t * HP + HP) ==> #[trigger] after.fields[c]
                == before.fields[c],
        after.tree_free(t) == before.tree_free(t) + before.sum_drift(t * HP, t * HP + HP),
        crate::lower::sum_free(before.children, 0, t * HP) == crate::lower::sum_free(
            image.children,
            0,
            t * HP,
        ) + image.sum_drift(0, t * HP),
    ensures
        forall|c: int| 0 <= c < (t + 1) * HP ==> #[trigger] image.chunk_recovered(after, c),
        forall|c: int|
            (t + 1) * HP <= c < image.children.len() ==> #[trigger] after.children[c]
                == image.children[c],
        forall|c: int|
            (t + 1) * HP <= c < image.fields.len() ==> #[trigger] after.fields[c] == image.fields[c],
        crate::lower::sum_free(after.children, 0, (t + 1) * HP) == crate::lower::sum_free(
            image.children,
            0,
            (t + 1) * HP,
        ) + image.sum_drift(0, (t + 1) * HP),
{
    let lo = t * HP;
    let hi = t * HP + HP;
    assert(hi <= image.children.len());
    assert forall|c: int| 0 <= c < hi implies #[trigger] image.chunk_recovered(after, c) by {
        if c < lo {
            assert(image.chunk_recovered(before, c));
            assert(after.children[c] == before.children[c]);
            if c < before.fields.len() {
                assert(after.fields[c] == before.fields[c]);
            }
        } else {
            assert(before.chunk_recovered(after, c));
            assert(before.children[c] == image.children[c]);
            if c < image.fields.len() {
                assert(before.fields[c] == image.fields[c]);
            }
        }
    }
    assert forall|c: int| hi <= c < image.children.len() implies #[trigger] after.children[c]
        == image.children[c] by {
        assert(after.children[c] == before.children[c]);
    }
    assert forall|c: int| hi <= c < image.fields.len() implies #[trigger] after.fields[c]
        == image.fields[c] by {
        assert(after.fields[c] == before.fields[c]);
    }
    crate::lower::lemma_sum_free_split(after.children, 0, lo, hi);
    crate::lower::lemma_sum_free_split(image.children, 0, lo, hi);
    crate::lower::lemma_sum_drift_split(image, 0, lo, hi);
    crate::lower::lemma_sum_free_same(before.children, after.children, 0, lo);
    crate::lower::lemma_sum_free_same(before.children, image.children, lo, hi);
    crate::lower::lemma_sum_drift_same(before, image, lo, hi);
}

/// Reservations without frames add up to nothing.
pub proof fn lemma_sum_locals_zero(locals: Seq<ReservedTree>, n: int)
    requires
        0 <= n <= locals.len(),
        forall|c: int| 0 <= c < locals.len() ==> (#[trigger] locals[c]).free == 0,
    ensures
        sum_locals(locals, n) == 0,
    decreases n,
{
    if n > 0 {
        lemma_sum_locals_zero(locals, n - 1);
    }
}

/// A core without a reservation that reserved a subtree, where every subtree
/// that could be reserved was entirely free, can be served from that subtree.
pub proof fn lemma_fresh_serves(v: ArrayView, w: ArrayView, core: int, order: nat)
    requires
        v.wf(),
        w.wf(),
        0 <= core,
        order <= MAX_ORDER,
        v.fresh(core),
        w.lower == v.lower,
        w.locals.len() == v.locals.len(),
        ({
            let e = w.locals[core % (v.locals.len() as int)];
            &&& e.spec_has_start()
            &&& e.spec_start() % (N as int) == 0
            &&& crate::trees::reservable(v.trees[e.spec_start() / (N as int)])
            &&& e.free == v.trees[e.spec_start() / (N as int)].free
        }),
    ensures
        w.serves(core, order),
{
    let c = core % (v.locals.len() as int);
    let e = w.locals[c];
    let j = e.spec_start() / (N as int);
    assert(w.local_wf(c));
    assert(0 <= j < v.trees.len()) by {
        assert(e.spec_start() < w.frames());
    }
    assert(v.tree_wf(j));
    // nobody had the subtree, which was not marked as reserved
    assert forall|k: int| 0 <= k < v.locals.len() implies !owns(#[trigger] v.locals[k], j) by {
        assert(v.local_wf(k));
    }
    lemma_pow2_values();
    lemma_pow2_monotonic(order, 10);
    crate::lower::lemma_free_tree_fits(v.lower, j, order);
}

/// What the lower allocator promises of a frame it handed out, in the terms of
/// the allocator.
pub proof fn lemma_got_lower(v: ArrayView, w: ArrayView, start: int, order: nat, frame: int)
    requires
        v.lower.wf(),
        v.base % 4096 == 0,
        v.lower.got(w.lower, start, order, frame),
        w.base == v.base,
        w.lower.frames == v.lower.frames,
        w.locals.len() == v.locals.len(),
    ensures
        v.got(w, order, v.base + frame * 4096),
        0 <= frame < v.frames(),
        frame / (N as int) == start / (N as int),
        w.lower.free_frames() + pow2(order) == v.lower.free_frames(),
        forall|t: int|
            0 <= t < v.lower.trees() ==> #[trigger] w.lower.tree_free(t) + (if t == start / (
            N as int) {
                pow2(order)
            } else {
                0
            }) == v.lower.tree_free(t),
{
    reveal(LowerView::took);
    lemma_pow2_monotonic(0, order);
    let addr = v.base + frame * 4096;
    assert((addr - v.base) / 4096 == frame);
}

/// What giving `num` frames of subtree `i` back keeps, if they are credited to the
/// reservation of core `c`, which has that subtree.
pub proof fn lemma_step_free(v: ArrayView, w: ArrayView, c: int, i: int, num: nat, e: ReservedTree)
    requires
        v.wf(),
        0 <= c < v.locals.len(),
        owns(v.locals[c], i),
        w.base == v.base,
        w.trees == v.trees,
        w.locals == v.locals.update(c, e),
        v.locals[c].free + num <= N,
        e == (ReservedTree { free: (v.locals[c].free + num) as usize, ..v.locals[c] }),
        e.wf(),
        w.lower.wf(),
        w.lower.frames == v.lower.frames,
        w.lower.free_frames() == v.lower.free_frames() + num,
        forall|t: int|
            0 <= t < v.lower.trees() ==> #[trigger] w.lower.tree_free(t) == v.lower.tree_free(t) + (
            if t == i {
                num
            } else {
                0
            }),
    ensures
        w.wf(),
{
    assert(v.local_wf(c));
    assert(0 <= i < v.lower.trees());
    lemma_sum_locals_update(v.locals, c, e, v.locals.len() as int);
    assert forall|d: int| 0 <= d < w.locals.len() implies #[trigger] w.local_wf(d) by {
        assert(v.local_wf(d));
        if d != c {
            let x = v.locals[d];
            if x.spec_has_start() {
                let tj = x.spec_start() / (N as int);
                assert(0 <= tj < v.lower.trees());
                assert(!owns(v.locals[c], tj));
                assert(w.lower.tree_free(tj) == v.lower.tree_free(tj));
                assert forall|k: int| 0 <= k < w.locals.len() && k != d implies !owns(
                    #[trigger] w.locals[k],
                    tj,
                ) by {
                    if k != c {
                        assert(!owns(v.locals[k], tj));
                    }
                }
            }
        } else {
            assert(w.lower.tree_free(i) == v.lower.tree_free(i) + num);
            assert forall|k: int| 0 <= k < w.locals.len() && k != c implies !owns(
                #[trigger] w.locals[k],
                i,
            ) by {
                assert(!owns(v.locals[k], i));
            }
        }
    }
    assert forall|j: int| 0 <= j < w.trees.len() implies #[trigger] w.tree_wf(j) by {
        assert(w.lower.tree_free(j) == v.lower.tree_free(j) + (if j == i {
            num
        } else {
            0
        }));
        assert(v.tree_wf(j));
        if forall|k: int| 0 <= k < w.locals.len() ==> !owns(#[trigger] w.locals[k], j) {
            assert(!owns(w.locals[c], j));
            assert forall|k: int| 0 <= k < v.locals.len() implies !owns(
                #[trigger] v.locals[k],
                j,
            ) by {
                if k != c {
                    assert(!owns(w.locals[k], j));
                }
            }
        }
    }
}

/// What giving `num` frames of subtree `i` back keeps, if they are credited to the
/// entry of the subtree.
pub proof fn lemma_step_credit(v: ArrayView, w: ArrayView, i: int, num: nat)
    requires
        v.wf(),
        0 <= i < v.trees.len(),
        w.base == v.base,
        w.locals == v.locals,
        v.trees[i].free + num <= N,
        w.trees == v.trees.update(
            i,
            Tree { free: (v.trees[i].free + num) as usize, ..v.trees[i] },
        ),
        w.lower.wf(),
        w.lower.frames == v.lower.frames,
        w.lower.free_frames() == v.lower.free_frames() + num,
        forall|t: int|
            0 <= t < v.lower.trees() ==> #[trigger] w.lower.tree_free(t) == v.lower.tree_free(t) + (
            if t == i {
                num
            } else {
                0
            }),
    ensures
        w.wf(),
{
    assert(v.tree_wf(i));
    lemma_sum_trees_update(
        v.trees,
        i,
        Tree { free: (v.trees[i].free + num) as usize, ..v.trees[i] },
        v.trees.len() as int,
    );
    if exists|k: int| 0 <= k < v.locals.len() && owns(#[trigger] v.locals[k], i) {
        let k = choose|k: int| 0 <= k < v.locals.len() && owns(#[trigger] v.locals[k], i);
        assert(v.local_wf(k));
    }
    assert forall|d: int| 0 <= d < w.locals.len() implies #[trigger] w.local_wf(d) by {
        assert(v.local_wf(d));
        let x = v.locals[d];
        if x.spec_has_start() {
            let tj = x.spec_start() / (N as int);
            assert(0 <= tj < v.lower.trees());
            assert(w.lower.tree_free(tj) == v.lower.tree_free(tj) + (if tj == i {
                num
            } else {
                0
            }));
        }
    }
    assert forall|j: int| 0 <= j < w.trees.len() implies #[trigger] w.tree_wf(j) by {
        assert(v.tree_wf(j));
        assert(w.lower.tree_free(j) == v.lower.tree_free(j) + (if j == i {
            num
        } else {
            0
        }));
    }
}

/// After `num` frames of subtree `i` were given back to the lower allocator, the
/// counters of the subtree have room for them.
pub proof fn lemma_credit_bound(v: ArrayView, lower: LowerView, i: int, num: nat)
    requires
        v.wf(),
        0 <= i < v.trees.len(),
        lower.wf(),
        lower.frames == v.lower.frames,
        lower.tree_free(i) == v.lower.tree_free(i) + num,
    ensures
        v.trees[i].free + num <= span_of(v.frames() as int, i),
        forall|c: int|
            0 <= c < v.locals.len() && owns(#[trigger] v.locals[c], i) ==> v.locals[c].free + num
                <= span_of(v.frames() as int, i),
        span_of(v.frames() as int, i) <= N,
{
    lemma_free_frames_bound(lower);
    assert(lower.tree_span(i) == span_of(v.frames() as int, i));
    assert(v.tree_wf(i));
    if exists|k: int| 0 <= k < v.locals.len() && owns(#[trigger] v.locals[k], i) {
        let k = choose|k: int| 0 <= k < v.locals.len() && owns(#[trigger] v.locals[k], i);
        assert(v.local_wf(k));
    }
    assert forall|c: int| 0 <= c < v.locals.len() && owns(#[trigger] v.locals[c], i) implies v.locals[c].free
        + num <= span_of(v.frames() as int, i) by {
        assert(v.local_wf(c));
    }
}

/// What the lower allocator promises of frames it took back, in the terms of the
/// allocator.
pub proof fn lemma_put_lower(v: ArrayView, w: ArrayView, order: nat, frame: int)
    requires
        v.lower.wf(),
        v.base % 4096 == 0,
        0 <= frame,
        v.lower.can_put(frame, order),
        v.lower.put_done(w.lower, frame, order),
        w.base == v.base,
        w.lower.frames == v.lower.frames,
        w.locals.len() == v.locals.len(),
    ensures
        v.put_done(w, order, v.base + frame * 4096),
        v.can_put(order, v.base + frame * 4096),
{
    let addr = v.base + frame * 4096;
    assert((addr - v.base) / 4096 == frame);
    assert((addr - v.base) % 4096 == 0);
}

/// What a core's taking `num` frames at `frame` from its reserved subtree keeps:
/// the reservation `e` that follows has `num` frames less and stays in the
/// subtree.
pub proof fn lemma_step_alloc(v: ArrayView, w: ArrayView, c: int, num: nat, e: ReservedTree)
    requires
        v.wf(),
        0 <= c < v.locals.len(),
        v.locals[c].spec_has_start(),
        v.locals[c].free >= num,
        w.base == v.base,
        w.trees == v.trees,
        w.locals == v.locals.update(c, e),
        e.wf(),
        !e.locked,
        e.free == v.locals[c].free - num,
        e.spec_has_start(),
        e.spec_start() / (N as int) == v.locals[c].spec_start() / (N as int),
        e.spec_start() < v.frames(),
        w.lower.wf(),
        w.lower.frames == v.lower.frames,
        w.lower.free_frames() + num == v.lower.free_frames(),
        forall|t: int|
            0 <= t < v.lower.trees() ==> #[trigger] w.lower.tree_free(t) + (if t
                == v.locals[c].spec_start() / (N as int) {
                num
            } else {
                0
            }) == v.lower.tree_free(t),
    ensures
        w.wf(),
{
    let ti = v.locals[c].spec_start() / (N as int);
    assert(v.local_wf(c));
    lemma_sum_locals_update(v.locals, c, e, v.locals.len() as int);
    assert forall|d: int| 0 <= d < w.locals.len() implies #[trigger] w.local_wf(d) by {
        assert(v.local_wf(d));
        if d != c {
            let x = v.locals[d];
            if x.spec_has_start() {
                let tj = x.spec_start() / (N as int);
                assert(!owns(v.locals[c], tj));
                assert forall|k: int| 0 <= k < w.locals.len() && k != d implies !owns(
                    #[trigger] w.locals[k],
                    tj,
                ) by {
                    if k != c {
                        assert(!owns(v.locals[k], tj));
                    }
                }
            }
        } else {
            assert forall|k: int| 0 <= k < w.locals.len() && k != c implies !owns(
                #[trigger] w.locals[k],
                ti,
            ) by {
                assert(!owns(v.locals[k], ti));
            }
        }
    }
    assert forall|i: int| 0 <= i < w.trees.len() implies #[trigger] w.tree_wf(i) by {
        assert(v.tree_wf(i));
        if forall|k: int| 0 <= k < w.locals.len() ==> !owns(#[trigger] w.locals[k], i) {
            assert(!owns(w.locals[c], i));
            assert forall|k: int| 0 <= k < v.locals.len() implies !owns(
                #[trigger] v.locals[k],
                i,
            ) by {
                if k != c {
                    assert(!owns(w.locals[k], i));
                }
            }
        }
    }
}

/// What moving frames between the entry of a subtree and the reservation of the
/// core that has it keeps: `t` and `e` hold together what the two held before.
pub proof fn lemma_step_shift(v: ArrayView, w: ArrayView, c: int, t: Tree, e: ReservedTree)
    requires
        v.wf(),
        0 <= c < v.locals.len(),
        v.locals[c].spec_has_start(),
        w.base == v.base,
        w.lower == v.lower,
        w.trees == v.trees.update(v.locals[c].spec_start() / (N as int), t),
        w.locals == v.locals.update(c, e),
        e == (ReservedTree { free: e.free, ..v.locals[c] }),
        e.wf(),
        t.reserved,
        t.free + e.free == v.trees[v.locals[c].spec_start() / (N as int)].free + v.locals[c].free,
    ensures
        w.wf(),
{
    let ti = v.locals[c].spec_start() / (N as int);
    assert(v.local_wf(c));
    lemma_free_frames_bound(v.lower);
    lemma_sum_locals_update(v.locals, c, e, v.locals.len() as int);
    lemma_sum_trees_update(v.trees, ti, t, v.trees.len() as int);
    assert(ti < v.trees.len()) by {
        assert(v.locals[c].spec_start() < v.frames());
    }
    assert forall|d: int| 0 <= d < w.locals.len() implies #[trigger] w.local_wf(d) by {
        assert(v.local_wf(d));
        if d != c {
            let x = v.locals[d];
            if x.spec_has_start() {
                let tj = x.spec_start() / (N as int);
                assert(!owns(v.locals[c], tj));
                assert forall|k: int| 0 <= k < w.locals.len() && k != d implies !owns(
                    #[trigger] w.locals[k],
                    tj,
                ) by {
                    if k != c {
                        assert(!owns(v.locals[k], tj));
                    }
                }
            }
        } else {
            assert forall|k: int| 0 <= k < w.locals.len() && k != c implies !owns(
                #[trigger] w.locals[k],
                ti,
            ) by {
                assert(!owns(v.locals[k], ti));
            }
        }
    }
    assert forall|i: int| 0 <= i < w.trees.len() implies #[trigger] w.tree_wf(i) by {
        assert(v.tree_wf(i));
        if i == ti {
            assert(owns(w.locals[c], i));
        } else if forall|k: int| 0 <= k < w.locals.len() ==> !owns(#[trigger] w.locals[k], i) {
            assert forall|k: int| 0 <= k < v.locals.len() implies !owns(
                #[trigger] v.locals[k],
                i,
            ) by {
                if k != c {
                    assert(!owns(w.locals[k], i));
                }
            }
        }
    }
}

/// What replacing the reservation of core `c` keeps: the subtree `j` that was
/// reserved for it becomes its subtree, and the subtree it had, if any, gets back
/// the frames that the core still held and is no longer reserved. With `j < 0`
/// the core is left without a subtree.
pub proof fn lemma_step_swap(v: ArrayView, w: ArrayView, c: int, j: int, e: ReservedTree)
    requires
        v.wf(),
        0 <= c < v.locals.len(),
        w.base == v.base,
        w.lower == v.lower,
        w.locals == v.locals.update(c, e),
        j >= 0 ==> reserved_at(
            v.trees,
            v.trees.update(j, Tree { free: 0, reserved: true }),
            e,
            j,
        ),
        j < 0 ==> e == (ReservedTree { free: 0, locked: false, start_raw: START_RAW_MAX }),
        ({
            let mid = if j >= 0 {
                v.trees.update(j, Tree { free: 0, reserved: true })
            } else {
                v.trees
            };
            let old = v.locals[c];
            let ti = old.spec_start() / (N as int);
            w.trees == if old.spec_has_start() {
                mid.update(
                    ti,
                    Tree { free: (mid[ti].free + old.free) as usize, reserved: false },
                )
            } else {
                mid
            }
        }),
    ensures
        w.wf(),
        v.locals[c].spec_has_start() ==> v.trees[v.locals[c].spec_start() / (N as int)].free
            + v.locals[c].free <= span_of(
            v.frames() as int,
            v.locals[c].spec_start() / (N as int),
        ),
        v.locals[c].spec_has_start() ==> v.trees[v.locals[c].spec_start() / (N as int)].reserved,
        v.locals[c].spec_has_start() ==> v.locals[c].spec_start() / (N as int) != j,
{
    let old = v.locals[c];
    let ti = old.spec_start() / (N as int);
    assert(v.local_wf(c));
    lemma_free_frames_bound(v.lower);
    let mid = if j >= 0 {
        v.trees.update(j, Tree { free: 0, reserved: true })
    } else {
        v.trees
    };
    lemma_sum_locals_update(v.locals, c, e, v.locals.len() as int);
    if j >= 0 {
        lemma_sum_trees_update(v.trees, j, Tree { free: 0, reserved: true }, v.trees.len() as int);
        assert(v.tree_wf(j));
        // nobody has subtree j
        assert forall|k: int| 0 <= k < v.locals.len() implies !owns(#[trigger] v.locals[k], j) by {
            assert(v.local_wf(k));
        }
        assert(j * N < v.frames()) by {
            assert(j < v.lower.trees());
        }
    }
    if old.spec_has_start() {
        assert(ti < v.trees.len()) by {
            assert(old.spec_start() < v.frames());
        }
        assert(v.lower.tree_span(ti) == span_of(v.frames() as int, ti));
        lemma_sum_trees_update(
            mid,
            ti,
            Tree { free: (mid[ti].free + old.free) as usize, reserved: false },
            mid.len() as int,
        );
    }
    assert forall|d: int| 0 <= d < w.locals.len() implies #[trigger] w.local_wf(d) by {
        assert(v.local_wf(d));
        if d != c {
            let x = v.locals[d];
            if x.spec_has_start() {
                let tj = x.spec_start() / (N as int);
                assert(!owns(v.locals[c], tj));
                assert(tj != j);
                assert forall|k: int| 0 <= k < w.locals.len() && k != d implies !owns(
                    #[trigger] w.locals[k],
                    tj,
                ) by {
                    if k != c {
                        assert(!owns(v.locals[k], tj));
                    }
                }
            }
        } else if j >= 0 {
            assert forall|k: int| 0 <= k < w.locals.len() && k != c implies !owns(
                #[trigger] w.locals[k],
                j,
            ) by {
                assert(!owns(v.locals[k], j));
            }
        }
    }
    assert forall|i: int| 0 <= i < w.trees.len() implies #[trigger] w.tree_wf(i) by {
        assert(v.tree_wf(i));
        if j >= 0 && i == j {
            assert(owns(w.locals[c], i));
        } else if old.spec_has_start() && i == ti {
        } else if forall|k: int| 0 <= k < w.locals.len() ==> !owns(#[trigger] w.locals[k], i) {
            assert forall|k: int| 0 <= k < v.locals.len() implies !owns(
                #[trigger] v.locals[k],
                i,
            ) by {
                if k != c {
                    assert(!owns(w.locals[k], i));
                }
            }
        }
    }
}

/// Whether the reservation `e` is one of subtree `i`.
pub open spec fn owns(e: ReservedTree, i: int) -> bool {
    e.spec_has_start() && e.spec_start() / (N as int) == i
}

impl ArrayView {
    /// Number of managed frames.
    pub open spec fn frames(self) -> nat {
        self.lower.frames
    }

    /// Whether the reservation of core `c` is in order: it is not locked, and if
    /// it names a subtree, that subtree is marked as reserved and no other core
    /// has it.
    pub open spec fn local_wf(self, c: int) -> bool {
        let e = self.locals[c];
        &&& e.wf()
        &&& !e.locked
        &&& !e.spec_has_start() ==> e.free == 0
        &&& e.spec_has_start() ==> {
            &&& e.spec_start() < self.frames()
            &&& self.trees[e.spec_start() / (N as int)].reserved
            &&& self.trees[e.spec_start() / (N as int)].free + e.free == self.lower.tree_free(
                e.spec_start() / (N as int),
            )
            &&& forall|d: int|
                0 <= d < self.locals.len() && d != c ==> !owns(
                    #[trigger] self.locals[d],
                    e.spec_start() / (N as int),
                )
        }
    }

    /// Whether the entry of subtree `i` is in order: if no core has the subtree, the
    /// entry counts all free frames of the subtree.
    pub open spec fn tree_wf(self, i: int) -> bool {
        &&& self.trees[i].free <= N
        &&& (forall|c: int| 0 <= c < self.locals.len() ==> !owns(#[trigger] self.locals[c], i))
            ==> self.trees[i].free == self.lower.tree_free(i)
    }

    /// Whether the allocator is consistent.
    pub open spec fn wf(self) -> bool {
        &&& self.lower.wf()
        &&& self.trees.len() == self.lower.trees()
        &&& self.trees.len() <= MAX_TREES
        &&& self.locals.len() > 0
        &&& self.base % 4096 == 0
        &&& self.base + self.frames() * 4096 <= u64::MAX
        &&& forall|c: int| 0 <= c < self.locals.len() ==> #[trigger] self.local_wf(c)
        &&& forall|i: int| 0 <= i < self.trees.len() ==> #[trigger] self.tree_wf(i)
        &&& sum_trees(self.trees, self.trees.len() as int) + sum_locals(
            self.locals,
            self.locals.len() as int,
        ) == self.lower.free_frames()
    }

    /// What a successful `get` of `order` that returned the address `addr` has
    /// done: `self` is the state before, `after` the state after it. The frames
    /// at `addr` were free and are allocated now, and no other frame changed.
    pub open spec fn got(self, after: ArrayView, order: nat, addr: int) -> bool {
        let frame = (addr - self.base) / 4096;
        &&& addr == self.base + frame * 4096
        &&& 0 <= frame
        &&& frame % (pow2(order) as int) == 0
        &&& frame + pow2(order) <= self.frames()
        &&& after.base == self.base
        &&& after.frames() == self.frames()
        &&& after.locals.len() == self.locals.len()
        &&& forall|f: int| frame <= f < frame + pow2(order) ==> !#[trigger] self.lower.allocated(f)
        &&& forall|f: int|
            0 <= f < self.frames() ==> #[trigger] after.lower.allocated(f) == (
            self.lower.allocated(f) || frame <= f < frame + pow2(order))
        &&& forall|d: int|
            0 <= d < self.lower.children.len() ==> #[trigger] after.lower.huge(d) == (
            self.lower.huge(d) || (order >= HUGE_ORDER && frame <= d * CHUNK < frame + pow2(order)))
        &&& after.free_frames() + pow2(order) == self.free_frames()
    }

    /// What a successful `put` of the `2^order` frames at the address `addr` has
    /// done: the frames were allocated and are free now, and no other frame
    /// changed.
    pub open spec fn put_done(self, after: ArrayView, order: nat, addr: int) -> bool {
        let frame = (addr - self.base) / 4096;
        &&& after.base == self.base
        &&& after.frames() == self.frames()
        &&& after.locals.len() == self.locals.len()
        &&& forall|f: int| frame <= f < frame + pow2(order) ==> #[trigger] self.lower.allocated(f)
        &&& forall|f: int|
            0 <= f < self.frames() ==> #[trigger] after.lower.allocated(f) == (
            self.lower.allocated(f) && !(frame <= f < frame + pow2(order)))
        &&& forall|d: int|
            0 <= d < self.lower.children.len() ==> #[trigger] after.lower.huge(d) == (
            self.lower.huge(d) && !(d * CHUNK <= frame < (d + 1) * CHUNK || frame <= d * CHUNK
                < frame + pow2(order)))
        &&& after.free_frames() == self.free_frames() + pow2(order)
    }

    /// Whether the `2^order` frames at the address `addr` can be given back: the
    /// address is that of a frame of the region, aligned to the size of the run,
    /// and the run is allocated at that order.
    pub open spec fn can_put(self, order: nat, addr: int) -> bool {
        &&& order <= MAX_ORDER
        &&& addr >= self.base
        &&& (addr - self.base) % 4096 == 0
        &&& self.lower.can_put((addr - self.base) / 4096, order)
    }

    /// Whether the reservation of the core `core` can serve a request of `order`:
    /// it holds that many frames, and its subtree has a place for them.
    pub open spec fn serves(self, core: int, order: nat) -> bool {
        let e = self.locals[core % (self.locals.len() as int)];
        &&& e.spec_has_start()
        &&& e.free >= pow2(order)
        &&& !self.lower.none_fits(e.spec_start() / (N as int), order)
    }

    /// What replacing the reservation of core `c` by one of subtree `j` has done:
    /// the core holds the free frames that the entry of `j` counted, and the
    /// subtree that the core had, if any, is no longer reserved and got back
    /// what the core still held of it. With `j < 0` the core is left without a
    /// subtree.
    pub open spec fn swapped(self, after: ArrayView, c: int, j: int) -> bool {
        let old = self.locals[c];
        let ti = old.spec_start() / (N as int);
        let mid = if j >= 0 {
            self.trees.update(j, Tree { free: 0, reserved: true })
        } else {
            self.trees
        };
        &&& after.base == self.base
        &&& after.lower == self.lower
        &&& after.locals == self.locals.update(
            c,
            if j >= 0 {
                ReservedTree {
                    free: self.trees[j].free,
                    locked: false,
                    start_raw: (j * N / 64) as u64,
                }
            } else {
                ReservedTree { free: 0, locked: false, start_raw: START_RAW_MAX }
            },
        )
        &&& after.trees == if old.spec_has_start() {
            mid.update(ti, Tree { free: (mid[ti].free + old.free) as usize, reserved: false })
        } else {
            mid
        }
    }

    /// What crediting `num` freed frames has done: they were added to the
    /// reservation of core `c`, if it has their subtree `i`, and else to the entry
    /// of the subtree.
    pub open spec fn credited(self, after: ArrayView, c: int, i: int, num: nat) -> bool {
        &&& after.base == self.base
        &&& if owns(self.locals[c], i) {
            &&& after.trees == self.trees
            &&& after.locals == self.locals.update(
                c,
                ReservedTree { free: (self.locals[c].free + num) as usize, ..self.locals[c] },
            )
        } else {
            &&& after.locals == self.locals
            &&& after.trees == self.trees.update(
                i,
                Tree { free: (self.trees[i].free + num) as usize, ..self.trees[i] },
            )
        }
    }

    /// Whether the core `core` has no reservation, some subtree can be reserved,
    /// and every subtree that can be reserved is entirely free, as in a new
    /// allocator.
    pub open spec fn fresh(self, core: int) -> bool {
        &&& !self.locals[core % (self.locals.len() as int)].spec_has_start()
        &&& exists|j: int| 0 <= j < self.trees.len() && crate::trees::reservable(#[trigger] self.trees[j])
        &&& forall|j: int|
            0 <= j < self.trees.len() && crate::trees::reservable(#[trigger] self.trees[j])
                ==> self.trees[j].free == self.lower.tree_span(j)
    }

    /// Number of free frames.
    pub open spec fn free_frames(self) -> nat {
        self.lower.free_frames()
    }

    /// Number of allocated frames.
    pub open spec fn allocated_frames(self) -> int {
        self.frames() - self.free_frames()
    }

    /// Whether the frame at address `addr` is allocated.
    pub open spec fn allocated(self, addr: int) -> bool {
        self.lower.allocated((addr - self.base) / 4096)
    }
}

/// The allocator.
pub struct Array {
    base: u64,
    local: Vec<Local<4>>,
    lower: Lower,
    trees: Trees,
    meta: Meta,
}

impl View for Array {
    type V = ArrayView;

    closed spec fn view(&self) -> ArrayView {
        ArrayView {
            base: self.base,
            lower: self.lower@,
            trees: self.trees@,
            locals: Seq::new(self.local.len() as nat, |c: int| self.local[c].entry),
        }
    }
}

impl Array {
    /// Whether the allocator is consistent.
    pub closed spec fn wf(&self) -> bool {
        &&& self@.wf()
        &&& forall|c: int| 0 <= c < self.local.len() ==> (#[trigger] self.local[c]).wf()
    }

    /// The persistent header.
    pub closed spec fn spec_meta(&self) -> Meta {
        self.meta
    }

    /// A consistent allocator has a consistent view.
    pub proof fn lemma_wf(&self)
        requires
            self.wf(),
        ensures
            self@.wf(),
    {
    }

    /// Number of frames that an allocator manages in a region of `len` frames: as
    /// many as the tree entries can address, less the frames that a persistent
    /// allocator needs for its header and its bookkeeping.
    pub open spec fn spec_managed(len: int, init: Init) -> int {
        let most = MAX_TREES * N;
        if init == Init::Volatile {
            if len < most {
                len
            } else {
                most
            }
        } else {
            let rest = if len - 1 < most {
                len - 1
            } else {
                most
            };
            rest - Lower::spec_metadata_frames(rest)
        }
    }

    /// Number of frames that an allocator manages in a region of `len` frames;
    /// `None` if the region is too small for the bookkeeping.
    pub fn managed(len: usize, init: Init) -> (r: Option<usize>)
        ensures
            match r {
                Some(frames) => frames == Self::spec_managed(len as int, init) && 0 < frames <= len
                    && frames <= MAX_TREES * N,
                None => Self::spec_managed(len as int, init) <= 0 || len == 0,
            },
    {
        if len == 0 {
            return None;
        }
        match init {
            Init::Volatile => {
                if len / N >= MAX_TREES {
                    Some(MAX_TREES * N)
                } else {
                    Some(len)
                }
            },
            _ => {
                let rest: usize = if (len - 1) / N >= MAX_TREES {
                    MAX_TREES * N
                } else {
                    len - 1
                };
                let meta = Lower::metadata_frames(rest);
                if meta >= rest {
                    None
                } else {
                    Some(rest - meta)
                }
            },
        }
    }

    /// Creates an allocator for `cores` cores over the `len` frames at address
    /// `base`, with all frames free or all allocated.
    ///
    /// The region has to hold a subtree for every core. `Init::Recover` is
    /// refused here: a stored state is taken over by `recover`.
    pub fn new(cores: usize, base: u64, len: usize, init: Init, free_all: bool) -> (r: Result<
        Self,
        Error,
    >)
        requires
            base % 4096 == 0,
            base + len * 4096 <= u64::MAX,
        ensures
            match r {
                Ok(a) => {
                    &&& init != Init::Recover
                    &&& a.wf()
                    &&& a@.base == base
                    &&& a@.frames() == Self::spec_managed(len as int, init)
                    &&& a@.frames() >= N * a@.locals.len()
                    &&& a@.locals.len() == if cores == 0 {
                        1
                    } else {
                        cores as int
                    }
                    &&& forall|c: int|
                        0 <= c < a@.locals.len() ==> !(#[trigger] a@.locals[c]).spec_has_start()
                    &&& forall|i: int|
                        0 <= i < a@.trees.len() ==> #[trigger] a@.trees[i] == (Tree {
                            free: if free_all {
                                a@.lower.tree_span(i) as usize
                            } else {
                                0
                            },
                            reserved: false,
                        })
                    &&& a@.trees.len() == spec_div_ceil(a@.frames() as int, N as int)
                    &&& a@.free_frames() == if free_all {
                        a@.frames()
                    } else {
                        0
                    }
                    &&& forall|f: int|
                        0 <= f < a@.frames() ==> #[trigger] a@.lower.allocated(f) == !free_all
                    &&& a.spec_meta() == (Meta {
                        magic: MAGIC,
                        frames: a@.frames() as u64,
                        crashed: true,
                    })
                },
                Err(e) => {
                    &&& e == if init == Init::Recover {
                        Error::Initialization
                    } else {
                        Error::Memory
                    }
                    &&& init == Init::Recover || len == 0 || Self::spec_managed(len as int, init)
                        < N * (if cores == 0 {
                        1
                    } else {
                        cores as int
                    })
                },
            },
    {
        match init {
            Init::Recover => {
                return Err(Error::Initialization);
            },
            _ => {},
        }
        let cores: usize = if cores == 0 {
            1
        } else {
            cores
        };
        let frames: usize = match Self::managed(len, init) {
            Some(frames) => frames,
            None => {
                return Err(Error::Memory);
            },
        };
        if frames / N < cores {
            assert(frames < N * cores) by (nonlinear_arith)
                requires
                    (frames / N) < cores,
                    N == 16384,
            ;
            return Err(Error::Memory);
        }
        assert(frames >= N * cores) by (nonlinear_arith)
            requires
                (frames / N) >= cores,
                N == 16384,
        ;
        let region: usize = match init {
            Init::Volatile => frames,
            _ => frames + Lower::metadata_frames(if (len - 1) / N >= MAX_TREES {
                MAX_TREES * N
            } else {
                len - 1
            }),
        };
        let lower = Lower::new(cores, base / 4096, region, init, free_all);
        assert(spec_div_ceil(frames as int, N as int) <= MAX_TREES) by {
            assert(frames <= 0x40_0000 * 16384);
        }
        let trees = Trees::init(frames, free_all);
        let mut local: Vec<Local<4>> = Vec::new();
        let mut c: usize = 0;
        while c < cores
            invariant
                c <= cores,
                local.len() == c,
                forall|d: int|
                    0 <= d < c ==> (#[trigger] local[d]).wf() && local[d].entry == (ReservedTree {
                        free: 0,
                        locked: false,
                        start_raw: START_RAW_MAX,
                    }),
            decreases cores - c,
        {
            local.push(Local::new());
            c = c + 1;
        }
        let meta = Meta { magic: MAGIC, frames: frames as u64, crashed: true };
        let alloc = Array { base, local, lower, trees, meta };
        proof {
            let v = alloc@;
            lemma_free_frames_bound(v.lower);
            assert forall|i: int| 0 <= i < v.trees.len() implies (#[trigger] v.trees[i]).free
                == v.lower.tree_free(i) by {
                assert(v.lower.tree_span(i) == span_of(frames as int, i));
            }
            lemma_sum_trees_lower(v.lower, v.trees, v.trees.len() as int);
            lemma_sum_locals_zero(v.locals, v.locals.len() as int);
            assert forall|i: int| 0 <= i < v.trees.len() implies #[trigger] v.tree_wf(i) by {
                assert(v.trees[i].free == v.lower.tree_free(i));
            }
            assert forall|d: int| 0 <= d < v.locals.len() implies #[trigger] v.local_wf(d) by {}
        }
        Ok(alloc)
    }

    /// Replaces the reservation of core `c` by `new` if its lock flag is
    /// `expect_locked`, and gives the subtree that the core had back.
    fn cas_reserved(&mut self, c: usize, new: ReservedTree, expect_locked: bool) -> (r: Result<
        (),
        Error,
    >)
        requires
            c < old(self).local.len(),
            old(self).trees.wf(),
            old(self).local[c as int].entry.spec_has_start() ==> {
                &&& old(self).local[c as int].entry.spec_start() < old(self).lower@.frames
                &&& old(self).local[c as int].entry.spec_start() / (N as int) < old(self).trees@.len()
            },
        ensures
            final(self).base == old(self).base,
            final(self).lower == old(self).lower,
            final(self).meta == old(self).meta,
            final(self).trees.wf(),
            final(self).local.len() == old(self).local.len(),
            forall|d: int|
                0 <= d < old(self).local.len() && d != c ==> #[trigger] final(self).local[d] == old(
                    self,
                ).local[d],
            final(self).local[c as int].frees == old(self).local[c as int].frees,
            final(self).local[c as int].frees_i == old(self).local[c as int].frees_i,
            old(self).local[c as int].entry.locked != expect_locked ==> r == Err::<(), Error>(
                Error::Retry,
            ) && final(self).trees@ == old(self).trees@ && final(self).local[c as int] == old(
                self,
            ).local[c as int],
            old(self).local[c as int].entry.locked == expect_locked ==> {
                let old_entry = old(self).local[c as int].entry;
                let ti = old_entry.spec_start() / (N as int);
                &&& final(self).local[c as int].entry == new
                &&& !old_entry.spec_has_start() ==> r is Ok && final(self).trees@ == old(self).trees@
                &&& old_entry.spec_has_start() ==> match old(self).trees@[ti].spec_unreserve_add(
                    old_entry.free,
                    span_of(old(self).lower@.frames as int, ti) as usize,
                ) {
                    Some(t) => r is Ok && final(self).trees@ == old(self).trees@.update(ti, t),
                    None => r == Err::<(), Error>(Error::Corruption) && final(self).trees@ == old(
                        self,
                    ).trees@,
                }
            },
    {
        let old_entry = self.local[c].entry;
        if old_entry.locked() != expect_locked {
            return Err(Error::Retry);
        }
        self.local[c].entry = new;
        let frames = self.lower.frames();
        self.trees.unreserve(old_entry, frames)
    }

    /// Reserves a subtree for core `c` and gives the one it had back. With
    /// `retry` an almost entirely free subtree is preferred.
    fn reserve_or_wait(&mut self, c: usize, retry: bool) -> (r: Result<(), Error>)
        requires
            old(self).wf(),
            c < old(self)@.locals.len(),
        ensures
            final(self).wf(),
            final(self)@.base == old(self)@.base,
            final(self)@.lower == old(self)@.lower,
            final(self)@.locals.len() == old(self)@.locals.len(),
            final(self).spec_meta() == old(self).spec_meta(),
            match r {
                Ok(()) => {
                    let e = final(self)@.locals[c as int];
                    &&& e.spec_has_start()
                    &&& e.free >= ALMOST_ALLOCATED
                    &&& e.spec_start() % (N as int) == 0
                    &&& crate::trees::reservable(old(self)@.trees[e.spec_start() / (N as int)])
                    &&& e.free == old(self)@.trees[e.spec_start() / (N as int)].free
                    &&& retry && (exists|j: int|
                        0 <= j < old(self)@.trees.len() && crate::trees::empty_like(
                            #[trigger] old(self)@.trees[j],
                        )) ==> crate::trees::empty_like(
                        old(self)@.trees[e.spec_start() / (N as int)],
                    )
                },
                Err(e) => {
                    &&& e == Error::Memory
                    &&& final(self)@ == old(self)@
                    &&& forall|j: int|
                        0 <= j < old(self)@.trees.len() ==> !crate::trees::reservable(
                            #[trigger] old(self)@.trees[j],
                        )
                },
            },
    {
        let ghost v = self@;
        let old_entry = self.local[c].entry;
        let frames = self.lower.frames();
        proof {
            assert(v.local_wf(c as int));
            assert(v.locals[c as int] == old_entry);
            lemma_free_frames_bound(v.lower);
            assert(v.lower.shape());
            assert(0 < v.trees.len() && (v.trees.len() - 1) * N < frames);
            assert(forall|i: int| 0 <= i < v.trees.len() ==> #[trigger] v.tree_wf(i));
            assert forall|i: int| 0 <= i < self.trees@.len() implies #[trigger] self.trees@[i].free
                <= N by {
                assert(v.tree_wf(i));
            }
        }
        let locked = match old_entry.toggle_locked(true) {
            Some(locked) => locked,
            None => {
                return Err(Error::Corruption);
            },
        };
        self.local[c].entry = locked;
        let cores = self.local.len();
        let start: usize = if old_entry.has_start() {
            old_entry.start() / N
        } else {
            let len = self.trees.len();
            let share = len / cores;
            assert(share * c <= len) by (nonlinear_arith)
                requires
                    share == len / cores,
                    c < cores,
            ;
            share * c
        };
        match self.trees.reserve(cores, start, retry) {
            Ok(new) => {
                let ghost j = new.spec_start() / (N as int);
                let r = self.cas_reserved(c, new, true);
                proof {
                    let w = self@;
                    assert(w.locals =~= v.locals.update(c as int, new));
                    lemma_step_swap(v, w, c as int, j, new);
                    assert(w.wf());
                    assert forall|d: int| 0 <= d < self.local.len() implies (
                    #[trigger] self.local[d]).wf() by {}
                    assert(j * N % (N as int) == 0) by (nonlinear_arith)
                        requires
                            N == 16384,
                    ;
                }
                match r {
                    Ok(()) => Ok(()),
                    Err(_) => Err(Error::Corruption),
                }
            },
            Err(e) => {
                match locked.toggle_locked(false) {
                    Some(unlocked) => {
                        self.local[c].entry = unlocked;
                    },
                    None => {
                        return Err(Error::Corruption);
                    },
                }
                proof {
                    assert(self@.locals =~= v.locals);
                    assert forall|d: int| 0 <= d < self.local.len() implies (
                    #[trigger] self.local[d]).wf() by {}
                }
                Err(e)
            },
        }
    }

    /// Takes the frames that the entry of the subtree of core `c` has collected
    /// into the reservation of the core, if the two together hold more than
    /// `ALMOST_ALLOCATED` frames. Returns `Error::Retry` if it did.
    fn try_sync_with_global(&mut self, c: usize) -> (r: Result<(), Error>)
        requires
            old(self).wf(),
            c < old(self)@.locals.len(),
        ensures
            final(self).wf(),
            final(self)@.base == old(self)@.base,
            final(self)@.lower == old(self)@.lower,
            final(self)@.locals.len() == old(self)@.locals.len(),
            final(self).spec_meta() == old(self).spec_meta(),
            r is Err <==> old(self)@.locals[c as int].spec_has_start() && old(self)@.locals[c as int].free
                + old(self)@.trees[old(self)@.locals[c as int].spec_start() / (N as int)].free
                > ALMOST_ALLOCATED,
            match r {
                Ok(()) => final(self)@ == old(self)@,
                Err(e) => {
                    let before = old(self)@.locals[c as int];
                    let ti = before.spec_start() / (N as int);
                    &&& e == Error::Retry
                    &&& before.free + old(self)@.trees[ti].free <= N
                    &&& final(self)@.locals == old(self)@.locals.update(
                        c as int,
                        ReservedTree {
                            free: (before.free + old(self)@.trees[ti].free) as usize,
                            ..before
                        },
                    )
                    &&& final(self)@.trees == old(self)@.trees.update(
                        ti,
                        Tree { free: 0, reserved: true },
                    )
                },
            },
    {
        let ghost v = self@;
        let entry = self.local[c].entry;
        let frames = self.lower.frames();
        proof {
            assert(v.local_wf(c as int));
            assert(v.locals[c as int] == entry);
            lemma_free_frames_bound(v.lower);
        }
        if !entry.has_start() {
            return Ok(());
        }
        let i: usize = entry.start() / N;
        proof {
            // the subtree of a reservation has an entry, which is marked as reserved
            assert(i < v.trees.len()) by {
                assert(entry.spec_start() < v.frames());
            }
            assert(v.trees[i as int].reserved);
        }
        if i < self.trees.len() {
            let tree = self.trees.entries[i];
            proof {
                assert(v.tree_wf(i as int));
                assert(v.lower.tree_span(i as int) <= N);
            }
            if entry.free() + tree.free() > ALMOST_ALLOCATED && tree.reserved() {
                let synced = entry.with_free(entry.free() + tree.free());
                let emptied = Tree::new_with(0, true);
                self.trees.entries[i] = emptied;
                self.local[c].entry = synced;
                proof {
                    let w = self@;
                    assert(w.locals =~= v.locals.update(c as int, synced));
                    lemma_step_shift(v, w, c as int, emptied, synced);
                    assert forall|d: int| 0 <= d < self.local.len() implies (
                    #[trigger] self.local[d]).wf() by {}
                }
                return Err(Error::Retry);
            }
        }
        Ok(())
    }

    /// Takes `2^order` frames for core `c` from the subtree of its reservation,
    /// which holds that many. If the subtree cannot serve the request, the frames
    /// go to the entry of the subtree, and `None` is returned.
    fn get_local(&mut self, c: usize, order: usize) -> (r: Result<Option<u64>, Error>)
        requires
            old(self).wf(),
            order <= MAX_ORDER,
            c < old(self)@.locals.len(),
            old(self)@.locals[c as int].spec_has_start(),
            old(self)@.locals[c as int].free >= pow2(order as nat),
        ensures
            final(self).wf(),
            final(self)@.base == old(self)@.base,
            final(self)@.frames() == old(self)@.frames(),
            final(self)@.locals.len() == old(self)@.locals.len(),
            final(self).spec_meta() == old(self).spec_meta(),
            match r {
                Ok(Some(addr)) => old(self)@.got(final(self)@, order as nat, addr as int),
                Ok(None) => {
                    &&& final(self)@.lower == old(self)@.lower
                    &&& old(self)@.lower.none_fits(
                        old(self)@.locals[c as int].spec_start() / (N as int),
                        order as nat,
                    )
                },
                Err(_) => false,
            },
    {
        let ghost v = self@;
        proof {
            lemma_pow2_values();
            lemma_pow2_monotonic(order as nat, 10);
            assert(v.local_wf(c as int));
            lemma_free_frames_bound(v.lower);
        }
        let num = pow2_usize(order);
        let entry = self.local[c].entry;
        assert(v.locals[c as int] == entry);
        let frames = self.lower.frames();
        let dec = entry.with_free(entry.free() - num);
        let start = dec.start();
        let ghost ti = start as int / (N as int);
        assert(ti < v.trees.len());
        match self.lower.get(start, order) {
            Ok(frame) => {
                let next = if order < 6 {
                    dec.with_start(frame)
                } else {
                    dec
                };
                self.local[c].entry = next;
                proof {
                    let w = self@;
                    assert(w.locals =~= v.locals.update(c as int, next));
                    lemma_got_lower(v, w, start as int, order as nat, frame as int);
                    assert(next.spec_start() / (N as int) == ti && next.spec_start() < frames) by {
                        if order < 6 {
                            assert(next.start_raw == frame / 64);
                            assert((frame / 64) * 64 == frame - frame % 64);
                            assert(frame == ti * 16384 + frame % 16384);
                        }
                    }
                    lemma_step_alloc(v, w, c as int, num as nat, next);
                    assert forall|d: int| 0 <= d < self.local.len() implies (
                    #[trigger] self.local[d]).wf() by {}
                }
                assert(self.base + frame * 4096 <= u64::MAX);
                Ok(Some(self.base + (frame as u64) * 4096))
            },
            Err(_) => {
                let rest: usize = frames - (start / N) * N;
                let max: usize = if rest < N {
                    rest
                } else {
                    N
                };
                proof {
                    assert(v.tree_wf(ti));
                    assert(v.lower.tree_span(ti) == max);
                }
                match self.trees.entries[start / N].inc(num, max) {
                    Some(tree) => {
                        self.trees.entries[start / N] = tree;
                    },
                    None => {
                        return Err(Error::Corruption);
                    },
                }
                self.local[c].entry = dec;
                proof {
                    let w = self@;
                    assert(w.locals =~= v.locals.update(c as int, dec));
                    lemma_step_shift(v, w, c as int, w.trees[ti], dec);
                    assert forall|d: int| 0 <= d < self.local.len() implies (
                    #[trigger] self.local[d]).wf() by {}
                }
                Ok(None)
            },
        }
    }

    /// One attempt to allocate `2^order` frames for core `core`.
    ///
    /// If the reservation of the core holds enough frames, they are taken from its
    /// subtree. If the subtree cannot serve the request, or the reservation is
    /// used up, the core gets another subtree, and `Error::Retry` is returned.
    fn get_inner(&mut self, core: usize, order: usize) -> (r: Result<u64, Error>)
        requires
            old(self).wf(),
            order <= MAX_ORDER,
        ensures
            final(self).wf(),
            final(self)@.base == old(self)@.base,
            final(self)@.frames() == old(self)@.frames(),
            final(self)@.locals.len() == old(self)@.locals.len(),
            final(self).spec_meta() == old(self).spec_meta(),
            match r {
                Ok(addr) => old(self)@.got(final(self)@, order as nat, addr as int),
                Err(e) => {
                    &&& e == Error::Retry || e == Error::Memory
                    &&& final(self)@.lower == old(self)@.lower
                    &&& !old(self)@.serves(core as int, order as nat)
                    &&& old(self)@.fresh(core as int) ==> e == Error::Retry && final(self)@.serves(
                        core as int,
                        order as nat,
                    )
                },
            },
    {
        let c: usize = core % self.local.len();
        let ghost v = self@;
        proof {
            lemma_pow2_values();
            lemma_pow2_monotonic(order as nat, 10);
        }
        let num = pow2_usize(order);
        let entry = self.local[c].entry;
        assert(self@.locals[c as int] == entry);
        match entry.dec(num) {
            Some(_) => {
                match self.get_local(c, order) {
                    Ok(Some(addr)) => Ok(addr),
                    Ok(None) => {
                        match self.reserve_or_wait(c, true) {
                            Ok(()) => Err(Error::Retry),
                            Err(e) => Err(e),
                        }
                    },
                    Err(e) => Err(e),
                }
            },
            None => {
                match self.try_sync_with_global(c) {
                    Ok(()) => {},
                    Err(e) => {
                        return Err(e);
                    },
                }
                match self.reserve_or_wait(c, false) {
                    Ok(()) => {
                        proof {
                            if v.fresh(core as int) {
                                lemma_fresh_serves(v, self@, core as int, order as nat);
                            }
                        }
                        Err(Error::Retry)
                    },
                    Err(e) => Err(e),
                }
            },
        }
    }

    /// Allocates `2^order` frames for core `core` and returns their address.
    ///
    /// The frames come from the subtree that the core has reserved. When that
    /// subtree cannot serve the request, another one is reserved and the request
    /// is tried again, up to `CAS_RETRIES` times.
    pub fn get(&mut self, core: usize, order: usize) -> (r: Result<u64, Error>)
        requires
            old(self).wf(),
        ensures
            final(self).wf(),
            final(self)@.base == old(self)@.base,
            final(self)@.frames() == old(self)@.frames(),
            final(self)@.locals.len() == old(self)@.locals.len(),
            final(self).spec_meta() == old(self).spec_meta(),
            match r {
                Ok(addr) => order <= MAX_ORDER && old(self)@.got(
                    final(self)@,
                    order as nat,
                    addr as int,
                ),
                Err(e) => {
                    &&& e == Error::Memory
                    &&& final(self)@.lower == old(self)@.lower
                    &&& order > MAX_ORDER || (!old(self)@.serves(core as int, order as nat)
                        && !old(self)@.fresh(core as int))
                },
            },
    {
        if order > MAX_ORDER {
            return Err(Error::Memory);
        }
        let mut tries: usize = 0;
        while tries < CAS_RETRIES
            invariant
                tries <= CAS_RETRIES,
                order <= MAX_ORDER,
                self.wf(),
                self@.base == old(self)@.base,
                self@.lower == old(self)@.lower,
                self@.locals.len() == old(self)@.locals.len(),
                self.spec_meta() == old(self).spec_meta(),
                tries == 0 ==> self@ == old(self)@,
                tries > 0 ==> !old(self)@.serves(core as int, order as nat),
                tries == 1 && old(self)@.fresh(core as int) ==> self@.serves(
                    core as int,
                    order as nat,
                ),
                tries > 1 ==> !old(self)@.fresh(core as int),
            decreases CAS_RETRIES - tries,
        {
            match self.get_inner(core, order) {
                Ok(addr) => {
                    return Ok(addr);
                },
                Err(Error::Retry) => {},
                Err(e) => {
                    return Err(e);
                },
            }
            tries = tries + 1;
        }
        Err(Error::Memory)
    }

    /// The number of the frame at address `addr`, if that is the address of a
    /// frame of the region whose number is a multiple of `2^order`.
    fn addr_to_frame(&self, addr: u64, order: usize) -> (r: Result<usize, Error>)
        requires
            self.wf(),
        ensures
            match r {
                Ok(frame) => {
                    &&& order <= MAX_ORDER
                    &&& addr == self@.base + frame * 4096
                    &&& frame < self@.frames()
                    &&& frame as int % pow2(order as nat) as int == 0
                },
                Err(e) => {
                    &&& e == if order > MAX_ORDER {
                        Error::Memory
                    } else {
                        Error::Address
                    }
                    &&& order > MAX_ORDER || addr < self@.base || (addr - self@.base) % 4096 != 0
                        || (addr - self@.base) / 4096 >= self@.frames() || ((addr - self@.base)
                        / 4096) % (pow2(order as nat) as int) != 0
                },
            },
    {
        if order > MAX_ORDER {
            return Err(Error::Memory);
        }
        proof {
            lemma_pow2_values();
            lemma_pow2_monotonic(order as nat, 10);
        }
        let num = pow2_usize(order);
        if addr < self.base || (addr - self.base) % 4096 != 0 {
            return Err(Error::Address);
        }
        let index: u64 = (addr - self.base) / 4096;
        let frames = self.lower.frames();
        if index >= frames as u64 {
            return Err(Error::Address);
        }
        let frame: usize = index as usize;
        if frame % num != 0 {
            return Err(Error::Address);
        }
        Ok(frame)
    }

    /// Reserves subtree `i` for core `c`, to take the frees that go there, and
    /// gives the subtree that the core had back. Returns whether it did.
    fn reserve_entry(&mut self, c: usize, i: usize) -> (r: Result<bool, Error>)
        requires
            old(self).wf(),
            c < old(self)@.locals.len(),
            i < old(self)@.trees.len(),
        ensures
            final(self).wf(),
            final(self)@.base == old(self)@.base,
            final(self)@.lower == old(self)@.lower,
            final(self)@.locals.len() == old(self)@.locals.len(),
            final(self).spec_meta() == old(self).spec_meta(),
            match r {
                Ok(done) => {
                    &&& done == crate::trees::reservable(old(self)@.trees[i as int])
                    &&& !done ==> final(self)@ == old(self)@
                    &&& done ==> owns(final(self)@.locals[c as int], i as int)
                    &&& done ==> old(self)@.swapped(final(self)@, c as int, i as int)
                },
                Err(_) => false,
            },
    {
        let ghost v = self@;
        let frames = self.lower.frames();
        proof {
            assert(v.local_wf(c as int));
            assert(v.tree_wf(i as int));
            assert(v.lower.shape());
            assert((v.trees.len() - 1) * N < frames);
            lemma_free_frames_bound(v.lower);
        }
        let tree = self.trees.entries[i];
        match tree.reserve(ALMOST_ALLOCATED..(crate::entry::TREE_FREE_MAX + 1)) {
            Some(reserved) => {
                self.trees.entries[i] = reserved;
                let start: usize = i * N;
                assert(start / 64 == i * 256);
                let entry = ReservedTree::new_with(tree.free(), start);
                proof {
                    assert forall|k: int| 0 <= k < self.trees@.len() implies #[trigger] self.trees@[k].free
                        <= N by {
                        assert(v.tree_wf(k));
                    }
                }
                let r = self.cas_reserved(c, entry, false);
                proof {
                    let w = self@;
                    assert(w.locals =~= v.locals.update(c as int, entry));
                    assert(reserved_at(
                        v.trees,
                        v.trees.update(i as int, Tree { free: 0, reserved: true }),
                        entry,
                        i as int,
                    ));
                    lemma_step_swap(v, w, c as int, i as int, entry);
                    assert forall|d: int| 0 <= d < self.local.len() implies (
                    #[trigger] self.local[d]).wf() by {}
                }
                match r {
                    Ok(()) => Ok(true),
                    Err(e) => Err(Error::Corruption),
                }
            },
            None => Ok(false),
        }
    }

    /// Gives the `2^order` frames at address `addr` back, on behalf of core
    /// `core`.
    ///
    /// The frames are freed in the lower allocator and then credited to the
    /// reservation of the core, if it has their subtree, and else to the entry of
    /// the subtree. When the last frees of the core all went to that subtree and
    /// it has more than `ALMOST_ALLOCATED` free frames, the core reserves it.
    pub fn put(&mut self, core: usize, addr: u64, order: usize) -> (r: Result<(), Error>)
        requires
            old(self).wf(),
        ensures
            final(self).wf(),
            final(self)@.base == old(self)@.base,
            final(self)@.frames() == old(self)@.frames(),
            final(self)@.locals.len() == old(self)@.locals.len(),
            final(self).spec_meta() == old(self).spec_meta(),
            match r {
                Ok(()) => {
                    let c = core as int % (old(self)@.locals.len() as int);
                    let i = ((addr - old(self)@.base) / 4096) / (N as int);
                    let freed = ArrayView { lower: final(self)@.lower, ..old(self)@ };
                    &&& old(self)@.can_put(order as nat, addr as int)
                    &&& old(self)@.put_done(final(self)@, order as nat, addr as int)
                    &&& freed.credited(final(self)@, c, i, pow2(order as nat)) || (exists|
                        m: ArrayView,
                    |
                        #![trigger m.swapped(final(self)@, c, i)]
                        {
                            &&& freed.credited(m, c, i, pow2(order as nat))
                            &&& m.lower == freed.lower
                            &&& m.swapped(final(self)@, c, i)
                            &&& core == c
                            &&& !owns(old(self)@.locals[c], i)
                            &&& !old(self)@.trees[i].reserved
                            &&& old(self)@.trees[i].free + pow2(order as nat) > ALMOST_ALLOCATED
                        })
                },
                Err(e) => {
                    &&& e == if order > MAX_ORDER {
                        Error::Memory
                    } else {
                        Error::Address
                    }
                    &&& !old(self)@.can_put(order as nat, addr as int)
                    &&& final(self)@ == old(self)@
                },
            },
    {
        let ghost v = self@;
        proof {
            lemma_pow2_monotonic(0, order as nat);
        }
        let frame = match self.addr_to_frame(addr, order) {
            Ok(frame) => frame,
            Err(e) => {
                return Err(e);
            },
        };
        assert((addr - v.base) / 4096 == frame && (addr - v.base) % 4096 == 0);
        match self.lower.put(frame, order) {
            Ok(()) => {},
            Err(e) => {
                return Err(e);
            },
        }
        proof {
            lemma_pow2_values();
            lemma_pow2_monotonic(order as nat, 10);
            lemma_put_lower(
                v,
                ArrayView { lower: self.lower@, ..v },
                order as nat,
                frame as int,
            );
            lemma_credit_bound(v, self.lower@, (frame / N) as int, pow2(order as nat));
        }
        let num = pow2_usize(order);
        let frames = self.lower.frames();
        let i: usize = frame / N;
        let c: usize = core % self.local.len();
        let rest: usize = frames - i * N;
        let max: usize = if rest < N {
            rest
        } else {
            N
        };
        let entry = self.local[c].entry;
        proof {
            assert(v.locals[c as int] == entry);
            assert(v.local_wf(c as int));
            assert(v.tree_wf(i as int));
            assert(self.lower@.tree_span(i as int) == max);
        }
        if entry.has_start() && entry.start() / N == i {
            let same = |start: usize| -> (b: bool)
                ensures
                    b == (start / N == i),
                { start / N == i };
            match entry.inc(num, max, same) {
                Some(credited) => {
                    self.local[c].entry = credited;
                    if c == core {
                        self.local[c].frees_push(i);
                    }
                    proof {
                        assert(owns(v.locals[c as int], i as int));
                        let w = self@;
                        assert(w.locals =~= v.locals.update(c as int, credited));
                        lemma_step_free(v, w, c as int, i as int, num as nat, credited);
                        assert forall|d: int| 0 <= d < self.local.len() implies (
                        #[trigger] self.local[d]).wf() by {}
                        let freed = ArrayView { lower: w.lower, ..v };
                        assert(freed.credited(w, c as int, i as int, num as nat));
                    }
                    return Ok(());
                },
                None => {
                    return Err(Error::Corruption);
                },
            }
        }
        let tree = self.trees.entries[i];
        match tree.inc(num, max) {
            Some(credited) => {
                self.trees.entries[i] = credited;
                let ghost m = self@;
                proof {
                    assert(m.locals =~= v.locals);
                    lemma_step_credit(v, m, i as int, num as nat);
                    assert forall|d: int| 0 <= d < self.local.len() implies (
                    #[trigger] self.local[d]).wf() by {}
                    let freed = ArrayView { lower: m.lower, ..v };
                    assert(!owns(v.locals[c as int], i as int));
                    assert(freed.credited(m, c as int, i as int, num as nat));
                }
                let mut reserved = false;
                if !tree.reserved() && credited.free() > ALMOST_ALLOCATED && core == c
                    && self.local[c].frees_related(i) {
                    match self.reserve_entry(c, i) {
                        Ok(done) => {
                            reserved = done;
                        },
                        Err(e) => {
                            return Err(e);
                        },
                    }
                }
                if c == core {
                    let ghost kept = self@;
                    self.local[c].frees_push(i);
                    proof {
                        assert(self@.locals =~= kept.locals);
                        assert forall|d: int| 0 <= d < self.local.len() implies (
                        #[trigger] self.local[d]).wf() by {}
                    }
                }
                proof {
                    if reserved {
                        assert(m.swapped(self@, c as int, i as int));
                    } else {
                        assert(self@ == m);
                    }
                }
                Ok(())
            },
            None => Err(Error::Corruption),
        }
    }

    /// Gives the subtree that core `core` has reserved back.
    pub fn drain(&mut self, core: usize) -> (r: Result<(), Error>)
        requires
            old(self).wf(),
        ensures
            final(self).wf(),
            final(self)@.base == old(self)@.base,
            final(self)@.lower == old(self)@.lower,
            final(self)@.locals.len() == old(self)@.locals.len(),
            final(self).spec_meta() == old(self).spec_meta(),
            r is Ok,
            old(self)@.swapped(
                final(self)@,
                core as int % (old(self)@.locals.len() as int),
                -1,
            ),
    {
        let ghost v = self@;
        let c: usize = core % self.local.len();
        let frames = self.lower.frames();
        proof {
            assert(v.local_wf(c as int));
            assert(v.lower.shape());
            assert(0 < v.trees.len() && (v.trees.len() - 1) * N < frames);
            lemma_free_frames_bound(v.lower);
            assert forall|i: int| 0 <= i < self.trees@.len() implies #[trigger] self.trees@[i].free
                <= N by {
                assert(v.tree_wf(i));
            }
        }
        let empty = ReservedTree::new();
        let r = self.cas_reserved(c, empty, false);
        proof {
            let w = self@;
            assert(w.locals =~= v.locals.update(c as int, empty));
            lemma_step_swap(v, w, c as int, -1, empty);
            assert forall|d: int| 0 <= d < self.local.len() implies (#[trigger] self.local[d]).wf() by {}
        }
        match r {
            Ok(()) => Ok(()),
            Err(Error::Retry) => Ok(()),
            Err(e) => Err(e),
        }
    }

    /// Whether the `2^order` frames at address `addr` are all free.
    pub fn is_free(&self, addr: u64, order: usize) -> (r: bool)
        requires
            self.wf(),
        ensures
            r == (order <= MAX_ORDER && addr >= self@.base && (addr - self@.base) % 4096 == 0 && ((
            addr - self@.base) / 4096) % (pow2(order as nat) as int) == 0 && (addr - self@.base)
                / 4096 + pow2(order as nat) <= self@.frames() && forall|f: int|
                (addr - self@.base) / 4096 <= f < (addr - self@.base) / 4096 + pow2(order as nat)
                    ==> !#[trigger] self@.lower.allocated(f)),
    {
        proof {
            lemma_pow2_monotonic(0, order as nat);
        }
        match self.addr_to_frame(addr, order) {
            Ok(frame) => {
                assert((addr - self@.base) / 4096 == frame && (addr - self@.base) % 4096 == 0);
                self.lower.is_free(frame, order)
            },
            Err(_) => false,
        }
    }

    /// Number of free frames, as the tree entries and the reservations count
    /// them.
    pub fn free_frames(&self) -> (r: usize)
        requires
            self.wf(),
        ensures
            r == self@.free_frames(),
            r == sum_trees(self@.trees, self@.trees.len() as int) + sum_locals(
                self@.locals,
                self@.locals.len() as int,
            ),
            r <= self@.frames(),
    {
        let frames = self.lower.frames();
        proof {
            lemma_free_frames_bound(self@.lower);
        }
        let ghost total = sum_trees(self@.trees, self@.trees.len() as int) + sum_locals(
            self@.locals,
            self@.locals.len() as int,
        );
        let mut free: usize = 0;
        let mut i: usize = 0;
        while i < self.trees.len()
            invariant
                i <= self.trees@.len(),
                free == sum_trees(self.trees@, i as int),
                sum_trees(self.trees@, self.trees@.len() as int) <= frames,
            decreases self.trees@.len() - i,
        {
            proof {
                lemma_sum_trees_grows(self.trees@, i + 1, self.trees@.len() as int);
            }
            free = free + self.trees.entries[i].free();
            i = i + 1;
        }
        let ghost locals = self@.locals;
        let mut c: usize = 0;
        while c < self.local.len()
            invariant
                c <= self.local.len(),
                locals == self@.locals,
                locals.len() == self.local.len(),
                free == sum_trees(self.trees@, self.trees@.len() as int) + sum_locals(
                    locals,
                    c as int,
                ),
                sum_trees(self.trees@, self.trees@.len() as int) + sum_locals(
                    locals,
                    locals.len() as int,
                ) <= frames,
            decreases self.local.len() - c,
        {
            proof {
                lemma_sum_locals_grows(locals, c + 1, locals.len() as int);
                assert(locals[c as int] == self.local[c as int].entry);
            }
            free = free + self.local[c].entry.free();
            c = c + 1;
        }
        free
    }

    /// Number of allocated frames.
    pub fn allocated_frames(&self) -> (r: usize)
        requires
            self.wf(),
        ensures
            r == self@.allocated_frames(),
    {
        self.lower.frames() - self.free_frames()
    }

    /// Marks the persistent header for an orderly end: what the header then says
    /// of the counters can be trusted.
    pub fn close(&mut self)
        requires
            old(self).wf(),
        ensures
            final(self).wf(),
            final(self)@ == old(self)@,
            final(self).spec_meta() == (Meta { crashed: false, ..old(self).spec_meta() }),
    {
        let ghost v = self@;
        self.meta.crashed = false;
        proof {
            assert(self@.locals =~= v.locals);
        }
    }

    /// Takes over the state that an earlier allocator left for the `len` frames at
    /// address `base`: its header `meta`, the words of its bitfields and the
    /// counters of its chunk entries.
    ///
    /// The header has to carry the magic number and the number of frames that
    /// this allocator manages, and the state has to be one that recovery can
    /// repair. If the header says that the earlier allocator did not end in
    /// order, no counter is trusted: they are taken from the bitfields. The tree
    /// entries are built anew, and no core has a reservation.
    pub fn recover(
        cores: usize,
        base: u64,
        len: usize,
        meta: Meta,
        words: &Vec<u64>,
        counts: &Vec<u16>,
    ) -> (r: Result<Self, Error>)
        requires
            base % 4096 == 0,
            base + len * 4096 <= u64::MAX,
        ensures
            match r {
                Ok(a) => {
                    let frames = Self::spec_managed(len as int, Init::Recover);
                    let image = image_view(frames as nat, words@, counts@);
                    &&& a.wf()
                    &&& a@.base == base
                    &&& a@.frames() == frames
                    &&& meta.magic == MAGIC
                    &&& meta.frames == frames
                    &&& image.recoverable()
                    &&& a@.lower.children.len() == image.children.len()
                    &&& forall|c: int|
                        0 <= c < image.children.len() ==> #[trigger] image.chunk_recovered(
                            a@.lower,
                            c,
                        )
                    &&& a@.free_frames() == image.free_frames() + image.sum_drift(
                        0,
                        image.children.len() as int,
                    )
                    &&& forall|c: int|
                        0 <= c < a@.locals.len() ==> !(#[trigger] a@.locals[c]).spec_has_start()
                    &&& a.spec_meta() == (Meta { crashed: true, ..meta })
                },
                Err(e) => {
                    let frames = Self::spec_managed(len as int, Init::Recover);
                    let image = image_view(frames as nat, words@, counts@);
                    let small = len == 0 || frames < N * (if cores == 0 {
                        1
                    } else {
                        cores as int
                    });
                    &&& e == if small {
                        Error::Memory
                    } else {
                        Error::Initialization
                    }
                    &&& small || meta.magic != MAGIC || meta.frames != frames || words@.len() != 8
                        * spec_div_ceil(frames, CHUNK as int) || counts@.len() != HP
                        * spec_div_ceil(frames, N as int) || !image.recoverable() || (
                    !meta.crashed && !(forall|c: int|
                        0 <= c < image.children.len() ==> #[trigger] image.chunk_counted(c)))
                },
            },
    {
        let cores: usize = if cores == 0 {
            1
        } else {
            cores
        };
        let frames: usize = match Self::managed(len, Init::Recover) {
            Some(frames) => frames,
            None => {
                return Err(Error::Memory);
            },
        };
        if frames / N < cores {
            assert(frames < N * cores) by (nonlinear_arith)
                requires
                    (frames / N) < cores,
                    N == 16384,
            ;
            return Err(Error::Memory);
        }
        assert(frames >= N * cores) by (nonlinear_arith)
            requires
                (frames / N) >= cores,
                N == 16384,
        ;
        if meta.magic != MAGIC || meta.frames != frames as u64 {
            return Err(Error::Initialization);
        }
        let region: usize = frames + Lower::metadata_frames(
            if (len - 1) / N >= MAX_TREES {
                MAX_TREES * N
            } else {
                len - 1
            },
        );
        let mut lower = Lower::new(cores, base / 4096, region, Init::Recover, false);
        if !lower.restore(words, counts) {
            return Err(Error::Initialization);
        }
        let deep = meta.crashed;
        let ghost image = lower@;
        proof {
            let named = image_view(frames as nat, words@, counts@);
            assert(named.children =~= image.children);
            assert(named.fields =~= image.fields) by {
                assert forall|c: int| 0 <= c < image.fields.len() implies #[trigger] named.fields[c]
                    =~= image.fields[c] by {
                    assert forall|w: int| 0 <= w < 8 implies named.fields[c][w] == image.fields[c][w] by {
                    }
                }
            }
            assert(named == image);
        }
        if !lower.check(deep) {
            return Err(Error::Initialization);
        }
        proof {
            let named = image_view(frames as nat, words@, counts@);
            assert(named.children =~= image.children);
            assert(named.fields =~= image.fields) by {
                assert forall|c: int| 0 <= c < image.fields.len() implies #[trigger] named.fields[c]
                    =~= image.fields[c] by {
                    assert forall|w: int| 0 <= w < 8 implies named.fields[c][w] == image.fields[c][w] by {
                    }
                }
            }
            assert(named == image);
            assert(spec_div_ceil(frames as int, N as int) <= MAX_TREES) by {
                assert(frames <= 0x40_0000 * 16384);
            }
        }
        let num_trees = crate::util::div_ceil(frames, N);
        let mut entries: Vec<Tree> = Vec::new();
        let mut t: usize = 0;
        while t < num_trees
            invariant
                t <= num_trees,
                num_trees == image.trees(),
                frames == image.frames,
                image.recoverable(),
                lower@.recoverable(),
                lower@.frames == image.frames,
                lower.spec_begin() == base / 4096,
                lower@.children.len() == image.children.len(),
                lower@.fields.len() == image.fields.len(),
                !deep ==> forall|c: int|
                    0 <= c < image.children.len() ==> #[trigger] image.chunk_counted(c),
                forall|c: int| 0 <= c < t * HP ==> #[trigger] image.chunk_recovered(lower@, c),
                forall|c: int|
                    t * HP <= c < image.children.len() ==> #[trigger] lower@.children[c]
                        == image.children[c],
                forall|c: int|
                    t * HP <= c < image.fields.len() ==> #[trigger] lower@.fields[c]
                        == image.fields[c],
                entries@.len() == t,
                forall|i: int|
                    0 <= i < t ==> #[trigger] entries@[i] == (Tree {
                        free: lower@.tree_free(i) as usize,
                        reserved: false,
                    }) && lower@.tree_free(i) <= N,
                crate::lower::sum_free(lower@.children, 0, t * HP) == crate::lower::sum_free(
                    image.children,
                    0,
                    t * HP,
                ) + image.sum_drift(0, t * HP),
            decreases num_trees - t,
        {
            let ghost before = lower@;
            assert(t * N < frames) by {
                assert(t < spec_div_ceil(frames as int, N as int));
            }
            proof {
                if !deep {
                    assert forall|c: int| t * HP <= c < t * HP + HP implies #[trigger] before.chunk_counted(
                        c,
                    ) by {
                        assert(image.chunk_counted(c));
                        assert(before.children[c] == image.children[c]);
                        if c < image.fields.len() {
                            assert(before.fields[c] == image.fields[c]);
                        }
                    }
                }
            }
            let pages = match lower.recover(t * N, deep) {
                Ok(pages) => pages,
                Err(e) => {
                    return Err(Error::Initialization);
                },
            };
            proof {
                let after = lower@;
                assert((t * N) as int / (N as int) == t);
                lemma_recovered_tree(image, before, after, t as int);
                assert forall|i: int| 0 <= i < t implies after.tree_free(i) == before.tree_free(
                    i,
                ) by {
                    crate::lower::lemma_sum_free_same(
                        before.children,
                        after.children,
                        i * HP,
                        i * HP + HP,
                    );
                }
            }
            entries.push(Tree::new_with(pages, false));
            t = t + 1;
        }
        let trees = Trees { entries };
        let mut local: Vec<Local<4>> = Vec::new();
        let mut c: usize = 0;
        while c < cores
            invariant
                c <= cores,
                local.len() == c,
                forall|d: int|
                    0 <= d < c ==> (#[trigger] local[d]).wf() && local[d].entry == (ReservedTree {
                        free: 0,
                        locked: false,
                        start_raw: START_RAW_MAX,
                    }),
            decreases cores - c,
        {
            local.push(Local::new());
            c = c + 1;
        }
        let kept = Meta { magic: meta.magic, frames: meta.frames, crashed: true };
        let alloc = Array { base, local, lower, trees, meta: kept };
        proof {
            let v = alloc@;
            assert(v.lower.wf()) by {
                assert forall|d: int| 0 <= d < v.lower.children.len() implies #[trigger] v.lower.chunk_counted(
                    d,
                ) by {
                    assert(image.chunk_recovered(v.lower, d));
                }
            }
            lemma_free_frames_bound(v.lower);
            lemma_sum_trees_lower(v.lower, v.trees, v.trees.len() as int);
            lemma_sum_locals_zero(v.locals, v.locals.len() as int);
            assert forall|i: int| 0 <= i < v.trees.len() implies #[trigger] v.tree_wf(i) by {
                assert(v.trees[i].free == v.lower.tree_free(i));
            }
            assert forall|d: int| 0 <= d < v.locals.len() implies #[trigger] v.local_wf(d) by {}
        }
        Ok(alloc)
    }

    /// Number of chunks that are entirely free.
    pub fn free_huge_frames(&self) -> (r: usize)
        ensures
            r == crate::lower::count_full(
                self@.lower.children,
                self@.lower.children.len() as int,
            ),
    {
        self.lower.free_huge_frames()
    }

    /// The words of all bitfields, chunk after chunk, as they are to be stored.
    pub fn words(&self) -> (r: Vec<u64>)
        requires
            self.wf(),
        ensures
            r@.len() == 8 * self@.lower.fields.len(),
            forall|c: int, w: int|
                0 <= c < self@.lower.fields.len() && 0 <= w < 8 ==> #[trigger] self@.lower.fields[c][w]
                    == r@[c * 8 + w],
    {
        self.lower.words()
    }

    /// The counters of all chunk entries, as they are to be stored.
    pub fn counts(&self) -> (r: Vec<u16>)
        ensures
            r@.len() == self@.lower.children.len(),
            forall|c: int| 0 <= c < r@.len() ==> #[trigger] r@[c] == self@.lower.children[c].count,
    {
        self.lower.counts()
    }

    /// Number of managed frames.
    pub fn frames(&self) -> (r: usize)
        ensures
            r == self@.frames(),
    {
        self.lower.frames()
    }

    /// Address of the first managed frame.
    pub fn base(&self) -> (r: u64)
        ensures
            r == self@.base,
    {
        self.base
    }

    /// The persistent header.
    pub fn meta(&self) -> (r: Meta)
        ensures
            r == self.spec_meta(),
    {
        self.meta
    }

    /// Number of cores that have data of their own.
    pub fn cores(&self) -> (r: usize)
        ensures
            r == self@.locals.len(),
    {
        self.local.len()
    }
}

} // verus!
