//! What holds of the allocator between any two operations.
use vstd::prelude::*;
use crate::array::{sum_locals, sum_trees, ArrayView};
use crate::bitfield::{lemma_seq_zeros_extremes, seq_bit, seq_zeros, lemma_whole_word};
use crate::bitfield::seq_run_full;
use crate::lower::{
    lemma_free_frames_bound,
    lemma_no_drift,
    lemma_pair_in_range,
    LowerView,
    CHUNK,
    HUGE_ORDER,
    MAX_ORDER,
};
use crate::util::{lemma_mod_diff, lemma_mod_fits, lemma_mod_mul, lemma_pow2_divides, lemma_pow2_values};
use crate::util::{lemma_pow2_monotonic, pow2};

verus! {

/// Whether the frame `f` belongs to the `2^order` frames at address `addr` of an
/// allocator whose first frame has the address `base`.
pub open spec fn in_run(base: int, addr: int, order: nat, f: int) -> bool {
    (addr - base) / 4096 <= f < (addr - base) / 4096 + pow2(order)
}

/// The frames that `get` hands out overlap with no allocation that
/// is held at that time. So two results of `get`, of which neither was given
/// back, are disjoint.
pub proof fn lemma_get_unique(
    before: ArrayView,
    after: ArrayView,
    order: nat,
    addr: int,
    held: int,
    held_order: nat,
)
    requires
        before.got(after, order, addr),
        forall|f: int|
            in_run(before.base as int, held, held_order, f) ==> #[trigger] before.lower.allocated(f),
    ensures
        forall|f: int|
            !(in_run(before.base as int, addr, order, f) && in_run(
                before.base as int,
                held,
                held_order,
                f,
            )),
        forall|f: int|
            in_run(before.base as int, addr, order, f) ==> #[trigger] after.lower.allocated(f),
{
    assert forall|f: int|
        !(in_run(before.base as int, addr, order, f) && in_run(
            before.base as int,
            held,
            held_order,
            f,
        )) by {
        if in_run(before.base as int, addr, order, f) {
            assert(!before.lower.allocated(f));
        }
    }
    assert forall|f: int| in_run(before.base as int, addr, order, f) implies #[trigger] after.lower.allocated(
        f,
    ) by {
        assert(after.lower.allocated(f) == (before.lower.allocated(f) || in_run(
            before.base as int,
            addr,
            order,
            f,
        )));
    }
}

/// An allocation that is held stays allocated through every `get`, and through
/// every `put` of frames that are not its own.
pub proof fn lemma_held_stays(
    before: ArrayView,
    after: ArrayView,
    order: nat,
    addr: int,
    held: int,
    held_order: nat,
)
    requires
        before.got(after, order, addr) || (before.put_done(after, order, addr) && forall|f: int|
            !(in_run(before.base as int, addr, order, f) && in_run(
                before.base as int,
                held,
                held_order,
                f,
            ))),
        0 <= (held - before.base) / 4096,
        (held - before.base) / 4096 + pow2(held_order) <= before.frames(),
        forall|f: int|
            in_run(before.base as int, held, held_order, f) ==> #[trigger] before.lower.allocated(f),
    ensures
        forall|f: int|
            in_run(before.base as int, held, held_order, f) ==> #[trigger] after.lower.allocated(f),
{
    assert forall|f: int| in_run(before.base as int, held, held_order, f) implies #[trigger] after.lower.allocated(
        f,
    ) by {
        assert(before.lower.allocated(f));
        if before.got(after, order, addr) {
            assert(after.lower.allocated(f) == (before.lower.allocated(f) || in_run(
                before.base as int,
                addr,
                order,
                f,
            )));
        } else {
            assert(!(in_run(before.base as int, addr, order, f) && in_run(
                before.base as int,
                held,
                held_order,
                f,
            )));
            assert(after.lower.allocated(f) == (before.lower.allocated(f) && !in_run(
                before.base as int,
                addr,
                order,
                f,
            )));
        }
    }
}

/// An aligned run of an order below 9 lies within one chunk.
proof fn lemma_small_run(frame: int, order: nat)
    requires
        0 <= frame,
        order < HUGE_ORDER,
        frame % (pow2(order) as int) == 0,
    ensures
        frame % 512 + pow2(order) <= 512,
        forall|f: int| frame <= f < frame + pow2(order) ==> #[trigger] (f / 512) == frame / 512,
{
    lemma_pow2_values();
    lemma_pow2_monotonic(order, 8);
    lemma_pow2_divides(order, 9, 512);
    let num = pow2(order) as int;
    let c = frame / 512;
    lemma_mod_mul(c, 512, num);
    lemma_mod_diff(frame, c * 512, num);
    lemma_mod_fits(frame % 512, num, 512);
}

/// Whether all frames of the run at `addr` are allocated, and as huge frames
/// if the run is one.
proof fn lemma_can_put_frames(v: ArrayView, order: nat, addr: int)
    requires
        v.lower.shape(),
        order <= MAX_ORDER,
        addr >= v.base,
        (addr - v.base) % 4096 == 0,
        ((addr - v.base) / 4096) % (pow2(order) as int) == 0,
        (addr - v.base) / 4096 + pow2(order) <= v.frames(),
    ensures
        v.can_put(order, addr) <==> {
            let frame = (addr - v.base) / 4096;
            &&& forall|f: int| frame <= f < frame + pow2(order) ==> #[trigger] v.lower.allocated(f)
            &&& order >= HUGE_ORDER ==> forall|d: int|
                frame <= d * CHUNK < frame + pow2(order) ==> #[trigger] v.lower.huge(d)
        },
{
    lemma_pow2_values();
    let frame = (addr - v.base) / 4096;
    let c = frame / 512;
    let num = pow2(order) as int;
    if order == MAX_ORDER {
        lemma_pair_in_range(v.lower, frame);
        if v.can_put(order, addr) {
            assert forall|f: int| frame <= f < frame + num implies #[trigger] v.lower.allocated(
                f,
            ) by {
                assert(f / 512 == c || f / 512 == c + 1);
            }
            assert forall|d: int| frame <= d * CHUNK < frame + num implies #[trigger] v.lower.huge(
                d,
            ) by {
                assert(d == c || d == c + 1);
            }
        }
        if forall|d: int| frame <= d * CHUNK < frame + num ==> #[trigger] v.lower.huge(d) {
            assert(v.lower.huge(c));
            assert(v.lower.huge(c + 1));
        }
    } else if order == HUGE_ORDER {
        assert(frame == c * 512);
        if v.can_put(order, addr) {
            assert forall|f: int| frame <= f < frame + num implies #[trigger] v.lower.allocated(
                f,
            ) by {
                assert(f / 512 == c);
            }
            assert forall|d: int| frame <= d * CHUNK < frame + num implies #[trigger] v.lower.huge(
                d,
            ) by {
                assert(d == c);
            }
        }
        if forall|d: int| frame <= d * CHUNK < frame + num ==> #[trigger] v.lower.huge(d) {
            assert(v.lower.huge(c));
        }
    } else {
        lemma_small_run(frame, order);
        let off = frame % 512;
        let words = v.lower.fields[c];
        if v.can_put(order, addr) {
            assert forall|f: int| frame <= f < frame + num implies #[trigger] v.lower.allocated(
                f,
            ) by {
                assert(f / 512 == c);
                if !v.lower.huge(c) {
                    assert(seq_bit(words, f % 512));
                }
            }
        }
        if forall|f: int| frame <= f < frame + num ==> #[trigger] v.lower.allocated(f) {
            if !v.lower.huge(c) {
                assert forall|k: int| off <= k < off + num implies #[trigger] seq_bit(words, k) by {
                    let f = c * 512 + k;
                    assert(f / 512 == c && f % 512 == k);
                    assert(v.lower.allocated(f));
                }
                assert(seq_run_full(words, off, num));
            }
        }
    }
}

/// What `get` handed out can be given back at the same order.
pub proof fn lemma_got_can_put(before: ArrayView, after: ArrayView, order: nat, addr: int)
    requires
        before.lower.shape(),
        after.lower.shape(),
        order <= MAX_ORDER,
        before.got(after, order, addr),
    ensures
        after.can_put(order, addr),
{
    lemma_pow2_values();
    let frame = (addr - before.base) / 4096;
    let num = pow2(order) as int;
    lemma_can_put_frames(after, order, addr);
    assert forall|f: int| frame <= f < frame + num implies #[trigger] after.lower.allocated(f) by {
        assert(after.lower.allocated(f) == (before.lower.allocated(f) || frame <= f < frame + num));
    }
    if order >= HUGE_ORDER {
        assert forall|d: int| frame <= d * CHUNK < frame + num implies #[trigger] after.lower.huge(
            d,
        ) by {
            assert(d * 512 < before.frames());
            assert(d < before.lower.chunks());
            assert(before.lower.chunks() <= before.lower.trees() * 32);
            assert(after.lower.huge(d) == (before.lower.huge(d) || (order >= HUGE_ORDER && frame
                <= d * CHUNK < frame + num)));
        }
    }
}

/// What can be given back can still be given back after a `get`, and after a
/// `put` of frames that are not its own. So every allocation can be freed, once,
/// at the order at which it was obtained.
pub proof fn lemma_can_put_stays(
    before: ArrayView,
    after: ArrayView,
    order: nat,
    addr: int,
    held: int,
    held_order: nat,
)
    requires
        before.lower.shape(),
        after.lower.shape(),
        before.can_put(held_order, held),
        before.got(after, order, addr) || (before.put_done(after, order, addr) && forall|f: int|
            !(in_run(before.base as int, addr, order, f) && in_run(
                before.base as int,
                held,
                held_order,
                f,
            ))),
    ensures
        after.can_put(held_order, held),
{
    lemma_pow2_values();
    lemma_pow2_monotonic(0, held_order);
    lemma_pow2_monotonic(0, order);
    let base = before.base as int;
    let mine = (held - base) / 4096;
    let other = (addr - base) / 4096;
    let num = pow2(held_order) as int;
    let len = pow2(order) as int;
    lemma_can_put_frames(before, held_order, held);
    lemma_can_put_frames(after, held_order, held);
    assert forall|f: int| mine <= f < mine + num implies #[trigger] after.lower.allocated(f) by {
        assert(before.lower.allocated(f));
        if before.got(after, order, addr) {
            assert(after.lower.allocated(f) == (before.lower.allocated(f) || other <= f < other
                + len));
        } else {
            assert(!(in_run(base, addr, order, f) && in_run(base, held, held_order, f)));
            assert(after.lower.allocated(f) == (before.lower.allocated(f) && !(other <= f < other
                + len)));
        }
    }
    if held_order >= HUGE_ORDER {
        assert forall|d: int| mine <= d * CHUNK < mine + num implies #[trigger] after.lower.huge(
            d,
        ) by {
            assert(before.lower.huge(d));
            assert(d * 512 < before.frames());
            assert(d < before.lower.chunks());
            assert(before.lower.chunks() <= before.lower.trees() * 32);
            if before.got(after, order, addr) {
                assert(after.lower.huge(d) == (before.lower.huge(d) || (order >= HUGE_ORDER
                    && other <= d * CHUNK < other + len)));
            } else {
                // the chunk is part of the held run, so the other run misses it
                lemma_pow2_divides(9, held_order, mine);
                assert(mine <= d * 512 && d * 512 + 512 <= mine + num) by {
                    lemma_mod_mul(d, 512, 512);
                    lemma_mod_diff(d * 512, mine, 512);
                    lemma_pow2_divides(9, held_order, num);
                    lemma_mod_fits(d * 512 - mine, 512, num);
                }
                assert(!(in_run(base, addr, order, d * 512) && in_run(
                    base,
                    held,
                    held_order,
                    d * 512,
                )));
                assert(!(in_run(base, addr, order, other) && in_run(base, held, held_order, other)));
                assert(after.lower.huge(d) == (before.lower.huge(d) && !(d * CHUNK <= other < (d
                    + 1) * CHUNK || other <= d * CHUNK < other + len)));
            }
        }
    }
}

/// What was given back cannot be given back once more, unless it is allocated
/// anew.
pub proof fn lemma_put_once(before: ArrayView, after: ArrayView, order: nat, addr: int)
    requires
        before.lower.shape(),
        after.lower.shape(),
        before.can_put(order, addr),
        before.put_done(after, order, addr),
    ensures
        !after.can_put(order, addr),
{
    lemma_pow2_values();
    lemma_pow2_monotonic(0, order);
    let frame = (addr - before.base) / 4096;
    lemma_can_put_frames(after, order, addr);
    assert(!after.lower.allocated(frame)) by {
        assert(after.lower.allocated(frame) == (before.lower.allocated(frame) && !(frame <= frame
            < frame + pow2(order))));
    }
}

/// What `get` hands out lies in the region, and its offset in the
/// region is a multiple of its size.
pub proof fn lemma_get_contained(before: ArrayView, after: ArrayView, order: nat, addr: int)
    requires
        before.got(after, order, addr),
    ensures
        before.base <= addr,
        addr + pow2(order) * 4096 <= before.base + before.frames() * 4096,
        (addr - before.base) % (pow2(order) * 4096) as int == 0,
{
    let frame = (addr - before.base) / 4096;
    let num = pow2(order) as int;
    lemma_pow2_monotonic(0, order);
    assert((frame + num) * 4096 <= before.frames() * 4096) by (nonlinear_arith)
        requires
            frame + num <= before.frames(),
    ;
    assert((frame + num) * 4096 == frame * 4096 + num * 4096) by (nonlinear_arith);
    assert((frame * 4096) % (num * 4096) == 0) by (nonlinear_arith)
        requires
            frame % num == 0,
            num > 0,
    {
        let q = frame / num;
        assert(frame == q * num);
        assert(frame * 4096 == q * (num * 4096));
    }
}

/// A step of a run of the allocator: a `get` or a `put` of `2^order` frames.
pub struct Step {
    /// Whether the step is a `get`.
    pub get: bool,
    /// The order of the request.
    pub order: nat,
    /// The address that `get` returned or `put` was given.
    pub addr: int,
}

/// By how many frames the first `n` steps raise the number of allocated frames.
pub open spec fn effect(steps: Seq<Step>, n: int) -> int
    decreases n,
{
    if n <= 0 {
        0
    } else if steps[n - 1].get {
        effect(steps, n - 1) + pow2(steps[n - 1].order)
    } else {
        effect(steps, n - 1) - pow2(steps[n - 1].order)
    }
}

/// How many of the first `n` steps are of the given kind and order.
pub open spec fn count(steps: Seq<Step>, n: int, get: bool, order: nat) -> int
    decreases n,
{
    if n <= 0 {
        0
    } else {
        count(steps, n - 1, get, order) + if steps[n - 1].get == get && steps[n - 1].order
            == order {
            1int
        } else {
            0int
        }
    }
}

/// The frames that the gets of the orders `0 ..= upto` among the first `n` steps
/// took, less those that the puts of these orders gave back.
pub open spec fn balance(steps: Seq<Step>, n: int, upto: nat) -> int
    decreases upto,
{
    let here = pow2(upto) * (count(steps, n, true, upto) - count(steps, n, false, upto));
    if upto == 0 {
        here
    } else {
        balance(steps, n, (upto - 1) as nat) + here
    }
}

proof fn lemma_balance_step(steps: Seq<Step>, n: int, upto: nat)
    requires
        0 < n <= steps.len(),
    ensures
        balance(steps, n, upto) == balance(steps, n - 1, upto) + if steps[n - 1].order <= upto {
            if steps[n - 1].get {
                pow2(steps[n - 1].order) as int
            } else {
                -(pow2(steps[n - 1].order) as int)
            }
        } else {
            0
        },
    decreases upto,
{
    let s = steps[n - 1];
    let g = count(steps, n, true, upto) - count(steps, n, false, upto);
    let h = count(steps, n - 1, true, upto) - count(steps, n - 1, false, upto);
    let p = pow2(upto) as int;
    if s.order == upto {
        if s.get {
            assert(g == h + 1);
            assert(p * g == p * h + p) by (nonlinear_arith)
                requires
                    g == h + 1,
            ;
        } else {
            assert(g == h - 1);
            assert(p * g == p * h - p) by (nonlinear_arith)
                requires
                    g == h - 1,
            ;
        }
    } else {
        assert(g == h);
    }
    if upto > 0 {
        lemma_balance_step(steps, n, (upto - 1) as nat);
    }
}

proof fn lemma_effect_balance(steps: Seq<Step>, n: int)
    requires
        0 <= n <= steps.len(),
        forall|k: int| 0 <= k < steps.len() ==> (#[trigger] steps[k]).order <= MAX_ORDER,
    ensures
        effect(steps, n) == balance(steps, n, MAX_ORDER as nat),
    decreases n,
{
    if n > 0 {
        lemma_effect_balance(steps, n - 1);
        lemma_balance_step(steps, n, MAX_ORDER as nat);
    } else {
        lemma_balance_zero(steps, 0, MAX_ORDER as nat);
    }
}

proof fn lemma_balance_zero(steps: Seq<Step>, n: int, upto: nat)
    requires
        forall|o: nat| o <= upto ==> #[trigger] count(steps, n, true, o) == count(steps, n, false, o),
    ensures
        balance(steps, n, upto) == 0,
    decreases upto,
{
    assert(count(steps, n, true, upto) == count(steps, n, false, upto));
    assert(pow2(upto) * (count(steps, n, true, upto) - count(steps, n, false, upto)) == 0)
        by (nonlinear_arith)
        requires
            count(steps, n, true, upto) - count(steps, n, false, upto) == 0,
    ;
    if upto > 0 {
        lemma_balance_zero(steps, n, (upto - 1) as nat);
    }
}

/// Whether `states` is a run of the allocator with the given steps: every step
/// leads from one state to the next as a successful `get` or `put` does.
pub open spec fn is_run(states: Seq<ArrayView>, steps: Seq<Step>) -> bool {
    &&& states.len() == steps.len() + 1
    &&& forall|k: int|
        0 <= k < steps.len() ==> {
            let s = #[trigger] steps[k];
            &&& s.order <= MAX_ORDER
            &&& s.get ==> states[k].got(states[k + 1], s.order, s.addr)
            &&& !s.get ==> states[k].put_done(states[k + 1], s.order, s.addr)
        }
}

/// Every step changes the number of allocated frames by the size of its request.
pub proof fn lemma_run_effect(states: Seq<ArrayView>, steps: Seq<Step>, n: int)
    requires
        is_run(states, steps),
        0 <= n <= steps.len(),
    ensures
        states[n].frames() == states[0].frames(),
        states[n].allocated_frames() == states[0].allocated_frames() + effect(steps, n),
    decreases n,
{
    if n > 0 {
        lemma_run_effect(states, steps, n - 1);
        let s = steps[n - 1];
        assert(s.order <= MAX_ORDER);
    }
}

/// After a run in which, for every order, as many requests were
/// served by `get` as were given back by `put`, as many frames are allocated as
/// before. So if every allocation is freed once, at the order it was obtained,
/// an allocator that started empty is empty again.
pub proof fn lemma_round_trip(states: Seq<ArrayView>, steps: Seq<Step>)
    requires
        is_run(states, steps),
        forall|o: nat|
            o <= MAX_ORDER ==> #[trigger] count(steps, steps.len() as int, true, o) == count(
                steps,
                steps.len() as int,
                false,
                o,
            ),
    ensures
        states.last().allocated_frames() == states[0].allocated_frames(),
{
    let n = steps.len() as int;
    lemma_run_effect(states, steps, n);
    lemma_effect_balance(steps, n);
    lemma_balance_zero(steps, n, MAX_ORDER as nat);
}

/// The frames that the tree entries and the reservations of
/// the cores count as free are those that the chunk entries count as free, so
/// the rest of the region is what is allocated.
pub proof fn lemma_counter_identity(v: ArrayView)
    requires
        v.wf(),
    ensures
        v.frames() - (sum_trees(v.trees, v.trees.len() as int) + sum_locals(
            v.locals,
            v.locals.len() as int,
        )) == v.allocated_frames(),
        0 <= v.allocated_frames() <= v.frames(),
{
    lemma_free_frames_bound(v.lower);
}

/// The entry of a chunk that is no huge frame counts the zero
/// bits of the bitfield of the chunk.
pub proof fn lemma_bitfield_identity(v: LowerView, c: int)
    requires
        v.wf(),
        0 <= c < v.fields.len(),
        !v.huge(c),
    ensures
        v.children[c].count == seq_zeros(v.fields[c]),
{
    assert(c < v.children.len()) by {
        assert(v.chunks() <= v.trees() * 32);
    }
    assert(v.chunk_counted(c));
}

/// A chunk whose entry counts 512 free frames has no bit set in its bitfield,
/// and neither has a huge frame.
pub proof fn lemma_full_free_skip(v: LowerView, c: int)
    requires
        v.wf(),
        0 <= c < v.fields.len(),
        v.children[c].count == CHUNK || v.huge(c),
    ensures
        forall|k: int| 0 <= k < CHUNK ==> !#[trigger] seq_bit(v.fields[c], k),
        forall|w: int| 0 <= w < 8 ==> #[trigger] v.fields[c][w] == 0,
{
    assert(c < v.children.len()) by {
        assert(v.chunks() <= v.trees() * 32);
    }
    assert(v.chunk_counted(c));
    let words = v.fields[c];
    lemma_seq_zeros_extremes(words);
    assert forall|k: int| 0 <= k < CHUNK implies !#[trigger] seq_bit(words, k) by {
        lemma_whole_word(words, k / 64);
    }
}

/// Recovery of a consistent state changes no counter: there is no drift to
/// repair. In general the number of free frames after recovery is the number
/// that the stored counters gave plus the drift, so the number of allocated
/// frames differs from the stored one by the drift and no more.
pub proof fn lemma_recovery_idempotent(image: LowerView, after: LowerView)
    requires
        image.wf(),
        after.children.len() == image.children.len(),
        forall|c: int| 0 <= c < image.children.len() ==> #[trigger] image.chunk_recovered(after, c),
    ensures
        image.sum_drift(0, image.children.len() as int) == 0,
        forall|c: int|
            0 <= c < image.children.len() ==> (#[trigger] after.children[c]).spec_free()
                == image.children[c].spec_free(),
        after.free_frames() == image.free_frames(),
{
    lemma_no_drift(image, 0, image.children.len() as int);
    assert forall|c: int| 0 <= c < image.children.len() implies (#[trigger] after.children[c]).spec_free()
        == image.children[c].spec_free() by {
        assert(image.chunk_recovered(after, c));
        assert(image.chunk_counted(c));
    }
    crate::lower::lemma_sum_free_same(
        after.children,
        image.children,
        0,
        image.children.len() as int,
    );
}

} // verus!
