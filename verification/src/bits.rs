//! Bits of a 64-bit word: single bits, aligned runs and zero counts.
use vstd::prelude::*;
use vstd::std_specs::bits::{u64_trailing_zeros, u64_trailing_ones, axiom_u64_trailing_zeros, axiom_u64_trailing_ones};

verus! {

/// Whether bit `i` of `v` is set.
pub open spec fn word_bit(v: u64, i: u64) -> bool {
    (v >> i) & 1u64 == 1u64
}

/// The word with exactly the bits `off .. off + len` set.
pub open spec fn run_mask(off: u64, len: u64) -> u64 {
    (0xffff_ffff_ffff_ffffu64 >> ((64u64 - len) as u64)) << off
}

/// Whether the bits `off .. off + len` of `v` are all zero.
pub open spec fn run_free(v: u64, off: u64, len: u64) -> bool {
    v & run_mask(off, len) == 0
}

/// Whether the bits `off .. off + len` of `v` are all one.
pub open spec fn run_full(v: u64, off: u64, len: u64) -> bool {
    v & run_mask(off, len) == run_mask(off, len)
}

/// Number of zero bits among the lowest `n` bits of `v`.
pub open spec fn zero_bits(v: u64, n: nat) -> nat
    decreases n,
{
    if n == 0 {
        0
    } else {
        zero_bits(v, (n - 1) as nat) + if word_bit(v, (n - 1) as u64) {
            0nat
        } else {
            1nat
        }
    }
}

/// Number of zero bits of `v`.
pub open spec fn zeros64(v: u64) -> nat {
    zero_bits(v, 64)
}

/// Which bits a run mask holds.
pub proof fn lemma_run_mask_bit(off: u64, len: u64, i: u64)
    by (bit_vector)
    requires
        1 <= len <= 64,
        off + len <= 64,
        i < 64,
    ensures
        word_bit(run_mask(off, len), i) == (off <= i && i < off + len),
{
}

/// Bits of a union and of a difference.
pub proof fn lemma_bit_ops(v: u64, m: u64, i: u64)
    by (bit_vector)
    requires
        i < 64,
    ensures
        word_bit(v | m, i) == (word_bit(v, i) || word_bit(m, i)),
        word_bit(v & !m, i) == (word_bit(v, i) && !word_bit(m, i)),
        v & m == 0 && word_bit(m, i) ==> !word_bit(v, i),
        v & m == m && word_bit(m, i) ==> word_bit(v, i),
        !word_bit(0u64, i),
        word_bit(0xffff_ffff_ffff_ffffu64, i),
{
}

/// A run of zero bits, bit by bit.
pub proof fn lemma_run_free_bits(v: u64, off: u64, len: u64)
    requires
        1 <= len <= 64,
        off + len <= 64,
    ensures
        run_free(v, off, len) <==> forall|i: u64| off <= i < off + len ==> !#[trigger] word_bit(v, i),
{
    let m = run_mask(off, len);
    if run_free(v, off, len) {
        assert forall|i: u64| off <= i < off + len implies !#[trigger] word_bit(v, i) by {
            lemma_run_mask_bit(off, len, i);
            lemma_bit_ops(v, m, i);
        }
    } else {
        let d = v & m;
        axiom_u64_trailing_zeros(d);
        let t = u64_trailing_zeros(d) as u64;
        lemma_run_mask_bit(off, len, t);
        lemma_and_bit(v, m, t);
        assert(word_bit(v, t) && off <= t < off + len);
    }
}

/// A run of one bits, bit by bit.
pub proof fn lemma_run_full_bits(v: u64, off: u64, len: u64)
    requires
        1 <= len <= 64,
        off + len <= 64,
    ensures
        run_full(v, off, len) <==> forall|i: u64| off <= i < off + len ==> #[trigger] word_bit(v, i),
{
    let m = run_mask(off, len);
    if run_full(v, off, len) {
        assert forall|i: u64| off <= i < off + len implies #[trigger] word_bit(v, i) by {
            lemma_run_mask_bit(off, len, i);
            lemma_bit_ops(v, m, i);
        }
    } else {
        let d = m & !v;
        lemma_and_not_zero(v, m);
        axiom_u64_trailing_zeros(d);
        let t = u64_trailing_zeros(d) as u64;
        lemma_run_mask_bit(off, len, t);
        lemma_bit_ops(m, v, t);
        assert(!word_bit(v, t) && off <= t < off + len);
    }
}

/// A bit is either zero or one.
pub proof fn lemma_bit_binary(v: u64, i: u64)
    by (bit_vector)
    requires
        i < 64,
    ensures
        word_bit(v, i) <==> (v >> i) & 1u64 != 0u64,
{
}

/// Bits of an intersection.
pub proof fn lemma_and_bit(v: u64, m: u64, i: u64)
    by (bit_vector)
    requires
        i < 64,
    ensures
        word_bit(v & m, i) == (word_bit(v, i) && word_bit(m, i)),
{
}

/// `v` holds all of `m` exactly when nothing of `m` is missing in `v`.
pub proof fn lemma_and_not_zero(v: u64, m: u64)
    by (bit_vector)
    ensures
        (v & m == m) <==> (m & !v == 0),
{
}

/// The zero count never exceeds the number of bits looked at.
pub proof fn lemma_zero_bits_bound(v: u64, n: nat)
    ensures
        zero_bits(v, n) <= n,
    decreases n,
{
    if n > 0 {
        lemma_zero_bits_bound(v, (n - 1) as nat);
    }
}

/// How many of the bits `lo .. hi` lie below `n`.
pub open spec fn below(n: nat, lo: nat, hi: nat) -> nat {
    if n <= lo {
        0
    } else if n >= hi {
        (hi - lo) as nat
    } else {
        (n - lo) as nat
    }
}

/// Setting a run of zero bits lowers the zero count by the length of the run.
pub proof fn lemma_zero_bits_flip(a: u64, b: u64, lo: nat, hi: nat, n: nat)
    requires
        lo <= hi <= 64,
        n <= 64,
        forall|i: u64| lo <= i < hi ==> !#[trigger] word_bit(a, i),
        forall|i: u64| lo <= i < hi ==> #[trigger] word_bit(b, i),
        forall|i: u64| i < 64 && !(lo <= i < hi) ==> #[trigger] word_bit(a, i) == word_bit(b, i),
    ensures
        zero_bits(a, n) == zero_bits(b, n) + below(n, lo, hi),
    decreases n,
{
    if n > 0 {
        lemma_zero_bits_flip(a, b, lo, hi, (n - 1) as nat);
        let i = (n - 1) as u64;
        if lo <= i < hi {
            assert(!word_bit(a, i) && word_bit(b, i));
        } else {
            assert(word_bit(a, i) == word_bit(b, i));
        }
    }
}

/// A word whose bits from `h` on are all one counts at most `h` zeros.
pub proof fn lemma_zero_bits_tail(v: u64, h: nat, n: nat)
    requires
        n <= 64,
        forall|i: u64| h <= i < 64 ==> #[trigger] word_bit(v, i),
    ensures
        zero_bits(v, n) <= h,
        zero_bits(v, n) <= n,
    decreases n,
{
    if n > 0 {
        lemma_zero_bits_tail(v, h, (n - 1) as nat);
        let i = (n - 1) as u64;
        if i >= h {
            assert(word_bit(v, i));
        }
    }
}

/// A word whose lowest `n` bits count `n` zeros has them all zero, and conversely.
pub proof fn lemma_zero_bits_all(v: u64, n: nat)
    requires
        n <= 64,
    ensures
        zero_bits(v, n) == n <==> forall|i: u64| i < n ==> !#[trigger] word_bit(v, i),
        zero_bits(v, n) == 0 <==> forall|i: u64| i < n ==> #[trigger] word_bit(v, i),
    decreases n,
{
    if n > 0 {
        lemma_zero_bits_all(v, (n - 1) as nat);
        lemma_zero_bits_bound(v, (n - 1) as nat);
        let k = (n - 1) as u64;
        if zero_bits(v, n) == n {
            assert(!word_bit(v, k));
            assert forall|i: u64| i < n implies !#[trigger] word_bit(v, i) by {
                if i < k {
                } else {
                    assert(i == k);
                }
            }
        }
        if zero_bits(v, n) == 0 {
            assert(word_bit(v, k));
            assert forall|i: u64| i < n implies #[trigger] word_bit(v, i) by {
                if i < k {
                } else {
                    assert(i == k);
                }
            }
        }
        if forall|i: u64| i < n ==> !#[trigger] word_bit(v, i) {
            assert(!word_bit(v, k));
            assert forall|i: u64| i < (n - 1) implies !#[trigger] word_bit(v, i) by {}
        }
        if forall|i: u64| i < n ==> #[trigger] word_bit(v, i) {
            assert(word_bit(v, k));
            assert forall|i: u64| i < (n - 1) implies #[trigger] word_bit(v, i) by {}
        }
    }
}

/// Only the empty word counts 64 zeros, only the full word counts none.
pub proof fn lemma_zeros64_extremes(v: u64)
    ensures
        zeros64(v) <= 64,
        zeros64(v) == 64 <==> v == 0,
        zeros64(v) == 0 <==> v == 0xffff_ffff_ffff_ffffu64,
{
    lemma_zero_bits_bound(v, 64);
    lemma_zero_bits_all(v, 64);
    axiom_u64_trailing_zeros(v);
    axiom_u64_trailing_ones(v);
    if v == 0 {
        assert forall|i: u64| i < 64 implies !#[trigger] word_bit(v, i) by {
            lemma_bit_ops(v, v, i);
        }
    } else {
        let t = u64_trailing_zeros(v) as u64;
        assert(word_bit(v, t));
    }
    if v == 0xffff_ffff_ffff_ffffu64 {
        assert forall|i: u64| i < 64 implies #[trigger] word_bit(v, i) by {
            lemma_bit_ops(v, v, i);
        }
    } else {
        let t = u64_trailing_ones(v) as u64;
        assert(!word_bit(v, t));
    }
}

/// The empty and the full word, bit by bit.
pub proof fn lemma_word_extremes_bits(v: u64)
    ensures
        v == 0 <==> forall|i: u64| i < 64 ==> !#[trigger] word_bit(v, i),
        v == 0xffff_ffff_ffff_ffffu64 <==> forall|i: u64| i < 64 ==> #[trigger] word_bit(v, i),
{
    lemma_zeros64_extremes(v);
    lemma_zero_bits_all(v, 64);
}

/// Setting a free run of `len` bits lowers the zero count by `len`; clearing a full
/// run raises it by `len`. Bits outside the run keep their value.
pub proof fn lemma_zeros64_run(v: u64, off: u64, len: u64)
    requires
        1 <= len <= 64,
        off + len <= 64,
    ensures
        run_free(v, off, len) ==> zeros64(v) == zeros64(v | run_mask(off, len)) + len,
        run_full(v, off, len) ==> zeros64(v & !run_mask(off, len)) == zeros64(v) + len,
        forall|i: u64|
            i < 64 ==> #[trigger] word_bit(v | run_mask(off, len), i) == (word_bit(v, i) || (off <= i
                < off + len)),
        forall|i: u64|
            i < 64 ==> #[trigger] word_bit(v & !run_mask(off, len), i) == (word_bit(v, i) && !(off
                <= i < off + len)),
{
    let m = run_mask(off, len);
    assert forall|i: u64| i < 64 implies #[trigger] word_bit(v | m, i) == (word_bit(v, i) || (off
        <= i < off + len)) by {
        lemma_run_mask_bit(off, len, i);
        lemma_bit_ops(v, m, i);
    }
    assert forall|i: u64| i < 64 implies #[trigger] word_bit(v & !m, i) == (word_bit(v, i) && !(
    off <= i < off + len)) by {
        lemma_run_mask_bit(off, len, i);
        lemma_bit_ops(v, m, i);
    }
    lemma_run_free_bits(v, off, len);
    lemma_run_full_bits(v, off, len);
    if run_free(v, off, len) {
        lemma_zero_bits_flip(v, v | m, off as nat, (off + len) as nat, 64);
    }
    if run_full(v, off, len) {
        lemma_zero_bits_flip(v & !m, v, off as nat, (off + len) as nat, 64);
    }
}

} // verus!
