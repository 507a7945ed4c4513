//! Occupancy bitfields: one bit per frame, a set bit marks an allocated frame.
use vstd::prelude::*;
use core::ops::Range;
use vstd::std_specs::bits::{axiom_u64_trailing_ones, axiom_u64_trailing_zeros};
use crate::bits::{
    lemma_bit_binary,
    lemma_bit_ops,
    lemma_run_free_bits,
    lemma_run_full_bits,
    lemma_zero_bits_bound,
    lemma_zeros64_extremes,
    lemma_zeros64_run,
    run_free,
    run_full,
    run_mask,
    word_bit,
    zero_bits,
    zeros64,
};
use crate::Error;
use crate::bits::{lemma_word_extremes_bits, lemma_zero_bits_flip};
use crate::util::{lemma_mod_mul, lemma_mod_sum, lemma_run_in_word, lemma_pow2_divides, lemma_pow2_monotonic, lemma_pow2_values, pow2, pow2_usize};

verus! {

/// Whether `off` is the lowest aligned run of `len` zero bits in `v`.
pub open spec fn first_free_run(v: u64, len: u64, off: u64) -> bool {
    &&& off % len == 0
    &&& off + len <= 64
    &&& run_free(v, off, len)
    &&& forall|j: u64| j < off && j % len == 0 ==> !#[trigger] run_free(v, j, len)
}

/// Whether `v` has no aligned run of `len` zero bits.
pub open spec fn no_free_run(v: u64, len: u64) -> bool {
    forall|j: u64| j % len == 0 && j + len <= 64 ==> !#[trigger] run_free(v, j, len)
}

/// The word that flags the empty groups of `v`, for groups of `s + 1` bits whose
/// lowest bits form `m`; `w` is `v - m`, wrapped.
pub open spec fn probe(v: u64, w: u64, m: u64, s: u64) -> u64 {
    ((w & !v) >> s) & m
}

/// Whether `w` is `v - m` modulo `2^64`.
pub open spec fn wraps(v: u64, m: u64, w: u64) -> bool {
    (v >= m && w == v - m) || (v < m && w == v - m + 0x1_0000_0000_0000_0000)
}

proof fn lemma_probe4(v: u64, w: u64, pos: u64, t: u64, i: u64)
    by (bit_vector)
    requires
        wraps(v, 0x1111_1111_1111_1111u64, w),
        t <= 64,
        pos <= t,
        pos % 4 == 0,
        pos < 64,
        i < 64,
        probe(v, w, 0x1111_1111_1111_1111u64, 3) << ((64u64 - t) as u64) == 0,
    ensures
        word_bit(probe(v, w, 0x1111_1111_1111_1111u64, 3), pos) == run_free(v, pos, 4),
        word_bit(probe(v, w, 0x1111_1111_1111_1111u64, 3), i) ==> i % 4 == 0,
{
}

proof fn lemma_probe8(v: u64, w: u64, pos: u64, t: u64, i: u64)
    by (bit_vector)
    requires
        wraps(v, 0x0101_0101_0101_0101u64, w),
        t <= 64,
        pos <= t,
        pos % 8 == 0,
        pos < 64,
        i < 64,
        probe(v, w, 0x0101_0101_0101_0101u64, 7) << ((64u64 - t) as u64) == 0,
    ensures
        word_bit(probe(v, w, 0x0101_0101_0101_0101u64, 7), pos) == run_free(v, pos, 8),
        word_bit(probe(v, w, 0x0101_0101_0101_0101u64, 7), i) ==> i % 8 == 0,
{
}

proof fn lemma_probe16(v: u64, w: u64, pos: u64, t: u64, i: u64)
    by (bit_vector)
    requires
        wraps(v, 0x0001_0001_0001_0001u64, w),
        t <= 64,
        pos <= t,
        pos % 16 == 0,
        pos < 64,
        i < 64,
        probe(v, w, 0x0001_0001_0001_0001u64, 15) << ((64u64 - t) as u64) == 0,
    ensures
        word_bit(probe(v, w, 0x0001_0001_0001_0001u64, 15), pos) == run_free(v, pos, 16),
        word_bit(probe(v, w, 0x0001_0001_0001_0001u64, 15), i) ==> i % 16 == 0,
{
}

proof fn lemma_small_runs(v: u64, i: u64)
    by (bit_vector)
    requires
        i < 64,
    ensures
        i % 2 == 1 ==> word_bit((v | (v >> 1)) | 0xaaaa_aaaa_aaaa_aaaau64, i),
        i % 2 == 0 ==> word_bit((v | (v >> 1)) | 0xaaaa_aaaa_aaaa_aaaau64, i) == !run_free(
            v,
            i,
            2,
        ),
        word_bit(v, i) == !run_free(v, i, 1),
        run_mask(i, 1) == 1u64 << i,
        i % 2 == 0 ==> run_mask(i, 2) == 3u64 << i,
        i % 4 == 0 ==> run_mask(i, 4) == 0xfu64 << i,
        i % 8 == 0 ==> run_mask(i, 8) == 0xffu64 << i,
        i % 16 == 0 ==> run_mask(i, 16) == 0xffffu64 << i,
{
}

proof fn lemma_large_runs(v: u64)
    by (bit_vector)
    ensures
        run_free(v, 0, 32) == (v & 0xffff_ffffu64 == 0),
        run_free(v, 32, 32) == (v >> 32 == 0),
        run_free(v, 0, 64) == (v == 0),
        run_mask(0, 32) == 0xffff_ffffu64,
        run_mask(32, 32) == 0xffff_ffffu64 << 32,
        run_mask(0, 64) == 0xffff_ffff_ffff_ffffu64,
        v == 0 ==> v | 0xffff_ffff_ffff_ffffu64 == 0xffff_ffff_ffff_ffffu64,
{
}

/// Finds the lowest aligned run of `2^order` zero bits in `v` and sets it.
///
/// Returns the new word and the offset of the run, or `None` if `v` has no such
/// run.
pub fn first_zeros_aligned(v: u64, order: usize) -> (r: Option<(u64, usize)>)
    requires
        order <= 6,
    ensures
        match r {
            Some((word, off)) => {
                &&& first_free_run(v, pow2(order as nat) as u64, off as u64)
                &&& word == v | run_mask(off as u64, pow2(order as nat) as u64)
            },
            None => no_free_run(v, pow2(order as nat) as u64),
        },
{
    proof {
        lemma_pow2_values();
    }
    if order == 0 {
        let off: u32 = v.trailing_ones();
        proof {
            axiom_u64_trailing_ones(v);
            assert forall|j: u64| j < 64 implies word_bit(v, j) == !#[trigger] run_free(v, j, 1) by {
                lemma_small_runs(v, j);
            }
            if off < 64 {
                lemma_small_runs(v, off as u64);
                assert(!word_bit(v, off as u64));
            }
        }
        if off < 64 {
            Some((v | (1u64 << off), off as usize))
        } else {
            None
        }
    } else if order == 1 {
        let mask: u64 = 0xaaaa_aaaa_aaaa_aaaa_u64;
        let or: u64 = (v | (v >> 1)) | mask;
        let off: u32 = or.trailing_ones();
        proof {
            axiom_u64_trailing_ones(or);
            assert forall|j: u64| j < 64 && j % 2 == 0 implies word_bit(or, j) == !#[trigger] run_free(
                v,
                j,
                2,
            ) by {
                lemma_small_runs(v, j);
            }
            if off < 64 {
                lemma_small_runs(v, off as u64);
                assert(!word_bit(or, off as u64));
            }
        }
        if off < 64 {
            Some((v | (0b11u64 << off), off as usize))
        } else {
            None
        }
    } else if order == 2 {
        let mask: u64 = 0x1111_1111_1111_1111_u64;
        let w: u64 = v.wrapping_sub(mask);
        let x: u64 = ((w & !v) >> 3) & mask;
        let off: u32 = x.trailing_zeros();
        proof {
            axiom_u64_trailing_zeros(x);
            let t = off as u64;
            assert forall|j: u64| j <= t && j < 64 && j % 4 == 0 implies word_bit(x, j) == #[trigger] run_free(
                v,
                j,
                4,
            ) by {
                lemma_probe4(v, w, j, t, j);
            }
            assert forall|j: u64| j < 64 implies !word_bit(0u64, j) by {
                lemma_bit_ops(0, 0, j);
            }
            if off < 64 {
                lemma_probe4(v, w, 0, t, t);
                lemma_small_runs(v, t);
                assert(word_bit(x, t));
            }
        }
        if off < 64 {
            Some((v | (0b1111u64 << off), off as usize))
        } else {
            None
        }
    } else if order == 3 {
        let mask: u64 = 0x0101_0101_0101_0101_u64;
        let w: u64 = v.wrapping_sub(mask);
        let x: u64 = ((w & !v) >> 7) & mask;
        let off: u32 = x.trailing_zeros();
        proof {
            axiom_u64_trailing_zeros(x);
            let t = off as u64;
            assert forall|j: u64| j <= t && j < 64 && j % 8 == 0 implies word_bit(x, j) == #[trigger] run_free(
                v,
                j,
                8,
            ) by {
                lemma_probe8(v, w, j, t, j);
            }
            assert forall|j: u64| j < 64 implies !word_bit(0u64, j) by {
                lemma_bit_ops(0, 0, j);
            }
            if off < 64 {
                lemma_probe8(v, w, 0, t, t);
                lemma_small_runs(v, t);
                assert(word_bit(x, t));
            }
        }
        if off < 64 {
            Some((v | (0xffu64 << off), off as usize))
        } else {
            None
        }
    } else if order == 4 {
        let mask: u64 = 0x0001_0001_0001_0001_u64;
        let w: u64 = v.wrapping_sub(mask);
        let x: u64 = ((w & !v) >> 15) & mask;
        let off: u32 = x.trailing_zeros();
        proof {
            axiom_u64_trailing_zeros(x);
            let t = off as u64;
            assert forall|j: u64| j <= t && j < 64 && j % 16 == 0 implies word_bit(x, j) == #[trigger] run_free(
                v,
                j,
                16,
            ) by {
                lemma_probe16(v, w, j, t, j);
            }
            assert forall|j: u64| j < 64 implies !word_bit(0u64, j) by {
                lemma_bit_ops(0, 0, j);
            }
            if off < 64 {
                lemma_probe16(v, w, 0, t, t);
                lemma_small_runs(v, t);
                assert(word_bit(x, t));
            }
        }
        if off < 64 {
            Some((v | (0xffffu64 << off), off as usize))
        } else {
            None
        }
    } else if order == 5 {
        let mask: u64 = 0xffff_ffff_u64;
        proof {
            lemma_large_runs(v);
        }
        if v & mask == 0 {
            Some((v | mask, 0))
        } else if v >> 32 == 0 {
            Some((v | (mask << 32), 32))
        } else {
            None
        }
    } else {
        proof {
            lemma_large_runs(v);
        }
        if v == 0 {
            Some((u64::MAX, 0))
        } else {
            None
        }
    }
}

/// Bit `i` of a sequence of words, counted from the lowest bit of the first word.
pub open spec fn seq_bit(words: Seq<u64>, i: int) -> bool {
    word_bit(words[i / 64], (i % 64) as u64)
}

/// Number of zero bits in a sequence of words.
pub open spec fn seq_zeros(words: Seq<u64>) -> nat
    decreases words.len(),
{
    if words.len() == 0 {
        0
    } else {
        seq_zeros(words.drop_last()) + zeros64(words.last())
    }
}

/// A sequence of `n` words holds at most `64 * n` zero bits.
pub proof fn lemma_seq_zeros_bound(words: Seq<u64>)
    ensures
        seq_zeros(words) <= 64 * words.len(),
    decreases words.len(),
{
    if words.len() > 0 {
        lemma_seq_zeros_bound(words.drop_last());
        lemma_zero_bits_bound(words.last(), 64);
    }
}

/// Replacing one word changes the zero count by the difference of the two words.
pub proof fn lemma_seq_zeros_update(words: Seq<u64>, w: int, x: u64)
    requires
        0 <= w < words.len(),
    ensures
        seq_zeros(words.update(w, x)) + zeros64(words[w]) == seq_zeros(words) + zeros64(x),
    decreases words.len(),
{
    let last = words.len() - 1;
    if w == last {
        assert(words.update(w, x).drop_last() =~= words.drop_last());
    } else {
        assert(words.update(w, x).drop_last() =~= words.drop_last().update(w, x));
        lemma_seq_zeros_update(words.drop_last(), w, x);
    }
}

/// All bits are zero exactly when every word counts as 64 zeros, and all bits are
/// one exactly when no zero is counted.
pub proof fn lemma_seq_zeros_extremes(words: Seq<u64>)
    ensures
        seq_zeros(words) == 64 * words.len() <==> forall|w: int|
            0 <= w < words.len() ==> #[trigger] words[w] == 0,
        seq_zeros(words) == 0 <==> forall|w: int|
            0 <= w < words.len() ==> #[trigger] words[w] == 0xffff_ffff_ffff_ffffu64,
    decreases words.len(),
{
    if words.len() > 0 {
        let front = words.drop_last();
        lemma_seq_zeros_extremes(front);
        lemma_seq_zeros_bound(front);
        lemma_zeros64_extremes(words.last());
        assert forall|w: int| 0 <= w < front.len() implies #[trigger] front[w] == words[w] by {}
        if forall|w: int| 0 <= w < words.len() ==> #[trigger] words[w] == 0 {
            assert forall|w: int| 0 <= w < front.len() implies #[trigger] front[w] == 0 by {
                assert(front[w] == words[w]);
            }
        }
        if forall|w: int| 0 <= w < words.len() ==> #[trigger] words[w] == 0xffff_ffff_ffff_ffffu64 {
            assert forall|w: int| 0 <= w < front.len() implies #[trigger] front[w]
                == 0xffff_ffff_ffff_ffffu64 by {
                assert(front[w] == words[w]);
            }
        }
        if seq_zeros(words) == 64 * words.len() {
            assert forall|w: int| 0 <= w < words.len() implies #[trigger] words[w] == 0 by {
                if w < front.len() {
                    assert(front[w] == words[w]);
                }
            }
        }
        if seq_zeros(words) == 0 {
            assert forall|w: int| 0 <= w < words.len() implies #[trigger] words[w]
                == 0xffff_ffff_ffff_ffffu64 by {
                if w < front.len() {
                    assert(front[w] == words[w]);
                }
            }
        }
    }
}

/// Whether the bits `off .. off + len` of a sequence of words are all zero.
pub open spec fn seq_run_free(words: Seq<u64>, off: int, len: int) -> bool {
    forall|k: int| off <= k < off + len ==> !#[trigger] seq_bit(words, k)
}

/// Whether the bits `off .. off + len` of a sequence of words are all one.
pub open spec fn seq_run_full(words: Seq<u64>, off: int, len: int) -> bool {
    forall|k: int| off <= k < off + len ==> #[trigger] seq_bit(words, k)
}

/// A run inside word `w`, seen from the word and from the whole sequence.
pub proof fn lemma_word_run(words: Seq<u64>, w: int, off: u64, len: u64)
    requires
        0 <= w < words.len(),
        1 <= len <= 64,
        off + len <= 64,
    ensures
        run_free(words[w], off, len) <==> seq_run_free(words, w * 64 + off, len as int),
        run_full(words[w], off, len) <==> seq_run_full(words, w * 64 + off, len as int),
{
    let v = words[w];
    lemma_run_free_bits(v, off, len);
    lemma_run_full_bits(v, off, len);
    let base = w * 64;
    if run_free(v, off, len) {
        assert forall|k: int| base + off <= k < base + off + len implies !#[trigger] seq_bit(
            words,
            k,
        ) by {
            assert(k / 64 == w && k % 64 == k - base);
            assert(!word_bit(v, (k - base) as u64));
        }
    }
    if run_full(v, off, len) {
        assert forall|k: int| base + off <= k < base + off + len implies #[trigger] seq_bit(
            words,
            k,
        ) by {
            assert(k / 64 == w && k % 64 == k - base);
            assert(word_bit(v, (k - base) as u64));
        }
    }
    if seq_run_free(words, base + off, len as int) {
        assert forall|i: u64| off <= i < off + len implies !#[trigger] word_bit(v, i) by {
            let k = base + i;
            assert(k / 64 == w && k % 64 == i as int);
            assert(!seq_bit(words, k));
        }
    }
    if seq_run_full(words, base + off, len as int) {
        assert forall|i: u64| off <= i < off + len implies #[trigger] word_bit(v, i) by {
            let k = base + i;
            assert(k / 64 == w && k % 64 == i as int);
            assert(seq_bit(words, k));
        }
    }
}

/// What setting, or clearing, a run inside word `w` does to the bits and to the
/// zero count of the sequence.
pub proof fn lemma_word_run_update(
    words: Seq<u64>,
    after: Seq<u64>,
    w: int,
    off: u64,
    len: u64,
    val: bool,
)
    requires
        0 <= w < words.len(),
        1 <= len <= 64,
        off + len <= 64,
        val ==> run_free(words[w], off, len),
        !val ==> run_full(words[w], off, len),
        val ==> after == words.update(w, words[w] | run_mask(off, len)),
        !val ==> after == words.update(w, words[w] & !run_mask(off, len)),
    ensures
        forall|k: int|
            0 <= k < 64 * words.len() ==> (#[trigger] seq_bit(after, k)) == (if w * 64 + off <= k
                < w * 64 + off + len {
                val
            } else {
                seq_bit(words, k)
            }),
        val ==> seq_zeros(after) + len == seq_zeros(words),
        !val ==> seq_zeros(after) == seq_zeros(words) + len,
{
    let v = words[w];
    let x = if val {
        v | run_mask(off, len)
    } else {
        v & !run_mask(off, len)
    };
    lemma_zeros64_run(v, off, len);
    lemma_seq_zeros_update(words, w, x);
    lemma_run_free_bits(v, off, len);
    lemma_run_full_bits(v, off, len);
    let base = w * 64;
    assert forall|k: int| 0 <= k < 64 * words.len() implies #[trigger] seq_bit(after, k) == if base
        + off <= k < base + off + len {
        val
    } else {
        seq_bit(words, k)
    } by {
        if k / 64 == w {
            let i = (k % 64) as u64;
            assert(k == base + i);
            if val {
                assert(word_bit(v | run_mask(off, len), i) == (word_bit(v, i) || (off <= i < off
                    + len)));
            } else {
                assert(word_bit(v & !run_mask(off, len), i) == (word_bit(v, i) && !(off <= i
                    < off + len)));
            }
        } else {
            assert(after[k / 64] == words[k / 64]);
        }
    }
}

/// The `j`-th index after `start` in a ring of `n` indices.
pub open spec fn cyc(start: int, j: int, n: int) -> int {
    if start + j < n {
        start + j
    } else {
        start + j - n
    }
}

/// How many steps after `start` the index `w` comes in a ring of `n` indices.
pub open spec fn cyc_pos(start: int, w: int, n: int) -> int {
    if w >= start {
        w - start
    } else {
        w + n - start
    }
}

/// Whether no aligned run of `2^order` bits is free in `words`.
pub open spec fn seq_no_fit(words: Seq<u64>, order: nat) -> bool {
    forall|c: int|
        0 <= c && c % (pow2(order) as int) == 0 && c + pow2(order) <= 64 * words.len()
            ==> !#[trigger] seq_run_free(words, c, pow2(order) as int)
}

/// Whether the run at `off` is the one that a search for `2^order` free bits
/// finds first.
///
/// Up to order 6 the search goes word by word, from word `start` around the
/// ring, and takes the lowest run of the first word that has one. From order 7
/// on it goes through the aligned runs from the first bit on.
pub open spec fn seq_first_fit(words: Seq<u64>, start: int, order: nat, off: int) -> bool {
    if order <= 6 {
        let w = off / 64;
        let n = words.len() as int;
        &&& first_free_run(words[w], pow2(order) as u64, (off % 64) as u64)
        &&& forall|j: int|
            0 <= j < cyc_pos(start % n, w, n) ==> no_free_run(
                words[#[trigger] cyc(start % n, j, n)],
                pow2(order) as u64,
            )
    } else {
        forall|c: int|
            0 <= c < off && c % (pow2(order) as int) == 0 ==> !#[trigger] seq_run_free(
                words,
                c,
                pow2(order) as int,
            )
    }
}

/// Two multiples of `d` less than `d` apart are equal.
pub proof fn lemma_multiples(a: int, b: int, d: int)
    requires
        d > 0,
        a % d == 0,
        b % d == 0,
        a <= b < a + d,
    ensures
        a == b,
{
    assert(a == b) by (nonlinear_arith)
        requires
            d > 0,
            a % d == 0,
            b % d == 0,
            a <= b < a + d,
    {
        let x = a / d;
        let y = b / d;
        assert(a == x * d);
        assert(b == y * d);
        assert(x <= y);
        assert(y < x + 1) by {
            assert(y * d < (x + 1) * d);
        }
    }
}

/// If no word has an aligned free run, the sequence has none.
pub proof fn lemma_no_fit_words(words: Seq<u64>, order: nat)
    requires
        order <= 6,
        64 * words.len() <= u64::MAX,
        forall|w: int| 0 <= w < words.len() ==> no_free_run(#[trigger] words[w], pow2(order) as u64),
    ensures
        seq_no_fit(words, order),
{
    lemma_pow2_values();
    let len = pow2(order) as u64;
    assert forall|c: int| 0 <= c && c % (len as int) == 0 && c + len <= 64 * words.len()
        implies !#[trigger] seq_run_free(words, c, len as int) by {
        let w = c / 64;
        let o = (c % 64) as u64;
        if order < 6 {
            lemma_run_in_word(c, order);
        }
        assert(o % len == 0 && o + len <= 64);
        assert(no_free_run(words[w], len));
        assert(!run_free(words[w], o, len));
        lemma_word_run(words, w, o, len);
    }
}

/// A sequence whose first `end` bits are zero and whose other bits are one holds
/// `end` zero bits.
pub proof fn lemma_seq_zeros_prefix(words: Seq<u64>, end: int)
    requires
        0 <= end <= 64 * words.len(),
        forall|k: int| 0 <= k < end ==> !#[trigger] seq_bit(words, k),
        forall|k: int| end <= k < 64 * words.len() ==> #[trigger] seq_bit(words, k),
    ensures
        seq_zeros(words) == end,
    decreases words.len(),
{
    if words.len() > 0 {
        let front = words.drop_last();
        let w = words.len() - 1;
        let v = words.last();
        let low = if end < 64 * w {
            end
        } else {
            64 * w
        };
        assert forall|k: int| 0 <= k < 64 * w implies #[trigger] seq_bit(front, k) == seq_bit(
            words,
            k,
        ) by {
            assert(front[k / 64] == words[k / 64]);
        }
        lemma_seq_zeros_prefix(front, low);
        let h = (end - low) as nat;
        let full = 0xffff_ffff_ffff_ffffu64;
        lemma_word_extremes_bits(full);
        lemma_zeros64_extremes(full);
        assert forall|i: u64| i < 64 implies #[trigger] word_bit(v, i) == (i >= h) by {
            let k = 64 * w + i;
            assert(k / 64 == w && k % 64 == i as int);
            assert(seq_bit(words, k) == word_bit(v, i));
        }
        lemma_zero_bits_flip(v, full, 0, h, 64);
    }
}

/// A sequence whose bits from `limit` on are all one holds at most `limit` zero
/// bits.
pub proof fn lemma_seq_zeros_tail(words: Seq<u64>, limit: int)
    requires
        0 <= limit <= 64 * words.len(),
        forall|k: int| limit <= k < 64 * words.len() ==> #[trigger] seq_bit(words, k),
    ensures
        seq_zeros(words) <= limit,
    decreases words.len(),
{
    if words.len() > 0 {
        let front = words.drop_last();
        let w = words.len() - 1;
        let v = words.last();
        let low = if limit < 64 * w {
            limit
        } else {
            64 * w
        };
        assert forall|k: int| low <= k < 64 * w implies #[trigger] seq_bit(front, k) by {
            assert(front[k / 64] == words[k / 64]);
            assert(seq_bit(words, k));
        }
        lemma_seq_zeros_tail(front, low);
        let h = (limit - low) as nat;
        assert forall|i: u64| h <= i < 64 implies #[trigger] word_bit(v, i) by {
            let k = 64 * w + i;
            assert(k / 64 == w && k % 64 == i as int);
            assert(seq_bit(words, k));
        }
        crate::bits::lemma_zero_bits_tail(v, h, 64);
    }
}

/// A whole word, seen from the word and from the sequence.
pub proof fn lemma_whole_word(words: Seq<u64>, w: int)
    requires
        0 <= w < words.len(),
    ensures
        words[w] == 0 <==> seq_run_free(words, w * 64, 64),
        words[w] == 0xffff_ffff_ffff_ffffu64 <==> seq_run_full(words, w * 64, 64),
{
    let v = words[w];
    lemma_word_extremes_bits(v);
    let base = w * 64;
    if v == 0 {
        assert forall|k: int| base <= k < base + 64 implies !#[trigger] seq_bit(words, k) by {
            assert(k / 64 == w && k % 64 == k - base);
            assert(!word_bit(v, (k - base) as u64));
        }
    }
    if v == 0xffff_ffff_ffff_ffffu64 {
        assert forall|k: int| base <= k < base + 64 implies #[trigger] seq_bit(words, k) by {
            assert(k / 64 == w && k % 64 == k - base);
            assert(word_bit(v, (k - base) as u64));
        }
    }
    if seq_run_free(words, base, 64) {
        assert forall|i: u64| i < 64 implies !#[trigger] word_bit(v, i) by {
            let k = base + i;
            assert(k / 64 == w && k % 64 == i as int);
            assert(!seq_bit(words, k));
        }
    }
    if seq_run_full(words, base, 64) {
        assert forall|i: u64| i < 64 implies #[trigger] word_bit(v, i) by {
            let k = base + i;
            assert(k / 64 == w && k % 64 == i as int);
            assert(seq_bit(words, k));
        }
    }
}

/// What overwriting word `w` with the empty or the full word does to the bits and
/// to the zero count of the sequence.
pub proof fn lemma_whole_word_update(words: Seq<u64>, after: Seq<u64>, w: int, val: bool)
    requires
        0 <= w < words.len(),
        val ==> after == words.update(w, 0xffff_ffff_ffff_ffffu64),
        !val ==> after == words.update(w, 0u64),
    ensures
        forall|k: int|
            0 <= k < 64 * words.len() ==> (#[trigger] seq_bit(after, k)) == (if w * 64 <= k < w
                * 64 + 64 {
                val
            } else {
                seq_bit(words, k)
            }),
        val ==> seq_zeros(after) + zeros64(words[w]) == seq_zeros(words),
        !val ==> seq_zeros(after) + zeros64(words[w]) == seq_zeros(words) + 64,
{
    let x = if val {
        0xffff_ffff_ffff_ffffu64
    } else {
        0u64
    };
    lemma_seq_zeros_update(words, w, x);
    lemma_zeros64_extremes(x);
    lemma_word_extremes_bits(x);
    let base = w * 64;
    assert forall|k: int| 0 <= k < 64 * words.len() implies #[trigger] seq_bit(after, k) == if base
        <= k < base + 64 {
        val
    } else {
        seq_bit(words, k)
    } by {
        if k / 64 == w {
            let i = (k % 64) as u64;
            assert(word_bit(x, i) == val);
        } else {
            assert(after[k / 64] == words[k / 64]);
        }
    }
}

/// Counts the zero bits of a word.
pub fn count_zeros64(v: u64) -> (r: usize)
    ensures
        r == zeros64(v),
{
    let mut count: usize = 0;
    let mut b: u64 = 0;
    while b < 64
        invariant
            b <= 64,
            count == zero_bits(v, b as nat),
            count <= b,
        decreases 64 - b,
    {
        proof {
            lemma_bit_binary(v, b);
        }
        if (v >> b) & 1 == 0 {
            count = count + 1;
        }
        b = b + 1;
    }
    count
}

/// Number of bits of a word.
pub const ENTRY_BITS: usize = 64;

/// A bitfield of `N` words, that is of `64 * N` bits.
#[derive(Debug, Clone, Copy)]
pub struct Bitfield<const N: usize> {
    data: [u64; N],
}

impl<const N: usize> View for Bitfield<N> {
    type V = Seq<u64>;

    closed spec fn view(&self) -> Seq<u64> {
        self.data@
    }
}

impl<const N: usize> Bitfield<N> {
    /// Number of bits.
    pub open spec fn spec_len() -> nat {
        (N * 64) as nat
    }

    /// Whether bit `i` is set.
    pub open spec fn bit(&self, i: int) -> bool {
        seq_bit(self@, i)
    }

    /// Number of zero bits.
    pub open spec fn zeros(&self) -> nat {
        seq_zeros(self@)
    }

    /// The view has one word per entry.
    pub proof fn lemma_view_len(&self)
        ensures
            self@.len() == N,
    {
    }

    /// Creates a bitfield with no bit set.
    pub fn new() -> (r: Self)
        ensures
            r@ == Seq::new(N as nat, |i: int| 0u64),
    {
        let r = Bitfield { data: [0u64;N] };
        assert(r@ =~= Seq::new(N as nat, |i: int| 0u64));
        r
    }

    /// Number of bits.
    pub fn len(&self) -> (r: usize)
        requires
            N * 64 <= usize::MAX,
        ensures
            r == Self::spec_len(),
    {
        N * 64
    }

    /// Whether bit `i` is set.
    pub fn get(&self, i: usize) -> (r: bool)
        requires
            i < Self::spec_len(),
        ensures
            r == self.bit(i as int),
    {
        let di: usize = i / 64;
        let b: u64 = (i % 64) as u64;
        proof {
            lemma_bit_binary(self.data[di as int], b);
        }
        (self.data[di] >> b) & 1 != 0
    }

    /// Word `i`.
    pub fn get_entry(&self, i: usize) -> (r: u64)
        requires
            i < N,
        ensures
            r == self@[i as int],
    {
        self.data[i]
    }

    /// Overwrites word `i`.
    pub fn put_entry(&mut self, i: usize, word: u64)
        requires
            i < N,
        ensures
            final(self)@ == old(self)@.update(i as int, word),
    {
        let ghost prev = self@;
        self.data[i] = word;
        assert(self@ == prev.update(i as int, word));
    }

    /// Number of zero bits.
    pub fn count_zeros(&self) -> (r: usize)
        requires
            N * 64 <= usize::MAX,
        ensures
            r == self.zeros(),
    {
        let mut total: usize = 0;
        let mut w: usize = 0;
        while w < N
            invariant
                w <= N,
                N * 64 <= usize::MAX,
                total == seq_zeros(self@.take(w as int)),
                total <= 64 * w,
            decreases N - w,
        {
            let c = count_zeros64(self.data[w]);
            proof {
                lemma_zero_bits_bound(self.data[w as int], 64);
                assert(self@.take(w + 1).drop_last() =~= self@.take(w as int));
            }
            total = total + c;
            w = w + 1;
        }
        assert(self@.take(N as int) =~= self@);
        total
    }

    /// Toggles the `2^order` bits at `i` if all of them equal `expected`.
    ///
    /// Up to order 5 the bits lie in one word, which is changed at once. From
    /// order 6 on whole words are changed one after the other; if one of them does
    /// not hold the expected value, the words changed so far are restored.
    pub fn toggle(&mut self, i: usize, order: usize, expected: bool) -> (r: Result<(), Error>)
        requires
            N * 64 <= usize::MAX,
            pow2(order as nat) <= N * 64,
            i as int % pow2(order as nat) as int == 0,
            i + pow2(order as nat) <= N * 64,
        ensures
            r is Ok <==> if expected {
                seq_run_full(old(self)@, i as int, pow2(order as nat) as int)
            } else {
                seq_run_free(old(self)@, i as int, pow2(order as nat) as int)
            },
            r is Ok ==> forall|k: int|
                0 <= k < N * 64 ==> #[trigger] seq_bit(final(self)@, k) == if i <= k < i + pow2(
                    order as nat,
                ) {
                    !expected
                } else {
                    seq_bit(old(self)@, k)
                },
            r is Ok && expected ==> final(self).zeros() == old(self).zeros() + pow2(order as nat),
            r is Ok && !expected ==> final(self).zeros() + pow2(order as nat) == old(
                self,
            ).zeros(),
            r is Err ==> r == Err::<(), Error>(Error::CAS) && final(self)@ == old(self)@,
    {
        let num_bits = pow2_usize(order);
        let di: usize = i / 64;
        proof {
            lemma_pow2_values();
            if order >= 6 {
                lemma_pow2_monotonic(6, order as nat);
                lemma_pow2_divides(6, order as nat, i as int);
            } else {
                lemma_pow2_monotonic(order as nat, 5);
            }
        }
        if num_bits < 64 {
            let off: u64 = (i % 64) as u64;
            let nb: u64 = num_bits as u64;
            assert(off + nb <= 64 && di * 64 + off == i) by {
                lemma_run_in_word(i as int, order as nat);
            }
            let mask: u64 = (u64::MAX >> (64 - nb)) << off;
            assert(mask == run_mask(off, nb));
            let e: u64 = self.data[di];
            let ghost prev = self@;
            proof {
                lemma_word_run(prev, di as int, off, nb);
            }
            if expected {
                if e & mask == mask {
                    self.data[di] = e & !mask;
                    assert(self@ == prev.update(di as int, e & !mask));
                    proof {
                        lemma_word_run_update(prev, self@, di as int, off, nb, false);
                    }
                    Ok(())
                } else {
                    Err(Error::CAS)
                }
            } else {
                if e & mask == 0 {
                    self.data[di] = e | mask;
                    assert(self@ == prev.update(di as int, e | mask));
                    proof {
                        lemma_word_run_update(prev, self@, di as int, off, nb, true);
                    }
                    Ok(())
                } else {
                    Err(Error::CAS)
                }
            }
        } else {
            let n: usize = num_bits / 64;
            assert(num_bits == 64 * n && di * 64 == i);
            let from: u64 = if expected {
                u64::MAX
            } else {
                0
            };
            let to: u64 = if expected {
                0
            } else {
                u64::MAX
            };
            let mut j: usize = 0;
            while j < n
                invariant
                    j <= n,
                    di + n <= N,
                    di * 64 == i,
                    num_bits == 64 * n,
                    num_bits == pow2(order as nat),
                    N * 64 <= usize::MAX,
                    self@.len() == N,
                    old(self)@.len() == N,
                    from == if expected {
                        0xffff_ffff_ffff_ffffu64
                    } else {
                        0u64
                    },
                    to == if expected {
                        0u64
                    } else {
                        0xffff_ffff_ffff_ffffu64
                    },
                    forall|w: int| di <= w < di + j ==> #[trigger] old(self)@[w] == from,
                    forall|w: int| di <= w < di + j ==> #[trigger] self@[w] == to,
                    forall|w: int|
                        0 <= w < N && !(di <= w < di + j) ==> #[trigger] self@[w] == old(self)@[w],
                    forall|k: int|
                        0 <= k < N * 64 ==> #[trigger] seq_bit(self@, k) == if i <= k < i + 64 * j {
                            !expected
                        } else {
                            seq_bit(old(self)@, k)
                        },
                    expected ==> self.zeros() == old(self).zeros() + 64 * j,
                    !expected ==> self.zeros() + 64 * j == old(self).zeros(),
                    expected ==> seq_run_full(old(self)@, i as int, 64 * j),
                    !expected ==> seq_run_free(old(self)@, i as int, 64 * j),
                decreases n - j,
            {
                let ghost cur = self@;
                proof {
                    lemma_whole_word(old(self)@, (di + j) as int);
                    lemma_zeros64_extremes(from);
                    assert(cur[(di + j) as int] == old(self)@[(di + j) as int]);
                }
                if self.data[di + j] != from {
                    let mut k: usize = j;
                    while k > 0
                        invariant
                            k <= j,
                            j < n,
                            di + j < N,
                            di * 64 == i,
                            num_bits == 64 * n,
                            num_bits == pow2(order as nat),
                            self@.len() == N,
                            old(self)@.len() == N,
                            old(self)@[(di + j) as int] != from,
                            from == if expected {
                                0xffff_ffff_ffff_ffffu64
                            } else {
                                0u64
                            },
                            forall|w: int| di <= w < di + j ==> #[trigger] old(self)@[w] == from,
                            forall|w: int|
                                0 <= w < N && !(di <= w < di + k) ==> #[trigger] self@[w] == old(
                                    self,
                                )@[w],
                        decreases k,
                    {
                        k = k - 1;
                        let ghost before = self@;
                        self.data[di + k] = from;
                        assert(self@ == before.update((di + k) as int, from));
                    }
                    assert(self@ =~= old(self)@);
                    proof {
                        lemma_whole_word(old(self)@, (di + j) as int);
                    }
                    return Err(Error::CAS);
                }
                self.data[di + j] = to;
                assert(self@ == cur.update((di + j) as int, to));
                proof {
                    lemma_whole_word_update(cur, self@, (di + j) as int, !expected);
                }
                j = j + 1;
            }
            Ok(())
        }
    }

    /// Whether the `2^order` bits at `i` are all zero.
    pub fn is_zero(&self, i: usize, order: usize) -> (r: bool)
        requires
            N * 64 <= usize::MAX,
            pow2(order as nat) <= N * 64,
            i as int % pow2(order as nat) as int == 0,
            i + pow2(order as nat) <= N * 64,
        ensures
            r == seq_run_free(self@, i as int, pow2(order as nat) as int),
    {
        let num_bits = pow2_usize(order);
        let di: usize = i / 64;
        proof {
            lemma_pow2_values();
            if order >= 6 {
                lemma_pow2_monotonic(6, order as nat);
                lemma_pow2_divides(6, order as nat, i as int);
            } else {
                lemma_pow2_monotonic(order as nat, 5);
            }
        }
        if num_bits < 64 {
            let off: u64 = (i % 64) as u64;
            let nb: u64 = num_bits as u64;
            assert(off + nb <= 64 && di * 64 + off == i) by {
                lemma_run_in_word(i as int, order as nat);
            }
            let mask: u64 = (u64::MAX >> (64 - nb)) << off;
            proof {
                lemma_word_run(self@, di as int, off, nb);
            }
            self.data[di] & mask == 0
        } else {
            let n: usize = num_bits / 64;
            assert(num_bits == 64 * n && di * 64 == i);
            let mut j: usize = 0;
            while j < n
                invariant
                    j <= n,
                    di + n <= N,
                    di * 64 == i,
                    num_bits == 64 * n,
                    num_bits == pow2(order as nat),
                    self@.len() == N,
                    seq_run_free(self@, i as int, 64 * j),
                decreases n - j,
            {
                proof {
                    lemma_whole_word(self@, (di + j) as int);
                }
                if self.data[di + j] != 0 {
                    return false;
                }
                j = j + 1;
            }
            true
        }
    }

    /// Overwrites the bits of `range` with `v`.
    pub fn set(&mut self, range: Range<usize>, v: bool)
        requires
            N * 64 <= usize::MAX,
            range.start <= range.end <= N * 64,
        ensures
            final(self)@.len() == N,
            forall|k: int|
                0 <= k < N * 64 ==> (#[trigger] seq_bit(final(self)@, k)) == (if range.start <= k
                    < range.end {
                    v
                } else {
                    seq_bit(old(self)@, k)
                }),
    {
        if range.start != range.end {
            let first: usize = range.start / 64;
            let last: usize = (range.end - 1) / 64;
            let mut ei: usize = first;
            while ei <= last
                invariant
                    first <= ei <= last + 1,
                    last < N,
                    first == range.start / 64,
                    last == (range.end - 1) / 64,
                    range.start < range.end <= N * 64,
                    N * 64 <= usize::MAX,
                    self@.len() == N,
                    forall|k: int|
                        0 <= k < N * 64 ==> (#[trigger] seq_bit(self@, k)) == (if range.start <= k
                            < range.end && k < ei * 64 {
                            v
                        } else {
                            seq_bit(old(self)@, k)
                        }),
                decreases last + 1 - ei,
            {
                let bit_off: usize = ei * 64;
                let bit_start: usize = if range.start > bit_off {
                    range.start - bit_off
                } else {
                    0
                };
                let rest: usize = range.end - bit_off;
                let bit_end: usize = if rest < 64 {
                    rest
                } else {
                    64
                };
                let bits: u64 = (bit_end - bit_start) as u64;
                let mask: u64 = (u64::MAX >> (64 - bits)) << (bit_start as u64);
                let e: u64 = self.data[ei];
                let x: u64 = if v {
                    e | mask
                } else {
                    e & !mask
                };
                let ghost prev = self@;
                self.data[ei] = x;
                proof {
                    assert(self@ == prev.update(ei as int, x));
                    lemma_zeros64_run(e, bit_start as u64, bits);
                    assert forall|k: int| 0 <= k < N * 64 implies (#[trigger] seq_bit(self@, k)) == (
                    if range.start <= k < range.end && k < (ei + 1) * 64 {
                        v
                    } else {
                        seq_bit(old(self)@, k)
                    }) by {
                        if k / 64 == ei {
                            let b = (k % 64) as u64;
                            assert(k == bit_off + b);
                            if v {
                                assert(word_bit(e | run_mask(bit_start as u64, bits), b) == (
                                word_bit(e, b) || (bit_start <= b < bit_start + bits)));
                            } else {
                                assert(word_bit(e & !run_mask(bit_start as u64, bits), b) == (
                                word_bit(e, b) && !(bit_start <= b < bit_start + bits)));
                            }
                            assert(seq_bit(prev, k) == word_bit(e, b));
                        } else {
                            assert(self@[k / 64] == prev[k / 64]);
                            assert(seq_bit(self@, k) == seq_bit(prev, k));
                        }
                    }
                }
                ei = ei + 1;
            }
        }
    }

    /// Sets the first aligned run of `2^order` zero bits and returns its offset.
    ///
    /// Up to order 6 the words are searched from word `i` on, around the ring; a
    /// run never crosses a word. From order 7 on `i` is not used: the aligned
    /// groups of whole words are tried from the first on.
    pub fn set_first_zeros(&mut self, i: usize, order: usize) -> (r: Result<usize, Error>)
        requires
            N > 0,
            N * 64 <= usize::MAX,
            pow2(order as nat) <= N * 64,
        ensures
            final(self)@.len() == N,
            match r {
                Ok(off) => {
                    &&& off as int % pow2(order as nat) as int == 0
                    &&& off + pow2(order as nat) <= N * 64
                    &&& seq_run_free(old(self)@, off as int, pow2(order as nat) as int)
                    &&& seq_first_fit(old(self)@, i as int, order as nat, off as int)
                    &&& forall|k: int|
                        0 <= k < N * 64 ==> (#[trigger] seq_bit(final(self)@, k)) == (seq_bit(
                            old(self)@,
                            k,
                        ) || off <= k < off + pow2(order as nat))
                    &&& final(self).zeros() + pow2(order as nat) == old(self).zeros()
                },
                Err(e) => {
                    &&& e == Error::Memory
                    &&& final(self)@ == old(self)@
                    &&& seq_no_fit(old(self)@, order as nat)
                },
            },
    {
        proof {
            lemma_pow2_values();
            if order > 6 {
                lemma_pow2_monotonic(7, order as nat);
            } else {
                lemma_pow2_monotonic(order as nat, 6);
            }
        }
        if order > 6 {
            return self.set_first_zero_entries(order);
        }
        let start: usize = i % N;
        let ghost len = pow2(order as nat) as u64;
        let mut j: usize = 0;
        while j < N
            invariant
                j <= N,
                start < N,
                start == i % N,
                order <= 6,
                len == pow2(order as nat),
                1 <= len <= 64,
                N * 64 <= usize::MAX,
                self@ == old(self)@,
                self@.len() == N,
                forall|jj: int|
                    0 <= jj < j ==> no_free_run(
                        old(self)@[#[trigger] cyc(start as int, jj, N as int)],
                        len,
                    ),
            decreases N - j,
        {
            let w: usize = if j < N - start {
                start + j
            } else {
                j - (N - start)
            };
            assert(w == cyc(start as int, j as int, N as int));
            let e: u64 = self.data[w];
            match first_zeros_aligned(e, order) {
                Some((val, o)) => {
                    let ghost prev = self@;
                    self.data[w] = val;
                    proof {
                        assert(self@ == prev.update(w as int, val));
                        lemma_word_run(prev, w as int, o as u64, len);
                        lemma_word_run_update(prev, self@, w as int, o as u64, len, true);
                        assert(cyc_pos(start as int, w as int, N as int) == j);
                        assert((w * 64 + o) / 64 == w && (w * 64 + o) % 64 == o);
                        lemma_pow2_values();
                        lemma_pow2_divides(order as nat, 6, 64);
                        lemma_mod_mul(w as int, 64, len as int);
                        lemma_mod_sum(w * 64, o as int, len as int);
                    }
                    return Ok(w * 64 + o);
                },
                None => {},
            }
            j = j + 1;
        }
        proof {
            assert forall|w: int| 0 <= w < N implies no_free_run(
                #[trigger] old(self)@[w],
                len,
            ) by {
                let jj = cyc_pos(start as int, w, N as int);
                assert(cyc(start as int, jj, N as int) == w);
            }
            lemma_no_fit_words(old(self)@, order as nat);
        }
        Err(Error::Memory)
    }

    /// Sets the first aligned group of whole words that is entirely zero.
    fn set_first_zero_entries(&mut self, order: usize) -> (r: Result<usize, Error>)
        requires
            N * 64 <= usize::MAX,
            6 < order,
            pow2(order as nat) <= N * 64,
        ensures
            final(self)@.len() == N,
            match r {
                Ok(off) => {
                    &&& off as int % pow2(order as nat) as int == 0
                    &&& off + pow2(order as nat) <= N * 64
                    &&& seq_run_free(old(self)@, off as int, pow2(order as nat) as int)
                    &&& forall|c: int|
                        0 <= c < off && c % (pow2(order as nat) as int) == 0
                            ==> !#[trigger] seq_run_free(old(self)@, c, pow2(order as nat) as int)
                    &&& forall|k: int|
                        0 <= k < N * 64 ==> (#[trigger] seq_bit(final(self)@, k)) == (seq_bit(
                            old(self)@,
                            k,
                        ) || off <= k < off + pow2(order as nat))
                    &&& final(self).zeros() + pow2(order as nat) == old(self).zeros()
                },
                Err(e) => {
                    &&& e == Error::Memory
                    &&& final(self)@ == old(self)@
                    &&& seq_no_fit(old(self)@, order as nat)
                },
            },
    {
        let len = pow2_usize(order);
        let total: usize = N * 64;
        proof {
            lemma_pow2_monotonic(0, order as nat);
        }
        let mut c: usize = 0;
        while c <= total - len
            invariant
                0 < len <= total,
                total == N * 64,
                len == pow2(order as nat),
                c as int % len as int == 0,
                c <= total,
                self@ == old(self)@,
                self@.len() == N,
                forall|d: int|
                    0 <= d < c && d % (len as int) == 0 ==> !#[trigger] seq_run_free(
                        old(self)@,
                        d,
                        len as int,
                    ),
            decreases total - c,
        {
            match self.toggle(c, order, false) {
                Ok(()) => {
                    return Ok(c);
                },
                Err(_) => {},
            }
            proof {
                assert forall|d: int| 0 <= d < c + len && d % (len as int) == 0
                    implies !#[trigger] seq_run_free(old(self)@, d, len as int) by {
                    if d >= c {
                        lemma_multiples(c as int, d, len as int);
                    }
                }
                assert((c + len) as int % len as int == 0) by (nonlinear_arith)
                    requires
                        c as int % len as int == 0,
                        len > 0,
                ;
            }
            c = c + len;
        }
        proof {
            assert forall|d: int| 0 <= d && d % (len as int) == 0 && d + len <= 64 * N
                implies !#[trigger] seq_run_free(old(self)@, d, len as int) by {
                if d >= c {
                    lemma_multiples(c as int, d, len as int);
                }
            }
        }
        Err(Error::Memory)
    }

    /// Overwrites every word with the value for `v`, provided that it holds the
    /// opposite value. Stops at the first word that does not, and returns `false`;
    /// the words before it have been overwritten by then.
    pub fn fill_cas(&mut self, v: bool) -> (r: bool)
        ensures
            final(self)@.len() == N,
            r <==> forall|w: int|
                0 <= w < N ==> #[trigger] old(self)@[w] == if v {
                    0u64
                } else {
                    0xffff_ffff_ffff_ffffu64
                },
            r ==> forall|w: int|
                0 <= w < N ==> #[trigger] final(self)@[w] == if v {
                    0xffff_ffff_ffff_ffffu64
                } else {
                    0u64
                },
            forall|w: int|
                0 <= w < N ==> #[trigger] final(self)@[w] == if forall|k: int|
                    0 <= k <= w ==> #[trigger] old(self)@[k] == if v {
                        0u64
                    } else {
                        0xffff_ffff_ffff_ffffu64
                    } {
                    if v {
                        0xffff_ffff_ffff_ffffu64
                    } else {
                        0u64
                    }
                } else {
                    old(self)@[w]
                },
    {
        let to: u64 = if v {
            u64::MAX
        } else {
            0
        };
        let from: u64 = if v {
            0
        } else {
            u64::MAX
        };
        let mut w: usize = 0;
        while w < N
            invariant
                w <= N,
                self@.len() == N,
                old(self)@.len() == N,
                to == if v {
                    0xffff_ffff_ffff_ffffu64
                } else {
                    0u64
                },
                from == if v {
                    0u64
                } else {
                    0xffff_ffff_ffff_ffffu64
                },
                forall|k: int| 0 <= k < w ==> #[trigger] old(self)@[k] == from,
                forall|k: int| 0 <= k < w ==> #[trigger] self@[k] == to,
                forall|k: int| w <= k < N ==> #[trigger] self@[k] == old(self)@[k],
            decreases N - w,
        {
            if self.data[w] != from {
                assert(old(self)@[w as int] != from);
                return false;
            }
            let ghost prev = self@;
            self.data[w] = to;
            assert(self@ == prev.update(w as int, to));
            w = w + 1;
        }
        true
    }

    /// Overwrites every bit with `v`.
    pub fn fill(&mut self, v: bool)
        ensures
            forall|w: int|
                0 <= w < N ==> #[trigger] final(self)@[w] == if v {
                    0xffff_ffff_ffff_ffffu64
                } else {
                    0u64
                },
            final(self)@.len() == N,
    {
        let word: u64 = if v {
            u64::MAX
        } else {
            0
        };
        let mut w: usize = 0;
        while w < N
            invariant
                w <= N,
                forall|k: int| 0 <= k < w ==> #[trigger] self@[k] == word,
            decreases N - w,
        {
            let ghost prev = self@;
            self.data[w] = word;
            assert(self@ == prev.update(w as int, word));
            w = w + 1;
        }
    }
}

} // verus!
