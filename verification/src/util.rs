//! Small arithmetic helpers.
use vstd::prelude::*;
use vstd::arithmetic::div_mod::{lemma_add_mod_noop, lemma_mod_multiples_basic, lemma_small_mod, lemma_fundamental_div_mod};

verus! {

/// `2^e`.
pub open spec fn pow2(e: nat) -> nat
    decreases e,
{
    if e == 0 {
        1
    } else {
        2 * pow2((e - 1) as nat)
    }
}

/// The powers of two that the allocator works with.
pub proof fn lemma_pow2_values()
    ensures
        pow2(0) == 1,
        pow2(1) == 2,
        pow2(2) == 4,
        pow2(3) == 8,
        pow2(4) == 16,
        pow2(5) == 32,
        pow2(6) == 64,
        pow2(7) == 128,
        pow2(8) == 256,
        pow2(9) == 512,
        pow2(10) == 1024,
        pow2(11) == 2048,
        pow2(12) == 4096,
{
    reveal_with_fuel(pow2, 13);
}

/// `2^(a+b) == 2^a * 2^b`.
pub proof fn lemma_pow2_add(a: nat, b: nat)
    ensures
        pow2(a + b) == pow2(a) * pow2(b),
    decreases b,
{
    if b > 0 {
        lemma_pow2_add(a, (b - 1) as nat);
        assert(pow2(a + b) == 2 * pow2((a + b - 1) as nat));
        assert(pow2(a) * pow2(b) == 2 * (pow2(a) * pow2((b - 1) as nat))) by (nonlinear_arith)
            requires
                pow2(b) == 2 * pow2((b - 1) as nat),
        ;
    } else {
        assert(pow2(a) * 1 == pow2(a));
    }
}

/// Powers of two are positive and grow with the exponent.
pub proof fn lemma_pow2_monotonic(a: nat, b: nat)
    requires
        a <= b,
    ensures
        0 < pow2(a) <= pow2(b),
    decreases b,
{
    if b > a {
        lemma_pow2_monotonic(a, (b - 1) as nat);
    } else if a > 0 {
        lemma_pow2_monotonic((a - 1) as nat, (a - 1) as nat);
    }
}

/// Computes `2^order`.
pub fn pow2_usize(order: usize) -> (r: usize)
    requires
        pow2(order as nat) <= usize::MAX,
    ensures
        r == pow2(order as nat),
{
    let mut r: usize = 1;
    let mut k: usize = 0;
    while k < order
        invariant
            k <= order,
            r == pow2(k as nat),
            pow2(order as nat) <= usize::MAX,
        decreases order - k,
    {
        proof {
            lemma_pow2_monotonic((k + 1) as nat, order as nat);
        }
        r = r * 2;
        k = k + 1;
    }
    r
}

/// A multiple of a power of two is a multiple of every smaller power of two.
pub proof fn lemma_pow2_divides(a: nat, b: nat, v: int)
    requires
        a <= b,
        v % (pow2(b) as int) == 0,
    ensures
        pow2(b) % pow2(a) == 0,
        v % (pow2(a) as int) == 0,
{
    lemma_pow2_add(a, (b - a) as nat);
    lemma_pow2_monotonic(a, b);
    let pa = pow2(a) as int;
    let pb = pow2(b) as int;
    let q = pow2((b - a) as nat) as int;
    assert(pb == pa * q);
    assert(pb % pa == 0) by (nonlinear_arith)
        requires
            pb == pa * q,
            pa > 0,
    ;
    assert(v % pa == 0) by (nonlinear_arith)
        requires
            pb == pa * q,
            pa > 0,
            pb > 0,
            v % pb == 0,
    {
        let k = v / pb;
        assert(v == k * pb);
        assert(v == (k * q) * pa);
    }
}

/// The sum of two multiples of `d` is a multiple of `d`.
pub proof fn lemma_mod_sum(a: int, b: int, d: int)
    requires
        d > 0,
        a % d == 0,
        b % d == 0,
    ensures
        (a + b) % d == 0,
{
    lemma_add_mod_noop(a, b, d);
    lemma_small_mod(0, d as nat);
}

/// The difference of two multiples of `d` is a multiple of `d`.
pub proof fn lemma_mod_diff(a: int, b: int, d: int)
    requires
        d > 0,
        a % d == 0,
        b % d == 0,
    ensures
        (a - b) % d == 0,
{
    lemma_fundamental_div_mod(a, d);
    lemma_fundamental_div_mod(b, d);
    let x = a / d;
    let y = b / d;
    assert(a - b == (x - y) * d) by (nonlinear_arith)
        requires
            a == d * x,
            b == d * y,
    ;
    lemma_mod_multiples_basic(x - y, d);
}

/// A multiple of `d` below a multiple `m` of `d` leaves room for `d` more.
pub proof fn lemma_mod_fits(a: int, d: int, m: int)
    requires
        d > 0,
        a % d == 0,
        m % d == 0,
        0 <= a < m,
    ensures
        a + d <= m,
{
    lemma_fundamental_div_mod(a, d);
    lemma_fundamental_div_mod(m, d);
    let x = a / d;
    let y = m / d;
    assert(x < y) by (nonlinear_arith)
        requires
            a == d * x,
            m == d * y,
            a < m,
            d > 0,
    ;
    assert(a + d <= m) by (nonlinear_arith)
        requires
            a == d * x,
            m == d * y,
            x + 1 <= y,
            d > 0,
    ;
}

/// A multiple of a multiple of `d` is a multiple of `d`.
pub proof fn lemma_mod_mul(k: int, a: int, d: int)
    requires
        d > 0,
        a % d == 0,
    ensures
        (k * a) % d == 0,
{
    lemma_fundamental_div_mod(a, d);
    let q = a / d;
    assert(a == d * q);
    assert(k * a == (k * q) * d) by (nonlinear_arith)
        requires
            a == d * q,
    ;
    lemma_mod_multiples_basic(k * q, d);
}

/// A run of at most 32 bits that starts at a multiple of its length lies within
/// one word of 64 bits.
pub proof fn lemma_run_in_word(i: int, order: nat)
    requires
        0 <= i <= u64::MAX,
        order < 6,
        i % (pow2(order) as int) == 0,
    ensures
        i % 64 + pow2(order) <= 64,
        (i % 64) % (pow2(order) as int) == 0,
        (i / 64) * 64 + i % 64 == i,
{
    lemma_pow2_values();
    let v = i as u64;
    let len = pow2(order) as u64;
    assert(len == 1 || len == 2 || len == 4 || len == 8 || len == 16 || len == 32);
    assert((v % 64) + len <= 64 && (v % 64) % len == 0) by (bit_vector)
        requires
            len == 1 || len == 2 || len == 4 || len == 8 || len == 16 || len == 32,
            v % len == 0,
    ;
}

/// The remainder of a number below `2 * m`.
pub proof fn lemma_mod_wrap(x: int, m: int)
    requires
        0 <= x < 2 * m,
    ensures
        x % m == if x < m {
            x
        } else {
            x - m
        },
{
    if x < m {
        lemma_small_mod(x as nat, m as nat);
    } else {
        lemma_small_mod((x - m) as nat, m as nat);
        vstd::arithmetic::div_mod::lemma_mod_add_multiples_vanish(x - m, m);
    }
}

/// A power of two exceeds its exponent.
pub proof fn lemma_pow2_above(e: nat)
    ensures
        e < pow2(e),
    decreases e,
{
    if e > 0 {
        lemma_pow2_above((e - 1) as nat);
    }
}

/// `v` rounded down to a multiple of `align`.
pub open spec fn spec_align_down(v: int, align: int) -> int {
    v - v % align
}

/// `v` rounded up to a multiple of `align`.
pub open spec fn spec_align_up(v: int, align: int) -> int {
    if v % align == 0 {
        v
    } else {
        v - v % align + align
    }
}

/// `ceil(v / d)`.
pub open spec fn spec_div_ceil(v: int, d: int) -> int {
    if v % d == 0 {
        v / d
    } else {
        v / d + 1
    }
}

/// Rounds `v` down to the next multiple of `align`.
pub fn align_down(v: usize, align: usize) -> (r: usize)
    requires
        align > 0,
    ensures
        r == spec_align_down(v as int, align as int),
        r <= v,
        r % align == 0,
        v - r < align,
{
    let rem: usize = v % align;
    assert(rem <= v && (v - rem) % (align as int) == 0) by (nonlinear_arith)
        requires
            rem == v % align,
            align > 0,
    ;
    v - rem
}

/// Rounds `v` up to the next multiple of `align`.
pub fn align_up(v: usize, align: usize) -> (r: usize)
    requires
        align > 0,
        spec_align_up(v as int, align as int) <= usize::MAX,
    ensures
        r == spec_align_up(v as int, align as int),
        r >= v,
        r % align == 0,
        r - v < align,
{
    let rem: usize = v % align;
    if rem == 0 {
        v
    } else {
        assert(rem <= v && (v - rem + align) % (align as int) == 0) by (nonlinear_arith)
            requires
                rem == v % align,
                align > 0,
        ;
        v - rem + align
    }
}

/// Divides `v` by `d`, rounding up.
pub fn div_ceil(v: usize, d: usize) -> (r: usize)
    requires
        d > 0,
    ensures
        r == spec_div_ceil(v as int, d as int),
        r <= v,
        r * d >= v,
        v > 0 ==> (r - 1) * d < v,
        v == 0 ==> r == 0,
{
    let q: usize = v / d;
    let rem: usize = v % d;
    assert(v == q * d + rem && q * d <= v) by (nonlinear_arith)
        requires
            q == v / d,
            rem == v % d,
            d > 0,
    ;
    if rem == 0 {
        assert((q - 1) * d == q * d - d) by (nonlinear_arith);
        q
    } else {
        assert((q + 1) * d == q * d + d) by (nonlinear_arith);
        assert(q < v) by (nonlinear_arith)
            requires
                v == q * d + rem,
                rem > 0,
                d > 0,
        ;
        q + 1
    }
}

} // verus!
