//! The sizes of the levels of a page table.
use vstd::prelude::*;
use core::ops::Range;
use crate::util::{
    align_down,
    align_up,
    div_ceil,
    lemma_pow2_add,
    lemma_pow2_monotonic,
    pow2,
    pow2_usize,
    spec_align_down,
    spec_align_up,
    spec_div_ceil,
};

verus! {

/// The number of index bits of every level of a page table, from level 1 on.
/// Level 0 stands for the pages below the first level of tables.
#[derive(Debug, Clone, PartialEq, Eq)]
pub struct Mapping<const L: usize>(pub [usize; L]);

/// Sum of the first `level` entries of `bits`.
pub open spec fn sum_bits(bits: Seq<usize>, level: int) -> nat
    decreases level,
{
    if level <= 0 {
        0
    } else {
        sum_bits(bits, level - 1) + bits[level - 1] as nat
    }
}

/// The sum of index bits grows with the level.
pub proof fn lemma_sum_bits_monotonic(bits: Seq<usize>, a: int, b: int)
    requires
        a <= b,
    ensures
        sum_bits(bits, a) <= sum_bits(bits, b),
    decreases b - a,
{
    if a < b {
        lemma_sum_bits_monotonic(bits, a, b - 1);
    }
}

impl<const L: usize> Mapping<L> {
    /// Log2 of the number of pages that a table of `level` covers.
    pub open spec fn spec_order(&self, level: int) -> nat {
        sum_bits(self.0@, level)
    }

    /// Number of pages that a table of `level` covers.
    pub open spec fn spec_span(&self, level: int) -> nat {
        pow2(self.spec_order(level))
    }

    /// Number of entries of a table of `level`.
    pub open spec fn spec_len(&self, level: int) -> nat {
        if level == 0 {
            1
        } else {
            pow2(self.0@[level - 1] as nat)
        }
    }

    /// Whether the pages that the highest level covers can be counted.
    pub open spec fn wf(&self) -> bool {
        self.spec_span(L as int) <= usize::MAX
    }

    /// Spans grow with the level, and a table covers as many pages as its entries
    /// cover together.
    pub proof fn lemma_span(&self, level: int)
        requires
            0 <= level <= L,
        ensures
            0 < self.spec_span(level) <= self.spec_span(L as int),
            level > 0 ==> self.spec_span(level) == self.spec_span(level - 1) * self.spec_len(level),
            0 < self.spec_len(level) <= self.spec_span(level),
    {
        lemma_sum_bits_monotonic(self.0@, level, L as int);
        lemma_pow2_monotonic(self.spec_order(level), self.spec_order(L as int));
        if level > 0 {
            lemma_pow2_add(self.spec_order(level - 1), self.0@[level - 1] as nat);
            lemma_pow2_monotonic(self.0@[level - 1] as nat, self.spec_order(level));
        }
    }

    /// Number of levels.
    pub fn levels(&self) -> (r: usize)
        ensures
            r == L,
    {
        L
    }

    /// Number of entries of a table of `level`.
    pub fn len(&self, level: usize) -> (r: usize)
        requires
            self.wf(),
            level <= L,
        ensures
            r == self.spec_len(level as int),
    {
        if level == 0 {
            1
        } else {
            proof {
                self.lemma_span(level as int);
            }
            pow2_usize(self.0[level - 1])
        }
    }

    /// Log2 of the number of pages that a table of `level` covers.
    pub fn order(&self, level: usize) -> (r: usize)
        requires
            self.wf(),
            level <= L,
        ensures
            r == self.spec_order(level as int),
    {
        let mut res: usize = 0;
        let mut l: usize = 0;
        while l < level
            invariant
                l <= level <= L,
                res == sum_bits(self.0@, l as int),
                self.wf(),
            decreases level - l,
        {
            proof {
                lemma_sum_bits_monotonic(self.0@, l + 1, L as int);
                lemma_pow2_monotonic(sum_bits(self.0@, l + 1), self.spec_order(L as int));
                crate::util::lemma_pow2_above(sum_bits(self.0@, l + 1));
            }
            res = res + self.0[l];
            l = l + 1;
        }
        res
    }

    /// Log2 of the number of pages that the highest level covers.
    pub fn max_order(&self) -> (r: usize)
        requires
            self.wf(),
        ensures
            r == self.spec_order(L as int),
    {
        self.order(L)
    }

    /// Number of pages that a table of `level` covers; one page at level 0.
    pub fn span(&self, level: usize) -> (r: usize)
        requires
            self.wf(),
            level <= L,
        ensures
            r == self.spec_span(level as int),
            r > 0,
    {
        proof {
            self.lemma_span(level as int);
        }
        pow2_usize(self.order(level))
    }

    /// Number of bytes that a table of `level` covers.
    pub fn m_span(&self, level: usize) -> (r: usize)
        requires
            self.wf(),
            level <= L,
            self.spec_span(level as int) * 4096 <= usize::MAX,
        ensures
            r == self.spec_span(level as int) * 4096,
    {
        self.span(level) * 4096
    }

    /// Index of the entry of a table of `level` that covers `page`.
    pub fn idx(&self, level: usize, page: usize) -> (r: usize)
        requires
            self.wf(),
            0 < level <= L,
        ensures
            r == (page as int / self.spec_span(level - 1) as int) % (self.spec_len(
                level as int,
            ) as int),
            r < self.spec_len(level as int),
    {
        proof {
            self.lemma_span(level as int);
        }
        (page / self.span(level - 1)) % self.len(level)
    }

    /// First page of the table of `level` that covers `page`.
    pub fn round(&self, level: usize, page: usize) -> (r: usize)
        requires
            self.wf(),
            level <= L,
        ensures
            r == spec_align_down(page as int, self.spec_span(level as int) as int),
            r <= page,
    {
        align_down(page, self.span(level))
    }

    /// The page that entry `i` of the table of `level` around `start` begins with.
    pub fn page(&self, level: usize, start: usize, i: usize) -> (r: usize)
        requires
            self.wf(),
            0 < level <= L,
            spec_align_down(start as int, self.spec_span(level as int) as int) + i * self.spec_span(
                level - 1,
            ) <= usize::MAX,
        ensures
            r == spec_align_down(start as int, self.spec_span(level as int) as int) + i
                * self.spec_span(level - 1),
    {
        let span = self.span(level - 1);
        let rounded = self.round(level, start);
        assert(i * span <= usize::MAX) by (nonlinear_arith)
            requires
                rounded + i * span <= usize::MAX,
                rounded >= 0,
                i >= 0,
                span >= 0,
        ;
        rounded + i * span
    }

    /// Number of tables of `level` that `pages` pages need.
    pub fn num_pts(&self, level: usize, pages: usize) -> (r: usize)
        requires
            self.wf(),
            0 < level <= L,
        ensures
            r == spec_div_ceil(pages as int, self.spec_span(level as int) as int),
    {
        div_ceil(pages, self.span(level))
    }

    /// What `range` returns.
    pub open spec fn spec_range(&self, level: int, pages: Range<usize>) -> Range<usize> {
        if pages.start < pages.end {
            let span = self.spec_span(level - 1) as int;
            let entries = self.spec_len(level) as int;
            let start_d = pages.start as int / span;
            let end_d = spec_align_up(pages.end as int, span) / span;
            let max = spec_align_down(start_d, entries) + entries;
            Range {
                start: (start_d % entries) as usize,
                end: if end_d >= max {
                    entries as usize
                } else {
                    (end_d % entries) as usize
                },
            }
        } else {
            Range { start: 0, end: 0 }
        }
    }

    /// The entries of the table of `level` around the first of `pages` that cover
    /// some of `pages`.
    pub fn range(&self, level: usize, pages: Range<usize>) -> (r: Range<usize>)
        requires
            self.wf(),
            0 < level <= L,
            pages.start < pages.end ==> spec_align_up(
                pages.end as int,
                self.spec_span(level - 1) as int,
            ) <= usize::MAX,
        ensures
            r == self.spec_range(level as int, pages),
    {
        if pages.start < pages.end {
            proof {
                self.lemma_span(level as int);
            }
            let span_m1 = self.span(level - 1);
            let start_d = pages.start / span_m1;
            let end_d = align_up(pages.end, span_m1) / span_m1;
            let entries = self.len(level);
            let low = align_down(start_d, entries);
            let start = start_d % entries;
            let end = if end_d >= low && end_d - low >= entries {
                entries
            } else {
                end_d % entries
            };
            start..end
        } else {
            0..0
        }
    }

    /// The pages with which the entries of the table of `level` around `start`
    /// begin: first `start` itself, then the following entries around the table,
    /// up to the entry before that of `start`.
    pub fn iterate(&self, level: usize, start: usize) -> (r: Vec<usize>)
        requires
            self.wf(),
            0 < level <= L,
            spec_align_down(start as int, self.spec_span(level as int) as int) + self.spec_span(
                level as int,
            ) <= usize::MAX,
        ensures
            r@.len() == self.spec_len(level as int),
            r@[0] == start,
            forall|v: int|
                1 <= v < r@.len() ==> #[trigger] r@[v] == spec_align_down(
                    start as int,
                    self.spec_span(level as int) as int,
                ) + (v * self.spec_span(level - 1) + spec_align_down(
                    start - spec_align_down(start as int, self.spec_span(level as int) as int),
                    self.spec_span(level - 1) as int,
                )) % (self.spec_span(level as int) as int),
    {
        proof {
            self.lemma_span(level as int);
        }
        let span_m1 = self.span(level - 1);
        let span = self.span(level);
        let len = self.len(level);
        let rounded = self.round(level, start);
        let offset = self.round(level - 1, start - rounded);
        let mut out: Vec<usize> = Vec::new();
        out.push(start);
        let mut v: usize = 1;
        while v < len
            invariant
                1 <= v <= len,
                span == span_m1 * len,
                span_m1 > 0,
                offset <= start - rounded < span,
                rounded + span <= usize::MAX,
                out@.len() == v,
                out@[0] == start,
                forall|k: int|
                    1 <= k < v ==> #[trigger] out@[k] == rounded + (k * span_m1 + offset) % (
                    span as int),
            decreases len - v,
        {
            assert(v * span_m1 < span) by (nonlinear_arith)
                requires
                    v < len,
                    span == span_m1 * len,
                    span_m1 > 0,
            ;
            let step: usize = v * span_m1;
            let wrapped: usize = if step >= span - offset {
                step - (span - offset)
            } else {
                step + offset
            };
            proof {
                crate::util::lemma_mod_wrap(step + offset, span as int);
            }
            out.push(rounded + wrapped);
            v = v + 1;
        }
        out
    }
}

} // verus!
