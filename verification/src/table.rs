//! A page table of 512 entries, and the arithmetic of its four levels.
use vstd::prelude::*;
use core::ops::Range;
use crate::util::{
    div_ceil,
    lemma_pow2_add,
    lemma_pow2_monotonic,
    lemma_pow2_values,
    pow2,
    pow2_usize,
    spec_div_ceil,
};

verus! {

/// Log2 of the size of an entry in bytes.
pub const PTE_SIZE_BITS: usize = 3;

/// Size of an entry in bytes.
pub const PTE_SIZE: usize = 8;

/// Log2 of the number of entries.
pub const LEN_BITS: usize = 9;

/// Number of entries.
pub const LEN: usize = 512;

/// Number of levels.
pub const LEVELS: usize = 4;

/// A page table.
pub struct Table {
    entries: Vec<u64>,
}

impl View for Table {
    type V = Seq<u64>;

    closed spec fn view(&self) -> Seq<u64> {
        self.entries@
    }
}

/// Number of pages that a table of `level` covers.
pub open spec fn table_span(level: int) -> nat {
    pow2((LEN_BITS * level) as nat)
}

/// The entries of a table of `level` that cover some of `pages`, where the
/// table is the one that covers the first of `pages`.
pub open spec fn table_range(level: int, pages: Range<usize>) -> Range<usize> {
    let span = table_span(level - 1) as int;
    let start_d = pages.start as int / span;
    let end_d = spec_div_ceil(pages.end as int, span);
    let low = start_d - start_d % (LEN as int);
    let rest = if end_d >= low {
        end_d - low
    } else {
        0
    };
    Range {
        start: (start_d % (LEN as int)) as usize,
        end: if rest < LEN {
            rest as usize
        } else {
            LEN
        },
    }
}

/// A table of one level covers 512 tables of the level below.
pub proof fn lemma_table_span(level: int)
    requires
        0 < level,
    ensures
        table_span(level) == table_span(level - 1) * LEN,
        0 < table_span(level - 1) < table_span(level),
{
    lemma_pow2_values();
    lemma_pow2_add((LEN_BITS * (level - 1)) as nat, 9);
    lemma_pow2_monotonic(0, (LEN_BITS * (level - 1)) as nat);
    assert(table_span(level - 1) * 512 > table_span(level - 1)) by (nonlinear_arith)
        requires
            table_span(level - 1) > 0,
    ;
}

impl Table {
    /// Whether the table has its 512 entries.
    pub closed spec fn wf(&self) -> bool {
        self.entries@.len() == LEN
    }

    /// A consistent table has 512 entries.
    pub proof fn lemma_len(&self)
        requires
            self.wf(),
        ensures
            self@.len() == LEN,
    {
    }

    /// Number of bytes that a table of `level` covers.
    pub fn m_span(level: usize) -> (r: usize)
        requires
            table_span(level as int) * 4096 <= usize::MAX,
        ensures
            r == table_span(level as int) * 4096,
    {
        Self::span(level) * 4096
    }

    /// Number of pages that a table of `level` covers.
    pub fn span(level: usize) -> (r: usize)
        requires
            table_span(level as int) <= usize::MAX,
        ensures
            r == table_span(level as int),
            r > 0,
    {
        proof {
            lemma_pow2_monotonic(0, (LEN_BITS * level) as nat);
            crate::util::lemma_pow2_above((LEN_BITS * level) as nat);
        }
        pow2_usize(LEN_BITS * level)
    }

    /// Index of the entry of a table of `level` that covers `page`.
    pub fn idx(level: usize, page: usize) -> (r: usize)
        requires
            0 < level,
            table_span(level - 1) <= usize::MAX,
        ensures
            r == (page as int / table_span(level - 1) as int) % (LEN as int),
            r < LEN,
    {
        (page / Self::span(level - 1)) % LEN
    }

    /// First page of the table of `level` that covers `page`.
    pub fn round(level: usize, page: usize) -> (r: usize)
        requires
            table_span(level as int) <= usize::MAX,
        ensures
            r == page - page as int % (table_span(level as int) as int),
            r <= page,
    {
        crate::util::align_down(page, Self::span(level))
    }

    /// The page that entry `i` of the table of `level` around `start` begins with.
    pub fn page(level: usize, start: usize, i: usize) -> (r: usize)
        requires
            0 < level,
            table_span(level as int) <= usize::MAX,
            start - start as int % (table_span(level as int) as int) + i * table_span(level - 1)
                <= usize::MAX,
        ensures
            r == start - start as int % (table_span(level as int) as int) + i * table_span(
                level - 1,
            ),
    {
        proof {
            lemma_table_span(level as int);
        }
        let span = Self::span(level - 1);
        let rounded = Self::round(level, start);
        assert(i * span <= usize::MAX) by (nonlinear_arith)
            requires
                rounded + i * span <= usize::MAX,
                rounded >= 0,
                i >= 0,
                span >= 0,
        ;
        rounded + i * span
    }

    /// Number of tables of `level` that `pages` pages need.
    pub fn num_pts(level: usize, pages: usize) -> (r: usize)
        requires
            table_span(level as int) <= usize::MAX,
        ensures
            r == spec_div_ceil(pages as int, table_span(level as int) as int),
    {
        div_ceil(pages, Self::span(level))
    }

    /// The entries of the table of `level` around the first of `pages` that cover
    /// some of `pages`.
    pub fn range(level: usize, pages: Range<usize>) -> (r: Range<usize>)
        requires
            0 < level,
            table_span(level - 1) <= usize::MAX,
        ensures
            r == table_range(level as int, pages),
    {
        let span = Self::span(level - 1);
        let start_d = pages.start / span;
        let end_d = div_ceil(pages.end, span);
        let low = start_d - start_d % LEN;
        let rest = if end_d >= low {
            end_d - low
        } else {
            0
        };
        let end = if rest < LEN {
            rest
        } else {
            LEN
        };
        (start_d % LEN)..end
    }

    /// The pages with which the entries of the table of `level` around `start`
    /// begin: first `start` itself, then the following entries around the table,
    /// up to the entry before that of `start`.
    pub fn iterate(level: usize, start: usize) -> (r: Vec<usize>)
        requires
            0 < level,
            table_span(level as int) <= usize::MAX,
            start - start as int % (table_span(level as int) as int) + table_span(level as int)
                <= usize::MAX,
        ensures
            r@.len() == LEN,
            r@[0] == start,
            forall|v: int|
                1 <= v < LEN ==> #[trigger] r@[v] == start - start as int % (table_span(
                    level as int,
                ) as int) + (((start as int / table_span(level - 1) as int) % (LEN as int) + v) % (
                LEN as int)) * table_span(level - 1),
    {
        proof {
            lemma_table_span(level as int);
        }
        let span = Self::span(level - 1);
        let pt_start = Self::round(level, start);
        let offset = (start / span) % LEN;
        let mut out: Vec<usize> = Vec::new();
        out.push(start);
        let mut v: usize = 1;
        while v < LEN
            invariant
                1 <= v <= LEN,
                offset < LEN,
                span > 0,
                pt_start + span * LEN <= usize::MAX,
                out@.len() == v,
                out@[0] == start,
                forall|k: int|
                    1 <= k < v ==> #[trigger] out@[k] == pt_start + ((offset + k) % (LEN as int))
                        * span,
            decreases LEN - v,
        {
            let i: usize = (offset + v) % LEN;
            assert(i * span <= span * LEN) by (nonlinear_arith)
                requires
                    i < LEN,
                    span > 0,
            ;
            out.push(pt_start + i * span);
            v = v + 1;
        }
        out
    }

    /// A table whose entries are all zero.
    pub fn empty() -> (r: Self)
        ensures
            r.wf(),
            forall|i: int| 0 <= i < LEN ==> #[trigger] r@[i] == 0,
    {
        let mut entries: Vec<u64> = Vec::new();
        let mut i: usize = 0;
        while i < LEN
            invariant
                i <= LEN,
                entries@.len() == i,
                forall|k: int| 0 <= k < i ==> #[trigger] entries@[k] == 0,
            decreases LEN - i,
        {
            entries.push(0);
            i = i + 1;
        }
        Table { entries }
    }

    /// Overwrites every entry with `e`.
    pub fn fill(&mut self, e: u64)
        requires
            old(self).wf(),
        ensures
            final(self).wf(),
            forall|i: int| 0 <= i < LEN ==> #[trigger] final(self)@[i] == e,
    {
        let mut i: usize = 0;
        while i < LEN
            invariant
                i <= LEN,
                self.wf(),
                forall|k: int| 0 <= k < i ==> #[trigger] self@[k] == e,
            decreases LEN - i,
        {
            let ghost prev = self@;
            self.entries[i] = e;
            assert(self@ == prev.update(i as int, e));
            i = i + 1;
        }
    }

    /// Entry `i`.
    pub fn get(&self, i: usize) -> (r: u64)
        requires
            self.wf(),
            i < LEN,
        ensures
            r == self@[i as int],
    {
        self.entries[i]
    }

    /// Overwrites entry `i` with `e`.
    pub fn set(&mut self, i: usize, e: u64)
        requires
            old(self).wf(),
            i < LEN,
        ensures
            final(self).wf(),
            final(self)@ == old(self)@.update(i as int, e),
    {
        self.entries[i] = e;
    }

    /// Overwrites entry `i` with `new` if it holds `expected`. Returns what the
    /// entry held, as `Ok` if it was overwritten.
    pub fn cas(&mut self, i: usize, expected: u64, new: u64) -> (r: Result<u64, u64>)
        requires
            old(self).wf(),
            i < LEN,
        ensures
            final(self).wf(),
            old(self)@[i as int] == expected ==> r == Ok::<u64, u64>(expected) && final(self)@
                == old(self)@.update(i as int, new),
            old(self)@[i as int] != expected ==> r == Err::<u64, u64>(old(self)@[i as int])
                && final(self)@ == old(self)@,
    {
        let cur = self.entries[i];
        if cur == expected {
            self.entries[i] = new;
            Ok(cur)
        } else {
            Err(cur)
        }
    }

    /// Overwrites entry `i` with what `f` makes of it, if `f` makes anything of
    /// it. Returns what the entry held, as `Ok` if it was overwritten.
    pub fn update<F: Fn(u64) -> Option<u64>>(&mut self, i: usize, f: F) -> (r: Result<u64, u64>)
        requires
            old(self).wf(),
            i < LEN,
            f.requires((old(self)@[i as int],)),
        ensures
            final(self).wf(),
            match r {
                Ok(cur) => cur == old(self)@[i as int] && f.ensures((cur,), Some(final(self)@[i as int]))
                    && final(self)@ == old(self)@.update(i as int, final(self)@[i as int]),
                Err(cur) => cur == old(self)@[i as int] && f.ensures((cur,), None) && final(self)@
                    == old(self)@,
            },
    {
        let cur = self.entries[i];
        match f(cur) {
            Some(new) => {
                self.entries[i] = new;
                assert(self@ =~= old(self)@.update(i as int, new));
                Ok(cur)
            },
            None => Err(cur),
        }
    }
}

} // verus!
