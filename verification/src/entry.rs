//! The counter entries of the allocator: one per chunk, one per subtree and one
//! per core.
use vstd::prelude::*;
use core::ops::Range;

verus! {

/// Largest raw start of a reservation; it stands for "no subtree reserved".
pub const START_RAW_MAX: u64 = 0x7fff_ffff_ffff;

/// Largest counter that fits a reservation.
pub const RESERVED_FREE_MAX: usize = 0xffff;

/// Largest counter that fits a tree entry.
pub const TREE_FREE_MAX: usize = 0x7fff;

/// Counter of a chunk that is allocated as one huge frame.
pub const CHILD_HUGE: u16 = 0xffff;

/// The reservation of a core: the subtree it allocates from, and how many of
/// that subtree's free frames it holds.
#[derive(Debug, Clone, Copy, PartialEq, Eq, Structural)]
pub struct ReservedTree {
    /// Number of free frames held by the core.
    pub free: usize,
    /// Whether a reservation is under way.
    pub locked: bool,
    /// Frame at which the next search starts, divided by 64.
    pub start_raw: u64,
}

impl ReservedTree {
    /// Whether the fields fit their 16, 1 and 47 bits.
    pub open spec fn wf(self) -> bool {
        &&& self.free <= RESERVED_FREE_MAX
        &&& self.start_raw <= START_RAW_MAX
    }

    /// Whether a subtree is reserved.
    pub open spec fn spec_has_start(self) -> bool {
        self.start_raw < START_RAW_MAX
    }

    /// Frame at which the next search starts.
    pub open spec fn spec_start(self) -> int {
        self.start_raw * 64
    }

    /// The entry of a core that has nothing reserved.
    pub fn new() -> (r: Self)
        ensures
            r == (ReservedTree { free: 0, locked: false, start_raw: START_RAW_MAX }),
            r.wf(),
            !r.spec_has_start(),
    {
        ReservedTree { free: 0, locked: false, start_raw: START_RAW_MAX }
    }

    /// An unlocked entry with `free` frames that starts at frame `start`.
    pub fn new_with(free: usize, start: usize) -> (r: Self)
        requires
            free <= RESERVED_FREE_MAX,
            start / 64 <= START_RAW_MAX,
        ensures
            r == (ReservedTree { free, locked: false, start_raw: (start / 64) as u64 }),
            r.wf(),
    {
        ReservedTree { free, locked: false, start_raw: (start / 64) as u64 }
    }

    /// The stored form: the counter in the lowest 16 bits, then the lock flag,
    /// then the start in the upper 47 bits.
    pub open spec fn spec_bits(self) -> u64 {
        (self.free as u64) | (if self.locked {
            0x1_0000u64
        } else {
            0u64
        }) | (self.start_raw << 17)
    }

    /// The stored form: the counter in the lowest 16 bits, then the lock flag,
    /// then the start in the upper 47 bits.
    pub fn into_bits(self) -> (r: u64)
        requires
            self.wf(),
        ensures
            r == self.spec_bits(),
            Self::spec_from_bits(r) == self,
    {
        let free = self.free as u64;
        let flag: u64 = if self.locked {
            0x1_0000
        } else {
            0
        };
        let start = self.start_raw;
        assert(((free | flag | (start << 17)) & 0xffff == free) && (((free | flag | (start << 17))
            & 0x1_0000 != 0) == (flag != 0)) && ((free | flag | (start << 17)) >> 17 == start))
            by (bit_vector)
            requires
                free <= 0xffff,
                flag == 0 || flag == 0x1_0000,
                start <= 0x7fff_ffff_ffff,
        ;
        free | flag | (start << 17)
    }

    /// The entry of a stored form.
    pub open spec fn spec_from_bits(bits: u64) -> Self {
        ReservedTree {
            free: (bits & 0xffff) as usize,
            locked: bits & 0x1_0000 != 0,
            start_raw: bits >> 17,
        }
    }

    /// The entry of a stored form.
    pub fn from_bits(bits: u64) -> (r: Self)
        ensures
            r == Self::spec_from_bits(bits),
            r.wf(),
            r.spec_bits() == bits,
    {
        let free = bits & 0xffff;
        let locked = bits & 0x1_0000 != 0;
        let start = bits >> 17;
        assert(free <= 0xffff && start <= 0x7fff_ffff_ffff && (free | (if locked {
            0x1_0000u64
        } else {
            0u64
        }) | (start << 17)) == bits) by (bit_vector)
            requires
                free == bits & 0xffff,
                locked == (bits & 0x1_0000 != 0),
                start == bits >> 17,
        ;
        ReservedTree { free: free as usize, locked, start_raw: start }
    }

    /// Number of free frames held by the core.
    pub fn free(self) -> (r: usize)
        ensures
            r == self.free,
    {
        self.free
    }

    /// Whether a reservation is under way.
    pub fn locked(self) -> (r: bool)
        ensures
            r == self.locked,
    {
        self.locked
    }

    /// Whether a subtree is reserved.
    pub fn has_start(self) -> (r: bool)
        ensures
            r == self.spec_has_start(),
    {
        self.start_raw < START_RAW_MAX
    }

    /// Frame at which the next search starts.
    pub fn start(self) -> (r: usize)
        requires
            self.spec_start() <= usize::MAX,
        ensures
            r == self.spec_start(),
    {
        (self.start_raw * 64) as usize
    }

    /// The entry with another number of free frames.
    pub fn with_free(self, free: usize) -> (r: Self)
        requires
            free <= RESERVED_FREE_MAX,
        ensures
            r == (ReservedTree { free, ..self }),
    {
        ReservedTree { free, locked: self.locked, start_raw: self.start_raw }
    }

    /// The entry with another lock flag.
    pub fn with_locked(self, locked: bool) -> (r: Self)
        ensures
            r == (ReservedTree { locked, ..self }),
    {
        ReservedTree { free: self.free, locked, start_raw: self.start_raw }
    }

    /// The entry that starts at frame `start`, rounded down to a multiple of 64.
    pub fn with_start(self, start: usize) -> (r: Self)
        requires
            start / 64 <= START_RAW_MAX,
        ensures
            r == (ReservedTree { start_raw: (start / 64) as u64, ..self }),
    {
        ReservedTree { free: self.free, locked: self.locked, start_raw: (start / 64) as u64 }
    }

    /// Lets the entry start at frame `start`, rounded down to a multiple of 64.
    pub fn set_start(&mut self, start: usize)
        requires
            start / 64 <= START_RAW_MAX,
        ensures
            *final(self) == (ReservedTree { start_raw: (start / 64) as u64, ..*old(self) }),
    {
        self.start_raw = (start / 64) as u64;
    }

    /// What `dec` returns.
    pub open spec fn spec_dec(self, num_frames: usize) -> Option<Self> {
        if self.spec_has_start() && self.free >= num_frames {
            Some(ReservedTree { free: (self.free - num_frames) as usize, ..self })
        } else {
            None
        }
    }

    /// Takes `num_frames` frames from the counter, if a subtree is reserved and
    /// the counter holds that many.
    pub fn dec(self, num_frames: usize) -> (r: Option<Self>)
        ensures
            r == self.spec_dec(num_frames),
    {
        if self.has_start() && self.free >= num_frames {
            Some(ReservedTree { free: self.free - num_frames, ..self })
        } else {
            None
        }
    }

    /// What `inc` returns if the start check gave `start_ok`.
    pub open spec fn spec_inc(self, num_frames: usize, max: usize, start_ok: bool) -> Option<Self> {
        if start_ok && self.free + num_frames <= max {
            Some(ReservedTree { free: (self.free + num_frames) as usize, ..self })
        } else {
            None
        }
    }

    /// Adds `num_frames` frames to the counter, if `check_start` accepts the
    /// start frame and the counter stays within `max`.
    pub fn inc<F: FnOnce(usize) -> bool>(self, num_frames: usize, max: usize, check_start: F) -> (r:
        Option<Self>)
        requires
            self.spec_start() <= usize::MAX,
            check_start.requires((self.spec_start() as usize,)),
        ensures
            (check_start.ensures((self.spec_start() as usize,), true) && r == self.spec_inc(
                num_frames,
                max,
                true,
            )) || (check_start.ensures((self.spec_start() as usize,), false) && r == self.spec_inc(
                num_frames,
                max,
                false,
            )),
    {
        let start_ok = check_start(self.start());
        if !start_ok {
            return None;
        }
        if num_frames <= max && self.free <= max - num_frames {
            Some(ReservedTree { free: self.free + num_frames, ..self })
        } else {
            None
        }
    }

    /// The entry with the lock flag `new`, if that is a change.
    pub fn toggle_locked(self, new: bool) -> (r: Option<Self>)
        ensures
            r == if self.locked != new {
                Some(ReservedTree { locked: new, ..self })
            } else {
                None
            },
    {
        if self.locked != new {
            Some(ReservedTree { locked: new, ..self })
        } else {
            None
        }
    }
}

/// The entry of a subtree: how many of its frames are free and not handed to a
/// core, and whether a core has it reserved.
#[derive(Debug, Clone, Copy, PartialEq, Eq, Structural)]
pub struct Tree {
    /// Number of free frames.
    pub free: usize,
    /// Whether a core has this subtree reserved.
    pub reserved: bool,
}

impl Tree {
    /// Whether the counter fits its 15 bits.
    pub open spec fn wf(self) -> bool {
        self.free <= TREE_FREE_MAX
    }

    /// The entry of an unreserved subtree without free frames.
    pub fn new() -> (r: Self)
        ensures
            r == (Tree { free: 0, reserved: false }),
    {
        Tree { free: 0, reserved: false }
    }

    /// The entry of an unreserved subtree of which `span` frames are free.
    pub fn empty(span: usize) -> (r: Self)
        requires
            span <= TREE_FREE_MAX,
        ensures
            r == (Tree { free: span, reserved: false }),
    {
        Tree { free: span, reserved: false }
    }

    /// An entry with `frames` free frames.
    pub fn new_with(frames: usize, reserved: bool) -> (r: Self)
        requires
            frames <= TREE_FREE_MAX,
        ensures
            r == (Tree { free: frames, reserved }),
    {
        Tree { free: frames, reserved }
    }

    /// The stored form: the counter in the lower 15 bits, the flag above them.
    pub open spec fn spec_bits(self) -> u16 {
        (self.free as u16) | (if self.reserved {
            0x8000u16
        } else {
            0u16
        })
    }

    /// The stored form: the counter in the lower 15 bits, the flag above them.
    pub fn into_bits(self) -> (r: u16)
        requires
            self.wf(),
        ensures
            r == self.spec_bits(),
            Self::spec_from_bits(r) == self,
    {
        let free = self.free as u16;
        let flag: u16 = if self.reserved {
            0x8000
        } else {
            0
        };
        assert((free | flag) & 0x7fff == free && ((free | flag) & 0x8000 != 0) == (flag != 0))
            by (bit_vector)
            requires
                free <= 0x7fff,
                flag == 0 || flag == 0x8000,
        ;
        free | flag
    }

    /// The entry of a stored form.
    pub open spec fn spec_from_bits(bits: u16) -> Self {
        Tree { free: (bits & 0x7fff) as usize, reserved: bits & 0x8000 != 0 }
    }

    /// The entry of a stored form.
    pub fn from_bits(bits: u16) -> (r: Self)
        ensures
            r == Self::spec_from_bits(bits),
            r.wf(),
            r.spec_bits() == bits,
    {
        let free = bits & 0x7fff;
        let reserved = bits & 0x8000 != 0;
        assert(free <= 0x7fff && (free | (if reserved {
            0x8000u16
        } else {
            0u16
        })) == bits) by (bit_vector)
            requires
                free == bits & 0x7fff,
                reserved == (bits & 0x8000 != 0),
        ;
        Tree { free: free as usize, reserved }
    }

    /// Number of free frames.
    pub fn free(self) -> (r: usize)
        ensures
            r == self.free,
    {
        self.free
    }

    /// Whether a core has this subtree reserved.
    pub fn reserved(self) -> (r: bool)
        ensures
            r == self.reserved,
    {
        self.reserved
    }

    /// What `inc` returns.
    pub open spec fn spec_inc(self, num_frames: usize, max: usize) -> Option<Self> {
        if self.free + num_frames <= max {
            Some(Tree { free: (self.free + num_frames) as usize, ..self })
        } else {
            None
        }
    }

    /// Adds `num_frames` frames to the counter, if it stays within `max`.
    pub fn inc(self, num_frames: usize, max: usize) -> (r: Option<Self>)
        ensures
            r == self.spec_inc(num_frames, max),
    {
        if num_frames <= max && self.free <= max - num_frames {
            Some(Tree { free: self.free + num_frames, ..self })
        } else {
            None
        }
    }

    /// What `reserve` returns.
    pub open spec fn spec_reserve(self, free: Range<usize>) -> Option<Self> {
        if !self.reserved && free.start <= self.free < free.end {
            Some(Tree { free: 0, reserved: true })
        } else {
            None
        }
    }

    /// Reserves the subtree if it is not reserved and its counter lies in `free`.
    /// The frames counted so far go to the core that reserves.
    pub fn reserve(self, free: Range<usize>) -> (r: Option<Self>)
        ensures
            r == self.spec_reserve(free),
    {
        if !self.reserved && free.start <= self.free && self.free < free.end {
            Some(Tree { free: 0, reserved: true })
        } else {
            None
        }
    }

    /// What `unreserve_add` returns.
    pub open spec fn spec_unreserve_add(self, add: usize, max: usize) -> Option<Self> {
        if self.reserved && self.free + add <= max {
            Some(Tree { free: (self.free + add) as usize, reserved: false })
        } else {
            None
        }
    }

    /// Gives up the reservation of the subtree and adds the `add` frames that the
    /// core still held, if the counter stays within `max`.
    pub fn unreserve_add(self, add: usize, max: usize) -> (r: Option<Self>)
        ensures
            r == self.spec_unreserve_add(add, max),
    {
        if self.reserved && add <= max && self.free <= max - add {
            Some(Tree { free: self.free + add, reserved: false })
        } else {
            None
        }
    }
}

/// The entry of a chunk: the number of its free frames, or the mark that the
/// chunk is allocated as one huge frame.
#[derive(Debug, Clone, Copy, PartialEq, Eq, Structural)]
pub struct Child {
    /// Number of free frames, or `CHILD_HUGE`.
    pub count: u16,
}

impl Child {
    /// Whether the chunk is allocated as one huge frame.
    pub open spec fn spec_allocated(self) -> bool {
        self.count == CHILD_HUGE
    }

    /// Number of free frames; none in a huge frame.
    pub open spec fn spec_free(self) -> nat {
        if self.count == CHILD_HUGE {
            0
        } else {
            self.count as nat
        }
    }

    /// The entry of a chunk without free frames.
    pub fn new() -> (r: Self)
        ensures
            r == (Child { count: 0 }),
    {
        Child { count: 0 }
    }

    /// The entry of a chunk that is allocated as one huge frame.
    pub fn new_frame() -> (r: Self)
        ensures
            r == (Child { count: CHILD_HUGE }),
            r.spec_allocated(),
    {
        Child { count: CHILD_HUGE }
    }

    /// The entry of a chunk with `free` free frames.
    pub fn new_free(free: usize) -> (r: Self)
        requires
            free < CHILD_HUGE,
        ensures
            r == (Child { count: free as u16 }),
            r.spec_free() == free,
            !r.spec_allocated(),
    {
        Child { count: free as u16 }
    }

    /// The stored form: the counter.
    pub fn into_bits(self) -> (r: u16)
        ensures
            r == self.count,
    {
        self.count
    }

    /// The entry of a stored form.
    pub fn from_bits(bits: u16) -> (r: Self)
        ensures
            r == (Child { count: bits }),
    {
        Child { count: bits }
    }

    /// Whether the chunk is allocated as one huge frame.
    pub fn allocated(self) -> (r: bool)
        ensures
            r == self.spec_allocated(),
    {
        self.count == CHILD_HUGE
    }

    /// Number of free frames; none in a huge frame.
    pub fn free(self) -> (r: usize)
        ensures
            r == self.spec_free(),
    {
        if !self.allocated() {
            self.count as usize
        } else {
            0
        }
    }

    /// What `mark_allocated` returns.
    pub open spec fn spec_mark_allocated(self, span: usize) -> Option<Self> {
        if self.spec_free() == span {
            Some(Child { count: CHILD_HUGE })
        } else {
            None
        }
    }

    /// Marks the chunk as one huge frame, if all of its `span` frames are free.
    pub fn mark_allocated(self, span: usize) -> (r: Option<Self>)
        ensures
            r == self.spec_mark_allocated(span),
    {
        if self.free() == span {
            Some(Self::new_frame())
        } else {
            None
        }
    }

    /// What `dec` returns.
    pub open spec fn spec_dec(self, num_frames: usize) -> Option<Self> {
        if !self.spec_allocated() && self.spec_free() >= num_frames {
            Some(Child { count: (self.count - num_frames) as u16 })
        } else {
            None
        }
    }

    /// Takes `num_frames` frames from the counter, if the chunk is not a huge
    /// frame and the counter holds that many.
    pub fn dec(self, num_frames: usize) -> (r: Option<Self>)
        ensures
            r == self.spec_dec(num_frames),
    {
        if !self.allocated() && self.free() >= num_frames {
            Some(Self::new_free(self.free() - num_frames))
        } else {
            None
        }
    }

    /// What `inc` returns.
    pub open spec fn spec_inc(self, span: usize, num_frames: usize) -> Option<Self> {
        if !self.spec_allocated() && self.spec_free() <= span - num_frames {
            Some(Child { count: (self.count + num_frames) as u16 })
        } else {
            None
        }
    }

    /// Adds `num_frames` frames to the counter, if the chunk is not a huge frame
    /// and the counter stays within `span`.
    pub fn inc(self, span: usize, num_frames: usize) -> (r: Option<Self>)
        requires
            num_frames <= span < CHILD_HUGE,
        ensures
            r == self.spec_inc(span, num_frames),
    {
        if !self.allocated() && self.free() <= span - num_frames {
            Some(Self::new_free(self.free() + num_frames))
        } else {
            None
        }
    }
}

/// Two neighbouring chunk entries, changed together.
#[derive(Debug, Clone, Copy, PartialEq, Eq, Structural)]
pub struct ChildPair(pub Child, pub Child);

impl ChildPair {
    /// The stored form: the first entry in the lower half, the second in the
    /// upper half.
    pub open spec fn spec_bits(self) -> u32 {
        (self.0.count as u32) | ((self.1.count as u32) << 16)
    }

    /// The stored form: the first entry in the lower half, the second in the
    /// upper half.
    pub fn into_bits(self) -> (r: u32)
        ensures
            r == self.spec_bits(),
            Self::spec_from_bits(r) == self,
    {
        let low = self.0.count;
        let high = self.1.count;
        assert((((low as u32) | ((high as u32) << 16)) & 0xffff) as u16 == low && (((low as u32) | ((
        high as u32) << 16)) >> 16) as u16 == high) by (bit_vector);
        (low as u32) | ((high as u32) << 16)
    }

    /// The pair of a stored form.
    pub open spec fn spec_from_bits(bits: u32) -> Self {
        ChildPair(Child { count: (bits & 0xffff) as u16 }, Child { count: (bits >> 16) as u16 })
    }

    /// The pair of a stored form.
    pub fn from_bits(bits: u32) -> (r: Self)
        ensures
            r == Self::spec_from_bits(bits),
            r.spec_bits() == bits,
    {
        let low = (bits & 0xffff) as u16;
        let high = (bits >> 16) as u16;
        assert(bits & 0xffff <= 0xffff && bits >> 16 <= 0xffff && (((bits & 0xffff) as u16) as u32)
            | ((((bits >> 16) as u16) as u32) << 16) == bits) by (bit_vector);
        ChildPair(Child { count: low }, Child { count: high })
    }

    /// Applies `f` to both entries; `None` if `f` refuses one of them.
    pub fn map<F: Fn(Child) -> Option<Child>>(self, f: F) -> (r: Option<ChildPair>)
        requires
            f.requires((self.0,)),
            f.requires((self.1,)),
        ensures
            match r {
                Some(pair) => f.ensures((self.0,), Some(pair.0)) && f.ensures(
                    (self.1,),
                    Some(pair.1),
                ),
                None => f.ensures((self.0,), None) || f.ensures((self.1,), None),
            },
    {
        match f(self.0) {
            Some(a) => match f(self.1) {
                Some(b) => Some(ChildPair(a, b)),
                None => None,
            },
            None => None,
        }
    }

    /// Whether `f` holds of both entries.
    pub fn all<F: Fn(Child) -> bool>(self, f: F) -> (r: bool)
        requires
            f.requires((self.0,)),
            f.requires((self.1,)),
        ensures
            r ==> f.ensures((self.0,), true) && f.ensures((self.1,), true),
            !r ==> f.ensures((self.0,), false) || f.ensures((self.1,), false),
    {
        f(self.0) && f(self.1)
    }
}

/// What follows an element of a list that is threaded through a buffer.
#[derive(Debug, Clone, Copy, PartialEq, Eq, Structural)]
pub enum Next {
    /// The element is in no list.
    Outside,
    /// The element is the last of its list.
    End,
    /// The index of the next element.
    Link(usize),
}

impl Next {
    /// The index of the next element, if there is one.
    pub fn some(self) -> (r: Option<usize>)
        requires
            self != Next::Outside,
        ensures
            r == match self {
                Next::Link(i) => Some(i),
                _ => None,
            },
    {
        match self {
            Next::Link(i) => Some(i),
            _ => None,
        }
    }

    /// What follows an element whose successor is `v`, the last element if there
    /// is none.
    pub fn from_option(v: Option<usize>) -> (r: Self)
        ensures
            r == match v {
                Some(i) => Next::Link(i),
                None => Next::End,
            },
    {
        match v {
            Some(i) => Next::Link(i),
            None => Next::End,
        }
    }

    /// The stored form: the two largest numbers stand for `Outside` and `End`.
    pub fn into_bits(self) -> (r: u64)
        requires
            self matches Next::Link(i) ==> i < u64::MAX - 1,
        ensures
            r == match self {
                Next::Outside => u64::MAX,
                Next::End => (u64::MAX - 1) as u64,
                Next::Link(i) => i as u64,
            },
    {
        match self {
            Next::Outside => u64::MAX,
            Next::End => u64::MAX - 1,
            Next::Link(v) => v as u64,
        }
    }

    /// The value of a stored form.
    pub fn from_bits(value: u64) -> (r: Self)
        requires
            value <= usize::MAX || value >= u64::MAX - 1,
        ensures
            r == if value == u64::MAX {
                Next::Outside
            } else if value == u64::MAX - 1 {
                Next::End
            } else {
                Next::Link(value as usize)
            },
    {
        if value == u64::MAX {
            Next::Outside
        } else if value == u64::MAX - 1 {
            Next::End
        } else {
            Next::Link(value as usize)
        }
    }
}

} // verus!
