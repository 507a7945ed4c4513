use llfree::array::{Array, Meta};
use llfree::lower::{Init, HUGE_ORDER, MAX_ORDER, N};
use llfree::{Error, MAGIC, PAGE_SIZE};

const BASE: u64 = 0x1000_0000_0000;
const PT_LEN: usize = 512;

struct WyRand {
    seed: u64,
}

impl WyRand {
    fn new(seed: u64) -> Self {
        Self { seed }
    }
    fn gen(&mut self) -> u64 {
        self.seed = self.seed.wrapping_add(0xa076_1d64_78bd_642f);
        let t = (self.seed as u128).wrapping_mul((self.seed ^ 0xe703_7ed1_a0b4_28db) as u128);
        ((t >> 64) ^ t) as u64
    }
    fn range(&mut self, from: u64, to: u64) -> u64 {
        from + self.gen() % (to - from)
    }
    fn shuffle<T>(&mut self, target: &mut [T]) {
        for i in 0..target.len() {
            let j = self.range(0, target.len() as u64) as usize;
            target.swap(i, j);
        }
    }
}

fn contains(frames: usize, addr: u64) -> bool {
    BASE <= addr && addr < BASE + (frames * PAGE_SIZE) as u64
}

fn check_unique(frames: usize, pages: &mut [u64]) {
    pages.sort_unstable();
    for pair in pages.windows(2) {
        assert_ne!(pair[0], pair[1]);
        assert!(contains(frames, pair[0]) && contains(frames, pair[1]));
    }
}

#[test]
fn mod_simple() {
    // 8GiB
    const MEM_SIZE: usize = 8 << 30;
    let frames = MEM_SIZE / PAGE_SIZE;
    let mut alloc = Array::new(1, BASE, frames, Init::Volatile, true).unwrap();

    assert_eq!(alloc.free_frames(), alloc.frames());

    let small = alloc.get(0, 0).unwrap();

    assert_eq!(alloc.allocated_frames(), 1);

    // Stress test
    let mut pages = Vec::new();
    loop {
        match alloc.get(0, 0) {
            Ok(page) => pages.push(page),
            Err(Error::Memory) => break,
            Err(e) => panic!("{e:?}"),
        }
    }

    assert_eq!(alloc.allocated_frames(), 1 + pages.len());
    assert_eq!(alloc.allocated_frames(), alloc.frames());

    // Check that the same page was not allocated twice
    check_unique(frames, &mut pages);

    // Free some
    const FREE_NUM: usize = PT_LEN * PT_LEN - 10;
    for page in &pages[..FREE_NUM] {
        alloc.put(0, *page, 0).unwrap();
    }

    assert_eq!(alloc.allocated_frames(), 1 + pages.len() - FREE_NUM);

    // Realloc
    for page in &mut pages[..FREE_NUM] {
        *page = alloc.get(0, 0).unwrap();
    }

    alloc.put(0, small, 0).unwrap();
    // Free all
    for page in &pages {
        alloc.put(0, *page, 0).unwrap();
    }

    assert_eq!(alloc.allocated_frames(), 0);
}

#[test]
fn rand() {
    const MEM_SIZE: usize = 4 << 30;
    let frames = MEM_SIZE / PAGE_SIZE;
    let mut alloc = Array::new(1, BASE, frames, Init::Volatile, true).unwrap();

    const ALLOCS: usize = MEM_SIZE / PAGE_SIZE / 4 * 3;
    let mut pages = Vec::with_capacity(ALLOCS);
    for _ in 0..ALLOCS {
        pages.push(alloc.get(0, 0).unwrap());
    }

    assert_eq!(alloc.allocated_frames(), pages.len());
    check_unique(frames, &mut pages);

    let mut rng = WyRand::new(100);
    rng.shuffle(&mut pages);

    for _ in 0..pages.len() {
        let i = rng.range(0, pages.len() as _) as usize;
        alloc.put(0, pages[i], 0).unwrap();
        pages[i] = alloc.get(0, 0).unwrap();
    }

    assert_eq!(alloc.allocated_frames(), pages.len());
    check_unique(frames, &mut pages);

    rng.shuffle(&mut pages);
    for page in &pages {
        alloc.put(0, *page, 0).unwrap();
    }
    assert_eq!(alloc.allocated_frames(), 0);
}

#[test]
fn multirand() {
    const THREADS: usize = 4;
    const MEM_SIZE: usize = (8 << 30) / PAGE_SIZE;
    const ALLOCS: usize = ((MEM_SIZE / THREADS) / 4) * 3;

    let mut alloc = Array::new(THREADS, BASE, MEM_SIZE, Init::Volatile, true).unwrap();

    let mut all: Vec<Vec<u64>> = (0..THREADS).map(|_| Vec::with_capacity(ALLOCS)).collect();
    for _ in 0..ALLOCS {
        for t in 0..THREADS {
            all[t].push(alloc.get(t, 0).unwrap());
        }
    }
    for pages in &mut all {
        check_unique(MEM_SIZE, pages);
    }

    let mut rngs: Vec<WyRand> = (0..THREADS).map(|t| WyRand::new(t as _)).collect();
    for t in 0..THREADS {
        rngs[t].shuffle(&mut all[t]);
    }
    for _ in 0..ALLOCS {
        for t in 0..THREADS {
            let i = rngs[t].range(0, ALLOCS as _) as usize;
            alloc.put(t, all[t][i], 0).unwrap();
            all[t][i] = alloc.get(t, 0).unwrap();
        }
    }
    for pages in &mut all {
        check_unique(MEM_SIZE, pages);
    }
    let mut together: Vec<u64> = all.iter().flatten().copied().collect();
    check_unique(MEM_SIZE, &mut together);

    for t in 0..THREADS {
        rngs[t].shuffle(&mut all[t]);
    }
    for i in 0..ALLOCS {
        for t in 0..THREADS {
            alloc.put(t, all[t][i], 0).unwrap();
        }
    }

    assert_eq!(alloc.allocated_frames(), 0);
}

#[test]
fn init() {
    const MEM_SIZE: usize = 8 << 30;
    let frames = MEM_SIZE / PAGE_SIZE;
    let mut alloc = Array::new(1, BASE, frames, Init::Volatile, true).unwrap();

    assert_eq!(alloc.allocated_frames(), 0);

    let small = alloc.get(0, 0).unwrap();
    let huge = alloc.get(0, 9).unwrap();

    let expected_pages = 1 + (1 << 9);
    assert_eq!(alloc.allocated_frames(), expected_pages);
    assert!(small != huge);

    // Stress test
    let mut pages = vec![0; PT_LEN * PT_LEN];
    for page in &mut pages {
        *page = alloc.get(0, 0).unwrap();
    }

    assert_eq!(alloc.allocated_frames(), expected_pages + pages.len());

    check_unique(frames, &mut pages);

    // Free some
    for page in &pages[10..PT_LEN + 10] {
        alloc.put(0, *page, 0).unwrap();
    }

    alloc.put(0, small, 0).unwrap();
    alloc.put(0, huge, 9).unwrap();

    // Realloc
    for page in &mut pages[10..PT_LEN + 10] {
        *page = alloc.get(0, 0).unwrap();
    }

    // Free all
    for page in &pages {
        alloc.put(0, *page, 0).unwrap();
    }

    assert_eq!(alloc.allocated_frames(), 0);
}

#[test]
fn parallel_alloc() {
    const THREADS: usize = 4;
    const ALLOC_PER_THREAD: usize = PT_LEN * (PT_LEN - 2 * THREADS);
    const PAGES: usize = 2 * THREADS * PT_LEN * PT_LEN;

    let mut alloc = Array::new(THREADS, BASE, PAGES, Init::Volatile, true).unwrap();

    // Stress test
    let mut pages = vec![0u64; ALLOC_PER_THREAD * THREADS];
    for i in 0..ALLOC_PER_THREAD {
        for t in 0..THREADS {
            pages[t * ALLOC_PER_THREAD + i] = alloc.get(t, 0).unwrap();
        }
    }

    assert_eq!(alloc.allocated_frames(), pages.len());

    // Check that the same page was not allocated twice
    check_unique(PAGES, &mut pages);
}

#[test]
fn region_too_small() {
    const THREADS: usize = 4;
    const PAGES: usize = 4096;

    // the region holds no subtree for every core
    assert_eq!(
        Array::new(THREADS, BASE, PAGES, Init::Volatile, true).err(),
        Some(Error::Memory)
    );
}

#[test]
fn parallel_huge_alloc() {
    const THREADS: usize = 4;
    const ALLOC_PER_THREAD: usize = PT_LEN - 1;
    // additional space for the allocators metadata
    const PAGES: usize = THREADS * (ALLOC_PER_THREAD + 2) * PT_LEN;

    let mut alloc = Array::new(THREADS, BASE, PAGES, Init::Volatile, true).unwrap();

    // Stress test
    let mut pages = vec![0u64; ALLOC_PER_THREAD * THREADS];
    for i in 0..ALLOC_PER_THREAD {
        for t in 0..THREADS {
            pages[t * ALLOC_PER_THREAD + i] = alloc.get(t, 9).unwrap();
        }
    }

    assert_eq!(alloc.allocated_frames(), pages.len() * PT_LEN);

    // Check that the same page was not allocated twice
    check_unique(PAGES, &mut pages);
}

#[test]
fn parallel_free() {
    const THREADS: usize = 4;
    const ALLOC_PER_THREAD: usize = PT_LEN * (PT_LEN - 2 * THREADS);
    const MEM_SIZE: usize = 2 * THREADS * PT_LEN * PT_LEN * PAGE_SIZE;

    let mut alloc = Array::new(THREADS, BASE, MEM_SIZE / PAGE_SIZE, Init::Volatile, true).unwrap();

    let mut all: Vec<Vec<u64>> = (0..THREADS).map(|_| vec![0; ALLOC_PER_THREAD]).collect();
    for i in 0..ALLOC_PER_THREAD {
        for t in 0..THREADS {
            all[t][i] = alloc.get(t, 0).unwrap();
        }
    }
    for t in 0..THREADS {
        let mut rng = WyRand::new(t as _);
        rng.shuffle(&mut all[t]);
    }
    for i in 0..ALLOC_PER_THREAD {
        for t in 0..THREADS {
            alloc.put(t, all[t][i], 0).unwrap();
        }
    }

    assert_eq!(alloc.allocated_frames(), 0);
}

#[test]
fn alloc_free() {
    const THREADS: usize = 2;
    const ALLOC_PER_THREAD: usize = PT_LEN * (PT_LEN - 10) / 2;

    let mut alloc = Array::new(THREADS, BASE, 4 * PT_LEN * PT_LEN, Init::Volatile, true).unwrap();

    // Alloc on first thread
    let mut pages = vec![0; ALLOC_PER_THREAD];
    for page in &mut pages {
        *page = alloc.get(0, 0).unwrap();
    }

    // Free on another thread, while the first allocates
    let mut others = vec![0; ALLOC_PER_THREAD];
    for i in 0..ALLOC_PER_THREAD {
        alloc.put(1, pages[i], 0).unwrap();
        others[i] = alloc.get(0, 0).unwrap();
    }

    assert_eq!(alloc.allocated_frames(), ALLOC_PER_THREAD);
}

#[test]
fn recover() {
    let frames = 8 << 18;
    let expected_pages = (PT_LEN + 2) * (1 + (1 << 9));

    let (meta, words, counts) = {
        let mut alloc = Array::new(1, BASE, frames, Init::Overwrite, true).unwrap();

        for _ in 0..PT_LEN + 2 {
            alloc.get(0, 0).unwrap();
            alloc.get(0, 9).unwrap();
        }

        assert_eq!(alloc.allocated_frames(), expected_pages);

        // leak (crash)
        (alloc.meta(), alloc.words(), alloc.counts())
    };
    assert!(meta.crashed);

    let alloc = Array::recover(1, BASE, frames, meta, &words, &counts).unwrap();
    assert_eq!(alloc.allocated_frames(), expected_pages);
}

#[test]
fn mod_different_orders() {
    const THREADS: usize = 4;

    let frames = N * (THREADS * 2 + 1);
    let mut alloc = Array::new(THREADS, BASE, frames, Init::Volatile, true).unwrap();

    let mut all = Vec::new();
    for t in 0..THREADS {
        let mut rng = WyRand::new(42 + t as u64);
        let mut pages = Vec::new();
        for order in 0..=MAX_ORDER {
            for _ in 0..1 << (MAX_ORDER - order) {
                pages.push((order, 0));
            }
        }
        rng.shuffle(&mut pages);
        all.push(pages);
    }

    let len = all[0].len();
    for i in 0..len {
        for t in 0..THREADS {
            let (order, page) = &mut all[t][i];
            *page = match alloc.get(t, *order) {
                Ok(page) => page,
                Err(e) => panic!("{e:?} o={order}"),
            };
            assert!(
                *page % ((1 << *order) * PAGE_SIZE) as u64 == 0,
                "{page:x} {:x}",
                (1 << *order) * PAGE_SIZE
            );
        }
    }

    for t in 0..THREADS {
        let mut rng = WyRand::new(t as _);
        rng.shuffle(&mut all[t]);
    }

    for i in 0..len {
        for t in 0..THREADS {
            let (order, page) = all[t][i];
            match alloc.put(t, page, order) {
                Ok(_) => {}
                Err(e) => panic!("{e:?} o={order}"),
            }
        }
    }

    assert_eq!(alloc.allocated_frames(), 0);
}

#[test]
fn mod_init_reserved() {
    const THREADS: usize = 2;
    const PAGES: usize = 8 << 18;

    let mut alloc = Array::new(THREADS, BASE, PAGES, Init::Volatile, false).unwrap();
    assert_eq!(alloc.allocated_frames(), PAGES);

    for i in 0..PAGES / (1 << MAX_ORDER) {
        let addr = BASE + (i * (1 << MAX_ORDER) * PAGE_SIZE) as u64;
        alloc.put(0, addr, MAX_ORDER).unwrap();
    }
    assert_eq!(alloc.allocated_frames(), 0);

    for _ in 0..(PAGES / THREADS) / (1 << MAX_ORDER) {
        for core in 0..THREADS {
            alloc.get(core, MAX_ORDER).unwrap();
        }
    }
    assert_eq!(alloc.allocated_frames(), PAGES);
}

#[test]
fn fragmentation_retry() {
    let mut alloc = Array::new(1, BASE, N * 2, Init::Volatile, true).unwrap();

    // Alloc a whole subtree
    let mut pages = Vec::with_capacity(N / 2);
    for i in 0..N {
        if i % 2 == 0 {
            pages.push(alloc.get(0, 0).unwrap());
        } else {
            alloc.get(0, 0).unwrap();
        }
    }
    // Free every second one -> fragmentation
    for page in pages {
        alloc.put(0, page, 0).unwrap();
    }

    let huge = alloc.get(0, 9).unwrap();
    assert!(contains(2 * N, huge));
    assert_eq!(alloc.allocated_frames(), N / 2 + 512);
}

#[test]
fn tiny() {
    let mut alloc = Array::new(1, BASE, 16 * N, Init::Volatile, true).unwrap();
    assert_eq!(alloc.frames(), 262_144);
    let addr = alloc.get(0, 0).unwrap();
    assert_eq!(alloc.allocated_frames(), 1);
    alloc.put(0, addr, 0).unwrap();
    assert_eq!(alloc.allocated_frames(), 0);
}

#[test]
fn exhaust_and_stress() {
    let mut alloc = Array::new(1, BASE, N, Init::Volatile, true).unwrap();
    let mut pages = Vec::new();
    loop {
        match alloc.get(0, 0) {
            Ok(page) => pages.push(page),
            Err(e) => {
                assert_eq!(e, Error::Memory);
                break;
            }
        }
    }
    assert_eq!(pages.len(), 16_384);
    assert_eq!(alloc.allocated_frames(), 16_384);
    check_unique(N, &mut pages);
    for page in &pages {
        alloc.put(0, *page, 0).unwrap();
    }
    assert_eq!(alloc.allocated_frames(), 0);

    // with the bookkeeping in the region one frame less is needed for a subtree
    assert_eq!(
        Array::new(1, BASE, N, Init::Overwrite, true).err(),
        Some(Error::Memory)
    );
    let mut alloc = Array::new(1, BASE, N + 2, Init::Overwrite, true).unwrap();
    assert_eq!(alloc.frames(), N);
    let mut count = 0;
    while alloc.get(0, 0).is_ok() {
        count += 1;
    }
    assert_eq!(count, 16_384);
}

#[test]
fn huge_and_small() {
    let mut alloc = Array::new(1, BASE, 4 * N, Init::Volatile, true).unwrap();
    let huge = alloc.get(0, 9).unwrap();
    assert_eq!(huge % (2 << 20), 0);
    let small = alloc.get(0, 0).unwrap();
    assert_ne!(huge, small);
    assert!(small < huge || small >= huge + (2 << 20));
    assert_eq!(alloc.allocated_frames(), 513);
    alloc.put(0, huge, 9).unwrap();
    alloc.put(0, small, 0).unwrap();
    assert_eq!(alloc.allocated_frames(), 0);
}

#[test]
fn init_reserved_short() {
    let mut alloc = Array::new(1, BASE, N - 1, Init::Volatile, false);
    // a region below one subtree is too small for the allocator
    assert_eq!(alloc.as_ref().err(), Some(&Error::Memory));
    alloc = Array::new(1, BASE, 2 * N - 1, Init::Volatile, false);
    let mut alloc = alloc.unwrap();
    assert_eq!(alloc.allocated_frames(), 2 * N - 1);
    for i in 0..(2 * N - 1) / (1 << MAX_ORDER) {
        let addr = BASE + (i * (1 << MAX_ORDER) * PAGE_SIZE) as u64;
        alloc.put(0, addr, MAX_ORDER).unwrap();
    }
    assert_eq!(alloc.allocated_frames(), (1 << MAX_ORDER) - 1);
}

#[test]
fn partial_huge_free() {
    let mut alloc = Array::new(1, BASE, 4 * N, Init::Volatile, true).unwrap();
    let huge = alloc.get(0, HUGE_ORDER).unwrap();
    alloc.put(0, huge, 0).unwrap();
    assert_eq!(alloc.allocated_frames(), 511);
    for i in 1..512 {
        alloc.put(0, huge + (i * PAGE_SIZE) as u64, 0).unwrap();
    }
    assert_eq!(alloc.allocated_frames(), 0);
    assert!(alloc.is_free(huge, 9));
}

#[test]
fn parallel_mixed() {
    const THREADS: usize = 4;
    let frames = THREADS * 2 * 512 * 512;
    let mut alloc = Array::new(THREADS, BASE, frames, Init::Volatile, true).unwrap();
    let mut rng = WyRand::new(7);

    // every core takes about three quarters of its share, the same number of
    // frames in every order
    let mut held: Vec<Vec<(u64, usize)>> = vec![Vec::new(); THREADS];
    let share = frames / THREADS / 4 * 3;
    let rounds = share / ((MAX_ORDER + 1) << MAX_ORDER);
    let mut taken = vec![0usize; THREADS];
    for core in 0..THREADS {
        for order in 0..=MAX_ORDER {
            for _ in 0..rounds << (MAX_ORDER - order) {
                held[core].push((0, order));
                taken[core] += 1 << order;
            }
        }
        rng.shuffle(&mut held[core]);
    }
    for i in 0..held[0].len() {
        for core in 0..THREADS {
            let order = held[core][i].1;
            let addr = alloc.get(core, order).unwrap();
            assert_eq!((addr - BASE) % ((1u64 << order) * PAGE_SIZE as u64), 0);
            held[core][i].0 = addr;
        }
    }
    let total: usize = taken.iter().sum();
    assert_eq!(alloc.allocated_frames(), total);

    // every slot is given back and taken anew once; a large request may find
    // no place in the subtrees that the core gets to see, and is then let go
    let mut total = total;
    for core in 0..THREADS {
        for _ in 0..held[core].len() {
            let i = rng.range(0, held[core].len() as u64) as usize;
            let (addr, order) = held[core][i];
            if order > MAX_ORDER {
                continue;
            }
            alloc.put(core, addr, order).unwrap();
            match alloc.get(core, order) {
                Ok(addr) => held[core][i].0 = addr,
                Err(e) => {
                    assert_eq!(e, Error::Memory);
                    assert!(order > 0);
                    held[core][i].1 = usize::MAX;
                    total -= 1 << order;
                }
            }
        }
        held[core].retain(|(_, order)| *order <= MAX_ORDER);
    }
    assert_eq!(alloc.allocated_frames(), total);

    // no two allocations overlap
    let mut runs: Vec<(u64, u64)> = held
        .iter()
        .flatten()
        .map(|(addr, order)| (*addr, *addr + ((1u64 << order) * PAGE_SIZE as u64)))
        .collect();
    runs.sort_unstable();
    for pair in runs.windows(2) {
        assert!(pair[0].1 <= pair[1].0);
    }
    assert!(contains(frames, runs[0].0));
    assert!(runs[runs.len() - 1].1 <= BASE + (frames * PAGE_SIZE) as u64);

    for core in 0..THREADS {
        for (addr, order) in &held[core] {
            alloc.put(core, *addr, *order).unwrap();
        }
    }
    assert_eq!(alloc.allocated_frames(), 0);
}

#[test]
fn recover_crash() {
    let frames = 8 << 18;
    let mut alloc = Array::new(2, BASE, frames, Init::Overwrite, true).unwrap();
    for _ in 0..512 + 2 {
        alloc.get(0, 0).unwrap();
        alloc.get(1, 9).unwrap();
    }
    let before = alloc.allocated_frames();
    assert_eq!(before, (512 + 2) * (1 + 512));
    let meta = alloc.meta();
    assert_eq!(
        meta,
        Meta {
            magic: MAGIC,
            frames: alloc.frames() as u64,
            crashed: true
        }
    );
    let words = alloc.words();
    let mut counts = alloc.counts();

    // two frees were cut short after their bits were cleared
    let mut torn = words.clone();
    let word = torn.iter().position(|w| w & 0b11 == 0b11).unwrap();
    torn[word] &= !0b11;
    let after = Array::recover(2, BASE, frames, meta, &torn, &counts).unwrap();
    assert_eq!(after.allocated_frames(), before - 2);
    assert_eq!(after.meta().crashed, true);
    assert_eq!(after.frames(), alloc.frames());

    // after an orderly end the counters are trusted, and have to be right
    alloc.close();
    let closed = alloc.meta();
    assert!(!closed.crashed);
    let same = Array::recover(2, BASE, frames, closed, &words, &counts).unwrap();
    assert_eq!(same.allocated_frames(), before);
    assert_eq!(same.counts(), counts);
    assert_eq!(
        Array::recover(2, BASE, frames, closed, &torn, &counts).err(),
        Some(Error::Initialization)
    );

    // a header that does not fit is refused
    let other = Meta { magic: 1, ..meta };
    assert_eq!(
        Array::recover(2, BASE, frames, other, &words, &counts).err(),
        Some(Error::Initialization)
    );
    let other = Meta { frames: 7, ..meta };
    assert_eq!(
        Array::recover(2, BASE, frames, other, &words, &counts).err(),
        Some(Error::Initialization)
    );
    counts.pop();
    assert_eq!(
        Array::recover(2, BASE, frames, meta, &words, &counts).err(),
        Some(Error::Initialization)
    );
    assert_eq!(
        Array::new(2, BASE, frames, Init::Recover, true).err(),
        Some(Error::Initialization)
    );
}

#[test]
fn put_errors() {
    let mut alloc = Array::new(2, BASE, 2 * N, Init::Volatile, true).unwrap();
    let addr = alloc.get(0, 2).unwrap();
    assert_eq!(alloc.put(0, addr + 1, 0), Err(Error::Address));
    assert_eq!(alloc.put(0, addr + PAGE_SIZE as u64, 1), Err(Error::Address));
    assert_eq!(alloc.put(0, BASE - PAGE_SIZE as u64, 0), Err(Error::Address));
    assert_eq!(alloc.put(0, BASE + (2 * N * PAGE_SIZE) as u64, 0), Err(Error::Address));
    assert_eq!(alloc.put(0, addr + 4 * PAGE_SIZE as u64, 2), Err(Error::Address));
    assert_eq!(alloc.put(0, addr, 9), Err(Error::Address));
    assert_eq!(alloc.put(0, addr, 11), Err(Error::Memory));
    assert_eq!(alloc.get(0, 11), Err(Error::Memory));
    assert_eq!(alloc.allocated_frames(), 4);
    assert!(!alloc.is_free(addr, 2));
    assert!(!alloc.is_free(addr + 1, 0));
    assert!(alloc.is_free(addr + 4 * PAGE_SIZE as u64, 2));
    assert_eq!(alloc.put(1, addr, 2), Ok(()));
    assert_eq!(alloc.put(1, addr, 2), Err(Error::Address));
    assert!(alloc.is_free(addr, 2));
}

#[test]
fn reservations() {
    let mut alloc = Array::new(2, BASE, 4 * N, Init::Volatile, true).unwrap();
    assert_eq!(alloc.cores(), 2);
    assert_eq!(alloc.base(), BASE);
    // the cores start in different halves of the region
    let first = alloc.get(0, 0).unwrap();
    let second = alloc.get(1, 0).unwrap();
    assert_eq!(first, BASE);
    assert_eq!(second, BASE + (2 * N * PAGE_SIZE) as u64);
    // a core number beyond the number of cores shares the data of another
    let third = alloc.get(2, 0).unwrap();
    assert_eq!(third, BASE + PAGE_SIZE as u64);
    assert_eq!(alloc.free_frames(), 4 * N - 3);
    assert_eq!(alloc.free_huge_frames(), 4 * 32 - 2);
    alloc.drain(0).unwrap();
    alloc.drain(1).unwrap();
    assert_eq!(alloc.free_frames(), 4 * N - 3);
    // without a reservation the search starts anew
    let fourth = alloc.get(1, 0).unwrap();
    assert!(contains(4 * N, fourth));
    assert_eq!(alloc.allocated_frames(), 4);
    // no core means one core
    let single = Array::new(0, BASE, N, Init::Volatile, true).unwrap();
    assert_eq!(single.cores(), 1);
}

#[test]
fn counters_agree() {
    const THREADS: usize = 3;
    let frames = 7 * N + 300;
    let mut alloc = Array::new(THREADS, BASE, frames, Init::Volatile, true).unwrap();
    let mut rng = WyRand::new(11);
    let mut held: Vec<(u64, usize)> = Vec::new();
    for round in 0..20_000 {
        let core = rng.range(0, 8) as usize;
        if held.is_empty() || rng.range(0, 3) > 0 {
            let order = if round % 50 == 0 {
                rng.range(9, MAX_ORDER as u64 + 1) as usize
            } else {
                rng.range(0, 9) as usize
            };
            if let Ok(addr) = alloc.get(core, order) {
                held.push((addr, order));
            }
        } else {
            let i = rng.range(0, held.len() as u64) as usize;
            let (addr, order) = held.swap_remove(i);
            if order == 9 && round % 2 == 0 {
                // in two halves
                alloc.put(core, addr, 8).unwrap();
                alloc.put(core, addr + 256 * PAGE_SIZE as u64, 8).unwrap();
            } else {
                alloc.put(core, addr, order).unwrap();
            }
        }
        if round % 1000 == 0 {
            let allocated: usize = held.iter().map(|(_, order)| 1 << order).sum();
            // the counters of trees and cores tell what is allocated
            assert_eq!(alloc.allocated_frames(), allocated);
            assert_eq!(alloc.free_frames(), frames - allocated);
            // the entry of a chunk counts the zero bits of its bitfield
            let words = alloc.words();
            let counts = alloc.counts();
            let mut free = 0;
            for (c, count) in counts.iter().enumerate() {
                if c * 8 >= words.len() {
                    assert_eq!(*count, 0);
                    continue;
                }
                let zeros: u32 = words[c * 8..c * 8 + 8].iter().map(|w| w.count_zeros()).sum();
                if *count == 0xffff {
                    assert_eq!(zeros, 512);
                } else {
                    assert_eq!(*count as u32, zeros);
                    free += zeros as usize;
                }
                if *count == 512 {
                    assert!(words[c * 8..c * 8 + 8].iter().all(|w| *w == 0));
                }
            }
            assert_eq!(free, frames - allocated);
        }
    }
    for (addr, order) in held {
        alloc.put(0, addr, order).unwrap();
    }
    assert_eq!(alloc.allocated_frames(), 0);
    assert_eq!(alloc.free_huge_frames(), 7 * 32);
}
