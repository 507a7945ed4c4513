use llfree::lower::{Init, Lower, CHUNK, HP, MAX_ORDER, N};
use llfree::Error;

struct WyRand {
    seed: u64,
}

impl WyRand {
    fn new(seed: u64) -> Self {
        Self { seed }
    }
    fn gen(&mut self) -> u64 {
        self.seed = self.seed.wrapping_add(0xa076_1d64_78bd_642f);
        let t = (self.seed as u128).wrapping_mul((self.seed ^ 0xe703_7ed1_a0b4_28db) as u128);
        ((t >> 64) ^ t) as u64
    }
    fn range(&mut self, from: u64, to: u64) -> u64 {
        from + self.gen() % (to - from)
    }
    fn shuffle<T>(&mut self, target: &mut [T]) {
        for i in 0..target.len() {
            let j = self.range(0, target.len() as u64) as usize;
            target.swap(i, j);
        }
    }
}

#[test]
fn lower_alloc_normal() {
    const FRAMES: usize = 4 * N;
    let mut lower = Lower::new(2, 0, FRAMES, Init::Volatile, true);
    lower.get(0, 0).unwrap();

    for _t in 0..2 {
        let frame = lower.get(0, 0).unwrap();
        assert!(frame < FRAMES);
    }

    assert_eq!(lower.child(0).free(), CHUNK - 3);
    assert_eq!(lower.field(0).count_zeros(), CHUNK - 3);
}

#[test]
fn lower_alloc_first() {
    let mut lower = Lower::new(2, 0, 4 * N, Init::Volatile, true);

    for _t in 0..2 {
        lower.get(0, 0).unwrap();
    }

    let entry2 = lower.child(0);
    assert_eq!(entry2.free(), CHUNK - 2);
    assert_eq!(lower.field(0).count_zeros(), CHUNK - 2);
}

#[test]
fn lower_alloc_last() {
    let mut lower = Lower::new(2, 0, 4 * N, Init::Volatile, true);

    for _ in 0..CHUNK - 1 {
        lower.get(0, 0).unwrap();
    }

    for _t in 0..2 {
        lower.get(0, 0).unwrap();
    }

    assert_eq!(lower.child(0).free(), 0);
    assert_eq!(lower.child(1).free(), CHUNK - 1);
    assert_eq!(lower.field(1).count_zeros(), CHUNK - 1);
}

#[test]
fn lower_free_normal() {
    let mut frames = [0; 2];

    let mut lower = Lower::new(2, 0, 4 * N, Init::Volatile, true);

    frames[0] = lower.get(0, 0).unwrap();
    frames[1] = lower.get(0, 0).unwrap();

    for t in 0..2 {
        lower.put(frames[t], 0).unwrap();
    }

    assert_eq!(lower.child(0).free(), CHUNK);
}

#[test]
fn lower_free_last() {
    let mut frames = [0; CHUNK];

    let mut lower = Lower::new(2, 0, 4 * N, Init::Volatile, true);

    for frame in &mut frames {
        *frame = lower.get(0, 0).unwrap();
    }

    for t in 0..2 {
        lower.put(frames[t], 0).unwrap();
    }

    assert_eq!(lower.child(0).free(), 2);
    assert_eq!(lower.field(0).count_zeros(), 2);
}

#[test]
fn lower_realloc_last() {
    let mut frames = [0; CHUNK];

    let mut lower = Lower::new(2, 0, 4 * N, Init::Volatile, true);

    for frame in &mut frames[..CHUNK - 1] {
        *frame = lower.get(0, 0).unwrap();
    }

    lower.get(0, 0).unwrap();
    lower.put(frames[0], 0).unwrap();

    if lower.child(0).free() == 1 {
        assert_eq!(lower.field(0).count_zeros(), 1);
    } else {
        // Table entry skipped
        assert_eq!(lower.child(0).free(), 2);
        assert_eq!(lower.field(0).count_zeros(), 2);
        assert_eq!(lower.child(1).free(), CHUNK - 1);
        assert_eq!(lower.field(1).count_zeros(), CHUNK - 1);
    }
}

#[test]
fn lower_alloc_normal_large() {
    const FRAMES: usize = 4 * N;
    let mut lower = Lower::new(2, 0, FRAMES, Init::Volatile, true);
    lower.get(0, 0).unwrap();

    for t in 0..2 {
        let order = t + 1; // order 1 and 2
        let frame = lower.get(0, order).unwrap();
        assert!(frame < FRAMES);
    }

    let allocated = 1 + 2 + 4;
    assert_eq!(lower.child(0).free(), CHUNK - allocated);
    assert_eq!(lower.field(0).count_zeros(), CHUNK - allocated);
}

#[test]
fn lower_free_normal_large() {
    let mut frames = [0; 2];

    let mut lower = Lower::new(2, 0, 4 * N, Init::Volatile, true);

    frames[0] = lower.get(0, 1).unwrap();
    frames[1] = lower.get(0, 2).unwrap();

    assert_eq!(lower.child(0).free(), CHUNK - 2 - 4);

    for t in 0..2 {
        lower.put(frames[t], t + 1).unwrap();
    }

    assert_eq!(lower.child(0).free(), CHUNK);
}

#[test]
fn lower_different_orders() {
    let mut lower = Lower::new(1, 0, 4 * N, Init::Volatile, true);

    assert_eq!(lower.allocated_frames(), 0);

    let mut rng = WyRand::new(42);

    let mut num_frames = 0;
    let mut frames = Vec::new();
    for order in 0..=MAX_ORDER {
        for _ in 0..1usize << (MAX_ORDER - order) {
            frames.push((order, 0));
            num_frames += 1 << order;
        }
    }
    rng.shuffle(&mut frames);

    for (order, frame) in &mut frames {
        *frame = lower.get(0, *order).unwrap();
    }

    assert_eq!(lower.allocated_frames(), num_frames);

    for (order, frame) in &frames {
        lower.put(*frame, *order).unwrap();
    }

    assert_eq!(lower.allocated_frames(), 0);
}

#[test]
fn lower_init_reserved() {
    let num_max_frames = (N - 1) / (1 << MAX_ORDER);

    let mut lower = Lower::new(1, 0, N - 1, Init::Volatile, false);

    assert_eq!(lower.allocated_frames(), N - 1);

    for i in 0..num_max_frames {
        lower.put(i * (1 << MAX_ORDER), MAX_ORDER).unwrap();
    }

    assert_eq!(lower.allocated_frames(), (1 << MAX_ORDER) - 1);
}

#[test]
fn partial_put_huge() {
    let mut lower = Lower::new(1, 0, N - 1, Init::Volatile, false);

    assert_eq!(lower.allocated_frames(), N - 1);

    lower.put(0, 0).unwrap();

    assert_eq!(lower.allocated_frames(), N - 2);
}

#[test]
fn rand_realloc_first() {
    const THREADS: usize = 6;
    for _ in 0..8 {
        let mut lower = Lower::new(THREADS, 0, 2 * THREADS * 512 * 512, Init::Overwrite, true);
        assert_eq!(lower.allocated_frames(), 0);

        for _t in 0..THREADS {
            let mut frames = [0; 4];
            for p in &mut frames {
                *p = lower.get(0, 0).unwrap();
            }
            frames.reverse();
            for p in frames {
                lower.put(p, 0).unwrap();
            }
        }

        assert_eq!(lower.allocated_frames(), 0);
    }
}

#[test]
fn rand_realloc_last() {
    const THREADS: usize = 6;
    let mut frames = [0; 512];

    for _ in 0..8 {
        let mut lower = Lower::new(THREADS, 0, 2 * THREADS * 512 * 512, Init::Overwrite, true);
        assert_eq!(lower.allocated_frames(), 0);

        for frame in &mut frames[..512 - 3] {
            *frame = lower.get(0, 0).unwrap();
        }

        for t in 0..THREADS {
            if t < THREADS / 2 {
                lower.put(frames[t], 0).unwrap();
            } else {
                lower.get(0, 0).unwrap();
            }
        }

        assert_eq!(lower.allocated_frames(), 512 - 3);
    }
}

#[test]
fn lower_search_order() {
    let mut lower = Lower::new(1, 0, 2 * N, Init::Volatile, true);
    // the search starts in the chunk and at the word of the start frame
    assert_eq!(lower.get(3 * CHUNK + 2 * 64, 0), Ok(3 * CHUNK + 2 * 64));
    assert_eq!(lower.get(3 * CHUNK + 2 * 64, 0), Ok(3 * CHUNK + 2 * 64 + 1));
    // it stays in the subtree of the start frame
    assert_eq!(lower.get(N + 5, 9), Ok(N));
    assert_eq!(lower.get(N + 5, 10), Ok(N + 2 * CHUNK));
    // and wraps around in it
    assert_eq!(lower.get(N + (HP - 1) * CHUNK, 9), Ok(N + (HP - 1) * CHUNK));
    assert_eq!(lower.get(N + (HP - 1) * CHUNK, 9), Ok(N + CHUNK));
    // a chunk with an allocated frame is no huge frame
    assert_eq!(lower.get(3 * CHUNK, 9), Ok(4 * CHUNK));
    // order 8 takes the first free half of a chunk
    assert_eq!(lower.get(3 * CHUNK, 8), Ok(3 * CHUNK + 256));
    // order 7 takes the first free pair of words
    assert_eq!(lower.get(3 * CHUNK, 7), Ok(3 * CHUNK));
    assert_eq!(lower.allocated_frames(), 2 + 512 + 1024 + 2 * 512 + 512 + 256 + 128);
}

#[test]
fn lower_exhausts_subtree() {
    let mut lower = Lower::new(1, 0, N + 100, Init::Volatile, true);
    for _ in 0..HP {
        lower.get(0, 9).unwrap();
    }
    assert_eq!(lower.get(0, 9), Err(Error::Memory));
    assert_eq!(lower.get(0, 0), Err(Error::Memory));
    // the last subtree holds 100 frames: no huge frame, but small ones
    assert_eq!(lower.get(N, 9), Err(Error::Memory));
    for i in 0..100 {
        assert_eq!(lower.get(N, 0), Ok(N + i));
    }
    assert_eq!(lower.get(N, 0), Err(Error::Memory));
    assert_eq!(lower.allocated_frames(), N + 100);
    assert_eq!(lower.frames(), N + 100);
}

#[test]
fn lower_put_errors() {
    let mut lower = Lower::new(1, 0, N + 100, Init::Volatile, true);
    let frame = lower.get(0, 3).unwrap();
    // not allocated
    assert_eq!(lower.put(frame + 8, 3), Err(Error::Address));
    // not aligned
    assert_eq!(lower.put(frame + 1, 1), Err(Error::Address));
    // no huge frame
    assert_eq!(lower.put(0, 9), Err(Error::Address));
    assert_eq!(lower.put(0, 10), Err(Error::Address));
    // outside the region
    assert_eq!(lower.put(N + 100, 0), Err(Error::Address));
    assert_eq!(lower.put(N + 96, 3), Err(Error::Address));
    // no such order
    assert_eq!(lower.put(0, 11), Err(Error::Address));
    // in parts
    assert_eq!(lower.put(frame, 2), Ok(()));
    assert_eq!(lower.put(frame, 2), Err(Error::Address));
    assert_eq!(lower.put(frame + 4, 2), Ok(()));
    assert_eq!(lower.allocated_frames(), 0);
    assert!(lower.is_free(frame, 3));
}

#[test]
fn lower_is_free() {
    let mut lower = Lower::new(1, 0, 2 * N, Init::Volatile, true);
    assert!(lower.is_free(0, 10));
    assert!(lower.is_free(512, 9));
    assert!(!lower.is_free(512, 10));
    let frame = lower.get(0, 0).unwrap();
    assert_eq!(frame, 0);
    assert!(!lower.is_free(0, 0));
    assert!(lower.is_free(1, 0));
    assert!(!lower.is_free(0, 9));
    assert!(!lower.is_free(0, 10));
    assert!(lower.is_free(1024, 10));
    assert!(!lower.is_free(2 * N, 0));
    assert!(!lower.is_free(0, 11));
    let huge = lower.get(0, 9).unwrap();
    assert!(!lower.is_free(huge, 0));
    assert!(!lower.is_free(huge + 17, 0));
    assert_eq!(lower.free_huge_frames(), 2 * HP - 2);
}

#[test]
fn lower_image_and_recovery() {
    let mut lower = Lower::new(1, 7, N + 700, Init::Volatile, true);
    assert_eq!(lower.begin(), 7);
    assert!(!lower.persistent());
    for _ in 0..700 {
        lower.get(0, 0).unwrap();
    }
    lower.get(0, 9).unwrap();
    let words = lower.words();
    let mut counts = lower.counts();
    assert_eq!(words.len(), 8 * 34);
    assert_eq!(counts.len(), 64);
    assert_eq!(counts[0], 0);
    assert_eq!(counts[1], 512 - 188);
    assert_eq!(counts[2], 0xffff);

    // the counter of the second chunk lags behind by 5 frames
    counts[1] -= 5;
    let mut other = Lower::new(1, 7, N + 700, Init::Volatile, false);
    assert!(!other.restore(&words[1..].to_vec(), &counts));
    assert!(other.restore(&words, &counts));
    assert!(other.check(true));
    assert!(!other.check(false));
    assert_eq!(other.recover(0, true), Ok(N - 700 - 512));
    assert_eq!(other.recover(N, true), Ok(700));
    assert!(other.check(false));
    assert_eq!(other.allocated_frames(), lower.allocated_frames());
    assert_eq!(other.counts(), lower.counts());

    // a counter that is too high cannot be recovered
    counts[1] += 6;
    let mut broken = Lower::new(1, 7, N + 700, Init::Volatile, false);
    assert!(broken.restore(&words, &counts));
    assert!(!broken.check(true));
}

#[test]
fn lower_persistent_layout() {
    // 34 chunks take 34 * 66 bytes, which is one frame
    assert_eq!(Lower::metadata_frames(N + 700), 1);
    assert_eq!(Lower::metadata_frames(0), 0);
    assert_eq!(Lower::metadata_frames(512 * 4096), 66);
    let lower = Lower::new(1, 0, N + 700, Init::Overwrite, true);
    assert_eq!(lower.frames(), N + 699);
    assert!(lower.persistent());
    assert_eq!(lower.chunks(), 64);
}
