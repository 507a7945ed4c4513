use llfree::entry::{ReservedTree, Tree};
use llfree::lower::N;
use llfree::trees::{Trees, ALMOST_ALLOCATED, ALMOST_FREE};
use llfree::util::{align_down, align_up, div_ceil, pow2_usize};
use llfree::Error;

fn with(frees: &[usize]) -> Trees {
    Trees {
        entries: frees.iter().map(|free| Tree::new_with(*free, false)).collect(),
    }
}

#[test]
fn trees_init() {
    let trees = Trees::init(3 * N + 100, true);
    assert_eq!(trees.len(), 4);
    assert_eq!(trees.entries[0], Tree::new_with(N, false));
    assert_eq!(trees.entries[3], Tree::new_with(100, false));
    let trees = Trees::init(3 * N, true);
    assert_eq!(trees.len(), 3);
    assert_eq!(trees.entries[2], Tree::new_with(N, false));
    let trees = Trees::init(3 * N + 100, false);
    assert_eq!(trees.entries[0], Tree::new());
    assert_eq!(trees.entries[3], Tree::new());
    assert_eq!(Trees::almost_allocated(), 1024);
    assert_eq!(Trees::almost_free(), N - 1024);
    assert_eq!(ALMOST_ALLOCATED, 1 << 10);
    assert_eq!(ALMOST_FREE, N - (1 << 10));
}

#[test]
fn reserve_prefers_used_subtrees() {
    // subtree 2 is in use, subtree 1 is free, subtree 0 is almost allocated
    let mut trees = with(&[1023, N, 5000, N]);
    let entry = trees.reserve(1, 0, false).unwrap();
    assert_eq!(entry, ReservedTree::new_with(5000, 2 * N));
    assert_eq!(trees.entries[2], Tree::new_with(0, true));
    // then the free ones, from the start on
    let entry = trees.reserve(1, 3, false).unwrap();
    assert_eq!(entry, ReservedTree::new_with(N, 3 * N));
    let entry = trees.reserve(1, 3, false).unwrap();
    assert_eq!(entry, ReservedTree::new_with(N, N));
    assert_eq!(trees.reserve(1, 0, false), Err(Error::Memory));
    assert_eq!(trees.entries[0], Tree::new_with(1023, false));
}

#[test]
fn reserve_prefers_free_subtrees_on_retry() {
    let mut trees = with(&[1024, N, 5000, N - 1024, N - 1025]);
    let entry = trees.reserve(1, 2, true).unwrap();
    assert_eq!(entry, ReservedTree::new_with(N - 1024, 3 * N));
    let entry = trees.reserve(1, 2, true).unwrap();
    assert_eq!(entry, ReservedTree::new_with(N, N));
    // no free one is left: the first in use from the start on
    let entry = trees.reserve(1, 2, true).unwrap();
    assert_eq!(entry, ReservedTree::new_with(5000, 2 * N));
    let entry = trees.reserve(1, 2, true).unwrap();
    assert_eq!(entry, ReservedTree::new_with(N - 1025, 4 * N));
    let entry = trees.reserve(1, 2, true).unwrap();
    assert_eq!(entry, ReservedTree::new_with(1024, 0));
    assert_eq!(trees.reserve(1, 2, true), Err(Error::Memory));
}

#[test]
fn reserve_near() {
    // 64 subtrees, one core: the 15 entries around the cache line of the start
    // are tried first, and there also a free subtree is taken
    let mut frees = vec![0; 64];
    frees[30] = N;
    frees[34] = 2000;
    frees[50] = 3000;
    let mut trees = with(&frees);
    // start 40 lies in the cache line of entry 32: 31, 33, 30, 34, ...
    let entry = trees.reserve_partial(1, 40).unwrap();
    assert_eq!(entry, ReservedTree::new_with(N, 30 * N));
    let entry = trees.reserve_partial(1, 40).unwrap();
    assert_eq!(entry, ReservedTree::new_with(2000, 34 * N));
    let entry = trees.reserve_partial(1, 40).unwrap();
    assert_eq!(entry, ReservedTree::new_with(3000, 50 * N));
    assert_eq!(trees.reserve_partial(1, 40), Err(Error::Memory));
    assert_eq!(trees.reserve_empty(40), Err(Error::Memory));
    // with 16 cores the neighbourhood is an entry wide, and nothing is tried
    let mut trees = with(&frees);
    let entry = trees.reserve_partial(16, 40).unwrap();
    assert_eq!(entry, ReservedTree::new_with(3000, 50 * N));
    let entry = trees.reserve_partial(16, 40).unwrap();
    assert_eq!(entry, ReservedTree::new_with(2000, 34 * N));
    assert_eq!(trees.reserve_partial(16, 40), Err(Error::Memory));
    assert_eq!(
        trees.reserve_empty(40),
        Ok(ReservedTree::new_with(N, 30 * N))
    );
}

#[test]
fn unreserve() {
    let mut trees = with(&[N, 100]);
    let entry = trees.reserve(1, 0, true).unwrap();
    assert_eq!(trees.unreserve(ReservedTree::new(), 2 * N), Ok(()));
    assert_eq!(trees.entries[0], Tree::new_with(0, true));
    // frees of another core in the meantime
    trees.entries[0] = trees.entries[0].inc(10, N).unwrap();
    assert_eq!(trees.unreserve(entry.with_free(N - 20), 2 * N), Ok(()));
    assert_eq!(trees.entries[0], Tree::new_with(N - 10, false));
    // not reserved
    assert_eq!(
        trees.unreserve(ReservedTree::new_with(0, 0), 2 * N),
        Err(Error::Corruption)
    );
    // more than the subtree has in the region
    trees.entries[1] = Tree::new_with(100, true);
    assert_eq!(
        trees.unreserve(ReservedTree::new_with(1, N), N + 100),
        Err(Error::Corruption)
    );
    assert_eq!(trees.unreserve(ReservedTree::new_with(0, N), N + 100), Ok(()));
}

#[test]
fn helpers() {
    assert_eq!(align_down(4097, 4096), 4096);
    assert_eq!(align_down(4095, 4096), 0);
    assert_eq!(align_up(4097, 4096), 8192);
    assert_eq!(align_up(4096, 4096), 4096);
    assert_eq!(align_up(0, 64), 0);
    assert_eq!(div_ceil(0, 512), 0);
    assert_eq!(div_ceil(1, 512), 1);
    assert_eq!(div_ceil(512, 512), 1);
    assert_eq!(div_ceil(513, 512), 2);
    assert_eq!(pow2_usize(0), 1);
    assert_eq!(pow2_usize(10), 1024);
}
