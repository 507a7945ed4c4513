use llfree::entry::{Child, ChildPair, Next, ReservedTree, Tree, CHILD_HUGE, START_RAW_MAX};

#[test]
fn reserved_tree() {
    let none = ReservedTree::new();
    assert!(!none.has_start());
    assert_eq!(none.free(), 0);
    assert!(!none.locked());
    assert_eq!(none.dec(0), None);

    let entry = ReservedTree::new_with(100, 16384 + 77);
    assert!(entry.has_start());
    // the start is kept in units of 64 frames
    assert_eq!(entry.start(), 16384 + 64);
    assert_eq!(entry.dec(100), Some(ReservedTree::new_with(0, 16384 + 64)));
    assert_eq!(entry.dec(101), None);
    assert_eq!(entry.inc(5, 105, |start| start == 16384 + 64).unwrap().free(), 105);
    assert_eq!(entry.inc(6, 105, |_| true), None);
    assert_eq!(entry.inc(5, 105, |_| false), None);
    assert_eq!(entry.with_start(128).start(), 128);
    assert_eq!(entry.with_free(7).free(), 7);
    let mut moved = entry;
    moved.set_start(3 * 64 + 1);
    assert_eq!(moved.start(), 3 * 64);
    assert_eq!(moved.free(), 100);

    assert_eq!(entry.toggle_locked(false), None);
    let locked = entry.toggle_locked(true).unwrap();
    assert!(locked.locked());
    assert_eq!(locked.toggle_locked(true), None);
    assert_eq!(locked.toggle_locked(false), Some(entry));
    assert_eq!(locked.with_locked(false), entry);
}

#[test]
fn reserved_tree_bits() {
    let entry = ReservedTree::new_with(0xabcd, 64 * 5);
    assert_eq!(entry.into_bits(), 0xabcd | (5 << 17));
    let locked = entry.with_locked(true);
    assert_eq!(locked.into_bits(), 0xabcd | (1 << 16) | (5 << 17));
    assert_eq!(ReservedTree::from_bits(locked.into_bits()), locked);
    let none = ReservedTree::new();
    assert_eq!(none.into_bits(), START_RAW_MAX << 17);
    assert_eq!(ReservedTree::from_bits(u64::MAX).into_bits(), u64::MAX);
    assert!(!ReservedTree::from_bits(u64::MAX).has_start());
}

#[test]
fn tree() {
    assert_eq!(Tree::new(), Tree::new_with(0, false));
    assert_eq!(Tree::empty(16384), Tree::new_with(16384, false));
    let entry = Tree::new_with(1000, false);
    assert_eq!(entry.free(), 1000);
    assert!(!entry.reserved());
    assert_eq!(entry.inc(24, 1024), Some(Tree::new_with(1024, false)));
    assert_eq!(entry.inc(25, 1024), None);
    assert_eq!(entry.reserve(1000..1001), Some(Tree::new_with(0, true)));
    assert_eq!(entry.reserve(1001..2000), None);
    assert_eq!(entry.reserve(0..1000), None);
    assert_eq!(entry.unreserve_add(1, 2000), None);
    let reserved = Tree::new_with(10, true);
    assert_eq!(reserved.reserve(0..100), None);
    assert_eq!(reserved.unreserve_add(90, 100), Some(Tree::new_with(100, false)));
    assert_eq!(reserved.unreserve_add(91, 100), None);
    // frees of other cores are counted while the subtree is reserved
    assert_eq!(reserved.inc(5, 100), Some(Tree::new_with(15, true)));
}

#[test]
fn tree_bits() {
    assert_eq!(Tree::new_with(0x1234, false).into_bits(), 0x1234);
    assert_eq!(Tree::new_with(0x1234, true).into_bits(), 0x9234);
    assert_eq!(Tree::from_bits(0x9234), Tree::new_with(0x1234, true));
    assert_eq!(Tree::from_bits(0x7fff), Tree::new_with(0x7fff, false));
    assert_eq!(Tree::from_bits(0xffff).into_bits(), 0xffff);
}

#[test]
fn child() {
    let huge = Child::new_frame();
    assert!(huge.allocated());
    assert_eq!(huge.free(), 0);
    assert_eq!(huge.into_bits(), CHILD_HUGE);
    assert_eq!(huge.dec(0), None);
    assert_eq!(huge.inc(512, 1), None);
    assert_eq!(huge.mark_allocated(512), None);
    // a huge frame counts no free frame
    assert_eq!(huge.mark_allocated(0), Some(huge));

    let free = Child::new_free(512);
    assert!(!free.allocated());
    assert_eq!(free.free(), 512);
    assert_eq!(free.mark_allocated(512), Some(huge));
    assert_eq!(free.dec(512), Some(Child::new()));
    assert_eq!(free.dec(513), None);
    assert_eq!(free.inc(512, 1), None);
    let some = Child::new_free(500);
    assert_eq!(some.mark_allocated(512), None);
    assert_eq!(some.inc(512, 12), Some(free));
    assert_eq!(some.inc(512, 13), None);
    assert_eq!(some.dec(8), Some(Child::new_free(492)));
    assert_eq!(Child::from_bits(500), some);
}

#[test]
fn child_pair() {
    let free = Child::new_free(512);
    let huge = Child::new_frame();
    let pair = ChildPair(free, free);
    assert_eq!(
        pair.map(|c| c.mark_allocated(512)),
        Some(ChildPair(huge, huge))
    );
    assert_eq!(ChildPair(free, huge).map(|c| c.mark_allocated(512)), None);
    assert_eq!(ChildPair(huge, free).map(|c| c.mark_allocated(512)), None);
    assert!(pair.all(|c| c.free() == 512));
    assert!(!ChildPair(free, huge).all(|c| c.free() == 512));
    assert!(!ChildPair(huge, free).all(|c| c.free() == 512));
    assert_eq!(ChildPair(free, huge).into_bits(), 0xffff_0200);
    assert_eq!(ChildPair::from_bits(0xffff_0200), ChildPair(free, huge));
    assert_eq!(ChildPair::from_bits(0x0001_0002).into_bits(), 0x0001_0002);
}

#[test]
fn next() {
    assert_eq!(Next::Link(7).some(), Some(7));
    assert_eq!(Next::End.some(), None);
    assert_eq!(Next::from_option(Some(3)), Next::Link(3));
    assert_eq!(Next::from_option(None), Next::End);
    assert_eq!(Next::Outside.into_bits(), u64::MAX);
    assert_eq!(Next::End.into_bits(), u64::MAX - 1);
    assert_eq!(Next::Link(9).into_bits(), 9);
    assert_eq!(Next::from_bits(u64::MAX), Next::Outside);
    assert_eq!(Next::from_bits(u64::MAX - 1), Next::End);
    assert_eq!(Next::from_bits(9), Next::Link(9));
}
