use llfree::entry::Next;
use llfree::list::{AtomicStack, BufList, ListCAS, MIN_PAGES};
use llfree::{Error, PAGE_SIZE};

#[test]
fn buf_list() {
    const N: usize = 64;
    let mut data = vec![Next::Outside; N];

    let mut list = BufList::new();
    assert_eq!(list.pop(&mut data), None);
    list.push(&mut data, 0);
    list.push(&mut data, 1);
    list.push_back(&mut data, 63);
    list.push_back(&mut data, 62);

    assert_eq!(list.pop(&mut data), Some(1));
    assert_eq!(list.pop(&mut data), Some(0));
    assert_eq!(list.pop(&mut data), Some(63));
    assert_eq!(list.pop(&mut data), Some(62));
    assert_eq!(list.pop(&mut data), None);
}

#[test]
fn buf_list_clear() {
    let mut data = vec![Next::Outside; 8];
    let mut list = BufList::new();
    list.push_back(&mut data, 3);
    list.push_back(&mut data, 5);
    list.push(&mut data, 7);
    assert_eq!(data[7], Next::Link(3));
    assert_eq!(data[3], Next::Link(5));
    assert_eq!(data[5], Next::End);
    list.clear(&mut data);
    assert_eq!(list.pop(&mut data), None);
    assert_eq!(data[7], Next::End);
    assert_eq!(data[3], Next::End);
    assert_eq!(data[0], Next::Outside);
    // the list can be used again
    list.push_back(&mut data, 0);
    assert_eq!(list.pop(&mut data), Some(0));
}

#[test]
fn list_cas_atomic_stack() {
    const N: usize = 640;
    let mut data = vec![Next::Outside; N];

    let mut stack = AtomicStack::new();
    stack.push(&mut data, 0);
    stack.push(&mut data, 1);

    assert_eq!(stack.pop(&mut data), Some(1));
    assert_eq!(stack.pop(&mut data), Some(0));
    assert_eq!(stack.pop(&mut data), None);

    // Stress test
    const THREADS: usize = 6;
    const I: usize = N / THREADS;
    let mut idx: Vec<Vec<usize>> = (0..THREADS)
        .map(|t| (0..I).map(|i| t * I + i).collect())
        .collect();
    for _ in 0..1000 {
        for i in 0..I {
            for t in 0..THREADS {
                stack.push(&mut data, idx[t][i]);
            }
        }
        for t in 0..THREADS {
            for (i, a) in idx[t].iter().enumerate() {
                for (j, b) in idx[t].iter().enumerate() {
                    assert!(i == j || a != b);
                }
            }
        }
        for i in 0..I {
            for t in 0..THREADS {
                idx[t][i] = stack.pop(&mut data).unwrap();
            }
        }
    }
    assert_eq!(stack.pop(&mut data), None);
    // what was popped is outside of all lists again
    assert!(data.iter().all(|next| *next == Next::Outside));
}

#[test]
fn list_cas_simple() {
    // 8GiB
    const MEM_SIZE: usize = 8 << 30;
    const BASE: u64 = 0x1000_0000_0000;
    let frames = MEM_SIZE / PAGE_SIZE;
    let range = BASE..BASE + MEM_SIZE as u64;

    let mut alloc = ListCAS::new(1, BASE, frames, true).unwrap();

    assert_eq!(alloc.dbg_free_pages(), alloc.pages());

    let small = alloc.get(0, 0).unwrap();

    assert_eq!(alloc.pages() - alloc.dbg_free_pages(), 1);

    // Stress test
    let mut pages = Vec::new();
    loop {
        match alloc.get(0, 0) {
            Ok(page) => pages.push(page),
            Err(Error::Memory) => break,
            Err(e) => panic!("{e:?}"),
        }
    }

    assert_eq!(alloc.pages() - alloc.dbg_free_pages(), 1 + pages.len());
    assert_eq!(alloc.dbg_free_pages(), 0);
    pages.sort_unstable();

    // Check that the same page was not allocated twice
    for i in 0..pages.len() - 1 {
        let p1 = pages[i];
        let p2 = pages[i + 1];
        assert!(range.contains(&p1));
        assert!(p1 != p2);
    }

    // Free some
    const FREE_NUM: usize = 512 * 512 - 10;
    for page in &pages[..FREE_NUM] {
        alloc.put(0, *page, 0).unwrap();
    }

    assert_eq!(
        alloc.pages() - alloc.dbg_free_pages(),
        1 + pages.len() - FREE_NUM
    );

    // Realloc
    for page in &mut pages[..FREE_NUM] {
        *page = alloc.get(0, 0).unwrap();
    }

    alloc.put(0, small, 0).unwrap();
    // Free all
    for page in &pages {
        alloc.put(0, *page, 0).unwrap();
    }

    assert_eq!(alloc.dbg_free_pages(), alloc.pages());
}

#[test]
fn list_cas_errors() {
    const BASE: u64 = 0x4000_1000;
    assert_eq!(
        ListCAS::new(2, BASE, 2 * MIN_PAGES - 1, true).err(),
        Some(Error::Memory)
    );
    assert_eq!(
        ListCAS::new(0, BASE, MIN_PAGES, true).err(),
        Some(Error::Memory)
    );
    let mut alloc = ListCAS::new(2, BASE, 2 * MIN_PAGES + 1, true).unwrap();
    assert_eq!(alloc.pages(), 2 * MIN_PAGES + 1);
    assert_eq!(alloc.get(0, 1), Err(Error::Memory));
    // the frames are handed out in their order
    assert_eq!(alloc.get(0, 0), Ok(BASE));
    assert_eq!(alloc.get(1, 0), Ok(BASE + 4096));
    assert_eq!(alloc.from_pfn(1), BASE + 4096);
    assert_eq!(alloc.to_pfn(BASE + 4096), Ok(1));
    assert_eq!(alloc.to_pfn(BASE + 4097), Err(Error::Address));
    assert_eq!(alloc.to_pfn(BASE - 4096), Err(Error::Address));
    assert_eq!(
        alloc.to_pfn(BASE + 4096 * (2 * MIN_PAGES as u64 + 1)),
        Err(Error::Address)
    );
    assert_eq!(alloc.put(0, BASE, 1), Err(Error::Memory));
    assert_eq!(alloc.put(0, BASE + 1, 0), Err(Error::Address));
    // a frame that is free cannot be given back
    assert_eq!(alloc.put(0, BASE + 2 * 4096, 0), Err(Error::Address));
    // one core gives back what the other took: its counter wraps around
    assert_eq!(alloc.put(1, BASE, 0), Ok(()));
    assert_eq!(alloc.put(1, BASE + 4096, 0), Ok(()));
    assert_eq!(alloc.put(1, BASE, 0), Err(Error::Address));
    assert_eq!(alloc.dbg_free_pages(), 2 * MIN_PAGES + 1);
    // what was given back last is handed out first
    assert_eq!(alloc.get(0, 0), Ok(BASE + 4096));

    let mut reserved = ListCAS::new(3, BASE, 3 * MIN_PAGES + 2, false).unwrap();
    assert_eq!(reserved.dbg_free_pages(), 0);
    assert_eq!(reserved.get(0, 0), Err(Error::Memory));
    assert_eq!(reserved.put(2, BASE + 7 * 4096, 0), Ok(()));
    assert_eq!(reserved.dbg_free_pages(), 1);
    assert_eq!(reserved.get(0, 0), Ok(BASE + 7 * 4096));
}
