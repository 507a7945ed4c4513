use llfree::local::Local;

/// Testing the related pages heuristic for frees
#[test]
fn related_pages() {
    let mut local = Local::<4>::new();
    let page1 = 43;
    let i1 = page1 / (512 * 512);
    assert!(!local.frees_related(i1));
    local.frees_push(i1);
    local.frees_push(i1);
    local.frees_push(i1);
    assert!(!local.frees_related(i1));
    local.frees_push(i1);
    assert!(local.frees_related(i1));
    let page2 = 512 * 512 + 43;
    let i2 = page2 / (512 * 512);
    assert_ne!(i1, i2);
    local.frees_push(i2);
    assert!(!local.frees_related(i1));
    assert!(!local.frees_related(i2));

    {
        let push1 = local.defer_frees_push(i1);
        local.frees_push(i1);
        local.frees_push(i1);
        let push2 = local.defer_frees_push(i1);
        assert!(!local.frees_related(i1));
        push2.finish(&mut local);
        push1.finish(&mut local);
    };
    assert!(local.frees_related(i1));
}

#[test]
fn ring_without_entries() {
    let mut local = Local::<0>::new();
    local.frees_push(3);
    assert!(!local.frees_related(3));
    let mut single = Local::<1>::new();
    assert!(!single.frees_related(3));
    single.frees_push(3);
    assert!(single.frees_related(3));
    single.frees_push(4);
    assert!(!single.frees_related(3));
    assert!(single.frees_related(4));
}
