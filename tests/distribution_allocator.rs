use allocator::BuddyAllocator;

// Huge blocks under management. Eight for the scenarios that sweep the
// allocator only a few times; one for those that sweep it after every few
// thousand operations, so that they finish in seconds.
const NB_GB: usize = 8;
const NB_GB_SWEPT: usize = 1;

#[test]
fn test_alloc_works() {
    let mut frame_alloc = Box::new(BuddyAllocator::new(NB_GB));
    assert!(frame_alloc.check_integrity());
    let new_frame = frame_alloc.allocate_frame();
    assert!(new_frame.is_some());
    assert!(frame_alloc.check_integrity());
}

#[test]
fn test_alloc_when_full() {
    let nb_pages = 512 * 512 * NB_GB_SWEPT;
    let mut frame_alloc = Box::new(BuddyAllocator::new(NB_GB_SWEPT));
    for i in 0..nb_pages {
        if i % 1000 == 0 {
            assert!(frame_alloc.check_integrity());
        }
        let new_frame = frame_alloc.allocate_frame();
        assert!(new_frame.is_some());
    }
    assert!(frame_alloc.check_integrity());
    let new_frame = frame_alloc.allocate_frame();
    assert!(new_frame.is_none());
    assert!(frame_alloc.check_integrity());
}

#[test]
fn test_alloc_and_dealloc_several_times() {
    let nb_pages = 512 * 512 * NB_GB_SWEPT;
    let mut frame_alloc = Box::new(BuddyAllocator::new(NB_GB_SWEPT));
    for i in 0..nb_pages * 10 {
        if i % 10000 == 0 {
            assert!(frame_alloc.check_integrity());
        }
        let new_frame = frame_alloc.allocate_frame();
        assert!(new_frame.is_some());
        frame_alloc.deallocate_frame(new_frame.unwrap());
    }
    assert!(frame_alloc.check_integrity());
}

#[test]
fn test_two_allocated_frame_are_diff() {
    let mut frame_alloc = Box::new(BuddyAllocator::new(NB_GB));
    let frame1 = frame_alloc.allocate_frame();
    assert!(frame1.is_some());
    assert!(frame_alloc.check_integrity());
    let frame2 = frame_alloc.allocate_frame();
    assert!(frame2.is_some());
    assert!(frame_alloc.check_integrity());

    assert_ne!(frame1.as_ref().unwrap(), frame2.as_ref().unwrap());
    assert_ne!(frame1.as_ref().unwrap(), frame2.as_ref().unwrap());
}

#[test]
fn test_alloc_and_dealloc_big_several_times() {
    let nb_pages = 512 * 512 * NB_GB_SWEPT;
    let mut frame_alloc = Box::new(BuddyAllocator::new(NB_GB_SWEPT));
    for i in 0..nb_pages {
        if i % 1000 == 0 {
            assert!(frame_alloc.check_integrity());
        }
        let new_frame = frame_alloc.allocate_big_page();
        assert!(new_frame.is_some());
        frame_alloc.deallocate_big_page(new_frame.unwrap());
    }
}

#[test]
fn test_alloc_and_dealloc_huge_several_times() {
    let nb_pages = 512 * 512 * NB_GB_SWEPT;
    let mut frame_alloc = Box::new(BuddyAllocator::new(NB_GB_SWEPT));
    for i in 0..nb_pages {
        if i % 1000 == 0 {
            assert!(frame_alloc.check_integrity());
        }
        let new_frame = frame_alloc.allocate_huge_page();
        assert!(new_frame.is_some());
        frame_alloc.deallocate_huge_page(new_frame.unwrap());
    }
}

#[test]
fn test_allocate_different_types() {
    let mut frame_alloc = Box::new(BuddyAllocator::new(NB_GB));
    let frame = frame_alloc.allocate_frame();
    assert!(frame.is_some());
    assert!(frame_alloc.check_integrity());
    let big_page = frame_alloc.allocate_big_page();
    assert!(big_page.is_some());
    assert!(frame_alloc.check_integrity());
    let huge_page = frame_alloc.allocate_huge_page();
    assert!(huge_page.is_some());
    assert!(frame_alloc.check_integrity());

    assert_ne!(frame.unwrap(), big_page.unwrap());
    assert_ne!(frame.unwrap(), huge_page.unwrap());
    assert_ne!(big_page.unwrap(), huge_page.unwrap());
}

#[test]
fn test_fill_memory_with_frame_and_big() {
    let nb_pages = 512 * 512 * NB_GB;
    let mut frame_alloc = Box::new(BuddyAllocator::new(NB_GB));

    for i in 0..nb_pages / 512 {
        if i % 100 == 0 {
            assert!(frame_alloc.check_integrity());
        }
        if i % 2 == 0 {
            let big_page = frame_alloc.allocate_big_page();
            assert!(big_page.is_some());
        } else {
            for _ in 0..512 {
                let frame = frame_alloc.allocate_frame();
                assert!(frame.is_some());
            }
        }
    }
    assert!(frame_alloc.check_integrity());

    // assert memory is full
    let frame = frame_alloc.allocate_frame();
    assert!(frame.is_none());
    let big_page = frame_alloc.allocate_big_page();
    assert!(big_page.is_none());
    let huge_page = frame_alloc.allocate_huge_page();
    assert!(huge_page.is_none());
    assert!(frame_alloc.check_integrity());
}

#[test]
fn test_alloc_and_free_with_all_types() {
    let mut frame_alloc = Box::new(BuddyAllocator::new(NB_GB));

    let frame = frame_alloc.allocate_frame();
    assert!(frame.is_some());
    assert!(frame_alloc.check_integrity());
    let big_page = frame_alloc.allocate_big_page();
    assert!(big_page.is_some());
    assert!(frame_alloc.check_integrity());
    let mut huge_page = frame_alloc.allocate_huge_page();
    assert!(huge_page.is_some());
    assert!(frame_alloc.check_integrity());
    for _ in 0..NB_GB - 2 {
        huge_page = frame_alloc.allocate_huge_page();
        assert!(huge_page.is_some());
    }
    assert!(frame_alloc.check_integrity());
    let huge_page1 = frame_alloc.allocate_huge_page();
    assert!(huge_page1.is_none());
    frame_alloc.deallocate_huge_page(huge_page.unwrap());
    let huge_page2 = frame_alloc.allocate_huge_page();
    assert!(huge_page2.is_some());
    let big_page1 = frame_alloc.allocate_big_page();
    assert!(big_page1.is_some());
    let frame1 = frame_alloc.allocate_frame();
    assert!(frame1.is_some());
    assert!(frame_alloc.check_integrity());
}
