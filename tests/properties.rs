use allocator::{
    bsf, find_first_one, stat_free_memory, trailing_zeros, BuddyAllocator, Level, TreeType,
};

const HUGE: usize = 262144;

#[test]
fn one_frame_leaves_seven_huge_and_a_partial_one() {
    let mut a = Box::new(BuddyAllocator::new(8));
    assert_eq!(a.allocate_frame(), Some(0));
    assert_eq!(a.stat_free_memory(), (7, 511, 511));
}

#[test]
fn one_big_block_leaves_seven_huge_and_511_big() {
    let mut a = Box::new(BuddyAllocator::new(8));
    assert_eq!(a.allocate_big_page(), Some(0));
    assert_eq!(a.stat_free_memory(), (7, 511, 0));
}

#[test]
fn one_huge_block_leaves_seven_huge() {
    let mut a = Box::new(BuddyAllocator::new(8));
    assert_eq!(a.allocate_huge_page(), Some(0));
    assert_eq!(a.stat_free_memory(), (7, 0, 0));
}

#[test]
fn frames_come_out_in_order_until_full() {
    let g = 8;
    let mut a = Box::new(BuddyAllocator::new(g));
    for i in 0..g * HUGE {
        assert_eq!(a.allocate_frame(), Some(i));
    }
    assert_eq!(a.allocate_frame(), None);
    assert_eq!(a.stat_free_memory(), (0, 0, 0));
    // Free in an order that is neither ascending nor descending.
    for i in (0..g * HUGE).step_by(2) {
        a.deallocate_frame(i);
    }
    for i in (0..g * HUGE).rev().step_by(2) {
        a.deallocate_frame(i);
    }
    assert_eq!(a.stat_free_memory(), (g as u64, 0, 0));
    assert!(a.check_integrity());
}

#[test]
fn checkerboard_of_big_blocks_and_frames_fills_one_huge_block() {
    let mut a = Box::new(BuddyAllocator::new(1));
    let mut bigs = 0;
    let mut frames = 0;
    for i in 0..512 {
        if i % 2 == 0 {
            assert!(a.allocate_big_page().is_some());
            bigs += 1;
        } else {
            for _ in 0..512 {
                assert!(a.allocate_frame().is_some());
                frames += 1;
            }
        }
    }
    assert_eq!(bigs, 256);
    assert_eq!(frames, 131072);
    assert_eq!(a.allocate_frame(), None);
    assert_eq!(a.allocate_big_page(), None);
    assert_eq!(a.allocate_huge_page(), None);
    assert_eq!(a.stat_free_memory(), (0, 0, 0));
}

#[test]
fn huge_blocks_are_handed_out_lowest_first() {
    let mut a = Box::new(BuddyAllocator::new(2));
    assert_eq!(a.allocate_huge_page(), Some(0));
    a.deallocate_huge_page(0);
    assert_eq!(a.allocate_huge_page(), Some(0));
    assert_eq!(a.allocate_huge_page(), Some(HUGE));
    assert_eq!(a.allocate_huge_page(), None);
}

#[test]
fn release_after_allocation_restores_the_counts() {
    let mut a = Box::new(BuddyAllocator::new(8));
    a.allocate_frame().unwrap();
    a.allocate_big_page().unwrap();
    a.allocate_huge_page().unwrap();
    let before = a.stat_free_memory();

    let f = a.allocate_frame().unwrap();
    a.deallocate_frame(f);
    assert!(a.check_integrity());
    assert_eq!(a.stat_free_memory(), before);

    let b = a.allocate_big_page().unwrap();
    a.deallocate_big_page(b);
    assert!(a.check_integrity());
    assert_eq!(a.stat_free_memory(), before);

    let h = a.allocate_huge_page().unwrap();
    a.deallocate_huge_page(h);
    assert!(a.check_integrity());
    assert_eq!(a.stat_free_memory(), before);
}

#[test]
fn releasing_everything_handed_out_gives_back_all_huge_blocks() {
    let g = 4;
    let mut a = Box::new(BuddyAllocator::new(g));
    let mut frames = Vec::new();
    let mut bigs = Vec::new();
    let mut huges = Vec::new();
    for round in 0..300 {
        match round % 5 {
            0 | 1 => frames.push(a.allocate_frame().unwrap()),
            2 | 3 => bigs.push(a.allocate_big_page().unwrap()),
            _ => {
                if let Some(h) = a.allocate_huge_page() {
                    huges.push(h);
                }
            }
        }
        if round % 7 == 3 {
            if let Some(f) = frames.pop() {
                a.deallocate_frame(f);
            }
        }
    }
    for f in frames {
        a.deallocate_frame(f);
    }
    for b in bigs.into_iter().rev() {
        a.deallocate_big_page(b);
    }
    for h in huges {
        a.deallocate_huge_page(h);
    }
    assert!(a.check_integrity());
    assert_eq!(a.stat_free_memory(), (g as u64, 0, 0));
}

#[test]
fn double_release_is_a_single_release() {
    let mut a = Box::new(BuddyAllocator::new(8));
    let f0 = a.allocate_frame().unwrap();
    let f1 = a.allocate_frame().unwrap();
    let b = a.allocate_big_page().unwrap();
    let h = a.allocate_huge_page().unwrap();

    a.deallocate_frame(f0);
    let once = a.stat_free_memory();
    a.deallocate_frame(f0);
    assert_eq!(a.stat_free_memory(), once);

    a.deallocate_big_page(b);
    let once = a.stat_free_memory();
    a.deallocate_big_page(b);
    assert_eq!(a.stat_free_memory(), once);

    a.deallocate_huge_page(h);
    let once = a.stat_free_memory();
    a.deallocate_huge_page(h);
    assert_eq!(a.stat_free_memory(), once);

    // The frame still handed out stays handed out.
    assert!(!a.get_bit_level_index(TreeType::Tree4kb, Level::Level3, f1));
    assert!(a.check_integrity());
}

#[test]
fn release_at_the_wrong_granularity_does_nothing() {
    let mut a = Box::new(BuddyAllocator::new(8));
    let f = a.allocate_frame().unwrap();
    let b = a.allocate_big_page().unwrap();
    let h = a.allocate_huge_page().unwrap();
    let before = a.stat_free_memory();

    a.deallocate_big_page(f);
    a.deallocate_huge_page(f);
    a.deallocate_frame(b);
    a.deallocate_huge_page(b);
    a.deallocate_frame(h);
    a.deallocate_big_page(h);
    assert_eq!(a.stat_free_memory(), before);
    assert!(a.check_integrity());
    // Nothing was freed: the next of each kind comes after them.
    assert_eq!(a.allocate_frame(), Some(f + 1));
    assert_eq!(a.allocate_big_page(), Some(b + 512));
    assert_eq!(a.allocate_huge_page(), Some(h + HUGE));
}

#[test]
fn release_of_an_index_that_was_never_handed_out_does_nothing() {
    let mut a = Box::new(BuddyAllocator::new(1));
    a.allocate_frame().unwrap();
    let before = a.stat_free_memory();
    a.deallocate_frame(5);
    a.deallocate_frame(HUGE);
    a.deallocate_frame(usize::MAX);
    a.deallocate_big_page(7);
    a.deallocate_big_page(1024);
    a.deallocate_big_page(usize::MAX);
    a.deallocate_huge_page(HUGE);
    a.deallocate_huge_page(13);
    assert_eq!(a.stat_free_memory(), before);
    assert!(a.check_integrity());
}

#[test]
fn release_at_capacity_makes_room_again() {
    let mut a = Box::new(BuddyAllocator::new(1));
    while a.allocate_frame().is_some() {}
    a.deallocate_frame(4242);
    assert_eq!(a.allocate_frame(), Some(4242));
    assert_eq!(a.allocate_frame(), None);

    let mut a = Box::new(BuddyAllocator::new(1));
    while a.allocate_big_page().is_some() {}
    assert_eq!(a.allocate_frame(), None);
    a.deallocate_big_page(512 * 17);
    assert_eq!(a.allocate_big_page(), Some(512 * 17));
    assert_eq!(a.allocate_big_page(), None);

    let mut a = Box::new(BuddyAllocator::new(3));
    while a.allocate_huge_page().is_some() {}
    assert_eq!(a.allocate_big_page(), None);
    a.deallocate_huge_page(HUGE);
    assert_eq!(a.allocate_huge_page(), Some(HUGE));
    assert_eq!(a.allocate_huge_page(), None);
}

#[test]
fn blocks_are_aligned_to_their_size() {
    let mut a = Box::new(BuddyAllocator::new(4));
    for k in 0..700 {
        a.allocate_frame().unwrap();
        if k % 3 == 0 {
            let b = a.allocate_big_page().unwrap();
            assert_eq!(b % 512, 0);
        }
    }
    let h = a.allocate_huge_page().unwrap();
    assert_eq!(h % HUGE, 0);
    assert_eq!(h, HUGE);
}

#[test]
fn tree_bits_follow_the_tags() {
    let mut a = Box::new(BuddyAllocator::new(2));
    let f = a.allocate_frame().unwrap();
    let b = a.allocate_big_page().unwrap();
    let h = a.allocate_huge_page().unwrap();
    assert_eq!((f, b, h), (0, 512, HUGE));
    // A handed-out frame has its bits cleared.
    assert!(!a.get_bit_level_index(TreeType::Tree4kb, Level::Level3, f));
    assert!(!a.get_bit_level_index(TreeType::Tree2mb, Level::Level2, f));
    assert!(!a.get_bit_level_index(TreeType::Tree1gb, Level::Level1, f));
    // A free page next to it keeps its bit.
    assert!(a.get_bit_level_index(TreeType::Tree4kb, Level::Level3, f + 1));
    assert!(a.get_bit_level_index(TreeType::Tree4kb, Level::Level2, f + 1));
    // A handed-out big block.
    assert!(!a.get_bit_level_index(TreeType::Tree4kb, Level::Level2, b));
    assert!(!a.get_bit_level_index(TreeType::Tree2mb, Level::Level2, b));
    // A handed-out huge block.
    assert!(!a.get_bit_level_index(TreeType::Tree4kb, Level::Level1, h));
    assert!(!a.get_bit_level_index(TreeType::Tree2mb, Level::Level1, h));
    assert!(!a.get_bit_level_index(TreeType::Tree1gb, Level::Level1, h));
    // Big block 2 of huge block 0 is still entirely free.
    assert!(a.get_bit_level_index(TreeType::Tree2mb, Level::Level2, 1024));
    assert!(a.get_bit_level_index(TreeType::Tree2mb, Level::Level1, 1024));
    assert!(a.get_bit_level_block_levels_index(TreeType::Tree2mb, Level::Level2, 0, 2, 0));
    assert!(!a.get_bit_level_block_levels_index(TreeType::Tree2mb, Level::Level2, 0, 1, 0));
    // Level 1 of the three trees nests.
    for i in [0, HUGE] {
        let one = a.get_bit_level_index(TreeType::Tree1gb, Level::Level1, i);
        let two = a.get_bit_level_index(TreeType::Tree2mb, Level::Level1, i);
        let four = a.get_bit_level_index(TreeType::Tree4kb, Level::Level1, i);
        assert!(!one || two);
        assert!(!two || four);
    }
}

#[test]
fn node_offsets() {
    let a = BuddyAllocator::new(8);
    assert_eq!(a.compute_first_block_index(70, 0, Level::Level1), 1);
    assert_eq!(a.compute_first_block_index(3, 0, Level::Level2), 32);
    assert_eq!(a.compute_first_block_index(1, 2, Level::Level3), 8 + 64 + 4096 + 16);
}

#[test]
fn misaligned_free_pages_count_as_single_pages() {
    let mut a = Box::new(BuddyAllocator::new(8));
    assert_eq!(a.allocate_frame(), Some(0));
    assert_eq!(a.allocate_frame(), Some(1));
    a.deallocate_frame(0);
    assert_eq!(a.stat_free_memory(), (7, 511, 511));
    a.deallocate_frame(1);
    assert_eq!(a.stat_free_memory(), (8, 0, 0));
}

#[test]
fn new_allocator_is_all_free() {
    for g in [1, 2, 8, 64, 65] {
        let a = Box::new(BuddyAllocator::new(g));
        assert_eq!(a.stat_free_memory(), (g as u64, 0, 0));
        assert!(a.check_integrity());
    }
}

#[test]
fn bit_scans() {
    assert_eq!(bsf(1), 0);
    assert_eq!(bsf(12), 2);
    assert_eq!(bsf(0x8000_0000_0000_0000), 63);
    assert_eq!(find_first_one(0), 0);
    assert_eq!(find_first_one(40), 3);
    assert_eq!(find_first_one(0x8000_0000_0000_0000), 63);
    assert_eq!(trailing_zeros(0), 64);
    assert_eq!(trailing_zeros(96), 5);
    assert_eq!(trailing_zeros(u64::MAX), 0);
}

#[test]
fn run_split() {
    assert_eq!(stat_free_memory(0), (0, 0, 0));
    assert_eq!(stat_free_memory(511), (0, 0, 511));
    assert_eq!(stat_free_memory(512), (0, 1, 0));
    assert_eq!(stat_free_memory(3 * 262144 + 5 * 512 + 7), (3, 5, 7));
}
