use rustbuddy::BuddyAllocator;

#[test]
fn leftmost_fit_returns_increasing_offsets() {
    let mut buddy = BuddyAllocator::new(4);
    for expected in 0..16 {
        assert_eq!(buddy.allocate(1), expected as isize);
    }
    assert_eq!(buddy.allocate(1), -1);
}

#[test]
fn capacity_boundary_fails_without_mutating() {
    let mut buddy = BuddyAllocator::new(4);
    let fresh = buddy.dump();
    assert_eq!(buddy.allocate(17), -1);
    assert_eq!(buddy.allocate(1000), -1);
    assert_eq!(fresh, buddy.dump());
    assert_eq!(buddy.allocate(1), 0);
    let partial = buddy.dump();
    assert_eq!(buddy.allocate(17), -1);
    assert_eq!(partial, buddy.dump());
}

#[test]
fn whole_capacity_is_one_block() {
    let mut buddy = BuddyAllocator::new(4);
    assert_eq!(buddy.allocate(16), 0);
    assert_eq!(buddy.allocate(1), -1);
    buddy.free(16, 0);
    assert_eq!(
        "O\nOO\nOOOO\nOOOOOOOO\nOOOOOOOOOOOOOOOO\n",
        buddy.dump()
    );
}

#[test]
fn free_reverses_allocation() {
    let mut buddy = BuddyAllocator::new(4);
    assert_eq!(buddy.allocate(1), 0);
    assert_eq!(buddy.allocate(2), 2);
    let before = buddy.dump();
    let offset = buddy.allocate(4);
    assert_eq!(offset, 4);
    buddy.free(4, offset as usize);
    assert_eq!(before, buddy.dump());
}

#[test]
fn coalescing_is_independent_of_free_order() {
    let mut first = BuddyAllocator::new(2);
    for expected in 0..4 {
        assert_eq!(first.allocate(1), expected as isize);
    }
    first.free(1, 2);
    first.free(1, 0);
    first.free(1, 3);
    first.free(1, 1);
    assert_eq!("O\nOO\nOOOO\n", first.dump());

    let mut second = BuddyAllocator::new(2);
    for expected in 0..4 {
        assert_eq!(second.allocate(1), expected as isize);
    }
    second.free(1, 3);
    second.free(1, 2);
    second.free(1, 1);
    second.free(1, 0);
    assert_eq!("O\nOO\nOOOO\n", second.dump());
}

#[test]
fn zero_size_request_is_served_as_one_unit() {
    let mut buddy = BuddyAllocator::new(2);
    assert_eq!(buddy.allocate(0), 0);
    assert_eq!("S\nSO\nUOOO\n", buddy.dump());
}

#[test]
fn sizes_round_up_to_powers_of_two() {
    let mut buddy = BuddyAllocator::new(2);
    assert_eq!(buddy.allocate(3), 0);
    assert_eq!("U\nOO\nOOOO\n", buddy.dump());
    assert_eq!(buddy.allocate(1), -1);
    buddy.free(3, 0);
    assert_eq!("O\nOO\nOOOO\n", buddy.dump());
}

#[test]
fn degenerate_single_node_tree() {
    let mut buddy = BuddyAllocator::new(0);
    assert_eq!("O\n", buddy.dump());
    assert_eq!(buddy.allocate(1), 0);
    assert_eq!("U\n", buddy.dump());
    assert_eq!(buddy.allocate(1), -1);
    buddy.free(1, 0);
    assert_eq!("O\n", buddy.dump());
}

#[test]
fn double_free_is_silently_accepted() {
    let mut buddy = BuddyAllocator::new(2);
    assert_eq!(buddy.allocate(1), 0);
    buddy.free(1, 0);
    buddy.free(1, 0);
    assert_eq!("O\nOO\nOOOO\n", buddy.dump());
    assert_eq!(buddy.allocate(1), 0);
}

#[test]
fn fragmentation_fails_despite_enough_free_units() {
    let mut buddy = BuddyAllocator::new(2);
    assert_eq!(buddy.allocate(1), 0);
    assert_eq!(buddy.allocate(1), 1);
    assert_eq!(buddy.allocate(1), 2);
    buddy.free(1, 1);
    // two base units are free, but no aligned pair is
    assert_eq!(buddy.allocate(2), -1);
    assert_eq!(buddy.allocate(1), 1);
}
