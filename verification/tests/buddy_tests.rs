use buddy_system::{init, reserve, AllocError, FreeError, MAX_FRAME_SIZE, MIN_FRAME_SIZE, NUM_RUNGS};

fn rung_size_of(i: usize) -> usize {
    MIN_FRAME_SIZE << i
}

fn free_byte_total(a: &buddy_system::BuddyAllocator) -> usize {
    let mut total = 0;
    for i in 0..NUM_RUNGS {
        total += a.rung_count(i) * rung_size_of(i);
    }
    total
}

fn rung_contents(a: &buddy_system::BuddyAllocator, i: usize) -> Vec<usize> {
    let mut v = Vec::new();
    for j in 0..a.rung_count(i) {
        v.push(a.rung_frame(i, j));
    }
    v
}

#[test]
fn init_two_max_frames() {
    let a = init(2 * MAX_FRAME_SIZE);
    assert_eq!(a.rung_count(NUM_RUNGS - 1), 2);
    assert_eq!(a.rung_frame(NUM_RUNGS - 1, 0), 0);
    assert_eq!(a.rung_frame(NUM_RUNGS - 1, 1), MAX_FRAME_SIZE);
    for i in 0..NUM_RUNGS - 1 {
        assert_eq!(a.rung_count(i), 0);
    }
    assert_eq!(a.total_memory(), 2 * MAX_FRAME_SIZE);
}

#[test]
fn split_chain_from_single_max_frame() {
    let mut a = init(MAX_FRAME_SIZE);
    let p = a.allocate(1, 1).unwrap();
    assert_eq!(p, 0);
    for i in 0..NUM_RUNGS - 1 {
        assert_eq!(a.rung_count(i), 1, "one free frame expected at rung {}", i);
        assert_eq!(a.rung_frame(i, 0), rung_size_of(i));
    }
    assert_eq!(a.rung_count(NUM_RUNGS - 1), 0);
}

#[test]
fn reserve_exactly_one_min_frame() {
    let mut a = init(MAX_FRAME_SIZE);
    let p = a.allocate(MIN_FRAME_SIZE, MIN_FRAME_SIZE).unwrap();
    assert_eq!(p, 0);
    // the sibling min frame at 16 is free; reserving exactly it removes it
    // and touches nothing else
    assert_eq!(rung_contents(&a, 0), vec![MIN_FRAME_SIZE]);
    reserve(&mut a, MIN_FRAME_SIZE, MIN_FRAME_SIZE);
    assert_eq!(a.rung_count(0), 0);
    for i in 1..NUM_RUNGS - 1 {
        assert_eq!(rung_contents(&a, i), vec![rung_size_of(i)], "rung {} sibling unsplit", i);
    }
    assert_eq!(a.rung_count(NUM_RUNGS - 1), 0);
}

#[test]
fn invalid_free_is_reported_not_ignored() {
    let mut a = init(MAX_FRAME_SIZE);
    let p = a.allocate(MIN_FRAME_SIZE, MIN_FRAME_SIZE).unwrap();
    let before: Vec<Vec<usize>> = (0..NUM_RUNGS).map(|i| rung_contents(&a, i)).collect();
    // the size does not match the allocation made at this address
    let r = a.dealloc(p, 2 * MIN_FRAME_SIZE, MIN_FRAME_SIZE);
    assert_eq!(r, Err(FreeError::InvalidFree));
    let after: Vec<Vec<usize>> = (0..NUM_RUNGS).map(|i| rung_contents(&a, i)).collect();
    assert_eq!(before, after, "a rejected free must not change the registry");
}

#[test]
fn invalid_free_misaligned_and_out_of_range() {
    let mut a = init(MAX_FRAME_SIZE);
    assert_eq!(a.dealloc(8, MIN_FRAME_SIZE, 1), Err(FreeError::InvalidFree));
    assert_eq!(a.dealloc(MAX_FRAME_SIZE, MIN_FRAME_SIZE, 1), Err(FreeError::InvalidFree));
    assert_eq!(a.dealloc(0, 0, 1), Err(FreeError::InvalidFree));
    // double free: the whole frame is still free
    assert_eq!(a.dealloc(0, MAX_FRAME_SIZE, 1), Err(FreeError::InvalidFree));
}

#[test]
fn round_trip_restores_registry() {
    let mut a = init(2 * MAX_FRAME_SIZE);
    let before: Vec<Vec<usize>> = (0..NUM_RUNGS).map(|i| rung_contents(&a, i)).collect();
    let p = a.allocate(48, MIN_FRAME_SIZE).unwrap();
    assert_eq!(p % 64, 0, "a 48-byte request is served from the 64-byte rung");
    assert_eq!(a.dealloc(p, 48, MIN_FRAME_SIZE), Ok(()));
    let after: Vec<Vec<usize>> = (0..NUM_RUNGS).map(|i| rung_contents(&a, i)).collect();
    assert_eq!(before, after);
}

#[test]
fn coalescing_merges_buddies_in_both_orders() {
    for order in 0..2 {
        let mut a = init(MAX_FRAME_SIZE);
        let p1 = a.allocate(MIN_FRAME_SIZE, MIN_FRAME_SIZE).unwrap();
        let p2 = a.allocate(MIN_FRAME_SIZE, MIN_FRAME_SIZE).unwrap();
        assert_eq!((p1, p2), (0, MIN_FRAME_SIZE));
        let (first, second) = if order == 0 { (p1, p2) } else { (p2, p1) };
        assert_eq!(a.dealloc(first, MIN_FRAME_SIZE, MIN_FRAME_SIZE), Ok(()));
        // freeing one buddy leaves it free at its own rung
        assert_eq!(rung_contents(&a, 0), vec![first]);
        assert_eq!(a.dealloc(second, MIN_FRAME_SIZE, MIN_FRAME_SIZE), Ok(()));
        // freeing the other merges the pair, cascading to one max frame
        for i in 0..NUM_RUNGS - 1 {
            assert_eq!(a.rung_count(i), 0, "rung {} must be empty after coalescing", i);
        }
        assert_eq!(rung_contents(&a, NUM_RUNGS - 1), vec![0]);
    }
}

#[test]
fn conservation_across_allocate_free_reserve() {
    let mut a = init(2 * MAX_FRAME_SIZE);
    assert_eq!(free_byte_total(&a), 2 * MAX_FRAME_SIZE);
    let p = a.allocate(100, 4).unwrap();
    // 100 bytes round up to the 128-byte rung
    assert_eq!(free_byte_total(&a), 2 * MAX_FRAME_SIZE - 128);
    let q = a.allocate(MIN_FRAME_SIZE, MIN_FRAME_SIZE).unwrap();
    assert_eq!(free_byte_total(&a), 2 * MAX_FRAME_SIZE - 128 - 16);
    assert_eq!(a.dealloc(q, MIN_FRAME_SIZE, MIN_FRAME_SIZE), Ok(()));
    assert_eq!(a.dealloc(p, 100, 4), Ok(()));
    assert_eq!(free_byte_total(&a), 2 * MAX_FRAME_SIZE);
    // reserving a straddling 16-byte-aligned range withholds whole frames
    reserve(&mut a, 8, 16);
    assert_eq!(free_byte_total(&a), 2 * MAX_FRAME_SIZE - 32);
}

#[test]
fn unmanaged_tail_is_withheld() {
    let a = init(MAX_FRAME_SIZE + 100);
    // only one whole maximum frame fits; the 100-byte tail is never free
    assert_eq!(free_byte_total(&a), MAX_FRAME_SIZE);
    assert_eq!(a.rung_count(NUM_RUNGS - 1), 1);
}

#[test]
fn allocation_is_lowest_address_first() {
    let mut a = init(2 * MAX_FRAME_SIZE);
    let p1 = a.allocate(MAX_FRAME_SIZE, MIN_FRAME_SIZE).unwrap();
    let p2 = a.allocate(MAX_FRAME_SIZE, MIN_FRAME_SIZE).unwrap();
    assert_eq!(p1, 0);
    assert_eq!(p2, MAX_FRAME_SIZE);
}

#[test]
fn allocate_error_variants() {
    let mut a = init(MAX_FRAME_SIZE);
    assert_eq!(a.allocate(0, MIN_FRAME_SIZE), Err(AllocError::ZeroSize));
    assert_eq!(a.allocate(16, 32), Err(AllocError::UnsupportedAlignment));
    assert_eq!(a.allocate(16, 3), Err(AllocError::UnsupportedAlignment));
    assert_eq!(a.allocate(16, 0), Err(AllocError::UnsupportedAlignment));
    assert_eq!(a.allocate(MAX_FRAME_SIZE + 1, 16), Err(AllocError::RequestTooLarge));
    assert_eq!(a.allocate(MAX_FRAME_SIZE, 16), Ok(0));
    assert_eq!(a.allocate(MIN_FRAME_SIZE, 16), Err(AllocError::OutOfMemory));
}

#[test]
fn allocate_honours_alignment() {
    let mut a = init(MAX_FRAME_SIZE);
    for &al in &[1usize, 2, 4, 8, 16] {
        let p = a.allocate(24, al).unwrap();
        assert_eq!(p % al, 0);
        assert_eq!(p % 32, 0, "24 bytes are served from the 32-byte rung");
        assert_eq!(a.dealloc(p, 24, al), Ok(()));
    }
}

#[test]
fn reserve_straddling_range_fragments_and_removes() {
    let mut a = init(MAX_FRAME_SIZE);
    reserve(&mut a, 8, 16);
    // the range [8, 24) is widened to [0, 32): both min frames go away
    assert_eq!(a.rung_count(0), 0);
    for i in 1..NUM_RUNGS - 1 {
        assert_eq!(rung_contents(&a, i), vec![rung_size_of(i)]);
    }
    assert_eq!(a.rung_count(NUM_RUNGS - 1), 0);
    assert_eq!(free_byte_total(&a), MAX_FRAME_SIZE - 32);
}

#[test]
fn reserve_empty_range_is_a_no_op() {
    let mut a = init(MAX_FRAME_SIZE);
    reserve(&mut a, 1234, 0);
    assert_eq!(rung_contents(&a, NUM_RUNGS - 1), vec![0]);
    assert_eq!(free_byte_total(&a), MAX_FRAME_SIZE);
}

#[test]
fn allocate_after_reserve_avoids_the_range() {
    let mut a = init(MAX_FRAME_SIZE);
    reserve(&mut a, 0, 64);
    let p = a.allocate(MIN_FRAME_SIZE, MIN_FRAME_SIZE).unwrap();
    assert!(p >= 64, "address {} lies inside the reserved range", p);
}

#[test]
fn out_of_memory_is_recoverable() {
    let mut a = init(MAX_FRAME_SIZE);
    let p = a.allocate(MAX_FRAME_SIZE, MIN_FRAME_SIZE).unwrap();
    assert_eq!(a.allocate(MIN_FRAME_SIZE, MIN_FRAME_SIZE), Err(AllocError::OutOfMemory));
    assert_eq!(a.dealloc(p, MAX_FRAME_SIZE, MIN_FRAME_SIZE), Ok(()));
    assert_eq!(a.allocate(MIN_FRAME_SIZE, MIN_FRAME_SIZE), Ok(0));
}

#[test]
fn free_frames_never_overlap() {
    let mut a = init(2 * MAX_FRAME_SIZE);
    reserve(&mut a, 40, 100);
    let p1 = a.allocate(24, 8).unwrap();
    let p2 = a.allocate(4096, 16).unwrap();
    let p3 = a.allocate(17, 1).unwrap();
    assert_eq!(a.dealloc(p2, 4096, 16), Ok(()));
    let mut ranges: Vec<(usize, usize)> = Vec::new();
    for i in 0..NUM_RUNGS {
        for f in rung_contents(&a, i) {
            ranges.push((f, f + rung_size_of(i)));
        }
    }
    for x in 0..ranges.len() {
        for y in x + 1..ranges.len() {
            let (a1, e1) = ranges[x];
            let (a2, e2) = ranges[y];
            assert!(e1 <= a2 || e2 <= a1, "free frames {:#x?} and {:#x?} overlap", ranges[x], ranges[y]);
        }
    }
    // allocated blocks intersect no free frame either
    for &(p, sz) in &[(p1, 32usize), (p3, 32usize)] {
        for &(a1, e1) in &ranges {
            assert!(e1 <= p || p + sz <= a1);
        }
    }
}
