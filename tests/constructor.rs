use buddy_alloc::{check, AddressSpaceRef, BuddyAllocator, MAX_SUPPORTED_ALIGN, MIN_BUDDY_NB, MIN_CELL_LEN};

// A page-aligned base address, as a statically reserved field would have.
const BASE: usize = 0x4000_0000;
const MEMORY_FIELD_SIZE: usize = 0x4000_0000;
const MIN_BUDDY_SIZE: usize = 16;
const MAX_BUDDY_SIZE: usize = 0x8000_0000;

fn attach<const M: usize>(start: usize, end: usize) -> AddressSpaceRef<M> {
    let len = end - start;
    check::<M>(len, BASE + start).expect("invalid region");
    AddressSpaceRef::<M>::from(len, BASE + start, None)
}

fn buddy<const M: usize>(start: usize, end: usize) -> BuddyAllocator<M> {
    let len = end - start;
    check::<M>(len, BASE + start).expect("invalid region");
    BuddyAllocator::<M>::new(len, BASE + start)
}

#[test]
fn buddy_minimal_mem_block() {
    drop(buddy::<MIN_CELL_LEN>(0, MIN_BUDDY_SIZE * 2));
}

#[test]
fn buddy_maximal_mem_block() {
    drop(buddy::<MIN_BUDDY_SIZE>(0, MAX_BUDDY_SIZE));
}

#[test]
fn buddy_aligned_mem_block1() {
    drop(buddy::<MIN_CELL_LEN>(MIN_BUDDY_SIZE * 2, MIN_BUDDY_SIZE * 4));
}

#[test]
fn buddy_aligned_mem_block2() {
    drop(buddy::<MIN_BUDDY_SIZE>(MIN_BUDDY_SIZE * 8, MIN_BUDDY_SIZE * 16));
}

#[test]
fn buddy_aligned_mem_block3() {
    drop(buddy::<MIN_BUDDY_SIZE>(MAX_SUPPORTED_ALIGN, MAX_SUPPORTED_ALIGN * 17));
}

#[test]
fn tests_minimal_mem_block() {
    drop(attach::<MIN_CELL_LEN>(0, MIN_CELL_LEN * MIN_BUDDY_NB));
}

#[test]
fn tests_maximal_mem_block() {
    drop(attach::<MIN_CELL_LEN>(0, MEMORY_FIELD_SIZE));
}

#[test]
fn tests_aligned_mem_block1() {
    drop(attach::<MIN_CELL_LEN>(MIN_CELL_LEN * 20, MIN_CELL_LEN * (20 + MIN_BUDDY_NB)));
}

#[test]
fn tests_aligned_mem_block2() {
    drop(attach::<MIN_CELL_LEN>(MIN_CELL_LEN * 8, MIN_CELL_LEN * 16));
}

#[test]
fn tests_aligned_mem_block3() {
    drop(attach::<MIN_CELL_LEN>(MAX_SUPPORTED_ALIGN, MAX_SUPPORTED_ALIGN * 17));
}

#[test]
fn generic_size_changed() {
    drop(attach::<{ MIN_CELL_LEN * 2 }>(0, MIN_CELL_LEN * MIN_BUDDY_NB * 2));
}

#[test]
fn check_gives_tree_length() {
    assert_eq!(check::<64>(256, BASE), Some(8));
    assert_eq!(check::<MIN_CELL_LEN>(MIN_CELL_LEN * MIN_BUDDY_NB, BASE), Some(8));
    assert_eq!(check::<MIN_CELL_LEN>(usize::MAX, BASE), Some(usize::MAX / MIN_CELL_LEN * 2));
}

#[test]
fn check_rejects_too_small_region() {
    assert_eq!(check::<MIN_CELL_LEN>(MIN_CELL_LEN, BASE), None);
}

#[test]
fn check_rejects_region_not_a_power_of_two() {
    assert_eq!(check::<MIN_CELL_LEN>(MEMORY_FIELD_SIZE + 0x1000, BASE), None);
}

#[test]
fn check_rejects_misaligned_region() {
    assert_eq!(check::<MIN_CELL_LEN>(MIN_CELL_LEN * 2, BASE + 4), None);
    assert_eq!(check::<MIN_CELL_LEN>(MIN_CELL_LEN * 8, BASE + MIN_CELL_LEN * 9), None);
    assert_eq!(
        check::<MIN_CELL_LEN>(MAX_SUPPORTED_ALIGN * 16, BASE + MAX_SUPPORTED_ALIGN / 2),
        None
    );
}

#[test]
fn check_rejects_bad_cell_sizes() {
    assert_eq!(check::<{ MIN_CELL_LEN / 2 }>(MIN_CELL_LEN * MIN_BUDDY_NB, BASE), None);
    assert_eq!(check::<MEMORY_FIELD_SIZE>(MEMORY_FIELD_SIZE, BASE), None);
    assert_eq!(check::<{ MIN_CELL_LEN / 2 * 3 }>(MEMORY_FIELD_SIZE, BASE), None);
}
