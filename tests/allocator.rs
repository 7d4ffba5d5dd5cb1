use buddy_alloc::random::{srand_init, LfsrFibonnaci};
use buddy_alloc::{
    static_attach, static_init, AddressSpaceRef, Block, BuddyAllocator, BuddyError, InnerBuddy,
    Layout, ProtectedAllocator, StaticAddressSpace, ThreadSafeAllocator, MAX_SUPPORTED_ALIGN,
    MIN_BUDDY_NB,
};

type Hook = fn(BuddyError);

// A page-aligned base address for the arenas.
const BASE: usize = 0x10_0000;

fn self_hosted<const M: usize>(len: usize) -> ProtectedAllocator<M, Hook> {
    ProtectedAllocator::new(BuddyAllocator::<M>::new(len, BASE).0, None)
}

fn external<const M: usize>(len: usize) -> ProtectedAllocator<M, Hook> {
    let space = AddressSpaceRef::<M>::from(len, BASE, Some(vec![0u8; len / M * 2]));
    ProtectedAllocator::new(InnerBuddy::new(space), None)
}

fn layout(size: usize, align: usize) -> Layout {
    Layout::from_size_align(size, align).unwrap()
}

fn overlaps(a: &Block, b: &Block) -> bool {
    a.offset < b.offset + b.len && b.offset < a.offset + a.len
}

#[test]
fn fill_and_empty() {
    let mut alloc = ThreadSafeAllocator::new(self_hosted::<64>(256));
    let mut v = Vec::new();
    for _ in 0..3 {
        v.push(alloc.allocate(layout(64, 1)).expect("AError"));
    }
    if let Ok(_) = alloc.allocate(layout(64, 1)) {
        panic!("Should not allocate again");
    }
    for b in v.drain(..) {
        alloc.deallocate(b.offset, layout(64, 1)).unwrap();
    }
    if let Err(_) = alloc.allocate(layout(128, 1)) {
        panic!("Allocation error");
    }
}

#[test]
fn minimal() {
    const MIN_CELL_LEN: usize = 64;
    let mut alloc = ThreadSafeAllocator::new(self_hosted::<MIN_CELL_LEN>(MIN_CELL_LEN * MIN_BUDDY_NB));
    let mut v = Vec::new();
    for _i in 0..3 {
        let b = alloc.allocate(layout(MIN_CELL_LEN, 1));
        if let Err(_) = &b {
            panic!("Should be done");
        }
        v.push(b);
    }
    let g = alloc.allocate(layout(MIN_CELL_LEN, 1));
    if let Ok(_v) = &g {
        panic!("Should Fail");
    }
}

#[test]
fn minimal_with_other_generic() {
    const MIN_CELL_LEN: usize = 64;
    let mut alloc = ThreadSafeAllocator::new(self_hosted::<{ MIN_CELL_LEN * 2 }>(
        MIN_CELL_LEN * MIN_BUDDY_NB * 2,
    ));
    let mut v = Vec::new();
    for _i in 0..3 {
        let b = alloc.allocate(layout(MIN_CELL_LEN * 2, 1));
        if let Err(_) = &b {
            panic!("Should be done");
        }
        v.push(b);
    }
    let g = alloc.allocate(layout(MIN_CELL_LEN * 2, 1));
    if let Ok(_v) = &g {
        panic!("Should Fail");
    }
}

// Draws in the shapes that the stress runs use, from the library's shift register.
struct Lfsr(LfsrFibonnaci);

impl Lfsr {
    fn next(&mut self) -> u32 {
        self.0.lfsr16_get_pseudo_number()
    }
    fn bool(&mut self) -> bool {
        self.next() & 0b1 == 1
    }
    fn usize(&mut self, max: usize) -> usize {
        let t = self.next();
        (t as f32 / usize::MAX as f32 * max as f32).round() as usize
    }
    fn u8(&mut self, max: u8) -> u8 {
        let t = self.next();
        (t as f32 / u32::MAX as f32 * max as f32).round() as u8
    }
}

const NB_TESTS: usize = 4096;
const MO: usize = 1024 * 1024;
const CHUNK_SIZE: usize = MO * 16;
const ALLOC_SIZE: &[usize] = &[64, 128, 256, 512, 1024, 2048, 4096];

struct Entry {
    block: Block,
    size: usize,
    data: u8,
}

fn repeat_test(alloc: &mut ThreadSafeAllocator<64, Hook>, memory: &mut [u8], rng: &mut Lfsr) {
    let mut v: Vec<Entry> = Vec::new();
    for _ in 0..NB_TESTS {
        if rng.bool() && v.len() > 200 {
            let idx = rng.usize(v.len() - 1);
            let entry = v.remove(idx);
            for s in &memory[entry.block.offset..entry.block.offset + entry.size] {
                if *s != entry.data {
                    panic!("Corrupted Memory...");
                }
            }
            alloc.deallocate(entry.block.offset, layout(entry.size, 1)).unwrap();
        } else {
            let size = ALLOC_SIZE[rng.usize(ALLOC_SIZE.len() - 1)];
            let data = rng.u8(u8::MAX);
            let block = alloc.allocate(layout(size, 1)).unwrap();
            assert!(block.len >= size);
            for e in &v {
                assert!(!overlaps(&e.block, &block));
            }
            for s in &mut memory[block.offset..block.offset + size] {
                *s = data;
            }
            v.push(Entry { block, size, data });
        }
    }
    for entry in v.drain(..) {
        for s in &memory[entry.block.offset..entry.block.offset + entry.size] {
            if *s != entry.data {
                panic!("Corrupted Memory...");
            }
        }
        alloc.deallocate(entry.block.offset, layout(entry.size, 1)).unwrap();
    }
}

fn final_test(alloc: &mut ThreadSafeAllocator<64, Hook>) {
    let b = alloc.allocate(layout(MO * 6, 1)).unwrap();
    assert_eq!(b.len, MO * 8);
    let out = alloc.allocate(layout(MO * 12, 1));
    if let Ok(_) = &out {
        panic!("This allocation is impossible");
    }
    assert_eq!(alloc.allocate(layout(MO * 6, 1)).unwrap_err(), BuddyError::NoMoreSpace);
}

fn log_error(_e: BuddyError) {}

#[test]
fn memory_sodomizer() {
    let mut rng = Lfsr(srand_init(10));
    let mut memory = vec![0u8; CHUNK_SIZE];
    for _ in 0..4 {
        let inner = BuddyAllocator::<64>::new(CHUNK_SIZE, BASE).0;
        let mut alloc = ThreadSafeAllocator::new(ProtectedAllocator::new(inner, Some(log_error as Hook)));
        repeat_test(&mut alloc, &mut memory, &mut rng);
        final_test(&mut alloc);
    }
}

#[test]
fn three_cells_then_no_more_space() {
    let mut a = self_hosted::<64>(256);
    let b1 = a.allocate(layout(64, 64)).unwrap();
    let b2 = a.allocate(layout(64, 64)).unwrap();
    let b3 = a.allocate(layout(64, 64)).unwrap();
    assert_eq!((b1.offset, b2.offset, b3.offset), (64, 128, 192));
    assert!(!overlaps(&b1, &b2) && !overlaps(&b2, &b3) && !overlaps(&b1, &b3));
    assert_eq!(a.allocate(layout(64, 64)).unwrap_err(), BuddyError::NoMoreSpace);
    for b in [b1, b2, b3] {
        a.deallocate(b.offset, layout(64, 64)).unwrap();
    }
    let b = a.allocate(layout(128, 1)).unwrap();
    assert_eq!(b, Block { offset: 128, len: 128 });
    assert_eq!(b.offset % 128, 0);
}

#[test]
fn size_zero_is_one_cell() {
    let mut a = self_hosted::<64>(256);
    assert_eq!(a.allocate(layout(0, 64)).unwrap(), Block { offset: 64, len: 64 });
}

#[test]
fn size_rounds_up_to_next_power_of_two() {
    let mut a = self_hosted::<64>(256);
    assert_eq!(a.allocate(layout(65, 1)).unwrap(), Block { offset: 128, len: 128 });
}

#[test]
fn smallest_arena_smallest_request() {
    const M: usize = 8;
    let mut a = self_hosted::<M>(M * MIN_BUDDY_NB);
    let offsets: Vec<usize> = (0..3).map(|_| a.allocate(layout(1, 1)).unwrap().offset).collect();
    assert_eq!(offsets, vec![8, 16, 24]);
    assert_eq!(a.allocate(layout(1, 1)).unwrap_err(), BuddyError::NoMoreSpace);
}

#[test]
fn whole_arena_with_external_tree() {
    let mut a = external::<64>(4096);
    let b = a.allocate(layout(4096, 1)).unwrap();
    assert_eq!(b, Block { offset: 0, len: 4096 });
    assert_eq!(a.allocate(layout(64, 1)).unwrap_err(), BuddyError::NoMoreSpace);
    a.deallocate(b.offset, layout(4096, 1)).unwrap();
    assert_eq!(a.allocate(layout(4096, 1)).unwrap(), Block { offset: 0, len: 4096 });
}

#[test]
fn whole_arena_with_tree_inside_cannot_be_had() {
    let mut a = self_hosted::<64>(4096);
    assert_eq!(a.allocate(layout(4096, 1)).unwrap_err(), BuddyError::NoMoreSpace);
}

#[test]
fn over_alignment_is_refused() {
    let mut a = external::<64>(4096);
    assert_eq!(
        a.allocate(layout(64, MAX_SUPPORTED_ALIGN * 2)).unwrap_err(),
        BuddyError::TooBigAlignment
    );
}

#[test]
fn oversized_request_is_refused() {
    let mut a = external::<64>(4096);
    assert_eq!(a.allocate(layout(usize::MAX / 4 + 2, 1)).unwrap_err(), BuddyError::TooBigSize);
}

#[test]
fn request_above_arena_cannot_fit() {
    let mut a = external::<64>(4096);
    assert_eq!(a.allocate(layout(8192, 1)).unwrap_err(), BuddyError::CannotFit);
}

#[test]
fn double_free_is_detected() {
    let mut a = external::<64>(4096);
    let b = a.allocate(layout(100, 1)).unwrap();
    a.deallocate(b.offset, layout(100, 1)).unwrap();
    assert_eq!(
        a.deallocate(b.offset, layout(100, 1)).unwrap_err(),
        BuddyError::DoubleFreeOrCorruption
    );
}

#[test]
fn freeing_the_tree_or_outside_the_arena_is_refused() {
    let mut a = self_hosted::<64>(4096);
    let _ = a.allocate(layout(64, 1)).unwrap();
    assert_eq!(a.deallocate(0, layout(128, 1)).unwrap_err(), BuddyError::DoubleFreeOrCorruption);
    assert_eq!(a.deallocate(4096, layout(64, 1)).unwrap_err(), BuddyError::DoubleFreeOrCorruption);
}

#[test]
fn alloc_then_free_gives_the_same_block_again() {
    let mut a = self_hosted::<64>(4096);
    let keep = a.allocate(layout(192, 1)).unwrap();
    let b = a.allocate(layout(64, 8)).unwrap();
    a.deallocate(b.offset, layout(64, 8)).unwrap();
    assert_eq!(a.allocate(layout(64, 8)).unwrap(), b);
    assert_ne!(keep.offset, b.offset);
}

#[test]
fn leftmost_block_is_chosen() {
    let mut a = external::<64>(1024);
    let b0 = a.allocate(layout(64, 1)).unwrap();
    let b1 = a.allocate(layout(128, 1)).unwrap();
    let b2 = a.allocate(layout(64, 1)).unwrap();
    assert_eq!((b0.offset, b1.offset, b2.offset), (0, 128, 64));
    a.deallocate(b0.offset, layout(64, 1)).unwrap();
    assert_eq!(a.allocate(layout(32, 1)).unwrap().offset, 0);
}

#[test]
fn blocks_are_aligned_as_asked() {
    let mut a = self_hosted::<64>(1 << 16);
    for align in [1usize, 8, 64, 512, 4096] {
        let b = a.allocate(layout(100, align)).unwrap();
        assert_eq!((BASE + b.offset) % align, 0);
        assert!(b.offset >= 2 * (1 << 16) / 64);
        assert!(b.offset + b.len <= 1 << 16);
    }
}

#[test]
fn reserved_operations_are_unsupported() {
    let mut a = ThreadSafeAllocator::new(external::<64>(4096));
    let l = layout(64, 1);
    assert_eq!(a.shrink(0, l, l).unwrap_err(), BuddyError::Unsupported);
    assert_eq!(a.grow(0, l, l, false).unwrap_err(), BuddyError::Unsupported);
    assert_eq!(a.reserve(0, 64).unwrap_err(), BuddyError::Unsupported);
    assert_eq!(a.unreserve(0).unwrap_err(), BuddyError::Unsupported);
    assert_eq!(a.allocate(l).unwrap().offset, 0);
}

#[test]
fn hook_hears_of_errors() {
    let seen = std::cell::Cell::new(0usize);
    let mut a = ProtectedAllocator::new(
        BuddyAllocator::<64>::new(256, BASE).0,
        Some(|_e: BuddyError| seen.set(seen.get() + 1)),
    );
    let _ = a.allocate(layout(256, 1));
    let _ = a.alloc_block(layout(256, 1));
    drop(a);
    assert_eq!(seen.get(), 1);
}

#[test]
fn static_space_is_written_on_first_use() {
    let space = StaticAddressSpace::<4096, 64>::new();
    let mut attached = static_attach(AddressSpaceRef::from_static(space, BASE));
    assert_eq!(attached.alloc_block(layout(4096, 1)).unwrap(), Block { offset: 0, len: 4096 });
    let mut early = AddressSpaceRef::<64>::from(4096, BASE, None);
    static_init(&mut early);
    let mut inner = InnerBuddy::new(early);
    assert_eq!(inner.alloc_block(layout(64, 1)).unwrap().offset, 128);
    assert_eq!(inner.reserve(0, 1).unwrap_err(), BuddyError::Unsupported);
    assert_eq!(inner.unreserve(0).unwrap_err(), BuddyError::Unsupported);
}
