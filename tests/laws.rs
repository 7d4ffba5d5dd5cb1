use buddy_alloc::random::srand_init;
use buddy_alloc::{AddressSpaceRef, Block, BuddyAllocator, BuddyError, InnerBuddy, Layout, ProtectedAllocator};

type Hook = fn(BuddyError);

const BASE: usize = 0x20_0000;

fn layout(size: usize, align: usize) -> Layout {
    Layout::from_size_align(size, align).unwrap()
}

fn tree(a: &ProtectedAllocator<64, Hook>) -> Vec<u8> {
    let s = a.inner_ref().space_ref();
    (0..s.metadata_len()).map(|i| s.tree_byte(i)).collect()
}

fn external(len: usize) -> ProtectedAllocator<64, Hook> {
    let space = AddressSpaceRef::<64>::from(len, BASE, Some(vec![0u8; len / 64 * 2]));
    ProtectedAllocator::new(InnerBuddy::new(space), None)
}

// Runs a fixed pseudo-random mix of allocations and frees, handing each state to `look`.
fn churn(a: &mut ProtectedAllocator<64, Hook>, steps: usize, mut look: impl FnMut(&ProtectedAllocator<64, Hook>, &[(Block, Layout)])) {
    let mut g = srand_init(7);
    let mut live: Vec<(Block, Layout)> = Vec::new();
    for _ in 0..steps {
        let w = g.lfsr16_get_pseudo_number();
        if w & 1 == 1 && !live.is_empty() {
            let (b, l) = live.remove((w as usize >> 1) % live.len());
            a.deallocate(b.offset, l).unwrap();
        } else {
            let l = layout(1 + (w as usize >> 8) % 700, 1 << ((w >> 4) % 6));
            if let Ok(b) = a.allocate(l) {
                live.push((b, l));
            }
        }
        look(a, &live);
    }
}

#[test]
fn root_byte_stays_in_range() {
    let max_order: u8 = 6; // 4096 bytes in cells of 64
    let mut a = external(4096);
    let _ = a.allocate(layout(1, 1));
    churn(&mut a, 400, |a, _| {
        let t = tree(a);
        assert!(t[1] <= max_order + 1 || t[1] == 0x80 | (max_order + 1));
    });
    // with every cell taken the root holds one past the cells' order
    let mut full = external(256);
    for _ in 0..4 {
        full.allocate(layout(64, 1)).unwrap();
    }
    assert_eq!(tree(&full)[1], 3);
}

#[test]
fn free_nodes_agree_with_their_children() {
    let mut a = external(4096);
    churn(&mut a, 300, |a, _| {
        let t = tree(a);
        for i in 1..64usize {
            if t[i] & 0x80 != 0 {
                continue;
            }
            let depth = (usize::BITS - 1 - i.leading_zeros()) as u8;
            let (l, r) = (t[2 * i], t[2 * i + 1]);
            if l == depth + 1 && r == depth + 1 {
                assert_eq!(t[i], depth);
            } else {
                assert_eq!(t[i] & 0x7f, (l & 0x7f).min(r & 0x7f));
            }
        }
    });
}

#[test]
fn returned_blocks_never_overlap() {
    let mut a = ProtectedAllocator::<64, Hook>::new(BuddyAllocator::<64>::new(1 << 14, BASE).0, None);
    churn(&mut a, 500, |_, live| {
        for (i, (x, _)) in live.iter().enumerate() {
            assert!(x.offset >= 2 * (1 << 14) / 64 && x.offset + x.len <= 1 << 14);
            for (y, _) in &live[i + 1..] {
                assert!(x.offset + x.len <= y.offset || y.offset + y.len <= x.offset);
            }
        }
    });
}

#[test]
fn alloc_then_free_restores_the_tree() {
    let mut a = external(4096);
    let _keep = a.allocate(layout(300, 1)).unwrap();
    let before = tree(&a);
    let l = layout(100, 32);
    let b = a.allocate(l).unwrap();
    assert_ne!(tree(&a), before);
    a.deallocate(b.offset, l).unwrap();
    assert_eq!(tree(&a), before);
}

#[test]
fn whole_arena_alloc_free_restores_root() {
    let mut a = external(4096);
    let l = layout(4096, 1);
    let b = a.allocate(l).unwrap();
    assert_eq!(tree(&a)[1], 0x80 | 7);
    a.deallocate(b.offset, l).unwrap();
    assert_eq!(tree(&a)[1], 0);
}

#[test]
fn separate_tree_buffer_is_the_tree() {
    let mut buf = vec![0u8; 4096 / 64 * 2];
    buf[0] = 0x11;
    buf[5] = 0x77;
    let space = AddressSpaceRef::<64>::from(4096, BASE, Some(buf));
    assert_eq!(space.metadata_len(), 128);
    assert_eq!(space.tree_byte(0), 0x42);
    assert_eq!(space.tree_byte(5), 0x77);
    let fresh = AddressSpaceRef::<64>::from(4096, BASE, None);
    assert_eq!(fresh.tree_byte(0), 0x42);
    assert!((1..fresh.metadata_len()).all(|i| fresh.tree_byte(i) == 0));
}
