use buddy_alloc::{Layout, SimpleAllocator, ARENA_SIZE};

#[test]
fn it_works() {
    assert_eq!(0, 0);
}

#[test]
fn bump_allocates_from_the_top_down() {
    let mut a = SimpleAllocator::init();
    assert_eq!(a.remaining, ARENA_SIZE);
    let o = a.alloc_block(Layout::from_size_align(100, 16).unwrap()).unwrap();
    assert_eq!(o, (ARENA_SIZE - 100) / 16 * 16);
    assert_eq!(a.remaining, o);
    assert_eq!(a.alloc_block(Layout::from_size_align(ARENA_SIZE, 1).unwrap()), None);
    assert_eq!(a.alloc_block(Layout::from_size_align(8, 8192).unwrap()), None);
    assert_eq!(a.remaining, o);
}

#[test]
fn lfsr_words_follow_the_register() {
    let mut g = buddy_alloc::random::srand_init(10);
    assert_eq!(g.lfsr16_get_pseudo_number(), 0xb64a_2809);
    assert_eq!(g.lfsr16_get_pseudo_number(), 0x2b1a_30a3);
    for _ in 2..buddy_alloc::random::SEQ_SIZE - 1 {
        g.lfsr16_get_pseudo_number();
    }
    assert_eq!(g.lfsr16_get_pseudo_number(), 0x8005_5551);
    assert_eq!(g.lfsr16_get_pseudo_number(), 0xb64a_2809);
    let mut h = buddy_alloc::random::lfsr16_set_seed(0xace1);
    assert_eq!(h.lfsr16_get_pseudo_number(), 0xc437_4722);
}
