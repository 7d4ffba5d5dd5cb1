use buddy_alloc::{BuddyError, BuddySize, Layout, Order, MAX_SUPPORTED_ALIGN, MIN_CELL_LEN};

const MIN_BUDDY_SIZE: usize = 16;

#[test]
fn buddy_normal() {
    [
        (4, 4, 16),
        (16, 16, 16),
        (4, 16, 16),
        (0, 1, 16),
        (0, 32, 32),
        (1, 1, 16),
        (1, 32, 32),
        (30, 16, 32),
        (17, 16, 32),
        (96, 16, 128),
        (513, 16, 1024),
        (5000, 64, 8192),
        (0x4000_0010, 4096, 0x8000_0000),
    ]
    .into_iter()
    .for_each(|(size, align, buddy_size)| {
        let layout = Layout::from_size_align(size, align)
            .expect(format!("size {} align {}", size, align).as_str());
        assert_eq!(
            BuddySize::<MIN_BUDDY_SIZE>::try_from(layout).unwrap().0,
            BuddySize::<MIN_BUDDY_SIZE>(buddy_size).0,
            "size {} align {} resulut {}",
            size,
            align,
            buddy_size
        );
    });
    [
        (64, 64, 0),
        (32, 64, 1),
        (16, 64, 2),
        (16, 1024, 6),
        (32, 1024, 5),
        (1024, 4096, 2),
        (2048, 4096, 1),
        (4096, 4096, 0),
    ]
    .into_iter()
    .for_each(|(curr, max, order)| {
        assert_eq!(
            Order::try_from((BuddySize::<MIN_BUDDY_SIZE>(curr), BuddySize::<MIN_BUDDY_SIZE>(max)))
                .unwrap()
                .0,
            order,
            "curr {} max {} order {}",
            curr,
            max,
            order
        );
    });
}

#[test]
fn tests_normal() {
    [
        (MIN_CELL_LEN / 4, MIN_CELL_LEN / 4, MIN_CELL_LEN),
        (MIN_CELL_LEN, MIN_CELL_LEN, MIN_CELL_LEN),
        (MIN_CELL_LEN / 4, MIN_CELL_LEN, MIN_CELL_LEN),
        (0, MIN_CELL_LEN, MIN_CELL_LEN),
        (0, MIN_CELL_LEN * 2, MIN_CELL_LEN * 2),
        (1, 1, MIN_CELL_LEN),
        (1, MIN_CELL_LEN * 2, MIN_CELL_LEN * 2),
        (MIN_CELL_LEN * 2 - 2, MIN_CELL_LEN, MIN_CELL_LEN * 2),
        (MIN_CELL_LEN + 1, MIN_CELL_LEN, MIN_CELL_LEN * 2),
        (MIN_CELL_LEN * 8, MIN_CELL_LEN, MIN_CELL_LEN * 8),
        (MIN_CELL_LEN * 32 + 1, MIN_CELL_LEN, MIN_CELL_LEN * 64),
        (MIN_CELL_LEN * 257, MIN_CELL_LEN, MIN_CELL_LEN * 512),
        (usize::MAX / 4 + 1, MAX_SUPPORTED_ALIGN, usize::MAX / 4 + 1),
    ]
    .into_iter()
    .for_each(|(size, align, buddy_size)| {
        let layout = Layout::from_size_align(size, align)
            .expect(format!("size {} align {}", size, align).as_str());
        assert_eq!(
            BuddySize::<MIN_CELL_LEN>::try_from(layout).unwrap().0,
            BuddySize::<MIN_CELL_LEN>(buddy_size).0,
            "size {} align {} resulut {}",
            size,
            align,
            buddy_size
        );
    });
    [
        (MIN_CELL_LEN, MIN_CELL_LEN, 0),
        (MIN_CELL_LEN * 2, MIN_CELL_LEN * 4, 1),
        (MIN_CELL_LEN * 4, MIN_CELL_LEN * 16, 2),
        (MIN_CELL_LEN, MIN_CELL_LEN * 64, 6),
        (MIN_CELL_LEN * 2, MIN_CELL_LEN * 64, 5),
        (MIN_CELL_LEN * 64, MIN_CELL_LEN * 256, 2),
        (MIN_CELL_LEN * 128, MIN_CELL_LEN * 256, 1),
        (MIN_CELL_LEN * 256, MIN_CELL_LEN * 256, 0),
    ]
    .into_iter()
    .for_each(|(curr, max, order)| {
        assert_eq!(
            Order::try_from((BuddySize::<MIN_CELL_LEN>(curr), BuddySize::<MIN_CELL_LEN>(max)))
                .expect(&format!("curr {} max {}", curr, max))
                .0,
            order,
            "curr {} max {} order {}",
            curr,
            max,
            order
        );
    });
}

#[test]
fn unsupported_align_gives_too_big_alignment() {
    let layout = Layout::from_size_align(64, MAX_SUPPORTED_ALIGN * 2).unwrap();
    assert!(matches!(
        BuddySize::<MIN_CELL_LEN>::try_from(layout),
        Err(BuddyError::TooBigAlignment)
    ));
}

#[test]
fn oversized_request_gives_too_big_size() {
    let layout = Layout::from_size_align(usize::MAX - 0x1000_0000, MAX_SUPPORTED_ALIGN);
    assert!(layout.is_none());
    let layout = Layout::from_size_align(usize::MAX / 4 + 2, 1).unwrap();
    assert!(matches!(
        BuddySize::<MIN_CELL_LEN>::try_from(layout),
        Err(BuddyError::TooBigSize)
    ));
}

#[test]
fn block_larger_than_arena_cannot_fit() {
    let r = Order::try_from((BuddySize::<MIN_CELL_LEN>(MIN_CELL_LEN * 8), BuddySize::<MIN_CELL_LEN>(MIN_CELL_LEN * 4)));
    assert!(matches!(r, Err(BuddyError::CannotFit)));
}

#[test]
fn whole_address_space_counts_as_two_to_the_word_width() {
    let r = Order::try_from((BuddySize::<MIN_CELL_LEN>(usize::MAX / 4 + 1), BuddySize::<MIN_CELL_LEN>(usize::MAX)));
    assert_eq!(r.unwrap().0, 2);
}

#[test]
fn layout_rejects_bad_alignment() {
    assert!(Layout::from_size_align(8, 0).is_none());
    assert!(Layout::from_size_align(8, 3).is_none());
    let l = Layout::from_size_align(24, 8).unwrap();
    assert_eq!(l.size(), 24);
    assert_eq!(l.align(), 8);
}

#[test]
fn error_descriptions() {
    assert_eq!(BuddyError::TooBigSize.as_str(), "Bad size");
    assert_eq!(BuddyError::DoubleFreeOrCorruption.as_str(), "Double Free or corruption");
    assert!(!BuddyError::Unsupported.as_str().is_empty());
}
