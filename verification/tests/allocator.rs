use kern::allocator::bin;
use kern::allocator::bump;
use kern::allocator::layout::Layout;

const START: usize = 0x10_0000;

fn layout(size: usize, align: usize) -> Layout {
    Layout::new(size, align)
}

/// Makes every request of `layouts` and checks bounds, non-overlap and
/// alignment of what comes back.
fn check_layouts(
    layouts: &[Layout],
    start: usize,
    end: usize,
    allocate: &mut dyn FnMut(Layout) -> Option<usize>,
) {
    let mut pointers: Vec<(usize, Layout)> = vec![];
    for layout in layouts {
        let ptr = allocate(*layout);
        assert!(ptr.is_some());
        pointers.push((ptr.unwrap(), *layout));
    }

    for &(ptr, ref layout) in &pointers {
        assert!(ptr >= start, "allocated {:x} after start ({:x})", ptr, start);
        assert!(
            ptr + layout.size() <= end,
            "{:x} + {:x} exceeds the bounds of {:x}",
            ptr,
            layout.size(),
            end
        );
    }

    pointers.sort_by_key(|&(ptr, _)| ptr);
    for window in pointers.windows(2) {
        let (&(ptr_a, ref layout_a), &(ptr_b, _)) = (&window[0], &window[1]);
        assert!(
            ptr_b - ptr_a >= layout_a.size(),
            "memory region {:x} - {:x} does not fit {}",
            ptr_a,
            ptr_b,
            layout_a.size()
        );
    }

    for &(ptr, ref layout) in &pointers {
        assert!(
            ptr % layout.align() == 0,
            "{:x} is not aligned to {}",
            ptr,
            layout.align()
        );
    }
}

fn chosen_layouts() -> Vec<Layout> {
    vec![
        layout(16, 16),
        layout(16, 128),
        layout(16, 256),
        layout(4, 256),
        layout(1024, 16),
        layout(1024, 4),
        layout(1024, 128),
        layout(2048, 8),
        layout(2049, 8),
        layout(2050, 8),
        layout(4095, 4),
        layout(4096, 4),
        layout(4096, 4),
        layout(4096, 4096),
        layout(16, 4096),
        layout(8192, 4096),
        layout(8192, 8),
        layout(8192, 8),
    ]
}

#[test]
fn bin_exhausted() {
    let mut a = bin::Allocator::new(START, START + 128);
    let result = a.allocate(layout(1024, 128));
    assert!(result.is_none());
}

#[test]
fn bump_exhausted() {
    let mut a = bump::Allocator::new(START, START + 128);
    let result = a.allocate(layout(1024, 128));
    assert!(result.is_none());
}

#[test]
fn bin_alloc() {
    let (start, end) = (START, START + 8 * (1 << 20));
    let mut a = bin::Allocator::new(start, end);
    check_layouts(&chosen_layouts(), start, end, &mut |l| a.allocate(l));
}

#[test]
fn bump_alloc() {
    let (start, end) = (START, START + 8 * (1 << 20));
    let mut a = bump::Allocator::new(start, end);
    check_layouts(&chosen_layouts(), start, end, &mut |l| a.allocate(l));
}

#[test]
fn bin_alloc_2() {
    let (start, end) = (START, START + 16 * (1 << 20));
    let mut a = bin::Allocator::new(start, end);
    let mut layouts = vec![];
    for i in 1..1024 {
        layouts.push(layout(i * 8, 16));
    }
    check_layouts(&layouts, start, end, &mut |l| a.allocate(l));
}

#[test]
fn bump_alloc_2() {
    let (start, end) = (START, START + 16 * (1 << 20));
    let mut a = bump::Allocator::new(start, end);
    let mut layouts = vec![];
    for i in 1..1024 {
        layouts.push(layout(i * 8, 16));
    }
    check_layouts(&layouts, start, end, &mut |l| a.allocate(l));
}

#[test]
fn bin_alloc_from_an_odd_start() {
    let (start, end) = (START + 3, START + 8 * (1 << 20));
    let mut a = bin::Allocator::new(start, end);
    check_layouts(&chosen_layouts(), start, end, &mut |l| a.allocate(l));
}

#[test]
fn bump_alloc_from_an_odd_start() {
    let (start, end) = (START + 3, START + 8 * (1 << 20));
    let mut a = bump::Allocator::new(start, end);
    check_layouts(&chosen_layouts(), start, end, &mut |l| a.allocate(l));
}

#[test]
fn bin_dealloc_s() {
    let mut a = bin::Allocator::new(START, START + 4096);
    let layouts = [layout(16, 16), layout(16, 128), layout(16, 256)];

    let mut pointers: Vec<(usize, Layout)> = vec![];
    for layout in &layouts {
        let ptr = a.allocate(*layout);
        assert!(ptr.is_some());
        pointers.push((ptr.unwrap(), *layout));
    }

    for (ptr, layout) in pointers {
        a.deallocate(ptr, layout);
    }
}

#[test]
fn bump_dealloc_s() {
    let mut a = bump::Allocator::new(START, START + 4096);
    let layouts = [layout(16, 16), layout(16, 128), layout(16, 256)];

    let mut pointers: Vec<(usize, Layout)> = vec![];
    for layout in &layouts {
        let ptr = a.allocate(*layout);
        assert!(ptr.is_some());
        pointers.push((ptr.unwrap(), *layout));
    }

    for (ptr, layout) in pointers {
        a.deallocate(ptr, layout);
    }
}

#[test]
fn bin_dealloc_1() {
    let mut a = bin::Allocator::new(START, START + 65536);
    let layouts = [
        layout(16, 16),
        layout(16, 256),
        layout(32, 4),
        layout(32, 1024),
        layout(4, 1024),
        layout(4, 32),
    ];

    for (i, layout) in layouts.iter().enumerate() {
        let mut ptrs = vec![];
        for _ in 0..(25 + i * 2) {
            let ptr = a.allocate(*layout);
            assert!(ptr.is_some());
            let ptr = ptr.unwrap();
            assert!(
                ptr % layout.align() == 0,
                "{:x} is not aligned to {}",
                ptr,
                layout.align()
            );
            ptrs.push((ptr, *layout));
        }

        for (ptr, layout) in ptrs {
            a.deallocate(ptr, layout);
        }
    }

    for _ in 0..500 {
        for layout in &layouts {
            let ptr = a.allocate(*layout);
            assert!(ptr.is_some());
            let ptr = ptr.unwrap();
            assert!(
                ptr % layout.align() == 0,
                "{:x} is not aligned to {}",
                ptr,
                layout.align()
            );
            a.deallocate(ptr, *layout);
        }
    }
}

#[test]
fn bin_dealloc_2() {
    let mut a = bin::Allocator::new(START, START + 8192);
    let layouts = [layout(3072, 16), layout(512, 32)];

    for _ in 0..1000 {
        let mut ptrs = vec![];
        for layout in &layouts {
            let ptr = a.allocate(*layout);
            assert!(ptr.is_some());
            ptrs.push(ptr.unwrap());
        }

        for (layout, ptr) in layouts.iter().zip(ptrs.into_iter()) {
            a.deallocate(ptr, *layout);
        }
    }
}

#[test]
fn bin_hands_out_blocks_of_the_size_class() {
    let mut a = bin::Allocator::new(0x1000, 0x2000);
    // 16 bytes: class 1, a block of 16 bytes.
    assert_eq!(a.allocate(layout(16, 16)), Some(0x1000));
    // 17 bytes: class 2, a block of 32 bytes, at the cursor 0x1010.
    assert_eq!(a.allocate(layout(17, 1)), Some(0x1010));
    // The cursor is at 0x1030; the next multiple of 128 is 0x1080.
    assert_eq!(a.allocate(layout(16, 128)), Some(0x1080));
    // 1 byte: class 0, a block of 8 bytes, at the cursor 0x1090.
    assert_eq!(a.allocate(layout(1, 1)), Some(0x1090));
    assert_eq!(a.allocate(layout(8, 8)), Some(0x1098));
    assert_eq!(a.allocate(layout(9, 8)), Some(0x10a0));
    // 0x10b0 is taken next; a block of 2048 bytes goes to the next multiple of 2048.
    assert_eq!(a.allocate(layout(2048, 2048)), Some(0x1800));
    // The cursor is at the arena's end.
    assert_eq!(a.allocate(layout(1, 1)), None);
}

#[test]
fn bump_hands_out_exact_sizes() {
    let mut a = bump::Allocator::new(0x1000, 0x2000);
    assert_eq!(a.allocate(layout(16, 16)), Some(0x1000));
    assert_eq!(a.allocate(layout(17, 1)), Some(0x1010));
    // The cursor is at 0x1021; the next multiple of 128 is 0x1080.
    assert_eq!(a.allocate(layout(16, 128)), Some(0x1080));
    assert_eq!(a.allocate(layout(1, 1)), Some(0x1090));
    assert_eq!(a.allocate(layout(8, 8)), Some(0x1098));
    assert_eq!(a.allocate(layout(0xf60, 32)), Some(0x10a0));
    assert_eq!(a.allocate(layout(1, 1)), None);
}

#[test]
fn bin_refuses_an_alignment_that_is_no_power_of_two() {
    let mut a = bin::Allocator::new(START, START + 4096);
    assert_eq!(a.allocate(layout(16, 0)), None);
    assert_eq!(a.allocate(layout(16, 3)), None);
    assert_eq!(a.allocate(layout(16, 24)), None);
    // The refusals left the allocator as it was.
    assert_eq!(a.allocate(layout(16, 16)), Some(START));
}

#[test]
fn bump_refuses_an_alignment_that_is_no_power_of_two() {
    let mut a = bump::Allocator::new(START, START + 4096);
    assert_eq!(a.allocate(layout(16, 0)), None);
    assert_eq!(a.allocate(layout(16, 3)), None);
    assert_eq!(a.allocate(layout(16, 24)), None);
    assert_eq!(a.allocate(layout(16, 16)), Some(START));
}

#[test]
fn bin_refuses_a_size_beyond_the_last_class() {
    let mut a = bin::Allocator::new(0, usize::MAX);
    assert_eq!(a.allocate(layout((1 << 32) + 1, 8)), None);
    assert_eq!(a.allocate(layout(usize::MAX, 1)), None);
    assert_eq!(a.allocate(layout(1 << 32, 8)), Some(0));
}

#[test]
fn bin_refuses_a_block_that_does_not_fit() {
    let mut a = bin::Allocator::new(START, START + 64);
    // 33 bytes take a block of 64; a second one has no room.
    assert_eq!(a.allocate(layout(33, 1)), Some(START));
    assert_eq!(a.allocate(layout(1, 1)), None);

    // 64 bytes are there, but not behind the next multiple of 64.
    let mut b = bin::Allocator::new(START + 8, START + 72);
    assert_eq!(b.allocate(layout(64, 64)), None);
    assert_eq!(b.allocate(layout(64, 8)), Some(START + 8));
}

#[test]
fn bin_refuses_where_aligning_the_cursor_overflows() {
    let top = usize::MAX - 7;
    let mut a = bin::Allocator::new(top, usize::MAX);
    assert_eq!(a.allocate(layout(8, 16)), None);
    let mut b = bump::Allocator::new(top + 1, usize::MAX);
    assert_eq!(b.allocate(layout(1, 16)), None);
}

#[test]
fn an_empty_arena_serves_nothing() {
    let mut a = bin::Allocator::new(START, START);
    assert_eq!(a.allocate(layout(1, 1)), None);
    let mut b = bin::Allocator::new(START + 64, START);
    assert_eq!(b.allocate(layout(1, 1)), None);
    let mut c = bump::Allocator::new(START + 64, START);
    assert_eq!(c.allocate(layout(1, 1)), None);
}

#[test]
fn bin_reuses_a_freed_block() {
    let mut a = bin::Allocator::new(START, START + 4096);
    let keep = a.allocate(layout(64, 8)).unwrap();
    let first = a.allocate(layout(100, 16)).unwrap();
    a.deallocate(first, layout(100, 16));
    // Same class (128 bytes), an alignment that the block's address has.
    assert_eq!(a.allocate(layout(65, 4)), Some(first));
    a.deallocate(first, layout(65, 4));
    assert_eq!(a.allocate(layout(128, 16)), Some(first));
    assert_ne!(keep, first);
}

#[test]
fn bin_takes_the_first_free_block_that_is_aligned_as_asked() {
    let mut a = bin::Allocator::new(0x1000, 0x2000);
    let keep = a.allocate(layout(8, 8)).unwrap();
    let b1 = a.allocate(layout(16, 16)).unwrap();
    let b2 = a.allocate(layout(16, 16)).unwrap();
    let b3 = a.allocate(layout(16, 16)).unwrap();
    let b4 = a.allocate(layout(16, 64)).unwrap();
    assert_eq!((keep, b1, b2, b3, b4), (0x1000, 0x1010, 0x1020, 0x1030, 0x1040));
    a.deallocate(b4, layout(16, 64));
    a.deallocate(b1, layout(16, 16));
    a.deallocate(b2, layout(16, 16));
    a.deallocate(b3, layout(16, 16));
    // The free list holds b3, b2, b1, b4 from its head on.
    assert_eq!(a.allocate(layout(16, 32)), Some(b2));
    assert_eq!(a.allocate(layout(16, 32)), Some(b4));
    // No free block is a multiple of 128: a new one is carved out.
    assert_eq!(a.allocate(layout(16, 128)), Some(0x1080));
    assert_eq!(a.allocate(layout(16, 16)), Some(b3));
    assert_eq!(a.allocate(layout(16, 16)), Some(b1));
}

#[test]
fn bin_keeps_the_classes_apart() {
    let mut a = bin::Allocator::new(0x1000, 0x2000);
    let keep = a.allocate(layout(8, 8)).unwrap();
    let small = a.allocate(layout(16, 8)).unwrap();
    a.deallocate(small, layout(16, 8));
    // A request of another class does not get the freed block.
    let large = a.allocate(layout(32, 8)).unwrap();
    assert_ne!(large, small);
    assert_eq!(large, 0x1018);
    assert_eq!(a.allocate(layout(9, 8)), Some(small));
    assert_eq!(keep, 0x1000);
}

#[test]
fn bin_is_new_again_once_the_last_block_is_back() {
    let mut a = bin::Allocator::new(0x1008, 0x2000);
    let first = a.allocate(layout(16, 16)).unwrap();
    assert_eq!(first, 0x1010);
    a.deallocate(first, layout(16, 16));
    // Same class, and 0x1010 is a multiple of 8: but the allocator is new
    // again, and the first multiple of 8 in the arena is 0x1008.
    assert_eq!(a.allocate(layout(16, 8)), Some(0x1008));
}

#[test]
fn bin_bulk_reclaim() {
    let mut a = bin::Allocator::new(START, START + 4096);
    let layouts = [layout(16, 16), layout(128, 128), layout(256, 256)];
    for _ in 0..1000 {
        let mut ptrs = vec![];
        for layout in &layouts {
            let ptr = a.allocate(*layout);
            assert!(ptr.is_some());
            ptrs.push(ptr.unwrap());
        }
        for (layout, ptr) in layouts.iter().zip(ptrs.into_iter()) {
            a.deallocate(ptr, *layout);
        }
    }
}

#[test]
fn bump_bulk_reclaim() {
    let mut a = bump::Allocator::new(START, START + 4096);
    let layouts = [layout(16, 16), layout(128, 128), layout(256, 256)];
    for _ in 0..1000 {
        let mut ptrs = vec![];
        for layout in &layouts {
            let ptr = a.allocate(*layout);
            assert!(ptr.is_some());
            ptrs.push(ptr.unwrap());
        }
        for (layout, ptr) in layouts.iter().zip(ptrs.into_iter().rev()) {
            a.deallocate(ptr, *layout);
        }
    }
}

#[test]
fn bin_reclaims_in_any_order() {
    let layouts = [layout(1000, 8), layout(1000, 8), layout(1000, 8), layout(1000, 8)];
    let orders = [[0, 1, 2, 3], [3, 2, 1, 0], [2, 0, 3, 1], [1, 3, 0, 2]];
    for order in &orders {
        let mut a = bin::Allocator::new(START, START + 4096);
        let mut ptrs = vec![];
        for layout in &layouts {
            ptrs.push(a.allocate(*layout).unwrap());
        }
        // The arena is used up.
        assert_eq!(a.allocate(layout(1, 1)), None);
        for &i in order {
            a.deallocate(ptrs[i], layouts[i]);
        }
        // All of it is there again, also for a block of another class.
        assert_eq!(a.allocate(layout(4096, 16)), Some(START));
    }
}

#[test]
fn bump_does_not_reuse_a_single_block() {
    let mut a = bump::Allocator::new(START, START + 64);
    let first = a.allocate(layout(32, 8)).unwrap();
    let second = a.allocate(layout(32, 8)).unwrap();
    assert_eq!((first, second), (START, START + 32));
    a.deallocate(first, layout(32, 8));
    // One block is still out: the cursor stays where it is.
    assert_eq!(a.allocate(layout(32, 8)), None);
    a.deallocate(second, layout(32, 8));
    assert_eq!(a.allocate(layout(64, 8)), Some(START));
}

#[test]
fn bin_behaves_after_a_reset_as_a_new_allocator() {
    let (start, end) = (START, START + 8 * (1 << 20));
    let mut fresh = bin::Allocator::new(start, end);
    let mut used = bin::Allocator::new(start, end);
    let warmup = [layout(24, 8), layout(4096, 4096), layout(100, 64), layout(8, 8)];
    let mut ptrs = vec![];
    for l in &warmup {
        ptrs.push(used.allocate(*l).unwrap());
    }
    for (l, ptr) in warmup.iter().zip(ptrs.into_iter()) {
        used.deallocate(ptr, *l);
    }
    for l in chosen_layouts() {
        assert_eq!(used.allocate(l), fresh.allocate(l));
    }
}

#[test]
fn layout_holds_what_it_was_made_with() {
    let l = Layout::new(24, 8);
    assert_eq!(l.size(), 24);
    assert_eq!(l.align(), 8);
    assert_eq!(l, Layout { size: 24, align: 8 });
    assert_ne!(l, Layout::new(24, 16));
}
