use kernel::memory::address::Frame;
use kernel::memory::area_frame_allocator::{AreaFrameAllocator, MemoryArea};

fn numbers(allocator: &mut AreaFrameAllocator, limit: usize) -> Vec<u64> {
    let mut out = Vec::new();
    for _ in 0..limit {
        match allocator.allocate_frame() {
            Some(frame) => out.push(frame.number),
            None => break,
        }
    }
    out
}

#[test]
fn two_slots_then_exhaustion() {
    let areas = vec![MemoryArea { start: 0x1000, end: 0x3000 }];
    let mut allocator = AreaFrameAllocator::new(0x10_0000, 0x1f_ffff, 0x30_0000, 0x30_0fff, &areas);
    assert_eq!(allocator.allocate_frame(), Some(Frame { number: 1 }));
    assert_eq!(allocator.allocate_frame(), Some(Frame { number: 2 }));
    assert_eq!(allocator.allocate_frame(), None);
}

#[test]
fn exhaustion_is_terminal() {
    let areas = vec![MemoryArea { start: 0x1000, end: 0x2000 }];
    let mut allocator = AreaFrameAllocator::new(0x10_0000, 0x1f_ffff, 0x30_0000, 0x30_0fff, &areas);
    assert_eq!(allocator.allocate_frame(), Some(Frame { number: 1 }));
    for _ in 0..5 {
        assert_eq!(allocator.allocate_frame(), None);
    }
}

#[test]
fn frame_zero_is_never_handed_out() {
    let areas = vec![MemoryArea { start: 0, end: 0x3000 }];
    let mut allocator = AreaFrameAllocator::new(0x10_0000, 0x1f_ffff, 0x30_0000, 0x30_0fff, &areas);
    assert_eq!(numbers(&mut allocator, 10), vec![1, 2]);
}

#[test]
fn kernel_and_boot_information_are_spared() {
    let areas = vec![MemoryArea { start: 0x1000, end: 0x1_0000 }];
    let mut allocator = AreaFrameAllocator::new(0x3000, 0x5fff, 0x8000, 0x8fff, &areas);
    assert_eq!(numbers(&mut allocator, 100), vec![1, 2, 6, 7, 9, 10, 11, 12, 13, 14, 15]);
}

#[test]
fn frames_ascend_and_differ() {
    let areas = vec![
        MemoryArea { start: 0x9000, end: 0xc000 },
        MemoryArea { start: 0x1000, end: 0x4000 },
        MemoryArea { start: 0x2000, end: 0x6000 },
    ];
    let mut allocator = AreaFrameAllocator::new(0x4000, 0x4fff, 0xa000, 0xa7ff, &areas);
    let got = numbers(&mut allocator, 100);
    assert_eq!(got, vec![1, 2, 3, 5, 9, 11]);
    for pair in got.windows(2) {
        assert!(pair[0] < pair[1]);
    }
}

#[test]
fn areas_in_any_order_lowest_first() {
    let areas = vec![
        MemoryArea { start: 0x5000, end: 0x7000 },
        MemoryArea { start: 0x1000, end: 0x3000 },
    ];
    let mut allocator = AreaFrameAllocator::new(0x10_0000, 0x1f_ffff, 0x30_0000, 0x30_0fff, &areas);
    assert_eq!(numbers(&mut allocator, 10), vec![1, 2, 5, 6]);
}

#[test]
fn an_area_ends_in_the_frame_of_its_last_byte() {
    let areas = vec![MemoryArea { start: 0x1800, end: 0x2001 }];
    let mut allocator = AreaFrameAllocator::new(0x10_0000, 0x1f_ffff, 0x30_0000, 0x30_0fff, &areas);
    assert_eq!(numbers(&mut allocator, 10), vec![1, 2]);
}

#[test]
fn kernel_end_past_the_area() {
    let areas = vec![
        MemoryArea { start: 0x1000, end: 0x4000 },
        MemoryArea { start: 0x8000, end: 0xa000 },
    ];
    let mut allocator = AreaFrameAllocator::new(0x2000, 0x8fff, 0x30_0000, 0x30_0fff, &areas);
    assert_eq!(numbers(&mut allocator, 10), vec![1, 9]);
}

#[test]
fn no_areas_no_frames() {
    let mut allocator = AreaFrameAllocator::new(0x1000, 0x1fff, 0x2000, 0x2fff, &[]);
    assert_eq!(allocator.allocate_frame(), None);
}

#[test]
fn the_last_frame_of_physical_memory() {
    let areas = vec![MemoryArea { start: 0xf_ffff_ffff_e000, end: 0x10_0000_0000_0000 }];
    let mut allocator = AreaFrameAllocator::new(0x1000, 0x1fff, 0x2000, 0x2fff, &areas);
    assert_eq!(numbers(&mut allocator, 10), vec![0xff_ffff_fffe, 0xff_ffff_ffff]);
}

#[test]
fn areas_that_start_together() {
    let areas = vec![
        MemoryArea { start: 0x3000, end: 0x4000 },
        MemoryArea { start: 0x1000, end: 0x2000 },
        MemoryArea { start: 0x1000, end: 0x6000 },
    ];
    let mut allocator = AreaFrameAllocator::new(0x10_0000, 0x1f_ffff, 0x30_0000, 0x30_0fff, &areas);
    assert_eq!(numbers(&mut allocator, 10), vec![1, 2, 3, 4, 5]);
}

#[test]
fn an_area_that_ends_before_it_starts_holds_nothing() {
    let areas = vec![
        MemoryArea { start: 0x5000, end: 0x3000 },
        MemoryArea { start: 0x8000, end: 0x9000 },
    ];
    let mut allocator = AreaFrameAllocator::new(0x10_0000, 0x1f_ffff, 0x30_0000, 0x30_0fff, &areas);
    assert_eq!(numbers(&mut allocator, 10), vec![8]);
}
