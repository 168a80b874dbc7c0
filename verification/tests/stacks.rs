use kernel::memory::address::{Frame, Page, PageRange};
use kernel::memory::area_frame_allocator::{AreaFrameAllocator, MemoryArea};
use kernel::memory::page_table::{ActiveTable, EntryFlags, Invalidation, Mapping};
use kernel::memory::remap::KernelSection;
use kernel::memory::stack_allocator::StackAllocator;
use kernel::memory::{init, BootInformation, MemoryController, MemoryError};

const DATA: EntryFlags = EntryFlags { present: true, writable: true, no_execute: false };

fn allocator(first: u64, frames: u64) -> AreaFrameAllocator {
    let areas = vec![MemoryArea { start: first * 4096, end: (first + frames) * 4096 }];
    AreaFrameAllocator::new(0x8000_0000, 0x8000_0fff, 0x9000_0000, 0x9000_0fff, &areas)
}

fn stacks(first: u64, last: u64) -> StackAllocator {
    StackAllocator::new(PageRange::inclusive(Page { number: first }, Page { number: last }))
}

fn controller() -> MemoryController {
    let boot = BootInformation {
        start: 0x21_0000,
        end: 0x21_1000,
        memory_areas: vec![MemoryArea { start: 0, end: 0x9_f000 }],
        sections: vec![KernelSection {
            start: 0x20_0000,
            end: 0x20_6000,
            allocated: true,
            writable: true,
            executable: false,
        }],
    };
    init(&boot, Frame { number: 0x205 }).unwrap().0
}

#[test]
fn two_stacks_do_not_touch() {
    let mut memory = controller();
    let first = memory.allocate_stack(1).unwrap();
    let second = memory.allocate_stack(2).unwrap();
    assert_eq!(first.bottom(), 0x4001_a000);
    assert_eq!(first.top(), 0x4001_b000);
    assert_eq!(second.bottom(), 0x4001_c000);
    assert_eq!(second.top(), 0x4001_e000);
    assert!(second.bottom() > first.top());
    assert!(second.bottom() - first.top() >= 4096);
    let table = memory.active_table();
    assert_eq!(table.translate(Page { number: 0x4_0019 }), None);
    assert_eq!(table.translate(Page { number: 0x4_001b }), None);
    assert_eq!(
        table.translate(Page { number: 0x4_001a }),
        Some(Mapping { frame: Frame { number: 0x21 }, flags: DATA })
    );
    assert_eq!(
        table.translate(Page { number: 0x4_001c }),
        Some(Mapping { frame: Frame { number: 0x22 }, flags: DATA })
    );
    assert_eq!(
        table.translate(Page { number: 0x4_001d }),
        Some(Mapping { frame: Frame { number: 0x23 }, flags: DATA })
    );
    assert_eq!(table.translate(Page { number: 0x4_001e }), None);
    assert_eq!(memory.stack_range().start, Page { number: 0x4_001e });
}

#[test]
fn a_stack_of_no_pages_is_refused() {
    let mut memory = controller();
    let before = memory.stack_range();
    assert_eq!(memory.allocate_stack(0).unwrap_err(), MemoryError::EmptyStack);
    assert_eq!(memory.stack_range(), before);
    let table = memory.active_table();
    for number in 0x4_0019..0x4_007e {
        assert_eq!(table.translate(Page { number }), None);
    }
    let stack = memory.allocate_stack(1).unwrap();
    assert_eq!(stack.bottom(), 0x4001_a000);
}

#[test]
fn a_stack_names_its_pages_for_the_translation_cache() {
    let mut frames = allocator(0x100, 64);
    let mut table = ActiveTable::new(Frame { number: 7 });
    let mut range = stacks(0x1000, 0x1fff);
    let stack = range.allocate_stack(&mut table, &mut frames, 3).unwrap();
    assert_eq!(
        stack.invalidations(),
        vec![
            Invalidation::Page(Page { number: 0x1001 }),
            Invalidation::Page(Page { number: 0x1002 }),
            Invalidation::Page(Page { number: 0x1003 }),
        ]
    );
    let mut high = stacks(0x7_ffff_fffd, 0x8_0000_0010);
    let stack = high.allocate_stack(&mut table, &mut frames, 2).unwrap();
    assert_eq!(
        stack.invalidations(),
        vec![
            Invalidation::Page(Page { number: 0x7_ffff_fffe }),
            Invalidation::Page(Page { number: 0x7_ffff_ffff }),
        ]
    );
}

#[test]
fn stack_top_is_above_bottom() {
    let mut frames = allocator(0x100, 64);
    let mut table = ActiveTable::new(Frame { number: 7 });
    let mut range = stacks(0x1000, 0x1fff);
    let stack = range.allocate_stack(&mut table, &mut frames, 16).unwrap();
    assert_eq!(stack.bottom(), 0x100_1000);
    assert_eq!(stack.top(), 0x101_1000);
    assert_eq!(stack.top() - stack.bottom(), 16 * 4096);
    assert_eq!(range.remaining().start, Page { number: 0x1011 });
    assert_eq!(range.remaining().end, Page { number: 0x1fff });
}

#[test]
fn the_range_runs_out() {
    let mut frames = allocator(0x100, 64);
    let mut table = ActiveTable::new(Frame { number: 7 });
    let mut range = stacks(0x1000, 0x1002);
    assert_eq!(
        range.allocate_stack(&mut table, &mut frames, 3).unwrap_err(),
        MemoryError::StackRangeExhausted
    );
    assert_eq!(range.remaining().start, Page { number: 0x1000 });
    assert_eq!(table.translate(Page { number: 0x1001 }), None);
    assert_eq!(frames.allocate_frame(), Some(Frame { number: 0x100 }));
    assert!(range.allocate_stack(&mut table, &mut frames, 2).is_ok());
    assert_eq!(range.remaining().len(), 0);
    assert_eq!(
        range.allocate_stack(&mut table, &mut frames, 1).unwrap_err(),
        MemoryError::StackRangeExhausted
    );
}

#[test]
fn a_range_of_one_page_holds_no_stack() {
    let mut frames = allocator(0x100, 64);
    let mut table = ActiveTable::new(Frame { number: 7 });
    let mut range = stacks(0x1000, 0x1000);
    assert_eq!(
        range.allocate_stack(&mut table, &mut frames, 1).unwrap_err(),
        MemoryError::StackRangeExhausted
    );
    let mut none = stacks(0x1001, 0x1000);
    assert_eq!(
        none.allocate_stack(&mut table, &mut frames, 1).unwrap_err(),
        MemoryError::StackRangeExhausted
    );
}

#[test]
fn a_stack_that_runs_out_of_frames_leaves_nothing_mapped() {
    let mut frames = allocator(0x100, 5);
    let mut table = ActiveTable::new(Frame { number: 7 });
    let mut range = stacks(0x1000, 0x1010);
    assert_eq!(
        range.allocate_stack(&mut table, &mut frames, 3).unwrap_err(),
        MemoryError::AllocationExhausted
    );
    for number in 0x1000..0x1011 {
        assert_eq!(table.translate(Page { number }), None);
    }
    assert_eq!(range.remaining().start, Page { number: 0x1000 });
    assert_eq!(frames.allocate_frame(), None);
    let mut more = allocator(0x200, 8);
    let stack = range.allocate_stack(&mut table, &mut more, 3).unwrap();
    assert_eq!(stack.bottom(), 0x100_1000);
    assert_eq!(table.translate(Page { number: 0x1001 }).unwrap().frame, Frame { number: 0x200 });
    assert_eq!(table.translate(Page { number: 0x1003 }).unwrap().frame, Frame { number: 0x202 });
}

#[test]
fn the_guard_page_is_not_looked_at() {
    let mut frames = allocator(0x100, 64);
    let mut table = ActiveTable::new(Frame { number: 7 });
    table.map_to(Page { number: 0x1000 }, Frame { number: 0x50 }, DATA, &mut frames).unwrap();
    let mut range = stacks(0x1000, 0x1010);
    let stack = range.allocate_stack(&mut table, &mut frames, 1).unwrap();
    assert_eq!(stack.bottom(), 0x100_1000);
    assert_eq!(stack.top(), 0x100_2000);
    assert_eq!(table.translate(Page { number: 0x1000 }).unwrap().frame, Frame { number: 0x50 });
    assert_eq!(table.translate(Page { number: 0x1001 }).unwrap().frame, Frame { number: 0x103 });
    assert_eq!(range.remaining().start, Page { number: 0x1002 });
}

#[test]
fn a_mapped_stack_page_is_a_conflict() {
    let mut frames = allocator(0x100, 64);
    let mut table = ActiveTable::new(Frame { number: 7 });
    table.map_to(Page { number: 0x1002 }, Frame { number: 0x50 }, DATA, &mut frames).unwrap();
    let mut range = stacks(0x1000, 0x1010);
    assert_eq!(
        range.allocate_stack(&mut table, &mut frames, 2).unwrap_err(),
        MemoryError::MappingConflict
    );
    assert_eq!(table.translate(Page { number: 0x1001 }), None);
    assert_eq!(table.translate(Page { number: 0x1002 }).unwrap().frame, Frame { number: 0x50 });
    assert_eq!(range.remaining().start, Page { number: 0x1000 });
}

#[test]
fn a_stack_across_the_halves_of_the_address_space() {
    let mut frames = allocator(0x100, 64);
    let mut table = ActiveTable::new(Frame { number: 7 });
    let mut range = stacks(0x7_ffff_fffd, 0x8_0000_0010);
    let stack = range.allocate_stack(&mut table, &mut frames, 2).unwrap();
    assert_eq!(stack.bottom(), 0x7fff_ffff_e000);
    assert_eq!(stack.top(), 0xffff_8000_0000_0000);
    assert!(stack.top() > stack.bottom());
}
