use kernel::memory::address::{Frame, Page};
use kernel::memory::area_frame_allocator::{AreaFrameAllocator, MemoryArea};
use kernel::memory::page_table::{ActiveTable, EntryFlags, Invalidation, Mapping};
use kernel::memory::MemoryError;

fn allocator(first: u64, frames: u64) -> AreaFrameAllocator {
    let areas = vec![MemoryArea { start: first * 4096, end: (first + frames) * 4096 }];
    AreaFrameAllocator::new(0x8000_0000, 0x8000_0fff, 0x9000_0000, 0x9000_0fff, &areas)
}

const DATA: EntryFlags = EntryFlags { present: true, writable: true, no_execute: false };
const CODE: EntryFlags = EntryFlags { present: true, writable: false, no_execute: false };

#[test]
fn a_new_table_maps_nothing() {
    let table = ActiveTable::new(Frame { number: 7 });
    assert_eq!(table.root_frame(), Frame { number: 7 });
    assert_eq!(table.translate(Page { number: 0 }), None);
    assert_eq!(table.translate(Page { number: 0x4_0000 }), None);
    assert_eq!(table.translate(Page { number: 0xf_ffff_ffff }), None);
}

#[test]
fn map_translate_unmap() {
    let mut frames = allocator(0x100, 16);
    let mut table = ActiveTable::new(Frame { number: 7 });
    let page = Page { number: 0x4_0000 };
    let frame = Frame { number: 0x50 };
    assert_eq!(table.map_to(page, frame, DATA, &mut frames), Ok(Invalidation::Page(page)));
    assert_eq!(table.translate(page), Some(Mapping { frame, flags: DATA }));
    assert_eq!(table.translate(Page { number: 0x4_0001 }), None);
    assert_eq!(table.unmap(page), Ok((frame, Invalidation::Page(page))));
    assert_eq!(table.translate(page), None);
    assert_eq!(table.unmap(page), Err(MemoryError::PageNotMapped));
}

#[test]
fn mapping_takes_a_frame_for_each_missing_table() {
    let mut frames = allocator(0x100, 16);
    let mut table = ActiveTable::new(Frame { number: 7 });
    table.map_to(Page { number: 0x4_0000 }, Frame { number: 0x50 }, DATA, &mut frames).unwrap();
    assert_eq!(frames.allocate_frame(), Some(Frame { number: 0x103 }));
    table.map_to(Page { number: 0x4_0001 }, Frame { number: 0x51 }, DATA, &mut frames).unwrap();
    assert_eq!(frames.allocate_frame(), Some(Frame { number: 0x104 }));
    table.map_to(Page { number: 0x4_0200 }, Frame { number: 0x52 }, DATA, &mut frames).unwrap();
    assert_eq!(frames.allocate_frame(), Some(Frame { number: 0x106 }));
    table.map_to(Page { number: 0x8_0000 }, Frame { number: 0x53 }, DATA, &mut frames).unwrap();
    assert_eq!(frames.allocate_frame(), Some(Frame { number: 0x109 }));
    table.map_to(Page { number: 0x800_0000 }, Frame { number: 0x54 }, DATA, &mut frames).unwrap();
    assert_eq!(frames.allocate_frame(), Some(Frame { number: 0x10d }));
}

#[test]
fn mapping_a_mapped_page_is_a_conflict() {
    let mut frames = allocator(0x100, 16);
    let mut table = ActiveTable::new(Frame { number: 7 });
    let page = Page { number: 0x1234 };
    table.map_to(page, Frame { number: 0x50 }, DATA, &mut frames).unwrap();
    assert_eq!(
        table.map_to(page, Frame { number: 0x60 }, CODE, &mut frames),
        Err(MemoryError::MappingConflict)
    );
    assert_eq!(table.translate(page), Some(Mapping { frame: Frame { number: 0x50 }, flags: DATA }));
    assert_eq!(frames.allocate_frame(), Some(Frame { number: 0x103 }));
}

#[test]
fn the_recursive_window_cannot_be_mapped() {
    let mut frames = allocator(0x100, 16);
    let mut table = ActiveTable::new(Frame { number: 7 });
    let first = Page { number: 511 * 0x800_0000 };
    let last = Page { number: 0xf_ffff_ffff };
    assert_eq!(
        table.map_to(first, Frame { number: 0x50 }, DATA, &mut frames),
        Err(MemoryError::MappingConflict)
    );
    assert_eq!(
        table.map_to(last, Frame { number: 0x50 }, DATA, &mut frames),
        Err(MemoryError::MappingConflict)
    );
    assert_eq!(table.translate(first), None);
    assert_eq!(frames.allocate_frame(), Some(Frame { number: 0x100 }));
    let below = Page { number: 511 * 0x800_0000 - 1 };
    assert_eq!(
        table.map_to(below, Frame { number: 0x50 }, DATA, &mut frames),
        Ok(Invalidation::Page(below))
    );
}

#[test]
fn mapping_without_frames_for_the_tables_fails() {
    let mut frames = allocator(0x100, 2);
    let mut table = ActiveTable::new(Frame { number: 7 });
    let page = Page { number: 0x4_0000 };
    assert_eq!(
        table.map_to(page, Frame { number: 0x50 }, DATA, &mut frames),
        Err(MemoryError::AllocationExhausted)
    );
    assert_eq!(table.translate(page), None);
    assert_eq!(frames.allocate_frame(), None);
}

#[test]
fn tables_made_before_the_frames_ran_out_stay() {
    let mut few = allocator(0x100, 2);
    let mut table = ActiveTable::new(Frame { number: 7 });
    let page = Page { number: 0x4_0000 };
    assert_eq!(
        table.map_to(page, Frame { number: 0x50 }, DATA, &mut few),
        Err(MemoryError::AllocationExhausted)
    );
    let mut more = allocator(0x200, 8);
    let frame = Frame { number: 0x50 };
    assert_eq!(table.map_to(page, frame, DATA, &mut more), Ok(Invalidation::Page(page)));
    assert_eq!(more.allocate_frame(), Some(Frame { number: 0x201 }));
}

#[test]
fn identity_map_maps_the_page_of_the_same_number() {
    let mut frames = allocator(0x100, 16);
    let mut table = ActiveTable::new(Frame { number: 7 });
    let frame = Frame { number: 0xb8 };
    assert_eq!(
        table.identity_map(frame, DATA, &mut frames),
        Ok(Invalidation::Page(Page { number: 0xb8 }))
    );
    assert_eq!(table.translate(Page { number: 0xb8 }), Some(Mapping { frame, flags: DATA }));
    assert_eq!(table.translate(Page { number: 0xb8 }).unwrap().frame.start_address(), 0xb8000);
}

#[test]
fn identity_map_range_maps_every_page() {
    let mut frames = allocator(0x100, 16);
    let mut table = ActiveTable::new(Frame { number: 7 });
    assert_eq!(table.identity_map_range(0x1fe, 4, CODE, &mut frames), Ok(()));
    for number in 0x1fe..0x202 {
        assert_eq!(
            table.translate(Page { number }),
            Some(Mapping { frame: Frame { number }, flags: CODE })
        );
    }
    assert_eq!(table.translate(Page { number: 0x1fd }), None);
    assert_eq!(table.translate(Page { number: 0x202 }), None);
    assert_eq!(frames.allocate_frame(), Some(Frame { number: 0x104 }));
}

#[test]
fn identity_map_range_stops_at_a_mapped_page() {
    let mut frames = allocator(0x100, 16);
    let mut table = ActiveTable::new(Frame { number: 7 });
    table.identity_map(Frame { number: 0x12 }, DATA, &mut frames).unwrap();
    assert_eq!(
        table.identity_map_range(0x10, 4, CODE, &mut frames),
        Err(MemoryError::MappingConflict)
    );
    assert_eq!(table.translate(Page { number: 0x10 }).unwrap().flags, CODE);
    assert_eq!(table.translate(Page { number: 0x11 }).unwrap().flags, CODE);
    assert_eq!(table.translate(Page { number: 0x12 }).unwrap().flags, DATA);
    assert_eq!(table.translate(Page { number: 0x13 }), None);
}

#[test]
fn map_range_takes_fresh_frames_in_order() {
    let mut frames = allocator(0x100, 16);
    let mut table = ActiveTable::new(Frame { number: 7 });
    assert_eq!(table.map_range(0x4_0000, 3, DATA, &mut frames), (Ok(()), 3));
    assert_eq!(table.translate(Page { number: 0x4_0000 }).unwrap().frame, Frame { number: 0x100 });
    assert_eq!(table.translate(Page { number: 0x4_0001 }).unwrap().frame, Frame { number: 0x104 });
    assert_eq!(table.translate(Page { number: 0x4_0002 }).unwrap().frame, Frame { number: 0x105 });
    assert_eq!(table.translate(Page { number: 0x4_0003 }), None);
}

#[test]
fn map_range_says_how_far_it_came() {
    let mut frames = allocator(0x100, 5);
    let mut table = ActiveTable::new(Frame { number: 7 });
    assert_eq!(
        table.map_range(0x4_0000, 3, DATA, &mut frames),
        (Err(MemoryError::AllocationExhausted), 2)
    );
    assert!(table.translate(Page { number: 0x4_0000 }).is_some());
    assert!(table.translate(Page { number: 0x4_0001 }).is_some());
    assert_eq!(table.translate(Page { number: 0x4_0002 }), None);
}

#[test]
fn pages_of_the_upper_half() {
    let mut frames = allocator(0x100, 16);
    let mut table = ActiveTable::new(Frame { number: 7 });
    let page = Page::containing_address(0xffff_8000_0000_0000).unwrap();
    let frame = Frame { number: 0x50 };
    assert_eq!(table.map_to(page, frame, DATA, &mut frames), Ok(Invalidation::Page(page)));
    assert_eq!(table.translate(page).unwrap().frame, Frame { number: 0x50 });
    assert_eq!(table.translate(Page { number: 0 }), None);
}
