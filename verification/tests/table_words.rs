use kernel::memory::address::{Frame, Page};
use kernel::memory::area_frame_allocator::{AreaFrameAllocator, MemoryArea};
use kernel::memory::page_table::{ActiveTable, EntryFlags};
use kernel::memory::remap::KernelSection;
use kernel::memory::table_image::EntryImage;

fn flags(present: bool, writable: bool, no_execute: bool) -> EntryFlags {
    EntryFlags { present, writable, no_execute }
}

fn allocator(first: u64, frames: u64) -> AreaFrameAllocator {
    let areas = vec![MemoryArea { start: first * 4096, end: (first + frames) * 4096 }];
    AreaFrameAllocator::new(0x8000_0000, 0x8000_0fff, 0x9000_0000, 0x9000_0fff, &areas)
}

#[test]
fn flag_bits() {
    assert_eq!(flags(false, false, false).bits(), 0);
    assert_eq!(flags(true, false, false).bits(), 1);
    assert_eq!(flags(false, true, false).bits(), 2);
    assert_eq!(flags(true, true, false).bits(), 3);
    assert_eq!(flags(false, false, true).bits(), 0x8000_0000_0000_0000);
    assert_eq!(flags(true, false, true).bits(), 0x8000_0000_0000_0001);
    assert_eq!(flags(true, true, true).bits(), 0x8000_0000_0000_0003);
    assert_eq!(EntryFlags::writable_data().bits(), 3);
}

#[test]
fn section_flags_from_bits() {
    let section = KernelSection::new(0x1000, 0x2000, 0x6);
    assert_eq!((section.start, section.end), (0x1000, 0x2000));
    assert!(section.allocated && section.executable && !section.writable);
    let section = KernelSection::new(0x1000, 0x2000, 0x3);
    assert!(section.allocated && !section.executable && section.writable);
    let section = KernelSection::new(0x1000, 0x2000, 0);
    assert!(!section.allocated && !section.executable && !section.writable);
    let section = KernelSection::new(0x1000, 0x2000, 0xf000_0001);
    assert!(!section.allocated && !section.executable && section.writable);
    let section = KernelSection::new(0x1000, 0x2000, 0xffff_ffff_ffff_fffc);
    assert!(!section.allocated && section.executable && !section.writable);
}

#[test]
fn an_empty_hierarchy_has_the_recursive_entry_only() {
    let table = ActiveTable::new(Frame { number: 7 });
    let images = table.images();
    assert_eq!(images.len(), 512);
    for (index, image) in images.iter().enumerate() {
        assert_eq!(image.table, Frame { number: 7 });
        assert_eq!(image.window, Page { number: 0xf_ffff_ffff });
        assert_eq!(image.index as usize, index);
        assert_eq!(image.word, if index == 511 { 0x7003 } else { 0 });
    }
    assert_eq!(images[0].window.start_address(), 0xffff_ffff_ffff_f000);
}

fn image(table: u64, window: Page, index: u16, word: u64) -> EntryImage {
    EntryImage { table: Frame { number: table }, window, index, word }
}

#[test]
fn images_follow_the_way_to_a_page() {
    let mut frames = allocator(0x100, 16);
    let mut table = ActiveTable::new(Frame { number: 7 });
    let page = Page { number: 0x200 };
    table.map_to(page, Frame { number: 0x345 }, flags(true, false, true), &mut frames).unwrap();
    let images = table.images();
    assert_eq!(images.len(), 4 * 512);

    let top = Page { number: 0xf_ffff_ffff };
    assert_eq!(images[0], image(7, top, 0, 0x10_0003));
    assert_eq!(images[511], image(7, top, 511, 0x7003));

    let third = Page { number: 511 * 0x800_0000 + 511 * 0x4_0000 + 511 * 512 };
    assert_eq!(third.start_address(), 0xffff_ffff_ffe0_0000);
    assert_eq!(images[512], image(0x100, third, 0, 0x10_1003));

    let second = Page { number: 511 * 0x800_0000 + 511 * 0x4_0000 };
    assert_eq!(second.start_address(), 0xffff_ffff_c000_0000);
    assert_eq!(images[1024], image(0x101, second, 0, 0));
    assert_eq!(images[1025], image(0x101, second, 1, 0x10_2003));

    let first = Page { number: 511 * 0x800_0000 + 1 };
    assert_eq!(first.start_address(), 0xffff_ff80_0000_1000);
    assert_eq!(images[1536], image(0x102, first, 0, 0x8000_0000_0034_5001));

    assert_eq!(images.iter().filter(|image| image.word != 0).count(), 5);
}

#[test]
fn images_list_tables_in_the_order_of_their_entries() {
    let mut frames = allocator(0x100, 32);
    let mut table = ActiveTable::new(Frame { number: 7 });
    let data = flags(true, true, false);
    table.map_to(Page { number: 0x800_0000 }, Frame { number: 0x50 }, data, &mut frames).unwrap();
    table.map_to(Page { number: 0 }, Frame { number: 0x51 }, data, &mut frames).unwrap();
    let images = table.images();
    assert_eq!(images.len(), 7 * 512);
    let tables: Vec<u64> = images.iter().step_by(512).map(|image| image.table.number).collect();
    assert_eq!(tables, vec![7, 0x103, 0x104, 0x105, 0x100, 0x101, 0x102]);
    assert_eq!(images[0].word, 0x10_3003);
    assert_eq!(images[1].word, 0x10_0003);
    assert_eq!(images[3 * 512].word, 0x5_1003);
    assert_eq!(images[6 * 512].word, 0x5_0003);
    assert_eq!(images[6 * 512].window, Page { number: 511 * 0x800_0000 + 0x4_0000 });
}
