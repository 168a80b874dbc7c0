use kernel::interrupts::{
    init as interrupts_init, InterruptIndex, DOUBLE_FAULT_IST_INDEX, PIC_1_OFFSET, PIC_2_OFFSET,
};
use kernel::memory::address::{Frame, Page};
use kernel::memory::area_frame_allocator::MemoryArea;
use kernel::memory::remap::KernelSection;
use kernel::memory::{init, kernel_bounds, BootInformation};

fn section(start: u64, end: u64, allocated: bool) -> KernelSection {
    KernelSection { start, end, allocated, writable: true, executable: false }
}

#[test]
fn interrupt_numbers() {
    assert_eq!(PIC_1_OFFSET, 32);
    assert_eq!(PIC_2_OFFSET, 40);
    assert_eq!(DOUBLE_FAULT_IST_INDEX, 0);
    assert_eq!(InterruptIndex::Timer.as_u8(), 32);
    assert_eq!(InterruptIndex::Keyboard.as_u8(), 33);
    assert_eq!(InterruptIndex::Timer.as_usize(), 32);
    assert_eq!(InterruptIndex::Keyboard.as_usize(), 33);
}

#[test]
fn the_double_fault_stack_has_two_pages() {
    let boot = BootInformation {
        start: 0x21_0000,
        end: 0x21_1000,
        memory_areas: vec![MemoryArea { start: 0, end: 0x9_f000 }],
        sections: vec![section(0x20_0000, 0x20_6000, true)],
    };
    let (mut memory, _) = init(&boot, Frame { number: 0x205 }).unwrap();
    let stack = interrupts_init(&mut memory).unwrap();
    assert_eq!(stack.bottom(), 0x4001_a000);
    assert_eq!(stack.top(), 0x4001_c000);
    let table = memory.active_table();
    assert_eq!(table.translate(Page { number: 0x4_0019 }), None);
    assert!(table.translate(Page { number: 0x4_001a }).is_some());
    assert!(table.translate(Page { number: 0x4_001b }).is_some());
    assert_eq!(table.translate(Page { number: 0x4_001c }), None);
    assert_eq!(memory.stack_range().start, Page { number: 0x4_001c });
}

#[test]
fn kernel_bounds_span_the_loaded_sections() {
    let sections = vec![
        section(0x1000, 0x9_0000, false),
        section(0x20_3000, 0x20_4000, true),
        section(0x20_0000, 0x20_1000, true),
        section(0x20_4000, 0x20_9000, true),
        section(0x30_0000, 0x40_0000, false),
        section(0x20_1000, 0x20_3000, true),
    ];
    assert_eq!(kernel_bounds(&sections), (0x20_0000, 0x20_9000));
    assert_eq!(kernel_bounds(&vec![section(7, 3, true)]), (7, 3));
}

#[test]
fn a_report_is_valid_if_its_addresses_are() {
    let good = BootInformation {
        start: 0x21_0000,
        end: 0x21_1000,
        memory_areas: vec![MemoryArea { start: 0, end: 0x10_0000_0000_0000 }],
        sections: vec![section(0, 0, false), section(0x20_0000, 0x1_0000_0000_0000, true)],
    };
    assert!(good.is_valid());
    let mut bad = BootInformation { start: 0x10_0000_0000_0000, ..boot(&good) };
    assert!(!bad.is_valid());
    bad = BootInformation { end: 0, ..boot(&good) };
    assert!(!bad.is_valid());
    bad = BootInformation { end: 0x1_0000_0000_0001, ..boot(&good) };
    assert!(!bad.is_valid());
    bad = boot(&good);
    bad.memory_areas.push(MemoryArea { start: 0, end: 0 });
    assert!(!bad.is_valid());
    bad = boot(&good);
    bad.memory_areas.push(MemoryArea { start: 0, end: 0x10_0000_0000_0001 });
    assert!(!bad.is_valid());
    bad = boot(&good);
    bad.sections.push(section(0x1000, 0x1_0000_0000_0001, true));
    assert!(!bad.is_valid());
    bad = boot(&good);
    bad.sections.push(section(0x1000, 0x1_0000_0000_0001, false));
    assert!(bad.is_valid());
    bad = boot(&good);
    bad.sections = vec![section(0x1000, 0x2000, false)];
    assert!(!bad.is_valid());
    bad.sections = Vec::new();
    assert!(!bad.is_valid());
}

fn boot(from: &BootInformation) -> BootInformation {
    BootInformation {
        start: from.start,
        end: from.end,
        memory_areas: from.memory_areas.clone(),
        sections: from.sections.clone(),
    }
}
