//! The kernel's own address space: a fresh hierarchy of page tables that
//! maps the loaded sections of the kernel image, the display buffer and
//! the boot information, each page to the frame of its own number.

use multiboot2::ElfSectionFlags;
use vstd::prelude::*;
use super::address::{Frame, Page, PAGE_LIMIT, PAGE_SIZE, PHYS_ADDR_LIMIT};
use super::area_frame_allocator::AreaFrameAllocator;
use super::frame_set::{inhabited, least, lemma_least_unique};
use super::model::{MemoryModel, TableModel};
use super::page_table::{ActiveTable, EntryFlags, Invalidation, Mapping};
use super::{BootInformation, MemoryError};

verus! {

/// The number of the frame that holds the text buffer of the display.
pub const DISPLAY_FRAME: u64 = 0xb8;

/// Virtual addresses that are physical addresses too are below this
/// bound (48 bits).
pub const IDENTITY_LIMIT: u64 = 0x1_0000_0000_0000;

/// A section of the kernel image as the boot loader reports it: the
/// physical addresses of its first byte and of the byte after its last,
/// and what the image says of it.
#[derive(Clone, Copy, Debug, PartialEq, Eq, Structural)]
pub struct KernelSection {
    pub start: u64,
    pub end: u64,
    /// The section is loaded to memory.
    pub allocated: bool,
    pub writable: bool,
    pub executable: bool,
}

/// `ElfSectionFlags::WRITABLE` of the multiboot2 crate, as bits.
#[verifier::external_body]
fn elf_writable() -> (bits: u64)
    ensures
        bits == 1,
{
    ElfSectionFlags::WRITABLE.bits()
}

/// `ElfSectionFlags::ALLOCATED` of the multiboot2 crate, as bits.
#[verifier::external_body]
fn elf_allocated() -> (bits: u64)
    ensures
        bits == 2,
{
    ElfSectionFlags::ALLOCATED.bits()
}

/// `ElfSectionFlags::EXECUTABLE` of the multiboot2 crate, as bits.
#[verifier::external_body]
fn elf_executable() -> (bits: u64)
    ensures
        bits == 4,
{
    ElfSectionFlags::EXECUTABLE.bits()
}

impl KernelSection {
    /// The section from `start` up to but without `end` with the flags
    /// that the image gives it: bit 0 says that it is writable, bit 1 that
    /// it is loaded, bit 2 that it is executable.
    pub fn new(start: u64, end: u64, flags: u64) -> (section: KernelSection)
        ensures
            section.start == start,
            section.end == end,
            section.writable == (flags & 1 != 0),
            section.allocated == (flags & 2 != 0),
            section.executable == (flags & 4 != 0),
    {
        KernelSection {
            start,
            end,
            allocated: flags & elf_allocated() != 0,
            writable: flags & elf_writable() != 0,
            executable: flags & elf_executable() != 0,
        }
    }

    /// A loaded section lies where pages can have the numbers of their
    /// frames.
    pub open spec fn valid(self) -> bool {
        self.allocated ==> self.start < PHYS_ADDR_LIMIT && 0 < self.end <= IDENTITY_LIMIT
    }

    /// Says whether the section, if loaded, lies where pages can have the
    /// numbers of their frames.
    pub fn is_valid(&self) -> (valid: bool)
        ensures
            valid == self.valid(),
    {
        !self.allocated || (self.start < PHYS_ADDR_LIMIT && 0 < self.end && self.end
            <= IDENTITY_LIMIT)
    }

    /// The flags of the section's pages: present as the section is
    /// loaded, writable as the section is, closed to execution unless the
    /// section is executable.
    pub open spec fn spec_flags(&self) -> EntryFlags {
        EntryFlags {
            present: self.allocated,
            writable: self.writable,
            no_execute: !self.executable,
        }
    }

    /// The number of the frame that holds the section's first byte.
    pub open spec fn first_frame(self) -> nat {
        (self.start / 4096) as nat
    }

    /// How many frames the section lies in.
    pub open spec fn frame_count(self) -> nat {
        if (self.end - 1) / 4096 >= self.start / 4096 {
            ((self.end - 1) / 4096 - self.start / 4096 + 1) as nat
        } else {
            0
        }
    }

    /// The section lies in the frame.
    pub open spec fn holds(self, frame: nat) -> bool {
        self.first_frame() <= frame < self.first_frame() + self.frame_count()
    }

    /// The flags of the section's pages.
    #[verifier::when_used_as_spec(spec_flags)]
    pub fn flags(&self) -> (flags: EntryFlags)
        ensures
            flags == self.spec_flags(),
    {
        let mut flags = EntryFlags { present: false, writable: false, no_execute: false };
        if self.allocated {
            flags.present = true;
        }
        if self.writable {
            flags.writable = true;
        }
        if !self.executable {
            flags.no_execute = true;
        }
        flags
    }
}

/// A thing that the caller has to do to the machine.
#[derive(Clone, Copy, Debug, PartialEq, Eq, Structural)]
pub enum MachineStep {
    /// Clear the frame, which is to hold a top table, and make its last
    /// entry lead to the frame itself, present and writable. The frame is
    /// written through its own address, which the active hierarchy maps.
    PrepareTopTable(Frame),
    /// Make the recursive entry of the top table in `table` lead to the
    /// top table in `target`, so that the new hierarchy can be written
    /// through the addresses of the old one.
    RetargetRecursiveEntry { table: Frame, target: Frame },
    /// Drop what the translation cache holds.
    Invalidate(Invalidation),
    /// Write the tables of the new hierarchy to their frames, each through
    /// the page at which the recursive entry shows it, the top table
    /// first and each table before the tables below it.
    WriteTables,
    /// Load the table-base register with the frame of a top table.
    LoadTableBase(Frame),
}

/// What the caller has to do to the machine to put a new hierarchy in
/// the place of the active one, in this order.
pub open spec fn activation_steps(previous_root: Frame, root: Frame) -> Seq<MachineStep> {
    seq![
        MachineStep::PrepareTopTable(root),
        MachineStep::RetargetRecursiveEntry { table: previous_root, target: root },
        MachineStep::Invalidate(Invalidation::All),
        MachineStep::WriteTables,
        MachineStep::LoadTableBase(root),
        MachineStep::Invalidate(Invalidation::Page(Page { number: previous_root.number })),
    ]
}

impl MemoryModel {
    /// Maps the frames of a section, if it is loaded. A loaded section
    /// that is both writable and executable, or that does not start at a
    /// frame boundary, is refused, and none of its frames is mapped.
    pub open spec fn map_section(self, section: KernelSection) -> (
        MemoryModel,
        Result<(), MemoryError>,
    ) {
        if !section.allocated {
            (self, Ok(()))
        } else if section.writable && section.executable {
            (self, Err(MemoryError::WritableExecutableSection))
        } else if section.start % 4096 != 0 {
            (self, Err(MemoryError::MisalignedRegion))
        } else {
            self.identity_map_range(section.first_frame(), section.frame_count(), section.flags())
        }
    }

    /// Maps the sections one after the other, and stops at the first that
    /// cannot be mapped.
    pub open spec fn map_sections(self, sections: Seq<KernelSection>) -> (
        MemoryModel,
        Result<(), MemoryError>,
    )
        decreases sections.len(),
    {
        if sections.len() == 0 {
            (self, Ok(()))
        } else {
            let (next, outcome) = self.map_section(sections[0]);
            if outcome is Err {
                (next, outcome)
            } else {
                next.map_sections(sections.skip(1))
            }
        }
    }
}

/// The frames of the boot information, which lies from `start` up to but
/// without `end`: the number of the first, and how many.
pub open spec fn boot_info_range(start: u64, end: u64) -> (nat, nat) {
    (
        (start / 4096) as nat,
        if (end - 1) / 4096 >= start / 4096 {
            ((end - 1) / 4096 - start / 4096 + 1) as nat
        } else {
            0
        },
    )
}

/// The new address space, as mathematics. The top table takes the lowest
/// free frame. Then the loaded sections are mapped, then the display
/// buffer, then the boot information, the last two writable. At the end
/// the page with the number of the old top table's frame is unmapped, so
/// that it guards against use of the old hierarchy. The answer holds the
/// memory after all that and the frame of the new top table.
pub open spec fn remap_model(
    free: Set<nat>,
    sections: Seq<KernelSection>,
    boot_start: u64,
    boot_end: u64,
    previous_root: Frame,
) -> (MemoryModel, Result<Frame, MemoryError>) {
    let none = TableModel { mappings: Map::empty(), tables: Map::empty() };
    if !inhabited(free) {
        (MemoryModel { table: none, free }, Err(MemoryError::AllocationExhausted))
    } else {
        let root = Frame { number: least(free) as u64 };
        let start = MemoryModel { table: none, free: free.remove(least(free)) };
        let (kernel, first) = start.map_sections(sections);
        if first is Err {
            (kernel, Err(first.unwrap_err()))
        } else {
            let (display, second) = kernel.identity_map_range(
                DISPLAY_FRAME as nat,
                1,
                EntryFlags::writable_data(),
            );
            if second is Err {
                (display, Err(second.unwrap_err()))
            } else {
                let (boot_first, boot_count) = boot_info_range(boot_start, boot_end);
                let (boot, third) = display.identity_map_range(
                    boot_first,
                    boot_count,
                    EntryFlags::writable_data(),
                );
                if third is Err {
                    (boot, Err(third.unwrap_err()))
                } else {
                    let (guarded, fourth) = boot.unmap(Page { number: previous_root.number });
                    if fourth is Err {
                        (guarded, Err(fourth.unwrap_err()))
                    } else {
                        (guarded, Ok(root))
                    }
                }
            }
        }
    }
}

/// Builds the kernel's own address space in frames from
/// `frame_allocator`, and says what is to be done to the machine to put it
/// in the place of the hierarchy whose top table lies in `previous_root`.
/// Nothing is done to the machine here: the hierarchy is handed back.
pub fn remap_kernel(
    frame_allocator: &mut AreaFrameAllocator,
    boot_info: &BootInformation,
    previous_root: Frame,
) -> (result: Result<(ActiveTable, Vec<MachineStep>), MemoryError>)
    requires
        old(frame_allocator).wf(),
        boot_info.mappable(),
        previous_root.number < PAGE_LIMIT,
    ensures
        final(frame_allocator).wf(),
        final(frame_allocator).area_list() == old(frame_allocator).area_list(),
        final(frame_allocator).kernel_frames() == old(frame_allocator).kernel_frames(),
        final(frame_allocator).boot_info_frames() == old(frame_allocator).boot_info_frames(),
        ({
            let (after, outcome) = remap_model(
                old(frame_allocator).free_frames(),
                boot_info.sections@,
                boot_info.start,
                boot_info.end,
                previous_root,
            );
            &&& final(frame_allocator).free_frames() == after.free
            &&& match outcome {
                Ok(root) => {
                    &&& result is Ok
                    &&& result.unwrap().0.wf()
                    &&& result.unwrap().0@ == after.table
                    &&& result.unwrap().0.root() == root
                    &&& result.unwrap().1@ == activation_steps(previous_root, root)
                    &&& !result.unwrap().0@.mappings.contains_key(
                        Page { number: previous_root.number },
                    )
                },
                Err(e) => result matches Err(error) && error == e,
            }
        }),
{
    let sections = &boot_info.sections;
    let boot_start = boot_info.start;
    let boot_end = boot_info.end;
    let ghost free = frame_allocator.free_frames();
    let new_table_frame = match frame_allocator.allocate_frame() {
        Some(frame) => frame,
        None => {
            return Err(MemoryError::AllocationExhausted);
        },
    };
    proof {
        lemma_least_unique(free, new_table_frame.number as nat);
    }
    let mut table = ActiveTable::new(new_table_frame);
    let ghost start = MemoryModel { table: table@, free: frame_allocator.free_frames() };
    let mut i: usize = 0;
    proof {
        assert(sections@.skip(0) =~= sections@);
    }
    while i < sections.len()
        invariant
            i <= sections.len(),
            sections@ == boot_info.sections@,
            forall|k: int| 0 <= k < sections.len() ==> (#[trigger] sections[k]).valid(),
            table.wf(),
            table.root() == new_table_frame,
            frame_allocator.wf(),
            frame_allocator.area_list() == old(frame_allocator).area_list(),
            frame_allocator.kernel_frames() == old(frame_allocator).kernel_frames(),
            frame_allocator.boot_info_frames() == old(frame_allocator).boot_info_frames(),
            free == old(frame_allocator).free_frames(),
            is_start(free, new_table_frame, start),
            start.map_sections(sections@) == (MemoryModel {
                table: table@,
                free: frame_allocator.free_frames(),
            }).map_sections(sections@.skip(i as int)),
        decreases sections.len() - i,
    {
        let section = sections[i];
        let ghost now = MemoryModel { table: table@, free: frame_allocator.free_frames() };
        proof {
            assert(sections@.skip(i as int)[0] == section);
            assert(sections@.skip(i as int).skip(1) =~= sections@.skip(i + 1));
        }
        if section.allocated {
            if section.writable && section.executable {
                return Err(MemoryError::WritableExecutableSection);
            }
            let start_frame = match Frame::from_start_address(section.start) {
                Some(frame) => frame,
                None => {
                    return Err(MemoryError::MisalignedRegion);
                },
            };
            let first = start_frame.number;
            let last = (section.end - 1) / PAGE_SIZE;
            if last >= first {
                let count = last - first + 1;
                match table.identity_map_range(first, count, section.flags(), frame_allocator) {
                    Ok(_) => {},
                    Err(e) => {
                        return Err(e);
                    },
                }
            }
        }
        i += 1;
    }
    proof {
        assert(sections@.skip(sections.len() as int).len() == 0);
    }
    match table.identity_map_range(DISPLAY_FRAME, 1, EntryFlags::writable_data(), frame_allocator) {
        Ok(_) => {},
        Err(e) => {
            return Err(e);
        },
    }
    let multiboot_start = boot_start / PAGE_SIZE;
    let multiboot_end = (boot_end - 1) / PAGE_SIZE;
    if multiboot_end >= multiboot_start {
        let count = multiboot_end - multiboot_start + 1;
        match table.identity_map_range(
            multiboot_start,
            count,
            EntryFlags::writable_data(),
            frame_allocator,
        ) {
            Ok(_) => {},
            Err(e) => {
                return Err(e);
            },
        }
    }
    let guard_page = Page { number: previous_root.number };
    match table.unmap(guard_page) {
        Ok(_) => {},
        Err(e) => {
            return Err(e);
        },
    }
    let mut steps: Vec<MachineStep> = Vec::new();
    steps.push(MachineStep::PrepareTopTable(new_table_frame));
    steps.push(
        MachineStep::RetargetRecursiveEntry { table: previous_root, target: new_table_frame },
    );
    steps.push(MachineStep::Invalidate(Invalidation::All));
    steps.push(MachineStep::WriteTables);
    steps.push(MachineStep::LoadTableBase(new_table_frame));
    steps.push(MachineStep::Invalidate(Invalidation::Page(guard_page)));
    proof {
        assert(steps@ =~= activation_steps(previous_root, new_table_frame));
    }
    Ok((table, steps))
}

/// If the section is loaded and lies in the frame with the page's number,
/// it is not both writable and executable, it starts at a frame boundary
/// and the page leads to that frame with the section's flags.
pub open spec fn section_mapped(
    mappings: Map<Page, Mapping>,
    section: KernelSection,
    page: Page,
) -> bool {
    section.allocated && section.holds(page.number as nat) ==> {
        &&& !(section.writable && section.executable)
        &&& section.start % 4096 == 0
        &&& mappings.contains_key(page)
        &&& mappings[page] == Mapping {
            frame: Frame { number: page.number },
            flags: section.flags(),
        }
    }
}

impl MemoryModel {
    /// What mapping the sections comes to where it succeeds: every frame
    /// that a loaded section lies in is mapped, the page of its number to
    /// it, with the flags of that section. Whether it succeeds or not,
    /// nothing is unmapped or freed.
    pub proof fn lemma_map_sections(self, sections: Seq<KernelSection>)
        requires
            forall|i: int| 0 <= i < sections.len() ==> (#[trigger] sections[i]).valid(),
        ensures
            self.grows_to(self.map_sections(sections).0),
            self.map_sections(sections).1 is Ok ==> forall|i: int, page: Page|
                0 <= i < sections.len() ==> #[trigger] section_mapped(
                    self.map_sections(sections).0.table.mappings,
                    sections[i],
                    page,
                ),
        decreases sections.len(),
    {
        if sections.len() > 0 {
            let section = sections[0];
            let (next, outcome) = self.map_section(section);
            let allowed = !(section.writable && section.executable);
            if section.allocated && allowed && section.start % 4096 == 0 && section.frame_count()
                > 0 {
                self.lemma_identity_map_range(
                    section.first_frame(),
                    section.frame_count(),
                    section.flags(),
                );
            }
            if outcome is Ok {
                let rest = sections.skip(1);
                assert forall|i: int| 0 <= i < rest.len() implies (#[trigger] rest[i]).valid() by {
                    assert(rest[i] == sections[i + 1]);
                }
                next.lemma_map_sections(rest);
                let after = next.map_sections(rest).0;
                assert(self.map_sections(sections) == next.map_sections(rest));
                if next.map_sections(rest).1 is Ok {
                    assert forall|i: int, page: Page| 0 <= i < sections.len() implies #[trigger]
                        section_mapped(after.table.mappings, sections[i], page) by {
                        if sections[i].allocated && sections[i].holds(page.number as nat) {
                            if i == 0 {
                                assert(section.first_frame() <= page.number < section.first_frame()
                                    + section.frame_count());
                                assert(next.table.mappings.contains_key(page));
                                assert(after.table.mappings.contains_key(page));
                            } else {
                                assert(rest[i - 1] == sections[i]);
                                assert(section_mapped(after.table.mappings, rest[i - 1], page));
                            }
                        }
                    }
                }
            }
        }
    }
}

/// In the new address space every frame of a loaded section of the
/// kernel image, but for the guard page, is mapped with that section's
/// flags: writable exactly if the section is, closed to execution exactly
/// if the section is not executable. No such mapping is writable and open
/// to execution at once.
pub proof fn lemma_remap_section_flags(
    free: Set<nat>,
    sections: Seq<KernelSection>,
    boot_start: u64,
    boot_end: u64,
    previous_root: Frame,
    i: int,
    page: Page,
)
    requires
        forall|k: int| 0 <= k < sections.len() ==> (#[trigger] sections[k]).valid(),
        0 < boot_end <= IDENTITY_LIMIT,
        remap_model(free, sections, boot_start, boot_end, previous_root).1 is Ok,
        0 <= i < sections.len(),
        sections[i].allocated,
        sections[i].holds(page.number as nat),
        page.number != previous_root.number,
    ensures
        ({
            let table = remap_model(free, sections, boot_start, boot_end, previous_root).0.table;
            &&& table.mappings.contains_key(page)
            &&& table.mappings[page].frame == Frame { number: page.number }
            &&& table.mappings[page].flags == sections[i].flags()
            &&& table.mappings[page].flags.present
            &&& table.mappings[page].flags.writable == sections[i].writable
            &&& table.mappings[page].flags.no_execute == !sections[i].executable
            &&& !(table.mappings[page].flags.writable && !table.mappings[page].flags.no_execute)
        }),
{
    let none = TableModel { mappings: Map::empty(), tables: Map::empty() };
    let start = MemoryModel { table: none, free: free.remove(least(free)) };
    let (kernel, _) = start.map_sections(sections);
    start.lemma_map_sections(sections);
    assert(section_mapped(kernel.table.mappings, sections[i], page));
    assert(kernel.table.mappings.contains_key(page));
    let flags = EntryFlags::writable_data();
    let (display, _) = kernel.identity_map_range(DISPLAY_FRAME as nat, 1, flags);
    kernel.lemma_identity_map_range(DISPLAY_FRAME as nat, 1, flags);
    assert(display.table.mappings.contains_key(page));
    let (boot_first, boot_count) = boot_info_range(boot_start, boot_end);
    if boot_count > 0 {
        display.lemma_identity_map_range(boot_first, boot_count, flags);
    }
    let (boot, _) = display.identity_map_range(boot_first, boot_count, flags);
    assert(boot.table.mappings.contains_key(page));
}

/// Some loaded section lies in the frame with the page's number.
pub open spec fn in_kernel_image(sections: Seq<KernelSection>, page: Page) -> bool {
    exists|i: int|
        0 <= i < sections.len() && (#[trigger] sections[i]).allocated && sections[i].holds(
            page.number as nat,
        )
}

impl MemoryModel {
    /// Mapping the sections maps no page but those of the frames that a
    /// loaded section lies in.
    pub proof fn lemma_map_sections_only(self, sections: Seq<KernelSection>, page: Page)
        requires
            forall|i: int| 0 <= i < sections.len() ==> (#[trigger] sections[i]).valid(),
            self.map_sections(sections).0.table.mappings.contains_key(page),
        ensures
            self.table.mappings.contains_key(page) || in_kernel_image(sections, page),
        decreases sections.len(),
    {
        if sections.len() > 0 {
            let section = sections[0];
            let (next, outcome) = self.map_section(section);
            let allowed = !(section.writable && section.executable);
            if section.allocated && allowed && section.start % 4096 == 0 && section.frame_count()
                > 0 {
                self.lemma_identity_map_range(
                    section.first_frame(),
                    section.frame_count(),
                    section.flags(),
                );
            }
            if outcome is Ok {
                let rest = sections.skip(1);
                assert forall|i: int| 0 <= i < rest.len() implies (#[trigger] rest[i]).valid() by {
                    assert(rest[i] == sections[i + 1]);
                }
                next.lemma_map_sections_only(rest, page);
                if in_kernel_image(rest, page) {
                    let i = choose|i: int|
                        0 <= i < rest.len() && (#[trigger] rest[i]).allocated && rest[i].holds(
                            page.number as nat,
                        );
                    assert(sections[i + 1] == rest[i]);
                }
            }
            if next.table.mappings.contains_key(page) && !self.table.mappings.contains_key(page) {
                assert(sections[0].allocated && sections[0].holds(page.number as nat));
            }
        }
    }
}

/// The new address space maps what it is to map and nothing else: a page
/// is mapped exactly if it is not the guard page and its number is that
/// of a frame in which a loaded section of the kernel image, the display
/// buffer or the boot information lies.
pub proof fn lemma_remap_maps_exactly(
    free: Set<nat>,
    sections: Seq<KernelSection>,
    boot_start: u64,
    boot_end: u64,
    previous_root: Frame,
    page: Page,
)
    requires
        forall|k: int| 0 <= k < sections.len() ==> (#[trigger] sections[k]).valid(),
        0 < boot_end <= IDENTITY_LIMIT,
        remap_model(free, sections, boot_start, boot_end, previous_root).1 is Ok,
    ensures
        remap_model(
            free,
            sections,
            boot_start,
            boot_end,
            previous_root,
        ).0.table.mappings.contains_key(page) <==> page.number != previous_root.number && (
        in_kernel_image(sections, page) || page.number == DISPLAY_FRAME || boot_info_range(
            boot_start,
            boot_end,
        ).0 <= page.number < boot_info_range(boot_start, boot_end).0 + boot_info_range(
            boot_start,
            boot_end,
        ).1),
{
    let none = TableModel { mappings: Map::empty(), tables: Map::empty() };
    let start = MemoryModel { table: none, free: free.remove(least(free)) };
    let (kernel, _) = start.map_sections(sections);
    start.lemma_map_sections(sections);
    if kernel.table.mappings.contains_key(page) {
        start.lemma_map_sections_only(sections, page);
    }
    if in_kernel_image(sections, page) {
        let i = choose|i: int|
            0 <= i < sections.len() && (#[trigger] sections[i]).allocated && sections[i].holds(
                page.number as nat,
            );
        assert(section_mapped(kernel.table.mappings, sections[i], page));
    }
    let flags = EntryFlags::writable_data();
    let (display, _) = kernel.identity_map_range(DISPLAY_FRAME as nat, 1, flags);
    kernel.lemma_identity_map_range(DISPLAY_FRAME as nat, 1, flags);
    let (boot_first, boot_count) = boot_info_range(boot_start, boot_end);
    if boot_count > 0 {
        display.lemma_identity_map_range(boot_first, boot_count, flags);
    }
    let (boot, _) = display.identity_map_range(boot_first, boot_count, flags);
    assert(kernel.table.mappings.contains_key(page) ==> display.table.mappings.contains_key(page));
    assert(display.table.mappings.contains_key(page) ==> boot.table.mappings.contains_key(page));
    if page.number == DISPLAY_FRAME {
        assert(display.table.mappings.contains_key(page));
    }
    if boot_first <= page.number < boot_first + boot_count {
        assert(boot.table.mappings.contains_key(page));
    }
}

/// Building the new address space frees no frame: what is free after it
/// was free before it.
pub proof fn lemma_remap_frees_nothing(
    free: Set<nat>,
    sections: Seq<KernelSection>,
    boot_start: u64,
    boot_end: u64,
    previous_root: Frame,
)
    requires
        forall|k: int| 0 <= k < sections.len() ==> (#[trigger] sections[k]).valid(),
        0 < boot_end <= IDENTITY_LIMIT,
    ensures
        remap_model(free, sections, boot_start, boot_end, previous_root).0.free.subset_of(free),
{
    if inhabited(free) {
        let none = TableModel { mappings: Map::empty(), tables: Map::empty() };
        let start = MemoryModel { table: none, free: free.remove(least(free)) };
        let (kernel, first) = start.map_sections(sections);
        start.lemma_map_sections(sections);
        let flags = EntryFlags::writable_data();
        let (display, second) = kernel.identity_map_range(DISPLAY_FRAME as nat, 1, flags);
        kernel.lemma_identity_map_range(DISPLAY_FRAME as nat, 1, flags);
        let (boot_first, boot_count) = boot_info_range(boot_start, boot_end);
        if boot_count > 0 {
            display.lemma_identity_map_range(boot_first, boot_count, flags);
        }
    }
}

/// In the new address space the page with the number of the old top
/// table's frame is not mapped.
pub proof fn lemma_remap_guard_page(
    free: Set<nat>,
    sections: Seq<KernelSection>,
    boot_start: u64,
    boot_end: u64,
    previous_root: Frame,
)
    requires
        remap_model(free, sections, boot_start, boot_end, previous_root).1 is Ok,
    ensures
        !remap_model(
            free,
            sections,
            boot_start,
            boot_end,
            previous_root,
        ).0.table.mappings.contains_key(Page { number: previous_root.number }),
{
}

/// `start` is the memory with an empty hierarchy whose top table has
/// taken the lowest frame of `free`.
pub open spec fn is_start(free: Set<nat>, root: Frame, start: MemoryModel) -> bool {
    &&& inhabited(free)
    &&& root == Frame { number: least(free) as u64 }
    &&& start == MemoryModel {
        table: TableModel { mappings: Map::empty(), tables: Map::empty() },
        free: free.remove(least(free)),
    }
}

} // verus!
