//! Physical frames, virtual pages, page tables and kernel stacks.

use vstd::prelude::*;
use self::address::{Frame, Page, PageRange, PAGE_LIMIT, PHYS_ADDR_LIMIT};
use self::area_frame_allocator::{initial_free_frames, MemoryArea};
use self::model::MemoryModel;
use self::page_table::{ActiveTable, EntryFlags};
use self::remap::{
    activation_steps, lemma_remap_frees_nothing, remap_kernel, remap_model, KernelSection,
    MachineStep, IDENTITY_LIMIT,
};
use self::stack_allocator::{stack_request, Stack, StackAllocator};

pub use self::area_frame_allocator::AreaFrameAllocator;

pub mod address;
pub mod area_frame_allocator;
pub mod frame_set;
pub mod model;
pub mod page_table;
pub mod remap;
pub mod stack_allocator;
pub mod table_image;

verus! {

/// Why a memory operation was refused.
#[derive(Clone, Copy, Debug, PartialEq, Eq, Structural)]
pub enum MemoryError {
    /// The frame allocator has no usable frame left.
    AllocationExhausted,
    /// The page is already mapped, or lies in the window reserved for the
    /// recursive self-entry of the top-level table.
    MappingConflict,
    /// A loaded section of the kernel image does not start on a frame boundary.
    MisalignedRegion,
    /// A loaded section of the kernel image is both writable and
    /// executable.
    WritableExecutableSection,
    /// The page range reserved for stacks cannot hold the stack asked for.
    StackRangeExhausted,
    /// The page to unmap is not mapped.
    PageNotMapped,
    /// A stack of zero pages was asked for.
    EmptyStack,
}

/// The virtual address of the first byte of the kernel heap.
pub const HEAP_START: u64 = 0x4000_0000;

/// The size of the kernel heap in bytes.
pub const HEAP_SIZE: u64 = 100 * 1024;

/// The number of the first page of the kernel heap.
pub const HEAP_FIRST_PAGE: u64 = 0x4_0000;

/// How many pages the kernel heap takes.
pub const HEAP_PAGES: u64 = 25;

/// How many pages above the heap are kept for stacks.
pub const STACK_RANGE_PAGES: u64 = 101;

/// What the boot loader reports: where its own record lies, from `start`
/// up to but without `end`, the usable memory, and the sections of the
/// kernel image.
#[derive(Debug)]
pub struct BootInformation {
    pub start: u64,
    pub end: u64,
    pub memory_areas: Vec<MemoryArea>,
    pub sections: Vec<KernelSection>,
}

impl BootInformation {
    /// The record itself and the loaded sections of the kernel image lie
    /// where pages can have the numbers of their frames.
    pub open spec fn mappable(&self) -> bool {
        &&& self.start < PHYS_ADDR_LIMIT
        &&& 0 < self.end <= IDENTITY_LIMIT
        &&& forall|i: int| 0 <= i < self.sections.len() ==> (#[trigger] self.sections[i]).valid()
    }

    /// All addresses of the report lie where the machine has addresses,
    /// and some section of the kernel image is loaded.
    pub open spec fn valid(&self) -> bool {
        &&& self.mappable()
        &&& forall|i: int|
            0 <= i < self.memory_areas.len() ==> (#[trigger] self.memory_areas[i]).valid()
        &&& exists|i: int| 0 <= i < self.sections.len() && (#[trigger] self.sections[i]).allocated
    }
}

impl BootInformation {
    /// Says whether all addresses of the report lie where the machine has
    /// addresses, and some section of the kernel image is loaded.
    pub fn is_valid(&self) -> (valid: bool)
        ensures
            valid == self.valid(),
    {
        if !(self.start < PHYS_ADDR_LIMIT && 0 < self.end && self.end <= IDENTITY_LIMIT) {
            return false;
        }
        let mut i: usize = 0;
        while i < self.memory_areas.len()
            invariant
                i <= self.memory_areas.len(),
                forall|k: int| 0 <= k < i ==> (#[trigger] self.memory_areas[k]).valid(),
            decreases self.memory_areas.len() - i,
        {
            if !self.memory_areas[i].is_valid() {
                return false;
            }
            i += 1;
        }
        let mut loaded = false;
        let mut j: usize = 0;
        while j < self.sections.len()
            invariant
                j <= self.sections.len(),
                forall|k: int| 0 <= k < j ==> (#[trigger] self.sections[k]).valid(),
                loaded == exists|k: int| 0 <= k < j && (#[trigger] self.sections[k]).allocated,
            decreases self.sections.len() - j,
        {
            if !self.sections[j].is_valid() {
                return false;
            }
            if self.sections[j].allocated {
                loaded = true;
            }
            j += 1;
        }
        loaded
    }
}

/// `addr` is the lowest start of a loaded section.
pub open spec fn is_kernel_start(sections: Seq<KernelSection>, addr: u64) -> bool {
    &&& exists|i: int|
        0 <= i < sections.len() && (#[trigger] sections[i]).allocated && sections[i].start == addr
    &&& forall|i: int|
        0 <= i < sections.len() && (#[trigger] sections[i]).allocated ==> addr <= sections[i].start
}

/// `addr` is the highest end of a loaded section.
pub open spec fn is_kernel_end(sections: Seq<KernelSection>, addr: u64) -> bool {
    &&& exists|i: int|
        0 <= i < sections.len() && (#[trigger] sections[i]).allocated && sections[i].end == addr
    &&& forall|i: int|
        0 <= i < sections.len() && (#[trigger] sections[i]).allocated ==> sections[i].end <= addr
}

/// The address of the first byte of the kernel image.
pub open spec fn kernel_start(sections: Seq<KernelSection>) -> u64 {
    choose|addr: u64| is_kernel_start(sections, addr)
}

/// The address of the byte after the last of the kernel image.
pub open spec fn kernel_end(sections: Seq<KernelSection>) -> u64 {
    choose|addr: u64| is_kernel_end(sections, addr)
}

/// The frames that are free when the machine starts: the usable ones but
/// for frame 0, the frames of the kernel image and the frames of the boot
/// information, each taken up to and with the frame of the byte after its
/// last.
pub open spec fn boot_free_frames(boot_info: &BootInformation) -> Set<nat> {
    initial_free_frames(
        boot_info.memory_areas@,
        (
            (kernel_start(boot_info.sections@) / 4096) as nat,
            (kernel_end(boot_info.sections@) / 4096) as nat,
        ),
        ((boot_info.start / 4096) as nat, (boot_info.end / 4096) as nat),
    )
}

/// The memory as it is set up at boot, as mathematics: the kernel's own
/// address space is built, then the pages of the heap are mapped to fresh
/// frames, present and writable. The answer holds the memory after that
/// and the frame of the new top table.
pub open spec fn init_model(boot_info: &BootInformation, previous_root: Frame) -> (
    MemoryModel,
    Result<Frame, MemoryError>,
) {
    let (remapped, first) = remap_model(
        boot_free_frames(boot_info),
        boot_info.sections@,
        boot_info.start,
        boot_info.end,
        previous_root,
    );
    if first is Err {
        (remapped, first)
    } else {
        let (heap, second) = remapped.map_fresh_range(
            HEAP_FIRST_PAGE as nat,
            HEAP_PAGES as nat,
            EntryFlags::writable_data(),
        );
        if second is Err {
            (heap, Err(second.unwrap_err()))
        } else {
            (heap, first)
        }
    }
}

/// The first and the last page of the kernel heap.
pub fn heap_pages() -> (pages: (Page, Page))
    ensures
        pages.0.number == HEAP_FIRST_PAGE,
        pages.1.number == HEAP_FIRST_PAGE + HEAP_PAGES - 1,
{
    let first = Page::containing_address(HEAP_START);
    let last = Page::containing_address(HEAP_START + HEAP_SIZE - 1);
    match (first, last) {
        (Some(heap_start_page), Some(heap_end_page)) => (heap_start_page, heap_end_page),
        _ => (Page { number: HEAP_FIRST_PAGE }, Page { number: HEAP_FIRST_PAGE + HEAP_PAGES - 1 }),
    }
}

/// Maps the pages of the kernel heap to fresh frames, present and
/// writable, lowest page first, and stops at the first page that cannot
/// be mapped. On success the answer is the heap's first address and its
/// size in bytes, for whoever manages the heap.
pub fn map_heap(
    active_table: &mut ActiveTable,
    frame_allocator: &mut AreaFrameAllocator,
) -> (result: Result<(u64, u64), MemoryError>)
    requires
        old(active_table).wf(),
        old(frame_allocator).wf(),
    ensures
        final(active_table).wf(),
        final(active_table).root() == old(active_table).root(),
        final(frame_allocator).wf(),
        final(frame_allocator).area_list() == old(frame_allocator).area_list(),
        final(frame_allocator).kernel_frames() == old(frame_allocator).kernel_frames(),
        final(frame_allocator).boot_info_frames() == old(frame_allocator).boot_info_frames(),
        ({
            let before = MemoryModel {
                table: old(active_table)@,
                free: old(frame_allocator).free_frames(),
            };
            let (after, outcome) = before.map_fresh_range(
                HEAP_FIRST_PAGE as nat,
                HEAP_PAGES as nat,
                EntryFlags::writable_data(),
            );
            &&& final(active_table)@ == after.table
            &&& final(frame_allocator).free_frames() == after.free
            &&& match outcome {
                Ok(_) => result == Ok::<(u64, u64), MemoryError>((HEAP_START, HEAP_SIZE)),
                Err(e) => result == Err::<(u64, u64), MemoryError>(e),
            }
        }),
{
    let (heap_start_page, heap_end_page) = heap_pages();
    let count = heap_end_page.number - heap_start_page.number + 1;
    let (outcome, _) = active_table.map_range(
        heap_start_page.number,
        count,
        EntryFlags::writable_data(),
        frame_allocator,
    );
    match outcome {
        Ok(_) => Ok((HEAP_START, HEAP_SIZE)),
        Err(e) => Err(e),
    }
}

/// The owner of the page tables, of the free frames and of the pages
/// kept for stacks.
#[derive(Debug)]
pub struct MemoryController {
    active_page_table: ActiveTable,
    frame_allocator: AreaFrameAllocator,
    stack_allocator: StackAllocator,
}

impl MemoryController {
    /// The page tables, the frame allocator and the stack allocator are
    /// each in order.
    pub closed spec fn wf(&self) -> bool {
        &&& self.active_page_table.wf()
        &&& self.frame_allocator.wf()
        &&& self.stack_allocator.wf()
    }

    /// What is mapped, which page tables exist and which frames are free.
    pub closed spec fn memory(&self) -> MemoryModel {
        MemoryModel { table: self.active_page_table@, free: self.frame_allocator.free_frames() }
    }

    /// The frame of the top table.
    pub closed spec fn root(&self) -> Frame {
        self.active_page_table.root()
    }

    /// The pages kept for stacks and not yet given away: the numbers of
    /// the lowest and of the highest.
    pub closed spec fn stack_pages(&self) -> (nat, nat) {
        (self.stack_allocator.next_page(), self.stack_allocator.last_page())
    }

    /// Makes a stack of `size_in_pages` pages with an unmapped guard page
    /// below it.
    pub fn allocate_stack(&mut self, size_in_pages: usize) -> (result: Result<Stack, MemoryError>)
        requires
            old(self).wf(),
        ensures
            final(self).wf(),
            final(self).root() == old(self).root(),
            final(self).stack_pages().1 == old(self).stack_pages().1,
            ({
                let (next, after, outcome) = stack_request(
                    old(self).stack_pages().0,
                    old(self).stack_pages().1,
                    old(self).memory(),
                    size_in_pages as nat,
                );
                &&& final(self).stack_pages().0 == next
                &&& final(self).memory() == after
                &&& match outcome {
                    Ok((top, bottom)) => {
                        &&& result is Ok
                        &&& result.unwrap().top() == top
                        &&& result.unwrap().bottom() == bottom
                        &&& result.unwrap().wf()
                        &&& result.unwrap().first_page() == old(self).stack_pages().0 + 1
                        &&& result.unwrap().end_page() == final(self).stack_pages().0
                    },
                    Err(e) => result matches Err(error) && error == e,
                }
            }),
            size_in_pages == 0 ==> result is Err && final(self).stack_pages() == old(
                self,
            ).stack_pages() && final(self).memory() == old(self).memory(),
    {
        self.stack_allocator.allocate_stack(
            &mut self.active_page_table,
            &mut self.frame_allocator,
            size_in_pages,
        )
    }

    /// The page tables.
    pub fn active_table(&self) -> (table: &ActiveTable)
        requires
            self.wf(),
        ensures
            table.wf(),
            table@ == self.memory().table,
            table.root() == self.root(),
    {
        &self.active_page_table
    }

    /// The pages kept for stacks and not yet given away.
    pub fn stack_range(&self) -> (range: PageRange)
        ensures
            range.start.number == self.stack_pages().0,
            range.end.number == self.stack_pages().1,
    {
        self.stack_allocator.remaining()
    }
}

/// The lowest start and the highest end of the loaded sections: where the
/// kernel image lies.
pub fn kernel_bounds(sections: &Vec<KernelSection>) -> (bounds: (u64, u64))
    requires
        exists|i: int| 0 <= i < sections.len() && (#[trigger] sections[i]).allocated,
    ensures
        is_kernel_start(sections@, bounds.0),
        is_kernel_end(sections@, bounds.1),
        bounds.0 == kernel_start(sections@),
        bounds.1 == kernel_end(sections@),
{
    let mut kernel_start_addr: u64 = 0;
    let mut kernel_end_addr: u64 = 0;
    let mut found = false;
    let mut i: usize = 0;
    while i < sections.len()
        invariant
            i <= sections.len(),
            !found ==> forall|k: int| 0 <= k < i ==> !(#[trigger] sections[k]).allocated,
            found ==> is_kernel_start(sections@.take(i as int), kernel_start_addr)
                && is_kernel_end(sections@.take(i as int), kernel_end_addr),
        decreases sections.len() - i,
    {
        let section = sections[i];
        let ghost before = sections@.take(i as int);
        let ghost after = sections@.take(i + 1);
        proof {
            assert(after[i as int] == section);
            assert forall|k: int| 0 <= k < i implies before[k] == after[k] by {}
        }
        if section.allocated {
            if !found {
                kernel_start_addr = section.start;
                kernel_end_addr = section.end;
                found = true;
                proof {
                    assert(after[i as int].allocated && after[i as int].start == kernel_start_addr);
                }
            } else {
                let ghost low = choose|k: int|
                    0 <= k < before.len() && (#[trigger] before[k]).allocated && before[k].start
                        == kernel_start_addr;
                let ghost high = choose|k: int|
                    0 <= k < before.len() && (#[trigger] before[k]).allocated && before[k].end
                        == kernel_end_addr;
                if section.start < kernel_start_addr {
                    kernel_start_addr = section.start;
                    proof {
                        assert(after[i as int].allocated && after[i as int].start
                            == kernel_start_addr);
                    }
                } else {
                    proof {
                        assert(after[low].allocated && after[low].start == kernel_start_addr);
                    }
                }
                if section.end > kernel_end_addr {
                    kernel_end_addr = section.end;
                    proof {
                        assert(after[i as int].allocated && after[i as int].end == kernel_end_addr);
                    }
                } else {
                    proof {
                        assert(after[high].allocated && after[high].end == kernel_end_addr);
                    }
                }
            }
        } else {
            proof {
                if found {
                    let low = choose|k: int|
                        0 <= k < before.len() && (#[trigger] before[k]).allocated && before[k].start
                            == kernel_start_addr;
                    let high = choose|k: int|
                        0 <= k < before.len() && (#[trigger] before[k]).allocated && before[k].end
                            == kernel_end_addr;
                    assert(after[low].allocated && after[low].start == kernel_start_addr);
                    assert(after[high].allocated && after[high].end == kernel_end_addr);
                }
            }
        }
        i += 1;
    }
    proof {
        assert(sections@.take(sections.len() as int) =~= sections@);
        let k = choose|k: int| 0 <= k < sections.len() && (#[trigger] sections[k]).allocated;
        assert(found);
        lemma_kernel_bounds(sections@, kernel_start_addr, kernel_end_addr);
    }
    (kernel_start_addr, kernel_end_addr)
}

/// Sets the memory up from what the boot loader reports, where the top
/// table that the machine walks lies in `previous_root`: builds the
/// kernel's own address space, maps the heap, and keeps the pages above
/// the heap for stacks. Nothing is done to the machine here; the second
/// part of the answer says what the caller has to do to it.
pub fn init(boot_info: &BootInformation, previous_root: Frame) -> (result: Result<
    (MemoryController, Vec<MachineStep>),
    MemoryError,
>)
    requires
        boot_info.valid(),
        previous_root.number < PAGE_LIMIT,
    ensures
        match init_model(boot_info, previous_root).1 {
            Ok(root) => {
                &&& result is Ok
                &&& result.unwrap().0.wf()
                &&& result.unwrap().0.memory() == init_model(boot_info, previous_root).0
                &&& result.unwrap().0.root() == root
                &&& result.unwrap().0.stack_pages() == (
                    (HEAP_FIRST_PAGE + HEAP_PAGES) as nat,
                    (HEAP_FIRST_PAGE + HEAP_PAGES + STACK_RANGE_PAGES - 1) as nat,
                )
                &&& result.unwrap().1@ == activation_steps(previous_root, root)
            },
            Err(e) => result matches Err(error) && error == e,
        },
{
    let (kernel_start_addr, kernel_end_addr) = kernel_bounds(&boot_info.sections);
    proof {
        let low = choose|k: int|
            0 <= k < boot_info.sections.len() && (#[trigger] boot_info.sections[k]).allocated
                && boot_info.sections[k].start == kernel_start_addr;
        let high = choose|k: int|
            0 <= k < boot_info.sections.len() && (#[trigger] boot_info.sections[k]).allocated
                && boot_info.sections[k].end == kernel_end_addr;
        assert(boot_info.sections[low].valid());
        assert(boot_info.sections[high].valid());
    }
    let mut frame_allocator = AreaFrameAllocator::new(
        kernel_start_addr,
        kernel_end_addr,
        boot_info.start,
        boot_info.end,
        boot_info.memory_areas.as_slice(),
    );
    let (mut active_page_table, steps) = match remap_kernel(
        &mut frame_allocator,
        boot_info,
        previous_root,
    ) {
        Ok(remapped) => remapped,
        Err(e) => {
            return Err(e);
        },
    };
    match map_heap(&mut active_page_table, &mut frame_allocator) {
        Ok(_) => {},
        Err(e) => {
            return Err(e);
        },
    }
    let (_, heap_end_page) = heap_pages();
    let stack_allocator = StackAllocator::new(
        PageRange::inclusive(
            Page { number: heap_end_page.number + 1 },
            Page { number: heap_end_page.number + STACK_RANGE_PAGES },
        ),
    );
    Ok((MemoryController { active_page_table, frame_allocator, stack_allocator }, steps))
}

/// After the memory is set up every page of the heap is mapped, present
/// and writable, to a frame that was free at boot, a higher page to a
/// higher frame, and the kernel's own address space is as it was built
/// but for the heap.
pub proof fn lemma_init_heap(boot_info: &BootInformation, previous_root: Frame, page: Page)
    requires
        boot_info.valid(),
        init_model(boot_info, previous_root).1 is Ok,
        HEAP_FIRST_PAGE <= page.number < HEAP_FIRST_PAGE + HEAP_PAGES,
    ensures
        ({
            let remapped = remap_model(
                boot_free_frames(boot_info),
                boot_info.sections@,
                boot_info.start,
                boot_info.end,
                previous_root,
            ).0;
            let memory = init_model(boot_info, previous_root).0;
            &&& memory.table.mappings.contains_key(page)
            &&& memory.table.mappings[page].flags == EntryFlags::writable_data()
            &&& boot_free_frames(boot_info).contains(
                memory.table.mappings[page].frame.number as nat,
            )
            &&& !memory.free.contains(memory.table.mappings[page].frame.number as nat)
            &&& !remapped.table.mappings.contains_key(page)
            &&& remapped.grows_to(memory)
            &&& forall|other: Page|
                page.number < other.number < HEAP_FIRST_PAGE + HEAP_PAGES ==> {
                    memory.table.mappings[page].frame.number < (
                    #[trigger] memory.table.mappings[other]).frame.number
                }
        }),
{
    let free = boot_free_frames(boot_info);
    let remapped = remap_model(
        free,
        boot_info.sections@,
        boot_info.start,
        boot_info.end,
        previous_root,
    ).0;
    lemma_remap_frees_nothing(
        free,
        boot_info.sections@,
        boot_info.start,
        boot_info.end,
        previous_root,
    );
    assert forall|f: nat| free.contains(f) implies f < 0x100_0000_0000 by {
        let i = choose|i: int|
            0 <= i < boot_info.memory_areas@.len() && (#[trigger] boot_info.memory_areas@[i]).holds(
                f,
            );
        assert(boot_info.memory_areas[i].valid());
    }
    remapped.lemma_map_fresh_range(
        HEAP_FIRST_PAGE as nat,
        HEAP_PAGES as nat,
        EntryFlags::writable_data(),
    );
}

/// The lowest start and the highest end of the loaded sections are what
/// `kernel_start` and `kernel_end` name.
pub proof fn lemma_kernel_bounds(sections: Seq<KernelSection>, start: u64, end: u64)
    requires
        is_kernel_start(sections, start),
        is_kernel_end(sections, end),
    ensures
        kernel_start(sections) == start,
        kernel_end(sections) == end,
{
    let s = kernel_start(sections);
    let e = kernel_end(sections);
    assert(is_kernel_start(sections, s));
    assert(is_kernel_end(sections, e));
}

} // verus!
