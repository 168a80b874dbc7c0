//! Kernel stacks: each a run of mapped pages above a guard page that is
//! kept out of it, cut from a range of pages reserved for stacks.

use vstd::prelude::*;
use super::address::{Page, PageRange, PAGE_LIMIT, PAGE_SIZE};
use super::area_frame_allocator::AreaFrameAllocator;
use super::model::{MemoryModel, TableModel};
use super::page_table::{ActiveTable, EntryFlags, Invalidation, Mapping};
use super::MemoryError;

verus! {

/// A stack in virtual memory: `bottom` is the address of its lowest byte,
/// `top` the address just above its highest.
#[derive(Debug)]
pub struct Stack {
    top: u64,
    bottom: u64,
}

impl Stack {
    /// The address just above the stack's highest byte.
    pub closed spec fn spec_top(&self) -> u64 {
        self.top
    }

    /// The address of the stack's lowest byte.
    pub closed spec fn spec_bottom(&self) -> u64 {
        self.bottom
    }

    /// The number of the stack's lowest page.
    pub open spec fn first_page(&self) -> nat {
        ((self.bottom() / 4096) % 0x10_0000_0000) as nat
    }

    /// The number of the first page above the stack.
    pub open spec fn end_page(&self) -> nat {
        ((self.top() / 4096) % 0x10_0000_0000) as nat
    }

    /// The stack is made of whole pages, at least one, and its top lies
    /// above its bottom.
    pub open spec fn wf(&self) -> bool {
        &&& self.first_page() < self.end_page()
        &&& self.bottom() == page_address(self.first_page())
        &&& self.top() == page_address(self.end_page())
        &&& self.bottom() < self.top()
    }

    fn new(top: u64, bottom: u64) -> (stack: Stack)
        requires
            top > bottom,
        ensures
            stack.spec_top() == top,
            stack.spec_bottom() == bottom,
    {
        Stack { top, bottom }
    }

    /// What is to be dropped from the translation cache before the stack
    /// is used: what the cache holds of each of its pages, lowest first.
    pub fn invalidations(&self) -> (steps: Vec<Invalidation>)
        requires
            self.wf(),
        ensures
            steps@ == Seq::new(
                (self.end_page() - self.first_page()) as nat,
                |i: int| Invalidation::Page(Page { number: (self.first_page() + i) as u64 }),
            ),
    {
        let first = (self.bottom / PAGE_SIZE) % PAGE_LIMIT;
        let end = (self.top / PAGE_SIZE) % PAGE_LIMIT;
        let mut steps: Vec<Invalidation> = Vec::new();
        let mut number = first;
        while number < end
            invariant
                first <= number <= end,
                end < PAGE_LIMIT,
                steps@ == Seq::new(
                    (number - first) as nat,
                    |i: int| Invalidation::Page(Page { number: (first + i) as u64 }),
                ),
            decreases end - number,
        {
            steps.push(Invalidation::Page(Page { number }));
            proof {
                assert(steps@ =~= Seq::new(
                    (number + 1 - first) as nat,
                    |i: int| Invalidation::Page(Page { number: (first + i) as u64 }),
                ));
            }
            number += 1;
        }
        proof {
            assert(steps@ =~= Seq::new(
                (self.end_page() - self.first_page()) as nat,
                |i: int| Invalidation::Page(Page { number: (self.first_page() + i) as u64 }),
            ));
        }
        steps
    }

    /// The address just above the stack's highest byte.
    #[verifier::when_used_as_spec(spec_top)]
    pub fn top(&self) -> (addr: u64)
        ensures
            addr == self.spec_top(),
    {
        self.top
    }

    /// The address of the stack's lowest byte.
    #[verifier::when_used_as_spec(spec_bottom)]
    pub fn bottom(&self) -> (addr: u64)
        ensures
            addr == self.spec_bottom(),
    {
        self.bottom
    }
}

/// The address of the first byte of the page with the given number.
pub open spec fn page_address(number: nat) -> int {
    (Page { number: number as u64 }).spec_start_address()
}

/// What a request for a stack of `size` pages comes to, where `next` is
/// the lowest page of the range not yet given away and `last` the highest
/// page of the range. The answer holds the next page after the request,
/// the memory after it, and the stack's top and bottom addresses.
///
/// The page `next` becomes the guard page and is left as it is; the
/// `size` pages above it become the stack. Where the stack cannot be had,
/// the range and the mappings are as before, though frames taken and page
/// tables made on the way stay so.
pub open spec fn stack_request(next: nat, last: nat, memory: MemoryModel, size: nat) -> (
    nat,
    MemoryModel,
    Result<(int, int), MemoryError>,
) {
    if size == 0 {
        (next, memory, Err(MemoryError::EmptyStack))
    } else if next + size > last {
        (next, memory, Err(MemoryError::StackRangeExhausted))
    } else {
        let (after, outcome) = memory.map_fresh_range(next + 1, size, EntryFlags::writable_data());
        match outcome {
            Ok(_) => (
                next + size + 1,
                after,
                Ok((page_address(next + size + 1), page_address(next + 1))),
            ),
            Err(e) => (
                next,
                MemoryModel {
                    table: TableModel {
                        mappings: memory.table.mappings,
                        tables: after.table.tables,
                    },
                    free: after.free,
                },
                Err(e),
            ),
        }
    }
}

/// A stack that was made lies above its guard page: every page of the
/// stack is mapped, present and writable, to a frame that was free and no
/// longer is, the stack's bottom is the address of the first page above
/// the guard page, and its top that of the first page above the stack.
/// Nothing else has changed its mapping, so that a guard page that was
/// not mapped before is not mapped now.
pub proof fn lemma_stack_mapped(next: nat, last: nat, memory: MemoryModel, size: nat)
    requires
        last < PAGE_LIMIT - 1,
        forall|f: nat| memory.free.contains(f) ==> f < 0x100_0000_0000,
        stack_request(next, last, memory, size).2 is Ok,
    ensures
        ({
            let (after_next, after, outcome) = stack_request(next, last, memory, size);
            let (top, bottom) = outcome.unwrap();
            &&& size > 0
            &&& after_next == next + size + 1
            &&& after_next <= last + 1
            &&& bottom == page_address(next + 1)
            &&& top == page_address(next + size + 1)
            &&& bottom < top
            &&& !memory.table.mappings.contains_key(Page { number: next as u64 })
                ==> !after.table.mappings.contains_key(Page { number: next as u64 })
            &&& forall|page: Page|
                next < page.number <= next + size ==> {
                    &&& #[trigger] after.table.mappings.contains_key(page)
                    &&& !memory.table.mappings.contains_key(page)
                    &&& after.table.mappings[page].flags == EntryFlags::writable_data()
                    &&& memory.free.contains(after.table.mappings[page].frame.number as nat)
                    &&& !after.free.contains(after.table.mappings[page].frame.number as nat)
                }
            &&& forall|page: Page|
                !(next < page.number <= next + size) ==> (
                #[trigger] after.table.mappings.contains_key(page)
                    == memory.table.mappings.contains_key(page))
            &&& memory.grows_to(after)
        }),
{
    memory.lemma_map_fresh_range(next + 1, size, EntryFlags::writable_data());
}

/// Two stacks made one after the other do not touch: the second lies
/// above the first, and between the top of the first and the bottom of
/// the second lies the guard page of the second. The pages of both stacks
/// are mapped, and a guard page that was not mapped before the two were
/// made is not mapped after.
pub proof fn lemma_stacks_apart(
    next: nat,
    last: nat,
    memory: MemoryModel,
    first_size: nat,
    second_size: nat,
)
    requires
        last < PAGE_LIMIT - 1,
        forall|f: nat| memory.free.contains(f) ==> f < 0x100_0000_0000,
        stack_request(next, last, memory, first_size).2 is Ok,
        stack_request(
            stack_request(next, last, memory, first_size).0,
            last,
            stack_request(next, last, memory, first_size).1,
            second_size,
        ).2 is Ok,
    ensures
        ({
            let (between, first_memory, first) = stack_request(next, last, memory, first_size);
            let (_, second_memory, second) = stack_request(
                between,
                last,
                first_memory,
                second_size,
            );
            let (first_top, first_bottom) = first.unwrap();
            let (second_top, second_bottom) = second.unwrap();
            &&& first_bottom < first_top
            &&& second_bottom < second_top
            &&& first_top == page_address(between)
            &&& first_top + 4096 <= second_bottom
            &&& !memory.table.mappings.contains_key(Page { number: between as u64 })
                ==> !second_memory.table.mappings.contains_key(Page { number: between as u64 })
            &&& !memory.table.mappings.contains_key(Page { number: next as u64 })
                ==> !second_memory.table.mappings.contains_key(Page { number: next as u64 })
            &&& forall|page: Page|
                next < page.number <= next + first_size || between < page.number <= between
                    + second_size ==> #[trigger] second_memory.table.mappings.contains_key(page)
        }),
{
    let flags = EntryFlags::writable_data();
    let (between, first_memory, first) = stack_request(next, last, memory, first_size);
    let (_, second_memory, second) = stack_request(between, last, first_memory, second_size);
    memory.lemma_map_fresh_range(next + 1, first_size, flags);
    assert(memory.grows_to(first_memory));
    first_memory.lemma_map_fresh_range(between + 1, second_size, flags);
    assert forall|page: Page|
        next < page.number <= next + first_size || between < page.number <= between
            + second_size implies #[trigger] second_memory.table.mappings.contains_key(page) by {
        if next < page.number <= next + first_size {
            assert(first_memory.table.mappings.contains_key(page));
        }
    }
    let guard = Page { number: between as u64 };
    let low_guard = Page { number: next as u64 };
    if !memory.table.mappings.contains_key(low_guard) {
        assert(!first_memory.table.mappings.contains_key(low_guard));
        assert(!second_memory.table.mappings.contains_key(low_guard));
    }
    if !memory.table.mappings.contains_key(guard) {
        assert(!first_memory.table.mappings.contains_key(guard));
        assert(!second_memory.table.mappings.contains_key(guard));
    }
}

/// The allocator of stacks. It gives the pages of its range away from
/// the lowest upwards and never takes one back.
#[derive(Debug)]
pub struct StackAllocator {
    range: PageRange,
}

impl StackAllocator {
    /// The number of the lowest page not yet given away.
    pub closed spec fn next_page(&self) -> nat {
        self.range.start.number as nat
    }

    /// The number of the highest page of the range.
    pub closed spec fn last_page(&self) -> nat {
        self.range.end.number as nat
    }

    /// The range lies in the address space, with a page above it, so that
    /// the top of every stack has an address.
    pub closed spec fn wf(&self) -> bool {
        self.range.start.number <= PAGE_LIMIT - 1 && self.range.end.number < PAGE_LIMIT - 1
    }

    /// An allocator of stacks over the pages of `page_range`. The range
    /// must stop short of the last page of the address space.
    pub fn new(page_range: PageRange) -> (allocator: StackAllocator)
        requires
            page_range.start.valid(),
            page_range.end.number < PAGE_LIMIT - 1,
        ensures
            allocator.wf(),
            allocator.next_page() == page_range.start.number,
            allocator.last_page() == page_range.end.number,
    {
        Self { range: page_range }
    }

    /// The pages not yet given away.
    pub fn remaining(&self) -> (range: PageRange)
        ensures
            range.start.number == self.next_page(),
            range.end.number == self.last_page(),
    {
        self.range
    }

    /// Makes a stack of `size_in_pages` pages: the lowest page of the
    /// range is kept out of it as the guard page, the pages above it are
    /// mapped to fresh frames, present and writable.
    pub fn allocate_stack(
        &mut self,
        active_table: &mut ActiveTable,
        frame_allocator: &mut AreaFrameAllocator,
        size_in_pages: usize,
    ) -> (result: Result<Stack, MemoryError>)
        requires
            old(self).wf(),
            old(active_table).wf(),
            old(frame_allocator).wf(),
        ensures
            final(self).wf(),
            final(self).last_page() == old(self).last_page(),
            final(active_table).wf(),
            final(active_table).root() == old(active_table).root(),
            final(frame_allocator).wf(),
            final(frame_allocator).area_list() == old(frame_allocator).area_list(),
            final(frame_allocator).kernel_frames() == old(frame_allocator).kernel_frames(),
            final(frame_allocator).boot_info_frames() == old(frame_allocator).boot_info_frames(),
            ({
                let before = MemoryModel {
                    table: old(active_table)@,
                    free: old(frame_allocator).free_frames(),
                };
                let (next, after, outcome) = stack_request(
                    old(self).next_page(),
                    old(self).last_page(),
                    before,
                    size_in_pages as nat,
                );
                &&& final(self).next_page() == next
                &&& final(active_table)@ == after.table
                &&& final(frame_allocator).free_frames() == after.free
                &&& match outcome {
                    Ok((top, bottom)) => {
                        &&& result is Ok
                        &&& result.unwrap().top() == top
                        &&& result.unwrap().bottom() == bottom
                        &&& result.unwrap().wf()
                        &&& result.unwrap().first_page() == old(self).next_page() + 1
                        &&& result.unwrap().end_page() == final(self).next_page()
                    },
                    Err(e) => result matches Err(error) && error == e,
                }
            }),
            size_in_pages == 0 ==> result is Err && final(self).next_page() == old(self).next_page()
                && final(active_table)@ == old(active_table)@
                && final(frame_allocator).free_frames() == old(frame_allocator).free_frames(),
    {
        if size_in_pages == 0 {
            return Err(MemoryError::EmptyStack);
        }
        let size = size_in_pages as u64;
        let start = self.range.start.number;
        let end = self.range.end.number;
        if start > end || size > end - start {
            return Err(MemoryError::StackRangeExhausted);
        }
        let ghost before = MemoryModel {
            table: active_table@,
            free: frame_allocator.free_frames(),
        };
        let flags = EntryFlags::writable_data();
        let (outcome, mapped) = active_table.map_range(start + 1, size, flags, frame_allocator);
        match outcome {
            Ok(_) => {
                let stack_start = Page { number: start + 1 };
                let above = Page { number: start + size + 1 };
                self.range = PageRange { start: above, end: self.range.end };
                Ok(Stack::new(above.start_address(), stack_start.start_address()))
            },
            Err(e) => {
                let ghost full = active_table@.mappings;
                proof {
                    frame_allocator.lemma_free_frames_bounded();
                    old(frame_allocator).lemma_free_frames_bounded();
                    before.lemma_map_fresh_range((start + 1) as nat, mapped as nat, flags);
                }
                let mut undone: u64 = 0;
                while undone < mapped
                    invariant
                        undone <= mapped,
                        start + 1 + mapped <= PAGE_LIMIT,
                        active_table.wf(),
                        active_table.root() == old(active_table).root(),
                        active_table@.tables == before.map_fresh_range(
                            (start + 1) as nat,
                            size as nat,
                            flags,
                        ).0.table.tables,
                        forall|page: Page|
                            before.table.mappings.contains_key(page) ==> {
                                &&& #[trigger] full.contains_key(page)
                                &&& full[page] == before.table.mappings[page]
                                &&& !(start + 1 <= page.number < start + 1 + mapped)
                            },
                        forall|page: Page| #[trigger]
                            full.contains_key(page) ==> before.table.mappings.contains_key(page)
                                || start + 1 <= page.number < start + 1 + mapped,
                        forall|page: Page| #[trigger]
                            active_table@.mappings.contains_key(page) <==> full.contains_key(page)
                                && !(start + 1 <= page.number < start + 1 + undone),
                        forall|page: Page| #[trigger]
                            active_table@.mappings.contains_key(page)
                                ==> active_table@.mappings[page] == full[page],
                    decreases mapped - undone,
                {
                    let page = Page { number: start + 1 + undone };
                    let _ = active_table.unmap(page);
                    undone += 1;
                }
                proof {
                    assert(active_table@.mappings =~= before.table.mappings);
                }
                Err(e)
            },
        }
    }
}

} // verus!
