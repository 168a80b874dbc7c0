//! Page tables: four levels of 512 entries each, held as an owned tree.

use vstd::arithmetic::div_mod::{lemma_div_by_multiple, lemma_div_denominator};
use vstd::prelude::*;
use super::address::{Frame, Page, ENTRY_COUNT, PAGE_LIMIT};
use super::area_frame_allocator::AreaFrameAllocator;
use super::frame_set::{
    available, inhabited, is_least, least, lemma_available_bound, lemma_least_unique, nth_least,
    without_least,
};
use super::model::{frame_of_new_table, span, table_of, MemoryModel, TableModel};
use super::MemoryError;

verus! {

/// The level of the top table of a hierarchy.
pub const TOP_LEVEL: u8 = 4;

/// The entry of the top table that refers to the top table itself.
pub const RECURSIVE_INDEX: usize = 511;

/// What a mapping allows.
#[derive(Clone, Copy, Debug, PartialEq, Eq, Structural)]
pub struct EntryFlags {
    pub present: bool,
    pub writable: bool,
    pub no_execute: bool,
}

impl EntryFlags {
    /// Present and writable, with code allowed to run: what the heap, the
    /// stacks, the display buffer and the boot information get.
    pub open spec fn spec_writable_data() -> EntryFlags {
        EntryFlags { present: true, writable: true, no_execute: false }
    }

    /// Present and writable, with code allowed to run.
    #[verifier::when_used_as_spec(spec_writable_data)]
    pub fn writable_data() -> (flags: EntryFlags)
        ensures
            flags == Self::spec_writable_data(),
    {
        EntryFlags { present: true, writable: true, no_execute: false }
    }
}

/// Where a page leads: to a frame, with what is allowed there.
#[derive(Clone, Copy, Debug, PartialEq, Eq, Structural)]
pub struct Mapping {
    pub frame: Frame,
    pub flags: EntryFlags,
}

/// One slot of a page table.
#[derive(Debug)]
pub enum Entry {
    /// Nothing is mapped through this slot.
    Unused,
    /// The slot leads to the table of the next lower level.
    Table(Box<PageTable>),
    /// The slot, in a table of level 1, maps a page.
    Leaf(Mapping),
    /// The slot, in the top table, leads back to the top table.
    SelfReference,
}

/// A page table and, through its entries, the tables below it.
#[derive(Debug)]
pub struct PageTable {
    /// The frame that holds the table in physical memory.
    pub frame: Frame,
    pub entries: Vec<Entry>,
}

/// The index, in the table of the given level, of the entry through which
/// the page with number `page` is reached. Levels count from 1, the
/// tables that map pages, to 4, the top table.
pub open spec fn index_of(page: nat, level: nat) -> int {
    if level == 1 {
        (page % 512) as int
    } else if level == 2 {
        ((page / 512) % 512) as int
    } else if level == 3 {
        ((page / 262144) % 512) as int
    } else {
        ((page / 134217728) % 512) as int
    }
}

/// The two pages are reached through the same entries in the tables of
/// the levels above `low`, up to `high`.
pub open spec fn same_path(page: nat, other: nat, low: nat, high: nat) -> bool {
    forall|level: nat|
        low < level <= high ==> #[trigger] index_of(page, level) == index_of(other, level)
}

impl PageTable {
    /// The table, taken as one of the given level, has 512 entries of the
    /// kinds that its level allows, and so have the tables below it.
    pub open spec fn wf(&self, level: nat) -> bool
        decreases level,
    {
        &&& 1 <= level <= 4
        &&& self.frame.valid()
        &&& self.entries.len() == 512
        &&& forall|i: int|
            0 <= i < 512 ==> match #[trigger] self.entries[i] {
                Entry::Unused => true,
                Entry::Table(child) => level > 1 && child.wf((level - 1) as nat),
                Entry::Leaf(mapping) => level == 1 && mapping.frame.valid(),
                Entry::SelfReference => level == 4 && i == 511,
            }
    }

    /// What the page is mapped to below this table.
    pub open spec fn lookup(&self, level: nat, page: nat) -> Option<Mapping>
        decreases level,
    {
        match self.entries[index_of(page, level)] {
            Entry::Leaf(mapping) => if level == 1 {
                Some(mapping)
            } else {
                None
            },
            Entry::Table(child) => if level > 1 {
                child.lookup((level - 1) as nat, page)
            } else {
                None
            },
            _ => None,
        }
    }

    /// The table of level `target` that the page is reached through exists
    /// below this table.
    pub open spec fn has_table(&self, level: nat, page: nat, target: nat) -> bool
        decreases level,
    {
        match self.entries[index_of(page, level)] {
            Entry::Table(child) => level > 1 && (target == level - 1 || child.has_table(
                (level - 1) as nat,
                page,
                target,
            )),
            _ => false,
        }
    }

    /// The frame of the table of level `target` that the page is reached
    /// through, if that table exists below this table.
    pub open spec fn table_frame(&self, level: nat, page: nat, target: nat) -> Option<Frame>
        decreases level,
    {
        match self.entries[index_of(page, level)] {
            Entry::Table(child) => if level <= 1 {
                None
            } else if target == level - 1 {
                Some(child.frame)
            } else {
                child.table_frame((level - 1) as nat, page, target)
            },
            _ => None,
        }
    }

    /// How many tables are yet to be made below this one before the page
    /// can be mapped.
    pub open spec fn missing_tables(&self, level: nat, page: nat) -> nat
        decreases level,
    {
        if level <= 1 {
            0
        } else {
            match self.entries[index_of(page, level)] {
                Entry::Table(child) => child.missing_tables((level - 1) as nat, page),
                _ => (level - 1) as nat,
            }
        }
    }

    /// The way to the page's entry is taken: by a mapping of the page, or
    /// by an entry that leads to no table.
    pub open spec fn blocked(&self, level: nat, page: nat) -> bool
        decreases level,
    {
        match self.entries[index_of(page, level)] {
            Entry::Unused => false,
            Entry::Table(child) => level <= 1 || child.blocked((level - 1) as nat, page),
            _ => true,
        }
    }

    /// No entry of the table is in use.
    pub open spec fn empty(&self) -> bool {
        &&& self.entries.len() == 512
        &&& forall|i: int| 0 <= i < 512 ==> #[trigger] self.entries[i] is Unused
    }

    /// A table without entries, to be held in `frame`.
    pub fn new(frame: Frame) -> (table: PageTable)
        ensures
            table.frame == frame,
            table.empty(),
    {
        let mut entries: Vec<Entry> = Vec::new();
        let mut i: usize = 0;
        while i < ENTRY_COUNT
            invariant
                i <= 512,
                entries.len() == i,
                forall|k: int| 0 <= k < i ==> #[trigger] entries[k] is Unused,
            decreases 512 - i,
        {
            entries.push(Entry::Unused);
            i += 1;
        }
        PageTable { frame, entries }
    }

    /// The index of the page's entry in this table, of the given level.
    fn entry_index(level: u8, page: Page) -> (index: usize)
        requires
            1 <= level <= 4,
        ensures
            index == index_of(page.number as nat, level as nat),
            index < 512,
    {
        if level == 1 {
            (page.number % 512) as usize
        } else if level == 2 {
            ((page.number / 512) % 512) as usize
        } else if level == 3 {
            ((page.number / 262144) % 512) as usize
        } else {
            ((page.number / 134217728) % 512) as usize
        }
    }

    /// Maps the page below this table, making the tables on the way that
    /// are missing, each in a frame of its own from the allocator.
    pub fn map_in(
        &mut self,
        level: u8,
        page: Page,
        mapping: Mapping,
        allocator: &mut AreaFrameAllocator,
    ) -> (result: Result<(), MemoryError>)
        requires
            old(self).wf(level as nat),
            old(allocator).wf(),
            mapping.frame.valid(),
        ensures
            final(self).wf(level as nat),
            final(self).frame == old(self).frame,
            forall|i: int|
                0 <= i < 512 ==> (final(self).entries[i] is SelfReference) == (old(
                    self,
                ).entries[i] is SelfReference),
            final(allocator).wf(),
            final(allocator).area_list() == old(allocator).area_list(),
            final(allocator).kernel_frames() == old(allocator).kernel_frames(),
            final(allocator).boot_info_frames() == old(allocator).boot_info_frames(),
            map_in_post(
                *old(self),
                *final(self),
                level as nat,
                page.number as nat,
                mapping,
                old(allocator).free_frames(),
                final(allocator).free_frames(),
                result,
            ),
        decreases level,
    {
        let index = Self::entry_index(level, page);
        let ghost p = page.number as nat;
        let ghost free = allocator.free_frames();
        let ghost l = level as nat;
        if level == 1 {
            match self.entries[index] {
                Entry::Unused => {
                    self.entries[index] = Entry::Leaf(mapping);
                    proof {
                        lemma_same_path_step(p, 1);
                    }
                    Ok(())
                },
                _ => Err(MemoryError::MappingConflict),
            }
        } else {
            let unused = match self.entries[index] {
                Entry::Unused => true,
                _ => false,
            };
            if unused {
                match allocator.allocate_frame() {
                    None => {
                        return Err(MemoryError::AllocationExhausted);
                    },
                    Some(frame) => {
                        proof {
                            lemma_least_unique(free, frame.number as nat);
                        }
                        self.entries[index] = Entry::Table(Box::new(PageTable::new(frame)));
                    },
                }
            }
            let ghost middle = *self;
            let ghost middle_free = allocator.free_frames();
            let ghost child_before = match middle.entries[index as int] {
                Entry::Table(child) => *child,
                _ => middle,
            };
            let result = match &mut self.entries[index] {
                Entry::Table(child) => {
                    assert(middle.entries[index as int] == Entry::Table(*child));
                    assert(child.wf((level - 1) as nat));
                    child.map_in(level - 1, page, mapping, allocator)
                },
                _ => Err(MemoryError::MappingConflict),
            };
            proof {
                lemma_same_path_step(p, l);
                if middle.entries[index as int] is Table {
                    let child_after = match self.entries[index as int] {
                        Entry::Table(child) => *child,
                        _ => middle,
                    };
                    let need = old(self).missing_tables(l, p);
                    let got = available(free, need);
                    assert(map_in_post(
                        child_before,
                        child_after,
                        (l - 1) as nat,
                        p,
                        mapping,
                        middle_free,
                        allocator.free_frames(),
                        result,
                    ));
                    assert(self.wf(l));
                    if !old(self).blocked(l, p) {
                        assert forall|q: nat| #[trigger]
                            self.lookup(l, q) == if got == need && same_path(q, p, 0, l) {
                                Some(mapping)
                            } else {
                                old(self).lookup(l, q)
                            } by {
                            if index_of(q, l) == index_of(p, l) {
                                assert(self.lookup(l, q) == child_after.lookup((l - 1) as nat, q));
                            } else {
                                assert(self.entries[index_of(q, l)]
                                    == old(self).entries[index_of(q, l)]);
                            }
                        }
                        assert forall|q: nat, k: nat| #[trigger]
                            self.table_frame(l, q, k) == if 1 <= k < l && same_path(q, p, k, l)
                                && need - got < k <= need {
                                Some(frame_of_new_table(free, need, k))
                            } else {
                                old(self).table_frame(l, q, k)
                            } by {
                            if k < l {
                                lemma_same_path_step2(q, p, k, l);
                            }
                            if index_of(q, l) == index_of(p, l) {
                                assert(self.table_frame(l, q, k) == if k == l - 1 {
                                    Some(child_after.frame)
                                } else {
                                    child_after.table_frame((l - 1) as nat, q, k)
                                });
                                if unused {
                                    assert(middle_free == free.remove(least(free)));
                                    assert(child_before.frame.number == least(free));
                                    if k < l - 1 {
                                        assert(nth_least(free, (need - k) as nat) == nth_least(
                                            middle_free,
                                            (need - 1 - k) as nat,
                                        ));
                                    }
                                } else {
                                    child_before.lemma_missing_bound((l - 1) as nat, p);
                                }
                            } else {
                                assert(self.entries[index_of(q, l)]
                                    == old(self).entries[index_of(q, l)]);
                            }
                        }
                        assert forall|q: nat, k: nat| #[trigger]
                            self.has_table(l, q, k) == (old(self).has_table(l, q, k) || (1 <= k < l
                                && same_path(q, p, k, l) && need - got < k <= need)) by {
                            if k < l {
                                lemma_same_path_step2(q, p, k, l);
                            }
                            if index_of(q, l) == index_of(p, l) {
                                assert(self.has_table(l, q, k) == (k == l - 1
                                    || child_after.has_table((l - 1) as nat, q, k)));
                            } else {
                                assert(self.entries[index_of(q, l)]
                                    == old(self).entries[index_of(q, l)]);
                            }
                        }
                    } else {
                        assert forall|q: nat| #[trigger]
                            self.lookup(l, q) == old(self).lookup(l, q) by {
                            if index_of(q, l) == index_of(p, l) {
                                assert(self.lookup(l, q) == child_after.lookup((l - 1) as nat, q));
                            } else {
                                assert(self.entries[index_of(q, l)]
                                    == old(self).entries[index_of(q, l)]);
                            }
                        }
                        assert forall|q: nat, k: nat| #[trigger]
                            self.has_table(l, q, k) == old(self).has_table(l, q, k) by {
                            if index_of(q, l) == index_of(p, l) {
                                assert(self.has_table(l, q, k) == (k == l - 1
                                    || child_after.has_table((l - 1) as nat, q, k)));
                            } else {
                                assert(self.entries[index_of(q, l)]
                                    == old(self).entries[index_of(q, l)]);
                            }
                        }
                        assert forall|q: nat, k: nat| #[trigger]
                            self.table_frame(l, q, k) == old(self).table_frame(l, q, k) by {
                            if index_of(q, l) == index_of(p, l) {
                                assert(self.table_frame(l, q, k) == if k == l - 1 {
                                    Some(child_after.frame)
                                } else {
                                    child_after.table_frame((l - 1) as nat, q, k)
                                });
                            } else {
                                assert(self.entries[index_of(q, l)]
                                    == old(self).entries[index_of(q, l)]);
                            }
                        }
                    }
                }
            }
            result
        }
    }

    /// What the page is mapped to below this table.
    pub fn find(&self, level: u8, page: Page) -> (found: Option<Mapping>)
        requires
            self.wf(level as nat),
        ensures
            found == self.lookup(level as nat, page.number as nat),
        decreases level,
    {
        let index = Self::entry_index(level, page);
        match &self.entries[index] {
            Entry::Leaf(mapping) => Some(*mapping),
            Entry::Table(child) => child.find(level - 1, page),
            _ => None,
        }
    }

    /// Takes the page's mapping away below this table and hands back the
    /// frame it led to. The tables stay.
    pub fn unmap_in(&mut self, level: u8, page: Page) -> (result: Result<Frame, MemoryError>)
        requires
            old(self).wf(level as nat),
        ensures
            final(self).wf(level as nat),
            final(self).frame == old(self).frame,
            forall|i: int|
                0 <= i < 512 ==> (final(self).entries[i] is SelfReference) == (old(
                    self,
                ).entries[i] is SelfReference),
            unmap_in_post(*old(self), *final(self), level as nat, page.number as nat, result),
        decreases level,
    {
        let index = Self::entry_index(level, page);
        let ghost p = page.number as nat;
        let ghost l = level as nat;
        if level == 1 {
            match self.entries[index] {
                Entry::Leaf(mapping) => {
                    self.entries[index] = Entry::Unused;
                    proof {
                        lemma_same_path_step(p, 1);
                    }
                    Ok(mapping.frame)
                },
                _ => Err(MemoryError::PageNotMapped),
            }
        } else {
            let ghost child_before = match self.entries[index as int] {
                Entry::Table(child) => *child,
                _ => *self,
            };
            let ghost is_table = self.entries[index as int] is Table;
            let result = match &mut self.entries[index] {
                Entry::Table(child) => {
                    assert(old(self).entries[index as int] == Entry::Table(*child));
                    assert(child.wf((level - 1) as nat));
                    child.unmap_in(level - 1, page)
                },
                _ => Err(MemoryError::PageNotMapped),
            };
            proof {
                lemma_same_path_step(p, l);
                if is_table {
                    let child_after = match self.entries[index as int] {
                        Entry::Table(child) => *child,
                        _ => *self,
                    };
                    assert(unmap_in_post(child_before, child_after, (l - 1) as nat, p, result));
                    assert(self.wf(l));
                    assert forall|q: nat| #[trigger]
                        self.lookup(l, q) == if same_path(q, p, 0, l) {
                            None
                        } else {
                            old(self).lookup(l, q)
                        } by {
                        if index_of(q, l) == index_of(p, l) {
                            assert(self.lookup(l, q) == child_after.lookup((l - 1) as nat, q));
                        } else {
                            assert(self.entries[index_of(q, l)]
                                == old(self).entries[index_of(q, l)]);
                        }
                    }
                    assert forall|q: nat, k: nat| #[trigger]
                        self.has_table(l, q, k) == old(self).has_table(l, q, k) by {
                        if index_of(q, l) == index_of(p, l) {
                            assert(self.has_table(l, q, k) == (k == l - 1 || child_after.has_table(
                                (l - 1) as nat,
                                q,
                                k,
                            )));
                        } else {
                            assert(self.entries[index_of(q, l)]
                                == old(self).entries[index_of(q, l)]);
                        }
                    }
                    assert forall|q: nat, k: nat| #[trigger]
                        self.table_frame(l, q, k) == old(self).table_frame(l, q, k) by {
                        if index_of(q, l) == index_of(p, l) {
                            assert(self.table_frame(l, q, k) == if k == l - 1 {
                                Some(child_after.frame)
                            } else {
                                child_after.table_frame((l - 1) as nat, q, k)
                            });
                        } else {
                            assert(self.entries[index_of(q, l)]
                                == old(self).entries[index_of(q, l)]);
                        }
                    }
                }
            }
            result
        }
    }
}

/// How unmapping a page below a table changes the table, and what it
/// answers.
pub open spec fn unmap_in_post(
    before: PageTable,
    after: PageTable,
    level: nat,
    p: nat,
    result: Result<Frame, MemoryError>,
) -> bool {
    &&& result == match before.lookup(level, p) {
        Some(mapping) => Ok::<Frame, MemoryError>(mapping.frame),
        None => Err::<Frame, MemoryError>(MemoryError::PageNotMapped),
    }
    &&& forall|q: nat| #[trigger]
        after.lookup(level, q) == if same_path(q, p, 0, level) {
            None
        } else {
            before.lookup(level, q)
        }
    &&& forall|q: nat, k: nat| #[trigger]
        after.has_table(level, q, k) == before.has_table(level, q, k)
    &&& forall|q: nat, k: nat| #[trigger]
        after.table_frame(level, q, k) == before.table_frame(level, q, k)
}

/// How mapping a page below a table changes the table and the free
/// frames, and what it answers.
pub open spec fn map_in_post(
    before: PageTable,
    after: PageTable,
    level: nat,
    p: nat,
    mapping: Mapping,
    free: Set<nat>,
    free_after: Set<nat>,
    result: Result<(), MemoryError>,
) -> bool {
    let need = before.missing_tables(level, p);
    let got = available(free, need);
    if before.blocked(level, p) {
        &&& result == Err::<(), MemoryError>(MemoryError::MappingConflict)
        &&& free_after == free
        &&& forall|q: nat| #[trigger] after.lookup(level, q) == before.lookup(level, q)
        &&& forall|q: nat, k: nat| #[trigger]
            after.has_table(level, q, k) == before.has_table(level, q, k)
        &&& forall|q: nat, k: nat| #[trigger]
            after.table_frame(level, q, k) == before.table_frame(level, q, k)
    } else {
        &&& got == need ==> result == Ok::<(), MemoryError>(())
        &&& got != need ==> result == Err::<(), MemoryError>(MemoryError::AllocationExhausted)
        &&& free_after == without_least(free, got)
        &&& forall|q: nat| #[trigger]
            after.lookup(level, q) == if got == need && same_path(q, p, 0, level) {
                Some(mapping)
            } else {
                before.lookup(level, q)
            }
        &&& forall|q: nat, k: nat| #[trigger]
            after.has_table(level, q, k) == (before.has_table(level, q, k) || (1 <= k < level
                && same_path(q, p, k, level) && need - got < k <= need))
        &&& forall|q: nat, k: nat| #[trigger]
            after.table_frame(level, q, k) == if 1 <= k < level && same_path(q, p, k, level)
                && need - got < k <= need {
                Some(frame_of_new_table(free, need, k))
            } else {
                before.table_frame(level, q, k)
            }
    }
}

/// Two pages share the way down to a level exactly if they share it down
/// to the level above and the entry there.
pub proof fn lemma_same_path_step(p: nat, level: nat)
    requires
        level >= 1,
    ensures
        forall|q: nat|
            same_path(q, p, 0, level) <==> (#[trigger] index_of(q, level) == index_of(p, level)
                && same_path(q, p, 0, (level - 1) as nat)),
{
    assert forall|q: nat|
        same_path(q, p, 0, level) <==> (#[trigger] index_of(q, level) == index_of(p, level)
            && same_path(q, p, 0, (level - 1) as nat)) by {
        lemma_same_path_step2(q, p, 0, level);
    }
}

/// Two pages share the way from a level down to above `low` exactly if
/// they share the entry at that level and the way from the level below.
pub proof fn lemma_same_path_step2(q: nat, p: nat, low: nat, level: nat)
    requires
        level >= 1,
        low < level,
    ensures
        same_path(q, p, low, level) <==> (index_of(q, level) == index_of(p, level) && same_path(
            q,
            p,
            low,
            (level - 1) as nat,
        )),
{
    if index_of(q, level) == index_of(p, level) && same_path(q, p, low, (level - 1) as nat) {
        assert forall|m: nat| low < m <= level implies #[trigger] index_of(q, m) == index_of(
            p,
            m,
        ) by {
            if m < level {
                assert(low < m <= level - 1);
            }
        }
    }
    if same_path(q, p, low, level) {
        assert(index_of(q, level) == index_of(p, level));
        assert forall|m: nat| low < m <= level - 1 implies #[trigger] index_of(q, m) == index_of(
            p,
            m,
        ) by {
            assert(low < m <= level);
        }
    }
}

/// A thing that the caller has to do to the translation cache before it
/// relies on a change of the page tables.
#[derive(Clone, Copy, Debug, PartialEq, Eq, Structural)]
pub enum Invalidation {
    /// Drop what the cache holds of one page.
    Page(Page),
    /// Drop all that the cache holds.
    All,
}

/// The hierarchy of page tables that the processor walks, or is about to
/// walk: a top table whose last entry leads back to itself, and what
/// hangs below it.
#[derive(Debug)]
pub struct ActiveTable {
    root_table: PageTable,
}

impl View for ActiveTable {
    type V = TableModel;

    closed spec fn view(&self) -> TableModel {
        TableModel {
            mappings: Map::new(
                |page: Page| page.valid() && self.root_table.lookup(4, page.number as nat) is Some,
                |page: Page| self.root_table.lookup(4, page.number as nat).unwrap(),
            ),
            tables: Map::new(
                |id: (nat, nat)|
                    1 <= id.0 <= 3 && id.1 < span((4 - id.0) as nat) && self.root_table.has_table(
                        4,
                        id.1 * span(id.0),
                        id.0,
                    ),
                |id: (nat, nat)|
                    self.root_table.table_frame(4, id.1 * span(id.0), id.0).unwrap(),
            ),
        }
    }
}

impl ActiveTable {
    /// The hierarchy is a tree of four levels, and the last entry of its
    /// top table is the recursive one.
    pub closed spec fn wf(&self) -> bool {
        &&& self.root_table.wf(4)
        &&& self.root_table.entries[511] is SelfReference
    }

    /// The frame that holds the top table.
    pub closed spec fn root(&self) -> Frame {
        self.root_table.frame
    }

    /// A hierarchy that maps nothing: a top table in `frame` with the
    /// recursive entry only.
    pub fn new(frame: Frame) -> (table: ActiveTable)
        requires
            frame.valid(),
        ensures
            table.wf(),
            table.root() == frame,
            table@.mappings == Map::<Page, Mapping>::empty(),
            table@.tables == Map::<(nat, nat), Frame>::empty(),
    {
        let mut root_table = PageTable::new(frame);
        root_table.entries[RECURSIVE_INDEX] = Entry::SelfReference;
        let table = ActiveTable { root_table };
        proof {
            assert(table@.mappings =~= Map::<Page, Mapping>::empty());
            assert(table@.tables =~= Map::<(nat, nat), Frame>::empty());
        }
        table
    }

    /// The top table.
    pub closed spec fn top(&self) -> &PageTable {
        &self.root_table
    }

    /// The top table.
    pub fn top_table(&self) -> (table: &PageTable)
        requires
            self.wf(),
        ensures
            table == self.top(),
            table.wf(4),
            table.entries[511] is SelfReference,
            table.frame == self.root(),
    {
        &self.root_table
    }

    /// The frame that holds the top table.
    pub fn root_frame(&self) -> (frame: Frame)
        ensures
            frame == self.root(),
    {
        self.root_table.frame
    }

    /// Where the page leads, if it is mapped.
    pub fn translate(&self, page: Page) -> (found: Option<Mapping>)
        requires
            self.wf(),
            page.valid(),
        ensures
            found == self@.mappings.get(page),
            found is Some <==> self@.mappings.contains_key(page),
    {
        self.root_table.find(TOP_LEVEL, page)
    }

    /// Maps `page` to `frame` with `flags`. The page tables that are
    /// missing on the way are made first, each in a frame from
    /// `allocator`. A page that is mapped already is left as it is.
    pub fn map_to(
        &mut self,
        page: Page,
        frame: Frame,
        flags: EntryFlags,
        allocator: &mut AreaFrameAllocator,
    ) -> (result: Result<Invalidation, MemoryError>)
        requires
            old(self).wf(),
            old(allocator).wf(),
            page.valid(),
            frame.valid(),
        ensures
            final(self).wf(),
            final(self).root() == old(self).root(),
            final(allocator).wf(),
            final(allocator).area_list() == old(allocator).area_list(),
            final(allocator).kernel_frames() == old(allocator).kernel_frames(),
            final(allocator).boot_info_frames() == old(allocator).boot_info_frames(),
            ({
                let before = MemoryModel { table: old(self)@, free: old(allocator).free_frames() };
                let (after, outcome) = before.map_to(page, Mapping { frame, flags });
                &&& final(self)@ == after.table
                &&& final(allocator).free_frames() == after.free
                &&& match outcome {
                    Ok(_) => result == Ok::<Invalidation, MemoryError>(Invalidation::Page(page)),
                    Err(e) => result == Err::<Invalidation, MemoryError>(e),
                }
            }),
    {
        let ghost p = page.number as nat;
        let mapping = Mapping { frame, flags };
        proof {
            old(self).lemma_model(page);
        }
        let result = self.root_table.map_in(TOP_LEVEL, page, mapping, allocator);
        proof {
            let before = MemoryModel { table: old(self)@, free: old(allocator).free_frames() };
            let (after, outcome) = before.map_to(page, mapping);
            let need = old(self).root_table.missing_tables(4, p);
            let got = available(before.free, need);
            assert(self@.mappings =~= after.table.mappings) by {
                assert forall|q: Page| q.valid() implies (same_path(q.number as nat, p, 0, 4) <==> q
                    == page) by {
                    lemma_same_page(q.number as nat, p);
                }
            }
            assert(self@.tables =~= after.table.tables) by {
                lemma_available_bound(before.free, need);
                assert forall|id: (nat, nat)|
                    (#[trigger] self@.tables.contains_key(id)) == after.table.tables.contains_key(
                        id,
                    ) && (self@.tables.contains_key(id) ==> self@.tables[id]
                        == after.table.tables[id]) by {
                    let k = id.0;
                    if 1 <= k <= 3 {
                        lemma_table_of(p, k);
                    }
                    if 1 <= k <= 3 && id.1 < span((4 - k) as nat) {
                        let rep = id.1 * span(k);
                        let was = old(self).root_table.has_table(4, rep, k);
                        let is = self.root_table.has_table(4, rep, k);
                        let made = same_path(rep, p, k, 4) && need - got < k <= need;
                        lemma_same_table(id.1, p, k);
                        assert(self@.tables.contains_key(id) == is);
                        assert(old(self)@.tables.contains_key(id) == was);
                        assert(is == (was || (!old(self).root_table.blocked(4, p) && made)));
                        if is {
                            assert(self@.tables[id] == self.root_table.table_frame(
                                4,
                                rep,
                                k,
                            ).unwrap());
                        }
                        if was {
                            assert(old(self)@.tables[id] == old(self).root_table.table_frame(
                                4,
                                rep,
                                k,
                            ).unwrap());
                        }
                        let now = self.root_table.table_frame(4, rep, k);
                        let then = old(self).root_table.table_frame(4, rep, k);
                        if !before.table.blocked(page) {
                            assert(after.table.tables == before.table.with_tables(
                                p,
                                need,
                                got,
                                before.free,
                            ));
                            if made {
                                assert(id == table_of(p, k));
                                assert(!was);
                                assert(now == Some(frame_of_new_table(before.free, need, k)));
                                assert(after.table.tables[id] == frame_of_new_table(
                                    before.free,
                                    need,
                                    k,
                                ));
                            } else {
                                assert(now == then);
                                if was {
                                    assert(after.table.tables[id] == old(self)@.tables[id]);
                                }
                            }
                        } else {
                            assert(now == then);
                            assert(after.table.tables == old(self)@.tables);
                        }
                        assert(self@.tables.contains_key(id) == after.table.tables.contains_key(
                            id,
                        ));
                        if is {
                            assert(self@.tables[id] == after.table.tables[id]);
                        }
                    } else {
                        assert(!self@.tables.contains_key(id));
                        assert(!old(self)@.tables.contains_key(id));
                        assert(need <= 3);
                        if !before.table.blocked(page) {
                            assert(after.table.tables == before.table.with_tables(
                                p,
                                need,
                                got,
                                before.free,
                            ));
                            assert(!(need - got < k <= need && id == table_of(p, k)));
                        }
                    }
                }
                assert forall|id: (nat, nat)| self@.tables.contains_key(id) implies #[trigger]
                    self@.tables[id] == after.table.tables[id] by {}
                assert(self@.tables.dom() =~= after.table.tables.dom());
            }
        }
        match result {
            Ok(_) => Ok(Invalidation::Page(page)),
            Err(e) => Err(e),
        }
    }

    /// Maps the page whose number is the frame's to `frame`, so that
    /// virtual and physical addresses are the same there.
    pub fn identity_map(
        &mut self,
        frame: Frame,
        flags: EntryFlags,
        allocator: &mut AreaFrameAllocator,
    ) -> (result: Result<Invalidation, MemoryError>)
        requires
            old(self).wf(),
            old(allocator).wf(),
            frame.number < PAGE_LIMIT,
        ensures
            final(self).wf(),
            final(self).root() == old(self).root(),
            final(allocator).wf(),
            final(allocator).area_list() == old(allocator).area_list(),
            final(allocator).kernel_frames() == old(allocator).kernel_frames(),
            final(allocator).boot_info_frames() == old(allocator).boot_info_frames(),
            ({
                let page = Page { number: frame.number };
                let before = MemoryModel { table: old(self)@, free: old(allocator).free_frames() };
                let (after, outcome) = before.map_to(page, Mapping { frame, flags });
                &&& final(self)@ == after.table
                &&& final(allocator).free_frames() == after.free
                &&& match outcome {
                    Ok(_) => result == Ok::<Invalidation, MemoryError>(Invalidation::Page(page)),
                    Err(e) => result == Err::<Invalidation, MemoryError>(e),
                }
            }),
    {
        self.map_to(Page { number: frame.number }, frame, flags, allocator)
    }

    /// Takes the page's mapping away and hands back the frame it led to.
    /// The page tables stay.
    pub fn unmap(&mut self, page: Page) -> (result: Result<(Frame, Invalidation), MemoryError>)
        requires
            old(self).wf(),
            page.valid(),
        ensures
            final(self).wf(),
            final(self).root() == old(self).root(),
            final(self)@.tables == old(self)@.tables,
            match old(self)@.mappings.get(page) {
                Some(mapping) => {
                    &&& result == Ok::<(Frame, Invalidation), MemoryError>(
                        (mapping.frame, Invalidation::Page(page)),
                    )
                    &&& final(self)@.mappings == old(self)@.mappings.remove(page)
                },
                None => {
                    &&& result == Err::<(Frame, Invalidation), MemoryError>(
                        MemoryError::PageNotMapped,
                    )
                    &&& final(self)@ == old(self)@
                },
            },
    {
        let ghost p = page.number as nat;
        let result = self.root_table.unmap_in(TOP_LEVEL, page);
        proof {
            assert forall|q: Page| q.valid() implies (same_path(q.number as nat, p, 0, 4) <==> q
                == page) by {
                lemma_same_page(q.number as nat, p);
            }
            assert(self@.tables =~= old(self)@.tables);
            if old(self)@.mappings.contains_key(page) {
                assert(self@.mappings =~= old(self)@.mappings.remove(page));
            } else {
                assert(self@.mappings =~= old(self)@.mappings);
            }
        }
        match result {
            Ok(frame) => Ok((frame, Invalidation::Page(page))),
            Err(e) => Err(e),
        }
    }

    /// Maps `count` pages from number `first` on to the frames of the same
    /// numbers, lowest first, and stops at the first that cannot be mapped.
    pub fn identity_map_range(
        &mut self,
        first: u64,
        count: u64,
        flags: EntryFlags,
        allocator: &mut AreaFrameAllocator,
    ) -> (result: Result<(), MemoryError>)
        requires
            old(self).wf(),
            old(allocator).wf(),
            first + count <= PAGE_LIMIT,
        ensures
            final(self).wf(),
            final(self).root() == old(self).root(),
            final(allocator).wf(),
            final(allocator).area_list() == old(allocator).area_list(),
            final(allocator).kernel_frames() == old(allocator).kernel_frames(),
            final(allocator).boot_info_frames() == old(allocator).boot_info_frames(),
            ({
                let before = MemoryModel { table: old(self)@, free: old(allocator).free_frames() };
                let (after, outcome) = before.identity_map_range(first as nat, count as nat, flags);
                &&& final(self)@ == after.table
                &&& final(allocator).free_frames() == after.free
                &&& result == outcome
            }),
    {
        let ghost before = MemoryModel { table: self@, free: allocator.free_frames() };
        let mut done: u64 = 0;
        while done < count
            invariant
                done <= count,
                first + count <= PAGE_LIMIT,
                before == (MemoryModel { table: old(self)@, free: old(allocator).free_frames() }),
                self.wf(),
                self.root() == old(self).root(),
                allocator.wf(),
                allocator.area_list() == old(allocator).area_list(),
                allocator.kernel_frames() == old(allocator).kernel_frames(),
                allocator.boot_info_frames() == old(allocator).boot_info_frames(),
                before.identity_map_range(first as nat, count as nat, flags) == (MemoryModel {
                    table: self@,
                    free: allocator.free_frames(),
                }).identity_map_range((first + done) as nat, (count - done) as nat, flags),
            decreases count - done,
        {
            let frame = Frame { number: first + done };
            let ghost now = MemoryModel { table: self@, free: allocator.free_frames() };
            let ghost step = now.map_to(Page { number: frame.number }, Mapping { frame, flags });
            let ghost rest = (count - done - 1) as nat;
            assert(now.identity_map_range((first + done) as nat, rest + 1, flags) == if step.1
                is Err {
                step
            } else {
                step.0.identity_map_range((first + done + 1) as nat, rest, flags)
            });
            match self.identity_map(frame, flags, allocator) {
                Ok(_) => {},
                Err(e) => {
                    assert(step.1 == Err::<(), MemoryError>(e));
                    assert(step.0 == MemoryModel { table: self@, free: allocator.free_frames() });
                    return Err(e);
                },
            }
            assert(step.0 == MemoryModel { table: self@, free: allocator.free_frames() });
            done += 1;
        }
        Ok(())
    }

    /// Maps `count` pages from number `first` on, lowest first, each to a
    /// frame taken from `allocator` when its turn comes, and stops at the
    /// first that cannot be mapped. The second part of the answer says how
    /// many pages were mapped.
    pub fn map_range(
        &mut self,
        first: u64,
        count: u64,
        flags: EntryFlags,
        allocator: &mut AreaFrameAllocator,
    ) -> (result: (Result<(), MemoryError>, u64))
        requires
            old(self).wf(),
            old(allocator).wf(),
            first + count <= PAGE_LIMIT,
        ensures
            final(self).wf(),
            final(self).root() == old(self).root(),
            final(allocator).wf(),
            final(allocator).area_list() == old(allocator).area_list(),
            final(allocator).kernel_frames() == old(allocator).kernel_frames(),
            final(allocator).boot_info_frames() == old(allocator).boot_info_frames(),
            ({
                let before = MemoryModel { table: old(self)@, free: old(allocator).free_frames() };
                let (after, outcome) = before.map_fresh_range(first as nat, count as nat, flags);
                &&& final(self)@ == after.table
                &&& final(allocator).free_frames() == after.free
                &&& result.0 == outcome
                &&& result.1 <= count
                &&& outcome is Ok ==> result.1 == count
                &&& outcome is Err ==> result.1 < count
                &&& before.map_fresh_range(first as nat, result.1 as nat, flags).1 is Ok
                &&& before.map_fresh_range(first as nat, result.1 as nat, flags).0.table.mappings
                    == after.table.mappings
            }),
    {
        let ghost before = MemoryModel { table: self@, free: allocator.free_frames() };
        let mut done: u64 = 0;
        while done < count
            invariant
                done <= count,
                first + count <= PAGE_LIMIT,
                before == (MemoryModel { table: old(self)@, free: old(allocator).free_frames() }),
                self.wf(),
                self.root() == old(self).root(),
                allocator.wf(),
                allocator.area_list() == old(allocator).area_list(),
                allocator.kernel_frames() == old(allocator).kernel_frames(),
                allocator.boot_info_frames() == old(allocator).boot_info_frames(),
                before.map_fresh_range(first as nat, count as nat, flags) == (MemoryModel {
                    table: self@,
                    free: allocator.free_frames(),
                }).map_fresh_range((first + done) as nat, (count - done) as nat, flags),
                before.map_fresh_range(first as nat, done as nat, flags) == (
                    MemoryModel { table: self@, free: allocator.free_frames() },
                    Ok::<(), MemoryError>(()),
                ),
            decreases count - done,
        {
            let page = Page { number: first + done };
            let ghost free = allocator.free_frames();
            let ghost now = MemoryModel { table: self@, free };
            let ghost step = now.map_fresh(page, flags);
            let ghost rest = (count - done - 1) as nat;
            assert(now.map_fresh_range((first + done) as nat, rest + 1, flags) == if step.1
                is Err {
                step
            } else {
                step.0.map_fresh_range((first + done + 1) as nat, rest, flags)
            });
            let frame = match allocator.allocate_frame() {
                Some(frame) => frame,
                None => {
                    assert(step == (now, Err::<(), MemoryError>(MemoryError::AllocationExhausted)));
                    assert(now == MemoryModel { table: self@, free: allocator.free_frames() });
                    return (Err(MemoryError::AllocationExhausted), done);
                },
            };
            proof {
                lemma_least_unique(free, frame.number as nat);
                assert(frame == Frame { number: least(free) as u64 });
            }
            match self.map_to(page, frame, flags, allocator) {
                Ok(_) => {},
                Err(e) => {
                    assert(step.1 == Err::<(), MemoryError>(e));
                    assert(step.0 == MemoryModel { table: self@, free: allocator.free_frames() });
                    assert(step.0.table.mappings == now.table.mappings);
                    return (Err(e), done);
                },
            }
            proof {
                assert(step.0 == MemoryModel { table: self@, free: allocator.free_frames() });
                before.lemma_map_fresh_range_extend(first as nat, done as nat, flags);
            }
            done += 1;
        }
        (Ok(()), done)
    }

    /// The top table is one of level 4 with the recursive entry in its
    /// last slot.
    pub proof fn lemma_top(&self)
        requires
            self.wf(),
        ensures
            self.top().wf(4),
            self.top().entries[511] is SelfReference,
            self.top().frame == self.root(),
    {
    }

    /// How the tables and their view agree on one page: the page is
    /// mapped to what a walk from the top table finds, and the tables on
    /// its way exist as the walk finds them, in the frames in which it
    /// finds them.
    pub proof fn lemma_model(&self, page: Page)
        requires
            self.wf(),
            page.valid(),
        ensures
            self@.mappings.get(page) == self.top().lookup(4, page.number as nat),
            self.top().blocked(4, page.number as nat) == self@.blocked(page),
            self.top().missing_tables(4, page.number as nat) == self@.missing(page.number as nat),
            forall|k: nat|
                1 <= k <= 3 ==> (self@.tables.contains_key(table_of(page.number as nat, k))
                    == #[trigger] self.top().has_table(4, page.number as nat, k)),
            forall|k: nat|
                1 <= k <= 3 ==> (self@.tables.contains_key(table_of(page.number as nat, k)) == (k
                    > self@.missing(page.number as nat))),
            forall|k: nat|
                1 <= k <= 3 && self@.tables.contains_key(table_of(page.number as nat, k)) ==> (
                #[trigger] self.top().table_frame(4, page.number as nat, k)) == Some(
                    self@.tables[table_of(page.number as nat, k)],
                ),
    {
        let p = page.number as nat;
        reveal_with_fuel(PageTable::blocked, 5);
        reveal_with_fuel(PageTable::lookup, 5);
        reveal_with_fuel(PageTable::missing_tables, 5);
        reveal_with_fuel(PageTable::has_table, 5);
        reveal_with_fuel(PageTable::wf, 5);
        assert forall|k: nat| 1 <= k <= 3 implies (self@.tables.contains_key(table_of(p, k))
            == #[trigger] self.root_table.has_table(4, p, k)) by {
            lemma_table_of(p, k);
            self.root_table.lemma_table_by_path(4, (p / span(k)) * span(k), p, k);
        }
        assert forall|k: nat|
            1 <= k <= 3 && self@.tables.contains_key(table_of(p, k)) implies (
        #[trigger] self.root_table.table_frame(4, p, k)) == Some(self@.tables[table_of(p, k)]) by {
            lemma_table_of(p, k);
            self.root_table.lemma_table_by_path(4, (p / span(k)) * span(k), p, k);
            self.root_table.lemma_table_frame(4, p, k);
        }
        assert(self@.tables.contains_key(table_of(p, 3)) == self.root_table.has_table(4, p, 3));
        assert(self@.tables.contains_key(table_of(p, 2)) == self.root_table.has_table(4, p, 2));
        assert(self@.tables.contains_key(table_of(p, 1)) == self.root_table.has_table(4, p, 1));
        assert(index_of(p, 4) == 511 <==> page.number / 134217728 == 511);
    }
}

impl PageTable {
    /// Whether a table exists, and in which frame it lies, depends only on
    /// the entries above it.
    pub proof fn lemma_table_by_path(&self, level: nat, q: nat, p: nat, target: nat)
        requires
            target < level,
            same_path(q, p, target, level),
        ensures
            self.has_table(level, q, target) == self.has_table(level, p, target),
            self.table_frame(level, q, target) == self.table_frame(level, p, target),
        decreases level,
    {
        assert(index_of(q, level) == index_of(p, level));
        match self.entries[index_of(p, level)] {
            Entry::Table(child) => {
                if target < level - 1 {
                    lemma_same_path_step2(q, p, target, level);
                    child.lemma_table_by_path((level - 1) as nat, q, p, target);
                }
            },
            _ => {},
        }
    }

    /// Below a table of a level fewer tables are missing than the level
    /// says.
    pub proof fn lemma_missing_bound(&self, level: nat, page: nat)
        requires
            level >= 1,
        ensures
            self.missing_tables(level, page) <= level - 1,
        decreases level,
    {
        if level > 1 {
            match self.entries[index_of(page, level)] {
                Entry::Table(child) => {
                    child.lemma_missing_bound((level - 1) as nat, page);
                },
                _ => {},
            }
        }
    }

    /// A table exists exactly if it lies in a frame.
    pub proof fn lemma_table_frame(&self, level: nat, page: nat, target: nat)
        ensures
            self.has_table(level, page, target) == self.table_frame(level, page, target) is Some,
        decreases level,
    {
        match self.entries[index_of(page, level)] {
            Entry::Table(child) => {
                if level > 1 && target != level - 1 {
                    child.lemma_table_frame((level - 1) as nat, page, target);
                }
            },
            _ => {},
        }
    }
}

/// Dividing by 512 again and again is dividing by its powers.
pub proof fn lemma_div_chain(q: nat)
    ensures
        (q / 512) / 512 == q / 262144,
        (q / 262144) / 512 == q / 134217728,
        (q / 512) / 262144 == q / 134217728,
{
    lemma_div_denominator(q as int, 512, 512);
    lemma_div_denominator(q as int, 262144, 512);
    lemma_div_denominator(q as int, 512, 262144);
}

/// A page number is made of its four indices.
pub proof fn lemma_digits(q: nat)
    requires
        q < 68719476736,
    ensures
        q == index_of(q, 1) + 512 * index_of(q, 2) + 262144 * index_of(q, 3) + 134217728
            * index_of(q, 4),
        q / 134217728 == index_of(q, 4),
{
    lemma_div_chain(q);
    let a = q / 512;
    let b = a / 512;
    let c = b / 512;
    assert(q == 512 * a + q % 512);
    assert(a == 512 * b + a % 512);
    assert(b == 512 * c + b % 512);
    assert(c < 512);
}

/// Two page numbers with the same four indices are the same.
pub proof fn lemma_same_page(q: nat, p: nat)
    requires
        q < 68719476736,
        p < 68719476736,
    ensures
        same_path(q, p, 0, 4) <==> q == p,
{
    if same_path(q, p, 0, 4) {
        assert(index_of(q, 1) == index_of(p, 1));
        assert(index_of(q, 2) == index_of(p, 2));
        assert(index_of(q, 3) == index_of(p, 3));
        assert(index_of(q, 4) == index_of(p, 4));
        lemma_digits(q);
        lemma_digits(p);
    }
}

/// The first page below a table is reached through that table.
pub proof fn lemma_table_of(p: nat, level: nat)
    requires
        p < 68719476736,
        1 <= level <= 3,
    ensures
        p / span(level) < span((4 - level) as nat),
        same_path((p / span(level)) * span(level), p, level, 4),
{
    let x = p / span(level);
    let q = x * span(level);
    lemma_div_chain(p);
    lemma_div_chain(q);
    if level == 1 {
        assert(q == x * 512);
        lemma_div_by_multiple(x as int, 512);
        assert(q / 512 == x);
    } else if level == 2 {
        assert(q == x * 262144);
        lemma_div_by_multiple(x as int, 262144);
        assert(q / 262144 == x);
    } else {
        assert(q == x * 134217728);
        lemma_div_by_multiple(x as int, 134217728);
        assert(q / 134217728 == x);
    }
    assert forall|l: nat| level < l <= 4 implies #[trigger] index_of(q, l) == index_of(p, l) by {
    }
}

/// The first page below one table of a level is reached through another
/// table of that level only if the two are the same.
pub proof fn lemma_same_table(x: nat, p: nat, level: nat)
    requires
        p < 68719476736,
        1 <= level <= 3,
        x < span((4 - level) as nat),
    ensures
        same_path(x * span(level), p, level, 4) <==> x == p / span(level),
{
    let q = x * span(level);
    let y = p / span(level);
    lemma_table_of(p, level);
    lemma_div_chain(p);
    lemma_div_chain(q);
    lemma_div_chain(x);
    lemma_div_chain(y);
    if same_path(q, p, level, 4) {
        if level == 1 {
            assert(q == x * 512);
            lemma_div_by_multiple(x as int, 512);
            assert(q / 512 == x);
            assert(index_of(q, 2) == index_of(p, 2));
            assert(index_of(q, 3) == index_of(p, 3));
            assert(index_of(q, 4) == index_of(p, 4));
            assert(x % 512 == y % 512);
            assert((x / 512) % 512 == (y / 512) % 512);
            assert((x / 262144) % 512 == (y / 262144) % 512);
            assert(x == 512 * (x / 512) + x % 512);
            assert(y == 512 * (y / 512) + y % 512);
            assert(x / 512 == 512 * (x / 262144) + (x / 512) % 512);
            assert(y / 512 == 512 * (y / 262144) + (y / 512) % 512);
            assert(x / 262144 < 512);
            assert(y / 262144 < 512);
            assert(x == y);
        } else if level == 2 {
            assert(q == x * 262144);
            lemma_div_by_multiple(x as int, 262144);
            assert(q / 262144 == x);
            assert(index_of(q, 3) == index_of(p, 3));
            assert(index_of(q, 4) == index_of(p, 4));
            assert(x % 512 == y % 512);
            assert((x / 512) % 512 == (y / 512) % 512);
            assert(x == 512 * (x / 512) + x % 512);
            assert(y == 512 * (y / 512) + y % 512);
            assert(x / 512 < 512);
            assert(y / 512 < 512);
            assert(x == y);
        } else {
            assert(q == x * 134217728);
            lemma_div_by_multiple(x as int, 134217728);
            assert(q / 134217728 == x);
            assert(index_of(q, 4) == index_of(p, 4));
        }
    }
}

} // verus!
