//! The memory subsystem as mathematics: which page leads where, which
//! page tables exist, which frames are free, and how each operation
//! changes the three.

use vstd::prelude::*;
use super::address::{Frame, Page};
use super::frame_set::{
    available, inhabited, least, lemma_least_exists, lemma_without_least_subset, nth_least,
    without_least,
};
use super::page_table::{EntryFlags, Mapping};
use super::MemoryError;

verus! {

/// How many pages a table of the given level spans: 512 to the power of
/// the level.
pub open spec fn span(level: nat) -> nat {
    if level == 0 {
        1
    } else if level == 1 {
        512
    } else if level == 2 {
        262144
    } else if level == 3 {
        134217728
    } else {
        68719476736
    }
}

/// The name of the table of the given level, 1 to 3, through which the
/// page is reached: the level, and the page number without the digits
/// that index that table and those below it.
pub open spec fn table_of(page: nat, level: nat) -> (nat, nat) {
    (level, page / span(level))
}

/// A hierarchy of page tables, as far as its users can tell.
pub struct TableModel {
    /// Where each mapped page leads.
    pub mappings: Map<Page, Mapping>,
    /// The tables of levels 1 to 3 that exist, each with the frame that
    /// holds it.
    pub tables: Map<(nat, nat), Frame>,
}

impl TableModel {
    /// How many tables are yet to be made before the page can be mapped.
    pub open spec fn missing(self, page: nat) -> nat {
        if !self.tables.contains_key(table_of(page, 3)) {
            3
        } else if !self.tables.contains_key(table_of(page, 2)) {
            2
        } else if !self.tables.contains_key(table_of(page, 1)) {
            1
        } else {
            0
        }
    }

    /// The page cannot be mapped: it is mapped already, or it lies in the
    /// window of the recursive entry.
    pub open spec fn blocked(self, page: Page) -> bool {
        self.mappings.contains_key(page) || page.number / 134217728 == 511
    }

    /// The tables of the hierarchy with those of the page's tables made
    /// that `got` frames of `free` pay for, where `need` are missing. The
    /// missing tables are those of the levels from `need` down to 1, and
    /// they are made in that order.
    pub open spec fn with_tables(self, page: nat, need: nat, got: nat, free: Set<nat>) -> Map<
        (nat, nat),
        Frame,
    > {
        Map::new(
            |id: (nat, nat)|
                self.tables.contains_key(id)
                    || (need - got < id.0 <= need && id == table_of(page, id.0)),
            |id: (nat, nat)|
                if self.tables.contains_key(id) {
                    self.tables[id]
                } else {
                    frame_of_new_table(free, need, id.0)
                },
        )
    }
}

/// The frame in which the table of level `level` is made where the tables
/// of the levels from `need` down are missing and are made in that order,
/// each in the lowest frame of `free` that is left.
pub open spec fn frame_of_new_table(free: Set<nat>, need: nat, level: nat) -> Frame {
    Frame { number: nth_least(free, (need - level) as nat).unwrap() as u64 }
}

/// A hierarchy of page tables together with the frames that are free.
pub struct MemoryModel {
    pub table: TableModel,
    pub free: Set<nat>,
}

impl MemoryModel {
    /// Maps the page: the tables that are missing on the way to it are
    /// made first, from the top down, each in the lowest free frame.
    /// Without frames enough for them the page stays unmapped, and the
    /// tables that were paid for stay.
    pub open spec fn map_to(self, page: Page, mapping: Mapping) -> (
        MemoryModel,
        Result<(), MemoryError>,
    ) {
        if self.table.blocked(page) {
            (self, Err(MemoryError::MappingConflict))
        } else {
            let need = self.table.missing(page.number as nat);
            let got = available(self.free, need);
            let tables = self.table.with_tables(page.number as nat, need, got, self.free);
            let free = without_least(self.free, got);
            if got == need {
                (
                    MemoryModel {
                        table: TableModel {
                            mappings: self.table.mappings.insert(page, mapping),
                            tables,
                        },
                        free,
                    },
                    Ok(()),
                )
            } else {
                (
                    MemoryModel {
                        table: TableModel { mappings: self.table.mappings, tables },
                        free,
                    },
                    Err(MemoryError::AllocationExhausted),
                )
            }
        }
    }

    /// Takes the page's mapping away.
    pub open spec fn unmap(self, page: Page) -> (MemoryModel, Result<Frame, MemoryError>) {
        if self.table.mappings.contains_key(page) {
            (
                MemoryModel {
                    table: TableModel {
                        mappings: self.table.mappings.remove(page),
                        tables: self.table.tables,
                    },
                    free: self.free,
                },
                Ok(self.table.mappings[page].frame),
            )
        } else {
            (self, Err(MemoryError::PageNotMapped))
        }
    }

    /// Maps the page to the lowest free frame. The frame is taken before
    /// the page is looked at, and is gone whatever comes of the mapping.
    pub open spec fn map_fresh(self, page: Page, flags: EntryFlags) -> (
        MemoryModel,
        Result<(), MemoryError>,
    ) {
        if !inhabited(self.free) {
            (self, Err(MemoryError::AllocationExhausted))
        } else {
            let frame = Frame { number: least(self.free) as u64 };
            MemoryModel { table: self.table, free: self.free.remove(least(self.free)) }.map_to(
                page,
                Mapping { frame, flags },
            )
        }
    }

    /// Maps `count` pages from number `first` on, in ascending order, each
    /// to the lowest frame that is free when its turn comes, and stops at
    /// the first page that cannot be mapped.
    pub open spec fn map_fresh_range(self, first: nat, count: nat, flags: EntryFlags) -> (
        MemoryModel,
        Result<(), MemoryError>,
    )
        decreases count,
    {
        if count == 0 {
            (self, Ok(()))
        } else {
            let (next, outcome) = self.map_fresh(Page { number: first as u64 }, flags);
            if outcome is Err {
                (next, outcome)
            } else {
                next.map_fresh_range(first + 1, (count - 1) as nat, flags)
            }
        }
    }

    /// Maps `count` pages from number `first` on, in ascending order, each
    /// to the frame of its own number, and stops at the first page that
    /// cannot be mapped.
    pub open spec fn identity_map_range(self, first: nat, count: nat, flags: EntryFlags) -> (
        MemoryModel,
        Result<(), MemoryError>,
    )
        decreases count,
    {
        if count == 0 {
            (self, Ok(()))
        } else {
            let (next, outcome) = self.map_to(
                Page { number: first as u64 },
                Mapping { frame: Frame { number: first as u64 }, flags },
            );
            if outcome is Err {
                (next, outcome)
            } else {
                next.identity_map_range(first + 1, (count - 1) as nat, flags)
            }
        }
    }
}

impl MemoryModel {
    /// Mapping one page more is mapping the pages before it and then that
    /// one.
    pub proof fn lemma_map_fresh_range_extend(self, first: nat, count: nat, flags: EntryFlags)
        requires
            self.map_fresh_range(first, count, flags).1 is Ok,
        ensures
            self.map_fresh_range(first, count + 1, flags) == self.map_fresh_range(
                first,
                count,
                flags,
            ).0.map_fresh(Page { number: (first + count) as u64 }, flags),
        decreases count,
    {
        if count == 0 {
            let (next, outcome) = self.map_fresh(Page { number: first as u64 }, flags);
            if outcome is Ok {
                assert(next.map_fresh_range(first + 1, 0, flags)
                    == (next, Ok::<(), MemoryError>(())));
                assert(outcome == Ok::<(), MemoryError>(()));
            }
        } else {
            let (next, outcome) = self.map_fresh(Page { number: first as u64 }, flags);
            next.lemma_map_fresh_range_extend(first + 1, (count - 1) as nat, flags);
        }
    }
}

impl MemoryModel {
    /// Every mapping of `self` is one of `later`, and every free frame of
    /// `later` is one of `self`: nothing was unmapped, nothing was freed.
    pub open spec fn grows_to(self, later: MemoryModel) -> bool {
        &&& later.free.subset_of(self.free)
        &&& forall|id: (nat, nat)| #[trigger]
            self.table.tables.contains_key(id) ==> later.table.tables.contains_key(id)
                && later.table.tables[id] == self.table.tables[id]
        &&& forall|page: Page| #[trigger]
            self.table.mappings.contains_key(page) ==> later.table.mappings.contains_key(page)
                && later.table.mappings[page] == self.table.mappings[page]
    }

    /// Mapping a page adds at most that page, and takes no frame but a
    /// free one.
    pub proof fn lemma_map_to(self, page: Page, mapping: Mapping)
        ensures
            self.grows_to(self.map_to(page, mapping).0),
            self.map_to(page, mapping).1 is Ok ==> !self.table.blocked(page) && self.map_to(
                page,
                mapping,
            ).0.table.mappings == self.table.mappings.insert(page, mapping),
            self.map_to(page, mapping).1 is Err ==> self.map_to(page, mapping).0.table.mappings
                == self.table.mappings,
    {
        let need = self.table.missing(page.number as nat);
        lemma_without_least_subset(self.free, available(self.free, need));
    }

    /// Mapping a page to a fresh frame adds at most that page, and the
    /// frame it leads to was the lowest free one.
    pub proof fn lemma_map_fresh(self, page: Page, flags: EntryFlags)
        requires
            forall|f: nat| self.free.contains(f) ==> f < 0x100_0000_0000,
        ensures
            self.grows_to(self.map_fresh(page, flags).0),
            self.map_fresh(page, flags).1 is Ok ==> {
                &&& !self.table.blocked(page)
                &&& inhabited(self.free)
                &&& self.free.contains(least(self.free))
                &&& self.map_fresh(page, flags).0.table.mappings == self.table.mappings.insert(
                    page,
                    Mapping { frame: Frame { number: least(self.free) as u64 }, flags },
                )
                &&& forall|f: nat| #[trigger]
                    self.map_fresh(page, flags).0.free.contains(f) ==> least(self.free) < f
            },
            self.map_fresh(page, flags).1 is Err ==> self.map_fresh(page, flags).0.table.mappings
                == self.table.mappings,
    {
        if inhabited(self.free) {
            lemma_least_exists(self.free);
            let taken = MemoryModel { table: self.table, free: self.free.remove(least(self.free)) };
            let frame = Frame { number: least(self.free) as u64 };
            taken.lemma_map_to(page, Mapping { frame, flags });
        }
    }

    /// What mapping a range of pages to fresh frames comes to where it
    /// succeeds: the pages of the range are the new mappings, they were
    /// not mapped before, each leads with the flags given to a frame that
    /// was free and no longer is, and a higher page leads to a higher
    /// frame. Whether it succeeds or not, nothing is unmapped or freed.
    pub proof fn lemma_map_fresh_range(self, first: nat, count: nat, flags: EntryFlags)
        requires
            first + count <= 0x10_0000_0000,
            forall|f: nat| self.free.contains(f) ==> f < 0x100_0000_0000,
        ensures
            self.grows_to(self.map_fresh_range(first, count, flags).0),
            forall|page: Page| #[trigger]
                self.map_fresh_range(first, count, flags).0.table.mappings.contains_key(page)
                    ==> self.table.mappings.contains_key(page) || first <= page.number < first
                    + count,
            self.map_fresh_range(first, count, flags).1 is Ok ==> {
                let after = self.map_fresh_range(first, count, flags).0;
                &&& forall|page: Page|
                    first <= page.number < first + count ==> {
                        &&& !self.table.blocked(page)
                        &&& #[trigger] after.table.mappings.contains_key(page)
                        &&& after.table.mappings[page].flags == flags
                        &&& self.free.contains(after.table.mappings[page].frame.number as nat)
                        &&& !after.free.contains(after.table.mappings[page].frame.number as nat)
                        &&& forall|f: nat| #[trigger]
                            after.free.contains(f) ==> after.table.mappings[page].frame.number < f
                    }
                &&& forall|page: Page, other: Page|
                    first <= page.number < other.number < first + count ==> (
                    #[trigger] after.table.mappings[page]).frame.number < (
                    #[trigger] after.table.mappings[other]).frame.number
            },
        decreases count,
    {
        if count > 0 {
            let page = Page { number: first as u64 };
            let (next, outcome) = self.map_fresh(page, flags);
            self.lemma_map_fresh(page, flags);
            if outcome is Ok {
                next.lemma_map_fresh_range(first + 1, (count - 1) as nat, flags);
                let after = next.map_fresh_range(first + 1, (count - 1) as nat, flags).0;
                assert(after == self.map_fresh_range(first, count, flags).0);
                if next.map_fresh_range(first + 1, (count - 1) as nat, flags).1 is Ok {
                    assert(next.table.mappings.contains_key(page));
                    assert forall|other: Page| first <= other.number < first + count implies {
                        &&& !self.table.blocked(other)
                        &&& #[trigger] after.table.mappings.contains_key(other)
                        &&& after.table.mappings[other].flags == flags
                        &&& self.free.contains(after.table.mappings[other].frame.number as nat)
                        &&& !after.free.contains(after.table.mappings[other].frame.number as nat)
                        &&& forall|f: nat| #[trigger]
                            after.free.contains(f) ==> after.table.mappings[other].frame.number < f
                    } by {
                        if other.number == first {
                            assert(other == page);
                            assert(after.table.mappings.contains_key(other));
                            assert(after.table.mappings[other] == next.table.mappings[other]);
                            assert(after.table.mappings[other].flags == flags);
                            let frame = after.table.mappings[other].frame.number as nat;
                            assert(self.free.contains(frame));
                            assert(!after.free.contains(frame));
                        } else {
                            assert(first + 1 <= other.number < first + 1 + (count - 1) as nat);
                            assert(!next.table.blocked(other));
                            assert(after.table.mappings.contains_key(other));
                            assert(!self.table.blocked(other));
                            let frame = after.table.mappings[other].frame.number as nat;
                            assert(next.free.contains(frame));
                        }
                    }
                    assert forall|one: Page, other: Page|
                        first <= one.number < other.number < first + count implies (
                    #[trigger] after.table.mappings[one]).frame.number < (
                    #[trigger] after.table.mappings[other]).frame.number by {
                        assert(after.table.mappings.contains_key(other));
                        if one.number == first {
                            assert(one == page);
                            let frame = after.table.mappings[other].frame.number as nat;
                            assert(next.free.contains(frame));
                        }
                    }
                }
            }
        }
    }

    /// What mapping a range of pages to the frames of their own numbers
    /// comes to where it succeeds: the pages of the range are the new
    /// mappings, they were not mapped before, and each leads to its own
    /// frame with the flags given. Whether it succeeds or not, nothing is
    /// unmapped or freed.
    pub proof fn lemma_identity_map_range(self, first: nat, count: nat, flags: EntryFlags)
        requires
            first + count <= 0x10_0000_0000,
        ensures
            self.grows_to(self.identity_map_range(first, count, flags).0),
            forall|page: Page| #[trigger]
                self.identity_map_range(first, count, flags).0.table.mappings.contains_key(page)
                    ==> self.table.mappings.contains_key(page) || first <= page.number < first
                    + count,
            self.identity_map_range(first, count, flags).1 is Ok ==> {
                let after = self.identity_map_range(first, count, flags).0;
                forall|page: Page|
                    first <= page.number < first + count ==> {
                        &&& !self.table.blocked(page)
                        &&& #[trigger] after.table.mappings.contains_key(page)
                        &&& after.table.mappings[page] == Mapping {
                            frame: Frame { number: page.number },
                            flags,
                        }
                    }
            },
        decreases count,
    {
        if count > 0 {
            let page = Page { number: first as u64 };
            let mapping = Mapping { frame: Frame { number: first as u64 }, flags };
            let (next, outcome) = self.map_to(page, mapping);
            self.lemma_map_to(page, mapping);
            if outcome is Ok {
                next.lemma_identity_map_range(first + 1, (count - 1) as nat, flags);
                let after = next.identity_map_range(first + 1, (count - 1) as nat, flags).0;
                assert(after == self.identity_map_range(first, count, flags).0);
                if next.identity_map_range(first + 1, (count - 1) as nat, flags).1 is Ok {
                    assert(next.table.mappings.contains_key(page));
                    assert forall|other: Page| first <= other.number < first + count implies {
                        &&& !self.table.blocked(other)
                        &&& #[trigger] after.table.mappings.contains_key(other)
                        &&& after.table.mappings[other] == Mapping {
                            frame: Frame { number: other.number },
                            flags,
                        }
                    } by {
                        if other.number == first {
                            assert(other == page);
                            assert(after.table.mappings.contains_key(other));
                            assert(after.table.mappings[other] == next.table.mappings[other]);
                        } else {
                            assert(first + 1 <= other.number < first + 1 + (count - 1) as nat);
                            assert(!next.table.blocked(other));
                            assert(after.table.mappings.contains_key(other));
                            assert(!self.table.blocked(other));
                        }
                    }
                }
            }
        }
    }
}

} // verus!
