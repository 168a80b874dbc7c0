//! Page tables as the processor reads them: each entry a word of eight
//! bytes, and each table at its place in the window that the recursive
//! entry opens.

use vstd::prelude::*;
use x86_64::structures::paging::PageTableFlags;
use super::address::{Frame, Page, ENTRY_COUNT, PAGE_SIZE};
use super::model::{span, table_of};
use super::page_table::{
    index_of, lemma_div_chain, ActiveTable, Entry, EntryFlags, Mapping, PageTable, TOP_LEVEL,
};

verus! {

/// `PageTableFlags::PRESENT` of the x86_64 crate, as bits of an entry.
#[verifier::external_body]
fn present_bit() -> (bits: u64)
    ensures
        bits == 1,
{
    PageTableFlags::PRESENT.bits()
}

/// `PageTableFlags::WRITABLE` of the x86_64 crate, as bits of an entry.
#[verifier::external_body]
fn writable_bit() -> (bits: u64)
    ensures
        bits == 2,
{
    PageTableFlags::WRITABLE.bits()
}

/// `PageTableFlags::NO_EXECUTE` of the x86_64 crate, as bits of an entry.
#[verifier::external_body]
fn no_execute_bit() -> (bits: u64)
    ensures
        bits == 0x8000_0000_0000_0000,
{
    PageTableFlags::NO_EXECUTE.bits()
}

impl EntryFlags {
    /// The flags as bits of an entry: bit 0 for present, bit 1 for
    /// writable, bit 63 for closed to execution.
    pub open spec fn spec_bits(&self) -> u64 {
        ((if self.present {
            1int
        } else {
            0int
        }) + (if self.writable {
            2int
        } else {
            0int
        }) + (if self.no_execute {
            0x8000_0000_0000_0000int
        } else {
            0int
        })) as u64
    }

    /// The flags as bits of an entry.
    #[verifier::when_used_as_spec(spec_bits)]
    pub fn bits(&self) -> (bits: u64)
        ensures
            bits == self.spec_bits(),
    {
        let mut bits: u64 = 0;
        if self.present {
            bits = bits + present_bit();
        }
        if self.writable {
            bits = bits + writable_bit();
        }
        if self.no_execute {
            bits = bits + no_execute_bit();
        }
        bits
    }
}

/// The word that stands for the entry in a table held in the frame `own`:
/// zero for an unused entry, else the address of the frame that the entry
/// leads to together with the flag bits. An entry that leads to a table,
/// the recursive one too, is present and writable.
pub open spec fn entry_word(entry: Entry, own: Frame) -> u64 {
    match entry {
        Entry::Unused => 0,
        Entry::Table(child) => (child.frame.number * 4096 + 3) as u64,
        Entry::Leaf(mapping) => (mapping.frame.number * 4096 + mapping.flags.bits()) as u64,
        Entry::SelfReference => (own.number * 4096 + 3) as u64,
    }
}

/// The number of the page at which the recursive entry shows the table of
/// the given level that lies on the way to the pages `prefix * 512^level`
/// and following: the table's own indices, preceded by as many times 511
/// as the table has levels below it, and one more.
pub open spec fn window_page(level: nat, prefix: nat) -> nat {
    if level == 1 {
        511 * 134217728 + prefix
    } else if level == 2 {
        511 * 134217728 + 511 * 262144 + prefix
    } else if level == 3 {
        511 * 134217728 + 511 * 262144 + 511 * 512 + prefix
    } else {
        68719476735
    }
}

/// One entry of one table, as it is to be written to memory.
#[derive(Clone, Copy, Debug, PartialEq, Eq, Structural)]
pub struct EntryImage {
    /// The frame that holds the table.
    pub table: Frame,
    /// The page at which the recursive entry shows the table.
    pub window: Page,
    /// The entry's index in the table.
    pub index: u16,
    /// The entry, as the processor reads it.
    pub word: u64,
}

/// The entries from index `from` up to `to` of a table of the given
/// level.
pub open spec fn own_images(table: PageTable, level: nat, prefix: nat, from: int, to: int) -> Seq<
    EntryImage,
> {
    Seq::new(
        (to - from) as nat,
        |i: int|
            EntryImage {
                table: table.frame,
                window: Page { number: window_page(level, prefix) as u64 },
                index: (from + i) as u16,
                word: entry_word(table.entries[from + i], table.frame),
            },
    )
}

/// The entries of the tables that hang below the first `upto` entries of
/// a table, in the order of those entries.
pub open spec fn child_images(table: PageTable, level: nat, prefix: nat, upto: nat) -> Seq<
    EntryImage,
>
    decreases level, upto,
{
    if upto == 0 {
        Seq::<EntryImage>::empty()
    } else {
        child_images(table, level, prefix, (upto - 1) as nat) + match table.entries[upto - 1] {
            Entry::Table(child) => if level > 1 {
                table_images(*child, (level - 1) as nat, prefix * 512 + (upto - 1) as nat)
            } else {
                Seq::<EntryImage>::empty()
            },
            _ => Seq::<EntryImage>::empty(),
        }
    }
}

/// The entries of a table and of the tables below it: first its own 512,
/// then those of the tables below its entries, entry after entry.
pub open spec fn table_images(table: PageTable, level: nat, prefix: nat) -> Seq<EntryImage>
    decreases level, 513nat,
{
    own_images(table, level, prefix, 0, 512) + child_images(table, level, prefix, 512)
}

impl PageTable {
    /// The word that stands for the entry with the given index in this
    /// table, which is one of the given level.
    pub fn word(&self, level: u8, index: usize) -> (word: u64)
        requires
            self.wf(level as nat),
            index < 512,
        ensures
            word == entry_word(self.entries[index as int], self.frame),
    {
        let table_bits = EntryFlags::writable_data().bits();
        match &self.entries[index] {
            Entry::Unused => 0,
            Entry::Table(child) => {
                assert(child.wf((level - 1) as nat));
                child.frame.number * PAGE_SIZE + table_bits
            },
            Entry::Leaf(mapping) => mapping.frame.number * PAGE_SIZE + mapping.flags.bits(),
            Entry::SelfReference => self.frame.number * PAGE_SIZE + table_bits,
        }
    }

    /// Adds the entries of this table and of the tables below it to `out`.
    pub fn images(&self, level: u8, prefix: u64, out: &mut Vec<EntryImage>)
        requires
            self.wf(level as nat),
            prefix < span((4 - level) as nat),
        ensures
            final(out)@ == old(out)@ + table_images(*self, level as nat, prefix as nat),
        decreases level, 513nat,
    {
        let window = Page { number: Self::window(level, prefix) };
        let ghost start = out@;
        let mut index: usize = 0;
        proof {
            assert(out@ =~= start + own_images(*self, level as nat, prefix as nat, 0, 0));
        }
        while index < ENTRY_COUNT
            invariant
                index <= 512,
                self.wf(level as nat),
                window.number == window_page(level as nat, prefix as nat),
                out@ == start + own_images(*self, level as nat, prefix as nat, 0, index as int),
            decreases 512 - index,
        {
            let word = self.word(level, index);
            out.push(EntryImage { table: self.frame, window, index: index as u16, word });
            proof {
                assert(out@ =~= start + own_images(
                    *self,
                    level as nat,
                    prefix as nat,
                    0,
                    index + 1,
                ));
            }
            index += 1;
        }
        let ghost own = out@;
        let mut index: usize = 0;
        proof {
            assert(out@ =~= own + child_images(*self, level as nat, prefix as nat, 0));
        }
        while index < ENTRY_COUNT
            invariant
                index <= 512,
                self.wf(level as nat),
                prefix < span((4 - level) as nat),
                out@ == own + child_images(*self, level as nat, prefix as nat, index as nat),
            decreases level, 512 - index,
        {
            let ghost before = out@;
            match &self.entries[index] {
                Entry::Table(child) => {
                    if level > 1 {
                        child.images(level - 1, prefix * 512 + index as u64, out);
                    }
                },
                _ => {},
            }
            proof {
                assert(out@ =~= own + child_images(
                    *self,
                    level as nat,
                    prefix as nat,
                    (index + 1) as nat,
                ));
            }
            index += 1;
        }
        proof {
            assert(out@ =~= start + table_images(*self, level as nat, prefix as nat));
        }
    }

    /// The number of the page at which the recursive entry shows a table.
    fn window(level: u8, prefix: u64) -> (number: u64)
        requires
            prefix < 0x800_0000,
            1 <= level <= 4,
        ensures
            number == window_page(level as nat, prefix as nat),
    {
        if level == 1 {
            511 * 134217728 + prefix
        } else if level == 2 {
            511 * 134217728 + 511 * 262144 + prefix
        } else if level == 3 {
            511 * 134217728 + 511 * 262144 + 511 * 512 + prefix
        } else {
            68719476735
        }
    }
}

/// The image is that of the entry that maps the page with the given
/// number: it lies at the page's index in the table of level 1 on the way
/// to the page, and holds the address of the frame with the flag bits.
pub open spec fn maps_page(image: EntryImage, page: nat, mapping: Mapping) -> bool {
    &&& image.window.number == window_page(1, page / 512)
    &&& image.index == page % 512
    &&& image.word == mapping.frame.number * 4096 + mapping.flags.bits()
}

/// The entries of the table below an entry are among those of the tables
/// below the first entries of its table, as soon as these reach it, all
/// together and in their order.
pub proof fn lemma_child_images_hold(
    table: PageTable,
    level: nat,
    prefix: nat,
    upto: nat,
    index: int,
) -> (offset: int)
    requires
        level > 1,
        0 <= index < upto,
        table.entries[index] is Table,
    ensures
        ({
            let below = table_images(
                *table.entries[index]->Table_0,
                (level - 1) as nat,
                prefix * 512 + index as nat,
            );
            let all = child_images(table, level, prefix, upto);
            &&& 0 <= offset
            &&& offset + below.len() <= all.len()
            &&& forall|j: int| 0 <= j < below.len() ==> all[offset + j] == #[trigger] below[j]
        }),
    decreases upto,
{
    let before = child_images(table, level, prefix, (upto - 1) as nat);
    if index == upto - 1 {
        before.len() as int
    } else {
        lemma_child_images_hold(table, level, prefix, (upto - 1) as nat, index)
    }
}

/// Every mapping that a walk from a table finds has its image among the
/// entries of the table and of the tables below it.
pub proof fn lemma_images_hold_mapping(table: PageTable, level: nat, page: nat) -> (at: int)
    requires
        table.wf(level),
        page < 68719476736,
        table.lookup(level, page) is Some,
    ensures
        0 <= at < table_images(table, level, page / span(level)).len(),
        maps_page(
            table_images(table, level, page / span(level))[at],
            page,
            table.lookup(level, page).unwrap(),
        ),
    decreases level,
{
    let prefix = page / span(level);
    let index = index_of(page, level);
    lemma_div_chain(page);
    if level == 1 {
        assert(own_images(table, level, prefix, 0, 512)[index].index == index);
        index
    } else {
        let child = *table.entries[index]->Table_0;
        assert(child.wf((level - 1) as nat));
        assert(prefix * 512 + index as nat == page / span((level - 1) as nat)) by {
            if level == 2 {
                assert(page / 512 == 512 * (page / 262144) + (page / 512) % 512);
            } else if level == 3 {
                assert(page / 262144 == 512 * (page / 134217728) + (page / 262144) % 512);
            } else {
                assert(page / 68719476736 == 0);
                assert((page / 134217728) % 512 == page / 134217728);
            }
        }
        let below = lemma_images_hold_mapping(child, (level - 1) as nat, page);
        let offset = lemma_child_images_hold(table, level, prefix, 512, index);
        512 + offset + below
    }
}

/// The image is that of the entry that leads to the table of level
/// `target` on the way to the page with the given number, which lies in
/// `frame`: it lies at the page's index in the table of the level above,
/// and holds the address of the frame, present and writable.
pub open spec fn leads_to_table(image: EntryImage, page: nat, target: nat, frame: Frame) -> bool {
    &&& image.window.number == window_page(target + 1, page / span(target + 1))
    &&& image.index == index_of(page, target + 1)
    &&& image.word == frame.number * 4096 + 3
}

/// Every table that a walk from a table finds has the image of the entry
/// that leads to it, with the frame in which it lies, among the entries
/// of the table and of the tables below it.
pub proof fn lemma_images_hold_table(table: PageTable, level: nat, page: nat, target: nat) -> (at:
    int)
    requires
        table.wf(level),
        page < 68719476736,
        1 <= target < level,
        table.table_frame(level, page, target) is Some,
    ensures
        0 <= at < table_images(table, level, page / span(level)).len(),
        leads_to_table(
            table_images(table, level, page / span(level))[at],
            page,
            target,
            table.table_frame(level, page, target).unwrap(),
        ),
    decreases level,
{
    let prefix = page / span(level);
    let index = index_of(page, level);
    lemma_div_chain(page);
    let child = *table.entries[index]->Table_0;
    assert(child.wf((level - 1) as nat));
    if target == level - 1 {
        assert(own_images(table, level, prefix, 0, 512)[index].index == index);
        index
    } else {
        assert(prefix * 512 + index as nat == page / span((level - 1) as nat)) by {
            if level == 3 {
                assert(page / 262144 == 512 * (page / 134217728) + (page / 262144) % 512);
            } else {
                assert(page / 68719476736 == 0);
                assert((page / 134217728) % 512 == page / 134217728);
            }
        }
        let below = lemma_images_hold_table(child, (level - 1) as nat, page, target);
        let offset = lemma_child_images_hold(table, level, prefix, 512, index);
        512 + offset + below
    }
}

impl ActiveTable {
    /// Every entry of every table of the hierarchy as it is to be written
    /// to memory: the top table first, each table before the tables below
    /// it. With the recursive entry of the top table that the processor
    /// walks leading to this hierarchy's top table, each table shows at
    /// the page named with its entries.
    pub fn images(&self) -> (images: Vec<EntryImage>)
        requires
            self.wf(),
        ensures
            images@ == table_images(*self.top(), 4, 0),
    {
        let mut images: Vec<EntryImage> = Vec::new();
        self.top_table().images(TOP_LEVEL, 0, &mut images);
        images
    }

    /// Every mapped page has its image among the entries of the
    /// hierarchy.
    pub proof fn lemma_images_hold_mappings(&self, page: Page) -> (at: int)
        requires
            self.wf(),
            page.valid(),
            self@.mappings.contains_key(page),
        ensures
            0 <= at < table_images(*self.top(), 4, 0).len(),
            maps_page(
                table_images(*self.top(), 4, 0)[at],
                page.number as nat,
                self@.mappings[page],
            ),
    {
        self.lemma_model(page);
        self.lemma_top();
        lemma_images_hold_mapping(*self.top(), 4, page.number as nat)
    }

    /// Every table on the way to a page has the image of the entry that
    /// leads to it, with the frame in which it lies, among the entries of
    /// the hierarchy.
    pub proof fn lemma_images_hold_tables(&self, page: Page, level: nat) -> (at: int)
        requires
            self.wf(),
            page.valid(),
            1 <= level <= 3,
            self@.tables.contains_key(table_of(page.number as nat, level)),
        ensures
            0 <= at < table_images(*self.top(), 4, 0).len(),
            leads_to_table(
                table_images(*self.top(), 4, 0)[at],
                page.number as nat,
                level,
                self@.tables[table_of(page.number as nat, level)],
            ),
    {
        self.lemma_model(page);
        self.lemma_top();
        assert(self.top().table_frame(4, page.number as nat, level) is Some);
        lemma_images_hold_table(*self.top(), 4, page.number as nat, level)
    }
}

} // verus!
