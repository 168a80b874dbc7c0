//! Frames of physical memory and pages of virtual memory, by number.

use vstd::prelude::*;
use x86_64::structures::paging::{PhysFrame, Size4KiB};
use x86_64::{PhysAddr, VirtAddr};

verus! {

/// Bytes in a frame and in a page.
pub const PAGE_SIZE: u64 = 4096;

/// Entries in a page table.
pub const ENTRY_COUNT: usize = 512;

/// Physical addresses are below this bound (52 bits).
pub const PHYS_ADDR_LIMIT: u64 = 0x10_0000_0000_0000;

/// Frame numbers are below this bound (40 bits).
pub const FRAME_LIMIT: u64 = 0x100_0000_0000;

/// Page numbers are below this bound (36 bits).
pub const PAGE_LIMIT: u64 = 0x10_0000_0000;

/// What the upper half of the virtual address space adds to the 48 bits
/// that a page number spans: bits 48 to 63 repeat bit 47.
pub const SIGN_EXTENSION: u64 = 0xffff_0000_0000_0000;

/// The first virtual address of the upper half as the 48 low bits give it.
pub const UPPER_HALF: u64 = 0x8000_0000_0000;

/// The first canonical address of the upper half.
pub const UPPER_HALF_START: u64 = 0xffff_8000_0000_0000;

/// The virtual addresses that have a page: the canonical ones, and those
/// with bit 47 set and nothing above it, which are read as their sign
/// extension.
pub open spec fn is_virtual_address(addr: u64) -> bool {
    addr < 0x1_0000_0000_0000 || addr >= UPPER_HALF_START
}

/// The canonical form of a virtual address.
pub open spec fn canonical(addr: u64) -> int {
    if UPPER_HALF <= addr < 0x1_0000_0000_0000 {
        addr + SIGN_EXTENSION
    } else {
        addr as int
    }
}

/// `PhysFrame::from_start_address` of the x86_64 crate, applied to
/// `PhysAddr::new(addr)`: it succeeds exactly on a multiple of 4096.
/// `PhysAddr::new` panics on an address of 52 bits or more, so those are
/// left out.
#[verifier::external_body]
fn is_frame_start(addr: u64) -> (aligned: bool)
    requires
        addr < PHYS_ADDR_LIMIT,
    ensures
        aligned == (addr % 4096 == 0),
{
    PhysFrame::<Size4KiB>::from_start_address(PhysAddr::new(addr)).is_ok()
}

/// `VirtAddr::try_new` of the x86_64 crate: the canonical form of a
/// virtual address. An address whose bits from 47 up are all clear or all
/// set is canonical and comes back as it is; one with bit 47 set and
/// nothing above it comes back sign-extended; any other is refused.
#[verifier::external_body]
fn try_canonical(addr: u64) -> (result: Option<u64>)
    ensures
        result is Some <==> is_virtual_address(addr),
        result is Some ==> result.unwrap() == canonical(addr),
{
    match VirtAddr::try_new(addr) {
        Ok(address) => Some(address.as_u64()),
        Err(_) => None,
    }
}

/// `VirtAddr::new_truncate` of the x86_64 crate: the address with bits 48
/// to 63 made copies of bit 47.
#[verifier::external_body]
fn sign_extend(addr: u64) -> (result: u64)
    ensures
        result == if addr % 0x1_0000_0000_0000 >= UPPER_HALF {
            addr % 0x1_0000_0000_0000 + SIGN_EXTENSION
        } else {
            (addr % 0x1_0000_0000_0000) as int
        },
{
    VirtAddr::new_truncate(addr).as_u64()
}

/// A frame of physical memory, 4096 bytes. Frame `n` starts at the
/// physical address `n * 4096`.
#[derive(Clone, Copy, Debug, PartialEq, Eq, Structural)]
pub struct Frame {
    pub number: u64,
}

impl Frame {
    /// The frame's address fits in 52 bits.
    pub open spec fn valid(self) -> bool {
        self.number < FRAME_LIMIT
    }

    /// The physical address of the frame's first byte.
    pub open spec fn spec_start_address(self) -> int {
        self.number * 4096
    }

    /// The frame that holds the physical address `addr`.
    pub fn containing_address(addr: u64) -> (frame: Frame)
        requires
            addr < PHYS_ADDR_LIMIT,
        ensures
            frame.number == addr / 4096,
            frame.valid(),
    {
        Frame { number: addr / PAGE_SIZE }
    }

    /// The frame that starts at `addr`, if `addr` is a frame boundary.
    pub fn from_start_address(addr: u64) -> (frame: Option<Frame>)
        requires
            addr < PHYS_ADDR_LIMIT,
        ensures
            frame is Some <==> addr % 4096 == 0,
            frame is Some ==> frame.unwrap().number == addr / 4096 && frame.unwrap().valid(),
    {
        if is_frame_start(addr) {
            Some(Frame { number: addr / PAGE_SIZE })
        } else {
            None
        }
    }

    /// The physical address of the frame's first byte.
    pub fn start_address(&self) -> (addr: u64)
        requires
            self.valid(),
        ensures
            addr == self.spec_start_address(),
            addr % 4096 == 0,
            addr < PHYS_ADDR_LIMIT,
    {
        self.number * PAGE_SIZE
    }
}

/// A page of virtual memory, 4096 bytes. The page number is the address
/// divided by 4096, cut to 36 bits; pages of the upper half of the address
/// space have the numbers from 2^35 on.
#[derive(Clone, Copy, Debug, PartialEq, Eq, Structural)]
pub struct Page {
    pub number: u64,
}

impl Page {
    /// The page lies in the address space of 48 bits.
    pub open spec fn valid(self) -> bool {
        self.number < PAGE_LIMIT
    }

    /// The canonical virtual address of the page's first byte.
    pub open spec fn spec_start_address(self) -> int {
        if self.number < 0x8_0000_0000 {
            self.number * 4096
        } else {
            self.number * 4096 + SIGN_EXTENSION
        }
    }

    /// The page that holds the virtual address `addr`, if `addr` is one:
    /// the upper sixteen bits of a virtual address repeat bit 47, or are
    /// clear and taken to repeat it.
    pub fn containing_address(addr: u64) -> (page: Option<Page>)
        ensures
            page is Some <==> is_virtual_address(addr),
            page is Some ==> page.unwrap().number == (addr / 4096) % 0x10_0000_0000
                && page.unwrap().valid(),
    {
        match try_canonical(addr) {
            Some(address) => Some(Page { number: (address / PAGE_SIZE) % PAGE_LIMIT }),
            None => None,
        }
    }

    /// The canonical virtual address of the page's first byte.
    pub fn start_address(&self) -> (addr: u64)
        requires
            self.valid(),
        ensures
            addr == self.spec_start_address(),
            addr % 4096 == 0,
            is_virtual_address(addr),
            (addr / 4096) % 0x10_0000_0000 == self.number,
    {
        sign_extend(self.number * PAGE_SIZE)
    }
}

/// The pages from `start` up to and with `end`; none if `start` lies
/// above `end`.
#[derive(Clone, Copy, Debug, PartialEq, Eq, Structural)]
pub struct PageRange {
    pub start: Page,
    pub end: Page,
}

impl PageRange {
    /// Both ends lie in the address space.
    pub open spec fn valid(self) -> bool {
        self.start.valid() && self.end.valid()
    }

    /// How many pages the range holds.
    pub open spec fn spec_len(self) -> nat {
        if self.start.number <= self.end.number {
            (self.end.number - self.start.number + 1) as nat
        } else {
            0
        }
    }

    /// The pages from `start` up to and with `end`.
    pub fn inclusive(start: Page, end: Page) -> (range: PageRange)
        ensures
            range.start == start,
            range.end == end,
    {
        PageRange { start, end }
    }

    /// How many pages the range holds.
    pub fn len(&self) -> (count: u64)
        requires
            self.valid(),
        ensures
            count == self.spec_len(),
    {
        if self.start.number <= self.end.number {
            self.end.number - self.start.number + 1
        } else {
            0
        }
    }
}

} // verus!
