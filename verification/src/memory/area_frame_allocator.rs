//! The allocator of physical frames: it hands out the usable frames that
//! the boot loader reported, lowest first, and never one of the kernel
//! image or of the boot information.

use vstd::prelude::*;
use super::address::{Frame, FRAME_LIMIT, PAGE_SIZE, PHYS_ADDR_LIMIT};
use super::frame_set::{
    inhabited, is_least, lemma_least_unique, lemma_nth_in_set, lemma_requests_increase, nth_least,
};

verus! {

/// A range of usable physical memory, from `start` up to but without `end`.
#[derive(Clone, Copy, Debug, PartialEq, Eq, Structural)]
pub struct MemoryArea {
    pub start: u64,
    pub end: u64,
}

impl MemoryArea {
    /// The area's first and last byte have physical addresses.
    pub open spec fn valid(self) -> bool {
        self.start < PHYS_ADDR_LIMIT && 0 < self.end <= PHYS_ADDR_LIMIT
    }

    /// Says whether the area's first and last byte have physical
    /// addresses.
    pub fn is_valid(&self) -> (valid: bool)
        ensures
            valid == self.valid(),
    {
        self.start < PHYS_ADDR_LIMIT && 0 < self.end && self.end <= PHYS_ADDR_LIMIT
    }

    /// The number of the frame that holds the area's first byte.
    pub open spec fn first_frame(self) -> nat {
        (self.start / 4096) as nat
    }

    /// The number of the frame that holds the area's last byte.
    pub open spec fn last_frame(self) -> nat {
        ((self.end - 1) / 4096) as nat
    }

    /// The frame lies between the area's first and last frame.
    pub open spec fn holds(self, frame: nat) -> bool {
        self.first_frame() <= frame <= self.last_frame()
    }
}

/// The frames that an allocator over `areas` has to hand out at first:
/// those that some area holds, but for frame 0, the frames `kernel.0` to
/// `kernel.1` of the kernel image and the frames `boot_info.0` to
/// `boot_info.1` of the boot information.
pub open spec fn initial_free_frames(
    areas: Seq<MemoryArea>,
    kernel: (nat, nat),
    boot_info: (nat, nat),
) -> Set<nat> {
    Set::new(
        |frame: nat|
            {
                &&& 1 <= frame
                &&& exists|i: int| 0 <= i < areas.len() && (#[trigger] areas[i]).holds(frame)
                &&& !(kernel.0 <= frame <= kernel.1)
                &&& !(boot_info.0 <= frame <= boot_info.1)
            },
    )
}

/// The area with the given index is the one to turn to when the cursor
/// stands at frame `cursor`: it reaches up to the cursor, no area that
/// does starts below it, and of those that start where it starts it comes
/// first.
pub open spec fn is_next_area(areas: Seq<MemoryArea>, cursor: nat, index: int) -> bool {
    &&& 0 <= index < areas.len()
    &&& areas[index].last_frame() >= cursor
    &&& forall|k: int|
        0 <= k < areas.len() && (#[trigger] areas[k]).last_frame() >= cursor ==> areas[index].start
            <= areas[k].start
    &&& forall|k: int|
        0 <= k < index && (#[trigger] areas[k]).last_frame() >= cursor ==> areas[index].start
            < areas[k].start
}

/// The allocator of physical frames. It walks the usable areas upwards
/// and never goes back: a frame once passed is not handed out again.
#[derive(Debug)]
pub struct AreaFrameAllocator {
    /// The number of the lowest frame not yet considered.
    next_free_frame: u64,
    current_area: Option<MemoryArea>,
    areas: Vec<MemoryArea>,
    kernel_start: Frame,
    kernel_end: Frame,
    multiboot_start: Frame,
    multiboot_end: Frame,
}

impl AreaFrameAllocator {
    /// The number of the lowest frame not yet considered.
    pub closed spec fn cursor(&self) -> nat {
        self.next_free_frame as nat
    }

    /// The usable areas.
    pub closed spec fn area_list(&self) -> Seq<MemoryArea> {
        self.areas@
    }

    /// The first and the last frame of the kernel image.
    pub closed spec fn kernel_frames(&self) -> (nat, nat) {
        (self.kernel_start.number as nat, self.kernel_end.number as nat)
    }

    /// The first and the last frame of the boot information.
    pub closed spec fn boot_info_frames(&self) -> (nat, nat) {
        (self.multiboot_start.number as nat, self.multiboot_end.number as nat)
    }

    /// The kernel image lies in the frame.
    pub open spec fn in_kernel(&self, frame: nat) -> bool {
        self.kernel_frames().0 <= frame <= self.kernel_frames().1
    }

    /// The boot information lies in the frame.
    pub open spec fn in_boot_info(&self, frame: nat) -> bool {
        self.boot_info_frames().0 <= frame <= self.boot_info_frames().1
    }

    /// Some area holds the frame.
    pub open spec fn usable(&self, frame: nat) -> bool {
        exists|i: int| 0 <= i < self.area_list().len()
            && (#[trigger] self.area_list()[i]).holds(frame)
    }

    /// The frame may be handed out: it is usable and neither the kernel
    /// image nor the boot information lies in it.
    pub open spec fn allocatable(&self, frame: nat) -> bool {
        self.usable(frame) && !self.in_kernel(frame) && !self.in_boot_info(frame)
    }

    /// The frames that are still to be handed out.
    pub open spec fn free_frames(&self) -> Set<nat> {
        Set::new(|frame: nat| self.cursor() <= frame && self.allocatable(frame))
    }

    spec fn parts_wf(&self) -> bool {
        &&& self.next_free_frame <= FRAME_LIMIT
        &&& self.kernel_start.valid()
        &&& self.kernel_end.valid()
        &&& self.multiboot_start.valid()
        &&& self.multiboot_end.valid()
        &&& forall|i: int| 0 <= i < self.areas.len() ==> (#[trigger] self.areas[i]).valid()
    }

    /// The allocator's own book-keeping is in order: the current area is
    /// one of the areas and starts at or below the cursor, and without a
    /// current area no area reaches up to the cursor.
    pub closed spec fn wf(&self) -> bool {
        &&& self.parts_wf()
        &&& match self.current_area {
            Some(area) => {
                &&& area.valid()
                &&& area.first_frame() <= self.next_free_frame
                &&& exists|i: int| 0 <= i < self.areas.len() && self.areas[i] == area
            },
            None => forall|i: int|
                0 <= i < self.areas.len() ==> (#[trigger] self.areas[i]).last_frame()
                    < self.next_free_frame,
        }
    }

    proof fn lemma_same_frames(&self, other: &Self)
        requires
            self.areas == other.areas,
            self.kernel_start == other.kernel_start,
            self.kernel_end == other.kernel_end,
            self.multiboot_start == other.multiboot_start,
            self.multiboot_end == other.multiboot_end,
        ensures
            forall|frame: nat| self.usable(frame) == other.usable(frame),
            forall|frame: nat| self.allocatable(frame) == other.allocatable(frame),
    {
        assert forall|frame: nat| self.usable(frame) == other.usable(frame) by {
            if self.usable(frame) {
                let k = choose|k: int|
                    0 <= k < self.area_list().len()
                        && (#[trigger] self.area_list()[k]).holds(frame);
                assert(other.area_list()[k].holds(frame));
            }
            if other.usable(frame) {
                let k = choose|k: int|
                    0 <= k < other.area_list().len() && (#[trigger] other.area_list()[k]).holds(
                        frame,
                    );
                assert(self.area_list()[k].holds(frame));
            }
        }
    }

    /// The number of the frame that the request number `n` from now on
    /// gets, if it gets one. Requests count from 0.
    pub open spec fn upcoming(&self, n: nat) -> Option<nat> {
        nth_least(self.free_frames(), n)
    }

    /// Of any two requests the later one gets the higher frame: the
    /// frames handed out are pairwise distinct and ascend.
    pub proof fn lemma_frames_ascend(&self, earlier: nat, later: nat)
        requires
            earlier < later,
            self.upcoming(later) is Some,
        ensures
            self.upcoming(earlier) is Some,
            self.upcoming(earlier).unwrap() < self.upcoming(later).unwrap(),
    {
        lemma_requests_increase(self.free_frames(), earlier, later);
    }

    /// No request ever gets a frame of the kernel image.
    pub proof fn lemma_kernel_spared(&self, n: nat, frame: nat)
        requires
            self.kernel_frames().0 <= frame <= self.kernel_frames().1,
        ensures
            self.upcoming(n) != Some(frame),
    {
        if self.upcoming(n) is Some {
            lemma_nth_in_set(self.free_frames(), n);
        }
    }

    /// No request ever gets a frame of the boot information.
    pub proof fn lemma_boot_info_spared(&self, n: nat, frame: nat)
        requires
            self.boot_info_frames().0 <= frame <= self.boot_info_frames().1,
        ensures
            self.upcoming(n) != Some(frame),
    {
        if self.upcoming(n) is Some {
            lemma_nth_in_set(self.free_frames(), n);
        }
    }

    /// Once a request has got nothing, none gets anything.
    pub proof fn lemma_exhaustion_lasts(&self, n: nat)
        requires
            self.upcoming(0) is None,
        ensures
            self.upcoming(n) is None,
    {
        if self.upcoming(n) is Some {
            lemma_nth_in_set(self.free_frames(), n);
        }
    }

    /// Every frame that can be handed out has a physical address.
    pub proof fn lemma_free_frames_bounded(&self)
        requires
            self.wf(),
        ensures
            forall|frame: nat| self.free_frames().contains(frame) ==> frame < FRAME_LIMIT,
            forall|frame: nat| self.usable(frame) ==> frame < FRAME_LIMIT,
    {
        assert forall|frame: nat| self.usable(frame) implies frame < FRAME_LIMIT by {
            let k = choose|k: int|
                0 <= k < self.area_list().len() && (#[trigger] self.area_list()[k]).holds(frame);
            assert(self.areas[k].valid());
        }
    }

    /// An allocator over `memory_areas` that spares the frames of the
    /// kernel image and of the boot information, each given by the
    /// addresses of its first and last byte. Frame 0 is never handed out.
    pub fn new(
        kernel_start: u64,
        kernel_end: u64,
        multiboot_start: u64,
        multiboot_end: u64,
        memory_areas: &[MemoryArea],
    ) -> (allocator: AreaFrameAllocator)
        requires
            kernel_start < PHYS_ADDR_LIMIT,
            kernel_end < PHYS_ADDR_LIMIT,
            multiboot_start < PHYS_ADDR_LIMIT,
            multiboot_end < PHYS_ADDR_LIMIT,
            forall|i: int| 0 <= i < memory_areas.len() ==> (#[trigger] memory_areas[i]).valid(),
        ensures
            allocator.wf(),
            allocator.area_list() == memory_areas@,
            allocator.kernel_frames() == ((kernel_start / 4096) as nat, (kernel_end / 4096) as nat),
            allocator.boot_info_frames() == (
                (multiboot_start / 4096) as nat,
                (multiboot_end / 4096) as nat,
            ),
            allocator.free_frames() == initial_free_frames(
                memory_areas@,
                ((kernel_start / 4096) as nat, (kernel_end / 4096) as nat),
                ((multiboot_start / 4096) as nat, (multiboot_end / 4096) as nat),
            ),
    {
        let mut areas: Vec<MemoryArea> = Vec::new();
        let mut i: usize = 0;
        while i < memory_areas.len()
            invariant
                i <= memory_areas.len(),
                areas@ == memory_areas@.take(i as int),
            decreases memory_areas.len() - i,
        {
            areas.push(memory_areas[i]);
            proof {
                assert(areas@ =~= memory_areas@.take(i + 1));
            }
            i += 1;
        }
        proof {
            assert(areas@ =~= memory_areas@);
        }
        let mut allocator = AreaFrameAllocator {
            next_free_frame: 1,
            current_area: None,
            areas,
            kernel_start: Frame::containing_address(kernel_start),
            kernel_end: Frame::containing_address(kernel_end),
            multiboot_start: Frame::containing_address(multiboot_start),
            multiboot_end: Frame::containing_address(multiboot_end),
        };
        let ghost before = allocator;
        allocator.choose_next_area();
        proof {
            allocator.lemma_same_frames(&before);
            let initial = initial_free_frames(
                memory_areas@,
                ((kernel_start / 4096) as nat, (kernel_end / 4096) as nat),
                ((multiboot_start / 4096) as nat, (multiboot_end / 4096) as nat),
            );
            assert forall|frame: nat| allocator.free_frames().contains(frame) == initial.contains(
                frame,
            ) by {
                if allocator.usable(frame) {
                    let k = choose|k: int|
                        0 <= k < allocator.area_list().len() && (
                        #[trigger] allocator.area_list()[k]).holds(frame);
                    assert(memory_areas@[k].holds(frame));
                }
                if initial.contains(frame) {
                    let k = choose|k: int|
                        0 <= k < memory_areas@.len() && (#[trigger] memory_areas@[k]).holds(frame);
                    assert(allocator.area_list()[k].holds(frame));
                    assert(allocator.usable(frame));
                    assert(before.usable(frame));
                }
            }
            assert(allocator.free_frames() =~= initial_free_frames(
                memory_areas@,
                ((kernel_start / 4096) as nat, (kernel_end / 4096) as nat),
                ((multiboot_start / 4096) as nat, (multiboot_end / 4096) as nat),
            ));
        }
        allocator
    }

    /// Makes the area that starts lowest, among those that still reach up
    /// to the cursor, the current one, and moves the cursor up to its
    /// first frame. Without such an area there is no current one, and the
    /// cursor stays.
    fn choose_next_area(&mut self)
        requires
            old(self).parts_wf(),
        ensures
            final(self).wf(),
            final(self).areas == old(self).areas,
            final(self).kernel_start == old(self).kernel_start,
            final(self).kernel_end == old(self).kernel_end,
            final(self).multiboot_start == old(self).multiboot_start,
            final(self).multiboot_end == old(self).multiboot_end,
            match final(self).current_area {
                Some(area) => {
                    &&& exists|index: int|
                        is_next_area(old(self).areas@, old(self).next_free_frame as nat, index)
                            && #[trigger] old(self).areas[index] == area
                    &&& final(self).next_free_frame == if old(self).next_free_frame
                        < area.first_frame() {
                        area.first_frame()
                    } else {
                        old(self).next_free_frame as nat
                    }
                },
                None => {
                    &&& forall|k: int|
                        0 <= k < old(self).areas.len() ==> (
                        #[trigger] old(self).areas[k]).last_frame() < old(self).next_free_frame
                    &&& final(self).next_free_frame == old(self).next_free_frame
                },
            },
            old(self).next_free_frame <= final(self).next_free_frame,
            forall|frame: nat|
                old(self).next_free_frame <= frame < final(self).next_free_frame ==> !old(
                    self,
                ).usable(frame),
            match final(self).current_area {
                Some(area) => final(self).next_free_frame > old(self).next_free_frame
                    || area.last_frame() >= final(self).next_free_frame,
                None => true,
            },
    {
        let mut best: Option<MemoryArea> = None;
        let ghost mut best_index: int = 0;
        let mut i: usize = 0;
        while i < self.areas.len()
            invariant
                0 <= i <= self.areas.len(),
                *self == *old(self),
                self.parts_wf(),
                match best {
                    Some(area) => {
                        &&& area.valid()
                        &&& 0 <= best_index < i
                        &&& self.areas[best_index] == area
                        &&& area.last_frame() >= self.next_free_frame
                        &&& forall|k: int|
                            0 <= k < i && (#[trigger] self.areas[k]).last_frame()
                                >= self.next_free_frame ==> area.start <= self.areas[k].start
                        &&& forall|k: int|
                            0 <= k < best_index && (#[trigger] self.areas[k]).last_frame()
                                >= self.next_free_frame ==> area.start < self.areas[k].start
                    },
                    None => forall|k: int|
                        0 <= k < i ==> (#[trigger] self.areas[k]).last_frame()
                            < self.next_free_frame,
                },
            decreases self.areas.len() - i,
        {
            let area = self.areas[i];
            if (area.end - 1) / PAGE_SIZE >= self.next_free_frame {
                match best {
                    Some(b) => {
                        if area.start < b.start {
                            best = Some(area);
                            proof {
                                best_index = i as int;
                            }
                        }
                    },
                    None => {
                        best = Some(area);
                        proof {
                            best_index = i as int;
                        }
                    },
                }
            }
            i += 1;
        }
        self.current_area = best;
        if let Some(area) = best {
            let start_frame = area.start / PAGE_SIZE;
            assert(is_next_area(old(self).areas@, old(self).next_free_frame as nat, best_index));
            assert(old(self).areas[best_index] == area);
            if self.next_free_frame < start_frame {
                proof {
                    assert forall|frame: nat|
                        old(self).next_free_frame <= frame < start_frame implies !old(self).usable(
                        frame,
                    ) by {
                        if old(self).usable(frame) {
                            let k = choose|k: int|
                                0 <= k < old(self).area_list().len() && (
                                #[trigger] old(self).area_list()[k]).holds(frame);
                            assert(self.areas[k].last_frame() >= self.next_free_frame);
                            assert(area.start <= self.areas[k].start);
                        }
                    }
                }
                self.next_free_frame = start_frame;
            }
            assert(self.parts_wf());
            assert(area.valid());
            assert(area.first_frame() <= self.next_free_frame);
            assert(self.current_area == Some(area));
            assert(self.areas[best_index] == area);
            assert(self.wf());
        } else {
            assert(self.wf());
        }
    }

    /// Hands out the lowest frame that is still free, or `None` when none
    /// is left.
    pub fn allocate_frame(&mut self) -> (frame: Option<Frame>)
        requires
            old(self).wf(),
        ensures
            final(self).wf(),
            final(self).area_list() == old(self).area_list(),
            final(self).kernel_frames() == old(self).kernel_frames(),
            final(self).boot_info_frames() == old(self).boot_info_frames(),
            final(self).cursor() >= old(self).cursor(),
            match frame {
                Some(f) => {
                    &&& f.valid()
                    &&& is_least(old(self).free_frames(), f.number as nat)
                    &&& !old(self).in_kernel(f.number as nat)
                    &&& !old(self).in_boot_info(f.number as nat)
                    &&& final(self).cursor() == f.number + 1
                    &&& final(self).free_frames() == old(self).free_frames().remove(
                        f.number as nat,
                    )
                    &&& old(self).upcoming(0) == Some(f.number as nat)
                    &&& forall|n: nat| final(self).upcoming(n) == old(self).upcoming(n + 1)
                },
                None => {
                    &&& !inhabited(old(self).free_frames())
                    &&& final(self).free_frames() == old(self).free_frames()
                    &&& old(self).upcoming(0) is None
                },
            },
    {
        loop
            invariant
                self.wf(),
                self.areas == old(self).areas,
                self.kernel_start == old(self).kernel_start,
                self.kernel_end == old(self).kernel_end,
                self.multiboot_start == old(self).multiboot_start,
                self.multiboot_end == old(self).multiboot_end,
                old(self).next_free_frame <= self.next_free_frame,
                forall|frame: nat|
                    old(self).next_free_frame <= frame < self.next_free_frame ==> !old(
                        self,
                    ).allocatable(frame),
            decreases
                    FRAME_LIMIT - self.next_free_frame,
                    match self.current_area {
                        Some(area) => if self.next_free_frame > area.last_frame() {
                            1nat
                        } else {
                            0nat
                        },
                        None => 0nat,
                    },
        {
            match self.current_area {
                Some(area) => {
                    let frame = self.next_free_frame;
                    let current_area_last_frame = (area.end - 1) / PAGE_SIZE;
                    if frame > current_area_last_frame {
                        let ghost before = *self;
                        self.choose_next_area();
                        proof {
                            before.lemma_same_frames(old(self));
                        }
                    } else if frame >= self.kernel_start.number && frame <= self.kernel_end.number {
                        self.next_free_frame = self.kernel_end.number + 1;
                        assert(self.parts_wf());
                        assert(self.current_area == Some(area));
                        assert(self.wf());
                    } else if frame >= self.multiboot_start.number && frame
                        <= self.multiboot_end.number {
                        self.next_free_frame = self.multiboot_end.number + 1;
                        assert(self.parts_wf());
                        assert(self.current_area == Some(area));
                        assert(self.wf());
                    } else {
                        self.next_free_frame = frame + 1;
                        assert(self.parts_wf());
                        assert(self.current_area == Some(area));
                        assert(self.wf());
                        proof {
                            let k = choose|k: int|
                                0 <= k < self.areas.len() && self.areas[k] == area;
                            assert(old(self).area_list()[k].holds(frame as nat));
                            self.lemma_same_frames(old(self));
                            assert(old(self).free_frames().contains(frame as nat));
                            assert(self.free_frames() =~= old(self).free_frames().remove(
                                frame as nat,
                            ));
                            lemma_least_unique(old(self).free_frames(), frame as nat);
                            assert forall|n: nat| self.upcoming(n) == old(self).upcoming(
                                n + 1,
                            ) by {
                                assert((n + 1 - 1) as nat == n);
                            }
                        }
                        return Some(Frame { number: frame });
                    }
                },
                None => {
                    proof {
                        assert forall|frame: nat| !old(self).free_frames().contains(frame) by {
                            if old(self).usable(frame) && frame >= self.next_free_frame {
                                let k = choose|k: int|
                                    0 <= k < old(self).area_list().len() && (
                                    #[trigger] old(self).area_list()[k]).holds(frame);
                                assert(self.areas[k].last_frame() < self.next_free_frame);
                            }
                        }
                        self.lemma_same_frames(old(self));
                        assert(self.free_frames() =~= old(self).free_frames());
                    }
                    return None;
                },
            }
        }
    }
}

} // verus!
