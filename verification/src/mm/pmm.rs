//! Physical memory manager: a bitmap of page frames.
//!
//! A set bit marks a frame that is allocated or reserved.  The bitmap starts
//! with every bit set, and [`init`] releases the frames that the firmware
//! reports as available.
use vstd::prelude::*;
use vstd::set_lib::*;
use crate::mm::dma_pin::{
    drain_deferred_if_due, mark_free_pending_if_pinned, DmaPins, DmaPinsView,
};
use crate::mm::lock::try_lock;
use crate::mm::refcount::{page_ref_count, pte_share_count, RefCounts, RefCountsView};

verus! {

/// Size of a page frame, in bytes.
pub const PAGE_SIZE: u64 = 4096;

/// Number of page frames managed: 4 GiB of 4 KiB frames.
pub const MAX_PAGES: u64 = 0x10_0000;

/// Size of the bitmap, in bytes.
pub const BITMAP_SIZE: u64 = 0x2_0000;

/// Number of recently freed frames that are remembered.
pub const RECENT_FREE_CAP: u64 = 64;

/// Age, in ticks, up to which a freed frame counts as recent.
pub const RECENT_FREE_WINDOW_TICKS: u64 = 2;

/// First address of the higher half, where the kernel and its view of physical
/// memory are mapped.
pub const KERNEL_VIRT_BASE: u64 = 0xFFFF_8000_0000_0000;

/// Physical address at which the boot loader leaves its handoff structure.
pub const BOOT_INFO_PHYS_BASE: u64 = 0x100_0000;

/// One recently freed frame.
#[derive(Clone, Copy)]
pub struct RecentFreeEntry {
    pub phys: u64,
    pub freed_tick: u64,
}

/// Ring of recently freed frames.
pub struct RecentFreeRing {
    pub entries: Vec<RecentFreeEntry>,
    pub next: u64,
}

/// What a ring of recently freed frames holds.
pub struct RecentFreeView {
    pub entries: Seq<RecentFreeEntry>,
    pub next: int,
}

impl View for RecentFreeRing {
    type V = RecentFreeView;

    open spec fn view(&self) -> RecentFreeView {
        RecentFreeView { entries: self.entries@, next: self.next as int }
    }
}

/// Whether an entry records a free of `phys` no more than `window` ticks before `now`.
pub open spec fn is_recent(e: RecentFreeEntry, phys: u64, now: u64, window: u64) -> bool {
    e.phys == phys && e.freed_tick != 0 && now - e.freed_tick <= window
}

impl RecentFreeView {
    pub open spec fn wf(self) -> bool {
        self.entries.len() == RECENT_FREE_CAP && 0 <= self.next < RECENT_FREE_CAP
    }

    /// The ring after a free of `phys` at `tick` was recorded in the oldest slot.
    pub open spec fn pushed(self, phys: u64, tick: u64) -> RecentFreeView {
        RecentFreeView {
            entries: self.entries.update(self.next, RecentFreeEntry { phys, freed_tick: tick }),
            next: (self.next + 1) % 64,
        }
    }

    /// Whether some entry records a recent free of `phys`.
    pub open spec fn has_recent(self, phys: u64, now: u64, window: u64) -> bool {
        exists|i: int| 0 <= i < self.entries.len() && is_recent(self.entries[i], phys, now, window)
    }

    /// Index `i` holds the first entry for `phys`.
    pub open spec fn first_for(self, phys: u64, i: int) -> bool {
        &&& 0 <= i < self.entries.len()
        &&& self.entries[i].phys == phys
        &&& forall|j: int| 0 <= j < i ==> self.entries[j].phys != phys
    }

    /// The ring with the first entry for `phys` cleared.
    pub open spec fn forgotten(self, phys: u64) -> RecentFreeView {
        let i = choose|i: int| self.first_for(phys, i);
        RecentFreeView {
            entries: self.entries.update(
                i,
                RecentFreeEntry { phys: 0, freed_tick: self.entries[i].freed_tick },
            ),
            ..self
        }
    }
}

impl RecentFreeRing {
    pub fn new() -> (r: RecentFreeRing)
        ensures
            r@.wf(),
            r@ == (RecentFreeView {
                entries: Seq::new(64, |i: int| RecentFreeEntry { phys: 0, freed_tick: 0 }),
                next: 0,
            }),
    {
        let mut entries: Vec<RecentFreeEntry> = Vec::new();
        let mut i: u64 = 0;
        while i < RECENT_FREE_CAP
            invariant
                i <= RECENT_FREE_CAP,
                entries@ =~= Seq::new(
                    i as nat,
                    |i: int| RecentFreeEntry { phys: 0, freed_tick: 0 },
                ),
            decreases RECENT_FREE_CAP - i,
        {
            entries.push(RecentFreeEntry { phys: 0, freed_tick: 0 });
            i = i + 1;
        }
        RecentFreeRing { entries, next: 0 }
    }

    /// Records a free of `phys` at `tick`.
    pub fn push(&mut self, phys: u64, tick: u64)
        requires
            old(self)@.wf(),
        ensures
            final(self)@.wf(),
            final(self)@ == old(self)@.pushed(phys, tick),
    {
        self.entries.set(self.next as usize, RecentFreeEntry { phys, freed_tick: tick });
        self.next = (self.next + 1) % RECENT_FREE_CAP;
    }

    /// Tick of the first entry that records a recent free of `phys`.
    pub fn find(&self, phys: u64, now: u64, window: u64) -> (r: Option<u64>)
        requires
            self@.wf(),
        ensures
            r is Some <==> self@.has_recent(phys, now, window),
            r matches Some(t) ==> exists|i: int|
                {
                    &&& 0 <= i < self@.entries.len()
                    &&& is_recent(#[trigger] self@.entries[i], phys, now, window)
                    &&& self@.entries[i].freed_tick == t
                    &&& forall|j: int|
                        0 <= j < i ==> !is_recent(#[trigger] self@.entries[j], phys, now, window)
                },
    {
        let mut i: u64 = 0;
        while i < RECENT_FREE_CAP
            invariant
                self@.wf(),
                i <= RECENT_FREE_CAP,
                forall|j: int|
                    0 <= j < i ==> !is_recent(#[trigger] self@.entries[j], phys, now, window),
            decreases RECENT_FREE_CAP - i,
        {
            let e: RecentFreeEntry = self.entries[i as usize];
            if e.phys == phys && e.freed_tick != 0 && now.saturating_sub(e.freed_tick) <= window {
                assert(is_recent(self@.entries[i as int], phys, now, window));
                return Some(e.freed_tick);
            }
            i = i + 1;
        }
        None
    }

    /// Clears the first entry for `phys`, if there is one.
    pub fn forget(&mut self, phys: u64)
        requires
            old(self)@.wf(),
        ensures
            final(self)@.wf(),
            (exists|i: int| old(self)@.first_for(phys, i)) ==> final(self)@ == old(self)@.forgotten(phys),
            !(exists|i: int| old(self)@.first_for(phys, i)) ==> final(self)@ == old(self)@,
    {
        let mut i: u64 = 0;
        while i < RECENT_FREE_CAP
            invariant
                self@ == old(self)@,
                self@.wf(),
                i <= RECENT_FREE_CAP,
                forall|j: int| 0 <= j < i ==> self@.entries[j].phys != phys,
            decreases RECENT_FREE_CAP - i,
        {
            let e: RecentFreeEntry = self.entries[i as usize];
            if e.phys == phys {
                assert(self@.first_for(phys, i as int));
                self.entries.set(
                    i as usize,
                    RecentFreeEntry { phys: 0, freed_tick: e.freed_tick },
                );
                return;
            }
            i = i + 1;
        }
    }
}

/// Use that the firmware reports for a range of physical memory.
#[derive(Clone, Copy, PartialEq, Eq, Structural, Debug)]
pub enum MemoryType {
    /// Ordinary memory, free for the kernel to use.
    Available,
    /// Anything else.
    Reserved,
}

/// One range of the firmware memory map.
#[derive(Clone, Copy)]
pub struct MemoryMapEntry {
    pub physical_start: u64,
    pub page_count: u64,
    pub memory_type: MemoryType,
}

/// The firmware memory map; the first `entry_count` entries are valid.
pub struct MemoryMap {
    pub entries: Vec<MemoryMapEntry>,
    pub entry_count: u64,
}

/// What the boot loader hands to the kernel.
pub struct BootInfo {
    pub memory_map: MemoryMap,
    /// Physical address of the kernel image.
    pub kernel_phys_base: u64,
    /// Size of the flat kernel binary, without its zero-initialised data.
    pub kernel_size: u64,
    /// Size of the handoff structure itself at [`BOOT_INFO_PHYS_BASE`].
    pub handoff_bytes: u64,
}

/// The physical memory manager.
pub struct Pmm {
    /// One bit per frame; a set bit marks a frame that is in use.
    pub bitmap: Vec<u8>,
    /// Frames that the firmware reported as available.
    pub total: u64,
    /// Of those, the frames whose bit is set.
    pub used: u64,
    /// Of those, the frames that are reserved for good.
    pub reserved: u64,
    /// Bitmap byte at which the next search starts.
    pub next_fit: u64,
    /// Allocations that found no free frame.
    pub exhausted: u64,
    /// Frees refused because page-table entries still map the frame.
    pub residual_refs: u64,
    /// Frees refused because the frame belongs to the kernel image.
    pub kernel_static_refused: u64,
    /// Frees refused because the frame was free already.
    pub already_free: u64,
    /// Physical range of the kernel image.
    pub kernel_base: u64,
    pub kernel_end: u64,
    /// First byte of the first and of the last frame of the bootstrap stack.
    pub stack_first: u64,
    pub stack_last: u64,
    /// Whether the diagnostic counters below are kept.
    pub diag: bool,
    /// Allocations that handed out a frame whose reference count was not zero.
    pub alloc_nonzero_rc: u64,
    /// Allocations that handed out a frame freed moments before.
    pub alloc_recent_free: u64,
    /// Recently freed frames.
    pub ring: RecentFreeRing,
}

/// What the physical memory manager knows.
#[verifier::ext_equal]
pub struct PmmView {
    /// Numbers of the frames that can be handed out.
    pub free: Set<int>,
    pub total: u64,
    pub used: u64,
    pub reserved: u64,
    pub next_fit: int,
    pub exhausted: u64,
    pub residual_refs: u64,
    pub kernel_static_refused: u64,
    pub already_free: u64,
    pub kernel_base: u64,
    pub kernel_end: u64,
    pub stack_first: u64,
    pub stack_last: u64,
    pub diag: bool,
    pub alloc_nonzero_rc: u64,
    pub alloc_recent_free: u64,
    pub ring: RecentFreeView,
}

/// Whether the bit of frame `page` is set.
pub open spec fn bit_set(bitmap: Seq<u8>, page: int) -> bool {
    bitmap[page / 8] & (1u8 << ((page % 8) as u8)) != 0
}

/// Numbers of the frames whose bit is clear.
pub open spec fn free_frames(bitmap: Seq<u8>) -> Set<int> {
    Set::new(|p: int| 0 <= p < MAX_PAGES && !bit_set(bitmap, p))
}

impl View for Pmm {
    type V = PmmView;

    open spec fn view(&self) -> PmmView {
        PmmView {
            free: free_frames(self.bitmap@),
            total: self.total,
            used: self.used,
            reserved: self.reserved,
            next_fit: self.next_fit as int,
            exhausted: self.exhausted,
            residual_refs: self.residual_refs,
            kernel_static_refused: self.kernel_static_refused,
            already_free: self.already_free,
            kernel_base: self.kernel_base,
            kernel_end: self.kernel_end,
            stack_first: self.stack_first,
            stack_last: self.stack_last,
            diag: self.diag,
            alloc_nonzero_rc: self.alloc_nonzero_rc,
            alloc_recent_free: self.alloc_recent_free,
            ring: self.ring@,
        }
    }
}

impl Pmm {
    /// The bitmap and the ring have their fixed sizes, and the search starts inside
    /// the bitmap.
    pub open spec fn wf(self) -> bool {
        &&& self.bitmap@.len() == BITMAP_SIZE
        &&& self.next_fit < BITMAP_SIZE
        &&& self.ring@.wf()
        &&& self.stack_last <= 0xFFFF_8000_0000_4000
    }
}

impl PmmView {
    /// The counters agree with the bitmap: the number of frames that can be handed
    /// out is the total less what is in use.
    pub open spec fn accounted(self) -> bool {
        &&& self.free.finite()
        &&& self.used <= self.total
        &&& self.total - self.used == self.free.len()
    }

    /// Whether `phys` lies in the kernel image.
    pub open spec fn kernel_static(self, phys: u64) -> bool {
        &&& self.kernel_base != 0
        &&& self.kernel_end != 0
        &&& self.kernel_base <= phys < self.kernel_end
    }

    /// `page` is the frame that the next search finds: the first free one at or
    /// after the cursor, or, where there is none, the first free one of all.
    pub open spec fn next_fit_choice(self, page: int) -> bool {
        &&& self.free.contains(page)
        &&& if page >= 8 * self.next_fit {
            forall|q: int| 8 * self.next_fit <= q < page ==> !self.free.contains(q)
        } else {
            forall|q: int| self.free.contains(q) ==> page <= q < 8 * self.next_fit
        }
    }

    /// The state after frame `page` was handed out.
    pub open spec fn after_alloc(self, page: int, rc: u16, now: u64) -> PmmView {
        let phys = (page * 4096) as u64;
        let recent = self.diag && self.ring.has_recent(phys, now, RECENT_FREE_WINDOW_TICKS);
        PmmView {
            free: self.free.remove(page),
            used: self.used.wrapping_add(1),
            next_fit: (page / 8 + 1) % (BITMAP_SIZE as int),
            alloc_nonzero_rc: if self.diag && rc != 0 {
                self.alloc_nonzero_rc.wrapping_add(1)
            } else {
                self.alloc_nonzero_rc
            },
            alloc_recent_free: if recent {
                self.alloc_recent_free.wrapping_add(1)
            } else {
                self.alloc_recent_free
            },
            ring: if recent {
                self.ring.forgotten(phys)
            } else {
                self.ring
            },
            ..self
        }
    }

    /// Whether the `count` frames from `start` on are all free.
    pub open spec fn run_free(self, start: int, count: int) -> bool {
        forall|p: int| start <= p < start + count ==> #[trigger] self.free.contains(p)
    }

    /// The state after the frames from `first` up to `end` were reserved.
    pub open spec fn after_reserve(self, first: int, end: int) -> PmmView {
        let taken = self.free.intersect(set_int_range(first, end));
        PmmView {
            free: self.free.difference(set_int_range(first, end)),
            used: self.used.wrapping_add(taken.len() as u64),
            reserved: self.reserved.wrapping_add(taken.len() as u64),
            ..self
        }
    }

    /// Why a free of `phys` is turned down, if it is, given the number of page-table
    /// entries that map the frame and whether it is pinned.
    pub open spec fn free_verdict(self, phys: u64, shares: u16, pinned: bool) -> FreeVerdict {
        if phys as int / 4096 >= MAX_PAGES {
            FreeVerdict::OutOfRange
        } else if self.kernel_static(phys) {
            FreeVerdict::KernelStatic
        } else if shares > 0 {
            FreeVerdict::ResidualRefs
        } else if pinned {
            FreeVerdict::Deferred
        } else if self.free.contains(phys as int / 4096) {
            FreeVerdict::AlreadyFree
        } else {
            FreeVerdict::Freed
        }
    }

    /// The state after a free of `phys` at tick `now`.
    pub open spec fn after_free(self, phys: u64, shares: u16, pinned: bool, now: u64) -> PmmView {
        match self.free_verdict(phys, shares, pinned) {
            FreeVerdict::OutOfRange => self,
            FreeVerdict::KernelStatic => PmmView {
                kernel_static_refused: self.kernel_static_refused.wrapping_add(1),
                ..self
            },
            FreeVerdict::ResidualRefs => PmmView {
                residual_refs: self.residual_refs.wrapping_add(1),
                ..self
            },
            FreeVerdict::Deferred => self,
            FreeVerdict::AlreadyFree => PmmView {
                already_free: self.already_free.wrapping_add(1),
                ..self
            },
            FreeVerdict::Freed => PmmView {
                free: self.free.insert(phys as int / 4096),
                used: self.used.wrapping_sub(1),
                ring: if self.diag {
                    self.ring.pushed(phys, now)
                } else {
                    self.ring
                },
                ..self
            },
        }
    }
}

/// What becomes of a request to free a frame.
#[derive(Clone, Copy, PartialEq, Eq, Structural, Debug)]
pub enum FreeVerdict {
    /// The address lies beyond the managed window: nothing happens.
    OutOfRange,
    /// The frame belongs to the kernel image: refused.
    KernelStatic,
    /// Page-table entries still map the frame: refused, and the frame is lost.
    ResidualRefs,
    /// A device still owns the frame: the last unpin frees it.
    Deferred,
    /// The frame is free already: refused.
    AlreadyFree,
    /// The frame is free now.
    Freed,
}

proof fn lemma_bit_ops(b: u8, i: u8, j: u8)
    by (bit_vector)
    requires
        i < 8,
        j < 8,
    ensures
        ((b | (1u8 << i)) & (1u8 << j) != 0) == (i == j || b & (1u8 << j) != 0),
        ((b & !(1u8 << i)) & (1u8 << j) != 0) == (i != j && b & (1u8 << j) != 0),
        b == 0xFF ==> b & (1u8 << j) != 0,
{
}

/// The set of free frames is finite and lies within the managed window.
pub proof fn lemma_free_finite(bitmap: Seq<u8>)
    ensures
        free_frames(bitmap).finite(),
        free_frames(bitmap).len() <= MAX_PAGES,
{
    let all = set_int_range(0, MAX_PAGES as int);
    lemma_int_range(0, MAX_PAGES as int);
    assert(free_frames(bitmap).subset_of(all));
    lemma_len_subset(free_frames(bitmap), all);
}

fn mark_page_used(bitmap: &mut Vec<u8>, page: u64)
    requires
        old(bitmap)@.len() == BITMAP_SIZE,
        page < MAX_PAGES,
    ensures
        final(bitmap)@.len() == BITMAP_SIZE,
        free_frames(final(bitmap)@) == free_frames(old(bitmap)@).remove(page as int),
{
    let idx: usize = (page / 8) as usize;
    let bit: u8 = (page % 8) as u8;
    let cur: u8 = bitmap[idx];
    bitmap.set(idx, cur | (1u8 << bit));
    proof {
        assert forall|p: int| 0 <= p < MAX_PAGES implies #[trigger] bit_set(bitmap@, p) == (p
            == page || bit_set(old(bitmap)@, p)) by {
            lemma_bit_ops(cur, bit, (p % 8) as u8);
        }
        assert(free_frames(bitmap@) =~= free_frames(old(bitmap)@).remove(page as int));
    }
}

fn mark_page_free(bitmap: &mut Vec<u8>, page: u64)
    requires
        old(bitmap)@.len() == BITMAP_SIZE,
        page < MAX_PAGES,
    ensures
        final(bitmap)@.len() == BITMAP_SIZE,
        free_frames(final(bitmap)@) == free_frames(old(bitmap)@).insert(page as int),
{
    let idx: usize = (page / 8) as usize;
    let bit: u8 = (page % 8) as u8;
    let cur: u8 = bitmap[idx];
    bitmap.set(idx, cur & !(1u8 << bit));
    proof {
        assert forall|p: int| 0 <= p < MAX_PAGES implies #[trigger] bit_set(bitmap@, p) == (p
            != page && bit_set(old(bitmap)@, p)) by {
            lemma_bit_ops(cur, bit, (p % 8) as u8);
        }
        assert(free_frames(bitmap@) =~= free_frames(old(bitmap)@).insert(page as int));
    }
}

fn is_page_used_locked(bitmap: &Vec<u8>, page: u64) -> (r: bool)
    requires
        bitmap@.len() == BITMAP_SIZE,
        page < MAX_PAGES,
    ensures
        r == !free_frames(bitmap@).contains(page as int),
{
    let bit: u8 = (page % 8) as u8;
    bitmap[(page / 8) as usize] & (1u8 << bit) != 0
}

/// Releases the frames from `first` up to `end` that are in use, and returns how
/// many there were.
fn release_span(bitmap: &mut Vec<u8>, first: u64, end: u64) -> (n: u64)
    requires
        old(bitmap)@.len() == BITMAP_SIZE,
        end <= MAX_PAGES,
    ensures
        final(bitmap)@.len() == BITMAP_SIZE,
        free_frames(final(bitmap)@) == free_frames(old(bitmap)@).union(
            set_int_range(first as int, end as int),
        ),
        n == free_frames(final(bitmap)@).len() - free_frames(old(bitmap)@).len(),
{
    let mut page: u64 = first;
    let mut n: u64 = 0;
    proof {
        assert(free_frames(bitmap@) =~= free_frames(old(bitmap)@).union(
            set_int_range(first as int, page as int),
        ));
    }
    while page < end
        invariant
            bitmap@.len() == BITMAP_SIZE,
            end <= MAX_PAGES,
            first <= page,
            page <= end || page == first,
            free_frames(bitmap@) == free_frames(old(bitmap)@).union(
                set_int_range(first as int, page as int),
            ),
            n == free_frames(bitmap@).len() - free_frames(old(bitmap)@).len(),
            n <= page - first,
        decreases end - page,
    {
        proof {
            lemma_free_finite(bitmap@);
        }
        if is_page_used_locked(bitmap, page) {
            mark_page_free(bitmap, page);
            n = n + 1;
        }
        page = page + 1;
        assert(free_frames(bitmap@) =~= free_frames(old(bitmap)@).union(
            set_int_range(first as int, page as int),
        ));
    }
    assert(set_int_range(first as int, page as int) =~= set_int_range(first as int, end as int));
    n
}

/// Reserves the frames from `first` up to `end` that are free, and returns how many
/// there were.
fn reserve_span(bitmap: &mut Vec<u8>, first: u64, end: u64) -> (n: u64)
    requires
        old(bitmap)@.len() == BITMAP_SIZE,
    ensures
        final(bitmap)@.len() == BITMAP_SIZE,
        free_frames(final(bitmap)@) == free_frames(old(bitmap)@).difference(
            set_int_range(first as int, end as int),
        ),
        n == free_frames(old(bitmap)@).len() - free_frames(final(bitmap)@).len(),
{
    let stop: u64 = if end < MAX_PAGES {
        end
    } else {
        MAX_PAGES
    };
    let mut page: u64 = first;
    let mut n: u64 = 0;
    proof {
        assert(free_frames(bitmap@) =~= free_frames(old(bitmap)@).difference(
            set_int_range(first as int, page as int),
        ));
    }
    while page < stop
        invariant
            bitmap@.len() == BITMAP_SIZE,
            stop <= MAX_PAGES,
            first <= page,
            page <= stop || page == first,
            free_frames(bitmap@) == free_frames(old(bitmap)@).difference(
                set_int_range(first as int, page as int),
            ),
            n == free_frames(old(bitmap)@).len() - free_frames(bitmap@).len(),
            n <= page - first,
        decreases stop - page,
    {
        proof {
            lemma_free_finite(bitmap@);
        }
        if !is_page_used_locked(bitmap, page) {
            mark_page_used(bitmap, page);
            n = n + 1;
        }
        page = page + 1;
        assert(free_frames(bitmap@) =~= free_frames(old(bitmap)@).difference(
            set_int_range(first as int, page as int),
        ));
    }
    assert(free_frames(bitmap@) =~= free_frames(old(bitmap)@).difference(
        set_int_range(first as int, end as int),
    ));
    n
}

/// Whether the firmware reports frame `page` as available in this range.
pub open spec fn covers(e: MemoryMapEntry, page: int) -> bool {
    &&& e.memory_type == MemoryType::Available
    &&& e.physical_start as int / 4096 <= page < e.physical_start as int / 4096 + e.page_count
}

/// Frames of the managed window that one of the first `n` ranges makes available.
pub open spec fn available_frames(entries: Seq<MemoryMapEntry>, n: int) -> Set<int> {
    Set::new(
        |p: int|
            0 <= p < MAX_PAGES && exists|i: int| 0 <= i < n && #[trigger] covers(entries[i], p),
    )
}

/// End of the kernel image: past the flat binary and past the zero-initialised
/// data that the linker placed after it.
pub open spec fn kernel_image_end(boot: BootInfo, kernel_end_va: u64) -> u64 {
    let bin_end = boot.kernel_phys_base.saturating_add(boot.kernel_size);
    let bss_end = kernel_end_va.saturating_sub(KERNEL_VIRT_BASE);
    if bin_end >= bss_end {
        bin_end
    } else {
        bss_end
    }
}

/// Number of frames that the kernel image fills.
pub open spec fn kernel_image_frames(boot: BootInfo, kernel_end_va: u64) -> int {
    (kernel_image_end(boot, kernel_end_va).saturating_sub(boot.kernel_phys_base) + 4095) / 4096
}

/// Whether the kernel runs on the firmware's stack, and not on one of its own.
pub open spec fn on_firmware_stack(rsp: u64) -> bool {
    rsp != 0 && rsp < KERNEL_VIRT_BASE
}

/// First frame of the bootstrap stack that is kept.
pub open spec fn stack_first_frame(rsp: u64) -> int {
    if rsp as int / 4096 >= 128 {
        rsp as int / 4096 - 128
    } else {
        0
    }
}

/// Whether frame `page` is set aside at boot: the kernel image and a megabyte
/// behind it, the handoff structure, the low megabyte and the bootstrap stack.
pub open spec fn reserved_at_boot(boot: BootInfo, kernel_end_va: u64, rsp: u64, page: int) -> bool {
    let k = boot.kernel_phys_base as int / 4096;
    ||| k <= page < k + kernel_image_frames(boot, kernel_end_va) + 256
    ||| boot_info_first() <= page <= boot_info_last(boot.handoff_bytes)
    ||| 0 <= page < 256
    ||| on_firmware_stack(rsp) && stack_first_frame(rsp) <= page <= rsp as int / 4096 + 4
}

/// First frame of the handoff structure.
pub open spec fn boot_info_first() -> int {
    BOOT_INFO_PHYS_BASE as int / 4096
}

/// Last frame of a handoff structure of the given size.
pub open spec fn boot_info_last(bytes: u64) -> int {
    (BOOT_INFO_PHYS_BASE + bytes.saturating_sub(1)) / 4096
}

impl BootInfo {
    /// The valid part of the memory map exists, and no sum that [`init`] forms
    /// leaves 64 bits.
    pub open spec fn wf(self, kernel_end_va: u64) -> bool {
        &&& self.memory_map.entry_count <= self.memory_map.entries@.len()
        &&& forall|i: int|
            0 <= i < self.memory_map.entry_count ==> ((
            #[trigger] self.memory_map.entries@[i]).memory_type == MemoryType::Available
                ==> self.memory_map.entries@[i].physical_start as int / 4096
                + self.memory_map.entries@[i].page_count <= u64::MAX)
        &&& kernel_image_end(self, kernel_end_va).saturating_sub(self.kernel_phys_base) + 4095
            <= u64::MAX
        &&& BOOT_INFO_PHYS_BASE + self.handoff_bytes.saturating_sub(1) <= u64::MAX
    }
}

impl PmmView {
    /// Frames that are free once the firmware's available ranges were released.
    pub open spec fn free_with_firmware(self, boot: BootInfo) -> Set<int> {
        self.free.union(
            available_frames(boot.memory_map.entries@, boot.memory_map.entry_count as int),
        )
    }

    /// The state after boot: everything available is released, and what the kernel
    /// already occupies is taken back.
    pub open spec fn after_boot(self, boot: BootInfo, kernel_end_va: u64, rsp: u64) -> PmmView {
        let released = self.free_with_firmware(boot);
        let left = released.filter(|p: int| !reserved_at_boot(boot, kernel_end_va, rsp, p));
        PmmView {
            free: left,
            total: (released.len() - self.free.len()) as u64,
            used: (released.len() - left.len()) as u64,
            reserved: (released.len() - left.len()) as u64,
            kernel_base: boot.kernel_phys_base,
            kernel_end: kernel_image_end(boot, kernel_end_va),
            stack_first: if on_firmware_stack(rsp) {
                (stack_first_frame(rsp) * 4096) as u64
            } else {
                self.stack_first
            },
            stack_last: if on_firmware_stack(rsp) {
                ((rsp as int / 4096 + 4) * 4096) as u64
            } else {
                self.stack_last
            },
            ..self
        }
    }
}

impl Pmm {
    /// The manager as it stands before [`init`]: every frame is in use.
    pub fn new(diag: bool) -> (r: Pmm)
        ensures
            r.wf(),
            r@ == (PmmView {
                free: Set::empty(),
                total: 0,
                used: 0,
                reserved: 0,
                next_fit: 0,
                exhausted: 0,
                residual_refs: 0,
                kernel_static_refused: 0,
                already_free: 0,
                kernel_base: 0,
                kernel_end: 0,
                stack_first: 0,
                stack_last: 0,
                diag,
                alloc_nonzero_rc: 0,
                alloc_recent_free: 0,
                ring: RecentFreeView {
                    entries: Seq::new(64, |i: int| RecentFreeEntry { phys: 0, freed_tick: 0 }),
                    next: 0,
                },
            }),
            r@.accounted(),
    {
        let bitmap: Vec<u8> = vec![0xFFu8; 0x2_0000];
        proof {
            assert forall|p: int| 0 <= p < MAX_PAGES implies #[trigger] bit_set(bitmap@, p) by {
                lemma_bit_ops(0xFF, 0, (p % 8) as u8);
            }
            assert(free_frames(bitmap@) =~= Set::empty());
        }
        Pmm {
            bitmap,
            total: 0,
            used: 0,
            reserved: 0,
            next_fit: 0,
            exhausted: 0,
            residual_refs: 0,
            kernel_static_refused: 0,
            already_free: 0,
            kernel_base: 0,
            kernel_end: 0,
            stack_first: 0,
            stack_last: 0,
            diag,
            alloc_nonzero_rc: 0,
            alloc_recent_free: 0,
            ring: RecentFreeRing::new(),
        }
    }
}

/// Physical range `[base, end)` of the kernel image; `(0, 0)` before [`init`].
pub fn kernel_image_phys_range(pmm: &Pmm) -> (r: (u64, u64))
    ensures
        r == (pmm@.kernel_base, pmm@.kernel_end),
{
    (pmm.kernel_base, pmm.kernel_end)
}

/// Whether `phys` lies in the kernel image.
pub fn is_kernel_static_phys(pmm: &Pmm, phys: u64) -> (r: bool)
    ensures
        r == pmm@.kernel_static(phys),
{
    let base: u64 = pmm.kernel_base;
    let end: u64 = pmm.kernel_end;
    base != 0 && end != 0 && phys >= base && phys < end
}

/// First and last frame of a handoff structure of `bytes` bytes, and its size.
pub fn boot_info_phys_page_span(bytes: u64) -> (r: (u64, u64, u64))
    requires
        BOOT_INFO_PHYS_BASE + bytes.saturating_sub(1) <= u64::MAX,
    ensures
        r.0 == boot_info_first(),
        r.1 == boot_info_last(bytes),
        r.2 == bytes,
        r.0 == 0x1000,
        bytes > 0 ==> r.1 * 4096 < 0x100_0000 + bytes <= r.1 * 4096 + 4096,
        bytes == 0 ==> r.1 == 0x1000,
{
    let first: u64 = BOOT_INFO_PHYS_BASE / PAGE_SIZE;
    let last: u64 = (BOOT_INFO_PHYS_BASE + bytes.saturating_sub(1)) / PAGE_SIZE;
    (first, last, bytes)
}

/// First byte of the first and of the last frame of the bootstrap stack.
pub fn bootstrap_stack_phys_span(pmm: &Pmm) -> (r: (u64, u64))
    ensures
        r == (pmm@.stack_first, pmm@.stack_last),
{
    (pmm.stack_first, pmm.stack_last)
}

/// Releases the available ranges of the memory map; returns the number of frames
/// that came free.
fn release_available(bitmap: &mut Vec<u8>, map: &MemoryMap) -> (total: u64)
    requires
        old(bitmap)@.len() == BITMAP_SIZE,
        map.entry_count <= map.entries@.len(),
        forall|i: int|
            0 <= i < map.entry_count ==> ((#[trigger] map.entries@[i]).memory_type
                == MemoryType::Available ==> map.entries@[i].physical_start as int / 4096
                + map.entries@[i].page_count <= u64::MAX),
    ensures
        final(bitmap)@.len() == BITMAP_SIZE,
        free_frames(final(bitmap)@) == free_frames(old(bitmap)@).union(
            available_frames(map.entries@, map.entry_count as int),
        ),
        total == free_frames(final(bitmap)@).len() - free_frames(old(bitmap)@).len(),
{
    let mut total: u64 = 0;
    let mut i: u64 = 0;
    let len: usize = map.entries.len();
    proof {
        assert(free_frames(bitmap@) =~= free_frames(old(bitmap)@).union(
            available_frames(map.entries@, 0),
        ));
    }
    while i < map.entry_count
        invariant
            bitmap@.len() == BITMAP_SIZE,
            i <= map.entry_count <= map.entries@.len() == len,
            forall|i: int|
                0 <= i < map.entry_count ==> ((#[trigger] map.entries@[i]).memory_type
                    == MemoryType::Available ==> map.entries@[i].physical_start as int / 4096
                    + map.entries@[i].page_count <= u64::MAX),
            free_frames(bitmap@) == free_frames(old(bitmap)@).union(
                available_frames(map.entries@, i as int),
            ),
            total == free_frames(bitmap@).len() - free_frames(old(bitmap)@).len(),
        decreases map.entry_count - i,
    {
        let entry: MemoryMapEntry = map.entries[i as usize];
        let ghost before = bitmap@;
        if entry.memory_type == MemoryType::Available {
            let start_page: u64 = entry.physical_start / PAGE_SIZE;
            let end_page: u64 = start_page + entry.page_count;
            let stop: u64 = if end_page < MAX_PAGES {
                end_page
            } else {
                MAX_PAGES
            };
            let n: u64 = release_span(bitmap, start_page, stop);
            proof {
                lemma_free_finite(bitmap@);
            }
            total = total + n;
        }
        proof {
            assert forall|p: int| 0 <= p < MAX_PAGES implies (#[trigger] available_frames(
                map.entries@,
                i + 1,
            ).contains(p) <==> available_frames(map.entries@, i as int).contains(p) || covers(
                entry,
                p,
            )) by {
                if covers(entry, p) {
                    assert(covers(map.entries@[i as int], p));
                }
            }
            assert(free_frames(bitmap@) =~= free_frames(old(bitmap)@).union(
                available_frames(map.entries@, i + 1),
            ));
        }
        i = i + 1;
    }
    total
}

/// Takes the memory over from the firmware.  `kernel_end_va` is the address at which
/// the linker ends the kernel image, `rsp` the stack pointer of the caller.
pub fn init(pmm: &mut Pmm, boot_info: &BootInfo, kernel_end_va: u64, rsp: u64)
    requires
        old(pmm).wf(),
        boot_info.wf(kernel_end_va),
    ensures
        final(pmm).wf(),
        final(pmm)@ == old(pmm)@.after_boot(*boot_info, kernel_end_va, rsp),
        old(pmm)@.free.is_empty() ==> final(pmm)@.accounted(),
        ({
            &&& boot_info.kernel_phys_base % 4096 == 0
            &&& kernel_end_va % 4096 == 0
            &&& kernel_end_va >= KERNEL_VIRT_BASE
            &&& boot_info.kernel_phys_base + boot_info.kernel_size <= kernel_end_va
                - KERNEL_VIRT_BASE
        }) ==> {
            &&& final(pmm)@.kernel_base % 4096 == 0
            &&& final(pmm)@.kernel_end % 4096 == 0
        },
{
    let ghost start = free_frames(pmm.bitmap@);
    proof {
        lemma_free_finite(pmm.bitmap@);
    }
    let total_available: u64 = release_available(&mut pmm.bitmap, &boot_info.memory_map);
    let ghost released = free_frames(pmm.bitmap@);
    proof {
        lemma_free_finite(pmm.bitmap@);
        assert(released =~= old(pmm)@.free_with_firmware(*boot_info));
    }

    let kernel_start_phys: u64 = boot_info.kernel_phys_base;
    let bss_kernel_end_phys: u64 = kernel_end_va.saturating_sub(KERNEL_VIRT_BASE);
    let bin_kernel_end_phys: u64 = kernel_start_phys.saturating_add(boot_info.kernel_size);
    let kernel_end_phys: u64 = if bin_kernel_end_phys >= bss_kernel_end_phys {
        bin_kernel_end_phys
    } else {
        bss_kernel_end_phys
    };
    let image_bytes: u64 = kernel_end_phys.saturating_sub(kernel_start_phys);
    pmm.kernel_base = kernel_start_phys;
    pmm.kernel_end = kernel_end_phys;

    let kernel_start: u64 = kernel_start_phys / PAGE_SIZE;
    let kernel_pages: u64 = (image_bytes + (PAGE_SIZE - 1)) / PAGE_SIZE;
    let kernel_stop: u64 = kernel_start + kernel_pages + 256;
    let n_kernel: u64 = reserve_span(&mut pmm.bitmap, kernel_start, kernel_stop);
    proof {
        lemma_free_finite(pmm.bitmap@);
    }

    let (info_first, info_last, _bytes) = boot_info_phys_page_span(boot_info.handoff_bytes);
    let n_info: u64 = reserve_span(&mut pmm.bitmap, info_first, info_last + 1);
    proof {
        lemma_free_finite(pmm.bitmap@);
    }

    let n_low: u64 = reserve_span(&mut pmm.bitmap, 0, 256);
    proof {
        lemma_free_finite(pmm.bitmap@);
    }

    let mut n_stack: u64 = 0;
    let ghost before_stack = free_frames(pmm.bitmap@);
    if rsp != 0 && rsp < KERNEL_VIRT_BASE {
        let cur_page: u64 = rsp / PAGE_SIZE;
        let first: u64 = cur_page.saturating_sub(128);
        let last: u64 = cur_page.saturating_add(4);
        n_stack = reserve_span(&mut pmm.bitmap, first, last + 1);
        pmm.stack_first = first * PAGE_SIZE;
        pmm.stack_last = last * PAGE_SIZE;
    }
    proof {
        lemma_free_finite(pmm.bitmap@);
        assert(free_frames(pmm.bitmap@) =~= released.filter(
            |p: int| !reserved_at_boot(*boot_info, kernel_end_va, rsp, p),
        ));
        vstd::set_lib::lemma_len_subset(start, released);
    }

    pmm.total = total_available;
    pmm.used = n_kernel + n_info + n_low + n_stack;
    pmm.reserved = n_kernel + n_info + n_low + n_stack;
    proof {
        vstd::set_lib::lemma_len_subset(free_frames(pmm.bitmap@), released);
        assert(start.is_empty() ==> start.len() == 0) by {
            if start.is_empty() {
                assert(start =~= Set::empty());
            }
        }
    }
}

/// First free frame among the frames of the bitmap bytes from `begin` up to `end`.
fn find_free(bitmap: &Vec<u8>, begin: u64, end: u64) -> (r: Option<u64>)
    requires
        bitmap@.len() == BITMAP_SIZE,
        end <= BITMAP_SIZE,
    ensures
        match r {
            Some(page) => {
                &&& 8 * begin <= page < 8 * end
                &&& free_frames(bitmap@).contains(page as int)
                &&& forall|q: int|
                    8 * begin <= q < page ==> !free_frames(bitmap@).contains(q)
            },
            None => forall|q: int|
                8 * begin <= q < 8 * end ==> !free_frames(bitmap@).contains(q),
        },
{
    let mut byte_idx: u64 = begin;
    while byte_idx < end
        invariant
            bitmap@.len() == BITMAP_SIZE,
            end <= BITMAP_SIZE,
            begin <= byte_idx,
            forall|q: int| 8 * begin <= q < 8 * byte_idx ==> !free_frames(bitmap@).contains(q),
        decreases end - byte_idx,
    {
        let byte: u8 = bitmap[byte_idx as usize];
        if byte != 0xFF {
            let mut bit: u64 = 0;
            while bit < 8
                invariant
                    bitmap@.len() == BITMAP_SIZE,
                    begin <= byte_idx < end <= BITMAP_SIZE,
                    bit <= 8,
                    forall|q: int|
                        8 * begin <= q < 8 * byte_idx + bit ==> !free_frames(bitmap@).contains(q),
                decreases 8 - bit,
            {
                let page: u64 = byte_idx * 8 + bit;
                if !is_page_used_locked(bitmap, page) {
                    return Some(page);
                }
                bit = bit + 1;
            }
        } else {
            proof {
                assert forall|q: int| 8 * byte_idx <= q < 8 * byte_idx + 8 implies !free_frames(
                    bitmap@,
                ).contains(q) by {
                    lemma_bit_ops(byte, 0, (q % 8) as u8);
                }
            }
        }
        byte_idx = byte_idx + 1;
    }
    None
}

/// Hands out the next free frame, searching from the cursor to the end of the bitmap
/// and then from its start.
fn alloc_page_locked(pmm: &mut Pmm, refs: &RefCounts, now: u64) -> (r: Option<u64>)
    requires
        old(pmm).wf(),
        refs@.wf(),
    ensures
        final(pmm).wf(),
        r is None <==> old(pmm)@.free.is_empty(),
        r is None ==> final(pmm)@ == old(pmm)@,
        r matches Some(phys) ==> {
            &&& phys % 4096 == 0
            &&& old(pmm)@.next_fit_choice(phys as int / 4096)
            &&& final(pmm)@ == old(pmm)@.after_alloc(
                phys as int / 4096,
                refs@.count(phys),
                now,
            )
        },
{
    let start_byte: u64 = pmm.next_fit;
    let mut found: Option<u64> = find_free(&pmm.bitmap, start_byte, BITMAP_SIZE);
    if found.is_none() {
        found = find_free(&pmm.bitmap, 0, start_byte);
    }
    match found {
        None => {
            proof {
                assert(pmm@.free =~= Set::empty());
            }
            None
        },
        Some(page) => {
            assert(pmm@.next_fit_choice(page as int));
            mark_page_used(&mut pmm.bitmap, page);
            pmm.used = pmm.used.wrapping_add(1);
            pmm.next_fit = (page / 8 + 1) % BITMAP_SIZE;
            let phys: u64 = page * PAGE_SIZE;
            if pmm.diag {
                let rc: u16 = page_ref_count(refs, phys);
                if rc != 0 {
                    pmm.alloc_nonzero_rc = pmm.alloc_nonzero_rc.wrapping_add(1);
                }
                let hit: Option<u64> = pmm.ring.find(phys, now, RECENT_FREE_WINDOW_TICKS);
                if hit.is_some() {
                    pmm.alloc_recent_free = pmm.alloc_recent_free.wrapping_add(1);
                    proof {
                        lemma_recent_has_first(pmm.ring@, phys, now, RECENT_FREE_WINDOW_TICKS);
                    }
                    pmm.ring.forget(phys);
                }
            }
            Some(phys)
        },
    }
}

proof fn lemma_recent_has_first(ring: RecentFreeView, phys: u64, now: u64, window: u64)
    requires
        ring.has_recent(phys, now, window),
    ensures
        exists|i: int| ring.first_for(phys, i),
{
    let k = choose|k: int|
        0 <= k < ring.entries.len() && is_recent(ring.entries[k], phys, now, window);
    lemma_first_at_or_before(ring, phys, k);
}

proof fn lemma_first_at_or_before(ring: RecentFreeView, phys: u64, k: int)
    requires
        0 <= k < ring.entries.len(),
        ring.entries[k].phys == phys,
    ensures
        exists|i: int| ring.first_for(phys, i),
    decreases k,
{
    if exists|j: int| 0 <= j < k && ring.entries[j].phys == phys {
        let j = choose|j: int| 0 <= j < k && ring.entries[j].phys == phys;
        lemma_first_at_or_before(ring, phys, j);
    } else {
        assert(ring.first_for(phys, k));
    }
}

/// Everything that is kept about page frames: who may have them, how many page-table
/// entries map them, and which of them a device owns.
pub struct Frames {
    pub pmm: Pmm,
    pub refs: RefCounts,
    pub pins: DmaPins,
}

/// What is known about page frames.
#[verifier::ext_equal]
pub struct FramesView {
    pub pmm: PmmView,
    pub refs: RefCountsView,
    pub pins: DmaPinsView,
}

impl View for Frames {
    type V = FramesView;

    open spec fn view(&self) -> FramesView {
        FramesView { pmm: self.pmm@, refs: self.refs@, pins: self.pins@ }
    }
}

impl Frames {
    pub open spec fn wf(self) -> bool {
        self.pmm.wf() && self.refs@.wf() && self.pins@.wf()
    }
}

impl PmmView {
    /// The frame that the next search finds, where one is free.
    pub open spec fn next_page(self) -> int {
        choose|page: int| self.next_fit_choice(page)
    }
}

impl FramesView {
    /// What an allocation at tick `now` hands out, and the state after it: the next
    /// free frame, or nothing where none is free, which is counted.
    pub open spec fn allocated(self, now: u64) -> (Option<u64>, FramesView) {
        let s = self.after_sweep(now);
        if s.pmm.free.is_empty() {
            (
                None,
                FramesView {
                    pmm: PmmView { exhausted: s.pmm.exhausted.wrapping_add(1), ..s.pmm },
                    ..s
                },
            )
        } else {
            s.take(now)
        }
    }

    /// What the search at tick `now` hands out where a frame is free, and the state
    /// after it.
    pub open spec fn take(self, now: u64) -> (Option<u64>, FramesView) {
        let page = self.pmm.next_page();
        let phys = (page * 4096) as u64;
        (
            Some(phys),
            FramesView { pmm: self.pmm.after_alloc(page, self.refs.count(phys), now), ..self },
        )
    }
}

/// There is one frame that the next search finds.
pub proof fn lemma_next_page(s: PmmView, page: int)
    requires
        s.next_fit_choice(page),
    ensures
        s.next_page() == page,
        s.next_fit_choice(s.next_page()),
{
    let other = s.next_page();
    assert(s.next_fit_choice(other));
    if other != page {
        assert(s.free.contains(other) && s.free.contains(page));
    }
}

/// Allocates one frame; before that, the frees that wait for thread context are
/// carried out if that is due.  Where no frame is free the shortage is counted and
/// `None` comes back; the caller then runs the out-of-memory killer and asks
/// [`alloc_page_after_oom`].
pub fn alloc_page(f: &mut Frames, now: u64) -> (r: Option<u64>)
    requires
        old(f).wf(),
    ensures
        final(f).wf(),
        (r, final(f)@) == old(f)@.allocated(now),
        final(f)@.refs == old(f)@.refs,
        r is None <==> old(f)@.after_sweep(now).pmm.free.is_empty(),
        r is None ==> final(f)@.pmm.free.is_empty(),
        r matches Some(phys) ==> {
            &&& phys % 4096 == 0
            &&& phys < 0x1_0000_0000
            &&& old(f)@.after_sweep(now).pmm.next_fit_choice(phys as int / 4096)
        },
{
    drain_deferred_if_due(f, now);
    let ghost swept = f@;
    let r: Option<u64> = alloc_page_locked(&mut f.pmm, &f.refs, now);
    match r {
        None => {
            f.pmm.exhausted = f.pmm.exhausted.wrapping_add(1);
        },
        Some(phys) => {
            proof {
                lemma_next_page(swept.pmm, phys as int / 4096);
            }
        },
    }
    r
}

/// Second and last attempt at an allocation, after the out-of-memory killer ran.
/// `victim` is the process that it chose; without one there is nothing to wait for.
pub fn alloc_page_after_oom(f: &mut Frames, now: u64, victim: Option<u64>) -> (r: Option<u64>)
    requires
        old(f).wf(),
    ensures
        final(f).wf(),
        r is None <==> victim is None || old(f)@.pmm.free.is_empty(),
        r is None ==> final(f)@ == old(f)@,
        r is Some ==> (r, final(f)@) == old(f)@.take(now),
        r matches Some(phys) ==> {
            &&& phys % 4096 == 0
            &&& phys < 0x1_0000_0000
            &&& old(f)@.pmm.next_fit_choice(phys as int / 4096)
        },
{
    if victim.is_some() {
        let r: Option<u64> = alloc_page_locked(&mut f.pmm, &f.refs, now);
        proof {
            if let Some(phys) = r {
                lemma_next_page(old(f)@.pmm, phys as int / 4096);
            }
        }
        r
    } else {
        None
    }
}

/// Frees the frame of `phys_addr`, unless the request is turned down or the frame is
/// pinned; says which.
pub fn free_page(f: &mut Frames, phys_addr: u64, now: u64) -> (verdict: FreeVerdict)
    requires
        old(f).wf(),
    ensures
        final(f).wf(),
        verdict == old(f)@.pmm.free_verdict(
            phys_addr,
            old(f)@.refs.count(phys_addr),
            old(f)@.pins.count(phys_addr) > 0,
        ),
        final(f)@ == old(f)@.after_free(phys_addr, now),
{
    let page: u64 = phys_addr / PAGE_SIZE;
    if page >= MAX_PAGES {
        return FreeVerdict::OutOfRange;
    }
    if is_kernel_static_phys(&f.pmm, phys_addr) {
        f.pmm.kernel_static_refused = f.pmm.kernel_static_refused.wrapping_add(1);
        return FreeVerdict::KernelStatic;
    }
    let residual: u16 = pte_share_count(&f.refs, phys_addr);
    if residual > 0 {
        f.pmm.residual_refs = f.pmm.residual_refs.wrapping_add(1);
        return FreeVerdict::ResidualRefs;
    }
    if mark_free_pending_if_pinned(&mut f.pins, phys_addr) {
        return FreeVerdict::Deferred;
    }
    if !is_page_used_locked(&f.pmm.bitmap, page) {
        f.pmm.already_free = f.pmm.already_free.wrapping_add(1);
        return FreeVerdict::AlreadyFree;
    }
    mark_page_free(&mut f.pmm.bitmap, page);
    f.pmm.used = f.pmm.used.wrapping_sub(1);
    if f.pmm.diag {
        f.pmm.ring.push(phys_addr, now);
    }
    FreeVerdict::Freed
}

/// Allocates `count` frames in a row: the first run of free frames that is long
/// enough.  Returns the address of the first one.
pub fn alloc_pages(pmm: &mut Pmm, count: usize) -> (r: Option<u64>)
    requires
        old(pmm).wf(),
    ensures
        final(pmm).wf(),
        r is None <==> count == 0 || forall|s: int|
            0 <= s && s + count <= MAX_PAGES ==> !#[trigger] old(pmm)@.run_free(s, count as int),
        r is None ==> final(pmm)@ == old(pmm)@,
        r matches Some(phys) ==> {
            let start = phys as int / 4096;
            &&& phys % 4096 == 0
            &&& start + count <= MAX_PAGES
            &&& old(pmm)@.run_free(start, count as int)
            &&& forall|s: int|
                0 <= s < start ==> !#[trigger] old(pmm)@.run_free(s, count as int)
            &&& final(pmm)@ == (PmmView {
                free: old(pmm)@.free.difference(set_int_range(start, start + count)),
                used: old(pmm)@.used.wrapping_add(count as u64),
                ..old(pmm)@
            })
        },
        r matches Some(phys) ==> forall|p: int| #[trigger]
            final(pmm)@.free.contains(p) <==> old(pmm)@.free.contains(p) && !(phys <= p * 4096 && p
                * 4096 < phys + count * 4096),
{
    if count == 0 {
        return None;
    }
    let want: u64 = count as u64;
    let mut start: u64 = 0;
    let mut found: u64 = 0;
    let mut page: u64 = 0;
    while page < MAX_PAGES
        invariant
            pmm.wf(),
            pmm@ == old(pmm)@,
            want == count,
            0 < want,
            page <= MAX_PAGES,
            found < want,
            found <= page,
            found > 0 ==> start + found == page,
            pmm@.run_free(page - found, found as int),
            found < page ==> !pmm@.free.contains(page - found - 1),
            forall|s: int|
                0 <= s < page - found ==> !#[trigger] pmm@.run_free(s, count as int),
        decreases MAX_PAGES - page,
    {
        if !is_page_used_locked(&pmm.bitmap, page) {
            if found == 0 {
                start = page;
            }
            found = found + 1;
            if found == want {
                assert(old(pmm)@.run_free(start as int, count as int));
                let _n: u64 = reserve_span(&mut pmm.bitmap, start, start + want);
                pmm.used = pmm.used.wrapping_add(want);
                assert(start * 4096 / 4096 == start);
                return Some(start * PAGE_SIZE);
            }
        } else {
            proof {
                assert forall|s: int| 0 <= s < page + 1 implies !#[trigger] pmm@.run_free(
                    s,
                    count as int,
                ) by {
                    if s >= page - found {
                        assert(s <= page < s + count);
                        assert(!pmm@.free.contains(page as int));
                    }
                }
            }
            found = 0;
        }
        page = page + 1;
    }
    proof {
        assert forall|s: int| 0 <= s && s + count <= MAX_PAGES implies !#[trigger] pmm@.run_free(
            s,
            count as int,
        ) by {
            assert(s < page - found);
        }
    }
    None
}

/// Takes the frames that `[start, end)` touches out of circulation for good.
pub fn reserve_range(pmm: &mut Pmm, start: u64, end: u64)
    requires
        old(pmm).wf(),
        end + 4095 <= u64::MAX,
    ensures
        final(pmm).wf(),
        final(pmm)@ == old(pmm)@.after_reserve(start as int / 4096, (end + 4095) / 4096),
        start < end ==> forall|p: int| #[trigger]
            final(pmm)@.free.contains(p) <==> old(pmm)@.free.contains(p) && !(p * 4096 < end && start
                < p * 4096 + 4096),
{
    let start_page: u64 = start / PAGE_SIZE;
    let end_page: u64 = (end + (PAGE_SIZE - 1)) / PAGE_SIZE;
    let ghost range = set_int_range(start_page as int, end_page as int);
    let ghost before = free_frames(pmm.bitmap@);
    proof {
        lemma_free_finite(pmm.bitmap@);
        lemma_split_len(before, range);
    }
    let newly_reserved: u64 = reserve_span(&mut pmm.bitmap, start_page, end_page);
    if newly_reserved > 0 {
        pmm.used = pmm.used.wrapping_add(newly_reserved);
        pmm.reserved = pmm.reserved.wrapping_add(newly_reserved);
    }
}

proof fn lemma_split_len(a: Set<int>, b: Set<int>)
    requires
        a.finite(),
    ensures
        a.len() == a.intersect(b).len() + a.difference(b).len(),
{
    assert(a.intersect(b).union(a.difference(b)) =~= a);
    assert(a.intersect(b).disjoint(a.difference(b)));
    lemma_set_disjoint_lens(a.intersect(b), a.difference(b));
}

/// Frames managed and frames in use.
pub fn stats(pmm: &Pmm) -> (r: (u64, u64))
    ensures
        r == (pmm@.total, pmm@.used),
        pmm@.accounted() ==> r.0 - r.1 == pmm@.free.len(),
{
    (pmm.total, pmm.used)
}

/// Frames that are reserved for good.
pub fn reserved_page_count(pmm: &Pmm) -> (r: u64)
    ensures
        r == pmm@.reserved,
{
    pmm.reserved
}

/// The counters of the manager beside a count of the bitmap.
#[derive(Clone, Copy, Debug)]
pub struct Accounting {
    pub total: u64,
    pub used: u64,
    pub reserved: u64,
    /// Free frames by the counters.
    pub counter_free: u64,
    /// Free frames by the bitmap.
    pub bitmap_free: u64,
}

impl Accounting {
    /// How far the counters are ahead of the bitmap; zero where they agree.
    pub fn drift(&self) -> (d: i64)
        requires
            i64::MIN <= (self.counter_free as i64) - (self.bitmap_free as i64) <= i64::MAX,
        ensures
            d == (self.counter_free as i64) - (self.bitmap_free as i64),
            self.counter_free <= i64::MAX && self.bitmap_free <= i64::MAX ==> d
                == self.counter_free - self.bitmap_free,
    {
        self.counter_free as i64 - self.bitmap_free as i64
    }
}

/// Counts the frames whose bit is clear.
fn count_free(bitmap: &Vec<u8>) -> (n: u64)
    requires
        bitmap@.len() == BITMAP_SIZE,
    ensures
        n == free_frames(bitmap@).len(),
{
    let mut n: u64 = 0;
    let mut page: u64 = 0;
    let ghost free = free_frames(bitmap@);
    proof {
        lemma_free_finite(bitmap@);
        assert(free.intersect(set_int_range(0, 0)) =~= Set::empty());
    }
    while page < MAX_PAGES
        invariant
            bitmap@.len() == BITMAP_SIZE,
            free == free_frames(bitmap@),
            free.finite(),
            page <= MAX_PAGES,
            n <= page,
            n == free.intersect(set_int_range(0, page as int)).len(),
        decreases MAX_PAGES - page,
    {
        let used: bool = is_page_used_locked(bitmap, page);
        proof {
            let seen = free.intersect(set_int_range(0, page as int));
            let next = free.intersect(set_int_range(0, page + 1));
            assert(seen.finite());
            if used {
                assert(next =~= seen);
            } else {
                assert(next =~= seen.insert(page as int));
            }
        }
        if !used {
            n = n + 1;
        }
        page = page + 1;
    }
    assert(free.intersect(set_int_range(0, page as int)) =~= free);
    n
}

/// The counters as they stand, with the bitmap counted beside them.
pub fn accounting_snapshot(pmm: &Pmm) -> (r: Accounting)
    requires
        pmm.wf(),
    ensures
        r.total == pmm@.total,
        r.used == pmm@.used,
        r.reserved == pmm@.reserved,
        r.counter_free == pmm@.total.saturating_sub(pmm@.used),
        r.bitmap_free == pmm@.free.len(),
        pmm@.accounted() ==> r.counter_free == r.bitmap_free,
{
    let bitmap_free: u64 = count_free(&pmm.bitmap);
    Accounting {
        total: pmm.total,
        used: pmm.used,
        reserved: pmm.reserved,
        counter_free: pmm.total.saturating_sub(pmm.used),
        bitmap_free,
    }
}

/// What a snapshot without waiting gives, where `held` is the allocator's lock: nothing where
/// it was not to be had.
pub fn snapshot_if_locked(pmm: &Pmm, held: Option<&spin::MutexGuard<'_, ()>>) -> (r: Option<
    Accounting,
>)
    requires
        pmm.wf(),
    ensures
        r is Some <==> held is Some,
        r matches Some(a) ==> {
            &&& a.total == pmm@.total
            &&& a.used == pmm@.used
            &&& a.reserved == pmm@.reserved
            &&& a.counter_free == pmm@.total.saturating_sub(pmm@.used)
            &&& a.bitmap_free == pmm@.free.len()
        },
{
    if held.is_some() {
        Some(accounting_snapshot(pmm))
    } else {
        None
    }
}

/// The counters with the bitmap counted beside them, or nothing where the allocator's
/// lock is held by someone else.
pub fn accounting_snapshot_nonblocking(lock: &spin::Mutex<()>, pmm: &Pmm) -> (r: Option<
    Accounting,
>)
    requires
        pmm.wf(),
    ensures
        r matches Some(a) ==> {
            &&& a.total == pmm@.total
            &&& a.used == pmm@.used
            &&& a.reserved == pmm@.reserved
            &&& a.counter_free == pmm@.total.saturating_sub(pmm@.used)
            &&& a.bitmap_free == pmm@.free.len()
        },
{
    let guard = try_lock(lock);
    snapshot_if_locked(pmm, guard.as_ref())
}

/// Whether frame `page` is in use; `false` beyond the managed window.
pub fn is_page_used_for_test(pmm: &Pmm, page: u64) -> (r: bool)
    requires
        pmm.wf(),
    ensures
        r == (page < MAX_PAGES && !pmm@.free.contains(page as int)),
{
    if page >= MAX_PAGES {
        return false;
    }
    is_page_used_locked(&pmm.bitmap, page)
}

/// Frames that can be handed out, by the counters.
pub fn free_page_count(pmm: &Pmm) -> (n: u64)
    ensures
        n == pmm@.total.saturating_sub(pmm@.used),
        pmm@.accounted() ==> n == pmm@.free.len(),
{
    pmm.total.saturating_sub(pmm.used)
}

/// The stack pointer that left the reserved bootstrap stack, and its bounds.
#[derive(Clone, Copy, PartialEq, Eq, Structural, Debug)]
pub struct BadKernelRsp {
    pub rsp: u64,
    pub lo: u64,
    pub hi: u64,
}

/// Checks that a stack pointer `rsp` in the lower half lies in the reserved
/// bootstrap stack.  The error is a reason to stop the machine.
pub fn bootstrap_stack_assert_rsp_reserved(pmm: &Pmm, rsp: u64) -> (r: Result<(), BadKernelRsp>)
    requires
        pmm.wf(),
    ensures
        r is Err <==> {
            &&& !(pmm@.stack_first == 0 && pmm@.stack_last == 0)
            &&& on_firmware_stack(rsp)
            &&& !(pmm@.stack_first <= rsp <= pmm@.stack_last + 4095)
        },
        r matches Err(e) ==> e.rsp == rsp && e.lo == pmm@.stack_first && e.hi == pmm@.stack_last
            + 4095,
{
    let (first, last) = bootstrap_stack_phys_span(pmm);
    if first == 0 && last == 0 {
        return Ok(());
    }
    if rsp == 0 || rsp >= KERNEL_VIRT_BASE {
        return Ok(());
    }
    let lo: u64 = first;
    let hi: u64 = last + (PAGE_SIZE - 1);
    if rsp < lo || rsp > hi {
        return Err(BadKernelRsp { rsp, lo, hi });
    }
    Ok(())
}

/// Address of the return address of the frame whose base pointer is `rbp`, if it can
/// be read safely: the frame must be aligned and lie in the direct map of physical
/// memory.
pub fn caller_rip_slot(rbp: u64) -> (r: Option<u64>)
    ensures
        r is Some <==> {
            &&& rbp % 8 == 0
            &&& KERNEL_VIRT_BASE <= rbp
            &&& rbp + 8 < KERNEL_VIRT_BASE + MAX_PAGES * PAGE_SIZE
        },
        r matches Some(a) ==> a == rbp + 8,
        r is Some <==> rbp % 8 == 0 && 0xFFFF_8000_0000_0000 <= rbp && rbp + 8
            < 0xFFFF_8001_0000_0000,
{
    let end: u64 = KERNEL_VIRT_BASE + 0x1_0000_0000;
    if rbp == 0 || rbp % 8 != 0 || rbp < KERNEL_VIRT_BASE || rbp.saturating_add(8) >= end {
        return None;
    }
    Some(rbp + 8)
}

/// Allocations that found no free frame.
pub fn exhausted_count(pmm: &Pmm) -> (n: u64)
    ensures
        n == pmm@.exhausted,
{
    pmm.exhausted
}

/// Allocations that handed out a frame freed moments before.
pub fn pmm_alloc_recent_free_count(pmm: &Pmm) -> (n: u64)
    ensures
        n == (if pmm@.diag { pmm@.alloc_recent_free } else { 0 }),
{
    if pmm.diag {
        pmm.alloc_recent_free
    } else {
        0
    }
}

/// Allocations that handed out a frame whose reference count was not zero.
pub fn pmm_alloc_nonzero_rc_count(pmm: &Pmm) -> (n: u64)
    ensures
        n == (if pmm@.diag { pmm@.alloc_nonzero_rc } else { 0 }),
{
    if pmm.diag {
        pmm.alloc_nonzero_rc
    } else {
        0
    }
}

/// Frees refused because page-table entries still map the frame.
pub fn pmm_free_residual_refs_count(pmm: &Pmm) -> (n: u64)
    ensures
        n == pmm@.residual_refs,
{
    pmm.residual_refs
}

/// Frees refused because the frame belongs to the kernel image.
pub fn pmm_free_kernel_static_refused_count(pmm: &Pmm) -> (n: u64)
    ensures
        n == pmm@.kernel_static_refused,
{
    pmm.kernel_static_refused
}

/// Frees refused because the frame was free already.
pub fn pmm_free_already_free_count(pmm: &Pmm) -> (n: u64)
    ensures
        n == pmm@.already_free,
{
    pmm.already_free
}

/// Handing out a frame keeps the counters in step with the bitmap.
pub proof fn law_alloc_keeps_accounting(s: PmmView, page: int, rc: u16, now: u64)
    requires
        s.accounted(),
        s.next_fit_choice(page),
    ensures
        s.after_alloc(page, rc, now).accounted(),
{
}

/// A free request keeps the counters in step with the bitmap, whether it is granted
/// or turned down.  Left out: a frame in use that was never counted, freed while
/// nothing at all is counted as in use.
pub proof fn law_free_keeps_accounting(s: PmmView, phys: u64, shares: u16, pinned: bool, now: u64)
    requires
        s.accounted(),
        s.used > 0,
    ensures
        s.after_free(phys, shares, pinned, now).accounted(),
{
}

/// Reserving a range keeps the counters in step with the bitmap.
pub proof fn law_reserve_keeps_accounting(s: PmmView, first: int, end: int)
    requires
        s.accounted(),
    ensures
        s.after_reserve(first, end).accounted(),
{
    lemma_split_len(s.free, set_int_range(first, end));
}

/// Handing out a run of frames keeps the counters in step with the bitmap.
pub proof fn law_alloc_pages_keeps_accounting(s: PmmView, start: int, count: nat)
    requires
        s.accounted(),
        s.run_free(start, count as int),
    ensures
        (PmmView {
            free: s.free.difference(set_int_range(start, start + count)),
            used: s.used.wrapping_add(count as u64),
            ..s
        }).accounted(),
{
    let run = set_int_range(start, start + count);
    lemma_split_len(s.free, run);
    lemma_int_range(start, start + count);
    assert(s.free.intersect(run) =~= run);
}

/// Reserving the same range twice reserves it once.
pub proof fn law_reserve_is_idempotent(s: PmmView, first: int, end: int)
    requires
        s.free.finite(),
    ensures
        s.after_reserve(first, end).after_reserve(first, end) =~= s.after_reserve(first, end),
{
    let again = s.after_reserve(first, end);
    assert(again.free.intersect(set_int_range(first, end)) =~= Set::empty());
}

/// A frame that was handed out is not handed out again before it is freed: it is
/// neither free nor a choice of the next search.
pub proof fn law_no_double_allocation(s: PmmView, page: int, rc: u16, now: u64, other: int)
    requires
        s.after_alloc(page, rc, now).next_fit_choice(other),
    ensures
        other != page,
{
}

/// Freeing a frame right after it was handed out makes it available again and
/// restores the counters.
pub proof fn law_free_undoes_alloc(s: PmmView, page: int, rc: u16, now: u64)
    requires
        s.accounted(),
        0 <= page < MAX_PAGES,
        s.free.contains(page),
        !s.kernel_static((page * 4096) as u64),
    ensures
        ({
            let taken = s.after_alloc(page, rc, now);
            let back = taken.after_free((page * 4096) as u64, 0, false, now);
            &&& taken.free_verdict((page * 4096) as u64, 0, false) == FreeVerdict::Freed
            &&& back.free =~= s.free
            &&& back.used == s.used
        }),
{
}

/// A second free of the same frame is refused: it changes nothing but the counter
/// of such requests.
pub proof fn law_double_free_is_refused(s: PmmView, phys: u64, now: u64, later: u64)
    requires
        s.free_verdict(phys, 0, false) == FreeVerdict::Freed,
    ensures
        ({
            let once = s.after_free(phys, 0, false, now);
            &&& once.free_verdict(phys, 0, false) == FreeVerdict::AlreadyFree
            &&& once.after_free(phys, 0, false, later) == (PmmView {
                already_free: once.already_free.wrapping_add(1),
                ..once
            })
        }),
{
}

/// A request that is turned down leaves every frame as it was.
pub proof fn law_refused_free_moves_no_frame(
    s: PmmView,
    phys: u64,
    shares: u16,
    pinned: bool,
    now: u64,
)
    requires
        s.free_verdict(phys, shares, pinned) != FreeVerdict::Freed,
    ensures
        s.after_free(phys, shares, pinned, now).free == s.free,
        s.after_free(phys, shares, pinned, now).used == s.used,
{
}

/// What is set aside at boot is never handed out as long as nobody frees it: it is
/// not among the free frames.
pub proof fn law_boot_reservations_hold(
    s: PmmView,
    boot: BootInfo,
    kernel_end_va: u64,
    rsp: u64,
    page: int,
)
    requires
        reserved_at_boot(boot, kernel_end_va, rsp, page),
    ensures
        !s.after_boot(boot, kernel_end_va, rsp).free.contains(page),
{
}

} // verus!
