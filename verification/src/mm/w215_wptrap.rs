//! Write protection of cached code pages, to catch whoever writes to one in place.
//!
//! A page that was found right when it entered the cache has no rightful writer any
//! more.  Its alias in the direct map is made read-only, so that the next store there
//! faults with the address of the instruction at hand.
use vstd::prelude::*;
use crate::mm::heap::PHYS_OFF;
use crate::mm::physmem::{byte_at, PhysMem};
use crate::mm::pmm::{Frames, FramesView};
use crate::mm::refcount::{page_ref_count, RefCounts};
use crate::mm::tlb::{shootdown_page, Flush, Shootdown, Tlb, TlbView};
use crate::mm::vmm::{
    after_map, frames_ok, get_cr3, law_map_then_lookup, leaf_entry, lookup_pte_in, map_page,
    path_ok, small_pte, usable, ADDR_MASK, PAGE_PRESENT, PAGE_WRITABLE,
};

verus! {

/// Frames that can be protected at a time.
pub const PROT_SLOTS: u64 = 64;

/// First frame that is ever protected.
pub const CLUSTER_PHYS_LO: u64 = 0x1000_0000;

/// End of the frames that are ever protected.
pub const CLUSTER_PHYS_HI: u64 = 0x4000_0000;

/// Bytes of a page that go into a report.
pub const REPORT_BYTES: u64 = 16;

/// A protected frame and the page that it holds.
#[derive(Clone, Copy, PartialEq, Eq, Structural, Debug)]
pub struct ProtEntry {
    /// Zero marks a free slot.
    pub phys: u64,
    pub inode: u64,
    pub offset: u64,
}

/// The protected frames.
pub struct WpTrap {
    pub slots: Vec<ProtEntry>,
    pub armed: u64,
    pub disarmed: u64,
    pub arm_table_full: u64,
    pub shootdown_timeouts: u64,
    pub fires: u64,
}

/// What is known of the protected frames.
#[verifier::ext_equal]
pub struct WpView {
    pub slots: Seq<ProtEntry>,
    pub armed: u64,
    pub disarmed: u64,
    pub arm_table_full: u64,
    pub shootdown_timeouts: u64,
    pub fires: u64,
}

impl View for WpTrap {
    type V = WpView;

    open spec fn view(&self) -> WpView {
        WpView {
            slots: self.slots@,
            armed: self.armed,
            disarmed: self.disarmed,
            arm_table_full: self.arm_table_full,
            shootdown_timeouts: self.shootdown_timeouts,
            fires: self.fires,
        }
    }
}

/// Start of the page of an address.
pub open spec fn page_of(phys: u64) -> u64 {
    (phys - phys % 4096) as u64
}

/// Slot `i` is the first that holds the value.
pub open spec fn first_slot(s: Seq<ProtEntry>, i: int, phys: u64) -> bool {
    &&& 0 <= i < s.len()
    &&& s[i].phys == phys
    &&& forall|j: int| 0 <= j < i ==> (#[trigger] s[j]).phys != phys
}

/// Frames held by the first `n` slots.
pub open spec fn held(s: Seq<ProtEntry>, n: int) -> int
    decreases n,
{
    if n <= 0 {
        0
    } else {
        held(s, n - 1) + (if s[n - 1].phys != 0 {
            1int
        } else {
            0
        })
    }
}

impl WpView {
    /// The slots hold whole frames of the window, none of them twice.
    pub open spec fn wf(self) -> bool {
        &&& self.slots.len() == PROT_SLOTS
        &&& forall|i: int|
            0 <= i < PROT_SLOTS ==> (#[trigger] self.slots[i]).phys == 0 || (
            self.slots[i].phys % 4096 == 0 && CLUSTER_PHYS_LO <= self.slots[i].phys
                < CLUSTER_PHYS_HI)
        &&& forall|i: int, j: int|
            0 <= i < j < PROT_SLOTS && (#[trigger] self.slots[i]).phys != 0
                ==> self.slots[i].phys != (#[trigger] self.slots[j]).phys
    }

    /// The frame of `phys` is protected.
    pub open spec fn protects(self, phys: u64) -> bool {
        page_of(phys) != 0 && exists|i: int|
            0 <= i < self.slots.len() && (#[trigger] self.slots[i]).phys == page_of(phys)
    }

    /// The frame may be protected at all.
    pub open spec fn in_window(phys: u64) -> bool {
        CLUSTER_PHYS_LO <= page_of(phys) < CLUSTER_PHYS_HI
    }

    /// Every slot is taken.
    pub open spec fn full(self) -> bool {
        forall|i: int| 0 <= i < self.slots.len() ==> (#[trigger] self.slots[i]).phys != 0
    }

    /// With the frame in slot `i`.
    pub open spec fn with_slot(self, i: int, e: ProtEntry) -> WpView {
        WpView { slots: self.slots.update(i, e), ..self }
    }
}

impl WpTrap {
    /// Nothing is protected.
    pub fn new() -> (r: WpTrap)
        ensures
            r@.wf(),
            r@ == (WpView {
                slots: Seq::new(
                    PROT_SLOTS as nat,
                    |i: int| ProtEntry { phys: 0, inode: 0, offset: 0 },
                ),
                armed: 0,
                disarmed: 0,
                arm_table_full: 0,
                shootdown_timeouts: 0,
                fires: 0,
            }),
    {
        let mut slots: Vec<ProtEntry> = Vec::new();
        let mut i: u64 = 0;
        while i < PROT_SLOTS
            invariant
                i <= PROT_SLOTS,
                slots@ == Seq::new(i as nat, |j: int| ProtEntry { phys: 0, inode: 0, offset: 0 }),
            decreases PROT_SLOTS - i,
        {
            slots.push(ProtEntry { phys: 0, inode: 0, offset: 0 });
            i = i + 1;
        }
        WpTrap {
            slots,
            armed: 0,
            disarmed: 0,
            arm_table_full: 0,
            shootdown_timeouts: 0,
            fires: 0,
        }
    }
}

/// Frames that were protected so far.
pub fn armed_count(w: &WpTrap) -> (n: u64)
    ensures
        n == w@.armed,
{
    w.armed
}

/// Frames whose protection was lifted so far.
pub fn disarmed_count(w: &WpTrap) -> (n: u64)
    ensures
        n == w@.disarmed,
{
    w.disarmed
}

/// Frames that found no slot.
pub fn arm_table_full_count(w: &WpTrap) -> (n: u64)
    ensures
        n == w@.arm_table_full,
{
    w.arm_table_full
}

/// Changes that not every processor took note of in time.
pub fn shootdown_timeout_count(w: &WpTrap) -> (n: u64)
    ensures
        n == w@.shootdown_timeouts,
{
    w.shootdown_timeouts
}

/// Stores that were caught.
pub fn fire_count(w: &WpTrap) -> (n: u64)
    ensures
        n == w@.fires,
{
    w.fires
}

/// Frames that are protected now.
pub fn protected_count(w: &WpTrap) -> (n: usize)
    requires
        w@.wf(),
    ensures
        n == held(w@.slots, PROT_SLOTS as int),
{
    let mut n: usize = 0;
    let mut i: usize = 0;
    let len: usize = w.slots.len();
    while i < len
        invariant
            len == w@.slots.len(),
            i <= len,
            n <= i,
            n == held(w@.slots, i as int),
        decreases len - i,
    {
        if w.slots[i].phys != 0 {
            n = n + 1;
        }
        i = i + 1;
    }
    n
}

/// The first slot that holds the value.
fn find_slot(slots: &Vec<ProtEntry>, phys: u64) -> (r: Option<usize>)
    ensures
        r matches Some(i) ==> first_slot(slots@, i as int, phys),
        r is None ==> forall|i: int| 0 <= i < slots@.len() ==> (#[trigger] slots@[i]).phys != phys,
{
    let mut i: usize = 0;
    let len: usize = slots.len();
    while i < len
        invariant
            len == slots@.len(),
            i <= len,
            forall|j: int| 0 <= j < i ==> (#[trigger] slots@[j]).phys != phys,
        decreases len - i,
    {
        if slots[i].phys == phys {
            return Some(i);
        }
        i = i + 1;
    }
    None
}

/// Whether the frame of `phys` is protected.
pub fn is_protected(w: &WpTrap, phys: u64) -> (r: bool)
    requires
        w@.wf(),
    ensures
        r == w@.protects(phys),
{
    let p: u64 = phys - phys % 4096;
    if p == 0 {
        return false;
    }
    match find_slot(&w.slots, p) {
        Some(i) => {
            assert(w@.slots[i as int].phys == page_of(phys));
            true
        },
        None => false,
    }
}

/// What became of a frame that was to be protected, or no longer.
pub enum Arm {
    /// Nothing was to be done: the frame lies outside the window, is protected already,
    /// or is not protected.
    Nothing,
    /// Every slot is taken.
    TableFull,
    /// There was no frame for a page table.
    MapFailed,
    /// The alias was changed; the caller carries the invalidation through, and reports
    /// with [`note_shootdown_timeout`] where not everyone answered.
    Changed(Shootdown),
}


/// The invalidation of the alias at `va` has begun.
pub open spec fn invalidates(s: Shootdown, t: TlbView, cr3: u64, va: u64, self_cpu: u64) -> bool {
    &&& s.local matches Flush::Pages(pages) && pages@ == seq![va]
    &&& s.wait is None <==> t.targets(cr3, self_cpu).len() == 0
    &&& s.wait is Some ==> s.wait->0.remaining@ == t.targets(cr3, self_cpu)
}

/// Makes the alias of the frame of `phys` in the direct map read-only, and takes note of
/// the page that it holds.
pub fn arm(
    w: &mut WpTrap,
    mem: &mut PhysMem,
    f: &mut Frames,
    t: &mut Tlb,
    cr3: u64,
    self_cpu: u64,
    phys: u64,
    inode: u64,
    offset: u64,
    now: u64,
) -> (r: Arm)
    requires
        old(w)@.wf(),
        old(f).wf(),
        old(t)@.wf(),
    ensures
        final(w)@.wf(),
        final(f).wf(),
        final(t)@.wf(),
        ({
            let p = page_of(phys);
            let va = (PHYS_OFF + p) as u64;
            let root = cr3 & ADDR_MASK;
            let (ok, mem2, frames2) = after_map(
                old(mem)@,
                old(f)@,
                root,
                va,
                PAGE_PRESENT,
                leaf_entry(p, PAGE_PRESENT),
                now,
            );
            if !WpView::in_window(phys) || old(w)@.protects(phys) {
                &&& r is Nothing
                &&& final(w)@ == old(w)@
                &&& final(mem)@ == old(mem)@
                &&& final(f)@ == old(f)@
                &&& final(t)@ == old(t)@
            } else if old(w)@.full() {
                &&& r is TableFull
                &&& final(w)@ == (WpView {
                    arm_table_full: old(w)@.arm_table_full.wrapping_add(1),
                    ..old(w)@
                })
                &&& final(mem)@ == old(mem)@
                &&& final(f)@ == old(f)@
                &&& final(t)@ == old(t)@
            } else {
                &&& final(mem)@ == mem2
                &&& final(f)@ == frames2
                &&& if ok {
                    &&& r is Changed
                    &&& invalidates(r->Changed_0, old(t)@, root, va, self_cpu)
                    &&& final(t)@ == old(t)@.published(
                        old(t)@.targets(root, self_cpu),
                        root,
                        va,
                        (va + 4096) as u64,
                    )
                    &&& forall|i: int| #[trigger] first_slot(old(w)@.slots, i, 0) ==> final(w)@
                        == (WpView {
                        armed: old(w)@.armed.wrapping_add(1),
                        ..old(w)@.with_slot(i, ProtEntry { phys: p, inode, offset })
                    })
                } else {
                    &&& r is MapFailed
                    &&& final(t)@ == old(t)@
                    &&& forall|i: int| #[trigger] first_slot(old(w)@.slots, i, 0) ==> final(w)@
                        == old(w)@.with_slot(i, ProtEntry { phys: 0, inode, offset })
                }
            }
        }),
        r is Changed <==> final(w)@.armed != old(w)@.armed,
        r is Changed ==> final(w)@.protects(phys),
        ({
            let va = (PHYS_OFF + page_of(phys)) as u64;
            let root = cr3 & ADDR_MASK;
            r is Changed && path_ok(old(mem)@, usable(old(f)@, now), root, va) && frames_ok(
                old(mem)@,
                usable(old(f)@, now),
            ) ==> maps(final(mem)@, root, va, page_of(phys), false)
        }),
{
    let p: u64 = phys - phys % 4096;
    if p < CLUSTER_PHYS_LO || p >= CLUSTER_PHYS_HI {
        return Arm::Nothing;
    }
    if is_protected(w, p) {
        return Arm::Nothing;
    }
    let slot: usize = match find_slot(&w.slots, 0) {
        Some(i) => i,
        None => {
            w.arm_table_full = w.arm_table_full.wrapping_add(1);
            return Arm::TableFull;
        },
    };
    proof {
        assert forall|i: int| #[trigger] first_slot(old(w)@.slots, i, 0) implies i == slot by {
            if i < slot {
                assert(old(w)@.slots[i].phys != 0);
            } else if slot < i {
                assert(old(w)@.slots[slot as int].phys != 0);
            }
        }
        assert(!old(w)@.full()) by {
            assert(old(w)@.slots[slot as int].phys == 0);
        }
    }
    w.slots.set(slot, ProtEntry { phys: p, inode, offset });
    let va: u64 = PHYS_OFF + p;
    let ok: bool = map_page(mem, f, cr3, va, p, PAGE_PRESENT, now);
    if !ok {
        w.slots.set(slot, ProtEntry { phys: 0, inode, offset });
        assert(w@ =~= old(w)@.with_slot(slot as int, ProtEntry { phys: 0, inode, offset }));
        return Arm::MapFailed;
    }
    let s = shootdown_page(t, get_cr3(cr3), va, self_cpu);
    w.armed = w.armed.wrapping_add(1);
    proof {
        assert(w@.slots[slot as int].phys == p);
        let root = cr3 & ADDR_MASK;
        if path_ok(old(mem)@, usable(old(f)@, now), root, va) && frames_ok(
            old(mem)@,
            usable(old(f)@, now),
        ) {
            law_protection_is_effective(old(mem)@, old(f)@, root, va, p, now);
        }
    }
    Arm::Changed(s)
}

/// Counts a change that not every processor took note of in time.
pub fn note_shootdown_timeout(w: &mut WpTrap)
    ensures
        final(w)@ == (WpView {
            shootdown_timeouts: old(w)@.shootdown_timeouts.wrapping_add(1),
            ..old(w)@
        }),
{
    w.shootdown_timeouts = w.shootdown_timeouts.wrapping_add(1);
}

/// Makes the alias of the frame of `phys` writable again and frees its slot.
pub fn disarm(
    w: &mut WpTrap,
    mem: &mut PhysMem,
    f: &mut Frames,
    t: &mut Tlb,
    cr3: u64,
    self_cpu: u64,
    phys: u64,
    now: u64,
) -> (r: Arm)
    requires
        old(w)@.wf(),
        old(f).wf(),
        old(t)@.wf(),
    ensures
        final(w)@.wf(),
        final(f).wf(),
        final(t)@.wf(),
        !final(w)@.protects(phys),
        ({
            let p = page_of(phys);
            let va = (PHYS_OFF + p) as u64;
            let root = cr3 & ADDR_MASK;
            let (ok, mem2, frames2) = after_map(
                old(mem)@,
                old(f)@,
                root,
                va,
                PAGE_WRITABLE,
                leaf_entry(p, PAGE_WRITABLE),
                now,
            );
            if !old(w)@.protects(phys) {
                &&& r is Nothing
                &&& final(w)@ == old(w)@
                &&& final(mem)@ == old(mem)@
                &&& final(f)@ == old(f)@
                &&& final(t)@ == old(t)@
            } else {
                &&& r is Changed
                &&& invalidates(r->Changed_0, old(t)@, root, va, self_cpu)
                &&& final(mem)@ == mem2
                &&& final(f)@ == frames2
                &&& final(t)@ == old(t)@.published(
                    old(t)@.targets(root, self_cpu),
                    root,
                    va,
                    (va + 4096) as u64,
                )
                &&& forall|i: int| #[trigger] first_slot(old(w)@.slots, i, p) ==> final(w)@ == (
                WpView {
                    disarmed: old(w)@.disarmed.wrapping_add(1),
                    ..old(w)@.with_slot(i, ProtEntry { phys: 0, ..old(w)@.slots[i] })
                })
            }
        }),
        ({
            let va = (PHYS_OFF + page_of(phys)) as u64;
            let root = cr3 & ADDR_MASK;
            r is Changed && path_ok(old(mem)@, usable(old(f)@, now), root, va) && frames_ok(
                old(mem)@,
                usable(old(f)@, now),
            ) && after_map(
                old(mem)@,
                old(f)@,
                root,
                va,
                PAGE_WRITABLE,
                leaf_entry(page_of(phys), PAGE_WRITABLE),
                now,
            ).0 ==> maps(final(mem)@, root, va, page_of(phys), true)
        }),
{
    let p: u64 = phys - phys % 4096;
    if p == 0 {
        return Arm::Nothing;
    }
    let slot: usize = match find_slot(&w.slots, p) {
        Some(i) => i,
        None => {
            return Arm::Nothing;
        },
    };
    proof {
        assert(old(w)@.slots[slot as int].phys == p);
        assert forall|i: int| #[trigger] first_slot(old(w)@.slots, i, p) implies i == slot by {
            if i < slot {
                assert(old(w)@.slots[i].phys != p);
            } else if slot < i {
                assert(old(w)@.slots[slot as int].phys != p);
            }
        }
    }
    let e: ProtEntry = w.slots[slot];
    w.slots.set(slot, ProtEntry { phys: 0, inode: e.inode, offset: e.offset });
    let va: u64 = PHYS_OFF + p;
    let _ok: bool = map_page(mem, f, cr3, va, p, PAGE_WRITABLE, now);
    let s = shootdown_page(t, get_cr3(cr3), va, self_cpu);
    w.disarmed = w.disarmed.wrapping_add(1);
    proof {
        let root = cr3 & ADDR_MASK;
        if path_ok(old(mem)@, usable(old(f)@, now), root, va) && frames_ok(
            old(mem)@,
            usable(old(f)@, now),
        ) {
            law_protection_is_effective(old(mem)@, old(f)@, root, va, p, now);
        }
        assert forall|i: int| 0 <= i < w@.slots.len() implies (#[trigger] w@.slots[i]).phys != p by {
            if i != slot {
                assert(old(w)@.slots[i].phys != p);
            }
        }
    }
    Arm::Changed(s)
}

/// What is reported of a store to a protected frame.
pub struct WpReport {
    pub phys: u64,
    pub inode: u64,
    pub offset: u64,
    /// References to the frame.
    pub refs: u16,
    /// First bytes of the page, before the store.
    pub bytes: Vec<u8>,
}

/// A store to a protected frame was caught: counts it, and gives what there is to report
/// before the machine is stopped.
pub fn report_and_freeze(w: &mut WpTrap, mem: &PhysMem, refs: &RefCounts, phys: u64) -> (r: WpReport)
    requires
        old(w)@.wf(),
        refs@.wf(),
        phys < 0x8000_0000_0000,
    ensures
        final(w)@ == (WpView { fires: old(w)@.fires.wrapping_add(1), ..old(w)@ }),
        r.phys == page_of(phys),
        r.refs == refs@.count(page_of(phys)),
        r.bytes@ == Seq::new(REPORT_BYTES as nat, |i: int| byte_at(mem@, page_of(phys) + i)),
        forall|i: int| #[trigger]
            first_slot(old(w)@.slots, i, page_of(phys)) ==> r.inode == old(w)@.slots[i].inode
                && r.offset == old(w)@.slots[i].offset,
        (forall|i: int| !first_slot(old(w)@.slots, i, page_of(phys))) ==> r.inode == 0 && r.offset
            == 0,
{
    w.fires = w.fires.wrapping_add(1);
    let p: u64 = phys - phys % 4096;
    let (inode, offset): (u64, u64) = match find_slot(&w.slots, p) {
        Some(k) => {
            proof {
                assert forall|i: int| #[trigger] first_slot(old(w)@.slots, i, p) implies i == k by {
                    if i < k {
                        assert(old(w)@.slots[i].phys != p);
                    } else if k < i {
                        assert(old(w)@.slots[k as int].phys != p);
                    }
                }
            }
            (w.slots[k].inode, w.slots[k].offset)
        },
        None => (0, 0),
    };
    let mut bytes: Vec<u8> = Vec::new();
    let mut i: u64 = 0;
    while i < REPORT_BYTES
        invariant
            i <= REPORT_BYTES,
            p < 0x8000_0000_0000,
            bytes@ == Seq::new(i as nat, |j: int| byte_at(mem@, p + j)),
        decreases REPORT_BYTES - i,
    {
        bytes.push(mem.read_byte(p + i));
        i = i + 1;
    }
    WpReport { phys: p, inode, offset, refs: page_ref_count(refs, p), bytes }
}

/// Start and end of the frames that are ever protected.
pub fn cluster_window() -> (r: (u64, u64))
    ensures
        r == (CLUSTER_PHYS_LO, CLUSTER_PHYS_HI),
{
    (CLUSTER_PHYS_LO, CLUSTER_PHYS_HI)
}

/// The address is mapped by a 4 KiB page to `phys`, writable or not as asked.
pub open spec fn maps(mem: Seq<u64>, root: u64, va: u64, phys: u64, writable: bool) -> bool {
    match small_pte(mem, root, va) {
        Some(e) => (e & PAGE_WRITABLE != 0) == writable && e & ADDR_MASK == phys,
        None => false,
    }
}

fn probe(mem: &PhysMem, root: u64, va: u64, phys: u64, writable: bool) -> (r: bool)
    ensures
        r == maps(mem@, root, va, phys, writable),
{
    match lookup_pte_in(mem, root, va) {
        Some(e) => ((e & PAGE_WRITABLE) != 0) == writable && (e & ADDR_MASK) == phys,
        None => false,
    }
}

/// Protects the frame of `phys` and lifts the protection again; says whether the alias
/// was read-only in between, whether the next frame's alias stayed writable, and whether
/// the alias is writable again.  The caller drops the cached translations of both.
pub fn selftest(mem: &mut PhysMem, f: &mut Frames, cr3: u64, phys: u64, now: u64) -> (r: (
    bool,
    bool,
    bool,
))
    requires
        old(f).wf(),
        phys < 0x7FFF_FFFF_E000,
    ensures
        final(f).wf(),
        ({
            let p = page_of(phys);
            let va = (PHYS_OFF + p) as u64;
            let root = cr3 & ADDR_MASK;
            let (ok1, m1, f1) = after_map(
                old(mem)@,
                old(f)@,
                root,
                va,
                PAGE_PRESENT,
                leaf_entry(p, PAGE_PRESENT),
                now,
            );
            let (ok2, m2, f2) = after_map(
                m1,
                f1,
                root,
                va,
                PAGE_WRITABLE,
                leaf_entry(p, PAGE_WRITABLE),
                now,
            );
            &&& final(mem)@ == m2
            &&& final(f)@ == f2
            &&& r.0 == maps(m1, root, va, p, false)
            &&& r.1 == maps(m1, root, (va + 0x1000) as u64, (p + 0x1000) as u64, true)
            &&& r.2 == maps(m2, root, va, p, true)
        }),
{
    let p: u64 = phys - phys % 4096;
    let va: u64 = PHYS_OFF + p;
    let root: u64 = get_cr3(cr3);
    let _ok1: bool = map_page(mem, f, cr3, va, p, PAGE_PRESENT, now);
    let read_only: bool = probe(mem, root, va, p, false);
    let neighbour: bool = probe(mem, root, va + 0x1000, p + 0x1000, true);
    let _ok2: bool = map_page(mem, f, cr3, va, p, PAGE_WRITABLE, now);
    let restored: bool = probe(mem, root, va, p, true);
    (read_only, neighbour, restored)
}

/// A frame that was protected and then no longer leaves the set of protected frames as it
/// was, whatever else is protected.
pub proof fn law_disarm_undoes_arm(w: WpView, i: int, p: u64, inode: u64, offset: u64, other: u64)
    requires
        w.wf(),
        first_slot(w.slots, i, 0),
        p != 0,
        p % 4096 == 0,
        !w.protects(p),
    ensures
        ({
            let armed = w.with_slot(i, ProtEntry { phys: p, inode, offset });
            let back = armed.with_slot(i, ProtEntry { phys: 0, inode, offset });
            &&& armed.protects(p)
            &&& first_slot(armed.slots, i, p)
            &&& back.protects(other) == w.protects(other)
        }),
{
    let armed = w.with_slot(i, ProtEntry { phys: p, inode, offset });
    let back = armed.with_slot(i, ProtEntry { phys: 0, inode, offset });
    assert(armed.slots[i].phys == p);
    assert forall|j: int| 0 <= j < i implies (#[trigger] armed.slots[j]).phys != p by {
        if w.slots[j].phys == p {
            assert(w.protects(p));
        }
    }
    let q = page_of(other);
    if w.protects(other) {
        let j = choose|j: int| 0 <= j < w.slots.len() && (#[trigger] w.slots[j]).phys == q;
        assert(back.slots[j].phys == q);
    }
    if back.protects(other) {
        let j = choose|j: int| 0 <= j < back.slots.len() && (#[trigger] back.slots[j]).phys == q;
        assert(w.slots[j].phys == q);
    }
}

proof fn lemma_writable_bit(p: u64)
    by (bit_vector)
    requires
        p % 4096 == 0,
        p < 0x0010_0000_0000_0000,
    ensures
        ((p & 0x000F_FFFF_FFFF_F000) | 0x1 | 0x1) & 0x2 == 0,
        ((p & 0x000F_FFFF_FFFF_F000) | 0x2 | 0x1) & 0x2 == 0x2,
        ((p & 0x000F_FFFF_FFFF_F000) | 0x1 | 0x1) & 0x000F_FFFF_FFFF_F000 == p,
        ((p & 0x000F_FFFF_FFFF_F000) | 0x2 | 0x1) & 0x000F_FFFF_FFFF_F000 == p,
        0x1u64 & 0x000F_FFFF_FFFF_F000 == 0,
        0x2u64 & 0x000F_FFFF_FFFF_F000 == 0,
{
}

/// Protecting a frame makes its alias read-only, and lifting the protection makes it
/// writable, as long as there is memory for the tables.  The tables on the way must be
/// sound.
pub proof fn law_protection_is_effective(
    mem: Seq<u64>,
    f: FramesView,
    root: u64,
    va: u64,
    p: u64,
    now: u64,
)
    requires
        path_ok(mem, usable(f, now), root, va),
        frames_ok(mem, usable(f, now)),
        p % 4096 == 0,
        p < 0x0010_0000_0000_0000,
    ensures
        ({
            let (ok, m, g) = after_map(
                mem,
                f,
                root,
                va,
                PAGE_PRESENT,
                leaf_entry(p, PAGE_PRESENT),
                now,
            );
            ok ==> maps(m, root, va, p, false)
        }),
        ({
            let (ok, m, g) = after_map(
                mem,
                f,
                root,
                va,
                PAGE_WRITABLE,
                leaf_entry(p, PAGE_WRITABLE),
                now,
            );
            ok ==> maps(m, root, va, p, true)
        }),
{
    lemma_writable_bit(p);
    if after_map(mem, f, root, va, PAGE_PRESENT, leaf_entry(p, PAGE_PRESENT), now).0 {
        law_map_then_lookup(mem, f, root, va, p, PAGE_PRESENT, now);
    }
    if after_map(mem, f, root, va, PAGE_WRITABLE, leaf_entry(p, PAGE_WRITABLE), now).0 {
        law_map_then_lookup(mem, f, root, va, p, PAGE_WRITABLE, now);
    }
}

} // verus!
