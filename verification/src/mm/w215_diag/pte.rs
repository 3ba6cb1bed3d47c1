//! The last change of each page-table entry of the user address space.
use vstd::prelude::*;
use crate::mm::w215_diag::band::{
    band_install_record, band_unmap_record, banded, in_band, page, Band, BandView, DoubleInstall,
};

verus! {

/// Start of the addresses whose changes are noted.
pub const USER_STACK_RING_LO: u64 = 0x0000_0000_0000_1000;

/// End of the addresses whose changes are noted.
pub const USER_STACK_RING_HI: u64 = 0x0000_8000_0000_0000;

/// Slots of the ring.
pub const PTE_RING_SIZE: u64 = 1024;

pub const PTE_KIND_MAP: u8 = 1;

pub const PTE_KIND_UNMAP: u8 = 2;

pub const PTE_KIND_WRITE: u8 = 3;

pub const PTE_KIND_BULK_UNMAP: u8 = 4;

pub const PTE_KIND_FORK_CLONE: u8 = 5;

/// One change.
#[derive(Clone, Copy, PartialEq, Eq, Structural, Debug)]
pub struct PteChange {
    /// The page; zero marks an empty slot.
    pub va: u64,
    pub tick: u64,
    pub new_phys: u64,
    pub old_phys: u64,
    pub rip_low32: u32,
    /// Low part of the number of the root's frame.
    pub cr3_low16: u16,
    pub cpu: u8,
    pub kind: u8,
    pub tid: u64,
}

/// Who changes an entry, and when.
#[derive(Clone, Copy, PartialEq, Eq, Structural, Debug)]
pub struct Changer {
    pub caller_rip: u64,
    pub cr3: u64,
    pub cpu: u8,
    pub tid: u64,
    pub tick: u64,
}

/// The last changes.
pub struct PteRing {
    pub slots: Vec<PteChange>,
    pub recorded: u64,
    pub displaced: u64,
}

/// What is known of the last changes.
#[verifier::ext_equal]
pub struct PteRingView {
    pub slots: Seq<PteChange>,
    pub recorded: u64,
    pub displaced: u64,
}

impl View for PteRing {
    type V = PteRingView;

    open spec fn view(&self) -> PteRingView {
        PteRingView { slots: self.slots@, recorded: self.recorded, displaced: self.displaced }
    }
}

/// The slot of a page that never changed.
pub open spec fn no_change() -> PteChange {
    PteChange {
        va: 0,
        tick: 0,
        new_phys: 0,
        old_phys: 0,
        rip_low32: 0,
        cr3_low16: 0,
        cpu: 0,
        kind: 0,
        tid: 0,
    }
}

/// Changes at the address are noted.
pub open spec fn noted(va: u64) -> bool {
    USER_STACK_RING_LO <= va < USER_STACK_RING_HI
}

/// Slot of an address.
pub open spec fn pte_slot(va: u64) -> int {
    (va / 4096 % PTE_RING_SIZE) as int
}

/// The change maps a frame.
pub open spec fn maps_frame(kind: u8, new_phys: u64) -> bool {
    (kind == PTE_KIND_MAP || kind == PTE_KIND_WRITE || kind == PTE_KIND_FORK_CLONE) && page(
        new_phys,
    ) != 0
}

/// The change takes a mapping away: an unmapping, or an entry that is cleared.
pub open spec fn takes_away(kind: u8, new_phys: u64) -> bool {
    kind == PTE_KIND_UNMAP || kind == PTE_KIND_BULK_UNMAP || ((kind == PTE_KIND_MAP || kind
        == PTE_KIND_WRITE || kind == PTE_KIND_FORK_CLONE) && page(new_phys) == 0)
}

/// What the tables of the band hold after the change.
pub open spec fn band_after(
    b: BandView,
    va: u64,
    new_phys: u64,
    old_phys: u64,
    kind: u8,
    c: Changer,
) -> BandView {
    if !banded(va) {
        b
    } else if maps_frame(kind, new_phys) {
        b.after_install(va, new_phys, old_phys, c.caller_rip, c.cr3, c.cpu, c.tick)
    } else if takes_away(kind, new_phys) {
        b.after_unmap(va)
    } else {
        b
    }
}

impl PteRingView {
    pub open spec fn wf(self) -> bool {
        self.slots.len() == PTE_RING_SIZE
    }

    /// After the change.
    pub open spec fn after_change(
        self,
        va: u64,
        new_phys: u64,
        old_phys: u64,
        kind: u8,
        c: Changer,
    ) -> PteRingView {
        let was = self.slots[pte_slot(va)].va;
        if !noted(va) {
            self
        } else {
            PteRingView {
                slots: self.slots.update(
                    pte_slot(va),
                    PteChange {
                        va: page(va),
                        tick: c.tick,
                        new_phys: page(new_phys),
                        old_phys: page(old_phys),
                        rip_low32: (c.caller_rip % 0x1_0000_0000) as u32,
                        cr3_low16: (c.cr3 / 4096 % 0x1_0000) as u16,
                        cpu: c.cpu,
                        kind,
                        tid: c.tid,
                    },
                ),
                recorded: self.recorded.wrapping_add(1),
                displaced: if was != 0 && was != page(va) {
                    self.displaced.wrapping_add(1)
                } else {
                    self.displaced
                },
            }
        }
    }
}

impl PteRing {
    /// Nothing has changed yet.
    pub fn new() -> (r: PteRing)
        ensures
            r@.wf(),
            r@ == (PteRingView {
                slots: Seq::new(PTE_RING_SIZE as nat, |i: int| no_change()),
                recorded: 0,
                displaced: 0,
            }),
    {
        let mut slots: Vec<PteChange> = Vec::new();
        let mut i: u64 = 0;
        while i < PTE_RING_SIZE
            invariant
                i <= PTE_RING_SIZE,
                slots@ == Seq::new(i as nat, |j: int| no_change()),
            decreases PTE_RING_SIZE - i,
        {
            slots.push(
                PteChange {
                    va: 0,
                    tick: 0,
                    new_phys: 0,
                    old_phys: 0,
                    rip_low32: 0,
                    cr3_low16: 0,
                    cpu: 0,
                    kind: 0,
                    tid: 0,
                },
            );
            i = i + 1;
        }
        PteRing { slots, recorded: 0, displaced: 0 }
    }
}

/// Notes that an entry was changed, also in the tables of the band.  A page that has two
/// frames now is reported.
pub fn pte_change_record(
    r: &mut PteRing,
    b: &mut Band,
    va: u64,
    new_phys: u64,
    old_phys: u64,
    kind: u8,
    c: Changer,
) -> (found: Option<DoubleInstall>)
    requires
        old(r)@.wf(),
        old(b)@.wf(),
    ensures
        final(r)@.wf(),
        final(b)@.wf(),
        final(r)@ == old(r)@.after_change(va, new_phys, old_phys, kind, c),
        final(b)@ == band_after(old(b)@, va, new_phys, old_phys, kind, c),
        found == (if maps_frame(kind, new_phys) {
            old(b)@.found_double(va, new_phys, old_phys, c.cr3, c.tick)
        } else {
            None
        }),
{
    let mut found: Option<DoubleInstall> = None;
    if in_band(va) {
        if kind == PTE_KIND_MAP || kind == PTE_KIND_WRITE || kind == PTE_KIND_FORK_CLONE {
            if new_phys - new_phys % 4096 == 0 {
                band_unmap_record(b, va);
            } else {
                found = band_install_record(
                    b,
                    va,
                    new_phys,
                    old_phys,
                    c.caller_rip,
                    c.cr3,
                    c.cpu,
                    c.tick,
                );
            }
        } else if kind == PTE_KIND_UNMAP || kind == PTE_KIND_BULK_UNMAP {
            band_unmap_record(b, va);
        }
    }
    if va < USER_STACK_RING_LO || va >= USER_STACK_RING_HI {
        return found;
    }
    let _len: usize = r.slots.len();
    let at: usize = (va / 4096 % PTE_RING_SIZE) as usize;
    let va_page: u64 = va - va % 4096;
    let was: u64 = r.slots[at].va;
    if was != 0 && was != va_page {
        r.displaced = r.displaced.wrapping_add(1);
    }
    r.slots.set(
        at,
        PteChange {
            va: va_page,
            tick: c.tick,
            new_phys: new_phys - new_phys % 4096,
            old_phys: old_phys - old_phys % 4096,
            rip_low32: (c.caller_rip % 0x1_0000_0000) as u32,
            cr3_low16: (c.cr3 / 4096 % 0x1_0000) as u16,
            cpu: c.cpu,
            kind,
            tid: c.tid,
        },
    );
    r.recorded = r.recorded.wrapping_add(1);
    found
}

/// Name of a kind of change.
pub open spec fn pte_kind_name(k: u8) -> Seq<char> {
    if k == 1 {
        "MAP"@
    } else if k == 2 {
        "UNMAP"@
    } else if k == 3 {
        "WRITE"@
    } else if k == 4 {
        "BULK_UNMAP"@
    } else if k == 5 {
        "FORK_CLONE"@
    } else {
        "?"@
    }
}

/// Name of a kind of change.
pub fn pte_kind_str(k: u8) -> (r: &'static str)
    ensures
        r@ == pte_kind_name(k),
{
    match k {
        1 => "MAP",
        2 => "UNMAP",
        3 => "WRITE",
        4 => "BULK_UNMAP",
        5 => "FORK_CLONE",
        _ => "?",
    }
}

/// What is known of the last change of an entry.
#[derive(Clone, Copy, PartialEq, Eq, Structural, Debug)]
pub enum PteDump {
    /// Changes at the address are not noted.
    OutOfWindow,
    /// The slot holds another page, or none.
    Miss { stored_va: u64 },
    Hit { change: PteChange, age_ticks: u64 },
}

/// The last change of the entry for `va`, and the frame that was mapped before it; zero
/// where it is not known.
pub fn dump_pte_change_for_va(r: &PteRing, va: u64, now: u64) -> (d: (u64, PteDump))
    requires
        r@.wf(),
    ensures
        ({
            let e = r@.slots[pte_slot(va)];
            if !noted(va) {
                d == (0u64, PteDump::OutOfWindow)
            } else if e.va != page(va) {
                d == (0u64, PteDump::Miss { stored_va: e.va })
            } else {
                d == (
                    e.old_phys,
                    PteDump::Hit { change: e, age_ticks: now.saturating_sub(e.tick) },
                )
            }
        }),
{
    if va < USER_STACK_RING_LO || va >= USER_STACK_RING_HI {
        return (0, PteDump::OutOfWindow);
    }
    let _len: usize = r.slots.len();
    let e: PteChange = r.slots[(va / 4096 % PTE_RING_SIZE) as usize];
    if e.va != va - va % 4096 {
        return (0, PteDump::Miss { stored_va: e.va });
    }
    (e.old_phys, PteDump::Hit { change: e, age_ticks: now.saturating_sub(e.tick) })
}

/// Changes that were noted.
pub fn pte_change_recorded_count(r: &PteRing) -> (n: u64)
    ensures
        n == r@.recorded,
{
    r.recorded
}

/// Changes that took the slot of another page.
pub fn pte_change_displaced_count(r: &PteRing) -> (n: u64)
    ensures
        n == r@.displaced,
{
    r.displaced
}

/// A page whose entry is cleared and filled again is not taken for one with two frames.
pub proof fn law_clearing_and_refilling_is_clean(
    b: BandView,
    va: u64,
    old_phys: u64,
    kind: u8,
    c: Changer,
    new_phys: u64,
)
    requires
        b.wf(),
        banded(va),
        takes_away(kind, 0),
    ensures
        !band_after(b, va, 0, old_phys, kind, c).doubles(va, new_phys, 0, c.cr3),
{
}

} // verus!
