//! Pages of the anonymous heap that have two frames, and frames that are freed while
//! they are mapped there.
//!
//! Two tables hold what is mapped in one band of the user address space: by address, and
//! by frame.  An address space must not have two frames at one address, and a frame must
//! not be freed while an address leads to it.
use vstd::prelude::*;

verus! {

/// Start of the band.
pub const BAND_LO: u64 = 0x0000_7eff_0000_0000;

/// End of the band.
pub const BAND_HI: u64 = 0x0000_7f00_0000_0000;

/// Slots of each table.
pub const BAND_MAP_SIZE: u64 = 32_768;

/// The first so many finds are all reported; of the later ones, each whose number this
/// divides.
pub const REPORT_EVERY: u64 = 64;

/// Whether what a slot says still holds.
#[derive(Clone, Copy, PartialEq, Eq, Structural, Debug)]
pub enum BandState {
    Empty,
    Installed,
    Cleared,
}

/// What was mapped at an address.
#[derive(Clone, Copy, PartialEq, Eq, Structural, Debug)]
pub struct BandVaEntry {
    /// The page; zero marks a slot that was never used.
    pub va: u64,
    pub phys: u64,
    pub install_rip: u64,
    pub tick: u64,
    /// Frame number of the root, in 48 bits.
    pub cr3_pfn: u64,
    pub cpu: u8,
    pub state: BandState,
}

/// Where a frame was mapped.
#[derive(Clone, Copy, PartialEq, Eq, Structural, Debug)]
pub struct BandPhysEntry {
    /// The frame; zero marks a slot that was never used.
    pub phys: u64,
    pub va: u64,
    pub install_rip: u64,
    pub tick: u64,
    pub cpu: u8,
    pub state: BandState,
}

/// The two tables.
pub struct Band {
    pub by_va: Vec<BandVaEntry>,
    pub by_phys: Vec<BandPhysEntry>,
    pub double_installs: u64,
    pub stale_tlbs: u64,
    pub installs: u64,
    pub unmaps: u64,
    pub va_displaced: u64,
    pub phys_displaced: u64,
}

/// What the tables hold.
#[verifier::ext_equal]
pub struct BandView {
    pub by_va: Seq<BandVaEntry>,
    pub by_phys: Seq<BandPhysEntry>,
    pub double_installs: u64,
    pub stale_tlbs: u64,
    pub installs: u64,
    pub unmaps: u64,
    pub va_displaced: u64,
    pub phys_displaced: u64,
}

impl View for Band {
    type V = BandView;

    open spec fn view(&self) -> BandView {
        BandView {
            by_va: self.by_va@,
            by_phys: self.by_phys@,
            double_installs: self.double_installs,
            stale_tlbs: self.stale_tlbs,
            installs: self.installs,
            unmaps: self.unmaps,
            va_displaced: self.va_displaced,
            phys_displaced: self.phys_displaced,
        }
    }
}

/// The address lies in the band.
pub open spec fn banded(va: u64) -> bool {
    BAND_LO <= va < BAND_HI
}

/// Start of the page of an address.
pub open spec fn page(a: u64) -> u64 {
    (a - a % 4096) as u64
}

/// Slot of a page or a frame.
pub open spec fn band_slot(a: u64) -> int {
    (a / 4096 % BAND_MAP_SIZE) as int
}

/// Find number `n` is reported.
pub open spec fn reported(n: u64) -> bool {
    n <= REPORT_EVERY || n % REPORT_EVERY == 0
}

/// One page with two frames.
#[derive(Clone, Copy, PartialEq, Eq, Structural, Debug)]
pub struct DoubleInstall {
    pub n: u64,
    pub va: u64,
    pub before: BandVaEntry,
    pub new_phys: u64,
    pub old_phys: u64,
    pub age_ticks: u64,
    pub report: bool,
}

/// A frame that was freed while it was mapped.
#[derive(Clone, Copy, PartialEq, Eq, Structural, Debug)]
pub struct StaleTlb {
    pub n: u64,
    pub mapped: BandPhysEntry,
    pub age_ticks: u64,
    pub report: bool,
}

impl BandView {
    pub open spec fn wf(self) -> bool {
        self.by_va.len() == BAND_MAP_SIZE && self.by_phys.len() == BAND_MAP_SIZE
    }

    /// Mapping the frame of `new_phys` gives the page a second frame: another one is
    /// mapped there in the same address space, and it is not the one that is replaced.
    pub open spec fn doubles(self, va: u64, new_phys: u64, old_phys: u64, cr3: u64) -> bool {
        let e = self.by_va[band_slot(page(va))];
        &&& e.va == page(va)
        &&& e.phys != 0
        &&& e.phys != page(new_phys)
        &&& e.state == BandState::Installed
        &&& e.cr3_pfn == cr3 / 4096
        &&& page(old_phys) != e.phys
    }

    /// What is found when a frame is put under an address.
    pub open spec fn found_double(
        self,
        va: u64,
        new_phys: u64,
        old_phys: u64,
        cr3: u64,
        tick: u64,
    ) -> Option<DoubleInstall> {
        if new_phys != 0 && banded(va) && self.doubles(va, new_phys, old_phys, cr3) {
            let e = self.by_va[band_slot(page(va))];
            let n = self.double_installs.wrapping_add(1);
            Some(
                DoubleInstall {
                    n,
                    va: page(va),
                    before: e,
                    new_phys: page(new_phys),
                    old_phys: page(old_phys),
                    age_ticks: tick.saturating_sub(e.tick),
                    report: reported(n),
                },
            )
        } else {
            None
        }
    }

    /// After the frame of `new_phys` was mapped.
    pub open spec fn after_install(
        self,
        va: u64,
        new_phys: u64,
        old_phys: u64,
        install_rip: u64,
        cr3: u64,
        cpu: u8,
        tick: u64,
    ) -> BandView {
        let was_va = self.by_va[band_slot(page(va))].va;
        let was_phys = self.by_phys[band_slot(page(new_phys))].phys;
        if new_phys == 0 || !banded(va) {
            self
        } else {
            BandView {
                by_va: self.by_va.update(
                    band_slot(page(va)),
                    BandVaEntry {
                        va: page(va),
                        phys: page(new_phys),
                        install_rip,
                        tick,
                        cr3_pfn: cr3 / 4096 % 0x1_0000_0000_0000,
                        cpu,
                        state: BandState::Installed,
                    },
                ),
                by_phys: self.by_phys.update(
                    band_slot(page(new_phys)),
                    BandPhysEntry {
                        phys: page(new_phys),
                        va: page(va),
                        install_rip,
                        tick,
                        cpu,
                        state: BandState::Installed,
                    },
                ),
                double_installs: if self.doubles(va, new_phys, old_phys, cr3) {
                    self.double_installs.wrapping_add(1)
                } else {
                    self.double_installs
                },
                installs: self.installs.wrapping_add(1),
                va_displaced: if was_va != 0 && was_va != page(va) {
                    self.va_displaced.wrapping_add(1)
                } else {
                    self.va_displaced
                },
                phys_displaced: if was_phys != 0 && was_phys != page(new_phys) {
                    self.phys_displaced.wrapping_add(1)
                } else {
                    self.phys_displaced
                },
                ..self
            }
        }
    }

    /// After the page was unmapped.
    pub open spec fn after_unmap(self, va: u64) -> BandView {
        let i = band_slot(page(va));
        let e = self.by_va[i];
        let k = band_slot(e.phys);
        let f = self.by_phys[k];
        if !banded(va) {
            self
        } else {
            let counted = BandView { unmaps: self.unmaps.wrapping_add(1), ..self };
            if e.va != page(va) {
                counted
            } else {
                BandView {
                    by_va: self.by_va.update(i, BandVaEntry { state: BandState::Cleared, ..e }),
                    by_phys: if e.phys != 0 && f.phys == e.phys && f.va == page(va) {
                        self.by_phys.update(k, BandPhysEntry { state: BandState::Cleared, ..f })
                    } else {
                        self.by_phys
                    },
                    ..counted
                }
            }
        }
    }

    /// The frame is mapped in the band.
    pub open spec fn mapped(self, phys: u64) -> bool {
        let f = self.by_phys[band_slot(page(phys))];
        let e = self.by_va[band_slot(f.va)];
        &&& page(phys) != 0
        &&& f.phys == page(phys)
        &&& f.state == BandState::Installed
        &&& e.va == f.va
        &&& e.phys == page(phys)
        &&& e.state == BandState::Installed
    }

    /// After the frame was freed.
    pub open spec fn after_free(self, phys: u64) -> BandView {
        let k = band_slot(page(phys));
        if !self.mapped(phys) {
            self
        } else {
            BandView {
                by_phys: self.by_phys.update(
                    k,
                    BandPhysEntry { state: BandState::Cleared, ..self.by_phys[k] },
                ),
                stale_tlbs: self.stale_tlbs.wrapping_add(1),
                ..self
            }
        }
    }
}

impl Band {
    /// Nothing is mapped.
    pub fn new() -> (r: Band)
        ensures
            r@.wf(),
            r@ == (BandView {
                by_va: Seq::new(
                    BAND_MAP_SIZE as nat,
                    |i: int|
                        BandVaEntry {
                            va: 0,
                            phys: 0,
                            install_rip: 0,
                            tick: 0,
                            cr3_pfn: 0,
                            cpu: 0,
                            state: BandState::Empty,
                        },
                ),
                by_phys: Seq::new(
                    BAND_MAP_SIZE as nat,
                    |i: int|
                        BandPhysEntry {
                            phys: 0,
                            va: 0,
                            install_rip: 0,
                            tick: 0,
                            cpu: 0,
                            state: BandState::Empty,
                        },
                ),
                double_installs: 0,
                stale_tlbs: 0,
                installs: 0,
                unmaps: 0,
                va_displaced: 0,
                phys_displaced: 0,
            }),
    {
        let mut by_va: Vec<BandVaEntry> = Vec::new();
        let mut by_phys: Vec<BandPhysEntry> = Vec::new();
        let ghost v = BandVaEntry {
            va: 0,
            phys: 0,
            install_rip: 0,
            tick: 0,
            cr3_pfn: 0,
            cpu: 0,
            state: BandState::Empty,
        };
        let ghost f = BandPhysEntry {
            phys: 0,
            va: 0,
            install_rip: 0,
            tick: 0,
            cpu: 0,
            state: BandState::Empty,
        };
        let mut i: u64 = 0;
        while i < BAND_MAP_SIZE
            invariant
                i <= BAND_MAP_SIZE,
                v == (BandVaEntry {
                    va: 0,
                    phys: 0,
                    install_rip: 0,
                    tick: 0,
                    cr3_pfn: 0,
                    cpu: 0,
                    state: BandState::Empty,
                }),
                f == (BandPhysEntry {
                    phys: 0,
                    va: 0,
                    install_rip: 0,
                    tick: 0,
                    cpu: 0,
                    state: BandState::Empty,
                }),
                by_va@ == Seq::new(i as nat, |j: int| v),
                by_phys@ == Seq::new(i as nat, |j: int| f),
            decreases BAND_MAP_SIZE - i,
        {
            by_va.push(
                BandVaEntry {
                    va: 0,
                    phys: 0,
                    install_rip: 0,
                    tick: 0,
                    cr3_pfn: 0,
                    cpu: 0,
                    state: BandState::Empty,
                },
            );
            by_phys.push(
                BandPhysEntry {
                    phys: 0,
                    va: 0,
                    install_rip: 0,
                    tick: 0,
                    cpu: 0,
                    state: BandState::Empty,
                },
            );
            i = i + 1;
        }
        Band {
            by_va,
            by_phys,
            double_installs: 0,
            stale_tlbs: 0,
            installs: 0,
            unmaps: 0,
            va_displaced: 0,
            phys_displaced: 0,
        }
    }
}

/// Whether the address lies in the band.
pub fn in_band(va: u64) -> (r: bool)
    ensures
        r == banded(va),
{
    va >= BAND_LO && va < BAND_HI
}

/// Notes that the frame of `new_phys` was mapped at `va`, in place of that of `old_phys`;
/// zero stands for none.  A page that has two frames now is counted.
pub fn band_install_record(
    b: &mut Band,
    va: u64,
    new_phys: u64,
    old_phys: u64,
    install_rip: u64,
    cr3: u64,
    cpu: u8,
    tick: u64,
) -> (r: Option<DoubleInstall>)
    requires
        old(b)@.wf(),
    ensures
        final(b)@.wf(),
        final(b)@ == old(b)@.after_install(va, new_phys, old_phys, install_rip, cr3, cpu, tick),
        r == old(b)@.found_double(va, new_phys, old_phys, cr3, tick),
{
    if new_phys == 0 || !in_band(va) {
        return None;
    }
    let va_page: u64 = va - va % 4096;
    let new_frame: u64 = new_phys - new_phys % 4096;
    let old_frame: u64 = old_phys - old_phys % 4096;
    b.installs = b.installs.wrapping_add(1);
    let _vlen: usize = b.by_va.len();
    let _plen: usize = b.by_phys.len();
    let i: usize = (va_page / 4096 % BAND_MAP_SIZE) as usize;
    let k: usize = (new_frame / 4096 % BAND_MAP_SIZE) as usize;
    let before: BandVaEntry = b.by_va[i];
    let mut found: Option<DoubleInstall> = None;
    if before.va != 0 && before.va != va_page {
        b.va_displaced = b.va_displaced.wrapping_add(1);
    } else if before.va == va_page {
        if before.phys != 0 && before.phys != new_frame && before.state == BandState::Installed
            && before.cr3_pfn == cr3 / 4096 && old_frame != before.phys {
            let n: u64 = b.double_installs.wrapping_add(1);
            b.double_installs = n;
            found = Some(
                DoubleInstall {
                    n,
                    va: va_page,
                    before,
                    new_phys: new_frame,
                    old_phys: old_frame,
                    age_ticks: tick.saturating_sub(before.tick),
                    report: n <= REPORT_EVERY || n % REPORT_EVERY == 0,
                },
            );
        }
    }
    b.by_va.set(
        i,
        BandVaEntry {
            va: va_page,
            phys: new_frame,
            install_rip,
            tick,
            cr3_pfn: cr3 / 4096 % 0x1_0000_0000_0000,
            cpu,
            state: BandState::Installed,
        },
    );
    let was: u64 = b.by_phys[k].phys;
    if was != 0 && was != new_frame {
        b.phys_displaced = b.phys_displaced.wrapping_add(1);
    }
    b.by_phys.set(
        k,
        BandPhysEntry {
            phys: new_frame,
            va: va_page,
            install_rip,
            tick,
            cpu,
            state: BandState::Installed,
        },
    );
    found
}

/// Notes that the page of `va` was unmapped.
pub fn band_unmap_record(b: &mut Band, va: u64)
    requires
        old(b)@.wf(),
    ensures
        final(b)@.wf(),
        final(b)@ == old(b)@.after_unmap(va),
{
    if !in_band(va) {
        return;
    }
    let va_page: u64 = va - va % 4096;
    b.unmaps = b.unmaps.wrapping_add(1);
    let _vlen: usize = b.by_va.len();
    let _plen: usize = b.by_phys.len();
    let i: usize = (va_page / 4096 % BAND_MAP_SIZE) as usize;
    let e: BandVaEntry = b.by_va[i];
    if e.va == va_page {
        b.by_va.set(
            i,
            BandVaEntry {
                va: e.va,
                phys: e.phys,
                install_rip: e.install_rip,
                tick: e.tick,
                cr3_pfn: e.cr3_pfn,
                cpu: e.cpu,
                state: BandState::Cleared,
            },
        );
        if e.phys != 0 {
            let k: usize = (e.phys / 4096 % BAND_MAP_SIZE) as usize;
            let f: BandPhysEntry = b.by_phys[k];
            if f.phys == e.phys && f.va == va_page {
                b.by_phys.set(
                    k,
                    BandPhysEntry {
                        phys: f.phys,
                        va: f.va,
                        install_rip: f.install_rip,
                        tick: f.tick,
                        cpu: f.cpu,
                        state: BandState::Cleared,
                    },
                );
            }
        }
    }
}

/// The frame is about to be freed: where it is still mapped in the band, that is counted.
pub fn band_check_free(b: &mut Band, phys: u64, now: u64) -> (r: Option<StaleTlb>)
    requires
        old(b)@.wf(),
    ensures
        final(b)@.wf(),
        final(b)@ == old(b)@.after_free(phys),
        r == (if old(b)@.mapped(phys) {
            let f = old(b)@.by_phys[band_slot(page(phys))];
            let n = old(b)@.stale_tlbs.wrapping_add(1);
            Some(
                StaleTlb {
                    n,
                    mapped: f,
                    age_ticks: now.saturating_sub(f.tick),
                    report: reported(n),
                },
            )
        } else {
            None
        }),
{
    let frame: u64 = phys - phys % 4096;
    if frame == 0 {
        return None;
    }
    let _vlen: usize = b.by_va.len();
    let _plen: usize = b.by_phys.len();
    let k: usize = (frame / 4096 % BAND_MAP_SIZE) as usize;
    let f: BandPhysEntry = b.by_phys[k];
    if f.phys != frame || f.state != BandState::Installed {
        return None;
    }
    let e: BandVaEntry = b.by_va[(f.va / 4096 % BAND_MAP_SIZE) as usize];
    if e.va != f.va || e.phys != frame || e.state != BandState::Installed {
        return None;
    }
    let n: u64 = b.stale_tlbs.wrapping_add(1);
    b.stale_tlbs = n;
    b.by_phys.set(
        k,
        BandPhysEntry {
            phys: f.phys,
            va: f.va,
            install_rip: f.install_rip,
            tick: f.tick,
            cpu: f.cpu,
            state: BandState::Cleared,
        },
    );
    Some(
        StaleTlb {
            n,
            mapped: f,
            age_ticks: now.saturating_sub(f.tick),
            report: n <= REPORT_EVERY || n % REPORT_EVERY == 0,
        },
    )
}

/// The counters with their names.
pub fn band_counts(b: &Band) -> (r: Vec<(&'static str, u64)>)
    ensures
        r@ == seq![
            ("double_install", b@.double_installs),
            ("stale_tlb", b@.stale_tlbs),
            ("installs", b@.installs),
            ("unmaps", b@.unmaps),
            ("va_displaced", b@.va_displaced),
            ("phys_displaced", b@.phys_displaced),
        ],
{
    let mut r: Vec<(&'static str, u64)> = Vec::new();
    r.push(("double_install", b.double_installs));
    r.push(("stale_tlb", b.stale_tlbs));
    r.push(("installs", b.installs));
    r.push(("unmaps", b.unmaps));
    r.push(("va_displaced", b.va_displaced));
    r.push(("phys_displaced", b.phys_displaced));
    r
}

/// Pages that were found to have two frames.
pub fn band_double_install_count(b: &Band) -> (n: u64)
    ensures
        n == b@.double_installs,
{
    b.double_installs
}

/// Frames that were freed while they were mapped.
pub fn band_stale_tlb_count(b: &Band) -> (n: u64)
    ensures
        n == b@.stale_tlbs,
{
    b.stale_tlbs
}

/// A page that gets a second frame in one address space is found, unless the first one is
/// what the second replaces; so is none in another address space, nor after the page was
/// unmapped.
pub proof fn law_second_frame_is_found(
    b: BandView,
    va: u64,
    first: u64,
    second: u64,
    old_phys: u64,
    rip: u64,
    cr3: u64,
    other_cr3: u64,
    cpu: u8,
    tick: u64,
)
    requires
        b.wf(),
        banded(va),
        page(first) != 0,
        page(second) != 0,
        page(first) != page(second),
        cr3 < 0x1000_0000_0000_0000,
    ensures
        ({
            let one = b.after_install(va, first, 0, rip, cr3, cpu, tick);
            &&& one.doubles(va, second, old_phys, cr3) <==> page(old_phys) != page(first)
            &&& one.doubles(va, second, old_phys, other_cr3) ==> other_cr3 / 4096 == cr3 / 4096
            &&& !one.after_unmap(va).doubles(va, second, old_phys, cr3)
            &&& !one.doubles(va, first, old_phys, cr3)
        }),
{
}

/// A frame that is freed while it is mapped is found, once; a frame that was unmapped
/// before is not.
pub proof fn law_free_under_mapping_is_found(
    b: BandView,
    va: u64,
    phys: u64,
    old_phys: u64,
    rip: u64,
    cr3: u64,
    cpu: u8,
    tick: u64,
)
    requires
        b.wf(),
        banded(va),
        page(phys) != 0,
    ensures
        ({
            let one = b.after_install(va, phys, old_phys, rip, cr3, cpu, tick);
            &&& one.mapped(phys)
            &&& !one.after_free(phys).mapped(phys)
            &&& !one.after_unmap(va).mapped(phys)
        }),
{
}

} // verus!
