//! What cached frames held when they were found right, and who wrote to them since.
//!
//! The table covers one band of physical memory, with a slot for each frame of it: no
//! frame can take the slot of another.
use vstd::prelude::*;
use crate::mm::physmem::{byte_at, PhysMem};

verus! {

/// Slots of the table.
pub const CACHE_PROV_SIZE: u64 = 262_144;

/// Start of the band.
pub const CACHE_BAND_LO: u64 = 0x1000_0000;

/// End of the band.
pub const CACHE_BAND_HI: u64 = 0x5000_0000;

/// Bytes of a page that go into its fingerprint.
pub const FINGERPRINT_BYTES: u64 = 256;

/// Start of a fingerprint.
pub const FNV_OFFSET: u64 = 0xcbf2_9ce4_8422_2325;

/// Factor of a fingerprint.
pub const FNV_PRIME: u64 = 0x0000_0100_0000_01b3;

/// The first so many finds are all reported; of the later ones, each whose number this
/// divides.
pub const REPORT_EVERY: u64 = 64;

/// Whether the cache has the frame.
#[derive(Clone, Copy, PartialEq, Eq, Structural, Debug)]
pub enum SlotState {
    Empty,
    Installed,
    /// The cache gave it up.
    Reclaimed,
}

/// What is known of a frame.
#[derive(Clone, Copy, PartialEq, Eq, Structural, Debug)]
pub struct CacheProvEntry {
    /// The frame; zero marks an empty slot.
    pub phys: u64,
    /// The page of a file that it holds.
    pub key: u64,
    pub fp: u64,
    /// Who wrote to it last, zero where nobody did.
    pub last_write_rip: u64,
    pub tick: u64,
    pub state: SlotState,
    pub install_cpu: u8,
    pub last_write_cpu: u8,
    /// Times that the cache gave it up.
    pub generation: u8,
}

/// The table, and what was counted.
pub struct CacheProv {
    /// The slots, once they were set up.
    pub slots: Option<Vec<CacheProvEntry>>,
    pub clobbers: u64,
    pub refdec_reuses: u64,
    pub validated: u64,
    pub writes: u64,
    pub reclaims: u64,
    pub displaced: u64,
    pub fp_matches: u64,
    pub out_of_band: u64,
}

/// What is known of cached frames.
#[verifier::ext_equal]
pub struct CacheProvView {
    pub slots: Option<Seq<CacheProvEntry>>,
    pub clobbers: u64,
    pub refdec_reuses: u64,
    pub validated: u64,
    pub writes: u64,
    pub reclaims: u64,
    pub displaced: u64,
    pub fp_matches: u64,
    pub out_of_band: u64,
}

impl View for CacheProv {
    type V = CacheProvView;

    open spec fn view(&self) -> CacheProvView {
        CacheProvView {
            slots: match self.slots {
                Some(s) => Some(s@),
                None => None,
            },
            clobbers: self.clobbers,
            refdec_reuses: self.refdec_reuses,
            validated: self.validated,
            writes: self.writes,
            reclaims: self.reclaims,
            displaced: self.displaced,
            fp_matches: self.fp_matches,
            out_of_band: self.out_of_band,
        }
    }
}

/// Start of the frame of an address.
pub open spec fn frame(phys: u64) -> u64 {
    (phys - phys % 4096) as u64
}

/// The frame lies in the band.
pub open spec fn covered(phys: u64) -> bool {
    CACHE_BAND_LO <= frame(phys) < CACHE_BAND_HI
}

/// Slot of a frame of the band.
pub open spec fn prov_slot(phys: u64) -> int {
    (frame(phys) - CACHE_BAND_LO) / 4096
}

/// Names a page of a file in 64 bits.
pub open spec fn prov_key(mount: usize, inode: u64, file_offset: u64) -> u64 {
    (mount as u64 % 0x100 * 0x100_0000_0000_0000 + inode % 0x100_0000 * 0x1_0000_0000 + file_offset
        / 4096 % 0x1_0000_0000) as u64
}

/// The fingerprint after the first `n` bytes of the page.
pub open spec fn fnv(mem: Seq<u64>, phys: u64, n: int) -> u64
    decreases n,
{
    if n <= 0 {
        FNV_OFFSET
    } else {
        (fnv(mem, phys, n - 1) ^ (byte_at(mem, frame(phys) + n - 1) as u64)).wrapping_mul(FNV_PRIME)
    }
}

/// The fingerprint of a page.
pub open spec fn fingerprint(mem: Seq<u64>, phys: u64) -> u64 {
    fnv(mem, phys, FINGERPRINT_BYTES as int)
}

/// An empty slot.
pub open spec fn no_entry() -> CacheProvEntry {
    CacheProvEntry {
        phys: 0,
        key: 0,
        fp: 0,
        last_write_rip: 0,
        tick: 0,
        state: SlotState::Empty,
        install_cpu: 0,
        last_write_cpu: 0,
        generation: 0,
    }
}

/// Slots among the first `n` that hold a frame, one of the cache's only where `installed`
/// says so.
pub open spec fn held(s: Seq<CacheProvEntry>, n: int, installed: bool) -> int
    decreases n,
{
    if n <= 0 {
        0
    } else {
        held(s, n - 1, installed) + (if s[n - 1].phys != 0 && (!installed || s[n - 1].state
            == SlotState::Installed) {
            1int
        } else {
            0
        })
    }
}

/// Find number `n` is reported.
pub open spec fn reported(n: u64) -> bool {
    n <= REPORT_EVERY || n % REPORT_EVERY == 0
}

impl CacheProvView {
    /// Each slot is empty or holds its own frame.
    pub open spec fn wf(self) -> bool {
        self.slots matches Some(s) ==> s.len() == CACHE_PROV_SIZE && forall|i: int|
            0 <= i < CACHE_PROV_SIZE ==> (#[trigger] s[i]).phys == 0 || s[i].phys == CACHE_BAND_LO
                + i * 4096
    }

    /// There is a slot for the frame.
    pub open spec fn has_slot(self, phys: u64) -> bool {
        self.slots is Some && covered(phys)
    }

    /// The frame is on record.
    pub open spec fn knows(self, phys: u64) -> bool {
        self.has_slot(phys) && self.slots->0[prov_slot(phys)].phys == frame(phys)
    }

    /// What is on record of the frame.
    pub open spec fn entry(self, phys: u64) -> CacheProvEntry {
        self.slots->0[prov_slot(phys)]
    }

    pub open spec fn with_entry(self, phys: u64, e: CacheProvEntry) -> CacheProvView {
        CacheProvView { slots: Some(self.slots->0.update(prov_slot(phys), e)), ..self }
    }

    /// After the frame entered the cache.
    pub open spec fn after_install(
        self,
        mem: Seq<u64>,
        phys: u64,
        key: u64,
        cpu: u8,
        tick: u64,
    ) -> CacheProvView {
        if frame(phys) == 0 {
            self
        } else if !self.has_slot(phys) {
            CacheProvView { out_of_band: self.out_of_band.wrapping_add(1), ..self }
        } else {
            CacheProvView {
                validated: self.validated.wrapping_add(1),
                ..self.with_entry(
                    phys,
                    CacheProvEntry {
                        phys: frame(phys),
                        key,
                        fp: fingerprint(mem, phys),
                        last_write_rip: 0,
                        tick,
                        state: SlotState::Installed,
                        install_cpu: cpu,
                        last_write_cpu: 0,
                        generation: if self.knows(phys) {
                            self.entry(phys).generation
                        } else {
                            0
                        },
                    },
                )
            }
        }
    }

    /// After the cache gave the frame up.
    pub open spec fn after_reclaim(self, phys: u64) -> CacheProvView {
        let e = self.entry(phys);
        if frame(phys) == 0 || !self.knows(phys) || e.state != SlotState::Installed {
            self
        } else {
            CacheProvView {
                reclaims: self.reclaims.wrapping_add(1),
                ..self.with_entry(
                    phys,
                    CacheProvEntry {
                        state: SlotState::Reclaimed,
                        last_write_cpu: 0,
                        generation: e.generation.saturating_add(1),
                        ..e
                    },
                )
            }
        }
    }

    /// The write lands on a frame that the cache gave up.
    pub open spec fn reuses(self, phys: u64) -> bool {
        frame(phys) != 0 && self.knows(phys) && self.entry(phys).state == SlotState::Reclaimed
    }

    /// After a write to the frame through the cache.
    pub open spec fn after_write(self, mem: Seq<u64>, phys: u64, writer_rip: u64, cpu: u8) -> CacheProvView {
        let counted = CacheProvView { writes: self.writes.wrapping_add(1), ..self };
        if frame(phys) == 0 {
            self
        } else if !self.has_slot(phys) {
            CacheProvView { out_of_band: self.out_of_band.wrapping_add(1), ..self }
        } else if !self.knows(phys) {
            self
        } else if self.reuses(phys) {
            CacheProvView { refdec_reuses: self.refdec_reuses.wrapping_add(1), ..counted }
        } else {
            counted.with_entry(
                phys,
                CacheProvEntry {
                    last_write_rip: writer_rip,
                    last_write_cpu: cpu,
                    fp: fingerprint(mem, phys),
                    ..self.entry(phys)
                },
            )
        }
    }
}

impl CacheProv {
    /// The table before it is set up.
    pub fn new() -> (r: CacheProv)
        ensures
            r@.wf(),
            r@ == (CacheProvView {
                slots: None,
                clobbers: 0,
                refdec_reuses: 0,
                validated: 0,
                writes: 0,
                reclaims: 0,
                displaced: 0,
                fp_matches: 0,
                out_of_band: 0,
            }),
    {
        CacheProv {
            slots: None,
            clobbers: 0,
            refdec_reuses: 0,
            validated: 0,
            writes: 0,
            reclaims: 0,
            displaced: 0,
            fp_matches: 0,
            out_of_band: 0,
        }
    }

    /// The slot of a frame, where there is one.
    fn slot_of(&self, phys: u64) -> (r: Option<usize>)
        requires
            self@.wf(),
        ensures
            r is Some <==> self@.has_slot(phys),
            r matches Some(i) ==> i == prov_slot(phys) && i < CACHE_PROV_SIZE,
    {
        let p: u64 = phys - phys % 4096;
        if p < CACHE_BAND_LO || p >= CACHE_BAND_HI || self.slots.is_none() {
            return None;
        }
        Some(((p - CACHE_BAND_LO) / 4096) as usize)
    }

    fn get(&self, i: usize) -> (e: CacheProvEntry)
        requires
            self@.wf(),
            self@.slots is Some,
            i < CACHE_PROV_SIZE,
        ensures
            e == self@.slots->0[i as int],
    {
        match &self.slots {
            Some(s) => s[i],
            None => CacheProvEntry {
                phys: 0,
                key: 0,
                fp: 0,
                last_write_rip: 0,
                tick: 0,
                state: SlotState::Empty,
                install_cpu: 0,
                last_write_cpu: 0,
                generation: 0,
            },
        }
    }

    fn put(&mut self, i: usize, e: CacheProvEntry)
        requires
            old(self)@.wf(),
            old(self)@.slots is Some,
            i < CACHE_PROV_SIZE,
            e.phys == 0 || e.phys == CACHE_BAND_LO + i * 4096,
        ensures
            final(self)@.wf(),
            final(self)@ == (CacheProvView {
                slots: Some(old(self)@.slots->0.update(i as int, e)),
                ..old(self)@
            }),
    {
        if let Some(s) = self.slots.as_mut() {
            s.set(i, e);
        }
    }
}

/// Sets the table up.  A second call changes nothing.
pub fn cache_prov_init(p: &mut CacheProv)
    requires
        old(p)@.wf(),
    ensures
        final(p)@.wf(),
        final(p)@ == (if old(p)@.slots is Some {
            old(p)@
        } else {
            CacheProvView {
                slots: Some(Seq::new(CACHE_PROV_SIZE as nat, |i: int| no_entry())),
                ..old(p)@
            }
        }),
{
    if p.slots.is_some() {
        return;
    }
    let mut v: Vec<CacheProvEntry> = Vec::new();
    let mut i: u64 = 0;
    while i < CACHE_PROV_SIZE
        invariant
            i <= CACHE_PROV_SIZE,
            v@ == Seq::new(i as nat, |j: int| no_entry()),
        decreases CACHE_PROV_SIZE - i,
    {
        v.push(
            CacheProvEntry {
                phys: 0,
                key: 0,
                fp: 0,
                last_write_rip: 0,
                tick: 0,
                state: SlotState::Empty,
                install_cpu: 0,
                last_write_cpu: 0,
                generation: 0,
            },
        );
        i = i + 1;
    }
    p.slots = Some(v);
}

/// Names a page of a file in 64 bits.
fn pack_cache_prov_key(mount: usize, inode: u64, file_offset: u64) -> (r: u64)
    ensures
        r == prov_key(mount, inode, file_offset),
{
    mount as u64 % 0x100 * 0x100_0000_0000_0000 + inode % 0x100_0000 * 0x1_0000_0000 + file_offset
        / 4096 % 0x1_0000_0000
}

/// The fingerprint of a page of the band.
fn cache_prov_fingerprint(mem: &PhysMem, phys: u64) -> (h: u64)
    requires
        covered(phys),
    ensures
        h == fingerprint(mem@, phys),
{
    let base: u64 = phys - phys % 4096;
    let mut h: u64 = FNV_OFFSET;
    let mut i: u64 = 0;
    while i < FINGERPRINT_BYTES
        invariant
            i <= FINGERPRINT_BYTES,
            covered(phys),
            base == frame(phys),
            h == fnv(mem@, phys, i as int),
        decreases FINGERPRINT_BYTES - i,
    {
        let b: u8 = mem.read_byte(base + i);
        h = (h ^ (b as u64)).wrapping_mul(FNV_PRIME);
        i = i + 1;
    }
    h
}

/// Notes that the frame entered the cache with the right contents.
pub fn cache_prov_install(
    p: &mut CacheProv,
    mem: &PhysMem,
    phys: u64,
    mount_idx: usize,
    inode: u64,
    file_offset: u64,
    cpu: u8,
    tick: u64,
)
    requires
        old(p)@.wf(),
    ensures
        final(p)@.wf(),
        final(p)@ == old(p)@.after_install(
            mem@,
            phys,
            prov_key(mount_idx, inode, file_offset),
            cpu,
            tick,
        ),
{
    let f: u64 = phys - phys % 4096;
    if f == 0 {
        return;
    }
    let i: usize = match p.slot_of(f) {
        Some(i) => i,
        None => {
            p.out_of_band = p.out_of_band.wrapping_add(1);
            return;
        },
    };
    let e: CacheProvEntry = p.get(i);
    if e.phys != 0 && e.phys != f {
        p.displaced = p.displaced.wrapping_add(1);
    }
    assert(e.phys == 0 || e.phys == f);
    let generation: u8 = if e.phys == f {
        e.generation
    } else {
        0
    };
    p.put(
        i,
        CacheProvEntry {
            phys: f,
            key: pack_cache_prov_key(mount_idx, inode, file_offset),
            fp: cache_prov_fingerprint(mem, phys),
            last_write_rip: 0,
            tick,
            state: SlotState::Installed,
            install_cpu: cpu,
            last_write_cpu: 0,
            generation,
        },
    );
    p.validated = p.validated.wrapping_add(1);
}

/// Notes that the cache gave the frame up and it went to another owner.
pub fn cache_prov_reclaim(p: &mut CacheProv, phys: u64)
    requires
        old(p)@.wf(),
    ensures
        final(p)@.wf(),
        final(p)@ == old(p)@.after_reclaim(phys),
{
    let f: u64 = phys - phys % 4096;
    if f == 0 {
        return;
    }
    let i: usize = match p.slot_of(f) {
        Some(i) => i,
        None => {
            return;
        },
    };
    let e: CacheProvEntry = p.get(i);
    if e.phys != f || e.state != SlotState::Installed {
        return;
    }
    let generation: u8 = if e.generation == 0xFF {
        0xFF
    } else {
        e.generation + 1
    };
    p.put(
        i,
        CacheProvEntry {
            phys: e.phys,
            key: e.key,
            fp: e.fp,
            last_write_rip: e.last_write_rip,
            tick: e.tick,
            state: SlotState::Reclaimed,
            install_cpu: e.install_cpu,
            last_write_cpu: 0,
            generation,
        },
    );
    p.reclaims = p.reclaims.wrapping_add(1);
}

/// A write to a frame that the cache gave up.
#[derive(Clone, Copy, PartialEq, Eq, Structural, Debug)]
pub struct Reuse {
    pub n: u64,
    pub entry: CacheProvEntry,
    pub age_ticks: u64,
    pub report: bool,
}

/// Notes a write to the frame through the cache.  A frame that the cache gave up is
/// somebody else's by now: that is counted.
pub fn cache_prov_write(
    p: &mut CacheProv,
    mem: &PhysMem,
    phys: u64,
    writer_rip: u64,
    cpu: u8,
    now: u64,
) -> (r: Option<Reuse>)
    requires
        old(p)@.wf(),
    ensures
        final(p)@.wf(),
        final(p)@ == old(p)@.after_write(mem@, phys, writer_rip, cpu),
        r == (if old(p)@.reuses(phys) {
            let n = old(p)@.refdec_reuses.wrapping_add(1);
            Some(
                Reuse {
                    n,
                    entry: old(p)@.entry(phys),
                    age_ticks: now.saturating_sub(old(p)@.entry(phys).tick),
                    report: reported(n),
                },
            )
        } else {
            None
        }),
{
    let f: u64 = phys - phys % 4096;
    if f == 0 {
        return None;
    }
    let i: usize = match p.slot_of(f) {
        Some(i) => i,
        None => {
            p.out_of_band = p.out_of_band.wrapping_add(1);
            return None;
        },
    };
    let e: CacheProvEntry = p.get(i);
    if e.phys != f {
        return None;
    }
    p.writes = p.writes.wrapping_add(1);
    if e.state == SlotState::Reclaimed {
        let n: u64 = p.refdec_reuses.wrapping_add(1);
        p.refdec_reuses = n;
        return Some(
            Reuse {
                n,
                entry: e,
                age_ticks: now.saturating_sub(e.tick),
                report: n <= REPORT_EVERY || n % REPORT_EVERY == 0,
            },
        );
    }
    p.put(
        i,
        CacheProvEntry {
            phys: e.phys,
            key: e.key,
            fp: cache_prov_fingerprint(mem, phys),
            last_write_rip: writer_rip,
            tick: e.tick,
            state: e.state,
            install_cpu: e.install_cpu,
            last_write_cpu: cpu,
            generation: e.generation,
        },
    );
    None
}

/// What is found of a cached frame whose contents a fault cast doubt on.
#[derive(Clone, Copy, PartialEq, Eq, Structural, Debug)]
pub enum ClobberProbe {
    NoFrame,
    OutOfBand,
    /// The frame never entered the cache.
    Miss,
    /// It holds another page.
    KeyMismatch { recorded: u64, expected: u64, state: SlotState },
    /// Its fingerprint is the one on record.
    FpMatch { state: SlotState },
    /// It holds the page, and its contents changed.
    Clobbered { n: u64, entry: CacheProvEntry, live_fp: u64, age_ticks: u64 },
}

/// What is found of the frame.
pub open spec fn probe_of(
    p: CacheProvView,
    mem: Seq<u64>,
    phys: u64,
    key: u64,
    now: u64,
) -> ClobberProbe {
    let e = p.entry(phys);
    if frame(phys) == 0 {
        ClobberProbe::NoFrame
    } else if !p.has_slot(phys) {
        ClobberProbe::OutOfBand
    } else if !p.knows(phys) {
        ClobberProbe::Miss
    } else if e.key != key {
        ClobberProbe::KeyMismatch { recorded: e.key, expected: key, state: e.state }
    } else if e.fp == fingerprint(mem, phys) {
        ClobberProbe::FpMatch { state: e.state }
    } else {
        ClobberProbe::Clobbered {
            n: p.clobbers.wrapping_add(1),
            entry: e,
            live_fp: fingerprint(mem, phys),
            age_ticks: now.saturating_sub(e.tick),
        }
    }
}

/// A fault cast doubt on a cached frame: compares it with what is on record.
pub fn cache_prov_fault_bucket_a(
    p: &mut CacheProv,
    mem: &PhysMem,
    phys: u64,
    mount_idx: usize,
    inode: u64,
    file_offset: u64,
    now: u64,
) -> (r: ClobberProbe)
    requires
        old(p)@.wf(),
    ensures
        final(p)@.wf(),
        r == probe_of(old(p)@, mem@, phys, prov_key(mount_idx, inode, file_offset), now),
        final(p)@ == (CacheProvView {
            clobbers: if r is Clobbered {
                old(p)@.clobbers.wrapping_add(1)
            } else {
                old(p)@.clobbers
            },
            fp_matches: if r is FpMatch {
                old(p)@.fp_matches.wrapping_add(1)
            } else {
                old(p)@.fp_matches
            },
            ..old(p)@
        }),
{
    let f: u64 = phys - phys % 4096;
    if f == 0 {
        return ClobberProbe::NoFrame;
    }
    let i: usize = match p.slot_of(f) {
        Some(i) => i,
        None => {
            return ClobberProbe::OutOfBand;
        },
    };
    let e: CacheProvEntry = p.get(i);
    if e.phys != f {
        return ClobberProbe::Miss;
    }
    let expected: u64 = pack_cache_prov_key(mount_idx, inode, file_offset);
    let live_fp: u64 = cache_prov_fingerprint(mem, phys);
    if e.key == expected && live_fp != e.fp {
        let n: u64 = p.clobbers.wrapping_add(1);
        p.clobbers = n;
        ClobberProbe::Clobbered { n, entry: e, live_fp, age_ticks: now.saturating_sub(e.tick) }
    } else if e.key == expected {
        p.fp_matches = p.fp_matches.wrapping_add(1);
        ClobberProbe::FpMatch { state: e.state }
    } else {
        ClobberProbe::KeyMismatch { recorded: e.key, expected, state: e.state }
    }
}

fn count_slots(s: &Vec<CacheProvEntry>, installed: bool) -> (n: u64)
    requires
        s@.len() == CACHE_PROV_SIZE,
    ensures
        n == held(s@, CACHE_PROV_SIZE as int, installed),
{
    let mut n: u64 = 0;
    let mut i: u64 = 0;
    while i < CACHE_PROV_SIZE
        invariant
            i <= CACHE_PROV_SIZE,
            s@.len() == CACHE_PROV_SIZE,
            n <= i,
            n == held(s@, i as int, installed),
        decreases CACHE_PROV_SIZE - i,
    {
        let _len: usize = s.len();
        let e: CacheProvEntry = s[i as usize];
        if e.phys != 0 && (!installed || e.state == SlotState::Installed) {
            n = n + 1;
        }
        i = i + 1;
    }
    n
}

/// Frames on record that the cache has.
pub fn cache_band_resident_count(p: &CacheProv) -> (n: u64)
    requires
        p@.wf(),
    ensures
        n == (match p@.slots {
            Some(s) => held(s, CACHE_PROV_SIZE as int, true),
            None => 0,
        }),
{
    match &p.slots {
        Some(s) => count_slots(s, true),
        None => 0,
    }
}

/// The counters with their names.
pub fn cache_prov_counts(p: &CacheProv) -> (r: Vec<(&'static str, u64)>)
    requires
        p@.wf(),
    ensures
        r@.len() == 9,
        r@.take(8) == seq![
            ("cache_clobber", p@.clobbers),
            ("cache_refdec_reuse", p@.refdec_reuses),
            ("validated", p@.validated),
            ("writes", p@.writes),
            ("reclaims", p@.reclaims),
            ("displaced", p@.displaced),
            ("fp_match_negctrl", p@.fp_matches),
            ("out_of_band", p@.out_of_band),
        ],
        r@[8].0 == "band_residents",
        r@[8].1 == (match p@.slots {
            Some(s) => held(s, CACHE_PROV_SIZE as int, true),
            None => 0,
        }),
{
    let mut r: Vec<(&'static str, u64)> = Vec::new();
    r.push(("cache_clobber", p.clobbers));
    r.push(("cache_refdec_reuse", p.refdec_reuses));
    r.push(("validated", p.validated));
    r.push(("writes", p.writes));
    r.push(("reclaims", p.reclaims));
    r.push(("displaced", p.displaced));
    r.push(("fp_match_negctrl", p.fp_matches));
    r.push(("out_of_band", p.out_of_band));
    r.push(("band_residents", cache_band_resident_count(p)));
    assert(r@.take(8) =~= seq![
        ("cache_clobber", p@.clobbers),
        ("cache_refdec_reuse", p@.refdec_reuses),
        ("validated", p@.validated),
        ("writes", p@.writes),
        ("reclaims", p@.reclaims),
        ("displaced", p@.displaced),
        ("fp_match_negctrl", p@.fp_matches),
        ("out_of_band", p@.out_of_band),
    ]);
    r
}

/// Looks every frame on record up again: how many there are, how many are found in their
/// slot, and how many are not.
pub fn cache_prov_band_selftest(p: &CacheProv) -> (r: (u64, u64, u64))
    requires
        p@.wf(),
    ensures
        r.0 == (match p@.slots {
            Some(s) => held(s, CACHE_PROV_SIZE as int, false),
            None => 0,
        }),
        r.1 == r.0,
        r.2 == 0,
{
    match &p.slots {
        None => (0, 0, 0),
        Some(s) => {
            let mut probed: u64 = 0;
            let mut hit: u64 = 0;
            let mut miss: u64 = 0;
            let mut i: u64 = 0;
            while i < CACHE_PROV_SIZE
                invariant
                    i <= CACHE_PROV_SIZE,
                    p@.wf(),
                    p@.slots == Some(s@),
                    probed <= i,
                    probed == held(s@, i as int, false),
                    hit == probed,
                    miss == 0,
                decreases CACHE_PROV_SIZE - i,
            {
                let _len: usize = s.len();
                let recorded: u64 = s[i as usize].phys;
                if recorded != 0 {
                    probed = probed + 1;
                    assert(s@[i as int].phys == CACHE_BAND_LO + i * 4096);
                    match p.slot_of(recorded) {
                        Some(at) => {
                            if at as u64 == i {
                                hit = hit + 1;
                            } else {
                                miss = miss + 1;
                            }
                        },
                        None => {
                            miss = miss + 1;
                        },
                    }
                }
                i = i + 1;
            }
            (probed, hit, miss)
        },
    }
}

/// Frames that entered the cache with the right contents.
pub fn cache_prov_validated_count(p: &CacheProv) -> (n: u64)
    ensures
        n == p@.validated,
{
    p.validated
}

/// Cached frames whose contents were found changed.
pub fn cache_clobber_count(p: &CacheProv) -> (n: u64)
    ensures
        n == p@.clobbers,
{
    p.clobbers
}

/// Writes to frames that the cache had given up.
pub fn cache_refdec_reuse_count(p: &CacheProv) -> (n: u64)
    ensures
        n == p@.refdec_reuses,
{
    p.refdec_reuses
}

/// Two frames of the band never share a slot, so that nothing on record is ever displaced.
pub proof fn law_no_frame_is_displaced(
    p: CacheProvView,
    mem: Seq<u64>,
    phys: u64,
    key: u64,
    cpu: u8,
    tick: u64,
    other: u64,
)
    requires
        p.wf(),
        covered(phys),
        covered(other),
        frame(phys) != frame(other),
    ensures
        prov_slot(phys) != prov_slot(other),
        p.after_install(mem, phys, key, cpu, tick).displaced == p.displaced,
        p.knows(other) ==> p.after_install(mem, phys, key, cpu, tick).knows(other) && p.after_install(
            mem,
            phys,
            key,
            cpu,
            tick,
        ).entry(other) == p.entry(other),
{
}

/// A frame that is not written to after it entered the cache passes the comparison; one
/// whose fingerprint changed without a write through the cache is found.
pub proof fn law_clobbered_page_is_found(
    p: CacheProvView,
    mem: Seq<u64>,
    later: Seq<u64>,
    phys: u64,
    key: u64,
    cpu: u8,
    tick: u64,
    now: u64,
)
    requires
        p.wf(),
        p.has_slot(phys),
    ensures
        ({
            let q = p.after_install(mem, phys, key, cpu, tick);
            &&& probe_of(q, later, phys, key, now) is FpMatch <==> fingerprint(later, phys)
                == fingerprint(mem, phys)
            &&& probe_of(q, later, phys, key, now) is Clobbered <==> fingerprint(later, phys)
                != fingerprint(mem, phys)
        }),
{
}

/// A rightful write through the cache is not taken for a change; one after the cache gave
/// the frame up is found.
pub proof fn law_writes_through_the_cache_are_known(
    p: CacheProvView,
    mem: Seq<u64>,
    later: Seq<u64>,
    phys: u64,
    key: u64,
    rip: u64,
    cpu: u8,
    tick: u64,
    now: u64,
)
    requires
        p.wf(),
        p.has_slot(phys),
    ensures
        ({
            let q = p.after_install(mem, phys, key, cpu, tick);
            &&& probe_of(q.after_write(later, phys, rip, cpu), later, phys, key, now) is FpMatch
            &&& !q.reuses(phys)
            &&& q.after_reclaim(phys).reuses(phys)
        }),
{
}

} // verus!
