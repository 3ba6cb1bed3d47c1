//! Frames that are being filled before they enter the page cache.
//!
//! Whoever fills a frame for the cache leaves a witness, which is taken away when the
//! frame is in.  A cache operation that meets a witness has come too early.
use vstd::prelude::*;

verus! {

pub const SITE_CACHE_PREPOPULATE: u8 = 1;

pub const SITE_PFH_READAHEAD: u8 = 2;

pub const SITE_PFH_SINGLEPAGE: u8 = 3;

pub const OP_LOOKUP: u8 = 1;

pub const OP_LOOKUP_ACQUIRE: u8 = 2;

pub const OP_IS_PHYS_IN_CACHE: u8 = 3;

pub const OP_EVICT: u8 = 4;

pub const OP_EVICT_IF_PHYS: u8 = 5;

/// Slots for witnesses.
pub const PREINS_SLOTS: u64 = 128;

/// The first so many good ends are reported.
pub const FIRST_OKS: u64 = 8;

/// Of the later ones, each whose number this divides.
pub const OK_SAMPLE: u64 = 4096;

/// Someone fills a frame.
#[derive(Clone, Copy, PartialEq, Eq, Structural, Debug)]
pub struct Witness {
    /// The frame; zero marks an empty slot.
    pub phys: u64,
    pub tick: u64,
    pub site: u8,
    pub cpu: u8,
    /// Low part of the inode.
    pub inode_low16: u16,
    /// Low part of the number of the page in the file.
    pub off_low32: u32,
}

/// The witnesses.
pub struct Preins {
    pub slots: Vec<Witness>,
    pub window_race: u64,
    pub install_race: u64,
    /// Witnesses that were taken away.
    pub ok: u64,
}

/// What is known of frames that are being filled.
#[verifier::ext_equal]
pub struct PreinsView {
    pub slots: Seq<Witness>,
    pub window_race: u64,
    pub install_race: u64,
    pub ok: u64,
}

impl View for Preins {
    type V = PreinsView;

    open spec fn view(&self) -> PreinsView {
        PreinsView {
            slots: self.slots@,
            window_race: self.window_race,
            install_race: self.install_race,
            ok: self.ok,
        }
    }
}

/// Slot of a frame.
pub open spec fn preins_slot(phys: u64) -> int {
    let pfn = phys / 4096;
    ((pfn ^ (pfn >> 7) ^ (pfn >> 13)) % PREINS_SLOTS) as int
}

/// A race: a frame was met while it is being filled.
#[derive(Clone, Copy, PartialEq, Eq, Structural, Debug)]
pub struct Race {
    pub witness: Witness,
    /// Ticks since the filling began.
    pub age_ticks: u64,
}

/// A frame entered the cache that was being filled until then.
#[derive(Clone, Copy, PartialEq, Eq, Structural, Debug)]
pub struct Filled {
    /// The witness that was taken away.
    pub witness: Witness,
    /// Ticks since the filling began.
    pub age_ticks: u64,
    /// How many such frames came before.
    pub n: u64,
    /// Whether this one is reported.
    pub report: bool,
}

impl PreinsView {
    pub open spec fn wf(self) -> bool {
        self.slots.len() == PREINS_SLOTS
    }

    /// The witness of a frame that is being filled.
    pub open spec fn witness(self, phys: u64) -> Option<Witness> {
        if phys != 0 && self.slots[preins_slot(phys)].phys == phys {
            Some(self.slots[preins_slot(phys)])
        } else {
            None
        }
    }

    /// After the filling of a frame began.
    pub open spec fn after_register(
        self,
        phys: u64,
        site: u8,
        cpu: u8,
        inode: u64,
        file_offset: u64,
        tick: u64,
    ) -> PreinsView {
        if phys == 0 {
            self
        } else {
            PreinsView {
                slots: self.slots.update(
                    preins_slot(phys),
                    Witness {
                        phys,
                        tick,
                        site,
                        cpu,
                        inode_low16: (inode % 0x1_0000) as u16,
                        off_low32: (file_offset / 4096 % 0x1_0000_0000) as u32,
                    },
                ),
                ..self
            }
        }
    }

    /// After a frame entered the cache.
    pub open spec fn after_insert(self, phys: u64) -> PreinsView {
        if self.witness(phys) is None {
            self
        } else {
            PreinsView {
                slots: self.slots.update(
                    preins_slot(phys),
                    Witness { phys: 0, ..self.slots[preins_slot(phys)] },
                ),
                ok: self.ok.wrapping_add(1),
                ..self
            }
        }
    }
}

impl Preins {
    /// Nothing is being filled.
    pub fn new() -> (r: Preins)
        ensures
            r@.wf(),
            r@ == (PreinsView {
                slots: Seq::new(
                    PREINS_SLOTS as nat,
                    |i: int|
                        Witness { phys: 0, tick: 0, site: 0, cpu: 0, inode_low16: 0, off_low32: 0 },
                ),
                window_race: 0,
                install_race: 0,
                ok: 0,
            }),
    {
        let mut slots: Vec<Witness> = Vec::new();
        let mut i: u64 = 0;
        while i < PREINS_SLOTS
            invariant
                i <= PREINS_SLOTS,
                slots@ == Seq::new(
                    i as nat,
                    |j: int|
                        Witness { phys: 0, tick: 0, site: 0, cpu: 0, inode_low16: 0, off_low32: 0 },
                ),
            decreases PREINS_SLOTS - i,
        {
            slots.push(
                Witness { phys: 0, tick: 0, site: 0, cpu: 0, inode_low16: 0, off_low32: 0 },
            );
            i = i + 1;
        }
        Preins { slots, window_race: 0, install_race: 0, ok: 0 }
    }
}

fn preins_slot_for(phys: u64) -> (i: usize)
    ensures
        i == preins_slot(phys),
        i < PREINS_SLOTS,
{
    let pfn: u64 = phys / 4096;
    ((pfn ^ (pfn >> 7) ^ (pfn >> 13)) % PREINS_SLOTS) as usize
}

/// Notes that someone begins to fill the frame.
pub fn preins_register(
    p: &mut Preins,
    phys: u64,
    writer_site: u8,
    cpu: u8,
    inode: u64,
    file_offset: u64,
    tick: u64,
)
    requires
        old(p)@.wf(),
    ensures
        final(p)@.wf(),
        final(p)@ == old(p)@.after_register(phys, writer_site, cpu, inode, file_offset, tick),
{
    if phys == 0 {
        return;
    }
    let _len: usize = p.slots.len();
    p.slots.set(
        preins_slot_for(phys),
        Witness {
            phys,
            tick,
            site: writer_site,
            cpu,
            inode_low16: (inode % 0x1_0000) as u16,
            off_low32: (file_offset / 4096 % 0x1_0000_0000) as u32,
        },
    );
}

/// The frame entered the cache: its witness is taken away, and comes back where there was
/// one.  The first few are reported, and then one in many.
pub fn preins_clear_on_insert(p: &mut Preins, phys: u64, now: u64) -> (r: Option<Filled>)
    requires
        old(p)@.wf(),
    ensures
        final(p)@.wf(),
        final(p)@ == old(p)@.after_insert(phys),
        r == (match old(p)@.witness(phys) {
            Some(w) => Some(
                Filled {
                    witness: w,
                    age_ticks: now.saturating_sub(w.tick),
                    n: old(p)@.ok,
                    report: old(p)@.ok < FIRST_OKS || old(p)@.ok % OK_SAMPLE == 0,
                },
            ),
            None => None,
        }),
{
    if phys == 0 {
        return None;
    }
    let _len: usize = p.slots.len();
    let at: usize = preins_slot_for(phys);
    let w: Witness = p.slots[at];
    if w.phys != phys {
        return None;
    }
    p.slots.set(
        at,
        Witness {
            phys: 0,
            tick: w.tick,
            site: w.site,
            cpu: w.cpu,
            inode_low16: w.inode_low16,
            off_low32: w.off_low32,
        },
    );
    let n: u64 = p.ok;
    p.ok = n.wrapping_add(1);
    Some(
        Filled {
            witness: w,
            age_ticks: now.saturating_sub(w.tick),
            n,
            report: n < FIRST_OKS || n % OK_SAMPLE == 0,
        },
    )
}

/// A cache operation touches the frame: where it is being filled, that is counted and
/// reported.
pub fn preins_check_op(p: &mut Preins, phys: u64) -> (r: Option<Witness>)
    requires
        old(p)@.wf(),
    ensures
        final(p)@.wf(),
        r == old(p)@.witness(phys),
        final(p)@ == (PreinsView {
            window_race: if r is Some {
                old(p)@.window_race.wrapping_add(1)
            } else {
                old(p)@.window_race
            },
            ..old(p)@
        }),
{
    if phys == 0 {
        return None;
    }
    let _len: usize = p.slots.len();
    let w: Witness = p.slots[preins_slot_for(phys)];
    if w.phys != phys {
        return None;
    }
    p.window_race = p.window_race.wrapping_add(1);
    Some(w)
}

/// A fault handler maps the frame: where it is being filled, that is counted and
/// reported.
pub fn preins_check_install(p: &mut Preins, phys: u64, now: u64) -> (r: Option<Race>)
    requires
        old(p)@.wf(),
    ensures
        final(p)@.wf(),
        r == (match old(p)@.witness(phys) {
            Some(w) => Some(Race { witness: w, age_ticks: now.saturating_sub(w.tick) }),
            None => None,
        }),
        final(p)@ == (PreinsView {
            install_race: if r is Some {
                old(p)@.install_race.wrapping_add(1)
            } else {
                old(p)@.install_race
            },
            ..old(p)@
        }),
{
    if phys == 0 {
        return None;
    }
    let _len: usize = p.slots.len();
    let w: Witness = p.slots[preins_slot_for(phys)];
    if w.phys != phys {
        return None;
    }
    p.install_race = p.install_race.wrapping_add(1);
    Some(Race { witness: w, age_ticks: now.saturating_sub(w.tick) })
}

/// Name of a cache operation.
pub open spec fn op_name(o: u8) -> Seq<char> {
    if o == 1 {
        "lookup"@
    } else if o == 2 {
        "lookup_acquire"@
    } else if o == 3 {
        "is_phys_in_cache"@
    } else if o == 4 {
        "evict"@
    } else if o == 5 {
        "evict_if_phys"@
    } else {
        "?"@
    }
}

/// Name of a cache operation.
pub fn op_str(o: u8) -> (r: &'static str)
    ensures
        r@ == op_name(o),
{
    match o {
        1 => "lookup",
        2 => "lookup_acquire",
        3 => "is_phys_in_cache",
        4 => "evict",
        5 => "evict_if_phys",
        _ => "?",
    }
}

/// Cache operations that met a frame that was being filled.
pub fn window_race_count(p: &Preins) -> (n: u64)
    ensures
        n == p@.window_race,
{
    p.window_race
}

/// Mappings of a frame that was being filled.
pub fn install_race_count(p: &Preins) -> (n: u64)
    ensures
        n == p@.install_race,
{
    p.install_race
}

/// Between the start of the filling and the entry into the cache the frame is met as one
/// that is being filled; afterwards it is not.
pub proof fn law_window_opens_and_closes(
    p: PreinsView,
    phys: u64,
    site: u8,
    cpu: u8,
    inode: u64,
    file_offset: u64,
    tick: u64,
)
    requires
        p.wf(),
        phys != 0,
    ensures
        ({
            let open = p.after_register(phys, site, cpu, inode, file_offset, tick);
            &&& open.witness(phys) is Some
            &&& open.after_insert(phys).witness(phys) is None
        }),
{
}

} // verus!
