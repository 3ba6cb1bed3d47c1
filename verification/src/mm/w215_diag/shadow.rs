//! The last free, and the last allocation, of each page frame.
use vstd::prelude::*;

verus! {

/// Slots of a shadow.
pub const SHADOW_SIZE: u64 = 65_536;

/// One event.
#[derive(Clone, Copy, PartialEq, Eq, Structural, Debug)]
pub struct ShadowEntry {
    /// The frame; zero marks an empty slot.
    pub phys: u64,
    pub tick: u64,
    /// Return address of the caller.
    pub caller_rip: u64,
}

/// The last event of each frame, as long as no other frame takes its slot.
pub struct Shadow {
    pub slots: Vec<ShadowEntry>,
    pub recorded: u64,
    pub displaced: u64,
}

/// What a shadow holds.
#[verifier::ext_equal]
pub struct ShadowView {
    pub slots: Seq<ShadowEntry>,
    pub recorded: u64,
    pub displaced: u64,
}

impl View for Shadow {
    type V = ShadowView;

    open spec fn view(&self) -> ShadowView {
        ShadowView { slots: self.slots@, recorded: self.recorded, displaced: self.displaced }
    }
}

/// Slot of a frame.
pub open spec fn shadow_slot(phys: u64) -> int {
    (phys / 4096 % SHADOW_SIZE) as int
}

impl ShadowView {
    pub open spec fn wf(self) -> bool {
        self.slots.len() == SHADOW_SIZE
    }

    /// After an event of the frame.
    pub open spec fn after_record(self, phys: u64, caller_rip: u64, tick: u64) -> ShadowView {
        let was = self.slots[shadow_slot(phys)].phys;
        if phys == 0 {
            self
        } else {
            ShadowView {
                slots: self.slots.update(
                    shadow_slot(phys),
                    ShadowEntry { phys, tick, caller_rip },
                ),
                recorded: self.recorded.wrapping_add(1),
                displaced: if was != 0 && was != phys {
                    self.displaced.wrapping_add(1)
                } else {
                    self.displaced
                },
            }
        }
    }

    /// Tick and caller of the last event of the frame, if it is still known.
    pub open spec fn found(self, phys: u64) -> Option<(u64, u64)> {
        let e = self.slots[shadow_slot(phys)];
        if phys != 0 && e.phys == phys {
            Some((e.tick, e.caller_rip))
        } else {
            None
        }
    }
}

impl Shadow {
    /// Nothing is known.
    pub fn new() -> (r: Shadow)
        ensures
            r@.wf(),
            r@ == (ShadowView {
                slots: Seq::new(
                    SHADOW_SIZE as nat,
                    |i: int| ShadowEntry { phys: 0, tick: 0, caller_rip: 0 },
                ),
                recorded: 0,
                displaced: 0,
            }),
    {
        let mut slots: Vec<ShadowEntry> = Vec::new();
        let mut i: u64 = 0;
        while i < SHADOW_SIZE
            invariant
                i <= SHADOW_SIZE,
                slots@ == Seq::new(
                    i as nat,
                    |j: int| ShadowEntry { phys: 0, tick: 0, caller_rip: 0 },
                ),
            decreases SHADOW_SIZE - i,
        {
            slots.push(ShadowEntry { phys: 0, tick: 0, caller_rip: 0 });
            i = i + 1;
        }
        Shadow { slots, recorded: 0, displaced: 0 }
    }

    fn record(&mut self, phys: u64, caller_rip: u64, tick: u64)
        requires
            old(self)@.wf(),
        ensures
            final(self)@.wf(),
            final(self)@ == old(self)@.after_record(phys, caller_rip, tick),
    {
        if phys == 0 {
            return;
        }
        let _len: usize = self.slots.len();
        let at: usize = (phys / 4096 % SHADOW_SIZE) as usize;
        let was: u64 = self.slots[at].phys;
        if was != 0 && was != phys {
            self.displaced = self.displaced.wrapping_add(1);
        }
        self.slots.set(at, ShadowEntry { phys, tick, caller_rip });
        self.recorded = self.recorded.wrapping_add(1);
    }

    fn lookup(&self, phys: u64) -> (r: Option<(u64, u64)>)
        requires
            self@.wf(),
        ensures
            r == self@.found(phys),
    {
        if phys == 0 {
            return None;
        }
        let _len: usize = self.slots.len();
        let e: ShadowEntry = self.slots[(phys / 4096 % SHADOW_SIZE) as usize];
        if e.phys != phys {
            return None;
        }
        Some((e.tick, e.caller_rip))
    }

    fn dump(&self, phys: u64, now: u64) -> (r: ShadowDump)
        requires
            self@.wf(),
        ensures
            r == dump_of(self@, phys, now),
    {
        let hit: Option<ShadowHit> = match self.lookup(phys) {
            Some((tick, caller_rip)) => Some(
                ShadowHit { tick, age_ticks: now.saturating_sub(tick), caller_rip },
            ),
            None => None,
        };
        ShadowDump { phys, hit, recorded: self.recorded, displaced: self.displaced }
    }
}

/// The last event of a frame.
#[derive(Clone, Copy, PartialEq, Eq, Structural, Debug)]
pub struct ShadowHit {
    pub tick: u64,
    pub age_ticks: u64,
    pub caller_rip: u64,
}

/// What is reported of a frame.
#[derive(Clone, Copy, PartialEq, Eq, Structural, Debug)]
pub struct ShadowDump {
    pub phys: u64,
    pub hit: Option<ShadowHit>,
    pub recorded: u64,
    pub displaced: u64,
}

/// What is reported of a frame.
pub open spec fn dump_of(s: ShadowView, phys: u64, now: u64) -> ShadowDump {
    ShadowDump {
        phys,
        hit: match s.found(phys) {
            Some((tick, caller_rip)) => Some(
                ShadowHit { tick, age_ticks: now.saturating_sub(tick), caller_rip },
            ),
            None => None,
        },
        recorded: s.recorded,
        displaced: s.displaced,
    }
}

/// Notes that the frame was freed.
pub fn free_shadow_record(s: &mut Shadow, phys: u64, caller_rip: u64, tick: u64)
    requires
        old(s)@.wf(),
    ensures
        final(s)@.wf(),
        final(s)@ == old(s)@.after_record(phys, caller_rip, tick),
{
    s.record(phys, caller_rip, tick);
}

/// Tick and caller of the last free of the frame, if it is still known.
pub fn free_shadow_lookup(s: &Shadow, phys: u64) -> (r: Option<(u64, u64)>)
    requires
        s@.wf(),
    ensures
        r == s@.found(phys),
{
    s.lookup(phys)
}

/// What is reported of the last free of a frame.
pub fn dump_free_shadow_for_phys(s: &Shadow, phys: u64, now: u64) -> (r: ShadowDump)
    requires
        s@.wf(),
    ensures
        r == dump_of(s@, phys, now),
{
    s.dump(phys, now)
}

/// Frees that were noted.
pub fn free_shadow_recorded_count(s: &Shadow) -> (n: u64)
    ensures
        n == s@.recorded,
{
    s.recorded
}

/// Frees that took the slot of another frame.
pub fn free_shadow_displaced_count(s: &Shadow) -> (n: u64)
    ensures
        n == s@.displaced,
{
    s.displaced
}

/// Notes that the frame was handed out.
pub fn alloc_shadow_record(s: &mut Shadow, phys: u64, caller_rip: u64, tick: u64)
    requires
        old(s)@.wf(),
    ensures
        final(s)@.wf(),
        final(s)@ == old(s)@.after_record(phys, caller_rip, tick),
{
    s.record(phys, caller_rip, tick);
}

/// Tick and caller of the last allocation of the frame, if it is still known.
pub fn alloc_shadow_lookup(s: &Shadow, phys: u64) -> (r: Option<(u64, u64)>)
    requires
        s@.wf(),
    ensures
        r == s@.found(phys),
{
    s.lookup(phys)
}

/// What is reported of the last allocation of a frame.
pub fn dump_alloc_shadow_for_phys(s: &Shadow, phys: u64, now: u64) -> (r: ShadowDump)
    requires
        s@.wf(),
    ensures
        r == dump_of(s@, phys, now),
{
    s.dump(phys, now)
}

/// Allocations that were noted.
pub fn alloc_shadow_recorded_count(s: &Shadow) -> (n: u64)
    ensures
        n == s@.recorded,
{
    s.recorded
}

/// Allocations that took the slot of another frame.
pub fn alloc_shadow_displaced_count(s: &Shadow) -> (n: u64)
    ensures
        n == s@.displaced,
{
    s.displaced
}

/// The last allocation and the last free of a frame, as far as they are known.
pub fn dump_band_frame_prov(alloc_shadow: &Shadow, free_shadow: &Shadow, phys: u64) -> (r: (
    Option<(u64, u64)>,
    Option<(u64, u64)>,
))
    requires
        alloc_shadow@.wf(),
        free_shadow@.wf(),
    ensures
        r == (alloc_shadow@.found(phys), free_shadow@.found(phys)),
{
    (alloc_shadow_lookup(alloc_shadow, phys), free_shadow_lookup(free_shadow, phys))
}

/// An event is found until another frame takes the slot: while nothing was displaced,
/// each frame's last event is known.
pub proof fn law_record_then_lookup(s: ShadowView, phys: u64, caller_rip: u64, tick: u64, other: u64)
    requires
        s.wf(),
        phys != 0,
    ensures
        s.after_record(phys, caller_rip, tick).found(phys) == Some((tick, caller_rip)),
        shadow_slot(other) != shadow_slot(phys) ==> s.after_record(phys, caller_rip, tick).found(
            other,
        ) == s.found(other),
        s.after_record(phys, caller_rip, tick).displaced == s.displaced && s.found(other) is Some
            ==> s.after_record(phys, caller_rip, tick).found(other) is Some,
{
}

} // verus!
