//! Invalidation of address translations on every processor, and the frames that
//! must wait until no processor can still hold a stale translation of them.
//!
//! A processor that takes a page away from an address space tells each other
//! processor that runs in it: it fills that processor's slot, signals it, and waits
//! for the slot to be cleared.  Where one does not answer in time, the frames that
//! were taken away go to the quarantine, and leave it only once every processor has
//! had a timer tick (and with it a flush) after they went in.
//!
//! Signalling another processor and the invalidation instructions themselves are
//! the caller's: the functions here say which are due.
use vstd::prelude::*;
use std::collections::BTreeMap;
use crate::mm::pmm::{free_page, FreeVerdict, Frames, FramesView};

verus! {

/// Interrupt vector on which a processor is told to look at its slot.
pub const TLB_SHOOTDOWN_VECTOR: u8 = 0xF0;

/// Ranges of more pages than this are invalidated by a full flush.
pub const FULL_FLUSH_PAGES_THRESHOLD: u64 = 32;

/// Frames that the quarantine can hold.
pub const QUARANTINE_CAPACITY: u64 = 256;

/// Times that a sender looks at the slots of the processors it waits for.
pub const ACK_BOUND: u32 = 10_000_000;

/// Times that a sender looks at the done flags afterwards.
pub const DONE_BOUND: u32 = 4_000;

/// Processors whose numbers fit the mask of an address space.
pub const MASK_BITS: u64 = 64;

/// End of the user half of the address space.
pub const USER_HALF_END: u64 = 0x0000_8000_0000_0000;

/// A root that no processor ever runs on.
pub const SELF_SERVICE_TEST_CR3: u64 = 0xFEED_FACE_000;

/// What one processor was asked to invalidate.
#[derive(Clone, Copy)]
pub struct ShootdownSlot {
    pub cr3: u64,
    pub va_lo: u64,
    pub va_hi: u64,
    /// The request is unanswered.
    pub pending: bool,
}

/// A frame that must not be handed out yet.
#[derive(Clone, Copy)]
pub struct QuarantineEntry {
    pub phys: u64,
    /// Tick at which it went in.
    pub enqueue_tick: u64,
}

/// What the calling processor must invalidate in its own translation cache.
pub enum Flush {
    /// Everything, by a reload of the root.
    All,
    /// The pages at these addresses.
    Pages(Vec<u64>),
}

/// State of the cross-processor protocol and of the quarantine.
pub struct Tlb {
    /// Another processor than the first may run.
    pub smp_active: bool,
    /// Requests to other processors are switched off.
    pub shootdown_off: bool,
    /// Late invalidations are looked for and counted.
    pub diag: bool,
    /// One slot per processor.
    pub slots: Vec<ShootdownSlot>,
    /// Per processor: the last request that it took has been carried out.
    pub done: Vec<bool>,
    /// Per root, a mask of the processors that have it loaded.
    pub active: BTreeMap<u64, u64>,
    pub quarantine: Vec<QuarantineEntry>,
    /// Per processor, the tick of its last timer interrupt.
    pub last_tick: Vec<u64>,
    pub shootdowns_sent: u64,
    pub ipis_sent: u64,
    pub ack_timeouts: u64,
    pub shootdowns_handled: u64,
    pub quarantine_deferred: u64,
    pub quarantine_released: u64,
    pub clean_ack_late: u64,
    pub unclean_total: u64,
}

/// What the protocol state holds.
#[verifier::ext_equal]
pub struct TlbView {
    pub smp_active: bool,
    pub shootdown_off: bool,
    pub diag: bool,
    pub slots: Seq<ShootdownSlot>,
    pub done: Seq<bool>,
    pub active: Map<u64, u64>,
    pub quarantine: Seq<QuarantineEntry>,
    pub last_tick: Seq<u64>,
    pub shootdowns_sent: u64,
    pub ipis_sent: u64,
    pub ack_timeouts: u64,
    pub shootdowns_handled: u64,
    pub quarantine_deferred: u64,
    pub quarantine_released: u64,
    pub clean_ack_late: u64,
    pub unclean_total: u64,
}

impl View for Tlb {
    type V = TlbView;

    open spec fn view(&self) -> TlbView {
        TlbView {
            smp_active: self.smp_active,
            shootdown_off: self.shootdown_off,
            diag: self.diag,
            slots: self.slots@,
            done: self.done@,
            active: self.active@,
            quarantine: self.quarantine@,
            last_tick: self.last_tick@,
            shootdowns_sent: self.shootdowns_sent,
            ipis_sent: self.ipis_sent,
            ack_timeouts: self.ack_timeouts,
            shootdowns_handled: self.shootdowns_handled,
            quarantine_deferred: self.quarantine_deferred,
            quarantine_released: self.quarantine_released,
            clean_ack_late: self.clean_ack_late,
            unclean_total: self.unclean_total,
        }
    }
}

/// Processor `cpu` is in the mask.
pub open spec fn in_mask(mask: u64, cpu: u64) -> bool {
    (mask >> cpu) & 1 == 1
}

/// The processors below `n` that are in the mask, without `but`, in ascending order.
pub open spec fn cpus_of(mask: u64, but: u64, n: nat) -> Seq<u64>
    decreases n,
{
    if n == 0 {
        Seq::empty()
    } else {
        let before = cpus_of(mask, but, (n - 1) as nat);
        let cpu = (n - 1) as u64;
        if cpu != but && in_mask(mask, cpu) {
            before.push(cpu)
        } else {
            before
        }
    }
}

/// First page of a range.
pub open spec fn range_start(va_lo: u64) -> int {
    va_lo - va_lo % 4096
}

/// Pages that a range touches.
pub open spec fn range_pages(va_lo: u64, va_hi: u64) -> int {
    let end = (va_hi + 4095) / 4096 * 4096;
    if end <= range_start(va_lo) {
        0
    } else {
        (end - range_start(va_lo)) / 4096
    }
}

impl Flush {
    /// It invalidates the range: page by page where it is small, else as a whole.
    pub open spec fn covers(self, va_lo: u64, va_hi: u64) -> bool {
        let n = range_pages(va_lo, va_hi);
        match self {
            Flush::All => n > FULL_FLUSH_PAGES_THRESHOLD,
            Flush::Pages(pages) => {
                &&& n <= FULL_FLUSH_PAGES_THRESHOLD
                &&& pages@ == Seq::new(
                    n as nat,
                    |i: int| (range_start(va_lo) + i * 4096) as u64,
                )
            },
        }
    }
}

/// The processors of `cpus` whose slot is unanswered.
pub open spec fn unanswered(slots: Seq<ShootdownSlot>, cpus: Seq<u64>) -> Seq<u64>
    decreases cpus.len(),
{
    if cpus.len() == 0 {
        Seq::empty()
    } else {
        let before = unanswered(slots, cpus.drop_last());
        if slots[cpus.last() as int].pending {
            before.push(cpus.last())
        } else {
            before
        }
    }
}

/// The processors of `cpus` whose done flag is not up.
pub open spec fn not_done(done: Seq<bool>, cpus: Seq<u64>) -> Seq<u64>
    decreases cpus.len(),
{
    if cpus.len() == 0 {
        Seq::empty()
    } else {
        let before = not_done(done, cpus.drop_last());
        if !done[cpus.last() as int] {
            before.push(cpus.last())
        } else {
            before
        }
    }
}

/// The smallest of the first `n` ticks, at least one of them.
pub open spec fn min_tick(ticks: Seq<u64>, n: int) -> u64
    decreases n,
{
    if n <= 1 {
        ticks[0]
    } else if ticks[n - 1] < min_tick(ticks, n - 1) {
        ticks[n - 1]
    } else {
        min_tick(ticks, n - 1)
    }
}

/// The entries that went in before tick `t`.
pub open spec fn older(q: Seq<QuarantineEntry>, t: u64) -> Seq<QuarantineEntry> {
    q.filter(|e: QuarantineEntry| e.enqueue_tick < t)
}

/// The entries that did not.
pub open spec fn not_older(q: Seq<QuarantineEntry>, t: u64) -> Seq<QuarantineEntry> {
    q.filter(|e: QuarantineEntry| e.enqueue_tick >= t)
}

impl FramesView {
    /// After the frames of `released` were freed, one after the other.
    pub open spec fn after_release(self, released: Seq<QuarantineEntry>, now: u64) -> FramesView
        decreases released.len(),
    {
        if released.len() == 0 {
            self
        } else {
            self.after_release(released.drop_last(), now).after_free(released.last().phys, now)
        }
    }
}

impl TlbView {
    pub open spec fn wf(self) -> bool {
        &&& 1 <= self.slots.len() <= MASK_BITS
        &&& self.done.len() == self.slots.len()
        &&& self.last_tick.len() == self.slots.len()
        &&& self.quarantine.len() <= QUARANTINE_CAPACITY
        &&& forall|i: int|
            0 <= i < self.slots.len() ==> (#[trigger] self.slots[i]).va_hi <= u64::MAX - 0xFFF
    }

    /// The processor number is one of this machine's.
    pub open spec fn knows(self, cpu: u64) -> bool {
        cpu < self.slots.len()
    }

    /// Mask of the processors that have `cr3` loaded.
    pub open spec fn mask_of(self, cr3: u64) -> u64 {
        if cr3 != 0 && self.active.contains_key(cr3) {
            self.active[cr3]
        } else {
            0
        }
    }

    /// Processor `cpu` is booked as having `cr3` loaded.
    pub open spec fn runs(self, cr3: u64, cpu: u64) -> bool {
        in_mask(self.mask_of(cr3), cpu)
    }

    pub open spec fn after_load(self, cr3: u64, cpu: u64) -> TlbView {
        if cr3 == 0 || !self.knows(cpu) {
            self
        } else {
            TlbView {
                active: self.active.insert(cr3, self.mask_of(cr3) | (1u64 << cpu)),
                ..self
            }
        }
    }

    pub open spec fn after_unload(self, cr3: u64, cpu: u64) -> TlbView {
        if cr3 == 0 || !self.knows(cpu) || !self.active.contains_key(cr3) {
            self
        } else {
            TlbView {
                active: self.active.insert(cr3, self.mask_of(cr3) & !(1u64 << cpu)),
                ..self
            }
        }
    }

    /// The processors that a request of processor `sender` about `cr3` goes to.
    pub open spec fn targets(self, cr3: u64, sender: u64) -> Seq<u64> {
        if !self.smp_active || self.shootdown_off || !self.knows(sender) {
            Seq::empty()
        } else {
            cpus_of(self.mask_of(cr3), sender, self.slots.len())
        }
    }

    /// After the request was put into the slot of each of `cpus`.
    pub open spec fn published(self, cpus: Seq<u64>, cr3: u64, va_lo: u64, va_hi: u64) -> TlbView {
        if cpus.len() == 0 {
            self
        } else {
            TlbView {
                slots: Seq::new(
                    self.slots.len(),
                    |i: int|
                        if cpus.contains(i as u64) {
                            ShootdownSlot { cr3, va_lo, va_hi, pending: true }
                        } else {
                            self.slots[i]
                        },
                ),
                done: Seq::new(
                    self.done.len(),
                    |i: int|
                        if self.diag && cpus.contains(i as u64) {
                            false
                        } else {
                            self.done[i]
                        },
                ),
                shootdowns_sent: self.shootdowns_sent.wrapping_add(1),
                ipis_sent: self.ipis_sent.wrapping_add(cpus.len() as u64),
                ..self
            }
        }
    }

    /// After processor `cpu` answered the request in its slot, if there is one.
    pub open spec fn after_service(self, cpu: u64) -> TlbView {
        if !self.knows(cpu) || !self.slots[cpu as int].pending {
            self
        } else {
            TlbView {
                slots: self.slots.update(
                    cpu as int,
                    ShootdownSlot { pending: false, ..self.slots[cpu as int] },
                ),
                done: if self.diag {
                    self.done.update(cpu as int, true)
                } else {
                    self.done
                },
                shootdowns_handled: self.shootdowns_handled.wrapping_add(1),
                ..self
            }
        }
    }

    /// After a sender gave up on `cpus`.
    pub open spec fn after_timeout(self, cpus: Seq<u64>) -> TlbView {
        TlbView {
            slots: Seq::new(
                self.slots.len(),
                |i: int|
                    if cpus.contains(i as u64) {
                        ShootdownSlot { pending: false, ..self.slots[i] }
                    } else {
                        self.slots[i]
                    },
            ),
            ack_timeouts: self.ack_timeouts.wrapping_add(1),
            unclean_total: if self.diag {
                self.unclean_total.wrapping_add(1)
            } else {
                self.unclean_total
            },
            ..self
        }
    }

    /// Processors that count for the quarantine where `count` are online.
    pub open spec fn online(self, count: u32) -> int {
        if count == 0 {
            1
        } else if count > self.slots.len() {
            self.slots.len() as int
        } else {
            count as int
        }
    }

    /// After the timer interrupt of `cpu` at tick `tick` was noted.
    pub open spec fn ticked(self, cpu: u64, tick: u64) -> TlbView {
        if self.knows(cpu) {
            TlbView { last_tick: self.last_tick.update(cpu as int, tick), ..self }
        } else {
            self
        }
    }

    /// Entries that went in before this tick may leave.
    pub open spec fn grace(self, count: u32) -> u64 {
        min_tick(self.last_tick, self.online(count))
    }

    /// What the timer interrupt of `cpu` lets out of the quarantine.
    pub open spec fn released_by(self, cpu: u64, count: u32, tick: u64) -> Seq<QuarantineEntry> {
        older(self.quarantine, self.ticked(cpu, tick).grace(count))
    }

    /// After the timer interrupt of `cpu`.
    pub open spec fn after_tick(self, cpu: u64, count: u32, tick: u64) -> TlbView {
        let s = self.ticked(cpu, tick);
        TlbView {
            quarantine: not_older(s.quarantine, s.grace(count)),
            quarantine_released: s.quarantine_released.wrapping_add(
                self.released_by(cpu, count, tick).len() as u64,
            ),
            ..s
        }
    }

    /// After the frame of `phys` was put into quarantine at tick `tick`, where there
    /// is room.
    pub open spec fn after_quarantine(self, phys: u64, tick: u64) -> TlbView {
        if phys == 0 || self.quarantine.len() >= QUARANTINE_CAPACITY {
            self
        } else {
            TlbView {
                quarantine: self.quarantine.push(QuarantineEntry { phys, enqueue_tick: tick }),
                quarantine_deferred: self.quarantine_deferred.wrapping_add(1),
                ..self
            }
        }
    }
}

impl Tlb {
    /// The state of a machine with room for `max_cpus` processors, of which one runs.
    pub fn new(max_cpus: u64, diag: bool, shootdown_off: bool) -> (r: Tlb)
        requires
            1 <= max_cpus <= MASK_BITS,
        ensures
            r@.wf(),
            r@ == (TlbView {
                smp_active: false,
                shootdown_off,
                diag,
                slots: Seq::new(
                    max_cpus as nat,
                    |i: int| ShootdownSlot { cr3: 0, va_lo: 0, va_hi: 0, pending: false },
                ),
                done: Seq::new(max_cpus as nat, |i: int| false),
                active: Map::empty(),
                quarantine: Seq::empty(),
                last_tick: Seq::new(max_cpus as nat, |i: int| 0u64),
                shootdowns_sent: 0,
                ipis_sent: 0,
                ack_timeouts: 0,
                shootdowns_handled: 0,
                quarantine_deferred: 0,
                quarantine_released: 0,
                clean_ack_late: 0,
                unclean_total: 0,
            }),
    {
        let mut slots: Vec<ShootdownSlot> = Vec::new();
        let mut done: Vec<bool> = Vec::new();
        let mut last_tick: Vec<u64> = Vec::new();
        let mut i: u64 = 0;
        while i < max_cpus
            invariant
                i <= max_cpus,
                slots@ == Seq::new(
                    i as nat,
                    |j: int| ShootdownSlot { cr3: 0, va_lo: 0, va_hi: 0, pending: false },
                ),
                done@ == Seq::new(i as nat, |j: int| false),
                last_tick@ == Seq::new(i as nat, |j: int| 0u64),
            decreases max_cpus - i,
        {
            slots.push(ShootdownSlot { cr3: 0, va_lo: 0, va_hi: 0, pending: false });
            done.push(false);
            last_tick.push(0);
            i = i + 1;
        }
        Tlb {
            smp_active: false,
            shootdown_off,
            diag,
            slots,
            done,
            active: BTreeMap::new(),
            quarantine: Vec::new(),
            last_tick,
            shootdowns_sent: 0,
            ipis_sent: 0,
            ack_timeouts: 0,
            shootdowns_handled: 0,
            quarantine_deferred: 0,
            quarantine_released: 0,
            clean_ack_late: 0,
            unclean_total: 0,
        }
    }
}

/// Notes that more than one processor runs.
pub fn mark_smp_active(t: &mut Tlb)
    ensures
        final(t)@ == (TlbView { smp_active: true, ..old(t)@ }),
{
    t.smp_active = true;
}

/// A further processor notes that it runs, before it takes interrupts.
pub fn mark_self_smp_online(t: &mut Tlb)
    ensures
        final(t)@ == (TlbView { smp_active: true, ..old(t)@ }),
{
    t.smp_active = true;
}

/// Notes that processor `cpu` has just loaded `cr3`.
pub fn note_cr3_load(t: &mut Tlb, cr3: u64, cpu: u64)
    requires
        old(t)@.wf(),
    ensures
        final(t)@.wf(),
        final(t)@ == old(t)@.after_load(cr3, cpu),
{
    let ncpus: usize = t.slots.len();
    if cr3 == 0 || cpu >= ncpus as u64 {
        return;
    }
    let mask: u64 = snapshot_active_mask(t, cr3);
    proof {
        broadcast use vstd::std_specs::btree::group_btree_axioms;
    }
    t.active.insert(cr3, mask | (1u64 << cpu));
    assert(t@ =~= old(t)@.after_load(cr3, cpu));
}

/// Notes that processor `cpu` is about to leave `cr3`.
pub fn note_cr3_unload(t: &mut Tlb, cr3: u64, cpu: u64)
    requires
        old(t)@.wf(),
    ensures
        final(t)@.wf(),
        final(t)@ == old(t)@.after_unload(cr3, cpu),
{
    let ncpus: usize = t.slots.len();
    if cr3 == 0 || cpu >= ncpus as u64 {
        return;
    }
    proof {
        broadcast use vstd::std_specs::btree::group_btree_axioms;
    }
    let mask: u64 = match t.active.get(&cr3) {
        Some(m) => *m,
        None => {
            return;
        },
    };
    t.active.insert(cr3, mask & !(1u64 << cpu));
    assert(t@ =~= old(t)@.after_unload(cr3, cpu));
}

/// Forgets the address space with the root `cr3`, which no processor has loaded.
pub fn forget_cr3(t: &mut Tlb, cr3: u64)
    requires
        old(t)@.wf(),
        old(t)@.mask_of(cr3) == 0,
    ensures
        final(t)@.wf(),
        final(t)@ == (if cr3 == 0 {
            old(t)@
        } else {
            TlbView { active: old(t)@.active.remove(cr3), ..old(t)@ }
        }),
        cr3 != 0 ==> !final(t)@.active.contains_key(cr3),
        forall|k: u64| k != cr3 ==> #[trigger] final(t)@.mask_of(k) == old(t)@.mask_of(k),
{
    if cr3 == 0 {
        return;
    }
    proof {
        broadcast use vstd::std_specs::btree::group_btree_axioms;
    }
    let _was: Option<u64> = t.active.remove(&cr3);
}

/// Mask of the processors that have `cr3` loaded; nothing for an unknown root.
pub fn snapshot_active_mask(t: &Tlb, cr3: u64) -> (mask: u64)
    ensures
        mask == t@.mask_of(cr3),
{
    if cr3 == 0 {
        return 0;
    }
    proof {
        broadcast use vstd::std_specs::btree::group_btree_axioms;
    }
    match t.active.get(&cr3) {
        Some(m) => *m,
        None => 0,
    }
}

/// What to invalidate locally for the range from `va_lo` up to `va_hi`.
pub fn local_invlpg_range(va_lo: u64, va_hi: u64) -> (r: Flush)
    requires
        va_hi <= u64::MAX - 0xFFF,
    ensures
        r.covers(va_lo, va_hi),
{
    let lo: u64 = va_lo - va_lo % 4096;
    let hi: u64 = (va_hi + 0xFFF) / 4096 * 4096;
    let pages: u64 = hi.saturating_sub(lo) / 4096;
    if pages > FULL_FLUSH_PAGES_THRESHOLD {
        return Flush::All;
    }
    let mut list: Vec<u64> = Vec::new();
    let mut i: u64 = 0;
    while i < pages
        invariant
            i <= pages,
            pages <= 32,
            lo == range_start(va_lo),
            pages == range_pages(va_lo, va_hi),
            pages > 0 ==> lo + pages * 4096 <= u64::MAX,
            list@ == Seq::new(i as nat, |j: int| (range_start(va_lo) + j * 4096) as u64),
        decreases pages - i,
    {
        list.push(lo + i * 4096);
        i = i + 1;
    }
    Flush::Pages(list)
}

/// A sender that waits for the answers of other processors.
pub struct AckWait {
    pub self_cpu: u64,
    /// Everyone that was asked.
    pub targets: Vec<u64>,
    /// Those that have not answered yet.
    pub remaining: Vec<u64>,
    /// Looks that were taken in vain.
    pub iters: u32,
}

impl AckWait {
    /// The processors exist, and there is something left to wait for.
    pub open spec fn wf(self, ncpus: nat) -> bool {
        &&& self.iters < ACK_BOUND
        &&& self.remaining@.len() > 0
        &&& forall|i: int| 0 <= i < self.remaining@.len() ==> #[trigger] self.remaining@[i] < ncpus
        &&& forall|i: int| 0 <= i < self.targets@.len() ==> #[trigger] self.targets@[i] < ncpus
    }
}

/// What a sender does next.
pub struct Shootdown {
    /// What it invalidates itself.
    pub local: Flush,
    /// Whom it signals and then waits for; nobody: every translation is gone.
    pub wait: Option<AckWait>,
}

impl Shootdown {
    /// It is how processor `self_cpu` invalidates the range from `va_lo` up to `va_hi` in
    /// the address space with the root `cr3`: it does so itself, and waits for every other
    /// processor that runs there.
    pub open spec fn invalidates(
        self,
        t: TlbView,
        cr3: u64,
        va_lo: u64,
        va_hi: u64,
        self_cpu: u64,
    ) -> bool {
        let cpus = t.targets(cr3, self_cpu);
        &&& self.local.covers(va_lo, va_hi)
        &&& self.wait is None <==> cpus.len() == 0
        &&& self.wait is Some ==> {
            &&& self.wait->0.wf(t.slots.len())
            &&& self.wait->0.self_cpu == self_cpu
            &&& self.wait->0.targets@ == cpus
            &&& self.wait->0.remaining@ == cpus
            &&& self.wait->0.iters == 0
        }
    }
}

/// What one look at the answers found.
pub struct AckPoll {
    /// What another processor asked of the sender meanwhile.
    pub own: Service,
    /// Everyone has answered (true), the time is up (false), or neither yet.
    pub verdict: Option<bool>,
}

/// What a processor found in its slot.
pub struct Service {
    /// There is a request, which waits for an answer.
    pub claimed: bool,
    /// What to invalidate before the answer; nothing where the processor has left the
    /// address space.
    pub flush: Option<Flush>,
}

impl Service {
    /// It is what processor `cpu`, which runs on `cur_cr3`, finds in its slot.
    pub open spec fn meets(self, t: TlbView, cpu: u64, cur_cr3: u64) -> bool {
        let slot = t.slots[cpu as int];
        &&& self.claimed <==> t.knows(cpu) && slot.pending
        &&& self.flush is Some <==> self.claimed && cur_cr3 == slot.cr3
        &&& self.flush is Some ==> self.flush->0.covers(slot.va_lo, slot.va_hi)
    }
}

/// The processors of a mask are below the bound, ascending, and exactly those in it.
pub proof fn lemma_cpus_of(mask: u64, but: u64, n: nat)
    requires
        n <= MASK_BITS,
    ensures
        cpus_of(mask, but, n).len() <= n,
        forall|i: int|
            0 <= i < cpus_of(mask, but, n).len() ==> #[trigger] cpus_of(mask, but, n)[i] < n,
        forall|cpu: u64|
            #[trigger] cpus_of(mask, but, n).contains(cpu) <==> cpu < n && cpu != but && in_mask(mask, cpu),
    decreases n,
{
    if n > 0 {
        lemma_cpus_of(mask, but, (n - 1) as nat);
        let before = cpus_of(mask, but, (n - 1) as nat);
        let all = cpus_of(mask, but, n);
        let last = (n - 1) as u64;
        assert forall|cpu: u64| all.contains(cpu) <==> cpu < n && cpu != but && in_mask(mask, cpu) by {
            assert(before.contains(cpu) <==> cpu < n - 1 && cpu != but && in_mask(mask, cpu));
            if last != but && in_mask(mask, last) {
                assert(all == before.push(last));
                assert(all[before.len() as int] == last);
                if before.contains(cpu) {
                    let i = choose|i: int| 0 <= i < before.len() && before[i] == cpu;
                    assert(all[i] == cpu);
                }
                if all.contains(cpu) && cpu != last {
                    let i = choose|i: int| 0 <= i < all.len() && all[i] == cpu;
                    assert(before[i] == cpu);
                }
            } else {
                assert(all == before);
            }
        }
    }
}

/// The processors that a request of `self_cpu` about `cr3` goes to.
pub fn shootdown_targets(t: &Tlb, cr3: u64, self_cpu: u64) -> (r: Vec<u64>)
    requires
        t@.wf(),
    ensures
        r@ == t@.targets(cr3, self_cpu),
{
    let mut list: Vec<u64> = Vec::new();
    let ncpus: usize = t.slots.len();
    if !t.smp_active || t.shootdown_off || self_cpu >= ncpus as u64 {
        return list;
    }
    let mask: u64 = snapshot_active_mask(t, cr3);
    let mut cpu: u64 = 0;
    while cpu < ncpus as u64
        invariant
            ncpus <= 64,
            cpu <= ncpus,
            list@ == cpus_of(mask, self_cpu, cpu as nat),
        decreases ncpus - cpu,
    {
        if cpu != self_cpu && (mask >> cpu) & 1 == 1 {
            list.push(cpu);
        }
        cpu = cpu + 1;
    }
    list
}

/// Puts the request into the slot of each of `cpus` and counts it.
pub fn publish(t: &mut Tlb, cpus: &Vec<u64>, cr3: u64, va_lo: u64, va_hi: u64)
    requires
        old(t)@.wf(),
        va_hi <= u64::MAX - 0xFFF,
        forall|i: int| 0 <= i < cpus@.len() ==> #[trigger] cpus@[i] < old(t)@.slots.len(),
    ensures
        final(t)@.wf(),
        final(t)@ == old(t)@.published(cpus@, cr3, va_lo, va_hi),
{
    let n: usize = cpus.len();
    if n == 0 {
        return;
    }
    let mut k: usize = 0;
    while k < n
        invariant
            n == cpus@.len(),
            k <= n,
            old(t)@.wf(),
            va_hi <= u64::MAX - 0xFFF,
            forall|i: int| 0 <= i < cpus@.len() ==> #[trigger] cpus@[i] < old(t)@.slots.len(),
            t@ == (TlbView { slots: t@.slots, done: t@.done, ..old(t)@ }),
            t@.slots.len() == old(t)@.slots.len(),
            t@.done.len() == old(t)@.done.len(),
            forall|i: int| 0 <= i < t@.slots.len() ==> #[trigger] t@.slots[i] == (
            if cpus@.take(k as int).contains(i as u64) {
                ShootdownSlot { cr3, va_lo, va_hi, pending: true }
            } else {
                old(t)@.slots[i]
            }),
            forall|i: int| 0 <= i < t@.done.len() ==> #[trigger] t@.done[i] == (
            if old(t)@.diag && cpus@.take(k as int).contains(i as u64) {
                false
            } else {
                old(t)@.done[i]
            }),
        decreases n - k,
    {
        let cpu: u64 = cpus[k];
        let _len: usize = t.slots.len();
        let _dlen: usize = t.done.len();
        let ghost before = t@;
        t.slots.set(cpu as usize, ShootdownSlot { cr3, va_lo, va_hi, pending: true });
        if t.diag {
            t.done.set(cpu as usize, false);
        }
        proof {
            let ghost now = cpus@.take(k as int);
            let ghost next = cpus@.take(k + 1);
            assert(next =~= now.push(cpu));
            assert forall|x: u64| next.contains(x) <==> x == cpu || now.contains(x) by {
                if x == cpu {
                    assert(next[k as int] == x);
                }
                if now.contains(x) {
                    let i = choose|i: int| 0 <= i < now.len() && now[i] == x;
                    assert(next[i] == x);
                }
                if next.contains(x) && x != cpu {
                    let i = choose|i: int| 0 <= i < next.len() && next[i] == x;
                    assert(now[i] == x);
                }
            }
        }
        k = k + 1;
    }
    assert(cpus@.take(n as int) =~= cpus@);
    t.shootdowns_sent = t.shootdowns_sent.wrapping_add(1);
    t.ipis_sent = t.ipis_sent.wrapping_add(n as u64);
    proof {
        assert(t@ =~= old(t)@.published(cpus@, cr3, va_lo, va_hi));
    }
}

/// Starts the invalidation of the range from `va_lo` up to `va_hi` in the address
/// space with the root `cr3`: the other processors that have it loaded find the
/// request in their slots.
///
/// The caller invalidates locally, then signals every processor in `wait`, if any,
/// on [`TLB_SHOOTDOWN_VECTOR`], and calls [`poll_acks`] until that gives a verdict.
pub fn shootdown_range(t: &mut Tlb, cr3: u64, va_lo: u64, va_hi: u64, self_cpu: u64) -> (r: Shootdown)
    requires
        old(t)@.wf(),
        va_hi <= u64::MAX - 0xFFF,
    ensures
        final(t)@.wf(),
        final(t)@ == old(t)@.published(old(t)@.targets(cr3, self_cpu), cr3, va_lo, va_hi),
        r.invalidates(old(t)@, cr3, va_lo, va_hi, self_cpu),
{
    let local = local_invlpg_range(va_lo, va_hi);
    let targets = shootdown_targets(t, cr3, self_cpu);
    proof {
        lemma_cpus_of(t@.mask_of(cr3), self_cpu, t@.slots.len());
    }
    publish(t, &targets, cr3, va_lo, va_hi);
    if targets.len() == 0 {
        return Shootdown { local, wait: None };
    }
    let mut remaining: Vec<u64> = Vec::new();
    let mut k: usize = 0;
    while k < targets.len()
        invariant
            k <= targets@.len(),
            remaining@ == targets@.take(k as int),
        decreases targets@.len() - k,
    {
        remaining.push(targets[k]);
        assert(targets@.take(k + 1) =~= targets@.take(k as int).push(targets@[k as int]));
        k = k + 1;
    }
    assert(remaining@ =~= targets@);
    Shootdown { local, wait: Some(AckWait { self_cpu, targets, remaining, iters: 0 }) }
}

/// Starts the invalidation of the page of `va`.
pub fn shootdown_page(t: &mut Tlb, cr3: u64, va: u64, self_cpu: u64) -> (r: Shootdown)
    requires
        old(t)@.wf(),
        va < 0xFFFF_FFFF_FFFF_F000,
    ensures
        final(t)@.wf(),
        final(t)@ == old(t)@.published(
            old(t)@.targets(cr3, self_cpu),
            cr3,
            (va - va % 4096) as u64,
            (va - va % 4096 + 4096) as u64,
        ),
        r.local matches Flush::Pages(pages) && pages@ == seq![(va - va % 4096) as u64],
        r.wait is None <==> old(t)@.targets(cr3, self_cpu).len() == 0,
        r.wait is Some ==> {
            &&& r.wait->0.wf(final(t)@.slots.len())
            &&& r.wait->0.self_cpu == self_cpu
            &&& r.wait->0.targets@ == old(t)@.targets(cr3, self_cpu)
            &&& r.wait->0.remaining@ == old(t)@.targets(cr3, self_cpu)
            &&& r.wait->0.iters == 0
        },
{
    let lo: u64 = va - va % 4096;
    let r = shootdown_range(t, cr3, lo, lo + 0x1000, self_cpu);
    proof {
        assert(range_pages(lo, (lo + 0x1000) as u64) == 1);
        assert(r.local is Pages);
        assert(r.local->Pages_0@ =~= seq![lo]);
    }
    r
}

/// Starts the invalidation of the whole user half.
pub fn shootdown_full_user(t: &mut Tlb, cr3: u64, self_cpu: u64) -> (r: Shootdown)
    requires
        old(t)@.wf(),
    ensures
        final(t)@.wf(),
        final(t)@ == old(t)@.published(old(t)@.targets(cr3, self_cpu), cr3, 0, USER_HALF_END),
        r.local is All,
        forall|cpu: u64|
            old(t)@.targets(cr3, self_cpu).contains(cpu) && cpu < old(t)@.slots.len() ==> {
                let slot = #[trigger] final(t)@.slots[cpu as int];
                slot.va_lo == 0 && slot.va_hi == 0x8000_0000_0000 && slot.cr3 == cr3 && slot.pending
            },
        r.wait is None <==> old(t)@.targets(cr3, self_cpu).len() == 0,
        r.wait is Some ==> {
            &&& r.wait->0.wf(final(t)@.slots.len())
            &&& r.wait->0.self_cpu == self_cpu
            &&& r.wait->0.targets@ == old(t)@.targets(cr3, self_cpu)
            &&& r.wait->0.remaining@ == old(t)@.targets(cr3, self_cpu)
            &&& r.wait->0.iters == 0
        },
{
    shootdown_range(t, cr3, 0, USER_HALF_END, self_cpu)
}

/// Processor `cpu`, which runs on `cur_cr3`, looks at its slot: whether there is a request,
/// and what to invalidate for it where the root still is the one meant.
///
/// The request stays unanswered.  Once the caller has carried out `flush`, it calls
/// [`acknowledge_slot`].
pub fn claim_slot(t: &Tlb, cpu: u64, cur_cr3: u64) -> (r: Service)
    requires
        t@.wf(),
    ensures
        r.meets(t@, cpu, cur_cr3),
{
    let ncpus: usize = t.slots.len();
    if cpu >= ncpus as u64 {
        return Service { claimed: false, flush: None };
    }
    let slot: ShootdownSlot = t.slots[cpu as usize];
    if !slot.pending {
        return Service { claimed: false, flush: None };
    }
    let flush = if cur_cr3 == slot.cr3 {
        Some(local_invlpg_range(slot.va_lo, slot.va_hi))
    } else {
        None
    };
    Service { claimed: true, flush }
}

/// Processor `cpu` has carried out what [`claim_slot`] told it: the request is answered,
/// the done flag goes up, and the request is counted.  Says whether there was one.
pub fn acknowledge_slot(t: &mut Tlb, cpu: u64) -> (r: bool)
    requires
        old(t)@.wf(),
    ensures
        final(t)@.wf(),
        final(t)@ == old(t)@.after_service(cpu),
        r == (old(t)@.knows(cpu) && old(t)@.slots[cpu as int].pending),
{
    let ncpus: usize = t.slots.len();
    let dlen: usize = t.done.len();
    assert(dlen == ncpus);
    if cpu >= ncpus as u64 {
        return false;
    }
    let slot: ShootdownSlot = t.slots[cpu as usize];
    if !slot.pending {
        return false;
    }
    t.slots.set(
        cpu as usize,
        ShootdownSlot { cr3: slot.cr3, va_lo: slot.va_lo, va_hi: slot.va_hi, pending: false },
    );
    if t.diag {
        t.done.set(cpu as usize, true);
    }
    t.shootdowns_handled = t.shootdowns_handled.wrapping_add(1);
    assert(t@ =~= old(t)@.after_service(cpu));
    true
}

/// The signal of another processor has come: what it wants to be invalidated, if anything.
///
/// The caller invalidates, then calls [`acknowledge_slot`] where a request was found, and
/// acknowledges the interrupt last.  A signal without a request asks for nothing.
pub fn handle_shootdown_ipi(t: &Tlb, cpu: u64, cur_cr3: u64) -> (r: Service)
    requires
        t@.wf(),
    ensures
        r.meets(t@, cpu, cur_cr3),
{
    claim_slot(t, cpu, cur_cr3)
}

proof fn lemma_unanswered_bounds(slots: Seq<ShootdownSlot>, cpus: Seq<u64>, n: nat)
    requires
        forall|i: int| 0 <= i < cpus.len() ==> #[trigger] cpus[i] < n,
    ensures
        unanswered(slots, cpus).len() <= cpus.len(),
        forall|i: int|
            0 <= i < unanswered(slots, cpus).len() ==> #[trigger] unanswered(slots, cpus)[i] < n,
    decreases cpus.len(),
{
    if cpus.len() > 0 {
        lemma_unanswered_bounds(slots, cpus.drop_last(), n);
    }
}

/// Clears the slots of the processors that did not answer in time and counts it.
fn give_up(t: &mut Tlb, cpus: &Vec<u64>)
    requires
        old(t)@.wf(),
        forall|i: int| 0 <= i < cpus@.len() ==> #[trigger] cpus@[i] < old(t)@.slots.len(),
    ensures
        final(t)@.wf(),
        final(t)@ == old(t)@.after_timeout(cpus@),
{
    t.ack_timeouts = t.ack_timeouts.wrapping_add(1);
    if t.diag {
        t.unclean_total = t.unclean_total.wrapping_add(1);
    }
    let ghost mid = t@;
    let n: usize = cpus.len();
    let mut k: usize = 0;
    while k < n
        invariant
            n == cpus@.len(),
            k <= n,
            mid.wf(),
            mid.slots == old(t)@.slots,
            forall|i: int| 0 <= i < cpus@.len() ==> #[trigger] cpus@[i] < mid.slots.len(),
            t@ == (TlbView { slots: t@.slots, ..mid }),
            t@.slots.len() == mid.slots.len(),
            forall|i: int| 0 <= i < t@.slots.len() ==> #[trigger] t@.slots[i] == (
            if cpus@.take(k as int).contains(i as u64) {
                ShootdownSlot { pending: false, ..mid.slots[i] }
            } else {
                mid.slots[i]
            }),
        decreases n - k,
    {
        let cpu: u64 = cpus[k];
        let _len: usize = t.slots.len();
        let slot: ShootdownSlot = t.slots[cpu as usize];
        t.slots.set(
            cpu as usize,
            ShootdownSlot { cr3: slot.cr3, va_lo: slot.va_lo, va_hi: slot.va_hi, pending: false },
        );
        proof {
            let ghost now = cpus@.take(k as int);
            let ghost next = cpus@.take(k + 1);
            assert(next =~= now.push(cpu));
            assert forall|x: u64| next.contains(x) <==> x == cpu || now.contains(x) by {
                if x == cpu {
                    assert(next[k as int] == x);
                }
                if now.contains(x) {
                    let i = choose|i: int| 0 <= i < now.len() && now[i] == x;
                    assert(next[i] == x);
                }
                if next.contains(x) && x != cpu {
                    let i = choose|i: int| 0 <= i < next.len() && next[i] == x;
                    assert(now[i] == x);
                }
            }
        }
        k = k + 1;
    }
    assert(cpus@.take(n as int) =~= cpus@);
    assert(t@ =~= old(t)@.after_timeout(cpus@));
}

/// The sender, which runs on `cur_cr3`, looks once at the slots that it waits for.
///
/// It looks at its own slot first: two senders that wait for each other with interrupts
/// off would else never answer.  The caller carries out `own` and answers it with
/// [`acknowledge_slot`] before it looks again, and also after the last look.
pub fn poll_acks(t: &mut Tlb, w: &mut AckWait, cur_cr3: u64) -> (r: AckPoll)
    requires
        old(t)@.wf(),
        old(w).wf(old(t)@.slots.len()),
    ensures
        final(t)@.wf(),
        final(w).self_cpu == old(w).self_cpu,
        final(w).targets@ == old(w).targets@,
        ({
            let still = unanswered(old(t)@.slots, old(w).remaining@);
            &&& r.own.meets(old(t)@, old(w).self_cpu, cur_cr3)
            &&& final(w).remaining@ == still
            &&& r.verdict == (if still.len() == 0 {
                Some(true)
            } else if old(w).iters + 1 == ACK_BOUND {
                Some(false)
            } else {
                None
            })
            &&& final(t)@ == (if r.verdict == Some(false) {
                old(t)@.after_timeout(still)
            } else {
                old(t)@
            })
        }),
        r.verdict == Some(false) ==> old(w).iters + 1 == 10_000_000,
        r.verdict == Some(true) ==> forall|i: int|
            0 <= i < old(w).remaining@.len() ==> !old(t)@.slots[(
            #[trigger] old(w).remaining@[i]) as int].pending,
        r.verdict is None ==> final(w).wf(final(t)@.slots.len()) && final(w).iters == old(w).iters
            + 1,
{
    let own = claim_slot(t, w.self_cpu, cur_cr3);
    let mut still: Vec<u64> = Vec::new();
    let n: usize = w.remaining.len();
    let mut k: usize = 0;
    let ncpus: usize = t.slots.len();
    proof {
        lemma_unanswered_bounds(t@.slots, w.remaining@, ncpus as nat);
    }
    while k < n
        invariant
            n == w.remaining@.len(),
            k <= n,
            t@.slots.len() == ncpus,
            forall|i: int| 0 <= i < n ==> #[trigger] w.remaining@[i] < ncpus,
            still@ == unanswered(t@.slots, w.remaining@.take(k as int)),
        decreases n - k,
    {
        let cpu: u64 = w.remaining[k];
        let _len: usize = t.slots.len();
        assert(w.remaining@.take(k + 1).drop_last() =~= w.remaining@.take(k as int));
        if t.slots[cpu as usize].pending {
            still.push(cpu);
        }
        k = k + 1;
    }
    assert(w.remaining@.take(n as int) =~= w.remaining@);
    if still.len() == 0 {
        proof {
            assert forall|i: int| 0 <= i < w.remaining@.len() implies !t@.slots[(
            #[trigger] w.remaining@[i]) as int].pending by {
                lemma_unanswered(t@.slots, w.remaining@, w.remaining@[i]);
            }
        }
        w.remaining = still;
        return AckPoll { own, verdict: Some(true) };
    }
    if w.iters + 1 == ACK_BOUND {
        give_up(t, &still);
        w.remaining = still;
        return AckPoll { own, verdict: Some(false) };
    }
    w.iters = w.iters + 1;
    w.remaining = still;
    AckPoll { own, verdict: None }
}

/// A sender, whom everyone has answered, looks at the done flags of those it asked.
pub struct DoneWait {
    /// Those whose flag has not been seen up.
    pub remaining: Vec<u64>,
    /// Looks that were taken in vain.
    pub iters: u32,
}

impl DoneWait {
    /// The processors exist, and looks are left.
    pub open spec fn wf(self, ncpus: nat) -> bool {
        &&& self.iters < DONE_BOUND
        &&& forall|i: int| 0 <= i < self.remaining@.len() ==> #[trigger] self.remaining@[i] < ncpus
    }
}

/// What a sender does once everyone that it asked has answered: where the done flags are
/// kept, it looks with [`poll_done`] whether all have invalidated.
pub fn await_done(t: &Tlb, w: AckWait) -> (r: Option<DoneWait>)
    requires
        forall|i: int| 0 <= i < w.targets@.len() ==> #[trigger] w.targets@[i] < t@.slots.len(),
    ensures
        r is Some <==> t@.diag,
        r matches Some(d) ==> {
            &&& d.remaining@ == w.targets@
            &&& d.iters == 0
            &&& d.wf(t@.slots.len())
        },
{
    if t.diag {
        Some(DoneWait { remaining: w.targets, iters: 0 })
    } else {
        None
    }
}

/// The sender looks once at the done flags of those that are left.  Gives back who is late
/// once nobody is left or the looks are used up; a request with late ones is counted.
pub fn poll_done(t: &mut Tlb, w: &mut DoneWait) -> (late: Option<Vec<u64>>)
    requires
        old(t)@.wf(),
        old(w).wf(old(t)@.slots.len()),
    ensures
        final(t)@.wf(),
        ({
            let still = not_done(old(t)@.done, old(w).remaining@);
            let over = still.len() == 0 || old(w).iters + 1 == DONE_BOUND;
            &&& final(w).remaining@ == still
            &&& late is Some <==> over
            &&& late matches Some(l) ==> l@ == still
            &&& !over ==> final(w).wf(final(t)@.slots.len()) && final(w).iters == old(w).iters + 1
            &&& final(t)@ == (if over && still.len() > 0 {
                TlbView { clean_ack_late: old(t)@.clean_ack_late.wrapping_add(1), ..old(t)@ }
            } else {
                old(t)@
            })
        }),
{
    let mut still: Vec<u64> = Vec::new();
    let n: usize = w.remaining.len();
    let ncpus: usize = t.slots.len();
    let mut k: usize = 0;
    proof {
        lemma_not_done_bounds(t@.done, w.remaining@, ncpus as nat);
    }
    while k < n
        invariant
            n == w.remaining@.len(),
            k <= n,
            t@.wf(),
            t@.slots.len() == ncpus,
            forall|i: int| 0 <= i < n ==> #[trigger] w.remaining@[i] < ncpus,
            still@ == not_done(t@.done, w.remaining@.take(k as int)),
        decreases n - k,
    {
        let cpu: u64 = w.remaining[k];
        let _len: usize = t.done.len();
        assert(w.remaining@.take(k + 1).drop_last() =~= w.remaining@.take(k as int));
        if !t.done[cpu as usize] {
            still.push(cpu);
        }
        k = k + 1;
    }
    assert(w.remaining@.take(n as int) =~= w.remaining@);
    let left: bool = still.len() > 0;
    w.remaining = still.clone();
    assert(w.remaining@ =~= still@);
    if !left {
        return Some(still);
    }
    if w.iters + 1 == DONE_BOUND {
        t.clean_ack_late = t.clean_ack_late.wrapping_add(1);
        return Some(still);
    }
    w.iters = w.iters + 1;
    None
}

proof fn lemma_not_done_bounds(done: Seq<bool>, cpus: Seq<u64>, n: nat)
    requires
        forall|i: int| 0 <= i < cpus.len() ==> #[trigger] cpus[i] < n,
    ensures
        forall|i: int|
            0 <= i < not_done(done, cpus).len() ==> #[trigger] not_done(done, cpus)[i] < n,
    decreases cpus.len(),
{
    if cpus.len() > 0 {
        lemma_not_done_bounds(done, cpus.drop_last(), n);
        let before = not_done(done, cpus.drop_last());
        assert forall|i: int| 0 <= i < not_done(done, cpus).len() implies #[trigger] not_done(
            done,
            cpus,
        )[i] < n by {
            if i < before.len() {
                assert(before[i] < n);
            } else {
                assert(cpus[cpus.len() - 1] < n);
            }
        }
    }
}

/// Keeps the frame of `phys` back until every processor has had a timer tick after
/// `tick`.  Where the quarantine is full the frame is freed at once.
pub fn quarantine_free(t: &mut Tlb, f: &mut Frames, phys: u64, tick: u64) -> (verdict: Option<FreeVerdict>)
    requires
        old(t)@.wf(),
        old(f).wf(),
    ensures
        final(t)@.wf(),
        final(f).wf(),
        final(t)@ == old(t)@.after_quarantine(phys, tick),
        final(f)@ == (if phys != 0 && old(t)@.quarantine.len() >= QUARANTINE_CAPACITY {
            old(f)@.after_free(phys, tick)
        } else {
            old(f)@
        }),
        verdict == (if phys != 0 && old(t)@.quarantine.len() >= QUARANTINE_CAPACITY {
            Some(
                old(f)@.pmm.free_verdict(
                    phys,
                    old(f)@.refs.count(phys),
                    old(f)@.pins.count(phys) > 0,
                ),
            )
        } else {
            None
        }),
{
    if phys == 0 {
        return None;
    }
    if (t.quarantine.len() as u64) < QUARANTINE_CAPACITY {
        t.quarantine.push(QuarantineEntry { phys, enqueue_tick: tick });
        t.quarantine_deferred = t.quarantine_deferred.wrapping_add(1);
        assert(t@ =~= old(t)@.after_quarantine(phys, tick));
        None
    } else {
        let verdict = free_page(f, phys, tick);
        Some(verdict)
    }
}

/// The state after the frames, whose mappings are gone, were let go one after the other at
/// tick `now`: freed where every processor has dropped its translations (`clean`), else put
/// into quarantine, and freed only where that is full.
pub open spec fn after_letting_go(
    f: FramesView,
    t: TlbView,
    frames: Seq<u64>,
    clean: bool,
    now: u64,
) -> (FramesView, TlbView)
    decreases frames.len(),
{
    if frames.len() == 0 {
        (f, t)
    } else {
        let (f1, t1) = after_letting_go(f, t, frames.drop_last(), clean, now);
        let phys = frames.last();
        if clean || phys != 0 && t1.quarantine.len() >= QUARANTINE_CAPACITY {
            (f1.after_free(phys, now), t1)
        } else {
            (f1, t1.after_quarantine(phys, now))
        }
    }
}

/// Lets go of frames that lost their last mapping, once the invalidation of those mappings
/// has come to an end.  `clean` says how: every processor has answered, and the frames are
/// freed; or the time was up, and they are kept back by [`quarantine_free`].
pub fn release_frames(f: &mut Frames, t: &mut Tlb, frames: &Vec<u64>, clean: bool, now: u64)
    requires
        old(f).wf(),
        old(t)@.wf(),
    ensures
        final(f).wf(),
        final(t)@.wf(),
        (final(f)@, final(t)@) == after_letting_go(old(f)@, old(t)@, frames@, clean, now),
{
    let mut i: usize = 0;
    assert(frames@.take(0) =~= Seq::empty());
    while i < frames.len()
        invariant
            i <= frames@.len(),
            f.wf(),
            t@.wf(),
            (f@, t@) == after_letting_go(old(f)@, old(t)@, frames@.take(i as int), clean, now),
        decreases frames@.len() - i,
    {
        assert(frames@.take(i + 1).drop_last() =~= frames@.take(i as int));
        if clean {
            let _verdict: FreeVerdict = free_page(f, frames[i], now);
        } else {
            let _verdict: Option<FreeVerdict> = quarantine_free(t, f, frames[i], now);
        }
        i = i + 1;
    }
    assert(frames@.take(i as int) =~= frames@);
}

/// Timer tick `tick` on processor `cpu`, which has flushed its translations just
/// before: the frames that went into quarantine before the last tick of every
/// processor are freed.  `cpu_count` processors are online.
pub fn on_cpu_tick(t: &mut Tlb, f: &mut Frames, cpu: u64, cpu_count: u32, tick: u64, now: u64)
    requires
        old(t)@.wf(),
        old(f).wf(),
    ensures
        final(t)@.wf(),
        final(f).wf(),
        final(t)@ == old(t)@.after_tick(cpu, cpu_count, tick),
        final(f)@ == old(f)@.after_release(old(t)@.released_by(cpu, cpu_count, tick), now),
{
    let ncpus: usize = t.last_tick.len();
    if cpu < ncpus as u64 {
        t.last_tick.set(cpu as usize, tick);
    }
    let ghost s = t@;
    assert(s =~= old(t)@.ticked(cpu, tick));
    let len: usize = t.quarantine.len();
    if len == 0 {
        proof {
            reveal(Seq::filter);
            assert(t@ =~= old(t)@.after_tick(cpu, cpu_count, tick));
        }
        return;
    }
    let count: u64 = if cpu_count == 0 {
        1
    } else if cpu_count as u64 > ncpus as u64 {
        ncpus as u64
    } else {
        cpu_count as u64
    };
    let mut min: u64 = t.last_tick[0];
    let mut i: u64 = 1;
    while i < count
        invariant
            1 <= i <= count,
            count <= t@.last_tick.len(),
            t@.last_tick.len() == ncpus,
            min == min_tick(t@.last_tick, i as int),
        decreases count - i,
    {
        let at: u64 = t.last_tick[i as usize];
        if at < min {
            min = at;
        }
        i = i + 1;
    }
    assert(min == s.grace(cpu_count));
    let mut keep: Vec<QuarantineEntry> = Vec::new();
    let mut gone: Vec<QuarantineEntry> = Vec::new();
    let mut k: usize = 0;
    while k < len
        invariant
            len == t@.quarantine.len(),
            k <= len,
            gone@ == older(t@.quarantine.take(k as int), min),
            keep@ == not_older(t@.quarantine.take(k as int), min),
            keep@.len() + gone@.len() == k,
        decreases len - k,
    {
        let e: QuarantineEntry = t.quarantine[k];
        proof {
            reveal(Seq::filter);
            assert(t@.quarantine.take(k + 1).drop_last() =~= t@.quarantine.take(k as int));
        }
        if e.enqueue_tick < min {
            gone.push(e);
        } else {
            keep.push(e);
        }
        k = k + 1;
    }
    assert(t@.quarantine.take(len as int) =~= t@.quarantine);
    t.quarantine = keep;
    let n: usize = gone.len();
    let mut j: usize = 0;
    while j < n
        invariant
            n == gone@.len(),
            j <= n,
            f.wf(),
            f@ == old(f)@.after_release(gone@.take(j as int), now),
        decreases n - j,
    {
        assert(gone@.take(j + 1).drop_last() =~= gone@.take(j as int));
        let _verdict = free_page(f, gone[j].phys, now);
        j = j + 1;
    }
    assert(gone@.take(n as int) =~= gone@);
    if n > 0 {
        t.quarantine_released = t.quarantine_released.wrapping_add(n as u64);
    }
    assert(t@ =~= old(t)@.after_tick(cpu, cpu_count, tick));
}

/// Puts a request for a root that nobody runs on into the slot of `cpu`, takes it
/// twice, and leaves the slot empty.  Says which of the two calls found it.
pub fn test_self_service_drains_own_slot(t: &mut Tlb, cpu: u64, cur_cr3: u64) -> (r: (bool, bool))
    requires
        old(t)@.wf(),
    ensures
        final(t)@.wf(),
        r == (true, false),
        final(t)@ == (if !old(t)@.knows(cpu) {
            old(t)@
        } else {
            TlbView {
                slots: old(t)@.slots.update(
                    cpu as int,
                    ShootdownSlot { cr3: 0, va_lo: 0, va_hi: 0, pending: false },
                ),
                done: if old(t)@.diag {
                    old(t)@.done.update(cpu as int, true)
                } else {
                    old(t)@.done
                },
                shootdowns_handled: old(t)@.shootdowns_handled.wrapping_add(1),
                ..old(t)@
            }
        }),
{
    let ncpus: usize = t.slots.len();
    let dlen: usize = t.done.len();
    assert(dlen == ncpus);
    if cpu >= ncpus as u64 {
        return (true, false);
    }
    if t.diag {
        t.done.set(cpu as usize, false);
    }
    t.slots.set(
        cpu as usize,
        ShootdownSlot {
            cr3: SELF_SERVICE_TEST_CR3,
            va_lo: 0x4000_0000_0000,
            va_hi: 0x4000_0000_1000,
            pending: true,
        },
    );
    let first = claim_slot(t, cpu, cur_cr3);
    let _ = acknowledge_slot(t, cpu);
    let second = claim_slot(t, cpu, cur_cr3);
    let _ = acknowledge_slot(t, cpu);
    t.slots.set(cpu as usize, ShootdownSlot { cr3: 0, va_lo: 0, va_hi: 0, pending: false });
    proof {
        assert(t@.slots =~= old(t)@.slots.update(
            cpu as int,
            ShootdownSlot { cr3: 0, va_lo: 0, va_hi: 0, pending: false },
        ));
        if t.diag {
            assert(t@.done =~= old(t)@.done.update(cpu as int, true));
        }
    }
    (first.claimed, second.claimed)
}

/// A snapshot of the counters.
#[derive(Clone, Copy, Debug)]
pub struct Stats {
    pub shootdowns_sent: u64,
    pub ipis_sent: u64,
    pub ack_timeouts: u64,
    pub shootdowns_handled: u64,
    pub quarantine_deferred: u64,
    pub quarantine_released: u64,
    pub quarantine_depth: usize,
    pub clean_ack_late: u64,
    pub unclean_total: u64,
}

/// The counters.  The last two stay zero where late invalidations are not looked for.
pub fn stats(t: &Tlb) -> (r: Stats)
    ensures
        r.shootdowns_sent == t@.shootdowns_sent,
        r.ipis_sent == t@.ipis_sent,
        r.ack_timeouts == t@.ack_timeouts,
        r.shootdowns_handled == t@.shootdowns_handled,
        r.quarantine_deferred == t@.quarantine_deferred,
        r.quarantine_released == t@.quarantine_released,
        r.quarantine_depth == t@.quarantine.len(),
        r.clean_ack_late == (if t@.diag { t@.clean_ack_late } else { 0 }),
        r.unclean_total == (if t@.diag { t@.unclean_total } else { 0 }),
{
    Stats {
        shootdowns_sent: t.shootdowns_sent,
        ipis_sent: t.ipis_sent,
        ack_timeouts: t.ack_timeouts,
        shootdowns_handled: t.shootdowns_handled,
        quarantine_deferred: t.quarantine_deferred,
        quarantine_released: t.quarantine_released,
        quarantine_depth: t.quarantine.len(),
        clean_ack_late: if t.diag { t.clean_ack_late } else { 0 },
        unclean_total: if t.diag { t.unclean_total } else { 0 },
    }
}

proof fn lemma_min_tick(ticks: Seq<u64>, n: int)
    requires
        1 <= n <= ticks.len(),
    ensures
        forall|i: int| 0 <= i < n ==> min_tick(ticks, n) <= #[trigger] ticks[i],
    decreases n,
{
    if n > 1 {
        lemma_min_tick(ticks, n - 1);
    }
}

proof fn lemma_mask_bits(mask: u64, a: u64, b: u64)
    by (bit_vector)
    requires
        a < 64,
        b < 64,
    ensures
        ((mask | (1u64 << a)) >> b) & 1 == 1 <==> a == b || (mask >> b) & 1 == 1,
        ((mask & !(1u64 << a)) >> b) & 1 == 1 <==> a != b && (mask >> b) & 1 == 1,
        (0u64 >> b) & 1 == 0,
{
}

proof fn lemma_older(q: Seq<QuarantineEntry>, at: u64, e: QuarantineEntry)
    requires
        older(q, at).contains(e),
    ensures
        q.contains(e),
        e.enqueue_tick < at,
    decreases q.len(),
{
    reveal(Seq::filter);
    if q.len() > 0 {
        let before = older(q.drop_last(), at);
        let all = older(q, at);
        let i = choose|i: int| 0 <= i < all.len() && all[i] == e;
        if i < before.len() {
            assert(before[i] == e);
            lemma_older(q.drop_last(), at, e);
            let j = choose|j: int| 0 <= j < q.drop_last().len() && q.drop_last()[j] == e;
            assert(q[j] == e);
        } else {
            assert(q[q.len() - 1] == e);
        }
    }
}

/// A frame leaves the quarantine only once every online processor has had a timer
/// tick, and with it a flush, after the frame went in.
pub proof fn law_quarantine_waits_for_every_cpu(
    t: TlbView,
    cpu: u64,
    cpu_count: u32,
    tick: u64,
    e: QuarantineEntry,
    other: int,
)
    requires
        t.wf(),
        t.released_by(cpu, cpu_count, tick).contains(e),
        0 <= other < t.online(cpu_count),
    ensures
        t.quarantine.contains(e),
        e.enqueue_tick < t.ticked(cpu, tick).last_tick[other],
{
    let s = t.ticked(cpu, tick);
    lemma_older(t.quarantine, s.grace(cpu_count), e);
    lemma_min_tick(s.last_tick, t.online(cpu_count));
}

/// A tick neither loses nor invents a quarantined frame: each entry is freed or kept.
pub proof fn law_tick_splits_the_quarantine(t: TlbView, cpu: u64, cpu_count: u32, tick: u64)
    requires
        t.wf(),
    ensures
        t.released_by(cpu, cpu_count, tick).to_multiset().add(
            t.after_tick(cpu, cpu_count, tick).quarantine.to_multiset(),
        ) == t.quarantine.to_multiset(),
{
    lemma_split(t.quarantine, t.ticked(cpu, tick).grace(cpu_count));
}

proof fn lemma_split(q: Seq<QuarantineEntry>, at: u64)
    ensures
        older(q, at).to_multiset().add(not_older(q, at).to_multiset()) == q.to_multiset(),
    decreases q.len(),
{
    broadcast use vstd::seq_lib::group_to_multiset_ensures;
    broadcast use vstd::multiset::group_multiset_axioms;
    reveal(Seq::filter);
    if q.len() > 0 {
        lemma_split(q.drop_last(), at);
        assert(q =~= q.drop_last().push(q.last()));
        let e = q.last();
        if e.enqueue_tick < at {
            assert(older(q, at) == older(q.drop_last(), at).push(e));
            assert(not_older(q, at) == not_older(q.drop_last(), at));
        } else {
            assert(not_older(q, at) == not_older(q.drop_last(), at).push(e));
            assert(older(q, at) == older(q.drop_last(), at));
        }
    }
    assert(older(q, at).to_multiset().add(not_older(q, at).to_multiset()) =~= q.to_multiset());
}

/// A processor that loaded a root is asked by every other one, once several run; one
/// that left it is not.
pub proof fn law_requests_reach_who_runs(t: TlbView, cr3: u64, cpu: u64, sender: u64)
    requires
        t.wf(),
        t.knows(cpu),
        t.knows(sender),
        sender != cpu,
        cr3 != 0,
        t.smp_active,
        !t.shootdown_off,
    ensures
        t.after_load(cr3, cpu).targets(cr3, sender).contains(cpu),
        !t.after_unload(cr3, cpu).targets(cr3, sender).contains(cpu),
        !t.targets(cr3, sender).contains(sender),
{
    let a = t.after_load(cr3, cpu);
    let b = t.after_unload(cr3, cpu);
    lemma_cpus_of(a.mask_of(cr3), sender, t.slots.len());
    lemma_cpus_of(b.mask_of(cr3), sender, t.slots.len());
    lemma_cpus_of(t.mask_of(cr3), sender, t.slots.len());
    lemma_mask_bits(t.mask_of(cr3), cpu, cpu);
    assert(a.mask_of(cr3) == t.mask_of(cr3) | (1u64 << cpu));
    assert(in_mask(a.mask_of(cr3), cpu));
    assert(!in_mask(b.mask_of(cr3), cpu));
}

/// Loading a root on one processor changes nothing for another, and unloading it
/// there undoes the load.
pub proof fn law_load_then_unload(t: TlbView, cr3: u64, cpu: u64, other: u64)
    requires
        t.wf(),
        t.knows(cpu),
        t.knows(other),
        cr3 != 0,
    ensures
        other != cpu ==> t.after_load(cr3, cpu).runs(cr3, other) == t.runs(cr3, other),
        t.after_load(cr3, cpu).runs(cr3, cpu),
        t.after_load(cr3, cpu).after_unload(cr3, cpu).runs(cr3, other) == (other != cpu && t.runs(
            cr3,
            other,
        )),
{
    let m = t.mask_of(cr3);
    lemma_mask_bits(m, cpu, other);
    lemma_mask_bits(m, cpu, cpu);
    lemma_mask_bits(m | (1u64 << cpu), cpu, other);
}

/// A request is taken once: a processor that has looked at its slot finds nothing the
/// second time.
pub proof fn law_request_is_taken_once(t: TlbView, cpu: u64)
    requires
        t.wf(),
        t.knows(cpu),
    ensures
        !t.after_service(cpu).slots[cpu as int].pending,
        t.after_service(cpu).after_service(cpu) == t.after_service(cpu),
{
}

/// Every processor that a sender waits for has the request in its slot, and answers
/// it by looking there once: the sender then waits for one fewer.
pub proof fn law_an_answer_ends_the_wait(
    t: TlbView,
    cr3: u64,
    va_lo: u64,
    va_hi: u64,
    sender: u64,
    cpu: u64,
)
    requires
        t.wf(),
        t.knows(sender),
        t.targets(cr3, sender).contains(cpu),
    ensures
        ({
            let s = t.published(t.targets(cr3, sender), cr3, va_lo, va_hi);
            &&& s.slots[cpu as int] == (ShootdownSlot { cr3, va_lo, va_hi, pending: true })
            &&& unanswered(s.slots, t.targets(cr3, sender)).contains(cpu)
            &&& !unanswered(s.after_service(cpu).slots, t.targets(cr3, sender)).contains(cpu)
        }),
{
    let cpus = t.targets(cr3, sender);
    lemma_cpus_of(t.mask_of(cr3), sender, t.slots.len());
    let s = t.published(cpus, cr3, va_lo, va_hi);
    lemma_unanswered(s.slots, cpus, cpu);
    lemma_unanswered(s.after_service(cpu).slots, cpus, cpu);
}

pub proof fn lemma_unanswered(slots: Seq<ShootdownSlot>, cpus: Seq<u64>, cpu: u64)
    ensures
        unanswered(slots, cpus).contains(cpu) <==> cpus.contains(cpu) && slots[cpu as int].pending,
    decreases cpus.len(),
{
    if cpus.len() > 0 {
        let init = cpus.drop_last();
        lemma_unanswered(slots, init, cpu);
        let before = unanswered(slots, init);
        let all = unanswered(slots, cpus);
        assert(cpus.contains(cpu) <==> init.contains(cpu) || cpus.last() == cpu) by {
            if cpus.contains(cpu) {
                let i = choose|i: int| 0 <= i < cpus.len() && cpus[i] == cpu;
                if i < init.len() {
                    assert(init[i] == cpu);
                }
            }
            if init.contains(cpu) {
                let i = choose|i: int| 0 <= i < init.len() && init[i] == cpu;
                assert(cpus[i] == cpu);
            }
        }
        if slots[cpus.last() as int].pending {
            assert(all == before.push(cpus.last()));
            assert(all.contains(cpu) <==> before.contains(cpu) || cpus.last() == cpu) by {
                if all.contains(cpu) {
                    let i = choose|i: int| 0 <= i < all.len() && all[i] == cpu;
                    if i < before.len() {
                        assert(before[i] == cpu);
                    }
                }
                if before.contains(cpu) {
                    let i = choose|i: int| 0 <= i < before.len() && before[i] == cpu;
                    assert(all[i] == cpu);
                }
                assert(all[all.len() - 1] == cpus.last());
            }
        }
    }
}

/// Frames whose invalidation did not come to an end are not free: as long as the quarantine
/// has room they all wait there, from tick `now` on, and nothing else happens to them.
pub proof fn law_unclean_frames_stay_taken(
    f: FramesView,
    t: TlbView,
    frames: Seq<u64>,
    now: u64,
)
    requires
        t.quarantine.len() + frames.len() <= QUARANTINE_CAPACITY,
        forall|i: int| 0 <= i < frames.len() ==> #[trigger] frames[i] != 0,
    ensures
        after_letting_go(f, t, frames, false, now).0 == f,
        after_letting_go(f, t, frames, false, now).1.quarantine == t.quarantine + Seq::new(
            frames.len(),
            |i: int| QuarantineEntry { phys: frames[i], enqueue_tick: now },
        ),
    decreases frames.len(),
{
    let entries = Seq::new(
        frames.len(),
        |i: int| QuarantineEntry { phys: frames[i], enqueue_tick: now },
    );
    if frames.len() == 0 {
        assert(t.quarantine + entries =~= t.quarantine);
    } else {
        let less = frames.drop_last();
        assert forall|i: int| 0 <= i < less.len() implies #[trigger] less[i] != 0 by {
            assert(frames[i] != 0);
        }
        law_unclean_frames_stay_taken(f, t, less, now);
        assert(frames[frames.len() - 1] != 0);
        let before = Seq::new(
            less.len(),
            |i: int| QuarantineEntry { phys: less[i], enqueue_tick: now },
        );
        assert((t.quarantine + before).push(
            QuarantineEntry { phys: frames.last(), enqueue_tick: now },
        ) =~= t.quarantine + entries);
    }
}

/// A frame that nobody refers to and no device owns is free once it was let go of after a
/// complete invalidation; and nothing that was free is taken by that.
pub proof fn law_clean_frames_are_freed(
    f: FramesView,
    t: TlbView,
    frames: Seq<u64>,
    now: u64,
    phys: u64,
)
    requires
        phys as int / 4096 < crate::mm::pmm::MAX_PAGES,
        !f.pmm.kernel_static(phys),
        f.refs.count(phys) == 0,
        f.pins.wf(),
        f.pins.count(phys) == 0,
    ensures
        ({
            let (g, u) = after_letting_go(f, t, frames, true, now);
            &&& frames.contains(phys) ==> g.pmm.free.contains(phys as int / 4096)
            &&& f.pmm.free.subset_of(g.pmm.free)
            &&& g.refs == f.refs
            &&& g.pins.wf()
            &&& g.pins.count(phys) == 0
            &&& g.pmm.kernel_base == f.pmm.kernel_base
            &&& g.pmm.kernel_end == f.pmm.kernel_end
            &&& u == t
        }),
    decreases frames.len(),
{
    if frames.len() > 0 {
        let less = frames.drop_last();
        law_clean_frames_are_freed(f, t, less, now, phys);
        let (g, _u) = after_letting_go(f, t, less, true, now);
        let last = frames.last();
        if g.pins.count(last) > 0 {
            let w = g.pins.word(last);
            assert(w < 0x8000_0000 ==> (w + 0x8000_0000) as u32 == w + 0x8000_0000);
            assert(g.pins.after_mark(last).count(phys) == 0);
        }
        assert(g.pmm.free.subset_of(g.after_free(last, now).pmm.free));
        if frames.contains(phys) && frames.last() != phys {
            let i = choose|i: int| 0 <= i < frames.len() && frames[i] == phys;
            assert(less[i] == phys);
        }
    }
}

/// A step that some processor takes in the protocol.
pub enum Step {
    /// A request is put into the slots of `cpus`.
    Publish { cpus: Seq<u64>, cr3: u64, va_lo: u64, va_hi: u64 },
    /// Processor `cpu`, which runs on `cur_cr3`, looks at its slot and carries out what it
    /// finds there.
    Flush { cpu: u64, cur_cr3: u64 },
    /// Processor `cpu` answers.
    Answer { cpu: u64 },
    /// A sender gives up on `cpus`.
    GiveUp { cpus: Seq<u64> },
}

impl Step {
    /// The step gives processor `cpu` a new request.
    pub open spec fn asks(self, cpu: u64) -> bool {
        self matches Step::Publish { cpus, .. } && cpus.contains(cpu)
    }

    /// The step takes the request of processor `cpu` back.
    pub open spec fn drops(self, cpu: u64) -> bool {
        self matches Step::GiveUp { cpus } && cpus.contains(cpu)
    }

    /// In the step, processor `cpu` carries out what is in its slot.
    pub open spec fn carries_out(self, cpu: u64) -> bool {
        self matches Step::Flush { cpu: c, .. } && c == cpu
    }
}

impl TlbView {
    /// The state after a step.
    pub open spec fn stepped(self, s: Step) -> TlbView {
        match s {
            Step::Publish { cpus, cr3, va_lo, va_hi } => self.published(cpus, cr3, va_lo, va_hi),
            Step::Flush { .. } => self,
            Step::Answer { cpu } => self.after_service(cpu),
            Step::GiveUp { cpus } => self.after_timeout(cpus),
        }
    }

    /// The state after the steps, one after the other.
    pub open spec fn ran(self, steps: Seq<Step>) -> TlbView
        decreases steps.len(),
    {
        if steps.len() == 0 {
            self
        } else {
            self.ran(steps.drop_last()).stepped(steps.last())
        }
    }
}

/// In step `j`, before step `i`, processor `cpu` carried out the request that it answers in
/// step `i`.
pub open spec fn carried_out(steps: Seq<Step>, j: int, i: int, cpu: u64) -> bool {
    &&& 0 <= j < i
    &&& steps[j].carries_out(cpu)
    &&& forall|k: int| j < k < i ==> !(#[trigger] steps[k]).asks(cpu)
}

/// Every answer comes after the invalidation that it stands for.
pub open spec fn in_order(steps: Seq<Step>) -> bool {
    forall|i: int|
        0 <= i < steps.len() && (#[trigger] steps[i]) is Answer ==> exists|j: int|
            carried_out(steps, j, i, steps[i]->Answer_cpu)
}

proof fn lemma_unanswered_stays(t: TlbView, steps: Seq<Step>, n: int, cpu: u64)
    requires
        t.knows(cpu),
        t.slots.len() <= MASK_BITS,
        0 <= n <= steps.len(),
        forall|i: int|
            0 <= i < n ==> !(#[trigger] steps[i]).asks(cpu) && !steps[i].drops(cpu) && steps[i]
                != (Step::Answer { cpu }),
    ensures
        t.ran(steps.take(n)).slots.len() == t.slots.len(),
        t.ran(steps.take(n)).slots[cpu as int] == t.slots[cpu as int],
    decreases n,
{
    if n == 0 {
        assert(steps.take(0) =~= Seq::empty());
    } else {
        lemma_unanswered_stays(t, steps, n - 1, cpu);
        assert(steps.take(n).drop_last() =~= steps.take(n - 1));
        assert(steps.take(n).last() == steps[n - 1]);
        let s = t.ran(steps.take(n - 1));
        assert(!steps[n - 1].asks(cpu) && !steps[n - 1].drops(cpu));
        assert(steps[n - 1] != (Step::Answer { cpu }));
        assert(s.stepped(steps[n - 1]).slots[cpu as int] == s.slots[cpu as int]);
    }
}

/// Where a sender finds every request answered, each processor that it asked has carried
/// out the invalidation while the request stood in its slot.
///
/// Nobody else may have put a request into that slot meanwhile, and the sender has not given
/// up on the processor.
pub proof fn law_clean_shootdown_was_carried_out(
    t: TlbView,
    cr3: u64,
    va_lo: u64,
    va_hi: u64,
    sender: u64,
    steps: Seq<Step>,
    cpu: u64,
)
    requires
        t.wf(),
        t.knows(sender),
        t.targets(cr3, sender).contains(cpu),
        in_order(steps),
        forall|i: int|
            0 <= i < steps.len() ==> !(#[trigger] steps[i]).asks(cpu) && !steps[i].drops(cpu),
        unanswered(
            t.published(t.targets(cr3, sender), cr3, va_lo, va_hi).ran(steps).slots,
            t.targets(cr3, sender),
        ).len() == 0,
    ensures
        exists|j: int| #[trigger]
            carried_request(
                t.published(t.targets(cr3, sender), cr3, va_lo, va_hi),
                steps,
                j,
                cpu,
                ShootdownSlot { cr3, va_lo, va_hi, pending: true },
            ),
{
    let cpus = t.targets(cr3, sender);
    let s = t.published(cpus, cr3, va_lo, va_hi);
    let request = ShootdownSlot { cr3, va_lo, va_hi, pending: true };
    lemma_cpus_of(t.mask_of(cr3), sender, t.slots.len());
    assert(s.slots[cpu as int] == request);
    lemma_unanswered(s.ran(steps).slots, cpus, cpu);
    assert(!s.ran(steps).slots[cpu as int].pending);
    if forall|i: int| 0 <= i < steps.len() ==> #[trigger] steps[i] != (Step::Answer { cpu }) {
        lemma_unanswered_stays(s, steps, steps.len() as int, cpu);
        assert(steps.take(steps.len() as int) =~= steps);
    } else {
        let i = first_answer(steps, cpu, 0);
        lemma_first_answer(steps, cpu, 0);
        assert(steps[i] is Answer);
        let j = choose|j: int| carried_out(steps, j, i, steps[i]->Answer_cpu);
        assert(carried_out(steps, j, i, cpu));
        lemma_unanswered_stays(s, steps, j, cpu);
        assert(carried_request(s, steps, j, cpu, request));
    }
}

/// In step `j`, processor `cpu` carried out what was in its slot, which was `request`.
pub open spec fn carried_request(
    t: TlbView,
    steps: Seq<Step>,
    j: int,
    cpu: u64,
    request: ShootdownSlot,
) -> bool {
    &&& 0 <= j < steps.len()
    &&& steps[j].carries_out(cpu)
    &&& t.ran(steps.take(j)).slots[cpu as int] == request
}

/// The first step from `from` on in which processor `cpu` answers.
spec fn first_answer(steps: Seq<Step>, cpu: u64, from: int) -> int
    decreases steps.len() - from,
{
    if from >= steps.len() || steps[from] == (Step::Answer { cpu }) {
        from
    } else {
        first_answer(steps, cpu, from + 1)
    }
}

proof fn lemma_first_answer(steps: Seq<Step>, cpu: u64, from: int)
    requires
        0 <= from <= steps.len(),
        exists|i: int| from <= i < steps.len() && #[trigger] steps[i] == (Step::Answer { cpu }),
    ensures
        from <= first_answer(steps, cpu, from) < steps.len(),
        steps[first_answer(steps, cpu, from)] == (Step::Answer { cpu }),
        forall|i: int|
            from <= i < first_answer(steps, cpu, from) ==> #[trigger] steps[i] != (Step::Answer {
                cpu,
            }),
    decreases steps.len() - from,
{
    if steps[from] != (Step::Answer { cpu }) {
        lemma_first_answer(steps, cpu, from + 1);
    }
}

} // verus!
