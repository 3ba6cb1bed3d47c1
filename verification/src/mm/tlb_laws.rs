//! What shootdowns and the quarantine promise, processor by processor and frame by frame.
use vstd::prelude::*;
use crate::mm::pmm::FramesView;
use crate::mm::tlb::{
    after_letting_go, cpus_of, law_clean_frames_are_freed, lemma_cpus_of,
    lemma_unanswered, min_tick, not_done, range_pages, range_start, unanswered, Flush,
    QuarantineEntry, ShootdownSlot, TlbView,
};
use crate::mm::vma_laws::lemma_filtered;

verus! {

/// A flush of pages names the page of every address in the range, each page starts at a multiple
/// of its size and meets the range, and there are 32 at most; a larger range is flushed whole.
pub proof fn law_flush_covers_the_range(f: Flush, va_lo: u64, va_hi: u64, a: u64)
    requires
        f.covers(va_lo, va_hi),
        va_lo <= a < va_hi,
        va_hi <= u64::MAX - 0xFFF,
    ensures
        f matches Flush::Pages(pages) ==> {
            &&& pages@.contains((a - a % 4096) as u64)
            &&& pages@.len() <= 32
            &&& forall|i: int|
                0 <= i < pages@.len() ==> (#[trigger] pages@[i]) % 4096 == 0 && pages@[i] + 4096
                    > va_lo && pages@[i] < va_hi
        },
        f is All ==> va_hi - va_lo > 31 * 4096,
        va_hi - va_lo > 32 * 4096 ==> f is All,
{
    if let Flush::Pages(pages) = f {
        let k = (a - a % 4096 - range_start(va_lo)) / 4096;
        assert(0 <= k < range_pages(va_lo, va_hi));
        assert(pages@[k] == a - a % 4096);
    }
}

/// An empty range needs no flush.
pub proof fn law_empty_range_flushes_nothing(f: Flush, va: u64)
    requires
        f.covers(va, va),
        va % 4096 == 0,
    ensures
        f matches Flush::Pages(pages) && pages@.len() == 0,
{
}

/// A request goes to every processor that runs in the address space, but not to the one that
/// asks, to each once, and to none while there is one processor or shootdowns are off.
pub proof fn law_requests_go_to_the_others(t: TlbView, cr3: u64, sender: u64, cpu: u64)
    requires
        t.wf(),
    ensures
        t.targets(cr3, sender).contains(cpu) <==> t.smp_active && !t.shootdown_off && sender
            < t.slots.len() && cpu < t.slots.len() && cpu != sender && t.runs(cr3, cpu),
        forall|i: int, j: int|
            0 <= i < j < t.targets(cr3, sender).len() ==> t.targets(cr3, sender)[i] < t.targets(
                cr3,
                sender,
            )[j],
{
    lemma_cpus_of(t.mask_of(cr3), sender, t.slots.len());
    lemma_ascending(t.mask_of(cr3), sender, t.slots.len());
}

proof fn lemma_ascending(mask: u64, but: u64, n: nat)
    requires
        n <= 64,
    ensures
        forall|i: int, j: int|
            0 <= i < j < cpus_of(mask, but, n).len() ==> cpus_of(mask, but, n)[i] < cpus_of(
                mask,
                but,
                n,
            )[j],
    decreases n,
{
    if n > 0 {
        lemma_ascending(mask, but, (n - 1) as nat);
        lemma_cpus_of(mask, but, (n - 1) as nat);
    }
}

/// A load or unload of one address space leaves the others as they were.
pub proof fn law_address_spaces_are_apart(t: TlbView, cr3: u64, other: u64, cpu: u64, who: u64)
    requires
        t.wf(),
        cr3 != other,
    ensures
        t.after_load(cr3, cpu).runs(other, who) == t.runs(other, who),
        t.after_unload(cr3, cpu).runs(other, who) == t.runs(other, who),
        !t.runs(0, who),
{
    assert((0u64 >> who) & 1 != 1) by (bit_vector);
}

/// A request stands in the place of every processor it is for, and in no other; one more
/// shootdown and as many interrupts as there are processors are counted.
pub proof fn law_request_is_published(
    t: TlbView,
    cpus: Seq<u64>,
    cr3: u64,
    va_lo: u64,
    va_hi: u64,
    cpu: u64,
)
    requires
        t.wf(),
        cpus.len() > 0,
        cpu < t.slots.len(),
    ensures
        ({
            let after = t.published(cpus, cr3, va_lo, va_hi);
            let slot = after.slots[cpu as int];
            &&& after.slots.len() == t.slots.len()
            &&& cpus.contains(cpu) ==> slot.pending && slot.cr3 == cr3 && slot.va_lo == va_lo
                && slot.va_hi == va_hi
            &&& !cpus.contains(cpu) ==> slot == t.slots[cpu as int] && after.done[cpu as int]
                == t.done[cpu as int]
            &&& t.diag && cpus.contains(cpu) ==> !after.done[cpu as int]
            &&& after.shootdowns_sent == t.shootdowns_sent.wrapping_add(1)
            &&& after.ipis_sent == t.ipis_sent.wrapping_add(cpus.len() as u64)
            &&& after.quarantine == t.quarantine
        }),
{
}

/// An answer clears the processor's own request and no other, and is counted; a processor without
/// a request has nothing to answer.
pub proof fn law_answer_clears_one_request(t: TlbView, cpu: u64, other: u64)
    requires
        t.wf(),
        cpu < t.slots.len(),
        other < t.slots.len(),
    ensures
        ({
            let after = t.after_service(cpu);
            let (was, now) = (t.slots[cpu as int], after.slots[cpu as int]);
            &&& !now.pending
            &&& now.cr3 == was.cr3 && now.va_lo == was.va_lo && now.va_hi == was.va_hi
            &&& other != cpu ==> after.slots[other as int] == t.slots[other as int]
            &&& other != cpu ==> after.done[other as int] == t.done[other as int]
            &&& was.pending ==> after.shootdowns_handled == t.shootdowns_handled.wrapping_add(1)
            &&& was.pending && t.diag ==> after.done[cpu as int]
            &&& !was.pending ==> after == t
        }),
{
}

/// Giving up clears the requests of the processors that did not answer, and no other, and is
/// counted.
pub proof fn law_giving_up_clears_the_late(t: TlbView, cpus: Seq<u64>, cpu: u64)
    requires
        t.wf(),
        cpu < t.slots.len(),
    ensures
        ({
            let after = t.after_timeout(cpus);
            &&& cpus.contains(cpu) ==> !after.slots[cpu as int].pending
            &&& !cpus.contains(cpu) ==> after.slots[cpu as int] == t.slots[cpu as int]
            &&& after.ack_timeouts == t.ack_timeouts.wrapping_add(1)
            &&& after.unclean_total == if t.diag {
                t.unclean_total.wrapping_add(1)
            } else {
                t.unclean_total
            }
            &&& after.done == t.done
            &&& after.quarantine == t.quarantine
        }),
{
}

/// The wait is for those that were asked and have not answered.
pub proof fn law_wait_is_for_the_unanswered(slots: Seq<ShootdownSlot>, cpus: Seq<u64>, cpu: u64)
    ensures
        unanswered(slots, cpus).contains(cpu) <==> cpus.contains(cpu) && slots[cpu as int].pending,
{
    lemma_unanswered(slots, cpus, cpu);
}

/// The second wait is for those that were asked and have not carried it out.
pub proof fn law_second_wait_is_for_the_late(done: Seq<bool>, cpus: Seq<u64>, cpu: u64)
    ensures
        not_done(done, cpus).contains(cpu) <==> cpus.contains(cpu) && !done[cpu as int],
    decreases cpus.len(),
{
    if cpus.len() > 0 {
        let init = cpus.drop_last();
        law_second_wait_is_for_the_late(done, init, cpu);
        let before = not_done(done, init);
        assert(cpus =~= init.push(cpus.last()));
        lemma_pushed(init, cpus.last(), cpu);
        lemma_pushed(before, cpus.last(), cpu);
    }
}

proof fn lemma_pushed(s: Seq<u64>, x: u64, v: u64)
    ensures
        s.push(x).contains(v) <==> s.contains(v) || v == x,
{
    let p = s.push(x);
    if s.contains(v) {
        let i = choose|i: int| 0 <= i < s.len() && s[i] == v;
        assert(p[i] == v);
    }
    if p.contains(v) {
        let i = choose|i: int| 0 <= i < p.len() && p[i] == v;
        if i < s.len() {
            assert(s[i] == v);
        }
    }
    assert(p[s.len() as int] == x);
}

/// The end of the grace period is the tick of the processor that lags most.
pub proof fn law_grace_is_the_slowest_tick(ticks: Seq<u64>, n: int, i: int)
    requires
        1 <= n <= ticks.len(),
        0 <= i < n,
    ensures
        min_tick(ticks, n) <= ticks[i],
        exists|j: int| 0 <= j < n && #[trigger] ticks[j] == min_tick(ticks, n),
    decreases n,
{
    if n > 1 {
        law_grace_is_the_slowest_tick(
            ticks,
            n - 1,
            if i < n - 1 {
                i
            } else {
                0
            },
        );
        if ticks[n - 1] >= min_tick(ticks, n - 1) {
            let j = choose|j: int| 0 <= j < n - 1 && #[trigger] ticks[j] == min_tick(ticks, n - 1);
            assert(ticks[j] == min_tick(ticks, n));
        } else {
            assert(ticks[n - 1] == min_tick(ticks, n));
        }
    } else {
        assert(ticks[0] == min_tick(ticks, n));
    }
}

/// A frame leaves the quarantine once every processor that is up has had a tick after it went
/// in, and not before; all others stay.
pub proof fn law_quarantine_ends_with_the_last_tick(
    t: TlbView,
    cpu: u64,
    count: u32,
    tick: u64,
    e: QuarantineEntry,
)
    requires
        t.wf(),
        t.quarantine.contains(e),
    ensures
        ({
            let up = if count == 0 {
                1
            } else if count <= t.slots.len() {
                count as int
            } else {
                t.slots.len() as int
            };
            let over = forall|c: int|
                0 <= c < up ==> e.enqueue_tick < #[trigger] t.ticked(cpu, tick).last_tick[c];
            &&& t.released_by(cpu, count, tick).contains(e) <==> over
            &&& t.after_tick(cpu, count, tick).quarantine.contains(e) <==> !over
        }),
{
    let s = t.ticked(cpu, tick);
    let n = t.online(count);
    let g = s.grace(count);
    law_grace_is_the_slowest_tick(s.last_tick, n, 0);
    let j = choose|j: int| 0 <= j < n && #[trigger] s.last_tick[j] == min_tick(s.last_tick, n);
    assert(s.last_tick[j] == g);
    assert forall|c: int| 0 <= c < n implies g <= #[trigger] s.last_tick[c] by {
        law_grace_is_the_slowest_tick(s.last_tick, n, c);
    }
    lemma_filtered(t.quarantine, |x: QuarantineEntry| x.enqueue_tick < g, e);
    lemma_filtered(s.quarantine, |x: QuarantineEntry| x.enqueue_tick >= g, e);
    if forall|c: int| 0 <= c < n ==> e.enqueue_tick < #[trigger] s.last_tick[c] {
        assert(e.enqueue_tick < s.last_tick[j]);
    }
}

/// A tick is noted for its processor alone.
pub proof fn law_tick_is_noted(t: TlbView, cpu: u64, tick: u64, other: u64)
    requires
        t.wf(),
        other < t.slots.len(),
    ensures
        t.ticked(cpu, tick).last_tick[other as int] == if other == cpu {
            tick
        } else {
            t.last_tick[other as int]
        },
        t.ticked(cpu, tick).quarantine == t.quarantine,
{
}

/// A frame goes into the quarantine behind the others, with the tick; frame 0 does not, nor one
/// for which the 256 places do not suffice.
pub proof fn law_quarantine_takes_the_frame(t: TlbView, phys: u64, tick: u64)
    ensures
        ({
            let after = t.after_quarantine(phys, tick);
            let takes = phys > 0 && t.quarantine.len() < 256;
            &&& takes ==> after.quarantine.len() == t.quarantine.len() + 1
                && after.quarantine.last().phys == phys && after.quarantine.last().enqueue_tick
                == tick && after.quarantine.drop_last() == t.quarantine && after.quarantine_deferred
                == t.quarantine_deferred.wrapping_add(1)
            &&& !takes ==> after == t
        }),
{
    if phys > 0 && t.quarantine.len() < 256 {
        assert(t.after_quarantine(phys, tick).quarantine.drop_last() =~= t.quarantine);
    }
}

/// The frames that an end of quarantine releases are free, where nothing maps them, no device
/// uses them and they are not the kernel's.
pub proof fn law_released_frames_are_free(
    f: FramesView,
    t: TlbView,
    released: Seq<QuarantineEntry>,
    now: u64,
    i: int,
)
    requires
        0 <= i < released.len(),
        released[i].phys < 0x1_0000_0000,
        !(f.pmm.kernel_base <= released[i].phys < f.pmm.kernel_end),
        f.refs.count(released[i].phys) == 0,
        f.pins.wf(),
        f.pins.count(released[i].phys) == 0,
    ensures
        f.after_release(released, now).pmm.free.contains(released[i].phys as int / 4096),
        f.pmm.free.subset_of(f.after_release(released, now).pmm.free),
        f.after_release(released, now).refs == f.refs,
{
    let frames = released.map_values(|e: QuarantineEntry| e.phys);
    lemma_release(f, t, released, now);
    law_clean_frames_are_freed(f, t, frames, now, released[i].phys);
    assert(frames[i] == released[i].phys);
}

proof fn lemma_release(f: FramesView, t: TlbView, released: Seq<QuarantineEntry>, now: u64)
    ensures
        f.after_release(released, now) == after_letting_go(
            f,
            t,
            released.map_values(|e: QuarantineEntry| e.phys),
            true,
            now,
        ).0,
    decreases released.len(),
{
    let frames = released.map_values(|e: QuarantineEntry| e.phys);
    if released.len() > 0 {
        lemma_release(f, t, released.drop_last(), now);
        assert(frames.drop_last() =~= released.drop_last().map_values(
            |e: QuarantineEntry| e.phys,
        ));
        assert(frames.last() == released.last().phys);
    }
}

} // verus!
