//! What the frame allocator promises, frame by frame: which frames are handed out, which are
//! taken back and which never are, and what is counted.
use vstd::prelude::*;
use crate::mm::dma_pin::{DmaPinsView, UnpinResult};
use crate::mm::pmm::{
    covers, BootInfo, FramesView, FreeVerdict, MemoryType, PmmView, RecentFreeEntry,
    RecentFreeView,
};
use crate::mm::refcount::RefCountsView;

verus! {

/// A frame comes back exactly where its address is below 4 GiB and outside of the kernel's
/// image, nothing else maps it, no device uses it, and it is not free already.  Then it and no
/// other frame is free.
pub proof fn law_free_gives_back_the_frame(
    s: PmmView,
    phys: u64,
    shares: u16,
    pinned: bool,
    now: u64,
    page: int,
)
    ensures
        ({
            let after = s.after_free(phys, shares, pinned, now);
            let frees = phys < 0x1_0000_0000 && !(s.kernel_base != 0 && s.kernel_end != 0
                && s.kernel_base <= phys && phys < s.kernel_end) && shares == 0 && !pinned
                && !s.free.contains(phys as int / 4096);
            &&& frees <==> s.free_verdict(phys, shares, pinned) == FreeVerdict::Freed
            &&& after.free.contains(page) <==> s.free.contains(page) || (frees && page
                == phys as int / 4096)
            &&& after.used == if frees {
                s.used.wrapping_sub(1)
            } else {
                s.used
            }
            &&& after.total == s.total
            &&& after.reserved == s.reserved
            &&& after.next_fit == s.next_fit
        }),
{
}

/// A frame that does not come back is counted under its reason: one of the kernel's image
/// before one that is mapped, that before one in use by a device, and that before one that is
/// free.
pub proof fn law_refusals_are_counted(s: PmmView, phys: u64, shares: u16, pinned: bool, now: u64)
    ensures
        ({
            let after = s.after_free(phys, shares, pinned, now);
            let inside = phys < 0x1_0000_0000;
            let kernel = s.kernel_base != 0 && s.kernel_end != 0 && s.kernel_base <= phys && phys
                < s.kernel_end;
            &&& after.kernel_static_refused == if inside && kernel {
                s.kernel_static_refused.wrapping_add(1)
            } else {
                s.kernel_static_refused
            }
            &&& after.residual_refs == if inside && !kernel && shares > 0 {
                s.residual_refs.wrapping_add(1)
            } else {
                s.residual_refs
            }
            &&& after.already_free == if inside && !kernel && shares == 0 && !pinned
                && s.free.contains(phys as int / 4096) {
                s.already_free.wrapping_add(1)
            } else {
                s.already_free
            }
            &&& s.free_verdict(phys, shares, pinned) == FreeVerdict::Deferred <==> inside && !kernel
                && shares == 0 && pinned
            &&& s.free_verdict(phys, shares, pinned) == FreeVerdict::OutOfRange <==> !inside
        }),
{
}

/// The frame that is handed out is the first free one from the hint on; where there is none,
/// the first of all.  The hint moves on to the next group of eight frames, and from the last
/// to the first.
pub proof fn law_allocation_goes_round(s: PmmView, page: int, rc: u16, now: u64, other: int)
    requires
        s.next_fit_choice(page),
        s.free.contains(other),
        0 <= page < 0x10_0000,
    ensures
        other >= 8 * s.next_fit ==> 8 * s.next_fit <= page <= other,
        other < 8 * s.next_fit && page < 8 * s.next_fit ==> page <= other,
        ({
            let after = s.after_alloc(page, rc, now);
            &&& !after.free.contains(page)
            &&& other != page ==> after.free.contains(other)
            &&& after.used == s.used.wrapping_add(1)
            &&& after.total == s.total
            &&& 8 * after.next_fit == if page < 0xF_FFF8 {
                page - page % 8 + 8
            } else {
                0
            }
        }),
{
}

/// With diagnostics on, an allocation is counted where the frame has references left, and
/// where it was freed no more than two ticks ago.
pub proof fn law_suspect_allocations_are_counted(s: PmmView, page: int, rc: u16, now: u64, i: int)
    requires
        s.ring.wf(),
        0 <= page < 0x10_0000,
        0 <= i < 64,
    ensures
        ({
            let after = s.after_alloc(page, rc, now);
            let e = s.ring.entries[i];
            &&& after.alloc_nonzero_rc == if s.diag && rc > 0 {
                s.alloc_nonzero_rc.wrapping_add(1)
            } else {
                s.alloc_nonzero_rc
            }
            &&& s.diag && e.phys == page * 4096 && e.freed_tick > 0 && now <= e.freed_tick + 2
                ==> after.alloc_recent_free == s.alloc_recent_free.wrapping_add(1)
            &&& !s.diag ==> after.alloc_recent_free == s.alloc_recent_free && after.ring == s.ring
            &&& (forall|j: int|
                0 <= j < 64 && (#[trigger] s.ring.entries[j]).phys == page * 4096
                    && s.ring.entries[j].freed_tick > 0 ==> now > s.ring.entries[j].freed_tick + 2)
                ==> after.alloc_recent_free == s.alloc_recent_free && after.ring == s.ring
        }),
{
    let phys = (page * 4096) as u64;
    let e = s.ring.entries[i];
    assert(crate::mm::pmm::is_recent(e, phys, now, 2) == (e.phys == phys && e.freed_tick != 0 && now
        - e.freed_tick <= 2));
    if forall|j: int|
        0 <= j < 64 && (#[trigger] s.ring.entries[j]).phys == page * 4096
            && s.ring.entries[j].freed_tick > 0 ==> now > s.ring.entries[j].freed_tick + 2 {
        assert(!s.ring.has_recent(phys, now, 2)) by {
            if s.ring.has_recent(phys, now, 2) {
                let j = choose|j: int|
                    0 <= j < s.ring.entries.len() && crate::mm::pmm::is_recent(
                        s.ring.entries[j],
                        phys,
                        now,
                        2,
                    );
                assert(s.ring.entries[j].phys == page * 4096);
            }
        }
    }
}

/// A freed frame is remembered in the place of the oldest entry; the other entries stay.
pub proof fn law_freed_frame_is_remembered(
    r: RecentFreeView,
    phys: u64,
    tick: u64,
    now: u64,
    window: u64,
    i: int,
)
    requires
        r.wf(),
        0 <= i < 64,
    ensures
        ({
            let after = r.pushed(phys, tick);
            &&& after.entries.len() == 64
            &&& after.entries[r.next] == RecentFreeEntry { phys, freed_tick: tick }
            &&& i != r.next ==> after.entries[i] == r.entries[i]
            &&& after.next == if r.next == 63 {
                0
            } else {
                r.next + 1
            }
            &&& tick > 0 && now <= tick + window ==> after.has_recent(phys, now, window)
        }),
{
    let after = r.pushed(phys, tick);
    if tick > 0 && now <= tick + window {
        assert(crate::mm::pmm::is_recent(after.entries[r.next], phys, now, window));
    }
}

/// Forgetting a frame takes its first entry out of the search, and no other entry.
pub proof fn law_forgotten_frame_is_not_found(r: RecentFreeView, phys: u64, k: int, i: int)
    requires
        r.wf(),
        phys != 0,
        0 <= k < 64,
        r.entries[k].phys == phys,
        forall|j: int| 0 <= j < k ==> (#[trigger] r.entries[j]).phys != phys,
        0 <= i < 64,
    ensures
        r.forgotten(phys).entries[k].phys == 0,
        i != k ==> r.forgotten(phys).entries[i] == r.entries[i],
        r.forgotten(phys).next == r.next,
{
    assert(r.first_for(phys, k));
    let c = choose|c: int| r.first_for(phys, c);
    assert(r.first_for(phys, c));
    assert(c == k);
}

/// Reserving takes the frames of the range, and no other, and counts those that were free.
pub proof fn law_reserve_takes_the_range(s: PmmView, first: int, end: int, page: int)
    requires
        s.free.finite(),
    ensures
        ({
            let after = s.after_reserve(first, end);
            &&& after.free.contains(page) <==> s.free.contains(page) && !(first <= page && page
                < end)
            &&& after.used == s.used.wrapping_add((s.free.len() - after.free.len()) as u64)
            &&& after.reserved == s.reserved.wrapping_add((s.free.len() - after.free.len()) as u64)
            &&& after.total == s.total
        }),
{
    let after = s.after_reserve(first, end);
    let taken = s.free.intersect(vstd::set_lib::set_int_range(first, end));
    assert(s.free =~= after.free + taken);
    vstd::set_lib::lemma_set_disjoint_lens(after.free, taken);
}

/// After boot a frame is free exactly where the firmware lists it as free memory (or it was
/// free), and it is not needed: not in the first MiB, not in the kernel's image and the MiB
/// behind it, not in the handoff structure, and not around the stack of the firmware.
pub proof fn law_boot_frees_what_is_not_needed(
    s: PmmView,
    boot: BootInfo,
    kernel_end_va: u64,
    rsp: u64,
    page: int,
)
    requires
        boot.wf(kernel_end_va),
        boot.kernel_phys_base % 4096 == 0,
        boot.kernel_phys_base + boot.kernel_size <= u64::MAX,
        kernel_end_va >= 0xFFFF_8000_0000_0000,
        0 <= page < 0x10_0000,
    ensures
        ({
            let entries = boot.memory_map.entries@;
            let listed = exists|i: int|
                0 <= i < boot.memory_map.entry_count && (#[trigger] entries[i]).memory_type
                    == MemoryType::Available && entries[i].physical_start as int / 4096 <= page
                    && page < entries[i].physical_start as int / 4096 + entries[i].page_count;
            let base = boot.kernel_phys_base;
            let image = page * 4096 >= base && (page * 4096 < base + boot.kernel_size + 0x10_0000
                || page * 4096 < kernel_end_va - 0xFFFF_8000_0000_0000 + 0x10_0000 || page * 4096
                < base + 0x10_0000);
            let handoff = 0x1000 <= page && page * 4096 <= 0x100_0000 + (if boot.handoff_bytes == 0 {
                0
            } else {
                boot.handoff_bytes - 1
            });
            let stack = rsp > 0 && rsp < 0xFFFF_8000_0000_0000 && rsp as int / 4096 - 128 <= page
                && page <= rsp as int / 4096 + 4;
            s.after_boot(boot, kernel_end_va, rsp).free.contains(page) <==> (s.free.contains(page)
                || listed) && page >= 256 && !image && !handoff && !stack
        }),
{
    let entries = boot.memory_map.entries@;
    let n = boot.memory_map.entry_count as int;
    assert forall|i: int| 0 <= i < n implies #[trigger] covers(entries[i], page) == (
    entries[i].memory_type == MemoryType::Available && entries[i].physical_start as int / 4096
        <= page && page < entries[i].physical_start as int / 4096 + entries[i].page_count) by {}
    if exists|i: int|
        0 <= i < n && (#[trigger] entries[i]).memory_type == MemoryType::Available
            && entries[i].physical_start as int / 4096 <= page && page
            < entries[i].physical_start as int / 4096 + entries[i].page_count {
        let i = choose|i: int|
            0 <= i < n && (#[trigger] entries[i]).memory_type == MemoryType::Available
                && entries[i].physical_start as int / 4096 <= page && page
                < entries[i].physical_start as int / 4096 + entries[i].page_count;
        assert(covers(entries[i], page));
    }
    lemma_image_frames(boot, kernel_end_va, page);
}

proof fn lemma_image_frames(boot: BootInfo, kernel_end_va: u64, page: int)
    requires
        boot.kernel_phys_base % 4096 == 0,
        boot.kernel_phys_base + boot.kernel_size <= u64::MAX,
        kernel_end_va >= 0xFFFF_8000_0000_0000,
        page >= 0,
    ensures
        ({
            let base = boot.kernel_phys_base;
            let k = base as int / 4096;
            (k <= page < k + crate::mm::pmm::kernel_image_frames(boot, kernel_end_va) + 256) == (page
                * 4096 >= base && (page * 4096 < base + boot.kernel_size + 0x10_0000 || page * 4096
                < kernel_end_va - 0xFFFF_8000_0000_0000 + 0x10_0000 || page * 4096 < base
                + 0x10_0000))
        }),
{
}

/// The image that is protected reaches from the kernel's base to the end of its binary or of
/// its data, whichever is higher.
pub proof fn law_protected_image(
    s: PmmView,
    boot: BootInfo,
    kernel_end_va: u64,
    rsp: u64,
    phys: u64,
)
    requires
        boot.kernel_phys_base > 0,
        boot.kernel_size > 0,
        boot.kernel_phys_base + boot.kernel_size <= u64::MAX,
        kernel_end_va >= 0xFFFF_8000_0000_0000,
    ensures
        s.after_boot(boot, kernel_end_va, rsp).kernel_static(phys) <==> boot.kernel_phys_base
            <= phys && (phys < boot.kernel_phys_base + boot.kernel_size || phys < kernel_end_va
            - 0xFFFF_8000_0000_0000),
{
}

/// A count belongs to a frame of 4096 bytes below 4 GiB; setting it gives it back.
pub proof fn law_counts_are_by_frame(rc: RefCountsView, phys: u64, other: u64, n: u16)
    requires
        rc.wf(),
        rc.counts is Some,
    ensures
        phys as int / 4096 == other as int / 4096 ==> rc.count(phys) == rc.count(other),
        phys < 0x1_0000_0000 ==> rc.with_count(phys, n).count(phys) == n,
        phys as int / 4096 != other as int / 4096 ==> rc.with_count(phys, n).count(other)
            == rc.count(other),
        phys >= 0x1_0000_0000 ==> rc.count(phys) == 0 && rc.with_count(phys, n) == rc,
{
}

/// With diagnostics on, a reference that is dropped where there is none is counted, and so is a
/// count that is set to less than it was; nothing else is.
pub proof fn law_reference_mistakes_are_counted(rc: RefCountsView, phys: u64, n: u16)
    requires
        rc.wf(),
        rc.counts is Some,
    ensures
        rc.after_dec(phys).dec_underflow == if rc.diag && phys < 0x1_0000_0000 && rc.count(phys)
            == 0 {
            rc.dec_underflow.wrapping_add(1)
        } else {
            rc.dec_underflow
        },
        rc.after_dec(phys).set_over_nonzero == rc.set_over_nonzero,
        rc.after_set(phys, n).set_over_nonzero == if rc.diag && n < rc.count(phys) {
            rc.set_over_nonzero.wrapping_add(1)
        } else {
            rc.set_over_nonzero
        },
        rc.after_set(phys, n).dec_underflow == rc.dec_underflow,
        phys < 0x1_0000_0000 ==> rc.after_set(phys, n).count(phys) == n,
{
}

/// A pin raises the count of its frame by one, and an unpin lowers it by one; neither touches
/// another frame.
pub proof fn law_pins_are_counted(p: DmaPinsView, phys: u64, other: u64)
    requires
        p.wf(),
        p.words is Some,
        phys < 0x1_0000_0000,
    ensures
        p.count(phys) < 0x7FFF_FFFF ==> p.after_pin(phys).count(phys) == p.count(phys) + 1
            && p.after_pin(phys).pending(phys) == p.pending(phys),
        p.count(phys) > 0 ==> p.after_unpin(phys).count(phys) == p.count(phys) - 1,
        p.count(phys) > 1 ==> p.after_unpin(phys).pending(phys) == p.pending(phys),
        p.count(phys) == 1 ==> !p.after_unpin(phys).pending(phys),
        p.count(phys) == 0 ==> p.after_unpin(phys) == p,
        phys as int / 4096 != other as int / 4096 ==> {
            &&& p.after_pin(phys).word(other) == p.word(other)
            &&& p.after_unpin(phys).word(other) == p.word(other)
            &&& p.after_mark(phys).word(other) == p.word(other)
        },
        p.unpin_result(phys) == if p.count(phys) == 0 {
            UnpinResult::Underflow
        } else if p.count(phys) == 1 && p.pending(phys) {
            UnpinResult::FreeDue
        } else {
            UnpinResult::NoFree
        },
        p.after_mark(phys).frees_deferred == if p.count(phys) > 0 && !p.pending(phys) {
            p.frees_deferred.wrapping_add(1)
        } else {
            p.frees_deferred
        },
{
}

/// A word holds the number of pins in its lower bits and the mark of a free that waits in its
/// highest.
pub proof fn law_pin_word(p: DmaPinsView, phys: u64)
    ensures
        p.word(phys) == p.count(phys) + if p.pending(phys) {
            0x8000_0000int
        } else {
            0
        },
        0 <= p.count(phys) < 0x8000_0000,
{
}

/// A frame that has to wait stands in the first empty place from the cursor on; no other place
/// changes, and the cursor moves on by one.
pub proof fn law_waiting_frame_takes_the_first_place(p: DmaPinsView, phys: u64, i: int)
    requires
        p.wf(),
        phys != 0,
        0 <= i < 256,
        p.deferred[(p.cursor + i) % 256] == 0,
        forall|j: int| 0 <= j < i ==> #[trigger] p.deferred[p.probe(j)] != 0,
    ensures
        p.posted(phys).deferred == p.deferred.update((p.cursor + i) % 256, phys),
        p.posted(phys).cursor == p.cursor.wrapping_add(1),
        p.posted(phys).overflow == p.overflow,
        p.posted(phys).words == p.words,
{
    lemma_run(p, 0, i);
    assert(p.probe(i) == (p.cursor + i) % 256);
}

proof fn lemma_run(p: DmaPinsView, k: int, i: int)
    requires
        0 <= k <= i < 256,
        p.deferred[p.probe(i)] == 0,
        forall|j: int| k <= j < i ==> #[trigger] p.deferred[p.probe(j)] != 0,
    ensures
        p.occupied_run(k) == i,
    decreases i - k,
{
    if k < i {
        assert(p.deferred[p.probe(k)] != 0);
        lemma_run(p, k + 1, i);
    }
}

/// A sweep comes with the first allocation a hundred ticks after the last one, and leaves no
/// frame waiting.
pub proof fn law_sweep_comes_every_hundred_ticks(f: FramesView, now: u64)
    requires
        f.pins.wf(),
    ensures
        now < f.pins.last_sweep + 100 ==> f.after_sweep(now) == f,
        now >= f.pins.last_sweep + 100 ==> f.after_sweep(now).pins.last_sweep == now && forall|
            i: int,
        |
            0 <= i < 256 ==> #[trigger] f.after_sweep(now).pins.deferred[i] == 0,
{
    if now >= f.pins.last_sweep + 100 {
        let g = FramesView { pins: DmaPinsView { last_sweep: now, ..f.pins }, ..f };
        crate::mm::dma_pin::law_drain_empties_the_ring(g, now);
        lemma_drain(g, 256, now);
    }
}

/// Draining frees frames and takes none, and changes neither a count nor the kernel's image.
proof fn lemma_drain(f: FramesView, n: nat, now: u64)
    requires
        f.pins.wf(),
        n <= 256,
    ensures
        ({
            let g = f.after_drain(n, now);
            &&& g.refs == f.refs
            &&& g.pins.wf()
            &&& g.pins.last_sweep == f.pins.last_sweep
            &&& g.pins.words is Some == f.pins.words is Some
            &&& g.pmm.kernel_base == f.pmm.kernel_base
            &&& g.pmm.kernel_end == f.pmm.kernel_end
            &&& f.pmm.free.subset_of(g.pmm.free)
            &&& forall|p: u64| #[trigger] g.pins.count(p) == f.pins.count(p)
            &&& forall|i: int| n <= i < 256 ==> #[trigger] g.pins.deferred[i] == f.pins.deferred[i]
        }),
    decreases n,
{
    if n > 0 {
        lemma_drain(f, (n - 1) as nat, now);
        let g = f.after_drain((n - 1) as nat, now);
        let phys = g.pins.deferred[n - 1];
        if phys != 0 {
            let h = FramesView {
                pins: DmaPinsView {
                    deferred: g.pins.deferred.update(n - 1, 0),
                    deferred_freed: g.pins.deferred_freed.wrapping_add(1),
                    ..g.pins
                },
                ..g
            };
            assert forall|p: u64| #[trigger] h.pins.after_mark(phys).count(p) == g.pins.count(p) by {
                assert(h.pins.word(p) == g.pins.word(p));
            }
            assert forall|p: u64| #[trigger] h.pins.count(p) == g.pins.count(p) by {
                assert(h.pins.word(p) == g.pins.word(p));
            }
            assert(f.after_drain(n, now) == h.after_free(phys, now));
        }
    }
}

/// A frame that waits is free after the next sweep, where nothing maps it, no device uses it
/// and it is not the kernel's.
pub proof fn law_waiting_frame_comes_back(f: FramesView, now: u64, i: int)
    requires
        f.pins.wf(),
        0 <= i < 256,
        0 < f.pins.deferred[i] < 0x1_0000_0000,
        f.refs.count(f.pins.deferred[i]) == 0,
        f.pins.count(f.pins.deferred[i]) == 0,
        !(f.pmm.kernel_base <= f.pins.deferred[i] < f.pmm.kernel_end),
    ensures
        f.after_drain(256, now).pmm.free.contains(f.pins.deferred[i] as int / 4096),
{
    lemma_waits(f, 256, now, i);
}

proof fn lemma_waits(f: FramesView, n: nat, now: u64, i: int)
    requires
        f.pins.wf(),
        0 <= i < n <= 256,
        0 < f.pins.deferred[i] < 0x1_0000_0000,
        f.refs.count(f.pins.deferred[i]) == 0,
        f.pins.count(f.pins.deferred[i]) == 0,
        !(f.pmm.kernel_base <= f.pins.deferred[i] < f.pmm.kernel_end),
    ensures
        f.after_drain(n, now).pmm.free.contains(f.pins.deferred[i] as int / 4096),
    decreases n,
{
    lemma_drain(f, (n - 1) as nat, now);
    let g = f.after_drain((n - 1) as nat, now);
    let phys = g.pins.deferred[n - 1];
    let h = FramesView {
        pins: DmaPinsView {
            deferred: g.pins.deferred.update(n - 1, 0),
            deferred_freed: g.pins.deferred_freed.wrapping_add(1),
            ..g.pins
        },
        ..g
    };
    if i < n - 1 {
        lemma_waits(f, (n - 1) as nat, now, i);
    } else {
        assert(phys == f.pins.deferred[i]);
        assert(h.pins.word(phys) == g.pins.word(phys));
        assert(g.pins.count(phys) == 0);
    }
}

/// A device that is done with a frame whose free waits gives it back: at once, or by way of the
/// places for waiting frames.
pub proof fn law_last_unpin_hands_on(f: FramesView, phys: u64, now: u64, page: int)
    requires
        f.pins.wf(),
    ensures
        f.pins.unpin_result(phys) != UnpinResult::FreeDue ==> f.after_unpin(phys, true, now)
            == f.after_unpin(phys, false, now) && f.after_unpin(phys, true, now).pmm == f.pmm,
        f.after_unpin(phys, false, now).pmm == f.pmm,
        f.after_unpin(phys, true, now).refs == f.refs,
        f.after_unpin(phys, true, now).pmm.free.contains(page) ==> f.pmm.free.contains(page)
            || page == phys as int / 4096,
        f.pins.unpin_result(phys) == UnpinResult::FreeDue ==> f.after_unpin(
            phys,
            true,
            now,
        ).pins.deferred_freed == f.pins.deferred_freed.wrapping_add(1),
{
}

} // verus!
