//! Memory management.
pub mod cache;
pub mod cache_laws;
pub mod dma_pin;
pub mod file_buf_witness;
pub mod fork;
pub mod fork_laws;
pub mod fork_refs_laws;
pub mod heap;
pub mod heap_bounds;
pub mod heap_laws;
pub mod higher_half_laws;
pub mod lock;
pub mod oom;
pub mod oom_laws;
pub mod physmem;
pub mod physmem_laws;
pub mod pmm;
pub mod pmm_laws;
pub mod refcount;
pub mod rss;
pub mod rss_laws;
pub mod stack_prov;
pub mod stack_prov_laws;
pub mod start_laws;
pub mod text;
pub mod text_laws;
pub mod tlb;
pub mod tlb_laws;
pub mod tree;
pub mod vma;
pub mod vma_dump;
pub mod vma_dump_laws;
pub mod vma_laws;
pub mod vmm;
pub mod vmm_laws;
pub mod w215_crc;
pub mod w215_crc_laws;
pub mod w215_diag;
pub mod w215_wptrap;
pub mod w215_wptrap_laws;

use vstd::prelude::*;
use crate::mm::dma_pin::DmaPinsView;
use crate::mm::heap::{
    after_guards, heap_phys_start, with_new_heap, LinkedListAllocator, HEAP_SIZE, PHYS_OFF,
};
use crate::mm::physmem::PhysMem;
use crate::mm::pmm::{Accounting, BootInfo, Frames, FramesView, PmmView};
use crate::mm::refcount::{RefCountsView, MAX_PAGES};
use crate::mm::vmm::{Vmm, ADDR_MASK};

verus! {

/// The reference counts after they were set up.
pub open spec fn refs_set_up(refs: RefCountsView) -> RefCountsView {
    if refs.counts is Some {
        refs
    } else {
        RefCountsView { counts: Some(Seq::new(MAX_PAGES as nat, |i: int| 0u16)), ..refs }
    }
}

/// The pin ledger after it was set up.
pub open spec fn pins_set_up(pins: DmaPinsView) -> DmaPinsView {
    if pins.words is Some {
        pins
    } else {
        DmaPinsView { words: Some(Seq::new(MAX_PAGES as nat, |i: int| 0u32)), ..pins }
    }
}

/// Whether the two guards of the heap could be put in place, whether frames ran out for the
/// kernel's address space, and memory and the frames after memory management was set up.
pub open spec fn after_start(
    mem: Seq<u64>,
    frames: FramesView,
    boot: BootInfo,
    kernel_end_va: u64,
    rsp: u64,
    cr3: u64,
    now: u64,
) -> (bool, bool, bool, Seq<u64>, FramesView) {
    let taken = FramesView { pmm: frames.pmm.after_boot(boot, kernel_end_va, rsp), ..frames };
    let p = vmm::after_init(mem, taken, cr3, kernel_end_va, now);
    let (ok1, ok2, m2, f2) = after_guards(
        with_new_heap(p.mem, kernel_end_va),
        p.frames,
        (heap_phys_start(kernel_end_va) + PHYS_OFF) as u64,
        cr3 & ADDR_MASK,
        now,
    );
    (
        ok1,
        ok2,
        p.short,
        m2,
        FramesView { refs: refs_set_up(f2.refs), pins: pins_set_up(f2.pins), ..f2 },
    )
}

/// No free waits for thread context.
pub open spec fn nothing_deferred(f: FramesView) -> bool {
    &&& f.pins.deferred.len() == 256
    &&& forall|i: int| 0 <= i < 256 ==> f.pins.deferred[i] == 0
}

proof fn lemma_empty_drain(f: FramesView, n: nat, now: u64)
    requires
        nothing_deferred(f),
        n <= 256,
    ensures
        f.after_drain(n, now) == f,
    decreases n,
{
    if n > 0 {
        lemma_empty_drain(f, (n - 1) as nat, now);
    }
}

proof fn lemma_least(s: Set<int>) -> (m: int)
    requires
        s.finite(),
        !s.is_empty(),
    ensures
        s.contains(m),
        forall|x: int| s.contains(x) ==> m <= x,
    decreases s.len(),
{
    let a = s.choose();
    let rest = s.remove(a);
    if rest.is_empty() {
        assert forall|x: int| s.contains(x) implies a <= x by {
            if x != a {
                assert(rest.contains(x));
            }
        }
        a
    } else {
        let b = lemma_least(rest);
        let m = if a <= b {
            a
        } else {
            b
        };
        assert forall|x: int| s.contains(x) implies m <= x by {
            if x != a {
                assert(rest.contains(x));
            }
        }
        m
    }
}

proof fn lemma_next_page_exists(s: PmmView)
    requires
        s.free.finite(),
        !s.free.is_empty(),
    ensures
        s.next_fit_choice(s.next_page()),
{
    let cursor = 8 * s.next_fit;
    let later = s.free.filter(|p: int| p >= cursor);
    if later.is_empty() {
        let m = lemma_least(s.free);
        assert forall|q: int| s.free.contains(q) implies m <= q < cursor by {
            if q >= cursor {
                assert(later.contains(q));
            }
        }
        assert(s.next_fit_choice(m));
    } else {
        let m = lemma_least(later);
        assert forall|q: int| cursor <= q < m implies !s.free.contains(q) by {
            if s.free.contains(q) {
                assert(later.contains(q));
            }
        }
        assert(s.next_fit_choice(m));
    }
}

proof fn lemma_allocation_counts(f: FramesView, now: u64)
    requires
        f.pmm.accounted(),
        nothing_deferred(f),
    ensures
        f.allocated(now).1.pmm.accounted(),
        nothing_deferred(f.allocated(now).1),
{
    let swept = f.after_sweep(now);
    lemma_empty_drain(
        FramesView { pins: DmaPinsView { last_sweep: now, ..f.pins }, ..f },
        256,
        now,
    );
    if !swept.pmm.free.is_empty() {
        lemma_next_page_exists(swept.pmm);
        let page = swept.pmm.next_page();
        pmm::law_alloc_keeps_accounting(
            swept.pmm,
            page,
            swept.refs.count((page * 4096) as u64),
            now,
        );
    }
}

proof fn lemma_separation_counts(mem: Seq<u64>, f: FramesView, pdpt: u64, n: nat, now: u64)
    requires
        f.pmm.accounted(),
        nothing_deferred(f),
    ensures
        vmm::after_separation(mem, f, pdpt, n, now).frames.pmm.accounted(),
        nothing_deferred(vmm::after_separation(mem, f, pdpt, n, now).frames),
    decreases n,
{
    if n > 0 {
        lemma_separation_counts(mem, f, pdpt, (n - 1) as nat, now);
        lemma_allocation_counts(
            vmm::after_separation(mem, f, pdpt, (n - 1) as nat, now).frames,
            now,
        );
    }
}

proof fn lemma_extension_counts(mem: Seq<u64>, f: FramesView, pdpt: u64, n: nat, now: u64)
    requires
        f.pmm.accounted(),
        nothing_deferred(f),
    ensures
        vmm::after_extension(mem, f, pdpt, n, now).frames.pmm.accounted(),
        nothing_deferred(vmm::after_extension(mem, f, pdpt, n, now).frames),
    decreases n,
{
    if n > 1 {
        lemma_extension_counts(mem, f, pdpt, (n - 1) as nat, now);
        lemma_allocation_counts(
            vmm::after_extension(mem, f, pdpt, (n - 1) as nat, now).frames,
            now,
        );
    }
}

proof fn lemma_vmm_init_counts(mem: Seq<u64>, f: FramesView, cr3: u64, kernel_end_va: u64, now: u64)
    requires
        f.pmm.accounted(),
        nothing_deferred(f),
    ensures
        vmm::after_init(mem, f, cr3, kernel_end_va, now).frames.pmm.accounted(),
        nothing_deferred(vmm::after_init(mem, f, cr3, kernel_end_va, now).frames),
{
    let start = heap_phys_start(kernel_end_va);
    pmm::law_reserve_keeps_accounting(
        f.pmm,
        (start - 0x1000) / 4096,
        (start + HEAP_SIZE + 0x1000 + 4095) / 4096,
    );
    let reserved = vmm::with_heap_reserved(f, kernel_end_va);
    let e = physmem::slot(mem, cr3 & ADDR_MASK, 256);
    lemma_separation_counts(mem, reserved, e & ADDR_MASK, 512, now);
    let p = vmm::after_separation(mem, reserved, e & ADDR_MASK, 512, now);
    let e2 = physmem::slot(p.mem, cr3 & ADDR_MASK, 256);
    lemma_extension_counts(p.mem, p.frames, e2 & ADDR_MASK, 4, now);
}

proof fn lemma_step_counts(
    mem: Seq<u64>,
    f: FramesView,
    table: u64,
    idx: int,
    level: int,
    now: u64,
)
    requires
        f.pmm.accounted(),
        nothing_deferred(f),
    ensures
        vmm::descend(mem, f, table, idx, level, 0, now).frames.pmm.accounted(),
        nothing_deferred(vmm::descend(mem, f, table, idx, level, 0, now).frames),
{
    reveal(vmm::descend);
    lemma_allocation_counts(f, now);
}

proof fn lemma_map_counts(mem: Seq<u64>, f: FramesView, root: u64, va: u64, now: u64)
    requires
        f.pmm.accounted(),
        nothing_deferred(f),
    ensures
        vmm::after_map(mem, f, root, va, 0, 0, now).2.pmm.accounted(),
        nothing_deferred(vmm::after_map(mem, f, root, va, 0, 0, now).2),
{
    lemma_step_counts(mem, f, root, vmm::idx4(va), 4, now);
    let s3 = vmm::descend(mem, f, root, vmm::idx4(va), 4, 0, now);
    if s3.next is Some {
        lemma_step_counts(s3.mem, s3.frames, s3.next->0, vmm::idx3(va), 3, now);
        let s2 = vmm::descend(s3.mem, s3.frames, s3.next->0, vmm::idx3(va), 3, 0, now);
        if s2.next is Some {
            lemma_step_counts(s2.mem, s2.frames, s2.next->0, vmm::idx2(va), 2, now);
        }
    }
}

proof fn lemma_guards_count(mem: Seq<u64>, f: FramesView, start: u64, root: u64, now: u64)
    requires
        f.pmm.accounted(),
        nothing_deferred(f),
    ensures
        after_guards(mem, f, start, root, now).3.pmm.accounted(),
{
    let below = start - 0x1000 - PHYS_OFF;
    let above = start + HEAP_SIZE - PHYS_OFF;
    let first = f.pmm.after_reserve(below / 4096, (below + 0x1000 + 4095) / 4096);
    pmm::law_reserve_keeps_accounting(f.pmm, below / 4096, (below + 0x1000 + 4095) / 4096);
    pmm::law_reserve_keeps_accounting(first, above / 4096, (above + 0x1000 + 4095) / 4096);
    let reserved = heap::with_guards_reserved(f, start);
    lemma_map_counts(mem, reserved, root, (start - 0x1000) as u64, now);
    let (ok1, m1, f1) = vmm::after_map(mem, reserved, root, (start - 0x1000) as u64, 0, 0, now);
    lemma_map_counts(m1, f1, root, (start + HEAP_SIZE) as u64, now);
}

/// Sets memory management up: the frames, the kernel's address space, the heap and its
/// guards, the reference counts and the pin ledger.  Gives back which of the two guards
/// are in place, whether frames ran out for the kernel's address space, and the counters of
/// the frames beside a count of their bitmap.
pub fn init(
    f: &mut Frames,
    vmm: &mut Vmm,
    heap: &mut LinkedListAllocator,
    mem: &mut PhysMem,
    boot_info: &BootInfo,
    kernel_end_va: u64,
    rsp: u64,
    cr3: u64,
    now: u64,
) -> (r: (bool, bool, bool, Accounting))
    requires
        old(f).wf(),
        boot_info.wf(kernel_end_va),
        kernel_end_va + 0x20_0FFF <= u64::MAX,
        heap_phys_start(kernel_end_va) + HEAP_SIZE <= 0x4000_0000,
    ensures
        final(f).wf(),
        (r.0, r.1, r.2, final(mem)@, final(f)@) == after_start(
            old(mem)@,
            old(f)@,
            *boot_info,
            kernel_end_va,
            rsp,
            cr3,
            now,
        ),
        final(vmm).kernel_cr3 == cr3,
        *final(heap) == (LinkedListAllocator {
            head: (heap_phys_start(kernel_end_va) + PHYS_OFF) as u64,
            initialized: true,
            total_bytes: HEAP_SIZE,
            allocated_bytes: 0,
            start: (heap_phys_start(kernel_end_va) + PHYS_OFF) as u64,
            ..*old(heap)
        }),
        r.3.total == final(f)@.pmm.total,
        r.3.used == final(f)@.pmm.used,
        r.3.reserved == final(f)@.pmm.reserved,
        r.3.counter_free == final(f)@.pmm.total.saturating_sub(final(f)@.pmm.used),
        r.3.bitmap_free == final(f)@.pmm.free.len(),
        old(f)@.pmm.free.is_empty() && nothing_deferred(old(f)@) ==> {
            &&& final(f)@.pmm.accounted()
            &&& r.3.counter_free == r.3.bitmap_free
        },
{
    pmm::init(&mut f.pmm, boot_info, kernel_end_va, rsp);
    assert(f@ =~= FramesView {
        pmm: old(f)@.pmm.after_boot(*boot_info, kernel_end_va, rsp),
        ..old(f)@
    });
    proof {
        if old(f)@.pmm.free.is_empty() && nothing_deferred(old(f)@) {
            let start = (heap_phys_start(kernel_end_va) + PHYS_OFF) as u64;
            lemma_vmm_init_counts(mem@, f@, cr3, kernel_end_va, now);
            let p = vmm::after_init(mem@, f@, cr3, kernel_end_va, now);
            lemma_guards_count(
                with_new_heap(p.mem, kernel_end_va),
                p.frames,
                start,
                cr3 & ADDR_MASK,
                now,
            );
        }
    }
    let short: bool = vmm::init(vmm, mem, f, cr3, kernel_end_va, now);
    heap::init(heap, mem, kernel_end_va);
    let (below, above) = heap::init_guard_pages(heap, mem, f, cr3, now);
    refcount::init(&mut f.refs);
    dma_pin::init(&mut f.pins);
    let accounting: Accounting = pmm::accounting_snapshot(&f.pmm);
    (below, above, short, accounting)
}

} // verus!
