//! Page frames: the allocator, reference counts and pins.
use astryx_kernel::mm::dma_pin::{
    self, drain_deferred, drain_deferred_if_due, is_pinned, mark_free_pending_if_pinned, page_span,
    pin, pin_count, pin_range, test_ledger, unpin, unpin_ledger, unpin_range, DmaPins, UnpinResult,
};
use astryx_kernel::mm::pmm::{
    self, accounting_snapshot, accounting_snapshot_nonblocking, alloc_page, alloc_page_after_oom,
    alloc_pages, boot_info_phys_page_span, bootstrap_stack_assert_rsp_reserved,
    bootstrap_stack_phys_span, caller_rip_slot, exhausted_count, free_page, free_page_count,
    is_kernel_static_phys, is_page_used_for_test, kernel_image_phys_range,
    pmm_alloc_nonzero_rc_count, pmm_alloc_recent_free_count, pmm_free_already_free_count,
    pmm_free_kernel_static_refused_count, pmm_free_residual_refs_count, reserve_range,
    reserved_page_count, BadKernelRsp, BootInfo, FreeVerdict, Frames, MemoryMap, MemoryMapEntry,
    MemoryType, Pmm, RecentFreeRing,
};
use astryx_kernel::mm::refcount::{
    self, page_ref_count, page_ref_dec, page_ref_dec_underflow_count, page_ref_inc, page_ref_set,
    pfn, pte_share_count, refcount_set_over_nonzero_count, RefCounts,
};

const KERNEL_END_VA: u64 = 0xFFFF_8000_0030_0000;

fn boot_info() -> BootInfo {
    BootInfo {
        memory_map: MemoryMap {
            entries: vec![
                MemoryMapEntry {
                    physical_start: 0,
                    page_count: 0x2000,
                    memory_type: MemoryType::Available,
                },
                MemoryMapEntry {
                    physical_start: 0x200_0000,
                    page_count: 16,
                    memory_type: MemoryType::Reserved,
                },
            ],
            entry_count: 2,
        },
        kernel_phys_base: 0x10_0000,
        kernel_size: 0x10_0000,
        handoff_bytes: 0x1800,
    }
}

/// 0x2000 frames of memory, taken over from the firmware.
fn booted(diag: bool) -> Frames {
    let mut f = Frames { pmm: Pmm::new(diag), refs: RefCounts::new(diag), pins: DmaPins::new() };
    pmm::init(&mut f.pmm, &boot_info(), KERNEL_END_VA, 0x1A0_0000);
    refcount::init(&mut f.refs);
    dma_pin::init(&mut f.pins);
    f
}

#[test]
fn boot_reserves_kernel_handoff_low_memory_and_stack() {
    let f = booted(false);
    // Low memory, the image from 1 MiB to 3 MiB and 1 MiB of slack after it.
    for page in 0..0x400 {
        assert!(is_page_used_for_test(&f.pmm, page));
    }
    assert!(!is_page_used_for_test(&f.pmm, 0x400));
    // The handoff structure at 16 MiB takes two frames.
    assert_eq!(boot_info_phys_page_span(0x1800), (0x1000, 0x1001, 0x1800));
    assert!(is_page_used_for_test(&f.pmm, 0x1000));
    assert!(is_page_used_for_test(&f.pmm, 0x1001));
    assert!(!is_page_used_for_test(&f.pmm, 0x1002));
    // The stack: 128 frames below the pointer, 4 above.
    assert_eq!(bootstrap_stack_phys_span(&f.pmm), (0x198_0000, 0x1A0_4000));
    assert!(!is_page_used_for_test(&f.pmm, 0x197F));
    assert!(is_page_used_for_test(&f.pmm, 0x1980));
    assert!(is_page_used_for_test(&f.pmm, 0x1A04));
    assert!(!is_page_used_for_test(&f.pmm, 0x1A05));
    // Memory that the firmware keeps cannot be handed out.
    assert!(is_page_used_for_test(&f.pmm, 0x2000));
    assert!(!is_page_used_for_test(&f.pmm, 0x10_0000));
    let reserved = 0x400 + 2 + 133;
    assert_eq!(reserved_page_count(&f.pmm), reserved);
    assert_eq!(pmm::stats(&f.pmm), (0x2000, reserved));
    assert_eq!(free_page_count(&f.pmm), 0x2000 - reserved);
    let a = accounting_snapshot(&f.pmm);
    assert_eq!(a.counter_free, a.bitmap_free);
    assert_eq!(a.drift(), 0);
    assert_eq!(kernel_image_phys_range(&f.pmm), (0x10_0000, 0x30_0000));
    assert!(is_kernel_static_phys(&f.pmm, 0x10_0000));
    assert!(is_kernel_static_phys(&f.pmm, 0x2F_FFFF));
    assert!(!is_kernel_static_phys(&f.pmm, 0x30_0000));
    assert!(!is_kernel_static_phys(&f.pmm, 0xF_FFFF));
}

#[test]
fn stack_pointer_must_lie_in_its_reservation() {
    let f = booted(false);
    assert_eq!(bootstrap_stack_assert_rsp_reserved(&f.pmm, 0x1A0_0000).is_ok(), true);
    assert!(bootstrap_stack_assert_rsp_reserved(&f.pmm, 0xFFFF_8000_0000_0000).is_ok());
    assert!(bootstrap_stack_assert_rsp_reserved(&f.pmm, 0).is_ok());
    assert!(bootstrap_stack_assert_rsp_reserved(&f.pmm, 0x1A0_4FFF).is_ok());
    match bootstrap_stack_assert_rsp_reserved(&f.pmm, 0x1A0_5000) {
        Err(BadKernelRsp { rsp, lo, hi }) => {
            assert_eq!((rsp, lo, hi), (0x1A0_5000, 0x198_0000, 0x1A0_4FFF));
        }
        Ok(()) => panic!("outside"),
    }
    let unset = Pmm::new(false);
    assert!(bootstrap_stack_assert_rsp_reserved(&unset, 0x5000).is_ok());
}

#[test]
fn frames_are_handed_out_once_and_come_back() {
    let mut f = booted(false);
    let free = free_page_count(&f.pmm);
    let a = alloc_page(&mut f, 1).unwrap();
    let b = alloc_page(&mut f, 1).unwrap();
    // The search goes on with the next group of eight frames.
    assert_eq!(a, 0x40_0000);
    assert_eq!(b, 0x40_8000);
    assert_eq!(free_page_count(&f.pmm), free - 2);
    assert_eq!(free_page(&mut f, a, 2), FreeVerdict::Freed);
    assert_eq!(free_page_count(&f.pmm), free - 1);
    let c = alloc_page(&mut f, 3).unwrap();
    assert_eq!(c, 0x41_0000);
    assert!(is_page_used_for_test(&f.pmm, c / 4096));
    assert_eq!(accounting_snapshot(&f.pmm).drift(), 0);
}

#[test]
fn refused_frees_say_why() {
    let mut f = booted(false);
    assert_eq!(free_page(&mut f, 0x1_0000_0000, 0), FreeVerdict::OutOfRange);
    assert_eq!(free_page(&mut f, 0x10_0000, 0), FreeVerdict::KernelStatic);
    assert_eq!(pmm_free_kernel_static_refused_count(&f.pmm), 1);
    let a = alloc_page(&mut f, 0).unwrap();
    page_ref_set(&mut f.refs, a, 1);
    assert_eq!(free_page(&mut f, a, 0), FreeVerdict::ResidualRefs);
    assert_eq!(pmm_free_residual_refs_count(&f.pmm), 1);
    page_ref_set(&mut f.refs, a, 0);
    pin(&mut f.pins, a);
    assert_eq!(free_page(&mut f, a, 0), FreeVerdict::Deferred);
    assert!(is_page_used_for_test(&f.pmm, a / 4096));
    assert_eq!(unpin(&mut f, a, true, 0), UnpinResult::FreeDue);
    assert!(!is_page_used_for_test(&f.pmm, a / 4096));
    let before = accounting_snapshot(&f.pmm);
    assert_eq!(free_page(&mut f, a, 0), FreeVerdict::AlreadyFree);
    assert_eq!(pmm_free_already_free_count(&f.pmm), 1);
    assert_eq!(accounting_snapshot(&f.pmm).counter_free, before.counter_free);
    assert_eq!(accounting_snapshot(&f.pmm).drift(), 0);
}

#[test]
fn exhaustion_is_counted_and_tried_once_more() {
    let mut f = booted(false);
    let free = free_page_count(&f.pmm);
    for _ in 0..free {
        assert!(alloc_page(&mut f, 1).is_some());
    }
    assert_eq!(alloc_page(&mut f, 1), None);
    assert_eq!(exhausted_count(&f.pmm), 1);
    // Nobody was killed, so there is nothing to try.
    assert_eq!(alloc_page_after_oom(&mut f, 1, None), None);
    assert_eq!(alloc_page_after_oom(&mut f, 1, Some(7)), None);
    assert_eq!(free_page(&mut f, 0x50_0000, 1), FreeVerdict::Freed);
    assert_eq!(alloc_page_after_oom(&mut f, 1, Some(7)), Some(0x50_0000));
}

#[test]
fn runs_of_frames_are_the_lowest_that_fit() {
    let mut f = booted(false);
    let used = pmm::stats(&f.pmm).1;
    assert_eq!(alloc_pages(&mut f.pmm, 0), None);
    assert_eq!(alloc_pages(&mut f.pmm, 3), Some(0x40_0000));
    assert_eq!(pmm::stats(&f.pmm).1, used + 3);
    // A hole of two frames is too small for a run of three.
    assert_eq!(free_page(&mut f, 0x40_0000, 0), FreeVerdict::Freed);
    assert_eq!(free_page(&mut f, 0x40_1000, 0), FreeVerdict::Freed);
    assert_eq!(alloc_pages(&mut f.pmm, 3), Some(0x40_3000));
    assert_eq!(alloc_pages(&mut f.pmm, 2), Some(0x40_0000));
    assert_eq!(alloc_pages(&mut f.pmm, 0x2000), None);
    assert_eq!(accounting_snapshot(&f.pmm).drift(), 0);
}

#[test]
fn reserving_twice_reserves_once() {
    let mut f = booted(false);
    let (_, used) = pmm::stats(&f.pmm);
    reserve_range(&mut f.pmm, 0x50_0800, 0x50_1801);
    assert_eq!(pmm::stats(&f.pmm).1, used + 2);
    assert!(is_page_used_for_test(&f.pmm, 0x500));
    assert!(is_page_used_for_test(&f.pmm, 0x501));
    reserve_range(&mut f.pmm, 0x50_0800, 0x50_1801);
    assert_eq!(pmm::stats(&f.pmm).1, used + 2);
    assert_eq!(accounting_snapshot(&f.pmm).drift(), 0);
}

#[test]
fn snapshot_needs_the_lock() {
    let f = booted(false);
    let lock = spin::Mutex::new(());
    let a = accounting_snapshot_nonblocking(&lock, &f.pmm).unwrap();
    assert_eq!(a.total, 0x2000);
    let held = lock.lock();
    assert!(accounting_snapshot_nonblocking(&lock, &f.pmm).is_none());
    drop(held);
    assert!(accounting_snapshot_nonblocking(&lock, &f.pmm).is_some());
}

#[test]
fn recent_frees_are_remembered_for_a_moment() {
    let mut r = RecentFreeRing::new();
    assert_eq!(r.find(0x5000, 10, 2), None);
    r.push(0x5000, 10);
    assert_eq!(r.find(0x5000, 12, 2), Some(10));
    assert_eq!(r.find(0x5000, 13, 2), None);
    r.forget(0x5000);
    assert_eq!(r.find(0x5000, 10, 2), None);

    let mut f = booted(true);
    let free = free_page_count(&f.pmm);
    for _ in 0..free {
        assert!(alloc_page(&mut f, 1).is_some());
    }
    assert_eq!(free_page(&mut f, 0x50_0000, 100), FreeVerdict::Freed);
    assert_eq!(alloc_page(&mut f, 101), Some(0x50_0000));
    assert_eq!(pmm_alloc_recent_free_count(&f.pmm), 1);
    assert_eq!(free_page(&mut f, 0x50_0000, 200), FreeVerdict::Freed);
    page_ref_set(&mut f.refs, 0x50_0000, 3);
    assert_eq!(alloc_page(&mut f, 300), Some(0x50_0000));
    assert_eq!(pmm_alloc_recent_free_count(&f.pmm), 1);
    assert_eq!(pmm_alloc_nonzero_rc_count(&f.pmm), 1);
}

#[test]
fn return_address_is_read_only_from_the_direct_map() {
    assert_eq!(caller_rip_slot(0xFFFF_8000_0000_1000), Some(0xFFFF_8000_0000_1008));
    assert_eq!(caller_rip_slot(0xFFFF_8000_0000_1004), None);
    assert_eq!(caller_rip_slot(0), None);
    assert_eq!(caller_rip_slot(0x7FFF_0000_1000), None);
    assert_eq!(caller_rip_slot(0xFFFF_8000_FFFF_FFF8), None);
    assert_eq!(caller_rip_slot(0xFFFF_8000_FFFF_FFF0), Some(0xFFFF_8000_FFFF_FFF8));
    assert_eq!(caller_rip_slot(0xFFFF_FFFF_FFFF_FFF8), None);
}

#[test]
fn references_go_up_and_down() {
    let mut rc = RefCounts::new(true);
    assert_eq!(page_ref_count(&rc, 0x5000), 0);
    refcount::init(&mut rc);
    assert_eq!(pfn(0x5FFF), 5);
    page_ref_inc(&mut rc, 0x5000);
    page_ref_inc(&mut rc, 0x5FFF);
    assert_eq!(page_ref_count(&rc, 0x5123), 2);
    assert_eq!(pte_share_count(&rc, 0x5123), 2);
    assert_eq!(page_ref_count(&rc, 0x6000), 0);
    assert_eq!(page_ref_dec(&mut rc, 0x5000), 1);
    assert_eq!(page_ref_dec(&mut rc, 0x5000), 0);
    assert_eq!(page_ref_dec_underflow_count(&rc), 0);
    assert_eq!(page_ref_dec(&mut rc, 0x5000), 0);
    assert_eq!(page_ref_count(&rc, 0x5000), 0);
    assert_eq!(page_ref_dec_underflow_count(&rc), 1);
    page_ref_set(&mut rc, 0x5000, 7);
    assert_eq!(refcount_set_over_nonzero_count(&rc), 0);
    page_ref_set(&mut rc, 0x5000, 1);
    assert_eq!(page_ref_count(&rc, 0x5000), 1);
    assert_eq!(refcount_set_over_nonzero_count(&rc), 1);
    // Beyond the memory there is nothing to count.
    page_ref_inc(&mut rc, 0x1_0000_0000);
    assert_eq!(page_ref_count(&rc, 0x1_0000_0000), 0);
}

#[test]
fn pins_hold_a_free_back_until_the_last_one_goes() {
    let mut p = DmaPins::new();
    assert_eq!(pin_count(&p, 0x5000), 0);
    dma_pin::init(&mut p);
    assert!(!mark_free_pending_if_pinned(&mut p, 0x5000));
    pin(&mut p, 0x5000);
    pin(&mut p, 0x5FFF);
    assert_eq!(pin_count(&p, 0x5800), 2);
    assert!(is_pinned(&p, 0x5000));
    assert!(!is_pinned(&p, 0x6000));
    assert!(mark_free_pending_if_pinned(&mut p, 0x5000));
    assert!(mark_free_pending_if_pinned(&mut p, 0x5000));
    assert_eq!(dma_pin::stats(&p).0, 1);
    assert_eq!(unpin_ledger(&mut p, 0x5000), UnpinResult::NoFree);
    assert_eq!(unpin_ledger(&mut p, 0x5000), UnpinResult::FreeDue);
    assert_eq!(pin_count(&p, 0x5000), 0);
    assert_eq!(unpin_ledger(&mut p, 0x5000), UnpinResult::Underflow);
}

#[test]
fn ranges_pin_every_frame_they_touch() {
    assert_eq!(page_span(0x1FFF, 2), (1, 2));
    assert_eq!(page_span(0x1FFF, 0), (1, 0));
    let mut f = booted(false);
    pin_range(&mut f.pins, 0x40_0FFF, 2);
    assert_eq!(pin_count(&f.pins, 0x40_0000), 1);
    assert_eq!(pin_count(&f.pins, 0x40_1000), 1);
    assert_eq!(pin_count(&f.pins, 0x40_2000), 0);
    unpin_range(&mut f, 0x40_0FFF, 2, true, 0);
    assert_eq!(pin_count(&f.pins, 0x40_0000), 0);
    assert_eq!(pin_count(&f.pins, 0x40_1000), 0);
    pin_range(&mut f.pins, 0x40_0000, 0);
    assert_eq!(pin_count(&f.pins, 0x40_0000), 0);
}

#[test]
fn frees_from_interrupts_wait_in_the_ring() {
    let mut f = booted(false);
    let a = alloc_page(&mut f, 1).unwrap();
    pin(&mut f.pins, a);
    assert_eq!(free_page(&mut f, a, 1), FreeVerdict::Deferred);
    assert_eq!(unpin(&mut f, a, false, 1), UnpinResult::FreeDue);
    assert!(is_page_used_for_test(&f.pmm, a / 4096));
    drain_deferred_if_due(&mut f, 50);
    assert!(is_page_used_for_test(&f.pmm, a / 4096));
    drain_deferred_if_due(&mut f, 150);
    assert!(!is_page_used_for_test(&f.pmm, a / 4096));
    assert_eq!(dma_pin::stats(&f.pins), (1, 1, 0));
}

#[test]
fn full_ring_keeps_the_frame_pinned() {
    let mut f = booted(false);
    for i in 0..257u64 {
        let a = 0x40_0000 + i * 4096;
        reserve_range(&mut f.pmm, a, a + 4096);
        pin(&mut f.pins, a);
        assert_eq!(free_page(&mut f, a, 0), FreeVerdict::Deferred);
        unpin(&mut f, a, false, 0);
    }
    let last = 0x40_0000 + 256 * 4096;
    assert_eq!(dma_pin::stats(&f.pins).2, 1);
    assert!(is_pinned(&f.pins, last));
    assert!(!is_pinned(&f.pins, 0x40_0000));
    drain_deferred(&mut f, 0);
    assert!(!is_page_used_for_test(&f.pmm, 0x400));
    assert!(is_page_used_for_test(&f.pmm, last / 4096));
    assert_eq!(unpin(&mut f, last, true, 0), UnpinResult::FreeDue);
    assert!(!is_page_used_for_test(&f.pmm, last / 4096));
}

#[test]
fn ledger_passes_its_own_test() {
    let mut p = DmaPins::new();
    dma_pin::init(&mut p);
    assert_eq!(test_ledger(&mut p), Ok(()));
    let mut unset = DmaPins::new();
    assert!(test_ledger(&mut unset).is_err());
}
