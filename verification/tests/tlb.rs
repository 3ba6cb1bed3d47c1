//! Shootdowns of stale translations, and the quarantine of freed frames.
use astryx_kernel::mm::dma_pin::DmaPins;
use astryx_kernel::mm::pmm::{
    self, is_page_used_for_test, BootInfo, FreeVerdict, Frames, MemoryMap, MemoryMapEntry,
    MemoryType, Pmm,
};
use astryx_kernel::mm::refcount::RefCounts;
use astryx_kernel::mm::tlb::{
    acknowledge_slot, await_done, claim_slot, forget_cr3, handle_shootdown_ipi,
    local_invlpg_range, mark_self_smp_online, mark_smp_active, note_cr3_load, note_cr3_unload,
    on_cpu_tick, poll_acks, poll_done, quarantine_free, release_frames, shootdown_full_user,
    shootdown_page, shootdown_range, shootdown_targets, snapshot_active_mask, stats,
    test_self_service_drains_own_slot, DoneWait, Flush, Tlb, ACK_BOUND, DONE_BOUND,
};

fn frames() -> Frames {
    let mut f = Frames { pmm: Pmm::new(false), refs: RefCounts::new(false), pins: DmaPins::new() };
    let info = BootInfo {
        memory_map: MemoryMap {
            entries: vec![MemoryMapEntry {
                physical_start: 0,
                page_count: 0x1000,
                memory_type: MemoryType::Available,
            }],
            entry_count: 1,
        },
        kernel_phys_base: 0x10_0000,
        kernel_size: 0x10_0000,
        handoff_bytes: 0,
    };
    pmm::init(&mut f.pmm, &info, 0xFFFF_8000_0030_0000, 0);
    f
}

fn pages(f: Flush) -> Option<Vec<u64>> {
    match f {
        Flush::All => None,
        Flush::Pages(p) => Some(p),
    }
}

#[test]
fn small_ranges_are_flushed_by_page_and_large_ones_whole() {
    assert_eq!(pages(local_invlpg_range(0x5FFF, 0x7001)), Some(vec![0x5000, 0x6000, 0x7000]));
    assert_eq!(pages(local_invlpg_range(0x5000, 0x5000)), Some(vec![]));
    assert_eq!(pages(local_invlpg_range(0, 32 * 4096)).map(|p| p.len()), Some(32));
    assert!(pages(local_invlpg_range(0, 33 * 4096)).is_none());
}

#[test]
fn active_processors_are_tracked_by_address_space() {
    let mut t = Tlb::new(4, false, false);
    assert_eq!(snapshot_active_mask(&t, 0x5000), 0);
    note_cr3_load(&mut t, 0x5000, 1);
    note_cr3_load(&mut t, 0x5000, 3);
    note_cr3_load(&mut t, 0x6000, 0);
    assert_eq!(snapshot_active_mask(&t, 0x5000), 0b1010);
    assert_eq!(snapshot_active_mask(&t, 0x6000), 0b0001);
    note_cr3_unload(&mut t, 0x5000, 1);
    assert_eq!(snapshot_active_mask(&t, 0x5000), 0b1000);
    note_cr3_unload(&mut t, 0x5000, 3);
    assert_eq!(snapshot_active_mask(&t, 0x5000), 0);
    forget_cr3(&mut t, 0x5000);
    assert_eq!(snapshot_active_mask(&t, 0x6000), 0b0001);
}

#[test]
fn shootdown_asks_everyone_else_who_runs_the_address_space() {
    let mut t = Tlb::new(4, false, false);
    for cpu in [0u64, 1, 3] {
        note_cr3_load(&mut t, 0x5000, cpu);
    }
    // With one processor online there is nobody to ask.
    assert!(shootdown_page(&mut t, 0x5000, 0x1234, 0).wait.is_none());
    mark_smp_active(&mut t);
    mark_self_smp_online(&mut t);
    assert_eq!(shootdown_targets(&t, 0x5000, 0), vec![1, 3]);
    assert_eq!(shootdown_targets(&t, 0x7000, 0), Vec::<u64>::new());
    let s = shootdown_range(&mut t, 0x5000, 0x8000, 0xA000, 0);
    assert_eq!(pages(s.local), Some(vec![0x8000, 0x9000]));
    let mut wait = s.wait.unwrap();
    assert_eq!(wait.targets, vec![1, 3]);
    let p = poll_acks(&mut t, &mut wait, 0x5000);
    assert!(p.verdict.is_none() && !p.own.claimed);
    let s1 = handle_shootdown_ipi(&t, 1, 0x5000);
    assert!(s1.claimed);
    assert_eq!(s1.flush.and_then(pages), Some(vec![0x8000, 0x9000]));
    // A processor that runs something else by now has nothing to flush, but answers.
    let s3 = handle_shootdown_ipi(&t, 3, 0x6000);
    assert!(s3.claimed && s3.flush.is_none());
    assert!(!handle_shootdown_ipi(&t, 2, 0x5000).claimed);
    // Nobody has answered before the flush is done.
    assert!(poll_acks(&mut t, &mut wait, 0x5000).verdict.is_none());
    assert!(acknowledge_slot(&mut t, 1));
    assert!(poll_acks(&mut t, &mut wait, 0x5000).verdict.is_none());
    assert!(acknowledge_slot(&mut t, 3));
    assert!(!acknowledge_slot(&mut t, 2));
    let p = poll_acks(&mut t, &mut wait, 0x5000);
    assert_eq!(p.verdict, Some(true));
    let st = stats(&t);
    assert_eq!((st.shootdowns_sent, st.ipis_sent, st.shootdowns_handled), (1, 2, 2));
    assert_eq!(st.ack_timeouts, 0);
}

#[test]
fn waiting_processor_serves_its_own_requests() {
    let mut t = Tlb::new(2, false, false);
    mark_smp_active(&mut t);
    note_cr3_load(&mut t, 0x5000, 0);
    note_cr3_load(&mut t, 0x5000, 1);
    let mut w0 = shootdown_page(&mut t, 0x5000, 0x1000, 0).wait.unwrap();
    let mut w1 = shootdown_page(&mut t, 0x5000, 0x2000, 1).wait.unwrap();
    // Processor 0 waits for 1, and finds what 1 wants of it.
    let p = poll_acks(&mut t, &mut w0, 0x5000);
    assert_eq!(p.own.flush.and_then(pages), Some(vec![0x2000]));
    assert!(p.verdict.is_none());
    assert!(acknowledge_slot(&mut t, 0));
    let p = poll_acks(&mut t, &mut w1, 0x5000);
    assert_eq!(p.own.flush.and_then(pages), Some(vec![0x1000]));
    assert!(acknowledge_slot(&mut t, 1));
    assert_eq!(p.verdict, Some(true));
    assert_eq!(poll_acks(&mut t, &mut w0, 0x5000).verdict, Some(true));
}

#[test]
fn silent_processor_is_given_up_after_a_bound() {
    let mut t = Tlb::new(2, true, false);
    mark_smp_active(&mut t);
    note_cr3_load(&mut t, 0x5000, 1);
    let mut w = shootdown_full_user(&mut t, 0x5000, 0).wait.unwrap();
    w.iters = ACK_BOUND - 2;
    assert!(poll_acks(&mut t, &mut w, 0).verdict.is_none());
    assert_eq!(poll_acks(&mut t, &mut w, 0).verdict, Some(false));
    let st = stats(&t);
    assert_eq!((st.ack_timeouts, st.unclean_total), (1, 1));
    // Its request is withdrawn.
    assert!(!claim_slot(&t, 1, 0x5000).claimed);
    assert!(!acknowledge_slot(&mut t, 1));
}

#[test]
fn done_flags_are_looked_at_a_bounded_number_of_times() {
    let mut t = Tlb::new(3, true, false);
    mark_smp_active(&mut t);
    note_cr3_load(&mut t, 0x5000, 1);
    note_cr3_load(&mut t, 0x5000, 2);
    let w = shootdown_page(&mut t, 0x5000, 0x1000, 0).wait.unwrap();
    assert!(acknowledge_slot(&mut t, 1));
    let mut d = await_done(&t, w).unwrap();
    assert_eq!(d.remaining, vec![1, 2]);
    for look in 1..DONE_BOUND {
        assert_eq!(poll_done(&mut t, &mut d), None);
        // One that is done is not looked at again.
        assert_eq!((d.remaining.clone(), d.iters), (vec![2], look));
    }
    assert_eq!(stats(&t).clean_ack_late, 0);
    assert_eq!(poll_done(&mut t, &mut d), Some(vec![2]));
    assert_eq!(stats(&t).clean_ack_late, 1);
    // Where all are done the first look is the last.
    assert!(acknowledge_slot(&mut t, 2));
    let mut d = DoneWait { remaining: vec![1, 2], iters: 0 };
    assert_eq!(poll_done(&mut t, &mut d), Some(vec![]));
    assert_eq!(stats(&t).clean_ack_late, 1);
    // Without the flags there is nothing to look at.
    let mut t = Tlb::new(2, false, false);
    mark_smp_active(&mut t);
    note_cr3_load(&mut t, 0x5000, 1);
    let w = shootdown_page(&mut t, 0x5000, 0x1000, 0).wait.unwrap();
    assert!(await_done(&t, w).is_none());
}

#[test]
fn shootdowns_can_be_switched_off() {
    let mut t = Tlb::new(2, false, true);
    mark_smp_active(&mut t);
    note_cr3_load(&mut t, 0x5000, 1);
    let s = shootdown_page(&mut t, 0x5000, 0x1000, 0);
    assert!(s.wait.is_none());
    assert_eq!(pages(s.local), Some(vec![0x1000]));
    assert_eq!(stats(&t).shootdowns_sent, 0);
}

#[test]
fn frame_leaves_quarantine_after_a_tick_of_every_processor() {
    let mut t = Tlb::new(2, false, false);
    let mut f = frames();
    let a = pmm::alloc_page(&mut f, 0).unwrap();
    on_cpu_tick(&mut t, &mut f, 0, 2, 10, 10);
    on_cpu_tick(&mut t, &mut f, 1, 2, 10, 10);
    assert!(quarantine_free(&mut t, &mut f, a, 10).is_none());
    assert!(quarantine_free(&mut t, &mut f, 0, 10).is_none());
    assert_eq!(stats(&t).quarantine_depth, 1);
    assert!(is_page_used_for_test(&f.pmm, a / 4096));
    on_cpu_tick(&mut t, &mut f, 0, 2, 12, 12);
    assert!(is_page_used_for_test(&f.pmm, a / 4096));
    on_cpu_tick(&mut t, &mut f, 1, 2, 12, 12);
    assert!(!is_page_used_for_test(&f.pmm, a / 4096));
    let st = stats(&t);
    assert_eq!((st.quarantine_deferred, st.quarantine_released, st.quarantine_depth), (1, 1, 0));
}

#[test]
fn request_waits_until_the_flush_is_reported() {
    let mut t = Tlb::new(2, true, false);
    mark_smp_active(&mut t);
    note_cr3_load(&mut t, 0x5000, 1);
    let w = shootdown_page(&mut t, 0x5000, 0x1000, 0).wait.unwrap();
    assert_eq!(w.targets, vec![1]);
    let mut d = await_done(&t, w).unwrap();
    // Looking at the slot changes nothing, however often it is done.
    for _ in 0..2 {
        let s = claim_slot(&t, 1, 0x5000);
        assert!(s.claimed);
        assert_eq!(s.flush.and_then(pages), Some(vec![0x1000]));
        assert_eq!(poll_done(&mut t, &mut d), None);
        assert_eq!(stats(&t).shootdowns_handled, 0);
    }
    assert!(acknowledge_slot(&mut t, 1));
    assert_eq!(poll_done(&mut t, &mut d), Some(vec![]));
    assert_eq!(stats(&t).shootdowns_handled, 1);
    assert!(!claim_slot(&t, 1, 0x5000).claimed);
    // A processor that does not exist has no slot.
    assert!(!claim_slot(&t, 2, 0x5000).claimed);
    assert!(!acknowledge_slot(&mut t, 2));
}

#[test]
fn released_frames_are_free_after_a_clean_shootdown_and_held_after_another() {
    let mut t = Tlb::new(2, false, false);
    let mut f = frames();
    let a = pmm::alloc_page(&mut f, 0).unwrap();
    let b = pmm::alloc_page(&mut f, 0).unwrap();
    let c = pmm::alloc_page(&mut f, 0).unwrap();
    release_frames(&mut f, &mut t, &vec![a, b], true, 1);
    assert!(!is_page_used_for_test(&f.pmm, a / 4096));
    assert!(!is_page_used_for_test(&f.pmm, b / 4096));
    assert_eq!(stats(&t).quarantine_depth, 0);
    release_frames(&mut f, &mut t, &vec![c], false, 1);
    assert!(is_page_used_for_test(&f.pmm, c / 4096));
    assert_eq!(stats(&t).quarantine_depth, 1);
    on_cpu_tick(&mut t, &mut f, 0, 2, 3, 3);
    on_cpu_tick(&mut t, &mut f, 1, 2, 3, 3);
    assert!(!is_page_used_for_test(&f.pmm, c / 4096));
}

#[test]
fn full_quarantine_frees_at_once() {
    let mut t = Tlb::new(2, false, false);
    let mut f = frames();
    for _ in 0..256 {
        let a = pmm::alloc_page(&mut f, 0).unwrap();
        assert!(quarantine_free(&mut t, &mut f, a, 1).is_none());
    }
    let a = pmm::alloc_page(&mut f, 0).unwrap();
    assert_eq!(quarantine_free(&mut t, &mut f, a, 1), Some(FreeVerdict::Freed));
    assert!(!is_page_used_for_test(&f.pmm, a / 4096));
    assert_eq!(stats(&t).quarantine_deferred, 256);
}

#[test]
fn own_slot_is_drained_by_its_test() {
    let mut t = Tlb::new(2, true, false);
    assert_eq!(test_self_service_drains_own_slot(&mut t, 1, 0x5000), (true, false));
    assert_eq!(stats(&t).shootdowns_handled, 1);
}
