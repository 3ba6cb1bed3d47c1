//! Provenance tables of frames and page-table entries.
use astryx_kernel::mm::cache::{insert, PageCache};
use astryx_kernel::mm::dma_pin::DmaPins;
use astryx_kernel::mm::physmem::PhysMem;
use astryx_kernel::mm::pmm::{
    self, BootInfo, Frames, MemoryMap, MemoryMapEntry, MemoryType, Pmm,
};
use astryx_kernel::mm::refcount::{self, RefCounts};
use astryx_kernel::mm::tlb::Tlb;
use astryx_kernel::mm::vmm::{map_page_in, PAGE_USER};
use astryx_kernel::mm::w215_diag::band::{
    band_check_free, band_counts, band_double_install_count, band_install_record,
    band_stale_tlb_count, band_unmap_record, in_band, Band,
};
use astryx_kernel::mm::w215_diag::cache_prov::{
    cache_band_resident_count, cache_clobber_count, cache_prov_band_selftest, cache_prov_counts,
    cache_prov_fault_bucket_a, cache_prov_init, cache_prov_install, cache_prov_reclaim,
    cache_prov_validated_count, cache_prov_write, cache_refdec_reuse_count, CacheProv,
    ClobberProbe,
};
use astryx_kernel::mm::w215_diag::preins::{
    install_race_count, op_str, preins_check_install, preins_check_op, preins_clear_on_insert,
    preins_register, window_race_count, Preins, OP_EVICT, SITE_PFH_READAHEAD,
};
use astryx_kernel::mm::w215_diag::probe::{
    check_user_buf_over_cache, counts, probe, Probes, Writer,
};
use astryx_kernel::mm::w215_diag::prov::{
    dump_prov_for_phys, kind_str, pack_cache_key, prov_record, prov_record_free,
    prov_ring_overflow_count, top_traced_physes, ProvTable, KIND_ALLOC, KIND_FREE, KIND_INSERT,
};
use astryx_kernel::mm::w215_diag::pte::{
    dump_pte_change_for_va, pte_change_displaced_count, pte_change_record,
    pte_change_recorded_count, pte_kind_str, Changer, PteDump, PteRing, PTE_KIND_MAP,
    PTE_KIND_UNMAP,
};
use astryx_kernel::mm::w215_diag::shadow::{
    alloc_shadow_displaced_count, alloc_shadow_lookup, alloc_shadow_record,
    alloc_shadow_recorded_count, dump_alloc_shadow_for_phys, dump_band_frame_prov,
    dump_free_shadow_for_phys, free_shadow_displaced_count, free_shadow_lookup,
    free_shadow_record, free_shadow_recorded_count, Shadow,
};

const ROOT: u64 = 0x40_0000;

fn machine() -> (PhysMem, Frames) {
    let mut f = Frames { pmm: Pmm::new(false), refs: RefCounts::new(false), pins: DmaPins::new() };
    let info = BootInfo {
        memory_map: MemoryMap {
            entries: vec![MemoryMapEntry {
                physical_start: 0,
                page_count: 0x1000,
                memory_type: MemoryType::Available,
            }],
            entry_count: 1,
        },
        kernel_phys_base: 0x10_0000,
        kernel_size: 0x20_1000,
        handoff_bytes: 0,
    };
    pmm::init(&mut f.pmm, &info, 0xFFFF_8000_0030_1000, 0);
    refcount::init(&mut f.refs);
    (PhysMem::new(0x1000), f)
}

#[test]
fn shadow_remembers_the_last_event_of_a_frame() {
    let mut s = Shadow::new();
    assert_eq!(free_shadow_lookup(&s, 0x5000), None);
    free_shadow_record(&mut s, 0x5000, 0x1111, 10);
    free_shadow_record(&mut s, 0x5000, 0x2222, 20);
    assert_eq!(free_shadow_lookup(&s, 0x5000), Some((20, 0x2222)));
    assert_eq!((free_shadow_recorded_count(&s), free_shadow_displaced_count(&s)), (2, 0));
    // A frame one table size further takes the slot over.
    free_shadow_record(&mut s, 0x5000 + 65_536 * 4096, 0x3333, 30);
    assert_eq!(free_shadow_lookup(&s, 0x5000), None);
    assert_eq!(free_shadow_displaced_count(&s), 1);
    let d = dump_free_shadow_for_phys(&s, 0x5000 + 65_536 * 4096, 35);
    let hit = d.hit.unwrap();
    assert_eq!((hit.tick, hit.age_ticks, hit.caller_rip), (30, 5, 0x3333));
    let mut a = Shadow::new();
    alloc_shadow_record(&mut a, 0x6000, 0x4444, 40);
    assert_eq!(alloc_shadow_lookup(&a, 0x6000), Some((40, 0x4444)));
    assert_eq!((alloc_shadow_recorded_count(&a), alloc_shadow_displaced_count(&a)), (1, 0));
    assert!(dump_alloc_shadow_for_phys(&a, 0x7000, 50).hit.is_none());
    assert_eq!(dump_band_frame_prov(&a, &s, 0x6000), (Some((40, 0x4444)), None));
}

#[test]
fn last_event_of_a_frame_is_on_record() {
    let mut t = ProvTable::new();
    assert_eq!(pack_cache_key(0x12, 0x5000), 0x12 * 0x100_0000 + 5);
    prov_record(&mut t, 0x5000, KIND_ALLOC, 0, 10);
    prov_record(&mut t, 0x5000, KIND_INSERT, pack_cache_key(1, 0), 20);
    prov_record_free(&mut t, 0x5000, 0x1234, 30);
    prov_record(&mut t, 0x6000, KIND_ALLOC, 0, 25);
    let d = dump_prov_for_phys(&t, 0x5000);
    assert_eq!(d.len(), 1);
    assert_eq!((d[0].kind, d[0].key, d[0].tick), (KIND_FREE, 0x1234, 30));
    assert_eq!(dump_prov_for_phys(&t, 0x6000)[0].kind, KIND_ALLOC);
    assert!(dump_prov_for_phys(&t, 0x7000).is_empty());
    assert_eq!(top_traced_physes(&t, 1).len(), 1);
    assert_eq!(top_traced_physes(&t, 0), vec![]);
    assert_eq!(prov_ring_overflow_count(&t), 0);
    assert_eq!(kind_str(KIND_ALLOC), "ALLOC");
}

#[test]
fn frame_is_witnessed_between_fill_and_insert() {
    let mut p = Preins::new();
    assert!(preins_check_op(&mut p, 0x5000).is_none());
    preins_register(&mut p, 0x5000, SITE_PFH_READAHEAD, 1, 0x1_2345, 0x9000, 10);
    let w = preins_check_op(&mut p, 0x5000).unwrap();
    assert_eq!((w.phys, w.site, w.cpu, w.inode_low16, w.off_low32), (0x5000, 2, 1, 0x2345, 9));
    assert_eq!(window_race_count(&p), 1);
    let r = preins_check_install(&mut p, 0x5000, 17).unwrap();
    assert_eq!(r.age_ticks, 7);
    assert_eq!(install_race_count(&p), 1);
    let done = preins_clear_on_insert(&mut p, 0x5000, 19).unwrap();
    assert_eq!((done.witness.site, done.age_ticks, done.n, done.report), (2, 9, 0, true));
    assert!(preins_check_install(&mut p, 0x5000, 20).is_none());
    assert!(preins_clear_on_insert(&mut p, 0x5000, 20).is_none());
    assert_eq!(op_str(OP_EVICT), "evict");
}

#[test]
fn user_buffer_over_a_cached_page_is_noticed() {
    let (mut mem, mut f) = machine();
    let mut cache = PageCache::new(false);
    let mut t = Tlb::new(1, false, false);
    insert(&mut cache, &mut f, &mut t, &mem, 4, 9, 0x3000, 0x50_0000, 0);
    assert!(map_page_in(&mut mem, &mut f, ROOT, 0x7000_1000, 0x50_0000, PAGE_USER, 0));
    assert!(map_page_in(&mut mem, &mut f, ROOT, 0x7000_0000, 0x51_0000, PAGE_USER, 0));
    assert!(check_user_buf_over_cache(&mem, ROOT, &cache, 0x7000_0000, 0x1000).is_none());
    let (va, phys, key) = check_user_buf_over_cache(&mem, ROOT, &cache, 0x7000_0800, 0x1000).unwrap();
    assert_eq!((va, phys, key.inode, key.page_offset), (0x7000_1000, 0x50_0000, 9, 0x3000));
    let mut p = Probes::new();
    let hit = probe(&mut p, &mem, ROOT, &cache, Writer::Statx, 0x7000_1010, 16).unwrap();
    assert!(hit.first);
    let hit = probe(&mut p, &mem, ROOT, &cache, Writer::Statx, 0x7000_1010, 16).unwrap();
    assert!(!hit.first);
    assert!(probe(&mut p, &mem, ROOT, &cache, Writer::Times, 0x7000_0000, 16).is_none());
    let c = counts(&p);
    assert_eq!(c.len(), 10);
    assert_eq!(c.iter().map(|x| x.1).sum::<u64>(), 2);
    assert_eq!(c[1], (Writer::Statx.name(), 2));
}

#[test]
fn second_frame_under_one_address_is_found() {
    let mut b = Band::new();
    let va = 0x7eff_1234_5000u64;
    assert!(in_band(va) && !in_band(0x7f00_0000_0000) && !in_band(0x7efe_ffff_ffff));
    assert!(band_install_record(&mut b, va, 0x50_0000, 0, 0x11, ROOT, 1, 10).is_none());
    let d = band_install_record(&mut b, va, 0x51_0000, 0, 0x22, ROOT, 1, 15).unwrap();
    assert_eq!((d.va, d.before.phys, d.new_phys, d.age_ticks), (va, 0x50_0000, 0x51_0000, 5));
    assert_eq!(band_double_install_count(&b), 1);
    // The frame is freed while it is still mapped.
    let s = band_check_free(&mut b, 0x51_0000, 20).unwrap();
    assert_eq!((s.mapped.va, s.age_ticks), (va, 5));
    assert_eq!(band_stale_tlb_count(&b), 1);
    band_unmap_record(&mut b, va);
    assert!(band_check_free(&mut b, 0x51_0000, 21).is_none());
    assert_eq!(band_counts(&b)[0], ("double_install", 1));
    assert_eq!(band_counts(&b)[2], ("installs", 2));
}

#[test]
fn last_change_of_an_entry_is_on_record() {
    let mut r = PteRing::new();
    let mut b = Band::new();
    let c = |tick| Changer { caller_rip: 0x1_2345_6789, cr3: ROOT, cpu: 2, tid: 7, tick };
    let va = 0x7eff_1234_5000u64;
    assert!(pte_change_record(&mut r, &mut b, va, 0x50_0000, 0, PTE_KIND_MAP, c(10)).is_none());
    match dump_pte_change_for_va(&r, va + 0x10, 12) {
        (0, PteDump::Hit { change, age_ticks }) => {
            assert_eq!((change.new_phys, change.rip_low32, age_ticks), (0x50_0000, 0x2345_6789, 2));
        }
        _ => panic!("not found"),
    }
    assert!(pte_change_record(&mut r, &mut b, va, 0, 0x50_0000, PTE_KIND_UNMAP, c(20)).is_none());
    // Cleared before it is filled again: nothing is wrong.
    assert!(pte_change_record(&mut r, &mut b, va, 0x51_0000, 0, PTE_KIND_MAP, c(30)).is_none());
    let d = pte_change_record(&mut r, &mut b, va, 0x52_0000, 0, PTE_KIND_MAP, c(40)).unwrap();
    assert_eq!((d.before.phys, d.new_phys, d.age_ticks), (0x51_0000, 0x52_0000, 10));
    assert_eq!((pte_change_recorded_count(&r), pte_change_displaced_count(&r)), (4, 0));
    assert!(matches!(dump_pte_change_for_va(&r, va + 0x1000, 40).1, PteDump::Miss { .. }));
    assert!(matches!(
        dump_pte_change_for_va(&r, 0xFFFF_8000_0000_0000, 40).1,
        PteDump::OutOfWindow
    ));
    assert_eq!(pte_kind_str(PTE_KIND_MAP), "MAP");
}

#[test]
fn clobbered_cache_page_is_told_from_a_written_one() {
    let mut mem = PhysMem::new(0x1_0100);
    let mut p = CacheProv::new();
    let phys = 0x1000_5000u64;
    cache_prov_install(&mut p, &mem, phys, 4, 9, 0x3000, 1, 10);
    assert_eq!(cache_prov_validated_count(&p), 0);
    cache_prov_init(&mut p);
    cache_prov_install(&mut p, &mem, phys, 4, 9, 0x3000, 1, 10);
    assert_eq!(cache_prov_validated_count(&p), 1);
    assert_eq!(cache_band_resident_count(&p), 1);
    assert!(matches!(
        cache_prov_fault_bucket_a(&mut p, &mem, 0, 4, 9, 0x3000, 12),
        ClobberProbe::NoFrame
    ));
    assert!(matches!(
        cache_prov_fault_bucket_a(&mut p, &mem, 0x5000, 4, 9, 0x3000, 12),
        ClobberProbe::OutOfBand
    ));
    assert!(matches!(
        cache_prov_fault_bucket_a(&mut p, &mem, phys + 0x1000, 4, 9, 0x3000, 12),
        ClobberProbe::Miss
    ));
    assert!(matches!(
        cache_prov_fault_bucket_a(&mut p, &mem, phys, 4, 8, 0x3000, 12),
        ClobberProbe::KeyMismatch { .. }
    ));
    assert!(matches!(
        cache_prov_fault_bucket_a(&mut p, &mem, phys, 4, 9, 0x3000, 12),
        ClobberProbe::FpMatch { .. }
    ));
    // A write through the cache is known.
    mem.write(phys, 0, 5);
    assert!(cache_prov_write(&mut p, &mem, phys, 0x1234, 1, 13).is_none());
    assert!(matches!(
        cache_prov_fault_bucket_a(&mut p, &mem, phys, 4, 9, 0x3000, 14),
        ClobberProbe::FpMatch { .. }
    ));
    // Any other is a clobber.
    mem.write(phys, 0, 6);
    match cache_prov_fault_bucket_a(&mut p, &mem, phys, 4, 9, 0x3000, 15) {
        ClobberProbe::Clobbered { n, entry, age_ticks, .. } => {
            assert_eq!((n, entry.last_write_rip, age_ticks), (1, 0x1234, 5));
        }
        _ => panic!("not found"),
    }
    assert_eq!(cache_clobber_count(&p), 1);
    // A frame that the cache gave up is written through an old mapping.
    cache_prov_reclaim(&mut p, phys);
    let r = cache_prov_write(&mut p, &mem, phys, 0x9999, 1, 20).unwrap();
    assert_eq!((r.n, r.age_ticks), (1, 10));
    assert_eq!(cache_refdec_reuse_count(&p), 1);
    assert_eq!(cache_prov_band_selftest(&p), (1, 1, 0));
    let c = cache_prov_counts(&p);
    assert_eq!(c[0], ("cache_clobber", 1));
    assert_eq!(c[8], ("band_residents", 0));
}
