//! Page tables, guards and resident-page counts.
use astryx_kernel::mm::dma_pin::DmaPins;
use astryx_kernel::mm::physmem::PhysMem;
use astryx_kernel::mm::pmm::{
    self, free_page_count, is_page_used_for_test, BootInfo, Frames, MemoryMap, MemoryMapEntry,
    MemoryType, Pmm,
};
use astryx_kernel::mm::refcount::{self, page_ref_count, page_ref_set, RefCounts};
use astryx_kernel::mm::rss::{
    account, attach, attach_failures, detach, resident_pages, tracked_count, underflow_count,
    walk_resident_pages, RssTable,
};
use astryx_kernel::mm::tlb::{
    handle_shootdown_ipi, mark_smp_active, note_cr3_load, release_frames, Flush, Tlb,
};
use astryx_kernel::mm::vma::{make_generation_for_test, register_mm_generation, MmRegistry};
use astryx_kernel::mm::vmm::{
    self, get_cr3, get_kernel_cr3, install_not_present_guard, is_identity_map_phys, lookup_pte_in,
    map_page, map_page_in, read_pte, unmap_and_free_range_in, unmap_page, unmap_page_in,
    virt_to_phys, virt_to_phys_in, write_pte, Vmm, PAGE_HUGE, PAGE_PRESENT, PAGE_USER,
    PAGE_WRITABLE,
};

const ROOT: u64 = 0x40_0000;

/// Memory of 16 MiB with the frames from 4 MiB + 4 KiB on free.
fn machine() -> (PhysMem, Frames) {
    let mut f = Frames { pmm: Pmm::new(false), refs: RefCounts::new(false), pins: DmaPins::new() };
    let info = BootInfo {
        memory_map: MemoryMap {
            entries: vec![MemoryMapEntry {
                physical_start: 0,
                page_count: 0x1000,
                memory_type: MemoryType::Available,
            }],
            entry_count: 1,
        },
        kernel_phys_base: 0x10_0000,
        kernel_size: 0x20_1000,
        handoff_bytes: 0,
    };
    pmm::init(&mut f.pmm, &info, 0xFFFF_8000_0030_1000, 0);
    refcount::init(&mut f.refs);
    (PhysMem::new(0x1000), f)
}

#[test]
fn mapped_page_translates_and_its_neighbours_do_not() {
    let (mut mem, mut f) = machine();
    let va = 0x7F12_3456_7000;
    assert_eq!(virt_to_phys_in(&mem, ROOT, va), None);
    let free = free_page_count(&f.pmm);
    assert!(map_page_in(&mut mem, &mut f, ROOT, va, 0x50_0000, PAGE_WRITABLE | PAGE_USER, 0));
    // Three tables were needed.
    assert_eq!(free_page_count(&f.pmm), free - 3);
    assert_eq!(virt_to_phys_in(&mem, ROOT, va + 0x123), Some(0x50_0123));
    assert_eq!(virt_to_phys(&mem, ROOT | 5, va + 0xFFF), Some(0x50_0FFF));
    assert_eq!(virt_to_phys_in(&mem, ROOT, va + 0x1000), None);
    assert_eq!(virt_to_phys_in(&mem, ROOT, va - 0x1000), None);
    let pte = 0x50_0000 | PAGE_WRITABLE | PAGE_USER | PAGE_PRESENT;
    assert_eq!(read_pte(&mem, ROOT, va), pte);
    assert_eq!(lookup_pte_in(&mem, ROOT, va), Some(pte));
    assert_eq!(lookup_pte_in(&mem, ROOT, va + 0x1000), None);
    assert!(map_page(&mut mem, &mut f, ROOT, va + 0x1000, 0x50_1000, PAGE_USER, 0));
    assert_eq!(virt_to_phys_in(&mem, ROOT, va + 0x1000), Some(0x50_1000));
    assert_eq!(virt_to_phys_in(&mem, ROOT, va), Some(0x50_0000));
    assert_eq!(free_page_count(&f.pmm), free - 3);
    assert!(unmap_page_in(&mut mem, ROOT, va));
    assert_eq!(virt_to_phys_in(&mem, ROOT, va), None);
    assert_eq!(virt_to_phys_in(&mem, ROOT, va + 0x1000), Some(0x50_1000));
    assert!(unmap_page(&mut mem, ROOT, va + 0x1000));
    assert_eq!(read_pte(&mem, ROOT, va + 0x1000), 0);
    assert!(!unmap_page_in(&mut mem, ROOT, 0x1000));
}

#[test]
fn written_entry_is_read_back() {
    let (mut mem, mut f) = machine();
    assert!(!write_pte(&mut mem, ROOT, 0x5000, 0x50_0003));
    assert!(map_page_in(&mut mem, &mut f, ROOT, 0x5000, 0x50_0000, PAGE_WRITABLE, 0));
    assert!(write_pte(&mut mem, ROOT, 0x5000, 0x51_0001));
    assert_eq!(read_pte(&mem, ROOT, 0x5000), 0x51_0001);
    assert_eq!(virt_to_phys_in(&mem, ROOT, 0x5008), Some(0x51_0008));
}

#[test]
fn large_pages_translate_and_are_split_where_a_small_one_is_mapped() {
    let (mut mem, mut f) = machine();
    // 4 GiB from zero on, the second 2 MiB as one large page; then 1 GiB as one.
    mem.write(ROOT, 0, 0x50_0000 | PAGE_PRESENT | PAGE_WRITABLE);
    mem.write(0x50_0000, 0, 0x50_1000 | PAGE_PRESENT | PAGE_WRITABLE);
    mem.write(0x50_0000, 1, 0x4000_0000 | PAGE_PRESENT | PAGE_HUGE);
    mem.write(0x50_1000, 1, 0x20_0000 | PAGE_PRESENT | PAGE_WRITABLE | PAGE_HUGE);
    assert_eq!(virt_to_phys_in(&mem, ROOT, 0x20_1234), Some(0x20_1234));
    assert_eq!(virt_to_phys_in(&mem, ROOT, 0x4012_3456), Some(0x4012_3456));
    assert_eq!(virt_to_phys_in(&mem, ROOT, 0x1234), None);
    assert_eq!(lookup_pte_in(&mem, ROOT, 0x20_1000), None);
    assert!(map_page_in(&mut mem, &mut f, ROOT, 0x20_3000, 0x70_0000, PAGE_WRITABLE, 0));
    assert_eq!(virt_to_phys_in(&mem, ROOT, 0x20_3010), Some(0x70_0010));
    for page in 0..512u64 {
        let va = 0x20_0000 + page * 0x1000;
        if va != 0x20_3000 {
            assert_eq!(virt_to_phys_in(&mem, ROOT, va), Some(va));
        }
    }
}

#[test]
fn guard_page_faults() {
    let (mut mem, mut f) = machine();
    assert!(map_page_in(&mut mem, &mut f, ROOT, 0x5000, 0x50_0000, PAGE_WRITABLE, 0));
    assert!(map_page_in(&mut mem, &mut f, ROOT, 0x6000, 0x51_0000, PAGE_WRITABLE, 0));
    assert!(install_not_present_guard(&mut mem, &mut f, ROOT, 0x5000, 0));
    assert_eq!(virt_to_phys_in(&mem, ROOT, 0x5000), None);
    assert_eq!(virt_to_phys_in(&mem, ROOT, 0x6000), Some(0x51_0000));
}

#[test]
fn unmapped_range_gives_back_what_nobody_else_uses() {
    let (mut mem, mut f) = machine();
    let free = free_page_count(&f.pmm);
    pmm::reserve_range(&mut f.pmm, 0x50_0000, 0x50_2000);
    assert!(map_page_in(&mut mem, &mut f, ROOT, 0x5000, 0x50_0000, PAGE_USER, 0));
    assert!(map_page_in(&mut mem, &mut f, ROOT, 0x6000, 0x50_1000, PAGE_USER, 0));
    page_ref_set(&mut f.refs, 0x50_0000, 1);
    page_ref_set(&mut f.refs, 0x50_1000, 2);
    let mut t = Tlb::new(2, false, false);
    mark_smp_active(&mut t);
    note_cr3_load(&mut t, ROOT, 1);
    let mut reg = MmRegistry::new();
    let g = make_generation_for_test(&mut reg);
    register_mm_generation(&mut reg, ROOT, g);
    let gone =
        unmap_and_free_range_in(&mut mem, &mut f, &mut t, &mut reg, ROOT, 0x5000, 0x3000, 0);
    // Whoever is about to map a page there sees that something changed.
    assert_eq!(reg.generations[g as usize], 1);
    assert_eq!(gone.frames, vec![0x50_0000]);
    // Nothing is free before the other processor has been asked about the whole range.
    assert!(is_page_used_for_test(&f.pmm, 0x500));
    assert_eq!(gone.shootdown.wait.unwrap().targets, vec![1]);
    match handle_shootdown_ipi(&t, 1, ROOT).flush {
        Some(Flush::Pages(p)) => assert_eq!(p, vec![0x5000, 0x6000, 0x7000]),
        _ => panic!("not asked"),
    }
    release_frames(&mut f, &mut t, &gone.frames, true, 0);
    assert!(!is_page_used_for_test(&f.pmm, 0x500));
    assert!(is_page_used_for_test(&f.pmm, 0x501));
    assert_eq!(page_ref_count(&f.refs, 0x50_1000), 1);
    assert_eq!(virt_to_phys_in(&mem, ROOT, 0x5000), None);
    assert_eq!(virt_to_phys_in(&mem, ROOT, 0x6000), None);
    assert_eq!(free_page_count(&f.pmm), free - 3 - 1);
}

#[test]
fn start_splits_the_shared_tables_and_extends_the_direct_map() {
    let (mut mem, mut f) = machine();
    // The low and the high half share one directory of 2 MiB pages.
    mem.write(ROOT, 0, 0x50_0000 | PAGE_PRESENT | PAGE_WRITABLE);
    mem.write(ROOT, 256, 0x50_1000 | PAGE_PRESENT | PAGE_WRITABLE);
    mem.write(0x50_0000, 0, 0x50_2000 | PAGE_PRESENT | PAGE_WRITABLE);
    mem.write(0x50_1000, 0, 0x50_2000 | PAGE_PRESENT | PAGE_WRITABLE);
    for i in 0..512u64 {
        mem.write(0x50_2000, i, (i * 0x20_0000) | PAGE_PRESENT | PAGE_WRITABLE | PAGE_HUGE);
    }
    pmm::reserve_range(&mut f.pmm, 0x50_0000, 0x50_3000);
    let mut v = Vmm { kernel_cr3: 0 };
    assert!(!vmm::init(&mut v, &mut mem, &mut f, ROOT, 0xFFFF_8000_0030_1000, 0));
    assert_eq!(get_kernel_cr3(&v), ROOT);
    let high = 0xFFFF_8000_0000_0000u64;
    assert_ne!(mem.read(0x50_1000, 0) & 0x000F_FFFF_FFFF_F000, 0x50_2000);
    assert_eq!(mem.read(0x50_0000, 0) & 0x000F_FFFF_FFFF_F000, 0x50_2000);
    for phys in [0u64, 0x1234, 0x20_0000, 0x3FFF_FFFF, 0x4000_0000, 0xC123_4567, 0xFFFF_FFFF] {
        assert_eq!(virt_to_phys_in(&mem, ROOT, high + phys), Some(phys));
    }
    assert_eq!(virt_to_phys_in(&mem, ROOT, high + 0x1_0000_0000), None);
    // A change in the low half no longer shows in the high one.
    assert!(unmap_and_map(&mut mem, &mut f));
    assert_eq!(virt_to_phys_in(&mem, ROOT, high + 0x5000), Some(0x5000));
    // The heap with its guards is out of reach of the allocator.
    assert!(is_page_used_for_test(&f.pmm, 0x7FF));
    assert!(is_page_used_for_test(&f.pmm, 0x800));
}

fn unmap_and_map(mem: &mut PhysMem, f: &mut Frames) -> bool {
    map_page_in(mem, f, ROOT, 0x5000, 0x60_0000, PAGE_WRITABLE, 0)
        && virt_to_phys_in(mem, ROOT, 0x5000) == Some(0x60_0000)
}

#[test]
fn large_pages_are_left_alone_by_unmapping() {
    let (mut mem, mut f) = machine();
    mem.write(ROOT, 0, 0x50_0000 | PAGE_PRESENT | PAGE_WRITABLE);
    mem.write(0x50_0000, 0, 0x50_1000 | PAGE_PRESENT | PAGE_WRITABLE);
    mem.write(0x50_0000, 1, 0x4000_0000 | PAGE_PRESENT | PAGE_HUGE);
    mem.write(0x50_1000, 1, 0x60_0000 | PAGE_PRESENT | PAGE_WRITABLE | PAGE_HUGE);
    mem.write(0x60_0000, 1, 77);
    page_ref_set(&mut f.refs, 0x60_1000, 1);
    let before = mem.words.clone();
    assert!(!unmap_page_in(&mut mem, ROOT, 0x20_1000));
    assert!(!unmap_page(&mut mem, ROOT, 0x4000_1000));
    assert!(!write_pte(&mut mem, ROOT, 0x20_1000, 0x51_0001));
    let mut t = Tlb::new(2, false, false);
    let mut reg = MmRegistry::new();
    let gone =
        unmap_and_free_range_in(&mut mem, &mut f, &mut t, &mut reg, ROOT, 0x20_1000, 0x1000, 0);
    assert!(gone.frames.is_empty());
    assert_eq!(page_ref_count(&f.refs, 0x60_1000), 1);
    assert_eq!(virt_to_phys_in(&mem, ROOT, 0x20_1008), Some(0x60_1008));
    assert!(mem.words == before);
}

#[test]
fn gigabyte_page_is_split_where_a_small_one_is_mapped() {
    let (mut mem, mut f) = machine();
    mem.write(ROOT, 0, 0x50_0000 | PAGE_PRESENT | PAGE_WRITABLE);
    mem.write(0x50_0000, 1, 0x8000_0000 | PAGE_PRESENT | PAGE_WRITABLE | PAGE_HUGE);
    pmm::reserve_range(&mut f.pmm, 0x50_0000, 0x50_1000);
    let free = free_page_count(&f.pmm);
    assert!(map_page_in(&mut mem, &mut f, ROOT, 0x4040_3000, 0x70_0000, PAGE_USER, 0));
    assert_eq!(free_page_count(&f.pmm), free - 2);
    assert_eq!(virt_to_phys_in(&mem, ROOT, 0x4040_3010), Some(0x70_0010));
    // Its neighbours, near and far, are where they were, and as writable.
    for off in [0u64, 0x1234, 0x1F_FFFF, 0x40_2FFF, 0x40_4000, 0x60_0000, 0x3FFF_FFFF] {
        let va = 0x4000_0000 + off;
        assert_eq!(virt_to_phys_in(&mem, ROOT, va), Some(0x8000_0000 + off));
        assert_ne!(read_pte(&mem, ROOT, va) & PAGE_WRITABLE, 0);
    }
    assert_eq!(read_pte(&mem, ROOT, 0x4060_0000) & PAGE_HUGE, PAGE_HUGE);
}

#[test]
fn mapping_fails_only_for_want_of_frames_and_can_be_made_again() {
    let (mut mem, mut f) = machine();
    let mut taken = Vec::new();
    while let Some(phys) = pmm::alloc_page(&mut f, 0) {
        taken.push(phys);
    }
    assert!(!map_page_in(&mut mem, &mut f, ROOT, 0x5000, 0x50_0000, PAGE_USER, 0));
    assert!(!install_not_present_guard(&mut mem, &mut f, ROOT, 0x5000, 0));
    assert_eq!(virt_to_phys_in(&mem, ROOT, 0x5000), None);
    // Two frames are not enough for three tables; with one more the rest is made.
    for phys in taken.drain(..2) {
        pmm::free_page(&mut f, phys, 0);
    }
    assert!(!map_page_in(&mut mem, &mut f, ROOT, 0x5000, 0x50_0000, PAGE_USER, 0));
    assert_eq!(free_page_count(&f.pmm), 0);
    for phys in taken.drain(..1) {
        pmm::free_page(&mut f, phys, 0);
    }
    assert!(map_page_in(&mut mem, &mut f, ROOT, 0x5000, 0x50_0000, PAGE_USER, 0));
    assert_eq!(virt_to_phys_in(&mem, ROOT, 0x5000), Some(0x50_0000));
    assert_eq!(free_page_count(&f.pmm), 0);
}

#[test]
fn start_says_when_frames_ran_out() {
    let (mut mem, mut f) = machine();
    mem.write(ROOT, 256, 0x50_1000 | PAGE_PRESENT | PAGE_WRITABLE);
    mem.write(0x50_1000, 0, 0x50_2000 | PAGE_PRESENT | PAGE_WRITABLE);
    while pmm::alloc_page(&mut f, 0).is_some() {}
    let mut v = Vmm { kernel_cr3: 0 };
    assert!(vmm::init(&mut v, &mut mem, &mut f, ROOT, 0xFFFF_8000_0030_1000, 0));
    assert_eq!(mem.read(0x50_1000, 0) & 0x000F_FFFF_FFFF_F000, 0x50_2000);
    assert_eq!(mem.read(0x50_1000, 1), 0);
}

#[test]
fn root_address_has_no_flag_bits() {
    assert_eq!(get_cr3(0x40_0018), 0x40_0000);
    assert!(is_identity_map_phys(0x5000, 0x5000));
    assert!(!is_identity_map_phys(0x5000, 0x6000));
    assert!(!is_identity_map_phys(0x1_0000_0000, 0x1_0000_0000));
}

#[test]
fn resident_pages_are_counted_per_address_space() {
    let mut t = RssTable::new();
    assert_eq!(resident_pages(&t, 0x5000), None);
    assert!(attach(&mut t, 0x5000));
    assert!(attach(&mut t, 0x6000));
    assert_eq!(tracked_count(&t), 2);
    assert_eq!(resident_pages(&t, 0x5000), Some(0));
    account(&mut t, 0x5000, 3);
    account(&mut t, 0x5000, -1);
    account(&mut t, 0x7000, 9);
    assert_eq!(resident_pages(&t, 0x5000), Some(2));
    assert_eq!(resident_pages(&t, 0x6000), Some(0));
    assert_eq!(underflow_count(&t), 0);
    account(&mut t, 0x6000, -1);
    assert_eq!(resident_pages(&t, 0x6000), Some(0));
    assert_eq!(underflow_count(&t), 1);
    detach(&mut t, 0x5000);
    assert_eq!(resident_pages(&t, 0x5000), None);
    assert_eq!(resident_pages(&t, 0x6000), Some(0));
    assert_eq!(tracked_count(&t), 1);
    assert!(attach(&mut t, 0x5000));
    assert_eq!(resident_pages(&t, 0x5000), Some(0));
}

#[test]
fn full_table_refuses_a_new_address_space() {
    let mut t = RssTable::new();
    for i in 1..=256u64 {
        assert!(attach(&mut t, i * 0x1000));
    }
    assert_eq!(tracked_count(&t), 256);
    assert!(!attach(&mut t, 0x10_1000));
    assert_eq!(attach_failures(&t), 1);
    detach(&mut t, 0x7000);
    assert!(attach(&mut t, 0x10_1000));
    assert_eq!(resident_pages(&t, 0x10_1000), Some(0));
}

#[test]
fn walk_counts_the_user_half_without_the_identity_map() {
    let (mut mem, mut f) = machine();
    assert_eq!(walk_resident_pages(&mem, ROOT), 0);
    assert!(map_page_in(&mut mem, &mut f, ROOT, 0x5000, 0x50_0000, PAGE_USER, 0));
    assert!(map_page_in(&mut mem, &mut f, ROOT, 0x7F00_0000_0000, 0x50_1000, PAGE_USER, 0));
    assert!(map_page_in(&mut mem, &mut f, ROOT, 0x6000, 0x6000, PAGE_WRITABLE, 0));
    assert!(map_page_in(&mut mem, &mut f, ROOT, 0xFFFF_8000_0000_0000, 0x50_3000, PAGE_USER, 0));
    assert_eq!(walk_resident_pages(&mem, ROOT), 2);
    // A large leaf counts as the frames that it covers.
    mem.write(ROOT, 1, 0x60_0000 | PAGE_PRESENT);
    mem.write(0x60_0000, 0, 0x4000_0000 | PAGE_PRESENT | PAGE_HUGE);
    mem.write(0x60_0000, 1, 0x60_1000 | PAGE_PRESENT);
    mem.write(0x60_1000, 3, 0x80_0000 | PAGE_PRESENT | PAGE_HUGE);
    assert_eq!(walk_resident_pages(&mem, ROOT), 2 + 512 * 512 + 512);
}
