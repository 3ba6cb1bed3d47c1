//! Address spaces: areas, placement, the heap end, sharing and forking.
use astryx_kernel::mm::dma_pin::DmaPins;
use astryx_kernel::mm::physmem::PhysMem;
use astryx_kernel::mm::pmm::{
    self, free_page_count, is_page_used_for_test, BootInfo, Frames, MemoryMap, MemoryMapEntry,
    MemoryType, Pmm,
};
use astryx_kernel::mm::refcount::{self, page_ref_count, page_ref_set, RefCounts};
use astryx_kernel::mm::fork::fork_frames;
use astryx_kernel::mm::tlb::{
    handle_shootdown_ipi, mark_smp_active, note_cr3_load, release_frames, Flush, Tlb,
};
use astryx_kernel::mm::vma::{
    bump_generation_for_cr3, fault_access_permitted, make_generation_for_test,
    make_mm_sem_for_test, mm_sem_for_cr3, page_align_down, page_align_up, randomised_mmap_hint,
    randomised_stack_aslr_base, register_mm_generation, register_mm_sem,
    unregister_mm_generation, unregister_mm_sem, FaultAccess, InodeKey, InodePins, MmRegistry,
    VmArea, VmBacking, VmSpace, VmaError, MAP_ANONYMOUS, MAP_PRIVATE, MAP_SHARED, PROT_EXEC,
    PROT_NONE, PROT_READ, PROT_WRITE,
};
use astryx_kernel::mm::vmm::{
    map_page_in, read_pte, virt_to_phys_in, PAGE_NO_EXECUTE, PAGE_PRESENT, PAGE_USER,
    PAGE_WRITABLE,
};

const KERNEL_ROOT: u64 = 0x3F_0000;

fn machine() -> (PhysMem, Frames) {
    let mut f = Frames { pmm: Pmm::new(false), refs: RefCounts::new(false), pins: DmaPins::new() };
    let info = BootInfo {
        memory_map: MemoryMap {
            entries: vec![MemoryMapEntry {
                physical_start: 0,
                page_count: 0x1000,
                memory_type: MemoryType::Available,
            }],
            entry_count: 1,
        },
        kernel_phys_base: 0x10_0000,
        kernel_size: 0x20_0000,
        handoff_bytes: 0,
    };
    pmm::init(&mut f.pmm, &info, 0xFFFF_8000_0030_0000, 0);
    refcount::init(&mut f.refs);
    let mut mem = PhysMem::new(0x1000);
    mem.write(KERNEL_ROOT, 256, 0x20_0003);
    (mem, f)
}

fn anon(base: u64, length: u64, prot: u32, flags: u32) -> VmArea {
    VmArea {
        base,
        length,
        prot,
        flags: flags | MAP_ANONYMOUS,
        backing: VmBacking::Anonymous,
        name: "[anon]",
    }
}

fn file(base: u64, length: u64, inode: u64, offset: u64) -> VmArea {
    VmArea {
        base,
        length,
        prot: PROT_READ,
        flags: MAP_PRIVATE,
        backing: VmBacking::File { mount_idx: 3, inode, offset, elf_load_delta: 0 },
        name: "lib.so",
    }
}

fn user_space(reg: &mut MmRegistry) -> VmSpace {
    VmSpace::new_kernel(reg, 0x5000)
}

#[test]
fn areas_know_their_bounds_and_rights() {
    let a = anon(0x5000, 0x3000, PROT_READ | PROT_WRITE, MAP_PRIVATE);
    assert_eq!(a.end(), 0x8000);
    assert!(a.contains(0x5000) && a.contains(0x7FFF) && !a.contains(0x8000) && !a.contains(0x4FFF));
    assert!(a.overlaps(0x7FFF, 1) && !a.overlaps(0x8000, 1) && !a.overlaps(0x4000, 0x1000));
    assert_eq!(
        a.to_page_flags(),
        PAGE_PRESENT | PAGE_WRITABLE | PAGE_NO_EXECUTE | PAGE_USER
    );
    let x = anon(0x5000, 0x1000, PROT_READ | PROT_EXEC, MAP_PRIVATE);
    assert_eq!(x.to_page_flags(), PAGE_PRESENT | PAGE_USER);
    let k = anon(0xFFFF_8000_0000_0000, 0x1000, PROT_READ, MAP_PRIVATE);
    assert_eq!(k.to_page_flags(), PAGE_PRESENT | PAGE_NO_EXECUTE);
    assert_eq!(
        a.describe(),
        "VMA 0x0000000000005000-0x0000000000008000 rw- [anon]"
    );
}

#[test]
fn faults_are_held_against_the_rights() {
    assert!(matches!(FaultAccess::from_error_code(0x10), FaultAccess::InstructionFetch));
    assert!(matches!(FaultAccess::from_error_code(0x07), FaultAccess::Write));
    assert!(matches!(FaultAccess::from_error_code(0x05), FaultAccess::Read));
    assert!(!fault_access_permitted(PROT_NONE, FaultAccess::Read));
    assert!(fault_access_permitted(PROT_READ, FaultAccess::Read));
    assert!(fault_access_permitted(PROT_WRITE, FaultAccess::Read));
    assert!(fault_access_permitted(PROT_EXEC, FaultAccess::Read));
    assert!(!fault_access_permitted(PROT_READ, FaultAccess::Write));
    assert!(fault_access_permitted(PROT_WRITE, FaultAccess::Write));
    assert!(!fault_access_permitted(PROT_READ | PROT_WRITE, FaultAccess::InstructionFetch));
    assert!(fault_access_permitted(PROT_EXEC, FaultAccess::InstructionFetch));
}

#[test]
fn addresses_round_to_pages() {
    assert_eq!(page_align_up(0x5001), 0x6000);
    assert_eq!(page_align_up(0x5000), 0x5000);
    assert_eq!(page_align_down(0x5FFF), 0x5000);
}

#[test]
fn inserted_areas_stay_in_order_and_apart() {
    let mut reg = MmRegistry::new();
    let mut pins = InodePins::new();
    let mut s = user_space(&mut reg);
    for base in [0x9000u64, 0x5000, 0x7000] {
        let a = anon(base, 0x1000, PROT_READ, MAP_PRIVATE);
        assert!(s.insert_vma(&mut reg, &mut pins, a).is_ok());
    }
    let bases: Vec<u64> = s.areas.iter().map(|a| a.base).collect();
    assert_eq!(bases, vec![0x5000, 0x7000, 0x9000]);
    let a = anon(0x6000, 0x2000, PROT_READ, MAP_PRIVATE);
    assert!(matches!(s.insert_vma(&mut reg, &mut pins, a), Err(VmaError::Overlap)));
    assert_eq!(s.areas.len(), 3);
    assert_eq!(s.find_vma(0x7FFF).map(|a| a.base), Some(0x7000));
    assert!(s.find_vma(0x8000).is_none());
    if let Some(a) = s.find_vma_mut(0x9000) {
        a.prot = PROT_WRITE;
    }
    assert_eq!(s.areas[2].prot, PROT_WRITE);
    // Three insertions that worked, three changes.
    assert_eq!(reg.generations[s.generation as usize], 3);
    let lines = s.dump();
    assert_eq!(lines.len(), 4);
    assert_eq!(lines[0], format!("  VmSpace CR3={:#x}, 3 VMAs, brk={:#x}:", s.cr3, s.brk));
    assert_eq!(lines[1], "    VMA 0x0000000000005000-0x0000000000006000 r-- [anon]");
}

#[test]
fn removing_a_range_takes_exactly_that_range() {
    let mut reg = MmRegistry::new();
    let mut pins = InodePins::new();
    let mut s = user_space(&mut reg);
    let key = InodeKey { mount_idx: 3, inode: 77 };
    assert!(s.insert_vma(&mut reg, &mut pins, file(0x10_0000, 0x6000, 77, 0x2000)).is_ok());
    assert_eq!(pins.pin_count(key), 1);
    // A hole in the middle leaves two pieces of the file.
    assert!(s.remove_range(&mut reg, &mut pins, 0x10_2000, 0x1000).is_ok());
    assert_eq!(s.areas.len(), 2);
    assert_eq!((s.areas[0].base, s.areas[0].length), (0x10_0000, 0x2000));
    assert_eq!((s.areas[1].base, s.areas[1].length), (0x10_3000, 0x3000));
    match s.areas[1].backing {
        VmBacking::File { inode, offset, .. } => assert_eq!((inode, offset), (77, 0x5000)),
        _ => panic!("a piece of the file"),
    }
    assert_eq!(pins.pin_count(key), 2);
    // The end of the first piece and the start of the second.
    assert!(s.remove_range(&mut reg, &mut pins, 0x10_1000, 0x3000).is_ok());
    assert_eq!((s.areas[0].base, s.areas[0].length), (0x10_0000, 0x1000));
    assert_eq!((s.areas[1].base, s.areas[1].length), (0x10_4000, 0x2000));
    match s.areas[1].backing {
        VmBacking::File { offset, .. } => assert_eq!(offset, 0x6000),
        _ => panic!("a piece of the file"),
    }
    assert!(s.remove_range(&mut reg, &mut pins, 0, 0x7F00_0000_0000).is_ok());
    assert!(s.areas.is_empty());
    assert_eq!(pins.pin_count(key), 0);
}

#[test]
fn free_ranges_are_found_from_the_top_down() {
    let mut reg = MmRegistry::new();
    let mut pins = InodePins::new();
    let mut s = user_space(&mut reg);
    assert_eq!(s.mmap_hint, 0x7F00_0000_0000);
    assert_eq!(s.find_free_range(0x1001), Some(0x7EFF_FFFF_E000));
    let a = anon(0x7EFF_FFFF_E000, 0x2000, PROT_READ, MAP_PRIVATE);
    assert!(s.insert_vma(&mut reg, &mut pins, a).is_ok());
    assert_eq!(s.find_free_range(0x1000), Some(0x7EFF_FFFF_D000));
    s.note_mmap_placement(0x7EFF_FFFF_D000, false, false);
    assert_eq!(s.mmap_hint, 0x7EFF_FFFF_D000);
    s.note_mmap_placement(0x5000, true, false);
    s.note_mmap_placement(0x5000, false, true);
    assert_eq!(s.mmap_hint, 0x7EFF_FFFF_D000);
    assert_eq!(s.find_free_range(0x7F00_0000_0000), None);
}

#[test]
fn stacks_get_a_random_place_in_their_window() {
    let mut reg = MmRegistry::new();
    let mut pins = InodePins::new();
    let mut s = user_space(&mut reg);
    let mut jitters = vec![0x1_0000u64; 16];
    jitters[1] = 0x5_0000;
    let base = s.stack_aslr_base;
    assert_eq!(base, 0x7F00_0000_0000);
    assert_eq!(s.find_free_stack_range(0x2000, &jitters), Some(base + 0x1_0000));
    let a = anon(base + 0x1_0000, 0x1000, PROT_READ, MAP_PRIVATE);
    assert!(s.insert_vma(&mut reg, &mut pins, a).is_ok());
    assert_eq!(s.find_free_stack_range(0x2000, &jitters), Some(base + 0x5_0000));
    // Where every offset leads to a taken place, the general search takes over.
    jitters[1] = 0x1_0000;
    assert_eq!(s.find_free_stack_range(0x2000, &jitters), Some(0x7EFF_FFFF_E000));
    assert_eq!(s.find_free_stack_range(0, &jitters), None);
    assert_eq!(s.find_free_stack_range(0x40_0000_1000, &jitters), None);
    assert_eq!(randomised_mmap_hint(0x3000), 0x7EFF_FFFF_D000);
    assert_eq!(randomised_stack_aslr_base(0x3000), 0x7F00_0000_3000);
    assert_eq!(randomised_stack_aslr_base(0x40_0000_0000), 0x7F3F_FFFF_F000);
}

#[test]
fn heap_end_moves_up_and_down() {
    let (mut mem, mut f) = machine();
    let mut reg = MmRegistry::new();
    let mut pins = InodePins::new();
    let mut tlb = Tlb::new(4, false, false);
    let mut s = VmSpace::new_user(&mut mem, &mut f, &mut reg, KERNEL_ROOT, 0, 0, 0).unwrap();
    let start = s.brk_start;
    assert_eq!(start, 0x40_0000_0000);
    let (r, gone) =
        s.adjust_brk(&mut reg, &mut pins, &mut mem, &mut f, &mut tlb, start + 0x1801, 0);
    assert_eq!(r, start + 0x2000);
    assert!(gone.is_none());
    assert_eq!(s.areas.len(), 1);
    assert_eq!((s.areas[0].base, s.areas[0].length), (start, 0x2000));
    let phys = pmm::alloc_page(&mut f, 0).unwrap();
    page_ref_set(&mut f.refs, phys, 1);
    assert!(map_page_in(&mut mem, &mut f, s.cr3, start + 0x1000, phys, PAGE_USER, 0));
    let changes = reg.generations[s.generation as usize];
    // Going down gives the pages back, once nobody can reach them.
    let (r, gone) =
        s.adjust_brk(&mut reg, &mut pins, &mut mem, &mut f, &mut tlb, start + 0x1000, 0);
    assert_eq!(r, start + 0x1000);
    let gone = gone.unwrap();
    assert_eq!(gone.frames, vec![phys]);
    // The area changed, and its pages went.
    assert_eq!(reg.generations[s.generation as usize], changes + 2);
    assert!(is_page_used_for_test(&f.pmm, phys / 4096));
    release_frames(&mut f, &mut tlb, &gone.frames, true, 0);
    assert_eq!(s.areas[0].length, 0x1000);
    assert_eq!(virt_to_phys_in(&mem, s.cr3, start + 0x1000), None);
    assert!(!is_page_used_for_test(&f.pmm, phys / 4096));
    // Below its start the end does not move, so that asking for zero tells where it is.
    let (r, _) = s.adjust_brk(&mut reg, &mut pins, &mut mem, &mut f, &mut tlb, 0, 0);
    assert_eq!(r, start + 0x1000);
    let (r, _) = s.adjust_brk(&mut reg, &mut pins, &mut mem, &mut f, &mut tlb, start - 0x1000, 0);
    assert_eq!(r, start + 0x1000);
    let (r, _) = s.adjust_brk(&mut reg, &mut pins, &mut mem, &mut f, &mut tlb, start, 0);
    assert_eq!(r, start);
    assert!(s.areas.is_empty());
}

#[test]
fn new_address_space_has_the_kernel_half() {
    let (mut mem, mut f) = machine();
    let mut reg = MmRegistry::new();
    let s = VmSpace::new_user(&mut mem, &mut f, &mut reg, KERNEL_ROOT, 0x5000, 0x7000, 0).unwrap();
    assert_eq!(mem.read(s.cr3, 256), 0x20_0003);
    assert_eq!(mem.read(s.cr3, 0), 0);
    assert_eq!(s.mmap_hint, 0x7EFF_FFFF_B000);
    assert_eq!(s.stack_aslr_base, 0x7F00_0000_7000);
    assert!(mm_sem_for_cr3(&reg, s.cr3).is_some());
}

#[test]
fn lock_of_an_address_space_lives_as_long_as_its_users() {
    let mut reg = MmRegistry::new();
    let parent = VmSpace::new_kernel(&mut reg, 0x5000);
    let sem = parent.mm_sem.share();
    let child = VmSpace::from_existing_cr3(&mut reg, 0x5000, sem, 0x3000);
    assert_eq!(child.mm_sem.id, parent.mm_sem.id);
    assert_eq!(child.generation, parent.generation);
    // One holds the lock: nobody else gets it, through either handle.
    let held = parent.mm_sem.lock.write();
    assert!(child.mm_sem.lock.try_read().is_none());
    drop(held);
    assert!(child.mm_sem.lock.try_read().is_some());
    bump_generation_for_cr3(&mut reg, 0x5000);
    assert_eq!(reg.generations[parent.generation as usize], 1);
    child.release(&mut reg);
    assert!(mm_sem_for_cr3(&reg, 0x5000).is_some());
    parent.release(&mut reg);
    assert!(mm_sem_for_cr3(&reg, 0x5000).is_none());
    bump_generation_for_cr3(&mut reg, 0x5000);
}

#[test]
fn registry_entries_can_be_set_and_dropped() {
    let mut reg = MmRegistry::new();
    let sem = make_mm_sem_for_test(&mut reg);
    assert!(sem.lock.try_write().is_some());
    register_mm_sem(&mut reg, 0x5000, sem);
    assert!(mm_sem_for_cr3(&reg, 0x5000).is_some());
    unregister_mm_sem(&mut reg, 0x5000);
    assert!(mm_sem_for_cr3(&reg, 0x5000).is_none());
    let g = make_generation_for_test(&mut reg);
    register_mm_generation(&mut reg, 0x5000, g);
    bump_generation_for_cr3(&mut reg, 0x5000);
    assert_eq!(reg.generations[g as usize], 1);
    unregister_mm_generation(&mut reg, 0x5000);
    bump_generation_for_cr3(&mut reg, 0x5000);
    assert_eq!(reg.generations[g as usize], 1);
}

#[test]
fn fork_shares_every_page_and_lets_neither_side_write_private_ones() {
    let (mut mem, mut f) = machine();
    let mut reg = MmRegistry::new();
    let mut pins = InodePins::new();
    let mut parent =
        VmSpace::new_user(&mut mem, &mut f, &mut reg, KERNEL_ROOT, 0, 0, 0).unwrap();
    let root = parent.cr3;
    let private = anon(0x5000_0000, 0x1000, PROT_READ | PROT_WRITE, MAP_PRIVATE);
    let shared = anon(0x6000_0000, 0x1000, PROT_READ | PROT_WRITE, MAP_SHARED);
    let lib = file(0x7000_0000, 0x2000, 9, 0);
    assert!(parent.insert_vma(&mut reg, &mut pins, private).is_ok());
    assert!(parent.insert_vma(&mut reg, &mut pins, shared).is_ok());
    assert!(parent.insert_vma(&mut reg, &mut pins, lib).is_ok());
    let p = pmm::alloc_page(&mut f, 0).unwrap();
    let q = pmm::alloc_page(&mut f, 0).unwrap();
    page_ref_set(&mut f.refs, p, 1);
    page_ref_set(&mut f.refs, q, 1);
    let flags = PAGE_USER | PAGE_WRITABLE;
    assert!(map_page_in(&mut mem, &mut f, root, 0x5000_0000, p, flags, 0));
    assert!(map_page_in(&mut mem, &mut f, root, 0x6000_0000, q, flags, 0));
    let mut tlb = Tlb::new(4, false, false);
    mark_smp_active(&mut tlb);
    note_cr3_load(&mut tlb, root, 0);
    note_cr3_load(&mut tlb, root, 2);
    // The two pages lie below one table of the third level and one of the second.
    assert_eq!(fork_frames(&mem, root), 1 + 1 + 1 + 2);
    let free = free_page_count(&f.pmm);
    let (child, dropped) = parent
        .clone_for_fork(&mut mem, &mut f, &mut reg, &mut pins, &mut tlb, root, 0, 0)
        .unwrap();
    assert_eq!(free_page_count(&f.pmm), free - 5);
    // The other processor on the parent is asked to drop all it knows of the user half.
    assert!(matches!(dropped.local, Flush::All));
    assert_eq!(dropped.wait.unwrap().targets, vec![2]);
    assert!(matches!(handle_shootdown_ipi(&tlb, 2, root).flush, Some(Flush::All)));
    assert_ne!(child.cr3, root);
    assert_eq!(virt_to_phys_in(&mem, child.cr3, 0x5000_0008), Some(p + 8));
    assert_eq!(virt_to_phys_in(&mem, child.cr3, 0x6000_0008), Some(q + 8));
    assert_eq!(virt_to_phys_in(&mem, child.cr3, 0x7000_0000), None);
    for r in [root, child.cr3] {
        assert_eq!(read_pte(&mem, r, 0x5000_0000), p | PAGE_USER | PAGE_PRESENT);
        assert_ne!(read_pte(&mem, r, 0x6000_0000) & PAGE_WRITABLE, 0);
    }
    assert_eq!(page_ref_count(&f.refs, p), 2);
    assert_eq!(page_ref_count(&f.refs, q), 2);
    assert_eq!(child.areas.len(), 3);
    assert_eq!(child.areas[2].base, 0x7000_0000);
    assert_eq!(pins.pin_count(InodeKey { mount_idx: 3, inode: 9 }), 2);
    assert_ne!(child.mm_sem.id, parent.mm_sem.id);
    assert_eq!(mem.read(child.cr3, 256), 0x20_0003);
}

#[test]
fn fork_and_new_address_spaces_fail_where_frames_run_out() {
    let (mut mem, mut f) = machine();
    let mut reg = MmRegistry::new();
    let mut pins = InodePins::new();
    let mut tlb = Tlb::new(4, false, false);
    let mut parent =
        VmSpace::new_user(&mut mem, &mut f, &mut reg, KERNEL_ROOT, 0, 0, 0).unwrap();
    let root = parent.cr3;
    assert_eq!(fork_frames(&mem, root), 1);
    let p = pmm::alloc_page(&mut f, 0).unwrap();
    page_ref_set(&mut f.refs, p, 1);
    assert!(map_page_in(&mut mem, &mut f, root, 0x5000_0000, p, PAGE_USER, 0));
    assert_eq!(fork_frames(&mem, root), 4);
    let mut taken = Vec::new();
    while let Some(phys) = pmm::alloc_page(&mut f, 0) {
        taken.push(phys);
    }
    assert!(VmSpace::new_user(&mut mem, &mut f, &mut reg, KERNEL_ROOT, 0, 0, 0).is_none());
    for phys in taken.drain(..3) {
        pmm::free_page(&mut f, phys, 0);
    }
    assert!(parent
        .clone_for_fork(&mut mem, &mut f, &mut reg, &mut pins, &mut tlb, root, 0, 0)
        .is_none());
    assert_eq!(free_page_count(&f.pmm), 0);
    for phys in taken.drain(..4) {
        pmm::free_page(&mut f, phys, 0);
    }
    assert!(parent
        .clone_for_fork(&mut mem, &mut f, &mut reg, &mut pins, &mut tlb, root, 0, 0)
        .is_some());
    assert_eq!(free_page_count(&f.pmm), 0);
}
