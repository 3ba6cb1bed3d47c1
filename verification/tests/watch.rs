//! Watching frames and user buffers: checksums, write traps, provenance of stacks.
use astryx_kernel::mm::dma_pin::DmaPins;
use astryx_kernel::mm::file_buf_witness::{
    counters, page_to_sample, post_read, pre_read, Findings, Snapshot, Witness,
};
use astryx_kernel::mm::physmem::PhysMem;
use astryx_kernel::mm::pmm::{
    self, BootInfo, Frames, MemoryMap, MemoryMapEntry, MemoryType, Pmm,
};
use astryx_kernel::mm::refcount::{self, page_ref_set, RefCounts};
use astryx_kernel::mm::stack_prov::{
    argv_zeroing_count, displaced_count, dropped_count, dump_argv_writer_for_phys, dump_for_phys,
    in_top_window, record_top_window_write, record_top_window_write_cr3,
    record_top_window_write_phys, record_write, recorded_count, site_str,
    test_inject_top_window_record, test_lookup_writer_for_va, top_window_count, StackProv, Writer,
};
use astryx_kernel::mm::tlb::Tlb;
use astryx_kernel::mm::vma::{
    InodePins, MmRegistry, VmArea, VmBacking, VmSpace, MAP_PRIVATE, PROT_EXEC, PROT_READ,
    PROT_WRITE,
};
use astryx_kernel::mm::vma_dump::{area_row, dump_for_fault, find_space, VmaDump};
use astryx_kernel::mm::vmm::{map_page_in, read_pte, PAGE_PRESENT, PAGE_USER, PAGE_WRITABLE};
use astryx_kernel::mm::w215_crc::{
    crc32, crc_of_phys, crc_walk_tick, dump_stats, judge, key_to_slot, note_armed, record_evict,
    record_insert, walk_slice, CrcState, Verdict,
};
use astryx_kernel::mm::w215_wptrap::{
    arm, arm_table_full_count, armed_count, cluster_window, disarm, disarmed_count, fire_count,
    is_protected, note_shootdown_timeout, protected_count, report_and_freeze, selftest,
    shootdown_timeout_count, Arm, WpTrap,
};
use astryx_kernel::proc::{Process, ProcessState};

const ROOT: u64 = 0x40_0000;

fn machine() -> (PhysMem, Frames) {
    let mut f = Frames { pmm: Pmm::new(false), refs: RefCounts::new(false), pins: DmaPins::new() };
    let info = BootInfo {
        memory_map: MemoryMap {
            entries: vec![MemoryMapEntry {
                physical_start: 0,
                page_count: 0x1000,
                memory_type: MemoryType::Available,
            }],
            entry_count: 1,
        },
        kernel_phys_base: 0x10_0000,
        kernel_size: 0x20_1000,
        handoff_bytes: 0,
    };
    pmm::init(&mut f.pmm, &info, 0xFFFF_8000_0030_1000, 0);
    refcount::init(&mut f.refs);
    (PhysMem::new(0x1000), f)
}

fn copy(mem: &PhysMem) -> PhysMem {
    PhysMem { words: mem.words.clone() }
}

#[test]
fn checksum_is_the_usual_one() {
    assert_eq!(crc32(b"123456789"), 0xCBF4_3926);
    assert_eq!(crc32(b""), 0);
    let mut mem = PhysMem::new(0x200);
    assert_eq!(crc_of_phys(&mem, 0x10_0000), 0xC71C_0011);
    mem.write(0x10_0000, 511, 1);
    assert_ne!(crc_of_phys(&mem, 0x10_0000), 0xC71C_0011);
}

#[test]
fn changed_page_is_found_by_the_walk() {
    let mut mem = PhysMem::new(0x300);
    mem.write(0x20_0000, 0, 42);
    let mut t = CrcState::new();
    record_insert(&mut t, &mem, 0x20_0000, 7, 0x3000);
    record_insert(&mut t, &mem, 0x20_1000, 7, 0x4000);
    assert!(key_to_slot(7, 0x3000) < 65_536);
    assert_eq!(dump_stats(&t).live, 2);
    let lock = spin::Mutex::new(());
    // Sixteen ticks look at every slot once.
    for _ in 0..16 {
        assert!(crc_walk_tick(&mut t, &lock, 1, &mem, &mem).is_empty());
    }
    assert_eq!(dump_stats(&t).mismatches, 0);
    let before = copy(&mem);
    mem.write(0x20_0000, 0, 43);
    let mut found = Vec::new();
    let held = lock.lock();
    for _ in 0..16 {
        found.extend(walk_slice(&mut t, Some(&held), 1, &mem, &mem));
    }
    assert_eq!(found.len(), 1);
    assert_eq!((found[0].phys, found[0].inode, found[0].offset), (0x20_0000, 7, 0x3000));
    assert_eq!(found[0].expected, crc_of_phys(&before, 0x20_0000));
    assert_eq!(found[0].actual, crc_of_phys(&mem, 0x20_0000));
    assert_eq!(dump_stats(&t).mismatches, 1);
    // A second look that agrees means that the first one was torn.
    for _ in 0..16 {
        assert!(walk_slice(&mut t, Some(&held), 1, &mem, &before).is_empty());
    }
    assert_eq!(dump_stats(&t).false_positives, 1);
    // Without the table nothing is looked at.
    for _ in 0..16 {
        assert!(crc_walk_tick(&mut t, &lock, 1, &mem, &mem).is_empty());
    }
    assert!(walk_slice(&mut t, None, 1, &mem, &mem).is_empty());
    // Once it is watched, the page counts as it is.
    note_armed(&mut t, found[0]);
    for _ in 0..16 {
        assert!(walk_slice(&mut t, Some(&held), 1, &mem, &mem).is_empty());
    }
    record_evict(&mut t, 0x20_0000);
    assert_eq!(dump_stats(&t).live, 1);
    assert_eq!(judge(1, 1, 2), Verdict::Same);
    assert_eq!(judge(1, 2, 1), Verdict::Torn);
    assert_eq!(judge(1, 2, 2), Verdict::Changed);
}

#[test]
fn armed_frame_is_read_only_in_the_direct_map() {
    let (mut mem, mut f) = machine();
    let mut t = Tlb::new(2, false, false);
    let mut w = WpTrap::new();
    assert_eq!(cluster_window(), (0x1000_0000, 0x4000_0000));
    let va = 0xFFFF_8000_1000_5000u64;
    assert!(map_page_in(&mut mem, &mut f, ROOT, va, 0x1000_5000, PAGE_WRITABLE, 0));
    assert!(matches!(
        arm(&mut w, &mut mem, &mut f, &mut t, ROOT, 0, 0x50_0000, 7, 0, 0),
        Arm::Nothing
    ));
    assert!(matches!(
        arm(&mut w, &mut mem, &mut f, &mut t, ROOT, 0, 0x1000_5123, 7, 0x2000, 0),
        Arm::Changed(_)
    ));
    assert!(is_protected(&w, 0x1000_5FFF));
    assert_eq!((armed_count(&w), protected_count(&w)), (1, 1));
    assert_eq!(read_pte(&mem, ROOT, va) & (PAGE_PRESENT | PAGE_WRITABLE), PAGE_PRESENT);
    assert!(matches!(
        arm(&mut w, &mut mem, &mut f, &mut t, ROOT, 0, 0x1000_5000, 7, 0x2000, 0),
        Arm::Nothing
    ));
    page_ref_set(&mut f.refs, 0x1000_5000, 3);
    let r = report_and_freeze(&mut w, &mem, &f.refs, 0x1000_5abc);
    assert_eq!((r.phys, r.inode, r.offset, r.refs), (0x1000_5000, 7, 0x2000, 3));
    assert_eq!(r.bytes, vec![0u8; 16]);
    assert_eq!(fire_count(&w), 1);
    note_shootdown_timeout(&mut w);
    assert_eq!(shootdown_timeout_count(&w), 1);
    assert!(matches!(
        disarm(&mut w, &mut mem, &mut f, &mut t, ROOT, 0, 0x1000_5000, 0),
        Arm::Changed(_)
    ));
    assert!(!is_protected(&w, 0x1000_5000));
    assert_eq!(disarmed_count(&w), 1);
    assert_ne!(read_pte(&mem, ROOT, va) & PAGE_WRITABLE, 0);
    assert!(matches!(
        disarm(&mut w, &mut mem, &mut f, &mut t, ROOT, 0, 0x1000_5000, 0),
        Arm::Nothing
    ));
}

#[test]
fn trap_table_can_fill_up() {
    let (mut mem, mut f) = machine();
    let mut t = Tlb::new(2, false, false);
    let mut w = WpTrap::new();
    for i in 0..64u64 {
        assert!(matches!(
            arm(&mut w, &mut mem, &mut f, &mut t, ROOT, 0, 0x1000_0000 + i * 4096, 7, 0, 0),
            Arm::Changed(_)
        ));
    }
    assert!(matches!(
        arm(&mut w, &mut mem, &mut f, &mut t, ROOT, 0, 0x2000_0000, 7, 0, 0),
        Arm::TableFull
    ));
    assert_eq!((arm_table_full_count(&w), protected_count(&w)), (1, 64));
    let va = 0xFFFF_8000_3000_0000u64;
    assert!(map_page_in(&mut mem, &mut f, ROOT, va + 0x1000, 0x3000_1000, PAGE_WRITABLE, 0));
    assert_eq!(selftest(&mut mem, &mut f, ROOT, 0x3000_0000, 0), (true, true, true));
}

fn writer() -> Writer {
    Writer { pid: 5, tid: 6, rip: 0x1234, syscalls: 9, tick: 100, cpu: 1, cr3: ROOT }
}

#[test]
fn last_write_to_a_stack_is_found() {
    let (mut mem, mut f) = machine();
    let mut p = StackProv::new();
    let va = 0x3f00_0000_5008;
    assert!(map_page_in(&mut mem, &mut f, ROOT, 0x3f00_0000_5000, 0x50_0000, PAGE_USER, 0));
    record_write(&mut p, &mem, writer(), va, 77, 7);
    assert_eq!(recorded_count(&p), 1);
    record_write(&mut p, &mem, writer(), 0x1000, 77, 7);
    assert_eq!((recorded_count(&p), dropped_count(&p)), (1, 1));
    let d = dump_for_phys(&p, 0x50_0123);
    assert_eq!(d.phys, 0x50_0000);
    let hit = d.by_phys.unwrap();
    assert_eq!((hit.va, hit.val, hit.rip, hit.pid), (va, 77, 0x1234, 5));
    assert_eq!(displaced_count(&p), 0);
    assert!(dump_for_phys(&p, 0x51_0000).by_phys.is_none());
    assert_eq!(site_str(9), "ARGV_BUILD");
}

#[test]
fn clearing_writes_near_the_top_are_marked() {
    let (mut mem, mut f) = machine();
    let mut p = StackProv::new();
    let page = 0x7FFF_FFFE_F000u64;
    assert!(in_top_window(0x7FFF_FFFB_0000) && in_top_window(0x7FFF_FFFE_FFFF));
    assert!(!in_top_window(0x7FFF_FFFF_0000) && !in_top_window(0x7FFF_FFFA_FFFF));
    assert!(map_page_in(&mut mem, &mut f, ROOT, page, 0x50_0000, PAGE_USER, 0));
    mem.write(0x50_0000, 1, 99);
    assert!(record_top_window_write(&mut p, &mem, writer(), page + 8, 0, 9));
    assert_eq!((argv_zeroing_count(&p), top_window_count(&p)), (1, 1));
    assert_eq!(test_lookup_writer_for_va(&p, page + 8), Some((0x1234, 99, 0)));
    assert_eq!(test_lookup_writer_for_va(&p, page), None);
    assert!(!record_top_window_write_cr3(&mut p, &mem, writer(), page + 8, 5, ROOT, 9));
    assert_eq!(test_lookup_writer_for_va(&p, page + 8), Some((0x1234, 99, 5)));
    record_top_window_write_phys(&mut p, writer(), page + 16, 6, 0x50_0010, 9);
    assert_eq!(top_window_count(&p), 3);
    assert_eq!(dump_argv_writer_for_phys(&p, 0x50_0000).len(), 3);
    test_inject_top_window_record(&mut p, page + 24, 1, 0, 0x9999, 0x50_0000, 9);
    assert_eq!(test_lookup_writer_for_va(&p, page + 24), Some((0x9999, 1, 0)));
    assert_eq!(argv_zeroing_count(&p), 2);
}

#[test]
fn read_buffers_are_compared_before_and_after() {
    assert_eq!(page_to_sample(0x5678, ROOT), Some(0x5000));
    assert_eq!(page_to_sample(0, ROOT), None);
    assert_eq!(page_to_sample(0xFFFF_8000_0000_0000, ROOT), None);
    assert_eq!(page_to_sample(0x5678, 0), None);
    let mut w = Witness::new(true);
    let s = pre_read(&mut w, 5, 3, 0x5678, ROOT, Some(0x7000), Some(0x400));
    assert!(s.valid);
    assert_eq!(s.page_base, 0x5000);
    let same = post_read(&mut w, s, ROOT, Some(0x7000), Some(0x400));
    assert_eq!(same, Findings { delta: None, zeroed: None });
    let changed = post_read(&mut w, s, ROOT, Some(0x7001), Some(0x400));
    assert_eq!(changed.delta, Some(1));
    let zeroed = post_read(&mut w, s, ROOT, Some(0), Some(0));
    assert_eq!((zeroed.delta, zeroed.zeroed), (Some(2), Some(1)));
    let lost = pre_read(&mut w, 5, 3, 0x5678, ROOT, None, Some(1));
    assert!(!lost.valid && !Snapshot::invalid().valid);
    assert_eq!(counters(&w), (2, 0, 1, 1));
    let mut off = Witness::new(false);
    assert!(!pre_read(&mut off, 5, 3, 0x5678, ROOT, Some(1), Some(1)).valid);
    assert_eq!(counters(&off), (0, 0, 0, 0));
}

fn process(reg: &mut MmRegistry, pid: u64, parent: u64) -> Process {
    let mut pins = InodePins::new();
    let mut s = VmSpace::new_kernel(reg, ROOT);
    let text = VmArea {
        base: 0x40_0000,
        length: 0x2000,
        prot: PROT_READ | PROT_EXEC,
        flags: MAP_PRIVATE,
        backing: VmBacking::File { mount_idx: 2, inode: 0x99, offset: 0x1000, elf_load_delta: 0 },
        name: "app",
    };
    let heap = VmArea {
        base: 0x80_0000,
        length: 0x1000,
        prot: PROT_READ | PROT_WRITE,
        flags: MAP_PRIVATE,
        backing: VmBacking::Anonymous,
        name: "[heap]",
    };
    assert!(s.insert_vma(reg, &mut pins, text).is_ok());
    assert!(s.insert_vma(reg, &mut pins, heap).is_ok());
    Process {
        pid,
        parent_pid: parent,
        cr3: ROOT,
        state: ProcessState::Active,
        vm_space: Some(s),
        signal_state: None,
        exit_code: 0,
    }
}

#[test]
fn fault_dump_lists_the_areas() {
    let (mut mem, mut f) = machine();
    assert!(map_page_in(&mut mem, &mut f, ROOT, 0x40_0000, 0x50_0000, PAGE_USER, 0));
    let mut reg = MmRegistry::new();
    let mut child = process(&mut reg, 11, 10);
    child.vm_space = None;
    let procs = vec![process(&mut reg, 10, 1), child];
    let mut d = VmaDump::new();
    let lines = dump_for_fault(&mut d, &procs, &mem, 10, 12, ROOT).unwrap();
    assert_eq!(lines.len(), 4);
    assert_eq!(lines[0], "[VMA-DUMP-BEGIN] pid=10 tid=12 cr3=0x400000 vma_count=2");
    assert_eq!(
        lines[1],
        "[VMA-DUMP] pid=10 tid=12 idx=0 base=0x400000 end=0x402000 size=0x2000 prot=r-x file=1 \
         anon=0 name=\"app\" first_page_phys=0x500000 file_offset=0x1000 elf_load_delta=0x0 \
         mount=2 inode=0x99"
    );
    assert_eq!(
        lines[2],
        "[VMA-DUMP] pid=10 tid=12 idx=1 base=0x800000 end=0x801000 size=0x1000 prot=rw- file=0 \
         anon=1 name=\"[heap]\" first_page_phys=UNMAPPED"
    );
    assert_eq!(lines[3], "[VMA-DUMP-END] pid=10 tid=12");
    // A child that runs in the address space of its parent shows that one.
    assert_eq!(find_space(&procs, 11), Some(0));
    assert_eq!(find_space(&procs, 99), None);
    assert_eq!(dump_for_fault(&mut d, &procs, &mem, 11, 11, ROOT).unwrap().len(), 4);
    assert_eq!(dump_for_fault(&mut d, &procs, &mem, 99, 99, ROOT).unwrap().len(), 2);
    assert!(dump_for_fault(&mut d, &procs, &mem, 10, 12, ROOT).is_some());
    assert!(dump_for_fault(&mut d, &procs, &mem, 10, 12, ROOT).is_none());
    let a = &procs[0].vm_space.as_ref().unwrap().areas[1];
    assert!(area_row(1, 2, 3, a, Some(0x1000)).contains("idx=3"));
}
