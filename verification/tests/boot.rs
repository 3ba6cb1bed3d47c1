//! Bringing memory management up.
use astryx_kernel::mm;
use astryx_kernel::mm::dma_pin::{is_pinned, pin, DmaPins};
use astryx_kernel::mm::heap::{heap_start, LinkedListAllocator, HEAP_SIZE, PHYS_OFF};
use astryx_kernel::mm::physmem::PhysMem;
use astryx_kernel::mm::pmm::{
    alloc_page, is_page_used_for_test, BootInfo, Frames, MemoryMap, MemoryMapEntry, MemoryType,
    Pmm,
};
use astryx_kernel::mm::refcount::{page_ref_count, page_ref_inc, RefCounts};
use astryx_kernel::mm::vmm::{
    get_kernel_cr3, virt_to_phys_in, Vmm, PAGE_HUGE, PAGE_PRESENT, PAGE_WRITABLE,
};

const ROOT: u64 = 0x3F_0000;
const KERNEL_END_VA: u64 = 0xFFFF_8000_0030_0000;

/// 160 MiB of memory, of which the first 16 MiB can be read back; the firmware maps the
/// first gigabyte in both halves with large pages.
fn machine() -> (Frames, PhysMem, BootInfo) {
    let f = Frames { pmm: Pmm::new(false), refs: RefCounts::new(false), pins: DmaPins::new() };
    let mut mem = PhysMem::new(0x1000);
    mem.write(ROOT, 0, 0x3F_1000 | PAGE_PRESENT | PAGE_WRITABLE);
    mem.write(ROOT, 256, 0x3F_1000 | PAGE_PRESENT | PAGE_WRITABLE);
    mem.write(0x3F_1000, 0, 0x3F_2000 | PAGE_PRESENT | PAGE_WRITABLE);
    for i in 0..512u64 {
        mem.write(0x3F_2000, i, (i * 0x20_0000) | PAGE_PRESENT | PAGE_WRITABLE | PAGE_HUGE);
    }
    let info = BootInfo {
        memory_map: MemoryMap {
            entries: vec![MemoryMapEntry {
                physical_start: 0,
                page_count: 0xA000,
                memory_type: MemoryType::Available,
            }],
            entry_count: 1,
        },
        kernel_phys_base: 0x10_0000,
        kernel_size: 0x20_0000,
        handoff_bytes: 0x1000,
    };
    (f, mem, info)
}

#[test]
fn start_sets_everything_up_and_the_books_balance() {
    let (mut f, mut mem, info) = machine();
    let mut v = Vmm { kernel_cr3: 0 };
    let mut h = LinkedListAllocator::new(false);
    let (below, above, short, acct) = mm::init(
        &mut f, &mut v, &mut h, &mut mem, &info, KERNEL_END_VA, 0x38_0000, ROOT, 0,
    );
    assert!(below && above && !short);
    assert_eq!(acct.drift(), 0);
    assert_eq!(acct.counter_free, acct.bitmap_free);
    assert_eq!(acct.total, 0xA000);
    assert_eq!(get_kernel_cr3(&v), ROOT);
    assert_eq!(heap_start(&h), PHYS_OFF + 0x80_0000);
    // The guards fault, the heap between them does not.
    let start = heap_start(&h);
    assert_eq!(virt_to_phys_in(&mem, ROOT, start - 0x1000), None);
    assert_eq!(virt_to_phys_in(&mem, ROOT, start - 0x2000), Some(0x7F_E000));
    assert_eq!(virt_to_phys_in(&mem, ROOT, start), Some(0x80_0000));
    assert_eq!(virt_to_phys_in(&mem, ROOT, start + HEAP_SIZE - 1), Some(0x87F_FFFF));
    assert_eq!(virt_to_phys_in(&mem, ROOT, start + HEAP_SIZE), None);
    // Neither the heap nor its guards are handed out.
    for page in [0x7FFu64, 0x800, 0x87FF, 0x8800] {
        assert!(is_page_used_for_test(&f.pmm, page));
    }
    assert!(h.allocate(&mut mem, 64, 8).ok().unwrap() > start);
    // References and pins can be taken from now on.
    let a = alloc_page(&mut f, 0).unwrap();
    page_ref_inc(&mut f.refs, a);
    assert_eq!(page_ref_count(&f.refs, a), 1);
    pin(&mut f.pins, a);
    assert!(is_pinned(&f.pins, a));
}
