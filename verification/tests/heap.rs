//! The kernel heap.
use astryx_kernel::mm::heap::{
    self, compute_guard_phys, compute_heap_layout, heap_guard_above_va, heap_guard_below_va,
    heap_start, validate_block_ptr, Corruption, HeapCorrupt, LinkedListAllocator, HEAP_SIZE,
    PHYS_OFF,
};
use astryx_kernel::mm::physmem::PhysMem;

const KERNEL_END_VA: u64 = 0xFFFF_8000_0030_0000;
const START: u64 = PHYS_OFF + 0x80_0000;

/// A heap at 8 MiB, of which the first 8 MiB are installed.
fn fresh_heap(canary: bool) -> (LinkedListAllocator, PhysMem) {
    let mut mem = PhysMem::new(0x1000);
    let mut h = LinkedListAllocator::new(canary);
    heap::init(&mut h, &mut mem, KERNEL_END_VA);
    (h, mem)
}

fn word(mem: &PhysMem, va: u64) -> u64 {
    mem.read_qword(va - PHYS_OFF)
}

#[test]
fn heap_lies_behind_the_kernel_on_a_large_page() {
    assert_eq!(
        compute_heap_layout(KERNEL_END_VA),
        (START, 0x80_0000, 0x80_0000 + 0x800_0000)
    );
    assert_eq!(compute_guard_phys(KERNEL_END_VA), (0x7F_F000, 0x880_0000));
    let big = 0xFFFF_8000_0123_4567;
    assert_eq!(compute_heap_layout(big).1, 0x140_0000);
    // A kernel that ends right at a large page leaves room for the guard.
    assert_eq!(compute_heap_layout(0xFFFF_8000_0120_0000).1, 0x140_0000);
    let (h, mem) = fresh_heap(false);
    assert_eq!(heap_start(&h), START);
    assert_eq!(heap_guard_below_va(&h), START - 0x1000);
    assert_eq!(heap_guard_above_va(&h), START + HEAP_SIZE);
    assert_eq!(heap::stats(&h), (HEAP_SIZE, 0, HEAP_SIZE));
    assert_eq!(word(&mem, START), HEAP_SIZE);
    assert_eq!(word(&mem, START + 8), 0);
    let unset = LinkedListAllocator::new(false);
    assert_eq!(heap_guard_below_va(&unset), 0);
}

#[test]
fn nothing_is_allocated_before_the_start() {
    let mut mem = PhysMem::new(1);
    let mut h = LinkedListAllocator::new(false);
    assert_eq!(h.allocate(&mut mem, 16, 8).ok(), Some(0));
}

#[test]
fn allocations_follow_each_other() {
    let (mut h, mut mem) = fresh_heap(false);
    let a = h.allocate(&mut mem, 100, 8).ok().unwrap();
    assert_eq!(a, START + 16);
    // Header and bytes, rounded up to a multiple of 8.
    let b = h.allocate(&mut mem, 8, 16).ok().unwrap();
    assert_eq!(b, START + 144);
    assert_eq!(heap::stats(&h).1, 120 + 32);
    let c = h.allocate(&mut mem, 8, 4096).ok().unwrap();
    assert_eq!(c % 4096, 0);
    assert_eq!(h.allocate(&mut mem, HEAP_SIZE, 8).ok(), Some(0));
}

#[test]
fn free_gives_the_bytes_back_and_joins_neighbours() {
    let (mut h, mut mem) = fresh_heap(false);
    let a = h.allocate(&mut mem, 100, 8).ok().unwrap();
    let b = h.allocate(&mut mem, 200, 8).ok().unwrap();
    let c = h.allocate(&mut mem, 300, 8).ok().unwrap();
    assert!(h.dealloc(&mut mem, b).is_ok());
    // The hole is found again by something that fits, and skipped by something bigger.
    let big = h.allocate(&mut mem, 400, 8).ok().unwrap();
    assert!(big > c);
    assert_eq!(h.allocate(&mut mem, 200, 8).ok(), Some(b));
    for p in [b, a, big, c] {
        assert!(h.dealloc(&mut mem, p).is_ok());
    }
    assert_eq!(heap::stats(&h), (HEAP_SIZE, 0, HEAP_SIZE));
    assert_eq!(h.head, START);
    assert_eq!(word(&mem, START), HEAP_SIZE);
    assert_eq!(word(&mem, START + 8), 0);
    assert!(h.dealloc(&mut mem, 0).is_ok());
}

#[test]
fn canaries_catch_writes_before_and_behind() {
    let (mut h, mut mem) = fresh_heap(true);
    let a = h.allocate(&mut mem, 24, 8).ok().unwrap();
    assert_eq!(a, START + 32);
    assert_eq!(word(&mem, a - 8), 0xA5A5_5A5A_C0DE_F00D);
    assert_eq!(word(&mem, a - 16), 24);
    assert_eq!(word(&mem, a + 24), 0x5A5A_A5A5_DEAD_BEEF);
    let b = h.allocate(&mut mem, 24, 8).ok().unwrap();
    mem.write(0x80_0000, (a + 24 - START) / 8, 7);
    match h.dealloc(&mut mem, a) {
        Err(HeapCorrupt { reason: Corruption::RearCanary, block, found }) => {
            assert_eq!((block, found), (START, 7));
        }
        _ => panic!("not seen"),
    }
    mem.write(0x80_0000, (b - 8 - START) / 8, 9);
    match h.dealloc(&mut mem, b) {
        Err(HeapCorrupt { reason: Corruption::FrontCanary, found, .. }) => assert_eq!(found, 9),
        _ => panic!("not seen"),
    }
}

#[test]
fn broken_links_are_reported() {
    assert!(matches!(validate_block_ptr(START, START + 4), Err(Corruption::Unaligned)));
    assert!(matches!(validate_block_ptr(0, 8), Err(Corruption::NotSetUp)));
    assert!(matches!(validate_block_ptr(START, START - 8), Err(Corruption::OutOfRange)));
    assert!(matches!(
        validate_block_ptr(START, START + HEAP_SIZE - 8),
        Err(Corruption::OutOfRange)
    ));
    assert!(validate_block_ptr(START, START + HEAP_SIZE - 16).is_ok());
    assert!(validate_block_ptr(START, 0).is_ok());

    let (mut h, mut mem) = fresh_heap(false);
    h.head = START + 4;
    match h.allocate(&mut mem, 8, 8) {
        Err(HeapCorrupt { reason: Corruption::Unaligned, .. }) => {}
        _ => panic!("not seen"),
    }
    // A list that runs in a circle and has nothing big enough.
    h.head = START;
    mem.write(0x80_0000, 0, 16);
    mem.write(0x80_0000, 1, START);
    match h.allocate(&mut mem, 100, 8) {
        Err(HeapCorrupt { reason: Corruption::Endless, .. }) => {}
        _ => panic!("not seen"),
    }
}

#[test]
fn free_undoes_an_allocation_with_guard_words_too() {
    for canary in [false, true] {
        let (mut h, mut mem) = fresh_heap(canary);
        let keep = h.allocate(&mut mem, 40, 8).ok().unwrap();
        let (head, used) = (h.head, heap::stats(&h));
        let (size, next) = (word(&mem, head), word(&mem, head + 8));
        let a = h.allocate(&mut mem, 100, 8).ok().unwrap();
        assert!(a > keep && h.head != head);
        assert!(h.dealloc(&mut mem, a).is_ok());
        assert_eq!((h.head, heap::stats(&h)), (head, used));
        assert_eq!((word(&mem, head), word(&mem, head + 8)), (size, next));
    }
}

#[test]
fn block_that_is_put_in_joins_its_neighbours() {
    let (mut h, mut mem) = fresh_heap(false);
    assert_eq!(h.allocate(&mut mem, 48, 8).ok(), Some(START + 16));
    assert_eq!(h.head, START + 64);
    // Apart from the rest of the heap the block stands alone in the list.
    assert!(h.insert_free_block(&mut mem, START, 32).is_ok());
    assert_eq!((h.head, word(&mem, START)), (START, 32));
    assert_eq!(word(&mem, START + 8), START + 64);
    // What lies between joins both sides.
    assert!(h.insert_free_block(&mut mem, START + 32, 32).is_ok());
    assert_eq!((h.head, word(&mem, START), word(&mem, START + 8)), (START, HEAP_SIZE, 0));
}

#[test]
fn search_takes_the_first_block_that_fits() {
    let (mut h, mut mem) = fresh_heap(false);
    let small = h.allocate(&mut mem, 32, 8).ok().unwrap();
    h.allocate(&mut mem, 32, 8).ok().unwrap();
    let first = h.allocate(&mut mem, 96, 8).ok().unwrap();
    h.allocate(&mut mem, 32, 8).ok().unwrap();
    let second = h.allocate(&mut mem, 96, 8).ok().unwrap();
    h.allocate(&mut mem, 32, 8).ok().unwrap();
    for p in [second, small, first] {
        assert!(h.dealloc(&mut mem, p).is_ok());
    }
    assert_eq!(h.allocate(&mut mem, 96, 8).ok(), Some(first));
    assert_eq!(h.allocate(&mut mem, 96, 8).ok(), Some(second));
    assert_eq!(h.allocate(&mut mem, 32, 8).ok(), Some(small));
}
