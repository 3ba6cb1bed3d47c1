//! The page cache.
use astryx_kernel::mm::cache::{
    audit_invariant, chunk_read, evict, evict_if_phys, insert, insert_with_expected,
    is_phys_in_cache, lookup, lookup_and_acquire, mark_dirty, next_chunk, prepopulate_file, stats,
    sync_inode, CacheKey, InsertOutcome, PageCache,
};
use astryx_kernel::mm::dma_pin::DmaPins;
use astryx_kernel::mm::physmem::PhysMem;
use astryx_kernel::mm::pmm::{
    self, BootInfo, Frames, MemoryMap, MemoryMapEntry, MemoryType, Pmm,
};
use astryx_kernel::mm::refcount::{self, page_ref_count, page_ref_dec, RefCounts};
use astryx_kernel::mm::tlb::{self, Tlb};

struct Machine {
    cache: PageCache,
    f: Frames,
    t: Tlb,
    mem: PhysMem,
}

fn machine(diag: bool, frames: u64) -> Machine {
    let mut f = Frames { pmm: Pmm::new(false), refs: RefCounts::new(false), pins: DmaPins::new() };
    let info = BootInfo {
        memory_map: MemoryMap {
            entries: vec![MemoryMapEntry {
                physical_start: 0,
                page_count: frames,
                memory_type: MemoryType::Available,
            }],
            entry_count: 1,
        },
        kernel_phys_base: 0x10_0000,
        kernel_size: 0x10_0000,
        handoff_bytes: 0,
    };
    pmm::init(&mut f.pmm, &info, 0xFFFF_8000_0030_0000, 0);
    refcount::init(&mut f.refs);
    Machine {
        cache: PageCache::new(diag),
        f,
        t: Tlb::new(2, false, false),
        mem: PhysMem::new(0x2000),
    }
}

impl Machine {
    fn put(&mut self, inode: u64, offset: u64, phys: u64) -> InsertOutcome {
        insert(&mut self.cache, &mut self.f, &mut self.t, &self.mem, 4, inode, offset, phys, 7)
    }
}

#[test]
fn inserted_page_is_found_and_counted() {
    let mut m = machine(false, 0x1000);
    assert_eq!(lookup(&m.cache, 4, 9, 0x1000), None);
    match m.put(9, 0x1000, 0x50_0000) {
        InsertOutcome::Inserted { evicted, released, watch } => {
            assert_eq!((evicted, released, watch), (None, None, None));
        }
        _ => panic!("not inserted"),
    }
    assert_eq!(lookup(&m.cache, 4, 9, 0x1000), Some(0x50_0000));
    assert_eq!(lookup(&m.cache, 5, 9, 0x1000), None);
    assert_eq!(lookup(&m.cache, 4, 8, 0x1000), None);
    assert_eq!(lookup(&m.cache, 4, 9, 0x2000), None);
    assert_eq!(page_ref_count(&m.f.refs, 0x50_0000), 1);
    assert_eq!(
        lookup_and_acquire(&m.cache, &mut m.f.refs, 4, 9, 0x1000),
        Some(0x50_0000)
    );
    assert_eq!(page_ref_count(&m.f.refs, 0x50_0000), 2);
    assert_eq!(is_phys_in_cache(&m.cache, 0x50_0000), Some((4, 9, 0x1000)));
    assert_eq!(is_phys_in_cache(&m.cache, 0x50_1000), None);
}

#[test]
fn replaced_page_loses_its_reference() {
    let mut m = machine(false, 0x1000);
    m.put(9, 0, 0x50_0000);
    match m.put(9, 0, 0x50_1000) {
        InsertOutcome::Inserted { evicted, released, .. } => {
            assert_eq!((evicted, released), (Some(0x50_0000), Some(0x50_0000)));
        }
        _ => panic!("not inserted"),
    }
    // Nobody used it any more: it waits in quarantine.
    assert_eq!(tlb::stats(&m.t).quarantine_depth, 1);
    assert_eq!(page_ref_count(&m.f.refs, 0x50_0000), 0);
    assert_eq!(page_ref_count(&m.f.refs, 0x50_1000), 1);
    // The same frame again keeps its count.
    m.put(9, 0, 0x50_1000);
    assert_eq!(page_ref_count(&m.f.refs, 0x50_1000), 1);
    assert_eq!(stats(&m.cache), (1, 0));
}

#[test]
fn evicted_page_is_gone() {
    let mut m = machine(false, 0x1000);
    m.put(9, 0, 0x50_0000);
    m.put(9, 0x1000, 0x50_1000);
    assert_eq!(evict(&mut m.cache, &mut m.f.refs, 4, 9, 0), Some(0x50_0000));
    assert_eq!(evict(&mut m.cache, &mut m.f.refs, 4, 9, 0), None);
    assert_eq!(page_ref_count(&m.f.refs, 0x50_0000), 0);
    assert!(!evict_if_phys(&mut m.cache, &mut m.f.refs, 4, 9, 0x1000, 0x50_0000));
    assert_eq!(lookup(&m.cache, 4, 9, 0x1000), Some(0x50_1000));
    assert!(evict_if_phys(&mut m.cache, &mut m.f.refs, 4, 9, 0x1000, 0x50_1000));
    assert_eq!(stats(&m.cache), (0, 0));
}

#[test]
fn dirty_pages_are_cleaned_by_a_sync_of_their_file() {
    let mut m = machine(false, 0x1000);
    m.put(9, 0, 0x50_0000);
    m.put(9, 0x1000, 0x50_1000);
    m.put(8, 0, 0x50_2000);
    mark_dirty(&mut m.cache, 4, 9, 0);
    mark_dirty(&mut m.cache, 4, 8, 0);
    mark_dirty(&mut m.cache, 4, 7, 0);
    assert_eq!(stats(&m.cache), (3, 2));
    sync_inode(&mut m.cache, 4, 9);
    assert_eq!(stats(&m.cache), (3, 1));
    sync_inode(&mut m.cache, 4, 8);
    assert_eq!(stats(&m.cache), (3, 0));
}

#[test]
fn audit_finds_pages_that_lost_their_reference() {
    let mut m = machine(false, 0x1000);
    m.put(9, 0, 0x50_0000);
    m.put(9, 0x1000, 0x50_1000);
    assert_eq!(audit_invariant(&m.cache, &m.f.refs), (2, 0));
    page_ref_dec(&mut m.f.refs, 0x50_0000);
    assert_eq!(audit_invariant(&m.cache, &m.f.refs), (2, 1));
}

#[test]
fn kernel_frames_and_wrong_contents_are_noticed() {
    let mut m = machine(true, 0x1000);
    assert!(matches!(m.put(9, 0, 0x10_0000), InsertOutcome::Refused));
    assert_eq!(lookup(&m.cache, 4, 9, 0), None);
    m.mem.write(0x50_0000, 0, 0x0807_0605_0403_0201);
    let mut want = [0u8; 64];
    want[0] = 9;
    let r = insert_with_expected(
        &mut m.cache, &mut m.f, &mut m.t, &m.mem, 4, 9, 0, 0x50_0000, Some(&want), 7,
    );
    match r {
        InsertOutcome::WrongContent { observed, evicted } => {
            assert_eq!(observed[..9], [1, 2, 3, 4, 5, 6, 7, 8, 0]);
            assert_eq!(observed.len(), 64);
            assert_eq!(evicted, None);
        }
        _ => panic!("not noticed"),
    }
    for i in 0..8 {
        want[i] = i as u8 + 1;
    }
    let r = insert_with_expected(
        &mut m.cache, &mut m.f, &mut m.t, &m.mem, 4, 9, 0, 0x50_0000, Some(&want), 7,
    );
    assert!(matches!(r, InsertOutcome::Inserted { .. }));
    // Frames in the watched band, of a watched file, are to be watched.
    let r = m.put(0x9b, 0, 0x1000_0000);
    match r {
        InsertOutcome::Inserted { watch, .. } => {
            assert_eq!(watch, Some(0xFFFF_8000_1000_0000));
        }
        _ => panic!("not inserted"),
    }
}

#[test]
fn whole_file_is_loaded_in_chunks() {
    let mut m = machine(false, 0x8000);
    let size = 0x20_0000 + 5000;
    let mut p = prepopulate_file(&mut m.cache, 4, 9, size);
    assert!(m.cache.prepopulating);
    assert_eq!(next_chunk(&mut p, &mut m.cache, &m.f.pmm), Some((0, 0x20_0000)));
    // The first chunk is there already, up to its first page.
    let mut data = vec![0u8; 0x20_0000];
    data[0] = 1;
    data[4096] = 2;
    assert!(!chunk_read(&mut p, &mut m.cache, &mut m.f, &mut m.t, &mut m.mem, Some(&data), 3));
    assert_eq!(p.cached, 512);
    let first = lookup(&m.cache, 4, 9, 0).unwrap();
    let second = lookup(&m.cache, 4, 9, 4096).unwrap();
    assert_eq!(m.mem.read_byte(first), 1);
    assert_eq!(m.mem.read_byte(second), 2);
    assert_eq!(page_ref_count(&m.f.refs, first), 1);
    assert_eq!(next_chunk(&mut p, &mut m.cache, &m.f.pmm), Some((0x20_0000, 5000)));
    let mut tail = vec![7u8; 5000];
    tail[4999] = 8;
    assert!(!chunk_read(&mut p, &mut m.cache, &mut m.f, &mut m.t, &mut m.mem, Some(&tail), 3));
    assert_eq!(p.cached, 514);
    let last = lookup(&m.cache, 4, 9, 0x20_1000).unwrap();
    assert_eq!(m.mem.read_byte(last + 903), 8);
    assert_eq!(m.mem.read_byte(last + 904), 0);
    assert_eq!(next_chunk(&mut p, &mut m.cache, &m.f.pmm), None);
    assert!(!m.cache.prepopulating);
    // A second load finds everything in place.
    let mut again = prepopulate_file(&mut m.cache, 4, 9, size);
    assert_eq!(next_chunk(&mut again, &mut m.cache, &m.f.pmm), None);
}

#[test]
fn load_stops_where_memory_is_short_or_the_file_cannot_be_read() {
    let mut m = machine(false, 0x1000);
    let mut p = prepopulate_file(&mut m.cache, 4, 9, 5000);
    assert_eq!(next_chunk(&mut p, &mut m.cache, &m.f.pmm), None);
    assert!(p.done);
    let mut m = machine(false, 0x8000);
    let mut p = prepopulate_file(&mut m.cache, 4, 9, 5000);
    assert_eq!(next_chunk(&mut p, &mut m.cache, &m.f.pmm), Some((0, 5000)));
    assert!(!chunk_read(&mut p, &mut m.cache, &mut m.f, &mut m.t, &mut m.mem, None, 3));
    assert!(p.done);
    assert!(!m.cache.prepopulating);
    assert_eq!(p.cached, 0);
}

#[test]
fn page_that_finds_no_frame_is_tried_once_more() {
    let mut m = machine(false, 0x8000);
    let mut p = prepopulate_file(&mut m.cache, 4, 9, 5000);
    assert_eq!(next_chunk(&mut p, &mut m.cache, &m.f.pmm), Some((0, 5000)));
    let data = vec![7u8; 5000];
    let mut taken = Vec::new();
    while let Some(phys) = pmm::alloc_page(&mut m.f, 0) {
        taken.push(phys);
    }
    assert!(chunk_read(&mut p, &mut m.cache, &mut m.f, &mut m.t, &mut m.mem, Some(&data), 3));
    assert_eq!((p.cached, p.offset, p.tries), (0, 0, 1));
    // With one frame the first page comes in; then the second one finds none.
    pmm::free_page(&mut m.f, taken.pop().unwrap(), 3);
    assert!(chunk_read(&mut p, &mut m.cache, &mut m.f, &mut m.t, &mut m.mem, Some(&data), 3));
    assert_eq!((p.cached, p.offset, p.tries), (1, 0, 2));
    assert!(lookup(&m.cache, 4, 9, 0).is_some());
    // It finds none again, and is left out.
    assert!(!chunk_read(&mut p, &mut m.cache, &mut m.f, &mut m.t, &mut m.mem, Some(&data), 3));
    assert_eq!((p.cached, p.offset, p.tries), (1, 5000, 0));
    assert_eq!(lookup(&m.cache, 4, 9, 4096), None);
}

#[test]
fn keys_are_ordered_by_mount_then_file_then_offset() {
    let k = |mount, inode, page_offset| CacheKey { mount, inode, page_offset };
    assert!(k(1, 9, 9).before(&k(2, 0, 0)));
    assert!(k(1, 8, 9).before(&k(1, 9, 0)));
    assert!(k(1, 8, 0).before(&k(1, 8, 1)));
    assert!(!k(1, 8, 1).before(&k(1, 8, 1)));
}
