//! Virtual memory manager: four-level page tables.
//!
//! The tables live in physical memory.  A table is known by the physical address of
//! its frame, an address space by that of its root.
use vstd::prelude::*;
use crate::mm::heap::{compute_guard_phys, heap_phys_start, HEAP_SIZE};
use crate::mm::physmem::{frame_words, set_slot, slot, with_frame, word_at, zero_frame, PhysMem};
use crate::mm::pmm::{alloc_page, reserve_range, Frames, FramesView};
use crate::mm::refcount::{page_ref_dec, RefCountsView};
use crate::mm::tlb::{shootdown_range, Shootdown, Tlb, TlbView};
use crate::mm::vma::{bump_generation_for_cr3, MmRegistry};
use crate::mm::vmm_laws::{law_step_down_grants_access, lemma_entry_arith};

verus! {

/// The entry maps something.
pub const PAGE_PRESENT: u64 = 0x1;

/// The page may be written.
pub const PAGE_WRITABLE: u64 = 0x2;

/// User code may use the page.
pub const PAGE_USER: u64 = 0x4;

/// Writes go through the cache.
pub const PAGE_WRITE_THROUGH: u64 = 0x8;

/// The page is not cached.
pub const PAGE_NO_CACHE: u64 = 0x10;

/// The entry maps a huge page and not a table.
pub const PAGE_HUGE: u64 = 0x80;

/// The translation survives a change of address space.
pub const PAGE_GLOBAL: u64 = 0x100;

/// The page holds no code.
pub const PAGE_NO_EXECUTE: u64 = 0x8000_0000_0000_0000;

/// Bits of an entry that hold a physical address.
pub const ADDR_MASK: u64 = 0x000F_FFFF_FFFF_F000;

/// Bits of an entry that hold the address of a 2 MiB page.
pub const ADDR_MASK_2M: u64 = 0x000F_FFFF_FFE0_0000;

/// Bits of an entry that hold the address of a 1 GiB page.
pub const ADDR_MASK_1G: u64 = 0x000F_FFFF_C000_0000;

/// Offset of the direct map of physical memory.
pub const PHYS_OFF: u64 = 0xFFFF_8000_0000_0000;

/// Size of the window in which the kernel's identity map lies.
pub const IDENTITY_WINDOW: u64 = 0x1_0000_0000;

/// Whether an entry maps something.
pub open spec fn present(e: u64) -> bool {
    e & PAGE_PRESENT != 0
}

/// Whether an entry maps a huge page.
pub open spec fn huge(e: u64) -> bool {
    e & PAGE_HUGE != 0
}

/// Index of `va` in the root table.
pub open spec fn idx4(va: u64) -> int {
    va as int / 0x80_0000_0000 % 512
}

/// Index of `va` in its third-level table.
pub open spec fn idx3(va: u64) -> int {
    va as int / 0x4000_0000 % 512
}

/// Index of `va` in its second-level table.
pub open spec fn idx2(va: u64) -> int {
    va as int / 0x20_0000 % 512
}

/// Index of `va` in its first-level table.
pub open spec fn idx1(va: u64) -> int {
    va as int / 0x1000 % 512
}

/// The root entry for `va`.
pub open spec fn entry4(mem: Seq<u64>, root: u64, va: u64) -> u64 {
    slot(mem, root, idx4(va))
}

/// The third-level entry for `va`, where the root entry is present.
pub open spec fn entry3(mem: Seq<u64>, root: u64, va: u64) -> u64 {
    slot(mem, entry4(mem, root, va) & ADDR_MASK, idx3(va))
}

/// The second-level entry for `va`, where the entries above are present.
pub open spec fn entry2(mem: Seq<u64>, root: u64, va: u64) -> u64 {
    slot(mem, entry3(mem, root, va) & ADDR_MASK, idx2(va))
}

/// The first-level entry for `va`, where the entries above are present.
pub open spec fn entry1(mem: Seq<u64>, root: u64, va: u64) -> u64 {
    slot(mem, entry2(mem, root, va) & ADDR_MASK, idx1(va))
}

/// The physical address that `va` translates to.
pub open spec fn translate(mem: Seq<u64>, root: u64, va: u64) -> Option<u64> {
    let e4 = entry4(mem, root, va);
    let e3 = entry3(mem, root, va);
    let e2 = entry2(mem, root, va);
    let e1 = entry1(mem, root, va);
    if !present(e4) || !present(e3) {
        None
    } else if huge(e3) {
        Some(((e3 & ADDR_MASK_1G) + va % 0x4000_0000) as u64)
    } else if !present(e2) {
        None
    } else if huge(e2) {
        Some(((e2 & ADDR_MASK_2M) + va % 0x20_0000) as u64)
    } else if !present(e1) {
        None
    } else {
        Some(((e1 & ADDR_MASK) + va % 0x1000) as u64)
    }
}

/// The entry that maps `va`, of whatever level; zero where there is none.
pub open spec fn pte(mem: Seq<u64>, root: u64, va: u64) -> u64 {
    let e4 = entry4(mem, root, va);
    let e3 = entry3(mem, root, va);
    let e2 = entry2(mem, root, va);
    if !present(e4) || !present(e3) {
        0
    } else if huge(e3) {
        e3
    } else if !present(e2) {
        0
    } else if huge(e2) {
        e2
    } else {
        entry1(mem, root, va)
    }
}

/// The table that the first-level entry for `va` is in, where the entries above are
/// present and map no large page.
pub open spec fn leaf_table(mem: Seq<u64>, root: u64, va: u64) -> Option<u64> {
    if present(entry4(mem, root, va)) && present(entry3(mem, root, va)) && !huge(
        entry3(mem, root, va),
    ) && present(entry2(mem, root, va)) && !huge(entry2(mem, root, va)) {
        Some(entry2(mem, root, va) & ADDR_MASK)
    } else {
        None
    }
}

/// Memory with the first-level entry for `va` replaced, where there is one.
pub open spec fn with_leaf(mem: Seq<u64>, root: u64, va: u64, e: u64) -> Seq<u64> {
    match leaf_table(mem, root, va) {
        Some(pt) => set_slot(mem, pt, idx1(va), e),
        None => mem,
    }
}

proof fn lemma_addr_bits(e: u64)
    by (bit_vector)
    ensures
        (e & 0x000F_FFFF_FFFF_F000) % 4096 == 0,
        (e & 0x000F_FFFF_FFFF_F000) <= 0x000F_FFFF_FFFF_F000,
        (e & 0x000F_FFFF_FFE0_0000) % 0x20_0000 == 0,
        (e & 0x000F_FFFF_FFE0_0000) <= 0x000F_FFFF_FFE0_0000,
        (e & 0x000F_FFFF_C000_0000) % 0x4000_0000 == 0,
        (e & 0x000F_FFFF_C000_0000) <= 0x000F_FFFF_C000_0000,
{
}

/// Root of the address space whose CR3 register reads `cr3`.
pub fn get_cr3(cr3: u64) -> (root: u64)
    ensures
        root == cr3 & ADDR_MASK,
        root % 4096 == 0,
        root == cr3 % 0x10_0000_0000_0000 - cr3 % 0x1000,
{
    proof {
        lemma_addr_bits(cr3);
        lemma_entry_arith(cr3);
    }
    cr3 & ADDR_MASK
}

/// Translates `virt_addr` in the address space `pml4_phys`.
pub fn virt_to_phys_in(mem: &PhysMem, pml4_phys: u64, virt_addr: u64) -> (r: Option<u64>)
    ensures
        r == translate(mem@, pml4_phys, virt_addr),
{
    let pml4_entry: u64 = mem.read(pml4_phys, virt_addr / 0x80_0000_0000 % 512);
    if pml4_entry & PAGE_PRESENT == 0 {
        return None;
    }
    let pdpt_entry: u64 = mem.read(pml4_entry & ADDR_MASK, virt_addr / 0x4000_0000 % 512);
    if pdpt_entry & PAGE_PRESENT == 0 {
        return None;
    }
    if pdpt_entry & PAGE_HUGE != 0 {
        proof {
            lemma_addr_bits(pdpt_entry);
        }
        return Some((pdpt_entry & ADDR_MASK_1G) + virt_addr % 0x4000_0000);
    }
    let pd_entry: u64 = mem.read(pdpt_entry & ADDR_MASK, virt_addr / 0x20_0000 % 512);
    if pd_entry & PAGE_PRESENT == 0 {
        return None;
    }
    if pd_entry & PAGE_HUGE != 0 {
        proof {
            lemma_addr_bits(pd_entry);
        }
        return Some((pd_entry & ADDR_MASK_2M) + virt_addr % 0x20_0000);
    }
    let pt_entry: u64 = mem.read(pd_entry & ADDR_MASK, virt_addr / 0x1000 % 512);
    if pt_entry & PAGE_PRESENT == 0 {
        return None;
    }
    proof {
        lemma_addr_bits(pt_entry);
    }
    Some((pt_entry & ADDR_MASK) + virt_addr % 0x1000)
}

/// Translates `virt_addr` in the current address space, whose CR3 register reads `cr3`.
pub fn virt_to_phys(mem: &PhysMem, cr3: u64, virt_addr: u64) -> (r: Option<u64>)
    ensures
        r == translate(mem@, cr3 & ADDR_MASK, virt_addr),
{
    virt_to_phys_in(mem, get_cr3(cr3), virt_addr)
}

/// The entry that maps `virt_addr` in the address space `pml4_phys`, of whatever
/// level; zero where there is none.
pub fn read_pte(mem: &PhysMem, pml4_phys: u64, virt_addr: u64) -> (r: u64)
    ensures
        r == pte(mem@, pml4_phys, virt_addr),
{
    let pml4_entry: u64 = mem.read(pml4_phys, virt_addr / 0x80_0000_0000 % 512);
    if pml4_entry & PAGE_PRESENT == 0 {
        return 0;
    }
    let pdpt_entry: u64 = mem.read(pml4_entry & ADDR_MASK, virt_addr / 0x4000_0000 % 512);
    if pdpt_entry & PAGE_PRESENT == 0 {
        return 0;
    }
    if pdpt_entry & PAGE_HUGE != 0 {
        return pdpt_entry;
    }
    let pd_entry: u64 = mem.read(pdpt_entry & ADDR_MASK, virt_addr / 0x20_0000 % 512);
    if pd_entry & PAGE_PRESENT == 0 {
        return 0;
    }
    if pd_entry & PAGE_HUGE != 0 {
        return pd_entry;
    }
    mem.read(pd_entry & ADDR_MASK, virt_addr / 0x1000 % 512)
}

/// The first-level entry that maps `va`; none where no 4 KiB page does.
pub open spec fn small_pte(mem: Seq<u64>, root: u64, va: u64) -> Option<u64> {
    if present(entry4(mem, root, va)) && present(entry3(mem, root, va)) && !huge(
        entry3(mem, root, va),
    ) && present(entry2(mem, root, va)) && !huge(entry2(mem, root, va)) && present(
        entry1(mem, root, va),
    ) {
        Some(entry1(mem, root, va))
    } else {
        None
    }
}

/// The first-level entry that maps `virt_addr` in the address space `pml4_phys`; none
/// where nothing does, or a larger page.
pub fn lookup_pte_in(mem: &PhysMem, pml4_phys: u64, virt_addr: u64) -> (r: Option<u64>)
    ensures
        r == small_pte(mem@, pml4_phys, virt_addr),
{
    let pml4_entry: u64 = mem.read(pml4_phys, virt_addr / 0x80_0000_0000 % 512);
    if pml4_entry & PAGE_PRESENT == 0 {
        return None;
    }
    let pdpt_entry: u64 = mem.read(pml4_entry & ADDR_MASK, virt_addr / 0x4000_0000 % 512);
    if pdpt_entry & PAGE_PRESENT == 0 || pdpt_entry & PAGE_HUGE != 0 {
        return None;
    }
    let pd_entry: u64 = mem.read(pdpt_entry & ADDR_MASK, virt_addr / 0x20_0000 % 512);
    if pd_entry & PAGE_PRESENT == 0 || pd_entry & PAGE_HUGE != 0 {
        return None;
    }
    let e: u64 = mem.read(pd_entry & ADDR_MASK, virt_addr / 0x1000 % 512);
    if e & PAGE_PRESENT == 0 {
        return None;
    }
    Some(e)
}

/// Overwrites the first-level entry for `virt_addr` in the address space `pml4_phys`.
/// Does nothing where there is no such entry: a table above it is missing, or a large page
/// takes its place.  Says whether there is one.
pub fn write_pte(mem: &mut PhysMem, pml4_phys: u64, virt_addr: u64, pte: u64) -> (done: bool)
    ensures
        done == leaf_table(old(mem)@, pml4_phys, virt_addr) is Some,
        final(mem)@ == with_leaf(old(mem)@, pml4_phys, virt_addr, pte),
{
    let pml4_entry: u64 = mem.read(pml4_phys, virt_addr / 0x80_0000_0000 % 512);
    if pml4_entry & PAGE_PRESENT == 0 {
        return false;
    }
    let pdpt_entry: u64 = mem.read(pml4_entry & ADDR_MASK, virt_addr / 0x4000_0000 % 512);
    if pdpt_entry & PAGE_PRESENT == 0 || pdpt_entry & PAGE_HUGE != 0 {
        return false;
    }
    let pd_entry: u64 = mem.read(pdpt_entry & ADDR_MASK, virt_addr / 0x20_0000 % 512);
    if pd_entry & PAGE_PRESENT == 0 || pd_entry & PAGE_HUGE != 0 {
        return false;
    }
    mem.write(pd_entry & ADDR_MASK, virt_addr / 0x1000 % 512, pte);
    true
}

/// Clears the first-level entry for `virt_addr` in the address space `pml4_phys`; says
/// whether there was a table to clear it in.  A large page is left alone.
pub fn unmap_page_in(mem: &mut PhysMem, pml4_phys: u64, virt_addr: u64) -> (done: bool)
    ensures
        done == leaf_table(old(mem)@, pml4_phys, virt_addr) is Some,
        final(mem)@ == with_leaf(old(mem)@, pml4_phys, virt_addr, 0),
{
    write_pte(mem, pml4_phys, virt_addr, 0)
}

/// Clears the first-level entry for `virt_addr` in the current address space; where
/// the result is `true` the caller drops the cached translation of the page.  A large page is
/// left alone.
pub fn unmap_page(mem: &mut PhysMem, cr3: u64, virt_addr: u64) -> (done: bool)
    ensures
        done == leaf_table(old(mem)@, cr3 & ADDR_MASK, virt_addr) is Some,
        final(mem)@ == with_leaf(old(mem)@, cr3 & ADDR_MASK, virt_addr, 0),
{
    unmap_page_in(mem, get_cr3(cr3), virt_addr)
}

/// Whether a leaf that maps `va` to `phys` belongs to the kernel's identity map.
pub open spec fn is_identity(va: u64, phys: u64) -> bool {
    va == phys && phys < IDENTITY_WINDOW
}

/// Whether a leaf that maps `va` to `phys` belongs to the kernel's identity map.
pub fn is_identity_map_phys(va: u64, phys: u64) -> (r: bool)
    ensures
        r == is_identity(va, phys),
{
    va == phys && phys < IDENTITY_WINDOW
}

/// Where one step down the tables leads, and the state after it.
pub struct Step {
    pub next: Option<u64>,
    pub mem: Seq<u64>,
    pub frames: FramesView,
}

/// The entry `e` of a table of the given level, the root being of level 4, leads to a table:
/// it is present and maps no large page.  There are none right below the root.
pub open spec fn leads_on(e: u64, level: int) -> bool {
    present(e) && (level == 4 || !huge(e))
}

/// Contents of the table that takes the place of the large page of entry `e`, which is in a
/// table of the given level: the same memory in 512 pages of the next size with the same
/// flags.
pub open spec fn split_table(e: u64, level: int) -> Seq<u64> {
    if level == 3 {
        Seq::new(512, |i: int| ((e & ADDR_MASK_1G) + i * 0x20_0000) as u64 | (e & !ADDR_MASK))
    } else {
        Seq::new(
            512,
            |i: int| ((e & ADDR_MASK_2M) + i * 0x1000) as u64 | ((e & !ADDR_MASK) & !PAGE_HUGE),
        )
    }
}

/// The entry that points to the table `pt` in place of the huge page of entry `e`.
pub open spec fn split_entry(e: u64, pt: u64, flags: u64) -> u64 {
    let kept = (e & !ADDR_MASK) & !PAGE_HUGE;
    if flags & PAGE_USER != 0 {
        pt | (kept | PAGE_USER)
    } else {
        pt | kept
    }
}

/// One step from entry `idx` of `table`, a table of the given level, to the table below it.
/// A missing table is made, a large page is split into a table of pages of the next size,
/// and an entry on the way to a user page is opened for user code.  Nothing comes back where
/// a table is needed and no frame is free for it.
#[verifier::opaque]
pub open spec fn descend(
    mem: Seq<u64>,
    frames: FramesView,
    table: u64,
    idx: int,
    level: int,
    flags: u64,
    now: u64,
) -> Step {
    let e = slot(mem, table, idx);
    if leads_on(e, level) {
        Step {
            next: Some(e & ADDR_MASK),
            mem: if flags & PAGE_USER != 0 && e & PAGE_USER == 0 {
                set_slot(mem, table, idx, e | PAGE_USER)
            } else {
                mem
            },
            frames,
        }
    } else {
        let (page, left) = frames.allocated(now);
        match page {
            None => Step { next: None, mem, frames: left },
            Some(np) => Step {
                next: Some(np),
                mem: if present(e) {
                    set_slot(
                        with_frame(mem, np, split_table(e, level)),
                        table,
                        idx,
                        split_entry(e, np, flags),
                    )
                } else {
                    set_slot(
                        with_frame(mem, np, zero_frame()),
                        table,
                        idx,
                        np | PAGE_PRESENT | PAGE_WRITABLE | (flags & PAGE_USER),
                    )
                },
                frames: left,
            },
        }
    }
}

/// The way from `root` down to the first-level table for `va`.
pub open spec fn descend_all(
    mem: Seq<u64>,
    frames: FramesView,
    root: u64,
    va: u64,
    flags: u64,
    now: u64,
) -> Step {
    let s3 = descend(mem, frames, root, idx4(va), 4, flags, now);
    match s3.next {
        None => s3,
        Some(pdpt) => {
            let s2 = descend(s3.mem, s3.frames, pdpt, idx3(va), 3, flags, now);
            match s2.next {
                None => s2,
                Some(pd) => descend(s2.mem, s2.frames, pd, idx2(va), 2, flags, now),
            }
        },
    }
}

/// The state after entry `e` was put in place for `va`: whether the tables for it were
/// there or could be made, memory and frames.
pub open spec fn after_map(
    mem: Seq<u64>,
    frames: FramesView,
    root: u64,
    va: u64,
    flags: u64,
    e: u64,
    now: u64,
) -> (bool, Seq<u64>, FramesView) {
    let s = descend_all(mem, frames, root, va, flags, now);
    match s.next {
        None => (false, s.mem, s.frames),
        Some(pt) => (true, set_slot(s.mem, pt, idx1(va), e), s.frames),
    }
}

/// The entry that maps `phys` with `flags`.
pub open spec fn leaf_entry(phys: u64, flags: u64) -> u64 {
    (phys & ADDR_MASK) | flags | PAGE_PRESENT
}

/// Contents of the table that takes the place of a large page of entry `entry`, which is in a
/// table of the given level.
fn split_page(entry: u64, level: u64) -> (table: Vec<u64>)
    ensures
        table@ == split_table(entry, level as int),
{
    let mut table: Vec<u64> = Vec::new();
    let mut i: u64 = 0;
    let huge_base: u64 = if level == 3 {
        entry & ADDR_MASK_1G
    } else {
        entry & ADDR_MASK_2M
    };
    let step: u64 = if level == 3 {
        0x20_0000
    } else {
        0x1000
    };
    let per_entry_flags: u64 = if level == 3 {
        entry & !ADDR_MASK
    } else {
        (entry & !ADDR_MASK) & !PAGE_HUGE
    };
    proof {
        lemma_addr_bits(entry);
    }
    while i < 512
        invariant
            i <= 512,
            huge_base <= 0x000F_FFFF_FFE0_0000,
            level == 3 ==> {
                &&& huge_base == entry & ADDR_MASK_1G
                &&& step == 0x20_0000
                &&& per_entry_flags == entry & !ADDR_MASK
            },
            level != 3 ==> {
                &&& huge_base == entry & ADDR_MASK_2M
                &&& step == 0x1000
                &&& per_entry_flags == (entry & !ADDR_MASK) & !PAGE_HUGE
            },
            table@ =~= split_table(entry, level as int).take(i as int),
        decreases 512 - i,
    {
        assert(i * step <= 511 * 0x20_0000) by {
            if level == 3 {
                assert(i * step == i * 0x20_0000);
            } else {
                assert(i * step == i * 0x1000);
            }
        }
        table.push((huge_base + i * step) | per_entry_flags);
        i = i + 1;
    }
    assert(table@ =~= split_table(entry, level as int));
    table
}

/// Steps from entry `index` of `table_phys`, a table of the given level, to the table below
/// it, making it if need be.
fn get_or_create_entry(
    mem: &mut PhysMem,
    f: &mut Frames,
    table_phys: u64,
    index: u64,
    level: u64,
    flags: u64,
    now: u64,
) -> (r: Option<u64>)
    requires
        old(f).wf(),
        index < 512,
    ensures
        final(f).wf(),
        descend(old(mem)@, old(f)@, table_phys, index as int, level as int, flags, now) == (Step {
            next: r,
            mem: final(mem)@,
            frames: final(f)@,
        }),
        r is None ==> final(f)@.pmm.free.is_empty(),
{
    proof {
        reveal(descend);
    }
    let entry: u64 = mem.read(table_phys, index);
    if entry & PAGE_PRESENT != 0 {
        if entry & PAGE_HUGE != 0 && level != 4 {
            let new_pt: u64 = match alloc_page(f, now) {
                Some(p) => p,
                None => {
                    return None;
                },
            };
            let table: Vec<u64> = split_page(entry, level);
            mem.write_frame(new_pt, &table);
            let mut new_flags: u64 = (entry & !ADDR_MASK) & !PAGE_HUGE;
            if flags & PAGE_USER != 0 {
                new_flags = new_flags | PAGE_USER;
            }
            mem.write(table_phys, index, new_pt | new_flags);
            return Some(new_pt);
        }
        if flags & PAGE_USER != 0 && entry & PAGE_USER == 0 {
            mem.write(table_phys, index, entry | PAGE_USER);
        }
        Some(entry & ADDR_MASK)
    } else {
        let new_page: u64 = match alloc_page(f, now) {
            Some(p) => p,
            None => {
                return None;
            },
        };
        mem.zero_frame(new_page);
        mem.write(
            table_phys,
            index,
            new_page | PAGE_PRESENT | PAGE_WRITABLE | (flags & PAGE_USER),
        );
        Some(new_page)
    }
}

/// Puts entry `e` in place for `virt_addr`, making the tables above it if need be.
fn install_entry(
    mem: &mut PhysMem,
    f: &mut Frames,
    pml4_phys: u64,
    virt_addr: u64,
    flags: u64,
    e: u64,
    now: u64,
) -> (ok: bool)
    requires
        old(f).wf(),
    ensures
        final(f).wf(),
        (ok, final(mem)@, final(f)@) == after_map(
            old(mem)@,
            old(f)@,
            pml4_phys,
            virt_addr,
            flags,
            e,
            now,
        ),
        !ok ==> final(f)@.pmm.free.is_empty(),
{
    let pml4_idx: u64 = virt_addr / 0x80_0000_0000 % 512;
    let pdpt_idx: u64 = virt_addr / 0x4000_0000 % 512;
    let pd_idx: u64 = virt_addr / 0x20_0000 % 512;
    let pt_idx: u64 = virt_addr / 0x1000 % 512;
    let pdpt_phys: u64 = match get_or_create_entry(mem, f, pml4_phys, pml4_idx, 4, flags, now) {
        Some(a) => a,
        None => {
            return false;
        },
    };
    let pd_phys: u64 = match get_or_create_entry(mem, f, pdpt_phys, pdpt_idx, 3, flags, now) {
        Some(a) => a,
        None => {
            return false;
        },
    };
    let pt_phys: u64 = match get_or_create_entry(mem, f, pd_phys, pd_idx, 2, flags, now) {
        Some(a) => a,
        None => {
            return false;
        },
    };
    mem.write(pt_phys, pt_idx, e);
    true
}

/// Maps `virt_addr` to `phys_addr` in the address space `pml4_phys`.  Returns `false`
/// where no frame is free for a table.  The caller can then have memory freed and call once
/// more: the tables that were made are kept, and found again.
pub fn map_page_in(
    mem: &mut PhysMem,
    f: &mut Frames,
    pml4_phys: u64,
    virt_addr: u64,
    phys_addr: u64,
    flags: u64,
    now: u64,
) -> (ok: bool)
    requires
        old(f).wf(),
    ensures
        final(f).wf(),
        (ok, final(mem)@, final(f)@) == after_map(
            old(mem)@,
            old(f)@,
            pml4_phys,
            virt_addr,
            flags,
            leaf_entry(phys_addr, flags),
            now,
        ),
        !ok ==> final(f)@.pmm.free.is_empty(),
{
    install_entry(
        mem,
        f,
        pml4_phys,
        virt_addr,
        flags,
        (phys_addr & ADDR_MASK) | flags | PAGE_PRESENT,
        now,
    )
}

/// Maps `virt_addr` to `phys_addr` in the current address space, whose CR3 register
/// reads `cr3`.
pub fn map_page(
    mem: &mut PhysMem,
    f: &mut Frames,
    cr3: u64,
    virt_addr: u64,
    phys_addr: u64,
    flags: u64,
    now: u64,
) -> (ok: bool)
    requires
        old(f).wf(),
    ensures
        final(f).wf(),
        (ok, final(mem)@, final(f)@) == after_map(
            old(mem)@,
            old(f)@,
            cr3 & ADDR_MASK,
            virt_addr,
            flags,
            leaf_entry(phys_addr, flags),
            now,
        ),
        !ok ==> final(f)@.pmm.free.is_empty(),
{
    map_page_in(mem, f, get_cr3(cr3), virt_addr, phys_addr, flags, now)
}

/// Makes every access to the page of `virt_addr` in the current address space fault.
/// The tables above the entry are made, for the kernel alone; the entry itself maps
/// nothing.  Where the result is `true` the caller drops the cached translation; where it is
/// `false`, no frame is free, and the caller can call once more as for [`map_page_in`].
pub fn install_not_present_guard(
    mem: &mut PhysMem,
    f: &mut Frames,
    cr3: u64,
    virt_addr: u64,
    now: u64,
) -> (ok: bool)
    requires
        old(f).wf(),
    ensures
        final(f).wf(),
        (ok, final(mem)@, final(f)@) == after_map(
            old(mem)@,
            old(f)@,
            cr3 & ADDR_MASK,
            virt_addr,
            0,
            0,
            now,
        ),
        !ok ==> final(f)@.pmm.free.is_empty(),
{
    install_entry(mem, f, get_cr3(cr3), virt_addr, 0, 0, now)
}

/// Memory and reference counts after the small page of `va`, if there is one, was unmapped
/// and one reference to its frame was dropped; and the frame, where that was the last one.
pub open spec fn after_unmap_page(mem: Seq<u64>, refs: RefCountsView, root: u64, va: u64) -> (
    Seq<u64>,
    RefCountsView,
    Seq<u64>,
) {
    match translate(mem, root, va) {
        Some(phys) if leaf_table(mem, root, va) is Some => (
            with_leaf(mem, root, va, 0),
            refs.after_dec(phys),
            if refs.dec_result(phys) == 0 {
                seq![phys]
            } else {
                Seq::empty()
            },
        ),
        _ => (mem, refs, Seq::empty()),
    }
}

/// Memory and reference counts after `n` pages from `base` on were unmapped, and the frames
/// whose last reference went.
pub open spec fn after_unmap_range(
    mem: Seq<u64>,
    refs: RefCountsView,
    root: u64,
    base: u64,
    n: nat,
) -> (Seq<u64>, RefCountsView, Seq<u64>)
    decreases n,
{
    if n == 0 {
        (mem, refs, Seq::empty())
    } else {
        let (m, r, gone) = after_unmap_range(mem, refs, root, base, (n - 1) as nat);
        let (m2, r2, more) = after_unmap_page(m, r, root, (base + (n - 1) * 0x1000) as u64);
        (m2, r2, gone + more)
    }
}

/// Number of pages that `[base, base + length)` touches, counted from `base`.
pub open spec fn pages_in(base: u64, length: u64) -> nat {
    ((base.saturating_add(length) - base + 0xFFF) / 0x1000) as nat
}

/// What is left to do after a range was unmapped.
pub struct Unmapped {
    /// The frames whose last reference went.  They are still taken.
    pub frames: Vec<u64>,
    /// How the translations of the range are dropped on every processor.
    pub shootdown: Shootdown,
}

impl Unmapped {
    /// It is what processor `self_cpu` has left to do after it unmapped
    /// `[base, base + length)`.
    pub open spec fn follows(
        self,
        mem: Seq<u64>,
        refs: RefCountsView,
        t: TlbView,
        root: u64,
        base: u64,
        length: u64,
        self_cpu: u64,
    ) -> bool {
        &&& self.frames@ == after_unmap_range(mem, refs, root, base, pages_in(base, length)).2
        &&& self.shootdown.invalidates(t, root, base, base.saturating_add(length), self_cpu)
    }
}

/// Unmaps the small pages of `[base, base + length)` that are mapped, drops one reference to
/// each of their frames, and asks every processor that runs in the address space to drop its
/// translations of the range.  A large page that reaches into the range is left alone.  The
/// change counter of the address space, where one is registered for its root, moves on.
///
/// No frame is freed yet: another processor may still reach it.  The caller, on processor
/// `self_cpu`, carries the invalidation through, and then hands the frames whose last
/// reference went to [`release_frames`](crate::mm::tlb::release_frames), with the outcome.
pub fn unmap_and_free_range_in(
    mem: &mut PhysMem,
    f: &mut Frames,
    t: &mut Tlb,
    reg: &mut MmRegistry,
    pml4_phys: u64,
    base: u64,
    length: u64,
    self_cpu: u64,
) -> (r: Unmapped)
    requires
        old(f).wf(),
        old(f)@.refs.counts is Some,
        old(t)@.wf(),
        old(reg)@.wf(),
        base.saturating_add(length) <= u64::MAX - 0xFFF,
    ensures
        final(f).wf(),
        final(t)@.wf(),
        final(reg)@.wf(),
        final(reg)@ == old(reg)@.bumped_for(pml4_phys),
        ({
            let (m, refs, _gone) = after_unmap_range(
                old(mem)@,
                old(f)@.refs,
                pml4_phys,
                base,
                pages_in(base, length),
            );
            &&& final(mem)@ == m
            &&& final(f)@ == (FramesView { refs, ..old(f)@ })
        }),
        final(t)@ == old(t)@.published(
            old(t)@.targets(pml4_phys, self_cpu),
            pml4_phys,
            base,
            base.saturating_add(length),
        ),
        r.follows(old(mem)@, old(f)@.refs, old(t)@, pml4_phys, base, length, self_cpu),
{
    let mut frames: Vec<u64> = Vec::new();
    let mut pg: u64 = base;
    let end: u64 = base.saturating_add(length);
    let ghost mut n: nat = 0;
    while pg < end
        invariant
            f.wf(),
            f@.refs.counts is Some,
            base <= end <= u64::MAX - 0xFFF,
            pg == base + n * 0x1000,
            pg < end + 0x1000,
            n == 0 || pg - 0x1000 < end,
            f@ == (FramesView { refs: f@.refs, ..old(f)@ }),
            (mem@, f@.refs, frames@) == after_unmap_range(
                old(mem)@,
                old(f)@.refs,
                pml4_phys,
                base,
                n,
            ),
        decreases end + 0x1000 - pg,
    {
        let ghost before = frames@;
        match virt_to_phys_in(mem, pml4_phys, pg) {
            Some(phys) => {
                if unmap_page_in(mem, pml4_phys, pg) && page_ref_dec(&mut f.refs, phys) == 0 {
                    frames.push(phys);
                    assert(frames@ =~= before + seq![phys]);
                } else {
                    assert(frames@ =~= before + Seq::<u64>::empty());
                }
            },
            None => {
                assert(frames@ =~= before + Seq::<u64>::empty());
            },
        }
        pg = pg + 0x1000;
        proof {
            n = n + 1;
        }
    }
    assert(n == pages_in(base, length));
    bump_generation_for_cr3(reg, pml4_phys);
    let shootdown = shootdown_range(t, pml4_phys, base, end, self_cpu);
    Unmapped { frames, shootdown }
}

/// The state of a pass over the entries of one table.
pub struct Pass {
    pub mem: Seq<u64>,
    pub frames: FramesView,
    /// No frame was free for a table that was due.
    pub short: bool,
}

/// The state after the first `n` entries of the table `pdpt` were given tables of
/// their own: copies of those they had shared.
pub open spec fn after_separation(
    mem: Seq<u64>,
    frames: FramesView,
    pdpt: u64,
    n: nat,
    now: u64,
) -> Pass
    decreases n,
{
    if n == 0 {
        Pass { mem, frames, short: false }
    } else {
        let p = after_separation(mem, frames, pdpt, (n - 1) as nat, now);
        let e = slot(p.mem, pdpt, n - 1);
        if p.short || !present(e) || huge(e) {
            p
        } else {
            let (page, left) = p.frames.allocated(now);
            match page {
                None => Pass { frames: left, short: true, ..p },
                Some(np) => Pass {
                    mem: set_slot(
                        with_frame(p.mem, np, frame_words(p.mem, e & ADDR_MASK)),
                        pdpt,
                        n - 1,
                        np | (e & !ADDR_MASK),
                    ),
                    frames: left,
                    ..p
                },
            }
        }
    }
}

/// Gives the higher half tables of its own, so that a change to the low mapping does
/// not show there.  Stops where no frame is free, and says so.
fn separate_higher_half_pds(mem: &mut PhysMem, f: &mut Frames, cr3: u64, now: u64) -> (short: bool)
    requires
        old(f).wf(),
    ensures
        final(f).wf(),
        ({
            let e = slot(old(mem)@, cr3 & ADDR_MASK, 256);
            let p = after_separation(old(mem)@, old(f)@, e & ADDR_MASK, 512, now);
            if present(e) {
                final(mem)@ == p.mem && final(f)@ == p.frames && short == p.short
            } else {
                final(mem)@ == old(mem)@ && final(f)@ == old(f)@ && !short
            }
        }),
{
    let pml4_256: u64 = mem.read(get_cr3(cr3), 256);
    if pml4_256 & PAGE_PRESENT == 0 {
        return false;
    }
    let pdpt_phys: u64 = pml4_256 & ADDR_MASK;
    let mut i: u64 = 0;
    while i < 512
        invariant
            f.wf(),
            i <= 512,
            after_separation(old(mem)@, old(f)@, pdpt_phys, i as nat, now) == (Pass {
                mem: mem@,
                frames: f@,
                short: false,
            }),
            pml4_256 == slot(old(mem)@, cr3 & ADDR_MASK, 256),
            pml4_256 & PAGE_PRESENT != 0,
            pdpt_phys == pml4_256 & ADDR_MASK,
        decreases 512 - i,
    {
        let pdpt_entry: u64 = mem.read(pdpt_phys, i);
        if pdpt_entry & PAGE_PRESENT != 0 && pdpt_entry & PAGE_HUGE == 0 {
            let old_pd_phys: u64 = pdpt_entry & ADDR_MASK;
            match alloc_page(f, now) {
                Some(new_pd) => {
                    let contents: Vec<u64> = mem.read_frame(old_pd_phys);
                    mem.write_frame(new_pd, &contents);
                    mem.write(pdpt_phys, i, new_pd | (pdpt_entry & !ADDR_MASK));
                },
                None => {
                    proof {
                        lemma_stopped(old(mem)@, old(f)@, pdpt_phys, (i + 1) as nat, 512, now);
                    }
                    return true;
                },
            }
        }
        i = i + 1;
    }
    false
}

proof fn lemma_stopped(
    mem: Seq<u64>,
    frames: FramesView,
    pdpt: u64,
    i: nat,
    n: nat,
    now: u64,
)
    requires
        i <= n,
        after_separation(mem, frames, pdpt, i, now).short,
    ensures
        after_separation(mem, frames, pdpt, n, now) == after_separation(
            mem,
            frames,
            pdpt,
            i,
            now,
        ),
    decreases n - i,
{
    if i < n {
        lemma_stopped(mem, frames, pdpt, i, (n - 1) as nat, now);
    }
}

/// Table that maps the gigabyte number `gib` of physical memory in huge pages.
pub open spec fn gib_table(gib: int) -> Seq<u64> {
    Seq::new(
        512,
        |k: int|
            (gib * 0x4000_0000 + k * 0x20_0000) as u64 | PAGE_PRESENT | PAGE_WRITABLE | PAGE_HUGE,
    )
}

/// The state after the gigabytes from the first one up to, but without, number `n`
/// were mapped where they were not.
pub open spec fn after_extension(
    mem: Seq<u64>,
    frames: FramesView,
    pdpt: u64,
    n: nat,
    now: u64,
) -> Pass
    decreases n,
{
    if n <= 1 {
        Pass { mem, frames, short: false }
    } else {
        let p = after_extension(mem, frames, pdpt, (n - 1) as nat, now);
        if present(slot(p.mem, pdpt, n - 1)) {
            p
        } else {
            let (page, left) = p.frames.allocated(now);
            match page {
                None => Pass { frames: left, short: true, ..p },
                Some(np) => Pass {
                    mem: set_slot(
                        with_frame(p.mem, np, gib_table(n - 1)),
                        pdpt,
                        n - 1,
                        np | PAGE_PRESENT | PAGE_WRITABLE,
                    ),
                    frames: left,
                    ..p
                },
            }
        }
    }
}

/// Extends the direct map to the first four gigabytes of physical memory.  A gigabyte
/// for which no frame is free is left out; the result says whether there was one.
fn extend_higher_half_to_4gib(mem: &mut PhysMem, f: &mut Frames, cr3: u64, now: u64) -> (short:
    bool)
    requires
        old(f).wf(),
    ensures
        final(f).wf(),
        ({
            let e = slot(old(mem)@, cr3 & ADDR_MASK, 256);
            let p = after_extension(old(mem)@, old(f)@, e & ADDR_MASK, 4, now);
            if present(e) {
                final(mem)@ == p.mem && final(f)@ == p.frames && short == p.short
            } else {
                final(mem)@ == old(mem)@ && final(f)@ == old(f)@ && !short
            }
        }),
{
    let pml4_entry: u64 = mem.read(get_cr3(cr3), 256);
    if pml4_entry & PAGE_PRESENT == 0 {
        return false;
    }
    let pdpt_phys: u64 = pml4_entry & ADDR_MASK;
    let mut short: bool = false;
    let mut pdpt_idx: u64 = 1;
    while pdpt_idx <= 3
        invariant
            f.wf(),
            1 <= pdpt_idx <= 4,
            after_extension(old(mem)@, old(f)@, pdpt_phys, pdpt_idx as nat, now) == (Pass {
                mem: mem@,
                frames: f@,
                short,
            }),
        decreases 4 - pdpt_idx,
    {
        let cur: u64 = mem.read(pdpt_phys, pdpt_idx);
        if cur & PAGE_PRESENT == 0 {
            match alloc_page(f, now) {
                Some(new_pd) => {
                    let chunk_base: u64 = pdpt_idx * 0x4000_0000;
                    let mut table: Vec<u64> = Vec::new();
                    let mut pd_i: u64 = 0;
                    while pd_i < 512
                        invariant
                            pd_i <= 512,
                            1 <= pdpt_idx <= 3,
                            chunk_base == pdpt_idx * 0x4000_0000,
                            table@ =~= gib_table(pdpt_idx as int).take(pd_i as int),
                        decreases 512 - pd_i,
                    {
                        let phys: u64 = chunk_base + pd_i * 0x20_0000;
                        table.push(phys | PAGE_PRESENT | PAGE_WRITABLE | PAGE_HUGE);
                        pd_i = pd_i + 1;
                    }
                    assert(table@ =~= gib_table(pdpt_idx as int));
                    mem.write_frame(new_pd, &table);
                    mem.write(pdpt_phys, pdpt_idx, new_pd | PAGE_PRESENT | PAGE_WRITABLE);
                },
                None => {
                    short = true;
                },
            }
        }
        pdpt_idx = pdpt_idx + 1;
    }
    short
}

/// What the virtual memory manager remembers.
pub struct Vmm {
    /// CR3 of the kernel's own address space; zero before [`init`].
    pub kernel_cr3: u64,
}

/// CR3 of the kernel's own address space; zero before [`init`].
pub fn get_kernel_cr3(vmm: &Vmm) -> (r: u64)
    ensures
        r == vmm.kernel_cr3,
{
    vmm.kernel_cr3
}

/// The frames after the heap and its two guard frames were reserved.
pub open spec fn with_heap_reserved(frames: FramesView, kernel_end_va: u64) -> FramesView {
    let start = heap_phys_start(kernel_end_va);
    FramesView {
        pmm: frames.pmm.after_reserve(
            (start - 0x1000) / 4096,
            (start + HEAP_SIZE + 0x1000 + 4095) / 4096,
        ),
        ..frames
    }
}

/// Memory and the frames after the kernel's address space was set up, and whether frames
/// ran out.
pub open spec fn after_init(
    mem: Seq<u64>,
    frames: FramesView,
    cr3: u64,
    kernel_end_va: u64,
    now: u64,
) -> Pass {
    let reserved = with_heap_reserved(frames, kernel_end_va);
    let e = slot(mem, cr3 & ADDR_MASK, 256);
    let p = after_separation(mem, reserved, e & ADDR_MASK, 512, now);
    let e2 = slot(p.mem, cr3 & ADDR_MASK, 256);
    if !present(e) {
        Pass { mem, frames: reserved, short: false }
    } else if !present(e2) {
        p
    } else {
        let q = after_extension(p.mem, p.frames, e2 & ADDR_MASK, 4, now);
        Pass { short: p.short || q.short, ..q }
    }
}

/// Sets the virtual memory manager up: reserves the frames of the heap and of its
/// guards before any frame is handed out, gives the higher half tables of its own,
/// extends the direct map, and notes the kernel's address space.  Says whether frames ran
/// out; there is no process then whose end would free some.
pub fn init(
    vmm: &mut Vmm,
    mem: &mut PhysMem,
    f: &mut Frames,
    cr3: u64,
    kernel_end_va: u64,
    now: u64,
) -> (short: bool)
    requires
        old(f).wf(),
        kernel_end_va + 0x20_0FFF <= u64::MAX,
    ensures
        final(f).wf(),
        final(vmm).kernel_cr3 == cr3,
        after_init(old(mem)@, old(f)@, cr3, kernel_end_va, now) == (Pass {
            mem: final(mem)@,
            frames: final(f)@,
            short,
        }),
{
    let (below, above) = compute_guard_phys(kernel_end_va);
    reserve_range(&mut f.pmm, below, above + 0x1000);
    let unshared: bool = !separate_higher_half_pds(mem, f, cr3, now);
    let extended: bool = !extend_higher_half_to_4gib(mem, f, cr3, now);
    vmm.kernel_cr3 = cr3;
    !unshared || !extended
}

proof fn lemma_entry_bits(e: u64, np: u64, flags: u64)
    by (bit_vector)
    requires
        np & 0xFFF == 0,
        np < 0x1_0000_0000,
    ensures
        (np | 0x1 | 0x2 | (flags & 0x4)) & 0x1 != 0,
        (np | 0x1 | 0x2 | (flags & 0x4)) & 0x80 == 0,
        (np | 0x1 | 0x2 | (flags & 0x4)) & 0x000F_FFFF_FFFF_F000 == np,
        (e | 0x4) & 0x1 == e & 0x1,
        (e | 0x4) & 0x80 == e & 0x80,
        (e | 0x4) & 0x000F_FFFF_FFFF_F000 == e & 0x000F_FFFF_FFFF_F000,
        (e | 0x4) & 0x4 == 0x4,
        (np | 0x1 | 0x2 | (flags & 0x4)) & 0x4 == flags & 0x4,
        (np | (((e & !0x000F_FFFF_FFFF_F000) & !0x80) | 0x4)) & 0x4 == 0x4,
        flags & 0x4 != 0 ==> flags & 0x4 == 0x4,
        (np | ((e & !0x000F_FFFF_FFFF_F000) & !0x80)) & 0x1 == e & 0x1,
        (np | ((e & !0x000F_FFFF_FFFF_F000) & !0x80)) & 0x80 == 0,
        (np | ((e & !0x000F_FFFF_FFFF_F000) & !0x80)) & 0x000F_FFFF_FFFF_F000 == np,
        (np | (((e & !0x000F_FFFF_FFFF_F000) & !0x80) | 0x4)) & 0x1 == e & 0x1,
        (np | (((e & !0x000F_FFFF_FFFF_F000) & !0x80) | 0x4)) & 0x80 == 0,
        (np | (((e & !0x000F_FFFF_FFFF_F000) & !0x80) | 0x4)) & 0x000F_FFFF_FFFF_F000 == np,
{
}

pub proof fn lemma_leaf_bits(a: u64, flags: u64)
    by (bit_vector)
    ensures
        ((a & 0x000F_FFFF_FFFF_F000) | flags | 0x1) & 0x1 != 0,
        flags & 0x000F_FFFF_FFFF_F000 == 0 ==> ((a & 0x000F_FFFF_FFFF_F000) | flags | 0x1)
            & 0x000F_FFFF_FFFF_F000 == a & 0x000F_FFFF_FFFF_F000,
        a % 4096 == 0 ==> a & 0xFFF == 0,
        0u64 & 0x1 == 0,
{
}

pub proof fn lemma_drain_keeps_sweep_tick(f: FramesView, n: nat, now: u64)
    ensures
        f.after_drain(n, now).pins.last_sweep == f.pins.last_sweep,
        f.after_drain(n, now).refs == f.refs,
    decreases n,
{
    if n > 0 {
        lemma_drain_keeps_sweep_tick(f, (n - 1) as nat, now);
    }
}

/// One sweep per tick: after a sweep, or an allocation, no further one is due.
proof fn lemma_sweep_once(f: FramesView, now: u64)
    ensures
        f.after_sweep(now).after_sweep(now) == f.after_sweep(now),
        f.allocated(now).1.after_sweep(now) == f.allocated(now).1,
        f.after_sweep(now).refs == f.refs,
{
    if f.sweep_due(now) {
        lemma_drain_keeps_sweep_tick(
            FramesView {
                pins: crate::mm::dma_pin::DmaPinsView { last_sweep: now, ..f.pins },
                ..f
            },
            256,
            now,
        );
    }
}

/// Frames that an allocation at tick `now` may hand out.
#[verifier::opaque]
pub open spec fn usable(f: FramesView, now: u64) -> Set<int> {
    f.after_sweep(now).pmm.free
}

/// A table that lies in installed memory and whose frame is not up for allocation.
pub open spec fn table_ok(mem: Seq<u64>, free: Set<int>, table: u64) -> bool {
    &&& table % 4096 == 0
    &&& table as int / 8 + 512 <= mem.len()
    &&& !free.contains(table as int / 4096)
}

/// Every frame up for allocation lies in installed memory.
pub open spec fn frames_ok(mem: Seq<u64>, free: Set<int>) -> bool {
    forall|p: int|
        #[trigger] free.contains(p) ==> 0 <= p < 0x10_0000 && p * 512 + 512 <= mem.len()
}

/// The tables on the way to `va` are sound and distinct.
pub open spec fn path_ok(mem: Seq<u64>, free: Set<int>, root: u64, va: u64) -> bool {
    let e4 = entry4(mem, root, va);
    let e3 = entry3(mem, root, va);
    let e2 = entry2(mem, root, va);
    let t3 = e4 & ADDR_MASK;
    let t2 = e3 & ADDR_MASK;
    let t1 = e2 & ADDR_MASK;
    &&& table_ok(mem, free, root)
    &&& present(e4) ==> {
        &&& table_ok(mem, free, t3)
        &&& t3 != root
        &&& present(e3) && !huge(e3) ==> {
            &&& table_ok(mem, free, t2)
            &&& t2 != root
            &&& t2 != t3
            &&& present(e2) && !huge(e2) ==> {
                &&& table_ok(mem, free, t1)
                &&& t1 != root
                &&& t1 != t3
                &&& t1 != t2
            }
        }
    }
}

/// Word `k` of memory does not belong to the frame at `phys`.
pub open spec fn outside(k: int, phys: u64) -> bool {
    k < phys as int / 8 || phys as int / 8 + 512 <= k
}

/// An allocation hands out a usable frame, and that one alone is not usable any more.
pub proof fn lemma_allocated(f: FramesView, now: u64)
    requires
        forall|p: int| #[trigger] usable(f, now).contains(p) ==> 0 <= p < 0x10_0000,
    ensures
        f.allocated(now).0 matches Some(np) ==> {
            &&& np % 4096 == 0
            &&& np < 0x1_0000_0000
            &&& usable(f, now).contains(np as int / 4096)
            &&& usable(f.allocated(now).1, now) == usable(f, now).remove(np as int / 4096)
        },
{
    reveal(usable);
    lemma_sweep_once(f, now);
    let swept = f.after_sweep(now);
    if !swept.pmm.free.is_empty() {
        assert forall|p: int| #[trigger] swept.pmm.free.contains(p) implies 0 <= p < 0x10_0000 by {
            assert(usable(f, now).contains(p));
        }
        lemma_some_choice(swept.pmm);
        assert(usable(f, now).contains(swept.pmm.next_page()));
    }
}

/// What one step down does to memory: it leads to a sound table, the entry now points
/// there, and nothing changes but that entry and the frame of a table that was made.
pub proof fn lemma_descend(
    mem: Seq<u64>,
    f: FramesView,
    table: u64,
    idx: int,
    level: int,
    flags: u64,
    now: u64,
)
    requires
        0 <= idx < 512,
        table_ok(mem, usable(f, now), table),
        frames_ok(mem, usable(f, now)),
        descend(mem, f, table, idx, level, flags, now).next is Some,
    ensures
        ({
            let s = descend(mem, f, table, idx, level, flags, now);
            let e = slot(mem, table, idx);
            let e2 = slot(s.mem, table, idx);
            let next = s.next->0;
            &&& s.mem.len() == mem.len()
            &&& present(e2)
            &&& level != 4 ==> !huge(e2)
            &&& e2 & ADDR_MASK == next
            &&& usable(s.frames, now).subset_of(usable(f, now))
            &&& if leads_on(e, level) {
                &&& next == e & ADDR_MASK
                &&& usable(s.frames, now) == usable(f, now)
                &&& forall|k: int|
                    k != table as int / 8 + idx ==> #[trigger] word_at(s.mem, k) == word_at(
                        mem,
                        k,
                    )
            } else {
                &&& usable(f, now).contains(next as int / 4096)
                &&& table_ok(s.mem, usable(s.frames, now), next)
                &&& next != table
                &&& frame_words(s.mem, next) == (if present(e) {
                    split_table(e, level)
                } else {
                    zero_frame()
                })
                &&& forall|k: int|
                    k != table as int / 8 + idx && outside(k, next) ==> #[trigger] word_at(
                        s.mem,
                        k,
                    ) == word_at(mem, k)
            }
        }),
{
    reveal(descend);
    reveal(usable);
    let s = descend(mem, f, table, idx, level, flags, now);
    let e = slot(mem, table, idx);
    lemma_sweep_once(f, now);
    lemma_leaf_bits(0, 0);
    if leads_on(e, level) {
        lemma_entry_bits(e, 0, flags);
    } else {
        let swept = f.after_sweep(now);
        assert(!swept.pmm.free.is_empty());
        let page = swept.pmm.next_page();
        lemma_some_choice(swept.pmm);
        let np = s.next->0;
        assert(np == page * 4096);
        lemma_leaf_bits(np, 0);
        lemma_entry_bits(e, np, flags);
        assert(usable(f, now).contains(page));
        assert(s.frames.pmm.free == swept.pmm.free.remove(page));
        let contents = if present(e) {
            split_table(e, level)
        } else {
            zero_frame()
        };
        assert(frame_words(s.mem, np) =~= contents) by {
            assert forall|i: int| 0 <= i < 512 implies slot(s.mem, np, i) == #[trigger] contents[i] by {
                assert(np as int / 8 + i != table as int / 8 + idx);
            }
        }
    }
}

/// A step that was made is found made: to make it again changes nothing.
pub proof fn lemma_descend_again(
    mem: Seq<u64>,
    f: FramesView,
    table: u64,
    idx: int,
    level: int,
    flags: u64,
    now: u64,
    m: Seq<u64>,
    g: FramesView,
)
    requires
        0 <= idx < 512,
        table_ok(mem, usable(f, now), table),
        frames_ok(mem, usable(f, now)),
        descend(mem, f, table, idx, level, flags, now).next is Some,
        slot(m, table, idx) == slot(
            descend(mem, f, table, idx, level, flags, now).mem,
            table,
            idx,
        ),
    ensures
        descend(m, g, table, idx, level, flags, now) == (Step {
            next: descend(mem, f, table, idx, level, flags, now).next,
            mem: m,
            frames: g,
        }),
{
    lemma_descend(mem, f, table, idx, level, flags, now);
    reveal(descend);
    let s = descend(mem, f, table, idx, level, flags, now);
    let e = slot(mem, table, idx);
    lemma_leaf_bits(0, 0);
    if leads_on(e, level) {
        lemma_entry_bits(e, 0, flags);
    } else {
        reveal(usable);
        let swept = f.after_sweep(now);
        assert(!swept.pmm.free.is_empty());
        lemma_some_choice(swept.pmm);
        let np = s.next->0;
        lemma_leaf_bits(np, 0);
        lemma_entry_bits(e, np, flags);
    }
}

/// Where a frame is free, the search finds one.
pub proof fn lemma_some_choice(s: crate::mm::pmm::PmmView)
    requires
        !s.free.is_empty(),
        forall|p: int| #[trigger] s.free.contains(p) ==> p >= 0,
    ensures
        s.next_fit_choice(s.next_page()),
{
    let p = choose|p: int| s.free.contains(p);
    assert(s.free.contains(p)) by {
        if forall|q: int| !s.free.contains(q) {
            assert(s.free =~= Set::empty());
        }
    }
    if exists|q: int| q >= 8 * s.next_fit && s.free.contains(q) {
        let q = choose|q: int| q >= 8 * s.next_fit && s.free.contains(q);
        let m = lemma_least(s.free, 8 * s.next_fit, q);
        assert(s.next_fit_choice(m));
    } else {
        let m = lemma_least(s.free, 0, p);
        assert(s.next_fit_choice(m));
    }
}

proof fn lemma_least(free: Set<int>, lo: int, q: int) -> (m: int)
    requires
        lo <= q,
        free.contains(q),
    ensures
        lo <= m <= q,
        free.contains(m),
        forall|x: int| lo <= x < m ==> !free.contains(x),
    decreases q - lo,
{
    if exists|x: int| lo <= x < q && free.contains(x) {
        let x = choose|x: int| lo <= x < q && free.contains(x);
        lemma_least(free, lo, x)
    } else {
        q
    }
}

/// The way down as it stands once the tables for `va` are in place: three present
/// entries in three distinct tables, the last of which points to the table `pt`.
pub open spec fn path_built(mem: Seq<u64>, root: u64, va: u64, pt: u64) -> bool {
    let t3 = entry4(mem, root, va) & ADDR_MASK;
    let t2 = entry3(mem, root, va) & ADDR_MASK;
    &&& present(entry4(mem, root, va))
    &&& present(entry3(mem, root, va))
    &&& !huge(entry3(mem, root, va))
    &&& present(entry2(mem, root, va))
    &&& !huge(entry2(mem, root, va))
    &&& entry2(mem, root, va) & ADDR_MASK == pt
    &&& root % 4096 == 0
    &&& t3 % 4096 == 0
    &&& t2 % 4096 == 0
    &&& pt % 4096 == 0
    &&& t3 != root
    &&& t2 != root
    &&& t2 != t3
    &&& pt != root
    &&& pt != t3
    &&& pt != t2
    &&& pt as int / 8 + 512 <= mem.len()
}

pub proof fn lemma_words_apart(t: u64, u: u64, i: int, j: int)
    requires
        t % 4096 == 0,
        u % 4096 == 0,
        t != u,
        0 <= i < 512,
        0 <= j < 512,
    ensures
        t as int / 8 + i != u as int / 8 + j,
        outside(t as int / 8 + i, u),
{
}

pub proof fn lemma_idx(va: u64)
    ensures
        0 <= idx4(va) < 512,
        0 <= idx3(va) < 512,
        0 <= idx2(va) < 512,
        0 <= idx1(va) < 512,
{
}

/// What one step down does to a word of another table: nothing.
pub proof fn lemma_descend_keeps(
    mem: Seq<u64>,
    f: FramesView,
    table: u64,
    idx: int,
    level: int,
    flags: u64,
    now: u64,
    other: u64,
    j: int,
)
    requires
        0 <= idx < 512,
        0 <= j < 512,
        table_ok(mem, usable(f, now), table),
        frames_ok(mem, usable(f, now)),
        descend(mem, f, table, idx, level, flags, now).next is Some,
        other % 4096 == 0,
        other != table,
        !usable(f, now).contains(other as int / 4096),
    ensures
        slot(descend(mem, f, table, idx, level, flags, now).mem, other, j) == slot(mem, other, j),
{
    let s = descend(mem, f, table, idx, level, flags, now);
    lemma_descend(mem, f, table, idx, level, flags, now);
    lemma_words_apart(other, table, j, idx);
    let e = slot(mem, table, idx);
    if !leads_on(e, level) {
        let next = s.next->0;
        assert(usable(f, now).contains(next as int / 4096));
        assert(next != other);
        lemma_words_apart(other, next, j, 0);
    }
    assert(word_at(s.mem, other as int / 8 + j) == word_at(mem, other as int / 8 + j));
}

/// Where one step down leads to: a sound table that is none of the given other ones.
pub proof fn lemma_descend_target(
    mem: Seq<u64>,
    f: FramesView,
    table: u64,
    idx: int,
    level: int,
    flags: u64,
    now: u64,
    other: u64,
)
    requires
        0 <= idx < 512,
        table_ok(mem, usable(f, now), table),
        frames_ok(mem, usable(f, now)),
        descend(mem, f, table, idx, level, flags, now).next is Some,
        table_ok(mem, usable(f, now), other),
        ({
            let e = slot(mem, table, idx);
            leads_on(e, level) ==> table_ok(mem, usable(f, now), e & ADDR_MASK) && e
                & ADDR_MASK != other
        }),
    ensures
        ({
            let s = descend(mem, f, table, idx, level, flags, now);
            &&& table_ok(s.mem, usable(s.frames, now), s.next->0)
            &&& s.next->0 != other
            &&& table_ok(s.mem, usable(s.frames, now), other)
            &&& frames_ok(s.mem, usable(s.frames, now))
        }),
{
    lemma_descend(mem, f, table, idx, level, flags, now);
}

pub proof fn lemma_path_built(
    mem: Seq<u64>,
    f: FramesView,
    root: u64,
    va: u64,
    flags: u64,
    now: u64,
)
    requires
        path_ok(mem, usable(f, now), root, va),
        frames_ok(mem, usable(f, now)),
        descend_all(mem, f, root, va, flags, now).next is Some,
    ensures
        ({
            let s = descend_all(mem, f, root, va, flags, now);
            &&& path_built(s.mem, root, va, s.next->0)
            &&& flags / 4 % 2 == 1 ==> entry4(s.mem, root, va) / 4 % 2 == 1 && entry3(
                s.mem,
                root,
                va,
            ) / 4 % 2 == 1 && entry2(s.mem, root, va) / 4 % 2 == 1
            &&& entry4(mem, root, va) % 2 == 0 ==> entry4(s.mem, root, va) / 2 % 2 == 1 && entry3(
                s.mem,
                root,
                va,
            ) / 2 % 2 == 1 && entry2(s.mem, root, va) / 2 % 2 == 1
        }),
{
    let (i4, i3, i2) = (idx4(va), idx3(va), idx2(va));
    lemma_idx(va);
    lemma_leaf_bits(0, 0);
    let e4 = slot(mem, root, i4);
    let s3 = descend(mem, f, root, i4, 4, flags, now);
    let t3 = s3.next->0;
    lemma_descend(mem, f, root, i4, 4, flags, now);
    law_step_down_grants_access(mem, f, root, i4, 4, flags, now);
    lemma_descend_target(mem, f, root, i4, 4, flags, now, root);
    let e3 = slot(s3.mem, t3, i3);
    lemma_entry_arith(e4);
    if present(e4) {
        lemma_descend_keeps(mem, f, root, i4, 4, flags, now, t3, i3);
        assert(e3 == entry3(mem, root, va));
        if leads_on(e3, 3) {
            let t2 = e3 & ADDR_MASK;
            lemma_descend_keeps(mem, f, root, i4, 4, flags, now, t2, i2);
            assert(table_ok(s3.mem, usable(s3.frames, now), t2));
        }
    } else {
        assert(frame_words(s3.mem, t3)[i3] == 0);
    }
    let s2 = descend(s3.mem, s3.frames, t3, i3, 3, flags, now);
    let t2 = s2.next->0;
    lemma_descend(s3.mem, s3.frames, t3, i3, 3, flags, now);
    law_step_down_grants_access(s3.mem, s3.frames, t3, i3, 3, flags, now);
    lemma_descend_target(s3.mem, s3.frames, t3, i3, 3, flags, now, t3);
    lemma_descend_target(s3.mem, s3.frames, t3, i3, 3, flags, now, root);
    lemma_descend_keeps(s3.mem, s3.frames, t3, i3, 3, flags, now, root, i4);
    let e2 = slot(s2.mem, t2, i2);
    if leads_on(e3, 3) {
        lemma_descend_keeps(s3.mem, s3.frames, t3, i3, 3, flags, now, t2, i2);
        assert(e2 == entry2(mem, root, va));
        if present(e2) && !huge(e2) {
            assert(table_ok(s2.mem, usable(s2.frames, now), e2 & ADDR_MASK));
        }
    } else if present(e3) {
        assert(frame_words(s2.mem, t2)[i2] == split_table(e3, 3)[i2]);
        lemma_gib_part(e3, i2);
    } else {
        assert(frame_words(s2.mem, t2)[i2] == 0);
    }
    let s1 = descend(s2.mem, s2.frames, t2, i2, 2, flags, now);
    lemma_descend(s2.mem, s2.frames, t2, i2, 2, flags, now);
    law_step_down_grants_access(s2.mem, s2.frames, t2, i2, 2, flags, now);
    lemma_descend_target(s2.mem, s2.frames, t2, i2, 2, flags, now, t2);
    lemma_descend_target(s2.mem, s2.frames, t2, i2, 2, flags, now, t3);
    lemma_descend_target(s2.mem, s2.frames, t2, i2, 2, flags, now, root);
    lemma_descend_keeps(s2.mem, s2.frames, t2, i2, 2, flags, now, root, i4);
    lemma_descend_keeps(s2.mem, s2.frames, t2, i2, 2, flags, now, t3, i3);
    assert(entry4(s1.mem, root, va) & ADDR_MASK == t3);
    assert(entry3(s1.mem, root, va) & ADDR_MASK == t2);
}

/// A page that was mapped translates to the frame it was mapped to.  The tables on the
/// way must be sound.
pub proof fn law_map_then_translate(
    mem: Seq<u64>,
    f: FramesView,
    root: u64,
    va: u64,
    phys: u64,
    flags: u64,
    now: u64,
)
    requires
        path_ok(mem, usable(f, now), root, va),
        frames_ok(mem, usable(f, now)),
        flags & ADDR_MASK == 0,
        after_map(mem, f, root, va, flags, leaf_entry(phys, flags), now).0,
    ensures
        translate(
            after_map(mem, f, root, va, flags, leaf_entry(phys, flags), now).1,
            root,
            va,
        ) == Some(((phys & ADDR_MASK) + va % 4096) as u64),
{
    let s = descend_all(mem, f, root, va, flags, now);
    let pt = s.next->0;
    lemma_path_built(mem, f, root, va, flags, now);
    lemma_write_leaf(s.mem, root, va, pt, leaf_entry(phys, flags));
    lemma_leaf_bits(phys, flags);
}

/// A page under a guard does not translate.
pub proof fn law_guard_faults(mem: Seq<u64>, f: FramesView, root: u64, va: u64, now: u64)
    requires
        path_ok(mem, usable(f, now), root, va),
        frames_ok(mem, usable(f, now)),
        after_map(mem, f, root, va, 0, 0, now).0,
    ensures
        translate(after_map(mem, f, root, va, 0, 0, now).1, root, va) is None,
{
    let s = descend_all(mem, f, root, va, 0, now);
    lemma_path_built(mem, f, root, va, 0, now);
    lemma_write_leaf(s.mem, root, va, s.next->0, 0);
    lemma_leaf_bits(0, 0);
}

proof fn lemma_write_leaf(mem: Seq<u64>, root: u64, va: u64, pt: u64, e: u64)
    requires
        path_built(mem, root, va, pt),
    ensures
        ({
            let m = set_slot(mem, pt, idx1(va), e);
            &&& path_built(m, root, va, pt)
            &&& entry1(m, root, va) == e
        }),
{
    let m = set_slot(mem, pt, idx1(va), e);
    let t3 = entry4(mem, root, va) & ADDR_MASK;
    let t2 = entry3(mem, root, va) & ADDR_MASK;
    lemma_idx(va);
    lemma_set_elsewhere(mem, pt, idx1(va), e, root, idx4(va));
    lemma_set_elsewhere(mem, pt, idx1(va), e, t3, idx3(va));
    lemma_set_elsewhere(mem, pt, idx1(va), e, t2, idx2(va));
}

pub proof fn lemma_set_elsewhere(mem: Seq<u64>, t: u64, i: int, e: u64, other: u64, j: int)
    requires
        0 <= i < 512,
        0 <= j < 512,
        t % 4096 == 0,
        other % 4096 == 0,
        t != other,
        t as int / 8 + 512 <= mem.len(),
    ensures
        slot(set_slot(mem, t, i, e), other, j) == slot(mem, other, j),
        slot(set_slot(mem, t, i, e), t, i) == e,
        set_slot(mem, t, i, e).len() == mem.len(),
{
    lemma_words_apart(other, t, j, i);
}

/// A small page that was unmapped does not translate.  Its tables must be distinct.
pub proof fn law_unmap_then_fault(mem: Seq<u64>, root: u64, va: u64)
    requires
        leaf_table(mem, root, va) is Some,
        path_built(mem, root, va, leaf_table(mem, root, va)->0),
    ensures
        translate(with_leaf(mem, root, va, 0), root, va) is None,
{
    lemma_leaf_bits(0, 0);
    lemma_write_leaf(mem, root, va, leaf_table(mem, root, va)->0, 0);
}

/// A large page is left alone by unmapping: memory and reference counts stay, and no frame
/// is reported.
pub proof fn law_large_page_is_left_alone(mem: Seq<u64>, refs: RefCountsView, root: u64, va: u64)
    requires
        present(entry4(mem, root, va)),
        present(entry3(mem, root, va)),
        huge(entry3(mem, root, va)) || present(entry2(mem, root, va)) && huge(
            entry2(mem, root, va),
        ),
    ensures
        leaf_table(mem, root, va) is None,
        with_leaf(mem, root, va, 0) == mem,
        after_unmap_page(mem, refs, root, va) == (mem, refs, Seq::<u64>::empty()),
{
}

/// An entry that was written is the one that is read back.
pub proof fn law_write_then_read_pte(mem: Seq<u64>, root: u64, va: u64, e: u64)
    requires
        leaf_table(mem, root, va) is Some,
        path_built(mem, root, va, leaf_table(mem, root, va)->0),
    ensures
        pte(with_leaf(mem, root, va, e), root, va) == e,
{
    lemma_write_leaf(mem, root, va, leaf_table(mem, root, va)->0, e);
}

proof fn lemma_gib_bits(e: u64, x: u64)
    by (bit_vector)
    requires
        x % 0x20_0000 == 0,
        x <= 0x000F_FFFF_FFE0_0000,
    ensures
        (x | (e & !0x000F_FFFF_FFFF_F000)) & 0x1 == e & 0x1,
        (x | (e & !0x000F_FFFF_FFFF_F000)) & 0x2 == e & 0x2,
        (x | (e & !0x000F_FFFF_FFFF_F000)) & 0x80 == e & 0x80,
        (x | (e & !0x000F_FFFF_FFFF_F000)) & 0x000F_FFFF_FFE0_0000 == x,
{
}

/// Entry `k` of the table that takes the place of a 1 GiB page maps its part number `k`.
pub proof fn lemma_gib_part(e: u64, k: int)
    requires
        0 <= k < 512,
    ensures
        ({
            let d = split_table(e, 3)[k];
            &&& present(d) == present(e)
            &&& huge(d) == huge(e)
            &&& d & PAGE_WRITABLE == e & PAGE_WRITABLE
            &&& d & ADDR_MASK_2M == (e & ADDR_MASK_1G) + k * 0x20_0000
        }),
{
    lemma_addr_bits(e);
    let x = ((e & ADDR_MASK_1G) + k * 0x20_0000) as u64;
    assert(x % 0x20_0000 == 0);
    lemma_gib_bits(e, x);
}

proof fn lemma_split_bits(e: u64, x: u64)
    by (bit_vector)
    requires
        x % 4096 == 0,
        x <= 0x000F_FFFF_FFFF_F000,
    ensures
        (x | ((e & !0x000F_FFFF_FFFF_F000) & !0x80)) & 0x1 == e & 0x1,
        (x | ((e & !0x000F_FFFF_FFFF_F000) & !0x80)) & 0x2 == e & 0x2,
        (x | ((e & !0x000F_FFFF_FFFF_F000) & !0x80)) & 0x000F_FFFF_FFFF_F000 == x,
{
}

/// Splitting a 2 MiB page changes no translation in it: each address of the page
/// still leads to the same memory.
pub proof fn law_split_keeps_translations(
    mem: Seq<u64>,
    f: FramesView,
    root: u64,
    va: u64,
    flags: u64,
    now: u64,
    other: u64,
)
    requires
        path_ok(mem, usable(f, now), root, va),
        frames_ok(mem, usable(f, now)),
        present(entry4(mem, root, va)),
        present(entry3(mem, root, va)),
        !huge(entry3(mem, root, va)),
        present(entry2(mem, root, va)),
        huge(entry2(mem, root, va)),
        other as int / 0x20_0000 == va as int / 0x20_0000,
        descend(mem, f, entry3(mem, root, va) & ADDR_MASK, idx2(va), 2, flags, now).next is Some,
    ensures
        translate(
            descend(mem, f, entry3(mem, root, va) & ADDR_MASK, idx2(va), 2, flags, now).mem,
            root,
            other,
        ) == translate(mem, root, other),
{
    let t3 = entry4(mem, root, va) & ADDR_MASK;
    let t2 = entry3(mem, root, va) & ADDR_MASK;
    let (i4, i3, i2) = (idx4(va), idx3(va), idx2(va));
    let s = descend(mem, f, t2, i2, 2, flags, now);
    let e = entry2(mem, root, va);
    let pt = s.next->0;
    lemma_idx(va);
    lemma_idx(other);
    lemma_same_huge_page(va, other);
    lemma_descend(mem, f, t2, i2, 2, flags, now);
    lemma_descend_keeps(mem, f, t2, i2, 2, flags, now, root, i4);
    lemma_descend_keeps(mem, f, t2, i2, 2, flags, now, t3, i3);
    lemma_addr_bits(e);
    let k = idx1(other);
    let x = ((e & ADDR_MASK_2M) + k * 0x1000) as u64;
    assert(frame_words(s.mem, pt)[k] == split_table(e, 2)[k]);
    lemma_split_bits(e, x);
    assert(entry1(s.mem, root, other) & ADDR_MASK == x);
}

/// A page that was mapped is mapped by the entry that was asked for.
pub proof fn law_map_then_lookup(
    mem: Seq<u64>,
    f: FramesView,
    root: u64,
    va: u64,
    phys: u64,
    flags: u64,
    now: u64,
)
    requires
        path_ok(mem, usable(f, now), root, va),
        frames_ok(mem, usable(f, now)),
        flags & ADDR_MASK == 0,
        after_map(mem, f, root, va, flags, leaf_entry(phys, flags), now).0,
    ensures
        small_pte(
            after_map(mem, f, root, va, flags, leaf_entry(phys, flags), now).1,
            root,
            va,
        ) == Some(leaf_entry(phys, flags)),
{
    let s = descend_all(mem, f, root, va, flags, now);
    let pt = s.next->0;
    lemma_path_built(mem, f, root, va, flags, now);
    lemma_write_leaf(s.mem, root, va, pt, leaf_entry(phys, flags));
    lemma_leaf_bits(phys, flags);
}

/// A translation is an address of no more than 52 bits.
pub proof fn lemma_translation_bound(mem: Seq<u64>, root: u64, va: u64)
    ensures
        translate(mem, root, va) is Some ==> translate(mem, root, va)->0 < 0x0010_0000_0000_0000,
{
    lemma_addr_bits(entry1(mem, root, va));
    lemma_addr_bits(entry2(mem, root, va));
    lemma_addr_bits(entry3(mem, root, va));
}

/// Mapping a page changes nothing for its neighbours in the same 2 MiB: each still leads
/// to the same memory and may be written to as before, also where one huge page had to
/// be split for it.
#[verifier::rlimit(60)]
#[verifier::spinoff_prover]
pub proof fn law_map_leaves_neighbours(
    mem: Seq<u64>,
    f: FramesView,
    root: u64,
    va: u64,
    flags: u64,
    e: u64,
    now: u64,
    other: u64,
)
    requires
        path_ok(mem, usable(f, now), root, va),
        frames_ok(mem, usable(f, now)),
        present(entry4(mem, root, va)),
        present(entry3(mem, root, va)),
        !huge(entry3(mem, root, va)),
        present(entry2(mem, root, va)),
        other as int / 0x20_0000 == va as int / 0x20_0000,
        idx1(other) != idx1(va),
        after_map(mem, f, root, va, flags, e, now).0,
    ensures
        translate(after_map(mem, f, root, va, flags, e, now).1, root, other) == translate(
            mem,
            root,
            other,
        ),
        pte(after_map(mem, f, root, va, flags, e, now).1, root, other) & PAGE_WRITABLE == pte(
            mem,
            root,
            other,
        ) & PAGE_WRITABLE,
{
    let (i4, i3, i2) = (idx4(va), idx3(va), idx2(va));
    lemma_idx(va);
    lemma_idx(other);
    lemma_same_huge_page(va, other);
    lemma_path_built(mem, f, root, va, flags, now);
    let t3 = entry4(mem, root, va) & ADDR_MASK;
    let t2 = entry3(mem, root, va) & ADDR_MASK;
    let e2 = entry2(mem, root, va);
    let k = idx1(other);
    let s3 = descend(mem, f, root, i4, 4, flags, now);
    lemma_descend(mem, f, root, i4, 4, flags, now);
    lemma_descend_target(mem, f, root, i4, 4, flags, now, root);
    lemma_descend_keeps(mem, f, root, i4, 4, flags, now, t3, i3);
    lemma_descend_keeps(mem, f, root, i4, 4, flags, now, t2, i2);
    assert(table_ok(s3.mem, usable(s3.frames, now), t2));
    let s2 = descend(s3.mem, s3.frames, t3, i3, 3, flags, now);
    lemma_descend(s3.mem, s3.frames, t3, i3, 3, flags, now);
    lemma_descend_target(s3.mem, s3.frames, t3, i3, 3, flags, now, t3);
    lemma_descend_target(s3.mem, s3.frames, t3, i3, 3, flags, now, root);
    lemma_descend_keeps(s3.mem, s3.frames, t3, i3, 3, flags, now, root, i4);
    lemma_descend_keeps(s3.mem, s3.frames, t3, i3, 3, flags, now, t2, i2);
    assert(slot(s2.mem, t2, i2) == e2);
    let s1 = descend(s2.mem, s2.frames, t2, i2, 2, flags, now);
    lemma_descend(s2.mem, s2.frames, t2, i2, 2, flags, now);
    lemma_descend_keeps(s2.mem, s2.frames, t2, i2, 2, flags, now, root, i4);
    lemma_descend_keeps(s2.mem, s2.frames, t2, i2, 2, flags, now, t3, i3);
    let pt = s1.next->0;
    let m = set_slot(s1.mem, pt, idx1(va), e);
    lemma_set_elsewhere(s1.mem, pt, idx1(va), e, root, i4);
    lemma_set_elsewhere(s1.mem, pt, idx1(va), e, t3, i3);
    lemma_set_elsewhere(s1.mem, pt, idx1(va), e, t2, i2);
    assert(slot(m, pt, k) == slot(s1.mem, pt, k));
    assert(entry1(m, root, other) == slot(s1.mem, pt, k));
    if huge(e2) {
        lemma_addr_bits(e2);
        let x = ((e2 & ADDR_MASK_2M) + k * 0x1000) as u64;
        assert(frame_words(s1.mem, pt)[k] == split_table(e2, 2)[k]);
        lemma_split_bits(e2, x);
        assert(entry1(m, root, other) & ADDR_MASK == x);
    } else {
        lemma_descend_keeps(mem, f, root, i4, 4, flags, now, pt, k);
        lemma_descend_keeps(s3.mem, s3.frames, t3, i3, 3, flags, now, pt, k);
        lemma_descend_keeps(s2.mem, s2.frames, t2, i2, 2, flags, now, pt, k);
        assert(slot(s1.mem, pt, k) == entry1(mem, root, other));
    }
}

proof fn lemma_same_huge_page(va: u64, other: u64)
    requires
        other as int / 0x20_0000 == va as int / 0x20_0000,
    ensures
        idx4(other) == idx4(va),
        idx3(other) == idx3(va),
        idx2(other) == idx2(va),
        idx1(other) * 0x1000 + other % 0x1000 == other % 0x20_0000,
{
    assert(va as int / 0x4000_0000 == va as int / 0x20_0000 / 512);
    assert(other as int / 0x4000_0000 == other as int / 0x20_0000 / 512);
    assert(va as int / 0x80_0000_0000 == va as int / 0x4000_0000 / 512);
    assert(other as int / 0x80_0000_0000 == other as int / 0x4000_0000 / 512);
}

/// Every frame that unmapping a range reports has no reference left, and no count went up.
pub proof fn law_reported_frames_have_no_reference(
    mem: Seq<u64>,
    refs: RefCountsView,
    root: u64,
    base: u64,
    n: nat,
    phys: u64,
)
    requires
        refs.wf(),
    ensures
        ({
            let (_m, r, gone) = after_unmap_range(mem, refs, root, base, n);
            &&& r.wf()
            &&& r.counts is Some <==> refs.counts is Some
            &&& r.count(phys) <= refs.count(phys)
            &&& gone.contains(phys) ==> r.count(phys) == 0
        }),
    decreases n,
{
    if n > 0 {
        law_reported_frames_have_no_reference(mem, refs, root, base, (n - 1) as nat, phys);
        let (m, r, gone) = after_unmap_range(mem, refs, root, base, (n - 1) as nat);
        let (m2, r2, more) = after_unmap_page(m, r, root, (base + (n - 1) * 0x1000) as u64);
        if (gone + more).contains(phys) {
            let i = choose|i: int| 0 <= i < (gone + more).len() && (gone + more)[i] == phys;
            if i < gone.len() {
                assert(gone[i] == phys);
            } else {
                assert(more[i - gone.len()] == phys);
            }
        }
    }
}

/// A step down fails only where no frame can be handed out, and takes one at most.
proof fn lemma_descend_takes_one(
    mem: Seq<u64>,
    f: FramesView,
    table: u64,
    idx: int,
    level: int,
    flags: u64,
    now: u64,
)
    requires
        usable(f, now).finite(),
        usable(f, now).len() > 0,
        forall|p: int| #[trigger] usable(f, now).contains(p) ==> p >= 0,
    ensures
        ({
            let s = descend(mem, f, table, idx, level, flags, now);
            &&& s.next is Some
            &&& usable(s.frames, now).subset_of(usable(f, now))
            &&& usable(s.frames, now).finite()
            &&& usable(s.frames, now).len() + 1 >= usable(f, now).len()
        }),
{
    reveal(descend);
    reveal(usable);
    let e = slot(mem, table, idx);
    if !leads_on(e, level) {
        let swept = f.after_sweep(now);
        assert(!swept.pmm.free.is_empty()) by {
            if swept.pmm.free.is_empty() {
                assert(swept.pmm.free =~= Set::empty());
            }
        }
        lemma_some_choice(swept.pmm);
        if f.sweep_due(now) {
            lemma_drain_keeps_sweep_tick(
                FramesView {
                    pins: crate::mm::dma_pin::DmaPinsView { last_sweep: now, ..f.pins },
                    ..f
                },
                256,
                now,
            );
        }
        assert(!f.allocated(now).1.sweep_due(now));
    }
}

/// Mapping a page or making a guard needs three frames at most, so that it succeeds where
/// three can be handed out.
pub proof fn law_three_frames_are_enough_to_map(
    mem: Seq<u64>,
    f: FramesView,
    root: u64,
    va: u64,
    flags: u64,
    e: u64,
    now: u64,
)
    requires
        usable(f, now).finite(),
        usable(f, now).len() >= 3,
        forall|p: int| #[trigger] usable(f, now).contains(p) ==> p >= 0,
    ensures
        after_map(mem, f, root, va, flags, e, now).0,
{
    lemma_descend_takes_one(mem, f, root, idx4(va), 4, flags, now);
    let s3 = descend(mem, f, root, idx4(va), 4, flags, now);
    lemma_descend_takes_one(s3.mem, s3.frames, s3.next->0, idx3(va), 3, flags, now);
    let s2 = descend(s3.mem, s3.frames, s3.next->0, idx3(va), 3, flags, now);
    lemma_descend_takes_one(s2.mem, s2.frames, s2.next->0, idx2(va), 2, flags, now);
}

} // verus!
