//! What the page tables promise, in the bits of addresses and entries.
use vstd::arithmetic::div_mod::lemma_div_denominator;
use vstd::prelude::*;
use crate::mm::physmem::{frame_words, slot, zero_frame};
use crate::mm::pmm::FramesView;
use crate::mm::refcount::RefCountsView;
use crate::mm::vmm::{
    after_map, after_unmap_page, descend, descend_all, entry1, entry2, entry3, entry4, frames_ok,
    gib_table, huge, idx1, idx2, idx3, idx4, is_identity, leads_on, leaf_entry, leaf_table,
    lemma_descend, lemma_idx, lemma_leaf_bits, lemma_path_built, lemma_some_choice,
    lemma_words_apart, pages_in, path_ok, present, pte, small_pte, split_entry, table_ok, translate,
    usable, ADDR_MASK,
};

verus! {

/// An address is cut into nine bits for each level, from the top, and twelve for the place in
/// the page.
pub proof fn law_address_is_cut_into_indices(va: u64)
    ensures
        0 <= idx4(va) < 512,
        0 <= idx3(va) < 512,
        0 <= idx2(va) < 512,
        0 <= idx1(va) < 512,
        va as int % 0x1_0000_0000_0000 == idx4(va) * 0x80_0000_0000 + idx3(va) * 0x4000_0000 + idx2(
            va,
        ) * 0x20_0000 + idx1(va) * 0x1000 + va as int % 0x1000,
{
    lemma_levels(va as int);
    let p = va as int / 0x1000;
    let q = p / 512;
    let r = q / 512;
    let s = r / 512;
    assert(va == p * 0x1000 + va as int % 0x1000);
    assert(p == q * 512 + p % 512);
    assert(q == r * 512 + q % 512);
    assert(r == s * 512 + r % 512);
    assert(s == s / 512 * 512 + s % 512);
    let low = s % 512 * 0x80_0000_0000 + r % 512 * 0x4000_0000 + q % 512 * 0x20_0000 + p % 512
        * 0x1000 + va as int % 0x1000;
    assert(va == s / 512 * 0x1_0000_0000_0000 + low);
    assert(0 <= low < 0x1_0000_0000_0000);
}

/// A page number is cut level by level.
pub proof fn lemma_levels(va: int)
    requires
        va >= 0,
    ensures
        va / 0x20_0000 == va / 0x1000 / 512,
        va / 0x4000_0000 == va / 0x1000 / 512 / 512,
        va / 0x80_0000_0000 == va / 0x1000 / 512 / 512 / 512,
{
    lemma_div_denominator(va, 0x1000, 512);
    lemma_div_denominator(va, 0x20_0000, 512);
    lemma_div_denominator(va, 0x4000_0000, 512);
}

/// The bits of an entry, by arithmetic.
pub proof fn lemma_entry_arith(e: u64)
    by (bit_vector)
    ensures
        (e & 0x1 != 0) == (e % 2 == 1),
        (e & 0x2 != 0) == (e / 2 % 2 == 1),
        e & !0x3FFF_FFFFu64 == e - e % 0x4000_0000,
        (e & 0x80 != 0) == (e / 128 % 2 == 1),
        e & 0x000F_FFFF_FFFF_F000 == e % 0x10_0000_0000_0000 - e % 0x1000,
        e & 0x000F_FFFF_FFE0_0000 == e % 0x10_0000_0000_0000 - e % 0x20_0000,
        e & 0x000F_FFFF_C000_0000 == e % 0x10_0000_0000_0000 - e % 0x4000_0000,
        e & 0x000F_FFFF_FFFF_F000 <= 0x000F_FFFF_FFFF_F000,
        e & 0x000F_FFFF_FFE0_0000 <= 0x000F_FFFF_FFE0_0000,
        e & 0x000F_FFFF_C000_0000 <= 0x000F_FFFF_C000_0000,
{
}

/// An entry is present by its bit 0, and of a large page by its bit 7.
pub proof fn law_entry_marks(e: u64)
    ensures
        present(e) <==> e % 2 == 1,
        huge(e) <==> e / 128 % 2 == 1,
{
    lemma_entry_arith(e);
}

/// An address translates to the frame that its entry holds in bits 12 to 51, in those from 21 or
/// 30 on where it is that of a large page, and to the same place in the page.
pub proof fn law_translation_is_in_the_entry(mem: Seq<u64>, root: u64, va: u64)
    ensures
        translate(mem, root, va) is Some <==> pte(mem, root, va) % 2 == 1,
        translate(mem, root, va) matches Some(p) ==> {
            let e = pte(mem, root, va);
            let size: u64 = if entry3(mem, root, va) / 128 % 2 == 1 {
                0x4000_0000
            } else if entry2(mem, root, va) / 128 % 2 == 1 {
                0x20_0000
            } else {
                0x1000
            };
            p == e % 0x10_0000_0000_0000 - e % size + va % size
        },
{
    lemma_entry_arith(entry4(mem, root, va));
    lemma_entry_arith(entry3(mem, root, va));
    lemma_entry_arith(entry2(mem, root, va));
    lemma_entry_arith(entry1(mem, root, va));
    lemma_entry_arith(0);
}

/// Addresses of one page translate to places as far apart as they are.
pub proof fn law_page_is_contiguous(mem: Seq<u64>, root: u64, va: u64, other: u64)
    requires
        va as int / 0x1000 == other as int / 0x1000,
    ensures
        translate(mem, root, va) is Some <==> translate(mem, root, other) is Some,
        translate(mem, root, va) is Some ==> translate(mem, root, other)->0 - translate(
            mem,
            root,
            va,
        )->0 == other - va,
        pte(mem, root, va) == pte(mem, root, other),
{
    law_translation_is_in_the_entry(mem, root, va);
    law_translation_is_in_the_entry(mem, root, other);
    lemma_levels(va as int);
    lemma_levels(other as int);
    lemma_same_offset(va as int, other as int);
    assert(pte(mem, root, va) == pte(mem, root, other));
}

proof fn lemma_same_offset(a: int, b: int)
    requires
        a / 0x1000 == b / 0x1000,
        a / 0x20_0000 == b / 0x20_0000,
        a / 0x4000_0000 == b / 0x4000_0000,
    ensures
        b % 0x1000 - a % 0x1000 == b - a,
        b % 0x20_0000 - a % 0x20_0000 == b - a,
        b % 0x4000_0000 - a % 0x4000_0000 == b - a,
{
}

/// The entry of a small page is found exactly where the address is mapped by one, and is the
/// entry that maps it.
pub proof fn law_small_entry_is_found(mem: Seq<u64>, root: u64, va: u64)
    ensures
        small_pte(mem, root, va) is Some <==> translate(mem, root, va) is Some && entry3(
            mem,
            root,
            va,
        ) / 128 % 2 == 0 && entry2(mem, root, va) / 128 % 2 == 0,
        small_pte(mem, root, va) matches Some(e) ==> e == pte(mem, root, va),
{
    lemma_entry_arith(entry3(mem, root, va));
    lemma_entry_arith(entry2(mem, root, va));
}

proof fn lemma_new_entry(phys: u64, flags: u64)
    by (bit_vector)
    requires
        flags & 0x000F_FFFF_FFFF_F000 == 0,
    ensures
        ((phys & 0x000F_FFFF_FFFF_F000) | flags | 0x1) % 0x1000 == flags % 0x1000 + (if flags % 2
            == 0 {
            1u64
        } else {
            0u64
        }),
        ((phys & 0x000F_FFFF_FFFF_F000) | flags | 0x1) % 0x10_0000_0000_0000 / 0x1000 == phys
            % 0x10_0000_0000_0000 / 0x1000,
        ((phys & 0x000F_FFFF_FFFF_F000) | flags | 0x1) / 0x10_0000_0000_0000 == flags
            / 0x10_0000_0000_0000,
{
}

/// A new entry holds the frame of its address, the flags that were asked for, and the mark that
/// it is present.
pub proof fn law_new_entry_holds_frame_and_flags(phys: u64, flags: u64)
    requires
        flags & 0x000F_FFFF_FFFF_F000 == 0,
    ensures
        leaf_entry(phys, flags) % 0x1000 == flags % 0x1000 + (if flags % 2 == 0 {
            1int
        } else {
            0
        }),
        leaf_entry(phys, flags) % 0x10_0000_0000_0000 / 0x1000 == phys % 0x10_0000_0000_0000
            / 0x1000,
        leaf_entry(phys, flags) / 0x10_0000_0000_0000 == flags / 0x10_0000_0000_0000,
{
    lemma_new_entry(phys, flags);
}

proof fn lemma_step_bits(e: u64, np: u64, flags: u64)
    by (bit_vector)
    requires
        np & 0xFFF == 0,
        np < 0x1_0000_0000,
    ensures
        (np | 0x1 | 0x2 | (flags & 0x4)) == np + 3 + flags / 4 % 2 * 4,
        (flags & 0x4 != 0) == (flags / 4 % 2 == 1),
        (e & 0x4 == 0) == (e / 4 % 2 == 0),
        (e | 0x4) / 4 % 2 == 1,
        (e | 0x4) % 4 == e % 4,
        (e | 0x4) / 8 == e / 8,
        (np | ((e & !0x000F_FFFF_FFFF_F000) & !0x80)) % 8 == e % 8,
        (np | (((e & !0x000F_FFFF_FFFF_F000) & !0x80) | 0x4)) % 4 == e % 4,
        (np | (((e & !0x000F_FFFF_FFFF_F000) & !0x80) | 0x4)) / 4 % 2 == 1,
        (np | ((e & !0x000F_FFFF_FFFF_F000) & !0x80)) / 0x10_0000_0000_0000 == e
            / 0x10_0000_0000_0000,
        (np | (((e & !0x000F_FFFF_FFFF_F000) & !0x80) | 0x4)) / 0x10_0000_0000_0000 == e
            / 0x10_0000_0000_0000,
{
}

/// A step down to the next table leaves an entry that grants what the page needs: it is present,
/// it lets user code through where the page is for user code, and that of a new table lets
/// through writes too.  What an entry granted before it still grants, and no more.
pub proof fn law_step_down_grants_access(
    mem: Seq<u64>,
    f: FramesView,
    table: u64,
    idx: int,
    level: int,
    flags: u64,
    now: u64,
)
    requires
        0 <= idx < 512,
        table_ok(mem, usable(f, now), table),
        frames_ok(mem, usable(f, now)),
        descend(mem, f, table, idx, level, flags, now).next is Some,
    ensures
        ({
            let s = descend(mem, f, table, idx, level, flags, now);
            let was = slot(mem, table, idx);
            let e = slot(s.mem, table, idx);
            &&& e % 2 == 1
            &&& level != 4 ==> e / 128 % 2 == 0
            &&& e % 0x10_0000_0000_0000 - e % 0x1000 == s.next->0
            &&& e / 4 % 2 == if flags / 4 % 2 == 1 || (was % 2 == 1 && was / 4 % 2 == 1) {
                1u64
            } else {
                0u64
            }
            &&& e / 2 % 2 == if was % 2 == 0 {
                1u64
            } else {
                was / 2 % 2
            }
            &&& e / 0x8000_0000_0000_0000 == if was % 2 == 0 {
                0u64
            } else {
                was / 0x8000_0000_0000_0000
            }
            &&& was % 2 == 0 ==> frame_words(s.mem, s.next->0) == zero_frame()
        }),
{
    let s = descend(mem, f, table, idx, level, flags, now);
    let was = slot(mem, table, idx);
    let e = slot(s.mem, table, idx);
    lemma_descend(mem, f, table, idx, level, flags, now);
    reveal(descend);
    reveal(usable);
    lemma_leaf_bits(0, 0);
    lemma_entry_arith(was);
    lemma_entry_arith(e);
    if leads_on(was, level) {
        lemma_step_bits(was, 0, flags);
        assert(e == was || e == was | 0x4);
    } else {
        let swept = f.after_sweep(now);
        lemma_some_choice(swept.pmm);
        let np = s.next->0;
        lemma_leaf_bits(np, 0);
        lemma_step_bits(was, np, flags);
        if present(was) {
            assert(e == split_entry(was, np, flags));
        } else {
            assert(e == np | 0x1 | 0x2 | (flags & 0x4));
        }
    }
    lemma_thirds(e);
    lemma_thirds(was);
}

proof fn lemma_thirds(e: u64)
    by (bit_vector)
    ensures
        e / 2 % 2 == e % 4 / 2,
        e / 4 % 2 == e % 8 / 4,
        e / 0x8000_0000_0000_0000 == e / 0x10_0000_0000_0000 / 0x800,
        e / 8 / 0x1000_0000_0000_0000 == e / 0x8000_0000_0000_0000,
        e % 8 % 4 == e % 4,
{
}

/// A page that is mapped for user code can be reached by it: every entry on the way lets user
/// code through.  Where the way was new from the top, every entry lets writes through too.
pub proof fn law_mapped_page_is_reachable(
    mem: Seq<u64>,
    f: FramesView,
    root: u64,
    va: u64,
    flags: u64,
    e: u64,
    now: u64,
)
    requires
        path_ok(mem, usable(f, now), root, va),
        frames_ok(mem, usable(f, now)),
        after_map(mem, f, root, va, flags, e, now).0,
    ensures
        ({
            let m = after_map(mem, f, root, va, flags, e, now).1;
            let (e4, e3, e2) = (entry4(m, root, va), entry3(m, root, va), entry2(m, root, va));
            &&& e4 % 2 == 1 && e3 % 2 == 1 && e2 % 2 == 1
            &&& e3 / 128 % 2 == 0 && e2 / 128 % 2 == 0
            &&& entry1(m, root, va) == e
            &&& flags / 4 % 2 == 1 ==> e4 / 4 % 2 == 1 && e3 / 4 % 2 == 1 && e2 / 4 % 2 == 1
            &&& entry4(mem, root, va) % 2 == 0 ==> e4 / 2 % 2 == 1 && e3 / 2 % 2 == 1 && e2 / 2 % 2
                == 1
        }),
{
    let s = descend_all(mem, f, root, va, flags, now);
    let pt = s.next->0;
    let m = after_map(mem, f, root, va, flags, e, now).1;
    lemma_path_built(mem, f, root, va, flags, now);
    lemma_idx(va);
    let t3 = entry4(s.mem, root, va) & ADDR_MASK;
    let t2 = entry3(s.mem, root, va) & ADDR_MASK;
    lemma_words_apart(root, pt, idx4(va), idx1(va));
    lemma_words_apart(t3, pt, idx3(va), idx1(va));
    lemma_words_apart(t2, pt, idx2(va), idx1(va));
    assert(entry4(m, root, va) == entry4(s.mem, root, va));
    assert(entry3(m, root, va) == entry3(s.mem, root, va));
    assert(entry2(m, root, va) == entry2(s.mem, root, va));
    lemma_entry_arith(entry4(m, root, va));
    lemma_entry_arith(entry3(m, root, va));
    lemma_entry_arith(entry2(m, root, va));
}

/// The address and its like in the lower memory are one where they are equal and below 4 GiB.
pub proof fn law_identity_window(va: u64, phys: u64)
    ensures
        is_identity(va, phys) <==> va == phys && va < 0x1_0000_0000,
{
}

/// Unmapping a small page drops one reference to its frame, and reports the frame exactly where
/// that was the last; where no small page is mapped it does nothing.
pub proof fn law_unmap_drops_one_reference(
    mem: Seq<u64>,
    refs: RefCountsView,
    root: u64,
    va: u64,
    other: u64,
)
    requires
        refs.wf(),
    ensures
        ({
            let (m, r, gone) = after_unmap_page(mem, refs, root, va);
            match translate(mem, root, va) {
                Some(phys) if leaf_table(mem, root, va) is Some => {
                    &&& r.count(phys) == if refs.count(phys) > 0 {
                        refs.count(phys) - 1
                    } else {
                        0
                    }
                    &&& refs.count(phys) > 1 ==> gone.len() == 0
                    &&& refs.count(phys) <= 1 ==> gone == seq![phys]
                    &&& other as int / 4096 != phys as int / 4096 ==> r.count(other) == refs.count(
                        other,
                    )
                },
                _ => m == mem && r == refs && gone.len() == 0,
            }
        }),
{
}

/// A range takes as many pages as are needed to hold it, and no more.
pub proof fn law_pages_cover_the_range(base: u64, length: u64)
    requires
        base + length <= u64::MAX,
    ensures
        pages_in(base, length) * 0x1000 >= length,
        length > 0 ==> (pages_in(base, length) - 1) * 0x1000 < length,
        length == 0 ==> pages_in(base, length) == 0,
{
}

proof fn lemma_gib_entry(g: u64, k: u64)
    by (bit_vector)
    requires
        g < 512,
        k < 512,
    ensures
        (g * 0x4000_0000 + k * 0x20_0000) as u64 | 0x1 | 0x2 | 0x80 == g * 0x4000_0000 + k
            * 0x20_0000 + 0x83,
{
}

/// The table for a GiB maps it page by page of 2 MiB, each to its own address, present and
/// with the right to write.
pub proof fn law_gib_table_maps_its_gib(gib: int, k: int)
    requires
        0 <= gib < 512,
        0 <= k < 512,
    ensures
        gib_table(gib).len() == 512,
        gib_table(gib)[k] == gib * 0x4000_0000 + k * 0x20_0000 + 0x83,
{
    lemma_gib_entry(gib as u64, k as u64);
}

} // verus!
