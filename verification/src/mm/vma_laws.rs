//! What areas promise: which faults they serve, which pages they stand for, where the heap
//! ends, and what the search for a free range finds.
use vstd::multiset::Multiset;
use vstd::prelude::*;
use crate::mm::physmem::slot;
use crate::mm::vma::{
    access_permitted, align_up, area_text, areas_after_brk, empty_space, first_free_jitter, first_heap,
    has_heap, heap_at, hits, insert_pos, is_heap, is_last_hit, last_hit, page_flags, pieces,
    reg_after_brk, registered, stack_candidate, walk_down, with_new_root, with_pin, without_pin,
    FaultAccess, InodeKey, MmRegistryView, MmSem, VmArea, VmBacking, VmSpaceView,
};
use crate::mm::text::hex_text;
use crate::mm::text_laws::{law_sixteen_digits_are_enough, number};

verus! {

proof fn lemma_error_bits(e: u64)
    by (bit_vector)
    ensures
        (e & 0x10 != 0) == (e / 16 % 2 == 1),
        (e & 0x02 != 0) == (e / 2 % 2 == 1),
{
}

/// The class of a fault rests on two bits of its error code: with bit 4 it is a fetch;
/// without it, it is a write exactly where bit 1 is set, and else a read.
pub proof fn law_fault_class_is_in_two_bits(e: u64)
    ensures
        FaultAccess::of_error_code(e) is InstructionFetch <==> e / 16 % 2 == 1,
        FaultAccess::of_error_code(e) is Write <==> e / 16 % 2 == 0 && e / 2 % 2 == 1,
        FaultAccess::of_error_code(e) is Read <==> e / 16 % 2 == 0 && e / 2 % 2 == 0,
{
    lemma_error_bits(e);
}

/// Whether the page was there, whether user code faulted and whether an entry was broken
/// makes no difference to the class of a fault.
pub proof fn law_other_error_bits_do_not_count(e: u64, g: u64)
    requires
        e / 2 % 2 == g / 2 % 2,
        e / 16 % 2 == g / 16 % 2,
    ensures
        FaultAccess::of_error_code(e) == FaultAccess::of_error_code(g),
{
    lemma_error_bits(e);
    lemma_error_bits(g);
}

/// The lowest bits of a protection or of flags, by arithmetic.
pub proof fn lemma_prot_bits(p: u32)
    by (bit_vector)
    ensures
        (p & 0x1 != 0) == (p % 2 == 1),
        (p & 0x2 != 0) == (p / 2 % 2 == 1),
        (p & 0x4 != 0) == (p / 4 % 2 == 1),
        (p & (0x1u32 | 0x2u32 | 0x4u32) != 0) == (p % 8 != 0),
{
}

/// A write is served only where bit 1 of the protection is set, a fetch only where bit 2 is,
/// and a read where any of the three lowest is.
pub proof fn law_protection_bits_decide(p: u32)
    ensures
        access_permitted(p, FaultAccess::Write) <==> p / 2 % 2 == 1,
        access_permitted(p, FaultAccess::InstructionFetch) <==> p / 4 % 2 == 1,
        access_permitted(p, FaultAccess::Read) <==> p % 8 != 0,
{
    lemma_prot_bits(p);
}

/// A fault whose code says write, on pages without the right to write, is refused, present or
/// not; one whose code says neither write nor fetch is served by any right.
pub proof fn law_fault_is_served_by_the_right_it_needs(p: u32, e: u64)
    ensures
        e / 16 % 2 == 1 ==> access_permitted(p, FaultAccess::of_error_code(e)) == (p / 4 % 2 == 1),
        e / 16 % 2 == 0 && e / 2 % 2 == 1 ==> access_permitted(p, FaultAccess::of_error_code(e))
            == (p / 2 % 2 == 1),
        e / 16 % 2 == 0 && e / 2 % 2 == 0 ==> access_permitted(p, FaultAccess::of_error_code(e))
            == (p % 8 != 0),
{
    law_fault_class_is_in_two_bits(e);
    law_protection_bits_decide(p);
}

proof fn lemma_flag_bits(w: bool, x: bool, u: bool, f: u64)
    by (bit_vector)
    requires
        f == (if w { 0x1u64 | 0x2u64 } else { 0x1u64 }) | (if x {
            0x8000_0000_0000_0000u64
        } else {
            0u64
        }) | (if u { 0x4u64 } else { 0u64 }),
    ensures
        f == 1 + (if w { 2u64 } else { 0u64 }) + (if u { 4u64 } else { 0u64 }) + (if x {
            0x8000_0000_0000_0000u64
        } else {
            0u64
        }),
{
}

proof fn lemma_or_zero(f: u64)
    by (bit_vector)
    ensures
        f | 0u64 == f,
{
}

/// The page flags of an area: bit 0 always, bit 1 where it can be written, bit 2 below the
/// kernel's half, the highest bit where it cannot be executed, and nothing else.
pub proof fn law_page_flags_follow_protection(v: VmArea)
    ensures
        page_flags(v) == 1 + (if v.prot / 2 % 2 == 1 {
            2int
        } else {
            0
        }) + (if v.base < 0x8000_0000_0000 {
            4int
        } else {
            0
        }) + (if v.prot / 4 % 2 == 1 {
            0int
        } else {
            0x8000_0000_0000_0000
        }),
{
    lemma_prot_bits(v.prot);
    let (w, x, u) = (v.prot & 0x2 != 0, v.prot & 0x4 == 0, v.base < 0x8000_0000_0000);
    let a = if w {
        0x1u64 | 0x2u64
    } else {
        0x1u64
    };
    let b = if x {
        a | 0x8000_0000_0000_0000
    } else {
        a
    };
    lemma_or_zero(a);
    lemma_or_zero(b);
    lemma_flag_bits(w, x, u, page_flags(v));
}

/// An address lies in an area from its base on, for as many bytes as it is long; two ranges
/// overlap where they have an address in common.
pub proof fn law_area_is_its_addresses(v: VmArea, a: int, base: int, end: int)
    requires
        v.length > 0,
        base < end,
    ensures
        v.has(a) <==> v.base <= a < v.base + v.length,
        v.meets(base, end) <==> exists|x: int|
            #![trigger v.has(x)]
            v.base <= x < v.base + v.length && base <= x < end,
{
    if v.meets(base, end) {
        let x = if v.base < base {
            base
        } else {
            v.base as int
        };
        assert(v.has(x));
    }
}

/// A range is free where every area ends before it or starts behind it.
pub proof fn law_free_range_touches_no_area(areas: Seq<VmArea>, base: int, end: int)
    requires
        base < end,
    ensures
        !hits(areas, base, end) <==> forall|i: int|
            0 <= i < areas.len() ==> (#[trigger] areas[i]).base + areas[i].length <= base || end
                <= areas[i].base,
{
    if !hits(areas, base, end) {
        assert forall|i: int| 0 <= i < areas.len() implies (#[trigger] areas[i]).base
            + areas[i].length <= base || end <= areas[i].base by {
            assert(!areas[i].meets(base, end));
        }
    }
}

/// An address is rounded up to the next page, and one that starts a page stays.
pub proof fn law_rounding_up(a: int)
    ensures
        align_up(a) % 0x1000 == 0,
        a <= align_up(a) < a + 0x1000,
{
}

/// What is left of an area when a range is taken out has its rights, its kind and its name,
/// lies outside of the range, and is a part of it that is not empty.
pub proof fn law_pieces_are_parts(v: VmArea, base: int, end: int, k: int)
    requires
        v.ok(),
        v.length > 0,
        0 <= base < end <= u64::MAX,
        0 <= k < pieces(v, base, end).len(),
    ensures
        ({
            let p = pieces(v, base, end)[k];
            &&& p.prot == v.prot
            &&& p.flags == v.flags
            &&& p.name == v.name
            &&& p.length > 0
            &&& v.base <= p.base
            &&& p.base + p.length <= v.base + v.length
            &&& p.base + p.length <= base || end <= p.base
            &&& v.backing is Anonymous ==> p.backing is Anonymous
            &&& v.backing is Device ==> p.backing == v.backing
            &&& v.backing is File ==> p.backing is File && p.backing->File_offset
                == v.backing->File_offset + (p.base - v.base)
        }),
{
}

/// The first area that is the heap is the one that has its name first.
proof fn lemma_heap_at(areas: Seq<VmArea>, i: int)
    requires
        0 <= i < areas.len(),
        areas[i].name@ == "[heap]"@,
        forall|j: int| 0 <= j < i ==> (#[trigger] areas[j]).name@ != "[heap]"@,
    ensures
        first_heap(areas, i),
        heap_at(areas) == i,
{
    assert(first_heap(areas, i));
    assert(first_heap(areas, heap_at(areas)));
}

/// Where the end of the heap moves and there is a heap area, this area ends there afterwards,
/// and keeps its start and its rights; every other area stays as it is.  An area that starts
/// where the heap does then covers the heap: the addresses from its start up to its end, and
/// none from there on.
pub proof fn law_heap_area_ends_at_the_break(s: VmSpaceView, new_brk: u64, i: int)
    requires
        new_brk + 0xFFF <= u64::MAX,
        s.brk_start < new_brk,
        align_up(new_brk as int) != s.brk,
        0 <= i < s.areas.len(),
        s.areas[i].name@ == "[heap]"@,
        forall|j: int| 0 <= j < i ==> (#[trigger] s.areas[j]).name@ != "[heap]"@,
        s.areas[i].base <= align_up(new_brk as int),
    ensures
        ({
            let b = align_up(new_brk as int);
            let r = areas_after_brk(s, b);
            &&& new_brk <= b < new_brk + 0x1000
            &&& b % 0x1000 == 0
            &&& r.len() == s.areas.len()
            &&& r[i].base == s.areas[i].base
            &&& r[i].base + r[i].length == b
            &&& r[i].prot == s.areas[i].prot
            &&& r[i].flags == s.areas[i].flags
            &&& r[i].backing == s.areas[i].backing
            &&& r[i].name@ == "[heap]"@
            &&& s.areas[i].base == s.brk_start ==> forall|a: int|
                #![trigger r[i].has(a)]
                r[i].has(a) <==> s.brk_start <= a < b
            &&& forall|j: int| 0 <= j < r.len() && j != i ==> r[j] == s.areas[j]
        }),
{
    lemma_heap_at(s.areas, i);
}

/// A heap that moves is noted as a change of the address space; one that stays is not.  No other
/// address space is touched.
pub proof fn law_moved_break_is_a_change(reg: MmRegistryView, s: VmSpaceView, brk: int, n: int)
    requires
        reg.wf(),
        s.generation < reg.generations.len(),
        0 <= n < reg.generations.len(),
        n != s.generation,
        reg.gens.contains_key(s.cr3) ==> reg.gens[s.cr3] == s.generation,
    ensures
        ({
            let after = reg_after_brk(reg, s, brk);
            let g = s.generation as int;
            &&& brk < s.brk_start || brk == s.brk ==> after == reg
            &&& brk >= s.brk_start && brk != s.brk ==> after.generations[g] != reg.generations[g]
            &&& after.generations[n] == reg.generations[n]
            &&& after.sems == reg.sems
            &&& after.gens == reg.gens
        }),
{
}

/// Where there is no heap area yet and the heap grows into free addresses, a new area that
/// can be read and written covers it, from its start up to its end; every other area stays.
pub proof fn law_first_growth_makes_the_heap_area(s: VmSpaceView, new_brk: u64)
    requires
        new_brk + 0xFFF <= u64::MAX,
        s.brk_start <= s.brk < align_up(new_brk as int),
        forall|j: int| 0 <= j < s.areas.len() ==> (#[trigger] s.areas[j]).name@ != "[heap]"@,
        forall|j: int|
            0 <= j < s.areas.len() ==> (#[trigger] s.areas[j]).base + s.areas[j].length
                <= s.brk_start || align_up(new_brk as int) <= s.areas[j].base,
    ensures
        ({
            let b = align_up(new_brk as int);
            let r = areas_after_brk(s, b);
            &&& r.len() == s.areas.len() + 1
            &&& exists|k: int|
                #![trigger r[k]]
                {
                    &&& 0 <= k < r.len()
                    &&& r[k].base == s.brk_start
                    &&& r[k].base + r[k].length == b
                    &&& r[k].prot % 4 == 3
                    &&& r[k].backing is Anonymous
                    &&& r[k].name@ == "[heap]"@
                    &&& r == s.areas.insert(k, r[k])
                }
        }),
{
    let b = align_up(new_brk as int);
    assert(!has_heap(s.areas)) by {
        if has_heap(s.areas) {
            assert(first_heap(s.areas, heap_at(s.areas)));
        }
    }
    law_free_range_touches_no_area(s.areas, s.brk_start as int, b);
    let k = insert_pos(s.areas, s.brk_start, 0);
    lemma_insert_pos(s.areas, s.brk_start, 0);
    let r = areas_after_brk(s, b);
    assert((0x1u32 | 0x2u32) % 4 == 3) by (bit_vector);
    assert(r == s.areas.insert(k, r[k]));
}

proof fn lemma_insert_pos(areas: Seq<VmArea>, base: u64, i: int)
    requires
        0 <= i <= areas.len(),
    ensures
        i <= insert_pos(areas, base, i) <= areas.len(),
        forall|j: int| i <= j < insert_pos(areas, base, i) ==> (#[trigger] areas[j]).base <= base,
        insert_pos(areas, base, i) < areas.len() ==> areas[insert_pos(areas, base, i)].base > base,
    decreases areas.len() - i,
{
    if i < areas.len() && areas[i].base <= base {
        lemma_insert_pos(areas, base, i + 1);
    }
}

/// An area is put in front of the first one that starts behind it.
pub proof fn law_new_area_stands_in_order(areas: Seq<VmArea>, base: u64)
    ensures
        0 <= insert_pos(areas, base, 0) <= areas.len(),
        forall|j: int| 0 <= j < insert_pos(areas, base, 0) ==> (#[trigger] areas[j]).base <= base,
        insert_pos(areas, base, 0) < areas.len() ==> base < areas[insert_pos(areas, base, 0)].base,
{
    lemma_insert_pos(areas, base, 0);
}

/// Where the heap shrinks to nothing, no area of its name is left, and every other area is.
pub proof fn law_empty_heap_has_no_area(s: VmSpaceView, v: VmArea)
    requires
        s.brk_start < s.brk,
    ensures
        ({
            let r = areas_after_brk(s, s.brk_start as int);
            r.contains(v) <==> s.areas.contains(v) && v.name@ != "[heap]"@
        }),
{
    let keep = |a: VmArea| !is_heap(a);
    let r = areas_after_brk(s, s.brk_start as int);
    lemma_filtered(s.areas, keep, v);
    if !has_heap(s.areas) && s.areas.contains(v) && v.name@ == "[heap]"@ {
        let n = choose|n: int| 0 <= n < s.areas.len() && s.areas[n] == v;
        lemma_first_named(s.areas, n);
    }
}

/// What a filter keeps of a sequence.
pub proof fn lemma_filtered<A>(areas: Seq<A>, keep: spec_fn(A) -> bool, v: A)
    ensures
        areas.filter(keep).contains(v) <==> areas.contains(v) && keep(v),
    decreases areas.len(),
{
    reveal(Seq::filter);
    if areas.len() > 0 {
        let dl = areas.drop_last();
        lemma_filtered(dl, keep, v);
        let f = dl.filter(keep);
        assert(areas.contains(v) <==> dl.contains(v) || v == areas.last()) by {
            if areas.contains(v) {
                let n = choose|n: int| 0 <= n < areas.len() && areas[n] == v;
                if n < dl.len() {
                    assert(dl[n] == v);
                }
            }
            if dl.contains(v) {
                let n = choose|n: int| 0 <= n < dl.len() && dl[n] == v;
                assert(areas[n] == v);
            }
            assert(areas[areas.len() - 1] == areas.last());
        }
        if keep(areas.last()) {
            let p = f.push(areas.last());
            assert(areas.filter(keep) == p);
            assert(p.contains(v) <==> f.contains(v) || v == areas.last()) by {
                if p.contains(v) {
                    let n = choose|n: int| 0 <= n < p.len() && p[n] == v;
                    if n < f.len() {
                        assert(f[n] == v);
                    }
                }
                if f.contains(v) {
                    let n = choose|n: int| 0 <= n < f.len() && f[n] == v;
                    assert(p[n] == v);
                }
                assert(p[f.len() as int] == areas.last());
            }
        }
    }
}

/// Where an area has the name of the heap, one has it first.
proof fn lemma_first_named(areas: Seq<VmArea>, n: int)
    requires
        0 <= n < areas.len(),
        areas[n].name@ == "[heap]"@,
    ensures
        has_heap(areas),
    decreases n,
{
    if exists|j: int| 0 <= j < n && (#[trigger] areas[j]).name@ == "[heap]"@ {
        let j = choose|j: int| 0 <= j < n && (#[trigger] areas[j]).name@ == "[heap]"@;
        lemma_first_named(areas, j);
    } else {
        assert(first_heap(areas, n));
    }
}

/// A break below the start of the heap, or the one that there is, changes no area.
pub proof fn law_break_below_the_heap_changes_nothing(s: VmSpaceView, brk: int)
    requires
        brk < s.brk_start || brk == s.brk,
    ensures
        areas_after_brk(s, brk) == s.areas,
{
}

/// The search gives the highest free range: every range of the size that lies between it and
/// where the search began touches an area.
pub proof fn law_search_finds_the_highest_range(
    areas: Seq<VmArea>,
    candidate: int,
    size: int,
    steps: nat,
    other: int,
)
    requires
        size >= 0x1000,
        walk_down(areas, candidate, size, steps) is Some,
        walk_down(areas, candidate, size, steps)->0 < other,
        other + size <= candidate,
    ensures
        walk_down(areas, candidate, size, steps)->0 + size <= candidate,
        exists|i: int|
            0 <= i < areas.len() && (#[trigger] areas[i]).base < other + size && other
                < areas[i].base + areas[i].length,
    decreases steps,
{
    let base = candidate - size;
    if !hits(areas, base, candidate) {
        lemma_walk_bound(areas, base, size, (steps - 1) as nat);
    } else {
        let k = lemma_hit(areas, base, candidate);
        let next = areas[k].base as int;
        lemma_walk_bound(areas, next, size, (steps - 1) as nat);
        if other + size <= next {
            law_search_finds_the_highest_range(areas, next, size, (steps - 1) as nat, other);
        } else {
            assert(areas[k].meets(base, candidate));
        }
    }
}

proof fn lemma_walk_bound(areas: Seq<VmArea>, candidate: int, size: int, steps: nat)
    requires
        size > 0,
    ensures
        walk_down(areas, candidate, size, steps) matches Some(b) ==> b + size <= candidate,
    decreases steps,
{
    if steps > 0 && candidate >= size {
        let base = candidate - size;
        if !hits(areas, base, candidate) {
            if base < 0x1000 {
                lemma_walk_bound(areas, base, size, (steps - 1) as nat);
            }
        } else {
            let k = lemma_hit(areas, base, candidate);
            lemma_walk_bound(areas, areas[k].base as int, size, (steps - 1) as nat);
        }
    }
}

/// The last area that is hit is one that is hit.
proof fn lemma_hit(areas: Seq<VmArea>, base: int, end: int) -> (k: int)
    requires
        hits(areas, base, end),
    ensures
        k == last_hit(areas, base, end),
        is_last_hit(areas, base, end, k),
{
    let i = choose|i: int| 0 <= i < areas.len() && (#[trigger] areas[i]).meets(base, end);
    let m = lemma_last(areas, base, end, i);
    assert(is_last_hit(areas, base, end, m));
    last_hit(areas, base, end)
}

proof fn lemma_last(areas: Seq<VmArea>, base: int, end: int, i: int) -> (m: int)
    requires
        0 <= i < areas.len(),
        areas[i].meets(base, end),
    ensures
        is_last_hit(areas, base, end, m),
    decreases areas.len() - i,
{
    if exists|j: int| i < j < areas.len() && (#[trigger] areas[j]).meets(base, end) {
        let j = choose|j: int| i < j < areas.len() && (#[trigger] areas[j]).meets(base, end);
        lemma_last(areas, base, end, j)
    } else {
        i
    }
}

/// A stack lands at its random offset from the base, except that it does not leave the window
/// for stacks.
pub proof fn law_stack_lands_at_its_offset(base: u64, jitter: u64, size: int)
    requires
        0 < size <= 0x40_0000_0000,
    ensures
        ({
            let c = stack_candidate(base, jitter, size);
            &&& 0x7F00_0000_0000 <= c
            &&& c + size <= 0x7F40_0000_0000
            &&& 0x7F00_0000_0000 <= base + jitter && base + jitter + size <= 0x7F40_0000_0000 ==> c
                == base + jitter
        }),
{
}

/// A file-backed area holds one reference to its file, by mount and inode, and none to any
/// other; an area without a file holds none.
pub proof fn law_area_references_its_file(pins: Multiset<InodeKey>, v: VmArea, k: InodeKey)
    ensures
        ({
            let one: nat = match v.backing {
                VmBacking::File { mount_idx, inode, .. } => if mount_idx == k.mount_idx && inode
                    == k.inode {
                    1
                } else {
                    0
                },
                _ => 0,
            };
            &&& with_pin(pins, v).count(k) == pins.count(k) + one
            &&& pins.count(k) >= one ==> without_pin(pins, v).count(k) == pins.count(k) - one
        }),
{
    broadcast use vstd::multiset::group_multiset_axioms;

}

/// Noting a change raises the counter of that address space by one, and no other.
pub proof fn law_change_is_noted_once(reg: MmRegistryView, cr3: u64, n: int)
    requires
        reg.wf(),
        cr3 != 0,
        reg.gens.contains_key(cr3),
        reg.generations[reg.gens[cr3] as int] < u64::MAX,
        0 <= n < reg.generations.len(),
    ensures
        ({
            let after = reg.bumped_for(cr3);
            &&& after.generations.len() == reg.generations.len()
            &&& after.generations[n] == reg.generations[n] + (if n == reg.gens[cr3] {
                1int
            } else {
                0
            })
            &&& after.gens == reg.gens
            &&& after.sems == reg.sems
        }),
{
}

/// A new address space sees nothing in its lower half, and in its upper half what the one that
/// made it sees.
pub proof fn law_new_root_has_the_kernel_half(mem: Seq<u64>, np: u64, root: u64, i: int)
    requires
        np % 4096 == 0,
        root % 4096 == 0,
        np != root,
        np as int / 8 + 512 <= mem.len(),
        0 <= i < 512,
    ensures
        ({
            let m = with_new_root(mem, np, root);
            &&& m.len() == mem.len()
            &&& i < 256 ==> slot(m, np, i) == 0
            &&& i >= 256 ==> slot(m, np, i) == slot(mem, root, i)
            &&& slot(m, root, i) == slot(mem, root, i)
        }),
{
}

/// How many areas start below an address.
spec fn below(areas: Seq<VmArea>, n: int, c: int) -> nat
    decreases n,
{
    if n <= 0 {
        0
    } else {
        below(areas, n - 1, c) + if areas[n - 1].base < c {
            1nat
        } else {
            0
        }
    }
}

proof fn lemma_below(areas: Seq<VmArea>, n: int, k: int, c: int)
    requires
        0 <= n <= areas.len(),
        0 <= k < areas.len(),
        areas[k].base < c,
    ensures
        below(areas, n, areas[k].base as int) <= below(areas, n, c) <= n,
        k < n ==> below(areas, n, areas[k].base as int) < below(areas, n, c),
    decreases n,
{
    if n > 0 {
        lemma_below(areas, n - 1, k, c);
    }
}

proof fn lemma_walk_succeeds(areas: Seq<VmArea>, candidate: int, size: int, steps: nat, other: int)
    requires
        size >= 0x1000,
        other >= 0x1000,
        other + size <= candidate,
        !hits(areas, other, other + size),
        below(areas, areas.len() as int, candidate) < steps,
    ensures
        walk_down(areas, candidate, size, steps) is Some,
    decreases steps,
{
    let base = candidate - size;
    if hits(areas, base, candidate) {
        let k = lemma_hit(areas, base, candidate);
        assert(!areas[k].meets(other, other + size));
        lemma_below(areas, areas.len() as int, k, candidate);
        lemma_walk_succeeds(areas, areas[k].base as int, size, (steps - 1) as nat, other);
    }
}

proof fn lemma_below_all(areas: Seq<VmArea>, n: int, c: int)
    requires
        n >= 0,
    ensures
        below(areas, n, c) <= n,
    decreases n,
{
    if n > 0 {
        lemma_below_all(areas, n - 1, c);
    }
}

/// The search finds a range wherever there is one: with fewer areas than steps, a free range
/// above the first page and below the start of the search is reason enough.
pub proof fn law_search_finds_a_range_where_there_is_one(
    areas: Seq<VmArea>,
    candidate: int,
    size: int,
    steps: nat,
    other: int,
)
    requires
        size >= 0x1000,
        areas.len() < steps,
        other >= 0x1000,
        other + size <= candidate,
        forall|i: int|
            0 <= i < areas.len() ==> (#[trigger] areas[i]).base + areas[i].length <= other || other
                + size <= areas[i].base,
    ensures
        walk_down(areas, candidate, size, steps) is Some,
{
    law_free_range_touches_no_area(areas, other, other + size);
    lemma_below_all(areas, areas.len() as int, candidate);
    lemma_walk_succeeds(areas, candidate, size, steps, other);
}

/// A stack goes to the first of its sixteen random places that is free.
pub proof fn law_first_free_place_is_taken(
    s: VmSpaceView,
    jitters: Seq<u64>,
    size: int,
    i: int,
    k: int,
)
    requires
        0 <= i <= k < 16,
        !hits(
            s.areas,
            stack_candidate(s.stack_aslr_base, jitters[k], size),
            stack_candidate(s.stack_aslr_base, jitters[k], size) + size,
        ),
        forall|j: int|
            i <= j < k ==> hits(
                s.areas,
                stack_candidate(s.stack_aslr_base, #[trigger] jitters[j], size),
                stack_candidate(s.stack_aslr_base, jitters[j], size) + size,
            ),
    ensures
        first_free_jitter(s, jitters, size, i) == k,
    decreases k - i,
{
    if i < k {
        assert(hits(
            s.areas,
            stack_candidate(s.stack_aslr_base, jitters[i], size),
            stack_candidate(s.stack_aslr_base, jitters[i], size) + size,
        ));
        law_first_free_place_is_taken(s, jitters, size, i + 1, k);
    }
}

/// Where none of the sixteen places is free, none is taken.
pub proof fn law_no_free_place(s: VmSpaceView, jitters: Seq<u64>, size: int, i: int)
    requires
        0 <= i <= 16,
        forall|j: int|
            i <= j < 16 ==> hits(
                s.areas,
                stack_candidate(s.stack_aslr_base, #[trigger] jitters[j], size),
                stack_candidate(s.stack_aslr_base, jitters[j], size) + size,
            ),
    ensures
        first_free_jitter(s, jitters, size, i) == 16,
    decreases 16 - i,
{
    if i < 16 {
        assert(hits(
            s.areas,
            stack_candidate(s.stack_aslr_base, jitters[i], size),
            stack_candidate(s.stack_aslr_base, jitters[i], size) + size,
        ));
        law_no_free_place(s, jitters, size, i + 1);
    }
}

/// A new address space has no area, and an empty heap at 256 GiB.
pub proof fn law_new_space_is_empty(cr3: u64, hint: u64, base: u64, sem: MmSem, generation: u64)
    ensures
        ({
            let s = empty_space(cr3, hint, base, sem, generation);
            &&& s.areas.len() == 0
            &&& s.brk == 0x40_0000_0000
            &&& s.brk_start == 0x40_0000_0000
            &&& s.cr3 == cr3 && s.mmap_hint == hint && s.stack_aslr_base == base
            &&& s.mm_sem == sem && s.generation == generation
        }),
{
}

/// A new address space is registered with a lock and a counter of its own, each held once; the
/// counter starts at zero, and no other address space is touched.
pub proof fn law_new_space_is_registered(reg: MmRegistryView, cr3: u64, sem: MmSem, other: u64)
    requires
        reg.wf(),
        cr3 != 0,
        sem.id == reg.sem_holders.len(),
        reg.generations.len() <= u64::MAX,
    ensures
        ({
            let after = registered(reg, cr3, sem);
            let g = reg.generations.len() as int;
            &&& after.sems.contains_key(cr3) && after.sems[cr3] == sem
            &&& after.gens.contains_key(cr3) && after.gens[cr3] == g
            &&& after.sem_holders.len() == reg.sem_holders.len() + 1
            &&& after.sem_holders.last() == 1
            &&& after.gen_holders.last() == 1
            &&& after.generations.len() == g + 1
            &&& after.generations[g] == 0
            &&& other != cr3 ==> after.sems.contains_key(other) == reg.sems.contains_key(other)
                && after.gens.contains_key(other) == reg.gens.contains_key(other)
            &&& other != cr3 && reg.gens.contains_key(other) ==> after.gens[other]
                == reg.gens[other] && after.generations[reg.gens[other] as int]
                == reg.generations[reg.gens[other] as int]
        }),
{
}

/// An address space that goes gives up its lock and its counter once; the last holder of both
/// takes its registration along.
pub proof fn law_release_gives_up_once(reg: MmRegistryView, s: VmSpaceView, other: u64)
    requires
        reg.wf(),
        reg.counts_holder(s),
    ensures
        ({
            let after = reg.after_release(s);
            let (m, g) = (s.mm_sem.id as int, s.generation as int);
            &&& after.sem_holders[m] == reg.sem_holders[m] - 1
            &&& after.gen_holders[g] == reg.gen_holders[g] - 1
            &&& after.generations == reg.generations
            &&& other != s.cr3 ==> after.sems.contains_key(other) == reg.sems.contains_key(other)
                && after.gens.contains_key(other) == reg.gens.contains_key(other)
            &&& s.cr3 != 0 && reg.sems.contains_key(s.cr3) && reg.sems[s.cr3].id == m
                && reg.sem_holders[m] == 1 && reg.gens.contains_key(s.cr3) && reg.gens[s.cr3] == g
                && reg.gen_holders[g] == 1 ==> !after.gens.contains_key(s.cr3)
            &&& reg.gen_holders[g] > 1 ==> after.gens == reg.gens
        }),
{
}

/// The line of an area can be read: its bounds in sixteen digits each, its rights as three
/// letters or dashes, and its name.
pub proof fn law_area_text_can_be_read(v: VmArea)
    requires
        v.base + v.length <= u64::MAX,
    ensures
        ({
            let t = area_text(v);
            &&& t.len() == 46 + v.name@.len()
            &&& number(t.subrange(6, 22), 16) == v.base
            &&& number(t.subrange(25, 41), 16) == v.base + v.length
            &&& t[42] == if v.prot % 2 == 1 {
                'r'
            } else {
                '-'
            }
            &&& t[43] == if v.prot / 2 % 2 == 1 {
                'w'
            } else {
                '-'
            }
            &&& t[44] == if v.prot / 4 % 2 == 1 {
                'x'
            } else {
                '-'
            }
            &&& t.skip(46) == v.name@
        }),
{
    let t = area_text(v);
    lemma_prot_bits(v.prot);
    law_sixteen_digits_are_enough(v.base);
    law_sixteen_digits_are_enough((v.base + v.length) as u64);
    reveal_strlit("VMA 0x");
    reveal_strlit("-0x");
    reveal_strlit(" ");
    reveal_strlit("r");
    reveal_strlit("w");
    reveal_strlit("x");
    reveal_strlit("-");
    assert(t.subrange(6, 22) =~= hex_text(v.base as int, 16));
    assert(t.subrange(25, 41) =~= hex_text(v.base + v.length, 16));
    assert(t.skip(46) =~= v.name@);
}

/// An address space that shares a lock or a counter is one more holder of it, and gives it up
/// again when it goes; the registration stays with those that are left.
pub proof fn law_sharing_is_counted(reg: MmRegistryView, child: VmSpaceView, n: int)
    requires
        reg.wf(),
        reg.counts_holder(child),
        reg.sem_holders[child.mm_sem.id as int] < u64::MAX,
        reg.gen_holders[child.generation as int] < u64::MAX,
        0 <= n < reg.sem_holders.len(),
    ensures
        ({
            let (m, g) = (child.mm_sem.id, child.generation);
            let shared = reg.gen_shared(g).sem_shared(m);
            &&& shared.sem_holders[n] == reg.sem_holders[n] + (if n == m {
                1int
            } else {
                0
            })
            &&& shared.gen_holders[g as int] == reg.gen_holders[g as int] + 1
            &&& shared.generations == reg.generations
            &&& shared.sems == reg.sems
            &&& shared.gens == reg.gens
            &&& shared.after_release(child).sem_holders =~= reg.sem_holders
            &&& shared.after_release(child).gen_holders =~= reg.gen_holders
            &&& shared.after_release(child).sems == reg.sems
        }),
{
}

} // verus!
