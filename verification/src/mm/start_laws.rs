//! What the start of memory management leaves behind.
use vstd::prelude::*;
use crate::mm::heap::{
    after_guards, at, heap_phys_start, put, with_guards_reserved, with_new_heap,
};
use crate::mm::heap_bounds::{law_heap_lies_behind_the_kernel, law_heap_word_is_read_back};
use crate::mm::physmem::slot;
use crate::mm::pmm::FramesView;
use crate::mm::tree::{
    canonical, law_map_leaves_other_pages, spare, tree_placed, Place,
};
use crate::mm::vmm::{
    after_init, after_map, frames_ok, law_guard_faults, path_ok, translate, usable,
    with_heap_reserved, ADDR_MASK,
};
use crate::mm::vmm_laws::lemma_entry_arith;
use crate::mm::{pins_set_up, refs_set_up};

verus! {

/// A new heap is one free block: its first word tells its size of 128 MiB, the second that there
/// is no other.  No other word changes.
pub proof fn law_new_heap_is_written(mem: Seq<u64>, kernel_end_va: u64, other: int)
    requires
        heap_phys_start(kernel_end_va) + 0x800_0000 <= 8 * mem.len(),
        other >= 0xFFFF_8000_0000_0000,
    ensures
        ({
            let va = heap_phys_start(kernel_end_va) + 0xFFFF_8000_0000_0000;
            let m = with_new_heap(mem, kernel_end_va);
            &&& m.len() == mem.len()
            &&& at(m, va) == 0x800_0000
            &&& at(m, va + 8) == 0
            &&& other < va || other >= va + 16 ==> at(m, other) == at(mem, other)
        }),
{
    let va = heap_phys_start(kernel_end_va) + 0xFFFF_8000_0000_0000;
    law_heap_lies_behind_the_kernel(kernel_end_va);
    reveal(put);
    let m1 = put(mem, va, 0x800_0000);
    law_heap_word_is_read_back(mem, va, 0x800_0000, other);
    law_heap_word_is_read_back(m1, va + 8, 0, va);
    law_heap_word_is_read_back(m1, va + 8, 0, other);
}

/// The pages on both sides of the heap fault, once both guards are in.  The tables on the way
/// to the second must be sound after the first.
pub proof fn law_guard_pages_fault(
    mem: Seq<u64>,
    f: FramesView,
    lab: spec_fn(u64) -> Place,
    start: u64,
    root: u64,
    now: u64,
)
    requires
        start >= 0xFFFF_8000_0000_1000,
        start + 0x800_0000 <= 0xFFFF_FFFF_FFFF_E000,
        start % 0x1000 == 0,
        path_ok(
            mem,
            usable(with_guards_reserved(f, start), now),
            root,
            (start - 0x1000) as u64,
        ),
        frames_ok(mem, usable(with_guards_reserved(f, start), now)),
        ({
            let (_ok, m1, f1) = after_map(
                mem,
                with_guards_reserved(f, start),
                root,
                (start - 0x1000) as u64,
                0,
                0,
                now,
            );
            &&& tree_placed(m1, lab, root, 512)
            &&& spare(m1, lab, usable(f1, now))
            &&& path_ok(m1, usable(f1, now), root, (start + 0x800_0000) as u64)
            &&& frames_ok(m1, usable(f1, now))
        }),
        canonical((start - 0x1000) as u64),
        canonical((start + 0x800_0000) as u64),
        after_guards(mem, f, start, root, now).0,
        after_guards(mem, f, start, root, now).1,
    ensures
        ({
            let m = after_guards(mem, f, start, root, now).2;
            &&& translate(m, root, (start - 0x1000) as u64) is None
            &&& translate(m, root, (start + 0x800_0000) as u64) is None
        }),
{
    let (lo, hi) = ((start - 0x1000) as u64, (start + 0x800_0000) as u64);
    let reserved = with_guards_reserved(f, start);
    let (_ok, m1, f1) = after_map(mem, reserved, root, lo, 0, 0, now);
    law_guard_faults(mem, reserved, root, lo, now);
    law_guard_faults(m1, f1, root, hi, now);
    law_map_leaves_other_pages(m1, f1, lab, root, hi, 0, 0, now, lo);
}

/// The tables of counts are there after the start, with every count at zero where they were not
/// there before.
pub proof fn law_counts_start_at_zero(f: FramesView, phys: u64)
    ensures
        refs_set_up(f.refs).counts is Some,
        pins_set_up(f.pins).words is Some,
        f.refs.counts is None ==> refs_set_up(f.refs).count(phys) == 0,
        f.refs.counts is Some ==> refs_set_up(f.refs) == f.refs,
        f.pins.words is None ==> pins_set_up(f.pins).count(phys) == 0 && !pins_set_up(
            f.pins,
        ).pending(phys),
        f.pins.words is Some ==> pins_set_up(f.pins) == f.pins,
{
}

/// Without a kernel half nothing is written, and the heap's frames are reserved all the same.
pub proof fn law_init_without_a_kernel_half(
    mem: Seq<u64>,
    f: FramesView,
    cr3: u64,
    kernel_end_va: u64,
    now: u64,
)
    requires
        slot(mem, cr3 & ADDR_MASK, 256) % 2 == 0,
    ensures
        after_init(mem, f, cr3, kernel_end_va, now).mem == mem,
        after_init(mem, f, cr3, kernel_end_va, now).frames == with_heap_reserved(f, kernel_end_va),
        !after_init(mem, f, cr3, kernel_end_va, now).short,
{
    lemma_entry_arith(slot(mem, cr3 & ADDR_MASK, 256));
}

} // verus!
