//! Where the heap lies, how a block is laid out, and what the words around it tell.
use vstd::prelude::*;
use crate::mm::heap::{
    at, bytes_unit, canary_fault, eff_align, get_bytes, heap_phys_start, link_fault, put, put_bytes,
    round_up, splits, taken, with_guards_reserved, Corruption, LinkedListAllocator,
};
use crate::mm::pmm::FramesView;
use crate::mm::vmm::with_heap_reserved;

verus! {

proof fn lemma_round(v: int, a: int)
    requires
        a > 0,
    ensures
        v <= round_up(v, a) < v + a,
        round_up(v, a) % a == 0,
{
    reveal(round_up);
    let q = (v + a - 1) / a;
    vstd::arithmetic::div_mod::lemma_fundamental_div_mod(v + a - 1, a);
    vstd::arithmetic::div_mod::lemma_mod_bound(v + a - 1, a);
    vstd::arithmetic::mul::lemma_mul_is_commutative(q, a);
    vstd::arithmetic::div_mod::lemma_mod_multiples_basic(q, a);
}

/// Rounding goes up to the next multiple, and not further.
pub proof fn law_rounding_goes_to_the_next_multiple(v: int, a: int)
    requires
        a > 0,
    ensures
        round_up(v, a) % a == 0,
        v <= round_up(v, a) < v + a,
{
    lemma_round(v, a);
}

/// The data of a block starts behind two words of header, or four with canaries, aligned as
/// asked and not later than needed for that.
pub proof fn law_data_is_aligned(a: LinkedListAllocator, block: int, align: int)
    requires
        align > 0,
    ensures
        ({
            let head = if a.canary {
                32int
            } else {
                16
            };
            &&& a.data_start(block, align) % align == 0
            &&& block + head <= a.data_start(block, align) < block + head + align
        }),
{
    lemma_round(block + a.header(), align);
}

/// A block is as long as its header, its data and the word behind it, rounded to whole words.
pub proof fn law_block_holds_its_data(a: LinkedListAllocator, block: int, size: int, align: int)
    requires
        align > 0,
        size >= 0,
    ensures
        ({
            let end = a.data_start(block, align) + size + if a.canary {
                8int
            } else {
                0
            };
            &&& a.needed(block, size, align) % 8 == 0
            &&& end <= block + a.needed(block, size, align) < end + 8
        }),
{
    lemma_round(a.data_start(block, align) + size + a.tail() - block, 8);
}

/// An alignment below eight counts as eight.
pub proof fn law_alignment_is_at_least_a_word(align: int)
    ensures
        align <= 8 ==> eff_align(align) == 8,
        align >= 8 ==> eff_align(align) == align,
{
}

/// What is left of a block becomes a block of its own where it has 32 bytes or more; else the
/// whole block goes.
pub proof fn law_remainder_is_worth_keeping(bsize: int, total: int)
    ensures
        bsize >= total + 32 ==> splits(bsize, total) && taken(bsize, total) == total,
        bsize < total + 32 ==> !splits(bsize, total) && taken(bsize, total) == bsize,
{
}

/// A link is sound where it is empty, or leads to an aligned place in the heap with room for a
/// header.
pub proof fn law_sound_links(start: u64, p: u64)
    ensures
        link_fault(start, p) is None <==> p == 0 || (p % 8 == 0 && start > 0 && start <= p && p + 16
            <= start + 0x800_0000),
        p > 0 && p % 8 > 0 ==> link_fault(start, p) == Some(Corruption::Unaligned),
        p > 0 && p % 8 == 0 && start == 0 ==> link_fault(start, p) == Some(Corruption::NotSetUp),
        p > 0 && p % 8 == 0 && start > 0 && !(start <= p && p + 16 <= start + 0x800_0000)
            ==> link_fault(start, p) == Some(Corruption::OutOfRange),
{
}

/// The heap starts at the first large page that leaves a page free behind the kernel's image,
/// and not below 8 MiB.
pub proof fn law_heap_lies_behind_the_kernel(kernel_end_va: u64)
    ensures
        ({
            let start = heap_phys_start(kernel_end_va);
            let end = if kernel_end_va >= 0xFFFF_8000_0000_0000 {
                kernel_end_va - 0xFFFF_8000_0000_0000
            } else {
                0
            };
            &&& start % 0x20_0000 == 0
            &&& start >= 0x80_0000
            &&& start >= end + 0x1000
            &&& start == 0x80_0000 || start - 0x20_0000 < end + 0x1000
        }),
{
}

/// With canaries, an allocation whose word in front is no longer what was put there, or else
/// whose bytes behind are not, is found out; without them nothing is.
pub proof fn law_overrun_is_found(a: LinkedListAllocator, mem: Seq<u64>, ptr: u64)
    ensures
        ({
            let fault = canary_fault(a, mem, ptr);
            let rear = get_bytes(
                mem,
                ptr.wrapping_add(at(mem, ptr - 16)) as int,
            );
            &&& !a.canary ==> fault is None
            &&& a.canary && at(mem, ptr - 8) != 0xA5A5_5A5A_C0DE_F00D ==> fault is Some
                && fault->0.reason == Corruption::FrontCanary && fault->0.found == at(mem, ptr - 8)
            &&& a.canary && at(mem, ptr - 8) == 0xA5A5_5A5A_C0DE_F00D && rear
                != 0x5A5A_A5A5_DEAD_BEEF ==> fault is Some && fault->0.reason
                == Corruption::RearCanary && fault->0.found == rear
            &&& fault is None && a.canary ==> at(mem, ptr - 8) == 0xA5A5_5A5A_C0DE_F00D && rear
                == 0x5A5A_A5A5_DEAD_BEEF
        }),
{
}

/// A word of the heap that was written is read back, and no other word changes.
pub proof fn law_heap_word_is_read_back(mem: Seq<u64>, va: int, v: u64, other: int)
    requires
        va >= 0xFFFF_8000_0000_0000,
        (va - 0xFFFF_8000_0000_0000) / 8 < mem.len(),
        other >= 0xFFFF_8000_0000_0000,
    ensures
        at(put(mem, va, v), va) == v,
        other - other % 8 != va - va % 8 ==> at(put(mem, va, v), other) == at(mem, other),
{
    reveal(put);
    reveal(at);
    if (other - 0xFFFF_8000_0000_0000) / 8 == (va - 0xFFFF_8000_0000_0000) / 8 {
        assert(other - other % 8 == va - va % 8);
    }
}

/// A number is cut by a power of 256 and put together again.
proof fn lemma_cut(w0: u64, w1: u64, v: u64, k: int)
    requires
        1 <= k < 8,
    ensures
        ({
            let (u, c) = (bytes_unit(k), bytes_unit(8 - k));
            let lo = w0 as int % u + v as int % c * u;
            let hi = w1 as int / u * u + v as int / c;
            &&& 0 <= lo <= u64::MAX
            &&& 0 <= hi <= u64::MAX
            &&& lo / u + hi % u * c == v
        }),
{
    if k == 1 {
        lemma_cut_at(w0 as int, w1 as int, v as int, 0x100, 0x100_0000_0000_0000);
    } else if k == 2 {
        lemma_cut_at(w0 as int, w1 as int, v as int, 0x1_0000, 0x1_0000_0000_0000);
    } else if k == 3 {
        lemma_cut_at(w0 as int, w1 as int, v as int, 0x100_0000, 0x100_0000_0000);
    } else if k == 4 {
        lemma_cut_at(w0 as int, w1 as int, v as int, 0x1_0000_0000, 0x1_0000_0000);
    } else if k == 5 {
        lemma_cut_at(w0 as int, w1 as int, v as int, 0x100_0000_0000, 0x100_0000);
    } else if k == 6 {
        lemma_cut_at(w0 as int, w1 as int, v as int, 0x1_0000_0000_0000, 0x1_0000);
    } else {
        lemma_cut_at(w0 as int, w1 as int, v as int, 0x100_0000_0000_0000, 0x100);
    }
}

proof fn lemma_cut_at(w0: int, w1: int, v: int, u: int, c: int)
    by (nonlinear_arith)
    requires
        u > 0,
        c > 0,
        u * c == 0x1_0000_0000_0000_0000,
        0 <= w0 < 0x1_0000_0000_0000_0000,
        0 <= w1 < 0x1_0000_0000_0000_0000,
        0 <= v < 0x1_0000_0000_0000_0000,
    ensures
        ({
            let lo = w0 % u + v % c * u;
            let hi = w1 / u * u + v / c;
            &&& 0 <= lo < 0x1_0000_0000_0000_0000
            &&& 0 <= hi < 0x1_0000_0000_0000_0000
            &&& lo / u + hi % u * c == v
        }),
{
    let q = v / c;
    let r = v % c;
    let p = w1 / u;
    assert(v == q * c + r && 0 <= r < c);
    assert(0 <= q < u) by {
        if q >= u {
            assert(q * c >= u * c);
        }
    }
    assert(0 <= w0 % u < u);
    assert(w1 == p * u + w1 % u && 0 <= w1 % u < u);
    assert(r * u + u <= c * u) by {
        assert((r + 1) * u <= c * u);
    }
    assert((w0 % u + r * u) / u == r) by {
        vstd::arithmetic::div_mod::lemma_fundamental_div_mod_converse(
            w0 % u + r * u,
            u,
            r,
            w0 % u,
        );
    }
    assert((p * u + q) % u == q) by {
        vstd::arithmetic::div_mod::lemma_fundamental_div_mod_converse(p * u + q, u, p, q);
    }
    assert(p * u + q < 0x1_0000_0000_0000_0000) by {
        assert(p * u <= w1);
        assert(p < c) by {
            if p >= c {
                assert(p * u >= c * u);
            }
        }
        assert((p + 1) * u <= c * u);
    }
}

/// Eight bytes that were written anywhere in the heap are read back.
pub proof fn law_heap_bytes_are_read_back(mem: Seq<u64>, va: int, v: u64)
    requires
        va >= 0xFFFF_8000_0000_0000,
        (va - 0xFFFF_8000_0000_0000) / 8 + 1 < mem.len(),
    ensures
        get_bytes(put_bytes(mem, va, v), va) == v,
{
    reveal(put);
    reveal(at);
    let k = va % 8;
    if k != 0 {
        lemma_cut(at(mem, va), at(mem, va + 8), v, k);
        assert((va + 8 - 0xFFFF_8000_0000_0000) / 8 == (va - 0xFFFF_8000_0000_0000) / 8 + 1);
    }
}

/// The frames of the heap and of the page on either side of it are not handed out, and no other
/// frame is taken for them.
pub proof fn law_heap_frames_are_reserved(f: FramesView, kernel_end_va: u64, page: int)
    ensures
        ({
            let start = heap_phys_start(kernel_end_va);
            let after = with_heap_reserved(f, kernel_end_va);
            &&& after.pmm.free.contains(page) <==> f.pmm.free.contains(page) && !(start - 0x1000
                <= page * 4096 && page * 4096 < start + 0x800_1000)
            &&& after.refs == f.refs
            &&& after.pins == f.pins
        }),
{
    law_heap_lies_behind_the_kernel(kernel_end_va);
}

/// The frames of the two guard pages are not handed out, and no other frame is taken for them.
pub proof fn law_guard_frames_are_reserved(f: FramesView, start: u64, page: int)
    requires
        start >= 0xFFFF_8000_0000_1000,
        start % 0x1000 == 0,
    ensures
        ({
            let after = with_guards_reserved(f, start);
            let at = page * 4096 + 0xFFFF_8000_0000_0000;
            &&& after.pmm.free.contains(page) <==> f.pmm.free.contains(page) && at != start - 0x1000
                && at != start + 0x800_0000
            &&& after.refs == f.refs
            &&& after.pins == f.pins
        }),
{
}

} // verus!
