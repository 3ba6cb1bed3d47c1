//! The resident pages that a walk counts are the pages that user code can reach.
use vstd::prelude::*;
use vstd::set_lib::{lemma_int_range, lemma_len_subset, lemma_set_disjoint_lens, set_int_range};
use crate::mm::physmem::slot;
use crate::mm::rss::{resident_in_pd, resident_in_pdpt, resident_in_pt, resident_in_root};
use crate::mm::vmm::{
    entry2, entry3, idx1, idx2, idx3, idx4, pte, translate, ADDR_MASK,
};
use crate::mm::vmm_laws::{lemma_entry_arith, lemma_levels};

verus! {

/// Page number `p` is mapped, and not to its own address below 4 GiB.  A large page counts by
/// where it starts.
pub open spec fn is_resident(mem: Seq<u64>, root: u64, p: int) -> bool {
    let va = (p * 4096) as u64;
    let e = pte(mem, root, va);
    translate(mem, root, va) is Some && if entry3(mem, root, va) / 128 % 2 == 1 {
        !(e - e % 0x4000_0000 == va - va % 0x4000_0000 && va < 0x1_0000_0000)
    } else if entry2(mem, root, va) / 128 % 2 == 1 {
        !(e % 0x10_0000_0000_0000 - e % 0x20_0000 == va - va % 0x20_0000 && va < 0x1_0000_0000)
    } else {
        !(e % 0x10_0000_0000_0000 - e % 0x1000 == va && va < 0x1_0000_0000)
    }
}

/// The resident pages from page number `lo` up to `hi`.
pub open spec fn resident_pages_in(mem: Seq<u64>, root: u64, lo: int, hi: int) -> Set<int> {
    Set::new(|p: int| lo <= p < hi && is_resident(mem, root, p))
}

proof fn lemma_finite(mem: Seq<u64>, root: u64, lo: int, hi: int)
    requires
        lo <= hi,
    ensures
        resident_pages_in(mem, root, lo, hi).finite(),
        resident_pages_in(mem, root, lo, hi).len() <= hi - lo,
{
    lemma_int_range(lo, hi);
    assert(resident_pages_in(mem, root, lo, hi).subset_of(set_int_range(lo, hi)));
    lemma_len_subset(resident_pages_in(mem, root, lo, hi), set_int_range(lo, hi));
}

proof fn lemma_joined(mem: Seq<u64>, root: u64, lo: int, mid: int, hi: int)
    requires
        lo <= mid <= hi,
    ensures
        resident_pages_in(mem, root, lo, hi).len() == resident_pages_in(mem, root, lo, mid).len()
            + resident_pages_in(mem, root, mid, hi).len(),
{
    let (a, b) = (resident_pages_in(mem, root, lo, mid), resident_pages_in(mem, root, mid, hi));
    lemma_finite(mem, root, lo, mid);
    lemma_finite(mem, root, mid, hi);
    assert(a.disjoint(b));
    assert(resident_pages_in(mem, root, lo, hi) =~= a + b);
    lemma_set_disjoint_lens(a, b);
}

/// A range in which every page is resident, or none.
proof fn lemma_uniform(mem: Seq<u64>, root: u64, lo: int, hi: int, all: bool)
    requires
        lo <= hi,
        forall|p: int| lo <= p < hi ==> #[trigger] is_resident(mem, root, p) == all,
    ensures
        resident_pages_in(mem, root, lo, hi).len() == if all {
            hi - lo
        } else {
            0
        },
{
    lemma_int_range(lo, hi);
    if all {
        assert(resident_pages_in(mem, root, lo, hi) =~= set_int_range(lo, hi));
    } else {
        assert(resident_pages_in(mem, root, lo, hi) =~= Set::empty());
    }
}

proof fn lemma_nothing(mem: Seq<u64>, root: u64, lo: int)
    ensures
        resident_pages_in(mem, root, lo, lo).len() == 0,
{
    assert(resident_pages_in(mem, root, lo, lo) =~= Set::empty());
}

/// The indices of a page number.
proof fn lemma_indices(i4: int, i3: int, i2: int, i1: int)
    requires
        0 <= i4 < 256,
        0 <= i3 < 512,
        0 <= i2 < 512,
        0 <= i1 < 512,
    ensures
        ({
            let p = i4 * 0x800_0000 + i3 * 0x4_0000 + i2 * 0x200 + i1;
            let va = (p * 4096) as u64;
            &&& va == p * 4096
            &&& idx4(va) == i4
            &&& idx3(va) == i3
            &&& idx2(va) == i2
            &&& idx1(va) == i1
            &&& va as int % 0x20_0000 == i1 * 4096
            &&& va as int % 0x4000_0000 == i2 * 0x20_0000 + i1 * 4096
        }),
{
    let p = i4 * 0x800_0000 + i3 * 0x4_0000 + i2 * 0x200 + i1;
    let va = p * 4096;
    lemma_levels(va);
    assert(va / 0x1000 == p);
    assert(p / 512 == i4 * 0x4_0000 + i3 * 0x200 + i2);
    assert(p / 512 / 512 == i4 * 0x200 + i3);
    assert(p / 512 / 512 / 512 == i4);
}

proof fn lemma_pt(mem: Seq<u64>, root: u64, i4: int, i3: int, i2: int, n: nat)
    requires
        0 <= i4 < 256,
        0 <= i3 < 512,
        0 <= i2 < 512,
        n <= 512,
        ({
            let e4 = slot(mem, root, i4);
            let e3 = slot(mem, e4 & ADDR_MASK, i3);
            let e2 = slot(mem, e3 & ADDR_MASK, i2);
            &&& e4 % 2 == 1
            &&& e3 % 2 == 1 && e3 / 128 % 2 == 0
            &&& e2 % 2 == 1 && e2 / 128 % 2 == 0
        }),
    ensures
        ({
            let e4 = slot(mem, root, i4);
            let e3 = slot(mem, e4 & ADDR_MASK, i3);
            let e2 = slot(mem, e3 & ADDR_MASK, i2);
            let lo = i4 * 0x800_0000 + i3 * 0x4_0000 + i2 * 0x200;
            resident_pages_in(mem, root, lo, lo + n).len() == resident_in_pt(
                mem,
                e2 & ADDR_MASK,
                lo * 4096,
                n,
            )
        }),
    decreases n,
{
    let e4 = slot(mem, root, i4);
    let e3 = slot(mem, e4 & ADDR_MASK, i3);
    let e2 = slot(mem, e3 & ADDR_MASK, i2);
    let lo = i4 * 0x800_0000 + i3 * 0x4_0000 + i2 * 0x200;
    if n == 0 {
        lemma_nothing(mem, root, lo);
    } else {
        let i1 = n - 1;
        let e1 = slot(mem, e2 & ADDR_MASK, i1);
        lemma_pt(mem, root, i4, i3, i2, (n - 1) as nat);
        lemma_joined(mem, root, lo, lo + i1, lo + n);
        lemma_indices(i4, i3, i2, i1);
        lemma_entry_arith(e4);
        lemma_entry_arith(e3);
        lemma_entry_arith(e2);
        lemma_entry_arith(e1);
        assert((lo * 4096 + (n - 1) * 0x1000) as u64 == ((lo + i1) * 4096) as u64);
        lemma_uniform(mem, root, lo + i1, lo + n, is_resident(mem, root, lo + i1));
    }
}

proof fn lemma_pd(mem: Seq<u64>, root: u64, i4: int, i3: int, n: nat)
    requires
        0 <= i4 < 256,
        0 <= i3 < 512,
        n <= 512,
        ({
            let e4 = slot(mem, root, i4);
            let e3 = slot(mem, e4 & ADDR_MASK, i3);
            e4 % 2 == 1 && e3 % 2 == 1 && e3 / 128 % 2 == 0
        }),
    ensures
        ({
            let e4 = slot(mem, root, i4);
            let e3 = slot(mem, e4 & ADDR_MASK, i3);
            let lo = i4 * 0x800_0000 + i3 * 0x4_0000;
            resident_pages_in(mem, root, lo, lo + n * 0x200).len() == resident_in_pd(
                mem,
                e3 & ADDR_MASK,
                lo * 4096,
                n,
            )
        }),
    decreases n,
{
    let e4 = slot(mem, root, i4);
    let e3 = slot(mem, e4 & ADDR_MASK, i3);
    let lo = i4 * 0x800_0000 + i3 * 0x4_0000;
    if n == 0 {
        lemma_nothing(mem, root, lo);
    } else {
        let i2 = n - 1;
        let e2 = slot(mem, e3 & ADDR_MASK, i2);
        let from = lo + i2 * 0x200;
        lemma_pd(mem, root, i4, i3, (n - 1) as nat);
        lemma_joined(mem, root, lo, from, lo + n * 0x200);
        lemma_entry_arith(e4);
        lemma_entry_arith(e3);
        lemma_entry_arith(e2);
        assert(lo * 4096 + (n - 1) * 0x20_0000 == from * 4096);
        if e2 % 2 == 1 && e2 / 128 % 2 == 0 {
            lemma_pt(mem, root, i4, i3, i2, 512);
        } else {
            let all = e2 % 2 == 1 && !(e2 % 0x10_0000_0000_0000 - e2 % 0x20_0000 == from * 4096
                && from * 4096 < 0x1_0000_0000);
            assert forall|p: int| from <= p < from + 0x200 implies #[trigger] is_resident(
                mem,
                root,
                p,
            ) == all by {
                lemma_indices(i4, i3, i2, p - from);
                assert(p == i4 * 0x800_0000 + i3 * 0x4_0000 + i2 * 0x200 + (p - from));
            }
            lemma_uniform(mem, root, from, from + 0x200, all);
        }
    }
}

proof fn lemma_pdpt(mem: Seq<u64>, root: u64, i4: int, n: nat)
    requires
        0 <= i4 < 256,
        n <= 512,
        slot(mem, root, i4) % 2 == 1,
    ensures
        ({
            let e4 = slot(mem, root, i4);
            let lo = i4 * 0x800_0000;
            resident_pages_in(mem, root, lo, lo + n * 0x4_0000).len() == resident_in_pdpt(
                mem,
                e4 & ADDR_MASK,
                lo * 4096,
                n,
            )
        }),
    decreases n,
{
    let e4 = slot(mem, root, i4);
    let lo = i4 * 0x800_0000;
    if n == 0 {
        lemma_nothing(mem, root, lo);
    } else {
        let i3 = n - 1;
        let e3 = slot(mem, e4 & ADDR_MASK, i3);
        let from = lo + i3 * 0x4_0000;
        lemma_pdpt(mem, root, i4, (n - 1) as nat);
        lemma_joined(mem, root, lo, from, lo + n * 0x4_0000);
        lemma_entry_arith(e4);
        lemma_entry_arith(e3);
        assert(lo * 4096 + (n - 1) * 0x4000_0000 == from * 4096);
        if e3 % 2 == 1 && e3 / 128 % 2 == 0 {
            lemma_pd(mem, root, i4, i3, 512);
        } else {
            let all = e3 % 2 == 1 && !(e3 - e3 % 0x4000_0000 == from * 4096 && from * 4096
                < 0x1_0000_0000);
            assert forall|p: int| from <= p < from + 0x4_0000 implies #[trigger] is_resident(
                mem,
                root,
                p,
            ) == all by {
                let i2 = (p - from) / 0x200;
                let i1 = (p - from) % 0x200;
                lemma_indices(i4, i3, i2, i1);
                assert(p == i4 * 0x800_0000 + i3 * 0x4_0000 + i2 * 0x200 + i1);
            }
            lemma_uniform(mem, root, from, from + 0x4_0000, all);
        }
    }
}

proof fn lemma_root(mem: Seq<u64>, root: u64, n: nat)
    requires
        n <= 256,
    ensures
        resident_pages_in(mem, root, 0, 0x800_0000 * (n as int)).len() == resident_in_root(mem, root, n),
    decreases n,
{
    if n == 0 {
        lemma_nothing(mem, root, 0);
    } else {
        let i4 = n - 1;
        let e4 = slot(mem, root, i4);
        let from = i4 * 0x800_0000;
        lemma_root(mem, root, (n - 1) as nat);
        lemma_joined(mem, root, 0, from, 0x800_0000 * (n as int));
        lemma_entry_arith(e4);
        assert((n - 1) * 0x80_0000_0000 == from * 4096);
        if e4 % 2 == 1 {
            lemma_pdpt(mem, root, i4, 512);
        } else {
            assert forall|p: int| from <= p < from + 0x800_0000 implies !#[trigger] is_resident(
                mem,
                root,
                p,
            ) by {
                let i3 = (p - from) / 0x4_0000;
                let i2 = (p - from) % 0x4_0000 / 0x200;
                let i1 = (p - from) % 0x200;
                assert(p - from == i3 * 0x4_0000 + i2 * 0x200 + i1);
                lemma_indices(i4, i3, i2, i1);
                assert(p == i4 * 0x800_0000 + i3 * 0x4_0000 + i2 * 0x200 + i1);
            }
            lemma_uniform(mem, root, from, from + 0x800_0000, false);
        }
    }
}

/// The walk counts every page of the user half that is mapped and not to its own address below
/// 4 GiB, once.
pub proof fn law_resident_pages_are_counted(mem: Seq<u64>, root: u64)
    ensures
        resident_pages_in(mem, root, 0, 0x8_0000_0000).finite(),
        resident_in_root(mem, root, 256) == resident_pages_in(mem, root, 0, 0x8_0000_0000).len(),
{
    lemma_finite(mem, root, 0, 0x8_0000_0000);
    lemma_root(mem, root, 256);
}

} // verus!
