//! Page tables as trees: what holds of a whole address space when a page is mapped or a range
//! is unmapped.
use vstd::arithmetic::div_mod::{lemma_div_denominator, lemma_mod_multiples_vanish};
use vstd::prelude::*;
use crate::mm::physmem::{frame_words, slot, word_at};
use crate::mm::pmm::FramesView;
use crate::mm::refcount::RefCountsView;
use crate::mm::vmm::{
    after_map, after_unmap_page, after_unmap_range, descend, descend_all, entry2, entry3, entry4,
    frames_ok, huge, idx1, idx2, idx3, idx4, law_map_leaves_neighbours, leads_on, leaf_table,
    lemma_descend, lemma_descend_again, lemma_descend_keeps, lemma_descend_target, lemma_gib_part,
    lemma_idx, lemma_leaf_bits, lemma_set_elsewhere, lemma_words_apart, path_ok, present, pte,
    split_table, table_ok, translate, usable, with_leaf, Step, ADDR_MASK, PAGE_WRITABLE,
};

verus! {

/// What a frame is to an address space: one of its tables, known by the entries that lead to
/// it, or something else.
pub enum Place {
    Elsewhere,
    Root,
    Third(int),
    Second(int, int),
    First(int, int, int),
}

/// A frame in installed memory.
pub open spec fn sound(mem: Seq<u64>, t: u64) -> bool {
    t % 4096 == 0 && t as int / 8 + 512 <= mem.len()
}

/// The entry leads to a table.
pub open spec fn leads(e: u64) -> bool {
    present(e) && !huge(e)
}

/// The second-level table `pd` and those below it are where the places say.
pub open spec fn pd_placed(
    mem: Seq<u64>,
    lab: spec_fn(u64) -> Place,
    pd: u64,
    i: int,
    j: int,
) -> bool {
    &&& sound(mem, pd)
    &&& lab(pd) == Place::Second(i, j)
    &&& forall|k: int|
        0 <= k < 512 && leads(#[trigger] slot(mem, pd, k)) ==> {
            let t = slot(mem, pd, k) & ADDR_MASK;
            sound(mem, t) && lab(t) == Place::First(i, j, k)
        }
}

/// The third-level table `pdpt` and those below it are where the places say.
pub open spec fn pdpt_placed(mem: Seq<u64>, lab: spec_fn(u64) -> Place, pdpt: u64, i: int) -> bool {
    &&& sound(mem, pdpt)
    &&& lab(pdpt) == Place::Third(i)
    &&& forall|j: int|
        0 <= j < 512 && leads(#[trigger] slot(mem, pdpt, j)) ==> pd_placed(
            mem,
            lab,
            slot(mem, pdpt, j) & ADDR_MASK,
            i,
            j,
        )
}

/// The tree under the first `n` entries of `root` is where the places say: every table is in
/// one place only.
pub open spec fn tree_placed(mem: Seq<u64>, lab: spec_fn(u64) -> Place, root: u64, n: int) -> bool {
    &&& sound(mem, root)
    &&& lab(root) == Place::Root
    &&& forall|i: int|
        0 <= i < n && present(#[trigger] slot(mem, root, i)) ==> pdpt_placed(
            mem,
            lab,
            slot(mem, root, i) & ADDR_MASK,
            i,
        )
}

/// The frames of the set are installed, and none is a table of the address space.
pub open spec fn spare(mem: Seq<u64>, lab: spec_fn(u64) -> Place, free: Set<int>) -> bool {
    forall|p: int| #[trigger]
        free.contains(p) ==> 0 <= p < 0x10_0000 && p * 512 + 512 <= mem.len() && lab(
            (p * 4096) as u64,
        ) is Elsewhere
}

/// Words of different frames are different words.
pub proof fn lemma_apart(t: u64, u: u64, i: int, j: int)
    requires
        t % 4096 == 0,
        u % 4096 == 0,
        0 <= i < 512,
        0 <= j < 512,
        t != u || i != j,
    ensures
        t as int / 8 + i != u as int / 8 + j,
        t != u ==> !(u as int / 8 <= t as int / 8 + i < u as int / 8 + 512),
{
}

/// A second-level table stays placed while its entries do.
pub proof fn lemma_pd_placed_kept(
    mem: Seq<u64>,
    mem2: Seq<u64>,
    lab: spec_fn(u64) -> Place,
    pd: u64,
    i: int,
    j: int,
)
    requires
        pd_placed(mem, lab, pd, i, j),
        mem2.len() == mem.len(),
        forall|k: int| 0 <= k < 512 ==> #[trigger] slot(mem2, pd, k) == slot(mem, pd, k),
    ensures
        pd_placed(mem2, lab, pd, i, j),
{
}

/// A third-level table and those below it stay placed while their entries do.
pub proof fn lemma_pdpt_placed_kept(
    mem: Seq<u64>,
    mem2: Seq<u64>,
    lab: spec_fn(u64) -> Place,
    pdpt: u64,
    i: int,
)
    requires
        pdpt_placed(mem, lab, pdpt, i),
        mem2.len() == mem.len(),
        forall|j: int| 0 <= j < 512 ==> #[trigger] slot(mem2, pdpt, j) == slot(mem, pdpt, j),
        forall|j: int, k: int|
            0 <= j < 512 && 0 <= k < 512 && leads(slot(mem, pdpt, j)) ==> #[trigger] slot(
                mem2,
                slot(mem, pdpt, j) & ADDR_MASK,
                k,
            ) == slot(mem, slot(mem, pdpt, j) & ADDR_MASK, k),
    ensures
        pdpt_placed(mem2, lab, pdpt, i),
{
    assert forall|j: int| 0 <= j < 512 && leads(#[trigger] slot(mem2, pdpt, j)) implies pd_placed(
        mem2,
        lab,
        slot(mem2, pdpt, j) & ADDR_MASK,
        i,
        j,
    ) by {
        let pd = slot(mem, pdpt, j) & ADDR_MASK;
        assert(pd_placed(mem, lab, pd, i, j));
        lemma_pd_placed_kept(mem, mem2, lab, pd, i, j);
    }
}

/// The base of a page, from the entries that lead to it.
pub proof fn lemma_page_base(va: u64)
    requires
        va < 0x8000_0000_0000,
    ensures
        0 <= idx4(va) < 256,
        0 <= idx3(va) < 512,
        0 <= idx2(va) < 512,
        0 <= idx1(va) < 512,
        idx4(va) * 0x80_0000_0000 + idx3(va) * 0x4000_0000 == va - va % 0x4000_0000,
        idx4(va) * 0x80_0000_0000 + idx3(va) * 0x4000_0000 + idx2(va) * 0x20_0000 == va - va
            % 0x20_0000,
        idx4(va) * 0x80_0000_0000 + idx3(va) * 0x4000_0000 + idx2(va) * 0x20_0000 + idx1(va)
            * 0x1000 == va - va % 0x1000,
{
    let x = va as int;
    lemma_div_denominator(x, 0x1000, 512);
    lemma_div_denominator(x, 0x20_0000, 512);
    lemma_div_denominator(x, 0x4000_0000, 512);
    let (q1, q2, q3, q4) = (x / 0x1000, x / 0x20_0000, x / 0x4000_0000, x / 0x80_0000_0000);
    assert(q1 / 512 == q2 && q2 / 512 == q3 && q3 / 512 == q4);
    assert(q4 < 256);
    assert(q1 == q2 * 512 + idx1(va));
    assert(q2 == q3 * 512 + idx2(va));
    assert(q3 == q4 * 512 + idx3(va));
    assert(q4 == idx4(va));
}

/// Both addresses lie in one page.
pub open spec fn same_page(a: u64, b: u64) -> bool {
    idx4(a) == idx4(b) && idx3(a) == idx3(b) && idx2(a) == idx2(b) && idx1(a) == idx1(b)
}

/// Addresses of one page have the same number of the page.
pub proof fn lemma_same_page(a: u64, b: u64)
    requires
        a < 0x8000_0000_0000,
        b < 0x8000_0000_0000,
    ensures
        same_page(a, b) <==> a as int / 0x1000 == b as int / 0x1000,
{
    lemma_page_base(a);
    lemma_page_base(b);
}

/// No large page lies on the way to `va`.
pub open spec fn small_way(mem: Seq<u64>, root: u64, va: u64) -> bool {
    present(entry4(mem, root, va)) && present(entry3(mem, root, va)) ==> !huge(
        entry3(mem, root, va),
    ) && (present(entry2(mem, root, va)) ==> !huge(entry2(mem, root, va)))
}

/// Clearing the entry of one page takes that page away, where it is a small one, and nothing
/// else.
proof fn lemma_clear(mem: Seq<u64>, lab: spec_fn(u64) -> Place, root: u64, p: u64, va: u64)
    requires
        tree_placed(mem, lab, root, 256),
        p < 0x8000_0000_0000,
        va < 0x8000_0000_0000,
    ensures
        ({
            let m = with_leaf(mem, root, p, 0);
            &&& tree_placed(m, lab, root, 256)
            &&& entry4(m, root, va) == entry4(mem, root, va)
            &&& present(entry4(mem, root, va)) ==> entry3(m, root, va) == entry3(mem, root, va)
            &&& present(entry4(mem, root, va)) && leads(entry3(mem, root, va)) ==> entry2(
                m,
                root,
                va,
            ) == entry2(mem, root, va)
            &&& same_page(p, va) && small_way(mem, root, va) ==> translate(m, root, va) is None
            &&& !(same_page(p, va) && small_way(mem, root, va)) ==> translate(m, root, va)
                == translate(mem, root, va)
        }),
{
    lemma_page_base(p);
    lemma_page_base(va);
    assert(0u64 & 1 == 0) by (bit_vector);
    if let Some(pt) = leaf_table(mem, root, p) {
        let (i, j, k, l) = (idx4(p), idx3(p), idx2(p), idx1(p));
        let t3 = entry4(mem, root, p) & ADDR_MASK;
        let t2 = entry3(mem, root, p) & ADDR_MASK;
        assert(pdpt_placed(mem, lab, t3, i));
        assert(pd_placed(mem, lab, t2, i, j));
        assert(lab(pt) == Place::First(i, j, k));
        let m = with_leaf(mem, root, p, 0);
        assert forall|x: u64, q: int|
            0 <= q < 512 && x % 4096 == 0 && (x != pt || q != l) implies #[trigger] slot(m, x, q)
            == slot(mem, x, q) by {
            lemma_apart(x, pt, q, l);
        }
        assert forall|a: int| 0 <= a < 256 && present(#[trigger] slot(m, root, a)) implies pdpt_placed(
            m,
            lab,
            slot(m, root, a) & ADDR_MASK,
            a,
        ) by {
            assert(slot(m, root, a) == slot(mem, root, a));
            let t = slot(mem, root, a) & ADDR_MASK;
            assert(pdpt_placed(mem, lab, t, a));
            assert forall|b: int, c: int|
                0 <= b < 512 && 0 <= c < 512 && leads(slot(mem, t, b)) implies #[trigger] slot(
                m,
                slot(mem, t, b) & ADDR_MASK,
                c,
            ) == slot(mem, slot(mem, t, b) & ADDR_MASK, c) by {
                assert(pd_placed(mem, lab, slot(mem, t, b) & ADDR_MASK, a, b));
            }
            lemma_pdpt_placed_kept(mem, m, lab, t, a);
        }
        let e4 = entry4(mem, root, va);
        if present(e4) {
            let u3 = e4 & ADDR_MASK;
            assert(pdpt_placed(mem, lab, u3, idx4(va)));
            let e3 = entry3(mem, root, va);
            assert(slot(m, u3, idx3(va)) == e3);
            if leads(e3) {
                let u2 = e3 & ADDR_MASK;
                assert(pd_placed(mem, lab, u2, idx4(va), idx3(va)));
                let e2 = entry2(mem, root, va);
                assert(slot(m, u2, idx2(va)) == e2);
                if leads(e2) {
                    let u1 = e2 & ADDR_MASK;
                    assert(lab(u1) == Place::First(idx4(va), idx3(va), idx2(va)));
                    if same_page(p, va) {
                        assert(u1 == pt);
                        assert(slot(m, pt, l) == 0);
                    } else {
                        assert(slot(m, u1, idx1(va)) == slot(mem, u1, idx1(va)));
                    }
                }
            }
        }
    }
}

/// Page number `k` from `base` on.
pub open spec fn page_at(base: u64, k: int) -> u64 {
    (base + k * 0x1000) as u64
}

/// Pages follow each other.
proof fn lemma_page_at(base: u64, n: int)
    requires
        n > 0,
        base % 0x1000 == 0,
        base + n * 0x1000 <= 0x8000_0000_0000,
    ensures
        page_at(base, n - 1) == base + (n - 1) * 0x1000,
        page_at(base, n - 1) % 0x1000 == 0,
        page_at(base, n - 1) + 0x1000 == base + n * 0x1000,
{
    let p = base + (n - 1) * 0x1000;
    assert(p % 0x1000 == 0) by {
        lemma_mod_multiples_vanish(n - 1, base as int, 0x1000);
    }
}

/// The tables are in place.
#[verifier::opaque]
spec fn ready(mem: Seq<u64>, lab: spec_fn(u64) -> Place, root: u64) -> bool {
    tree_placed(mem, lab, root, 256)
}

/// No large page lies on the way to `va`.
#[verifier::opaque]
spec fn small(mem: Seq<u64>, root: u64, va: u64) -> bool {
    small_way(mem, root, va)
}

/// Where `va` leads to.
#[verifier::opaque]
spec fn seen(mem: Seq<u64>, root: u64, va: u64) -> Option<u64> {
    translate(mem, root, va)
}

/// Addresses of one page are both mapped, or neither is.
proof fn lemma_same_way(mem: Seq<u64>, root: u64, a: u64, b: u64)
    requires
        same_page(a, b),
    ensures
        translate(mem, root, a) is None <==> translate(mem, root, b) is None,
{
}

/// Unmapping one page takes that page away, where it is a small one, and nothing else.
proof fn lemma_unmap_page(
    mem: Seq<u64>,
    refs: RefCountsView,
    lab: spec_fn(u64) -> Place,
    root: u64,
    p: u64,
    va: u64,
)
    requires
        ready(mem, lab, root),
        p % 0x1000 == 0,
        p < 0x8000_0000_0000,
        va < 0x8000_0000_0000,
    ensures
        ({
            let m = after_unmap_page(mem, refs, root, p).0;
            &&& ready(m, lab, root)
            &&& small(m, root, va) == small(mem, root, va)
            &&& if p <= va < p + 0x1000 && small(mem, root, va) {
                seen(m, root, va) is None
            } else {
                seen(m, root, va) == seen(mem, root, va)
            }
        }),
{
    reveal(ready);
    reveal(small);
    reveal(seen);
    lemma_clear(mem, lab, root, p, va);
    lemma_same_page(p, va);
    if translate(mem, root, p) is None && same_page(p, va) {
        lemma_same_way(mem, root, p, va);
    }
}

proof fn lemma_unmap_range(
    mem: Seq<u64>,
    refs: RefCountsView,
    lab: spec_fn(u64) -> Place,
    root: u64,
    base: u64,
    n: nat,
    va: u64,
)
    requires
        base % 0x1000 == 0,
        base + n * 0x1000 <= 0x8000_0000_0000,
        va < 0x8000_0000_0000,
        ready(mem, lab, root),
    ensures
        ({
            let m = after_unmap_range(mem, refs, root, base, n).0;
            &&& ready(m, lab, root)
            &&& small(m, root, va) == small(mem, root, va)
            &&& if base <= va < base + n * 0x1000 && small(mem, root, va) {
                seen(m, root, va) is None
            } else {
                seen(m, root, va) == seen(mem, root, va)
            }
        }),
    decreases n,
{
    if n > 0 {
        let p = page_at(base, n - 1);
        let (m, r, _gone) = after_unmap_range(mem, refs, root, base, (n - 1) as nat);
        lemma_page_at(base, n as int);
        lemma_unmap_range(mem, refs, lab, root, base, (n - 1) as nat, va);
        lemma_unmap_page(m, r, lab, root, p, va);
    }
}

/// After a range of user memory was unmapped, none of its small pages is mapped.  Every other
/// user address translates as before, also one of a large page that reaches into the range.
///
/// The tables are in places of their own.
pub proof fn law_unmapped_range_is_gone(
    mem: Seq<u64>,
    refs: RefCountsView,
    lab: spec_fn(u64) -> Place,
    root: u64,
    base: u64,
    n: nat,
    va: u64,
)
    requires
        tree_placed(mem, lab, root, 256),
        base % 0x1000 == 0,
        base + n * 0x1000 <= 0x8000_0000_0000,
        va < 0x8000_0000_0000,
    ensures
        ({
            let m = after_unmap_range(mem, refs, root, base, n).0;
            if base <= va < base + n * 0x1000 && small_way(mem, root, va) {
                translate(m, root, va) is None
            } else {
                translate(m, root, va) == translate(mem, root, va)
            }
        }),
{
    reveal(ready);
    lemma_unmap_range(mem, refs, lab, root, base, n, va);
    reveal(small);
    reveal(seen);
}

/// A step down changes one entry and a frame that was free.
proof fn lemma_descend_word(
    mem: Seq<u64>,
    f: FramesView,
    table: u64,
    idx: int,
    level: int,
    flags: u64,
    now: u64,
    x: u64,
    q: int,
)
    requires
        0 <= idx < 512,
        0 <= q < 512,
        table_ok(mem, usable(f, now), table),
        frames_ok(mem, usable(f, now)),
        descend(mem, f, table, idx, level, flags, now).next is Some,
        x % 4096 == 0,
        x != table || q != idx,
        !usable(f, now).contains(x as int / 4096),
    ensures
        slot(descend(mem, f, table, idx, level, flags, now).mem, x, q) == slot(mem, x, q),
{
    let s = descend(mem, f, table, idx, level, flags, now);
    lemma_descend(mem, f, table, idx, level, flags, now);
    let e = slot(mem, table, idx);
    lemma_apart(x, table, q, idx);
    if !leads_on(e, level) {
        lemma_words_apart(x, s.next->0, q, 0);
    }
    assert(word_at(s.mem, x as int / 8 + q) == word_at(mem, x as int / 8 + q));
}

/// No page of a gigabyte lies on the way to `va`.
pub open spec fn no_gib(mem: Seq<u64>, root: u64, va: u64) -> bool {
    present(entry4(mem, root, va)) && present(entry3(mem, root, va)) ==> !huge(
        entry3(mem, root, va),
    )
}

/// The three steps down to the first-level table for `va`, and the tables they lead to.
proof fn lemma_steps(mem: Seq<u64>, f: FramesView, root: u64, va: u64, flags: u64, now: u64)
    requires
        path_ok(mem, usable(f, now), root, va),
        no_gib(mem, root, va),
        frames_ok(mem, usable(f, now)),
        descend_all(mem, f, root, va, flags, now).next is Some,
    ensures
        ({
            let s3 = descend(mem, f, root, idx4(va), 4, flags, now);
            let t3 = s3.next->0;
            let s2 = descend(s3.mem, s3.frames, t3, idx3(va), 3, flags, now);
            let t2 = s2.next->0;
            let s1 = descend(s2.mem, s2.frames, t2, idx2(va), 2, flags, now);
            let pt = s1.next->0;
            let e4 = entry4(mem, root, va);
            let e3 = entry3(mem, root, va);
            let e2 = entry2(mem, root, va);
            &&& s3.next is Some && s2.next is Some && s1.next is Some
            &&& s1 == descend_all(mem, f, root, va, flags, now)
            &&& table_ok(mem, usable(f, now), root)
            &&& table_ok(s3.mem, usable(s3.frames, now), t3)
            &&& frames_ok(s3.mem, usable(s3.frames, now))
            &&& table_ok(s2.mem, usable(s2.frames, now), t2)
            &&& table_ok(s2.mem, usable(s2.frames, now), t3)
            &&& frames_ok(s2.mem, usable(s2.frames, now))
            &&& table_ok(s1.mem, usable(s1.frames, now), pt)
            &&& table_ok(s1.mem, usable(s1.frames, now), t2)
            &&& table_ok(s1.mem, usable(s1.frames, now), t3)
            &&& usable(s3.frames, now).subset_of(usable(f, now))
            &&& usable(s2.frames, now).subset_of(usable(s3.frames, now))
            &&& usable(s1.frames, now).subset_of(usable(s2.frames, now))
            &&& if present(e4) {
                t3 == e4 & ADDR_MASK
            } else {
                usable(f, now).contains(t3 as int / 4096) && !present(slot(s3.mem, t3, idx3(va)))
            }
            &&& if present(e4) && present(e3) {
                t2 == e3 & ADDR_MASK
            } else {
                usable(s3.frames, now).contains(t2 as int / 4096) && !present(
                    slot(s2.mem, t2, idx2(va)),
                )
            }
            &&& if present(e4) && present(e3) && leads(e2) {
                pt == e2 & ADDR_MASK
            } else {
                usable(s2.frames, now).contains(pt as int / 4096)
            }
            &&& present(e4) && present(e3) ==> slot(s2.mem, t2, idx2(va)) == e2
            &&& root != t3 && root != t2 && root != pt && t3 != t2 && t3 != pt && t2 != pt
        }),
{
    let (i4, i3, i2) = (idx4(va), idx3(va), idx2(va));
    lemma_idx(va);
    lemma_leaf_bits(0, 0);
    let e4 = slot(mem, root, i4);
    let s3 = descend(mem, f, root, i4, 4, flags, now);
    let t3 = s3.next->0;
    lemma_descend(mem, f, root, i4, 4, flags, now);
    lemma_descend_target(mem, f, root, i4, 4, flags, now, root);
    let e3 = slot(s3.mem, t3, i3);
    if present(e4) {
        lemma_descend_keeps(mem, f, root, i4, 4, flags, now, t3, i3);
        assert(e3 == entry3(mem, root, va));
        if present(e3) {
            let t2 = e3 & ADDR_MASK;
            lemma_descend_keeps(mem, f, root, i4, 4, flags, now, t2, i2);
            assert(table_ok(s3.mem, usable(s3.frames, now), t2));
        }
    } else {
        assert(frame_words(s3.mem, t3)[i3] == 0);
    }
    let s2 = descend(s3.mem, s3.frames, t3, i3, 3, flags, now);
    let t2 = s2.next->0;
    lemma_descend(s3.mem, s3.frames, t3, i3, 3, flags, now);
    lemma_descend_target(s3.mem, s3.frames, t3, i3, 3, flags, now, t3);
    lemma_descend_target(s3.mem, s3.frames, t3, i3, 3, flags, now, root);
    let e2 = slot(s2.mem, t2, i2);
    if present(e3) {
        lemma_descend_keeps(s3.mem, s3.frames, t3, i3, 3, flags, now, t2, i2);
        assert(e2 == entry2(mem, root, va));
        if leads(e2) {
            assert(table_ok(s2.mem, usable(s2.frames, now), e2 & ADDR_MASK));
        }
    } else {
        assert(frame_words(s2.mem, t2)[i2] == 0);
    }
    let s1 = descend(s2.mem, s2.frames, t2, i2, 2, flags, now);
    lemma_descend(s2.mem, s2.frames, t2, i2, 2, flags, now);
    lemma_descend_target(s2.mem, s2.frames, t2, i2, 2, flags, now, t2);
    lemma_descend_target(s2.mem, s2.frames, t2, i2, 2, flags, now, t3);
    lemma_descend_target(s2.mem, s2.frames, t2, i2, 2, flags, now, root);
}

/// Mapping a page changes the entries on the way to it and frames that were free.
proof fn lemma_map_word(
    mem: Seq<u64>,
    f: FramesView,
    root: u64,
    va: u64,
    flags: u64,
    e: u64,
    now: u64,
    x: u64,
    q: int,
)
    requires
        path_ok(mem, usable(f, now), root, va),
        no_gib(mem, root, va),
        frames_ok(mem, usable(f, now)),
        after_map(mem, f, root, va, flags, e, now).0,
        x % 4096 == 0,
        0 <= q < 512,
        !usable(f, now).contains(x as int / 4096),
        x != root || q != idx4(va),
        present(entry4(mem, root, va)) ==> x != entry4(mem, root, va) & ADDR_MASK || q != idx3(va),
        present(entry4(mem, root, va)) && present(entry3(mem, root, va)) ==> x != entry3(
            mem,
            root,
            va,
        ) & ADDR_MASK || q != idx2(va),
        present(entry4(mem, root, va)) && present(entry3(mem, root, va)) && leads(
            entry2(mem, root, va),
        ) ==> x != entry2(mem, root, va) & ADDR_MASK || q != idx1(va),
    ensures
        slot(after_map(mem, f, root, va, flags, e, now).1, x, q) == slot(mem, x, q),
{
    lemma_idx(va);
    lemma_steps(mem, f, root, va, flags, now);
    let s3 = descend(mem, f, root, idx4(va), 4, flags, now);
    let t3 = s3.next->0;
    let s2 = descend(s3.mem, s3.frames, t3, idx3(va), 3, flags, now);
    let t2 = s2.next->0;
    let s1 = descend(s2.mem, s2.frames, t2, idx2(va), 2, flags, now);
    let pt = s1.next->0;
    lemma_descend_word(mem, f, root, idx4(va), 4, flags, now, x, q);
    assert(x != t3 || q != idx3(va));
    lemma_descend_word(s3.mem, s3.frames, t3, idx3(va), 3, flags, now, x, q);
    assert(x != t2 || q != idx2(va));
    lemma_descend_word(s2.mem, s2.frames, t2, idx2(va), 2, flags, now, x, q);
    assert(x != pt || q != idx1(va));
    lemma_apart(x, pt, q, idx1(va));
}

/// What the entries on the way to a page are once it is mapped; tables that were made for it
/// hold nothing else.
proof fn lemma_map_way(
    mem: Seq<u64>,
    f: FramesView,
    root: u64,
    va: u64,
    flags: u64,
    e: u64,
    now: u64,
    q: int,
)
    requires
        path_ok(mem, usable(f, now), root, va),
        no_gib(mem, root, va),
        frames_ok(mem, usable(f, now)),
        after_map(mem, f, root, va, flags, e, now).0,
        0 <= q < 512,
    ensures
        ({
            let m = after_map(mem, f, root, va, flags, e, now).1;
            let e4 = entry4(mem, root, va);
            let e3 = entry3(mem, root, va);
            let e2 = entry2(mem, root, va);
            let t3 = entry4(m, root, va) & ADDR_MASK;
            let t2 = entry3(m, root, va) & ADDR_MASK;
            let pt = entry2(m, root, va) & ADDR_MASK;
            &&& present(entry4(m, root, va))
            &&& leads(entry3(m, root, va))
            &&& leads(entry2(m, root, va))
            &&& present(e4) ==> t3 == e4 & ADDR_MASK
            &&& present(e4) && present(e3) ==> t2 == e3 & ADDR_MASK
            &&& !present(e4) && q != idx3(va) ==> slot(m, t3, q) == 0
            &&& !(present(e4) && present(e3)) && q != idx2(va) ==> slot(m, t2, q) == 0
            &&& !(present(e4) && present(e3) && present(e2)) && q != idx1(va) ==> slot(m, pt, q)
                == 0
        }),
{
    lemma_idx(va);
    lemma_steps(mem, f, root, va, flags, now);
    let (i4, i3, i2, i1) = (idx4(va), idx3(va), idx2(va), idx1(va));
    let e4 = entry4(mem, root, va);
    let e3 = entry3(mem, root, va);
    let e2 = entry2(mem, root, va);
    let s3 = descend(mem, f, root, i4, 4, flags, now);
    let t3 = s3.next->0;
    let s2 = descend(s3.mem, s3.frames, t3, i3, 3, flags, now);
    let t2 = s2.next->0;
    let s1 = descend(s2.mem, s2.frames, t2, i2, 2, flags, now);
    let pt = s1.next->0;
    let m = after_map(mem, f, root, va, flags, e, now).1;
    lemma_descend(mem, f, root, i4, 4, flags, now);
    lemma_descend(s3.mem, s3.frames, t3, i3, 3, flags, now);
    lemma_descend(s2.mem, s2.frames, t2, i2, 2, flags, now);
    // The entries that were put in place stay.
    lemma_descend_word(s3.mem, s3.frames, t3, i3, 3, flags, now, root, i4);
    lemma_descend_word(s2.mem, s2.frames, t2, i2, 2, flags, now, root, i4);
    lemma_descend_word(s2.mem, s2.frames, t2, i2, 2, flags, now, t3, i3);
    lemma_set_elsewhere(s1.mem, pt, i1, e, root, i4);
    lemma_set_elsewhere(s1.mem, pt, i1, e, t3, i3);
    lemma_set_elsewhere(s1.mem, pt, i1, e, t2, i2);
    assert(entry4(m, root, va) == slot(s3.mem, root, i4));
    assert(entry3(m, root, va) == slot(s2.mem, t3, i3));
    assert(entry2(m, root, va) == slot(s1.mem, t2, i2));
    // A table that was made is empty but for the entry on the way.
    if !present(e4) && q != i3 {
        assert(frame_words(s3.mem, t3)[q] == 0);
        lemma_descend_word(s3.mem, s3.frames, t3, i3, 3, flags, now, t3, q);
        lemma_descend_word(s2.mem, s2.frames, t2, i2, 2, flags, now, t3, q);
        lemma_set_elsewhere(s1.mem, pt, i1, e, t3, q);
    }
    if !(present(e4) && present(e3)) && q != i2 {
        assert(!present(slot(s3.mem, t3, i3)));
        assert(frame_words(s2.mem, t2)[q] == 0);
        lemma_descend_word(s2.mem, s2.frames, t2, i2, 2, flags, now, t2, q);
        lemma_set_elsewhere(s1.mem, pt, i1, e, t2, q);
    }
    if !(present(e4) && present(e3) && present(e2)) && q != i1 {
        assert(!present(slot(s2.mem, t2, i2)));
        assert(frame_words(s1.mem, pt)[q] == 0);
        lemma_apart(pt, pt, q, i1);
    }
}

/// An address that the processor accepts.
pub open spec fn canonical(va: u64) -> bool {
    va < 0x8000_0000_0000 || va >= 0xFFFF_8000_0000_0000
}

/// Addresses below one second-level entry lie in one large page.
proof fn lemma_region(a: u64, b: u64)
    requires
        canonical(a),
        canonical(b),
        idx4(a) == idx4(b),
        idx3(a) == idx3(b),
        idx2(a) == idx2(b),
    ensures
        a as int / 0x20_0000 == b as int / 0x20_0000,
{
    lemma_split(a);
    lemma_split(b);
}

/// The number of a large page, from the entries that lead to it.
proof fn lemma_split(va: u64)
    requires
        canonical(va),
    ensures
        0 <= idx4(va) < 512,
        va as int / 0x20_0000 == ((if idx4(va) < 256 {
            0int
        } else {
            0xFFFF
        }) * 512 + idx4(va)) * 0x4_0000 + idx3(va) * 512 + idx2(va),
{
    let x = va as int;
    lemma_div_denominator(x, 0x20_0000, 512);
    lemma_div_denominator(x, 0x4000_0000, 512);
    lemma_div_denominator(x, 0x80_0000_0000, 512);
    let (q2, q3, q4, q5) = (
        x / 0x20_0000,
        x / 0x4000_0000,
        x / 0x80_0000_0000,
        x / 0x1_0000_0000_0000,
    );
    assert(q2 / 512 == q3 && q3 / 512 == q4 && q4 / 512 == q5);
    assert(q2 == q3 * 512 + idx2(va));
    assert(q3 == q4 * 512 + idx3(va));
    assert(q4 == q5 * 512 + idx4(va));
    assert(q5 == 0 || q5 == 0xFFFF);
    assert(q5 == 0 ==> q4 < 256);
    assert(q5 == 0xFFFF ==> q4 >= 0x1FF_FF00);
}

/// Mapping a page leaves every other page of the address space where it was, where no page of
/// a gigabyte lies on the way to the one that is mapped.
proof fn lemma_map_leaves_other_pages(
    mem: Seq<u64>,
    f: FramesView,
    lab: spec_fn(u64) -> Place,
    root: u64,
    va: u64,
    flags: u64,
    e: u64,
    now: u64,
    other: u64,
)
    requires
        tree_placed(mem, lab, root, 512),
        spare(mem, lab, usable(f, now)),
        path_ok(mem, usable(f, now), root, va),
        no_gib(mem, root, va),
        canonical(va),
        canonical(other),
        !same_page(va, other),
        after_map(mem, f, root, va, flags, e, now).0,
    ensures
        translate(after_map(mem, f, root, va, flags, e, now).1, root, other) == translate(
            mem,
            root,
            other,
        ),
{
    lemma_idx(va);
    lemma_idx(other);
    lemma_leaf_bits(0, 0);
    assert(frames_ok(mem, usable(f, now)));
    if idx4(other) == idx4(va) && idx3(other) == idx3(va) && idx2(other) == idx2(va) {
        lemma_region(va, other);
        let (e4, e3, e2) = (entry4(mem, root, va), entry3(mem, root, va), entry2(mem, root, va));
        if present(e4) && present(e3) && present(e2) {
            law_map_leaves_neighbours(mem, f, root, va, flags, e, now, other);
        } else {
            lemma_map_way(mem, f, root, va, flags, e, now, idx1(other));
        }
    } else {
        lemma_other_way(mem, f, lab, root, va, flags, e, now, other);
    }
}

/// The way to a page that is not below the same second-level entry.
proof fn lemma_other_way(
    mem: Seq<u64>,
    f: FramesView,
    lab: spec_fn(u64) -> Place,
    root: u64,
    va: u64,
    flags: u64,
    e: u64,
    now: u64,
    other: u64,
)
    requires
        tree_placed(mem, lab, root, 512),
        spare(mem, lab, usable(f, now)),
        frames_ok(mem, usable(f, now)),
        path_ok(mem, usable(f, now), root, va),
        no_gib(mem, root, va),
        !(idx4(other) == idx4(va) && idx3(other) == idx3(va) && idx2(other) == idx2(va)),
        after_map(mem, f, root, va, flags, e, now).0,
    ensures
        translate(after_map(mem, f, root, va, flags, e, now).1, root, other) == translate(
            mem,
            root,
            other,
        ),
{
    let (i, j, k) = (idx4(other), idx3(other), idx2(other));
    lemma_idx(va);
    lemma_idx(other);
    lemma_leaf_bits(0, 0);
    let (e4, e3) = (entry4(mem, root, va), entry3(mem, root, va));
    if present(e4) {
        assert(pdpt_placed(mem, lab, e4 & ADDR_MASK, idx4(va)));
        if leads(e3) {
            assert(pd_placed(mem, lab, e3 & ADDR_MASK, idx4(va), idx3(va)));
        }
    }
    let d4 = entry4(mem, root, other);
    if i == idx4(va) && !present(e4) {
        lemma_map_way(mem, f, root, va, flags, e, now, j);
        lemma_map_way(mem, f, root, va, flags, e, now, k);
    } else {
        if i == idx4(va) {
            lemma_map_way(mem, f, root, va, flags, e, now, k);
        } else {
            lemma_map_word(mem, f, root, va, flags, e, now, root, i);
        }
        if present(d4) {
            let u3 = d4 & ADDR_MASK;
            assert(pdpt_placed(mem, lab, u3, i));
            assert(u3 as int / 4096 * 4096 == u3);
            let d3 = entry3(mem, root, other);
            if i == idx4(va) && j == idx3(va) {
                if present(e3) {
                    lemma_rest_of_way(mem, f, lab, root, va, flags, e, now, other);
                }
            } else {
                lemma_map_word(mem, f, root, va, flags, e, now, u3, j);
                if leads(d3) {
                    lemma_rest_of_way(mem, f, lab, root, va, flags, e, now, other);
                }
            }
        }
    }
}

/// The last two entries on the way to a page that is not below the same second-level entry.
proof fn lemma_rest_of_way(
    mem: Seq<u64>,
    f: FramesView,
    lab: spec_fn(u64) -> Place,
    root: u64,
    va: u64,
    flags: u64,
    e: u64,
    now: u64,
    other: u64,
)
    requires
        tree_placed(mem, lab, root, 512),
        spare(mem, lab, usable(f, now)),
        frames_ok(mem, usable(f, now)),
        path_ok(mem, usable(f, now), root, va),
        no_gib(mem, root, va),
        !(idx4(other) == idx4(va) && idx3(other) == idx3(va) && idx2(other) == idx2(va)),
        after_map(mem, f, root, va, flags, e, now).0,
        present(entry4(mem, root, other)),
        leads(entry3(mem, root, other)),
    ensures
        ({
            let m = after_map(mem, f, root, va, flags, e, now).1;
            let u2 = entry3(mem, root, other) & ADDR_MASK;
            let d2 = entry2(mem, root, other);
            let u1 = d2 & ADDR_MASK;
            &&& slot(m, u2, idx2(other)) == d2
            &&& leads(d2) ==> slot(m, u1, idx1(other)) == slot(mem, u1, idx1(other))
        }),
{
    let (i, j, k, l) = (idx4(other), idx3(other), idx2(other), idx1(other));
    lemma_idx(va);
    lemma_idx(other);
    let (e4, e3) = (entry4(mem, root, va), entry3(mem, root, va));
    if present(e4) {
        assert(pdpt_placed(mem, lab, e4 & ADDR_MASK, idx4(va)));
        if leads(e3) {
            assert(pd_placed(mem, lab, e3 & ADDR_MASK, idx4(va), idx3(va)));
        }
    }
    let u3 = entry4(mem, root, other) & ADDR_MASK;
    assert(pdpt_placed(mem, lab, u3, i));
    let u2 = entry3(mem, root, other) & ADDR_MASK;
    assert(pd_placed(mem, lab, u2, i, j));
    assert(u2 as int / 4096 * 4096 == u2);
    lemma_map_word(mem, f, root, va, flags, e, now, u2, k);
    let d2 = entry2(mem, root, other);
    if leads(d2) {
        let u1 = d2 & ADDR_MASK;
        assert(u1 as int / 4096 * 4096 == u1);
        lemma_map_word(mem, f, root, va, flags, e, now, u1, l);
    }
}

/// The tables of an address space, one more among them.
spec fn with_second(lab: spec_fn(u64) -> Place, t: u64, i: int, j: int) -> spec_fn(u64) -> Place {
    |x: u64|
        if x == t {
            Place::Second(i, j)
        } else {
            lab(x)
        }
}

/// A second-level table stays placed beside a new one while its entries do.
proof fn lemma_pd_beside(
    mem: Seq<u64>,
    m: Seq<u64>,
    lab: spec_fn(u64) -> Place,
    t: u64,
    a: int,
    b: int,
    pd: u64,
    i: int,
    j: int,
)
    requires
        pd_placed(mem, lab, pd, i, j),
        lab(t) is Elsewhere,
        m.len() == mem.len(),
        forall|k: int| 0 <= k < 512 ==> #[trigger] slot(m, pd, k) == slot(mem, pd, k),
    ensures
        pd_placed(m, with_second(lab, t, a, b), pd, i, j),
{
}

/// The page of a gigabyte on the way to `va` was split: the state after the steps at the root
/// and at the third level.
pub open spec fn gib_split(
    mem: Seq<u64>,
    f: FramesView,
    root: u64,
    va: u64,
    flags: u64,
    now: u64,
) -> Step {
    let s3 = descend(mem, f, root, idx4(va), 4, flags, now);
    descend(s3.mem, s3.frames, s3.next->0, idx3(va), 3, flags, now)
}

/// The tables are in places of their own, none of them is up for allocation, and a page of a
/// gigabyte lies on the way to `va`, for whose parts there is a frame.
pub open spec fn gib_way(
    mem: Seq<u64>,
    f: FramesView,
    lab: spec_fn(u64) -> Place,
    root: u64,
    va: u64,
    flags: u64,
    now: u64,
) -> bool {
    &&& tree_placed(mem, lab, root, 512)
    &&& spare(mem, lab, usable(f, now))
    &&& path_ok(mem, usable(f, now), root, va)
    &&& present(entry4(mem, root, va))
    &&& present(entry3(mem, root, va))
    &&& huge(entry3(mem, root, va))
    &&& descend(mem, f, root, idx4(va), 4, flags, now).next is Some
    &&& gib_split(mem, f, root, va, flags, now).next is Some
}

/// What the split changes: two entries, and a frame that was free.
proof fn lemma_gib_words(
    mem: Seq<u64>,
    f: FramesView,
    lab: spec_fn(u64) -> Place,
    root: u64,
    va: u64,
    flags: u64,
    now: u64,
)
    requires
        gib_way(mem, f, lab, root, va, flags, now),
    ensures
        ({
            let s = gib_split(mem, f, root, va, flags, now);
            let t3 = entry4(mem, root, va) & ADDR_MASK;
            let t2 = s.next->0;
            let e3 = entry3(mem, root, va);
            &&& s.mem.len() == mem.len()
            &&& present(slot(s.mem, root, idx4(va)))
            &&& slot(s.mem, root, idx4(va)) & ADDR_MASK == t3
            &&& leads(slot(s.mem, t3, idx3(va)))
            &&& slot(s.mem, t3, idx3(va)) & ADDR_MASK == t2
            &&& forall|k: int|
                0 <= k < 512 ==> #[trigger] slot(s.mem, t2, k) == split_table(e3, 3)[k]
            &&& usable(f, now).contains(t2 as int / 4096)
            &&& sound(s.mem, t2)
            &&& lab(t2) is Elsewhere
            &&& usable(s.frames, now).subset_of(usable(f, now))
            &&& table_ok(s.mem, usable(s.frames, now), root)
            &&& table_ok(s.mem, usable(s.frames, now), t3)
            &&& table_ok(s.mem, usable(s.frames, now), t2)
            &&& t2 != root && t2 != t3 && t3 != root
            &&& forall|x: u64, q: int|
                0 <= q < 512 && x % 4096 == 0 && !usable(f, now).contains(x as int / 4096) && !(x
                    == root && q == idx4(va)) && !(x == t3 && q == idx3(va)) ==> #[trigger] slot(
                    s.mem,
                    x,
                    q,
                ) == slot(mem, x, q)
        }),
{
    let (i4, i3) = (idx4(va), idx3(va));
    lemma_idx(va);
    assert(frames_ok(mem, usable(f, now)));
    let t3 = entry4(mem, root, va) & ADDR_MASK;
    let e3 = entry3(mem, root, va);
    let s3 = descend(mem, f, root, i4, 4, flags, now);
    lemma_descend(mem, f, root, i4, 4, flags, now);
    lemma_descend_target(mem, f, root, i4, 4, flags, now, root);
    lemma_descend_keeps(mem, f, root, i4, 4, flags, now, t3, i3);
    assert(s3.next == Some(t3));
    let s = descend(s3.mem, s3.frames, t3, i3, 3, flags, now);
    let t2 = s.next->0;
    lemma_descend(s3.mem, s3.frames, t3, i3, 3, flags, now);
    lemma_descend_target(s3.mem, s3.frames, t3, i3, 3, flags, now, t3);
    lemma_descend_target(s3.mem, s3.frames, t3, i3, 3, flags, now, root);
    lemma_descend_word(s3.mem, s3.frames, t3, i3, 3, flags, now, root, i4);
    assert forall|k: int| 0 <= k < 512 implies #[trigger] slot(s.mem, t2, k) == split_table(
        e3,
        3,
    )[k] by {
        assert(frame_words(s.mem, t2)[k] == split_table(e3, 3)[k]);
    }
    assert(t2 as int / 4096 * 4096 == t2);
    assert forall|x: u64, q: int|
        0 <= q < 512 && x % 4096 == 0 && !usable(f, now).contains(x as int / 4096) && !(x == root
            && q == i4) && !(x == t3 && q == i3) implies #[trigger] slot(s.mem, x, q) == slot(
        mem,
        x,
        q,
    ) by {
        lemma_descend_word(mem, f, root, i4, 4, flags, now, x, q);
        lemma_descend_word(s3.mem, s3.frames, t3, i3, 3, flags, now, x, q);
    }
}

/// The tables stay in places of their own when a page of a gigabyte is split.
proof fn lemma_gib_tree(
    mem: Seq<u64>,
    f: FramesView,
    lab: spec_fn(u64) -> Place,
    root: u64,
    va: u64,
    flags: u64,
    now: u64,
)
    requires
        gib_way(mem, f, lab, root, va, flags, now),
    ensures
        ({
            let s = gib_split(mem, f, root, va, flags, now);
            let lab2 = with_second(lab, s.next->0, idx4(va), idx3(va));
            &&& tree_placed(s.mem, lab2, root, 512)
            &&& spare(s.mem, lab2, usable(s.frames, now))
            &&& path_ok(s.mem, usable(s.frames, now), root, va)
            &&& no_gib(s.mem, root, va)
        }),
{
    let (a, b) = (idx4(va), idx3(va));
    let s = gib_split(mem, f, root, va, flags, now);
    let t3 = entry4(mem, root, va) & ADDR_MASK;
    let t2 = s.next->0;
    let e3 = entry3(mem, root, va);
    let lab2 = with_second(lab, t2, a, b);
    lemma_idx(va);
    lemma_gib_words(mem, f, lab, root, va, flags, now);
    assert(pdpt_placed(mem, lab, t3, a));
    assert(root as int / 4096 * 4096 == root);
    assert(t2 as int / 4096 * 4096 == t2);
    assert forall|k: int| 0 <= k < 512 implies !leads(#[trigger] slot(s.mem, t2, k)) by {
        lemma_gib_part(e3, k);
    }
    lemma_gib_part(e3, idx2(va));
    assert(pd_placed(s.mem, lab2, t2, a, b));
    assert forall|i: int| 0 <= i < 512 && present(#[trigger] slot(s.mem, root, i)) implies pdpt_placed(
        s.mem,
        lab2,
        slot(s.mem, root, i) & ADDR_MASK,
        i,
    ) by {
        let t = slot(mem, root, i) & ADDR_MASK;
        assert(slot(s.mem, root, i) & ADDR_MASK == t);
        assert(present(slot(mem, root, i)));
        assert(pdpt_placed(mem, lab, t, i));
        assert(t as int / 4096 * 4096 == t);
        assert(i != a ==> t != t3);
        assert forall|j: int| 0 <= j < 512 && leads(#[trigger] slot(s.mem, t, j)) implies pd_placed(
            s.mem,
            lab2,
            slot(s.mem, t, j) & ADDR_MASK,
            i,
            j,
        ) by {
            if !(i == a && j == b) {
                assert(slot(s.mem, t, j) == slot(mem, t, j));
                let pd = slot(mem, t, j) & ADDR_MASK;
                assert(pd_placed(mem, lab, pd, i, j));
                assert(pd as int / 4096 * 4096 == pd);
                assert(lab(pd) == Place::Second(i, j));
                lemma_pd_beside(mem, s.mem, lab, t2, a, b, pd, i, j);
            }
        }
    }
    assert forall|p: int| #[trigger] usable(s.frames, now).contains(p) implies 0 <= p < 0x10_0000
        && p * 512 + 512 <= s.mem.len() && lab2((p * 4096) as u64) is Elsewhere by {
        assert(usable(f, now).contains(p));
        assert((p * 4096) as u64 as int / 4096 == p);
    }
}

proof fn lemma_within_gib(x: int)
    ensures
        x / 0x20_0000 % 512 * 0x20_0000 + x % 0x20_0000 == x % 0x4000_0000,
{
}

/// Splitting a page of a gigabyte into pages of 2 MiB moves nothing: every address of the
/// address space leads to the same memory, and may be written to as before.
#[verifier::spinoff_prover]
#[verifier::rlimit(60)]
pub proof fn law_gib_split_moves_nothing(
    mem: Seq<u64>,
    f: FramesView,
    lab: spec_fn(u64) -> Place,
    root: u64,
    va: u64,
    flags: u64,
    now: u64,
    other: u64,
)
    requires
        gib_way(mem, f, lab, root, va, flags, now),
    ensures
        ({
            let m = gib_split(mem, f, root, va, flags, now).mem;
            &&& translate(m, root, other) == translate(mem, root, other)
            &&& pte(m, root, other) & PAGE_WRITABLE == pte(mem, root, other) & PAGE_WRITABLE
        }),
{
    let (a, b) = (idx4(va), idx3(va));
    let (i, j, k, l) = (idx4(other), idx3(other), idx2(other), idx1(other));
    let s = gib_split(mem, f, root, va, flags, now);
    let t3 = entry4(mem, root, va) & ADDR_MASK;
    let t2 = s.next->0;
    let e3 = entry3(mem, root, va);
    lemma_idx(va);
    lemma_idx(other);
    lemma_gib_words(mem, f, lab, root, va, flags, now);
    assert(pdpt_placed(mem, lab, t3, a));
    assert(root as int / 4096 * 4096 == root);
    let d4 = entry4(mem, root, other);
    if present(d4) {
        let u3 = d4 & ADDR_MASK;
        assert(pdpt_placed(mem, lab, u3, i));
        assert(u3 as int / 4096 * 4096 == u3);
        if i == a && j == b {
            assert(u3 == t3);
            assert(entry3(mem, root, other) == e3);
            assert(entry2(s.mem, root, other) == slot(s.mem, t2, k));
            lemma_gib_part(e3, k);
            assert(k * 0x20_0000 + other % 0x20_0000 == other % 0x4000_0000) by {
                lemma_within_gib(other as int);
            }
        } else {
            assert(i != a ==> u3 != t3);
            let d3 = entry3(mem, root, other);
            assert(slot(s.mem, u3, j) == d3);
            if leads(d3) {
                let u2 = d3 & ADDR_MASK;
                assert(pd_placed(mem, lab, u2, i, j));
                assert(u2 as int / 4096 * 4096 == u2);
                let d2 = entry2(mem, root, other);
                assert(slot(s.mem, u2, k) == d2);
                if leads(d2) {
                    let u1 = d2 & ADDR_MASK;
                    assert(u1 as int / 4096 * 4096 == u1);
                    assert(slot(s.mem, u1, l) == slot(mem, u1, l));
                }
            }
        }
    } else {
        assert(i != a);
        assert(slot(s.mem, root, i) == d4);
    }
}

/// Where a page of a gigabyte is split for it, the page is mapped as it is once the split is
/// done.
proof fn lemma_map_after_split(
    mem: Seq<u64>,
    f: FramesView,
    lab: spec_fn(u64) -> Place,
    root: u64,
    va: u64,
    flags: u64,
    e: u64,
    now: u64,
)
    requires
        gib_way(mem, f, lab, root, va, flags, now),
    ensures
        ({
            let s = gib_split(mem, f, root, va, flags, now);
            after_map(mem, f, root, va, flags, e, now) == after_map(
                s.mem,
                s.frames,
                root,
                va,
                flags,
                e,
                now,
            )
        }),
{
    let (i4, i3) = (idx4(va), idx3(va));
    lemma_idx(va);
    assert(frames_ok(mem, usable(f, now)));
    let t3 = entry4(mem, root, va) & ADDR_MASK;
    let s3 = descend(mem, f, root, i4, 4, flags, now);
    lemma_descend(mem, f, root, i4, 4, flags, now);
    lemma_descend_target(mem, f, root, i4, 4, flags, now, root);
    let s = descend(s3.mem, s3.frames, t3, i3, 3, flags, now);
    lemma_descend_word(s3.mem, s3.frames, t3, i3, 3, flags, now, root, i4);
    lemma_descend_again(mem, f, root, i4, 4, flags, now, s.mem, s.frames);
    lemma_descend_again(s3.mem, s3.frames, t3, i3, 3, flags, now, s.mem, s.frames);
}

/// Mapping a page leaves every other page of the address space where it was, also where a
/// large page is split for it.
///
/// The tables are in places of their own, and none of them is up for allocation.
pub proof fn law_map_leaves_other_pages(
    mem: Seq<u64>,
    f: FramesView,
    lab: spec_fn(u64) -> Place,
    root: u64,
    va: u64,
    flags: u64,
    e: u64,
    now: u64,
    other: u64,
)
    requires
        tree_placed(mem, lab, root, 512),
        spare(mem, lab, usable(f, now)),
        path_ok(mem, usable(f, now), root, va),
        canonical(va),
        canonical(other),
        !same_page(va, other),
        after_map(mem, f, root, va, flags, e, now).0,
    ensures
        translate(after_map(mem, f, root, va, flags, e, now).1, root, other) == translate(
            mem,
            root,
            other,
        ),
{
    if no_gib(mem, root, va) {
        lemma_map_leaves_other_pages(mem, f, lab, root, va, flags, e, now, other);
    } else {
        let s = gib_split(mem, f, root, va, flags, now);
        let lab2 = with_second(lab, s.next->0, idx4(va), idx3(va));
        lemma_gib_tree(mem, f, lab, root, va, flags, now);
        law_gib_split_moves_nothing(mem, f, lab, root, va, flags, now, other);
        lemma_map_after_split(mem, f, lab, root, va, flags, e, now);
        lemma_map_leaves_other_pages(s.mem, s.frames, lab2, root, va, flags, e, now, other);
    }
}

} // verus!
