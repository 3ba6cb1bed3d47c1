//! What the start-up of the page tables promises of the kernel's half.
use vstd::prelude::*;
use crate::mm::physmem::{frame_words, slot, word_at};
use crate::mm::pmm::FramesView;
use crate::mm::vmm::{
    after_extension, after_separation, frames_ok, gib_table, lemma_allocated, lemma_words_apart,
    outside, table_ok, usable, Pass, ADDR_MASK,
};
use crate::mm::vmm_laws::{law_gib_table_maps_its_gib, lemma_entry_arith};

verus! {

proof fn lemma_marked(np: u64, e: u64)
    by (bit_vector)
    requires
        np & 0xFFF == 0,
        np < 0x1_0000_0000,
    ensures
        np | 0x1 | 0x2 == np + 3,
        np | (e & !0x000F_FFFF_FFFF_F000) == np + (e - (e & 0x000F_FFFF_FFFF_F000)),
        (np | (e & !0x000F_FFFF_FFFF_F000)) & 0x000F_FFFF_FFFF_F000 == np,
{
}

proof fn lemma_low(np: u64)
    requires
        np % 4096 == 0,
    ensures
        np & 0xFFF == 0,
{
    crate::mm::vmm::lemma_leaf_bits(np, 0);
}

/// Nothing but the table and frames that were usable is written, and what is handed out is not
/// usable any more.
spec fn only_new(m: Seq<u64>, p: Pass, free: Set<int>, pdpt: u64, now: u64) -> bool {
    &&& p.mem.len() == m.len()
    &&& usable(p.frames, now).subset_of(free)
    &&& forall|k: int|
        0 <= k && outside(k, pdpt) && !(free.contains(k / 512) && !usable(p.frames, now).contains(
            k / 512,
        )) ==> #[trigger] word_at(p.mem, k) == word_at(m, k)
}

/// The table behind entry `k` is a copy of the one that was there.
spec fn separated(m: Seq<u64>, p: Pass, free: Set<int>, pdpt: u64, k: int, now: u64) -> bool {
    let (was, e) = (slot(m, pdpt, k), slot(p.mem, pdpt, k));
    let np = e & ADDR_MASK;
    if was % 2 == 1 && was / 128 % 2 == 0 {
        &&& free.contains(np as int / 4096)
        &&& !usable(p.frames, now).contains(np as int / 4096)
        &&& np % 4096 == 0
        &&& e - np == was - (was & ADDR_MASK)
        &&& frame_words(p.mem, np) == frame_words(m, was & ADDR_MASK)
    } else {
        e == was
    }
}

/// A step that fills frame `np` and writes entry `at` of the table leaves other frames alone.
proof fn lemma_frame_kept(m: Seq<u64>, m2: Seq<u64>, pdpt: u64, np: u64, phys: u64)
    requires
        m2.len() == m.len(),
        phys % 4096 == 0,
        np % 4096 == 0,
        pdpt % 4096 == 0,
        phys != np,
        phys != pdpt,
        forall|k: int|
            0 <= k && outside(k, pdpt) && outside(k, np) ==> #[trigger] word_at(m2, k) == word_at(
                m,
                k,
            ),
    ensures
        frame_words(m2, phys) == frame_words(m, phys),
{
    assert forall|i: int| 0 <= i < 512 implies slot(m2, phys, i) == #[trigger] slot(m, phys, i) by {
        lemma_words_apart(phys, pdpt, i, 0);
        lemma_words_apart(phys, np, i, 0);
    }
    assert(frame_words(m2, phys) =~= frame_words(m, phys));
}

proof fn lemma_page_of_word(k: int, phys: u64)
    requires
        phys % 4096 == 0,
        0 <= k,
        k / 512 != phys as int / 4096,
    ensures
        outside(k, phys),
{
}

proof fn lemma_separation(mem: Seq<u64>, f: FramesView, pdpt: u64, n: nat, now: u64)
    requires
        n <= 512,
        table_ok(mem, usable(f, now), pdpt),
        frames_ok(mem, usable(f, now)),
        forall|k: int|
            0 <= k < 512 && (#[trigger] slot(mem, pdpt, k)) % 2 == 1 && slot(mem, pdpt, k) / 128 % 2
                == 0 ==> table_ok(mem, usable(f, now), slot(mem, pdpt, k) & ADDR_MASK) && slot(
                mem,
                pdpt,
                k,
            ) & ADDR_MASK != pdpt,
        !after_separation(mem, f, pdpt, n, now).short,
    ensures
        ({
            let p = after_separation(mem, f, pdpt, n, now);
            &&& only_new(mem, p, usable(f, now), pdpt, now)
            &&& forall|k: int|
                0 <= k < n ==> #[trigger] separated(mem, p, usable(f, now), pdpt, k, now)
            &&& forall|k: int| n <= k < 512 ==> #[trigger] slot(p.mem, pdpt, k) == slot(mem, pdpt, k)
        }),
    decreases n,
{
    if n > 0 {
        let free = usable(f, now);
        let q = after_separation(mem, f, pdpt, (n - 1) as nat, now);
        let p = after_separation(mem, f, pdpt, n, now);
        lemma_separation(mem, f, pdpt, (n - 1) as nat, now);
        let at = n - 1;
        let e = slot(q.mem, pdpt, at);
        assert(e == slot(mem, pdpt, at));
        lemma_entry_arith(e);
        if e % 2 == 1 && e / 128 % 2 == 0 {
            lemma_allocated(q.frames, now);
            let np = q.frames.allocated(now).0->0;
            let src = e & ADDR_MASK;
            lemma_low(np);
            lemma_marked(np, e);
            assert(free.contains(np as int / 4096));
            assert(np as int / 8 + 512 <= mem.len());
            assert forall|k: int|
                0 <= k && outside(k, pdpt) && outside(k, np) implies #[trigger] word_at(p.mem, k)
                == word_at(q.mem, k) by {}
            assert(frame_words(q.mem, src) == frame_words(mem, src)) by {
                assert forall|i: int| 0 <= i < 512 implies slot(q.mem, src, i) == #[trigger] slot(
                    mem,
                    src,
                    i,
                ) by {
                    lemma_words_apart(src, pdpt, i, 0);
                    assert((src as int / 8 + i) / 512 == src as int / 4096);
                    assert(word_at(q.mem, src as int / 8 + i) == word_at(mem, src as int / 8 + i));
                }
                assert(frame_words(q.mem, src) =~= frame_words(mem, src));
            }
            let copy = frame_words(q.mem, src);
            assert(frame_words(p.mem, np) =~= copy) by {
                assert forall|i: int| 0 <= i < 512 implies slot(p.mem, np, i) == #[trigger] copy[i] by {
                    lemma_words_apart(np, pdpt, i, at);
                }
            }
            assert forall|k: int| 0 <= k < n implies #[trigger] separated(
                mem,
                p,
                free,
                pdpt,
                k,
                now,
            ) by {
                if k < at {
                    assert(separated(mem, q, free, pdpt, k, now));
                    lemma_words_apart(pdpt, np, k, 0);
                    let was = slot(mem, pdpt, k);
                    if was % 2 == 1 && was / 128 % 2 == 0 {
                        let old_np = slot(q.mem, pdpt, k) & ADDR_MASK;
                        lemma_frame_kept(q.mem, p.mem, pdpt, np, old_np);
                    }
                } else {
                    lemma_words_apart(pdpt, np, k, 0);
                }
            }
            assert forall|k: int| n <= k < 512 implies #[trigger] slot(p.mem, pdpt, k) == slot(
                mem,
                pdpt,
                k,
            ) by {
                lemma_words_apart(pdpt, np, k, 0);
                assert(slot(q.mem, pdpt, k) == slot(mem, pdpt, k));
            }
            assert(only_new(mem, p, free, pdpt, now)) by {
                assert forall|k: int|
                    0 <= k && outside(k, pdpt) && !(free.contains(k / 512) && !usable(
                        p.frames,
                        now,
                    ).contains(k / 512)) implies #[trigger] word_at(p.mem, k) == word_at(mem, k) by {
                    lemma_page_of_word(k, np);
                    assert(word_at(q.mem, k) == word_at(mem, k));
                }
            }
        } else {
            assert forall|k: int| 0 <= k < n implies #[trigger] separated(
                mem,
                p,
                free,
                pdpt,
                k,
                now,
            ) by {
                if k < at {
                    assert(separated(mem, q, free, pdpt, k, now));
                }
            }
        }
    }
}

/// The pass over the kernel's half gives every table of 2 MiB pages a copy of its own, with the
/// same entries and under the same flags; entries of large pages and empty ones stay.
pub proof fn law_separated_tables_are_copies(
    mem: Seq<u64>,
    f: FramesView,
    pdpt: u64,
    now: u64,
    k: int,
)
    requires
        0 <= k < 512,
        table_ok(mem, usable(f, now), pdpt),
        frames_ok(mem, usable(f, now)),
        forall|j: int|
            0 <= j < 512 && (#[trigger] slot(mem, pdpt, j)) % 2 == 1 && slot(mem, pdpt, j) / 128 % 2
                == 0 ==> table_ok(mem, usable(f, now), slot(mem, pdpt, j) & ADDR_MASK) && slot(
                mem,
                pdpt,
                j,
            ) & ADDR_MASK != pdpt,
        !after_separation(mem, f, pdpt, 512, now).short,
    ensures
        ({
            let m = after_separation(mem, f, pdpt, 512, now).mem;
            let (was, e) = (slot(mem, pdpt, k), slot(m, pdpt, k));
            let (t, u) = (was & ADDR_MASK, e & ADDR_MASK);
            &&& was % 2 == 0 || was / 128 % 2 == 1 ==> e == was
            &&& was % 2 == 1 && was / 128 % 2 == 0 ==> {
                &&& usable(f, now).contains(u as int / 4096)
                &&& e - u == was - t
                &&& forall|i: int| 0 <= i < 512 ==> #[trigger] slot(m, u, i) == slot(mem, t, i)
            }
        }),
{
    lemma_separation(mem, f, pdpt, 512, now);
    let p = after_separation(mem, f, pdpt, 512, now);
    assert(separated(mem, p, usable(f, now), pdpt, k, now));
    let (was, e) = (slot(mem, pdpt, k), slot(p.mem, pdpt, k));
    let (t, u) = (was & ADDR_MASK, e & ADDR_MASK);
    if was % 2 == 1 && was / 128 % 2 == 0 {
        assert forall|i: int| 0 <= i < 512 implies #[trigger] slot(p.mem, u, i) == slot(mem, t, i) by {
            assert(frame_words(p.mem, u)[i] == frame_words(mem, t)[i]);
        }
    }
}

/// Entry `k` leads to a table that maps the GiB, or is what it was.
spec fn extended(m: Seq<u64>, p: Pass, free: Set<int>, pdpt: u64, k: int, now: u64) -> bool {
    let (was, e) = (slot(m, pdpt, k), slot(p.mem, pdpt, k));
    let np = (e - 3) as u64;
    if was % 2 == 0 {
        &&& e >= 3
        &&& np % 4096 == 0
        &&& free.contains(np as int / 4096)
        &&& !usable(p.frames, now).contains(np as int / 4096)
        &&& frame_words(p.mem, np) == gib_table(k)
    } else {
        e == was
    }
}

proof fn lemma_extension(mem: Seq<u64>, f: FramesView, pdpt: u64, n: nat, now: u64)
    requires
        1 <= n <= 4,
        table_ok(mem, usable(f, now), pdpt),
        frames_ok(mem, usable(f, now)),
        !after_extension(mem, f, pdpt, n, now).short,
    ensures
        ({
            let p = after_extension(mem, f, pdpt, n, now);
            &&& only_new(mem, p, usable(f, now), pdpt, now)
            &&& slot(p.mem, pdpt, 0) == slot(mem, pdpt, 0)
            &&& forall|k: int|
                1 <= k < n ==> #[trigger] extended(mem, p, usable(f, now), pdpt, k, now)
            &&& forall|k: int| n <= k < 512 ==> #[trigger] slot(p.mem, pdpt, k) == slot(mem, pdpt, k)
        }),
    decreases n,
{
    if n > 1 {
        let free = usable(f, now);
        let q = after_extension(mem, f, pdpt, (n - 1) as nat, now);
        let p = after_extension(mem, f, pdpt, n, now);
        let at = n - 1;
        lemma_extension_short(mem, f, pdpt, n, now);
        lemma_extension(mem, f, pdpt, (n - 1) as nat, now);
        let e = slot(q.mem, pdpt, at);
        assert(e == slot(mem, pdpt, at));
        lemma_entry_arith(e);
        if e % 2 == 0 {
            lemma_allocated(q.frames, now);
            let np = q.frames.allocated(now).0->0;
            lemma_low(np);
            lemma_marked(np, e);
            assert(free.contains(np as int / 4096));
            assert(np as int / 8 + 512 <= mem.len());
            assert forall|k: int|
                0 <= k && outside(k, pdpt) && outside(k, np) implies #[trigger] word_at(p.mem, k)
                == word_at(q.mem, k) by {}
            let table = gib_table(at);
            assert(frame_words(p.mem, np) =~= table) by {
                assert forall|i: int| 0 <= i < 512 implies slot(p.mem, np, i) == #[trigger] table[i] by {
                    lemma_words_apart(np, pdpt, i, at);
                }
            }
            assert(slot(p.mem, pdpt, at) == np + 3);
            assert forall|k: int| 1 <= k < n implies #[trigger] extended(
                mem,
                p,
                free,
                pdpt,
                k,
                now,
            ) by {
                if k < at {
                    assert(extended(mem, q, free, pdpt, k, now));
                    lemma_words_apart(pdpt, np, k, 0);
                    if slot(mem, pdpt, k) % 2 == 0 {
                        let old_np = (slot(q.mem, pdpt, k) - 3) as u64;
                        lemma_frame_kept(q.mem, p.mem, pdpt, np, old_np);
                    }
                }
            }
            lemma_words_apart(pdpt, np, 0, 0);
            assert forall|k: int| n <= k < 512 implies #[trigger] slot(p.mem, pdpt, k) == slot(
                mem,
                pdpt,
                k,
            ) by {
                lemma_words_apart(pdpt, np, k, 0);
                assert(slot(q.mem, pdpt, k) == slot(mem, pdpt, k));
            }
            assert(only_new(mem, p, free, pdpt, now)) by {
                assert forall|k: int|
                    0 <= k && outside(k, pdpt) && !(free.contains(k / 512) && !usable(
                        p.frames,
                        now,
                    ).contains(k / 512)) implies #[trigger] word_at(p.mem, k) == word_at(mem, k) by {
                    lemma_page_of_word(k, np);
                    assert(word_at(q.mem, k) == word_at(mem, k));
                }
            }
        } else {
            assert forall|k: int| 1 <= k < n implies #[trigger] extended(
                mem,
                p,
                free,
                pdpt,
                k,
                now,
            ) by {
                if k < at {
                    assert(extended(mem, q, free, pdpt, k, now));
                }
            }
        }
    }
}

/// A pass that did not run short ran short nowhere on the way.
proof fn lemma_extension_short(mem: Seq<u64>, f: FramesView, pdpt: u64, n: nat, now: u64)
    requires
        n > 1,
        !after_extension(mem, f, pdpt, n, now).short,
    ensures
        !after_extension(mem, f, pdpt, (n - 1) as nat, now).short,
{
}

/// The kernel's half reaches 4 GiB: a GiB above the first that was not mapped is mapped to its
/// own addresses by a table of its own, present and with the right to write; one that was mapped
/// stays as it was.
pub proof fn law_kernel_half_reaches_four_gib(
    mem: Seq<u64>,
    f: FramesView,
    pdpt: u64,
    now: u64,
    gib: int,
    i: int,
)
    requires
        1 <= gib < 4,
        0 <= i < 512,
        table_ok(mem, usable(f, now), pdpt),
        frames_ok(mem, usable(f, now)),
        !after_extension(mem, f, pdpt, 4, now).short,
    ensures
        ({
            let m = after_extension(mem, f, pdpt, 4, now).mem;
            let (was, e) = (slot(mem, pdpt, gib), slot(m, pdpt, gib));
            &&& was % 2 == 1 ==> e == was
            &&& was % 2 == 0 ==> e % 4096 == 3 && slot(m, (e - 3) as u64, i) == gib * 0x4000_0000
                + i * 0x20_0000 + 0x83
            &&& slot(m, pdpt, 0) == slot(mem, pdpt, 0)
        }),
{
    lemma_extension(mem, f, pdpt, 4, now);
    let p = after_extension(mem, f, pdpt, 4, now);
    assert(extended(mem, p, usable(f, now), pdpt, gib, now));
    law_gib_table_maps_its_gib(gib, i);
    let np = (slot(p.mem, pdpt, gib) - 3) as u64;
    if slot(mem, pdpt, gib) % 2 == 0 {
        assert(frame_words(p.mem, np)[i] == slot(p.mem, np, i));
    }
}

} // verus!
