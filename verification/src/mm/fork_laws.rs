//! What a fork promises of a whole address space: the child sees the memory of the
//! parent, and neither can write a private page that both see.  It also says how many frames
//! that takes.
use vstd::prelude::*;
use vstd::set_lib::{lemma_int_range, lemma_len_subset, set_int_range};
use crate::mm::fork::{
    after_fork, child_table, entry_forked, fork_pd, fork_pd_entry, fork_pdpt, fork_pdpt_entry,
    fork_pt, fork_root, fork_root_entry, lemma_fork_pt_entries, tables_of_pd, tables_of_pdpt,
    tables_of_root, va_shared, Fork,
};
use crate::mm::physmem::slot;
use crate::mm::pmm::FramesView;
use crate::mm::tree::{
    leads, lemma_apart, lemma_page_base, lemma_pd_placed_kept, lemma_pdpt_placed_kept, pd_placed,
    pdpt_placed, sound, spare, tree_placed, Place,
};
use crate::mm::vma::{with_new_root, VmArea, MAP_SHARED};
use crate::mm::vma_laws::lemma_prot_bits;
use crate::mm::vmm::{
    entry2, entry3, huge, idx1, idx2, idx3, idx4, lemma_drain_keeps_sweep_tick, lemma_some_choice,
    present, pte, translate, usable, ADDR_MASK, ADDR_MASK_1G, ADDR_MASK_2M, PAGE_WRITABLE,
};

verus! {

/// Allocations go on without a sweep, and only hand out spare frames.
spec fn steady(s: Fork, lab: spec_fn(u64) -> Place, now: u64) -> bool {
    &&& !s.frames.sweep_due(now)
    &&& spare(s.mem, lab, s.frames.pmm.free)
}

/// A table that was made for the child.
spec fn made(s: Fork, lab: spec_fn(u64) -> Place, t: u64) -> bool {
    sound(s.mem, t) && lab(t) is Elsewhere && !s.frames.pmm.free.contains(t as int / 4096)
}

/// A later state: nothing came free, and the memory is as big.
spec fn later(s: Fork, d: Fork) -> bool {
    &&& d.frames.pmm.free.subset_of(s.frames.pmm.free)
    &&& d.mem.len() == s.mem.len()
    &&& d.frames.pins == s.frames.pins
}

/// A frame that is handed out was free, and is not free afterwards.
proof fn lemma_alloc(f: FramesView, now: u64)
    requires
        !f.sweep_due(now),
        forall|p: int| #[trigger] f.pmm.free.contains(p) ==> 0 <= p < 0x10_0000,
    ensures
        ({
            let (page, left) = f.allocated(now);
            &&& left.pins == f.pins
            &&& left.refs == f.refs
            &&& match page {
                None => left.pmm.free == f.pmm.free,
                Some(np) => {
                    &&& np % 4096 == 0
                    &&& np < 0x1_0000_0000
                    &&& f.pmm.free.contains(np as int / 4096)
                    &&& left.pmm.free == f.pmm.free.remove(np as int / 4096)
                },
            }
        }),
{
    if !f.pmm.free.is_empty() {
        lemma_some_choice(f.pmm);
    }
}

proof fn lemma_table_entry(e: u64, np: u64)
    by (bit_vector)
    requires
        np % 4096 == 0,
        np < 0x1_0000_0000,
    ensures
        (np | (e & !0x000F_FFFF_FFFF_F000)) & 0x000F_FFFF_FFFF_F000 == np,
        (np | (e & !0x000F_FFFF_FFFF_F000)) & 0x1 == e & 0x1,
        (np | (e & !0x000F_FFFF_FFFF_F000)) & 0x80 == e & 0x80,
        0u64 & 0x1 == 0,
{
}

/// Duplicating a first-level table changes that table and the child's, and no other frame.
proof fn lemma_pt_frame(
    s: Fork,
    areas: Seq<VmArea>,
    ppt: u64,
    cpt: u64,
    va: int,
    n: nat,
    x: u64,
    l: int,
)
    requires
        n <= 512,
        ppt % 4096 == 0,
        cpt % 4096 == 0,
        x % 4096 == 0,
        0 <= l < 512,
    ensures
        ({
            let d = fork_pt(s, areas, ppt, cpt, va, n);
            &&& d.mem.len() == s.mem.len()
            &&& d.frames.pmm == s.frames.pmm
            &&& d.frames.pins == s.frames.pins
            &&& d.ok == s.ok
            &&& x != ppt && x != cpt ==> slot(d.mem, x, l) == slot(s.mem, x, l)
        }),
    decreases n,
{
    if n > 0 {
        lemma_pt_frame(s, areas, ppt, cpt, va, (n - 1) as nat, x, l);
        if x != ppt && x != cpt {
            lemma_apart(x, ppt, l, n - 1);
            lemma_apart(x, cpt, l, n - 1);
        }
    }
}

/// Making a table for the child in a frame changes that frame and one entry.
proof fn lemma_child_table(s: Fork, table: u64, m: int, e: u64, np: u64, x: u64, l: int)
    requires
        sound(s.mem, table),
        sound(s.mem, np),
        np < 0x1_0000_0000,
        table != np,
        0 <= m < 512,
        0 <= l < 512,
        x % 4096 == 0,
    ensures
        ({
            let mem = child_table(s, table, m, e, np);
            let c = slot(mem, table, m);
            &&& mem.len() == s.mem.len()
            &&& c & ADDR_MASK == np
            &&& present(c) == present(e)
            &&& huge(c) == huge(e)
            &&& x != np && (x != table || l != m) ==> slot(mem, x, l) == slot(s.mem, x, l)
            &&& slot(mem, np, l) == 0
        }),
{
    lemma_table_entry(e, np);
    lemma_apart(np, table, l, m);
    if x != np && (x != table || l != m) {
        lemma_apart(x, np, l, l);
        lemma_apart(x, table, l, m);
    }
}

/// One step at the second level leaves everything alone but the two entries, the tables
/// below them, and frames that were free.
proof fn lemma_pd_step(
    s: Fork,
    lab: spec_fn(u64) -> Place,
    areas: Seq<VmArea>,
    ppd: u64,
    cpd: u64,
    va: int,
    i: int,
    j: int,
    m: int,
    now: u64,
    x: u64,
    l: int,
)
    requires
        steady(s, lab, now),
        0 <= m < 512,
        0 <= l < 512,
        sound(s.mem, ppd),
        lab(ppd) == Place::Second(i, j),
        made(s, lab, cpd),
        leads(slot(s.mem, ppd, m)) ==> {
            let t = slot(s.mem, ppd, m) & ADDR_MASK;
            sound(s.mem, t) && lab(t) == Place::First(i, j, m)
        },
        x % 4096 == 0,
        !s.frames.pmm.free.contains(x as int / 4096),
        x == ppd || x == cpd ==> l != m,
        lab(x) != Place::First(i, j, m),
    ensures
        ({
            let d = fork_pd_entry(s, areas, ppd, cpd, va, m, now);
            &&& steady(d, lab, now)
            &&& later(s, d)
            &&& slot(d.mem, x, l) == slot(s.mem, x, l)
        }),
{
    let e = slot(s.mem, ppd, m);
    lemma_apart(ppd, cpd, m, m);
    lemma_apart(x, ppd, l, m);
    lemma_apart(x, cpd, l, m);
    if leads(e) {
        lemma_alloc(s.frames, now);
        let (page, left) = s.frames.allocated(now);
        if let Some(np) = page {
            lemma_child_table(s, cpd, m, e, np, x, l);
            let t = Fork { mem: child_table(s, cpd, m, e, np), frames: left, ..s };
            let at = va + m * 0x20_0000;
            lemma_pt_frame(t, areas, e & ADDR_MASK, np, at, 512, x, l);
        }
    }
}

/// What is left alone by the first `n` steps at the second level.
spec fn beyond_pd(
    lab: spec_fn(u64) -> Place,
    ppd: u64,
    cpd: u64,
    i: int,
    j: int,
    n: int,
    x: u64,
    l: int,
) -> bool {
    &&& x == ppd || x == cpd ==> l >= n
    &&& match lab(x) {
        Place::First(a, b, m) => !(a == i && b == j && m < n),
        _ => true,
    }
}

/// The first `n` steps at the second level.
proof fn lemma_pd_frame(
    s: Fork,
    lab: spec_fn(u64) -> Place,
    areas: Seq<VmArea>,
    ppd: u64,
    cpd: u64,
    va: int,
    i: int,
    j: int,
    n: nat,
    now: u64,
    x: u64,
    l: int,
)
    requires
        n <= 512,
        0 <= l < 512,
        steady(s, lab, now),
        pd_placed(s.mem, lab, ppd, i, j),
        made(s, lab, cpd),
        x % 4096 == 0,
        !s.frames.pmm.free.contains(x as int / 4096),
        beyond_pd(lab, ppd, cpd, i, j, n as int, x, l),
    ensures
        ({
            let d = fork_pd(s, areas, ppd, cpd, va, n, now);
            &&& steady(d, lab, now)
            &&& later(s, d)
            &&& slot(d.mem, x, l) == slot(s.mem, x, l)
        }),
    decreases n,
{
    if n > 0 {
        let p = fork_pd(s, areas, ppd, cpd, va, (n - 1) as nat, now);
        assert(!s.frames.pmm.free.contains(ppd as int / 4096)) by {
            assert(ppd as int / 4096 * 4096 == ppd);
        }
        lemma_pd_frame(s, lab, areas, ppd, cpd, va, i, j, (n - 1) as nat, now, x, l);
        lemma_pd_frame(s, lab, areas, ppd, cpd, va, i, j, (n - 1) as nat, now, ppd, n - 1);
        if p.ok {
            assert(slot(s.mem, ppd, n - 1) == slot(p.mem, ppd, n - 1));
            lemma_pd_step(p, lab, areas, ppd, cpd, va, i, j, n - 1, now, x, l);
        }
    }
}

/// What became of the way down from entry `k` of the second-level tables to entry `l` of
/// the first-level ones, between two states.
spec fn pd_path(
    s: Fork,
    d: Fork,
    lab: spec_fn(u64) -> Place,
    areas: Seq<VmArea>,
    ppd: u64,
    cpd: u64,
    va: int,
    k: int,
    l: int,
) -> bool {
    let e = slot(s.mem, ppd, k);
    let p = slot(d.mem, ppd, k);
    let c = slot(d.mem, cpd, k);
    let at = va + k * 0x20_0000;
    if !present(e) {
        p == e && !present(c)
    } else if huge(e) {
        large_forked(e, p, c, va_shared(areas, at), ADDR_MASK_2M, BITS_2M)
    } else {
        let t = e & ADDR_MASK;
        let u = c & ADDR_MASK;
        let q = slot(s.mem, t, l);
        &&& p == e
        &&& leads(c)
        &&& made(d, lab, u)
        &&& s.frames.pmm.free.contains(u as int / 4096)
        &&& if present(q) {
            entry_forked(
                q,
                slot(d.mem, t, l),
                slot(d.mem, u, l),
                va_shared(areas, at + l * 0x1000),
            )
        } else {
            slot(d.mem, t, l) == q && !present(slot(d.mem, u, l))
        }
    }
}

/// Bits of the entry of a 2 MiB page that hold its address or its flags.
pub const BITS_2M: u64 = 0xFFFF_FFFF_FFE0_0FFF;

/// Bits of the entry of a 1 GiB page that hold its address or its flags.
pub const BITS_1G: u64 = 0xFFFF_FFFF_C000_0FFF;

/// What becomes of the entry `e` of a large page, and of the child's in its place.
pub open spec fn large_forked(
    e: u64,
    parent: u64,
    child: u64,
    shared: bool,
    mask: u64,
    bits: u64,
) -> bool {
    if shared {
        parent == e && child == e
    } else {
        &&& parent == child
        &&& child & mask == e & mask
        &&& present(child)
        &&& huge(child)
        &&& child & PAGE_WRITABLE == 0
        &&& child == e & bits & !PAGE_WRITABLE
    }
}

proof fn lemma_large_bits(e: u64)
    by (bit_vector)
    ensures
        ((e & 0x000F_FFFF_FFE0_0000) | ((e & !0x000F_FFFF_FFFF_F000) & !0x2)) & 0x2 == 0,
        ((e & 0x000F_FFFF_FFE0_0000) | ((e & !0x000F_FFFF_FFFF_F000) & !0x2)) & 0x1 == e & 0x1,
        ((e & 0x000F_FFFF_FFE0_0000) | ((e & !0x000F_FFFF_FFFF_F000) & !0x2)) & 0x80 == e & 0x80,
        ((e & 0x000F_FFFF_FFE0_0000) | ((e & !0x000F_FFFF_FFFF_F000) & !0x2))
            & 0x000F_FFFF_FFE0_0000 == e & 0x000F_FFFF_FFE0_0000,
        ((e & !0x3FFF_FFFF) | ((e & !0x000F_FFFF_FFFF_F000) & !0x2)) & 0x2 == 0,
        ((e & !0x3FFF_FFFF) | ((e & !0x000F_FFFF_FFFF_F000) & !0x2)) & 0x1 == e & 0x1,
        ((e & !0x3FFF_FFFF) | ((e & !0x000F_FFFF_FFFF_F000) & !0x2)) & 0x80 == e & 0x80,
        ((e & !0x3FFF_FFFF) | ((e & !0x000F_FFFF_FFFF_F000) & !0x2)) & 0x000F_FFFF_C000_0000 == e
            & 0x000F_FFFF_C000_0000,
        ((e & 0x000F_FFFF_FFE0_0000) | ((e & !0x000F_FFFF_FFFF_F000) & !0x2)) == e
            & 0xFFFF_FFFF_FFE0_0FFF & !0x2,
        ((e & !0x3FFF_FFFF) | ((e & !0x000F_FFFF_FFFF_F000) & !0x2)) == e & 0xFFFF_FFFF_C000_0FFF
            & !0x2,
        0u64 & 0x1 == 0,
{
}

/// The way down stays what it became while its entries do.
proof fn lemma_pd_path_kept(
    s: Fork,
    r: Fork,
    p: Fork,
    d: Fork,
    lab: spec_fn(u64) -> Place,
    areas: Seq<VmArea>,
    ppd: u64,
    cpd: u64,
    va: int,
    k: int,
    l: int,
)
    requires
        pd_path(r, p, lab, areas, ppd, cpd, va, k, l),
        later(s, r),
        slot(r.mem, ppd, k) == slot(s.mem, ppd, k),
        later(p, d),
        slot(d.mem, ppd, k) == slot(p.mem, ppd, k),
        slot(d.mem, cpd, k) == slot(p.mem, cpd, k),
        leads(slot(s.mem, ppd, k)) ==> {
            let t = slot(s.mem, ppd, k) & ADDR_MASK;
            let u = slot(p.mem, cpd, k) & ADDR_MASK;
            &&& slot(r.mem, t, l) == slot(s.mem, t, l)
            &&& slot(d.mem, t, l) == slot(p.mem, t, l)
            &&& slot(d.mem, u, l) == slot(p.mem, u, l)
        },
    ensures
        pd_path(s, d, lab, areas, ppd, cpd, va, k, l),
{
}

/// The way down after the step at its own entry.
proof fn lemma_pd_path_step(
    s: Fork,
    lab: spec_fn(u64) -> Place,
    areas: Seq<VmArea>,
    ppd: u64,
    cpd: u64,
    va: int,
    i: int,
    j: int,
    k: int,
    l: int,
    now: u64,
)
    requires
        steady(s, lab, now),
        0 <= k < 512,
        0 <= l < 512,
        sound(s.mem, ppd),
        lab(ppd) == Place::Second(i, j),
        leads(slot(s.mem, ppd, k)) ==> {
            let t = slot(s.mem, ppd, k) & ADDR_MASK;
            sound(s.mem, t) && lab(t) == Place::First(i, j, k)
        },
        made(s, lab, cpd),
        !present(slot(s.mem, cpd, k)),
        fork_pd_entry(s, areas, ppd, cpd, va, k, now).ok,
    ensures
        pd_path(
            s,
            fork_pd_entry(s, areas, ppd, cpd, va, k, now),
            lab,
            areas,
            ppd,
            cpd,
            va,
            k,
            l,
        ),
{
    let e = slot(s.mem, ppd, k);
    lemma_apart(ppd, cpd, k, k);
    if present(e) && huge(e) {
        lemma_large_bits(e);
    } else if leads(e) {
        lemma_alloc(s.frames, now);
        let (page, left) = s.frames.allocated(now);
        let np = page->0;
        let t = e & ADDR_MASK;
        let at = va + k * 0x20_0000;
        let f = Fork { mem: child_table(s, cpd, k, e, np), frames: left, ..s };
        assert(t as int / 4096 * 4096 == t);
        assert(ppd as int / 4096 * 4096 == ppd);
        lemma_child_table(s, cpd, k, e, np, t, l);
        lemma_child_table(s, cpd, k, e, np, ppd, k);
        lemma_fork_pt_entries(f, areas, t, np, at, 512, l);
        lemma_pt_frame(f, areas, t, np, at, 512, ppd, k);
        lemma_pt_frame(f, areas, t, np, at, 512, cpd, k);
        lemma_large_bits(0);
    }
}

/// The way down after the first `n` steps, the one at its own entry among them.
proof fn lemma_pd_path(
    s: Fork,
    lab: spec_fn(u64) -> Place,
    areas: Seq<VmArea>,
    ppd: u64,
    cpd: u64,
    va: int,
    i: int,
    j: int,
    n: nat,
    k: int,
    l: int,
    now: u64,
)
    requires
        n <= 512,
        0 <= k < n,
        0 <= l < 512,
        steady(s, lab, now),
        pd_placed(s.mem, lab, ppd, i, j),
        made(s, lab, cpd),
        !present(slot(s.mem, cpd, k)),
        fork_pd(s, areas, ppd, cpd, va, n, now).ok,
    ensures
        pd_path(
            s,
            fork_pd(s, areas, ppd, cpd, va, n, now),
            lab,
            areas,
            ppd,
            cpd,
            va,
            k,
            l,
        ),
    decreases n,
{
    let m = n - 1;
    let p = fork_pd(s, areas, ppd, cpd, va, m as nat, now);
    let d = fork_pd(s, areas, ppd, cpd, va, n, now);
    assert(p.ok);
    assert(ppd as int / 4096 * 4096 == ppd);
    let t = slot(s.mem, ppd, k) & ADDR_MASK;
    lemma_pd_frame(s, lab, areas, ppd, cpd, va, i, j, m as nat, now, ppd, m);
    lemma_pd_frame(s, lab, areas, ppd, cpd, va, i, j, m as nat, now, cpd, m);
    if m == k {
        if leads(slot(s.mem, ppd, k)) {
            assert(t as int / 4096 * 4096 == t);
            lemma_pd_frame(s, lab, areas, ppd, cpd, va, i, j, m as nat, now, t, l);
        }
        lemma_pd_path_step(p, lab, areas, ppd, cpd, va, i, j, k, l, now);
        lemma_pd_path_kept(s, p, d, d, lab, areas, ppd, cpd, va, k, l);
    } else {
        lemma_pd_path(s, lab, areas, ppd, cpd, va, i, j, m as nat, k, l, now);
        lemma_pd_step(p, lab, areas, ppd, cpd, va, i, j, m, now, ppd, k);
        lemma_pd_step(p, lab, areas, ppd, cpd, va, i, j, m, now, cpd, k);
        if leads(slot(s.mem, ppd, k)) {
            assert(t as int / 4096 * 4096 == t);
            let u = slot(p.mem, cpd, k) & ADDR_MASK;
            lemma_pd_step(p, lab, areas, ppd, cpd, va, i, j, m, now, t, l);
            lemma_pd_step(p, lab, areas, ppd, cpd, va, i, j, m, now, u, l);
        }
        lemma_pd_path_kept(s, s, p, d, lab, areas, ppd, cpd, va, k, l);
    }
}

/// The state in which the tables below entry `m` of the third-level tables are duplicated.
proof fn lemma_below_pdpt(
    s: Fork,
    lab: spec_fn(u64) -> Place,
    cpdpt: u64,
    i: int,
    m: int,
    e: u64,
    now: u64,
)
    requires
        steady(s, lab, now),
        0 <= m < 512,
        made(s, lab, cpdpt),
        pd_placed(s.mem, lab, e & ADDR_MASK, i, m),
        s.frames.allocated(now).0 is Some,
    ensures
        ({
            let np = s.frames.allocated(now).0->0;
            let f = Fork {
                mem: child_table(s, cpdpt, m, e, np),
                frames: s.frames.allocated(now).1,
                ..s
            };
            &&& np % 4096 == 0
            &&& np < 0x1_0000_0000
            &&& s.frames.pmm.free.contains(np as int / 4096)
            &&& sound(s.mem, np)
            &&& np != cpdpt
            &&& steady(f, lab, now)
            &&& later(s, f)
            &&& made(f, lab, np)
            &&& pd_placed(f.mem, lab, e & ADDR_MASK, i, m)
        }),
{
    lemma_alloc(s.frames, now);
    let np = s.frames.allocated(now).0->0;
    let pd = e & ADDR_MASK;
    let mem = child_table(s, cpdpt, m, e, np);
    assert(pd as int / 4096 * 4096 == pd);
    assert(np as int / 4096 * 4096 == np);
    assert forall|k: int| 0 <= k < 512 implies #[trigger] slot(mem, pd, k) == slot(s.mem, pd, k) by {
        lemma_child_table(s, cpdpt, m, e, np, pd, k);
    }
    lemma_child_table(s, cpdpt, m, e, np, pd, 0);
    lemma_pd_placed_kept(s.mem, mem, lab, pd, i, m);
}

/// One step at the third level leaves everything alone but the two entries, the tables
/// below them, and frames that were free.
proof fn lemma_pdpt_step(
    s: Fork,
    lab: spec_fn(u64) -> Place,
    areas: Seq<VmArea>,
    ppdpt: u64,
    cpdpt: u64,
    va: int,
    i: int,
    m: int,
    now: u64,
    x: u64,
    l: int,
)
    requires
        steady(s, lab, now),
        0 <= m < 512,
        0 <= l < 512,
        sound(s.mem, ppdpt),
        lab(ppdpt) == Place::Third(i),
        made(s, lab, cpdpt),
        leads(slot(s.mem, ppdpt, m)) ==> pd_placed(
            s.mem,
            lab,
            slot(s.mem, ppdpt, m) & ADDR_MASK,
            i,
            m,
        ),
        x % 4096 == 0,
        !s.frames.pmm.free.contains(x as int / 4096),
        x == ppdpt || x == cpdpt ==> l != m,
        lab(x) != Place::Second(i, m),
        lab(x) matches Place::First(a, b, _) ==> !(a == i && b == m),
    ensures
        ({
            let d = fork_pdpt_entry(s, areas, ppdpt, cpdpt, va, m, now);
            &&& steady(d, lab, now)
            &&& later(s, d)
            &&& slot(d.mem, x, l) == slot(s.mem, x, l)
        }),
{
    let e = slot(s.mem, ppdpt, m);
    lemma_apart(ppdpt, cpdpt, m, m);
    lemma_apart(x, ppdpt, l, m);
    lemma_apart(x, cpdpt, l, m);
    if leads(e) {
        lemma_alloc(s.frames, now);
        if let Some(np) = s.frames.allocated(now).0 {
            lemma_below_pdpt(s, lab, cpdpt, i, m, e, now);
            lemma_child_table(s, cpdpt, m, e, np, x, l);
            let f = Fork {
                mem: child_table(s, cpdpt, m, e, np),
                frames: s.frames.allocated(now).1,
                ..s
            };
            let at = va + m * 0x4000_0000;
            lemma_pd_frame(f, lab, areas, e & ADDR_MASK, np, at, i, m, 512, now, x, l);
        }
    }
}

/// What is left alone by the first `n` steps at the third level.
spec fn beyond_pdpt(
    lab: spec_fn(u64) -> Place,
    ppdpt: u64,
    cpdpt: u64,
    i: int,
    n: int,
    x: u64,
    l: int,
) -> bool {
    &&& x == ppdpt || x == cpdpt ==> l >= n
    &&& match lab(x) {
        Place::Second(a, m) => !(a == i && m < n),
        Place::First(a, m, _) => !(a == i && m < n),
        _ => true,
    }
}

/// The first `n` steps at the third level.
proof fn lemma_pdpt_frame(
    s: Fork,
    lab: spec_fn(u64) -> Place,
    areas: Seq<VmArea>,
    ppdpt: u64,
    cpdpt: u64,
    va: int,
    i: int,
    n: nat,
    now: u64,
    x: u64,
    l: int,
)
    requires
        n <= 512,
        0 <= l < 512,
        steady(s, lab, now),
        pdpt_placed(s.mem, lab, ppdpt, i),
        made(s, lab, cpdpt),
        x % 4096 == 0,
        !s.frames.pmm.free.contains(x as int / 4096),
        beyond_pdpt(lab, ppdpt, cpdpt, i, n as int, x, l),
    ensures
        ({
            let d = fork_pdpt(s, areas, ppdpt, cpdpt, va, n, now);
            &&& steady(d, lab, now)
            &&& later(s, d)
            &&& slot(d.mem, x, l) == slot(s.mem, x, l)
        }),
    decreases n, 0int,
{
    if n > 0 {
        let m = n - 1;
        let p = fork_pdpt(s, areas, ppdpt, cpdpt, va, m as nat, now);
        lemma_pdpt_frame(s, lab, areas, ppdpt, cpdpt, va, i, m as nat, now, x, l);
        if p.ok {
            lemma_pdpt_next(s, lab, areas, ppdpt, cpdpt, va, i, m, now);
            lemma_pdpt_step(p, lab, areas, ppdpt, cpdpt, va, i, m, now, x, l);
        }
    }
}

/// When the turn of entry `m` comes, it and the tables below it are as they were.
proof fn lemma_pdpt_next(
    s: Fork,
    lab: spec_fn(u64) -> Place,
    areas: Seq<VmArea>,
    ppdpt: u64,
    cpdpt: u64,
    va: int,
    i: int,
    m: int,
    now: u64,
)
    requires
        0 <= m < 512,
        steady(s, lab, now),
        pdpt_placed(s.mem, lab, ppdpt, i),
        made(s, lab, cpdpt),
    ensures
        ({
            let p = fork_pdpt(s, areas, ppdpt, cpdpt, va, m as nat, now);
            let e = slot(s.mem, ppdpt, m);
            &&& steady(p, lab, now)
            &&& later(s, p)
            &&& made(p, lab, cpdpt)
            &&& slot(p.mem, ppdpt, m) == e
            &&& slot(p.mem, cpdpt, m) == slot(s.mem, cpdpt, m)
            &&& leads(e) ==> pd_placed(p.mem, lab, e & ADDR_MASK, i, m) && forall|k: int|
                0 <= k < 512 ==> #[trigger] slot(p.mem, e & ADDR_MASK, k) == slot(
                    s.mem,
                    e & ADDR_MASK,
                    k,
                )
        }),
    decreases m, 1int,
{
    let p = fork_pdpt(s, areas, ppdpt, cpdpt, va, m as nat, now);
    let e = slot(s.mem, ppdpt, m);
    assert(ppdpt as int / 4096 * 4096 == ppdpt);
    lemma_pdpt_frame(s, lab, areas, ppdpt, cpdpt, va, i, m as nat, now, ppdpt, m);
    lemma_pdpt_frame(s, lab, areas, ppdpt, cpdpt, va, i, m as nat, now, cpdpt, m);
    if leads(e) {
        let pd = e & ADDR_MASK;
        assert(pd as int / 4096 * 4096 == pd);
        assert forall|k: int| 0 <= k < 512 implies #[trigger] slot(p.mem, pd, k) == slot(
            s.mem,
            pd,
            k,
        ) by {
            lemma_pdpt_frame(s, lab, areas, ppdpt, cpdpt, va, i, m as nat, now, pd, k);
        }
        lemma_pd_placed_kept(s.mem, p.mem, lab, pd, i, m);
    }
}

/// What became of the way down from entry `j` of the third-level tables.
spec fn pdpt_path(
    s: Fork,
    d: Fork,
    lab: spec_fn(u64) -> Place,
    areas: Seq<VmArea>,
    ppdpt: u64,
    cpdpt: u64,
    va: int,
    j: int,
    k: int,
    l: int,
) -> bool {
    let e = slot(s.mem, ppdpt, j);
    let p = slot(d.mem, ppdpt, j);
    let c = slot(d.mem, cpdpt, j);
    let at = va + j * 0x4000_0000;
    if !present(e) {
        p == e && !present(c)
    } else if huge(e) {
        large_forked(e, p, c, va_shared(areas, at), ADDR_MASK_1G, BITS_1G)
    } else {
        let u = c & ADDR_MASK;
        &&& p == e
        &&& leads(c)
        &&& made(d, lab, u)
        &&& s.frames.pmm.free.contains(u as int / 4096)
        &&& pd_path(s, d, lab, areas, e & ADDR_MASK, u, at, k, l)
    }
}

/// The way down after the step at its own entry.
proof fn lemma_pdpt_path_step(
    s: Fork,
    lab: spec_fn(u64) -> Place,
    areas: Seq<VmArea>,
    ppdpt: u64,
    cpdpt: u64,
    va: int,
    i: int,
    j: int,
    k: int,
    l: int,
    now: u64,
)
    requires
        steady(s, lab, now),
        0 <= j < 512,
        0 <= k < 512,
        0 <= l < 512,
        sound(s.mem, ppdpt),
        lab(ppdpt) == Place::Third(i),
        leads(slot(s.mem, ppdpt, j)) ==> pd_placed(
            s.mem,
            lab,
            slot(s.mem, ppdpt, j) & ADDR_MASK,
            i,
            j,
        ),
        made(s, lab, cpdpt),
        !present(slot(s.mem, cpdpt, j)),
        fork_pdpt_entry(s, areas, ppdpt, cpdpt, va, j, now).ok,
    ensures
        pdpt_path(
            s,
            fork_pdpt_entry(s, areas, ppdpt, cpdpt, va, j, now),
            lab,
            areas,
            ppdpt,
            cpdpt,
            va,
            j,
            k,
            l,
        ),
{
    let e = slot(s.mem, ppdpt, j);
    let d = fork_pdpt_entry(s, areas, ppdpt, cpdpt, va, j, now);
    lemma_apart(ppdpt, cpdpt, j, j);
    if present(e) && huge(e) {
        lemma_large_bits(e);
    } else if leads(e) {
        lemma_below_pdpt(s, lab, cpdpt, i, j, e, now);
        let np = s.frames.allocated(now).0->0;
        let pd = e & ADDR_MASK;
        let at = va + j * 0x4000_0000;
        let f = Fork {
            mem: child_table(s, cpdpt, j, e, np),
            frames: s.frames.allocated(now).1,
            ..s
        };
        assert(ppdpt as int / 4096 * 4096 == ppdpt);
        assert(pd as int / 4096 * 4096 == pd);
        lemma_child_table(s, cpdpt, j, e, np, pd, k);
        lemma_child_table(s, cpdpt, j, e, np, ppdpt, j);
        lemma_child_table(s, cpdpt, j, e, np, pd, l);
        assert(!present(slot(f.mem, np, k))) by {
            lemma_child_table(s, cpdpt, j, e, np, np, k);
            lemma_large_bits(0);
        }
        lemma_pd_path(f, lab, areas, pd, np, at, i, j, 512, k, l, now);
        lemma_pd_frame(f, lab, areas, pd, np, at, i, j, 512, now, cpdpt, j);
        lemma_pd_frame(f, lab, areas, pd, np, at, i, j, 512, now, ppdpt, j);
        if leads(slot(s.mem, pd, k)) {
            let t = slot(s.mem, pd, k) & ADDR_MASK;
            assert(t as int / 4096 * 4096 == t);
            lemma_child_table(s, cpdpt, j, e, np, t, l);
        }
        lemma_pd_path_kept(s, f, d, d, lab, areas, pd, np, at, k, l);
    }
}

/// The way down after the first `n` steps, the one at its own entry among them.
proof fn lemma_pdpt_path(
    s: Fork,
    lab: spec_fn(u64) -> Place,
    areas: Seq<VmArea>,
    ppdpt: u64,
    cpdpt: u64,
    va: int,
    i: int,
    n: nat,
    j: int,
    k: int,
    l: int,
    now: u64,
)
    requires
        n <= 512,
        0 <= j < n,
        0 <= k < 512,
        0 <= l < 512,
        steady(s, lab, now),
        pdpt_placed(s.mem, lab, ppdpt, i),
        made(s, lab, cpdpt),
        !present(slot(s.mem, cpdpt, j)),
        fork_pdpt(s, areas, ppdpt, cpdpt, va, n, now).ok,
    ensures
        pdpt_path(
            s,
            fork_pdpt(s, areas, ppdpt, cpdpt, va, n, now),
            lab,
            areas,
            ppdpt,
            cpdpt,
            va,
            j,
            k,
            l,
        ),
    decreases n,
{
    let m = n - 1;
    let p = fork_pdpt(s, areas, ppdpt, cpdpt, va, m as nat, now);
    let d = fork_pdpt(s, areas, ppdpt, cpdpt, va, n, now);
    let e = slot(s.mem, ppdpt, j);
    let pd = e & ADDR_MASK;
    let at = va + j * 0x4000_0000;
    assert(p.ok);
    assert(ppdpt as int / 4096 * 4096 == ppdpt);
    lemma_pdpt_next(s, lab, areas, ppdpt, cpdpt, va, i, m, now);
    let t = slot(s.mem, pd, k) & ADDR_MASK;
    if leads(e) {
        assert(pd as int / 4096 * 4096 == pd);
        if leads(slot(s.mem, pd, k)) {
            assert(t as int / 4096 * 4096 == t);
        }
    }
    if m == j {
        lemma_pdpt_path_step(p, lab, areas, ppdpt, cpdpt, va, i, j, k, l, now);
        if leads(e) {
            let u = slot(d.mem, cpdpt, j) & ADDR_MASK;
            if leads(slot(s.mem, pd, k)) {
                lemma_pdpt_frame(s, lab, areas, ppdpt, cpdpt, va, i, m as nat, now, t, l);
            }
            lemma_pd_path_kept(s, p, d, d, lab, areas, pd, u, at, k, l);
        }
    } else {
        lemma_pdpt_path(s, lab, areas, ppdpt, cpdpt, va, i, m as nat, j, k, l, now);
        lemma_pdpt_step(p, lab, areas, ppdpt, cpdpt, va, i, m, now, ppdpt, j);
        lemma_pdpt_step(p, lab, areas, ppdpt, cpdpt, va, i, m, now, cpdpt, j);
        if leads(e) {
            let u = slot(p.mem, cpdpt, j) & ADDR_MASK;
            lemma_pdpt_step(p, lab, areas, ppdpt, cpdpt, va, i, m, now, pd, k);
            lemma_pdpt_step(p, lab, areas, ppdpt, cpdpt, va, i, m, now, u, k);
            if leads(slot(s.mem, pd, k)) {
                let v = slot(p.mem, u, k) & ADDR_MASK;
                lemma_pdpt_step(p, lab, areas, ppdpt, cpdpt, va, i, m, now, t, l);
                lemma_pdpt_step(p, lab, areas, ppdpt, cpdpt, va, i, m, now, v, l);
            }
            lemma_pd_path_kept(s, s, p, d, lab, areas, pd, u, at, k, l);
        }
    }
}

/// The state in which the tables below entry `m` of the roots are duplicated.
proof fn lemma_below_root(
    s: Fork,
    lab: spec_fn(u64) -> Place,
    croot: u64,
    m: int,
    e: u64,
    now: u64,
)
    requires
        steady(s, lab, now),
        0 <= m < 512,
        made(s, lab, croot),
        pdpt_placed(s.mem, lab, e & ADDR_MASK, m),
        s.frames.allocated(now).0 is Some,
    ensures
        ({
            let np = s.frames.allocated(now).0->0;
            let f = Fork {
                mem: child_table(s, croot, m, e, np),
                frames: s.frames.allocated(now).1,
                ..s
            };
            &&& np % 4096 == 0
            &&& np < 0x1_0000_0000
            &&& s.frames.pmm.free.contains(np as int / 4096)
            &&& sound(s.mem, np)
            &&& np != croot
            &&& steady(f, lab, now)
            &&& later(s, f)
            &&& made(f, lab, np)
            &&& pdpt_placed(f.mem, lab, e & ADDR_MASK, m)
        }),
{
    lemma_alloc(s.frames, now);
    let np = s.frames.allocated(now).0->0;
    let pdpt = e & ADDR_MASK;
    let mem = child_table(s, croot, m, e, np);
    assert(pdpt as int / 4096 * 4096 == pdpt);
    assert(np as int / 4096 * 4096 == np);
    assert forall|j: int| 0 <= j < 512 implies #[trigger] slot(mem, pdpt, j) == slot(
        s.mem,
        pdpt,
        j,
    ) by {
        lemma_child_table(s, croot, m, e, np, pdpt, j);
    }
    assert forall|j: int, k: int|
        0 <= j < 512 && 0 <= k < 512 && leads(slot(s.mem, pdpt, j)) implies #[trigger] slot(
        mem,
        slot(s.mem, pdpt, j) & ADDR_MASK,
        k,
    ) == slot(s.mem, slot(s.mem, pdpt, j) & ADDR_MASK, k) by {
        let pd = slot(s.mem, pdpt, j) & ADDR_MASK;
        assert(pd_placed(s.mem, lab, pd, m, j));
        assert(pd as int / 4096 * 4096 == pd);
        lemma_child_table(s, croot, m, e, np, pd, k);
    }
    lemma_child_table(s, croot, m, e, np, pdpt, 0);
    lemma_pdpt_placed_kept(s.mem, mem, lab, pdpt, m);
}

/// One step at the roots leaves everything alone but the child's entry, the tables below
/// the two entries, and frames that were free.
proof fn lemma_root_step(
    s: Fork,
    lab: spec_fn(u64) -> Place,
    areas: Seq<VmArea>,
    proot: u64,
    croot: u64,
    m: int,
    now: u64,
    x: u64,
    l: int,
)
    requires
        steady(s, lab, now),
        0 <= m < 256,
        0 <= l < 512,
        sound(s.mem, proot),
        lab(proot) == Place::Root,
        made(s, lab, croot),
        present(slot(s.mem, proot, m)) ==> pdpt_placed(
            s.mem,
            lab,
            slot(s.mem, proot, m) & ADDR_MASK,
            m,
        ),
        x % 4096 == 0,
        !s.frames.pmm.free.contains(x as int / 4096),
        x == croot ==> l != m,
        match lab(x) {
            Place::Third(a) => a != m,
            Place::Second(a, _) => a != m,
            Place::First(a, _, _) => a != m,
            _ => true,
        },
    ensures
        ({
            let d = fork_root_entry(s, areas, proot, croot, m, now);
            &&& steady(d, lab, now)
            &&& later(s, d)
            &&& slot(d.mem, x, l) == slot(s.mem, x, l)
        }),
{
    let e = slot(s.mem, proot, m);
    if present(e) {
        lemma_alloc(s.frames, now);
        if let Some(np) = s.frames.allocated(now).0 {
            lemma_below_root(s, lab, croot, m, e, now);
            lemma_child_table(s, croot, m, e, np, x, l);
            let f = Fork {
                mem: child_table(s, croot, m, e, np),
                frames: s.frames.allocated(now).1,
                ..s
            };
            let at = m * 0x80_0000_0000;
            lemma_pdpt_frame(f, lab, areas, e & ADDR_MASK, np, at, m, 512, now, x, l);
        }
    }
}

/// What is left alone by the first `n` steps at the roots.
spec fn beyond_root(lab: spec_fn(u64) -> Place, croot: u64, n: int, x: u64, l: int) -> bool {
    &&& x == croot ==> l >= n
    &&& match lab(x) {
        Place::Third(m) => m >= n,
        Place::Second(m, _) => m >= n,
        Place::First(m, _, _) => m >= n,
        _ => true,
    }
}

/// The first `n` steps at the roots.
proof fn lemma_root_frame(
    s: Fork,
    lab: spec_fn(u64) -> Place,
    areas: Seq<VmArea>,
    proot: u64,
    croot: u64,
    n: nat,
    now: u64,
    x: u64,
    l: int,
)
    requires
        n <= 256,
        0 <= l < 512,
        steady(s, lab, now),
        tree_placed(s.mem, lab, proot, 256),
        made(s, lab, croot),
        x % 4096 == 0,
        !s.frames.pmm.free.contains(x as int / 4096),
        beyond_root(lab, croot, n as int, x, l),
    ensures
        ({
            let d = fork_root(s, areas, proot, croot, n, now);
            &&& steady(d, lab, now)
            &&& later(s, d)
            &&& slot(d.mem, x, l) == slot(s.mem, x, l)
        }),
    decreases n, 0int,
{
    if n > 0 {
        let m = n - 1;
        let p = fork_root(s, areas, proot, croot, m as nat, now);
        lemma_root_frame(s, lab, areas, proot, croot, m as nat, now, x, l);
        if p.ok {
            lemma_root_next(s, lab, areas, proot, croot, m, now);
            lemma_root_step(p, lab, areas, proot, croot, m, now, x, l);
        }
    }
}

/// When the turn of entry `m` comes, it and the tables below it are as they were.
proof fn lemma_root_next(
    s: Fork,
    lab: spec_fn(u64) -> Place,
    areas: Seq<VmArea>,
    proot: u64,
    croot: u64,
    m: int,
    now: u64,
)
    requires
        0 <= m < 256,
        steady(s, lab, now),
        tree_placed(s.mem, lab, proot, 256),
        made(s, lab, croot),
    ensures
        ({
            let p = fork_root(s, areas, proot, croot, m as nat, now);
            let e = slot(s.mem, proot, m);
            &&& steady(p, lab, now)
            &&& later(s, p)
            &&& made(p, lab, croot)
            &&& slot(p.mem, proot, m) == e
            &&& slot(p.mem, croot, m) == slot(s.mem, croot, m)
            &&& present(e) ==> pdpt_placed(p.mem, lab, e & ADDR_MASK, m)
        }),
    decreases m, 1int,
{
    let p = fork_root(s, areas, proot, croot, m as nat, now);
    let e = slot(s.mem, proot, m);
    assert(proot as int / 4096 * 4096 == proot);
    lemma_root_frame(s, lab, areas, proot, croot, m as nat, now, proot, m);
    lemma_root_frame(s, lab, areas, proot, croot, m as nat, now, croot, m);
    if present(e) {
        let pdpt = e & ADDR_MASK;
        assert(pdpt as int / 4096 * 4096 == pdpt);
        assert forall|j: int| 0 <= j < 512 implies #[trigger] slot(p.mem, pdpt, j) == slot(
            s.mem,
            pdpt,
            j,
        ) by {
            lemma_root_frame(s, lab, areas, proot, croot, m as nat, now, pdpt, j);
        }
        assert forall|j: int, k: int|
            0 <= j < 512 && 0 <= k < 512 && leads(slot(s.mem, pdpt, j)) implies #[trigger] slot(
            p.mem,
            slot(s.mem, pdpt, j) & ADDR_MASK,
            k,
        ) == slot(s.mem, slot(s.mem, pdpt, j) & ADDR_MASK, k) by {
            let pd = slot(s.mem, pdpt, j) & ADDR_MASK;
            assert(pd_placed(s.mem, lab, pd, m, j));
            assert(pd as int / 4096 * 4096 == pd);
            lemma_root_frame(s, lab, areas, proot, croot, m as nat, now, pd, k);
        }
        lemma_pdpt_placed_kept(s.mem, p.mem, lab, pdpt, m);
    }
}

/// What became of the way down from entry `i` of the roots.
spec fn root_path(
    s: Fork,
    d: Fork,
    lab: spec_fn(u64) -> Place,
    areas: Seq<VmArea>,
    proot: u64,
    croot: u64,
    i: int,
    j: int,
    k: int,
    l: int,
) -> bool {
    let e = slot(s.mem, proot, i);
    let c = slot(d.mem, croot, i);
    &&& slot(d.mem, proot, i) == e
    &&& if !present(e) {
        !present(c)
    } else {
        let u = c & ADDR_MASK;
        &&& present(c)
        &&& made(d, lab, u)
        &&& s.frames.pmm.free.contains(u as int / 4096)
        &&& pdpt_path(s, d, lab, areas, e & ADDR_MASK, u, i * 0x80_0000_0000, j, k, l)
    }
}

/// The entries on the way down from a third-level entry are the same in two states.
spec fn same_way(r: Fork, d: Fork, pdpt: u64, cpdpt: u64, j: int, k: int, l: int) -> bool {
    let e3 = slot(r.mem, pdpt, j);
    let c3 = slot(r.mem, cpdpt, j);
    let e2 = slot(r.mem, e3 & ADDR_MASK, k);
    let c2 = slot(r.mem, c3 & ADDR_MASK, k);
    &&& slot(d.mem, pdpt, j) == e3
    &&& slot(d.mem, cpdpt, j) == c3
    &&& leads(e3) ==> {
        &&& slot(d.mem, e3 & ADDR_MASK, k) == e2
        &&& slot(d.mem, c3 & ADDR_MASK, k) == c2
        &&& leads(e2) ==> {
            &&& slot(d.mem, e2 & ADDR_MASK, l) == slot(r.mem, e2 & ADDR_MASK, l)
            &&& slot(d.mem, c2 & ADDR_MASK, l) == slot(r.mem, c2 & ADDR_MASK, l)
        }
    }
}

/// The way down from a third-level entry stays what it became while its entries do.
proof fn lemma_pdpt_path_kept(
    s: Fork,
    r: Fork,
    p: Fork,
    d: Fork,
    lab: spec_fn(u64) -> Place,
    areas: Seq<VmArea>,
    pdpt: u64,
    cpdpt: u64,
    va: int,
    j: int,
    k: int,
    l: int,
)
    requires
        pdpt_path(r, p, lab, areas, pdpt, cpdpt, va, j, k, l),
        later(s, r),
        same_way(s, r, pdpt, pdpt, j, k, l),
        later(p, d),
        same_way(p, d, pdpt, cpdpt, j, k, l),
    ensures
        pdpt_path(s, d, lab, areas, pdpt, cpdpt, va, j, k, l),
{
    let e = slot(s.mem, pdpt, j);
    if leads(e) {
        let pd = e & ADDR_MASK;
        let u = slot(p.mem, cpdpt, j) & ADDR_MASK;
        let at = va + j * 0x4000_0000;
        lemma_pd_path_kept(s, r, p, d, lab, areas, pd, u, at, k, l);
    }
}

/// The way down after the step at its own entry.
proof fn lemma_root_path_step(
    s: Fork,
    lab: spec_fn(u64) -> Place,
    areas: Seq<VmArea>,
    proot: u64,
    croot: u64,
    i: int,
    j: int,
    k: int,
    l: int,
    now: u64,
)
    requires
        steady(s, lab, now),
        0 <= i < 256,
        0 <= j < 512,
        0 <= k < 512,
        0 <= l < 512,
        sound(s.mem, proot),
        lab(proot) == Place::Root,
        present(slot(s.mem, proot, i)) ==> pdpt_placed(
            s.mem,
            lab,
            slot(s.mem, proot, i) & ADDR_MASK,
            i,
        ),
        made(s, lab, croot),
        !present(slot(s.mem, croot, i)),
        fork_root_entry(s, areas, proot, croot, i, now).ok,
    ensures
        root_path(
            s,
            fork_root_entry(s, areas, proot, croot, i, now),
            lab,
            areas,
            proot,
            croot,
            i,
            j,
            k,
            l,
        ),
{
    let e = slot(s.mem, proot, i);
    let d = fork_root_entry(s, areas, proot, croot, i, now);
    if present(e) {
        lemma_below_root(s, lab, croot, i, e, now);
        let np = s.frames.allocated(now).0->0;
        let pdpt = e & ADDR_MASK;
        let at = i * 0x80_0000_0000;
        let f = Fork {
            mem: child_table(s, croot, i, e, np),
            frames: s.frames.allocated(now).1,
            ..s
        };
        assert(proot as int / 4096 * 4096 == proot);
        assert(pdpt as int / 4096 * 4096 == pdpt);
        lemma_child_table(s, croot, i, e, np, pdpt, j);
        lemma_child_table(s, croot, i, e, np, proot, i);
        assert(!present(slot(f.mem, np, j))) by {
            lemma_child_table(s, croot, i, e, np, np, j);
            lemma_large_bits(0);
        }
        lemma_pdpt_path(f, lab, areas, pdpt, np, at, i, 512, j, k, l, now);
        lemma_pdpt_frame(f, lab, areas, pdpt, np, at, i, 512, now, croot, i);
        lemma_pdpt_frame(f, lab, areas, pdpt, np, at, i, 512, now, proot, i);
        let e3 = slot(s.mem, pdpt, j);
        if leads(e3) {
            let pd = e3 & ADDR_MASK;
            assert(pd_placed(s.mem, lab, pd, i, j));
            assert(pd as int / 4096 * 4096 == pd);
            lemma_child_table(s, croot, i, e, np, pd, k);
            let e2 = slot(s.mem, pd, k);
            if leads(e2) {
                let t = e2 & ADDR_MASK;
                assert(t as int / 4096 * 4096 == t);
                lemma_child_table(s, croot, i, e, np, t, l);
            }
        }
        lemma_pdpt_path_kept(s, f, d, d, lab, areas, pdpt, np, at, j, k, l);
    }
}

/// The way down after the first `n` steps, the one at its own entry among them.
proof fn lemma_root_path(
    s: Fork,
    lab: spec_fn(u64) -> Place,
    areas: Seq<VmArea>,
    proot: u64,
    croot: u64,
    n: nat,
    i: int,
    j: int,
    k: int,
    l: int,
    now: u64,
)
    requires
        n <= 256,
        0 <= i < n,
        0 <= j < 512,
        0 <= k < 512,
        0 <= l < 512,
        steady(s, lab, now),
        tree_placed(s.mem, lab, proot, 256),
        made(s, lab, croot),
        !present(slot(s.mem, croot, i)),
        fork_root(s, areas, proot, croot, n, now).ok,
    ensures
        root_path(
            s,
            fork_root(s, areas, proot, croot, n, now),
            lab,
            areas,
            proot,
            croot,
            i,
            j,
            k,
            l,
        ),
    decreases n,
{
    let m = n - 1;
    let p = fork_root(s, areas, proot, croot, m as nat, now);
    let d = fork_root(s, areas, proot, croot, n, now);
    let e = slot(s.mem, proot, i);
    let pdpt = e & ADDR_MASK;
    let at = i * 0x80_0000_0000;
    assert(p.ok);
    assert(proot as int / 4096 * 4096 == proot);
    lemma_root_next(s, lab, areas, proot, croot, m, now);
    let e3 = slot(s.mem, pdpt, j);
    let pd = e3 & ADDR_MASK;
    let e2 = slot(s.mem, pd, k);
    let t = e2 & ADDR_MASK;
    if present(e) {
        assert(pdpt as int / 4096 * 4096 == pdpt);
        if leads(e3) {
            assert(pd_placed(s.mem, lab, pd, i, j));
            assert(pd as int / 4096 * 4096 == pd);
            if leads(e2) {
                assert(t as int / 4096 * 4096 == t);
            }
        }
    }
    if m == i {
        lemma_root_path_step(p, lab, areas, proot, croot, i, j, k, l, now);
        if present(e) {
            let u = slot(d.mem, croot, i) & ADDR_MASK;
            lemma_root_frame(s, lab, areas, proot, croot, m as nat, now, pdpt, j);
            if leads(e3) {
                lemma_root_frame(s, lab, areas, proot, croot, m as nat, now, pd, k);
                if leads(e2) {
                    lemma_root_frame(s, lab, areas, proot, croot, m as nat, now, t, l);
                }
            }
            lemma_pdpt_path_kept(s, p, d, d, lab, areas, pdpt, u, at, j, k, l);
        }
    } else {
        lemma_root_path(s, lab, areas, proot, croot, m as nat, i, j, k, l, now);
        lemma_root_step(p, lab, areas, proot, croot, m, now, proot, i);
        lemma_root_step(p, lab, areas, proot, croot, m, now, croot, i);
        if present(e) {
            let u = slot(p.mem, croot, i) & ADDR_MASK;
            lemma_root_step(p, lab, areas, proot, croot, m, now, pdpt, j);
            lemma_root_step(p, lab, areas, proot, croot, m, now, u, j);
            if leads(e3) {
                let v = slot(p.mem, u, j) & ADDR_MASK;
                lemma_root_step(p, lab, areas, proot, croot, m, now, pd, k);
                lemma_root_step(p, lab, areas, proot, croot, m, now, v, k);
                if leads(e2) {
                    let w = slot(p.mem, v, k) & ADDR_MASK;
                    lemma_root_step(p, lab, areas, proot, croot, m, now, t, l);
                    lemma_root_step(p, lab, areas, proot, croot, m, now, w, l);
                }
            }
            lemma_pdpt_path_kept(s, s, p, d, lab, areas, pdpt, u, at, j, k, l);
        }
    }
}

/// The first allocation of a fork: whatever sweep is due comes with it.
proof fn lemma_first_alloc(frames: FramesView, now: u64)
    ensures
        !frames.after_sweep(now).sweep_due(now),
        frames.allocated(now) == frames.after_sweep(now).allocated(now),
        usable(frames, now) == frames.after_sweep(now).pmm.free,
{
    reveal(usable);
    if frames.sweep_due(now) {
        lemma_drain_keeps_sweep_tick(
            FramesView {
                pins: crate::mm::dma_pin::DmaPinsView { last_sweep: now, ..frames.pins },
                ..frames
            },
            256,
            now,
        );
    }
}

/// Making the child's root changes its frame only.
proof fn lemma_new_root(mem: Seq<u64>, np: u64, root: u64, x: u64, l: int)
    requires
        sound(mem, np),
        x % 4096 == 0,
        0 <= l < 512,
    ensures
        ({
            let m = with_new_root(mem, np, root);
            &&& m.len() == mem.len()
            &&& x != np ==> slot(m, x, l) == slot(mem, x, l)
            &&& l < 256 ==> !present(slot(m, np, l))
        }),
{
    if x != np {
        lemma_apart(x, np, l, l);
    }
    lemma_large_bits(0);
}

/// The state in which the roots are duplicated.
proof fn lemma_root_made(
    mem: Seq<u64>,
    frames: FramesView,
    lab: spec_fn(u64) -> Place,
    root: u64,
    now: u64,
)
    requires
        tree_placed(mem, lab, root, 256),
        spare(mem, lab, usable(frames, now)),
        frames.allocated(now).0 is Some,
    ensures
        ({
            let np = frames.allocated(now).0->0;
            let s = Fork {
                mem: with_new_root(mem, np, root),
                frames: frames.allocated(now).1,
                ok: true,
            };
            &&& sound(mem, np)
            &&& lab(np) is Elsewhere
            &&& steady(s, lab, now)
            &&& made(s, lab, np)
            &&& tree_placed(s.mem, lab, root, 256)
        }),
{
    lemma_first_alloc(frames, now);
    lemma_alloc(frames.after_sweep(now), now);
    let np = frames.allocated(now).0->0;
    let m = with_new_root(mem, np, root);
    assert(np as int / 4096 * 4096 == np);
    lemma_new_root(mem, np, root, root, 0);
    assert forall|i: int| 0 <= i < 256 && present(#[trigger] slot(m, root, i)) implies pdpt_placed(
        m,
        lab,
        slot(m, root, i) & ADDR_MASK,
        i,
    ) by {
        lemma_new_root(mem, np, root, root, i);
        let pdpt = slot(mem, root, i) & ADDR_MASK;
        assert(pdpt_placed(mem, lab, pdpt, i));
        assert forall|j: int| 0 <= j < 512 implies #[trigger] slot(m, pdpt, j) == slot(
            mem,
            pdpt,
            j,
        ) by {
            lemma_new_root(mem, np, root, pdpt, j);
        }
        assert forall|j: int, k: int|
            0 <= j < 512 && 0 <= k < 512 && leads(slot(mem, pdpt, j)) implies #[trigger] slot(
            m,
            slot(mem, pdpt, j) & ADDR_MASK,
            k,
        ) == slot(mem, slot(mem, pdpt, j) & ADDR_MASK, k) by {
            let pd = slot(mem, pdpt, j) & ADDR_MASK;
            assert(pd_placed(mem, lab, pd, i, j));
            lemma_new_root(mem, np, root, pd, k);
        }
        lemma_pdpt_placed_kept(mem, m, lab, pdpt, i);
    }
}

/// The first address of the page that `va` lies in.
pub open spec fn page_base(mem: Seq<u64>, root: u64, va: u64) -> int {
    if huge(entry3(mem, root, va)) {
        va - va % 0x4000_0000
    } else if huge(entry2(mem, root, va)) {
        va - va % 0x20_0000
    } else {
        va - va % 0x1000
    }
}

/// The entry that maps `va`, without the right to write.  The entry of a large page keeps its
/// address and its flags, and nothing in between.
pub open spec fn protected_pte(mem: Seq<u64>, root: u64, va: u64) -> u64 {
    let e = pte(mem, root, va);
    if huge(entry3(mem, root, va)) {
        e & BITS_1G & !PAGE_WRITABLE
    } else if huge(entry2(mem, root, va)) {
        e & BITS_2M & !PAGE_WRITABLE
    } else {
        e & !PAGE_WRITABLE
    }
}

/// What became of the entries of an address says where it translates to.
proof fn lemma_same_memory(
    s: Fork,
    d: Fork,
    lab: spec_fn(u64) -> Place,
    areas: Seq<VmArea>,
    root: u64,
    c: u64,
    va: u64,
)
    requires
        va < 0x8000_0000_0000,
        root_path(s, d, lab, areas, root, c, idx4(va), idx3(va), idx2(va), idx1(va)),
    ensures
        translate(d.mem, c, va) == translate(s.mem, root, va),
        translate(d.mem, root, va) == translate(s.mem, root, va),
        translate(s.mem, root, va) is Some ==> if va_shared(areas, page_base(s.mem, root, va)) {
            &&& pte(d.mem, c, va) == pte(s.mem, root, va)
            &&& pte(d.mem, root, va) == pte(s.mem, root, va)
        } else {
            &&& pte(d.mem, c, va) == protected_pte(s.mem, root, va)
            &&& pte(d.mem, root, va) == protected_pte(s.mem, root, va)
            &&& protected_pte(s.mem, root, va) & PAGE_WRITABLE == 0
        },
{
    lemma_page_base(va);
}

/// The way down in the state before the child's root was made.
proof fn lemma_fork_way(
    mem: Seq<u64>,
    frames: FramesView,
    areas: Seq<VmArea>,
    root: u64,
    now: u64,
    lab: spec_fn(u64) -> Place,
    i: int,
    j: int,
    k: int,
    l: int,
)
    requires
        tree_placed(mem, lab, root, 256),
        spare(mem, lab, usable(frames, now)),
        after_fork(mem, frames, areas, root, now).1.ok,
        0 <= i < 256,
        0 <= j < 512,
        0 <= k < 512,
        0 <= l < 512,
    ensures
        ({
            let (child, d) = after_fork(mem, frames, areas, root, now);
            let s = Fork { mem, frames: frames.allocated(now).1, ok: true };
            &&& child is Some
            &&& root_path(s, d, lab, areas, root, child->0, i, j, k, l)
        }),
{
    let np = frames.allocated(now).0->0;
    let s = Fork { mem, frames: frames.allocated(now).1, ok: true };
    let r = Fork { mem: with_new_root(mem, np, root), ..s };
    let d = fork_root(r, areas, root, np, 256, now);
    lemma_root_made(mem, frames, lab, root, now);
    lemma_new_root(mem, np, root, np, i);
    lemma_root_path(r, lab, areas, root, np, 256, i, j, k, l, now);
    lemma_new_root(mem, np, root, root, i);
    let e4 = slot(mem, root, i);
    if present(e4) {
        let pdpt = e4 & ADDR_MASK;
        assert(pdpt_placed(mem, lab, pdpt, i));
        lemma_new_root(mem, np, root, pdpt, j);
        let e3 = slot(mem, pdpt, j);
        if leads(e3) {
            let pd = e3 & ADDR_MASK;
            assert(pd_placed(mem, lab, pd, i, j));
            lemma_new_root(mem, np, root, pd, k);
            let e2 = slot(mem, pd, k);
            if leads(e2) {
                lemma_new_root(mem, np, root, e2 & ADDR_MASK, l);
            }
        }
        let u = slot(d.mem, np, i) & ADDR_MASK;
        let at = i * 0x80_0000_0000;
        lemma_pdpt_path_kept(s, r, d, d, lab, areas, pdpt, u, at, j, k, l);
    }
}

/// After a fork the child sees the memory of the parent: every user address translates to
/// the same place in both, and to where it did before.  A page of a shared mapping keeps
/// its entry on both sides; the entry of any other page is without the right to write on both
/// sides, so that the first write makes a copy.
///
/// The parent's tables are where the places `lab` say, each in one place of its tree, and
/// none of them is up for allocation.
pub proof fn law_fork_child_sees_the_memory_of_the_parent(
    mem: Seq<u64>,
    frames: FramesView,
    areas: Seq<VmArea>,
    root: u64,
    now: u64,
    lab: spec_fn(u64) -> Place,
    va: u64,
)
    requires
        tree_placed(mem, lab, root, 256),
        spare(mem, lab, usable(frames, now)),
        va < 0x8000_0000_0000,
        after_fork(mem, frames, areas, root, now).1.ok,
    ensures
        ({
            let (child, d) = after_fork(mem, frames, areas, root, now);
            let c = child->0;
            &&& child is Some
            &&& translate(d.mem, c, va) == translate(mem, root, va)
            &&& translate(d.mem, root, va) == translate(mem, root, va)
            &&& translate(mem, root, va) is Some ==> if va_shared(
                areas,
                page_base(mem, root, va),
            ) {
                &&& pte(d.mem, c, va) == pte(mem, root, va)
                &&& pte(d.mem, root, va) == pte(mem, root, va)
            } else {
                &&& pte(d.mem, c, va) == protected_pte(mem, root, va)
                &&& pte(d.mem, root, va) == protected_pte(mem, root, va)
                &&& protected_pte(mem, root, va) & PAGE_WRITABLE == 0
            }
        }),
{
    let (child, d) = after_fork(mem, frames, areas, root, now);
    let s = Fork { mem, frames: frames.allocated(now).1, ok: true };
    lemma_page_base(va);
    lemma_fork_way(
        mem,
        frames,
        areas,
        root,
        now,
        lab,
        idx4(va),
        idx3(va),
        idx2(va),
        idx1(va),
    );
    lemma_same_memory(s, d, lab, areas, root, child->0, va);
}

/// An address is shared where an area whose flags have bit 0 holds it, anywhere from its first
/// byte to its last.
pub proof fn law_shared_addresses(areas: Seq<VmArea>, va: int)
    ensures
        va_shared(areas, va) <==> exists|i: int|
            0 <= i < areas.len() && (#[trigger] areas[i]).flags % 2 == 1 && areas[i].base <= va
                && va < areas[i].base + areas[i].length,
{
    if va_shared(areas, va) {
        let i = choose|i: int|
            0 <= i < areas.len() && (#[trigger] areas[i]).flags & MAP_SHARED != 0 && areas[i].has(
                va,
            );
        lemma_prot_bits(areas[i].flags);
        assert(areas[i].flags % 2 == 1);
    }
    if exists|i: int|
        0 <= i < areas.len() && (#[trigger] areas[i]).flags % 2 == 1 && areas[i].base <= va && va
            < areas[i].base + areas[i].length {
        let i = choose|i: int|
            0 <= i < areas.len() && (#[trigger] areas[i]).flags % 2 == 1 && areas[i].base <= va
                && va < areas[i].base + areas[i].length;
        lemma_prot_bits(areas[i].flags);
        assert(areas[i].has(va));
    }
}

/// An entry without the right to write differs from what it was in bit 1 alone.
proof fn lemma_without_write(e: u64)
    by (bit_vector)
    ensures
        (e & !0x2u64) % 2 == e % 2,
        (e & !0x2u64) / 2 % 2 == 0,
        (e & !0x2u64) / 4 == e / 4,
        (e & !0x2u64) % 0x1000 / 4 == e % 0x1000 / 4,
        (e & 0xFFFF_FFFF_FFE0_0FFF) % 0x1000 == e % 0x1000,
        (e & 0xFFFF_FFFF_C000_0FFF) % 0x1000 == e % 0x1000,
{
}

/// A page in a shared area starts in it, where the area starts with a page.
proof fn lemma_inside_shared(areas: Seq<VmArea>, va: int, b: int, size: int, i: int)
    requires
        size == 0x1000 || size == 0x20_0000 || size == 0x4000_0000,
        b == va - va % size,
        0 <= i < areas.len(),
        areas[i].flags % 2 == 1,
        areas[i].base <= va < areas[i].base + areas[i].length,
        areas[i].base as int % size == 0,
    ensures
        va_shared(areas, b),
{
    lemma_prot_bits(areas[i].flags);
    assert(areas[i].has(b));
}

/// A fork leaves the memory of a shared area shared: the entry of every mapped address from
/// the start of such an area up to its end is afterwards what it was, in the parent and in the
/// child.  The area starts where a page of the size that maps the address starts.
#[verifier::spinoff_prover]
pub proof fn law_fork_keeps_shared_entries(
    mem: Seq<u64>,
    frames: FramesView,
    areas: Seq<VmArea>,
    root: u64,
    now: u64,
    lab: spec_fn(u64) -> Place,
    va: u64,
    i: int,
)
    requires
        tree_placed(mem, lab, root, 256),
        spare(mem, lab, usable(frames, now)),
        va < 0x8000_0000_0000,
        after_fork(mem, frames, areas, root, now).1.ok,
        translate(mem, root, va) is Some,
        0 <= i < areas.len(),
        areas[i].flags % 2 == 1,
        areas[i].base <= va < areas[i].base + areas[i].length,
        areas[i].base % 0x1000 == 0,
        huge(entry3(mem, root, va)) ==> areas[i].base % 0x4000_0000 == 0,
        !huge(entry3(mem, root, va)) && huge(entry2(mem, root, va)) ==> areas[i].base % 0x20_0000
            == 0,
    ensures
        ({
            let (child, d) = after_fork(mem, frames, areas, root, now);
            &&& child is Some
            &&& pte(d.mem, child->0, va) == pte(mem, root, va)
            &&& pte(d.mem, root, va) == pte(mem, root, va)
        }),
{
    law_fork_child_sees_the_memory_of_the_parent(mem, frames, areas, root, now, lab, va);
    let size = if huge(entry3(mem, root, va)) {
        0x4000_0000int
    } else if huge(entry2(mem, root, va)) {
        0x20_0000
    } else {
        0x1000
    };
    lemma_inside_shared(areas, va as int, page_base(mem, root, va), size, i);
}

/// What taking the right to write leaves of an entry.
proof fn lemma_protected_bits(mem: Seq<u64>, root: u64, va: u64)
    ensures
        ({
            let e = pte(mem, root, va);
            let p = protected_pte(mem, root, va);
            &&& p / 2 % 2 == 0
            &&& p % 2 == e % 2
            &&& p % 0x1000 / 4 == e % 0x1000 / 4
            &&& !huge(entry3(mem, root, va)) && !huge(entry2(mem, root, va)) ==> p / 4 == e / 4
        }),
{
    let e = pte(mem, root, va);
    let p = protected_pte(mem, root, va);
    let kept = if huge(entry3(mem, root, va)) {
        e & BITS_1G
    } else if huge(entry2(mem, root, va)) {
        e & BITS_2M
    } else {
        e
    };
    lemma_without_write(e);
    lemma_without_write(kept);
    assert(p == kept & !0x2u64);
    assert(kept % 0x1000 == e % 0x1000);
    assert(kept % 2 == e % 2);
}

/// A page outside of the shared areas starts outside of them, where these end with a page.
proof fn lemma_outside_shared(areas: Seq<VmArea>, va: int, b: int, size: int)
    requires
        size == 0x1000 || size == 0x20_0000 || size == 0x4000_0000,
        b == va - va % size,
        forall|i: int|
            0 <= i < areas.len() && (#[trigger] areas[i]).flags % 2 == 1 ==> va < areas[i].base || (
            areas[i].base + areas[i].length <= va && (areas[i].base + areas[i].length) % size == 0),
    ensures
        !va_shared(areas, b),
{
    if va_shared(areas, b) {
        let i = choose|i: int|
            0 <= i < areas.len() && (#[trigger] areas[i]).flags & MAP_SHARED != 0 && areas[i].has(
                b,
            );
        lemma_prot_bits(areas[i].flags);
    }
}

/// A fork takes the right to write from everything else: the entry of a mapped address
/// that lies in no shared area is afterwards without bit 1, in the parent and in the child.
/// The entry of a small page keeps every other bit.  The shared areas start and end where a
/// page of the size that maps the address does.
#[verifier::spinoff_prover]
pub proof fn law_fork_protects_private_entries(
    mem: Seq<u64>,
    frames: FramesView,
    areas: Seq<VmArea>,
    root: u64,
    now: u64,
    lab: spec_fn(u64) -> Place,
    va: u64,
)
    requires
        tree_placed(mem, lab, root, 256),
        spare(mem, lab, usable(frames, now)),
        va < 0x8000_0000_0000,
        after_fork(mem, frames, areas, root, now).1.ok,
        translate(mem, root, va) is Some,
        forall|i: int|
            0 <= i < areas.len() && (#[trigger] areas[i]).flags % 2 == 1 ==> va < areas[i].base
                || areas[i].base + areas[i].length <= va,
        forall|i: int|
            0 <= i < areas.len() && (#[trigger] areas[i]).flags % 2 == 1 ==> {
                let end = areas[i].base + areas[i].length;
                &&& end % 0x1000 == 0
                &&& huge(entry3(mem, root, va)) ==> end % 0x4000_0000 == 0
                &&& !huge(entry3(mem, root, va)) && huge(entry2(mem, root, va)) ==> end % 0x20_0000
                    == 0
            },
    ensures
        ({
            let (child, d) = after_fork(mem, frames, areas, root, now);
            let e = pte(mem, root, va);
            let p = pte(d.mem, root, va);
            &&& child is Some
            &&& pte(d.mem, child->0, va) == p
            &&& p / 2 % 2 == 0
            &&& p % 2 == e % 2
            &&& p % 0x1000 / 4 == e % 0x1000 / 4
            &&& !huge(entry3(mem, root, va)) && !huge(entry2(mem, root, va)) ==> p / 4 == e / 4
        }),
{
    law_fork_child_sees_the_memory_of_the_parent(mem, frames, areas, root, now, lab, va);
    let b = page_base(mem, root, va);
    let size = if huge(entry3(mem, root, va)) {
        0x4000_0000int
    } else if huge(entry2(mem, root, va)) {
        0x20_0000
    } else {
        0x1000
    };
    assert forall|i: int|
        0 <= i < areas.len() && (#[trigger] areas[i]).flags % 2 == 1 implies va < areas[i].base || (
    areas[i].base + areas[i].length <= va && (areas[i].base + areas[i].length) % size == 0) by {}
    lemma_outside_shared(areas, va as int, b, size);
    lemma_protected_bits(mem, root, va);
}

/// Child and parent see in `after` what the parent saw, wherever its tables were sound.
pub open spec fn same_memory_seen(
    mem: Seq<u64>,
    frames: FramesView,
    root: u64,
    now: u64,
    after: Seq<u64>,
    child: u64,
) -> bool {
    forall|lab: spec_fn(u64) -> Place, va: u64|
        #![trigger tree_placed(mem, lab, root, 256), translate(after, child, va)]
        tree_placed(mem, lab, root, 256) && spare(mem, lab, usable(frames, now)) && va
            < 0x8000_0000_0000 ==> translate(after, child, va) == translate(mem, root, va)
            && translate(after, root, va) == translate(mem, root, va)
}

/// The entries of shared areas are in `after` what they were, in parent and child.
pub open spec fn shared_entries_kept(
    mem: Seq<u64>,
    frames: FramesView,
    areas: Seq<VmArea>,
    root: u64,
    now: u64,
    after: Seq<u64>,
    child: u64,
) -> bool {
    forall|lab: spec_fn(u64) -> Place, va: u64, i: int|
        #![trigger tree_placed(mem, lab, root, 256), pte(after, child, va), areas[i]]
        tree_placed(mem, lab, root, 256) && spare(mem, lab, usable(frames, now)) && va
            < 0x8000_0000_0000 && translate(mem, root, va) is Some && 0 <= i < areas.len()
            && areas[i].flags % 2 == 1 && areas[i].base <= va < areas[i].base + areas[i].length
            && areas[i].base % 0x1000 == 0 && !huge(entry3(mem, root, va)) && !huge(
            entry2(mem, root, va),
        ) ==> pte(after, child, va) == pte(mem, root, va) && pte(after, root, va) == pte(
            mem,
            root,
            va,
        )
}

/// Every other entry of a small page is in `after` without the right to write, in parent and
/// child.
pub open spec fn private_entries_protected(
    mem: Seq<u64>,
    frames: FramesView,
    areas: Seq<VmArea>,
    root: u64,
    now: u64,
    after: Seq<u64>,
    child: u64,
) -> bool {
    forall|lab: spec_fn(u64) -> Place, va: u64|
        #![trigger tree_placed(mem, lab, root, 256), pte(after, child, va)]
        tree_placed(mem, lab, root, 256) && spare(mem, lab, usable(frames, now)) && va
            < 0x8000_0000_0000 && translate(mem, root, va) is Some && !huge(entry3(mem, root, va))
            && !huge(entry2(mem, root, va)) && (forall|i: int|
            0 <= i < areas.len() && (#[trigger] areas[i]).flags % 2 == 1 ==> (areas[i].base
                + areas[i].length) % 0x1000 == 0 && (va < areas[i].base || areas[i].base
                + areas[i].length <= va)) ==> pte(after, child, va) / 2 % 2 == 0 && pte(
            after,
            root,
            va,
        ) == pte(after, child, va) && pte(after, child, va) / 4 == pte(mem, root, va) / 4
}

/// What a fork promises holds of it for every address.
pub proof fn lemma_fork_promises(
    mem: Seq<u64>,
    frames: FramesView,
    areas: Seq<VmArea>,
    root: u64,
    now: u64,
)
    requires
        after_fork(mem, frames, areas, root, now).1.ok,
        after_fork(mem, frames, areas, root, now).0 is Some,
    ensures
        ({
            let (child, d) = after_fork(mem, frames, areas, root, now);
            &&& same_memory_seen(mem, frames, root, now, d.mem, child->0)
            &&& shared_entries_kept(mem, frames, areas, root, now, d.mem, child->0)
            &&& private_entries_protected(mem, frames, areas, root, now, d.mem, child->0)
        }),
{
    let (child, d) = after_fork(mem, frames, areas, root, now);
    let c = child->0;
    assert forall|lab: spec_fn(u64) -> Place, va: u64|
        #![trigger tree_placed(mem, lab, root, 256), translate(d.mem, c, va)]
        tree_placed(mem, lab, root, 256) && spare(mem, lab, usable(frames, now)) && va
            < 0x8000_0000_0000 implies translate(d.mem, c, va) == translate(mem, root, va)
        && translate(d.mem, root, va) == translate(mem, root, va) by {
        law_fork_child_sees_the_memory_of_the_parent(mem, frames, areas, root, now, lab, va);
    }
    assert forall|lab: spec_fn(u64) -> Place, va: u64, i: int|
        #![trigger tree_placed(mem, lab, root, 256), pte(d.mem, c, va), areas[i]]
        tree_placed(mem, lab, root, 256) && spare(mem, lab, usable(frames, now)) && va
            < 0x8000_0000_0000 && translate(mem, root, va) is Some && 0 <= i < areas.len()
            && areas[i].flags % 2 == 1 && areas[i].base <= va < areas[i].base + areas[i].length
            && areas[i].base % 0x1000 == 0 && !huge(entry3(mem, root, va)) && !huge(
            entry2(mem, root, va),
        ) implies pte(d.mem, c, va) == pte(mem, root, va) && pte(d.mem, root, va) == pte(
        mem,
        root,
        va,
    ) by {
        law_fork_keeps_shared_entries(mem, frames, areas, root, now, lab, va, i);
    }
    assert forall|lab: spec_fn(u64) -> Place, va: u64|
        #![trigger tree_placed(mem, lab, root, 256), pte(d.mem, c, va)]
        tree_placed(mem, lab, root, 256) && spare(mem, lab, usable(frames, now)) && va
            < 0x8000_0000_0000 && translate(mem, root, va) is Some && !huge(entry3(mem, root, va))
            && !huge(entry2(mem, root, va)) && (forall|i: int|
            0 <= i < areas.len() && (#[trigger] areas[i]).flags % 2 == 1 ==> (areas[i].base
                + areas[i].length) % 0x1000 == 0 && (va < areas[i].base || areas[i].base
                + areas[i].length <= va)) implies pte(d.mem, c, va) / 2 % 2 == 0 && pte(
        d.mem,
        root,
        va,
    ) == pte(d.mem, c, va) && pte(d.mem, c, va) / 4 == pte(mem, root, va) / 4 by {
        law_fork_protects_private_entries(mem, frames, areas, root, now, lab, va);
    }
}

/// Spare frames can be counted.
proof fn lemma_spare_finite(mem: Seq<u64>, lab: spec_fn(u64) -> Place, free: Set<int>)
    requires
        spare(mem, lab, free),
    ensures
        free.finite(),
{
    lemma_int_range(0, 0x10_0000);
    assert(free.subset_of(set_int_range(0, 0x10_0000)));
    lemma_len_subset(free, set_int_range(0, 0x10_0000));
}

/// A fork has come from `s` to `d`, and took `n` frames unless there were fewer.
spec fn took(s: Fork, d: Fork, n: nat) -> bool {
    &&& d.ok <==> n <= s.frames.pmm.free.len()
    &&& d.ok ==> d.frames.pmm.free.len() + n == s.frames.pmm.free.len()
}

/// The number of tables below a second-level table rests on its entries alone.
proof fn lemma_same_pd(m1: Seq<u64>, m2: Seq<u64>, pd: u64, n: nat)
    requires
        n <= 512,
        forall|k: int| 0 <= k < 512 ==> #[trigger] slot(m2, pd, k) == slot(m1, pd, k),
    ensures
        tables_of_pd(m2, pd, n) == tables_of_pd(m1, pd, n),
    decreases n,
{
    if n > 0 {
        lemma_same_pd(m1, m2, pd, (n - 1) as nat);
    }
}

/// The number of tables below a third-level table rests on its entries and those of the
/// tables that they lead to.
proof fn lemma_same_pdpt(m1: Seq<u64>, m2: Seq<u64>, pdpt: u64, n: nat)
    requires
        n <= 512,
        forall|j: int| 0 <= j < 512 ==> #[trigger] slot(m2, pdpt, j) == slot(m1, pdpt, j),
        forall|j: int, k: int|
            0 <= j < 512 && 0 <= k < 512 && leads(slot(m1, pdpt, j)) ==> #[trigger] slot(
                m2,
                slot(m1, pdpt, j) & ADDR_MASK,
                k,
            ) == slot(m1, slot(m1, pdpt, j) & ADDR_MASK, k),
    ensures
        tables_of_pdpt(m2, pdpt, n) == tables_of_pdpt(m1, pdpt, n),
    decreases n,
{
    if n > 0 {
        lemma_same_pdpt(m1, m2, pdpt, (n - 1) as nat);
        let e = slot(m1, pdpt, n - 1);
        if leads(e) {
            lemma_same_pd(m1, m2, e & ADDR_MASK, 512);
        }
    }
}

/// The frames that the first `n` steps at the second level take.
proof fn lemma_pd_count(
    s: Fork,
    lab: spec_fn(u64) -> Place,
    areas: Seq<VmArea>,
    ppd: u64,
    cpd: u64,
    va: int,
    i: int,
    j: int,
    n: nat,
    now: u64,
)
    requires
        n <= 512,
        s.ok,
        steady(s, lab, now),
        pd_placed(s.mem, lab, ppd, i, j),
        made(s, lab, cpd),
    ensures
        took(s, fork_pd(s, areas, ppd, cpd, va, n, now), tables_of_pd(s.mem, ppd, n)),
    decreases n,
{
    if n > 0 {
        let m = n - 1;
        let p = fork_pd(s, areas, ppd, cpd, va, m as nat, now);
        lemma_pd_count(s, lab, areas, ppd, cpd, va, i, j, m as nat, now);
        assert(ppd as int / 4096 * 4096 == ppd);
        lemma_pd_frame(s, lab, areas, ppd, cpd, va, i, j, m as nat, now, ppd, m);
        let e = slot(s.mem, ppd, m);
        if p.ok && leads(e) {
            lemma_spare_finite(p.mem, lab, p.frames.pmm.free);
            lemma_alloc(p.frames, now);
            let (page, left) = p.frames.allocated(now);
            if let Some(np) = page {
                let f = Fork { mem: child_table(p, cpd, m, e, np), frames: left, ..p };
                let at = va + m * 0x20_0000;
                lemma_pt_frame(f, areas, e & ADDR_MASK, np, at, 512, ppd, 0);
            }
        }
    }
}

/// The frames that the first `n` steps at the third level take.
proof fn lemma_pdpt_count(
    s: Fork,
    lab: spec_fn(u64) -> Place,
    areas: Seq<VmArea>,
    ppdpt: u64,
    cpdpt: u64,
    va: int,
    i: int,
    n: nat,
    now: u64,
)
    requires
        n <= 512,
        s.ok,
        steady(s, lab, now),
        pdpt_placed(s.mem, lab, ppdpt, i),
        made(s, lab, cpdpt),
    ensures
        took(s, fork_pdpt(s, areas, ppdpt, cpdpt, va, n, now), tables_of_pdpt(s.mem, ppdpt, n)),
    decreases n,
{
    if n > 0 {
        let m = n - 1;
        let p = fork_pdpt(s, areas, ppdpt, cpdpt, va, m as nat, now);
        lemma_pdpt_count(s, lab, areas, ppdpt, cpdpt, va, i, m as nat, now);
        lemma_pdpt_next(s, lab, areas, ppdpt, cpdpt, va, i, m, now);
        let e = slot(s.mem, ppdpt, m);
        if p.ok && leads(e) {
            let pd = e & ADDR_MASK;
            lemma_spare_finite(p.mem, lab, p.frames.pmm.free);
            lemma_alloc(p.frames, now);
            lemma_same_pd(s.mem, p.mem, pd, 512);
            let (page, left) = p.frames.allocated(now);
            if let Some(np) = page {
                let f = Fork { mem: child_table(p, cpdpt, m, e, np), frames: left, ..p };
                lemma_below_pdpt(p, lab, cpdpt, i, m, e, now);
                assert(pd as int / 4096 * 4096 == pd);
                assert forall|k: int| 0 <= k < 512 implies #[trigger] slot(f.mem, pd, k) == slot(
                    p.mem,
                    pd,
                    k,
                ) by {
                    lemma_child_table(p, cpdpt, m, e, np, pd, k);
                }
                lemma_same_pd(p.mem, f.mem, pd, 512);
                let at = va + m * 0x4000_0000;
                lemma_pd_count(f, lab, areas, pd, np, at, i, m, 512, now);
            }
        }
    }
}

/// The tables below entry `m` of the root are as many when its turn comes as they were.
proof fn lemma_root_same(
    s: Fork,
    lab: spec_fn(u64) -> Place,
    areas: Seq<VmArea>,
    proot: u64,
    croot: u64,
    m: int,
    now: u64,
)
    requires
        0 <= m < 256,
        steady(s, lab, now),
        tree_placed(s.mem, lab, proot, 256),
        made(s, lab, croot),
        present(slot(s.mem, proot, m)),
    ensures
        ({
            let p = fork_root(s, areas, proot, croot, m as nat, now);
            let pdpt = slot(s.mem, proot, m) & ADDR_MASK;
            tables_of_pdpt(p.mem, pdpt, 512) == tables_of_pdpt(s.mem, pdpt, 512)
        }),
{
    let p = fork_root(s, areas, proot, croot, m as nat, now);
    let pdpt = slot(s.mem, proot, m) & ADDR_MASK;
    assert(pdpt_placed(s.mem, lab, pdpt, m));
    assert(pdpt as int / 4096 * 4096 == pdpt);
    assert forall|j: int| 0 <= j < 512 implies #[trigger] slot(p.mem, pdpt, j) == slot(
        s.mem,
        pdpt,
        j,
    ) by {
        lemma_root_frame(s, lab, areas, proot, croot, m as nat, now, pdpt, j);
    }
    assert forall|j: int, k: int|
        0 <= j < 512 && 0 <= k < 512 && leads(slot(s.mem, pdpt, j)) implies #[trigger] slot(
        p.mem,
        slot(s.mem, pdpt, j) & ADDR_MASK,
        k,
    ) == slot(s.mem, slot(s.mem, pdpt, j) & ADDR_MASK, k) by {
        let pd = slot(s.mem, pdpt, j) & ADDR_MASK;
        assert(pd_placed(s.mem, lab, pd, m, j));
        assert(pd as int / 4096 * 4096 == pd);
        lemma_root_frame(s, lab, areas, proot, croot, m as nat, now, pd, k);
    }
    lemma_same_pdpt(s.mem, p.mem, pdpt, 512);
}

/// Making a table below entry `m` of the child's root changes none of the parent's.
proof fn lemma_below_root_same(
    p: Fork,
    lab: spec_fn(u64) -> Place,
    croot: u64,
    m: int,
    e: u64,
    now: u64,
)
    requires
        steady(p, lab, now),
        0 <= m < 512,
        made(p, lab, croot),
        pdpt_placed(p.mem, lab, e & ADDR_MASK, m),
        p.frames.allocated(now).0 is Some,
    ensures
        ({
            let mem = child_table(p, croot, m, e, p.frames.allocated(now).0->0);
            let pdpt = e & ADDR_MASK;
            tables_of_pdpt(mem, pdpt, 512) == tables_of_pdpt(p.mem, pdpt, 512)
        }),
{
    let np = p.frames.allocated(now).0->0;
    let pdpt = e & ADDR_MASK;
    let mem = child_table(p, croot, m, e, np);
    lemma_below_root(p, lab, croot, m, e, now);
    assert(pdpt as int / 4096 * 4096 == pdpt);
    assert forall|j: int| 0 <= j < 512 implies #[trigger] slot(mem, pdpt, j) == slot(
        p.mem,
        pdpt,
        j,
    ) by {
        lemma_child_table(p, croot, m, e, np, pdpt, j);
    }
    assert forall|j: int, k: int|
        0 <= j < 512 && 0 <= k < 512 && leads(slot(p.mem, pdpt, j)) implies #[trigger] slot(
        mem,
        slot(p.mem, pdpt, j) & ADDR_MASK,
        k,
    ) == slot(p.mem, slot(p.mem, pdpt, j) & ADDR_MASK, k) by {
        let pd = slot(p.mem, pdpt, j) & ADDR_MASK;
        assert(pd_placed(p.mem, lab, pd, m, j));
        assert(pd as int / 4096 * 4096 == pd);
        lemma_child_table(p, croot, m, e, np, pd, k);
    }
    lemma_same_pdpt(p.mem, mem, pdpt, 512);
}

/// The frames that the first `n` steps at the roots take.
proof fn lemma_root_count(
    s: Fork,
    lab: spec_fn(u64) -> Place,
    areas: Seq<VmArea>,
    proot: u64,
    croot: u64,
    n: nat,
    now: u64,
)
    requires
        n <= 256,
        s.ok,
        steady(s, lab, now),
        tree_placed(s.mem, lab, proot, 256),
        made(s, lab, croot),
    ensures
        took(s, fork_root(s, areas, proot, croot, n, now), tables_of_root(s.mem, proot, n)),
    decreases n,
{
    if n > 0 {
        let m = n - 1;
        let p = fork_root(s, areas, proot, croot, m as nat, now);
        lemma_root_count(s, lab, areas, proot, croot, m as nat, now);
        lemma_root_next(s, lab, areas, proot, croot, m, now);
        let e = slot(s.mem, proot, m);
        if p.ok && present(e) {
            lemma_spare_finite(p.mem, lab, p.frames.pmm.free);
            lemma_alloc(p.frames, now);
            lemma_root_same(s, lab, areas, proot, croot, m, now);
            let (page, left) = p.frames.allocated(now);
            if let Some(np) = page {
                let pdpt = e & ADDR_MASK;
                let f = Fork { mem: child_table(p, croot, m, e, np), frames: left, ..p };
                lemma_below_root(p, lab, croot, m, e, now);
                lemma_below_root_same(p, lab, croot, m, e, now);
                let at = m * 0x80_0000_0000;
                lemma_pdpt_count(f, lab, areas, pdpt, np, at, m, 512, now);
            }
        }
    }
}

/// The parent has as many tables after the child's root was made.
proof fn lemma_new_root_same(mem: Seq<u64>, lab: spec_fn(u64) -> Place, root: u64, np: u64, n: nat)
    requires
        n <= 256,
        tree_placed(mem, lab, root, 256),
        sound(mem, np),
        lab(np) is Elsewhere,
    ensures
        tables_of_root(with_new_root(mem, np, root), root, n) == tables_of_root(mem, root, n),
    decreases n,
{
    if n > 0 {
        let m = with_new_root(mem, np, root);
        lemma_new_root_same(mem, lab, root, np, (n - 1) as nat);
        lemma_new_root(mem, np, root, root, n - 1);
        let e = slot(mem, root, n - 1);
        if present(e) {
            let pdpt = e & ADDR_MASK;
            assert(pdpt_placed(mem, lab, pdpt, n - 1));
            assert forall|j: int| 0 <= j < 512 implies #[trigger] slot(m, pdpt, j) == slot(
                mem,
                pdpt,
                j,
            ) by {
                lemma_new_root(mem, np, root, pdpt, j);
            }
            assert forall|j: int, k: int|
                0 <= j < 512 && 0 <= k < 512 && leads(slot(mem, pdpt, j)) implies #[trigger] slot(
                m,
                slot(mem, pdpt, j) & ADDR_MASK,
                k,
            ) == slot(mem, slot(mem, pdpt, j) & ADDR_MASK, k) by {
                let pd = slot(mem, pdpt, j) & ADDR_MASK;
                assert(pd_placed(mem, lab, pd, n - 1, j));
                lemma_new_root(mem, np, root, pd, k);
            }
            lemma_same_pdpt(mem, m, pdpt, 512);
        }
    }
}

/// A fork succeeds where there is a frame for each table of the child, and nowhere else: it
/// takes one for the root, and one for each table below the lower half of the parent's.
///
/// The parent's tables are where the places `lab` say, and none is up for allocation.
pub proof fn law_fork_takes_a_frame_for_each_table(
    mem: Seq<u64>,
    frames: FramesView,
    areas: Seq<VmArea>,
    root: u64,
    now: u64,
    lab: spec_fn(u64) -> Place,
)
    requires
        tree_placed(mem, lab, root, 256),
        spare(mem, lab, usable(frames, now)),
    ensures
        ({
            let d = after_fork(mem, frames, areas, root, now).1;
            let need = 1 + tables_of_root(mem, root, 256);
            &&& d.ok <==> need <= usable(frames, now).len()
            &&& d.ok ==> d.frames.pmm.free.len() + need == usable(frames, now).len()
        }),
{
    lemma_first_alloc(frames, now);
    lemma_alloc(frames.after_sweep(now), now);
    lemma_spare_finite(mem, lab, usable(frames, now));
    if let Some(np) = frames.allocated(now).0 {
        let s = Fork {
            mem: with_new_root(mem, np, root),
            frames: frames.allocated(now).1,
            ok: true,
        };
        lemma_root_made(mem, frames, lab, root, now);
        lemma_new_root_same(mem, lab, root, np, 256);
        lemma_root_count(s, lab, areas, root, np, 256, now);
    }
}

} // verus!
