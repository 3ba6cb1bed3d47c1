//! Copy-on-write duplication of an address space.
//!
//! The child gets tables of its own.  A private page is shared read-only by both sides
//! until one of them writes; a page of a shared mapping stays writable in both.
use vstd::multiset::Multiset;
use vstd::prelude::*;
use crate::mm::physmem::{set_slot, slot, with_frame, zero_frame, PhysMem};
use crate::mm::pmm::{alloc_page, Frames, FramesView};
use crate::mm::refcount::{page_ref_inc, RefCountsView};
use crate::mm::tlb::{shootdown_full_user, Shootdown, Tlb, TlbView, USER_HALF_END};
use crate::mm::vma::{
    areas_ok, bump, make_root, pin_file_vma, register_new, registered, with_new_root, with_pin,
    InodeKey, InodePins, MmRegistry, VmArea, VmSpace, VmSpaceView, MAP_SHARED,
};
use crate::mm::vmm::{
    huge, present, ADDR_MASK, ADDR_MASK_2M, PAGE_HUGE, PAGE_PRESENT, PAGE_WRITABLE,
};
use crate::mm::fork_laws::{
    lemma_fork_promises, private_entries_protected, same_memory_seen, shared_entries_kept,
};

verus! {

/// Whether `va` lies in a shared mapping.
pub open spec fn va_shared(areas: Seq<VmArea>, va: int) -> bool {
    exists|i: int|
        0 <= i < areas.len() && (#[trigger] areas[i]).flags & MAP_SHARED != 0 && areas[i].has(va)
}

/// The flags of an entry without the right to write.
pub open spec fn read_only_flags(e: u64) -> u64 {
    (e & !ADDR_MASK) & !PAGE_WRITABLE
}

/// The reference counts with one more reference to a frame.
pub open spec fn with_ref(refs: RefCountsView, phys: u64) -> RefCountsView {
    refs.with_count(phys, refs.count(phys).wrapping_add(1))
}

/// The reference counts with one more reference to each of the first `n` frames of the
/// huge page at `phys`.
pub open spec fn with_huge_refs(refs: RefCountsView, phys: u64, n: nat) -> RefCountsView
    decreases n,
{
    if n == 0 {
        refs
    } else {
        with_ref(with_huge_refs(refs, phys, (n - 1) as nat), (phys + (n - 1) * 0x1000) as u64)
    }
}

/// How far the duplication has come.
#[verifier::ext_equal]
pub struct Fork {
    pub mem: Seq<u64>,
    pub frames: FramesView,
    /// No frame was missing so far.
    pub ok: bool,
}

/// Duplicates the page of entry `i` of the first-level tables `ppt` (parent) and `cpt`
/// (child).
pub open spec fn fork_page(s: Fork, areas: Seq<VmArea>, ppt: u64, cpt: u64, va: int, i: int) -> Fork {
    let e = slot(s.mem, ppt, i);
    let phys = e & ADDR_MASK;
    let frames = FramesView { refs: with_ref(s.frames.refs, phys), ..s.frames };
    if !present(e) {
        s
    } else if va_shared(areas, va + i * 0x1000) {
        Fork { mem: set_slot(s.mem, cpt, i, e), frames, ..s }
    } else {
        let ro = phys | read_only_flags(e);
        Fork { mem: set_slot(set_slot(s.mem, ppt, i, ro), cpt, i, ro), frames, ..s }
    }
}

/// Duplicates the first `n` pages of a first-level table that starts at `va`.
pub open spec fn fork_pt(s: Fork, areas: Seq<VmArea>, ppt: u64, cpt: u64, va: int, n: nat) -> Fork
    decreases n,
{
    if n == 0 {
        s
    } else {
        fork_page(fork_pt(s, areas, ppt, cpt, va, (n - 1) as nat), areas, ppt, cpt, va, n - 1)
    }
}

/// Gives the child a table in the free frame that is next, below entry `i` of `table`,
/// which takes the flags of the parent's entry `e`.
pub open spec fn child_table(s: Fork, table: u64, i: int, e: u64, np: u64) -> Seq<u64> {
    set_slot(with_frame(s.mem, np, zero_frame()), table, i, np | (e & !ADDR_MASK))
}

/// Duplicates what entry `i` of the second-level tables leads to.
pub open spec fn fork_pd_entry(
    s: Fork,
    areas: Seq<VmArea>,
    ppd: u64,
    cpd: u64,
    va: int,
    i: int,
    now: u64,
) -> Fork {
    let e = slot(s.mem, ppd, i);
    let at = va + i * 0x20_0000;
    if !present(e) {
        s
    } else if huge(e) {
        let phys = e & ADDR_MASK_2M;
        let frames = FramesView { refs: with_huge_refs(s.frames.refs, phys, 512), ..s.frames };
        if va_shared(areas, at) {
            Fork { mem: set_slot(s.mem, cpd, i, e), frames, ..s }
        } else {
            let ro = phys | read_only_flags(e);
            Fork { mem: set_slot(set_slot(s.mem, ppd, i, ro), cpd, i, ro), frames, ..s }
        }
    } else {
        let (page, left) = s.frames.allocated(now);
        match page {
            None => Fork { frames: left, ok: false, ..s },
            Some(np) => fork_pt(
                Fork { mem: child_table(s, cpd, i, e, np), frames: left, ..s },
                areas,
                e & ADDR_MASK,
                np,
                at,
                512,
            ),
        }
    }
}

/// Duplicates what the first `n` entries of the second-level tables lead to.
pub open spec fn fork_pd(
    s: Fork,
    areas: Seq<VmArea>,
    ppd: u64,
    cpd: u64,
    va: int,
    n: nat,
    now: u64,
) -> Fork
    decreases n,
{
    if n == 0 {
        s
    } else {
        let p = fork_pd(s, areas, ppd, cpd, va, (n - 1) as nat, now);
        if p.ok {
            fork_pd_entry(p, areas, ppd, cpd, va, n - 1, now)
        } else {
            p
        }
    }
}

/// Duplicates what entry `i` of the third-level tables leads to.  A gigabyte page is
/// not counted frame by frame.
pub open spec fn fork_pdpt_entry(
    s: Fork,
    areas: Seq<VmArea>,
    ppdpt: u64,
    cpdpt: u64,
    va: int,
    i: int,
    now: u64,
) -> Fork {
    let e = slot(s.mem, ppdpt, i);
    let at = va + i * 0x4000_0000;
    if !present(e) {
        s
    } else if huge(e) {
        if va_shared(areas, at) {
            Fork { mem: set_slot(s.mem, cpdpt, i, e), ..s }
        } else {
            let ro = (e & !0x3FFF_FFFFu64) | read_only_flags(e);
            Fork { mem: set_slot(set_slot(s.mem, ppdpt, i, ro), cpdpt, i, ro), ..s }
        }
    } else {
        let (page, left) = s.frames.allocated(now);
        match page {
            None => Fork { frames: left, ok: false, ..s },
            Some(np) => fork_pd(
                Fork { mem: child_table(s, cpdpt, i, e, np), frames: left, ..s },
                areas,
                e & ADDR_MASK,
                np,
                at,
                512,
                now,
            ),
        }
    }
}

/// Duplicates what the first `n` entries of the third-level tables lead to.
pub open spec fn fork_pdpt(
    s: Fork,
    areas: Seq<VmArea>,
    ppdpt: u64,
    cpdpt: u64,
    va: int,
    n: nat,
    now: u64,
) -> Fork
    decreases n,
{
    if n == 0 {
        s
    } else {
        let p = fork_pdpt(s, areas, ppdpt, cpdpt, va, (n - 1) as nat, now);
        if p.ok {
            fork_pdpt_entry(p, areas, ppdpt, cpdpt, va, n - 1, now)
        } else {
            p
        }
    }
}

/// Duplicates what entry `i` of the roots leads to.
pub open spec fn fork_root_entry(
    s: Fork,
    areas: Seq<VmArea>,
    proot: u64,
    croot: u64,
    i: int,
    now: u64,
) -> Fork {
    let e = slot(s.mem, proot, i);
    if !present(e) {
        s
    } else {
        let (page, left) = s.frames.allocated(now);
        match page {
            None => Fork { frames: left, ok: false, ..s },
            Some(np) => fork_pdpt(
                Fork { mem: child_table(s, croot, i, e, np), frames: left, ..s },
                areas,
                e & ADDR_MASK,
                np,
                i * 0x80_0000_0000,
                512,
                now,
            ),
        }
    }
}

/// Duplicates what the first `n` entries of the roots lead to.
pub open spec fn fork_root(
    s: Fork,
    areas: Seq<VmArea>,
    proot: u64,
    croot: u64,
    n: nat,
    now: u64,
) -> Fork
    decreases n,
{
    if n == 0 {
        s
    } else {
        let p = fork_root(s, areas, proot, croot, (n - 1) as nat, now);
        if p.ok {
            fork_root_entry(p, areas, proot, croot, n - 1, now)
        } else {
            p
        }
    }
}

/// References after every area took one more on its file.
pub open spec fn pins_for_all(pins: Multiset<InodeKey>, areas: Seq<VmArea>) -> Multiset<InodeKey>
    decreases areas.len(),
{
    if areas.len() == 0 {
        pins
    } else {
        with_pin(pins_for_all(pins, areas.drop_last()), areas.last())
    }
}

fn va_is_shared(areas: &Vec<VmArea>, va: u64) -> (r: bool)
    requires
        areas_ok(areas@),
    ensures
        r == va_shared(areas@, va as int),
{
    let mut i: usize = 0;
    while i < areas.len()
        invariant
            areas_ok(areas@),
            i <= areas@.len(),
            forall|j: int|
                0 <= j < i ==> !((#[trigger] areas@[j]).flags & MAP_SHARED != 0 && areas@[j].has(
                    va as int,
                )),
        decreases areas@.len() - i,
    {
        let v: VmArea = areas[i];
        assert(areas@[i as int].ok());
        if v.flags & MAP_SHARED != 0 && v.contains(va) {
            return true;
        }
        i = i + 1;
    }
    false
}

fn copy_pt(
    mem: &mut PhysMem,
    f: &mut Frames,
    areas: &Vec<VmArea>,
    ppt: u64,
    cpt: u64,
    va: u64,
)
    requires
        old(f).wf(),
        old(f)@.refs.counts is Some,
        areas_ok(areas@),
        va <= 0x7FFF_FFE0_0000,
    ensures
        final(f).wf(),
        final(f)@.refs.counts is Some,
        fork_pt(
            Fork { mem: old(mem)@, frames: old(f)@, ok: true },
            areas@,
            ppt,
            cpt,
            va as int,
            512,
        ) == (Fork { mem: final(mem)@, frames: final(f)@, ok: true }),
{
    let ghost s0 = Fork { mem: mem@, frames: f@, ok: true };
    let mut i: u64 = 0;
    while i < 512
        invariant
            f.wf(),
            f@.refs.counts is Some,
            areas_ok(areas@),
            va <= 0x7FFF_FFE0_0000,
            i <= 512,
            fork_pt(s0, areas@, ppt, cpt, va as int, i as nat) == (Fork {
                mem: mem@,
                frames: f@,
                ok: true,
            }),
        decreases 512 - i,
    {
        let pte: u64 = mem.read(ppt, i);
        if pte & PAGE_PRESENT != 0 {
            let phys: u64 = pte & ADDR_MASK;
            if va_is_shared(areas, va + i * 0x1000) {
                mem.write(cpt, i, pte);
                page_ref_inc(&mut f.refs, phys);
            } else {
                let flags_ro: u64 = (pte & !ADDR_MASK) & !PAGE_WRITABLE;
                mem.write(ppt, i, phys | flags_ro);
                mem.write(cpt, i, phys | flags_ro);
                page_ref_inc(&mut f.refs, phys);
            }
        }
        i = i + 1;
    }
}

fn inc_huge(f: &mut Frames, phys: u64)
    requires
        old(f).wf(),
        old(f)@.refs.counts is Some,
        phys <= 0x000F_FFFF_FFE0_0000,
    ensures
        final(f).wf(),
        final(f)@.refs.counts is Some,
        final(f)@ == (FramesView {
            refs: with_huge_refs(old(f)@.refs, phys, 512),
            ..old(f)@
        }),
{
    let mut sub: u64 = 0;
    while sub < 512
        invariant
            f.wf(),
            f@.refs.counts is Some,
            phys <= 0x000F_FFFF_FFE0_0000,
            sub <= 512,
            f@ == (FramesView {
                refs: with_huge_refs(old(f)@.refs, phys, sub as nat),
                ..old(f)@
            }),
        decreases 512 - sub,
    {
        page_ref_inc(&mut f.refs, phys + sub * 0x1000);
        sub = sub + 1;
    }
}

proof fn lemma_2m_bound(e: u64)
    by (bit_vector)
    ensures
        (e & 0x000F_FFFF_FFE0_0000) <= 0x000F_FFFF_FFE0_0000,
{
}

fn copy_pd(
    mem: &mut PhysMem,
    f: &mut Frames,
    areas: &Vec<VmArea>,
    ppd: u64,
    cpd: u64,
    va: u64,
    now: u64,
) -> (ok: bool)
    requires
        old(f).wf(),
        old(f)@.refs.counts is Some,
        areas_ok(areas@),
        va <= 0x7FFF_C000_0000,
    ensures
        final(f).wf(),
        final(f)@.refs.counts is Some,
        fork_pd(
            Fork { mem: old(mem)@, frames: old(f)@, ok: true },
            areas@,
            ppd,
            cpd,
            va as int,
            512,
            now,
        ) == (Fork { mem: final(mem)@, frames: final(f)@, ok }),
        !ok ==> final(f)@.pmm.free.is_empty(),
{
    let ghost s0 = Fork { mem: mem@, frames: f@, ok: true };
    let mut i: u64 = 0;
    while i < 512
        invariant
            f.wf(),
            f@.refs.counts is Some,
            areas_ok(areas@),
            va <= 0x7FFF_C000_0000,
            i <= 512,
            s0 == (Fork { mem: old(mem)@, frames: old(f)@, ok: true }),
            fork_pd(s0, areas@, ppd, cpd, va as int, i as nat, now) == (Fork {
                mem: mem@,
                frames: f@,
                ok: true,
            }),
        decreases 512 - i,
    {
        let pde: u64 = mem.read(ppd, i);
        if pde & PAGE_PRESENT != 0 {
            let at: u64 = va + i * 0x20_0000;
            if pde & PAGE_HUGE != 0 {
                let phys_2m: u64 = pde & ADDR_MASK_2M;
                proof {
                    lemma_2m_bound(pde);
                }
                if va_is_shared(areas, at) {
                    mem.write(cpd, i, pde);
                } else {
                    let flags_ro: u64 = (pde & !ADDR_MASK) & !PAGE_WRITABLE;
                    mem.write(ppd, i, phys_2m | flags_ro);
                    mem.write(cpd, i, phys_2m | flags_ro);
                }
                inc_huge(f, phys_2m);
            } else {
                let child_pt: u64 = match alloc_page(f, now) {
                    Some(p) => p,
                    None => {
                        proof {
                            lemma_pd_stopped(
                                s0,
                                areas@,
                                ppd,
                                cpd,
                                va as int,
                                (i + 1) as nat,
                                512,
                                now,
                            );
                        }
                        return false;
                    },
                };
                mem.zero_frame(child_pt);
                mem.write(cpd, i, child_pt | (pde & !ADDR_MASK));
                copy_pt(mem, f, areas, pde & ADDR_MASK, child_pt, at);
            }
        }
        i = i + 1;
    }
    true
}

proof fn lemma_pd_stopped(
    s: Fork,
    areas: Seq<VmArea>,
    ppd: u64,
    cpd: u64,
    va: int,
    i: nat,
    n: nat,
    now: u64,
)
    requires
        i <= n,
        !fork_pd(s, areas, ppd, cpd, va, i, now).ok,
    ensures
        fork_pd(s, areas, ppd, cpd, va, n, now) == fork_pd(s, areas, ppd, cpd, va, i, now),
    decreases n - i,
{
    if i < n {
        lemma_pd_stopped(s, areas, ppd, cpd, va, i, (n - 1) as nat, now);
    }
}

fn copy_pdpt(
    mem: &mut PhysMem,
    f: &mut Frames,
    areas: &Vec<VmArea>,
    ppdpt: u64,
    cpdpt: u64,
    va: u64,
    now: u64,
) -> (ok: bool)
    requires
        old(f).wf(),
        old(f)@.refs.counts is Some,
        areas_ok(areas@),
        va <= 0x7F80_0000_0000,
    ensures
        final(f).wf(),
        final(f)@.refs.counts is Some,
        fork_pdpt(
            Fork { mem: old(mem)@, frames: old(f)@, ok: true },
            areas@,
            ppdpt,
            cpdpt,
            va as int,
            512,
            now,
        ) == (Fork { mem: final(mem)@, frames: final(f)@, ok }),
        !ok ==> final(f)@.pmm.free.is_empty(),
{
    let ghost s0 = Fork { mem: mem@, frames: f@, ok: true };
    let mut i: u64 = 0;
    while i < 512
        invariant
            f.wf(),
            f@.refs.counts is Some,
            areas_ok(areas@),
            va <= 0x7F80_0000_0000,
            i <= 512,
            s0 == (Fork { mem: old(mem)@, frames: old(f)@, ok: true }),
            fork_pdpt(s0, areas@, ppdpt, cpdpt, va as int, i as nat, now) == (Fork {
                mem: mem@,
                frames: f@,
                ok: true,
            }),
        decreases 512 - i,
    {
        let pdpte: u64 = mem.read(ppdpt, i);
        if pdpte & PAGE_PRESENT != 0 {
            let at: u64 = va + i * 0x4000_0000;
            if pdpte & PAGE_HUGE != 0 {
                if va_is_shared(areas, at) {
                    mem.write(cpdpt, i, pdpte);
                } else {
                    let phys_1g: u64 = pdpte & !0x3FFF_FFFFu64;
                    let flags_ro: u64 = (pdpte & !ADDR_MASK) & !PAGE_WRITABLE;
                    mem.write(ppdpt, i, phys_1g | flags_ro);
                    mem.write(cpdpt, i, phys_1g | flags_ro);
                }
            } else {
                let child_pd: u64 = match alloc_page(f, now) {
                    Some(p) => p,
                    None => {
                        proof {
                            lemma_pdpt_stopped(
                                s0,
                                areas@,
                                ppdpt,
                                cpdpt,
                                va as int,
                                (i + 1) as nat,
                                512,
                                now,
                            );
                        }
                        return false;
                    },
                };
                mem.zero_frame(child_pd);
                mem.write(cpdpt, i, child_pd | (pdpte & !ADDR_MASK));
                if !copy_pd(mem, f, areas, pdpte & ADDR_MASK, child_pd, at, now) {
                    proof {
                        lemma_pdpt_stopped(
                            s0,
                            areas@,
                            ppdpt,
                            cpdpt,
                            va as int,
                            (i + 1) as nat,
                            512,
                            now,
                        );
                    }
                    return false;
                }
            }
        }
        i = i + 1;
    }
    true
}

proof fn lemma_pdpt_stopped(
    s: Fork,
    areas: Seq<VmArea>,
    ppdpt: u64,
    cpdpt: u64,
    va: int,
    i: nat,
    n: nat,
    now: u64,
)
    requires
        i <= n,
        !fork_pdpt(s, areas, ppdpt, cpdpt, va, i, now).ok,
    ensures
        fork_pdpt(s, areas, ppdpt, cpdpt, va, n, now) == fork_pdpt(
            s,
            areas,
            ppdpt,
            cpdpt,
            va,
            i,
            now,
        ),
    decreases n - i,
{
    if i < n {
        lemma_pdpt_stopped(s, areas, ppdpt, cpdpt, va, i, (n - 1) as nat, now);
    }
}

fn copy_root(
    mem: &mut PhysMem,
    f: &mut Frames,
    areas: &Vec<VmArea>,
    proot: u64,
    croot: u64,
    now: u64,
) -> (ok: bool)
    requires
        old(f).wf(),
        old(f)@.refs.counts is Some,
        areas_ok(areas@),
    ensures
        final(f).wf(),
        fork_root(
            Fork { mem: old(mem)@, frames: old(f)@, ok: true },
            areas@,
            proot,
            croot,
            256,
            now,
        ) == (Fork { mem: final(mem)@, frames: final(f)@, ok }),
        !ok ==> final(f)@.pmm.free.is_empty(),
{
    let ghost s0 = Fork { mem: mem@, frames: f@, ok: true };
    let mut i: u64 = 0;
    while i < 256
        invariant
            f.wf(),
            f@.refs.counts is Some,
            areas_ok(areas@),
            i <= 256,
            s0 == (Fork { mem: old(mem)@, frames: old(f)@, ok: true }),
            fork_root(s0, areas@, proot, croot, i as nat, now) == (Fork {
                mem: mem@,
                frames: f@,
                ok: true,
            }),
        decreases 256 - i,
    {
        let pml4e: u64 = mem.read(proot, i);
        if pml4e & PAGE_PRESENT != 0 {
            let child_pdpt: u64 = match alloc_page(f, now) {
                Some(p) => p,
                None => {
                    proof {
                        lemma_root_stopped(s0, areas@, proot, croot, (i + 1) as nat, 256, now);
                    }
                    return false;
                },
            };
            mem.zero_frame(child_pdpt);
            mem.write(croot, i, child_pdpt | (pml4e & !ADDR_MASK));
            if !copy_pdpt(
                mem,
                f,
                areas,
                pml4e & ADDR_MASK,
                child_pdpt,
                i * 0x80_0000_0000,
                now,
            ) {
                proof {
                    lemma_root_stopped(s0, areas@, proot, croot, (i + 1) as nat, 256, now);
                }
                return false;
            }
        }
        i = i + 1;
    }
    true
}

proof fn lemma_root_stopped(
    s: Fork,
    areas: Seq<VmArea>,
    proot: u64,
    croot: u64,
    i: nat,
    n: nat,
    now: u64,
)
    requires
        i <= n,
        !fork_root(s, areas, proot, croot, i, now).ok,
    ensures
        fork_root(s, areas, proot, croot, n, now) == fork_root(s, areas, proot, croot, i, now),
    decreases n - i,
{
    if i < n {
        lemma_root_stopped(s, areas, proot, croot, i, (n - 1) as nat, now);
    }
}

/// The machine after a child root was made, and its user half filled, for a parent with
/// the areas `areas` on the root `root`; and the child's root, where a frame was free for
/// it.
pub open spec fn after_fork(
    mem: Seq<u64>,
    frames: FramesView,
    areas: Seq<VmArea>,
    root: u64,
    now: u64,
) -> (Option<u64>, Fork) {
    let (page, left) = frames.allocated(now);
    match page {
        None => (None, Fork { mem, frames: left, ok: false }),
        Some(np) => (
            Some(np),
            fork_root(
                Fork { mem: with_new_root(mem, np, root), frames: left, ok: true },
                areas,
                root,
                np,
                256,
                now,
            ),
        ),
    }
}

/// Processor `self_cpu` drops every user translation of the root `cr3` itself, and waits for
/// all other processors that run on it.
pub open spec fn drops_all(s: Shootdown, t: TlbView, cr3: u64, self_cpu: u64) -> bool {
    &&& s.local is All
    &&& s.wait is None <==> t.targets(cr3, self_cpu).len() == 0
    &&& s.wait is Some ==> {
        &&& s.wait->0.wf(t.slots.len())
        &&& s.wait->0.self_cpu == self_cpu
        &&& s.wait->0.targets@ == t.targets(cr3, self_cpu)
        &&& s.wait->0.remaining@ == t.targets(cr3, self_cpu)
        &&& s.wait->0.iters == 0
    }
}

/// Tables below the first `n` entries of the second-level table `pd`.
pub open spec fn tables_of_pd(mem: Seq<u64>, pd: u64, n: nat) -> nat
    decreases n,
{
    if n == 0 {
        0
    } else {
        let e = slot(mem, pd, n - 1);
        tables_of_pd(mem, pd, (n - 1) as nat) + (if present(e) && !huge(e) {
            1nat
        } else {
            0
        })
    }
}

/// Tables below the first `n` entries of the third-level table `pdpt`.
pub open spec fn tables_of_pdpt(mem: Seq<u64>, pdpt: u64, n: nat) -> nat
    decreases n,
{
    if n == 0 {
        0
    } else {
        let e = slot(mem, pdpt, n - 1);
        tables_of_pdpt(mem, pdpt, (n - 1) as nat) + (if present(e) && !huge(e) {
            1 + tables_of_pd(mem, e & ADDR_MASK, 512)
        } else {
            0
        })
    }
}

/// Tables below the first `n` entries of the root `root`.
pub open spec fn tables_of_root(mem: Seq<u64>, root: u64, n: nat) -> nat
    decreases n,
{
    if n == 0 {
        0
    } else {
        let e = slot(mem, root, n - 1);
        tables_of_root(mem, root, (n - 1) as nat) + (if present(e) {
            1 + tables_of_pdpt(mem, e & ADDR_MASK, 512)
        } else {
            0
        })
    }
}

fn count_pd(mem: &PhysMem, pd: u64) -> (n: u64)
    ensures
        n == tables_of_pd(mem@, pd, 512),
        n <= 512,
{
    let mut n: u64 = 0;
    let mut i: u64 = 0;
    while i < 512
        invariant
            i <= 512,
            n == tables_of_pd(mem@, pd, i as nat),
            n <= i,
        decreases 512 - i,
    {
        let e: u64 = mem.read(pd, i);
        if e & PAGE_PRESENT != 0 && e & PAGE_HUGE == 0 {
            n = n + 1;
        }
        i = i + 1;
    }
    n
}

fn count_pdpt(mem: &PhysMem, pdpt: u64) -> (n: u64)
    ensures
        n == tables_of_pdpt(mem@, pdpt, 512),
        n <= 512 * 513,
{
    let mut n: u64 = 0;
    let mut i: u64 = 0;
    while i < 512
        invariant
            i <= 512,
            n == tables_of_pdpt(mem@, pdpt, i as nat),
            n <= i * 513,
        decreases 512 - i,
    {
        let e: u64 = mem.read(pdpt, i);
        if e & PAGE_PRESENT != 0 && e & PAGE_HUGE == 0 {
            n = n + 1 + count_pd(mem, e & ADDR_MASK);
        }
        i = i + 1;
    }
    n
}

/// How many tables a child gets that is forked from the root `root`: a root of its own, and
/// one for each table below the lower half of `root`.
pub fn fork_frames(mem: &PhysMem, root: u64) -> (n: u64)
    ensures
        n == 1 + tables_of_root(mem@, root, 256),
{
    let mut n: u64 = 0;
    let mut i: u64 = 0;
    while i < 256
        invariant
            i <= 256,
            n == tables_of_root(mem@, root, i as nat),
            n <= i * 0x4_0201,
        decreases 256 - i,
    {
        let e: u64 = mem.read(root, i);
        if e & PAGE_PRESENT != 0 {
            n = n + 1 + count_pdpt(mem, e & ADDR_MASK);
        }
        i = i + 1;
    }
    n + 1
}

impl VmSpace {
    /// Duplicates the address space for a child process.  `actual_cr3` is the root that
    /// the process runs on, which the address space takes over.  The areas are copied,
    /// each with a reference of its own to its file; the child gets a lock and a change
    /// counter of its own, and the parent's counter moves on.
    ///
    /// `None` says that no frame was left for a table of the child; what was write-protected
    /// by then stays so, and what was counted stays counted.  A caller that can have memory
    /// freed asks [`fork_frames`] beforehand how many frames it takes.
    ///
    /// Cached translations of the parent may still allow writes: every processor that runs
    /// on it is asked to drop them.  The caller, on processor `self_cpu`, does what is
    /// returned beside the child before either side goes on.
    pub fn clone_for_fork(
        &mut self,
        mem: &mut PhysMem,
        f: &mut Frames,
        reg: &mut MmRegistry,
        pins: &mut InodePins,
        t: &mut Tlb,
        actual_cr3: u64,
        self_cpu: u64,
        now: u64,
    ) -> (r: Option<(VmSpace, Shootdown)>)
        requires
            old(self).wf(old(reg)@),
            old(reg)@.wf(),
            old(f).wf(),
            old(f)@.refs.counts is Some,
            old(t)@.wf(),
        ensures
            final(self).wf(final(reg)@),
            final(reg)@.wf(),
            final(f).wf(),
            final(t)@.wf(),
            final(self)@ == (VmSpaceView { cr3: actual_cr3, ..old(self)@ }),
            ({
                let (root, fork) = after_fork(
                    old(mem)@,
                    old(f)@,
                    old(self)@.areas,
                    actual_cr3,
                    now,
                );
                &&& final(mem)@ == fork.mem
                &&& final(f)@ == fork.frames
                &&& r is Some <==> fork.ok
                &&& r is None ==> {
                    &&& final(reg)@ == old(reg)@
                    &&& final(pins)@ == old(pins)@
                    &&& final(t)@ == old(t)@
                    &&& final(f)@.pmm.free.is_empty()
                }
                &&& r matches Some((c, s)) ==> {
                    &&& drops_all(s, old(t)@, actual_cr3, self_cpu)
                    &&& final(t)@ == old(t)@.published(
                        old(t)@.targets(actual_cr3, self_cpu),
                        actual_cr3,
                        0,
                        USER_HALF_END,
                    )
                    &&& c.wf(final(reg)@)
                    &&& root == Some(c.cr3)
                    &&& c.mm_sem.id == old(reg)@.sem_holders.len()
                    &&& c@ == (VmSpaceView {
                        cr3: c.cr3,
                        mm_sem: c.mm_sem,
                        generation: old(reg)@.generations.len() as u64,
                        ..old(self)@
                    })
                    &&& final(pins)@ == pins_for_all(old(pins)@, old(self)@.areas)
                    &&& final(reg)@ == registered(old(reg)@, c.cr3, c.mm_sem).bumped(
                        old(self)@.generation,
                    )
                }
            }),
            r matches Some((c, _s)) ==> {
                &&& same_memory_seen(old(mem)@, old(f)@, actual_cr3, now, final(mem)@, c.cr3)
                &&& shared_entries_kept(
                    old(mem)@,
                    old(f)@,
                    old(self)@.areas,
                    actual_cr3,
                    now,
                    final(mem)@,
                    c.cr3,
                )
                &&& private_entries_protected(
                    old(mem)@,
                    old(f)@,
                    old(self)@.areas,
                    actual_cr3,
                    now,
                    final(mem)@,
                    c.cr3,
                )
            },
    {
        self.cr3 = actual_cr3;
        let child_root: u64 = match alloc_page(f, now) {
            Some(p) => p,
            None => {
                return None;
            },
        };
        make_root(mem, child_root, actual_cr3);
        if !copy_root(mem, f, &self.areas, actual_cr3, child_root, now) {
            return None;
        }
        let dropped = shootdown_full_user(t, actual_cr3, self_cpu);
        let mut areas: Vec<VmArea> = Vec::new();
        let mut i: usize = 0;
        proof {
            assert(self.areas@.take(0) =~= Seq::empty());
        }
        while i < self.areas.len()
            invariant
                i <= self.areas@.len(),
                areas@ =~= self.areas@.take(i as int),
                pins@ == pins_for_all(old(pins)@, self.areas@.take(i as int)),
            decreases self.areas@.len() - i,
        {
            let v: VmArea = self.areas[i];
            pin_file_vma(pins, &v);
            areas.push(v);
            proof {
                assert(self.areas@.take(i + 1).drop_last() =~= self.areas@.take(i as int));
            }
            i = i + 1;
        }
        assert(self.areas@.take(i as int) =~= self.areas@);
        let (mm_sem, generation) = register_new(reg, child_root);
        bump(reg, self.generation);
        let child = VmSpace {
            cr3: child_root,
            areas,
            mmap_hint: self.mmap_hint,
            stack_aslr_base: self.stack_aslr_base,
            brk: self.brk,
            brk_start: self.brk_start,
            mm_sem,
            generation,
        };
        proof {
            lemma_fork_promises(old(mem)@, old(f)@, old(self)@.areas, actual_cr3, now);
        }
        Some((child, dropped))
    }
}

proof fn lemma_ro_bits(e: u64)
    by (bit_vector)
    ensures
        ((e & 0x000F_FFFF_FFFF_F000) | ((e & !0x000F_FFFF_FFFF_F000) & !0x2)) & 0x2 == 0,
        ((e & 0x000F_FFFF_FFFF_F000) | ((e & !0x000F_FFFF_FFFF_F000) & !0x2)) & 0x1 == e & 0x1,
        ((e & 0x000F_FFFF_FFFF_F000) | ((e & !0x000F_FFFF_FFFF_F000) & !0x2))
            & 0x000F_FFFF_FFFF_F000 == e & 0x000F_FFFF_FFFF_F000,
        ((e & 0x000F_FFFF_FFFF_F000) | ((e & !0x000F_FFFF_FFFF_F000) & !0x2)) == e & !0x2,
{
}

/// Two tables in installed memory, in frames of their own.
pub open spec fn tables_apart(mem: Seq<u64>, t: u64, u: u64) -> bool {
    &&& t % 4096 == 0
    &&& u % 4096 == 0
    &&& t != u
    &&& t as int / 8 + 512 <= mem.len()
    &&& u as int / 8 + 512 <= mem.len()
}

/// What becomes of the entry `e` of the parent, and of the child's entry in its place.
pub open spec fn entry_forked(e: u64, parent: u64, child: u64, shared: bool) -> bool {
    if shared {
        parent == e && child == e
    } else {
        &&& parent == child
        &&& child & ADDR_MASK == e & ADDR_MASK
        &&& present(child)
        &&& child & PAGE_WRITABLE == 0
        &&& child == e & !PAGE_WRITABLE
    }
}

#[verifier::spinoff_prover]
#[verifier::rlimit(40)]
pub proof fn lemma_fork_pt_entries(
    s: Fork,
    areas: Seq<VmArea>,
    ppt: u64,
    cpt: u64,
    va: int,
    n: nat,
    i: int,
)
    requires
        tables_apart(s.mem, ppt, cpt),
        n <= 512,
        0 <= i < 512,
    ensures
        ({
            let d = fork_pt(s, areas, ppt, cpt, va, n);
            let e = slot(s.mem, ppt, i);
            &&& d.mem.len() == s.mem.len()
            &&& if i < n && present(e) {
                entry_forked(
                    e,
                    slot(d.mem, ppt, i),
                    slot(d.mem, cpt, i),
                    va_shared(areas, va + i * 0x1000),
                )
            } else {
                &&& slot(d.mem, ppt, i) == e
                &&& slot(d.mem, cpt, i) == slot(s.mem, cpt, i)
            }
        }),
    decreases n,
{
    if n > 0 {
        lemma_fork_pt_entries(s, areas, ppt, cpt, va, (n - 1) as nat, i);
        lemma_fork_pt_entries(s, areas, ppt, cpt, va, (n - 1) as nat, n - 1);
        let p = fork_pt(s, areas, ppt, cpt, va, (n - 1) as nat);
        let e = slot(p.mem, ppt, n - 1);
        lemma_ro_bits(e);
        assert(ppt as int / 8 + i != cpt as int / 8 + (n - 1));
        assert(cpt as int / 8 + i != ppt as int / 8 + (n - 1));
    }
}

/// Parent and child see the same memory after a fork: for every page of a table, the
/// child's entry leads to the frame of the parent's.  A page of a shared mapping keeps
/// its entry on both sides; any other page can be written by neither side, so that the
/// first write makes a copy.  Pages that were not there are not there in the child.
pub proof fn law_fork_shares_pages(
    s: Fork,
    areas: Seq<VmArea>,
    ppt: u64,
    cpt: u64,
    va: int,
    i: int,
)
    requires
        tables_apart(s.mem, ppt, cpt),
        0 <= i < 512,
    ensures
        ({
            let d = fork_pt(s, areas, ppt, cpt, va, 512);
            let e = slot(s.mem, ppt, i);
            if present(e) {
                entry_forked(
                    e,
                    slot(d.mem, ppt, i),
                    slot(d.mem, cpt, i),
                    va_shared(areas, va + i * 0x1000),
                )
            } else {
                &&& slot(d.mem, ppt, i) == e
                &&& slot(d.mem, cpt, i) == slot(s.mem, cpt, i)
            }
        }),
{
    lemma_fork_pt_entries(s, areas, ppt, cpt, va, 512, i);
}

/// A page that is duplicated has one reference more.
pub proof fn law_fork_counts_the_page(
    s: Fork,
    areas: Seq<VmArea>,
    ppt: u64,
    cpt: u64,
    va: int,
    i: int,
)
    requires
        s.frames.refs.wf(),
        present(slot(s.mem, ppt, i)),
        s.frames.refs.tracks(slot(s.mem, ppt, i) & ADDR_MASK),
        s.frames.refs.count(slot(s.mem, ppt, i) & ADDR_MASK) < u16::MAX,
    ensures
        ({
            let phys = slot(s.mem, ppt, i) & ADDR_MASK;
            fork_page(s, areas, ppt, cpt, va, i).frames.refs.count(phys) == s.frames.refs.count(
                phys,
            ) + 1
        }),
{
}

} // verus!
