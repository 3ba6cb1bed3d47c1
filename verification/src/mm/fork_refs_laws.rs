//! What a fork does to the references of frames and files.
use vstd::multiset::Multiset;
use vstd::prelude::*;
use crate::mm::fork::{fork_page, fork_pd_entry, pins_for_all, with_huge_refs, Fork};
use crate::mm::physmem::slot;
use crate::mm::refcount::RefCountsView;
use crate::mm::vma::{mappings, InodeKey, VmArea, VmBacking};
use crate::mm::vma_laws::law_area_references_its_file;
use crate::mm::vmm::ADDR_MASK_2M;
use crate::mm::vmm_laws::lemma_entry_arith;

verus! {

/// How many of the areas map this file.
pub open spec fn file_areas(areas: Seq<VmArea>, k: InodeKey) -> nat
    decreases areas.len(),
{
    if areas.len() == 0 {
        0
    } else {
        file_areas(areas.drop_last(), k) + match areas.last().backing {
            VmBacking::File { mount_idx, inode, .. } => if mount_idx == k.mount_idx && inode
                == k.inode {
                1nat
            } else {
                0
            },
            _ => 0,
        }
    }
}

/// A child takes one reference to a file for each area that maps it.
pub proof fn law_child_references_every_file(
    pins: Multiset<InodeKey>,
    areas: Seq<VmArea>,
    k: InodeKey,
)
    ensures
        pins_for_all(pins, areas).count(k) == pins.count(k) + file_areas(areas, k),
    decreases areas.len(),
{
    if areas.len() > 0 {
        law_child_references_every_file(pins, areas.drop_last(), k);
        law_area_references_its_file(pins_for_all(pins, areas.drop_last()), areas.last(), k);
    }
}

/// The mappings that removals are held against are those areas.
pub proof fn law_mappings_are_file_areas(areas: Seq<VmArea>, k: InodeKey)
    ensures
        mappings(areas, k) == file_areas(areas, k),
    decreases areas.len(),
{
    if areas.len() > 0 {
        law_mappings_are_file_areas(areas.drop_last(), k);
    }
}

proof fn lemma_huge_refs(refs: RefCountsView, phys: u64, n: nat, other: u64)
    requires
        refs.wf(),
        refs.counts is Some,
        phys % 4096 == 0,
        n <= 512,
        phys + 0x20_0000 <= u64::MAX,
        refs.count(other) < u16::MAX,
    ensures
        ({
            let after = with_huge_refs(refs, phys, n);
            &&& after.wf()
            &&& after.counts is Some
            &&& after.count(other) == refs.count(other) + (if phys as int / 4096 <= other as int
                / 4096 && other as int / 4096 < phys as int / 4096 + n && other < 0x1_0000_0000 {
                1int
            } else {
                0
            })
        }),
    decreases n,
{
    if n > 0 {
        lemma_huge_refs(refs, phys, (n - 1) as nat, other);
        assert((phys + (n - 1) * 0x1000) / 4096 == phys as int / 4096 + (n - 1));
    }
}

/// A large page is 512 frames, and each of them has one reference more.
pub proof fn law_large_page_references_its_frames(refs: RefCountsView, phys: u64, other: u64)
    requires
        refs.wf(),
        refs.counts is Some,
        phys % 0x20_0000 == 0,
        phys < 0x1_0000_0000,
        other < 0x1_0000_0000,
        refs.count(other) < u16::MAX,
    ensures
        with_huge_refs(refs, phys, 512).count(other) == refs.count(other) + (if phys <= other
            && other < phys + 0x20_0000 {
            1int
        } else {
            0
        }),
{
    lemma_huge_refs(refs, phys, 512, other);
}

/// A fork takes a reference to every frame of a large page that it maps twice, and to no other
/// frame on its account.
pub proof fn law_fork_counts_the_large_page(
    s: Fork,
    areas: Seq<VmArea>,
    ppd: u64,
    cpd: u64,
    va: int,
    i: int,
    now: u64,
    other: u64,
)
    requires
        s.frames.refs.wf(),
        s.frames.refs.counts is Some,
        slot(s.mem, ppd, i) % 2 == 1,
        slot(s.mem, ppd, i) / 128 % 2 == 1,
        slot(s.mem, ppd, i) % 0x10_0000_0000_0000 < 0x1_0000_0000,
        other < 0x1_0000_0000,
        s.frames.refs.count(other) < u16::MAX,
    ensures
        ({
            let e = slot(s.mem, ppd, i);
            let phys = e % 0x10_0000_0000_0000 - e % 0x20_0000;
            fork_pd_entry(s, areas, ppd, cpd, va, i, now).frames.refs.count(other)
                == s.frames.refs.count(other) + (if phys <= other && other < phys + 0x20_0000 {
                1int
            } else {
                0
            })
        }),
{
    let e = slot(s.mem, ppd, i);
    lemma_entry_arith(e);
    law_large_page_references_its_frames(s.frames.refs, e & ADDR_MASK_2M, other);
}

/// Forking one entry takes a reference to the frame it maps and to no other, and an empty entry
/// takes none.
pub proof fn law_fork_counts_no_other_page(
    s: Fork,
    areas: Seq<VmArea>,
    ppt: u64,
    cpt: u64,
    va: int,
    i: int,
    other: u64,
)
    requires
        s.frames.refs.wf(),
        s.frames.refs.counts is Some,
        other < 0x1_0000_0000,
        s.frames.refs.count(other) < u16::MAX,
    ensures
        ({
            let e = slot(s.mem, ppt, i);
            let d = fork_page(s, areas, ppt, cpt, va, i);
            &&& d.frames.refs.count(other) == s.frames.refs.count(other) + (if e % 2 == 1 && e
                % 0x10_0000_0000_0000 / 4096 == other / 4096 {
                1int
            } else {
                0
            })
            &&& d.frames.pmm == s.frames.pmm
            &&& d.frames.pins == s.frames.pins
            &&& d.ok == s.ok
        }),
{
    lemma_entry_arith(slot(s.mem, ppt, i));
}

} // verus!
