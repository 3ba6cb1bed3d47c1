//! Which frames can be protected, and how they are found again.
use vstd::prelude::*;
use crate::mm::file_buf_witness::{looked_open, reported, Snapshot};
use crate::mm::vmm::small_pte;
use crate::mm::vmm_laws::lemma_entry_arith;
use crate::mm::w215_wptrap::{held, maps, page_of, ProtEntry, WpView};

verus! {

/// A frame can be protected where it lies between 256 MiB and 1 GiB.
pub proof fn law_which_frames_can_be_protected(phys: u64)
    ensures
        WpView::in_window(phys) <==> phys >= 0x1000_0000 && phys < 0x4000_0000,
        page_of(phys) % 4096 == 0,
        page_of(phys) <= phys < page_of(phys) + 4096,
{
}

/// A frame is protected where a place holds it; every address in it is.
pub proof fn law_protected_frame_is_found(w: WpView, i: int, phys: u64)
    requires
        w.wf(),
        0 <= i < 64,
        w.slots[i].phys > 0,
        phys as int / 4096 == w.slots[i].phys as int / 4096,
    ensures
        w.protects(phys),
{
    assert(page_of(phys) == w.slots[i].phys);
}

/// A frame that no place holds is not protected.
pub proof fn law_other_frames_are_not_protected(w: WpView, phys: u64)
    requires
        w.wf(),
        forall|i: int|
            0 <= i < 64 ==> (#[trigger] w.slots[i]).phys == 0 || w.slots[i].phys as int / 4096
                != phys as int / 4096,
    ensures
        !w.protects(phys),
{
    if w.protects(phys) {
        let i = choose|i: int|
            0 <= i < w.slots.len() && (#[trigger] w.slots[i]).phys == page_of(phys);
        assert(w.slots[i].phys as int / 4096 == phys as int / 4096);
    }
}

/// The places that hold a frame are counted: one that is filled adds one, and one that is
/// emptied takes one away.
pub proof fn law_held_places_are_counted(s: Seq<ProtEntry>, n: int, i: int, e: ProtEntry)
    requires
        0 <= i < n <= s.len(),
    ensures
        held(s.update(i, e), n) - held(s, n) == (if e.phys > 0 {
            1int
        } else {
            0
        }) - (if s[i].phys > 0 {
            1int
        } else {
            0
        }),
        0 <= held(s, n) <= n,
    decreases n,
{
    if i == n - 1 {
        lemma_held_apart(s, n - 1, i, e);
    } else {
        law_held_places_are_counted(s, n - 1, i, e);
    }
}

proof fn lemma_held_apart(s: Seq<ProtEntry>, n: int, i: int, e: ProtEntry)
    requires
        0 <= n <= i < s.len(),
    ensures
        held(s.update(i, e), n) == held(s, n),
        0 <= held(s, n) <= n,
    decreases n,
{
    if n > 0 {
        lemma_held_apart(s, n - 1, i, e);
    }
}

/// A probe holds where a small page maps the address to the frame, with bit 1 as asked.
pub proof fn law_what_a_probe_asks(mem: Seq<u64>, root: u64, va: u64, phys: u64, writable: bool)
    ensures
        maps(mem, root, va, phys, writable) <==> small_pte(mem, root, va) is Some && ({
            let e = small_pte(mem, root, va)->0;
            (e / 2 % 2 == 1) == writable && e % 0x10_0000_0000_0000 - e % 0x1000 == phys
        }),
{
    if let Some(e) = small_pte(mem, root, va) {
        lemma_entry_arith(e);
    }
}

/// The first sixteen changes of a buffer are reported, and every 1024th.
pub proof fn law_which_changes_are_reported(n: u64)
    ensures
        reported(n) <==> n <= 16 || n % 1024 == 0,
{
}

/// A buffer looked open where it had an address of user memory and a size.
pub proof fn law_what_an_open_buffer_is(s: Snapshot)
    ensures
        looked_open(s) <==> s.pre_size > 0 && s.pre_buf > 0 && s.pre_buf < 0x1_0000_0000_0000,
{
}

} // verus!
