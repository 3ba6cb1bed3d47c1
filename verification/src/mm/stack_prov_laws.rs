//! What the record of writes to user stacks promises.
use vstd::prelude::*;
use crate::mm::physmem::qword_at;
use crate::mm::stack_prov::{
    at_most, frame_behind, on_main_stack_top, on_page, on_thread_stack, page_start, record_of,
    site_name, word_behind, ProvView, Record, Writer,
};
use crate::mm::vmm::translate;

verus! {

/// The windows: the stacks of threads lie in the TiB below 64 TiB, and the top of the main stack
/// is the last 64 pages below the place where it starts.
pub proof fn law_stack_windows(va: u64)
    ensures
        on_thread_stack(va) <==> va >= 0x3F00_0000_0000 && va < 0x4000_0000_0000,
        on_main_stack_top(va) <==> va < 0x7FFF_FFFF_0000 && 0x7FFF_FFFF_0000 - va <= 64 * 4096,
        !(on_thread_stack(va) && on_main_stack_top(va)),
{
}

/// A frame starts at a multiple of 4096.
pub proof fn law_frame_starts(phys: u64)
    ensures
        page_start(phys) % 4096 == 0,
        page_start(phys) <= phys < page_start(phys) + 4096,
{
}

/// A record holds who wrote what where, each number cut to the width of its field.
pub proof fn law_record_tells_the_write(
    w: Writer,
    seq: u64,
    va: u64,
    old_val: u64,
    new_val: u64,
    phys: u64,
    site: u8,
    top: bool,
)
    ensures
        ({
            let r = record_of(w, seq, va, old_val, new_val, phys, site, top);
            &&& r.phys == phys - phys % 4096
            &&& r.va == va
            &&& r.val == new_val
            &&& r.old_val == old_val
            &&& r.seq == seq
            &&& r.rip == w.rip
            &&& r.site == site
            &&& r.top == top
            &&& w.pid < 0x1_0000_0000 ==> r.pid == w.pid
            &&& w.tid < 0x1_0000_0000 ==> r.tid == w.tid
            &&& w.syscalls < 0x1_0000_0000 ==> r.sc == w.syscalls
            &&& w.tick < 0x1_0000 ==> r.tick == w.tick
            &&& w.cpu < 0x100 ==> r.cpu == w.cpu
            &&& w.cr3 < 0x1000_0000 ==> r.cr3_lo16 == w.cr3 / 4096
            &&& r.zeroing <==> top && old_val > 0 && new_val == 0
        }),
{
}

/// The first eight writes that clear a word at the top of the main stack are reported.
pub proof fn law_first_clearing_writes_are_reported(
    p: ProvView,
    old_val: u64,
    new_val: u64,
    top: bool,
)
    requires
        p.argv_zeroing < u64::MAX,
    ensures
        p.reports(old_val, new_val, top) <==> top && old_val > 0 && new_val == 0 && p.argv_zeroing
            < 8,
{
}

/// The frame behind an address, and the word there; an address that is not mapped has neither,
/// and of a word that reaches into the next page nothing is read.
pub proof fn law_what_lies_behind_an_address(mem: Seq<u64>, cr3: u64, va: u64)
    ensures
        translate(mem, cr3, va) is None ==> frame_behind(mem, cr3, va) == 0 && word_behind(
            mem,
            cr3,
            va,
        ) == 0,
        translate(mem, cr3, va) matches Some(p) ==> {
            &&& frame_behind(mem, cr3, va) == p - p % 4096
            &&& va % 4096 + 8 <= 4096 ==> word_behind(mem, cr3, va) == qword_at(mem, p as int)
            &&& va % 4096 + 8 > 4096 ==> word_behind(mem, cr3, va) == 0
        },
{
}

/// A list of the writes to a page holds those that are on record, in order, and no other.
pub proof fn law_writes_to_a_page_are_listed(
    s: Seq<Record>,
    n: int,
    page: u64,
    top: bool,
    r: Record,
)
    requires
        0 <= n <= s.len(),
    ensures
        on_page(s, n, page, top).contains(r) <==> s.take(n).contains(r) && r.phys == page && (top
            ==> r.top),
        on_page(s, n, page, top).len() <= n,
    decreases n,
{
    if n > 0 {
        law_writes_to_a_page_are_listed(s, n - 1, page, top, r);
        let before = on_page(s, n - 1, page, top);
        lemma_pushed(before, s[n - 1], r);
        lemma_pushed(s.take(n - 1), s[n - 1], r);
        assert(s.take(n) =~= s.take(n - 1).push(s[n - 1]));
    }
}

proof fn lemma_pushed(s: Seq<Record>, x: Record, v: Record)
    ensures
        s.push(x).contains(v) <==> s.contains(v) || v == x,
{
    let p = s.push(x);
    if s.contains(v) {
        let i = choose|i: int| 0 <= i < s.len() && s[i] == v;
        assert(p[i] == v);
    }
    if p.contains(v) {
        let i = choose|i: int| 0 <= i < p.len() && p[i] == v;
        if i < s.len() {
            assert(s[i] == v);
        }
    }
    assert(p[s.len() as int] == x);
}

/// A list that is cut keeps its start.
pub proof fn law_cut_list_keeps_its_start(s: Seq<Record>, n: int, i: int)
    requires
        n >= 0,
        0 <= i < at_most(s, n).len(),
    ensures
        at_most(s, n)[i] == s[i],
        at_most(s, n).len() <= n,
        at_most(s, n).len() == s.len() || at_most(s, n).len() == n,
{
}

/// The places where the kernel writes to user stacks have these names.
pub proof fn law_site_names(tag: u8)
    ensures
        tag == 1 ==> site_name(tag) == "VFORK_STACK_SEED"@,
        tag == 2 ==> site_name(tag) == "VFORK_TLS_INIT"@,
        tag == 3 ==> site_name(tag) == "ELF_AUXV"@,
        tag == 4 ==> site_name(tag) == "ELF_AUXV_BYTES"@,
        tag == 5 ==> site_name(tag) == "EXEC_TRAMP"@,
        tag == 6 ==> site_name(tag) == "EXEC_TEB"@,
        tag == 7 ==> site_name(tag) == "GENERIC"@,
        tag == 8 ==> site_name(tag) == "CLEARTID"@,
        tag == 9 ==> site_name(tag) == "ARGV_BUILD"@,
        tag == 0 || tag > 9 ==> site_name(tag) == "?"@,
{
}

} // verus!
