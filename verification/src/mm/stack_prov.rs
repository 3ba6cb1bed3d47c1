//! Who wrote to a user stack from the kernel.
//!
//! Writes of the kernel to two windows of the user address space go on record twice:
//! by frame, and in order.  A later fault then names the last writers of a frame.
use vstd::prelude::*;
use crate::mm::physmem::{qword_at, PhysMem};
use crate::mm::vmm::{lemma_translation_bound, translate, virt_to_phys_in};

verus! {

/// Start of the window of thread stacks.
pub const STACK_PROV_VA_LO: u64 = 0x0000_3f00_0000_0000;

/// End of the window of thread stacks.
pub const STACK_PROV_VA_HI: u64 = 0x0000_4000_0000_0000;

/// Top of the main user stack.
pub const USER_STACK_TOP: u64 = 0x0000_7FFF_FFFF_0000;

/// Pages of the main stack that are watched.
pub const STACK_PROV_TOP_PAGES: u64 = 64;

/// Start of the watched part of the main stack.
pub const STACK_PROV_TOP_LO: u64 = 0x0000_7FFF_FFFB_0000;

/// End of the watched part of the main stack.
pub const STACK_PROV_TOP_HI: u64 = 0x0000_7FFF_FFFF_0000;

pub const SITE_VFORK_STACK_SEED: u8 = 1;

pub const SITE_VFORK_TLS_INIT: u8 = 2;

pub const SITE_ELF_AUXV: u8 = 3;

pub const SITE_ELF_AUXV_BYTES: u8 = 4;

pub const SITE_EXEC_TRAMP: u8 = 5;

pub const SITE_EXEC_TEB: u8 = 6;

pub const SITE_GENERIC: u8 = 7;

pub const SITE_CLEARTID: u8 = 8;

pub const SITE_ARGV_BUILD: u8 = 9;

/// Slots of each of the two records.
pub const RING_SIZE: u64 = 256;

/// Finds that are reported at once.
pub const ZEROING_LOG_CAP: u64 = 8;

/// Writes that one dump lists.
pub const DUMP_PER_INVOC_CAP: usize = 16;

/// One write.
#[derive(Clone, Copy, PartialEq, Eq, Structural, Debug)]
pub struct Record {
    /// Frame that it went to; zero marks an empty slot, or an address without a frame.
    pub phys: u64,
    pub va: u64,
    /// What was written.
    pub val: u64,
    /// What was there before, where that was looked at.
    pub old_val: u64,
    /// Number of the write.
    pub seq: u64,
    pub pid: u32,
    pub tid: u32,
    /// Return address of the writer.
    pub rip: u64,
    /// Low part of the system call count.
    pub sc: u32,
    /// Low part of the tick.
    pub tick: u16,
    pub cpu: u8,
    pub site: u8,
    /// Low part of the number of the root's frame.
    pub cr3_lo16: u16,
    /// It cleared a word that was not zero.
    pub zeroing: bool,
    /// It went to the watched part of the main stack.
    pub top: bool,
}

/// Who writes, and when.
#[derive(Clone, Copy, PartialEq, Eq, Structural, Debug)]
pub struct Writer {
    pub pid: u64,
    pub tid: u64,
    pub rip: u64,
    pub syscalls: u64,
    pub tick: u64,
    pub cpu: u64,
    /// Root that the processor runs on.
    pub cr3: u64,
}

/// The records.
pub struct StackProv {
    pub by_phys: Vec<Record>,
    pub sequence: Vec<Record>,
    pub next_seq: u64,
    pub recorded: u64,
    pub argv_zeroing: u64,
    pub top_records: u64,
    pub displaced: u64,
    pub dropped: u64,
}

/// What the records hold.
#[verifier::ext_equal]
pub struct ProvView {
    pub by_phys: Seq<Record>,
    pub sequence: Seq<Record>,
    pub next_seq: u64,
    pub recorded: u64,
    pub argv_zeroing: u64,
    pub top_records: u64,
    pub displaced: u64,
    pub dropped: u64,
}

impl View for StackProv {
    type V = ProvView;

    open spec fn view(&self) -> ProvView {
        ProvView {
            by_phys: self.by_phys@,
            sequence: self.sequence@,
            next_seq: self.next_seq,
            recorded: self.recorded,
            argv_zeroing: self.argv_zeroing,
            top_records: self.top_records,
            displaced: self.displaced,
            dropped: self.dropped,
        }
    }
}

/// The address lies in the window of thread stacks.
pub open spec fn on_thread_stack(va: u64) -> bool {
    STACK_PROV_VA_LO <= va < STACK_PROV_VA_HI
}

/// The address lies in the watched part of the main stack.
pub open spec fn on_main_stack_top(va: u64) -> bool {
    STACK_PROV_TOP_LO <= va < STACK_PROV_TOP_HI
}

/// Start of the page of an address.
pub open spec fn page_start(phys: u64) -> u64 {
    (phys - phys % 4096) as u64
}

/// The slot of an empty record.
pub open spec fn no_record() -> Record {
    Record {
        phys: 0,
        va: 0,
        val: 0,
        old_val: 0,
        seq: 0,
        pid: 0,
        tid: 0,
        rip: 0,
        sc: 0,
        tick: 0,
        cpu: 0,
        site: 0,
        cr3_lo16: 0,
        zeroing: false,
        top: false,
    }
}

/// The frame that the address has in the address space, zero where it has none.
pub open spec fn frame_behind(mem: Seq<u64>, cr3: u64, va: u64) -> u64 {
    match translate(mem, cr3, va) {
        Some(p) => page_start(p),
        None => 0,
    }
}

/// The word at the address in the address space, zero where it has none or crosses into
/// the next page.
pub open spec fn word_behind(mem: Seq<u64>, cr3: u64, va: u64) -> u64 {
    match translate(mem, cr3, va) {
        Some(p) => if va % 4096 <= 0xFF8 {
            qword_at(mem, p as int)
        } else {
            0
        },
        None => 0,
    }
}

/// The record of a write.
pub open spec fn record_of(
    w: Writer,
    seq: u64,
    va: u64,
    old_val: u64,
    new_val: u64,
    phys: u64,
    site: u8,
    top: bool,
) -> Record {
    Record {
        phys: page_start(phys),
        va,
        val: new_val,
        old_val,
        seq,
        pid: (w.pid % 0x1_0000_0000) as u32,
        tid: (w.tid % 0x1_0000_0000) as u32,
        rip: w.rip,
        sc: (w.syscalls % 0x1_0000_0000) as u32,
        tick: (w.tick % 0x1_0000) as u16,
        cpu: (w.cpu % 0x100) as u8,
        site,
        cr3_lo16: (w.cr3 / 4096 % 0x1_0000) as u16,
        zeroing: top && old_val != 0 && new_val == 0,
        top,
    }
}

/// Slot of a frame.
pub open spec fn frame_slot(phys: u64) -> int {
    (phys / 4096 % RING_SIZE) as int
}

/// Slot of a write's number.
pub open spec fn seq_slot(seq: u64) -> int {
    (seq % RING_SIZE) as int
}

impl ProvView {
    pub open spec fn wf(self) -> bool {
        self.by_phys.len() == RING_SIZE && self.sequence.len() == RING_SIZE
    }

    /// With the record put into both rings.
    pub open spec fn with_record(self, r: Record) -> ProvView {
        ProvView {
            by_phys: if r.phys != 0 {
                self.by_phys.update(frame_slot(r.phys), r)
            } else {
                self.by_phys
            },
            sequence: self.sequence.update(seq_slot(r.seq), r),
            next_seq: self.next_seq.wrapping_add(1),
            ..self
        }
    }

    /// After a write was put on record.
    pub open spec fn after_store(
        self,
        w: Writer,
        va: u64,
        old_val: u64,
        new_val: u64,
        phys: u64,
        site: u8,
        top: bool,
    ) -> ProvView {
        let r = record_of(w, self.next_seq, va, old_val, new_val, phys, site, top);
        let was = self.by_phys[frame_slot(r.phys)].phys;
        ProvView {
            recorded: self.recorded.wrapping_add(1),
            top_records: if top {
                self.top_records.wrapping_add(1)
            } else {
                self.top_records
            },
            argv_zeroing: if r.zeroing {
                self.argv_zeroing.wrapping_add(1)
            } else {
                self.argv_zeroing
            },
            displaced: if r.phys != 0 && was != 0 && was != r.phys {
                self.displaced.wrapping_add(1)
            } else {
                self.displaced
            },
            ..self.with_record(r)
        }
    }

    /// The write that is put on record now is to be reported at once.
    pub open spec fn reports(self, old_val: u64, new_val: u64, top: bool) -> bool {
        top && old_val != 0 && new_val == 0 && self.argv_zeroing.wrapping_add(1) <= ZEROING_LOG_CAP
    }
}

/// Whether the address lies in the window of thread stacks.
fn in_window(va: u64) -> (r: bool)
    ensures
        r == on_thread_stack(va),
{
    va >= STACK_PROV_VA_LO && va < STACK_PROV_VA_HI
}

/// Whether the address lies in the watched part of the main stack.
pub fn in_top_window(va: u64) -> (r: bool)
    ensures
        r == on_main_stack_top(va),
{
    va >= STACK_PROV_TOP_LO && va < STACK_PROV_TOP_HI
}

/// The name of a writing place.
pub open spec fn site_name(tag: u8) -> Seq<char> {
    if tag == 1 {
        "VFORK_STACK_SEED"@
    } else if tag == 2 {
        "VFORK_TLS_INIT"@
    } else if tag == 3 {
        "ELF_AUXV"@
    } else if tag == 4 {
        "ELF_AUXV_BYTES"@
    } else if tag == 5 {
        "EXEC_TRAMP"@
    } else if tag == 6 {
        "EXEC_TEB"@
    } else if tag == 7 {
        "GENERIC"@
    } else if tag == 8 {
        "CLEARTID"@
    } else if tag == 9 {
        "ARGV_BUILD"@
    } else {
        "?"@
    }
}

/// The name of a writing place.
pub fn site_str(tag: u8) -> (r: &'static str)
    ensures
        r@ == site_name(tag),
{
    match tag {
        1 => "VFORK_STACK_SEED",
        2 => "VFORK_TLS_INIT",
        3 => "ELF_AUXV",
        4 => "ELF_AUXV_BYTES",
        5 => "EXEC_TRAMP",
        6 => "EXEC_TEB",
        7 => "GENERIC",
        8 => "CLEARTID",
        9 => "ARGV_BUILD",
        _ => "?",
    }
}

impl Record {
    /// An empty slot.
    pub fn empty() -> (r: Record)
        ensures
            r == no_record(),
    {
        Record {
            phys: 0,
            va: 0,
            val: 0,
            old_val: 0,
            seq: 0,
            pid: 0,
            tid: 0,
            rip: 0,
            sc: 0,
            tick: 0,
            cpu: 0,
            site: 0,
            cr3_lo16: 0,
            zeroing: false,
            top: false,
        }
    }
}

fn empty_ring() -> (r: Vec<Record>)
    ensures
        r@ == Seq::new(RING_SIZE as nat, |i: int| no_record()),
{
    let mut v: Vec<Record> = Vec::new();
    let mut i: u64 = 0;
    while i < RING_SIZE
        invariant
            i <= RING_SIZE,
            v@ == Seq::new(i as nat, |j: int| no_record()),
        decreases RING_SIZE - i,
    {
        v.push(Record::empty());
        i = i + 1;
    }
    v
}

impl StackProv {
    /// Nothing is on record.
    pub fn new() -> (r: StackProv)
        ensures
            r@.wf(),
            r@ == (ProvView {
                by_phys: Seq::new(RING_SIZE as nat, |i: int| no_record()),
                sequence: Seq::new(RING_SIZE as nat, |i: int| no_record()),
                next_seq: 1,
                recorded: 0,
                argv_zeroing: 0,
                top_records: 0,
                displaced: 0,
                dropped: 0,
            }),
    {
        StackProv {
            by_phys: empty_ring(),
            sequence: empty_ring(),
            next_seq: 1,
            recorded: 0,
            argv_zeroing: 0,
            top_records: 0,
            displaced: 0,
            dropped: 0,
        }
    }
}

/// Puts a record into both rings.
fn put_record(p: &mut StackProv, r: Record)
    requires
        old(p)@.wf(),
    ensures
        final(p)@.wf(),
        final(p)@ == old(p)@.with_record(r),
{
    let _blen: usize = p.by_phys.len();
    let _slen: usize = p.sequence.len();
    if r.phys != 0 {
        p.by_phys.set((r.phys / 4096 % RING_SIZE) as usize, r);
    }
    p.sequence.set((r.seq % RING_SIZE) as usize, r);
    p.next_seq = p.next_seq.wrapping_add(1);
}

/// Puts a write to the frame of `phys` on record; says whether it is to be reported at
/// once.
pub fn store_record_with_phys(
    p: &mut StackProv,
    w: Writer,
    va: u64,
    old_val: u64,
    new_val: u64,
    phys: u64,
    site: u8,
    top: bool,
) -> (report: bool)
    requires
        old(p)@.wf(),
    ensures
        final(p)@.wf(),
        final(p)@ == old(p)@.after_store(w, va, old_val, new_val, phys, site, top),
        report == old(p)@.reports(old_val, new_val, top),
{
    let r = Record {
        phys: phys - phys % 4096,
        va,
        val: new_val,
        old_val,
        seq: p.next_seq,
        pid: (w.pid % 0x1_0000_0000) as u32,
        tid: (w.tid % 0x1_0000_0000) as u32,
        rip: w.rip,
        sc: (w.syscalls % 0x1_0000_0000) as u32,
        tick: (w.tick % 0x1_0000) as u16,
        cpu: (w.cpu % 0x100) as u8,
        site,
        cr3_lo16: (w.cr3 / 4096 % 0x1_0000) as u16,
        zeroing: top && old_val != 0 && new_val == 0,
        top,
    };
    if r.phys != 0 {
        let _len: usize = p.by_phys.len();
        let was: u64 = p.by_phys[(r.phys / 4096 % RING_SIZE) as usize].phys;
        if was != 0 && was != r.phys {
            p.displaced = p.displaced.wrapping_add(1);
        }
    }
    put_record(p, r);
    p.recorded = p.recorded.wrapping_add(1);
    if top {
        p.top_records = p.top_records.wrapping_add(1);
    }
    if r.zeroing {
        p.argv_zeroing = p.argv_zeroing.wrapping_add(1);
        return p.argv_zeroing <= ZEROING_LOG_CAP;
    }
    false
}

/// The frame behind an address, zero where there is none.
fn resolve_frame(mem: &PhysMem, cr3: u64, va: u64) -> (r: u64)
    ensures
        r == frame_behind(mem@, cr3, va),
{
    match virt_to_phys_in(mem, cr3, va) {
        Some(p) => p - p % 4096,
        None => 0,
    }
}

/// The word behind an address.
fn read_word_behind(mem: &PhysMem, cr3: u64, va: u64) -> (r: u64)
    ensures
        r == word_behind(mem@, cr3, va),
{
    match virt_to_phys_in(mem, cr3, va) {
        Some(p) => if va % 4096 <= 0xFF8 {
            proof {
                lemma_translation_bound(mem@, cr3, va);
            }
            mem.read_qword(p)
        } else {
            0
        },
        None => 0,
    }
}

/// Puts a write to a thread stack on record; one to another place is counted only.
pub fn record_write(p: &mut StackProv, mem: &PhysMem, w: Writer, va: u64, val: u64, site_tag: u8)
    requires
        old(p)@.wf(),
    ensures
        final(p)@.wf(),
        final(p)@ == (if on_thread_stack(va) {
            old(p)@.after_store(w, va, 0, val, frame_behind(mem@, w.cr3, va), site_tag, false)
        } else {
            ProvView { dropped: old(p)@.dropped.wrapping_add(1), ..old(p)@ }
        }),
{
    if !in_window(va) {
        p.dropped = p.dropped.wrapping_add(1);
        return;
    }
    let phys: u64 = resolve_frame(mem, w.cr3, va);
    let _report: bool = store_record_with_phys(p, w, va, 0, val, phys, site_tag, false);
}

/// Puts a write to the watched part of the main stack on record, before it is made: what
/// is there now goes with it.  Says whether it is to be reported at once.
pub fn record_top_window_write(
    p: &mut StackProv,
    mem: &PhysMem,
    w: Writer,
    va: u64,
    new_val: u64,
    site_tag: u8,
) -> (report: bool)
    requires
        old(p)@.wf(),
    ensures
        final(p)@.wf(),
        ({
            let was = word_behind(mem@, w.cr3, va);
            if on_main_stack_top(va) {
                &&& final(p)@ == old(p)@.after_store(
                    w,
                    va,
                    was,
                    new_val,
                    frame_behind(mem@, w.cr3, va),
                    site_tag,
                    true,
                )
                &&& report == old(p)@.reports(was, new_val, true)
            } else {
                final(p)@ == old(p)@ && !report
            }
        }),
{
    if !in_top_window(va) {
        return false;
    }
    let was: u64 = read_word_behind(mem, w.cr3, va);
    let phys: u64 = resolve_frame(mem, w.cr3, va);
    store_record_with_phys(p, w, va, was, new_val, phys, site_tag, true)
}

/// As [`record_top_window_write`], for a write to the address space with the root `cr3`,
/// which need not be the one that the processor runs on.
pub fn record_top_window_write_cr3(
    p: &mut StackProv,
    mem: &PhysMem,
    w: Writer,
    va: u64,
    new_val: u64,
    cr3: u64,
    site_tag: u8,
) -> (report: bool)
    requires
        old(p)@.wf(),
    ensures
        final(p)@.wf(),
        ({
            let was = word_behind(mem@, cr3, va);
            if on_main_stack_top(va) {
                &&& final(p)@ == old(p)@.after_store(
                    w,
                    va,
                    was,
                    new_val,
                    frame_behind(mem@, cr3, va),
                    site_tag,
                    true,
                )
                &&& report == old(p)@.reports(was, new_val, true)
            } else {
                final(p)@ == old(p)@ && !report
            }
        }),
{
    if !in_top_window(va) {
        return false;
    }
    let was: u64 = read_word_behind(mem, cr3, va);
    let phys: u64 = resolve_frame(mem, cr3, va);
    store_record_with_phys(p, w, va, was, new_val, phys, site_tag, true)
}

/// As [`record_top_window_write`], for a writer that knows the frame: the write that
/// builds the stack, of which what was there before does not matter.
pub fn record_top_window_write_phys(
    p: &mut StackProv,
    w: Writer,
    va: u64,
    new_val: u64,
    phys: u64,
    site_tag: u8,
)
    requires
        old(p)@.wf(),
    ensures
        final(p)@.wf(),
        final(p)@ == (if on_main_stack_top(va) {
            old(p)@.after_store(w, va, 0, new_val, phys, site_tag, true)
        } else {
            old(p)@
        }),
{
    if !in_top_window(va) {
        return;
    }
    let _report: bool = store_record_with_phys(p, w, va, 0, new_val, phys, site_tag, true);
}

/// The records among the first `n` of `s` that went to the page, of the watched part of
/// the main stack only where `top` says so.
pub open spec fn on_page(s: Seq<Record>, n: int, page: u64, top: bool) -> Seq<Record>
    decreases n,
{
    if n <= 0 {
        Seq::empty()
    } else {
        let before = on_page(s, n - 1, page, top);
        if s[n - 1].phys == page && (!top || s[n - 1].top) {
            before.push(s[n - 1])
        } else {
            before
        }
    }
}

/// The first `n` of `s`, or all where there are fewer.
pub open spec fn at_most(s: Seq<Record>, n: int) -> Seq<Record> {
    if s.len() <= n {
        s
    } else {
        s.take(n)
    }
}

/// What a dump for a frame says.
pub struct ProvDump {
    pub phys: u64,
    /// Writes to the frame in the record by order.
    pub entries: usize,
    pub recorded: u64,
    pub displaced: u64,
    pub dropped: u64,
    /// The last writer by the record by frame.
    pub by_phys: Option<Record>,
    /// Writers by the record by order.
    pub by_seq: Vec<Record>,
}

/// The records that went to the page, `limit` of them at most, and how many there are.
fn collect(s: &Vec<Record>, page: u64, top: bool, limit: usize) -> (r: (Vec<Record>, usize))
    ensures
        r.1 == on_page(s@, s@.len() as int, page, top).len(),
        r.0@ == at_most(on_page(s@, s@.len() as int, page, top), limit as int),
{
    let mut out: Vec<Record> = Vec::new();
    let mut total: usize = 0;
    let n: usize = s.len();
    let mut i: usize = 0;
    while i < n
        invariant
            n == s@.len(),
            i <= n,
            total <= i,
            total == on_page(s@, i as int, page, top).len(),
            out@ == at_most(on_page(s@, i as int, page, top), limit as int),
        decreases n - i,
    {
        let r: Record = s[i];
        let ghost before = on_page(s@, i as int, page, top);
        if r.phys == page && (!top || r.top) {
            if total < limit {
                out.push(r);
            }
            total = total + 1;
            proof {
                assert(on_page(s@, i + 1, page, top) == before.push(r));
                assert(out@ =~= at_most(before.push(r), limit as int));
            }
        }
        i = i + 1;
    }
    (out, total)
}

/// The writers of the frame of `phys_page`.
pub fn dump_for_phys(p: &StackProv, phys_page: u64) -> (r: ProvDump)
    requires
        p@.wf(),
    ensures
        ({
            let page = page_start(phys_page);
            let hit = p@.by_phys[frame_slot(page)];
            let all = on_page(p@.sequence, RING_SIZE as int, page, false);
            &&& r.phys == page
            &&& r.entries == all.len()
            &&& r.recorded == p@.recorded
            &&& r.displaced == p@.displaced
            &&& r.dropped == p@.dropped
            &&& r.by_phys == (if hit.phys == page {
                Some(hit)
            } else {
                None
            })
            &&& r.by_seq@ == at_most(
                all,
                if hit.phys == page {
                    DUMP_PER_INVOC_CAP - 1
                } else {
                    DUMP_PER_INVOC_CAP as int
                },
            )
        }),
{
    let page: u64 = phys_page - phys_page % 4096;
    let _len: usize = p.by_phys.len();
    let hit: Record = p.by_phys[(page / 4096 % RING_SIZE) as usize];
    let by_phys: Option<Record> = if hit.phys == page {
        Some(hit)
    } else {
        None
    };
    let limit: usize = if hit.phys == page {
        DUMP_PER_INVOC_CAP - 1
    } else {
        DUMP_PER_INVOC_CAP
    };
    let (by_seq, entries) = collect(&p.sequence, page, false, limit);
    ProvDump {
        phys: page,
        entries,
        recorded: p.recorded,
        displaced: p.displaced,
        dropped: p.dropped,
        by_phys,
        by_seq,
    }
}

/// The writers of the frame of `phys_page` whose writes went to the watched part of the
/// main stack.
pub fn dump_argv_writer_for_phys(p: &StackProv, phys_page: u64) -> (r: Vec<Record>)
    requires
        p@.wf(),
    ensures
        r@ == at_most(
            on_page(p@.sequence, RING_SIZE as int, page_start(phys_page), true),
            DUMP_PER_INVOC_CAP as int,
        ),
{
    let (r, _total) = collect(
        &p.sequence,
        phys_page - phys_page % 4096,
        true,
        DUMP_PER_INVOC_CAP,
    );
    r
}

/// Writes that were put on record.
pub fn recorded_count(p: &StackProv) -> (n: u64)
    ensures
        n == p@.recorded,
{
    p.recorded
}

/// Writes that took the slot of another frame.
pub fn displaced_count(p: &StackProv) -> (n: u64)
    ensures
        n == p@.displaced,
{
    p.displaced
}

/// Writes outside the window.
pub fn dropped_count(p: &StackProv) -> (n: u64)
    ensures
        n == p@.dropped,
{
    p.dropped
}

/// Writes to the watched part of the main stack that cleared a word.
pub fn argv_zeroing_count(p: &StackProv) -> (n: u64)
    ensures
        n == p@.argv_zeroing,
{
    p.argv_zeroing
}

/// Writes to the watched part of the main stack.
pub fn top_window_count(p: &StackProv) -> (n: u64)
    ensures
        n == p@.top_records,
{
    p.top_records
}

/// The record of a made-up write.
pub open spec fn injected(
    seq: u64,
    va: u64,
    old_val: u64,
    new_val: u64,
    rip: u64,
    phys: u64,
    site: u8,
) -> Record {
    record_of(
        Writer { pid: 0, tid: 0, rip, syscalls: 0, tick: 0, cpu: 0, cr3: 0 },
        seq,
        va,
        old_val,
        new_val,
        phys,
        site,
        true,
    )
}

/// Puts a made-up write to the watched part of the main stack on record.
pub fn test_inject_top_window_record(
    p: &mut StackProv,
    va: u64,
    old_val: u64,
    new_val: u64,
    rip: u64,
    phys: u64,
    site_tag: u8,
)
    requires
        old(p)@.wf(),
    ensures
        final(p)@.wf(),
        final(p)@ == (ProvView {
            top_records: old(p)@.top_records.wrapping_add(1),
            argv_zeroing: if old_val != 0 && new_val == 0 {
                old(p)@.argv_zeroing.wrapping_add(1)
            } else {
                old(p)@.argv_zeroing
            },
            ..old(p)@.with_record(
                injected(old(p)@.next_seq, va, old_val, new_val, rip, phys, site_tag),
            )
        }),
{
    let zeroing: bool = old_val != 0 && new_val == 0;
    let r = Record {
        phys: phys - phys % 4096,
        va,
        val: new_val,
        old_val,
        seq: p.next_seq,
        pid: 0,
        tid: 0,
        rip,
        sc: 0,
        tick: 0,
        cpu: 0,
        site: site_tag,
        cr3_lo16: 0,
        zeroing,
        top: true,
    };
    put_record(p, r);
    p.top_records = p.top_records.wrapping_add(1);
    if zeroing {
        p.argv_zeroing = p.argv_zeroing.wrapping_add(1);
    }
}

/// Record `i` is a write to the address in the watched part of the main stack.
pub open spec fn writes_va(s: Seq<Record>, i: int, va: u64) -> bool {
    0 <= i < s.len() && s[i].va == va && s[i].top
}

/// Record `i` is the last write to the address in the watched part of the main stack: it
/// has the highest number, and the last slot of several.
pub open spec fn last_writer(s: Seq<Record>, i: int, va: u64) -> bool {
    &&& writes_va(s, i, va)
    &&& forall|j: int| #[trigger]
        writes_va(s, j, va) ==> s[j].seq < s[i].seq || (s[j].seq == s[i].seq && j <= i)
}

/// Return address, old and new value of the last write to the address in the watched part
/// of the main stack.
pub fn test_lookup_writer_for_va(p: &StackProv, va: u64) -> (r: Option<(u64, u64, u64)>)
    requires
        p@.wf(),
    ensures
        r is None <==> forall|i: int| !writes_va(p@.sequence, i, va),
        forall|i: int| #[trigger]
            last_writer(p@.sequence, i, va) ==> r == Some(
                (p@.sequence[i].rip, p@.sequence[i].old_val, p@.sequence[i].val),
            ),
{
    let mut best: Option<usize> = None;
    let n: usize = p.sequence.len();
    let mut i: usize = 0;
    while i < n
        invariant
            n == p@.sequence.len(),
            i <= n,
            best is None ==> forall|j: int| 0 <= j < i ==> !#[trigger] writes_va(
                p@.sequence,
                j,
                va,
            ),
            best matches Some(b) ==> b < i && writes_va(p@.sequence, b as int, va) && forall|j: int|
                0 <= j < i && #[trigger] writes_va(p@.sequence, j, va) ==> p@.sequence[j].seq
                    < p@.sequence[b as int].seq || (p@.sequence[j].seq
                    == p@.sequence[b as int].seq && j <= b),
        decreases n - i,
    {
        let r: Record = p.sequence[i];
        if r.va == va && r.top {
            assert(writes_va(p@.sequence, i as int, va));
            match best {
                None => {
                    best = Some(i);
                },
                Some(b) => {
                    if r.seq >= p.sequence[b].seq {
                        best = Some(i);
                    }
                },
            }
        }
        i = i + 1;
    }
    match best {
        None => {
            assert forall|j: int| !writes_va(p@.sequence, j, va) by {
                if writes_va(p@.sequence, j, va) {
                    assert(!writes_va(p@.sequence, j, va));
                }
            }
            None
        },
        Some(b) => {
            assert(last_writer(p@.sequence, b as int, va));
            assert forall|j: int| #[trigger] last_writer(p@.sequence, j, va) implies j == b by {
                assert(writes_va(p@.sequence, j, va));
                assert(writes_va(p@.sequence, b as int, va));
            }
            let r: Record = p.sequence[b];
            Some((r.rip, r.old_val, r.val))
        },
    }
}

/// A write is found under its frame until another write takes the slot.
pub proof fn law_last_write_is_found_by_frame(
    p: ProvView,
    w: Writer,
    va: u64,
    old_val: u64,
    new_val: u64,
    phys: u64,
    site: u8,
    top: bool,
)
    requires
        p.wf(),
        page_start(phys) != 0,
    ensures
        p.after_store(w, va, old_val, new_val, phys, site, top).by_phys[frame_slot(
            page_start(phys),
        )] == record_of(w, p.next_seq, va, old_val, new_val, phys, site, top),
{
}

/// All numbers on record were given out before.
pub open spec fn numbered(p: ProvView) -> bool {
    forall|i: int| 0 <= i < p.sequence.len() ==> (#[trigger] p.sequence[i]).seq < p.next_seq
}

/// The write that was put on record last, among those to the watched part of the main
/// stack, is the one that a search for its address finds.  The numbers must not have run
/// over.
pub proof fn law_last_write_is_found_by_address(
    p: ProvView,
    w: Writer,
    va: u64,
    old_val: u64,
    new_val: u64,
    phys: u64,
    site: u8,
)
    requires
        p.wf(),
        numbered(p),
        p.next_seq < u64::MAX,
    ensures
        numbered(p.after_store(w, va, old_val, new_val, phys, site, true)),
        last_writer(
            p.after_store(w, va, old_val, new_val, phys, site, true).sequence,
            seq_slot(p.next_seq),
            va,
        ),
{
    let s = p.after_store(w, va, old_val, new_val, phys, site, true).sequence;
    let k = seq_slot(p.next_seq);
    assert(writes_va(s, k, va));
    assert forall|j: int| #[trigger] writes_va(s, j, va) implies s[j].seq < s[k].seq || (s[j].seq
        == s[k].seq && j <= k) by {
        if j != k {
            assert(s[j] == p.sequence[j]);
        }
    }
}

/// A write that clears a word of the watched part of the main stack is marked as such and
/// counted; no other write is.
pub proof fn law_clearing_writes_are_marked(
    p: ProvView,
    w: Writer,
    va: u64,
    old_val: u64,
    new_val: u64,
    phys: u64,
    site: u8,
    top: bool,
)
    requires
        p.wf(),
        p.argv_zeroing < u64::MAX,
    ensures
        ({
            let after = p.after_store(w, va, old_val, new_val, phys, site, top);
            let cleared = top && old_val != 0 && new_val == 0;
            &&& after.sequence[seq_slot(p.next_seq)].zeroing == cleared
            &&& after.argv_zeroing == p.argv_zeroing + (if cleared {
                1int
            } else {
                0
            })
        }),
{
}

/// A write that is put on record moves each counter as it should, and is found.
///
/// It is counted as a write, as one to the watched part of the main stack where it is one,
/// and as a clearing one where it clears a word there.  A record of another frame that it
/// takes the place of is counted as displaced.  A write to the watched part is then what a
/// search for its address finds, with its return address, old and new value.  No counter may
/// have run over.
pub proof fn law_stored_write_is_counted_and_found(
    p: ProvView,
    w: Writer,
    va: u64,
    old_val: u64,
    new_val: u64,
    phys: u64,
    site: u8,
    top: bool,
)
    requires
        p.wf(),
        numbered(p),
        p.next_seq < u64::MAX,
        p.recorded < u64::MAX,
        p.top_records < u64::MAX,
        p.argv_zeroing < u64::MAX,
        p.displaced < u64::MAX,
    ensures
        ({
            let after = p.after_store(w, va, old_val, new_val, phys, site, top);
            let frame = page_start(phys);
            let held = p.by_phys[frame_slot(frame)].phys;
            let at = seq_slot(p.next_seq);
            &&& after.recorded == p.recorded + 1
            &&& after.top_records == p.top_records + (if top {
                1int
            } else {
                0
            })
            &&& after.argv_zeroing == p.argv_zeroing + (if top && old_val != 0 && new_val == 0 {
                1int
            } else {
                0
            })
            &&& after.displaced == p.displaced + (if frame != 0 && held != 0 && held != frame {
                1int
            } else {
                0
            })
            &&& after.dropped == p.dropped
            &&& top ==> {
                &&& last_writer(after.sequence, at, va)
                &&& after.sequence[at].rip == w.rip
                &&& after.sequence[at].old_val == old_val
                &&& after.sequence[at].val == new_val
            }
        }),
{
    if top {
        law_last_write_is_found_by_address(p, w, va, old_val, new_val, phys, site);
    }
}

} // verus!
