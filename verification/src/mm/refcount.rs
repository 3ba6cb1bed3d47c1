//! Per-frame reference counts for copy-on-write sharing.
//!
//! A frame's count is the number of page-table entries that map it.  The table
//! exists only after [`init`]; before that every count reads as zero.
use vstd::prelude::*;

verus! {

/// Number of page frames tracked: 4 GiB of 4 KiB frames.
pub const MAX_PAGES: u64 = 0x10_0000;

/// The reference-count table and its diagnostic counters.
pub struct RefCounts {
    /// One count per frame, once the table has been set up.
    pub table: Option<Vec<u16>>,
    /// Whether the diagnostic counters are kept.
    pub diag: bool,
    /// Decrements that found the count already at zero.
    pub dec_underflow: u64,
    /// Stores that lowered a count that was not zero.
    pub set_over_nonzero: u64,
}

/// What a reference-count table holds.
pub struct RefCountsView {
    pub counts: Option<Seq<u16>>,
    pub diag: bool,
    pub dec_underflow: u64,
    pub set_over_nonzero: u64,
}

impl View for RefCounts {
    type V = RefCountsView;

    open spec fn view(&self) -> RefCountsView {
        RefCountsView {
            counts: match self.table {
                Some(t) => Some(t@),
                None => None,
            },
            diag: self.diag,
            dec_underflow: self.dec_underflow,
            set_over_nonzero: self.set_over_nonzero,
        }
    }
}

/// Frame number of a physical address.
pub open spec fn frame_of(phys: u64) -> int {
    phys as int / 4096
}

impl RefCountsView {
    /// The table, once set up, has one entry per frame.
    pub open spec fn wf(self) -> bool {
        self.counts matches Some(c) ==> c.len() == MAX_PAGES
    }

    /// The table has been set up and covers the frame of `phys`.
    pub open spec fn tracks(self, phys: u64) -> bool {
        self.counts is Some && frame_of(phys) < MAX_PAGES
    }

    /// The count of the frame of `phys`; zero where nothing is tracked.
    pub open spec fn count(self, phys: u64) -> u16 {
        if self.tracks(phys) {
            self.counts->0[frame_of(phys)]
        } else {
            0
        }
    }

    /// The table with the count of the frame of `phys` replaced.
    pub open spec fn with_count(self, phys: u64, n: u16) -> RefCountsView {
        if self.tracks(phys) {
            RefCountsView { counts: Some(self.counts->0.update(frame_of(phys), n)), ..self }
        } else {
            self
        }
    }

    /// What dropping one reference to the frame of `phys` returns.
    pub open spec fn dec_result(self, phys: u64) -> u16 {
        if self.count(phys) == 0 {
            0
        } else {
            (self.count(phys) - 1) as u16
        }
    }

    /// The table after one reference to the frame of `phys` was dropped.
    pub open spec fn after_dec(self, phys: u64) -> RefCountsView {
        if self.count(phys) > 0 {
            self.with_count(phys, (self.count(phys) - 1) as u16)
        } else if self.tracks(phys) && self.diag {
            RefCountsView { dec_underflow: self.dec_underflow.wrapping_add(1), ..self }
        } else {
            self
        }
    }

    /// The table after the count of the frame of `phys` was overwritten.
    pub open spec fn after_set(self, phys: u64, n: u16) -> RefCountsView {
        RefCountsView {
            set_over_nonzero: if self.diag && n < self.count(phys) {
                self.set_over_nonzero.wrapping_add(1)
            } else {
                self.set_over_nonzero
            },
            ..self.with_count(phys, n)
        }
    }
}

impl RefCounts {
    /// The table as it stands at boot, before [`init`].
    pub fn new(diag: bool) -> (r: RefCounts)
        ensures
            r@ == (RefCountsView { counts: None, diag, dec_underflow: 0, set_over_nonzero: 0 }),
            r@.wf(),
    {
        RefCounts { table: None, diag, dec_underflow: 0, set_over_nonzero: 0 }
    }
}

/// Sets the table up with every count at zero.  A second call changes nothing.
pub fn init(rc: &mut RefCounts)
    requires
        old(rc)@.wf(),
    ensures
        final(rc)@.wf(),
        old(rc)@.counts is Some ==> final(rc)@ == old(rc)@,
        old(rc)@.counts is None ==> final(rc)@ == (RefCountsView {
            counts: Some(Seq::new(MAX_PAGES as nat, |i: int| 0u16)),
            ..old(rc)@
        }),
{
    if rc.table.is_none() {
        let v: Vec<u16> = vec![0u16; 0x10_0000];
        assert(v@ =~= Seq::new(MAX_PAGES as nat, |i: int| 0u16));
        rc.table = Some(v);
    }
}

/// Frame number of a physical address.
pub fn pfn(phys_addr: u64) -> (r: u64)
    ensures
        r == frame_of(phys_addr),
{
    phys_addr / 4096
}

/// Adds one reference to the frame of `phys_addr`; a frame outside the tracked
/// window is ignored.  The count is kept modulo 2^16.
pub fn page_ref_inc(rc: &mut RefCounts, phys_addr: u64)
    requires
        old(rc)@.wf(),
        old(rc)@.counts is Some,
    ensures
        final(rc)@.wf(),
        final(rc)@ == old(rc)@.with_count(
            phys_addr,
            old(rc)@.count(phys_addr).wrapping_add(1),
        ),
        phys_addr < 0x1_0000_0000 && old(rc)@.count(phys_addr) < u16::MAX ==> final(rc)@.count(
            phys_addr,
        ) == old(rc)@.count(phys_addr) + 1,
        forall|other: u64|
            other as int / 4096 != phys_addr as int / 4096 ==> #[trigger] final(rc)@.count(other)
                == old(rc)@.count(other),
{
    let idx: u64 = pfn(phys_addr);
    if let Some(t) = rc.table.as_mut() {
        if idx < t.len() as u64 {
            let cur: u16 = t[idx as usize];
            t.set(idx as usize, cur.wrapping_add(1));
        }
    }
}

/// Drops one reference to the frame of `phys_addr` and returns the count that is
/// left.  A count of zero stays at zero: the call then returns zero and is noted
/// in the underflow counter.
#[must_use]
pub fn page_ref_dec(rc: &mut RefCounts, phys_addr: u64) -> (left: u16)
    requires
        old(rc)@.wf(),
        old(rc)@.counts is Some,
    ensures
        final(rc)@.wf(),
        left == old(rc)@.dec_result(phys_addr),
        final(rc)@ == old(rc)@.after_dec(phys_addr),
{
    let idx: u64 = pfn(phys_addr);
    let diag: bool = rc.diag;
    if let Some(t) = rc.table.as_mut() {
        if idx >= t.len() as u64 {
            return 0;
        }
        let cur: u16 = t[idx as usize];
        if cur == 0 {
            if diag {
                rc.dec_underflow = rc.dec_underflow.wrapping_add(1);
            }
            return 0;
        }
        t.set(idx as usize, cur - 1);
        return cur - 1;
    }
    0
}

/// Number of decrements that found a count already at zero.
pub fn page_ref_dec_underflow_count(rc: &RefCounts) -> (n: u64)
    ensures
        n == (if rc@.diag { rc@.dec_underflow } else { 0 }),
{
    if rc.diag {
        rc.dec_underflow
    } else {
        0
    }
}

/// Number of page-table entries that share the frame of `phys_addr`.
pub fn pte_share_count(rc: &RefCounts, phys_addr: u64) -> (n: u16)
    requires
        rc@.wf(),
    ensures
        n == rc@.count(phys_addr),
{
    page_ref_count(rc, phys_addr)
}

/// The reference count of the frame of `phys_addr`; zero before [`init`] and
/// outside the tracked window.
pub fn page_ref_count(rc: &RefCounts, phys_addr: u64) -> (n: u16)
    requires
        rc@.wf(),
    ensures
        n == rc@.count(phys_addr),
{
    match &rc.table {
        None => 0,
        Some(t) => {
            let idx: u64 = pfn(phys_addr);
            if idx < t.len() as u64 {
                t[idx as usize]
            } else {
                0
            }
        },
    }
}

/// Overwrites the count of the frame of `phys_addr`.  Does nothing before
/// [`init`] or outside the tracked window.  A store that lowers a count that was
/// not zero is noted.
pub fn page_ref_set(rc: &mut RefCounts, phys_addr: u64, count: u16)
    requires
        old(rc)@.wf(),
    ensures
        final(rc)@.wf(),
        final(rc)@ == old(rc)@.after_set(phys_addr, count),
{
    let idx: u64 = pfn(phys_addr);
    let diag: bool = rc.diag;
    if let Some(t) = rc.table.as_mut() {
        if idx < t.len() as u64 {
            let existing: u16 = t[idx as usize];
            if diag && existing > 0 && count < existing {
                rc.set_over_nonzero = rc.set_over_nonzero.wrapping_add(1);
            }
            t.set(idx as usize, count);
        }
    }
}

/// Number of stores that lowered a count that was not zero.
pub fn refcount_set_over_nonzero_count(rc: &RefCounts) -> (n: u64)
    ensures
        n == (if rc@.diag { rc@.set_over_nonzero } else { 0 }),
{
    if rc.diag {
        rc.set_over_nonzero
    } else {
        0
    }
}

/// A reference taken and dropped again leaves the table as it was, and the drop
/// reports the count from before: for every tracked frame below the largest count.
pub proof fn law_inc_then_dec(rc: RefCountsView, phys: u64)
    requires
        rc.wf(),
        rc.tracks(phys),
        rc.count(phys) < u16::MAX,
    ensures
        ({
            let taken = rc.with_count(phys, rc.count(phys).wrapping_add(1));
            &&& taken.dec_result(phys) == rc.count(phys)
            &&& taken.after_dec(phys) == rc
        }),
{
    let taken = rc.with_count(phys, rc.count(phys).wrapping_add(1));
    assert(taken.after_dec(phys).counts->0 =~= rc.counts->0);
}

/// Dropping a reference never wraps: the count that is left is one less, or zero
/// where it was zero already.
pub proof fn law_dec_never_wraps(rc: RefCountsView, phys: u64)
    requires
        rc.wf(),
    ensures
        rc.dec_result(phys) == rc.after_dec(phys).count(phys),
        rc.count(phys) > 0 ==> rc.dec_result(phys) == rc.count(phys) - 1,
        rc.count(phys) == 0 ==> rc.dec_result(phys) == 0,
{
}

/// Operations on one frame leave the count of every other frame alone.
pub proof fn law_other_frames_untouched(rc: RefCountsView, phys: u64, n: u16, other: u64)
    requires
        rc.wf(),
        frame_of(other) != frame_of(phys),
    ensures
        rc.with_count(phys, n).count(other) == rc.count(other),
        rc.after_dec(phys).count(other) == rc.count(other),
        rc.after_set(phys, n).count(other) == rc.count(other),
{
}

} // verus!
