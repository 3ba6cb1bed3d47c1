//! Pins on page frames that an in-flight device transfer may touch.
//!
//! A driver pins every frame that it hands to a device and unpins it when the
//! device retires the request.  A free of a pinned frame is remembered and
//! carried out when the last pin goes.
use vstd::prelude::*;
use crate::mm::pmm::{free_page, FreeVerdict, Frames, FramesView};
use crate::mm::refcount::{frame_of, pfn, MAX_PAGES};

verus! {

/// Low bits of a ledger word: the pin count.
pub const COUNT_MASK: u32 = 0x7FFF_FFFF;

/// Top bit of a ledger word: a free was requested while the frame was pinned.
pub const FREE_PENDING: u32 = 0x8000_0000;

/// Number of slots of the deferred-free ring.
pub const DEFERRED_CAP: u64 = 256;

/// Ticks between two sweeps of the ring that the allocator drives: about a second.
pub const SWEEP_INTERVAL_TICKS: u64 = 100;

/// The pin ledger and the ring of frees that still have to be carried out.
pub struct DmaPins {
    /// One word per frame, once the ledger has been set up.
    pub words: Option<Vec<u32>>,
    /// Frames waiting to be freed from thread context; zero marks an empty slot.
    pub deferred: Vec<u64>,
    /// Where the next search for an empty slot starts.
    pub cursor: u64,
    /// Frees that were deferred because the frame was pinned.
    pub frees_deferred: u64,
    /// Deferred frees that were carried out.
    pub deferred_freed: u64,
    /// Frames that found the ring full.
    pub overflow: u64,
    /// Tick of the last sweep that the allocator drove.
    pub last_sweep: u64,
}

/// What a pin ledger holds.
pub struct DmaPinsView {
    pub words: Option<Seq<u32>>,
    pub deferred: Seq<u64>,
    pub cursor: u64,
    pub frees_deferred: u64,
    pub deferred_freed: u64,
    pub overflow: u64,
    pub last_sweep: u64,
}

impl View for DmaPins {
    type V = DmaPinsView;

    open spec fn view(&self) -> DmaPinsView {
        DmaPinsView {
            words: match self.words {
                Some(w) => Some(w@),
                None => None,
            },
            deferred: self.deferred@,
            cursor: self.cursor,
            frees_deferred: self.frees_deferred,
            deferred_freed: self.deferred_freed,
            overflow: self.overflow,
            last_sweep: self.last_sweep,
        }
    }
}

/// Pin count of a ledger word.
pub open spec fn count_of(word: u32) -> int {
    word as int % 0x8000_0000
}

/// Whether a ledger word remembers a free.
pub open spec fn pending_of(word: u32) -> bool {
    word >= 0x8000_0000
}

impl DmaPinsView {
    /// The ledger, once set up, has one word per frame; the ring has its fixed size.
    pub open spec fn wf(self) -> bool {
        &&& self.words matches Some(w) ==> w.len() == MAX_PAGES
        &&& self.deferred.len() == DEFERRED_CAP
    }

    /// The ledger has been set up and covers the frame of `phys`.
    pub open spec fn tracks(self, phys: u64) -> bool {
        self.words is Some && frame_of(phys) < MAX_PAGES
    }

    /// The ledger word of the frame of `phys`; zero where nothing is tracked.
    pub open spec fn word(self, phys: u64) -> u32 {
        if self.tracks(phys) {
            self.words->0[frame_of(phys)]
        } else {
            0
        }
    }

    /// Number of pins on the frame of `phys`.
    pub open spec fn count(self, phys: u64) -> int {
        count_of(self.word(phys))
    }

    /// Whether a free of the frame of `phys` is remembered.
    pub open spec fn pending(self, phys: u64) -> bool {
        pending_of(self.word(phys))
    }

    /// The ledger with the word of the frame of `phys` replaced.
    pub open spec fn with_word(self, phys: u64, word: u32) -> DmaPinsView {
        if self.tracks(phys) {
            DmaPinsView { words: Some(self.words->0.update(frame_of(phys), word)), ..self }
        } else {
            self
        }
    }

    /// The ledger after one pin was taken on the frame of `phys`.
    pub open spec fn after_pin(self, phys: u64) -> DmaPinsView {
        self.with_word(phys, self.word(phys).wrapping_add(1))
    }

    /// The ledger after a free of the frame of `phys` was asked for.
    pub open spec fn after_mark(self, phys: u64) -> DmaPinsView {
        if self.count(phys) > 0 && !self.pending(phys) {
            DmaPinsView {
                frees_deferred: self.frees_deferred.wrapping_add(1),
                ..self.with_word(phys, (self.word(phys) + 0x8000_0000) as u32)
            }
        } else {
            self
        }
    }

    /// What dropping one pin on the frame of `phys` reports.
    pub open spec fn unpin_result(self, phys: u64) -> UnpinResult {
        if !self.tracks(phys) {
            UnpinResult::NoFree
        } else if self.count(phys) == 0 {
            UnpinResult::Underflow
        } else if self.count(phys) == 1 && self.pending(phys) {
            UnpinResult::FreeDue
        } else {
            UnpinResult::NoFree
        }
    }

    /// The ledger after one pin on the frame of `phys` was dropped.  The last pin
    /// takes the remembered free with it.
    pub open spec fn after_unpin(self, phys: u64) -> DmaPinsView {
        if self.count(phys) == 0 {
            self
        } else if self.count(phys) == 1 {
            self.with_word(phys, 0)
        } else {
            self.with_word(phys, (self.word(phys) - 1) as u32)
        }
    }

    /// Slot `i` of the search that the next post to the ring makes.
    pub open spec fn probe(self, i: int) -> int {
        (self.cursor as int + i) % 256
    }

    /// Number of occupied slots that the next post passes over; the size of the
    /// ring where no slot is empty.
    pub open spec fn occupied_run(self, i: int) -> int
        decreases 256 - i,
    {
        if i >= 256 {
            256
        } else if self.deferred[self.probe(i)] == 0 {
            i
        } else {
            self.occupied_run(i + 1)
        }
    }

    /// The ledger after `phys` was posted to the ring for a later free.  The frame
    /// takes the first empty slot at or after the cursor.  Where the ring is full the
    /// frame stays pinned, with its free still remembered, so that one more unpin
    /// releases it.  Frame zero is never posted.
    pub open spec fn posted(self, phys: u64) -> DmaPinsView {
        let next = DmaPinsView { cursor: self.cursor.wrapping_add(1), ..self };
        let run = self.occupied_run(0);
        if phys == 0 {
            self
        } else if run < 256 {
            DmaPinsView { deferred: self.deferred.update(self.probe(run), phys), ..next }
        } else {
            DmaPinsView {
                overflow: self.overflow.wrapping_add(1),
                ..next.with_word(phys, 0x8000_0001)
            }
        }
    }
}

/// Result of dropping one pin.
#[derive(Clone, Copy, PartialEq, Eq, Structural, Debug)]
pub enum UnpinResult {
    /// The frame is still pinned, or no free was remembered.
    NoFree,
    /// The last pin went and a free was remembered: the frame is now due.
    FreeDue,
    /// There was no pin to drop.
    Underflow,
}

proof fn lemma_word_bits(w: u32)
    by (bit_vector)
    ensures
        w & 0x7FFF_FFFF == w % 0x8000_0000,
        (w & 0x8000_0000 != 0) == (w >= 0x8000_0000),
        w < 0x8000_0000 ==> (w | 0x8000_0000) == w + 0x8000_0000,
        w < 0x8000_0000 ==> (0x8000_0000u32 | w) == 0x8000_0000 + w,
        w >= 0x8000_0000 ==> (w & 0x8000_0000) == 0x8000_0000,
        (0u32 | w) == w,
{
}

impl DmaPins {
    /// The ledger as it stands at boot, before [`init`].
    pub fn new() -> (r: DmaPins)
        ensures
            r@ == (DmaPinsView {
                words: None,
                deferred: Seq::new(256, |i: int| 0u64),
                cursor: 0,
                frees_deferred: 0,
                deferred_freed: 0,
                overflow: 0,
                last_sweep: 0,
            }),
            r@.wf(),
    {
        let deferred: Vec<u64> = vec![0u64; 256];
        assert(deferred@ =~= Seq::new(256, |i: int| 0u64));
        DmaPins {
            words: None,
            deferred,
            cursor: 0,
            frees_deferred: 0,
            deferred_freed: 0,
            overflow: 0,
            last_sweep: 0,
        }
    }
}

/// Sets the ledger up with no pins.  A second call changes nothing.
pub fn init(pins: &mut DmaPins)
    requires
        old(pins)@.wf(),
    ensures
        final(pins)@.wf(),
        old(pins)@.words is Some ==> final(pins)@ == old(pins)@,
        old(pins)@.words is None ==> final(pins)@ == (DmaPinsView {
            words: Some(Seq::new(MAX_PAGES as nat, |i: int| 0u32)),
            ..old(pins)@
        }),
{
    if pins.words.is_none() {
        let v: Vec<u32> = vec![0u32; 0x10_0000];
        assert(v@ =~= Seq::new(MAX_PAGES as nat, |i: int| 0u32));
        pins.words = Some(v);
    }
}

/// First frame and number of frames that the bytes `[phys, phys + len)` touch.
pub fn page_span(phys: u64, len: u64) -> (r: (u64, u64))
    requires
        phys + len <= u64::MAX + 1,
    ensures
        r.0 == frame_of(phys),
        len == 0 ==> r.1 == 0,
        len > 0 ==> r.0 + r.1 - 1 == (phys + len - 1) / 4096,
{
    if len == 0 {
        return (pfn(phys), 0);
    }
    let first: u64 = pfn(phys);
    let last: u64 = pfn(phys + (len - 1));
    (first, last - first + 1)
}

/// Adds one pin to the frame of `phys`.  Does nothing before [`init`] or outside
/// the tracked window.
pub fn pin(pins: &mut DmaPins, phys: u64)
    requires
        old(pins)@.wf(),
    ensures
        final(pins)@.wf(),
        final(pins)@ == old(pins)@.after_pin(phys),
{
    let idx: u64 = pfn(phys);
    if let Some(w) = pins.words.as_mut() {
        if idx < w.len() as u64 {
            let cur: u32 = w[idx as usize];
            w.set(idx as usize, cur.wrapping_add(1));
        }
    }
}

/// Number of pins on the frame of `phys`.
pub fn pin_count(pins: &DmaPins, phys: u64) -> (n: u32)
    requires
        pins@.wf(),
    ensures
        n == pins@.count(phys),
{
    match &pins.words {
        None => 0,
        Some(w) => {
            let idx: u64 = pfn(phys);
            if idx < w.len() as u64 {
                let cur: u32 = w[idx as usize];
                proof {
                    lemma_word_bits(cur);
                }
                cur & COUNT_MASK
            } else {
                0
            }
        },
    }
}

/// Whether an in-flight transfer holds the frame of `phys`.
pub fn is_pinned(pins: &DmaPins, phys: u64) -> (r: bool)
    requires
        pins@.wf(),
    ensures
        r == (pins@.count(phys) > 0),
{
    pin_count(pins, phys) > 0
}

/// Remembers a free of the frame of `phys` if the frame is pinned, and says
/// whether it is.  Where it is not, the caller frees the frame itself.
pub fn mark_free_pending_if_pinned(pins: &mut DmaPins, phys: u64) -> (deferred: bool)
    requires
        old(pins)@.wf(),
    ensures
        final(pins)@.wf(),
        deferred == (old(pins)@.count(phys) > 0),
        final(pins)@ == old(pins)@.after_mark(phys),
{
    let idx: u64 = pfn(phys);
    if let Some(w) = pins.words.as_mut() {
        if idx >= w.len() as u64 {
            return false;
        }
        let cur: u32 = w[idx as usize];
        proof {
            lemma_word_bits(cur);
        }
        if (cur & COUNT_MASK) == 0 {
            return false;
        }
        if (cur & FREE_PENDING) != 0 {
            return true;
        }
        w.set(idx as usize, cur | FREE_PENDING);
        pins.frees_deferred = pins.frees_deferred.wrapping_add(1);
        return true;
    }
    false
}

/// Drops one pin on the frame of `phys`.  The last pin clears a remembered free
/// and reports it.
pub fn unpin_ledger(pins: &mut DmaPins, phys: u64) -> (r: UnpinResult)
    requires
        old(pins)@.wf(),
    ensures
        final(pins)@.wf(),
        r == old(pins)@.unpin_result(phys),
        final(pins)@ == old(pins)@.after_unpin(phys),
{
    let idx: u64 = pfn(phys);
    if let Some(w) = pins.words.as_mut() {
        if idx >= w.len() as u64 {
            return UnpinResult::NoFree;
        }
        let cur: u32 = w[idx as usize];
        proof {
            lemma_word_bits(cur);
        }
        let count: u32 = cur & COUNT_MASK;
        if count == 0 {
            return UnpinResult::Underflow;
        }
        let pending: u32 = cur & FREE_PENDING;
        let new_count: u32 = count - 1;
        let new_val: u32 = if new_count == 0 {
            0
        } else {
            pending | new_count
        };
        proof {
            lemma_word_bits(new_count);
        }
        w.set(idx as usize, new_val);
        if new_count == 0 && pending != 0 {
            return UnpinResult::FreeDue;
        }
        return UnpinResult::NoFree;
    }
    UnpinResult::NoFree
}

impl FramesView {
    /// The state after a free of `phys` was asked for.
    pub open spec fn after_free(self, phys: u64, now: u64) -> FramesView {
        let shares = self.refs.count(phys);
        let pinned = self.pins.count(phys) > 0;
        FramesView {
            pmm: self.pmm.after_free(phys, shares, pinned, now),
            pins: if self.pmm.free_verdict(phys, shares, pinned) == FreeVerdict::Deferred {
                self.pins.after_mark(phys)
            } else {
                self.pins
            },
            ..self
        }
    }

    /// The state after a deferred free of `phys` was carried out.
    pub open spec fn after_deferred_free(self, phys: u64, now: u64) -> FramesView {
        FramesView {
            pins: DmaPinsView {
                deferred_freed: self.pins.deferred_freed.wrapping_add(1),
                ..self.pins
            },
            ..self
        }.after_free(phys, now)
    }

    /// The state after one pin on the frame of `phys` went.
    pub open spec fn after_unpin(self, phys: u64, can_free_now: bool, now: u64) -> FramesView {
        let left = FramesView { pins: self.pins.after_unpin(phys), ..self };
        if self.pins.unpin_result(phys) != UnpinResult::FreeDue {
            left
        } else if can_free_now {
            left.after_deferred_free(phys, now)
        } else {
            FramesView { pins: left.pins.posted(phys), ..left }
        }
    }

    /// The state after the first `n` slots of the ring were emptied and their frames
    /// freed.
    pub open spec fn after_drain(self, n: nat, now: u64) -> FramesView
        decreases n,
    {
        if n == 0 {
            self
        } else {
            let f = self.after_drain((n - 1) as nat, now);
            let phys = f.pins.deferred[n - 1];
            if phys == 0 {
                f
            } else {
                FramesView {
                    pins: DmaPinsView { deferred: f.pins.deferred.update(n - 1, 0), ..f.pins },
                    ..f
                }.after_deferred_free(phys, now)
            }
        }
    }

    /// The state after one pin went on each of the `n` frames from `first` on.
    pub open spec fn after_unpin_frames(
        self,
        first: int,
        n: nat,
        can_free_now: bool,
        now: u64,
    ) -> FramesView
        decreases n,
    {
        if n == 0 {
            self
        } else {
            self.after_unpin_frames(first, (n - 1) as nat, can_free_now, now).after_unpin(
                ((first + n - 1) * 4096) as u64,
                can_free_now,
                now,
            )
        }
    }

    /// Whether the next allocation sweeps the ring.
    pub open spec fn sweep_due(self, now: u64) -> bool {
        now - self.pins.last_sweep >= SWEEP_INTERVAL_TICKS
    }

    /// The state after the sweep that an allocation at tick `now` makes, if one is due.
    pub open spec fn after_sweep(self, now: u64) -> FramesView {
        if self.sweep_due(now) {
            FramesView {
                pins: DmaPinsView { last_sweep: now, ..self.pins },
                ..self
            }.after_drain(256, now)
        } else {
            self
        }
    }
}

/// The ledger after one pin was taken on each of the `n` frames from `first` on.
pub open spec fn after_pin_frames(pins: DmaPinsView, first: int, n: nat) -> DmaPinsView
    decreases n,
{
    if n == 0 {
        pins
    } else {
        after_pin_frames(pins, first, (n - 1) as nat).after_pin(((first + n - 1) * 4096) as u64)
    }
}

/// Number of frames that the bytes `[phys, phys + len)` touch.
pub open spec fn frames_touched(phys: u64, len: u64) -> nat {
    if len == 0 {
        0
    } else {
        ((phys + len - 1) / 4096 - frame_of(phys) + 1) as nat
    }
}

/// Adds one pin to every frame that the bytes `[phys, phys + len)` touch.
pub fn pin_range(pins: &mut DmaPins, phys: u64, len: usize)
    requires
        old(pins)@.wf(),
        phys + len <= u64::MAX + 1,
    ensures
        final(pins)@.wf(),
        final(pins)@ == after_pin_frames(
            old(pins)@,
            frame_of(phys),
            frames_touched(phys, len as u64),
        ),
{
    let (first, count) = page_span(phys, len as u64);
    let mut i: u64 = 0;
    while i < count
        invariant
            pins@.wf(),
            i <= count,
            first as int * 4096 + count * 4096 <= u64::MAX + 1,
            pins@ == after_pin_frames(old(pins)@, first as int, i as nat),
        decreases count - i,
    {
        pin(pins, (first + i) * 4096);
        i = i + 1;
    }
}

/// Posts `phys` to the ring of frees that thread context carries out.
fn push_deferred(pins: &mut DmaPins, phys: u64)
    requires
        old(pins)@.wf(),
    ensures
        final(pins)@.wf(),
        final(pins)@ == old(pins)@.posted(phys),
{
    if phys == 0 {
        return;
    }
    let start: u64 = pins.cursor;
    pins.cursor = start.wrapping_add(1);
    let mut i: u64 = 0;
    while i < DEFERRED_CAP
        invariant
            old(pins)@.wf(),
            phys != 0,
            i <= DEFERRED_CAP,
            start == old(pins)@.cursor,
            pins@ == (DmaPinsView { cursor: start.wrapping_add(1), ..old(pins)@ }),
            old(pins)@.occupied_run(0) == old(pins)@.occupied_run(i as int),
        decreases DEFERRED_CAP - i,
    {
        let slot: u64 = start.wrapping_add(i) % DEFERRED_CAP;
        assert(slot == old(pins)@.probe(i as int));
        if pins.deferred[slot as usize] == 0 {
            pins.deferred.set(slot as usize, phys);
            return;
        }
        i = i + 1;
    }
    pins.overflow = pins.overflow.wrapping_add(1);
    let idx: u64 = pfn(phys);
    if let Some(w) = pins.words.as_mut() {
        if idx < w.len() as u64 {
            w.set(idx as usize, 0x8000_0001);
        }
    }
}

/// Drops one pin on the frame of `phys`.  Where it was the last one and a free was
/// remembered, the frame is freed at once if the caller may take the allocator's
/// lock (`can_free_now`), and posted to the ring otherwise.
pub fn unpin(f: &mut Frames, phys: u64, can_free_now: bool, now: u64) -> (r: UnpinResult)
    requires
        old(f).wf(),
    ensures
        final(f).wf(),
        r == old(f)@.pins.unpin_result(phys),
        final(f)@ == old(f)@.after_unpin(phys, can_free_now, now),
{
    let r: UnpinResult = unpin_ledger(&mut f.pins, phys);
    match r {
        UnpinResult::FreeDue => {
            if can_free_now {
                f.pins.deferred_freed = f.pins.deferred_freed.wrapping_add(1);
                let _verdict: FreeVerdict = free_page(f, phys, now);
            } else {
                push_deferred(&mut f.pins, phys);
            }
        },
        UnpinResult::Underflow => {},
        UnpinResult::NoFree => {},
    }
    r
}

/// Empties the ring and frees the frames it held.  Only from thread context.
pub fn drain_deferred(f: &mut Frames, now: u64)
    requires
        old(f).wf(),
    ensures
        final(f).wf(),
        final(f)@ == old(f)@.after_drain(256, now),
        final(f)@.refs == old(f)@.refs,
{
    let mut i: u64 = 0;
    while i < DEFERRED_CAP
        invariant
            f.wf(),
            i <= DEFERRED_CAP,
            f@ == old(f)@.after_drain(i as nat, now),
            f@.refs == old(f)@.refs,
        decreases DEFERRED_CAP - i,
    {
        let phys: u64 = f.pins.deferred[i as usize];
        if phys != 0 {
            f.pins.deferred.set(i as usize, 0);
            f.pins.deferred_freed = f.pins.deferred_freed.wrapping_add(1);
            let _verdict: FreeVerdict = free_page(f, phys, now);
        }
        i = i + 1;
    }
}

/// Empties the ring if the last sweep is about a second old.
pub fn drain_deferred_if_due(f: &mut Frames, now: u64)
    requires
        old(f).wf(),
    ensures
        final(f).wf(),
        final(f)@ == old(f)@.after_sweep(now),
        final(f)@.refs == old(f)@.refs,
{
    if now.saturating_sub(f.pins.last_sweep) >= SWEEP_INTERVAL_TICKS {
        f.pins.last_sweep = now;
        drain_deferred(f, now);
    }
}

/// Drops one pin on every frame that the bytes `[phys, phys + len)` touch.  In thread
/// context the ring is emptied first.
pub fn unpin_range(f: &mut Frames, phys: u64, len: usize, can_free_now: bool, now: u64)
    requires
        old(f).wf(),
        phys + len <= u64::MAX + 1,
    ensures
        final(f).wf(),
        ({
            let swept = if can_free_now {
                old(f)@.after_drain(256, now)
            } else {
                old(f)@
            };
            final(f)@ == swept.after_unpin_frames(
                frame_of(phys),
                frames_touched(phys, len as u64),
                can_free_now,
                now,
            )
        }),
{
    let (first, count) = page_span(phys, len as u64);
    if can_free_now {
        drain_deferred(f, now);
    }
    let ghost swept = f@;
    let mut i: u64 = 0;
    while i < count
        invariant
            f.wf(),
            i <= count,
            first as int * 4096 + count * 4096 <= u64::MAX + 1,
            f@ == swept.after_unpin_frames(first as int, i as nat, can_free_now, now),
        decreases count - i,
    {
        let _r: UnpinResult = unpin(f, (first + i) * 4096, can_free_now, now);
        i = i + 1;
    }
}

/// Frees deferred, deferred frees carried out, frames that found the ring full.
pub fn stats(pins: &DmaPins) -> (r: (u64, u64, u64))
    ensures
        r == (pins@.frees_deferred, pins@.deferred_freed, pins@.overflow),
{
    (pins.frees_deferred, pins.deferred_freed, pins.overflow)
}

/// Frame on which [`test_ledger`] works: one near the end of the tracked window.
pub const TEST_FRAME_PHYS: u64 = 0xFFFF_D000;

/// Runs the ledger through its transitions on a spare frame, without ever freeing it,
/// and names the first one that goes wrong.  On a ledger that is set up and a frame
/// that is not pinned nothing does.
pub fn test_ledger(pins: &mut DmaPins) -> (r: Result<(), &'static str>)
    requires
        old(pins)@.wf(),
    ensures
        final(pins)@.wf(),
        r is Ok <==> old(pins)@.words is Some && old(pins)@.count(TEST_FRAME_PHYS) == 0,
        old(pins)@.count(TEST_FRAME_PHYS) > 0 ==> r->Err_0@
            == "test frame unexpectedly pinned on entry"@,
        old(pins)@.words is None ==> r->Err_0@ == "pin did not raise count to 1"@,
        r is Err ==> final(pins)@ == old(pins)@,
        r is Ok && !old(pins)@.pending(TEST_FRAME_PHYS) ==> final(pins)@ == (DmaPinsView {
            frees_deferred: old(pins)@.frees_deferred.wrapping_add(1).wrapping_add(1),
            ..old(pins)@
        }),
        r is Ok && old(pins)@.pending(TEST_FRAME_PHYS) ==> final(pins)@ == (DmaPinsView {
            frees_deferred: old(pins)@.frees_deferred.wrapping_add(1),
            ..old(pins)@.with_word(TEST_FRAME_PHYS, 0)
        }),
{
    let p: u64 = TEST_FRAME_PHYS;
    if is_pinned(pins, p) {
        return Err("test frame unexpectedly pinned on entry");
    }
    // A pinned frame is due once the last pin goes, if a free was asked for.
    pin(pins, p);
    if pin_count(pins, p) != 1 {
        return Err("pin did not raise count to 1");
    }
    if !mark_free_pending_if_pinned(pins, p) {
        return Err("mark_free_pending_if_pinned returned false on a pinned frame");
    }
    if unpin_ledger(pins, p) != UnpinResult::FreeDue {
        return Err("last unpin of a free-pending frame did not report FreeDue");
    }
    if is_pinned(pins, p) {
        return Err("frame still pinned after final unpin");
    }
    // Without a pin nothing is deferred.
    if mark_free_pending_if_pinned(pins, p) {
        return Err("mark_free_pending_if_pinned true on an unpinned frame");
    }
    // With several pins only the last unpin reports the free.
    pin(pins, p);
    pin(pins, p);
    pin(pins, p);
    if pin_count(pins, p) != 3 {
        return Err("triple pin did not reach count 3");
    }
    if !mark_free_pending_if_pinned(pins, p) {
        return Err("multi-pin free not deferred");
    }
    if unpin_ledger(pins, p) != UnpinResult::NoFree {
        return Err("1st of 3 unpins reported a free");
    }
    if unpin_ledger(pins, p) != UnpinResult::NoFree {
        return Err("2nd of 3 unpins reported a free");
    }
    if unpin_ledger(pins, p) != UnpinResult::FreeDue {
        return Err("3rd (last) of 3 unpins did not report FreeDue");
    }
    // There is no pin left to drop.
    if unpin_ledger(pins, p) != UnpinResult::Underflow {
        return Err("unpin on a zero count did not report Underflow");
    }
    if pin_count(pins, p) != 0 {
        return Err("count corrupted after underflow guard");
    }
    // A free that comes after the last unpin is not deferred.
    pin(pins, p);
    if unpin_ledger(pins, p) != UnpinResult::NoFree {
        return Err("plain unpin (no pending) reported a free");
    }
    if mark_free_pending_if_pinned(pins, p) {
        return Err("free after count already zero was wrongly deferred");
    }
    proof {
        if old(pins)@.pending(p) {
            assert(pins@.words->0 =~= old(pins)@.with_word(p, 0).words->0);
        } else {
            assert(pins@.words->0 =~= old(pins)@.words->0);
        }
    }
    Ok(())
}

/// The ledger after `n` pins on the frame of `phys` were dropped one by one.
pub open spec fn after_unpins(pins: DmaPinsView, phys: u64, n: nat) -> DmaPinsView
    decreases n,
{
    if n == 0 {
        pins
    } else {
        after_unpins(pins, phys, (n - 1) as nat).after_unpin(phys)
    }
}

/// A free that was asked for while a frame had pins is reported by the last unpin
/// and by none before it.
pub proof fn law_deferred_free_comes_with_the_last_unpin(pins: DmaPinsView, phys: u64, n: nat)
    requires
        pins.wf(),
        pins.pending(phys),
        n < pins.count(phys),
    ensures
        after_unpins(pins, phys, n).unpin_result(phys) == (if n + 1 == pins.count(phys) {
            UnpinResult::FreeDue
        } else {
            UnpinResult::NoFree
        }),
        after_unpins(pins, phys, n).wf(),
        after_unpins(pins, phys, n).tracks(phys),
        after_unpins(pins, phys, n).pending(phys),
        after_unpins(pins, phys, n).count(phys) == pins.count(phys) - n,
    decreases n,
{
    if n > 0 {
        law_deferred_free_comes_with_the_last_unpin(pins, phys, (n - 1) as nat);
    }
}

/// A pin taken and dropped again leaves the ledger as it was, and reports no free of
/// its own; left out is a count at its limit.
pub proof fn law_pin_then_unpin(pins: DmaPinsView, phys: u64)
    requires
        pins.wf(),
        pins.count(phys) < COUNT_MASK,
        pins.count(phys) == 0 ==> !pins.pending(phys),
    ensures
        pins.after_pin(phys).after_unpin(phys) =~= pins,
        pins.after_pin(phys).unpin_result(phys) == UnpinResult::NoFree,
{
    if pins.tracks(phys) {
        assert(pins.after_pin(phys).after_unpin(phys).words->0 =~= pins.words->0);
    }
}

/// A free is deferred exactly while the frame is pinned, and asking twice defers it
/// once.
pub proof fn law_mark_is_idempotent(pins: DmaPinsView, phys: u64)
    requires
        pins.wf(),
    ensures
        pins.after_mark(phys).after_mark(phys) == pins.after_mark(phys),
        pins.after_mark(phys).count(phys) == pins.count(phys),
        pins.after_mark(phys).pending(phys) == (pins.pending(phys) || pins.count(phys) > 0),
{
}

proof fn lemma_drained(f: FramesView, n: nat, now: u64)
    requires
        f.pins.wf(),
        n <= 256,
    ensures
        f.after_drain(n, now).pins.wf(),
        forall|i: int| 0 <= i < n ==> #[trigger] f.after_drain(n, now).pins.deferred[i] == 0,
        forall|i: int|
            n <= i < 256 ==> #[trigger] f.after_drain(n, now).pins.deferred[i]
                == f.pins.deferred[i],
    decreases n,
{
    if n > 0 {
        lemma_drained(f, (n - 1) as nat, now);
    }
}

/// Draining empties the ring: no frame stays behind.
pub proof fn law_drain_empties_the_ring(f: FramesView, now: u64)
    requires
        f.pins.wf(),
    ensures
        forall|i: int| 0 <= i < 256 ==> #[trigger] f.after_drain(256, now).pins.deferred[i] == 0,
{
    lemma_drained(f, 256, now);
}

/// A frame that a device owns is not handed back to the allocator: freeing it leaves
/// the set of free frames as it was.
pub proof fn law_pinned_frame_is_not_freed(f: FramesView, phys: u64, now: u64)
    requires
        f.pins.wf(),
        f.pins.count(phys) > 0,
    ensures
        f.after_free(phys, now).pmm.free == f.pmm.free,
{
}

/// Once the last pin goes in thread context, a frame whose free was remembered is
/// free: nothing stays lost.  The frame must be one that can be freed at all.
pub proof fn law_last_unpin_frees_the_frame(f: FramesView, phys: u64, now: u64)
    requires
        f.pins.wf(),
        f.pins.count(phys) == 1,
        f.pins.pending(phys),
        f.refs.count(phys) == 0,
        !f.pmm.kernel_static(phys),
    ensures
        f.after_unpin(phys, true, now).pmm.free.contains(frame_of(phys)),
{
}

/// An unpin that finds the ring full keeps the frame pinned with its free remembered,
/// so that one more unpin releases it.
pub proof fn law_full_ring_keeps_the_pin(f: FramesView, phys: u64, now: u64)
    requires
        f.pins.wf(),
        phys != 0,
        f.pins.unpin_result(phys) == UnpinResult::FreeDue,
        forall|i: int| 0 <= i < 256 ==> f.pins.deferred[i] != 0,
    ensures
        ({
            let left = f.after_unpin(phys, false, now);
            &&& left.pins.count(phys) == 1
            &&& left.pins.pending(phys)
            &&& left.pmm == f.pmm
        }),
{
    let p = f.pins.after_unpin(phys);
    lemma_run_of_full_ring(p, 0);
}

proof fn lemma_run_of_full_ring(p: DmaPinsView, i: int)
    requires
        p.wf(),
        0 <= i <= 256,
        forall|j: int| 0 <= j < 256 ==> p.deferred[j] != 0,
    ensures
        p.occupied_run(i) == 256,
    decreases 256 - i,
{
    if i < 256 {
        lemma_run_of_full_ring(p, i + 1);
    }
}

/// The frame of `phys` is one of the `n` frames from `first` on.
pub open spec fn in_span(first: int, n: nat, phys: u64) -> bool {
    first <= frame_of(phys) < first + n
}

/// Pinning frames raises the count of exactly these by one.
proof fn lemma_pin_frames(pins: DmaPinsView, first: int, n: nat, phys: u64)
    requires
        pins.wf(),
        first >= 0,
        (first + n) * 4096 <= u64::MAX + 1,
        in_span(first, n, phys) ==> pins.count(phys) < COUNT_MASK,
    ensures
        ({
            let p = after_pin_frames(pins, first, n);
            &&& p.wf()
            &&& p.tracks(phys) == pins.tracks(phys)
            &&& p.count(phys) == pins.count(phys) + (if in_span(first, n, phys) && pins.tracks(
                phys,
            ) {
                1int
            } else {
                0
            })
            &&& p.pending(phys) == pins.pending(phys)
        }),
    decreases n,
{
    if n > 0 {
        lemma_pin_frames(pins, first, (n - 1) as nat, phys);
        let p = after_pin_frames(pins, first, (n - 1) as nat);
        let at = ((first + n - 1) * 4096) as u64;
        assert(frame_of(at) == first + n - 1);
        let w = p.word(at);
        if frame_of(at) == frame_of(phys) && p.tracks(phys) {
            assert(p.word(at) == p.word(phys));
            assert(count_of(w) < COUNT_MASK);
            assert(w.wrapping_add(1) == w + 1);
        }
    }
}

/// Emptying the ring leaves every count alone.
proof fn lemma_drain_counts(f: FramesView, n: nat, now: u64, phys: u64)
    requires
        f.pins.wf(),
        n <= 256,
    ensures
        ({
            let p = f.after_drain(n, now).pins;
            &&& p.wf()
            &&& p.tracks(phys) == f.pins.tracks(phys)
            &&& p.count(phys) == f.pins.count(phys)
        }),
    decreases n,
{
    if n > 0 {
        lemma_drain_counts(f, (n - 1) as nat, now, phys);
    }
}

/// Dropping one pin on each of some frames that are all pinned lowers the count of exactly
/// these by one.
proof fn lemma_unpin_frames(
    f: FramesView,
    first: int,
    n: nat,
    can_free_now: bool,
    now: u64,
    phys: u64,
)
    requires
        f.pins.wf(),
        first >= 0,
        (first + n) * 4096 <= u64::MAX + 1,
        forall|k: int|
            first <= k < first + n && #[trigger] f.pins.tracks((k * 4096) as u64) ==> {
                &&& f.pins.count((k * 4096) as u64) > 0
                &&& can_free_now || f.pins.count((k * 4096) as u64) > 1 || !f.pins.pending(
                    (k * 4096) as u64,
                )
            },
    ensures
        ({
            let p = f.after_unpin_frames(first, n, can_free_now, now).pins;
            &&& p.wf()
            &&& p.tracks(phys) == f.pins.tracks(phys)
            &&& p.count(phys) == f.pins.count(phys) - (if in_span(first, n, phys)
                && f.pins.tracks(phys) {
                1int
            } else {
                0
            })
            &&& !in_span(first, n, phys) ==> p.pending(phys) == f.pins.pending(phys)
        }),
    decreases n,
{
    if n > 0 {
        let before = (n - 1) as nat;
        let at = ((first + n - 1) * 4096) as u64;
        assert(frame_of(at) == first + n - 1);
        assert forall|k: int|
            first <= k < first + before && #[trigger] f.pins.tracks((k * 4096) as u64) implies {
            &&& f.pins.count((k * 4096) as u64) > 0
            &&& can_free_now || f.pins.count((k * 4096) as u64) > 1 || !f.pins.pending(
                (k * 4096) as u64,
            )
        } by {}
        lemma_unpin_frames(f, first, before, can_free_now, now, phys);
        lemma_unpin_frames(f, first, before, can_free_now, now, at);
        let g = f.after_unpin_frames(first, before, can_free_now, now);
        assert(!in_span(first, before, at));
        if f.pins.tracks(at) {
            assert(f.pins.count(at) > 0);
            let u = g.pins.after_unpin(at);
            let w = g.pins.word(at);
            assert(u.count(at) == g.pins.count(at) - 1);
            assert(frame_of(phys) == frame_of(at) ==> u.count(phys) == u.count(at));
            assert(frame_of(phys) != frame_of(at) ==> u.word(phys) == g.pins.word(phys));
        }
    }
}

/// Pinning a range and unpinning it again gives every frame its old count back, whatever
/// context the unpin comes from.
///
/// Left out are counts at their limit, and frames that are due to be freed but have no pin.
pub proof fn law_unpin_range_undoes_pin_range(
    f: FramesView,
    start: u64,
    len: u64,
    can_free_now: bool,
    now: u64,
    phys: u64,
)
    requires
        f.pins.wf(),
        start + len <= u64::MAX + 1,
        forall|k: int|
            frame_of(start) <= k < frame_of(start) + frames_touched(start, len)
                && #[trigger] f.pins.tracks((k * 4096) as u64) ==> {
                &&& f.pins.count((k * 4096) as u64) < COUNT_MASK
                &&& f.pins.count((k * 4096) as u64) == 0 ==> !f.pins.pending((k * 4096) as u64)
            },
    ensures
        ({
            let first = frame_of(start);
            let n = frames_touched(start, len);
            let pinned = FramesView { pins: after_pin_frames(f.pins, first, n), ..f };
            let swept = if can_free_now {
                pinned.after_drain(256, now)
            } else {
                pinned
            };
            &&& f.pins.tracks(phys) ==> pinned.pins.count(phys) == f.pins.count(phys) + (if len > 0
                && start as int / 4096 <= phys as int / 4096 <= (start + len - 1) / 4096 {
                1int
            } else {
                0
            })
            &&& swept.after_unpin_frames(first, n, can_free_now, now).pins.count(phys)
                == f.pins.count(phys)
        }),
{
    let first = frame_of(start);
    let n = frames_touched(start, len);
    assert((first + n) * 4096 <= u64::MAX + 1);
    let pinned = FramesView { pins: after_pin_frames(f.pins, first, n), ..f };
    let swept = if can_free_now {
        pinned.after_drain(256, now)
    } else {
        pinned
    };
    let page = (frame_of(phys) * 4096) as u64;
    assert(frame_of(page) == frame_of(phys));
    assert(f.pins.tracks(page) == f.pins.tracks(phys));
    assert(f.pins.count(page) == f.pins.count(phys));
    if in_span(first, n, phys) && !f.pins.tracks(phys) {
        assert(f.pins.count(phys) == 0);
    }
    lemma_pin_frames(f.pins, first, n, phys);
    lemma_drain_counts(pinned, 256, now, phys);
    assert forall|k: int|
        first <= k < first + n && #[trigger] swept.pins.tracks((k * 4096) as u64) implies {
        &&& swept.pins.count((k * 4096) as u64) > 0
        &&& can_free_now || swept.pins.count((k * 4096) as u64) > 1 || !swept.pins.pending(
            (k * 4096) as u64,
        )
    } by {
        let at = (k * 4096) as u64;
        assert(frame_of(at) == k);
        lemma_drain_counts(pinned, 256, now, at);
        assert(pinned.pins.tracks(at) == swept.pins.tracks(at));
        if f.pins.tracks(at) {
            lemma_pin_frames(f.pins, first, n, at);
        } else {
            assert(f.pins.count(at) == 0);
            lemma_pin_frames(f.pins, first, n, at);
        }
    }
    lemma_unpin_frames(swept, first, n, can_free_now, now, phys);
}

} // verus!
