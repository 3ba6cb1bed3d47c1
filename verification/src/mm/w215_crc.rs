//! Checksums of cached pages, to notice a page that changes while it is cached.
//!
//! A page's checksum is taken when it enters the cache.  Each timer tick some pages
//! are summed again; one that differs twice was written to, and the caller sets a
//! watchpoint on it.
use vstd::arithmetic::div_mod::{
    lemma_add_mod_noop, lemma_div_pos_is_pos, lemma_fundamental_div_mod, lemma_mod_bound,
    lemma_mod_twice, lemma_small_mod,
};
use vstd::prelude::*;
use crate::mm::lock::try_lock;
use crate::mm::physmem::{byte_at, PhysMem};

verus! {

/// Slots of the table.
pub const SNAPSHOT_CAP: u64 = 65_536;

/// Slots looked at per tick, by all processors together.
pub const WALK_BUDGET_PER_TICK: u64 = 4096;

/// Slots that a key may lie in.
pub const PROBES: u64 = 8;

/// Lowest frame that the allocator hands out.
pub const LOWEST_FRAME: u64 = 0x10_0000;

/// No frame lies above this address.
pub const HIGHEST_FRAME: u64 = 0x4_0000_0000;

/// The polynomial, lowest power first.
pub const POLYNOMIAL: u32 = 0xEDB8_8320;

/// What is known of one cached page.
#[derive(Clone, Copy, PartialEq, Eq, Structural, Debug)]
pub struct CrcEntry {
    /// Its frame; zero marks a free slot.
    pub phys: u64,
    pub crc32: u32,
    /// Its name: inode, and number of the page in the file.
    pub key_packed: u64,
    /// Times that the checksum was taken.
    pub generation: u32,
}

/// A page that changed.
#[derive(Clone, Copy, PartialEq, Eq, Structural, Debug)]
pub struct Mismatch {
    pub phys: u64,
    pub inode: u64,
    /// Offset in the file, as far as the name holds it.
    pub offset: u64,
    pub expected: u32,
    pub actual: u32,
    pub actual2: u32,
}

/// The table of checksums.
pub struct CrcState {
    pub entries: Vec<CrcEntry>,
    /// Slots in use.
    pub live: u64,
    /// Where the next slice starts.
    pub cursor: u64,
    pub inserts: u64,
    pub walks: u64,
    pub mismatches: u64,
    pub false_positives: u64,
    pub overflow_drops: u64,
}

/// What the table holds.
#[verifier::ext_equal]
pub struct CrcView {
    pub entries: Seq<CrcEntry>,
    pub live: u64,
    pub cursor: u64,
    pub inserts: u64,
    pub walks: u64,
    pub mismatches: u64,
    pub false_positives: u64,
    pub overflow_drops: u64,
}

impl View for CrcState {
    type V = CrcView;

    open spec fn view(&self) -> CrcView {
        CrcView {
            entries: self.entries@,
            live: self.live,
            cursor: self.cursor,
            inserts: self.inserts,
            walks: self.walks,
            mismatches: self.mismatches,
            false_positives: self.false_positives,
            overflow_drops: self.overflow_drops,
        }
    }
}

/// One step of the division by the polynomial.
pub open spec fn crc_bit(c: u32) -> u32 {
    if c & 1 != 0 {
        POLYNOMIAL ^ (c >> 1)
    } else {
        c >> 1
    }
}

/// Eight steps: a whole byte.
pub open spec fn crc_byte(c: u32) -> u32 {
    crc_bit(crc_bit(crc_bit(crc_bit(crc_bit(crc_bit(crc_bit(crc_bit(c))))))))
}

/// The remainder after the first `n` bytes.
pub open spec fn crc_run(data: Seq<u8>, n: int) -> u32
    decreases n,
{
    if n <= 0 {
        0xFFFF_FFFF
    } else {
        crc_byte(crc_run(data, n - 1) ^ (data[n - 1] as u32))
    }
}

/// The CRC-32 of IEEE 802.3.
pub open spec fn crc_of(data: Seq<u8>) -> u32 {
    crc_run(data, data.len() as int) ^ 0xFFFF_FFFF
}

/// The bytes of the page at `phys`.
pub open spec fn page_bytes(mem: Seq<u64>, phys: u64) -> Seq<u8> {
    Seq::new(4096, |i: int| byte_at(mem, phys + i))
}

/// The name of a page.
pub open spec fn packed_key(inode: u64, file_offset: u64) -> u64 {
    (inode % 0x1_0000_0000_0000 * 0x1_0000 + file_offset / 4096 % 0x1_0000) as u64
}

/// The slot at which the search for a page starts.
pub open spec fn home_slot(inode: u64, offset: u64) -> u64 {
    let a = inode.wrapping_mul(0x9E37_79B9_7F4A_7C15) ^ offset.wrapping_mul(0xBF58_476D_1CE4_E5B9);
    let b = a ^ (a >> 27);
    b.wrapping_mul(0x94D0_49BB_1331_11EB) % SNAPSHOT_CAP
}

/// The slot can take the page: it is free, or the page's already.
pub open spec fn takes(e: CrcEntry, phys: u64, key: u64) -> bool {
    e.phys == 0 || (e.phys == phys && e.key_packed == key)
}

/// Probe number `k` of a search that starts at `home`.
pub open spec fn probe_slot(home: u64, k: int) -> int {
    (home + k) % (SNAPSHOT_CAP as int)
}

/// Probe number `k` is the first that can take the page.
pub open spec fn first_taker(s: Seq<CrcEntry>, home: u64, k: int, phys: u64, key: u64) -> bool {
    &&& 0 <= k < PROBES
    &&& takes(s[probe_slot(home, k)], phys, key)
    &&& forall|j: int| 0 <= j < k ==> !takes(s[#[trigger] probe_slot(home, j)], phys, key)
}

/// Slots in use among the first `n`.
pub open spec fn in_use(s: Seq<CrcEntry>, n: int) -> int
    decreases n,
{
    if n <= 0 {
        0
    } else {
        in_use(s, n - 1) + (if s[n - 1].phys != 0 {
            1int
        } else {
            0
        })
    }
}

/// The frame is one that the allocator can have handed out.
pub open spec fn plausible(phys: u64) -> bool {
    LOWEST_FRAME <= phys <= HIGHEST_FRAME && phys % 4096 == 0
}

/// The entries that a slice of `n` slots from `start` on looks at.
pub open spec fn slice_of(s: Seq<CrcEntry>, start: int, n: int) -> Seq<CrcEntry>
    decreases n,
{
    if n <= 0 {
        Seq::empty()
    } else {
        let before = slice_of(s, start, n - 1);
        let e = s[(start + n - 1) % (SNAPSHOT_CAP as int)];
        if plausible(e.phys) {
            before.push(e)
        } else {
            before
        }
    }
}

/// The page differed when it was first summed, `first` being memory at that time.
pub open spec fn differs(e: CrcEntry, first: Seq<u64>) -> bool {
    crc_of(page_bytes(first, e.phys)) != e.crc32
}

/// What is reported of an entry.
pub open spec fn report_of(e: CrcEntry, first: Seq<u64>, second: Seq<u64>) -> Mismatch {
    Mismatch {
        phys: e.phys,
        inode: e.key_packed / 0x1_0000,
        offset: (e.key_packed % 0x1_0000 * 4096) as u64,
        expected: e.crc32,
        actual: crc_of(page_bytes(first, e.phys)),
        actual2: crc_of(page_bytes(second, e.phys)),
    }
}

/// The pages among the first `n` of `s` that differed twice.
pub open spec fn changed(s: Seq<CrcEntry>, n: int, first: Seq<u64>, second: Seq<u64>) -> Seq<Mismatch>
    decreases n,
{
    if n <= 0 {
        Seq::empty()
    } else {
        let before = changed(s, n - 1, first, second);
        if differs(s[n - 1], first) && differs(s[n - 1], second) {
            before.push(report_of(s[n - 1], first, second))
        } else {
            before
        }
    }
}

/// How many of the first `n` of `s` differed once only.
pub open spec fn torn(s: Seq<CrcEntry>, n: int, first: Seq<u64>, second: Seq<u64>) -> int
    decreases n,
{
    if n <= 0 {
        0
    } else {
        torn(s, n - 1, first, second) + (if differs(s[n - 1], first) && !differs(s[n - 1], second) {
            1int
        } else {
            0
        })
    }
}

/// Slots that a processor looks at per tick, where `cpus` are online.
pub open spec fn budget(cpus: u32) -> int {
    if cpus == 0 {
        WALK_BUDGET_PER_TICK as int
    } else {
        (WALK_BUDGET_PER_TICK + cpus - 1) / (cpus as int)
    }
}

impl CrcView {
    pub open spec fn wf(self) -> bool {
        &&& self.entries.len() == SNAPSHOT_CAP
        &&& self.live == in_use(self.entries, SNAPSHOT_CAP as int)
    }

    /// What this tick's slice looks at.
    pub open spec fn slice(self, cpus: u32) -> Seq<CrcEntry> {
        slice_of(self.entries, (self.cursor % SNAPSHOT_CAP) as int, budget(cpus))
    }

    /// The pages that this tick finds changed.
    pub open spec fn found(self, cpus: u32, got: bool, first: Seq<u64>, second: Seq<u64>) -> Seq<
        Mismatch,
    > {
        if self.live == 0 || !got {
            Seq::empty()
        } else {
            changed(self.slice(cpus), self.slice(cpus).len() as int, first, second)
        }
    }

    /// After this tick's slice; `got` says whether the table could be had.
    pub open spec fn after_walk(self, cpus: u32, got: bool, first: Seq<u64>, second: Seq<u64>) -> CrcView {
        let n = self.slice(cpus).len() as int;
        let moved = CrcView { cursor: self.cursor.wrapping_add(budget(cpus) as u64), ..self };
        if self.live == 0 {
            self
        } else if !got {
            moved
        } else {
            CrcView {
                walks: self.walks.wrapping_add(n as u64),
                mismatches: self.mismatches.wrapping_add(
                    self.found(cpus, got, first, second).len() as u64,
                ),
                false_positives: self.false_positives.wrapping_add(
                    torn(self.slice(cpus), n, first, second) as u64,
                ),
                ..moved
            }
        }
    }
}

impl CrcEntry {
    /// A free slot.
    pub fn empty() -> (r: CrcEntry)
        ensures
            r == (CrcEntry { phys: 0, crc32: 0, key_packed: 0, generation: 0 }),
    {
        CrcEntry { phys: 0, crc32: 0, key_packed: 0, generation: 0 }
    }
}

proof fn lemma_none_in_use(s: Seq<CrcEntry>, n: int)
    requires
        0 <= n <= s.len(),
        forall|i: int| 0 <= i < n ==> (#[trigger] s[i]).phys == 0,
    ensures
        in_use(s, n) == 0,
    decreases n,
{
    if n > 0 {
        lemma_none_in_use(s, n - 1);
    }
}

/// How the number of slots in use changes with one slot.
proof fn lemma_in_use_update(s: Seq<CrcEntry>, n: int, i: int, e: CrcEntry)
    requires
        0 <= n <= s.len(),
        0 <= i < s.len(),
    ensures
        in_use(s.update(i, e), n) == in_use(s, n) + (if i < n {
            (if e.phys != 0 { 1int } else { 0 }) - (if s[i].phys != 0 { 1int } else { 0 })
        } else {
            0
        }),
        0 <= in_use(s, n) <= n,
    decreases n,
{
    if n > 0 {
        lemma_in_use_update(s, n - 1, i, e);
    }
}

impl CrcState {
    /// An empty table.
    pub fn new() -> (r: CrcState)
        ensures
            r@.wf(),
            r@ == (CrcView {
                entries: Seq::new(
                    SNAPSHOT_CAP as nat,
                    |i: int| CrcEntry { phys: 0, crc32: 0, key_packed: 0, generation: 0 },
                ),
                live: 0,
                cursor: 0,
                inserts: 0,
                walks: 0,
                mismatches: 0,
                false_positives: 0,
                overflow_drops: 0,
            }),
    {
        let mut entries: Vec<CrcEntry> = Vec::new();
        let mut i: u64 = 0;
        while i < SNAPSHOT_CAP
            invariant
                i <= SNAPSHOT_CAP,
                entries@ == Seq::new(
                    i as nat,
                    |j: int| CrcEntry { phys: 0, crc32: 0, key_packed: 0, generation: 0 },
                ),
            decreases SNAPSHOT_CAP - i,
        {
            entries.push(CrcEntry::empty());
            i = i + 1;
        }
        proof {
            lemma_none_in_use(entries@, SNAPSHOT_CAP as int);
        }
        CrcState {
            entries,
            live: 0,
            cursor: 0,
            inserts: 0,
            walks: 0,
            mismatches: 0,
            false_positives: 0,
            overflow_drops: 0,
        }
    }
}

/// Eight steps act on the low byte alone; the rest moves down.
proof fn lemma_crc_split(x: u32, b: u32)
    by (bit_vector)
    requires
        b < 0x100,
    ensures
        crc_byte(x ^ b) == (x >> 8) ^ crc_byte((x ^ b) & 0xFF),
        (x ^ b) & 0xFF < 0x100,
{
}

/// One step of the division.
fn reduce_bit(c: u32) -> (r: u32)
    ensures
        r == crc_bit(c),
{
    if c & 1 != 0 {
        POLYNOMIAL ^ (c >> 1)
    } else {
        c >> 1
    }
}

/// The table of all bytes' remainders.
fn crc_table() -> (r: Vec<u32>)
    ensures
        r@ == Seq::new(256, |i: int| crc_byte(i as u32)),
{
    let mut t: Vec<u32> = Vec::new();
    let mut i: u32 = 0;
    while i < 256
        invariant
            i <= 256,
            t@ == Seq::new(i as nat, |j: int| crc_byte(j as u32)),
        decreases 256 - i,
    {
        let c1: u32 = reduce_bit(i);
        let c2: u32 = reduce_bit(c1);
        let c3: u32 = reduce_bit(c2);
        let c4: u32 = reduce_bit(c3);
        let c5: u32 = reduce_bit(c4);
        let c6: u32 = reduce_bit(c5);
        let c7: u32 = reduce_bit(c6);
        let c8: u32 = reduce_bit(c7);
        t.push(c8);
        i = i + 1;
    }
    t
}

/// The CRC-32 of the bytes.
pub fn crc32(buf: &[u8]) -> (r: u32)
    ensures
        r == crc_of(buf@),
{
    let table = crc_table();
    let mut crc: u32 = 0xFFFF_FFFF;
    let n: usize = buf.len();
    let mut i: usize = 0;
    while i < n
        invariant
            n == buf@.len(),
            i <= n,
            table@ == Seq::new(256, |j: int| crc_byte(j as u32)),
            crc == crc_run(buf@, i as int),
        decreases n - i,
    {
        let b: u32 = buf[i] as u32;
        proof {
            lemma_crc_split(crc, b);
        }
        let idx: u32 = (crc ^ b) & 0xFF;
        crc = (crc >> 8) ^ table[idx as usize];
        i = i + 1;
    }
    crc ^ 0xFFFF_FFFF
}

/// The checksum of the page at `phys`.
pub fn crc_of_phys(mem: &PhysMem, phys: u64) -> (r: u32)
    requires
        phys <= u64::MAX - 4096,
    ensures
        r == crc_of(page_bytes(mem@, phys)),
{
    let mut bytes: Vec<u8> = Vec::new();
    let mut i: u64 = 0;
    while i < 4096
        invariant
            i <= 4096,
            phys <= u64::MAX - 4096,
            bytes@ =~= page_bytes(mem@, phys).take(i as int),
        decreases 4096 - i,
    {
        bytes.push(mem.read_byte(phys + i));
        i = i + 1;
    }
    assert(bytes@ =~= page_bytes(mem@, phys));
    crc32(bytes.as_slice())
}

/// The slot at which the search for a page starts.
pub fn key_to_slot(inode: u64, offset: u64) -> (r: u64)
    ensures
        r == home_slot(inode, offset),
        r < SNAPSHOT_CAP,
{
    let a: u64 = inode.wrapping_mul(0x9E37_79B9_7F4A_7C15) ^ offset.wrapping_mul(
        0xBF58_476D_1CE4_E5B9,
    );
    let b: u64 = a ^ (a >> 27);
    b.wrapping_mul(0x94D0_49BB_1331_11EB) % SNAPSHOT_CAP
}

/// Takes the checksum of a page that entered the cache.  Where none of the slots that
/// the page may lie in can take it, it is left out and counted.
pub fn record_insert(t: &mut CrcState, mem: &PhysMem, phys: u64, inode: u64, file_offset: u64)
    requires
        old(t)@.wf(),
        phys <= u64::MAX - 4096,
    ensures
        final(t)@.wf(),
        ({
            let s = old(t)@;
            let key = packed_key(inode, file_offset);
            let home = home_slot(inode, file_offset);
            let crc = crc_of(page_bytes(mem@, phys));
            &&& phys == 0 ==> final(t)@ == s
            &&& phys != 0 && (forall|k: int| !first_taker(s.entries, home, k, phys, key))
                ==> final(t)@ == (CrcView { overflow_drops: s.overflow_drops.wrapping_add(1), ..s })
            &&& forall|k: int|
                phys != 0 && #[trigger] first_taker(s.entries, home, k, phys, key) ==> {
                    let at = probe_slot(home, k);
                    let was = s.entries[at];
                    final(t)@ == (CrcView {
                        entries: s.entries.update(
                            at,
                            CrcEntry {
                                phys,
                                crc32: crc,
                                key_packed: key,
                                generation: if was.phys == 0 {
                                    1
                                } else {
                                    was.generation.wrapping_add(1)
                                },
                            },
                        ),
                        live: if was.phys == 0 {
                            (s.live + 1) as u64
                        } else {
                            s.live
                        },
                        inserts: s.inserts.wrapping_add(1),
                        ..s
                    })
                }
        }),
{
    if phys == 0 {
        return;
    }
    let key: u64 = inode % 0x1_0000_0000_0000 * 0x1_0000 + file_offset / 4096 % 0x1_0000;
    let crc: u32 = crc_of_phys(mem, phys);
    let home: u64 = key_to_slot(inode, file_offset);
    let ghost s = t@.entries;
    let mut k: u64 = 0;
    while k < PROBES
        invariant
            k <= PROBES,
            home < SNAPSHOT_CAP,
            t@ == old(t)@,
            old(t)@.wf(),
            s == old(t)@.entries,
            phys != 0,
            phys <= u64::MAX - 4096,
            key == packed_key(inode, file_offset),
            home == home_slot(inode, file_offset),
            crc == crc_of(page_bytes(mem@, phys)),
            forall|j: int| 0 <= j < k ==> !takes(s[#[trigger] probe_slot(home, j)], phys, key),
        decreases PROBES - k,
    {
        let at: u64 = (home + k) % SNAPSHOT_CAP;
        assert(at == probe_slot(home, k as int));
        let _len: usize = t.entries.len();
        let e: CrcEntry = t.entries[at as usize];
        proof {
            if takes(e, phys, key) {
                assert(first_taker(s, home, k as int, phys, key));
                assert forall|j: int| #[trigger] first_taker(s, home, j, phys, key) implies j == k by {
                    if j < k {
                        assert(!takes(s[probe_slot(home, j)], phys, key));
                    } else if k < j {
                        assert(!takes(s[probe_slot(home, k as int)], phys, key));
                    }
                }
            }
        }
        if e.phys == 0 {
            let new = CrcEntry { phys, crc32: crc, key_packed: key, generation: 1 };
            proof {
                lemma_in_use_update(s, SNAPSHOT_CAP as int, at as int, new);
                lemma_in_use_update(s.update(at as int, new), SNAPSHOT_CAP as int, at as int, new);
            }
            t.entries.set(at as usize, new);
            t.live = t.live + 1;
            t.inserts = t.inserts.wrapping_add(1);
            return;
        }
        if e.phys == phys && e.key_packed == key {
            let new = CrcEntry {
                phys,
                crc32: crc,
                key_packed: key,
                generation: e.generation.wrapping_add(1),
            };
            proof {
                lemma_in_use_update(s, SNAPSHOT_CAP as int, at as int, new);
            }
            t.entries.set(at as usize, new);
            t.inserts = t.inserts.wrapping_add(1);
            return;
        }
        k = k + 1;
    }
    proof {
        assert forall|j: int| !first_taker(s, home, j, phys, key) by {
            if first_taker(s, home, j, phys, key) {
                assert(!takes(s[probe_slot(home, j)], phys, key));
            }
        }
    }
    t.overflow_drops = t.overflow_drops.wrapping_add(1);
}

/// The slots without those of the frame.
pub open spec fn forgotten(s: Seq<CrcEntry>, phys: u64) -> Seq<CrcEntry> {
    Seq::new(
        s.len(),
        |i: int|
            if s[i].phys == phys {
                CrcEntry { phys: 0, crc32: 0, key_packed: 0, generation: 0 }
            } else {
                s[i]
            },
    )
}

/// Forgets the checksums of a frame that left the cache.
pub fn record_evict(t: &mut CrcState, phys: u64)
    requires
        old(t)@.wf(),
    ensures
        final(t)@.wf(),
        final(t)@ == (if phys == 0 {
            old(t)@
        } else {
            CrcView {
                entries: forgotten(old(t)@.entries, phys),
                live: in_use(forgotten(old(t)@.entries, phys), SNAPSHOT_CAP as int) as u64,
                ..old(t)@
            }
        }),
{
    if phys == 0 {
        return;
    }
    let ghost s = t@.entries;
    let mut i: u64 = 0;
    while i < SNAPSHOT_CAP
        invariant
            i <= SNAPSHOT_CAP,
            phys != 0,
            s == old(t)@.entries,
            s.len() == SNAPSHOT_CAP,
            t@.wf(),
            t@ == (CrcView { entries: t@.entries, live: t@.live, ..old(t)@ }),
            forall|j: int|
                0 <= j < SNAPSHOT_CAP ==> #[trigger] t@.entries[j] == (if j < i && s[j].phys
                    == phys {
                    CrcEntry { phys: 0, crc32: 0, key_packed: 0, generation: 0 }
                } else {
                    s[j]
                }),
        decreases SNAPSHOT_CAP - i,
    {
        let _len: usize = t.entries.len();
        if t.entries[i as usize].phys == phys {
            proof {
                lemma_in_use_update(
                    t@.entries,
                    SNAPSHOT_CAP as int,
                    i as int,
                    CrcEntry { phys: 0, crc32: 0, key_packed: 0, generation: 0 },
                );
                lemma_in_use_update(
                    t@.entries.update(
                        i as int,
                        CrcEntry { phys: 0, crc32: 0, key_packed: 0, generation: 0 },
                    ),
                    SNAPSHOT_CAP as int,
                    i as int,
                    t@.entries[i as int],
                );
            }
            t.entries.set(i as usize, CrcEntry::empty());
            t.live = t.live - 1;
        }
        i = i + 1;
    }
    assert(t@.entries =~= forgotten(s, phys));
}

/// What two sums of a page say of it.
#[derive(Clone, Copy, PartialEq, Eq, Structural, Debug)]
pub enum Verdict {
    Same,
    /// It differed once only: it was read while it was written.
    Torn,
    Changed,
}

/// Compares two sums of a page with the one on record.
pub fn judge(expected: u32, actual: u32, actual2: u32) -> (r: Verdict)
    ensures
        r == (if actual == expected {
            Verdict::Same
        } else if actual2 == expected {
            Verdict::Torn
        } else {
            Verdict::Changed
        }),
        r == Verdict::Same <==> actual == expected,
        r == Verdict::Changed <==> actual != expected && actual2 != expected,
{
    if actual == expected {
        Verdict::Same
    } else if actual2 == expected {
        Verdict::Torn
    } else {
        Verdict::Changed
    }
}

/// The entries that this tick's slice looks at, for someone who holds the lock of the table.
fn take_slice(t: &CrcState, _table: &spin::MutexGuard<'_, ()>, start: u64, n: u64) -> (r: Vec<CrcEntry>)
    requires
        t@.wf(),
        start < SNAPSHOT_CAP,
        n <= WALK_BUDGET_PER_TICK,
    ensures
        r@ == slice_of(t@.entries, start as int, n as int),
        r@.len() <= n,
        forall|i: int| 0 <= i < r@.len() ==> plausible((#[trigger] r@[i]).phys),
{
    let mut r: Vec<CrcEntry> = Vec::new();
    let mut i: u64 = 0;
    while i < n
        invariant
            t@.wf(),
            start < SNAPSHOT_CAP,
            n <= WALK_BUDGET_PER_TICK,
            i <= n,
            r@.len() <= i,
            r@ == slice_of(t@.entries, start as int, i as int),
            forall|j: int| 0 <= j < r@.len() ==> plausible((#[trigger] r@[j]).phys),
        decreases n - i,
    {
        let at: u64 = (start + i) % SNAPSHOT_CAP;
        let _len: usize = t.entries.len();
        let e: CrcEntry = t.entries[at as usize];
        if e.phys >= LOWEST_FRAME && e.phys <= HIGHEST_FRAME && e.phys % 4096 == 0 {
            r.push(e);
        }
        i = i + 1;
    }
    r
}

/// One tick's slice, where `held` is the lock of the table, if it could be had.  `first` is
/// memory when the pages are summed, `second` when those that differ are summed again.
pub fn walk_slice(
    t: &mut CrcState,
    held: Option<&spin::MutexGuard<'_, ()>>,
    cpus: u32,
    first: &PhysMem,
    second: &PhysMem,
) -> (r: Vec<Mismatch>)
    requires
        old(t)@.wf(),
    ensures
        final(t)@.wf(),
        final(t)@ == old(t)@.after_walk(cpus, held is Some, first@, second@),
        r@ == old(t)@.found(cpus, held is Some, first@, second@),
{
    let mut found: Vec<Mismatch> = Vec::new();
    if t.live == 0 {
        return found;
    }
    let n: u64 = if cpus == 0 {
        WALK_BUDGET_PER_TICK
    } else {
        (WALK_BUDGET_PER_TICK + cpus as u64 - 1) / (cpus as u64)
    };
    proof {
        if cpus != 0 {
            lemma_budget(cpus);
        }
    }
    let start: u64 = t.cursor % SNAPSHOT_CAP;
    t.cursor = t.cursor.wrapping_add(n);
    let table = match held {
        Some(guard) => guard,
        None => {
            return found;
        },
    };
    let slice: Vec<CrcEntry> = take_slice(t, table, start, n);
    let len: usize = slice.len();
    t.walks = t.walks.wrapping_add(len as u64);
    let mut false_positives: u64 = 0;
    let mut i: usize = 0;
    while i < len
        invariant
            i <= len,
            len == slice@.len(),
            len <= WALK_BUDGET_PER_TICK,
            forall|j: int| 0 <= j < slice@.len() ==> plausible((#[trigger] slice@[j]).phys),
            found@ == changed(slice@, i as int, first@, second@),
            found@.len() <= i,
            false_positives == torn(slice@, i as int, first@, second@),
            false_positives <= i,
        decreases len - i,
    {
        let e: CrcEntry = slice[i];
        assert(plausible(slice@[i as int].phys));
        let actual: u32 = crc_of_phys(first, e.phys);
        if actual != e.crc32 {
            let actual2: u32 = crc_of_phys(second, e.phys);
            match judge(e.crc32, actual, actual2) {
                Verdict::Same => {},
                Verdict::Torn => {
                    false_positives = false_positives + 1;
                },
                Verdict::Changed => {
                    found.push(
                        Mismatch {
                            phys: e.phys,
                            inode: e.key_packed / 0x1_0000,
                            offset: e.key_packed % 0x1_0000 * 4096,
                            expected: e.crc32,
                            actual,
                            actual2,
                        },
                    );
                },
            }
        }
        i = i + 1;
    }
    t.false_positives = t.false_positives.wrapping_add(false_positives);
    t.mismatches = t.mismatches.wrapping_add(found.len() as u64);
    found
}

proof fn lemma_budget(cpus: u32)
    requires
        cpus > 0,
    ensures
        1 <= budget(cpus) <= WALK_BUDGET_PER_TICK,
{
    assert(1 <= (4096 + cpus - 1) / (cpus as int) <= 4096) by (nonlinear_arith)
        requires
            cpus > 0,
    ;
}

/// Timer tick on one processor: sums its slice of the table again, unless someone else
/// holds the table.  The caller sets a watchpoint on a page that changed, if none is
/// set, and then calls [`note_armed`].
pub fn crc_walk_tick(
    t: &mut CrcState,
    lock: &spin::Mutex<()>,
    cpus: u32,
    first: &PhysMem,
    second: &PhysMem,
) -> (r: Vec<Mismatch>)
    requires
        old(t)@.wf(),
    ensures
        final(t)@.wf(),
        exists|got: bool|
            final(t)@ == #[trigger] old(t)@.after_walk(cpus, got, first@, second@)
                && r@ == old(t)@.found(cpus, got, first@, second@),
{
    let guard = try_lock(lock);
    walk_slice(t, guard.as_ref(), cpus, first, second)
}

/// The slots after the checksum of a frame was taken over.
pub open spec fn refreshed(s: Seq<CrcEntry>, phys: u64, crc: u32) -> Seq<CrcEntry> {
    Seq::new(
        s.len(),
        |i: int|
            if s[i].phys == phys {
                CrcEntry { crc32: crc, generation: s[i].generation.wrapping_add(1), ..s[i] }
            } else {
                s[i]
            },
    )
}

/// A watchpoint was set on a page that changed: its new checksum goes on record, so that
/// it is not reported again.
pub fn note_armed(t: &mut CrcState, m: Mismatch)
    requires
        old(t)@.wf(),
    ensures
        final(t)@.wf(),
        final(t)@ == (CrcView {
            entries: refreshed(old(t)@.entries, m.phys, m.actual2),
            ..old(t)@
        }),
{
    let ghost s = t@.entries;
    let mut i: u64 = 0;
    while i < SNAPSHOT_CAP
        invariant
            i <= SNAPSHOT_CAP,
            s == old(t)@.entries,
            s.len() == SNAPSHOT_CAP,
            t@.entries.len() == SNAPSHOT_CAP,
            t@ == (CrcView { entries: t@.entries, ..old(t)@ }),
            in_use(t@.entries, SNAPSHOT_CAP as int) == in_use(s, SNAPSHOT_CAP as int),
            forall|j: int|
                0 <= j < SNAPSHOT_CAP ==> #[trigger] t@.entries[j] == (if j < i && s[j].phys
                    == m.phys {
                    CrcEntry {
                        crc32: m.actual2,
                        generation: s[j].generation.wrapping_add(1),
                        ..s[j]
                    }
                } else {
                    s[j]
                }),
        decreases SNAPSHOT_CAP - i,
    {
        let _len: usize = t.entries.len();
        let e: CrcEntry = t.entries[i as usize];
        if e.phys == m.phys {
            let new = CrcEntry {
                phys: e.phys,
                crc32: m.actual2,
                key_packed: e.key_packed,
                generation: e.generation.wrapping_add(1),
            };
            proof {
                lemma_in_use_update(t@.entries, SNAPSHOT_CAP as int, i as int, new);
            }
            t.entries.set(i as usize, new);
        }
        i = i + 1;
    }
    assert(t@.entries =~= refreshed(s, m.phys, m.actual2));
}

/// The counters.
#[derive(Clone, Copy, PartialEq, Eq, Structural, Debug)]
pub struct CrcStats {
    pub inserts: u64,
    pub walks: u64,
    pub mismatches: u64,
    pub false_positives: u64,
    pub overflow_drops: u64,
    pub live: u64,
}

/// The counters, to be printed.
pub fn dump_stats(t: &CrcState) -> (r: CrcStats)
    ensures
        r == (CrcStats {
            inserts: t@.inserts,
            walks: t@.walks,
            mismatches: t@.mismatches,
            false_positives: t@.false_positives,
            overflow_drops: t@.overflow_drops,
            live: t@.live,
        }),
{
    CrcStats {
        inserts: t.inserts,
        walks: t.walks,
        mismatches: t.mismatches,
        false_positives: t.false_positives,
        overflow_drops: t.overflow_drops,
        live: t.live,
    }
}

/// A page that was not written to since its checksum was taken is never reported, nor
/// counted as torn.
pub proof fn law_unchanged_page_is_silent(e: CrcEntry, mem: Seq<u64>)
    requires
        e.crc32 == crc_of(page_bytes(mem, e.phys)),
    ensures
        !differs(e, mem),
{
}

/// Everything that is reported had its checksum on record and differed from it twice.
pub proof fn law_reported_pages_changed(
    s: Seq<CrcEntry>,
    n: int,
    first: Seq<u64>,
    second: Seq<u64>,
    k: int,
)
    requires
        0 <= n <= s.len(),
        0 <= k < changed(s, n, first, second).len(),
    ensures
        ({
            let m = changed(s, n, first, second)[k];
            m.actual != m.expected && m.actual2 != m.expected
        }),
    decreases n,
{
    if n > 0 && k < changed(s, n - 1, first, second).len() {
        law_reported_pages_changed(s, n - 1, first, second, k);
    }
}

/// A frame that left the cache has no checksum on record any more; other frames keep
/// theirs.
pub proof fn law_evicted_frame_is_forgotten(s: Seq<CrcEntry>, phys: u64, i: int)
    requires
        phys != 0,
        0 <= i < s.len(),
    ensures
        forgotten(s, phys)[i].phys != phys,
        s[i].phys != phys ==> forgotten(s, phys)[i] == s[i],
{
}

/// The slices of two ticks lie next to each other: between them no slot is left out.
pub proof fn law_slices_are_adjacent(t: CrcView, cpus: u32, got: bool, first: Seq<u64>, second: Seq<u64>)
    requires
        t.wf(),
        t.live != 0,
    ensures
        t.after_walk(cpus, got, first, second).cursor % SNAPSHOT_CAP == (t.cursor % SNAPSHOT_CAP
            + budget(cpus)) % (SNAPSHOT_CAP as int),
{
    if cpus != 0 {
        lemma_budget(cpus);
    }
    let b = budget(cpus);
    assert(0 <= b <= 4096);
    lemma_cursor_moves(t.cursor, b as u64);
    let u = t.after_walk(cpus, got, first, second);
    assert(u.cursor == t.cursor.wrapping_add(b as u64));
}

/// The cursor goes round with the table.
#[verifier::spinoff_prover]
proof fn lemma_cursor_moves(cursor: u64, b: u64)
    requires
        b <= 4096,
    ensures
        cursor.wrapping_add(b) % 65_536 == (cursor % 65_536 + b) % 65_536,
{
    let sum = cursor + b;
    if sum <= u64::MAX {
        assert(cursor.wrapping_add(b) == sum);
    } else {
        assert(cursor.wrapping_add(b) == sum - 0x1_0000_0000_0000_0000);
    }
}

impl CrcView {
    /// After `k` ticks in a row that could all have the table, with memory as it is.
    pub open spec fn after_ticks(self, cpus: u32, mem: Seq<u64>, k: nat) -> CrcView
        decreases k,
    {
        if k == 0 {
            self
        } else {
            self.after_ticks(cpus, mem, (k - 1) as nat).after_walk(cpus, true, mem, mem)
        }
    }
}

/// Ticks move the cursor on by one slice each, and leave the records alone.
proof fn lemma_after_ticks(t: CrcView, cpus: u32, mem: Seq<u64>, k: nat)
    requires
        t.wf(),
        t.live != 0,
    ensures
        ({
            let u = t.after_ticks(cpus, mem, k);
            &&& u.entries == t.entries
            &&& u.live == t.live
            &&& u.wf()
            &&& u.cursor % SNAPSHOT_CAP == (t.cursor + k * budget(cpus)) % (SNAPSHOT_CAP as int)
        }),
    decreases k,
{
    if k > 0 {
        lemma_after_ticks(t, cpus, mem, (k - 1) as nat);
        let u = t.after_ticks(cpus, mem, (k - 1) as nat);
        law_slices_are_adjacent(u, cpus, true, mem, mem);
        let b = budget(cpus);
        lemma_add_mod_noop(t.cursor + (k - 1) * b, b, SNAPSHOT_CAP as int);
        lemma_add_mod_noop((u.cursor % SNAPSHOT_CAP) as int, b, SNAPSHOT_CAP as int);
        lemma_mod_twice((t.cursor + (k - 1) * b), SNAPSHOT_CAP as int);
        assert(k * b == (k - 1) * b + b) by (nonlinear_arith);
    } else {
        assert(0 * budget(cpus) == 0);
    }
}

/// A slice looks at each of its slots that holds a plausible frame.
proof fn lemma_slice_holds(s: Seq<CrcEntry>, start: int, n: int, r: int) -> (at: int)
    requires
        0 <= r < n,
        plausible(s[(start + r) % (SNAPSHOT_CAP as int)].phys),
    ensures
        0 <= at < slice_of(s, start, n).len(),
        slice_of(s, start, n)[at] == s[(start + r) % (SNAPSHOT_CAP as int)],
    decreases n,
{
    if r == n - 1 {
        slice_of(s, start, n).len() - 1
    } else {
        lemma_slice_holds(s, start, n - 1, r)
    }
}

/// Every page that differed twice is reported.
proof fn lemma_changed_holds(
    s: Seq<CrcEntry>,
    n: int,
    first: Seq<u64>,
    second: Seq<u64>,
    i: int,
) -> (at: int)
    requires
        0 <= i < n <= s.len(),
        differs(s[i], first),
        differs(s[i], second),
    ensures
        0 <= at < changed(s, n, first, second).len(),
        changed(s, n, first, second)[at] == report_of(s[i], first, second),
    decreases n,
{
    if i == n - 1 {
        changed(s, n, first, second).len() - 1
    } else {
        lemma_changed_holds(s, n - 1, first, second, i)
    }
}

/// The tick of a round, counted from `t`, whose slice holds slot `i`.
pub open spec fn tick_of(t: CrcView, cpus: u32, i: int) -> int {
    (i - t.cursor) % (SNAPSHOT_CAP as int) / budget(cpus)
}

/// One round of ticks, as many as it takes to cover the table, meets every slot: each page
/// in a plausible frame that no longer has the checksum on record is reported by the tick
/// whose slice holds it.
///
/// All ticks can have the table, nothing is written meanwhile, and no report is followed by
/// [`note_armed`].
pub proof fn law_a_round_reports_every_changed_page(
    t: CrcView,
    cpus: u32,
    mem: Seq<u64>,
    rounds: nat,
    i: int,
)
    requires
        t.wf(),
        0 <= i < SNAPSHOT_CAP,
        rounds * budget(cpus) >= SNAPSHOT_CAP,
        plausible(t.entries[i].phys),
        t.live != 0,
        differs(t.entries[i], mem),
    ensures
        0 <= tick_of(t, cpus, i) < rounds,
        t.after_ticks(cpus, mem, tick_of(t, cpus, i) as nat).found(cpus, true, mem, mem).contains(
            report_of(t.entries[i], mem, mem),
        ),
{
    let cap = SNAPSHOT_CAP as int;
    let b = budget(cpus);
    if cpus != 0 {
        lemma_budget(cpus);
    }
    let o = (i - t.cursor) % cap;
    let j = o / b;
    let r = o % b;
    lemma_fundamental_div_mod(o, b);
    lemma_mod_bound(o, b);
    assert(0 <= j) by {
        lemma_div_pos_is_pos(o, b);
    }
    assert(j < rounds) by (nonlinear_arith)
        requires
            o == b * j + r,
            0 <= r,
            o < cap,
            rounds * b >= cap,
            b >= 1,
            j >= 0,
            rounds >= 0,
    ;
    lemma_after_ticks(t, cpus, mem, j as nat);
    let u = t.after_ticks(cpus, mem, j as nat);
    let start = (u.cursor % SNAPSHOT_CAP) as int;
    assert((start + r) % cap == i) by {
        assert(j * b == b * j) by (nonlinear_arith);
        lemma_add_mod_noop(t.cursor + j * b, r, cap);
        lemma_add_mod_noop(start, r, cap);
        lemma_mod_twice(t.cursor + j * b, cap);
        assert(t.cursor + j * b + r == t.cursor + o);
        lemma_add_mod_noop(t.cursor as int, i - t.cursor, cap);
        lemma_add_mod_noop(t.cursor as int, o, cap);
        lemma_mod_twice(i - t.cursor, cap);
        lemma_small_mod(i as nat, cap as nat);
    }
    let at = lemma_slice_holds(u.entries, start, b, r);
    let slice = u.slice(cpus);
    let k = lemma_changed_holds(slice, slice.len() as int, mem, mem, at);
    assert(u.found(cpus, true, mem, mem)[k] == report_of(t.entries[i], mem, mem));
}

/// No tick reports a page that still has the checksum on record: whatever a tick reports is
/// in the table and differs from it.
pub proof fn law_a_round_reports_changed_pages_alone(
    t: CrcView,
    cpus: u32,
    mem: Seq<u64>,
    k: nat,
    m: Mismatch,
)
    requires
        t.wf(),
        t.after_ticks(cpus, mem, k).found(cpus, true, mem, mem).contains(m),
    ensures
        exists|i: int|
            0 <= i < SNAPSHOT_CAP && differs(#[trigger] t.entries[i], mem) && plausible(
                t.entries[i].phys,
            ) && m == report_of(t.entries[i], mem, mem),
{
    if t.live == 0 {
        lemma_no_ticks(t, cpus, mem, k);
    } else {
        lemma_after_ticks(t, cpus, mem, k);
        let u = t.after_ticks(cpus, mem, k);
        let slice = u.slice(cpus);
        let found = u.found(cpus, true, mem, mem);
        let at = choose|at: int| 0 <= at < found.len() && found[at] == m;
        let x = lemma_changed_from(slice, slice.len() as int, mem, mem, at);
        let i = lemma_slice_from(u.entries, (u.cursor % SNAPSHOT_CAP) as int, budget(cpus), x);
        assert(differs(t.entries[i], mem));
    }
}

/// An empty table stays as it is.
proof fn lemma_no_ticks(t: CrcView, cpus: u32, mem: Seq<u64>, k: nat)
    requires
        t.live == 0,
    ensures
        t.after_ticks(cpus, mem, k) == t,
    decreases k,
{
    if k > 0 {
        lemma_no_ticks(t, cpus, mem, (k - 1) as nat);
    }
}

/// What is reported is an entry that differed.
proof fn lemma_changed_from(
    s: Seq<CrcEntry>,
    n: int,
    first: Seq<u64>,
    second: Seq<u64>,
    at: int,
) -> (i: int)
    requires
        0 <= n <= s.len(),
        0 <= at < changed(s, n, first, second).len(),
    ensures
        0 <= i < n,
        differs(s[i], first) && differs(s[i], second),
        changed(s, n, first, second)[at] == report_of(s[i], first, second),
    decreases n,
{
    if at < changed(s, n - 1, first, second).len() {
        lemma_changed_from(s, n - 1, first, second, at)
    } else {
        n - 1
    }
}

/// What a slice looks at is in the table.
proof fn lemma_slice_from(s: Seq<CrcEntry>, start: int, n: int, at: int) -> (i: int)
    requires
        start >= 0,
        0 <= at < slice_of(s, start, n).len(),
    ensures
        0 <= i < SNAPSHOT_CAP,
        slice_of(s, start, n)[at] == s[i],
        plausible(s[i].phys),
    decreases n,
{
    if at < slice_of(s, start, n - 1).len() {
        lemma_slice_from(s, start, n - 1, at)
    } else {
        (start + n - 1) % (SNAPSHOT_CAP as int)
    }
}

} // verus!
