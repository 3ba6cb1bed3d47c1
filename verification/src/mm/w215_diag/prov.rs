//! The last events of each page frame, in a small hash table.
use vstd::prelude::*;

verus! {

pub const KIND_ALLOC: u8 = 1;

pub const KIND_INSERT: u8 = 2;

pub const KIND_EVICT: u8 = 3;

pub const KIND_REFINC: u8 = 4;

pub const KIND_REFDEC: u8 = 5;

pub const KIND_PHYS_OFF_WRITE_PRE_INSERT: u8 = 6;

pub const KIND_PFH_INSTALL: u8 = 7;

pub const KIND_FREE: u8 = 8;

/// Buckets of the table.
pub const BUCKETS: u64 = 256;

/// Entries of a bucket.
pub const ENTRIES_PER_BUCKET: u64 = 16;

/// Entries of the table.
pub const ENTRIES: u64 = 4096;

/// An entry that is younger than this, in ticks, is lost too early.
pub const RECENT_TICKS: u64 = 200;

/// Entries that one dump lists.
pub const DUMP_CAP: usize = 12;

/// One event.
#[derive(Clone, Copy, PartialEq, Eq, Structural, Debug)]
pub struct ProvEntry {
    /// The frame; zero marks an empty entry.
    pub phys: u64,
    pub tick: u64,
    pub kind: u8,
    /// What the event was about, in 48 bits.
    pub key: u64,
}

/// The table.
pub struct ProvTable {
    /// The entries of the first bucket, then of the second, and so on.
    pub entries: Vec<ProvEntry>,
    /// Per bucket, how many entries were put in anew.
    pub cursors: Vec<u64>,
    /// Young entries that were lost.
    pub overflow: u64,
}

/// What the table holds.
#[verifier::ext_equal]
pub struct ProvTableView {
    pub entries: Seq<ProvEntry>,
    pub cursors: Seq<u64>,
    pub overflow: u64,
}

impl View for ProvTable {
    type V = ProvTableView;

    open spec fn view(&self) -> ProvTableView {
        ProvTableView {
            entries: self.entries@,
            cursors: self.cursors@,
            overflow: self.overflow,
        }
    }
}

/// Bucket of a frame.
pub open spec fn bucket_of(phys: u64) -> u64 {
    let pfn = phys / 4096;
    (pfn ^ (pfn >> 8) ^ (pfn >> 16)) % BUCKETS
}

/// Entry `i` of a bucket.
pub open spec fn entry_at(bucket: u64, i: int) -> int {
    bucket * 16 + i
}

/// Entry `i` of the bucket is the first that holds the frame.
pub open spec fn first_for(s: Seq<ProvEntry>, bucket: u64, i: int, phys: u64) -> bool {
    &&& 0 <= i < ENTRIES_PER_BUCKET
    &&& s[entry_at(bucket, i)].phys == phys
    &&& forall|j: int| 0 <= j < i ==> s[#[trigger] entry_at(bucket, j)].phys != phys
}

/// The bucket holds the frame.
pub open spec fn known(s: Seq<ProvEntry>, bucket: u64, phys: u64) -> bool {
    exists|i: int| #[trigger] first_for(s, bucket, i, phys)
}

impl ProvTableView {
    pub open spec fn wf(self) -> bool {
        self.entries.len() == ENTRIES && self.cursors.len() == BUCKETS
    }

    /// The entry that an event of the frame goes to: its own, or the next in turn.
    pub open spec fn place(self, phys: u64) -> int {
        let b = bucket_of(phys);
        if known(self.entries, b, phys) {
            entry_at(b, choose|i: int| #[trigger] first_for(self.entries, b, i, phys))
        } else {
            entry_at(b, (self.cursors[b as int] % ENTRIES_PER_BUCKET) as int)
        }
    }

    /// After an event of the frame.
    pub open spec fn after_record(self, phys: u64, kind: u8, key: u64, tick: u64) -> ProvTableView {
        let b = bucket_of(phys);
        let fresh = !known(self.entries, b, phys);
        let was = self.entries[self.place(phys)];
        if phys == 0 {
            self
        } else {
            ProvTableView {
                entries: self.entries.update(
                    self.place(phys),
                    ProvEntry { phys, tick, kind, key: key % 0x1_0000_0000_0000 },
                ),
                cursors: if fresh {
                    self.cursors.update(b as int, self.cursors[b as int].wrapping_add(1))
                } else {
                    self.cursors
                },
                overflow: if fresh && was.phys != 0 && tick.saturating_sub(was.tick)
                    < RECENT_TICKS {
                    self.overflow.wrapping_add(1)
                } else {
                    self.overflow
                },
            }
        }
    }
}

impl ProvTable {
    /// An empty table.
    pub fn new() -> (r: ProvTable)
        ensures
            r@.wf(),
            r@ == (ProvTableView {
                entries: Seq::new(
                    ENTRIES as nat,
                    |i: int| ProvEntry { phys: 0, tick: 0, kind: 0, key: 0 },
                ),
                cursors: Seq::new(BUCKETS as nat, |i: int| 0u64),
                overflow: 0,
            }),
    {
        let mut entries: Vec<ProvEntry> = Vec::new();
        let mut i: u64 = 0;
        while i < ENTRIES
            invariant
                i <= ENTRIES,
                entries@ == Seq::new(
                    i as nat,
                    |j: int| ProvEntry { phys: 0, tick: 0, kind: 0, key: 0 },
                ),
            decreases ENTRIES - i,
        {
            entries.push(ProvEntry { phys: 0, tick: 0, kind: 0, key: 0 });
            i = i + 1;
        }
        let mut cursors: Vec<u64> = Vec::new();
        let mut k: u64 = 0;
        while k < BUCKETS
            invariant
                k <= BUCKETS,
                cursors@ == Seq::new(k as nat, |j: int| 0u64),
            decreases BUCKETS - k,
        {
            cursors.push(0);
            k = k + 1;
        }
        ProvTable { entries, cursors, overflow: 0 }
    }
}

/// Bucket of a frame.
fn bucket_for(phys: u64) -> (b: u64)
    ensures
        b == bucket_of(phys),
        b < BUCKETS,
{
    let pfn: u64 = phys / 4096;
    (pfn ^ (pfn >> 8) ^ (pfn >> 16)) % BUCKETS
}

/// Names a page of a file in 48 bits.
pub fn pack_cache_key(inode: u64, file_offset: u64) -> (r: u64)
    ensures
        r == inode % 0x100_0000 * 0x100_0000 + file_offset / 4096 % 0x100_0000,
        r < 0x1_0000_0000_0000,
        r / 0x100_0000 == inode % 0x100_0000,
        r % 0x100_0000 == file_offset / 4096 % 0x100_0000,
{
    inode % 0x100_0000 * 0x100_0000 + file_offset / 4096 % 0x100_0000
}

/// The first entry of the bucket that holds the frame.
fn find_entry(t: &ProvTable, b: u64, phys: u64) -> (r: Option<u64>)
    requires
        t@.wf(),
        b < BUCKETS,
    ensures
        r matches Some(i) ==> first_for(t@.entries, b, i as int, phys),
        r is None ==> !known(t@.entries, b, phys),
{
    let mut i: u64 = 0;
    while i < ENTRIES_PER_BUCKET
        invariant
            i <= ENTRIES_PER_BUCKET,
            t@.wf(),
            b < BUCKETS,
            forall|j: int| 0 <= j < i ==> t@.entries[#[trigger] entry_at(b, j)].phys != phys,
        decreases ENTRIES_PER_BUCKET - i,
    {
        let _len: usize = t.entries.len();
        assert(entry_at(b, i as int) == b * 16 + i);
        if t.entries[(b * 16 + i) as usize].phys == phys {
            return Some(i);
        }
        i = i + 1;
    }
    proof {
        assert forall|j: int| !first_for(t@.entries, b, j, phys) by {
            if first_for(t@.entries, b, j, phys) {
                assert(t@.entries[entry_at(b, j)].phys != phys);
            }
        }
    }
    None
}

proof fn lemma_first_is_one(s: Seq<ProvEntry>, b: u64, i: int, phys: u64)
    requires
        first_for(s, b, i, phys),
    ensures
        known(s, b, phys),
        (choose|j: int| #[trigger] first_for(s, b, j, phys)) == i,
{
    let j = choose|j: int| #[trigger] first_for(s, b, j, phys);
    if j < i {
        assert(s[entry_at(b, j)].phys != phys);
    } else if i < j {
        assert(s[entry_at(b, i)].phys != phys);
    }
}

/// Notes an event of the frame.
pub fn prov_record(t: &mut ProvTable, phys: u64, kind: u8, key_packed_48: u64, tick: u64)
    requires
        old(t)@.wf(),
    ensures
        final(t)@.wf(),
        final(t)@ == old(t)@.after_record(phys, kind, key_packed_48, tick),
{
    if phys == 0 {
        return;
    }
    let b: u64 = bucket_for(phys);
    let new = ProvEntry { phys, tick, kind, key: key_packed_48 % 0x1_0000_0000_0000 };
    let _len: usize = t.entries.len();
    let _clen: usize = t.cursors.len();
    match find_entry(t, b, phys) {
        Some(i) => {
            proof {
                lemma_first_is_one(t@.entries, b, i as int, phys);
            }
            t.entries.set((b * 16 + i) as usize, new);
        },
        None => {
            let cursor: u64 = t.cursors[b as usize];
            let at: usize = (b * 16 + cursor % ENTRIES_PER_BUCKET) as usize;
            t.cursors.set(b as usize, cursor.wrapping_add(1));
            let was: ProvEntry = t.entries[at];
            if was.phys != 0 && tick.saturating_sub(was.tick) < RECENT_TICKS {
                t.overflow = t.overflow.wrapping_add(1);
            }
            t.entries.set(at, new);
        },
    }
    assert(t@ =~= old(t)@.after_record(phys, kind, key_packed_48, tick));
}

/// Notes that the frame was freed, and by whom.
pub fn prov_record_free(t: &mut ProvTable, phys: u64, caller_rip: u64, tick: u64)
    requires
        old(t)@.wf(),
    ensures
        final(t)@.wf(),
        final(t)@ == old(t)@.after_record(phys, KIND_FREE, caller_rip, tick),
{
    prov_record(t, phys, KIND_FREE, caller_rip % 0x1_0000_0000_0000, tick);
}

/// Name of an event kind.
pub open spec fn kind_name(k: u8) -> Seq<char> {
    if k == 1 {
        "ALLOC"@
    } else if k == 2 {
        "INSERT"@
    } else if k == 3 {
        "EVICT"@
    } else if k == 4 {
        "REFINC"@
    } else if k == 5 {
        "REFDEC"@
    } else if k == 6 {
        "PREINS_W"@
    } else if k == 7 {
        "PFH_INSTALL"@
    } else if k == 8 {
        "FREE"@
    } else {
        "UNKNOWN"@
    }
}

/// Name of an event kind.
pub fn kind_str(k: u8) -> (r: &'static str)
    ensures
        r@ == kind_name(k),
{
    match k {
        1 => "ALLOC",
        2 => "INSERT",
        3 => "EVICT",
        4 => "REFINC",
        5 => "REFDEC",
        6 => "PREINS_W",
        7 => "PFH_INSTALL",
        8 => "FREE",
        _ => "UNKNOWN",
    }
}

/// The entries among the first `n` of the bucket that hold the frame.
pub open spec fn events_in(s: Seq<ProvEntry>, bucket: u64, n: int, phys: u64) -> Seq<ProvEntry>
    decreases n,
{
    if n <= 0 {
        Seq::empty()
    } else {
        let before = events_in(s, bucket, n - 1, phys);
        let e = s[entry_at(bucket, n - 1)];
        if e.phys == phys {
            before.push(e)
        } else {
            before
        }
    }
}

/// Where in a list that descends by tick a newer or older entry goes: behind all that are
/// not older.
pub open spec fn tick_place(s: Seq<ProvEntry>, tick: u64) -> int
    decreases s.len(),
{
    if s.len() > 0 && s.last().tick < tick {
        tick_place(s.drop_last(), tick)
    } else {
        s.len() as int
    }
}

/// The list ordered by descending tick; entries of one tick stay in order.
pub open spec fn newest_first(s: Seq<ProvEntry>) -> Seq<ProvEntry>
    decreases s.len(),
{
    if s.len() == 0 {
        s
    } else {
        let before = newest_first(s.drop_last());
        before.insert(tick_place(before, s.last().tick), s.last())
    }
}

/// Puts an entry into a list that descends by tick.
fn insert_by_tick(v: &mut Vec<ProvEntry>, e: ProvEntry)
    ensures
        final(v)@ == old(v)@.insert(tick_place(old(v)@, e.tick), e),
{
    let mut j: usize = v.len();
    assert(v@.take(j as int) =~= v@);
    while j > 0 && v[j - 1].tick < e.tick
        invariant
            j <= v@.len(),
            v@ == old(v)@,
            tick_place(v@, e.tick) == tick_place(v@.take(j as int), e.tick),
        decreases j,
    {
        assert(v@.take(j as int).drop_last() =~= v@.take(j - 1));
        j = j - 1;
    }
    assert(tick_place(v@, e.tick) == j);
    v.insert(j, e);
}

/// The events of the frame, the newest first; [`DUMP_CAP`] of them at most.
pub fn dump_prov_for_phys(t: &ProvTable, phys: u64) -> (r: Vec<ProvEntry>)
    requires
        t@.wf(),
    ensures
        ({
            let all = newest_first(
                events_in(t@.entries, bucket_of(phys), ENTRIES_PER_BUCKET as int, phys),
            );
            r@ == (if all.len() > DUMP_CAP {
                all.take(DUMP_CAP as int)
            } else {
                all
            })
        }),
{
    let b: u64 = bucket_for(phys);
    let mut list: Vec<ProvEntry> = Vec::new();
    let mut i: u64 = 0;
    while i < ENTRIES_PER_BUCKET
        invariant
            i <= ENTRIES_PER_BUCKET,
            t@.wf(),
            b < BUCKETS,
            list@ == newest_first(events_in(t@.entries, b, i as int, phys)),
        decreases ENTRIES_PER_BUCKET - i,
    {
        let _len: usize = t.entries.len();
        let e: ProvEntry = t.entries[(b * 16 + i) as usize];
        assert(t@.entries[entry_at(b, i as int)] == e);
        if e.phys == phys {
            let ghost before = events_in(t@.entries, b, i as int, phys);
            assert(before.push(e).drop_last() =~= before);
            insert_by_tick(&mut list, e);
        }
        i = i + 1;
    }
    list.truncate(DUMP_CAP);
    list
}

/// Young entries that were lost.
pub fn prov_ring_overflow_count(t: &ProvTable) -> (n: u64)
    ensures
        n == t@.overflow,
{
    t.overflow
}

/// Where the frame stands in the list; its length where it does not.
pub open spec fn rank_of(s: Seq<(u64, u32)>, i: int, phys: u64) -> int
    decreases s.len() - i,
{
    if i >= s.len() {
        s.len() as int
    } else if s[i].0 == phys {
        i
    } else {
        rank_of(s, i + 1, phys)
    }
}

/// The first of the lowest counts among the first `n`, at least one.
pub open spec fn lowest(s: Seq<(u64, u32)>, n: int) -> int
    decreases n,
{
    if n <= 1 {
        0
    } else {
        let m = lowest(s, n - 1);
        if s[n - 1].1 < s[m].1 {
            n - 1
        } else {
            m
        }
    }
}

/// The list after one more entry of the frame was seen.  A list that is full takes a new
/// frame in the place of one that was seen once.
pub open spec fn seen(s: Seq<(u64, u32)>, phys: u64, cap: int) -> Seq<(u64, u32)> {
    let i = rank_of(s, 0, phys);
    let m = lowest(s, s.len() as int);
    if phys == 0 {
        s
    } else if i < s.len() {
        s.update(i, (phys, s[i].1.saturating_add(1)))
    } else if s.len() < cap {
        s.push((phys, 1))
    } else if s[m].1 < 2 {
        s.update(m, (phys, 1))
    } else {
        s
    }
}

/// The list after the first `n` entries of the table were seen.
pub open spec fn tally_of(entries: Seq<ProvEntry>, n: int, cap: int) -> Seq<(u64, u32)>
    decreases n,
{
    if n <= 0 {
        Seq::empty()
    } else {
        seen(tally_of(entries, n - 1, cap), entries[n - 1].phys, cap)
    }
}

/// Where in a list that descends by count another goes: behind all that are not lower.
pub open spec fn count_place(s: Seq<(u64, u32)>, count: u32) -> int
    decreases s.len(),
{
    if s.len() > 0 && s.last().1 < count {
        count_place(s.drop_last(), count)
    } else {
        s.len() as int
    }
}

/// The list ordered by descending count; frames of one count stay in order.
pub open spec fn highest_first(s: Seq<(u64, u32)>) -> Seq<(u64, u32)>
    decreases s.len(),
{
    if s.len() == 0 {
        s
    } else {
        let before = highest_first(s.drop_last());
        before.insert(count_place(before, s.last().1), s.last())
    }
}

fn insert_by_count(v: &mut Vec<(u64, u32)>, e: (u64, u32))
    ensures
        final(v)@ == old(v)@.insert(count_place(old(v)@, e.1), e),
{
    let mut j: usize = v.len();
    assert(v@.take(j as int) =~= v@);
    while j > 0 && v[j - 1].1 < e.1
        invariant
            j <= v@.len(),
            v@ == old(v)@,
            count_place(v@, e.1) == count_place(v@.take(j as int), e.1),
        decreases j,
    {
        assert(v@.take(j as int).drop_last() =~= v@.take(j - 1));
        j = j - 1;
    }
    assert(count_place(v@, e.1) == j);
    v.insert(j, e);
}

/// One more entry of the frame is seen.
fn note_seen(list: &mut Vec<(u64, u32)>, phys: u64, cap: usize)
    requires
        cap > 0,
        old(list)@.len() <= cap,
    ensures
        final(list)@ == seen(old(list)@, phys, cap as int),
        final(list)@.len() <= cap,
{
    if phys == 0 {
        return;
    }
    let n: usize = list.len();
    let mut i: usize = 0;
    while i < n && list[i].0 != phys
        invariant
            n == list@.len(),
            list@ == old(list)@,
            i <= n,
            rank_of(list@, 0, phys) == rank_of(list@, i as int, phys),
        decreases n - i,
    {
        i = i + 1;
    }
    if i < n {
        let count: u32 = list[i].1;
        list.set(i, (phys, count.saturating_add(1)));
    } else if n < cap {
        list.push((phys, 1));
    } else {
        let mut m: usize = 0;
        let mut k: usize = 1;
        while k < n
            invariant
                n == list@.len(),
                1 <= k <= n,
                m < k,
                m == lowest(list@, k as int),
            decreases n - k,
        {
            if list[k].1 < list[m].1 {
                m = k;
            }
            k = k + 1;
        }
        if list[m].1 < 2 {
            list.set(m, (phys, 1));
        }
    }
}

/// The frames that most entries are about, with their numbers, the most frequent first;
/// `cap` of them at most.
pub fn top_traced_physes(t: &ProvTable, cap: usize) -> (r: Vec<(u64, u32)>)
    requires
        t@.wf(),
    ensures
        r@ == (if cap == 0 {
            Seq::empty()
        } else {
            highest_first(tally_of(t@.entries, ENTRIES as int, cap as int))
        }),
{
    let mut out: Vec<(u64, u32)> = Vec::new();
    if cap == 0 {
        return out;
    }
    let mut list: Vec<(u64, u32)> = Vec::new();
    let mut i: u64 = 0;
    while i < ENTRIES
        invariant
            i <= ENTRIES,
            t@.wf(),
            cap > 0,
            list@.len() <= cap,
            list@ == tally_of(t@.entries, i as int, cap as int),
        decreases ENTRIES - i,
    {
        let _len: usize = t.entries.len();
        note_seen(&mut list, t.entries[i as usize].phys, cap);
        i = i + 1;
    }
    let n: usize = list.len();
    let mut k: usize = 0;
    while k < n
        invariant
            n == list@.len(),
            k <= n,
            out@ == highest_first(list@.take(k as int)),
        decreases n - k,
    {
        assert(list@.take(k + 1).drop_last() =~= list@.take(k as int));
        insert_by_count(&mut out, list[k]);
        k = k + 1;
    }
    assert(list@.take(n as int) =~= list@);
    out
}

/// After an event its frame is known, with that event.
pub proof fn law_event_is_kept(t: ProvTableView, phys: u64, kind: u8, key: u64, tick: u64)
    requires
        t.wf(),
        phys != 0,
    ensures
        known(t.after_record(phys, kind, key, tick).entries, bucket_of(phys), phys),
        t.after_record(phys, kind, key, tick).entries[t.place(phys)] == (ProvEntry {
            phys,
            tick,
            kind,
            key: key % 0x1_0000_0000_0000,
        }),
{
    let b = bucket_of(phys);
    let s = t.after_record(phys, kind, key, tick).entries;
    if known(t.entries, b, phys) {
        let i = choose|i: int| #[trigger] first_for(t.entries, b, i, phys);
        assert forall|j: int| 0 <= j < i implies s[#[trigger] entry_at(b, j)].phys != phys by {
            assert(t.entries[entry_at(b, j)].phys != phys);
        }
        assert(first_for(s, b, i, phys));
    } else {
        let i = (t.cursors[b as int] % ENTRIES_PER_BUCKET) as int;
        assert forall|j: int| 0 <= j < i implies s[#[trigger] entry_at(b, j)].phys != phys by {
            if t.entries[entry_at(b, j)].phys == phys {
                lemma_some_first(t.entries, b, j, phys);
            }
        }
        assert(first_for(s, b, i, phys));
    }
}

proof fn lemma_some_first(s: Seq<ProvEntry>, b: u64, j: int, phys: u64)
    requires
        0 <= j < ENTRIES_PER_BUCKET,
        s[entry_at(b, j)].phys == phys,
    ensures
        known(s, b, phys),
    decreases j,
{
    if exists|k: int| 0 <= k < j && s[#[trigger] entry_at(b, k)].phys == phys {
        let k = choose|k: int| 0 <= k < j && s[#[trigger] entry_at(b, k)].phys == phys;
        lemma_some_first(s, b, k, phys);
    } else {
        assert(first_for(s, b, j, phys));
    }
}

} // verus!
