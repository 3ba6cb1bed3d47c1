//! Resident pages of each address space.
//!
//! An address space is known by its page-table root (CR3).  The counts live in an
//! open-addressed table of fixed size, so that reading one takes no lock and no
//! allocation.
use vstd::prelude::*;
use crate::mm::physmem::{slot, PhysMem};
use crate::mm::vmm::{
    huge, is_identity, is_identity_map_phys, present, ADDR_MASK, ADDR_MASK_2M, PAGE_HUGE, PAGE_PRESENT,
};

verus! {

/// Number of slots of the table.
pub const RSS_SLOTS: u64 = 256;

/// Key of a slot that was never used: a search ends there.
pub const KEY_EMPTY: u64 = 0;

/// Key of a slot that was given up: a search goes on behind it.
pub const KEY_TOMBSTONE: u64 = 0xFFFF_FFFF_FFFF_FFFF;

/// Key of a slot that is being taken: a search goes on behind it.
pub const KEY_CLAIMING: u64 = 0xFFFF_FFFF_FFFF_FFFE;

/// The table of resident counts.
pub struct RssTable {
    pub keys: Vec<u64>,
    pub pages: Vec<i64>,
    /// Address spaces that found the table full.
    pub attach_failures: u64,
    /// Adjustments that took a count below zero.
    pub underflows: u64,
}

/// Whether `key` can name an address space.
pub open spec fn is_root(key: u64) -> bool {
    key != KEY_EMPTY && key != KEY_TOMBSTONE && key != KEY_CLAIMING
}

/// Slot at which the search for `cr3` starts.
pub open spec fn home(cr3: u64) -> int {
    ((cr3 / 4096).wrapping_mul(2654435761) % 256) as int
}

/// Slot that a search for `cr3` looks at after `d` steps.
pub open spec fn probe(cr3: u64, d: int) -> int {
    (home(cr3) + d) % 256
}

/// The `d` slots that a search for `cr3` looks at first were all used at some time.
pub open spec fn unbroken(keys: Seq<u64>, cr3: u64, d: int) -> bool {
    forall|j: int| 0 <= j < d ==> keys[#[trigger] probe(cr3, j)] != KEY_EMPTY
}

/// Slot `idx` is where a search for `cr3` after `d` steps ends up, with nothing on
/// the way that ends it early.
pub open spec fn reached_in(keys: Seq<u64>, cr3: u64, idx: int, d: int) -> bool {
    0 <= d < 256 && idx == probe(cr3, d) && unbroken(keys, cr3, d)
}

/// Slot `idx` is where a search for `cr3` ends up.
pub open spec fn reachable(keys: Seq<u64>, cr3: u64, idx: int) -> bool {
    exists|d: int| reached_in(keys, cr3, idx, d)
}

/// Slot `idx` belongs to the address space `cr3`.
pub open spec fn holds(keys: Seq<u64>, cr3: u64, idx: int) -> bool {
    0 <= idx < 256 && is_root(cr3) && keys[idx] == cr3
}

/// Whether the address space `cr3` has a slot.
pub open spec fn is_tracked(keys: Seq<u64>, cr3: u64) -> bool {
    exists|idx: int| holds(keys, cr3, idx)
}

/// The slot of the address space `cr3`.
pub open spec fn slot_of(keys: Seq<u64>, cr3: u64) -> int {
    choose|idx: int| holds(keys, cr3, idx)
}

/// What the table knows.
#[verifier::ext_equal]
pub struct RssView {
    /// Resident pages of every tracked address space.
    pub counts: Map<u64, i64>,
    pub attach_failures: u64,
    pub underflows: u64,
}

impl View for RssTable {
    type V = RssView;

    open spec fn view(&self) -> RssView {
        RssView {
            counts: Map::new(
                |k: u64| is_tracked(self.keys@, k),
                |k: u64| self.pages@[slot_of(self.keys@, k)],
            ),
            attach_failures: self.attach_failures,
            underflows: self.underflows,
        }
    }
}

impl RssTable {
    /// The table has its fixed size, no slot is left half taken, an address space has
    /// one slot, and the search for it finds that slot.
    pub open spec fn wf(self) -> bool {
        &&& self.keys@.len() == RSS_SLOTS
        &&& self.pages@.len() == RSS_SLOTS
        &&& forall|i: int| 0 <= i < 256 ==> self.keys@[i] != KEY_CLAIMING
        &&& forall|i: int, j: int|
            0 <= i < 256 && 0 <= j < 256 && i != j && is_root(#[trigger] self.keys@[i])
                ==> self.keys@[i] != #[trigger] self.keys@[j]
        &&& forall|i: int|
            0 <= i < 256 && is_root(#[trigger] self.keys@[i]) ==> reachable(
                self.keys@,
                self.keys@[i],
                i,
            )
    }

    /// Every slot belongs to some address space.
    pub open spec fn full(self) -> bool {
        forall|i: int| 0 <= i < 256 ==> is_root(#[trigger] self.keys@[i])
    }

    /// A table that tracks nothing.
    pub fn new() -> (r: RssTable)
        ensures
            r.wf(),
            r@ == (RssView { counts: Map::empty(), attach_failures: 0, underflows: 0 }),
    {
        let keys: Vec<u64> = vec![0u64; 256];
        let pages: Vec<i64> = vec![0i64; 256];
        let r = RssTable { keys, pages, attach_failures: 0, underflows: 0 };
        proof {
            assert(r@.counts =~= Map::empty());
        }
        r
    }
}

/// Slot at which the search for `cr3` starts: the frame number of the root, folded so
/// that neighbouring frames do not share slots.
fn slot_for(cr3: u64) -> (r: u64)
    ensures
        r == home(cr3),
        r < 256,
{
    (cr3 / 4096).wrapping_mul(2654435761) % RSS_SLOTS
}

/// The slot of the address space `cr3`.
fn find(t: &RssTable, cr3: u64) -> (r: Option<usize>)
    requires
        t.wf(),
        cr3 != KEY_TOMBSTONE,
        cr3 != KEY_CLAIMING,
    ensures
        r is Some <==> is_tracked(t.keys@, cr3),
        r matches Some(idx) ==> holds(t.keys@, cr3, idx as int) && idx == slot_of(t.keys@, cr3),
{
    let start: u64 = slot_for(cr3);
    let mut i: u64 = 0;
    while i < RSS_SLOTS
        invariant
            t.wf(),
            cr3 != KEY_TOMBSTONE,
            cr3 != KEY_CLAIMING,
            start == home(cr3),
            start < 256,
            i <= 256,
            unbroken(t.keys@, cr3, i as int),
            forall|j: int| 0 <= j < i ==> t.keys@[#[trigger] probe(cr3, j)] != cr3,
        decreases RSS_SLOTS - i,
    {
        let idx: u64 = (start + i) % RSS_SLOTS;
        assert(idx == probe(cr3, i as int));
        let k: u64 = t.keys[idx as usize];
        if k == KEY_EMPTY {
            proof {
                assert forall|x: int| !holds(t.keys@, cr3, x) by {
                    if holds(t.keys@, cr3, x) {
                        assert(reachable(t.keys@, t.keys@[x], x));
                        let d = choose|d: int| reached_in(t.keys@, cr3, x, d);
                        if d < i {
                            assert(t.keys@[probe(cr3, d)] != cr3);
                        } else if d > i {
                            assert(t.keys@[probe(cr3, i as int)] != KEY_EMPTY);
                        }
                    }
                }
            }
            return None;
        }
        if k == cr3 {
            assert(holds(t.keys@, cr3, idx as int));
            return Some(idx as usize);
        }
        i = i + 1;
    }
    proof {
        assert forall|x: int| !holds(t.keys@, cr3, x) by {
            if holds(t.keys@, cr3, x) {
                assert(reachable(t.keys@, t.keys@[x], x));
                let d = choose|d: int| reached_in(t.keys@, cr3, x, d);
                assert(t.keys@[probe(cr3, d)] != cr3);
            }
        }
    }
    None
}

/// Starts tracking `cr3` with no resident pages.  An address space that is tracked
/// already keeps its count.  Returns `false` for the null root and where the table is
/// full; the latter is counted.
pub fn attach(t: &mut RssTable, cr3: u64) -> (ok: bool)
    requires
        old(t).wf(),
        cr3 != KEY_TOMBSTONE,
        cr3 != KEY_CLAIMING,
    ensures
        final(t).wf(),
        ok == (cr3 != 0 && (old(t)@.counts.contains_key(cr3) || !old(t).full())),
        cr3 == 0 || old(t)@.counts.contains_key(cr3) ==> final(t)@ == old(t)@,
        cr3 != 0 && !old(t)@.counts.contains_key(cr3) && ok ==> final(t)@ == (RssView {
            counts: old(t)@.counts.insert(cr3, 0),
            ..old(t)@
        }),
        ok ==> final(t)@.counts.contains_key(cr3),
        ok && !old(t)@.counts.contains_key(cr3) ==> final(t)@.counts[cr3] == 0,
        cr3 != 0 && !ok ==> final(t)@ == (RssView {
            attach_failures: old(t)@.attach_failures.wrapping_add(1),
            ..old(t)@
        }),
{
    if cr3 == 0 {
        return false;
    }
    if find(t, cr3).is_some() {
        return true;
    }
    let start: u64 = slot_for(cr3);
    let mut i: u64 = 0;
    while i < RSS_SLOTS
        invariant
            t.wf(),
            *t == *old(t),
            is_root(cr3),
            !is_tracked(t.keys@, cr3),
            start == home(cr3),
            start < 256,
            i <= 256,
            forall|j: int| 0 <= j < i ==> is_root(t.keys@[#[trigger] probe(cr3, j)]),
        decreases RSS_SLOTS - i,
    {
        let idx: u64 = (start + i) % RSS_SLOTS;
        assert(idx == probe(cr3, i as int));
        let cur: u64 = t.keys[idx as usize];
        if cur == KEY_EMPTY || cur == KEY_TOMBSTONE {
            assert(!is_root(t.keys@[idx as int]));
            t.pages.set(idx as usize, 0);
            t.keys.set(idx as usize, cr3);
            proof {
                lemma_taken(*old(t), *t, cr3, idx as int, i as int);
            }
            return true;
        }
        i = i + 1;
    }
    proof {
        assert forall|x: int| 0 <= x < 256 implies is_root(#[trigger] t.keys@[x]) by {
            let d = (x - home(cr3)) % 256;
            assert(probe(cr3, d) == x);
        }
    }
    t.attach_failures = t.attach_failures.wrapping_add(1);
    assert(t@.counts =~= old(t)@.counts);
    false
}

proof fn lemma_taken(o: RssTable, n: RssTable, cr3: u64, idx: int, d: int)
    requires
        o.wf(),
        is_root(cr3),
        !is_tracked(o.keys@, cr3),
        0 <= d < 256,
        idx == probe(cr3, d),
        !is_root(o.keys@[idx]),
        forall|j: int| 0 <= j < d ==> is_root(o.keys@[#[trigger] probe(cr3, j)]),
        n.keys@ == o.keys@.update(idx, cr3),
        n.pages@ == o.pages@.update(idx, 0),
        n.attach_failures == o.attach_failures,
        n.underflows == o.underflows,
    ensures
        n.wf(),
        n@ == (RssView { counts: o@.counts.insert(cr3, 0), ..o@ }),
{
    assert forall|i: int| 0 <= i < 256 && is_root(#[trigger] n.keys@[i]) implies reachable(
        n.keys@,
        n.keys@[i],
        i,
    ) by {
        if i == idx {
            assert(reached_in(n.keys@, cr3, idx, d));
        } else {
            assert(reachable(o.keys@, o.keys@[i], i));
            let k = o.keys@[i];
            let e = choose|e: int| reached_in(o.keys@, k, i, e);
            assert(reached_in(n.keys@, k, i, e));
        }
    }
    assert forall|i: int, j: int|
        0 <= i < 256 && 0 <= j < 256 && i != j && is_root(#[trigger] n.keys@[i]) implies n.keys@[i]
        != #[trigger] n.keys@[j] by {
        if i == idx {
            assert(!holds(o.keys@, cr3, j));
        } else if j == idx {
            assert(!holds(o.keys@, cr3, i));
        }
    }
    assert(n.wf());
    lemma_counts(o, n, cr3, idx, 0);
}

/// Changing the page count of one slot, or giving it to a new address space, changes
/// that address space's entry alone.
proof fn lemma_counts(o: RssTable, n: RssTable, cr3: u64, idx: int, v: i64)
    requires
        o.wf(),
        n.wf(),
        0 <= idx < 256,
        is_root(cr3),
        n.keys@ == o.keys@.update(idx, cr3),
        n.pages@ == o.pages@.update(idx, v),
        o.keys@[idx] == cr3 || !is_root(o.keys@[idx]),
    ensures
        n@.counts == o@.counts.insert(cr3, v),
{
    assert forall|k: u64|
        #![trigger is_tracked(n.keys@, k)]
        #![trigger is_tracked(o.keys@, k)]
        is_tracked(n.keys@, k) == (k == cr3 || is_tracked(o.keys@, k)) by {
        if is_tracked(o.keys@, k) && k != cr3 {
            let x = slot_of(o.keys@, k);
            assert(holds(o.keys@, k, x));
            assert(holds(n.keys@, k, x));
        }
        if k == cr3 {
            assert(holds(n.keys@, cr3, idx));
        }
        if is_tracked(n.keys@, k) && k != cr3 {
            let x = slot_of(n.keys@, k);
            assert(holds(n.keys@, k, x));
            assert(holds(o.keys@, k, x));
        }
    }
    assert forall|k: u64| is_tracked(n.keys@, k) implies n.pages@[slot_of(n.keys@, k)] == (if k == cr3 {
        v
    } else {
        o.pages@[slot_of(o.keys@, k)]
    }) by {
        let x = slot_of(n.keys@, k);
        assert(holds(n.keys@, k, x));
        if k == cr3 {
            assert(holds(n.keys@, cr3, idx));
            assert(n.keys@[x] == n.keys@[idx]);
            assert(x == idx);
        } else {
            assert(is_tracked(o.keys@, k));
            let y = slot_of(o.keys@, k);
            assert(holds(o.keys@, k, y));
            assert(holds(n.keys@, k, y));
            assert(n.keys@[x] == n.keys@[y]);
            assert(x == y);
        }
    }
    assert(n@.counts =~= o@.counts.insert(cr3, v));
}

/// Stops tracking `cr3` and gives its slot up.
pub fn detach(t: &mut RssTable, cr3: u64)
    requires
        old(t).wf(),
        cr3 != KEY_TOMBSTONE,
        cr3 != KEY_CLAIMING,
    ensures
        final(t).wf(),
        final(t)@ == (RssView { counts: old(t)@.counts.remove(cr3), ..old(t)@ }),
        !final(t)@.counts.contains_key(cr3),
        forall|k: u64|
            k != cr3 && #[trigger] old(t)@.counts.contains_key(k) ==> final(t)@.counts.contains_key(
                k,
            ) && final(t)@.counts[k] == old(t)@.counts[k],
{
    if cr3 == 0 {
        assert(t@.counts =~= old(t)@.counts.remove(cr3));
        return;
    }
    match find(t, cr3) {
        Some(idx) => {
            t.pages.set(idx, 0);
            t.keys.set(idx, KEY_TOMBSTONE);
            proof {
                lemma_given_up(*old(t), *t, cr3, idx as int);
            }
        },
        None => {
            assert(t@.counts =~= old(t)@.counts.remove(cr3));
        },
    }
}

proof fn lemma_given_up(o: RssTable, n: RssTable, cr3: u64, idx: int)
    requires
        o.wf(),
        holds(o.keys@, cr3, idx),
        n.keys@ == o.keys@.update(idx, KEY_TOMBSTONE),
        n.pages@ == o.pages@.update(idx, 0),
    ensures
        n.wf(),
        n@.counts == o@.counts.remove(cr3),
{
    assert forall|i: int| 0 <= i < 256 && is_root(#[trigger] n.keys@[i]) implies reachable(
        n.keys@,
        n.keys@[i],
        i,
    ) by {
        assert(reachable(o.keys@, o.keys@[i], i));
        let k = o.keys@[i];
        let e = choose|e: int| reached_in(o.keys@, k, i, e);
        assert(reached_in(n.keys@, k, i, e));
    }
    assert(n.wf());
    assert forall|k: u64|
        #![trigger is_tracked(n.keys@, k)]
        #![trigger is_tracked(o.keys@, k)]
        is_tracked(n.keys@, k) == (k != cr3 && is_tracked(o.keys@, k)) by {
        if is_tracked(o.keys@, k) && k != cr3 {
            let x = slot_of(o.keys@, k);
            assert(holds(o.keys@, k, x));
            assert(holds(n.keys@, k, x));
        }
        if is_tracked(n.keys@, k) {
            let x = slot_of(n.keys@, k);
            assert(holds(n.keys@, k, x));
            assert(x != idx);
            assert(holds(o.keys@, k, x));
            assert(o.keys@[x] != o.keys@[idx]);
        }
    }
    assert forall|k: u64| is_tracked(n.keys@, k) implies n.pages@[slot_of(n.keys@, k)]
        == o.pages@[slot_of(o.keys@, k)] by {
        assert(is_tracked(o.keys@, k));
        let x = slot_of(n.keys@, k);
        let y = slot_of(o.keys@, k);
        assert(holds(n.keys@, k, x));
        assert(holds(o.keys@, k, y));
        assert(o.keys@[x] == o.keys@[y]);
        assert(x == y);
    }
    assert(n@.counts =~= o@.counts.remove(cr3));
}

/// Adjusts the resident count of `cr3` by `delta`.  An address space that is not
/// tracked is ignored.  A count that falls below zero is noted.
pub fn account(t: &mut RssTable, cr3: u64, delta: i64)
    requires
        old(t).wf(),
        cr3 != KEY_TOMBSTONE,
        cr3 != KEY_CLAIMING,
        old(t)@.counts.contains_key(cr3) ==> i64::MIN <= old(t)@.counts[cr3] + delta <= i64::MAX,
    ensures
        final(t).wf(),
        !old(t)@.counts.contains_key(cr3) || delta == 0 ==> final(t)@ == old(t)@,
        old(t)@.counts.contains_key(cr3) ==> final(t)@.counts[cr3] - old(t)@.counts[cr3] == delta,
        final(t)@.counts.dom() == old(t)@.counts.dom(),
        forall|k: u64|
            k != cr3 && #[trigger] old(t)@.counts.contains_key(k) ==> final(t)@.counts[k]
                == old(t)@.counts[k],
        old(t)@.counts.contains_key(cr3) && delta != 0 ==> final(t)@ == (RssView {
            counts: old(t)@.counts.insert(cr3, (old(t)@.counts[cr3] + delta) as i64),
            underflows: if old(t)@.counts[cr3] + delta < 0 {
                old(t)@.underflows.wrapping_add(1)
            } else {
                old(t)@.underflows
            },
            ..old(t)@
        }),
{
    if cr3 == 0 || delta == 0 {
        return;
    }
    match find(t, cr3) {
        Some(idx) => {
            let prev: i64 = t.pages[idx];
            t.pages.set(idx, prev + delta);
            if prev + delta < 0 {
                t.underflows = t.underflows.wrapping_add(1);
            }
            proof {
                assert(t.keys@ =~= old(t).keys@.update(idx as int, cr3));
                lemma_counts(*old(t), *t, cr3, idx as int, (prev + delta) as i64);
            }
        },
        None => {},
    }
}

/// Resident pages of `cr3`; `None` where it is not tracked.  A count below zero
/// reads as zero.
pub fn resident_pages(t: &RssTable, cr3: u64) -> (r: Option<u64>)
    requires
        t.wf(),
        cr3 != KEY_TOMBSTONE,
        cr3 != KEY_CLAIMING,
    ensures
        r is Some <==> t@.counts.contains_key(cr3),
        r matches Some(n) ==> n == (if t@.counts[cr3] > 0 { t@.counts[cr3] as int } else { 0 }),
        r matches Some(n) ==> n >= t@.counts[cr3] && (n == 0 || n == t@.counts[cr3]),
{
    match find(t, cr3) {
        None => None,
        Some(idx) => {
            let v: i64 = t.pages[idx];
            Some(if v > 0 { v as u64 } else { 0 })
        },
    }
}

/// Address spaces that found the table full.
pub fn attach_failures(t: &RssTable) -> (n: u64)
    ensures
        n == t@.attach_failures,
{
    t.attach_failures
}

/// Adjustments that took a count below zero.
pub fn underflow_count(t: &RssTable) -> (n: u64)
    ensures
        n == t@.underflows,
{
    t.underflows
}

/// Slots below `n` that belong to an address space.
pub open spec fn owned_slots(keys: Seq<u64>, n: int) -> Set<int> {
    Set::new(|i: int| 0 <= i < n && is_root(keys[i]))
}

/// Number of address spaces that are tracked.
pub fn tracked_count(t: &RssTable) -> (n: usize)
    requires
        t.wf(),
    ensures
        t@.counts.dom().finite(),
        n == t@.counts.dom().len(),
{
    let mut n: usize = 0;
    let mut i: usize = 0;
    assert(owned_slots(t.keys@, 0) =~= Set::empty());
    while i < 256
        invariant
            t.wf(),
            i <= 256,
            n <= i,
            owned_slots(t.keys@, i as int).finite(),
            n == owned_slots(t.keys@, i as int).len(),
        decreases 256 - i,
    {
        let k: u64 = t.keys[i];
        if k != KEY_EMPTY && k != KEY_TOMBSTONE && k != KEY_CLAIMING {
            assert(owned_slots(t.keys@, i + 1) =~= owned_slots(t.keys@, i as int).insert(i as int));
            n = n + 1;
        } else {
            assert(owned_slots(t.keys@, i + 1) =~= owned_slots(t.keys@, i as int));
        }
        i = i + 1;
    }
    proof {
        let owned = owned_slots(t.keys@, 256);
        let f = |i: int| t.keys@[i];
        assert forall|k: u64| t@.counts.dom().contains(k) implies owned.map(f).contains(k) by {
            let x = slot_of(t.keys@, k);
            assert(holds(t.keys@, k, x));
            assert(owned.contains(x) && f(x) == k);
        }
        assert forall|k: u64| owned.map(f).contains(k) implies t@.counts.dom().contains(k) by {
            let x = choose|x: int| owned.contains(x) && f(x) == k;
            assert(holds(t.keys@, k, x));
        }
        assert(owned.map(f) =~= t@.counts.dom());
        vstd::set_lib::lemma_map_size(owned, t@.counts.dom(), f);
    }
    n
}

/// A table is full exactly when it tracks as many address spaces as it has slots.
pub proof fn law_full_means_all_slots_taken(t: RssTable)
    requires
        t.wf(),
    ensures
        t@.counts.dom().finite(),
        t@.counts.dom().len() <= 256,
        t.full() <==> t@.counts.dom().len() == 256,
{
    let owned = owned_slots(t.keys@, 256);
    let all = vstd::set_lib::set_int_range(0, 256);
    vstd::set_lib::lemma_int_range(0, 256);
    assert(owned.subset_of(all));
    vstd::set_lib::lemma_len_subset(owned, all);
    let f = |i: int| t.keys@[i];
    assert forall|k: u64| t@.counts.dom().contains(k) implies owned.map(f).contains(k) by {
        let x = slot_of(t.keys@, k);
        assert(holds(t.keys@, k, x));
        assert(owned.contains(x) && f(x) == k);
    }
    assert forall|k: u64| owned.map(f).contains(k) implies t@.counts.dom().contains(k) by {
        let x = choose|x: int| owned.contains(x) && f(x) == k;
        assert(holds(t.keys@, k, x));
    }
    assert(owned.map(f) =~= t@.counts.dom());
    vstd::set_lib::lemma_map_size(owned, t@.counts.dom(), f);
    if owned.len() == 256 {
        vstd::set_lib::lemma_subset_equality(owned, all);
        assert forall|i: int| 0 <= i < 256 implies is_root(#[trigger] t.keys@[i]) by {
            assert(all.contains(i));
        }
    }
    if t.full() {
        assert(owned =~= all);
    }
}

/// Resident pages under the first `n` entries of the first-level table `pt`, whose
/// first page is `va`.
pub open spec fn resident_in_pt(mem: Seq<u64>, pt: u64, va: int, n: nat) -> nat
    decreases n,
{
    if n == 0 {
        0
    } else {
        let e = slot(mem, pt, n - 1);
        let here: nat = if present(e) && !is_identity(
            (va + (n - 1) * 0x1000) as u64,
            e & ADDR_MASK,
        ) {
            1
        } else {
            0
        };
        resident_in_pt(mem, pt, va, (n - 1) as nat) + here
    }
}

/// Resident pages under the first `n` entries of the second-level table `pd`, whose
/// first page is `va`.  A huge page counts as the small pages it covers.
pub open spec fn resident_in_pd(mem: Seq<u64>, pd: u64, va: int, n: nat) -> nat
    decreases n,
{
    if n == 0 {
        0
    } else {
        let e = slot(mem, pd, n - 1);
        let at = va + (n - 1) * 0x20_0000;
        let here: nat = if !present(e) {
            0
        } else if huge(e) {
            if is_identity(at as u64, e & ADDR_MASK_2M) {
                0
            } else {
                512
            }
        } else {
            resident_in_pt(mem, e & ADDR_MASK, at, 512)
        };
        resident_in_pd(mem, pd, va, (n - 1) as nat) + here
    }
}

/// Resident pages under the first `n` entries of the third-level table `pdpt`, whose
/// first page is `va`.
pub open spec fn resident_in_pdpt(mem: Seq<u64>, pdpt: u64, va: int, n: nat) -> nat
    decreases n,
{
    if n == 0 {
        0
    } else {
        let e = slot(mem, pdpt, n - 1);
        let at = va + (n - 1) * 0x4000_0000;
        let here: nat = if !present(e) {
            0
        } else if huge(e) {
            if is_identity(at as u64, e & !0x3FFF_FFFFu64) {
                0
            } else {
                0x4_0000
            }
        } else {
            resident_in_pd(mem, e & ADDR_MASK, at, 512)
        };
        resident_in_pdpt(mem, pdpt, va, (n - 1) as nat) + here
    }
}

/// Resident pages under the first `n` entries of the root `root`.
pub open spec fn resident_in_root(mem: Seq<u64>, root: u64, n: nat) -> nat
    decreases n,
{
    if n == 0 {
        0
    } else {
        let e = slot(mem, root, n - 1);
        let here: nat = if present(e) {
            resident_in_pdpt(mem, e & ADDR_MASK, (n - 1) * 0x80_0000_0000, 512)
        } else {
            0
        };
        resident_in_root(mem, root, (n - 1) as nat) + here
    }
}

fn walk_pt(mem: &PhysMem, pt: u64, va: u64) -> (r: u64)
    requires
        va <= 0x7FFF_FFFF_F000 - 511 * 0x1000,
    ensures
        r == resident_in_pt(mem@, pt, va as int, 512),
        r <= 512,
{
    let mut r: u64 = 0;
    let mut i: u64 = 0;
    while i < 512
        invariant
            i <= 512,
            va <= 0x7FFF_FFFF_F000 - 511 * 0x1000,
            r <= i,
            r == resident_in_pt(mem@, pt, va as int, i as nat),
        decreases 512 - i,
    {
        let e: u64 = mem.read(pt, i);
        if e & PAGE_PRESENT != 0 && !is_identity_map_phys(va + i * 0x1000, e & ADDR_MASK) {
            r = r + 1;
        }
        i = i + 1;
    }
    r
}

fn walk_pd(mem: &PhysMem, pd: u64, va: u64) -> (r: u64)
    requires
        va <= 0x7FFF_FFE0_0000 - 511 * 0x20_0000,
    ensures
        r == resident_in_pd(mem@, pd, va as int, 512),
        r <= 512 * 512,
{
    let mut r: u64 = 0;
    let mut i: u64 = 0;
    while i < 512
        invariant
            i <= 512,
            va <= 0x7FFF_FFE0_0000 - 511 * 0x20_0000,
            r <= i * 512,
            r == resident_in_pd(mem@, pd, va as int, i as nat),
        decreases 512 - i,
    {
        let e: u64 = mem.read(pd, i);
        if e & PAGE_PRESENT != 0 {
            let at: u64 = va + i * 0x20_0000;
            if e & PAGE_HUGE != 0 {
                if !is_identity_map_phys(at, e & ADDR_MASK_2M) {
                    r = r + 512;
                }
            } else {
                r = r + walk_pt(mem, e & ADDR_MASK, at);
            }
        }
        i = i + 1;
    }
    r
}

fn walk_pdpt(mem: &PhysMem, pdpt: u64, va: u64) -> (r: u64)
    requires
        va <= 0x7FFF_C000_0000 - 511 * 0x4000_0000,
    ensures
        r == resident_in_pdpt(mem@, pdpt, va as int, 512),
        r <= 512 * 512 * 512,
{
    let mut r: u64 = 0;
    let mut i: u64 = 0;
    while i < 512
        invariant
            i <= 512,
            va <= 0x7FFF_C000_0000 - 511 * 0x4000_0000,
            r <= i * 0x4_0000,
            r == resident_in_pdpt(mem@, pdpt, va as int, i as nat),
        decreases 512 - i,
    {
        let e: u64 = mem.read(pdpt, i);
        if e & PAGE_PRESENT != 0 {
            let at: u64 = va + i * 0x4000_0000;
            if e & PAGE_HUGE != 0 {
                if !is_identity_map_phys(at, e & !0x3FFF_FFFFu64) {
                    r = r + 512 * 512;
                }
            } else {
                r = r + walk_pd(mem, e & ADDR_MASK, at);
            }
        }
        i = i + 1;
    }
    r
}

/// Counts the resident pages of `cr3` by walking the user half of its tables.  Leaves
/// of the kernel's identity map do not count.
pub fn walk_resident_pages(mem: &PhysMem, cr3: u64) -> (resident: u64)
    ensures
        resident == (if cr3 == 0 { 0 } else { resident_in_root(mem@, cr3, 256) }),
{
    if cr3 == 0 {
        return 0;
    }
    let mut resident: u64 = 0;
    let mut i: u64 = 0;
    while i < 256
        invariant
            i <= 256,
            resident <= i * 0x800_0000,
            resident == resident_in_root(mem@, cr3, i as nat),
        decreases 256 - i,
    {
        let e: u64 = mem.read(cr3, i);
        if e & PAGE_PRESENT != 0 {
            resident = resident + walk_pdpt(mem, e & ADDR_MASK, i * 0x80_0000_0000);
        }
        i = i + 1;
    }
    resident
}

/// Tracking an address space and giving it up again leaves the others as they were.
pub proof fn law_attach_then_detach(counts: Map<u64, i64>, cr3: u64)
    requires
        !counts.contains_key(cr3),
    ensures
        counts.insert(cr3, 0).remove(cr3) =~= counts,
{
}

} // verus!
