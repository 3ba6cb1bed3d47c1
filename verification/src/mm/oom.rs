//! What happens when no page frame is left: the process that holds the most memory
//! is killed.
//!
//! Processes are ranked by their resident pages, which is what killing one gives
//! back.  A process of which nothing was measured, or that holds nothing, is never
//! killed: where no other is left the allocation fails instead.
use vstd::prelude::*;
use crate::mm::lock::try_lock;
use crate::mm::rss::{resident_pages, RssTable, RssView, KEY_CLAIMING, KEY_TOMBSTONE};
use crate::mm::vma::{VmArea, VmSpace};
use crate::proc::{Process, ProcessState, SignalState};

verus! {

/// Attempts at the lock of the process table before the killer gives up.
pub const PROCESS_TABLE_ACQUIRE_BOUND: u32 = 10_000_000;

/// Number of the signal that cannot be caught.
pub const SIGKILL: i32 = 9;

/// A process that may be killed, and what speaks for it.
#[derive(Clone, Copy, Debug)]
pub struct Candidate {
    pub pid: u64,
    /// Resident pages, where they were measured.
    pub score: Option<u64>,
    /// Pages of address space that it has reserved; never ranked on.
    pub mapped: u64,
}

/// State of the killer.
pub struct Oom {
    /// Times that the process table could not be had.
    pub lock_giveups: u64,
}

/// What one attempt at the process table led to.
#[derive(Debug)]
pub enum Attempt<T> {
    /// Someone else holds it: try again with this attempt count.
    Again(u32),
    /// The matter is settled.
    Done(T),
}

/// Pages of the first `n` areas.
pub open spec fn area_pages(areas: Seq<VmArea>, n: int) -> int
    decreases n,
{
    if n <= 0 {
        0
    } else {
        area_pages(areas, n - 1) + areas[n - 1].length as int / 4096
    }
}

/// The score of an address space.
pub open spec fn score_of(vm: Option<VmSpace>, rss: RssView) -> Option<u64> {
    match vm {
        None => None,
        Some(v) => if rss.counts.contains_key(v.cr3) {
            Some(
                if rss.counts[v.cr3] > 0 {
                    rss.counts[v.cr3] as u64
                } else {
                    0
                },
            )
        } else {
            None
        },
    }
}

/// The reserved pages of an address space.
pub open spec fn mapped_of(vm: Option<VmSpace>) -> int {
    match vm {
        None => 0,
        Some(v) => area_pages(v.areas@, v.areas@.len() as int),
    }
}

/// The root is that of an address space, and its reserved pages can be counted.
pub open spec fn measurable(vm: Option<VmSpace>) -> bool {
    vm matches Some(v) ==> v.cr3 != KEY_TOMBSTONE && v.cr3 != KEY_CLAIMING && mapped_of(vm)
        <= u64::MAX
}

impl Process {
    /// The process may be killed at all.
    pub open spec fn eligible(self) -> bool {
        self.pid != 0 && self.pid != 1 && self.vm_space is Some && self.state
            != ProcessState::Zombie
    }

    /// What the killer knows of the process.
    pub open spec fn scored(self, rss: RssView) -> Candidate {
        Candidate {
            pid: self.pid,
            score: score_of(self.vm_space, rss),
            mapped: mapped_of(self.vm_space) as u64,
        }
    }
}

/// Candidate `c` may be ranked: it holds memory that was measured.
pub open spec fn reclaimable(c: Candidate) -> bool {
    c.score is Some && c.score->0 > 0
}

/// Candidate `i` is the one to kill: nobody holds more, and among those that hold as
/// much nobody is younger.
pub open spec fn is_choice(cs: Seq<Candidate>, i: int) -> bool {
    &&& 0 <= i < cs.len()
    &&& reclaimable(cs[i])
    &&& forall|j: int|
        0 <= j < cs.len() && reclaimable(#[trigger] cs[j]) ==> cs[j].score->0 < cs[i].score->0 || (
        cs[j].score->0 == cs[i].score->0 && cs[j].pid <= cs[i].pid)
}

/// The answer of the selector.
pub open spec fn is_victim(cs: Seq<Candidate>, victim: Option<u64>) -> bool {
    match victim {
        Some(pid) => exists|i: int| #[trigger] is_choice(cs, i) && cs[i].pid == pid,
        None => forall|i: int| 0 <= i < cs.len() ==> !reclaimable(#[trigger] cs[i]),
    }
}

/// The candidates among the first `n` processes.
pub open spec fn candidates_of(procs: Seq<Process>, n: int, rss: RssView) -> Seq<Candidate>
    decreases n,
{
    if n <= 0 {
        Seq::empty()
    } else {
        let before = candidates_of(procs, n - 1, rss);
        if procs[n - 1].eligible() {
            before.push(procs[n - 1].scored(rss))
        } else {
            before
        }
    }
}

impl Oom {
    pub fn new() -> (r: Oom)
        ensures
            r.lock_giveups == 0,
    {
        Oom { lock_giveups: 0 }
    }
}

/// Times that the process table could not be had.
pub fn lock_giveup_count(oom: &Oom) -> (n: u64)
    ensures
        n == oom.lock_giveups,
{
    oom.lock_giveups
}

/// Resident pages of an address space; nothing where they were not measured.
pub fn oom_score(vm_space: Option<&VmSpace>, rss: &RssTable) -> (r: Option<u64>)
    requires
        rss.wf(),
        vm_space is Some ==> vm_space->0.cr3 != KEY_TOMBSTONE && vm_space->0.cr3 != KEY_CLAIMING,
    ensures
        vm_space is None ==> r is None,
        vm_space is Some ==> r == score_of(Some(*vm_space->0), rss@),
{
    match vm_space {
        None => None,
        Some(v) => resident_pages(rss, v.cr3),
    }
}

/// Pages of address space that were reserved.
pub fn mapped_pages(vm_space: Option<&VmSpace>) -> (n: u64)
    requires
        vm_space is Some ==> mapped_of(Some(*vm_space->0)) <= u64::MAX,
    ensures
        vm_space is None ==> n == 0,
        vm_space is Some ==> n == mapped_of(Some(*vm_space->0)),
{
    match vm_space {
        None => 0,
        Some(v) => {
            let mut sum: u64 = 0;
            let mut i: usize = 0;
            let len: usize = v.areas.len();
            while i < len
                invariant
                    len == v.areas@.len(),
                    i <= len,
                    sum == area_pages(v.areas@, i as int),
                    area_pages(v.areas@, len as int) <= u64::MAX,
                decreases len - i,
            {
                proof {
                    lemma_area_pages_grow(v.areas@, i + 1, len as int);
                }
                sum = sum + v.areas[i].length / 4096;
                i = i + 1;
            }
            sum
        },
    }
}

proof fn lemma_area_pages_grow(areas: Seq<VmArea>, a: int, b: int)
    requires
        0 <= a <= b <= areas.len(),
    ensures
        0 <= area_pages(areas, a) <= area_pages(areas, b),
    decreases b,
{
    if a < b {
        lemma_area_pages_grow(areas, a, b - 1);
    } else if a > 0 {
        lemma_area_pages_grow(areas, a - 1, b - 1);
    }
}

/// Whether the process may be killed at all: not the idle process, not the first user
/// process, no kernel thread, and nothing that is dying already.
pub fn is_eligible(p: &Process) -> (r: bool)
    ensures
        r == p.eligible(),
{
    p.pid != 0 && p.pid != 1 && p.vm_space.is_some() && p.state != ProcessState::Zombie
}

/// What the killer knows of a process.
pub fn score_process(p: &Process, rss: &RssTable) -> (c: Candidate)
    requires
        rss.wf(),
        measurable(p.vm_space),
    ensures
        c == p.scored(rss@),
{
    Candidate {
        pid: p.pid,
        score: oom_score(p.vm_space.as_ref(), rss),
        mapped: mapped_pages(p.vm_space.as_ref()),
    }
}

/// The process to kill: of those that were measured and hold memory the one that
/// holds the most, the youngest of several.
pub fn select_victim(candidates: &[Candidate]) -> (r: Option<u64>)
    ensures
        is_victim(candidates@, r),
{
    let mut best: Option<usize> = None;
    let n: usize = candidates.len();
    let mut i: usize = 0;
    while i < n
        invariant
            n == candidates@.len(),
            i <= n,
            best is None ==> forall|j: int| 0 <= j < i ==> !reclaimable(#[trigger] candidates@[j]),
            best matches Some(b) ==> is_choice(candidates@.take(i as int), b as int),
        decreases n - i,
    {
        let c: Candidate = candidates[i];
        let ghost before = candidates@.take(i as int);
        let ghost after = candidates@.take(i + 1);
        assert(after =~= before.push(c));
        if let Some(pages) = c.score {
            if pages > 0 {
                match best {
                    None => {
                        assert(is_choice(after, i as int)) by {
                            assert forall|j: int|
                                0 <= j < after.len() && reclaimable(#[trigger] after[j]) implies j
                                == i by {
                                if j < i {
                                    assert(!reclaimable(candidates@[j]));
                                }
                            }
                        }
                        best = Some(i);
                    },
                    Some(b) => {
                        let old_best: Candidate = candidates[b];
                        let held: u64 = match old_best.score {
                            Some(h) => h,
                            None => 0,
                        };
                        assert(before[b as int] == old_best);
                        assert(forall|j: int| 0 <= j < i ==> before[j] == #[trigger] after[j]);
                        if held < pages || (held == pages && old_best.pid <= c.pid) {
                            best = Some(i);
                        }
                    },
                }
            }
        }
        proof {
            if let Some(b) = best {
                assert(forall|j: int| 0 <= j < i ==> before[j] == #[trigger] after[j]);
            }
        }
        i = i + 1;
    }
    match best {
        None => None,
        Some(b) => {
            assert(candidates@.take(n as int) =~= candidates@);
            Some(candidates[b].pid)
        },
    }
}

/// Scores every process that may be killed, and selects.
pub fn choose_victim(procs: &Vec<Process>, rss: &RssTable) -> (r: Option<u64>)
    requires
        rss.wf(),
        forall|i: int| 0 <= i < procs@.len() ==> measurable((#[trigger] procs@[i]).vm_space),
    ensures
        is_victim(candidates_of(procs@, procs@.len() as int, rss@), r),
{
    let mut list: Vec<Candidate> = Vec::new();
    let n: usize = procs.len();
    let mut i: usize = 0;
    while i < n
        invariant
            n == procs@.len(),
            i <= n,
            rss.wf(),
            forall|j: int| 0 <= j < procs@.len() ==> measurable((#[trigger] procs@[j]).vm_space),
            list@ == candidates_of(procs@, i as int, rss@),
        decreases n - i,
    {
        if is_eligible(&procs[i]) {
            list.push(score_process(&procs[i], rss));
        }
        i = i + 1;
    }
    select_victim(list.as_slice())
}

/// What follows from one attempt at the lock of the process table, which is `held` where it
/// could be had.
pub fn after_attempt(
    oom: &mut Oom,
    held: Option<&spin::MutexGuard<'_, ()>>,
    iters: u32,
    procs: &Vec<Process>,
    rss: &RssTable,
) -> (r: Attempt<Option<u64>>)
    requires
        iters < PROCESS_TABLE_ACQUIRE_BOUND,
        rss.wf(),
        forall|i: int| 0 <= i < procs@.len() ==> measurable((#[trigger] procs@[i]).vm_space),
    ensures
        r matches Attempt::Again(next) ==> next < 10_000_000,
        held is None && iters + 1 < 10_000_000 ==> r is Again,
        held is Some ==> {
            &&& r matches Attempt::Done(victim) && is_victim(
                candidates_of(procs@, procs@.len() as int, rss@),
                victim,
            )
            &&& final(oom).lock_giveups == old(oom).lock_giveups
        },
        held is None && iters + 1 < PROCESS_TABLE_ACQUIRE_BOUND ==> {
            &&& r == Attempt::<Option<u64>>::Again((iters + 1) as u32)
            &&& final(oom).lock_giveups == old(oom).lock_giveups
        },
        held is None && iters + 1 == PROCESS_TABLE_ACQUIRE_BOUND ==> {
            &&& r == Attempt::Done(None::<u64>)
            &&& final(oom).lock_giveups == old(oom).lock_giveups.wrapping_add(1)
        },
{
    if held.is_some() {
        Attempt::Done(choose_victim(procs, rss))
    } else if iters + 1 < PROCESS_TABLE_ACQUIRE_BOUND {
        Attempt::Again(iters + 1)
    } else {
        oom.lock_giveups = oom.lock_giveups.wrapping_add(1);
        Attempt::Done(None)
    }
}

/// Chooses the process to kill for want of memory; none where nobody holds memory that
/// was measured, or the process table cannot be had.
///
/// One attempt is made at the lock of the process table, and none where the caller
/// holds it already (`held_here`): such a caller would wait for itself.  After
/// [`Attempt::Again`] the caller answers the invalidations that other processors ask of
/// it, and calls again.  A process that was chosen is killed with
/// [`deliver_sigkill_oom`].
pub fn invoke_oom_killer(
    oom: &mut Oom,
    held_here: bool,
    lock: &spin::Mutex<()>,
    iters: u32,
    procs: &Vec<Process>,
    rss: &RssTable,
) -> (r: Attempt<Option<u64>>)
    requires
        iters < PROCESS_TABLE_ACQUIRE_BOUND,
        rss.wf(),
        forall|i: int| 0 <= i < procs@.len() ==> measurable((#[trigger] procs@[i]).vm_space),
    ensures
        held_here ==> {
            &&& r == Attempt::Done(None::<u64>)
            &&& final(oom).lock_giveups == old(oom).lock_giveups.wrapping_add(1)
        },
        r matches Attempt::Again(next) ==> {
            &&& !held_here
            &&& next == iters + 1
            &&& next < PROCESS_TABLE_ACQUIRE_BOUND
            &&& final(oom).lock_giveups == old(oom).lock_giveups
        },
        r matches Attempt::Done(victim) ==> {
            ||| victim is None && (held_here || iters + 1 == PROCESS_TABLE_ACQUIRE_BOUND)
                && final(oom).lock_giveups == old(oom).lock_giveups.wrapping_add(1)
            ||| is_victim(candidates_of(procs@, procs@.len() as int, rss@), victim)
                && final(oom).lock_giveups == old(oom).lock_giveups
        },
{
    if held_here {
        oom.lock_giveups = oom.lock_giveups.wrapping_add(1);
        return Attempt::Done(None);
    }
    let guard = try_lock(lock);
    after_attempt(oom, guard.as_ref(), iters, procs, rss)
}

/// The first process with the number.
pub open spec fn first_with_pid(procs: Seq<Process>, i: int, pid: u64) -> bool {
    &&& 0 <= i < procs.len()
    &&& procs[i].pid == pid
    &&& forall|j: int| 0 <= j < i ==> (#[trigger] procs[j]).pid != pid
}

/// The process after it was sent the signal: it is marked, or ended at once where it
/// has no signal state.
pub open spec fn killed(p: Process) -> Process {
    match p.signal_state {
        Some(_) => Process { signal_state: Some(SignalState { kill_pending: true }), ..p },
        None => Process { state: ProcessState::Zombie, exit_code: (-9) as i32, ..p },
    }
}

/// Marks the process with the number, if it is still there.
pub fn mark_killed(procs: &mut Vec<Process>, victim: u64)
    ensures
        final(procs)@.len() == old(procs)@.len(),
        forall|i: int|
            0 <= i < old(procs)@.len() ==> #[trigger] final(procs)@[i] == (if first_with_pid(
                old(procs)@,
                i,
                victim,
            ) {
                killed(old(procs)@[i])
            } else {
                old(procs)@[i]
            }),
{
    let n: usize = procs.len();
    let mut i: usize = 0;
    while i < n
        invariant
            n == procs@.len(),
            i <= n,
            procs@ == old(procs)@,
            forall|j: int| 0 <= j < i ==> (#[trigger] procs@[j]).pid != victim,
        decreases n - i,
    {
        if procs[i].pid == victim {
            let ghost before = procs@[i as int];
            if procs[i].signal_state.is_some() {
                procs[i].signal_state = Some(SignalState { kill_pending: true });
            } else {
                procs[i].state = ProcessState::Zombie;
                procs[i].exit_code = -SIGKILL;
            }
            assert(procs@[i as int] == killed(before));
            assert(first_with_pid(old(procs)@, i as int, victim));
            return;
        }
        i = i + 1;
    }
}

/// What follows from one attempt at the lock of the process table, which is `held` where it
/// could be had, for the kill.
pub fn kill_after_attempt(
    oom: &mut Oom,
    held: Option<&spin::MutexGuard<'_, ()>>,
    iters: u32,
    procs: &mut Vec<Process>,
    victim: u64,
) -> (r: Attempt<()>)
    requires
        iters < PROCESS_TABLE_ACQUIRE_BOUND,
    ensures
        r matches Attempt::Again(next) ==> next < 10_000_000 && final(procs)@ == old(procs)@,
        final(procs)@.len() == old(procs)@.len(),
        r == (if held is None && iters + 1 < PROCESS_TABLE_ACQUIRE_BOUND {
            Attempt::<()>::Again((iters + 1) as u32)
        } else {
            Attempt::Done(())
        }),
        final(oom).lock_giveups == (if held is None && iters + 1 == PROCESS_TABLE_ACQUIRE_BOUND {
            old(oom).lock_giveups.wrapping_add(1)
        } else {
            old(oom).lock_giveups
        }),
        forall|i: int|
            0 <= i < old(procs)@.len() ==> #[trigger] final(procs)@[i] == (if held is Some
                && first_with_pid(old(procs)@, i, victim) {
                killed(old(procs)@[i])
            } else {
                old(procs)@[i]
            }),
{
    if held.is_some() {
        mark_killed(procs, victim);
        Attempt::Done(())
    } else if iters + 1 < PROCESS_TABLE_ACQUIRE_BOUND {
        Attempt::Again(iters + 1)
    } else {
        oom.lock_giveups = oom.lock_giveups.wrapping_add(1);
        Attempt::Done(())
    }
}

/// Marks the chosen process as killed: it ends itself when it is next scheduled.  One
/// attempt is made at the lock of the process table, as for [`invoke_oom_killer`].
pub fn deliver_sigkill_oom(
    oom: &mut Oom,
    lock: &spin::Mutex<()>,
    iters: u32,
    procs: &mut Vec<Process>,
    victim: u64,
) -> (r: Attempt<()>)
    requires
        iters < PROCESS_TABLE_ACQUIRE_BOUND,
    ensures
        final(procs)@.len() == old(procs)@.len(),
        r matches Attempt::Again(next) ==> next == iters + 1 && next < PROCESS_TABLE_ACQUIRE_BOUND
            && final(procs)@ == old(procs)@ && final(oom).lock_giveups == old(oom).lock_giveups,
        r is Done ==> {
            ||| iters + 1 == PROCESS_TABLE_ACQUIRE_BOUND && final(procs)@ == old(procs)@
                && final(oom).lock_giveups == old(oom).lock_giveups.wrapping_add(1)
            ||| final(oom).lock_giveups == old(oom).lock_giveups && forall|i: int|
                0 <= i < old(procs)@.len() ==> #[trigger] final(procs)@[i] == (
                if first_with_pid(old(procs)@, i, victim) {
                    killed(old(procs)@[i])
                } else {
                    old(procs)@[i]
                })
        },
{
    let guard = try_lock(lock);
    let r = kill_after_attempt(oom, guard.as_ref(), iters, procs, victim);
    assert(guard is None ==> procs@ =~= old(procs)@);
    r
}

/// A process that is chosen may be killed, was measured, and holds memory.
pub proof fn law_victim_is_worth_killing(procs: Seq<Process>, rss: RssView, victim: u64)
    requires
        is_victim(candidates_of(procs, procs.len() as int, rss), Some(victim)),
    ensures
        exists|i: int|
            0 <= i < procs.len() && (#[trigger] procs[i]).pid == victim && procs[i].eligible()
                && score_of(procs[i].vm_space, rss) is Some && score_of(procs[i].vm_space, rss)->0
                > 0,
        victim != 0,
        victim != 1,
{
    let cs = candidates_of(procs, procs.len() as int, rss);
    let k = choose|k: int| #[trigger] is_choice(cs, k) && cs[k].pid == victim;
    let i = lemma_candidate_is_a_process(procs, procs.len() as int, rss, k);
    assert(procs[i].scored(rss) == cs[k]);
}

proof fn lemma_candidate_is_a_process(procs: Seq<Process>, n: int, rss: RssView, k: int) -> (i: int)
    requires
        0 <= n <= procs.len(),
        0 <= k < candidates_of(procs, n, rss).len(),
    ensures
        0 <= i < n,
        procs[i].eligible(),
        procs[i].scored(rss) == candidates_of(procs, n, rss)[k],
    decreases n,
{
    let before = candidates_of(procs, n - 1, rss);
    if k < before.len() {
        lemma_candidate_is_a_process(procs, n - 1, rss, k)
    } else {
        n - 1
    }
}

/// The choice is unique: two answers of the selector for one list are the same.
pub proof fn law_victim_is_unique(cs: Seq<Candidate>, a: Option<u64>, b: Option<u64>)
    requires
        is_victim(cs, a),
        is_victim(cs, b),
    ensures
        a == b,
{
    if a is Some && b is Some {
        let i = choose|i: int| #[trigger] is_choice(cs, i) && cs[i].pid == a->0;
        let j = choose|j: int| #[trigger] is_choice(cs, j) && cs[j].pid == b->0;
        assert(reclaimable(cs[i]) && reclaimable(cs[j]));
    } else if a is Some {
        let i = choose|i: int| #[trigger] is_choice(cs, i) && cs[i].pid == a->0;
        assert(reclaimable(cs[i]));
    } else if b is Some {
        let j = choose|j: int| #[trigger] is_choice(cs, j) && cs[j].pid == b->0;
        assert(reclaimable(cs[j]));
    }
}

/// Reserved address space does not count: two lists that differ in it alone lead to the
/// same choice.
pub proof fn law_reservations_do_not_count(cs: Seq<Candidate>, ds: Seq<Candidate>, a: Option<u64>)
    requires
        cs.len() == ds.len(),
        forall|i: int|
            0 <= i < cs.len() ==> (#[trigger] cs[i]).pid == ds[i].pid && cs[i].score == ds[i].score,
        is_victim(cs, a),
    ensures
        is_victim(ds, a),
{
    match a {
        Some(pid) => {
            let i = choose|i: int| #[trigger] is_choice(cs, i) && cs[i].pid == pid;
            assert(is_choice(ds, i)) by {
                assert forall|j: int|
                    0 <= j < ds.len() && reclaimable(#[trigger] ds[j]) implies ds[j].score->0
                    < ds[i].score->0 || (ds[j].score->0 == ds[i].score->0 && ds[j].pid
                    <= ds[i].pid) by {
                    assert(cs[j].score == ds[j].score);
                    assert(reclaimable(cs[j]));
                }
            }
        },
        None => {
            assert forall|i: int| 0 <= i < ds.len() implies !reclaimable(#[trigger] ds[i]) by {
                assert(!reclaimable(cs[i]));
            }
        },
    }
}

} // verus!
