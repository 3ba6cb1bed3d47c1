//! Who is killed when memory runs out, and what that does.
use vstd::prelude::*;
use crate::mm::oom::{
    area_pages, candidates_of, is_choice, is_victim, killed, reclaimable, score_of,
};
use crate::mm::rss::RssView;
use crate::mm::vma::VmArea;
use crate::proc::{Process, ProcessState};

verus! {

/// A process is a candidate where it is not the kernel nor the first process, owns an address
/// space and still runs.
pub proof fn law_who_may_be_killed(p: Process)
    ensures
        p.eligible() <==> p.pid > 1 && p.vm_space is Some && p.state == ProcessState::Active,
{
}

/// The score of a process is the number of its resident pages; where that has fallen below
/// zero it is zero, and where nobody counts them there is none.
pub proof fn law_score_is_the_resident_pages(p: Process, rss: RssView)
    requires
        p.vm_space is Some,
    ensures
        ({
            let cr3 = p.vm_space->0.cr3;
            &&& rss.counts.contains_key(cr3) && rss.counts[cr3] >= 0 ==> score_of(p.vm_space, rss)
                is Some && score_of(p.vm_space, rss)->0 == rss.counts[cr3]
            &&& rss.counts.contains_key(cr3) && rss.counts[cr3] < 0 ==> score_of(p.vm_space, rss)
                == Some(0u64)
            &&& !rss.counts.contains_key(cr3) ==> score_of(p.vm_space, rss) is None
        }),
{
}

proof fn lemma_candidate_of(procs: Seq<Process>, n: int, rss: RssView, i: int) -> (k: int)
    requires
        0 <= i < n <= procs.len(),
        procs[i].eligible(),
    ensures
        0 <= k < candidates_of(procs, n, rss).len(),
        candidates_of(procs, n, rss)[k] == procs[i].scored(rss),
    decreases n,
{
    let before = candidates_of(procs, n - 1, rss);
    if i == n - 1 {
        before.len() as int
    } else {
        lemma_candidate_of(procs, n - 1, rss, i)
    }
}

/// The victim has the most resident pages of all that may be killed, and among equals the
/// highest number.
pub proof fn law_victim_has_the_most_pages(
    procs: Seq<Process>,
    rss: RssView,
    victim: u64,
    v: int,
    i: int,
)
    requires
        is_victim(candidates_of(procs, procs.len() as int, rss), Some(victim)),
        0 <= v < procs.len(),
        procs[v].pid == victim,
        forall|a: int, b: int|
            0 <= a < b < procs.len() ==> (#[trigger] procs[a]).pid != (#[trigger] procs[b]).pid,
        0 <= i < procs.len(),
        procs[i].pid > 1,
        procs[i].vm_space is Some,
        procs[i].state == ProcessState::Active,
        rss.counts.contains_key(procs[i].vm_space->0.cr3),
        rss.counts[procs[i].vm_space->0.cr3] > 0,
    ensures
        ({
            let at = procs[v].vm_space->0.cr3;
            let n = rss.counts[procs[i].vm_space->0.cr3];
            &&& procs[v].vm_space is Some
            &&& rss.counts.contains_key(at)
            &&& rss.counts[at] >= n
            &&& rss.counts[at] == n ==> procs[i].pid <= victim
        }),
{
    let cs = candidates_of(procs, procs.len() as int, rss);
    let k = lemma_candidate_of(procs, procs.len() as int, rss, i);
    assert(reclaimable(cs[k]));
    let c = choose|c: int| #[trigger] is_choice(cs, c) && cs[c].pid == victim;
    assert(is_choice(cs, c) && cs[c].pid == victim);
    let w = lemma_process_of(procs, procs.len() as int, rss, c);
    assert(procs[w].pid == victim);
    assert(w == v);
}

proof fn lemma_process_of(procs: Seq<Process>, n: int, rss: RssView, k: int) -> (i: int)
    requires
        0 <= n <= procs.len(),
        0 <= k < candidates_of(procs, n, rss).len(),
    ensures
        0 <= i < n,
        procs[i].eligible(),
        candidates_of(procs, n, rss)[k] == procs[i].scored(rss),
    decreases n,
{
    let before = candidates_of(procs, n - 1, rss);
    if n > 0 && k == before.len() {
        n - 1
    } else {
        lemma_process_of(procs, n - 1, rss, k)
    }
}

/// Somebody is killed wherever anybody that may be killed has a resident page.
pub proof fn law_somebody_is_killed(
    procs: Seq<Process>,
    rss: RssView,
    victim: Option<u64>,
    i: int,
)
    requires
        is_victim(candidates_of(procs, procs.len() as int, rss), victim),
        0 <= i < procs.len(),
        procs[i].pid > 1,
        procs[i].vm_space is Some,
        procs[i].state == ProcessState::Active,
        rss.counts.contains_key(procs[i].vm_space->0.cr3),
        rss.counts[procs[i].vm_space->0.cr3] > 0,
    ensures
        victim is Some,
{
    let cs = candidates_of(procs, procs.len() as int, rss);
    let k = lemma_candidate_of(procs, procs.len() as int, rss, i);
    assert(reclaimable(cs[k]));
}

/// A process with signals is left to end by itself, with the kill pending; one without has
/// ended, with the code of a kill.  It stays the same process.
pub proof fn law_kill_ends_the_process(p: Process)
    ensures
        ({
            let q = killed(p);
            &&& p.signal_state is Some ==> q.signal_state is Some && q.signal_state->0.kill_pending
                && q.state == p.state && q.exit_code == p.exit_code
            &&& p.signal_state is None ==> q.signal_state is None && q.state
                == ProcessState::Zombie && q.exit_code == -9
            &&& q.pid == p.pid
            &&& q.parent_pid == p.parent_pid
            &&& q.cr3 == p.cr3
            &&& q.vm_space == p.vm_space
        }),
{
}

/// The reserved pages are those of every area: one more area adds its pages, and the order
/// does not count.
pub proof fn law_mapped_pages_add_up(areas: Seq<VmArea>, more: Seq<VmArea>)
    ensures
        area_pages(areas + more, (areas + more).len() as int) == area_pages(
            areas,
            areas.len() as int,
        ) + area_pages(more, more.len() as int),
        more.len() == 1 ==> 4096 * area_pages(more, 1) <= more[0].length < 4096 * area_pages(
            more,
            1,
        ) + 4096,
    decreases more.len(),
{
    if more.len() == 0 {
        assert(areas + more =~= areas);
    } else {
        let init = more.drop_last();
        law_mapped_pages_add_up(areas, init);
        let all = areas + more;
        lemma_area_pages_prefix(all, areas + init, (areas + init).len() as int);
        lemma_area_pages_prefix(more, init, init.len() as int);
        if more.len() == 1 {
            reveal_with_fuel(area_pages, 2);
        }
    }
}

proof fn lemma_area_pages_prefix(a: Seq<VmArea>, b: Seq<VmArea>, n: int)
    requires
        0 <= n <= a.len(),
        n <= b.len(),
        forall|i: int| 0 <= i < n ==> a[i] == b[i],
    ensures
        area_pages(a, n) == area_pages(b, n),
    decreases n,
{
    if n > 0 {
        lemma_area_pages_prefix(a, b, n - 1);
    }
}

} // verus!
