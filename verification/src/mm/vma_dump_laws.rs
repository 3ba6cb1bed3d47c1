//! Whose areas a dump lists.
use vstd::prelude::*;
use crate::mm::vma_dump::{find_pid, find_sharer, listed_areas, space_owner};
use crate::proc::Process;

verus! {

proof fn lemma_find_pid(procs: Seq<Process>, from: int, pid: u64, i: int)
    requires
        0 <= from <= i < procs.len(),
        procs[i].pid == pid,
        forall|j: int| from <= j < i ==> (#[trigger] procs[j]).pid != pid,
    ensures
        find_pid(procs, from, pid) == Some(i),
    decreases i - from,
{
    if from < i {
        lemma_find_pid(procs, from + 1, pid, i);
    }
}

proof fn lemma_find_sharer(procs: Seq<Process>, from: int, pid: u64, cr3: u64, i: int)
    requires
        0 <= from <= i < procs.len(),
        procs[i].pid == pid,
        procs[i].cr3 == cr3,
        cr3 != 0,
        forall|j: int|
            from <= j < i ==> (#[trigger] procs[j]).pid != pid || procs[j].cr3 != cr3,
    ensures
        find_sharer(procs, from, pid, cr3) == Some(i),
    decreases i - from,
{
    if from < i {
        lemma_find_sharer(procs, from + 1, pid, cr3, i);
    }
}

/// A process with an address space of its own has its own areas listed, up to 1024 of them.
pub proof fn law_own_areas_are_listed(procs: Seq<Process>, pid: u64, i: int)
    requires
        0 <= i < procs.len(),
        procs[i].pid == pid,
        forall|j: int| 0 <= j < i ==> (#[trigger] procs[j]).pid != pid,
        procs[i].vm_space is Some,
    ensures
        space_owner(procs, pid) == Some(i),
        ({
            let areas = procs[i].vm_space->0.areas@;
            let listed = listed_areas(procs, pid);
            &&& areas.len() <= 1024 ==> listed == areas
            &&& areas.len() > 1024 ==> listed == areas.subrange(0, 1024)
        }),
{
    lemma_find_pid(procs, 0, pid, i);
    let areas = procs[i].vm_space->0.areas@;
    if areas.len() > 1024 {
        assert(areas.take(1024) =~= areas.subrange(0, 1024));
    }
}

/// A process that runs in the address space of its parent has the parent's areas listed.
pub proof fn law_shared_areas_are_listed(procs: Seq<Process>, pid: u64, i: int, p: int)
    requires
        0 <= i < procs.len(),
        procs[i].pid == pid,
        forall|j: int| 0 <= j < i ==> (#[trigger] procs[j]).pid != pid,
        procs[i].vm_space is None,
        procs[i].cr3 != 0,
        0 <= p < procs.len(),
        procs[p].pid == procs[i].parent_pid,
        procs[p].cr3 == procs[i].cr3,
        forall|j: int| 0 <= j < p ==> (#[trigger] procs[j]).pid != procs[i].parent_pid,
        procs[p].vm_space is Some,
        procs[p].vm_space->0.areas@.len() <= 1024,
    ensures
        space_owner(procs, pid) == Some(p),
        listed_areas(procs, pid) == procs[p].vm_space->0.areas@,
{
    lemma_find_pid(procs, 0, pid, i);
    lemma_find_sharer(procs, 0, procs[i].parent_pid, procs[i].cr3, p);
}

/// A process that is not there, or that shares no address space, has no areas.
pub proof fn law_without_a_space_nothing_is_listed(procs: Seq<Process>, pid: u64)
    requires
        forall|j: int|
            0 <= j < procs.len() && (#[trigger] procs[j]).pid == pid ==> procs[j].vm_space is None
                && procs[j].cr3 == 0,
    ensures
        listed_areas(procs, pid).len() == 0,
{
    lemma_found(procs, 0, pid);
    if let Some(i) = find_pid(procs, 0, pid) {
        lemma_no_sharer(procs, 0, procs[i].parent_pid);
    }
}

proof fn lemma_found(procs: Seq<Process>, from: int, pid: u64)
    requires
        0 <= from <= procs.len(),
    ensures
        find_pid(procs, from, pid) matches Some(i) ==> 0 <= i < procs.len() && procs[i].pid == pid,
    decreases procs.len() - from,
{
    if from < procs.len() && procs[from].pid != pid {
        lemma_found(procs, from + 1, pid);
    }
}

proof fn lemma_no_sharer(procs: Seq<Process>, from: int, pid: u64)
    requires
        0 <= from <= procs.len(),
    ensures
        find_sharer(procs, from, pid, 0) is None,
    decreases procs.len() - from,
{
    if from < procs.len() {
        lemma_no_sharer(procs, from + 1, pid);
    }
}

} // verus!
