//! The out-of-memory killer.
use astryx_kernel::mm::oom::{
    after_attempt, choose_victim, deliver_sigkill_oom, invoke_oom_killer, is_eligible,
    kill_after_attempt, lock_giveup_count, mapped_pages, mark_killed, oom_score, score_process,
    select_victim, Attempt, Candidate, Oom, PROCESS_TABLE_ACQUIRE_BOUND,
};
use astryx_kernel::mm::rss::{account, attach, RssTable};
use astryx_kernel::mm::vma::{InodePins, MmRegistry, VmArea, VmBacking, VmSpace, MAP_PRIVATE, PROT_READ};
use astryx_kernel::proc::{Process, ProcessState, SignalState};

fn process(reg: &mut MmRegistry, pid: u64, cr3: u64, pages: u64) -> Process {
    let mut pins = InodePins::new();
    let mut s = VmSpace::new_kernel(reg, cr3);
    let a = VmArea {
        base: 0x5000_0000,
        length: pages * 4096,
        prot: PROT_READ,
        flags: MAP_PRIVATE,
        backing: VmBacking::Anonymous,
        name: "[anon]",
    };
    assert!(s.insert_vma(reg, &mut pins, a).is_ok());
    Process {
        pid,
        parent_pid: 1,
        cr3,
        state: ProcessState::Active,
        vm_space: Some(s),
        signal_state: Some(SignalState { kill_pending: false }),
        exit_code: 0,
    }
}

#[test]
fn victim_holds_the_most_memory() {
    let c = |pid, score, mapped| Candidate { pid, score, mapped };
    assert_eq!(select_victim(&[]), None);
    assert_eq!(select_victim(&[c(5, Some(0), 99)]), None);
    assert_eq!(select_victim(&[c(5, None, 99)]), None);
    assert_eq!(select_victim(&[c(5, Some(10), 1), c(6, Some(11), 1)]), Some(6));
    assert_eq!(select_victim(&[c(6, Some(11), 1), c(5, Some(10), 1), c(7, None, 50)]), Some(6));
}

#[test]
fn reservations_do_not_count() {
    let mut reg = MmRegistry::new();
    let mut rss = RssTable::new();
    let a = process(&mut reg, 10, 0x5000, 1_000_000);
    let b = process(&mut reg, 11, 0x6000, 10);
    attach(&mut rss, 0x5000);
    attach(&mut rss, 0x6000);
    account(&mut rss, 0x5000, 3);
    account(&mut rss, 0x6000, 8);
    assert_eq!(oom_score(a.vm_space.as_ref(), &rss), Some(3));
    assert_eq!(mapped_pages(a.vm_space.as_ref()), 1_000_000);
    assert_eq!(oom_score(None, &rss), None);
    assert_eq!(mapped_pages(None), 0);
    let s = score_process(&b, &rss);
    assert_eq!((s.pid, s.score, s.mapped), (11, Some(8), 10));
    assert_eq!(choose_victim(&vec![a, b], &rss), Some(11));
}

#[test]
fn kernel_init_and_dead_processes_are_spared() {
    let mut reg = MmRegistry::new();
    let mut p = process(&mut reg, 10, 0x5000, 1);
    assert!(is_eligible(&p));
    p.pid = 0;
    assert!(!is_eligible(&p));
    p.pid = 1;
    assert!(!is_eligible(&p));
    p.pid = 10;
    p.state = ProcessState::Zombie;
    assert!(!is_eligible(&p));
}

#[test]
fn killer_waits_for_the_process_table_up_to_a_bound() {
    let mut reg = MmRegistry::new();
    let mut rss = RssTable::new();
    attach(&mut rss, 0x5000);
    account(&mut rss, 0x5000, 3);
    let procs = vec![process(&mut reg, 10, 0x5000, 5)];
    let mut oom = Oom::new();
    let lock = spin::Mutex::new(());
    assert!(matches!(
        invoke_oom_killer(&mut oom, false, &lock, 0, &procs, &rss),
        Attempt::Done(Some(10))
    ));
    assert_eq!(lock_giveup_count(&oom), 0);
    let held = lock.lock();
    assert!(matches!(
        invoke_oom_killer(&mut oom, false, &lock, 5, &procs, &rss),
        Attempt::Again(6)
    ));
    assert!(matches!(
        invoke_oom_killer(&mut oom, false, &lock, PROCESS_TABLE_ACQUIRE_BOUND - 1, &procs, &rss),
        Attempt::Done(None)
    ));
    assert_eq!(lock_giveup_count(&oom), 1);
    drop(held);
    // The caller holds the table itself: waiting would never end.
    assert!(matches!(
        invoke_oom_killer(&mut oom, true, &lock, 0, &procs, &rss),
        Attempt::Done(None)
    ));
    assert_eq!(lock_giveup_count(&oom), 2);
    let held = lock.lock();
    assert!(matches!(
        after_attempt(&mut oom, Some(&held), 7, &procs, &rss),
        Attempt::Done(Some(10))
    ));
    assert!(matches!(after_attempt(&mut oom, None, 7, &procs, &rss), Attempt::Again(8)));
}

#[test]
fn victim_and_only_the_victim_is_killed() {
    let mut reg = MmRegistry::new();
    let mut procs = vec![
        process(&mut reg, 10, 0x5000, 5),
        process(&mut reg, 11, 0x6000, 5),
    ];
    let mut oom = Oom::new();
    let lock = spin::Mutex::new(());
    let held = lock.lock();
    assert!(matches!(
        deliver_sigkill_oom(&mut oom, &lock, 0, &mut procs, 11),
        Attempt::Again(1)
    ));
    assert_eq!(procs[1].signal_state.unwrap().kill_pending, false);
    drop(held);
    assert!(matches!(
        deliver_sigkill_oom(&mut oom, &lock, 1, &mut procs, 11),
        Attempt::Done(())
    ));
    assert_eq!(procs[1].signal_state.unwrap().kill_pending, true);
    assert_eq!(procs[0].signal_state.unwrap().kill_pending, false);
    mark_killed(&mut procs, 99);
    assert_eq!(procs[0].signal_state.unwrap().kill_pending, false);
    // A process without signals ends at once.
    procs[0].signal_state = None;
    let held = lock.lock();
    assert!(matches!(
        kill_after_attempt(&mut oom, Some(&held), 0, &mut procs, 10),
        Attempt::Done(())
    ));
    assert_eq!(procs[0].state, ProcessState::Zombie);
    assert_eq!(procs[0].exit_code, -9);
}
