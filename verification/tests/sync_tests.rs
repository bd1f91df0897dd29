use rcore_os::deadlock::{detect_sem_deadlock, really_blocked};
use rcore_os::sync::{
    mutex_locked, semaphore_acquired, sys_condvar_create, sys_condvar_signal, sys_condvar_wait,
    sys_enable_deadlock_detect, sys_mutex_create, sys_mutex_lock, sys_mutex_unlock,
    sys_semaphore_create, sys_semaphore_down, sys_semaphore_up, sys_sleep, DownStep, MutexKind,
    SyncState, DEADLOCK, NO_HOLDER,
};

#[test]
fn mutex_double_lock_is_refused_with_detection() {
    let mut st = SyncState::new();
    assert_eq!(sys_enable_deadlock_detect(&mut st, 1), 0);
    let mid = sys_mutex_create(&mut st, true) as usize;
    assert_eq!(sys_mutex_lock(&mut st, mid, 1), 0);
    assert_eq!(mutex_locked(&mut st, mid, 1), 0);
    assert_eq!(sys_mutex_lock(&mut st, mid, 1), DEADLOCK);
    assert_eq!(DEADLOCK, -0xdead);
    assert_eq!(sys_mutex_unlock(&mut st, mid), 0);
    assert_eq!(st.mutex_holders[mid], NO_HOLDER);
    assert_eq!(sys_mutex_lock(&mut st, mid, 1), 0);
}

#[test]
fn mutex_double_lock_proceeds_without_detection() {
    let mut st = SyncState::new();
    let mid = sys_mutex_create(&mut st, false) as usize;
    assert_eq!(st.mutex_list[mid], Some(MutexKind::Spin));
    assert_eq!(mutex_locked(&mut st, mid, 2), 0);
    assert_eq!(sys_mutex_lock(&mut st, mid, 2), 0);
    assert_eq!(sys_enable_deadlock_detect(&mut st, 0), 0);
    assert!(!st.deadlock_detect);
}

#[test]
fn create_reuses_first_free_slot() {
    let mut st = SyncState::new();
    assert_eq!(sys_mutex_create(&mut st, true), 0);
    assert_eq!(sys_mutex_create(&mut st, false), 1);
    assert_eq!(sys_mutex_create(&mut st, true), 2);
    st.mutex_list[1] = None;
    assert_eq!(sys_mutex_create(&mut st, true), 1);
    assert_eq!(st.mutex_list[1], Some(MutexKind::Blocking));
    assert_eq!(sys_semaphore_create(&mut st, 3), 0);
    assert_eq!(st.semaphore_list[0].as_ref().unwrap().count, 3);
    assert_eq!(sys_condvar_create(&mut st), 0);
    assert_eq!(sys_condvar_create(&mut st), 1);
}

#[test]
fn semaphore_cycle_is_refused() {
    let mut st = SyncState::new();
    sys_enable_deadlock_detect(&mut st, 1);
    for _ in 0..3 {
        sys_semaphore_create(&mut st, 1);
    }
    for t in 0..3usize {
        assert_eq!(sys_semaphore_down(&mut st, t, t), DownStep::Acquired);
    }
    assert_eq!(sys_semaphore_down(&mut st, 1, 0), DownStep::Blocked);
    assert_eq!(sys_semaphore_down(&mut st, 2, 1), DownStep::Blocked);
    assert_eq!(sys_semaphore_down(&mut st, 0, 2), DownStep::Deadlock);
    assert_eq!(st.sem_waiting[2], None);
    assert_eq!(st.semaphore_list[0].as_ref().unwrap().count, 0);
    assert_eq!(st.sem_alloc[2], vec![0, 0, 1]);
}

#[test]
fn semaphore_no_false_report_with_spare_units() {
    let mut st = SyncState::new();
    sys_enable_deadlock_detect(&mut st, 1);
    let a = sys_semaphore_create(&mut st, 2) as usize;
    let b = sys_semaphore_create(&mut st, 2) as usize;
    assert_eq!(sys_semaphore_down(&mut st, a, 0), DownStep::Acquired);
    assert_eq!(sys_semaphore_down(&mut st, b, 0), DownStep::Acquired);
    assert_eq!(sys_semaphore_down(&mut st, a, 1), DownStep::Acquired);
    assert_eq!(sys_semaphore_down(&mut st, a, 2), DownStep::Blocked);
    assert_eq!(sys_semaphore_down(&mut st, a, 3), DownStep::Blocked);
    assert_eq!(sys_semaphore_down(&mut st, b, 1), DownStep::Acquired);
    assert_eq!(sys_semaphore_up(&mut st, b, 0), None);
    assert_eq!(sys_semaphore_up(&mut st, a, 0), Some(2));
    assert_eq!(semaphore_acquired(&mut st, a, 2), 0);
    assert_eq!(st.sem_alloc[2], vec![1, 0]);
    assert_eq!(st.sem_waiting[2], None);
    assert_eq!(sys_semaphore_up(&mut st, a, 1), Some(3));
    assert_eq!(semaphore_acquired(&mut st, a, 3), 0);
    assert_eq!(st.semaphore_list[a].as_ref().unwrap().count, 0);
}

#[test]
fn semaphore_down_without_detection_just_blocks() {
    let mut st = SyncState::new();
    let s = sys_semaphore_create(&mut st, 0) as usize;
    assert_eq!(sys_semaphore_down(&mut st, s, 4), DownStep::Blocked);
    assert_eq!(st.semaphore_list[s].as_ref().unwrap().count, -1);
    assert_eq!(st.semaphore_list[s].as_ref().unwrap().wait_queue, vec![4]);
    assert!(st.sem_waiting.is_empty());
    assert_eq!(sys_semaphore_up(&mut st, s, 9), Some(4));
    assert_eq!(st.semaphore_list[s].as_ref().unwrap().count, 0);
}

#[test]
fn detection_finds_cycle_reachable_from_thread() {
    // thread 0 waits on sem 0 held by thread 1, which waits on sem 1 held by thread 2,
    // which waits on sem 2 held by thread 1: a cycle 1 -> 2 -> 1 reachable from 0.
    let alloc = vec![vec![0, 0, 0], vec![1, 0, 1], vec![0, 1, 0]];
    let waiting = vec![Some(0), Some(1), Some(2)];
    let avail = vec![-1isize, -1, -1];
    assert!(detect_sem_deadlock(&alloc, &waiting, &avail, 0, 0));
    assert!(really_blocked(&waiting, &avail, 1));
    // with a unit free on sem 2 thread 2 is not blocked: no cycle
    let avail2 = vec![-1isize, -1, 0];
    assert!(!really_blocked(&waiting, &avail2, 2));
    assert!(!detect_sem_deadlock(&alloc, &waiting, &avail2, 0, 0));
    // an out-of-range thread reaches nothing
    assert!(!detect_sem_deadlock(&alloc, &waiting, &avail, 5, 0));
    assert!(!really_blocked(&waiting, &avail, 5));
}

#[test]
fn condvar_signal_wakes_in_order() {
    let mut st = SyncState::new();
    let m = sys_mutex_create(&mut st, true) as usize;
    let c = sys_condvar_create(&mut st) as usize;
    assert_eq!(sys_condvar_signal(&mut st, c), None);
    assert_eq!(sys_condvar_wait(&mut st, c, m, 5), 0);
    assert_eq!(sys_condvar_wait(&mut st, c, m, 6), 0);
    assert_eq!(sys_condvar_signal(&mut st, c), Some(5));
    assert_eq!(sys_condvar_signal(&mut st, c), Some(6));
    assert_eq!(sys_condvar_signal(&mut st, c), None);
}

#[test]
fn sleep_expires_after_the_delay() {
    assert_eq!(sys_sleep(1000, 250), 1250);
}
