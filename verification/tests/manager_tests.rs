use rcore_os::manager::{TaskInfo, TaskManager, BIG_STRIDE};

#[test]
fn fetch_takes_least_pass_first_on_ties() {
    let mut m = TaskManager::new();
    assert_eq!(m.fetch(), None);
    m.add(TaskInfo { pid: 1, priority: 16, stride: 30 });
    m.add(TaskInfo { pid: 2, priority: 4, stride: 10 });
    m.add(TaskInfo { pid: 3, priority: 8, stride: 10 });
    assert_eq!(m.fetch(), Some(TaskInfo { pid: 2, priority: 4, stride: 10 + BIG_STRIDE / 4 }));
    assert_eq!(m.fetch(), Some(TaskInfo { pid: 3, priority: 8, stride: 10 + BIG_STRIDE / 8 }));
    assert_eq!(m.fetch(), Some(TaskInfo { pid: 1, priority: 16, stride: 30 + BIG_STRIDE / 16 }));
    assert_eq!(m.fetch(), None);
}

#[test]
fn low_priority_counts_as_two() {
    let mut m = TaskManager::new();
    m.add(TaskInfo { pid: 9, priority: 0, stride: 5 });
    assert_eq!(m.fetch(), Some(TaskInfo { pid: 9, priority: 0, stride: 5 + BIG_STRIDE / 2 }));
}

#[test]
fn higher_priority_runs_more_often() {
    let mut m = TaskManager::new();
    m.add(TaskInfo { pid: 1, priority: 2, stride: 0 });
    m.add(TaskInfo { pid: 2, priority: 8, stride: 0 });
    let mut runs = [0usize; 3];
    for _ in 0..50 {
        let t = m.fetch().unwrap();
        runs[t.pid] += 1;
        m.add(t);
    }
    assert!(runs[2] > 3 * runs[1]);
}
