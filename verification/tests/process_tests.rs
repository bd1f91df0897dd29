use rcore_os::manager::{TaskInfo, TaskManager};
use rcore_os::process::{
    child_created, start_child, sys_exec, sys_fork, sys_get_time, sys_getpid, sys_sbrk, sys_set_priority,
    sys_spawn, sys_waitpid, AppTable, ChildInfo, TimeVal,
};

#[test]
fn waitpid_outcomes() {
    let mut cs: Vec<ChildInfo> = Vec::new();
    let mut ready = TaskManager::new();
    assert_eq!(sys_waitpid(&mut cs, -1), (-1, None));
    assert_eq!(sys_fork(&mut cs, &mut ready, TaskInfo { pid: 7, priority: 16, stride: 0 }), (7, 0));
    assert_eq!(ready.fetch().map(|t| t.pid), Some(7));
    assert_eq!(child_created(&mut cs, 8), 8);
    assert_eq!(sys_waitpid(&mut cs, 7), (-2, None));
    assert_eq!(sys_waitpid(&mut cs, 9), (-1, None));
    cs[1].zombie = true;
    cs[1].exit_code = -3;
    assert_eq!(sys_waitpid(&mut cs, 7), (-2, None));
    assert_eq!(sys_waitpid(&mut cs, -1), (8, Some(-3)));
    assert_eq!(cs.len(), 1);
    assert_eq!(sys_waitpid(&mut cs, 8), (-1, None));
    cs[0].zombie = true;
    assert_eq!(sys_waitpid(&mut cs, 7), (7, Some(0)));
    assert!(cs.is_empty());
}

#[test]
fn exec_and_spawn_look_programs_up_by_name() {
    let apps = AppTable { names: vec![b"initproc".to_vec(), b"user_shell".to_vec(), b"ch5_spawn0".to_vec()] };
    assert_eq!(sys_exec(&apps, b"user_shell"), Ok(1));
    assert_eq!(sys_exec(&apps, b"user"), Err(-1));
    assert_eq!(sys_spawn(&apps, b"ch5_spawn0"), Ok(2));
    assert_eq!(sys_spawn(&apps, b"ch5_spawn1"), Err(-1));
}

#[test]
fn set_priority_rejects_below_two() {
    let mut t = TaskInfo { pid: 3, priority: 16, stride: 0 };
    assert_eq!(sys_set_priority(&mut t, 1), -1);
    assert_eq!(sys_set_priority(&mut t, -5), -1);
    assert_eq!(t.priority, 16);
    assert_eq!(sys_set_priority(&mut t, 2), 2);
    assert_eq!(sys_set_priority(&mut t, 10), 10);
    assert_eq!(t, TaskInfo { pid: 3, priority: 10, stride: 0 });
    assert_eq!(sys_getpid(&t), 3);
}

#[test]
fn get_time_splits_microseconds() {
    assert_eq!(sys_get_time(3_250_017), TimeVal { sec: 3, usec: 250_017 });
    assert_eq!(sys_get_time(999_999), TimeVal { sec: 0, usec: 999_999 });
}

#[test]
fn sbrk_returns_old_break_or_fails() {
    assert_eq!(sys_sbrk(Some(0x4000)), 0x4000);
    assert_eq!(sys_sbrk(None), -1);
}

#[test]
fn start_child_records_and_queues_the_child() {
    let mut cs: Vec<ChildInfo> = Vec::new();
    let mut ready = TaskManager::new();
    let child = TaskInfo { pid: 12, priority: 16, stride: 0 };
    assert_eq!(start_child(&mut cs, &mut ready, child), 12);
    assert_eq!(cs, vec![ChildInfo { pid: 12, zombie: false, exit_code: 0 }]);
    let next = ready.fetch().unwrap();
    assert_eq!(sys_getpid(&next), 12);
    assert_eq!(sys_waitpid(&mut cs, 12), (-2, None));
}
