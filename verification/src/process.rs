//! Process calls: identity, children and waiting for them, program lookup
//! for `exec` / `spawn`, priority, time and the program break.
//!
//! Building address spaces and switching tasks belong to the surrounding
//! kernel; the functions here decide what the calls return and keep the
//! parent's list of children.

use crate::fs::name_eq;
use crate::manager::{TaskInfo, TaskManager};
use vstd::prelude::*;

verus! {

/// Microseconds in a second.
pub const MICROS_PER_SEC: usize = 1_000_000;

/// A time as whole seconds and the microseconds beyond them.
#[derive(Clone, Copy, PartialEq, Eq, Debug)]
pub struct TimeVal {
    pub sec: usize,
    pub usec: usize,
}

/// What a parent keeps of one child: its pid, whether it has exited and is
/// waiting to be reaped, and its exit code.
#[derive(Clone, Copy, PartialEq, Eq, Debug)]
pub struct ChildInfo {
    pub pid: usize,
    pub zombie: bool,
    pub exit_code: i32,
}

/// The names of the programs the kernel can load, in the order they are
/// linked in.
pub struct AppTable {
    pub names: Vec<Vec<u8>>,
}

/// The names of the loadable programs as plain sequences.
pub open spec fn app_names(apps: AppTable) -> Seq<Seq<u8>> {
    apps.names@.map_values(|n: Vec<u8>| n@)
}

/// `i` is the first program named `name`.
pub open spec fn first_app(names: Seq<Seq<u8>>, name: Seq<u8>, i: int) -> bool {
    &&& 0 <= i < names.len()
    &&& names[i] == name
    &&& forall|j: int| 0 <= j < i ==> #[trigger] names[j] != name
}

/// No program is named `name`.
pub open spec fn no_app(names: Seq<Seq<u8>>, name: Seq<u8>) -> bool {
    forall|j: int| 0 <= j < names.len() ==> #[trigger] names[j] != name
}

/// The index of the first program named `name`.
pub fn find_app(apps: &AppTable, name: &[u8]) -> (r: Option<usize>)
    ensures
        match r {
            Some(i) => first_app(app_names(*apps), name@, i as int),
            None => no_app(app_names(*apps), name@),
        },
{
    let mut i: usize = 0;
    while i < apps.names.len()
        invariant
            0 <= i <= apps.names@.len(),
            forall|j: int| 0 <= j < i ==> #[trigger] app_names(*apps)[j] != name@,
        decreases apps.names@.len() - i,
    {
        if name_eq(apps.names[i].as_slice(), name) {
            return Some(i);
        }
        i = i + 1;
    }
    None
}

/// `getpid()`: the calling task's pid.
pub fn sys_getpid(task: &TaskInfo) -> (r: isize)
    ensures
        r == task.pid as isize,
{
    task.pid as isize
}

/// Records a newly created child (running, exit code 0) at the end of the
/// parent's list and returns its pid, what `fork` and `spawn` return to the
/// parent.
pub fn child_created(children: &mut Vec<ChildInfo>, child_pid: usize) -> (r: isize)
    ensures
        r == child_pid as isize,
        final(children)@ == old(children)@.push(ChildInfo { pid: child_pid, zombie: false, exit_code: 0 }),
{
    children.push(ChildInfo { pid: child_pid, zombie: false, exit_code: 0 });
    child_pid as isize
}

/// No child of the parent has pid `pid`.
pub open spec fn pid_fresh(cs: Seq<ChildInfo>, pid: usize) -> bool {
    forall|j: int| 0 <= j < cs.len() ==> (#[trigger] cs[j]).pid != pid
}

/// Starts a child that `fork` or `spawn` has just created: records it
/// (running, exit code 0) at the end of the parent's children, puts it at
/// the back of the ready queue, and returns its pid, what the parent's call
/// returns, which is also what `getpid` gives in the child. A pid that no
/// child had keeps the children's pids distinct.
pub fn start_child(children: &mut Vec<ChildInfo>, ready: &mut TaskManager, child: TaskInfo) -> (r:
    isize)
    ensures
        r == child.pid as isize,
        final(children)@ == old(children)@.push(ChildInfo { pid: child.pid, zombie: false, exit_code: 0 }),
        final(ready)@ == old(ready)@.push(child),
        final(ready)@.last().pid as isize == r,
        pids_distinct(old(children)@) && pid_fresh(old(children)@, child.pid) ==> pids_distinct(
            final(children)@,
        ),
{
    let r = child_created(children, child.pid);
    ready.add(child);
    proof {
        let cs = old(children)@;
        let c = ChildInfo { pid: child.pid, zombie: false, exit_code: 0 };
        if pids_distinct(cs) && pid_fresh(cs, child.pid) {
            assert forall|a: int, b: int|
                0 <= a < cs.len() + 1 && 0 <= b < cs.len() + 1 && a != b implies #[trigger] cs.push(
                c,
            )[a].pid != #[trigger] cs.push(c)[b].pid by {
                if a < cs.len() && b < cs.len() {
                    assert(cs.push(c)[a] == cs[a] && cs.push(c)[b] == cs[b]);
                } else if a < cs.len() {
                    assert(cs.push(c)[a] == cs[a]);
                } else {
                    assert(cs.push(c)[b] == cs[b]);
                }
            }
        }
    }
    r
}

/// `fork()` once the copy of the caller exists as task `child`: the child
/// joins the parent's children and the back of the ready queue; the parent
/// gets the child's pid (first of the pair), the child 0. A pid that no child
/// had keeps the children's pids distinct.
pub fn sys_fork(children: &mut Vec<ChildInfo>, ready: &mut TaskManager, child: TaskInfo) -> (r: (
    isize,
    isize,
))
    ensures
        r == (child.pid as isize, 0isize),
        final(children)@ == old(children)@.push(ChildInfo { pid: child.pid, zombie: false, exit_code: 0 }),
        final(ready)@ == old(ready)@.push(child),
        pids_distinct(old(children)@) && pid_fresh(old(children)@, child.pid) ==> pids_distinct(
            final(children)@,
        ),
{
    let pid = start_child(children, ready, child);
    (pid, 0)
}

/// `exec(path)` up to loading: `Ok(i)` names the program to load in place of
/// the caller's, after which the call returns 0; `Err(-1)` when no program
/// is named `path`.
pub fn sys_exec(apps: &AppTable, path: &[u8]) -> (r: Result<usize, isize>)
    ensures
        match r {
            Ok(i) => first_app(app_names(*apps), path@, i as int),
            Err(e) => e == -1 && no_app(app_names(*apps), path@),
        },
{
    match find_app(apps, path) {
        Some(i) => Ok(i),
        None => Err(-1),
    }
}

/// `spawn(path)` up to creating the child: `Ok(i)` names the program that a
/// new child process runs (then `child_created` records it and gives the
/// pid to return); `Err(-1)` when no program is named `path`.
pub fn sys_spawn(apps: &AppTable, path: &[u8]) -> (r: Result<usize, isize>)
    ensures
        match r {
            Ok(i) => first_app(app_names(*apps), path@, i as int),
            Err(e) => e == -1 && no_app(app_names(*apps), path@),
        },
{
    match find_app(apps, path) {
        Some(i) => Ok(i),
        None => Err(-1),
    }
}

/// Child `c` is one that `waitpid(pid, ..)` asks for: any child for -1.
pub open spec fn wanted(c: ChildInfo, pid: isize) -> bool {
    pid == -1 || pid as usize == c.pid
}

/// Some child is one that `waitpid(pid, ..)` asks for.
pub open spec fn any_wanted(cs: Seq<ChildInfo>, pid: isize) -> bool {
    exists|i: int| 0 <= i < cs.len() && wanted(#[trigger] cs[i], pid)
}

/// `i` is the first exited child that `waitpid(pid, ..)` asks for.
pub open spec fn first_reapable(cs: Seq<ChildInfo>, pid: isize, i: int) -> bool {
    &&& 0 <= i < cs.len()
    &&& cs[i].zombie && wanted(cs[i], pid)
    &&& forall|j: int| 0 <= j < i ==> !(#[trigger] cs[j].zombie && wanted(cs[j], pid))
}

/// `waitpid(pid, exit_code_ptr)`: with no child that `pid` asks for (-1:
/// any), returns -1; with such children but none exited, -2; otherwise
/// reaps the first exited one: removes it from the list and returns its pid
/// with the exit code to store at `exit_code_ptr`.
pub fn sys_waitpid(children: &mut Vec<ChildInfo>, pid: isize) -> (r: (isize, Option<i32>))
    ensures
        !any_wanted(old(children)@, pid) ==> r == (-1isize, None::<i32>) && final(children)@
            == old(children)@,
        any_wanted(old(children)@, pid) ==> {
            ||| (exists|i: int|
                first_reapable(old(children)@, pid, i) && r == (
                    old(children)@[i].pid as isize,
                    Some(old(children)@[i].exit_code),
                ) && final(children)@ == old(children)@.remove(i))
            ||| ((forall|i: int|
                0 <= i < old(children)@.len() ==> !(#[trigger] old(children)@[i].zombie && wanted(
                    old(children)@[i],
                    pid,
                ))) && r == (-2isize, None::<i32>) && final(children)@ == old(children)@)
        },
        pids_distinct(old(children)@) ==> pids_distinct(final(children)@),
        pid == -1 ==> (r == (-1isize, None::<i32>) <==> old(children)@.len() == 0),
        pid == -1 && old(children)@.len() > 0 && (forall|j: int|
            0 <= j < old(children)@.len() ==> !(#[trigger] old(children)@[j]).zombie) ==> r == (
            -2isize,
            None::<i32>,
        ),
        pid >= 0 ==> (r == (-1isize, None::<i32>) <==> forall|j: int|
            0 <= j < old(children)@.len() ==> (#[trigger] old(children)@[j]).pid != pid as usize),
{
    let mut k: usize = 0;
    let mut any = false;
    while k < children.len()
        invariant
            0 <= k <= children@.len(),
            children@ == old(children)@,
            !any ==> forall|j: int| 0 <= j < k ==> !wanted(#[trigger] children@[j], pid),
            any ==> any_wanted(children@, pid),
        decreases children@.len() - k,
    {
        let c = children[k];
        if pid == -1 || pid as usize == c.pid {
            any = true;
            assert(wanted(children@[k as int], pid));
        }
        k = k + 1;
    }
    if !any {
        proof {
            if children@.len() > 0 {
                assert(!wanted(children@[0], pid));
            }
        }
        return (-1, None);
    }
    let mut i: usize = 0;
    while i < children.len()
        invariant
            0 <= i <= children@.len(),
            children@ == old(children)@,
            forall|j: int| 0 <= j < i ==> !(#[trigger] children@[j].zombie && wanted(children@[j], pid)),
        decreases children@.len() - i,
    {
        let c = children[i];
        if c.zombie && (pid == -1 || pid as usize == c.pid) {
            let child = children.remove(i);
            assert(first_reapable(old(children)@, pid, i as int));
            proof {
                let cs = old(children)@;
                if pids_distinct(cs) {
                    assert forall|a: int, b: int|
                        0 <= a < cs.len() - 1 && 0 <= b < cs.len() - 1 && a != b implies #[trigger] cs.remove(
                        i as int,
                    )[a].pid != #[trigger] cs.remove(i as int)[b].pid by {
                        let a1 = if a < i { a } else { a + 1 };
                        let b1 = if b < i { b } else { b + 1 };
                        assert(cs.remove(i as int)[a] == cs[a1]);
                        assert(cs.remove(i as int)[b] == cs[b1]);
                    }
                }
            }
            return (child.pid as isize, Some(child.exit_code));
        }
        i = i + 1;
    }
    (-2, None)
}

/// `get_time(ts, _)` for a clock reading of `us` microseconds: the time to
/// store at `ts`; the call returns 0.
pub fn sys_get_time(us: usize) -> (tv: TimeVal)
    ensures
        tv.sec == us / MICROS_PER_SEC,
        tv.usec == us % MICROS_PER_SEC,
        tv.sec * MICROS_PER_SEC + tv.usec == us,
{
    TimeVal { sec: us / MICROS_PER_SEC, usec: us % MICROS_PER_SEC }
}

/// `sbrk(size)` once the program break has been moved (giving the old
/// break) or could not be (`None`): the old break, or -1.
pub fn sys_sbrk(old_brk: Option<usize>) -> (r: isize)
    ensures
        r == match old_brk {
            Some(b) => b as isize,
            None => -1isize,
        },
{
    match old_brk {
        Some(b) => b as isize,
        None => -1,
    }
}

/// `set_priority(prio)`: a priority below 2 is refused with -1, the task
/// unchanged; otherwise it becomes the task's priority and is returned.
pub fn sys_set_priority(task: &mut TaskInfo, prio: isize) -> (r: isize)
    ensures
        prio < 2 ==> r == -1 && *final(task) == *old(task),
        prio >= 2 ==> r == prio && *final(task) == (TaskInfo { priority: prio, ..*old(task) }),
{
    if prio < 2 {
        return -1;
    }
    task.priority = prio;
    prio
}


/// Which children a wait asks for: `-1` asks for every child, exited or
/// not; any other pid asks for exactly the children with that pid. So
/// `waitpid(-1)` answers -1 only for a parent with no children at all.
pub proof fn lemma_wait_asks_for(cs: Seq<ChildInfo>, c: ChildInfo, pid: isize)
    ensures
        wanted(c, -1isize),
        pid >= 0 ==> (wanted(c, pid) <==> c.pid == pid as usize),
        any_wanted(cs, -1isize) <==> cs.len() > 0,
        first_reapable(cs, -1isize, 0) <==> cs.len() > 0 && cs[0].zombie,
{
    if cs.len() > 0 {
        assert(wanted(cs[0], -1isize));
    }
}

/// No two children share a pid.
pub open spec fn pids_distinct(cs: Seq<ChildInfo>) -> bool {
    forall|a: int, b: int| 0 <= a < cs.len() && 0 <= b < cs.len() && a != b ==> #[trigger] cs[a].pid
        != #[trigger] cs[b].pid
}

/// A child is reaped once: after `waitpid(pid, ..)` reaped the child with
/// that pid, the parent has no child left that `pid` asks for, so waiting
/// for it again returns -1.
pub proof fn lemma_reaped_child_gone(cs: Seq<ChildInfo>, pid: isize, i: int)
    requires
        pids_distinct(cs),
        pid != -1,
        first_reapable(cs, pid, i),
    ensures
        !any_wanted(cs.remove(i), pid),
{
    assert forall|k: int| 0 <= k < cs.remove(i).len() implies !wanted(#[trigger] cs.remove(i)[k], pid) by {
        let j = if k < i { k } else { k + 1 };
        assert(cs.remove(i)[k] == cs[j]);
    }
}

/// Waiting for an exited child by its pid, with the children's pids
/// distinct, reaps exactly that child (returning its pid and exit code), and
/// a second wait for the same pid returns -1.
pub proof fn lemma_reap_exited_child(cs: Seq<ChildInfo>, i: int)
    requires
        pids_distinct(cs),
        0 <= i < cs.len(),
        cs[i].zombie,
        cs[i].pid <= isize::MAX,
    ensures
        any_wanted(cs, cs[i].pid as isize),
        first_reapable(cs, cs[i].pid as isize, i),
        !any_wanted(cs.remove(i), cs[i].pid as isize),
{
    let pid = cs[i].pid as isize;
    assert(wanted(cs[i], pid));
    assert forall|j: int| 0 <= j < i implies !(#[trigger] cs[j].zombie && wanted(cs[j], pid)) by {
        assert(cs[j].pid != cs[i].pid);
    }
    lemma_reaped_child_gone(cs, pid, i);
}

/// A child that has just been forked and has not exited is not reaped:
/// `waitpid` on its pid returns -2 and keeps it.
pub proof fn lemma_wait_on_running_child(cs: Seq<ChildInfo>, child_pid: usize)
    requires
        child_pid <= isize::MAX,
        forall|j: int| 0 <= j < cs.len() ==> (#[trigger] cs[j]).pid != child_pid,
    ensures
        any_wanted(
            cs.push(ChildInfo { pid: child_pid, zombie: false, exit_code: 0 }),
            child_pid as isize,
        ),
        forall|i: int|
            0 <= i < cs.len() + 1 ==> !(#[trigger] cs.push(
                ChildInfo { pid: child_pid, zombie: false, exit_code: 0 },
            )[i].zombie && wanted(
                cs.push(ChildInfo { pid: child_pid, zombie: false, exit_code: 0 })[i],
                child_pid as isize,
            )),
{
    let c = ChildInfo { pid: child_pid, zombie: false, exit_code: 0 };
    assert(wanted(cs.push(c)[cs.len() as int], child_pid as isize));
    assert forall|i: int| 0 <= i < cs.len() + 1 implies !(#[trigger] cs.push(c)[i].zombie && wanted(
        cs.push(c)[i],
        child_pid as isize,
    )) by {
        if i < cs.len() {
            assert(cs.push(c)[i] == cs[i]);
        }
    }
}

} // verus!
