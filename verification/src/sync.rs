//! Mutexes, semaphores and condition variables of one process, as the
//! synchronisation system calls see them, with deadlock detection on
//! `mutex_lock` and `semaphore_down`.
//!
//! Blocking, waking and the spin or sleep of a mutex are the scheduler's: the
//! functions here decide, update the bookkeeping, and say which thread must
//! block or wake.

use crate::deadlock::{alloc_view, detect_sem_deadlock, wait_graph};
use crate::slots::{alloc_slot, fill_slot, first_free, pad};
use vstd::prelude::*;

verus! {

/// What `mutex_lock` and `semaphore_down` return when granting the request
/// would deadlock.
pub const DEADLOCK: isize = -0xDEAD;

/// "No thread" in the table of mutex holders.
pub const NO_HOLDER: usize = usize::MAX;

/// The two kinds of mutex a process can create.
#[derive(Clone, Copy, PartialEq, Eq, Debug)]
pub enum MutexKind {
    /// Waits by yielding the processor in a loop.
    Spin,
    /// Waits by sleeping in the mutex's queue.
    Blocking,
}

/// A counting semaphore: its count (negative: that many threads wait) and
/// the threads waiting on it, first to wake first.
pub struct Semaphore {
    pub count: isize,
    pub wait_queue: Vec<usize>,
}

/// A condition variable: the threads waiting on it, first to wake first.
pub struct Condvar {
    pub wait_queue: Vec<usize>,
}

/// The synchronisation objects of one process and what deadlock detection
/// keeps of them. Ids index the lists; a `None` slot is free for reuse.
pub struct SyncState {
    pub mutex_list: Vec<Option<MutexKind>>,
    /// For each mutex id, the thread that last acquired it, or `NO_HOLDER`.
    pub mutex_holders: Vec<usize>,
    pub semaphore_list: Vec<Option<Semaphore>>,
    pub condvar_list: Vec<Option<Condvar>>,
    /// `sem_alloc[t][s]`: units of semaphore `s` that thread `t` holds.
    pub sem_alloc: Vec<Vec<usize>>,
    /// `sem_waiting[t]`: the semaphore thread `t` is waiting on.
    pub sem_waiting: Vec<Option<usize>>,
    pub deadlock_detect: bool,
}

impl SyncState {
    /// A process with no synchronisation objects and detection off.
    pub fn new() -> (st: SyncState)
        ensures
            st.mutex_list@.len() == 0,
            st.mutex_holders@.len() == 0,
            st.semaphore_list@.len() == 0,
            st.condvar_list@.len() == 0,
            st.sem_alloc@.len() == 0,
            st.sem_waiting@.len() == 0,
            !st.deadlock_detect,
    {
        SyncState {
            mutex_list: Vec::new(),
            mutex_holders: Vec::new(),
            semaphore_list: Vec::new(),
            condvar_list: Vec::new(),
            sem_alloc: Vec::new(),
            sem_waiting: Vec::new(),
            deadlock_detect: false,
        }
    }
}

/// `mutex_create(blocking)`: creates a spin mutex, or a blocking one when
/// `blocking`, in the first free mutex slot and returns its id.
pub fn sys_mutex_create(st: &mut SyncState, blocking: bool) -> (r: isize)
    requires
        old(st).mutex_list@.len() < isize::MAX,
    ensures
        0 <= r,
        first_free(old(st).mutex_list@, r as int),
        final(st).mutex_list@ == fill_slot(
            old(st).mutex_list@,
            r as int,
            if blocking {
                MutexKind::Blocking
            } else {
                MutexKind::Spin
            },
        ),
        final(st).mutex_holders == old(st).mutex_holders,
        final(st).semaphore_list == old(st).semaphore_list,
        final(st).condvar_list == old(st).condvar_list,
        final(st).sem_alloc == old(st).sem_alloc,
        final(st).sem_waiting == old(st).sem_waiting,
        final(st).deadlock_detect == old(st).deadlock_detect,
{
    let kind = if !blocking {
        MutexKind::Spin
    } else {
        MutexKind::Blocking
    };
    let id = alloc_slot(&mut st.mutex_list, kind);
    id as isize
}

/// Lengthens the holder table with `NO_HOLDER` until `mutex_id` indexes it.
fn pad_holders(holders: &mut Vec<usize>, mutex_id: usize)
    ensures
        final(holders)@ == pad(old(holders)@, mutex_id + 1, NO_HOLDER),
{
    let ghost h0 = holders@;
    while holders.len() <= mutex_id
        invariant
            h0.len() <= holders@.len() <= mutex_id + 1 || holders@ == h0,
            holders@ == pad(h0, holders@.len() as int, NO_HOLDER),
        decreases mutex_id + 1 - holders@.len(),
    {
        holders.push(NO_HOLDER);
        assert(holders@ =~= pad(h0, holders@.len() as int, NO_HOLDER));
    }
    assert(holders@ =~= pad(h0, mutex_id + 1, NO_HOLDER));
}

/// The holder of mutex `id` as the padded holder table records it.
pub open spec fn holder(holders: Seq<usize>, id: int) -> usize {
    if 0 <= id < holders.len() {
        holders[id]
    } else {
        NO_HOLDER
    }
}

/// `mutex_lock(mutex_id)` by thread `tid`, up to the point where the mutex
/// itself is taken: with detection on, a thread that already holds the mutex
/// is refused with `DEADLOCK`; otherwise 0 says to go on and lock it (and then
/// report it with `mutex_locked`). The holder table is padded to cover
/// `mutex_id` either way.
pub fn sys_mutex_lock(st: &mut SyncState, mutex_id: usize, tid: usize) -> (r: isize)
    requires
        mutex_id < old(st).mutex_list@.len(),
        old(st).mutex_list@[mutex_id as int] is Some,
    ensures
        r == DEADLOCK || r == 0,
        r == DEADLOCK <==> old(st).deadlock_detect && holder(
            old(st).mutex_holders@,
            mutex_id as int,
        ) == tid,
        final(st).mutex_holders@ == pad(old(st).mutex_holders@, mutex_id + 1, NO_HOLDER),
        final(st).mutex_list == old(st).mutex_list,
        final(st).semaphore_list == old(st).semaphore_list,
        final(st).condvar_list == old(st).condvar_list,
        final(st).sem_alloc == old(st).sem_alloc,
        final(st).sem_waiting == old(st).sem_waiting,
        final(st).deadlock_detect == old(st).deadlock_detect,
        mutex_id >= old(st).mutex_holders@.len() && tid != NO_HOLDER ==> r == 0,
        mutex_id < old(st).mutex_holders@.len() ==> (r == DEADLOCK <==> old(st).deadlock_detect
            && old(st).mutex_holders@[mutex_id as int] == tid),
        !old(st).deadlock_detect ==> r == 0,
{
    pad_holders(&mut st.mutex_holders, mutex_id);
    if st.deadlock_detect && st.mutex_holders[mutex_id] == tid {
        return DEADLOCK;
    }
    0
}

/// Records, once thread `tid` has taken mutex `mutex_id`, that it holds it;
/// returns 0, what `mutex_lock` returns on success.
pub fn mutex_locked(st: &mut SyncState, mutex_id: usize, tid: usize) -> (r: isize)
    ensures
        r == 0,
        final(st).mutex_holders@ == pad(old(st).mutex_holders@, mutex_id + 1, NO_HOLDER).update(
            mutex_id as int,
            tid,
        ),
        final(st).mutex_list == old(st).mutex_list,
        final(st).semaphore_list == old(st).semaphore_list,
        final(st).condvar_list == old(st).condvar_list,
        final(st).sem_alloc == old(st).sem_alloc,
        final(st).sem_waiting == old(st).sem_waiting,
        final(st).deadlock_detect == old(st).deadlock_detect,
{
    pad_holders(&mut st.mutex_holders, mutex_id);
    st.mutex_holders[mutex_id] = tid;
    0
}

/// `mutex_unlock(mutex_id)`: forgets the mutex's holder and returns 0; the
/// mutex itself is then released.
pub fn sys_mutex_unlock(st: &mut SyncState, mutex_id: usize) -> (r: isize)
    requires
        mutex_id < old(st).mutex_list@.len(),
        old(st).mutex_list@[mutex_id as int] is Some,
    ensures
        r == 0,
        final(st).mutex_holders@ == if mutex_id < old(st).mutex_holders@.len() {
            old(st).mutex_holders@.update(mutex_id as int, NO_HOLDER)
        } else {
            old(st).mutex_holders@
        },
        final(st).mutex_list == old(st).mutex_list,
        final(st).semaphore_list == old(st).semaphore_list,
        final(st).condvar_list == old(st).condvar_list,
        final(st).sem_alloc == old(st).sem_alloc,
        final(st).sem_waiting == old(st).sem_waiting,
        final(st).deadlock_detect == old(st).deadlock_detect,
{
    if mutex_id < st.mutex_holders.len() {
        st.mutex_holders[mutex_id] = NO_HOLDER;
    }
    0
}

/// `sleep(ms)` at time `now_ms`: the time at which the caller's timer
/// expires and it wakes; the call returns 0 once it has.
pub fn sys_sleep(now_ms: usize, ms: usize) -> (expire_ms: usize)
    requires
        now_ms + ms <= usize::MAX,
    ensures
        expire_ms == now_ms + ms,
{
    now_ms + ms
}

/// `enable_deadlock_detect(enabled)`: turns detection on for a non-zero
/// argument, off for 0; returns 0.
pub fn sys_enable_deadlock_detect(st: &mut SyncState, enabled: usize) -> (r: isize)
    ensures
        r == 0,
        final(st).deadlock_detect == (enabled != 0),
        final(st).mutex_list == old(st).mutex_list,
        final(st).mutex_holders == old(st).mutex_holders,
        final(st).semaphore_list == old(st).semaphore_list,
        final(st).condvar_list == old(st).condvar_list,
        final(st).sem_alloc == old(st).sem_alloc,
        final(st).sem_waiting == old(st).sem_waiting,
{
    st.deadlock_detect = enabled != 0;
    0
}


/// The count of semaphore slot `i`, 0 for a free slot.
pub open spec fn sem_count(sems: Seq<Option<Semaphore>>, i: int) -> isize {
    match sems[i] {
        Some(s) => s.count,
        None => 0,
    }
}

/// The count of semaphore `sem_id` and its queue of waiting threads.
pub open spec fn sem_state(st: SyncState, sem_id: int) -> (isize, Seq<usize>) {
    let s = st.semaphore_list@[sem_id].unwrap();
    (s.count, s.wait_queue@)
}

/// A semaphore's count and queue after one `semaphore_down` by `tid` that is
/// not refused: one unit fewer, and `tid` at the back of the queue when no
/// unit was left for it.
pub open spec fn after_down(s: (isize, Seq<usize>), tid: usize) -> (isize, Seq<usize>) {
    (
        (s.0 - 1) as isize,
        if s.0 - 1 < 0 {
            s.1.push(tid)
        } else {
            s.1
        },
    )
}

/// Whether a `semaphore_up` on a semaphore in state `s` wakes a thread: one
/// is still short of a unit after the count rises, and one is queued.
pub open spec fn up_wakes(s: (isize, Seq<usize>)) -> bool {
    s.0 + 1 <= 0 && s.1.len() > 0
}

/// A semaphore's count and queue after one `semaphore_up`: one unit more,
/// and the front of the queue gone when a thread is woken.
pub open spec fn after_up(s: (isize, Seq<usize>)) -> (isize, Seq<usize>) {
    (
        (s.0 + 1) as isize,
        if up_wakes(s) {
            s.1.subrange(1, s.1.len() as int)
        } else {
            s.1
        },
    )
}

/// The thread that a `semaphore_up` on a semaphore in state `s` wakes: the
/// front of the queue.
pub open spec fn woken_by_up(s: (isize, Seq<usize>)) -> Option<usize> {
    if up_wakes(s) {
        Some(s.1[0])
    } else {
        None
    }
}

/// The semaphore slots other than `i` are the same in `a` and `b`.
pub open spec fn other_sems_same(a: Seq<Option<Semaphore>>, b: Seq<Option<Semaphore>>, i: int) -> bool {
    &&& a.len() == b.len()
    &&& forall|j: int| 0 <= j < a.len() && j != i ==> #[trigger] b[j] == a[j]
}

/// The counts that deadlock detection works on when a thread asks for one
/// unit of `sem_id`: every semaphore's count, free slots as 0, and the
/// requested one less by one.
pub open spec fn avail_after(sems: Seq<Option<Semaphore>>, sem_id: int) -> Seq<isize> {
    Seq::new(
        sems.len(),
        |i: int|
            if i == sem_id {
                (sem_count(sems, i) - 1) as isize
            } else {
                sem_count(sems, i)
            },
    )
}

/// The waiting table with thread `tid` recorded as waiting on `sem_id`.
pub open spec fn waiting_on(waiting: Seq<Option<usize>>, tid: int, sem_id: usize) -> Seq<
    Option<usize>,
> {
    pad(waiting, tid + 1, None).update(tid, Some(sem_id))
}

/// Whether `semaphore_down(sem_id)` by `tid` is refused: detection is on,
/// the semaphore has no unit left, and with `tid` waiting on it a cycle of
/// waiting threads can be reached from `tid`.
pub open spec fn would_deadlock(st: SyncState, sem_id: int, tid: int) -> bool {
    &&& st.deadlock_detect
    &&& sem_count(st.semaphore_list@, sem_id) <= 0
    &&& wait_graph(
        st.sem_alloc@,
        waiting_on(st.sem_waiting@, tid, sem_id as usize),
        avail_after(st.semaphore_list@, sem_id),
    ).reaches_cycle(tid)
}

/// The units held once `tid` has been granted one unit of `sem_id`, its row
/// first lengthened with zeros to cover the `nsem` semaphore slots.
pub open spec fn granted(a: Seq<Seq<usize>>, tid: int, sem_id: int, nsem: int) -> Seq<Seq<usize>> {
    let a1 = pad(a, tid + 1, Seq::<usize>::empty());
    let row = pad(a1[tid], nsem, 0usize);
    a1.update(tid, row.update(sem_id, (row[sem_id] + 1) as usize))
}

/// Units of `sem_id` that `tid` holds, 0 where the table has no entry.
pub open spec fn held(a: Seq<Seq<usize>>, tid: int, sem_id: int) -> int {
    if 0 <= tid < a.len() && 0 <= sem_id < a[tid].len() {
        a[tid][sem_id] as int
    } else {
        0
    }
}

/// The units held once `tid` has given back one unit of `sem_id`, if the
/// table records one.
pub open spec fn released(a: Seq<Seq<usize>>, tid: int, sem_id: int) -> Seq<Seq<usize>> {
    if held(a, tid, sem_id) > 0 {
        a.update(tid, a[tid].update(sem_id, (held(a, tid, sem_id) - 1) as usize))
    } else {
        a
    }
}

/// `semaphore_create(res_count)`: creates a semaphore with `res_count` units
/// in the first free semaphore slot and returns its id.
pub fn sys_semaphore_create(st: &mut SyncState, res_count: usize) -> (r: isize)
    requires
        old(st).semaphore_list@.len() < isize::MAX,
    ensures
        0 <= r,
        first_free(old(st).semaphore_list@, r as int),
        final(st).semaphore_list@.len() == if r < old(st).semaphore_list@.len() {
            old(st).semaphore_list@.len()
        } else {
            old(st).semaphore_list@.len() + 1
        },
        forall|j: int|
            0 <= j < old(st).semaphore_list@.len() && j != r ==> #[trigger] final(st).semaphore_list@[j]
                == old(st).semaphore_list@[j],
        final(st).semaphore_list@[r as int] is Some,
        sem_state(*final(st), r as int) == (res_count as isize, Seq::<usize>::empty()),
        final(st).mutex_list == old(st).mutex_list,
        final(st).mutex_holders == old(st).mutex_holders,
        final(st).condvar_list == old(st).condvar_list,
        final(st).sem_alloc == old(st).sem_alloc,
        final(st).sem_waiting == old(st).sem_waiting,
        final(st).deadlock_detect == old(st).deadlock_detect,
{
    let sem = Semaphore { count: res_count as isize, wait_queue: Vec::new() };
    let id = alloc_slot(&mut st.semaphore_list, sem);
    id as isize
}

/// `semaphore_up(sem_id)` by thread `tid`: gives back one unit that `tid`
/// holds in the table (if it holds one) and adds one to the count; when
/// threads are still short of a unit after that, the first waiting thread is
/// taken off the queue and returned, to be woken. The call itself returns 0.
pub fn sys_semaphore_up(st: &mut SyncState, sem_id: usize, tid: usize) -> (woken: Option<usize>)
    requires
        sem_id < old(st).semaphore_list@.len(),
        old(st).semaphore_list@[sem_id as int] is Some,
        sem_state(*old(st), sem_id as int).0 < isize::MAX,
    ensures
        final(st).semaphore_list@[sem_id as int] is Some,
        sem_state(*final(st), sem_id as int) == after_up(sem_state(*old(st), sem_id as int)),
        woken == woken_by_up(sem_state(*old(st), sem_id as int)),
        other_sems_same(old(st).semaphore_list@, final(st).semaphore_list@, sem_id as int),
        alloc_view(final(st).sem_alloc@) == released(
            alloc_view(old(st).sem_alloc@),
            tid as int,
            sem_id as int,
        ),
        final(st).mutex_list == old(st).mutex_list,
        final(st).mutex_holders == old(st).mutex_holders,
        final(st).condvar_list == old(st).condvar_list,
        final(st).sem_waiting == old(st).sem_waiting,
        final(st).deadlock_detect == old(st).deadlock_detect,
{
    if tid < st.sem_alloc.len() && sem_id < st.sem_alloc[tid].len() {
        if st.sem_alloc[tid][sem_id] > 0 {
            let mut row: Vec<usize> = Vec::new();
            std::mem::swap(&mut row, &mut st.sem_alloc[tid]);
            row[sem_id] = row[sem_id] - 1;
            st.sem_alloc[tid] = row;
            assert(alloc_view(st.sem_alloc@) =~= released(
                alloc_view(old(st).sem_alloc@),
                tid as int,
                sem_id as int,
            ));
        }
    }
    let mut sem = st.semaphore_list[sem_id].take().unwrap();
    sem.count = sem.count + 1;
    let mut woken: Option<usize> = None;
    if sem.count <= 0 {
        if sem.wait_queue.len() > 0 {
            woken = Some(sem.wait_queue.remove(0));
        }
    }
    st.semaphore_list[sem_id] = Some(sem);
    proof {
        let q = sem_state(*old(st), sem_id as int).1;
        if woken is Some {
            assert(sem_state(*st, sem_id as int).1 =~= q.subrange(1, q.len() as int));
        }
        assert(other_sems_same(old(st).semaphore_list@, st.semaphore_list@, sem_id as int));
    }
    woken
}


/// How a `semaphore_down` request ends for now.
#[derive(Clone, Copy, PartialEq, Eq, Debug)]
pub enum DownStep {
    /// Refused: the call returns `DEADLOCK` and the thread goes on.
    Deadlock,
    /// A unit was free and is now the thread's: the call returns 0.
    Acquired,
    /// No unit is free: the thread sleeps in the semaphore's queue, and
    /// `semaphore_acquired` records the unit once it is woken.
    Blocked,
}

/// Lengthens the waiting table with `None` until `tid` indexes it.
fn pad_waiting(waiting: &mut Vec<Option<usize>>, tid: usize)
    ensures
        final(waiting)@ == pad(old(waiting)@, tid + 1, None),
{
    let ghost w0 = waiting@;
    while waiting.len() <= tid
        invariant
            w0.len() <= waiting@.len() <= tid + 1 || waiting@ == w0,
            waiting@ == pad(w0, waiting@.len() as int, None),
        decreases tid + 1 - waiting@.len(),
    {
        waiting.push(None);
        assert(waiting@ =~= pad(w0, waiting@.len() as int, None));
    }
    assert(waiting@ =~= pad(w0, tid + 1, None));
}

/// Records that `tid` now holds one more unit of `sem_id`, and that it waits
/// on nothing.
fn note_granted(st: &mut SyncState, sem_id: usize, tid: usize)
    requires
        sem_id < old(st).semaphore_list@.len(),
        held(alloc_view(old(st).sem_alloc@), tid as int, sem_id as int) < usize::MAX,
    ensures
        alloc_view(final(st).sem_alloc@) == granted(
            alloc_view(old(st).sem_alloc@),
            tid as int,
            sem_id as int,
            old(st).semaphore_list@.len() as int,
        ),
        final(st).sem_waiting@ == if tid < old(st).sem_waiting@.len() {
            old(st).sem_waiting@.update(tid as int, None)
        } else {
            old(st).sem_waiting@
        },
        final(st).semaphore_list == old(st).semaphore_list,
        final(st).mutex_list == old(st).mutex_list,
        final(st).mutex_holders == old(st).mutex_holders,
        final(st).condvar_list == old(st).condvar_list,
        final(st).deadlock_detect == old(st).deadlock_detect,
{
    let ghost a0 = alloc_view(st.sem_alloc@);
    while st.sem_alloc.len() <= tid
        invariant
            a0.len() <= st.sem_alloc@.len() <= tid + 1 || alloc_view(st.sem_alloc@) == a0,
            alloc_view(st.sem_alloc@) == pad(
                a0,
                st.sem_alloc@.len() as int,
                Seq::<usize>::empty(),
            ),
            st.semaphore_list == old(st).semaphore_list,
            st.sem_waiting == old(st).sem_waiting,
            st.mutex_list == old(st).mutex_list,
            st.mutex_holders == old(st).mutex_holders,
            st.condvar_list == old(st).condvar_list,
            st.deadlock_detect == old(st).deadlock_detect,
        decreases tid + 1 - st.sem_alloc@.len(),
    {
        let empty: Vec<usize> = Vec::new();
        let ghost prev = st.sem_alloc@;
        st.sem_alloc.push(empty);
        assert forall|i: int| 0 <= i < prev.len() implies alloc_view(st.sem_alloc@)[i] == alloc_view(prev)[i] by {
            assert(st.sem_alloc@[i] == prev[i]);
        }
        assert(alloc_view(st.sem_alloc@)[st.sem_alloc@.len() - 1] == Seq::<usize>::empty());
        let ghost n = st.sem_alloc@.len() as int;
        assert(a0.len() <= prev.len());
        assert forall|i: int| 0 <= i < n implies alloc_view(st.sem_alloc@)[i] == pad(a0, n, Seq::<usize>::empty())[i] by {
            if i < prev.len() {
                assert(alloc_view(prev)[i] == pad(a0, prev.len() as int, Seq::<usize>::empty())[i]);
            }
        }
        assert(alloc_view(st.sem_alloc@) =~= pad(
            a0,
            st.sem_alloc@.len() as int,
            Seq::<usize>::empty(),
        ));
    }
    let ghost a1 = alloc_view(st.sem_alloc@);
    assert(a1 =~= pad(a0, tid + 1, Seq::<usize>::empty()));
    let nsem = st.semaphore_list.len();
    let mut row: Vec<usize> = Vec::new();
    std::mem::swap(&mut row, &mut st.sem_alloc[tid]);
    let ghost r0 = row@;
    assert(r0 == a1[tid as int]);
    while row.len() < nsem
        invariant
            r0.len() <= row@.len() <= nsem || row@ == r0,
            row@ == pad(r0, row@.len() as int, 0usize),
        decreases nsem - row@.len(),
    {
        row.push(0);
        assert(row@ =~= pad(r0, row@.len() as int, 0usize));
    }
    assert(row@ =~= pad(r0, nsem as int, 0usize));
    assert(row@[sem_id as int] == held(a0, tid as int, sem_id as int)) by {
        if tid < a0.len() {
            assert(a1[tid as int] == a0[tid as int]);
        }
    }
    row[sem_id] = row[sem_id] + 1;
    st.sem_alloc[tid] = row;
    assert(alloc_view(st.sem_alloc@) =~= granted(a0, tid as int, sem_id as int, nsem as int));
    if tid < st.sem_waiting.len() {
        st.sem_waiting[tid] = None;
    }
}

/// `semaphore_down(sem_id)` by thread `tid`, up to the point where the thread
/// would sleep. With detection on and no unit left, `tid` is first recorded
/// as waiting on `sem_id` and the request refused with `Deadlock` (the record
/// cleared again) when that leaves a cycle of waiting threads reachable from
/// `tid`. Otherwise the count drops by one: if a unit was free, `tid` is
/// granted it (`Acquired`); if not, `tid` joins the queue (`Blocked`).
pub fn sys_semaphore_down(st: &mut SyncState, sem_id: usize, tid: usize) -> (step: DownStep)
    requires
        sem_id < old(st).semaphore_list@.len(),
        old(st).semaphore_list@[sem_id as int] is Some,
        sem_state(*old(st), sem_id as int).0 > isize::MIN,
        held(alloc_view(old(st).sem_alloc@), tid as int, sem_id as int) < usize::MAX,
    ensures
        (step == DownStep::Deadlock) == would_deadlock(*old(st), sem_id as int, tid as int),
        step == DownStep::Deadlock ==> {
            &&& final(st).sem_waiting@ == pad(old(st).sem_waiting@, tid + 1, None).update(
                tid as int,
                None,
            )
            &&& final(st).semaphore_list == old(st).semaphore_list
            &&& final(st).sem_alloc == old(st).sem_alloc
        },
        step != DownStep::Deadlock ==> ({
            let (c, q) = sem_state(*old(st), sem_id as int);
            let w1 = if old(st).deadlock_detect && c <= 0 {
                waiting_on(old(st).sem_waiting@, tid as int, sem_id)
            } else {
                old(st).sem_waiting@
            };
            &&& (step == DownStep::Blocked) == (c - 1 < 0)
            &&& final(st).semaphore_list@[sem_id as int] is Some
            &&& other_sems_same(old(st).semaphore_list@, final(st).semaphore_list@, sem_id as int)
            &&& sem_state(*final(st), sem_id as int) == after_down(
                sem_state(*old(st), sem_id as int),
                tid,
            )
            &&& step == DownStep::Blocked ==> final(st).sem_waiting@ == w1 && final(st).sem_alloc
                == old(st).sem_alloc
            &&& step == DownStep::Acquired ==> final(st).sem_waiting@ == (if tid < w1.len() {
                w1.update(tid as int, None)
            } else {
                w1
            }) && alloc_view(final(st).sem_alloc@) == granted(
                alloc_view(old(st).sem_alloc@),
                tid as int,
                sem_id as int,
                old(st).semaphore_list@.len() as int,
            )
        }),
        final(st).mutex_list == old(st).mutex_list,
        final(st).mutex_holders == old(st).mutex_holders,
        final(st).condvar_list == old(st).condvar_list,
        final(st).deadlock_detect == old(st).deadlock_detect,
{
    let ghost st0 = *st;
    if st.deadlock_detect {
        let cnt = match &st.semaphore_list[sem_id] {
            Some(s) => s.count,
            None => 0,
        };
        if cnt <= 0 {
            let nsem = st.semaphore_list.len();
            let mut avail: Vec<isize> = Vec::with_capacity(nsem);
            let mut i: usize = 0;
            while i < nsem
                invariant
                    0 <= i <= nsem,
                    nsem == st.semaphore_list@.len(),
                    avail@.len() == i,
                    forall|j: int| 0 <= j < i ==> #[trigger] avail@[j] == sem_count(st.semaphore_list@, j),
                decreases nsem - i,
            {
                match &st.semaphore_list[i] {
                    Some(s) => avail.push(s.count),
                    None => avail.push(0),
                }
                i = i + 1;
            }
            avail[sem_id] = avail[sem_id] - 1;
            assert(avail@ =~= avail_after(st.semaphore_list@, sem_id as int));
            pad_waiting(&mut st.sem_waiting, tid);
            st.sem_waiting[tid] = Some(sem_id);
            assert(st.sem_waiting@ =~= waiting_on(st0.sem_waiting@, tid as int, sem_id));
            if detect_sem_deadlock(st.sem_alloc.as_slice(), st.sem_waiting.as_slice(), avail.as_slice(), tid, sem_id) {
                st.sem_waiting[tid] = None;
                return DownStep::Deadlock;
            }
        }
    }
    let mut sem = st.semaphore_list[sem_id].take().unwrap();
    sem.count = sem.count - 1;
    let blocked = sem.count < 0;
    if blocked {
        sem.wait_queue.push(tid);
    }
    st.semaphore_list[sem_id] = Some(sem);
    assert(other_sems_same(st0.semaphore_list@, st.semaphore_list@, sem_id as int));
    if blocked {
        return DownStep::Blocked;
    }
    note_granted(st, sem_id, tid);
    DownStep::Acquired
}

/// Records, once thread `tid` wakes from waiting on `sem_id`, that it holds
/// the unit it waited for and waits on nothing; returns 0, what
/// `semaphore_down` returns on success.
pub fn semaphore_acquired(st: &mut SyncState, sem_id: usize, tid: usize) -> (r: isize)
    requires
        sem_id < old(st).semaphore_list@.len(),
        held(alloc_view(old(st).sem_alloc@), tid as int, sem_id as int) < usize::MAX,
    ensures
        r == 0,
        alloc_view(final(st).sem_alloc@) == granted(
            alloc_view(old(st).sem_alloc@),
            tid as int,
            sem_id as int,
            old(st).semaphore_list@.len() as int,
        ),
        final(st).sem_waiting@ == if tid < old(st).sem_waiting@.len() {
            old(st).sem_waiting@.update(tid as int, None)
        } else {
            old(st).sem_waiting@
        },
        final(st).semaphore_list == old(st).semaphore_list,
        final(st).mutex_list == old(st).mutex_list,
        final(st).mutex_holders == old(st).mutex_holders,
        final(st).condvar_list == old(st).condvar_list,
        final(st).deadlock_detect == old(st).deadlock_detect,
{
    note_granted(st, sem_id, tid);
    0
}


/// The queue of threads waiting on condition variable `id`.
pub open spec fn condvar_queue(st: SyncState, id: int) -> Seq<usize> {
    st.condvar_list@[id].unwrap().wait_queue@
}

/// The condition-variable slots other than `i` are the same in `a` and `b`.
pub open spec fn other_condvars_same(a: Seq<Option<Condvar>>, b: Seq<Option<Condvar>>, i: int) -> bool {
    &&& a.len() == b.len()
    &&& forall|j: int| 0 <= j < a.len() && j != i ==> #[trigger] b[j] == a[j]
}

/// `condvar_create()`: creates a condition variable in the first free slot
/// and returns its id.
pub fn sys_condvar_create(st: &mut SyncState) -> (r: isize)
    requires
        old(st).condvar_list@.len() < isize::MAX,
    ensures
        0 <= r,
        first_free(old(st).condvar_list@, r as int),
        final(st).condvar_list@.len() == if r < old(st).condvar_list@.len() {
            old(st).condvar_list@.len()
        } else {
            old(st).condvar_list@.len() + 1
        },
        forall|j: int|
            0 <= j < old(st).condvar_list@.len() && j != r ==> #[trigger] final(st).condvar_list@[j]
                == old(st).condvar_list@[j],
        final(st).condvar_list@[r as int] is Some,
        condvar_queue(*final(st), r as int) == Seq::<usize>::empty(),
        final(st).mutex_list == old(st).mutex_list,
        final(st).mutex_holders == old(st).mutex_holders,
        final(st).semaphore_list == old(st).semaphore_list,
        final(st).sem_alloc == old(st).sem_alloc,
        final(st).sem_waiting == old(st).sem_waiting,
        final(st).deadlock_detect == old(st).deadlock_detect,
{
    let cv = Condvar { wait_queue: Vec::new() };
    let id = alloc_slot(&mut st.condvar_list, cv);
    id as isize
}

/// `condvar_signal(condvar_id)`: takes the first waiting thread, if any, off
/// the queue and returns it, to be woken. The call itself returns 0.
pub fn sys_condvar_signal(st: &mut SyncState, condvar_id: usize) -> (woken: Option<usize>)
    requires
        condvar_id < old(st).condvar_list@.len(),
        old(st).condvar_list@[condvar_id as int] is Some,
    ensures
        ({
            let q = condvar_queue(*old(st), condvar_id as int);
            &&& final(st).condvar_list@[condvar_id as int] is Some
            &&& woken == if q.len() > 0 {
                Some(q[0])
            } else {
                None::<usize>
            }
            &&& condvar_queue(*final(st), condvar_id as int) == if q.len() > 0 {
                q.subrange(1, q.len() as int)
            } else {
                q
            }
        }),
        other_condvars_same(old(st).condvar_list@, final(st).condvar_list@, condvar_id as int),
        final(st).mutex_list == old(st).mutex_list,
        final(st).mutex_holders == old(st).mutex_holders,
        final(st).semaphore_list == old(st).semaphore_list,
        final(st).sem_alloc == old(st).sem_alloc,
        final(st).sem_waiting == old(st).sem_waiting,
        final(st).deadlock_detect == old(st).deadlock_detect,
{
    let mut cv = st.condvar_list[condvar_id].take().unwrap();
    let mut woken: Option<usize> = None;
    if cv.wait_queue.len() > 0 {
        woken = Some(cv.wait_queue.remove(0));
    }
    st.condvar_list[condvar_id] = Some(cv);
    proof {
        let q = condvar_queue(*old(st), condvar_id as int);
        if woken is Some {
            assert(condvar_queue(*st, condvar_id as int) =~= q.subrange(1, q.len() as int));
        }
        assert(other_condvars_same(old(st).condvar_list@, st.condvar_list@, condvar_id as int));
    }
    woken
}

/// `condvar_wait(condvar_id, mutex_id)` by thread `tid`: once the mutex is
/// released, `tid` joins the condition variable's queue to sleep until
/// signalled, then takes the mutex again. Returns 0.
pub fn sys_condvar_wait(st: &mut SyncState, condvar_id: usize, mutex_id: usize, tid: usize) -> (r:
    isize)
    requires
        condvar_id < old(st).condvar_list@.len(),
        old(st).condvar_list@[condvar_id as int] is Some,
        mutex_id < old(st).mutex_list@.len(),
        old(st).mutex_list@[mutex_id as int] is Some,
    ensures
        r == 0,
        final(st).condvar_list@[condvar_id as int] is Some,
        condvar_queue(*final(st), condvar_id as int) == condvar_queue(
            *old(st),
            condvar_id as int,
        ).push(tid),
        other_condvars_same(old(st).condvar_list@, final(st).condvar_list@, condvar_id as int),
        final(st).mutex_list == old(st).mutex_list,
        final(st).mutex_holders == old(st).mutex_holders,
        final(st).semaphore_list == old(st).semaphore_list,
        final(st).sem_alloc == old(st).sem_alloc,
        final(st).sem_waiting == old(st).sem_waiting,
        final(st).deadlock_detect == old(st).deadlock_detect,
{
    let mut cv = st.condvar_list[condvar_id].take().unwrap();
    cv.wait_queue.push(tid);
    st.condvar_list[condvar_id] = Some(cv);
    assert(other_condvars_same(old(st).condvar_list@, st.condvar_list@, condvar_id as int));
    0
}


/// A mutex that the holder table does not cover yet has no holder, so no
/// thread's first lock of it is refused; one it covers has the holder the
/// table records.
pub proof fn lemma_unrecorded_mutex_has_no_holder(h: Seq<usize>, m: int)
    requires
        0 <= m,
    ensures
        m >= h.len() ==> holder(h, m) == usize::MAX,
        m < h.len() ==> holder(h, m) == h[m],
{
}

/// With detection on, a thread that locks a mutex it already holds is refused:
/// once `tid` has taken mutex `m`, the holder table names `tid` for `m`, and
/// padding the table again for the next `mutex_lock` keeps it so.
pub proof fn lemma_relock_is_deadlock(h: Seq<usize>, m: int, tid: usize)
    requires
        0 <= m,
    ensures
        holder(pad(pad(h, m + 1, NO_HOLDER).update(m, tid), m + 1, NO_HOLDER), m) == tid,
{
}

/// After `mutex_unlock`, the mutex has no holder, so no thread's next
/// `mutex_lock` of it is refused.
pub proof fn lemma_unlock_clears_holder(h: Seq<usize>, m: int, tid: usize)
    requires
        0 <= m,
        tid != NO_HOLDER,
    ensures
        holder(
            pad(
                if m < h.len() {
                    h.update(m, NO_HOLDER)
                } else {
                    h
                },
                m + 1,
                NO_HOLDER,
            ),
            m,
        ) != tid,
{
}

/// Giving back a unit right after it was granted leaves the thread holding
/// as many units of each semaphore as before.
pub proof fn lemma_release_undoes_grant(a: Seq<Seq<usize>>, tid: int, sem_id: int, nsem: int, s: int)
    requires
        0 <= tid,
        0 <= sem_id < nsem,
        held(a, tid, sem_id) < usize::MAX,
    ensures
        held(released(granted(a, tid, sem_id, nsem), tid, sem_id), tid, s) == held(a, tid, s),
{
    let a1 = pad(a, tid + 1, Seq::<usize>::empty());
    assert(a1[tid] == if tid < a.len() { a[tid] } else { Seq::<usize>::empty() });
}

/// Without detection, and whenever a unit is free, `semaphore_down` is never
/// refused.
pub proof fn lemma_down_refused_only_when_detecting_and_exhausted(st: SyncState, sem_id: int, tid: int)
    ensures
        !st.deadlock_detect ==> !would_deadlock(st, sem_id, tid),
        sem_count(st.semaphore_list@, sem_id) > 0 ==> !would_deadlock(st, sem_id, tid),
{
}

/// A `semaphore_up` undoes the caller's `semaphore_down` that was not
/// refused: the count is back where it was. When the down found a unit free,
/// the queue is as before, no thread is woken, and the units the caller holds
/// are as before. When the down had to wait, the up wakes the thread at the
/// front of the queue, the caller itself when nobody waited before it, so
/// waiting threads are woken in the order they blocked.
pub proof fn lemma_up_undoes_down(s: (isize, Seq<usize>), tid: usize, a: Seq<Seq<usize>>, sem_id: int, nsem: int, k: int)
    requires
        isize::MIN < s.0,
        0 <= tid,
        0 <= sem_id < nsem,
        held(a, tid as int, sem_id) < usize::MAX,
    ensures
        after_up(after_down(s, tid)).0 == s.0,
        s.0 >= 1 ==> after_up(after_down(s, tid)) == s && woken_by_up(after_down(s, tid)) is None
            && held(released(granted(a, tid as int, sem_id, nsem), tid as int, sem_id), tid as int, k)
            == held(a, tid as int, k),
        s.0 <= 0 ==> woken_by_up(after_down(s, tid)) == Some(s.1.push(tid)[0]),
        s.0 <= 0 && s.1.len() == 0 ==> woken_by_up(after_down(s, tid)) == Some(tid) && after_up(
            after_down(s, tid),
        ) == s,
        s.0 <= 0 && s.1.len() > 0 ==> woken_by_up(after_down(s, tid)) == Some(s.1[0]) && after_up(
            after_down(s, tid),
        ).1 == s.1.subrange(1, s.1.len() as int).push(tid),
{
    lemma_release_undoes_grant(a, tid as int, sem_id, nsem, k);
    if s.0 <= 0 {
        let q = s.1.push(tid);
        if s.1.len() == 0 {
            assert(q.subrange(1, q.len() as int) =~= s.1);
        } else {
            assert(q.subrange(1, q.len() as int) =~= s.1.subrange(1, s.1.len() as int).push(tid));
        }
    }
}

/// A circular wait is refused: with detection on and no unit of `sem_id`
/// left, if the caller, once recorded as waiting on `sem_id`, is on a closed
/// walk of waiting threads (each waiting on an exhausted semaphore that the
/// next, itself blocked, holds), its `semaphore_down` returns `DEADLOCK`.
pub proof fn lemma_circular_wait_refused(st: SyncState, sem_id: int, tid: int, p: Seq<int>)
    requires
        st.deadlock_detect,
        sem_count(st.semaphore_list@, sem_id) <= 0,
        wait_graph(
            st.sem_alloc@,
            waiting_on(st.sem_waiting@, tid, sem_id as usize),
            avail_after(st.semaphore_list@, sem_id),
        ).is_walk(p),
        p.len() >= 2,
        p[0] == tid,
        p.last() == tid,
    ensures
        would_deadlock(st, sem_id, tid),
{
    let g = wait_graph(
        st.sem_alloc@,
        waiting_on(st.sem_waiting@, tid, sem_id as usize),
        avail_after(st.semaphore_list@, sem_id),
    );
    assert(g.is_walk(p) && p[0] == tid && 0 <= 0 < p.len() - 1 && p[0] == p.last());
}

/// No false report: a `semaphore_down` is never refused when no other
/// thread holding a unit of `sem_id` is itself blocked, since then the
/// caller waits for nobody who cannot go on.
pub proof fn lemma_no_refusal_when_holders_run(st: SyncState, sem_id: usize, tid: int)
    requires
        0 <= tid,
        sem_id < st.semaphore_list@.len(),
        forall|h: int|
            #![trigger alloc_view(st.sem_alloc@)[h]]
            0 <= h < st.sem_alloc@.len() && h != tid && sem_id < alloc_view(st.sem_alloc@)[h].len()
                && alloc_view(st.sem_alloc@)[h][sem_id as int] > 0 ==> !wait_graph(
                st.sem_alloc@,
                waiting_on(st.sem_waiting@, tid, sem_id),
                avail_after(st.semaphore_list@, sem_id as int),
            ).blocked(h),
    ensures
        !would_deadlock(st, sem_id as int, tid),
{
    let g = wait_graph(
        st.sem_alloc@,
        waiting_on(st.sem_waiting@, tid, sem_id),
        avail_after(st.semaphore_list@, sem_id as int),
    );
    assert(g.waiting[tid] == Some(sem_id));
    if g.reaches_cycle(tid) {
        let (p, i) = choose|p: Seq<int>, i: int|
            #![trigger g.is_walk(p), p[i]]
            g.is_walk(p) && p[0] == tid && 0 <= i < p.len() - 1 && p[i] == p.last();
        assert(g.step(p, 0));
        let h = p[1];
        assert(g.edge(tid, h));
        assert(g.alloc.len() == st.sem_alloc@.len());
        assert(alloc_view(st.sem_alloc@)[h] == g.alloc[h]);
        assert(0 <= h < st.sem_alloc@.len() && h != tid && sem_id < alloc_view(st.sem_alloc@)[h].len()
            && alloc_view(st.sem_alloc@)[h][sem_id as int] > 0);
        assert(!g.blocked(h));
    }
}

} // verus!
