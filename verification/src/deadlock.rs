//! Deadlock detection for counting semaphores: a thread about to block on a
//! semaphore is refused when that would close a cycle of threads each
//! waiting for a semaphore that another blocked thread of the cycle holds.

use vstd::prelude::*;

verus! {

/// The wait-for graph that the detection walks, as plain values: for each
/// thread the units it holds of each semaphore, the semaphore it waits on (if
/// any), and each semaphore's count as it would stand after the pending
/// request (negative when threads are waiting on it).
pub struct WaitGraph {
    pub alloc: Seq<Seq<usize>>,
    pub waiting: Seq<Option<usize>>,
    pub avail: Seq<isize>,
}

/// The units held, per thread and semaphore, as plain sequences.
pub open spec fn alloc_view(alloc: Seq<Vec<usize>>) -> Seq<Seq<usize>> {
    alloc.map_values(|v: Vec<usize>| v@)
}

/// The graph that the arguments of `detect_sem_deadlock` describe.
pub open spec fn wait_graph(
    alloc: Seq<Vec<usize>>,
    waiting: Seq<Option<usize>>,
    avail: Seq<isize>,
) -> WaitGraph {
    WaitGraph { alloc: alloc_view(alloc), waiting, avail }
}

impl WaitGraph {
    /// Number of threads that the graph knows of.
    pub open spec fn n(self) -> int {
        self.waiting.len() as int
    }

    /// Thread `t` waits on a semaphore that has no unit left for it.
    pub open spec fn blocked(self, t: int) -> bool {
        0 <= t < self.waiting.len() && match self.waiting[t] {
            Some(s) => s < self.avail.len() && self.avail[s as int] < 0,
            None => false,
        }
    }

    /// Thread `t` waits on an exhausted semaphore of which the other, itself
    /// blocked, thread `h` holds at least one unit.
    pub open spec fn edge(self, t: int, h: int) -> bool {
        0 <= t < self.waiting.len() && match self.waiting[t] {
            Some(ws) => {
                &&& ws < self.avail.len()
                &&& self.avail[ws as int] < 0
                &&& h != t
                &&& 0 <= h < self.alloc.len()
                &&& ws < self.alloc[h].len()
                &&& self.alloc[h][ws as int] > 0
                &&& self.blocked(h)
            },
            None => false,
        }
    }

    /// The `k`-th step of `p` follows an edge.
    pub open spec fn step(self, p: Seq<int>, k: int) -> bool {
        self.edge(p[k], p[k + 1])
    }

    /// `p` is a walk along edges of the graph.
    pub open spec fn is_walk(self, p: Seq<int>) -> bool {
        &&& p.len() >= 1
        &&& forall|k: int| 0 <= k < p.len() - 1 ==> #[trigger] self.step(p, k)
    }

    /// A walk from thread `u` comes back to a thread it passed before: a
    /// cycle of waiting threads can be reached from `u`.
    pub open spec fn reaches_cycle(self, u: int) -> bool {
        exists|p: Seq<int>, i: int|
            #![trigger self.is_walk(p), p[i]]
            self.is_walk(p) && p[0] == u && 0 <= i < p.len() - 1 && p[i] == p.last()
    }
}

/// Number of `false` entries.
pub open spec fn count_false(s: Seq<bool>) -> nat
    decreases s.len(),
{
    if s.len() == 0 {
        0
    } else {
        count_false(s.drop_last()) + if s.last() {
            0nat
        } else {
            1nat
        }
    }
}

proof fn lemma_count_false_mono(s1: Seq<bool>, s2: Seq<bool>, j: int)
    requires
        s1.len() == s2.len(),
        forall|i: int| 0 <= i < s1.len() && #[trigger] s1[i] ==> s2[i],
    ensures
        count_false(s2) <= count_false(s1),
        0 <= j < s1.len() && !s1[j] && s2[j] ==> count_false(s2) < count_false(s1),
    decreases s1.len(),
{
    if s1.len() > 0 {
        let a = s1.drop_last();
        let b = s2.drop_last();
        assert forall|i: int| 0 <= i < a.len() && #[trigger] a[i] implies b[i] by {
            assert(a[i] == s1[i]);
            assert(b[i] == s2[i]);
        }
        lemma_count_false_mono(a, b, j);
        if s1.last() {
            assert(s1[s1.len() - 1]);
            assert(s2[s2.len() - 1]);
        }
    }
}

/// Thread `x` is finished in the search: visited and off the current path.
pub open spec fn done(vis: Seq<bool>, stk: Seq<bool>, x: int) -> bool {
    0 <= x < vis.len() && vis[x] && !stk[x]
}

/// What the search keeps of the finished threads: their successors are all
/// finished, and none of them reaches a cycle.
pub open spec fn done_ok(g: WaitGraph, vis: Seq<bool>, stk: Seq<bool>) -> bool {
    &&& forall|x: int, y: int| done(vis, stk, x) && #[trigger] g.edge(x, y) ==> done(vis, stk, y)
    &&& forall|x: int| #[trigger] done(vis, stk, x) ==> !g.reaches_cycle(x)
}

/// A walk that starts in a set closed under edges stays in it.
proof fn lemma_walk_stays_done(g: WaitGraph, vis: Seq<bool>, stk: Seq<bool>, p: Seq<int>, k: int)
    requires
        done_ok(g, vis, stk),
        g.is_walk(p),
        done(vis, stk, p[0]),
        0 <= k < p.len(),
    ensures
        done(vis, stk, p[k]),
    decreases k,
{
    if k > 0 {
        lemma_walk_stays_done(g, vis, stk, p, k - 1);
        assert(g.step(p, k - 1));
    }
}

/// A thread whose successors are all finished, and which is itself not
/// finished, reaches no cycle.
proof fn lemma_no_cycle_from(g: WaitGraph, vis: Seq<bool>, stk: Seq<bool>, t: int)
    requires
        done_ok(g, vis, stk),
        !done(vis, stk, t),
        forall|y: int| #[trigger] g.edge(t, y) ==> done(vis, stk, y),
    ensures
        !g.reaches_cycle(t),
{
    if g.reaches_cycle(t) {
        let (p, i) = choose|p: Seq<int>, i: int|
            #![trigger g.is_walk(p), p[i]]
            g.is_walk(p) && p[0] == t && 0 <= i < p.len() - 1 && p[i] == p.last();
        assert(g.step(p, 0));
        let q = p.skip(1);
        assert(g.is_walk(q)) by {
            assert forall|k: int| 0 <= k < q.len() - 1 implies #[trigger] g.step(q, k) by {
                assert(g.step(p, k + 1));
                assert(q[k] == p[k + 1] && q[k + 1] == p[k + 2]);
            }
        }
        if i == 0 {
            lemma_walk_stays_done(g, vis, stk, q, q.len() - 1);
        } else {
            assert(q[i - 1] == q.last());
            assert(g.is_walk(q) && q[0] == p[1] && 0 <= i - 1 < q.len() - 1 && q[i - 1] == q.last());
            assert(g.reaches_cycle(p[1]));
        }
    }
}

/// Whether thread `t` waits on a semaphore whose count is below zero.
pub fn really_blocked(sem_waiting: &[Option<usize>], avail: &[isize], t: usize) -> (r: bool)
    ensures
        r == (t < sem_waiting@.len() && match sem_waiting@[t as int] {
            Some(s) => s < avail@.len() && avail@[s as int] < 0,
            None => false,
        }),
{
    if t >= sem_waiting.len() {
        return false;
    }
    if let Some(s) = sem_waiting[t] {
        s < avail.len() && avail[s] < 0
    } else {
        false
    }
}

/// Depth-first search for a cycle of waiting threads from `t`. `path` holds
/// the threads on the search path from `target` down to `t`, exclusive.
fn dfs(
    t: usize,
    alloc: &[Vec<usize>],
    waiting: &[Option<usize>],
    avail: &[isize],
    vis: &mut Vec<bool>,
    stk: &mut Vec<bool>,
    nsem: usize,
    target: usize,
    Ghost(path): Ghost<Seq<int>>,
) -> (found: bool)
    requires
        nsem == avail@.len(),
        old(vis)@.len() == waiting@.len(),
        old(stk)@.len() == waiting@.len(),
        forall|x: int| 0 <= x < old(vis)@.len() && #[trigger] old(stk)@[x] ==> old(vis)@[x],
        forall|x: int| 0 <= x < old(vis)@.len() ==> (old(stk)@[x] <==> path.contains(x)),
        t < waiting@.len() ==> !old(vis)@[t as int],
        wait_graph(alloc@, waiting@, avail@).is_walk(path.push(t as int)),
        path.push(t as int)[0] == target,
        done_ok(wait_graph(alloc@, waiting@, avail@), old(vis)@, old(stk)@),
    ensures
        final(vis)@.len() == old(vis)@.len(),
        final(stk)@.len() == old(stk)@.len(),
        found ==> wait_graph(alloc@, waiting@, avail@).reaches_cycle(target as int),
        !found ==> {
            &&& final(stk)@ == old(stk)@
            &&& forall|x: int| 0 <= x < old(vis)@.len() && #[trigger] old(vis)@[x] ==> final(vis)@[x]
            &&& done_ok(wait_graph(alloc@, waiting@, avail@), final(vis)@, final(stk)@)
            &&& t < waiting@.len() ==> done(final(vis)@, final(stk)@, t as int)
        },
    decreases count_false(old(vis)@),
{
    let ghost g = wait_graph(alloc@, waiting@, avail@);
    if t >= vis.len() {
        return false;
    }
    let ghost vis0 = vis@;
    let ghost stk0 = stk@;
    let ghost stack = path.push(t as int);
    vis[t] = true;
    stk[t] = true;
    let ghost vis1 = vis@;
    proof {
        lemma_count_false_mono(vis0, vis1, t as int);
        assert forall|x: int| #![trigger done(vis1, stk@, x)] done(vis1, stk@, x) implies done(vis0, stk0, x) by {
            assert(x != t);
        }
        assert forall|x: int, y: int| done(vis@, stk@, x) && #[trigger] g.edge(x, y) implies done(vis@, stk@, y) by {
            assert(done(vis0, stk0, x));
            assert(done(vis0, stk0, y));
            assert(y != t);
        }
        assert forall|x: int| #[trigger] done(vis@, stk@, x) implies !g.reaches_cycle(x) by {
            assert(done(vis0, stk0, x));
        }
    }
    proof {
        assert forall|x: int| 0 <= x < vis@.len() implies (stk@[x] <==> stack.contains(x)) by {
            if x == t {
                assert(stack[stack.len() - 1] == x);
            } else if path.contains(x) {
                let k = choose|k: int| 0 <= k < path.len() && path[k] == x;
                assert(stack[k] == x);
            } else if stack.contains(x) {
                let k = choose|k: int| 0 <= k < stack.len() && stack[k] == x;
                assert(k < path.len());
                assert(path[k] == x);
            }
        }
    }
    let wanted: Option<usize> = if t == target {
        Some(
            if target < waiting.len() {
                match waiting[target] {
                    Some(s) => s,
                    None => usize::MAX,
                }
            } else {
                usize::MAX
            },
        )
    } else {
        waiting[t]
    };
    if let Some(ws) = wanted {
        if ws < nsem && avail[ws] < 0 {
            assert(waiting@[t as int] == Some(ws));
            let mut h: usize = 0;
            while h < alloc.len()
                invariant
                    0 <= h <= alloc@.len(),
                    g == wait_graph(alloc@, waiting@, avail@),
                    nsem == avail@.len(),
                    t < waiting@.len(),
                    waiting@[t as int] == Some(ws),
                    ws < avail@.len(),
                    avail@[ws as int] < 0,
                    stack == path.push(t as int),
                    g.is_walk(stack),
                    stack[0] == target,
                    vis@.len() == waiting@.len(),
                    stk@.len() == waiting@.len(),
                    stk@ == stk0.update(t as int, true),
                    vis@[t as int],
                    forall|x: int| 0 <= x < vis@.len() && #[trigger] vis1[x] ==> vis@[x],
                    forall|x: int| 0 <= x < vis@.len() && #[trigger] vis0[x] ==> vis@[x],
                    count_false(vis@) < count_false(vis0),
                    forall|x: int| 0 <= x < vis@.len() && #[trigger] stk@[x] ==> vis@[x],
                    forall|x: int| 0 <= x < vis@.len() ==> (stk@[x] <==> stack.contains(x)),
                    done_ok(g, vis@, stk@),
                    forall|y: int| 0 <= y < h && #[trigger] g.edge(t as int, y) ==> done(vis@, stk@, y),
                    vis0 == old(vis)@,
                    stk0 == old(stk)@,
                    vis0.len() == waiting@.len(),
                    vis1.len() == waiting@.len(),
                    stk0.len() == waiting@.len(),
                    count_false(vis1) < count_false(vis0),
                decreases alloc@.len() - h,
            {
                if h != t {
                    if ws < alloc[h].len() && alloc[h][ws] > 0 {
                        if really_blocked(waiting, avail, h) {
                            assert(g.edge(t as int, h as int));
                            if h < stk.len() && stk[h] {
                                proof {
                                    let w = stack.push(h as int);
                                    assert(stack.contains(h as int));
                                    let i = choose|i: int| 0 <= i < stack.len() && stack[i] == h;
                                    assert(w[i] == w.last());
                                    assert(g.is_walk(w)) by {
                                        assert forall|k: int| 0 <= k < w.len() - 1 implies #[trigger] g.step(w, k) by {
                                            if k < w.len() - 2 {
                                                assert(g.step(stack, k));
                                            }
                                        }
                                    }
                                    assert(g.is_walk(w) && w[0] == target && 0 <= i < w.len() - 1 && w[i] == w.last());
                                }
                                return true;
                            }
                            if !(h < vis.len() && vis[h]) {
                                let ghost visb = vis@;
                                proof {
                                    lemma_count_false_mono(vis1, visb, t as int);
                                    assert(!stack.contains(h as int));
                                    assert(g.is_walk(stack.push(h as int))) by {
                                        let w = stack.push(h as int);
                                        assert forall|k: int| 0 <= k < w.len() - 1 implies #[trigger] g.step(w, k) by {
                                            if k < w.len() - 2 {
                                                assert(g.step(stack, k));
                                            }
                                        }
                                    }
                                }
                                if dfs(h, alloc, waiting, avail, vis, stk, nsem, target, Ghost(stack)) {
                                    return true;
                                }
                                proof {
                                    assert forall|x: int| 0 <= x < vis@.len() && #[trigger] vis1[x] implies vis@[x] by {
                                        assert(visb[x]);
                                    }
                                    assert forall|x: int| 0 <= x < vis@.len() && #[trigger] vis0[x] implies vis@[x] by {
                                        assert(visb[x]);
                                    }
                                    lemma_count_false_mono(vis1, vis@, t as int);
                                    assert forall|y: int| 0 <= y <= h && #[trigger] g.edge(t as int, y) implies done(vis@, stk@, y) by {
                                        if y < h {
                                            assert(done(visb, stk@, y));
                                        }
                                    }
                                }
                            }
                        }
                    }
                }
                h = h + 1;
            }
        }
    }
    proof {
        assert forall|y: int| #[trigger] g.edge(t as int, y) implies done(vis@, stk@, y) by {
            assert(waiting@[t as int] == wanted || t == target);
        }
        lemma_no_cycle_from(g, vis@, stk@, t as int);
    }
    let ghost vis2 = vis@;
    let ghost stk2 = stk@;
    stk[t] = false;
    proof {
        assert(stk@ =~= stk0);
        assert forall|x: int| #![trigger done(vis@, stk@, x)] done(vis@, stk@, x) && x != t implies done(vis2, stk2, x) by {}
        assert forall|x: int, y: int| done(vis@, stk@, x) && #[trigger] g.edge(x, y) implies done(vis@, stk@, y) by {
            if x != t {
                assert(done(vis2, stk2, x));
                assert(done(vis2, stk2, y));
            }
        }
        assert forall|x: int| #[trigger] done(vis@, stk@, x) implies !g.reaches_cycle(x) by {
            if x != t {
                assert(done(vis2, stk2, x));
            }
        }
    }
    false
}

/// Whether letting thread `tid` wait, as `sem_waiting` already records, would
/// leave a cycle of waiting threads: true exactly when, in the wait-for graph
/// where a thread waiting on an exhausted semaphore points to each other
/// blocked thread holding a unit of it, a cycle can be reached from `tid`.
pub fn detect_sem_deadlock(
    alloc: &[Vec<usize>],
    waiting: &[Option<usize>],
    avail: &[isize],
    tid: usize,
    _sem_id: usize,
) -> (r: bool)
    ensures
        r == wait_graph(alloc@, waiting@, avail@).reaches_cycle(tid as int),
{
    let ghost g = wait_graph(alloc@, waiting@, avail@);
    let nsem = avail.len();
    let mut vis: Vec<bool> = vec![false; waiting.len()];
    let mut stk: Vec<bool> = vec![false; waiting.len()];
    proof {
        assert(g.is_walk(Seq::<int>::empty().push(tid as int)));
        assert forall|x: int| 0 <= x < vis@.len() implies !vis@[x] && !stk@[x] by {
            assert(cloned(false, vis@[x]));
            assert(cloned(false, stk@[x]));
        }
    }
    let r = dfs(tid, alloc, waiting, avail, &mut vis, &mut stk, nsem, tid, Ghost(Seq::empty()));
    proof {
        if !r && tid >= waiting.len() {
            if g.reaches_cycle(tid as int) {
                let (p, i) = choose|p: Seq<int>, i: int|
                    #![trigger g.is_walk(p), p[i]]
                    g.is_walk(p) && p[0] == tid && 0 <= i < p.len() - 1 && p[i] == p.last();
                assert(g.step(p, 0));
            }
        }
    }
    r
}

} // verus!
